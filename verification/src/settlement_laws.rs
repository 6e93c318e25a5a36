//! What becomes of messages when the fate of a packet or of a link is known.

use crate::delivery::{PassView, RequestView};
use crate::hash::LinkId;
use crate::outbound::{
    EntryView, LxmfEvent, OutboundDirectJob, OutboundState, RouterView, MAX_DELIVERY_ATTEMPTS,
};
use crate::{delivery, delivery_laws, links, outbound, queue_laws, search};
use vstd::prelude::*;

verus! {

/// Whether the entry at `i` is the first of `q` that waits for the receipt of the packet
/// `hash`.
pub open spec fn first_awaits(q: Seq<EntryView>, hash: [u8; 32], i: int) -> bool {
    &&& 0 <= i < q.len()
    &&& q[i].receipt_hashes.contains(hash)
    &&& forall|j: int| 0 <= j < i ==> !(#[trigger] q[j]).receipt_hashes.contains(hash)
}

/// Whether no entry of `q` waits for the receipt of the packet `hash`.
pub open spec fn none_awaits(q: Seq<EntryView>, hash: [u8; 32]) -> bool {
    forall|j: int| 0 <= j < q.len() ==> !(#[trigger] q[j]).receipt_hashes.contains(hash)
}

/// Picks the hashes that differ from `hash`.
pub open spec fn differs_from(hash: [u8; 32]) -> spec_fn([u8; 32]) -> bool {
    |h: [u8; 32]| h != hash
}

/// The hashes of `s` that differ from `hash`, in order.
pub open spec fn others(s: Seq<[u8; 32]>, hash: [u8; 32]) -> Seq<[u8; 32]> {
    s.filter(differs_from(hash))
}

proof fn lemma_receipt_index(r: RouterView, hash: [u8; 32], i: int)
    requires
        first_awaits(r.queue, hash, i),
    ensures
        r.receipt_index(hash) == Some(i),
{
    let p = outbound::awaits_receipt(hash);
    assert(p(r.queue[i]));
    assert forall|j: int| 0 <= j < i implies !p(#[trigger] r.queue[j]) by {}
    search::lemma_first_at(r.queue, p, i);
}

proof fn lemma_no_receipt_index(r: RouterView, hash: [u8; 32])
    requires
        none_awaits(r.queue, hash),
    ensures
        r.receipt_index(hash) is None,
{
    let p = outbound::awaits_receipt(hash);
    assert forall|j: int| 0 <= j < r.queue.len() implies !p(#[trigger] r.queue[j]) by {}
    search::lemma_first_none(r.queue, p);
}

/// A proof for any attempt that is out delivers the message: its entry leaves the queue and
/// nothing else changes, its hash and destination are told, and the receipts of its other
/// attempts, in order, are what is to be cancelled.
pub proof fn law_proof_delivers(r: RouterView, packet_hash: [u8; 32], i: int)
    requires
        first_awaits(r.queue, packet_hash, i),
    ensures
        r.proved(packet_hash) == (RouterView { queue: r.queue.remove(i), ..r }),
        r.proof_event(packet_hash) == Some(
            LxmfEvent::MessageDelivered {
                message_hash: r.queue[i].message_hash,
                dest_hash: r.queue[i].message.destination_hash,
            },
        ),
        r.siblings(packet_hash) == others(r.queue[i].receipt_hashes, packet_hash),
{
    lemma_receipt_index(r, packet_hash, i);
    assert(outbound::other_than(packet_hash) =~= differs_from(packet_hash));
}

/// A proof or a failure of a packet that no entry waits for changes nothing and tells
/// nothing.
pub proof fn law_unknown_receipt(r: RouterView, packet_hash: [u8; 32])
    requires
        none_awaits(r.queue, packet_hash),
    ensures
        r.receipt_index(packet_hash) is None,
        r.proved(packet_hash) == r,
        r.proof_event(packet_hash) is None,
        r.siblings(packet_hash).len() == 0,
        r.failure_settled(packet_hash) == r,
        r.failure_event(packet_hash) is None,
        r.failure_marked(packet_hash) == r,
{
    lemma_no_receipt_index(r, packet_hash);
}

/// Whether the failure of the packet `hash` ends the delivery of `e`: its attempts are used
/// up, and it waits for no other receipt.
pub open spec fn ends_by_failure(e: EntryView, hash: [u8; 32]) -> bool {
    &&& e.delivery_attempts >= MAX_DELIVERY_ATTEMPTS
    &&& forall|h: [u8; 32]| #[trigger] e.receipt_hashes.contains(h) ==> h == hash
}

proof fn lemma_others_empty(s: Seq<[u8; 32]>, hash: [u8; 32])
    ensures
        others(s, hash).len() == 0 <==> (forall|h: [u8; 32]| #[trigger]
            s.contains(h) ==> h == hash),
{
    let p = differs_from(hash);
    if others(s, hash).len() > 0 {
        let h = others(s, hash)[0];
        assert(others(s, hash).contains(h));
        s.lemma_filter_contains_rev(p, h);
        s.lemma_filter_pred(p, 0);
        assert(p(h));
    } else {
        assert forall|h: [u8; 32]| #[trigger] s.contains(h) implies h == hash by {
            if h != hash {
                let i = s.index_of(h);
                assert(p(s[i]));
                s.lemma_filter_contains(p, i);
                assert(others(s, hash).contains(h));
            }
        }
    }
}

/// A failed attempt that does not end its message is struck from its receipts and changes
/// nothing else, neither in its entry nor in any other one, and nothing is told; whichever
/// of the two ways it is taken note of.
pub proof fn law_failed_attempt_is_retired(r: RouterView, packet_hash: [u8; 32], i: int)
    requires
        first_awaits(r.queue, packet_hash, i),
        !ends_by_failure(r.queue[i], packet_hash),
    ensures
        r.receipt_index(packet_hash) is Some,
        r.failure_event(packet_hash) is None,
        r.failure_settled(packet_hash) == (RouterView {
            queue: r.queue.update(
                i,
                EntryView {
                    receipt_hashes: others(r.queue[i].receipt_hashes, packet_hash),
                    ..r.queue[i]
                },
            ),
            ..r
        }),
        r.failure_marked(packet_hash) == r.failure_settled(packet_hash),
{
    lemma_receipt_index(r, packet_hash, i);
    assert(outbound::other_than(packet_hash) =~= differs_from(packet_hash));
    lemma_others_empty(r.queue[i].receipt_hashes, packet_hash);
}

/// A failed attempt that was the last hope of its message ends it. Settled, the message
/// leaves the queue and its failure is told with its hash and destination; marked, it is
/// put down as failed with no receipt left, and is otherwise as it was. Either way no
/// other entry changes.
pub proof fn law_last_failed_attempt_ends_message(r: RouterView, packet_hash: [u8; 32], i: int)
    requires
        first_awaits(r.queue, packet_hash, i),
        ends_by_failure(r.queue[i], packet_hash),
    ensures
        r.receipt_index(packet_hash) is Some,
        r.failure_event(packet_hash) == Some(
            LxmfEvent::MessageFailed {
                message_hash: r.queue[i].message_hash,
                dest_hash: r.queue[i].message.destination_hash,
            },
        ),
        r.failure_settled(packet_hash) == (RouterView { queue: r.queue.remove(i), ..r }),
        r.failure_marked(packet_hash) == (RouterView {
            queue: r.queue.update(
                i,
                EntryView {
                    receipt_hashes: Seq::empty(),
                    state: OutboundState::Failed,
                    ..r.queue[i]
                },
            ),
            ..r
        }),
{
    lemma_receipt_index(r, packet_hash, i);
    assert(outbound::other_than(packet_hash) =~= differs_from(packet_hash));
    lemma_others_empty(r.queue[i].receipt_hashes, packet_hash);
    assert(others(r.queue[i].receipt_hashes, packet_hash) =~= Seq::empty());
}

/// A message that failed attempts have not ended can still be delivered: a later proof of
/// any attempt that is still out finds it.
pub proof fn law_late_proof_still_delivers(
    r: RouterView,
    failed: [u8; 32],
    proved: [u8; 32],
    i: int,
)
    requires
        first_awaits(r.queue, failed, i),
        first_awaits(r.queue, proved, i),
        failed != proved,
    ensures
        r.failure_settled(failed).proof_event(proved) == Some(
            LxmfEvent::MessageDelivered {
                message_hash: r.queue[i].message_hash,
                dest_hash: r.queue[i].message.destination_hash,
            },
        ),
        r.failure_settled(failed).proved(proved).queue == r.queue.remove(i),
{
    let e = r.queue[i];
    assert(!ends_by_failure(e, failed)) by {
        assert(e.receipt_hashes.contains(proved));
    }
    law_failed_attempt_is_retired(r, failed, i);
    let after = r.failure_settled(failed);
    let p = differs_from(failed);
    let k = e.receipt_hashes.index_of(proved);
    assert(p(e.receipt_hashes[k]));
    e.receipt_hashes.lemma_filter_contains(p, k);
    assert(after.queue[i].receipt_hashes.contains(proved));
    assert(first_awaits(after.queue, proved, i)) by {
        assert forall|j: int| 0 <= j < i implies !(
        #[trigger] after.queue[j]).receipt_hashes.contains(proved) by {
            assert(after.queue[j] == r.queue[j]);
        }
    }
    law_proof_delivers(after, proved, i);
    assert(after.queue.remove(i) =~= r.queue.remove(i));
}

/// When a link is established, the jobs that waited for it are sending over it, with the
/// same message and destination; every other job is as it was.
pub proof fn law_established_jobs(jobs: Seq<OutboundDirectJob>, link: LinkId)
    ensures
        links::jobs_established(jobs, link).len() == jobs.len(),
        forall|i: int|
            0 <= i < jobs.len() ==> #[trigger] links::jobs_established(jobs, link)[i]
                == match jobs[i] {
                OutboundDirectJob::Linking { dest_hash, link_id, message_hash } => if link_id
                    == link {
                    OutboundDirectJob::Sending { dest_hash, link_id, message_hash }
                } else {
                    jobs[i]
                },
                OutboundDirectJob::Sending { .. } => jobs[i],
            },
{
}

/// Whether the entry at `k` is the first of `q` that is tracked by `hash`.
pub open spec fn first_tracked(q: Seq<EntryView>, hash: [u8; 32], k: int) -> bool {
    &&& 0 <= k < q.len()
    &&& q[k].message_hash == hash
    &&& forall|j: int| 0 <= j < k ==> (#[trigger] q[j]).message_hash != hash
}

/// Whether some entry of `q` is tracked by `hash`.
pub open spec fn is_tracked(q: Seq<EntryView>, hash: [u8; 32]) -> bool {
    exists|k: int| 0 <= k < q.len() && (#[trigger] q[k]).message_hash == hash
}

proof fn lemma_first_tracked(q: Seq<EntryView>, hash: [u8; 32])
    ensures
        match search::first_index(q, outbound::hash_is(hash)) {
            Some(k) => first_tracked(q, hash, k),
            None => !is_tracked(q, hash),
        },
{
    let p = outbound::hash_is(hash);
    search::lemma_first_index(q, p);
    match search::first_index(q, p) {
        Some(k) => {
            assert(p(q[k]));
            assert forall|j: int| 0 <= j < k implies (#[trigger] q[j]).message_hash != hash by {
                assert(!p(q[j]));
            }
        },
        None => {
            if is_tracked(q, hash) {
                let k = choose|k: int| 0 <= k < q.len() && (#[trigger] q[k]).message_hash == hash;
                assert(!p(q[k]));
            }
        },
    }
}

/// The jobs that wait for `link` with a message that is still in the queue `q`.
pub open spec fn ready_jobs(
    q: Seq<EntryView>,
    jobs: Seq<OutboundDirectJob>,
    link: LinkId,
) -> Seq<OutboundDirectJob> {
    jobs.filter(
        |job: OutboundDirectJob|
            job is Linking && delivery_laws::job_parts(job).1 == link && is_tracked(
                q,
                delivery_laws::job_parts(job).2,
            ),
    )
}

/// What is sent over a link that is established is, for each job that waited for it and in
/// the order of the jobs, the packed form of the very message that the job delivers; and
/// nothing else is sent.
pub proof fn law_sent_over_link(q: Seq<EntryView>, jobs: Seq<OutboundDirectJob>, link: LinkId)
    ensures
        links::resources(q, jobs, link).len() == ready_jobs(q, jobs, link).len(),
        forall|n: int, k: int|
            #![trigger links::resources(q, jobs, link)[n], q[k]]
            0 <= n < ready_jobs(q, jobs, link).len() && first_tracked(
                q,
                delivery_laws::job_parts(ready_jobs(q, jobs, link)[n]).2,
                k,
            ) ==> links::resources(q, jobs, link)[n] == q[k].message.packed(),
    decreases jobs.len(),
{
    reveal(Seq::filter);
    if jobs.len() > 0 {
        let front = jobs.drop_last();
        let job = jobs.last();
        let hash = delivery_laws::job_parts(job).2;
        law_sent_over_link(q, front, link);
        lemma_first_tracked(q, hash);
        let before = links::resources(q, front, link);
        let sent = links::resources(q, jobs, link);
        let ready = ready_jobs(q, jobs, link);
        match search::first_index(q, outbound::hash_is(hash)) {
            Some(at) => {
                assert(q[at].message_hash == hash);
                assert forall|n: int, k: int|
                    #![trigger sent[n], q[k]]
                    0 <= n < ready.len() && first_tracked(
                        q,
                        delivery_laws::job_parts(ready[n]).2,
                        k,
                    ) implies sent[n] == q[k].message.packed() by {
                    if n < before.len() {
                        assert(sent[n] == before[n]);
                        assert(ready[n] == ready_jobs(q, front, link)[n]);
                    } else {
                        assert(ready[n] == job);
                        assert(k == at) by {
                            if k < at {
                                assert(q[k].message_hash != hash);
                            }
                            if at < k {
                                assert(q[at].message_hash != hash);
                            }
                        }
                    }
                }
            },
            None => {},
        }
    }
}

/// Whether the job at `i` is the first of `jobs` over `link`.
pub open spec fn first_over(jobs: Seq<OutboundDirectJob>, link: LinkId, i: int) -> bool {
    &&& 0 <= i < jobs.len()
    &&& delivery_laws::job_parts(jobs[i]).1 == link
    &&& forall|j: int| 0 <= j < i ==> delivery_laws::job_parts(#[trigger] jobs[j]).1 != link
}

/// A transfer that is complete ends the first job over its link and delivers the message
/// of that job; nothing else changes.
pub proof fn law_transfer_complete(r: RouterView, link: LinkId, i: int)
    requires
        first_over(r.jobs, link, i),
    ensures
        ({
            let after = r.resource_complete(link);
            let hash = delivery_laws::job_parts(r.jobs[i]).2;
            &&& after.jobs == r.jobs.remove(i)
            &&& after.costs == r.costs
            &&& after.tickets == r.tickets
            &&& after.queue.len() == r.queue.len()
            &&& forall|k: int|
                0 <= k < r.queue.len() ==> #[trigger] after.queue[k] == if first_tracked(
                    r.queue,
                    hash,
                    k,
                ) {
                    EntryView { state: OutboundState::Delivered, ..r.queue[k] }
                } else {
                    r.queue[k]
                }
        }),
{
    let p = outbound::goes_over(link);
    assert(p(r.jobs[i]));
    assert forall|j: int| 0 <= j < i implies !p(#[trigger] r.jobs[j]) by {
        assert(delivery_laws::job_parts(r.jobs[j]).1 != link);
    }
    search::lemma_first_at(r.jobs, p, i);
    let hash = r.jobs[i].hash();
    let after = r.resource_complete(link);
    lemma_first_tracked(r.queue, hash);
    assert forall|k: int| 0 <= k < r.queue.len() implies #[trigger] after.queue[k]
        == if first_tracked(r.queue, hash, k) {
        EntryView { state: OutboundState::Delivered, ..r.queue[k] }
    } else {
        r.queue[k]
    } by {
        match search::first_index(r.queue, outbound::hash_is(hash)) {
            Some(at) => {
                assert(r.queue[at].message_hash == hash);
                if first_tracked(r.queue, hash, k) && k != at {
                    assert(r.queue[k].message_hash == hash);
                }
            },
            None => {
                if first_tracked(r.queue, hash, k) {
                    assert(r.queue[k].message_hash == hash);
                }
            },
        }
    }
}

/// A transfer over a link that no job goes over changes nothing.
pub proof fn law_unknown_transfer(r: RouterView, link: LinkId)
    requires
        forall|j: int|
            0 <= j < r.jobs.len() ==> delivery_laws::job_parts(#[trigger] r.jobs[j]).1 != link,
    ensures
        r.resource_complete(link) == r,
{
    let p = outbound::goes_over(link);
    assert forall|j: int| 0 <= j < r.jobs.len() implies !p(#[trigger] r.jobs[j]) by {
        assert(delivery_laws::job_parts(r.jobs[j]).1 != link);
    }
    search::lemma_first_none(r.jobs, p);
}

/// Whether one of `jobs` is about the message tracked by `hash` and goes over `link`.
pub open spec fn goes_by_link(
    jobs: Seq<OutboundDirectJob>,
    link: LinkId,
    hash: [u8; 32],
) -> bool {
    exists|i: int|
        0 <= i < jobs.len() && delivery_laws::job_parts(#[trigger] jobs[i]).1 == link
            && delivery_laws::job_parts(jobs[i]).2 == hash
}

/// A link that closes ends exactly the jobs over it, whether they waited for it or were
/// sending; the others stay in order. The messages of the jobs that ended wait again and
/// are otherwise as they were, and every other entry is as it was.
pub proof fn law_closed_link(r: RouterView, link: LinkId)
    requires
        queue_laws::consistent(r.queue),
    ensures
        r.link_closed(link).jobs == r.jobs.filter(
            |job: OutboundDirectJob| delivery_laws::job_parts(job).1 != link,
        ),
        r.link_closed(link).costs == r.costs,
        r.link_closed(link).tickets == r.tickets,
        r.link_closed(link).queue.len() == r.queue.len(),
        forall|k: int|
            0 <= k < r.queue.len() ==> #[trigger] r.link_closed(link).queue[k] == if goes_by_link(
                r.jobs,
                link,
                r.queue[k].message_hash,
            ) {
                EntryView { state: OutboundState::Queued, ..r.queue[k] }
            } else {
                r.queue[k]
            },
{
    queue_laws::law_link_closed(r, link);
    assert(outbound::goes_elsewhere(link) =~= (|job: OutboundDirectJob|
        delivery_laws::job_parts(job).1 != link));
    assert forall|k: int| 0 <= k < r.queue.len() implies #[trigger] r.link_closed(link).queue[k]
        == if goes_by_link(r.jobs, link, r.queue[k].message_hash) {
        EntryView { state: OutboundState::Queued, ..r.queue[k] }
    } else {
        r.queue[k]
    } by {
        let hash = r.queue[k].message_hash;
        if goes_by_link(r.jobs, link, hash) {
            let i = choose|i: int|
                0 <= i < r.jobs.len() && delivery_laws::job_parts(#[trigger] r.jobs[i]).1 == link
                    && delivery_laws::job_parts(r.jobs[i]).2 == hash;
            assert(r.jobs[i].link() == link && r.jobs[i].hash() == hash);
            assert(queue_laws::goes_by(r.jobs, link, hash));
        } else if queue_laws::goes_by(r.jobs, link, hash) {
            let i = choose|i: int|
                0 <= i < r.jobs.len() && (#[trigger] r.jobs[i]).link() == link
                    && r.jobs[i].hash() == hash;
            assert(delivery_laws::job_parts(r.jobs[i]).1 == link);
        }
    }
}

/// A message whose link closed before it was through is tried again: from its next time on,
/// while attempts are left, a visit asks for another link.
pub proof fn law_message_of_closed_link_is_tried_again(
    r: RouterView,
    link: LinkId,
    k: int,
    later: PassView,
    granted: bool,
)
    requires
        queue_laws::consistent(r.queue),
        0 <= k < r.queue.len(),
        goes_by_link(r.jobs, link, r.queue[k].message_hash),
        forall|j: int|
            0 <= j < r.jobs.len() && delivery_laws::job_parts(#[trigger] r.jobs[j]).2
                == r.queue[k].message_hash ==> delivery_laws::job_parts(r.jobs[j]).1 == link,
        r.queue[k].message.method is Direct,
        r.queue[k].delivery_attempts < MAX_DELIVERY_ATTEMPTS,
        r.queue[k].next_delivery_attempt <= later.now,
        later.cursor == k + 1,
    ensures
        delivery::visited(r.link_closed(link), later, granted).2 == Some(
            RequestView::InitiateLink {
                dest_hash: r.queue[k].message.destination_hash,
            },
        ),
{
    law_closed_link(r, link);
    let after = r.link_closed(link);
    let hash = r.queue[k].message_hash;
    let p = |job: OutboundDirectJob| delivery_laws::job_parts(job).1 != link;
    assert(after.queue[k] == (EntryView { state: OutboundState::Queued, ..r.queue[k] }));
    if delivery_laws::under_way(after.jobs, hash) {
        let i = choose|i: int|
            0 <= i < after.jobs.len() && delivery_laws::job_parts(#[trigger] after.jobs[i]).2
                == hash;
        assert(after.jobs.contains(after.jobs[i]));
        r.jobs.lemma_filter_contains_rev(p, after.jobs[i]);
        r.jobs.lemma_filter_pred(p, i);
        let j = r.jobs.index_of(after.jobs[i]);
        assert(delivery_laws::job_parts(r.jobs[j]).2 == hash);
    }
    delivery_laws::law_visit_of_due_entry(after, later, granted);
}

} // verus!
