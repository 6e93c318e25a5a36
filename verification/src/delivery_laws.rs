//! What a visit to an entry, a reply of the node and a whole pass come to, entry by entry.

use crate::delivery::{NodeReply, PassView, RequestView, Visit};
use crate::hash::{DestHash, LinkId};
use crate::message::{DeliveryMethod, MessageView};
use crate::outbound::{
    EntryView, LxmfEvent, OutboundDirectJob, OutboundState, PacketView, RouterView, SendError,
    DELIVERY_RETRY_WAIT, MAX_DELIVERY_ATTEMPTS,
};
use crate::{delivery, digest, outbound, queue_laws};
use vstd::prelude::*;

verus! {

/// The destination, link and message of a job.
pub open spec fn job_parts(job: OutboundDirectJob) -> (DestHash, LinkId, [u8; 32]) {
    match job {
        OutboundDirectJob::Linking { dest_hash, link_id, message_hash } => (
            dest_hash,
            link_id,
            message_hash,
        ),
        OutboundDirectJob::Sending { dest_hash, link_id, message_hash } => (
            dest_hash,
            link_id,
            message_hash,
        ),
    }
}

/// Whether one of `jobs` is about the message tracked by `hash`.
pub open spec fn under_way(jobs: Seq<OutboundDirectJob>, hash: [u8; 32]) -> bool {
    exists|i: int| 0 <= i < jobs.len() && job_parts(#[trigger] jobs[i]).2 == hash
}

/// The parts of a job are what it is read for.
pub proof fn law_job_parts(job: OutboundDirectJob)
    ensures
        job_parts(job) == (job.dest(), job.link(), job.hash()),
{
}

/// A delivery is under way where some job, of whatever kind, has the message.
pub proof fn law_has_job(jobs: Seq<OutboundDirectJob>, hash: [u8; 32])
    ensures
        delivery::has_job(jobs, hash) <==> under_way(jobs, hash),
{
    if under_way(jobs, hash) {
        let i = choose|i: int| 0 <= i < jobs.len() && job_parts(#[trigger] jobs[i]).2 == hash;
        assert(jobs[i].hash() == hash);
    }
    if delivery::has_job(jobs, hash) {
        let i = choose|i: int| 0 <= i < jobs.len() && (#[trigger] jobs[i]).hash() == hash;
        assert(job_parts(jobs[i]).2 == hash);
    }
}

/// The entry is waiting and its next attempt is allowed at `now`.
pub open spec fn is_due(e: EntryView, now: u64) -> bool {
    e.state is Queued && e.next_delivery_attempt <= now
}

/// Whether `time` is the retry wait after `now`, or the end of time if that comes first.
pub open spec fn is_retry_after(time: u64, now: u64) -> bool {
    if now + DELIVERY_RETRY_WAIT <= u64::MAX {
        time == now + DELIVERY_RETRY_WAIT
    } else {
        time == u64::MAX
    }
}

/// Whether `f` is `e` but for the time of its next attempt, which is the retry wait after
/// `now`.
pub open spec fn is_put_off(f: EntryView, e: EntryView, now: u64) -> bool {
    &&& is_retry_after(f.next_delivery_attempt, now)
    &&& f == (EntryView { next_delivery_attempt: f.next_delivery_attempt, ..e })
}

/// Whether `f` is `e` with one more attempt counted at `now`, and nothing else changed.
pub open spec fn is_counted(f: EntryView, e: EntryView, now: u64) -> bool {
    &&& f.delivery_attempts == e.delivery_attempts + 1
    &&& is_retry_after(f.next_delivery_attempt, now)
    &&& f == (EntryView {
        delivery_attempts: f.delivery_attempts,
        next_delivery_attempt: f.next_delivery_attempt,
        ..e
    })
}

/// A visit takes one entry, the last that the pass has not visited yet. It changes no other
/// entry, nothing of the router but the queue, and no packet; the pass waits exactly if it
/// asks the node.
pub proof fn law_visit_takes_one_entry(r: RouterView, p: PassView, granted: bool)
    requires
        0 < p.cursor <= r.queue.len(),
        !p.awaiting,
    ensures
        ({
            let v = delivery::visited(r, p, granted);
            let i = p.cursor - 1;
            &&& v.1.cursor == i
            &&& v.1.now == p.now
            &&& v.1.packets == p.packets
            &&& v.1.awaiting == v.2 is Some
            &&& v.0.jobs == r.jobs
            &&& v.0.costs == r.costs
            &&& v.0.tickets == r.tickets
            &&& v.0.queue.len() == r.queue.len() || v.0.queue.len() == r.queue.len() - 1
            &&& forall|k: int| 0 <= k < i ==> #[trigger] v.0.queue[k] == r.queue[k]
            &&& forall|k: int|
                i < k < r.queue.len() ==> #[trigger] r.queue[k] == v.0.queue[k
                    - r.queue.len() + v.0.queue.len()]
        }),
{
}

/// An entry that has been delivered or has failed leaves the queue, and that is told with
/// its hash and destination.
pub proof fn law_visit_of_ended_entry(r: RouterView, p: PassView, granted: bool)
    requires
        0 < p.cursor <= r.queue.len(),
        r.queue[p.cursor - 1].state is Delivered || r.queue[p.cursor - 1].state is Failed,
    ensures
        ({
            let v = delivery::visited(r, p, granted);
            let e = r.queue[p.cursor - 1];
            &&& v.0.queue == r.queue.remove(p.cursor - 1)
            &&& v.1.events == p.events.push(
                if e.state is Delivered {
                    LxmfEvent::MessageDelivered {
                        message_hash: e.message_hash,
                        dest_hash: e.message.destination_hash,
                    }
                } else {
                    LxmfEvent::MessageFailed {
                        message_hash: e.message_hash,
                        dest_hash: e.message.destination_hash,
                    }
                },
            )
            &&& v.2 is None
        }),
{
}

/// An entry on its way over a link, or whose time has not come, is left as it is, and
/// nothing is told or asked.
pub proof fn law_visit_of_waiting_entry(r: RouterView, p: PassView, granted: bool)
    requires
        0 < p.cursor <= r.queue.len(),
        r.queue[p.cursor - 1].state is Sending || (r.queue[p.cursor - 1].state is Queued && p.now
            < r.queue[p.cursor - 1].next_delivery_attempt),
    ensures
        delivery::visited(r, p, granted).0 == r,
        delivery::visited(r, p, granted).1.events == p.events,
        delivery::visited(r, p, granted).2 is None,
{
    assert(delivery::visited(r, p, granted).0.queue =~= r.queue);
}

/// An entry that has used up its attempts fails when its time comes if no receipt is out;
/// while one is out it stays as it is. No attempt is made for it either way.
pub proof fn law_visit_of_exhausted_entry(r: RouterView, p: PassView, granted: bool)
    requires
        0 < p.cursor <= r.queue.len(),
        is_due(r.queue[p.cursor - 1], p.now),
        r.queue[p.cursor - 1].delivery_attempts >= MAX_DELIVERY_ATTEMPTS,
    ensures
        ({
            let v = delivery::visited(r, p, granted);
            let e = r.queue[p.cursor - 1];
            &&& v.2 is None
            &&& v.1.events == p.events
            &&& v.0.queue[p.cursor - 1] == if e.receipt_hashes.len() == 0 {
                EntryView { state: OutboundState::Failed, ..e }
            } else {
                e
            }
        }),
{
}

/// While attempts are left, every visit to a message whose time has come makes one, however
/// many were made before. One that travels in a packet is asked for with its payload; it is
/// put off, and nothing else, where there is no memory. One that goes over a link has a
/// link asked for whatever the memory, unless a job of it is under way, when it is left
/// alone. For one to be propagated the attempt is counted.
pub proof fn law_visit_of_due_entry(r: RouterView, p: PassView, granted: bool)
    requires
        0 < p.cursor <= r.queue.len(),
        is_due(r.queue[p.cursor - 1], p.now),
        r.queue[p.cursor - 1].delivery_attempts < MAX_DELIVERY_ATTEMPTS,
    ensures
        ({
            let v = delivery::visited(r, p, granted);
            let e = r.queue[p.cursor - 1];
            &&& v.1.events == p.events
            &&& match e.message.method {
                DeliveryMethod::Opportunistic => if granted {
                    &&& v.0 == r
                    &&& v.2 == Some(
                        RequestView::PrepareData {
                            dest_hash: e.message.destination_hash,
                            payload: e.message.packed_opportunistic(),
                        },
                    )
                } else {
                    &&& v.2 is None
                    &&& is_put_off(v.0.queue[p.cursor - 1], e, p.now)
                },
                DeliveryMethod::Direct => {
                    &&& v.0 == r
                    &&& v.2 == if under_way(r.jobs, e.message_hash) {
                        None
                    } else {
                        Some(
                            RequestView::InitiateLink { dest_hash: e.message.destination_hash },
                        )
                    }
                },
                DeliveryMethod::Propagated => {
                    &&& v.2 is None
                    &&& is_counted(v.0.queue[p.cursor - 1], e, p.now)
                },
            }
        }),
{
    let e = r.queue[p.cursor - 1];
    law_has_job(r.jobs, e.message_hash);
    assert(r.queue.update(p.cursor - 1, e) =~= r.queue);
}

/// A pass waits for the node only on behalf of a message that is due and has attempts left;
/// between stops it can go on over what it has not visited.
pub proof fn law_waiting_pass(p: PassView, q: Seq<EntryView>)
    ensures
        p.waits(q) <==> {
            &&& p.awaiting
            &&& p.cursor < q.len()
            &&& is_due(q[p.cursor as int], p.now)
            &&& q[p.cursor as int].delivery_attempts < MAX_DELIVERY_ATTEMPTS
        },
        p.ready(q) <==> !p.awaiting && p.cursor <= q.len(),
{
}

/// A pass with memory for its events starts out over the whole queue, and one without over
/// none of it; it starts with nothing to send and nothing to tell.
pub proof fn law_opened_pass(now: u64, n: nat, granted: bool)
    ensures
        ({
            let p = PassView::open(now, n, granted);
            &&& p.now == now
            &&& p.cursor == if granted {
                n
            } else {
                0
            }
            &&& !p.awaiting
            &&& p.packets.len() == 0
            &&& p.events.len() == 0
        }),
{
}

/// Room is needed for the events of the entries that were delivered or failed, and of no
/// others.
pub proof fn law_has_ended(e: EntryView)
    ensures
        delivery::has_ended()(e) <==> e.state is Delivered || e.state is Failed,
{
}

/// A reply settles the entry that waits and no other one; the costs, the tickets, what was
/// told and how far the pass has come stay.
pub proof fn law_reply_settles_one_entry(r: RouterView, p: PassView, reply: NodeReply)
    requires
        p.waits(r.queue),
    ensures
        ({
            let after = delivery::replied(r, p, reply);
            &&& !after.1.awaiting
            &&& after.1.cursor == p.cursor
            &&& after.1.now == p.now
            &&& after.1.events == p.events
            &&& after.0.costs == r.costs
            &&& after.0.tickets == r.tickets
            &&& after.0.queue.len() == r.queue.len()
            &&& forall|k: int|
                0 <= k < r.queue.len() && k != p.cursor ==> #[trigger] after.0.queue[k]
                    == r.queue[k]
        }),
{
}

/// A packet that the node prepared is to go out as it is by every interface. Its receipt is
/// awaited behind the earlier ones and the attempt is counted; the message keeps waiting.
pub proof fn law_reply_prepared(r: RouterView, p: PassView, packet_hash: [u8; 32], data: Vec<u8>)
    requires
        p.waits(r.queue),
    ensures
        ({
            let e = r.queue[p.cursor as int];
            let after = delivery::replied(r, p, NodeReply::Prepared { packet_hash, data });
            let f = after.0.queue[p.cursor as int];
            &&& f.receipt_hashes == e.receipt_hashes.push(packet_hash)
            &&& is_counted(f, EntryView { receipt_hashes: f.receipt_hashes, ..e }, p.now)
            &&& after.1.packets == p.packets.push(
                PacketView { data: data@, interface: None },
            )
            &&& after.0.jobs == r.jobs
        }),
{
}

/// A packet that could not be prepared adds none to be sent and no receipt. Want of room,
/// of memory or of a hash that is free puts the attempt off; any other reason counts it.
pub proof fn law_reply_not_prepared(r: RouterView, p: PassView, error: SendError)
    requires
        p.waits(r.queue),
    ensures
        ({
            let e = r.queue[p.cursor as int];
            let after = delivery::replied(r, p, NodeReply::NotPrepared(error));
            let f = after.0.queue[p.cursor as int];
            &&& after.1.packets == p.packets
            &&& after.0.jobs == r.jobs
            &&& match error {
                SendError::ReceiptTableFull => is_put_off(f, e, p.now),
                SendError::ReceiptHashAlreadyTracked => is_put_off(f, e, p.now),
                SendError::OutputAllocationFailed => is_put_off(f, e, p.now),
                SendError::Other => is_counted(f, e, p.now),
            }
        }),
{
}

/// A link that is being opened makes a job that waits for it, behind the earlier jobs and
/// with the message and its destination. Its packet is to go out, and the message is on
/// its way with the attempt counted.
pub proof fn law_reply_link_initiated(
    r: RouterView,
    p: PassView,
    packet: outbound::OutboundPacket,
    link_id: LinkId,
)
    requires
        p.waits(r.queue),
    ensures
        ({
            let e = r.queue[p.cursor as int];
            let after = delivery::replied(r, p, NodeReply::LinkInitiated { packet, link_id });
            &&& is_counted(
                after.0.queue[p.cursor as int],
                EntryView { state: OutboundState::Sending, ..e },
                p.now,
            )
            &&& after.0.jobs == r.jobs.push(
                OutboundDirectJob::Linking {
                    dest_hash: e.message.destination_hash,
                    link_id,
                    message_hash: e.message_hash,
                },
            )
            &&& after.1.packets == p.packets.push(
                PacketView { data: packet.data@, interface: packet.interface },
            )
        }),
{
}

/// A link that is refused counts as an attempt and changes nothing else.
pub proof fn law_reply_link_refused(r: RouterView, p: PassView)
    requires
        p.waits(r.queue),
    ensures
        ({
            let after = delivery::replied(r, p, NodeReply::LinkRefused);
            &&& is_counted(
                after.0.queue[p.cursor as int],
                r.queue[p.cursor as int],
                p.now,
            )
            &&& after.1.packets == p.packets
            &&& after.0.jobs == r.jobs
        }),
{
}

/// A reply fits the request: packets are answered for messages that travel in one, links
/// for messages that go over one, and nothing for those to be propagated.
pub proof fn law_fitting_reply(reply: NodeReply, method: DeliveryMethod)
    ensures
        delivery::answers(reply, method) <==> match method {
            DeliveryMethod::Opportunistic => reply is Prepared || reply is NotPrepared,
            DeliveryMethod::Direct => reply is LinkInitiated || reply is LinkRefused,
            DeliveryMethod::Propagated => false,
        },
{
}

/// A message that could not be sent is asked for again, with the same request, at every
/// visit from its next time on while attempts are left; after the last it fails.
pub proof fn law_refused_message_is_tried_again(
    r: RouterView,
    p: PassView,
    reply: NodeReply,
    later: PassView,
)
    requires
        p.waits(r.queue),
        r.queue[p.cursor as int].receipt_hashes.len() == 0,
        reply is LinkRefused || reply is NotPrepared,
        delivery::answers(reply, r.queue[p.cursor as int].message.method),
        !under_way(r.jobs, r.queue[p.cursor as int].message_hash),
        later.cursor == p.cursor + 1,
        later.now >= delivery::replied(r, p, reply).0.queue[p.cursor as int].next_delivery_attempt,
    ensures
        ({
            let m = r.queue[p.cursor as int].message;
            let after = delivery::replied(r, p, reply).0;
            let f = after.queue[p.cursor as int];
            let again = delivery::visited(after, later, true);
            if f.delivery_attempts < MAX_DELIVERY_ATTEMPTS {
                again.2 == Some(
                    if m.method is Direct {
                        RequestView::InitiateLink { dest_hash: m.destination_hash }
                    } else {
                        RequestView::PrepareData {
                            dest_hash: m.destination_hash,
                            payload: m.packed_opportunistic(),
                        }
                    },
                )
            } else {
                &&& f.delivery_attempts == MAX_DELIVERY_ATTEMPTS
                &&& again.0.queue[p.cursor as int] == (EntryView {
                    state: OutboundState::Failed,
                    ..f
                })
            }
        }),
{
    let after = delivery::replied(r, p, reply).0;
    law_has_job(after.jobs, after.queue[p.cursor as int].message_hash);
}

/// What a message that joins the queue starts out with.
pub proof fn law_fresh_entry(m: MessageView, now: u64)
    ensures
        ({
            let e = EntryView::fresh(m, now);
            &&& e.message == m
            &&& e.message_hash == digest::sha256_digest(m.packed())
            &&& e.receipt_hashes.len() == 0
            &&& e.delivery_attempts == 0
            &&& e.next_delivery_attempt == now
            &&& e.state is Queued
        }),
{
}

/// Whether a pass at `now` may leave the entry `e` as `f`, where `jobs` are under way.
///
/// One that is due and has attempts left has its next attempt the retry wait later: the
/// attempt was counted, or it was put off; one whose job is under way is as it was. One
/// that has used up its attempts has failed, if no receipt is out. Any other is as it was.
pub open spec fn treated(
    e: EntryView,
    f: EntryView,
    now: u64,
    jobs: Seq<OutboundDirectJob>,
) -> bool {
    if !is_due(e, now) {
        f == e
    } else if e.delivery_attempts >= MAX_DELIVERY_ATTEMPTS {
        f == if e.receipt_hashes.len() == 0 {
            EntryView { state: OutboundState::Failed, ..e }
        } else {
            e
        }
    } else {
        match e.message.method {
            DeliveryMethod::Opportunistic => {
                ||| is_put_off(f, e, now)
                ||| is_counted(f, e, now)
                ||| {
                    &&& f.receipt_hashes.len() == e.receipt_hashes.len() + 1
                    &&& f.receipt_hashes.drop_last() == e.receipt_hashes
                    &&& is_counted(f, EntryView { receipt_hashes: f.receipt_hashes, ..e }, now)
                }
            },
            DeliveryMethod::Direct => if under_way(jobs, e.message_hash) {
                f == e
            } else {
                ||| is_counted(f, e, now)
                ||| is_counted(f, EntryView { state: OutboundState::Sending, ..e }, now)
            },
            DeliveryMethod::Propagated => is_counted(f, e, now),
        }
    }
}

/// The entries `fs` are what a pass at `now` may leave of the entries `es`, one for one.
pub open spec fn all_treated(
    es: Seq<EntryView>,
    fs: Seq<EntryView>,
    now: u64,
    jobs: Seq<OutboundDirectJob>,
) -> bool {
    &&& es.len() == fs.len()
    &&& forall|k: int| 0 <= k < es.len() ==> treated(es[k], #[trigger] fs[k], now, jobs)
}

proof fn lemma_treated_push(
    es: Seq<EntryView>,
    fs: Seq<EntryView>,
    e: EntryView,
    f: EntryView,
    now: u64,
    jobs: Seq<OutboundDirectJob>,
)
    requires
        all_treated(es, fs, now, jobs),
        treated(e, f, now, jobs),
    ensures
        all_treated(es.push(e), fs.push(f), now, jobs),
{
    let gs = fs.push(f);
    assert forall|k: int| 0 <= k < es.push(e).len() implies treated(
        es.push(e)[k],
        #[trigger] gs[k],
        now,
        jobs,
    ) by {
        if k < es.len() {
            assert(gs[k] == fs[k]);
        }
    }
}

proof fn lemma_treated_add(
    es: Seq<EntryView>,
    fs: Seq<EntryView>,
    es2: Seq<EntryView>,
    fs2: Seq<EntryView>,
    now: u64,
    jobs: Seq<OutboundDirectJob>,
)
    requires
        all_treated(es, fs, now, jobs),
        all_treated(es2, fs2, now, jobs),
    ensures
        all_treated(es + es2, fs + fs2, now, jobs),
{
    assert forall|k: int| 0 <= k < (es + es2).len() implies treated(
        (es + es2)[k],
        #[trigger] (fs + fs2)[k],
        now,
        jobs,
    ) by {
        if k < es.len() {
            assert((fs + fs2)[k] == fs[k]);
        } else {
            assert((fs + fs2)[k] == fs2[k - es.len()]);
        }
    }
}

proof fn lemma_part_none(q: Seq<EntryView>, c: int)
    requires
        0 <= c <= q.len(),
    ensures
        queue_laws::left(q.subrange(c, c)) == Seq::<EntryView>::empty(),
        q.take(c) + Seq::<EntryView>::empty() + q.skip(c) == q,
{
    assert(q.subrange(c, c) =~= Seq::empty());
    assert(queue_laws::left(q.subrange(c, c)) =~= Seq::empty()) by {
        reveal(Seq::filter);
    }
    assert(q.take(c) + Seq::<EntryView>::empty() + q.skip(c) =~= q);
}

proof fn lemma_part_ended(q: Seq<EntryView>, from: int, c: int)
    requires
        0 <= from < c <= q.len(),
        q[c - 1].state is Delivered || q[c - 1].state is Failed,
    ensures
        queue_laws::left(q.subrange(from, c)) == queue_laws::left(
            q.remove(c - 1).subrange(from, c - 1),
        ),
        q.remove(c - 1).take(from) == q.take(from),
        q.remove(c - 1).skip(c - 1) == q.skip(c),
{
    let part = q.subrange(from, c);
    assert(part.drop_last() =~= q.remove(c - 1).subrange(from, c - 1));
    assert(queue_laws::left(part) == queue_laws::left(part.drop_last())) by {
        reveal(Seq::filter);
    }
    assert(q.remove(c - 1).take(from) =~= q.take(from));
    assert(q.remove(c - 1).skip(c - 1) =~= q.skip(c));
}

proof fn lemma_part_kept(
    q: Seq<EntryView>,
    kept: EntryView,
    fs: Seq<EntryView>,
    from: int,
    c: int,
)
    requires
        0 <= from < c <= q.len(),
        q[c - 1].state is Queued || q[c - 1].state is Sending,
    ensures
        queue_laws::left(q.subrange(from, c)) == queue_laws::left(
            q.update(c - 1, kept).subrange(from, c - 1),
        ).push(q[c - 1]),
        q.update(c - 1, kept).take(from) + fs + q.update(c - 1, kept).skip(c - 1) == q.take(from)
            + fs.push(kept) + q.skip(c),
{
    let t = q.update(c - 1, kept);
    let part = q.subrange(from, c);
    assert(part.drop_last() =~= t.subrange(from, c - 1));
    assert(queue_laws::left(part) == queue_laws::left(part.drop_last()).push(q[c - 1])) by {
        reveal(Seq::filter);
    }
    assert(t.take(from) =~= q.take(from));
    assert(t.take(from) + fs + t.skip(c - 1) =~= q.take(from) + fs.push(kept) + q.skip(c));
}

/// What one visit makes of an entry.
proof fn lemma_visit_treats(
    e: EntryView,
    now: u64,
    jobs: Seq<OutboundDirectJob>,
    granted: bool,
)
    ensures
        match delivery::visit_entry(e, now, delivery::has_job(jobs, e.message_hash), granted) {
            Visit::Settle => e.state is Delivered || e.state is Failed,
            Visit::Keep(kept) => {
                &&& e.state is Queued || e.state is Sending
                &&& treated(e, kept, now, jobs)
            },
            Visit::Ask(_) => {
                &&& is_due(e, now)
                &&& e.delivery_attempts < MAX_DELIVERY_ATTEMPTS
                &&& e.message.method is Direct ==> !under_way(jobs, e.message_hash)
            },
        },
{
    law_has_job(jobs, e.message_hash);
}

/// The entry from which on everything is treated when a pass stops: the one on whose behalf
/// it waits is not, yet.
spec fn treated_from(stop: (RouterView, PassView, RequestView)) -> int {
    if stop.2 is Done {
        stop.1.cursor as int
    } else {
        stop.1.cursor as int + 1
    }
}

/// What a pass that goes on from `(r, p)` has made of the queue when it stops.
spec fn treats(
    r: RouterView,
    p: PassView,
    stop: (RouterView, PassView, RequestView),
    fs: Seq<EntryView>,
) -> bool {
    let c = p.cursor as int;
    let from = treated_from(stop);
    &&& 0 <= from <= c
    &&& stop.0.queue == r.queue.take(from) + fs + r.queue.skip(c)
    &&& all_treated(queue_laws::left(r.queue.subrange(from, c)), fs, p.now, r.jobs)
    &&& !(stop.2 is Done) ==> {
        let e = r.queue[stop.1.cursor as int];
        &&& is_due(e, p.now)
        &&& e.delivery_attempts < MAX_DELIVERY_ATTEMPTS
        &&& e.message.method is Direct ==> !under_way(r.jobs, e.message_hash)
    }
}

proof fn lemma_treated_until_stop(
    r: RouterView,
    p: PassView,
    stop: (RouterView, PassView, RequestView),
) -> (fs: Seq<EntryView>)
    requires
        p.ready(r.queue),
        delivery::stops_at(r, p, stop),
    ensures
        treats(r, p, stop, fs),
    decreases p.cursor,
{
    let c = p.cursor as int;
    let q = r.queue;
    let none = Seq::<EntryView>::empty();
    if c == 0 {
        lemma_part_none(q, 0);
        none
    } else {
        let granted = queue_laws::lemma_visit(r, p, stop);
        let v = delivery::visited(r, p, granted);
        let e = q[c - 1];
        lemma_visit_treats(e, p.now, r.jobs, granted);
        match delivery::visit_entry(
            e,
            p.now,
            delivery::has_job(r.jobs, e.message_hash),
            granted,
        ) {
            Visit::Ask(_) => {
                lemma_part_none(q, c);
                none
            },
            Visit::Settle => {
                let fs = lemma_treated_until_stop(v.0, v.1, stop);
                lemma_part_ended(q, treated_from(stop), c);
                fs
            },
            Visit::Keep(kept) => {
                let fs = lemma_treated_until_stop(v.0, v.1, stop);
                let from = treated_from(stop);
                lemma_part_kept(q, kept, fs, from, c);
                lemma_treated_push(
                    queue_laws::left(v.0.queue.subrange(from, c - 1)),
                    fs,
                    e,
                    kept,
                    p.now,
                    r.jobs,
                );
                assert(q.update(c - 1, kept)[stop.1.cursor as int] == q[stop.1.cursor as int]
                    || stop.2 is Done);
                fs.push(kept)
            },
        }
    }
}

proof fn lemma_treated_jobs(
    es: Seq<EntryView>,
    fs: Seq<EntryView>,
    now: u64,
    jobs: Seq<OutboundDirectJob>,
    more: Seq<OutboundDirectJob>,
)
    requires
        all_treated(es, fs, now, more),
        forall|k: int|
            0 <= k < es.len() ==> (under_way(jobs, (#[trigger] es[k]).message_hash) <==> under_way(
                more,
                es[k].message_hash,
            )),
    ensures
        all_treated(es, fs, now, jobs),
{
    assert forall|k: int| 0 <= k < es.len() implies treated(
        es[k],
        #[trigger] fs[k],
        now,
        jobs,
    ) by {
        assert(under_way(jobs, es[k].message_hash) <==> under_way(more, es[k].message_hash));
    }
}

/// The entries before `c` are about different messages.
pub open spec fn distinct_before(q: Seq<EntryView>, c: nat) -> bool {
    forall|i: int, j: int|
        0 <= i < j < c ==> (#[trigger] q[i]).message_hash != (#[trigger] q[j]).message_hash
}

/// The packets that replies of the node bring, in order.
pub open spec fn packets_of(replies: Seq<NodeReply>) -> Seq<PacketView>
    decreases replies.len(),
{
    if replies.len() == 0 {
        Seq::empty()
    } else {
        let rest = packets_of(replies.drop_first());
        match replies[0] {
            NodeReply::Prepared { data, .. } => seq![
                PacketView { data: data@, interface: None },
            ] + rest,
            NodeReply::LinkInitiated { packet, .. } => seq![
                PacketView { data: packet.data@, interface: packet.interface },
            ] + rest,
            _ => rest,
        }
    }
}

proof fn lemma_reply_treats(r: RouterView, p: PassView, reply: NodeReply)
    requires
        p.waits(r.queue),
        delivery::answers(reply, r.queue[p.cursor as int].message.method),
        r.queue[p.cursor as int].message.method is Direct ==> !under_way(
            r.jobs,
            r.queue[p.cursor as int].message_hash,
        ),
    ensures
        treated(
            r.queue[p.cursor as int],
            delivery::replied(r, p, reply).0.queue[p.cursor as int],
            p.now,
            r.jobs,
        ),
        forall|hash: [u8; 32]|
            hash != r.queue[p.cursor as int].message_hash ==> (#[trigger] under_way(r.jobs, hash)
                <==> under_way(delivery::replied(r, p, reply).0.jobs, hash)),
{
    let e = r.queue[p.cursor as int];
    let f = delivery::replied(r, p, reply).0.queue[p.cursor as int];
    let more = delivery::replied(r, p, reply).0.jobs;
    if let NodeReply::Prepared { packet_hash, .. } = reply {
        assert(f.receipt_hashes.drop_last() =~= e.receipt_hashes);
    }
    assert forall|hash: [u8; 32]| hash != e.message_hash implies (#[trigger] under_way(r.jobs, hash)
        <==> under_way(more, hash)) by {
        if under_way(r.jobs, hash) {
            let i = choose|i: int|
                0 <= i < r.jobs.len() && job_parts(#[trigger] r.jobs[i]).2 == hash;
            assert(more[i] == r.jobs[i]);
        }
        if under_way(more, hash) {
            let i = choose|i: int| 0 <= i < more.len() && job_parts(#[trigger] more[i]).2 == hash;
            assert(more[i] == r.jobs[i]);
        }
    }
}

/// The queue at the end of a pass, put together from what the pass made of the entries before
/// the one at `d`, of that one, and of those behind it.
proof fn lemma_assemble(
    q: Seq<EntryView>,
    d: int,
    c: int,
    gs: Seq<EntryView>,
    f: EntryView,
    fs: Seq<EntryView>,
    now: u64,
    jobs: Seq<OutboundDirectJob>,
    end: Seq<EntryView>,
)
    requires
        0 <= d < c <= q.len(),
        q[d].state is Queued,
        all_treated(queue_laws::left(q.take(d)), gs, now, jobs),
        treated(q[d], f, now, jobs),
        all_treated(queue_laws::left(q.subrange(d + 1, c)), fs, now, jobs),
        end == gs + (seq![f] + fs + q.skip(c)),
    ensures
        ({
            let es = queue_laws::left(q.take(c));
            let n = es.len() as int;
            &&& end.len() == n + q.len() - c
            &&& all_treated(es, end.take(n), now, jobs)
            &&& end.skip(n) == q.skip(c)
        }),
{
    let front = queue_laws::left(q.take(d));
    let part = q.subrange(d + 1, c);
    let one_e = seq![q[d]];
    let one_f = seq![f];
    let es = queue_laws::left(q.take(c));
    let n = es.len() as int;
    assert(q.take(c) =~= q.take(d) + one_e + part);
    assert(queue_laws::left(one_e) =~= one_e) by {
        reveal(Seq::filter);
        assert(one_e.drop_last() =~= Seq::empty());
        assert(one_e.drop_last().filter(queue_laws::is_unfinished()) =~= Seq::empty());
    }
    Seq::filter_distributes_over_add(q.take(d) + one_e, part, queue_laws::is_unfinished());
    Seq::filter_distributes_over_add(q.take(d), one_e, queue_laws::is_unfinished());
    assert(es == front + one_e + queue_laws::left(part));
    assert(all_treated(one_e, one_f, now, jobs)) by {
        assert(one_f[0] == f);
    }
    lemma_treated_add(front, gs, one_e, one_f, now, jobs);
    lemma_treated_add(front + one_e, gs + one_f, queue_laws::left(part), fs, now, jobs);
    assert(end.take(n) =~= gs + one_f + fs);
    assert(end.skip(n) =~= q.skip(c));
}

/// A job that is added for one message leaves the others treated as before.
proof fn lemma_front_treated(
    q: Seq<EntryView>,
    d: int,
    gs: Seq<EntryView>,
    now: u64,
    jobs: Seq<OutboundDirectJob>,
    more: Seq<OutboundDirectJob>,
)
    requires
        0 <= d < q.len(),
        distinct_before(q, (d + 1) as nat),
        all_treated(queue_laws::left(q.take(d)), gs, now, more),
        forall|hash: [u8; 32]|
            hash != q[d].message_hash ==> (#[trigger] under_way(jobs, hash) <==> under_way(
                more,
                hash,
            )),
    ensures
        all_treated(queue_laws::left(q.take(d)), gs, now, jobs),
{
    let front = queue_laws::left(q.take(d));
    assert forall|k: int| 0 <= k < front.len() implies (under_way(
        jobs,
        (#[trigger] front[k]).message_hash,
    ) <==> under_way(more, front[k].message_hash)) by {
        assert(front.contains(front[k]));
        q.take(d).lemma_filter_contains_rev(queue_laws::is_unfinished(), front[k]);
        let i = q.take(d).index_of(front[k]);
        assert(q[i] == front[k]);
        assert(q[i].message_hash != q[d].message_hash);
    }
    lemma_treated_jobs(front, gs, now, jobs, more);
}

/// A whole pass, whatever the node replies, treats every message it goes over that has not
/// come to its end, each in its place: none that is due is passed over. What it does not
/// go over stays. What is to be sent is what the replies brought, all of it and in order.
pub proof fn law_pass_treats_every_message(
    r: RouterView,
    p: PassView,
    replies: Seq<NodeReply>,
    end: (RouterView, PassView),
)
    requires
        p.ready(r.queue),
        distinct_before(r.queue, p.cursor),
        queue_laws::runs_to(r, p, replies, end),
    ensures
        ({
            let es = queue_laws::left(r.queue.take(p.cursor as int));
            let n = es.len() as int;
            &&& end.0.queue.len() == n + r.queue.len() - p.cursor
            &&& all_treated(es, end.0.queue.take(n), p.now, r.jobs)
            &&& end.0.queue.skip(n) == r.queue.skip(p.cursor as int)
            &&& end.1.packets == p.packets + packets_of(replies)
            &&& end.1.cursor == 0
            &&& end.0.costs == r.costs
            &&& end.0.tickets == r.tickets
        }),
    decreases replies.len(),
{
    let c = p.cursor as int;
    let q = r.queue;
    let es = queue_laws::left(q.take(c));
    let n = es.len() as int;
    if replies.len() == 0 {
        let stop = (end.0, end.1, RequestView::Done);
        queue_laws::law_pass_until_stop(r, p, stop);
        let fs = lemma_treated_until_stop(r, p, stop);
        assert(q.subrange(0, c) =~= q.take(c));
        assert(q.take(0) + fs + q.skip(c) =~= fs + q.skip(c));
        assert(end.0.queue.take(n) =~= fs);
        assert(end.0.queue.skip(n) =~= q.skip(c));
        assert(end.1.packets =~= p.packets + packets_of(replies));
    } else {
        let stop = queue_laws::lemma_first_stop(r, p, replies, end);
        queue_laws::law_pass_until_stop(r, p, stop);
        let fs = lemma_treated_until_stop(r, p, stop);
        let d = stop.1.cursor as int;
        let e = q[d];
        assert(stop.0.queue[d] == e);
        let next = delivery::replied(stop.0, stop.1, replies[0]);
        lemma_reply_treats(stop.0, stop.1, replies[0]);
        let f = next.0.queue[d];
        assert(next.0.queue.take(d) =~= q.take(d));
        assert(next.0.queue.skip(d) =~= seq![f] + fs + q.skip(c));
        assert forall|i: int, j: int| 0 <= i < j < d implies (
        #[trigger] next.0.queue[i]).message_hash != (#[trigger] next.0.queue[j]).message_hash by {
            assert(next.0.queue[i] == q[i]);
            assert(next.0.queue[j] == q[j]);
        }
        law_pass_treats_every_message(next.0, next.1, replies.drop_first(), end);
        let m = queue_laws::left(q.take(d)).len() as int;
        let gs = end.0.queue.take(m);
        lemma_front_treated(q, d, gs, p.now, r.jobs, next.0.jobs);
        assert(end.0.queue =~= gs + end.0.queue.skip(m));
        lemma_assemble(q, d, c, gs, f, fs, p.now, r.jobs, end.0.queue);
        assert(end.1.packets =~= p.packets + packets_of(replies));
    }
}

} // verus!
