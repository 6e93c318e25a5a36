//! Deliveries over links.

use crate::hash::LinkId;
use crate::outbound::{EntryView, LxmfRouter, OutboundDirectJob, OutboundState, RouterView};
use crate::{bytes, outbound, search};
use vstd::prelude::*;

verus! {

/// `q` with the entry of the message tracked by `hash` in another state.
pub open spec fn message_in_state(
    q: Seq<EntryView>,
    hash: [u8; 32],
    state: OutboundState,
) -> Seq<EntryView> {
    match search::first_index(q, outbound::hash_is(hash)) {
        Some(i) => q.update(i, q[i].in_state(state)),
        None => q,
    }
}

/// The jobs once `link` is established.
pub open spec fn jobs_established(jobs: Seq<OutboundDirectJob>, link: LinkId) -> Seq<
    OutboundDirectJob,
> {
    Seq::new(jobs.len(), |i: int| jobs[i].established(link))
}

/// What is sent over `link` once it is established: for each of `jobs` that waited for it,
/// the packed message, where that is still in the queue `q`.
pub open spec fn resources(
    q: Seq<EntryView>,
    jobs: Seq<OutboundDirectJob>,
    link: LinkId,
) -> Seq<Seq<u8>>
    decreases jobs.len(),
{
    if jobs.len() == 0 {
        Seq::empty()
    } else {
        let before = resources(q, jobs.drop_last(), link);
        let job = jobs.last();
        if job is Linking && job.link() == link {
            match search::first_index(q, outbound::hash_is(job.hash())) {
                Some(i) => before.push(q[i].message.packed()),
                None => before,
            }
        } else {
            before
        }
    }
}

/// `q` once each message of `jobs` that went over `link` is back to waiting.
pub open spec fn requeued(
    q: Seq<EntryView>,
    jobs: Seq<OutboundDirectJob>,
    link: LinkId,
) -> Seq<EntryView>
    decreases jobs.len(),
{
    if jobs.len() == 0 {
        q
    } else {
        let before = requeued(q, jobs.drop_last(), link);
        if jobs.last().link() == link {
            message_in_state(before, jobs.last().hash(), OutboundState::Queued)
        } else {
            before
        }
    }
}

impl RouterView {
    /// Once the transfer over `link` is complete: the first job over it is done, and its
    /// message has arrived.
    pub open spec fn resource_complete(self, link: LinkId) -> RouterView {
        match search::first_index(self.jobs, outbound::goes_over(link)) {
            Some(i) => RouterView {
                queue: message_in_state(
                    self.queue,
                    self.jobs[i].hash(),
                    OutboundState::Delivered,
                ),
                jobs: self.jobs.remove(i),
                ..self
            },
            None => self,
        }
    }

    /// Once `link` is closed: the jobs over it are gone, and their messages wait again.
    pub open spec fn link_closed(self, link: LinkId) -> RouterView {
        RouterView {
            queue: requeued(self.queue, self.jobs, link),
            jobs: self.jobs.filter(outbound::goes_elsewhere(link)),
            ..self
        }
    }
}

impl LxmfRouter {
    /// Moves the entry of the message tracked by `hash` into another state.
    fn set_message_state(&mut self, hash: &[u8; 32], state: OutboundState)
        requires
            old(self).wf(),
        ensures
            final(self).wf(),
            final(self)@ == (RouterView {
                queue: message_in_state(old(self)@.queue, *hash, state),
                ..old(self)@
            }),
    {
        match self.find_message(hash) {
            Some(i) => self.set_state(i, state),
            None => {},
        }
    }

    /// Moves the jobs that waited for `link` on, and returns what is to be sent over it,
    /// in the order of the jobs.
    pub fn advance_outbound_on_link_established(&mut self, link_id: &LinkId) -> (sent: Vec<
        Vec<u8>,
    >)
        requires
            old(self).wf(),
        ensures
            final(self).wf(),
            final(self)@ == (RouterView {
                jobs: jobs_established(old(self)@.jobs, *link_id),
                ..old(self)@
            }),
            sent@.len() == resources(old(self)@.queue, old(self)@.jobs, *link_id).len(),
            bytes::contents(sent@) == resources(
                old(self)@.queue,
                old(self)@.jobs,
                *link_id,
            ),
    {
        let mut sent: Vec<Vec<u8>> = Vec::new();
        let mut i: usize = 0;
        let ghost r = self@;
        assert(bytes::contents(sent@) =~= Seq::<Seq<u8>>::empty());
        while i < self.outbound_direct_jobs.len()
            invariant
                self.wf(),
                i <= self.outbound_direct_jobs.len(),
                self@.jobs.len() == r.jobs.len(),
                self@.queue == r.queue,
                self@.costs == r.costs,
                self@.tickets == r.tickets,
                forall|k: int|
                    0 <= k < i ==> #[trigger] self@.jobs[k] == r.jobs[k].established(*link_id),
                forall|k: int| i <= k < r.jobs.len() ==> #[trigger] self@.jobs[k] == r.jobs[k],
                bytes::contents(sent@) == resources(
                    r.queue,
                    r.jobs.take(i as int),
                    *link_id,
                ),
            decreases self.outbound_direct_jobs.len() - i,
        {
            let job: OutboundDirectJob = self.outbound_direct_jobs[i];
            let ghost before = bytes::contents(sent@);
            assert(job == r.jobs[i as int]);
            assert(r.jobs.take(i + 1).drop_last() =~= r.jobs.take(i as int));
            assert(r.jobs.take(i + 1).last() == job);
            match job {
                OutboundDirectJob::Linking { dest_hash, link_id: job_link, message_hash } => {
                    if job_link == *link_id {
                        match self.find_message(&message_hash) {
                            Some(at) => {
                                assert(self@.queue[at as int]
                                    == self.pending_outbound@[at as int]@);
                                sent.push(self.pending_outbound[at].message.pack());
                                assert(bytes::contents(sent@) =~= before.push(
                                    r.queue[at as int].message.packed(),
                                ));
                            },
                            None => {},
                        }
                        self.outbound_direct_jobs.set(
                            i,
                            OutboundDirectJob::Sending {
                                dest_hash,
                                link_id: job_link,
                                message_hash,
                            },
                        );
                        assert(self@.queue =~= r.queue);
                    }
                },
                OutboundDirectJob::Sending { .. } => {},
            }
            i += 1;
        }
        assert(r.jobs.take(i as int) =~= r.jobs);
        assert(self@.jobs =~= jobs_established(r.jobs, *link_id));
        sent
    }

    /// Takes note that the transfer over `link_id` is complete.
    pub fn advance_outbound_on_resource_complete(&mut self, link_id: &LinkId)
        requires
            old(self).wf(),
        ensures
            final(self).wf(),
            final(self)@ == old(self)@.resource_complete(*link_id),
    {
        let ghost p = outbound::goes_over(*link_id);
        let mut i: usize = 0;
        while i < self.outbound_direct_jobs.len()
            invariant
                self@ == old(self)@,
                self.wf(),
                i <= self.outbound_direct_jobs.len(),
                p == outbound::goes_over(*link_id),
                forall|j: int| 0 <= j < i ==> !p(#[trigger] self@.jobs[j]),
            decreases self.outbound_direct_jobs.len() - i,
        {
            if *self.outbound_direct_jobs[i].link_id() == *link_id {
                proof {
                    assert(p(self@.jobs[i as int]));
                    search::lemma_first_at(self@.jobs, p, i as int);
                }
                let job: OutboundDirectJob = self.outbound_direct_jobs.remove(i);
                assert(self@.queue =~= old(self)@.queue);
                self.set_message_state(job.message_hash(), OutboundState::Delivered);
                return ;
            }
            assert(!p(self@.jobs[i as int]));
            i += 1;
        }
        proof {
            search::lemma_first_none(self@.jobs, p);
        }
    }

    /// Takes note that `link_id` is closed.
    pub fn cleanup_outbound_jobs_for_link(&mut self, link_id: &LinkId)
        requires
            old(self).wf(),
        ensures
            final(self).wf(),
            final(self)@ == old(self)@.link_closed(*link_id),
    {
        let ghost r = self@;
        let ghost p = outbound::goes_elsewhere(*link_id);
        let mut kept: Vec<OutboundDirectJob> = Vec::new();
        let mut i: usize = 0;
        assert(r.jobs.take(0).filter(p) =~= Seq::empty()) by {
            reveal(Seq::filter);
        }
        while i < self.outbound_direct_jobs.len()
            invariant
                self.wf(),
                i <= self.outbound_direct_jobs.len(),
                p == outbound::goes_elsewhere(*link_id),
                self@.jobs == r.jobs,
                self@.costs == r.costs,
                self@.tickets == r.tickets,
                self@.queue == requeued(r.queue, r.jobs.take(i as int), *link_id),
                kept@ == r.jobs.take(i as int).filter(p),
            decreases self.outbound_direct_jobs.len() - i,
        {
            let job: OutboundDirectJob = self.outbound_direct_jobs[i];
            assert(r.jobs.take(i + 1).drop_last() =~= r.jobs.take(i as int));
            assert(r.jobs.take(i + 1).last() == job);
            proof {
                reveal(Seq::filter);
            }
            if *job.link_id() == *link_id {
                self.set_message_state(job.message_hash(), OutboundState::Queued);
            } else {
                kept.push(job);
            }
            i += 1;
        }
        assert(r.jobs.take(i as int) =~= r.jobs);
        let ghost q = self@.queue;
        self.outbound_direct_jobs = kept;
        assert(self@.queue =~= q);
    }
}

} // verus!
