//! Receipts: what becomes of a message once the fate of one of its packets is known.

use crate::outbound::{
    LxmfEvent, LxmfRouter, OutboundState, ReceiptTerminal, RouterView, MAX_DELIVERY_ATTEMPTS,
};
use crate::{bytes, outbound, search};
use vstd::prelude::*;

verus! {

impl RouterView {
    /// Where the entry stands that waits for the receipt of the packet `hash`.
    pub open spec fn receipt_index(self, hash: [u8; 32]) -> Option<int> {
        search::first_index(self.queue, outbound::awaits_receipt(hash))
    }

    /// Without the entry that waits for the receipt of the packet `hash`.
    pub open spec fn proved(self, hash: [u8; 32]) -> RouterView {
        match self.receipt_index(hash) {
            Some(i) => RouterView { queue: self.queue.remove(i), ..self },
            None => self,
        }
    }

    /// What is told when the packet `hash` was proved to have arrived.
    pub open spec fn proof_event(self, hash: [u8; 32]) -> Option<LxmfEvent> {
        match self.receipt_index(hash) {
            Some(i) => Some(self.queue[i].delivered_event()),
            None => None,
        }
    }

    /// The receipts that are no longer awaited when the packet `hash` was proved to have
    /// arrived: those of the other attempts for the same message.
    pub open spec fn siblings(self, hash: [u8; 32]) -> Seq<[u8; 32]> {
        match self.receipt_index(hash) {
            Some(i) => self.queue[i].receipt_hashes.filter(outbound::other_than(hash)),
            None => Seq::empty(),
        }
    }

    /// Once no receipt for the packet `hash` will come; a message that has no attempt and
    /// no receipt left leaves the queue.
    pub open spec fn failure_settled(self, hash: [u8; 32]) -> RouterView {
        match self.receipt_index(hash) {
            Some(i) => {
                let e = self.queue[i].without_receipt(hash);
                RouterView {
                    queue: if e.exhausted() && e.receipt_hashes.len() == 0 {
                        self.queue.remove(i)
                    } else {
                        self.queue.update(i, e)
                    },
                    ..self
                }
            },
            None => self,
        }
    }

    /// What is told when no receipt for the packet `hash` will come.
    pub open spec fn failure_event(self, hash: [u8; 32]) -> Option<LxmfEvent> {
        match self.receipt_index(hash) {
            Some(i) => {
                let e = self.queue[i].without_receipt(hash);
                if e.exhausted() && e.receipt_hashes.len() == 0 {
                    Some(e.failed_event())
                } else {
                    None
                }
            },
            None => None,
        }
    }

    /// Once no receipt for the packet `hash` will come; a message that has no attempt and
    /// no receipt left is marked as failed.
    pub open spec fn failure_marked(self, hash: [u8; 32]) -> RouterView {
        match self.receipt_index(hash) {
            Some(i) => {
                let e = self.queue[i].without_receipt(hash);
                RouterView {
                    queue: self.queue.update(
                        i,
                        if e.exhausted() && e.receipt_hashes.len() == 0 {
                            e.in_state(OutboundState::Failed)
                        } else {
                            e
                        },
                    ),
                    ..self
                }
            },
            None => self,
        }
    }
}

/// Whether `hashes` holds `hash`.
fn contains_hash(hashes: &Vec<[u8; 32]>, hash: &[u8; 32]) -> (found: bool)
    ensures
        found == hashes@.contains(*hash),
{
    let mut i: usize = 0;
    while i < hashes.len()
        invariant
            i <= hashes.len(),
            forall|j: int| 0 <= j < i ==> hashes@[j] != *hash,
        decreases hashes.len() - i,
    {
        if bytes::bytes_eq(&hashes[i], hash) {
            assert(hashes@[i as int] == *hash);
            return true;
        }
        i += 1;
    }
    false
}

/// The hashes of `hashes` other than `hash`.
fn without_hash(hashes: &Vec<[u8; 32]>, hash: &[u8; 32]) -> (others: Vec<[u8; 32]>)
    ensures
        others@ == hashes@.filter(outbound::other_than(*hash)),
{
    let ghost p = outbound::other_than(*hash);
    let mut others: Vec<[u8; 32]> = Vec::new();
    let mut i: usize = 0;
    assert(hashes@.take(0).filter(p) =~= Seq::empty()) by {
        reveal(Seq::filter);
    }
    while i < hashes.len()
        invariant
            i <= hashes.len(),
            p == outbound::other_than(*hash),
            others@ == hashes@.take(i as int).filter(p),
        decreases hashes.len() - i,
    {
        assert(hashes@.take(i + 1).drop_last() =~= hashes@.take(i as int));
        proof {
            reveal(Seq::filter);
        }
        if !bytes::bytes_eq(&hashes[i], hash) {
            others.push(hashes[i]);
        }
        i += 1;
    }
    assert(hashes@.take(i as int) =~= hashes@);
    others
}

impl LxmfRouter {
    /// Where the entry stands that waits for the receipt of the packet `packet_hash`.
    fn find_receipt(&self, packet_hash: &[u8; 32]) -> (index: Option<usize>)
        ensures
            match index {
                Some(i) => self@.receipt_index(*packet_hash) == Some(i as int) && i
                    < self@.queue.len(),
                None => self@.receipt_index(*packet_hash) is None,
            },
    {
        let ghost p = outbound::awaits_receipt(*packet_hash);
        let mut i: usize = 0;
        while i < self.pending_outbound.len()
            invariant
                i <= self.pending_outbound.len(),
                p == outbound::awaits_receipt(*packet_hash),
                forall|j: int| 0 <= j < i ==> !p(#[trigger] self@.queue[j]),
            decreases self.pending_outbound.len() - i,
        {
            if contains_hash(&self.pending_outbound[i].receipt_hashes, packet_hash) {
                proof {
                    assert(p(self@.queue[i as int]));
                    search::lemma_first_at(self@.queue, p, i as int);
                }
                return Some(i);
            }
            assert(!p(self@.queue[i as int]));
            i += 1;
        }
        proof {
            search::lemma_first_none(self@.queue, p);
        }
        None
    }

    /// Takes the entry at `i` out of the queue.
    fn take_entry(&mut self, i: usize) -> (entry: outbound::OutboundEntry)
        requires
            old(self).wf(),
            i < old(self)@.queue.len(),
        ensures
            final(self).wf(),
            entry@ == old(self)@.queue[i as int],
            final(self)@ == (RouterView {
                queue: old(self)@.queue.remove(i as int),
                ..old(self)@
            }),
    {
        let entry = self.pending_outbound.remove(i);
        assert(self@.queue =~= old(self)@.queue.remove(i as int));
        proof {
            outbound::lemma_all_valid_remove(old(self)@.queue, i as int);
        }
        entry
    }

    /// Retires the receipt of the packet `packet_hash` from the entry at `i`.
    fn retire_receipt(&mut self, i: usize, packet_hash: &[u8; 32])
        requires
            old(self).wf(),
            i < old(self)@.queue.len(),
        ensures
            final(self).wf(),
            final(self)@ == (RouterView {
                queue: old(self)@.queue.update(
                    i as int,
                    old(self)@.queue[i as int].without_receipt(*packet_hash),
                ),
                ..old(self)@
            }),
    {
        let others: Vec<[u8; 32]> = without_hash(
            &self.pending_outbound[i].receipt_hashes,
            packet_hash,
        );
        self.pending_outbound[i].receipt_hashes = others;
        let ghost e = old(self)@.queue[i as int].without_receipt(*packet_hash);
        assert(self@.queue =~= old(self)@.queue.update(i as int, e));
        proof {
            outbound::lemma_all_valid_update(old(self)@.queue, i as int, e);
        }
    }

    /// Takes note that the packet `packet_hash` was proved to have arrived.
    ///
    /// The message that it carried leaves the queue together with the event that tells of
    /// its delivery, so that no later pass can tell of it again. The receipts of its other
    /// attempts come back with the event; they are to be cancelled.
    pub fn check_delivery_receipt_with(&mut self, packet_hash: &[u8; 32]) -> (outcome: Option<
        (LxmfEvent, Vec<[u8; 32]>),
    >)
        requires
            old(self).wf(),
        ensures
            final(self).wf(),
            final(self)@ == old(self)@.proved(*packet_hash),
            match outcome {
                Some((event, siblings)) => old(self)@.proof_event(*packet_hash) == Some(event)
                    && siblings@ == old(self)@.siblings(*packet_hash),
                None => old(self)@.proof_event(*packet_hash) is None,
            },
    {
        match self.find_receipt(packet_hash) {
            Some(i) => {
                let entry = self.take_entry(i);
                let siblings: Vec<[u8; 32]> = without_hash(&entry.receipt_hashes, packet_hash);
                Some(
                    (
                        LxmfEvent::MessageDelivered {
                            message_hash: entry.message_hash,
                            dest_hash: entry.message.destination_hash,
                        },
                        siblings,
                    ),
                )
            },
            None => None,
        }
    }

    /// Takes note that the packet `packet_hash` was proved to have arrived, and leaves the
    /// receipts of the other attempts to run out.
    pub fn check_delivery_receipt(&mut self, packet_hash: &[u8; 32]) -> (event: Option<LxmfEvent>)
        requires
            old(self).wf(),
        ensures
            final(self).wf(),
            final(self)@ == old(self)@.proved(*packet_hash),
            event == old(self)@.proof_event(*packet_hash),
    {
        match self.check_delivery_receipt_with(packet_hash) {
            Some((event, _)) => Some(event),
            None => None,
        }
    }

    /// Takes note that no receipt for the packet `packet_hash` will come. A message that
    /// has used up its attempts and waits for no other receipt leaves the queue with the
    /// event that tells of its failure.
    pub fn handle_delivery_failure_terminal(&mut self, packet_hash: &[u8; 32]) -> (event: Option<
        LxmfEvent,
    >)
        requires
            old(self).wf(),
        ensures
            final(self).wf(),
            final(self)@ == old(self)@.failure_settled(*packet_hash),
            event == old(self)@.failure_event(*packet_hash),
    {
        match self.find_receipt(packet_hash) {
            Some(i) => {
                self.retire_receipt(i, packet_hash);
                let ghost q = self@.queue;
                assert(q.len() == self.pending_outbound@.len());
                assert(self.pending_outbound@[i as int]@ == q[i as int]);
                if self.pending_outbound[i].delivery_attempts < MAX_DELIVERY_ATTEMPTS
                    || self.pending_outbound[i].receipt_hashes.len() != 0 {
                    return None;
                }
                let entry = self.take_entry(i);
                assert(q.remove(i as int) =~= old(self)@.queue.remove(i as int));
                Some(
                    LxmfEvent::MessageFailed {
                        message_hash: entry.message_hash,
                        dest_hash: entry.message.destination_hash,
                    },
                )
            },
            None => None,
        }
    }

    /// Takes note of what became of a receipt. Beside the event, if there is one, come the
    /// receipts that are to be cancelled.
    pub fn handle_receipt_terminal(&mut self, terminal: ReceiptTerminal) -> (outcome: (
        Option<LxmfEvent>,
        Vec<[u8; 32]>,
    ))
        requires
            old(self).wf(),
        ensures
            final(self).wf(),
            match terminal {
                ReceiptTerminal::Delivered(packet_hash) => {
                    &&& final(self)@ == old(self)@.proved(packet_hash)
                    &&& outcome.0 == old(self)@.proof_event(packet_hash)
                    &&& outcome.1@ == old(self)@.siblings(packet_hash)
                },
                ReceiptTerminal::Failed(packet_hash) => {
                    &&& final(self)@ == old(self)@.failure_settled(packet_hash)
                    &&& outcome.0 == old(self)@.failure_event(packet_hash)
                    &&& outcome.1@.len() == 0
                },
            },
    {
        match terminal {
            ReceiptTerminal::Delivered(packet_hash) => {
                match self.check_delivery_receipt_with(&packet_hash) {
                    Some((event, siblings)) => (Some(event), siblings),
                    None => (None, Vec::new()),
                }
            },
            ReceiptTerminal::Failed(packet_hash) => {
                (self.handle_delivery_failure_terminal(&packet_hash), Vec::new())
            },
        }
    }

    /// Takes note that no receipt for the packet `packet_hash` will come, and says whether
    /// a message waited for it. One that has used up its attempts and waits for no other
    /// receipt is marked as failed; the next pass tells of it.
    pub fn check_delivery_failure(&mut self, packet_hash: &[u8; 32]) -> (known: bool)
        requires
            old(self).wf(),
        ensures
            final(self).wf(),
            final(self)@ == old(self)@.failure_marked(*packet_hash),
            known == old(self)@.receipt_index(*packet_hash) is Some,
    {
        match self.find_receipt(packet_hash) {
            Some(i) => {
                self.retire_receipt(i, packet_hash);
                let ghost q = self@.queue;
                assert(q.len() == self.pending_outbound@.len());
                assert(self.pending_outbound@[i as int]@ == q[i as int]);
                if self.pending_outbound[i].delivery_attempts >= MAX_DELIVERY_ATTEMPTS
                    && self.pending_outbound[i].receipt_hashes.len() == 0 {
                    self.set_state(i, OutboundState::Failed);
                    assert(self@.queue =~= old(self)@.failure_marked(*packet_hash).queue);
                }
                true
            },
            None => false,
        }
    }
}

} // verus!
