//! A pass over the outbound queue.
//!
//! The pass goes through the queue from its end. Where it needs the node to prepare a
//! packet or to open a link it stops with a [`NodeRequest`]; the caller has the node do
//! that, hands the outcome to [`LxmfRouter::apply_reply`], and lets the pass go on.

use crate::hash::{DestHash, LinkId};
use crate::message::DeliveryMethod;
use crate::outbound::{
    EntryView, LxmfEvent, LxmfRouter, OutboundDirectJob, OutboundPacket, OutboundState, PacketView,
    RouterView, SendError, DELIVERY_RETRY_WAIT, MAX_DELIVERY_ATTEMPTS,
};
use crate::{bytes, outbound};
use vstd::prelude::*;

verus! {

/// What the node is to do next.
pub enum NodeRequest {
    /// Prepare a packet with `payload` for `dest_hash`, and a receipt for it.
    PrepareData { dest_hash: DestHash, payload: Vec<u8> },
    /// Open a link to `dest_hash`.
    InitiateLink { dest_hash: DestHash },
    /// Nothing: the pass is over.
    Done,
}

/// A request as what it asks for.
#[verifier::ext_equal]
pub enum RequestView {
    PrepareData { dest_hash: DestHash, payload: Seq<u8> },
    InitiateLink { dest_hash: DestHash },
    Done,
}

impl View for NodeRequest {
    type V = RequestView;

    open spec fn view(&self) -> RequestView {
        match self {
            NodeRequest::PrepareData { dest_hash, payload } => RequestView::PrepareData {
                dest_hash: *dest_hash,
                payload: payload@,
            },
            NodeRequest::InitiateLink { dest_hash } => RequestView::InitiateLink {
                dest_hash: *dest_hash,
            },
            NodeRequest::Done => RequestView::Done,
        }
    }
}

/// What came of a request.
pub enum NodeReply {
    /// The packet was prepared; a receipt for `packet_hash` is out.
    Prepared { packet_hash: [u8; 32], data: Vec<u8> },
    /// No packet was prepared.
    NotPrepared(SendError),
    /// The link is being established with `packet`.
    LinkInitiated { packet: OutboundPacket, link_id: LinkId },
    /// No link can be opened.
    LinkRefused,
}

/// A pass over the queue.
pub struct OutboundPass {
    /// The time of the pass.
    pub now: u64,
    /// How many entries, from the front of the queue, the pass has yet to visit.
    pub cursor: usize,
    /// Whether the entry at `cursor` waits for the node.
    pub awaiting: bool,
    /// Packets to be sent.
    pub packets: Vec<OutboundPacket>,
    /// Events to be told.
    pub events: Vec<LxmfEvent>,
}

/// What a pass holds.
#[verifier::ext_equal]
pub struct PassView {
    pub now: u64,
    pub cursor: nat,
    pub awaiting: bool,
    pub packets: Seq<PacketView>,
    pub events: Seq<LxmfEvent>,
}

impl View for OutboundPass {
    type V = PassView;

    open spec fn view(&self) -> PassView {
        PassView {
            now: self.now,
            cursor: self.cursor as nat,
            awaiting: self.awaiting,
            packets: Seq::new(self.packets@.len(), |i: int| self.packets@[i]@),
            events: self.events@,
        }
    }
}

impl PassView {
    /// A pass at `now` over a queue of `n` entries. Where there was no memory for the
    /// events, the pass visits no entry.
    pub open spec fn open(now: u64, n: nat, granted: bool) -> PassView {
        PassView {
            now,
            cursor: if granted {
                n
            } else {
                0
            },
            awaiting: false,
            packets: Seq::empty(),
            events: Seq::empty(),
        }
    }

    /// Whether the pass can go on over the queue `q`.
    pub open spec fn ready(self, q: Seq<EntryView>) -> bool {
        !self.awaiting && self.cursor <= q.len()
    }

    /// Whether the pass waits for the node on behalf of an entry of `q`.
    pub open spec fn waits(self, q: Seq<EntryView>) -> bool {
        &&& self.awaiting
        &&& self.cursor < q.len()
        &&& q[self.cursor as int].attempts_at(self.now)
    }
}

/// What a visit does with an entry.
pub enum Visit {
    /// The entry leaves the queue and its event is told.
    Settle,
    /// The entry stays, as this.
    Keep(EntryView),
    /// The node is asked on behalf of the entry.
    Ask(RequestView),
}

/// What a visit at `now` does with the entry `e`; `has_job` says whether a link delivery
/// of its message is under way, `granted` whether there is memory for a packet and a receipt.
pub open spec fn visit_entry(e: EntryView, now: u64, has_job: bool, granted: bool) -> Visit {
    if e.terminal() {
        Visit::Settle
    } else if !e.due(now) {
        Visit::Keep(e)
    } else if e.exhausted() {
        Visit::Keep(
            if e.receipt_hashes.len() == 0 {
                e.in_state(OutboundState::Failed)
            } else {
                e
            },
        )
    } else {
        match e.message.method {
            DeliveryMethod::Opportunistic => if granted {
                Visit::Ask(
                    RequestView::PrepareData {
                        dest_hash: e.message.destination_hash,
                        payload: e.message.packed_opportunistic(),
                    },
                )
            } else {
                Visit::Keep(e.put_off(now))
            },
            DeliveryMethod::Direct => if has_job {
                Visit::Keep(e)
            } else {
                Visit::Ask(RequestView::InitiateLink { dest_hash: e.message.destination_hash })
            },
            DeliveryMethod::Propagated => Visit::Keep(e.attempted(now)),
        }
    }
}

/// Whether a link delivery of the message tracked by `hash` is under way.
pub open spec fn has_job(jobs: Seq<OutboundDirectJob>, hash: [u8; 32]) -> bool {
    exists|i: int| 0 <= i < jobs.len() && (#[trigger] jobs[i]).hash() == hash
}

/// The router, the pass and the request after one more entry was visited.
pub open spec fn visited(r: RouterView, p: PassView, granted: bool) -> (
    RouterView,
    PassView,
    Option<RequestView>,
) {
    let i = p.cursor - 1;
    let e = r.queue[i];
    let on = PassView { cursor: i as nat, ..p };
    match visit_entry(e, p.now, has_job(r.jobs, e.message_hash), granted) {
        Visit::Settle => (
            RouterView { queue: r.queue.remove(i), ..r },
            PassView { events: p.events.push(e.event()), ..on },
            None,
        ),
        Visit::Keep(kept) => (RouterView { queue: r.queue.update(i, kept), ..r }, on, None),
        Visit::Ask(request) => (r, PassView { awaiting: true, ..on }, Some(request)),
    }
}

/// Whether the pass can go on from `(r, p)` and stop as `stop` says. What is left open is
/// how the allocator answers at each visit.
pub open spec fn stops_at(
    r: RouterView,
    p: PassView,
    stop: (RouterView, PassView, RequestView),
) -> bool
    decreases p.cursor,
{
    if p.cursor == 0 {
        stop == (r, p, RequestView::Done)
    } else {
        exists|granted: bool|
            {
                let v = #[trigger] visited(r, p, granted);
                match v.2 {
                    Some(request) => stop == (v.0, v.1, request),
                    None => v.1.cursor < p.cursor && stops_at(v.0, v.1, stop),
                }
            }
    }
}

/// The entry `e` at `now` once the node prepared a packet for it.
pub open spec fn after_packet(e: EntryView, now: u64, packet_hash: [u8; 32]) -> EntryView {
    EntryView { receipt_hashes: e.receipt_hashes.push(packet_hash), ..e }.attempted(now)
}

/// Whether an attempt that ended in `error` is not counted: nothing was sent, and the cause
/// goes by.
pub open spec fn is_back_pressure(error: SendError) -> bool {
    ||| error is ReceiptTableFull
    ||| error is ReceiptHashAlreadyTracked
    ||| error is OutputAllocationFailed
}

/// Whether `reply` answers what is asked on behalf of a message delivered by `method`.
pub open spec fn answers(reply: NodeReply, method: DeliveryMethod) -> bool {
    match reply {
        NodeReply::Prepared { .. } => method is Opportunistic,
        NodeReply::NotPrepared(_) => method is Opportunistic,
        NodeReply::LinkInitiated { .. } => method is Direct,
        NodeReply::LinkRefused => method is Direct,
    }
}

/// The router and the pass once the entry that waited has its reply.
pub open spec fn replied(r: RouterView, p: PassView, reply: NodeReply) -> (RouterView, PassView) {
    let i = p.cursor as int;
    let e = r.queue[i];
    let on = PassView { awaiting: false, ..p };
    match reply {
        NodeReply::Prepared { packet_hash, data } => (
            RouterView { queue: r.queue.update(i, after_packet(e, p.now, packet_hash)), ..r },
            PassView {
                packets: p.packets.push(PacketView { data: data@, interface: None }),
                ..on
            },
        ),
        NodeReply::NotPrepared(error) => (
            RouterView {
                queue: r.queue.update(
                    i,
                    if is_back_pressure(error) {
                        e.put_off(p.now)
                    } else {
                        e.attempted(p.now)
                    },
                ),
                ..r
            },
            on,
        ),
        NodeReply::LinkInitiated { packet, link_id } => (
            RouterView {
                queue: r.queue.update(
                    i,
                    e.in_state(OutboundState::Sending).attempted(p.now),
                ),
                jobs: r.jobs.push(
                    OutboundDirectJob::Linking {
                        dest_hash: e.message.destination_hash,
                        link_id,
                        message_hash: e.message_hash,
                    },
                ),
                ..r
            },
            PassView { packets: p.packets.push(packet@), ..on },
        ),
        NodeReply::LinkRefused => (
            RouterView { queue: r.queue.update(i, e.attempted(p.now)), ..r },
            on,
        ),
    }
}

/// Calls `Vec::try_reserve_exact` and says whether it succeeded.
///
/// Claimed and not proved: the elements of the vector stay as they are, and room for no
/// further element is always granted, for the call does nothing where the capacity
/// suffices. Whether the allocator grants any other room is left open.
#[verifier::external_body]
fn try_reserve_exact<T>(v: &mut Vec<T>, additional: usize) -> (granted: bool)
    ensures
        final(v)@ == old(v)@,
        additional == 0 ==> granted,
{
    v.try_reserve_exact(additional).is_ok()
}

impl OutboundPass {
    /// A pass at `now` over a queue of `n` entries; `granted` says whether there was memory
    /// for the events.
    pub fn open(now: u64, n: usize, events: Vec<LxmfEvent>, granted: bool) -> (pass: Self)
        requires
            events@.len() == 0,
        ensures
            pass@ == PassView::open(now, n as nat, granted),
    {
        let pass = OutboundPass {
            now,
            cursor: if granted {
                n
            } else {
                0
            },
            awaiting: false,
            packets: Vec::new(),
            events,
        };
        assert(pass@ =~= PassView::open(now, n as nat, granted));
        pass
    }
}

/// Picks the entries whose delivery has come to its end.
pub open spec fn has_ended() -> spec_fn(EntryView) -> bool {
    |e: EntryView| e.terminal()
}

impl LxmfRouter {
    /// How many entries of the queue have come to their end.
    pub fn terminal_count(&self) -> (n: usize)
        ensures
            n == self@.queue.filter(has_ended()).len(),
    {
        let mut n: usize = 0;
        let mut i: usize = 0;
        proof {
            reveal(Seq::filter);
            assert(self@.queue.take(0).filter(has_ended()).len() == 0);
        }
        while i < self.pending_outbound.len()
            invariant
                n <= i <= self.pending_outbound.len(),
                n == self@.queue.take(i as int).filter(has_ended()).len(),
            decreases self.pending_outbound.len() - i,
        {
            proof {
                reveal(Seq::filter);
                assert(self@.queue.take(i + 1).drop_last() =~= self@.queue.take(i as int));
                assert(self@.queue.take(i + 1).last() == self.pending_outbound@[i as int]@);
            }
            let state = self.pending_outbound[i].state;
            if state == OutboundState::Delivered || state == OutboundState::Failed {
                n += 1;
            }
            i += 1;
        }
        assert(self@.queue.take(i as int) =~= self@.queue);
        n
    }

    /// Opens a pass over the queue at `now`.
    ///
    /// Room for the event of every entry that has come to its end is reserved before any
    /// of them leaves the queue. Where the allocator has none, the pass visits no entry.
    /// Where no entry has come to its end there is nothing to reserve, and the pass goes
    /// over the whole queue.
    pub fn begin_outbound(&self, now: u64) -> (pass: OutboundPass)
        ensures
            exists|granted: bool|
                pass@ == #[trigger] PassView::open(now, self@.queue.len(), granted),
            self@.queue.filter(has_ended()).len() == 0 ==> pass@ == PassView::open(
                now,
                self@.queue.len(),
                true,
            ),
            pass@.ready(self@.queue),
    {
        let terminal: usize = self.terminal_count();
        let mut events: Vec<LxmfEvent> = Vec::new();
        let granted: bool = try_reserve_exact(&mut events, terminal);
        let pass = OutboundPass::open(now, self.pending_outbound.len(), events, granted);
        assert(pass@ == PassView::open(now, self@.queue.len(), granted));
        pass
    }

    /// Whether a link delivery of the message tracked by `hash` is under way.
    fn has_direct_job(&self, hash: &[u8; 32]) -> (found: bool)
        ensures
            found == has_job(self@.jobs, *hash),
    {
        let mut i: usize = 0;
        while i < self.outbound_direct_jobs.len()
            invariant
                i <= self.outbound_direct_jobs.len(),
                forall|j: int| 0 <= j < i ==> (#[trigger] self@.jobs[j]).hash() != *hash,
            decreases self.outbound_direct_jobs.len() - i,
        {
            if bytes::bytes_eq(self.outbound_direct_jobs[i].message_hash(), hash) {
                assert(self@.jobs[i as int].hash() == *hash);
                return true;
            }
            i += 1;
        }
        false
    }

    /// Whether the entry at `i` gets a packet at `now`, so that there has to be memory for
    /// it and for its receipt.
    fn needs_packet(&self, i: usize, now: u64) -> (needed: bool)
        requires
            i < self@.queue.len(),
        ensures
            needed == (self@.queue[i as int].attempts_at(now)
                && self@.queue[i as int].message.method is Opportunistic),
    {
        let entry = &self.pending_outbound[i];
        assert(entry@ == self@.queue[i as int]);
        entry.state == OutboundState::Queued && entry.next_delivery_attempt <= now
            && entry.delivery_attempts < MAX_DELIVERY_ATTEMPTS && entry.message.method
            == DeliveryMethod::Opportunistic
    }

    /// Visits one more entry of the queue; `granted` says whether there is memory for a
    /// packet and its receipt.
    pub fn visit_next(&mut self, pass: &mut OutboundPass, granted: bool) -> (request: Option<
        NodeRequest,
    >)
        requires
            old(self).wf(),
            old(pass)@.ready(old(self)@.queue),
            old(pass).cursor > 0,
        ensures
            final(self).wf(),
            ({
                let v = visited(old(self)@, old(pass)@, granted);
                &&& final(self)@ == v.0
                &&& final(pass)@ == v.1
                &&& match request {
                    Some(asked) => v.2 == Some(asked@) && final(pass)@.waits(final(self)@.queue),
                    None => v.2 is None && final(pass)@.ready(final(self)@.queue),
                }
            }),
    {
        let i: usize = pass.cursor - 1;
        pass.cursor = i;
        let now: u64 = pass.now;
        let ghost before = self@.queue;
        let ghost e = before[i as int];
        assert(e == self.pending_outbound@[i as int]@);
        assert(e.message.valid());
        let state = self.pending_outbound[i].state;
        if state == OutboundState::Delivered {
            let removed = self.pending_outbound.remove(i);
            pass.events.push(
                LxmfEvent::MessageDelivered {
                    message_hash: removed.message_hash,
                    dest_hash: removed.message.destination_hash,
                },
            );
            assert(self@.queue =~= before.remove(i as int));
            assert(pass@ =~= visited(old(self)@, old(pass)@, granted).1);
            return None;
        }
        if state == OutboundState::Failed {
            let removed = self.pending_outbound.remove(i);
            pass.events.push(
                LxmfEvent::MessageFailed {
                    message_hash: removed.message_hash,
                    dest_hash: removed.message.destination_hash,
                },
            );
            assert(self@.queue =~= before.remove(i as int));
            assert(pass@ =~= visited(old(self)@, old(pass)@, granted).1);
            return None;
        }
        assert(before.update(i as int, e) =~= before);
        if state == OutboundState::Sending || now < self.pending_outbound[i].next_delivery_attempt {
            return None;
        }
        if self.pending_outbound[i].delivery_attempts >= MAX_DELIVERY_ATTEMPTS {
            if self.pending_outbound[i].receipt_hashes.len() == 0 {
                self.set_state(i, OutboundState::Failed);
            }
            return None;
        }
        match self.pending_outbound[i].message.method {
            DeliveryMethod::Opportunistic => {
                if !granted {
                    self.put_off(i, now);
                    return None;
                }
                let payload: Vec<u8> = self.pending_outbound[i].message.pack_opportunistic();
                pass.awaiting = true;
                Some(
                    NodeRequest::PrepareData {
                        dest_hash: self.pending_outbound[i].message.destination_hash,
                        payload,
                    },
                )
            },
            DeliveryMethod::Direct => {
                if self.has_direct_job(&self.pending_outbound[i].message_hash) {
                    return None;
                }
                pass.awaiting = true;
                Some(
                    NodeRequest::InitiateLink {
                        dest_hash: self.pending_outbound[i].message.destination_hash,
                    },
                )
            },
            DeliveryMethod::Propagated => {
                self.count_attempt(i, now);
                None
            },
        }
    }

    /// Puts the next attempt of the entry at `i` off, without counting one.
    fn put_off(&mut self, i: usize, now: u64)
        requires
            old(self).wf(),
            i < old(self)@.queue.len(),
        ensures
            final(self).wf(),
            final(self)@ == (RouterView {
                queue: old(self)@.queue.update(i as int, old(self)@.queue[i as int].put_off(now)),
                ..old(self)@
            }),
    {
        self.pending_outbound[i].next_delivery_attempt = now.saturating_add(DELIVERY_RETRY_WAIT);
        let ghost e = old(self)@.queue[i as int].put_off(now);
        assert(self@.queue =~= old(self)@.queue.update(i as int, e));
        proof {
            outbound::lemma_all_valid_update(old(self)@.queue, i as int, e);
        }
    }

    /// Counts an attempt for the entry at `i`.
    fn count_attempt(&mut self, i: usize, now: u64)
        requires
            old(self).wf(),
            i < old(self)@.queue.len(),
            !old(self)@.queue[i as int].exhausted(),
        ensures
            final(self).wf(),
            final(self)@ == (RouterView {
                queue: old(self)@.queue.update(
                    i as int,
                    old(self)@.queue[i as int].attempted(now),
                ),
                ..old(self)@
            }),
    {
        assert(self@.queue[i as int] == self.pending_outbound@[i as int]@);
        let attempts: u32 = self.pending_outbound[i].delivery_attempts;
        self.pending_outbound[i].delivery_attempts = attempts + 1;
        self.pending_outbound[i].next_delivery_attempt = now.saturating_add(DELIVERY_RETRY_WAIT);
        let ghost e = old(self)@.queue[i as int].attempted(now);
        assert(self@.queue =~= old(self)@.queue.update(i as int, e));
        proof {
            outbound::lemma_all_valid_update(old(self)@.queue, i as int, e);
        }
    }

    /// Goes on with a pass until the node is needed or the queue is through.
    ///
    /// Entries that have come to their end leave the queue, each with its event. An entry
    /// on its way over a link, or whose time has not come, stays as it is. One that has
    /// used up its attempts fails once no receipt is out. For any other one an attempt is
    /// made; one that travels in a packet is put off where there is no memory for it.
    pub fn process_outbound(&mut self, pass: &mut OutboundPass) -> (request: NodeRequest)
        requires
            old(self).wf(),
            old(pass)@.ready(old(self)@.queue),
        ensures
            final(self).wf(),
            stops_at(old(self)@, old(pass)@, (final(self)@, final(pass)@, request@)),
            request is Done ==> final(pass)@.cursor == 0 && final(pass)@.ready(final(self)@.queue),
            !(request is Done) ==> final(pass)@.waits(final(self)@.queue),
    {
        while pass.cursor > 0
            invariant
                self.wf(),
                pass@.ready(self@.queue),
                forall|stop: (RouterView, PassView, RequestView)| #[trigger]
                    stops_at(self@, pass@, stop) ==> stops_at(old(self)@, old(pass)@, stop),
            decreases pass.cursor,
        {
            let i: usize = pass.cursor - 1;
            let ghost r = self@;
            let ghost p = pass@;
            let granted: bool = if self.needs_packet(i, pass.now) {
                let receipt: bool = self.reserve_receipt(i);
                receipt && {
                    let packet: bool = try_reserve_exact(&mut pass.packets, 1);
                    packet
                }
            } else {
                true
            };
            assert(self@ == r);
            assert(pass@ =~= p);
            match self.visit_next(pass, granted) {
                Some(request) => {
                    proof {
                        let stop = (self@, pass@, request@);
                        let v = visited(r, p, granted);
                        assert(stops_at(r, p, stop));
                    }
                    return request;
                },
                None => {
                    proof {
                        let v = visited(r, p, granted);
                        assert forall|stop: (RouterView, PassView, RequestView)| #[trigger]
                            stops_at(self@, pass@, stop) implies stops_at(
                            old(self)@,
                            old(pass)@,
                            stop,
                        ) by {
                            assert(stops_at(r, p, stop));
                        }
                    }
                },
            }
        }
        proof {
            let stop = (self@, pass@, RequestView::Done);
            assert(stops_at(self@, pass@, stop));
        }
        NodeRequest::Done
    }

    /// Reserves room for one more receipt of the entry at `i`.
    fn reserve_receipt(&mut self, i: usize) -> (granted: bool)
        requires
            old(self).wf(),
            i < old(self)@.queue.len(),
        ensures
            final(self).wf(),
            final(self)@ == old(self)@,
    {
        let granted: bool = try_reserve_exact(&mut self.pending_outbound[i].receipt_hashes, 1);
        assert(self@.queue =~= old(self)@.queue);
        granted
    }

    /// Gives the entry that waits what came of its request.
    ///
    /// A packet that was prepared is to be broadcast, and its receipt is awaited; a link
    /// that is being opened makes the entry's delivery a job. Either counts as an attempt,
    /// and so does a refusal, unless nothing could be sent for want of room: then the
    /// attempt is put off and not counted.
    pub fn apply_reply(&mut self, pass: &mut OutboundPass, reply: NodeReply)
        requires
            old(self).wf(),
            old(pass)@.waits(old(self)@.queue),
            answers(reply, old(self)@.queue[old(pass).cursor as int].message.method),
        ensures
            final(self).wf(),
            (final(self)@, final(pass)@) == replied(old(self)@, old(pass)@, reply),
            final(pass)@.ready(final(self)@.queue),
    {
        let i: usize = pass.cursor;
        let now: u64 = pass.now;
        pass.awaiting = false;
        let ghost before = self@.queue;
        let ghost e = before[i as int];
        assert(e == self.pending_outbound@[i as int]@);
        match reply {
            NodeReply::Prepared { packet_hash, data } => {
                self.pending_outbound[i].receipt_hashes.push(packet_hash);
                let ghost awaited = EntryView {
                    receipt_hashes: e.receipt_hashes.push(packet_hash),
                    ..e
                };
                assert(self@.queue =~= before.update(i as int, awaited));
                proof {
                    outbound::lemma_all_valid_update(before, i as int, awaited);
                }
                self.count_attempt(i, now);
                pass.packets.push(OutboundPacket::broadcast(data));
            },
            NodeReply::NotPrepared(error) => {
                match error {
                    SendError::ReceiptTableFull
                    | SendError::ReceiptHashAlreadyTracked
                    | SendError::OutputAllocationFailed => self.put_off(i, now),
                    SendError::Other => self.count_attempt(i, now),
                }
            },
            NodeReply::LinkInitiated { packet, link_id } => {
                self.outbound_direct_jobs.push(
                    OutboundDirectJob::Linking {
                        dest_hash: self.pending_outbound[i].message.destination_hash,
                        link_id,
                        message_hash: self.pending_outbound[i].message_hash,
                    },
                );
                self.set_state(i, OutboundState::Sending);
                self.count_attempt(i, now);
                pass.packets.push(packet);
            },
            NodeReply::LinkRefused => self.count_attempt(i, now),
        }
        assert(self@ =~= replied(old(self)@, old(pass)@, reply).0);
        assert(pass@ =~= replied(old(self)@, old(pass)@, reply).1);
    }
}

} // verus!
