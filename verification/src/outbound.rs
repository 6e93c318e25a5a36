//! The outbound queue: what waits to be delivered, how often that was tried, and which
//! receipts are still out.

use crate::hash::{DestHash, LinkId};
use crate::message::{LXMessage, MessageView};
use crate::storage::DestMap;
use crate::ticket::{TicketCache, TicketView};
use crate::{bytes, message, msgpack, search, stamp, storage, ticket};
use vstd::prelude::*;

verus! {

/// Delivery attempts after which a message fails.
pub const MAX_DELIVERY_ATTEMPTS: u32 = 5;

/// Seconds between two delivery attempts.
pub const DELIVERY_RETRY_WAIT: u64 = 10;

/// Seconds for which a stamp cost that was announced is remembered: thirty days.
pub const STAMP_COST_MAX_AGE: u64 = 2_592_000;

/// How far the delivery of a message has come.
#[derive(Clone, Copy, Debug, PartialEq, Eq, Structural)]
pub enum OutboundState {
    /// Waiting for its next attempt.
    Queued,
    /// On its way over a link.
    Sending,
    /// Known to have arrived.
    Delivered,
    /// Given up.
    Failed,
}

/// A message in the queue.
pub struct OutboundEntry {
    pub message: LXMessage,
    /// The hash that tracks the message.
    pub message_hash: [u8; 32],
    /// The packet hashes of the attempts whose receipt is still out.
    pub receipt_hashes: Vec<[u8; 32]>,
    pub delivery_attempts: u32,
    /// The earliest time of the next attempt.
    pub next_delivery_attempt: u64,
    pub state: OutboundState,
}

/// What an entry of the queue holds.
#[verifier::ext_equal]
pub struct EntryView {
    pub message: MessageView,
    pub message_hash: [u8; 32],
    pub receipt_hashes: Seq<[u8; 32]>,
    pub delivery_attempts: u32,
    pub next_delivery_attempt: u64,
    pub state: OutboundState,
}

impl View for OutboundEntry {
    type V = EntryView;

    open spec fn view(&self) -> EntryView {
        EntryView {
            message: self.message@,
            message_hash: self.message_hash,
            receipt_hashes: self.receipt_hashes@,
            delivery_attempts: self.delivery_attempts,
            next_delivery_attempt: self.next_delivery_attempt,
            state: self.state,
        }
    }
}

/// A delivery over a link.
#[derive(Clone, Copy, Debug)]
pub enum OutboundDirectJob {
    /// The link is being established.
    Linking { dest_hash: DestHash, link_id: LinkId, message_hash: [u8; 32] },
    /// The message is being sent over the link.
    Sending { dest_hash: DestHash, link_id: LinkId, message_hash: [u8; 32] },
}

/// What the application is told.
#[derive(Clone, Copy, Debug, PartialEq, Eq)]
pub enum LxmfEvent {
    /// A message arrived.
    MessageDelivered { message_hash: [u8; 32], dest_hash: DestHash },
    /// A message was given up.
    MessageFailed { message_hash: [u8; 32], dest_hash: DestHash },
}

/// What became of the receipt of one packet.
#[derive(Clone, Copy, Debug, PartialEq, Eq)]
pub enum ReceiptTerminal {
    /// The packet with this hash was proved to have arrived.
    Delivered([u8; 32]),
    /// No proof for the packet with this hash will come.
    Failed([u8; 32]),
}

/// Why no packet was prepared.
#[derive(Clone, Copy, Debug, PartialEq, Eq, Structural)]
pub enum SendError {
    /// There is no room for another receipt.
    ReceiptTableFull,
    /// A receipt for the same packet hash is already out.
    ReceiptHashAlreadyTracked,
    /// There is no memory for the packet.
    OutputAllocationFailed,
    /// Any other reason, such as an identity that is not known yet.
    Other,
}

/// A packet to be sent.
pub struct OutboundPacket {
    pub data: Vec<u8>,
    /// The interface that it leaves by; every interface where there is none.
    pub interface: Option<u8>,
}

/// What a packet holds.
#[verifier::ext_equal]
pub struct PacketView {
    pub data: Seq<u8>,
    pub interface: Option<u8>,
}

impl View for OutboundPacket {
    type V = PacketView;

    open spec fn view(&self) -> PacketView {
        PacketView { data: self.data@, interface: self.interface }
    }
}

impl OutboundPacket {
    /// A packet that leaves by every interface.
    pub fn broadcast(data: Vec<u8>) -> (packet: Self)
        ensures
            packet@ == (PacketView { data: data@, interface: None }),
    {
        OutboundPacket { data, interface: None }
    }
}

impl OutboundDirectJob {
    /// The link that the delivery goes over.
    pub open spec fn link(self) -> LinkId {
        match self {
            OutboundDirectJob::Linking { link_id, .. } => link_id,
            OutboundDirectJob::Sending { link_id, .. } => link_id,
        }
    }

    /// The message that is delivered.
    pub open spec fn hash(self) -> [u8; 32] {
        match self {
            OutboundDirectJob::Linking { message_hash, .. } => message_hash,
            OutboundDirectJob::Sending { message_hash, .. } => message_hash,
        }
    }

    /// The destination that the message is delivered to.
    pub open spec fn dest(self) -> DestHash {
        match self {
            OutboundDirectJob::Linking { dest_hash, .. } => dest_hash,
            OutboundDirectJob::Sending { dest_hash, .. } => dest_hash,
        }
    }

    /// The job once `link` is established.
    pub open spec fn established(self, link: LinkId) -> OutboundDirectJob {
        if self is Linking && self.link() == link {
            OutboundDirectJob::Sending {
                dest_hash: self.dest(),
                link_id: self.link(),
                message_hash: self.hash(),
            }
        } else {
            self
        }
    }

    /// The link that the delivery goes over.
    pub fn link_id(&self) -> (id: &LinkId)
        ensures
            *id == self.link(),
    {
        match self {
            OutboundDirectJob::Linking { link_id, .. } => link_id,
            OutboundDirectJob::Sending { link_id, .. } => link_id,
        }
    }

    /// The message that is delivered.
    pub fn message_hash(&self) -> (hash: &[u8; 32])
        ensures
            *hash == self.hash(),
    {
        match self {
            OutboundDirectJob::Linking { message_hash, .. } => message_hash,
            OutboundDirectJob::Sending { message_hash, .. } => message_hash,
        }
    }

    /// The destination that the message is delivered to.
    pub fn dest_hash(&self) -> (dest: &DestHash)
        ensures
            *dest == self.dest(),
    {
        match self {
            OutboundDirectJob::Linking { dest_hash, .. } => dest_hash,
            OutboundDirectJob::Sending { dest_hash, .. } => dest_hash,
        }
    }
}

/// What the router holds.
#[verifier::ext_equal]
pub struct RouterView {
    pub queue: Seq<EntryView>,
    pub jobs: Seq<OutboundDirectJob>,
    pub costs: Seq<(DestHash, (u64, u8))>,
    pub tickets: TicketView,
}

/// Picks the entry of the message tracked by `hash`.
pub open spec fn hash_is(hash: [u8; 32]) -> spec_fn(EntryView) -> bool {
    |e: EntryView| e.message_hash == hash
}

/// Picks the entries that wait for the receipt of the packet `hash`.
pub open spec fn awaits_receipt(hash: [u8; 32]) -> spec_fn(EntryView) -> bool {
    |e: EntryView| e.receipt_hashes.contains(hash)
}

/// Picks the jobs that go over `link`.
pub open spec fn goes_over(link: LinkId) -> spec_fn(OutboundDirectJob) -> bool {
    |j: OutboundDirectJob| j.link() == link
}

/// Picks the jobs that do not go over `link`.
pub open spec fn goes_elsewhere(link: LinkId) -> spec_fn(OutboundDirectJob) -> bool {
    |j: OutboundDirectJob| j.link() != link
}

/// Picks the hashes other than `hash`.
pub open spec fn other_than(hash: [u8; 32]) -> spec_fn([u8; 32]) -> bool {
    |h: [u8; 32]| h != hash
}

/// When the attempt that follows one at `now` may be made.
pub open spec fn retry_time(now: u64) -> u64 {
    if now + DELIVERY_RETRY_WAIT > u64::MAX {
        u64::MAX
    } else {
        (now + DELIVERY_RETRY_WAIT) as u64
    }
}

impl EntryView {
    /// The entry of a message that joins the queue at `now`.
    pub open spec fn fresh(message: MessageView, now: u64) -> EntryView {
        EntryView {
            message,
            message_hash: message.hash(),
            receipt_hashes: Seq::empty(),
            delivery_attempts: 0,
            next_delivery_attempt: now,
            state: OutboundState::Queued,
        }
    }

    /// Whether the delivery has come to its end.
    pub open spec fn terminal(self) -> bool {
        self.state is Delivered || self.state is Failed
    }

    /// What is told when the entry leaves the queue.
    pub open spec fn event(self) -> LxmfEvent {
        if self.state is Delivered {
            self.delivered_event()
        } else {
            self.failed_event()
        }
    }

    /// What is told when the message arrived.
    pub open spec fn delivered_event(self) -> LxmfEvent {
        LxmfEvent::MessageDelivered {
            message_hash: self.message_hash,
            dest_hash: self.message.destination_hash,
        }
    }

    /// What is told when the message was given up.
    pub open spec fn failed_event(self) -> LxmfEvent {
        LxmfEvent::MessageFailed {
            message_hash: self.message_hash,
            dest_hash: self.message.destination_hash,
        }
    }

    /// Whether the next attempt may be made at `now`.
    pub open spec fn due(self, now: u64) -> bool {
        self.state is Queued && self.next_delivery_attempt <= now
    }

    /// Whether no further attempt is made.
    pub open spec fn exhausted(self) -> bool {
        self.delivery_attempts >= MAX_DELIVERY_ATTEMPTS
    }

    /// Whether an attempt is made at `now`.
    pub open spec fn attempts_at(self, now: u64) -> bool {
        self.due(now) && !self.exhausted()
    }

    /// In another state.
    pub open spec fn in_state(self, state: OutboundState) -> EntryView {
        EntryView { state, ..self }
    }

    /// Put off at `now` without an attempt.
    pub open spec fn put_off(self, now: u64) -> EntryView {
        EntryView { next_delivery_attempt: retry_time(now), ..self }
    }

    /// After an attempt at `now`.
    pub open spec fn attempted(self, now: u64) -> EntryView {
        EntryView {
            delivery_attempts: (self.delivery_attempts + 1) as u32,
            next_delivery_attempt: retry_time(now),
            ..self
        }
    }

    /// Once no receipt for the packet `hash` will come.
    pub open spec fn without_receipt(self, hash: [u8; 32]) -> EntryView {
        EntryView { receipt_hashes: self.receipt_hashes.filter(other_than(hash)), ..self }
    }
}

/// The queue `q` with `message` in it at `now`, unless its hash is already tracked.
pub open spec fn enqueued(q: Seq<EntryView>, message: MessageView, now: u64) -> Seq<EntryView> {
    if search::first_index(q, hash_is(message.hash())) is Some {
        q
    } else {
        q.push(EntryView::fresh(message, now))
    }
}

/// The field that carries the ticket `entry`: its expiry, then its bytes.
pub open spec fn ticket_field(entry: ticket::TicketEntry) -> Seq<u8> {
    msgpack::array_header(2) + (msgpack::uint_bytes(entry.expires as nat) + msgpack::bin_bytes(
        entry.ticket@,
    ))
}

/// `m` with the reply ticket `entry` in it, unless it bears one.
pub open spec fn with_ticket(m: MessageView, entry: ticket::TicketEntry) -> MessageView {
    if m.fields.contains_key(message::FIELD_TICKET) {
        m
    } else {
        MessageView {
            fields: m.fields.insert(message::FIELD_TICKET, ticket_field(entry)),
            ..m
        }
    }
}

impl RouterView {
    /// The stamp cost that `dest` announced.
    pub open spec fn stamp_cost(self, dest: DestHash) -> Option<u8> {
        match storage::lookup(self.costs, dest) {
            Some((_, cost)) => Some(cost),
            None => None,
        }
    }

    /// `m` with the stamp that its destination asks for at `now`: by ticket where there is
    /// one, else by work; `m` itself where it bears a stamp or none is asked for.
    pub open spec fn stamped(self, m: MessageView, now: u64) -> MessageView {
        match (m.stamp, self.stamp_cost(m.destination_hash)) {
            (None, Some(cost)) => if cost > 0 {
                MessageView {
                    stamp: match self.tickets.outbound_ticket(m.destination_hash, now) {
                        Some(t) => Some(stamp::stamp_of_ticket(t, m.message_id())),
                        None => stamp::stamp_of_work(m.message_id(), cost),
                    },
                    ..m
                }
            } else {
                m
            },
            _ => m,
        }
    }

    /// What of `m` joins the queue at `now` where a ticket that is given out bears the
    /// bytes `ticket`.
    pub open spec fn outgoing(self, m: MessageView, ticket: [u8; 2], now: u64) -> MessageView {
        self.stamped(with_ticket(m, ticket::issued_ticket(ticket, now)), now)
    }

    /// The tickets once `m` was taken in at `now`.
    pub open spec fn tickets_after(self, m: MessageView, ticket: [u8; 2], now: u64) -> TicketView {
        if m.fields.contains_key(message::FIELD_TICKET) {
            self.tickets
        } else {
            self.tickets.issue(m.destination_hash, ticket::issued_ticket(ticket, now))
        }
    }
}

/// Every message in the queue `q` can be packed.
pub open spec fn all_valid(q: Seq<EntryView>) -> bool {
    forall|i: int| 0 <= i < q.len() ==> (#[trigger] q[i]).message.valid()
}

/// An entry whose message can be packed may take the place of another.
pub proof fn lemma_all_valid_update(q: Seq<EntryView>, i: int, e: EntryView)
    requires
        all_valid(q),
        0 <= i < q.len(),
        e.message.valid() || e.message == q[i].message,
    ensures
        all_valid(q.update(i, e)),
{
    let t = q.update(i, e);
    assert forall|k: int| 0 <= k < t.len() implies (#[trigger] t[k]).message.valid() by {
        assert(q[k].message.valid());
    }
}

/// An entry whose message can be packed may join the queue.
pub proof fn lemma_all_valid_push(q: Seq<EntryView>, e: EntryView)
    requires
        all_valid(q),
        e.message.valid(),
    ensures
        all_valid(q.push(e)),
{
    let t = q.push(e);
    assert forall|k: int| 0 <= k < t.len() implies (#[trigger] t[k]).message.valid() by {
        if k < q.len() {
            assert(q[k].message.valid());
        }
    }
}

/// An entry may leave the queue.
pub proof fn lemma_all_valid_remove(q: Seq<EntryView>, i: int)
    requires
        all_valid(q),
        0 <= i < q.len(),
    ensures
        all_valid(q.remove(i)),
{
    let t = q.remove(i);
    assert forall|k: int| 0 <= k < t.len() implies (#[trigger] t[k]).message.valid() by {
        assert(t[k] == q[if k < i {
            k
        } else {
            k + 1
        }]);
    }
}

/// The router's outbound side.
pub struct LxmfRouter {
    /// The queue, in the order in which messages joined it.
    pub pending_outbound: Vec<OutboundEntry>,
    /// Deliveries over links.
    pub outbound_direct_jobs: Vec<OutboundDirectJob>,
    /// By destination: when its stamp cost was announced, and the cost.
    pub outbound_stamp_costs: DestMap<(u64, u8)>,
    pub tickets: TicketCache,
}

impl View for LxmfRouter {
    type V = RouterView;

    open spec fn view(&self) -> RouterView {
        RouterView {
            queue: Seq::new(self.pending_outbound@.len(), |i: int| self.pending_outbound@[i]@),
            jobs: self.outbound_direct_jobs@,
            costs: self.outbound_stamp_costs@,
            tickets: self.tickets@,
        }
    }
}

impl LxmfRouter {
    /// The tables are in order, and every message in the queue can be packed.
    pub open spec fn wf(&self) -> bool {
        &&& self.outbound_stamp_costs.wf()
        &&& self.tickets.wf()
        &&& all_valid(self@.queue)
    }

    /// A router with nothing in it.
    pub fn new() -> (router: Self)
        ensures
            router.wf(),
            router@.queue.len() == 0,
            router@.jobs.len() == 0,
            router@.costs.len() == 0,
            router@.tickets.inbound.len() == 0,
            router@.tickets.outbound.len() == 0,
    {
        LxmfRouter {
            pending_outbound: Vec::new(),
            outbound_direct_jobs: Vec::new(),
            outbound_stamp_costs: DestMap::new(),
            tickets: TicketCache::new(),
        }
    }

    /// The stamp cost that `dest` announced.
    pub fn get_outbound_stamp_cost(&self, dest: &DestHash) -> (cost: Option<u8>)
        requires
            self.wf(),
        ensures
            cost == self@.stamp_cost(*dest),
    {
        match self.outbound_stamp_costs.get(dest) {
            Some(entry) => Some(entry.1),
            None => None,
        }
    }

    /// Where the first entry of the message tracked by `hash` stands.
    pub(crate) fn find_message(&self, hash: &[u8; 32]) -> (index: Option<usize>)
        ensures
            match index {
                Some(i) => search::first_index(self@.queue, hash_is(*hash)) == Some(i as int) && i
                    < self@.queue.len(),
                None => search::first_index(self@.queue, hash_is(*hash)) is None,
            },
    {
        let ghost p = hash_is(*hash);
        let mut i: usize = 0;
        while i < self.pending_outbound.len()
            invariant
                i <= self.pending_outbound.len(),
                p == hash_is(*hash),
                forall|j: int| 0 <= j < i ==> !p(#[trigger] self@.queue[j]),
            decreases self.pending_outbound.len() - i,
        {
            if bytes::bytes_eq(&self.pending_outbound[i].message_hash, hash) {
                proof {
                    assert(p(self@.queue[i as int]));
                    search::lemma_first_at(self@.queue, p, i as int);
                }
                return Some(i);
            }
            assert(!p(self@.queue[i as int]));
            i += 1;
        }
        proof {
            search::lemma_first_none(self@.queue, p);
        }
        None
    }

    /// Moves the entry at `i` into another state.
    pub(crate) fn set_state(&mut self, i: usize, state: OutboundState)
        requires
            old(self).wf(),
            i < old(self)@.queue.len(),
        ensures
            final(self).wf(),
            final(self)@ == (RouterView {
                queue: old(self)@.queue.update(
                    i as int,
                    old(self)@.queue[i as int].in_state(state),
                ),
                ..old(self)@
            }),
    {
        self.pending_outbound[i].state = state;
        let ghost e = old(self)@.queue[i as int].in_state(state);
        assert(self@.queue =~= old(self)@.queue.update(i as int, e));
        proof {
            lemma_all_valid_update(old(self)@.queue, i as int, e);
        }
    }

    /// Puts `message` into the queue at `now`, unless it is tracked already, and returns
    /// the hash that tracks it.
    pub(crate) fn enqueue(&mut self, message: LXMessage, now: u64) -> (message_hash: [u8; 32])
        requires
            old(self).wf(),
            message@.valid(),
        ensures
            final(self).wf(),
            message_hash == message@.hash(),
            final(self)@ == (RouterView {
                queue: enqueued(old(self)@.queue, message@, now),
                ..old(self)@
            }),
    {
        let message_hash: [u8; 32] = message.hash();
        if self.find_message(&message_hash).is_some() {
            return message_hash;
        }
        let ghost m = message@;
        self.pending_outbound.push(
            OutboundEntry {
                message,
                message_hash,
                receipt_hashes: Vec::new(),
                delivery_attempts: 0,
                next_delivery_attempt: now,
                state: OutboundState::Queued,
            },
        );
        assert(self@.queue =~= old(self)@.queue.push(EntryView::fresh(m, now)));
        proof {
            lemma_all_valid_push(old(self)@.queue, EntryView::fresh(m, now));
        }
        message_hash
    }

    /// Takes `message` in for delivery and returns the hash that tracks it.
    ///
    /// A reply ticket with the bytes `ticket`, which the caller drew at random, goes into
    /// the message unless it bears one. Where the destination has announced a stamp cost
    /// and the message has no stamp, it gets one: from a ticket that the destination gave
    /// out, or by work. The same message is queued once.
    pub fn handle_outbound(&mut self, message: LXMessage, now: u64, ticket: [u8; 2]) -> (
        message_hash: [u8; 32])
        requires
            old(self).wf(),
            message@.valid(),
        ensures
            final(self).wf(),
            ({
                let outgoing = old(self)@.outgoing(message@, ticket, now);
                &&& outgoing.valid()
                &&& message_hash == outgoing.hash()
                &&& final(self)@ == (RouterView {
                    queue: enqueued(old(self)@.queue, outgoing, now),
                    tickets: old(self)@.tickets_after(message@, ticket, now),
                    ..old(self)@
                })
            }),
    {
        let mut message = message;
        let ghost m = message@;
        if !message.fields.contains_key(&message::FIELD_TICKET) {
            let entry = self.tickets.generate_ticket(message.destination_hash, ticket, now);
            let mut field: Vec<u8> = Vec::new();
            msgpack::write_array_header(&mut field, 2);
            msgpack::write_uint(&mut field, entry.expires);
            msgpack::write_bin(&mut field, entry.ticket.as_slice());
            assert(field@ =~= ticket_field(entry));
            proof {
                lemma_with_ticket_valid(m, entry);
            }
            let ghost before = message.fields@;
            message.fields.insert(message::FIELD_TICKET, field);
            assert(message::field_views(message.fields@) =~= message::field_views(before).insert(
                message::FIELD_TICKET,
                field@,
            ));
        }
        assert(message@ == with_ticket(m, ticket::issued_ticket(ticket, now)));
        assert(self@ == (RouterView {
            tickets: old(self)@.tickets_after(m, ticket, now),
            ..old(self)@
        }));
        if message.stamp.is_none() {
            if let Some(entry) = self.outbound_stamp_costs.get(&message.destination_hash) {
                let cost: u8 = entry.1;
                if cost > 0 {
                    match self.tickets.get_outbound_ticket(&message.destination_hash, now) {
                        Some(t) => {
                            let id: [u8; 32] = message.message_id();
                            message.stamp = Some(stamp::ticket_stamp(&t, &id));
                        },
                        None => {
                            message.generate_stamp(cost);
                        },
                    }
                }
            }
        }
        assert(message@ == old(self)@.outgoing(m, ticket, now));
        self.enqueue(message, now)
    }
}

/// A message that can be packed can still be packed with a reply ticket in it.
proof fn lemma_with_ticket_valid(m: MessageView, entry: ticket::TicketEntry)
    requires
        m.valid(),
    ensures
        with_ticket(m, entry).valid(),
{
    msgpack::lemma_uint_len(entry.expires as nat);
    msgpack::lemma_be_len(2, 1);
    assert(ticket_field(entry).len() <= u32::MAX);
}

} // verus!
