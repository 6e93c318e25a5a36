//! What a message that is taken in for delivery goes out with, and what the values of the
//! library stand for.

use crate::delivery::{NodeRequest, OutboundPass, RequestView};
use crate::hash::DestHash;
use crate::message::{LXMessage, MessageView};
use crate::outbound::{
    EntryView, LxmfRouter, OutboundEntry, OutboundPacket, OutboundState, RouterView,
};
use crate::settlement_laws;
use crate::ticket::{TicketCache, TicketEntry, TicketRecord, TicketView, TICKET_EXPIRY};
use crate::{digest, message, outbound, search, stamp, storage, ticket};
use vstd::prelude::*;

verus! {

/// A message is tracked by the SHA-256 digest of its packed form, and named by that of the
/// same without signature and stamp. What a packet carries is the packed form behind the
/// destination.
pub proof fn law_message_hashes(m: MessageView)
    ensures
        m.hash() == digest::sha256_digest(m.packed()),
        m.message_id() == digest::sha256_digest(
            m.destination_hash.0@ + (m.source_hash.0@ + (MessageView {
                stamp: None,
                ..m
            }).payload()),
        ),
        m.packed_opportunistic() == m.source_hash.0@ + (m.signature@ + m.payload()),
        m.packed() == m.destination_hash.0@ + m.packed_opportunistic(),
{
}

/// A message can be packed exactly if no part is longer than four bytes can say.
pub proof fn law_valid_message(m: MessageView)
    ensures
        m.valid() <==> {
            &&& m.title.len() <= u32::MAX
            &&& m.content.len() <= u32::MAX
            &&& forall|k: u8|
                m.fields.contains_key(k) ==> (#[trigger] m.fields[k]).len() <= u32::MAX
        },
{
}

/// A router is in order exactly if no destination has two stamp costs or two tickets
/// received, and every message in its queue can be packed.
pub proof fn law_router_in_order(r: LxmfRouter)
    ensures
        r.wf() <==> {
            &&& storage::distinct_keys(r@.costs)
            &&& storage::distinct_keys(r@.tickets.outbound)
            &&& forall|i: int| 0 <= i < r@.queue.len() ==> (#[trigger] r@.queue[i]).message.valid()
        },
{
}

/// A message joins the end of the queue, waiting for its first attempt at once, unless an
/// entry is tracked by the digest of its packed form; then the queue stays as it is.
pub proof fn law_joining_the_queue(q: Seq<EntryView>, m: MessageView, now: u64)
    ensures
        outbound::enqueued(q, m, now) == if settlement_laws::is_tracked(
            q,
            digest::sha256_digest(m.packed()),
        ) {
            q
        } else {
            q.push(
                EntryView {
                    message: m,
                    message_hash: digest::sha256_digest(m.packed()),
                    receipt_hashes: Seq::empty(),
                    delivery_attempts: 0,
                    next_delivery_attempt: now,
                    state: OutboundState::Queued,
                },
            )
        },
{
    let p = outbound::hash_is(m.hash());
    search::lemma_first_index(q, p);
    match search::first_index(q, p) {
        Some(i) => {
            assert(p(q[i]));
            assert(q[i].message_hash == m.hash());
        },
        None => {
            if settlement_laws::is_tracked(q, m.hash()) {
                let k = choose|k: int|
                    0 <= k < q.len() && (#[trigger] q[k]).message_hash == m.hash();
                assert(!p(q[k]));
            }
        },
    }
}

/// A ticket that is given out bears the bytes that were drawn for it and is good for the
/// lifetime of tickets, or to the end of time.
pub proof fn law_issued_ticket(bytes: [u8; 2], now: u64)
    ensures
        ticket::issued_ticket(bytes, now).ticket == bytes,
        ticket::issued_ticket(bytes, now).expires == if now + TICKET_EXPIRY <= u64::MAX {
            now + TICKET_EXPIRY
        } else {
            u64::MAX as int
        },
{
}

/// Taking a message in puts the ticket that it went out with on record for its destination,
/// behind the earlier ones, and nothing if it bore one already. Tickets received from
/// others are not touched.
pub proof fn law_ticket_goes_on_record(r: RouterView, m: MessageView, bytes: [u8; 2], now: u64)
    ensures
        r.tickets_after(m, bytes, now).outbound == r.tickets.outbound,
        m.fields.contains_key(message::FIELD_TICKET) ==> r.tickets_after(m, bytes, now)
            == r.tickets,
        !m.fields.contains_key(message::FIELD_TICKET) ==> r.tickets_after(m, bytes, now).inbound
            == r.tickets.inbound.push(
            TicketRecord {
                dest_hash: m.destination_hash,
                entry: ticket::issued_ticket(bytes, now),
            },
        ),
{
}

/// A stamp is added only to a message without one whose destination announced a cost above
/// zero. It comes from the ticket that the destination gave out, if there is one that has
/// not expired; else from work. All else goes out as it came, but for the reply ticket.
pub proof fn law_stamp_of_outgoing(r: RouterView, m: MessageView, bytes: [u8; 2], now: u64)
    ensures
        ({
            let out = r.outgoing(m, bytes, now);
            let id = out.message_id();
            let cost = match storage::lookup(r.costs, m.destination_hash) {
                Some(known) => known.1,
                None => 0,
            };
            out.stamp == if m.stamp is Some || cost == 0 {
                m.stamp
            } else {
                match storage::lookup(r.tickets.outbound, m.destination_hash) {
                    Some(t) => if now < t.expires {
                        Some(digest::sha256_digest(t.ticket@ + id@))
                    } else {
                        stamp::stamp_of_work(id, cost)
                    },
                    None => stamp::stamp_of_work(id, cost),
                }
            }
        }),
{
    let bare = outbound::with_ticket(m, ticket::issued_ticket(bytes, now));
    let out = r.outgoing(m, bytes, now);
    assert((MessageView { stamp: out.stamp, ..bare }).message_id() == bare.message_id());
}

/// The stamp cost of a destination is the one that it announced, and there is none for a
/// destination that announced none.
pub proof fn law_stamp_cost(r: RouterView, dest: DestHash)
    ensures
        r.stamp_cost(dest) == match storage::lookup(r.costs, dest) {
            Some(known) => Some(known.1),
            None => None,
        },
{
}

/// The bit of `d` at place `b`, counted from the most significant bit of the first byte.
pub open spec fn bit_at(d: [u8; 32], b: int) -> int {
    let byte = d[b / 8] as int;
    let place = b % 8;
    if place == 0 {
        byte / 128 % 2
    } else if place == 1 {
        byte / 64 % 2
    } else if place == 2 {
        byte / 32 % 2
    } else if place == 3 {
        byte / 16 % 2
    } else if place == 4 {
        byte / 8 % 2
    } else if place == 5 {
        byte / 4 % 2
    } else if place == 6 {
        byte / 2 % 2
    } else {
        byte % 2
    }
}

/// A digest is worth a cost exactly if as many of its leading bits are zero.
pub proof fn law_worth(d: [u8; 32], cost: u8)
    ensures
        stamp::meets_cost(d, cost) <==> forall|b: int| 0 <= b < cost ==> #[trigger] bit_at(d, b)
            == 0,
{
    let whole = cost as int / 8;
    let rest = cost as int % 8;
    if stamp::meets_cost(d, cost) {
        assert forall|b: int| 0 <= b < cost implies #[trigger] bit_at(d, b) == 0 by {
            if b / 8 < whole {
                assert(d[b / 8] == 0);
            } else {
                assert(b / 8 == whole);
            }
        }
    }
    if forall|b: int| 0 <= b < cost ==> #[trigger] bit_at(d, b) == 0 {
        assert forall|i: int| 0 <= i < whole implies d[i] == 0 by {
            assert(bit_at(d, 8 * i) == 0);
            assert(bit_at(d, 8 * i + 1) == 0);
            assert(bit_at(d, 8 * i + 2) == 0);
            assert(bit_at(d, 8 * i + 3) == 0);
            assert(bit_at(d, 8 * i + 4) == 0);
            assert(bit_at(d, 8 * i + 5) == 0);
            assert(bit_at(d, 8 * i + 6) == 0);
            assert(bit_at(d, 8 * i + 7) == 0);
        }
        let w = 8 * whole;
        assert(rest > 0 ==> bit_at(d, w) == 0);
        assert(rest > 1 ==> bit_at(d, w + 1) == 0);
        assert(rest > 2 ==> bit_at(d, w + 2) == 0);
        assert(rest > 3 ==> bit_at(d, w + 3) == 0);
        assert(rest > 4 ==> bit_at(d, w + 4) == 0);
        assert(rest > 5 ==> bit_at(d, w + 5) == 0);
        assert(rest > 6 ==> bit_at(d, w + 6) == 0);
    }
}

/// Work yields a stamp whose digest with the message opens with as many zero bits as the
/// cost says, and it yields one if any number of 64 bits makes such a stamp.
pub proof fn law_work(message_id: [u8; 32], cost: u8, nonce: u64)
    ensures
        match stamp::stamp_of_work(message_id, cost) {
            Some(found) => forall|b: int|
                0 <= b < cost ==> #[trigger] bit_at(
                    digest::sha256_digest(message_id@ + found@),
                    b,
                ) == 0,
            None => !stamp::meets_cost(
                digest::sha256_digest(message_id@ + stamp::nonce_stamp(nonce as nat)@),
                cost,
            ),
        },
{
    stamp::law_work_meets_cost(message_id, cost);
    match stamp::stamp_of_work(message_id, cost) {
        Some(found) => law_worth(digest::sha256_digest(message_id@ + found@), cost),
        None => {
            if stamp::nonce_works(message_id, cost, nonce as nat) {
                lemma_first_work(message_id, cost, nonce as nat);
            }
        },
    }
}

proof fn lemma_first_work(message_id: [u8; 32], cost: u8, nonce: nat)
    requires
        nonce <= u64::MAX,
        stamp::nonce_works(message_id, cost, nonce),
    ensures
        exists|n: nat| stamp::is_first_work(message_id, cost, n),
    decreases nonce,
{
    if forall|n: nat| n < nonce ==> !#[trigger] stamp::nonce_works(message_id, cost, n) {
        assert(stamp::is_first_work(message_id, cost, nonce));
    } else {
        let n = choose|n: nat| n < nonce && #[trigger] stamp::nonce_works(message_id, cost, n);
        lemma_first_work(message_id, cost, n);
    }
}

/// A ticket that is given out is among those good for its destination, behind the earlier
/// ones, until it expires; no other destination is concerned.
pub proof fn law_given_ticket_is_good(
    t: TicketView,
    dest: DestHash,
    entry: TicketEntry,
    asked: DestHash,
    now: u64,
)
    ensures
        t.issue(dest, entry).inbound_tickets(asked, now) == if asked == dest && now
            < entry.expires {
            t.inbound_tickets(asked, now).push(entry.ticket)
        } else {
            t.inbound_tickets(asked, now)
        },
        t.issue(dest, entry).outbound == t.outbound,
        t.inbound.len() == 0 ==> t.inbound_tickets(asked, now).len() == 0,
{
    reveal(Seq::filter);
    let good = ticket::good_for(asked, now);
    let record = TicketRecord { dest_hash: dest, entry };
    let after = t.issue(dest, entry).inbound;
    assert(after.drop_last() =~= t.inbound);
    assert(after.last() == record);
    assert(t.issue(dest, entry).inbound_tickets(asked, now) =~= if good(record) {
        t.inbound_tickets(asked, now).push(entry.ticket)
    } else {
        t.inbound_tickets(asked, now)
    });
}

/// The ticket received from a destination is the one on record for it, until it expires.
pub proof fn law_received_ticket(t: TicketView, dest: DestHash, now: u64)
    ensures
        t.outbound_ticket(dest, now) == match storage::lookup(t.outbound, dest) {
            Some(entry) => if now < entry.expires {
                Some(entry.ticket)
            } else {
                None
            },
            None => None,
        },
{
}

/// What a message stands for is each of its parts.
pub proof fn law_message_view(m: LXMessage)
    ensures
        m@.destination_hash == m.destination_hash,
        m@.source_hash == m.source_hash,
        m@.signature == m.signature,
        m@.timestamp == m.timestamp,
        m@.title == m.title@,
        m@.content == m.content@,
        m@.stamp == m.stamp,
        m@.method == m.method,
        forall|k: u8| #[trigger]
            m@.fields.contains_key(k) <==> m.fields@.contains_key(k),
        forall|k: u8| m.fields@.contains_key(k) ==> #[trigger] m@.fields[k] == m.fields@[k]@,
{
}

/// What an entry of the queue stands for is each of its parts.
pub proof fn law_entry_view(e: OutboundEntry)
    ensures
        e@.message == e.message@,
        e@.message_hash == e.message_hash,
        e@.receipt_hashes == e.receipt_hashes@,
        e@.delivery_attempts == e.delivery_attempts,
        e@.next_delivery_attempt == e.next_delivery_attempt,
        e@.state == e.state,
{
}

/// What a router stands for is each of its parts.
pub proof fn law_router_view(r: LxmfRouter)
    ensures
        r@.queue.len() == r.pending_outbound@.len(),
        forall|i: int|
            0 <= i < r@.queue.len() ==> #[trigger] r@.queue[i] == r.pending_outbound@[i]@,
        r@.jobs == r.outbound_direct_jobs@,
        r@.costs == r.outbound_stamp_costs.entries@,
        r@.tickets == r.tickets@,
{
}

/// What a cache of tickets stands for is each of its parts.
pub proof fn law_ticket_view(t: TicketCache)
    ensures
        t@.inbound == t.inbound@,
        t@.outbound == t.outbound.entries@,
{
}

/// What a packet, a pass and a request stand for is each of their parts.
pub proof fn law_pass_view(packet: OutboundPacket, pass: OutboundPass, request: NodeRequest)
    ensures
        packet@.data == packet.data@,
        packet@.interface == packet.interface,
        pass@.now == pass.now,
        pass@.cursor == pass.cursor,
        pass@.awaiting == pass.awaiting,
        pass@.events == pass.events@,
        pass@.packets.len() == pass.packets@.len(),
        forall|i: int|
            0 <= i < pass@.packets.len() ==> #[trigger] pass@.packets[i] == pass.packets@[i]@,
        match request {
            NodeRequest::PrepareData { dest_hash, payload } => request@
                == (RequestView::PrepareData { dest_hash, payload: payload@ }),
            NodeRequest::InitiateLink { dest_hash } => request@ == (RequestView::InitiateLink {
                dest_hash,
            }),
            NodeRequest::Done => request@ is Done,
        },
{
}

} // verus!
