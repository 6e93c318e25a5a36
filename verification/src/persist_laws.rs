//! What is written for a restart, and what is read back.

use crate::hash::DestHash;
use crate::message::DeliveryMethod;
use crate::outbound::EntryView;
use crate::persist::StampCost;
use crate::ticket::{TicketEntry, TicketView};
use crate::{bytes, digest, message, msgpack, persist, sending_laws, settlement_laws};
use crate::{storage, ticket};
use vstd::prelude::*;

verus! {

/// Of each entry that has not come to its end the packed message is exported, behind those
/// of the entries before it; of any other entry nothing is.
pub proof fn law_exported_queue(q: Seq<EntryView>, e: EntryView)
    ensures
        persist::exported_queue(q.push(e)) == if e.state is Queued || e.state is Sending {
            persist::exported_queue(q).push(e.message.packed())
        } else {
            persist::exported_queue(q)
        },
        persist::exported_queue(Seq::empty()).len() == 0,
{
    reveal(Seq::filter);
    assert(q.push(e).drop_last() =~= q);
    assert(persist::exported_queue(q.push(e)) =~= if e.state is Queued || e.state is Sending {
        persist::exported_queue(q).push(e.message.packed())
    } else {
        persist::exported_queue(q)
    });
}

/// Packed messages are taken in one after the other. One that is read back joins the queue
/// waiting for its first attempt, to travel in a packet, unless its hash is tracked already;
/// bytes that are no message change nothing.
pub proof fn law_imported_queue(q: Seq<EntryView>, data: Seq<Seq<u8>>, last: Seq<u8>, now: u64)
    ensures
        persist::imported_queue(q, Seq::empty(), now) == q,
        ({
            let before = persist::imported_queue(q, data, now);
            let after = persist::imported_queue(q, data.push(last), now);
            match message::unpacked(last, DeliveryMethod::Opportunistic) {
                Some(m) => after == if settlement_laws::is_tracked(
                    before,
                    digest::sha256_digest(m.packed()),
                ) {
                    before
                } else {
                    before.push(EntryView::fresh(m, now))
                },
                None => after == before,
            }
        }),
{
    assert(data.push(last).drop_last() =~= data);
    if let Some(m) = message::unpacked(last, DeliveryMethod::Opportunistic) {
        sending_laws::law_joining_the_queue(persist::imported_queue(q, data, now), m, now);
        assert(EntryView::fresh(m, now).receipt_hashes =~= Seq::empty());
    }
}

/// A stamp cost is read from an array of three or more: a hash of sixteen bytes or more, of
/// which the first sixteen count, a time, and a cost, which counts modulo 256. A shorter
/// hash gives none, and the reading goes on behind it.
pub proof fn law_stamp_cost_is_read(
    data: Seq<u8>,
    pos: nat,
    parts: nat,
    dest: Seq<u8>,
    time: u64,
    cost: u64,
)
    requires
        3 <= parts <= u32::MAX,
        dest.len() <= u32::MAX,
        msgpack::stands_at(
            data,
            pos,
            msgpack::array_header(parts) + (msgpack::bin_bytes(dest) + (msgpack::uint_bytes(
                time as nat,
            ) + msgpack::uint_bytes(cost as nat))),
        ),
    ensures
        persist::cost_at(data, pos).0 == if dest.len() >= 16 {
            Some((DestHash(bytes::array_of(dest.take(16))), (time, (cost % 256) as u8)))
        } else {
            None
        },
        persist::cost_at(data, pos).1 == pos + (msgpack::array_header(parts) + (
        msgpack::bin_bytes(dest) + (msgpack::uint_bytes(time as nat) + msgpack::uint_bytes(
            cost as nat,
        )))).len(),
{
    let d = msgpack::bin_bytes(dest);
    let t = msgpack::uint_bytes(time as nat);
    let c = msgpack::uint_bytes(cost as nat);
    msgpack::lemma_stands_split(data, pos, msgpack::array_header(parts), d + (t + c));
    msgpack::law_array_header_round_trip(data, pos, parts);
    let p0 = pos + msgpack::array_header(parts).len();
    msgpack::lemma_stands_split(data, p0, d, t + c);
    msgpack::law_bin_round_trip(data, p0, dest);
    let p1 = p0 + d.len();
    msgpack::lemma_stands_split(data, p1, t, c);
    msgpack::law_uint_round_trip(data, p1, time as nat);
    msgpack::law_uint_round_trip(data, p1 + t.len(), cost as nat);
}

/// Stamp costs are written as an array of arrays of three: the destination, the time and the
/// cost, one behind the other.
pub proof fn law_exported_costs(s: Seq<StampCost>, c: StampCost)
    ensures
        persist::exported_costs(s) == msgpack::array_header(s.len()) + persist::costs_bytes(s),
        persist::costs_bytes(Seq::empty()).len() == 0,
        persist::costs_bytes(s.push(c)) == persist::costs_bytes(s) + (msgpack::array_header(3) + (
        msgpack::bin_bytes(c.0.0@) + (msgpack::uint_bytes(c.1.0 as nat) + msgpack::uint_bytes(
            c.1.1 as nat,
        )))),
{
    assert(s.push(c).drop_last() =~= s);
}

/// Stamp costs are read one after the other, each from where the last one ended, and put
/// over what is there; bytes that do not open an array change nothing.
pub proof fn law_imported_costs(s: Seq<StampCost>, data: Seq<u8>, pos: nat, n: nat)
    ensures
        msgpack::array_len_at(data, 0) is None ==> persist::imported_costs(s, data) == s,
        msgpack::array_len_at(data, 0) matches Some((count, start)) ==> persist::imported_costs(
            s,
            data,
        ) == persist::costs_read(data, start, count, s),
        persist::costs_read(data, pos, 0, s) == s,
        persist::costs_read(data, pos, n + 1, s) == persist::costs_read(
            data,
            persist::cost_at(data, pos).1,
            n,
            match persist::cost_at(data, pos).0 {
                Some(c) => storage::put(s, c.0, c.1),
                None => s,
            },
        ),
{
}

proof fn lemma_put_records(t: Seq<(DestHash, TicketEntry)>, s: Seq<(DestHash, TicketEntry)>)
    requires
        storage::distinct_keys(t),
        storage::distinct_keys(s),
    ensures
        storage::distinct_keys(ticket::put_records(t, ticket::records_of(s))),
        forall|dest: DestHash| #[trigger]
            storage::lookup(ticket::put_records(t, ticket::records_of(s)), dest)
                == if storage::has_key(s, dest) {
                storage::lookup(s, dest)
            } else {
                storage::lookup(t, dest)
            },
    decreases s.len(),
{
    let all = ticket::records_of(s);
    if s.len() > 0 {
        let front = s.drop_last();
        let last = s.last();
        let before = ticket::put_records(t, ticket::records_of(front));
        assert(all.drop_last() =~= ticket::records_of(front));
        lemma_put_records(t, front);
        storage::law_put(before, last.0, last.1);
        storage::lemma_key_index(s, last.0, s.len() - 1);
        assert forall|dest: DestHash| #[trigger]
            storage::lookup(ticket::put_records(t, all), dest) == if storage::has_key(s, dest) {
                storage::lookup(s, dest)
            } else {
                storage::lookup(t, dest)
            } by {
            if dest != last.0 {
                if storage::has_key(front, dest) {
                    let i = storage::key_index(front, dest);
                    assert(s[i] == front[i]);
                    storage::lemma_key_index(front, dest, i);
                    storage::lemma_key_index(s, dest, i);
                } else if storage::has_key(s, dest) {
                    let i = storage::key_index(s, dest);
                    assert(front[i] == s[i]);
                }
            }
        }
    } else {
        assert forall|dest: DestHash| !#[trigger] storage::has_key(s, dest) by {}
        assert(all =~= Seq::empty());
    }
}

/// Bytes that do not open an array of two, or in which either list of tickets is malformed,
/// leave the tickets as they are.
pub proof fn law_malformed_tickets(t: TicketView, data: Seq<u8>)
    requires
        match msgpack::array_len_at(data, 0) {
            Some((parts, start)) => parts != 2 || match ticket::list_at(data, start) {
                Some((_, next)) => ticket::list_at(data, next) is None,
                None => true,
            },
            None => true,
        },
    ensures
        t.imported(data) == t,
{
}

/// Tickets that were exported are added to those there: the ones given out behind the
/// earlier ones, the ones received over others from the same destinations.
pub proof fn law_imported_tickets(t: TicketView, s: TicketView)
    requires
        s.inbound.len() <= u32::MAX,
        s.outbound.len() <= u32::MAX,
        storage::distinct_keys(s.outbound),
        storage::distinct_keys(t.outbound),
    ensures
        t.imported(s.exported()).inbound == t.inbound + s.inbound,
        forall|dest: DestHash| #[trigger]
            storage::lookup(t.imported(s.exported()).outbound, dest) == if storage::has_key(
                s.outbound,
                dest,
            ) {
                storage::lookup(s.outbound, dest)
            } else {
                storage::lookup(t.outbound, dest)
            },
{
    ticket::lemma_exported_lists(s);
    lemma_put_records(t.outbound, s.outbound);
}

} // verus!
