//! What of the router outlives a restart: stamp costs, tickets and the queue.

use crate::hash::{DestHash, TRUNCATED_HASH_LEN};
use crate::message::{DeliveryMethod, LXMessage};
use crate::outbound::{EntryView, LxmfRouter, OutboundState, RouterView, STAMP_COST_MAX_AGE};
use crate::storage::DestMap;
use crate::{bytes, message, msgpack, outbound, storage};
use vstd::prelude::*;

verus! {

/// A stamp cost: the destination, when it announced the cost, and the cost.
pub type StampCost = (DestHash, (u64, u8));

/// Picks the stamp costs that are remembered at `now`.
pub open spec fn is_remembered(now: u64) -> spec_fn(StampCost) -> bool {
    |c: StampCost| c.1.0 > now || now - c.1.0 < STAMP_COST_MAX_AGE
}

/// The stamp cost `c`.
pub open spec fn cost_bytes(c: StampCost) -> Seq<u8> {
    msgpack::array_header(3) + (msgpack::bin_bytes(c.0.0@) + (msgpack::uint_bytes(c.1.0 as nat)
        + msgpack::uint_bytes(c.1.1 as nat)))
}

/// The stamp costs `s`, one behind the other.
pub open spec fn costs_bytes(s: Seq<StampCost>) -> Seq<u8>
    decreases s.len(),
{
    if s.len() == 0 {
        Seq::empty()
    } else {
        costs_bytes(s.drop_last()) + cost_bytes(s.last())
    }
}

/// The persisted form of the stamp costs `s`.
pub open spec fn exported_costs(s: Seq<StampCost>) -> Seq<u8> {
    msgpack::array_header(s.len()) + costs_bytes(s)
}

/// The stamp cost that starts at `pos`, where there is one, and how far it was read. A
/// cost counts modulo 256, and of a longer hash the first bytes.
pub open spec fn cost_at(data: Seq<u8>, pos: nat) -> (Option<StampCost>, nat) {
    match msgpack::array_len_at(data, pos) {
        Some((parts, p0)) => if parts < 3 {
            (None, p0)
        } else {
            match msgpack::string_at(data, p0) {
                Some((dest, p1)) => match msgpack::uint_at(data, p1) {
                    Some((time, p2)) => match msgpack::uint_at(data, p2) {
                        Some((cost, p3)) => if dest.len() >= TRUNCATED_HASH_LEN {
                            (
                                Some(
                                    (
                                        DestHash(bytes::array_of(dest.take(16))),
                                        (time as u64, (cost % 256) as u8),
                                    ),
                                ),
                                p3,
                            )
                        } else {
                            (None, p3)
                        },
                        None => (None, p2),
                    },
                    None => (None, p1),
                },
                None => (None, p0),
            }
        },
        None => (None, pos),
    }
}

/// The table `s` with the stamp costs put in that `n` reads from `pos` on give.
pub open spec fn costs_read(data: Seq<u8>, pos: nat, n: nat, s: Seq<StampCost>) -> Seq<StampCost>
    decreases n,
{
    if n == 0 {
        s
    } else {
        let (found, next) = cost_at(data, pos);
        costs_read(
            data,
            next,
            (n - 1) as nat,
            match found {
                Some(c) => storage::put(s, c.0, c.1),
                None => s,
            },
        )
    }
}

/// The table `s` with what the persisted form `data` holds put in.
pub open spec fn imported_costs(s: Seq<StampCost>, data: Seq<u8>) -> Seq<StampCost> {
    match msgpack::array_len_at(data, 0) {
        Some((n, start)) => costs_read(data, start, n, s),
        None => s,
    }
}

/// Picks the entries whose delivery has not come to its end.
pub open spec fn is_pending() -> spec_fn(EntryView) -> bool {
    |e: EntryView| !e.terminal()
}

/// The packed message of an entry.
pub open spec fn packed_message() -> spec_fn(EntryView) -> Seq<u8> {
    |e: EntryView| e.message.packed()
}

/// The persisted form of the queue `q`: the packed messages that still are to be delivered.
pub open spec fn exported_queue(q: Seq<EntryView>) -> Seq<Seq<u8>> {
    q.filter(is_pending()).map_values(packed_message())
}

/// The queue `q` with the packed message `data` in it at `now`, if it is one.
pub open spec fn imported_message(q: Seq<EntryView>, data: Seq<u8>, now: u64) -> Seq<EntryView> {
    match message::unpacked(data, DeliveryMethod::Opportunistic) {
        Some(m) => outbound::enqueued(q, m, now),
        None => q,
    }
}

/// The queue `q` with the packed messages `data` in it at `now`.
pub open spec fn imported_queue(q: Seq<EntryView>, data: Seq<Seq<u8>>, now: u64) -> Seq<EntryView>
    decreases data.len(),
{
    if data.len() == 0 {
        q
    } else {
        imported_message(imported_queue(q, data.drop_last(), now), data.last(), now)
    }
}

/// Reads a stamp cost; `pos` moves as far as it was read.
fn read_cost(data: &[u8], pos: &mut usize) -> (found: Option<StampCost>)
    ensures
        (found, *final(pos) as nat) == cost_at(data@, *old(pos) as nat),
{
    let parts: u64 = match msgpack::read_array_len(data, pos) {
        Ok(parts) => parts,
        Err(_) => return None,
    };
    if parts < 3 {
        return None;
    }
    let dest: Vec<u8> = match msgpack::read_bin_or_str(data, pos) {
        Ok(dest) => dest,
        Err(_) => return None,
    };
    let time: u64 = match msgpack::read_uint(data, pos) {
        Ok(time) => time,
        Err(_) => return None,
    };
    let cost: u64 = match msgpack::read_uint(data, pos) {
        Ok(cost) => cost,
        Err(_) => return None,
    };
    if dest.len() < TRUNCATED_HASH_LEN {
        return None;
    }
    let head = vstd::slice::slice_subrange(dest.as_slice(), 0, TRUNCATED_HASH_LEN);
    assert(head@ =~= dest@.take(16));
    Some((DestHash::from_slice(head), (time, (cost % 256) as u8)))
}

impl LxmfRouter {
    /// Forgets the stamp costs that were announced too long before `now`, and returns how
    /// many they were.
    pub fn prune_stamp_costs(&mut self, now: u64) -> (removed: usize)
        requires
            old(self).wf(),
        ensures
            final(self).wf(),
            final(self)@ == (RouterView {
                costs: old(self)@.costs.filter(is_remembered(now)),
                ..old(self)@
            }),
            removed == old(self)@.costs.len() - final(self)@.costs.len(),
    {
        let ghost p = is_remembered(now);
        let ghost all = self@.costs;
        let before: usize = self.outbound_stamp_costs.len();
        let mut kept: Vec<StampCost> = Vec::new();
        let mut i: usize = 0;
        assert(all.take(0).filter(p) =~= Seq::empty()) by {
            reveal(Seq::filter);
        }
        while i < before
            invariant
                i <= before,
                before == self.outbound_stamp_costs.entries.len(),
                p == is_remembered(now),
                self@ == old(self)@,
                self.wf(),
                all == self@.costs,
                kept@ == all.take(i as int).filter(p),
                kept@.len() <= i,
            decreases before - i,
        {
            let c: StampCost = self.outbound_stamp_costs.entries[i];
            assert(all.take(i + 1).drop_last() =~= all.take(i as int));
            proof {
                reveal(Seq::filter);
            }
            if now.saturating_sub(c.1.0) < STAMP_COST_MAX_AGE {
                assert(p(c));
                kept.push(c);
            } else {
                assert(!p(c));
            }
            i += 1;
        }
        assert(all.take(i as int) =~= all);
        proof {
            storage::lemma_filter_distinct(all, p);
        }
        let after: usize = kept.len();
        let ghost q = self@.queue;
        self.outbound_stamp_costs = DestMap { entries: kept };
        assert(self@.queue =~= q);
        before - after
    }

    /// The persisted form of the stamp costs.
    pub fn export_stamp_costs(&self) -> (data: Vec<u8>)
        requires
            self@.costs.len() <= u32::MAX,
        ensures
            data@ == exported_costs(self@.costs),
    {
        let mut buf: Vec<u8> = Vec::new();
        let ghost s = self@.costs;
        msgpack::write_array_header(&mut buf, self.outbound_stamp_costs.len());
        let ghost start = buf@;
        let mut i: usize = 0;
        assert(start + costs_bytes(s.take(0)) =~= start);
        while i < self.outbound_stamp_costs.entries.len()
            invariant
                i <= self.outbound_stamp_costs.entries.len(),
                s == self@.costs,
                buf@ == start + costs_bytes(s.take(i as int)),
            decreases self.outbound_stamp_costs.entries.len() - i,
        {
            let c: StampCost = self.outbound_stamp_costs.entries[i];
            let ghost done = buf@;
            msgpack::write_array_header(&mut buf, 3);
            msgpack::write_bin(&mut buf, c.0.0.as_slice());
            msgpack::write_uint(&mut buf, c.1.0);
            msgpack::write_uint(&mut buf, c.1.1 as u64);
            assert(buf@ =~= done + cost_bytes(c));
            i += 1;
            assert(s.take(i as int).drop_last() =~= s.take(i - 1));
            assert(buf@ =~= start + costs_bytes(s.take(i as int)));
        }
        assert(s.take(i as int) =~= s);
        assert(buf@ =~= exported_costs(s));
        buf
    }

    /// Puts the stamp costs in the persisted form `data` into the table. What is not one is
    /// passed over.
    pub fn import_stamp_costs(&mut self, data: &[u8])
        requires
            old(self).wf(),
        ensures
            final(self).wf(),
            final(self)@ == (RouterView {
                costs: imported_costs(old(self)@.costs, data@),
                ..old(self)@
            }),
    {
        let mut pos: usize = 0;
        let n: u64 = match msgpack::read_array_len(data, &mut pos) {
            Ok(n) => n,
            Err(_) => return,
        };
        let mut left: u64 = n;
        while left > 0
            invariant
                left <= n,
                self.wf(),
                self@.queue == old(self)@.queue,
                self@.jobs == old(self)@.jobs,
                self@.tickets == old(self)@.tickets,
                imported_costs(old(self)@.costs, data@) == costs_read(
                    data@,
                    pos as nat,
                    left as nat,
                    self@.costs,
                ),
            decreases left,
        {
            let ghost q = self@.queue;
            match read_cost(data, &mut pos) {
                Some(c) => {
                    self.outbound_stamp_costs.insert(c.0, c.1);
                    assert(self@.queue =~= q);
                },
                None => {},
            }
            left -= 1;
        }
    }

    /// The persisted form of the tickets.
    pub fn export_tickets(&self) -> (data: Vec<u8>)
        requires
            self@.tickets.inbound.len() <= u32::MAX,
            self@.tickets.outbound.len() <= u32::MAX,
        ensures
            data@ == self@.tickets.exported(),
    {
        self.tickets.export()
    }

    /// Adds the tickets in the persisted form `data`.
    pub fn import_tickets(&mut self, data: &[u8])
        requires
            old(self).wf(),
        ensures
            final(self).wf(),
            final(self)@ == (RouterView {
                tickets: old(self)@.tickets.imported(data@),
                ..old(self)@
            }),
    {
        let ghost q = self@.queue;
        self.tickets.import(data);
        assert(self@.queue =~= q);
    }

    /// The persisted form of the queue: the packed messages that still are to be delivered.
    pub fn export_outbound_queue(&self) -> (packed: Vec<Vec<u8>>)
        requires
            self.wf(),
        ensures
            packed@.len() == exported_queue(self@.queue).len(),
            bytes::contents(packed@) == exported_queue(self@.queue),
    {
        let ghost q = self@.queue;
        let ghost p = is_pending();
        let mut packed: Vec<Vec<u8>> = Vec::new();
        let mut i: usize = 0;
        assert(exported_queue(q.take(0)) =~= Seq::empty()) by {
            reveal(Seq::filter);
        }
        while i < self.pending_outbound.len()
            invariant
                i <= self.pending_outbound.len(),
                self.wf(),
                q == self@.queue,
                p == is_pending(),
                bytes::contents(packed@) == exported_queue(q.take(i as int)),
            decreases self.pending_outbound.len() - i,
        {
            let ghost e = q[i as int];
            let ghost done = q.take(i as int);
            let ghost before = packed@;
            assert(e == self.pending_outbound@[i as int]@);
            assert(q.take(i + 1).drop_last() =~= done);
            proof {
                reveal(Seq::filter);
            }
            let state = self.pending_outbound[i].state;
            if state != OutboundState::Delivered && state != OutboundState::Failed {
                packed.push(self.pending_outbound[i].message.pack());
                assert(p(e));
                assert(q.take(i + 1).filter(p) == done.filter(p).push(e));
                assert(done.filter(p).push(e).map_values(packed_message()) =~= exported_queue(
                    done,
                ).push(e.message.packed()));
                assert(bytes::contents(packed@) =~= bytes::contents(before).push(
                    e.message.packed(),
                ));
            } else {
                assert(!p(e));
            }
            i += 1;
        }
        assert(q.take(i as int) =~= q);
        packed
    }

    /// Puts the packed messages `entries` into the queue at `now`. What is no packed
    /// message is passed over, and so is a message that is tracked already.
    pub fn import_outbound_queue(&mut self, entries: &[Vec<u8>], now: u64)
        requires
            old(self).wf(),
        ensures
            final(self).wf(),
            final(self)@ == (RouterView {
                queue: imported_queue(old(self)@.queue, bytes::contents(entries@), now),
                ..old(self)@
            }),
    {
        let ghost all = bytes::contents(entries@);
        let mut i: usize = 0;
        while i < entries.len()
            invariant
                i <= entries.len(),
                self.wf(),
                all == bytes::contents(entries@),
                self@ == (RouterView {
                    queue: imported_queue(old(self)@.queue, all.take(i as int), now),
                    ..old(self)@
                }),
            decreases entries.len() - i,
        {
            assert(all.take(i + 1).drop_last() =~= all.take(i as int));
            assert(all.take(i + 1).last() == entries@[i as int]@);
            match LXMessage::unpack(entries[i].as_slice(), None) {
                Ok(m) => {
                    self.enqueue(m, now);
                },
                Err(_) => {},
            }
            i += 1;
        }
        assert(all.take(i as int) =~= all);
    }
}

/// The table `t` with the stamp costs of `s` put in, one after the other.
pub open spec fn with_costs(t: Seq<StampCost>, s: Seq<StampCost>) -> Seq<StampCost>
    decreases s.len(),
{
    if s.len() == 0 {
        t
    } else {
        storage::put(with_costs(t, s.drop_last()), s.last().0, s.last().1)
    }
}

proof fn lemma_with_costs_first(t: Seq<StampCost>, s: Seq<StampCost>)
    requires
        s.len() > 0,
    ensures
        with_costs(t, s) == with_costs(storage::put(t, s[0].0, s[0].1), s.drop_first()),
    decreases s.len(),
{
    if s.len() == 1 {
        assert(s.drop_last() =~= Seq::empty());
        assert(s.drop_first() =~= Seq::empty());
        assert(with_costs(t, s.drop_last()) == t);
    } else {
        lemma_with_costs_first(t, s.drop_last());
        assert(s.drop_last().drop_first() =~= s.drop_first().drop_last());
    }
}

proof fn lemma_costs_first(s: Seq<StampCost>)
    requires
        s.len() > 0,
    ensures
        costs_bytes(s) == cost_bytes(s[0]) + costs_bytes(s.drop_first()),
    decreases s.len(),
{
    if s.len() == 1 {
        assert(s.drop_last() =~= Seq::empty());
        assert(s.drop_first() =~= Seq::empty());
        assert(costs_bytes(s) =~= cost_bytes(s[0]) + costs_bytes(s.drop_first()));
    } else {
        lemma_costs_first(s.drop_last());
        assert(s.drop_last().drop_first() =~= s.drop_first().drop_last());
        assert(costs_bytes(s) =~= cost_bytes(s[0]) + costs_bytes(s.drop_first()));
    }
}

proof fn lemma_cost_round_trip(data: Seq<u8>, pos: nat, c: StampCost)
    requires
        msgpack::stands_at(data, pos, cost_bytes(c)),
    ensures
        cost_at(data, pos) == (Some(c), pos + cost_bytes(c).len()),
{
    let dest = msgpack::bin_bytes(c.0.0@);
    let time = msgpack::uint_bytes(c.1.0 as nat);
    let cost = msgpack::uint_bytes(c.1.1 as nat);
    msgpack::lemma_stands_split(data, pos, msgpack::array_header(3), dest + (time + cost));
    msgpack::law_array_header_round_trip(data, pos, 3);
    let p0 = pos + msgpack::array_header(3).len();
    msgpack::lemma_stands_split(data, p0, dest, time + cost);
    msgpack::law_bin_round_trip(data, p0, c.0.0@);
    let p1 = p0 + dest.len();
    msgpack::lemma_stands_split(data, p1, time, cost);
    msgpack::law_uint_round_trip(data, p1, c.1.0 as nat);
    msgpack::law_uint_round_trip(data, p1 + time.len(), c.1.1 as nat);
    assert(c.0.0@.take(16) =~= c.0.0@);
    bytes::lemma_array_of(c.0.0);
}

proof fn lemma_costs_read(data: Seq<u8>, pos: nat, s: Seq<StampCost>, t: Seq<StampCost>)
    requires
        msgpack::stands_at(data, pos, costs_bytes(s)),
    ensures
        costs_read(data, pos, s.len(), t) == with_costs(t, s),
    decreases s.len(),
{
    if s.len() > 0 {
        let rest = s.drop_first();
        lemma_costs_first(s);
        lemma_with_costs_first(t, s);
        msgpack::lemma_stands_split(data, pos, cost_bytes(s[0]), costs_bytes(rest));
        lemma_cost_round_trip(data, pos, s[0]);
        lemma_costs_read(
            data,
            pos + cost_bytes(s[0]).len(),
            rest,
            storage::put(t, s[0].0, s[0].1),
        );
    }
}

proof fn lemma_with_costs(t: Seq<StampCost>, s: Seq<StampCost>)
    requires
        storage::distinct_keys(t),
        storage::distinct_keys(s),
    ensures
        storage::distinct_keys(with_costs(t, s)),
        forall|dest: DestHash| #[trigger]
            storage::lookup(with_costs(t, s), dest) == if storage::has_key(s, dest) {
                storage::lookup(s, dest)
            } else {
                storage::lookup(t, dest)
            },
        t.len() == 0 ==> with_costs(t, s) == s,
    decreases s.len(),
{
    if s.len() > 0 {
        let front = s.drop_last();
        let before = with_costs(t, front);
        let last = s.last();
        lemma_with_costs(t, front);
        storage::law_put(before, last.0, last.1);
        storage::lemma_key_index(s, last.0, s.len() - 1);
        assert(!storage::has_key(front, last.0)) by {
            if storage::has_key(front, last.0) {
                let i = storage::key_index(front, last.0);
                assert(storage::key_stands_at(front, last.0, i));
                assert(s[i].0 == s[s.len() - 1].0);
            }
        }
        assert forall|dest: DestHash| #[trigger]
            storage::lookup(with_costs(t, s), dest) == if storage::has_key(s, dest) {
                storage::lookup(s, dest)
            } else {
                storage::lookup(t, dest)
            } by {
            if dest != last.0 {
                assert(storage::lookup(with_costs(t, s), dest) == storage::lookup(before, dest));
                if storage::has_key(front, dest) {
                    let i = storage::key_index(front, dest);
                    assert(storage::key_stands_at(front, dest, i));
                    assert(s[i] == front[i]);
                    storage::lemma_key_index(front, dest, i);
                    storage::lemma_key_index(s, dest, i);
                } else if storage::has_key(s, dest) {
                    let i = storage::key_index(s, dest);
                    assert(storage::key_stands_at(s, dest, i));
                    assert(storage::key_stands_at(front, dest, i));
                }
            }
        }
        if t.len() == 0 {
            assert(front.push(last) =~= s);
        }
    } else if t.len() == 0 {
        assert(t =~= s);
    } else {
        assert forall|dest: DestHash| !#[trigger] storage::has_key(s, dest) by {
            if storage::has_key(s, dest) {
                assert(storage::key_stands_at(s, dest, storage::key_index(s, dest)));
            }
        }
    }
}

/// Stamp costs that were exported are all there once imported, over any others for the same
/// destinations; what other destinations had stays. A router that starts empty has
/// exactly what was exported.
pub proof fn law_stamp_costs_round_trip(t: Seq<StampCost>, s: Seq<StampCost>)
    requires
        storage::distinct_keys(t),
        storage::distinct_keys(s),
        s.len() <= u32::MAX,
    ensures
        forall|dest: DestHash| #[trigger]
            storage::lookup(imported_costs(t, exported_costs(s)), dest) == if storage::has_key(
                s,
                dest,
            ) {
                storage::lookup(s, dest)
            } else {
                storage::lookup(t, dest)
            },
        t.len() == 0 ==> imported_costs(t, exported_costs(s)) == s,
{
    let data = exported_costs(s);
    assert(data.subrange(0, data.len() as int) =~= data);
    msgpack::lemma_stands_last(data, 0, data);
    msgpack::lemma_stands_split(data, 0, msgpack::array_header(s.len()), costs_bytes(s));
    msgpack::law_array_header_round_trip(data, 0, s.len());
    lemma_costs_read(data, msgpack::array_header(s.len()).len(), s, t);
    lemma_with_costs(t, s);
}

/// Pruning drops exactly the stamp costs that are too old, and pruning again at the same time
/// drops nothing more.
pub proof fn law_pruned_costs(s: Seq<StampCost>, now: u64)
    ensures
        forall|c: StampCost| #[trigger]
            s.filter(is_remembered(now)).contains(c) <==> s.contains(c) && now - c.1.0
                < STAMP_COST_MAX_AGE,
        s.filter(is_remembered(now)).filter(is_remembered(now)) == s.filter(is_remembered(now)),
{
    let p = is_remembered(now);
    assert forall|c: StampCost| #[trigger]
        s.filter(p).contains(c) <==> s.contains(c) && now - c.1.0 < STAMP_COST_MAX_AGE by {
        if s.filter(p).contains(c) {
            s.lemma_filter_contains_rev(p, c);
            s.lemma_filter_pred(p, s.filter(p).index_of(c));
            assert(p(c));
        }
        if s.contains(c) && now - c.1.0 < STAMP_COST_MAX_AGE {
            let i = s.index_of(c);
            assert(p(s[i]));
            s.lemma_filter_contains(p, i);
        }
    }
    assert forall|i: int| 0 <= i < s.filter(p).len() implies p(#[trigger] s.filter(p)[i]) by {
        s.lemma_filter_pred(p, i);
    }
    lemma_filter_all(s.filter(p), p);
}

proof fn lemma_filter_all(s: Seq<StampCost>, p: spec_fn(StampCost) -> bool)
    requires
        forall|i: int| 0 <= i < s.len() ==> p(#[trigger] s[i]),
    ensures
        s.filter(p) == s,
    decreases s.len(),
{
    reveal(Seq::filter);
    if s.len() > 0 {
        let front = s.drop_last();
        assert forall|i: int| 0 <= i < front.len() implies p(#[trigger] front[i]) by {
            assert(front[i] == s[i]);
        }
        lemma_filter_all(front, p);
        assert(p(s[s.len() - 1]));
        assert(front.push(s.last()) =~= s);
    } else {
        assert(s.filter(p) =~= s);
    }
}

} // verus!
