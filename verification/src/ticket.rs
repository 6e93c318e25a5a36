//! Tickets: the ones given out to others, who may reply without work, and the ones
//! received from others.
//!
//! How long a ticket stays good and the form that tickets are kept in are this library's
//! own definitions.

use crate::hash::DestHash;
use crate::storage::DestMap;
use crate::{bytes, msgpack, storage};
use vstd::prelude::*;

verus! {

/// Seconds for which a ticket that is given out stays good.
pub const TICKET_EXPIRY: u64 = 1_814_400;

/// A ticket and the time from which it is no longer good.
#[derive(Clone, Copy, Debug)]
pub struct TicketEntry {
    pub expires: u64,
    pub ticket: [u8; 2],
}

/// A ticket of one destination.
#[derive(Clone, Copy, Debug)]
pub struct TicketRecord {
    pub dest_hash: DestHash,
    pub entry: TicketEntry,
}

/// What a cache of tickets holds: those given out, in the order in which they were, and
/// the last one received from each destination.
#[verifier::ext_equal]
pub struct TicketView {
    pub inbound: Seq<TicketRecord>,
    pub outbound: Seq<(DestHash, TicketEntry)>,
}

/// Whether `r` was given to `dest` and is good at `now`.
pub open spec fn good_for(dest: DestHash, now: u64) -> spec_fn(TicketRecord) -> bool {
    |r: TicketRecord| r.dest_hash == dest && now < r.entry.expires
}

/// The ticket of a record.
pub open spec fn record_ticket() -> spec_fn(TicketRecord) -> [u8; 2] {
    |r: TicketRecord| r.entry.ticket
}

impl TicketView {
    /// The tickets given to `dest` that are good at `now`.
    pub open spec fn inbound_tickets(self, dest: DestHash, now: u64) -> Seq<[u8; 2]> {
        self.inbound.filter(good_for(dest, now)).map_values(record_ticket())
    }

    /// The ticket received from `dest`, where it is good at `now`.
    pub open spec fn outbound_ticket(self, dest: DestHash, now: u64) -> Option<[u8; 2]> {
        match storage::lookup(self.outbound, dest) {
            Some(entry) => if now < entry.expires {
                Some(entry.ticket)
            } else {
                None
            },
            None => None,
        }
    }

    /// With `entry` given out to `dest`.
    pub open spec fn issue(self, dest: DestHash, entry: TicketEntry) -> TicketView {
        TicketView {
            inbound: self.inbound.push(TicketRecord { dest_hash: dest, entry }),
            ..self
        }
    }

    /// The records of the tickets received.
    pub open spec fn outbound_records(self) -> Seq<TicketRecord> {
        records_of(self.outbound)
    }

    /// The persisted form: the tickets given out, then the tickets received.
    pub open spec fn exported(self) -> Seq<u8> {
        msgpack::array_header(2) + (list_bytes(self.inbound) + list_bytes(self.outbound_records()))
    }

    /// With the records of `lists` added: the first list to the tickets given out, the
    /// second to the tickets received.
    pub open spec fn merge(self, lists: (Seq<TicketRecord>, Seq<TicketRecord>)) -> TicketView {
        TicketView {
            inbound: self.inbound + lists.0,
            outbound: put_records(self.outbound, lists.1),
        }
    }

    /// With what the persisted form `data` holds added; without change where it is malformed.
    pub open spec fn imported(self, data: Seq<u8>) -> TicketView {
        match lists_of(data) {
            Some(lists) => self.merge(lists),
            None => self,
        }
    }
}

/// The entries of `s` as records.
pub open spec fn records_of(s: Seq<(DestHash, TicketEntry)>) -> Seq<TicketRecord> {
    Seq::new(s.len(), |i: int| TicketRecord { dest_hash: s[i].0, entry: s[i].1 })
}

/// `s` with the records put in, one after the other.
pub open spec fn put_records(
    s: Seq<(DestHash, TicketEntry)>,
    records: Seq<TicketRecord>,
) -> Seq<(DestHash, TicketEntry)>
    decreases records.len(),
{
    if records.len() == 0 {
        s
    } else {
        let last = records.last();
        storage::put(put_records(s, records.drop_last()), last.dest_hash, last.entry)
    }
}

/// The record `r`.
pub open spec fn record_bytes(r: TicketRecord) -> Seq<u8> {
    msgpack::array_header(3) + (msgpack::bin_bytes(r.dest_hash.0@) + (msgpack::uint_bytes(
        r.entry.expires as nat,
    ) + msgpack::bin_bytes(r.entry.ticket@)))
}

/// The records `s`, one behind the other.
pub open spec fn records_bytes(s: Seq<TicketRecord>) -> Seq<u8>
    decreases s.len(),
{
    if s.len() == 0 {
        Seq::empty()
    } else {
        records_bytes(s.drop_last()) + record_bytes(s.last())
    }
}

/// The records `s` as an array.
pub open spec fn list_bytes(s: Seq<TicketRecord>) -> Seq<u8> {
    msgpack::array_header(s.len()) + records_bytes(s)
}

/// The record that starts at `pos`, and where it ends.
pub open spec fn record_at(data: Seq<u8>, pos: nat) -> Option<(TicketRecord, nat)> {
    match msgpack::array_len_at(data, pos) {
        Some((parts, p0)) => match msgpack::string_at(data, p0) {
            Some((dest, p1)) => match msgpack::uint_at(data, p1) {
                Some((expires, p2)) => match msgpack::string_at(data, p2) {
                    Some((ticket, end)) => if parts == 3 && dest.len() == 16 && ticket.len() == 2 {
                        Some(
                            (
                                TicketRecord {
                                    dest_hash: DestHash(bytes::array_of(dest)),
                                    entry: TicketEntry {
                                        expires: expires as u64,
                                        ticket: bytes::array_of(ticket),
                                    },
                                },
                                end,
                            ),
                        )
                    } else {
                        None
                    },
                    None => None,
                },
                None => None,
            },
            None => None,
        },
        None => None,
    }
}

/// The `n` records from `pos` on behind those in `found`, and where they end.
pub open spec fn records_at(
    data: Seq<u8>,
    pos: nat,
    n: nat,
    found: Seq<TicketRecord>,
) -> Option<(Seq<TicketRecord>, nat)>
    decreases n,
{
    if n == 0 {
        Some((found, pos))
    } else {
        match record_at(data, pos) {
            Some((r, next)) => records_at(data, next, (n - 1) as nat, found.push(r)),
            None => None,
        }
    }
}

/// The array of records that starts at `pos`, and where it ends.
pub open spec fn list_at(data: Seq<u8>, pos: nat) -> Option<(Seq<TicketRecord>, nat)> {
    match msgpack::array_len_at(data, pos) {
        Some((n, start)) => records_at(data, start, n, Seq::empty()),
        None => None,
    }
}

/// The two lists of records in the persisted form `data`.
pub open spec fn lists_of(data: Seq<u8>) -> Option<(Seq<TicketRecord>, Seq<TicketRecord>)> {
    match msgpack::array_len_at(data, 0) {
        Some((parts, p0)) => match list_at(data, p0) {
            Some((inbound, p1)) => match list_at(data, p1) {
                Some((outbound, _)) => if parts == 2 {
                    Some((inbound, outbound))
                } else {
                    None
                },
                None => None,
            },
            None => None,
        },
        None => None,
    }
}

proof fn lemma_record_round_trip(data: Seq<u8>, pos: nat, r: TicketRecord)
    requires
        msgpack::stands_at(data, pos, record_bytes(r)),
    ensures
        record_at(data, pos) == Some((r, pos + record_bytes(r).len())),
{
    let dest = msgpack::bin_bytes(r.dest_hash.0@);
    let expires = msgpack::uint_bytes(r.entry.expires as nat);
    let ticket = msgpack::bin_bytes(r.entry.ticket@);
    msgpack::lemma_stands_split(data, pos, msgpack::array_header(3), dest + (expires + ticket));
    msgpack::law_array_header_round_trip(data, pos, 3);
    let p0 = pos + msgpack::array_header(3).len();
    msgpack::lemma_stands_split(data, p0, dest, expires + ticket);
    msgpack::law_bin_round_trip(data, p0, r.dest_hash.0@);
    let p1 = p0 + dest.len();
    msgpack::lemma_stands_split(data, p1, expires, ticket);
    msgpack::law_uint_round_trip(data, p1, r.entry.expires as nat);
    msgpack::law_bin_round_trip(data, p1 + expires.len(), r.entry.ticket@);
    bytes::lemma_array_of(r.dest_hash.0);
    bytes::lemma_array_of(r.entry.ticket);
}

proof fn lemma_records_first(s: Seq<TicketRecord>)
    requires
        s.len() > 0,
    ensures
        records_bytes(s) == record_bytes(s[0]) + records_bytes(s.drop_first()),
    decreases s.len(),
{
    if s.len() == 1 {
        assert(s.drop_last() =~= Seq::empty());
        assert(s.drop_first() =~= Seq::empty());
        assert(records_bytes(s) =~= record_bytes(s[0]) + records_bytes(s.drop_first()));
    } else {
        lemma_records_first(s.drop_last());
        assert(s.drop_last().drop_first() =~= s.drop_first().drop_last());
        assert(records_bytes(s) =~= record_bytes(s[0]) + records_bytes(s.drop_first()));
    }
}

proof fn lemma_records_round_trip(
    data: Seq<u8>,
    pos: nat,
    s: Seq<TicketRecord>,
    found: Seq<TicketRecord>,
)
    requires
        msgpack::stands_at(data, pos, records_bytes(s)),
    ensures
        records_at(data, pos, s.len(), found) == Some((found + s, pos + records_bytes(s).len())),
    decreases s.len(),
{
    if s.len() == 0 {
        assert(found + s =~= found);
    } else {
        let rest = s.drop_first();
        lemma_records_first(s);
        msgpack::lemma_stands_split(data, pos, record_bytes(s[0]), records_bytes(rest));
        lemma_record_round_trip(data, pos, s[0]);
        assert(found.push(s[0]) + rest =~= found + s);
        lemma_records_round_trip(data, pos + record_bytes(s[0]).len(), rest, found.push(s[0]));
    }
}

proof fn lemma_list_round_trip(data: Seq<u8>, pos: nat, s: Seq<TicketRecord>)
    requires
        s.len() <= u32::MAX,
        msgpack::stands_at(data, pos, list_bytes(s)),
    ensures
        list_at(data, pos) == Some((s, pos + list_bytes(s).len())),
{
    msgpack::lemma_stands_split(data, pos, msgpack::array_header(s.len()), records_bytes(s));
    msgpack::law_array_header_round_trip(data, pos, s.len());
    let none = Seq::<TicketRecord>::empty();
    lemma_records_round_trip(data, pos + msgpack::array_header(s.len()).len(), s, none);
    assert(none + s =~= s);
}

proof fn lemma_put_own_records(s: Seq<(DestHash, TicketEntry)>)
    requires
        storage::distinct_keys(s),
    ensures
        put_records(Seq::empty(), records_of(s)) == s,
    decreases s.len(),
{
    if s.len() > 0 {
        let rest = s.drop_last();
        assert(storage::distinct_keys(rest));
        lemma_put_own_records(rest);
        assert(records_of(s).drop_last() =~= records_of(rest));
        if storage::has_key(rest, s.last().0) {
            let i = choose|i: int| storage::key_stands_at(rest, s.last().0, i);
            assert(s[i].0 == s[s.len() - 1].0);
        }
        assert(rest.push(s.last()) =~= s);
    } else {
        assert(records_of(s) =~= Seq::empty());
        assert(s =~= Seq::empty());
    }
}

/// The two lists of tickets are read back from their persisted form.
pub proof fn lemma_exported_lists(t: TicketView)
    requires
        t.inbound.len() <= u32::MAX,
        t.outbound.len() <= u32::MAX,
    ensures
        lists_of(t.exported()) == Some((t.inbound, t.outbound_records())),
{
    let data = t.exported();
    let inbound = list_bytes(t.inbound);
    let outbound = list_bytes(t.outbound_records());
    assert(data.subrange(0, data.len() as int) =~= data);
    msgpack::lemma_stands_last(data, 0, data);
    msgpack::lemma_stands_split(data, 0, msgpack::array_header(2), inbound + outbound);
    msgpack::law_array_header_round_trip(data, 0, 2);
    let p0 = msgpack::array_header(2).len();
    msgpack::lemma_stands_split(data, p0, inbound, outbound);
    lemma_list_round_trip(data, p0, t.inbound);
    lemma_list_round_trip(data, p0 + inbound.len(), t.outbound_records());
}

/// Tickets that were exported are all there again once they have been imported into an
/// empty cache.
pub proof fn law_ticket_round_trip(t: TicketView, empty: TicketView)
    requires
        t.inbound.len() <= u32::MAX,
        t.outbound.len() <= u32::MAX,
        storage::distinct_keys(t.outbound),
        empty.inbound.len() == 0,
        empty.outbound.len() == 0,
    ensures
        empty.imported(t.exported()) == t,
{
    lemma_exported_lists(t);
    lemma_put_own_records(t.outbound);
    assert(empty.outbound =~= Seq::empty());
    assert(empty.inbound + t.inbound =~= t.inbound);
}

/// A cache of tickets.
pub struct TicketCache {
    /// Tickets given out, which others may show.
    pub inbound: Vec<TicketRecord>,
    /// Tickets received, to be shown to others.
    pub outbound: DestMap<TicketEntry>,
}

impl View for TicketCache {
    type V = TicketView;

    open spec fn view(&self) -> TicketView {
        TicketView { inbound: self.inbound@, outbound: self.outbound@ }
    }
}

/// Appends the record `r`.
fn write_record(buf: &mut Vec<u8>, r: &TicketRecord)
    ensures
        final(buf)@ == old(buf)@ + record_bytes(*r),
{
    msgpack::write_array_header(buf, 3);
    msgpack::write_bin(buf, r.dest_hash.0.as_slice());
    msgpack::write_uint(buf, r.entry.expires);
    msgpack::write_bin(buf, r.entry.ticket.as_slice());
    assert(buf@ =~= old(buf)@ + record_bytes(*r));
}

/// Reads a record; `pos` moves past it.
fn read_record(data: &[u8], pos: &mut usize) -> (record: Option<TicketRecord>)
    ensures
        match record {
            Some(r) => record_at(data@, *old(pos) as nat) == Some((r, *final(pos) as nat)),
            None => record_at(data@, *old(pos) as nat) is None,
        },
{
    let parts: u64 = match msgpack::read_array_len(data, pos) {
        Ok(parts) => parts,
        Err(_) => return None,
    };
    let dest: Vec<u8> = match msgpack::read_bin_or_str(data, pos) {
        Ok(dest) => dest,
        Err(_) => return None,
    };
    let expires: u64 = match msgpack::read_uint(data, pos) {
        Ok(expires) => expires,
        Err(_) => return None,
    };
    let ticket: Vec<u8> = match msgpack::read_bin_or_str(data, pos) {
        Ok(ticket) => ticket,
        Err(_) => return None,
    };
    if parts != 3 || dest.len() != 16 || ticket.len() != 2 {
        return None;
    }
    Some(
        TicketRecord {
            dest_hash: DestHash::from_slice(dest.as_slice()),
            entry: TicketEntry { expires, ticket: bytes::to_array(ticket.as_slice()) },
        },
    )
}

/// Reads an array of records; `pos` moves past it.
fn read_list(data: &[u8], pos: &mut usize) -> (list: Option<Vec<TicketRecord>>)
    ensures
        match list {
            Some(s) => list_at(data@, *old(pos) as nat) == Some((s@, *final(pos) as nat)),
            None => list_at(data@, *old(pos) as nat) is None,
        },
{
    let n: u64 = match msgpack::read_array_len(data, pos) {
        Ok(n) => n,
        Err(_) => return None,
    };
    let mut list: Vec<TicketRecord> = Vec::new();
    let mut left: u64 = n;
    while left > 0
        invariant
            left <= n,
            list_at(data@, *old(pos) as nat) == records_at(
                data@,
                *pos as nat,
                left as nat,
                list@,
            ),
        decreases left,
    {
        match read_record(data, pos) {
            Some(r) => list.push(r),
            None => return None,
        }
        left -= 1;
    }
    Some(list)
}

impl TicketCache {
    /// No destination has two tickets received.
    pub open spec fn wf(&self) -> bool {
        self.outbound.wf()
    }

    /// An empty cache.
    pub fn new() -> (cache: Self)
        ensures
            cache.wf(),
            cache@.inbound.len() == 0,
            cache@.outbound.len() == 0,
    {
        TicketCache { inbound: Vec::new(), outbound: DestMap::new() }
    }

    /// Gives `ticket` out to `dest` at `now`.
    pub fn generate_ticket(&mut self, dest: DestHash, ticket: [u8; 2], now: u64) -> (entry:
        TicketEntry)
        requires
            old(self).wf(),
        ensures
            final(self).wf(),
            entry == issued_ticket(ticket, now),
            final(self)@ == old(self)@.issue(dest, entry),
    {
        let entry = TicketEntry { expires: now.saturating_add(TICKET_EXPIRY), ticket };
        self.inbound.push(TicketRecord { dest_hash: dest, entry });
        entry
    }

    /// Remembers a ticket that was given out to `dest`.
    pub fn store_inbound(&mut self, dest: DestHash, ticket: [u8; 2], expires: u64)
        requires
            old(self).wf(),
        ensures
            final(self).wf(),
            final(self)@ == old(self)@.issue(dest, TicketEntry { expires, ticket }),
    {
        self.inbound.push(TicketRecord { dest_hash: dest, entry: TicketEntry { expires, ticket } });
    }

    /// Remembers a ticket that was received from `dest`, in the place of an earlier one.
    pub fn store_outbound(&mut self, dest: DestHash, ticket: [u8; 2], expires: u64)
        requires
            old(self).wf(),
        ensures
            final(self).wf(),
            final(self)@ == (TicketView {
                outbound: storage::put(old(self)@.outbound, dest, TicketEntry { expires, ticket }),
                ..old(self)@
            }),
    {
        self.outbound.insert(dest, TicketEntry { expires, ticket });
    }

    /// The tickets given to `dest` that are good at `now`.
    pub fn get_inbound_tickets(&self, dest: &DestHash, now: u64) -> (tickets: Vec<[u8; 2]>)
        ensures
            tickets@ == self@.inbound_tickets(*dest, now),
    {
        let mut tickets: Vec<[u8; 2]> = Vec::new();
        let mut i: usize = 0;
        let ghost good = good_for(*dest, now);
        assert(self.inbound@.take(0).filter(good) =~= Seq::empty()) by {
            reveal(Seq::filter);
        }
        assert(Seq::<TicketRecord>::empty().map_values(record_ticket()) =~= Seq::empty());
        while i < self.inbound.len()
            invariant
                i <= self.inbound.len(),
                good == good_for(*dest, now),
                tickets@ == self.inbound@.take(i as int).filter(good).map_values(record_ticket()),
            decreases self.inbound.len() - i,
        {
            let r: TicketRecord = self.inbound[i];
            proof {
                let done = self.inbound@.take(i as int);
                let more = self.inbound@.take(i + 1);
                assert(more.drop_last() =~= done);
                reveal(Seq::filter);
                assert(done.filter(good).push(r).map_values(record_ticket()) =~= done.filter(
                    good,
                ).map_values(record_ticket()).push(r.entry.ticket));
            }
            if r.dest_hash == *dest && now < r.entry.expires {
                tickets.push(r.entry.ticket);
            }
            i += 1;
        }
        assert(self.inbound@.take(i as int) =~= self.inbound@);
        tickets
    }

    /// The ticket received from `dest`, where it is good at `now`.
    pub fn get_outbound_ticket(&self, dest: &DestHash, now: u64) -> (ticket: Option<[u8; 2]>)
        requires
            self.wf(),
        ensures
            ticket == self@.outbound_ticket(*dest, now),
    {
        match self.outbound.get(dest) {
            Some(entry) => {
                if now < entry.expires {
                    Some(entry.ticket)
                } else {
                    None
                }
            },
            None => None,
        }
    }

    /// The persisted form of the cache.
    pub fn export(&self) -> (data: Vec<u8>)
        requires
            self@.inbound.len() <= u32::MAX,
            self@.outbound.len() <= u32::MAX,
        ensures
            data@ == self@.exported(),
    {
        let mut buf: Vec<u8> = Vec::new();
        msgpack::write_array_header(&mut buf, 2);
        msgpack::write_array_header(&mut buf, self.inbound.len());
        let ghost start = buf@;
        let mut i: usize = 0;
        assert(start + records_bytes(self.inbound@.take(0)) =~= start);
        while i < self.inbound.len()
            invariant
                i <= self.inbound.len(),
                buf@ == start + records_bytes(self.inbound@.take(i as int)),
            decreases self.inbound.len() - i,
        {
            let ghost done = self.inbound@.take(i as int);
            write_record(&mut buf, &self.inbound[i]);
            i += 1;
            assert(self.inbound@.take(i as int).drop_last() =~= done);
            assert(buf@ =~= start + records_bytes(self.inbound@.take(i as int)));
        }
        assert(self.inbound@.take(i as int) =~= self.inbound@);
        msgpack::write_array_header(&mut buf, self.outbound.len());
        let ghost middle = buf@;
        let ghost records = self@.outbound_records();
        let mut j: usize = 0;
        assert(middle + records_bytes(records.take(0)) =~= middle);
        while j < self.outbound.entries.len()
            invariant
                j <= self.outbound.entries.len(),
                records == self@.outbound_records(),
                buf@ == middle + records_bytes(records.take(j as int)),
            decreases self.outbound.entries.len() - j,
        {
            let ghost done = records.take(j as int);
            let r = TicketRecord {
                dest_hash: self.outbound.entries[j].0,
                entry: self.outbound.entries[j].1,
            };
            write_record(&mut buf, &r);
            j += 1;
            assert(records.take(j as int).drop_last() =~= done);
            assert(buf@ =~= middle + records_bytes(records.take(j as int)));
        }
        assert(records.take(j as int) =~= records);
        assert(buf@ =~= self@.exported());
        buf
    }

    /// Adds what the persisted form `data` holds; changes nothing where it is malformed.
    pub fn import(&mut self, data: &[u8])
        requires
            old(self).wf(),
        ensures
            final(self).wf(),
            final(self)@ == old(self)@.imported(data@),
    {
        let mut pos: usize = 0;
        let parts: u64 = match msgpack::read_array_len(data, &mut pos) {
            Ok(parts) => parts,
            Err(_) => return,
        };
        let mut inbound: Vec<TicketRecord> = match read_list(data, &mut pos) {
            Some(list) => list,
            None => return,
        };
        let outbound: Vec<TicketRecord> = match read_list(data, &mut pos) {
            Some(list) => list,
            None => return,
        };
        if parts != 2 {
            return;
        }
        let ghost given = inbound@;
        self.inbound.append(&mut inbound);
        let mut i: usize = 0;
        while i < outbound.len()
            invariant
                i <= outbound.len(),
                self.wf(),
                self.inbound@ == old(self).inbound@ + given,
                self.outbound@ == put_records(old(self).outbound@, outbound@.take(i as int)),
            decreases outbound.len() - i,
        {
            let ghost done = outbound@.take(i as int);
            self.outbound.insert(outbound[i].dest_hash, outbound[i].entry);
            i += 1;
            assert(outbound@.take(i as int).drop_last() =~= done);
        }
        assert(outbound@.take(i as int) =~= outbound@);
    }
}

/// What is given out when `ticket` is issued at `now`.
pub open spec fn issued_ticket(ticket: [u8; 2], now: u64) -> TicketEntry {
    TicketEntry {
        expires: if now + TICKET_EXPIRY > u64::MAX {
            u64::MAX
        } else {
            (now + TICKET_EXPIRY) as u64
        },
        ticket,
    }
}

} // verus!
