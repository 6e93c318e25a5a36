//! Stamps: what a sender shows to be let through, either a ticket that the
//! destination gave out or work done on the message.
//!
//! Both kinds are this library's own definitions: the digest of ticket and message, and the
//! first number whose digest with the message opens with as many zero bits as the cost says.

use crate::{bytes, digest, msgpack};
use vstd::prelude::*;

verus! {

/// The stamp that `ticket` gives the message named `message_id`.
pub open spec fn stamp_of_ticket(ticket: [u8; 2], message_id: [u8; 32]) -> [u8; 32] {
    digest::sha256_digest(ticket@ + message_id@)
}

/// The stamp that `ticket` gives the message named `message_id`.
pub fn ticket_stamp(ticket: &[u8; 2], message_id: &[u8; 32]) -> (stamp: [u8; 32])
    ensures
        stamp == stamp_of_ticket(*ticket, *message_id),
{
    let mut buf: Vec<u8> = Vec::new();
    msgpack::write_raw(&mut buf, ticket.as_slice());
    msgpack::write_raw(&mut buf, message_id.as_slice());
    assert(buf@ =~= ticket@ + message_id@);
    digest::sha256(buf.as_slice())
}

/// What a byte that opens with `bits` zero bits stays below.
pub open spec fn zero_bits_limit(bits: int) -> int {
    if bits == 0 {
        256
    } else if bits == 1 {
        128
    } else if bits == 2 {
        64
    } else if bits == 3 {
        32
    } else if bits == 4 {
        16
    } else if bits == 5 {
        8
    } else if bits == 6 {
        4
    } else {
        2
    }
}

/// Whether the digest `d` opens with `cost` zero bits.
pub open spec fn meets_cost(d: [u8; 32], cost: u8) -> bool {
    &&& forall|i: int| 0 <= i < cost as int / 8 ==> d[i] == 0
    &&& d[cost as int / 8] < zero_bits_limit(cost as int % 8)
}

/// Whether the digest `d` opens with `cost` zero bits.
fn digest_meets_cost(d: &[u8; 32], cost: u8) -> (met: bool)
    ensures
        met == meets_cost(*d, cost),
{
    let whole: usize = (cost / 8) as usize;
    let mut i: usize = 0;
    while i < whole
        invariant
            i <= whole,
            whole == cost as int / 8,
            forall|j: int| 0 <= j < i ==> d[j] == 0,
        decreases whole - i,
    {
        if d[i] != 0 {
            return false;
        }
        i += 1;
    }
    let bits: u8 = cost % 8;
    let last: u8 = d[whole];
    if bits == 0 {
        true
    } else if bits == 1 {
        last < 128
    } else if bits == 2 {
        last < 64
    } else if bits == 3 {
        last < 32
    } else if bits == 4 {
        last < 16
    } else if bits == 5 {
        last < 8
    } else if bits == 6 {
        last < 4
    } else {
        last < 2
    }
}

/// The stamp with the number `nonce`.
pub open spec fn nonce_stamp(nonce: nat) -> [u8; 32] {
    bytes::array_of(Seq::new(24, |i: int| 0u8) + msgpack::be_bytes(nonce, 8))
}

/// The stamp with the number `nonce`.
fn stamp_from_nonce(nonce: u64) -> (stamp: [u8; 32])
    ensures
        stamp == nonce_stamp(nonce as nat),
{
    let mut buf: Vec<u8> = Vec::new();
    let mut i: usize = 0;
    while i < 24
        invariant
            i <= 24,
            buf@ == Seq::new(i as nat, |j: int| 0u8),
        decreases 24 - i,
    {
        buf.push(0);
        i += 1;
        assert(buf@ =~= Seq::new(i as nat, |j: int| 0u8));
    }
    msgpack::write_be(&mut buf, nonce, 8);
    proof {
        msgpack::lemma_be_len(nonce as nat, 8);
    }
    assert(buf@ =~= Seq::new(24, |j: int| 0u8) + msgpack::be_bytes(nonce as nat, 8));
    bytes::to_array(buf.as_slice())
}

/// Whether the stamp with the number `nonce` is worth `cost` on the message named `message_id`.
pub open spec fn nonce_works(message_id: [u8; 32], cost: u8, nonce: nat) -> bool {
    meets_cost(digest::sha256_digest(message_id@ + nonce_stamp(nonce)@), cost)
}

/// Whether `nonce` is the first number whose stamp is worth `cost`.
pub open spec fn is_first_work(message_id: [u8; 32], cost: u8, nonce: nat) -> bool {
    &&& nonce <= u64::MAX
    &&& nonce_works(message_id, cost, nonce)
    &&& forall|n: nat| n < nonce ==> !#[trigger] nonce_works(message_id, cost, n)
}

/// The stamp with the first number of 64 bits that is worth `cost` on the message named
/// `message_id`, where there is one.
pub open spec fn stamp_of_work(message_id: [u8; 32], cost: u8) -> Option<[u8; 32]> {
    if exists|nonce: nat| is_first_work(message_id, cost, nonce) {
        Some(nonce_stamp(choose|nonce: nat| is_first_work(message_id, cost, nonce)))
    } else {
        None
    }
}

/// Searches for the first number whose stamp is worth `cost` on the message named
/// `message_id`.
pub fn work_stamp(message_id: &[u8; 32], cost: u8) -> (stamp: Option<[u8; 32]>)
    ensures
        stamp == stamp_of_work(*message_id, cost),
{
    let mut nonce: u64 = 0;
    loop
        invariant
            forall|n: nat| n < nonce ==> !#[trigger] nonce_works(*message_id, cost, n),
        decreases u64::MAX - nonce,
    {
        let stamp: [u8; 32] = stamp_from_nonce(nonce);
        let mut buf: Vec<u8> = Vec::new();
        msgpack::write_raw(&mut buf, message_id.as_slice());
        msgpack::write_raw(&mut buf, stamp.as_slice());
        assert(buf@ =~= message_id@ + stamp@);
        let d: [u8; 32] = digest::sha256(buf.as_slice());
        if digest_meets_cost(&d, cost) {
            proof {
                assert(nonce_works(*message_id, cost, nonce as nat));
                assert(is_first_work(*message_id, cost, nonce as nat));
                let found = choose|n: nat| is_first_work(*message_id, cost, n);
                assert(is_first_work(*message_id, cost, found));
                if found < nonce {
                    assert(!nonce_works(*message_id, cost, found));
                }
                assert(found == nonce);
            }
            return Some(stamp);
        }
        assert(!nonce_works(*message_id, cost, nonce as nat));
        if nonce == u64::MAX {
            return None;
        }
        nonce += 1;
    }
}

/// A stamp that was found by work is worth its cost.
pub proof fn law_work_meets_cost(message_id: [u8; 32], cost: u8)
    ensures
        stamp_of_work(message_id, cost) matches Some(stamp) ==> meets_cost(
            digest::sha256_digest(message_id@ + stamp@),
            cost,
        ),
{
    if exists|nonce: nat| is_first_work(message_id, cost, nonce) {
        let found = choose|n: nat| is_first_work(message_id, cost, n);
        assert(is_first_work(message_id, cost, found));
    }
}

} // verus!
