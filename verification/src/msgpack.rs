//! The part of MessagePack that the persisted tables and packed messages are
//! written in: unsigned integers, binary strings, doubles and the headers of
//! arrays and maps.

use crate::bytes;
use vstd::prelude::*;

verus! {

/// What was read is not what the reader was asked for, or the input ends too early.
#[derive(Clone, Copy, Debug, PartialEq, Eq, Structural)]
pub struct DecodeError;

/// The number that the bytes `s` spell, most significant byte first.
pub open spec fn be_value(s: Seq<u8>) -> nat
    decreases s.len(),
{
    if s.len() == 0 {
        0
    } else {
        be_value(s.drop_last()) * 256 + s.last() as nat
    }
}

/// The low `n` bytes of `x`, most significant byte first.
pub open spec fn be_bytes(x: nat, n: nat) -> Seq<u8>
    decreases n,
{
    if n == 0 {
        Seq::empty()
    } else {
        be_bytes(x / 256, (n - 1) as nat).push((x % 256) as u8)
    }
}

/// One more than the largest number that `n` bytes can spell.
pub open spec fn byte_limit(n: nat) -> nat
    decreases n,
{
    if n == 0 {
        1
    } else {
        256 * byte_limit((n - 1) as nat)
    }
}

/// The shortest encoding of the unsigned integer `x`.
pub open spec fn uint_bytes(x: nat) -> Seq<u8> {
    if x < 0x80 {
        seq![x as u8]
    } else if x < 0x100 {
        seq![0xccu8] + be_bytes(x, 1)
    } else if x < 0x1_0000 {
        seq![0xcdu8] + be_bytes(x, 2)
    } else if x < 0x1_0000_0000 {
        seq![0xceu8] + be_bytes(x, 4)
    } else {
        seq![0xcfu8] + be_bytes(x, 8)
    }
}

/// The header of a binary string of `n` bytes.
pub open spec fn bin_header(n: nat) -> Seq<u8> {
    if n < 0x100 {
        seq![0xc4u8] + be_bytes(n, 1)
    } else if n < 0x1_0000 {
        seq![0xc5u8] + be_bytes(n, 2)
    } else {
        seq![0xc6u8] + be_bytes(n, 4)
    }
}

/// The binary string `b`.
pub open spec fn bin_bytes(b: Seq<u8>) -> Seq<u8> {
    bin_header(b.len()) + b
}

/// The header of an array of `n` elements.
pub open spec fn array_header(n: nat) -> Seq<u8> {
    if n < 16 {
        seq![(0x90 + n) as u8]
    } else if n < 0x1_0000 {
        seq![0xdcu8] + be_bytes(n, 2)
    } else {
        seq![0xddu8] + be_bytes(n, 4)
    }
}

/// The header of a map of `n` pairs.
pub open spec fn map_header(n: nat) -> Seq<u8> {
    if n < 16 {
        seq![(0x80 + n) as u8]
    } else if n < 0x1_0000 {
        seq![0xdeu8] + be_bytes(n, 2)
    } else {
        seq![0xdfu8] + be_bytes(n, 4)
    }
}

/// The double whose IEEE 754 bit pattern is `bits`.
pub open spec fn double_bytes(bits: nat) -> Seq<u8> {
    seq![0xcbu8] + be_bytes(bits, 8)
}

/// The number that the `n` bytes of `data` from `pos` on spell, and where they end.
pub open spec fn be_at(data: Seq<u8>, pos: nat, n: nat) -> Option<(nat, nat)> {
    if pos + n <= data.len() {
        Some((be_value(data.subrange(pos as int, (pos + n) as int)), pos + n))
    } else {
        None
    }
}

/// The unsigned integer that starts at `pos`, and where it ends.
pub open spec fn uint_at(data: Seq<u8>, pos: nat) -> Option<(nat, nat)> {
    if pos >= data.len() {
        None
    } else {
        let tag = data[pos as int];
        if tag < 0x80 {
            Some((tag as nat, pos + 1))
        } else if tag == 0xcc {
            be_at(data, pos + 1, 1)
        } else if tag == 0xcd {
            be_at(data, pos + 1, 2)
        } else if tag == 0xce {
            be_at(data, pos + 1, 4)
        } else if tag == 0xcf {
            be_at(data, pos + 1, 8)
        } else {
            None
        }
    }
}

/// The length in the array header that starts at `pos`, and where the header ends.
pub open spec fn array_len_at(data: Seq<u8>, pos: nat) -> Option<(nat, nat)> {
    if pos >= data.len() {
        None
    } else {
        let tag = data[pos as int];
        if 0x90 <= tag < 0xa0 {
            Some(((tag - 0x90) as nat, pos + 1))
        } else if tag == 0xdc {
            be_at(data, pos + 1, 2)
        } else if tag == 0xdd {
            be_at(data, pos + 1, 4)
        } else {
            None
        }
    }
}

/// The length in the map header that starts at `pos`, and where the header ends.
pub open spec fn map_len_at(data: Seq<u8>, pos: nat) -> Option<(nat, nat)> {
    if pos >= data.len() {
        None
    } else {
        let tag = data[pos as int];
        if 0x80 <= tag < 0x90 {
            Some(((tag - 0x80) as nat, pos + 1))
        } else if tag == 0xde {
            be_at(data, pos + 1, 2)
        } else if tag == 0xdf {
            be_at(data, pos + 1, 4)
        } else {
            None
        }
    }
}

/// The length in the header of a binary or text string that starts at `pos`, and
/// where the header ends.
pub open spec fn string_len_at(data: Seq<u8>, pos: nat) -> Option<(nat, nat)> {
    if pos >= data.len() {
        None
    } else {
        let tag = data[pos as int];
        if 0xa0 <= tag < 0xc0 {
            Some(((tag - 0xa0) as nat, pos + 1))
        } else if tag == 0xc4 || tag == 0xd9 {
            be_at(data, pos + 1, 1)
        } else if tag == 0xc5 || tag == 0xda {
            be_at(data, pos + 1, 2)
        } else if tag == 0xc6 || tag == 0xdb {
            be_at(data, pos + 1, 4)
        } else {
            None
        }
    }
}

/// The bytes of the binary or text string that starts at `pos`, and where it ends.
pub open spec fn string_at(data: Seq<u8>, pos: nat) -> Option<(Seq<u8>, nat)> {
    match string_len_at(data, pos) {
        Some((n, start)) => if start + n <= data.len() {
            Some((data.subrange(start as int, (start + n) as int), start + n))
        } else {
            None
        },
        None => None,
    }
}

/// The bit pattern of the double that starts at `pos`, and where it ends.
pub open spec fn double_at(data: Seq<u8>, pos: nat) -> Option<(nat, nat)> {
    if pos < data.len() && data[pos as int] == 0xcb {
        be_at(data, pos + 1, 8)
    } else {
        None
    }
}

/// Whether `piece` stands in `data` at `pos`.
#[verifier::opaque]
pub open spec fn stands_at(data: Seq<u8>, pos: nat, piece: Seq<u8>) -> bool {
    &&& pos + piece.len() <= data.len()
    &&& data.subrange(pos as int, (pos + piece.len()) as int) == piece
}

proof fn lemma_byte_limit()
    ensures
        byte_limit(0) == 1,
        byte_limit(1) == 0x100,
        byte_limit(2) == 0x1_0000,
        byte_limit(4) == 0x1_0000_0000,
        byte_limit(8) == 0x1_0000_0000_0000_0000,
{
    reveal_with_fuel(byte_limit, 9);
}

/// `be_bytes` yields as many bytes as it is asked for.
pub proof fn lemma_be_len(x: nat, n: nat)
    ensures
        be_bytes(x, n).len() == n,
    decreases n,
{
    if n > 0 {
        lemma_be_len(x / 256, (n - 1) as nat);
    }
}

/// No unsigned integer takes more than nine bytes.
pub proof fn lemma_uint_len(x: nat)
    ensures
        uint_bytes(x).len() <= 9,
{
    lemma_be_len(x, 1);
    lemma_be_len(x, 2);
    lemma_be_len(x, 4);
    lemma_be_len(x, 8);
}

proof fn lemma_be_round_trip(x: nat, n: nat)
    requires
        x < byte_limit(n),
    ensures
        be_value(be_bytes(x, n)) == x,
    decreases n,
{
    if n > 0 {
        lemma_be_round_trip(x / 256, (n - 1) as nat);
        assert(be_bytes(x, n).drop_last() =~= be_bytes(x / 256, (n - 1) as nat));
    }
}

proof fn lemma_be_value_bound(s: Seq<u8>)
    ensures
        be_value(s) < byte_limit(s.len()),
    decreases s.len(),
{
    if s.len() > 0 {
        lemma_be_value_bound(s.drop_last());
    }
}

/// A number that was written in `n` bytes behind one tag byte is read back.
proof fn lemma_be_at(data: Seq<u8>, pos: nat, tag: u8, x: nat, n: nat)
    requires
        x < byte_limit(n),
        stands_at(data, pos, seq![tag] + be_bytes(x, n)),
    ensures
        data[pos as int] == tag,
        be_at(data, pos + 1, n) == Some((x, pos + 1 + n)),
        (seq![tag] + be_bytes(x, n)).len() == 1 + n,
{
    reveal(stands_at);
    lemma_be_len(x, n);
    lemma_be_round_trip(x, n);
    let piece = seq![tag] + be_bytes(x, n);
    let part = data.subrange(pos as int, (pos + piece.len()) as int);
    assert(part[0] == data[pos as int]);
    assert(data.subrange((pos + 1) as int, (pos + 1 + n) as int) =~= part.subrange(
        1,
        (1 + n) as int,
    ));
    assert(piece.subrange(1, (1 + n) as int) =~= be_bytes(x, n));
}

/// An unsigned integer of 64 bits is read back as it was written.
pub proof fn law_uint_round_trip(data: Seq<u8>, pos: nat, x: nat)
    requires
        x <= u64::MAX,
        stands_at(data, pos, uint_bytes(x)),
    ensures
        uint_at(data, pos) == Some((x, pos + uint_bytes(x).len())),
{
    lemma_byte_limit();
    if x < 0x80 {
        reveal(stands_at);
        let part = data.subrange(pos as int, (pos + 1) as int);
        assert(part[0] == data[pos as int]);
    } else if x < 0x100 {
        lemma_be_at(data, pos, 0xcc, x, 1);
    } else if x < 0x1_0000 {
        lemma_be_at(data, pos, 0xcd, x, 2);
    } else if x < 0x1_0000_0000 {
        lemma_be_at(data, pos, 0xce, x, 4);
    } else {
        lemma_be_at(data, pos, 0xcf, x, 8);
    }
}

/// The length of an array is read back from its header.
pub proof fn law_array_header_round_trip(data: Seq<u8>, pos: nat, n: nat)
    requires
        n <= u32::MAX,
        stands_at(data, pos, array_header(n)),
    ensures
        array_len_at(data, pos) == Some((n, pos + array_header(n).len())),
{
    lemma_byte_limit();
    if n < 16 {
        reveal(stands_at);
        let part = data.subrange(pos as int, (pos + 1) as int);
        assert(part[0] == data[pos as int]);
    } else if n < 0x1_0000 {
        lemma_be_at(data, pos, 0xdc, n, 2);
    } else {
        lemma_be_at(data, pos, 0xdd, n, 4);
    }
}

/// The length of a map is read back from its header.
pub proof fn law_map_header_round_trip(data: Seq<u8>, pos: nat, n: nat)
    requires
        n <= u32::MAX,
        stands_at(data, pos, map_header(n)),
    ensures
        map_len_at(data, pos) == Some((n, pos + map_header(n).len())),
{
    lemma_byte_limit();
    if n < 16 {
        reveal(stands_at);
        let part = data.subrange(pos as int, (pos + 1) as int);
        assert(part[0] == data[pos as int]);
    } else if n < 0x1_0000 {
        lemma_be_at(data, pos, 0xde, n, 2);
    } else {
        lemma_be_at(data, pos, 0xdf, n, 4);
    }
}

/// A double is read back as it was written.
pub proof fn law_double_round_trip(data: Seq<u8>, pos: nat, bits: nat)
    requires
        bits <= u64::MAX,
        stands_at(data, pos, double_bytes(bits)),
    ensures
        double_at(data, pos) == Some((bits, pos + double_bytes(bits).len())),
{
    lemma_byte_limit();
    lemma_be_at(data, pos, 0xcb, bits, 8);
}

/// What `data` ends in stands there.
pub proof fn lemma_stands_last(data: Seq<u8>, pos: nat, piece: Seq<u8>)
    requires
        pos + piece.len() == data.len(),
        data.subrange(pos as int, data.len() as int) == piece,
    ensures
        stands_at(data, pos, piece),
{
    reveal(stands_at);
}

/// A piece that stands in `data` has its own halves standing there, one behind the other.
pub proof fn lemma_stands_split(data: Seq<u8>, pos: nat, first: Seq<u8>, second: Seq<u8>)
    requires
        stands_at(data, pos, first + second),
    ensures
        stands_at(data, pos, first),
        stands_at(data, pos + first.len(), second),
{
    reveal(stands_at);
    let whole = data.subrange(pos as int, (pos + (first + second).len()) as int);
    assert(data.subrange(pos as int, (pos + first.len()) as int) =~= whole.take(
        first.len() as int,
    ));
    assert(whole.take(first.len() as int) =~= first);
    assert(data.subrange(
        (pos + first.len()) as int,
        (pos + first.len() + second.len()) as int,
    ) =~= whole.skip(first.len() as int));
    assert(whole.skip(first.len() as int) =~= second);
}

/// A binary string is read back as it was written.
pub proof fn law_bin_round_trip(data: Seq<u8>, pos: nat, b: Seq<u8>)
    requires
        b.len() <= u32::MAX,
        stands_at(data, pos, bin_bytes(b)),
    ensures
        string_at(data, pos) == Some((b, pos + bin_bytes(b).len())),
{
    let n = b.len();
    lemma_byte_limit();
    reveal(stands_at);
    lemma_stands_split(data, pos, bin_header(n), b);
    if n < 0x100 {
        lemma_be_at(data, pos, 0xc4, n, 1);
    } else if n < 0x1_0000 {
        lemma_be_at(data, pos, 0xc5, n, 2);
    } else {
        lemma_be_at(data, pos, 0xc6, n, 4);
    }
}

/// No string is longer than four bytes can say.
proof fn lemma_string_len_bound(data: Seq<u8>, pos: nat)
    ensures
        string_len_at(data, pos) matches Some((n, _)) ==> n <= u32::MAX,
{
    lemma_byte_limit();
    match string_len_at(data, pos) {
        Some((_, start)) => {
            lemma_be_value_bound(data.subrange((pos + 1) as int, start as int));
        },
        None => {},
    }
}

/// Appends the low `n` bytes of `x`, most significant byte first.
pub fn write_be(buf: &mut Vec<u8>, x: u64, n: usize)
    ensures
        final(buf)@ == old(buf)@ + be_bytes(x as nat, n as nat),
    decreases n,
{
    if n > 0 {
        write_be(buf, x / 256, n - 1);
        buf.push((x % 256) as u8);
    }
    assert(buf@ =~= old(buf)@ + be_bytes(x as nat, n as nat));
}

/// Appends the bytes of `bytes`.
pub fn write_raw(buf: &mut Vec<u8>, bytes: &[u8])
    ensures
        final(buf)@ == old(buf)@ + bytes@,
{
    let mut i: usize = 0;
    while i < bytes.len()
        invariant
            i <= bytes.len(),
            buf@ == old(buf)@ + bytes@.take(i as int),
        decreases bytes.len() - i,
    {
        buf.push(bytes[i]);
        i += 1;
        assert(buf@ =~= old(buf)@ + bytes@.take(i as int));
    }
    assert(bytes@.take(i as int) =~= bytes@);
}

/// Appends an unsigned integer in its shortest encoding.
pub fn write_uint(buf: &mut Vec<u8>, x: u64)
    ensures
        final(buf)@ == old(buf)@ + uint_bytes(x as nat),
{
    if x < 0x80 {
        buf.push(x as u8);
    } else if x < 0x100 {
        buf.push(0xcc);
        write_be(buf, x, 1);
    } else if x < 0x1_0000 {
        buf.push(0xcd);
        write_be(buf, x, 2);
    } else if x < 0x1_0000_0000 {
        buf.push(0xce);
        write_be(buf, x, 4);
    } else {
        buf.push(0xcf);
        write_be(buf, x, 8);
    }
    assert(buf@ =~= old(buf)@ + uint_bytes(x as nat));
}

/// Appends a binary string.
pub fn write_bin(buf: &mut Vec<u8>, bytes: &[u8])
    requires
        bytes.len() <= u32::MAX,
    ensures
        final(buf)@ == old(buf)@ + bin_bytes(bytes@),
{
    let n = bytes.len() as u64;
    if n < 0x100 {
        buf.push(0xc4);
        write_be(buf, n, 1);
    } else if n < 0x1_0000 {
        buf.push(0xc5);
        write_be(buf, n, 2);
    } else {
        buf.push(0xc6);
        write_be(buf, n, 4);
    }
    assert(buf@ =~= old(buf)@ + bin_header(n as nat));
    write_raw(buf, bytes);
    assert(buf@ =~= old(buf)@ + bin_bytes(bytes@));
}

/// Appends the header of an array of `n` elements.
pub fn write_array_header(buf: &mut Vec<u8>, n: usize)
    requires
        n <= u32::MAX,
    ensures
        final(buf)@ == old(buf)@ + array_header(n as nat),
{
    if n < 16 {
        buf.push(0x90 + n as u8);
    } else if n < 0x1_0000 {
        buf.push(0xdc);
        write_be(buf, n as u64, 2);
    } else {
        buf.push(0xdd);
        write_be(buf, n as u64, 4);
    }
    assert(buf@ =~= old(buf)@ + array_header(n as nat));
}

/// Appends the header of a map of `n` pairs.
pub fn write_map_header(buf: &mut Vec<u8>, n: usize)
    requires
        n <= u32::MAX,
    ensures
        final(buf)@ == old(buf)@ + map_header(n as nat),
{
    if n < 16 {
        buf.push(0x80 + n as u8);
    } else if n < 0x1_0000 {
        buf.push(0xde);
        write_be(buf, n as u64, 2);
    } else {
        buf.push(0xdf);
        write_be(buf, n as u64, 4);
    }
    assert(buf@ =~= old(buf)@ + map_header(n as nat));
}

/// Appends the double whose bit pattern is `bits`.
pub fn write_double(buf: &mut Vec<u8>, bits: u64)
    ensures
        final(buf)@ == old(buf)@ + double_bytes(bits as nat),
{
    buf.push(0xcb);
    write_be(buf, bits, 8);
    assert(buf@ =~= old(buf)@ + double_bytes(bits as nat));
}

/// The number that the `n` bytes from `pos` on spell.
fn read_be(data: &[u8], pos: usize, n: usize) -> (value: Option<u64>)
    requires
        n <= 8,
    ensures
        match value {
            Some(x) => be_at(data@, pos as nat, n as nat) == Some((x as nat, (pos + n) as nat)),
            None => be_at(data@, pos as nat, n as nat) is None,
        },
{
    if pos > data.len() || data.len() - pos < n {
        return None;
    }
    let mut value: u64 = 0;
    let mut i: usize = 0;
    let ghost bytes = data@.subrange(pos as int, (pos + n) as int);
    proof {
        lemma_byte_limit();
        reveal_with_fuel(byte_limit, 9);
    }
    while i < n
        invariant
            i <= n <= 8,
            pos + n <= data.len(),
            bytes == data@.subrange(pos as int, (pos + n) as int),
            value == be_value(bytes.take(i as int)),
        decreases n - i,
    {
        proof {
            let next = bytes.take(i + 1);
            assert(next.drop_last() =~= bytes.take(i as int));
            lemma_be_value_bound(next);
            reveal_with_fuel(byte_limit, 9);
        }
        value = value * 256 + data[pos + i] as u64;
        i += 1;
    }
    assert(bytes.take(n as int) =~= bytes);
    Some(value)
}

/// Reads an unsigned integer; `pos` moves past it, or stays where there is none.
pub fn read_uint(data: &[u8], pos: &mut usize) -> (result: Result<u64, DecodeError>)
    ensures
        match result {
            Ok(x) => uint_at(data@, *old(pos) as nat) == Some((x as nat, *final(pos) as nat)),
            Err(_) => uint_at(data@, *old(pos) as nat) is None && *final(pos) == *old(pos),
        },
{
    let at: usize = *pos;
    if at >= data.len() {
        return Err(DecodeError);
    }
    let tag: u8 = data[at];
    if tag < 0x80 {
        *pos = at + 1;
        return Ok(tag as u64);
    }
    let width: usize = if tag == 0xcc {
        1
    } else if tag == 0xcd {
        2
    } else if tag == 0xce {
        4
    } else if tag == 0xcf {
        8
    } else {
        return Err(DecodeError);
    };
    match read_be(data, at + 1, width) {
        Some(x) => {
            *pos = at + 1 + width;
            Ok(x)
        },
        None => Err(DecodeError),
    }
}

/// Reads an array header; `pos` moves past it, or stays where there is none.
pub fn read_array_len(data: &[u8], pos: &mut usize) -> (result: Result<u64, DecodeError>)
    ensures
        match result {
            Ok(n) => array_len_at(data@, *old(pos) as nat) == Some(
                (n as nat, *final(pos) as nat),
            ),
            Err(_) => array_len_at(data@, *old(pos) as nat) is None && *final(pos) == *old(pos),
        },
{
    let at: usize = *pos;
    if at >= data.len() {
        return Err(DecodeError);
    }
    let tag: u8 = data[at];
    if 0x90 <= tag && tag < 0xa0 {
        *pos = at + 1;
        return Ok((tag - 0x90) as u64);
    }
    let width: usize = if tag == 0xdc {
        2
    } else if tag == 0xdd {
        4
    } else {
        return Err(DecodeError);
    };
    match read_be(data, at + 1, width) {
        Some(n) => {
            *pos = at + 1 + width;
            Ok(n)
        },
        None => Err(DecodeError),
    }
}

/// Reads a map header; `pos` moves past it, or stays where there is none.
pub fn read_map_len(data: &[u8], pos: &mut usize) -> (result: Result<u64, DecodeError>)
    ensures
        match result {
            Ok(n) => map_len_at(data@, *old(pos) as nat) == Some((n as nat, *final(pos) as nat)),
            Err(_) => map_len_at(data@, *old(pos) as nat) is None && *final(pos) == *old(pos),
        },
{
    let at: usize = *pos;
    if at >= data.len() {
        return Err(DecodeError);
    }
    let tag: u8 = data[at];
    if 0x80 <= tag && tag < 0x90 {
        *pos = at + 1;
        return Ok((tag - 0x80) as u64);
    }
    let width: usize = if tag == 0xde {
        2
    } else if tag == 0xdf {
        4
    } else {
        return Err(DecodeError);
    };
    match read_be(data, at + 1, width) {
        Some(n) => {
            *pos = at + 1 + width;
            Ok(n)
        },
        None => Err(DecodeError),
    }
}

/// Reads a double as its bit pattern; `pos` moves past it, or stays where there is none.
pub fn read_double(data: &[u8], pos: &mut usize) -> (result: Result<u64, DecodeError>)
    ensures
        match result {
            Ok(bits) => double_at(data@, *old(pos) as nat) == Some(
                (bits as nat, *final(pos) as nat),
            ),
            Err(_) => double_at(data@, *old(pos) as nat) is None && *final(pos) == *old(pos),
        },
{
    let at: usize = *pos;
    if at >= data.len() || data[at] != 0xcb {
        return Err(DecodeError);
    }
    match read_be(data, at + 1, 8) {
        Some(bits) => {
            *pos = at + 9;
            Ok(bits)
        },
        None => Err(DecodeError),
    }
}

/// The length in the header of a string at `at`, and where the header ends.
fn read_string_len(data: &[u8], at: usize) -> (header: Option<(u64, usize)>)
    ensures
        match header {
            Some((n, start)) => string_len_at(data@, at as nat) == Some((n as nat, start as nat)),
            None => string_len_at(data@, at as nat) is None,
        },
{
    if at >= data.len() {
        return None;
    }
    let tag: u8 = data[at];
    if 0xa0 <= tag && tag < 0xc0 {
        return Some(((tag - 0xa0) as u64, at + 1));
    }
    let width: usize = if tag == 0xc4 || tag == 0xd9 {
        1
    } else if tag == 0xc5 || tag == 0xda {
        2
    } else if tag == 0xc6 || tag == 0xdb {
        4
    } else {
        return None;
    };
    match read_be(data, at + 1, width) {
        Some(n) => Some((n, at + 1 + width)),
        None => None,
    }
}

/// Reads a binary or text string; `pos` moves past it, or stays where there is none.
pub fn read_bin_or_str(data: &[u8], pos: &mut usize) -> (result: Result<Vec<u8>, DecodeError>)
    ensures
        match result {
            Ok(bytes) => string_at(data@, *old(pos) as nat) == Some(
                (bytes@, *final(pos) as nat),
            ) && bytes.len() <= u32::MAX,
            Err(_) => string_at(data@, *old(pos) as nat) is None && *final(pos) == *old(pos),
        },
{
    proof {
        lemma_string_len_bound(data@, *pos as nat);
    }
    match read_string_len(data, *pos) {
        Some((n, start)) => {
            if start > data.len() || ((data.len() - start) as u64) < n {
                return Err(DecodeError);
            }
            let end: usize = start + n as usize;
            *pos = end;
            Ok(bytes::copy_bytes(vstd::slice::slice_subrange(data, start, end)))
        },
        None => Err(DecodeError),
    }
}

} // verus!
