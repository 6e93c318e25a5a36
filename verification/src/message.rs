//! Messages, and the bytes that they are packed into.
//!
//! The packed form is this library's own definition: destination, source and signature,
//! then a MessagePack array of timestamp, title, content, fields and, where there is one,
//! the stamp. So is what a message is named by: the hash of all of that but the signature
//! and the stamp.

use crate::hash::DestHash;
use crate::{bytes, digest, msgpack, stamp};
use std::collections::BTreeMap;
use vstd::prelude::*;

verus! {

/// Key of the field that carries a reply ticket.
pub const FIELD_TICKET: u8 = 0x0c;

/// Bytes before the payload of a packed message: two hashes and a signature.
pub const PAYLOAD_START: usize = 96;

/// How a message is to reach its destination.
#[derive(Clone, Copy, Debug, PartialEq, Eq, Structural)]
pub enum DeliveryMethod {
    /// In one packet.
    Opportunistic,
    /// As a resource over a link.
    Direct,
    /// By way of a propagation node.
    Propagated,
}

/// Why a message was refused.
#[derive(Clone, Copy, Debug, PartialEq, Eq, Structural)]
pub enum MessageError {
    /// A part is longer than its length prefix can say.
    TooLong,
    /// The bytes are no packed message.
    Malformed,
}

/// The fields of `m` whose keys are below `n`, in the order of their keys.
pub open spec fn fields_below(m: Map<u8, Seq<u8>>, n: nat) -> Seq<(u8, Seq<u8>)>
    decreases n,
{
    if n == 0 {
        Seq::empty()
    } else {
        let before = fields_below(m, (n - 1) as nat);
        let key = (n - 1) as u8;
        if m.contains_key(key) {
            before.push((key, m[key]))
        } else {
            before
        }
    }
}

/// The fields of `m` in the order of their keys.
pub open spec fn in_key_order(m: Map<u8, Seq<u8>>) -> Seq<(u8, Seq<u8>)> {
    fields_below(m, 256)
}

proof fn lemma_fields_below(m: Map<u8, Seq<u8>>, n: nat)
    requires
        n <= 256,
    ensures
        fields_below(m, n).len() <= n,
        forall|i: int|
            0 <= i < fields_below(m, n).len() ==> {
                let f = #[trigger] fields_below(m, n)[i];
                f.0 < n && m.contains_key(f.0) && m[f.0] == f.1
            },
        forall|k: u8|
            k < n && #[trigger] m.contains_key(k) ==> fields_below(m, n).contains((k, m[k])),
    decreases n,
{
    if n > 0 {
        let before = fields_below(m, (n - 1) as nat);
        let s = fields_below(m, n);
        lemma_fields_below(m, (n - 1) as nat);
        assert forall|k: u8| k < n && #[trigger] m.contains_key(k) implies s.contains(
            (k, m[k]),
        ) by {
            if k < n - 1 {
                let i = before.index_of((k, m[k]));
                assert(s[i] == before[i]);
            } else {
                assert(s[s.len() - 1] == (k, m[k]));
            }
        }
    }
}

/// The fields in `m`, with their values as sequences.
pub open spec fn field_views(m: Map<u8, Vec<u8>>) -> Map<u8, Seq<u8>> {
    m.map_values(|value: Vec<u8>| value@)
}

/// The fields that a walk hands out, with their values as sequences.
pub open spec fn walked(s: Seq<(&u8, &Vec<u8>)>) -> Seq<(u8, Seq<u8>)> {
    Seq::new(s.len(), |i: int| (*s[i].0, s[i].1@))
}

/// Whether `s` has ascending keys and holds the fields of `m`, all of them and no other.
spec fn lists(s: Seq<(u8, Seq<u8>)>, m: Map<u8, Seq<u8>>) -> bool {
    &&& forall|i: int, j: int|
        0 <= i < j < s.len() ==> (#[trigger] s[i]).0 < (#[trigger] s[j]).0
    &&& forall|i: int|
        0 <= i < s.len() ==> m.contains_key((#[trigger] s[i]).0) && m[s[i].0] == s[i].1
    &&& forall|k: u8| #[trigger] m.contains_key(k) ==> s.contains((k, m[k]))
}

/// How many fields of `s` have a key below `n`: those that `fields_below` gives.
proof fn lemma_lists_below(s: Seq<(u8, Seq<u8>)>, m: Map<u8, Seq<u8>>, n: nat) -> (c: int)
    requires
        lists(s, m),
        n <= 256,
    ensures
        0 <= c <= s.len(),
        forall|i: int| 0 <= i < c ==> (#[trigger] s[i]).0 < n,
        forall|i: int| c <= i < s.len() ==> (#[trigger] s[i]).0 >= n,
        fields_below(m, n) == s.take(c),
    decreases n,
{
    if n == 0 {
        assert(s.take(0) =~= Seq::empty());
        0
    } else {
        let c = lemma_lists_below(s, m, (n - 1) as nat);
        let key = (n - 1) as u8;
        if c < s.len() && s[c].0 == key {
            assert(s.take(c).push(s[c]) =~= s.take(c + 1));
            c + 1
        } else {
            if m.contains_key(key) {
                let i = s.index_of((key, m[key]));
                assert(s[i].0 == key);
                assert(c <= i);
                assert(s[c].0 <= s[i].0);
            }
            c
        }
    }
}

/// A list of the fields with ascending keys is the one in the order of keys.
proof fn lemma_lists(s: Seq<(u8, Seq<u8>)>, m: Map<u8, Seq<u8>>)
    requires
        lists(s, m),
    ensures
        s == in_key_order(m),
{
    let c = lemma_lists_below(s, m, 256);
    if c < s.len() {
        assert(s[c].0 >= 256);
    }
    assert(s.take(c) =~= s);
}

/// A walk over the fields hands them out in the order of their keys.
proof fn lemma_walk(m: &BTreeMap<u8, Vec<u8>>)
    requires
        vstd::std_specs::btree::increasing_seq(
            vstd::std_specs::iter::IteratorSpec::remaining(
                &vstd::std_specs::btree::spec_btree_map_iter(m),
            ).map_values(|kv: (&u8, &Vec<u8>)| *kv.0),
        ),
    ensures
        walked(
            vstd::std_specs::iter::IteratorSpec::remaining(
                &vstd::std_specs::btree::spec_btree_map_iter(m),
            ),
        ) == in_key_order(field_views(m@)),
        m@.dom().len() == in_key_order(field_views(m@)).len(),
{
    let s = vstd::std_specs::iter::IteratorSpec::remaining(
        &vstd::std_specs::btree::spec_btree_map_iter(m),
    );
    let keys = s.map_values(|kv: (&u8, &Vec<u8>)| *kv.0);
    let t = walked(s);
    let fields = field_views(m@);
    assert forall|i: int, j: int| 0 <= i < j < t.len() implies (#[trigger] t[i]).0 < (
    #[trigger] t[j]).0 by {
        assert(keys[i] == t[i].0);
        assert(keys[j] == t[j].0);
        assert(vstd::std_specs::cmp::OrdSpec::cmp_spec(&keys[i], &keys[j]) is Less);
    }
    assert forall|i: int| 0 <= i < t.len() implies fields.contains_key((#[trigger] t[i]).0)
        && fields[t[i].0] == t[i].1 by {
        assert(m@.contains_key(*s[i].0));
    }
    assert forall|k: u8| #[trigger] fields.contains_key(k) implies t.contains(
        (k, fields[k]),
    ) by {
        assert(m@.contains_key(k));
        let i = s.index_of((&k, &m@[k]));
        assert(t[i] == (k, fields[k]));
    }
    lemma_lists(t, fields);
}

/// The field `f`, key first.
pub open spec fn field_bytes(f: (u8, Seq<u8>)) -> Seq<u8> {
    msgpack::uint_bytes(f.0 as nat) + msgpack::bin_bytes(f.1)
}

/// The fields `s`, one behind the other.
pub open spec fn fields_bytes(s: Seq<(u8, Seq<u8>)>) -> Seq<u8>
    decreases s.len(),
{
    if s.len() == 0 {
        Seq::empty()
    } else {
        fields_bytes(s.drop_last()) + field_bytes(s.last())
    }
}

/// The map of the fields `m`, in the order of their keys.
pub open spec fn map_bytes(m: Map<u8, Seq<u8>>) -> Seq<u8> {
    msgpack::map_header(in_key_order(m).len()) + fields_bytes(in_key_order(m))
}

/// The `n` fields from `pos` on added to those in `found`, and where they end.
pub open spec fn fields_at(
    data: Seq<u8>,
    pos: nat,
    n: nat,
    found: Map<u8, Seq<u8>>,
) -> Option<(Map<u8, Seq<u8>>, nat)>
    decreases n,
{
    if n == 0 {
        Some((found, pos))
    } else {
        match msgpack::uint_at(data, pos) {
            Some((key, value_pos)) => match msgpack::string_at(data, value_pos) {
                Some((value, next)) => if key < 0x100 {
                    fields_at(data, next, (n - 1) as nat, found.insert(key as u8, value))
                } else {
                    None
                },
                None => None,
            },
            None => None,
        }
    }
}

/// What a message holds.
#[verifier::ext_equal]
pub struct MessageView {
    pub destination_hash: DestHash,
    pub source_hash: DestHash,
    pub signature: [u8; 64],
    pub timestamp: u64,
    pub title: Seq<u8>,
    pub content: Seq<u8>,
    pub fields: Map<u8, Seq<u8>>,
    pub stamp: Option<[u8; 32]>,
    pub method: DeliveryMethod,
}

impl MessageView {
    /// Every part fits its length prefix.
    pub open spec fn valid(self) -> bool {
        &&& self.title.len() <= u32::MAX
        &&& self.content.len() <= u32::MAX
        &&& forall|k: u8|
            self.fields.contains_key(k) ==> (#[trigger] self.fields[k]).len() <= u32::MAX
    }

    /// The payload up to the stamp; `parts` is the number of elements in its header.
    pub open spec fn body_bytes(self, parts: nat) -> Seq<u8> {
        msgpack::array_header(parts) + (msgpack::double_bytes(self.timestamp as nat) + (
        msgpack::bin_bytes(self.title) + (msgpack::bin_bytes(self.content) + (
        map_bytes(self.fields)))))
    }

    /// The payload: timestamp, title, content and fields, and the stamp where there is one.
    pub open spec fn payload(self) -> Seq<u8> {
        match self.stamp {
            None => self.body_bytes(4),
            Some(stamp) => self.body_bytes(5) + msgpack::bin_bytes(stamp@),
        }
    }

    /// The packed message: both hashes, the signature and the payload.
    pub open spec fn packed(self) -> Seq<u8> {
        self.destination_hash.0@ + (self.source_hash.0@ + (self.signature@ + self.payload()))
    }

    /// The packed message without the destination, which the packet around it names.
    pub open spec fn packed_opportunistic(self) -> Seq<u8> {
        self.source_hash.0@ + (self.signature@ + self.payload())
    }

    /// The hash that tracks the message: that of its packed form.
    pub open spec fn hash(self) -> [u8; 32] {
        digest::sha256_digest(self.packed())
    }

    /// The hash that names the message whatever stamp it bears.
    pub open spec fn message_id(self) -> [u8; 32] {
        digest::sha256_digest(
            self.destination_hash.0@ + (self.source_hash.0@ + self.body_bytes(4)),
        )
    }
}

/// The message that the bytes `data` spell, to be delivered by `method`.
pub open spec fn unpacked(data: Seq<u8>, method: DeliveryMethod) -> Option<MessageView> {
    if data.len() < PAYLOAD_START {
        None
    } else {
        match msgpack::array_len_at(data, PAYLOAD_START as nat) {
            Some((parts, p0)) => match msgpack::double_at(data, p0) {
                Some((timestamp, p1)) => match msgpack::string_at(data, p1) {
                    Some((title, p2)) => match msgpack::string_at(data, p2) {
                        Some((content, p3)) => match msgpack::map_len_at(data, p3) {
                            Some((n, p4)) => match fields_at(data, p4, n, Map::empty()) {
                                Some((fields, p5)) => match stamp_at(data, p5, parts) {
                                    Some(stamp) => Some(
                                        MessageView {
                                            destination_hash: DestHash(
                                                bytes::array_of(data.subrange(0, 16)),
                                            ),
                                            source_hash: DestHash(
                                                bytes::array_of(data.subrange(16, 32)),
                                            ),
                                            signature: bytes::array_of(data.subrange(32, 96)),
                                            timestamp: timestamp as u64,
                                            title,
                                            content,
                                            fields,
                                            stamp,
                                            method,
                                        },
                                    ),
                                    None => None,
                                },
                                None => None,
                            },
                            None => None,
                        },
                        None => None,
                    },
                    None => None,
                },
                None => None,
            },
            None => None,
        }
    }
}

/// What stands between `pos` and the end of `data`: nothing, where the payload has four
/// parts, and a stamp of thirty-two bytes where it has five.
pub open spec fn stamp_at(data: Seq<u8>, pos: nat, parts: nat) -> Option<Option<[u8; 32]>> {
    if parts == 4 {
        if pos == data.len() {
            Some(None)
        } else {
            None
        }
    } else if parts == 5 {
        match msgpack::string_at(data, pos) {
            Some((bytes, end)) => if bytes.len() == 32 && end == data.len() {
                Some(Some(bytes::array_of(bytes)))
            } else {
                None
            },
            None => None,
        }
    } else {
        None
    }
}

/// `found` with the fields `s` put in, one after the other.
spec fn with_fields(found: Map<u8, Seq<u8>>, s: Seq<(u8, Seq<u8>)>) -> Map<u8, Seq<u8>>
    decreases s.len(),
{
    if s.len() == 0 {
        found
    } else {
        with_fields(found.insert(s[0].0, s[0].1), s.drop_first())
    }
}

proof fn lemma_with_fields_push(
    found: Map<u8, Seq<u8>>,
    s: Seq<(u8, Seq<u8>)>,
    f: (u8, Seq<u8>),
)
    ensures
        with_fields(found, s.push(f)) == with_fields(found, s).insert(f.0, f.1),
    decreases s.len(),
{
    if s.len() == 0 {
        assert(s.push(f).drop_first() =~= Seq::empty());
        reveal_with_fuel(with_fields, 2);
    } else {
        assert(s.push(f).drop_first() =~= s.drop_first().push(f));
        lemma_with_fields_push(found.insert(s[0].0, s[0].1), s.drop_first(), f);
    }
}

proof fn lemma_with_fields_below(m: Map<u8, Seq<u8>>, n: nat)
    requires
        n <= 256,
    ensures
        ({
            let t = with_fields(Map::empty(), fields_below(m, n));
            &&& forall|k: u8| #[trigger] t.contains_key(k) <==> m.contains_key(k) && k < n
            &&& forall|k: u8| t.contains_key(k) ==> #[trigger] t[k] == m[k]
        }),
    decreases n,
{
    if n > 0 {
        lemma_with_fields_below(m, (n - 1) as nat);
        let key = (n - 1) as u8;
        let front = fields_below(m, (n - 1) as nat);
        let before = with_fields(Map::empty(), front);
        let after = with_fields(Map::empty(), fields_below(m, n));
        if m.contains_key(key) {
            lemma_with_fields_push(Map::empty(), front, (key, m[key]));
            assert(after == before.insert(key, m[key]));
        }
        assert forall|k: u8| #[trigger]
            after.contains_key(k) <==> m.contains_key(k) && k < n by {
            assert(before.contains_key(k) <==> m.contains_key(k) && k < n - 1);
        }
    } else {
        assert(with_fields(Map::empty(), fields_below(m, 0)) == Map::<u8, Seq<u8>>::empty());
    }
}

proof fn lemma_fields_at(data: Seq<u8>, pos: nat, s: Seq<(u8, Seq<u8>)>, found: Map<u8, Seq<u8>>)
    requires
        forall|i: int| 0 <= i < s.len() ==> (#[trigger] s[i]).1.len() <= u32::MAX,
        msgpack::stands_at(data, pos, fields_bytes(s)),
    ensures
        fields_at(data, pos, s.len(), found) == Some(
            (with_fields(found, s), pos + fields_bytes(s).len()),
        ),
    decreases s.len(),
{
    if s.len() > 0 {
        let first = s[0];
        let rest = s.drop_first();
        lemma_fields_first(s);
        msgpack::lemma_stands_split(data, pos, field_bytes(first), fields_bytes(rest));
        msgpack::lemma_stands_split(
            data,
            pos,
            msgpack::uint_bytes(first.0 as nat),
            msgpack::bin_bytes(first.1),
        );
        msgpack::law_uint_round_trip(data, pos, first.0 as nat);
        msgpack::law_bin_round_trip(
            data,
            pos + msgpack::uint_bytes(first.0 as nat).len(),
            first.1,
        );
        lemma_fields_at(
            data,
            pos + field_bytes(first).len(),
            rest,
            found.insert(first.0, first.1),
        );
    }
}

proof fn lemma_fields_first(s: Seq<(u8, Seq<u8>)>)
    requires
        s.len() > 0,
    ensures
        fields_bytes(s) == field_bytes(s[0]) + fields_bytes(s.drop_first()),
    decreases s.len(),
{
    if s.len() == 1 {
        assert(s.drop_last() =~= Seq::empty());
        assert(s.drop_first() =~= Seq::empty());
        assert(fields_bytes(s) =~= field_bytes(s[0]) + fields_bytes(s.drop_first()));
    } else {
        lemma_fields_first(s.drop_last());
        assert(s.drop_last().drop_first() =~= s.drop_first().drop_last());
        assert(fields_bytes(s) =~= field_bytes(s[0]) + fields_bytes(s.drop_first()));
    }
}

proof fn lemma_append_assoc(a: Seq<u8>, b: Seq<u8>, c: Seq<u8>)
    ensures
        (a + b) + c == a + (b + c),
{
    assert((a + b) + c =~= a + (b + c));
}

/// A valid message is read back from its packed form, but for its delivery method, which
/// the packed form does not say.
pub proof fn law_pack_round_trip(m: MessageView, method: DeliveryMethod)
    requires
        m.valid(),
    ensures
        unpacked(m.packed(), method) == Some(MessageView { method, ..m }),
{
    let data = m.packed();
    let parts: nat = if m.stamp is None {
        4
    } else {
        5
    };
    assert(data.subrange(0, 16) =~= m.destination_hash.0@);
    assert(data.subrange(16, 32) =~= m.source_hash.0@);
    assert(data.subrange(32, 96) =~= m.signature@);
    bytes::lemma_array_of(m.destination_hash.0);
    bytes::lemma_array_of(m.source_hash.0);
    bytes::lemma_array_of(m.signature);
    assert(data.subrange(96, data.len() as int) =~= m.payload());
    msgpack::lemma_stands_last(data, 96, m.payload());
    let tail = match m.stamp {
        None => Seq::empty(),
        Some(stamp) => msgpack::bin_bytes(stamp@),
    };
    assert(m.payload() =~= m.body_bytes(parts) + tail);
    msgpack::lemma_stands_split(data, 96, m.body_bytes(parts), tail);

    let ordered = in_key_order(m.fields);
    let f = fields_bytes(ordered);
    let b4 = map_bytes(m.fields);
    let b3 = msgpack::bin_bytes(m.content) + b4;
    let b2 = msgpack::bin_bytes(m.title) + b3;
    let b1 = msgpack::double_bytes(m.timestamp as nat) + b2;
    msgpack::lemma_stands_split(data, 96, msgpack::array_header(parts), b1);
    let p0 = 96 + msgpack::array_header(parts).len();
    msgpack::law_array_header_round_trip(data, 96, parts);
    msgpack::lemma_stands_split(data, p0, msgpack::double_bytes(m.timestamp as nat), b2);
    let p1 = p0 + msgpack::double_bytes(m.timestamp as nat).len();
    msgpack::law_double_round_trip(data, p0, m.timestamp as nat);
    msgpack::lemma_stands_split(data, p1, msgpack::bin_bytes(m.title), b3);
    let p2 = p1 + msgpack::bin_bytes(m.title).len();
    msgpack::law_bin_round_trip(data, p1, m.title);
    msgpack::lemma_stands_split(data, p2, msgpack::bin_bytes(m.content), b4);
    let p3 = p2 + msgpack::bin_bytes(m.content).len();
    msgpack::law_bin_round_trip(data, p2, m.content);
    msgpack::lemma_stands_split(data, p3, msgpack::map_header(ordered.len()), f);
    let p4 = p3 + msgpack::map_header(ordered.len()).len();
    lemma_fields_below(m.fields, 256);
    msgpack::law_map_header_round_trip(data, p3, ordered.len());
    assert forall|i: int| 0 <= i < ordered.len() implies (#[trigger] ordered[i]).1.len()
        <= u32::MAX by {
        assert(m.fields[ordered[i].0].len() <= u32::MAX);
    }
    lemma_fields_at(data, p4, ordered, Map::empty());
    lemma_with_fields_below(m.fields, 256);
    assert(with_fields(Map::empty(), ordered) =~= m.fields);
    let p5 = p4 + f.len();
    assert(p5 + tail.len() == data.len());
    match m.stamp {
        None => {},
        Some(stamp) => {
            msgpack::law_bin_round_trip(data, p5, stamp@);
            bytes::lemma_array_of(stamp);
        },
    }
}

/// A message.
pub struct LXMessage {
    pub destination_hash: DestHash,
    pub source_hash: DestHash,
    /// The sender's signature.
    pub signature: [u8; 64],
    /// The bit pattern of the time of writing, a double of seconds.
    pub timestamp: u64,
    pub title: Vec<u8>,
    pub content: Vec<u8>,
    pub fields: BTreeMap<u8, Vec<u8>>,
    /// Proof that the sender may reach the destination.
    pub stamp: Option<[u8; 32]>,
    pub method: DeliveryMethod,
}

impl View for LXMessage {
    type V = MessageView;

    open spec fn view(&self) -> MessageView {
        MessageView {
            destination_hash: self.destination_hash,
            source_hash: self.source_hash,
            signature: self.signature,
            timestamp: self.timestamp,
            title: self.title@,
            content: self.content@,
            fields: field_views(self.fields@),
            stamp: self.stamp,
            method: self.method,
        }
    }
}

impl LXMessage {
    /// A message for one packet, without a stamp; refused where a part is too long for
    /// its length prefix.
    pub fn new(
        destination_hash: DestHash,
        source_hash: DestHash,
        signature: [u8; 64],
        title: &[u8],
        content: &[u8],
        fields: BTreeMap<u8, Vec<u8>>,
        timestamp: u64,
    ) -> (result: Result<Self, MessageError>)
        ensures
            ({
                let m = MessageView {
                    destination_hash,
                    source_hash,
                    signature,
                    timestamp,
                    title: title@,
                    content: content@,
                    fields: field_views(fields@),
                    stamp: None,
                    method: DeliveryMethod::Opportunistic,
                };
                match result {
                    Ok(message) => m.valid() && message@ == m,
                    Err(e) => !m.valid() && e == MessageError::TooLong,
                }
            }),
    {
        let message = LXMessage {
            destination_hash,
            source_hash,
            signature,
            timestamp,
            title: bytes::copy_bytes(title),
            content: bytes::copy_bytes(content),
            fields,
            stamp: None,
            method: DeliveryMethod::Opportunistic,
        };
        if message.is_valid() {
            Ok(message)
        } else {
            Err(MessageError::TooLong)
        }
    }

    /// Appends the fields.
    fn write_fields(&self, buf: &mut Vec<u8>)
        requires
            self@.valid(),
        ensures
            final(buf)@ == old(buf)@ + map_bytes(self@.fields),
    {
        let ghost ordered = in_key_order(self@.fields);
        let all = self.fields.iter();
        proof {
            lemma_walk(&self.fields);
            lemma_fields_below(self@.fields, 256);
        }
        msgpack::write_map_header(buf, self.fields.len());
        let ghost start = buf@;
        assert(start + fields_bytes(ordered.take(0)) =~= start);
        for field in iter: all
            invariant
                walked(iter.seq()) == ordered,
                forall|i: int|
                    0 <= i < ordered.len() ==> (#[trigger] ordered[i]).1.len() <= u32::MAX,
                buf@ == start + fields_bytes(ordered.take(iter.index() as int)),
        {
            let ghost upto = ordered.take(iter.index() + 1);
            assert(walked(iter.seq())[iter.index() as int] == (*field.0, field.1@));
            assert(upto.drop_last() =~= ordered.take(iter.index() as int));
            assert(upto.last() == (*field.0, field.1@));
            msgpack::write_uint(buf, *field.0 as u64);
            msgpack::write_bin(buf, field.1.as_slice());
            assert(buf@ =~= start + fields_bytes(upto));
        }
        assert(ordered.take(ordered.len() as int) =~= ordered);
        assert(buf@ =~= old(buf)@ + map_bytes(self@.fields));
    }

    /// Appends the payload up to the stamp.
    fn write_body(&self, buf: &mut Vec<u8>, parts: usize)
        requires
            self@.valid(),
            parts <= 5,
        ensures
            final(buf)@ == old(buf)@ + self@.body_bytes(parts as nat),
    {
        let ghost b0 = buf@;
        msgpack::write_array_header(buf, parts);
        let ghost b1 = buf@;
        msgpack::write_double(buf, self.timestamp);
        let ghost b2 = buf@;
        msgpack::write_bin(buf, self.title.as_slice());
        let ghost b3 = buf@;
        msgpack::write_bin(buf, self.content.as_slice());
        let ghost b4 = buf@;
        self.write_fields(buf);
        proof {
            let f = map_bytes(self@.fields);
            let c = msgpack::bin_bytes(self.content@);
            let t = msgpack::bin_bytes(self.title@);
            let d = msgpack::double_bytes(self.timestamp as nat);
            let h = msgpack::array_header(parts as nat);
            lemma_append_assoc(b3, c, f);
            lemma_append_assoc(b2, t, c + f);
            lemma_append_assoc(b1, d, t + (c + f));
            lemma_append_assoc(b0, h, d + (t + (c + f)));
        }
    }

    /// Appends the payload.
    fn write_payload(&self, buf: &mut Vec<u8>)
        requires
            self@.valid(),
        ensures
            final(buf)@ == old(buf)@ + self@.payload(),
    {
        match &self.stamp {
            None => self.write_body(buf, 4),
            Some(stamp) => {
                self.write_body(buf, 5);
                msgpack::write_bin(buf, stamp.as_slice());
                assert(buf@ =~= old(buf)@ + self@.payload());
            },
        }
    }

    /// Whether the message can be packed: every part fits its length prefix.
    pub fn is_valid(&self) -> (valid: bool)
        ensures
            valid == self@.valid(),
    {
        if self.title.len() > u32::MAX as usize || self.content.len() > u32::MAX as usize {
            return false;
        }
        let ghost ordered = in_key_order(self@.fields);
        let all = self.fields.iter();
        proof {
            lemma_walk(&self.fields);
            lemma_fields_below(self@.fields, 256);
        }
        for field in iter: all
            invariant
                walked(iter.seq()) == ordered,
                forall|i: int|
                    0 <= i < ordered.len() ==> self@.fields.contains_key((#[trigger] ordered[i]).0)
                        && self@.fields[ordered[i].0] == ordered[i].1,
                forall|i: int|
                    0 <= i < iter.index() ==> (#[trigger] ordered[i]).1.len() <= u32::MAX,
        {
            assert(walked(iter.seq())[iter.index() as int] == (*field.0, field.1@));
            if field.1.len() > u32::MAX as usize {
                assert(self@.fields[*field.0].len() > u32::MAX);
                return false;
            }
        }
        assert forall|k: u8| self@.fields.contains_key(k) implies (
        #[trigger] self@.fields[k]).len() <= u32::MAX by {
            let i = ordered.index_of((k, self@.fields[k]));
            assert(ordered[i].1.len() <= u32::MAX);
        }
        true
    }

    /// The packed message.
    pub fn pack(&self) -> (packed: Vec<u8>)
        requires
            self@.valid(),
        ensures
            packed@ == self@.packed(),
    {
        let mut buf: Vec<u8> = Vec::new();
        msgpack::write_raw(&mut buf, self.destination_hash.0.as_slice());
        msgpack::write_raw(&mut buf, self.source_hash.0.as_slice());
        msgpack::write_raw(&mut buf, self.signature.as_slice());
        self.write_payload(&mut buf);
        assert(buf@ =~= self@.packed());
        buf
    }

    /// The packed message without its destination.
    pub fn pack_opportunistic(&self) -> (packed: Vec<u8>)
        requires
            self@.valid(),
        ensures
            packed@ == self@.packed_opportunistic(),
    {
        let mut buf: Vec<u8> = Vec::new();
        msgpack::write_raw(&mut buf, self.source_hash.0.as_slice());
        msgpack::write_raw(&mut buf, self.signature.as_slice());
        self.write_payload(&mut buf);
        assert(buf@ =~= self@.packed_opportunistic());
        buf
    }

    /// The hash that tracks the message: SHA-256 of its packed form.
    pub fn hash(&self) -> (digest: [u8; 32])
        requires
            self@.valid(),
        ensures
            digest == self@.hash(),
    {
        digest::sha256(self.pack().as_slice())
    }

    /// The hash that names the message whatever stamp it bears.
    pub fn message_id(&self) -> (digest: [u8; 32])
        requires
            self@.valid(),
        ensures
            digest == self@.message_id(),
    {
        let mut buf: Vec<u8> = Vec::new();
        msgpack::write_raw(&mut buf, self.destination_hash.0.as_slice());
        msgpack::write_raw(&mut buf, self.source_hash.0.as_slice());
        self.write_body(&mut buf, 4);
        assert(buf@ =~= self@.destination_hash.0@ + (self@.source_hash.0@ + self@.body_bytes(4)));
        digest::sha256(buf.as_slice())
    }

    /// Gives the message a stamp that work worth `cost` was done for.
    pub fn generate_stamp(&mut self, cost: u8)
        requires
            old(self)@.valid(),
        ensures
            final(self)@ == (MessageView {
                stamp: stamp::stamp_of_work(old(self)@.message_id(), cost),
                ..old(self)@
            }),
    {
        let id: [u8; 32] = self.message_id();
        self.stamp = stamp::work_stamp(&id, cost);
    }

    /// Reads `n` fields from `pos` on.
    fn read_fields(data: &[u8], pos: &mut usize, n: u64) -> (result: Option<
        BTreeMap<u8, Vec<u8>>,
    >)
        ensures
            match result {
                Some(fields) => fields_at(data@, *old(pos) as nat, n as nat, Map::empty()) == Some(
                    (field_views(fields@), *final(pos) as nat),
                ) && forall|k: u8|
                    fields@.contains_key(k) ==> (#[trigger] fields@[k])@.len() <= u32::MAX,
                None => fields_at(data@, *old(pos) as nat, n as nat, Map::empty()) is None,
            },
    {
        let mut fields: BTreeMap<u8, Vec<u8>> = BTreeMap::new();
        let mut left: u64 = n;
        assert(field_views(fields@) =~= Map::empty());
        while left > 0
            invariant
                left <= n,
                fields_at(data@, *old(pos) as nat, n as nat, Map::empty()) == fields_at(
                    data@,
                    *pos as nat,
                    left as nat,
                    field_views(fields@),
                ),
                forall|k: u8|
                    fields@.contains_key(k) ==> (#[trigger] fields@[k])@.len() <= u32::MAX,
            decreases left,
        {
            let key: u64 = match msgpack::read_uint(data, pos) {
                Ok(key) => key,
                Err(_) => return None,
            };
            let value: Vec<u8> = match msgpack::read_bin_or_str(data, pos) {
                Ok(value) => value,
                Err(_) => return None,
            };
            if key >= 0x100 {
                return None;
            }
            let ghost before = fields@;
            fields.insert(key as u8, value);
            assert(field_views(fields@) =~= field_views(before).insert(key as u8, value@));
            left -= 1;
        }
        Some(fields)
    }

    /// The message that `data` spells, to be delivered by `method`, or in one packet where
    /// no method is given.
    pub fn unpack(data: &[u8], method: Option<DeliveryMethod>) -> (result: Result<
        Self,
        MessageError,
    >)
        ensures
            ({
                let wanted = match method {
                    Some(m) => m,
                    None => DeliveryMethod::Opportunistic,
                };
                match result {
                    Ok(message) => unpacked(data@, wanted) == Some(message@)
                        && message@.valid(),
                    Err(e) => unpacked(data@, wanted) is None && e == MessageError::Malformed,
                }
            }),
    {
        let method = match method {
            Some(m) => m,
            None => DeliveryMethod::Opportunistic,
        };
        if data.len() < PAYLOAD_START {
            return Err(MessageError::Malformed);
        }
        let mut pos: usize = PAYLOAD_START;
        let parts: u64 = match msgpack::read_array_len(data, &mut pos) {
            Ok(parts) => parts,
            Err(_) => return Err(MessageError::Malformed),
        };
        let timestamp: u64 = match msgpack::read_double(data, &mut pos) {
            Ok(timestamp) => timestamp,
            Err(_) => return Err(MessageError::Malformed),
        };
        let title: Vec<u8> = match msgpack::read_bin_or_str(data, &mut pos) {
            Ok(title) => title,
            Err(_) => return Err(MessageError::Malformed),
        };
        let content: Vec<u8> = match msgpack::read_bin_or_str(data, &mut pos) {
            Ok(content) => content,
            Err(_) => return Err(MessageError::Malformed),
        };
        let n: u64 = match msgpack::read_map_len(data, &mut pos) {
            Ok(n) => n,
            Err(_) => return Err(MessageError::Malformed),
        };
        let fields: BTreeMap<u8, Vec<u8>> = match Self::read_fields(data, &mut pos, n) {
            Some(fields) => fields,
            None => return Err(MessageError::Malformed),
        };
        let stamp: Option<[u8; 32]> = if parts == 4 {
            if pos != data.len() {
                return Err(MessageError::Malformed);
            }
            None
        } else if parts == 5 {
            match msgpack::read_bin_or_str(data, &mut pos) {
                Ok(bytes) => {
                    if bytes.len() != 32 || pos != data.len() {
                        return Err(MessageError::Malformed);
                    }
                    Some(bytes::to_array(bytes.as_slice()))
                },
                Err(_) => return Err(MessageError::Malformed),
            }
        } else {
            return Err(MessageError::Malformed);
        };
        let message = LXMessage {
            destination_hash: DestHash::from_slice(vstd::slice::slice_subrange(data, 0, 16)),
            source_hash: DestHash::from_slice(vstd::slice::slice_subrange(data, 16, 32)),
            signature: bytes::to_array(vstd::slice::slice_subrange(data, 32, 96)),
            timestamp,
            title,
            content,
            fields,
            stamp,
            method,
        };
        Ok(message)
    }
}

} // verus!
