//! Tables keyed by destination: an unbounded one, and one of fixed capacity that
//! hands an entry back when it has no room for it.

use crate::hash::DestHash;
use vstd::prelude::*;

verus! {

/// Whether the table `s` has an entry for `key`.
pub open spec fn has_key<V>(s: Seq<(DestHash, V)>, key: DestHash) -> bool {
    exists|i: int| 0 <= i < s.len() && (#[trigger] s[i]).0 == key
}

/// Where `key` stands in the table `s`.
pub open spec fn key_index<V>(s: Seq<(DestHash, V)>, key: DestHash) -> int {
    choose|i: int| 0 <= i < s.len() && (#[trigger] s[i]).0 == key
}

/// Whether `i` is where `key` stands in the table `s`.
pub open spec fn key_stands_at<V>(s: Seq<(DestHash, V)>, key: DestHash, i: int) -> bool {
    0 <= i < s.len() && s[i].0 == key
}

/// What the table `s` holds for `key`.
pub open spec fn lookup<V>(s: Seq<(DestHash, V)>, key: DestHash) -> Option<V> {
    if has_key(s, key) {
        Some(s[key_index(s, key)].1)
    } else {
        None
    }
}

/// No two entries of `s` share a key.
pub open spec fn distinct_keys<V>(s: Seq<(DestHash, V)>) -> bool {
    forall|i: int, j: int|
        0 <= i < s.len() && 0 <= j < s.len() && s[i].0 == s[j].0 ==> i == j
}

/// `s` with `value` for `key`: in the place of the entry that `key` has, else behind all others.
pub open spec fn put<V>(s: Seq<(DestHash, V)>, key: DestHash, value: V) -> Seq<(DestHash, V)> {
    if has_key(s, key) {
        s.update(key_index(s, key), (key, value))
    } else {
        s.push((key, value))
    }
}

/// `s` without the entry for `key`; the others keep their order.
pub open spec fn without<V>(s: Seq<(DestHash, V)>, key: DestHash) -> Seq<(DestHash, V)> {
    if has_key(s, key) {
        s.remove(key_index(s, key))
    } else {
        s
    }
}

/// In a table of distinct keys a key stands in one place.
pub proof fn lemma_key_index<V>(s: Seq<(DestHash, V)>, key: DestHash, i: int)
    requires
        distinct_keys(s),
        key_stands_at(s, key, i),
    ensures
        has_key(s, key),
        key_index(s, key) == i,
        lookup(s, key) == Some(s[i].1),
{
    assert(key_stands_at(s, key, key_index(s, key)));
}

/// A table holds for a key what its entry says, and nothing for a key without an entry.
pub proof fn law_lookup<V>(s: Seq<(DestHash, V)>, key: DestHash)
    requires
        distinct_keys(s),
    ensures
        forall|i: int|
            0 <= i < s.len() && (#[trigger] s[i]).0 == key ==> lookup(s, key) == Some(s[i].1)
                && has_key(s, key) && key_index(s, key) == i,
        (forall|i: int| 0 <= i < s.len() ==> (#[trigger] s[i]).0 != key) ==> lookup(s, key) is None
            && !has_key(s, key),
{
    assert forall|i: int| 0 <= i < s.len() && (#[trigger] s[i]).0 == key implies lookup(s, key)
        == Some(s[i].1) && has_key(s, key) && key_index(s, key) == i by {
        lemma_key_index(s, key, i);
    }
}

/// An entry takes the place of the one that its key has, and else comes behind all others;
/// the other entries stay where they are. An entry that leaves lets the others keep their
/// order.
pub proof fn law_places<V>(s: Seq<(DestHash, V)>, key: DestHash, value: V)
    requires
        distinct_keys(s),
    ensures
        forall|i: int|
            0 <= i < s.len() && (#[trigger] s[i]).0 == key ==> put(s, key, value) == s.update(
                i,
                (key, value),
            ) && without(s, key) == s.remove(i),
        (forall|i: int| 0 <= i < s.len() ==> (#[trigger] s[i]).0 != key) ==> put(s, key, value)
            == s.push((key, value)) && without(s, key) == s,
{
    law_lookup(s, key);
}

/// What is put is found, every other key is left as it was, and keys stay distinct.
pub proof fn law_put<V>(s: Seq<(DestHash, V)>, key: DestHash, value: V)
    requires
        distinct_keys(s),
    ensures
        distinct_keys(put(s, key, value)),
        lookup(put(s, key, value), key) == Some(value),
        forall|other: DestHash| other != key ==> #[trigger] lookup(put(s, key, value), other)
            == lookup(s, other),
        put(s, key, value).len() == s.len() + if has_key(s, key) {
            0int
        } else {
            1int
        },
{
    let t = put(s, key, value);
    if has_key(s, key) {
        let at = key_index(s, key);
        assert(key_stands_at(s, key, at));
        assert(distinct_keys(t)) by {
            assert forall|i: int, j: int|
                0 <= i < t.len() && 0 <= j < t.len() && t[i].0 == t[j].0 implies i == j by {
                assert(t[i].0 == s[i].0);
                assert(t[j].0 == s[j].0);
            }
        }
        lemma_key_index(t, key, at);
    } else {
        assert forall|i: int| 0 <= i < s.len() implies (#[trigger] s[i]).0 != key by {
            if s[i].0 == key {
                assert(key_stands_at(s, key, i));
            }
        }
        lemma_key_index(t, key, s.len() as int);
    }
    assert forall|other: DestHash| other != key implies #[trigger] lookup(t, other) == lookup(
        s,
        other,
    ) by {
        if has_key(s, other) {
            let i = key_index(s, other);
            assert(key_stands_at(s, other, i));
            assert(t[i] == s[i]);
            lemma_key_index(t, other, i);
        } else if has_key(t, other) {
            let i = key_index(t, other);
            assert(key_stands_at(t, other, i));
            assert(key_stands_at(s, other, i));
        }
    }
}

/// What is removed is no longer found, every other key is left as it was, and keys stay
/// distinct.
pub proof fn law_without<V>(s: Seq<(DestHash, V)>, key: DestHash)
    requires
        distinct_keys(s),
    ensures
        distinct_keys(without(s, key)),
        lookup(without(s, key), key) is None,
        forall|other: DestHash| other != key ==> #[trigger] lookup(without(s, key), other)
            == lookup(s, other),
        without(s, key).len() == s.len() - if has_key(s, key) {
            1int
        } else {
            0int
        },
{
    let t = without(s, key);
    if has_key(s, key) {
        let at = key_index(s, key);
        assert(key_stands_at(s, key, at));
        assert forall|i: int| 0 <= i < t.len() implies #[trigger] t[i] == s[if i < at {
            i
        } else {
            i + 1
        }] by {}
        assert(distinct_keys(t));
        if has_key(t, key) {
            let i = key_index(t, key);
            assert(key_stands_at(t, key, i));
            assert(t[i].0 == key);
        }
        assert forall|other: DestHash| other != key implies #[trigger] lookup(t, other) == lookup(
            s,
            other,
        ) by {
            if has_key(s, other) {
                let i = key_index(s, other);
                assert(key_stands_at(s, other, i));
                let k = if i < at {
                    i
                } else {
                    i - 1
                };
                assert(t[k] == s[i]);
                lemma_key_index(t, other, k);
            } else if has_key(t, other) {
                let i = key_index(t, other);
                assert(key_stands_at(t, other, i));
                assert(key_stands_at(
                    s,
                    other,
                    if i < at {
                        i
                    } else {
                        i + 1
                    },
                ));
            }
        }
    }
}

/// Keys stay distinct where entries are left out.
pub proof fn lemma_filter_distinct<V>(
    s: Seq<(DestHash, V)>,
    p: spec_fn((DestHash, V)) -> bool,
)
    requires
        distinct_keys(s),
    ensures
        distinct_keys(s.filter(p)),
    decreases s.len(),
{
    reveal(Seq::filter);
    if s.len() > 0 {
        let rest = s.drop_last();
        assert(distinct_keys(rest));
        lemma_filter_distinct(rest, p);
        let t = rest.filter(p);
        assert forall|i: int| 0 <= i < t.len() implies (#[trigger] t[i]).0 != s.last().0 by {
            assert(t.contains(t[i]));
            rest.lemma_filter_contains_rev(p, t[i]);
            let k = choose|k: int| 0 <= k < rest.len() && rest[k] == t[i];
            assert(s[k].0 != s[s.len() - 1].0);
        }
    }
}

/// A key that a table does not have is not there either once another entry has left.
pub proof fn lemma_still_absent<V>(s: Seq<(DestHash, V)>, at: int, key: DestHash)
    requires
        0 <= at < s.len(),
        !has_key(s, key),
    ensures
        !has_key(s.remove(at), key),
{
    if has_key(s.remove(at), key) {
        let i = key_index(s.remove(at), key);
        assert(key_stands_at(s.remove(at), key, i));
        let k = if i < at {
            i
        } else {
            i + 1
        };
        assert(key_stands_at(s, key, k));
    }
}

/// A table without a bound on its size.
pub struct DestMap<V> {
    pub entries: Vec<(DestHash, V)>,
}

impl<V> View for DestMap<V> {
    type V = Seq<(DestHash, V)>;

    open spec fn view(&self) -> Seq<(DestHash, V)> {
        self.entries@
    }
}

impl<V> DestMap<V> {
    /// No destination has two entries.
    pub open spec fn wf(&self) -> bool {
        distinct_keys(self@)
    }

    /// An empty table.
    pub fn new() -> (map: Self)
        ensures
            map.wf(),
            map@ == Seq::<(DestHash, V)>::empty(),
    {
        DestMap { entries: Vec::new() }
    }

    /// How many entries there are.
    pub fn len(&self) -> (n: usize)
        ensures
            n == self@.len(),
    {
        self.entries.len()
    }

    /// Where `key` stands.
    pub fn position(&self, key: &DestHash) -> (index: Option<usize>)
        requires
            self.wf(),
        ensures
            match index {
                Some(i) => has_key(self@, *key) && key_index(self@, *key) == i && i
                    < self@.len() && self@[i as int].0 == *key,
                None => !has_key(self@, *key),
            },
    {
        let mut i: usize = 0;
        while i < self.entries.len()
            invariant
                self.wf(),
                i <= self.entries.len(),
                forall|j: int| 0 <= j < i ==> (#[trigger] self@[j]).0 != *key,
            decreases self.entries.len() - i,
        {
            if self.entries[i].0 == *key {
                proof {
                    lemma_key_index(self@, *key, i as int);
                }
                return Some(i);
            }
            i += 1;
        }
        None
    }

    /// Whether `key` has an entry.
    pub fn contains_key(&self, key: &DestHash) -> (found: bool)
        requires
            self.wf(),
        ensures
            found == has_key(self@, *key),
    {
        self.position(key).is_some()
    }

    /// What is held for `key`.
    pub fn get(&self, key: &DestHash) -> (value: Option<&V>)
        requires
            self.wf(),
        ensures
            match value {
                Some(v) => lookup(self@, *key) == Some(*v),
                None => lookup(self@, *key) is None,
            },
    {
        match self.position(key) {
            Some(i) => Some(&self.entries[i].1),
            None => None,
        }
    }

    /// Holds `value` for `key` from now on, and returns what was held before.
    pub fn insert(&mut self, key: DestHash, value: V) -> (before: Option<V>)
        requires
            old(self).wf(),
        ensures
            final(self).wf(),
            final(self)@ == put(old(self)@, key, value),
            lookup(final(self)@, key) == Some(value),
            before == lookup(old(self)@, key),
    {
        proof {
            law_put(self@, key, value);
        }
        match self.position(&key) {
            Some(i) => {
                let mut slot = (key, value);
                std::mem::swap(&mut self.entries[i], &mut slot);
                Some(slot.1)
            },
            None => {
                self.entries.push((key, value));
                None
            },
        }
    }

    /// Drops the entry for `key`, and returns what was held.
    pub fn remove(&mut self, key: &DestHash) -> (before: Option<V>)
        requires
            old(self).wf(),
        ensures
            final(self).wf(),
            final(self)@ == without(old(self)@, *key),
            lookup(final(self)@, *key) is None,
            before == lookup(old(self)@, *key),
    {
        proof {
            law_without(self@, *key);
        }
        match self.position(key) {
            Some(i) => Some(self.entries.remove(i).1),
            None => None,
        }
    }
}

/// A table that holds no more than `capacity` entries.
pub struct StorageMap<V> {
    pub map: DestMap<V>,
    pub capacity: usize,
}

impl<V> View for StorageMap<V> {
    type V = Seq<(DestHash, V)>;

    open spec fn view(&self) -> Seq<(DestHash, V)> {
        self.map@
    }
}

/// What a table stands for is its entries. It is in order exactly if no key has two of them
/// and, where it is bounded, they do not exceed its capacity; it is full when they reach
/// it.
pub proof fn law_tables<V>(map: DestMap<V>, table: StorageMap<V>)
    ensures
        map@ == map.entries@,
        map.wf() <==> distinct_keys(map.entries@),
        table@ == table.map.entries@,
        table.wf() <==> distinct_keys(table.map.entries@) && table.map.entries@.len()
            <= table.capacity,
        table.is_full() <==> table.map.entries@.len() >= table.capacity,
{
}

impl<V> StorageMap<V> {
    /// No destination has two entries, and they do not exceed the capacity.
    pub open spec fn wf(&self) -> bool {
        &&& self.map.wf()
        &&& self@.len() <= self.capacity
    }

    /// Whether an entry for a destination that has none would exceed the capacity.
    pub open spec fn is_full(&self) -> bool {
        self@.len() >= self.capacity
    }

    /// An empty table that takes `capacity` entries.
    pub fn new(capacity: usize) -> (table: Self)
        ensures
            table.wf(),
            table@ == Seq::<(DestHash, V)>::empty(),
            table.capacity == capacity,
    {
        StorageMap { map: DestMap::new(), capacity }
    }

    /// How many entries there are.
    pub fn len(&self) -> (n: usize)
        ensures
            n == self@.len(),
    {
        self.map.len()
    }

    /// What is held for `key`.
    pub fn get(&self, key: &DestHash) -> (value: Option<&V>)
        requires
            self.wf(),
        ensures
            match value {
                Some(v) => lookup(self@, *key) == Some(*v),
                None => lookup(self@, *key) is None,
            },
    {
        self.map.get(key)
    }

    /// Holds `value` for `key` from now on and returns what was held before; a new
    /// key that finds the table full comes back with its value.
    pub fn insert(&mut self, key: DestHash, value: V) -> (result: Result<Option<V>, (DestHash, V)>)
        requires
            old(self).wf(),
        ensures
            final(self).wf(),
            final(self).capacity == old(self).capacity,
            match result {
                Ok(before) => (has_key(old(self)@, key) || !old(self).is_full()) && final(self)@
                    == put(old(self)@, key, value) && lookup(final(self)@, key) == Some(value)
                    && before == lookup(old(self)@, key),
                Err(refused) => !has_key(old(self)@, key) && old(self).is_full() && final(self)@
                    == old(self)@ && refused == (key, value),
            },
    {
        if self.map.len() >= self.capacity && !self.map.contains_key(&key) {
            return Err((key, value));
        }
        proof {
            law_put(self@, key, value);
        }
        Ok(self.map.insert(key, value))
    }

    /// Drops the entry for `key`, and returns what was held.
    pub fn remove(&mut self, key: &DestHash) -> (before: Option<V>)
        requires
            old(self).wf(),
        ensures
            final(self).wf(),
            final(self).capacity == old(self).capacity,
            final(self)@ == without(old(self)@, *key),
            lookup(final(self)@, *key) is None,
            before == lookup(old(self)@, *key),
    {
        proof {
            law_without(self@, *key);
        }
        self.map.remove(key)
    }
}

} // verus!
