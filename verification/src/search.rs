//! The first element of a sequence that a predicate picks, and the least one.

use vstd::prelude::*;

verus! {

/// Whether `i` is the place of the first element of `s` that `p` holds of.
pub open spec fn is_first<A>(s: Seq<A>, p: spec_fn(A) -> bool, i: int) -> bool {
    &&& 0 <= i < s.len()
    &&& p(s[i])
    &&& forall|j: int| 0 <= j < i ==> !p(#[trigger] s[j])
}

/// The place of the first element of `s` that `p` holds of.
pub open spec fn first_index<A>(s: Seq<A>, p: spec_fn(A) -> bool) -> Option<int> {
    if exists|i: int|
        #![trigger is_first(s, p, i)]
        #![trigger s[i]]
        is_first(s, p, i) {
        Some(
            choose|i: int|
                #![trigger is_first(s, p, i)]
                #![trigger s[i]]
                is_first(s, p, i),
        )
    } else {
        None
    }
}

/// There is one first place.
pub proof fn lemma_first_at<A>(s: Seq<A>, p: spec_fn(A) -> bool, i: int)
    requires
        is_first(s, p, i),
    ensures
        first_index(s, p) == Some(i),
{
    let k = choose|k: int| is_first(s, p, k);
    assert(is_first(s, p, k));
    if k < i {
        assert(!p(s[k]));
    }
    if i < k {
        assert(!p(s[i]));
    }
}

/// A first place is found where the predicate holds anywhere, and nowhere else.
pub proof fn lemma_first_index<A>(s: Seq<A>, p: spec_fn(A) -> bool)
    ensures
        match first_index(s, p) {
            Some(i) => is_first(s, p, i),
            None => forall|i: int| 0 <= i < s.len() ==> !p(#[trigger] s[i]),
        },
{
    if first_index(s, p) is None {
        assert forall|i: int| 0 <= i < s.len() implies !p(#[trigger] s[i]) by {
            if p(s[i]) {
                lemma_exists_first(s, p, i);
            }
        }
    }
}

proof fn lemma_exists_first<A>(s: Seq<A>, p: spec_fn(A) -> bool, i: int)
    requires
        0 <= i < s.len(),
        p(s[i]),
    ensures
        exists|k: int| is_first(s, p, k),
    decreases i,
{
    if forall|j: int| 0 <= j < i ==> !p(#[trigger] s[j]) {
        assert(is_first(s, p, i));
    } else {
        let j = choose|j: int| 0 <= j < i && p(#[trigger] s[j]);
        lemma_exists_first(s, p, j);
    }
}

/// A predicate that holds nowhere has no first place.
pub proof fn lemma_first_none<A>(s: Seq<A>, p: spec_fn(A) -> bool)
    requires
        forall|i: int| 0 <= i < s.len() ==> !p(#[trigger] s[i]),
    ensures
        first_index(s, p) is None,
{
    if exists|i: int| is_first(s, p, i) {
        let i = choose|i: int| is_first(s, p, i);
        assert(is_first(s, p, i));
        assert(!p(s[i]));
    }
}

/// Whether `i` is the place of the element of least rank among those of `s` that `p` holds
/// of; the first of them where several rank alike.
pub open spec fn is_least<A>(
    s: Seq<A>,
    p: spec_fn(A) -> bool,
    rank: spec_fn(A) -> int,
    i: int,
) -> bool {
    &&& 0 <= i < s.len()
    &&& p(s[i])
    &&& forall|j: int| 0 <= j < s.len() && p(#[trigger] s[j]) ==> rank(s[i]) <= rank(s[j])
    &&& forall|j: int| 0 <= j < i && p(#[trigger] s[j]) ==> rank(s[i]) < rank(s[j])
}

/// The place of the element of least rank among those of `s` that `p` holds of.
pub open spec fn least<A>(s: Seq<A>, p: spec_fn(A) -> bool, rank: spec_fn(A) -> int) -> Option<
    int,
> {
    if exists|i: int|
        #![trigger is_least(s, p, rank, i)]
        #![trigger s[i]]
        is_least(s, p, rank, i) {
        Some(
            choose|i: int|
                #![trigger is_least(s, p, rank, i)]
                #![trigger s[i]]
                is_least(s, p, rank, i),
        )
    } else {
        None
    }
}

/// There is one least place.
pub proof fn lemma_least_at<A>(
    s: Seq<A>,
    p: spec_fn(A) -> bool,
    rank: spec_fn(A) -> int,
    i: int,
)
    requires
        is_least(s, p, rank, i),
    ensures
        least(s, p, rank) == Some(i),
{
    let k = choose|k: int| is_least(s, p, rank, k);
    assert(is_least(s, p, rank, k));
    assert(p(s[i]) && p(s[k]));
}

/// A predicate that holds nowhere has no least place.
pub proof fn lemma_least_none<A>(s: Seq<A>, p: spec_fn(A) -> bool, rank: spec_fn(A) -> int)
    requires
        forall|i: int| 0 <= i < s.len() ==> !p(#[trigger] s[i]),
    ensures
        least(s, p, rank) is None,
{
    if exists|i: int| is_least(s, p, rank, i) {
        let i = choose|i: int| is_least(s, p, rank, i);
        assert(is_least(s, p, rank, i));
        assert(!p(s[i]));
    }
}

/// The least place of `s` and one more element, by the least place of `s`.
pub proof fn lemma_least_push<A>(
    s: Seq<A>,
    p: spec_fn(A) -> bool,
    rank: spec_fn(A) -> int,
    last: A,
)
    ensures
        least(s.push(last), p, rank) == match least(s, p, rank) {
            Some(i) => if p(last) && rank(last) < rank(s[i]) {
                Some(s.len() as int)
            } else {
                Some(i)
            },
            None => if p(last) {
                Some(s.len() as int)
            } else {
                None
            },
        },
    decreases s.len(), 1int,
{
    let t = s.push(last);
    lemma_least(s, p, rank);
    match least(s, p, rank) {
        Some(i) => {
            if p(last) && rank(last) < rank(s[i]) {
                assert forall|j: int| 0 <= j < s.len() && p(#[trigger] t[j]) implies rank(last)
                    < rank(t[j]) by {
                    assert(t[j] == s[j]);
                }
                assert(is_least(t, p, rank, s.len() as int));
                lemma_least_at(t, p, rank, s.len() as int);
            } else {
                assert(t[i] == s[i]);
                assert forall|j: int| 0 <= j < t.len() && p(#[trigger] t[j]) implies rank(t[i])
                    <= rank(t[j]) by {
                    if j < s.len() {
                        assert(t[j] == s[j]);
                    }
                }
                assert forall|j: int| 0 <= j < i && p(#[trigger] t[j]) implies rank(t[i]) < rank(
                    t[j],
                ) by {
                    assert(t[j] == s[j]);
                }
                assert(is_least(t, p, rank, i));
                lemma_least_at(t, p, rank, i);
            }
        },
        None => {
            assert forall|j: int| 0 <= j < s.len() implies !p(#[trigger] t[j]) by {
                assert(t[j] == s[j]);
            }
            if p(last) {
                assert(is_least(t, p, rank, s.len() as int));
                lemma_least_at(t, p, rank, s.len() as int);
            } else {
                lemma_least_none(t, p, rank);
            }
        },
    }
}

/// A least place is found where the predicate holds anywhere, and nowhere else.
pub proof fn lemma_least<A>(s: Seq<A>, p: spec_fn(A) -> bool, rank: spec_fn(A) -> int)
    ensures
        match least(s, p, rank) {
            Some(i) => is_least(s, p, rank, i),
            None => forall|i: int| 0 <= i < s.len() ==> !p(#[trigger] s[i]),
        },
    decreases s.len(), 0int,
{
    if s.len() > 0 {
        let rest = s.drop_last();
        lemma_least(rest, p, rank);
        lemma_least_push(rest, p, rank, s.last());
        assert(rest.push(s.last()) =~= s);
        if least(s, p, rank) is None {
            assert forall|i: int| 0 <= i < s.len() implies !p(#[trigger] s[i]) by {
                if i < rest.len() {
                    assert(rest[i] == s[i]);
                }
            }
        }
    }
}

} // verus!
