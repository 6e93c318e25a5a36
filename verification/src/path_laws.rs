//! What holds of the path table and the known identities across operations.

use crate::hash::{DestHash, IdentityHash};
use crate::path::Path;
use crate::snapshot::{IdentityEntry, PathEntry, Snapshot, SnapshotDetail};
use crate::{path, search, storage, transport};
use vstd::prelude::*;

verus! {

/// When a path ends: its lifetime after it was learned, or at the end of time.
pub open spec fn ends(p: Path) -> int {
    if p.learned_at + p.lifetime <= u64::MAX {
        p.learned_at + p.lifetime
    } else {
        u64::MAX as int
    }
}

/// The end of a path is reckoned from when it was learned and for how long it stays good.
pub proof fn law_path_end(p: Path)
    ensures
        p.expires_at() == ends(p),
{
}

/// The announce of a path is what is kept with it.
pub proof fn law_path_announce(p: Path)
    ensures
        p.announce() == match p.announce_raw {
            Some(cache) => Some(cache.bytes@),
            None => None,
        },
{
}

/// The tables of a node are in order exactly if no destination is in one of them twice and
/// neither exceeds its capacity.
pub proof fn law_transport_in_order(t: transport::Transport)
    ensures
        t.wf() <==> {
            &&& storage::distinct_keys(t.paths@)
            &&& t.paths@.len() <= t.paths.capacity
            &&& storage::distinct_keys(t.known_identities@)
            &&& t.known_identities@.len() <= t.known_identities.capacity
        },
{
}

/// Whether `paths` holds a path over a shared medium to `dest`.
pub open spec fn shares_medium(paths: Seq<(DestHash, Path)>, dest: DestHash) -> bool {
    storage::lookup(paths, dest) matches Some(p) && p.shared_medium
}

/// An identity is reserved exactly by a path over a shared medium to its destination.
pub proof fn law_reserved(paths: Seq<(DestHash, Path)>, dest: DestHash)
    ensures
        transport::is_reserved(paths, dest) <==> shares_medium(paths, dest),
{
}

/// An entry that leaves takes its key along; all others are found as before.
proof fn lemma_leaves<V>(s: Seq<(DestHash, V)>, at: int, dest: DestHash, value: V)
    requires
        storage::distinct_keys(s),
        0 <= at < s.len(),
        !storage::has_key(s, dest),
    ensures
        storage::distinct_keys(s.remove(at).push((dest, value))),
        storage::lookup(s.remove(at).push((dest, value)), dest) == Some(value),
        storage::lookup(s.remove(at).push((dest, value)), s[at].0) is None,
        storage::lookup(s, s[at].0) == Some(s[at].1),
        forall|other: DestHash|
            other != dest && other != s[at].0 ==> #[trigger] storage::lookup(
                s.remove(at).push((dest, value)),
                other,
            ) == storage::lookup(s, other),
{
    let rest = s.remove(at);
    storage::lemma_key_index(s, s[at].0, at);
    storage::law_without(s, s[at].0);
    storage::lemma_still_absent(s, at, dest);
    storage::law_put(rest, dest, value);
    assert(dest != s[at].0) by {
        if dest == s[at].0 {
            assert(storage::key_stands_at(s, dest, at));
        }
    }
    assert(storage::put(rest, dest, value) == rest.push((dest, value)));
}

/// A path that was taken in is the one found from then on, and the table stays within its
/// capacity.
pub proof fn law_inserted_path_is_found(
    s: Seq<(DestHash, Path)>,
    capacity: nat,
    dest: DestHash,
    incoming: Path,
)
    requires
        storage::distinct_keys(s),
        s.len() <= capacity,
    ensures
        transport::paths_with(s, capacity, dest, incoming) matches Some(t) ==> {
            &&& storage::lookup(t, dest) == Some(incoming)
            &&& storage::distinct_keys(t)
            &&& t.len() <= capacity
        },
{
    storage::law_put(s, dest, incoming);
    lemma_path_victim(s, incoming);
    if let Some(i) = transport::path_victim(s, incoming) {
        if !storage::has_key(s, dest) {
            lemma_leaves(s, i, dest, incoming);
        }
    }
}

/// What the choice of a victim comes to.
proof fn lemma_path_victim(s: Seq<(DestHash, Path)>, incoming: Path)
    ensures
        ({
            let ended = transport::has_expired(incoming.learned_at);
            let point_to_point = transport::is_point_to_point();
            match transport::path_victim(s, incoming) {
                Some(i) => {
                    ||| search::is_least(s, ended, transport::by_expiry(), i)
                    ||| {
                        &&& forall|j: int| 0 <= j < s.len() ==> !ended(#[trigger] s[j])
                        &&& search::is_least(s, point_to_point, transport::by_access(), i)
                    }
                    ||| {
                        &&& forall|j: int|
                            0 <= j < s.len() ==> !ended(#[trigger] s[j]) && !point_to_point(s[j])
                        &&& incoming.shared_medium
                        &&& search::is_least(s, transport::is_any(), transport::by_access(), i)
                    }
                },
                None => {
                    &&& forall|j: int|
                        0 <= j < s.len() ==> !ended(#[trigger] s[j]) && !point_to_point(s[j])
                    &&& !incoming.shared_medium || s.len() == 0
                },
            }
        }),
{
    search::lemma_least(s, transport::has_expired(incoming.learned_at), transport::by_expiry());
    search::lemma_least(s, transport::is_point_to_point(), transport::by_access());
    search::lemma_least(s, transport::is_any(), transport::by_access());
    if s.len() > 0 {
        assert(transport::is_any()(s[0]));
    }
}

/// A path is refused only by a full table all of whose paths are good and lead over a
/// shared medium, and only where it leads point to point itself; and there it is refused.
pub proof fn law_refused_path(
    s: Seq<(DestHash, Path)>,
    capacity: nat,
    dest: DestHash,
    incoming: Path,
)
    requires
        s.len() <= capacity,
        capacity > 0,
    ensures
        transport::paths_with(s, capacity, dest, incoming) is None <==> {
            &&& s.len() == capacity
            &&& !storage::has_key(s, dest)
            &&& !incoming.shared_medium
            &&& forall|i: int|
                0 <= i < s.len() ==> (#[trigger] s[i]).1.shared_medium && incoming.learned_at
                    < ends(s[i].1)
        },
{
    lemma_path_victim(s, incoming);
    if forall|i: int|
        0 <= i < s.len() ==> (#[trigger] s[i]).1.shared_medium && incoming.learned_at
            < ends(s[i].1) {
        assert forall|j: int| 0 <= j < s.len() implies !transport::has_expired(incoming.learned_at)(
            #[trigger] s[j],
        ) && !transport::is_point_to_point()(s[j]) by {}
    } else {
        let i = choose|i: int|
            0 <= i < s.len() && !((#[trigger] s[i]).1.shared_medium && incoming.learned_at
                < ends(s[i].1));
        assert(transport::has_expired(incoming.learned_at)(s[i])
            || transport::is_point_to_point()(s[i]));
    }
}

/// What comes in point to point never displaces a path over a shared medium that is still
/// good.
pub proof fn law_shared_paths_are_reserved(
    s: Seq<(DestHash, Path)>,
    capacity: nat,
    dest: DestHash,
    incoming: Path,
    other: DestHash,
)
    requires
        storage::distinct_keys(s),
        !incoming.shared_medium,
        shares_medium(s, other),
        incoming.learned_at < ends(storage::lookup(s, other)->0),
        other != dest,
    ensures
        transport::paths_with(s, capacity, dest, incoming) matches Some(t) ==> storage::lookup(
            t,
            other,
        ) == storage::lookup(s, other),
{
    storage::law_put(s, dest, incoming);
    lemma_path_victim(s, incoming);
    if let Some(i) = transport::path_victim(s, incoming) {
        if !storage::has_key(s, dest) {
            lemma_leaves(s, i, dest, incoming);
        }
    }
}

/// Whether the path to `gone` is the one that a full table `s` gives up first for `incoming`.
pub open spec fn goes_first(s: Seq<(DestHash, Path)>, incoming: Path, gone: Path) -> bool {
    if exists|j: int| 0 <= j < s.len() && incoming.learned_at >= ends((#[trigger] s[j]).1) {
        &&& incoming.learned_at >= ends(gone)
        &&& forall|j: int|
            0 <= j < s.len() ==> ends(gone) <= ends((#[trigger] s[j]).1)
    } else if exists|j: int| 0 <= j < s.len() && !(#[trigger] s[j]).1.shared_medium {
        &&& !gone.shared_medium
        &&& forall|j: int|
            0 <= j < s.len() && !(#[trigger] s[j]).1.shared_medium ==> gone.last_accessed
                <= s[j].1.last_accessed
    } else {
        &&& incoming.shared_medium
        &&& forall|j: int|
            0 <= j < s.len() ==> gone.last_accessed <= (#[trigger] s[j]).1.last_accessed
    }
}

/// A path that a full table gives up is the one that ended first, if any has ended; else
/// the point to point path that was used longest ago, if there is one; else, for a path
/// over a shared medium alone, the one that was used longest ago. No other path leaves.
pub proof fn law_path_eviction_order(
    s: Seq<(DestHash, Path)>,
    capacity: nat,
    dest: DestHash,
    incoming: Path,
    gone: DestHash,
)
    requires
        storage::distinct_keys(s),
        storage::has_key(s, gone),
        gone != dest,
    ensures
        transport::paths_with(s, capacity, dest, incoming) matches Some(t) ==> {
            ||| storage::lookup(t, gone) == storage::lookup(s, gone)
            ||| {
                &&& storage::lookup(t, gone) is None
                &&& s.len() >= capacity
                &&& !storage::has_key(s, dest)
                &&& goes_first(s, incoming, storage::lookup(s, gone)->0)
                &&& forall|other: DestHash|
                    other != dest && other != gone ==> #[trigger] storage::lookup(t, other)
                        == storage::lookup(s, other)
            }
        },
{
    storage::law_put(s, dest, incoming);
    lemma_path_victim(s, incoming);
    if let Some(i) = transport::path_victim(s, incoming) {
        if !storage::has_key(s, dest) && s.len() >= capacity {
            lemma_leaves(s, i, dest, incoming);
            if gone == s[i].0 {
                let p = s[i].1;
                let ended = transport::has_expired(incoming.learned_at);
                let point_to_point = transport::is_point_to_point();
                if search::is_least(s, ended, transport::by_expiry(), i) {
                    assert(incoming.learned_at >= ends(s[i].1));
                    assert forall|j: int| 0 <= j < s.len() implies ends(p) <= ends(
                        (#[trigger] s[j]).1,
                    ) by {
                        if ended(s[j]) {
                            assert(transport::by_expiry()(s[i]) <= transport::by_expiry()(s[j]));
                        }
                    }
                } else {
                    assert forall|j: int| 0 <= j < s.len() implies incoming.learned_at < ends(
                        (#[trigger] s[j]).1,
                    ) by {
                        assert(!ended(s[j]));
                    }
                    if search::is_least(s, point_to_point, transport::by_access(), i) {
                        assert(transport::is_point_to_point()(s[i]));
                        assert(!s[i].1.shared_medium);
                        assert forall|j: int|
                            0 <= j < s.len() && !(
                            #[trigger] s[j]).1.shared_medium implies p.last_accessed
                            <= s[j].1.last_accessed by {
                            assert(transport::is_point_to_point()(s[j]));
                            assert(transport::by_access()(s[i]) <= transport::by_access()(s[j]));
                        }
                    } else {
                        assert forall|j: int| 0 <= j < s.len() implies (
                        #[trigger] s[j]).1.shared_medium by {
                            assert(!transport::is_point_to_point()(s[j]));
                        }
                        assert forall|j: int| 0 <= j < s.len() implies p.last_accessed <= (
                        #[trigger] s[j]).1.last_accessed by {
                            assert(transport::is_any()(s[j]));
                            assert(transport::by_access()(s[i]) <= transport::by_access()(s[j]));
                        }
                    }
                }
            }
        }
    }
}

/// A path for a destination that has one, or for which there is room, displaces no other:
/// every other destination has the path that it had.
pub proof fn law_insert_without_eviction(
    s: Seq<(DestHash, Path)>,
    capacity: nat,
    dest: DestHash,
    incoming: Path,
    other: DestHash,
)
    requires
        storage::distinct_keys(s),
        s.len() < capacity || exists|i: int| 0 <= i < s.len() && (#[trigger] s[i]).0 == dest,
        other != dest,
    ensures
        transport::paths_with(s, capacity, dest, incoming) matches Some(t) && storage::lookup(
            t,
            other,
        ) == storage::lookup(s, other) && storage::lookup(t, dest) == Some(incoming) && t.len()
            == s.len() + if storage::lookup(s, dest) is Some {
            0int
        } else {
            1int
        },
{
    storage::law_put(s, dest, incoming);
}

/// For a new destination a full table gives up the path that goes first, of several such
/// the one that stands first, and no other; the new path comes behind all others.
pub proof fn law_path_that_leaves(
    s: Seq<(DestHash, Path)>,
    capacity: nat,
    dest: DestHash,
    incoming: Path,
    i: int,
)
    requires
        s.len() >= capacity,
        forall|j: int| 0 <= j < s.len() ==> (#[trigger] s[j]).0 != dest,
        0 <= i < s.len(),
        goes_first(s, incoming, s[i].1),
        forall|j: int| 0 <= j < i ==> !goes_first(s, incoming, (#[trigger] s[j]).1),
    ensures
        transport::paths_with(s, capacity, dest, incoming) == Some(
            s.remove(i).push((dest, incoming)),
        ),
{
    let ended = transport::has_expired(incoming.learned_at);
    let point_to_point = transport::is_point_to_point();
    if exists|j: int| 0 <= j < s.len() && incoming.learned_at >= ends((#[trigger] s[j]).1) {
        assert(search::is_least(s, ended, transport::by_expiry(), i)) by {
            assert(ended(s[i]));
            assert forall|j: int| 0 <= j < i && ended(#[trigger] s[j]) implies
                transport::by_expiry()(s[i]) < transport::by_expiry()(s[j]) by {
                assert(!goes_first(s, incoming, s[j].1));
                if ends(s[j].1) <= ends(s[i].1) {
                    assert forall|k: int| 0 <= k < s.len() implies ends(s[j].1) <= ends(
                        (#[trigger] s[k]).1,
                    ) by {
                        assert(ends(s[i].1) <= ends(s[k].1));
                    }
                }
            }
        }
        search::lemma_least_at(s, ended, transport::by_expiry(), i);
    } else {
        assert forall|j: int| 0 <= j < s.len() implies !ended(#[trigger] s[j]) by {
            assert(incoming.learned_at < ends(s[j].1));
        }
        search::lemma_least_none(s, ended, transport::by_expiry());
        if exists|j: int| 0 <= j < s.len() && !(#[trigger] s[j]).1.shared_medium {
            assert(search::is_least(s, point_to_point, transport::by_access(), i)) by {
                assert(point_to_point(s[i]));
                assert forall|j: int| 0 <= j < i && point_to_point(#[trigger] s[j]) implies
                    transport::by_access()(s[i]) < transport::by_access()(s[j]) by {
                    assert(!goes_first(s, incoming, s[j].1));
                    if s[j].1.last_accessed <= s[i].1.last_accessed {
                        assert forall|k: int|
                            0 <= k < s.len() && !(
                            #[trigger] s[k]).1.shared_medium implies s[j].1.last_accessed
                            <= s[k].1.last_accessed by {
                            assert(s[i].1.last_accessed <= s[k].1.last_accessed);
                        }
                    }
                }
            }
            search::lemma_least_at(s, point_to_point, transport::by_access(), i);
        } else {
            assert forall|j: int| 0 <= j < s.len() implies !point_to_point(#[trigger] s[j]) by {
                assert(s[j].1.shared_medium);
            }
            search::lemma_least_none(s, point_to_point, transport::by_access());
            assert(search::is_least(s, transport::is_any(), transport::by_access(), i)) by {
                assert forall|j: int| 0 <= j < i implies transport::by_access()(s[i])
                    < transport::by_access()(#[trigger] s[j]) by {
                    assert(!goes_first(s, incoming, s[j].1));
                    if s[j].1.last_accessed <= s[i].1.last_accessed {
                        assert forall|k: int| 0 <= k < s.len() implies s[j].1.last_accessed <= (
                        #[trigger] s[k]).1.last_accessed by {
                            assert(s[i].1.last_accessed <= s[k].1.last_accessed);
                        }
                    }
                }
            }
            search::lemma_least_at(s, transport::is_any(), transport::by_access(), i);
        }
    }
}

/// The path that is set up for a peer that is registered by hand.
pub proof fn law_direct_path(now: u64)
    ensures
        path::direct_path(now).via is None,
        path::direct_path(now).hops == 0,
        path::direct_path(now).learned_at == now,
        path::direct_path(now).last_accessed == now,
        path::direct_path(now).last_snr is None,
        path::direct_path(now).announce_raw is None,
        path::direct_path(now).shared_medium,
        path::direct_path(now).lifetime == path::PATH_LIFETIME,
{
}

/// Once the paths by `via` are forgotten none goes that way, and every other path is left.
pub proof fn law_paths_via_are_gone(s: Seq<(DestHash, Path)>, via: IdentityHash)
    ensures
        forall|e: (DestHash, Path)| #[trigger]
            s.filter(transport::avoids(via)).contains(e) <==> s.contains(e) && e.1.via != Some(via),
{
    assert forall|e: (DestHash, Path)| #[trigger]
        s.filter(transport::avoids(via)).contains(e) <==> s.contains(e) && e.1.via != Some(via) by {
        if s.filter(transport::avoids(via)).contains(e) {
            s.lemma_filter_contains_rev(transport::avoids(via), e);
            let k = s.filter(transport::avoids(via)).index_of(e);
            s.lemma_filter_pred(transport::avoids(via), k);
            assert(transport::avoids(via)(e));
        }
        if s.contains(e) && e.1.via != Some(via) {
            let i = s.index_of(e);
            assert(transport::avoids(via)(s[i]));
            s.lemma_filter_contains(transport::avoids(via), i);
        }
    }
}

/// Forgetting the paths by `via` leaves every destination whose path goes another way, or
/// by no next hop, the path that it had, and the others none.
pub proof fn law_lookup_without_via(s: Seq<(DestHash, Path)>, via: IdentityHash, dest: DestHash)
    requires
        storage::distinct_keys(s),
    ensures
        storage::lookup(s.filter(transport::avoids(via)), dest) == match storage::lookup(s, dest) {
            Some(p) => if p.via == Some(via) {
                None
            } else {
                Some(p)
            },
            None => None,
        },
{
    let t = s.filter(transport::avoids(via));
    storage::lemma_filter_distinct(s, transport::avoids(via));
    law_paths_via_are_gone(s, via);
    storage::law_lookup(s, dest);
    storage::law_lookup(t, dest);
    if storage::has_key(t, dest) {
        let e = t[storage::key_index(t, dest)];
        assert(t.contains(e));
        assert(s.contains(e));
        let i = s.index_of(e);
        assert(s[i].0 == dest);
    }
    if storage::has_key(s, dest) {
        let e = s[storage::key_index(s, dest)];
        assert(s.contains(e));
        if e.1.via != Some(via) {
            assert(t.contains(e));
            let i = t.index_of(e);
            assert(t[i].0 == dest);
        }
    }
}

/// The announces for a new peer are those kept with the paths, one for each path that keeps
/// one, in the order of the paths.
pub proof fn law_cached_announces(s: Seq<(DestHash, Path)>, e: (DestHash, Path))
    ensures
        transport::announces(Seq::empty()).len() == 0,
        transport::announces(s.push(e)) == match e.1.announce_raw {
            Some(cache) => transport::announces(s).push(cache.bytes@),
            None => transport::announces(s),
        },
{
    reveal(Seq::filter);
    assert(s.push(e).drop_last() =~= s);
    assert(transport::announces(s.push(e)) =~= match e.1.announce_raw {
        Some(cache) => transport::announces(s).push(cache.bytes@),
        None => transport::announces(s),
    });
}

/// An announce that is kept with the path to `dest` is among those for a new peer.
pub proof fn law_kept_announce_is_cached(s: Seq<(DestHash, Path)>, dest: DestHash)
    requires
        storage::lookup(s, dest) is Some,
        storage::lookup(s, dest)->0.announce() is Some,
    ensures
        transport::announces(s).contains(storage::lookup(s, dest)->0.announce()->0),
{
    let i = storage::key_index(s, dest);
    assert(storage::key_stands_at(s, dest, i));
    assert(transport::has_announce()(s[i]));
    s.lemma_filter_contains(transport::has_announce(), i);
    let k = s.filter(transport::has_announce()).index_of(s[i]);
    assert(transport::announces(s)[k] == transport::announce_bytes()(s[i]));
}

/// What the choice of an identity to give up comes to.
proof fn lemma_identity_victim(
    ids: Seq<(DestHash, [u8; 64])>,
    paths: Seq<(DestHash, Path)>,
    shared_medium: bool,
)
    ensures
        ({
            let may_leave = transport::may_leave(paths);
            let rank = transport::by_path_access(paths);
            match transport::identity_victim(ids, paths, shared_medium) {
                Some(i) => {
                    ||| search::is_least(ids, may_leave, rank, i)
                    ||| {
                        &&& forall|j: int| 0 <= j < ids.len() ==> !may_leave(#[trigger] ids[j])
                        &&& shared_medium
                        &&& search::is_least(ids, transport::is_any_identity(), rank, i)
                    }
                },
                None => {
                    &&& forall|j: int| 0 <= j < ids.len() ==> !may_leave(#[trigger] ids[j])
                    &&& !shared_medium || ids.len() == 0
                },
            }
        }),
{
    search::lemma_least(ids, transport::may_leave(paths), transport::by_path_access(paths));
    search::lemma_least(ids, transport::is_any_identity(), transport::by_path_access(paths));
    if ids.len() > 0 {
        assert(transport::is_any_identity()(ids[0]));
    }
}

/// A key that comes in is known from then on, unless a full table holds only identities
/// with a path over a shared medium and the key came in point to point; then the table is
/// left as it was.
pub proof fn law_inserted_identity_is_known(
    ids: Seq<(DestHash, [u8; 64])>,
    paths: Seq<(DestHash, Path)>,
    capacity: nat,
    dest: DestHash,
    pub_key: [u8; 64],
    shared_medium: bool,
)
    requires
        storage::distinct_keys(ids),
        ids.len() <= capacity,
        capacity > 0,
    ensures
        ({
            let after = transport::identities_with(
                ids,
                paths,
                capacity,
                dest,
                pub_key,
                shared_medium,
            );
            if ids.len() == capacity && !storage::has_key(ids, dest) && !shared_medium && (forall|
                i: int,
            |
                0 <= i < ids.len() ==> shares_medium(paths, (#[trigger] ids[i]).0)) {
                after == ids
            } else {
                &&& storage::lookup(after, dest) == Some(pub_key)
                &&& storage::distinct_keys(after)
                &&& after.len() <= capacity
            }
        }),
{
    storage::law_put(ids, dest, pub_key);
    lemma_identity_victim(ids, paths, shared_medium);
    match transport::identity_victim(ids, paths, shared_medium) {
        Some(i) => {
            if !storage::has_key(ids, dest) {
                lemma_leaves(ids, i, dest, pub_key);
                if !shared_medium {
                    assert(transport::may_leave(paths)(ids[i]));
                    assert(!shares_medium(paths, ids[i].0));
                }
            }
        },
        None => {
            assert forall|i: int| 0 <= i < ids.len() implies shares_medium(
                paths,
                (#[trigger] ids[i]).0,
            ) by {
                assert(!transport::may_leave(paths)(ids[i]));
            }
        },
    }
}

/// A key that comes in point to point never displaces the identity of a destination with
/// a path over a shared medium.
pub proof fn law_shared_identities_are_reserved(
    ids: Seq<(DestHash, [u8; 64])>,
    paths: Seq<(DestHash, Path)>,
    capacity: nat,
    dest: DestHash,
    pub_key: [u8; 64],
    other: DestHash,
)
    requires
        storage::distinct_keys(ids),
        shares_medium(paths, other),
        other != dest,
    ensures
        storage::lookup(
            transport::identities_with(ids, paths, capacity, dest, pub_key, false),
            other,
        ) == storage::lookup(ids, other),
{
    storage::law_put(ids, dest, pub_key);
    lemma_identity_victim(ids, paths, false);
    if let Some(i) = transport::identity_victim(ids, paths, false) {
        if !storage::has_key(ids, dest) {
            assert(transport::may_leave(paths)(ids[i]));
            lemma_leaves(ids, i, dest, pub_key);
        }
    }
}

/// While an identity without a path is there to leave, none with a path does.
pub proof fn law_identities_without_path_leave_first(
    ids: Seq<(DestHash, [u8; 64])>,
    paths: Seq<(DestHash, Path)>,
    capacity: nat,
    dest: DestHash,
    pub_key: [u8; 64],
    shared_medium: bool,
    pathless: DestHash,
    other: DestHash,
)
    requires
        storage::distinct_keys(ids),
        storage::has_key(ids, pathless),
        !storage::has_key(paths, pathless),
        storage::has_key(paths, other),
        other != dest,
    ensures
        storage::lookup(
            transport::identities_with(ids, paths, capacity, dest, pub_key, shared_medium),
            other,
        ) == storage::lookup(ids, other),
{
    storage::law_put(ids, dest, pub_key);
    lemma_identity_victim(ids, paths, shared_medium);
    let k = storage::key_index(ids, pathless);
    assert(storage::key_stands_at(ids, pathless, k));
    assert(transport::may_leave(paths)(ids[k]));
    if let Some(i) = transport::identity_victim(ids, paths, shared_medium) {
        if !storage::has_key(ids, dest) {
            let rank = transport::by_path_access(paths);
            assert(rank(ids[i]) <= rank(ids[k]));
            assert(rank(ids[k]) == -1);
            lemma_leaves(ids, i, dest, pub_key);
        }
    }
}

/// A key for a destination that has one, or for which there is room, displaces no other.
pub proof fn law_identity_without_eviction(
    ids: Seq<(DestHash, [u8; 64])>,
    paths: Seq<(DestHash, Path)>,
    capacity: nat,
    dest: DestHash,
    pub_key: [u8; 64],
    shared_medium: bool,
    other: DestHash,
)
    requires
        storage::distinct_keys(ids),
        ids.len() < capacity || exists|i: int|
            0 <= i < ids.len() && (#[trigger] ids[i]).0 == dest,
        other != dest,
    ensures
        ({
            let after = transport::identities_with(
                ids,
                paths,
                capacity,
                dest,
                pub_key,
                shared_medium,
            );
            &&& storage::lookup(after, other) == storage::lookup(ids, other)
            &&& storage::lookup(after, dest) == Some(pub_key)
        }),
{
    storage::law_put(ids, dest, pub_key);
}

/// Whether the path to `a` was used no later than the one to `b`; a destination without a
/// path counts as used before all others.
pub open spec fn used_no_later(paths: Seq<(DestHash, Path)>, a: DestHash, b: DestHash) -> bool {
    match (storage::lookup(paths, a), storage::lookup(paths, b)) {
        (None, _) => true,
        (Some(_), None) => false,
        (Some(pa), Some(pb)) => pa.last_accessed <= pb.last_accessed,
    }
}

/// Whether `gone` is the identity that a full table gives up first: of those without a path
/// over a shared medium the one used longest ago; if there are none, of all, and then only
/// for one that comes in over a shared medium.
pub open spec fn identity_goes_first(
    ids: Seq<(DestHash, [u8; 64])>,
    paths: Seq<(DestHash, Path)>,
    shared_medium: bool,
    gone: DestHash,
) -> bool {
    if exists|j: int| 0 <= j < ids.len() && !shares_medium(paths, (#[trigger] ids[j]).0) {
        &&& !shares_medium(paths, gone)
        &&& forall|j: int|
            0 <= j < ids.len() && !shares_medium(paths, (#[trigger] ids[j]).0) ==> used_no_later(
                paths,
                gone,
                ids[j].0,
            )
    } else {
        &&& shared_medium
        &&& forall|j: int|
            0 <= j < ids.len() ==> used_no_later(paths, gone, (#[trigger] ids[j]).0)
    }
}

/// For a new destination a full table gives up the identity that goes first, of several
/// such the one that stands first, and no other; the new one comes behind all others.
pub proof fn law_identity_that_leaves(
    ids: Seq<(DestHash, [u8; 64])>,
    paths: Seq<(DestHash, Path)>,
    capacity: nat,
    dest: DestHash,
    pub_key: [u8; 64],
    shared_medium: bool,
    i: int,
)
    requires
        ids.len() >= capacity,
        forall|j: int| 0 <= j < ids.len() ==> (#[trigger] ids[j]).0 != dest,
        0 <= i < ids.len(),
        identity_goes_first(ids, paths, shared_medium, ids[i].0),
        forall|j: int|
            0 <= j < i ==> !identity_goes_first(ids, paths, shared_medium, (#[trigger] ids[j]).0),
    ensures
        transport::identities_with(ids, paths, capacity, dest, pub_key, shared_medium)
            == ids.remove(i).push((dest, pub_key)),
{
    let may_leave = transport::may_leave(paths);
    let any = transport::is_any_identity();
    let rank = transport::by_path_access(paths);
    assert forall|a: int, b: int|
        0 <= a < ids.len() && 0 <= b < ids.len() implies (used_no_later(
        paths,
        (#[trigger] ids[a]).0,
        (#[trigger] ids[b]).0,
    ) <==> rank(ids[a]) <= rank(ids[b])) by {}
    if exists|j: int| 0 <= j < ids.len() && !shares_medium(paths, (#[trigger] ids[j]).0) {
        assert(search::is_least(ids, may_leave, rank, i)) by {
            assert(may_leave(ids[i]));
            assert forall|j: int| 0 <= j < ids.len() && may_leave(#[trigger] ids[j]) implies rank(
                ids[i],
            ) <= rank(ids[j]) by {
                assert(used_no_later(paths, ids[i].0, ids[j].0));
            }
            assert forall|j: int| 0 <= j < i && may_leave(#[trigger] ids[j]) implies rank(ids[i])
                < rank(ids[j]) by {
                assert(!identity_goes_first(ids, paths, shared_medium, ids[j].0));
                if rank(ids[j]) <= rank(ids[i]) {
                    assert forall|k: int|
                        0 <= k < ids.len() && !shares_medium(
                            paths,
                            (#[trigger] ids[k]).0,
                        ) implies used_no_later(paths, ids[j].0, ids[k].0) by {
                        assert(used_no_later(paths, ids[i].0, ids[k].0));
                    }
                }
            }
        }
        search::lemma_least_at(ids, may_leave, rank, i);
    } else {
        assert forall|j: int| 0 <= j < ids.len() implies !may_leave(#[trigger] ids[j]) by {
            assert(shares_medium(paths, ids[j].0));
        }
        search::lemma_least_none(ids, may_leave, rank);
        assert(search::is_least(ids, any, rank, i)) by {
            assert forall|j: int| 0 <= j < ids.len() implies rank(ids[i]) <= rank(
                #[trigger] ids[j],
            ) by {
                assert(used_no_later(paths, ids[i].0, ids[j].0));
            }
            assert forall|j: int| 0 <= j < i implies rank(ids[i]) < rank(#[trigger] ids[j]) by {
                assert(!identity_goes_first(ids, paths, shared_medium, ids[j].0));
                if rank(ids[j]) <= rank(ids[i]) {
                    assert forall|k: int| 0 <= k < ids.len() implies used_no_later(
                        paths,
                        ids[j].0,
                        (#[trigger] ids[k]).0,
                    ) by {
                        assert(used_no_later(paths, ids[i].0, ids[k].0));
                    }
                }
            }
        }
        search::lemma_least_at(ids, any, rank, i);
    }
}

/// A snapshot says of every path, in order, where it leads and all that was observed of it;
/// a minimal one leaves the announces out, the others hold them.
pub proof fn law_saved_paths(s: Seq<(DestHash, Path)>, detail: SnapshotDetail)
    ensures
        transport::saved_paths(s, detail).len() == s.len(),
        forall|i: int|
            0 <= i < s.len() ==> {
                let e = #[trigger] transport::saved_paths(s, detail)[i];
                let p = s[i].1;
                &&& e.dest_hash == s[i].0
                &&& e.via == p.via
                &&& e.learned_at == p.learned_at
                &&& e.last_accessed == p.last_accessed
                &&& e.last_snr == p.last_snr
                &&& e.hops == p.hops
                &&& e.announce_raw == match (detail, p.announce_raw) {
                    (SnapshotDetail::Minimal, _) => None,
                    (_, Some(cache)) => Some(cache.bytes@),
                    (_, None) => None,
                }
            },
{
}

/// What an entry of a snapshot stands for is each of its parts, and a snapshot stands for
/// all of its entries.
pub proof fn law_snapshot_view(e: PathEntry, snap: Snapshot)
    ensures
        e@.dest_hash == e.dest_hash,
        e@.via == e.via,
        e@.learned_at == e.learned_at,
        e@.last_accessed == e.last_accessed,
        e@.last_snr == e.last_snr,
        e@.hops == e.hops,
        e@.announce_raw == match e.announce_raw {
            Some(raw) => Some(raw@),
            None => None,
        },
        snap.path_views().len() == snap.paths@.len(),
        forall|i: int|
            0 <= i < snap.paths@.len() ==> #[trigger] snap.path_views()[i] == snap.paths@[i]@,
{
}

/// A snapshot holds the key of every known identity, in order.
pub proof fn law_saved_identities(ids: Seq<(DestHash, [u8; 64])>)
    ensures
        transport::saved_identities(ids).len() == ids.len(),
        forall|i: int|
            0 <= i < ids.len() ==> (#[trigger] transport::saved_identities(ids)[i]).dest_hash
                == ids[i].0 && transport::saved_identities(ids)[i].pub_key == ids[i].1,
{
}

/// The identities of a snapshot are taken in one after the other. One whose destination is
/// known, or for which there is room, has the key from the snapshot from then on, and no
/// other changes; one that finds the table full is dropped, and nothing changes.
pub proof fn law_restored_one_by_one(
    ids: Seq<(DestHash, [u8; 64])>,
    capacity: nat,
    entries: Seq<IdentityEntry>,
    e: IdentityEntry,
)
    requires
        storage::distinct_keys(ids),
        ids.len() <= capacity,
    ensures
        transport::restored(ids, capacity, Seq::empty()) == ids,
        ({
            let before = transport::restored(ids, capacity, entries);
            let after = transport::restored(ids, capacity, entries.push(e));
            if storage::lookup(before, e.dest_hash) is Some || before.len() < capacity {
                &&& storage::lookup(after, e.dest_hash) == Some(e.pub_key)
                &&& forall|other: DestHash|
                    other != e.dest_hash ==> #[trigger] storage::lookup(after, other)
                        == storage::lookup(before, other)
            } else {
                after == before
            }
        }),
{
    law_restored_identities(ids, capacity, entries);
    assert(entries.push(e).drop_last() =~= entries);
    storage::law_put(
        transport::restored(ids, capacity, entries),
        e.dest_hash,
        e.pub_key,
    );
}

/// No known identity is lost to a snapshot, the table stays within its capacity, and an
/// entry whose destination stays unknown was left out by a full table.
pub proof fn law_restored_identities(
    ids: Seq<(DestHash, [u8; 64])>,
    capacity: nat,
    entries: Seq<IdentityEntry>,
)
    requires
        storage::distinct_keys(ids),
        ids.len() <= capacity,
    ensures
        storage::distinct_keys(transport::restored(ids, capacity, entries)),
        transport::restored(ids, capacity, entries).len() <= capacity,
        forall|dest: DestHash|
            storage::has_key(ids, dest) ==> #[trigger] storage::has_key(
                transport::restored(ids, capacity, entries),
                dest,
            ),
        forall|i: int|
            0 <= i < entries.len() && !storage::has_key(
                transport::restored(ids, capacity, entries),
                (#[trigger] entries[i]).dest_hash,
            ) ==> transport::restored(ids, capacity, entries).len() == capacity,
    decreases entries.len(),
{
    if entries.len() > 0 {
        let front = entries.drop_last();
        let before = transport::restored(ids, capacity, front);
        let after = transport::restored(ids, capacity, entries);
        let e = entries.last();
        law_restored_identities(ids, capacity, front);
        storage::law_put(before, e.dest_hash, e.pub_key);
        assert forall|dest: DestHash| #[trigger] storage::has_key(before, dest) implies
            storage::has_key(after, dest) by {
            if after != before && dest != e.dest_hash {
                assert(storage::lookup(after, dest) == storage::lookup(before, dest));
            }
        }
        assert forall|dest: DestHash|
            storage::has_key(ids, dest) implies #[trigger] storage::has_key(after, dest) by {
            assert(storage::has_key(before, dest));
        }
        assert forall|i: int|
            0 <= i < entries.len() && !storage::has_key(
                after,
                (#[trigger] entries[i]).dest_hash,
            ) implies after.len() == capacity by {
            if i < front.len() {
                assert(front[i] == entries[i]);
                if storage::has_key(before, front[i].dest_hash) {
                    assert(storage::has_key(after, front[i].dest_hash));
                }
            }
        }
    }
}

/// A node that starts empty knows all identities again that its snapshot holds.
pub proof fn law_snapshot_round_trip(ids: Seq<(DestHash, [u8; 64])>, capacity: nat)
    requires
        storage::distinct_keys(ids),
        ids.len() <= capacity,
    ensures
        transport::restored(Seq::empty(), capacity, transport::saved_identities(ids)) == ids,
    decreases ids.len(),
{
    let entries = transport::saved_identities(ids);
    if ids.len() > 0 {
        let front = ids.drop_last();
        law_snapshot_round_trip(front, capacity);
        assert(transport::saved_identities(front) =~= entries.drop_last());
        let key = ids.last().0;
        if storage::has_key(front, key) {
            let i = storage::key_index(front, key);
            assert(storage::key_stands_at(front, key, i));
            assert(ids[i].0 == ids[ids.len() - 1].0);
        }
        assert(front.push(ids.last()) =~= ids);
    } else {
        assert(ids =~= Seq::empty());
    }
}

} // verus!
