//! The path table and the identities that go with it.
//!
//! Both tables are bounded. A path over a shared medium is reserved: what comes in
//! point to point never displaces one that is still good, nor the identity that
//! belongs to it.

use crate::hash::{DestHash, IdentityHash};
use crate::path::{AnnounceCache, Path};
use crate::snapshot::{IdentityEntry, PathEntry, PathEntryView, Snapshot, SnapshotDetail};
use crate::storage::StorageMap;
use crate::{bytes, path, path_laws, search, snapshot, storage};
use vstd::prelude::*;

verus! {

/// Holds of the paths that are past their time at `now`.
pub open spec fn has_expired(now: u64) -> spec_fn((DestHash, Path)) -> bool {
    |e: (DestHash, Path)| now >= e.1.expires_at()
}

/// Holds of the paths that lead point to point.
pub open spec fn is_point_to_point() -> spec_fn((DestHash, Path)) -> bool {
    |e: (DestHash, Path)| !e.1.shared_medium
}

/// Holds of every path.
pub open spec fn is_any() -> spec_fn((DestHash, Path)) -> bool {
    |e: (DestHash, Path)| true
}

/// Ranks paths by when they end.
pub open spec fn by_expiry() -> spec_fn((DestHash, Path)) -> int {
    |e: (DestHash, Path)| e.1.expires_at()
}

/// Ranks paths by when they were last used.
pub open spec fn by_access() -> spec_fn((DestHash, Path)) -> int {
    |e: (DestHash, Path)| e.1.last_accessed as int
}

/// The place of the path that leaves a full table `s` to make room for `incoming`: the one
/// that ended first, of those past their time when `incoming` was learned; else the point
/// to point path used longest ago; else, for a path over a shared medium, the path used
/// longest ago.
pub open spec fn path_victim(s: Seq<(DestHash, Path)>, incoming: Path) -> Option<int> {
    match search::least(s, has_expired(incoming.learned_at), by_expiry()) {
        Some(i) => Some(i),
        None => match search::least(s, is_point_to_point(), by_access()) {
            Some(i) => Some(i),
            None => if incoming.shared_medium {
                search::least(s, is_any(), by_access())
            } else {
                None
            },
        },
    }
}

/// The path table `s` of the given capacity with `incoming` as the path to `dest`; none
/// where no path may leave for it.
pub open spec fn paths_with(
    s: Seq<(DestHash, Path)>,
    capacity: nat,
    dest: DestHash,
    incoming: Path,
) -> Option<Seq<(DestHash, Path)>> {
    if storage::has_key(s, dest) || s.len() < capacity {
        Some(storage::put(s, dest, incoming))
    } else {
        match path_victim(s, incoming) {
            Some(i) => Some(s.remove(i).push((dest, incoming))),
            None => None,
        }
    }
}

/// Whether `paths` holds a path over a shared medium to `dest`.
pub open spec fn is_reserved(paths: Seq<(DestHash, Path)>, dest: DestHash) -> bool {
    match storage::lookup(paths, dest) {
        Some(p) => p.shared_medium,
        None => false,
    }
}

/// Holds of the identities to which `paths` holds no path over a shared medium.
pub open spec fn may_leave(paths: Seq<(DestHash, Path)>) -> spec_fn((DestHash, [u8; 64])) -> bool {
    |e: (DestHash, [u8; 64])| !is_reserved(paths, e.0)
}

/// Holds of every identity.
pub open spec fn is_any_identity() -> spec_fn((DestHash, [u8; 64])) -> bool {
    |e: (DestHash, [u8; 64])| true
}

/// Ranks identities by when the path to them was last used; those without a path come
/// before all others.
pub open spec fn by_path_access(paths: Seq<(DestHash, Path)>) -> spec_fn(
    (DestHash, [u8; 64]),
) -> int {
    |e: (DestHash, [u8; 64])|
        match storage::lookup(paths, e.0) {
            Some(p) => p.last_accessed as int,
            None => -1,
        }
}

/// The place of the identity that leaves a full table `ids` for another one.
pub open spec fn identity_victim(
    ids: Seq<(DestHash, [u8; 64])>,
    paths: Seq<(DestHash, Path)>,
    shared_medium: bool,
) -> Option<int> {
    match search::least(ids, may_leave(paths), by_path_access(paths)) {
        Some(i) => Some(i),
        None => if shared_medium {
            search::least(ids, is_any_identity(), by_path_access(paths))
        } else {
            None
        },
    }
}

/// The identity table `ids` of the given capacity after the key of `dest` came in.
pub open spec fn identities_with(
    ids: Seq<(DestHash, [u8; 64])>,
    paths: Seq<(DestHash, Path)>,
    capacity: nat,
    dest: DestHash,
    pub_key: [u8; 64],
    shared_medium: bool,
) -> Seq<(DestHash, [u8; 64])> {
    if storage::has_key(ids, dest) || ids.len() < capacity {
        storage::put(ids, dest, pub_key)
    } else {
        match identity_victim(ids, paths, shared_medium) {
            Some(i) => ids.remove(i).push((dest, pub_key)),
            None => ids,
        }
    }
}

/// Holds of the paths that do not go by `via`.
pub open spec fn avoids(via: IdentityHash) -> spec_fn((DestHash, Path)) -> bool {
    |e: (DestHash, Path)| e.1.via != Some(via)
}

/// Holds of the paths that an announce is kept with.
pub open spec fn has_announce() -> spec_fn((DestHash, Path)) -> bool {
    |e: (DestHash, Path)| e.1.announce() is Some
}

/// The bytes of the announce that a path keeps.
pub open spec fn announce_bytes() -> spec_fn((DestHash, Path)) -> Seq<u8> {
    |e: (DestHash, Path)| e.1.announce()->0
}

/// The announces that the paths `s` keep, in order.
pub open spec fn announces(s: Seq<(DestHash, Path)>) -> Seq<Seq<u8>> {
    s.filter(has_announce()).map_values(announce_bytes())
}

/// The identity table `ids` of the given capacity after the entries of a snapshot came in.
/// An entry that finds the table full is left out.
pub open spec fn restored(
    ids: Seq<(DestHash, [u8; 64])>,
    capacity: nat,
    entries: Seq<IdentityEntry>,
) -> Seq<(DestHash, [u8; 64])>
    decreases entries.len(),
{
    if entries.len() == 0 {
        ids
    } else {
        let before = restored(ids, capacity, entries.drop_last());
        let e = entries.last();
        if storage::has_key(before, e.dest_hash) || before.len() < capacity {
            storage::put(before, e.dest_hash, e.pub_key)
        } else {
            before
        }
    }
}

/// What a snapshot says of the paths `s`.
pub open spec fn saved_paths(s: Seq<(DestHash, Path)>, detail: SnapshotDetail) -> Seq<
    PathEntryView,
> {
    Seq::new(s.len(), |i: int| snapshot::saved_path(s[i].0, s[i].1, detail))
}

/// What a snapshot says of the identities `ids`.
pub open spec fn saved_identities(ids: Seq<(DestHash, [u8; 64])>) -> Seq<IdentityEntry> {
    Seq::new(ids.len(), |i: int| IdentityEntry { dest_hash: ids[i].0, pub_key: ids[i].1 })
}

/// The learned paths and the known identities.
pub struct Transport {
    pub paths: StorageMap<Path>,
    pub known_identities: StorageMap<[u8; 64]>,
}

impl Transport {
    /// Both tables are in order.
    pub open spec fn wf(&self) -> bool {
        &&& self.paths.wf()
        &&& self.known_identities.wf()
    }

    /// Empty tables of the given capacities.
    pub fn new(max_paths: usize, max_identities: usize) -> (transport: Self)
        ensures
            transport.wf(),
            transport.paths@ == Seq::<(DestHash, Path)>::empty(),
            transport.paths.capacity == max_paths,
            transport.known_identities@ == Seq::<(DestHash, [u8; 64])>::empty(),
            transport.known_identities.capacity == max_identities,
    {
        Transport {
            paths: StorageMap::new(max_paths),
            known_identities: StorageMap::new(max_identities),
        }
    }

    /// The place of the path that ended first, of those past their time at `now`.
    fn expired_victim(&self, now: u64) -> (victim: Option<usize>)
        ensures
            victim is Some ==> (victim->0 as int) < self.paths@.len(),
            search::least(self.paths@, has_expired(now), by_expiry()) == match victim {
                Some(i) => Some(i as int),
                None => None,
            },
    {
        let entries = &self.paths.map.entries;
        let mut best: Option<usize> = None;
        let mut i: usize = 0;
        proof {
            search::lemma_least_none(entries@.take(0), has_expired(now), by_expiry());
        }
        while i < entries.len()
            invariant
                i <= entries.len(),
                best is Some ==> best->0 < i,
                search::least(entries@.take(i as int), has_expired(now), by_expiry())
                    == match best {
                    Some(b) => Some(b as int),
                    None => None,
                },
            decreases entries.len() - i,
        {
            proof {
                search::lemma_least_push(
                    entries@.take(i as int),
                    has_expired(now),
                    by_expiry(),
                    entries@[i as int],
                );
                assert(entries@.take(i as int).push(entries@[i as int]) =~= entries@.take(i + 1));
            }
            let end = entries[i].1.learned_at.saturating_add(entries[i].1.expiry_time());
            if now >= end {
                match best {
                    Some(b) => {
                        let least = entries[b].1.learned_at.saturating_add(
                            entries[b].1.expiry_time(),
                        );
                        if end < least {
                            best = Some(i);
                        }
                    },
                    None => {
                        best = Some(i);
                    },
                }
            }
            i += 1;
        }
        assert(entries@.take(i as int) =~= self.paths@);
        best
    }

    /// The place of the path used longest ago: of all paths, or of those point to point.
    fn access_victim(&self, any: bool) -> (victim: Option<usize>)
        ensures
            victim is Some ==> (victim->0 as int) < self.paths@.len(),
            search::least(
                self.paths@,
                if any {
                    is_any()
                } else {
                    is_point_to_point()
                },
                by_access(),
            ) == match victim {
                Some(i) => Some(i as int),
                None => None,
            },
    {
        let entries = &self.paths.map.entries;
        let ghost p = if any {
            is_any()
        } else {
            is_point_to_point()
        };
        let mut best: Option<usize> = None;
        let mut i: usize = 0;
        proof {
            search::lemma_least_none(entries@.take(0), p, by_access());
        }
        while i < entries.len()
            invariant
                i <= entries.len(),
                p == if any {
                    is_any()
                } else {
                    is_point_to_point()
                },
                best is Some ==> best->0 < i,
                search::least(entries@.take(i as int), p, by_access()) == match best {
                    Some(b) => Some(b as int),
                    None => None,
                },
            decreases entries.len() - i,
        {
            proof {
                search::lemma_least_push(
                    entries@.take(i as int),
                    p,
                    by_access(),
                    entries@[i as int],
                );
                assert(entries@.take(i as int).push(entries@[i as int]) =~= entries@.take(i + 1));
            }
            if any || !entries[i].1.shared_medium {
                match best {
                    Some(b) => {
                        if entries[i].1.last_accessed < entries[b].1.last_accessed {
                            best = Some(i);
                        }
                    },
                    None => {
                        best = Some(i);
                    },
                }
            }
            i += 1;
        }
        assert(entries@.take(i as int) =~= self.paths@);
        best
    }

    /// Learns `path` as the way to `dest`. A full table gives up one path for it, if one
    /// may leave; says whether the path was taken in.
    pub fn insert_path(&mut self, dest: DestHash, path: Path) -> (taken: bool)
        requires
            old(self).wf(),
        ensures
            final(self).wf(),
            final(self).known_identities == old(self).known_identities,
            final(self).paths.capacity == old(self).paths.capacity,
            match paths_with(old(self).paths@, old(self).paths.capacity as nat, dest, path) {
                Some(paths) => taken && final(self).paths@ == paths,
                None => !taken && final(self).paths@ == old(self).paths@,
            },
            taken ==> storage::lookup(final(self).paths@, dest) == Some(path),
    {
        proof {
            path_laws::law_inserted_path_is_found(
                self.paths@,
                self.paths.capacity as nat,
                dest,
                path,
            );
        }
        match self.paths.insert(dest, path) {
            Ok(_) => true,
            Err((dest, path)) => {
                let victim = match self.expired_victim(path.learned_at) {
                    Some(i) => Some(i),
                    None => match self.access_victim(false) {
                        Some(i) => Some(i),
                        None => if path.shared_medium {
                            self.access_victim(true)
                        } else {
                            None
                        },
                    },
                };
                match victim {
                    Some(i) => {
                        let key = self.paths.map.entries[i].0;
                        proof {
                            storage::lemma_key_index(self.paths@, key, i as int);
                            storage::law_without(self.paths@, key);
                            storage::lemma_still_absent(self.paths@, i as int, dest);
                        }
                        let _ = self.paths.remove(&key);
                        self.paths.insert(dest, path).is_ok()
                    },
                    None => false,
                }
            },
        }
    }

    /// The place of the identity whose path was used longest ago: of all identities, or of
    /// those to which no path over a shared medium is known.
    fn least_identity(&self, any: bool) -> (victim: Option<usize>)
        requires
            self.wf(),
        ensures
            victim is Some ==> (victim->0 as int) < self.known_identities@.len(),
            search::least(
                self.known_identities@,
                if any {
                    is_any_identity()
                } else {
                    may_leave(self.paths@)
                },
                by_path_access(self.paths@),
            ) == match victim {
                Some(i) => Some(i as int),
                None => None,
            },
    {
        let entries = &self.known_identities.map.entries;
        let ghost p = if any {
            is_any_identity()
        } else {
            may_leave(self.paths@)
        };
        let ghost rank = by_path_access(self.paths@);
        let mut best: Option<usize> = None;
        let mut best_rank: i128 = -1;
        let mut i: usize = 0;
        proof {
            search::lemma_least_none(entries@.take(0), p, rank);
        }
        while i < entries.len()
            invariant
                self.wf(),
                entries@ == self.known_identities@,
                i <= entries.len(),
                p == if any {
                    is_any_identity()
                } else {
                    may_leave(self.paths@)
                },
                rank == by_path_access(self.paths@),
                best is Some ==> best->0 < i && best_rank == rank(entries@[best->0 as int]),
                search::least(entries@.take(i as int), p, rank) == match best {
                    Some(b) => Some(b as int),
                    None => None,
                },
            decreases entries.len() - i,
        {
            proof {
                search::lemma_least_push(entries@.take(i as int), p, rank, entries@[i as int]);
                assert(entries@.take(i as int).push(entries@[i as int]) =~= entries@.take(i + 1));
            }
            let (reserved, this_rank): (bool, i128) = match self.paths.get(&entries[i].0) {
                Some(path) => (path.shared_medium, path.last_accessed as i128),
                None => (false, -1),
            };
            if (any || !reserved) && (best.is_none() || this_rank < best_rank) {
                best = Some(i);
                best_rank = this_rank;
            }
            i += 1;
        }
        assert(entries@.take(i as int) =~= self.known_identities@);
        best
    }

    /// Learns `pub_key` as the key of `dest`. A full table gives up one identity for it, if
    /// one may leave; else the key is not taken in.
    pub fn insert_identity(&mut self, dest_hash: DestHash, pub_key: [u8; 64], shared_medium: bool)
        requires
            old(self).wf(),
        ensures
            final(self).wf(),
            final(self).paths == old(self).paths,
            final(self).known_identities.capacity == old(self).known_identities.capacity,
            final(self).known_identities@ == identities_with(
                old(self).known_identities@,
                old(self).paths@,
                old(self).known_identities.capacity as nat,
                dest_hash,
                pub_key,
                shared_medium,
            ),
    {
        if self.known_identities.insert(dest_hash, pub_key).is_ok() {
            return ;
        }
        let victim = match self.least_identity(false) {
            Some(i) => Some(i),
            None => if shared_medium {
                self.least_identity(true)
            } else {
                None
            },
        };
        if let Some(i) = victim {
            let key = self.known_identities.map.entries[i].0;
            proof {
                storage::lemma_key_index(self.known_identities@, key, i as int);
                storage::law_without(self.known_identities@, key);
                storage::lemma_still_absent(self.known_identities@, i as int, dest_hash);
            }
            let _ = self.known_identities.remove(&key);
            let _ = self.known_identities.insert(dest_hash, pub_key);
        }
    }

    /// Makes `dest_hash` known by its key, as a destination that is reached directly.
    pub fn register_identity(&mut self, dest_hash: DestHash, pub_key: [u8; 64], now: u64)
        requires
            old(self).wf(),
        ensures
            final(self).wf(),
            final(self).paths.capacity == old(self).paths.capacity,
            final(self).known_identities.capacity == old(self).known_identities.capacity,
            final(self).known_identities@ == identities_with(
                old(self).known_identities@,
                old(self).paths@,
                old(self).known_identities.capacity as nat,
                dest_hash,
                pub_key,
                true,
            ),
            final(self).paths@ == match paths_with(
                old(self).paths@,
                old(self).paths.capacity as nat,
                dest_hash,
                path::direct_path(now),
            ) {
                Some(paths) => paths,
                None => old(self).paths@,
            },
            old(self).known_identities.capacity > 0 ==> storage::lookup(
                final(self).known_identities@,
                dest_hash,
            ) == Some(pub_key),
            old(self).paths.capacity > 0 ==> storage::lookup(final(self).paths@, dest_hash)
                == Some(path::direct_path(now)),
    {
        proof {
            if self.known_identities.capacity > 0 {
                path_laws::law_inserted_identity_is_known(
                    self.known_identities@,
                    self.paths@,
                    self.known_identities.capacity as nat,
                    dest_hash,
                    pub_key,
                    true,
                );
            }
            if self.paths.capacity > 0 {
                path_laws::law_refused_path(
                    self.paths@,
                    self.paths.capacity as nat,
                    dest_hash,
                    path::direct_path(now),
                );
            }
        }
        self.insert_identity(dest_hash, pub_key, true);
        let _ = self.insert_path(dest_hash, Path::direct(now));
    }

    /// The learned path to `dest`.
    pub fn get_path(&self, dest: &DestHash) -> (path: Option<&Path>)
        requires
            self.wf(),
        ensures
            match path {
                Some(p) => storage::lookup(self.paths@, *dest) == Some(*p),
                None => storage::lookup(self.paths@, *dest) is None,
            },
    {
        self.paths.get(dest)
    }

    /// Notes that the path to `dest` was used at `now`.
    pub fn touch_path(&mut self, dest: &DestHash, now: u64)
        requires
            old(self).wf(),
        ensures
            final(self).wf(),
            final(self).known_identities == old(self).known_identities,
            final(self).paths.capacity == old(self).paths.capacity,
            final(self).paths@ == match storage::lookup(old(self).paths@, *dest) {
                Some(p) => storage::put(
                    old(self).paths@,
                    *dest,
                    (Path { last_accessed: now, ..p }),
                ),
                None => old(self).paths@,
            },
            storage::lookup(final(self).paths@, *dest) == match storage::lookup(
                old(self).paths@,
                *dest,
            ) {
                Some(p) => Some((Path { last_accessed: now, ..p })),
                None => None,
            },
    {
        match self.paths.map.position(dest) {
            Some(i) => {
                proof {
                    let p = self.paths@[i as int].1;
                    storage::law_put(self.paths@, *dest, Path { last_accessed: now, ..p });
                }
                self.paths.map.entries[i].1.last_accessed = now;
            },
            None => {},
        }
    }

    /// Forgets the path to `dest`.
    pub fn remove_path(&mut self, dest: &DestHash)
        requires
            old(self).wf(),
        ensures
            final(self).wf(),
            final(self).known_identities == old(self).known_identities,
            final(self).paths.capacity == old(self).paths.capacity,
            final(self).paths@ == storage::without(old(self).paths@, *dest),
            storage::lookup(final(self).paths@, *dest) is None,
    {
        let _ = self.paths.remove(dest);
    }

    /// Forgets every path that goes by `via`.
    pub fn remove_paths_via(&mut self, via: &IdentityHash)
        requires
            old(self).wf(),
        ensures
            final(self).wf(),
            final(self).known_identities == old(self).known_identities,
            final(self).paths.capacity == old(self).paths.capacity,
            final(self).paths@ == old(self).paths@.filter(avoids(*via)),
    {
        let ghost s = self.paths@;
        proof {
            storage::lemma_filter_distinct(s, avoids(*via));
            s.lemma_filter_len(avoids(*via));
            reveal(Seq::filter);
        }
        let mut rest: Vec<(DestHash, Path)> = Vec::new();
        std::mem::swap(&mut rest, &mut self.paths.map.entries);
        let mut kept: Vec<(DestHash, Path)> = Vec::new();
        for entry in iter: rest
            invariant
                iter.seq() == s,
                kept@ == s.take(iter.index() as int).filter(avoids(*via)),
        {
            proof {
                let upto = s.take(iter.index() + 1);
                assert(upto.drop_last() =~= s.take(iter.index() as int));
                assert(upto.last() == entry);
                reveal(Seq::filter);
            }
            let by_this = match &entry.1.via {
                Some(hop) => *hop == *via,
                None => false,
            };
            if !by_this {
                kept.push(entry);
            }
        }
        assert(s.take(s.len() as int) =~= s);
        self.paths.map.entries = kept;
    }

    /// How many paths are known.
    pub fn path_count(&self) -> (n: usize)
        ensures
            n == self.paths@.len(),
    {
        self.paths.len()
    }

    /// All known paths with their destinations, in the order of the table.
    pub fn iter_paths(&self) -> (all: Vec<(&DestHash, &Path)>)
        ensures
            all@.len() == self.paths@.len(),
            forall|i: int|
                0 <= i < all@.len() ==> *(#[trigger] all@[i]).0 == self.paths@[i].0 && *all@[i].1
                    == self.paths@[i].1,
    {
        let mut all: Vec<(&DestHash, &Path)> = Vec::new();
        let mut i: usize = 0;
        while i < self.paths.map.entries.len()
            invariant
                i <= self.paths.map.entries.len(),
                all@.len() == i,
                forall|j: int|
                    0 <= j < i ==> *(#[trigger] all@[j]).0 == self.paths@[j].0 && *all@[j].1
                        == self.paths@[j].1,
            decreases self.paths.map.entries.len() - i,
        {
            let entry = &self.paths.map.entries[i];
            all.push((&entry.0, &entry.1));
            i += 1;
        }
        all
    }

    /// The announces that are kept with the paths, for a peer that is new here.
    pub fn cached_announces(&self) -> (raw: Vec<Vec<u8>>)
        ensures
            raw@.len() == announces(self.paths@).len(),
            bytes::contents(raw@) == announces(self.paths@),
    {
        let mut raw: Vec<Vec<u8>> = Vec::new();
        let mut i: usize = 0;
        proof {
            reveal(Seq::filter);
            assert(announces(self.paths@.take(0)) =~= Seq::empty());
            assert(bytes::contents(raw@) =~= Seq::empty());
        }
        while i < self.paths.map.entries.len()
            invariant
                i <= self.paths.map.entries.len(),
                bytes::contents(raw@) == announces(self.paths@.take(i as int)),
            decreases self.paths.map.entries.len() - i,
        {
            let ghost before = raw@;
            let ghost s = self.paths@.take(i + 1);
            proof {
                reveal(Seq::filter);
                assert(s.drop_last() =~= self.paths@.take(i as int));
                assert(s.last() == self.paths@[i as int]);
            }
            if let Some(cache) = &self.paths.map.entries[i].1.announce_raw {
                raw.push(cache.to_vec());
                proof {
                    assert(bytes::contents(raw@) =~= bytes::contents(before).push(
                        cache.bytes@,
                    ));
                    assert(announces(s) =~= announces(s.drop_last()).push(cache.bytes@));
                }
            }
            i += 1;
        }
        assert(self.paths@.take(i as int) =~= self.paths@);
        raw
    }

    /// Keeps `raw` as the announce of the path to `dest`, where there is one.
    pub fn store_announce_raw(&mut self, dest: &DestHash, raw: &[u8])
        requires
            old(self).wf(),
        ensures
            final(self).wf(),
            final(self).known_identities == old(self).known_identities,
            final(self).paths.capacity == old(self).paths.capacity,
            match storage::lookup(old(self).paths@, *dest) {
                Some(was) => {
                    let is = storage::lookup(final(self).paths@, *dest)->0;
                    &&& final(self).paths@ == storage::put(old(self).paths@, *dest, is)
                    &&& is == (Path { announce_raw: is.announce_raw, ..was })
                    &&& is.announce() == Some(raw@)
                },
                None => final(self).paths@ == old(self).paths@,
            },
    {
        match self.paths.map.position(dest) {
            Some(i) => {
                let cache = AnnounceCache::store(raw);
                proof {
                    let p = self.paths@[i as int].1;
                    storage::law_put(self.paths@, *dest, Path { announce_raw: cache, ..p });
                }
                self.paths.map.entries[i].1.announce_raw = cache;
            },
            None => {},
        }
    }

    /// The key that `dest` is known by.
    pub fn recall_identity(&self, dest: &DestHash) -> (pub_key: Option<&[u8; 64]>)
        requires
            self.wf(),
        ensures
            match pub_key {
                Some(k) => storage::lookup(self.known_identities@, *dest) == Some(*k),
                None => storage::lookup(self.known_identities@, *dest) is None,
            },
    {
        self.known_identities.get(dest)
    }

    /// Captures the paths and the known identities. A minimal snapshot leaves the announces
    /// out.
    pub fn save_snapshot(&self, detail: SnapshotDetail) -> (snap: Snapshot)
        ensures
            snap.version == 1,
            snap.path_views() == saved_paths(self.paths@, detail),
            snap.identities@ == saved_identities(self.known_identities@),
    {
        let include_announce = matches!(detail, SnapshotDetail::Standard | SnapshotDetail::Full);
        let mut paths: Vec<PathEntry> = Vec::new();
        let mut i: usize = 0;
        while i < self.paths.map.entries.len()
            invariant
                i <= self.paths.map.entries.len(),
                include_announce == !(detail is Minimal),
                paths@.len() == i,
                forall|j: int|
                    0 <= j < i ==> (#[trigger] paths@[j])@ == snapshot::saved_path(
                        self.paths@[j].0,
                        self.paths@[j].1,
                        detail,
                    ),
            decreases self.paths.map.entries.len() - i,
        {
            let entry = &self.paths.map.entries[i];
            let announce_raw = match &entry.1.announce_raw {
                Some(cache) => if include_announce {
                    Some(cache.to_vec())
                } else {
                    None
                },
                None => None,
            };
            paths.push(
                PathEntry {
                    dest_hash: entry.0,
                    via: entry.1.via,
                    learned_at: entry.1.learned_at,
                    last_accessed: entry.1.last_accessed,
                    last_snr: entry.1.last_snr,
                    hops: entry.1.hops,
                    announce_raw,
                },
            );
            i += 1;
        }
        let mut identities: Vec<IdentityEntry> = Vec::new();
        let mut k: usize = 0;
        while k < self.known_identities.map.entries.len()
            invariant
                k <= self.known_identities.map.entries.len(),
                identities@ == saved_identities(self.known_identities@).take(k as int),
            decreases self.known_identities.map.entries.len() - k,
        {
            let entry = &self.known_identities.map.entries[k];
            identities.push(IdentityEntry { dest_hash: entry.0, pub_key: entry.1 });
            k += 1;
        }
        let snap = Snapshot { version: 1, paths, identities };
        assert(snap.path_views() =~= saved_paths(self.paths@, detail));
        snap
    }

    /// Takes in the identities of a snapshot. Its paths stay inactive: the interfaces that
    /// they were learned on may be others by now, so they are learned again. Identities
    /// that would overflow the table are dropped.
    pub fn load_snapshot(&mut self, snap: &Snapshot)
        requires
            old(self).wf(),
        ensures
            final(self).wf(),
            final(self).paths == old(self).paths,
            final(self).known_identities.capacity == old(self).known_identities.capacity,
            final(self).known_identities@ == restored(
                old(self).known_identities@,
                old(self).known_identities.capacity as nat,
                snap.identities@,
            ),
    {
        let mut i: usize = 0;
        while i < snap.identities.len()
            invariant
                i <= snap.identities.len(),
                self.wf(),
                self.paths == old(self).paths,
                self.known_identities.capacity == old(self).known_identities.capacity,
                self.known_identities@ == restored(
                    old(self).known_identities@,
                    old(self).known_identities.capacity as nat,
                    snap.identities@.take(i as int),
                ),
            decreases snap.identities.len() - i,
        {
            let entry = snap.identities[i];
            let _ = self.known_identities.insert(entry.dest_hash, entry.pub_key);
            proof {
                let upto = snap.identities@.take(i + 1);
                assert(upto.drop_last() =~= snap.identities@.take(i as int));
                assert(upto.last() == entry);
            }
            i += 1;
        }
        assert(snap.identities@.take(i as int) =~= snap.identities@);
    }
}

} // verus!
