//! What of the path table and the known identities outlives a restart.

use crate::hash::{DestHash, IdentityHash};
use crate::path::Path;
use vstd::prelude::*;

verus! {

/// How much a snapshot holds.
#[derive(Clone, Copy, Debug, PartialEq, Eq, Structural)]
pub enum SnapshotDetail {
    /// Without announces.
    Minimal,
    /// With announces.
    Standard,
    /// With all there is.
    Full,
}

/// A path in a snapshot.
pub struct PathEntry {
    pub dest_hash: DestHash,
    pub via: Option<IdentityHash>,
    pub learned_at: u64,
    pub last_accessed: u64,
    pub last_snr: Option<i16>,
    pub hops: u8,
    pub announce_raw: Option<Vec<u8>>,
}

/// What a path in a snapshot holds.
#[verifier::ext_equal]
pub struct PathEntryView {
    pub dest_hash: DestHash,
    pub via: Option<IdentityHash>,
    pub learned_at: u64,
    pub last_accessed: u64,
    pub last_snr: Option<i16>,
    pub hops: u8,
    pub announce_raw: Option<Seq<u8>>,
}

impl View for PathEntry {
    type V = PathEntryView;

    open spec fn view(&self) -> PathEntryView {
        PathEntryView {
            dest_hash: self.dest_hash,
            via: self.via,
            learned_at: self.learned_at,
            last_accessed: self.last_accessed,
            last_snr: self.last_snr,
            hops: self.hops,
            announce_raw: match self.announce_raw {
                Some(raw) => Some(raw@),
                None => None,
            },
        }
    }
}

/// An identity in a snapshot.
#[derive(Clone, Copy)]
pub struct IdentityEntry {
    pub dest_hash: DestHash,
    pub pub_key: [u8; 64],
}

/// A snapshot.
pub struct Snapshot {
    pub version: u8,
    pub paths: Vec<PathEntry>,
    pub identities: Vec<IdentityEntry>,
}

/// What a snapshot of the given detail says of the path `p` to `dest`.
pub open spec fn saved_path(dest: DestHash, p: Path, detail: SnapshotDetail) -> PathEntryView {
    PathEntryView {
        dest_hash: dest,
        via: p.via,
        learned_at: p.learned_at,
        last_accessed: p.last_accessed,
        last_snr: p.last_snr,
        hops: p.hops,
        announce_raw: if detail is Minimal {
            None
        } else {
            p.announce()
        },
    }
}

impl Snapshot {
    /// The paths in the snapshot.
    pub open spec fn path_views(self) -> Seq<PathEntryView> {
        Seq::new(self.paths@.len(), |i: int| self.paths@[i]@)
    }
}

} // verus!
