//! Learned paths.
//!
//! What a path that was set up by hand looks like, and for how long it stays good, is this
//! library's own definition.

use crate::bytes;
use crate::hash::IdentityHash;
use vstd::prelude::*;

verus! {

/// Seconds for which a path that was set up by hand stays good: one week.
pub const PATH_LIFETIME: u64 = 604_800;

/// A raw announce packet that is kept with a path.
pub struct AnnounceCache {
    pub bytes: Vec<u8>,
}

impl AnnounceCache {
    /// Keeps a copy of `raw`.
    pub fn store(raw: &[u8]) -> (cache: Option<Self>)
        ensures
            cache matches Some(c) && c.bytes@ == raw@,
    {
        Some(AnnounceCache { bytes: bytes::copy_bytes(raw) })
    }

    /// A copy of what is kept.
    pub fn to_vec(&self) -> (raw: Vec<u8>)
        ensures
            raw@ == self.bytes@,
    {
        bytes::copy_bytes(self.bytes.as_slice())
    }
}

/// How a destination is reached.
pub struct Path {
    /// The next hop; none where the destination is reached directly.
    pub via: Option<IdentityHash>,
    pub learned_at: u64,
    /// When the path was last used.
    pub last_accessed: u64,
    /// Signal-to-noise ratio of the last announce.
    pub last_snr: Option<i16>,
    pub hops: u8,
    /// The announce that the path was learned from.
    pub announce_raw: Option<AnnounceCache>,
    /// Whether the path leads over a shared medium, not point to point.
    pub shared_medium: bool,
    /// Seconds for which the path stays good.
    pub lifetime: u64,
}

impl Path {
    /// The bytes of the announce that is kept with the path.
    pub open spec fn announce(self) -> Option<Seq<u8>> {
        match self.announce_raw {
            Some(cache) => Some(cache.bytes@),
            None => None,
        }
    }

    /// When the path stops to be good, as far as 64 bits can say.
    pub open spec fn expires_at(self) -> int {
        if self.learned_at + self.lifetime > u64::MAX {
            u64::MAX as int
        } else {
            self.learned_at + self.lifetime
        }
    }

    /// A path to a destination that is reached directly, learned at `now`.
    pub fn direct(now: u64) -> (path: Self)
        ensures
            path == direct_path(now),
    {
        Path {
            via: None,
            learned_at: now,
            last_accessed: now,
            last_snr: None,
            hops: 0,
            announce_raw: None,
            shared_medium: true,
            lifetime: PATH_LIFETIME,
        }
    }

    /// Seconds for which the path stays good.
    pub fn expiry_time(&self) -> (seconds: u64)
        ensures
            seconds == self.lifetime,
    {
        self.lifetime
    }
}

/// A path to a destination that is reached directly, learned at `now`.
pub open spec fn direct_path(now: u64) -> Path {
    Path {
        via: None,
        learned_at: now,
        last_accessed: now,
        last_snr: None,
        hops: 0,
        announce_raw: None,
        shared_medium: true,
        lifetime: PATH_LIFETIME,
    }
}

} // verus!
