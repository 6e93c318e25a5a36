//! Fixed-width hashes that name destinations, identities and links.

use crate::bytes;
use vstd::prelude::*;

verus! {

/// Width in bytes of a truncated hash.
pub const TRUNCATED_HASH_LEN: usize = 16;

/// Names a destination.
#[derive(Clone, Copy, Debug)]
pub struct DestHash(pub [u8; 16]);

/// Names an identity.
#[derive(Clone, Copy, Debug)]
pub struct IdentityHash(pub [u8; 16]);

/// Names a link.
#[derive(Clone, Copy, Debug)]
pub struct LinkId(pub [u8; 16]);

impl PartialEq for DestHash {
    fn eq(&self, other: &Self) -> (same: bool) {
        bytes::bytes_eq(&self.0, &other.0)
    }
}

impl vstd::std_specs::cmp::PartialEqSpecImpl for DestHash {
    open spec fn obeys_eq_spec() -> bool {
        true
    }

    open spec fn eq_spec(&self, other: &Self) -> bool {
        self.0 == other.0
    }
}

impl Eq for DestHash {

}

impl PartialEq for IdentityHash {
    fn eq(&self, other: &Self) -> (same: bool) {
        bytes::bytes_eq(&self.0, &other.0)
    }
}

impl vstd::std_specs::cmp::PartialEqSpecImpl for IdentityHash {
    open spec fn obeys_eq_spec() -> bool {
        true
    }

    open spec fn eq_spec(&self, other: &Self) -> bool {
        self.0 == other.0
    }
}

impl Eq for IdentityHash {

}

impl PartialEq for LinkId {
    fn eq(&self, other: &Self) -> (same: bool) {
        bytes::bytes_eq(&self.0, &other.0)
    }
}

impl vstd::std_specs::cmp::PartialEqSpecImpl for LinkId {
    open spec fn obeys_eq_spec() -> bool {
        true
    }

    open spec fn eq_spec(&self, other: &Self) -> bool {
        self.0 == other.0
    }
}

impl Eq for LinkId {

}

impl From<[u8; 16]> for DestHash {
    fn from(bytes: [u8; 16]) -> (hash: Self) {
        DestHash(bytes)
    }
}

impl vstd::std_specs::convert::FromSpecImpl<[u8; 16]> for DestHash {
    open spec fn obeys_from_spec() -> bool {
        true
    }

    open spec fn from_spec(bytes: [u8; 16]) -> Self {
        DestHash(bytes)
    }
}

impl From<[u8; 16]> for IdentityHash {
    fn from(bytes: [u8; 16]) -> (hash: Self) {
        IdentityHash(bytes)
    }
}

impl vstd::std_specs::convert::FromSpecImpl<[u8; 16]> for IdentityHash {
    open spec fn obeys_from_spec() -> bool {
        true
    }

    open spec fn from_spec(bytes: [u8; 16]) -> Self {
        IdentityHash(bytes)
    }
}

impl From<[u8; 16]> for LinkId {
    fn from(bytes: [u8; 16]) -> (hash: Self) {
        LinkId(bytes)
    }
}

impl vstd::std_specs::convert::FromSpecImpl<[u8; 16]> for LinkId {
    open spec fn obeys_from_spec() -> bool {
        true
    }

    open spec fn from_spec(bytes: [u8; 16]) -> Self {
        LinkId(bytes)
    }
}

impl DestHash {
    /// The destination whose sixteen bytes are `bytes`.
    pub fn from_slice(bytes: &[u8]) -> (hash: Self)
        requires
            bytes.len() == TRUNCATED_HASH_LEN,
        ensures
            hash == DestHash(bytes::array_of(bytes@)),
            hash.0@ == bytes@,
    {
        DestHash(bytes::to_array(bytes))
    }
}

} // verus!
