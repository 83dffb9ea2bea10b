//! The key under which the in-process cache keeps an entry.

use vstd::prelude::*;

verus! {

/// A cache key: the identity of a host object together with its host hash.
///
/// Two keys are the same key exactly if the host calls their objects
/// equal. The embedding layer gives equal objects the same identity, and
/// with it the same hash.
#[derive(Clone, Copy, Debug, PartialEq, Eq, Structural)]
pub struct CacheKey {
    /// The host hash of the object.
    pub hash: isize,
    /// The identity of the host object.
    pub key_obj: u64,
}

impl CacheKey {
    /// The key of the host object `key_obj`, whose host hash is `hash`.
    pub fn new(hash: isize, key_obj: u64) -> (key: CacheKey)
        ensures
            key == (CacheKey { hash, key_obj }),
    {
        CacheKey { hash, key_obj }
    }
}

} // verus!
