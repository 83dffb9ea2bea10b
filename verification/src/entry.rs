//! The entry that the in-process cache keeps for a key.

use vstd::prelude::*;

verus! {

/// One cached result of the in-process backend.
#[derive(Clone, Copy, Debug, PartialEq, Eq, Structural)]
pub struct CacheEntry {
    /// Handle of the cached host value. The embedding layer owns the host
    /// values and resolves handles to them.
    pub value: u64,
    /// When the entry was written, in nanoseconds of a monotonic clock.
    pub created_at: u64,
    /// How often the entry has been accessed since it was written.
    pub frequency: u64,
}

} // verus!
