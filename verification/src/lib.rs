//! A per-user versioned key-backup store layered over an ordered byte-keyed
//! storage engine.
//!
//! Escrowed session keys are organized by backup version, room and session.
//! The hierarchy is flattened into a single lexicographically ordered key
//! space by the codec in [`codec`]; the operations in [`backups`] exploit
//! prefix ordering for "latest version", per-room and per-version queries,
//! and bulk deletion.

use vstd::prelude::*;

pub mod backups;
pub mod codec;
pub mod laws;
pub mod store;

verus! {

/// Failures surfaced by the backup store.
#[derive(Clone, Copy, Debug, PartialEq, Eq, Structural)]
pub enum Error {
    /// The operation references a backup version that has no metadata.
    NotFound,
    /// A stored key or value does not have the shape the store requires.
    DataCorruption,
    /// The underlying ordered byte store reported a failure of its own.
    StoreFailure,
}

/// A strictly increasing source of version and etag numbers.
///
/// Every number handed out is larger than every number handed out before,
/// which is what makes version identifiers unique and etags usable for
/// staleness detection.
pub struct Counter {
    value: u64,
}

impl Counter {
    /// The last number handed out (or the starting point if none was).
    pub closed spec fn count(self) -> u64 {
        self.value
    }

    pub fn new(start: u64) -> (c: Counter)
        ensures
            c.count() == start,
    {
        Counter { value: start }
    }

    /// The current count, for callers that must check headroom before a
    /// mutating operation.
    pub fn peek(&self) -> (r: u64)
        ensures
            r == self.count(),
    {
        self.value
    }

    /// Hands out the next number: strictly above everything handed out so far.
    pub fn next_count(&mut self) -> (r: u64)
        requires
            old(self).count() < u64::MAX,
        ensures
            r == old(self).count() + 1,
            final(self).count() == r,
    {
        self.value = self.value + 1;
        self.value
    }
}

} // verus!
