//! Key comparison for cache lookups.
//!
//! The cache identifies a key by its view, so a key type has to offer an
//! executable equality test that decides view equality.

use vstd::prelude::*;

verus! {

/// A type usable as a cache key: it can decide whether two keys are the
/// same, where "the same" means equal views.
pub trait CacheKey: View + Sized {
    /// Executable equality on keys, agreeing with view equality.
    fn key_eq(&self, other: &Self) -> (b: bool)
        ensures
            b == (self@ == other@),
    ;
}

impl CacheKey for String {
    fn key_eq(&self, other: &Self) -> (b: bool) {
        self.eq(other)
    }
}

impl CacheKey for u64 {
    fn key_eq(&self, other: &Self) -> (b: bool) {
        *self == *other
    }
}

impl CacheKey for usize {
    fn key_eq(&self, other: &Self) -> (b: bool) {
        *self == *other
    }
}

} // verus!
