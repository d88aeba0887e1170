//! Errors of the block cache.

use vstd::prelude::*;

verus! {

/// What a cache read can fail with.
#[derive(Clone, Debug, PartialEq, Eq)]
pub enum CacheError {
    /// An invariant of the cache did not hold for this request.
    Internal(String),
    /// The upstream fetch failed.
    Fetch(String),
}

impl CacheError {
    /// This is the internal error carrying `message`.
    pub open spec fn is_internal(self, message: Seq<char>) -> bool {
        self matches CacheError::Internal(m) && m@ == message
    }

    /// An internal error carrying `message`.
    pub fn internal(message: &str) -> (e: CacheError)
        ensures
            e.is_internal(message@),
    {
        CacheError::Internal(message.to_owned())
    }

    /// An independent copy of the error.
    pub fn duplicate(&self) -> (e: CacheError)
        ensures
            e == *self,
    {
        match self {
            CacheError::Internal(m) => CacheError::Internal(m.clone()),
            CacheError::Fetch(m) => CacheError::Fetch(m.clone()),
        }
    }
}

} // verus!
