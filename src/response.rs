//! The timed envelope in which every operation returns its result.
use vstd::prelude::*;

verus! {

/// A result with the time, in nanoseconds, that the store took to produce it.
#[derive(Clone, Debug, PartialEq, Eq)]
pub struct DbResponse<T> {
    pub result: T,
    pub duration: u64,
}

pub open spec fn saturating_sum(a: nat, b: nat) -> nat {
    if a + b > u64::MAX {
        u64::MAX as nat
    } else {
        a + b
    }
}

impl<T> DbResponse<T> {
    pub fn new(result: T, duration: u64) -> (r: DbResponse<T>)
        ensures
            r.result == result,
            r.duration == duration,
    {
        DbResponse { result, duration }
    }

    /// The same result, with the time of a further step added (at most
    /// `u64::MAX` in all).
    pub fn with_added_duration(self, extra: u64) -> (r: DbResponse<T>)
        ensures
            r.result == self.result,
            r.duration == saturating_sum(self.duration as nat, extra as nat),
    {
        let duration = self.duration.saturating_add(extra);
        DbResponse { result: self.result, duration }
    }
}

} // verus!
