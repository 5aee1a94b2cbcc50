//! Time as the consensus logic sees it: spans measured in nanoseconds and
//! opaque points on the machine's monotonic clock.
use std::time::Instant;
use vstd::prelude::*;

verus! {

/// A point on the monotonic clock. Only the clock itself can compare two of
/// them, so the logic carries them around without looking inside.
#[verifier::external_type_specification]
#[verifier::external_body]
pub struct ExInstant(Instant);

/// A span of time.
#[derive(Debug, Clone, Copy, PartialEq, Eq, Structural)]
pub struct Duration {
    pub nanos: u128,
}

impl Duration {
    pub fn from_millis(millis: u64) -> (r: Self)
        ensures
            r.nanos == millis * 1_000_000,
    {
        Duration { nanos: millis as u128 * 1_000_000 }
    }

    /// Whole milliseconds in this span, rounded down.
    pub fn as_millis(&self) -> (r: u128)
        ensures
            r == self.nanos as int / 1_000_000,
    {
        self.nanos / 1_000_000
    }

    /// This span divided by `parts`, rounded down to a nanosecond.
    pub fn divided_by(&self, parts: u32) -> (r: Self)
        requires
            parts != 0,
        ensures
            r.nanos == self.nanos as int / parts as int,
    {
        Duration { nanos: self.nanos / (parts as u128) }
    }
}

/// `std::time::Instant::now`. Nothing is claimed of the point it returns: it
/// depends on when the call is made.
#[verifier::external_body]
pub(crate) fn now() -> (r: Instant) {
    Instant::now()
}

/// `nanos` is a span that the clock has measured from `start` on. How long it
/// is depends on when the clock was read.
pub uninterp spec fn measured(start: Instant, nanos: u128) -> bool;

/// `std::time::Instant::elapsed`, in nanoseconds. The result is what the clock
/// measured from `start` on when the call was made; nothing is claimed of how
/// much that is.
#[verifier::external_body]
pub(crate) fn nanos_since(start: &Instant) -> (r: u128)
    ensures
        measured(*start, r),
{
    start.elapsed().as_nanos()
}

} // verus!
