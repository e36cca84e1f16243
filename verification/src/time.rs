//! Spans of time and points in time, to the nanosecond.

use vstd::prelude::*;

verus! {

/// The longest span: `u64::MAX` seconds and 999 999 999 nanoseconds.
pub const MAX_NANOS: u128 = 18_446_744_073_709_551_615_999_999_999;

/// A span of time. A point in time is given as the span since a fixed start.
#[derive(Clone, Copy, Debug, PartialEq, Eq, PartialOrd, Ord, Hash, Structural)]
pub struct Duration {
    /// The length in nanoseconds.
    pub nanos: u128,
}

impl View for Duration {
    type V = nat;

    open spec fn view(&self) -> nat {
        self.nanos as nat
    }
}

/// The nanoseconds in `secs` seconds.
pub open spec fn secs_nanos(secs: int) -> int {
    secs * 1_000_000_000
}

impl Duration {
    /// A span of whole seconds.
    pub fn from_secs(secs: u64) -> (r: Duration)
        ensures
            r@ == secs_nanos(secs as int),
            r@ <= MAX_NANOS,
    {
        Duration { nanos: secs as u128 * 1_000_000_000 }
    }

    /// The two spans one after the other.
    pub fn plus(self, other: Duration) -> (r: Duration)
        requires
            self@ + other@ <= MAX_NANOS,
        ensures
            r@ == self@ + other@,
    {
        Duration { nanos: self.nanos + other.nanos }
    }

    /// The span cut into `count` equal parts, each rounded down.
    pub fn divided(self, count: u32) -> (r: Duration)
        requires
            count > 0,
        ensures
            r@ == self@ / (count as nat),
    {
        Duration { nanos: self.nanos / count as u128 }
    }
}

/// A span is as long as its nanoseconds say, and a second has a thousand million of them.
pub proof fn law_spans_are_counted_in_nanoseconds(span: Duration, secs: int)
    ensures
        span@ == span.nanos,
        secs_nanos(secs) == secs * 1_000_000_000,
        secs_nanos(secs + 1) == secs_nanos(secs) + 1_000_000_000,
{
}

} // verus!
