//! Spans of time.
use vstd::prelude::*;

verus! {

/// The number of nanoseconds in a second.
pub const NANOS_PER_SEC: u128 = 1_000_000_000;

/// The number of nanoseconds in a millisecond.
pub const NANOS_PER_MILLI: u128 = 1_000_000;

/// The longest span: the largest number of 64 bit seconds, and a nanosecond less than
/// one more.
pub const MAX_NANOS: u128 = 18_446_744_073_709_551_615_999_999_999;

/// A span of time, to the nanosecond.
#[derive(Clone, Copy, Debug, PartialEq, Eq, Structural)]
pub struct Duration {
    nanos: u128,
}

impl View for Duration {
    type V = int;

    closed spec fn view(&self) -> int {
        self.nanos as int
    }
}

impl Duration {
    #[verifier::type_invariant]
    spec fn in_range(self) -> bool {
        self.nanos <= MAX_NANOS
    }

    /// The span of some milliseconds.
    pub fn from_millis(millis: u64) -> (d: Duration)
        ensures
            d@ == millis * NANOS_PER_MILLI,
    {
        Duration { nanos: millis as u128 * NANOS_PER_MILLI }
    }

    /// The span of some seconds.
    pub fn from_secs(secs: u64) -> (d: Duration)
        ensures
            d@ == secs * NANOS_PER_SEC,
    {
        Duration { nanos: secs as u128 * NANOS_PER_SEC }
    }

    /// The whole seconds of a span.
    pub fn as_secs(&self) -> (secs: u64)
        ensures
            secs == self@ / NANOS_PER_SEC as int,
    {
        proof {
            use_type_invariant(self);
        }
        (self.nanos / NANOS_PER_SEC) as u64
    }

    /// The nanoseconds of a span beyond its whole seconds.
    pub fn subsec_nanos(&self) -> (nanos: u32)
        ensures
            nanos == self@ % NANOS_PER_SEC as int,
    {
        (self.nanos % NANOS_PER_SEC) as u32
    }

    /// Whether twice the span is a span.
    pub fn can_double(&self) -> (b: bool)
        ensures
            b == (self@ * 2 <= MAX_NANOS),
    {
        proof {
            use_type_invariant(self);
        }
        self.nanos * 2 <= MAX_NANOS
    }

    /// Twice the span.
    pub fn doubled(&self) -> (d: Duration)
        requires
            self@ * 2 <= MAX_NANOS,
        ensures
            d@ == self@ * 2,
    {
        Duration { nanos: self.nanos * 2 }
    }

    /// The shorter of two spans.
    pub fn shorter(self, other: Duration) -> (d: Duration)
        ensures
            d@ == if self@ <= other@ {
                self@
            } else {
                other@
            },
    {
        if self.nanos <= other.nanos {
            self
        } else {
            other
        }
    }
}

impl Default for Duration {
    /// No time at all.
    fn default() -> (d: Duration)
        ensures
            d@ == 0,
    {
        Duration { nanos: 0 }
    }
}

/// A second is a thousand milliseconds of a million nanoseconds each, and the longest span
/// is all the seconds that 64 bits can count and a nanosecond less than one more.
pub proof fn law_spans_are_counted_in_nanoseconds(seconds: u64, millis: u64)
    ensures
        seconds * NANOS_PER_SEC == seconds * 1_000_000_000,
        millis * NANOS_PER_MILLI == millis * 1_000_000,
        MAX_NANOS == u64::MAX * 1_000_000_000 + 999_999_999,
{
}

} // verus!
