//! Spans of time with nanosecond resolution.

use vstd::prelude::*;

verus! {

/// The longest duration: `u64::MAX` seconds and all nanoseconds but one of
/// another second.
pub const MAX_NANOS: u128 = 18_446_744_073_709_551_615_999_999_999;

/// A span of time.
#[derive(Debug, Clone, Copy, PartialEq, Eq, PartialOrd, Ord, Hash)]
pub struct Duration {
    nanos: u128,
}

impl View for Duration {
    type V = nat;

    /// The span in nanoseconds.
    closed spec fn view(&self) -> nat {
        self.nanos as nat
    }
}

impl Duration {
    #[verifier::type_invariant]
    spec fn fits(self) -> bool {
        self.nanos <= MAX_NANOS
    }

    /// No time at all.
    pub fn zero() -> (out: Duration)
        ensures
            out@ == 0,
    {
        Duration { nanos: 0 }
    }

    /// Seconds and the nanoseconds of a started second.
    pub fn new(secs: u64, nanos: u32) -> (out: Duration)
        requires
            nanos < 1_000_000_000,
        ensures
            out@ == secs * 1_000_000_000 + nanos,
    {
        Duration { nanos: secs as u128 * 1_000_000_000 + nanos as u128 }
    }

    /// A span of whole seconds.
    pub fn from_secs(secs: u64) -> (out: Duration)
        ensures
            out@ == secs * 1_000_000_000,
    {
        Duration { nanos: secs as u128 * 1_000_000_000 }
    }

    /// A span of whole milliseconds.
    pub fn from_millis(millis: u64) -> (out: Duration)
        ensures
            out@ == millis * 1_000_000,
    {
        Duration { nanos: millis as u128 * 1_000_000 }
    }

    /// A span of whole microseconds.
    pub fn from_micros(micros: u64) -> (out: Duration)
        ensures
            out@ == micros * 1_000,
    {
        Duration { nanos: micros as u128 * 1_000 }
    }

    /// A span of whole nanoseconds.
    pub fn from_nanos(nanos: u64) -> (out: Duration)
        ensures
            out@ == nanos,
    {
        Duration { nanos: nanos as u128 }
    }

    /// The whole microseconds of the span.
    pub fn as_micros(&self) -> (micros: u128)
        ensures
            micros == self@ / 1_000,
    {
        self.nanos / 1_000
    }

    /// The whole seconds of the span.
    pub fn as_secs(&self) -> (secs: u64)
        ensures
            secs == self@ / 1_000_000_000,
    {
        proof {
            use_type_invariant(self);
        }
        (self.nanos / 1_000_000_000) as u64
    }

    /// The nanoseconds of the span behind its whole seconds.
    pub fn subsec_nanos(&self) -> (nanos: u32)
        ensures
            nanos == self@ % 1_000_000_000,
    {
        (self.nanos % 1_000_000_000) as u32
    }

    /// The longer one of two spans.
    pub fn longer(self, other: Duration) -> (out: Duration)
        ensures
            out@ == (if self@ >= other@ {
                self@
            } else {
                other@
            }),
    {
        if self.nanos >= other.nanos {
            self
        } else {
            other
        }
    }

    /// The two spans together, or the longest duration where that is longer.
    pub fn saturating_add(self, other: Duration) -> (sum: Duration)
        ensures
            sum@ == (if self@ + other@ <= MAX_NANOS {
                self@ + other@
            } else {
                MAX_NANOS as nat
            }),
    {
        proof {
            use_type_invariant(&self);
            use_type_invariant(&other);
        }
        let sum: u128 = self.nanos + other.nanos;
        if sum <= MAX_NANOS {
            Duration { nanos: sum }
        } else {
            Duration { nanos: MAX_NANOS }
        }
    }
}

} // verus!
