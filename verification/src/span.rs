//! Lengths of time, counted in whole nanoseconds.

use vstd::prelude::*;

verus! {

/// Nanoseconds in a microsecond.
pub const NANOS_PER_MICRO: u128 = 1_000;

/// A length of time, or a point in time as its distance from the origin of the
/// caller's clock.
#[derive(Clone, Copy, Debug, PartialEq, Eq, Structural)]
pub struct Span {
    /// Whole nanoseconds.
    pub nanos: u128,
}

impl Span {
    /// Whole microseconds, as far as 64 bits hold them.
    pub open spec fn micros(self) -> int {
        (self.nanos as int / NANOS_PER_MICRO as int) % 0x1_0000_0000_0000_0000
    }

    /// The span of `micros` microseconds.
    pub open spec fn of_micros(micros: int) -> Span {
        Span { nanos: (micros * NANOS_PER_MICRO) as u128 }
    }

    /// How much later than `earlier` this point in time is; nothing where it is
    /// not later.
    pub open spec fn after(self, earlier: Span) -> Span {
        if self.nanos > earlier.nanos {
            Span { nanos: (self.nanos - earlier.nanos) as u128 }
        } else {
            Span { nanos: 0 }
        }
    }

    /// The longer of two spans.
    pub open spec fn longer(self, other: Span) -> Span {
        if self.nanos < other.nanos {
            other
        } else {
            self
        }
    }

    /// The span of `nanos` nanoseconds.
    pub fn from_nanos(nanos: u128) -> (result: Span)
        ensures
            result.nanos == nanos,
    {
        Span { nanos }
    }

    /// The span of `micros` microseconds.
    pub fn from_micros(micros: u64) -> (result: Span)
        ensures
            result == Span::of_micros(micros as int),
            result.nanos == micros * NANOS_PER_MICRO,
    {
        Span { nanos: micros as u128 * NANOS_PER_MICRO }
    }

    /// Whether this is no time at all.
    pub fn is_zero(self) -> (result: bool)
        ensures
            result == (self.nanos == 0),
    {
        self.nanos == 0
    }

    /// Whole microseconds, of which the lower 64 bits are kept.
    pub fn as_micros(self) -> (result: u64)
        ensures
            result == self.micros(),
    {
        let micros: u128 = self.nanos / NANOS_PER_MICRO;
        let result: u64 = #[verifier::truncate] (micros as u64);
        assert(result == micros % 0x1_0000_0000_0000_0000) by (bit_vector)
            requires
                result == micros as u64,
        ;
        result
    }

    /// How much later than `earlier` this point in time is; nothing where it is
    /// not later.
    pub fn saturating_sub(self, earlier: Span) -> (result: Span)
        ensures
            result == self.after(earlier),
    {
        if self.nanos > earlier.nanos {
            Span { nanos: self.nanos - earlier.nanos }
        } else {
            Span { nanos: 0 }
        }
    }

    /// The longer of two spans.
    pub fn max(self, other: Span) -> (result: Span)
        ensures
            result == self.longer(other),
    {
        if self.nanos < other.nanos {
            other
        } else {
            self
        }
    }
}

} // verus!
