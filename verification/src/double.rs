//! Double-precision numbers, held by their bit pattern.
//!
//! What a pattern means is stated over the exact value that it stands for, an
//! integer multiple of two to the power -1074. Order, extremes and truncation
//! are settled here; arithmetic has a module of its own.

use vstd::arithmetic::div_mod::{
    lemma_div_denominator, lemma_div_is_ordered, lemma_div_multiples_vanish,
    lemma_fundamental_div_mod,
};
use vstd::arithmetic::mul::{
    lemma_mul_inequality, lemma_mul_is_associative, lemma_mul_is_commutative,
    lemma_mul_strict_inequality,
};
use vstd::arithmetic::power2::{
    lemma2_to64, lemma2_to64_rest, lemma_pow2_adds, lemma_pow2_pos, lemma_pow2_strictly_increases,
    lemma_pow2_unfold, pow2,
};
use vstd::bits::{lemma_u64_shl_is_mul, lemma_u64_shr_is_div};
use vstd::prelude::*;

verus! {

/// The lowest bit pattern with the sign bit set.
pub const SIGN_BIT: u64 = 0x8000_0000_0000_0000;

/// The bit pattern of positive infinity; patterns above it, sign aside, are
/// not numbers.
pub const INFINITY_BITS: u64 = 0x7ff0_0000_0000_0000;

/// The bit pattern under which everything that is not a number is held.
pub const NAN_BITS: u64 = 0x7ff8_0000_0000_0000;

/// Two to the power 52: how many patterns share one exponent.
pub const FRACTION_UNIT: u64 = 0x10_0000_0000_0000;

/// A double-precision number.
#[derive(Clone, Copy, Debug, PartialEq, Eq, Structural)]
pub struct Double {
    /// Sign, exponent and fraction, from the highest bit to the lowest.
    pub bits: u64,
}

/// The absolute value, in units of two to the power -1074, of the pattern
/// `payload` (a pattern without its sign bit). Infinity counts as the next
/// power of two after the largest finite number.
pub open spec fn magnitude(payload: int) -> int {
    let exponent = payload / FRACTION_UNIT as int;
    let fraction = payload % FRACTION_UNIT as int;
    if exponent == 0 {
        fraction
    } else {
        (FRACTION_UNIT + fraction) * pow2((exponent - 1) as nat)
    }
}

impl Double {
    /// Whether the sign bit is set.
    pub open spec fn is_negative(self) -> bool {
        self.bits >= SIGN_BIT
    }

    /// The pattern without its sign bit.
    pub open spec fn payload(self) -> int {
        if self.is_negative() {
            self.bits - SIGN_BIT
        } else {
            self.bits as int
        }
    }

    /// Whether the pattern stands for no number.
    pub open spec fn is_nan(self) -> bool {
        self.payload() > INFINITY_BITS
    }

    /// Whether the pattern stands for an infinity.
    pub open spec fn is_infinite(self) -> bool {
        self.payload() == INFINITY_BITS
    }

    /// Whether the pattern stands for a number that is not infinite.
    pub open spec fn is_finite(self) -> bool {
        self.payload() < INFINITY_BITS
    }

    /// The value of a number, in units of two to the power -1074.
    pub open spec fn scaled(self) -> int {
        if self.is_negative() {
            -magnitude(self.payload())
        } else {
            magnitude(self.payload())
        }
    }

    /// Both are numbers, and the first is the smaller.
    pub open spec fn is_below(self, other: Double) -> bool {
        !self.is_nan() && !other.is_nan() && self.scaled() < other.scaled()
    }

    /// Both are numbers, and the first is not the larger.
    pub open spec fn is_at_most(self, other: Double) -> bool {
        !self.is_nan() && !other.is_nan() && self.scaled() <= other.scaled()
    }

    /// The smaller of two; a number where the other is none.
    pub open spec fn lesser(self, other: Double) -> Double {
        if self.is_nan() || other.is_below(self) {
            other
        } else {
            self
        }
    }

    /// The larger of two; a number where the other is none.
    pub open spec fn greater(self, other: Double) -> Double {
        if self.is_nan() || self.is_below(other) {
            other
        } else {
            self
        }
    }

    /// The value with its fraction cut off, held within the range of `u64`; 0
    /// for what is not a number.
    pub open spec fn truncated(self) -> int {
        if self.is_nan() || self.is_negative() {
            0
        } else if self.scaled() / pow2(1074) as int > u64::MAX {
            u64::MAX as int
        } else {
            self.scaled() / pow2(1074) as int
        }
    }

    /// The number with the given pattern. All patterns that stand for no number
    /// come out as one.
    pub fn from_bits(bits: u64) -> (result: Double)
        ensures
            (Double { bits }).is_nan() ==> result.bits == NAN_BITS,
            !(Double { bits }).is_nan() ==> result.bits == bits,
    {
        let payload: u64 = if bits >= SIGN_BIT {
            bits - SIGN_BIT
        } else {
            bits
        };
        if payload > INFINITY_BITS {
            Double { bits: NAN_BITS }
        } else {
            Double { bits }
        }
    }

    /// The bit pattern.
    pub fn to_bits(self) -> (result: u64)
        ensures
            result == self.bits,
    {
        self.bits
    }

    /// The significand of a finite number, and the exponent of its last place in
    /// units of two to the power -1074.
    pub(crate) fn parts(self) -> (result: (u64, u64))
        requires
            self.is_finite(),
        ensures
            magnitude(self.payload()) == result.0 * pow2(result.1 as nat),
            result.0 < 2 * FRACTION_UNIT,
            result.1 <= 2045,
            result.1 > 0 ==> result.0 >= FRACTION_UNIT,
    {
        let payload: u64 = self.exec_payload();
        let exponent: u64 = payload / FRACTION_UNIT;
        let fraction: u64 = payload % FRACTION_UNIT;
        if exponent == 0 {
            proof {
                lemma2_to64();
            }
            (fraction, 0)
        } else {
            (FRACTION_UNIT + fraction, exponent - 1)
        }
    }

    pub(crate) fn exec_payload(self) -> (result: u64)
        ensures
            result == self.payload(),
            result < SIGN_BIT,
    {
        if self.bits >= SIGN_BIT {
            self.bits - SIGN_BIT
        } else {
            self.bits
        }
    }

    /// Whether this is no number.
    pub fn nan(self) -> (result: bool)
        ensures
            result == self.is_nan(),
    {
        self.exec_payload() > INFINITY_BITS
    }

    /// `self < other`: false where either is no number.
    pub fn below(self, other: Double) -> (result: bool)
        ensures
            result == self.is_below(other),
    {
        let a: u64 = self.exec_payload();
        let b: u64 = other.exec_payload();
        proof {
            lemma_magnitude_order(self.payload(), other.payload());
            lemma_magnitude_order(other.payload(), self.payload());
            lemma_magnitude_order(0, self.payload());
            lemma_magnitude_order(0, other.payload());
        }
        if a > INFINITY_BITS || b > INFINITY_BITS {
            false
        } else if self.bits >= SIGN_BIT {
            if other.bits >= SIGN_BIT {
                b < a
            } else {
                a != 0 || b != 0
            }
        } else {
            if other.bits >= SIGN_BIT {
                false
            } else {
                a < b
            }
        }
    }

    /// `self <= other`: false where either is no number.
    pub fn at_most(self, other: Double) -> (result: bool)
        ensures
            result == self.is_at_most(other),
    {
        !self.nan() && !other.nan() && !other.below(self)
    }

    /// The smaller of two; a number where the other is none.
    pub fn min(self, other: Double) -> (result: Double)
        ensures
            result == self.lesser(other),
    {
        if self.nan() || other.below(self) {
            other
        } else {
            self
        }
    }

    /// The value with its fraction cut off, held within the range of `u64`; 0
    /// for what is not a number.
    pub fn to_u64(self) -> (result: u64)
        ensures
            result == self.truncated(),
    {
        let payload: u64 = self.exec_payload();
        if payload > INFINITY_BITS || self.bits >= SIGN_BIT {
            return 0;
        }
        let exponent: u64 = payload / FRACTION_UNIT;
        let significand: u64 = FRACTION_UNIT + payload % FRACTION_UNIT;
        proof {
            lemma_truncated(payload as int);
        }
        if exponent < 1023 {
            0
        } else if exponent > 1086 {
            u64::MAX
        } else if exponent >= 1075 {
            let shift: u64 = exponent - 1075;
            proof {
                lemma_shift_left(significand, shift);
            }
            significand << shift
        } else {
            let shift: u64 = 1075 - exponent;
            proof {
                lemma_u64_shr_is_div(significand, shift);
            }
            significand >> shift
        }
    }

    /// The larger of two; a number where the other is none.
    pub fn max(self, other: Double) -> (result: Double)
        ensures
            result == self.greater(other),
    {
        if self.nan() || self.below(other) {
            other
        } else {
            self
        }
    }
}

/// A larger pattern stands for a larger absolute value.
pub proof fn lemma_magnitude_order(a: int, b: int)
    requires
        0 <= a,
        0 <= b,
    ensures
        a < b ==> magnitude(a) < magnitude(b),
        a == b ==> magnitude(a) == magnitude(b),
        magnitude(0) == 0,
        magnitude(a) >= 0,
{
    let unit = FRACTION_UNIT as int;
    let (ea, fa) = (a / unit, a % unit);
    let (eb, fb) = (b / unit, b % unit);
    lemma_fundamental_div_mod(a, unit);
    lemma_fundamental_div_mod(b, unit);
    if ea > 0 {
        lemma_pow2_pos((ea - 1) as nat);
        lemma_mul_inequality(0, unit + fa, pow2((ea - 1) as nat) as int);
    }
    if a < b {
        lemma_div_is_ordered(a, b, unit);
        if ea == eb {
            if ea > 0 {
                lemma_mul_strict_inequality(unit + fa, unit + fb, pow2((ea - 1) as nat) as int);
            }
        } else {
            lemma_pow2_pos((eb - 1) as nat);
            lemma_mul_inequality(unit, unit + fb, pow2((eb - 1) as nat) as int);
            if ea == 0 {
                lemma_mul_inequality(1, pow2((eb - 1) as nat) as int, unit);
                lemma_mul_is_commutative(unit, pow2((eb - 1) as nat) as int);
            } else {
                lemma_mul_strict_inequality(unit + fa, 2 * unit, pow2((ea - 1) as nat) as int);
                lemma_pow2_unfold(ea as nat);
                assert(2 * unit * pow2((ea - 1) as nat) == unit * pow2(ea as nat)) by {
                    lemma_mul_is_commutative(2, unit);
                    lemma_mul_is_associative(unit, 2, pow2((ea - 1) as nat) as int);
                }
                if ea < eb - 1 {
                    lemma_pow2_strictly_increases(ea as nat, (eb - 1) as nat);
                }
                lemma_mul_inequality(pow2(ea as nat) as int, pow2((eb - 1) as nat) as int, unit);
                lemma_mul_is_commutative(unit, pow2(ea as nat) as int);
                lemma_mul_is_commutative(unit, pow2((eb - 1) as nat) as int);
            }
        }
    }
}

/// What is left of a significand that is moved up by at most 11 places.
proof fn lemma_shift_left(significand: u64, shift: u64)
    requires
        significand < 2 * FRACTION_UNIT,
        shift <= 11,
    ensures
        significand << shift == significand * pow2(shift as nat),
        significand * pow2(shift as nat) <= u64::MAX,
{
    lemma2_to64();
    lemma_pow2_pos(shift as nat);
    if shift < 11 {
        lemma_pow2_strictly_increases(shift as nat, 11);
    }
    lemma_mul_inequality(significand as int, 2 * FRACTION_UNIT - 1, pow2(shift as nat) as int);
    lemma_mul_inequality(pow2(shift as nat) as int, 2048, 2 * FRACTION_UNIT - 1);
    lemma_mul_is_commutative(pow2(shift as nat) as int, 2 * FRACTION_UNIT - 1);
    lemma_u64_shl_is_mul(significand, shift);
}

/// The integer part of a non-negative number, by its exponent.
proof fn lemma_truncated(payload: int)
    requires
        0 <= payload <= INFINITY_BITS,
    ensures
        ({
            let exponent = payload / FRACTION_UNIT as int;
            let significand = FRACTION_UNIT + payload % FRACTION_UNIT as int;
            let whole = magnitude(payload) / pow2(1074) as int;
            if exponent < 1023 {
                whole == 0
            } else if exponent < 1075 {
                whole == significand / pow2((1075 - exponent) as nat) as int
            } else if exponent <= 1086 {
                whole == significand * pow2((exponent - 1075) as nat)
            } else {
                whole > u64::MAX
            }
        }),
{
    let exponent = payload / FRACTION_UNIT as int;
    let significand = FRACTION_UNIT + payload % FRACTION_UNIT as int;
    let unit = pow2(1074) as int;
    lemma_fundamental_div_mod(payload, FRACTION_UNIT as int);
    lemma_pow2_pos(1074);
    lemma2_to64();
    if exponent < 1075 {
        if exponent == 0 {
            lemma_pow2_strictly_increases(64, 1074);
            assert(pow2(64) > u64::MAX);
            vstd::arithmetic::div_mod::lemma_basic_div(magnitude(payload), unit);
        } else {
            let low = pow2((exponent - 1) as nat) as int;
            let high = pow2((1075 - exponent) as nat) as int;
            lemma_pow2_pos((exponent - 1) as nat);
            lemma_pow2_pos((1075 - exponent) as nat);
            lemma_pow2_adds((exponent - 1) as nat, (1075 - exponent) as nat);
            lemma_div_denominator(significand * low, low, high);
            lemma_div_multiples_vanish(significand, low);
            lemma_mul_is_commutative(significand, low);
            if exponent < 1023 {
                lemma2_to64_rest();
                if 53 < 1075 - exponent {
                    lemma_pow2_strictly_increases(53, (1075 - exponent) as nat);
                }
                vstd::arithmetic::div_mod::lemma_basic_div(significand, high);
            }
        }
    } else {
        let extra = pow2((exponent - 1075) as nat) as int;
        lemma_pow2_adds(1074, (exponent - 1075) as nat);
        assert(magnitude(payload) == unit * (significand * extra)) by {
            lemma_mul_is_associative(significand, extra, unit);
            lemma_mul_is_commutative(extra, unit);
            lemma_mul_is_commutative(significand * extra, unit);
        }
        lemma_mul_is_commutative(significand * extra, unit);
        lemma_div_multiples_vanish(significand * extra, unit);
        if exponent > 1086 {
            if exponent - 1075 > 12 {
                lemma_pow2_strictly_increases(12, (exponent - 1075) as nat);
            }
            lemma_mul_inequality(FRACTION_UNIT as int, significand, extra);
            lemma_mul_inequality(4096, extra, FRACTION_UNIT as int);
            lemma_mul_is_commutative(extra, FRACTION_UNIT as int);
        }
    }
}

} // verus!
