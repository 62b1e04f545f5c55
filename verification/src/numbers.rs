//! The numbers that the rules of the controller are written with.
//!
//! Each constant below is the bit pattern of the double closest to the decimal in
//! its comment; `law_numbers` states it.

use crate::arith::closest;
use crate::double::{lemma_magnitude_order, Double, FRACTION_UNIT, INFINITY_BITS};
use crate::rounding::{halfway, lemma_nearest, lemma_nearest_exact, lemma_packed};
use vstd::arithmetic::power2::{
    lemma2_to64, lemma2_to64_rest, lemma_pow2_adds, lemma_pow2_pos, pow2,
};
use vstd::prelude::*;

verus! {

/// Delta in steady state: how much to weigh delay against throughput. (0.4)
pub const COPA_DELTA: u64 = 0x3fd9_9999_9999_999a;

/// Delta during slow start. (0.4)
pub const SLOW_START_DELTA: u64 = 0x3fd9_9999_9999_999a;

/// Largest share of bytes lost in a round: above it the flow is held to compete with
/// flows that fill buffers. (0.1)
pub const LOSS_RATE_THRESHOLD: u64 = 0x3fb9_9999_9999_999a;

/// Factor on delta for each acknowledgement in competitive mode. (2.0)
pub const COMPETITIVE_GAIN: u64 = 0x4000_0000_0000_0000;

/// Upper bound on an adapted delta. (0.5)
pub const MAX_DELTA: u64 = 0x3fe0_0000_0000_0000;

/// Delta below which the target rate may be bounced. (0.2)
pub const BOUNCE_DELTA: u64 = 0x3fc9_9999_9999_999a;

/// Factor on a bounced target rate. (2.2)
pub const BOUNCE_GAIN: u64 = 0x4001_9999_9999_999a;

/// Lower bound on delta at the start. (0.05)
pub const INITIAL_MIN_DELTA: u64 = 0x3fa9_9999_9999_999a;

/// Share of bytes lost in a round above which delta follows the loss. (0.06)
pub const LOSSY_RATE: u64 = 0x3fae_b851_eb85_1eb8;

/// Factor on the lower bound of delta for each interval, predictive rule. (0.98)
pub const PREDICTIVE_DECAY: u64 = 0x3fef_5c28_f5c2_8f5c;

/// Least lower bound of delta, predictive rule. (0.04)
pub const PREDICTIVE_FLOOR: u64 = 0x3fa4_7ae1_47ae_147b;

/// Factor on the lower bound of delta for each interval, current rule. (0.9)
pub const CURRENT_DECAY: u64 = 0x3fec_cccc_cccc_cccd;

/// Least lower bound of delta, current rule. (0.05)
pub const CURRENT_FLOOR: u64 = 0x3fa9_9999_9999_999a;

/// Numerator of the delta that holds the queueing delay to a limit. (12.0)
pub const PROBE_WEIGHT: u64 = 0x4028_0000_0000_0000;

/// Longest queueing delay, in milliseconds, that a probe aims at. (40.0)
pub const PROBE_DELAY_CAP: u64 = 0x4044_0000_0000_0000;

/// Upper bound on a probing delta. (0.4)
pub const PROBE_MAX_DELTA: u64 = 0x3fd9_9999_9999_999a;

/// Share of the minimum round trip that may queue in steady state. (0.4)
pub const STEADY_DELAY_SHARE: u64 = 0x3fd9_9999_9999_999a;

/// Longest queueing delay, in milliseconds, that is aimed at in steady state. (20.0)
pub const STEADY_DELAY_CAP: u64 = 0x4034_0000_0000_0000;

/// Numerator of the queueing delay that a candidate brings, predictive rule. (1.2)
pub const PREDICTIVE_QUEUE_WEIGHT: u64 = 0x3ff3_3333_3333_3333;

/// Numerator of the queueing delay that a candidate brings, current rule. (1.5)
pub const CURRENT_QUEUE_WEIGHT: u64 = 0x3ff8_0000_0000_0000;

/// Divisor between the deviation of the rate and that of the data in flight. (1.5)
pub const BDP_DIVISOR: u64 = 0x3ff8_0000_0000_0000;

/// Deviations of the data in flight that a candidate has to cover. (2.0)
pub const BDP_SPREAD: u64 = 0x4000_0000_0000_0000;

/// Weight of the former average of the delivery rate. (0.85)
pub const EWMA_KEEP: u64 = 0x3feb_3333_3333_3333;

/// Weight of a new sample of the delivery rate. (0.15)
pub const EWMA_GAIN: u64 = 0x3fc3_3333_3333_3333;

/// Share of the minimum round trip after which the average of the delivery rate is
/// due. (0.5)
pub const REFRESH_SHARE: u64 = 0x3fe0_0000_0000_0000;

/// Units in a thousand units. (1000.0)
pub const THOUSAND: u64 = 0x408f_4000_0000_0000;

/// Nanoseconds in a second. (1000000000.0)
pub const BILLION: u64 = 0x41cd_cd65_0000_0000;

/// Bytes in a kibibyte, and kibibytes in a mebibyte. (1024.0)
pub const KIBI: u64 = 0x4090_0000_0000_0000;

/// One. (1.0)
pub const ONE: u64 = 0x3ff0_0000_0000_0000;

/// A candidate delta. (0.08)
pub const DELTA_08: u64 = 0x3fb4_7ae1_47ae_147b;

/// A candidate delta. (0.1)
pub const DELTA_10: u64 = 0x3fb9_9999_9999_999a;

/// A candidate delta. (0.2)
pub const DELTA_20: u64 = 0x3fc9_9999_9999_999a;

/// A candidate delta. (0.3)
pub const DELTA_30: u64 = 0x3fd3_3333_3333_3333;

/// A candidate delta. (0.4)
pub const DELTA_40: u64 = 0x3fd9_9999_9999_999a;

/// A candidate delta. (0.5)
pub const DELTA_50: u64 = 0x3fe0_0000_0000_0000;

/// A candidate delta. (0.04)
pub const DELTA_04: u64 = 0x3fa4_7ae1_47ae_147b;

/// A candidate delta. (0.05)
pub const DELTA_05: u64 = 0x3fa9_9999_9999_999a;

/// Zero.
pub const ZERO: u64 = 0;

/// The largest finite number.
pub const LARGEST: u64 = 0x7fef_ffff_ffff_ffff;

/// The smallest finite number, far below zero.
pub const LOWEST: u64 = 0xffef_ffff_ffff_ffff;

/// The double with the bit pattern `bits`.
pub open spec fn number(bits: u64) -> Double {
    Double { bits }
}

/// The double with the bit pattern `bits`.
pub fn double(bits: u64) -> (result: Double)
    ensures
        result == number(bits),
{
    Double { bits }
}

/// `bits` is the pattern of the double closest to `num / den`.
pub open spec fn denotes(bits: u64, num: int, den: int) -> bool {
    number(bits) == closest(num, den)
}

/// Reduces `denotes` to a comparison of small integers. Counted in units of its
/// last place, of which `scale` make one, the constant is exact or less than half
/// a unit away.
proof fn lemma_denotes(bits: u64, num: int, den: int, exponent: int, scale: int)
    requires
        den > 0,
        1 <= exponent <= 1074,
        bits as int / FRACTION_UNIT as int == exponent,
        scale == pow2((1075 - exponent) as nat),
        ({
            let off = (bits - FRACTION_UNIT * (exponent - 1)) * den - num * scale;
            off == 0 || (bits as int % FRACTION_UNIT as int > 0 && -den < 2 * off < den)
        }),
    ensures
        denotes(bits, num, den),
{
    let payload = bits as int;
    let significand = bits - FRACTION_UNIT * (exponent - 1);
    let off = significand * den - num * scale;
    let step = pow2((exponent - 1) as nat) as int;
    let exact = num * pow2(1074);
    lemma_pow2_adds((exponent - 1) as nat, (1075 - exponent) as nat);
    lemma_pow2_pos((exponent - 1) as nat);
    lemma_packed(significand, (exponent - 1) as nat);
    assert(exact == (num * scale) * step) by (nonlinear_arith)
        requires
            exact == num * pow2(1074),
            pow2(1074) == step * scale,
    ;
    if off == 0 {
        assert(exact == (significand * step) * den) by (nonlinear_arith)
            requires
                exact == (num * scale) * step,
                significand * den == num * scale,
        ;
        lemma_nearest_exact(exact, den, payload);
    } else {
        lemma_packed(significand - 1, (exponent - 1) as nat);
        lemma_packed(significand + 1, (exponent - 1) as nat);
        let (low, high) = (halfway(payload - 1), halfway(payload));
        assert(low * den < 2 * exact && 2 * exact < high * den) by (nonlinear_arith)
            requires
                low == (significand - 1) * step + significand * step,
                high == significand * step + (significand + 1) * step,
                exact == (num * scale) * step,
                off == significand * den - num * scale,
                -den < 2 * off < den,
                step > 0,
        ;
        lemma_nearest(exact, den, payload);
    }
}

/// Each constant is the double closest to the decimal in its comment.
pub proof fn law_numbers()
    ensures
        denotes(COPA_DELTA, 4, 10),
        denotes(SLOW_START_DELTA, 4, 10),
        denotes(LOSS_RATE_THRESHOLD, 1, 10),
        denotes(COMPETITIVE_GAIN, 2, 1),
        denotes(MAX_DELTA, 5, 10),
        denotes(BOUNCE_DELTA, 2, 10),
        denotes(BOUNCE_GAIN, 22, 10),
        denotes(INITIAL_MIN_DELTA, 5, 100),
        denotes(LOSSY_RATE, 6, 100),
        denotes(PREDICTIVE_DECAY, 98, 100),
        denotes(PREDICTIVE_FLOOR, 4, 100),
        denotes(CURRENT_DECAY, 9, 10),
        denotes(CURRENT_FLOOR, 5, 100),
        denotes(PROBE_WEIGHT, 12, 1),
        denotes(PROBE_DELAY_CAP, 40, 1),
        denotes(PROBE_MAX_DELTA, 4, 10),
        denotes(STEADY_DELAY_SHARE, 4, 10),
        denotes(STEADY_DELAY_CAP, 20, 1),
        denotes(PREDICTIVE_QUEUE_WEIGHT, 12, 10),
        denotes(CURRENT_QUEUE_WEIGHT, 15, 10),
        denotes(BDP_DIVISOR, 15, 10),
        denotes(BDP_SPREAD, 2, 1),
        denotes(EWMA_KEEP, 85, 100),
        denotes(EWMA_GAIN, 15, 100),
        denotes(REFRESH_SHARE, 5, 10),
        denotes(THOUSAND, 1000, 1),
        denotes(BILLION, 1_000_000_000, 1),
        denotes(KIBI, 1024, 1),
        denotes(ONE, 1, 1),
        denotes(DELTA_08, 8, 100),
        denotes(DELTA_10, 1, 10),
        denotes(DELTA_20, 2, 10),
        denotes(DELTA_30, 3, 10),
        denotes(DELTA_40, 4, 10),
        denotes(DELTA_50, 5, 10),
        denotes(DELTA_04, 4, 100),
        denotes(DELTA_05, 5, 100),
        number(ZERO).scaled() == 0,
        forall|x: Double| #![trigger x.scaled()]
            !x.is_nan() && x.payload() < INFINITY_BITS ==> number(LOWEST).scaled()
                <= x.scaled() <= number(LARGEST).scaled(),
{
    lemma2_to64();
    lemma2_to64_rest();
    lemma_denotes(COPA_DELTA, 4, 10, 1021, 0x40000000000000);
    lemma_denotes(SLOW_START_DELTA, 4, 10, 1021, 0x40000000000000);
    lemma_denotes(LOSS_RATE_THRESHOLD, 1, 10, 1019, 0x100000000000000);
    lemma_denotes(COMPETITIVE_GAIN, 2, 1, 1024, 0x8000000000000);
    lemma_denotes(MAX_DELTA, 5, 10, 1022, 0x20000000000000);
    lemma_denotes(BOUNCE_DELTA, 2, 10, 1020, 0x80000000000000);
    lemma_denotes(BOUNCE_GAIN, 22, 10, 1024, 0x8000000000000);
    lemma_denotes(INITIAL_MIN_DELTA, 5, 100, 1018, 0x200000000000000);
    lemma_denotes(LOSSY_RATE, 6, 100, 1018, 0x200000000000000);
    lemma_denotes(PREDICTIVE_DECAY, 98, 100, 1022, 0x20000000000000);
    lemma_denotes(PREDICTIVE_FLOOR, 4, 100, 1018, 0x200000000000000);
    lemma_denotes(CURRENT_DECAY, 9, 10, 1022, 0x20000000000000);
    lemma_denotes(CURRENT_FLOOR, 5, 100, 1018, 0x200000000000000);
    lemma_denotes(PROBE_WEIGHT, 12, 1, 1026, 0x2000000000000);
    lemma_denotes(PROBE_DELAY_CAP, 40, 1, 1028, 0x800000000000);
    lemma_denotes(PROBE_MAX_DELTA, 4, 10, 1021, 0x40000000000000);
    lemma_denotes(STEADY_DELAY_SHARE, 4, 10, 1021, 0x40000000000000);
    lemma_denotes(STEADY_DELAY_CAP, 20, 1, 1027, 0x1000000000000);
    lemma_denotes(PREDICTIVE_QUEUE_WEIGHT, 12, 10, 1023, 0x10000000000000);
    lemma_denotes(CURRENT_QUEUE_WEIGHT, 15, 10, 1023, 0x10000000000000);
    lemma_denotes(BDP_DIVISOR, 15, 10, 1023, 0x10000000000000);
    lemma_denotes(BDP_SPREAD, 2, 1, 1024, 0x8000000000000);
    lemma_denotes(EWMA_KEEP, 85, 100, 1022, 0x20000000000000);
    lemma_denotes(EWMA_GAIN, 15, 100, 1020, 0x80000000000000);
    lemma_denotes(REFRESH_SHARE, 5, 10, 1022, 0x20000000000000);
    lemma_denotes(THOUSAND, 1000, 1, 1032, 0x80000000000);
    lemma_denotes(BILLION, 1_000_000_000, 1, 1052, 0x800000);
    lemma_denotes(KIBI, 1024, 1, 1033, 0x40000000000);
    lemma_denotes(ONE, 1, 1, 1023, 0x10000000000000);
    lemma_denotes(DELTA_08, 8, 100, 1019, 0x100000000000000);
    lemma_denotes(DELTA_10, 1, 10, 1019, 0x100000000000000);
    lemma_denotes(DELTA_20, 2, 10, 1020, 0x80000000000000);
    lemma_denotes(DELTA_30, 3, 10, 1021, 0x40000000000000);
    lemma_denotes(DELTA_40, 4, 10, 1021, 0x40000000000000);
    lemma_denotes(DELTA_50, 5, 10, 1022, 0x20000000000000);
    lemma_denotes(DELTA_04, 4, 100, 1018, 0x200000000000000);
    lemma_denotes(DELTA_05, 5, 100, 1018, 0x200000000000000);
    lemma_magnitude_order(0, 0);
    assert forall|x: Double| #![trigger x.scaled()]
        !x.is_nan() && x.payload() < INFINITY_BITS implies number(LOWEST).scaled()
        <= x.scaled() <= number(LARGEST).scaled() by {
        lemma_magnitude_order(x.payload(), LARGEST as int);
        lemma_magnitude_order(LARGEST as int, LARGEST as int);
    }
}

} // verus!
