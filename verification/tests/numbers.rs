//! Doubles, spans and the constants, held against the machine's own.

use mortise::numbers;
use mortise::{Double, Span};

fn d(x: f64) -> Double {
    Double::from_bits(x.to_bits())
}

fn samples() -> Vec<f64> {
    vec![
        f64::NEG_INFINITY,
        f64::MIN,
        -1.0e300,
        -2.0,
        -1.0,
        -0.5,
        -f64::MIN_POSITIVE,
        -5.0e-324,
        -0.0,
        0.0,
        5.0e-324,
        2.2e-308,
        f64::MIN_POSITIVE,
        0.04,
        0.1,
        0.1 + f64::EPSILON,
        0.999_999_999_999_999_9,
        1.0,
        1.5,
        2.0,
        4_503_599_627_370_495.5,
        4_503_599_627_370_496.0,
        9_007_199_254_740_993.0,
        9_223_372_036_854_775_808.0,
        18_446_744_073_709_549_568.0,
        18_446_744_073_709_551_616.0,
        1.0e300,
        f64::MAX,
        f64::INFINITY,
        f64::NAN,
    ]
}

#[test]
fn order_agrees_with_the_machine() {
    for a in samples() {
        for b in samples() {
            assert_eq!(d(a).below(d(b)), a < b, "{} < {}", a, b);
            assert_eq!(d(a).at_most(d(b)), a <= b, "{} <= {}", a, b);
        }
    }
}

#[test]
fn extremes_agree_with_the_machine() {
    for a in samples() {
        for b in samples() {
            let low = f64::from_bits(d(a).min(d(b)).to_bits());
            let high = f64::from_bits(d(a).max(d(b)).to_bits());
            assert!(low == a.min(b) || (low.is_nan() && a.min(b).is_nan()));
            assert!(high == a.max(b) || (high.is_nan() && a.max(b).is_nan()));
        }
    }
}

#[test]
fn truncation_agrees_with_the_machine() {
    for a in samples() {
        assert_eq!(d(a).to_u64(), a as u64, "{}", a);
    }
    for shift in 0..70 {
        let x = 1.75f64 * 2.0f64.powi(shift);
        assert_eq!(d(x).to_u64(), x as u64);
        assert_eq!(d(x - 1.0).to_u64(), (x - 1.0) as u64);
    }
    assert_eq!(d(2.999_999).to_u64(), 2);
    assert_eq!(d(-3.0).to_u64(), 0);
    assert_eq!(d(1.0e30).to_u64(), u64::MAX);
    assert_eq!(d(f64::NAN).to_u64(), 0);
}

#[test]
fn all_patterns_without_a_number_are_one() {
    assert_eq!(Double::from_bits(0x7ff0_0000_0000_0001), Double::from_bits(0xffff_ffff_ffff_ffff));
    assert!(Double::from_bits(0xfff8_0000_0000_0000).nan());
    assert!(!Double::from_bits(f64::INFINITY.to_bits()).nan());
    assert!(!Double::from_bits((-0.0f64).to_bits()).nan());
    assert_eq!(Double::from_bits((-0.0f64).to_bits()).to_bits(), 1 << 63);
}

#[test]
fn constants_are_the_decimals() {
    let expected = vec![
        (numbers::COPA_DELTA, 0.4),
        (numbers::SLOW_START_DELTA, 0.4),
        (numbers::LOSS_RATE_THRESHOLD, 0.1),
        (numbers::COMPETITIVE_GAIN, 2.0),
        (numbers::MAX_DELTA, 0.5),
        (numbers::BOUNCE_DELTA, 0.2),
        (numbers::BOUNCE_GAIN, 2.2),
        (numbers::INITIAL_MIN_DELTA, 0.05),
        (numbers::LOSSY_RATE, 0.06),
        (numbers::PREDICTIVE_DECAY, 0.98),
        (numbers::PREDICTIVE_FLOOR, 0.04),
        (numbers::CURRENT_DECAY, 0.9),
        (numbers::CURRENT_FLOOR, 0.05),
        (numbers::PROBE_WEIGHT, 12.0),
        (numbers::PROBE_DELAY_CAP, 40.0),
        (numbers::PROBE_MAX_DELTA, 0.4),
        (numbers::STEADY_DELAY_SHARE, 0.4),
        (numbers::STEADY_DELAY_CAP, 20.0),
        (numbers::PREDICTIVE_QUEUE_WEIGHT, 1.2),
        (numbers::CURRENT_QUEUE_WEIGHT, 1.5),
        (numbers::BDP_DIVISOR, 1.5),
        (numbers::BDP_SPREAD, 2.0),
        (numbers::EWMA_KEEP, 0.85),
        (numbers::EWMA_GAIN, 0.15),
        (numbers::REFRESH_SHARE, 0.5),
        (numbers::THOUSAND, 1_000.0),
        (numbers::BILLION, 1_000_000_000.0),
        (numbers::KIBI, 1_024.0),
        (numbers::ONE, 1.0),
        (numbers::DELTA_04, 0.04),
        (numbers::DELTA_05, 0.05),
        (numbers::DELTA_08, 0.08),
        (numbers::DELTA_10, 0.1),
        (numbers::DELTA_20, 0.2),
        (numbers::DELTA_30, 0.3),
        (numbers::DELTA_40, 0.4),
        (numbers::DELTA_50, 0.5),
        (numbers::ZERO, 0.0),
        (numbers::LARGEST, f64::MAX),
        (numbers::LOWEST, f64::MIN),
    ];
    for (bits, decimal) in expected {
        assert_eq!(bits, decimal.to_bits(), "{}", decimal);
        assert_eq!(numbers::double(bits), d(decimal));
    }
}

#[test]
fn spans_count_nanoseconds() {
    assert_eq!(Span::from_micros(3).nanos, 3_000);
    assert_eq!(Span::from_micros(u64::MAX).as_micros(), u64::MAX);
    assert_eq!(Span::from_nanos(1_999).as_micros(), 1);
    assert_eq!(Span::from_nanos(999).as_micros(), 0);
    assert!(!Span::from_nanos(999).is_zero());
    assert!(Span::from_nanos(0).is_zero());
    // More microseconds than 64 bits hold: the lower bits are kept.
    assert_eq!(Span::from_nanos(((1u128 << 64) + 7) * 1_000).as_micros(), 7);
}

#[test]
fn spans_saturate() {
    let early = Span::from_micros(10);
    let late = Span::from_micros(25);
    assert_eq!(late.saturating_sub(early), Span::from_micros(15));
    assert_eq!(early.saturating_sub(late), Span::from_nanos(0));
    assert_eq!(early.max(late), late);
    assert_eq!(late.max(early), late);
}
