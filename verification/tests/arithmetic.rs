//! Arithmetic, held against the machine's own to the last bit.

use mortise::arith::{from_int, minus, over, plus, square_root, times};
use mortise::numbers;
use mortise::seconds::{scale, seconds};
use mortise::{Double, Span};
use std::time::Duration;

fn d(x: f64) -> Double {
    Double::from_bits(x.to_bits())
}

fn same(ours: Double, machine: f64) -> bool {
    if machine.is_nan() {
        ours.nan()
    } else {
        ours.to_bits() == machine.to_bits()
    }
}

/// Patterns without a pattern.
struct Mix {
    state: u64,
}

impl Mix {
    fn new(seed: u64) -> Mix {
        Mix { state: seed }
    }

    fn next(&mut self) -> u64 {
        self.state ^= self.state << 13;
        self.state ^= self.state >> 7;
        self.state ^= self.state << 17;
        self.state
    }

    /// A number of any size.
    fn any(&mut self) -> f64 {
        f64::from_bits(self.next())
    }

    /// A number whose exponent is close to that of 1.
    fn close(&mut self) -> f64 {
        let bits = self.next();
        let exponent = 1023 - 60 + (bits >> 52) % 120;
        f64::from_bits((bits & 0x800f_ffff_ffff_ffff) | (exponent << 52))
    }

    /// A number with few bits, of which sums and products come out halfway between
    /// two others.
    fn short(&mut self) -> f64 {
        let bits = self.next();
        let sign = if bits & 1 == 0 { 1.0 } else { -1.0 };
        sign * ((bits >> 1) % 4_096) as f64 * 2.0f64.powi(((bits >> 20) % 110) as i32 - 55)
    }

    /// A number close to the smallest.
    fn tiny(&mut self) -> f64 {
        let bits = self.next();
        f64::from_bits(bits & 0x803f_ffff_ffff_ffff)
    }
}

fn edges() -> Vec<f64> {
    vec![
        f64::NEG_INFINITY,
        f64::MIN,
        -3.0e200,
        -2.0,
        -1.0,
        -1.0 / 3.0,
        -f64::MIN_POSITIVE,
        -5.0e-324,
        -0.0,
        0.0,
        5.0e-324,
        1.0e-323,
        1.5e-323,
        2.2e-308,
        f64::MIN_POSITIVE,
        f64::EPSILON,
        f64::EPSILON / 2.0,
        0.05,
        0.1,
        0.2,
        0.3,
        0.5,
        0.999_999_999_999_999_9,
        1.0,
        1.0 + f64::EPSILON,
        1.5,
        2.0,
        2.2,
        3.0,
        10.0,
        1_024.0,
        4_503_599_627_370_495.5,
        4_503_599_627_370_497.0,
        9_007_199_254_740_991.0,
        9_007_199_254_740_992.0,
        18_446_744_073_709_551_616.0,
        1.0e154,
        1.4e154,
        3.0e200,
        8.988_465_674_311_58e307,
        f64::MAX / 2.0,
        f64::MAX,
        f64::INFINITY,
        f64::NAN,
    ]
}

fn check(a: f64, b: f64) {
    let (x, y) = (d(a), d(b));
    assert!(same(plus(x, y), a + b), "{:e} + {:e}", a, b);
    assert!(same(minus(x, y), a - b), "{:e} - {:e}", a, b);
    assert!(same(times(x, y), a * b), "{:e} * {:e}", a, b);
    assert!(same(over(x, y), a / b), "{:e} / {:e}", a, b);
    assert!(same(square_root(x), a.sqrt()), "root of {:e}", a);
}

#[test]
fn edges_agree_with_the_machine() {
    for a in edges() {
        for b in edges() {
            check(a, b);
        }
    }
}

#[test]
fn numbers_of_any_size_agree_with_the_machine() {
    let mut mix = Mix::new(0x9e37_79b9_7f4a_7c15);
    for _ in 0..4_000 {
        check(mix.any(), mix.any());
    }
}

#[test]
fn numbers_of_like_size_agree_with_the_machine() {
    let mut mix = Mix::new(0x1234_5678_9abc_def1);
    for _ in 0..8_000 {
        check(mix.close(), mix.close());
    }
}

#[test]
fn numbers_with_few_bits_agree_with_the_machine() {
    let mut mix = Mix::new(0x0fed_cba9_8765_4321);
    for _ in 0..8_000 {
        check(mix.short(), mix.short());
        check(mix.short(), mix.close());
    }
}

#[test]
fn the_smallest_numbers_agree_with_the_machine() {
    let mut mix = Mix::new(0x5555_aaaa_3333_cccd);
    for _ in 0..4_000 {
        check(mix.tiny(), mix.tiny());
        check(mix.tiny(), mix.close());
        check(mix.close(), mix.tiny());
    }
}

#[test]
fn neighbours_cancel_as_on_the_machine() {
    for a in edges() {
        if a.is_finite() {
            let next = f64::from_bits(a.to_bits() ^ 1);
            check(a, next);
            check(a, -next);
            check(a, a);
            check(a, -a);
        }
    }
}

#[test]
fn halves_go_to_the_even_pattern() {
    assert!(same(from_int(9_007_199_254_740_993), 9_007_199_254_740_992.0));
    assert!(same(from_int(9_007_199_254_740_995), 9_007_199_254_740_996.0));
    let one = d(1.0);
    let half_step = d(f64::EPSILON / 2.0);
    assert_eq!(plus(one, half_step), one);
    let next = plus(one, d(f64::EPSILON));
    assert_eq!(plus(next, half_step), plus(next, d(f64::EPSILON)));
    // Half the smallest number, and one and a half.
    assert!(same(times(d(5.0e-324), d(0.5)), 0.0));
    assert!(same(times(d(1.5e-323), d(0.5)), 1.0e-323));
}

#[test]
fn results_overflow_to_infinity() {
    assert!(same(plus(d(f64::MAX), d(f64::MAX)), f64::INFINITY));
    assert!(same(times(d(-1.0e200), d(1.0e200)), f64::NEG_INFINITY));
    assert!(same(over(d(1.0), d(0.0)), f64::INFINITY));
    assert!(same(over(d(1.0), d(-0.0)), f64::NEG_INFINITY));
    assert!(over(d(0.0), d(0.0)).nan());
    assert!(minus(d(f64::INFINITY), d(f64::INFINITY)).nan());
    assert!(times(d(0.0), d(f64::INFINITY)).nan());
    assert!(square_root(d(-1.0)).nan());
    assert!(same(square_root(d(-0.0)), -0.0));
}

#[test]
fn integers_agree_with_the_machine() {
    let mut mix = Mix::new(77);
    for n in [0, 1, 2, 3, (1 << 53) - 1, 1 << 53, (1 << 53) + 1, u64::MAX, u64::MAX - 1_024] {
        assert!(same(from_int(n), n as f64), "{}", n);
    }
    for shift in 0..64u32 {
        for _ in 0..100 {
            let n = mix.next() >> shift;
            assert!(same(from_int(n), n as f64), "{}", n);
        }
    }
}

#[test]
fn small_integers_keep_their_value_and_order() {
    let mut last = from_int(0);
    assert_eq!(last.to_u64(), 0);
    for n in 1..2_000u64 {
        let x = from_int(n * 4_503_599_627_370);
        assert_eq!(x.to_u64(), n * 4_503_599_627_370);
        assert!(last.below(x));
        last = x;
    }
}

fn duration(nanos: u128) -> Duration {
    Duration::new((nanos / 1_000_000_000) as u64, (nanos % 1_000_000_000) as u32)
}

#[test]
fn seconds_agree_with_the_machine() {
    let mut mix = Mix::new(3);
    for nanos in [0, 1, 999, 1_000, 999_999_999, 1_000_000_000, 1_000_000_001, 100_000_000] {
        assert!(same(seconds(Span::from_nanos(nanos)), duration(nanos).as_secs_f64()));
    }
    for shift in 0..64u32 {
        for _ in 0..100 {
            let nanos = (mix.next() >> shift) as u128;
            let longer = nanos * 1_000_000_007;
            assert!(same(seconds(Span::from_nanos(nanos)), duration(nanos).as_secs_f64()));
            assert!(same(seconds(Span::from_nanos(longer)), duration(longer).as_secs_f64()));
        }
    }
}

#[test]
fn scaled_spans_agree_with_the_machine() {
    let mut mix = Mix::new(11);
    for factor in [0.0, 0.5, 1.0, 0.1, 2.2, 1.0e-9, 0.333_333] {
        for shift in 0..64u32 {
            for _ in 0..20 {
                let nanos = (mix.next() >> shift) as u128 * 3;
                assert_eq!(
                    scale(Span::from_nanos(nanos), d(factor)).nanos,
                    duration(nanos).mul_f64(factor).as_nanos(),
                    "{} * {}",
                    nanos,
                    factor
                );
            }
        }
    }
}

#[test]
fn half_of_a_round_trip_is_exact() {
    let half = numbers::double(numbers::REFRESH_SHARE);
    for micros in [0, 1, 3, 49_999, 50_000, 1_234_567, 10_000_001, 16_777_215_999_999] {
        assert_eq!(scale(Span::from_micros(micros), half).nanos, 500 * micros as u128);
    }
}

#[test]
fn longer_spans_have_more_seconds() {
    let mut nanos: u128 = 1;
    let mut last = seconds(Span::from_nanos(0));
    while nanos < 1 << 80 {
        let x = seconds(Span::from_nanos(nanos));
        assert!(last.below(x));
        last = x;
        nanos = nanos * 3 / 2 + 1;
    }
}
