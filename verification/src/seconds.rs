//! Spans of time as numbers of seconds, and back.

use crate::arith::{closest, from_wide, over, plus, power, prod, quot, sum, times};
use crate::double::{lemma_magnitude_order, magnitude, Double, FRACTION_UNIT, INFINITY_BITS};
use crate::numbers::{double, number, BILLION, REFRESH_SHARE};
use crate::order::{
    is_measure, lemma_closest_exact, lemma_closest_order, lemma_least_step, lemma_measure,
    lemma_measure_order, lemma_nearest_error, lemma_power_pattern, lemma_quot_order,
    lemma_sum_order, lemma_twice, power_pattern,
};
use crate::rounding::{
    lemma_halfway_order, lemma_nearest, lemma_nearest_bound, lemma_nearest_exact,
    lemma_nearest_order, lemma_packed, nearest, signed,
};
use crate::span::Span;
use vstd::arithmetic::div_mod::{lemma_fundamental_div_mod, lemma_fundamental_div_mod_converse};
use vstd::arithmetic::mul::lemma_mul_is_commutative;
use vstd::arithmetic::power2::{
    lemma2_to64, lemma2_to64_rest, lemma_pow2_adds, lemma_pow2_pos, lemma_pow2_strictly_increases,
    lemma_pow2_unfold, pow2,
};
use vstd::prelude::*;

verus! {

/// Nanoseconds in a second.
pub const NANOS_PER_SECOND: u128 = 1_000_000_000;

/// The length of a span in seconds: the whole seconds, and the nanoseconds beyond
/// them as a part of a second.
pub open spec fn secs(span: Span) -> Double {
    sum(
        closest(span.nanos as int / NANOS_PER_SECOND as int, 1),
        quot(closest(span.nanos as int % NANOS_PER_SECOND as int, 1), number(BILLION)),
    )
}

/// The length of a span in seconds.
pub fn seconds(span: Span) -> (result: Double)
    ensures
        result == secs(span),
{
    let whole: u128 = span.nanos / NANOS_PER_SECOND;
    let rest: u128 = span.nanos % NANOS_PER_SECOND;
    plus(from_wide(whole), over(from_wide(rest), double(BILLION)))
}

/// `x` seconds are a length of time: not negative, and fewer than two to the power
/// 64.
pub open spec fn is_time(x: Double) -> bool {
    &&& x.is_finite()
    &&& 0 <= x.scaled() < pow2(1138)
}

/// `x` seconds in whole nanoseconds: the closest number of them, and of two that
/// are equally close the even one.
pub open spec fn nanos_of(x: Double) -> int {
    let (num, den) = (x.scaled() * NANOS_PER_SECOND, pow2(1074) as int);
    let (q, r) = (num / den, num % den);
    if 2 * r > den || (2 * r == den && q % 2 == 1) {
        q + 1
    } else {
        q
    }
}

/// The span `factor` times as long.
pub open spec fn scaled_span(span: Span, factor: Double) -> Span {
    Span { nanos: nanos_of(prod(factor, secs(span))) as u128 }
}

/// The span `factor` times as long.
pub fn scale(span: Span, factor: Double) -> (result: Span)
    requires
        is_time(prod(factor, secs(span))),
    ensures
        result == scaled_span(span, factor),
        result.nanos == nanos_of(prod(factor, secs(span))),
{
    Span { nanos: to_nanos(times(factor, seconds(span))) }
}

/// A number of seconds with its last place at or above one has few places more.
proof fn lemma_places(s: int, e: nat)
    requires
        s >= FRACTION_UNIT,
        e >= 1074,
        s * pow2(e) < pow2(1138),
    ensures
        e <= 1086,
        pow2((e - 1074) as nat) <= 0x1000,
{
    let (unit, top) = (pow2(1074) as int, pow2(64) as int);
    let more = pow2((e - 1074) as nat) as int;
    lemma2_to64();
    lemma_pow2_adds(1074, 64);
    lemma_pow2_adds(1074, (e - 1074) as nat);
    lemma_pow2_pos(1074);
    assert(more < 0x1000) by (nonlinear_arith)
        requires
            s >= 0x10_0000_0000_0000,
            s * (unit * more) < unit * 0x1_0000_0000_0000_0000,
            unit > 0,
    ;
    if e - 1074 >= 12 {
        if e - 1074 > 12 {
            lemma_pow2_strictly_increases(12, (e - 1074) as nat);
        }
    }
}

/// `wide` units of two to the power `e`, counted in units of `2^cut` times that.
proof fn lemma_part(wide: int, cut: nat, e: nat, q: int, r: int)
    requires
        wide == q * pow2(cut) + r,
        0 <= r < pow2(cut),
    ensures
        ({
            let (num, den) = (wide * pow2(e), (pow2(cut) * pow2(e)) as int);
            &&& num / den == q
            &&& num % den == r * pow2(e)
            &&& (2 * r > pow2(cut)) == (2 * (num % den) > den)
            &&& (2 * r == pow2(cut)) == (2 * (num % den) == den)
        }),
{
    let (c, v) = (pow2(cut) as int, pow2(e) as int);
    lemma_pow2_pos(e);
    assert(wide * v == q * (c * v) + r * v && 0 <= r * v && r * v < c * v) by (nonlinear_arith)
        requires
            wide == q * c + r,
            0 <= r < c,
            v > 0,
    ;
    lemma_fundamental_div_mod_converse(wide * v, c * v, q, r * v);
    assert((2 * r > c) == (2 * (r * v) > c * v) && (2 * r == c) == (2 * (r * v) == c * v))
        by (nonlinear_arith)
        requires
            v > 0,
    ;
}

/// `x` seconds in whole nanoseconds.
fn to_nanos(x: Double) -> (result: u128)
    requires
        is_time(x),
    ensures
        result == nanos_of(x),
{
    let (s, e) = x.parts();
    let ghost value = s * pow2(e as nat);
    let ghost one = pow2(1074) as int;
    proof {
        lemma_magnitude_order(0, x.payload());
        assert(x.scaled() == value);
        lemma_pow2_pos(1074);
    }
    if e >= 1074 {
        let shift: u64 = e - 1074;
        proof {
            lemma_places(s as int, e as nat);
        }
        let unit: u128 = power(shift);
        assert(s * unit <= 0x2_0000_0000_0000_0000) by (nonlinear_arith)
            requires
                0 <= s < 0x20_0000_0000_0000,
                0 <= unit <= 0x1000,
        ;
        let whole: u128 = s as u128 * unit;
        let result: u128 = whole * NANOS_PER_SECOND;
        proof {
            lemma_pow2_adds(1074, shift as nat);
            assert(value * 1_000_000_000 == one * result) by (nonlinear_arith)
                requires
                    value == s * (one * unit),
                    result == s * unit * 1_000_000_000,
            ;
            lemma_fundamental_div_mod_converse(value * 1_000_000_000, one, result as int, 0);
        }
        result
    } else {
        let cut: u64 = 1074 - e;
        let wide: u128 = s as u128 * NANOS_PER_SECOND;
        proof {
            lemma_pow2_adds(cut as nat, e as nat);
            lemma_pow2_pos(e as nat);
            lemma_pow2_pos(cut as nat);
            lemma2_to64();
            lemma_pow2_adds(64, 20);
            assert(value * 1_000_000_000 == wide * pow2(e as nat)) by (nonlinear_arith)
                requires
                    value == s * pow2(e as nat),
                    wide == s * 1_000_000_000,
            ;
        }
        if cut >= 85 {
            proof {
                lemma_pow2_strictly_increases(84, cut as nat);
                lemma_part(wide as int, cut as nat, e as nat, 0, wide as int);
            }
            return 0;
        }
        let unit: u128 = if cut > 64 {
            proof {
                lemma_pow2_adds(64, (cut - 64) as nat);
                if cut < 84 {
                    lemma_pow2_strictly_increases((cut - 64) as nat, 20);
                }
            }
            power(64) * power(cut - 64)
        } else {
            power(cut)
        };
        let q: u128 = wide / unit;
        let r: u128 = wide % unit;
        proof {
            lemma_fundamental_div_mod(wide as int, unit as int);
            lemma_mul_is_commutative(unit as int, q as int);
            lemma_part(wide as int, cut as nat, e as nat, q as int, r as int);
        }
        if r > unit - r || (r == unit - r && q % 2 == 1) {
            q + 1
        } else {
            q
        }
    }
}

/// A span of microseconds, as far as 64 bits count them, has fewer than two to the
/// power 46 seconds.
proof fn lemma_seconds_of_micros(micros: u64)
    ensures
        ({
            let x = secs(Span::of_micros(micros as int));
            &&& x.is_finite()
            &&& !x.is_negative()
            &&& 0 <= x.scaled() <= pow2(1120)
        }),
{
    let nanos = micros * 1_000;
    let (whole, rest) = (nanos / 1_000_000_000, nanos % 1_000_000_000);
    let one = pow2(1074) as int;
    let a = closest(whole, 1);
    let b = closest(rest, 1);
    let c = quot(b, number(BILLION));
    lemma_pow2_pos(1074);
    lemma2_to64_rest();
    // The whole seconds.
    lemma_pow2_adds(1074, 45);
    lemma_power_pattern(1119);
    assert(0 <= whole * one <= pow2(1119)) by (nonlinear_arith)
        requires
            0 <= whole <= 0x2000_0000_0000,
            one > 0,
            pow2(1119) == one * 0x2000_0000_0000,
    ;
    lemma_nearest_bound(whole * one, 1, power_pattern(1119));
    // The rest of a second.
    let unit = magnitude(BILLION as int);
    lemma_billion();
    assert(0 <= rest * one <= unit) by (nonlinear_arith)
        requires
            0 <= rest <= 1_000_000_000,
            one > 0,
            unit == 1_000_000_000 * one,
    ;
    lemma_nearest_bound(rest * one, 1, BILLION as int);
    lemma_power_pattern(1074);
    let part = magnitude(b.payload());
    assert(0 <= part * one <= one * unit) by (nonlinear_arith)
        requires
            0 <= part <= unit,
            one > 0,
    ;
    lemma_nearest_bound(part * one, unit, power_pattern(1074));
    // Both.
    lemma_pow2_strictly_increases(1074, 1119);
    lemma_pow2_unfold(1120);
    lemma_power_pattern(1120);
    lemma_nearest_bound(a.scaled() + c.scaled(), 1, power_pattern(1120));
    lemma_magnitude_order(0, 0);
}

proof fn lemma_billion()
    ensures
        magnitude(BILLION as int) == 1_000_000_000 * pow2(1074),
        (1_000_000_000 * pow2(1074)) > 0,
{
    let place = 1051nat;
    let significand = 0x1d_cd65_0000_0000int;
    lemma_packed(significand, place);
    lemma2_to64();
    lemma_pow2_adds(place, 23);
    lemma_pow2_pos(1074);
    let (x, y) = (pow2(place) as int, pow2(1074) as int);
    assert(significand * x == 1_000_000_000 * y) by (nonlinear_arith)
        requires
            y == x * 0x80_0000,
            significand == 0x1d_cd65_0000_0000,
    ;
}

/// Half of a span of microseconds is a length of time.
pub(crate) proof fn lemma_half_is_time(micros: u64)
    ensures
        is_time(prod(number(REFRESH_SHARE), secs(Span::of_micros(micros as int)))),
{
    let x = secs(Span::of_micros(micros as int));
    let half = pow2(1073) as int;
    let one = pow2(1074) as int;
    lemma_seconds_of_micros(micros);
    lemma_power_pattern(1073);
    assert(power_pattern(1073) == REFRESH_SHARE);
    lemma_pow2_unfold(1074);
    lemma_pow2_pos(1073);
    lemma_power_pattern(1120);
    let m = x.scaled();
    assert(0 <= half * m <= pow2(1120) * one) by (nonlinear_arith)
        requires
            0 <= m <= pow2(1120),
            0 < half,
            one == 2 * half,
    ;
    lemma_nearest_bound(half * m, one, power_pattern(1120));
    lemma_pow2_strictly_increases(1120, 1138);
}

/// The nanoseconds beyond the whole seconds are at most one second, more than
/// nothing where there are any, and in order.
proof fn lemma_rest(rest: int, other: int)
    requires
        0 <= rest <= other < NANOS_PER_SECOND,
    ensures
        ({
            let a = quot(closest(rest, 1), number(BILLION));
            let b = quot(closest(other, 1), number(BILLION));
            &&& is_measure(a)
            &&& is_measure(b)
            &&& a.payload() <= b.payload()
            &&& b.is_finite()
            &&& 0 <= b.scaled() < pow2(1074)
            &&& other > 0 ==> b.scaled() > 0
        }),
{
    let (one, unit) = (pow2(1074) as int, magnitude(BILLION as int));
    let b = closest(other, 1);
    lemma_pow2_pos(1074);
    lemma_billion();
    lemma_closest_order(rest, other);
    lemma_closest_exact(other);
    lemma_closest_exact(1);
    lemma_measure_order(b, b);
    lemma_quot_order(closest(rest, 1), number(BILLION), b, number(BILLION));
    let m = b.scaled();
    // The last number below one second.
    let last = power_pattern(1074) - 1;
    let (top, step) = (magnitude(last), pow2(1021) as int);
    lemma2_to64_rest();
    lemma_pow2_adds(1021, 53);
    lemma_pow2_pos(1021);
    lemma_packed(0x1f_ffff_ffff_ffff, 1021);
    assert(0 <= m * one <= top * unit) by (nonlinear_arith)
        requires
            m == other * one,
            unit == 1_000_000_000 * one,
            0 <= other <= 1_000_000_000 - 1,
            top == 0x1f_ffff_ffff_ffff * step,
            one == step * 0x20_0000_0000_0000,
            0 < step,
    ;
    lemma_nearest_bound(m * one, unit, last);
    lemma_measure(nearest(m * one, unit));
    assert(top < one);
    if other > 0 {
        lemma2_to64();
        lemma_pow2_strictly_increases(64, 1074);
        assert(1 * unit <= m * one) by (nonlinear_arith)
            requires
                m == other * one,
                other >= 1,
                unit == 1_000_000_000 * one,
                one >= 1_000_000_000,
        ;
        lemma_magnitude_order(0, 1);
        lemma_packed(1, 0);
        lemma_nearest_exact(1, 1, 1);
        lemma_nearest_order(1, 1, m * one, unit);
        lemma_magnitude_order(0, nearest(m * one, unit));
    }
}

/// The length of a span in seconds is a number, and positive where the span is.
pub(crate) proof fn lemma_secs(span: Span)
    requires
        span.nanos > 0,
    ensures
        is_measure(secs(span)),
        0 < secs(span).payload() < INFINITY_BITS,
{
    let (q, r) = (
        span.nanos as int / NANOS_PER_SECOND as int,
        span.nanos as int % NANOS_PER_SECOND as int,
    );
    let (a, c) = (closest(q, 1), quot(closest(r, 1), number(BILLION)));
    let exact = a.scaled() + c.scaled();
    lemma_pow2_pos(1074);
    lemma2_to64();
    lemma_rest(r, r);
    lemma_wide_is_finite(q);
    if q > 0 {
        lemma_closest_order(1, q);
        lemma_closest_exact(1);
    }
    lemma_pow2_strictly_increases(1074, 1202);
    lemma_pow2_unfold(1203);
    lemma_power_pattern(1203);
    lemma_nearest_bound(exact, 1, power_pattern(1203));
    lemma_packed(1, 0);
    lemma_nearest_exact(1, 1, 1);
    lemma_nearest_order(1, 1, exact, 1);
    lemma_measure(nearest(exact, 1));
}

/// A longer span has more seconds, or as many.
pub proof fn lemma_secs_order(a: Span, b: Span)
    requires
        a.nanos <= b.nanos,
    ensures
        secs(a).scaled() <= secs(b).scaled(),
        secs(a).payload() <= secs(b).payload(),
{
    let unit = NANOS_PER_SECOND as int;
    let (qa, ra) = (a.nanos as int / unit, a.nanos as int % unit);
    let (qb, rb) = (b.nanos as int / unit, b.nanos as int % unit);
    let one = pow2(1074) as int;
    let (xa, xb) = (closest(qa, 1), closest(qb, 1));
    let ca = quot(closest(ra, 1), number(BILLION));
    let cb = quot(closest(rb, 1), number(BILLION));
    lemma_pow2_pos(1074);
    lemma_rest(ra, ra);
    lemma_rest(rb, rb);
    lemma_closest_order(qa, qb);
    lemma_measure_order(xa, xb);
    lemma_wide_is_finite(qa);
    lemma_wide_is_finite(qb);
    if qa >= 0x20_0000_0000_0000 {
        lemma_rest_is_lost(qa, ca);
        lemma_rest_is_lost(qb, cb);
    } else {
        lemma_closest_exact(qa);
        lemma_closest_exact(qa + 1);
        if qa == qb {
            lemma_rest(ra, rb);
            lemma_measure_order(ca, cb);
        } else {
            lemma_closest_order(qa + 1, qb);
            assert((qa + 1) * one == qa * one + one) by (nonlinear_arith);
        }
        lemma_sum_order(xa, ca, xb, cb);
    }
    lemma_measure_order(secs(a), secs(b));
}

/// As many seconds as 128 bits count are a finite number of them.
proof fn lemma_wide_is_finite(n: int)
    requires
        0 <= n <= u128::MAX,
    ensures
        is_measure(closest(n, 1)),
        closest(n, 1).is_finite(),
        0 <= closest(n, 1).scaled() <= pow2(1202),
{
    let (one, top) = (pow2(1074) as int, pow2(1202) as int);
    lemma_pow2_pos(1074);
    lemma2_to64();
    lemma_pow2_adds(64, 64);
    lemma_pow2_adds(1074, 128);
    lemma_power_pattern(1202);
    assert(0 <= n * one <= top) by (nonlinear_arith)
        requires
            0 <= n < 0x1_0000_0000_0000_0000 * 0x1_0000_0000_0000_0000,
            one > 0,
            top == one * (0x1_0000_0000_0000_0000 * 0x1_0000_0000_0000_0000),
    ;
    lemma_nearest_bound(n * one, 1, power_pattern(1202));
    lemma_measure(nearest(n * one, 1));
}

/// Where more than 53 bits count the seconds, less than one more makes no
/// difference.
proof fn lemma_rest_is_lost(n: int, rest: Double)
    requires
        0x20_0000_0000_0000 <= n <= u128::MAX,
        is_measure(rest),
        rest.is_finite(),
        0 <= rest.scaled() < pow2(1074),
    ensures
        sum(closest(n, 1), rest) == closest(n, 1),
        is_measure(closest(n, 1)),
{
    let one = pow2(1074) as int;
    let x = closest(n, 1);
    let (p, m) = (x.payload(), x.scaled());
    let exact = m + rest.scaled();
    lemma_wide_is_finite(n);
    lemma_pow2_pos(1074);
    // The number is at least two to the power 53.
    lemma_closest_exact(0x20_0000_0000_0000);
    lemma_closest_order(0x20_0000_0000_0000, n);
    lemma2_to64_rest();
    lemma_pow2_adds(1074, 53);
    lemma_mul_is_commutative(0x20_0000_0000_0000, one);
    lemma_power_pattern(1127);
    lemma_measure(power_pattern(1127));
    lemma_measure_order(signed(false, power_pattern(1127)), x);
    // So the next one is at least two seconds away.
    lemma_least_step(p, 1127);
    lemma_pow2_unfold(1075);
    lemma_halfway_order(p - 1, p);
    lemma_nearest(exact, 1, p);
}

/// Half of a number that is not tiny is exact.
proof fn lemma_half(x: Double)
    requires
        is_measure(x),
        x.is_finite(),
        x.scaled() == 0 || x.scaled() >= pow2(53),
    ensures
        2 * prod(number(REFRESH_SHARE), x).scaled() == x.scaled(),
{
    let (half, one) = (pow2(1073) as int, pow2(1074) as int);
    let m = x.scaled();
    lemma_pow2_unfold(1074);
    lemma_pow2_pos(1073);
    lemma_power_pattern(1073);
    assert(power_pattern(1073) == REFRESH_SHARE);
    lemma_measure_order(x, x);
    lemma_magnitude_order(0, 0);
    let part = if m == 0 {
        0
    } else {
        lemma_power_pattern(53);
        lemma_measure(power_pattern(53));
        lemma_measure_order(signed(false, power_pattern(53)), x);
        lemma_twice(x.payload() - FRACTION_UNIT);
        x.payload() - FRACTION_UNIT
    };
    let n = magnitude(part);
    assert(half * m == n * one) by (nonlinear_arith)
        requires
            m == 2 * n,
            one == 2 * half,
    ;
    lemma_nearest_exact(half * m, one, part);
    lemma_measure(part);
}

/// Half of a span of microseconds is exact to the nanosecond, as long as 24 bits
/// count its seconds.
pub proof fn law_half_is_exact(micros: u64)
    requires
        micros < 0x100_0000 * 1_000_000,
    ensures
        scaled_span(Span::of_micros(micros as int), number(REFRESH_SHARE)).nanos == 500 * micros,
{
    let nanos = micros * 1_000;
    let (q, r) = (nanos / 1_000_000_000, nanos % 1_000_000_000);
    let one = pow2(1074) as int;
    let x = secs(Span::of_micros(micros as int));
    let c = quot(closest(r, 1), number(BILLION));
    let unit = magnitude(BILLION as int);
    lemma_pow2_pos(1074);
    lemma_billion();
    lemma_closest_exact(q);
    lemma_closest_exact(r);
    // How far the nanoseconds beyond the whole seconds are off.
    lemma_rest(r, r);
    assert(0 <= r * one * one <= one * unit && (r * one) * one == r * one * one)
        by (nonlinear_arith)
        requires
            0 <= r <= 1_000_000_000,
            unit == 1_000_000_000 * one,
            0 < one,
    ;
    lemma_nearest_error(r * one * one, unit, 1074);
    lemma_measure(nearest(r * one * one, unit));
    let (e, f) = (pow2(1021) as int, c.scaled());
    assert(-(1_000_000_000 * e) <= 2 * (f * 1_000_000_000 - r * one) <= 1_000_000_000 * e)
        by (nonlinear_arith)
        requires
            -(unit * e) <= 2 * (f * unit - r * one * one) <= unit * e,
            unit == 1_000_000_000 * one,
            0 < one,
    ;
    // How far the seconds are off.
    lemma2_to64();
    lemma_pow2_adds(1074, 24);
    let exact = q * one + f;
    assert(0 <= exact <= pow2(1098)) by (nonlinear_arith)
        requires
            0 <= q <= 0x100_0000 - 1,
            0 <= f <= one,
            exact == q * one + f,
            pow2(1098) == one * 0x100_0000,
    ;
    lemma_nearest_error(exact, 1, 1098);
    lemma_measure(nearest(exact, 1));
    lemma_measure(0);
    lemma_nearest_exact(0, 1, 0);
    lemma_magnitude_order(0, 0);
    let (g, d) = (x.scaled(), pow2(1045) as int);
    // Half of them is not off any further.
    lemma_pow2_adds(1021, 24);
    lemma_pow2_adds(1045, 29);
    lemma_pow2_pos(1021);
    if micros == 0 {
        assert(r * one * one == 0 && q * one == 0) by (nonlinear_arith)
            requires
                r == 0,
                q == 0,
        ;
        lemma_nearest_exact(0, unit, 0);
    } else {
        lemma_pow2_strictly_increases(53, 1021);
        assert(g >= e) by (nonlinear_arith)
            requires
                -d <= 2 * (g - (q * one + f)) <= d,
                -(1_000_000_000 * e) <= 2 * (f * 1_000_000_000 - r * one) <= 1_000_000_000 * e,
                q * 1_000_000_000 + r >= 1_000,
                one == d * 0x2000_0000,
                d == e * 0x100_0000,
                0 < e,
        ;
    }
    lemma_half(x);
    // All in all, less than half a nanosecond.
    let h = prod(number(REFRESH_SHARE), x).scaled();
    let k = 500 * micros;
    let num = h * 1_000_000_000;
    assert(-one < 2 * (num - k * one) < one) by (nonlinear_arith)
        requires
            2 * h == g,
            -d <= 2 * (g - (q * one + f)) <= d,
            -(1_000_000_000 * e) <= 2 * (f * 1_000_000_000 - r * one) <= 1_000_000_000 * e,
            2 * k == q * 1_000_000_000 + r,
            num == h * 1_000_000_000,
            one == d * 0x2000_0000,
            d == e * 0x100_0000,
            0 < e,
    ;
    if num >= k * one {
        lemma_fundamental_div_mod_converse(num, one, k as int, num - k * one);
    } else {
        assert((k - 1) * one == k * one - one) by (nonlinear_arith);
        lemma_fundamental_div_mod_converse(num, one, k - 1, num - (k - 1) * one);
    }
}

} // verus!
