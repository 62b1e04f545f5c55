//! How arithmetic keeps signs and order, and how far it is off.

use crate::arith::{closest, prod, quot, sqrt, sum};
use crate::double::{lemma_magnitude_order, magnitude, Double, FRACTION_UNIT, INFINITY_BITS};
use crate::rounding::{
    halfway, lemma_halfway_order, lemma_nearest_bound, lemma_nearest_exact, lemma_nearest_exists,
    lemma_nearest_order, lemma_nearest_root_exists, lemma_packed, nearest, nearest_root, signed,
};
use vstd::arithmetic::div_mod::lemma_fundamental_div_mod;
use vstd::arithmetic::mul::{lemma_mul_inequality, lemma_mul_is_associative, lemma_mul_nonnegative};
use vstd::arithmetic::power2::{
    lemma2_to64, lemma2_to64_rest, lemma_pow2_adds, lemma_pow2_pos, lemma_pow2_strictly_increases,
    lemma_pow2_unfold, pow2,
};
use vstd::prelude::*;

verus! {

/// A number, possibly infinite, that is not negative.
pub open spec fn is_measure(x: Double) -> bool {
    !x.is_nan() && !x.is_negative()
}

/// A pattern without a sign is a measure, and patterns are in the order of their
/// values.
pub(crate) proof fn lemma_measure(payload: int)
    requires
        0 <= payload <= INFINITY_BITS,
    ensures
        ({
            let x = signed(false, payload);
            &&& is_measure(x)
            &&& x.payload() == payload
            &&& x.scaled() == magnitude(payload)
            &&& x.scaled() >= 0
        }),
{
    lemma_magnitude_order(0, payload);
}

/// Measures are in the order of their patterns.
pub(crate) proof fn lemma_measure_order(a: Double, b: Double)
    requires
        is_measure(a),
        is_measure(b),
    ensures
        (a.scaled() <= b.scaled()) == (a.payload() <= b.payload()),
        0 <= a.scaled(),
        0 <= b.scaled(),
        (a.payload() == 0) == (a.scaled() == 0),
{
    lemma_magnitude_order(a.payload(), b.payload());
    lemma_magnitude_order(b.payload(), a.payload());
    lemma_magnitude_order(0, a.payload());
    lemma_magnitude_order(0, b.payload());
}

/// Larger integers become larger doubles.
pub(crate) proof fn lemma_closest_order(m: int, n: int)
    requires
        0 <= m <= n,
    ensures
        is_measure(closest(m, 1)),
        is_measure(closest(n, 1)),
        closest(m, 1).payload() <= closest(n, 1).payload(),
        0 <= closest(m, 1).scaled() <= closest(n, 1).scaled(),
{
    let w = pow2(1074) as int;
    lemma_pow2_pos(1074);
    assert(0 <= m * w <= n * w) by (nonlinear_arith)
        requires
            0 <= m <= n,
            w > 0,
    ;
    lemma_nearest_exists(m * w, 1);
    lemma_nearest_exists(n * w, 1);
    lemma_nearest_order(m * w, 1, n * w, 1);
    lemma_measure(nearest(m * w, 1));
    lemma_measure(nearest(n * w, 1));
    lemma_measure_order(closest(m, 1), closest(n, 1));
}

/// An integer that takes no more than 53 bits becomes a double of the same value.
pub proof fn lemma_closest_exact(n: int)
    requires
        0 <= n <= 0x20_0000_0000_0000,
    ensures
        is_measure(closest(n, 1)),
        closest(n, 1).is_finite(),
        closest(n, 1).scaled() == n * pow2(1074),
{
    let w = pow2(1074) as int;
    lemma2_to64();
    let payload = lemma_pattern_of(n, 0);
    lemma_nearest_exact(n * w, 1, payload);
    lemma_measure(payload);
}

/// The pattern of an integer of no more than 53 bits, where `n` times `2^up` is the
/// integer that is looked at.
proof fn lemma_pattern_of(n: int, up: nat) -> (payload: int)
    requires
        0 <= n * pow2(up) <= 2 * FRACTION_UNIT,
        up <= 53,
        n >= 0,
    ensures
        0 <= payload < INFINITY_BITS,
        magnitude(payload) == n * pow2(1074),
    decreases 53 - up,
{
    let significand = n * pow2(up);
    if n == 0 {
        lemma_magnitude_order(0, 0);
        0
    } else if significand >= FRACTION_UNIT {
        let place = (1074 - up) as nat;
        lemma_packed(significand, place);
        lemma_pow2_adds(up, place);
        lemma_mul_is_associative(n, pow2(up) as int, pow2(place) as int);
        place * FRACTION_UNIT + significand
    } else {
        lemma_pow2_unfold(up + 1);
        let v = pow2(up) as int;
        assert(n * (2 * v) == 2 * (n * v)) by (nonlinear_arith);
        if up >= 52 {
            lemma2_to64_rest();
            lemma_mul_inequality(1, n, v);
        }
        lemma_pattern_of(n, up + 1)
    }
}

/// A larger measure divided by a smaller one gives more.
pub(crate) proof fn lemma_quot_order(a: Double, b: Double, c: Double, d: Double)
    requires
        is_measure(a),
        is_measure(c),
        a.payload() <= c.payload(),
        is_measure(b),
        is_measure(d),
        0 < d.payload() <= b.payload() < INFINITY_BITS,
    ensures
        is_measure(quot(a, b)),
        is_measure(quot(c, d)),
        quot(a, b).payload() <= quot(c, d).payload(),
{
    let w = pow2(1074) as int;
    let (ma, mb, mc, md) = (a.scaled(), b.scaled(), c.scaled(), d.scaled());
    lemma_pow2_pos(1074);
    lemma_measure_order(a, c);
    lemma_measure_order(d, b);
    lemma_measure(INFINITY_BITS as int);
    if a.is_finite() {
        lemma_mul_nonnegative(ma, w);
        lemma_nearest_exists(ma * w, mb);
        lemma_measure(nearest(ma * w, mb));
        if c.is_finite() {
            lemma_mul_nonnegative(mc, w);
            lemma_nearest_exists(mc * w, md);
            lemma_measure(nearest(mc * w, md));
            assert((ma * w) * md <= (mc * w) * mb) by (nonlinear_arith)
                requires
                    0 <= ma <= mc,
                    0 < md <= mb,
                    w > 0,
            ;
            lemma_nearest_order(ma * w, mb, mc * w, md);
        }
    }
}

/// A larger measure times a positive one gives more.
pub(crate) proof fn lemma_prod_order(a: Double, c: Double, b: Double)
    requires
        is_measure(a),
        is_measure(c),
        a.payload() <= c.payload(),
        is_measure(b),
        0 < b.payload() < INFINITY_BITS,
    ensures
        is_measure(prod(a, b)),
        is_measure(prod(c, b)),
        prod(a, b).payload() <= prod(c, b).payload(),
{
    let w = pow2(1074) as int;
    let (ma, mb, mc) = (a.scaled(), b.scaled(), c.scaled());
    lemma_pow2_pos(1074);
    lemma_measure_order(a, c);
    lemma_measure_order(b, b);
    lemma_measure(INFINITY_BITS as int);
    if a.is_finite() {
        lemma_mul_nonnegative(ma, mb);
        lemma_nearest_exists(ma * mb, w);
        lemma_measure(nearest(ma * mb, w));
        if c.is_finite() {
            lemma_mul_nonnegative(mc, mb);
            lemma_nearest_exists(mc * mb, w);
            lemma_measure(nearest(mc * mb, w));
            assert((ma * mb) * w <= (mc * mb) * w) by (nonlinear_arith)
                requires
                    0 <= ma <= mc,
                    0 < mb,
                    w > 0,
            ;
            lemma_nearest_order(ma * mb, w, mc * mb, w);
        }
    }
}

/// Larger measures add up to more.
pub(crate) proof fn lemma_sum_order(a: Double, b: Double, c: Double, d: Double)
    requires
        is_measure(a),
        is_measure(b),
        is_measure(c),
        is_measure(d),
        a.is_finite() && b.is_finite() && c.is_finite() && d.is_finite(),
        a.scaled() + b.scaled() <= c.scaled() + d.scaled(),
    ensures
        is_measure(sum(a, b)),
        is_measure(sum(c, d)),
        sum(a, b).payload() <= sum(c, d).payload(),
{
    lemma_measure_order(a, b);
    lemma_measure_order(c, d);
    let (x, y) = (a.scaled() + b.scaled(), c.scaled() + d.scaled());
    lemma_nearest_exists(x, 1);
    lemma_nearest_exists(y, 1);
    lemma_measure(nearest(x, 1));
    lemma_measure(nearest(y, 1));
    lemma_measure(0);
    lemma_nearest_order(x, 1, y, 1);
}

/// The square root of a number that is not negative is one.
pub proof fn law_root_is_a_number(x: Double)
    requires
        is_measure(x),
    ensures
        is_measure(sqrt(x)),
        sqrt(x).is_finite() == x.is_finite(),
        (sqrt(x).payload() == 0) == (x.payload() == 0),
{
    let (m, w) = (x.scaled(), pow2(1074) as int);
    lemma_measure_order(x, x);
    lemma_pow2_pos(1074);
    if 0 < x.payload() < INFINITY_BITS {
        lemma_mul_nonnegative(m, w);
        lemma_nearest_root_exists(m * w);
        lemma_measure(nearest_root(m * w));
        // Not nothing, as the number is at least the smallest.
        lemma2_to64();
        lemma_packed(1, 0);
        lemma_magnitude_order(0, 0);
        assert(4 * (m * w) > 1) by (nonlinear_arith)
            requires
                m >= 1,
                w >= 1,
        ;
        // Not infinite, as the number is at most the largest.
        let last = INFINITY_BITS - 1;
        let (top, half) = (magnitude(last), halfway(last));
        lemma_halfway_order(last, last + 1);
        lemma_magnitude_order(x.payload(), last);
        lemma_power_pattern(1074);
        lemma_magnitude_order(power_pattern(1074), last);
        assert(4 * (m * w) < half * half) by (nonlinear_arith)
            requires
                0 <= m <= top,
                0 < w <= top,
                2 * top < half,
        ;
    }
}

/// A product or a quotient of two numbers of the same sign is not negative.
pub(crate) proof fn lemma_same_sign(a: Double, b: Double)
    requires
        a.is_negative() == b.is_negative(),
    ensures
        !prod(a, b).is_negative(),
        !quot(a, b).is_negative(),
{
    let w = pow2(1074) as int;
    let (ma, mb) = (magnitude(a.payload()), magnitude(b.payload()));
    lemma_pow2_pos(1074);
    lemma_magnitude_order(0, a.payload());
    lemma_magnitude_order(0, b.payload());
    lemma_mul_nonnegative(ma, mb);
    lemma_mul_nonnegative(ma, w);
    lemma_nearest_exists(ma * mb, w);
    if mb > 0 {
        lemma_nearest_exists(ma * w, mb);
    }
}

/// A sum of two numbers that are not below zero is not negative, unless both are
/// the negative zero.
pub(crate) proof fn lemma_sum_sign(a: Double, b: Double)
    requires
        !b.is_negative(),
        !a.is_negative() || a.payload() == 0,
    ensures
        !sum(a, b).is_negative(),
{
    lemma_magnitude_order(0, a.payload());
    lemma_magnitude_order(0, b.payload());
    let exact = a.scaled() + b.scaled();
    lemma_nearest_exists(exact, 1);
}

/// A sum is a number where both are and at least one is finite, or neither is
/// negative.
pub(crate) proof fn lemma_sum_is_a_number(a: Double, b: Double)
    requires
        !a.is_nan(),
        !b.is_nan(),
        a.is_finite() || b.is_finite() || (!a.is_negative() && !b.is_negative()),
    ensures
        !sum(a, b).is_nan(),
{
    let exact = a.scaled() + b.scaled();
    if exact < 0 {
        lemma_nearest_exists(-exact, 1);
    } else {
        lemma_nearest_exists(exact, 1);
    }
}

/// The square of a number is a number.
pub(crate) proof fn lemma_square_is_a_number(x: Double)
    requires
        !x.is_nan(),
    ensures
        !prod(x, x).is_nan(),
{
    let m = magnitude(x.payload());
    lemma_pow2_pos(1074);
    lemma_magnitude_order(0, x.payload());
    lemma_mul_nonnegative(m, m);
    lemma_nearest_exists(m * m, pow2(1074) as int);
}

/// The pattern of twice the value.
pub open spec fn twice(payload: int) -> int {
    if payload < FRACTION_UNIT {
        2 * payload
    } else {
        payload + FRACTION_UNIT
    }
}

/// Every pattern below infinity has one of twice its value.
pub(crate) proof fn lemma_twice(payload: int)
    requires
        0 <= payload < INFINITY_BITS,
    ensures
        magnitude(twice(payload)) == 2 * magnitude(payload),
        payload <= twice(payload),
{
    let unit = FRACTION_UNIT as int;
    lemma2_to64();
    if payload < unit {
        lemma_packed(payload, 0);
        lemma_packed(2 * payload, 0);
    } else {
        let (e, f) = (payload / unit, payload % unit);
        let (s, place) = (unit + f, (e - 1) as nat);
        lemma_fundamental_div_mod(payload, unit);
        assert(payload == place * unit + s && payload + unit == (place + 1) * unit + s)
            by (nonlinear_arith)
            requires
                payload == unit * e + f,
                place == e - 1,
                s == unit + f,
        ;
        lemma_packed(s, place);
        lemma_packed(s, place + 1);
        lemma_pow2_unfold(place + 1);
        let v = pow2(place) as int;
        assert(s * (2 * v) == 2 * (s * v)) by (nonlinear_arith);
    }
}

/// The distance from a pattern to the next one is that of two to the power
/// `exponent`, or less, as long as the pattern is below that power.
proof fn lemma_step(payload: int, exponent: nat)
    requires
        0 <= payload < power_pattern(exponent as int),
        53 <= exponent,
    ensures
        0 < magnitude(payload + 1) - magnitude(payload) <= pow2((exponent - 53) as nat),
{
    let unit = FRACTION_UNIT as int;
    let (e, f) = (payload / unit, payload % unit);
    lemma_fundamental_div_mod(payload, unit);
    lemma_magnitude_order(payload, payload + 1);
    lemma2_to64();
    let place = if e == 0 {
        0
    } else {
        (e - 1) as nat
    };
    let s = if e == 0 {
        f
    } else {
        unit + f
    };
    assert(place <= exponent - 53) by {
        if e > exponent - 52 {
            lemma_mul_inequality(exponent - 51, e, unit);
        }
        lemma_mul_inequality(0, e, unit);
    }
    assert(payload == place * unit + s) by (nonlinear_arith)
        requires
            payload == unit * e + f,
            e >= 0,
            place == if e == 0 {
                0
            } else {
                e - 1
            },
            s == if e == 0 {
                f
            } else {
                unit + f
            },
    ;
    lemma_packed(s, place);
    lemma_packed(s + 1, place);
    let v = pow2(place) as int;
    assert((s + 1) * v == s * v + v) by (nonlinear_arith);
    if place < exponent - 53 {
        lemma_pow2_strictly_increases(place, (exponent - 53) as nat);
    }
}

/// The distance from a pattern to the next one, where the pattern is not below two to
/// the power `exponent`.
pub(crate) proof fn lemma_least_step(payload: int, exponent: nat)
    requires
        power_pattern(exponent as int) <= payload,
        52 <= exponent,
    ensures
        magnitude(payload + 1) - magnitude(payload) >= pow2((exponent - 52) as nat),
{
    let unit = FRACTION_UNIT as int;
    let (e, f) = (payload / unit, payload % unit);
    lemma_fundamental_div_mod(payload, unit);
    if e < exponent - 51 {
        lemma_mul_inequality(e + 1, exponent - 51, unit);
        assert((e + 1) * unit == unit * e + unit) by (nonlinear_arith);
    }
    let (place, s) = ((e - 1) as nat, unit + f);
    assert(payload == place * unit + s) by (nonlinear_arith)
        requires
            payload == unit * e + f,
            place == e - 1,
            s == unit + f,
    ;
    lemma_packed(s, place);
    lemma_packed(s + 1, place);
    let v = pow2(place) as int;
    assert((s + 1) * v == s * v + v) by (nonlinear_arith);
    if exponent - 52 < place {
        lemma_pow2_strictly_increases((exponent - 52) as nat, place);
    }
}

/// Rounding moves a ratio that is not above two to the power `exponent` by no more
/// than half the distance between the doubles below that power.
pub(crate) proof fn lemma_nearest_error(num: int, den: int, exponent: nat)
    requires
        den > 0,
        0 <= num <= pow2(exponent) * den,
        53 <= exponent < 2098,
    ensures
        ({
            let off = 2 * (magnitude(nearest(num, den)) * den - num);
            &&& -(den * pow2((exponent - 53) as nat)) <= off
            &&& off <= den * pow2((exponent - 53) as nat)
        }),
        0 <= nearest(num, den) < INFINITY_BITS,
        0 <= magnitude(nearest(num, den)) <= pow2(exponent),
{
    let top = power_pattern(exponent as int);
    let p = nearest(num, den);
    let step = pow2((exponent - 53) as nat) as int;
    lemma_power_pattern(exponent);
    lemma_nearest_bound(num, den, top);
    lemma_nearest_exists(num, den);
    lemma_pow2_pos((exponent - 53) as nat);
    lemma_mul_nonnegative(den, step);
    let m = magnitude(p);
    if p > 0 {
        lemma_step(p - 1, exponent);
        let low = magnitude(p - 1);
        assert(2 * (m * den - num) <= den * step) by (nonlinear_arith)
            requires
                (low + m) * den <= 2 * num,
                m - low <= step,
                den > 0,
        ;
    } else {
        lemma_magnitude_order(0, 0);
        assert(m * den == 0) by (nonlinear_arith)
            requires
                m == 0,
        ;
    }
    if p < top {
        lemma_step(p, exponent);
        let high = magnitude(p + 1);
        assert(-(den * step) <= 2 * (m * den - num)) by (nonlinear_arith)
            requires
                2 * num <= (m + high) * den,
                high - m <= step,
                den > 0,
        ;
    }
}

/// The pattern of two to the power `exponent`, in units of two to the power -1074.
pub open spec fn power_pattern(exponent: int) -> int {
    (exponent - 51) * FRACTION_UNIT
}

/// A power of two has a pattern.
pub(crate) proof fn lemma_power_pattern(exponent: nat)
    requires
        52 <= exponent < 2098,
    ensures
        0 <= power_pattern(exponent as int) < INFINITY_BITS,
        magnitude(power_pattern(exponent as int)) == pow2(exponent),
{
    let place = (exponent - 52) as nat;
    lemma_packed(FRACTION_UNIT as int, place);
    lemma2_to64_rest();
    lemma_pow2_adds(52, place);
    assert(place * FRACTION_UNIT + FRACTION_UNIT == (exponent - 51) * FRACTION_UNIT)
        by (nonlinear_arith)
        requires
            place == exponent - 52,
    ;
}

} // verus!
