//! Double-precision arithmetic.
//!
//! Every operation gives the double closest to the exact result, and follows the
//! rules for zeros, infinities and what is no number that all machines share.

use crate::double::{
    lemma_magnitude_order, magnitude, Double, FRACTION_UNIT, INFINITY_BITS, NAN_BITS, SIGN_BIT,
};
use crate::rounding::{nearest, nearest_root, round_ratio, round_root, signed};
use vstd::arithmetic::div_mod::lemma_fundamental_div_mod;
use vstd::arithmetic::mul::{
    lemma_mul_inequality, lemma_mul_is_associative, lemma_mul_is_commutative,
    lemma_mul_is_distributive_add,
};
use vstd::arithmetic::power2::{
    lemma2_to64, lemma2_to64_rest, lemma_pow2_adds, lemma_pow2_pos,
    lemma_pow2_strictly_increases, lemma_pow2_unfold, pow2,
};
use vstd::prelude::*;

verus! {

/// What is no number.
pub open spec fn nan() -> Double {
    Double { bits: NAN_BITS }
}

/// The double closest to `num / den`.
pub open spec fn closest(num: int, den: int) -> Double {
    signed(false, nearest(num * pow2(1074), den))
}

/// `n` as a double.
pub open spec fn whole(n: u64) -> Double {
    closest(n as int, 1)
}

/// `a` times `b`.
pub open spec fn prod(a: Double, b: Double) -> Double {
    let negative = a.is_negative() != b.is_negative();
    if a.is_nan() || b.is_nan() {
        nan()
    } else if a.is_infinite() || b.is_infinite() {
        if a.payload() == 0 || b.payload() == 0 {
            nan()
        } else {
            signed(negative, INFINITY_BITS as int)
        }
    } else {
        signed(
            negative,
            nearest(magnitude(a.payload()) * magnitude(b.payload()), pow2(1074) as int),
        )
    }
}

fn with_sign(negative: bool, payload: u64) -> (result: Double)
    requires
        payload <= INFINITY_BITS,
    ensures
        result == signed(negative, payload as int),
{
    if negative {
        Double { bits: payload + SIGN_BIT }
    } else {
        Double { bits: payload }
    }
}

/// `n` as a double.
pub fn from_int(n: u64) -> (result: Double)
    ensures
        result == whole(n),
{
    from_wide(n as u128)
}

/// `n` as a double.
pub(crate) fn from_wide(n: u128) -> (result: Double)
    requires
        n < 0x100_0000_0000_0000_0000_0000_0000_0000,
    ensures
        result == closest(n as int, 1),
{
    proof {
        lemma2_to64();
        lemma_pow2_pos(1074);
        lemma_mul_is_commutative(n as int, pow2(1074) as int);
        let w = pow2(1074) as int;
        assert(n * w < (n + 1) * w) by (nonlinear_arith)
            requires
                w > 0,
        ;
    }
    let payload: u64 = round_ratio(n, 1074, 0, false, Ghost(n * pow2(1074)), Ghost(1int));
    with_sign(false, payload)
}

/// `a` times `b`.
pub fn times(a: Double, b: Double) -> (result: Double)
    ensures
        result == prod(a, b),
{
    let negative: bool = (a.bits >= SIGN_BIT) != (b.bits >= SIGN_BIT);
    let pa: u64 = a.exec_payload();
    let pb: u64 = b.exec_payload();
    if pa > INFINITY_BITS || pb > INFINITY_BITS {
        return Double { bits: NAN_BITS };
    }
    if pa == INFINITY_BITS || pb == INFINITY_BITS {
        if pa == 0 || pb == 0 {
            return Double { bits: NAN_BITS };
        }
        return with_sign(negative, INFINITY_BITS);
    }
    let (sa, ea) = a.parts();
    let (sb, eb) = b.parts();
    let ghost num = magnitude(a.payload()) * magnitude(b.payload());
    let ghost den = pow2(1074) as int;
    proof {
        lemma_product(sa as int, ea as nat, sb as int, eb as nat);
        lemma_pow2_pos(1074);
        lemma_pow2_pos((ea + eb) as nat);
        let y = den * pow2((ea + eb) as nat);
        assert(y > 0) by (nonlinear_arith)
            requires
                y == den * pow2((ea + eb) as nat),
                den > 0,
                pow2((ea + eb) as nat) > 0,
        ;
        assert((sa * sb) * y < (sa * sb + 1) * y) by (nonlinear_arith)
            requires
                y > 0,
        ;
        assert(sa * sb < 0x100_0000_0000_0000_0000_0000_0000_0000) by (nonlinear_arith)
            requires
                0 <= sa < 0x20_0000_0000_0000,
                0 <= sb < 0x20_0000_0000_0000,
        ;
    }
    let payload: u64 = round_ratio(
        sa as u128 * sb as u128,
        ea + eb,
        1074,
        false,
        Ghost(num),
        Ghost(den),
    );
    with_sign(negative, payload)
}

proof fn lemma_product(sa: int, ea: nat, sb: int, eb: nat)
    ensures
        (sa * sb) * (pow2(1074) * pow2(ea + eb)) == ((sa * pow2(ea)) * (sb * pow2(eb))) * pow2(
            1074,
        ),
{
    lemma_pow2_adds(ea, eb);
    let (x, y, z) = (pow2(ea) as int, pow2(eb) as int, pow2(1074) as int);
    assert((sa * sb) * (z * (x * y)) == ((sa * x) * (sb * y)) * z) by (nonlinear_arith);
}

/// `a` divided by `b`.
pub open spec fn quot(a: Double, b: Double) -> Double {
    let negative = a.is_negative() != b.is_negative();
    if a.is_nan() || b.is_nan() {
        nan()
    } else if a.is_infinite() {
        if b.is_infinite() {
            nan()
        } else {
            signed(negative, INFINITY_BITS as int)
        }
    } else if b.is_infinite() {
        signed(negative, 0)
    } else if b.payload() == 0 {
        if a.payload() == 0 {
            nan()
        } else {
            signed(negative, INFINITY_BITS as int)
        }
    } else {
        signed(negative, nearest(magnitude(a.payload()) * pow2(1074), magnitude(b.payload())))
    }
}

/// Moves a significand up until it fills its 53 places, and tells by how many.
fn fill(significand: u64) -> (result: (u64, u64))
    requires
        0 < significand < 2 * FRACTION_UNIT,
    ensures
        FRACTION_UNIT <= result.0 < 2 * FRACTION_UNIT,
        result.0 == significand * pow2(result.1 as nat),
        result.1 <= 52,
{
    let mut filled: u64 = significand;
    let mut shift: u64 = 0;
    proof {
        lemma2_to64();
        lemma2_to64_rest();
    }
    while filled < FRACTION_UNIT
        invariant
            0 < significand,
            0 < filled < 2 * FRACTION_UNIT,
            shift <= 52,
            filled == significand * pow2(shift as nat),
        decreases 53 - shift,
    {
        proof {
            lemma_pow2_pos(shift as nat);
            lemma_mul_inequality(1, significand as int, pow2(shift as nat) as int);
            if shift >= 52 {
                lemma2_to64_rest();
                assert(false);
            }
            lemma_pow2_unfold((shift + 1) as nat);
            lemma_mul_is_associative(significand as int, pow2(shift as nat) as int, 2);
            lemma_mul_is_commutative(2, pow2(shift as nat) as int);
        }
        filled = filled * 2;
        shift = shift + 1;
    }
    (filled, shift)
}

/// `a` divided by `b`.
pub fn over(a: Double, b: Double) -> (result: Double)
    ensures
        result == quot(a, b),
{
    let negative: bool = (a.bits >= SIGN_BIT) != (b.bits >= SIGN_BIT);
    let pa: u64 = a.exec_payload();
    let pb: u64 = b.exec_payload();
    if pa > INFINITY_BITS || pb > INFINITY_BITS {
        return Double { bits: NAN_BITS };
    }
    if pa == INFINITY_BITS {
        if pb == INFINITY_BITS {
            return Double { bits: NAN_BITS };
        }
        return with_sign(negative, INFINITY_BITS);
    }
    if pb == INFINITY_BITS {
        return with_sign(negative, 0);
    }
    if pb == 0 {
        if pa == 0 {
            return Double { bits: NAN_BITS };
        }
        return with_sign(negative, INFINITY_BITS);
    }
    let ghost num = magnitude(a.payload()) * pow2(1074);
    let ghost den = magnitude(b.payload());
    proof {
        lemma_magnitude_order(0, a.payload());
        lemma_magnitude_order(0, b.payload());
    }
    if pa == 0 {
        proof {
            lemma_zero(den);
        }
        let payload: u64 = round_ratio(0, 0, 0, false, Ghost(num), Ghost(den));
        return with_sign(negative, payload);
    }
    let (sa, ea) = a.parts();
    let (sb, eb) = b.parts();
    proof {
        lemma_positive(sa as int, pow2(ea as nat) as int);
        lemma_positive(sb as int, pow2(eb as nat) as int);
    }
    let (fa, i) = fill(sa);
    let (fb, j) = fill(sb);
    let wide: u128 = fa as u128 * 0x1_0000_0000_0000_0000;
    let p: u128 = wide / fb as u128;
    let sticky: bool = wide % fb as u128 != 0;
    let up: u64 = ea + 1074 + j;
    let down: u64 = eb + i + 64;
    proof {
        lemma_fundamental_div_mod(wide as int, fb as int);
        lemma_mul_is_distributive_add(fb as int, p as int, 1);
        lemma_mul_is_commutative(fb as int, p + 1);
        lemma_mul_is_commutative(fb as int, p as int);
        lemma_quotient(
            sa as int,
            ea as nat,
            i as nat,
            sb as int,
            eb as nat,
            j as nat,
            p as int,
            wide as int,
        );
        assert(0x20_0000_0000_0000 <= p < 0x100_0000_0000_0000_0000_0000_0000_0000)
            by (nonlinear_arith)
            requires
                wide == fa * 0x1_0000_0000_0000_0000,
                0x10_0000_0000_0000 <= fa < 0x20_0000_0000_0000,
                0x10_0000_0000_0000 <= fb < 0x20_0000_0000_0000,
                fb * p <= wide,
                wide < fb * (p + 1),
                p >= 0,
        ;
        assert(sticky == (p * fb != wide));
    }
    let payload: u64 = round_ratio(p, up, down, sticky, Ghost(num), Ghost(den));
    with_sign(negative, payload)
}

proof fn lemma_positive(s: int, unit: int)
    requires
        s >= 0,
        s * unit > 0,
    ensures
        s > 0,
{
    if s == 0 {
        assert(s * unit == 0) by (nonlinear_arith)
            requires
                s == 0,
        ;
    }
}

proof fn lemma_zero(den: int)
    requires
        den > 0,
    ensures
        0 * (den * pow2(0)) == (magnitude(0) * pow2(1074)) * pow2(0),
        (magnitude(0) * pow2(1074)) * pow2(0) < 1 * (den * pow2(0)),
{
    lemma2_to64();
    lemma_magnitude_order(0, 0);
}

/// A quotient of filled significands stands for the quotient of the numbers.
proof fn lemma_quotient(sa: int, ea: nat, i: nat, sb: int, eb: nat, j: nat, p: int, wide: int)
    requires
        sb > 0,
        wide == sa * pow2(i) * 0x1_0000_0000_0000_0000,
    ensures
        ({
            let num = (sa * pow2(ea)) * pow2(1074);
            let den = sb * pow2(eb);
            let fb = sb * pow2(j);
            let (y, x) = (den * pow2(ea + 1074 + j), num * pow2(eb + i + 64));
            &&& (p * fb <= wide) == (p * y <= x)
            &&& (p * fb == wide) == (p * y == x)
            &&& (wide < (p + 1) * fb) == (x < (p + 1) * y)
        }),
{
    let (xa, xb, xi, xj, w) = (
        pow2(ea) as int,
        pow2(eb) as int,
        pow2(i) as int,
        pow2(j) as int,
        pow2(1074) as int,
    );
    let num = (sa * xa) * w;
    let den = sb * xb;
    let fb = sb * xj;
    lemma2_to64();
    lemma_pow2_adds(ea, 1074);
    lemma_pow2_adds(ea + 1074, j);
    lemma_pow2_adds(eb, i);
    lemma_pow2_adds(eb + i, 64);
    lemma_pow2_pos(ea);
    lemma_pow2_pos(eb);
    lemma_pow2_pos(1074);
    let k = xa * xb * w;
    let (y, x) = (den * pow2(ea + 1074 + j), num * pow2(eb + i + 64));
    assert(pow2(ea + 1074 + j) == xa * w * xj);
    assert(pow2(eb + i + 64) == xb * xi * 0x1_0000_0000_0000_0000);
    assert(y == fb * k) by (nonlinear_arith)
        requires
            y == (sb * xb) * (xa * w * xj),
            fb == sb * xj,
            k == xa * xb * w,
    ;
    assert(x == wide * k) by (nonlinear_arith)
        requires
            x == ((sa * xa) * w) * (xb * xi * 0x1_0000_0000_0000_0000),
            wide == sa * xi * 0x1_0000_0000_0000_0000,
            k == xa * xb * w,
    ;
    assert(k > 0) by (nonlinear_arith)
        requires
            xa > 0,
            xb > 0,
            w > 0,
            k == xa * xb * w,
    ;
    lemma_scaled(p, fb, k, wide);
    lemma_scaled(p + 1, fb, k, wide);
}

proof fn lemma_scaled(p: int, fb: int, k: int, wide: int)
    requires
        k > 0,
    ensures
        (p * fb <= wide) == (p * (fb * k) <= wide * k),
        (p * fb == wide) == (p * (fb * k) == wide * k),
        (p * fb > wide) == (p * (fb * k) > wide * k),
{
    let m = p * fb;
    assert(p * (fb * k) == m * k) by (nonlinear_arith)
        requires
            m == p * fb,
    ;
    assert((m <= wide) == (m * k <= wide * k) && (m == wide) == (m * k == wide * k))
        by (nonlinear_arith)
        requires
            k > 0,
    ;
}

/// The number of opposite sign.
pub open spec fn negated(a: Double) -> Double {
    Double {
        bits: if a.is_negative() {
            (a.bits - SIGN_BIT) as u64
        } else {
            (a.bits + SIGN_BIT) as u64
        },
    }
}

/// The absolute value of an integer.
pub open spec fn absolute(n: int) -> int {
    if n < 0 {
        -n
    } else {
        n
    }
}

/// `a` plus `b`. A sum of nothing is negative only if both are.
pub open spec fn sum(a: Double, b: Double) -> Double {
    let exact = a.scaled() + b.scaled();
    if a.is_nan() || b.is_nan() {
        nan()
    } else if a.is_infinite() {
        if b.is_infinite() && a.is_negative() != b.is_negative() {
            nan()
        } else {
            a
        }
    } else if b.is_infinite() {
        b
    } else if exact == 0 {
        signed(a.is_negative() && b.is_negative(), 0)
    } else {
        signed(exact < 0, nearest(absolute(exact), 1))
    }
}

/// `a` less `b`.
pub open spec fn diff(a: Double, b: Double) -> Double {
    sum(a, negated(b))
}

/// Two to the power `n`.
pub(crate) fn power(n: u64) -> (result: u128)
    requires
        n <= 64,
    ensures
        result == pow2(n as nat),
        result <= 0x1_0000_0000_0000_0000,
{
    let mut result: u128 = 1;
    let mut i: u64 = 0;
    proof {
        lemma2_to64();
    }
    while i < n
        invariant
            i <= n <= 64,
            result == pow2(i as nat),
            result <= 0x1_0000_0000_0000_0000,
        decreases n - i,
    {
        proof {
            lemma2_to64();
            lemma_pow2_unfold((i + 1) as nat);
            if i + 1 < 64 {
                lemma_pow2_strictly_increases((i + 1) as nat, 64);
            }
        }
        result = result * 2;
        i = i + 1;
    }
    result
}

/// Splits `significand` at the place `cut`: what is above it, and whether
/// anything is below it.
fn split(significand: u64, cut: u64) -> (result: (u64, bool))
    requires
        significand < 2 * FRACTION_UNIT,
    ensures
        result.0 == significand as int / pow2(cut as nat) as int,
        result.1 == (significand as int % pow2(cut as nat) as int != 0),
        result.0 <= significand,
{
    proof {
        lemma_pow2_pos(cut as nat);
    }
    if cut >= 64 {
        proof {
            lemma2_to64();
            if cut > 64 {
                lemma_pow2_strictly_increases(64, cut as nat);
            }
            vstd::arithmetic::div_mod::lemma_basic_div(significand as int, pow2(cut as nat) as int);
            vstd::arithmetic::div_mod::lemma_small_mod(significand as nat, pow2(cut as nat));
        }
        (0, significand != 0)
    } else {
        let unit: u128 = power(cut);
        let above: u128 = significand as u128 / unit;
        proof {
            vstd::arithmetic::div_mod::lemma_div_nonincreasing(significand as int, unit as int);
        }
        (above as u64, significand as u128 % unit != 0)
    }
}

/// The sum, or the difference where `opposite`, of `sa * 2^ea` and `sb * 2^eb`,
/// and whether the second was the larger of the two.
fn combine(sa: u64, ea: u64, sb: u64, eb: u64, opposite: bool) -> (result: (u64, bool))
    requires
        sa < 2 * FRACTION_UNIT,
        sb < 2 * FRACTION_UNIT,
        eb <= ea <= 2045,
        ea > 0 ==> sa >= FRACTION_UNIT,
    ensures
        ({
            let (x, y) = (sa * pow2(ea as nat), sb * pow2(eb as nat));
            &&& result.0 == nearest(
                if opposite {
                    absolute(x - y)
                } else {
                    x + y
                },
                1,
            )
            &&& result.1 == (opposite && x < y)
        }),
        result.0 <= INFINITY_BITS,
{
    let distance: u64 = ea - eb;
    let cut: u64 = if distance > 64 {
        distance - 64
    } else {
        0
    };
    let shift: u64 = distance - cut;
    let scale: u128 = power(shift);
    assert(sa * scale < 0x40_0000_0000_0000_0000_0000_0000_0000) by (nonlinear_arith)
        requires
            0 <= sa < 0x20_0000_0000_0000,
            0 <= scale <= 0x1_0000_0000_0000_0000,
    ;
    let high: u128 = sa as u128 * scale;
    let (low, sticky) = split(sb, cut);
    let place: u64 = eb + cut;
    let ghost x = sa * pow2(ea as nat);
    let ghost y = sb * pow2(eb as nat);
    let ghost unit = pow2(place as nat) as int;
    let ghost rest = y - low * unit;
    proof {
        lemma_aligned(sa as int, shift as nat, sb as int, eb as nat, cut as nat);
        lemma2_to64();
        lemma_pow2_pos(place as nat);
        if cut > 0 {
            assert(high >= 0x10_0000_0000_0000_0000_0000_0000_0000) by (nonlinear_arith)
                requires
                    high == sa * 0x1_0000_0000_0000_0000,
                    sa >= 0x10_0000_0000_0000,
            ;
        } else {
            vstd::arithmetic::div_mod::lemma_div_basics_3(sb as int);
        }
    }
    if opposite {
        if cut == 0 && high < low as u128 {
            let p: u128 = low as u128 - high;
            proof {
                lemma_aligned_difference(low as int, high as int, unit, 0, y, x);
            }
            let payload: u64 = round_ratio(p, place, 0, false, Ghost(y - x), Ghost(1int));
            (payload, true)
        } else {
            let p: u128 = if sticky {
                high - low as u128 - 1
            } else {
                high - low as u128
            };
            proof {
                lemma_aligned_difference(high as int, low as int, unit, rest, x, y);
            }
            let payload: u64 = round_ratio(p, place, 0, sticky, Ghost(x - y), Ghost(1int));
            (payload, false)
        }
    } else {
        let p: u128 = high + low as u128;
        proof {
            lemma_aligned_sum(high as int, low as int, unit, rest, x, y);
        }
        let payload: u64 = round_ratio(p, place, 0, sticky, Ghost(x + y), Ghost(1int));
        (payload, false)
    }
}

/// Two numbers in units of the same place: the first is a multiple of it, and the
/// second a multiple and a rest.
proof fn lemma_aligned(sa: int, shift: nat, sb: int, eb: nat, cut: nat)
    requires
        sb >= 0,
    ensures
        ({
            let unit = pow2(eb + cut) as int;
            let rest = sb * pow2(eb) - (sb / pow2(cut) as int) * unit;
            &&& sa * pow2(eb + cut + shift) == (sa * pow2(shift)) * unit
            &&& 0 <= rest < unit
            &&& (rest == 0) == (sb % pow2(cut) as int == 0)
        }),
{
    let (k, v, w) = (pow2(cut) as int, pow2(eb) as int, pow2(shift) as int);
    let unit = pow2(eb + cut) as int;
    let (q, r) = (sb / k, sb % k);
    lemma_pow2_adds(eb, cut);
    lemma_pow2_adds(eb + cut, shift);
    lemma_pow2_pos(eb);
    lemma_pow2_pos(cut);
    lemma_fundamental_div_mod(sb, k);
    assert(sa * (unit * w) == (sa * w) * unit) by (nonlinear_arith);
    let rest = sb * v - q * unit;
    assert(rest == r * v) by (nonlinear_arith)
        requires
            rest == sb * v - q * unit,
            sb == k * q + r,
            unit == v * k,
    ;
    assert(0 <= r * v && r * v < unit && (r * v == 0) == (r == 0)) by (nonlinear_arith)
        requires
            0 <= r < k,
            v > 0,
            unit == v * k,
    ;
}

proof fn lemma_aligned_sum(high: int, low: int, unit: int, rest: int, x: int, y: int)
    requires
        unit > 0,
        0 <= rest < unit,
        x == high * unit,
        y == low * unit + rest,
    ensures
        (high + low) * (1 * unit) <= (x + y) * pow2(0) < (high + low + 1) * (1 * unit),
        ((high + low) * (1 * unit) == (x + y) * pow2(0)) == (rest == 0),
{
    lemma2_to64();
    assert((high + low) * unit + rest == x + y && (high + low + 1) * unit == (high + low) * unit
        + unit) by (nonlinear_arith)
        requires
            x == high * unit,
            y == low * unit + rest,
    ;
}

proof fn lemma_aligned_difference(high: int, low: int, unit: int, rest: int, x: int, y: int)
    requires
        unit > 0,
        0 <= rest < unit,
        x == high * unit,
        y == low * unit + rest,
        low <= high,
        rest > 0 ==> low < high,
    ensures
        ({
            let p = if rest == 0 {
                high - low
            } else {
                high - low - 1
            };
            &&& p * (1 * unit) <= (x - y) * pow2(0) < (p + 1) * (1 * unit)
            &&& (p * (1 * unit) == (x - y) * pow2(0)) == (rest == 0)
        }),
        x >= y,
        (x == y) == (high == low),
{
    lemma2_to64();
    let d = high - low;
    assert(d * unit - rest == x - y && (d + 1) * unit == d * unit + unit && (d - 1) * unit == d
        * unit - unit) by (nonlinear_arith)
        requires
            x == high * unit,
            y == low * unit + rest,
            d == high - low,
    ;
    assert(d > 0 ==> d * unit >= unit) by (nonlinear_arith)
        requires
            unit > 0,
    ;
    assert(d == 0 ==> d * unit == 0) by (nonlinear_arith);
}

/// `a` plus `b`.
pub fn plus(a: Double, b: Double) -> (result: Double)
    ensures
        result == sum(a, b),
{
    let na: bool = a.bits >= SIGN_BIT;
    let nb: bool = b.bits >= SIGN_BIT;
    let pa: u64 = a.exec_payload();
    let pb: u64 = b.exec_payload();
    if pa > INFINITY_BITS || pb > INFINITY_BITS {
        return Double { bits: NAN_BITS };
    }
    if pa == INFINITY_BITS {
        if pb == INFINITY_BITS && na != nb {
            return Double { bits: NAN_BITS };
        }
        return a;
    }
    if pb == INFINITY_BITS {
        return b;
    }
    proof {
        lemma_magnitude_order(pa as int, pb as int);
        lemma_magnitude_order(pb as int, pa as int);
        lemma_magnitude_order(0, pa as int);
        lemma_magnitude_order(0, pb as int);
    }
    if pa == pb && na != nb {
        return Double { bits: 0 };
    }
    if pa == 0 && pb == 0 {
        return a;
    }
    let (sa, ea) = a.parts();
    let (sb, eb) = b.parts();
    if ea >= eb {
        let (payload, turned) = combine(sa, ea, sb, eb, na != nb);
        with_sign(na != turned, payload)
    } else {
        let (payload, turned) = combine(sb, eb, sa, ea, na != nb);
        with_sign(nb != turned, payload)
    }
}

/// `a` less `b`.
pub fn minus(a: Double, b: Double) -> (result: Double)
    ensures
        result == diff(a, b),
{
    let negative = Double {
        bits: if b.bits >= SIGN_BIT {
            b.bits - SIGN_BIT
        } else {
            b.bits + SIGN_BIT
        },
    };
    plus(a, negative)
}

/// The square root of `a`.
pub open spec fn sqrt(a: Double) -> Double {
    if a.is_nan() {
        nan()
    } else if a.payload() == 0 {
        a
    } else if a.is_negative() {
        nan()
    } else if a.is_infinite() {
        a
    } else {
        signed(false, nearest_root(magnitude(a.payload()) * pow2(1074)))
    }
}

/// The largest integer whose square is not above `n`.
fn integer_root(n: u128) -> (result: u128)
    requires
        n < 0x1_0000_0000_0000_0000_0000_0000_0000,
    ensures
        result * result <= n < (result + 1) * (result + 1),
        result < 0x100_0000_0000_0000,
{
    let mut low: u128 = 0;
    let mut high: u128 = 0x100_0000_0000_0000;
    assert(high * high == 0x1_0000_0000_0000_0000_0000_0000_0000) by (nonlinear_arith)
        requires
            high == 0x100_0000_0000_0000,
    ;
    while high - low > 1
        invariant
            low < high <= 0x100_0000_0000_0000,
            low * low <= n < high * high,
        decreases high - low,
    {
        let middle: u128 = (low + high) / 2;
        assert(0 <= middle * middle < 0x1_0000_0000_0000_0000_0000_0000_0000) by (nonlinear_arith)
            requires
                0 <= middle < 0x100_0000_0000_0000,
        ;
        if middle * middle <= n {
            low = middle;
        } else {
            high = middle;
        }
    }
    low
}

proof fn lemma_radicand(s: int, e: nat, i: nat, more: nat, half: nat)
    requires
        e + 1074 == i + more + 2 * half,
    ensures
        (s * pow2(e)) * pow2(1074) == ((s * pow2(i)) * pow2(more)) * (pow2(half) * pow2(half)),
{
    lemma_pow2_adds(e, 1074);
    lemma_pow2_adds(i, more);
    lemma_pow2_adds(half, half);
    lemma_pow2_adds(i + more, half + half);
    let (a, b, c, d, f) = (
        pow2(e) as int,
        pow2(1074) as int,
        pow2(i) as int,
        pow2(more) as int,
        (pow2(half) * pow2(half)) as int,
    );
    assert((s * a) * b == ((s * c) * d) * f) by (nonlinear_arith)
        requires
            a * b == (c * d) * f,
    ;
}

/// The square root of `a`.
pub fn square_root(a: Double) -> (result: Double)
    ensures
        result == sqrt(a),
{
    let payload: u64 = a.exec_payload();
    if payload > INFINITY_BITS {
        return Double { bits: NAN_BITS };
    }
    if payload == 0 {
        return a;
    }
    if a.bits >= SIGN_BIT {
        return Double { bits: NAN_BITS };
    }
    if payload == INFINITY_BITS {
        return a;
    }
    let (s, e) = a.parts();
    proof {
        lemma_magnitude_order(0, payload as int);
        lemma_positive(s as int, pow2(e as nat) as int);
    }
    let (filled, i) = fill(s);
    // The number is `filled * 2^(e - i)`; its root has half that exponent, so that
    // an odd one lends a place.
    let odd: bool = (e + 1074 - i) % 2 == 1;
    let more: u64 = if odd {
        57
    } else {
        56
    };
    let scale: u128 = power(more);
    proof {
        lemma2_to64_rest();
        assert(0x1000_0000_0000_0000_0000_0000_0000 <= filled * scale
            < 0x1_0000_0000_0000_0000_0000_0000_0000) by (nonlinear_arith)
            requires
                0x10_0000_0000_0000 <= filled < 0x20_0000_0000_0000,
                0x100_0000_0000_0000 <= scale <= 0x200_0000_0000_0000,
        ;
    }
    let radicand: u128 = filled as u128 * scale;
    let half: u64 = (e + 1074 - i - more) / 2;
    let root: u128 = integer_root(radicand);
    let ghost num = magnitude(a.payload()) * pow2(1074);
    proof {
        lemma_radicand(s as int, e as nat, i as nat, more as nat, half as nat);
        assert(root >= 0x20_0000_0000_0000 && root * root <= u128::MAX) by (nonlinear_arith)
            requires
                0 <= root < 0x100_0000_0000_0000,
                0x1000_0000_0000_0000_0000_0000_0000 <= radicand < (root + 1) * (root + 1),
        ;
    }
    let sticky: bool = root * root != radicand;
    let rounded: u64 = round_root(root, half, sticky, Ghost(radicand as int), Ghost(num));
    with_sign(false, rounded)
}

} // verus!
