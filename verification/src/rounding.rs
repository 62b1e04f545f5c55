//! Rounding to the nearest double.
//!
//! An exact result is a ratio of integers, in units of two to the power -1074.
//! The double that stands for it is the one whose value it lies closest to; of
//! two that are equally close, the one with the even pattern.

use crate::double::{
    lemma_magnitude_order, magnitude, Double, FRACTION_UNIT, INFINITY_BITS, SIGN_BIT,
};
use vstd::arithmetic::div_mod::{lemma_fundamental_div_mod, lemma_fundamental_div_mod_converse};
use vstd::arithmetic::mul::{
    lemma_mul_inequality, lemma_mul_is_associative, lemma_mul_is_commutative,
    lemma_mul_strict_inequality,
};
use vstd::arithmetic::power2::{
    lemma2_to64, lemma2_to64_rest, lemma_pow2_adds, lemma_pow2_pos, lemma_pow2_strictly_increases,
    lemma_pow2_unfold, pow2,
};
use vstd::prelude::*;

verus! {

/// Twice the point halfway between the pattern `payload` and the next one.
pub open spec fn halfway(payload: int) -> int {
    magnitude(payload) + magnitude(payload + 1)
}

/// The pattern closest to `num / den`: it lies between the points halfway to the
/// patterns next to it, and on such a point only if it is even. What lies above
/// the last such point becomes infinity.
pub open spec fn rounds_to(num: int, den: int, payload: int) -> bool {
    &&& 0 <= payload <= INFINITY_BITS
    &&& payload == 0 || halfway(payload - 1) * den < 2 * num || (halfway(payload - 1) * den == 2
        * num && payload % 2 == 0)
    &&& payload == INFINITY_BITS || 2 * num < halfway(payload) * den || (2 * num == halfway(payload)
        * den && payload % 2 == 0)
}

/// The pattern closest to `num / den`.
pub open spec fn nearest(num: int, den: int) -> int {
    choose|payload: int| rounds_to(num, den, payload)
}

/// The pattern closest to the square root of `num`.
pub open spec fn root_rounds_to(num: int, payload: int) -> bool {
    &&& 0 <= payload <= INFINITY_BITS
    &&& payload == 0 || halfway(payload - 1) * halfway(payload - 1) < 4 * num || (halfway(
        payload - 1,
    ) * halfway(payload - 1) == 4 * num && payload % 2 == 0)
    &&& payload == INFINITY_BITS || 4 * num < halfway(payload) * halfway(payload) || (4 * num
        == halfway(payload) * halfway(payload) && payload % 2 == 0)
}

/// The pattern closest to the square root of `num`.
pub open spec fn nearest_root(num: int) -> int {
    choose|payload: int| root_rounds_to(num, payload)
}

/// The double with the given sign and pattern.
pub open spec fn signed(negative: bool, payload: int) -> Double {
    Double {
        bits: if negative {
            (payload + SIGN_BIT) as u64
        } else {
            payload as u64
        },
    }
}

/// The points halfway between patterns are in the order of the patterns.
pub proof fn lemma_halfway_order(a: int, b: int)
    requires
        0 <= a < b,
    ensures
        halfway(a) < halfway(b),
        0 < halfway(a),
        2 * magnitude(a) < halfway(a) < 2 * magnitude(a + 1),
        halfway(a) < 2 * magnitude(b),
{
    lemma_magnitude_order(a, b);
    lemma_magnitude_order(a, a + 1);
    lemma_magnitude_order(a + 1, b + 1);
    if a + 1 < b {
        lemma_magnitude_order(a + 1, b);
    }
}

/// There is no second pattern that is closest.
pub proof fn lemma_nearest(num: int, den: int, payload: int)
    requires
        den > 0,
        rounds_to(num, den, payload),
    ensures
        nearest(num, den) == payload,
{
    let other = nearest(num, den);
    assert(rounds_to(num, den, other));
    lemma_unique(num, den, other, payload);
    lemma_unique(num, den, payload, other);
}

proof fn lemma_unique(num: int, den: int, a: int, b: int)
    requires
        den > 0,
        rounds_to(num, den, a),
        rounds_to(num, den, b),
    ensures
        b <= a,
{
    if a < b - 1 {
        lemma_halfway_order(a, b - 1);
        lemma_mul_strict_inequality(halfway(a), halfway(b - 1), den);
    }
}

/// Some pattern is closest to every ratio that is not negative.
pub proof fn lemma_nearest_exists(num: int, den: int)
    requires
        num >= 0,
        den > 0,
    ensures
        rounds_to(num, den, nearest(num, den)),
{
    lemma_closest_below(num, den, INFINITY_BITS as int);
}

/// Looks for the closest pattern from `payload` down.
proof fn lemma_closest_below(num: int, den: int, payload: int)
    requires
        num >= 0,
        den > 0,
        0 <= payload <= INFINITY_BITS,
        payload == INFINITY_BITS || 2 * num < halfway(payload) * den,
    ensures
        exists|closest: int| rounds_to(num, den, closest),
    decreases payload,
{
    if payload > 0 {
        let below = halfway(payload - 1) * den;
        if below == 2 * num && payload % 2 == 1 {
            if payload > 1 {
                lemma_halfway_order(payload - 2, payload - 1);
                lemma_mul_strict_inequality(halfway(payload - 2), halfway(payload - 1), den);
            }
            assert(rounds_to(num, den, payload - 1));
        } else if below <= 2 * num {
            assert(rounds_to(num, den, payload));
        } else {
            lemma_closest_below(num, den, payload - 1);
        }
    } else {
        assert(rounds_to(num, den, payload));
    }
}

/// Rounding keeps the order of ratios.
pub proof fn lemma_nearest_order(num: int, den: int, other: int, part: int)
    requires
        0 <= num,
        0 <= other,
        den > 0,
        part > 0,
        num * part <= other * den,
    ensures
        nearest(num, den) <= nearest(other, part),
{
    lemma_nearest_exists(num, den);
    lemma_nearest_exists(other, part);
    let (a, b) = (nearest(num, den), nearest(other, part));
    if b < a {
        let (x, y) = (halfway(b), halfway(a - 1));
        if b < a - 1 {
            lemma_halfway_order(b, a - 1);
        }
        assert(x == y && y * den == 2 * num && x * part == 2 * other) by (nonlinear_arith)
            requires
                x <= y,
                y * den <= 2 * num,
                2 * other <= x * part,
                num * part <= other * den,
                den > 0,
                part > 0,
        ;
    }
}

/// A ratio that is the value of a pattern is rounded to it.
pub proof fn lemma_nearest_exact(num: int, den: int, payload: int)
    requires
        den > 0,
        0 <= payload <= INFINITY_BITS,
        num == magnitude(payload) * den,
    ensures
        nearest(num, den) == payload,
{
    lemma_exact(num, den, magnitude(payload), 1, payload);
    lemma_nearest(num, den, payload);
}

/// A ratio that is not above the value of a pattern is not rounded above it.
pub proof fn lemma_nearest_bound(num: int, den: int, payload: int)
    requires
        0 <= num,
        den > 0,
        0 <= payload <= INFINITY_BITS,
        num <= magnitude(payload) * den,
    ensures
        0 <= nearest(num, den) <= payload,
        0 <= magnitude(nearest(num, den)) <= magnitude(payload),
{
    let top = magnitude(payload);
    lemma_magnitude_order(0, payload);
    lemma_nearest_exact(top, 1, payload);
    lemma_nearest_order(num, den, top, 1);
    lemma_nearest_exists(num, den);
    lemma_magnitude_order(nearest(num, den), payload);
}

/// There is no second pattern that is closest to a square root.
pub proof fn lemma_nearest_root(num: int, payload: int)
    requires
        root_rounds_to(num, payload),
    ensures
        nearest_root(num) == payload,
{
    let other = nearest_root(num);
    assert(root_rounds_to(num, other));
    lemma_unique_root(num, other, payload);
    lemma_unique_root(num, payload, other);
}

proof fn lemma_unique_root(num: int, a: int, b: int)
    requires
        root_rounds_to(num, a),
        root_rounds_to(num, b),
    ensures
        b <= a,
{
    if a < b - 1 {
        lemma_halfway_order(a, b - 1);
        let (x, y) = (halfway(a), halfway(b - 1));
        assert(x * x < y * y) by (nonlinear_arith)
            requires
                0 < x < y,
        ;
    }
}

/// Some pattern is closest to every square root.
pub proof fn lemma_nearest_root_exists(num: int)
    requires
        num >= 0,
    ensures
        root_rounds_to(num, nearest_root(num)),
{
    lemma_closest_root_below(num, INFINITY_BITS as int);
}

/// Looks for the pattern closest to a square root from `payload` down.
proof fn lemma_closest_root_below(num: int, payload: int)
    requires
        num >= 0,
        0 <= payload <= INFINITY_BITS,
        payload == INFINITY_BITS || 4 * num < halfway(payload) * halfway(payload),
    ensures
        exists|closest: int| root_rounds_to(num, closest),
    decreases payload,
{
    if payload > 0 {
        let high = halfway(payload - 1);
        if high * high == 4 * num && payload % 2 == 1 {
            if payload > 1 {
                lemma_halfway_order(payload - 2, payload - 1);
                let low = halfway(payload - 2);
                assert(low * low < high * high) by (nonlinear_arith)
                    requires
                        0 < low < high,
                ;
            }
            assert(root_rounds_to(num, payload - 1));
        } else if high * high <= 4 * num {
            assert(root_rounds_to(num, payload));
        } else {
            lemma_closest_root_below(num, payload - 1);
        }
    } else {
        assert(root_rounds_to(num, payload));
    }
}

/// The value of the pattern that is put together from a significand and the
/// exponent of its last place.
pub proof fn lemma_packed(significand: int, place: nat)
    requires
        0 <= significand <= 2 * FRACTION_UNIT,
        place > 0 ==> significand >= FRACTION_UNIT,
    ensures
        magnitude(place * FRACTION_UNIT + significand) == significand * pow2(place),
        0 <= place * FRACTION_UNIT + significand,
{
    let unit = FRACTION_UNIT as int;
    let payload = place * unit + significand;
    lemma2_to64();
    assert(pow2(0) == 1);
    assert(place * unit >= 0) by (nonlinear_arith)
        requires
            place >= 0,
            unit > 0,
    ;
    if significand < unit {
        lemma_fundamental_div_mod_converse(payload, unit, 0, significand);
    } else if significand < 2 * unit {
        assert(payload == (place + 1) * unit + (significand - unit)) by (nonlinear_arith)
            requires
                payload == place * unit + significand,
        ;
        lemma_fundamental_div_mod_converse(payload, unit, place as int + 1, significand - unit);
    } else {
        assert(payload == (place + 2) * unit) by (nonlinear_arith)
            requires
                payload == place * unit + significand,
                significand == 2 * unit,
        ;
        lemma_fundamental_div_mod_converse(payload, unit, place as int + 2, 0);
        lemma_pow2_unfold(place + 1);
        assert(unit * pow2(place + 1) == significand * pow2(place)) by (nonlinear_arith)
            requires
                pow2(place + 1) == 2 * pow2(place),
                significand == 2 * unit,
        ;
    }
}

/// The pattern with the given significand and exponent of its last place, or
/// infinity where that is exceeded.
spec fn packed(significand: int, place: int) -> int {
    let payload = place * FRACTION_UNIT + significand;
    if payload > INFINITY_BITS {
        INFINITY_BITS as int
    } else {
        payload
    }
}

/// `significand` is one of a double whose last place has the exponent `place`.
spec fn is_normal(significand: int, place: int) -> bool {
    &&& 0 <= significand < 2 * FRACTION_UNIT
    &&& place >= 0
    &&& place > 0 ==> significand >= FRACTION_UNIT
}

/// `payload` is `p * 2^e` without a change of value.
spec fn is_moved(p: int, e: int, payload: int, up: nat) -> bool {
    &&& is_normal(p * pow2(up), e - up)
    &&& payload == packed(p * pow2(up), e - up)
}

/// `payload` is what is left of `p * 2^e`, and something less than `2^e` more
/// where `sticky`, once `cut` places are cut off and rounded.
spec fn is_cut(p: int, e: int, sticky: bool, payload: int, cut: nat) -> bool {
    let unit = pow2(cut) as int;
    let q = p / unit;
    let r = p % unit;
    &&& cut > 0
    &&& is_normal(q, e + cut)
    &&& payload == if 2 * r > unit || (2 * r == unit && (sticky || q % 2 == 1)) {
        packed(q + 1, e + cut)
    } else {
        packed(q, e + cut)
    }
}

/// Powers of two around the width of a significand and of 128 bits.
proof fn lemma_powers()
    ensures
        pow2(0) == 1,
        pow2(53) == 2 * FRACTION_UNIT,
        pow2(67) == 0x8_0000_0000_0000_0000,
        pow2(120) == 0x100_0000_0000_0000_0000_0000_0000_0000,
        pow2(121) == 0x200_0000_0000_0000_0000_0000_0000_0000,
{
    lemma2_to64();
    lemma2_to64_rest();
    lemma_pow2_adds(64, 3);
    lemma_pow2_adds(64, 56);
    lemma_pow2_adds(64, 57);
}

/// Puts a double together from `p * 2^e`, and something less than `2^e` more
/// where `sticky`.
fn shorten(p: u128, e: i64, sticky: bool) -> (payload: u64)
    requires
        p < 0x100_0000_0000_0000_0000_0000_0000_0000,
        -4000 <= e <= 3900,
        sticky ==> p >= 2 * FRACTION_UNIT,
    ensures
        payload <= INFINITY_BITS,
        (!sticky && exists|up: nat| is_moved(p as int, e as int, payload as int, up)) || exists|
            cut: nat,
        | is_cut(p as int, e as int, sticky, payload as int, cut),
{
    proof {
        lemma_powers();
    }
    if e < -121 {
        proof {
            let cut = (-e) as nat;
            lemma_pow2_strictly_increases(121, cut);
            vstd::arithmetic::div_mod::lemma_basic_div(p as int, pow2(cut) as int);
            vstd::arithmetic::div_mod::lemma_small_mod(p as nat, pow2(cut));
            assert(is_cut(p as int, e as int, sticky, 0, cut));
        }
        return 0;
    }
    let mut q: u128 = p;
    let mut unit: u128 = 1;
    let mut cut: i64 = 0;
    while q >= 0x20_0000_0000_0000 || e + cut < 0
        invariant
            0 <= cut <= 121,
            -121 <= e <= 3900,
            unit == pow2(cut as nat),
            q == p as int / unit as int,
            p < 0x100_0000_0000_0000_0000_0000_0000_0000,
            cut > 0 && e + cut > 0 ==> q >= FRACTION_UNIT,
            cut == 0 ==> q == p,
        decreases 200 - cut,
    {
        proof {
            lemma_powers();
            lemma_pow2_pos(cut as nat);
            lemma_pow2_unfold((cut + 1) as nat);
            lemma_fundamental_div_mod(p as int, unit as int);
            vstd::arithmetic::div_mod::lemma_div_denominator(p as int, unit as int, 2);
            if q >= 0x20_0000_0000_0000 {
                assert(unit < 0x8_0000_0000_0000_0000) by (nonlinear_arith)
                    requires
                        unit * q <= p,
                        q >= 0x20_0000_0000_0000,
                        p < 0x100_0000_0000_0000_0000_0000_0000_0000,
                        unit >= 0,
                ;
                if cut > 67 {
                    lemma_pow2_strictly_increases(67, cut as nat);
                }
            }
            if cut < 120 {
                lemma_pow2_strictly_increases(cut as nat, 120);
            }
        }
        q = q / 2;
        unit = unit * 2;
        cut = cut + 1;
    }
    if cut == 0 {
        let mut place: i64 = e;
        let ghost mut up: nat = 0;
        while q < 0x10_0000_0000_0000 && place > 0
            invariant
                q < 0x20_0000_0000_0000,
                0 <= place <= e <= 3900,
                place == e - up,
                q == p * pow2(up),
            decreases place,
        {
            proof {
                lemma_pow2_unfold(up + 1);
                lemma_mul_is_associative(p as int, pow2(up) as int, 2);
                lemma_mul_is_commutative(2, pow2(up) as int);
                up = up + 1;
            }
            q = q * 2;
            place = place - 1;
        }
        let payload: u64 = place as u64 * FRACTION_UNIT + q as u64;
        let result: u64 = if payload > INFINITY_BITS {
            INFINITY_BITS
        } else {
            payload
        };
        assert(is_moved(p as int, e as int, result as int, up));
        result
    } else {
        proof {
            lemma_pow2_pos(cut as nat);
            lemma_pow2_unfold(cut as nat);
        }
        let r: u128 = p % unit;
        let half: u128 = unit / 2;
        let place: u64 = (e + cut) as u64;
        let up: bool = r > half || (r == half && (sticky || q % 2 == 1));
        let significand: u64 = if up {
            q as u64 + 1
        } else {
            q as u64
        };
        let payload: u64 = place * FRACTION_UNIT + significand;
        let result: u64 = if payload > INFINITY_BITS {
            INFINITY_BITS
        } else {
            payload
        };
        assert(is_cut(p as int, e as int, sticky, result as int, cut as nat));
        result
    }
}

/// What is packed has the value of its significand, and so have its neighbours;
/// or it is infinity, and the significand is not below infinity.
proof fn lemma_packed_value(significand: int, place: int)
    requires
        is_normal(significand, place),
    ensures
        ({
            let payload = packed(significand, place);
            let unit = pow2(place as nat) as int;
            &&& 0 <= payload <= INFINITY_BITS
            &&& payload < INFINITY_BITS ==> {
                &&& payload == place * FRACTION_UNIT + significand
                &&& magnitude(payload) == significand * unit
                &&& magnitude(payload + 1) == (significand + 1) * unit
                &&& payload % 2 == significand % 2
                &&& packed(significand + 1, place) == payload + 1
            }
            &&& payload == INFINITY_BITS ==> {
                &&& magnitude(INFINITY_BITS as int) <= significand * unit
                &&& packed(significand + 1, place) == INFINITY_BITS
            }
        }),
{
    let whole = place * FRACTION_UNIT + significand;
    lemma_packed(significand, place as nat);
    lemma_packed(significand + 1, place as nat);
    lemma_magnitude_order(INFINITY_BITS as int, whole);
    assert(whole % 2 == significand % 2) by (nonlinear_arith)
        requires
            whole == place * 0x10_0000_0000_0000 + significand,
    ;
}

/// Shortening a ratio gives the pattern closest to it. With `up` and `down` the
/// exponent of the last place of `p` is `up - down`.
proof fn lemma_ratio_moved(num: int, den: int, p: int, up: nat, down: nat, payload: int, by: nat)
    requires
        den > 0,
        p >= 0,
        p * (den * pow2(up)) == num * pow2(down),
        is_moved(p, up - down, payload, by),
    ensures
        rounds_to(num, den, payload),
{
    let q = p * pow2(by);
    let place = up - down - by;
    let unit = pow2(place as nat) as int;
    lemma_packed_value(q, place);
    lemma_pow2_pos(place as nat);
    // q * unit * den == num
    lemma_pow2_adds(by, place as nat);
    lemma_pow2_adds((by + place) as nat, down);
    lemma_pow2_pos(down);
    let (b, d, u) = (pow2(by) as int, pow2(down) as int, pow2(up) as int);
    assert(b * unit * d == u);
    assert(q * unit * den == num) by (nonlinear_arith)
        requires
            q == p * b,
            b * unit * d == u,
            p * (den * u) == num * d,
            d > 0,
    ;
    lemma_exact(num, den, q, unit, payload);
}

/// A pattern of the exact value, or infinity in place of a larger one, is the
/// closest.
proof fn lemma_exact(num: int, den: int, q: int, unit: int, payload: int)
    requires
        den > 0,
        q * unit * den == num,
        0 <= payload <= INFINITY_BITS,
        payload < INFINITY_BITS ==> magnitude(payload) == q * unit,
        payload == INFINITY_BITS ==> magnitude(payload) <= q * unit,
    ensures
        rounds_to(num, den, payload),
{
    if payload > 0 {
        lemma_halfway_order(payload - 1, payload);
        lemma_mul_strict_inequality(halfway(payload - 1), 2 * (q * unit), den);
        lemma_mul_is_associative(2, q * unit, den);
    }
    if payload < INFINITY_BITS {
        lemma_halfway_order(payload, payload + 1);
        lemma_mul_strict_inequality(2 * (q * unit), halfway(payload), den);
        lemma_mul_is_associative(2, q * unit, den);
    }
}

/// Of the patterns on both sides of a ratio, the one on whose side of the point
/// halfway it lies is the closest.
proof fn lemma_between(num: int, den: int, q: int, place: int, payload: int, upper: bool)
    requires
        den > 0,
        is_normal(q, place),
        ({
            let unit = pow2(place as nat) as int;
            &&& q * unit * den <= num < (q + 1) * unit * den
            &&& if upper {
                &&& payload == packed(q + 1, place)
                &&& (2 * q + 1) * unit * den <= 2 * num
                &&& (2 * q + 1) * unit * den == 2 * num ==> q % 2 == 1
            } else {
                &&& payload == packed(q, place)
                &&& 2 * num <= (2 * q + 1) * unit * den
                &&& (2 * q + 1) * unit * den == 2 * num ==> q % 2 == 0
            }
        }),
    ensures
        rounds_to(num, den, payload),
{
    let unit = pow2(place as nat) as int;
    let low = packed(q, place);
    lemma_packed_value(q, place);
    lemma_mul_is_associative(2, q * unit, den);
    if low == INFINITY_BITS {
        lemma_halfway_order(low - 1, low);
        lemma_mul_strict_inequality(halfway(low - 1), 2 * (q * unit), den);
    } else {
        assert(halfway(low) == (2 * q + 1) * unit) by (nonlinear_arith)
            requires
                halfway(low) == q * unit + (q + 1) * unit,
        ;
        if upper {
            if low + 1 < INFINITY_BITS {
                lemma_halfway_order(low + 1, low + 2);
                lemma_mul_strict_inequality(2 * ((q + 1) * unit), halfway(low + 1), den);
                lemma_mul_is_associative(2, (q + 1) * unit, den);
            }
        } else if low > 0 {
            lemma_halfway_order(low - 1, low);
            lemma_mul_strict_inequality(halfway(low - 1), 2 * (q * unit), den);
        }
    }
}

/// Shortening a ratio gives the pattern closest to it, also where something is
/// cut off.
proof fn lemma_ratio_cut(
    num: int,
    den: int,
    p: int,
    up: nat,
    down: nat,
    sticky: bool,
    payload: int,
    cut: nat,
)
    requires
        den > 0,
        p >= 0,
        p * (den * pow2(up)) <= num * pow2(down) < (p + 1) * (den * pow2(up)),
        (p * (den * pow2(up)) == num * pow2(down)) == !sticky,
        is_cut(p, up - down, sticky, payload, cut),
    ensures
        rounds_to(num, den, payload),
{
    let s = pow2(cut) as int;
    let (q, r) = (p / s, p % s);
    let place = up - down + cut;
    let t = pow2(place as nat) as int;
    let (u, d) = (pow2(up) as int, pow2(down) as int);
    let (x, y) = (num * d, den * u);
    let upper = 2 * r > s || (2 * r == s && (sticky || q % 2 == 1));
    lemma_pow2_pos(cut);
    lemma_pow2_pos(up);
    lemma_pow2_pos(down);
    lemma_pow2_pos(place as nat);
    lemma_pow2_adds(place as nat, down);
    lemma_pow2_adds(cut, up);
    lemma_fundamental_div_mod(p, s);
    lemma_pow2_unfold(cut);
    assert(y > 0) by (nonlinear_arith)
        requires
            den > 0,
            u > 0,
            y == den * u,
    ;
    assert(t * d == s * u);
    assert(q * s * y <= x && x < (q + 1) * s * y) by (nonlinear_arith)
        requires
            p == s * q + r,
            0 <= r < s,
            y > 0,
            p * y <= x < (p + 1) * y,
    ;
    if upper {
        assert((2 * q + 1) * s * y <= 2 * x) by (nonlinear_arith)
            requires
                p == s * q + r,
                2 * r >= s,
                y > 0,
                p * y <= x,
        ;
        if (2 * q + 1) * s * y == 2 * x {
            assert(2 * r == s && p * y == x) by (nonlinear_arith)
                requires
                    p == s * q + r,
                    2 * r >= s,
                    y > 0,
                    p * y <= x,
                    (2 * q + 1) * s * y == 2 * x,
            ;
        }
    } else {
        if 2 * r == s {
            assert((2 * q + 1) * s * y == 2 * x) by (nonlinear_arith)
                requires
                    p == s * q + r,
                    2 * r == s,
                    p * y == x,
            ;
        } else {
            assert(2 * x < (2 * q + 1) * s * y) by (nonlinear_arith)
                requires
                    p == s * q + r,
                    2 * r + 2 <= s,
                    y > 0,
                    x < (p + 1) * y,
            ;
        }
    }
    lemma_rescale(q, s, y, num, d, t, den, u);
    lemma_rescale(q + 1, s, y, num, d, t, den, u);
    lemma_rescale(2 * q + 1, s, y, 2 * num, d, t, den, u);
    lemma_mul_is_associative(2, num, d);
    lemma_between(num, den, q, place, payload, upper);
}

/// Compares `a * s * y` with `num * d` as `a * t * den` with `num`.
proof fn lemma_rescale(a: int, s: int, y: int, num: int, d: int, t: int, den: int, u: int)
    requires
        y == den * u,
        t * d == s * u,
        d > 0,
    ensures
        (a * s * y <= num * d) == (a * t * den <= num),
        (a * s * y == num * d) == (a * t * den == num),
{
    let left = a * t * den;
    assert(a * s * y == left * d) by (nonlinear_arith)
        requires
            y == den * u,
            t * d == s * u,
            left == a * t * den,
    ;
    assert((left * d <= num * d) == (left <= num) && (left * d == num * d) == (left == num))
        by (nonlinear_arith)
        requires
            d > 0,
    ;
}

/// Of the patterns on both sides of a square root, the one on whose side of the
/// point halfway it lies is the closest.
proof fn lemma_root_between(num: int, q: int, place: int, payload: int, upper: bool)
    requires
        is_normal(q, place),
        ({
            let unit = pow2(place as nat) as int;
            let (low, mid, high) = (q * unit, (2 * q + 1) * unit, (q + 1) * unit);
            &&& low * low <= num < high * high
            &&& if upper {
                &&& payload == packed(q + 1, place)
                &&& mid * mid <= 4 * num
                &&& mid * mid == 4 * num ==> q % 2 == 1
            } else {
                &&& payload == packed(q, place)
                &&& 4 * num <= mid * mid
                &&& mid * mid == 4 * num ==> q % 2 == 0
            }
        }),
    ensures
        root_rounds_to(num, payload),
{
    let unit = pow2(place as nat) as int;
    let (low, mid, high) = (q * unit, (2 * q + 1) * unit, (q + 1) * unit);
    let at = packed(q, place);
    lemma_packed_value(q, place);
    if at == INFINITY_BITS {
        lemma_halfway_order(at - 1, at);
        lemma_square_order(halfway(at - 1), low, num);
    } else {
        assert(halfway(at) == mid) by (nonlinear_arith)
            requires
                halfway(at) == q * unit + (q + 1) * unit,
                mid == (2 * q + 1) * unit,
        ;
        if upper {
            if at + 1 < INFINITY_BITS {
                lemma_halfway_order(at + 1, at + 2);
                let h = halfway(at + 1);
                assert(4 * num < h * h) by (nonlinear_arith)
                    requires
                        num < high * high,
                        0 <= 2 * high < h,
                ;
            }
        } else if at > 0 {
            lemma_halfway_order(at - 1, at);
            lemma_square_order(halfway(at - 1), low, num);
        }
    }
}

proof fn lemma_square_order(h: int, low: int, num: int)
    requires
        0 < h < 2 * low,
        low * low <= num,
    ensures
        h * h < 4 * num,
{
    assert(h * h < 4 * num) by (nonlinear_arith)
        requires
            0 < h < 2 * low,
            low * low <= num,
    ;
}

/// Shortening a square root gives the pattern closest to it. `p` is the integer
/// root of `radicand`, and `num` is `radicand` times the square of `2^e`.
proof fn lemma_root(num: int, radicand: int, p: int, e: nat, sticky: bool, payload: int, cut: nat)
    requires
        p >= 0,
        p * p <= radicand < (p + 1) * (p + 1),
        (p * p == radicand) == !sticky,
        num == radicand * (pow2(e) * pow2(e)),
        is_cut(p, e as int, sticky, payload, cut),
    ensures
        root_rounds_to(num, payload),
{
    let s = pow2(cut) as int;
    let (q, r) = (p / s, p % s);
    let place = e + cut;
    let t = pow2(place) as int;
    let u = pow2(e) as int;
    let upper = 2 * r > s || (2 * r == s && (sticky || q % 2 == 1));
    lemma_pow2_pos(cut);
    lemma_pow2_pos(e);
    lemma_pow2_adds(cut, e);
    lemma_pow2_unfold(cut);
    lemma_fundamental_div_mod(p, s);
    assert(t == s * u);
    let (low, mid, high) = (q * s, (2 * q + 1) * s, (q + 1) * s);
    assert(0 <= low <= p && p + 1 <= high) by (nonlinear_arith)
        requires
            p == s * q + r,
            0 <= r < s,
            p >= 0,
            q >= 0,
            low == q * s,
            high == (q + 1) * s,
    ;
    assert(mid == 2 * low + s) by (nonlinear_arith)
        requires
            mid == (2 * q + 1) * s,
            low == q * s,
    ;
    assert(p == low + r) by (nonlinear_arith)
        requires
            p == s * q + r,
            low == q * s,
    ;
    assert(low * low <= radicand < high * high) by (nonlinear_arith)
        requires
            0 <= low <= p,
            p + 1 <= high,
            p * p <= radicand < (p + 1) * (p + 1),
    ;
    if upper {
        assert(mid * mid <= 4 * radicand) by (nonlinear_arith)
            requires
                0 <= mid <= 2 * p,
                p * p <= radicand,
        ;
        if mid * mid == 4 * radicand {
            assert(mid == 2 * p && p * p == radicand) by (nonlinear_arith)
                requires
                    0 <= mid <= 2 * p,
                    p * p <= radicand,
                    mid * mid == 4 * radicand,
            ;
        }
    } else if 2 * r == s {
        assert(mid * mid == 4 * radicand) by (nonlinear_arith)
            requires
                mid == 2 * p,
                p * p == radicand,
        ;
    } else {
        assert(4 * radicand < mid * mid) by (nonlinear_arith)
            requires
                p >= 0,
                2 * (p + 1) <= mid,
                radicand < (p + 1) * (p + 1),
        ;
    }
    lemma_resquare(q, s, u, t, radicand, num);
    lemma_resquare(q + 1, s, u, t, radicand, num);
    assert(4 * radicand * (u * u) == 4 * num) by (nonlinear_arith)
        requires
            num == radicand * (u * u),
    ;
    lemma_resquare(2 * q + 1, s, u, t, 4 * radicand, 4 * num);
    lemma_root_between(num, q, place as int, payload, upper);
}

/// Compares the square of `a * s` with `radicand` as that of `a * t` with `num`.
proof fn lemma_resquare(a: int, s: int, u: int, t: int, radicand: int, num: int)
    requires
        t == s * u,
        u > 0,
        radicand * (u * u) == num,
    ensures
        ((a * s) * (a * s) <= radicand) == ((a * t) * (a * t) <= num),
        ((a * s) * (a * s) == radicand) == ((a * t) * (a * t) == num),
{
    let left = (a * s) * (a * s);
    let uu = u * u;
    assert((a * t) * (a * t) == left * uu) by (nonlinear_arith)
        requires
            t == s * u,
            left == (a * s) * (a * s),
            uu == u * u,
    ;
    assert(uu > 0) by (nonlinear_arith)
        requires
            u > 0,
            uu == u * u,
    ;
    assert((left * uu <= radicand * uu) == (left <= radicand) && (left * uu == radicand * uu) == (
    left == radicand)) by (nonlinear_arith)
        requires
            uu > 0,
    ;
}

/// The pattern closest to `num / den`, where `p * 2^(up - down)` is the ratio, or
/// less than one unit of its last place below it where `sticky`.
pub(crate) fn round_ratio(
    p: u128,
    up: u64,
    down: u64,
    sticky: bool,
    Ghost(num): Ghost<int>,
    Ghost(den): Ghost<int>,
) -> (payload: u64)
    requires
        p < 0x100_0000_0000_0000_0000_0000_0000_0000,
        up <= 10000,
        down <= 10000,
        -4000 <= up - down <= 3900,
        sticky ==> p >= 2 * FRACTION_UNIT,
        den > 0,
        p * (den * pow2(up as nat)) <= num * pow2(down as nat) < (p + 1) * (den * pow2(up as nat)),
        (p * (den * pow2(up as nat)) == num * pow2(down as nat)) == !sticky,
    ensures
        payload == nearest(num, den),
        payload <= INFINITY_BITS,
{
    let payload: u64 = shorten(p, up as i64 - down as i64, sticky);
    proof {
        let e = up - down;
        if exists|cut: nat| is_cut(p as int, e, sticky, payload as int, cut) {
            let cut = choose|cut: nat| is_cut(p as int, e, sticky, payload as int, cut);
            lemma_ratio_cut(
                num,
                den,
                p as int,
                up as nat,
                down as nat,
                sticky,
                payload as int,
                cut,
            );
        } else {
            let by = choose|by: nat| is_moved(p as int, e, payload as int, by);
            lemma_ratio_moved(num, den, p as int, up as nat, down as nat, payload as int, by);
        }
        lemma_nearest(num, den, payload as int);
    }
    payload
}

/// The pattern closest to the square root of `radicand` times `4^e`, where `p` is
/// the integer root of `radicand`, and `sticky` tells that it is not exact.
pub(crate) fn round_root(
    p: u128,
    e: u64,
    sticky: bool,
    Ghost(radicand): Ghost<int>,
    Ghost(num): Ghost<int>,
) -> (payload: u64)
    requires
        2 * FRACTION_UNIT <= p < 0x100_0000_0000_0000_0000_0000_0000_0000,
        e <= 3900,
        p * p <= radicand < (p + 1) * (p + 1),
        (p * p == radicand) == !sticky,
        num == radicand * (pow2(e as nat) * pow2(e as nat)),
    ensures
        payload == nearest_root(num),
        payload <= INFINITY_BITS,
{
    let payload: u64 = shorten(p, e as i64, sticky);
    proof {
        assert forall|by: nat| !is_moved(p as int, e as int, payload as int, by) by {
            lemma_pow2_pos(by);
            lemma_mul_inequality(1, pow2(by) as int, p as int);
            lemma_mul_is_commutative(pow2(by) as int, p as int);
        }
        let cut = choose|cut: nat| is_cut(p as int, e as int, sticky, payload as int, cut);
        lemma_root(num, radicand, p as int, e as nat, sticky, payload as int, cut);
        lemma_nearest_root(num, payload as int);
    }
    payload
}

} // verus!
