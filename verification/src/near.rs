//! How close a result is to the exact one, counted in parts of two to the power 52.

use crate::arith::{closest, diff, negated, prod, quot, sqrt, sum};
use crate::double::{lemma_magnitude_order, magnitude, Double, FRACTION_UNIT, INFINITY_BITS};
use crate::events::least;
use crate::order::{
    is_measure, lemma_closest_exact, lemma_closest_order, lemma_measure, lemma_measure_order,
    lemma_power_pattern, lemma_twice, power_pattern, twice,
};
use crate::rounding::{
    halfway, lemma_halfway_order, lemma_nearest, lemma_nearest_bound, lemma_nearest_exact,
    lemma_nearest_exists, lemma_nearest_order, lemma_nearest_root_exists, lemma_packed, nearest,
    nearest_root, root_rounds_to, rounds_to, signed,
};
use vstd::arithmetic::div_mod::lemma_fundamental_div_mod;
use vstd::arithmetic::mul::{
    lemma_mul_inequality, lemma_mul_inequality_converse, lemma_mul_nonnegative,
    lemma_mul_strict_inequality_converse,
};
use vstd::arithmetic::power2::{
    lemma2_to64, lemma2_to64_rest, lemma_pow2_adds, lemma_pow2_pos, lemma_pow2_strictly_increases,
    lemma_pow2_unfold, pow2,
};
use vstd::prelude::*;

verus! {

/// `a` is `b` but for `parts` parts of `b` in two to the power 52.
pub open spec fn near(a: int, b: int, parts: int) -> bool {
    &&& (0x10_0000_0000_0000 - parts) * b <= 0x10_0000_0000_0000 * a
    &&& 0x10_0000_0000_0000 * a <= (0x10_0000_0000_0000 + parts) * b
}

/// `r` is the whole part of `num / den`, but for `parts` parts of it in two to the
/// power 52, and as far as 64 bits hold it.
pub open spec fn is_whole_part(r: int, num: int, den: int, parts: int) -> bool {
    &&& 0 <= r <= u64::MAX
    &&& 0x10_0000_0000_0000 * (r * den) <= (0x10_0000_0000_0000 + parts) * num
    &&& r < u64::MAX ==> (0x10_0000_0000_0000 - parts) * num < 0x10_0000_0000_0000 * ((r + 1)
        * den)
}

/// A number between two powers of two, in units of two to the power -1074.
pub open spec fn in_range(x: Double, low: nat, high: nat) -> bool {
    is_measure(x) && pow2(low) <= x.scaled() <= pow2(high)
}

/// More parts allow for more.
pub(crate) proof fn lemma_near_wider(a: int, b: int, k: int, l: int)
    requires
        near(a, b, k),
        k <= l,
        b >= 0,
    ensures
        near(a, b, l),
{
    assert((0x10_0000_0000_0000 - l) * b <= (0x10_0000_0000_0000 - k) * b && (0x10_0000_0000_0000
        + k) * b <= (0x10_0000_0000_0000 + l) * b) by (nonlinear_arith)
        requires
            k <= l,
            b >= 0,
    ;
}

/// Products of what is near are near.
pub(crate) proof fn lemma_near_product(a: int, b: int, k: int, c: int, d: int, l: int)
    requires
        near(a, b, k),
        near(c, d, l),
        0 <= a,
        0 <= b,
        0 <= c,
        0 <= d,
        0 <= k <= 1000,
        0 <= l <= 1000,
    ensures
        near(a * c, b * d, k + l + 1),
{
    let e = 0x10_0000_0000_0000int;
    let (x, y) = (a * c, b * d);
    assert(e * e * x <= (e + k) * (e + l) * y) by (nonlinear_arith)
        requires
            x == a * c,
            y == b * d,
            0 <= e * a <= (e + k) * b,
            0 <= e * c <= (e + l) * d,
    ;
    assert((e - k) * (e - l) * y <= e * e * x) by (nonlinear_arith)
        requires
            x == a * c,
            y == b * d,
            0 <= (e - k) * b <= e * a,
            0 <= (e - l) * d <= e * c,
    ;
    assert(0 <= y) by (nonlinear_arith)
        requires
            y == b * d,
            0 <= b,
            0 <= d,
    ;
    assert(e * x <= (e + (k + l + 1)) * y) by (nonlinear_arith)
        requires
            e * e * x <= (e + k) * (e + l) * y,
            0 <= k <= 1000,
            0 <= l <= 1000,
            e == 0x10_0000_0000_0000,
            0 <= y,
    ;
    assert((e - (k + l + 1)) * y <= e * x) by (nonlinear_arith)
        requires
            (e - k) * (e - l) * y <= e * e * x,
            0 <= k <= 1000,
            0 <= l <= 1000,
            e == 0x10_0000_0000_0000,
            0 <= y,
    ;
}

/// A common factor may be taken out, where it is near itself.
pub(crate) proof fn lemma_near_quotient(a: int, b: int, c: int, d: int, k: int, l: int)
    requires
        near(a * c, b * d, k),
        near(c, d, l),
        0 <= a,
        0 <= b,
        0 < c,
        0 < d,
        0 <= k <= 1000,
        0 <= l <= 1000,
    ensures
        near(a, b, k + l + 1),
{
    let e = 0x10_0000_0000_0000int;
    let m = k + l + 1;
    // e * a * c <= (e + k) * b * d, and (e - l) * d <= e * c.
    assert(e * a <= (e + m) * b) by {
        assert((e * a) * c <= ((e + m) * b) * c) by {
            let bd = b * d;
            assert((e - l) * (e * (a * c)) <= (e + k) * b * ((e - l) * d)) by (nonlinear_arith)
                requires
                    e * (a * c) <= (e + k) * bd,
                    bd == b * d,
                    e - l >= 0,
            ;
            assert((e + k) * b * ((e - l) * d) <= (e + k) * b * (e * c)) by (nonlinear_arith)
                requires
                    (e - l) * d <= e * c,
                    b >= 0,
                    e + k >= 0,
            ;
            let (x, y) = (a * c, b * c);
            assert((e + k) * b * (e * c) == (e + k) * (e * y)) by (nonlinear_arith)
                requires
                    y == b * c,
            ;
            assert(0 <= y) by (nonlinear_arith)
                requires
                    y == b * c,
                    0 <= b,
                    0 <= c,
            ;
            assert(e * x <= (e + m) * y) by (nonlinear_arith)
                requires
                    (e - l) * (e * x) <= (e + k) * (e * y),
                    m == k + l + 1,
                    0 <= k <= 1000,
                    0 <= l <= 1000,
                    e == 0x10_0000_0000_0000,
                    0 <= y,
            ;
            assert((e * a) * c == e * x && ((e + m) * b) * c == (e + m) * y) by (nonlinear_arith)
                requires
                    x == a * c,
                    y == b * c,
            ;
        }
        lemma_mul_inequality_converse(e * a, (e + m) * b, c);
    }
    assert((e - m) * b <= e * a) by {
        assert(((e - m) * b) * c <= (e * a) * c) by {
            let bd = b * d;
            assert((e + l) * (e * (a * c)) >= (e - k) * b * ((e + l) * d)) by (nonlinear_arith)
                requires
                    e * (a * c) >= (e - k) * bd,
                    bd == b * d,
                    e + l >= 0,
            ;
            assert((e - k) * b * ((e + l) * d) >= (e - k) * b * (e * c)) by (nonlinear_arith)
                requires
                    (e + l) * d >= e * c,
                    b >= 0,
                    e - k >= 0,
            ;
            let (x, y) = (a * c, b * c);
            assert((e - k) * b * (e * c) == (e - k) * (e * y)) by (nonlinear_arith)
                requires
                    y == b * c,
            ;
            assert(0 <= y) by (nonlinear_arith)
                requires
                    y == b * c,
                    0 <= b,
                    0 <= c,
            ;
            assert((e - m) * y <= e * x) by (nonlinear_arith)
                requires
                    (e + l) * (e * x) >= (e - k) * (e * y),
                    m == k + l + 1,
                    0 <= k <= 1000,
                    0 <= l <= 1000,
                    e == 0x10_0000_0000_0000,
                    0 <= y,
            ;
            assert((e * a) * c == e * x && ((e - m) * b) * c == (e - m) * y) by (nonlinear_arith)
                requires
                    x == a * c,
                    y == b * c,
            ;
        }
        lemma_mul_inequality_converse((e - m) * b, e * a, c);
    }
}

/// What is near something near is near.
pub(crate) proof fn lemma_near_chain(a: int, b: int, c: int, k: int, l: int)
    requires
        near(a, b, k),
        near(b, c, l),
        0 <= a,
        0 <= b,
        0 <= c,
        0 <= k <= 1000,
        0 <= l <= 1000,
    ensures
        near(a, c, k + l + 1),
{
    let e = 0x10_0000_0000_0000int;
    assert(e * (e * a) <= (e + k) * ((e + l) * c)) by (nonlinear_arith)
        requires
            e * a <= (e + k) * b,
            e * b <= (e + l) * c,
            e > 0,
            k >= 0,
    ;
    assert((e - k) * ((e - l) * c) <= e * (e * a)) by (nonlinear_arith)
        requires
            (e - k) * b <= e * a,
            (e - l) * c <= e * b,
            e > 0,
            e - k >= 0,
    ;
    assert(e * a <= (e + (k + l + 1)) * c && (e - (k + l + 1)) * c <= e * a) by (nonlinear_arith)
        requires
            e * (e * a) <= (e + k) * ((e + l) * c),
            (e - k) * ((e - l) * c) <= e * (e * a),
            0 <= k <= 1000,
            0 <= l <= 1000,
            e == 0x10_0000_0000_0000,
            0 <= c,
    ;
}

/// A common factor makes no difference.
pub(crate) proof fn lemma_near_scaled(a: int, b: int, k: int, t: int)
    requires
        t > 0,
    ensures
        near(a * t, b * t, k) == near(a, b, k),
{
    let e = 0x10_0000_0000_0000int;
    assert(((e - k) * (b * t) <= e * (a * t)) == ((e - k) * b <= e * a) && (e * (a * t) <= (e + k)
        * (b * t)) == (e * a <= (e + k) * b)) by (nonlinear_arith)
        requires
            t > 0,
    ;
}

/// Sums of what is near are near.
pub(crate) proof fn lemma_near_sum(a: int, b: int, c: int, d: int, k: int)
    requires
        near(a, b, k),
        near(c, d, k),
    ensures
        near(a + c, b + d, k),
{
    let e = 0x10_0000_0000_0000int;
    assert((e - k) * (b + d) == (e - k) * b + (e - k) * d && (e + k) * (b + d) == (e + k) * b + (e
        + k) * d) by (nonlinear_arith);
}

/// What is near stays near when both are held to a cap.
pub(crate) proof fn lemma_near_least(a: int, b: int, cap: int, k: int)
    requires
        near(a, b, k),
        0 <= b,
        0 <= cap,
        0 <= k < 0x10_0000_0000_0000,
    ensures
        near(least(a, cap), least(b, cap), k),
{
    let e = 0x10_0000_0000_0000int;
    lemma_near_self(cap, k);
    assert(cap <= b ==> (e - k) * cap <= (e - k) * b) by (nonlinear_arith)
        requires
            k < e,
    ;
    assert(b <= cap ==> (e + k) * b <= (e + k) * cap) by (nonlinear_arith)
        requires
            k >= 0,
            e > 0,
    ;
    assert(b <= cap ==> (e - k) * b <= e * cap) by (nonlinear_arith)
        requires
            0 <= k < e,
            0 <= b,
            0 <= cap,
    ;
    assert(cap <= b ==> e * cap <= (e + k) * cap) by (nonlinear_arith)
        requires
            k >= 0,
            0 <= cap,
    ;
}

/// Everything is near itself.
pub(crate) proof fn lemma_near_self(a: int, k: int)
    requires
        a >= 0,
        k >= 0,
    ensures
        near(a, a, k),
{
    let e = 0x10_0000_0000_0000int;
    assert((e - k) * a <= e * a && e * a <= (e + k) * a) by (nonlinear_arith)
        requires
            a >= 0,
            k >= 0,
    ;
}

/// What truncation leaves of something near a ratio is near its whole part.
pub(crate) proof fn lemma_whole_part(x: Double, num: int, den: int, parts: int)
    requires
        is_measure(x),
        near(x.scaled() * den, num * pow2(1074), parts),
        0 < den,
        0 <= num,
    ensures
        is_whole_part(x.truncated(), num, den, parts),
{
    let (e, w) = (0x10_0000_0000_0000int, pow2(1074) as int);
    let (y, r) = (x.scaled(), x.truncated());
    let q = y / w;
    lemma_pow2_pos(1074);
    lemma_measure_order(x, x);
    lemma_fundamental_div_mod(y, w);
    assert(q * w <= y < (q + 1) * w && q >= 0) by (nonlinear_arith)
        requires
            y == w * q + y % w,
            0 <= y % w < w,
            0 <= y,
    ;
    assert(r * w <= y) by (nonlinear_arith)
        requires
            r <= q,
            q * w <= y,
            w > 0,
    ;
    assert(e * (r * den) <= (e + parts) * num) by {
        assert((e * (r * den)) * w <= ((e + parts) * num) * w) by (nonlinear_arith)
            requires
                r * w <= y,
                e * (y * den) <= (e + parts) * (num * w),
                den > 0,
                e > 0,
        ;
        lemma_mul_inequality_converse(
            e * (r * den),
            (e + parts) * num,
            w,
        );
    }
    if r < u64::MAX {
        assert(((e - parts) * num) * w < (e * ((r + 1) * den)) * w) by (nonlinear_arith)
            requires
                y < (r + 1) * w,
                (e - parts) * (num * w) <= e * (y * den),
                den > 0,
                e > 0,
        ;
        lemma_mul_strict_inequality_converse(
            (e - parts) * num,
            e * ((r + 1) * den),
            w,
        );
    }
}

/// Rounding a ratio that is not too small moves it by no more than half a part.
pub(crate) proof fn lemma_rounded(num: int, den: int)
    requires
        den > 0,
        pow2(52) * den <= num,
        nearest(num, den) < INFINITY_BITS,
    ensures
        near(magnitude(nearest(num, den)) * den, num, 1),
        magnitude(nearest(num, den)) >= pow2(52),
        0 <= nearest(num, den),
{
    let (p, unit) = (nearest(num, den), FRACTION_UNIT as int);
    let m = magnitude(p);
    lemma2_to64_rest();
    lemma_nearest_exists(num, den);
    lemma_packed(unit, 0);
    lemma2_to64();
    lemma_nearest_exact(unit * den, den, unit);
    assert(unit * den * den <= num * den) by (nonlinear_arith)
        requires
            unit * den <= num,
            den > 0,
    ;
    assert(0 <= unit * den) by (nonlinear_arith)
        requires
            den > 0,
            unit > 0,
    ;
    lemma_nearest_order(unit * den, den, num, den);
    lemma_magnitude_order(unit, p);
    // The pattern, and the distance to the next one.
    let (e, f) = (p / unit, p % unit);
    let (place, s) = ((e - 1) as nat, unit + f);
    lemma_fundamental_div_mod(p, unit);
    assert(e >= 1) by (nonlinear_arith)
        requires
            p == unit * e + f,
            p >= unit,
            f < unit,
            unit > 0,
    ;
    assert(p == place * unit + s) by (nonlinear_arith)
        requires
            p == unit * e + f,
            place == e - 1,
            s == unit + f,
    ;
    lemma_packed(s, place);
    lemma_packed(s + 1, place);
    lemma_pow2_pos(place);
    let gap = pow2(place) as int;
    let (high, low) = (magnitude(p + 1), magnitude(p - 1));
    assert((s + 1) * gap == s * gap + gap && unit * gap <= m) by (nonlinear_arith)
        requires
            m == s * gap,
            s >= unit,
            gap > 0,
    ;
    lemma_magnitude_order(p - 1, p);
    if s > unit {
        lemma_packed(s - 1, place);
        assert((s - 1) * gap == s * gap - gap) by (nonlinear_arith);
        assert((unit + 1) * gap <= m) by (nonlinear_arith)
            requires
                m == s * gap,
                s >= unit + 1,
                gap > 0,
        ;
    }
    assert(unit * (m * den) <= (unit + 1) * num) by {
        if m * den > num {
            if s > unit {
                assert(unit * (m * den) <= (unit + 1) * num) by (nonlinear_arith)
                    requires
                        (low + m) * den <= 2 * num,
                        m - low == gap,
                        (unit + 1) * gap <= m,
                        den > 0,
                        gap > 0,
                        unit > 2,
                ;
            } else if place > 0 {
                lemma_packed(2 * unit - 1, (place - 1) as nat);
                lemma_pow2_unfold(place);
                let half = pow2((place - 1) as nat) as int;
                assert((place - 1) * unit + (2 * unit - 1) == p - 1) by (nonlinear_arith)
                    requires
                        p == place * unit + unit,
                ;
                assert((2 * unit - 1) * half == m - half) by (nonlinear_arith)
                    requires
                        m == unit * gap,
                        gap == 2 * half,
                ;
                assert(unit * (m * den) <= (unit + 1) * num) by (nonlinear_arith)
                    requires
                        (low + m) * den <= 2 * num,
                        m - low == half,
                        2 * unit * half == m,
                        den > 0,
                        half > 0,
                        unit > 2,
                ;
            } else {
                assert(m == unit);
            }
        } else {
            assert(unit * (m * den) <= (unit + 1) * num) by (nonlinear_arith)
                requires
                    m * den <= num,
                    0 <= num,
                    unit > 0,
            ;
        }
    }
    assert((unit - 1) * num <= unit * (m * den)) by (nonlinear_arith)
        requires
            2 * num <= (m + high) * den,
            high - m == gap,
            unit * gap <= m,
            den > 0,
            gap > 0,
            unit > 2,
    ;
}

/// Rounding moves a ratio by no more than a part of it and a unit in the last place.
pub(crate) proof fn lemma_rounded_closely(num: int, den: int)
    requires
        0 <= num,
        den > 0,
        nearest(num, den) < INFINITY_BITS,
    ensures
        ({
            let m = magnitude(nearest(num, den));
            &&& 0x10_0000_0000_0000 * (m * den - num) <= num + 0x10_0000_0000_0000 * den
            &&& 0x10_0000_0000_0000 * (num - m * den) <= num + 0x10_0000_0000_0000 * den
        }),
{
    let (p, unit) = (nearest(num, den), FRACTION_UNIT as int);
    lemma2_to64();
    lemma2_to64_rest();
    if pow2(52) * den <= num {
        lemma_rounded(num, den);
    } else {
        lemma_packed(unit, 0);
        lemma_nearest_bound(num, den, unit);
        lemma_nearest_exists(num, den);
        lemma_packed(p, 0);
        lemma_packed(p + 1, 0);
        if p > 0 {
            lemma_packed(p - 1, 0);
        }
        assert((2 * p + 1) * den == 2 * (p * den) + den && (2 * p - 1) * den == 2 * (p * den) - den)
            by (nonlinear_arith);
    }
}

/// A positive integer becomes a number near it.
pub(crate) proof fn lemma_integer_near(n: int)
    requires
        0 < n <= u128::MAX,
    ensures
        near(closest(n, 1).scaled(), n * pow2(1074), 1),
        in_range(closest(n, 1), 1074, 1202),
        n <= u64::MAX ==> in_range(closest(n, 1), 1074, 1138),
        closest(n, 1).is_finite(),
{
    let w = pow2(1074) as int;
    lemma_pow2_pos(1074);
    lemma2_to64();
    lemma_pow2_adds(1074, 64);
    lemma_pow2_adds(1138, 64);
    lemma_power_pattern(1138);
    lemma_power_pattern(1202);
    lemma_pow2_strictly_increases(52, 1074);
    let (top, mid) = (pow2(1202) as int, pow2(1138) as int);
    assert(w <= n * w <= top && (n <= u64::MAX ==> n * w <= mid)) by (nonlinear_arith)
        requires
            0 < n < 0x1_0000_0000_0000_0000 * 0x1_0000_0000_0000_0000,
            w > 0,
            mid == w * 0x1_0000_0000_0000_0000,
            top == mid * 0x1_0000_0000_0000_0000,
    ;
    lemma_nearest_bound(n * w, 1, power_pattern(1202));
    if n <= u64::MAX {
        lemma_nearest_bound(n * w, 1, power_pattern(1138));
    }
    lemma_measure(nearest(n * w, 1));
    lemma_rounded(n * w, 1);
    lemma_closest_exact(1);
    lemma_closest_order(1, n);
}

/// A quotient of numbers of known range has a known range, and is near.
pub(crate) proof fn lemma_quot_near(
    a: Double,
    i: nat,
    j: nat,
    b: Double,
    k: nat,
    l: nat,
    low: nat,
    high: nat,
)
    requires
        in_range(a, i, j),
        in_range(b, k, l),
        a.is_finite(),
        b.is_finite(),
        52 <= low,
        high < 2098,
        low + l == i + 1074,
        high + k == j + 1074,
    ensures
        near(quot(a, b).scaled() * b.scaled(), a.scaled() * pow2(1074), 1),
        in_range(quot(a, b), low, high),
        quot(a, b).is_finite(),
{
    let (w, x, y) = (pow2(1074) as int, a.scaled(), b.scaled());
    lemma_pow2_pos(1074);
    lemma_pow2_pos(i);
    lemma_pow2_pos(k);
    lemma_measure_order(a, a);
    lemma_measure_order(b, b);
    lemma_pow2_adds(low, l);
    lemma_pow2_adds(i, 1074);
    lemma_pow2_adds(high, k);
    lemma_pow2_adds(j, 1074);
    lemma_pow2_pos(low);
    lemma_pow2_pos(high);
    let (lo, hi) = (pow2(low) as int, pow2(high) as int);
    assert(lo * y <= x * w) by (nonlinear_arith)
        requires
            y <= pow2(l),
            pow2(i) <= x,
            lo * pow2(l) == pow2(i) * w,
            lo > 0,
            w > 0,
    ;
    assert(x * w <= hi * y) by (nonlinear_arith)
        requires
            pow2(k) <= y,
            x <= pow2(j),
            hi * pow2(k) == pow2(j) * w,
            hi > 0,
            w > 0,
    ;
    lemma_ratio_range(x * w, y, low, high);
}

/// A ratio between two powers of two is rounded to a number between them that is near.
proof fn lemma_ratio_range(num: int, den: int, low: nat, high: nat)
    requires
        0 < den,
        pow2(low) * den <= num <= pow2(high) * den,
        52 <= low,
        high < 2098,
    ensures
        near(magnitude(nearest(num, den)) * den, num, 1),
        in_range(signed(false, nearest(num, den)), low, high),
        signed(false, nearest(num, den)).is_finite(),
        signed(false, nearest(num, den)).scaled() == magnitude(nearest(num, den)),
{
    let (lo, hi) = (pow2(low) as int, pow2(high) as int);
    lemma_pow2_pos(low);
    if high < low {
        lemma_pow2_strictly_increases(high, low);
        lemma_mul_inequality(hi + 1, lo, den);
        assert((hi + 1) * den == hi * den + den) by (nonlinear_arith);
    }
    lemma_power_pattern(high);
    lemma_power_pattern(low);
    assert(0 <= num) by (nonlinear_arith)
        requires
            lo * den <= num,
            lo > 0,
            den > 0,
    ;
    lemma_nearest_bound(num, den, power_pattern(high as int));
    if 52 < low {
        lemma_pow2_strictly_increases(52, low);
    }
    lemma_mul_inequality(pow2(52) as int, lo, den);
    lemma_rounded(num, den);
    lemma_measure(nearest(num, den));
    lemma_nearest_exact(lo, 1, power_pattern(low as int));
    lemma_nearest_order(lo, 1, num, den);
    lemma_magnitude_order(power_pattern(low as int), nearest(num, den));
}

/// A product of numbers of known range has a known range, and is near.
pub(crate) proof fn lemma_prod_near(
    a: Double,
    i: nat,
    j: nat,
    b: Double,
    k: nat,
    l: nat,
    low: nat,
    high: nat,
)
    requires
        in_range(a, i, j),
        in_range(b, k, l),
        a.is_finite(),
        b.is_finite(),
        52 <= low,
        high < 2098,
        low + 1074 == i + k,
        high + 1074 == j + l,
    ensures
        near(prod(a, b).scaled() * pow2(1074), a.scaled() * b.scaled(), 1),
        in_range(prod(a, b), low, high),
        prod(a, b).is_finite(),
{
    let (w, x, y) = (pow2(1074) as int, a.scaled(), b.scaled());
    lemma_pow2_pos(1074);
    lemma_pow2_pos(i);
    lemma_pow2_pos(k);
    lemma_measure_order(a, a);
    lemma_measure_order(b, b);
    lemma_pow2_adds(low, 1074);
    lemma_pow2_adds(i, k);
    lemma_pow2_adds(high, 1074);
    lemma_pow2_adds(j, l);
    assert(pow2(low) * w <= x * y <= pow2(high) * w) by (nonlinear_arith)
        requires
            0 < pow2(i) <= x <= pow2(j),
            0 < pow2(k) <= y <= pow2(l),
            pow2(low) * w == pow2(i) * pow2(k),
            pow2(high) * w == pow2(j) * pow2(l),
    ;
    lemma_ratio_range(x * y, w, low, high);
}

/// A sum of numbers that are not negative is near.
pub(crate) proof fn lemma_sum_near(a: Double, b: Double, high: nat)
    requires
        is_measure(a),
        is_measure(b),
        a.is_finite(),
        b.is_finite(),
        a.scaled() + b.scaled() <= pow2(high),
        52 <= high < 2098,
    ensures
        near(sum(a, b).scaled(), a.scaled() + b.scaled(), 1),
        is_measure(sum(a, b)),
        sum(a, b).is_finite(),
        0 <= sum(a, b).scaled() <= pow2(high),
{
    let exact = a.scaled() + b.scaled();
    lemma_measure_order(a, b);
    lemma_measure(0);
    lemma_magnitude_order(0, 0);
    lemma_power_pattern(high);
    lemma2_to64_rest();
    lemma2_to64();
    lemma_nearest_bound(exact, 1, power_pattern(high as int));
    lemma_measure(nearest(exact, 1));
    if exact < pow2(52) {
        lemma_packed(exact, 0);
        lemma_nearest_exact(exact, 1, exact);
        lemma_near_self(exact, 1);
    } else {
        lemma_rounded(exact, 1);
    }
}

/// A decimal is near its constant.
pub(crate) proof fn lemma_decimal(num: int, den: int)
    requires
        1 <= num <= 1_000_000_000,
        1 <= den <= 1_000_000_000,
    ensures
        near(closest(num, den).scaled() * den, num * pow2(1074), 1),
        in_range(closest(num, den), 1044, 1104),
        closest(num, den).is_finite(),
{
    let w = pow2(1074) as int;
    lemma2_to64();
    lemma_pow2_pos(1044);
    lemma_pow2_adds(1044, 30);
    lemma_pow2_adds(1074, 30);
    assert(pow2(1044) * den <= num * w <= pow2(1104) * den) by (nonlinear_arith)
        requires
            1 <= num <= 1_000_000_000,
            1 <= den <= 1_000_000_000,
            w == pow2(1044) * 0x4000_0000,
            pow2(1104) == w * 0x4000_0000,
            pow2(1044) > 0,
    ;
    lemma_ratio_range(num * w, den, 1044, 1104);
}

/// A quotient `z` of `x` and `y`, which are themselves near: `x` near `a / p`, and `y`
/// near `b / q`.
pub(crate) proof fn lemma_divided(
    z: int,
    x: int,
    y: int,
    w: int,
    p: int,
    a: int,
    k: int,
    q: int,
    b: int,
    l: int,
)
    requires
        near(z * y, x * w, 1),
        near(x * p, a, k),
        near(y * q, b, l),
        0 <= z,
        0 <= x,
        0 < y,
        0 < w,
        0 < p,
        0 < q,
        0 <= a,
        0 < b,
        0 <= k <= 400,
        0 <= l <= 400,
    ensures
        near(z * p * b, a * w * q, k + l + 3),
{
    assert(0 <= z * y && 0 <= x * w && 0 <= z * y * p && 0 <= x * p * w && 0 <= a * w && 0 < y * q
        && 0 <= z * p * b && 0 <= a * w * q && 0 < q * b) by (nonlinear_arith)
        requires
            0 <= z,
            0 <= x,
            0 < y,
            0 < w,
            0 < p,
            0 < q,
            0 <= a,
            0 < b,
    ;
    lemma_near_scaled(z * y, x * w, 1, p);
    lemma_near_scaled(x * p, a, k, w);
    assert(x * w * p == x * p * w) by (nonlinear_arith);
    lemma_near_chain(z * y * p, x * p * w, a * w, 1, k);
    lemma_near_scaled(z * y * p, a * w, k + 2, q * b);
    assert(z * y * p * (q * b) == (z * p * b) * (y * q) && a * w * (q * b) == (a * w * q) * b)
        by (nonlinear_arith);
    lemma_near_quotient(z * p * b, a * w * q, y * q, b, k + 2, l);
}

/// A product `z` of `x` and `y`, which are themselves near: `x` near `a / p`, and `y`
/// near `b / q`.
pub(crate) proof fn lemma_multiplied(
    z: int,
    x: int,
    y: int,
    w: int,
    p: int,
    a: int,
    k: int,
    q: int,
    b: int,
    l: int,
)
    requires
        near(z * w, x * y, 1),
        near(x * p, a, k),
        near(y * q, b, l),
        0 <= z,
        0 <= x,
        0 <= y,
        0 < w,
        0 < p,
        0 < q,
        0 <= a,
        0 <= b,
        0 <= k <= 400,
        0 <= l <= 400,
    ensures
        near(z * w * (p * q), a * b, k + l + 3),
{
    assert(0 <= z * w && 0 <= x * y && 0 < p * q && 0 <= z * w * (p * q) && 0 <= x * p && 0 <= y * q
        && 0 <= a * b && 0 <= (x * p) * (y * q)) by (nonlinear_arith)
        requires
            0 <= z,
            0 <= x,
            0 <= y,
            0 < w,
            0 < p,
            0 < q,
            0 <= a,
            0 <= b,
    ;
    lemma_near_scaled(z * w, x * y, 1, p * q);
    assert(x * y * (p * q) == (x * p) * (y * q)) by (nonlinear_arith);
    lemma_near_product(x * p, a, k, y * q, b, l);
    lemma_near_chain(z * w * (p * q), (x * p) * (y * q), a * b, 1, k + l + 1);
}

/// Twice a ratio that is not too small is rounded to twice what it is rounded to.
pub(crate) proof fn lemma_nearest_twice(num: int, den: int)
    requires
        den > 0,
        pow2(52) * den <= num,
        nearest(num, den) + FRACTION_UNIT < INFINITY_BITS,
    ensures
        nearest(2 * num, den) == twice(nearest(num, den)),
        magnitude(nearest(2 * num, den)) == 2 * magnitude(nearest(num, den)),
{
    let (p, unit) = (nearest(num, den), FRACTION_UNIT as int);
    lemma2_to64();
    lemma2_to64_rest();
    assert(0 <= num) by (nonlinear_arith)
        requires
            unit * den <= num,
            den > 0,
            unit > 0,
    ;
    lemma_nearest_exists(num, den);
    lemma_packed(unit, 0);
    lemma_nearest_exact(unit, 1, unit);
    lemma_nearest_order(unit, 1, num, den);
    lemma_twice(p);
    lemma_twice(p + 1);
    lemma_twice(p - 1);
    assert(halfway(p + unit) == 2 * halfway(p));
    let (h, k) = (halfway(p), halfway(p - 1));
    assert((2 * h) * den == 2 * (h * den) && (2 * k) * den == 2 * (k * den)) by (nonlinear_arith);
    if p > unit {
        assert(halfway(p + unit - 1) == 2 * halfway(p - 1));
    } else {
        lemma_packed(2 * unit - 1, 0);
        lemma_packed(2 * unit, 0);
        assert(halfway(2 * unit - 1) == 4 * unit - 1);
        assert((4 * unit - 1) * den < 2 * (2 * num)) by (nonlinear_arith)
            requires
                unit * den <= num,
                den > 0,
        ;
    }
    assert(rounds_to(2 * num, den, p + unit));
    lemma_nearest(2 * num, den, p + unit);
}

/// Twice a ratio between two powers of two is rounded to twice what it is rounded to.
proof fn lemma_ratio_twice(num: int, den: int, low: nat, high: nat)
    requires
        0 < den,
        pow2(low) * den <= num <= pow2(high) * den,
        52 <= low <= high <= 2096,
    ensures
        signed(false, nearest(2 * num, den)).scaled() == 2 * signed(
            false,
            nearest(num, den),
        ).scaled(),
{
    lemma_ratio_range(num, den, low, high);
    lemma_power_pattern(high);
    lemma_pow2_pos(low);
    if 52 < low {
        lemma_pow2_strictly_increases(52, low);
    }
    lemma_mul_inequality(pow2(52) as int, pow2(low) as int, den);
    lemma_mul_inequality(0, pow2(52) as int, den);
    lemma_nearest_bound(num, den, power_pattern(high as int));
    lemma_nearest_twice(num, den);
    lemma_nearest_exists(2 * num, den);
    lemma_measure(nearest(num, den));
    lemma_measure(nearest(2 * num, den));
}

/// Twice an integer becomes twice the number.
pub(crate) proof fn lemma_integer_twice(n: int)
    requires
        0 < n <= u64::MAX,
    ensures
        closest(2 * n, 1).scaled() == 2 * closest(n, 1).scaled(),
{
    let w = pow2(1074) as int;
    lemma_pow2_pos(1074);
    lemma2_to64();
    lemma_pow2_adds(1074, 64);
    assert(w <= n * w <= pow2(1138) && (2 * n) * w == 2 * (n * w)) by (nonlinear_arith)
        requires
            0 < n < 0x1_0000_0000_0000_0000,
            w > 0,
            pow2(1138) == w * 0x1_0000_0000_0000_0000,
    ;
    lemma_ratio_twice(n * w, 1, 1074, 1138);
}

/// A quotient doubles with what is divided.
pub(crate) proof fn lemma_quot_twice(
    a: Double,
    i: nat,
    j: nat,
    c: Double,
    b: Double,
    k: nat,
    l: nat,
    low: nat,
    high: nat,
)
    requires
        in_range(a, i, j),
        in_range(b, k, l),
        is_measure(c),
        a.is_finite(),
        b.is_finite(),
        c.is_finite(),
        c.scaled() == 2 * a.scaled(),
        52 <= low <= high <= 2096,
        low + l == i + 1074,
        high + k == j + 1074,
    ensures
        quot(c, b).scaled() == 2 * quot(a, b).scaled(),
{
    let (w, x, y) = (pow2(1074) as int, a.scaled(), b.scaled());
    lemma_pow2_pos(1074);
    lemma_pow2_pos(i);
    lemma_pow2_pos(k);
    lemma_measure_order(a, a);
    lemma_measure_order(b, b);
    lemma_pow2_adds(low, l);
    lemma_pow2_adds(i, 1074);
    lemma_pow2_adds(high, k);
    lemma_pow2_adds(j, 1074);
    lemma_pow2_pos(low);
    lemma_pow2_pos(high);
    let (lo, hi) = (pow2(low) as int, pow2(high) as int);
    assert(lo * y <= x * w) by (nonlinear_arith)
        requires
            y <= pow2(l),
            pow2(i) <= x,
            lo * pow2(l) == pow2(i) * w,
            lo > 0,
            w > 0,
    ;
    assert(x * w <= hi * y) by (nonlinear_arith)
        requires
            pow2(k) <= y,
            x <= pow2(j),
            hi * pow2(k) == pow2(j) * w,
            hi > 0,
            w > 0,
    ;
    assert((2 * x) * w == 2 * (x * w)) by (nonlinear_arith);
    lemma_ratio_twice(x * w, y, low, high);
}

/// `a` is `b` but for `parts` parts of it in two to the power 52, with the same sign.
pub open spec fn near_signed(a: int, b: int, parts: int) -> bool {
    if b >= 0 {
        near(a, b, parts)
    } else {
        near(-a, -b, parts)
    }
}

/// An integer is rounded to one near it.
proof fn lemma_integer_rounded(n: int, high: nat)
    requires
        0 <= n <= pow2(high),
        52 <= high < 2098,
    ensures
        near(magnitude(nearest(n, 1)), n, 1),
        0 <= nearest(n, 1) < INFINITY_BITS,
        0 <= magnitude(nearest(n, 1)) <= pow2(high),
{
    lemma_power_pattern(high);
    lemma2_to64_rest();
    lemma2_to64();
    lemma_nearest_bound(n, 1, power_pattern(high as int));
    if n < pow2(52) {
        lemma_packed(n, 0);
        lemma_nearest_exact(n, 1, n);
        lemma_near_self(n, 1);
    } else {
        lemma_rounded(n, 1);
    }
}

/// A sum of finite numbers of any sign is near, unless it is huge.
pub(crate) proof fn lemma_sum_signed(a: Double, b: Double, high: nat)
    requires
        a.is_finite(),
        b.is_finite(),
        -pow2(high) <= a.scaled() + b.scaled() <= pow2(high),
        52 <= high < 2098,
    ensures
        near_signed(sum(a, b).scaled(), a.scaled() + b.scaled(), 1),
        sum(a, b).is_finite(),
        -pow2(high) <= sum(a, b).scaled() <= pow2(high),
{
    let exact = a.scaled() + b.scaled();
    lemma_magnitude_order(0, 0);
    if exact < 0 {
        lemma_integer_rounded(-exact, high);
    } else {
        lemma_integer_rounded(exact, high);
    }
}

/// A difference of finite numbers is near, unless it is huge.
pub(crate) proof fn lemma_diff_signed(a: Double, b: Double, high: nat)
    requires
        a.is_finite(),
        b.is_finite(),
        -pow2(high) <= a.scaled() - b.scaled() <= pow2(high),
        52 <= high < 2098,
    ensures
        near_signed(diff(a, b).scaled(), a.scaled() - b.scaled(), 1),
        diff(a, b).is_finite(),
        -pow2(high) <= diff(a, b).scaled() <= pow2(high),
{
    lemma_sum_signed(a, negated(b), high);
}

/// The square of a square root is near the number, where that is in range.
pub(crate) proof fn lemma_root_near(x: Double, low: nat, high: nat)
    requires
        in_range(x, 2 * low, 2 * high),
        x.is_finite(),
        52 <= low <= high < 1500,
    ensures
        near(sqrt(x).scaled() * sqrt(x).scaled(), x.scaled() * pow2(1074), 4),
        in_range(sqrt(x), low + 537, high + 537),
        sqrt(x).is_finite(),
{
    let w = pow2(1074) as int;
    let num = x.scaled() * w;
    let (i, j) = ((low + 537) as nat, (high + 537) as nat);
    lemma_pow2_pos(1074);
    lemma_pow2_pos(2 * low);
    lemma_measure_order(x, x);
    lemma_mul_nonnegative(x.scaled(), w);
    lemma_nearest_root_exists(num);
    let p = nearest_root(num);
    let m = magnitude(p);
    // The root lies between the powers.
    lemma_pow2_adds(i, i);
    lemma_pow2_adds(j, j);
    lemma_pow2_adds(2 * low, 1074);
    lemma_pow2_adds(2 * high, 1074);
    lemma_pow2_pos(i);
    lemma_pow2_pos(j);
    let (lo, hi) = (pow2(i) as int, pow2(j) as int);
    assert(lo * lo <= num <= hi * hi) by (nonlinear_arith)
        requires
            pow2(2 * low) <= x.scaled() <= pow2(2 * high),
            lo * lo == pow2(2 * low) * w,
            hi * hi == pow2(2 * high) * w,
            num == x.scaled() * w,
            w > 0,
    ;
    lemma_power_pattern(i);
    lemma_power_pattern(j);
    lemma_root_side(num, p, i, true);
    lemma_root_side(num, p, j, false);
    lemma_magnitude_order(power_pattern(i as int), p);
    lemma_magnitude_order(p, power_pattern(j as int));
    lemma_measure(p);
    // The steps around it.
    let unit = FRACTION_UNIT as int;
    let (e, f) = (p / unit, p % unit);
    let (place, s) = ((e - 1) as nat, unit + f);
    lemma_fundamental_div_mod(p, unit);
    assert(p >= unit) by (nonlinear_arith)
        requires
            p >= (i - 51) * unit,
            i >= 52,
            unit > 0,
    ;
    assert(e >= 1) by (nonlinear_arith)
        requires
            p == unit * e + f,
            p >= unit,
            f < unit,
            unit > 0,
    ;
    assert(p == place * unit + s && p - 1 == place * unit + (s - 1)) by (nonlinear_arith)
        requires
            p == unit * e + f,
            place == e - 1,
            s == unit + f,
    ;
    lemma_packed(s, place);
    lemma_packed(s + 1, place);
    lemma_pow2_pos(place);
    let gap = pow2(place) as int;
    let (high_half, low_half) = (halfway(p), halfway(p - 1));
    assert((s + 1) * gap == s * gap + gap && unit * gap <= m) by (nonlinear_arith)
        requires
            m == s * gap,
            s >= unit,
            gap > 0,
    ;
    lemma_root_below(p, place, s);
    // From halfway points to the square.
    assert((unit - 4) * num <= unit * (m * m)) by (nonlinear_arith)
        requires
            4 * num <= high_half * high_half,
            high_half == 2 * m + gap,
            unit * gap <= m,
            gap > 0,
            unit == 0x10_0000_0000_0000,
    ;
    assert(unit * (m * m) <= (unit + 4) * num) by (nonlinear_arith)
        requires
            low_half * low_half <= 4 * num,
            2 * m - gap <= low_half,
            unit * gap <= m,
            gap > 0,
            unit == 0x10_0000_0000_0000,
    ;
}

/// The point halfway to the pattern below is at most half a step away.
proof fn lemma_root_below(p: int, place: nat, s: int)
    requires
        FRACTION_UNIT <= s < 2 * FRACTION_UNIT,
        p == place * FRACTION_UNIT + s,
    ensures
        2 * magnitude(p) - pow2(place) <= halfway(p - 1),
{
    let unit = FRACTION_UNIT as int;
    let gap = pow2(place) as int;
    lemma_packed(s, place);
    lemma_pow2_pos(place);
    if s > unit || place == 0 {
        lemma_packed(s - 1, place);
        assert((s - 1) * gap == s * gap - gap) by (nonlinear_arith);
    } else {
        lemma_packed(2 * unit - 1, (place - 1) as nat);
        lemma_pow2_unfold(place);
        let half = pow2((place - 1) as nat) as int;
        lemma_pow2_pos((place - 1) as nat);
        assert((place - 1) * unit + (2 * unit - 1) == p - 1) by (nonlinear_arith)
            requires
                p == place * unit + unit,
        ;
        assert((2 * unit - 1) * half == unit * gap - half) by (nonlinear_arith)
            requires
                gap == 2 * half,
        ;
    }
}

/// A root is rounded to no less than a power that it is not below, and to no more than
/// one that it is not above.
proof fn lemma_root_side(num: int, p: int, exponent: nat, below: bool)
    requires
        root_rounds_to(num, p),
        52 <= exponent < 2098,
        below ==> pow2(exponent) * pow2(exponent) <= num,
        !below ==> num <= pow2(exponent) * pow2(exponent),
    ensures
        below ==> power_pattern(exponent as int) <= p,
        !below ==> p <= power_pattern(exponent as int),
{
    let (q, m) = (power_pattern(exponent as int), pow2(exponent) as int);
    lemma_power_pattern(exponent);
    lemma_pow2_pos(exponent);
    if below && p < q {
        let h = halfway(p);
        lemma_halfway_order(p, q);
        assert(h * h < 4 * num) by (nonlinear_arith)
            requires
                0 < h < 2 * m,
                m * m <= num,
        ;
    }
    if !below && p > q {
        let h = halfway(p - 1);
        lemma_halfway_order(q, q + 1);
        if q < p - 1 {
            lemma_halfway_order(q, p - 1);
        }
        assert(h * h > 4 * num) by (nonlinear_arith)
            requires
                h > 2 * m,
                m > 0,
                num <= m * m,
        ;
    }
}

} // verus!
