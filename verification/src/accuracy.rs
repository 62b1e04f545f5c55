//! Arithmetic on doubles gives the double that is closest to the exact result.

use crate::arith::{absolute, diff, negated, prod, quot, sqrt, sum, whole};
use crate::double::{lemma_magnitude_order, magnitude, Double, INFINITY_BITS};
use crate::laws::law_truncation;
use crate::near::lemma_integer_near;
use crate::order::lemma_closest_exact;
use crate::rounding::{
    halfway, lemma_nearest_exact, lemma_nearest_exists, lemma_nearest_root_exists, nearest,
    nearest_root, signed,
};
use vstd::arithmetic::div_mod::lemma_fundamental_div_mod;
use vstd::arithmetic::mul::{lemma_mul_inequality, lemma_mul_nonnegative};
use vstd::arithmetic::power2::{lemma_pow2_pos, pow2};
use vstd::prelude::*;

verus! {

/// `r` is a double closest to `num / den`: none is closer than `r`, and one as close is
/// only where `r` is even.
pub open spec fn is_closest(r: Double, num: int, den: int) -> bool {
    forall|c: Double| #[trigger]
        c.is_finite() ==> {
            let (mine, other) = (r.scaled() * den - num, c.scaled() * den - num);
            &&& absolute(mine) <= absolute(other)
            &&& absolute(mine) == absolute(other) && c.scaled() != r.scaled() ==> r.payload() % 2
                == 0
        }
}

/// Of the patterns none is closer than the one that a ratio is rounded to.
proof fn lemma_closest_pattern(num: int, den: int, q: int)
    requires
        0 <= num,
        0 < den,
        nearest(num, den) < INFINITY_BITS,
        0 <= q < INFINITY_BITS,
    ensures
        ({
            let p = nearest(num, den);
            let (mine, other) = (magnitude(p) * den - num, magnitude(q) * den - num);
            &&& absolute(mine) <= absolute(other)
            &&& absolute(mine) == absolute(other) && q != p ==> p % 2 == 0
        }),
{
    let p = nearest(num, den);
    lemma_nearest_exists(num, den);
    lemma_magnitude_order(q, p);
    lemma_magnitude_order(p, q);
    let (x, y) = (magnitude(p), magnitude(q));
    if q < p {
        let z = magnitude(p - 1);
        lemma_magnitude_order(q, p - 1);
        lemma_mul_inequality(y, z, den);
        assert((z + x) * den == z * den + x * den) by (nonlinear_arith);
        assert(y * den < x * den) by (nonlinear_arith)
            requires
                y < x,
                0 < den,
        ;
    } else if p < q {
        let z = magnitude(p + 1);
        lemma_magnitude_order(p + 1, q);
        lemma_mul_inequality(z, y, den);
        assert((x + z) * den == x * den + z * den) by (nonlinear_arith);
        assert(x * den < y * den) by (nonlinear_arith)
            requires
                x < y,
                0 < den,
        ;
    }
}

/// Of the doubles none is closer than the one that a ratio is rounded to.
proof fn lemma_is_closest(negative: bool, num: int, den: int)
    requires
        0 <= num,
        0 < den,
        nearest(num, den) < INFINITY_BITS,
    ensures
        is_closest(
            signed(negative, nearest(num, den)),
            if negative {
                -num
            } else {
                num
            },
            den,
        ),
{
    let r = signed(negative, nearest(num, den));
    let exact = if negative {
        -num
    } else {
        num
    };
    lemma_nearest_exists(num, den);
    lemma_magnitude_order(0, 0);
    let x = magnitude(nearest(num, den));
    assert(r.payload() == nearest(num, den) && r.is_negative() == negative);
    assert((-x) * den == -(x * den)) by (nonlinear_arith);
    assert forall|c: Double| #[trigger] c.is_finite() implies ({
        let (mine, other) = (r.scaled() * den - exact, c.scaled() * den - exact);
        &&& absolute(mine) <= absolute(other)
        &&& absolute(mine) == absolute(other) && c.scaled() != r.scaled() ==> r.payload() % 2 == 0
    }) by {
        let y = magnitude(c.payload());
        assert((-y) * den == -(y * den)) by (nonlinear_arith);
        lemma_magnitude_order(0, c.payload());
        lemma_closest_pattern(num, den, c.payload());
        if c.is_negative() != negative {
            lemma_closest_pattern(num, den, 0);
            assert(0 <= y * den && 0 * den == 0) by (nonlinear_arith)
                requires
                    0 <= y,
                    0 < den,
            ;
            assert(y > 0 ==> y * den > 0) by (nonlinear_arith)
                requires
                    0 < den,
            ;
        }
    }
}

/// A sum of finite numbers is the double closest to the exact one.
pub proof fn law_sum(a: Double, b: Double)
    requires
        a.is_finite(),
        b.is_finite(),
        sum(a, b).is_finite(),
    ensures
        is_closest(sum(a, b), a.scaled() + b.scaled(), 1),
{
    let exact = a.scaled() + b.scaled();
    lemma_nearest_exists(absolute(exact), 1);
    if exact == 0 {
        lemma_nearest_exact(0, 1, 0);
        lemma_magnitude_order(0, 0);
        lemma_is_closest(a.is_negative() && b.is_negative(), 0, 1);
    } else {
        lemma_is_closest(exact < 0, absolute(exact), 1);
    }
}

/// A difference of finite numbers is the double closest to the exact one.
pub proof fn law_difference(a: Double, b: Double)
    requires
        a.is_finite(),
        b.is_finite(),
        diff(a, b).is_finite(),
    ensures
        is_closest(diff(a, b), a.scaled() - b.scaled(), 1),
{
    law_sum(a, negated(b));
}

/// A product of finite numbers is the double closest to the exact one.
pub proof fn law_product(a: Double, b: Double)
    requires
        a.is_finite(),
        b.is_finite(),
        prod(a, b).is_finite(),
    ensures
        is_closest(prod(a, b), a.scaled() * b.scaled(), pow2(1074) as int),
{
    let (x, y, w) = (magnitude(a.payload()), magnitude(b.payload()), pow2(1074) as int);
    let negative = a.is_negative() != b.is_negative();
    lemma_pow2_pos(1074);
    lemma_magnitude_order(0, a.payload());
    lemma_magnitude_order(0, b.payload());
    lemma_magnitude_order(0, 0);
    assert(0 <= x * y && (-x) * y == -(x * y) && x * (-y) == -(x * y) && (-x) * (-y) == x * y)
        by (nonlinear_arith)
        requires
            0 <= x,
            0 <= y,
    ;
    lemma_nearest_exists(x * y, w);
    lemma_is_closest(negative, x * y, w);
}

/// A quotient of finite numbers is the double closest to the exact one.
pub proof fn law_quotient(a: Double, b: Double)
    requires
        a.is_finite(),
        b.is_finite(),
        b.scaled() != 0,
        quot(a, b).is_finite(),
    ensures
        b.scaled() > 0 ==> is_closest(quot(a, b), a.scaled() * pow2(1074), b.scaled()),
        b.scaled() < 0 ==> is_closest(quot(a, b), -(a.scaled() * pow2(1074)), -b.scaled()),
{
    let (x, y, w) = (magnitude(a.payload()), magnitude(b.payload()), pow2(1074) as int);
    let negative = a.is_negative() != b.is_negative();
    lemma_pow2_pos(1074);
    lemma_magnitude_order(0, a.payload());
    lemma_magnitude_order(0, b.payload());
    lemma_magnitude_order(0, 0);
    assert(0 <= x * w && (-x) * w == -(x * w)) by (nonlinear_arith)
        requires
            0 <= x,
            0 < w,
    ;
    lemma_nearest_exists(x * w, y);
    lemma_is_closest(negative, x * w, y);
}

/// An integer becomes the double closest to it.
pub proof fn law_whole(n: u64)
    ensures
        is_closest(whole(n), n as int * pow2(1074), 1),
        !whole(n).is_negative(),
        whole(n).is_finite(),
{
    let w = pow2(1074) as int;
    lemma_pow2_pos(1074);
    lemma_mul_nonnegative(n as int, w);
    if n == 0 {
        lemma_closest_exact(0);
    } else {
        lemma_integer_near(n as int);
    }
    lemma_nearest_exists(n * w, 1);
    lemma_is_closest(false, n * w, 1);
}

/// A double with its fraction cut off is the largest integer not above it, as far as 64
/// bits hold it; what is negative or no number becomes nothing.
pub proof fn law_truncated(x: Double)
    ensures
        ({
            let (t, w) = (x.truncated(), pow2(1074) as int);
            &&& 0 <= t <= u64::MAX
            &&& x.is_nan() || x.is_negative() ==> t == 0
            &&& !x.is_nan() && !x.is_negative() ==> t * w <= x.scaled() && (t < u64::MAX
                ==> x.scaled() < (t + 1) * w)
        }),
{
    let (w, y) = (pow2(1074) as int, x.scaled());
    lemma_pow2_pos(1074);
    law_truncation(x, x);
    lemma_fundamental_div_mod(y, w);
    let q = y / w;
    assert(q * w <= y && y < (q + 1) * w) by (nonlinear_arith)
        requires
            y == w * q + y % w,
            0 <= y % w < w,
    ;
    assert(q > u64::MAX ==> u64::MAX * w <= q * w) by (nonlinear_arith)
        requires
            w > 0,
    ;
}

/// The square of a square root lies between those of the points halfway to the doubles
/// next to the root.
pub proof fn law_root(x: Double, c: Double)
    requires
        x.is_finite(),
        !x.is_negative(),
        c.is_finite(),
        !c.is_negative(),
        sqrt(x).is_finite(),
    ensures
        ({
            let (r, y, exact) = (sqrt(x).scaled(), c.scaled(), x.scaled() * pow2(1074));
            &&& !sqrt(x).is_negative()
            &&& y < r ==> (y + r) * (y + r) <= 4 * exact
            &&& r < y ==> 4 * exact <= (r + y) * (r + y)
        }),
{
    let w = pow2(1074) as int;
    let (exact, y) = (x.scaled() * w, magnitude(c.payload()));
    lemma_pow2_pos(1074);
    lemma_magnitude_order(0, x.payload());
    lemma_magnitude_order(0, c.payload());
    lemma_magnitude_order(0, 0);
    lemma_mul_nonnegative(x.scaled(), w);
    if x.payload() == 0 {
        assert(0 * w == 0);
        assert(0 <= (0 + y) * (0 + y)) by (nonlinear_arith);
    } else {
        lemma_nearest_root_exists(exact);
        let (p, q) = (nearest_root(exact), c.payload());
        let r = magnitude(p);
        assert(sqrt(x).payload() == p);
        lemma_magnitude_order(p, q);
        lemma_magnitude_order(q, p);
        if q < p {
            let h = halfway(p - 1);
            lemma_magnitude_order(q, p - 1);
            lemma_magnitude_order(0, p - 1);
            assert((y + r) * (y + r) <= h * h) by (nonlinear_arith)
                requires
                    0 <= y + r <= h,
            ;
        } else if p < q {
            let h = halfway(p);
            lemma_magnitude_order(p + 1, q);
            lemma_magnitude_order(0, p);
            assert(h * h <= (r + y) * (r + y)) by (nonlinear_arith)
                requires
                    0 <= h <= r + y,
            ;
        }
    }
}

/// What is no number gives no number.
pub proof fn law_no_number_spreads(a: Double, b: Double)
    requires
        a.is_nan() || b.is_nan(),
    ensures
        sum(a, b).is_nan(),
        diff(a, b).is_nan(),
        prod(a, b).is_nan(),
        quot(a, b).is_nan(),
{
}

} // verus!
