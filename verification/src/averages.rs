//! What the average and the variance of the delivery rate are, in plain arithmetic, but
//! for rounding.

use crate::arith::{absolute, closest, diff, prod, quot, sum, whole};
use crate::candidates::{is_rate, lemma_nothing_multiplied, lemma_rate};
use crate::delta::mebibytes;
use crate::double::{lemma_magnitude_order, magnitude, Double};
use crate::events::least;
use crate::ewma::{mean, square, total, variance, RateSample};
use crate::measures::law_variance_is_not_negative;
use crate::near::{
    in_range, lemma_decimal, lemma_diff_signed, lemma_integer_near, lemma_multiplied,
    lemma_near_chain, lemma_near_scaled, lemma_near_self, lemma_near_sum, lemma_near_wider,
    lemma_prod_near, lemma_quot_near, lemma_rounded_closely, lemma_sum_near, lemma_sum_signed, near,
    near_signed,
};
use crate::numbers::{law_numbers, number, EWMA_GAIN, EWMA_KEEP, KIBI, ZERO};
use crate::order::{
    is_measure, lemma_closest_exact, lemma_measure_order, lemma_power_pattern, power_pattern,
};
use crate::quantities::lemma_nothing_divided;
use crate::rounding::{lemma_nearest_bound, nearest};
use crate::span::Span;
use crate::state::Mortise;
use vstd::arithmetic::mul::{lemma_mul_inequality, lemma_mul_nonnegative};
use vstd::arithmetic::power2::{
    lemma2_to64, lemma_pow2_adds, lemma_pow2_pos, lemma_pow2_strictly_increases, pow2,
};
use vstd::prelude::*;

verus! {

/// Nothing, or a number between two powers of two.
pub open spec fn is_held(x: Double, low: nat, high: nat) -> bool {
    is_measure(x) && x.is_finite() && (x.payload() == 0 || in_range(x, low, high))
}

/// Bytes in mebibytes.
proof fn lemma_mib(x: Double, low: nat, high: nat)
    requires
        is_held(x, low, high),
        80 <= low <= high < 2000,
    ensures
        near(mebibytes(x).scaled() * 0x10_0000, x.scaled(), 3),
        is_held(mebibytes(x), (low - 20) as nat, (high - 20) as nat),
{
    let w = pow2(1074) as int;
    let k = number(KIBI);
    let y = quot(x, k);
    let z = quot(y, k);
    law_numbers();
    lemma2_to64();
    lemma_pow2_pos(1074);
    lemma_pow2_pos(1084);
    lemma_closest_exact(1_024);
    lemma_pow2_adds(1074, 10);
    lemma_measure_order(k, k);
    lemma_measure_order(x, x);
    lemma_power_pattern(1084);
    if x.payload() == 0 {
        lemma_nothing_divided(x, k);
        lemma_nothing_divided(y, k);
        lemma_near_self(0, 3);
    } else {
        let (a, b, c) = (x.scaled(), y.scaled(), z.scaled());
        lemma_quot_near(x, low, high, k, 1084, 1084, (low - 10) as nat, (high - 10) as nat);
        lemma_pow2_pos((low - 10) as nat);
        lemma_pow2_pos((low - 20) as nat);
        lemma_quot_near(
            y,
            (low - 10) as nat,
            (high - 10) as nat,
            k,
            1084,
            1084,
            (low - 20) as nat,
            (high - 20) as nat,
        );
        lemma_measure_order(z, z);
        assert(b * (1_024 * w) == (b * 1_024) * w && c * (1_024 * w) == (c * 1_024) * w)
            by (nonlinear_arith);
        lemma_near_scaled(b * 1_024, a, 1, w);
        lemma_near_scaled(c * 1_024, b, 1, w);
        lemma_near_scaled(c * 1_024, b, 1, 1_024);
        lemma_near_chain(c * 0x10_0000, b * 1_024, a, 1, 1);
    }
}

/// A share of hundredths of a number.
proof fn lemma_weighted(c: Double, num: int, x: Double, low: nat, high: nat, a: int)
    requires
        c == closest(num, 100),
        1 <= num <= 100,
        is_held(x, low, high),
        100 <= low <= high < 2000,
        near(x.scaled(), a, 1),
        0 <= a,
    ensures
        near(prod(c, x).scaled() * 100, num * a, 5),
        is_held(prod(c, x), (low - 30) as nat, (high + 30) as nat),
{
    let w = pow2(1074) as int;
    let p = prod(c, x);
    lemma_pow2_pos(1074);
    lemma_pow2_pos(1044);
    lemma_decimal(num, 100);
    lemma_measure_order(c, c);
    lemma_measure_order(x, x);
    if x.payload() == 0 {
        let (m, n) = (magnitude(c.payload()), magnitude(x.payload()));
        assert(m * n == n * m) by (nonlinear_arith);
        lemma_nothing_multiplied(x, c);
        assert(num * a == 0) by (nonlinear_arith)
            requires
                a == 0,
        ;
        lemma_near_self(0, 5);
    } else {
        lemma_pow2_pos((low - 30) as nat);
        lemma_prod_near(
            c,
            1044,
            1104,
            x,
            low,
            high,
            (low - 30) as nat,
            (high + 30) as nat,
        );
        lemma_measure_order(p, p);
        let z = p.scaled();
        lemma_mul_nonnegative(num, w);
        lemma_mul_nonnegative(num, a);
        lemma_multiplied(z, c.scaled(), x.scaled(), w, 100, num * w, 1, 1, a, 1);
        assert(z * w * (100 * 1) == (z * 100) * w && (num * w) * a == (num * a) * w)
            by (nonlinear_arith);
        lemma_near_scaled(z * 100, num * a, 5, w);
    }
}

/// A count of bytes as a number.
pub(crate) proof fn lemma_bytes(bytes: u64)
    ensures
        near(whole(bytes).scaled(), bytes * pow2(1074), 1),
        is_held(whole(bytes), 1074, 1138),
{
    let w = pow2(1074) as int;
    if bytes == 0 {
        lemma_closest_exact(0);
        assert(0 * w == 0 && bytes * w == 0) by (nonlinear_arith)
            requires
                bytes == 0,
        ;
        lemma_near_self(0, 1);
        lemma_measure_order(whole(bytes), whole(bytes));
    } else {
        lemma_integer_near(bytes as int);
    }
}

/// `mib` is `bytes` divided by two to the power 20, but for rounding.
pub open spec fn is_mebibytes(mib: int, bytes: int) -> bool {
    near(mib * 0x10_0000, bytes * pow2(1074), 5)
}

/// A sample in mebibytes.
proof fn lemma_sample(bytes: u64)
    ensures
        is_mebibytes(mebibytes(whole(bytes)).scaled(), bytes as int),
        is_held(mebibytes(whole(bytes)), 1054, 1118),
{
    let (w, z) = (pow2(1074) as int, mebibytes(whole(bytes)));
    lemma_pow2_pos(1074);
    lemma_bytes(bytes);
    lemma_mib(whole(bytes), 1074, 1138);
    lemma_measure_order(z, whole(bytes));
    lemma_mul_nonnegative(bytes as int, w);
    lemma_near_chain(z.scaled() * 0x10_0000, whole(bytes).scaled(), bytes * w, 3, 1);
}

/// The first sample is the average, in mebibytes, and leaves no residual.
pub proof fn law_first_sample(s: Mortise, rate: u64)
    requires
        s.rate_ewma.scaled() < 0,
        !s.rate_ewma.is_nan(),
    ensures
        is_mebibytes(s.next_ewma(rate).scaled(), rate as int),
        s.next_residual(rate).scaled() == 0,
        is_measure(s.next_ewma(rate)),
        is_measure(s.next_residual(rate)),
{
    let zero = number(ZERO);
    law_numbers();
    lemma_closest_exact(0);
    assert(0 * pow2(1074) == 0);
    lemma_measure_order(zero, zero);
    lemma_sample(rate);
}

/// A later sample moves the average: 85 hundredths of the former average stay, and 15
/// hundredths of the sample, in mebibytes, come. The residual is what the average is
/// then above the sample.
pub proof fn law_average_moves(s: Mortise, rate: u64)
    requires
        is_measure(s.rate_ewma),
        s.rate_ewma.payload() == 0 || is_rate(s.rate_ewma),
    ensures
        near(
            100 * (0x10_0000 * s.next_ewma(rate).scaled()),
            85 * (0x10_0000 * s.rate_ewma.scaled()) + 15 * (rate * pow2(1074)),
            12,
        ),
        exists|mib: int| #[trigger]
            is_mebibytes(mib, rate as int) && near_signed(
                s.next_residual(rate).scaled(),
                s.next_ewma(rate).scaled() - mib,
                1,
            ),
        is_measure(s.next_ewma(rate)),
        s.next_ewma(rate).is_finite(),
        0 <= s.next_ewma(rate).scaled() <= pow2(1405),
        s.next_residual(rate).is_finite(),
        -pow2(1405) <= s.next_residual(rate).scaled() <= pow2(1405),
{
    let w = pow2(1074) as int;
    let (e, b) = (s.rate_ewma, whole(rate));
    let kept = prod(number(EWMA_KEEP), e);
    let share = prod(number(EWMA_GAIN), b);
    let gained = mebibytes(share);
    let new = sum(kept, gained);
    law_numbers();
    lemma2_to64();
    lemma_closest_exact(0);
    lemma_pow2_pos(1074);
    lemma_pow2_pos(774);
    lemma_pow2_pos(1404);
    lemma_measure_order(e, e);
    if e.payload() != 0 {
        lemma_rate(e);
    }
    assert(0 * pow2(1074) == 0);
    assert(!s.awaits_sample());
    // What stays.
    lemma_near_self(e.scaled(), 1);
    lemma_weighted(number(EWMA_KEEP), 85, e, 774, 1374, e.scaled());
    // What comes.
    let n = rate * w;
    lemma_mul_nonnegative(rate as int, w);
    lemma_bytes(rate);
    lemma_weighted(number(EWMA_GAIN), 15, b, 1074, 1138, n);
    lemma_mib(share, 1044, 1168);
    lemma_measure_order(share, gained);
    lemma_measure_order(kept, gained);
    let (x, y, z) = (kept.scaled(), share.scaled(), gained.scaled());
    lemma_near_scaled(z * 0x10_0000, y, 3, 100);
    lemma_near_chain(z * 0x10_0000 * 100, y * 100, 15 * n, 3, 5);
    // The sum.
    lemma_pow2_strictly_increases(1148, 1404);
    lemma_pow2_adds(1404, 1);
    lemma_sum_near(kept, gained, 1405);
    lemma_near_scaled(new.scaled(), x + z, 1, 104_857_600);
    lemma_near_scaled(x * 100, 85 * e.scaled(), 5, 0x10_0000);
    lemma_near_wider(x * 100 * 0x10_0000, 85 * e.scaled() * 0x10_0000, 5, 9);
    lemma_near_sum(
        x * 100 * 0x10_0000,
        85 * e.scaled() * 0x10_0000,
        z * 0x10_0000 * 100,
        15 * n,
        9,
    );
    lemma_near_chain(
        new.scaled() * 104_857_600,
        (x + z) * 104_857_600,
        85 * e.scaled() * 0x10_0000 + 15 * n,
        1,
        9,
    );
    lemma_near_wider(
        new.scaled() * 104_857_600,
        85 * e.scaled() * 0x10_0000 + 15 * n,
        11,
        12,
    );
    // The residual.
    lemma_sample(rate);
    let mib = mebibytes(b);
    lemma_measure_order(mib, new);
    lemma_pow2_strictly_increases(1118, 1405);
    lemma_diff_signed(new, mib, 1405);
    assert(is_mebibytes(mib.scaled(), rate as int));
}

/// A sample is averaged at its time, and the variance is that of the residuals then kept:
/// the latest ten, the new one last. A sample that the application limited changes
/// nothing, and no sample touches anything else.
pub proof fn law_averaging(s: Mortise, sample: RateSample, clock: Span, after: Mortise)
    requires
        s.wf(),
        s.averages_to(sample, clock, after),
    ensures
        sample.app_limited ==> after == s,
        !sample.app_limited ==> {
            let (held, kept) = (s.rate_residuals@, after.rate_residuals@);
            &&& after.rate_ewma == s.next_ewma(sample.delivery_rate)
            &&& after.last_update_ewma_time == clock
            &&& kept.len() == least(held.len() + 1int, 10)
            &&& kept.last() == s.next_residual(sample.delivery_rate)
            &&& forall|i: int|
                0 <= i < kept.len() - 1 ==> #[trigger] kept[i] == held[i + held.len() + 1
                    - kept.len()]
            &&& after.rate_ewmv == variance(kept)
        },
        after == (Mortise {
            rate_ewma: after.rate_ewma,
            rate_ewmv: after.rate_ewmv,
            last_update_ewma_time: after.last_update_ewma_time,
            rate_residuals: after.rate_residuals,
            ..s
        }),
{
}

/// The exact sum of numbers.
pub open spec fn exact_total(values: Seq<int>) -> int
    decreases values.len(),
{
    if values.len() == 0 {
        0
    } else {
        exact_total(values.drop_last()) + values.last()
    }
}

/// The exact values of numbers.
pub open spec fn exact(numbers: Seq<Double>) -> Seq<int> {
    numbers.map_values(|x: Double| x.scaled())
}

/// The exact sizes of numbers, sign aside.
pub open spec fn sizes(values: Seq<int>) -> Seq<int> {
    values.map_values(|x: int| absolute(x))
}

/// The exact squares of numbers.
pub open spec fn squares(values: Seq<int>) -> Seq<int> {
    values.map_values(|x: int| x * x)
}

/// Finite numbers whose size is not above a power of two.
pub open spec fn are_modest(numbers: Seq<Double>, high: nat) -> bool {
    forall|i: int|
        0 <= i < numbers.len() ==> (#[trigger] numbers[i]).is_finite() && absolute(
            numbers[i].scaled(),
        ) <= pow2(high)
}

/// A sum of a few numbers is off by a few parts of their sizes.
proof fn lemma_total_close(numbers: Seq<Double>, high: nat)
    requires
        are_modest(numbers, high),
        numbers.len() <= 1_000,
        52 <= high < 2_080,
    ensures
        ({
            let n = numbers.len() as int;
            let (x, a) = (exact_total(exact(numbers)), exact_total(sizes(exact(numbers))));
            let t = total(numbers);
            &&& t.is_finite()
            &&& 0x10_0000_0000_0000 * absolute(t.scaled() - x) <= 2 * (n * a)
            &&& absolute(x) <= a <= n * pow2(high)
            &&& absolute(t.scaled()) <= 2 * a
        }),
    decreases numbers.len(),
{
    let n = numbers.len() as int;
    law_numbers();
    lemma_closest_exact(0);
    assert(0 * pow2(1074) == 0);
    if n == 0 {
        assert(exact(numbers).len() == 0 && sizes(exact(numbers)).len() == 0);
        let zero = number(ZERO);
        lemma_measure_order(zero, zero);
    } else {
        let (front, last) = (numbers.drop_last(), numbers[n - 1]);
        assert(are_modest(front, high)) by {
            assert forall|i: int| 0 <= i < front.len() implies (#[trigger] front[i]).is_finite()
                && absolute(front[i].scaled()) <= pow2(high) by {
                assert(front[i] == numbers[i]);
            }
        }
        lemma_total_close(front, high);
        assert(exact(numbers).drop_last() =~= exact(front));
        assert(sizes(exact(numbers)).drop_last() =~= sizes(exact(front)));
        let (x, a) = (exact_total(exact(front)), exact_total(sizes(exact(front))));
        let (t, u, v) = (total(front).scaled(), last.scaled(), total(numbers).scaled());
        let (size, p, m) = (absolute(u), pow2(high) as int, n - 1);
        assert(exact_total(exact(numbers)) == x + u);
        assert(exact_total(sizes(exact(numbers))) == a + size);
        lemma2_to64();
        lemma_pow2_adds(high, 11);
        lemma_pow2_pos(high);
        assert(m * p <= 999 * p && (m + 1) * p == m * p + p) by (nonlinear_arith)
            requires
                m <= 999,
                p > 0,
        ;
        lemma_sum_signed(total(front), last, high + 11);
        assert(m * a <= 999 * a && 2 * ((m + 1) * (a + size)) == 2 * (m * a) + 2 * a + 2 * size + 2
            * (m * size) && 0 <= m * size) by (nonlinear_arith)
            requires
                0 <= m <= 999,
                0 <= a,
                0 <= size,
        ;
    }
}

/// Dividing by a count is off by a part of the quotient and a unit in the last place.
proof fn lemma_share_close(x: Double, count: int, high: nat)
    requires
        x.is_finite(),
        absolute(x.scaled()) <= pow2(high),
        52 <= high < 2_098,
        0 < count <= 1_000,
    ensures
        ({
            let q = quot(x, whole(count as u64));
            &&& q.is_finite()
            &&& 0x10_0000_0000_0000 * absolute(q.scaled() * count - x.scaled()) <= absolute(
                x.scaled(),
            ) + 0x10_0000_0000_0000 * count
            &&& absolute(q.scaled()) <= pow2(high)
            &&& !x.is_negative() ==> !q.is_negative()
        }),
{
    let w = pow2(1074) as int;
    let (c, m) = (whole(count as u64), magnitude(x.payload()));
    let q = quot(x, c);
    lemma_pow2_pos(1074);
    lemma_closest_exact(count);
    lemma_measure_order(c, c);
    lemma_magnitude_order(0, x.payload());
    lemma_magnitude_order(0, 0);
    assert(0 < count * w && 0 <= m * w && m * w <= pow2(high) * (count * w)) by (nonlinear_arith)
        requires
            0 < count,
            0 < w,
            0 <= m <= pow2(high),
    ;
    lemma_power_pattern(high);
    let p = nearest(m * w, count * w);
    lemma_nearest_bound(m * w, count * w, power_pattern(high as int));
    lemma_rounded_closely(m * w, count * w);
    let z = magnitude(p);
    let e = 0x10_0000_0000_0000int;
    assert(e * (z * count - m) <= m + e * count && e * (m - z * count) <= m + e * count)
        by (nonlinear_arith)
        requires
            e * (z * (count * w) - m * w) <= m * w + e * (count * w),
            e * (m * w - z * (count * w)) <= m * w + e * (count * w),
            w > 0,
    ;
    assert((-z) * count == -(z * count)) by (nonlinear_arith);
    assert(q.scaled() == z || q.scaled() == -z);
}

/// Squaring is off by a part of the square and a unit in the last place.
proof fn lemma_square_close(d: Double, high: nat)
    requires
        d.is_finite(),
        d.scaled() * d.scaled() <= pow2(high) * pow2(1074),
        52 <= high < 2_098,
    ensures
        ({
            let (y, w) = (d.scaled(), pow2(1074) as int);
            let s = prod(d, d);
            &&& s.is_finite()
            &&& !s.is_negative()
            &&& 0x10_0000_0000_0000 * absolute(s.scaled() * w - y * y) <= y * y
                + 0x10_0000_0000_0000 * w
            &&& 0 <= s.scaled() <= pow2(high)
        }),
{
    let (m, w) = (magnitude(d.payload()), pow2(1074) as int);
    lemma_pow2_pos(1074);
    lemma_magnitude_order(0, d.payload());
    lemma_magnitude_order(0, 0);
    assert((-m) * (-m) == m * m && 0 <= m * m) by (nonlinear_arith);
    lemma_power_pattern(high);
    lemma_nearest_bound(m * m, w, power_pattern(high as int));
    lemma_rounded_closely(m * m, w);
}

/// `center` is the mean of the values, but for a few parts of their sizes, in two to the
/// power 52, and a unit in the last place.
pub open spec fn is_center(values: Seq<int>, center: int) -> bool {
    let n = values.len() as int;
    0x10_0000_0000_0000 * absolute(n * center - exact_total(values)) <= (2 * n + 2) * exact_total(
        sizes(values),
    ) + 0x10_0000_0000_0000 * n
}

/// The mean of a few numbers is their sum divided by their count.
pub proof fn law_mean(numbers: Seq<Double>)
    requires
        are_modest(numbers, 2_000),
        0 < numbers.len() <= 1_000,
    ensures
        is_center(exact(numbers), mean(numbers).scaled()),
        mean(numbers).is_finite(),
        absolute(mean(numbers).scaled()) <= pow2(2_011),
{
    lemma_mean_close(numbers, 2_000);
}

proof fn lemma_mean_close(numbers: Seq<Double>, high: nat)
    requires
        are_modest(numbers, high),
        0 < numbers.len() <= 1_000,
        52 <= high < 2_080,
    ensures
        is_center(exact(numbers), mean(numbers).scaled()),
        mean(numbers).is_finite(),
        absolute(mean(numbers).scaled()) <= pow2(high + 11),
        !total(numbers).is_negative() ==> !mean(numbers).is_negative(),
{
    let n = numbers.len() as int;
    let (p, q) = (pow2(high) as int, mean(numbers).scaled());
    let (x, a) = (exact_total(exact(numbers)), exact_total(sizes(exact(numbers))));
    lemma_total_close(numbers, high);
    lemma2_to64();
    lemma_pow2_adds(high, 11);
    lemma_pow2_pos(high);
    assert(n * p <= 1_000 * p) by (nonlinear_arith)
        requires
            n <= 1_000,
            p > 0,
    ;
    lemma_share_close(total(numbers), n, high + 11);
    assert((2 * n + 2) * a == 2 * (n * a) + 2 * a && q * n == n * q) by (nonlinear_arith);
}

/// `away` holds how far the values are from `center`, but for rounding.
pub open spec fn are_distances(values: Seq<int>, center: int, away: Seq<int>) -> bool {
    &&& away.len() == values.len()
    &&& forall|i: int|
        0 <= i < values.len() ==> near_signed(#[trigger] away[i], values[i] - center, 1)
}

/// `v`, in units of two to the power -1074, is the mean of the squares of the values,
/// but for a few parts of them in two to the power 52 and units in the last place.
pub open spec fn is_mean_square(values: Seq<int>, v: int) -> bool {
    let n = values.len() as int;
    let (all, unit) = (exact_total(squares(values)), n * pow2(1074));
    0x10_0000_0000_0000 * absolute(v * unit - all) <= (4 * n + 6) * all + 3
        * (0x10_0000_0000_0000 * unit)
}

/// Squares of distances, each rounded, against the exact ones.
proof fn lemma_squares_close(distances: Seq<Double>, high: nat)
    requires
        52 <= high < 2_080,
        forall|i: int|
            0 <= i < distances.len() ==> (#[trigger] distances[i]).is_finite()
                && distances[i].scaled() * distances[i].scaled() <= pow2(high) * pow2(1074),
    ensures
        ({
            let n = distances.len() as int;
            let w = pow2(1074) as int;
            let found = distances.map_values(|d: Double| prod(d, d));
            let t = exact_total(exact(found));
            let all = exact_total(squares(exact(distances)));
            &&& are_modest(found, high)
            &&& exact_total(sizes(exact(found))) == t
            &&& 0 <= t
            &&& 0 <= all
            &&& 0x10_0000_0000_0000 * absolute(t * w - all) <= all + 0x10_0000_0000_0000 * (n * w)
        }),
    decreases distances.len(),
{
    let n = distances.len() as int;
    let w = pow2(1074) as int;
    let squared = |d: Double| prod(d, d);
    let found = distances.map_values(squared);
    assert(are_modest(found, high)) by {
        assert forall|i: int| 0 <= i < found.len() implies (#[trigger] found[i]).is_finite()
            && absolute(found[i].scaled()) <= pow2(high) by {
            assert(distances[i].is_finite());
            lemma_square_close(distances[i], high);
        }
    }
    if n == 0 {
        assert(exact(found).len() == 0 && sizes(exact(found)).len() == 0);
        assert(squares(exact(distances)).len() == 0);
        assert(0 * w == 0);
    } else {
        let (front, last) = (distances.drop_last(), distances[n - 1]);
        let before = front.map_values(squared);
        assert forall|i: int| 0 <= i < front.len() implies (#[trigger] front[i]).is_finite()
            && front[i].scaled() * front[i].scaled() <= pow2(high) * pow2(1074) by {
            assert(front[i] == distances[i]);
        }
        lemma_squares_close(front, high);
        lemma_square_close(last, high);
        assert(exact(found).drop_last() =~= exact(before));
        assert(sizes(exact(found)).drop_last() =~= sizes(exact(before)));
        assert(squares(exact(distances)).drop_last() =~= squares(exact(front)));
        let (t, u) = (exact_total(exact(before)), prod(last, last).scaled());
        let y = last.scaled();
        assert(exact(found).last() == u);
        assert(squares(exact(distances)).last() == y * y);
        assert(0 <= y * y) by (nonlinear_arith);
        assert((t + u) * w == t * w + u * w && n * w == (n - 1) * w + w) by (nonlinear_arith);
    }
}

/// The variance of a few numbers is the mean of the squares of how far they are from
/// their mean.
pub proof fn law_variance(numbers: Seq<Double>)
    requires
        are_modest(numbers, 1_500),
        0 < numbers.len() <= 1_000,
    ensures
        exists|center: int, away: Seq<int>|
            is_center(exact(numbers), center) && #[trigger] are_distances(
                exact(numbers),
                center,
                away,
            ) && is_mean_square(away, variance(numbers).scaled()),
        variance(numbers).is_finite(),
        !variance(numbers).is_negative(),
{
    let (n, w) = (numbers.len() as int, pow2(1074) as int);
    let center = mean(numbers);
    let distances = numbers.map_values(|x: Double| diff(x, center));
    let found = numbers.map_values(|x: Double| square(x, center));
    let (values, away) = (exact(numbers), exact(distances));
    lemma2_to64();
    lemma_pow2_pos(1074);
    lemma_pow2_pos(1_500);
    lemma_mean_close(numbers, 1_500);
    // The distances.
    lemma_pow2_adds(1_500, 11);
    lemma_pow2_adds(1_511, 1);
    lemma_pow2_adds(1_512, 1_512);
    lemma_pow2_adds(1_950, 1074);
    let high = pow2(1_512) as int;
    assert forall|i: int| 0 <= i < n implies near_signed(
        (#[trigger] away[i]),
        values[i] - center.scaled(),
        1,
    ) && distances[i].is_finite() && distances[i].scaled() * distances[i].scaled() <= pow2(1_950)
        * pow2(1074) by {
        assert(numbers[i].is_finite() && absolute(numbers[i].scaled()) <= pow2(1_500));
        lemma_diff_signed(numbers[i], center, 1_512);
        let d = distances[i].scaled();
        assert(d * d <= high * high) by (nonlinear_arith)
            requires
                -high <= d <= high,
        ;
    }
    // Their squares.
    assert forall|i: int| 0 <= i < distances.len() implies (#[trigger] distances[i]).is_finite()
        && distances[i].scaled() * distances[i].scaled() <= pow2(1_950) * pow2(1074) by {
        assert(near_signed(away[i], values[i] - center.scaled(), 1));
    }
    lemma_squares_close(distances, 1_950);
    assert(found =~= distances.map_values(|d: Double| prod(d, d)));
    lemma_mean_close(found, 1_950);
    let (t, all, v) = (
        exact_total(exact(found)),
        exact_total(squares(away)),
        variance(numbers).scaled(),
    );
    lemma_mean_square(v, n, w, t, all);
    law_variance_is_not_negative(numbers);
    assert(are_distances(values, center.scaled(), away));
}

/// From the rounded squares to the exact ones.
proof fn lemma_mean_square(v: int, n: int, w: int, t: int, all: int)
    requires
        0 < n <= 1_000,
        0 < w,
        0 <= t,
        0 <= all,
        0x10_0000_0000_0000 * absolute(n * v - t) <= (2 * n + 2) * t + 0x10_0000_0000_0000 * n,
        0x10_0000_0000_0000 * absolute(t * w - all) <= all + 0x10_0000_0000_0000 * (n * w),
    ensures
        0x10_0000_0000_0000 * absolute(v * (n * w) - all) <= (4 * n + 6) * all + 3
            * (0x10_0000_0000_0000 * (n * w)),
{
    let e = 0x10_0000_0000_0000int;
    let (x, y, u) = (n * v, t * w, n * w);
    assert(v * (n * w) == x * w) by (nonlinear_arith)
        requires
            x == n * v,
    ;
    let (up, down, bound) = (e * (x - t), e * (t - x), (2 * n + 2) * t + e * n);
    lemma_mul_inequality(up, bound, w);
    lemma_mul_inequality(down, bound, w);
    assert(up * w == e * (x * w - y) && down * w == e * (y - x * w)) by (nonlinear_arith)
        requires
            up == e * (x - t),
            down == e * (t - x),
            y == t * w,
    ;
    assert(bound * w == (2 * n + 2) * y + e * u) by (nonlinear_arith)
        requires
            bound == (2 * n + 2) * t + e * n,
            y == t * w,
            u == n * w,
    ;
    assert(0 <= y && 0 < u) by (nonlinear_arith)
        requires
            y == t * w,
            u == n * w,
            0 <= t,
            0 < w,
            0 < n,
    ;
    assert((2 * n + 2) * y <= (2 * n + 2) * (2 * all + u)) by (nonlinear_arith)
        requires
            y <= 2 * all + u,
            0 < n,
    ;
    assert((2 * n + 2) * (2 * all + u) == (4 * n + 4) * all + (2 * n + 2) * u) by (nonlinear_arith);
    assert((2 * n + 2) * u <= 2_002 * u && (4 * n + 6) * all == (4 * n + 4) * all + 2 * all)
        by (nonlinear_arith)
        requires
            n <= 1_000,
            0 < u,
    ;
}

} // verus!
