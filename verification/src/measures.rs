//! What holds of the numbers that the controller works out: loss rates, averages and
//! delta.

use crate::arith::{closest, diff, negated, prod, quot, whole};
use crate::delta::mebibytes;
use crate::double::{lemma_magnitude_order, magnitude, Double, INFINITY_BITS};
use crate::ewma::{mean, square, total, variance, RateSample};
use crate::numbers::{
    law_numbers, number, COMPETITIVE_GAIN, CURRENT_DECAY, CURRENT_FLOOR, EWMA_GAIN, EWMA_KEEP, KIBI,
    LOSSY_RATE, LOSS_RATE_THRESHOLD, MAX_DELTA, ONE, PREDICTIVE_DECAY, PREDICTIVE_FLOOR, ZERO,
};
use crate::order::{
    is_measure, lemma_closest_exact, lemma_closest_order, lemma_measure, lemma_measure_order,
    lemma_power_pattern, lemma_quot_order, lemma_same_sign, lemma_square_is_a_number,
    lemma_sum_is_a_number, lemma_sum_sign, lemma_twice, power_pattern, twice,
};
use crate::rounding::{
    halfway, lemma_halfway_order, lemma_nearest_bound, lemma_nearest_exact, lemma_nearest_exists,
    lemma_nearest_order, lemma_packed, nearest,
};
use crate::seconds::law_half_is_exact;
use crate::span::Span;
use crate::state::{CompetingMode, Mortise};
use vstd::arithmetic::mul::{lemma_mul_inequality, lemma_mul_nonnegative};
use vstd::arithmetic::power2::{
    lemma2_to64, lemma2_to64_rest, lemma_pow2_adds, lemma_pow2_pos, lemma_pow2_unfold, pow2,
};
use vstd::prelude::*;

verus! {

/// Bytes lost and acknowledged in the round that runs.
pub open spec fn bytes_in_round(s: Mortise) -> int {
    s.lost_in_round() + s.acked_in_round()
}

/// The loss rate of a round is a share: no number where nothing was lost or
/// acknowledged, and otherwise between nothing and one, nothing only where no byte
/// was lost.
pub proof fn law_loss_rate_is_share(s: Mortise)
    requires
        s.ends_round(),
    ensures
        ({
            let rate = s.next_round().loss_rate;
            &&& rate.is_nan() == (bytes_in_round(s) == 0)
            &&& bytes_in_round(s) > 0 ==> number(ZERO).is_at_most(rate) && rate.is_at_most(
                number(ONE),
            )
            &&& bytes_in_round(s) > 0 ==> (rate == number(ZERO)) == (s.lost_in_round() == 0)
        }),
{
    let lost = s.lost_in_round();
    let all = if bytes_in_round(s) > u64::MAX {
        u64::MAX
    } else {
        bytes_in_round(s) as u64
    };
    let (a, b) = (whole(lost), whole(all));
    lemma_closest_order(lost as int, all as int);
    lemma_closest_exact(0);
    lemma_closest_exact(1);
    lemma_pow2_pos(1074);
    if all == 0 {
        lemma_measure_order(a, b);
    } else {
        lemma_closest_order(1, all as int);
        lemma_measure_order(closest(1, 1), b);
        lemma_finite(all);
        lemma_quot_order(a, b, b, b);
        lemma_quotient_of_self(b);
        lemma_measure_order(quot(a, b), number(ONE));
        lemma_magnitude_order(0, 0);
        if lost == 0 {
            lemma_measure_order(b, b);
            lemma_measure_order(a, b);
            lemma_nearest_exact(0, b.scaled(), 0);
        } else {
            lemma_closest_order(1, lost as int);
            lemma_least_share(all);
            lemma_quot_order(closest(1, 1), b, a, b);
        }
    }
}

/// One byte of 64 bits' worth is more than nothing.
proof fn lemma_least_share(all: u64)
    requires
        all > 0,
    ensures
        quot(closest(1, 1), whole(all)).payload() > 0,
{
    let w = pow2(1074) as int;
    let b = whole(all);
    lemma_closest_exact(1);
    lemma_closest_order(1, all as int);
    lemma_finite(all);
    lemma_measure_order(closest(1, 1), b);
    lemma_pow2_pos(1074);
    lemma2_to64();
    lemma_pow2_adds(1074, 64);
    lemma_power_pattern(1010);
    lemma_pow2_adds(1010, 64);
    let top = pow2(1138) as int;
    let low = pow2(1010) as int;
    let m = b.scaled();
    // Two to the power -64 is not above the share.
    assert(low * m <= w * w) by (nonlinear_arith)
        requires
            0 < m <= top,
            top == w * 0x1_0000_0000_0000_0000,
            w == low * 0x1_0000_0000_0000_0000,
            low > 0,
    ;
    lemma_nearest_exact(low, 1, power_pattern(1010));
    lemma_nearest_order(low, 1, w * w, m);
    lemma_nearest_exists(w * w, m);
    lemma_measure(nearest(w * w, m));
}

/// An integer of 64 bits becomes a finite number, not above two to the power 64.
pub(crate) proof fn lemma_finite(n: u64)
    ensures
        is_measure(whole(n)),
        whole(n).is_finite(),
        whole(n).payload() <= power_pattern(1138),
        0 <= whole(n).scaled() <= pow2(1138),
{
    let w = pow2(1074) as int;
    lemma2_to64();
    lemma_pow2_pos(1074);
    lemma_pow2_adds(1074, 64);
    lemma_power_pattern(1138);
    assert(0 <= n * w <= pow2(1138)) by (nonlinear_arith)
        requires
            0 <= n <= 0x1_0000_0000_0000_0000,
            w > 0,
            pow2(1138) == w * 0x1_0000_0000_0000_0000,
    ;
    lemma_nearest_bound(n * w, 1, power_pattern(1138));
    lemma_measure(nearest(n * w, 1));
}

/// A positive number divided by itself gives one.
proof fn lemma_quotient_of_self(x: Double)
    requires
        is_measure(x),
        0 < x.payload() < INFINITY_BITS,
    ensures
        quot(x, x) == number(ONE),
{
    let (m, w) = (magnitude(x.payload()), pow2(1074) as int);
    lemma_magnitude_order(0, x.payload());
    lemma_power_pattern(1074);
    assert(m * w == w * m) by (nonlinear_arith);
    lemma_nearest_exact(m * w, m, ONE as int);
}

/// The quotient of integers of no more than 53 bits is the double closest to it.
proof fn lemma_ratio(m: int, n: int)
    requires
        0 <= m <= 0x20_0000_0000_0000,
        0 < n <= 0x20_0000_0000_0000,
    ensures
        quot(closest(m, 1), closest(n, 1)) == closest(m, n),
{
    let w = pow2(1074) as int;
    lemma_pow2_pos(1074);
    lemma_closest_exact(m);
    lemma_closest_exact(n);
    assert(0 <= m * w && 0 < n * w && 0 <= (m * w) * w && (m * w) * w * n == (m * w) * (n * w))
        by (nonlinear_arith)
        requires
            0 <= m,
            0 < n,
            0 < w,
    ;
    lemma_magnitude_order(0, closest(n, 1).payload());
    lemma_nearest_order((m * w) * w, n * w, m * w, n);
    lemma_nearest_order(m * w, n, (m * w) * w, n * w);
}

/// The loss rate of a round is the double closest to `lost / (lost + acked)`, as
/// long as no more than 53 bits count the bytes.
pub proof fn law_loss_rate(s: Mortise)
    requires
        s.ends_round(),
        0 < bytes_in_round(s) <= 0x20_0000_0000_0000,
    ensures
        s.next_round().loss_rate == closest(s.lost_in_round() as int, bytes_in_round(s)),
{
    lemma_ratio(s.lost_in_round() as int, bytes_in_round(s));
}

/// The pattern of the double closest to a ratio lies below `payload`, where the
/// ratio lies below the point halfway to it; and above, where it lies above.
proof fn lemma_side(num: int, den: int, payload: int)
    requires
        0 <= num,
        0 < den,
        0 < payload < INFINITY_BITS,
    ensures
        2 * num < halfway(payload - 1) * den ==> nearest(num, den) < payload,
        2 * num > halfway(payload) * den ==> nearest(num, den) > payload,
{
    let p = nearest(num, den);
    lemma_nearest_exists(num, den);
    if p > payload {
        lemma_halfway_order(payload - 1, p - 1);
        lemma_mul_inequality(halfway(payload - 1), halfway(p - 1), den);
    }
    if p < payload {
        lemma_halfway_order(p, payload);
        lemma_mul_inequality(halfway(p), halfway(payload), den);
    }
}

/// A round calls for competitive mode exactly where more than a tenth of its bytes
/// were lost. Of more than 8006399337547548 bytes a single one beyond a tenth may
/// be rounded away, but no two, as long as no more than 53 bits count the bytes.
pub proof fn law_competitive_above_a_tenth(s: Mortise)
    requires
        s.ends_round(),
        0 < bytes_in_round(s) <= 0x20_0000_0000_0000,
    ensures
        ({
            let next = Mortise { round: s.next_round(), ..s };
            let competitive = next.mode_called_for() == CompetingMode::Competitive;
            let (lost, all) = (s.lost_in_round(), bytes_in_round(s));
            &&& competitive ==> 10 * lost > all
            &&& all <= 8_006_399_337_547_548 ==> competitive == (10 * lost > all)
            &&& 10 * lost > all + 1 ==> competitive
        }),
{
    let (m, n) = (s.lost_in_round() as int, bytes_in_round(s));
    let w = pow2(1074) as int;
    let step = pow2(1018) as int;
    let mark = LOSS_RATE_THRESHOLD as int;
    law_loss_rate(s);
    law_numbers();
    lemma_pow2_pos(1074);
    lemma_pow2_pos(1018);
    lemma2_to64_rest();
    lemma_pow2_adds(1018, 56);
    lemma_packed(0x19_9999_9999_999a, 1018);
    lemma_packed(0x19_9999_9999_999b, 1018);
    assert(0 <= m * w) by (nonlinear_arith)
        requires
            0 <= m,
            0 < w,
    ;
    lemma_nearest_exists(m * w, n);
    lemma_measure(nearest(m * w, n));
    lemma_measure_order(closest(m, n), number(LOSS_RATE_THRESHOLD));
    if 10 * m <= n {
        assert((m * w) * 10 <= (1 * w) * n) by (nonlinear_arith)
            requires
                10 * m <= n,
                0 < w,
        ;
        lemma_nearest_exists(1 * w, 10);
        lemma_nearest_order(m * w, n, 1 * w, 10);
    } else if n <= 8_006_399_337_547_548 || 10 * m > n + 1 {
        let half = halfway(mark);
        let above = 10 * m - n;
        assert(2 * (m * w) > half * n) by (nonlinear_arith)
            requires
                10 * m == n + above,
                above * 0x200_0000_0000_0000 > 18 * n,
                w == step * 0x100_0000_0000_0000,
                half == 0x19_9999_9999_999a * step + 0x19_9999_9999_999b * step,
                0 < n,
                0 < step,
        ;
        lemma_side(m * w, n, mark);
    }
}

/// A round is lossy exactly where more than six of a hundred bytes were lost, as
/// long as no more than 53 bits count the bytes.
pub proof fn law_lossy_above_six_percent(s: Mortise)
    requires
        s.ends_round(),
        0 < bytes_in_round(s) <= 0x20_0000_0000_0000,
    ensures
        ({
            let next = Mortise { round: s.next_round(), ..s };
            next.is_lossy() == (100 * s.lost_in_round() > 6 * bytes_in_round(s))
        }),
{
    let (m, n) = (s.lost_in_round() as int, bytes_in_round(s));
    let w = pow2(1074) as int;
    let step = pow2(1017) as int;
    let mark = LOSSY_RATE as int;
    law_loss_rate(s);
    law_numbers();
    lemma_pow2_pos(1074);
    lemma_pow2_pos(1017);
    lemma2_to64_rest();
    lemma_pow2_adds(1017, 57);
    lemma_packed(0x1e_b851_eb85_1eb8, 1017);
    lemma_packed(0x1e_b851_eb85_1eb9, 1017);
    assert(0 <= m * w) by (nonlinear_arith)
        requires
            0 <= m,
            0 < w,
    ;
    lemma_nearest_exists(m * w, n);
    lemma_measure(nearest(m * w, n));
    lemma_measure_order(closest(m, n), number(LOSSY_RATE));
    if 100 * m <= 6 * n {
        assert((m * w) * 100 <= (6 * w) * n) by (nonlinear_arith)
            requires
                100 * m <= 6 * n,
                0 < w,
        ;
        lemma_nearest_exists(6 * w, 100);
        lemma_nearest_order(m * w, n, 6 * w, 100);
    } else {
        let half = halfway(mark);
        assert(2 * (m * w) > half * n) by (nonlinear_arith)
            requires
                50 * m >= 3 * n + 1,
                w == step * 0x200_0000_0000_0000,
                half == 0x1e_b851_eb85_1eb8 * step + 0x1e_b851_eb85_1eb9 * step,
                0 < n <= 0x20_0000_0000_0000,
                0 < step,
        ;
        lemma_side(m * w, n, mark);
    }
}

/// Numbers that are all finite.
pub open spec fn all_finite(numbers: Seq<Double>) -> bool {
    forall|i: int| 0 <= i < numbers.len() ==> (#[trigger] numbers[i]).is_finite()
}

/// Finite numbers add up to a number, be it an infinite one.
proof fn lemma_total(numbers: Seq<Double>)
    requires
        all_finite(numbers),
    ensures
        !total(numbers).is_nan(),
    decreases numbers.len(),
{
    if numbers.len() > 0 {
        let front = numbers.drop_last();
        assert forall|i: int| 0 <= i < front.len() implies (#[trigger] front[i]).is_finite() by {
            assert(front[i] == numbers[i]);
        }
        lemma_total(front);
        assert(numbers.last() == numbers[numbers.len() - 1]);
        lemma_sum_is_a_number(total(front), numbers.last());
    }
}

/// The sum of the squares of the distances of finite numbers from a number is a
/// number.
proof fn lemma_total_of_squares(numbers: Seq<Double>, center: Double)
    requires
        all_finite(numbers),
        !center.is_nan(),
    ensures
        !total(numbers.map_values(|x: Double| square(x, center))).is_nan(),
    decreases numbers.len(),
{
    let away = |x: Double| square(x, center);
    let squares = numbers.map_values(away);
    if numbers.len() > 0 {
        let front = numbers.drop_last();
        assert forall|i: int| 0 <= i < front.len() implies (#[trigger] front[i]).is_finite() by {
            assert(front[i] == numbers[i]);
        }
        lemma_total_of_squares(front, center);
        lemma_squares(front, center);
        assert(squares.drop_last() == front.map_values(away));
        assert(numbers.last() == numbers[numbers.len() - 1]);
        let opposite = negated(center);
        let distance = diff(numbers.last(), center);
        lemma_sum_is_a_number(opposite, numbers.last());
        lemma_sum_is_a_number(numbers.last(), opposite);
        assert(squares.last() == prod(distance, distance));
        lemma_same_sign(distance, distance);
        lemma_square_is_a_number(distance);
        lemma_sum_is_a_number(total(squares.drop_last()), squares.last());
    }
}

/// The sum of squares of distances is not negative.
proof fn lemma_squares(numbers: Seq<Double>, center: Double)
    ensures
        !total(numbers.map_values(|x: Double| square(x, center))).is_negative(),
    decreases numbers.len(),
{
    let away = |x: Double| square(x, center);
    let squares = numbers.map_values(away);
    if numbers.len() > 0 {
        lemma_squares(numbers.drop_last(), center);
        assert(squares.drop_last() == numbers.drop_last().map_values(away));
        let distance = diff(numbers.last(), center);
        assert(squares.last() == prod(distance, distance));
        lemma_same_sign(distance, distance);
        lemma_sum_sign(total(squares.drop_last()), squares.last());
    }
}

/// A variance is not negative, and that of finite numbers is a number not below
/// zero.
pub proof fn law_variance_is_not_negative(numbers: Seq<Double>)
    ensures
        !variance(numbers).is_negative(),
        !variance(numbers).is_below(number(ZERO)),
        all_finite(numbers) && 0 < numbers.len() <= u64::MAX ==> number(ZERO).is_at_most(
            variance(numbers),
        ),
{
    let squares = numbers.map_values(|x: Double| square(x, mean(numbers)));
    lemma_squares(numbers, mean(numbers));
    lemma_finite(squares.len() as u64);
    lemma_same_sign(total(squares), whole(squares.len() as u64));
    lemma_magnitude_order(0, variance(numbers).payload());
    lemma_magnitude_order(0, 0);
    if all_finite(numbers) && 0 < numbers.len() <= u64::MAX {
        lemma_total(numbers);
        lemma_mean_is_a_number(total(numbers), numbers.len() as u64);
        lemma_total_of_squares(numbers, mean(numbers));
        lemma_mean_is_a_number(total(squares), squares.len() as u64);
    }
}

/// A number divided by a count is a number.
proof fn lemma_mean_is_a_number(x: Double, count: u64)
    requires
        !x.is_nan(),
        count > 0,
    ensures
        !quot(x, whole(count)).is_nan(),
{
    let (m, w) = (magnitude(x.payload()), pow2(1074) as int);
    let c = whole(count);
    lemma_pow2_pos(1074);
    lemma_finite(count);
    lemma_closest_exact(1);
    lemma_closest_order(1, count as int);
    lemma_measure_order(closest(1, 1), c);
    lemma_measure_order(c, c);
    lemma_magnitude_order(0, x.payload());
    lemma_mul_nonnegative(m, w);
    lemma_nearest_exists(m * w, c.scaled());
}

/// Once a sample has been averaged, neither the average nor the variance is
/// negative: the controller waits for its first sample no more.
pub proof fn law_average_is_not_negative(
    s: Mortise,
    sample: RateSample,
    clock: Span,
    after: Mortise,
)
    requires
        s.averages_to(sample, clock, after),
        !sample.app_limited,
    ensures
        !after.rate_ewma.is_negative(),
        !after.rate_ewmv.is_negative(),
        !after.awaits_sample(),
        s.wf() && all_finite(after.rate_residuals@) ==> number(ZERO).is_at_most(after.rate_ewmv),
{
    let rate = sample.delivery_rate;
    law_variance_is_not_negative(after.rate_residuals@);
    lemma_finite(rate);
    lemma_same_sign(whole(rate), number(KIBI));
    lemma_same_sign(quot(whole(rate), number(KIBI)), number(KIBI));
    let gained = prod(number(EWMA_GAIN), whole(rate));
    lemma_same_sign(number(EWMA_GAIN), whole(rate));
    lemma_same_sign(gained, number(KIBI));
    lemma_same_sign(quot(gained, number(KIBI)), number(KIBI));
    if !s.awaits_sample() {
        let x = s.rate_ewma;
        let kept = prod(number(EWMA_KEEP), x);
        lemma_magnitude_order(0, x.payload());
        if x.is_negative() {
            lemma_magnitude_order(0, EWMA_KEEP as int);
            lemma_pow2_pos(1074);
            if !x.is_nan() {
                let m = magnitude(EWMA_KEEP as int);
                assert(m * magnitude(x.payload()) == 0) by (nonlinear_arith)
                    requires
                        magnitude(x.payload()) == 0,
                ;
                lemma_nearest_exact(0, pow2(1074) as int, 0);
            }
        } else {
            lemma_same_sign(number(EWMA_KEEP), x);
        }
        lemma_sum_sign(kept, mebibytes(gained));
    }
    lemma_magnitude_order(0, after.rate_ewma.payload());
}

/// Twice a measure is the measure of twice the value, or infinity where that is
/// exceeded.
proof fn lemma_doubled(x: Double)
    requires
        is_measure(x),
    ensures
        is_measure(prod(x, number(COMPETITIVE_GAIN))),
        x.payload() <= prod(x, number(COMPETITIVE_GAIN)).payload(),
        twice(x.payload()) <= INFINITY_BITS ==> prod(x, number(COMPETITIVE_GAIN)).scaled() == 2
            * x.scaled(),
{
    let (m, w) = (x.scaled(), pow2(1074) as int);
    let double = pow2(1075) as int;
    lemma_measure_order(x, x);
    lemma_measure(INFINITY_BITS as int);
    lemma_power_pattern(1075);
    lemma_pow2_unfold(1075);
    lemma_pow2_pos(1074);
    if x.is_finite() {
        lemma_twice(x.payload());
        assert(m * double == (2 * m) * w && 0 <= m * double && m * w <= m * double)
            by (nonlinear_arith)
            requires
                double == 2 * w,
                0 <= m,
                0 < w,
        ;
        lemma_nearest_exists(m * double, w);
        lemma_measure(nearest(m * double, w));
        lemma_nearest_exact(m, 1, x.payload());
        lemma_nearest_order(m, 1, m * double, w);
        if twice(x.payload()) <= INFINITY_BITS {
            lemma_nearest_exact(m * double, w, twice(x.payload()));
        }
    }
}

/// In competitive mode delta doubles, and stops at a half.
pub proof fn law_competitive_delta_doubles(s: Mortise)
    requires
        s.mode_called_for() == CompetingMode::Competitive,
        is_measure(s.delta),
    ensures
        ({
            let (before, after) = (s.delta.scaled(), s.after_mode().delta.scaled());
            let half = number(MAX_DELTA).scaled();
            after == if 2 * before > half {
                half
            } else {
                2 * before
            }
        }),
{
    lemma_doubled(s.delta);
    lemma_measure_order(prod(s.delta, number(COMPETITIVE_GAIN)), number(MAX_DELTA));
    lemma_measure_order(number(MAX_DELTA), s.delta);
}

/// A share of a measure is not above it.
proof fn lemma_shrunk(x: Double, share: Double)
    requires
        is_measure(x),
        is_measure(share),
        0 < share.payload() <= ONE,
    ensures
        is_measure(prod(x, share)),
        prod(x, share).payload() <= x.payload(),
{
    let (m, f, w) = (x.scaled(), share.scaled(), pow2(1074) as int);
    lemma_measure_order(x, x);
    lemma_measure_order(share, number(ONE));
    lemma_measure(INFINITY_BITS as int);
    lemma_power_pattern(1074);
    lemma_pow2_pos(1074);
    if x.is_finite() {
        assert(0 <= m * f <= m * w) by (nonlinear_arith)
            requires
                0 <= m,
                0 <= f <= w,
        ;
        lemma_nearest_bound(m * f, w, x.payload());
        lemma_measure(nearest(m * f, w));
    }
}

/// Where no lossy round sets it, the lower bound on delta does not rise from one
/// interval to the next, unless to its floor.
pub proof fn law_lower_bound_falls(s: Mortise, min_rtt: u64)
    requires
        !s.is_lossy(),
    ensures
        s.after_predic(min_rtt).min_delta.is_at_most(
            s.min_delta.greater(number(PREDICTIVE_FLOOR)),
        ),
        s.after_cur(min_rtt).min_delta.is_at_most(s.min_delta.greater(number(CURRENT_FLOOR))),
{
    if is_measure(s.min_delta) {
        lemma_shrunk(s.min_delta, number(PREDICTIVE_DECAY));
        lemma_shrunk(s.min_delta, number(CURRENT_DECAY));
        lemma_measure_order(prod(s.min_delta, number(PREDICTIVE_DECAY)), s.min_delta);
        lemma_measure_order(prod(s.min_delta, number(CURRENT_DECAY)), s.min_delta);
    } else {
        lemma_not_above_zero(s.min_delta, number(PREDICTIVE_DECAY));
        lemma_not_above_zero(s.min_delta, number(CURRENT_DECAY));
        lemma_measure_order(number(PREDICTIVE_FLOOR), number(CURRENT_FLOOR));
        lemma_measure_order(number(CURRENT_FLOOR), number(CURRENT_FLOOR));
        lemma_magnitude_order(0, s.min_delta.payload());
    }
}

/// A negative number times a share is no number, or not above zero.
proof fn lemma_not_above_zero(x: Double, share: Double)
    requires
        !is_measure(x),
        is_measure(share),
        0 < share.payload() <= ONE,
    ensures
        prod(x, share).is_nan() || prod(x, share).scaled() <= 0,
{
    let (m, f) = (magnitude(x.payload()), share.scaled());
    lemma_measure_order(share, share);
    lemma_magnitude_order(0, x.payload());
    lemma_pow2_pos(1074);
    lemma_mul_nonnegative(m, f);
    lemma_nearest_exists(m * f, pow2(1074) as int);
    let p = nearest(m * f, pow2(1074) as int);
    lemma_magnitude_order(0, p);
    lemma_magnitude_order(0, INFINITY_BITS as int);
}

/// The average of the delivery rate is due once more than half of the minimum round
/// trip has passed, to the nanosecond, as long as 24 bits count its seconds.
pub proof fn law_average_is_due_after_half_a_round_trip(s: Mortise, min_rtt: u64, clock: Span)
    requires
        min_rtt < 0x100_0000 * 1_000_000,
    ensures
        s.average_due(min_rtt, clock) == (clock.after(s.last_update_ewma_time).nanos > 500
            * min_rtt),
{
    law_half_is_exact(min_rtt);
}

} // verus!
