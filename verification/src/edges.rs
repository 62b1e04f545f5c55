//! What comes out where something is missing: no sample yet, no response, no byte.

use crate::arith::{closest, diff, prod, quot, sum, whole};
use crate::averages::lemma_bytes;
use crate::candidates::{is_rate, lemma_nothing_multiplied, lemma_rate};
use crate::choices::{is_heavy_loss, is_light_loss, lemma_capped_millis, lemma_one_plus};
use crate::double::{lemma_magnitude_order, magnitude, Double, INFINITY_BITS};
use crate::events::{least, most};
use crate::near::{
    in_range, lemma_decimal, lemma_divided, lemma_integer_near, lemma_near_scaled, lemma_near_self,
    lemma_near_wider, lemma_prod_near, lemma_quot_near, near,
};
use crate::numbers::{
    law_numbers, number, BDP_DIVISOR, BDP_SPREAD, BILLION, KIBI, ONE, PROBE_DELAY_CAP, PROBE_WEIGHT,
    THOUSAND,
};
use crate::order::{is_measure, lemma_closest_exact, lemma_measure_order};
use crate::quantities::{law_seconds, lemma_nothing_divided};
use crate::rounding::{lemma_nearest_exists, nearest};
use crate::seconds::secs;
use crate::span::Span;
use crate::state::Mortise;
use vstd::arithmetic::mul::lemma_mul_nonnegative;
use vstd::arithmetic::power2::{lemma_pow2_pos, pow2};
use vstd::prelude::*;

verus! {

/// The loss rate of a round is the share of lost bytes among those lost and acknowledged
/// since it started, whatever their number. Totals that have fallen count as nothing, and
/// bytes beyond what 64 bits hold are not counted.
pub proof fn law_loss_rate_of_any_round(s: Mortise)
    requires
        s.ack_state.largest_acked_pkt_num >= s.round.round_end_pkt_num,
    ensures
        ({
            let lost = most(s.stats.bytes_lost_in_total - s.round.last_total_lost_bytes, 0);
            let acked = most(s.stats.bytes_acked_in_total - s.round.last_total_acked_bytes, 0);
            let all = least(lost + acked, u64::MAX as int);
            let rate = s.next_round().loss_rate;
            &&& all == 0 ==> rate.is_nan()
            &&& lost == 0 && all > 0 ==> rate.bits == 0
            &&& all > 0 ==> near(rate.scaled() * all, lost * pow2(1074), 6)
        }),
{
    let w = pow2(1074) as int;
    let lost = most(s.stats.bytes_lost_in_total - s.round.last_total_lost_bytes, 0);
    let acked = most(s.stats.bytes_acked_in_total - s.round.last_total_acked_bytes, 0);
    let all = least(lost + acked, u64::MAX as int);
    let (a, b) = (whole(lost as u64), whole(all as u64));
    let q = quot(a, b);
    assert(s.next_round().loss_rate == q);
    lemma_pow2_pos(1074);
    lemma_closest_exact(0);
    assert(0 * w == 0);
    if all == 0 {
        lemma_measure_order(a, b);
        lemma_measure_order(b, b);
    } else {
        lemma_integer_near(all);
        lemma_measure_order(b, b);
        if lost == 0 {
            lemma_measure_order(a, b);
            lemma_nothing_divided(a, b);
            assert(0 * all == 0 && lost * w == 0) by (nonlinear_arith)
                requires
                    lost == 0,
            ;
            lemma_near_self(0, 6);
        } else {
            lemma_integer_near(lost);
            lemma_quot_near(a, 1074, 1138, b, 1074, 1138, 1010, 1138);
            lemma_mul_nonnegative(lost, w);
            assert(0 < all * w) by (nonlinear_arith)
                requires
                    0 < all,
                    0 < w,
            ;
            let z = q.scaled();
            lemma_divided(z, a.scaled(), b.scaled(), w, 1, lost * w, 1, 1, all * w, 1);
            assert(z * 1 * (all * w) == (z * all) * w && (lost * w) * w * 1 == (lost * w) * w)
                by (nonlinear_arith);
            lemma_near_scaled(z * all, lost * w, 5, w);
            lemma_near_wider(z * all, lost * w, 5, 6);
        }
    }
}

/// Without a response none comes per second, once time has passed.
pub proof fn law_no_flow(s: Mortise, clock: Span)
    requires
        s.total_resp_cnts == 0,
        clock.nanos > s.start_time.nanos,
    ensures
        s.flow_rate(clock).bits == 0,
{
    let t = secs(clock.after(s.start_time));
    law_seconds(clock.after(s.start_time));
    lemma_pow2_pos(1043);
    lemma_closest_exact(0);
    assert(0 * pow2(1074) == 0);
    lemma_measure_order(whole(0), t);
    lemma_measure_order(t, t);
    lemma_nothing_divided(whole(0), t);
}

/// As long as no time has passed, responses per second have no bound, and none are no
/// number.
pub proof fn law_flow_without_time(s: Mortise, clock: Span)
    requires
        clock.nanos <= s.start_time.nanos,
    ensures
        s.total_resp_cnts == 0 ==> s.flow_rate(clock).is_nan(),
        s.total_resp_cnts > 0 ==> s.flow_rate(clock).is_infinite() && !s.flow_rate(
            clock,
        ).is_negative(),
{
    let (a, t) = (whole(s.total_resp_cnts), secs(clock.after(s.start_time)));
    lemma_no_time();
    lemma_bytes(s.total_resp_cnts);
    lemma_measure_order(a, a);
    lemma_pow2_pos(1074);
    if s.total_resp_cnts > 0 {
        lemma_integer_near(s.total_resp_cnts as int);
    } else {
        lemma_closest_exact(0);
        assert(0 * pow2(1074) == 0);
    }
}

/// A span of no time has no seconds.
proof fn lemma_no_time()
    ensures
        secs(Span { nanos: 0 }).payload() == 0,
        !secs(Span { nanos: 0 }).is_negative(),
{
    let zero = whole(0);
    let k = number(BILLION);
    law_numbers();
    lemma_decimal(1_000_000_000, 1);
    lemma_pow2_pos(1044);
    lemma_closest_exact(0);
    assert(0 * pow2(1074) == 0);
    lemma_measure_order(zero, zero);
    lemma_measure_order(k, k);
    lemma_nothing_divided(zero, k);
    lemma_magnitude_order(0, 0);
}

/// Without variance nothing is deviant, and a candidate makes up for nothing.
pub proof fn law_outlook_without_variance(
    s: Mortise,
    delta: Double,
    min_rtt: Double,
    queue_delay: Double,
    score: Double,
)
    requires
        s.rate_ewmv.bits == 0,
        in_range(delta, 1064, 1080),
        delta.is_finite(),
        is_measure(min_rtt),
        min_rtt.is_finite(),
    ensures
        ({
            let c = s.outlook(delta, min_rtt, queue_delay, score);
            &&& c.rate_std.bits == 0
            &&& c.bdp_std.bits == 0
            &&& c.delta_tput.bits == 0
        }),
{
    let (one, two, k) = (
        number(ONE),
        number(BDP_SPREAD),
        number(BDP_DIVISOR),
    );
    let c = s.outlook(delta, min_rtt, queue_delay, score);
    law_numbers();
    lemma_decimal(1, 1);
    lemma_decimal(2, 1);
    lemma_decimal(15, 10);
    lemma_pow2_pos(1044);
    lemma_pow2_pos(1064);
    lemma_measure_order(one, two);
    lemma_measure_order(two, k);
    lemma_measure_order(k, one);
    lemma_nothing_divided(c.rate_std, k);
    let x = quot(c.rate_std, k);
    lemma_nothing_multiplied(x, min_rtt);
    lemma_nothing_multiplied(c.bdp_std, two);
    lemma_pow2_pos(998);
    lemma_quot_near(one, 1044, 1104, delta, 1064, 1080, 1038, 1114);
    lemma_pow2_pos(1038);
    let o = quot(one, delta);
    lemma_measure_order(o, o);
    let share = quot(o, prod(c.bdp_std, two));
    assert(share.is_infinite() && !share.is_negative());
    lemma_magnitude_order(one.payload(), INFINITY_BITS as int);
    assert(share.lesser(one) == one);
    let (m, n) = (magnitude(one.payload()), magnitude(c.rate_std.payload()));
    assert(m * n == n * m) by (nonlinear_arith);
    lemma_nothing_multiplied(c.rate_std, one);
}

/// A delta of nothing stays so through a lossy round.
pub proof fn law_no_delta_stays(s: Mortise, min_rtt: u64)
    requires
        is_heavy_loss(s.round.loss_rate),
        s.config.steady_delta.bits == 0,
    ensures
        s.after_predic(min_rtt).config.steady_delta.bits == 0,
        s.after_predic(min_rtt).min_delta.bits == 0,
{
    let d = sum(number(ONE), s.round.loss_rate);
    law_numbers();
    lemma_decimal(6, 100);
    lemma_decimal(5, 10);
    lemma_one_plus(s.round.loss_rate);
    lemma_pow2_pos(1074);
    lemma_measure_order(d, d);
    lemma_nothing_divided(s.config.steady_delta, d);
    lemma_pow2_pos(1044);
}

/// Under the current rule a round in which everything was lost sets delta in steady state
/// and its lower bound to a half.
pub proof fn law_total_loss(s: Mortise, min_rtt: u64)
    requires
        is_measure(s.round.loss_rate),
        s.round.loss_rate.scaled() == pow2(1074),
        is_measure(s.config.steady_delta),
        s.config.steady_delta.is_finite(),
        s.config.steady_delta.payload() > 0,
    ensures
        s.after_cur(min_rtt).config.steady_delta == closest(5, 10),
        s.after_cur(min_rtt).min_delta == closest(5, 10),
{
    let (one, loss, f) = (number(ONE), s.round.loss_rate, s.config.steady_delta);
    let w = pow2(1074) as int;
    let d = diff(one, loss);
    let top = closest(5, 10);
    law_numbers();
    lemma_closest_exact(1);
    lemma_decimal(5, 10);
    lemma_decimal(6, 100);
    lemma_pow2_pos(1044);
    lemma_pow2_pos(1074);
    lemma_measure_order(loss, one);
    lemma_measure_order(one, loss);
    assert(1 * w == w);
    assert(closest(6, 100).scaled() < w) by (nonlinear_arith)
        requires
            near(closest(6, 100).scaled() * 100, 6 * w, 1),
            w > 0,
    ;
    lemma_magnitude_order(0, 0);
    assert(d.payload() == 0 && !d.is_negative());
    let q = quot(f, d);
    assert(q.is_infinite() && !q.is_negative());
    lemma_measure_order(top, top);
    lemma_magnitude_order(top.payload(), INFINITY_BITS as int);
}

/// Before the first sample, when the average is below zero, a probe for speed stays at the
/// lower bound, but not above 0.4.
pub proof fn law_probing_before_first_sample(s: Mortise, min_rtt: u64)
    requires
        is_light_loss(s.round.loss_rate),
        s.sending_resp >= 10,
        s.sending_large_resp >= 4,
        s.rate_ewma.is_finite(),
        s.rate_ewma.scaled() < 0,
    ensures
        ({
            let after = s.after_predic(min_rtt);
            after.config.steady_delta.scaled() == least(
                after.min_delta.scaled(),
                closest(4, 10).scaled(),
            )
        }),
{
    let rtt = quot(whole(min_rtt), number(THOUSAND));
    let delay = rtt.lesser(number(PROBE_DELAY_CAP));
    let (c, r) = (number(PROBE_WEIGHT), s.rate_ewma);
    let y = quot(c, delay);
    let x = quot(y, r);
    let floor = s.after_predic(min_rtt).min_delta;
    law_numbers();
    lemma_decimal(4, 10);
    lemma_decimal(4, 100);
    lemma_decimal(6, 100);
    lemma_decimal(12, 1);
    lemma_decimal(40, 1);
    lemma_decimal(1_000, 1);
    lemma_pow2_pos(1044);
    lemma_pow2_pos(1074);
    lemma_bytes(min_rtt);
    lemma_not_negative(whole(min_rtt), number(THOUSAND));
    lemma_not_negative(c, delay);
    assert(!floor.is_nan() && floor.scaled() >= closest(4, 100).scaled() > 0);
    lemma_magnitude_order(0, r.payload());
    lemma_magnitude_order(0, y.payload());
    lemma_magnitude_order(0, 0);
    if y.is_finite() {
        let (m, n) = (magnitude(y.payload()), magnitude(r.payload()));
        lemma_mul_nonnegative(m, pow2(1074) as int);
        lemma_nearest_exists(m * pow2(1074), n);
        lemma_magnitude_order(0, nearest(m * pow2(1074), n));
    } else {
        lemma_magnitude_order(0, INFINITY_BITS as int);
    }
    assert(x.is_nan() || x.scaled() <= 0);
}

/// Where the minimum filter reads nothing, or the average is nothing, a probe for speed
/// has no bound but 0.4.
pub proof fn law_probing_without_bound(s: Mortise, min_rtt: u64)
    requires
        is_light_loss(s.round.loss_rate),
        s.sending_resp >= 10,
        s.sending_large_resp >= 4,
        is_measure(s.rate_ewma),
        s.rate_ewma.is_finite(),
        min_rtt == 0 || s.rate_ewma.payload() == 0,
    ensures
        s.after_predic(min_rtt).config.steady_delta == closest(4, 10),
{
    let rtt = quot(whole(min_rtt), number(THOUSAND));
    let delay = rtt.lesser(number(PROBE_DELAY_CAP));
    let (c, r) = (number(PROBE_WEIGHT), s.rate_ewma);
    let y = quot(c, delay);
    let x = quot(y, r);
    law_numbers();
    lemma_decimal(4, 10);
    lemma_decimal(4, 100);
    lemma_decimal(6, 100);
    lemma_decimal(12, 1);
    lemma_decimal(40, 1);
    lemma_decimal(1_000, 1);
    lemma_pow2_pos(1044);
    lemma_pow2_pos(1074);
    lemma_measure_order(c, number(THOUSAND));
    lemma_measure_order(number(THOUSAND), number(PROBE_DELAY_CAP));
    lemma_measure_order(number(PROBE_DELAY_CAP), c);
    lemma_bytes(min_rtt);
    lemma_not_negative(whole(min_rtt), number(THOUSAND));
    if min_rtt == 0 {
        lemma_closest_exact(0);
        assert(0 * pow2(1074) == 0);
        lemma_measure_order(whole(0), whole(0));
        lemma_nothing_divided(whole(0), number(THOUSAND));
        assert(delay == rtt);
        assert(y.is_infinite() && !y.is_negative());
    } else {
        lemma_capped_millis(min_rtt, 40);
        lemma_pow2_pos(1064);
        lemma_measure_order(delay, delay);
        lemma_quot_near(c, 1044, 1104, delay, 1064, 1129, 989, 1114);
        lemma_pow2_pos(989);
        lemma_measure_order(y, y);
    }
    assert(x.is_infinite() && !x.is_negative());
    let top = closest(4, 10);
    lemma_magnitude_order(top.payload(), INFINITY_BITS as int);
    let floor = s.after_predic(min_rtt).min_delta;
    assert(!floor.is_nan());
    lemma_magnitude_order(floor.payload(), INFINITY_BITS as int);
    lemma_magnitude_order(0, floor.payload());
    lemma_magnitude_order(0, INFINITY_BITS as int);
}

/// Without a response under way queueing delay costs nothing.
pub proof fn law_no_price(s: Mortise)
    requires
        is_rate(s.rate_ewma),
        s.sending_resp == 0,
    ensures
        s.delay_price().bits == 0,
{
    let k = number(KIBI);
    let (r, zero) = (s.rate_ewma, whole(0));
    let x = prod(r, k);
    let y = prod(x, k);
    law_numbers();
    lemma_rate(r);
    lemma_decimal(1_024, 1);
    lemma_pow2_pos(774);
    lemma_pow2_pos(744);
    lemma_pow2_pos(714);
    lemma_prod_near(r, 774, 1374, k, 1044, 1104, 744, 1404);
    lemma_prod_near(x, 744, 1404, k, 1044, 1104, 714, 1434);
    lemma_measure_order(y, y);
    lemma_closest_exact(0);
    assert(0 * pow2(1074) == 0);
    lemma_measure_order(zero, zero);
    lemma_nothing_divided(zero, y);
    lemma_nothing_divided(quot(zero, y), y);
}

/// A quotient of what is not negative is not negative.
proof fn lemma_not_negative(a: Double, b: Double)
    requires
        !a.is_negative(),
        !b.is_negative(),
        a.is_finite(),
        0 < a.payload() || b.payload() != 0,
        !b.is_nan(),
    ensures
        !quot(a, b).is_negative(),
        !quot(a, b).is_nan(),
{
    let (m, n) = (magnitude(a.payload()), magnitude(b.payload()));
    lemma_pow2_pos(1074);
    lemma_magnitude_order(0, a.payload());
    lemma_magnitude_order(0, b.payload());
    lemma_magnitude_order(0, 0);
    lemma_mul_nonnegative(m, pow2(1074) as int);
    if n > 0 {
        lemma_nearest_exists(m * pow2(1074), n);
    }
}

} // verus!
