//! What the candidates for delta are, and what they are found to bring, in plain
//! arithmetic, but for rounding.

use crate::arith::{closest, prod, quot, sum, whole};
use crate::choices::lemma_filter_rises;
use crate::delta::{admitted, current_deltas, mebibytes, predictive_deltas};
use crate::double::{lemma_magnitude_order, magnitude, Double};
use crate::events::least;
use crate::near::{
    in_range, lemma_decimal, lemma_diff_signed, lemma_divided, lemma_integer_near, lemma_multiplied,
    lemma_near_chain, lemma_near_scaled, lemma_near_self, lemma_near_sum, lemma_near_wider,
    lemma_prod_near, lemma_quot_near, lemma_root_near, lemma_sum_near, near, near_signed,
};
use crate::numbers::{
    law_numbers, number, BDP_DIVISOR, BDP_SPREAD, CURRENT_QUEUE_WEIGHT, DELTA_04, DELTA_05,
    DELTA_08, DELTA_10, DELTA_20, DELTA_30, DELTA_40, DELTA_50, KIBI, ONE, PREDICTIVE_QUEUE_WEIGHT,
    THOUSAND,
};
use crate::order::{
    is_measure, lemma_closest_exact, lemma_measure, lemma_measure_order, lemma_power_pattern,
    power_pattern,
};
use crate::quantities::{is_weight, law_seconds, lemma_nothing_divided, lemma_weight};
use crate::rounding::{
    lemma_nearest_exact, lemma_nearest_exists, lemma_nearest_order, nearest, signed,
};
use crate::seconds::secs;
use crate::span::Span;
use crate::state::Mortise;
use vstd::arithmetic::mul::lemma_mul_nonnegative;
use vstd::arithmetic::power2::{
    lemma2_to64, lemma_pow2_adds, lemma_pow2_pos, lemma_pow2_strictly_increases, lemma_pow2_unfold,
    pow2,
};
use vstd::prelude::*;

verus! {

/// A delta that the predictive rule looks at: 0.05, or up to five tenths.
pub open spec fn is_predictive_delta(d: Double) -> bool {
    ||| d == closest(5, 100)
    ||| d == closest(1, 10)
    ||| d == closest(2, 10)
    ||| d == closest(3, 10)
    ||| d == closest(4, 10)
    ||| d == closest(5, 10)
}

/// A delta that the current rule looks at: 0.04, 0.08, or up to five tenths.
pub open spec fn is_current_delta(d: Double) -> bool {
    ||| d == closest(4, 100)
    ||| d == closest(8, 100)
    ||| d == closest(1, 10)
    ||| d == closest(2, 10)
    ||| d == closest(3, 10)
    ||| d == closest(4, 10)
    ||| d == closest(5, 10)
}

/// The candidates of the predictive rule are the deltas that it looks at, but for those
/// below the lower bound, from the smallest to the largest.
pub proof fn law_predictive_candidates(s: Mortise, min_rtt: Double, flow_rate: Double)
    ensures
        ({
            let found = s.predicted_candidates(min_rtt, flow_rate);
            &&& forall|i: int|
                0 <= i < found.len() ==> is_predictive_delta((#[trigger] found[i]).delta)
                    && !found[i].delta.is_below(s.min_delta) && found[i] == s.predicted(
                    found[i].delta,
                    min_rtt,
                    flow_rate,
                )
            &&& forall|i: int, j: int|
                0 <= i < j < found.len() ==> (#[trigger] found[i]).delta.scaled() < (
                #[trigger] found[j]).delta.scaled()
            &&& forall|d: Double| #[trigger]
                is_predictive_delta(d) && !d.is_below(s.min_delta) ==> exists|i: int|
                    0 <= i < found.len() && (#[trigger] found[i]).delta == d
        }),
{
    let deltas = predictive_deltas();
    let fits = |d: Double| !d.is_below(s.min_delta);
    let kept = deltas.filter(fits);
    let found = s.predicted_candidates(min_rtt, flow_rate);
    law_numbers();
    lemma_magnitude_order(DELTA_05 as int, DELTA_10 as int);
    lemma_magnitude_order(DELTA_10 as int, DELTA_20 as int);
    lemma_magnitude_order(DELTA_20 as int, DELTA_30 as int);
    lemma_magnitude_order(DELTA_30 as int, DELTA_40 as int);
    lemma_magnitude_order(DELTA_40 as int, DELTA_50 as int);
    lemma_filter_rises(deltas, fits);
    assert(kept == admitted(deltas, s.min_delta));
    assert(found.len() == kept.len());
    assert forall|i: int| 0 <= i < found.len() implies is_predictive_delta(
        (#[trigger] found[i]).delta,
    ) && !found[i].delta.is_below(s.min_delta) && found[i] == s.predicted(
        found[i].delta,
        min_rtt,
        flow_rate,
    ) by {
        assert(found[i] == s.predicted(kept[i], min_rtt, flow_rate));
        deltas.lemma_filter_pred(fits, i);
        let k = choose|k: int| 0 <= k < deltas.len() && deltas[k] == kept[i];
    }
    assert forall|i: int, j: int| 0 <= i < j < found.len() implies (
    #[trigger] found[i]).delta.scaled() < (#[trigger] found[j]).delta.scaled() by {
        assert(found[i].delta == kept[i] && found[j].delta == kept[j]);
    }
    assert forall|d: Double| #[trigger]
        is_predictive_delta(d) && !d.is_below(s.min_delta) implies exists|i: int|
        0 <= i < found.len() && (#[trigger] found[i]).delta == d by {
        assert(d == deltas[0] || d == deltas[1] || d == deltas[2] || d == deltas[3] || d
            == deltas[4] || d == deltas[5]);
        let k = choose|k: int| 0 <= k < deltas.len() && deltas[k] == d;
        deltas.lemma_filter_contains(fits, k);
        let i = choose|i: int| 0 <= i < kept.len() && kept[i] == d;
        assert(found[i].delta == d);
    }
}

/// The candidates of the current rule are the deltas that it looks at, but for those
/// below the lower bound, from the smallest to the largest.
pub proof fn law_current_candidates(s: Mortise, min_rtt: Double)
    ensures
        ({
            let found = s.weighed_candidates(min_rtt);
            &&& forall|i: int|
                0 <= i < found.len() ==> is_current_delta((#[trigger] found[i]).delta)
                    && !found[i].delta.is_below(s.min_delta) && found[i] == s.weighed(
                    found[i].delta,
                    min_rtt,
                    s.delay_price(),
                )
            &&& forall|i: int, j: int|
                0 <= i < j < found.len() ==> (#[trigger] found[i]).delta.scaled() < (
                #[trigger] found[j]).delta.scaled()
            &&& forall|d: Double| #[trigger]
                is_current_delta(d) && !d.is_below(s.min_delta) ==> exists|i: int|
                    0 <= i < found.len() && (#[trigger] found[i]).delta == d
        }),
{
    let deltas = current_deltas();
    let fits = |d: Double| !d.is_below(s.min_delta);
    let kept = deltas.filter(fits);
    let found = s.weighed_candidates(min_rtt);
    law_numbers();
    lemma_magnitude_order(DELTA_04 as int, DELTA_08 as int);
    lemma_magnitude_order(DELTA_08 as int, DELTA_10 as int);
    lemma_magnitude_order(DELTA_10 as int, DELTA_20 as int);
    lemma_magnitude_order(DELTA_20 as int, DELTA_30 as int);
    lemma_magnitude_order(DELTA_30 as int, DELTA_40 as int);
    lemma_magnitude_order(DELTA_40 as int, DELTA_50 as int);
    lemma_filter_rises(deltas, fits);
    assert(kept == admitted(deltas, s.min_delta));
    assert(found.len() == kept.len());
    assert forall|i: int| 0 <= i < found.len() implies is_current_delta(
        (#[trigger] found[i]).delta,
    ) && !found[i].delta.is_below(s.min_delta) && found[i] == s.weighed(
        found[i].delta,
        min_rtt,
        s.delay_price(),
    ) by {
        assert(found[i] == s.weighed(kept[i], min_rtt, s.delay_price()));
        deltas.lemma_filter_pred(fits, i);
        let k = choose|k: int| 0 <= k < deltas.len() && deltas[k] == kept[i];
    }
    assert forall|i: int, j: int| 0 <= i < j < found.len() implies (
    #[trigger] found[i]).delta.scaled() < (#[trigger] found[j]).delta.scaled() by {
        assert(found[i].delta == kept[i] && found[j].delta == kept[j]);
    }
    assert forall|d: Double| #[trigger]
        is_current_delta(d) && !d.is_below(s.min_delta) implies exists|i: int|
        0 <= i < found.len() && (#[trigger] found[i]).delta == d by {
        assert(d == deltas[0] || d == deltas[1] || d == deltas[2] || d == deltas[3] || d
            == deltas[4] || d == deltas[5] || d == deltas[6]);
        let k = choose|k: int| 0 <= k < deltas.len() && deltas[k] == d;
        deltas.lemma_filter_contains(fits, k);
        let i = choose|i: int| 0 <= i < kept.len() && kept[i] == d;
        assert(found[i].delta == d);
    }
}

/// A rate that is neither tiny nor huge: between two to the powers -300 and 300.
pub open spec fn is_rate(x: Double) -> bool {
    in_range(x, 774, 1374)
}

pub(crate) proof fn lemma_rate(x: Double)
    requires
        is_rate(x),
    ensures
        x.is_finite(),
        0 < x.payload(),
        0 < x.scaled(),
        is_weight(x),
{
    lemma_pow2_pos(774);
    lemma_pow2_strictly_increases(174, 774);
    lemma_pow2_strictly_increases(1374, 1900);
    lemma_weight(x);
}

/// A number times nothing is nothing.
pub(crate) proof fn lemma_nothing_multiplied(a: Double, b: Double)
    requires
        is_measure(a),
        is_measure(b),
        a.is_finite(),
        b.is_finite(),
        a.payload() == 0,
    ensures
        prod(a, b).payload() == 0,
        is_measure(prod(a, b)),
        prod(a, b).scaled() == 0,
{
    lemma_magnitude_order(0, 0);
    lemma_pow2_pos(1074);
    let m = magnitude(b.payload());
    assert(magnitude(0) * m == 0 && 0 * m == 0) by (nonlinear_arith)
        requires
            magnitude(0) == 0,
    ;
    assert(magnitude(0) * pow2(1074) == 0) by (nonlinear_arith)
        requires
            magnitude(0) == 0,
    ;
    lemma_nearest_exact(0, pow2(1074) as int, 0);
    lemma_measure(0);
}

/// A constant, divided by a rate and by a candidate.
proof fn lemma_queue(c: Double, num: int, rate: Double, delta: Double)
    requires
        c == closest(num, 10),
        1 <= num <= 100,
        is_rate(rate),
        in_range(delta, 1064, 1080),
        delta.is_finite(),
    ensures
        ({
            let w = pow2(1074) as int;
            let q = quot(quot(c, rate), delta);
            &&& near(q.scaled() * (10 * (rate.scaled() * delta.scaled())), num * (w * w * w), 7)
            &&& in_range(q, 738, 1414)
            &&& q.is_finite()
        }),
{
    let w = pow2(1074) as int;
    let (r, d) = (rate.scaled(), delta.scaled());
    let a = quot(c, rate);
    let q = quot(a, delta);
    lemma_pow2_pos(1074);
    lemma_pow2_pos(1064);
    lemma_pow2_pos(744);
    lemma_rate(rate);
    lemma_decimal(num, 10);
    lemma_quot_near(c, 1044, 1104, rate, 774, 1374, 744, 1404);
    lemma_quot_near(a, 744, 1404, delta, 1064, 1080, 738, 1414);
    lemma_measure_order(c, c);
    lemma_mul_nonnegative(num, w);
    lemma_mul_nonnegative(num * w, w);
    lemma_near_self(r, 0);
    lemma_near_self(d, 0);
    let (x, z) = (a.scaled(), q.scaled());
    lemma_divided(x, c.scaled(), r, w, 10, num * w, 1, 1, r, 0);
    assert(x * 10 * r == x * (10 * r) && (num * w) * w * 1 == (num * w) * w) by (nonlinear_arith);
    lemma_divided(z, x, d, w, 10 * r, (num * w) * w, 4, 1, d, 0);
    assert(z * (10 * r) * d == z * (10 * (r * d)) && ((num * w) * w) * w * 1 == num * (w * w * w))
        by (nonlinear_arith);
}

/// The delivery rate and delta added up.
proof fn lemma_rate_sum(s: Mortise)
    requires
        is_rate(s.rate_ewma),
        is_rate(s.delta),
    ensures
        ({
            let rate = sum(s.rate_ewma, s.delta);
            &&& near(rate.scaled(), s.rate_ewma.scaled() + s.delta.scaled(), 1)
            &&& in_range(rate, 774, 1375)
            &&& rate.is_finite()
        }),
{
    let exact = s.rate_ewma.scaled() + s.delta.scaled();
    lemma_rate(s.rate_ewma);
    lemma_rate(s.delta);
    lemma_pow2_unfold(1375);
    lemma_pow2_pos(774);
    lemma_sum_near(s.rate_ewma, s.delta, 1375);
    lemma_power_pattern(774);
    lemma_nearest_exact(
        pow2(774) as int,
        1,
        power_pattern(774),
    );
    lemma_nearest_order(pow2(774) as int, 1, exact, 1);
    lemma_nearest_exists(exact, 1);
    lemma_measure(nearest(exact, 1));
    lemma_magnitude_order(
        power_pattern(774),
        nearest(exact, 1),
    );
}

/// Bytes divided by a rate, in mebibytes.
proof fn lemma_mebibytes(bytes: u64, rate: Double)
    requires
        in_range(rate, 774, 1375),
        rate.is_finite(),
    ensures
        ({
            let w = pow2(1074) as int;
            let x = mebibytes(quot(whole(bytes), rate));
            &&& near(x.scaled() * (rate.scaled() * 0x10_0000), bytes * (w * w), 10)
            &&& is_measure(x)
            &&& x.is_finite()
            &&& 0 <= x.scaled() <= pow2(1418)
        }),
{
    let w = pow2(1074) as int;
    let (b, k) = (whole(bytes), number(KIBI));
    let r = rate.scaled();
    let x = quot(b, rate);
    let y = quot(x, k);
    let z = quot(y, k);
    law_numbers();
    lemma2_to64();
    lemma_pow2_pos(1074);
    lemma_pow2_pos(774);
    lemma_pow2_pos(1418);
    lemma_measure_order(rate, rate);
    lemma_closest_exact(1_024);
    lemma_pow2_adds(1074, 10);
    lemma_measure_order(k, k);
    lemma_power_pattern(1084);
    if bytes == 0 {
        lemma_closest_exact(0);
        assert(b == closest(0, 1) && 0 * w == 0);
        lemma_measure_order(b, rate);
        lemma_nothing_divided(b, rate);
        lemma_nothing_divided(x, k);
        lemma_nothing_divided(y, k);
        assert(0 * (r * 0x10_0000) == 0 && bytes * (w * w) == 0) by (nonlinear_arith)
            requires
                bytes == 0,
        ;
        lemma_near_self(0, 10);
    } else {
        lemma_integer_near(bytes as int);
        lemma_quot_near(b, 1074, 1138, rate, 774, 1375, 773, 1438);
        lemma_pow2_pos(773);
        lemma_quot_near(x, 773, 1438, k, 1084, 1084, 763, 1428);
        lemma_pow2_pos(763);
        lemma_quot_near(y, 763, 1428, k, 1084, 1084, 753, 1418);
        lemma_mul_nonnegative(bytes as int, w);
        lemma_mul_nonnegative(bytes * w, w);
        lemma_near_self(r, 0);
        lemma_near_self(1_024 * w, 0);
        let (p, q, t) = (x.scaled(), y.scaled(), z.scaled());
        lemma_divided(p, b.scaled(), r, w, 1, bytes * w, 1, 1, r, 0);
        assert(p * 1 * r == p * r && (bytes * w) * w * 1 == (bytes * w) * w) by (nonlinear_arith);
        lemma_divided(q, p, 1_024 * w, w, r, (bytes * w) * w, 4, 1, 1_024 * w, 0);
        assert(q * r * (1_024 * w) == (q * (r * 1_024)) * w && ((bytes * w) * w) * w * 1 == ((bytes
            * w) * w) * w) by (nonlinear_arith);
        lemma_near_scaled(q * (r * 1_024), (bytes * w) * w, 7, w);
        assert(r * 1_024 > 0);
        lemma_divided(t, q, 1_024 * w, w, r * 1_024, (bytes * w) * w, 7, 1, 1_024 * w, 0);
        assert(t * (r * 1_024) * (1_024 * w) == (t * (r * 0x10_0000)) * w) by (nonlinear_arith);
        assert(((bytes * w) * w) * w * 1 == ((bytes * w) * w) * w) by (nonlinear_arith);
        lemma_near_scaled(t * (r * 0x10_0000), (bytes * w) * w, 10, w);
        assert((bytes * w) * w == bytes * (w * w)) by (nonlinear_arith);
    }
}

/// Under the predictive rule a candidate brings a queueing delay of 1.2 divided by the
/// average rate and by the candidate. Its rate is the average plus delta. Its score is
/// the unsent data divided by that rate, in mebibytes, plus the responses per second
/// times the queueing delay, in thousandths.
pub proof fn law_predicted_candidate(s: Mortise, delta: Double, min_rtt: Double, flow: Double)
    requires
        is_rate(s.rate_ewma),
        is_rate(s.delta),
        in_range(delta, 1064, 1080),
        delta.is_finite(),
        is_measure(flow),
        flow.payload() == 0 || in_range(flow, 945, 1169),
    ensures
        ({
            let c = s.predicted(delta, min_rtt, flow);
            let w = pow2(1074) as int;
            let (queue, rate) = (c.queue_delay.scaled(), c.rate.scaled());
            &&& c.delta == delta
            &&& near(queue * (10 * (s.rate_ewma.scaled() * delta.scaled())), 12 * (w * w * w), 8)
            &&& near(rate, s.rate_ewma.scaled() + s.delta.scaled(), 1)
            &&& near(
                c.score.scaled() * ((rate * 0x10_0000) * (1_000 * w)),
                (s.unsent_bytes * (w * w)) * (1_000 * w) + (flow.scaled() * queue) * (rate
                    * 0x10_0000),
                16,
            )
        }),
{
    let w = pow2(1074) as int;
    let c = s.predicted(delta, min_rtt, flow);
    let (q, k) = (c.queue_delay, number(THOUSAND));
    let r = c.rate.scaled();
    law_numbers();
    lemma2_to64();
    lemma_pow2_pos(1074);
    lemma_pow2_pos(774);
    lemma_rate(s.rate_ewma);
    lemma_rate_sum(s);
    lemma_queue(number(PREDICTIVE_QUEUE_WEIGHT), 12, s.rate_ewma, delta);
    let (rd, www) = (10 * (s.rate_ewma.scaled() * delta.scaled()), w * w * w);
    assert(0 <= www) by (nonlinear_arith)
        requires
            0 < w,
            www == w * w * w,
    ;
    lemma_near_wider(q.scaled() * rd, 12 * www, 7, 8);
    lemma_mebibytes(s.unsent_bytes, c.rate);
    let a = mebibytes(quot(whole(s.unsent_bytes), c.rate));
    let y = prod(flow, q);
    let b = quot(y, k);
    lemma_closest_exact(1_000);
    lemma_pow2_adds(1074, 9);
    lemma_pow2_adds(1074, 10);
    lemma_measure_order(k, k);
    lemma_measure_order(flow, q);
    lemma_measure_order(q, q);
    lemma_pow2_pos(738);
    lemma_pow2_strictly_increases(1418, 1500);
    lemma_pow2_unfold(1501);
    lemma_pow2_pos(1500);
    let (f, g) = (flow.scaled(), q.scaled());
    lemma_mul_nonnegative(f, g);
    // The responses that wait.
    if flow.payload() == 0 {
        lemma_nothing_multiplied(flow, q);
        lemma_nothing_divided(y, k);
        assert(0 * (1_000 * w) == 0 && f * g == 0) by (nonlinear_arith)
            requires
                f == 0,
        ;
        lemma_near_self(0, 10);
    } else {
        lemma_pow2_pos(945);
        lemma_power_pattern(1169);
        lemma_measure(power_pattern(1169));
        lemma_measure_order(
            flow,
            signed(false, power_pattern(1169)),
        );
        lemma_prod_near(flow, 945, 1169, q, 738, 1414, 609, 1509);
        lemma_pow2_pos(609);
        lemma_quot_near(y, 609, 1509, k, 1083, 1084, 599, 1500);
        lemma_near_self(1_000 * w, 0);
        lemma_divided(b.scaled(), y.scaled(), 1_000 * w, w, w, f * g, 1, 1, 1_000 * w, 0);
        assert(b.scaled() * w * (1_000 * w) == (b.scaled() * (1_000 * w)) * w && (f * g) * w * 1 ==
            (f * g) * w) by (nonlinear_arith);
        lemma_near_scaled(b.scaled() * (1_000 * w), f * g, 4, w);
        lemma_near_wider(b.scaled() * (1_000 * w), f * g, 4, 10);
    }
    // Both.
    lemma_measure_order(a, b);
    lemma_sum_near(a, b, 1501);
    let (i, j) = (r * 0x10_0000, 1_000 * w);
    let (x, z, u) = (a.scaled(), b.scaled(), s.unsent_bytes * (w * w));
    assert(0 < i && 0 < j && 0 < i * j && 0 <= u) by (nonlinear_arith)
        requires
            0 < r,
            0 < w,
            i == r * 0x10_0000,
            j == 1_000 * w,
            u == s.unsent_bytes * (w * w),
            0 <= s.unsent_bytes,
    ;
    lemma_near_scaled(x * i, u, 10, j);
    lemma_near_scaled(z * j, f * g, 10, i);
    lemma_near_sum((x * i) * j, u * j, (z * j) * i, (f * g) * i, 10);
    lemma_near_scaled(c.score.scaled(), x + z, 1, i * j);
    assert((x * i) * j + (z * j) * i == (x + z) * (i * j)) by (nonlinear_arith);
    assert(0 <= c.score.scaled() * (i * j) && 0 <= (x + z) * (i * j) && 0 <= u * j + (f * g) * i)
        by (nonlinear_arith)
        requires
            0 <= c.score.scaled(),
            0 <= x,
            0 <= z,
            0 < i * j,
            0 <= u,
            0 < i,
            0 < j,
            0 <= f * g,
    ;
    lemma_near_chain(
        c.score.scaled() * (i * j),
        (x + z) * (i * j),
        u * j + (f * g) * i,
        1,
        10,
    );
    lemma_near_wider(c.score.scaled() * (i * j), u * j + (f * g) * i, 12, 16);
}

/// Responses per second are the responses in total, divided by the seconds since the
/// start.
pub proof fn law_flow_rate(s: Mortise, clock: Span)
    requires
        s.total_resp_cnts > 0,
        clock.nanos > s.start_time.nanos,
    ensures
        near(
            s.flow_rate(clock).scaled() * (clock.nanos - s.start_time.nanos),
            s.total_resp_cnts * 1_000_000_000 * pow2(1074),
            8,
        ),
        in_range(s.flow_rate(clock), 945, 1169),
{
    let w = pow2(1074) as int;
    let span = clock.after(s.start_time);
    let (n, t) = (span.nanos as int, secs(span));
    let (c, a) = (s.total_resp_cnts as int, whole(s.total_resp_cnts));
    lemma_pow2_pos(1074);
    lemma_pow2_pos(1043);
    law_seconds(span);
    lemma_integer_near(c);
    lemma_quot_near(a, 1074, 1138, t, 1043, 1203, 945, 1169);
    lemma_mul_nonnegative(c, w);
    assert(n * w > 0) by (nonlinear_arith)
        requires
            n > 0,
            w > 0,
    ;
    let z = quot(a, t).scaled();
    lemma_divided(z, a.scaled(), t.scaled(), w, 1, c * w, 1, 1_000_000_000, n * w, 3);
    let m = c * 1_000_000_000 * w;
    assert(z * 1 * (n * w) == (z * n) * w && (c * w) * w * 1_000_000_000 == m * w)
        by (nonlinear_arith)
        requires
            m == c * 1_000_000_000 * w,
    ;
    lemma_near_scaled(z * n, m, 7, w);
    assert(0 <= m) by (nonlinear_arith)
        requires
            m == c * 1_000_000_000 * w,
            c >= 0,
            w > 0,
    ;
    lemma_near_wider(z * n, m, 7, 8);
}

/// `share` is one divided by the candidate and by twice the deviation of the data in
/// flight, but for rounding.
pub open spec fn is_coverage(share: int, delta: int, bdp_std: int) -> bool {
    near(share * (delta * (2 * bdp_std)), (pow2(1074) * pow2(1074) * pow2(1074)) as int, 8)
}

/// The deviation of the rate is the root of its variance. That of the data in flight is
/// the deviation of the rate divided by 1.5, times the minimum round trip. A candidate
/// makes up for a share of the deviation of the rate: one divided by the candidate and
/// by twice the deviation of the data in flight, but not more than the whole.
pub proof fn law_outlook(
    s: Mortise,
    delta: Double,
    min_rtt: Double,
    queue_delay: Double,
    score: Double,
)
    requires
        is_rate(s.rate_ewmv),
        in_range(delta, 1064, 1080),
        delta.is_finite(),
        in_range(min_rtt, 1064, 1129),
        min_rtt.is_finite(),
    ensures
        ({
            let c = s.outlook(delta, min_rtt, queue_delay, score);
            let w = pow2(1074) as int;
            let (std, bdp) = (c.rate_std.scaled(), c.bdp_std.scaled());
            &&& c.queue_delay == queue_delay
            &&& c.score == score
            &&& near(std * std, s.rate_ewmv.scaled() * w, 4)
            &&& near(bdp * (15 * w), 10 * (std * min_rtt.scaled()), 8)
            &&& exists|share: int| #[trigger]
                is_coverage(share, delta.scaled(), bdp) && near(
                    c.delta_tput.scaled() * w,
                    least(share, w) * std,
                    1,
                )
        }),
{
    let w = pow2(1074) as int;
    let c = s.outlook(delta, min_rtt, queue_delay, score);
    let (one, two, k) = (number(ONE), number(BDP_SPREAD), number(BDP_DIVISOR));
    law_numbers();
    lemma2_to64();
    lemma_pow2_pos(1074);
    lemma_pow2_pos(774);
    lemma_pow2_pos(1064);
    lemma_rate(s.rate_ewmv);
    lemma_root_near(s.rate_ewmv, 387, 687);
    let (std, d, t) = (c.rate_std.scaled(), delta.scaled(), min_rtt.scaled());
    lemma_decimal(15, 10);
    lemma_pow2_pos(1044);
    lemma_pow2_pos(924);
    let x = quot(c.rate_std, k);
    lemma_quot_near(c.rate_std, 924, 1224, k, 1044, 1104, 894, 1254);
    lemma_pow2_pos(894);
    lemma_prod_near(x, 894, 1254, min_rtt, 1064, 1129, 884, 1309);
    lemma_pow2_pos(884);
    lemma_near_self(std, 0);
    lemma_near_self(t, 0);
    let (a, bdp) = (x.scaled(), c.bdp_std.scaled());
    lemma_divided(a, std, k.scaled(), w, 1, std, 0, 10, 15 * w, 1);
    assert(a * 1 * (15 * w) == (a * 15) * w && std * w * 10 == (10 * std) * w) by (nonlinear_arith);
    lemma_near_scaled(a * 15, 10 * std, 4, w);
    lemma_multiplied(bdp, a, t, w, 15, 10 * std, 4, 1, t, 0);
    assert(bdp * w * (15 * 1) == bdp * (15 * w) && (10 * std) * t == 10 * (std * t))
        by (nonlinear_arith);
    lemma_mul_nonnegative(std, t);
    lemma_near_wider(bdp * (15 * w), 10 * (std * t), 7, 8);
    // The share.
    lemma_closest_exact(1);
    lemma_closest_exact(2);
    lemma_pow2_unfold(1075);
    lemma_measure_order(one, two);
    lemma_power_pattern(1075);
    let (o, spread) = (quot(one, delta), prod(c.bdp_std, two));
    lemma_quot_near(one, 1074, 1074, delta, 1064, 1080, 1068, 1084);
    lemma_prod_near(c.bdp_std, 884, 1309, two, 1075, 1075, 885, 1310);
    lemma_pow2_pos(885);
    lemma_pow2_pos(1068);
    let share = quot(o, spread);
    lemma_quot_near(o, 1068, 1084, spread, 885, 1310, 832, 1273);
    assert(bdp * (2 * w) == (2 * bdp) * w) by (nonlinear_arith);
    lemma_near_scaled(spread.scaled(), 2 * bdp, 1, w);
    lemma_mul_nonnegative(w, w);
    lemma_divided(share.scaled(), o.scaled(), spread.scaled(), w, d, w * w, 1, 1, 2 * bdp, 1);
    let sh = share.scaled();
    assert(sh * d * (2 * bdp) == sh * (d * (2 * bdp)) && (w * w) * w * 1 == w * w * w)
        by (nonlinear_arith);
    lemma_mul_nonnegative(w * w, w);
    lemma_near_wider(sh * (d * (2 * bdp)), w * w * w, 5, 8);
    assert(is_coverage(sh, d, bdp));
    // What it makes up for.
    let capped = share.lesser(one);
    lemma_measure_order(share, one);
    lemma_pow2_strictly_increases(832, 1074);
    assert(capped.scaled() == least(sh, w));
    lemma_prod_near(capped, 832, 1074, c.rate_std, 924, 1224, 682, 1224);
}

/// What a unit of queueing delay costs under the current rule is the responses under
/// way, divided twice by the average rate in bytes.
pub proof fn law_delay_price(s: Mortise)
    requires
        is_rate(s.rate_ewma),
        s.sending_resp > 0,
    ensures
        ({
            let w = pow2(1074) as int;
            let rate = s.rate_ewma.scaled() * 0x10_0000;
            &&& near(s.delay_price().scaled() * (rate * rate), s.sending_resp * (w * w * w), 32)
            &&& in_range(s.delay_price(), 434, 1698)
            &&& s.delay_price().is_finite()
        }),
{
    let w = pow2(1074) as int;
    let (e, k) = (s.rate_ewma, number(KIBI));
    let r = e.scaled();
    let (x, b) = (prod(e, k), whole(s.sending_resp));
    let y = prod(x, k);
    law_numbers();
    lemma2_to64();
    lemma_pow2_pos(1074);
    lemma_pow2_pos(774);
    lemma_rate(e);
    lemma_closest_exact(1_024);
    lemma_pow2_adds(1074, 10);
    lemma_power_pattern(1084);
    lemma_measure_order(k, k);
    lemma_prod_near(e, 774, 1374, k, 1084, 1084, 784, 1384);
    lemma_pow2_pos(784);
    lemma_prod_near(x, 784, 1384, k, 1084, 1084, 794, 1394);
    lemma_pow2_pos(794);
    lemma_near_self(r, 0);
    lemma_near_self(1_024 * w, 0);
    let (p, q) = (x.scaled(), y.scaled());
    lemma_multiplied(p, r, 1_024 * w, w, 1, r, 0, 1, 1_024 * w, 0);
    assert(p * w * (1 * 1) == p * w && r * (1_024 * w) == (1_024 * r) * w) by (nonlinear_arith);
    lemma_near_scaled(p, 1_024 * r, 3, w);
    lemma_multiplied(q, p, 1_024 * w, w, 1, 1_024 * r, 3, 1, 1_024 * w, 0);
    let m = r * 0x10_0000;
    assert(q * w * (1 * 1) == q * w && (1_024 * r) * (1_024 * w) == m * w) by (nonlinear_arith)
        requires
            m == r * 0x10_0000,
    ;
    lemma_near_scaled(q, m, 6, w);
    let n = s.sending_resp as int;
    lemma_integer_near(n);
    let u = quot(b, y);
    let v = quot(u, y);
    lemma_quot_near(b, 1074, 1138, y, 794, 1394, 754, 1418);
    lemma_pow2_pos(754);
    lemma_quot_near(u, 754, 1418, y, 794, 1394, 434, 1698);
    lemma_mul_nonnegative(n, w);
    lemma_mul_nonnegative(n * w, w);
    lemma_divided(u.scaled(), b.scaled(), q, w, 1, n * w, 1, 1, m, 6);
    assert(u.scaled() * 1 * m == u.scaled() * m && (n * w) * w * 1 == (n * w) * w)
        by (nonlinear_arith);
    lemma_near_chain_price(v.scaled(), u.scaled(), q, w, m, n);
}

proof fn lemma_near_chain_price(v: int, u: int, q: int, w: int, m: int, n: int)
    requires
        near(v * q, u * w, 1),
        near(u * m, (n * w) * w, 10),
        near(q, m, 6),
        0 <= v,
        0 <= u,
        0 < q,
        0 < w,
        0 < m,
        0 <= n,
    ensures
        near(v * (m * m), n * (w * w * w), 32),
{
    lemma_mul_nonnegative(n, w);
    lemma_mul_nonnegative(n * w, w);
    lemma_divided(v, u, q, w, m, (n * w) * w, 10, 1, m, 6);
    let www = w * w * w;
    assert(v * m * m == v * (m * m) && ((n * w) * w) * w * 1 == n * www) by (nonlinear_arith)
        requires
            www == w * w * w,
    ;
    assert(0 <= n * www) by (nonlinear_arith)
        requires
            www == w * w * w,
            n >= 0,
            w > 0,
    ;
    lemma_near_wider(v * (m * m), n * www, 19, 32);
}

/// Under the current rule a candidate brings a queueing delay of 1.5 divided by the
/// average rate and by the candidate, in thousandths. Its score is its rate, which is
/// the average plus delta, less the price of the queueing delay.
pub proof fn law_weighed_candidate(s: Mortise, delta: Double, min_rtt: Double, price: Double)
    requires
        is_rate(s.rate_ewma),
        is_rate(s.delta),
        in_range(delta, 1064, 1080),
        delta.is_finite(),
        is_measure(price),
        price.is_finite(),
        price.payload() == 0 || in_range(price, 434, 1698),
    ensures
        s.weighed(delta, min_rtt, price).delta == delta,
        near(
            s.weighed(delta, min_rtt, price).queue_delay.scaled() * (10_000 * (
            s.rate_ewma.scaled() * delta.scaled())),
            15int * (pow2(1074) * pow2(1074) * pow2(1074)),
            12,
        ),
        near(
            s.weighed(delta, min_rtt, price).rate.scaled(),
            s.rate_ewma.scaled() + s.delta.scaled(),
            1,
        ),
        ({
            let c = s.weighed(delta, min_rtt, price);
            exists|cost: int| #[trigger]
                is_cost(cost, price.scaled(), c.queue_delay.scaled()) && near_signed(
                    c.score.scaled(),
                    c.rate.scaled() - cost,
                    1,
                )
        }),
{
    let w = pow2(1074) as int;
    let c = s.weighed(delta, min_rtt, price);
    let (q, k) = (c.queue_delay, number(THOUSAND));
    let x = quot(quot(number(CURRENT_QUEUE_WEIGHT), s.rate_ewma), delta);
    law_numbers();
    lemma2_to64();
    lemma_pow2_pos(1074);
    lemma_pow2_pos(774);
    lemma_pow2_pos(738);
    lemma_rate(s.rate_ewma);
    lemma_rate_sum(s);
    lemma_queue(number(CURRENT_QUEUE_WEIGHT), 15, s.rate_ewma, delta);
    lemma_closest_exact(1_000);
    lemma_pow2_adds(1074, 9);
    lemma_pow2_adds(1074, 10);
    lemma_measure_order(k, k);
    lemma_measure_order(x, x);
    lemma_measure_order(delta, delta);
    lemma_quot_near(x, 738, 1414, k, 1083, 1084, 728, 1405);
    lemma_pow2_pos(728);
    lemma_measure_order(q, q);
    let (rd, www) = (10 * (s.rate_ewma.scaled() * delta.scaled()), w * w * w);
    lemma_pow2_pos(1064);
    assert(0 <= www && 0 < rd) by (nonlinear_arith)
        requires
            0 < w,
            www == w * w * w,
            rd == 10 * (s.rate_ewma.scaled() * delta.scaled()),
            0 < s.rate_ewma.scaled(),
            0 < delta.scaled(),
    ;
    lemma_near_self(1_000 * w, 0);
    lemma_divided(q.scaled(), x.scaled(), 1_000 * w, w, rd, 15 * www, 7, 1, 1_000 * w, 0);
    let g = q.scaled();
    assert(g * rd * (1_000 * w) == (g * (1_000 * rd)) * w && (15 * www) * w * 1 == (15 * www) * w)
        by (nonlinear_arith);
    lemma_near_scaled(g * (1_000 * rd), 15 * www, 10, w);
    lemma_near_wider(g * (1_000 * rd), 15 * www, 10, 12);
    // The cost.
    let cost = prod(price, q);
    if price.payload() == 0 {
        lemma_measure_order(price, q);
        lemma_nothing_multiplied(price, q);
        assert(0 * w == 0 && price.scaled() * g == 0) by (nonlinear_arith)
            requires
                price.scaled() == 0,
        ;
        lemma_near_self(0, 1);
        lemma_pow2_pos(2029);
    } else {
        lemma_prod_near(price, 434, 1698, q, 728, 1405, 88, 2029);
        lemma_measure_order(cost, cost);
    }
    assert(is_cost(cost.scaled(), price.scaled(), g));
    lemma_pow2_strictly_increases(1375, 2029);
    lemma_diff_signed(c.rate, cost, 2029);
    assert(g * (1_000 * rd) == g * (10_000 * (s.rate_ewma.scaled() * delta.scaled())));
}

/// `cost` is `price` times `queue`, but for rounding.
pub open spec fn is_cost(cost: int, price: int, queue: int) -> bool {
    near(cost * pow2(1074), price * queue, 1)
}

} // verus!
