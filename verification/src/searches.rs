//! What a search over the candidates for delta finds, and how it is told.

use crate::arith::{prod, quot, whole};
use crate::choices::{is_light_loss, lemma_capped_millis};
use crate::delta::{highest, lowest, Candidate, DeltaUpdate};
use crate::double::Double;
use crate::events::{least, most};
use crate::laws::{is_first, is_last, law_highest_is_highest, law_lowest_is_lowest};
use crate::near::{
    in_range, lemma_decimal, lemma_divided, lemma_multiplied, lemma_near_least, lemma_near_scaled,
    lemma_near_self, lemma_near_wider, lemma_prod_near, lemma_quot_near, near,
};
use crate::numbers::{
    law_numbers, number, LARGEST, LOWEST, PROBE_WEIGHT, STEADY_DELAY_CAP, STEADY_DELAY_SHARE,
    THOUSAND,
};
use crate::order::{is_measure, lemma_closest_exact, lemma_measure_order};
use crate::quantities::{is_weight, lemma_nothing_divided, lemma_weight};
use crate::span::Span;
use crate::state::Mortise;
use vstd::arithmetic::mul::lemma_mul_nonnegative;
use vstd::arithmetic::power2::{
    lemma2_to64, lemma_pow2_adds, lemma_pow2_pos, lemma_pow2_strictly_increases, pow2,
};
use vstd::prelude::*;

verus! {

/// `cap` is 12 divided by a delay of `tenths` tenths of a microsecond, in milliseconds,
/// and by `rate`, but for rounding.
pub open spec fn is_cap(cap: int, tenths: int, rate: int) -> bool {
    near(cap * (rate * tenths), 120_000int * (pow2(1074) * pow2(1074)), 24)
}

/// Four tenths of a round trip, held to 20 milliseconds.
proof fn lemma_shared_delay(micros: u64)
    requires
        micros > 0,
    ensures
        ({
            let rtt = quot(whole(micros), number(THOUSAND));
            let delay = prod(number(STEADY_DELAY_SHARE), rtt).lesser(number(STEADY_DELAY_CAP));
            &&& in_range(delay, 1034, 1159)
            &&& delay.is_finite()
            &&& near(delay.scaled() * 10_000, least(4 * micros, 200_000) * pow2(1074), 10)
        }),
{
    let w = pow2(1074) as int;
    let (c, top) = (number(STEADY_DELAY_SHARE), number(STEADY_DELAY_CAP));
    let rtt = quot(whole(micros), number(THOUSAND));
    let x = prod(c, rtt);
    law_numbers();
    lemma2_to64();
    lemma_pow2_pos(1074);
    lemma_pow2_pos(1064);
    lemma_pow2_pos(1044);
    lemma_pow2_pos(1034);
    lemma_capped_millis(micros, 1_000);
    lemma_decimal(4, 10);
    lemma_measure_order(c, rtt);
    lemma_measure_order(rtt, rtt);
    lemma_prod_near(c, 1044, 1104, rtt, 1064, 1129, 1034, 1159);
    let z = x.scaled();
    lemma_mul_nonnegative(micros as int, w);
    lemma_multiplied(z, c.scaled(), rtt.scaled(), w, 10, 4 * w, 1, 1_000, micros * w, 4);
    assert(z * w * (10 * 1_000) == (z * 10_000) * w && (4 * w) * (micros * w) == ((4 * micros) * w)
        * w) by (nonlinear_arith);
    lemma_near_scaled(z * 10_000, (4 * micros) * w, 8, w);
    lemma_mul_nonnegative(4 * micros, w);
    lemma_near_wider(z * 10_000, (4 * micros) * w, 8, 10);
    // The cap.
    lemma_closest_exact(20);
    lemma_measure_order(x, top);
    lemma_measure_order(top, top);
    lemma_near_least(z * 10_000, (4 * micros) * w, 200_000 * w, 10);
    assert(least((4 * micros) * w, 200_000 * w) == least(4 * micros, 200_000) * w)
        by (nonlinear_arith)
        requires
            w > 0,
    ;
    lemma_pow2_adds(1074, 4);
    lemma_pow2_adds(1074, 5);
    lemma_pow2_strictly_increases(1034, 1078);
    lemma_pow2_strictly_increases(1079, 1159);
}

/// Twelve divided by such a delay and by a rate.
proof fn lemma_cap(delay: Double, tenths: int, rate: Double)
    requires
        in_range(delay, 1034, 1159),
        delay.is_finite(),
        near(delay.scaled() * 10_000, tenths * pow2(1074), 10),
        0 < tenths,
        is_weight(rate),
    ensures
        is_measure(quot(quot(number(PROBE_WEIGHT), delay), rate)),
        is_cap(quot(quot(number(PROBE_WEIGHT), delay), rate).scaled(), tenths, rate.scaled()),
{
    let w = pow2(1074) as int;
    let c = number(PROBE_WEIGHT);
    let a = quot(c, delay);
    let r = rate.scaled();
    law_numbers();
    lemma_pow2_pos(1074);
    lemma_pow2_pos(1034);
    lemma2_to64();
    lemma_pow2_adds(1074, 3);
    lemma_pow2_adds(1074, 4);
    lemma_closest_exact(12);
    lemma_measure_order(c, delay);
    lemma_measure_order(delay, delay);
    lemma_weight(rate);
    lemma_quot_near(c, 1077, 1078, delay, 1034, 1159, 992, 1118);
    lemma_pow2_pos(992);
    lemma_quot_near(a, 992, 1118, rate, 174, 1900, 166, 2018);
    let (y, z) = (a.scaled(), quot(a, rate).scaled());
    lemma_near_self(12 * w, 0);
    assert(tenths * w > 0) by (nonlinear_arith)
        requires
            tenths > 0,
            w > 0,
    ;
    lemma_divided(y, 12 * w, delay.scaled(), w, 1, 12 * w, 0, 10_000, tenths * w, 10);
    assert(y * 1 * (tenths * w) == (y * tenths) * w && (12 * w) * w * 10_000 == (120_000 * w) * w)
        by (nonlinear_arith);
    lemma_near_scaled(y * tenths, 120_000 * w, 13, w);
    lemma_near_self(r, 0);
    lemma_divided(z, y, r, w, tenths, 120_000 * w, 13, 1, r, 0);
    assert(z * tenths * r == z * (r * tenths) && (120_000 * w) * w * 1 == 120_000 * (w * w))
        by (nonlinear_arith);
    lemma_mul_nonnegative(w, w);
    lemma_near_wider(z * (r * tenths), 120_000 * (w * w), 16, 24);
}

/// `best` with `score` is the first of the candidates with the lowest score, or `start`
/// where no score is below the largest finite number.
pub open spec fn is_lowest(
    candidates: Seq<Candidate>,
    start: Double,
    best: Double,
    score: Double,
) -> bool {
    &&& forall|i: int|
        0 <= i < candidates.len() ==> !(#[trigger] candidates[i]).score.is_below(score)
    &&& (best == start && score == number(LARGEST)) || exists|i: int| #[trigger]
        is_first(candidates, (best, score), i)
}

/// `best` with `score` is the last of the candidates with the highest score, or `start`
/// where no score is as high as the lowest finite number.
pub open spec fn is_highest(
    candidates: Seq<Candidate>,
    start: Double,
    best: Double,
    score: Double,
) -> bool {
    &&& forall|i: int|
        0 <= i < candidates.len() ==> !score.is_below((#[trigger] candidates[i]).score)
    &&& (best == start && score == number(LOWEST)) || exists|i: int| #[trigger]
        is_last(candidates, (best, score), i)
}

/// Where the round was neither lossy nor the sender queue swollen, the predictive rule
/// looks at the candidates that are not below the new lower bound, and tells the best of
/// them, but not less than that bound, nor more than 12 divided by four tenths of the
/// minimum round trip in milliseconds, at most 20, and by the average rate.
pub proof fn law_predictive_search(s: Mortise, min_rtt: u64, clock: Span, update: DeltaUpdate)
    requires
        s.tells_predic(min_rtt, clock, update),
        is_light_loss(s.round.loss_rate),
        s.sending_resp < 10 || s.sending_large_resp < 4,
    ensures
        update matches DeltaUpdate::Searched(search) && {
            let floor = s.after_predic(min_rtt).min_delta;
            let start = Mortise { min_delta: floor, ..s };
            &&& near(search.min_rtt.scaled() * 1_000, min_rtt * pow2(1074), 4)
            &&& search.flow_rate == Some(s.flow_rate(clock))
            &&& search.candidates@ == start.predicted_candidates(
                search.min_rtt,
                s.flow_rate(clock),
            )
            &&& exists|best: Double| #[trigger]
                is_lowest(search.candidates@, s.delta, best, search.score) && (is_weight(
                    s.rate_ewma,
                ) && min_rtt > 0 && !best.is_nan() ==> is_capped(
                    search.delta.scaled(),
                    most(best.scaled(), floor.scaled()),
                    least(4 * min_rtt, 200_000),
                    s.rate_ewma.scaled(),
                ))
        },
{
    let floor = s.after_predic(min_rtt).min_delta;
    let start = Mortise { min_delta: floor, ..s };
    let other = s.with_deltas(s.config.steady_delta, floor);
    assert(start == other);
    law_numbers();
    lemma_decimal(6, 100);
    lemma_decimal(4, 100);
    lemma_millis(min_rtt);
    let rtt = quot(whole(min_rtt), number(THOUSAND));
    let found = start.predicted_candidates(rtt, s.flow_rate(clock));
    law_lowest_is_lowest(found, s.delta);
    let (best, score) = lowest(found, s.delta);
    assert(is_lowest(found, s.delta, best, score));
    if is_weight(s.rate_ewma) && min_rtt > 0 {
        let delay = prod(number(STEADY_DELAY_SHARE), rtt).lesser(number(STEADY_DELAY_CAP));
        let cap = quot(quot(number(PROBE_WEIGHT), delay), s.rate_ewma);
        lemma_shared_delay(min_rtt);
        lemma_cap(delay, least(4 * min_rtt, 200_000), s.rate_ewma);
        assert(is_cap(cap.scaled(), least(4 * min_rtt, 200_000), s.rate_ewma.scaled()));
        assert(!floor.is_nan());
        assert(!cap.is_nan());
    }
}

/// `delta` is `wanted`, held to 12 divided by a delay of `tenths` tenths of a microsecond,
/// in milliseconds, and by `rate`, but for rounding.
pub open spec fn is_capped(delta: int, wanted: int, tenths: int, rate: int) -> bool {
    exists|cap: int| #[trigger] is_cap(cap, tenths, rate) && delta == least(wanted, cap)
}

/// Microseconds in milliseconds.
proof fn lemma_millis(micros: u64)
    ensures
        near(
            quot(whole(micros), number(THOUSAND)).scaled() * 1_000,
            micros * pow2(1074),
            4,
        ),
{
    let w = pow2(1074) as int;
    if micros == 0 {
        let k = number(THOUSAND);
        law_numbers();
        lemma_pow2_pos(1044);
        lemma_decimal(1_000, 1);
        lemma_closest_exact(0);
        assert(0 * w == 0);
        lemma_measure_order(whole(0), whole(0));
        lemma_measure_order(k, k);
        lemma_nothing_divided(whole(0), k);
        lemma_near_self(0, 4);
        assert(micros * w == 0) by (nonlinear_arith)
            requires
                micros == 0,
        ;
    } else {
        lemma_capped_millis(micros, 1_000);
    }
}

/// Where the round was not lossy, the current rule looks at the candidates that are not
/// below the new lower bound, and takes the best of them; it has no use for the rate at
/// which responses come.
pub proof fn law_current_search(s: Mortise, min_rtt: u64, update: DeltaUpdate)
    requires
        s.tells_cur(min_rtt, update),
        is_light_loss(s.round.loss_rate),
    ensures
        update matches DeltaUpdate::Searched(search) && {
            let after = s.after_cur(min_rtt);
            let start = Mortise { min_delta: after.min_delta, ..s };
            &&& near(search.min_rtt.scaled() * 1_000, min_rtt * pow2(1074), 4)
            &&& search.flow_rate == None::<Double>
            &&& search.candidates@ == start.weighed_candidates(search.min_rtt)
            &&& is_highest(
                search.candidates@,
                s.config.steady_delta,
                search.delta,
                search.score,
            )
            &&& after.config.steady_delta == search.delta
        },
{
    let start = Mortise { min_delta: s.after_cur(min_rtt).min_delta, ..s };
    law_numbers();
    lemma_decimal(6, 100);
    lemma_millis(min_rtt);
    assert(start == s.with_deltas(s.config.steady_delta, s.current_floor()));
    law_highest_is_highest(
        start.weighed_candidates(quot(whole(min_rtt), number(THOUSAND))),
        s.config.steady_delta,
    );
}

/// A lossy round is told as such, and a swollen sender queue as a probe, each with the
/// delta that it led to.
pub proof fn law_choice_is_told(s: Mortise, min_rtt: u64, clock: Span, update: DeltaUpdate)
    requires
        s.tells_predic(min_rtt, clock, update),
    ensures
        !is_light_loss(s.round.loss_rate) ==> update == DeltaUpdate::Lossy(
            s.after_predic(min_rtt).config.steady_delta,
        ),
        is_light_loss(s.round.loss_rate) && s.sending_resp >= 10 && s.sending_large_resp >= 4
            ==> update == DeltaUpdate::SpeedUp(s.after_predic(min_rtt).config.steady_delta),
{
    law_numbers();
    lemma_decimal(6, 100);
}

} // verus!
