//! What holds of the controller as a whole.

use crate::acks::{Packet, RttSample};
use crate::config::{RESIDUALS, SPEED_UP_THRESHOLD};
use crate::delta::{highest, lowest, Candidate};
use crate::double::{lemma_magnitude_order, Double};
use crate::ewma::RateSample;
use crate::model::Readings;
use crate::numbers::{
    law_numbers, number, LARGEST, LOWEST, MAX_DELTA, PREDICTIVE_FLOOR, PROBE_MAX_DELTA,
};
use crate::span::Span;
use crate::state::{empty_ack, AckState, CompetingMode, CongestionStats, Direction, Mortise};
use vstd::arithmetic::power2::{lemma2_to64, lemma_pow2_unfold, pow2};
use vstd::prelude::*;

verus! {

/// Numbers are totally ordered: of two, exactly one is the smaller, or they are
/// of equal value.
pub proof fn law_order_is_total(a: Double, b: Double)
    requires
        !a.is_nan(),
        !b.is_nan(),
    ensures
        a.is_below(b) || b.is_below(a) || a.scaled() == b.scaled(),
        !(a.is_below(b) && b.is_below(a)),
        a.is_at_most(b) == !b.is_below(a),
{
}

/// Two numbers are of equal value only if they are the same, or both zero.
pub proof fn law_value_is_unique(a: Double, b: Double)
    requires
        !a.is_nan(),
        !b.is_nan(),
        a.scaled() == b.scaled(),
    ensures
        a == b || (a.payload() == 0 && b.payload() == 0),
{
    lemma_magnitude_order(a.payload(), b.payload());
    lemma_magnitude_order(b.payload(), a.payload());
    lemma_magnitude_order(0, a.payload());
    lemma_magnitude_order(0, b.payload());
}

/// What is no number stands in no order.
pub proof fn law_nan_is_unordered(a: Double, b: Double)
    requires
        a.is_nan(),
    ensures
        !a.is_below(b) && !b.is_below(a) && !a.is_at_most(b) && !b.is_at_most(a),
        a.lesser(b) == b,
        a.greater(b) == b,
        !b.is_nan() ==> b.lesser(a) == b && b.greater(a) == b,
{
}

/// The smaller of a double and a number is a number not above either, and the
/// larger one not below either.
pub proof fn law_extremes(a: Double, b: Double)
    requires
        !b.is_nan(),
    ensures
        a.lesser(b).is_at_most(b),
        b.is_at_most(a.greater(b)),
        !a.is_nan() ==> a.lesser(b).is_at_most(a) && a.is_at_most(a.greater(b)),
        a.lesser(b) == a || a.lesser(b) == b,
        a.greater(b) == a || a.greater(b) == b,
{
}

/// A truncated double is in range, and truncation keeps the order.
pub proof fn law_truncation(a: Double, b: Double)
    ensures
        0 <= a.truncated() <= u64::MAX,
        a.is_at_most(b) ==> a.truncated() <= b.truncated(),
{
    let unit = pow2(1074) as int;
    lemma_magnitude_order(a.payload(), b.payload());
    lemma_magnitude_order(b.payload(), a.payload());
    vstd::arithmetic::power2::lemma_pow2_pos(1074);
    vstd::arithmetic::div_mod::lemma_div_pos_is_pos(crate::double::magnitude(a.payload()), unit);
    vstd::arithmetic::div_mod::lemma_div_pos_is_pos(crate::double::magnitude(b.payload()), unit);
    if a.is_at_most(b) && !a.is_negative() && !b.is_negative() {
        vstd::arithmetic::div_mod::lemma_div_is_ordered(a.scaled(), b.scaled(), unit);
    }
    if a.is_at_most(b) && !a.is_negative() && b.is_negative() {
        assert(a.scaled() == 0);
        vstd::arithmetic::div_mod::lemma_div_of0(unit);
    }
}

/// Every operation keeps what `wf` says.
pub proof fn law_wf_is_kept(
    s: Mortise,
    packet: Packet,
    rtt: RttSample,
    readings: Readings,
    bytes: u64,
    in_flight: u64,
    sending: bool,
    now: Span,
)
    requires
        s.wf(),
    ensures
        s.after_sent(packet, in_flight).wf(),
        (Mortise { ack_state: empty_ack(now), ..s }).wf(),
        s.after_ack(packet, rtt).wf(),
        s.after_loss(bytes, in_flight).wf(),
        (Mortise { unsent_bytes: bytes, ..s }).wf(),
        s.after_response(bytes, sending, now).wf(),
        s.after_end_ack().wf(),
        s.with_rates(readings).wf(),
        s.with_velocity(readings).wf(),
        s.after_model(readings).wf(),
{
}

/// Averaging keeps what `wf` says, and a sample that the application did not
/// limit leaves between one residual and the most that are kept.
pub proof fn law_residuals_are_bounded(s: Mortise, sample: RateSample, clock: Span, after: Mortise)
    requires
        s.wf(),
        s.averages_to(sample, clock, after),
    ensures
        after.wf(),
        !sample.app_limited ==> 1 <= after.rate_residuals@.len() <= RESIDUALS,
{
}

/// Bytes counted in slow start are among the bytes counted in total: no event
/// changes that.
pub open spec fn slow_start_is_part(stats: CongestionStats) -> bool {
    &&& stats.bytes_acked_in_slow_start <= stats.bytes_acked_in_total
    &&& stats.bytes_lost_in_slow_start <= stats.bytes_lost_in_total
}

/// Totals never fall, and bytes counted in slow start stay among the bytes
/// counted in total.
pub proof fn law_totals_grow(
    s: Mortise,
    packet: Packet,
    rtt: RttSample,
    lost_bytes: u64,
    in_flight: u64,
)
    requires
        slow_start_is_part(s.stats),
    ensures
        slow_start_is_part(s.after_sent(packet, in_flight).stats),
        slow_start_is_part(s.after_ack(packet, rtt).stats),
        slow_start_is_part(s.after_loss(lost_bytes, in_flight).stats),
        s.after_sent(packet, in_flight).stats.bytes_sent_in_total >= s.stats.bytes_sent_in_total,
        s.after_ack(packet, rtt).stats.bytes_acked_in_total >= s.stats.bytes_acked_in_total,
        s.after_loss(lost_bytes, in_flight).stats.bytes_lost_in_total
            >= s.stats.bytes_lost_in_total,
{
}

/// In which order two packets of an acknowledgement are recorded makes no
/// difference but for the smoothed round trip, which is that of the packet
/// recorded last. The latest round trips must be longer than nothing: an empty
/// one counts as none.
pub proof fn law_ack_order(s: Mortise, p: Packet, q: Packet, r: RttSample, t: RttSample)
    requires
        r.latest_rtt.nanos > 0,
        t.latest_rtt.nanos > 0,
    ensures
        ({
            let one = s.after_ack(p, r).after_ack(q, t);
            let other = s.after_ack(q, t).after_ack(p, r);
            &&& one.stats == other.stats
            &&& one == Mortise {
                ack_state: AckState {
                    last_srtt: t.smoothed_rtt,
                    ..other.ack_state
                },
                ..other
            }
        }),
{
}

/// The state once all of `acks` are recorded, the first one first.
pub open spec fn after_acks(s: Mortise, acks: Seq<(Packet, RttSample)>) -> Mortise
    decreases acks.len(),
{
    if acks.len() == 0 {
        s
    } else {
        after_acks(s, acks.drop_last()).after_ack(acks.last().0, acks.last().1)
    }
}

/// The bytes of all packets of `acks`.
pub open spec fn bytes_of(acks: Seq<(Packet, RttSample)>) -> int
    decreases acks.len(),
{
    if acks.len() == 0 {
        0
    } else {
        bytes_of(acks.drop_last()) + acks.last().0.sent_size
    }
}

/// An acknowledgement adds up the bytes of its packets, as far as 64 bits hold
/// them; of its packet numbers it keeps the largest, of its round trips the
/// shortest, and of the smoothed ones the last. The latest round trips must be
/// longer than nothing: an empty one counts as none.
pub proof fn law_ack_adds_up(s: Mortise, now: Span, acks: Seq<(Packet, RttSample)>)
    requires
        s.ack_state == empty_ack(now),
        acks.len() > 0,
        forall|i: int| 0 <= i < acks.len() ==> (#[trigger] acks[i]).1.latest_rtt.nanos > 0,
    ensures
        ({
            let after = after_acks(s, acks);
            let bytes = bytes_of(acks);
            let state = after.ack_state;
            &&& state.now == now
            &&& state.newly_acked_bytes == if bytes > u64::MAX {
                u64::MAX as int
            } else {
                bytes
            }
            &&& after.stats.bytes_acked_in_total == if s.stats.bytes_acked_in_total + bytes
                > u64::MAX {
                u64::MAX as int
            } else {
                s.stats.bytes_acked_in_total + bytes
            }
            &&& forall|i: int|
                0 <= i < acks.len() ==> (#[trigger] acks[i]).0.pkt_num
                    <= state.largest_acked_pkt_num && state.min_rtt.nanos
                    <= acks[i].1.latest_rtt.nanos
            &&& exists|i: int|
                0 <= i < acks.len() && (#[trigger] acks[i]).0.pkt_num
                    == state.largest_acked_pkt_num
            &&& exists|i: int|
                0 <= i < acks.len() && (#[trigger] acks[i]).1.latest_rtt == state.min_rtt
            &&& state.last_srtt == acks.last().1.smoothed_rtt
            &&& bytes >= 0
        }),
    decreases acks.len(),
{
    let front = acks.drop_last();
    let last = acks.len() - 1;
    assert(acks[last] == acks.last());
    if front.len() == 0 {
        assert(after_acks(s, front) == s);
        assert(bytes_of(front) == 0);
    } else {
        assert forall|i: int| 0 <= i < front.len() implies (
        #[trigger] front[i]).1.latest_rtt.nanos > 0 by {
            assert(front[i] == acks[i]);
        }
        law_ack_adds_up(s, now, front);
        let before = after_acks(s, front).ack_state;
        let j = choose|i: int|
            0 <= i < front.len() && (#[trigger] front[i]).0.pkt_num == before.largest_acked_pkt_num;
        let k = choose|i: int|
            0 <= i < front.len() && (#[trigger] front[i]).1.latest_rtt == before.min_rtt;
        assert(acks[j] == front[j]);
        assert(acks[k] == front[k]);
        assert forall|i: int| 0 <= i < acks.len() implies (#[trigger] acks[i]).0.pkt_num
            <= after_acks(s, acks).ack_state.largest_acked_pkt_num && after_acks(
            s,
            acks,
        ).ack_state.min_rtt.nanos <= acks[i].1.latest_rtt.nanos by {
            if i < last {
                assert(front[i] == acks[i]);
            }
        }
    }
}

/// What is lost or acknowledged counts towards the round that runs, byte for
/// byte.
pub proof fn law_round_counts(
    s: Mortise,
    packet: Packet,
    rtt: RttSample,
    lost_bytes: u64,
    in_flight: u64,
)
    requires
        s.round.last_total_lost_bytes <= s.stats.bytes_lost_in_total,
        s.round.last_total_acked_bytes <= s.stats.bytes_acked_in_total,
        s.stats.bytes_lost_in_total + lost_bytes <= u64::MAX,
        s.stats.bytes_acked_in_total + packet.sent_size <= u64::MAX,
    ensures
        s.after_loss(lost_bytes, in_flight).lost_in_round() == s.lost_in_round() + lost_bytes,
        s.after_ack(packet, rtt).acked_in_round() == s.acked_in_round() + packet.sent_size,
{
}

/// A round starts from nothing, and ends no sooner than with the packet that was
/// sent last when it started.
pub proof fn law_rounds(s: Mortise, later: Mortise)
    requires
        s.ends_round(),
        later.round.round_end_pkt_num == s.next_round().round_end_pkt_num,
        later.ack_state.largest_acked_pkt_num < s.last_sent_pkt_num,
    ensures
        (Mortise { round: s.next_round(), ..s }).lost_in_round() == 0,
        (Mortise { round: s.next_round(), ..s }).acked_in_round() == 0,
        !later.ends_round(),
        !later.next_round().is_round_start,
        later.next_round().round_count == later.round.round_count,
        later.next_round().loss_rate == later.round.loss_rate,
{
}

/// That a response begins and is done leaves the responses under way as they
/// were, and one more in total.
pub proof fn law_response_is_undone(s: Mortise, bytes: u64, now: Span, later: Span)
    requires
        s.counts_response(bytes, true),
    ensures
        s.after_response(bytes, true, now).counts_response(bytes, false),
        s.after_response(bytes, true, now).after_response(bytes, false, later) == (Mortise {
            total_resp_cnts: (s.total_resp_cnts + 1) as u64,
            recent_resp_time: now,
            ..s
        }),
{
}

/// Slow start ends with the first acknowledgement after which the window is to
/// shrink, and never begins again.
pub proof fn law_slow_start_ends(s: Mortise, readings: Readings)
    ensures
        s.after_model(readings).slow_start == (s.slow_start && s.with_rates(
            readings,
        ).increase_cwnd),
        !s.slow_start ==> !s.after_model(readings).slow_start,
{
}

/// While slow start goes on, the window grows by what is acknowledged: it doubles
/// where that is a whole window.
pub proof fn law_slow_start_doubles(s: Mortise, readings: Readings)
    requires
        s.slow_start,
        s.with_rates(readings).increase_cwnd,
        s.cwnd + s.ack_state.newly_acked_bytes <= u64::MAX,
    ensures
        s.after_model(readings).cwnd == s.cwnd + s.ack_state.newly_acked_bytes,
        s.ack_state.newly_acked_bytes == s.cwnd ==> s.after_model(readings).cwnd == 2 * s.cwnd,
{
}

/// The window moves as it is meant to: it does not fall while it is to grow, and
/// while it is to shrink it does not rise but to the minimal window, which takes
/// the place of an empty one.
pub proof fn law_window_follows_target(s: Mortise, readings: Readings)
    ensures
        ({
            let after = s.after_model(readings);
            &&& after.increase_cwnd == (after.target_rate >= s.rate_of_window(
                readings.standing_rtt,
            ))
            &&& after.increase_cwnd ==> after.cwnd >= s.cwnd
            &&& !after.increase_cwnd ==> after.cwnd <= s.cwnd || after.cwnd == s.config.min_cwnd
        }),
{
    assert forall|x: Double| 0 <= #[trigger] x.truncated() <= u64::MAX by {
        law_truncation(x, x);
    }
}

/// The window is never empty, as long as it was not and the minimal one is not.
pub proof fn law_window_is_not_empty(s: Mortise, readings: Readings)
    requires
        s.config.min_cwnd > 0,
        s.cwnd > 0,
    ensures
        s.after_model(readings).cwnd > 0,
{
}

/// Without a queueing delay the window is to grow, and the target rate is the
/// rate at which it is used up.
pub proof fn law_empty_queue_grows_window(s: Mortise, readings: Readings)
    requires
        s.queueing_delay(readings).nanos == 0,
    ensures
        s.with_rates(readings).increase_cwnd,
        s.after_mode().target(readings) == s.rate_of_window(readings.standing_rtt),
{
}

/// The velocity grows only where the window keeps its direction, is meant to keep
/// it, and has kept it for more than three rounds; and then it at most doubles.
pub proof fn law_velocity_grows_late(s: Mortise)
    requires
        s.wf(),
        s.next_velocity().velocity > s.velocity.velocity,
    ensures
        s.moves(),
        s.keeps_course(),
        s.next_velocity().same_direction_cnt > SPEED_UP_THRESHOLD,
        s.next_velocity().velocity <= 2 * s.velocity.velocity,
{
}

/// After a turn of the window the velocity stays at 1 for the three rounds that
/// follow, and doubles in the fourth where the direction is kept.
pub proof fn law_velocity_after_turn(
    turn: Mortise,
    a: Mortise,
    b: Mortise,
    c: Mortise,
    d: Mortise,
)
    requires
        turn.moves(),
        turn.moved() != turn.velocity.direction,
        a.velocity == turn.next_velocity(),
        a.moves(),
        b.velocity == a.next_velocity(),
        b.moves(),
        c.velocity == b.next_velocity(),
        c.moves(),
        d.velocity == c.next_velocity(),
        d.moves(),
        a.keeps_course(),
        b.keeps_course(),
        c.keeps_course(),
        d.keeps_course(),
    ensures
        a.velocity.velocity == 1,
        b.velocity.velocity == 1,
        c.velocity.velocity == 1,
        d.velocity.velocity == 1,
        d.next_velocity().velocity == 2,
{
}

/// A window that keeps its course after a turn is moved with a velocity that
/// doubles with every round from the fourth on: `trace` holds the states in which
/// the velocity is updated, and its first one follows the turn.
pub proof fn law_velocity_is_exponential(trace: Seq<Mortise>, n: nat)
    requires
        n < trace.len(),
        trace[0].velocity.velocity == 1,
        trace[0].velocity.same_direction_cnt == 0,
        trace.len() < u64::MAX,
        forall|i: int| 0 <= i < trace.len() ==> (#[trigger] trace[i]).moves(),
        forall|i: int| 0 <= i < trace.len() ==> (#[trigger] trace[i]).keeps_course(),
        forall|i: int, j: int|
            0 <= i && j == i + 1 && j < trace.len() ==> (#[trigger] trace[j]).velocity == (
            #[trigger] trace[i]).next_velocity(),
    ensures
        trace[n as int].velocity.same_direction_cnt == n,
        n <= 3 ==> trace[n as int].velocity.velocity == 1,
        n >= 3 ==> trace[n as int].velocity.velocity == if pow2((n - 3) as nat) > u64::MAX {
            u64::MAX as int
        } else {
            pow2((n - 3) as nat) as int
        },
    decreases n,
{
    lemma2_to64();
    if n > 0 {
        let m = (n - 1) as nat;
        law_velocity_is_exponential(trace, m);
        assert(trace[n as int].velocity == trace[m as int].next_velocity());
        assert(trace[m as int].moves() && trace[m as int].keeps_course());
        if n > 3 {
            lemma_pow2_unfold((n - 3) as nat);
        }
    }
}

/// Between the starts of rounds, and while slow start grows the window, the
/// velocity and what goes with it are left as they are.
pub proof fn law_velocity_rests(s: Mortise, min_rtt: u64)
    requires
        !s.uses_velocity() || (s.velocity.last_cwnd != 0 && !s.round.is_round_start),
    ensures
        s.after_velocity(min_rtt) == s,
{
}

/// In competitive mode delta is at most a half; in default mode it is the one
/// configured. A round in which nothing was lost or acknowledged has no loss
/// rate, and leads to default mode.
pub proof fn law_mode(s: Mortise)
    ensures
        s.after_mode().mode == CompetingMode::Competitive ==> s.after_mode().delta.is_at_most(
            number(MAX_DELTA),
        ),
        s.after_mode().mode == CompetingMode::Default ==> s.after_mode().delta == (
        if s.slow_start {
            s.config.slow_start_delta
        } else {
            s.config.steady_delta
        }),
        s.round.loss_rate.is_nan() ==> s.after_mode().mode == CompetingMode::Default,
{
}

/// The predictive rule keeps delta in steady state at most at a half after a
/// lossy round, and otherwise not below the lower bound nor below its floor, but
/// for a probe, which is at most at its own bound.
pub proof fn law_steady_delta_is_bounded(s: Mortise, min_rtt: u64)
    ensures
        ({
            let after = s.after_predic(min_rtt);
            if s.is_lossy() {
                &&& after.config.steady_delta.is_at_most(number(MAX_DELTA))
                &&& after.min_delta == after.config.steady_delta
            } else {
                &&& number(PREDICTIVE_FLOOR).is_at_most(after.min_delta)
                &&& number(PREDICTIVE_FLOOR).is_at_most(after.config.steady_delta)
                &&& s.is_swollen() ==> after.config.steady_delta.is_at_most(
                    number(PROBE_MAX_DELTA),
                )
                &&& !s.is_swollen() ==> after.config.steady_delta == after.min_delta
            }
        }),
{
    law_numbers();
    lemma_magnitude_order(PREDICTIVE_FLOOR as int, PROBE_MAX_DELTA as int);
}

/// `best` is the delta and score of candidate `i`, and no candidate before it
/// scores as low.
pub open spec fn is_first(candidates: Seq<Candidate>, best: (Double, Double), i: int) -> bool {
    &&& 0 <= i < candidates.len()
    &&& best == (candidates[i].delta, candidates[i].score)
    &&& forall|j: int| 0 <= j < i ==> !(#[trigger] candidates[j]).score.is_at_most(best.1)
}

/// `best` is the delta and score of candidate `i`, and no candidate after it scores
/// as high.
pub open spec fn is_last(candidates: Seq<Candidate>, best: (Double, Double), i: int) -> bool {
    &&& 0 <= i < candidates.len()
    &&& best == (candidates[i].delta, candidates[i].score)
    &&& forall|j: int|
        i < j < candidates.len() ==> !best.1.is_at_most((#[trigger] candidates[j]).score)
}

/// No candidate scores lower than the one that the predictive rule finds best. That
/// one is among the candidates, and the first with its score, unless none scores
/// below the largest finite number.
pub proof fn law_lowest_is_lowest(candidates: Seq<Candidate>, start: Double)
    ensures
        ({
            let best = lowest(candidates, start);
            &&& forall|i: int|
                0 <= i < candidates.len() ==> !(#[trigger] candidates[i]).score.is_below(best.1)
            &&& best == (start, number(LARGEST)) || exists|i: int| #[trigger]
                is_first(candidates, best, i)
            &&& !best.1.is_nan()
        }),
    decreases candidates.len(),
{
    if candidates.len() > 0 {
        let front = candidates.drop_last();
        law_lowest_is_lowest(front, start);
        let best = lowest(candidates, start);
        assert forall|i: int| 0 <= i < candidates.len() implies !(
        #[trigger] candidates[i]).score.is_below(best.1) by {
            if i < front.len() {
                assert(front[i] == candidates[i]);
            }
        }
        if !candidates.last().score.is_below(lowest(front, start).1) {
            if best != (start, number(LARGEST)) {
                let i = choose|i: int| #[trigger] is_first(front, best, i);
                assert forall|j: int| 0 <= j < i implies !(
                #[trigger] candidates[j]).score.is_at_most(best.1) by {
                    assert(front[j] == candidates[j]);
                }
                assert(is_first(candidates, best, i));
            }
        } else {
            assert forall|j: int| 0 <= j < front.len() implies !(
            #[trigger] candidates[j]).score.is_at_most(best.1) by {
                assert(front[j] == candidates[j]);
            }
            assert(is_first(candidates, best, candidates.len() - 1));
        }
    }
}

/// No candidate scores higher than the one that the current rule finds best. That
/// one is among the candidates, and the last with its score, unless none scores as
/// high as the lowest finite number.
pub proof fn law_highest_is_highest(candidates: Seq<Candidate>, start: Double)
    ensures
        ({
            let best = highest(candidates, start);
            &&& forall|i: int|
                0 <= i < candidates.len() ==> !best.1.is_below((#[trigger] candidates[i]).score)
            &&& best == (start, number(LOWEST)) || exists|i: int| #[trigger]
                is_last(candidates, best, i)
            &&& !best.1.is_nan()
        }),
    decreases candidates.len(),
{
    if candidates.len() > 0 {
        let front = candidates.drop_last();
        law_highest_is_highest(front, start);
        let best = highest(candidates, start);
        assert forall|i: int| 0 <= i < candidates.len() implies !best.1.is_below(
            (#[trigger] candidates[i]).score,
        ) by {
            if i < front.len() {
                assert(front[i] == candidates[i]);
            }
        }
        if !highest(front, start).1.is_at_most(candidates.last().score) {
            if best != (start, number(LOWEST)) {
                let i = choose|i: int| #[trigger] is_last(front, best, i);
                assert forall|j: int| i < j < candidates.len() implies !best.1.is_at_most(
                    (#[trigger] candidates[j]).score,
                ) by {
                    if j < front.len() {
                        assert(front[j] == candidates[j]);
                    }
                }
                assert(is_last(candidates, best, i));
            }
        } else {
            assert(is_last(candidates, best, candidates.len() - 1));
        }
    }
}

/// The target rate is bounced in at most seven of eight intervals: not in those
/// whose number is a multiple of eight, nor while the window rises.
pub proof fn law_bounce_is_left_out(s: Mortise)
    ensures
        s.intervals_cnt % 8 == 0 ==> !s.bounces(),
        s.velocity.direction == Direction::Up ==> !s.bounces(),
{
}

} // verus!
