//! How the parts of an acknowledgement follow on each other: what each one goes by.

use crate::acks::{Packet, RttSample};
use crate::arith::{closest, prod, quot, whole};
use crate::double::{lemma_magnitude_order, magnitude, Double, FRACTION_UNIT, INFINITY_BITS};
use crate::events::least;
use crate::laws::law_truncation;
use crate::model::{ModelReport, OutOfRange, Readings};
use crate::near::lemma_integer_near;
use crate::numbers::law_numbers;
use crate::order::{lemma_closest_exact, lemma_measure_order};
use crate::quantities::{is_weight, law_rates, lemma_weight};
use crate::rounding::{lemma_nearest_exact, signed};
use crate::span::Span;
use crate::state::{empty_ack, Direction, Mortise, Velocity};
use vstd::arithmetic::div_mod::lemma_div_multiples_vanish;
use vstd::arithmetic::mul::lemma_mul_is_commutative;
use vstd::arithmetic::power2::{
    lemma2_to64, lemma_pow2_adds, lemma_pow2_pos, lemma_pow2_strictly_increases, pow2,
};
use vstd::prelude::*;

verus! {

/// Mode and delta are set first. The target rate goes by the new delta, and the window is
/// to grow by the new target rate. The velocity goes by whether it is, and by the window
/// before it moves. The window then moves by the new velocity, and by the delta of this
/// acknowledgement even where an interval begins. Nothing else is touched.
pub proof fn law_model(s: Mortise, readings: Readings)
    ensures
        ({
            let after = s.after_model(readings);
            let settled = Mortise { mode: after.mode, delta: after.delta, ..s };
            let rated = Mortise {
                target_rate: after.target_rate,
                increase_cwnd: after.increase_cwnd,
                ..settled
            };
            let turned = Mortise { velocity: rated.next_velocity(), ..rated };
            let chosen = rated.after_velocity(readings.min_rtt);
            &&& after.mode == s.after_mode().mode
            &&& after.delta == s.after_mode().delta
            &&& after.target_rate == settled.target(readings)
            &&& after.increase_cwnd == (after.target_rate >= s.rate_of_window(
                readings.standing_rtt,
            ))
            &&& after.intervals_cnt == chosen.intervals_cnt
            &&& after.config == chosen.config
            &&& after.min_delta == chosen.min_delta
            &&& after.cwnd == turned.after_cwnd().cwnd
            &&& after.slow_start == turned.after_cwnd().slow_start
            &&& after.velocity == turned.after_cwnd().velocity
            &&& after == Mortise {
                slow_start: after.slow_start,
                cwnd: after.cwnd,
                velocity: after.velocity,
                intervals_cnt: after.intervals_cnt,
                min_delta: after.min_delta,
                config: after.config,
                ..rated
            }
        }),
{
    law_rates(s.after_mode(), readings);
}

/// The update is stopped by the count of intervals where one begins and 64 bits count no
/// more, and otherwise by the step of the window where it does not fit in 64 bits. What
/// comes before is kept.
pub proof fn law_out_of_range(s: Mortise, readings: Readings)
    ensures
        ({
            let rated = s.with_rates(readings);
            let velocity = rated.next_velocity().velocity;
            let acked = s.ack_state.newly_acked_bytes;
            let begins = !(s.slow_start && rated.increase_cwnd) && s.velocity.last_cwnd != 0
                && s.round.is_round_start && s.velocity.direction == Direction::Down && s.cwnd
                > s.velocity.last_cwnd;
            let fits = (s.slow_start && rated.increase_cwnd) || (velocity * acked <= u64::MAX
                && velocity * acked * s.config.max_datagram_size <= u64::MAX);
            let last = begins && s.intervals_cnt == u64::MAX;
            &&& (s.out_of_range(readings) == Some(OutOfRange::Intervals)) == last
            &&& (s.out_of_range(readings) == Some(OutOfRange::WindowStep)) == (!last && !fits)
            &&& (s.out_of_range(readings) == None::<OutOfRange>) == (!last && fits)
            &&& rated == Mortise {
                mode: s.after_mode().mode,
                delta: s.after_mode().delta,
                target_rate: rated.target_rate,
                increase_cwnd: rated.increase_cwnd,
                ..s
            }
            &&& s.with_velocity(readings) == rated.after_velocity(readings.min_rtt)
        }),
{
    law_rates(s.after_mode(), readings);
}

/// The report tells the rate at which the window was used up, the queueing delay, and
/// whether the target rate was bounced; and how delta was set exactly where an interval
/// began.
pub proof fn law_model_report(s: Mortise, readings: Readings, clock: Span, report: ModelReport)
    requires
        s.tells_model(readings, clock, report),
    ensures
        report.rates.current_rate == s.rate_of_window(readings.standing_rtt),
        report.rates.queueing_delay == s.queueing_delay(readings),
        report.rates.bounced ==> report.rates.bounceable,
        report.rates.bounceable == (s.queueing_delay(readings).nanos > 0
            && s.after_mode().delta.is_below(closest(2, 10))
            && s.velocity.direction == Direction::Down),
        report.rates.bounced == (report.rates.bounceable && s.intervals_cnt % 8 != 0),
        (report.delta is Some) == s.with_rates(readings).begins_interval(),
        report.delta matches Some(told) ==> s.with_rates(readings).tells_predic(
            readings.min_rtt,
            clock,
            told,
        ),
{
    law_numbers();
    law_rates(s.after_mode(), readings);
}

/// While slow start grows the window, it grows by what was acknowledged, whatever delta
/// and velocity are.
pub proof fn law_slow_start_grows(s: Mortise)
    requires
        s.slow_start,
        s.increase_cwnd,
    ensures
        s.after_cwnd() == (Mortise {
            cwnd: least(s.cwnd + s.ack_state.newly_acked_bytes, u64::MAX as int) as u64,
            ..s
        }),
{
}

/// Infinity is cut off at what 64 bits hold.
proof fn lemma_infinity_is_large(x: Double)
    requires
        !x.is_negative(),
        x.is_infinite(),
    ensures
        x.truncated() == u64::MAX,
{
    let (w, p) = (pow2(1074) as int, pow2(972) as int);
    lemma_pow2_pos(1074);
    lemma_pow2_pos(972);
    lemma_pow2_adds(1074, 972);
    lemma2_to64();
    lemma_pow2_strictly_increases(64, 972);
    assert(INFINITY_BITS as int / FRACTION_UNIT as int == 2047);
    assert(x.scaled() == FRACTION_UNIT * (w * p));
    assert(FRACTION_UNIT * (w * p) == (FRACTION_UNIT * p) * w) by (nonlinear_arith);
    lemma_div_multiples_vanish(FRACTION_UNIT * p, w);
    lemma_mul_is_commutative(FRACTION_UNIT * p, w);
}

/// An empty window grows without bound where anything was acknowledged, and otherwise
/// makes way for the minimal one, as it does where it is to shrink.
pub proof fn law_empty_window(s: Mortise)
    requires
        is_weight(s.delta),
        s.cwnd == 0,
        !(s.slow_start && s.increase_cwnd),
        s.velocity.velocity * s.ack_state.newly_acked_bytes * s.config.max_datagram_size
            <= u64::MAX,
    ensures
        ({
            let after = s.after_cwnd();
            let product = s.velocity.velocity * s.ack_state.newly_acked_bytes
                * s.config.max_datagram_size;
            if s.increase_cwnd && product > 0 {
                after.cwnd == u64::MAX && after.velocity == s.velocity
            } else {
                after.cwnd == s.config.min_cwnd && after.velocity == Velocity {
                    velocity: 1,
                    ..s.velocity
                }
            }
        }),
{
    let w = pow2(1074) as int;
    let product = s.step_product();
    let zero = whole(0);
    let (m, a) = (prod(s.delta, zero), whole(product as u64));
    assert(0 <= product) by (nonlinear_arith)
        requires
            product == s.velocity.velocity * s.ack_state.newly_acked_bytes
                * s.config.max_datagram_size,
    ;
    lemma_pow2_pos(1074);
    lemma_weight(s.delta);
    lemma_closest_exact(0);
    assert(0 * w == 0);
    lemma_measure_order(zero, zero);
    lemma_magnitude_order(0, 0);
    let (x, y) = (magnitude(s.delta.payload()), magnitude(zero.payload()));
    assert(x * y == 0) by (nonlinear_arith)
        requires
            y == 0,
    ;
    lemma_nearest_exact(0, w, 0);
    assert(m.payload() == 0 && !m.is_negative());
    if product > 0 {
        lemma_integer_near(product);
        lemma_measure_order(a, a);
        let q = quot(a, m);
        assert(q == signed(false, INFINITY_BITS as int));
        lemma_infinity_is_large(q);
        law_truncation(q, q);
    }
}

/// What a connection goes through with one acknowledgement of one packet: the counters
/// move by the packet, and the round, the filters and the window go by what they then are.
pub proof fn law_acknowledgement(s: Mortise, now: Span, packet: Packet, rtt: RttSample)
    ensures
        ({
            let begun = Mortise { ack_state: empty_ack(now), ..s };
            let acked = begun.after_ack(packet, rtt);
            let ended = acked.after_end_ack();
            &&& ended.ack_state.now == now
            &&& ended.ack_state.newly_acked_bytes == packet.sent_size
            &&& ended.ack_state.largest_acked_pkt_num == packet.pkt_num
            &&& ended.round.is_round_start == (packet.pkt_num >= s.round.round_end_pkt_num)
            &&& rtt.latest_rtt.nanos > 0 ==> ended.ack_state.min_rtt == rtt.latest_rtt
            &&& ended.ack_state.last_srtt == rtt.smoothed_rtt
            &&& ended.cwnd == s.cwnd
            &&& ended.velocity == s.velocity
            &&& ended.delta == s.delta
        }),
{
}

} // verus!
