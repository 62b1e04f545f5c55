//! What each event does to the counters of a controller, in plain arithmetic on what
//! they held before.

use crate::acks::{Packet, RttSample};
use crate::arith::closest;
use crate::config::{configured, default_configured, MortiseConfig, Transport};
use crate::flow::framed;
use crate::measures::{law_loss_rate, law_loss_rate_is_share};
use crate::model::Readings;
use crate::numbers::law_numbers;
use crate::span::Span;
use crate::state::{empty_ack, AckState, CongestionStats, Direction, Mortise};
use vstd::prelude::*;

verus! {

/// The smaller of two integers.
pub open spec fn least(a: int, b: int) -> int {
    if a < b {
        a
    } else {
        b
    }
}

/// The larger of two integers.
pub open spec fn most(a: int, b: int) -> int {
    if a < b {
        b
    } else {
        a
    }
}

/// A microsecond has a thousand nanoseconds, and of the microseconds in a span the whole
/// ones are counted. What is later than a point in time is later by the difference.
pub proof fn law_spans(a: Span, b: Span, micros: u64)
    ensures
        Span::of_micros(micros as int).nanos == 1_000 * micros,
        Span::of_micros(micros as int).micros() == micros,
        a.nanos < 0x1_0000_0000_0000_0000 * 1_000 ==> 1_000 * a.micros() <= a.nanos < 1_000
            * a.micros() + 1_000,
        a.after(b).nanos == most(a.nanos - b.nanos, 0),
        a.longer(b).nanos == most(a.nanos as int, b.nanos as int),
{
}

/// A configuration holds the windows that it is given, deltas of 0.4, and the flag;
/// the default one has windows of 4 and 80 payloads.
pub proof fn law_configuration(
    min_cwnd: u64,
    initial_cwnd: u64,
    initial_rtt: Option<Span>,
    max_datagram_size: u64,
    transport: Transport,
)
    ensures
        ({
            let c = configured(min_cwnd, initial_cwnd, initial_rtt, max_datagram_size);
            &&& c.min_cwnd == min_cwnd
            &&& c.initial_cwnd == initial_cwnd
            &&& c.initial_rtt == initial_rtt
            &&& c.max_datagram_size == max_datagram_size
            &&& c.slow_start_delta == closest(4, 10)
            &&& c.steady_delta == closest(4, 10)
            &&& c.use_standing_rtt
        }),
        80 * transport.send_udp_payload_size <= u64::MAX ==> ({
            let c = default_configured(transport);
            &&& c.min_cwnd == 4 * transport.send_udp_payload_size
            &&& c.initial_cwnd == 80 * transport.send_udp_payload_size
            &&& c.initial_rtt == Some(transport.initial_rtt)
            &&& c.max_datagram_size == transport.send_udp_payload_size
            &&& c.slow_start_delta == closest(4, 10)
            &&& c.steady_delta == closest(4, 10)
            &&& c.use_standing_rtt
        }),
{
    law_numbers();
}

/// Sending adds the size of the packet to what was sent, as far as 64 bits hold it,
/// takes over the packet number and the bytes in flight, and changes nothing else.
pub proof fn law_sending(s: Mortise, packet: Packet, in_flight: u64)
    ensures
        ({
            let after = s.after_sent(packet, in_flight);
            &&& after.stats.bytes_sent_in_total == least(
                s.stats.bytes_sent_in_total + packet.sent_size,
                u64::MAX as int,
            )
            &&& after.stats.bytes_in_flight == in_flight
            &&& after.last_sent_pkt_num == packet.pkt_num
            &&& after.stats == CongestionStats {
                bytes_sent_in_total: after.stats.bytes_sent_in_total,
                bytes_in_flight: after.stats.bytes_in_flight,
                ..s.stats
            }
            &&& after == Mortise {
                stats: after.stats,
                last_sent_pkt_num: after.last_sent_pkt_num,
                ..s
            }
        }),
{
}

/// An acknowledgement that begins has brought nothing but its time.
pub proof fn law_beginning(now: Span)
    ensures
        empty_ack(now).now == now,
        empty_ack(now).newly_acked_bytes == 0,
        empty_ack(now).newly_lost_bytes == 0,
        empty_ack(now).largest_acked_pkt_num == 0,
        empty_ack(now).min_rtt.nanos == 0,
        empty_ack(now).last_srtt.nanos == 0,
{
}

/// An acknowledged packet takes its size from what is in flight and adds it to what
/// is acknowledged, in slow start also to what is acknowledged there. Of packet
/// numbers the larger is kept, of round trips the shorter unless there was none, and
/// of smoothed ones the latter.
pub proof fn law_acknowledging(s: Mortise, packet: Packet, rtt: RttSample)
    ensures
        ({
            let after = s.after_ack(packet, rtt);
            let size = packet.sent_size as int;
            let top = u64::MAX as int;
            &&& after.stats.bytes_in_flight == most(s.stats.bytes_in_flight - size, 0)
            &&& after.stats.bytes_acked_in_total == least(s.stats.bytes_acked_in_total + size, top)
            &&& after.stats.bytes_acked_in_slow_start == if s.slow_start {
                least(s.stats.bytes_acked_in_slow_start + size, top)
            } else {
                s.stats.bytes_acked_in_slow_start as int
            }
            &&& after.ack_state.newly_acked_bytes == least(
                s.ack_state.newly_acked_bytes + size,
                top,
            )
            &&& after.ack_state.largest_acked_pkt_num == most(
                s.ack_state.largest_acked_pkt_num as int,
                packet.pkt_num as int,
            )
            &&& after.ack_state.last_srtt == rtt.smoothed_rtt
            &&& after.ack_state.min_rtt.nanos == if s.ack_state.min_rtt.nanos == 0 {
                rtt.latest_rtt.nanos as int
            } else {
                least(s.ack_state.min_rtt.nanos as int, rtt.latest_rtt.nanos as int)
            }
            &&& after.ack_state.now == s.ack_state.now
            &&& after.ack_state.newly_lost_bytes == s.ack_state.newly_lost_bytes
            &&& after.stats.bytes_sent_in_total == s.stats.bytes_sent_in_total
            &&& after.stats.bytes_lost_in_total == s.stats.bytes_lost_in_total
            &&& after.stats.bytes_lost_in_slow_start == s.stats.bytes_lost_in_slow_start
            &&& after == Mortise { stats: after.stats, ack_state: after.ack_state, ..s }
        }),
{
}

/// Lost bytes add to what was lost, in slow start also to what was lost there, and
/// the bytes in flight are taken over.
pub proof fn law_losing(s: Mortise, lost_bytes: u64, in_flight: u64)
    ensures
        ({
            let after = s.after_loss(lost_bytes, in_flight);
            let top = u64::MAX as int;
            &&& after.stats.bytes_lost_in_total == least(
                s.stats.bytes_lost_in_total + lost_bytes,
                top,
            )
            &&& after.stats.bytes_lost_in_slow_start == if s.slow_start {
                least(s.stats.bytes_lost_in_slow_start + lost_bytes, top)
            } else {
                s.stats.bytes_lost_in_slow_start as int
            }
            &&& after.stats.bytes_in_flight == in_flight
            &&& after.stats == CongestionStats {
                bytes_lost_in_total: after.stats.bytes_lost_in_total,
                bytes_lost_in_slow_start: after.stats.bytes_lost_in_slow_start,
                bytes_in_flight: after.stats.bytes_in_flight,
                ..s.stats
            }
            &&& after == Mortise { stats: after.stats, ..s }
        }),
{
}

/// A response that begins or is done counts as one, and as a large one where it has
/// more than 50000 bytes; one that begins also counts in total, and its time is kept.
/// It is counted exactly where every counter stays in range.
pub proof fn law_responses(s: Mortise, bytes: u64, sending: bool, now: Span)
    ensures
        ({
            let one = if sending {
                1int
            } else {
                -1int
            };
            let large = if bytes > 50_000 {
                one
            } else {
                0
            };
            let after = s.after_response(bytes, sending, now);
            &&& s.counts_response(bytes, sending) == (0 <= s.sending_resp + one <= u64::MAX && 0
                <= s.sending_large_resp + large <= u8::MAX && (sending ==> s.total_resp_cnts + 1
                <= u64::MAX))
            &&& s.counts_response(bytes, sending) ==> {
                &&& after.sending_resp == s.sending_resp + one
                &&& after.sending_large_resp == s.sending_large_resp + large
                &&& after.total_resp_cnts == if sending {
                    s.total_resp_cnts + 1
                } else {
                    s.total_resp_cnts as int
                }
                &&& after.recent_resp_time == if sending {
                    now
                } else {
                    s.recent_resp_time
                }
            }
            &&& after == Mortise {
                sending_resp: after.sending_resp,
                sending_large_resp: after.sending_large_resp,
                total_resp_cnts: after.total_resp_cnts,
                recent_resp_time: after.recent_resp_time,
                ..s
            }
        }),
{
}

/// An acknowledgement that does not cover the packet that ends the round leaves the
/// round as it is; one that does starts the next, which is counted, begins with the
/// totals of now, and ends with the packet sent last.
pub proof fn law_round_ends(s: Mortise)
    ensures
        ({
            let after = s.next_round();
            let covered = s.ack_state.largest_acked_pkt_num >= s.round.round_end_pkt_num;
            &&& after.is_round_start == covered
            &&& covered ==> {
                &&& after.round_count == least(s.round.round_count + 1, u64::MAX as int)
                &&& after.round_end_pkt_num == s.last_sent_pkt_num
                &&& after.last_total_acked_bytes == s.stats.bytes_acked_in_total
                &&& after.last_total_lost_bytes == s.stats.bytes_lost_in_total
            }
            &&& !covered ==> {
                &&& after.round_count == s.round.round_count
                &&& after.round_end_pkt_num == s.round.round_end_pkt_num
                &&& after.last_total_acked_bytes == s.round.last_total_acked_bytes
                &&& after.last_total_lost_bytes == s.round.last_total_lost_bytes
                &&& after.loss_rate == s.round.loss_rate
            }
        }),
{
}

/// The loss rate of a round is the double closest to the share of lost bytes among
/// those lost and acknowledged since it started, as long as 53 bits count them.
pub proof fn law_loss_rate_of_round(s: Mortise)
    requires
        s.ack_state.largest_acked_pkt_num >= s.round.round_end_pkt_num,
        s.round.last_total_lost_bytes <= s.stats.bytes_lost_in_total,
        s.round.last_total_acked_bytes <= s.stats.bytes_acked_in_total,
    ensures
        ({
            let lost = s.stats.bytes_lost_in_total - s.round.last_total_lost_bytes;
            let acked = s.stats.bytes_acked_in_total - s.round.last_total_acked_bytes;
            let rate = s.next_round().loss_rate;
            &&& lost + acked == 0 ==> rate.is_nan()
            &&& 0 < lost + acked <= 0x20_0000_0000_0000 ==> rate == closest(lost, lost + acked)
        }),
{
    law_loss_rate_is_share(s);
    if 0 < s.lost_in_round() + s.acked_in_round() <= 0x20_0000_0000_0000 {
        law_loss_rate(s);
    }
}

/// A round ends with the first acknowledgement that covers the packet that was sent
/// last when it started, whatever is sent, acknowledged or lost in between. `trace`
/// holds the states in which the round is updated, from its start on.
pub proof fn law_round_lasts(trace: Seq<Mortise>, n: int)
    requires
        0 < n < trace.len(),
        trace[0].ack_state.largest_acked_pkt_num >= trace[0].round.round_end_pkt_num,
        forall|i: int|
            0 < i < n ==> (#[trigger] trace[i]).ack_state.largest_acked_pkt_num
                < trace[0].last_sent_pkt_num,
        forall|i: int, j: int|
            0 <= i && j == i + 1 && j < trace.len() ==> (#[trigger] trace[j]).round == (
            #[trigger] trace[i]).next_round(),
    ensures
        trace[n].round.round_end_pkt_num == trace[0].last_sent_pkt_num,
        trace[n].round.last_total_acked_bytes == trace[0].stats.bytes_acked_in_total,
        trace[n].round.last_total_lost_bytes == trace[0].stats.bytes_lost_in_total,
        trace[n].round.is_round_start == (n == 1),
        trace[n].round.round_count == least(trace[0].round.round_count + 1, u64::MAX as int),
        trace[n].next_round().is_round_start == (trace[n].ack_state.largest_acked_pkt_num
            >= trace[0].last_sent_pkt_num),
    decreases n,
{
    let before = trace[n - 1];
    assert(trace[n].round == before.next_round());
    if n > 1 {
        law_round_lasts(trace, n - 1);
    }
}

/// The filters are fed with the whole microseconds since the controller was made,
/// half the smoothed round trip, and the round trip that the acknowledgement brought
/// or else the smoothed one or else what is assumed, each in the lower 64 bits.
pub proof fn law_feeding(s: Mortise)
    ensures
        ({
            let feed = s.feed();
            let span = 0x1_0000_0000_0000_0000 * 1_000;
            let elapsed = most(s.ack_state.now.nanos - s.init_time.nanos, 0);
            let smoothed = s.ack_state.last_srtt.nanos as int;
            let rtt = s.after_feed().ack_state.min_rtt.nanos as int;
            &&& feed.time == (elapsed / 1_000) % 0x1_0000_0000_0000_0000
            &&& feed.window == ((smoothed / 1_000) % 0x1_0000_0000_0000_0000) / 2
            &&& feed.rtt == (rtt / 1_000) % 0x1_0000_0000_0000_0000
            &&& elapsed < span ==> 1_000 * feed.time <= elapsed < 1_000 * feed.time + 1_000
            &&& smoothed < span ==> 2_000 * feed.window <= smoothed < 2_000 * feed.window + 2_000
            &&& rtt < span ==> 1_000 * feed.rtt <= rtt < 1_000 * feed.rtt + 1_000
            &&& rtt == if s.ack_state.min_rtt.nanos > 0 {
                s.ack_state.min_rtt.nanos as int
            } else if smoothed > 0 {
                smoothed
            } else {
                match s.config.initial_rtt {
                    Some(assumed) => assumed.nanos as int,
                    None => 20_000_000,
                }
            }
            &&& s.after_feed() == Mortise {
                ack_state: AckState {
                    min_rtt: s.after_feed().ack_state.min_rtt,
                    ..s.ack_state
                },
                ..s
            }
        }),
{
}

/// A later acknowledgement does not feed an earlier time, and one that comes
/// microseconds later feeds a time so much later.
pub proof fn law_time_moves_on(s: Mortise, t: Mortise, micros: u64)
    requires
        s.init_time == t.init_time,
        s.init_time.nanos <= s.ack_state.now.nanos <= t.ack_state.now.nanos,
        t.ack_state.now.nanos - s.init_time.nanos < 0x1_0000_0000_0000_0000 * 1_000,
    ensures
        s.feed().time <= t.feed().time,
        t.ack_state.now.nanos == s.ack_state.now.nanos + 1_000 * micros ==> t.feed().time
            == s.feed().time + micros,
{
}

/// The end of an acknowledgement updates the round, and settles the round trip; the
/// feed is that of the state before.
pub proof fn law_ending(s: Mortise)
    ensures
        s.after_end_ack().round == s.next_round(),
        s.after_end_ack().ack_state == s.after_feed().ack_state,
        s.after_end_ack() == (Mortise {
            round: s.after_end_ack().round,
            ack_state: s.after_end_ack().ack_state,
            ..s
        }),
{
}

/// Each round, unless slow start grows the window, the window is compared with the
/// one recorded a round ago, and recorded anew. The direction is up exactly where it
/// is larger. The count of rounds in the same direction goes on or starts over. The
/// velocity doubles beyond three such rounds, and is 1 where the window turns or is
/// meant to turn.
pub proof fn law_velocity_update(s: Mortise)
    requires
        s.wf(),
        !(s.slow_start && s.increase_cwnd),
        s.velocity.last_cwnd != 0,
        s.round.is_round_start,
    ensures
        ({
            let (v, w) = (s.velocity, s.next_velocity());
            let up = s.cwnd > v.last_cwnd;
            let was_up = v.direction == Direction::Up;
            &&& w.last_cwnd == s.cwnd
            &&& (w.direction == Direction::Up) == up
            &&& w.same_direction_cnt == if up == was_up {
                least(v.same_direction_cnt + 1, u64::MAX as int)
            } else {
                0
            }
            &&& w.velocity == if up != was_up || s.increase_cwnd != was_up {
                1
            } else if v.same_direction_cnt + 1 > 3 {
                least(2 * v.velocity, u64::MAX as int)
            } else {
                v.velocity as int
            }
        }),
{
}

/// Over two updates in a row the direction is up exactly where the second window is
/// larger than the first, and an interval begins with the second exactly where the
/// window fell before and has risen since.
pub proof fn law_windows_are_compared(s: Mortise, t: Mortise)
    requires
        !(s.slow_start && s.increase_cwnd),
        s.velocity.last_cwnd != 0,
        s.round.is_round_start,
        s.cwnd > 0,
        t.velocity == s.next_velocity(),
        !(t.slow_start && t.increase_cwnd),
        t.round.is_round_start,
    ensures
        t.velocity.last_cwnd == s.cwnd,
        (t.next_velocity().direction == Direction::Up) == (t.cwnd > s.cwnd),
        t.begins_interval() == (t.cwnd > s.cwnd && s.cwnd <= s.velocity.last_cwnd),
        t.next_velocity().last_cwnd == t.cwnd,
{
}

/// The first update records the window, or the minimal one where that is larger, and
/// leaves the direction; a velocity that does not take part is left as it is.
pub proof fn law_velocity_starts(s: Mortise)
    ensures
        ({
            let (v, w) = (s.velocity, s.next_velocity());
            let aside = s.slow_start && s.increase_cwnd;
            &&& aside || (v.last_cwnd != 0 && !s.round.is_round_start) ==> w == v
            &&& !aside && v.last_cwnd == 0 ==> {
                &&& w.last_cwnd == most(s.cwnd as int, s.config.min_cwnd as int)
                &&& w.velocity == 1
                &&& w.same_direction_cnt == 0
                &&& w.direction == v.direction
            }
        }),
{
}

/// An interval begins where the velocity is updated, the window fell before and has
/// risen since the round before. It is counted, and delta in steady state and its
/// lower bound are set anew by the predictive rule. Nothing else is touched.
pub proof fn law_intervals(s: Mortise, min_rtt: u64)
    ensures
        ({
            let after = s.after_velocity(min_rtt);
            let begins = !(s.slow_start && s.increase_cwnd) && s.velocity.last_cwnd != 0
                && s.round.is_round_start && s.velocity.direction == Direction::Down && s.cwnd
                > s.velocity.last_cwnd;
            &&& s.begins_interval() == begins
            &&& after.velocity == s.next_velocity()
            &&& begins && s.intervals_cnt < u64::MAX ==> after.intervals_cnt == s.intervals_cnt + 1
            &&& begins ==> after.config.steady_delta == s.after_predic(min_rtt).config.steady_delta
                && after.min_delta == s.after_predic(min_rtt).min_delta
            &&& !begins ==> after == Mortise { velocity: after.velocity, ..s }
            &&& after == Mortise {
                velocity: after.velocity,
                intervals_cnt: after.intervals_cnt,
                min_delta: after.min_delta,
                config: MortiseConfig {
                    steady_delta: after.config.steady_delta,
                    ..s.config
                },
                ..s
            }
        }),
{
}

/// The standing round trip is what the filter reads, and before the first sample the
/// configured one, or that of the transport, but never less than a microsecond.
pub proof fn law_standing_round_trip(s: Mortise, reading: u64)
    ensures
        ({
            let assumed = match s.config.initial_rtt {
                Some(rtt) => rtt.nanos as int,
                None => s.transport.initial_rtt.nanos as int,
            };
            s.standing_rtt(reading).nanos == if reading > 0 {
                1_000 * reading
            } else {
                most(assumed, 1_000)
            }
        }),
{
}

/// The queueing delay is what the standing round trip is longer than the minimum.
pub proof fn law_queueing_delay(s: Mortise, readings: Readings)
    ensures
        s.queueing_delay(readings).nanos == most(
            s.standing_rtt(readings.standing_rtt).nanos - 1_000 * readings.min_rtt,
            0,
        ),
{
}

/// The window can be moved exactly where slow start grows it, or the products that the
/// step is made of fit in 64 bits.
pub proof fn law_step_fits(s: Mortise)
    ensures
        s.step_fits() == ((s.slow_start && s.increase_cwnd) || (s.velocity.velocity
            * s.ack_state.newly_acked_bytes <= u64::MAX && s.velocity.velocity
            * s.ack_state.newly_acked_bytes * s.config.max_datagram_size <= u64::MAX)),
{
}

/// A frame is the length of the message in four bytes, the highest first, and then
/// the message.
pub proof fn law_frame(message: Seq<u8>)
    ensures
        ({
            let frame = framed(message);
            &&& frame.len() == 4 + message.len()
            &&& message.len() < 0x1_0000_0000 ==> frame[0] * 0x100_0000 + frame[1] * 0x1_0000
                + frame[2] * 0x100 + frame[3] == message.len()
            &&& forall|i: int| 0 <= i < message.len() ==> #[trigger] frame[4 + i] == message[i]
        }),
{
}

} // verus!
