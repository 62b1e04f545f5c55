//! The state of a controller, and what is read from it.

use crate::arith::{from_int, over, quot, whole};
use crate::config::{
    MortiseConfig, Transport, MIN_RTT_FILTER_WINDOW, PACING_GAIN, RESIDUALS,
    STANDING_RTT_FILTER_WINDOW,
};
use crate::double::Double;
use crate::numbers::{double, number, INITIAL_MIN_DELTA, LOWEST, ZERO};
use crate::seconds::{seconds, secs};
use crate::span::Span;
use std::collections::VecDeque;
use vstd::prelude::*;

verus! {

/// Congestion window growth direction.
#[derive(Clone, Copy, Debug, PartialEq, Eq, Structural)]
pub enum Direction {
    /// The window is increasing.
    Up,

    /// The window is decreasing.
    Down,
}

/// How the flow competes with other flows.
#[derive(Clone, Copy, Debug, PartialEq, Eq, Structural)]
pub enum CompetingMode {
    /// Default mode, no competing flows.
    Default,

    /// Competitive mode, use adaptive delta.
    Competitive,
}

/// Velocity control states.
#[derive(Clone, Copy, Debug, PartialEq, Eq, Structural)]
pub struct Velocity {
    /// Window growth direction.
    pub direction: Direction,

    /// Velocity coefficient.
    pub velocity: u64,

    /// Window recorded at last time.
    pub last_cwnd: u64,

    /// Rounds in which the window has moved in the same direction. The velocity
    /// speeds up once they exceed the threshold.
    pub same_direction_cnt: u64,
}

/// The velocity of a connection that has not moved yet.
pub open spec fn resting_velocity() -> Velocity {
    Velocity { direction: Direction::Up, velocity: 1, last_cwnd: 0, same_direction_cnt: 0 }
}

impl Default for Velocity {
    fn default() -> (result: Self)
        ensures
            result == resting_velocity(),
    {
        Velocity { direction: Direction::Up, velocity: 1, last_cwnd: 0, same_direction_cnt: 0 }
    }
}

/// What a single acknowledgement has brought.
#[derive(Clone, Copy, Debug, PartialEq, Eq, Structural)]
pub struct AckState {
    /// Ack time.
    pub now: Span,

    /// Newly marked lost data size in bytes.
    pub newly_lost_bytes: u64,

    /// Newly acked data size in bytes.
    pub newly_acked_bytes: u64,

    /// Largest acked packet number.
    pub largest_acked_pkt_num: u64,

    /// Minimum round trip in this acknowledgement.
    pub min_rtt: Span,

    /// The last smoothed round trip in the current acknowledgement.
    pub last_srtt: Span,
}

/// An acknowledgement at `now` that has brought nothing yet.
pub open spec fn empty_ack(now: Span) -> AckState {
    AckState {
        now,
        newly_lost_bytes: 0,
        newly_acked_bytes: 0,
        largest_acked_pkt_num: 0,
        min_rtt: Span { nanos: 0 },
        last_srtt: Span { nanos: 0 },
    }
}

impl AckState {
    /// An acknowledgement at `now` that has brought nothing yet.
    pub fn new(now: Span) -> (result: Self)
        ensures
            result == empty_ack(now),
    {
        AckState {
            now,
            newly_lost_bytes: 0,
            newly_acked_bytes: 0,
            largest_acked_pkt_num: 0,
            min_rtt: Span { nanos: 0 },
            last_srtt: Span { nanos: 0 },
        }
    }
}

/// Round trip counter for tracking packet-timed round trips which starts at the
/// transmission of some segment, and then ends at the ack of that segment.
#[derive(Clone, Copy, Debug, PartialEq, Eq, Structural)]
pub struct RoundTripCounter {
    /// Count of packet-timed round trips.
    pub round_count: u64,

    /// Whether the latest acknowledgement started a round.
    pub is_round_start: bool,

    /// Packet number denoting the end of a packet-timed round trip.
    pub round_end_pkt_num: u64,

    /// Total acked bytes when a new round starts.
    pub last_total_acked_bytes: u64,

    /// Total lost bytes when a new round starts.
    pub last_total_lost_bytes: u64,

    /// Lost rate in this round, calculated as `lost / (lost + acked)`.
    pub loss_rate: Double,
}

/// The counter before the first round.
pub open spec fn first_round() -> RoundTripCounter {
    RoundTripCounter {
        round_count: 0,
        is_round_start: false,
        round_end_pkt_num: 0,
        last_total_acked_bytes: 0,
        last_total_lost_bytes: 0,
        loss_rate: number(ZERO),
    }
}

impl Default for RoundTripCounter {
    fn default() -> (result: Self)
        ensures
            result == first_round(),
    {
        RoundTripCounter {
            round_count: 0,
            is_round_start: false,
            round_end_pkt_num: 0,
            last_total_acked_bytes: 0,
            last_total_lost_bytes: 0,
            loss_rate: double(ZERO),
        }
    }
}

/// Bytes counted over the life of a connection.
#[derive(Clone, Copy, Debug, PartialEq, Eq, Structural)]
pub struct CongestionStats {
    /// Bytes in flight.
    pub bytes_in_flight: u64,

    /// Bytes sent.
    pub bytes_sent_in_total: u64,

    /// Bytes acknowledged.
    pub bytes_acked_in_total: u64,

    /// Bytes lost.
    pub bytes_lost_in_total: u64,

    /// Bytes acknowledged during slow start.
    pub bytes_acked_in_slow_start: u64,

    /// Bytes lost during slow start.
    pub bytes_lost_in_slow_start: u64,
}

/// Nothing counted yet.
pub open spec fn no_stats() -> CongestionStats {
    CongestionStats {
        bytes_in_flight: 0,
        bytes_sent_in_total: 0,
        bytes_acked_in_total: 0,
        bytes_lost_in_total: 0,
        bytes_acked_in_slow_start: 0,
        bytes_lost_in_slow_start: 0,
    }
}

impl Default for CongestionStats {
    fn default() -> (result: Self)
        ensures
            result == no_stats(),
    {
        CongestionStats {
            bytes_in_flight: 0,
            bytes_sent_in_total: 0,
            bytes_acked_in_total: 0,
            bytes_lost_in_total: 0,
            bytes_acked_in_slow_start: 0,
            bytes_lost_in_slow_start: 0,
        }
    }
}

/// A delay-based congestion controller after Copa.
///
/// See <https://web.mit.edu/copa/>.
pub struct Mortise {
    /// Configuration.
    pub config: MortiseConfig,

    /// What the transport fixes.
    pub transport: Transport,

    /// Statistics.
    pub stats: CongestionStats,

    /// The time origin point, used for window filter updating.
    pub init_time: Span,

    /// Competing mode.
    pub mode: CompetingMode,

    /// Is in slow start state.
    pub slow_start: bool,

    /// Congestion window.
    pub cwnd: u64,

    /// Velocity parameter, speeds up convergence.
    pub velocity: Velocity,

    /// Weight factor for queueing delay. Use default value in default mode, and
    /// use an adaptive one in competitive mode.
    pub delta: Double,

    /// Ack state in the current round.
    pub ack_state: AckState,

    /// Whether the window should be increased.
    pub increase_cwnd: bool,

    /// Target pacing rate.
    pub target_rate: u64,

    /// The last sent packet number.
    pub last_sent_pkt_num: u64,

    /// Round trip counter.
    pub round: RoundTripCounter,

    /// To identify which connection is using this controller.
    pub connection_trace_id: String,

    /// To identify the connection from user space.
    pub flow_id: u32,

    /// Moving average of the delivery rate, in MB/s; below zero before the first
    /// sample.
    pub rate_ewma: Double,

    /// Moving variance of the delivery rate, in (MB/s)^2.
    pub rate_ewmv: Double,

    /// When the average was last updated.
    pub last_update_ewma_time: Span,

    /// Intervals, each begun where the window turns from falling to rising.
    pub intervals_cnt: u64,

    /// Unsent application data in bytes.
    pub unsent_bytes: u64,

    /// Latest residuals of the delivery rate against its average.
    pub rate_residuals: VecDeque<Double>,

    /// Most recent response time.
    pub recent_resp_time: Span,

    /// Large responses being sent.
    pub sending_large_resp: u8,

    /// Responses being sent.
    pub sending_resp: u64,

    /// Responses in total.
    pub total_resp_cnts: u64,

    /// When sending started.
    pub start_time: Span,

    /// Lower bound on delta.
    pub min_delta: Double,
}

impl Mortise {
    /// What every operation keeps: the velocity coefficient is at least 1, and
    /// no more residuals are held than the average looks back on.
    pub open spec fn wf(self) -> bool {
        &&& self.velocity.velocity >= 1
        &&& self.rate_residuals@.len() <= RESIDUALS
    }

    /// Whether the state is one that the operations keep: a state that was made
    /// with `new` is, and stays so unless a field is set from outside.
    pub fn is_wf(&self) -> (result: bool)
        ensures
            result == self.wf(),
    {
        self.velocity.velocity >= 1 && self.rate_residuals.len() <= RESIDUALS
    }

    /// A controller for the connection `connection_trace_id`, which the manager
    /// knows as `flow_id`, as it stands at `now`.
    pub fn new(
        config: MortiseConfig,
        transport: Transport,
        connection_trace_id: String,
        flow_id: u32,
        now: Span,
    ) -> (result: Self)
        ensures
            result.wf(),
            result.rate_residuals@ == Seq::<Double>::empty(),
            result.connection_trace_id@ == connection_trace_id@,
            result.velocity.direction == Direction::Up,
            result.velocity.velocity == 1,
            result.velocity.last_cwnd == 0,
            result.velocity.same_direction_cnt == 0,
            result.round.round_count == 0,
            !result.round.is_round_start,
            result.round.round_end_pkt_num == 0,
            result.round.last_total_acked_bytes == 0,
            result.round.last_total_lost_bytes == 0,
            result.round.loss_rate.bits == 0,
            result.stats.bytes_in_flight == 0,
            result.stats.bytes_sent_in_total == 0,
            result.stats.bytes_acked_in_total == 0,
            result.stats.bytes_lost_in_total == 0,
            result.stats.bytes_acked_in_slow_start == 0,
            result.stats.bytes_lost_in_slow_start == 0,
            result.ack_state.now == now,
            result.ack_state.newly_acked_bytes == 0,
            result.ack_state.newly_lost_bytes == 0,
            result == (Mortise {
                config,
                transport,
                stats: no_stats(),
                init_time: now,
                mode: CompetingMode::Default,
                slow_start: true,
                cwnd: config.initial_cwnd,
                velocity: resting_velocity(),
                delta: config.slow_start_delta,
                ack_state: empty_ack(now),
                increase_cwnd: false,
                target_rate: 0,
                last_sent_pkt_num: 0,
                round: first_round(),
                connection_trace_id,
                flow_id,
                rate_ewma: number(LOWEST),
                rate_ewmv: number(ZERO),
                last_update_ewma_time: now,
                intervals_cnt: 0,
                unsent_bytes: 0,
                rate_residuals: result.rate_residuals,
                recent_resp_time: now,
                sending_large_resp: 0,
                sending_resp: 0,
                total_resp_cnts: 0,
                start_time: now,
                min_delta: number(INITIAL_MIN_DELTA),
            }),
    {
        Mortise {
            config,
            transport,
            stats: CongestionStats::default(),
            init_time: now,
            mode: CompetingMode::Default,
            slow_start: true,
            cwnd: config.initial_cwnd,
            velocity: Velocity::default(),
            delta: config.slow_start_delta,
            ack_state: AckState::new(now),
            increase_cwnd: false,
            target_rate: 0,
            last_sent_pkt_num: 0,
            round: RoundTripCounter::default(),
            connection_trace_id,
            flow_id,
            rate_ewma: double(LOWEST),
            rate_ewmv: double(ZERO),
            last_update_ewma_time: now,
            intervals_cnt: 0,
            unsent_bytes: 0,
            rate_residuals: VecDeque::new(),
            recent_resp_time: now,
            sending_large_resp: 0,
            sending_resp: 0,
            total_resp_cnts: 0,
            start_time: now,
            min_delta: double(INITIAL_MIN_DELTA),
        }
    }

    /// The windows, in microseconds, that the standing round-trip filter and the
    /// minimum round-trip filter are made with.
    pub fn filter_windows() -> (result: (u64, u64))
        ensures
            result == (STANDING_RTT_FILTER_WINDOW, MIN_RTT_FILTER_WINDOW),
            result == (100_000u64, 10_000_000u64),
    {
        (STANDING_RTT_FILTER_WINDOW, MIN_RTT_FILTER_WINDOW)
    }

    /// Whether the latest acknowledgement started a round.
    pub fn is_round_start(&self) -> (result: bool)
        ensures
            result == self.round.is_round_start,
    {
        self.round.is_round_start
    }

    /// The standing round trip, where the standing filter reads `reading`
    /// microseconds.
    pub open spec fn standing_rtt(self, reading: u64) -> Span {
        if reading == 0 {
            (match self.config.initial_rtt {
                Some(rtt) => rtt,
                None => self.transport.initial_rtt,
            }).longer(Span::of_micros(1))
        } else {
            Span::of_micros(reading as int)
        }
    }

    /// The standing round trip, where the standing filter reads `reading`
    /// microseconds: the reading, or what is assumed before the first sample.
    pub fn get_standing_rtt(&self, reading: u64) -> (result: Span)
        ensures
            result == self.standing_rtt(reading),
            result.nanos > 0,
    {
        let standing_rtt = Span::from_micros(reading);
        if standing_rtt.is_zero() {
            let assumed = match self.config.initial_rtt {
                Some(rtt) => rtt,
                None => self.transport.initial_rtt,
            };
            return assumed.max(Span::from_micros(1));
        }
        standing_rtt
    }

    /// The rate, in bytes per second, at which the window is used up once per
    /// standing round trip.
    pub open spec fn rate_of_window(self, reading: u64) -> int {
        quot(whole(self.cwnd), secs(self.standing_rtt(reading))).truncated()
    }

    /// The rate, in bytes per second, at which the window is used up once per
    /// standing round trip.
    pub fn current_rate(&self, reading: u64) -> (result: u64)
        ensures
            result == self.rate_of_window(reading),
    {
        let standing_rtt = self.get_standing_rtt(reading);
        over(from_int(self.cwnd), seconds(standing_rtt)).to_u64()
    }

    /// The rate to pace at, where the standing filter reads `reading`
    /// microseconds.
    pub fn pacing_rate(&self, reading: u64) -> (result: Option<u64>)
        requires
            PACING_GAIN * self.rate_of_window(reading) <= u64::MAX,
        ensures
            result == Some((PACING_GAIN * self.rate_of_window(reading)) as u64),
            result matches Some(rate) && rate == 2 * self.rate_of_window(reading),
    {
        let current_rate: u64 = self.current_rate(reading);
        Some(PACING_GAIN * current_rate)
    }

    /// The name of the algorithm.
    pub fn name(&self) -> (result: &str)
        ensures
            result@ == "COPA"@,
    {
        "COPA"
    }

    /// The congestion window: never below the minimal one.
    pub fn congestion_window(&self) -> (result: u64)
        ensures
            result >= self.cwnd,
            result >= self.config.min_cwnd,
            result == self.cwnd || result == self.config.min_cwnd,
    {
        if self.cwnd < self.config.min_cwnd {
            self.config.min_cwnd
        } else {
            self.cwnd
        }
    }

    /// The initial congestion window.
    pub fn initial_window(&self) -> (result: u64)
        ensures
            result == self.config.initial_cwnd,
    {
        self.config.initial_cwnd
    }

    /// The minimal congestion window.
    pub fn minimal_window(&self) -> (result: u64)
        ensures
            result == self.config.min_cwnd,
    {
        self.config.min_cwnd
    }

    /// Whether the connection is in slow start.
    pub fn in_slow_start(&self) -> (result: bool)
        ensures
            result == self.slow_start,
    {
        self.slow_start
    }

    /// The statistics.
    pub fn stats(&self) -> (result: &CongestionStats)
        ensures
            *result == self.stats,
    {
        &self.stats
    }
}

} // verus!
