//! The model that an acknowledgement drives.
//!
//! Two filters, which the caller keeps, hold the shortest round trip: the
//! minimum filter over a long time, the standing filter over half a smoothed
//! round trip. The difference of what they read is the queueing delay. The
//! target rate is one datagram per delta times the queueing delay; the window
//! grows while the rate at which it is used up is not above the target rate,
//! and shrinks otherwise.

use crate::acks::{capped_difference, capped_sum};
use crate::arith::{from_int, over, prod, quot, times, whole};
use crate::config::{BOUNCE_INTERVALS, FALLBACK_RTT, USE_BOUNCE};
use crate::delta::DeltaUpdate;
use crate::numbers::{double, number, BOUNCE_DELTA, BOUNCE_GAIN};
use crate::seconds::{seconds, secs};
use crate::span::Span;
use crate::state::{AckState, Direction, Mortise, Velocity};
use vstd::prelude::*;

verus! {

/// What the round-trip filters are to be fed with, in microseconds: the standing
/// filter takes the new window, and then both take the sample.
#[derive(Clone, Copy, Debug, PartialEq, Eq, Structural)]
pub struct FilterFeed {
    /// Window of the standing filter.
    pub window: u64,

    /// Time of the sample since the controller was made.
    pub time: u64,

    /// The sampled round trip.
    pub rtt: u64,
}

/// What the round-trip filters read, in microseconds.
#[derive(Clone, Copy, Debug, PartialEq, Eq, Structural)]
pub struct Readings {
    /// The minimum filter.
    pub min_rtt: u64,

    /// The standing filter.
    pub standing_rtt: u64,
}

/// The rates that an acknowledgement led to.
#[derive(Clone, Copy, Debug, PartialEq, Eq, Structural)]
pub struct RateReport {
    /// The rate at which the window was used up, in bytes per second.
    pub current_rate: u64,

    /// The queueing delay.
    pub queueing_delay: Span,

    /// Whether the target rate could be bounced, but for the interval.
    pub bounceable: bool,

    /// Whether the target rate was bounced.
    pub bounced: bool,
}

/// What an acknowledgement led to.
#[derive(Debug)]
pub struct ModelReport {
    /// The rates.
    pub rates: RateReport,

    /// How delta was set, where an interval began.
    pub delta: Option<DeltaUpdate>,
}

/// A number that an acknowledgement leads to is out of range.
#[derive(Clone, Copy, Debug, PartialEq, Eq, Structural)]
pub enum OutOfRange {
    /// The count of intervals.
    Intervals,

    /// The product of velocity, acknowledged bytes and datagram size.
    WindowStep,
}

impl Mortise {
    /// The round trip that an acknowledgement stands for: the shortest that it
    /// brought, or else the smoothed one, or else what is assumed.
    pub open spec fn ack_rtt(self) -> Span {
        if self.ack_state.min_rtt.nanos != 0 {
            self.ack_state.min_rtt
        } else if self.ack_state.last_srtt.nanos != 0 {
            self.ack_state.last_srtt
        } else {
            match self.config.initial_rtt {
                Some(rtt) => rtt,
                None => Span::of_micros(FALLBACK_RTT as int),
            }
        }
    }

    /// What an acknowledgement feeds to the filters.
    pub open spec fn feed(self) -> FilterFeed {
        FilterFeed {
            window: (self.ack_state.last_srtt.micros() / 2) as u64,
            time: self.ack_state.now.after(self.init_time).micros() as u64,
            rtt: self.ack_rtt().micros() as u64,
        }
    }

    /// The state once the round trip of the acknowledgement is settled.
    pub open spec fn after_feed(self) -> Mortise {
        Mortise { ack_state: AckState { min_rtt: self.ack_rtt(), ..self.ack_state }, ..self }
    }

    /// Settles the round trip that the acknowledgement stands for, and tells what
    /// the filters are to be fed with.
    pub fn feed_filters(&mut self) -> (result: FilterFeed)
        ensures
            *final(self) == old(self).after_feed(),
            result == old(self).feed(),
    {
        let window: u64 = self.ack_state.last_srtt.as_micros() / 2;
        if self.ack_state.min_rtt.is_zero() {
            self.ack_state.min_rtt = if self.ack_state.last_srtt.is_zero() {
                match self.config.initial_rtt {
                    Some(rtt) => rtt,
                    None => Span::from_micros(FALLBACK_RTT),
                }
            } else {
                self.ack_state.last_srtt
            };
        }
        let elapsed = self.ack_state.now.saturating_sub(self.init_time);
        FilterFeed {
            window,
            time: elapsed.as_micros(),
            rtt: self.ack_state.min_rtt.as_micros(),
        }
    }

    /// By how much the standing round trip is above the minimum.
    pub open spec fn queueing_delay(self, readings: Readings) -> Span {
        self.standing_rtt(readings.standing_rtt).after(Span::of_micros(readings.min_rtt as int))
    }

    /// The target rate may be bounced: delta is small, and the window was falling.
    pub open spec fn may_bounce(self) -> bool {
        &&& USE_BOUNCE
        &&& self.delta.is_below(number(BOUNCE_DELTA))
        &&& self.velocity.direction == Direction::Down
    }

    /// The target rate is bounced: it may be, and the interval is not one of those
    /// left out.
    pub open spec fn bounces(self) -> bool {
        self.may_bounce() && self.intervals_cnt % BOUNCE_INTERVALS != 0
    }

    /// The target rate, in bytes per second. Without a queueing delay it is the
    /// rate at which the window is used up.
    pub open spec fn target(self, readings: Readings) -> int {
        let delay = self.queueing_delay(readings);
        if delay.nanos == 0 {
            self.rate_of_window(readings.standing_rtt)
        } else {
            let rate = quot(
                quot(whole(self.config.max_datagram_size), self.delta),
                secs(delay.longer(Span::of_micros(1))),
            ).truncated();
            if self.bounces() {
                prod(whole(rate as u64), number(BOUNCE_GAIN)).truncated()
            } else {
                rate
            }
        }
    }

    /// The state once the target rate is set.
    pub open spec fn after_rates(self, readings: Readings) -> Mortise {
        Mortise {
            target_rate: self.target(readings) as u64,
            increase_cwnd: self.target(readings) >= self.rate_of_window(readings.standing_rtt),
            ..self
        }
    }

    /// The rates that the readings lead to.
    pub open spec fn rates(self, readings: Readings) -> RateReport {
        RateReport {
            current_rate: self.rate_of_window(readings.standing_rtt) as u64,
            queueing_delay: self.queueing_delay(readings),
            bounceable: self.queueing_delay(readings).nanos != 0 && self.may_bounce(),
            bounced: self.queueing_delay(readings).nanos != 0 && self.bounces(),
        }
    }

    /// Sets the target rate, and whether the window is to grow towards it.
    pub fn update_rates(&mut self, readings: &Readings) -> (result: RateReport)
        ensures
            *final(self) == old(self).after_rates(*readings),
            result == old(self).rates(*readings),
    {
        let min_rtt = Span::from_micros(readings.min_rtt);
        let standing_rtt = self.get_standing_rtt(readings.standing_rtt);
        let current_rate: u64 = self.current_rate(readings.standing_rtt);
        let queueing_delay = standing_rtt.saturating_sub(min_rtt);
        let mut bounceable: bool = false;
        let mut bounced: bool = false;
        if queueing_delay.is_zero() {
            // The target rate has no bound here, which is so at the beginning and
            // wherever nothing queues.
            self.increase_cwnd = true;
            self.target_rate = current_rate;
        } else {
            let per_delta = over(from_int(self.config.max_datagram_size), self.delta);
            let delay = seconds(queueing_delay.max(Span::from_micros(1)));
            self.target_rate = over(per_delta, delay).to_u64();
            if USE_BOUNCE && self.delta.below(double(BOUNCE_DELTA)) && self.velocity.direction
                == Direction::Down {
                bounceable = true;
                if self.intervals_cnt % BOUNCE_INTERVALS != 0 {
                    self.target_rate = times(
                        from_int(self.target_rate),
                        double(BOUNCE_GAIN),
                    ).to_u64();
                    bounced = true;
                }
            }
            self.increase_cwnd = self.target_rate >= current_rate;
        }
        RateReport { current_rate, queueing_delay, bounceable, bounced }
    }

    /// The window moves by slow start, and not by the velocity.
    pub open spec fn stays_in_slow_start(self) -> bool {
        self.slow_start && self.increase_cwnd
    }

    /// Velocity times acknowledged bytes times datagram size.
    pub open spec fn step_product(self) -> int {
        self.velocity.velocity * self.ack_state.newly_acked_bytes * self.config.max_datagram_size
    }

    /// Every product that the step of the window is made of is in range.
    pub open spec fn step_fits(self) -> bool {
        ||| self.stays_in_slow_start()
        ||| (self.velocity.velocity * self.ack_state.newly_acked_bytes <= u64::MAX
            && self.step_product() <= u64::MAX)
    }

    /// Whether every product that the step of the window is made of is in range.
    pub fn can_update_cwnd(&self) -> (result: bool)
        ensures
            result == self.step_fits(),
    {
        if self.slow_start && self.increase_cwnd {
            return true;
        }
        match self.velocity.velocity.checked_mul(self.ack_state.newly_acked_bytes) {
            Some(bytes) => match bytes.checked_mul(self.config.max_datagram_size) {
                Some(_) => true,
                None => false,
            },
            None => false,
        }
    }

    /// By how many bytes the window moves outside slow start.
    pub open spec fn window_step(self) -> u64 {
        quot(
            whole(self.step_product() as u64),
            prod(self.delta, whole(self.cwnd)),
        ).truncated() as u64
    }

    /// The window outside slow start, before the minimal one takes the place of
    /// an empty one.
    pub open spec fn moved_window(self) -> u64 {
        if self.increase_cwnd {
            capped_sum(self.cwnd, self.window_step())
        } else {
            capped_difference(self.cwnd, self.window_step())
        }
    }

    /// The state once the window is updated.
    pub open spec fn after_cwnd(self) -> Mortise {
        if self.stays_in_slow_start() {
            Mortise { cwnd: capped_sum(self.cwnd, self.ack_state.newly_acked_bytes), ..self }
        } else if self.moved_window() == 0 {
            Mortise {
                slow_start: false,
                cwnd: self.config.min_cwnd,
                velocity: Velocity { velocity: 1, ..self.velocity },
                ..self
            }
        } else {
            Mortise { slow_start: false, cwnd: self.moved_window(), ..self }
        }
    }

    /// Updates the congestion window. Slow start adds what was acknowledged, and
    /// ends once the window is to shrink; after it the window moves by a step.
    pub fn update_cwnd(&mut self)
        requires
            old(self).wf(),
            old(self).step_fits(),
        ensures
            *final(self) == old(self).after_cwnd(),
            final(self).wf(),
    {
        if self.slow_start && !self.increase_cwnd {
            self.slow_start = false;
        }
        if self.slow_start {
            if self.increase_cwnd {
                self.cwnd = self.cwnd.saturating_add(self.ack_state.newly_acked_bytes);
            }
        } else {
            let product: u64 = self.velocity.velocity * self.ack_state.newly_acked_bytes
                * self.config.max_datagram_size;
            let step: u64 = over(
                from_int(product),
                times(self.delta, from_int(self.cwnd)),
            ).to_u64();
            self.cwnd = if self.increase_cwnd {
                self.cwnd.saturating_add(step)
            } else {
                self.cwnd.saturating_sub(step)
            };
            if self.cwnd == 0 {
                self.cwnd = self.config.min_cwnd;
                self.velocity.velocity = 1;
            }
        }
    }
}

} // verus!
