//! How fast the window moves.
//!
//! Once per round the window is compared with what it was a round ago: it has
//! moved up or down. As long as it keeps its direction, and is meant to keep
//! it, the velocity coefficient doubles from the fourth round on, once the count
//! of such rounds exceeds its threshold; otherwise the coefficient is back at 1.

use crate::acks::capped_sum;
use crate::config::{SPEED_UP_THRESHOLD, USE_PREDICT};
use crate::delta::DeltaUpdate;
use crate::span::Span;
use crate::state::{Direction, Mortise, Velocity};
use vstd::prelude::*;

verus! {

/// Twice `v`, held within the range of `u64`.
pub open spec fn doubled(v: u64) -> u64 {
    if 2 * v > u64::MAX {
        u64::MAX
    } else {
        (2 * v) as u64
    }
}

impl Mortise {
    /// The velocity takes part: it does not while slow start grows the window.
    pub open spec fn uses_velocity(self) -> bool {
        !(self.slow_start && self.increase_cwnd)
    }

    /// The velocity is updated: it takes part, knows a former window, and a round
    /// starts.
    pub open spec fn moves(self) -> bool {
        self.uses_velocity() && self.velocity.last_cwnd != 0 && self.round.is_round_start
    }

    /// The direction in which the window has moved.
    pub open spec fn moved(self) -> Direction {
        if self.cwnd > self.velocity.last_cwnd {
            Direction::Up
        } else {
            Direction::Down
        }
    }

    /// The direction in which the window is meant to move.
    pub open spec fn meant(self) -> Direction {
        if self.increase_cwnd {
            Direction::Up
        } else {
            Direction::Down
        }
    }

    /// The window keeps its direction, and is meant to keep it.
    pub open spec fn keeps_course(self) -> bool {
        self.moved() == self.velocity.direction && self.meant() == self.velocity.direction
    }

    /// The window turns from falling to rising: an interval begins.
    pub open spec fn begins_interval(self) -> bool {
        self.moves() && self.moved() == Direction::Up && self.velocity.direction == Direction::Down
    }

    /// Whether the window turns from falling to rising with the next update of the
    /// velocity.
    pub fn turns_up(&self) -> (result: bool)
        ensures
            result == self.begins_interval(),
    {
        !(self.slow_start && self.increase_cwnd) && self.velocity.last_cwnd != 0
            && self.round.is_round_start && self.cwnd > self.velocity.last_cwnd
            && self.velocity.direction == Direction::Down
    }

    /// The velocity once it is updated.
    pub open spec fn next_velocity(self) -> Velocity {
        let kept = self.moved() == self.velocity.direction;
        let same_direction_cnt = capped_sum(self.velocity.same_direction_cnt, 1);
        if !self.uses_velocity() {
            self.velocity
        } else if self.velocity.last_cwnd == 0 {
            Velocity {
                velocity: 1,
                last_cwnd: if self.cwnd < self.config.min_cwnd {
                    self.config.min_cwnd
                } else {
                    self.cwnd
                },
                same_direction_cnt: 0,
                ..self.velocity
            }
        } else if !self.round.is_round_start {
            self.velocity
        } else {
            Velocity {
                direction: self.moved(),
                velocity: if !self.keeps_course() {
                    1
                } else if same_direction_cnt > SPEED_UP_THRESHOLD {
                    doubled(self.velocity.velocity)
                } else {
                    self.velocity.velocity
                },
                last_cwnd: self.cwnd,
                same_direction_cnt: if kept {
                    same_direction_cnt
                } else {
                    0
                },
            }
        }
    }

    /// The state once delta in steady state is set anew for an interval, where
    /// the minimum filter reads `min_rtt` microseconds.
    pub open spec fn after_new_delta(self, min_rtt: u64) -> Mortise {
        if USE_PREDICT {
            self.after_predic(min_rtt)
        } else {
            self.after_cur(min_rtt)
        }
    }

    /// The state once the velocity is updated, and with it what an interval that
    /// begins changes. The minimum filter reads `min_rtt` microseconds.
    pub open spec fn after_velocity(self, min_rtt: u64) -> Mortise {
        if self.begins_interval() {
            Mortise {
                velocity: self.next_velocity(),
                intervals_cnt: (self.intervals_cnt + 1) as u64,
                ..self.after_new_delta(min_rtt)
            }
        } else {
            Mortise { velocity: self.next_velocity(), ..self }
        }
    }

    /// `update` tells how delta was set for the interval that began, if one did.
    pub open spec fn tells_interval(
        self,
        min_rtt: u64,
        clock: Span,
        update: Option<DeltaUpdate>,
    ) -> bool {
        match update {
            Some(told) => self.begins_interval() && if USE_PREDICT {
                self.tells_predic(min_rtt, clock, told)
            } else {
                self.tells_cur(min_rtt, told)
            },
            None => !self.begins_interval(),
        }
    }

    /// Updates the velocity. Where the window turns from falling to rising, an
    /// interval begins, for which delta is set anew. The minimum filter reads
    /// `min_rtt` microseconds, and the time is `clock`.
    pub fn update_velocity(&mut self, min_rtt: u64, clock: Span) -> (result: Option<DeltaUpdate>)
        requires
            old(self).wf(),
            old(self).begins_interval() ==> old(self).intervals_cnt < u64::MAX,
        ensures
            *final(self) == old(self).after_velocity(min_rtt),
            final(self).wf(),
            old(self).tells_interval(min_rtt, clock, result),
    {
        // Slow start doubles the window anyway.
        if self.slow_start && self.increase_cwnd {
            return None;
        }
        if self.velocity.last_cwnd == 0 {
            self.velocity.last_cwnd = if self.cwnd < self.config.min_cwnd {
                self.config.min_cwnd
            } else {
                self.cwnd
            };
            self.velocity.velocity = 1;
            self.velocity.same_direction_cnt = 0;
            return None;
        }
        if !self.is_round_start() {
            return None;
        }
        let new_direction = if self.cwnd > self.velocity.last_cwnd {
            Direction::Up
        } else {
            Direction::Down
        };
        let mut update: Option<DeltaUpdate> = None;
        if new_direction == Direction::Up && self.velocity.direction == Direction::Down {
            update = if USE_PREDICT {
                Some(self.calc_delta_predic(min_rtt, clock))
            } else {
                Some(self.calc_delta_cur(min_rtt))
            };
            self.intervals_cnt = self.intervals_cnt + 1;
        }
        if new_direction != self.velocity.direction {
            // Direction changes, reset velocity.
            self.velocity.velocity = 1;
            self.velocity.same_direction_cnt = 0;
        } else {
            // Same direction, check to speed up.
            self.velocity.same_direction_cnt = self.velocity.same_direction_cnt.saturating_add(1);
            if self.velocity.same_direction_cnt > SPEED_UP_THRESHOLD {
                self.velocity.velocity = if self.velocity.velocity > u64::MAX / 2 {
                    u64::MAX
                } else {
                    self.velocity.velocity * 2
                };
            }
        }

        // A velocity that has grown large is meant for the former direction. Where
        // the window is about to turn against it, it starts over.
        if self.increase_cwnd && self.velocity.direction != Direction::Up && self.velocity.velocity
            > 1 {
            self.velocity.velocity = 1;
        } else if !self.increase_cwnd && self.velocity.direction != Direction::Down
            && self.velocity.velocity > 1 {
            self.velocity.velocity = 1;
        }
        self.velocity.direction = new_direction;
        self.velocity.last_cwnd = self.cwnd;
        update
    }
}

} // verus!
