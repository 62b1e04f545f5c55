//! The end of an acknowledgement.
//!
//! It comes in two parts, as the round-trip filters stand between them:
//! `end_ack` tells what they are to be fed with, and `on_readings` takes what
//! they read.

use crate::ewma::RateSample;
use crate::model::{FilterFeed, ModelReport, OutOfRange, Readings};
use crate::numbers::{double, number, REFRESH_SHARE};
use crate::seconds::{lemma_half_is_time, scale, scaled_span};
use crate::span::Span;
use crate::state::Mortise;
use vstd::prelude::*;

verus! {

/// The points in time at which the second part of the end of an acknowledgement
/// looks at the clock.
#[derive(Clone, Copy, Debug, PartialEq, Eq, Structural)]
pub struct EndClock {
    /// When delta is set for an interval.
    pub model: Span,

    /// When it is settled whether the average of the delivery rate is due.
    pub check: Span,

    /// When the average is updated.
    pub stamp: Span,
}

impl Mortise {
    /// The state once the first part of the end of an acknowledgement is over.
    pub open spec fn after_end_ack(self) -> Mortise {
        Mortise { round: self.next_round(), ..self }.after_feed()
    }

    /// Ends an acknowledgement, first part: counts the round, and tells what the
    /// filters are to be fed with.
    pub fn end_ack(&mut self) -> (result: FilterFeed)
        ensures
            *final(self) == old(self).after_end_ack(),
            result == old(self).feed(),
    {
        self.update_round();
        self.feed_filters()
    }

    /// The state once mode, delta and rates are set.
    pub open spec fn with_rates(self, readings: Readings) -> Mortise {
        self.after_mode().after_rates(readings)
    }

    /// The state once the velocity is set as well.
    pub open spec fn with_velocity(self, readings: Readings) -> Mortise {
        self.with_rates(readings).after_velocity(readings.min_rtt)
    }

    /// The state once the model is updated.
    pub open spec fn after_model(self, readings: Readings) -> Mortise {
        self.with_velocity(readings).after_cwnd()
    }

    /// The number that puts an end to the update of the model, if one does.
    pub open spec fn out_of_range(self, readings: Readings) -> Option<OutOfRange> {
        let rated = self.with_rates(readings);
        if rated.begins_interval() && rated.intervals_cnt == u64::MAX {
            Some(OutOfRange::Intervals)
        } else if !self.with_velocity(readings).step_fits() {
            Some(OutOfRange::WindowStep)
        } else {
            None
        }
    }

    /// `report` tells what the update of the model led to.
    pub open spec fn tells_model(
        self,
        readings: Readings,
        clock: Span,
        report: ModelReport,
    ) -> bool {
        &&& report.rates == self.after_mode().rates(readings)
        &&& self.with_rates(readings).tells_interval(
            readings.min_rtt,
            clock,
            report.delta,
        )
    }

    /// Updates the model by what the filters read, at `clock`: mode and delta,
    /// rates, velocity and window, each by what the ones before have become.
    /// Where a number is out of range, what comes before it is updated.
    pub fn update_model(
        &mut self,
        readings: &Readings,
        clock: Span,
    ) -> (result: Result<ModelReport, OutOfRange>)
        requires
            old(self).wf(),
        ensures
            final(self).wf(),
            match result {
                Ok(report) => {
                    &&& old(self).out_of_range(*readings) == None::<OutOfRange>
                    &&& *final(self) == old(self).after_model(*readings)
                    &&& old(self).tells_model(*readings, clock, report)
                },
                Err(reason) => {
                    &&& old(self).out_of_range(*readings) == Some(reason)
                    &&& *final(self) == match reason {
                        OutOfRange::Intervals => old(self).with_rates(*readings),
                        OutOfRange::WindowStep => old(self).with_velocity(*readings),
                    }
                },
            },
    {
        self.update_mode();
        let rates = self.update_rates(readings);
        if self.turns_up() && self.intervals_cnt == u64::MAX {
            return Err(OutOfRange::Intervals);
        }
        let delta = self.update_velocity(readings.min_rtt, clock);
        if !self.can_update_cwnd() {
            return Err(OutOfRange::WindowStep);
        }
        self.update_cwnd();
        Ok(ModelReport { rates, delta })
    }

    /// The average of the delivery rate is due at `clock`: more than half of
    /// `min_rtt` microseconds has passed since it was last updated.
    pub open spec fn average_due(self, min_rtt: u64, clock: Span) -> bool {
        clock.after(self.last_update_ewma_time).nanos > scaled_span(
            Span::of_micros(min_rtt as int),
            number(REFRESH_SHARE),
        ).nanos
    }

    /// Whether the average of the delivery rate is due at `clock`, where the
    /// minimum filter reads `min_rtt` microseconds.
    pub fn is_average_due(&self, min_rtt: u64, clock: Span) -> (result: bool)
        ensures
            result == self.average_due(min_rtt, clock),
    {
        proof {
            lemma_half_is_time(min_rtt);
        }
        let half_rtt = scale(Span::from_micros(min_rtt), double(REFRESH_SHARE));
        clock.saturating_sub(self.last_update_ewma_time).nanos > half_rtt.nanos
    }

    /// Ends an acknowledgement, second part: updates the model by what the filters
    /// read, and then the average of the delivery rate where it is due.
    pub fn on_readings(
        &mut self,
        readings: &Readings,
        sample: &RateSample,
        clock: &EndClock,
    ) -> (result: Result<ModelReport, OutOfRange>)
        requires
            old(self).wf(),
        ensures
            final(self).wf(),
            match result {
                Ok(report) => {
                    let modelled = old(self).after_model(*readings);
                    &&& old(self).out_of_range(*readings) == None::<OutOfRange>
                    &&& old(self).tells_model(*readings, clock.model, report)
                    &&& if modelled.average_due(readings.min_rtt, clock.check) {
                        modelled.averages_to(*sample, clock.stamp, *final(self))
                    } else {
                        *final(self) == modelled
                    }
                },
                Err(reason) => {
                    &&& old(self).out_of_range(*readings) == Some(reason)
                    &&& *final(self) == match reason {
                        OutOfRange::Intervals => old(self).with_rates(*readings),
                        OutOfRange::WindowStep => old(self).with_velocity(*readings),
                    }
                },
            },
    {
        let report = match self.update_model(readings, clock.model) {
            Ok(report) => report,
            Err(reason) => return Err(reason),
        };
        if self.is_average_due(readings.min_rtt, clock.check) {
            self.update_ewma(sample, clock.stamp);
        }
        Ok(report)
    }
}

} // verus!
