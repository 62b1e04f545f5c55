//! How delta, the weight of delay against throughput, is chosen.

use crate::arith::{
    diff, from_int, minus, over, plus, prod, quot, sqrt, square_root, sum, times, whole,
};
use crate::config::{MortiseConfig, MANY_LARGE_RESPONSES, MANY_RESPONSES};
use crate::double::Double;
use crate::numbers::{
    double, number, BDP_DIVISOR, BDP_SPREAD, COMPETITIVE_GAIN, CURRENT_DECAY, CURRENT_FLOOR,
    CURRENT_QUEUE_WEIGHT, DELTA_04, DELTA_05, DELTA_08, DELTA_10, DELTA_20, DELTA_30, DELTA_40,
    DELTA_50, KIBI, LARGEST, LOSSY_RATE, LOSS_RATE_THRESHOLD, LOWEST, MAX_DELTA, ONE,
    PREDICTIVE_DECAY, PREDICTIVE_FLOOR, PREDICTIVE_QUEUE_WEIGHT, PROBE_DELAY_CAP, PROBE_MAX_DELTA,
    PROBE_WEIGHT, STEADY_DELAY_CAP, STEADY_DELAY_SHARE, THOUSAND,
};
use crate::seconds::{seconds, secs};
use crate::span::Span;
use crate::state::{CompetingMode, Mortise};
use vstd::prelude::*;

verus! {

/// What one candidate for delta is expected to bring.
#[derive(Clone, Copy, Debug, PartialEq, Eq, Structural)]
pub struct Candidate {
    /// The candidate.
    pub delta: Double,

    /// Queueing delay.
    pub queue_delay: Double,

    /// Deviation of the delivery rate.
    pub rate_std: Double,

    /// Deviation of the data in flight.
    pub bdp_std: Double,

    /// Throughput that the candidate makes up for.
    pub delta_tput: Double,

    /// Delivery rate.
    pub rate: Double,

    /// What the candidates are compared by.
    pub score: Double,
}

/// A walk over the candidates for delta.
#[derive(Debug)]
pub struct Search {
    /// The candidates that are not below the lower bound, in order.
    pub candidates: Vec<Candidate>,

    /// Delta of the best candidate.
    pub delta: Double,

    /// Score of the best candidate.
    pub score: Double,

    /// The minimum round trip in milliseconds.
    pub min_rtt: Double,

    /// Responses per second, where the rule looks at them.
    pub flow_rate: Option<Double>,
}

/// By which rule delta in steady state was set.
#[derive(Debug)]
pub enum DeltaUpdate {
    /// The round was lossy: delta followed the loss.
    Lossy(Double),

    /// Many responses wait in the sender queue: delta probes for speed.
    SpeedUp(Double),

    /// Neither: the candidates were searched.
    Searched(Search),
}

/// The candidates of the predictive rule.
pub open spec fn predictive_deltas() -> Seq<Double> {
    seq![
        number(DELTA_05),
        number(DELTA_10),
        number(DELTA_20),
        number(DELTA_30),
        number(DELTA_40),
        number(DELTA_50),
    ]
}

/// The candidates of the current rule.
pub open spec fn current_deltas() -> Seq<Double> {
    seq![
        number(DELTA_04),
        number(DELTA_08),
        number(DELTA_10),
        number(DELTA_20),
        number(DELTA_30),
        number(DELTA_40),
        number(DELTA_50),
    ]
}

/// The candidates that are not below `floor`, in order.
pub open spec fn admitted(deltas: Seq<Double>, floor: Double) -> Seq<Double> {
    deltas.filter(|delta: Double| !delta.is_below(floor))
}

/// Delta and score of the first candidate with the lowest score below that of
/// the largest finite number; `start` where there is none.
pub open spec fn lowest(candidates: Seq<Candidate>, start: Double) -> (Double, Double)
    decreases candidates.len(),
{
    if candidates.len() == 0 {
        (start, number(LARGEST))
    } else {
        let best = lowest(candidates.drop_last(), start);
        let last = candidates.last();
        if last.score.is_below(best.1) {
            (last.delta, last.score)
        } else {
            best
        }
    }
}

/// Delta and score of the last candidate with the highest finite or infinite
/// score; `start` where no score is a number.
pub open spec fn highest(candidates: Seq<Candidate>, start: Double) -> (Double, Double)
    decreases candidates.len(),
{
    if candidates.len() == 0 {
        (start, number(LOWEST))
    } else {
        let best = highest(candidates.drop_last(), start);
        let last = candidates.last();
        if best.1.is_at_most(last.score) {
            (last.delta, last.score)
        } else {
            best
        }
    }
}

/// `micros` microseconds in milliseconds.
pub open spec fn millis(micros: u64) -> Double {
    quot(whole(micros), number(THOUSAND))
}

/// `bytes` in mebibytes.
pub open spec fn mebibytes(bytes: Double) -> Double {
    quot(quot(bytes, number(KIBI)), number(KIBI))
}

/// The delta at which `delay` milliseconds queue at the rate `rate`.
pub open spec fn delta_for_delay(delay: Double, rate: Double) -> Double {
    quot(quot(number(PROBE_WEIGHT), delay), rate)
}

impl Mortise {
    /// The round was lossy enough for delta to follow the loss.
    pub open spec fn is_lossy(self) -> bool {
        number(LOSSY_RATE).is_below(self.round.loss_rate)
    }

    /// Many responses, large ones among them, wait to be sent.
    pub open spec fn is_swollen(self) -> bool {
        self.sending_resp >= MANY_RESPONSES && self.sending_large_resp >= MANY_LARGE_RESPONSES
    }

    /// The mode that the loss rate of the round calls for. A round without a
    /// loss rate, in which nothing was lost or acknowledged, calls for the
    /// default.
    pub open spec fn mode_called_for(self) -> CompetingMode {
        if number(LOSS_RATE_THRESHOLD).is_below(self.round.loss_rate) {
            CompetingMode::Competitive
        } else {
            CompetingMode::Default
        }
    }

    /// The state once mode and delta are updated.
    pub open spec fn after_mode(self) -> Mortise {
        Mortise {
            mode: self.mode_called_for(),
            delta: match self.mode_called_for() {
                CompetingMode::Default => if self.slow_start {
                    self.config.slow_start_delta
                } else {
                    self.config.steady_delta
                },
                CompetingMode::Competitive => prod(
                    self.delta,
                    number(COMPETITIVE_GAIN),
                ).lesser(number(MAX_DELTA)),
            },
            ..self
        }
    }

    /// Updates the mode by the loss rate of the round, and delta with it: the
    /// configured delta in default mode, twice the former in competitive mode.
    pub fn update_mode(&mut self)
        ensures
            *final(self) == old(self).after_mode(),
    {
        self.mode = if double(LOSS_RATE_THRESHOLD).below(self.round.loss_rate) {
            CompetingMode::Competitive
        } else {
            CompetingMode::Default
        };
        match self.mode {
            CompetingMode::Default => {
                self.delta = if self.slow_start {
                    self.config.slow_start_delta
                } else {
                    self.config.steady_delta
                };
            },
            CompetingMode::Competitive => {
                self.delta = times(self.delta, double(COMPETITIVE_GAIN));
                self.delta = self.delta.min(double(MAX_DELTA));
            },
        }
    }

    /// `self` with another delta in steady state and another lower bound.
    pub open spec fn with_deltas(self, steady_delta: Double, min_delta: Double) -> Mortise {
        Mortise {
            config: MortiseConfig { steady_delta, ..self.config },
            min_delta,
            ..self
        }
    }

    /// Responses per second since the start, as of `clock`.
    pub open spec fn flow_rate(self, clock: Span) -> Double {
        quot(whole(self.total_resp_cnts), secs(clock.after(self.start_time)))
    }

    /// What a candidate brings whichever rule looks at it. `min_rtt` is in
    /// milliseconds.
    pub open spec fn outlook(
        self,
        delta: Double,
        min_rtt: Double,
        queue_delay: Double,
        score: Double,
    ) -> Candidate {
        let rate_std = sqrt(self.rate_ewmv);
        let bdp_std = prod(quot(rate_std, number(BDP_DIVISOR)), min_rtt);
        Candidate {
            delta,
            queue_delay,
            rate_std,
            bdp_std,
            delta_tput: prod(
                quot(
                    quot(number(ONE), delta),
                    prod(bdp_std, number(BDP_SPREAD)),
                ).lesser(number(ONE)),
                rate_std,
            ),
            rate: sum(self.rate_ewma, self.delta),
            score,
        }
    }

    fn evaluate(
        &self,
        delta: Double,
        min_rtt: Double,
        queue_delay: Double,
        score: Double,
    ) -> (result: Candidate)
        ensures
            result == self.outlook(delta, min_rtt, queue_delay, score),
    {
        let rate_std = square_root(self.rate_ewmv);
        let bdp_std = times(over(rate_std, double(BDP_DIVISOR)), min_rtt);
        let share = over(
            over(double(ONE), delta),
            times(bdp_std, double(BDP_SPREAD)),
        ).min(double(ONE));
        Candidate {
            delta,
            queue_delay,
            rate_std,
            bdp_std,
            delta_tput: times(share, rate_std),
            rate: plus(self.rate_ewma, self.delta),
            score,
        }
    }

    /// A candidate under the predictive rule: scored by the seconds that the
    /// unsent data takes, and those that the responses to come wait in the queue.
    pub open spec fn predicted(
        self,
        delta: Double,
        min_rtt: Double,
        flow_rate: Double,
    ) -> Candidate {
        let queue_delay = quot(quot(number(PREDICTIVE_QUEUE_WEIGHT), self.rate_ewma), delta);
        let rate = sum(self.rate_ewma, self.delta);
        let score = sum(
            mebibytes(quot(whole(self.unsent_bytes), rate)),
            quot(prod(flow_rate, queue_delay), number(THOUSAND)),
        );
        self.outlook(delta, min_rtt, queue_delay, score)
    }

    /// A candidate under the current rule: scored by the delivery rate, less what
    /// the queueing delay costs the responses being sent.
    pub open spec fn weighed(self, delta: Double, min_rtt: Double, price: Double) -> Candidate {
        let queue_delay = quot(
            quot(quot(number(CURRENT_QUEUE_WEIGHT), self.rate_ewma), delta),
            number(THOUSAND),
        );
        let rate = sum(self.rate_ewma, self.delta);
        let score = diff(rate, prod(price, queue_delay));
        self.outlook(delta, min_rtt, queue_delay, score)
    }

    /// What a unit of queueing delay costs under the current rule.
    pub open spec fn delay_price(self) -> Double {
        let rate = prod(prod(self.rate_ewma, number(KIBI)), number(KIBI));
        quot(quot(whole(self.sending_resp), rate), rate)
    }

    /// The candidates that the predictive rule looks at, each with what it
    /// brings. `min_rtt` is in milliseconds.
    pub open spec fn predicted_candidates(
        self,
        min_rtt: Double,
        flow_rate: Double,
    ) -> Seq<Candidate> {
        admitted(predictive_deltas(), self.min_delta).map_values(
            |delta: Double| self.predicted(delta, min_rtt, flow_rate),
        )
    }

    /// The candidates that the current rule looks at, each with what it brings.
    /// `min_rtt` is in milliseconds.
    pub open spec fn weighed_candidates(self, min_rtt: Double) -> Seq<Candidate> {
        admitted(current_deltas(), self.min_delta).map_values(
            |delta: Double| self.weighed(delta, min_rtt, self.delay_price()),
        )
    }

    fn predict(&self, delta: Double, min_rtt: Double, flow_rate: Double) -> (result: Candidate)
        ensures
            result == self.predicted(delta, min_rtt, flow_rate),
    {
        let queue_delay = over(over(double(PREDICTIVE_QUEUE_WEIGHT), self.rate_ewma), delta);
        let rate = plus(self.rate_ewma, self.delta);
        let unsent = over(from_int(self.unsent_bytes), rate);
        let sending = over(over(unsent, double(KIBI)), double(KIBI));
        let waiting = over(times(flow_rate, queue_delay), double(THOUSAND));
        let score = plus(sending, waiting);
        self.evaluate(delta, min_rtt, queue_delay, score)
    }

    fn weigh(&self, delta: Double, min_rtt: Double, price: Double) -> (result: Candidate)
        ensures
            result == self.weighed(delta, min_rtt, price),
    {
        let queue_delay = over(
            over(over(double(CURRENT_QUEUE_WEIGHT), self.rate_ewma), delta),
            double(THOUSAND),
        );
        let rate = plus(self.rate_ewma, self.delta);
        let score = minus(rate, times(price, queue_delay));
        self.evaluate(delta, min_rtt, queue_delay, score)
    }

    fn search_predictive(
        &self,
        min_rtt: Double,
        flow_rate: Double,
    ) -> (result: (Vec<Candidate>, Double, Double))
        ensures
            result.0@ == self.predicted_candidates(min_rtt, flow_rate),
            (result.1, result.2) == lowest(result.0@, self.delta),
    {
        let deltas: Vec<Double> = vec![
            double(DELTA_05),
            double(DELTA_10),
            double(DELTA_20),
            double(DELTA_30),
            double(DELTA_40),
            double(DELTA_50),
        ];
        assert(deltas@ == predictive_deltas());
        let ghost fits = |delta: Double| !delta.is_below(self.min_delta);
        let ghost eval = |delta: Double| self.predicted(delta, min_rtt, flow_rate);
        let mut candidates: Vec<Candidate> = Vec::new();
        let mut best = self.delta;
        let mut min_score = double(LARGEST);
        let mut i: usize = 0;
        assert(candidates@ == deltas@.take(0).filter(fits).map_values(eval)) by {
            reveal(Seq::filter);
        }
        while i < deltas.len()
            invariant
                i <= deltas.len(),
                deltas@ == predictive_deltas(),
                fits == (|delta: Double| !delta.is_below(self.min_delta)),
                eval == (|delta: Double| self.predicted(delta, min_rtt, flow_rate)),
                candidates@ == deltas@.take(i as int).filter(fits).map_values(eval),
                (best, min_score) == lowest(candidates@, self.delta),
            decreases deltas.len() - i,
        {
            let delta = deltas[i];
            proof {
                reveal(Seq::filter);
                assert(deltas@.take(i + 1).drop_last() == deltas@.take(i as int));
            }
            if !delta.below(self.min_delta) {
                let candidate = self.predict(delta, min_rtt, flow_rate);
                let ghost before = candidates@;
                candidates.push(candidate);
                assert(candidates@.drop_last() == before);
                if candidate.score.below(min_score) {
                    best = delta;
                    min_score = candidate.score;
                }
            }
            i += 1;
        }
        assert(deltas@.take(i as int) == deltas@);
        (candidates, best, min_score)
    }

    fn search_current(&self, min_rtt: Double) -> (result: (Vec<Candidate>, Double, Double))
        ensures
            result.0@ == self.weighed_candidates(min_rtt),
            (result.1, result.2) == highest(result.0@, self.config.steady_delta),
    {
        let deltas: Vec<Double> = vec![
            double(DELTA_04),
            double(DELTA_08),
            double(DELTA_10),
            double(DELTA_20),
            double(DELTA_30),
            double(DELTA_40),
            double(DELTA_50),
        ];
        assert(deltas@ == current_deltas());
        let rate = times(times(self.rate_ewma, double(KIBI)), double(KIBI));
        let price = over(over(from_int(self.sending_resp), rate), rate);
        let ghost fits = |delta: Double| !delta.is_below(self.min_delta);
        let ghost eval = |delta: Double| self.weighed(delta, min_rtt, price);
        let mut candidates: Vec<Candidate> = Vec::new();
        let mut best = self.config.steady_delta;
        let mut max_score = double(LOWEST);
        let mut i: usize = 0;
        assert(candidates@ == deltas@.take(0).filter(fits).map_values(eval)) by {
            reveal(Seq::filter);
        }
        while i < deltas.len()
            invariant
                i <= deltas.len(),
                deltas@ == current_deltas(),
                fits == (|delta: Double| !delta.is_below(self.min_delta)),
                eval == (|delta: Double| self.weighed(delta, min_rtt, price)),
                candidates@ == deltas@.take(i as int).filter(fits).map_values(eval),
                (best, max_score) == highest(candidates@, self.config.steady_delta),
            decreases deltas.len() - i,
        {
            let delta = deltas[i];
            proof {
                reveal(Seq::filter);
                assert(deltas@.take(i + 1).drop_last() == deltas@.take(i as int));
            }
            if !delta.below(self.min_delta) {
                let candidate = self.weigh(delta, min_rtt, price);
                let ghost before = candidates@;
                candidates.push(candidate);
                assert(candidates@.drop_last() == before);
                if max_score.at_most(candidate.score) {
                    best = delta;
                    max_score = candidate.score;
                }
            }
            i += 1;
        }
        assert(deltas@.take(i as int) == deltas@);
        (candidates, best, max_score)
    }

    /// The delta that probes for speed, where the lower bound is `min_delta`.
    pub open spec fn probing_delta(self, min_rtt: u64, min_delta: Double) -> Double {
        let delay = millis(min_rtt).lesser(number(PROBE_DELAY_CAP));
        min_delta.greater(delta_for_delay(delay, self.rate_ewma)).lesser(number(PROBE_MAX_DELTA))
    }

    /// The state once delta in steady state is set by the predictive rule, where
    /// the minimum filter reads `min_rtt` microseconds.
    pub open spec fn after_predic(self, min_rtt: u64) -> Mortise {
        if self.is_lossy() {
            let steady = quot(
                self.config.steady_delta,
                sum(number(ONE), self.round.loss_rate),
            ).lesser(number(MAX_DELTA));
            self.with_deltas(steady, steady)
        } else {
            let min_delta = prod(self.min_delta, number(PREDICTIVE_DECAY)).greater(
                number(PREDICTIVE_FLOOR),
            );
            if self.is_swollen() {
                self.with_deltas(self.probing_delta(min_rtt, min_delta), min_delta)
            } else {
                self.with_deltas(min_delta.greater(number(PREDICTIVE_FLOOR)), min_delta)
            }
        }
    }

    /// `update` tells by which branch of the predictive rule `self` came to
    /// `self.after_predic(..)`. Where the candidates were searched, it holds all
    /// of them and the best, kept between the lower bound and the delta at which
    /// a share of the minimum round trip queues.
    pub open spec fn tells_predic(self, min_rtt: u64, clock: Span, update: DeltaUpdate) -> bool {
        let after = self.after_predic(min_rtt);
        if self.is_lossy() {
            update == DeltaUpdate::Lossy(after.config.steady_delta)
        } else if self.is_swollen() {
            update == DeltaUpdate::SpeedUp(after.config.steady_delta)
        } else {
            let rtt = millis(min_rtt);
            let flow_rate = self.flow_rate(clock);
            let start = self.with_deltas(self.config.steady_delta, after.min_delta);
            let candidates = start.predicted_candidates(rtt, flow_rate);
            let best = lowest(candidates, self.delta);
            let delay = prod(number(STEADY_DELAY_SHARE), rtt).lesser(number(STEADY_DELAY_CAP));
            update matches DeltaUpdate::Searched(search) && {
                &&& search.candidates@ == candidates
                &&& search.delta == best.0.greater(after.min_delta).lesser(
                    delta_for_delay(delay, self.rate_ewma),
                )
                &&& search.score == best.1
                &&& search.min_rtt == rtt
                &&& search.flow_rate == Some(flow_rate)
            }
        }
    }

    /// Sets delta in steady state from the loss rate, and from the responses that
    /// past ones let expect. The minimum filter reads `min_rtt` microseconds, and
    /// the time is `clock`.
    pub fn calc_delta_predic(&mut self, min_rtt: u64, clock: Span) -> (result: DeltaUpdate)
        ensures
            *final(self) == old(self).after_predic(min_rtt),
            old(self).tells_predic(min_rtt, clock, result),
    {
        if double(LOSSY_RATE).below(self.round.loss_rate) {
            let divisor = plus(double(ONE), self.round.loss_rate);
            self.config.steady_delta = over(self.config.steady_delta, divisor).min(
                double(MAX_DELTA),
            );
            self.min_delta = self.config.steady_delta;
            return DeltaUpdate::Lossy(self.config.steady_delta);
        }
        self.min_delta = times(self.min_delta, double(PREDICTIVE_DECAY)).max(
            double(PREDICTIVE_FLOOR),
        );
        let rtt = over(from_int(min_rtt), double(THOUSAND));
        if self.sending_resp >= MANY_RESPONSES && self.sending_large_resp >= MANY_LARGE_RESPONSES {
            let delay = rtt.min(double(PROBE_DELAY_CAP));
            let probe = over(over(double(PROBE_WEIGHT), delay), self.rate_ewma);
            self.config.steady_delta = self.min_delta.max(probe).min(double(PROBE_MAX_DELTA));
            return DeltaUpdate::SpeedUp(self.config.steady_delta);
        }
        // What is unsent is taken for one large stream, which makes way for
        // small ones that may come.

        let elapsed = clock.saturating_sub(self.start_time);
        let flow_rate = over(from_int(self.total_resp_cnts), seconds(elapsed));
        let (candidates, best, score) = self.search_predictive(rtt, flow_rate);
        let delay = times(double(STEADY_DELAY_SHARE), rtt).min(double(STEADY_DELAY_CAP));
        let max_delta = over(over(double(PROBE_WEIGHT), delay), self.rate_ewma);
        let delta = best.max(self.min_delta).min(max_delta);
        self.config.steady_delta = self.min_delta.max(double(PREDICTIVE_FLOOR));
        DeltaUpdate::Searched(
            Search { candidates, delta, score, min_rtt: rtt, flow_rate: Some(flow_rate) },
        )
    }

    /// The lower bound on delta once the current rule has let it decay.
    pub open spec fn current_floor(self) -> Double {
        prod(self.min_delta, number(CURRENT_DECAY)).greater(number(CURRENT_FLOOR))
    }

    /// The best candidate under the current rule with its score, where the
    /// minimum filter reads `min_rtt` microseconds.
    pub open spec fn best_weighed(self, min_rtt: u64) -> (Double, Double) {
        let start = self.with_deltas(self.config.steady_delta, self.current_floor());
        highest(start.weighed_candidates(millis(min_rtt)), self.config.steady_delta)
    }

    /// The state once delta in steady state is set by the current rule, where the
    /// minimum filter reads `min_rtt` microseconds.
    pub open spec fn after_cur(self, min_rtt: u64) -> Mortise {
        if self.is_lossy() {
            let steady = quot(
                self.config.steady_delta,
                diff(number(ONE), self.round.loss_rate),
            ).lesser(number(MAX_DELTA));
            self.with_deltas(steady, steady)
        } else {
            self.with_deltas(self.best_weighed(min_rtt).0, self.current_floor())
        }
    }

    /// `update` tells by which branch of the current rule `self` came to
    /// `self.after_cur(..)`.
    pub open spec fn tells_cur(self, min_rtt: u64, update: DeltaUpdate) -> bool {
        if self.is_lossy() {
            update == DeltaUpdate::Lossy(self.after_cur(min_rtt).config.steady_delta)
        } else {
            let rtt = millis(min_rtt);
            let start = self.with_deltas(self.config.steady_delta, self.current_floor());
            update matches DeltaUpdate::Searched(search) && {
                &&& search.candidates@ == start.weighed_candidates(rtt)
                &&& (search.delta, search.score) == self.best_weighed(min_rtt)
                &&& search.min_rtt == rtt
                &&& search.flow_rate == None::<Double>
            }
        }
    }

    /// Sets delta in steady state from the loss rate, and from the responses that
    /// are being sent. The minimum filter reads `min_rtt` microseconds.
    pub fn calc_delta_cur(&mut self, min_rtt: u64) -> (result: DeltaUpdate)
        ensures
            *final(self) == old(self).after_cur(min_rtt),
            old(self).tells_cur(min_rtt, result),
    {
        if double(LOSSY_RATE).below(self.round.loss_rate) {
            let divisor = minus(double(ONE), self.round.loss_rate);
            self.config.steady_delta = over(self.config.steady_delta, divisor).min(
                double(MAX_DELTA),
            );
            self.min_delta = self.config.steady_delta;
            return DeltaUpdate::Lossy(self.config.steady_delta);
        }
        self.min_delta = times(self.min_delta, double(CURRENT_DECAY)).max(double(CURRENT_FLOOR));
        let rtt = over(from_int(min_rtt), double(THOUSAND));
        let (candidates, delta, score) = self.search_current(rtt);
        self.config.steady_delta = delta;
        DeltaUpdate::Searched(
            Search { candidates, delta, score, min_rtt: rtt, flow_rate: None },
        )
    }
}

} // verus!
