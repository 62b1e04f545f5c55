//! Moving average and variance of the delivery rate.

use crate::arith::{diff, from_int, minus, over, plus, prod, quot, sum, times, whole};
use crate::config::RESIDUALS;
use crate::delta::mebibytes;
use crate::double::Double;
use crate::numbers::{double, number, EWMA_GAIN, EWMA_KEEP, KIBI, ZERO};
use crate::span::Span;
use crate::state::Mortise;
use std::collections::VecDeque;
use vstd::prelude::*;

verus! {

/// What the delivery rate estimator of the connection holds.
#[derive(Clone, Copy, Debug, PartialEq, Eq, Structural)]
pub struct RateSample {
    /// Whether the sample was limited by what the application had to send.
    pub app_limited: bool,

    /// The delivery rate in bytes per second.
    pub delivery_rate: u64,
}

/// The numbers added up from the first to the last.
pub open spec fn total(numbers: Seq<Double>) -> Double
    decreases numbers.len(),
{
    if numbers.len() == 0 {
        number(ZERO)
    } else {
        sum(total(numbers.drop_last()), numbers.last())
    }
}

/// The mean of the numbers.
pub open spec fn mean(numbers: Seq<Double>) -> Double {
    quot(total(numbers), whole(numbers.len() as u64))
}

/// The square of the distance between `x` and `y`.
pub open spec fn square(x: Double, y: Double) -> Double {
    prod(diff(x, y), diff(x, y))
}

/// The mean square of the distance of the numbers from their mean.
pub open spec fn variance(numbers: Seq<Double>) -> Double {
    mean(numbers.map_values(|x: Double| square(x, mean(numbers))))
}

/// The latest residuals once `residual` has come: the oldest makes way where
/// there is no more room.
pub open spec fn kept_residuals(residuals: Seq<Double>, residual: Double) -> Seq<Double> {
    if residuals.len() >= RESIDUALS {
        residuals.drop_first().push(residual)
    } else {
        residuals.push(residual)
    }
}

fn exec_mean(numbers: &VecDeque<Double>) -> (result: Double)
    ensures
        result == mean(numbers@),
{
    let mut acc = double(ZERO);
    let mut i: usize = 0;
    while i < numbers.len()
        invariant
            i <= numbers@.len(),
            acc == total(numbers@.take(i as int)),
        decreases numbers@.len() - i,
    {
        assert(numbers@.take(i + 1).drop_last() == numbers@.take(i as int));
        acc = plus(acc, numbers[i]);
        i += 1;
    }
    assert(numbers@.take(i as int) == numbers@);
    over(acc, from_int(numbers.len() as u64))
}

fn exec_variance(numbers: &VecDeque<Double>) -> (result: Double)
    ensures
        result == variance(numbers@),
{
    let center = exec_mean(numbers);
    let ghost away = |x: Double| square(x, center);
    let mut squares: VecDeque<Double> = VecDeque::new();
    let mut i: usize = 0;
    while i < numbers.len()
        invariant
            i <= numbers@.len(),
            away == (|x: Double| square(x, center)),
            squares@ == numbers@.take(i as int).map_values(away),
        decreases numbers@.len() - i,
    {
        let distance = minus(numbers[i], center);
        squares.push_back(times(distance, distance));
        i += 1;
    }
    assert(numbers@.take(i as int) == numbers@);
    exec_mean(&squares)
}

impl Mortise {
    /// No sample has been averaged yet.
    pub open spec fn awaits_sample(self) -> bool {
        self.rate_ewma.is_below(number(ZERO))
    }

    /// The average once a sample of `rate` bytes per second has come.
    pub open spec fn next_ewma(self, rate: u64) -> Double {
        if self.awaits_sample() {
            mebibytes(whole(rate))
        } else {
            sum(
                prod(number(EWMA_KEEP), self.rate_ewma),
                mebibytes(prod(number(EWMA_GAIN), whole(rate))),
            )
        }
    }

    /// How far the average then is from the sample.
    pub open spec fn next_residual(self, rate: u64) -> Double {
        if self.awaits_sample() {
            number(ZERO)
        } else {
            diff(self.next_ewma(rate), mebibytes(whole(rate)))
        }
    }

    /// `after` is the state once `sample` has been averaged at `clock`. A sample
    /// that the application limited changes nothing.
    pub open spec fn averages_to(self, sample: RateSample, clock: Span, after: Mortise) -> bool {
        if sample.app_limited {
            after == self
        } else {
            let residuals = kept_residuals(
                self.rate_residuals@,
                self.next_residual(sample.delivery_rate),
            );
            &&& after.rate_residuals@ == residuals
            &&& after == Mortise {
                rate_ewma: self.next_ewma(sample.delivery_rate),
                rate_ewmv: variance(residuals),
                last_update_ewma_time: clock,
                rate_residuals: after.rate_residuals,
                ..self
            }
        }
    }

    /// Averages `sample` at `clock`, unless the application limited it.
    pub fn update_ewma(&mut self, sample: &RateSample, clock: Span)
        requires
            old(self).wf(),
        ensures
            old(self).averages_to(*sample, clock, *final(self)),
            final(self).wf(),
    {
        if sample.app_limited {
            return;
        }
        let bytes = from_int(sample.delivery_rate);
        let rate = over(over(bytes, double(KIBI)), double(KIBI));
        let mut rate_residual = double(ZERO);
        if self.rate_ewma.below(double(ZERO)) {
            self.rate_ewma = rate;
        } else {
            let kept = times(double(EWMA_KEEP), self.rate_ewma);
            let gained = times(double(EWMA_GAIN), bytes);
            self.rate_ewma = plus(kept, over(over(gained, double(KIBI)), double(KIBI)));
            rate_residual = minus(self.rate_ewma, rate);
        }
        if self.rate_residuals.len() >= RESIDUALS {
            self.rate_residuals.pop_front();
        }
        self.rate_residuals.push_back(rate_residual);
        self.rate_ewmv = exec_variance(&self.rate_residuals);
        self.last_update_ewma_time = clock;
    }
}

} // verus!
