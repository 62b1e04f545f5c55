//! What holds of the target rate: more delay and a larger delta lower it.

use crate::arith::{closest, prod, quot, whole};
use crate::double::{lemma_magnitude_order, magnitude, Double, INFINITY_BITS};
use crate::laws::law_truncation;
use crate::measures::lemma_finite;
use crate::model::Readings;
use crate::numbers::{number, BOUNCE_GAIN};
use crate::order::{
    is_measure, lemma_closest_exact, lemma_closest_order, lemma_measure, lemma_measure_order,
    lemma_power_pattern, lemma_prod_order, lemma_quot_order, lemma_twice, power_pattern, twice,
};
use crate::rounding::{
    lemma_nearest_exact, lemma_nearest_exists, lemma_nearest_order, nearest,
};
use crate::seconds::{lemma_secs, lemma_secs_order, secs};
use crate::span::Span;
use crate::state::Mortise;
use vstd::arithmetic::div_mod::{
    lemma_div_is_ordered, lemma_div_multiples_vanish, lemma_div_of0,
};
use vstd::arithmetic::mul::lemma_mul_is_commutative;
use vstd::arithmetic::power2::{lemma_pow2_pos, lemma_pow2_unfold, pow2};
use vstd::prelude::*;

verus! {

/// The target rate before a bounce, where `delay` queues.
pub open spec fn unbounced(s: Mortise, delay: Span) -> int {
    quot(
        quot(whole(s.config.max_datagram_size), s.delta),
        secs(delay.longer(Span::of_micros(1))),
    ).truncated()
}

/// A datagram of no size has no target rate.
proof fn lemma_nothing(s: Mortise, delay: Span)
    requires
        s.config.max_datagram_size == 0,
        is_measure(s.delta),
    ensures
        unbounced(s, delay) == 0,
{
    let w = pow2(1074) as int;
    let x = secs(delay.longer(Span::of_micros(1)));
    lemma_pow2_pos(1074);
    lemma_secs(delay.longer(Span::of_micros(1)));
    lemma_closest_exact(0);
    lemma_measure_order(whole(0), s.delta);
    lemma_measure_order(s.delta, x);
    lemma_measure_order(x, x);
    lemma_magnitude_order(0, 0);
    if 0 < s.delta.payload() < INFINITY_BITS {
        lemma_nearest_exact(0, s.delta.scaled(), 0);
    }
    lemma_nearest_exact(0, x.scaled(), 0);
    lemma_div_of0(w);
}

/// A larger delta and a longer delay do not raise the target rate before a bounce.
proof fn lemma_unbounced(s: Mortise, t: Mortise, delay: Span, longer: Span)
    requires
        s.config.max_datagram_size == t.config.max_datagram_size,
        is_measure(s.delta),
        is_measure(t.delta),
        s.delta.payload() <= t.delta.payload(),
        delay.nanos <= longer.nanos,
    ensures
        0 <= unbounced(t, longer) <= unbounced(s, delay) <= u64::MAX,
{
    let size = whole(s.config.max_datagram_size);
    let (x, y) = (delay.longer(Span::of_micros(1)), longer.longer(Span::of_micros(1)));
    lemma_finite(s.config.max_datagram_size);
    lemma_secs(x);
    lemma_secs(y);
    lemma_secs_order(x, y);
    if s.config.max_datagram_size == 0 {
        lemma_nothing(s, delay);
        lemma_nothing(t, longer);
    } else {
        let (a, b) = (quot(size, t.delta), quot(size, s.delta));
        lemma_rate_pattern(s.config.max_datagram_size);
        lemma_measure(0);
        lemma_measure(INFINITY_BITS as int);
        if 0 < t.delta.payload() < INFINITY_BITS {
            lemma_quot_order(size, t.delta, size, t.delta);
        }
        if 0 < s.delta.payload() < INFINITY_BITS {
            lemma_quot_order(size, s.delta, size, s.delta);
            if t.delta.is_finite() {
                lemma_quot_order(size, t.delta, size, s.delta);
            }
        }
        assert(is_measure(a) && is_measure(b) && a.payload() <= b.payload());
        lemma_quot_order(a, secs(y), b, secs(x));
        let (c, d) = (quot(a, secs(y)), quot(b, secs(x)));
        lemma_measure_order(c, d);
        law_truncation(c, d);
        law_truncation(d, d);
    }
}

/// A bounce does not lower a rate.
proof fn lemma_bounce_raises(rate: u64)
    ensures
        prod(whole(rate), number(BOUNCE_GAIN)).truncated() >= rate,
{
    let (w, gain) = (pow2(1074) as int, magnitude(BOUNCE_GAIN as int));
    let x = whole(rate);
    let p = x.payload();
    let m = x.scaled();
    lemma_finite(rate);
    lemma_measure_order(x, x);
    lemma_pow2_pos(1074);
    law_truncation(prod(x, number(BOUNCE_GAIN)), x);
    if rate > 0 {
        let exact = rate * w;
        assert(exact >= 1) by (nonlinear_arith)
            requires
                rate >= 1,
                w >= 1,
                exact == rate * w,
        ;
        lemma_nearest_exists(exact, 1);
        lemma_measure(nearest(exact, 1));
        // The rate lies below the point halfway to the next pattern, and so below
        // twice the pattern.
        lemma_twice(p);
        lemma_rate_pattern(rate);
        lemma_magnitude_order(p + 1, twice(p));
        assert(exact <= 2 * m);
        // The product is not below twice the pattern either.
        lemma_power_pattern(1075);
        lemma_pow2_unfold(1075);
        lemma_magnitude_order(power_pattern(1075), BOUNCE_GAIN as int);
        assert((2 * m) * w <= (m * gain) * 1 && 0 <= m * gain) by (nonlinear_arith)
            requires
                gain >= 2 * w,
                m >= 0,
                w > 0,
        ;
        lemma_nearest_exact(2 * m, 1, twice(p));
        lemma_nearest_order(2 * m, 1, m * gain, w);
        lemma_nearest_exists(m * gain, w);
        let y = nearest(m * gain, w);
        lemma_measure(y);
        lemma_magnitude_order(twice(p), y);
        lemma_div_is_ordered(exact, magnitude(y), w);
        lemma_div_multiples_vanish(rate as int, w);
        lemma_mul_is_commutative(rate as int, w);
    }
}

/// The pattern of an integer of 64 bits, but for 0, is above the smallest and has
/// room for one of twice its value.
proof fn lemma_rate_pattern(rate: u64)
    requires
        rate > 0,
    ensures
        1 <= whole(rate).payload(),
        twice(whole(rate).payload()) <= INFINITY_BITS,
        whole(rate).payload() + 1 <= twice(whole(rate).payload()),
{
    lemma_pow2_pos(1074);
    lemma_finite(rate);
    lemma_closest_exact(1);
    lemma_closest_order(1, rate as int);
    lemma_measure_order(closest(1, 1), whole(rate));
}

/// A larger rate is bounced to a larger one.
proof fn lemma_bounce_order(rate: u64, other: u64)
    requires
        rate <= other,
    ensures
        prod(whole(rate), number(BOUNCE_GAIN)).truncated() <= prod(
            whole(other),
            number(BOUNCE_GAIN),
        ).truncated(),
{
    lemma_closest_order(rate as int, other as int);
    lemma_prod_order(whole(rate), whole(other), number(BOUNCE_GAIN));
    let (a, b) = (prod(whole(rate), number(BOUNCE_GAIN)), prod(whole(other), number(BOUNCE_GAIN)));
    lemma_measure_order(a, b);
    law_truncation(a, b);
}

/// A larger delta prefers low delay: it does not raise the target rate.
pub proof fn law_delta_lowers_target(s: Mortise, delta: Double, readings: Readings)
    requires
        is_measure(s.delta),
        is_measure(delta),
        s.delta.is_at_most(delta),
    ensures
        (Mortise { delta, ..s }).target(readings) <= s.target(readings),
{
    let t = Mortise { delta, ..s };
    let delay = s.queueing_delay(readings);
    lemma_measure_order(s.delta, delta);
    if delay.nanos != 0 {
        lemma_unbounced(s, t, delay, delay);
        let (low, high) = (unbounced(t, delay) as u64, unbounced(s, delay) as u64);
        lemma_bounce_order(low, high);
        lemma_bounce_raises(high);
    }
}

/// More queueing delay does not raise the target rate.
pub proof fn law_delay_lowers_target(s: Mortise, readings: Readings, later: Readings)
    requires
        is_measure(s.delta),
        0 < s.queueing_delay(readings).nanos <= s.queueing_delay(later).nanos,
    ensures
        s.target(later) <= s.target(readings),
{
    let (delay, longer) = (s.queueing_delay(readings), s.queueing_delay(later));
    lemma_unbounced(s, s, delay, longer);
    lemma_bounce_order(unbounced(s, longer) as u64, unbounced(s, delay) as u64);
}

} // verus!
