//! What the rates and the window come to, in plain arithmetic, but for rounding.

use crate::arith::{closest, prod, quot, whole};
use crate::double::{lemma_magnitude_order, magnitude, Double, INFINITY_BITS};
use crate::events::{law_standing_round_trip, least, most};
use crate::laws::law_truncation;
use crate::model::Readings;
use crate::near::{
    in_range, is_whole_part, lemma_decimal, lemma_divided, lemma_integer_near, lemma_integer_twice,
    lemma_multiplied, lemma_near_chain, lemma_near_quotient, lemma_near_scaled, lemma_near_self,
    lemma_near_sum, lemma_near_wider, lemma_prod_near, lemma_quot_near, lemma_quot_twice,
    lemma_sum_near, lemma_whole_part, near,
};
use crate::numbers::{law_numbers, number, BILLION, BOUNCE_GAIN};
use crate::order::{
    is_measure, lemma_closest_exact, lemma_measure, lemma_measure_order, lemma_power_pattern,
    power_pattern,
};
use crate::rounding::{lemma_nearest_exact, signed};
use crate::seconds::{lemma_secs, secs, NANOS_PER_SECOND};
use crate::span::Span;
use crate::state::{Direction, Mortise, Velocity};
use vstd::arithmetic::div_mod::{lemma_div_of0, lemma_fundamental_div_mod};
use vstd::arithmetic::mul::lemma_mul_nonnegative;
use vstd::arithmetic::power2::{
    lemma2_to64, lemma_pow2_adds, lemma_pow2_pos, lemma_pow2_strictly_increases, lemma_pow2_unfold,
    pow2,
};
use vstd::prelude::*;

verus! {

/// The seconds of a span are its nanoseconds, of which a thousand million make one,
/// but for rounding.
pub proof fn law_seconds(span: Span)
    requires
        span.nanos > 0,
    ensures
        near(secs(span).scaled() * 1_000_000_000, span.nanos * pow2(1074), 3),
        in_range(secs(span), 1043, 1203),
        secs(span).is_finite(),
{
    let w = pow2(1074) as int;
    let unit = NANOS_PER_SECOND as int;
    let (q, r) = (span.nanos as int / unit, span.nanos as int % unit);
    let (a, b) = (closest(q, 1), closest(r, 1));
    let c = quot(b, number(BILLION));
    lemma_pow2_pos(1074);
    lemma2_to64();
    lemma_secs(span);
    law_numbers();
    lemma_closest_exact(1_000_000_000);
    lemma_closest_exact(0);
    lemma_closest_exact(r);
    lemma_measure(0);
    lemma_magnitude_order(0, 0);
    lemma_measure_order(number(BILLION), number(BILLION));
    let bill = number(BILLION).scaled();
    lemma_pow2_adds(1074, 29);
    lemma_pow2_adds(1074, 30);
    lemma_pow2_strictly_increases(1074, 1202);
    // The whole seconds.
    if q > 0 {
        lemma_integer_near(q);
    } else {
        lemma_near_self(0, 1);
    }
    // The rest.
    if r > 0 {
        lemma_integer_near(r);
        assert(w <= b.scaled() <= pow2(1104)) by (nonlinear_arith)
            requires
                b.scaled() == r * w,
                1 <= r <= 1_000_000_000,
                pow2(1104) == w * 0x4000_0000,
                w > 0,
        ;
        lemma_quot_near(b, 1074, 1104, number(BILLION), 1103, 1104, 1044, 1075);
        let x = c.scaled();
        assert(x * bill == (x * 1_000_000_000) * w && b.scaled() * w == (r * w) * w)
            by (nonlinear_arith)
            requires
                bill == 1_000_000_000 * w,
                b.scaled() == r * w,
        ;
        lemma_near_scaled(x * 1_000_000_000, r * w, 1, w);
    } else {
        lemma_nearest_exact(0, bill, 0);
        lemma_near_self(0, 1);
    }
    // Both.
    lemma_pow2_strictly_increases(1075, 1202);
    lemma_pow2_unfold(1203);
    lemma_measure_order(a, c);
    lemma_sum_near(a, c, 1203);
    let (x, y, z) = (a.scaled(), c.scaled(), secs(span).scaled());
    lemma_near_scaled(x, q * w, 1, 1_000_000_000);
    lemma_near_sum(
        x * 1_000_000_000,
        (q * w) * 1_000_000_000,
        y * 1_000_000_000,
        r * w,
        1,
    );
    lemma_fundamental_div_mod(span.nanos as int, unit);
    assert((q * w) * 1_000_000_000 + r * w == span.nanos * w) by (nonlinear_arith)
        requires
            span.nanos == 1_000_000_000 * q + r,
    ;
    lemma_near_scaled(z, x + y, 1, 1_000_000_000);
    lemma_near_chain(
        z * 1_000_000_000,
        (x + y) * 1_000_000_000,
        span.nanos * w,
        1,
        1,
    );
    lemma_pow2_adds(1043, 31);
    assert(pow2(1043) <= z) by (nonlinear_arith)
        requires
            (0x10_0000_0000_0000 - 3) * (span.nanos * w) <= 0x10_0000_0000_0000 * (z
                * 1_000_000_000),
            span.nanos >= 1,
            w == pow2(1043) * 0x8000_0000,
            pow2(1043) >= 0,
    ;
}

/// Nothing divided by a positive number is nothing.
pub(crate) proof fn lemma_nothing_divided(a: Double, b: Double)
    requires
        is_measure(a),
        a.payload() == 0,
        is_measure(b),
        0 < b.payload() < INFINITY_BITS,
    ensures
        is_measure(quot(a, b)),
        quot(a, b).payload() == 0,
        quot(a, b).scaled() == 0,
        quot(a, b).truncated() == 0,
{
    lemma_magnitude_order(0, 0);
    lemma_measure_order(b, b);
    lemma_nearest_exact(0, b.scaled(), 0);
    lemma_measure(0);
    lemma_pow2_pos(1074);
    lemma_div_of0(pow2(1074) as int);
}

/// Nothing is the whole part of nothing.
proof fn lemma_whole_part_of_nothing(den: int, parts: int)
    requires
        den > 0,
        parts >= 0,
    ensures
        is_whole_part(0, 0, den, parts),
{
    assert(0x10_0000_0000_0000 * (0 * den) <= (0x10_0000_0000_0000 + parts) * 0 && (
    0x10_0000_0000_0000 - parts) * 0 < 0x10_0000_0000_0000 * ((0 + 1) * den)) by (nonlinear_arith)
        requires
            den > 0,
    ;
}

/// The rate at which the window is used up is the window per standing round trip, in
/// whole bytes per second.
pub proof fn law_rate_of_window(s: Mortise, reading: u64)
    ensures
        is_whole_part(
            s.rate_of_window(reading),
            s.cwnd * 1_000_000_000,
            s.standing_rtt(reading).nanos as int,
            8,
        ),
{
    let span = s.standing_rtt(reading);
    let n = span.nanos as int;
    let (w, t) = (pow2(1074) as int, secs(span));
    lemma_pow2_pos(1074);
    law_standing_round_trip(s, reading);
    law_seconds(span);
    lemma_pow2_pos(1043);
    lemma_measure_order(t, t);
    if s.cwnd == 0 {
        lemma_closest_exact(0);
        lemma_measure_order(whole(0), t);
        lemma_nothing_divided(whole(0), t);
        lemma_whole_part_of_nothing(n, 8);
    } else {
        let a = whole(s.cwnd);
        lemma_integer_near(s.cwnd as int);
        lemma_quot_near(a, 1074, 1138, t, 1043, 1203, 945, 1169);
        let (x, y, z) = (a.scaled(), t.scaled(), quot(a, t).scaled());
        // z * y is near x * w, and so near cwnd * w * w.
        lemma_near_scaled(x, s.cwnd * w, 1, w);
        assert(0 <= z * y && 0 <= x * w && 0 <= (s.cwnd * w) * w) by (nonlinear_arith)
            requires
                0 <= z,
                0 <= y,
                0 <= x,
                0 < w,
                0 <= s.cwnd,
        ;
        lemma_near_chain(z * y, x * w, (s.cwnd * w) * w, 1, 1);
        // y * 10^9 is near n * w.
        let (c, d) = (y * 1_000_000_000, n * w);
        lemma_near_scaled(z * y, (s.cwnd * w) * w, 3, 1_000_000_000 * n);
        assert((z * y) * (1_000_000_000 * n) == (z * n) * c && ((s.cwnd * w) * w) * (1_000_000_000
            * n) == (s.cwnd * 1_000_000_000 * w) * d) by (nonlinear_arith)
            requires
                c == y * 1_000_000_000,
                d == n * w,
        ;
        assert(0 <= z * n && 0 <= s.cwnd * 1_000_000_000 * w && 0 < c && 0 < d && 0
            < 1_000_000_000 * n) by (nonlinear_arith)
            requires
                0 <= z,
                0 < n,
                0 <= s.cwnd,
                0 < w,
                0 < y,
                c == y * 1_000_000_000,
                d == n * w,
        ;
        lemma_near_quotient(z * n, s.cwnd * 1_000_000_000 * w, c, d, 3, 3);
        lemma_near_wider(z * n, s.cwnd * 1_000_000_000 * w, 7, 8);
        lemma_whole_part(quot(a, t), s.cwnd * 1_000_000_000, n, 8);
    }
}

/// A number that is neither tiny nor huge: between two to the powers -900 and 826.
pub open spec fn is_weight(x: Double) -> bool {
    in_range(x, 174, 1900)
}

/// A rate is bounced to 2.2 times of it, in whole bytes per second.
proof fn lemma_bounced(rate: u64)
    ensures
        is_whole_part(prod(whole(rate), number(BOUNCE_GAIN)).truncated(), 22 * rate, 10, 8),
{
    let w = pow2(1074) as int;
    let (a, g) = (whole(rate), number(BOUNCE_GAIN));
    lemma_pow2_pos(1074);
    law_numbers();
    lemma_decimal(22, 10);
    lemma_measure_order(g, g);
    lemma_pow2_pos(1044);
    if rate == 0 {
        lemma_closest_exact(0);
        lemma_measure_order(a, g);
        lemma_magnitude_order(0, 0);
        assert(magnitude(0) * g.scaled() == 0 && magnitude(0) * w == 0) by (nonlinear_arith)
            requires
                magnitude(0) == 0,
        ;
        lemma_nearest_exact(0, w, 0);
        lemma_measure(0);
        lemma_div_of0(w);
        lemma_whole_part_of_nothing(10, 8);
    } else {
        lemma_integer_near(rate as int);
        lemma_prod_near(a, 1074, 1138, g, 1044, 1104, 1044, 1168);
        let z = prod(a, g).scaled();
        lemma_mul_nonnegative(rate as int, w);
        lemma_multiplied(z, a.scaled(), g.scaled(), w, 1, rate * w, 1, 10, 22 * w, 1);
        assert(z * w * (1 * 10) == (z * 10) * w && (rate * w) * (22 * w) == ((22 * rate) * w) * w)
            by (nonlinear_arith);
        lemma_near_scaled(z * 10, (22 * rate) * w, 5, w);
        lemma_mul_nonnegative(22 * rate, w);
        lemma_near_wider(z * 10, (22 * rate) * w, 5, 8);
        lemma_whole_part(prod(a, g), 22 * rate, 10, 8);
    }
}

/// The target rate before a bounce.
proof fn lemma_target(s: Mortise, span: Span)
    requires
        is_weight(s.delta),
        span.nanos > 0,
    ensures
        is_whole_part(
            quot(quot(whole(s.config.max_datagram_size), s.delta), secs(span)).truncated(),
            s.config.max_datagram_size * 1_000_000_000 * pow2(1074),
            s.delta.scaled() * span.nanos,
            12,
        ),
{
    let w = pow2(1074) as int;
    let size = s.config.max_datagram_size;
    let (b, t) = (whole(size), secs(span));
    let n = span.nanos as int;
    let a = quot(b, s.delta);
    let d = s.delta.scaled();
    lemma_pow2_pos(1074);
    lemma_pow2_pos(174);
    lemma_pow2_pos(1043);
    law_seconds(span);
    lemma_weight(s.delta);
    lemma_measure_order(t, t);
    assert(d * n > 0) by (nonlinear_arith)
        requires
            d > 0,
            n > 0,
    ;
    if size == 0 {
        lemma_closest_exact(0);
        assert(b == closest(0, 1) && 0 * w == 0);
        lemma_measure_order(b, t);
        lemma_nothing_divided(b, s.delta);
        lemma_nothing_divided(a, t);
        lemma_whole_part_of_nothing(d * n, 12);
        assert(size * 1_000_000_000 * w == 0) by (nonlinear_arith)
            requires
                size == 0,
        ;
    } else {
        lemma_integer_near(size as int);
        lemma_quot_near(b, 1074, 1138, s.delta, 174, 1900, 248, 2038);
        lemma_pow2_pos(248);
        lemma_quot_near(a, 248, 2038, t, 1043, 1203, 119, 2069);
        let (x, z) = (a.scaled(), quot(a, t).scaled());
        lemma_mul_nonnegative(size as int, w);
        lemma_mul_nonnegative(size * w, w);
        lemma_near_self(d, 0);
        lemma_divided(x, b.scaled(), d, w, 1, size * w, 1, 1, d, 0);
        assert(x * 1 * d == x * d && (size * w) * w * 1 == (size * w) * w) by (nonlinear_arith);
        assert(n * w > 0) by (nonlinear_arith)
            requires
                n > 0,
                w > 0,
        ;
        lemma_divided(z, x, t.scaled(), w, d, (size * w) * w, 4, 1_000_000_000, n * w, 3);
        let num = size * 1_000_000_000 * w;
        assert(z * d * (n * w) == (z * (d * n)) * w && ((size * w) * w) * w * 1_000_000_000 == (num
            * w) * w) by (nonlinear_arith)
            requires
                num == size * 1_000_000_000 * w,
        ;
        lemma_near_scaled(z * (d * n), num * w, 10, w);
        assert(0 <= num && 0 <= num * w) by (nonlinear_arith)
            requires
                num == size * 1_000_000_000 * w,
                size >= 0,
                w > 0,
        ;
        lemma_near_wider(z * (d * n), num * w, 10, 12);
        lemma_whole_part(quot(a, t), num, d * n, 12);
    }
}

pub(crate) proof fn lemma_weight(delta: Double)
    requires
        is_weight(delta),
    ensures
        delta.is_finite(),
        0 < delta.payload() < INFINITY_BITS,
        0 < delta.scaled(),
{
    lemma_pow2_pos(174);
    lemma_measure_order(delta, delta);
    lemma_power_pattern(1900);
    lemma_measure(power_pattern(1900));
    lemma_measure_order(
        delta,
        signed(false, power_pattern(1900)),
    );
}

/// Without a queueing delay the target rate is the rate at which the window is used
/// up. With one it is a datagram per delta and delay, where a delay below a microsecond
/// counts as one; and 2.2 times that where delta is below 0.2, the window was falling,
/// and the number of the interval is no multiple of eight.
pub proof fn law_target_rate(s: Mortise, readings: Readings)
    requires
        is_weight(s.delta),
    ensures
        ({
            let delay = s.queueing_delay(readings).nanos as int;
            let num = s.config.max_datagram_size * 1_000_000_000 * pow2(1074);
            let den = s.delta.scaled() * most(delay, 1_000);
            let bounced = s.delta.scaled() < closest(2, 10).scaled() && s.velocity.direction
                == Direction::Down && s.intervals_cnt % 8 != 0;
            &&& delay == 0 ==> s.target(readings) == s.rate_of_window(readings.standing_rtt)
            &&& delay > 0 && !bounced ==> is_whole_part(s.target(readings), num, den, 12)
            &&& delay > 0 && bounced ==> exists|rate: int| #[trigger]
                is_whole_part(rate, num, den, 12) && is_whole_part(
                    s.target(readings),
                    22 * rate,
                    10,
                    8,
                )
            &&& s.rates(readings).bounced == (delay > 0 && bounced)
        }),
{
    let delay = s.queueing_delay(readings);
    let span = delay.longer(Span::of_micros(1));
    law_numbers();
    lemma_decimal(2, 10);
    lemma_weight(s.delta);
    if delay.nanos > 0 {
        lemma_target(s, span);
        let x = quot(quot(whole(s.config.max_datagram_size), s.delta), secs(span));
        law_truncation(x, x);
        lemma_bounced(x.truncated() as u64);
        assert(span.nanos == most(delay.nanos as int, 1_000));
        assert(is_whole_part(
            x.truncated(),
            s.config.max_datagram_size * 1_000_000_000 * pow2(1074),
            s.delta.scaled() * most(delay.nanos as int, 1_000),
            12,
        ));
    }
}

/// The target rate is kept, and the window is to grow exactly where it is not below
/// the rate at which the window is used up. The report tells the rates.
pub proof fn law_rates(s: Mortise, readings: Readings)
    ensures
        ({
            let after = s.after_rates(readings);
            let rate = s.rate_of_window(readings.standing_rtt);
            &&& after.target_rate == s.target(readings)
            &&& after.increase_cwnd == (after.target_rate >= rate)
            &&& s.rates(readings).current_rate == rate
            &&& s.rates(readings).queueing_delay == s.queueing_delay(readings)
            &&& after == Mortise {
                target_rate: after.target_rate,
                increase_cwnd: after.increase_cwnd,
                ..s
            }
        }),
{
    assert forall|x: Double| 0 <= #[trigger] x.truncated() <= u64::MAX by {
        law_truncation(x, x);
    }
}

/// By how many bytes the window moves outside slow start.
proof fn lemma_step(s: Mortise)
    requires
        is_weight(s.delta),
        s.cwnd > 0,
        s.velocity.velocity * s.ack_state.newly_acked_bytes * s.config.max_datagram_size
            <= u64::MAX,
    ensures
        is_whole_part(
            s.window_step() as int,
            s.velocity.velocity * s.ack_state.newly_acked_bytes * s.config.max_datagram_size
                * pow2(1074),
            s.delta.scaled() * s.cwnd,
            12,
        ),
        s.window_step() == quot(
            whole(s.step_product() as u64),
            prod(s.delta, whole(s.cwnd)),
        ).truncated(),
        in_range(prod(s.delta, whole(s.cwnd)), 174, 1964),
        prod(s.delta, whole(s.cwnd)).is_finite(),
{
    let w = pow2(1074) as int;
    let product = s.step_product();
    let (d, c) = (s.delta.scaled(), s.cwnd as int);
    let (b, m) = (whole(s.cwnd), prod(s.delta, whole(s.cwnd)));
    assert(product >= 0) by (nonlinear_arith)
        requires
            product == s.velocity.velocity * s.ack_state.newly_acked_bytes
                * s.config.max_datagram_size,
    ;
    let a = whole(product as u64);
    let q = quot(a, m);
    law_truncation(q, q);
    lemma_pow2_pos(1074);
    lemma_pow2_pos(174);
    lemma_weight(s.delta);
    lemma_integer_near(c);
    lemma_prod_near(s.delta, 174, 1900, b, 1074, 1138, 174, 1964);
    lemma_measure_order(m, m);
    assert(d * c > 0 && c * w > 0) by (nonlinear_arith)
        requires
            d > 0,
            c > 0,
            w > 0,
    ;
    if product == 0 {
        lemma_closest_exact(0);
        lemma_measure_order(a, m);
        lemma_nothing_divided(a, m);
        lemma_whole_part_of_nothing(d * c, 12);
        assert(product * w == 0) by (nonlinear_arith)
            requires
                product == 0,
        ;
    } else {
        lemma_integer_near(product);
        lemma_quot_near(a, 1074, 1138, m, 174, 1964, 184, 2038);
        lemma_near_self(d, 0);
        lemma_multiplied(m.scaled(), d, b.scaled(), w, 1, d, 0, 1, c * w, 1);
        assert(m.scaled() * w * (1 * 1) == m.scaled() * w && d * (c * w) == (d * c) * w)
            by (nonlinear_arith);
        lemma_near_scaled(m.scaled(), d * c, 4, w);
        lemma_mul_nonnegative(product, w);
        let z = q.scaled();
        lemma_divided(z, a.scaled(), m.scaled(), w, 1, product * w, 1, 1, d * c, 4);
        assert(z * 1 * (d * c) == z * (d * c) && (product * w) * w * 1 == (product * w) * w)
            by (nonlinear_arith);
        lemma_mul_nonnegative(product * w, w);
        lemma_near_wider(z * (d * c), (product * w) * w, 8, 12);
        lemma_whole_part(q, product * w, d * c, 12);
    }
}

/// Outside slow start the window moves up or down by the whole part of velocity times
/// acknowledged bytes times datagram size, divided by delta times the window. It
/// moves as far as 64 bits let it, and the minimal window takes the place of an empty
/// one, with a velocity of 1. In slow start it grows by what was acknowledged. Slow
/// start ends where the window is to shrink.
pub proof fn law_window_moves(s: Mortise)
    requires
        is_weight(s.delta),
        s.cwnd > 0,
        s.velocity.velocity * s.ack_state.newly_acked_bytes * s.config.max_datagram_size
            <= u64::MAX,
    ensures
        ({
            let after = s.after_cwnd();
            let product = s.velocity.velocity * s.ack_state.newly_acked_bytes
                * s.config.max_datagram_size;
            let (num, den) = (product * pow2(1074), s.delta.scaled() * s.cwnd);
            let top = u64::MAX as int;
            &&& after.slow_start == (s.slow_start && s.increase_cwnd)
            &&& s.slow_start && s.increase_cwnd ==> after.velocity == s.velocity && after.cwnd
                == least(s.cwnd + s.ack_state.newly_acked_bytes, top)
            &&& !s.slow_start && s.increase_cwnd ==> after.velocity == s.velocity && exists|
                step: int,
            | #[trigger]
                is_whole_part(step, num, den, 12) && after.cwnd == least(s.cwnd + step, top)
            &&& !s.increase_cwnd ==> exists|step: int| #[trigger]
                is_whole_part(step, num, den, 12) && if step < s.cwnd {
                    after.cwnd == s.cwnd - step && after.velocity == s.velocity
                } else {
                    &&& after.cwnd == s.config.min_cwnd
                    &&& after.velocity == Velocity { velocity: 1, ..s.velocity }
                }
            &&& after == Mortise {
                slow_start: after.slow_start,
                cwnd: after.cwnd,
                velocity: after.velocity,
                ..s
            }
        }),
{
    lemma_step(s);
    let product = s.velocity.velocity * s.ack_state.newly_acked_bytes * s.config.max_datagram_size;
    let (num, den) = (product * pow2(1074), s.delta.scaled() * s.cwnd);
    let step = s.window_step() as int;
    assert(is_whole_part(step, num, den, 12));
    if !s.slow_start && s.increase_cwnd {
        assert(s.after_cwnd().cwnd == least(s.cwnd + step, u64::MAX as int));
    }
    if !s.increase_cwnd {
        if step < s.cwnd {
            assert(s.after_cwnd().cwnd == s.cwnd - step);
        } else {
            assert(s.after_cwnd().cwnd == s.config.min_cwnd);
        }
    }
}

/// With twice the velocity the window grows at least twice as far, as long as it does
/// not saturate.
pub proof fn law_velocity_doubles_step(s: Mortise, t: Mortise)
    requires
        is_weight(s.delta),
        s.cwnd > 0,
        !s.slow_start,
        s.increase_cwnd,
        t.velocity.velocity == 2 * s.velocity.velocity,
        t == (Mortise { velocity: t.velocity, ..s }),
        t.velocity.velocity * s.ack_state.newly_acked_bytes * s.config.max_datagram_size
            <= u64::MAX,
        t.after_cwnd().cwnd < u64::MAX,
    ensures
        t.after_cwnd().cwnd - t.cwnd >= 2 * (s.after_cwnd().cwnd - s.cwnd),
{
    let w = pow2(1074) as int;
    let product = s.step_product();
    let (v, a, b) = (
        s.velocity.velocity as int,
        s.ack_state.newly_acked_bytes as int,
        s.config.max_datagram_size as int,
    );
    assert((2 * v) * a * b == 2 * product && 0 <= product) by (nonlinear_arith)
        requires
            product == v * a * b,
            0 <= v,
            0 <= a,
            0 <= b,
    ;
    lemma_step(s);
    lemma_step(t);
    lemma_pow2_pos(1074);
    lemma_pow2_pos(174);
    let m = prod(s.delta, whole(s.cwnd));
    lemma_measure_order(m, m);
    let (x, y) = (whole(product as u64), whole((2 * product) as u64));
    assert(t.step_product() == 2 * product);
    if product == 0 {
        lemma_closest_exact(0);
        assert(x == closest(0, 1) && 0 * w == 0);
        lemma_measure_order(x, m);
        lemma_nothing_divided(x, m);
    } else {
        lemma_integer_near(product);
        lemma_integer_near(2 * product);
        lemma_integer_twice(product);
        lemma_quot_twice(x, 1074, 1138, y, m, 174, 1964, 184, 2038);
        lemma_quot_near(x, 1074, 1138, m, 174, 1964, 184, 2038);
        lemma_quot_near(y, 1074, 1138, m, 174, 1964, 184, 2038);
        let (p, q) = (quot(x, m), quot(y, m));
        lemma_fundamental_div_mod(p.scaled(), w);
        lemma_fundamental_div_mod(q.scaled(), w);
        let (i, j) = (p.scaled() / w, q.scaled() / w);
        assert(j >= 2 * i) by (nonlinear_arith)
            requires
                p.scaled() == w * i + p.scaled() % w,
                q.scaled() == w * j + q.scaled() % w,
                q.scaled() == 2 * p.scaled(),
                0 <= p.scaled() % w < w,
                0 <= q.scaled() % w < w,
        ;
        assert(t.window_step() == j);
    }
}

/// From the same state the window grows and shrinks by the same distance, as long as
/// it neither saturates nor becomes empty.
pub proof fn law_window_moves_evenly(s: Mortise, t: Mortise)
    requires
        !s.slow_start,
        s.increase_cwnd,
        t == (Mortise { increase_cwnd: false, ..s }),
        s.after_cwnd().cwnd < u64::MAX,
        s.after_cwnd().cwnd - s.cwnd < s.cwnd,
    ensures
        s.after_cwnd().cwnd - s.cwnd == t.cwnd - t.after_cwnd().cwnd,
{
}

} // verus!
