//! What the rules that choose delta come to, in plain arithmetic, but for rounding.

use crate::arith::{closest, diff, prod, quot, sum, whole};
use crate::config::MortiseConfig;
use crate::double::{lemma_magnitude_order, Double};
use crate::events::{least, most};
use crate::measures::law_competitive_delta_doubles;
use crate::near::{
    in_range, lemma_decimal, lemma_diff_signed, lemma_divided, lemma_integer_near, lemma_multiplied,
    lemma_near_scaled, lemma_near_self, lemma_near_wider, lemma_prod_near, lemma_quot_near,
    lemma_quot_twice, lemma_sum_near, near,
};
use crate::numbers::{
    law_numbers, number, CURRENT_DECAY, MAX_DELTA, ONE, PREDICTIVE_DECAY, PROBE_DELAY_CAP,
    PROBE_WEIGHT, THOUSAND,
};
use crate::order::{
    is_measure, lemma_closest_exact, lemma_closest_order, lemma_measure, lemma_measure_order,
    lemma_power_pattern, lemma_quot_order, power_pattern,
};
use crate::quantities::{is_weight, lemma_weight};
use crate::rounding::{
    lemma_nearest_bound, lemma_nearest_exact, lemma_nearest_exists, lemma_nearest_order,
    lemma_packed, nearest, signed,
};
use crate::state::{CompetingMode, Mortise};
use vstd::arithmetic::mul::lemma_mul_nonnegative;
use vstd::arithmetic::power2::{
    lemma2_to64, lemma2_to64_rest, lemma_pow2_adds, lemma_pow2_pos, lemma_pow2_strictly_increases,
    lemma_pow2_unfold, pow2,
};
use vstd::prelude::*;

verus! {

/// The loss rate of a lossy round: more than 0.06, and at most everything.
pub open spec fn is_heavy_loss(rate: Double) -> bool {
    is_measure(rate) && closest(6, 100).scaled() < rate.scaled() <= pow2(1074)
}

/// One plus a loss rate.
pub(crate) proof fn lemma_one_plus(rate: Double)
    requires
        is_heavy_loss(rate),
    ensures
        near(sum(number(ONE), rate).scaled(), pow2(1074) + rate.scaled(), 1),
        in_range(sum(number(ONE), rate), 1074, 1075),
        sum(number(ONE), rate).is_finite(),
        number(ONE).scaled() == pow2(1074),
        is_measure(number(ONE)),
        rate.is_finite(),
{
    let w = pow2(1074) as int;
    let one = number(ONE);
    law_numbers();
    lemma_closest_exact(1);
    lemma_pow2_unfold(1075);
    lemma_pow2_pos(1074);
    lemma_measure_order(rate, one);
    lemma_sum_near(one, rate, 1075);
    lemma_power_pattern(1074);
    lemma_nearest_exact(w, 1, power_pattern(1074));
    lemma_nearest_order(w, 1, w + rate.scaled(), 1);
    lemma_nearest_exists(w + rate.scaled(), 1);
    lemma_measure(nearest(w + rate.scaled(), 1));
    lemma_magnitude_order(
        power_pattern(1074),
        nearest(w + rate.scaled(), 1),
    );
}

/// A lossy round divides delta in steady state by one plus the loss rate, holds it to
/// a half, and sets the lower bound to it: times one plus the loss rate it gives the
/// former one back. It is not above the former one, unless that was above a half.
pub proof fn law_loss_divides_delta(s: Mortise, min_rtt: u64)
    requires
        is_heavy_loss(s.round.loss_rate),
        is_weight(s.config.steady_delta),
    ensures
        ({
            let after = s.after_predic(min_rtt);
            let (old_delta, new_delta) = (
                s.config.steady_delta.scaled(),
                after.config.steady_delta.scaled(),
            );
            let whole_loss = pow2(1074) + s.round.loss_rate.scaled();
            let half = closest(5, 10).scaled();
            &&& after.min_delta == after.config.steady_delta
            &&& 0 <= new_delta <= half
            &&& new_delta <= old_delta
            &&& new_delta < half ==> near(new_delta * whole_loss, old_delta * pow2(1074), 8)
            &&& new_delta == half ==> 0x10_0000_0000_0000 * (half * whole_loss) <= (
            0x10_0000_0000_0000 + 8) * (old_delta * pow2(1074))
            &&& after == Mortise {
                min_delta: after.min_delta,
                config: MortiseConfig {
                    steady_delta: after.config.steady_delta,
                    ..s.config
                },
                ..s
            }
        }),
{
    let w = pow2(1074) as int;
    let (f, loss) = (s.config.steady_delta, s.round.loss_rate);
    let d = sum(number(ONE), loss);
    let q = quot(f, d);
    law_numbers();
    lemma_one_plus(loss);
    lemma_weight(f);
    lemma_pow2_pos(1074);
    lemma_decimal(5, 10);
    lemma_quot_near(f, 174, 1900, d, 1074, 1075, 173, 1900);
    lemma_measure_order(q, number(MAX_DELTA));
    lemma_measure_order(q, f);
    let (x, y, z) = (f.scaled(), d.scaled(), q.scaled());
    lemma_near_self(x, 0);
    lemma_divided(z, x, y, w, 1, x, 0, 1, w + loss.scaled(), 1);
    assert(z * 1 * (w + loss.scaled()) == z * (w + loss.scaled()) && x * w * 1 == x * w)
        by (nonlinear_arith);
    lemma_mul_nonnegative(x, w);
    lemma_near_wider(z * (w + loss.scaled()), x * w, 4, 8);
    // Not above the former one.
    assert(x * w <= x * y) by (nonlinear_arith)
        requires
            w <= y,
            0 <= x,
    ;
    lemma_nearest_bound(x * w, y, f.payload());
    lemma_measure(nearest(x * w, y));
    let half = closest(5, 10).scaled();
    if q.scaled() >= half {
        let total = w + loss.scaled();
        assert(0x10_0000_0000_0000 * (half * total) <= 0x10_0000_0000_0000 * (z * total))
            by (nonlinear_arith)
            requires
                half <= z,
                total >= 0,
        ;
    }
}

/// Of two states that differ in the former delta, the one with half of it comes out of
/// a lossy round with half the delta.
pub proof fn law_loss_scales_delta(s: Mortise, t: Mortise, min_rtt: u64)
    requires
        is_heavy_loss(s.round.loss_rate),
        s.round.loss_rate == t.round.loss_rate,
        is_weight(s.config.steady_delta),
        is_weight(t.config.steady_delta),
        t.config.steady_delta.scaled() == 2 * s.config.steady_delta.scaled(),
        t.after_predic(min_rtt).config.steady_delta.scaled() < closest(5, 10).scaled(),
    ensures
        t.after_predic(min_rtt).config.steady_delta.scaled() == 2 * s.after_predic(
            min_rtt,
        ).config.steady_delta.scaled(),
{
    let d = sum(number(ONE), s.round.loss_rate);
    let (f, g) = (s.config.steady_delta, t.config.steady_delta);
    law_numbers();
    lemma_decimal(5, 10);
    lemma_one_plus(s.round.loss_rate);
    lemma_weight(f);
    lemma_weight(g);
    lemma_quot_near(f, 174, 1900, d, 1074, 1075, 173, 1900);
    lemma_quot_near(g, 174, 1900, d, 1074, 1075, 173, 1900);
    lemma_quot_twice(f, 174, 1900, g, d, 1074, 1075, 173, 1900);
    lemma_measure_order(quot(f, d), number(MAX_DELTA));
    lemma_measure_order(quot(g, d), number(MAX_DELTA));
}

/// The loss rate of a round that is not lossy: at most 0.06, or none.
pub open spec fn is_light_loss(rate: Double) -> bool {
    rate.is_nan() || rate.scaled() <= closest(6, 100).scaled()
}

/// `r` is `num / den` of `x`, but for rounding.
pub open spec fn is_share(r: int, x: int, num: int, den: int) -> bool {
    near(den * r, num * x, 8)
}

/// A product with a decimal is that share.
proof fn lemma_share(x: Double, num: int, den: int)
    requires
        is_weight(x),
        1 <= num <= 1_000,
        1 <= den <= 1_000,
    ensures
        is_share(prod(x, closest(num, den)).scaled(), x.scaled(), num, den),
        is_measure(prod(x, closest(num, den))),
        prod(x, closest(num, den)).is_finite(),
{
    let (w, c) = (pow2(1074) as int, closest(num, den));
    lemma_weight(x);
    lemma_pow2_pos(1074);
    lemma_pow2_pos(1044);
    lemma_decimal(num, den);
    lemma_prod_near(x, 174, 1900, c, 1044, 1104, 144, 1930);
    let (y, z) = (x.scaled(), prod(x, c).scaled());
    lemma_near_self(y, 0);
    lemma_mul_nonnegative(num, w);
    lemma_multiplied(z, y, c.scaled(), w, 1, y, 0, den, num * w, 1);
    assert(z * w * (1 * den) == (den * z) * w && y * (num * w) == (num * y) * w)
        by (nonlinear_arith);
    lemma_near_scaled(den * z, num * y, 4, w);
    lemma_mul_nonnegative(num, y);
    lemma_near_wider(den * z, num * y, 4, 8);
}

/// Where the round was not lossy, the lower bound on delta decays to 98 of 100 parts of
/// it, but not below 0.04; and unless the sender queue is swollen, with ten responses
/// under way of which four are large, delta in steady state is that lower bound.
pub proof fn law_lower_bound_decays(s: Mortise, min_rtt: u64)
    requires
        is_light_loss(s.round.loss_rate),
        is_weight(s.min_delta),
    ensures
        ({
            let after = s.after_predic(min_rtt);
            &&& exists|r: int| #[trigger]
                is_share(r, s.min_delta.scaled(), 98, 100) && after.min_delta.scaled() == most(
                    r,
                    closest(4, 100).scaled(),
                )
            &&& s.sending_resp < 10 || s.sending_large_resp < 4 ==> after.config.steady_delta
                == after.min_delta
            &&& after == Mortise {
                min_delta: after.min_delta,
                config: MortiseConfig {
                    steady_delta: after.config.steady_delta,
                    ..s.config
                },
                ..s
            }
        }),
{
    let m = s.min_delta;
    let x = prod(m, number(PREDICTIVE_DECAY));
    law_numbers();
    lemma_decimal(4, 100);
    lemma_decimal(6, 100);
    lemma_share(m, 98, 100);
    assert(is_share(x.scaled(), m.scaled(), 98, 100));
}

/// `probe` is 12 divided by a delay of `micros` microseconds, in milliseconds, and by
/// `rate`, but for rounding.
pub open spec fn is_probe(probe: int, micros: int, rate: int) -> bool {
    near(probe * (rate * micros), 12_000int * (pow2(1074) * pow2(1074)), 16)
}

/// Microseconds in milliseconds, held to a cap of `cap` milliseconds.
pub(crate) proof fn lemma_capped_millis(micros: u64, cap: int)
    requires
        micros > 0,
        1 <= cap <= 1_000,
    ensures
        ({
            let rtt = quot(whole(micros), number(THOUSAND));
            let delay = rtt.lesser(closest(cap, 1));
            &&& in_range(rtt, 1064, 1129)
            &&& rtt.is_finite()
            &&& near(rtt.scaled() * 1_000, micros * pow2(1074), 4)
            &&& in_range(delay, 1064, 1129)
            &&& delay.is_finite()
            &&& near(
                delay.scaled() * 1_000,
                least(micros as int, 1_000 * cap) * pow2(1074),
                4,
            )
        }),
{
    let w = pow2(1074) as int;
    let (a, k) = (whole(micros), number(THOUSAND));
    let rtt = quot(a, k);
    let top = closest(cap, 1);
    law_numbers();
    lemma_pow2_pos(1074);
    lemma2_to64();
    lemma_pow2_adds(1074, 9);
    lemma_pow2_adds(1074, 10);
    lemma_closest_exact(1_000);
    lemma_closest_exact(cap);
    lemma_measure_order(k, top);
    lemma_measure_order(top, top);
    lemma_integer_near(micros as int);
    lemma_quot_near(a, 1074, 1138, k, 1083, 1084, 1064, 1129);
    let (x, z) = (a.scaled(), rtt.scaled());
    lemma_mul_nonnegative(micros as int, w);
    lemma_near_self(1_000 * w, 0);
    lemma_divided(z, x, 1_000 * w, w, 1, micros * w, 1, 1, 1_000 * w, 0);
    assert(z * 1 * (1_000 * w) == (z * 1_000) * w && (micros * w) * w * 1 == (micros * w) * w)
        by (nonlinear_arith);
    lemma_near_scaled(z * 1_000, micros * w, 4, w);
    // The cap is reached with the microseconds.
    let edge = (1_000 * cap) as u64;
    let b = whole(edge);
    lemma_closest_exact(1_000 * cap);
    lemma_measure_order(b, b);
    assert(b.scaled() * w == top.scaled() * k.scaled() && 0 <= b.scaled() * w) by (nonlinear_arith)
        requires
            b.scaled() == (1_000 * cap) * w,
            top.scaled() == cap * w,
            k.scaled() == 1_000 * w,
            cap >= 1,
            w > 0,
    ;
    lemma_nearest_exact(b.scaled() * w, k.scaled(), top.payload());
    lemma_measure(top.payload());
    lemma_pow2_strictly_increases(1064, 1074);
    lemma_pow2_adds(1074, 55);
    lemma_pow2_adds(1119, 10);
    lemma_pow2_strictly_increases(1074, 1119);
    assert(w <= cap * w <= pow2(1084)) by (nonlinear_arith)
        requires
            1 <= cap <= 1_000,
            w > 0,
            pow2(1084) == w * 1024,
    ;
    lemma_pow2_strictly_increases(1084, 1129);
    lemma_measure_order(rtt, top);
    if micros <= edge {
        lemma_closest_order(micros as int, edge as int);
        lemma_quot_order(a, k, b, k);
    } else {
        lemma_closest_order(edge as int, micros as int);
        lemma_quot_order(b, k, a, k);
        assert(top.scaled() * 1_000 == (1_000 * cap) * w) by (nonlinear_arith)
            requires
                top.scaled() == cap * w,
        ;
        lemma_near_self((1_000 * cap) * w, 4);
    }
}

/// Twelve divided by a delay and by a rate.
proof fn lemma_probe(delay: Double, micros: int, rate: Double)
    requires
        in_range(delay, 1064, 1129),
        delay.is_finite(),
        near(delay.scaled() * 1_000, micros * pow2(1074), 4),
        0 < micros,
        is_weight(rate),
    ensures
        is_measure(quot(quot(number(PROBE_WEIGHT), delay), rate)),
        is_probe(
            quot(quot(number(PROBE_WEIGHT), delay), rate).scaled(),
            micros,
            rate.scaled(),
        ),
{
    let w = pow2(1074) as int;
    let c = number(PROBE_WEIGHT);
    let a = quot(c, delay);
    let r = rate.scaled();
    law_numbers();
    lemma_pow2_pos(1074);
    lemma_pow2_pos(1064);
    lemma2_to64();
    lemma_pow2_adds(1074, 3);
    lemma_pow2_adds(1074, 4);
    lemma_closest_exact(12);
    lemma_measure_order(c, delay);
    lemma_measure_order(delay, delay);
    lemma_weight(rate);
    lemma_quot_near(c, 1077, 1078, delay, 1064, 1129, 1022, 1088);
    lemma_pow2_pos(1022);
    lemma_quot_near(a, 1022, 1088, rate, 174, 1900, 196, 1988);
    let (y, z) = (a.scaled(), quot(a, rate).scaled());
    lemma_near_self(12 * w, 0);
    assert(micros * w > 0) by (nonlinear_arith)
        requires
            micros > 0,
            w > 0,
    ;
    lemma_divided(y, 12 * w, delay.scaled(), w, 1, 12 * w, 0, 1_000, micros * w, 4);
    assert(y * 1 * (micros * w) == (y * micros) * w && (12 * w) * w * 1_000 == (12_000 * w) * w)
        by (nonlinear_arith);
    lemma_near_scaled(y * micros, 12_000 * w, 7, w);
    lemma_near_self(r, 0);
    lemma_divided(z, y, r, w, micros, 12_000 * w, 7, 1, r, 0);
    assert(z * micros * r == z * (r * micros) && (12_000 * w) * w * 1 == 12_000 * (w * w))
        by (nonlinear_arith);
    lemma_mul_nonnegative(w, w);
    lemma_near_wider(z * (r * micros), 12_000 * (w * w), 10, 16);
}

/// Where the round was not lossy and the sender queue is swollen, delta in steady state
/// is 12 divided by the minimum round trip in milliseconds, at most 40, and by the
/// average rate, but not below the lower bound nor above 0.4.
pub proof fn law_probing(s: Mortise, min_rtt: u64)
    requires
        is_light_loss(s.round.loss_rate),
        s.sending_resp >= 10,
        s.sending_large_resp >= 4,
        is_weight(s.rate_ewma),
        is_weight(s.min_delta),
        min_rtt > 0,
    ensures
        ({
            let after = s.after_predic(min_rtt);
            exists|probe: int| #[trigger]
                is_probe(probe, least(min_rtt as int, 40_000), s.rate_ewma.scaled())
                    && after.config.steady_delta.scaled() == least(
                    most(after.min_delta.scaled(), probe),
                    closest(4, 10).scaled(),
                )
        }),
{
    let delay = quot(whole(min_rtt), number(THOUSAND)).lesser(number(PROBE_DELAY_CAP));
    let x = quot(quot(number(PROBE_WEIGHT), delay), s.rate_ewma);
    law_numbers();
    lemma_decimal(4, 10);
    lemma_decimal(4, 100);
    lemma_decimal(6, 100);
    lemma_share(s.min_delta, 98, 100);
    lemma_capped_millis(min_rtt, 40);
    lemma_probe(delay, least(min_rtt as int, 40_000), s.rate_ewma);
    assert(is_probe(x.scaled(), least(min_rtt as int, 40_000), s.rate_ewma.scaled()));
}

/// A loss rate above 0.1 calls for competitive mode, and no other does. In competitive
/// mode delta doubles, up to a half; in default mode it is the configured one. Nothing
/// else changes.
pub proof fn law_mode_settles_delta(s: Mortise)
    ensures
        ({
            let after = s.after_mode();
            let competitive = !s.round.loss_rate.is_nan() && s.round.loss_rate.scaled() > closest(
                1,
                10,
            ).scaled();
            &&& (after.mode == CompetingMode::Competitive) == competitive
            &&& competitive && is_measure(s.delta) ==> after.delta.scaled() == least(
                2 * s.delta.scaled(),
                closest(5, 10).scaled(),
            )
            &&& competitive && s.delta.is_nan() ==> after.delta == closest(5, 10)
            &&& !competitive && s.slow_start ==> after.delta == s.config.slow_start_delta
            &&& !competitive && !s.slow_start ==> after.delta == s.config.steady_delta
            &&& after == Mortise { mode: after.mode, delta: after.delta, ..s }
        }),
{
    law_numbers();
    lemma_decimal(1, 10);
    lemma_decimal(5, 10);
    if s.mode_called_for() == CompetingMode::Competitive && is_measure(s.delta) {
        law_competitive_delta_doubles(s);
    }
}

/// Under the current rule a lossy round divides delta in steady state by one less the
/// loss rate, and holds it to a half; what is left must not be nothing.
pub proof fn law_current_loss_divides_delta(s: Mortise, min_rtt: u64)
    requires
        is_heavy_loss(s.round.loss_rate),
        s.round.loss_rate.scaled() < pow2(1074),
        is_weight(s.config.steady_delta),
    ensures
        ({
            let after = s.after_cur(min_rtt);
            let (old_delta, new_delta) = (
                s.config.steady_delta.scaled(),
                after.config.steady_delta.scaled(),
            );
            let kept = pow2(1074) - s.round.loss_rate.scaled();
            let half = closest(5, 10).scaled();
            &&& after.min_delta == after.config.steady_delta
            &&& 0 <= new_delta <= half
            &&& new_delta < half ==> near(new_delta * kept, old_delta * pow2(1074), 8)
            &&& new_delta == half ==> 0x10_0000_0000_0000 * (half * kept) <= (0x10_0000_0000_0000
                + 8) * (old_delta * pow2(1074))
            &&& after == Mortise {
                min_delta: after.min_delta,
                config: MortiseConfig {
                    steady_delta: after.config.steady_delta,
                    ..s.config
                },
                ..s
            }
        }),
{
    let w = pow2(1074) as int;
    let (f, loss) = (s.config.steady_delta, s.round.loss_rate);
    let d = diff(number(ONE), loss);
    let q = quot(f, d);
    let kept = w - loss.scaled();
    law_numbers();
    lemma_one_plus(loss);
    lemma_weight(f);
    lemma_pow2_pos(1074);
    lemma_decimal(5, 10);
    lemma_closest_exact(1);
    lemma_measure_order(loss, number(ONE));
    lemma_diff_signed(number(ONE), loss, 1074);
    // What is left is at least the step below one.
    lemma_below_one(loss);
    lemma_pow2_pos(1020);
    lemma_pow2_unfold(1021);
    assert(d.scaled() >= pow2(1020)) by (nonlinear_arith)
        requires
            kept >= 2 * pow2(1020),
            (0x10_0000_0000_0000 - 1) * kept <= 0x10_0000_0000_0000 * d.scaled(),
    ;
    lemma_positive_is_measure(d);
    lemma_quot_near(f, 174, 1900, d, 1020, 1074, 174, 1954);
    lemma_measure_order(q, number(MAX_DELTA));
    let (x, y, z) = (f.scaled(), d.scaled(), q.scaled());
    lemma_near_self(x, 0);
    lemma_divided(z, x, y, w, 1, x, 0, 1, kept, 1);
    assert(z * 1 * kept == z * kept && x * w * 1 == x * w) by (nonlinear_arith);
    lemma_mul_nonnegative(x, w);
    lemma_near_wider(z * kept, x * w, 4, 8);
    let half = closest(5, 10).scaled();
    if q.scaled() >= half {
        assert(0x10_0000_0000_0000 * (half * kept) <= 0x10_0000_0000_0000 * (z * kept))
            by (nonlinear_arith)
            requires
                half <= z,
                kept >= 0,
        ;
    }
}

/// A number of positive value is not negative.
proof fn lemma_positive_is_measure(x: Double)
    requires
        x.is_finite(),
        x.scaled() > 0,
    ensures
        is_measure(x),
{
    lemma_magnitude_order(0, x.payload());
}

/// A number below one is at least a step below it.
proof fn lemma_below_one(x: Double)
    requires
        is_measure(x),
        x.scaled() < pow2(1074),
    ensures
        pow2(1074) - x.scaled() >= pow2(1021),
{
    let top = power_pattern(1074);
    lemma_power_pattern(1074);
    lemma_measure(top);
    lemma_measure_order(signed(false, top), x);
    lemma_magnitude_order(x.payload(), top - 1);
    lemma2_to64_rest();
    lemma_pow2_adds(1021, 53);
    lemma_packed(0x1f_ffff_ffff_ffff, 1021);
    let step = pow2(1021) as int;
    assert(0x1f_ffff_ffff_ffff * step == 0x20_0000_0000_0000 * step - step) by (nonlinear_arith);
}

/// Under the current rule the lower bound on delta decays to nine tenths of it, but not
/// below 0.05, where the round was not lossy; and delta in steady state is the best
/// candidate that is not below it.
pub proof fn law_current_lower_bound_decays(s: Mortise, min_rtt: u64)
    requires
        is_light_loss(s.round.loss_rate),
        is_weight(s.min_delta),
    ensures
        ({
            let after = s.after_cur(min_rtt);
            &&& exists|r: int| #[trigger]
                is_share(r, s.min_delta.scaled(), 9, 10) && after.min_delta.scaled() == most(
                    r,
                    closest(5, 100).scaled(),
                )
            &&& after.config.steady_delta == s.best_weighed(min_rtt).0
            &&& after == Mortise {
                min_delta: after.min_delta,
                config: MortiseConfig {
                    steady_delta: after.config.steady_delta,
                    ..s.config
                },
                ..s
            }
        }),
{
    let m = s.min_delta;
    let x = prod(m, number(CURRENT_DECAY));
    law_numbers();
    lemma_decimal(5, 100);
    lemma_decimal(6, 100);
    lemma_share(m, 9, 10);
    assert(is_share(x.scaled(), m.scaled(), 9, 10));
}

/// What is left of a rising sequence by a filter rises.
pub(crate) proof fn lemma_filter_rises(deltas: Seq<Double>, keep: spec_fn(Double) -> bool)
    requires
        forall|i: int, j: int|
            0 <= i < j < deltas.len() ==> (#[trigger] deltas[i]).scaled() < (
            #[trigger] deltas[j]).scaled(),
    ensures
        forall|i: int, j: int|
            0 <= i < j < deltas.filter(keep).len() ==> (#[trigger] deltas.filter(keep)[i]).scaled()
                < (#[trigger] deltas.filter(keep)[j]).scaled(),
        forall|i: int|
            0 <= i < deltas.filter(keep).len() ==> deltas.contains(
                #[trigger] deltas.filter(keep)[i],
            ),
    decreases deltas.len(),
{
    reveal(Seq::filter);
    if deltas.len() > 0 {
        let front = deltas.drop_last();
        assert forall|i: int, j: int| 0 <= i < j < front.len() implies (
        #[trigger] front[i]).scaled() < (#[trigger] front[j]).scaled() by {
            assert(front[i] == deltas[i] && front[j] == deltas[j]);
        }
        lemma_filter_rises(front, keep);
        let (kept, part) = (deltas.filter(keep), front.filter(keep));
        let last = deltas.last();
        assert(last == deltas[deltas.len() - 1]);
        assert forall|i: int| 0 <= i < part.len() implies deltas.contains(
            #[trigger] part[i],
        ) && part[i].scaled() < last.scaled() by {
            let k = choose|k: int| 0 <= k < front.len() && front[k] == part[i];
            assert(deltas[k] == front[k]);
        }
        assert forall|i: int| 0 <= i < kept.len() implies deltas.contains(#[trigger] kept[i]) by {
            if i < part.len() {
                assert(kept[i] == part[i]);
            }
        }
        assert forall|i: int, j: int| 0 <= i < j < kept.len() implies (#[trigger] kept[i]).scaled()
            < (#[trigger] kept[j]).scaled() by {
            if j < part.len() {
                assert(kept[i] == part[i] && kept[j] == part[j]);
            } else {
                assert(kept[i] == part[i]);
            }
        }
    }
}

} // verus!
