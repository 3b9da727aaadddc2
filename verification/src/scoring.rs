//! Scores of route candidates.
//!
//! Latency, jitter, loss, stability and handshake time are each mapped to a
//! score between zero and one, and weighed against each other: a jittery
//! route that is a little faster loses to a stable one.
//!
//! Loss enters through a power with a broken exponent. How close such a power
//! comes to the exact one depends on the machine, so it is handed in.
use vstd::arithmetic::power2::{
    lemma2_to64, lemma2_to64_rest, lemma_pow2_adds, lemma_pow2_pos, lemma_pow2_unfold, pow2,
};
use vstd::prelude::*;

use crate::double::{
    clamp, clamped, difference, divide, division, lemma_pattern_from, lemma_units_rise, minus,
    nearest, plus, product, sum, times, units, STEP, UNIT_DOUBLINGS,
};
use crate::model::{MeasuredSource, MetricsSnapshot, RouteCandidate, RouteCandidateView};
use crate::order::{
    is_quantity, law_bounds_keep_order, law_differences_keep_order, law_one_leaves_as_is,
    law_positions_follow_values, law_products_keep_order, law_quotients_keep_order,
    law_rounding_keeps_order, law_scaling_keeps_order, law_shares_are_at_most_one, law_sums_grow,
    law_sums_keep_order, law_weighed_sums_keep_order, law_whole_is_one, law_zero_leaves_as_is,
};
use crate::ratio::{
    counted, law_counts_are_exact, law_counts_are_positive, law_rounds_no_higher,
    law_rounds_no_lower, lemma_one, quotient,
};
use crate::reading::{Reading, HALF, INFINITE, ONE, SIGN, TWO, ZERO};
use crate::root::lemma_units_are;
use crate::views::views;
use crate::{Error, ErrorView};

verus! {

/// How much each metric counts in the score of a route.
#[derive(Clone, Copy, Debug, PartialEq)]
pub struct ScoreWeights {
    pub latency_weight: Reading,
    pub jitter_weight: Reading,
    pub loss_weight: Reading,
    pub stability_weight: Reading,
    pub handshake_weight: Reading,
}

/// 0.30
pub const LATENCY_WEIGHT: u64 = 0x3fd3_3333_3333_3333;

/// 0.20
pub const JITTER_WEIGHT: u64 = 0x3fc9_9999_9999_999a;

/// 0.30
pub const LOSS_WEIGHT: u64 = 0x3fd3_3333_3333_3333;

/// 0.15
pub const STABILITY_WEIGHT: u64 = 0x3fc3_3333_3333_3333;

/// 0.05
pub const HANDSHAKE_WEIGHT: u64 = 0x3fa9_9999_9999_999a;

pub open spec fn default_score_weights() -> ScoreWeights {
    ScoreWeights {
        latency_weight: Reading { bits: LATENCY_WEIGHT },
        jitter_weight: Reading { bits: JITTER_WEIGHT },
        loss_weight: Reading { bits: LOSS_WEIGHT },
        stability_weight: Reading { bits: STABILITY_WEIGHT },
        handshake_weight: Reading { bits: HANDSHAKE_WEIGHT },
    }
}

impl Default for ScoreWeights {
    /// Stability and loss dominate.
    fn default() -> (r: Self)
        ensures
            r == default_score_weights(),
    {
        ScoreWeights {
            latency_weight: Reading { bits: LATENCY_WEIGHT },
            jitter_weight: Reading { bits: JITTER_WEIGHT },
            loss_weight: Reading { bits: LOSS_WEIGHT },
            stability_weight: Reading { bits: STABILITY_WEIGHT },
            handshake_weight: Reading { bits: HANDSHAKE_WEIGHT },
        }
    }
}

/// 2^-52: weights that sum to no more count for nothing.
pub const EPSILON: u64 = 0x3cb0_0000_0000_0000;

/// 100.0
pub const HUNDRED: u64 = 0x4059_0000_0000_0000;

/// 10.0 ms: the jitter that halves its score.
pub const HALVING_JITTER_MS: u64 = 0x4024_0000_0000_0000;

/// 100.0 ms: the latency that halves its score.
pub const HALVING_LATENCY_MS: u64 = 0x4059_0000_0000_0000;

/// 0.5: the loss from which a route is of no use.
pub const USELESS_LOSS: u64 = 0x3fe0_0000_0000_0000;

/// 1.5 percent: the loss that halves its score.
pub const LOSS_SCALE: u64 = 0x3ff8_0000_0000_0000;

/// 0.015: the loss of 1.5 percent, as a share.
pub const HALVING_LOSS: u64 = 0x3f8e_b851_eb85_1eb8;

/// 50.0 ms: a handshake that is as quick as can be asked for.
pub const QUICK_HANDSHAKE_MS: u64 = 0x4049_0000_0000_0000;

/// 250.0 ms: what halves the score of a handshake on top of that.
pub const HALVING_HANDSHAKE_MS: u64 = 0x406f_4000_0000_0000;

pub open spec fn weight_sum(w: ScoreWeights) -> Reading {
    sum(
        sum(sum(sum(w.latency_weight, w.jitter_weight), w.loss_weight), w.stability_weight),
        w.handshake_weight,
    )
}

/// Whether a sum of weights counts for nothing.
pub open spec fn negligible(total: Reading) -> bool {
    Reading { bits: EPSILON }.at_least(total)
}

/// The weights as shares of their sum; the usual ones where there are none.
pub open spec fn normalized(w: ScoreWeights) -> ScoreWeights {
    let total = weight_sum(w);
    if negligible(total) {
        default_score_weights()
    } else {
        ScoreWeights {
            latency_weight: division(w.latency_weight, total),
            jitter_weight: division(w.jitter_weight, total),
            loss_weight: division(w.loss_weight, total),
            stability_weight: division(w.stability_weight, total),
            handshake_weight: division(w.handshake_weight, total),
        }
    }
}

impl ScoreWeights {
    pub fn normalize(&self) -> (r: ScoreWeights)
        ensures
            r == normalized(*self),
    {
        let total = plus(
            plus(
                plus(plus(self.latency_weight, self.jitter_weight), self.loss_weight),
                self.stability_weight,
            ),
            self.handshake_weight,
        );
        if (Reading { bits: EPSILON }) >= total {
            return ScoreWeights::default();
        }
        ScoreWeights {
            latency_weight: divide(self.latency_weight, total),
            jitter_weight: divide(self.jitter_weight, total),
            loss_weight: divide(self.loss_weight, total),
            stability_weight: divide(self.stability_weight, total),
            handshake_weight: divide(self.handshake_weight, total),
        }
    }
}

/// The scores of the metrics one by one, and the score in all.
#[derive(Clone, Copy, Debug, PartialEq)]
pub struct ScoreBreakdown {
    pub latency: Reading,
    pub jitter: Reading,
    pub loss: Reading,
    pub stability: Reading,
    pub handshake: Reading,
    pub total: Reading,
}

/// One over one and `x`.
pub open spec fn falling_off(x: Reading) -> Reading {
    division(Reading { bits: ONE }, sum(Reading { bits: ONE }, x))
}

pub fn fall_off(x: Reading) -> (r: Reading)
    ensures
        r == falling_off(x),
{
    divide(Reading { bits: ONE }, plus(Reading { bits: ONE }, x))
}

/// One over one and one is a half.
pub(crate) proof fn lemma_one_halves()
    ensures
        falling_off(Reading { bits: ONE }) == (Reading { bits: HALF }),
{
    let one = pow2(UNIT_DOUBLINGS as nat);
    lemma_one();
    lemma2_to64();
    lemma2_to64_rest();
    lemma_pow2_pos(UNIT_DOUBLINGS as nat);
    lemma_units_are(1023, STEP as nat);
    lemma_pow2_adds(52, 1023);
    lemma_pow2_unfold(1075);
    assert(units(TWO as nat) == 2 * one);
    law_rounds_no_higher(2 * one, 1, TWO);
    law_rounds_no_lower(2 * one, 1, TWO);
    lemma_units_are(1021, STEP as nat);
    lemma_pow2_adds(52, 1021);
    lemma_pow2_unfold(1074);
    let half = units(HALF as nat);
    assert(one == 2 * half);
    assert(one * one == half * (2 * one)) by (nonlinear_arith)
        requires
            one == 2 * half,
    ;
    law_rounds_no_higher(one * one, 2 * one, HALF);
    law_rounds_no_lower(one * one, 2 * one, HALF);
}

proof fn lemma_nearest_of_multiples(k: nat, m: nat, f: nat)
    requires
        m > 0,
        f > 0,
    ensures
        nearest(k * f, m * f) == nearest(k, m),
{
    let q = k / m;
    let r = k % m;
    vstd::arithmetic::div_mod::lemma_fundamental_div_mod(k as int, m as int);
    assert(k == q * m + r) by (nonlinear_arith)
        requires
            k == m * q + r,
    ;
    assert(m * f > 0 && r * f < m * f && k * f == q * (m * f) + r * f) by (nonlinear_arith)
        requires
            m > 0,
            f > 0,
            k == q * m + r,
            0 <= r < m,
    ;
    vstd::arithmetic::div_mod::lemma_fundamental_div_mod_converse(
        (k * f) as int,
        (m * f) as int,
        q as int,
        (r * f) as int,
    );
    assert(2 * (r * f) > m * f <==> 2 * r > m) by (nonlinear_arith)
        requires
            f > 0,
    ;
    assert(2 * (r * f) == m * f <==> 2 * r == m) by (nonlinear_arith)
        requires
            f > 0,
    ;
}

/// A loss of 1.5 percent is one on its scale.
proof fn lemma_halving_loss()
    ensures
        loss_in_scale(Reading { bits: HALVING_LOSS }) == (Reading { bits: ONE }),
{
    let a: nat = 0x1e_b851_eb85_1eb8;
    let b: nat = 0x19_0000_0000_0000;
    let k: nat = a * b;
    let f = pow2(2043);
    lemma2_to64();
    lemma2_to64_rest();
    lemma_units_are(1015, a);
    lemma_units_are(1028, b);
    assert(units(HALVING_LOSS as nat) == a * pow2(1015));
    assert(units(HUNDRED as nat) == b * pow2(1028));
    lemma_pow2_adds(1015, 1028);
    let n = (a * pow2(1015)) * (b * pow2(1028));
    assert(n == k * f) by (nonlinear_arith)
        requires
            n == (a * pow2(1015)) * (b * pow2(1028)),
            k == a * b,
            f == pow2(1015) * pow2(1028),
    ;
    let d = pow2(UNIT_DOUBLINGS as nat);
    lemma_pow2_pos(UNIT_DOUBLINGS as nat);
    lemma_pow2_pos(2043);
    lemma_pow2_adds(UNIT_DOUBLINGS as nat, 1022);
    lemma_pow2_adds(53, 2043);
    lemma_pow2_adds(UNIT_DOUBLINGS as nat, 1021);
    lemma_pow2_adds(52, 2043);
    let m: nat = 2 * STEP as nat;
    assert(d * pow2(1022) == m * f);
    assert(d * pow2(1021) == STEP * f);
    assert(2 * STEP * d * pow2(1021) == 2 * STEP * (STEP * f)) by (nonlinear_arith)
        requires
            d * pow2(1021) == STEP * f,
    ;
    assert(2 * STEP * d * pow2(1022) == 2 * STEP * (2 * STEP * f)) by (nonlinear_arith)
        requires
            d * pow2(1022) == m * f,
            m == 2 * STEP,
    ;
    assert(k * f >= 2 * STEP * (STEP * f) && k * f < 2 * STEP * (2 * STEP * f))
        by (nonlinear_arith)
        requires
            2 * STEP * STEP <= k < 2 * STEP * (2 * STEP),
            f > 0,
    ;
    lemma_pattern_from(n, d, 0, 1022);
    lemma_nearest_of_multiples(k, m, f);
    assert(nearest(k, m) == 0x18_0000_0000_0000);
    law_whole_is_one(Reading { bits: LOSS_SCALE });
}

/// Zero or less.
pub open spec fn none_of(x: Reading) -> bool {
    Reading { bits: ZERO }.at_least(x)
}

pub open spec fn score_of_latency(latency_ms: Reading) -> Reading {
    if none_of(latency_ms) {
        Reading { bits: ONE }
    } else {
        falling_off(division(latency_ms, Reading { bits: HALVING_LATENCY_MS }))
    }
}

/// One at no latency, a half at 100 ms, and less from there.
pub fn latency_score(latency_ms: Reading) -> (r: Reading)
    ensures
        r == score_of_latency(latency_ms),
        latency_ms.bits == HALVING_LATENCY_MS ==> r.bits == HALF,
{
    proof {
        lemma_one_halves();
        law_whole_is_one(Reading { bits: HALVING_LATENCY_MS });
    }
    if (Reading { bits: ZERO }) >= latency_ms {
        return Reading { bits: ONE };
    }
    fall_off(divide(latency_ms, Reading { bits: HALVING_LATENCY_MS }))
}

pub open spec fn score_of_jitter(jitter_ms: Reading) -> Reading {
    if none_of(jitter_ms) {
        Reading { bits: ONE }
    } else {
        falling_off(division(jitter_ms, Reading { bits: HALVING_JITTER_MS }))
    }
}

/// One at no jitter, a half at 10 ms, and less from there.
pub fn jitter_score(jitter_ms: Reading) -> (r: Reading)
    ensures
        r == score_of_jitter(jitter_ms),
        jitter_ms.bits == HALVING_JITTER_MS ==> r.bits == HALF,
{
    proof {
        lemma_one_halves();
        law_whole_is_one(Reading { bits: HALVING_JITTER_MS });
    }
    if (Reading { bits: ZERO }) >= jitter_ms {
        return Reading { bits: ONE };
    }
    fall_off(divide(jitter_ms, Reading { bits: HALVING_JITTER_MS }))
}

/// The loss in percent over 1.5.
pub open spec fn loss_in_scale(loss_ratio: Reading) -> Reading {
    division(product(loss_ratio, Reading { bits: HUNDRED }), Reading { bits: LOSS_SCALE })
}

/// What is raised to the power of 1.6 for the score of a loss.
pub fn loss_scale(loss_ratio: Reading) -> (r: Reading)
    ensures
        r == loss_in_scale(loss_ratio),
        loss_ratio.bits == HALVING_LOSS ==> r.bits == ONE,
{
    proof {
        lemma_halving_loss();
    }
    divide(times(loss_ratio, Reading { bits: HUNDRED }), Reading { bits: LOSS_SCALE })
}

/// One and the loss in percent over 1.5.
pub open spec fn base_of_loss(loss_ratio: Reading) -> Reading {
    sum(Reading { bits: ONE }, loss_in_scale(loss_ratio))
}

/// What is raised to a power for the health of a network or an edge.
pub fn loss_base(loss_ratio: Reading) -> (r: Reading)
    ensures
        r == base_of_loss(loss_ratio),
{
    plus(Reading { bits: ONE }, loss_scale(loss_ratio))
}

/// What the loss comes to on its scale, raised: one to any power is one, and
/// otherwise it is the power handed in.
pub open spec fn raised_loss(loss_ratio: Reading, power: Reading) -> Reading {
    if loss_in_scale(loss_ratio).bits == ONE {
        Reading { bits: ONE }
    } else {
        power
    }
}

pub open spec fn score_of_loss(loss_ratio: Reading, power: Reading) -> Reading {
    if none_of(loss_ratio) {
        Reading { bits: ONE }
    } else if loss_ratio.at_least(Reading { bits: USELESS_LOSS }) {
        Reading { bits: ZERO }
    } else {
        falling_off(raised_loss(loss_ratio, power))
    }
}

/// One at no loss, a half at 1.5 percent, and steeply less from there; zero
/// from one half on. `power` is `loss_scale` to the power of 1.6.
pub fn loss_score(loss_ratio: Reading, power: Reading) -> (r: Reading)
    ensures
        r == score_of_loss(loss_ratio, power),
        loss_ratio.bits == HALVING_LOSS ==> r.bits == HALF,
{
    proof {
        lemma_one_halves();
        lemma_halving_loss();
    }
    if (Reading { bits: ZERO }) >= loss_ratio {
        return Reading { bits: ONE };
    }
    if loss_ratio >= (Reading { bits: USELESS_LOSS }) {
        return Reading { bits: ZERO };
    }
    if loss_scale(loss_ratio).bits == ONE {
        return fall_off(Reading { bits: ONE });
    }
    fall_off(power)
}

/// The reading, brought between zero and one.
pub open spec fn share_of(x: Reading) -> Reading {
    clamped(x, Reading { bits: ZERO }, Reading { bits: ONE })
}

pub fn stability_score(stability: Reading) -> (r: Reading)
    ensures
        r == share_of(stability),
{
    clamp(stability, Reading { bits: ZERO }, Reading { bits: ONE })
}

pub open spec fn score_of_handshake(handshake_ms: Reading) -> Reading {
    if (Reading { bits: QUICK_HANDSHAKE_MS }).at_least(handshake_ms) {
        Reading { bits: ONE }
    } else {
        falling_off(
            division(
                difference(handshake_ms, Reading { bits: QUICK_HANDSHAKE_MS }),
                Reading { bits: HALVING_HANDSHAKE_MS },
            ),
        )
    }
}

/// One up to 50 ms, a half at 300 ms, and less from there.
pub fn handshake_score(handshake_ms: Reading) -> (r: Reading)
    ensures
        r == score_of_handshake(handshake_ms),
{
    if (Reading { bits: QUICK_HANDSHAKE_MS }) >= handshake_ms {
        return Reading { bits: ONE };
    }
    fall_off(
        divide(
            minus(handshake_ms, Reading { bits: QUICK_HANDSHAKE_MS }),
            Reading { bits: HALVING_HANDSHAKE_MS },
        ),
    )
}

pub open spec fn scores_of(m: MetricsSnapshot, loss_power: Reading) -> ScoreBreakdown {
    ScoreBreakdown {
        latency: score_of_latency(m.latency_ms),
        jitter: score_of_jitter(m.jitter_ms),
        loss: score_of_loss(m.packet_loss_ratio, loss_power),
        stability: share_of(m.stability),
        handshake: score_of_handshake(m.handshake_latency_ms),
        total: Reading { bits: ZERO },
    }
}

pub fn breakdown_for(metrics: &MetricsSnapshot, loss_power: Reading) -> (r: ScoreBreakdown)
    ensures
        r == scores_of(*metrics, loss_power),
{
    ScoreBreakdown {
        latency: latency_score(metrics.latency_ms),
        jitter: jitter_score(metrics.jitter_ms),
        loss: loss_score(metrics.packet_loss_ratio, loss_power),
        stability: stability_score(metrics.stability),
        handshake: handshake_score(metrics.handshake_latency_ms),
        total: Reading { bits: ZERO },
    }
}

/// A share as a score between zero and a hundred.
pub open spec fn out_of_hundred(raw: Reading) -> Reading {
    clamped(
        product(raw, Reading { bits: HUNDRED }),
        Reading { bits: ZERO },
        Reading { bits: HUNDRED },
    )
}

pub fn per_hundred(raw: Reading) -> (r: Reading)
    ensures
        r == out_of_hundred(raw),
{
    clamp(
        times(raw, Reading { bits: HUNDRED }),
        Reading { bits: ZERO },
        Reading { bits: HUNDRED },
    )
}

/// The scores of the metrics, weighed against each other.
pub open spec fn combined(weights: ScoreWeights, b: ScoreBreakdown) -> Reading {
    let w = normalized(weights);
    let raw = sum(
        sum(
            sum(
                sum(product(w.latency_weight, b.latency), product(w.jitter_weight, b.jitter)),
                product(w.loss_weight, b.loss),
            ),
            product(w.stability_weight, b.stability),
        ),
        product(w.handshake_weight, b.handshake),
    );
    out_of_hundred(raw)
}

pub fn combine(weights: &ScoreWeights, sub: &ScoreBreakdown) -> (r: Reading)
    ensures
        r == combined(*weights, *sub),
{
    let w = weights.normalize();
    let raw = plus(
        plus(
            plus(
                plus(times(w.latency_weight, sub.latency), times(w.jitter_weight, sub.jitter)),
                times(w.loss_weight, sub.loss),
            ),
            times(w.stability_weight, sub.stability),
        ),
        times(w.handshake_weight, sub.handshake),
    );
    per_hundred(raw)
}

/// The score of the metrics, between zero and a hundred.
#[verifier::opaque]
pub open spec fn score_of(w: ScoreWeights, m: MetricsSnapshot, loss_power: Reading) -> Reading {
    combined(w, scores_of(m, loss_power))
}

/// The score of the metrics and its parts. `loss_power` is `loss_scale` of the
/// loss to the power of 1.6.
pub fn score_snapshot(weights: &ScoreWeights, metrics: &MetricsSnapshot, loss_power: Reading) -> (r:
    (Reading, ScoreBreakdown))
    ensures
        r.0 == score_of(*weights, *metrics, loss_power),
        r.1 == (ScoreBreakdown { total: r.0, ..scores_of(*metrics, loss_power) }),
{
    reveal(score_of);
    let b = breakdown_for(metrics, loss_power);
    let total = combine(weights, &b);
    (total, ScoreBreakdown { total, ..b })
}

/// A score lies between zero and a hundred, where it is a number.
pub proof fn law_score_is_bounded(w: ScoreWeights, m: MetricsSnapshot, loss_power: Reading)
    ensures
        ({
            let s = score_of(w, m, loss_power);
            s.is_nan() || (s.at_least(Reading { bits: ZERO }) && (Reading {
                bits: HUNDRED,
            }).at_least(s))
        }),
{
    reveal(score_of);
}

/// One over one and a quantity is a share that falls as the quantity grows.
pub proof fn law_falling_off(x: Reading, y: Reading)
    requires
        is_quantity(x),
        is_quantity(y),
        x.position() <= y.position(),
    ensures
        is_quantity(falling_off(y)),
        falling_off(y).position() <= falling_off(x).position() <= ONE,
        falling_off(y).bits <= falling_off(x).bits <= ONE,
{
    let one = Reading { bits: ONE };
    law_sums_keep_order(one, x, one, y);
    law_sums_grow(one, x);
    law_sums_grow(one, y);
    law_quotients_keep_order(one, sum(one, y), one, sum(one, x));
    law_shares_are_at_most_one(one, sum(one, x));
}

/// A latency that is no lower never scores higher, and none scores above one.
pub proof fn law_latency_scores_fall(x: Reading, y: Reading)
    requires
        !x.is_nan(),
        !y.is_nan(),
        x.position() <= y.position(),
    ensures
        is_quantity(score_of_latency(y)),
        score_of_latency(y).position() <= score_of_latency(x).position() <= ONE,
        score_of_latency(y).bits <= score_of_latency(x).bits <= ONE,
{
    let halving = Reading { bits: HALVING_LATENCY_MS };
    if !none_of(y) {
        law_quotients_keep_order(y, halving, y, halving);
        law_falling_off(division(y, halving), division(y, halving));
    }
    if !none_of(x) {
        law_quotients_keep_order(x, halving, y, halving);
        law_falling_off(division(x, halving), division(y, halving));
    }
}

/// A jitter that is no lower never scores higher, and none scores above one.
pub proof fn law_jitter_scores_fall(x: Reading, y: Reading)
    requires
        !x.is_nan(),
        !y.is_nan(),
        x.position() <= y.position(),
    ensures
        is_quantity(score_of_jitter(y)),
        score_of_jitter(y).position() <= score_of_jitter(x).position() <= ONE,
        score_of_jitter(y).bits <= score_of_jitter(x).bits <= ONE,
{
    let halving = Reading { bits: HALVING_JITTER_MS };
    if !none_of(y) {
        law_quotients_keep_order(y, halving, y, halving);
        law_falling_off(division(y, halving), division(y, halving));
    }
    if !none_of(x) {
        law_quotients_keep_order(x, halving, y, halving);
        law_falling_off(division(x, halving), division(y, halving));
    }
}

/// A handshake that is no quicker never scores higher, and none scores above
/// one.
pub proof fn law_handshake_scores_fall(x: Reading, y: Reading)
    requires
        !x.is_nan(),
        !y.is_nan(),
        x.position() <= y.position(),
    ensures
        is_quantity(score_of_handshake(y)),
        score_of_handshake(y).position() <= score_of_handshake(x).position() <= ONE,
        score_of_handshake(y).bits <= score_of_handshake(x).bits <= ONE,
{
    let quick = Reading { bits: QUICK_HANDSHAKE_MS };
    let halving = Reading { bits: HALVING_HANDSHAKE_MS };
    if !quick.at_least(y) {
        law_differences_keep_order(y, y, quick);
        let b = difference(y, quick);
        law_quotients_keep_order(b, halving, b, halving);
        law_falling_off(division(b, halving), division(b, halving));
        if !quick.at_least(x) {
            law_differences_keep_order(x, y, quick);
            let a = difference(x, quick);
            law_quotients_keep_order(a, halving, b, halving);
            law_falling_off(division(a, halving), division(b, halving));
        }
    }
}

/// A loss that is no lower never has a lower base, and none has one below
/// one.
pub proof fn law_loss_bases_rise(x: Reading, y: Reading)
    requires
        is_quantity(x),
        is_quantity(y),
        x.position() <= y.position(),
    ensures
        !base_of_loss(y).is_nan(),
        ONE <= base_of_loss(x).position() <= base_of_loss(y).position(),
{
    let one = Reading { bits: ONE };
    let hundred = Reading { bits: HUNDRED };
    let scale = Reading { bits: LOSS_SCALE };
    law_scaling_keeps_order(x, y, hundred);
    let (a, b) = (product(x, hundred), product(y, hundred));
    law_quotients_keep_order(a, scale, b, scale);
    law_sums_keep_order(one, loss_in_scale(x), one, loss_in_scale(y));
    law_sums_grow(one, loss_in_scale(x));
}

/// Whether the two are what raising the bases of two losses, the first no
/// larger, to a positive power may give: one or more, in the same order.
pub open spec fn powers_in_order(x: Reading, y: Reading) -> bool {
    !x.is_nan() && !y.is_nan() && ONE <= x.position() <= y.position()
}

/// Whether two losses, raised, are what a positive power may give of them:
/// numbers, not negative, in the same order.
pub open spec fn raised_in_order(x: Reading, x_power: Reading, y: Reading, y_power: Reading) -> bool {
    let (a, b) = (raised_loss(x, x_power), raised_loss(y, y_power));
    is_quantity(a) && is_quantity(b) && a.position() <= b.position()
}

/// A loss that is no lower never scores higher, and none scores above one.
pub proof fn law_loss_scores_fall(x: Reading, y: Reading, x_power: Reading, y_power: Reading)
    requires
        !x.is_nan(),
        !y.is_nan(),
        x.position() <= y.position(),
        raised_in_order(x, x_power, y, y_power),
    ensures
        is_quantity(score_of_loss(y, y_power)),
        score_of_loss(y, y_power).position() <= score_of_loss(x, x_power).position() <= ONE,
        score_of_loss(y, y_power).bits <= score_of_loss(x, x_power).bits <= ONE,
{
    law_falling_off(raised_loss(x, x_power), raised_loss(y, y_power));
    law_falling_off(raised_loss(y, y_power), raised_loss(y, y_power));
}

/// Weights that are numbers, not infinite and not negative.
pub open spec fn are_usable(w: ScoreWeights) -> bool {
    &&& is_quantity(w.latency_weight) && w.latency_weight.is_finite()
    &&& is_quantity(w.jitter_weight) && w.jitter_weight.is_finite()
    &&& is_quantity(w.loss_weight) && w.loss_weight.is_finite()
    &&& is_quantity(w.stability_weight) && w.stability_weight.is_finite()
    &&& is_quantity(w.handshake_weight) && w.handshake_weight.is_finite()
}

/// Usable weights are usable shares of their sum.
pub proof fn law_shares_are_usable(w: ScoreWeights)
    requires
        are_usable(w),
    ensures
        are_usable(normalized(w)),
        normalized(w).latency_weight.position() <= ONE,
        normalized(w).jitter_weight.position() <= ONE,
        normalized(w).loss_weight.position() <= ONE,
        normalized(w).stability_weight.position() <= ONE,
        normalized(w).handshake_weight.position() <= ONE,
{
    let total = weight_sum(w);
    let two = sum(w.latency_weight, w.jitter_weight);
    let three = sum(two, w.loss_weight);
    let four = sum(three, w.stability_weight);
    law_sums_grow(w.latency_weight, w.jitter_weight);
    law_sums_grow(two, w.loss_weight);
    law_sums_grow(three, w.stability_weight);
    law_sums_grow(four, w.handshake_weight);
    if !negligible(total) {
        law_shares_are_at_most_one(w.latency_weight, total);
        law_shares_are_at_most_one(w.jitter_weight, total);
        law_shares_are_at_most_one(w.loss_weight, total);
        law_shares_are_at_most_one(w.stability_weight, total);
        law_shares_are_at_most_one(w.handshake_weight, total);
    }
}

/// Whether a metric of `a` is never a worse number than that of `b`.
pub open spec fn nowhere_worse(a: MetricsSnapshot, b: MetricsSnapshot) -> bool {
    &&& b.latency_ms.at_least(a.latency_ms)
    &&& b.jitter_ms.at_least(a.jitter_ms)
    &&& b.packet_loss_ratio.at_least(a.packet_loss_ratio)
    &&& a.stability.at_least(b.stability)
    &&& b.handshake_latency_ms.at_least(a.handshake_latency_ms)
}

/// Whether a score of `a` is never below that of `b`, all of them shares.
pub open spec fn scores_in_order(b: ScoreBreakdown, a: ScoreBreakdown) -> bool {
    &&& is_quantity(b.latency) && b.latency.position() <= a.latency.position() <= ONE
    &&& is_quantity(b.jitter) && b.jitter.position() <= a.jitter.position() <= ONE
    &&& is_quantity(b.loss) && b.loss.position() <= a.loss.position() <= ONE
    &&& is_quantity(b.stability) && b.stability.position() <= a.stability.position() <= ONE
    &&& is_quantity(b.handshake) && b.handshake.position() <= a.handshake.position() <= ONE
}

/// A share that is no lower is never a lower score.
pub proof fn law_out_of_hundred_keeps_order(low: Reading, high: Reading)
    requires
        is_quantity(low),
        is_quantity(high),
        low.position() <= high.position(),
    ensures
        out_of_hundred(high).at_least(out_of_hundred(low)),
{
    let hundred = Reading { bits: HUNDRED };
    law_scaling_keeps_order(low, high, hundred);
    law_bounds_keep_order(
        product(low, hundred),
        product(high, hundred),
        Reading { bits: ZERO },
        hundred,
    );
}

proof fn lemma_combined_in_order(w: ScoreWeights, b: ScoreBreakdown, a: ScoreBreakdown)
    requires
        are_usable(w),
        scores_in_order(b, a),
    ensures
        combined(w, a).at_least(combined(w, b)),
{
    law_shares_are_usable(w);
    let n = normalized(w);
    law_products_keep_order(n.latency_weight, b.latency, n.latency_weight, a.latency);
    let low = product(n.latency_weight, b.latency);
    let high = product(n.latency_weight, a.latency);
    law_weighed_sums_keep_order(low, high, n.jitter_weight, b.jitter, a.jitter);
    let low = sum(low, product(n.jitter_weight, b.jitter));
    let high = sum(high, product(n.jitter_weight, a.jitter));
    law_weighed_sums_keep_order(low, high, n.loss_weight, b.loss, a.loss);
    let low = sum(low, product(n.loss_weight, b.loss));
    let high = sum(high, product(n.loss_weight, a.loss));
    law_weighed_sums_keep_order(low, high, n.stability_weight, b.stability, a.stability);
    let low = sum(low, product(n.stability_weight, b.stability));
    let high = sum(high, product(n.stability_weight, a.stability));
    law_weighed_sums_keep_order(low, high, n.handshake_weight, b.handshake, a.handshake);
    let low = sum(low, product(n.handshake_weight, b.handshake));
    let high = sum(high, product(n.handshake_weight, a.handshake));
    law_out_of_hundred_keeps_order(low, high);
}

/// A route that is nowhere worse than another never scores lower, as long as
/// the weights are usable.
pub proof fn law_better_metrics_score_no_lower(
    w: ScoreWeights,
    better: MetricsSnapshot,
    better_power: Reading,
    other: MetricsSnapshot,
    other_power: Reading,
)
    requires
        are_usable(w),
        nowhere_worse(better, other),
        raised_in_order(
            better.packet_loss_ratio,
            better_power,
            other.packet_loss_ratio,
            other_power,
        ),
    ensures
        score_of(w, better, better_power).at_least(score_of(w, other, other_power)),
{
    reveal(score_of);
    law_latency_scores_fall(better.latency_ms, other.latency_ms);
    law_jitter_scores_fall(better.jitter_ms, other.jitter_ms);
    law_loss_scores_fall(
        better.packet_loss_ratio,
        other.packet_loss_ratio,
        better_power,
        other_power,
    );
    law_bounds_keep_order(
        other.stability,
        better.stability,
        Reading { bits: ZERO },
        Reading { bits: ONE },
    );
    law_handshake_scores_fall(better.handshake_latency_ms, other.handshake_latency_ms);
    lemma_combined_in_order(
        w,
        scores_of(other, other_power),
        scores_of(better, better_power),
    );
}

/// Whether every metric that counts in the score is a number.
pub open spec fn are_numbers(m: MetricsSnapshot) -> bool {
    &&& !m.latency_ms.is_nan()
    &&& !m.jitter_ms.is_nan()
    &&& !m.packet_loss_ratio.is_nan()
    &&& !m.stability.is_nan()
    &&& !m.handshake_latency_ms.is_nan()
}

/// Metrics that are numbers score a number between zero and a hundred, as long
/// as the weights are usable and the loss, raised, is a number and not
/// negative.
pub proof fn law_numbers_score_a_number(w: ScoreWeights, m: MetricsSnapshot, loss_power: Reading)
    requires
        are_usable(w),
        are_numbers(m),
        is_quantity(raised_loss(m.packet_loss_ratio, loss_power)),
    ensures
        !score_of(w, m, loss_power).is_nan(),
        0 <= score_of(w, m, loss_power).position() <= HUNDRED,
{
    law_better_metrics_score_no_lower(w, m, loss_power, m, loss_power);
    law_score_is_bounded(w, m, loss_power);
}

/// The usual weights are usable.
pub proof fn law_usual_weights_are_usable()
    ensures
        are_usable(default_score_weights()),
{
}

/// How many candidates, from the front, may be scored.
pub open spec fn admitted(candidates: Seq<RouteCandidateView>, allow_synthetic: bool) -> int
    decreases candidates.len(),
{
    if candidates.len() == 0 || (candidates[0].source == MeasuredSource::Synthetic
        && !allow_synthetic) {
        0
    } else {
        1 + admitted(candidates.drop_first(), allow_synthetic)
    }
}

/// The candidates with the first `n` scored.
pub open spec fn with_scores(
    w: ScoreWeights,
    candidates: Seq<RouteCandidateView>,
    loss_powers: Seq<Reading>,
    n: int,
) -> Seq<RouteCandidateView> {
    Seq::new(
        candidates.len(),
        |i: int|
            if i < n {
                RouteCandidateView {
                    score: Some(score_of(w, candidates[i].metrics(), loss_powers[i])),
                    ..candidates[i]
                }
            } else {
                candidates[i]
            },
    )
}

pub open spec fn synthetic_candidate() -> ErrorView {
    ErrorView::InvalidInput("synthetic candidate reached production scoring"@)
}

proof fn lemma_admitted(candidates: Seq<RouteCandidateView>, allow_synthetic: bool, n: int)
    requires
        0 <= n <= candidates.len(),
        forall|i: int|
            0 <= i < n ==> (#[trigger] candidates[i]).source == MeasuredSource::Real
                || allow_synthetic,
        n < candidates.len() ==> candidates[n].source == MeasuredSource::Synthetic
            && !allow_synthetic,
    ensures
        admitted(candidates, allow_synthetic) == n,
    decreases candidates.len(),
{
    if candidates.len() > 0 && n > 0 {
        assert(candidates[0].source == MeasuredSource::Real || allow_synthetic);
        assert forall|i: int| 0 <= i < n - 1 implies (
        #[trigger] candidates.drop_first()[i]).source == MeasuredSource::Real || allow_synthetic by {
            assert(candidates[i + 1].source == MeasuredSource::Real || allow_synthetic);
        }
        lemma_admitted(candidates.drop_first(), allow_synthetic, n - 1);
    }
}

/// Scores the candidates, in order. Stops with an error at the first
/// synthetic candidate, unless those are allowed. `loss_powers` holds
/// `loss_scale` of each loss to the power of 1.6.
pub fn score_all(
    weights: &ScoreWeights,
    candidates: &mut Vec<RouteCandidate>,
    loss_powers: &[Reading],
    allow_synthetic: bool,
) -> (r: crate::Result<()>)
    requires
        loss_powers@.len() == old(candidates)@.len(),
    ensures
        ({
            let n = admitted(views(old(candidates)@), allow_synthetic);
            &&& views(final(candidates)@) == with_scores(
                *weights,
                views(old(candidates)@),
                loss_powers@,
                n,
            )
            &&& match r {
                Ok(_) => n == old(candidates)@.len(),
                Err(e) => n < old(candidates)@.len() && e@ == synthetic_candidate(),
            }
        }),
{
    let mut i: usize = 0;
    let ghost before = views(candidates@);
    assert(before =~= with_scores(*weights, before, loss_powers@, 0));
    while i < candidates.len()
        invariant
            i <= candidates.len(),
            candidates@.len() == before.len(),
            loss_powers@.len() == before.len(),
            before == views(old(candidates)@),
            views(candidates@) == with_scores(*weights, before, loss_powers@, i as int),
            forall|j: int|
                0 <= j < i ==> (#[trigger] before[j]).source == MeasuredSource::Real
                    || allow_synthetic,
        decreases candidates.len() - i,
    {
        assert(candidates@[i as int]@ == views(candidates@)[i as int]);
        assert(candidates@[i as int]@ == before[i as int]);
        if candidates[i].source == MeasuredSource::Synthetic && !allow_synthetic {
            proof {
                lemma_admitted(before, allow_synthetic, i as int);
            }
            return Err(
                Error::InvalidInput("synthetic candidate reached production scoring".to_owned()),
            );
        }
        let mut c = candidates[i].clone();
        let (score, _breakdown) = score_snapshot(weights, &c.metrics(), loss_powers[i]);
        c.score = Some(score);
        let ghost held = candidates@;
        candidates.set(i, c);
        assert(views(candidates@) =~= with_scores(*weights, before, loss_powers@, i + 1)) by {
            assert forall|j: int| 0 <= j < before.len() implies views(candidates@)[j]
                == with_scores(*weights, before, loss_powers@, i + 1)[j] by {
                if j != i {
                    assert(views(held)[j] == with_scores(*weights, before, loss_powers@, i as int)[j]);
                }
            }
        }
        i = i + 1;
    }
    proof {
        lemma_admitted(before, allow_synthetic, i as int);
    }
    Ok(())
}

/// Where every candidate is real, all of them are scored.
pub proof fn lemma_all_real_admitted(candidates: Seq<RouteCandidateView>)
    requires
        forall|i: int|
            0 <= i < candidates.len() ==> (#[trigger] candidates[i]).source
                == MeasuredSource::Real,
    ensures
        admitted(candidates, false) == candidates.len(),
{
    lemma_admitted(candidates, false, candidates.len() as int);
}

/// Without leave, no synthetic candidate is ever given a score.
pub proof fn law_synthetic_is_not_scored(
    w: ScoreWeights,
    candidates: Seq<RouteCandidateView>,
    loss_powers: Seq<Reading>,
    i: int,
)
    requires
        loss_powers.len() == candidates.len(),
        0 <= i < candidates.len(),
        candidates[i].source == MeasuredSource::Synthetic,
    ensures
        admitted(candidates, false) <= i,
        with_scores(w, candidates, loss_powers, admitted(candidates, false))[i] == candidates[i],
    decreases candidates.len(),
{
    if i > 0 && candidates[0].source == MeasuredSource::Real {
        law_synthetic_is_not_scored(w, candidates.drop_first(), loss_powers.drop_first(), i - 1);
    }
}

/// What a weight alone is worth: with a single weight that counts, the score
/// is a hundred times that part of the breakdown, whatever the others are.
pub proof fn law_each_part_counts_by_its_weight(w: ScoreWeights, b: ScoreBreakdown)
    requires
        b.latency.bits <= ONE,
        b.jitter.bits <= ONE,
        b.loss.bits <= ONE,
        b.stability.bits <= ONE,
        b.handshake.bits <= ONE,
    ensures
        EPSILON < w.latency_weight.bits < INFINITE && w.jitter_weight.bits == ZERO
            && w.loss_weight.bits == ZERO && w.stability_weight.bits == ZERO
            && w.handshake_weight.bits == ZERO ==> combined(w, b) == product(
            b.latency,
            Reading { bits: HUNDRED },
        ),
        EPSILON < w.jitter_weight.bits < INFINITE && w.latency_weight.bits == ZERO
            && w.loss_weight.bits == ZERO && w.stability_weight.bits == ZERO
            && w.handshake_weight.bits == ZERO ==> combined(w, b) == product(
            b.jitter,
            Reading { bits: HUNDRED },
        ),
        EPSILON < w.loss_weight.bits < INFINITE && w.latency_weight.bits == ZERO
            && w.jitter_weight.bits == ZERO && w.stability_weight.bits == ZERO
            && w.handshake_weight.bits == ZERO ==> combined(w, b) == product(
            b.loss,
            Reading { bits: HUNDRED },
        ),
        EPSILON < w.stability_weight.bits < INFINITE && w.latency_weight.bits == ZERO
            && w.jitter_weight.bits == ZERO && w.loss_weight.bits == ZERO
            && w.handshake_weight.bits == ZERO ==> combined(w, b) == product(
            b.stability,
            Reading { bits: HUNDRED },
        ),
        EPSILON < w.handshake_weight.bits < INFINITE && w.latency_weight.bits == ZERO
            && w.jitter_weight.bits == ZERO && w.loss_weight.bits == ZERO
            && w.stability_weight.bits == ZERO ==> combined(w, b) == product(
            b.handshake,
            Reading { bits: HUNDRED },
        ),
{
    lemma_lone_weight(w.latency_weight);
    lemma_lone_weight(w.jitter_weight);
    lemma_lone_weight(w.loss_weight);
    lemma_lone_weight(w.stability_weight);
    lemma_lone_weight(w.handshake_weight);
    lemma_lone_part(b.latency);
    lemma_lone_part(b.jitter);
    lemma_lone_part(b.loss);
    lemma_lone_part(b.stability);
    lemma_lone_part(b.handshake);
    law_zero_leaves_as_is(Reading { bits: ZERO });
}

/// A weight that counts is all of itself, and zero is no share of it.
pub(crate) proof fn lemma_lone_weight(w: Reading)
    ensures
        EPSILON < w.bits < INFINITE ==> {
            &&& sum(w, Reading { bits: ZERO }) == w
            &&& sum(Reading { bits: ZERO }, w) == w
            &&& division(w, w) == (Reading { bits: ONE })
            &&& division(Reading { bits: ZERO }, w) == (Reading { bits: ZERO })
        },
{
    if EPSILON < w.bits < INFINITE {
        law_zero_leaves_as_is(w);
        law_whole_is_one(w);
    }
}

/// A share, weighed by one or by nothing, is itself or nothing; out of a
/// hundred it needs no bounds.
pub(crate) proof fn lemma_lone_part(part: Reading)
    requires
        part.bits <= ONE,
    ensures
        product(Reading { bits: ONE }, part) == part,
        product(Reading { bits: ZERO }, part) == (Reading { bits: ZERO }),
        sum(part, Reading { bits: ZERO }) == part,
        sum(Reading { bits: ZERO }, part) == part,
        out_of_hundred(part) == product(part, Reading { bits: HUNDRED }),
{
    let one = Reading { bits: ONE };
    let hundred = Reading { bits: HUNDRED };
    law_one_leaves_as_is(part);
    law_one_leaves_as_is(hundred);
    law_zero_leaves_as_is(part);
    law_scaling_keeps_order(part, one, hundred);
}

/// With a single weight that counts, the score is a hundred times the score of
/// that metric: latency by latency, jitter by jitter, and so on.
pub proof fn law_each_metric_counts_by_its_weight(
    w: ScoreWeights,
    m: MetricsSnapshot,
    loss_power: Reading,
)
    requires
        are_numbers(m),
        m.stability.bits < SIGN,
        raised_loss(m.packet_loss_ratio, loss_power).bits < INFINITE,
    ensures
        EPSILON < w.latency_weight.bits < INFINITE && w.jitter_weight.bits == ZERO
            && w.loss_weight.bits == ZERO && w.stability_weight.bits == ZERO
            && w.handshake_weight.bits == ZERO ==> score_of(w, m, loss_power) == product(
            score_of_latency(m.latency_ms),
            Reading { bits: HUNDRED },
        ),
        EPSILON < w.jitter_weight.bits < INFINITE && w.latency_weight.bits == ZERO
            && w.loss_weight.bits == ZERO && w.stability_weight.bits == ZERO
            && w.handshake_weight.bits == ZERO ==> score_of(w, m, loss_power) == product(
            score_of_jitter(m.jitter_ms),
            Reading { bits: HUNDRED },
        ),
        EPSILON < w.loss_weight.bits < INFINITE && w.latency_weight.bits == ZERO
            && w.jitter_weight.bits == ZERO && w.stability_weight.bits == ZERO
            && w.handshake_weight.bits == ZERO ==> score_of(w, m, loss_power) == product(
            score_of_loss(m.packet_loss_ratio, loss_power),
            Reading { bits: HUNDRED },
        ),
        EPSILON < w.stability_weight.bits < INFINITE && w.latency_weight.bits == ZERO
            && w.jitter_weight.bits == ZERO && w.loss_weight.bits == ZERO
            && w.handshake_weight.bits == ZERO ==> score_of(w, m, loss_power) == product(
            clamped(m.stability, Reading { bits: ZERO }, Reading { bits: ONE }),
            Reading { bits: HUNDRED },
        ),
        EPSILON < w.handshake_weight.bits < INFINITE && w.latency_weight.bits == ZERO
            && w.jitter_weight.bits == ZERO && w.loss_weight.bits == ZERO
            && w.stability_weight.bits == ZERO ==> score_of(w, m, loss_power) == product(
            score_of_handshake(m.handshake_latency_ms),
            Reading { bits: HUNDRED },
        ),
{
    reveal(score_of);
    law_latency_scores_fall(m.latency_ms, m.latency_ms);
    law_jitter_scores_fall(m.jitter_ms, m.jitter_ms);
    law_loss_scores_fall(m.packet_loss_ratio, m.packet_loss_ratio, loss_power, loss_power);
    law_handshake_scores_fall(m.handshake_latency_ms, m.handshake_latency_ms);
    law_each_part_counts_by_its_weight(w, scores_of(m, loss_power));
}

/// Which constant is which count.
pub(crate) proof fn lemma_is_count(h: nat, c: nat, s: nat, e: nat, f: nat, n: nat)
    requires
        STEP <= c <= 2 * STEP,
        h <= 2040,
        c == f * pow2(s),
        n == f * pow2(e),
        s + h == UNIT_DOUBLINGS + e,
    ensures
        units(h * (STEP as nat) + c) == n * pow2(UNIT_DOUBLINGS as nat),
{
    lemma_units_are(h, c);
    lemma_pow2_adds(s, h);
    lemma_pow2_adds(e, UNIT_DOUBLINGS as nat);
    let u = pow2(UNIT_DOUBLINGS as nat);
    assert((f * pow2(s)) * pow2(h) == (f * pow2(e)) * u) by (nonlinear_arith)
        requires
            pow2(s) * pow2(h) == pow2(e) * u,
    ;
}

/// So many times a count, over that count, is so many.
pub(crate) proof fn lemma_multiple_over_count(c: Reading, n: u64, k: u64)
    requires
        0 < n,
        0 < k,
        n * k < 2 * STEP,
        0 < c.bits < INFINITE,
        units(c.bits as nat) == n * pow2(UNIT_DOUBLINGS as nat),
    ensures
        counted((n * k) as u64).bits < INFINITE,
        counted((n * k) as u64).bits > 0,
        division(counted((n * k) as u64), c) == counted(k),
{
    let u = pow2(UNIT_DOUBLINGS as nat);
    lemma_pow2_pos(UNIT_DOUBLINGS as nat);
    assert(n * k >= 1) by (nonlinear_arith)
        requires
            n > 0,
            k > 0,
    ;
    let m = (n * k) as u64;
    law_counts_are_exact(m);
    law_counts_are_positive(m);
    let top: nat = (m * u) as nat * u;
    let bottom: nat = (n * u) as nat;
    let whole: nat = k as nat * u;
    assert(bottom > 0 && top * 1 == whole * bottom) by (nonlinear_arith)
        requires
            top == (m * u) * u,
            bottom == n * u,
            whole == k * u,
            m == n * k,
            n > 0,
            u > 0,
    ;
    law_rounding_keeps_order(top, bottom, whole, 1);
    law_rounding_keeps_order(whole, 1, top, bottom);
}

/// One over one and a count is one over the next count.
pub(crate) proof fn lemma_falls_off_by_counts(k: u64)
    requires
        k + 1 < 2 * STEP,
    ensures
        falling_off(counted(k)) == quotient(1, (k + 1) as u64),
        counted(1) == (Reading { bits: ONE }),
        counted(0) == (Reading { bits: ZERO }),
        quotient(1, 1) == (Reading { bits: ONE }),
{
    let u = pow2(UNIT_DOUBLINGS as nat);
    let one = Reading { bits: ONE };
    lemma_pow2_pos(UNIT_DOUBLINGS as nat);
    lemma_one();
    law_counts_are_exact(k);
    law_counts_are_exact(0);
    law_rounds_no_higher(1 * u, 1, ONE);
    law_rounds_no_lower(1 * u, 1, ONE);
    law_whole_is_one(one);
    law_zero_leaves_as_is(Reading { bits: ZERO });
    assert(0 * u == 0) by (nonlinear_arith);
    law_rounds_no_higher(0 * u, 1, ZERO);
    let exact = one.value() + counted(k).value();
    assert(exact == (k + 1) * u) by (nonlinear_arith)
        requires
            exact == u + k * u,
    ;
    assert((k + 1) * u > 0) by (nonlinear_arith)
        requires
            k >= 0,
            u > 0,
    ;
    assert(sum(one, counted(k)) == counted((k + 1) as u64));
}

/// A latency of so many hundred milliseconds leaves one over that many and
/// one: a half at a hundred, a third at two hundred, a fifth at four hundred.
pub proof fn law_latency_scores_by_hundreds(k: u64)
    requires
        100 * k < 2 * STEP,
        k + 1 < 2 * STEP,
    ensures
        score_of_latency(counted((100 * k) as u64)) == quotient(1, (k + 1) as u64),
{
    lemma2_to64();
    lemma2_to64_rest();
    lemma_is_count(1028, 0x19_0000_0000_0000, 48, 2, 25, 100);
    lemma_falls_off_by_counts(k);
    if k > 0 {
        lemma_multiple_over_count(Reading { bits: HALVING_LATENCY_MS }, 100, k);
    }
}

/// A jitter of so many ten milliseconds leaves one over that many and one.
pub proof fn law_jitter_scores_by_tens(k: u64)
    requires
        10 * k < 2 * STEP,
        k + 1 < 2 * STEP,
    ensures
        score_of_jitter(counted((10 * k) as u64)) == quotient(1, (k + 1) as u64),
{
    lemma2_to64();
    lemma2_to64_rest();
    lemma_is_count(1025, 0x14_0000_0000_0000, 50, 1, 5, 10);
    lemma_falls_off_by_counts(k);
    if k > 0 {
        lemma_multiple_over_count(Reading { bits: HALVING_JITTER_MS }, 10, k);
    }
}

/// A handshake of fifty milliseconds and so many times 250 more leaves one
/// over that many and one; a quicker one scores in full.
pub proof fn law_handshake_scores_beyond_fifty(k: u64, ms: u64)
    requires
        50 + 250 * k < 2 * STEP,
        k + 1 < 2 * STEP,
        ms <= 50,
    ensures
        score_of_handshake(counted((50 + 250 * k) as u64)) == quotient(1, (k + 1) as u64),
        score_of_handshake(counted(ms)) == (Reading { bits: ONE }),
{
    let quick = Reading { bits: QUICK_HANDSHAKE_MS };
    let u = pow2(UNIT_DOUBLINGS as nat);
    lemma_pow2_pos(UNIT_DOUBLINGS as nat);
    lemma2_to64();
    lemma2_to64_rest();
    lemma_is_count(1027, 0x19_0000_0000_0000, 48, 1, 25, 50);
    lemma_is_count(1029, 0x1f_4000_0000_0000, 46, 1, 125, 250);
    lemma_falls_off_by_counts(k);
    let all = (50 + 250 * k) as u64;
    law_counts_are_exact(all);
    law_counts_are_exact(ms);
    assert(ms * u <= 50 * u && (k > 0 ==> all * u > 50 * u) && (k == 0 ==> all * u == 50 * u))
        by (nonlinear_arith)
        requires
            ms <= 50,
            u > 0,
            all == 50 + 250 * k,
            k >= 0,
    ;
    law_positions_follow_values(counted(ms), quick);
    law_positions_follow_values(counted(all), quick);
    law_positions_follow_values(quick, counted(all));
    if k > 0 {
        let rest = (250 * k) as u64;
        let exact = counted(all).value() - quick.value();
        assert(exact == rest * u) by (nonlinear_arith)
            requires
                exact == all * u - 50 * u,
                all == 50 + rest,
        ;
        assert(quick.negation().value() == -quick.value());
        assert(difference(counted(all), quick) == counted(rest));
        lemma_multiple_over_count(Reading { bits: HALVING_HANDSHAKE_MS }, 250, k);
    }
}

/// A loss that comes to so much, raised, leaves one over that much and one;
/// none leaves one, and from one half on it leaves nothing.
pub proof fn law_loss_scores_by_its_power(loss: Reading, power: Reading, k: u64)
    requires
        !loss.is_nan(),
        k + 1 < 2 * STEP,
    ensures
        loss.position() <= 0 ==> score_of_loss(loss, power) == (Reading { bits: ONE }),
        loss.position() >= HALF ==> score_of_loss(loss, power) == (Reading { bits: ZERO }),
        0 < loss.position() < HALF && power == counted(k) && loss_in_scale(loss).bits != ONE
            ==> score_of_loss(loss, power) == quotient(1, (k + 1) as u64),
{
    lemma_falls_off_by_counts(k);
}

/// Weights that sum to one are taken as they are.
pub proof fn law_shares_of_one_stay(w: ScoreWeights)
    requires
        are_usable(w),
        weight_sum(w).bits == ONE,
    ensures
        normalized(w) == w,
{
    lemma_over_one(w.latency_weight);
    lemma_over_one(w.jitter_weight);
    lemma_over_one(w.loss_weight);
    lemma_over_one(w.stability_weight);
    lemma_over_one(w.handshake_weight);
}

/// A number over one is that number.
pub(crate) proof fn lemma_over_one(x: Reading)
    requires
        x.is_finite(),
    ensures
        division(x, Reading { bits: ONE }) == x,
{
    let u = pow2(UNIT_DOUBLINGS as nat);
    lemma_pow2_pos(UNIT_DOUBLINGS as nat);
    lemma_one();
    let v = units(x.magnitude() as nat);
    law_rounds_no_higher(v * u, u, x.magnitude() as u64);
    law_rounds_no_lower(v * u, u, x.magnitude() as u64);
}

/// Scoring changes nothing of a candidate but its score, and each is scored by
/// its own metrics and its own raised loss.
pub proof fn law_each_candidate_has_its_own_score(
    w: ScoreWeights,
    candidates: Seq<RouteCandidateView>,
    loss_powers: Seq<Reading>,
    n: int,
    i: int,
)
    requires
        0 <= i < candidates.len(),
    ensures
        with_scores(w, candidates, loss_powers, n).len() == candidates.len(),
        ({
            let c = candidates[i];
            let scored = with_scores(w, candidates, loss_powers, n)[i];
            &&& scored.id == c.id && scored.endpoint == c.endpoint && scored.transport
                == c.transport && scored.region == c.region && scored.source == c.source
            &&& scored.latency_ms == c.latency_ms && scored.jitter_ms == c.jitter_ms
                && scored.packet_loss_ratio == c.packet_loss_ratio && scored.stability
                == c.stability && scored.handshake_latency_ms == c.handshake_latency_ms
                && scored.reconnect_rate == c.reconnect_rate
            &&& i >= n ==> scored.score == c.score
            &&& i < n ==> scored.score == Some(
                score_of(
                    w,
                    MetricsSnapshot {
                        latency_ms: c.latency_ms,
                        jitter_ms: c.jitter_ms,
                        packet_loss_ratio: c.packet_loss_ratio,
                        stability: c.stability,
                        handshake_latency_ms: c.handshake_latency_ms,
                        reconnect_rate: c.reconnect_rate,
                    },
                    loss_powers[i],
                ),
            )
        }),
{
}

/// Every candidate before the first synthetic one is scored; with leave, all
/// are.
pub proof fn law_real_candidates_are_scored(candidates: Seq<RouteCandidateView>, n: int)
    requires
        0 <= n <= candidates.len(),
        forall|i: int|
            0 <= i < n ==> (#[trigger] candidates[i]).source == MeasuredSource::Real,
    ensures
        n <= admitted(candidates, false) <= candidates.len(),
        n < candidates.len() && candidates[n].source == MeasuredSource::Synthetic ==> admitted(
            candidates,
            false,
        ) == n,
        admitted(candidates, true) == candidates.len(),
    decreases n,
{
    lemma_admitted(candidates, true, candidates.len() as int);
    lemma_admitted_reaches(candidates, n);
    if n < candidates.len() && candidates[n].source == MeasuredSource::Synthetic {
        lemma_admitted(candidates, false, n);
    }
}

proof fn lemma_admitted_reaches(candidates: Seq<RouteCandidateView>, n: int)
    requires
        0 <= n <= candidates.len(),
        forall|i: int|
            0 <= i < n ==> (#[trigger] candidates[i]).source == MeasuredSource::Real,
    ensures
        n <= admitted(candidates, false) <= candidates.len(),
    decreases candidates.len(),
{
    if candidates.len() > 0 {
        let rest = candidates.drop_first();
        let m = if n > 0 {
            n - 1
        } else {
            0
        };
        assert forall|i: int| 0 <= i < m implies (#[trigger] rest[i]).source
            == MeasuredSource::Real by {
            assert(candidates[i + 1].source == MeasuredSource::Real);
        }
        if n > 0 {
            assert(candidates[0].source == MeasuredSource::Real);
        }
        lemma_admitted_reaches(rest, m);
    }
}

/// Weights that are all zero say nothing, and stand for the usual ones.
pub proof fn law_no_weights_are_the_usual_ones(w: ScoreWeights)
    requires
        w.latency_weight.bits == ZERO,
        w.jitter_weight.bits == ZERO,
        w.loss_weight.bits == ZERO,
        w.stability_weight.bits == ZERO,
        w.handshake_weight.bits == ZERO,
    ensures
        normalized(w) == default_score_weights(),
{
    law_zero_leaves_as_is(Reading { bits: ZERO });
    assert(weight_sum(w) == (Reading { bits: ZERO }));
}

} // verus!
