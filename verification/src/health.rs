//! Network health: grades, and how closely to watch the network.
//!
//! A grade comes from a measured score and is never set by hand. Getting worse
//! shows at once; getting better has to last.
use core::cmp::Ordering;
use vstd::arithmetic::power2::{lemma2_to64, lemma2_to64_rest, lemma_pow2_pos, pow2};
use vstd::prelude::*;

use crate::double::{
    difference, divide, division, minus, plus, product, sum, times, units, STEP, UNIT_DOUBLINGS,
};
use crate::model::{MetricsSnapshot, NetworkType};
use crate::order::{
    is_quantity, law_bounds_keep_order, law_positions_follow_values, law_products_keep_order,
    law_quotients_keep_order, law_shares_are_at_most_one, law_sums_grow,
    law_weighed_sums_keep_order, law_zero_leaves_as_is,
};
use crate::ratio::{counted, law_counts_are_exact, law_counts_are_positive, quotient};
use crate::reading::{Reading, INFINITE, ONE, ZERO};
use crate::scoring::{
    fall_off, falling_off, law_falling_off, law_out_of_hundred_keeps_order,
    lemma_falls_off_by_counts, lemma_is_count, lemma_lone_part, lemma_lone_weight,
    lemma_multiple_over_count, negligible, none_of, out_of_hundred, per_hundred, powers_in_order,
    share_of, stability_score, EPSILON, HUNDRED,
};

verus! {

/// Health of the network, from worst to best.
#[derive(Clone, Copy, Debug, PartialEq, Eq, Ord, Structural)]
pub enum NetworkHealthGrade {
    Critical,
    Poor,
    Degraded,
    Good,
    Excellent,
}

impl NetworkHealthGrade {
    pub open spec fn rank_of(self) -> int {
        match self {
            NetworkHealthGrade::Excellent => 5,
            NetworkHealthGrade::Good => 4,
            NetworkHealthGrade::Degraded => 3,
            NetworkHealthGrade::Poor => 2,
            NetworkHealthGrade::Critical => 1,
        }
    }

    fn rank(self) -> (r: u8)
        ensures
            r == self.rank_of(),
    {
        match self {
            NetworkHealthGrade::Excellent => 5,
            NetworkHealthGrade::Good => 4,
            NetworkHealthGrade::Degraded => 3,
            NetworkHealthGrade::Poor => 2,
            NetworkHealthGrade::Critical => 1,
        }
    }

    pub fn is_worse_than(self, other: NetworkHealthGrade) -> (r: bool)
        ensures
            r == (self.rank_of() < other.rank_of()),
    {
        self.rank() < other.rank()
    }

    pub fn is_better_than(self, other: NetworkHealthGrade) -> (r: bool)
        ensures
            r == (self.rank_of() > other.rank_of()),
    {
        self.rank() > other.rank()
    }

    pub open spec fn label(self) -> Seq<char> {
        match self {
            NetworkHealthGrade::Excellent => "EXCELLENT"@,
            NetworkHealthGrade::Good => "GOOD"@,
            NetworkHealthGrade::Degraded => "DEGRADED"@,
            NetworkHealthGrade::Poor => "POOR"@,
            NetworkHealthGrade::Critical => "CRITICAL"@,
        }
    }

    pub fn as_str(self) -> (r: &'static str)
        ensures
            r@ == self.label(),
    {
        match self {
            NetworkHealthGrade::Excellent => "EXCELLENT",
            NetworkHealthGrade::Good => "GOOD",
            NetworkHealthGrade::Degraded => "DEGRADED",
            NetworkHealthGrade::Poor => "POOR",
            NetworkHealthGrade::Critical => "CRITICAL",
        }
    }
}

impl PartialOrd for NetworkHealthGrade {
    fn partial_cmp(&self, other: &Self) -> (r: Option<Ordering>) {
        if self.rank() < other.rank() {
            Some(Ordering::Less)
        } else if self.rank() == other.rank() {
            Some(Ordering::Equal)
        } else {
            Some(Ordering::Greater)
        }
    }
}

impl vstd::std_specs::cmp::PartialOrdSpecImpl for NetworkHealthGrade {
    open spec fn obeys_partial_cmp_spec() -> bool {
        true
    }

    open spec fn partial_cmp_spec(&self, other: &Self) -> Option<Ordering> {
        if self.rank_of() < other.rank_of() {
            Some(Ordering::Less)
        } else if self.rank_of() == other.rank_of() {
            Some(Ordering::Equal)
        } else {
            Some(Ordering::Greater)
        }
    }
}

/// How closely the network is watched.
#[derive(Clone, Copy, Debug, PartialEq, Eq, Structural)]
pub enum MonitorLevel {
    /// Excellent: few probes.
    Low,
    /// Good: the usual probes.
    Normal,
    /// Degraded: more probes.
    High,
    /// Poor or critical: routes are evaluated aggressively.
    Aggressive,
}

/// How much each metric counts in the health score of the network.
#[derive(Clone, Copy, Debug, PartialEq)]
pub struct HealthWeights {
    pub latency: Reading,
    pub jitter: Reading,
    pub loss: Reading,
    pub stability: Reading,
    pub reconnect: Reading,
    pub availability: Reading,
}

/// 0.20
pub const HEALTH_LATENCY_WEIGHT: u64 = 0x3fc9_9999_9999_999a;

/// 0.15
pub const HEALTH_JITTER_WEIGHT: u64 = 0x3fc3_3333_3333_3333;

/// 0.30
pub const HEALTH_LOSS_WEIGHT: u64 = 0x3fd3_3333_3333_3333;

/// 0.15
pub const HEALTH_STABILITY_WEIGHT: u64 = 0x3fc3_3333_3333_3333;

/// 0.10
pub const HEALTH_RECONNECT_WEIGHT: u64 = 0x3fb9_9999_9999_999a;

/// 0.10
pub const HEALTH_AVAILABILITY_WEIGHT: u64 = 0x3fb9_9999_9999_999a;

impl Default for HealthWeights {
    fn default() -> (r: Self)
        ensures
            r == default_health_weights(),
    {
        HealthWeights {
            latency: Reading { bits: HEALTH_LATENCY_WEIGHT },
            jitter: Reading { bits: HEALTH_JITTER_WEIGHT },
            loss: Reading { bits: HEALTH_LOSS_WEIGHT },
            stability: Reading { bits: HEALTH_STABILITY_WEIGHT },
            reconnect: Reading { bits: HEALTH_RECONNECT_WEIGHT },
            availability: Reading { bits: HEALTH_AVAILABILITY_WEIGHT },
        }
    }
}

/// What a health score is computed from.
#[derive(Clone, Copy, Debug)]
pub struct HealthInput {
    pub latency_ms: Reading,
    pub jitter_ms: Reading,
    pub packet_loss_ratio: Reading,
    pub stability: Reading,
    pub reconnect_rate: Reading,
    /// Availability in [0, 1].
    pub availability: Reading,
}

/// 150.0 ms: the latency that halves its part of the score.
pub const HEALTH_LATENCY_MS: u64 = 0x4062_c000_0000_0000;

/// 15.0 ms: the jitter that halves its part of the score.
pub const HEALTH_JITTER_MS: u64 = 0x402e_0000_0000_0000;

pub open spec fn default_health_weights() -> HealthWeights {
    HealthWeights {
        latency: Reading { bits: HEALTH_LATENCY_WEIGHT },
        jitter: Reading { bits: HEALTH_JITTER_WEIGHT },
        loss: Reading { bits: HEALTH_LOSS_WEIGHT },
        stability: Reading { bits: HEALTH_STABILITY_WEIGHT },
        reconnect: Reading { bits: HEALTH_RECONNECT_WEIGHT },
        availability: Reading { bits: HEALTH_AVAILABILITY_WEIGHT },
    }
}

pub open spec fn health_weight_sum(w: HealthWeights) -> Reading {
    sum(
        sum(sum(sum(sum(w.latency, w.jitter), w.loss), w.stability), w.reconnect),
        w.availability,
    )
}

/// The weights as shares of their sum; the usual ones where there are none.
pub open spec fn normalized_health(w: HealthWeights) -> HealthWeights {
    let total = health_weight_sum(w);
    if negligible(total) {
        default_health_weights()
    } else {
        HealthWeights {
            latency: division(w.latency, total),
            jitter: division(w.jitter, total),
            loss: division(w.loss, total),
            stability: division(w.stability, total),
            reconnect: division(w.reconnect, total),
            availability: division(w.availability, total),
        }
    }
}

impl HealthWeights {
    fn normalize(&self) -> (r: HealthWeights)
        ensures
            r == normalized_health(*self),
    {
        let total = plus(
            plus(
                plus(plus(plus(self.latency, self.jitter), self.loss), self.stability),
                self.reconnect,
            ),
            self.availability,
        );
        if (Reading { bits: EPSILON }) >= total {
            return HealthWeights::default();
        }
        HealthWeights {
            latency: divide(self.latency, total),
            jitter: divide(self.jitter, total),
            loss: divide(self.loss, total),
            stability: divide(self.stability, total),
            reconnect: divide(self.reconnect, total),
            availability: divide(self.availability, total),
        }
    }
}

pub open spec fn health_input(m: MetricsSnapshot) -> HealthInput {
    HealthInput {
        latency_ms: m.latency_ms,
        jitter_ms: m.jitter_ms,
        packet_loss_ratio: m.packet_loss_ratio,
        stability: m.stability,
        reconnect_rate: m.reconnect_rate,
        availability: difference(Reading { bits: ONE }, m.packet_loss_ratio),
    }
}

impl From<MetricsSnapshot> for HealthInput {
    /// What is not lost is available.
    fn from(m: MetricsSnapshot) -> (r: HealthInput) {
        HealthInput {
            latency_ms: m.latency_ms,
            jitter_ms: m.jitter_ms,
            packet_loss_ratio: m.packet_loss_ratio,
            stability: m.stability,
            reconnect_rate: m.reconnect_rate,
            availability: minus(Reading { bits: ONE }, m.packet_loss_ratio),
        }
    }
}

impl vstd::std_specs::convert::FromSpecImpl<MetricsSnapshot> for HealthInput {
    open spec fn obeys_from_spec() -> bool {
        true
    }

    open spec fn from_spec(m: MetricsSnapshot) -> HealthInput {
        health_input(m)
    }
}

/// The part of the score that the loss has; `power` is its base squared.
pub open spec fn health_of_loss(loss_ratio: Reading, power: Reading) -> Reading {
    if none_of(loss_ratio) {
        Reading { bits: ONE }
    } else {
        division(Reading { bits: ONE }, power)
    }
}

#[verifier::opaque]
pub open spec fn health_of(input: HealthInput, weights: HealthWeights, loss_power: Reading) -> Reading {
    let w = normalized_health(weights);
    let latency = falling_off(division(input.latency_ms, Reading { bits: HEALTH_LATENCY_MS }));
    let jitter = falling_off(division(input.jitter_ms, Reading { bits: HEALTH_JITTER_MS }));
    let loss = health_of_loss(input.packet_loss_ratio, loss_power);
    let raw = sum(
        sum(
            sum(
                sum(
                    sum(product(w.latency, latency), product(w.jitter, jitter)),
                    product(w.loss, loss),
                ),
                product(w.stability, share_of(input.stability)),
            ),
            product(w.reconnect, falling_off(input.reconnect_rate)),
        ),
        product(w.availability, share_of(input.availability)),
    );
    out_of_hundred(raw)
}

/// The health of the network, between zero and a hundred. `loss_power` is
/// `scoring::loss_base` of the loss to the power of 2.
pub fn health_score(input: &HealthInput, weights: &HealthWeights, loss_power: Reading) -> (r:
    Reading)
    ensures
        r == health_of(*input, *weights, loss_power),
{
    reveal(health_of);
    let w = weights.normalize();
    let latency = fall_off(divide(input.latency_ms, Reading { bits: HEALTH_LATENCY_MS }));
    let jitter = fall_off(divide(input.jitter_ms, Reading { bits: HEALTH_JITTER_MS }));
    let loss = if (Reading { bits: ZERO }) >= input.packet_loss_ratio {
        Reading { bits: ONE }
    } else {
        divide(Reading { bits: ONE }, loss_power)
    };
    let raw = plus(
        plus(
            plus(
                plus(
                    plus(times(w.latency, latency), times(w.jitter, jitter)),
                    times(w.loss, loss),
                ),
                times(w.stability, stability_score(input.stability)),
            ),
            times(w.reconnect, fall_off(input.reconnect_rate)),
        ),
        times(w.availability, stability_score(input.availability)),
    );
    per_hundred(raw)
}

/// A health score lies between zero and a hundred, where it is a number.
pub proof fn law_health_is_bounded(input: HealthInput, w: HealthWeights, loss_power: Reading)
    ensures
        ({
            let s = health_of(input, w, loss_power);
            s.is_nan() || (s.at_least(Reading { bits: ZERO }) && (Reading {
                bits: HUNDRED,
            }).at_least(s))
        }),
{
    reveal(health_of);
}

/// A weight that is a number, not infinite and not negative.
pub open spec fn is_weight(w: Reading) -> bool {
    is_quantity(w) && w.is_finite()
}

pub open spec fn are_weights(w: HealthWeights) -> bool {
    &&& is_weight(w.latency)
    &&& is_weight(w.jitter)
    &&& is_weight(w.loss)
    &&& is_weight(w.stability)
    &&& is_weight(w.reconnect)
    &&& is_weight(w.availability)
}

/// Usable weights are usable shares of their sum.
pub proof fn law_health_shares_are_weights(w: HealthWeights)
    requires
        are_weights(w),
    ensures
        are_weights(normalized_health(w)),
{
    let total = health_weight_sum(w);
    let two = sum(w.latency, w.jitter);
    let three = sum(two, w.loss);
    let four = sum(three, w.stability);
    let five = sum(four, w.reconnect);
    law_sums_grow(w.latency, w.jitter);
    law_sums_grow(two, w.loss);
    law_sums_grow(three, w.stability);
    law_sums_grow(four, w.reconnect);
    law_sums_grow(five, w.availability);
    if !negligible(total) {
        law_shares_are_at_most_one(w.latency, total);
        law_shares_are_at_most_one(w.jitter, total);
        law_shares_are_at_most_one(w.loss, total);
        law_shares_are_at_most_one(w.stability, total);
        law_shares_are_at_most_one(w.reconnect, total);
        law_shares_are_at_most_one(w.availability, total);
    }
}

/// Whether nothing in `a` is a worse number than in `b`; latency, jitter and
/// the rate of reconnects are not negative.
pub open spec fn no_worse(a: HealthInput, b: HealthInput) -> bool {
    &&& is_quantity(a.latency_ms) && b.latency_ms.at_least(a.latency_ms)
    &&& is_quantity(a.jitter_ms) && b.jitter_ms.at_least(a.jitter_ms)
    &&& b.packet_loss_ratio.at_least(a.packet_loss_ratio)
    &&& a.stability.at_least(b.stability)
    &&& is_quantity(a.reconnect_rate) && b.reconnect_rate.at_least(a.reconnect_rate)
    &&& a.availability.at_least(b.availability)
}

proof fn lemma_health_of_time(a: Reading, b: Reading, halving: Reading)
    requires
        is_quantity(a),
        b.at_least(a),
        halving.is_finite(),
        halving.position() > 0,
    ensures
        is_quantity(falling_off(division(b, halving))),
        falling_off(division(b, halving)).position() <= falling_off(
            division(a, halving),
        ).position() <= ONE,
{
    law_quotients_keep_order(a, halving, b, halving);
    law_falling_off(division(a, halving), division(b, halving));
}

/// A network that is nowhere worse than another is never less healthy, as
/// long as the weights are usable.
pub proof fn law_better_input_is_no_less_healthy(
    w: HealthWeights,
    better: HealthInput,
    better_power: Reading,
    other: HealthInput,
    other_power: Reading,
)
    requires
        are_weights(w),
        no_worse(better, other),
        powers_in_order(better_power, other_power),
    ensures
        health_of(better, w, better_power).at_least(health_of(other, w, other_power)),
{
    reveal(health_of);
    law_health_shares_are_weights(w);
    let n = normalized_health(w);
    let one = Reading { bits: ONE };
    let zero = Reading { bits: ZERO };
    let latency = Reading { bits: HEALTH_LATENCY_MS };
    let jitter = Reading { bits: HEALTH_JITTER_MS };
    lemma_health_of_time(better.latency_ms, other.latency_ms, latency);
    lemma_health_of_time(better.jitter_ms, other.jitter_ms, jitter);
    law_quotients_keep_order(one, other_power, one, better_power);
    law_shares_are_at_most_one(one, better_power);
    law_bounds_keep_order(other.stability, better.stability, zero, one);
    law_falling_off(better.reconnect_rate, other.reconnect_rate);
    law_bounds_keep_order(other.availability, better.availability, zero, one);
    let (b, a) = (
        falling_off(division(other.latency_ms, latency)),
        falling_off(division(better.latency_ms, latency)),
    );
    law_products_keep_order(n.latency, b, n.latency, a);
    let (low, high) = (product(n.latency, b), product(n.latency, a));
    let (b, a) = (
        falling_off(division(other.jitter_ms, jitter)),
        falling_off(division(better.jitter_ms, jitter)),
    );
    law_weighed_sums_keep_order(low, high, n.jitter, b, a);
    let (low, high) = (sum(low, product(n.jitter, b)), sum(high, product(n.jitter, a)));
    let (b, a) = (
        health_of_loss(other.packet_loss_ratio, other_power),
        health_of_loss(better.packet_loss_ratio, better_power),
    );
    law_weighed_sums_keep_order(low, high, n.loss, b, a);
    let (low, high) = (sum(low, product(n.loss, b)), sum(high, product(n.loss, a)));
    let (b, a) = (share_of(other.stability), share_of(better.stability));
    law_weighed_sums_keep_order(low, high, n.stability, b, a);
    let (low, high) = (sum(low, product(n.stability, b)), sum(high, product(n.stability, a)));
    let (b, a) = (falling_off(other.reconnect_rate), falling_off(better.reconnect_rate));
    law_weighed_sums_keep_order(low, high, n.reconnect, b, a);
    let (low, high) = (sum(low, product(n.reconnect, b)), sum(high, product(n.reconnect, a)));
    let (b, a) = (share_of(other.availability), share_of(better.availability));
    law_weighed_sums_keep_order(low, high, n.availability, b, a);
    let (low, high) = (sum(low, product(n.availability, b)), sum(high, product(n.availability, a)));
    law_out_of_hundred_keeps_order(low, high);
}

/// Whether the measured input is numbers, times and rates not negative.
pub open spec fn is_measured(input: HealthInput) -> bool {
    &&& is_quantity(input.latency_ms)
    &&& is_quantity(input.jitter_ms)
    &&& !input.packet_loss_ratio.is_nan()
    &&& !input.stability.is_nan()
    &&& is_quantity(input.reconnect_rate)
    &&& !input.availability.is_nan()
}

/// A measured input has a health between zero and a hundred, as long as the
/// weights are usable and the base of the loss, raised, is one or more.
pub proof fn law_measured_input_has_a_health(
    input: HealthInput,
    w: HealthWeights,
    loss_power: Reading,
)
    requires
        are_weights(w),
        is_measured(input),
        powers_in_order(loss_power, loss_power),
    ensures
        !health_of(input, w, loss_power).is_nan(),
        0 <= health_of(input, w, loss_power).position() <= HUNDRED,
{
    law_better_input_is_no_less_healthy(w, input, loss_power, input, loss_power);
    law_health_is_bounded(input, w, loss_power);
}

/// The lowest score of each grade.
#[derive(Clone, Copy, Debug)]
pub struct GradeModel {
    pub excellent_above: Reading,
    pub good_above: Reading,
    pub degraded_above: Reading,
    pub poor_above: Reading,
}

/// 80.0
pub const EXCELLENT_ABOVE: u64 = 0x4054_0000_0000_0000;

/// 65.0
pub const GOOD_ABOVE: u64 = 0x4050_4000_0000_0000;

/// 50.0
pub const DEGRADED_ABOVE: u64 = 0x4049_0000_0000_0000;

/// 30.0
pub const POOR_ABOVE: u64 = 0x403e_0000_0000_0000;

pub open spec fn default_grade_model() -> GradeModel {
    GradeModel {
        excellent_above: Reading { bits: EXCELLENT_ABOVE },
        good_above: Reading { bits: GOOD_ABOVE },
        degraded_above: Reading { bits: DEGRADED_ABOVE },
        poor_above: Reading { bits: POOR_ABOVE },
    }
}

impl Default for GradeModel {
    fn default() -> (r: Self)
        ensures
            r == default_grade_model(),
    {
        GradeModel {
            excellent_above: Reading { bits: EXCELLENT_ABOVE },
            good_above: Reading { bits: GOOD_ABOVE },
            degraded_above: Reading { bits: DEGRADED_ABOVE },
            poor_above: Reading { bits: POOR_ABOVE },
        }
    }
}

/// The outcome of one observation.
#[derive(Clone, Copy, Debug)]
pub struct GradedHealth {
    pub grade: NetworkHealthGrade,
    /// The score behind the grade.
    pub score: Reading,
    /// For how long an upgrade has been under way, in milliseconds.
    pub sustained_ms: u64,
}

/// Grades the network, one observation at a time.
#[derive(Clone, Copy, Debug)]
pub struct HealthTracker {
    pub model: GradeModel,
    pub grade: NetworkHealthGrade,
    /// When the better grade that is aimed at was first observed; `None` while
    /// no upgrade is under way.
    pub since: Option<u64>,
}

/// The grade that a score stands for.
pub open spec fn grade_of(score: Reading, model: GradeModel) -> NetworkHealthGrade {
    if score.at_least(model.excellent_above) {
        NetworkHealthGrade::Excellent
    } else if score.at_least(model.good_above) {
        NetworkHealthGrade::Good
    } else if score.at_least(model.degraded_above) {
        NetworkHealthGrade::Degraded
    } else if score.at_least(model.poor_above) {
        NetworkHealthGrade::Poor
    } else {
        NetworkHealthGrade::Critical
    }
}

/// The time from `then` to `now`, or nothing where the clock went back.
pub open spec fn elapsed(now: u64, then: u64) -> u64 {
    if now >= then {
        (now - then) as u64
    } else {
        0
    }
}

impl HealthTracker {
    pub open spec fn fresh() -> HealthTracker {
        HealthTracker {
            model: default_grade_model(),
            grade: NetworkHealthGrade::Good,
            since: None,
        }
    }

    /// Since when the better grade has been observed, `now` included.
    pub open spec fn attempt_start(self, now: u64) -> u64 {
        match self.since {
            Some(t) => t,
            None => now,
        }
    }

    /// Whether the score is that of a better grade than the present one.
    pub open spec fn improves(self, score: Reading) -> bool {
        grade_of(score, self.model).rank_of() > self.grade.rank_of()
    }

    /// Whether an improved score has lasted long enough.
    pub open spec fn lands(self, score: Reading, now: u64, sustain_ms: u64) -> bool {
        self.improves(score) && elapsed(now, self.attempt_start(now)) >= sustain_ms
    }

    pub open spec fn observed(self, score: Reading, now: u64, sustain_ms: u64) -> HealthTracker {
        if self.improves(score) && !self.lands(score, now, sustain_ms) {
            HealthTracker { since: Some(self.attempt_start(now)), ..self }
        } else {
            HealthTracker { grade: grade_of(score, self.model), since: None, ..self }
        }
    }

    /// Takes in a score. A worse grade applies at once; a better one once it
    /// has been observed for `upgrade_sustain_ms`.
    pub fn observe(&mut self, score: Reading, now: u64, upgrade_sustain_ms: u64) -> (r:
        GradedHealth)
        ensures
            *final(self) == old(self).observed(score, now, upgrade_sustain_ms),
            r.grade == final(self).grade,
            r.score == score,
            r.sustained_ms == (if old(self).improves(score) {
                elapsed(now, old(self).attempt_start(now))
            } else {
                0
            }),
    {
        let target = grade_for(score, &self.model);
        if target.is_better_than(self.grade) {
            let start: u64 = match self.since {
                Some(t) => t,
                None => now,
            };
            let sustained_ms: u64 = now.saturating_sub(start);
            if sustained_ms >= upgrade_sustain_ms {
                self.grade = target;
                self.since = None;
            } else {
                self.since = Some(start);
            }
            GradedHealth { grade: self.grade, score, sustained_ms }
        } else {
            self.grade = target;
            self.since = None;
            GradedHealth { grade: self.grade, score, sustained_ms: 0 }
        }
    }
}

impl Default for HealthTracker {
    fn default() -> (r: Self)
        ensures
            r == HealthTracker::fresh(),
    {
        HealthTracker {
            model: GradeModel::default(),
            grade: NetworkHealthGrade::Good,
            since: None,
        }
    }
}

pub fn grade_for(score: Reading, model: &GradeModel) -> (r: NetworkHealthGrade)
    ensures
        r == grade_of(score, *model),
{
    if score >= model.excellent_above {
        NetworkHealthGrade::Excellent
    } else if score >= model.good_above {
        NetworkHealthGrade::Good
    } else if score >= model.degraded_above {
        NetworkHealthGrade::Degraded
    } else if score >= model.poor_above {
        NetworkHealthGrade::Poor
    } else {
        NetworkHealthGrade::Critical
    }
}

pub open spec fn level_of(grade: NetworkHealthGrade) -> MonitorLevel {
    match grade {
        NetworkHealthGrade::Excellent => MonitorLevel::Low,
        NetworkHealthGrade::Good => MonitorLevel::Normal,
        NetworkHealthGrade::Degraded => MonitorLevel::High,
        NetworkHealthGrade::Poor => MonitorLevel::Aggressive,
        NetworkHealthGrade::Critical => MonitorLevel::Aggressive,
    }
}

/// How closely to watch a network of the grade.
pub fn monitor_level(grade: NetworkHealthGrade) -> (r: MonitorLevel)
    ensures
        r == level_of(grade),
{
    match grade {
        NetworkHealthGrade::Excellent => MonitorLevel::Low,
        NetworkHealthGrade::Good => MonitorLevel::Normal,
        NetworkHealthGrade::Degraded => MonitorLevel::High,
        NetworkHealthGrade::Poor | NetworkHealthGrade::Critical => MonitorLevel::Aggressive,
    }
}

/// Where to start for a network type; the engine benchmarks and adapts.
#[derive(Clone, Copy, Debug)]
pub struct NetworkTypePolicies {
    pub probe_factor: Reading,
    pub keepalive_factor: Reading,
    pub allow_quic: bool,
    pub allow_udp: bool,
}

/// 0.8
pub const FOUR_G_FACTOR: u64 = 0x3fe9_9999_9999_999a;

/// 0.65
pub const THREE_G_FACTOR: u64 = 0x3fe4_cccc_cccc_cccd;

pub open spec fn default_policies() -> NetworkTypePolicies {
    NetworkTypePolicies {
        probe_factor: Reading { bits: crate::reading::ONE },
        keepalive_factor: Reading { bits: crate::reading::ONE },
        allow_quic: true,
        allow_udp: true,
    }
}

impl Default for NetworkTypePolicies {
    fn default() -> (r: Self)
        ensures
            r == default_policies(),
    {
        NetworkTypePolicies {
            probe_factor: Reading { bits: crate::reading::ONE },
            keepalive_factor: Reading { bits: crate::reading::ONE },
            allow_quic: true,
            allow_udp: true,
        }
    }
}

pub open spec fn policies_of(network: NetworkType) -> NetworkTypePolicies {
    match network {
        NetworkType::FourG => NetworkTypePolicies {
            probe_factor: Reading { bits: FOUR_G_FACTOR },
            keepalive_factor: Reading { bits: FOUR_G_FACTOR },
            ..default_policies()
        },
        NetworkType::ThreeG => NetworkTypePolicies {
            probe_factor: Reading { bits: THREE_G_FACTOR },
            keepalive_factor: Reading { bits: THREE_G_FACTOR },
            allow_quic: false,
            allow_udp: true,
        },
        _ => default_policies(),
    }
}

/// The policy to start with on a network.
pub fn initial_policy(network: NetworkType) -> (r: NetworkTypePolicies)
    ensures
        r == policies_of(network),
{
    match network {
        NetworkType::FourG => NetworkTypePolicies {
            probe_factor: Reading { bits: FOUR_G_FACTOR },
            keepalive_factor: Reading { bits: FOUR_G_FACTOR },
            allow_quic: true,
            allow_udp: true,
        },
        NetworkType::ThreeG => NetworkTypePolicies {
            probe_factor: Reading { bits: THREE_G_FACTOR },
            keepalive_factor: Reading { bits: THREE_G_FACTOR },
            allow_quic: false,
            allow_udp: true,
        },
        _ => NetworkTypePolicies::default(),
    }
}

/// A score of a worse grade takes effect at once, and ends any upgrade.
pub proof fn law_degrades_at_once(t: HealthTracker, score: Reading, now: u64, sustain_ms: u64)
    requires
        !t.improves(score),
    ensures
        t.observed(score, now, sustain_ms).grade == grade_of(score, t.model),
        t.observed(score, now, sustain_ms).since is None,
{
}

/// A better grade is never reached in one observation, however good the score:
/// it has to be observed again, `sustain_ms` later at the earliest.
pub proof fn law_upgrade_needs_time(
    t: HealthTracker,
    score: Reading,
    now: u64,
    again: Reading,
    later: u64,
    sustain_ms: u64,
)
    requires
        t.since is None,
        t.improves(score),
        sustain_ms > 0,
    ensures
        t.observed(score, now, sustain_ms).grade == t.grade,
        t.observed(score, now, sustain_ms).observed(again, later, sustain_ms).grade.rank_of()
            > t.grade.rank_of() ==> later >= now + sustain_ms,
{
}

/// Better scores never give worse grades, with the default thresholds.
pub proof fn law_grades_follow_scores(a: Reading, b: Reading)
    requires
        a.at_least(b),
    ensures
        grade_of(a, default_grade_model()).rank_of() >= grade_of(
            b,
            default_grade_model(),
        ).rank_of(),
{
}

/// With a single weight that counts, the health is a hundred times that one
/// part: latency by multiples of 150 ms, jitter by multiples of 15 ms, the rate
/// of reconnects by its count, loss by its raised base, stability and
/// availability as they are.
pub proof fn law_each_part_of_health_counts_by_its_weight(
    input: HealthInput,
    w: HealthWeights,
    loss_power: Reading,
    l: u64,
    j: u64,
    r: u64,
)
    requires
        150 * l < 2 * STEP,
        15 * j < 2 * STEP,
        r + 1 < 2 * STEP,
        input.latency_ms == counted((150 * l) as u64),
        input.jitter_ms == counted((15 * j) as u64),
        input.reconnect_rate == counted(r),
        input.packet_loss_ratio.bits <= ONE,
        input.stability.bits <= ONE,
        input.availability.bits <= ONE,
        ONE <= loss_power.bits < INFINITE,
    ensures
        EPSILON < w.latency.bits < INFINITE && w.jitter.bits == ZERO && w.loss.bits == ZERO
            && w.stability.bits == ZERO && w.reconnect.bits == ZERO && w.availability.bits == ZERO
            ==> health_of(input, w, loss_power) == product(
            quotient(1, (l + 1) as u64),
            Reading { bits: HUNDRED },
        ),
        EPSILON < w.jitter.bits < INFINITE && w.latency.bits == ZERO && w.loss.bits == ZERO
            && w.stability.bits == ZERO && w.reconnect.bits == ZERO && w.availability.bits == ZERO
            ==> health_of(input, w, loss_power) == product(
            quotient(1, (j + 1) as u64),
            Reading { bits: HUNDRED },
        ),
        EPSILON < w.loss.bits < INFINITE && w.latency.bits == ZERO && w.jitter.bits == ZERO
            && w.stability.bits == ZERO && w.reconnect.bits == ZERO && w.availability.bits == ZERO
            ==> health_of(input, w, loss_power) == product(
            if input.packet_loss_ratio.bits == ZERO {
                Reading { bits: ONE }
            } else {
                division(Reading { bits: ONE }, loss_power)
            },
            Reading { bits: HUNDRED },
        ),
        EPSILON < w.stability.bits < INFINITE && w.latency.bits == ZERO && w.jitter.bits == ZERO
            && w.loss.bits == ZERO && w.reconnect.bits == ZERO && w.availability.bits == ZERO
            ==> health_of(input, w, loss_power) == product(
            input.stability,
            Reading { bits: HUNDRED },
        ),
        EPSILON < w.reconnect.bits < INFINITE && w.latency.bits == ZERO && w.jitter.bits == ZERO
            && w.loss.bits == ZERO && w.stability.bits == ZERO && w.availability.bits == ZERO
            ==> health_of(input, w, loss_power) == product(
            quotient(1, (r + 1) as u64),
            Reading { bits: HUNDRED },
        ),
        EPSILON < w.availability.bits < INFINITE && w.latency.bits == ZERO && w.jitter.bits == ZERO
            && w.loss.bits == ZERO && w.stability.bits == ZERO && w.reconnect.bits == ZERO
            ==> health_of(input, w, loss_power) == product(
            input.availability,
            Reading { bits: HUNDRED },
        ),
{
    reveal(health_of);
    let zero = Reading { bits: ZERO };
    let one = Reading { bits: ONE };
    let latency_ms = Reading { bits: HEALTH_LATENCY_MS };
    let jitter_ms = Reading { bits: HEALTH_JITTER_MS };
    lemma2_to64();
    lemma2_to64_rest();
    lemma_is_count(1029, 0x12_c000_0000_0000, 46, 1, 75, 150);
    lemma_is_count(1025, 0x1e_0000_0000_0000, 49, 0, 15, 15);
    lemma_over_count(latency_ms, 150, l);
    lemma_over_count(jitter_ms, 15, j);
    lemma_falls_off_by_counts(r);
    let latency = falling_off(division(input.latency_ms, latency_ms));
    let jitter = falling_off(division(input.jitter_ms, jitter_ms));
    let reconnect = falling_off(input.reconnect_rate);
    let loss = health_of_loss(input.packet_loss_ratio, loss_power);
    if r > 0 {
        law_counts_are_positive(r);
    }
    law_falling_off(input.reconnect_rate, input.reconnect_rate);
    law_shares_are_at_most_one(one, loss_power);
    assert(division(one, loss_power).bits <= ONE);
    lemma_lone_weight(w.latency);
    lemma_lone_weight(w.jitter);
    lemma_lone_weight(w.loss);
    lemma_lone_weight(w.stability);
    lemma_lone_weight(w.reconnect);
    lemma_lone_weight(w.availability);
    lemma_lone_part(latency);
    lemma_lone_part(jitter);
    lemma_lone_part(loss);
    lemma_lone_part(input.stability);
    lemma_lone_part(reconnect);
    lemma_lone_part(input.availability);
    law_zero_leaves_as_is(zero);
}

/// One over one and so many times a unit, over that unit.
proof fn lemma_over_count(unit: Reading, n: u64, k: u64)
    requires
        1 < n,
        n * k < 2 * STEP,
        0 < unit.bits < INFINITE,
        units(unit.bits as nat) == n * pow2(UNIT_DOUBLINGS as nat),
    ensures
        k + 1 < 2 * STEP,
        falling_off(division(counted((n * k) as u64), unit)) == quotient(1, (k + 1) as u64),
        falling_off(division(counted((n * k) as u64), unit)).bits <= ONE,
{
    assert(k <= n * k && (k > 0 ==> 2 * k <= n * k)) by (nonlinear_arith)
        requires
            n > 1,
            k >= 0,
    ;
    lemma_falls_off_by_counts(k);
    if k > 0 {
        lemma_multiple_over_count(unit, n, k);
        law_counts_are_positive(k);
    } else {
        assert(n * k == 0) by (nonlinear_arith)
            requires
                k == 0,
        ;
        law_zero_leaves_as_is(unit);
    }
    law_falling_off(counted(k), counted(k));
}

/// The metrics of a route are the input to its health as they are; what is not
/// lost is available.
pub proof fn law_health_is_of_the_metrics(m: MetricsSnapshot)
    ensures
        health_input(m).latency_ms == m.latency_ms,
        health_input(m).jitter_ms == m.jitter_ms,
        health_input(m).packet_loss_ratio == m.packet_loss_ratio,
        health_input(m).stability == m.stability,
        health_input(m).reconnect_rate == m.reconnect_rate,
        health_input(m).availability == difference(Reading { bits: ONE }, m.packet_loss_ratio),
{
}

/// A score has the highest grade whose threshold it reaches, where the
/// thresholds are in order; one that reaches none is critical.
pub proof fn law_grade_is_the_highest_reached(score: Reading, model: GradeModel)
    requires
        model.excellent_above.at_least(model.good_above),
        model.good_above.at_least(model.degraded_above),
        model.degraded_above.at_least(model.poor_above),
    ensures
        grade_of(score, model) == NetworkHealthGrade::Excellent <==> score.at_least(
            model.excellent_above,
        ),
        grade_of(score, model) == NetworkHealthGrade::Excellent || grade_of(score, model)
            == NetworkHealthGrade::Good <==> score.at_least(model.good_above),
        grade_of(score, model) == NetworkHealthGrade::Poor || grade_of(score, model)
            == NetworkHealthGrade::Critical <==> !score.at_least(model.degraded_above),
        grade_of(score, model) == NetworkHealthGrade::Critical <==> !score.at_least(
            model.poor_above,
        ),
{
}

/// By default a network is excellent from 80 on, good from 65, degraded from
/// 50 and poor from 30.
pub proof fn law_default_grades(score: u64)
    requires
        score < 2 * STEP,
    ensures
        grade_of(counted(score), default_grade_model()) == (if score >= 80 {
            NetworkHealthGrade::Excellent
        } else if score >= 65 {
            NetworkHealthGrade::Good
        } else if score >= 50 {
            NetworkHealthGrade::Degraded
        } else if score >= 30 {
            NetworkHealthGrade::Poor
        } else {
            NetworkHealthGrade::Critical
        }),
{
    lemma2_to64();
    lemma2_to64_rest();
    lemma_is_count(1028, 0x14_0000_0000_0000, 50, 4, 5, 80);
    lemma_is_count(1028, 0x10_4000_0000_0000, 46, 0, 65, 65);
    lemma_is_count(1027, 0x19_0000_0000_0000, 48, 1, 25, 50);
    lemma_is_count(1026, 0x1e_0000_0000_0000, 49, 1, 15, 30);
    lemma_reaches_count(score, Reading { bits: EXCELLENT_ABOVE }, 80);
    lemma_reaches_count(score, Reading { bits: GOOD_ABOVE }, 65);
    lemma_reaches_count(score, Reading { bits: DEGRADED_ABOVE }, 50);
    lemma_reaches_count(score, Reading { bits: POOR_ABOVE }, 30);
}

proof fn lemma_reaches_count(n: u64, bar: Reading, m: u64)
    requires
        n < 2 * STEP,
        bar.bits < INFINITE,
        units(bar.bits as nat) == m * pow2(UNIT_DOUBLINGS as nat),
    ensures
        counted(n).at_least(bar) <==> n >= m,
{
    let u = pow2(UNIT_DOUBLINGS as nat);
    lemma_pow2_pos(UNIT_DOUBLINGS as nat);
    law_counts_are_exact(n);
    assert(n * u >= m * u <==> n >= m) by (nonlinear_arith)
        requires
            u > 0,
    ;
    law_positions_follow_values(bar, counted(n));
}

/// An upgrade that has been under way for long enough lands, and one that has
/// not goes on from where it started; the better grade is then that of the
/// score.
pub proof fn law_sustained_upgrade_lands(
    t: HealthTracker,
    start: u64,
    score: Reading,
    now: u64,
    sustain_ms: u64,
)
    requires
        t.since == Some(start),
        start <= now,
        grade_of(score, t.model).rank_of() > t.grade.rank_of(),
    ensures
        now - start >= sustain_ms ==> t.observed(score, now, sustain_ms).grade == grade_of(
            score,
            t.model,
        ) && t.observed(score, now, sustain_ms).since is None,
        now - start < sustain_ms ==> t.observed(score, now, sustain_ms).grade == t.grade
            && t.observed(score, now, sustain_ms).since == Some(start),
        t.observed(score, now, sustain_ms).model == t.model,
{
}

/// The grades rank from critical to excellent.
pub proof fn law_grades_rank()
    ensures
        NetworkHealthGrade::Critical.rank_of() < NetworkHealthGrade::Poor.rank_of()
            < NetworkHealthGrade::Degraded.rank_of() < NetworkHealthGrade::Good.rank_of()
            < NetworkHealthGrade::Excellent.rank_of(),
{
}

/// How close a look a level stands for.
pub open spec fn closeness(level: MonitorLevel) -> int {
    match level {
        MonitorLevel::Low => 0,
        MonitorLevel::Normal => 1,
        MonitorLevel::High => 2,
        MonitorLevel::Aggressive => 3,
    }
}

/// The worse a network is, the closer it is watched, and each of the upper
/// grades has a level of its own.
pub proof fn law_worse_is_watched_closer(a: NetworkHealthGrade, b: NetworkHealthGrade)
    ensures
        a.rank_of() <= b.rank_of() ==> closeness(level_of(a)) >= closeness(level_of(b)),
        a.rank_of() < b.rank_of() && b.rank_of() > NetworkHealthGrade::Poor.rank_of()
            ==> closeness(level_of(a)) > closeness(level_of(b)),
{
}

/// A slower kind of mobile network is probed and kept alive more often, by
/// the same factor, and no other kind changes either. Only the slowest does
/// without QUIC.
pub proof fn law_slower_networks_are_watched_closer(network: NetworkType)
    ensures
        policies_of(network).probe_factor == policies_of(network).keepalive_factor,
        policies_of(NetworkType::ThreeG).probe_factor.below(
            policies_of(NetworkType::FourG).probe_factor,
        ),
        policies_of(NetworkType::FourG).probe_factor.below(Reading { bits: crate::reading::ONE }),
        network != NetworkType::FourG && network != NetworkType::ThreeG ==> policies_of(
            network,
        ).probe_factor == (Reading { bits: crate::reading::ONE }),
        policies_of(network).allow_quic <==> network != NetworkType::ThreeG,
        policies_of(network).allow_udp,
{
}

/// Weights that are all zero say nothing, and stand for the usual ones.
pub proof fn law_no_health_weights_are_the_usual_ones(w: HealthWeights)
    requires
        w.latency.bits == ZERO,
        w.jitter.bits == ZERO,
        w.loss.bits == ZERO,
        w.stability.bits == ZERO,
        w.reconnect.bits == ZERO,
        w.availability.bits == ZERO,
    ensures
        normalized_health(w) == default_health_weights(),
{
    law_zero_leaves_as_is(Reading { bits: ZERO });
    assert(health_weight_sum(w) == (Reading { bits: ZERO }));
}

} // verus!
