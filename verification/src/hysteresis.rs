//! Route hysteresis: small differences in measurements do not move a route.
//!
//! A candidate replaces the current route when it is clearly better, by a
//! share and by an amount, or when the current route has been degraded for a
//! while. A route that was left is banned for a cooldown.
use vstd::arithmetic::power2::{lemma_pow2_pos, lemma_pow2_unfold, pow2};
use vstd::prelude::*;

use crate::double::{
    difference, divide, division, doublings, lemma_apart, magnitude_of, minus, significand, units,
    STEP, UNIT_DOUBLINGS,
};
use crate::health::elapsed;
use crate::model::{MetricsSnapshot, RouteCandidate, RouteCandidateView};
use crate::order::{
    law_difference_reaches, law_positions_follow_values, law_positive_difference_is_a_gain,
};
use crate::ratio::{
    counted, law_counts_are_exact, law_counts_are_positive, law_rounds_no_higher,
    law_rounds_no_lower,
};
use crate::reading::{Reading, INFINITE, UNMEASURED, ZERO};
use crate::search::{first_index, lemma_first_index, lemma_first_index_is};
use crate::text::same;
use crate::TimestampMs;

verus! {

/// 0.03: the loss from which a route counts as bad.
pub const BAD_LOSS: u64 = 0x3f9e_b851_eb85_1eb8;

/// 20.0 ms: the jitter from which a route counts as bad.
pub const BAD_JITTER_MS: u64 = 0x4034_0000_0000_0000;

/// 200.0 ms: the latency from which a route counts as bad.
pub const BAD_LATENCY_MS: u64 = 0x4069_0000_0000_0000;

/// 0.10
pub const IMPROVEMENT_SHARE: u64 = 0x3fb9_9999_9999_999a;

/// 5.0 ms
pub const IMPROVEMENT_MS: u64 = 0x4014_0000_0000_0000;

/// 4.0 ms
pub const JITTER_IMPROVEMENT_MS: u64 = 0x4010_0000_0000_0000;

/// 0.005
pub const LOSS_IMPROVEMENT: u64 = 0x3f74_7ae1_47ae_147b;

#[derive(Clone, Copy, Debug, PartialEq)]
pub struct HysteresisConfig {
    /// The share of the current latency by which a candidate must be better.
    pub minimum_improvement_percent: Reading,
    /// And the number of milliseconds.
    pub minimum_improvement_ms: Reading,
    /// How long the current route must be degraded before it is left for that.
    pub minimum_degradation_duration_ms: u64,
    /// How long a route that was left stays banned.
    pub route_cooldown_ms: u64,
    /// The gain in jitter, in milliseconds, that justifies a switch.
    pub minimum_jitter_improvement_ms: Reading,
    /// The gain in loss that must go with it.
    pub minimum_loss_improvement: Reading,
}

pub open spec fn default_hysteresis() -> HysteresisConfig {
    HysteresisConfig {
        minimum_improvement_percent: Reading { bits: IMPROVEMENT_SHARE },
        minimum_improvement_ms: Reading { bits: IMPROVEMENT_MS },
        minimum_degradation_duration_ms: 5_000,
        route_cooldown_ms: 15_000,
        minimum_jitter_improvement_ms: Reading { bits: JITTER_IMPROVEMENT_MS },
        minimum_loss_improvement: Reading { bits: LOSS_IMPROVEMENT },
    }
}

impl Default for HysteresisConfig {
    fn default() -> (r: Self)
        ensures
            r == default_hysteresis(),
    {
        HysteresisConfig {
            minimum_improvement_percent: Reading { bits: IMPROVEMENT_SHARE },
            minimum_improvement_ms: Reading { bits: IMPROVEMENT_MS },
            minimum_degradation_duration_ms: 5_000,
            route_cooldown_ms: 15_000,
            minimum_jitter_improvement_ms: Reading { bits: JITTER_IMPROVEMENT_MS },
            minimum_loss_improvement: Reading { bits: LOSS_IMPROVEMENT },
        }
    }
}

#[derive(Clone, Copy, Debug, PartialEq, Eq, Structural)]
pub enum SwitchReason {
    SustainedImprovement,
    CurrentRouteDegraded,
}

#[allow(inconsistent_fields)]
#[derive(Debug, PartialEq)]
pub enum RouteVerdict {
    /// Stay on the current route.
    Keep,
    /// Switch to the candidate.
    Switch { candidate_id: String, reason: SwitchReason },
    /// The candidate is banned.
    NotYet { candidate_id: String, reason: String },
}

#[allow(inconsistent_fields)]
pub enum RouteVerdictView {
    Keep,
    Switch { candidate_id: Seq<char>, reason: SwitchReason },
    NotYet { candidate_id: Seq<char>, reason: Seq<char> },
}

impl View for RouteVerdict {
    type V = RouteVerdictView;

    open spec fn view(&self) -> RouteVerdictView {
        match *self {
            RouteVerdict::Keep => RouteVerdictView::Keep,
            RouteVerdict::Switch { candidate_id, reason } => RouteVerdictView::Switch {
                candidate_id: candidate_id@,
                reason,
            },
            RouteVerdict::NotYet { candidate_id, reason } => RouteVerdictView::NotYet {
                candidate_id: candidate_id@,
                reason: reason@,
            },
        }
    }
}

/// What is kept from one evaluation to the next.
#[derive(Debug)]
pub struct HysteresisState {
    pub current_route_id: String,
    /// Banned routes, and until when.
    pub cooldowns: Vec<(String, TimestampMs)>,
    /// Since when the current route has been degraded.
    pub degradation_since: Option<TimestampMs>,
    /// The metrics of the current route at the last evaluation.
    pub current_metrics: MetricsSnapshot,
}

#[verifier::ext_equal]
pub struct HysteresisStateView {
    pub current_route_id: Seq<char>,
    pub cooldowns: Seq<(Seq<char>, TimestampMs)>,
    pub degradation_since: Option<TimestampMs>,
    pub current_metrics: MetricsSnapshot,
}

pub open spec fn cooldown_views(s: Seq<(String, TimestampMs)>) -> Seq<(Seq<char>, TimestampMs)> {
    Seq::new(s.len(), |i: int| (s[i].0@, s[i].1))
}

impl View for HysteresisState {
    type V = HysteresisStateView;

    open spec fn view(&self) -> HysteresisStateView {
        HysteresisStateView {
            current_route_id: self.current_route_id@,
            cooldowns: cooldown_views(self.cooldowns@),
            degradation_since: self.degradation_since,
            current_metrics: self.current_metrics,
        }
    }
}

pub open spec fn unmeasured_metrics() -> MetricsSnapshot {
    MetricsSnapshot {
        latency_ms: Reading { bits: UNMEASURED },
        jitter_ms: Reading { bits: UNMEASURED },
        packet_loss_ratio: Reading { bits: UNMEASURED },
        stability: Reading { bits: ZERO },
        handshake_latency_ms: Reading { bits: UNMEASURED },
        reconnect_rate: Reading { bits: UNMEASURED },
    }
}

impl HysteresisStateView {
    pub open spec fn fresh() -> HysteresisStateView {
        HysteresisStateView {
            current_route_id: seq![],
            cooldowns: seq![],
            degradation_since: None,
            current_metrics: unmeasured_metrics(),
        }
    }
}

impl Default for HysteresisState {
    fn default() -> (r: Self)
        ensures
            r@ == HysteresisStateView::fresh(),
    {
        let r = HysteresisState {
            current_route_id: String::new(),
            cooldowns: Vec::new(),
            degradation_since: None,
            current_metrics: MetricsSnapshot {
                latency_ms: Reading { bits: UNMEASURED },
                jitter_ms: Reading { bits: UNMEASURED },
                packet_loss_ratio: Reading { bits: UNMEASURED },
                stability: Reading { bits: ZERO },
                handshake_latency_ms: Reading { bits: UNMEASURED },
                reconnect_rate: Reading { bits: UNMEASURED },
            },
        };
        assert(r@ =~= HysteresisStateView::fresh());
        r
    }
}

/// Whether a candidate is clearly better in latency: by a share of the
/// current latency, and by an amount.
pub open spec fn latency_improves(
    current_ms: Reading,
    candidate_ms: Reading,
    cfg: HysteresisConfig,
) -> bool {
    let gain = difference(current_ms, candidate_ms);
    &&& !candidate_ms.at_least(current_ms)
    &&& division(gain, current_ms).at_least(cfg.minimum_improvement_percent)
    &&& gain.at_least(cfg.minimum_improvement_ms)
}

fn latency_improvement(
    current_ms: Reading,
    candidate_ms: Reading,
    cfg: &HysteresisConfig,
) -> (r: bool)
    ensures
        r == latency_improves(current_ms, candidate_ms, *cfg),
{
    if candidate_ms >= current_ms {
        return false;
    }
    let gain = minus(current_ms, candidate_ms);
    divide(gain, current_ms) >= cfg.minimum_improvement_percent && gain
        >= cfg.minimum_improvement_ms
}

/// Whether a candidate is better in jitter and in loss by enough to matter.
pub open spec fn steadier(
    current: MetricsSnapshot,
    candidate: MetricsSnapshot,
    cfg: HysteresisConfig,
) -> bool {
    &&& difference(current.jitter_ms, candidate.jitter_ms).at_least(
        cfg.minimum_jitter_improvement_ms,
    )
    &&& difference(current.packet_loss_ratio, candidate.packet_loss_ratio).at_least(
        cfg.minimum_loss_improvement,
    )
}

pub open spec fn loss_bad(m: MetricsSnapshot) -> bool {
    m.packet_loss_ratio.at_least(Reading { bits: BAD_LOSS })
}

pub open spec fn jitter_bad(m: MetricsSnapshot) -> bool {
    m.jitter_ms.at_least(Reading { bits: BAD_JITTER_MS })
}

pub open spec fn latency_bad(m: MetricsSnapshot) -> bool {
    m.latency_ms.at_least(Reading { bits: BAD_LATENCY_MS })
}

/// A route is degraded when any of its metrics is bad.
pub open spec fn degraded(m: MetricsSnapshot) -> bool {
    loss_bad(m) || jitter_bad(m) || latency_bad(m)
}

/// A candidate is unfit when two of its metrics are bad.
pub open spec fn falling(m: MetricsSnapshot) -> bool {
    (loss_bad(m) && jitter_bad(m)) || (loss_bad(m) && latency_bad(m)) || (latency_bad(m)
        && jitter_bad(m))
}

fn current_route_degraded(current: &MetricsSnapshot) -> (r: bool)
    ensures
        r == degraded(*current),
{
    current.packet_loss_ratio >= (Reading { bits: BAD_LOSS }) || current.jitter_ms >= (Reading {
        bits: BAD_JITTER_MS,
    }) || current.latency_ms >= (Reading { bits: BAD_LATENCY_MS })
}

fn candidate_is_falling(candidate: &MetricsSnapshot) -> (r: bool)
    ensures
        r == falling(*candidate),
{
    let loss_is_bad = candidate.packet_loss_ratio >= (Reading { bits: BAD_LOSS });
    let jitter_is_bad = candidate.jitter_ms >= (Reading { bits: BAD_JITTER_MS });
    let latency_is_bad = candidate.latency_ms >= (Reading { bits: BAD_LATENCY_MS });
    (loss_is_bad && jitter_is_bad) || (loss_is_bad && latency_is_bad) || (latency_is_bad
        && jitter_is_bad)
}

#[derive(Debug)]
pub struct RouteDecider {
    pub cfg: HysteresisConfig,
    pub state: HysteresisState,
}

#[verifier::ext_equal]
pub struct RouteDeciderView {
    pub cfg: HysteresisConfig,
    pub state: HysteresisStateView,
}

impl View for RouteDecider {
    type V = RouteDeciderView;

    open spec fn view(&self) -> RouteDeciderView {
        RouteDeciderView { cfg: self.cfg, state: self.state@ }
    }
}

/// The bans that outlast `from`.
pub open spec fn bans_after(s: Seq<(Seq<char>, TimestampMs)>, from: int) -> Seq<
    (Seq<char>, TimestampMs),
>
    decreases s.len(),
{
    if s.len() == 0 {
        seq![]
    } else if s.last().1 > from {
        bans_after(s.drop_last(), from).push(s.last())
    } else {
        bans_after(s.drop_last(), from)
    }
}

/// The place of the first ban of the route, or the number of bans.
pub open spec fn ban_of(s: Seq<(Seq<char>, TimestampMs)>, id: Seq<char>) -> int {
    first_index(s, names(id))
}

/// Whether a ban is of the route.
pub open spec fn names(id: Seq<char>) -> spec_fn((Seq<char>, TimestampMs)) -> bool {
    |ban: (Seq<char>, TimestampMs)| ban.0 == id
}

/// The bans with the route banned until `until`.
pub open spec fn with_ban(
    s: Seq<(Seq<char>, TimestampMs)>,
    id: Seq<char>,
    until: TimestampMs,
) -> Seq<(Seq<char>, TimestampMs)> {
    let at = ban_of(s, id);
    if at < s.len() {
        s.update(at, (s[at].0, until))
    } else {
        s.push((id, until))
    }
}

pub open spec fn saturating(n: int) -> u64 {
    if n > u64::MAX {
        u64::MAX
    } else {
        n as u64
    }
}

impl RouteDeciderView {
    pub open spec fn fresh(cfg: HysteresisConfig) -> RouteDeciderView {
        RouteDeciderView { cfg, state: HysteresisStateView::fresh() }
    }

    pub open spec fn banned(self, id: Seq<char>, now: TimestampMs) -> bool {
        exists|i: int|
            0 <= i < self.state.cooldowns.len() && (#[trigger] self.state.cooldowns[i]).0 == id
                && now < self.state.cooldowns[i].1
    }

    /// Since when the current route has been degraded, `now` included.
    pub open spec fn degraded_since(self, now: TimestampMs) -> Option<TimestampMs> {
        if degraded(self.state.current_metrics) {
            match self.state.degradation_since {
                Some(t) => Some(t),
                None => Some(now),
            }
        } else {
            None
        }
    }

    pub open spec fn degraded_long_enough(self, now: TimestampMs) -> bool {
        match self.degraded_since(now) {
            Some(t) => elapsed(now, t) >= self.cfg.minimum_degradation_duration_ms,
            None => false,
        }
    }

    /// Why to switch to the candidate, if at all, where it is not banned.
    pub open spec fn reason_to_switch(
        self,
        candidate: RouteCandidateView,
        now: TimestampMs,
    ) -> Option<SwitchReason> {
        if latency_improves(
            self.state.current_metrics.latency_ms,
            candidate.latency_ms,
            self.cfg,
        ) && !falling(candidate.metrics()) {
            Some(SwitchReason::SustainedImprovement)
        } else if self.degraded_long_enough(now) {
            Some(SwitchReason::CurrentRouteDegraded)
        } else if steadier(self.state.current_metrics, candidate.metrics(), self.cfg) {
            Some(SwitchReason::SustainedImprovement)
        } else {
            None
        }
    }

    pub open spec fn verdict(
        self,
        candidate: RouteCandidateView,
        now: TimestampMs,
    ) -> RouteVerdictView {
        if self.banned(candidate.id, now) {
            RouteVerdictView::NotYet { candidate_id: candidate.id, reason: "in cooldown"@ }
        } else {
            match self.reason_to_switch(candidate, now) {
                Some(reason) => RouteVerdictView::Switch { candidate_id: candidate.id, reason },
                None => RouteVerdictView::Keep,
            }
        }
    }

    /// The bans once the route is banned until `until`; bans that ended long
    /// before are dropped.
    pub open spec fn with_cooldown(self, id: Seq<char>, until: TimestampMs) -> RouteDeciderView {
        RouteDeciderView {
            state: HysteresisStateView {
                cooldowns: with_ban(
                    bans_after(
                        self.state.cooldowns,
                        if until >= self.cfg.route_cooldown_ms * 2 {
                            until - self.cfg.route_cooldown_ms * 2
                        } else {
                            0
                        },
                    ),
                    id,
                    until,
                ),
                ..self.state
            },
            ..self
        }
    }

    /// The decider once it has switched to the candidate: the route that was
    /// left is banned.
    pub open spec fn switched(
        self,
        candidate: RouteCandidateView,
        now: TimestampMs,
    ) -> RouteDeciderView {
        let left = self.state.current_route_id;
        let base = if left.len() > 0 && left != candidate.id {
            self.with_cooldown(left, saturating(now + self.cfg.route_cooldown_ms))
        } else {
            self
        };
        RouteDeciderView {
            state: HysteresisStateView {
                current_route_id: candidate.id,
                current_metrics: candidate.metrics(),
                degradation_since: None,
                ..base.state
            },
            ..self
        }
    }

    pub open spec fn evaluated(
        self,
        candidate: RouteCandidateView,
        now: TimestampMs,
    ) -> RouteDeciderView {
        if self.banned(candidate.id, now) {
            self
        } else if self.reason_to_switch(candidate, now) is Some {
            self.switched(candidate, now)
        } else {
            RouteDeciderView {
                state: HysteresisStateView {
                    degradation_since: self.degraded_since(now),
                    ..self.state
                },
                ..self
            }
        }
    }
}

impl RouteDecider {
    pub fn new(cfg: HysteresisConfig) -> (r: Self)
        ensures
            r@ == RouteDeciderView::fresh(cfg),
    {
        RouteDecider { cfg, state: HysteresisState::default() }
    }

    pub fn from_state(cfg: HysteresisConfig, state: HysteresisState) -> (r: Self)
        ensures
            r@ == (RouteDeciderView { cfg, state: state@ }),
    {
        RouteDecider { cfg, state }
    }

    /// Whether to leave the current route for the candidate.
    pub fn evaluate(
        &mut self,
        candidate: &RouteCandidate,
        now: TimestampMs,
    ) -> (r: RouteVerdict)
        requires
            old(self).cfg.route_cooldown_ms * 2 <= u64::MAX,
        ensures
            r@ == old(self)@.verdict(candidate@, now),
            final(self)@ == old(self)@.evaluated(candidate@, now),
    {
        if self.in_cooldown(&candidate.id, now) {
            return RouteVerdict::NotYet {
                candidate_id: candidate.id.clone(),
                reason: "in cooldown".to_owned(),
            };
        }
        let current = self.state.current_metrics;
        let candidate_metrics = candidate.metrics();
        if current_route_degraded(&current) {
            if self.state.degradation_since.is_none() {
                self.state.degradation_since = Some(now);
            }
        } else {
            self.state.degradation_since = None;
        }
        let long_enough = match self.state.degradation_since {
            Some(since) => now.saturating_sub(since) >= self.cfg.minimum_degradation_duration_ms,
            None => false,
        };
        if latency_improvement(current.latency_ms, candidate_metrics.latency_ms, &self.cfg)
            && !candidate_is_falling(&candidate_metrics) {
            return self.switch_to(candidate, SwitchReason::SustainedImprovement, now);
        }
        if long_enough {
            return self.switch_to(candidate, SwitchReason::CurrentRouteDegraded, now);
        }
        let jitter_gain = minus(current.jitter_ms, candidate_metrics.jitter_ms);
        let loss_gain = minus(current.packet_loss_ratio, candidate_metrics.packet_loss_ratio);
        if jitter_gain >= self.cfg.minimum_jitter_improvement_ms && loss_gain
            >= self.cfg.minimum_loss_improvement {
            return self.switch_to(candidate, SwitchReason::SustainedImprovement, now);
        }
        RouteVerdict::Keep
    }

    fn in_cooldown(&self, id: &str, now: TimestampMs) -> (r: bool)
        ensures
            r == self@.banned(id@, now),
    {
        let mut i: usize = 0;
        while i < self.state.cooldowns.len()
            invariant
                i <= self.state.cooldowns.len(),
                forall|j: int|
                    0 <= j < i ==> !((#[trigger] self@.state.cooldowns[j]).0 == id@ && now
                        < self@.state.cooldowns[j].1),
            decreases self.state.cooldowns.len() - i,
        {
            let entry = &self.state.cooldowns[i];
            assert(self@.state.cooldowns[i as int] == (entry.0@, entry.1));
            if same(&entry.0, id) && now < entry.1 {
                return true;
            }
            i = i + 1;
        }
        false
    }

    fn switch_to(
        &mut self,
        candidate: &RouteCandidate,
        reason: SwitchReason,
        now: TimestampMs,
    ) -> (r: RouteVerdict)
        requires
            old(self).cfg.route_cooldown_ms * 2 <= u64::MAX,
        ensures
            r@ == (RouteVerdictView::Switch { candidate_id: candidate@.id, reason }),
            final(self)@ == old(self)@.switched(candidate@, now),
    {
        let left = self.state.current_route_id.clone();
        if !left.as_str().is_empty() && left != candidate.id {
            let until: u64 = now.saturating_add(self.cfg.route_cooldown_ms);
            self.apply_cooldown(&left, until);
        }
        self.state.current_route_id = candidate.id.clone();
        self.state.current_metrics = candidate.metrics();
        self.state.degradation_since = None;
        RouteVerdict::Switch { candidate_id: candidate.id.clone(), reason }
    }

    /// Takes in fresh metrics of the current route.
    pub fn update_current_metrics(&mut self, metrics: MetricsSnapshot)
        ensures
            final(self)@ == (RouteDeciderView {
                state: HysteresisStateView { current_metrics: metrics, ..old(self)@.state },
                ..old(self)@
            }),
    {
        self.state.current_metrics = metrics;
    }

    fn keep_bans_after(&mut self, from: u64)
        ensures
            final(self)@ == (RouteDeciderView {
                state: HysteresisStateView {
                    cooldowns: bans_after(old(self)@.state.cooldowns, from as int),
                    ..old(self)@.state
                },
                ..old(self)@
            }),
    {
        let mut kept: Vec<(String, TimestampMs)> = Vec::new();
        let mut i: usize = 0;
        let ghost all = self@.state.cooldowns;
        assert(all.take(0) =~= seq![]);
        assert(cooldown_views(kept@) =~= seq![]);
        while i < self.state.cooldowns.len()
            invariant
                i <= self.state.cooldowns.len(),
                all == cooldown_views(self.state.cooldowns@),
                cooldown_views(kept@) == bans_after(all.take(i as int), from as int),
            decreases self.state.cooldowns.len() - i,
        {
            let entry = &self.state.cooldowns[i];
            assert(all.take(i + 1).drop_last() =~= all.take(i as int));
            assert(all[i as int] == (entry.0@, entry.1));
            if entry.1 > from {
                let ghost before = kept@;
                kept.push((entry.0.clone(), entry.1));
                assert(cooldown_views(kept@) =~= cooldown_views(before).push((entry.0@, entry.1)));
            }
            i = i + 1;
        }
        assert(all.take(i as int) =~= all);
        self.state.cooldowns = kept;
    }

    /// Bans the route until `until`, and drops bans that ended two cooldowns
    /// before that.
    pub fn apply_cooldown(&mut self, route_id: &str, until: TimestampMs)
        requires
            old(self).cfg.route_cooldown_ms * 2 <= u64::MAX,
        ensures
            final(self)@ == old(self)@.with_cooldown(route_id@, until),
    {
        let from: u64 = until.saturating_sub(self.cfg.route_cooldown_ms * 2);
        self.keep_bans_after(from);
        let ghost kept = self@.state.cooldowns;
        let mut at: usize = 0;
        while at < self.state.cooldowns.len() && !same(&self.state.cooldowns[at].0, route_id)
            invariant
                at <= self.state.cooldowns.len(),
                kept == self@.state.cooldowns,
                forall|j: int| 0 <= j < at ==> (#[trigger] kept[j]).0 != route_id@,
            decreases self.state.cooldowns.len() - at,
        {
            assert(kept[at as int].0 == self.state.cooldowns@[at as int].0@);
            at = at + 1;
        }
        proof {
            if at < kept.len() {
                assert(kept[at as int].0 == self.state.cooldowns@[at as int].0@);
            }
            lemma_first_index_is(kept, names(route_id@), at as int);
        }
        let ghost before = self.state.cooldowns@;
        if at < self.state.cooldowns.len() {
            let id = self.state.cooldowns[at].0.clone();
            self.state.cooldowns.set(at, (id, until));
            assert(cooldown_views(self.state.cooldowns@) =~= kept.update(
                at as int,
                (kept[at as int].0, until),
            ));
        } else {
            self.state.cooldowns.push((route_id.to_owned(), until));
            assert(cooldown_views(self.state.cooldowns@) =~= kept.push((route_id@, until)));
        }
    }

    /// Drops the bans that have ended at `now`.
    pub fn prune_cooldowns(&mut self, now: TimestampMs)
        ensures
            final(self)@ == (RouteDeciderView {
                state: HysteresisStateView {
                    cooldowns: bans_after(old(self)@.state.cooldowns, now as int),
                    ..old(self)@.state
                },
                ..old(self)@
            }),
    {
        self.keep_bans_after(now);
    }
}

proof fn lemma_with_ban_bans(
    s: Seq<(Seq<char>, TimestampMs)>,
    id: Seq<char>,
    until: TimestampMs,
)
    ensures
        exists|i: int|
            0 <= i < with_ban(s, id, until).len() && (#[trigger] with_ban(s, id, until)[i]) == (
                id,
                until,
            ),
{
    lemma_first_index(s, names(id));
    let at = ban_of(s, id);
    if at < s.len() {
        assert(with_ban(s, id, until)[at] == (id, until));
    } else {
        assert(with_ban(s, id, until)[s.len() as int] == (id, until));
    }
}

/// After a switch, the route that was left cannot be switched back to before
/// its cooldown is over, however good it is.
pub proof fn law_no_switch_back(
    d: RouteDeciderView,
    candidate: RouteCandidateView,
    back: RouteCandidateView,
    now: TimestampMs,
    later: TimestampMs,
)
    requires
        d.state.current_route_id.len() > 0,
        d.state.current_route_id != candidate.id,
        back.id == d.state.current_route_id,
        later < saturating(now + d.cfg.route_cooldown_ms),
    ensures
        d.switched(candidate, now).verdict(back, later) is NotYet,
        d.switched(candidate, now).evaluated(back, later) == d.switched(candidate, now),
{
    let until = saturating(now + d.cfg.route_cooldown_ms);
    let kept = bans_after(
        d.state.cooldowns,
        if until >= d.cfg.route_cooldown_ms * 2 {
            until - d.cfg.route_cooldown_ms * 2
        } else {
            0
        },
    );
    lemma_with_ban_bans(kept, back.id, until);
    assert(d.switched(candidate, now).state.cooldowns == with_ban(kept, back.id, until));
    assert(d.switched(candidate, now).banned(back.id, later));
}

/// A candidate that is better in nothing replaces the current route only after
/// the current route has been degraded for the configured time.
pub proof fn law_no_flapping(
    d: RouteDeciderView,
    candidate: RouteCandidateView,
    now: TimestampMs,
)
    requires
        !latency_improves(d.state.current_metrics.latency_ms, candidate.latency_ms, d.cfg),
        !steadier(d.state.current_metrics, candidate.metrics(), d.cfg),
    ensures
        d.verdict(candidate, now) is Switch ==> d.degraded_long_enough(now) && degraded(
            d.state.current_metrics,
        ),
        !d.degraded_long_enough(now) ==> d.evaluated(candidate, now).state.current_route_id
            == d.state.current_route_id,
{
}

/// A verdict to switch names the candidate, and the decider then stands on it.
pub proof fn law_verdict_is_carried_out(
    d: RouteDeciderView,
    candidate: RouteCandidateView,
    now: TimestampMs,
)
    ensures
        d.verdict(candidate, now) is Switch ==> {
            &&& d.evaluated(candidate, now).state.current_route_id == candidate.id
            &&& d.evaluated(candidate, now).state.current_metrics == candidate.metrics()
        },
        !(d.verdict(candidate, now) is Switch) ==> d.evaluated(
            candidate,
            now,
        ).state.current_route_id == d.state.current_route_id,
{
}

/// A switch for an improvement improves: the candidate is quicker than the
/// current route, or has both less jitter and less loss, as long as the least
/// gains that are asked for are above zero.
pub proof fn law_improvement_improves(
    d: RouteDeciderView,
    candidate: RouteCandidateView,
    now: TimestampMs,
)
    requires
        d.cfg.minimum_jitter_improvement_ms.position() > 0,
        d.cfg.minimum_loss_improvement.position() > 0,
        d.verdict(candidate, now) == (RouteVerdictView::Switch {
            candidate_id: candidate.id,
            reason: SwitchReason::SustainedImprovement,
        }),
    ensures
        ({
            let current = d.state.current_metrics;
            ||| candidate.latency_ms.position() < current.latency_ms.position()
            ||| candidate.jitter_ms.position() < current.jitter_ms.position()
                && candidate.packet_loss_ratio.position() < current.packet_loss_ratio.position()
        }),
{
    let current = d.state.current_metrics;
    if steadier(current, candidate.metrics(), d.cfg) {
        law_positive_difference_is_a_gain(current.jitter_ms, candidate.jitter_ms);
        law_positive_difference_is_a_gain(
            current.packet_loss_ratio,
            candidate.packet_loss_ratio,
        );
    }
}

/// A candidate that is not banned, and whose jitter and loss are lower than
/// those of the current route by what is asked for, is switched to.
pub proof fn law_steadier_candidate_is_taken(
    d: RouteDeciderView,
    candidate: RouteCandidateView,
    now: TimestampMs,
)
    requires
        forall|i: int|
            0 <= i < d.state.cooldowns.len() && (#[trigger] d.state.cooldowns[i]).0 == candidate.id
                ==> d.state.cooldowns[i].1 <= now,
        d.state.current_metrics.jitter_ms.is_finite(),
        d.state.current_metrics.packet_loss_ratio.is_finite(),
        candidate.jitter_ms.is_finite(),
        candidate.packet_loss_ratio.is_finite(),
        d.cfg.minimum_jitter_improvement_ms.is_finite(),
        d.cfg.minimum_loss_improvement.is_finite(),
        d.state.current_metrics.jitter_ms.value() - candidate.jitter_ms.value()
            >= d.cfg.minimum_jitter_improvement_ms.value(),
        d.state.current_metrics.packet_loss_ratio.value() - candidate.packet_loss_ratio.value()
            >= d.cfg.minimum_loss_improvement.value(),
    ensures
        d.verdict(candidate, now) is Switch,
        d.evaluated(candidate, now).state.current_route_id == candidate.id,
{
    let current = d.state.current_metrics;
    law_difference_reaches(
        current.jitter_ms,
        candidate.jitter_ms,
        d.cfg.minimum_jitter_improvement_ms,
    );
    law_difference_reaches(
        current.packet_loss_ratio,
        candidate.packet_loss_ratio,
        d.cfg.minimum_loss_improvement,
    );
}

/// What two whole numbers of milliseconds differ by, and what share of the
/// first that is.
proof fn lemma_whole_gain(a: u64, b: u64)
    requires
        b < a < 2 * STEP,
    ensures
        difference(counted(a), counted(b)) == counted((a - b) as u64),
        counted(b).below(counted(a)),
        counted((a - b) as u64).is_finite(),
        counted((a - b) as u64).value() == (a - b) * pow2(UNIT_DOUBLINGS as nat),
        !division(counted((a - b) as u64), counted(a)).is_nan(),
        division(counted((a - b) as u64), counted(a)).position() == magnitude_of(
            (((a - b) * pow2(UNIT_DOUBLINGS as nat)) * pow2(UNIT_DOUBLINGS as nat)) as nat,
            (a * pow2(UNIT_DOUBLINGS as nat)) as nat,
        ),
        a * pow2(UNIT_DOUBLINGS as nat) > 0,
{
    let u = pow2(UNIT_DOUBLINGS as nat);
    lemma_pow2_pos(UNIT_DOUBLINGS as nat);
    let gain = (a - b) as u64;
    law_counts_are_exact(a);
    law_counts_are_exact(b);
    law_counts_are_exact(gain);
    law_counts_are_positive(a);
    law_counts_are_positive(gain);
    let exact = counted(a).value() - counted(b).value();
    assert(exact == gain * u && gain * u > 0 && a * u > b * u && a * u > 0) by (nonlinear_arith)
        requires
            exact == a * u - b * u,
            gain == a - b,
            b < a,
            b >= 0,
            u > 0,
    ;
    assert(counted(b).negation().value() == -counted(b).value());
    law_positions_follow_values(counted(b), counted(a));
}

/// A candidate that is not banned, has neither much jitter nor much loss, and
/// is quicker by the share and by the milliseconds that are asked for, is
/// switched to as an improvement.
pub proof fn law_clear_gain_is_taken(
    d: RouteDeciderView,
    candidate: RouteCandidateView,
    now: TimestampMs,
    current_ms: u64,
    candidate_ms: u64,
)
    requires
        forall|i: int|
            0 <= i < d.state.cooldowns.len() && (#[trigger] d.state.cooldowns[i]).0 == candidate.id
                ==> d.state.cooldowns[i].1 <= now,
        candidate_ms < current_ms < 2 * STEP,
        d.state.current_metrics.latency_ms == counted(current_ms),
        candidate.latency_ms == counted(candidate_ms),
        d.cfg.minimum_improvement_ms.is_finite(),
        d.cfg.minimum_improvement_ms.value() <= (current_ms - candidate_ms) * pow2(
            UNIT_DOUBLINGS as nat,
        ),
        d.cfg.minimum_improvement_percent.is_finite(),
        d.cfg.minimum_improvement_percent.value() * current_ms <= (current_ms - candidate_ms)
            * pow2(UNIT_DOUBLINGS as nat),
        candidate.packet_loss_ratio.position() < BAD_LOSS,
        candidate.jitter_ms.position() < BAD_JITTER_MS,
    ensures
        d.verdict(candidate, now) == (RouteVerdictView::Switch {
            candidate_id: candidate.id,
            reason: SwitchReason::SustainedImprovement,
        }),
{
    let u = pow2(UNIT_DOUBLINGS as nat);
    lemma_pow2_pos(UNIT_DOUBLINGS as nat);
    let gain = (current_ms - candidate_ms) as u64;
    let share = d.cfg.minimum_improvement_percent;
    lemma_whole_gain(current_ms, candidate_ms);
    law_positions_follow_values(d.cfg.minimum_improvement_ms, counted(gain));
    law_positions_follow_values(share, share);
    if share.position() > 0 {
        let s = units(share.magnitude() as nat);
        let n = (gain * u) * u;
        let w = current_ms * u;
        assert(n >= s * w) by (nonlinear_arith)
            requires
                n == (gain * u) * u,
                w == current_ms * u,
                s * current_ms <= gain * u,
                u > 0,
        ;
        law_rounds_no_lower(n as nat, w as nat, share.bits);
    }
}

/// A gain in latency alone that is below the milliseconds asked for, or not
/// half of the share asked for, leaves a sound route where it is.
pub proof fn law_small_gain_is_not_taken(
    d: RouteDeciderView,
    candidate: RouteCandidateView,
    now: TimestampMs,
    current_ms: u64,
    candidate_ms: u64,
)
    requires
        candidate_ms < current_ms < 2 * STEP,
        d.state.current_metrics.latency_ms == counted(current_ms),
        candidate.latency_ms == counted(candidate_ms),
        ({
            let gain = (current_ms - candidate_ms) * pow2(UNIT_DOUBLINGS as nat);
            let share = d.cfg.minimum_improvement_percent;
            ||| d.cfg.minimum_improvement_ms.is_finite() && gain
                < d.cfg.minimum_improvement_ms.value()
            ||| 2 * STEP <= share.bits < INFINITE && 2 * gain <= share.value() * current_ms
        }),
        d.state.current_metrics.latency_ms.position() < BAD_LATENCY_MS,
        d.state.current_metrics.jitter_ms.position() < BAD_JITTER_MS,
        d.state.current_metrics.packet_loss_ratio.position() < BAD_LOSS,
        d.cfg.minimum_jitter_improvement_ms.position() > 0,
        candidate.jitter_ms.position() >= d.state.current_metrics.jitter_ms.position(),
    ensures
        !(d.verdict(candidate, now) is Switch),
        d.evaluated(candidate, now).state.current_route_id == d.state.current_route_id,
{
    let u = pow2(UNIT_DOUBLINGS as nat);
    lemma_pow2_pos(UNIT_DOUBLINGS as nat);
    let gain = (current_ms - candidate_ms) as u64;
    let share = d.cfg.minimum_improvement_percent;
    let current = d.state.current_metrics;
    lemma_whole_gain(current_ms, candidate_ms);
    if 2 * STEP <= share.bits < INFINITE && 2 * (gain * u) <= share.value() * current_ms {
        let h = doublings(share.bits as nat);
        let c = significand(share.bits as nat);
        lemma_apart(share.bits as nat);
        lemma_pow2_unfold(h);
        let half = (share.bits - STEP) as u64;
        lemma_units_below(h, c);
        assert(half as nat == (h - 1) as nat * (STEP as nat) + c) by (nonlinear_arith)
            requires
                half == share.bits - STEP,
                share.bits == h * (STEP as nat) + c,
                h >= 1,
        ;
        let s = units(half as nat);
        assert(units(share.bits as nat) == 2 * s) by (nonlinear_arith)
            requires
                units(share.bits as nat) == c * (2 * pow2((h - 1) as nat)),
                s == c * pow2((h - 1) as nat),
        ;
        let n = (gain * u) * u;
        let w = current_ms * u;
        assert(n <= s * w) by (nonlinear_arith)
            requires
                n == (gain * u) * u,
                w == current_ms * u,
                2 * (gain * u) <= (2 * s) * current_ms,
                u > 0,
        ;
        law_rounds_no_higher(n as nat, w as nat, half);
    } else {
        law_positions_follow_values(d.cfg.minimum_improvement_ms, counted(gain));
        law_positions_follow_values(counted(gain), d.cfg.minimum_improvement_ms);
    }
    if steadier(current, candidate.metrics(), d.cfg) {
        law_positive_difference_is_a_gain(current.jitter_ms, candidate.jitter_ms);
    }
}

/// What the magnitude one step of the exponent below stands for.
proof fn lemma_units_below(h: nat, c: nat)
    requires
        1 <= h <= 2045,
        STEP <= c < 2 * STEP,
    ensures
        units((h - 1) as nat * (STEP as nat) + c) == c * pow2((h - 1) as nat),
{
    let m = (h - 1) as nat * (STEP as nat) + c;
    assert(m < INFINITE) by (nonlinear_arith)
        requires
            m == (h - 1) * STEP + c,
            h <= 2045,
            c < 2 * STEP,
    ;
    lemma_apart(m);
    assert(doublings(m) == h - 1) by (nonlinear_arith)
        requires
            m == (h - 1) * STEP + c,
            STEP <= c < 2 * STEP,
            h >= 1,
            doublings(m) == (if m < 2 * STEP {
                0
            } else {
                m / (STEP as nat) - 1
            }),
    ;
}

/// Once any one metric of the current route has been bad for as long as the
/// configuration says, a candidate that is not banned takes its place, however
/// it compares.
pub proof fn law_lasting_degradation_moves(
    d: RouteDeciderView,
    candidate: RouteCandidateView,
    now: TimestampMs,
    since: TimestampMs,
)
    requires
        forall|i: int|
            0 <= i < d.state.cooldowns.len() && (#[trigger] d.state.cooldowns[i]).0 == candidate.id
                ==> d.state.cooldowns[i].1 <= now,
        d.state.degradation_since == Some(since),
        now - since >= d.cfg.minimum_degradation_duration_ms,
        ({
            let m = d.state.current_metrics;
            ||| !m.latency_ms.is_nan() && m.latency_ms.position() >= BAD_LATENCY_MS
            ||| !m.jitter_ms.is_nan() && m.jitter_ms.position() >= BAD_JITTER_MS
            ||| !m.packet_loss_ratio.is_nan() && m.packet_loss_ratio.position() >= BAD_LOSS
        }),
    ensures
        d.verdict(candidate, now) is Switch,
        d.evaluated(candidate, now).state.current_route_id == candidate.id,
        d.evaluated(candidate, now).state.degradation_since is None,
{
}

/// The time that a route has been degraded runs from the first evaluation that
/// finds a bad metric, stands while a metric is bad, and starts over once none
/// is; only when it is long enough does it move the route.
pub proof fn law_degradation_is_timed(
    d: RouteDeciderView,
    candidate: RouteCandidateView,
    now: TimestampMs,
)
    ensures
        ({
            let m = d.state.current_metrics;
            let bad = (!m.latency_ms.is_nan() && m.latency_ms.position() >= BAD_LATENCY_MS) || (
            !m.jitter_ms.is_nan() && m.jitter_ms.position() >= BAD_JITTER_MS) || (
            !m.packet_loss_ratio.is_nan() && m.packet_loss_ratio.position() >= BAD_LOSS);
            let after = d.evaluated(candidate, now).state;
            &&& d.verdict(candidate, now) is Keep && bad && d.state.degradation_since is None
                ==> after.degradation_since == Some(now)
            &&& d.verdict(candidate, now) is Keep && bad && d.state.degradation_since is Some
                ==> after.degradation_since == d.state.degradation_since
            &&& d.verdict(candidate, now) is Keep && !bad ==> after.degradation_since is None
            &&& d.verdict(candidate, now) == (RouteVerdictView::Switch {
                candidate_id: candidate.id,
                reason: SwitchReason::CurrentRouteDegraded,
            }) ==> bad && (d.cfg.minimum_degradation_duration_ms == 0 || (d.state.degradation_since
                matches Some(t) && now - t >= d.cfg.minimum_degradation_duration_ms))
        }),
{
}

/// A candidate is put off exactly while a ban of it runs, and that changes
/// nothing.
pub proof fn law_only_bans_put_off(
    d: RouteDeciderView,
    candidate: RouteCandidateView,
    now: TimestampMs,
)
    ensures
        d.verdict(candidate, now) is NotYet <==> exists|i: int|
            0 <= i < d.state.cooldowns.len() && (#[trigger] d.state.cooldowns[i]).0 == candidate.id
                && now < d.state.cooldowns[i].1,
        d.verdict(candidate, now) is NotYet ==> d.evaluated(candidate, now) == d,
        d.verdict(candidate, now) matches RouteVerdictView::NotYet { candidate_id, .. }
            ==> candidate_id == candidate.id,
        d.verdict(candidate, now) matches RouteVerdictView::Switch { candidate_id, .. }
            ==> candidate_id == candidate.id,
{
}

proof fn lemma_bans_filter(s: Seq<(Seq<char>, TimestampMs)>, from: int)
    ensures
        bans_after(s, from) == s.filter(|ban: (Seq<char>, TimestampMs)| ban.1 > from),
    decreases s.len(),
{
    reveal(Seq::filter);
    if s.len() > 0 {
        lemma_bans_filter(s.drop_last(), from);
    }
}

/// Dropping the bans that have ended keeps exactly those that have not: no
/// route is set free early, and none is held longer.
pub proof fn law_pruning_drops_what_has_ended(
    s: Seq<(Seq<char>, TimestampMs)>,
    now: TimestampMs,
    ban: (Seq<char>, TimestampMs),
)
    ensures
        bans_after(s, now as int).contains(ban) <==> s.contains(ban) && now < ban.1,
{
    let runs = |b: (Seq<char>, TimestampMs)| b.1 > now as int;
    lemma_bans_filter(s, now as int);
    lemma_filter_holds(s, runs, ban);
}

proof fn lemma_filter_holds(
    s: Seq<(Seq<char>, TimestampMs)>,
    keeps: spec_fn((Seq<char>, TimestampMs)) -> bool,
    ban: (Seq<char>, TimestampMs),
)
    ensures
        s.filter(keeps).contains(ban) <==> s.contains(ban) && keeps(ban),
{
    if s.filter(keeps).contains(ban) {
        s.lemma_filter_contains_rev(keeps, ban);
        let i = choose|i: int| 0 <= i < s.filter(keeps).len() && s.filter(keeps)[i] == ban;
        s.lemma_filter_pred(keeps, i);
    }
    if s.contains(ban) && keeps(ban) {
        let i = choose|i: int| 0 <= i < s.len() && s[i] == ban;
        s.lemma_filter_contains(keeps, i);
    }
}

/// Banning one route leaves the bans of all others as they are, but for those
/// that ended two cooldowns before the new one will.
pub proof fn law_bans_are_separate(
    d: RouteDeciderView,
    id: Seq<char>,
    until: TimestampMs,
    other: Seq<char>,
    end: TimestampMs,
)
    requires
        other != id,
    ensures
        d.with_cooldown(id, until).state.cooldowns.contains((id, until)),
        d.with_cooldown(id, until).state.cooldowns.contains((other, end)) ==> d.state.cooldowns.contains(
            (other, end),
        ),
        d.state.cooldowns.contains((other, end)) && end > until - 2 * d.cfg.route_cooldown_ms && end
            > 0 ==> d.with_cooldown(id, until).state.cooldowns.contains((other, end)),
{
    let from = if until >= d.cfg.route_cooldown_ms * 2 {
        until - d.cfg.route_cooldown_ms * 2
    } else {
        0
    };
    let s = d.state.cooldowns;
    let kept = bans_after(s, from);
    lemma_bans_filter(s, from);
    lemma_filter_holds(s, |b: (Seq<char>, TimestampMs)| b.1 > from, (other, end));
    lemma_first_index(kept, names(id));
    lemma_with_ban_bans(kept, id, until);
    let at = ban_of(kept, id);
    let after = with_ban(kept, id, until);
    if after.contains((other, end)) {
        let i = choose|i: int| 0 <= i < after.len() && after[i] == (other, end);
        assert(kept[i] == (other, end));
    }
    if kept.contains((other, end)) {
        let i = choose|i: int| 0 <= i < kept.len() && kept[i] == (other, end);
        assert(after[i] == (other, end));
    }
}

/// A candidate that is bad in two respects is not taken for being faster: it
/// would be left again at once.
pub proof fn law_falling_candidate_is_not_taken(
    d: RouteDeciderView,
    candidate: RouteCandidateView,
    now: TimestampMs,
)
    requires
        ({
            let loss = !candidate.packet_loss_ratio.is_nan()
                && candidate.packet_loss_ratio.position() >= BAD_LOSS;
            let jitter = !candidate.jitter_ms.is_nan() && candidate.jitter_ms.position()
                >= BAD_JITTER_MS;
            let latency = !candidate.latency_ms.is_nan() && candidate.latency_ms.position()
                >= BAD_LATENCY_MS;
            ||| loss && jitter
            ||| loss && latency
            ||| latency && jitter
        }),
        d.state.current_metrics.latency_ms.position() < BAD_LATENCY_MS,
        d.state.current_metrics.jitter_ms.position() < BAD_JITTER_MS,
        d.state.current_metrics.packet_loss_ratio.position() < BAD_LOSS,
        d.cfg.minimum_jitter_improvement_ms.position() > 0,
        d.cfg.minimum_loss_improvement.position() > 0,
    ensures
        !(d.verdict(candidate, now) is Switch),
        d.evaluated(candidate, now).state.current_route_id == d.state.current_route_id,
{
    let current = d.state.current_metrics;
    if steadier(current, candidate.metrics(), d.cfg) {
        law_positive_difference_is_a_gain(current.jitter_ms, candidate.jitter_ms);
        law_positive_difference_is_a_gain(
            current.packet_loss_ratio,
            candidate.packet_loss_ratio,
        );
    }
}

/// A switch takes over the candidate with what was measured of it, and starts
/// with no degradation. Without a switch the route, its measurements and the
/// bans stay.
pub proof fn law_switch_takes_over(
    d: RouteDeciderView,
    candidate: RouteCandidateView,
    now: TimestampMs,
)
    ensures
        ({
            let after = d.evaluated(candidate, now).state;
            if d.verdict(candidate, now) is Switch {
                &&& after.current_route_id == candidate.id
                &&& after.current_metrics.latency_ms == candidate.latency_ms
                &&& after.current_metrics.jitter_ms == candidate.jitter_ms
                &&& after.current_metrics.packet_loss_ratio == candidate.packet_loss_ratio
                &&& after.current_metrics.handshake_latency_ms == candidate.handshake_latency_ms
                &&& after.degradation_since is None
            } else {
                &&& after.current_route_id == d.state.current_route_id
                &&& after.current_metrics == d.state.current_metrics
                &&& after.cooldowns == d.state.cooldowns
            }
        }),
        d.evaluated(candidate, now).cfg == d.cfg,
        d.verdict(candidate, now) is Switch ==> d.verdict(candidate, now)->Switch_candidate_id
            == candidate.id,
        d.verdict(candidate, now) is NotYet ==> d.verdict(candidate, now)->NotYet_candidate_id
            == candidate.id,
{
}

/// A route is left as degraded only where it is bad in some respect, and has
/// been for as long as it is given.
pub proof fn law_only_degraded_routes_are_left_as_such(
    d: RouteDeciderView,
    candidate: RouteCandidateView,
    now: TimestampMs,
)
    requires
        d.verdict(candidate, now) == (RouteVerdictView::Switch {
            candidate_id: candidate.id,
            reason: SwitchReason::CurrentRouteDegraded,
        }),
    ensures
        ({
            let m = d.state.current_metrics;
            ||| m.latency_ms.position() >= BAD_LATENCY_MS
            ||| m.jitter_ms.position() >= BAD_JITTER_MS
            ||| m.packet_loss_ratio.position() >= BAD_LOSS
        }),
        d.cfg.minimum_degradation_duration_ms > 0 ==> d.state.degradation_since is Some && now
            - d.state.degradation_since->Some_0 >= d.cfg.minimum_degradation_duration_ms,
{
}

} // verus!
