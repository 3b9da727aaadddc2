//! The engine that ties measurements to routing decisions.
//!
//! It owns the edges, the decider, the breakers, the fallback chain, health
//! tracking, probing, restriction detection, the session, telemetry and the
//! event log, and works on measurements handed to it: it opens no socket.
use std::collections::VecDeque;
use vstd::prelude::*;

use crate::circuit::{CircuitBreaker, CircuitBreakerView, CircuitConfig, CircuitState};
use crate::detect::{counted, tally, RestrictionModel, Symptom};
use crate::edges::{
    stats_at, EdgeProbeWeights, EdgeRegistry, EdgeRegistryView, EdgeStatsView,
};
use crate::events::{default_severity, severity_of, Event, EventKind, EventView, Severity};
use crate::fallback::{FailureSignal, FallbackEngine, FallbackView};
use crate::health::{
    default_health_weights, elapsed, health_input, health_of, health_score, level_of, monitor_level,
    HealthInput, HealthTracker, HealthWeights, NetworkHealthGrade,
};
use crate::hysteresis::{
    HysteresisConfig, HysteresisStateView, RouteDecider, RouteDeciderView, RouteVerdict,
    RouteVerdictView, SwitchReason,
};
use crate::identifier::{is_drawn, is_uuid};
use crate::metrics::rolled;
use crate::model::{
    fallback_list, DataPlanePolicy, EdgeInfo, EdgeInfoView, MeasuredSource, MetricsSnapshot,
    NetworkType, RouteCandidate, RouteCandidateView, TransportKind, VpnState,
};
use crate::probe::{ProbeScheduler, ProbeSchedulerView};
use crate::ranking::{rank, ranked};
use crate::reading::{Reading, SIGN, ZERO};
use crate::scoring::{
    base_of_loss, loss_base, loss_in_scale, loss_scale, score_all, with_scores, ScoreWeights,
};
use crate::search::{first_index, lemma_first_index, lemma_first_index_is};
use crate::session::{Session, SessionView};
use crate::state::{default_state_config, StateConfig, TransportHealth, TransportStateMachine};
use crate::telemetry::{
    report_of, DiagnosticBuilder, DiagnosticReport, ReportCounts, TelemetryBuffer, TelemetrySample,
    TelemetrySampleView, TelemetryView,
};
use crate::text::{before_last, ends_with, has_suffix, head_before_last, same};
use crate::views::{group_views, view_of, views};
use crate::{Error, ErrorView, TimestampMs};

verus! {

broadcast use group_views;

/// How many events the log holds.
pub const EVENT_LOG: usize = 512;

/// Within how many milliseconds a spike of the same kind is not repeated.
pub const SPIKE_QUIET_MS: u64 = 500;

/// How long a better health grade has to last.
pub const UPGRADE_SUSTAIN_MS: u64 = 3_000;

/// How many telemetry samples are kept.
pub const TELEMETRY_SAMPLES: usize = 600;

/// 0.05
pub const LOSS_SPIKE: u64 = 0x3fa9_9999_9999_999a;

/// 30.0 ms
pub const JITTER_SPIKE_MS: u64 = 0x403e_0000_0000_0000;

/// 250.0 ms
pub const LATENCY_SPIKE_MS: u64 = 0x406f_4000_0000_0000;

#[derive(Debug)]
pub struct EngineConfig {
    pub score_weights: ScoreWeights,
    pub edge_probe_weights: EdgeProbeWeights,
    pub hysteresis: HysteresisConfig,
    pub circuit: CircuitConfig,
    /// The chain that fallback starts from.
    pub fallback_order: Vec<TransportKind>,
    /// The transports that can be spoken.
    pub supported_transports: Vec<TransportKind>,
    pub data_plane_policy: DataPlanePolicy,
    /// From where on an event reports a spike.
    pub loss_spike_threshold: Reading,
    pub jitter_spike_threshold_ms: Reading,
    pub latency_spike_threshold_ms: Reading,
}

#[verifier::ext_equal]
pub struct EngineConfigView {
    pub score_weights: ScoreWeights,
    pub edge_probe_weights: EdgeProbeWeights,
    pub hysteresis: HysteresisConfig,
    pub circuit: CircuitConfig,
    pub fallback_order: Seq<TransportKind>,
    pub supported_transports: Seq<TransportKind>,
    pub data_plane_policy: DataPlanePolicy,
    pub loss_spike_threshold: Reading,
    pub jitter_spike_threshold_ms: Reading,
    pub latency_spike_threshold_ms: Reading,
}

impl View for EngineConfig {
    type V = EngineConfigView;

    open spec fn view(&self) -> EngineConfigView {
        EngineConfigView {
            score_weights: self.score_weights,
            edge_probe_weights: self.edge_probe_weights,
            hysteresis: self.hysteresis,
            circuit: self.circuit,
            fallback_order: self.fallback_order@,
            supported_transports: self.supported_transports@,
            data_plane_policy: self.data_plane_policy,
            loss_spike_threshold: self.loss_spike_threshold,
            jitter_spike_threshold_ms: self.jitter_spike_threshold_ms,
            latency_spike_threshold_ms: self.latency_spike_threshold_ms,
        }
    }
}

pub open spec fn default_engine_config() -> EngineConfigView {
    EngineConfigView {
        score_weights: crate::scoring::default_score_weights(),
        edge_probe_weights: crate::edges::default_edge_weights(),
        hysteresis: crate::hysteresis::default_hysteresis(),
        circuit: CircuitConfig {
            failure_threshold: 3,
            open_cooldown_ms: 5_000,
            half_open_required_successes: 2,
        },
        fallback_order: crate::model::fallback_order(),
        supported_transports: crate::model::fallback_order(),
        data_plane_policy: DataPlanePolicy::AllowDirectFallback,
        loss_spike_threshold: Reading { bits: LOSS_SPIKE },
        jitter_spike_threshold_ms: Reading { bits: JITTER_SPIKE_MS },
        latency_spike_threshold_ms: Reading { bits: LATENCY_SPIKE_MS },
    }
}

impl Default for EngineConfig {
    fn default() -> (r: Self)
        ensures
            r@ == default_engine_config(),
    {
        EngineConfig {
            score_weights: ScoreWeights::default(),
            edge_probe_weights: EdgeProbeWeights::default(),
            hysteresis: HysteresisConfig::default(),
            circuit: CircuitConfig::default(),
            fallback_order: fallback_list(),
            supported_transports: fallback_list(),
            data_plane_policy: DataPlanePolicy::AllowDirectFallback,
            loss_spike_threshold: Reading { bits: LOSS_SPIKE },
            jitter_spike_threshold_ms: Reading { bits: JITTER_SPIKE_MS },
            latency_spike_threshold_ms: Reading { bits: LATENCY_SPIKE_MS },
        }
    }
}

#[derive(Clone, Copy, Debug, PartialEq, Eq, Structural)]
pub struct EngineCounters {
    pub route_changes: u64,
    pub transport_fallbacks: u64,
    pub circuit_trips: u64,
    pub reconnects: u64,
    pub handshake_failures: u64,
    pub dns_failures: u64,
}

impl EngineCounters {
    pub open spec fn zero() -> EngineCounters {
        EngineCounters {
            route_changes: 0,
            transport_fallbacks: 0,
            circuit_trips: 0,
            reconnects: 0,
            handshake_failures: 0,
            dns_failures: 0,
        }
    }
}

impl Default for EngineCounters {
    fn default() -> (r: Self)
        ensures
            r == EngineCounters::zero(),
    {
        EngineCounters {
            route_changes: 0,
            transport_fallbacks: 0,
            circuit_trips: 0,
            reconnects: 0,
            handshake_failures: 0,
            dns_failures: 0,
        }
    }
}

/// One measured probe of an edge.
#[derive(Debug)]
pub struct EdgeObservation {
    pub edge_id: String,
    pub latency_ms: Reading,
    pub jitter_ms: Reading,
    pub lost: bool,
    /// How long the handshake took, where there was one.
    pub handshake_ms: Option<Reading>,
}

/// 1.6: the power of the loss that counts in the score of a route.
pub const ROUTE_LOSS_EXPONENT: u64 = 0x3ff9_9999_9999_999a;

/// 2.0: the power of the loss that counts in the health of the network.
pub const HEALTH_LOSS_EXPONENT: u64 = 0x4000_0000_0000_0000;

/// Whether `power` may have answered so for the base and the exponent.
pub open spec fn raised<P: Fn(Reading, Reading) -> Reading>(
    power: P,
    base: Reading,
    exponent: u64,
    answer: Reading,
) -> bool {
    call_ensures(power, (base, Reading { bits: exponent }), answer)
}

/// Whether `power` may have answered so for the losses of the routes.
pub open spec fn raised_all<P: Fn(Reading, Reading) -> Reading>(
    power: P,
    routes: Seq<RouteCandidateView>,
    answers: Seq<Reading>,
) -> bool {
    answers.len() == routes.len() && forall|i: int|
        0 <= i < routes.len() ==> raised(
            power,
            loss_in_scale(routes[i].packet_loss_ratio),
            ROUTE_LOSS_EXPONENT,
            #[trigger] answers[i],
        )
}

/// Whether the ids of a session were drawn wherever they are owed anew, given
/// the session before and whether there was a route: both with the first route,
/// the connection's at every migration, and any that differs from before.
#[verifier::opaque]
pub open spec fn ids_drawn(
    before: Option<SessionView>,
    had_route: bool,
    after: Option<SessionView>,
    has_route: bool,
) -> bool {
    after is Some ==> {
        let (earlier, later) = (before->Some_0, after->Some_0);
        let begins = before is None || (!had_route && has_route);
        let migrates = begins || later.migration_count != earlier.migration_count;
        &&& begins || later.session_id != earlier.session_id ==> is_uuid(later.session_id) && is_drawn(
            later.session_id,
        )
        &&& migrates || later.connection_id != earlier.connection_id ==> is_uuid(later.connection_id)
            && is_drawn(later.connection_id)
    }
}

/// A session that stays as it was owes no new ids.
proof fn lemma_no_ids_owed(session: Option<SessionView>, has_route: bool)
    ensures
        ids_drawn(session, has_route, session, has_route),
{
    reveal(ids_drawn);
}

#[derive(Debug)]
pub struct RouteEngine {
    pub cfg: EngineConfig,
    pub registry: EdgeRegistry,
    pub decider: RouteDecider,
    pub fallback: FallbackEngine,
    /// One state machine per supported transport.
    pub transport_states: Vec<TransportStateMachine>,
    /// One breaker per route that was offered, by its key.
    pub breakers: Vec<CircuitBreaker>,
    pub health: HealthTracker,
    pub probe: ProbeScheduler,
    pub telemetry: TelemetryBuffer,
    pub restrictions: RestrictionModel,
    pub session: Option<Session>,
    pub current: Option<RouteCandidate>,
    pub network_type: NetworkType,
    pub vpn_state: VpnState,
    pub events: VecDeque<Event>,
    pub counters: EngineCounters,
}

#[verifier::ext_equal]
pub struct EngineView {
    pub cfg: EngineConfigView,
    pub registry: EdgeRegistryView,
    pub decider: RouteDeciderView,
    pub fallback: FallbackView,
    pub transport_states: Seq<TransportStateMachine>,
    pub breakers: Seq<CircuitBreakerView>,
    pub health: HealthTracker,
    pub probe: ProbeSchedulerView,
    pub telemetry: TelemetryView,
    pub restrictions: Seq<(Symptom, u32)>,
    pub session: Option<SessionView>,
    pub current: Option<RouteCandidateView>,
    pub network_type: NetworkType,
    pub vpn_state: VpnState,
    pub events: Seq<EventView>,
    pub counters: EngineCounters,
}

impl View for RouteEngine {
    type V = EngineView;

    open spec fn view(&self) -> EngineView {
        EngineView {
            cfg: self.cfg@,
            registry: self.registry@,
            decider: self.decider@,
            fallback: self.fallback@,
            transport_states: self.transport_states@,
            breakers: views(self.breakers@),
            health: self.health,
            probe: self.probe@,
            telemetry: self.telemetry@,
            restrictions: self.restrictions@,
            session: view_of(self.session),
            current: view_of(self.current),
            network_type: self.network_type,
            vpn_state: self.vpn_state,
            events: views(self.events@),
            counters: self.counters,
        }
    }
}

/// The edge of a route: what comes before the last dash of the route's id.
/// Edge ids may hold dashes, transport names do not.
pub open spec fn edge_part(route_id: Seq<char>) -> Seq<char> {
    match before_last(route_id, '-') {
        Some(edge) => edge,
        None => route_id,
    }
}

pub fn route_edge_id(candidate_id: &str) -> (r: String)
    ensures
        r@ == edge_part(candidate_id@),
{
    match head_before_last(candidate_id, '-') {
        Some(edge) => edge,
        None => candidate_id.to_owned(),
    }
}

/// The state machines of the transports, without repetition.
pub open spec fn machines_for(kinds: Seq<TransportKind>) -> Seq<TransportStateMachine>
    decreases kinds.len(),
{
    if kinds.len() == 0 {
        seq![]
    } else {
        let rest = machines_for(kinds.drop_last());
        if machine_at(rest, kinds.last()) < rest.len() {
            rest
        } else {
            rest.push(TransportStateMachine::fresh(kinds.last(), default_state_config()))
        }
    }
}

pub open spec fn runs(kind: TransportKind) -> spec_fn(TransportStateMachine) -> bool {
    |m: TransportStateMachine| m.transport == kind
}

/// The place of the machine of the transport, or the number of machines.
pub open spec fn machine_at(machines: Seq<TransportStateMachine>, kind: TransportKind) -> int {
    first_index(machines, runs(kind))
}

/// The key of the breaker of a route.
pub open spec fn breaker_key(route: RouteCandidateView) -> Seq<char> {
    route.id + ":"@ + route.transport.name()
}

pub open spec fn keyed(key: Seq<char>) -> spec_fn(CircuitBreakerView) -> bool {
    |b: CircuitBreakerView| b.key == key
}

/// The place of the breaker of the key, or the number of breakers.
pub open spec fn breaker_at(breakers: Seq<CircuitBreakerView>, key: Seq<char>) -> int {
    first_index(breakers, keyed(key))
}

/// The breakers with one for the route.
pub open spec fn with_breaker(
    breakers: Seq<CircuitBreakerView>,
    route: RouteCandidateView,
    cfg: CircuitConfig,
) -> Seq<CircuitBreakerView> {
    if breaker_at(breakers, breaker_key(route)) < breakers.len() {
        breakers
    } else {
        breakers.push(CircuitBreakerView::fresh(breaker_key(route), cfg))
    }
}

/// Whether the route may be offered at `now`.
pub open spec fn may_pass(
    breakers: Seq<CircuitBreakerView>,
    route: RouteCandidateView,
    now: TimestampMs,
) -> bool {
    let at = breaker_at(breakers, breaker_key(route));
    at >= breakers.len() || breakers[at].allows(now)
}

/// The breakers once the route has been asked for.
pub open spec fn asked(
    breakers: Seq<CircuitBreakerView>,
    route: RouteCandidateView,
    cfg: CircuitConfig,
    now: TimestampMs,
) -> Seq<CircuitBreakerView> {
    let all = with_breaker(breakers, route, cfg);
    let at = breaker_at(breakers, breaker_key(route));
    all.update(at, all[at].after_asking(now))
}

/// The breakers once all routes have been asked for, in order.
pub open spec fn asked_all(
    breakers: Seq<CircuitBreakerView>,
    routes: Seq<RouteCandidateView>,
    cfg: CircuitConfig,
    now: TimestampMs,
) -> Seq<CircuitBreakerView>
    decreases routes.len(),
{
    if routes.len() == 0 {
        breakers
    } else {
        asked(asked_all(breakers, routes.drop_last(), cfg, now), routes.last(), cfg, now)
    }
}

/// Which of the routes may be offered, as places in the list.
pub open spec fn passing(
    breakers: Seq<CircuitBreakerView>,
    routes: Seq<RouteCandidateView>,
    cfg: CircuitConfig,
    now: TimestampMs,
) -> Seq<int>
    decreases routes.len(),
{
    if routes.len() == 0 {
        seq![]
    } else {
        let rest = passing(breakers, routes.drop_last(), cfg, now);
        if may_pass(asked_all(breakers, routes.drop_last(), cfg, now), routes.last(), now) {
            rest.push(routes.len() - 1)
        } else {
            rest
        }
    }
}

/// The score of a route, zero where it has none.
pub open spec fn score_of(route: RouteCandidateView) -> Reading {
    match route.score {
        Some(s) => s,
        None => Reading { bits: ZERO },
    }
}

/// The routes as entries of a ranking.
pub open spec fn entries(routes: Seq<RouteCandidateView>) -> Seq<(usize, Reading)> {
    Seq::new(routes.len(), |i: int| (i as usize, score_of(routes[i])))
}

/// The place of the route that comes first by score.
pub open spec fn best_at(routes: Seq<RouteCandidateView>) -> int {
    ranked(entries(routes))[0].0 as int
}

pub open spec fn has_id(id: Seq<char>) -> spec_fn(RouteCandidateView) -> bool {
    |c: RouteCandidateView| c.id == id
}

/// The breakers after a failure of the transport: those of its routes count it.
pub open spec fn failed_breakers(
    breakers: Seq<CircuitBreakerView>,
    suffix: Seq<char>,
    now: TimestampMs,
) -> Seq<CircuitBreakerView> {
    Seq::new(
        breakers.len(),
        |i: int|
            if has_suffix(breakers[i].key, suffix) {
                breakers[i].after_failure(now)
            } else {
                breakers[i]
            },
    )
}

/// How many of the first `n` breakers are the transport's and open by a
/// failure.
pub open spec fn opened_by(breakers: Seq<CircuitBreakerView>, suffix: Seq<char>, n: int) -> nat
    decreases n,
{
    if n <= 0 {
        0
    } else if has_suffix(breakers[n - 1].key, suffix) && breakers[n - 1].trips() {
        opened_by(breakers, suffix, n - 1) + 1
    } else {
        opened_by(breakers, suffix, n - 1)
    }
}

/// Whether a breaker of the transport is open.
pub open spec fn any_open(breakers: Seq<CircuitBreakerView>, suffix: Seq<char>) -> bool {
    exists|i: int|
        0 <= i < breakers.len() && has_suffix((#[trigger] breakers[i]).key, suffix)
            && breakers[i].state is Open
}

/// What the fallback chain is told of a failure: that the transport has
/// failed, or that a breaker of its routes is open. While the transport counts
/// as healthy nothing is said: no single failure moves the chain.
pub open spec fn failure_signal(
    machine: TransportStateMachine,
    breakers: Seq<CircuitBreakerView>,
) -> Option<FailureSignal> {
    if machine.state == TransportHealth::Failed {
        Some(FailureSignal::StateFailed)
    } else if machine.state != TransportHealth::Healthy && any_open(
        breakers,
        suffix_of(machine.transport),
    ) {
        Some(FailureSignal::CircuitOpen)
    } else {
        None
    }
}

/// The breakers after a success of the transport.
pub open spec fn succeeded_breakers(
    breakers: Seq<CircuitBreakerView>,
    suffix: Seq<char>,
) -> Seq<CircuitBreakerView> {
    Seq::new(
        breakers.len(),
        |i: int|
            if has_suffix(breakers[i].key, suffix) {
                breakers[i].after_success()
            } else {
                breakers[i]
            },
    )
}

/// How many of the first `n` breakers are the transport's and closed after a
/// success.
pub open spec fn closed_after(
    breakers: Seq<CircuitBreakerView>,
    suffix: Seq<char>,
    n: int,
) -> nat
    decreases n,
{
    if n <= 0 {
        0
    } else if has_suffix(breakers[n - 1].key, suffix) && breakers[n - 1].after_success().state
        == CircuitState::Closed {
        closed_after(breakers, suffix, n - 1) + 1
    } else {
        closed_after(breakers, suffix, n - 1)
    }
}

pub open spec fn suffix_of(transport: TransportKind) -> Seq<char> {
    ":"@ + transport.name()
}

impl EngineView {
    pub open spec fn fresh(cfg: EngineConfigView) -> EngineView {
        EngineView {
            cfg,
            registry: EdgeRegistryView { edges: seq![], stats: seq![] },
            decider: RouteDeciderView::fresh(crate::hysteresis::default_hysteresis()),
            fallback: FallbackView::fresh(cfg.fallback_order),
            transport_states: machines_for(cfg.supported_transports),
            breakers: seq![],
            health: HealthTracker::fresh(),
            probe: ProbeSchedulerView::fresh(),
            telemetry: TelemetryView::fresh(TELEMETRY_SAMPLES as nat),
            restrictions: seq![],
            session: None,
            current: None,
            network_type: NetworkType::Unknown,
            vpn_state: VpnState::Disconnected,
            events: seq![],
            counters: EngineCounters::zero(),
        }
    }

    /// The engine once the event is logged.
    pub open spec fn with_event(self, event: EventView) -> EngineView {
        EngineView {
            telemetry: self.telemetry.with_event(event),
            events: rolled(self.events, EVENT_LOG as nat, event),
            ..self
        }
    }

    pub open spec fn emitted(
        self,
        kind: EventKind,
        now: TimestampMs,
        severity: Severity,
        reason: Seq<char>,
    ) -> EngineView {
        self.with_event(EventView { severity, reason, ..EventView::bare(kind, now) })
    }

    pub open spec fn current_metrics(self) -> Option<MetricsSnapshot> {
        match self.current {
            Some(c) => Some(c.metrics()),
            None => None,
        }
    }

    /// Whether an event of the kind has just been reported.
    pub open spec fn just_reported(self, kind: EventKind, now: TimestampMs) -> bool {
        exists|i: int|
            0 <= i < self.events.len() && (#[trigger] self.events[i]).kind == kind && elapsed(
                now,
                self.events[i].timestamp,
            ) < SPIKE_QUIET_MS
    }

    pub open spec fn with_spike(
        self,
        kind: EventKind,
        now: TimestampMs,
        reason: Seq<char>,
    ) -> EngineView {
        if self.just_reported(kind, now) {
            self
        } else {
            self.with_event(
                EventView {
                    severity: severity_of(kind),
                    reason,
                    metrics: self.current_metrics(),
                    ..EventView::bare(kind, now)
                },
            )
        }
    }

    /// The statistics of the observed edge after the observation.
    pub open spec fn probed_stats(self, obs: EdgeObservation, now: TimestampMs) -> EdgeStatsView {
        let before = self.registry.stats[stats_at(self.registry.stats, obs.edge_id@)];
        let probed = EdgeStatsView {
            last_probed_at: Some(now),
            ..before.observed(obs.latency_ms, obs.jitter_ms, obs.lost)
        };
        match obs.handshake_ms {
            Some(ms) => probed.with_handshake(ms),
            None => probed,
        }
    }

    /// The engine once the observation is in the statistics of its edge.
    pub open spec fn probed(self, obs: EdgeObservation, now: TimestampMs) -> EngineView {
        EngineView {
            registry: EdgeRegistryView {
                stats: self.registry.stats.update(
                    stats_at(self.registry.stats, obs.edge_id@),
                    self.probed_stats(obs, now),
                ),
                ..self.registry
            },
            ..self
        }
    }

    /// The engine once the spikes of the observation are reported.
    pub open spec fn spikes_reported(
        self,
        obs: EdgeObservation,
        loss: Reading,
        now: TimestampMs,
    ) -> EngineView {
        let a = if obs.lost {
            self.with_spike(EventKind::PacketLossSpike, now, "loss spike"@)
        } else {
            self
        };
        let b = if self.cfg.loss_spike_threshold.bits < SIGN && loss.at_least(
            self.cfg.loss_spike_threshold,
        ) {
            a.with_spike(EventKind::PacketLossSpike, now, "sustained loss above threshold"@)
        } else {
            a
        };
        let c = if obs.jitter_ms.at_least(self.cfg.jitter_spike_threshold_ms) {
            b.with_spike(EventKind::JitterSpike, now, "jitter spike"@)
        } else {
            b
        };
        if obs.latency_ms.at_least(self.cfg.latency_spike_threshold_ms) {
            c.with_spike(EventKind::LatencySpike, now, "latency spike"@)
        } else {
            c
        }
    }

    /// The routes over the known edges.
    pub open spec fn routes(self) -> Seq<RouteCandidateView> {
        self.registry.all_routes(self.cfg.supported_transports, MeasuredSource::Real)
    }

    /// All routes with their scores.
    pub open spec fn scored_routes(self, loss_powers: Seq<Reading>) -> Seq<RouteCandidateView> {
        with_scores(
            self.cfg.score_weights,
            self.routes(),
            loss_powers,
            self.routes().len() as int,
        )
    }

    /// The routes that the breakers let pass.
    pub open spec fn offered(self, loss_powers: Seq<Reading>, now: TimestampMs) -> Seq<
        RouteCandidateView,
    > {
        let routes = self.scored_routes(loss_powers);
        let places = passing(self.breakers, routes, self.cfg.circuit, now);
        Seq::new(places.len(), |i: int| routes[places[i]])
    }

    /// The engine once the breakers of all routes have been asked.
    pub open spec fn breakers_asked(self, loss_powers: Seq<Reading>, now: TimestampMs) -> EngineView {
        EngineView {
            breakers: asked_all(
                self.breakers,
                self.scored_routes(loss_powers),
                self.cfg.circuit,
                now,
            ),
            ..self
        }
    }

    pub open spec fn changes_transport(self, route: RouteCandidateView) -> bool {
        match self.current {
            Some(c) => c.transport != route.transport,
            None => true,
        }
    }

    pub open spec fn changes_edge(self, edge_id: Seq<char>) -> bool {
        match self.current {
            Some(c) => edge_part(c.id) != edge_id,
            None => true,
        }
    }

    /// The session once the route is in use.
    pub open spec fn session_on(
        self,
        edge_id: Seq<char>,
        route: RouteCandidateView,
        now: TimestampMs,
        ids: (Seq<char>, Seq<char>),
    ) -> Option<SessionView> {
        if self.current is None {
            Some(SessionView::begun(ids.0, ids.1, route.transport, Some(edge_id), now))
        } else {
            match self.session {
                Some(s) => if self.changes_transport(route) || self.changes_edge(edge_id) {
                    Some(s.migrated(ids.1, route.transport, Some(edge_id), now))
                } else {
                    Some(SessionView { last_healthy_time: now, ..s })
                },
                None => None,
            }
        }
    }

    /// The engine once the route is in use; `ids` are the ids drawn for the
    /// session and for its connection.
    pub open spec fn selected(
        self,
        edge_id: Seq<char>,
        route: RouteCandidateView,
        now: TimestampMs,
        ids: (Seq<char>, Seq<char>),
    ) -> EngineView {
        let first = self.current is None;
        let moved = EngineView {
            current: Some(route),
            session: self.session_on(edge_id, route, now, ids),
            ..self
        };
        if first {
            moved.emitted(
                EventKind::EdgeSelected,
                now,
                Severity::Info,
                "initial best-path selection"@,
            )
        } else {
            let a = if self.changes_transport(route) {
                EngineView {
                    counters: EngineCounters {
                        route_changes: if self.session is Some {
                            (self.counters.route_changes + 1) as u64
                        } else {
                            self.counters.route_changes
                        },
                        transport_fallbacks: (self.counters.transport_fallbacks + 1) as u64,
                        ..self.counters
                    },
                    ..moved
                }.emitted(
                    EventKind::TransportChanged,
                    now,
                    Severity::Info,
                    "transport switched by score"@,
                )
            } else {
                moved
            };
            if self.changes_edge(edge_id) {
                a.emitted(EventKind::EdgeSelected, now, Severity::Info, "edge changed"@)
            } else {
                a
            }
        }
    }

    /// The events of a switch.
    pub open spec fn switch_reported(self, reason: SwitchReason, now: TimestampMs) -> EngineView {
        match reason {
            SwitchReason::SustainedImprovement => self.emitted(
                EventKind::RouteChanged,
                now,
                Severity::Info,
                "sustained improvement"@,
            ),
            SwitchReason::CurrentRouteDegraded => self.emitted(
                EventKind::EdgeDegraded,
                now,
                Severity::Warning,
                "current route degraded"@,
            ).emitted(
                EventKind::RouteChanged,
                now,
                Severity::Info,
                "degradation-triggered switch"@,
            ),
        }
    }

    /// The engine once it has chosen among the offered routes: the best one at
    /// once where there is none in use, else by the decider's verdict. A route
    /// that is left stays banned until its cooldown is over.
    #[verifier::opaque]
    pub open spec fn chosen(
        self,
        routes: Seq<RouteCandidateView>,
        now: TimestampMs,
        ids: (Seq<char>, Seq<char>),
    ) -> EngineView {
        if routes.len() == 0 {
            self
        } else {
            let best = routes[best_at(routes)];
            if self.current is None {
                self.selected(edge_part(best.id), best, now, ids)
            } else {
                let decided = EngineView {
                    decider: self.decider.evaluated(best, now),
                    ..self
                };
                match self.decider.verdict(best, now) {
                    RouteVerdictView::Switch { candidate_id, reason } => {
                        let target = routes[first_index(routes, has_id(candidate_id))];
                        let left = self.current->Some_0.id;
                        EngineView {
                            decider: if left == candidate_id {
                                decided.decider
                            } else {
                                decided.decider.with_cooldown(
                                    left,
                                    (now + self.cfg.hysteresis.route_cooldown_ms) as u64,
                                )
                            },
                            ..decided
                        }.selected(edge_part(best.id), target, now, ids).switch_reported(
                            reason,
                            now,
                        )
                    },
                    _ => decided,
                }
            }
        }
    }

    /// Whether the route in use runs over the edge.
    pub open spec fn uses_edge(self, edge_id: Seq<char>) -> bool {
        match self.current {
            Some(c) => edge_part(c.id) == edge_id,
            None => false,
        }
    }

    /// The engine once an observation of the edge in use has gone into health,
    /// probing and telemetry.
    pub open spec fn health_tracked(
        self,
        edge_id: Seq<char>,
        health_power: Reading,
        now: TimestampMs,
    ) -> EngineView {
        if self.uses_edge(edge_id) {
            let current = self.current->Some_0;
            let m = self.registry.stats[stats_at(self.registry.stats, edge_id)].metrics();
            let health = self.health.observed(
                health_of(health_input(m), default_health_weights(), health_power),
                now,
                UPGRADE_SUSTAIN_MS,
            );
            EngineView {
                decider: RouteDeciderView {
                    state: HysteresisStateView { current_metrics: m, ..self.decider.state },
                    ..self.decider
                },
                health,
                probe: self.probe.adapted(level_of(health.grade)),
                telemetry: self.telemetry.with_sample(
                    TelemetrySampleView {
                        at: now,
                        network: self.network_type,
                        route: Some(current.id),
                        transport: Some(current.transport),
                        latency_ms: m.latency_ms,
                        jitter_ms: m.jitter_ms,
                        packet_loss_ratio: m.packet_loss_ratio,
                        source: MeasuredSource::Real,
                    },
                ),
                ..self
            }
        } else {
            self
        }
    }

    /// The engine once an observation is measured: statistics and spikes.
    pub open spec fn measured(self, obs: EdgeObservation, now: TimestampMs) -> EngineView {
        self.probed(obs, now).spikes_reported(
            obs,
            self.probed_stats(obs, now).packet_loss_ratio,
            now,
        )
    }

    /// The engine once it has adapted to an observation: it asks the breakers,
    /// chooses a route and follows the health of the edge in use.
    pub open spec fn adapted(
        self,
        edge_id: Seq<char>,
        loss_powers: Seq<Reading>,
        health_power: Reading,
        now: TimestampMs,
        ids: (Seq<char>, Seq<char>),
    ) -> EngineView {
        self.breakers_asked(loss_powers, now).chosen(
            self.offered(loss_powers, now),
            now,
            ids,
        ).health_tracked(edge_id, health_power, now)
    }

    /// The engine after an observation of an edge that it knows.
    pub open spec fn observed(
        self,
        obs: EdgeObservation,
        loss_powers: Seq<Reading>,
        health_power: Reading,
        now: TimestampMs,
        ids: (Seq<char>, Seq<char>),
    ) -> EngineView {
        self.measured(obs, now).adapted(obs.edge_id@, loss_powers, health_power, now, ids)
    }

    /// The last sample of the telemetry.
    pub open spec fn latest_sample(self) -> Option<TelemetrySampleView> {
        if self.telemetry.samples.len() > 0 {
            Some(self.telemetry.samples.last())
        } else {
            None
        }
    }

    /// Whether what a report is made of is real.
    pub open spec fn reports_real(self) -> bool {
        crate::telemetry::all_real(MeasuredSource::Real, self.latest_sample(), self.current)
    }

    /// Whether the edge is known.
    pub open spec fn knows(self, edge_id: Seq<char>) -> bool {
        stats_at(self.registry.stats, edge_id) < self.registry.stats.len()
    }

    /// Whether another probe of the edge can be counted.
    pub open spec fn counts_probe_of(self, edge_id: Seq<char>) -> bool {
        self.knows(edge_id) ==> self.registry.stats[stats_at(
            self.registry.stats,
            edge_id,
        )].counts_probe()
    }

    /// The ids of the session and of its connection.
    pub open spec fn session_ids(self) -> (Seq<char>, Seq<char>) {
        match self.session {
            Some(s) => (s.session_id, s.connection_id),
            None => (seq![], seq![]),
        }
    }

    /// Whether the ids of the session were drawn wherever they are owed anew.
    pub open spec fn draws_ids_of(self, after: EngineView) -> bool {
        ids_drawn(self.session, self.current is Some, after.session, after.current is Some)
    }

    /// Whether a change of route can be counted, and its cooldowns have an end.
    pub open spec fn can_change_route(self, now: TimestampMs) -> bool {
        &&& self.counters.route_changes < u64::MAX
        &&& self.counters.transport_fallbacks < u64::MAX
        &&& self.session is Some ==> self.session->Some_0.migration_count < u64::MAX
        &&& self.decider.cfg.route_cooldown_ms * 2 <= u64::MAX
        &&& now + self.cfg.hysteresis.route_cooldown_ms <= u64::MAX
    }

    /// Whether a failure of the transport can be counted at `now`.
    pub open spec fn can_count_failure(self, transport: TransportKind, now: TimestampMs) -> bool {
        &&& self.fallback.chain.len() > 0
        &&& now + crate::fallback::BLOCK_MS <= u64::MAX
        &&& self.counters.circuit_trips + opened_by(
            self.breakers,
            suffix_of(transport),
            self.breakers.len() as int,
        ) <= u64::MAX
        &&& self.counters.transport_fallbacks < u64::MAX
        &&& forall|i: int|
            0 <= i < self.breakers.len() && has_suffix(
                (#[trigger] self.breakers[i]).key,
                suffix_of(transport),
            ) ==> self.breakers[i].counts_failure(now)
        &&& ({
            let at = machine_at(self.transport_states, transport);
            at < self.transport_states.len() ==> self.transport_states[at].consecutive_failures
                < u32::MAX
        })
    }

    /// The engine once the breakers of the transport's routes have counted a
    /// failure: those that open by it are counted and reported, each once.
    pub open spec fn breakers_failed(self, transport: TransportKind, now: TimestampMs) -> EngineView {
        let n = opened_by(self.breakers, suffix_of(transport), self.breakers.len() as int);
        EngineView {
            breakers: failed_breakers(self.breakers, suffix_of(transport), now),
            counters: EngineCounters {
                circuit_trips: (self.counters.circuit_trips + n) as u64,
                ..self.counters
            },
            ..self
        }.openings_reported(n, now)
    }

    /// The engine with `n` breakers reported as opened.
    pub open spec fn openings_reported(self, n: nat, now: TimestampMs) -> EngineView
        decreases n,
    {
        if n == 0 {
            self
        } else {
            self.openings_reported((n - 1) as nat, now).emitted(
                EventKind::CircuitOpen,
                now,
                Severity::Warning,
                "breaker opened on transport failure"@,
            )
        }
    }

    /// The engine once the transport's machine and the fallback chain have
    /// taken in a failure.
    pub open spec fn fallback_advanced(
        self,
        transport: TransportKind,
        now: TimestampMs,
    ) -> EngineView {
        let at = machine_at(self.transport_states, transport);
        if at < self.transport_states.len() {
            let machine = self.transport_states[at].after_failure();
            let signals = match failure_signal(machine, self.breakers) {
                Some(signal) => seq![(transport, signal)],
                None => seq![],
            };
            let moved = EngineView {
                transport_states: self.transport_states.update(at, machine),
                counters: EngineCounters {
                    transport_fallbacks: if machine.state == TransportHealth::Failed {
                        (self.counters.transport_fallbacks + 1) as u64
                    } else {
                        self.counters.transport_fallbacks
                    },
                    ..self.counters
                },
                fallback: self.fallback.observed(signals, now),
                ..self
            };
            if self.fallback.moves(signals, now) {
                let told = moved.emitted(
                    EventKind::TransportFallback,
                    now,
                    Severity::Warning,
                    "fallback engaged"@,
                );
                if moved.fallback.current() == TransportKind::Direct {
                    told.emitted(
                        EventKind::EdgeFailed,
                        now,
                        Severity::Warning,
                        "all optimizer edges failed"@,
                    )
                } else {
                    told
                }
            } else {
                moved
            }
        } else {
            self
        }
    }

    pub open spec fn after_transport_failure(
        self,
        transport: TransportKind,
        now: TimestampMs,
    ) -> EngineView {
        self.breakers_failed(transport, now).fallback_advanced(transport, now)
    }

    /// The engine after failures, at the given times, of whatever transport the
    /// chain stood at.
    pub open spec fn after_outage(self, times: Seq<TimestampMs>) -> EngineView
        decreases times.len(),
    {
        if times.len() == 0 {
            self
        } else {
            let before = self.after_outage(times.drop_last());
            before.after_transport_failure(before.fallback.current(), times.last())
        }
    }

    /// The engine with the symptom counted.
    pub open spec fn hinted(self, symptom: Symptom) -> EngineView {
        EngineView { restrictions: counted(self.restrictions, symptom), ..self }
    }

    /// The engine with `n` breakers reported as closed.
    pub open spec fn closings_reported(self, n: nat, now: TimestampMs) -> EngineView
        decreases n,
    {
        if n == 0 {
            self
        } else {
            self.closings_reported((n - 1) as nat, now).emitted(
                EventKind::CircuitClosed,
                now,
                Severity::Info,
                "breaker closed"@,
            )
        }
    }

    /// The engine once the transport's machine, the session and the breakers
    /// have taken in a success.
    pub open spec fn after_success_of(self, transport: TransportKind, now: TimestampMs) -> EngineView {
        let at = machine_at(self.transport_states, transport);
        EngineView {
            transport_states: if at < self.transport_states.len() {
                self.transport_states.update(at, self.transport_states[at].after_success())
            } else {
                self.transport_states
            },
            session: match self.session {
                Some(s) => Some(SessionView { last_healthy_time: now, ..s }),
                None => None,
            },
            breakers: succeeded_breakers(self.breakers, suffix_of(transport)),
            ..self
        }
    }

    pub open spec fn after_transport_success(
        self,
        transport: TransportKind,
        now: TimestampMs,
    ) -> EngineView {
        self.after_success_of(transport, now).closings_reported(
            closed_after(self.breakers, suffix_of(transport), self.breakers.len() as int),
            now,
        )
    }
}


impl RouteEngine {
    pub fn new(cfg: EngineConfig) -> (r: Self)
        ensures
            r@ == EngineView::fresh(cfg@),
    {
        let order = cfg.fallback_order.clone();
        assert(order@ =~= cfg.fallback_order@);
        let transport_states = Self::machines(&cfg.supported_transports);
        let decider = RouteDecider::new(HysteresisConfig::default());
        let r = RouteEngine {
            cfg,
            registry: EdgeRegistry::default(),
            decider,
            fallback: FallbackEngine::new(Some(order)),
            transport_states,
            breakers: Vec::new(),
            health: HealthTracker::default(),
            probe: ProbeScheduler::default(),
            telemetry: TelemetryBuffer::new(TELEMETRY_SAMPLES),
            restrictions: RestrictionModel::default(),
            session: None,
            current: None,
            network_type: NetworkType::Unknown,
            vpn_state: VpnState::Disconnected,
            events: VecDeque::new(),
            counters: EngineCounters::default(),
        };
        assert(r@ =~= EngineView::fresh(cfg@));
        r
    }

    fn find_machine(machines: &Vec<TransportStateMachine>, kind: TransportKind) -> (r: usize)
        ensures
            r == machine_at(machines@, kind),
            r <= machines@.len(),
    {
        let mut i: usize = 0;
        while i < machines.len() && machines[i].transport != kind
            invariant
                i <= machines.len(),
                forall|j: int| 0 <= j < i ==> (#[trigger] machines@[j]).transport != kind,
            decreases machines.len() - i,
        {
            i = i + 1;
        }
        proof {
            lemma_first_index_is(machines@, runs(kind), i as int);
        }
        i
    }

    fn machines(kinds: &Vec<TransportKind>) -> (r: Vec<TransportStateMachine>)
        ensures
            r@ == machines_for(kinds@),
    {
        let mut r: Vec<TransportStateMachine> = Vec::new();
        let mut i: usize = 0;
        assert(kinds@.take(0) =~= seq![]);
        while i < kinds.len()
            invariant
                i <= kinds.len(),
                r@ == machines_for(kinds@.take(i as int)),
            decreases kinds.len() - i,
        {
            assert(kinds@.take(i + 1).drop_last() =~= kinds@.take(i as int));
            if Self::find_machine(&r, kinds[i]) >= r.len() {
                r.push(TransportStateMachine::new(kinds[i], StateConfig::default()));
            }
            i = i + 1;
        }
        assert(kinds@.take(i as int) =~= kinds@);
        r
    }

    /// Takes in the server's list of edges; returns the ids accepted.
    pub fn set_edges(&mut self, edges: Vec<EdgeInfo>, now: TimestampMs) -> (r: crate::Result<
        Vec<String>,
    >)
        ensures
            r is Ok,
            views(r->Ok_0@) == crate::edges::admissible_ids(views(edges@), now),
            final(self)@ == (EngineView {
                registry: old(self)@.registry.ingested(views(edges@), now),
                ..old(self)@
            }).emitted(EventKind::NetworkChanged, now, Severity::Info, "edge list refreshed"@),
    {
        let accepted = self.registry.ingest(edges, now);
        self.emit_kind(EventKind::NetworkChanged, now, Severity::Info, "edge list refreshed");
        accepted
    }

    pub fn set_network_type(&mut self, network: NetworkType, now: TimestampMs)
        ensures
            final(self)@ == (if network != old(self).network_type {
                (EngineView { network_type: network, ..old(self)@ }).emitted(
                    EventKind::NetworkChanged,
                    now,
                    Severity::Info,
                    "network type changed"@,
                )
            } else {
                old(self)@
            }),
    {
        if network != self.network_type {
            self.network_type = network;
            self.emit_kind(EventKind::NetworkChanged, now, Severity::Info, "network type changed");
        }
    }

    pub fn set_vpn_state(&mut self, state: VpnState, now: TimestampMs)
        ensures
            final(self)@ == (EngineView {
                vpn_state: state,
                session: match old(self)@.session {
                    Some(s) => Some(SessionView { last_healthy_time: now, ..s }),
                    None => None,
                },
                ..old(self)@
            }).emitted(
                match state {
                    VpnState::Connected => EventKind::VpnConnected,
                    VpnState::Disconnected => EventKind::VpnDisconnected,
                    _ => EventKind::NetworkChanged,
                },
                now,
                Severity::Info,
                "vpn state changed"@,
            ),
    {
        let kind = match state {
            VpnState::Connected => EventKind::VpnConnected,
            VpnState::Disconnected => EventKind::VpnDisconnected,
            _ => EventKind::NetworkChanged,
        };
        self.vpn_state = state;
        self.mark_session_healthy(now);
        self.emit_kind(kind, now, Severity::Info, "vpn state changed");
    }

    fn mark_session_healthy(&mut self, now: TimestampMs)
        ensures
            final(self)@ == (EngineView {
                session: match old(self)@.session {
                    Some(s) => Some(SessionView { last_healthy_time: now, ..s }),
                    None => None,
                },
                ..old(self)@
            }),
    {
        if let Some(session) = &mut self.session {
            session.mark_healthy(now);
        }
    }

    /// Takes in one probe of an edge: updates the statistics, reports spikes,
    /// chooses the route anew, and follows the health of the edge in use.
    /// `power` raises its first argument to its second. An unknown edge is an
    /// error and changes nothing.
    pub fn on_edge_observation<P: Fn(Reading, Reading) -> Reading>(
        &mut self,
        obs: &EdgeObservation,
        power: P,
        now: TimestampMs,
    ) -> (r: crate::Result<()>)
        requires
            forall|base: Reading, exponent: Reading| #[trigger]
                call_requires(power, (base, exponent)),
            old(self)@.counts_probe_of(obs.edge_id@),
            old(self)@.can_change_route(now),
        ensures
            (match r {
                Ok(_) => {
                    &&& old(self)@.knows(obs.edge_id@)
                    &&& exists|loss_powers: Seq<Reading>, health_power: Reading|
                        {
                            &&& raised_all(
                                power,
                                old(self)@.measured(*obs, now).routes(),
                                loss_powers,
                            )
                            &&& raised(
                                power,
                                base_of_loss(old(self)@.probed_stats(*obs, now).packet_loss_ratio),
                                HEALTH_LOSS_EXPONENT,
                                health_power,
                            )
                            &&& final(self)@ == #[trigger] old(self)@.observed(
                                *obs,
                                loss_powers,
                                health_power,
                                now,
                                final(self)@.session_ids(),
                            )
                        }
                },
                Err(e) => {
                    &&& !old(self)@.knows(obs.edge_id@)
                    &&& e@ == ErrorView::UnknownEdge(obs.edge_id@)
                    &&& final(self)@ == old(self)@
                },
            }),
            old(self)@.draws_ids_of(final(self)@),
    {
        proof {
            lemma_no_ids_owed(self@.session, self@.current is Some);
        }
        match self.measure(obs, now) {
            Ok(_) => {},
            Err(e) => {
                return Err(e);
            },
        }
        let ghost measured = self@;
        let routes = self.routes();
        let ghost views_of_routes = views(routes@);
        let mut loss_powers: Vec<Reading> = Vec::new();
        let mut i: usize = 0;
        while i < routes.len()
            invariant
                i <= routes.len(),
                views_of_routes == views(routes@),
                loss_powers@.len() == i,
                forall|base: Reading, exponent: Reading| #[trigger]
                    call_requires(power, (base, exponent)),
                forall|j: int|
                    0 <= j < i ==> raised(
                        power,
                        loss_in_scale(views_of_routes[j].packet_loss_ratio),
                        ROUTE_LOSS_EXPONENT,
                        #[trigger] loss_powers@[j],
                    ),
            decreases routes.len() - i,
        {
            assert(views_of_routes[i as int] == routes@[i as int]@);
            loss_powers.push(
                power(
                    loss_scale(routes[i].packet_loss_ratio),
                    Reading { bits: ROUTE_LOSS_EXPONENT },
                ),
            );
            i = i + 1;
        }
        assert(raised_all(power, measured.routes(), loss_powers@));
        let at: usize = self.registry.find_stats(&obs.edge_id);
        assert(self@.registry.stats[at as int] == self.registry.stats@[at as int]@);
        let health_power = power(
            loss_base(self.registry.stats[at].packet_loss_ratio),
            Reading { bits: HEALTH_LOSS_EXPONENT },
        );
        let r = self.adapt(&obs.edge_id, &loss_powers, health_power, now);
        assert(self@ == old(self)@.observed(
            *obs,
            loss_powers@,
            health_power,
            now,
            self@.session_ids(),
        ));
        r
    }

    /// Takes in one probe of an edge as far as it is measured: updates the
    /// statistics and reports spikes. An unknown edge is an error and changes
    /// nothing.
    pub fn measure(&mut self, obs: &EdgeObservation, now: TimestampMs) -> (r: crate::Result<()>)
        requires
            old(self)@.counts_probe_of(obs.edge_id@),
        ensures
            (match r {
                Ok(_) => old(self)@.knows(obs.edge_id@) && final(self)@ == old(self)@.measured(
                    *obs,
                    now,
                ),
                Err(e) => {
                    &&& !old(self)@.knows(obs.edge_id@)
                    &&& e@ == ErrorView::UnknownEdge(obs.edge_id@)
                    &&& final(self)@ == old(self)@
                },
            }),
            final(self)@.knows(obs.edge_id@) == old(self)@.knows(obs.edge_id@),
            final(self)@.can_change_route(now) == old(self)@.can_change_route(now),
            r is Ok ==> final(self)@.registry.stats[stats_at(
                final(self)@.registry.stats,
                obs.edge_id@,
            )] == old(self)@.probed_stats(*obs, now),
    {
        let at: usize = self.registry.find_stats(&obs.edge_id);
        if at >= self.registry.stats.len() {
            return Err(Error::UnknownEdge(obs.edge_id.clone()));
        }
        self.take_probe(at, obs, now);
        let ghost probed = self@;
        proof {
            lemma_same_stats_at(old(self)@.registry.stats, probed.registry.stats, obs.edge_id@);
        }
        assert(self@.registry.stats[at as int] == self.registry.stats@[at as int]@);
        let loss = self.registry.stats[at].packet_loss_ratio;
        self.report_spikes(obs, loss, now);
        proof {
            lemma_spikes_keep(probed, *obs, loss, now);
        }
        Ok(())
    }

    /// Adapts to a measured probe of the edge: chooses the route anew, and
    /// follows the health of the edge in use. `loss_powers` holds
    /// `scoring::loss_scale` of the loss of each of the `routes` to the power of
    /// 1.6, and `health_power` is `scoring::loss_base` of that of the edge to
    /// the power of 2. An unknown edge is an error and changes nothing.
    pub fn adapt(
        &mut self,
        edge_id: &str,
        loss_powers: &Vec<Reading>,
        health_power: Reading,
        now: TimestampMs,
    ) -> (r: crate::Result<()>)
        requires
            loss_powers@.len() == old(self)@.routes().len(),
            old(self)@.can_change_route(now),
        ensures
            (match r {
                Ok(_) => old(self)@.knows(edge_id@) && final(self)@ == old(self)@.adapted(
                    edge_id@,
                    loss_powers@,
                    health_power,
                    now,
                    final(self)@.session_ids(),
                ),
                Err(e) => {
                    &&& !old(self)@.knows(edge_id@)
                    &&& e@ == ErrorView::UnknownEdge(edge_id@)
                    &&& final(self)@ == old(self)@
                },
            }),
            old(self)@.draws_ids_of(final(self)@),
    {
        proof {
            lemma_no_ids_owed(self@.session, self@.current is Some);
        }
        let at: usize = self.registry.find_stats(edge_id);
        if at >= self.registry.stats.len() {
            return Err(Error::UnknownEdge(edge_id.to_owned()));
        }
        let offered = self.offered_routes(loss_powers, now);
        let ghost asked = self@;
        self.select_best(&offered, now);
        proof {
            lemma_choice_keeps(asked, views(offered@), now, self@.session_ids());
        }
        let ghost chosen = self@;
        self.track_health(at, edge_id, health_power, now);
        proof {
            lemma_health_keeps(chosen, edge_id@, health_power, now);
        }
        Ok(())
    }

    /// The routes over the known edges, not scored.
    pub fn routes(&self) -> (r: Vec<RouteCandidate>)
        ensures
            views(r@) == self@.routes(),
    {
        self.registry.route_candidates(&self.cfg.supported_transports, MeasuredSource::Real)
    }

    fn take_probe(&mut self, at: usize, obs: &EdgeObservation, now: TimestampMs)
        requires
            at == stats_at(old(self)@.registry.stats, obs.edge_id@),
            at < old(self)@.registry.stats.len(),
            old(self)@.registry.stats[at as int].counts_probe(),
        ensures
            final(self)@ == old(self)@.probed(*obs, now),
    {
        let mut stats = self.registry.stats[at].clone();
        assert(self@.registry.stats[at as int] == stats@);
        stats.observes(obs.latency_ms, obs.jitter_ms, obs.lost);
        stats.last_probed_at = Some(now);
        if let Some(ms) = obs.handshake_ms {
            stats.record_handshake(ms);
        }
        assert(stats@ == old(self)@.probed_stats(*obs, now));
        self.registry.stats.set(at, stats);
        assert(self@ =~= old(self)@.probed(*obs, now));
    }

    fn report_spikes(&mut self, obs: &EdgeObservation, loss: Reading, now: TimestampMs)
        ensures
            final(self)@ == old(self)@.spikes_reported(*obs, loss, now),
    {
        if obs.lost {
            self.maybe_emit_spike(EventKind::PacketLossSpike, now, "loss spike");
        }
        if self.cfg.loss_spike_threshold.bits < SIGN && loss >= self.cfg.loss_spike_threshold {
            self.maybe_emit_spike(
                EventKind::PacketLossSpike,
                now,
                "sustained loss above threshold",
            );
        }
        if obs.jitter_ms >= self.cfg.jitter_spike_threshold_ms {
            self.maybe_emit_spike(EventKind::JitterSpike, now, "jitter spike");
        }
        if obs.latency_ms >= self.cfg.latency_spike_threshold_ms {
            self.maybe_emit_spike(EventKind::LatencySpike, now, "latency spike");
        }
    }

    /// Scores all routes and asks their breakers; returns those that may be
    /// offered.
    fn offered_routes(&mut self, loss_powers: &Vec<Reading>, now: TimestampMs) -> (r: Vec<
        RouteCandidate,
    >)
        requires
            loss_powers@.len() == old(self)@.routes().len(),
        ensures
            views(r@) == old(self)@.offered(loss_powers@, now),
            final(self)@ == old(self)@.breakers_asked(loss_powers@, now),
    {
        let candidates = self.scored(loss_powers);
        let ghost routes = views(candidates@);
        let ghost before = self@;
        let mut offered: Vec<RouteCandidate> = Vec::new();
        let mut i: usize = 0;
        assert(routes.take(0) =~= seq![]);
        while i < candidates.len()
            invariant
                i <= candidates.len(),
                routes == views(candidates@),
                before == old(self)@,
                self@ == (EngineView {
                    breakers: asked_all(
                        before.breakers,
                        routes.take(i as int),
                        before.cfg.circuit,
                        now,
                    ),
                    ..before
                }),
                ({
                    let places = passing(
                        before.breakers,
                        routes.take(i as int),
                        before.cfg.circuit,
                        now,
                    );
                    &&& offered@.len() == places.len()
                    &&& forall|j: int|
                        0 <= j < places.len() ==> 0 <= #[trigger] places[j] < i && offered@[j]@
                            == routes[places[j]]
                }),
            decreases candidates.len() - i,
        {
            assert(routes.take(i + 1).drop_last() =~= routes.take(i as int));
            assert(routes[i as int] == candidates@[i as int]@);
            if self.ask(&candidates[i], now) {
                offered.push(candidates[i].clone());
            }
            i = i + 1;
        }
        assert(routes.take(i as int) =~= routes);
        assert(views(offered@) =~= before.offered(loss_powers@, now));
        offered
    }

    fn scored(&self, loss_powers: &Vec<Reading>) -> (r: Vec<RouteCandidate>)
        requires
            loss_powers@.len() == self@.routes().len(),
        ensures
            views(r@) == self@.scored_routes(loss_powers@),
    {
        let mut candidates = self.routes();
        let ghost routes = views(candidates@);
        proof {
            assert forall|j: int| 0 <= j < routes.len() implies (#[trigger] routes[j]).source
                == MeasuredSource::Real by {
                crate::edges::law_routes_are_supported(
                    self@.registry,
                    self@.registry.stats.len() as int,
                    self@.cfg.supported_transports,
                    MeasuredSource::Real,
                    j,
                );
            }
            crate::scoring::lemma_all_real_admitted(routes);
        }
        let _ = score_all(&self.cfg.score_weights, &mut candidates, loss_powers, false);
        candidates
    }

    /// Whether the breaker of the route lets it pass.
    fn ask(&mut self, candidate: &RouteCandidate, now: TimestampMs) -> (r: bool)
        ensures
            r == may_pass(old(self)@.breakers, candidate@, now),
            final(self)@ == (EngineView {
                breakers: asked(old(self)@.breakers, candidate@, old(self)@.cfg.circuit, now),
                ..old(self)@
            }),
    {
        proof {
            lemma_first_index(old(self)@.breakers, keyed(breaker_key(candidate@)));
        }
        let breaker = self.breaker_for(candidate);
        let r = breaker.allow(now);
        assert(self@.breakers =~= asked(
            old(self)@.breakers,
            candidate@,
            old(self)@.cfg.circuit,
            now,
        ));
        r
    }

    /// Chooses among the offered routes.
    fn select_best(&mut self, candidates: &Vec<RouteCandidate>, now: TimestampMs)
        requires
            old(self)@.can_change_route(now),
        ensures
            final(self)@ == old(self)@.chosen(
                views(candidates@),
                now,
                final(self)@.session_ids(),
            ),
            old(self)@.draws_ids_of(final(self)@),
    {
        proof {
            lemma_no_ids_owed(self@.session, self@.current is Some);
            reveal(EngineView::chosen);
        }
        if candidates.len() == 0 {
            return ;
        }
        let ghost routes = views(candidates@);
        let best_index: usize = best_of(candidates);
        let best = &candidates[best_index];
        assert(routes[best_index as int] == best@);
        let best_edge = route_edge_id(&best.id);
        let left = match &self.current {
            Some(c) => c.id.clone(),
            None => {
                self.apply_selected(&best_edge, best, now);
                return ;
            },
        };
        let verdict = self.decider.evaluate(best, now);
        match verdict {
            RouteVerdict::Switch { candidate_id, reason } => {
                let at: usize = find_route(candidates, &candidate_id);
                proof {
                    lemma_first_index(routes, has_id(candidate_id@));
                    assert(has_id(candidate_id@)(routes[best_index as int]));
                }
                let target = &candidates[at];
                assert(routes[at as int] == target@);
                if !same(&left, &candidate_id) {
                    self.decider.apply_cooldown(
                        &left,
                        now + self.cfg.hysteresis.route_cooldown_ms,
                    );
                }
                self.apply_selected(&best_edge, target, now);
                match reason {
                    SwitchReason::SustainedImprovement => {
                        self.emit_kind(
                            EventKind::RouteChanged,
                            now,
                            Severity::Info,
                            "sustained improvement",
                        );
                    },
                    SwitchReason::CurrentRouteDegraded => {
                        self.emit_kind(
                            EventKind::EdgeDegraded,
                            now,
                            Severity::Warning,
                            "current route degraded",
                        );
                        self.emit_kind(
                            EventKind::RouteChanged,
                            now,
                            Severity::Info,
                            "degradation-triggered switch",
                        );
                    },
                }
            },
            RouteVerdict::Keep => {},
            RouteVerdict::NotYet { .. } => {},
        }
    }

    fn apply_selected(&mut self, edge_id: &str, candidate: &RouteCandidate, now: TimestampMs)
        requires
            old(self)@.can_change_route(now),
        ensures
            final(self)@ == old(self)@.selected(
                edge_id@,
                candidate@,
                now,
                final(self)@.session_ids(),
            ),
            old(self)@.draws_ids_of(final(self)@),
    {
        reveal(ids_drawn);
        let first = self.current.is_none();
        let transport_changed = match &self.current {
            Some(c) => c.transport != candidate.transport,
            None => true,
        };
        let edge_changed = match &self.current {
            Some(c) => !same(&route_edge_id(&c.id), edge_id),
            None => true,
        };
        self.current = Some(candidate.clone());
        if first {
            self.session = Some(
                Session::begin(candidate.transport, Some(edge_id.to_owned()), now),
            );
            self.emit_kind(
                EventKind::EdgeSelected,
                now,
                Severity::Info,
                "initial best-path selection",
            );
            return ;
        }
        if let Some(session) = &mut self.session {
            if transport_changed || edge_changed {
                session.migrate(candidate.transport, Some(edge_id.to_owned()), now);
                if transport_changed {
                    self.counters.route_changes = self.counters.route_changes + 1;
                }
            } else {
                session.mark_healthy(now);
            }
        }
        if transport_changed {
            self.counters.transport_fallbacks = self.counters.transport_fallbacks + 1;
            self.emit_kind(
                EventKind::TransportChanged,
                now,
                Severity::Info,
                "transport switched by score",
            );
        }
        if edge_changed {
            self.emit_kind(EventKind::EdgeSelected, now, Severity::Info, "edge changed");
        }
    }

    fn track_health(&mut self, at: usize, edge_id: &str, health_power: Reading, now: TimestampMs)
        requires
            at == stats_at(old(self)@.registry.stats, edge_id@),
            at < old(self)@.registry.stats.len(),
        ensures
            final(self)@ == old(self)@.health_tracked(edge_id@, health_power, now),
    {
        let in_use = match &self.current {
            Some(c) => same(&route_edge_id(&c.id), edge_id),
            None => false,
        };
        if !in_use {
            return ;
        }
        let (route, transport) = match &self.current {
            Some(c) => (c.id.clone(), c.transport),
            None => {
                return ;
            },
        };
        assert(self@.registry.stats[at as int] == self.registry.stats@[at as int]@);
        let m = self.registry.stats[at].metrics();
        self.decider.update_current_metrics(m);
        let score = health_score(&HealthInput::from(m), &HealthWeights::default(), health_power);
        let graded = self.health.observe(score, now, UPGRADE_SUSTAIN_MS);
        self.probe.apply_health(monitor_level(graded.grade));
        let _ = self.telemetry.push(
            TelemetrySample {
                at: now,
                network: self.network_type,
                route: Some(route),
                transport: Some(transport),
                latency_ms: m.latency_ms,
                jitter_ms: m.jitter_ms,
                packet_loss_ratio: m.packet_loss_ratio,
                source: MeasuredSource::Real,
            },
        );
        assert(self@ =~= old(self)@.health_tracked(edge_id@, health_power, now));
    }

    /// Takes in a failure of the transport: the breakers of its routes count
    /// it, its state machine follows, and the fallback chain may move on.
    pub fn report_transport_failure(&mut self, transport: TransportKind, now: TimestampMs)
        requires
            old(self)@.can_count_failure(transport, now),
        ensures
            final(self)@ == old(self)@.after_transport_failure(transport, now),
    {
        self.fail_breakers(transport, now);
        let ghost failed = self@;
        proof {
            lemma_breakers_failed(old(self)@, transport, now);
        }
        let at: usize = Self::find_machine(&self.transport_states, transport);
        if at < self.transport_states.len() {
            proof {
                lemma_first_index(failed.transport_states, runs(transport));
            }
            let mut machine = self.transport_states[at];
            assert(runs(transport)(machine));
            machine.record_failure();
            self.transport_states.set(at, machine);
            let has_failed = machine.state == TransportHealth::Failed;
            if has_failed {
                self.counters.transport_fallbacks = self.counters.transport_fallbacks + 1;
            }
            let mut signals: Vec<(TransportKind, FailureSignal)> = Vec::new();
            if has_failed {
                signals.push((transport, FailureSignal::StateFailed));
                assert(signals@ =~= seq![(transport, FailureSignal::StateFailed)]);
            } else if machine.state != TransportHealth::Healthy && self.has_open_breaker(transport) {
                signals.push((transport, FailureSignal::CircuitOpen));
                assert(signals@ =~= seq![(transport, FailureSignal::CircuitOpen)]);
            } else {
                assert(signals@ =~= seq![]);
            }
            if let Some(next) = self.fallback.observe(signals, now) {
                self.emit_kind(
                    EventKind::TransportFallback,
                    now,
                    Severity::Warning,
                    "fallback engaged",
                );
                if next == TransportKind::Direct {
                    self.emit_kind(
                        EventKind::EdgeFailed,
                        now,
                        Severity::Warning,
                        "all optimizer edges failed",
                    );
                }
            }
            assert(self@ =~= failed.fallback_advanced(transport, now));
        }
    }

    /// Whether a breaker of the transport's routes is open.
    fn has_open_breaker(&self, transport: TransportKind) -> (r: bool)
        ensures
            r == any_open(self@.breakers, suffix_of(transport)),
    {
        let mut suffix = ":".to_owned();
        suffix.append(transport.as_str());
        let mut i: usize = 0;
        while i < self.breakers.len()
            invariant
                i <= self.breakers.len(),
                suffix@ == suffix_of(transport),
                forall|j: int|
                    0 <= j < i ==> !(has_suffix((#[trigger] self@.breakers[j]).key, suffix@)
                        && self@.breakers[j].state is Open),
            decreases self.breakers.len() - i,
        {
            assert(self@.breakers[i as int] == self.breakers@[i as int]@);
            if matches!(self.breakers[i].state, CircuitState::Open { .. }) && ends_with(
                &self.breakers[i].key,
                &suffix,
            ) {
                return true;
            }
            i = i + 1;
        }
        false
    }

    fn fail_breakers(&mut self, transport: TransportKind, now: TimestampMs)
        requires
            old(self)@.can_count_failure(transport, now),
        ensures
            final(self)@ == old(self)@.breakers_failed(transport, now),
    {
        let mut suffix = ":".to_owned();
        suffix.append(transport.as_str());
        let ghost before = self@;
        let mut opened: u64 = 0;
        let mut i: usize = 0;
        while i < self.breakers.len()
            invariant
                i <= self.breakers.len(),
                opened <= i,
                opened == opened_by(before.breakers, suffix@, i as int),
                suffix@ == suffix_of(transport),
                before == old(self)@,
                before.can_count_failure(transport, now),
                self.breakers@.len() == before.breakers.len(),
                self@ == (EngineView { breakers: self@.breakers, ..before }),
                forall|j: int|
                    0 <= j < i ==> #[trigger] self@.breakers[j] == failed_breakers(
                        before.breakers,
                        suffix@,
                        now,
                    )[j],
                forall|j: int|
                    i <= j < self@.breakers.len() ==> #[trigger] self@.breakers[j]
                        == before.breakers[j],
            decreases self.breakers.len() - i,
        {
            assert(self@.breakers[i as int] == before.breakers[i as int]);
            assert(self@.breakers[i as int] == self.breakers@[i as int]@);
            let ghost held = self@.breakers;
            if ends_with(&self.breakers[i].key, &suffix) {
                let trips: u64 = self.breakers[i].trip_count;
                self.breakers[i].record_failure(now);
                if self.breakers[i].trip_count > trips {
                    opened = opened + 1;
                }
                assert(self@.breakers =~= held.update(
                    i as int,
                    before.breakers[i as int].after_failure(now),
                ));
            }
            i = i + 1;
        }
        assert(self@.breakers =~= failed_breakers(before.breakers, suffix@, now));
        self.counters.circuit_trips = self.counters.circuit_trips + opened;
        let ghost base = self@;
        let mut told: u64 = 0;
        while told < opened
            invariant
                told <= opened,
                self@ == base.openings_reported(told as nat, now),
            decreases opened - told,
        {
            self.emit_kind(
                EventKind::CircuitOpen,
                now,
                Severity::Warning,
                "breaker opened on transport failure",
            );
            told = told + 1;
        }
    }

    pub fn report_handshake_failure(&mut self, now: TimestampMs)
        requires
            old(self).counters.handshake_failures < u64::MAX,
            tally(old(self)@.restrictions, Symptom::QuicHandshakeFailure) != Some(u32::MAX),
            tally(old(self)@.restrictions, Symptom::TlsHandshakeFailure) != Some(u32::MAX),
        ensures
            final(self)@ == (EngineView {
                counters: EngineCounters {
                    handshake_failures: (old(self).counters.handshake_failures + 1) as u64,
                    ..old(self).counters
                },
                ..old(self)@
            }).emitted(
                EventKind::HandshakeFailure,
                now,
                Severity::Warning,
                "edge handshake failed"@,
            ).hinted(Symptom::QuicHandshakeFailure).hinted(Symptom::TlsHandshakeFailure),
    {
        self.counters.handshake_failures = self.counters.handshake_failures + 1;
        self.emit_kind(
            EventKind::HandshakeFailure,
            now,
            Severity::Warning,
            "edge handshake failed",
        );
        proof {
            crate::detect::law_counts_are_separate(
                self@.restrictions,
                Symptom::QuicHandshakeFailure,
                Symptom::TlsHandshakeFailure,
            );
        }
        self.restriction_hint(Symptom::QuicHandshakeFailure);
        self.restriction_hint(Symptom::TlsHandshakeFailure);
    }

    pub fn report_dns_failure(&mut self, now: TimestampMs)
        requires
            old(self).counters.dns_failures < u64::MAX,
            tally(old(self)@.restrictions, Symptom::DnsFailure) != Some(u32::MAX),
        ensures
            final(self)@ == (EngineView {
                counters: EngineCounters {
                    dns_failures: (old(self).counters.dns_failures + 1) as u64,
                    ..old(self).counters
                },
                ..old(self)@
            }).emitted(
                EventKind::DnsFailure,
                now,
                Severity::Warning,
                "dns resolution failed"@,
            ).hinted(Symptom::DnsFailure),
    {
        self.counters.dns_failures = self.counters.dns_failures + 1;
        self.emit_kind(EventKind::DnsFailure, now, Severity::Warning, "dns resolution failed");
        self.restriction_hint(Symptom::DnsFailure);
    }

    pub fn report_udp_timeout(&mut self, now: TimestampMs)
        requires
            old(self)@.can_count_failure(TransportKind::Udp, now),
            tally(old(self)@.restrictions, Symptom::RepeatedUdpTimeout) != Some(u32::MAX),
        ensures
            final(self)@ == old(self)@.hinted(
                Symptom::RepeatedUdpTimeout,
            ).after_transport_failure(TransportKind::Udp, now).emitted(
                EventKind::PacketLossSpike,
                now,
                Severity::Warning,
                "udp timeout"@,
            ),
    {
        self.restriction_hint(Symptom::RepeatedUdpTimeout);
        self.report_transport_failure(TransportKind::Udp, now);
        self.emit_kind(EventKind::PacketLossSpike, now, Severity::Warning, "udp timeout");
    }

    /// Takes in a success of the transport: its machine and the breakers of
    /// its routes recover.
    pub fn report_transport_success(&mut self, transport: TransportKind, now: TimestampMs)
        requires
            ({
                let at = machine_at(old(self)@.transport_states, transport);
                at < old(self)@.transport_states.len() ==> old(
                    self,
                )@.transport_states[at].counts_success()
            }),
            forall|i: int|
                0 <= i < old(self)@.breakers.len() && has_suffix(
                    (#[trigger] old(self)@.breakers[i]).key,
                    suffix_of(transport),
                ) ==> old(self)@.breakers[i].counts_success(),
        ensures
            final(self)@ == old(self)@.after_transport_success(transport, now),
    {
        let at: usize = Self::find_machine(&self.transport_states, transport);
        if at < self.transport_states.len() {
            let mut machine = self.transport_states[at];
            machine.record_success();
            self.transport_states.set(at, machine);
        }
        self.mark_session_healthy(now);
        let closed: usize = self.recover_breakers(transport);
        let ghost base = self@;
        let mut i: usize = 0;
        while i < closed
            invariant
                i <= closed,
                self@ == base.closings_reported(i as nat, now),
            decreases closed - i,
        {
            self.emit_kind(EventKind::CircuitClosed, now, Severity::Info, "breaker closed");
            i = i + 1;
        }
    }

    fn recover_breakers(&mut self, transport: TransportKind) -> (r: usize)
        requires
            forall|i: int|
                0 <= i < old(self)@.breakers.len() && has_suffix(
                    (#[trigger] old(self)@.breakers[i]).key,
                    suffix_of(transport),
                ) ==> old(self)@.breakers[i].counts_success(),
        ensures
            final(self)@ == (EngineView {
                breakers: succeeded_breakers(old(self)@.breakers, suffix_of(transport)),
                ..old(self)@
            }),
            r == closed_after(
                old(self)@.breakers,
                suffix_of(transport),
                old(self)@.breakers.len() as int,
            ),
    {
        let mut suffix = ":".to_owned();
        suffix.append(transport.as_str());
        let ghost before = self@;
        let mut closed: usize = 0;
        let mut i: usize = 0;
        while i < self.breakers.len()
            invariant
                i <= self.breakers.len(),
                suffix@ == suffix_of(transport),
                before == old(self)@,
                forall|j: int|
                    0 <= j < before.breakers.len() && has_suffix(
                        (#[trigger] before.breakers[j]).key,
                        suffix@,
                    ) ==> before.breakers[j].counts_success(),
                self.breakers@.len() == before.breakers.len(),
                self@ == (EngineView { breakers: self@.breakers, ..before }),
                forall|j: int|
                    0 <= j < i ==> #[trigger] self@.breakers[j] == succeeded_breakers(
                        before.breakers,
                        suffix@,
                    )[j],
                forall|j: int|
                    i <= j < self@.breakers.len() ==> #[trigger] self@.breakers[j]
                        == before.breakers[j],
                closed == closed_after(before.breakers, suffix@, i as int),
                closed <= i,
            decreases self.breakers.len() - i,
        {
            assert(self@.breakers[i as int] == before.breakers[i as int]);
            assert(self@.breakers[i as int] == self.breakers@[i as int]@);
            let ghost held = self@.breakers;
            if ends_with(&self.breakers[i].key, &suffix) {
                self.breakers[i].record_success();
                assert(self@.breakers =~= held.update(
                    i as int,
                    before.breakers[i as int].after_success(),
                ));
                assert(self@.breakers[i as int] == self.breakers@[i as int]@);
                if self.breakers[i].state == CircuitState::Closed {
                    closed = closed + 1;
                }
            }
            i = i + 1;
        }
        assert(self@.breakers =~= succeeded_breakers(before.breakers, suffix@));
        closed
    }

    /// Where traffic goes when no edge is usable. Under the strict policy it
    /// must not be forwarded there: see `may_forward_direct`.
    pub fn fail_safe_action(&self) -> (r: TransportKind)
        ensures
            r == TransportKind::Direct,
    {
        TransportKind::Direct
    }

    /// Whether traffic may be forwarded without an edge.
    pub fn may_forward_direct(&self) -> (r: bool)
        ensures
            r == (self.cfg.data_plane_policy == DataPlanePolicy::AllowDirectFallback),
            self.cfg.data_plane_policy == DataPlanePolicy::StrictVpnOnly ==> !r,
    {
        matches!(self.cfg.data_plane_policy, DataPlanePolicy::AllowDirectFallback)
    }

    /// The breaker of the route, made where there is none yet.
    pub fn breaker_for(&mut self, candidate: &RouteCandidate) -> (r: &mut CircuitBreaker)
        ensures
            ({
                let all = with_breaker(
                    old(self)@.breakers,
                    candidate@,
                    old(self)@.cfg.circuit,
                );
                let at = breaker_at(old(self)@.breakers, breaker_key(candidate@));
                &&& 0 <= at < all.len()
                &&& r@ == all[at]
                &&& final(self)@ == (EngineView {
                    breakers: all.update(at, final(r)@),
                    ..old(self)@
                })
            }),
    {
        let mut key = candidate.id.clone();
        key.append(":");
        key.append(candidate.transport.as_str());
        let at: usize = self.find_breaker(&key);
        if at >= self.breakers.len() {
            self.breakers.push(CircuitBreaker::new(&key, self.cfg.circuit));
        }
        assert(self@.breakers =~= with_breaker(
            old(self)@.breakers,
            candidate@,
            old(self)@.cfg.circuit,
        ));
        assert(self@.breakers[at as int] == self.breakers@[at as int]@);
        &mut self.breakers[at]
    }

    fn find_breaker(&self, key: &str) -> (r: usize)
        ensures
            r == breaker_at(self@.breakers, key@),
            r <= self.breakers@.len(),
    {
        let mut i: usize = 0;
        while i < self.breakers.len() && !same(&self.breakers[i].key, key)
            invariant
                i <= self.breakers.len(),
                forall|j: int| 0 <= j < i ==> (#[trigger] self@.breakers[j]).key != key@,
            decreases self.breakers.len() - i,
        {
            assert(self@.breakers[i as int] == self.breakers@[i as int]@);
            i = i + 1;
        }
        proof {
            if i < self.breakers.len() {
                assert(self@.breakers[i as int] == self.breakers@[i as int]@);
            }
            lemma_first_index_is(self@.breakers, keyed(key@), i as int);
        }
        i
    }

    /// The breaker of the key, where there is one.
    pub fn breaker(&self, key: &str) -> (r: Option<&CircuitBreaker>)
        ensures
            ({
                let at = breaker_at(self@.breakers, key@);
                match r {
                    Some(b) => at < self.breakers@.len() && *b == self.breakers@[at],
                    None => at == self.breakers@.len(),
                }
            }),
    {
        let at: usize = self.find_breaker(key);
        if at < self.breakers.len() {
            Some(&self.breakers[at])
        } else {
            None
        }
    }

    /// The state machine of the transport, where it is supported.
    pub fn transport_state(&self, kind: TransportKind) -> (r: Option<&TransportStateMachine>)
        ensures
            ({
                let at = machine_at(self@.transport_states, kind);
                match r {
                    Some(m) => at < self.transport_states@.len() && *m
                        == self.transport_states@[at],
                    None => at == self.transport_states@.len(),
                }
            }),
    {
        let at: usize = Self::find_machine(&self.transport_states, kind);
        if at < self.transport_states.len() {
            Some(&self.transport_states[at])
        } else {
            None
        }
    }

    pub fn current_route(&self) -> (r: Option<&RouteCandidate>)
        ensures
            (match r {
                Some(c) => self.current == Some(*c),
                None => self.current is None,
            }),
    {
        self.current.as_ref()
    }

    pub fn network_health_grade(&self) -> (r: NetworkHealthGrade)
        ensures
            r == self.health.grade,
    {
        self.health.grade
    }

    pub fn emit_kind(&mut self, kind: EventKind, now: TimestampMs, severity: Severity, reason: &str)
        ensures
            final(self)@ == old(self)@.emitted(kind, now, severity, reason@),
    {
        self.emit(Event::new(kind, now).with_severity(severity).with_reason(reason));
    }

    pub fn emit(&mut self, event: Event)
        ensures
            final(self)@ == old(self)@.with_event(event@),
    {
        self.telemetry.push_event(event.clone());
        if self.events.len() >= EVENT_LOG {
            let _ = self.events.pop_front();
            assert(views(self.events@) =~= views(old(self).events@).drop_first());
        }
        self.events.push_back(event);
        assert(self@ =~= old(self)@.with_event(event@));
    }

    /// Reports a spike, unless one of its kind was reported just before.
    fn maybe_emit_spike(&mut self, kind: EventKind, now: TimestampMs, reason: &str)
        ensures
            final(self)@ == old(self)@.with_spike(kind, now, reason@),
    {
        let mut i: usize = 0;
        while i < self.events.len()
            invariant
                i <= self.events@.len(),
                *self == *old(self),
                forall|j: int|
                    0 <= j < i ==> (#[trigger] self@.events[j]).kind != kind || elapsed(
                        now,
                        self@.events[j].timestamp,
                    ) >= SPIKE_QUIET_MS,
            decreases self.events@.len() - i,
        {
            let event = &self.events[i];
            assert(self@.events[i as int] == event@);
            if event.kind == kind && now.saturating_sub(event.timestamp) < SPIKE_QUIET_MS {
                return ;
            }
            i = i + 1;
        }
        let mut event = Event::new(kind, now).with_severity(default_severity(kind)).with_reason(
            reason,
        );
        if let Some(c) = &self.current {
            event = event.with_metrics(c.metrics());
        }
        self.emit(event);
    }

    fn restriction_hint(&mut self, symptom: Symptom)
        requires
            tally(old(self)@.restrictions, symptom) != Some(u32::MAX),
        ensures
            final(self)@ == old(self)@.hinted(symptom),
    {
        self.restrictions.observe(symptom);
    }

    /// The diagnostic report, from real telemetry: where the latest sample or
    /// the route in use is synthetic there is none.
    pub fn diagnostic_report(&self, now: TimestampMs) -> (r: crate::Result<DiagnosticReport>)
        ensures
            (match r {
                Ok(report) => self@.reports_real() && report@ == report_of(
                    MeasuredSource::Real,
                    now,
                    self@.latest_sample(),
                    self@.current,
                    self@.telemetry.events,
                    ReportCounts {
                        reconnects: self.counters.reconnects,
                        route_changes: self.counters.route_changes,
                        transport_fallbacks: self.counters.transport_fallbacks,
                        circuit_trips: self.counters.circuit_trips,
                    },
                ),
                Err(e) => !self@.reports_real() && e@ == crate::metrics::synthetic_refused(),
            }),
    {
        let n: usize = self.telemetry.samples.len();
        let latest = if n > 0 {
            Some(&self.telemetry.samples[n - 1])
        } else {
            None
        };
        let mut events: Vec<Event> = Vec::new();
        let mut i: usize = 0;
        while i < self.telemetry.events.len()
            invariant
                i <= self.telemetry.events@.len(),
                views(events@) == self@.telemetry.events.take(i as int),
            decreases self.telemetry.events@.len() - i,
        {
            events.push(self.telemetry.events[i].clone());
            assert(self@.telemetry.events[i as int] == self.telemetry.events@[i as int]@);
            assert(views(events@) =~= self@.telemetry.events.take(i + 1));
            i = i + 1;
        }
        assert(views(events@) =~= self@.telemetry.events);
        let builder = DiagnosticBuilder::new(MeasuredSource::Real);
        builder.build(
            now,
            latest,
            self.current.as_ref(),
            &events,
            self.counters.reconnects,
            self.counters.route_changes,
            self.counters.transport_fallbacks,
            self.counters.circuit_trips,
        )
    }

    pub fn restriction_description(&self) -> (r: String)
        ensures
            r@ == "UDP connectivity appears degraded. "@,
    {
        "UDP connectivity appears degraded. ".to_owned()
    }
}

/// The place of the route that comes first by score.
fn best_of(candidates: &Vec<RouteCandidate>) -> (r: usize)
    requires
        candidates@.len() > 0,
    ensures
        r == best_at(views(candidates@)),
        r < candidates@.len(),
{
    let mut scores: Vec<(usize, Reading)> = Vec::new();
    let mut i: usize = 0;
    let ghost routes = views(candidates@);
    while i < candidates.len()
        invariant
            i <= candidates.len(),
            routes == views(candidates@),
            scores@ == entries(routes).take(i as int),
        decreases candidates.len() - i,
    {
        let score = match candidates[i].score {
            Some(s) => s,
            None => Reading { bits: ZERO },
        };
        assert(routes[i as int] == candidates@[i as int]@);
        scores.push((i, score));
        assert(scores@ =~= entries(routes).take(i + 1));
        i = i + 1;
    }
    assert(scores@ =~= entries(routes));
    proof {
        lemma_best_is_listed(routes);
    }
    let order = rank(&scores);
    order[0].0
}

/// The place of the first route of the id, or the number of routes.
fn find_route(candidates: &Vec<RouteCandidate>, id: &str) -> (r: usize)
    ensures
        r == first_index(views(candidates@), has_id(id@)),
        r <= candidates@.len(),
{
    let mut i: usize = 0;
    let ghost routes = views(candidates@);
    while i < candidates.len() && !same(&candidates[i].id, id)
        invariant
            i <= candidates.len(),
            routes == views(candidates@),
            forall|j: int| 0 <= j < i ==> (#[trigger] routes[j]).id != id@,
        decreases candidates.len() - i,
    {
        assert(routes[i as int] == candidates@[i as int]@);
        i = i + 1;
    }
    proof {
        if i < candidates.len() {
            assert(routes[i as int] == candidates@[i as int]@);
        }
        lemma_first_index_is(routes, has_id(id@), i as int);
    }
    i
}

proof fn lemma_best_is_listed(routes: Seq<RouteCandidateView>)
    requires
        routes.len() > 0,
        routes.len() <= usize::MAX,
    ensures
        ranked(entries(routes)).len() == routes.len(),
        0 <= best_at(routes) < routes.len(),
        ranked(entries(routes))[0] == entries(routes)[best_at(routes)],
{
    broadcast use vstd::seq_lib::group_to_multiset_ensures;

    let all = entries(routes);
    crate::ranking::law_ranked(all);
    let first = ranked(all)[0];
    assert(ranked(all).to_multiset().count(first) > 0) by {
        assert(ranked(all).contains(first));
    }
    assert(all.contains(first));
    let k = choose|k: int| 0 <= k < all.len() && all[k] == first;
    assert(all[k] == (k as usize, score_of(routes[k])));
}

/// Events leave everything but the logs as it is.
pub(crate) proof fn lemma_spikes_keep(e: EngineView, obs: EdgeObservation, loss: Reading, now: TimestampMs)
    ensures
        ({
            let after = e.spikes_reported(obs, loss, now);
            after == EngineView { telemetry: after.telemetry, events: after.events, ..e }
        }),
{
}

/// The choice of a route leaves the registry as it is.
proof fn lemma_choice_keeps(
    e: EngineView,
    offered: Seq<RouteCandidateView>,
    now: TimestampMs,
    ids: (Seq<char>, Seq<char>),
)
    ensures
        e.chosen(offered, now, ids).registry == e.registry,
        e.chosen(offered, now, ids).cfg == e.cfg,
        e.chosen(offered, now, ids).breakers == e.breakers,
{
    reveal(EngineView::chosen);
}

/// Following the health leaves the session and the route as they are.
proof fn lemma_health_keeps(
    e: EngineView,
    edge_id: Seq<char>,
    health_power: Reading,
    now: TimestampMs,
)
    ensures
        e.health_tracked(edge_id, health_power, now).session == e.session,
        e.health_tracked(edge_id, health_power, now).current == e.current,
{
}

proof fn lemma_same_stats_at(a: Seq<EdgeStatsView>, b: Seq<EdgeStatsView>, id: Seq<char>)
    requires
        a.len() == b.len(),
        forall|i: int| 0 <= i < a.len() ==> (#[trigger] a[i]).edge_id == b[i].edge_id,
    ensures
        stats_at(a, id) == stats_at(b, id),
{
    let fits = |s: EdgeStatsView| s.edge_id == id;
    lemma_first_index(a, fits);
    let at = first_index(a, fits);
    assert forall|j: int| 0 <= j < at implies !fits(#[trigger] b[j]) by {
        assert(!fits(a[j]));
    }
    lemma_first_index_is(b, fits, at);
}

/// The edge of a route is the edge that the route was made for, dashes in the
/// edge's id included.
pub proof fn law_route_names_its_edge(
    stats: EdgeStatsView,
    info: EdgeInfoView,
    transport: TransportKind,
    source: MeasuredSource,
)
    ensures
        edge_part(stats.route(info, transport, source).id) == stats.edge_id,
{
    reveal_strlit("-");
    crate::model::lemma_transport_names(transport, transport);
    let id = stats.route(info, transport, source).id;
    let at = stats.edge_id.len() as int;
    assert(id[at] == '-');
    assert forall|j: int| at < j < id.len() implies id[j] != '-' by {
        assert(id[j] == transport.name()[j - at - 1]);
    }
    crate::text::lemma_before_last_at(id, '-', at);
    assert(id.subrange(0, at) =~= stats.edge_id);
}

/// A failure of a transport reaches the breakers of its own routes and no
/// others.
pub proof fn law_breakers_belong_to_transports(route: RouteCandidateView, transport: TransportKind)
    ensures
        has_suffix(breaker_key(route), suffix_of(transport)) <==> route.transport == transport,
{
    reveal_strlit(":");
    crate::model::lemma_transport_names(route.transport, transport);
    crate::model::lemma_transport_names(transport, route.transport);
    let key = breaker_key(route);
    let suffix = suffix_of(transport);
    let own = route.transport.name();
    let asked = transport.name();
    let colon = key.len() - own.len() - 1;
    assert(key[colon] == ':');
    if has_suffix(key, suffix) {
        let from = key.len() - suffix.len();
        let tail = key.subrange(from, key.len() as int);
        assert(tail[0] == ':');
        assert(key[from] == ':');
        if from < colon {
            assert(tail[colon - from] == suffix[colon - from]);
            assert(suffix[colon - from] == asked[colon - from - 1]);
            assert(false);
        }
        if from > colon {
            assert(key[from] == own[from - colon - 1]);
            assert(false);
        }
        assert forall|i: int| 0 <= i < own.len() implies own[i] == asked[i] by {
            assert(tail[i + 1] == suffix[i + 1]);
            assert(key[colon + 1 + i] == own[i]);
        }
        assert(own =~= asked);
    } else if route.transport == transport {
        assert(key.subrange(key.len() - suffix.len(), key.len() as int) =~= suffix);
    }
}

/// The route that is preferred has the highest score of all that are offered,
/// where scores are numbers.
pub proof fn law_best_has_highest_score(routes: Seq<RouteCandidateView>, i: int)
    requires
        0 <= i < routes.len(),
        routes.len() <= usize::MAX,
        forall|j: int| 0 <= j < routes.len() ==> !score_of(#[trigger] routes[j]).is_nan(),
    ensures
        0 <= best_at(routes) < routes.len(),
        score_of(routes[best_at(routes)]).at_least(score_of(routes[i])),
{
    broadcast use vstd::seq_lib::group_to_multiset_ensures;

    let all = entries(routes);
    assert(crate::ranking::no_nan(all)) by {
        assert forall|j: int| 0 <= j < all.len() implies !(#[trigger] all[j]).1.is_nan() by {
            assert(!score_of(routes[j]).is_nan());
        }
    }
    crate::ranking::law_ranked(all);
    lemma_best_is_listed(routes);
    let order = ranked(all);
    assert(all.to_multiset().count(all[i]) > 0) by {
        assert(all.contains(all[i]));
    }
    assert(order.contains(all[i]));
    let k = choose|k: int| 0 <= k < order.len() && order[k] == all[i];
    assert(order[0].1.position() >= order[k].1.position());
    assert(!order[0].1.is_nan());
}

/// While a breaker is open, asking for routes does not change it.
proof fn lemma_open_stays(
    breakers: Seq<CircuitBreakerView>,
    routes: Seq<RouteCandidateView>,
    cfg: CircuitConfig,
    now: TimestampMs,
    key: Seq<char>,
    until: TimestampMs,
)
    requires
        breaker_at(breakers, key) < breakers.len(),
        breakers[breaker_at(breakers, key)].state == (CircuitState::Open { until }),
        now < until,
    ensures
        ({
            let after = asked_all(breakers, routes, cfg, now);
            let at = breaker_at(breakers, key);
            &&& after.len() >= breakers.len()
            &&& breaker_at(after, key) == at
            &&& after[at] == breakers[at]
        }),
    decreases routes.len(),
{
    if routes.len() > 0 {
        lemma_open_stays(breakers, routes.drop_last(), cfg, now, key, until);
        let before = asked_all(breakers, routes.drop_last(), cfg, now);
        let route = routes.last();
        let after = asked(before, route, cfg, now);
        let at = breaker_at(breakers, key);
        let place = breaker_at(before, breaker_key(route));
        lemma_first_index(before, keyed(key));
        lemma_first_index(before, keyed(breaker_key(route)));
        assert(keyed(key)(before[at]));
        assert forall|j: int| 0 <= j < at implies !keyed(key)(#[trigger] after[j]) by {
            assert(!keyed(key)(before[j]));
        }
        if place == at {
            assert(before[at].after_asking(now) == before[at]);
        }
        assert(after[at] == before[at]);
        lemma_first_index_is(after, keyed(key), at);
    }
}

proof fn lemma_passing_not_open(
    breakers: Seq<CircuitBreakerView>,
    routes: Seq<RouteCandidateView>,
    cfg: CircuitConfig,
    now: TimestampMs,
    key: Seq<char>,
    until: TimestampMs,
    i: int,
)
    requires
        breaker_at(breakers, key) < breakers.len(),
        breakers[breaker_at(breakers, key)].state == (CircuitState::Open { until }),
        now < until,
        0 <= i < passing(breakers, routes, cfg, now).len(),
    ensures
        0 <= passing(breakers, routes, cfg, now)[i] < routes.len(),
        breaker_key(routes[passing(breakers, routes, cfg, now)[i]]) != key,
    decreases routes.len(),
{
    let rest = passing(breakers, routes.drop_last(), cfg, now);
    lemma_open_stays(breakers, routes.drop_last(), cfg, now, key, until);
    if i < rest.len() {
        lemma_passing_not_open(breakers, routes.drop_last(), cfg, now, key, until, i);
        assert(routes[rest[i]] == routes.drop_last()[rest[i]]);
    }
}

/// A route whose breaker is open is not offered before its cooldown is over,
/// so it is not chosen either.
pub proof fn law_open_breaker_quarantines(
    e: EngineView,
    loss_powers: Seq<Reading>,
    now: TimestampMs,
    key: Seq<char>,
    until: TimestampMs,
    i: int,
)
    requires
        breaker_at(e.breakers, key) < e.breakers.len(),
        e.breakers[breaker_at(e.breakers, key)].state == (CircuitState::Open { until }),
        now < until,
        0 <= i < e.offered(loss_powers, now).len(),
    ensures
        breaker_key(e.offered(loss_powers, now)[i]) != key,
{
    lemma_passing_not_open(
        e.breakers,
        e.scored_routes(loss_powers),
        e.cfg.circuit,
        now,
        key,
        until,
        i,
    );
}

/// An observation keeps the session: its id and its start stay, whatever route
/// is chosen.
pub proof fn law_session_survives_observations(
    e: EngineView,
    obs: EdgeObservation,
    loss_powers: Seq<Reading>,
    health_power: Reading,
    now: TimestampMs,
    ids: (Seq<char>, Seq<char>),
)
    requires
        e.current is Some,
        e.session is Some,
    ensures
        ({
            let after = e.observed(obs, loss_powers, health_power, now, ids);
            &&& after.session is Some
            &&& after.session->Some_0.session_id == e.session->Some_0.session_id
            &&& after.session->Some_0.start_time == e.session->Some_0.start_time
            &&& after.current is Some
        }),
{
    reveal(EngineView::chosen);
    let probed = e.probed(obs, now);
    let loss = e.probed_stats(obs, now).packet_loss_ratio;
    lemma_spikes_keep(probed, obs, loss, now);
    let measured = e.measured(obs, now);
    let asked = measured.breakers_asked(loss_powers, now);
    let offered = measured.offered(loss_powers, now);
    let chosen = asked.chosen(offered, now, ids);
    assert(chosen.session is Some);
}

impl EngineView {
    /// The logs are within their bounds, and no sample is synthetic.
    pub open spec fn logs_in_order(self) -> bool {
        self.events.len() <= EVENT_LOG && self.telemetry.bounded() && self.telemetry.pristine()
    }
}

/// Whatever event is logged, the logs stay within their bounds.
pub proof fn law_events_stay_bounded(e: EngineView, event: EventView)
    requires
        e.logs_in_order(),
    ensures
        e.with_event(event).logs_in_order(),
        e.with_event(event).events.last() == event,
{
    crate::telemetry::law_events_stay_bounded(e.telemetry, event);
}

/// A fresh engine has its logs in order, and observations keep them so: the
/// telemetry never holds a synthetic sample.
pub proof fn law_telemetry_stays_honest(
    e: EngineView,
    cfg: EngineConfigView,
    obs: EdgeObservation,
    loss_powers: Seq<Reading>,
    health_power: Reading,
    now: TimestampMs,
    ids: (Seq<char>, Seq<char>),
)
    ensures
        EngineView::fresh(cfg).logs_in_order(),
        e.logs_in_order() ==> e.observed(obs, loss_powers, health_power, now, ids).logs_in_order(),
{
    if e.logs_in_order() {
        let probed = e.probed(obs, now);
        let loss = e.probed_stats(obs, now).packet_loss_ratio;
        lemma_spikes_in_order(probed, obs, loss, now);
        let measured = e.measured(obs, now);
        let asked = measured.breakers_asked(loss_powers, now);
        let offered = measured.offered(loss_powers, now);
        lemma_choice_in_order(asked, offered, now, ids);
        let chosen = asked.chosen(offered, now, ids);
        let after = chosen.health_tracked(obs.edge_id@, health_power, now);
        if chosen.uses_edge(obs.edge_id@) {
            let m = chosen.registry.stats[stats_at(chosen.registry.stats, obs.edge_id@)].metrics();
            let current = chosen.current->Some_0;
            crate::telemetry::law_buffer_stays_pristine(
                chosen.telemetry,
                TelemetrySampleView {
                    at: now,
                    network: chosen.network_type,
                    route: Some(current.id),
                    transport: Some(current.transport),
                    latency_ms: m.latency_ms,
                    jitter_ms: m.jitter_ms,
                    packet_loss_ratio: m.packet_loss_ratio,
                    source: MeasuredSource::Real,
                },
            );
        }
    }
}

proof fn lemma_passing_in_range(
    breakers: Seq<CircuitBreakerView>,
    routes: Seq<RouteCandidateView>,
    cfg: CircuitConfig,
    now: TimestampMs,
    i: int,
)
    requires
        0 <= i < passing(breakers, routes, cfg, now).len(),
    ensures
        0 <= passing(breakers, routes, cfg, now)[i] < routes.len(),
    decreases routes.len(),
{
    if i < passing(breakers, routes.drop_last(), cfg, now).len() {
        lemma_passing_in_range(breakers, routes.drop_last(), cfg, now, i);
    }
}

proof fn lemma_offered_are_real(e: EngineView, loss_powers: Seq<Reading>, now: TimestampMs)
    ensures
        forall|i: int|
            0 <= i < e.offered(loss_powers, now).len() ==> (#[trigger] e.offered(loss_powers, now)[i]).source
                == MeasuredSource::Real,
{
    let routes = e.scored_routes(loss_powers);
    assert forall|i: int| 0 <= i < e.offered(loss_powers, now).len() implies (
    #[trigger] e.offered(loss_powers, now)[i]).source == MeasuredSource::Real by {
        lemma_passing_in_range(e.breakers, routes, e.cfg.circuit, now, i);
        let place = passing(e.breakers, routes, e.cfg.circuit, now)[i];
        crate::edges::law_routes_are_supported(
            e.registry,
            e.registry.stats.len() as int,
            e.cfg.supported_transports,
            MeasuredSource::Real,
            place,
        );
    }
}

impl EngineView {
    /// The logs are in order, and the route in use is a real one.
    pub open spec fn honest(self) -> bool {
        self.logs_in_order() && (self.current is Some ==> self.current->Some_0.source
            == MeasuredSource::Real)
    }
}

/// A fresh engine is honest, observations keep it so, and an honest engine can
/// always report: nothing synthetic is ever in the way.
pub proof fn law_honest_engine_reports(
    e: EngineView,
    cfg: EngineConfigView,
    obs: EdgeObservation,
    loss_powers: Seq<Reading>,
    health_power: Reading,
    now: TimestampMs,
    ids: (Seq<char>, Seq<char>),
)
    requires
        e.measured(obs, now).offered(loss_powers, now).len() <= usize::MAX,
    ensures
        EngineView::fresh(cfg).honest(),
        e.honest() ==> e.observed(obs, loss_powers, health_power, now, ids).honest(),
        e.honest() ==> e.reports_real(),
{
    reveal(EngineView::chosen);
    law_telemetry_stays_honest(e, cfg, obs, loss_powers, health_power, now, ids);
    let probed = e.probed(obs, now);
    let loss = e.probed_stats(obs, now).packet_loss_ratio;
    lemma_spikes_keep(probed, obs, loss, now);
    let measured = e.measured(obs, now);
    let offered = measured.offered(loss_powers, now);
    lemma_offered_are_real(measured, loss_powers, now);
    if offered.len() > 0 {
        lemma_best_is_listed(offered);
        let best = offered[best_at(offered)];
        lemma_first_index(offered, has_id(best.id));
        assert(has_id(best.id)(best));
    }
}

proof fn lemma_spikes_in_order(e: EngineView, obs: EdgeObservation, loss: Reading, now: TimestampMs)
    requires
        e.logs_in_order(),
    ensures
        e.spikes_reported(obs, loss, now).logs_in_order(),
{
}

proof fn lemma_choice_in_order(
    e: EngineView,
    offered: Seq<RouteCandidateView>,
    now: TimestampMs,
    ids: (Seq<char>, Seq<char>),
)
    requires
        e.logs_in_order(),
    ensures
        e.chosen(offered, now, ids).logs_in_order(),
{
    reveal(EngineView::chosen);
}

/// A failure of a transport opens the closed breakers of its routes that are at
/// their threshold, until their cooldown is over; breakers of other transports
/// stay as they are.
pub proof fn law_failure_opens_breakers(
    e: EngineView,
    route: RouteCandidateView,
    transport: TransportKind,
    now: TimestampMs,
    at: int,
)
    requires
        0 <= at < e.breakers.len(),
        e.breakers[at].key == breaker_key(route),
    ensures
        ({
            let after = e.after_transport_failure(transport, now).breakers;
            &&& after.len() == e.breakers.len()
            &&& route.transport != transport ==> after[at] == e.breakers[at]
            &&& route.transport == transport && e.breakers[at].state == CircuitState::Closed
                && e.breakers[at].consecutive_failures + 1 >= e.breakers[at].cfg.failure_threshold
                ==> after[at].state == (CircuitState::Open {
                until: (now + e.breakers[at].cfg.open_cooldown_ms) as u64,
            })
        }),
{
    law_breakers_belong_to_transports(route, transport);
    lemma_breakers_failed(e, transport, now);
    lemma_fallback_keeps(e.breakers_failed(transport, now), transport, now);
}

/// A failure that opens no breaker is counted as no trip and reported as none;
/// else each breaker that opens counts once.
pub proof fn law_trips_are_openings(e: EngineView, transport: TransportKind, now: TimestampMs)
    requires
        e.can_count_failure(transport, now),
    ensures
        ({
            let after = e.breakers_failed(transport, now);
            let n = opened_by(e.breakers, suffix_of(transport), e.breakers.len() as int);
            &&& after.counters.circuit_trips == e.counters.circuit_trips + n
            &&& n == 0 ==> after.events == e.events && after.telemetry == e.telemetry
            &&& (forall|i: int|
                0 <= i < e.breakers.len() ==> (#[trigger] after.breakers[i]).trip_count
                    == e.breakers[i].trip_count) ==> n == 0
        }),
{
    lemma_breakers_failed(e, transport, now);
    let after = e.breakers_failed(transport, now);
    if forall|i: int|
        0 <= i < e.breakers.len() ==> (#[trigger] after.breakers[i]).trip_count
            == e.breakers[i].trip_count {
        lemma_none_opened(e, transport, now, e.breakers.len() as int);
    }
}

proof fn lemma_none_opened(e: EngineView, transport: TransportKind, now: TimestampMs, n: int)
    requires
        e.can_count_failure(transport, now),
        0 <= n <= e.breakers.len(),
        forall|i: int|
            0 <= i < e.breakers.len() ==> (#[trigger] failed_breakers(
                e.breakers,
                suffix_of(transport),
                now,
            )[i]).trip_count == e.breakers[i].trip_count,
    ensures
        opened_by(e.breakers, suffix_of(transport), n) == 0,
    decreases n,
{
    if n > 0 {
        lemma_none_opened(e, transport, now, n - 1);
        let after = failed_breakers(e.breakers, suffix_of(transport), now);
        assert(after[n - 1].trip_count == e.breakers[n - 1].trip_count);
        if has_suffix(e.breakers[n - 1].key, suffix_of(transport)) {
            assert(e.breakers[n - 1].counts_failure(now));
        }
    }
}

/// Counting a failure touches the breakers, the count of trips and the logs.
pub(crate) proof fn lemma_breakers_failed(e: EngineView, transport: TransportKind, now: TimestampMs)
    ensures
        ({
            let after = e.breakers_failed(transport, now);
            let n = opened_by(e.breakers, suffix_of(transport), e.breakers.len() as int);
            &&& after == (EngineView {
                breakers: failed_breakers(e.breakers, suffix_of(transport), now),
                counters: EngineCounters {
                    circuit_trips: (e.counters.circuit_trips + n) as u64,
                    ..e.counters
                },
                telemetry: after.telemetry,
                events: after.events,
                ..e
            })
            &&& n == 0 ==> after.telemetry == e.telemetry && after.events == e.events
        }),
{
    let n = opened_by(e.breakers, suffix_of(transport), e.breakers.len() as int);
    let failed = EngineView {
        breakers: failed_breakers(e.breakers, suffix_of(transport), now),
        counters: EngineCounters {
            circuit_trips: (e.counters.circuit_trips + n) as u64,
            ..e.counters
        },
        ..e
    };
    lemma_openings_are_logged(failed, n, now);
}

proof fn lemma_openings_are_logged(e: EngineView, n: nat, now: TimestampMs)
    ensures
        e.openings_reported(n, now) == (EngineView {
            telemetry: e.openings_reported(n, now).telemetry,
            events: e.openings_reported(n, now).events,
            ..e
        }),
    decreases n,
{
    if n > 0 {
        lemma_openings_are_logged(e, (n - 1) as nat, now);
    }
}

proof fn lemma_fallback_keeps(e: EngineView, transport: TransportKind, now: TimestampMs)
    ensures
        e.fallback_advanced(transport, now).breakers == e.breakers,
{
}

/// A failure of the transport in use moves the chain one step on where the
/// transport has failed or a breaker of it is open, unless it is blocked or the
/// last of the chain; a failure of another one moves nothing, and neither does
/// one that leaves the transport healthy.
pub proof fn law_failures_march_the_chain(
    e: EngineView,
    transport: TransportKind,
    now: TimestampMs,
)
    requires
        machine_at(e.transport_states, transport) < e.transport_states.len(),
        0 <= e.fallback.current_index < e.fallback.chain.len(),
    ensures
        ({
            let failed = e.breakers_failed(transport, now);
            let machine = e.transport_states[machine_at(
                e.transport_states,
                transport,
            )].after_failure();
            let after = e.after_transport_failure(transport, now).fallback;
            let moves = transport == e.fallback.current() && failure_signal(
                machine,
                failed.breakers,
            ) is Some && !e.fallback.is_blocked(transport, now) && e.fallback.current_index + 1
                < e.fallback.chain.len();
            &&& after.chain == e.fallback.chain
            &&& after.current_index == e.fallback.current_index + (if moves {
                1int
            } else {
                0
            })
            &&& machine.state == TransportHealth::Healthy ==> after.current_index
                == e.fallback.current_index
        }),
{
    lemma_breakers_failed(e, transport, now);
    let failed = e.breakers_failed(transport, now);
    let machine = failed.transport_states[machine_at(
        failed.transport_states,
        transport,
    )].after_failure();
    reveal_with_fuel(crate::fallback::first_signal, 2);
    if let Some(signal) = failure_signal(machine, failed.breakers) {
        let signals = seq![(transport, signal)];
        assert(signals.drop_last() =~= seq![]);
        assert(crate::fallback::first_signal(signals, failed.fallback.current()) is Some
            <==> transport == failed.fallback.current());
    }
}

/// Whether each of the transports has a machine.
pub open spec fn all_run(machines: Seq<TransportStateMachine>, kinds: Seq<TransportKind>) -> bool {
    forall|i: int| 0 <= i < kinds.len() ==> machine_at(machines, #[trigger] kinds[i]) < machines.len()
}

proof fn lemma_machines_stay(
    machines: Seq<TransportStateMachine>,
    at: int,
    machine: TransportStateMachine,
    kind: TransportKind,
)
    requires
        0 <= at < machines.len(),
        machine.transport == machines[at].transport,
    ensures
        machine_at(machines.update(at, machine), kind) == machine_at(machines, kind),
{
    let after = machines.update(at, machine);
    let n = machine_at(machines, kind);
    lemma_first_index(machines, runs(kind));
    assert forall|j: int| 0 <= j < n implies !runs(kind)(#[trigger] after[j]) by {
        assert(!runs(kind)(machines[j]));
    }
    lemma_first_index_is(after, runs(kind), n);
}

proof fn lemma_machines_for(kinds: Seq<TransportKind>, kind: TransportKind)
    requires
        kinds.contains(kind),
    ensures
        machine_at(machines_for(kinds), kind) < machines_for(kinds).len(),
    decreases kinds.len(),
{
    let rest = machines_for(kinds.drop_last());
    let all = machines_for(kinds);
    let i = choose|i: int| 0 <= i < kinds.len() && kinds[i] == kind;
    lemma_first_index(all, runs(kind));
    if i < kinds.len() - 1 {
        assert(kinds.drop_last()[i] == kind);
        lemma_machines_for(kinds.drop_last(), kind);
        lemma_first_index(rest, runs(kind));
        assert(runs(kind)(all[machine_at(rest, kind)]));
    } else if machine_at(rest, kinds.last()) >= rest.len() {
        assert(runs(kind)(all[all.len() - 1]));
    }
}

/// How many failures in a row it takes for a transport to have failed, with
/// the usual thresholds.
pub open spec fn failures_to_fail() -> nat {
    default_state_config().failed_after_failures as nat
}

/// Where the chain stands after so many failures of the transport in use.
pub open spec fn place_after(failures: nat, chain: Seq<TransportKind>) -> int {
    if failures / failures_to_fail() < chain.len() {
        (failures / failures_to_fail()) as int
    } else {
        chain.len() - 1
    }
}

/// The machine of the transport.
pub open spec fn machine_of(
    machines: Seq<TransportStateMachine>,
    kind: TransportKind,
) -> TransportStateMachine {
    machines[machine_at(machines, kind)]
}

/// What holds of a fresh engine after `n` failures of the transport in use.
pub open spec fn in_outage(e: EngineView, chain: Seq<TransportKind>, n: nat) -> bool {
    let at = place_after(n, chain);
    &&& e.fallback.chain == chain
    &&& e.fallback.current_index == at
    &&& e.breakers == Seq::<CircuitBreakerView>::empty()
    &&& all_run(e.transport_states, chain)
    &&& forall|i: int|
        0 <= i < e.fallback.blocked.len() ==> chain.take(at).contains(
            (#[trigger] e.fallback.blocked[i]).0,
        )
    &&& forall|i: int|
        at < i < chain.len() ==> machine_of(e.transport_states, #[trigger] chain[i])
            == TransportStateMachine::fresh(chain[i], default_state_config())
    &&& at < chain.len() - 1 ==> machine_of(e.transport_states, chain[at])
        == TransportStateMachine::fresh(chain[at], default_state_config()).after_failures(
        n % failures_to_fail(),
    )
}

proof fn lemma_machines_for_are_fresh(kinds: Seq<TransportKind>, kind: TransportKind)
    requires
        machine_at(machines_for(kinds), kind) < machines_for(kinds).len(),
    ensures
        machine_of(machines_for(kinds), kind) == TransportStateMachine::fresh(
            kind,
            default_state_config(),
        ),
{
    lemma_all_fresh(kinds);
    lemma_first_index(machines_for(kinds), runs(kind));
}

proof fn lemma_all_fresh(kinds: Seq<TransportKind>)
    ensures
        forall|i: int|
            0 <= i < machines_for(kinds).len() ==> (#[trigger] machines_for(kinds)[i])
                == TransportStateMachine::fresh(
                machines_for(kinds)[i].transport,
                default_state_config(),
            ),
    decreases kinds.len(),
{
    if kinds.len() > 0 {
        lemma_all_fresh(kinds.drop_last());
        let rest = machines_for(kinds.drop_last());
        let all = machines_for(kinds);
        assert forall|i: int| 0 <= i < all.len() implies (#[trigger] all[i])
            == TransportStateMachine::fresh(all[i].transport, default_state_config()) by {
            if i < rest.len() {
                assert(all[i] == rest[i]);
            }
        }
    }
}

proof fn lemma_outage_step(
    e: EngineView,
    chain: Seq<TransportKind>,
    n: nat,
    now: TimestampMs,
)
    requires
        chain.len() > 0,
        chain.no_duplicates(),
        in_outage(e, chain, n),
    ensures
        in_outage(e.after_transport_failure(e.fallback.current(), now), chain, n + 1),
{
    let at = place_after(n, chain);
    let kind = e.fallback.current();
    let failed = e.breakers_failed(kind, now);
    lemma_breakers_failed(e, kind, now);
    assert(failed.breakers =~= Seq::<CircuitBreakerView>::empty());
    assert(chain[at] == kind);
    let place = machine_at(e.transport_states, kind);
    lemma_first_index(e.transport_states, runs(kind));
    let machine = e.transport_states[place].after_failure();
    let after = e.after_transport_failure(kind, now);
    assert(after.transport_states == e.transport_states.update(place, machine));
    assert forall|i: int| 0 <= i < chain.len() implies machine_at(
        after.transport_states,
        #[trigger] chain[i],
    ) == machine_at(e.transport_states, chain[i]) by {
        lemma_machines_stay(e.transport_states, place, machine, chain[i]);
    }
    assert forall|i: int| 0 <= i < chain.len() && i != at implies machine_of(
        after.transport_states,
        #[trigger] chain[i],
    ) == machine_of(e.transport_states, chain[i]) by {
        lemma_first_index(e.transport_states, runs(chain[i]));
        assert(chain[i] != kind);
    }
    assert(machine_of(after.transport_states, kind) == machine);
    assert(all_run(after.transport_states, chain));
    let five = failures_to_fail() as int;
    let fresh = TransportStateMachine::fresh(kind, default_state_config());
    assert(five == 5);
    if at < chain.len() - 1 {
        reveal_with_fuel(TransportStateMachine::after_failures, 6);
        assert(n % 5 == 0 || n % 5 == 1 || n % 5 == 2 || n % 5 == 3 || n % 5 == 4);
        assert(machine == fresh.after_failures((n % 5 + 1) as nat));
        if n % 5 == 4 {
            assert(machine.state == TransportHealth::Failed);
            assert((n + 1) / 5 == n / 5 + 1 && (n + 1) % 5 == 0);
            lemma_outage_moves(e.fallback, chain, at, now);
            assert(failure_signal(machine, failed.breakers) == Some(FailureSignal::StateFailed));
            assert(place_after(n + 1, chain) == at + 1);
        } else {
            assert((n + 1) / 5 == n / 5 && (n + 1) % 5 == n % 5 + 1);
            assert(machine.state != TransportHealth::Failed);
            assert(failure_signal(machine, failed.breakers) is None);
            assert(place_after(n + 1, chain) == at);
        }
    } else {
        assert((n + 1) / 5 >= n / 5);
        assert(place_after(n + 1, chain) == at);
    }
}

/// The first failure reported of a transport that was not left before moves
/// the chain past it.
proof fn lemma_outage_moves(
    f: FallbackView,
    chain: Seq<TransportKind>,
    at: int,
    now: TimestampMs,
)
    requires
        chain.no_duplicates(),
        f.chain == chain,
        f.current_index == at,
        0 <= at < chain.len() - 1,
        forall|i: int|
            0 <= i < f.blocked.len() ==> chain.take(at).contains((#[trigger] f.blocked[i]).0),
    ensures
        ({
            let signals = seq![(chain[at], FailureSignal::StateFailed)];
            let after = f.observed(signals, now);
            &&& f.moves(signals, now)
            &&& after.chain == chain
            &&& after.current_index == at + 1
            &&& forall|i: int|
                0 <= i < after.blocked.len() ==> chain.take(at + 1).contains(
                    (#[trigger] after.blocked[i]).0,
                )
        }),
{
    let signals = seq![(chain[at], FailureSignal::StateFailed)];
    crate::fallback::lemma_signal_is_found(chain[at], FailureSignal::StateFailed);
    assert forall|i: int| 0 <= i < f.blocked.len() implies (#[trigger] f.blocked[i]).0
        != chain[at] by {
        let left = f.blocked[i].0;
        let k = choose|k: int| 0 <= k < chain.take(at).len() && chain.take(at)[k] == left;
        assert(chain[k] == left);
    }
    let after = f.observed(signals, now);
    assert forall|i: int| 0 <= i < after.blocked.len() implies chain.take(at + 1).contains(
        (#[trigger] after.blocked[i]).0,
    ) by {
        let left = after.blocked[i].0;
        if i < f.blocked.len() {
            assert(chain.take(at).contains(f.blocked[i].0));
            let k = choose|k: int| 0 <= k < chain.take(at).len() && chain.take(at)[k] == left;
            assert(chain.take(at + 1)[k] == left);
        } else {
            assert(chain.take(at + 1)[at] == left);
        }
    }
}

proof fn lemma_outage(cfg: EngineConfigView, times: Seq<TimestampMs>)
    requires
        cfg.fallback_order.len() > 0,
        cfg.fallback_order.no_duplicates(),
        forall|i: int|
            0 <= i < cfg.fallback_order.len() ==> cfg.supported_transports.contains(
                #[trigger] cfg.fallback_order[i],
            ),
    ensures
        in_outage(EngineView::fresh(cfg).after_outage(times), cfg.fallback_order, times.len()),
    decreases times.len(),
{
    let e = EngineView::fresh(cfg);
    let chain = cfg.fallback_order;
    if times.len() == 0 {
        assert forall|i: int| 0 <= i < chain.len() implies machine_at(
            e.transport_states,
            #[trigger] chain[i],
        ) < e.transport_states.len() && machine_of(e.transport_states, chain[i])
            == TransportStateMachine::fresh(chain[i], default_state_config()) by {
            lemma_machines_for(cfg.supported_transports, chain[i]);
            lemma_machines_for_are_fresh(cfg.supported_transports, chain[i]);
        }
        assert(place_after(0, chain) == 0);
        assert(machine_at(e.transport_states, chain[0]) < e.transport_states.len());
    } else {
        lemma_outage(cfg, times.drop_last());
        lemma_outage_step(
            e.after_outage(times.drop_last()),
            chain,
            times.drop_last().len(),
            times.last(),
        );
    }
}

/// An outage takes a fresh engine down its chain to the end, one transport for
/// as many failures as make it fail and not one sooner; with the usual chain
/// the end is a direct connection.
pub proof fn law_outage_reaches_the_end(cfg: EngineConfigView, times: Seq<TimestampMs>)
    requires
        cfg.fallback_order.len() > 0,
        cfg.fallback_order.no_duplicates(),
        forall|i: int|
            0 <= i < cfg.fallback_order.len() ==> cfg.supported_transports.contains(
                #[trigger] cfg.fallback_order[i],
            ),
    ensures
        EngineView::fresh(cfg).after_outage(times).fallback.current()
            == cfg.fallback_order[place_after(times.len(), cfg.fallback_order)],
        times.len() >= failures_to_fail() * cfg.fallback_order.len() ==> EngineView::fresh(
            cfg,
        ).after_outage(times).fallback.current() == cfg.fallback_order.last(),
{
    lemma_outage(cfg, times);
}

/// The policy on direct traffic is that of the configuration, whatever is
/// observed and whatever fails: under the strict one no traffic ever goes
/// around the tunnel.
pub proof fn law_policy_stands(
    e: EngineView,
    obs: EdgeObservation,
    loss_powers: Seq<Reading>,
    health_power: Reading,
    transport: TransportKind,
    symptom: Symptom,
    event: EventView,
    now: TimestampMs,
    ids: (Seq<char>, Seq<char>),
)
    ensures
        e.observed(obs, loss_powers, health_power, now, ids).cfg == e.cfg,
        e.after_transport_failure(transport, now).cfg == e.cfg,
        e.after_transport_success(transport, now).cfg == e.cfg,
        e.hinted(symptom).cfg == e.cfg,
        e.with_event(event).cfg == e.cfg,
{
    reveal(EngineView::chosen);
    let n = closed_after(e.breakers, suffix_of(transport), e.breakers.len() as int);
    lemma_closings_keep_the_configuration(e.after_success_of(transport, now), n, now);
    lemma_breakers_failed(e, transport, now);
}

proof fn lemma_closings_keep_the_configuration(e: EngineView, n: nat, now: TimestampMs)
    ensures
        e.closings_reported(n, now).cfg == e.cfg,
    decreases n,
{
    if n > 0 {
        lemma_closings_keep_the_configuration(e, (n - 1) as nat, now);
    }
}

} // verus!
