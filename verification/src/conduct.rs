//! What the engine keeps to, whatever it is told: laws over what it is given
//! and what it then holds.
use vstd::prelude::*;

use crate::circuit::{CircuitBreakerView, CircuitConfig, CircuitState};
use crate::edges::{stats_at, EdgeStatsView};
use crate::engine::{
    asked, asked_all, best_at, breaker_at, breaker_key, closed_after, edge_part, has_id, keyed,
    law_best_has_highest_score, law_breakers_belong_to_transports, lemma_breakers_failed,
    lemma_spikes_keep, machine_at, may_pass, passing, runs, suffix_of, EdgeObservation, EngineView,
};
use crate::events::{EventKind, EventView, Severity};
use crate::health::level_of;
use crate::hysteresis::SwitchReason;
use crate::model::{RouteCandidateView, TransportKind};
use crate::ratio::quotient;
use crate::reading::{Reading, SIGN, UNMEASURED};
use crate::search::{lemma_first_index, lemma_first_index_is};
use crate::state::TransportHealth;
use crate::text::has_suffix;
use crate::TimestampMs;

verus! {

/// An engine without a route takes the best of those that are offered, begins
/// a session on it, and counts no change.
pub proof fn law_first_route_is_the_best_offered(
    e: EngineView,
    routes: Seq<RouteCandidateView>,
    now: TimestampMs,
    ids: (Seq<char>, Seq<char>),
    j: int,
)
    requires
        e.current is None,
        0 <= j < routes.len() <= usize::MAX,
        forall|i: int|
            0 <= i < routes.len() ==> (#[trigger] routes[i]).score is Some
                && !routes[i].score->Some_0.is_nan(),
    ensures
        ({
            let after = e.chosen(routes, now, ids);
            &&& after.current is Some
            &&& routes.contains(after.current->Some_0)
            &&& after.current->Some_0.score->Some_0.position() >= routes[j].score->Some_0.position()
            &&& after.session is Some
            &&& after.session->Some_0.session_id == ids.0
            &&& after.session->Some_0.connection_id == ids.1
            &&& after.session->Some_0.transport == after.current->Some_0.transport
            &&& after.session->Some_0.edge_id == Some(edge_part(after.current->Some_0.id))
            &&& after.session->Some_0.start_time == now
            &&& after.counters == e.counters
            &&& after.events.last().kind == EventKind::EdgeSelected
            &&& after.events.last().timestamp == now
        }),
{
    reveal(EngineView::chosen);
    assert forall|i: int| 0 <= i < routes.len() implies !crate::engine::score_of(
        #[trigger] routes[i],
    ).is_nan() by {
        assert(routes[i].score is Some);
    }
    law_best_has_highest_score(routes, j);
    assert(routes[j].score is Some);
    assert(routes[best_at(routes)].score is Some);
}

/// Where nothing is offered nothing is chosen, and nothing changes.
pub proof fn law_nothing_offered_changes_nothing(
    e: EngineView,
    now: TimestampMs,
    ids: (Seq<char>, Seq<char>),
)
    ensures
        e.chosen(seq![], now, ids) == e,
{
    reveal(EngineView::chosen);
}

/// The one route that scores higher than all others is the one that is looked
/// at.
proof fn lemma_only_best(routes: Seq<RouteCandidateView>, b: int)
    requires
        0 <= b < routes.len() <= usize::MAX,
        forall|i: int|
            0 <= i < routes.len() ==> (#[trigger] routes[i]).score is Some
                && !routes[i].score->Some_0.is_nan(),
        forall|i: int|
            0 <= i < routes.len() && i != b ==> (#[trigger] routes[i]).score->Some_0.position()
                < routes[b].score->Some_0.position(),
    ensures
        best_at(routes) == b,
{
    assert forall|i: int| 0 <= i < routes.len() implies !crate::engine::score_of(
        #[trigger] routes[i],
    ).is_nan() by {
        assert(routes[i].score is Some);
    }
    law_best_has_highest_score(routes, b);
    let k = best_at(routes);
    assert(routes[k].score is Some && routes[b].score is Some);
}

/// An engine with a route asks its decider about the route that scores
/// highest. Unless that says to switch, route, session and counts stay, and
/// nothing is reported.
pub proof fn law_route_stays_unless_switched(
    e: EngineView,
    routes: Seq<RouteCandidateView>,
    now: TimestampMs,
    ids: (Seq<char>, Seq<char>),
    b: int,
)
    requires
        e.current is Some,
        0 <= b < routes.len() <= usize::MAX,
        forall|i: int|
            0 <= i < routes.len() ==> (#[trigger] routes[i]).score is Some
                && !routes[i].score->Some_0.is_nan(),
        forall|i: int|
            0 <= i < routes.len() && i != b ==> (#[trigger] routes[i]).score->Some_0.position()
                < routes[b].score->Some_0.position(),
        !(e.decider.verdict(routes[b], now) is Switch),
    ensures
        ({
            let after = e.chosen(routes, now, ids);
            &&& after.current == e.current
            &&& after.session == e.session
            &&& after.counters == e.counters
            &&& after.events == e.events
            &&& after.decider == e.decider.evaluated(routes[b], now)
        }),
{
    reveal(EngineView::chosen);
    lemma_only_best(routes, b);
}

/// A verdict to switch is carried out: the engine takes that route, counts a
/// change where the transport changes, and moves the session where transport or
/// edge change.
pub proof fn law_switch_is_carried_out(
    e: EngineView,
    routes: Seq<RouteCandidateView>,
    now: TimestampMs,
    ids: (Seq<char>, Seq<char>),
    b: int,
)
    requires
        e.current is Some,
        e.session is Some,
        e.session->Some_0.migration_count < u64::MAX,
        e.counters.route_changes < u64::MAX,
        e.counters.transport_fallbacks < u64::MAX,
        0 <= b < routes.len() <= usize::MAX,
        forall|i: int|
            0 <= i < routes.len() ==> (#[trigger] routes[i]).score is Some
                && !routes[i].score->Some_0.is_nan(),
        forall|i: int|
            0 <= i < routes.len() && i != b ==> (#[trigger] routes[i]).score->Some_0.position()
                < routes[b].score->Some_0.position(),
        forall|i: int| 0 <= i < b ==> (#[trigger] routes[i]).id != routes[b].id,
        e.decider.verdict(routes[b], now) is Switch,
    ensures
        ({
            let after = e.chosen(routes, now, ids);
            let before = e.current->Some_0;
            let moved = before.transport != routes[b].transport || edge_part(before.id)
                != edge_part(routes[b].id);
            &&& after.current == Some(routes[b])
            &&& after.session is Some
            &&& after.session->Some_0.session_id == e.session->Some_0.session_id
            &&& after.session->Some_0.last_healthy_time == now
            &&& moved ==> {
                &&& after.session->Some_0.migration_count == e.session->Some_0.migration_count + 1
                &&& after.session->Some_0.connection_id == ids.1
                &&& after.session->Some_0.transport == routes[b].transport
                &&& after.session->Some_0.edge_id == Some(edge_part(routes[b].id))
            }
            &&& !moved ==> after.session->Some_0.migration_count
                == e.session->Some_0.migration_count && after.session->Some_0.connection_id
                == e.session->Some_0.connection_id
            &&& before.transport != routes[b].transport ==> after.counters.route_changes
                == e.counters.route_changes + 1 && after.counters.transport_fallbacks
                == e.counters.transport_fallbacks + 1
            &&& before.transport == routes[b].transport ==> after.counters == e.counters
            &&& after.counters.circuit_trips == e.counters.circuit_trips
            &&& after.events.last().kind == EventKind::RouteChanged
            &&& after.events.last().timestamp == now
            &&& after.registry == e.registry
            &&& after.breakers == e.breakers
        }),
{
    reveal(EngineView::chosen);
    lemma_only_best(routes, b);
    lemma_first_index_is(routes, has_id(routes[b].id), b);
    crate::hysteresis::law_only_bans_put_off(e.decider, routes[b], now);
}

/// A route that was left for another is not taken back before the cooldown
/// that the configuration sets is over.
pub proof fn law_route_that_was_left_waits(
    e: EngineView,
    routes: Seq<RouteCandidateView>,
    now: TimestampMs,
    ids: (Seq<char>, Seq<char>),
    b: int,
    back: RouteCandidateView,
    later: TimestampMs,
)
    requires
        e.current is Some,
        0 <= b < routes.len() <= usize::MAX,
        forall|i: int|
            0 <= i < routes.len() ==> (#[trigger] routes[i]).score is Some
                && !routes[i].score->Some_0.is_nan(),
        forall|i: int|
            0 <= i < routes.len() && i != b ==> (#[trigger] routes[i]).score->Some_0.position()
                < routes[b].score->Some_0.position(),
        e.decider.verdict(routes[b], now) is Switch,
        e.current->Some_0.id != routes[b].id,
        back.id == e.current->Some_0.id,
        now + e.cfg.hysteresis.route_cooldown_ms <= u64::MAX,
        later < now + e.cfg.hysteresis.route_cooldown_ms,
    ensures
        e.chosen(routes, now, ids).decider.verdict(back, later) is NotYet,
{
    reveal(EngineView::chosen);
    lemma_only_best(routes, b);
    crate::hysteresis::law_only_bans_put_off(e.decider, routes[b], now);
    let decider = e.decider.evaluated(routes[b], now);
    let until = (now + e.cfg.hysteresis.route_cooldown_ms) as u64;
    crate::hysteresis::law_bans_are_separate(decider, back.id, until, routes[b].id, 0);
    let bans = decider.with_cooldown(back.id, until).state.cooldowns;
    let k = choose|k: int| 0 <= k < bans.len() && bans[k] == (back.id, until);
    assert(bans[k].0 == back.id && later < bans[k].1);
    let after = e.chosen(routes, now, ids);
    assert(after.decider == decider.with_cooldown(back.id, until));
    assert(after.decider.banned(back.id, later));
}

/// Whether nothing stands against the key: no breaker of it, or a closed one.
pub open spec fn unbroken(breakers: Seq<CircuitBreakerView>, key: Seq<char>) -> bool {
    forall|i: int|
        0 <= i < breakers.len() && (#[trigger] breakers[i]).key == key ==> breakers[i].state
            == CircuitState::Closed
}

proof fn lemma_asking_leaves_unbroken(
    breakers: Seq<CircuitBreakerView>,
    routes: Seq<RouteCandidateView>,
    cfg: CircuitConfig,
    now: TimestampMs,
    key: Seq<char>,
)
    requires
        unbroken(breakers, key),
    ensures
        unbroken(asked_all(breakers, routes, cfg, now), key),
    decreases routes.len(),
{
    if routes.len() > 0 {
        lemma_asking_leaves_unbroken(breakers, routes.drop_last(), cfg, now, key);
        let before = asked_all(breakers, routes.drop_last(), cfg, now);
        let route = routes.last();
        let after = asked(before, route, cfg, now);
        lemma_first_index(before, keyed(breaker_key(route)));
        let at = breaker_at(before, breaker_key(route));
        assert forall|i: int| 0 <= i < after.len() && (
        #[trigger] after[i]).key == key implies after[i].state == CircuitState::Closed by {
            if i != at {
                assert(after[i] == before[i]);
            } else if at < before.len() {
                assert(before[at].key == key);
            }
        }
    }
}

proof fn lemma_unbroken_passes(
    breakers: Seq<CircuitBreakerView>,
    routes: Seq<RouteCandidateView>,
    cfg: CircuitConfig,
    now: TimestampMs,
    k: int,
) -> (i: int)
    requires
        0 <= k < routes.len(),
        unbroken(breakers, breaker_key(routes[k])),
    ensures
        0 <= i < passing(breakers, routes, cfg, now).len(),
        passing(breakers, routes, cfg, now)[i] == k,
    decreases routes.len(),
{
    let front = routes.drop_last();
    if k < front.len() {
        assert(front[k] == routes[k]);
        lemma_unbroken_passes(breakers, front, cfg, now, k)
    } else {
        let before = asked_all(breakers, front, cfg, now);
        let key = breaker_key(routes[k]);
        lemma_asking_leaves_unbroken(breakers, front, cfg, now, key);
        lemma_first_index(before, keyed(key));
        let at = breaker_at(before, key);
        if at < before.len() {
            assert(before[at].key == key);
        }
        assert(may_pass(before, routes[k], now));
        passing(breakers, front, cfg, now).len() as int
    }
}

/// A route whose breaker is closed, or was never needed, is offered, with its
/// score.
pub proof fn law_unbroken_routes_are_offered(
    e: EngineView,
    loss_powers: Seq<Reading>,
    now: TimestampMs,
    k: int,
)
    requires
        0 <= k < e.routes().len(),
        forall|i: int|
            0 <= i < e.breakers.len() && (#[trigger] e.breakers[i]).key == breaker_key(
                e.routes()[k],
            ) ==> e.breakers[i].state == CircuitState::Closed,
    ensures
        e.offered(loss_powers, now).contains(e.scored_routes(loss_powers)[k]),
        e.scored_routes(loss_powers)[k].id == e.routes()[k].id,
        e.scored_routes(loss_powers)[k].transport == e.routes()[k].transport,
        e.scored_routes(loss_powers)[k].score is Some,
{
    let routes = e.scored_routes(loss_powers);
    assert(breaker_key(routes[k]) == breaker_key(e.routes()[k]));
    let i = lemma_unbroken_passes(e.breakers, routes, e.cfg.circuit, now, k);
    assert(e.offered(loss_powers, now)[i] == routes[k]);
}

/// Only routes over known edges are offered, each as it was scored.
pub proof fn law_offered_routes_are_the_scored_ones(
    e: EngineView,
    loss_powers: Seq<Reading>,
    now: TimestampMs,
    i: int,
)
    requires
        0 <= i < e.offered(loss_powers, now).len(),
    ensures
        e.scored_routes(loss_powers).contains(e.offered(loss_powers, now)[i]),
{
    let routes = e.scored_routes(loss_powers);
    lemma_passing_within(e.breakers, routes, e.cfg.circuit, now, i);
    let place = passing(e.breakers, routes, e.cfg.circuit, now)[i];
    assert(routes[place] == e.offered(loss_powers, now)[i]);
}

proof fn lemma_passing_within(
    breakers: Seq<CircuitBreakerView>,
    routes: Seq<RouteCandidateView>,
    cfg: CircuitConfig,
    now: TimestampMs,
    i: int,
)
    requires
        0 <= i < passing(breakers, routes, cfg, now).len(),
    ensures
        0 <= passing(breakers, routes, cfg, now)[i] < routes.len(),
    decreases routes.len(),
{
    if i < passing(breakers, routes.drop_last(), cfg, now).len() {
        lemma_passing_within(breakers, routes.drop_last(), cfg, now, i);
    }
}

/// A probe goes into the statistics of the edge that it is of, at its time, and
/// into those of no other; edges, route, session and breakers stay.
pub proof fn law_probe_is_of_its_edge(e: EngineView, obs: EdgeObservation, now: TimestampMs, j: int)
    requires
        e.knows(obs.edge_id@),
        e.counts_probe_of(obs.edge_id@),
        0 <= j < e.registry.stats.len(),
        forall|a: int, b: int|
            0 <= a < b < e.registry.stats.len() ==> (#[trigger] e.registry.stats[a]).edge_id != (
            #[trigger] e.registry.stats[b]).edge_id,
    ensures
        ({
            let after = e.measured(obs, now);
            let old_stats = e.registry.stats[j];
            let new_stats = after.registry.stats[j];
            &&& after.registry.edges == e.registry.edges
            &&& after.registry.stats.len() == e.registry.stats.len()
            &&& after.current == e.current && after.session == e.session && after.breakers
                == e.breakers && after.counters == e.counters && after.decider == e.decider
            &&& old_stats.edge_id != obs.edge_id@ ==> new_stats == old_stats
            &&& old_stats.edge_id == obs.edge_id@ ==> {
                &&& new_stats.edge_id == old_stats.edge_id
                &&& new_stats.samples == old_stats.samples + 1
                &&& new_stats.last_probed_at == Some(now)
                &&& obs.lost ==> new_stats.failures == old_stats.failures + 1
                    && new_stats.successes == old_stats.successes
                &&& !obs.lost ==> new_stats.successes == old_stats.successes + 1
                    && new_stats.failures == old_stats.failures
                &&& new_stats.packet_loss_ratio == quotient(
                    new_stats.failures,
                    (new_stats.successes + new_stats.failures) as u64,
                )
                &&& old_stats.samples == 0 ==> new_stats.latency_ms == obs.latency_ms
                    && new_stats.jitter_ms == obs.jitter_ms
                &&& obs.handshake_ms is None ==> new_stats.handshake_latency_ms
                    == old_stats.handshake_latency_ms
                &&& obs.handshake_ms is Some && old_stats.handshake_latency_ms.bits == UNMEASURED
                    ==> new_stats.handshake_latency_ms == obs.handshake_ms->Some_0
            }
        }),
{
    let probed = e.probed(obs, now);
    let loss = e.probed_stats(obs, now).packet_loss_ratio;
    lemma_spikes_keep(probed, obs, loss, now);
    let fits = |s: EdgeStatsView| s.edge_id == obs.edge_id@;
    lemma_first_index(e.registry.stats, fits);
    let at = stats_at(e.registry.stats, obs.edge_id@);
    assert(fits(e.registry.stats[at]));
    if e.registry.stats[j].edge_id == obs.edge_id@ && j != at {
        assert(e.registry.stats[j].edge_id == e.registry.stats[at].edge_id);
        assert(j < at || at < j);
    }
}

/// A probe that is not lost, on an edge whose loss is below the threshold, with
/// jitter and latency below theirs, reports nothing.
pub proof fn law_quiet_probe_reports_nothing(e: EngineView, obs: EdgeObservation, now: TimestampMs)
    requires
        !obs.lost,
        !e.probed_stats(obs, now).packet_loss_ratio.at_least(e.cfg.loss_spike_threshold),
        !obs.jitter_ms.at_least(e.cfg.jitter_spike_threshold_ms),
        !obs.latency_ms.at_least(e.cfg.latency_spike_threshold_ms),
    ensures
        e.measured(obs, now).events == e.events,
        e.measured(obs, now).telemetry == e.telemetry,
{
}

/// Whether an event of the kind was logged at the time.
pub open spec fn logged(events: Seq<EventView>, kind: EventKind, now: TimestampMs) -> bool {
    exists|i: int|
        0 <= i < events.len() && (#[trigger] events[i]).kind == kind && events[i].timestamp == now
}

proof fn lemma_with_spike_logs(e: EngineView, kind: EventKind, now: TimestampMs, reason: Seq<char>)
    requires
        e.events.len() <= 511,
        forall|i: int|
            0 <= i < e.events.len() && (#[trigger] e.events[i]).kind == kind ==> e.events[i].timestamp
                == now || now - e.events[i].timestamp >= 500,
    ensures
        logged(e.with_spike(kind, now, reason).events, kind, now),
        e.with_spike(kind, now, reason).events.len() <= e.events.len() + 1,
        e.events.is_prefix_of(e.with_spike(kind, now, reason).events),
        forall|i: int|
            0 <= i < e.with_spike(kind, now, reason).events.len() ==> (#[trigger] e.with_spike(
                kind,
                now,
                reason,
            ).events[i]).kind == kind || i < e.events.len(),
{
    let after = e.with_spike(kind, now, reason);
    if e.just_reported(kind, now) {
        let i = choose|i: int|
            0 <= i < e.events.len() && (#[trigger] e.events[i]).kind == kind
                && crate::health::elapsed(now, e.events[i].timestamp) < 500;
        assert(e.events[i].timestamp == now);
        assert(after.events[i].kind == kind);
    } else {
        assert(after.events.last().kind == kind);
        assert(after.events[after.events.len() - 1].timestamp == now);
    }
}

/// A jitter, a latency or a loss at or above its threshold is reported, each by
/// its own kind of event, unless one of that kind was reported less than half a
/// second before.
pub proof fn law_spikes_are_reported(e: EngineView, obs: EdgeObservation, now: TimestampMs)
    requires
        e.events.len() <= 508,
        forall|i: int| 0 <= i < e.events.len() ==> now - (#[trigger] e.events[i]).timestamp >= 500,
    ensures
        ({
            let after = e.measured(obs, now).events;
            let loss = e.probed_stats(obs, now).packet_loss_ratio;
            &&& obs.lost ==> logged(after, EventKind::PacketLossSpike, now)
            &&& e.cfg.loss_spike_threshold.bits < SIGN && loss.at_least(e.cfg.loss_spike_threshold)
                ==> logged(after, EventKind::PacketLossSpike, now)
            &&& obs.jitter_ms.at_least(e.cfg.jitter_spike_threshold_ms) ==> logged(
                after,
                EventKind::JitterSpike,
                now,
            )
            &&& obs.latency_ms.at_least(e.cfg.latency_spike_threshold_ms) ==> logged(
                after,
                EventKind::LatencySpike,
                now,
            )
        }),
{
    let p = e.probed(obs, now);
    let loss = e.probed_stats(obs, now).packet_loss_ratio;
    let a = if obs.lost {
        p.with_spike(EventKind::PacketLossSpike, now, "loss spike"@)
    } else {
        p
    };
    lemma_with_spike_logs(p, EventKind::PacketLossSpike, now, "loss spike"@);
    assert forall|i: int|
        0 <= i < a.events.len() implies (#[trigger] a.events[i]).timestamp == now || now
        - a.events[i].timestamp >= 500 by {
        if i < e.events.len() {
            assert(a.events[i] == e.events[i]);
        }
    }
    lemma_with_spike_logs(a, EventKind::PacketLossSpike, now, "sustained loss above threshold"@);
    let b = if p.cfg.loss_spike_threshold.bits < SIGN && loss.at_least(p.cfg.loss_spike_threshold) {
        a.with_spike(EventKind::PacketLossSpike, now, "sustained loss above threshold"@)
    } else {
        a
    };
    assert forall|i: int|
        0 <= i < b.events.len() implies (#[trigger] b.events[i]).timestamp == now || now
        - b.events[i].timestamp >= 500 by {
        if i < a.events.len() {
            assert(b.events[i] == a.events[i]);
        }
    }
    lemma_with_spike_logs(b, EventKind::JitterSpike, now, "jitter spike"@);
    let c = if obs.jitter_ms.at_least(p.cfg.jitter_spike_threshold_ms) {
        b.with_spike(EventKind::JitterSpike, now, "jitter spike"@)
    } else {
        b
    };
    assert forall|i: int|
        0 <= i < c.events.len() implies (#[trigger] c.events[i]).timestamp == now || now
        - c.events[i].timestamp >= 500 by {
        if i < b.events.len() {
            assert(c.events[i] == b.events[i]);
        }
    }
    lemma_with_spike_logs(c, EventKind::LatencySpike, now, "latency spike"@);
    let d = e.measured(obs, now);
    lemma_logged_stays(a.events, b.events, EventKind::PacketLossSpike, now);
    lemma_logged_stays(b.events, c.events, EventKind::PacketLossSpike, now);
    lemma_logged_stays(c.events, d.events, EventKind::PacketLossSpike, now);
    lemma_logged_stays(c.events, d.events, EventKind::JitterSpike, now);
}

proof fn lemma_logged_stays(
    before: Seq<EventView>,
    after: Seq<EventView>,
    kind: EventKind,
    now: TimestampMs,
)
    requires
        before.is_prefix_of(after),
    ensures
        logged(before, kind, now) ==> logged(after, kind, now),
{
    if logged(before, kind, now) {
        let i = choose|i: int|
            0 <= i < before.len() && (#[trigger] before[i]).kind == kind && before[i].timestamp
                == now;
        assert(after[i] == before[i]);
    }
}

/// What is measured of the edge in use is what the decider, the telemetry and
/// a report then know of the route: latency, jitter and loss, each its own. An
/// observation of another edge tells them nothing.
pub proof fn law_health_is_of_the_edge_in_use(
    e: EngineView,
    edge_id: Seq<char>,
    health_power: Reading,
    now: TimestampMs,
    at: int,
)
    requires
        e.knows(edge_id),
        at == stats_at(e.registry.stats, edge_id),
    ensures
        ({
            let after = e.health_tracked(edge_id, health_power, now);
            let s = e.registry.stats[at];
            let used = e.current is Some && edge_part(e.current->Some_0.id) == edge_id;
            &&& !used ==> after == e
            &&& used ==> {
                let sample = after.telemetry.samples.last();
                let m = after.decider.state.current_metrics;
                &&& after.current == e.current && after.session == e.session && after.registry
                    == e.registry && after.events == e.events && after.counters == e.counters
                &&& sample.at == now
                &&& sample.route == Some(e.current->Some_0.id)
                &&& sample.transport == Some(e.current->Some_0.transport)
                &&& sample.network == e.network_type
                &&& sample.packet_loss_ratio == s.packet_loss_ratio
                &&& m.packet_loss_ratio == s.packet_loss_ratio
                &&& s.latency_ms.bits != UNMEASURED ==> sample.latency_ms == s.latency_ms
                    && m.latency_ms == s.latency_ms
                &&& s.jitter_ms.bits != UNMEASURED ==> sample.jitter_ms == s.jitter_ms
                    && m.jitter_ms == s.jitter_ms
                &&& m.stability == s.stability()
                &&& after.latest_sample() == Some(sample)
            }
        }),
{
}

/// A failure of a transport is counted by its own machine; the machines of the
/// others, the route, the session and the edges stay as they are.
pub proof fn law_failure_counts_for_its_transport(
    e: EngineView,
    transport: TransportKind,
    now: TimestampMs,
    i: int,
)
    requires
        0 <= i < e.transport_states.len(),
        e.transport_states[i].consecutive_failures < u32::MAX,
        forall|a: int, b: int|
            0 <= a < b < e.transport_states.len() ==> (#[trigger] e.transport_states[a]).transport
                != (#[trigger] e.transport_states[b]).transport,
    ensures
        ({
            let after = e.after_transport_failure(transport, now);
            let before_machine = e.transport_states[i];
            let machine = after.transport_states[i];
            &&& after.transport_states.len() == e.transport_states.len()
            &&& machine.transport == before_machine.transport
            &&& before_machine.transport != transport ==> machine == before_machine
            &&& before_machine.transport == transport ==> machine.consecutive_failures
                == before_machine.consecutive_failures + 1 && machine.consecutive_successes == 0
            &&& after.current == e.current && after.session == e.session && after.registry
                == e.registry && after.health == e.health
        }),
{
    lemma_breakers_failed(e, transport, now);
    lemma_first_index(e.transport_states, runs(transport));
    let at = machine_at(e.transport_states, transport);
    if e.transport_states[i].transport == transport {
        assert(runs(transport)(e.transport_states[i]));
        if i != at {
            assert(i < at || at < i);
            if at < i {
                assert(e.transport_states[at].transport != e.transport_states[i].transport);
            } else {
                assert(!runs(transport)(e.transport_states[i]));
            }
        }
    }
}

/// While a transport still counts as healthy, its failure moves the fallback
/// chain nowhere; once it has failed, the chain is told and the fallback
/// counted.
pub proof fn law_only_failed_transports_fall_back(
    e: EngineView,
    transport: TransportKind,
    now: TimestampMs,
    at: int,
)
    requires
        0 <= at < e.transport_states.len(),
        at == machine_at(e.transport_states, transport),
        e.counters.transport_fallbacks < u64::MAX,
    ensures
        ({
            let after = e.after_transport_failure(transport, now);
            let machine = e.transport_states[at].after_failure();
            &&& machine.state == TransportHealth::Healthy ==> after.fallback.current_index
                == e.fallback.current_index && after.counters.transport_fallbacks
                == e.counters.transport_fallbacks
            &&& machine.state == TransportHealth::Failed ==> after.counters.transport_fallbacks
                == e.counters.transport_fallbacks + 1
            &&& machine.state != TransportHealth::Failed ==> after.counters.transport_fallbacks
                == e.counters.transport_fallbacks
        }),
{
    lemma_breakers_failed(e, transport, now);
    crate::fallback::law_only_own_failure_moves(e.fallback, seq![], now);
}

/// A success of a transport reaches its own machine and the breakers of its own
/// routes: those that are half-open count it as a trial, those that are open
/// stay so, and those of others stay as they are. The session is healthy.
pub proof fn law_success_reaches_its_own(
    e: EngineView,
    transport: TransportKind,
    now: TimestampMs,
    route: RouteCandidateView,
    i: int,
)
    requires
        0 <= i < e.breakers.len(),
        e.breakers[i].key == breaker_key(route),
    ensures
        ({
            let after = e.after_transport_success(transport, now);
            let b = e.breakers[i];
            &&& after.breakers.len() == e.breakers.len()
            &&& route.transport != transport ==> after.breakers[i] == b
            &&& route.transport == transport ==> {
                &&& after.breakers[i].key == b.key
                &&& after.breakers[i].consecutive_failures == 0
                &&& b.state is Open ==> after.breakers[i].state == b.state
                &&& b.state == CircuitState::Closed ==> after.breakers[i].state
                    == CircuitState::Closed
                &&& b.state == CircuitState::HalfOpen && b.half_open_successes + 1
                    >= b.cfg.half_open_required_successes ==> after.breakers[i].state
                    == CircuitState::Closed
            }
            &&& after.current == e.current
            &&& after.registry == e.registry
            &&& after.fallback == e.fallback
            &&& e.session is Some ==> after.session is Some
                && after.session->Some_0.last_healthy_time == now
                && after.session->Some_0.session_id == e.session->Some_0.session_id
        }),
{
    law_breakers_belong_to_transports(route, transport);
    let n = crate::engine::closed_after(
        e.breakers,
        suffix_of(transport),
        e.breakers.len() as int,
    );
    lemma_closings_are_logged(e.after_success_of(transport, now), n, now);
}

proof fn lemma_closings_are_logged(e: EngineView, n: nat, now: TimestampMs)
    ensures
        e.closings_reported(n, now) == (EngineView {
            telemetry: e.closings_reported(n, now).telemetry,
            events: e.closings_reported(n, now).events,
            ..e
        }),
    decreases n,
{
    if n > 0 {
        lemma_closings_are_logged(e, (n - 1) as nat, now);
    }
}

/// The route that is offered over an edge names the edge and the transport, and
/// both can be told from its breaker's key.
pub proof fn law_breaker_key_is_route_and_transport(a: RouteCandidateView, b: RouteCandidateView)
    ensures
        breaker_key(a) == a.id + ":"@ + a.transport.name(),
        a.transport == b.transport && a.id != b.id ==> breaker_key(a) != breaker_key(b),
        a.transport != b.transport ==> breaker_key(a) != breaker_key(b),
{
    law_breakers_belong_to_transports(a, a.transport);
    law_breakers_belong_to_transports(b, a.transport);
    if a.transport == b.transport && breaker_key(a) == breaker_key(b) {
        let tail = ":"@ + a.transport.name();
        let (x, y) = (breaker_key(a), breaker_key(b));
        assert(x =~= a.id + tail);
        assert(y =~= b.id + tail);
        assert(a.id.len() == b.id.len());
        assert(a.id =~= x.take(a.id.len() as int));
        assert(b.id =~= y.take(b.id.len() as int));
    }
}

/// An event that is emitted is the latest of the engine's and of those that
/// are kept for reports; those before it stay in order.
pub proof fn law_events_are_kept(e: EngineView, event: EventView)
    ensures
        ({
            let after = e.with_event(event);
            &&& after.events.last() == event
            &&& after.telemetry.events.last() == event
            &&& e.events.len() < 512 ==> after.events.drop_last() == e.events
            &&& e.events.len() == 512 ==> after.events.drop_last() == e.events.drop_first()
            &&& after.telemetry.samples == e.telemetry.samples
            &&& after.counters == e.counters
            &&& after.current == e.current
        }),
{
}

/// A switch is told by its reason: one for the better as such, and one away
/// from a degraded route as a warning first.
pub proof fn law_switches_are_told(e: EngineView, now: TimestampMs)
    ensures
        ({
            let after = e.switch_reported(SwitchReason::SustainedImprovement, now);
            &&& after.events.last().kind == EventKind::RouteChanged
            &&& after.events.last().reason == "sustained improvement"@
            &&& after.events.last().severity == Severity::Info
            &&& after.events.last().timestamp == now
        }),
        ({
            let after = e.switch_reported(SwitchReason::CurrentRouteDegraded, now);
            let n = after.events.len();
            &&& n >= 2
            &&& after.events[n - 2].kind == EventKind::EdgeDegraded
            &&& after.events[n - 2].severity == Severity::Warning
            &&& after.events[n - 2].reason == "current route degraded"@
            &&& after.events[n - 1].kind == EventKind::RouteChanged
            &&& after.events[n - 1].severity == Severity::Info
            &&& after.events[n - 1].reason == "degradation-triggered switch"@
        }),
{
}

/// A spike that was not just told is told with what is known of the route in
/// use.
pub proof fn law_spikes_carry_the_metrics(
    e: EngineView,
    kind: EventKind,
    now: TimestampMs,
    reason: Seq<char>,
)
    requires
        forall|i: int| 0 <= i < e.events.len() ==> (#[trigger] e.events[i]).kind != kind,
    ensures
        ({
            let told = e.with_spike(kind, now, reason).events.last();
            &&& told.kind == kind
            &&& told.timestamp == now
            &&& told.reason == reason
            &&& told.metrics is Some <==> e.current is Some
            &&& e.current is Some ==> told.metrics->Some_0.latency_ms
                == e.current->Some_0.latency_ms && told.metrics->Some_0.jitter_ms
                == e.current->Some_0.jitter_ms && told.metrics->Some_0.packet_loss_ratio
                == e.current->Some_0.packet_loss_ratio
        }),
{
}

/// Each move down the chain is told, and the move to the direct path as the
/// failure of all edges. Where nothing moves nothing is told.
pub proof fn law_moves_down_the_chain_are_told(
    e: EngineView,
    transport: TransportKind,
    now: TimestampMs,
)
    ensures
        ({
            let after = e.fallback_advanced(transport, now);
            if after.fallback.current_index != e.fallback.current_index {
                &&& after.events.last().timestamp == now
                &&& after.events.last().severity == Severity::Warning
                &&& after.fallback.current() == TransportKind::Direct ==> after.events.last().kind
                    == EventKind::EdgeFailed
                &&& after.fallback.current() != TransportKind::Direct ==> after.events.last().kind
                    == EventKind::TransportFallback
            } else {
                after.events == e.events
            }
        }),
{
}

/// A probe of the edge in use adapts how often it is probed to the grade that
/// came out.
pub proof fn law_probing_follows_the_grade(
    e: EngineView,
    edge_id: Seq<char>,
    health_power: Reading,
    now: TimestampMs,
)
    ensures
        ({
            let after = e.health_tracked(edge_id, health_power, now);
            &&& e.current is Some && edge_part(e.current->Some_0.id) == edge_id ==> after.probe
                == e.probe.adapted(level_of(after.health.grade))
            &&& e.current is None ==> after == e
            &&& e.current is Some && edge_part(e.current->Some_0.id) != edge_id ==> after == e
        }),
{
}

/// A breaker that closes is told as such, and one that opens as a warning.
pub proof fn law_breakers_are_told(e: EngineView, n: nat, now: TimestampMs)
    requires
        n > 0,
    ensures
        e.closings_reported(n, now).events.last().kind == EventKind::CircuitClosed,
        e.closings_reported(n, now).events.last().severity == Severity::Info,
        e.closings_reported(n, now).events.last().timestamp == now,
        e.openings_reported(n, now).events.last().kind == EventKind::CircuitOpen,
        e.openings_reported(n, now).events.last().severity == Severity::Warning,
        e.openings_reported(n, now).events.last().timestamp == now,
{
}

/// A success that closes a breaker of the transport is told.
pub proof fn law_closing_is_told(
    e: EngineView,
    transport: TransportKind,
    now: TimestampMs,
    i: int,
)
    requires
        0 <= i < e.breakers.len(),
        has_suffix(e.breakers[i].key, suffix_of(transport)),
        e.breakers[i].state == CircuitState::HalfOpen,
        e.breakers[i].half_open_successes + 1 >= e.breakers[i].cfg.half_open_required_successes,
    ensures
        e.after_transport_success(transport, now).events.last().kind == EventKind::CircuitClosed,
        e.after_transport_success(transport, now).breakers[i].state == CircuitState::Closed,
{
    lemma_closes(e.breakers, suffix_of(transport), e.breakers.len() as int, i);
    let n = closed_after(e.breakers, suffix_of(transport), e.breakers.len() as int);
    lemma_closings_keep(e.after_success_of(transport, now), n, now);
    law_breakers_are_told(e.after_success_of(transport, now), n, now);
}

proof fn lemma_closes(breakers: Seq<CircuitBreakerView>, suffix: Seq<char>, n: int, i: int)
    requires
        0 <= i < n <= breakers.len(),
        has_suffix(breakers[i].key, suffix),
        breakers[i].after_success().state == CircuitState::Closed,
    ensures
        closed_after(breakers, suffix, n) > 0,
    decreases n,
{
    if i < n - 1 {
        lemma_closes(breakers, suffix, n - 1, i);
    }
}

proof fn lemma_closings_keep(e: EngineView, n: nat, now: TimestampMs)
    ensures
        e.closings_reported(n, now).breakers == e.breakers,
    decreases n,
{
    if n > 0 {
        lemma_closings_keep(e, (n - 1) as nat, now);
    }
}

} // verus!
