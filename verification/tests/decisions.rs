//! The rules: fallback, health, switching, heartbeats, retries, scoring, trust.
use std::collections::HashSet;
use std::sync::Arc;

use radin::fallback::{FailureSignal, FallbackEngine};
use radin::health::{
    grade_for, health_score, initial_policy, monitor_level, GradeModel, HealthInput, HealthTracker,
    HealthWeights, MonitorLevel, NetworkHealthGrade, NetworkTypePolicies,
};
use radin::hysteresis::{
    HysteresisConfig, HysteresisState, RouteDecider, RouteVerdict, SwitchReason,
};
use radin::keepalive::{base_interval, decide, next_interval, JitterPolicy, KeepaliveInput};
use radin::metrics::{ensure_real, WindowStats};
use radin::migration::{
    classify_change, decide_migration, MigrationOutcome, MigrationPolicy, NetworkChangeKind,
};
use radin::model::{fallback_list, MetricsSnapshot, RouteCandidate};
use radin::probe::{ProbeBudget, ProbeKind, ProbeScheduler};
use radin::reading::Reading;
use radin::retry::{
    backoff_upper_bound_ms, draw_range, full_jitter_backoff, next_retry_delay, RetryClass,
};
use radin::scoring::{
    breakdown_for, combine, handshake_score, jitter_score, latency_score, loss_base,
    loss_scale, loss_score,
    score_all, score_snapshot, stability_score, ScoreWeights,
};
use radin::security::{
    dev_bootstrap_signer, ConfigSigner, EdgeVerifier, NoopConfigSigner, TrustedIdentity,
    ValidationVerdict,
};
use radin::session::Session;
use radin::state::{StateConfig, TransportHealth, TransportStateMachine};
use radin::transport::{capabilities, select_transport, BenchmarkPhase, BenchmarkResult};
use radin::{
    BatteryState, EdgeInfo, Error, MeasuredSource, NetworkType, TimestampMs, TransportKind,
    VpnState,
};
use rand::rngs::StdRng;
use rand::{Rng, SeedableRng};

fn r(x: f64) -> Reading {
    Reading { bits: x.to_bits() }
}

fn f(x: Reading) -> f64 {
    f64::from_bits(x.bits)
}

/// What a loss comes to for the score of a route.
fn steep(loss: f64) -> Reading {
    r(f(loss_scale(r(loss))).powf(1.6))
}

fn power(loss: f64, exponent: f64) -> Reading {
    r(f(loss_base(r(loss))).powf(exponent))
}

#[test]
fn default_chain_matches_spec_order() {
    let fb = FallbackEngine::default();
    assert_eq!(fb.chain, fallback_list());
    assert_eq!(fb.current(), TransportKind::Quic);
    assert_eq!(*fb.chain.last().unwrap(), TransportKind::Direct);
}

#[test]
fn does_not_fallback_on_single_failure_signal() {
    let mut fb = FallbackEngine::default();
    let signals = vec![(TransportKind::Http2, FailureSignal::CircuitOpen)];
    assert!(fb.observe(signals, 1_000).is_none());
    assert_eq!(fb.current(), TransportKind::Quic);
}

#[test]
fn falls_back_after_measurable_failure_of_current() {
    let mut fb = FallbackEngine::default();
    let signals = vec![
        (TransportKind::Quic, FailureSignal::StateFailed),
        (TransportKind::Udp, FailureSignal::CircuitOpen),
        (TransportKind::TcpTls, FailureSignal::HandshakeFailure),
        (TransportKind::WebSocketTls, FailureSignal::CircuitOpen),
    ];
    let moved = fb.observe(signals, 0).expect("should fall to UDP");
    assert_eq!(moved, TransportKind::Udp);
    let moved2 = fb
        .observe(vec![(TransportKind::Udp, FailureSignal::CircuitOpen)], 0)
        .expect("should fall to TCP");
    assert_eq!(moved2, TransportKind::TcpTls);
}

#[test]
fn ends_at_direct_and_stays() {
    let mut fb = FallbackEngine::default();
    fb.current_index = fb.chain.len() - 1;
    let moved = fb.observe(vec![(TransportKind::Direct, FailureSignal::StateFailed)], 0);
    assert!(moved.is_none(), "Direct cannot fall back further (fail-safe terminal)");
}

#[test]
fn reorder_keeps_direct_last() {
    let mut fb = FallbackEngine::default();
    let scores = vec![
        (TransportKind::WebSocketTls, r(95.0)),
        (TransportKind::Udp, r(88.0)),
        (TransportKind::Quic, r(60.0)),
        (TransportKind::Http2, r(50.0)),
        (TransportKind::TcpTls, r(40.0)),
        (TransportKind::Direct, r(10.0)),
    ];
    fb.reorder_by_scores(&scores);
    assert_eq!(fb.chain.first(), Some(&TransportKind::WebSocketTls));
    assert_eq!(fb.chain.last(), Some(&TransportKind::Direct));
    assert_eq!(fb.current(), TransportKind::WebSocketTls);
}

#[test]
fn cooldown_blocks_rapid_fallthrough() {
    let mut fb = FallbackEngine::new(Some(vec![
        TransportKind::Udp,
        TransportKind::TcpTls,
        TransportKind::Direct,
    ]));
    let signals = vec![(TransportKind::Udp, FailureSignal::StateFailed)];
    assert_eq!(fb.observe(signals.clone(), 0), Some(TransportKind::TcpTls));
    let moved = fb.observe(vec![(TransportKind::TcpTls, FailureSignal::HandshakeFailure)], 100);
    assert_eq!(moved, Some(TransportKind::Direct));
}

#[test]
fn transport_health_progression_is_visible_to_fallback() {
    let mut sm = TransportStateMachine::new(TransportKind::Udp, StateConfig::default());
    for _ in 0..6 {
        sm.record_failure();
    }
    assert_eq!(sm.state, TransportHealth::Failed);
}

#[test]
fn direct_is_last_whatever_its_score() {
    let mut fb = FallbackEngine::default();
    fb.reorder_by_scores(&[
        (TransportKind::Direct, r(99.0)),
        (TransportKind::Udp, r(1.0)),
        (TransportKind::Quic, r(2.0)),
    ]);
    assert_eq!(fb.chain.last(), Some(&TransportKind::Direct));
    assert_eq!(fb.chain.iter().filter(|t| **t == TransportKind::Direct).count(), 1);
    assert_eq!(fb.current(), TransportKind::Quic);
}

fn input(lat: f64, jit: f64, loss: f64) -> HealthInput {
    HealthInput {
        latency_ms: r(lat),
        jitter_ms: r(jit),
        packet_loss_ratio: r(loss),
        stability: r(0.9),
        reconnect_rate: r(0.0),
        availability: r(1.0 - loss),
    }
}

fn health(lat: f64, jit: f64, loss: f64) -> Reading {
    health_score(&input(lat, jit, loss), &HealthWeights::default(), power(loss, 2.0))
}

#[test]
fn stable_low_latency_is_excellent() {
    let s = health(30.0, 1.0, 0.001);
    let g = grade_for(s, &GradeModel::default());
    assert_eq!(g, NetworkHealthGrade::Excellent);
}

#[test]
fn heavy_loss_demotes_well_below_good() {
    let s = health(120.0, 20.0, 0.10);
    let g = grade_for(s, &GradeModel::default());
    assert!(
        g.is_worse_than(NetworkHealthGrade::Good),
        "score {s:?} (grade {g:?}) should be at most DEGRADED at 10% loss"
    );
    let s30 = health(120.0, 25.0, 0.30);
    let g30 = grade_for(s30, &GradeModel::default());
    assert!(
        matches!(g30, NetworkHealthGrade::Poor | NetworkHealthGrade::Critical),
        "30% loss must be POOR/CRITICAL, got {g30:?} (score {:.1})",
        f(s30)
    );
}

#[test]
fn monitor_levels_follow_health() {
    assert_eq!(monitor_level(NetworkHealthGrade::Excellent), MonitorLevel::Low);
    assert_eq!(monitor_level(NetworkHealthGrade::Good), MonitorLevel::Normal);
    assert_eq!(monitor_level(NetworkHealthGrade::Degraded), MonitorLevel::High);
    assert_eq!(monitor_level(NetworkHealthGrade::Critical), MonitorLevel::Aggressive);
}

#[test]
fn upgrades_require_sustained_improvement_but_degrades_are_immediate() {
    let mut t = HealthTracker::default();
    let g1 = t.observe(r(95.0), 0, 3_000);
    assert_eq!(g1.grade, NetworkHealthGrade::Good, "no sustain yet, starts at Good");
    let g2 = t.observe(r(95.0), 4_000, 3_000);
    assert_eq!(g2.grade, NetworkHealthGrade::Excellent);
    let g3 = t.observe(r(20.0), 5_000, 3_000);
    assert_eq!(g3.grade, NetworkHealthGrade::Critical);
    let g4 = t.observe(r(95.0), 5_100, 3_000);
    assert_eq!(g4.grade, NetworkHealthGrade::Critical, "must sustain before climbing again");
}

#[test]
fn initial_policies_are_benchmark_seeds() {
    let wifi = initial_policy(NetworkType::Wifi);
    assert!(wifi.allow_quic && wifi.allow_udp);
    let three_g = initial_policy(NetworkType::ThreeG);
    assert!(!three_g.allow_quic, "initial seed: conservative on 3G");
    assert!(three_g.allow_udp);
}

#[test]
fn each_upgrade_is_timed_for_itself() {
    let mut t = HealthTracker::default();
    t.observe(r(20.0), 0, 3_000);
    assert!(t.since.is_none());
    t.observe(r(95.0), 1_000, 3_000);
    let g = t.observe(r(95.0), 3_999, 3_000);
    assert_eq!(g.grade, NetworkHealthGrade::Critical);
    let g = t.observe(r(95.0), 4_000, 3_000);
    assert_eq!(g.grade, NetworkHealthGrade::Excellent);
    assert!(t.since.is_none(), "the upgrade is over");
}

#[test]
fn health_scores_are_the_doubles_of_the_formula() {
    for (lat, jit, loss, stab, rec) in
        [(30.0, 1.0, 0.001, 0.9, 0.0), (120.0, 20.0, 0.1, 0.4, 2.0), (0.0, 0.0, 0.0, 1.5, 0.0)]
    {
        let m = MetricsSnapshot {
            latency_ms: r(lat),
            jitter_ms: r(jit),
            packet_loss_ratio: r(loss),
            stability: r(stab),
            handshake_latency_ms: r(10.0),
            reconnect_rate: r(rec),
        };
        let w = HealthWeights::default();
        let (wl, wj, wp, ws, wr, wa): (f64, f64, f64, f64, f64, f64) = (
            f(w.latency),
            f(w.jitter),
            f(w.loss),
            f(w.stability),
            f(w.reconnect),
            f(w.availability),
        );
        let sum = wl + wj + wp + ws + wr + wa;
        let lat_score = 1.0 / (1.0 + lat / 150.0);
        let jit_score = 1.0 / (1.0 + jit / 15.0);
        let loss_part =
            if loss <= 0.0 { 1.0 } else { 1.0 / (1.0 + (loss * 100.0) / 1.5f64).powf(2.0) };
        let avail: f64 = 1.0 - loss;
        let raw = (wl / sum) * lat_score
            + (wj / sum) * jit_score
            + (wp / sum) * loss_part
            + (ws / sum) * f64::clamp(stab, 0.0, 1.0)
            + (wr / sum) * (1.0 / (1.0 + rec))
            + (wa / sum) * avail.clamp(0.0, 1.0);
        let expected = (raw * 100.0).clamp(0.0, 100.0);
        let got = health_score(&HealthInput::from(m), &w, power(loss, 2.0));
        assert_eq!(f(got), expected);
    }
}

#[test]
fn weights_that_vanish_give_way_to_the_usual_ones() {
    let none = HealthWeights {
        latency: r(0.0),
        jitter: r(0.0),
        loss: r(0.0),
        stability: r(0.0),
        reconnect: r(0.0),
        availability: r(0.0),
    };
    let i = input(40.0, 3.0, 0.0);
    assert_eq!(
        health_score(&i, &none, r(1.0)).bits,
        health_score(&i, &HealthWeights::default(), r(1.0)).bits
    );
}

#[test]
fn grades_have_an_order() {
    assert!(NetworkHealthGrade::Excellent > NetworkHealthGrade::Good);
    assert!(NetworkHealthGrade::Poor.is_better_than(NetworkHealthGrade::Critical));
    assert!(!NetworkHealthGrade::Good.is_worse_than(NetworkHealthGrade::Good));
    let p = NetworkTypePolicies::default();
    assert_eq!((f(p.probe_factor), f(p.keepalive_factor)), (1.0, 1.0));
    assert_eq!(f(initial_policy(NetworkType::FourG).probe_factor), 0.8);
    assert_eq!(f(initial_policy(NetworkType::ThreeG).keepalive_factor), 0.65);
}

fn route(id: &str, lat: f64, jitter: f64, loss: f64) -> RouteCandidate {
    RouteCandidate {
        id: id.into(),
        endpoint: "e".into(),
        transport: TransportKind::Quic,
        region: "r".into(),
        latency_ms: r(lat),
        jitter_ms: r(jitter),
        packet_loss_ratio: r(loss),
        stability: r(0.9),
        handshake_latency_ms: r(60.0),
        reconnect_rate: r(0.0),
        score: None,
        source: MeasuredSource::Real,
    }
}

#[test]
fn does_not_switch_for_tiny_3ms_difference() {
    let mut d = RouteDecider::new(HysteresisConfig {
        minimum_improvement_percent: r(0.10),
        minimum_improvement_ms: r(5.0),
        ..HysteresisConfig::default()
    });
    d.state.current_route_id = "current".into();
    d.state.current_metrics = route("current", 80.0, 2.0, 0.0).metrics();

    let candidate = route("cand", 77.0, 2.0, 0.0);
    let verdict = d.evaluate(&candidate, 100_000);
    assert_eq!(verdict, RouteVerdict::Keep, "3 ms on 80 ms is < 10% AND < 5 ms");
    assert_eq!(d.state.current_route_id, "current");
}

#[test]
fn switches_on_sustained_clear_improvement() {
    let mut d = RouteDecider::new(HysteresisConfig::default());
    d.state.current_route_id = "current".into();
    d.state.current_metrics = route("current", 120.0, 10.0, 0.01).metrics();

    let candidate = route("better", 60.0, 2.0, 0.0005);
    let verdict = d.evaluate(&candidate, 100_000);
    assert_eq!(
        verdict,
        RouteVerdict::Switch {
            candidate_id: "better".into(),
            reason: SwitchReason::SustainedImprovement,
        }
    );
    assert!(d.state.cooldowns.iter().any(|(id, _)| id == "current"));
}

#[test]
fn switches_after_sustained_degradation() {
    let mut d = RouteDecider::new(HysteresisConfig {
        minimum_degradation_duration_ms: 2_000,
        ..HysteresisConfig::default()
    });
    d.state.current_route_id = "current".into();
    d.state.current_metrics = route("current", 250.0, 40.0, 0.08).metrics();

    let candidate = route("similar", 245.0, 39.0, 0.075);
    assert_eq!(d.evaluate(&candidate, 100_000), RouteVerdict::Keep, "no immediate switch");
    let verdict = d.evaluate(&candidate, 102_000);
    assert_eq!(
        verdict,
        RouteVerdict::Switch {
            candidate_id: "similar".into(),
            reason: SwitchReason::CurrentRouteDegraded,
        }
    );
}

#[test]
fn cooldown_blocks_immediate_switch_back() {
    let mut d = RouteDecider::new(HysteresisConfig::default());
    d.state.current_route_id = "current".into();
    d.state.current_metrics = route("current", 50.0, 2.0, 0.0).metrics();
    d.state.cooldowns.push(("current".into(), 200_000));
    let candidate = route("current", 45.0, 1.0, 0.0);
    let v = d.evaluate(&candidate, 150_000);
    assert!(matches!(v, RouteVerdict::NotYet { reason, .. } if reason == "in cooldown"));
}

#[test]
fn bans_end_and_can_be_pruned() {
    let mut d = RouteDecider::from_state(HysteresisConfig::default(), HysteresisState::default());
    d.state.current_route_id = "a".into();
    d.apply_cooldown("b", 500);
    d.apply_cooldown("b", 900);
    assert_eq!(d.state.cooldowns.iter().filter(|(id, _)| id == "b").count(), 1);
    assert!(matches!(d.evaluate(&route("b", 1.0, 0.0, 0.0), 899), RouteVerdict::NotYet { .. }));
    d.prune_cooldowns(900);
    assert!(d.state.cooldowns.is_empty());
    assert!(!matches!(d.evaluate(&route("b", 1.0, 0.0, 0.0), 900), RouteVerdict::NotYet { .. }));
}

#[test]
fn heartbeat_is_jittered_within_bounds() {
    let mut rng = StdRng::seed_from_u64(11);
    let input = KeepaliveInput { network: NetworkType::Wifi, ..KeepaliveInput::default() };
    let base = base_interval(&input);
    assert!(base > 0);
    let most = f(JitterPolicy::default().max_fraction);
    let mut seen = HashSet::new();
    for _ in 0..500 {
        let d = decide(&input, r(rng.gen_range(-most..=most)));
        assert!(d.keep_alive_enabled);
        let f = d.send_after_ms as f64 / base as f64;
        assert!((0.75..=1.25).contains(&f), "jitter out of +-25%: {f}");
        seen.insert(d.send_after_ms);
    }
    assert!(seen.len() > 1, "no randomization: synchronized heartbeats");
}

#[test]
fn suspended_when_idle_and_disconnected() {
    let input = KeepaliveInput {
        app_idle: true,
        vpn: VpnState::Disconnected,
        ..KeepaliveInput::default()
    };
    assert_eq!(base_interval(&input), 0);
}

#[test]
fn explicit_interval_wins() {
    let input = KeepaliveInput {
        explicit_interval_ms: Some(60_000),
        network: NetworkType::FourG,
        ..KeepaliveInput::default()
    };
    assert_eq!(base_interval(&input), 60_000);
}

#[test]
fn nat_observed_idle_shortens_interval() {
    let with_nat = KeepaliveInput {
        observed_nat_idle_timeout_ms: Some(4_000),
        battery: BatteryState::Charging,
        ..KeepaliveInput::default()
    };
    let b = base_interval(&with_nat);
    assert!((2_000..=6_000).contains(&b), "base {b} should hug the NAT hint");
}

#[test]
fn low_battery_tightens_interval() {
    let high = KeepaliveInput { battery: BatteryState::Charging, ..KeepaliveInput::default() };
    let low = KeepaliveInput { battery: BatteryState::Critical, ..KeepaliveInput::default() };
    assert!(base_interval(&low) < base_interval(&high));
}

#[test]
fn intervals_are_the_doubles_of_the_formula() {
    let batteries = [
        (BatteryState::Charging, 1.2),
        (BatteryState::High, 1.0),
        (BatteryState::Medium, 0.9),
        (BatteryState::Low, 0.7),
        (BatteryState::Critical, 0.5),
    ];
    for (battery, factor) in batteries {
        for (rate, stable) in [(None, 1.0), (Some(0.9), 1.0), (Some(1.0), 0.8), (Some(4.0), 0.6)] {
            for hint in [1_000u64, 4_001, 33_333, 119_999, 500_000] {
                let input = KeepaliveInput {
                    observed_nat_idle_timeout_ms: Some(hint),
                    battery,
                    reconnect_rate: rate.map(r),
                    ..KeepaliveInput::default()
                };
                let exact = (hint.min(120_000) as f64 * factor * stable) as u64;
                assert_eq!(base_interval(&input), exact.clamp(2_000, 120_000));
            }
        }
    }
}

#[test]
fn a_heartbeat_moves_by_its_fraction() {
    for (base, frac) in [(20_000u64, 0.25), (20_000, -0.25), (12_345, 0.1), (7, -0.01), (1, -0.9)] {
        let (out, applied) = next_interval(base, r(frac));
        assert_eq!(out, ((base as f64 * (1.0 + frac)) as u64).max(1));
        assert_eq!(f(applied), frac);
    }
    let (out, applied) = next_interval(0, r(0.2));
    assert_eq!((out, f(applied)), (0, 0.0));
    let idle = KeepaliveInput { app_idle: true, ..KeepaliveInput::default() };
    let d = decide(&idle, r(0.2));
    assert!(!d.keep_alive_enabled);
    assert_eq!((d.base_interval_ms, d.send_after_ms), (0, 0));
    let by_hand = |ms| KeepaliveInput { explicit_interval_ms: Some(ms), ..idle };
    assert_eq!(base_interval(&by_hand(1)), 1_000);
    assert_eq!(base_interval(&by_hand(u64::MAX)), 4 * 60 * 60_000);
}

#[test]
fn timestamp_alias_is_u64() {
    let t: TimestampMs = 1_700_000_000_000;
    assert!(t > 0);
}

#[test]
fn errors_say_what_went_wrong() {
    let text = |e: Error| e.message();
    assert_eq!(text(Error::InvalidInput("a".into())), "invalid input: a");
    assert_eq!(text(Error::StateConflict("b".into())), "state conflict: b");
    assert_eq!(text(Error::UnknownTransport("c".into())), "unknown transport: c");
    assert_eq!(text(Error::UnknownEdge("d".into())), "unknown edge: d");
    assert_eq!(text(Error::Storage("e".into())), "storage: e");
    assert_eq!(text(Error::Serde("f".into())), "serialization: f");
}

#[test]
fn window_averages_and_estimates_jitter() {
    let mut w = WindowStats::new(10);
    for (i, x) in [10.0, 12.0, 11.0, 13.0].iter().enumerate() {
        w.record_latency(r(*x), i as u64);
    }
    assert!((f(w.avg_latency_ms().unwrap()) - 11.5).abs() < 1e-9);
    assert!(f(w.jitter_ms().unwrap()) > 0.9);
}

#[test]
fn loss_ratio_is_clamped_and_stability_decays() {
    let mut w = WindowStats::new(5);
    for i in 0..5 {
        w.record_latency(r(40.0), i);
    }
    assert_eq!(f(w.loss_ratio()), 0.0);
    let s0 = w.stability();
    for _ in 0..5 {
        w.record_loss();
    }
    assert_eq!(f(w.loss_ratio()), 0.5);
    assert!(w.stability() < s0);
}

#[test]
fn synthetic_never_exports() {
    assert!(ensure_real(MeasuredSource::Real).is_ok());
    let err = ensure_real(MeasuredSource::Synthetic);
    assert!(matches!(err, Err(Error::InvalidInput(_))));
}

#[test]
fn windows_roll_and_compute_in_doubles() {
    let mut w = WindowStats::new(3);
    assert!(w.avg_latency_ms().is_none() && w.jitter_ms().is_none());
    assert_eq!(f(w.stability()), 1.0);
    w.record_latency(r(7.3), 1);
    assert_eq!(f(w.jitter_ms().unwrap()), 0.0);
    for (i, x) in [0.1, 50.7, 3.3].iter().enumerate() {
        w.record_latency(r(*x), i as u64);
    }
    w.record_expected(9);
    w.record_loss();
    let kept = [0.1f64, 50.7, 3.3];
    let avg = (kept[0] + kept[1] + kept[2]) / 3.0;
    let d: Vec<f64> = kept.iter().map(|x| (x - avg) * (x - avg)).collect();
    let jitter = ((d[0] + d[1] + d[2]) / 3.0).sqrt();
    assert_eq!(w.samples.len(), 3);
    assert_eq!(w.last_sample_at, Some(2));
    assert_eq!(f(w.avg_latency_ms().unwrap()), avg);
    assert_eq!(f(w.jitter_ms().unwrap()), jitter);
    let loss = 1.0 / 6.0;
    assert_eq!(f(w.loss_ratio()), loss);
    assert_eq!(f(w.stability()), (1.0 / (1.0 + jitter / 25.0)) * (1.0 - loss));
    assert_eq!(WindowStats::new(0).capacity, 1);
}

#[test]
fn wifi_to_5g_is_a_type_change_and_can_migrate() {
    assert_eq!(
        classify_change(Some(NetworkType::Wifi), Some(NetworkType::FiveG)),
        NetworkChangeKind::TypeChange
    );
    let out = decide_migration(NetworkChangeKind::TypeChange, true, &MigrationPolicy::default());
    assert_eq!(out, MigrationOutcome::MigrationStarted);
}

#[test]
fn non_migration_capable_transport_does_controlled_reconnect() {
    let out = decide_migration(NetworkChangeKind::TypeChange, false, &MigrationPolicy::default());
    assert_eq!(out, MigrationOutcome::ControlledReconnect);
}

#[test]
fn loss_of_connectivity_always_drops_to_reconnect() {
    let out = decide_migration(
        NetworkChangeKind::LossOfConnectivity,
        true,
        &MigrationPolicy::default(),
    );
    assert_eq!(out, MigrationOutcome::ControlledReconnect);
}

#[test]
fn no_change_preserves() {
    let out = decide_migration(NetworkChangeKind::Unchanged, false, &MigrationPolicy::default());
    assert_eq!(out, MigrationOutcome::Preserved);
}

#[test]
fn network_type_has_benchmarked_keepalive_hints() {
    assert!(
        NetworkType::Wifi.default_keepalive_base_ms()
            > NetworkType::FourG.default_keepalive_base_ms()
    );
}

#[test]
fn fallback_order_ends_in_direct() {
    assert_eq!(*fallback_list().last().unwrap(), TransportKind::Direct);
    assert!(!TransportKind::Direct.uses_edge());
}

#[test]
fn route_candidate_exposes_snapshot() {
    let c = RouteCandidate {
        id: "r1".into(),
        endpoint: "edge-a.example".into(),
        transport: TransportKind::Quic,
        region: "ap-sg".into(),
        latency_ms: r(65.0),
        jitter_ms: r(30.0),
        packet_loss_ratio: r(0.02),
        stability: r(0.7),
        handshake_latency_ms: r(120.0),
        reconnect_rate: r(0.1),
        score: None,
        source: MeasuredSource::Real,
    };
    let m = c.metrics();
    assert_eq!(f(m.latency_ms), 65.0);
}

#[test]
fn rate_limiter_enforces_minimum_gap() {
    let mut p = ProbeBudget::new(ProbeKind::UdpProbe);
    assert!(p.allow(0));
    p.record_send(0);
    assert!(!p.allow(19_999));
    assert!(p.allow(20_000));
}

#[test]
fn scheduler_respects_disabled_state() {
    let mut s = ProbeScheduler { enabled: false, ..ProbeScheduler::default() };
    assert!(!s.may_send(ProbeKind::UdpProbe, 0));
    s.enabled = true;
    assert!(s.may_send(ProbeKind::UdpProbe, 0));
}

#[test]
fn aggressive_health_tightens_dns_probes() {
    let mut s = ProbeScheduler::default();
    let before = s.budgets[0].min_interval_ms;
    s.apply_health(MonitorLevel::Aggressive);
    assert!(s.budgets[0].min_interval_ms < before);
    s.apply_health(MonitorLevel::Low);
    s.apply_health(MonitorLevel::Low);
    assert!(s.budgets[0].min_interval_ms > 1_000);
}

#[test]
fn probe_intervals_are_the_doubles_of_the_formula() {
    let mut p = ProbeBudget::new(ProbeKind::DnsResolution);
    p.tighten(r(0.25), 1_000);
    assert_eq!(p.min_interval_ms, 7_500);
    let mut exact = 7_500u64;
    for _ in 0..12 {
        p.loosen(r(1.15));
        exact = ((exact as f64 * 1.15) as u64).min(30_000);
        assert_eq!(p.min_interval_ms, exact);
    }
    assert_eq!(p.min_interval_ms, 30_000);
    p.tighten(r(0.01), 1_000);
    assert_eq!(p.min_interval_ms, 1_000);
    p.tighten(r(-3.0), 4_000);
    assert_eq!(p.min_interval_ms, 4_000);
    p.loosen(r(f64::NAN));
    assert_eq!(p.min_interval_ms, 0);
    let mut s = ProbeScheduler::default();
    s.apply_health(MonitorLevel::High);
    s.record(ProbeKind::EdgeToClientRtt, 100);
    assert!(!s.may_send(ProbeKind::EdgeToClientRtt, 3_099));
    assert!(s.may_send(ProbeKind::EdgeToClientRtt, 3_100));
}

#[test]
fn jitter_stays_within_upper_bound() {
    let mut rng = StdRng::seed_from_u64(42);
    for attempt in 1..=10 {
        for _ in 0..1000 {
            let delay = full_jitter_backoff(&mut rng, 500, 15_000, attempt);
            let bound = backoff_upper_bound_ms(500, 15_000, attempt);
            assert!(delay <= bound, "delay {delay} > bound {bound}");
        }
    }
}

#[test]
fn jitter_is_not_degenerate_fixed_point() {
    let mut rng = StdRng::seed_from_u64(7);
    let mut min = u64::MAX;
    let mut max = 0;
    for _ in 0..500 {
        let d = full_jitter_backoff(&mut rng, 1_000, 10_000, 4);
        min = min.min(d);
        max = max.max(d);
    }
    assert!(max > min, "jitter produced a degenerate fixed delay");
}

#[test]
fn telemetry_drops_aggressively() {
    let mut rng = StdRng::seed_from_u64(1);
    assert_eq!(RetryClass::Telemetry.max_attempts(), 2);
    assert!(next_retry_delay(&mut rng, RetryClass::Telemetry, 0).is_some());
    assert!(next_retry_delay(&mut rng, RetryClass::Telemetry, 1).is_some());
    assert!(next_retry_delay(&mut rng, RetryClass::Telemetry, 2).is_none());
}

#[test]
fn dataplane_never_retries() {
    let mut rng = StdRng::seed_from_u64(1);
    assert!(next_retry_delay(&mut rng, RetryClass::Dataplane, 0).is_none());
    assert!(next_retry_delay(&mut rng, RetryClass::Dataplane, 5).is_none());
}

#[test]
fn config_caps_at_policy() {
    let mut rng = StdRng::seed_from_u64(2);
    assert!(next_retry_delay(&mut rng, RetryClass::Config, 5).is_some());
    assert!(next_retry_delay(&mut rng, RetryClass::Config, 6).is_none());
}

fn cand(latency: f64, jitter: f64, loss: f64, stability: f64) -> RouteCandidate {
    RouteCandidate {
        id: format!("c-{latency}-{jitter}-{loss}"),
        endpoint: "edge".into(),
        transport: TransportKind::Quic,
        region: "test".into(),
        latency_ms: r(latency),
        jitter_ms: r(jitter),
        packet_loss_ratio: r(loss),
        stability: r(stability),
        handshake_latency_ms: r(80.0),
        reconnect_rate: r(0.0),
        score: None,
        source: MeasuredSource::Real,
    }
}

#[test]
fn spec_example_stable_slightly_slower_wins() {
    let w = ScoreWeights::default();
    let fast_jittery = cand(65.0, 30.0, 0.02, 0.7);
    let slow_stable = cand(80.0, 2.0, 0.0, 0.9);
    let (s_fast, b_fast) = score_snapshot(&w, &fast_jittery.metrics(), steep(0.02));
    let (s_slow, b_slow) = score_snapshot(&w, &slow_stable.metrics(), steep(0.0));
    assert!(b_slow.loss > b_fast.loss, "loss sub-score should rank stable higher");
    assert!(b_slow.jitter > b_fast.jitter, "jitter sub-score should rank stable higher");
    assert!(
        s_slow > s_fast,
        "stable 80 ms route must outscore jittery 65 ms route; fast={:.2} slow={:.2}",
        f(s_fast),
        f(s_slow)
    );
}

#[test]
fn score_all_populates_and_rejects_synthetic() {
    let w = ScoreWeights::default();
    let mut real = vec![cand(50.0, 5.0, 0.001, 0.9)];
    score_all(&w, &mut real, &[steep(0.001)], false).unwrap();
    assert!(f(real[0].score.unwrap()) > 70.0, "healthy route must score high");

    let mut synthetic = vec![RouteCandidate {
        source: MeasuredSource::Synthetic,
        ..cand(10.0, 1.0, 0.0, 1.0)
    }];
    let err = score_all(&w, &mut synthetic, &[steep(0.0)], false);
    assert!(err.is_err(), "production scoring must reject synthetic data");
    score_all(&w, &mut synthetic, &[steep(0.0)], true).unwrap();
}

#[test]
fn zero_weight_set_falls_back_to_defaults() {
    let weights = ScoreWeights {
        latency_weight: r(0.0),
        jitter_weight: r(0.0),
        loss_weight: r(0.0),
        stability_weight: r(0.0),
        handshake_weight: r(0.0),
    };
    let (s, _) = score_snapshot(&weights, &cand(40.0, 3.0, 0.0, 1.0).metrics(), steep(0.0));
    assert!(f(s) > 0.0);
}

#[test]
fn heavy_loss_is_punished() {
    let w = ScoreWeights::default();
    let (s3, _) = score_snapshot(&w, &cand(70.0, 5.0, 0.03, 0.8).metrics(), steep(0.03));
    let (s10, _) = score_snapshot(&w, &cand(70.0, 5.0, 0.10, 0.8).metrics(), steep(0.10));
    assert!(s3 > s10);
}

#[test]
fn scoring_stops_at_the_first_synthetic_route() {
    let w = ScoreWeights::default();
    let mut mixed = vec![
        cand(50.0, 5.0, 0.0, 0.9),
        RouteCandidate { source: MeasuredSource::Synthetic, ..cand(10.0, 1.0, 0.0, 1.0) },
        cand(50.0, 5.0, 0.0, 0.9),
    ];
    let powers = [r(1.0), r(1.0), r(1.0)];
    match score_all(&w, &mut mixed, &powers, false) {
        Err(Error::InvalidInput(_)) => {}
        other => panic!("expected a refusal, got {other:?}"),
    }
    assert!(mixed[0].score.is_some());
    assert!(mixed[1].score.is_none() && mixed[2].score.is_none());
}

#[test]
fn part_scores_fall_with_what_they_measure() {
    assert_eq!(f(jitter_score(r(10.0))), 0.5);
    assert_eq!(f(latency_score(r(100.0))), 0.5);
    assert_eq!(f(stability_score(r(1.7))), 1.0);
    assert_eq!(f(stability_score(r(-1.7))), 0.0);
    assert_eq!(f(loss_score(r(0.0), r(9.0))), 1.0);
    assert_eq!(f(loss_score(r(0.7), r(9.0))), 0.0);
    assert_eq!(f(loss_score(r(0.015), steep(0.015))), 0.5);
    assert_eq!(f(loss_score(r(0.015), r(9.0))), 0.5);
    let percent: f64 = 0.05 * 100.0;
    assert_eq!(f(loss_score(r(0.05), steep(0.05))), 1.0 / (1.0 + (percent / 1.5).powf(1.6)));
    assert!(f(loss_score(r(0.05), steep(0.05))) < 0.13);
    assert_eq!(f(loss_scale(r(0.03))), (0.03 * 100.0) / 1.5);
    assert_eq!(f(loss_base(r(0.03))), 1.0 + (0.03 * 100.0) / 1.5);
    assert_eq!(f(handshake_score(r(50.0))), 1.0);
    assert!(handshake_score(r(300.0)) < handshake_score(r(200.0)));
    let b = breakdown_for(&cand(100.0, 10.0, 0.0, 0.5).metrics(), r(1.0));
    assert_eq!((f(b.latency), f(b.jitter), f(b.loss), f(b.stability)), (0.5, 0.5, 1.0, 0.5));
    let only_loss = ScoreWeights {
        latency_weight: r(0.0),
        jitter_weight: r(0.0),
        loss_weight: r(3.0),
        stability_weight: r(0.0),
        handshake_weight: r(0.0),
    };
    assert_eq!(f(combine(&only_loss, &b)), 100.0);
    let n = only_loss.normalize();
    assert_eq!((f(n.loss_weight), f(n.latency_weight)), (1.0, 0.0));
}

/// A trivial signer for tests.
struct DevSigner;
impl ConfigSigner for DevSigner {
    fn verify(&self, _: &[u8], _: &str) -> bool {
        true
    }
}

fn edge(address: &str, expires: u64, signature: Option<String>) -> EdgeInfo {
    EdgeInfo {
        id: "e1".into(),
        region: "ap".into(),
        address: address.into(),
        supported_transports: vec![TransportKind::Quic, TransportKind::Udp],
        priority: None,
        expires_at: expires,
        signature_b64: signature,
    }
}

#[test]
fn rejects_untrusted_host() {
    let v = EdgeVerifier::new(
        vec![TrustedIdentity { hostname: "edge.corp.example.".into(), spki_pin_b64: None }],
        Arc::new(DevSigner),
        true,
    );
    let e = edge("evil.example.", 1_000_000, None);
    let verdict = v.validate_edge(&e, &[TransportKind::Quic, TransportKind::Udp], 1, b"{}", 0);
    assert_eq!(
        verdict,
        ValidationVerdict::UntrustedIdentity {
            detail: "evil.example. is not a trusted edge host".into()
        }
    );
}

#[test]
fn rejects_protocol_mismatch() {
    let v = EdgeVerifier::new(vec![], Arc::new(DevSigner), true);
    let e = edge("edge.example.", 1_000_000, None);
    let verdict = v.validate_edge(&e, &[TransportKind::Quic], 99, b"{}", 0);
    assert!(matches!(verdict, ValidationVerdict::ProtocolMismatch { .. }));
}

#[test]
fn rejects_expired_edge() {
    let v = EdgeVerifier::new(vec![], Arc::new(DevSigner), true);
    let e = edge("edge.example.", 500, None);
    assert_eq!(
        v.validate_edge(&e, &[TransportKind::Quic], 1, b"{}", 1_000),
        ValidationVerdict::Expired
    );
}

#[test]
fn rejects_unsigned_remote_config_by_default() {
    let v = EdgeVerifier::new(
        vec![TrustedIdentity { hostname: "edge.example.".into(), spki_pin_b64: None }],
        Arc::new(NoopConfigSigner { allow_unsigned: false }),
        true,
    );
    let e = edge("edge.example.", 1_000_000, None);
    let verdict = v.validate_edge(&e, &[TransportKind::Quic, TransportKind::Udp], 1, b"{}", 0);
    assert!(matches!(verdict, ValidationVerdict::SignatureInvalid { .. }));
}

#[test]
fn accepts_signed_trusted_edge() {
    let v = EdgeVerifier::new(
        vec![TrustedIdentity { hostname: "edge.example.".into(), spki_pin_b64: None }],
        Arc::new(DevSigner),
        true,
    );
    let e = edge("edge.example.", 1_000_000, Some("abc".into()));
    assert!(v
        .validate_edge(&e, &[TransportKind::Quic, TransportKind::Udp], 1, b"{}", 0)
        .is_ok());
}

#[test]
fn dev_bootstrap_signer_is_explicitly_local_only() {
    let v = EdgeVerifier::new(
        vec![TrustedIdentity { hostname: "edge.example.".into(), spki_pin_b64: None }],
        Arc::new(dev_bootstrap_signer()),
        false,
    );
    let e = edge("edge.example.", 1_000_000, None);
    assert!(v
        .validate_edge(&e, &[TransportKind::Quic, TransportKind::Udp], 1, b"{}", 0)
        .is_ok());
}

#[test]
fn a_signer_without_keys_takes_nothing() {
    let refuse = NoopConfigSigner { allow_unsigned: false };
    assert!(!refuse.verify(b"{}", "abc"));
    assert!(dev_bootstrap_signer().verify(b"{}", "abc"));
    let v = EdgeVerifier::new(
        vec![TrustedIdentity { hostname: "edge.example.".into(), spki_pin_b64: None }],
        Arc::new(refuse),
        true,
    );
    let e = edge("edge.example.", 1_000_000, Some("abc".into()));
    let all = [TransportKind::Quic, TransportKind::Udp];
    assert!(matches!(
        v.validate_edge(&e, &all, 1, b"{}", 0),
        ValidationVerdict::SignatureInvalid { .. }
    ));
}

#[test]
fn reconnect_keeps_session_id() {
    let mut s = Session::begin(TransportKind::Quic, Some("Edge-A".into()), 1_000);
    let sid = s.session_id.clone();
    s.reconnect(TransportKind::Udp, Some("Edge-B".into()), 2_000);
    assert_eq!(s.session_id, sid);
    assert_ne!(s.connection_id, sid);
    assert_eq!(s.reconnect_count, 1);
    assert_eq!(s.edge_id.as_deref(), Some("Edge-B"));
}

#[test]
fn migration_increments_its_own_counter() {
    let mut s = Session::begin(TransportKind::Udp, None, 0);
    for _ in 0..3 {
        s.migrate(TransportKind::Quic, Some("Edge-C".into()), 10);
    }
    assert_eq!(s.migration_count, 3);
    assert_eq!(s.reconnect_count, 0);
}

#[test]
fn unhealthy_time_is_tracked() {
    let mut s = Session::begin(TransportKind::TcpTls, None, 0);
    s.mark_healthy(5_000);
    assert_eq!(s.unhealthy_seconds(9_000), 4);
}

#[test]
fn progresses_through_states_on_consecutive_failures() {
    let mut sm = TransportStateMachine::new(TransportKind::Udp, StateConfig::default());
    for _ in 0..1 {
        sm.record_failure();
    }
    assert_eq!(sm.state, TransportHealth::Healthy, "single failure is not enough");
    sm.record_failure();
    assert_eq!(sm.state, TransportHealth::Degraded);
    for _ in 0..1 {
        sm.record_failure();
    }
    assert_eq!(sm.state, TransportHealth::Failing);
    for _ in 0..2 {
        sm.record_failure();
    }
    assert_eq!(sm.state, TransportHealth::Failed);
    assert!(!sm.is_usable());
}

#[test]
fn recovers_after_successes() {
    let mut sm = TransportStateMachine::new(TransportKind::Udp, StateConfig::default());
    for _ in 0..5 {
        sm.record_failure();
    }
    assert_eq!(sm.state, TransportHealth::Failed);
    sm.begin_recovery();
    assert_eq!(sm.state, TransportHealth::Recovering);
    sm.record_success();
    assert_eq!(sm.state, TransportHealth::Recovering);
    sm.record_success();
    assert_eq!(sm.state, TransportHealth::Healthy);
}

#[test]
fn single_packet_loss_never_fails_transport() {
    let mut sm = TransportStateMachine::new(TransportKind::TcpTls, StateConfig::default());
    sm.record_failure();
    assert_eq!(sm.state, TransportHealth::Healthy);
}

fn result(t: TransportKind, rtt: f64, jit: f64, loss: f64, stability: f64) -> BenchmarkResult {
    BenchmarkResult {
        transport: t,
        handshake_latency_ms: r(60.0),
        sustained_rtt_ms: r(rtt),
        jitter_ms: r(jit),
        packet_loss_ratio: r(loss),
        reconnect_time_ms: r(300.0),
        throughput_bps: r(0.0),
        stability: r(stability),
        source: MeasuredSource::Real,
    }
}

fn select(results: &[BenchmarkResult]) -> Option<TransportKind> {
    let powers: Vec<Reading> =
        results.iter().map(|x| steep(f(x.packet_loss_ratio))).collect();
    select_transport(results, &powers)
}

#[test]
fn selection_does_not_bias_toward_quic() {
    let results = vec![
        result(TransportKind::Quic, 60.0, 40.0, 0.05, 0.6),
        result(TransportKind::Udp, 75.0, 2.0, 0.0, 0.95),
    ];
    assert_eq!(select(&results), Some(TransportKind::Udp));
}

#[test]
fn quic_wins_when_it_actually_wins() {
    let results = vec![
        result(TransportKind::Quic, 40.0, 2.0, 0.0, 0.98),
        result(TransportKind::TcpTls, 90.0, 30.0, 0.03, 0.7),
    ];
    assert_eq!(select(&results), Some(TransportKind::Quic));
}

#[test]
fn synthetic_results_are_ignored() {
    let mut fake = result(TransportKind::Udp, 0.1, 0.1, 0.0, 1.0);
    fake.source = MeasuredSource::Synthetic;
    let results = vec![fake, result(TransportKind::Udp, 50.0, 5.0, 0.0, 0.9)];
    assert_eq!(select(&results), Some(TransportKind::Udp));
}

#[test]
fn empty_input_selects_nothing() {
    assert_eq!(select(&[]), None);
}

#[test]
fn capabilities_are_steady() {
    let quic = capabilities(TransportKind::Quic);
    assert!(quic.supports_connection_migration);
    assert!(quic.stream_multiplexing);
    assert!(quic.reliable);
    let udp = capabilities(TransportKind::Udp);
    assert!(!udp.reliable);
    assert_eq!(udp.overhead_bytes, 8);
}

#[test]
fn only_real_benchmarks_are_selected() {
    let mut fake = result(TransportKind::Quic, 0.1, 0.1, 0.0, 1.0);
    fake.source = MeasuredSource::Synthetic;
    assert_eq!(select(&[fake]), None);
    assert_eq!(
        select(&[fake, result(TransportKind::TcpTls, 500.0, 90.0, 0.4, 0.1)]),
        Some(TransportKind::TcpTls)
    );
    let tie = [
        result(TransportKind::Udp, 50.0, 5.0, 0.0, 0.9),
        result(TransportKind::Quic, 50.0, 5.0, 0.0, 0.9),
    ];
    assert_eq!(select(&tie), Some(TransportKind::Udp), "the first of equals");
    assert_eq!(f(result(TransportKind::Udp, 1.0, 1.0, 0.0, 1.0).metrics().reconnect_rate), 200.0);
    let mut instant = tie[0];
    instant.reconnect_time_ms = r(0.5);
    assert_eq!(f(instant.metrics().reconnect_rate), 60_000.0);
    instant.reconnect_time_ms = r(0.0);
    assert_eq!(f(instant.metrics().reconnect_rate), 0.0);
    let mut phase = BenchmarkPhase::NotStarted;
    for _ in 0..6 {
        phase = phase.next();
    }
    assert_eq!((phase, phase.next()), (BenchmarkPhase::Done, BenchmarkPhase::Done));
}

#[test]
fn a_route_that_is_nowhere_worse_never_scores_lower() {
    let w = ScoreWeights::default();
    let mut rng = StdRng::seed_from_u64(11);
    for _ in 0..2_000 {
        let a = [
            rng.gen_range(0.0..400.0),
            rng.gen_range(0.0..60.0),
            rng.gen_range(0.0..0.6),
            rng.gen_range(0.0..1.2),
            rng.gen_range(0.0..900.0),
        ];
        let worse: Vec<f64> = a.iter().map(|x| x * rng.gen_range(1.0..1.5)).collect();
        let better = MetricsSnapshot {
            latency_ms: r(a[0]),
            jitter_ms: r(a[1]),
            packet_loss_ratio: r(a[2]),
            stability: r(worse[3]),
            handshake_latency_ms: r(a[4]),
            reconnect_rate: r(0.0),
        };
        let other = MetricsSnapshot {
            latency_ms: r(worse[0]),
            jitter_ms: r(worse[1]),
            packet_loss_ratio: r(worse[2]),
            stability: r(a[3]),
            handshake_latency_ms: r(worse[4]),
            reconnect_rate: r(0.0),
        };
        let (high, _) = score_snapshot(&w, &better, steep(a[2]));
        let (low, _) = score_snapshot(&w, &other, steep(worse[2]));
        assert!(high >= low);
        let high = health_score(&HealthInput::from(better), &HealthWeights::default(), power(a[2], 2.0));
        let low = health_score(&HealthInput::from(other), &HealthWeights::default(), power(worse[2], 2.0));
        assert!(high >= low);
    }
}

#[test]
fn an_outage_goes_down_the_chain_one_step_per_failure() {
    let mut fb = FallbackEngine::default();
    let chain = fallback_list();
    for (step, now) in [0u64, 10, 20, 30, 40, 50, 60].iter().enumerate() {
        let expected = chain[step.min(chain.len() - 1)];
        assert_eq!(fb.current(), expected);
        fb.observe(vec![(expected, FailureSignal::HandshakeFailure)], *now);
    }
    assert_eq!(fb.current(), TransportKind::Direct);
}

#[test]
fn delays_are_drawn_below_the_doubled_base() {
    assert_eq!(draw_range(500, 15_000, 0), None);
    assert_eq!(draw_range(0, 15_000, 3), None);
    assert_eq!(draw_range(1, 1, 3), None);
    assert_eq!(draw_range(500, 15_000, 1), Some(1_000));
    assert_eq!(draw_range(500, 15_000, 4), Some(8_000));
    assert_eq!(draw_range(500, 15_000, 5), Some(15_000));
    assert_eq!(draw_range(1, u64::MAX, 40), Some(1 << 20));
    assert_eq!(draw_range(u64::MAX, u64::MAX, 1), Some(u64::MAX));
}

#[test]
fn loss_and_stability_of_a_window_are_shares() {
    let mut rng = StdRng::seed_from_u64(23);
    for _ in 0..200 {
        let mut w = WindowStats::new(16);
        for at in 0..40 {
            if rng.gen_bool(0.3) {
                w.record_loss();
            } else {
                w.record_latency(r(rng.gen_range(0.0..500.0)), at);
            }
        }
        let (loss, stability) = (f(w.loss_ratio()), f(w.stability()));
        assert!((0.0..=1.0).contains(&loss));
        assert!((0.0..=1.0).contains(&stability));
    }
    let overcounted = WindowStats {
        capacity: 4,
        samples: vec![r(10.0), r(30.0)],
        sent: 2,
        lost: 7,
        last_sample_at: None,
    };
    assert_eq!(f(overcounted.loss_ratio()), 1.0);
    assert_eq!(f(overcounted.stability()), 0.0);
}

#[test]
fn gaps_are_halved_and_quartered_down_to_a_floor() {
    let mut s = ProbeScheduler::default();
    s.apply_health(MonitorLevel::High);
    let gaps: Vec<u64> = s.budgets.iter().map(|b| b.min_interval_ms).collect();
    assert_eq!(gaps, vec![15_000, 15_000, 10_000, 30_000, 5_000, 3_000, 30_000, 30_000]);
    s.apply_health(MonitorLevel::Aggressive);
    let gaps: Vec<u64> = s.budgets.iter().map(|b| b.min_interval_ms).collect();
    assert_eq!(gaps, vec![7_500, 7_500, 5_000, 15_000, 2_500, 1_250, 15_000, 15_000]);
    for _ in 0..40 {
        s.apply_health(MonitorLevel::Normal);
    }
    assert!(s.budgets.iter().all(|b| b.min_interval_ms == b.kind.default_min_interval_ms()));
}

#[test]
fn probes_of_other_kinds_do_not_count() {
    let mut s = ProbeScheduler::default();
    s.record(ProbeKind::UdpProbe, 100);
    s.record(ProbeKind::TcpConnect, 15_000);
    s.record(ProbeKind::DnsResolution, 20_000);
    assert!(!s.may_send(ProbeKind::UdpProbe, 20_099));
    assert!(s.may_send(ProbeKind::UdpProbe, 20_100));
    assert!(s.may_send(ProbeKind::QuicHandshake, 20_100));
    assert!(!s.may_send(ProbeKind::DnsResolution, 49_999));
}

#[test]
fn the_bound_on_delays_never_falls() {
    for (base, cap) in [(250, 2_000), (500, 15_000), (0, 10), (7, u64::MAX)] {
        for attempt in 0..40 {
            let bound = backoff_upper_bound_ms(base, cap, attempt);
            assert!(bound <= backoff_upper_bound_ms(base, cap, attempt + 1));
        }
    }
    assert_eq!(backoff_upper_bound_ms(250, 2_000, 3), 2_000);
    assert_eq!(backoff_upper_bound_ms(250, 2_000, 2), 1_000);
}

#[test]
fn the_last_fallback_is_remembered() {
    let mut fb = FallbackEngine::default();
    assert_eq!(fb.last_fallback_at(), None);
    fb.observe(vec![(TransportKind::Quic, FailureSignal::StateFailed)], 700);
    assert_eq!(fb.last_fallback_at(), Some(700));
    fb.observe(vec![(TransportKind::Http2, FailureSignal::StateFailed)], 900);
    assert_eq!(fb.last_fallback_at(), Some(700));
}

#[test]
fn light_probes_are_told_apart() {
    assert!(ProbeKind::DnsResolution.is_lightweight() && ProbeKind::QuicHandshake.is_lightweight());
    assert!(!ProbeKind::TunnelHealth.is_lightweight());
    assert!(!ProbeKind::ApplicationEndpointRtt.is_lightweight());
}
