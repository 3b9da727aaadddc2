//! Edges, events, telemetry, and the engine over simulated networks.
use radin::chaos::pipeline::PipelineState;
use radin::chaos::profile::{ChaosProfile, FailureMode};
use radin::circuit::CircuitState;
use radin::demo::{edge_info, observation};
use radin::edges::{EdgeProbeWeights, EdgeRegistry};
use radin::engine::{route_edge_id, EdgeObservation, EngineConfig, RouteEngine};
use radin::events::{default_severity, Event, EventKind, Severity};
use radin::health::NetworkHealthGrade;
use radin::reading::Reading;
use radin::scoring::{loss_base, loss_scale};
use radin::state::TransportHealth;
use radin::telemetry::{
    DiagnosticBuilder, TelemetryBuffer, TelemetrySample,
};
use radin::transport::capabilities;
use radin::{
    DataPlanePolicy, EdgeInfo, Error, MeasuredSource, MetricsSnapshot, NetworkType, TransportKind,
    VpnState,
};
use rand::rngs::StdRng;
use rand::Rng;

fn r(x: f64) -> Reading {
    Reading { bits: x.to_bits() }
}

fn f(x: Reading) -> f64 {
    f64::from_bits(x.bits)
}

fn powf(base: Reading, exponent: Reading) -> Reading {
    r(f(base).powf(f(exponent)))
}

fn chance(rng: &mut StdRng, p: Reading) -> bool {
    rng.gen_bool(f(p))
}

fn around(rng: &mut StdRng, most: Reading) -> Reading {
    r(rng.gen_range(-f(most)..=f(most)))
}

fn two_way_edge(id: &str, region: &str, address: &str, expires: u64) -> EdgeInfo {
    EdgeInfo {
        id: id.into(),
        region: region.into(),
        address: address.into(),
        supported_transports: vec![TransportKind::Quic, TransportKind::Udp],
        priority: None,
        expires_at: expires,
        signature_b64: None,
    }
}

#[test]
fn expired_edges_are_rejected() {
    let mut reg = EdgeRegistry::default();
    let accepted = reg
        .ingest(
            vec![
                two_way_edge("a", "sg", "1.2.3.4", 100),
                two_way_edge("b", "eu", "5.6.7.8", 10_000),
            ],
            1000,
        )
        .unwrap();
    assert_eq!(accepted, vec!["b"]);
}

fn edge_powers(reg: &EdgeRegistry) -> Vec<Reading> {
    reg.stats.iter().map(|s| powf(loss_base(s.packet_loss_ratio), r(1.3))).collect()
}

#[test]
fn edge_health_scores_rank_stable_edges_first() {
    let mut reg = EdgeRegistry::default();
    reg.ingest(
        vec![
            two_way_edge("sg", "ap-sg", "10.0.0.1", 1_000_000),
            two_way_edge("eu", "eu-west", "10.0.0.2", 1_000_000),
        ],
        0,
    )
    .unwrap();
    let s = reg.stats_mut("sg").unwrap();
    for _ in 0..30 {
        s.observes(r(40.0), r(2.0), false);
    }
    s.record_handshake(r(120.0));
    let j = reg.stats_mut("eu").unwrap();
    for i in 0..30 {
        j.observes(r(38.0), r(40.0), i % 5 == 0);
    }
    j.record_handshake(r(400.0));
    let powers = edge_powers(&reg);
    let report = reg.health_report(&EdgeProbeWeights::default(), &powers, MeasuredSource::Real);
    let sg = report.iter().find(|h| h.edge_id == "sg").unwrap();
    let eu = report.iter().find(|h| h.edge_id == "eu").unwrap();
    assert!(
        sg.score > eu.score,
        "stable 40ms edge must beat fast-but-jittery/lossy edge ({} vs {})",
        f(sg.score),
        f(eu.score)
    );
}

#[test]
fn route_candidates_only_span_supported_transports() {
    let mut reg = EdgeRegistry::default();
    reg.ingest(vec![two_way_edge("sg", "ap-sg", "10.0.0.1", 1_000_000)], 0).unwrap();
    let cands = reg.route_candidates(&[TransportKind::Quic], MeasuredSource::Real);
    assert_eq!(cands.len(), 1);
    assert_eq!(cands[0].transport, TransportKind::Quic);
}

#[test]
fn synthetic_edges_tag_health_as_synthetic() {
    let mut reg = EdgeRegistry::default();
    reg.ingest(vec![two_way_edge("x", "na", "10.9.9.9", 1_000_000)], 0).unwrap();
    reg.stats_mut("x").unwrap().observes(r(20.0), r(1.0), false);
    let powers = edge_powers(&reg);
    let report =
        reg.health_report(&EdgeProbeWeights::default(), &powers, MeasuredSource::Synthetic);
    assert_eq!(report[0].source, MeasuredSource::Synthetic);
}

#[test]
fn statistics_are_smoothed_in_doubles() {
    let mut reg = EdgeRegistry::default();
    reg.ingest(vec![two_way_edge("x", "na", "10.9.9.9", 1_000_000)], 0).unwrap();
    let s = reg.stats_mut("x").unwrap();
    s.observes(r(20.3), r(1.7), false);
    s.observes(r(31.9), r(0.4), true);
    s.record_handshake(r(90.0));
    s.record_handshake(r(50.0));
    s.record_reconnect();
    assert_eq!(f(s.latency_ms), 0.25 * 31.9 + (1.0 - 0.25) * 20.3);
    assert_eq!(f(s.jitter_ms), 0.25 * 0.4 + (1.0 - 0.25) * 1.7);
    assert_eq!(f(s.packet_loss_ratio), 0.5);
    assert_eq!(f(s.availability), 0.5);
    assert_eq!(f(s.handshake_latency_ms), 0.25 * 50.0 + (1.0 - 0.25) * 90.0);
    assert_eq!((s.samples, s.reconnects, s.successes, s.failures), (2, 1, 1, 1));
    assert!(reg.stats("y").is_none());
}

#[test]
fn an_edge_that_comes_again_keeps_its_statistics() {
    let mut reg = EdgeRegistry::default();
    reg.ingest(vec![two_way_edge("x", "na", "10.9.9.9", 1_000_000)], 0).unwrap();
    reg.stats_mut("x").unwrap().observes(r(20.0), r(1.0), false);
    reg.ingest(vec![two_way_edge("x", "eu", "10.9.9.8", 2_000_000)], 0).unwrap();
    assert_eq!(reg.stats("x").unwrap().samples, 1);
    assert_eq!((reg.edges.len(), reg.stats.len()), (1, 1));
    let nameless = two_way_edge("", "eu", "10.9.9.8", 2_000_000);
    let homeless = two_way_edge("y", "eu", "", 2_000_000);
    assert!(reg.ingest(vec![nameless, homeless], 0).unwrap().is_empty());
    assert_eq!((reg.edges.len(), reg.stats.len()), (1, 1));
}

fn engine() -> RouteEngine {
    RouteEngine::new(EngineConfig::default())
}

fn edge(id: &str, region: &str, address: &str) -> EdgeInfo {
    EdgeInfo {
        id: id.into(),
        region: region.into(),
        address: address.into(),
        supported_transports: vec![
            TransportKind::Quic,
            TransportKind::Udp,
            TransportKind::TcpTls,
        ],
        priority: None,
        expires_at: 1_000_000_000,
        signature_b64: None,
    }
}

fn obs(edge_id: &str, latency: f64, jitter: f64, lost: bool) -> EdgeObservation {
    EdgeObservation {
        edge_id: edge_id.into(),
        latency_ms: r(latency),
        jitter_ms: r(jitter),
        lost,
        handshake_ms: None,
    }
}

#[test]
fn engine_selects_best_edge_on_first_observation() {
    let mut e = engine();
    e.set_edges(vec![edge("sg", "ap-sg", "10.0.0.1"), edge("eu", "eu-west", "10.0.0.2")], 0)
        .unwrap();
    for i in 0..10 {
        e.on_edge_observation(&obs("sg", 40.0, 2.0, false), powf, i).unwrap();
    }
    for i in 0..10 {
        e.on_edge_observation(&obs("eu", 38.0, 35.0, i % 4 == 0), powf, i).unwrap();
    }
    assert_eq!(
        e.current_route().map(|c| route_edge_id(&c.id).to_string()),
        Some("sg".to_string())
    );
}

#[test]
fn engine_does_not_flap_on_tiny_latency_gap() {
    let mut e = engine();
    e.set_edges(vec![edge("a", "ap", "10.0.0.3"), edge("b", "na", "10.0.0.4")], 0).unwrap();
    for i in 0..5 {
        e.on_edge_observation(&obs("a", 80.0, 2.0, false), powf, i).unwrap();
    }
    let route_before = e.current_route().map(|c| c.id.clone());
    for i in 5..12 {
        e.on_edge_observation(&obs("b", 77.0, 2.0, false), powf, i).unwrap();
    }
    let route_after = e.current_route().map(|c| c.id.clone());
    assert_eq!(route_before, route_after, "77 vs 80 ms must not flap");
}

#[test]
fn engine_falls_to_direct_when_edges_die_and_allows_fail_safe() {
    let mut e = engine();
    e.set_edges(vec![edge("a", "ap", "10.0.0.5")], 0).unwrap();
    for i in 0..10 {
        e.on_edge_observation(&obs("a", 40.0, 2.0, false), powf, i).unwrap();
    }
    for i in 10..30 {
        e.on_edge_observation(&obs("a", 0.0, 500.0, true), powf, i).unwrap();
    }
    assert_eq!(e.fail_safe_action(), TransportKind::Direct);
    assert!(e.may_forward_direct());
}

#[test]
fn strict_vpn_policy_forbids_leaking_direct() {
    let cfg = EngineConfig {
        data_plane_policy: DataPlanePolicy::StrictVpnOnly,
        ..EngineConfig::default()
    };
    let e = RouteEngine::new(cfg);
    assert!(!e.may_forward_direct());
}

#[test]
fn events_are_structured_and_bounded() {
    let mut e = engine();
    for i in 0..600 {
        e.emit_kind(EventKind::RouteChanged, i, Severity::Info, "flood");
    }
    assert!(e.events.len() <= 512);
    let rep = e.diagnostic_report(1_000).unwrap();
    assert_ne!(rep.route_changes, u64::MAX, "counter is sane");
}

#[test]
fn handshake_failure_accumulates_diagnostics() {
    let mut e = engine();
    e.report_handshake_failure(1);
    e.report_handshake_failure(2);
    assert_eq!(e.counters.handshake_failures, 2);
    let rep = e.diagnostic_report(3).unwrap();
    assert_eq!(rep.handshake_failures, 2);
}

#[test]
fn udp_timeout_feeds_fallback_chain() {
    let mut e = engine();
    e.set_edges(vec![edge("a", "ap", "10.0.0.6")], 0).unwrap();
    for i in 0..10 {
        e.on_edge_observation(&obs("a", 40.0, 3.0, false), powf, i).unwrap();
    }
    for _ in 0..8 {
        e.report_udp_timeout(100);
    }
    assert!(
        e.fallback.current() != TransportKind::Udp
            || !matches!(
                e.transport_state(TransportKind::Udp).map(|s| s.state),
                Some(TransportHealth::Healthy)
            )
    );
}

#[test]
fn an_unknown_edge_changes_nothing() {
    let mut e = engine();
    e.set_edges(vec![edge("a", "ap", "10.0.0.6")], 0).unwrap();
    match e.on_edge_observation(&obs("zz", 40.0, 3.0, true), powf, 1) {
        Err(Error::UnknownEdge(id)) => assert_eq!(id, "zz"),
        other => panic!("expected a refusal, got {other:?}"),
    }
    assert!(e.current_route().is_none() && e.telemetry.is_empty());
    match e.adapt("zz", &vec![r(1.0); e.routes().len()], r(1.0), 1) {
        Err(Error::UnknownEdge(id)) => assert_eq!(id, "zz"),
        other => panic!("expected a refusal, got {other:?}"),
    }
}

#[test]
fn measuring_and_adapting_make_an_observation() {
    let (mut one, mut two) = (engine(), engine());
    for e in [&mut one, &mut two] {
        e.set_edges(vec![edge("a", "ap", "10.0.0.6")], 0).unwrap();
    }
    let o = obs("a", 40.0, 3.0, true);
    one.on_edge_observation(&o, powf, 7).unwrap();
    two.measure(&o, 7).unwrap();
    let powers: Vec<Reading> = two
        .routes()
        .iter()
        .map(|c| powf(loss_scale(c.packet_loss_ratio), r(1.6)))
        .collect();
    let loss = two.registry.stats("a").unwrap().packet_loss_ratio;
    two.adapt("a", &powers, powf(loss_base(loss), r(2.0)), 7).unwrap();
    assert_eq!(one.current_route().unwrap().id, two.current_route().unwrap().id);
    assert_eq!(
        one.current_route().unwrap().score.unwrap().bits,
        two.current_route().unwrap().score.unwrap().bits
    );
    assert_eq!(one.telemetry.len(), 1);
    assert_eq!(one.health.grade, two.health.grade);
    assert_eq!(one.events.len(), two.events.len());
}

#[test]
fn a_session_survives_a_switch() {
    let mut e = engine();
    e.set_edges(vec![edge("a", "ap", "10.0.0.3"), edge("b", "na", "10.0.0.4")], 0).unwrap();
    for i in 0..5 {
        e.on_edge_observation(&obs("a", 150.0, 15.0, false), powf, i).unwrap();
    }
    let session = e.session.as_ref().unwrap().session_id.clone();
    let connection = e.session.as_ref().unwrap().connection_id.clone();
    for i in 0..60 {
        let at = 10_000 + i * 1_000;
        e.on_edge_observation(&obs("a", 240.0, 40.0, i % 3 == 0), powf, at).unwrap();
        e.on_edge_observation(&obs("b", 20.0, 1.0, false), powf, at).unwrap();
    }
    assert_eq!(route_edge_id(&e.current_route().unwrap().id), "b");
    let s = e.session.as_ref().unwrap();
    assert_eq!(s.session_id, session);
    assert!(s.migration_count >= 1);
    assert_ne!(s.connection_id, connection);
}

#[test]
fn vpn_and_network_changes_are_reported() {
    let mut e = engine();
    e.set_vpn_state(VpnState::Connected, 5);
    e.set_network_type(NetworkType::FiveG, 6);
    e.report_dns_failure(7);
    let kinds: Vec<EventKind> = e.events.iter().map(|x| x.kind).collect();
    assert!(kinds.contains(&EventKind::VpnConnected));
    assert!(kinds.contains(&EventKind::NetworkChanged));
    assert!(kinds.contains(&EventKind::DnsFailure));
    assert_eq!(e.counters.dns_failures, 1);
}

#[test]
fn spikes_of_a_kind_are_not_repeated_at_once() {
    let mut e = engine();
    e.set_edges(vec![edge("a", "ap", "10.0.0.3")], 0).unwrap();
    let spikes = |e: &RouteEngine| {
        e.events.iter().filter(|x| x.kind == EventKind::LatencySpike).count()
    };
    e.measure(&obs("a", 400.0, 1.0, false), 1_000).unwrap();
    e.measure(&obs("a", 400.0, 1.0, false), 1_499).unwrap();
    assert_eq!(spikes(&e), 1);
    e.measure(&obs("a", 400.0, 1.0, false), 1_500).unwrap();
    assert_eq!(spikes(&e), 2);
    e.set_network_type(NetworkType::Wifi, 1_600);
    e.measure(&obs("a", 400.0, 90.0, true), 1_700).unwrap();
    assert_eq!(spikes(&e), 2, "other events between do not count");
}

#[test]
fn event_carries_full_context() {
    let e = Event::new(EventKind::EdgeSelected, 1234)
        .with_network(NetworkType::FiveG)
        .with_route("Edge-SG-01")
        .with_transport(TransportKind::Quic)
        .with_reason("best score")
        .with_severity(Severity::Info);
    assert_eq!(e.kind.as_str(), "EDGE_SELECTED");
    assert_eq!(e.network, NetworkType::FiveG);
    assert_eq!(e.route.as_deref(), Some("Edge-SG-01"));
}

#[test]
fn fixed_vocabulary_is_stable() {
    assert_eq!(EventKind::CircuitOpen.as_str(), "CIRCUIT_OPEN");
    assert_eq!(EventKind::RouteChanged.as_str(), "ROUTE_CHANGED");
    assert_eq!(EventKind::VpnConnected.as_str(), "VPN_CONNECTED");
}

#[test]
fn events_can_carry_metrics() {
    let m = MetricsSnapshot {
        latency_ms: r(1.0),
        jitter_ms: r(2.0),
        packet_loss_ratio: r(0.0),
        stability: r(1.0),
        handshake_latency_ms: r(3.0),
        reconnect_rate: r(0.0),
    };
    let e = Event::new(EventKind::CircuitOpen, 1).with_metrics(m);
    assert_eq!(f(e.metrics.unwrap().jitter_ms), 2.0);
    assert_eq!(e.severity, Severity::Info);
    assert_eq!(default_severity(EventKind::CircuitOpen), Severity::Warning);
    assert_eq!(default_severity(EventKind::RouteChanged), Severity::Info);
}

fn sample(at: u64, source: MeasuredSource) -> TelemetrySample {
    TelemetrySample {
        at,
        network: NetworkType::FiveG,
        route: Some("Edge-SG-01".into()),
        transport: Some(TransportKind::Quic),
        latency_ms: r(72.0),
        jitter_ms: r(2.4),
        packet_loss_ratio: r(0.003),
        source,
    }
}

fn decimal(x: Reading, digits: usize) -> String {
    format!("{:.*}", digits, f(x))
}

#[test]
fn rolling_buffer_drops_oldest() {
    let mut buf = TelemetryBuffer::new(3);
    for i in 0..5 {
        buf.push(sample(i, MeasuredSource::Real)).unwrap();
    }
    assert_eq!(buf.len(), 3);
    assert_eq!(buf.samples.front().unwrap().at, 2);
}

#[test]
fn refuses_synthetic_data_on_production_channel() {
    let mut buf = TelemetryBuffer::new(10);
    assert!(buf.push(sample(0, MeasuredSource::Synthetic)).is_err());
    assert!(buf.is_empty());
}

#[test]
fn report_never_builds_from_synthetic() {
    let b = DiagnosticBuilder::new(MeasuredSource::Synthetic);
    assert!(b.build(0, None, None, &[], 0, 0, 0, 0).is_err());
}

#[test]
fn report_shows_measured_truth() {
    let b = DiagnosticBuilder::new(MeasuredSource::Real);
    let events =
        vec![Event::new(EventKind::HandshakeFailure, 1), Event::new(EventKind::DnsFailure, 2)];
    let rep = b
        .build(100, Some(&sample(99, MeasuredSource::Real)), None, &events, 1, 2, 0, 1)
        .unwrap();
    assert_eq!(rep.rtt_ms.map(f), Some(72.0));
    let loss_pct = f(rep.packet_loss_pct.unwrap());
    assert!((loss_pct - 0.3).abs() < 1e-9, "packet loss % honest: {loss_pct}");
    assert_eq!(rep.handshake_failures, 1);
    assert_eq!(rep.dns_failures, 1);
    let text = rep.render_plaintext(decimal);
    assert!(text.contains("RTT:                    72.0 ms"));
    assert!(text.contains("Selected Edge:          Edge-SG-01"));
    assert!(!text.contains("password"));
}

#[test]
fn an_empty_report_shows_counts_only() {
    let rep = DiagnosticBuilder::new(MeasuredSource::Real)
        .build(1, None, None, &[], 11, 22, 33, 44)
        .unwrap();
    assert_eq!(
        rep.render_plaintext(decimal),
        "RADIN Network Diagnostic Report\n\
         ===============================\n\
         Reconnects:             11\n\
         Route Changes:          22\n\
         Transport Fallbacks:    33\n\
         Circuit Trips:          44\n\
         Handshake Failures:     0\n\
         DNS Failures:           0\n\
         (No packet payloads, credentials, or user data included.)\n"
    );
}

#[test]
fn only_test_code_taints_a_buffer() {
    let mut buf = TelemetryBuffer::new(2);
    buf.push(sample(0, MeasuredSource::Real)).unwrap();
    assert!(buf.is_pristine());
    buf.push_synthetic(sample(1, MeasuredSource::Synthetic));
    assert!(!buf.is_pristine());
    buf.push_event(Event::new(EventKind::RouteChanged, 1));
    assert_eq!((buf.len(), buf.events.len()), (2, 1));
}

/// A simulated edge: a pipeline that its probes go through.
struct SimEdge {
    id: String,
    region: String,
    address: String,
    pipeline: PipelineState,
}

impl SimEdge {
    fn new(id: &str, region: &str, address: &str, profile: ChaosProfile, seed: u64) -> Self {
        Self {
            id: id.to_string(),
            region: region.to_string(),
            address: address.to_string(),
            pipeline: PipelineState::from_profile(profile, seed),
        }
    }

    fn probe(&mut self, n: u64, probe_ms: u64) -> EdgeObservation {
        let fates = self.pipeline.run(n, probe_ms, &chance, &around);
        observation(&self.id, &fates)
    }
}

/// A simulated world: some edges, and the engine under test.
struct Sim {
    engine: RouteEngine,
    edges: Vec<SimEdge>,
    now: u64,
}

impl Sim {
    fn new(cfg: EngineConfig, edges: Vec<SimEdge>) -> Self {
        let mut engine = RouteEngine::new(cfg);
        let infos: Vec<EdgeInfo> =
            edges.iter().map(|e| edge(&e.id, &e.region, &e.address)).collect();
        engine.set_edges(infos, 0).unwrap();
        engine.set_network_type(NetworkType::Wifi, 0);
        engine.set_vpn_state(VpnState::Disconnected, 0);
        Self { engine, edges, now: 0 }
    }

    fn run(&mut self, rounds: u64, interval_ms: u64) {
        for _ in 0..rounds {
            self.now += interval_ms;
            let obs = self.sample_all();
            for o in obs {
                self.engine.on_edge_observation(&o, powf, self.now).unwrap();
            }
        }
    }

    fn sample_all(&mut self) -> Vec<EdgeObservation> {
        let mut obs = Vec::new();
        for edge in self.edges.iter_mut() {
            obs.push(edge.probe(16, self.now));
        }
        obs
    }
}

fn default_cfg() -> EngineConfig {
    EngineConfig {
        supported_transports: vec![
            TransportKind::Quic,
            TransportKind::Udp,
            TransportKind::TcpTls,
            TransportKind::Http2,
            TransportKind::WebSocketTls,
        ],
        ..EngineConfig::default()
    }
}

fn route_id(sim: &Sim) -> Option<String> {
    sim.engine.current_route().map(|c| c.id.clone())
}

#[test]
fn fast_path_is_stable_on_healthy_top_edge() {
    let mut sim = Sim::new(
        default_cfg(),
        vec![
            SimEdge::new("Edge-SG-01", "sgp", "10.0.0.1", ChaosProfile::with_latency(r(15.0)), 501),
            SimEdge::new(
                "Edge-TYO-01",
                "tyo",
                "10.0.0.2",
                ChaosProfile::with_latency(r(90.0)),
                502,
            ),
        ],
    );
    sim.run(10, 200);
    let first = route_id(&sim);
    assert!(first.is_some(), "engine must have a route");
    sim.run(30, 200);
    assert_eq!(route_id(&sim), first, "no flapping while routes stay healthy");
}

#[test]
fn sustained_degradation_eventually_switches_edge() {
    let mut sim = Sim::new(
        default_cfg(),
        vec![
            SimEdge::new("Edge-SG-01", "sgp", "10.0.0.1", ChaosProfile::with_latency(r(15.0)), 601),
            SimEdge::new(
                "Edge-FRA-01",
                "fra",
                "10.0.0.3",
                ChaosProfile::with_latency(r(120.0)),
                602,
            ),
        ],
    );
    sim.run(10, 200);
    let before = route_id(&sim);
    assert_eq!(before.as_deref(), Some("Edge-SG-01-quic"), "SG wins on latency");
    sim.edges[0] =
        SimEdge::new("Edge-SG-01", "sgp", "10.0.0.1", ChaosProfile::with_loss(r(0.08)), 603);
    sim.run(60, 200);
    let after = route_id(&sim);
    assert_ne!(
        after.as_deref(),
        Some("Edge-SG-01-quic"),
        "engine must leave the degrading edge"
    );
}

#[test]
fn total_outage_fails_safe_to_direct_when_allowed() {
    let mut sim = Sim::new(
        default_cfg(),
        vec![
            SimEdge::new("Edge-SG-01", "sgp", "10.0.0.1", ChaosProfile::with_latency(r(15.0)), 701),
            SimEdge::new(
                "Edge-TYO-01",
                "tyo",
                "10.0.0.2",
                ChaosProfile::with_latency(r(20.0)),
                702,
            ),
        ],
    );
    sim.run(6, 200);
    assert!(sim.engine.current_route().is_some());
    let death = ChaosProfile::with_failure(FailureMode::ResetEveryPackets(1));
    sim.edges[0] = SimEdge::new("Edge-SG-01", "sgp", "10.0.0.1", death, 703);
    sim.edges[1] = SimEdge::new("Edge-TYO-01", "tyo", "10.0.0.2", death, 704);
    sim.run(40, 200);
    assert_eq!(sim.engine.fail_safe_action(), TransportKind::Direct);
    assert!(sim.engine.may_forward_direct(), "allow-direct policy lets us fall back");
    for (i, t) in [
        TransportKind::Quic,
        TransportKind::Udp,
        TransportKind::TcpTls,
        TransportKind::Http2,
        TransportKind::WebSocketTls,
    ]
    .into_iter()
    .enumerate()
    {
        assert_eq!(
            sim.engine.fallback.current(),
            t,
            "chain position {i} must be {t:?} before failing it"
        );
        for _ in 0..8 {
            sim.engine.report_transport_failure(t, sim.now);
        }
    }
    assert_eq!(sim.engine.fallback.current(), TransportKind::Direct, "chain ends at Direct");
    assert!(sim.engine.counters.transport_fallbacks >= 1, "fallback must be recorded");
}

#[test]
fn strict_vpn_policy_never_leaks_direct() {
    let cfg =
        EngineConfig { data_plane_policy: DataPlanePolicy::StrictVpnOnly, ..default_cfg() };
    let death = ChaosProfile::with_failure(FailureMode::ResetEveryPackets(1));
    let mut sim = Sim::new(cfg, vec![SimEdge::new("Edge-SG-01", "sgp", "10.0.0.1", death, 801)]);
    sim.run(40, 200);
    assert!(!sim.engine.may_forward_direct(), "must NOT leak direct under strict policy");
}

#[test]
fn recovery_after_outage_restores_best_route_and_health() {
    let death = ChaosProfile::with_failure(FailureMode::ResetEveryPackets(1));
    let healthy = ChaosProfile::with_latency(r(25.0));
    let mut sim =
        Sim::new(default_cfg(), vec![SimEdge::new("Edge-SG-01", "sgp", "10.0.0.1", death, 901)]);
    sim.run(30, 200);
    assert!(sim.engine.may_forward_direct());
    let bleak = sim.engine.network_health_grade();
    assert!(bleak.is_worse_than(NetworkHealthGrade::Good));
    sim.edges[0] = SimEdge::new("Edge-SG-01", "sgp", "10.0.0.1", healthy, 902);
    sim.run(10, 200);
    assert_eq!(
        route_id(&sim).as_deref(),
        Some("Edge-SG-01-quic"),
        "recovery reselects best route"
    );
    sim.engine.report_transport_success(TransportKind::Quic, sim.now);
    sim.run(40, 200);
    let recovered = sim.engine.network_health_grade();
    assert!(
        recovered.is_better_than(NetworkHealthGrade::Critical)
            || recovered == NetworkHealthGrade::Good,
        "health must recover after sustained improvement"
    );
}

#[test]
fn circuit_breaker_quarantines_failing_transport() {
    let mut sim = Sim::new(
        default_cfg(),
        vec![SimEdge::new(
            "Edge-SG-01",
            "sgp",
            "10.0.0.1",
            ChaosProfile::with_latency(r(10.0)),
            1001,
        )],
    );
    sim.run(6, 200);
    let route = sim.engine.current_route().expect("route").clone();
    for _ in 0..8 {
        sim.engine.report_transport_failure(route.transport, sim.now);
    }
    let key = format!("{}:{}", route.id, route.transport.as_str());
    let breaker = sim.engine.breaker(&key).expect("breaker exists");
    assert!(
        matches!(breaker.state, CircuitState::Open { .. }),
        "repeated failures trip the breaker"
    );
    assert!(sim.engine.counters.circuit_trips >= 1, "circuit trip counted");
}

#[test]
fn spikes_surface_as_structured_events() {
    let mut sim = Sim::new(
        default_cfg(),
        vec![SimEdge::new(
            "Edge-SG-01",
            "sgp",
            "10.0.0.1",
            ChaosProfile::with_latency(r(10.0)),
            1101,
        )],
    );
    sim.run(4, 200);
    let before = sim.engine.telemetry.events.len();
    sim.edges[0] =
        SimEdge::new("Edge-SG-01", "sgp", "10.0.0.1", ChaosProfile::with_loss(r(0.10)), 1102);
    sim.run(12, 200);
    assert!(sim.engine.telemetry.events.len() > before, "degradation must produce events");
    let kinds: Vec<EventKind> = sim.engine.telemetry.events.iter().map(|e| e.kind).collect();
    assert!(
        kinds.contains(&EventKind::PacketLossSpike)
            || kinds.contains(&EventKind::EdgeDegraded)
            || kinds.contains(&EventKind::RouteChanged)
            || kinds.contains(&EventKind::TransportFallback),
        "expected a spike/degradation kind, got {kinds:?}"
    );
}

#[test]
fn telemetry_export_is_honest_and_real() {
    let mut sim = Sim::new(
        default_cfg(),
        vec![SimEdge::new(
            "Edge-SG-01",
            "sgp",
            "10.0.0.1",
            ChaosProfile::with_latency(r(20.0)),
            1201,
        )],
    );
    sim.run(6, 200);
    let rep = sim.engine.diagnostic_report(sim.now).unwrap();
    assert_eq!(rep.source, MeasuredSource::Real);
    assert!(rep.rtt_ms.is_some());
    assert!(
        DiagnosticBuilder::new(MeasuredSource::Synthetic)
            .build(0, None, None, &[], 0, 0, 0, 0)
            .is_err(),
        "Synthetic diagnostics are refused"
    );
}

#[test]
fn restrictive_network_symptom_is_recorded() {
    let mut sim = Sim::new(
        default_cfg(),
        vec![SimEdge::new(
            "Edge-SG-01",
            "sgp",
            "10.0.0.1",
            ChaosProfile::with_latency(r(25.0)),
            1301,
        )],
    );
    sim.engine.report_udp_timeout(sim.now);
    sim.engine.report_udp_timeout(sim.now + 1);
    sim.engine.report_udp_timeout(sim.now + 2);
    assert!(
        !sim.engine.restriction_description().is_empty(),
        "restriction hint must be actionable"
    );
    assert_eq!(sim.engine.restrictions.flagged(3).len(), 1);
}

#[test]
fn a_demo_edge_can_be_ingested() {
    let info = edge_info("Edge-SG-01", "sgp", "10.0.0.1");
    let mut reg = EdgeRegistry::default();
    assert_eq!(reg.ingest(vec![info], 0).unwrap(), vec!["Edge-SG-01"]);
}

#[test]
fn edges_that_expired_since_are_dropped() {
    let mut reg = EdgeRegistry::default();
    reg.ingest(
        vec![two_way_edge("old", "ap", "10.0.0.1", 500), two_way_edge("new", "ap", "10.0.0.2", 9_000)],
        0,
    )
    .unwrap();
    assert_eq!(reg.edges.len(), 2);
    reg.ingest(vec![two_way_edge("next", "eu", "10.0.0.3", 9_000)], 500).unwrap();
    let ids: Vec<&str> = reg.edges.iter().map(|e| e.id.as_str()).collect();
    assert_eq!(ids, vec!["new", "next"]);
    assert!(reg.stats("old").is_none() && reg.stats("new").is_some());
}

#[test]
fn a_synthetic_sample_makes_no_real_report() {
    let b = DiagnosticBuilder::new(MeasuredSource::Real);
    match b.build(1, Some(&sample(0, MeasuredSource::Synthetic)), None, &[], 0, 0, 0, 0) {
        Err(Error::InvalidInput(_)) => {}
        other => panic!("expected a refusal, got {other:?}"),
    }
    assert!(b.build(1, Some(&sample(0, MeasuredSource::Real)), None, &[], 0, 0, 0, 0).is_ok());
}

#[test]
fn one_failure_moves_nothing() {
    let mut e = engine();
    e.report_transport_failure(TransportKind::Quic, 1_000);
    let machine = e.transport_state(TransportKind::Quic).unwrap();
    assert_eq!(machine.state, TransportHealth::Healthy);
    assert_eq!(e.fallback.current(), TransportKind::Quic);
    assert_eq!(e.counters.circuit_trips, 0);
}

#[test]
fn trips_are_counted_as_breakers_open() {
    let mut e = engine();
    e.set_edges(vec![edge("a", "ap", "10.0.0.6"), edge("b", "eu", "10.0.0.7")], 0).unwrap();
    e.on_edge_observation(&obs("a", 40.0, 2.0, false), powf, 1).unwrap();
    let opened = |e: &RouteEngine| {
        e.events.iter().filter(|ev| ev.kind == EventKind::CircuitOpen).count() as u64
    };
    let threshold = e.cfg.circuit.failure_threshold;
    for i in 1..threshold {
        e.report_transport_failure(TransportKind::Quic, 10 + i as u64);
        assert_eq!((e.counters.circuit_trips, opened(&e)), (0, 0));
    }
    e.report_transport_failure(TransportKind::Quic, 100);
    let open = e
        .breakers
        .iter()
        .filter(|b| matches!(b.state, CircuitState::Open { .. }))
        .count() as u64;
    assert_eq!(open, 2);
    assert_eq!((e.counters.circuit_trips, opened(&e)), (2, 2));
}

#[test]
fn the_route_left_is_under_cooldown() {
    let mut e = engine();
    e.set_edges(vec![edge("a", "ap", "10.0.0.3"), edge("b", "na", "10.0.0.4")], 0).unwrap();
    for i in 0..5 {
        e.on_edge_observation(&obs("a", 150.0, 15.0, false), powf, i).unwrap();
    }
    let left = e.current_route().unwrap().id.clone();
    let mut at = 10_000;
    while e.current_route().unwrap().id == left && at < 100_000 {
        e.on_edge_observation(&obs("a", 240.0, 40.0, true), powf, at).unwrap();
        e.on_edge_observation(&obs("b", 20.0, 1.0, false), powf, at).unwrap();
        at += 1_000;
    }
    let chosen = e.current_route().unwrap().id.clone();
    assert_ne!(chosen, left);
    let banned: Vec<&str> = e.decider.state.cooldowns.iter().map(|c| c.0.as_str()).collect();
    assert!(banned.contains(&left.as_str()) && !banned.contains(&chosen.as_str()));
}

#[test]
fn the_decider_starts_from_the_usual_rules() {
    let mut cfg = EngineConfig::default();
    cfg.hysteresis.route_cooldown_ms = 123;
    let e = RouteEngine::new(cfg);
    assert_eq!(e.decider.cfg.route_cooldown_ms, 15_000);
    assert_eq!(e.cfg.hysteresis.route_cooldown_ms, 123);
}

#[test]
fn best_effort_is_what_is_not_reliable() {
    for kind in [
        TransportKind::Quic,
        TransportKind::Udp,
        TransportKind::TcpTls,
        TransportKind::Http2,
        TransportKind::WebSocketTls,
        TransportKind::Direct,
    ] {
        assert_eq!(kind.is_best_effort(), !capabilities(kind).reliable);
    }
    assert!(TransportKind::Udp.is_best_effort() && TransportKind::Direct.is_best_effort());
}

#[test]
fn kinds_of_event_have_texts_of_their_own() {
    let kinds = [
        EventKind::NetworkChanged,
        EventKind::EdgeSelected,
        EventKind::EdgeDegraded,
        EventKind::EdgeFailed,
        EventKind::EdgeRecovered,
        EventKind::TransportChanged,
        EventKind::VpnConnected,
        EventKind::VpnDisconnected,
        EventKind::RouteChanged,
        EventKind::DnsFailure,
        EventKind::HandshakeFailure,
        EventKind::PacketLossSpike,
        EventKind::JitterSpike,
        EventKind::LatencySpike,
        EventKind::CircuitOpen,
        EventKind::CircuitClosed,
        EventKind::SessionResumed,
        EventKind::NetworkMigration,
        EventKind::TransportFallback,
        EventKind::SyncCompleted,
    ];
    for a in kinds {
        for b in kinds {
            assert_eq!(a.as_str() == b.as_str(), a == b);
        }
    }
}
