//! The reference server, the demo, and the boundary to other languages.
use radin::boundary::{
    block_len, error_bytes, error_text, network_type, text_block, transport_int, transport_kind,
    vpn_state,
};
use radin::chaos::pipeline::PacketResult;
use radin::demo::{self, observation, DemoCommand, DemoOptions, Phase, ReportFormat, Scenario};
use radin::server::{
    idempotency_key, parse_command, reference_edges, BenchmarkOutcome, EdgeHealthStatus,
    ServerCommand, ServerState, TelemetryOutcome, EDGE_LIFETIME_MS,
};
use radin::reading::Reading;
use radin::{NetworkType, TransportKind, VpnState};

fn args(words: &[&str]) -> Vec<String> {
    words.iter().map(|w| w.to_string()).collect()
}

#[test]
fn repeated_requests_are_not_applied_twice() {
    let mut s = ServerState::new_with_edges(reference_edges(1_000));
    assert!(matches!(s.benchmark(Some("k1"), Some(4)), BenchmarkOutcome::Accepted(4)));
    assert!(matches!(s.benchmark(Some("k1"), Some(9)), BenchmarkOutcome::Duplicate));
    assert!(matches!(s.benchmark(Some("k2"), None), BenchmarkOutcome::Invalid));
    assert!(matches!(s.benchmark(Some("k2"), Some(1)), BenchmarkOutcome::Duplicate));
    assert!(matches!(s.telemetry(Some("t1"), 12), TelemetryOutcome::Accepted));
    match s.telemetry(Some("t1"), 99) {
        TelemetryOutcome::Duplicate(first) => assert_eq!(first, "accepted:12"),
        other => panic!("expected a duplicate, got {other:?}"),
    }
}

#[test]
fn requests_without_a_key_share_one() {
    let mut s = ServerState::default();
    assert!(matches!(s.benchmark(None, Some(1)), BenchmarkOutcome::Accepted(1)));
    assert!(matches!(s.benchmark(None, Some(1)), BenchmarkOutcome::Duplicate));
    assert!(matches!(s.telemetry(None, 1), TelemetryOutcome::Accepted));
    assert!(idempotency_key(None).is_none());
    assert_eq!(idempotency_key(Some("abc")).as_deref(), Some("abc"));
}

#[test]
fn reference_edges_are_good_for_a_day() {
    let edges = reference_edges(1_000);
    assert_eq!(edges.len(), 4);
    for e in &edges {
        assert_eq!(e.expires_at, 1_000 + EDGE_LIFETIME_MS);
    }
    let mut s = ServerState::new_with_edges(edges);
    assert_eq!(s.edge_list().len(), 4);
    assert_eq!(
        s.primary_transports(),
        vec![
            TransportKind::Quic,
            TransportKind::Udp,
            TransportKind::TcpTls,
            TransportKind::WebSocketTls,
        ]
    );
    assert!(s.health_summary("asia").is_none());
    s.health.push(EdgeHealthStatus {
        id: "edge-asia-1".into(),
        status: "ok".into(),
        region: "asia".into(),
        version: "1".into(),
        load: Reading { bits: 0 },
        timestamp: 7,
    });
    assert_eq!(s.health_summary("asia").unwrap().id, "edge-asia-1");
    assert!(s.health_summary("nowhere").is_none());
}

#[test]
fn the_server_reads_its_arguments() {
    match parse_command(&args(&["--port", "9000", "--bind", "0.0.0.0"])) {
        ServerCommand::Serve { bind, port } => assert_eq!((bind.as_str(), port), ("0.0.0.0", 9000)),
        other => panic!("expected to serve, got {other:?}"),
    }
    match parse_command(&[].to_vec()) {
        ServerCommand::Serve { bind, port } => {
            assert_eq!((bind.as_str(), port), ("127.0.0.1", 8787))
        }
        other => panic!("expected to serve, got {other:?}"),
    }
    assert!(matches!(parse_command(&args(&["-h"])), ServerCommand::Help));
    assert!(matches!(parse_command(&args(&["--port", "70000"])), ServerCommand::BadPort));
    assert!(matches!(parse_command(&args(&["--port", "x"])), ServerCommand::BadPort));
    assert!(matches!(parse_command(&args(&["--bind"])), ServerCommand::MissingValue(f) if f == "--bind"));
    assert!(matches!(parse_command(&args(&["--x"])), ServerCommand::Unknown(f) if f == "--x"));
}

#[test]
fn the_demo_reads_its_arguments() {
    match demo::parse_command(&args(&["--scenario", "smoke", "--report", "json", "--ms", "50"])) {
        DemoCommand::Run(o) => {
            assert_eq!(o.scenario, Scenario::Smoke);
            assert_eq!(o.report, ReportFormat::Json);
            assert_eq!((o.interval_ms, o.rounds), (50, None));
            assert_eq!(o.rounds_in(Phase::Outage), 5);
        }
        other => panic!("expected to run, got {other:?}"),
    }
    match demo::parse_command(&args(&["--rounds", "3"])) {
        DemoCommand::Run(o) => {
            assert_eq!((o.interval_ms, o.rounds), (200, Some(3)));
            assert_eq!(o.rounds_in(Phase::Calm), 3);
        }
        other => panic!("expected to run, got {other:?}"),
    }
    let full = DemoOptions {
        scenario: Scenario::Full,
        report: ReportFormat::Plain,
        interval_ms: 200,
        rounds: None,
    };
    let phases =
        [Phase::Healthy, Phase::Degraded, Phase::Outage, Phase::Recovery, Phase::Calm];
    assert_eq!(phases.map(|p| full.rounds_in(p)), [20, 50, 10, 60, 90]);
    assert!(matches!(demo::parse_command(&args(&["--version"])), DemoCommand::Version));
    assert!(matches!(demo::parse_command(&args(&["--help"])), DemoCommand::Help));
    let misuse = |words: &[&str]| match demo::parse_command(&args(words)) {
        DemoCommand::Misuse(m) => m,
        other => panic!("expected misuse, got {other:?}"),
    };
    assert_eq!(misuse(&["--bogus"]), "unknown argument: --bogus");
    assert_eq!(misuse(&["--ms"]), "missing value: --ms");
    assert_eq!(misuse(&["--ms", "fast"]), "--ms must be a number of milliseconds");
    assert_eq!(misuse(&["--rounds", "-1"]), "--rounds must be a number of rounds");
    assert_eq!(misuse(&["--scenario", "x"]), "--scenario must be full or smoke");
    assert_eq!(misuse(&["--report", "x"]), "--report must be plain or json");
}

fn delivered(delay_ms: u64) -> PacketResult {
    PacketResult::Delivered { seq: 0, delay_ms, reordered: false }
}

#[test]
fn fates_sum_up_to_an_observation() {
    let o = observation("e", &vec![delivered(10), delivered(14), delivered(13), delivered(23)]);
    assert_eq!(o.edge_id, "e");
    assert_eq!(f64::from_bits(o.latency_ms.bits), 15.0);
    assert_eq!(f64::from_bits(o.jitter_ms.bits), 4.0);
    assert!(!o.lost && o.handshake_ms.is_none());
    let gone = observation("e", &vec![PacketResult::Dropped { seq: 0 }]);
    assert_eq!(f64::from_bits(gone.latency_ms.bits), 9999.0);
    assert!(!gone.lost, "a single packet is no measure of loss");
    let down = observation("e", &vec![PacketResult::ConnectionDown { seq: 0 }]);
    assert!(down.lost);
    let mut nine = vec![delivered(5); 9];
    nine.push(PacketResult::Dropped { seq: 9 });
    assert!(!observation("e", &nine).lost, "nine of ten arrive");
    nine.push(PacketResult::Dropped { seq: 10 });
    assert!(observation("e", &nine).lost);
}

#[test]
fn codes_stand_for_kinds() {
    for code in 0..6 {
        assert_eq!(transport_int(transport_kind(code).unwrap()), code);
    }
    assert!(transport_kind(6).is_none() && transport_kind(-1).is_none());
    assert_eq!(network_type(1), NetworkType::FiveG);
    assert_eq!(network_type(77), NetworkType::Unknown);
    assert_eq!(vpn_state(2), VpnState::Connected);
    assert_eq!(vpn_state(-5), VpnState::Disconnected);
}

#[test]
fn messages_fit_their_buffers() {
    assert_eq!(error_text("parse", "bad edge"), "parse: bad edge");
    assert_eq!(error_bytes(b"hello", 6), b"hello\0");
    assert_eq!(error_bytes(b"hello", 4), b"hel\0");
    assert_eq!(error_bytes(b"hello", 1), b"\0");
    assert!(error_bytes(b"hello", 0).is_empty());
}

#[test]
fn blocks_know_their_length() {
    let text = vec![b'x'; 70_000];
    let block = text_block(&text);
    assert_eq!(block_len(&block[..4]), block.len() as u64);
    assert_eq!(&block[4..70_004], &text[..]);
    assert_eq!(block[70_004], 0);
}
