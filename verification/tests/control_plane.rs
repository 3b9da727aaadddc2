//! Breakers, compression, control operations, differences and symptoms.
use radin::circuit::{CircuitBreaker, CircuitConfig, CircuitState};
use radin::compression::{
    compress, eligible, looks_already_compressed, measured_ratio, settle_outcome,
    CompressionConfig, CompressionOutcome,
};
use radin::control::{
    ClientIdempotencyGuard, ControlOp, ControlOpKind, IdempotencyKey, IdempotencyStore,
    InMemoryIdempotencyStore, OperationId, SubmitOutcome,
};
use radin::delta::{apply, diff, encode_sync, should_apply_delta};
use radin::detect::{RestrictionModel, Symptom};
use radin::json::{put_member, Json, Number};
use radin::reading::Reading;
use radin::Error;

fn r(x: f64) -> Reading {
    Reading { bits: x.to_bits() }
}

fn f(x: Reading) -> f64 {
    f64::from_bits(x.bits)
}

fn object(members: Vec<(&str, Json)>) -> Json {
    let mut out = Vec::new();
    for (key, value) in members {
        put_member(&mut out, key, value);
    }
    Json::Object(out)
}

fn number(n: u64) -> Json {
    Json::Number(Number::PosInt(n))
}

fn float(x: f64) -> Json {
    Json::Number(Number::Float(r(x)))
}

fn patch<'a>(patches: &'a [(String, Json)], key: &str) -> Option<&'a Json> {
    patches.iter().find(|p| p.0 == key).map(|p| &p.1)
}

fn same(a: &Json, b: &Json) -> bool {
    a.equal(b)
}

#[test]
fn trips_after_threshold_repeated_failures() {
    let mut cb = CircuitBreaker::new("edge-a", CircuitConfig::default());
    assert!(matches!(cb.state, CircuitState::Closed));
    cb.record_failure(1_000);
    cb.record_failure(2_000);
    assert!(matches!(cb.state, CircuitState::Closed), "one left");
    cb.record_failure(3_000);
    assert!(matches!(cb.state, CircuitState::Open { .. }));
}

#[test]
fn opens_then_half_opens_after_cooldown() {
    let mut cb = CircuitBreaker::new(
        "t",
        CircuitConfig {
            failure_threshold: 1,
            open_cooldown_ms: 1_000,
            ..CircuitConfig::default()
        },
    );
    cb.record_failure(0);
    assert!(!cb.allow(500), "still OPEN");
    assert!(cb.allow(1_001), "cooldown expired: HALF_OPEN probe allowed");
    assert!(matches!(cb.state, CircuitState::HalfOpen));
    cb.record_failure(1_010);
    assert!(matches!(cb.state, CircuitState::Open { .. }), "half-open probe failure: OPEN");
}

#[test]
fn half_open_requires_successes_before_closing() {
    let mut cb = CircuitBreaker::new(
        "t",
        CircuitConfig {
            failure_threshold: 1,
            open_cooldown_ms: 1_000,
            half_open_required_successes: 2,
        },
    );
    cb.record_failure(0);
    cb.allow(1_000);
    cb.record_success();
    assert!(matches!(cb.state, CircuitState::HalfOpen), "needs 2 successes");
    cb.record_success();
    assert!(matches!(cb.state, CircuitState::Closed));
    assert_eq!(cb.trip_count, 1);
}

#[test]
fn success_resets_failure_counter() {
    let mut cb = CircuitBreaker::new("t", CircuitConfig::default());
    cb.record_failure(0);
    cb.record_failure(1);
    cb.record_success();
    cb.record_failure(2);
    cb.record_failure(3);
    assert!(matches!(cb.state, CircuitState::Closed), "threshold reset by success");
}

#[test]
fn half_open_lets_one_trial_through() {
    let cfg = CircuitConfig {
        failure_threshold: 1,
        open_cooldown_ms: 1_000,
        half_open_required_successes: 2,
    };
    let mut cb = CircuitBreaker::new("t", cfg);
    cb.record_failure(0);
    assert_eq!(cb.state, CircuitState::Open { until: 1_000 });
    assert!(cb.allow(1_000));
    assert!(!cb.allow(1_001), "the trial is still out");
    cb.record_success();
    assert!(cb.allow(1_002), "the next trial");
    assert_eq!(
        [CircuitState::Closed.as_str(), cb.state.as_str()],
        ["CLOSED", "HALF_OPEN"]
    );
    cb.record_failure(1_003);
    assert_eq!(cb.state, CircuitState::Open { until: 2_003 });
    assert_eq!(cb.trip_count, 2);
    assert_eq!(cb.state.as_str(), "OPEN");
}

fn somewhat_repetitive(n: usize) -> Vec<u8> {
    let mut v = Vec::with_capacity(n);
    for i in 0..n {
        v.push((i % 8) as u8);
    }
    v
}

#[test]
fn tiny_payloads_never_compressed() {
    let cfg = CompressionConfig::default();
    assert_eq!(compress(&cfg, &[0u8; 32]), CompressionOutcome::Raw);
}

#[test]
fn already_compressed_never_recompressed() {
    let cfg = CompressionConfig::default();
    let mut gz = vec![0x1f, 0x8b];
    gz.extend(&[0u8; 2048]);
    assert_eq!(compress(&cfg, &gz), CompressionOutcome::Raw);
}

#[test]
fn eligibility_logic() {
    let cfg = CompressionConfig::default();
    assert!(!eligible(&cfg, &[0u8; 512]));
    assert!(eligible(&cfg, &[0u8; 4096]));
    let mut gz = vec![0x1f, 0x8b];
    gz.extend(&[0u8; 4096]);
    assert!(!eligible(&cfg, &gz));
}

#[test]
fn ratio_reporting_is_honest() {
    let raw = CompressionOutcome::Raw;
    assert_eq!(f(measured_ratio(100, &raw)), 1.0);
}

#[test]
fn zstd_feature_actually_compresses_when_beneficial() {
    let cfg = CompressionConfig::default();
    let data = somewhat_repetitive(4096);
    match compress(&cfg, &data) {
        CompressionOutcome::Zstd(c) => assert!(c.len() < data.len()),
        other => panic!("expected zstd path, got {other:?}"),
    }
}

#[test]
fn what_was_compressed_comes_back() {
    let cfg = CompressionConfig::default();
    let data = somewhat_repetitive(4096);
    match compress(&cfg, &data) {
        CompressionOutcome::Zstd(c) => {
            assert_eq!(zstd::bulk::decompress(&c, 4096).unwrap(), data);
            assert_eq!(f(measured_ratio(4096, &CompressionOutcome::Zstd(c.clone()))), 4096.0
                / c.len() as f64);
            assert_eq!(compress(&cfg, &c), CompressionOutcome::Raw);
        }
        other => panic!("expected zstd path, got {other:?}"),
    }
}

#[test]
fn compression_is_kept_only_where_it_pays() {
    let cfg = CompressionConfig::default();
    assert_eq!(f(cfg.min_beneficial_ratio), 0.9);
    assert_eq!(cfg.compression_threshold_bytes, 1024);
    let data = vec![7u8; 2000];
    let at = |n: usize| settle_outcome(&cfg, &data, Some(vec![1u8; n]));
    assert_eq!(at(1799), CompressionOutcome::Zstd(vec![1u8; 1799]));
    assert_eq!(at(1800), CompressionOutcome::Raw);
    assert_eq!(settle_outcome(&cfg, &data, None), CompressionOutcome::Raw);
    assert_eq!(settle_outcome(&cfg, &data[..1023], Some(vec![1])), CompressionOutcome::Raw);
    let brotli = CompressionOutcome::Brotli(vec![0; 50]);
    assert_eq!(f(measured_ratio(100, &brotli)), 2.0);
    assert_eq!(f(measured_ratio(100, &CompressionOutcome::Zstd(vec![]))), 1.0);
    for magic in [
        &[0x1f, 0x8b][..],
        &[0x28, 0xb5, 0x2f, 0xfd],
        &[0x78, 0x01],
        &[0x78, 0x9c],
        &[0x50, 0x4b, 0x03, 0x04],
        &[0xff, 0xd8, 0xff],
    ] {
        let mut long = magic.to_vec();
        long.resize(16, 0);
        assert!(looks_already_compressed(&long));
        assert!(!looks_already_compressed(&long[..15]), "too short to tell");
        long[0] ^= 0x80;
        assert!(!looks_already_compressed(&long));
    }
}

#[test]
fn operation_id_is_uuid_shaped() {
    let id = OperationId::new();
    assert_eq!(id.0.len(), 36);
    assert!(uuid::Uuid::parse_str(&id.0).is_ok());
}

#[test]
fn in_memory_store_dedupes_keys() {
    let mut store = InMemoryIdempotencyStore::new();
    let key = IdempotencyKey::new();
    let op = ControlOp::new(ControlOpKind::ConfigUpdate, 1);
    assert!(store.lookup(&key).is_none());
    store.record(key.clone(), SubmitOutcome::Accepted, &op);
    assert_eq!(store.lookup(&key), Some(SubmitOutcome::Accepted));
}

#[test]
fn client_guard_blocks_resubmission() {
    let mut g = ClientIdempotencyGuard::new(60_000);
    let op = ControlOp::new(ControlOpKind::ConfigUpdate, 1);
    assert!(g.first_time(&op, 100));
    assert!(!g.first_time(&op, 101));
    assert!(g.first_time(&op, 100 + 60_000));
}

#[test]
fn opcodes_roundtrip() {
    for kind in [
        ControlOpKind::EdgeListRefresh,
        ControlOpKind::ConfigUpdate,
        ControlOpKind::OptimizationPolicy,
        ControlOpKind::TelemetryAck,
        ControlOpKind::RoutePin,
    ] {
        assert_eq!(ControlOpKind::from_opcode(kind.opcode()), Some(kind));
    }
    assert_eq!(ControlOpKind::from_opcode(99), None);
}

#[test]
fn proto_tag_matches_schema_names() {
    assert_eq!(ControlOp::new(ControlOpKind::ConfigUpdate, 0).proto_tag(), "ConfigUpdate");
}

#[test]
fn operations_survive_as_documents() {
    let mut op = ControlOp::new(ControlOpKind::RoutePin, 77);
    op.payload = Some(object(vec![("edge", Json::Text("e1".to_string())), ("n", number(3))]));
    let back = ControlOp::from_json(&op.to_json()).unwrap();
    assert_eq!(back.operation_id, op.operation_id);
    assert_eq!(back.idempotency_key, op.idempotency_key);
    assert_eq!((back.kind, back.created_at, back.opcode), (op.kind, 77, op.opcode));
    assert!(same(&back.payload.unwrap(), &op.payload.unwrap()));
    match ControlOp::from_json(&Json::Null) {
        Err(Error::Serde(m)) => assert_eq!(m, "malformed control operation"),
        other => panic!("expected a refusal, got {other:?}"),
    }
}

#[test]
fn a_null_payload_reads_back_as_none() {
    let mut op = ControlOp::new(ControlOpKind::TelemetryAck, 1);
    op.payload = Some(Json::Null);
    assert!(ControlOp::from_json(&op.to_json()).unwrap().payload.is_none());
}

#[test]
fn ids_are_fresh_and_checked() {
    let (a, b) = (OperationId::new(), OperationId::default());
    assert_ne!(a, b);
    assert_ne!(IdempotencyKey::new(), IdempotencyKey::default());
    assert_eq!(OperationId::parse(&a.0).unwrap(), a);
    assert_eq!(IdempotencyKey::from_client_id("k-1").0, "k-1");
    for blank in ["", "  \t "] {
        match OperationId::parse(blank) {
            Err(Error::InvalidInput(m)) => assert_eq!(m, "empty operation id"),
            other => panic!("a blank id was taken: {other:?}"),
        }
    }
}

#[test]
fn a_key_keeps_its_last_outcome() {
    let mut store = InMemoryIdempotencyStore::default();
    let op = ControlOp::new(ControlOpKind::ConfigUpdate, 1);
    let key = IdempotencyKey::from_client_id("a");
    store.record(key.clone(), SubmitOutcome::Accepted, &op);
    store.record(key.clone(), SubmitOutcome::Rejected("no".to_string()), &op);
    store.record(IdempotencyKey::from_client_id("b"), SubmitOutcome::Duplicate, &op);
    assert_eq!(store.lookup(&key), Some(SubmitOutcome::Rejected("no".to_string())));
    store.prune(1_000_000);
    assert!(store.lookup(&IdempotencyKey::from_client_id("b")).is_some());
}

#[test]
fn a_guard_holds_each_key_for_itself() {
    let mut g = ClientIdempotencyGuard::new(1_000);
    let one = ControlOp::new(ControlOpKind::ConfigUpdate, 1);
    let two = ControlOp::new(ControlOpKind::ConfigUpdate, 1);
    assert!(g.first_time(&one, 0));
    assert!(g.first_time(&two, 10));
    assert!(!g.first_time(&one, 999));
    assert!(g.first_time(&one, 1_000));
    assert!(!g.first_time(&two, 1_005));
}

fn routes(a: u64, b: u64) -> Json {
    object(vec![
        ("routeA", object(vec![("score", number(a))])),
        ("routeB", object(vec![("score", number(b))])),
    ])
}

#[test]
fn diff_detects_scalar_change() {
    let a = routes(80, 55);
    let b = routes(80, 60);
    let d = diff(&a, &b).unwrap();
    assert!(same(patch(&d, "routeB.score").unwrap(), &number(60)));
    assert_eq!(d.len(), 1);
}

#[test]
fn diff_none_when_identical() {
    let a = object(vec![("x", number(1)), ("y", Json::Array(vec![number(1), number(2)]))]);
    assert!(diff(&a, &a).is_none());
}

#[test]
fn apply_roundtrips_diff() {
    let doc = |score: u64, jitter: f64| {
        object(vec![
            ("routeA", object(vec![("score", number(score)), ("jitter", float(jitter))])),
            ("routeB", object(vec![("score", number(55))])),
        ])
    };
    let a = doc(80, 2.1);
    let b = doc(90, 1.2);
    let d = diff(&a, &b).unwrap();
    let merged = apply(&a, &d).unwrap();
    assert!(same(&merged, &b));
}

#[test]
fn delta_preferred_below_field_threshold() {
    let a = routes(80, 55);
    let b = routes(81, 55);
    let d = diff(&a, &b).unwrap();
    assert!(should_apply_delta(&a, &d, 1));
    assert!(!should_apply_delta(&a, &d, 2), "below min_fields: send full snapshot");
}

#[test]
fn a_removed_key_is_taken_out() {
    let a = object(vec![("x", number(1)), ("y", number(2))]);
    let b = object(vec![("x", number(3))]);
    let d = diff(&a, &b).unwrap();
    assert!(same(patch(&d, ".-y").unwrap(), &Json::Null));
    assert!(same(&apply(&a, &d).unwrap(), &b));
    let held = object(vec![("o", object(vec![("p", number(1)), ("q", number(2))]))]);
    let emptied = object(vec![("o", object(vec![]))]);
    let d = diff(&held, &emptied).unwrap();
    assert!(same(&apply(&held, &d).unwrap(), &emptied));
}

#[test]
fn a_member_that_becomes_null_stays() {
    let a = object(vec![("x", number(1)), ("y", number(2))]);
    let b = object(vec![("x", Json::Null), ("y", number(2))]);
    let d = diff(&a, &b).unwrap();
    assert!(same(patch(&d, "x").unwrap(), &Json::Null));
    assert!(same(&apply(&a, &d).unwrap(), &b));
    let by_hand = vec![("y".to_string(), Json::Null)];
    let nulled = object(vec![("x", number(1)), ("y", Json::Null)]);
    assert!(same(&apply(&a, &by_hand).unwrap(), &nulled));
    let back = diff(&b, &a).unwrap();
    assert!(same(&apply(&b, &back).unwrap(), &a));
}

#[test]
fn keys_with_dots_and_tildes_are_carried() {
    for key in ["a.b", ".", "", "~", "~0", "~1", "a~.", "..~~", ".-", ".=a", "-"] {
        let a = object(vec![(key, object(vec![(key, number(1)), ("k", number(2))]))]);
        let b = object(vec![(key, object(vec![(key, number(3)), ("l", number(4))]))]);
        let d = diff(&a, &b).unwrap();
        assert!(same(&apply(&a, &d).unwrap(), &b), "key {key:?}");
        let gone = object(vec![]);
        let d = diff(&a, &gone).unwrap();
        assert!(same(&apply(&a, &d).unwrap(), &gone), "key {key:?}");
        let d = diff(&gone, &a).unwrap();
        assert!(same(&apply(&gone, &d).unwrap(), &a), "key {key:?}");
    }
    let a = object(vec![("a.b", number(1))]);
    let d = diff(&a, &object(vec![("a.b", number(2))])).unwrap();
    assert!(same(patch(&d, ".=a~1b").unwrap(), &number(2)));
    let a = object(vec![("a~b", object(vec![("", number(1))]))]);
    let d = diff(&a, &object(vec![("a~b", object(vec![("", number(2))]))])).unwrap();
    assert!(same(patch(&d, "a~b.").unwrap(), &number(2)));
}

#[test]
fn a_delta_of_every_leaf_saves_nothing() {
    let a = object(vec![("x", number(1))]);
    let d = diff(&a, &object(vec![("x", number(2))])).unwrap();
    assert!(!should_apply_delta(&a, &d, 1));
    let nested = object(vec![("x", object(vec![("y", number(1)), ("z", number(2))]))]);
    assert!(should_apply_delta(&nested, &d, 1));
}

#[test]
fn a_change_of_what_is_no_object_is_sent_in_full() {
    let sent = encode_sync(Some(&number(1)), &number(2));
    assert!(same(&sent.full.unwrap(), &number(2)) && sent.patches.is_none());
    let sent = encode_sync(Some(&object(vec![])), &number(2));
    assert!(same(&sent.full.unwrap(), &number(2)) && sent.patches.is_none());
    let sent = encode_sync(Some(&number(2)), &number(2));
    assert!(sent.full.is_none() && sent.patches.is_none());
}

#[test]
fn only_objects_have_a_delta() {
    assert!(diff(&number(1), &number(2)).is_none());
    assert!(apply(&number(1), &vec![("x".to_string(), number(2))]).is_none());
    assert!(!should_apply_delta(&Json::Null, &vec![("x".to_string(), number(2))], 0));
}

#[test]
fn the_first_sync_is_a_full_one() {
    let (a, b) = (routes(1, 2), routes(1, 3));
    let first = encode_sync(None, &a);
    assert!(same(&first.full.unwrap(), &a));
    assert!(first.patches.is_none());
    let second = encode_sync(Some(&a), &b);
    assert!(second.full.is_none());
    assert_eq!(second.patches.unwrap().len(), 1);
    let third = encode_sync(Some(&b), &b);
    assert!(third.full.is_none() && third.patches.is_none());
}

#[test]
fn wording_is_beautifully_vague_on_purpose() {
    let mut model = RestrictionModel::default();
    for _ in 0..5 {
        model.observe(Symptom::RepeatedUdpTimeout);
        model.observe(Symptom::QuicHandshakeFailure);
    }
    model.observe(Symptom::DnsFailure);
    let msg = model.describe(3);
    assert!(msg.contains("appears degraded"), "msg: {msg}");
    assert!(!msg.to_lowercase().contains("blocking your isp"), "msg: {msg}");
    assert!(!msg.to_uppercase().contains("CENSOR"), "msg: {msg}");
}

#[test]
fn low_occurrences_stay_unflagged() {
    let mut model = RestrictionModel::default();
    model.observe(Symptom::DnsFailure);
    assert!(model.flagged(3).is_empty());
}

#[test]
fn empty_model_is_benign() {
    let model = RestrictionModel::default();
    assert_eq!(model.describe(1), "No restrictive-network symptoms detected.");
}

#[test]
fn symptoms_count_for_themselves() {
    let mut model = RestrictionModel::default();
    for _ in 0..3 {
        model.observe(Symptom::TlsHandshakeFailure);
    }
    for _ in 0..2 {
        model.observe(Symptom::ConnectionReset);
    }
    assert_eq!(model.flagged(3), vec![Symptom::TlsHandshakeFailure]);
    assert_eq!(model.flagged(2).len(), 2);
    model.reset();
    assert!(model.flagged(1).is_empty());
    assert_eq!(Symptom::summary(&[]), model.describe(1));
}

#[test]
fn a_success_does_not_close_an_open_breaker() {
    let cfg = CircuitConfig { failure_threshold: 1, ..CircuitConfig::default() };
    let mut cb = CircuitBreaker::new("t", cfg);
    cb.record_failure(0);
    let open = cb.state;
    assert!(matches!(open, CircuitState::Open { .. }));
    cb.record_success();
    assert_eq!(cb.state, open);
    assert_eq!(cb.consecutive_failures, 0);
}

#[test]
fn a_summary_does_not_depend_on_the_order() {
    let a = [Symptom::TlsHandshakeFailure, Symptom::DnsFailure, Symptom::ConnectionReset];
    let b = [Symptom::ConnectionReset, Symptom::TlsHandshakeFailure, Symptom::DnsFailure];
    let text = Symptom::summary(&a);
    assert_eq!(text, Symptom::summary(&b));
    assert!(text.starts_with("UDP connectivity appears degraded. "));
    assert!(a.iter().all(|s| text.contains(s.description())));
}

#[test]
fn flagging_starts_over_at_a_reset() {
    let mut model = RestrictionModel::default();
    for s in [Symptom::TlsHandshakeFailure, Symptom::DnsFailure, Symptom::TlsHandshakeFailure] {
        model.observe(s);
    }
    assert_eq!(model.flagged(0), vec![Symptom::DnsFailure, Symptom::TlsHandshakeFailure]);
    assert_eq!(model.flagged(2), vec![Symptom::TlsHandshakeFailure]);
    model.reset();
    model.observe(Symptom::DnsFailure);
    assert_eq!(model.flagged(1), vec![Symptom::DnsFailure]);
}
