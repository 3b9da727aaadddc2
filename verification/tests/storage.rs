//! What is kept on the device, and how it is brought to the server.
use radin::control::{ControlOp, ControlOpKind};
use radin::hysteresis::{HysteresisConfig, HysteresisState, RouteDecider};
use radin::json::{put_member, Json, Number};
use radin::persistence::{
    decode_ops, ControlStore, MemoryStore, Persistence, Record, RecordKind, RouteProfileStore,
};
use radin::reading::Reading;
use radin::sync::{SyncEngine, SyncState};
use radin::Error;

fn object(key: &str, value: Json) -> Json {
    let mut members = Vec::new();
    put_member(&mut members, key, value);
    Json::Object(members)
}

fn number(n: u64) -> Json {
    Json::Number(Number::PosInt(n))
}

#[test]
fn memory_store_roundtrips_all_kinds() {
    let mut store = MemoryStore::new();
    let rec = Record::new(RecordKind::OptimizationSettings, "policy", object("x", number(1)), 5);
    store.put(&rec).unwrap();
    let got = store.get(RecordKind::OptimizationSettings, "policy").unwrap().unwrap();
    assert!(got.body.equal(&object("x", number(1))));
    assert_eq!(store.list(RecordKind::OptimizationSettings).unwrap().len(), 1);
    store.delete(RecordKind::OptimizationSettings, "policy").unwrap();
    assert!(store.get(RecordKind::OptimizationSettings, "policy").unwrap().is_none());
}

#[test]
fn hysteresis_state_persists_as_route_profile() {
    let mut store = MemoryStore::new();
    let mut d = RouteDecider::new(HysteresisConfig::default());
    d.state.current_route_id = "edge-a".into();
    store
        .put(&Record::new(RecordKind::RouteProfile, "hysteresis", d.state.to_json(), 0))
        .unwrap();
    let rec = store.get(RecordKind::RouteProfile, "hysteresis").unwrap().unwrap();
    let restored: HysteresisState = rec.decode().unwrap();
    assert_eq!(restored.current_route_id, "edge-a");
}

#[test]
fn pending_ops_survive_via_persistence() {
    let mut p = Persistence::new(MemoryStore::new());
    let op = ControlOp::new(ControlOpKind::ConfigUpdate, 1);
    p.save_pending_op(&op, 2).unwrap();
    let loaded = p.load_pending_ops().unwrap();
    assert_eq!(loaded.len(), 1);
    assert_eq!(loaded[0].operation_id, op.operation_id);
    p.clear_pending_op(&op.operation_id.0).unwrap();
    assert!(p.load_pending_ops().unwrap().is_empty());
}

#[test]
fn unknown_kind_string_is_rejected() {
    assert_eq!(RecordKind::parse("game_traffic"), None);
    assert_eq!(RecordKind::parse("pending_control_op"), Some(RecordKind::PendingControlOp));
}

#[test]
fn kinds_are_known_by_their_names() {
    for kind in [
        RecordKind::RouteProfile,
        RecordKind::EdgeConfig,
        RecordKind::BenchmarkHistory,
        RecordKind::OptimizationSettings,
        RecordKind::PendingControlOp,
        RecordKind::DiagnosticEvent,
    ] {
        assert_eq!(RecordKind::parse(kind.as_str()), Some(kind));
    }
}

#[test]
fn a_record_replaces_the_one_of_its_key() {
    let mut store = MemoryStore::default();
    for n in 0..3 {
        store.put(&Record::new(RecordKind::EdgeConfig, "a", object("n", number(n)), n)).unwrap();
    }
    store.put(&Record::new(RecordKind::EdgeConfig, "b", Json::Null, 9)).unwrap();
    store.put(&Record::new(RecordKind::RouteProfile, "a", Json::Null, 9)).unwrap();
    assert_eq!(store.list(RecordKind::EdgeConfig).unwrap().len(), 2);
    let a = store.get(RecordKind::EdgeConfig, "a").unwrap().unwrap();
    assert!(a.body.equal(&object("n", number(2))));
    store.flush().unwrap();
    assert_eq!(store.list(RecordKind::RouteProfile).unwrap().len(), 1);
    store.delete(RecordKind::EdgeConfig, "zz").unwrap();
    assert_eq!(store.list(RecordKind::EdgeConfig).unwrap().len(), 2);
}

#[test]
fn saved_hysteresis_is_read_back_whole() {
    let mut store = MemoryStore::new();
    let mut state = HysteresisState::default();
    state.current_route_id = "edge-a-quic".into();
    state.cooldowns = vec![("x".into(), 7), ("y".into(), 9)];
    state.degradation_since = Some(u64::MAX);
    state.current_metrics.latency_ms = Reading { bits: 12.5f64.to_bits() };
    store.save_hysteresis(&state).unwrap();
    let rec = store.get(RecordKind::RouteProfile, "hysteresis").unwrap().unwrap();
    assert_eq!((rec.created_at, rec.updated_at), (0, 0));
    let back: HysteresisState = rec.decode().unwrap();
    assert_eq!(back.current_route_id, state.current_route_id);
    assert_eq!(back.cooldowns, state.cooldowns);
    assert_eq!(back.degradation_since, state.degradation_since);
    assert_eq!(back.current_metrics.latency_ms.bits, state.current_metrics.latency_ms.bits);
    match HysteresisState::from_json(&number(1)) {
        Err(Error::Serde(m)) => assert_eq!(m, "malformed hysteresis state"),
        other => panic!("expected a refusal, got {other:?}"),
    }
}

#[test]
fn rows_keep_times_beyond_the_sign() {
    let rec = Record::new(RecordKind::DiagnosticEvent, "k", Json::Bool(true), u64::MAX - 1);
    let (created, updated) = rec.row_times();
    assert_eq!((created, updated), (-2, -2));
    let back =
        Record::from_row("diagnostic_event", "k".into(), created, updated, Json::Bool(true))
            .unwrap();
    assert_eq!((back.created_at, back.updated_at), (u64::MAX - 1, u64::MAX - 1));
    match Record::from_row("game_traffic", "k".into(), 0, 0, Json::Null) {
        Err(Error::Storage(_)) => {}
        other => panic!("expected a refusal, got {other:?}"),
    }
}

#[test]
fn a_malformed_pending_op_is_an_error() {
    let good = ControlOp::new(ControlOpKind::RoutePin, 3);
    let mut records =
        vec![Record::new(RecordKind::PendingControlOp, "a", good.to_json(), 1)];
    assert_eq!(decode_ops(&records).unwrap().len(), 1);
    records.push(Record::new(RecordKind::PendingControlOp, "b", Json::Null, 1));
    assert!(matches!(decode_ops(&records), Err(Error::Serde(_))));
}

/// A store that fails, to see how failures come through.
struct Broken;

impl ControlStore for Broken {
    fn put(&mut self, _: &Record) -> radin::Result<()> {
        Err(Error::Storage("full".into()))
    }
    fn get(&self, _: RecordKind, _: &str) -> radin::Result<Option<Record>> {
        Err(Error::Storage("gone".into()))
    }
    fn list(&self, _: RecordKind) -> radin::Result<Vec<Record>> {
        Err(Error::Storage("gone".into()))
    }
    fn delete(&mut self, _: RecordKind, _: &str) -> radin::Result<()> {
        Err(Error::Storage("gone".into()))
    }
    fn flush(&mut self) -> radin::Result<()> {
        Ok(())
    }
}

#[test]
fn a_failing_store_is_reported() {
    let mut p = Persistence::new(Broken);
    let op = ControlOp::new(ControlOpKind::ConfigUpdate, 1);
    assert!(matches!(p.save_pending_op(&op, 2), Err(Error::Storage(m)) if m == "full"));
    assert!(matches!(p.load_pending_ops(), Err(Error::Storage(_))));
    assert!(matches!(p.clear_pending_op("x"), Err(Error::Storage(_))));
}

fn op() -> ControlOp {
    ControlOp::new(ControlOpKind::ConfigUpdate, 0)
}

fn telemetry_op() -> ControlOp {
    ControlOp::new(ControlOpKind::TelemetryAck, 0)
}

#[test]
fn local_only_becomes_pending_after_recovery() {
    let mut engine = SyncEngine::default();
    engine.enqueue(op(), 1);
    assert_eq!(engine.items[0].state, SyncState::LocalOnly);
    engine.state = SyncState::Failed;
    engine.network_recovered();
    assert_eq!(engine.state, SyncState::Retrying);
    assert_eq!(engine.items[0].state, SyncState::Pending);
}

#[test]
fn flush_marks_synced_and_clears() {
    let mut engine = SyncEngine::default();
    engine.enqueue(op(), 1);
    engine.network_recovered();
    let batch = engine.build_batch(10, 2).unwrap();
    assert_eq!(engine.state, SyncState::Syncing);
    assert_eq!(batch.ops.len(), 1);
    engine.mark_synced(&batch);
    assert_eq!(engine.synced_count, 1);
    assert_eq!(engine.pending_count(), 0);
    assert_eq!(engine.state, SyncState::Synced);
}

#[test]
fn failed_batch_retries_then_drops() {
    let mut engine = SyncEngine::default();
    engine.enqueue(op(), 1);
    engine.network_recovered();
    let batch = engine.build_batch(10, 2).unwrap();
    engine.mark_failed(&batch, "timeout".into(), 2);
    assert_eq!(engine.state, SyncState::Retrying);
    engine.network_recovered();
    let batch2 = engine.build_batch(10, 3).unwrap();
    engine.mark_failed(&batch2, "timeout".into(), 2);
    assert_eq!(engine.state, SyncState::Failed);
    assert_eq!(engine.items[0].state, SyncState::Failed);
}

#[test]
fn telemetry_ops_are_droppable() {
    let mut engine = SyncEngine::default();
    engine.enqueue(op(), 1);
    engine.enqueue(telemetry_op(), 2);
    assert_eq!(engine.pending_count(), 2);
    engine.drop_telemetry();
    assert_eq!(engine.pending_count(), 1);
    assert_eq!(engine.dropped_count, 1);
}

#[test]
fn duplicate_idempotency_key_not_enqueued_twice() {
    let mut engine = SyncEngine::default();
    let a = op();
    let mut b = op();
    b.idempotency_key = a.idempotency_key.clone();
    assert!(engine.enqueue(a, 1));
    assert!(!engine.enqueue(b, 2));
    assert_eq!(engine.pending_count(), 1);
}

#[test]
fn batches_are_bounded_and_in_order() {
    let mut engine = SyncEngine::default();
    let ops: Vec<ControlOp> = (0..5).map(|_| op()).collect();
    for o in &ops {
        engine.enqueue(o.clone(), 1);
    }
    engine.network_recovered();
    assert!(engine.connectivity_ok());
    let batch = engine.build_batch(3, 9).unwrap();
    let ids: Vec<&str> = batch.ops.iter().map(|o| o.operation_id.0.as_str()).collect();
    let first: Vec<&str> = ops[..3].iter().map(|o| o.operation_id.0.as_str()).collect();
    assert_eq!(ids, first);
    assert_eq!(batch.created_at, 9);
    assert_eq!(engine.items[0].attempts, 1);
    assert_eq!(engine.items[3].attempts, 0);
    engine.mark_synced(&batch);
    assert_eq!(engine.pending_count(), 2);
    assert!(SyncEngine::default().build_batch(3, 1).is_none());
}
