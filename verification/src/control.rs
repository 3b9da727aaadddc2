//! Control operations that can be sent again without being applied again.
//!
//! Each operation carries an id and an idempotency key. Whoever has seen the
//! key takes a second arrival as a repetition.
use vstd::prelude::*;

use crate::identifier::{draw_uuid, is_drawn, is_uuid};
use crate::json::{
    lookup, members_view, members_well_formed, put_member, well_formed, with_member, Json, JsonView,
    Members, Number,
};
use crate::layout::{
    count_in, field, field_of, lemma_set_member, read_count, read_text, seen, text_in,
    Stored,
};
use crate::table::{distinct, get, held, put};
use crate::text::{blank, is_blank, same};
use crate::views::view_of;
use crate::{Error, ErrorView, Result, TimestampMs};

verus! {

/// The id of an operation, made by the client.
#[derive(Debug, PartialEq, Eq)]
pub struct OperationId(pub String);

impl Clone for OperationId {
    fn clone(&self) -> (r: OperationId)
        ensures
            r@ == self@,
    {
        OperationId(self.0.clone())
    }
}

impl View for OperationId {
    type V = Seq<char>;

    open spec fn view(&self) -> Seq<char> {
        self.0@
    }
}

impl OperationId {
    pub fn new() -> (r: OperationId)
        ensures
            is_uuid(r@) && is_drawn(r@),
    {
        OperationId(draw_uuid())
    }

    /// Takes any id that is not blank.
    pub fn parse(s: &str) -> (r: Result<OperationId>)
        ensures
            (match r {
                Ok(id) => !is_blank(s@) && id@ == s@,
                Err(e) => is_blank(s@) && e@ == ErrorView::InvalidInput("empty operation id"@),
            }),
    {
        if blank(s) {
            return Err(Error::InvalidInput("empty operation id".to_owned()));
        }
        Ok(OperationId(s.to_owned()))
    }
}

impl Default for OperationId {
    fn default() -> (r: OperationId)
        ensures
            is_uuid(r@) && is_drawn(r@),
    {
        OperationId::new()
    }
}

#[derive(Debug, PartialEq, Eq)]
pub struct IdempotencyKey(pub String);

impl Clone for IdempotencyKey {
    fn clone(&self) -> (r: IdempotencyKey)
        ensures
            r@ == self@,
    {
        IdempotencyKey(self.0.clone())
    }
}

impl View for IdempotencyKey {
    type V = Seq<char>;

    open spec fn view(&self) -> Seq<char> {
        self.0@
    }
}

impl IdempotencyKey {
    pub fn new() -> (r: IdempotencyKey)
        ensures
            is_uuid(r@) && is_drawn(r@),
    {
        IdempotencyKey(draw_uuid())
    }

    pub fn from_client_id(k: &str) -> (r: IdempotencyKey)
        ensures
            r@ == k@,
    {
        IdempotencyKey(k.to_owned())
    }
}

impl Default for IdempotencyKey {
    fn default() -> (r: IdempotencyKey)
        ensures
            is_uuid(r@) && is_drawn(r@),
    {
        IdempotencyKey::new()
    }
}

/// The kinds of control operations.
#[derive(Clone, Copy, Debug, PartialEq, Eq, Structural)]
pub enum ControlOpKind {
    EdgeListRefresh,
    ConfigUpdate,
    OptimizationPolicy,
    TelemetryAck,
    RoutePin,
}

impl ControlOpKind {
    pub open spec fn code(self) -> u8 {
        match self {
            ControlOpKind::EdgeListRefresh => 1,
            ControlOpKind::ConfigUpdate => 2,
            ControlOpKind::OptimizationPolicy => 3,
            ControlOpKind::TelemetryAck => 4,
            ControlOpKind::RoutePin => 5,
        }
    }

    /// The name in JSON.
    pub open spec fn name(self) -> Seq<char> {
        match self {
            ControlOpKind::EdgeListRefresh => "edge_list_refresh"@,
            ControlOpKind::ConfigUpdate => "config_update"@,
            ControlOpKind::OptimizationPolicy => "optimization_policy"@,
            ControlOpKind::TelemetryAck => "telemetry_ack"@,
            ControlOpKind::RoutePin => "route_pin"@,
        }
    }

    /// The name of the binary message.
    pub open spec fn tag(self) -> Seq<char> {
        match self {
            ControlOpKind::EdgeListRefresh => "EdgeListRefresh"@,
            ControlOpKind::ConfigUpdate => "ConfigUpdate"@,
            ControlOpKind::OptimizationPolicy => "OptimizationPolicy"@,
            ControlOpKind::TelemetryAck => "TelemetryAck"@,
            ControlOpKind::RoutePin => "RoutePin"@,
        }
    }

    pub fn opcode(self) -> (r: u8)
        ensures
            r == self.code(),
    {
        match self {
            ControlOpKind::EdgeListRefresh => 1,
            ControlOpKind::ConfigUpdate => 2,
            ControlOpKind::OptimizationPolicy => 3,
            ControlOpKind::TelemetryAck => 4,
            ControlOpKind::RoutePin => 5,
        }
    }

    pub fn from_opcode(code: u8) -> (r: Option<ControlOpKind>)
        ensures
            r == kind_of_code(code),
    {
        match code {
            1 => Some(ControlOpKind::EdgeListRefresh),
            2 => Some(ControlOpKind::ConfigUpdate),
            3 => Some(ControlOpKind::OptimizationPolicy),
            4 => Some(ControlOpKind::TelemetryAck),
            5 => Some(ControlOpKind::RoutePin),
            _ => None,
        }
    }

    fn as_str(self) -> (r: &'static str)
        ensures
            r@ == self.name(),
    {
        match self {
            ControlOpKind::EdgeListRefresh => "edge_list_refresh",
            ControlOpKind::ConfigUpdate => "config_update",
            ControlOpKind::OptimizationPolicy => "optimization_policy",
            ControlOpKind::TelemetryAck => "telemetry_ack",
            ControlOpKind::RoutePin => "route_pin",
        }
    }

    fn parse(s: &str) -> (r: Option<ControlOpKind>)
        ensures
            r == kind_named(s@),
    {
        if same(s, "edge_list_refresh") {
            Some(ControlOpKind::EdgeListRefresh)
        } else if same(s, "config_update") {
            Some(ControlOpKind::ConfigUpdate)
        } else if same(s, "optimization_policy") {
            Some(ControlOpKind::OptimizationPolicy)
        } else if same(s, "telemetry_ack") {
            Some(ControlOpKind::TelemetryAck)
        } else if same(s, "route_pin") {
            Some(ControlOpKind::RoutePin)
        } else {
            None
        }
    }
}

pub open spec fn kind_of_code(code: u8) -> Option<ControlOpKind> {
    if code == 1 {
        Some(ControlOpKind::EdgeListRefresh)
    } else if code == 2 {
        Some(ControlOpKind::ConfigUpdate)
    } else if code == 3 {
        Some(ControlOpKind::OptimizationPolicy)
    } else if code == 4 {
        Some(ControlOpKind::TelemetryAck)
    } else if code == 5 {
        Some(ControlOpKind::RoutePin)
    } else {
        None
    }
}

pub open spec fn kind_named(s: Seq<char>) -> Option<ControlOpKind> {
    if s == "edge_list_refresh"@ {
        Some(ControlOpKind::EdgeListRefresh)
    } else if s == "config_update"@ {
        Some(ControlOpKind::ConfigUpdate)
    } else if s == "optimization_policy"@ {
        Some(ControlOpKind::OptimizationPolicy)
    } else if s == "telemetry_ack"@ {
        Some(ControlOpKind::TelemetryAck)
    } else if s == "route_pin"@ {
        Some(ControlOpKind::RoutePin)
    } else {
        None
    }
}

/// A kind is told again by its code and by its name, and only by those.
pub proof fn law_kinds_are_told_apart(kind: ControlOpKind, code: u8, name: Seq<char>)
    ensures
        kind_of_code(code) == Some(kind) <==> code == kind.code(),
        kind_named(name) == Some(kind) <==> name == kind.name(),
{
    lemma_kind_names();
}

proof fn lemma_kind_names()
    ensures
        forall|kind: ControlOpKind| kind_named(#[trigger] kind.name()) == Some(kind),
{
    reveal_strlit("edge_list_refresh");
    reveal_strlit("config_update");
    reveal_strlit("optimization_policy");
    reveal_strlit("telemetry_ack");
    reveal_strlit("route_pin");
    assert("edge_list_refresh"@.len() == 17);
    assert("config_update"@.len() == 13);
    assert("optimization_policy"@.len() == 19);
    assert("telemetry_ack"@.len() == 13);
    assert("route_pin"@.len() == 9);
    assert("config_update"@[0] == 'c');
    assert("telemetry_ack"@[0] == 't');
}

#[derive(Debug)]
pub struct ControlOp {
    pub operation_id: OperationId,
    pub idempotency_key: IdempotencyKey,
    pub kind: ControlOpKind,
    /// Nothing is read into it here.
    pub payload: Option<Json>,
    pub created_at: TimestampMs,
    pub opcode: u8,
}

pub struct ControlOpView {
    pub operation_id: Seq<char>,
    pub idempotency_key: Seq<char>,
    pub kind: ControlOpKind,
    pub payload: Option<JsonView>,
    pub created_at: TimestampMs,
    pub opcode: u8,
}

impl View for ControlOp {
    type V = ControlOpView;

    open spec fn view(&self) -> ControlOpView {
        ControlOpView {
            operation_id: self.operation_id@,
            idempotency_key: self.idempotency_key@,
            kind: self.kind,
            payload: view_of(self.payload),
            created_at: self.created_at,
            opcode: self.opcode,
        }
    }
}

impl Clone for ControlOp {
    fn clone(&self) -> (r: ControlOp)
        ensures
            r@ == self@,
    {
        ControlOp {
            operation_id: self.operation_id.clone(),
            idempotency_key: self.idempotency_key.clone(),
            kind: self.kind,
            payload: match &self.payload {
                Some(p) => Some(p.copy()),
                None => None,
            },
            created_at: self.created_at,
            opcode: self.opcode,
        }
    }
}

impl ControlOp {
    /// An operation with a fresh id and a fresh key, and no payload.
    pub fn new(kind: ControlOpKind, created_at: TimestampMs) -> (r: ControlOp)
        ensures
            is_uuid(r@.operation_id) && is_drawn(r@.operation_id),
            is_uuid(r@.idempotency_key) && is_drawn(r@.idempotency_key),
            r@.kind == kind,
            r@.payload is None,
            r@.created_at == created_at,
            r@.opcode == kind.code(),
    {
        ControlOp {
            operation_id: OperationId::new(),
            idempotency_key: IdempotencyKey::new(),
            kind,
            payload: None,
            created_at,
            opcode: kind.opcode(),
        }
    }

    /// The name of the binary message for the operation.
    pub fn proto_tag(&self) -> (r: &'static str)
        ensures
            r@ == self@.kind.tag(),
    {
        match self.kind {
            ControlOpKind::EdgeListRefresh => "EdgeListRefresh",
            ControlOpKind::ConfigUpdate => "ConfigUpdate",
            ControlOpKind::OptimizationPolicy => "OptimizationPolicy",
            ControlOpKind::TelemetryAck => "TelemetryAck",
            ControlOpKind::RoutePin => "RoutePin",
        }
    }

    pub fn to_json(&self) -> (r: Json)
        ensures
            r@ == op_json(self@),
    {
        let payload = match &self.payload {
            Some(p) => p.copy(),
            None => Json::Null,
        };
        let mut members: Vec<(String, Json)> = Vec::new();
        assert(members_view(members@) =~= seq![]);
        put_member(&mut members, "operation_id", Json::Text(self.operation_id.0.clone()));
        put_member(&mut members, "idempotency_key", Json::Text(self.idempotency_key.0.clone()));
        put_member(&mut members, "kind", Json::Text(self.kind.as_str().to_owned()));
        put_member(&mut members, "payload", payload);
        put_member(&mut members, "created_at", Json::Number(Number::PosInt(self.created_at)));
        put_member(&mut members, "opcode", Json::Number(Number::PosInt(self.opcode as u64)));
        Json::Object(members)
    }

    /// Reads an operation: an object with its members, others being passed
    /// over, or an array of the members' values.
    pub fn from_json(j: &Json) -> (r: Result<ControlOp>)
        requires
            well_formed(j@),
        ensures
            (match r {
                Ok(op) => op_of(j@) == Some(op@),
                Err(e) => op_of(j@) is None && e@ == ErrorView::Serde(
                    "malformed control operation"@,
                ),
            }),
    {
        let read = assemble(
            field(j, "operation_id", 0, 6),
            field(j, "idempotency_key", 1, 6),
            field(j, "kind", 2, 6),
            field(j, "payload", 3, 6),
            field(j, "created_at", 4, 6),
            field(j, "opcode", 5, 6),
        );
        match read {
            Some(op) => Ok(op),
            None => Err(Error::Serde("malformed control operation".to_owned())),
        }
    }
}

impl Stored for ControlOp {
    open spec fn read_from(j: JsonView) -> Option<ControlOpView> {
        op_of(j)
    }

    fn decode(j: &Json) -> (r: Result<ControlOp>) {
        ControlOp::from_json(j)
    }
}

/// The operation as JSON.
pub open spec fn op_json(op: ControlOpView) -> JsonView {
    let payload = match op.payload {
        Some(p) => p,
        None => JsonView::Null,
    };
    let m: Members = seq![];
    let m = with_member(m, "operation_id"@, JsonView::Text(op.operation_id));
    let m = with_member(m, "idempotency_key"@, JsonView::Text(op.idempotency_key));
    let m = with_member(m, "kind"@, JsonView::Text(op.kind.name()));
    let m = with_member(m, "payload"@, payload);
    let m = with_member(m, "created_at"@, JsonView::Number(Number::PosInt(op.created_at)));
    let m = with_member(m, "opcode"@, JsonView::Number(Number::PosInt(op.opcode as u64)));
    JsonView::Object(m)
}

/// A kind is given by its name, or by an object with its name as the one key
/// and null.
pub open spec fn kind_in(j: Option<JsonView>) -> Option<ControlOpKind> {
    match j {
        Some(JsonView::Text(t)) => kind_named(t),
        Some(JsonView::Object(m)) => if m.len() == 1 && m[0].1 == JsonView::Null {
            kind_named(m[0].0)
        } else {
            None
        },
        _ => None,
    }
}

pub open spec fn assembled(
    operation_id: Option<JsonView>,
    idempotency_key: Option<JsonView>,
    kind: Option<JsonView>,
    payload: Option<JsonView>,
    created_at: Option<JsonView>,
    opcode: Option<JsonView>,
) -> Option<ControlOpView> {
    match (
        text_in(operation_id),
        text_in(idempotency_key),
        kind_in(kind),
        count_in(created_at),
        count_in(opcode),
    ) {
        (Some(id), Some(key), Some(k), Some(at), Some(code)) => if code <= u8::MAX {
            Some(
                ControlOpView {
                    operation_id: id,
                    idempotency_key: key,
                    kind: k,
                    payload: if payload == Some(JsonView::Null) {
                        None
                    } else {
                        payload
                    },
                    created_at: at,
                    opcode: code as u8,
                },
            )
        } else {
            None
        },
        _ => None,
    }
}

/// The operation that JSON stands for, if any.
pub open spec fn op_of(j: JsonView) -> Option<ControlOpView> {
    assembled(
        field_of(j, "operation_id"@, 0, 6),
        field_of(j, "idempotency_key"@, 1, 6),
        field_of(j, "kind"@, 2, 6),
        field_of(j, "payload"@, 3, 6),
        field_of(j, "created_at"@, 4, 6),
        field_of(j, "opcode"@, 5, 6),
    )
}

fn read_kind(j: Option<&Json>) -> (r: Option<ControlOpKind>)
    ensures
        r == kind_in(seen(j)),
{
    match j {
        Some(Json::Text(t)) => ControlOpKind::parse(t.as_str()),
        Some(Json::Object(m)) => {
            proof {
                crate::json::lemma_members_view(m@);
            }
            if m.len() == 1 {
                match &m[0].1 {
                    Json::Null => ControlOpKind::parse(m[0].0.as_str()),
                    _ => None,
                }
            } else {
                None
            }
        },
        _ => None,
    }
}

fn assemble(
    operation_id: Option<&Json>,
    idempotency_key: Option<&Json>,
    kind: Option<&Json>,
    payload: Option<&Json>,
    created_at: Option<&Json>,
    opcode: Option<&Json>,
) -> (r: Option<ControlOp>)
    ensures
        view_of(r) == assembled(
            seen(operation_id),
            seen(idempotency_key),
            seen(kind),
            seen(payload),
            seen(created_at),
            seen(opcode),
        ),
{
    let code: u64 = match read_count(opcode) {
        Some(n) => n,
        None => {
            return None;
        },
    };
    let payload = match payload {
        Some(Json::Null) => None,
        Some(p) => Some(p.copy()),
        None => None,
    };
    match (
        read_text(operation_id),
        read_text(idempotency_key),
        read_kind(kind),
        read_count(created_at),
    ) {
        (Some(id), Some(key), Some(k), Some(at)) => if code <= 255 {
            Some(
                ControlOp {
                    operation_id: OperationId(id),
                    idempotency_key: IdempotencyKey(key),
                    kind: k,
                    payload,
                    created_at: at,
                    opcode: code as u8,
                },
            )
        } else {
            None
        },
        _ => None,
    }
}

/// What is written of an operation reads as the operation, and each part of it
/// stands under its own name. A payload that is null is read as none.
pub proof fn law_op_round_trips(op: ControlOpView)
    requires
        op.payload is Some ==> well_formed(op.payload->Some_0),
    ensures
        ({
            let m = op_json(op)->Object_0;
            &&& op_json(op) is Object
            &&& lookup(m, "operation_id"@) == Some(JsonView::Text(op.operation_id))
            &&& lookup(m, "idempotency_key"@) == Some(JsonView::Text(op.idempotency_key))
            &&& lookup(m, "kind"@) == Some(JsonView::Text(op.kind.name()))
            &&& op.payload is Some ==> lookup(m, "payload"@) == op.payload
            &&& lookup(m, "created_at"@) == Some(JsonView::Number(Number::PosInt(op.created_at)))
            &&& lookup(m, "opcode"@) == Some(JsonView::Number(Number::PosInt(op.opcode as u64)))
        }),
        op.payload != Some(JsonView::Null) ==> op_of(op_json(op)) == Some(op),
        well_formed(op_json(op)),
{
    lemma_kind_names();
    reveal_strlit("operation_id");
    reveal_strlit("idempotency_key");
    reveal_strlit("kind");
    reveal_strlit("payload");
    reveal_strlit("created_at");
    reveal_strlit("opcode");
    assert("operation_id"@.len() == 12);
    assert("idempotency_key"@.len() == 15);
    assert("kind"@.len() == 4);
    assert("payload"@.len() == 7);
    assert("created_at"@.len() == 10);
    assert("opcode"@.len() == 6);
    let payload = match op.payload {
        Some(p) => p,
        None => JsonView::Null,
    };
    let m0: Members = seq![];
    assert(members_well_formed(m0));
    let m1 = with_member(m0, "operation_id"@, JsonView::Text(op.operation_id));
    lemma_set_member(m0, "operation_id"@, JsonView::Text(op.operation_id));
    let m2 = with_member(m1, "idempotency_key"@, JsonView::Text(op.idempotency_key));
    lemma_set_member(m1, "idempotency_key"@, JsonView::Text(op.idempotency_key));
    let m3 = with_member(m2, "kind"@, JsonView::Text(op.kind.name()));
    lemma_set_member(m2, "kind"@, JsonView::Text(op.kind.name()));
    let m4 = with_member(m3, "payload"@, payload);
    lemma_set_member(m3, "payload"@, payload);
    let at = JsonView::Number(Number::PosInt(op.created_at));
    let m5 = with_member(m4, "created_at"@, at);
    lemma_set_member(m4, "created_at"@, at);
    let code = JsonView::Number(Number::PosInt(op.opcode as u64));
    let m6 = with_member(m5, "opcode"@, code);
    lemma_set_member(m5, "opcode"@, code);
    assert(op_json(op) == JsonView::Object(m6));
    assert(lookup(m6, "operation_id"@) == lookup(m1, "operation_id"@));
    assert(lookup(m6, "idempotency_key"@) == lookup(m2, "idempotency_key"@));
    assert(lookup(m6, "kind"@) == lookup(m3, "kind"@));
    assert(lookup(m6, "payload"@) == lookup(m4, "payload"@));
    assert(lookup(m6, "created_at"@) == lookup(m5, "created_at"@));
}

/// What became of an operation that was submitted.
#[derive(Debug, PartialEq, Eq)]
pub enum SubmitOutcome {
    /// It is new and was taken.
    Accepted,
    /// Its key was seen before; nothing was done.
    Duplicate,
    /// Its id was malformed.
    Rejected(String),
}

pub enum SubmitOutcomeView {
    Accepted,
    Duplicate,
    Rejected(Seq<char>),
}

impl View for SubmitOutcome {
    type V = SubmitOutcomeView;

    open spec fn view(&self) -> SubmitOutcomeView {
        match *self {
            SubmitOutcome::Accepted => SubmitOutcomeView::Accepted,
            SubmitOutcome::Duplicate => SubmitOutcomeView::Duplicate,
            SubmitOutcome::Rejected(s) => SubmitOutcomeView::Rejected(s@),
        }
    }
}

impl Clone for SubmitOutcome {
    fn clone(&self) -> (r: SubmitOutcome)
        ensures
            r@ == self@,
    {
        match self {
            SubmitOutcome::Accepted => SubmitOutcome::Accepted,
            SubmitOutcome::Duplicate => SubmitOutcome::Duplicate,
            SubmitOutcome::Rejected(s) => SubmitOutcome::Rejected(s.clone()),
        }
    }
}

/// The outcomes of the keys that were processed.
pub trait IdempotencyStore: Sized {
    open spec fn valid(&self) -> bool {
        true
    }

    open spec fn outcome_of(&self, key: Seq<char>) -> Option<SubmitOutcomeView> {
        arbitrary()
    }

    /// The outcome recorded for the key, if any.
    fn lookup(&self, key: &IdempotencyKey) -> (r: Option<SubmitOutcome>)
        requires
            self.valid(),
        ensures
            view_of(r) == self.outcome_of(key@),
    ;

    fn record(&mut self, key: IdempotencyKey, outcome: SubmitOutcome, op: &ControlOp)
        requires
            old(self).valid(),
        ensures
            final(self).valid(),
            forall|k: Seq<char>|
                #[trigger] final(self).outcome_of(k) == (if k == key@ {
                    Some(outcome@)
                } else {
                    old(self).outcome_of(k)
                }),
    ;

    /// May forget keys that were recorded before the given time.
    fn prune(&mut self, before: TimestampMs)
        requires
            old(self).valid(),
        ensures
            final(self).valid(),
            forall|k: Seq<char>|
                (#[trigger] final(self).outcome_of(k)) is None || final(self).outcome_of(k) == old(
                    self,
                ).outcome_of(k),
    ;
}

/// A store in memory. It never forgets.
#[derive(Debug)]
pub struct InMemoryIdempotencyStore {
    entries: Vec<(String, SubmitOutcome)>,
}

impl InMemoryIdempotencyStore {
    pub closed spec fn entries(&self) -> Seq<(String, SubmitOutcome)> {
        self.entries@
    }

    pub fn new() -> (r: InMemoryIdempotencyStore)
        ensures
            r.valid(),
            forall|k: Seq<char>| (#[trigger] r.outcome_of(k)) is None,
    {
        let r = InMemoryIdempotencyStore { entries: Vec::new() };
        proof {
            assert(distinct(r.entries@));
            crate::table::lemma_held(r.entries@);
        }
        r
    }
}

impl Default for InMemoryIdempotencyStore {
    fn default() -> (r: InMemoryIdempotencyStore)
        ensures
            r.valid(),
            forall|k: Seq<char>| (#[trigger] r.outcome_of(k)) is None,
    {
        InMemoryIdempotencyStore::new()
    }
}

impl IdempotencyStore for InMemoryIdempotencyStore {
    closed spec fn valid(&self) -> bool {
        distinct(self.entries@)
    }

    open spec fn outcome_of(&self, key: Seq<char>) -> Option<SubmitOutcomeView> {
        view_of(held(self.entries(), key))
    }

    fn lookup(&self, key: &IdempotencyKey) -> (r: Option<SubmitOutcome>) {
        match get(&self.entries, key.0.as_str()) {
            Some(o) => Some(o.clone()),
            None => None,
        }
    }

    fn record(&mut self, key: IdempotencyKey, outcome: SubmitOutcome, op: &ControlOp) {
        put(&mut self.entries, key.0.as_str(), outcome);
        assert forall|k: Seq<char>| #[trigger] self.outcome_of(k) == (if k == key@ {
            Some(outcome@)
        } else {
            old(self).outcome_of(k)
        }) by {
            assert(held(self.entries@, k) == (if k == key@ {
                Some(outcome)
            } else {
                held(old(self).entries@, k)
            }));
        }
    }

    fn prune(&mut self, before: TimestampMs)
        ensures
            *final(self) == *old(self),
    {
    }
}

/// Keeps a client from sending an operation again before its time.
#[derive(Debug)]
pub struct ClientIdempotencyGuard {
    seen: Vec<(String, TimestampMs)>,
    ttl_ms: u64,
}

/// When each key was last let through, for how long that holds.
#[verifier::ext_equal]
pub struct GuardView {
    pub seen: Map<Seq<char>, TimestampMs>,
    pub ttl_ms: u64,
}

impl GuardView {
    /// Whether a key that was let through is still held back.
    pub open spec fn holds_back(self, key: Seq<char>, now: TimestampMs) -> bool {
        self.seen.contains_key(key) && still_held(self.seen[key], now, self.ttl_ms)
    }

    pub open spec fn submitted(self, key: Seq<char>, now: TimestampMs) -> GuardView {
        let kept = self.seen.restrict(
            Set::new(|k: Seq<char>| self.holds_back(k, now)),
        );
        GuardView {
            seen: if self.holds_back(key, now) {
                kept
            } else {
                kept.insert(key, now)
            },
            ttl_ms: self.ttl_ms,
        }
    }
}

pub open spec fn still_held(at: TimestampMs, now: TimestampMs, ttl_ms: u64) -> bool {
    (if now >= at {
        now - at
    } else {
        0
    }) < ttl_ms
}

/// The keys that are in the table, with their times.
pub open spec fn table_map(s: Seq<(String, TimestampMs)>) -> Map<Seq<char>, TimestampMs> {
    Map::new(|k: Seq<char>| held(s, k) is Some, |k: Seq<char>| held(s, k)->Some_0)
}

impl View for ClientIdempotencyGuard {
    type V = GuardView;

    closed spec fn view(&self) -> GuardView {
        GuardView { seen: table_map(self.seen@), ttl_ms: self.ttl_ms }
    }
}

impl ClientIdempotencyGuard {
    pub closed spec fn valid(&self) -> bool {
        distinct(self.seen@)
    }

    pub fn new(ttl_ms: u64) -> (r: ClientIdempotencyGuard)
        ensures
            r.valid(),
            r@ == (GuardView { seen: Map::empty(), ttl_ms }),
    {
        let r = ClientIdempotencyGuard { seen: Vec::new(), ttl_ms };
        proof {
            crate::table::lemma_held(r.seen@);
            assert(table_map(r.seen@) =~= Map::empty());
        }
        r
    }

    /// Whether the operation may be sent; notes that it was.
    pub fn first_time(&mut self, op: &ControlOp, now: TimestampMs) -> (r: bool)
        requires
            old(self).valid(),
        ensures
            final(self).valid(),
            r == !old(self)@.holds_back(op@.idempotency_key, now),
            final(self)@ == old(self)@.submitted(op@.idempotency_key, now),
    {
        let ghost before = self.seen@;
        let mut kept: Vec<(String, TimestampMs)> = Vec::new();
        let mut i: usize = 0;
        proof {
            crate::table::lemma_held(self.seen@);
            crate::table::lemma_held(kept@);
        }
        while i < self.seen.len()
            invariant
                i <= self.seen@.len(),
                self.seen@ == before,
                self.ttl_ms == old(self).ttl_ms,
                distinct(before),
                distinct(kept@),
                forall|j: int| 0 <= j < i ==> held(before, (#[trigger] before[j]).0@) == Some(before[j].1),
                forall|j: int|
                    0 <= j < i && still_held((#[trigger] before[j]).1, now, self.ttl_ms) ==> held(
                        kept@,
                        before[j].0@,
                    ) == Some(before[j].1),
                forall|k: Seq<char>|
                    (#[trigger] held(kept@, k)) is Some ==> exists|j: int|
                        0 <= j < i && (#[trigger] before[j]).0@ == k && before[j].1 == held(
                            kept@,
                            k,
                        )->Some_0 && still_held(before[j].1, now, self.ttl_ms),
            decreases self.seen@.len() - i,
        {
            let at: u64 = self.seen[i].1;
            let ghost earlier = kept@;
            if now.saturating_sub(at) < self.ttl_ms {
                put(&mut kept, self.seen[i].0.as_str(), at);
            }
            proof {
                crate::table::lemma_held(before);
                assert forall|k: Seq<char>| (#[trigger] held(kept@, k)) is Some implies exists|j: int|
                    0 <= j < i + 1 && (#[trigger] before[j]).0@ == k && before[j].1 == held(
                        kept@,
                        k,
                    )->Some_0 && still_held(before[j].1, now, self.ttl_ms) by {
                    if still_held(at, now, self.ttl_ms) && k == before[i as int].0@ {
                        assert(before[i as int].1 == held(kept@, k)->Some_0);
                    } else {
                        assert(held(earlier, k) == held(kept@, k));
                    }
                }
            }
            i += 1;
        }
        proof {
            lemma_kept(before, kept@, now, self.ttl_ms);
        }
        self.seen = kept;
        let ghost trimmed = self.seen@;
        let key = op.idempotency_key.0.as_str();
        if get(&self.seen, key).is_some() {
            proof {
                assert(self@ =~= old(self)@.submitted(op@.idempotency_key, now));
            }
            return false;
        }
        put(&mut self.seen, key, now);
        proof {
            assert(table_map(self.seen@) =~= table_map(trimmed).insert(key@, now));
            assert(self@ =~= old(self)@.submitted(op@.idempotency_key, now));
        }
        true
    }
}

/// What is kept of a table when the entries whose time is up are gone.
proof fn lemma_kept(
    before: Seq<(String, TimestampMs)>,
    kept: Seq<(String, TimestampMs)>,
    now: TimestampMs,
    ttl_ms: u64,
)
    requires
        distinct(before),
        forall|j: int|
            0 <= j < before.len() && still_held((#[trigger] before[j]).1, now, ttl_ms) ==> held(
                kept,
                before[j].0@,
            ) == Some(before[j].1),
        forall|k: Seq<char>|
            (#[trigger] held(kept, k)) is Some ==> exists|j: int|
                0 <= j < before.len() && (#[trigger] before[j]).0@ == k && before[j].1 == held(
                    kept,
                    k,
                )->Some_0 && still_held(before[j].1, now, ttl_ms),
    ensures
        ({
            let view = GuardView { seen: table_map(before), ttl_ms };
            table_map(kept) == view.seen.restrict(
                Set::new(|k: Seq<char>| view.holds_back(k, now)),
            )
        }),
{
    crate::table::lemma_held(before);
    let view = GuardView { seen: table_map(before), ttl_ms };
    let rest = view.seen.restrict(Set::new(|k: Seq<char>| view.holds_back(k, now)));
    assert forall|k: Seq<char>| table_map(kept).contains_key(k) == rest.contains_key(k) by {
        if held(before, k) is Some {
            let j = choose|j: int|
                0 <= j < before.len() && (#[trigger] before[j]).0@ == k && before[j].1 == held(
                    before,
                    k,
                )->Some_0;
            assert(before[j].0@ == k);
        }
        if held(kept, k) is Some {
            let j = choose|j: int|
                0 <= j < before.len() && (#[trigger] before[j]).0@ == k && before[j].1 == held(
                    kept,
                    k,
                )->Some_0 && still_held(before[j].1, now, ttl_ms);
            assert(held(before, before[j].0@) == Some(before[j].1));
        }
    }
    assert forall|k: Seq<char>| table_map(kept).contains_key(k) implies table_map(kept)[k]
        == rest[k] by {
        let j = choose|j: int|
            0 <= j < before.len() && (#[trigger] before[j]).0@ == k && before[j].1 == held(
                kept,
                k,
            )->Some_0 && still_held(before[j].1, now, ttl_ms);
        assert(held(before, before[j].0@) == Some(before[j].1));
    }
    assert(table_map(kept) =~= rest);
}

/// The guard after the submissions, each a key and a time, in order.
pub open spec fn submitted_all(
    guard: GuardView,
    submissions: Seq<(Seq<char>, TimestampMs)>,
) -> GuardView
    decreases submissions.len(),
{
    if submissions.len() == 0 {
        guard
    } else {
        submitted_all(guard, submissions.drop_last()).submitted(
            submissions.last().0,
            submissions.last().1,
        )
    }
}

/// A key that was let through is held back until its time is up, whatever
/// other keys are submitted in between, and let through again then.
pub proof fn law_resubmission_waits(
    guard: GuardView,
    key: Seq<char>,
    sent: TimestampMs,
    others: Seq<(Seq<char>, TimestampMs)>,
    later: TimestampMs,
)
    requires
        !guard.holds_back(key, sent),
        sent <= later,
        forall|i: int|
            0 <= i < others.len() ==> (#[trigger] others[i]).0 != key && sent <= others[i].1
                <= later,
    ensures
        submitted_all(guard.submitted(key, sent), others).holds_back(key, later) <==> later - sent
            < guard.ttl_ms,
{
    assert(guard.submitted(key, sent).seen[key] == sent);
    lemma_sent_is_remembered(guard.submitted(key, sent), key, sent, others, later);
}

proof fn lemma_sent_is_remembered(
    guard: GuardView,
    key: Seq<char>,
    sent: TimestampMs,
    others: Seq<(Seq<char>, TimestampMs)>,
    later: TimestampMs,
)
    requires
        guard.seen.contains_key(key),
        guard.seen[key] == sent,
        sent <= later,
        forall|i: int|
            0 <= i < others.len() ==> (#[trigger] others[i]).0 != key && sent <= others[i].1
                <= later,
    ensures
        ({
            let g = submitted_all(guard, others);
            &&& g.ttl_ms == guard.ttl_ms
            &&& g.seen.contains_key(key) ==> g.seen[key] == sent
            &&& later - sent < guard.ttl_ms ==> g.seen.contains_key(key)
        }),
    decreases others.len(),
{
    if others.len() > 0 {
        let front = others.drop_last();
        assert forall|i: int| 0 <= i < front.len() implies (#[trigger] front[i]).0 != key && sent
            <= front[i].1 <= later by {
            assert(front[i] == others[i]);
        }
        lemma_sent_is_remembered(guard, key, sent, front, later);
        assert(others.last() == others[others.len() - 1]);
        let g = submitted_all(guard, front);
        if later - sent < guard.ttl_ms {
            assert(g.holds_back(key, others.last().1));
        }
    }
}

/// What is sent of an operation in binary form.
#[derive(Debug)]
pub struct ControlEnvelope {
    pub opcode: u8,
    pub operation_id: String,
    pub idempotency_key: String,
    /// 0 for a JSON payload, 1 for a protobuf one.
    pub payload_format: u8,
    pub payload_b64: String,
}

/// A key that is held back keeps the time at which it was let through: to ask
/// again does not put off when it is let through.
pub proof fn law_asking_again_does_not_put_off(
    guard: GuardView,
    key: Seq<char>,
    sent: TimestampMs,
    again: TimestampMs,
    later: TimestampMs,
)
    requires
        !guard.holds_back(key, sent),
        sent <= again,
        again - sent < guard.ttl_ms,
        again <= later,
    ensures
        guard.submitted(key, sent).submitted(key, again).holds_back(key, later) <==> later - sent
            < guard.ttl_ms,
{
    let first = guard.submitted(key, sent);
    assert(first.seen[key] == sent);
    assert(first.holds_back(key, again));
    let second = first.submitted(key, again);
    assert(second.seen.contains_key(key) && second.seen[key] == sent);
}

/// A key is let through whatever other keys were, and is held back even
/// where the clock went back since.
pub proof fn law_keys_are_held_back_apart(
    guard: GuardView,
    key: Seq<char>,
    other: Seq<char>,
    sent: TimestampMs,
    earlier: TimestampMs,
)
    requires
        key != other,
        !guard.seen.contains_key(key),
    ensures
        !guard.submitted(other, sent).holds_back(key, earlier),
        earlier < sent && guard.ttl_ms > 0 ==> guard.submitted(key, sent).holds_back(key, earlier),
{
    assert(guard.submitted(key, sent).seen[key] == sent);
}

/// The binary message is named after the kind, and no two kinds share a code,
/// a name or a message.
pub proof fn law_kinds_share_nothing(a: ControlOpKind, b: ControlOpKind)
    requires
        a != b,
    ensures
        a.code() != b.code(),
        a.name() != b.name(),
        a.tag() != b.tag(),
        1 <= a.code() <= 5,
{
    lemma_kind_names();
    assert(kind_named(a.name()) != kind_named(b.name()));
    reveal_strlit("EdgeListRefresh");
    reveal_strlit("ConfigUpdate");
    reveal_strlit("OptimizationPolicy");
    reveal_strlit("TelemetryAck");
    reveal_strlit("RoutePin");
    assert("EdgeListRefresh"@.len() == 15);
    assert("ConfigUpdate"@.len() == 12);
    assert("OptimizationPolicy"@.len() == 18);
    assert("TelemetryAck"@.len() == 12);
    assert("RoutePin"@.len() == 8);
    assert("ConfigUpdate"@[0] == 'C');
    assert("TelemetryAck"@[0] == 'T');
}

} // verus!
