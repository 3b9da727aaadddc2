//! Local storage of the control state.
//!
//! Only records of a known kind can be stored: there is no kind for traffic.
use vstd::prelude::*;

use crate::control::{op_json, op_of, ControlOp, ControlOpView};
use crate::hysteresis::HysteresisState;
use crate::json::{well_formed, Json, JsonView};
use crate::layout::{hysteresis_json, law_hysteresis_round_trips, Stored};
use crate::search::{first_index, lemma_first_index, lemma_first_index_is};
use crate::text::same;
use crate::views::views;
use crate::{Error, ErrorView, Result, TimestampMs};

verus! {

/// What can be stored.
#[derive(Clone, Copy, Debug, PartialEq, Eq, Hash, Structural)]
pub enum RecordKind {
    RouteProfile,
    EdgeConfig,
    BenchmarkHistory,
    OptimizationSettings,
    PendingControlOp,
    DiagnosticEvent,
}

impl RecordKind {
    pub open spec fn name(self) -> Seq<char> {
        match self {
            RecordKind::RouteProfile => "route_profile"@,
            RecordKind::EdgeConfig => "edge_config"@,
            RecordKind::BenchmarkHistory => "benchmark_history"@,
            RecordKind::OptimizationSettings => "optimization_settings"@,
            RecordKind::PendingControlOp => "pending_control_op"@,
            RecordKind::DiagnosticEvent => "diagnostic_event"@,
        }
    }

    pub fn as_str(self) -> (r: &'static str)
        ensures
            r@ == self.name(),
    {
        match self {
            RecordKind::RouteProfile => "route_profile",
            RecordKind::EdgeConfig => "edge_config",
            RecordKind::BenchmarkHistory => "benchmark_history",
            RecordKind::OptimizationSettings => "optimization_settings",
            RecordKind::PendingControlOp => "pending_control_op",
            RecordKind::DiagnosticEvent => "diagnostic_event",
        }
    }

    pub fn parse(s: &str) -> (r: Option<RecordKind>)
        ensures
            r == record_kind_named(s@),
    {
        if same(s, "route_profile") {
            Some(RecordKind::RouteProfile)
        } else if same(s, "edge_config") {
            Some(RecordKind::EdgeConfig)
        } else if same(s, "benchmark_history") {
            Some(RecordKind::BenchmarkHistory)
        } else if same(s, "optimization_settings") {
            Some(RecordKind::OptimizationSettings)
        } else if same(s, "pending_control_op") {
            Some(RecordKind::PendingControlOp)
        } else if same(s, "diagnostic_event") {
            Some(RecordKind::DiagnosticEvent)
        } else {
            None
        }
    }
}

pub open spec fn record_kind_named(s: Seq<char>) -> Option<RecordKind> {
    if s == "route_profile"@ {
        Some(RecordKind::RouteProfile)
    } else if s == "edge_config"@ {
        Some(RecordKind::EdgeConfig)
    } else if s == "benchmark_history"@ {
        Some(RecordKind::BenchmarkHistory)
    } else if s == "optimization_settings"@ {
        Some(RecordKind::OptimizationSettings)
    } else if s == "pending_control_op"@ {
        Some(RecordKind::PendingControlOp)
    } else if s == "diagnostic_event"@ {
        Some(RecordKind::DiagnosticEvent)
    } else {
        None
    }
}

/// A kind is read from its name, and from no other text: nothing can be read
/// as a record unless it is named like one of the kinds.
pub proof fn law_only_known_kinds(kind: RecordKind, name: Seq<char>)
    ensures
        record_kind_named(name) == Some(kind) <==> name == kind.name(),
{
    reveal_strlit("route_profile");
    reveal_strlit("edge_config");
    reveal_strlit("benchmark_history");
    reveal_strlit("optimization_settings");
    reveal_strlit("pending_control_op");
    reveal_strlit("diagnostic_event");
    assert("route_profile"@.len() == 13);
    assert("edge_config"@.len() == 11);
    assert("benchmark_history"@.len() == 17);
    assert("optimization_settings"@.len() == 21);
    assert("pending_control_op"@.len() == 18);
    assert("diagnostic_event"@.len() == 16);
}

/// What is stored under a kind and a key.
#[derive(Debug)]
pub struct Record {
    pub kind: RecordKind,
    /// Names the record within its kind.
    pub key: String,
    pub created_at: TimestampMs,
    pub updated_at: TimestampMs,
    pub body: Json,
}

pub struct RecordView {
    pub kind: RecordKind,
    pub key: Seq<char>,
    pub created_at: TimestampMs,
    pub updated_at: TimestampMs,
    pub body: JsonView,
}

impl View for Record {
    type V = RecordView;

    open spec fn view(&self) -> RecordView {
        RecordView {
            kind: self.kind,
            key: self.key@,
            created_at: self.created_at,
            updated_at: self.updated_at,
            body: self.body@,
        }
    }
}

impl Clone for Record {
    fn clone(&self) -> (r: Record)
        ensures
            r@ == self@,
    {
        Record {
            kind: self.kind,
            key: self.key.clone(),
            created_at: self.created_at,
            updated_at: self.updated_at,
            body: self.body.copy(),
        }
    }
}

pub open spec fn new_record(
    kind: RecordKind,
    key: Seq<char>,
    body: JsonView,
    now: TimestampMs,
) -> RecordView {
    RecordView { kind, key, created_at: now, updated_at: now, body }
}

impl Record {
    pub fn new(kind: RecordKind, key: &str, body: Json, now: TimestampMs) -> (r: Record)
        ensures
            r@ == new_record(kind, key@, body@, now),
    {
        Record { kind, key: key.to_owned(), created_at: now, updated_at: now, body }
    }

    /// Reads the body.
    pub fn decode<T: Stored>(&self) -> (r: Result<T>)
        requires
            well_formed(self@.body),
        ensures
            (match r {
                Ok(t) => T::read_from(self@.body) == Some(t@),
                Err(e) => T::read_from(self@.body) is None && e@ is Serde,
            }),
    {
        T::decode(&self.body)
    }

    /// The times as a table of signed integers holds them.
    pub fn row_times(&self) -> (r: (i64, i64))
        ensures
            r == (self@.created_at as i64, self@.updated_at as i64),
    {
        (self.created_at as i64, self.updated_at as i64)
    }

    /// The record that a row of a table stands for.
    pub fn from_row(kind: &str, key: String, created_at: i64, updated_at: i64, body: Json) -> (r:
        Result<Record>)
        ensures
            (match r {
                Ok(record) => record_kind_named(kind@) is Some && record@ == (RecordView {
                    kind: record_kind_named(kind@)->Some_0,
                    key: key@,
                    created_at: created_at as u64,
                    updated_at: updated_at as u64,
                    body: body@,
                }),
                Err(e) => record_kind_named(kind@) is None && e@ == ErrorView::Storage(
                    "unknown kind"@,
                ),
            }),
    {
        match RecordKind::parse(kind) {
            Some(k) => Ok(
                Record {
                    kind: k,
                    key,
                    created_at: created_at as u64,
                    updated_at: updated_at as u64,
                    body,
                },
            ),
            None => Err(Error::Storage("unknown kind".to_owned())),
        }
    }
}

/// A time survives being held as a signed integer.
pub proof fn law_row_times_round_trip(t: TimestampMs)
    ensures
        (t as i64) as u64 == t,
{
    assert((t as i64) as u64 == t) by (bit_vector);
}

/// What a store holds: the records by kind and key.
pub type Contents = Map<(RecordKind, Seq<char>), RecordView>;

/// Whether these are the records of the kind, each once.
pub open spec fn lists(out: Seq<RecordView>, kind: RecordKind, contents: Contents) -> bool {
    &&& forall|i: int|
        0 <= i < out.len() ==> (#[trigger] out[i]).kind == kind && contents.contains_pair(
            (kind, out[i].key),
            out[i],
        )
    &&& forall|i: int, j: int|
        0 <= i < j < out.len() ==> (#[trigger] out[i]).key != (#[trigger] out[j]).key
    &&& forall|key: Seq<char>| #[trigger]
        contents.contains_key((kind, key)) ==> exists|i: int|
            0 <= i < out.len() && (#[trigger] out[i]).key == key
}

/// A place where records are kept. It may fail; what it then holds is open.
pub trait ControlStore: Sized {
    open spec fn valid(&self) -> bool {
        true
    }

    open spec fn contents(&self) -> Contents {
        arbitrary()
    }

    fn put(&mut self, record: &Record) -> (r: Result<()>)
        requires
            old(self).valid(),
            well_formed(record@.body),
        ensures
            final(self).valid(),
            r is Ok ==> final(self).contents() == old(self).contents().insert(
                (record@.kind, record@.key),
                record@,
            ),
    ;

    fn get(&self, kind: RecordKind, key: &str) -> (r: Result<Option<Record>>)
        requires
            self.valid(),
        ensures
            (match r {
                Ok(Some(record)) => self.contents().contains_pair((kind, key@), record@)
                    && well_formed(record@.body),
                Ok(None) => !self.contents().contains_key((kind, key@)),
                Err(_) => true,
            }),
    ;

    fn list(&self, kind: RecordKind) -> (r: Result<Vec<Record>>)
        requires
            self.valid(),
        ensures
            (match r {
                Ok(out) => lists(views(out@), kind, self.contents()) && forall|i: int|
                    0 <= i < out@.len() ==> well_formed((#[trigger] out@[i])@.body),
                Err(_) => true,
            }),
    ;

    fn delete(&mut self, kind: RecordKind, key: &str) -> (r: Result<()>)
        requires
            old(self).valid(),
        ensures
            final(self).valid(),
            r is Ok ==> final(self).contents() == old(self).contents().remove((kind, key@)),
    ;

    fn flush(&mut self) -> (r: Result<()>)
        requires
            old(self).valid(),
        ensures
            final(self).valid(),
            r is Ok ==> final(self).contents() == old(self).contents(),
    ;
}

/// How route profiles use a store.
pub trait RouteProfileStore: ControlStore {
    /// Stores the state of the route decisions, and answers as the store does.
    /// The time is left at zero.
    fn save_hysteresis(&mut self, state: &HysteresisState) -> (r: Result<()>)
        requires
            old(self).valid(),
        ensures
            final(self).valid(),
            r is Ok ==> final(self).contents() == old(self).contents().insert(
                (RecordKind::RouteProfile, "hysteresis"@),
                new_record(RecordKind::RouteProfile, "hysteresis"@, hysteresis_json(state@), 0),
            ),
            exists|store: &mut Self, handed: &Record|
                {
                    &&& *store == *old(self)
                    &&& *final(store) == *final(self)
                    &&& handed@ == new_record(
                        RecordKind::RouteProfile,
                        "hysteresis"@,
                        hysteresis_json(state@),
                        0,
                    )
                    &&& #[trigger] call_ensures(Self::put, (store, handed), r)
                },
    {
        proof {
            law_hysteresis_round_trips(state@);
        }
        self.put(&Record::new(RecordKind::RouteProfile, "hysteresis", state.to_json(), 0))
    }
}

pub open spec fn filed_under(kind: RecordKind, key: Seq<char>) -> spec_fn(RecordView) -> bool {
    |r: RecordView| r.kind == kind && r.key == key
}

pub open spec fn record_map(s: Seq<RecordView>) -> Contents {
    Map::new(
        |k: (RecordKind, Seq<char>)| first_index(s, filed_under(k.0, k.1)) < s.len(),
        |k: (RecordKind, Seq<char>)| s[first_index(s, filed_under(k.0, k.1))],
    )
}

pub open spec fn filed_apart(s: Seq<RecordView>) -> bool {
    forall|i: int, j: int|
        0 <= i < j < s.len() ==> (#[trigger] s[i]).kind != (#[trigger] s[j]).kind || s[i].key
            != s[j].key
}

/// A record that stands in the sequence is the one in the map.
proof fn lemma_filed(s: Seq<RecordView>)
    requires
        filed_apart(s),
    ensures
        forall|i: int|
            0 <= i < s.len() ==> record_map(s).contains_pair(
                ((#[trigger] s[i]).kind, s[i].key),
                s[i],
            ),
        forall|kind: RecordKind, key: Seq<char>| #[trigger]
            record_map(s).contains_key((kind, key)) ==> exists|i: int|
                0 <= i < s.len() && (#[trigger] s[i]).kind == kind && s[i].key == key && record_map(
                    s,
                )[(kind, key)] == s[i],
{
    assert forall|i: int| 0 <= i < s.len() implies record_map(s).contains_pair(
        ((#[trigger] s[i]).kind, s[i].key),
        s[i],
    ) by {
        let fits = filed_under(s[i].kind, s[i].key);
        assert forall|j: int| 0 <= j < i implies !fits(#[trigger] s[j]) by {
            assert(s[j].kind != s[i].kind || s[j].key != s[i].key);
        }
        lemma_first_index_is(s, fits, i);
    }
    assert forall|kind: RecordKind, key: Seq<char>| #[trigger]
        record_map(s).contains_key((kind, key)) implies exists|i: int|
        0 <= i < s.len() && (#[trigger] s[i]).kind == kind && s[i].key == key && record_map(s)[(
            kind,
            key,
        )] == s[i] by {
        let fits = filed_under(kind, key);
        lemma_first_index(s, fits);
        assert(fits(s[first_index(s, fits)]));
    }
}

/// A store in memory. It never fails.
#[derive(Debug)]
pub struct MemoryStore {
    records: Vec<Record>,
}

impl MemoryStore {
    pub closed spec fn records(&self) -> Seq<RecordView> {
        views(self.records@)
    }

    pub fn new() -> (r: MemoryStore)
        ensures
            r.valid(),
            r.contents() == Contents::empty(),
    {
        let r = MemoryStore { records: Vec::new() };
        proof {
            lemma_filed(r.records());
            assert(r.contents() =~= Contents::empty());
        }
        r
    }

    fn find(&self, kind: RecordKind, key: &str) -> (r: usize)
        ensures
            r == first_index(self.records(), filed_under(kind, key@)),
            r <= self.records().len(),
            r < self.records().len() ==> self.records()[r as int].kind == kind
                && self.records()[r as int].key == key@,
            forall|j: int|
                0 <= j < r ==> (#[trigger] self.records()[j]).kind != kind || self.records()[j].key
                    != key@,
    {
        let mut i: usize = 0;
        while i < self.records.len() && !(self.records[i].kind == kind && same(
            self.records[i].key.as_str(),
            key,
        ))
            invariant
                i <= self.records@.len(),
                forall|j: int|
                    0 <= j < i ==> (#[trigger] self.records()[j]).kind != kind
                        || self.records()[j].key != key@,
            decreases self.records@.len() - i,
        {
            i += 1;
        }
        proof {
            let fits = filed_under(kind, key@);
            assert forall|j: int| 0 <= j < i implies !fits(#[trigger] self.records()[j]) by {}
            lemma_first_index_is(self.records(), fits, i as int);
        }
        i
    }
}

impl Default for MemoryStore {
    fn default() -> (r: MemoryStore)
        ensures
            r.valid(),
            r.contents() == Contents::empty(),
    {
        MemoryStore::new()
    }
}

impl ControlStore for MemoryStore {
    open spec fn valid(&self) -> bool {
        filed_apart(self.records()) && forall|i: int|
            0 <= i < self.records().len() ==> well_formed((#[trigger] self.records()[i]).body)
    }

    open spec fn contents(&self) -> Contents {
        record_map(self.records())
    }

    fn put(&mut self, record: &Record) -> (r: Result<()>)
        ensures
            r is Ok,
    {
        let at: usize = self.find(record.kind, record.key.as_str());
        let ghost before = self.records();
        if at < self.records.len() {
            self.records.set(at, record.clone());
        } else {
            self.records.push(record.clone());
        }
        proof {
            let after = self.records();
            assert(after =~= if at < before.len() {
                before.update(at as int, record@)
            } else {
                before.push(record@)
            });
            assert(filed_apart(after)) by {
                assert forall|i: int, j: int| 0 <= i < j < after.len() implies (
                #[trigger] after[i]).kind != (#[trigger] after[j]).kind || after[i].key
                    != after[j].key by {
                    if j < before.len() {
                        assert(before[i].kind != before[j].kind || before[i].key != before[j].key);
                    } else {
                        assert(before[i].kind != record@.kind || before[i].key != record@.key);
                    }
                }
            }
            assert forall|i: int| 0 <= i < after.len() implies well_formed(
                (#[trigger] after[i]).body,
            ) by {
                if i != at {
                    assert(after[i] == before[i]);
                }
            }
            lemma_filed(before);
            lemma_filed(after);
            let want = record_map(before).insert((record@.kind, record@.key), record@);
            assert(after[at as int] == record@);
            assert forall|k: (RecordKind, Seq<char>)|
                #![trigger record_map(after).dom().contains(k)]
                #![trigger want.dom().contains(k)]
                #![trigger record_map(after)[k]]
                #![trigger want[k]]
                record_map(after).contains_key(k) == want.contains_key(k) && (want.contains_key(k)
                    ==> record_map(after)[k] == want[k]) by {
                lemma_filed_same(before, after, record@, at as int, k.0, k.1);
            }
            assert(record_map(after) =~= want);
        }
        Ok(())
    }

    fn get(&self, kind: RecordKind, key: &str) -> (r: Result<Option<Record>>)
        ensures
            r is Ok,
    {
        let at: usize = self.find(kind, key);
        if at < self.records.len() {
            let found = self.records[at].clone();
            assert(found@ == self.records()[at as int]);
            Ok(Some(found))
        } else {
            Ok(None)
        }
    }

    fn list(&self, kind: RecordKind) -> (r: Result<Vec<Record>>)
        ensures
            r is Ok,
    {
        let mut out: Vec<Record> = Vec::new();
        let mut i: usize = 0;
        let ghost all = self.records();
        while i < self.records.len()
            invariant
                i <= self.records@.len(),
                all == self.records(),
                self.valid(),
                forall|k: int|
                    0 <= k < out@.len() ==> (#[trigger] out@[k])@.kind == kind && exists|j: int|
                        0 <= j < i && #[trigger] all[j] == out@[k]@,
                forall|k: int| 0 <= k < out@.len() ==> well_formed((#[trigger] out@[k])@.body),
                forall|k: int, l: int|
                    0 <= k < l < out@.len() ==> (#[trigger] out@[k])@.key != (
                    #[trigger] out@[l])@.key,
                forall|j: int|
                    0 <= j < i && (#[trigger] all[j]).kind == kind ==> exists|k: int|
                        0 <= k < out@.len() && (#[trigger] out@[k])@.key == all[j].key,
            decreases self.records@.len() - i,
        {
            let ghost before = out@;
            if self.records[i].kind == kind {
                let copied = self.records[i].clone();
                assert(copied@ == all[i as int]);
                out.push(copied);
                proof {
                    assert(out@[before.len() as int]@ == all[i as int]);
                    assert forall|k: int| 0 <= k < before.len() implies (#[trigger] out@[k])@.key
                        != all[i as int].key by {
                        assert(out@[k] == before[k]);
                        let j = choose|j: int| 0 <= j < i && #[trigger] all[j] == before[k]@;
                        assert(all[j].kind != all[i as int].kind || all[j].key
                            != all[i as int].key);
                    }
                }
            }
            proof {
                assert forall|k: int| 0 <= k < out@.len() implies (#[trigger] out@[k])@.kind == kind
                    && exists|j: int| 0 <= j < i + 1 && #[trigger] all[j] == out@[k]@ by {
                    if k < before.len() {
                        assert(out@[k] == before[k]);
                        let j = choose|j: int| 0 <= j < i && #[trigger] all[j] == before[k]@;
                        assert(all[j] == out@[k]@);
                    }
                }
                assert forall|j: int|
                    0 <= j < i + 1 && (#[trigger] all[j]).kind == kind implies exists|k: int|
                    0 <= k < out@.len() && (#[trigger] out@[k])@.key == all[j].key by {
                    if j < i {
                        let k = choose|k: int|
                            0 <= k < before.len() && (#[trigger] before[k])@.key == all[j].key;
                        assert(out@[k] == before[k]);
                    } else {
                        assert(out@[before.len() as int]@.key == all[j].key);
                    }
                }
            }
            i += 1;
        }
        proof {
            lemma_filed(all);
            let listed = views(out@);
            assert forall|k: int| 0 <= k < listed.len() implies (#[trigger] listed[k]).kind == kind
                && self.contents().contains_pair((kind, listed[k].key), listed[k]) by {
                assert(listed[k] == out@[k]@);
                let j = choose|j: int| 0 <= j < all.len() && #[trigger] all[j] == out@[k]@;
                assert(record_map(all).contains_pair((all[j].kind, all[j].key), all[j]));
            }
            assert forall|k: int, l: int| 0 <= k < l < listed.len() implies (
            #[trigger] listed[k]).key != (#[trigger] listed[l]).key by {
                assert(out@[k]@.key != out@[l]@.key);
            }
            assert forall|key: Seq<char>| #[trigger]
                self.contents().contains_key((kind, key)) implies exists|k: int|
                0 <= k < listed.len() && (#[trigger] listed[k]).key == key by {
                let j = choose|j: int|
                    0 <= j < all.len() && (#[trigger] all[j]).kind == kind && all[j].key == key;
                let k = choose|k: int|
                    0 <= k < out@.len() && (#[trigger] out@[k])@.key == all[j].key;
                assert(listed[k].key == key);
            }
        }
        Ok(out)
    }

    fn delete(&mut self, kind: RecordKind, key: &str) -> (r: Result<()>)
        ensures
            r is Ok,
    {
        let at: usize = self.find(kind, key);
        let ghost before = self.records();
        if at < self.records.len() {
            let _gone = self.records.remove(at);
            proof {
                let after = self.records();
                assert(after =~= before.remove(at as int));
                lemma_removed(before, at as int);
            }
        } else {
            assert(record_map(before).remove((kind, key@)) =~= record_map(before));
        }
        Ok(())
    }

    fn flush(&mut self) -> (r: Result<()>)
        ensures
            r is Ok,
    {
        Ok(())
    }
}

impl RouteProfileStore for MemoryStore {

}

/// A record put in place of the one at its kind and key changes that entry
/// alone.
proof fn lemma_filed_same(
    before: Seq<RecordView>,
    after: Seq<RecordView>,
    record: RecordView,
    at: int,
    kind: RecordKind,
    key: Seq<char>,
)
    requires
        filed_apart(before),
        filed_apart(after),
        0 <= at <= before.len(),
        at < before.len() ==> before[at].kind == record.kind && before[at].key == record.key,
        after == (if at < before.len() {
            before.update(at, record)
        } else {
            before.push(record)
        }),
    ensures
        ({
            let want = record_map(before).insert((record.kind, record.key), record);
            &&& record_map(after).contains_key((kind, key)) == want.contains_key((kind, key))
            &&& want.contains_key((kind, key)) ==> record_map(after)[(kind, key)] == want[(
                kind,
                key,
            )]
        }),
{
    lemma_filed(before);
    lemma_filed(after);
    assert(after[at] == record);
    if !(kind == record.kind && key == record.key) {
        if record_map(before).contains_key((kind, key)) {
            let i = choose|i: int|
                0 <= i < before.len() && (#[trigger] before[i]).kind == kind && before[i].key == key
                    && record_map(before)[(kind, key)] == before[i];
            assert(after[i] == before[i]);
        }
        if record_map(after).contains_key((kind, key)) {
            let i = choose|i: int|
                0 <= i < after.len() && (#[trigger] after[i]).kind == kind && after[i].key == key
                    && record_map(after)[(kind, key)] == after[i];
            assert(before[i] == after[i]);
        }
    }
}

/// A record taken out of the sequence is gone from the map, and nothing else.
proof fn lemma_removed(before: Seq<RecordView>, at: int)
    requires
        filed_apart(before),
        0 <= at < before.len(),
        forall|i: int| 0 <= i < before.len() ==> well_formed((#[trigger] before[i]).body),
    ensures
        ({
            let after = before.remove(at);
            &&& filed_apart(after)
            &&& forall|i: int| 0 <= i < after.len() ==> well_formed((#[trigger] after[i]).body)
            &&& record_map(after) == record_map(before).remove((before[at].kind, before[at].key))
        }),
{
    let after = before.remove(at);
    assert forall|i: int, j: int| 0 <= i < j < after.len() implies (#[trigger] after[i]).kind != (
    #[trigger] after[j]).kind || after[i].key != after[j].key by {
        let x = if i < at {
            i
        } else {
            i + 1
        };
        let y = if j < at {
            j
        } else {
            j + 1
        };
        assert(after[i] == before[x] && after[j] == before[y]);
    }
    assert forall|i: int| 0 <= i < after.len() implies well_formed((#[trigger] after[i]).body) by {
        let x = if i < at {
            i
        } else {
            i + 1
        };
        assert(after[i] == before[x]);
    }
    lemma_filed(before);
    lemma_filed(after);
    let want = record_map(before).remove((before[at].kind, before[at].key));
    assert forall|k: (RecordKind, Seq<char>)|
        #![trigger record_map(after).dom().contains(k)]
        #![trigger want.dom().contains(k)]
        #![trigger record_map(after)[k]]
        #![trigger want[k]]
        record_map(after).contains_key(k) == want.contains_key(k) && (want.contains_key(k)
            ==> record_map(after)[k] == want[k]) by {
        if record_map(after).contains_key((k.0, k.1)) {
            let i = choose|i: int|
                0 <= i < after.len() && (#[trigger] after[i]).kind == k.0 && after[i].key == k.1
                    && record_map(after)[(k.0, k.1)] == after[i];
            let x = if i < at {
                i
            } else {
                i + 1
            };
            assert(after[i] == before[x]);
            assert(before[x].kind != before[at].kind || before[x].key != before[at].key);
            assert(record_map(before).contains_pair((before[x].kind, before[x].key), before[x]));
        }
        if want.contains_key((k.0, k.1)) {
            assert(record_map(before).contains_key((k.0, k.1)));
            let x = choose|x: int|
                0 <= x < before.len() && (#[trigger] before[x]).kind == k.0 && before[x].key == k.1
                    && record_map(before)[(k.0, k.1)] == before[x];
            let i = if x < at {
                x
            } else {
                x - 1
            };
            assert(after[i] == before[x]);
        }
    }
    assert(record_map(after) =~= want);
}

/// The operations in the records' bodies; `None` where one cannot be read.
pub open spec fn ops_of(records: Seq<RecordView>) -> Option<Seq<ControlOpView>>
    decreases records.len(),
{
    if records.len() == 0 {
        Some(seq![])
    } else {
        match (ops_of(records.drop_last()), op_of(records.last().body)) {
            (Some(ops), Some(op)) => Some(ops.push(op)),
            _ => None,
        }
    }
}

/// Reads the operations from the records' bodies.
pub fn decode_ops(records: &Vec<Record>) -> (r: Result<Vec<ControlOp>>)
    requires
        forall|i: int| 0 <= i < records@.len() ==> well_formed((#[trigger] records@[i])@.body),
    ensures
        (match r {
            Ok(ops) => ops_of(views(records@)) == Some(views(ops@)),
            Err(e) => ops_of(views(records@)) is None && e@ is Serde,
        }),
{
    let mut ops: Vec<ControlOp> = Vec::new();
    let mut i: usize = 0;
    let ghost all = views(records@);
    assert(all.take(0) =~= seq![]);
    assert(views(ops@) =~= seq![]);
    while i < records.len()
        invariant
            i <= records@.len(),
            all == views(records@),
            forall|k: int| 0 <= k < records@.len() ==> well_formed((#[trigger] records@[k])@.body),
            ops_of(all.take(i as int)) == Some(views(ops@)),
        decreases records@.len() - i,
    {
        assert(all.take(i + 1).drop_last() =~= all.take(i as int));
        assert(all.take(i + 1).last() == records@[i as int]@);
        assert(well_formed(records@[i as int]@.body));
        match records[i].decode::<ControlOp>() {
            Ok(op) => {
                let ghost before = ops@;
                ops.push(op);
                assert(views(ops@) =~= views(before).push(op@));
            },
            Err(e) => {
                proof {
                    lemma_unreadable(all, i + 1);
                }
                return Err(e);
            },
        }
        i += 1;
    }
    assert(all.take(i as int) =~= all);
    Ok(ops)
}

proof fn lemma_unreadable(records: Seq<RecordView>, n: int)
    requires
        0 <= n <= records.len(),
        ops_of(records.take(n)) is None,
    ensures
        ops_of(records) is None,
    decreases records.len() - n,
{
    if n < records.len() {
        assert(records.take(n + 1).drop_last() =~= records.take(n));
        lemma_unreadable(records, n + 1);
    } else {
        assert(records.take(n) =~= records);
    }
}

/// Keeps pending operations in a store.
pub struct Persistence<S: ControlStore> {
    store: S,
}

impl<S: ControlStore> Persistence<S> {
    /// The store that the operations are kept in.
    pub closed spec fn store(&self) -> S {
        self.store
    }

    pub open spec fn valid(&self) -> bool {
        self.store().valid()
    }

    pub open spec fn contents(&self) -> Contents {
        self.store().contents()
    }

    pub fn new(store: S) -> (r: Persistence<S>)
        requires
            store.valid(),
        ensures
            r.store() == store,
            r.valid(),
            r.contents() == store.contents(),
    {
        Persistence { store }
    }

    /// Stores the operation under its id, and answers as the store does.
    pub fn save_pending_op(&mut self, op: &ControlOp, now: TimestampMs) -> (r: Result<()>)
        requires
            old(self).valid(),
            op@.payload is Some ==> well_formed(op@.payload->Some_0),
        ensures
            final(self).valid(),
            r is Ok ==> final(self).contents() == old(self).contents().insert(
                (RecordKind::PendingControlOp, op@.operation_id),
                new_record(RecordKind::PendingControlOp, op@.operation_id, op_json(op@), now),
            ),
            exists|store: &mut S, handed: &Record|
                {
                    &&& *store == old(self).store()
                    &&& *final(store) == final(self).store()
                    &&& handed@ == new_record(
                        RecordKind::PendingControlOp,
                        op@.operation_id,
                        op_json(op@),
                        now,
                    )
                    &&& #[trigger] call_ensures(S::put, (store, handed), r)
                },
    {
        proof {
            crate::control::law_op_round_trips(op@);
        }
        self.store.put(
            &Record::new(
                RecordKind::PendingControlOp,
                op.operation_id.0.as_str(),
                op.to_json(),
                now,
            ),
        )
    }

    /// The operations that are stored, in the order the store lists them. Fails
    /// where the store cannot list them, or one of them cannot be read.
    pub fn load_pending_ops(&self) -> (r: Result<Vec<ControlOp>>)
        requires
            self.valid(),
        ensures
            r is Ok ==> exists|records: Seq<RecordView>| #[trigger]
                lists(records, RecordKind::PendingControlOp, self.contents()) && ops_of(records)
                    == Some(views(r->Ok_0@)),
            exists|listed: Result<Vec<Record>>| #[trigger]
                call_ensures(S::list, (&self.store(), RecordKind::PendingControlOp), listed) && (
                match listed {
                    Ok(records) => match ops_of(views(records@)) {
                        Some(ops) => r is Ok && views(r->Ok_0@) == ops,
                        None => r is Err && r->Err_0@ is Serde,
                    },
                    Err(e) => r == Err::<Vec<ControlOp>, Error>(e),
                }),
    {
        let records = match self.store.list(RecordKind::PendingControlOp) {
            Ok(records) => records,
            Err(e) => {
                return Err(e);
            },
        };
        assert(lists(views(records@), RecordKind::PendingControlOp, self.contents()));
        decode_ops(&records)
    }

    /// Takes the operation out of the store, and answers as the store does.
    pub fn clear_pending_op(&mut self, operation_id: &str) -> (r: Result<()>)
        requires
            old(self).valid(),
        ensures
            final(self).valid(),
            r is Ok ==> final(self).contents() == old(self).contents().remove(
                (RecordKind::PendingControlOp, operation_id@),
            ),
            exists|store: &mut S, handed: &str|
                {
                    &&& *store == old(self).store()
                    &&& *final(store) == final(self).store()
                    &&& handed@ == operation_id@
                    &&& #[trigger] call_ensures(
                        S::delete,
                        (store, RecordKind::PendingControlOp, handed),
                        r,
                    )
                },
    {
        self.store.delete(RecordKind::PendingControlOp, operation_id)
    }
}

/// An operation that was saved is among those that are loaded, as it was; one
/// that was cleared is not.
pub proof fn law_pending_ops_survive(
    contents: Contents,
    op: ControlOpView,
    now: TimestampMs,
    records: Seq<RecordView>,
    ops: Seq<ControlOpView>,
)
    requires
        op.payload != Some(JsonView::Null),
        op.payload is Some ==> well_formed(op.payload->Some_0),
        lists(records, RecordKind::PendingControlOp, contents),
        ops_of(records) == Some(ops),
    ensures
        contents.contains_pair(
            (RecordKind::PendingControlOp, op.operation_id),
            new_record(RecordKind::PendingControlOp, op.operation_id, op_json(op), now),
        ) ==> ops.contains(op),
        !contents.contains_key((RecordKind::PendingControlOp, op.operation_id)) ==> forall|i: int|
            0 <= i < records.len() ==> (#[trigger] records[i]).key != op.operation_id,
{
    let kind = RecordKind::PendingControlOp;
    let record = new_record(kind, op.operation_id, op_json(op), now);
    if contents.contains_pair((kind, op.operation_id), record) {
        crate::control::law_op_round_trips(op);
        assert(contents.contains_key((kind, op.operation_id)));
        let i = choose|i: int|
            0 <= i < records.len() && (#[trigger] records[i]).key == op.operation_id;
        assert(contents.contains_pair((kind, records[i].key), records[i]));
        lemma_op_at(records, ops, i);
        assert(ops[i] == op);
    }
}

proof fn lemma_op_at(records: Seq<RecordView>, ops: Seq<ControlOpView>, i: int)
    requires
        ops_of(records) == Some(ops),
        0 <= i < records.len(),
    ensures
        ops.len() == records.len(),
        op_of(records[i].body) == Some(ops[i]),
    decreases records.len(),
{
    let front = records.drop_last();
    let rest = ops_of(front)->Some_0;
    if records.len() > 1 {
        lemma_op_at(
            front,
            rest,
            if i < front.len() {
                i
            } else {
                0
            },
        );
    }
}

} // verus!
