//! How values are laid out as JSON where they are stored.
//!
//! A struct is an object of its fields. It is also read from an array of the
//! fields' values in order.
use vstd::prelude::*;

use crate::hysteresis::{cooldown_views, HysteresisState, HysteresisStateView};
use crate::json::{
    array_view, get_member, lemma_array_view, lemma_object_well_formed, lemma_with_member,
    lemma_with_member_well_formed, lookup, members_view, members_well_formed, put_member,
    well_formed, with_member, Json, JsonView, Members, Number,
};
use crate::model::MetricsSnapshot;
use crate::ratio::{count, counted};
use crate::reading::{Reading, INFINITE, SIGN};
use crate::views::view_of;
use crate::{Error, ErrorView, Result, TimestampMs};

verus! {

/// The value of a field: by its name in an object, by its place in an array
/// with as many items as there are fields.
pub open spec fn field_of(j: JsonView, name: Seq<char>, at: int, count: nat) -> Option<JsonView> {
    match j {
        JsonView::Object(m) => lookup(m, name),
        JsonView::Array(a) => if a.len() == count {
            Some(a[at])
        } else {
            None
        },
        _ => None,
    }
}

pub open spec fn seen(j: Option<&Json>) -> Option<JsonView> {
    match j {
        Some(v) => Some(v@),
        None => None,
    }
}

pub fn field<'a>(j: &'a Json, name: &str, at: usize, count: usize) -> (r: Option<&'a Json>)
    requires
        well_formed(j@),
        at < count,
    ensures
        seen(r) == field_of(j@, name@, at as int, count as nat),
        r is Some ==> well_formed(r->Some_0@),
{
    match j {
        Json::Object(members) => {
            proof {
                lemma_object_well_formed(members_view(members@));
                crate::json::lemma_found(members_view(members@), name@);
            }
            get_member(members, name)
        },
        Json::Array(items) => {
            proof {
                lemma_array_view(items@);
            }
            if items.len() == count {
                assert(well_formed(array_view(items@)[at as int]));
                Some(&items[at])
            } else {
                None
            }
        },
        _ => None,
    }
}

pub open spec fn text_in(j: Option<JsonView>) -> Option<Seq<char>> {
    match j {
        Some(JsonView::Text(t)) => Some(t),
        _ => None,
    }
}

pub open spec fn count_in(j: Option<JsonView>) -> Option<u64> {
    match j {
        Some(JsonView::Number(Number::PosInt(n))) => Some(n),
        _ => None,
    }
}

/// A time that may be missing or null; `None` where it is something else.
pub open spec fn optional_time_in(j: Option<JsonView>) -> Option<Option<TimestampMs>> {
    match j {
        None => Some(None),
        Some(JsonView::Null) => Some(None),
        Some(JsonView::Number(Number::PosInt(n))) => Some(Some(n)),
        _ => None,
    }
}

pub open spec fn negated(r: Reading) -> Reading {
    Reading {
        bits: if r.bits >= SIGN {
            (r.bits - SIGN) as u64
        } else {
            (r.bits + SIGN) as u64
        },
    }
}

/// A number as a reading; an integer becomes the one nearest to it.
pub open spec fn reading_of(n: Number) -> Reading {
    match n {
        Number::PosInt(u) => counted(u),
        Number::NegInt(i) => if i >= 0 {
            counted(i as u64)
        } else {
            negated(counted(-i as u64))
        },
        Number::Float(r) => r,
    }
}

pub open spec fn reading_in(j: Option<JsonView>) -> Option<Reading> {
    match j {
        Some(JsonView::Number(n)) => Some(reading_of(n)),
        _ => None,
    }
}

/// A reading as JSON, which has no number for what is not finite.
pub open spec fn reading_json(r: Reading) -> JsonView {
    if r.magnitude() < INFINITE {
        JsonView::Number(Number::Float(r))
    } else {
        JsonView::Null
    }
}

pub fn read_text(j: Option<&Json>) -> (r: Option<String>)
    ensures
        view_of(r) == text_in(seen(j)),
{
    match j {
        Some(Json::Text(t)) => Some(t.clone()),
        _ => None,
    }
}

pub fn read_count(j: Option<&Json>) -> (r: Option<u64>)
    ensures
        r == count_in(seen(j)),
{
    match j {
        Some(Json::Number(Number::PosInt(n))) => Some(*n),
        _ => None,
    }
}

fn read_optional_time(j: Option<&Json>) -> (r: Option<Option<TimestampMs>>)
    ensures
        r == optional_time_in(seen(j)),
{
    match j {
        None => Some(None),
        Some(Json::Null) => Some(None),
        Some(Json::Number(Number::PosInt(n))) => Some(Some(*n)),
        _ => None,
    }
}

fn read_reading(j: Option<&Json>) -> (r: Option<Reading>)
    ensures
        r == reading_in(seen(j)),
{
    match j {
        Some(Json::Number(Number::Float(r))) => Some(*r),
        Some(Json::Number(Number::PosInt(u))) => Some(count(*u)),
        Some(Json::Number(Number::NegInt(i))) => {
            if *i >= 0 {
                Some(count(*i as u64))
            } else {
                let size: u64 = (-(*i as i128)) as u64;
                let r = count(size);
                let bits: u64 = if r.bits >= SIGN { r.bits - SIGN } else { r.bits + SIGN };
                Some(Reading { bits })
            }
        },
        _ => None,
    }
}

fn write_reading(r: Reading) -> (j: Json)
    ensures
        j@ == reading_json(r),
{
    let magnitude: u64 = if r.bits >= SIGN { r.bits - SIGN } else { r.bits };
    if magnitude < INFINITE {
        Json::Number(Number::Float(r))
    } else {
        Json::Null
    }
}

pub open spec fn metrics_json(m: MetricsSnapshot) -> JsonView {
    let o: Members = seq![];
    let o = with_member(o, "latency_ms"@, reading_json(m.latency_ms));
    let o = with_member(o, "jitter_ms"@, reading_json(m.jitter_ms));
    let o = with_member(o, "packet_loss_ratio"@, reading_json(m.packet_loss_ratio));
    let o = with_member(o, "stability"@, reading_json(m.stability));
    let o = with_member(o, "handshake_latency_ms"@, reading_json(m.handshake_latency_ms));
    let o = with_member(o, "reconnect_rate"@, reading_json(m.reconnect_rate));
    JsonView::Object(o)
}

pub open spec fn metrics_of(j: JsonView) -> Option<MetricsSnapshot> {
    match (
        reading_in(field_of(j, "latency_ms"@, 0, 6)),
        reading_in(field_of(j, "jitter_ms"@, 1, 6)),
        reading_in(field_of(j, "packet_loss_ratio"@, 2, 6)),
        reading_in(field_of(j, "stability"@, 3, 6)),
        reading_in(field_of(j, "handshake_latency_ms"@, 4, 6)),
        reading_in(field_of(j, "reconnect_rate"@, 5, 6)),
    ) {
        (
            Some(latency_ms),
            Some(jitter_ms),
            Some(packet_loss_ratio),
            Some(stability),
            Some(handshake_latency_ms),
            Some(reconnect_rate),
        ) => Some(
            MetricsSnapshot {
                latency_ms,
                jitter_ms,
                packet_loss_ratio,
                stability,
                handshake_latency_ms,
                reconnect_rate,
            },
        ),
        _ => None,
    }
}

fn write_metrics(m: &MetricsSnapshot) -> (j: Json)
    ensures
        j@ == metrics_json(*m),
{
    let mut o: Vec<(String, Json)> = Vec::new();
    assert(members_view(o@) =~= seq![]);
    put_member(&mut o, "latency_ms", write_reading(m.latency_ms));
    put_member(&mut o, "jitter_ms", write_reading(m.jitter_ms));
    put_member(&mut o, "packet_loss_ratio", write_reading(m.packet_loss_ratio));
    put_member(&mut o, "stability", write_reading(m.stability));
    put_member(&mut o, "handshake_latency_ms", write_reading(m.handshake_latency_ms));
    put_member(&mut o, "reconnect_rate", write_reading(m.reconnect_rate));
    Json::Object(o)
}

fn read_metrics(j: &Json) -> (r: Option<MetricsSnapshot>)
    requires
        well_formed(j@),
    ensures
        r == metrics_of(j@),
{
    match (
        read_reading(field(j, "latency_ms", 0, 6)),
        read_reading(field(j, "jitter_ms", 1, 6)),
        read_reading(field(j, "packet_loss_ratio", 2, 6)),
        read_reading(field(j, "stability", 3, 6)),
        read_reading(field(j, "handshake_latency_ms", 4, 6)),
        read_reading(field(j, "reconnect_rate", 5, 6)),
    ) {
        (
            Some(latency_ms),
            Some(jitter_ms),
            Some(packet_loss_ratio),
            Some(stability),
            Some(handshake_latency_ms),
            Some(reconnect_rate),
        ) => Some(
            MetricsSnapshot {
                latency_ms,
                jitter_ms,
                packet_loss_ratio,
                stability,
                handshake_latency_ms,
                reconnect_rate,
            },
        ),
        _ => None,
    }
}

/// A banned route as JSON: its id and the time, in an array.
pub open spec fn cooldown_json(c: (Seq<char>, TimestampMs)) -> JsonView {
    JsonView::Array(seq![JsonView::Text(c.0), JsonView::Number(Number::PosInt(c.1))])
}

pub open spec fn cooldown_of(j: JsonView) -> Option<(Seq<char>, TimestampMs)> {
    match j {
        JsonView::Array(a) => if a.len() == 2 {
            match (text_in(Some(a[0])), count_in(Some(a[1]))) {
                (Some(id), Some(until)) => Some((id, until)),
                _ => None,
            }
        } else {
            None
        },
        _ => None,
    }
}

pub open spec fn cooldowns_json(s: Seq<(Seq<char>, TimestampMs)>) -> JsonView {
    JsonView::Array(Seq::new(s.len(), |i: int| cooldown_json(s[i])))
}

pub open spec fn all_cooldowns(a: Seq<JsonView>) -> Option<Seq<(Seq<char>, TimestampMs)>>
    decreases a.len(),
{
    if a.len() == 0 {
        Some(seq![])
    } else {
        match (all_cooldowns(a.drop_last()), cooldown_of(a.last())) {
            (Some(s), Some(c)) => Some(s.push(c)),
            _ => None,
        }
    }
}

pub open spec fn cooldowns_in(j: Option<JsonView>) -> Option<Seq<(Seq<char>, TimestampMs)>> {
    match j {
        Some(JsonView::Array(a)) => all_cooldowns(a),
        _ => None,
    }
}

fn write_cooldowns(s: &Vec<(String, TimestampMs)>) -> (j: Json)
    ensures
        j@ == cooldowns_json(cooldown_views(s@)),
{
    let mut items: Vec<Json> = Vec::new();
    let mut i: usize = 0;
    while i < s.len()
        invariant
            i <= s@.len(),
            items@.len() == i,
            forall|k: int|
                0 <= k < i ==> (#[trigger] items@[k])@ == cooldown_json(cooldown_views(s@)[k]),
        decreases s@.len() - i,
    {
        let mut pair: Vec<Json> = Vec::new();
        pair.push(Json::Text(s[i].0.clone()));
        pair.push(Json::Number(Number::PosInt(s[i].1)));
        proof {
            lemma_array_view(pair@);
            assert(array_view(pair@) =~= seq![
                JsonView::Text(s@[i as int].0@),
                JsonView::Number(Number::PosInt(s@[i as int].1)),
            ]);
        }
        items.push(Json::Array(pair));
        i += 1;
    }
    proof {
        lemma_array_view(items@);
        let want = cooldowns_json(cooldown_views(s@));
        assert(want matches JsonView::Array(a) && array_view(items@) =~= a);
    }
    Json::Array(items)
}

fn read_cooldown(j: &Json) -> (r: Option<(String, TimestampMs)>)
    ensures
        (match r {
            Some(c) => cooldown_of(j@) == Some((c.0@, c.1)),
            None => cooldown_of(j@) is None,
        }),
{
    match j {
        Json::Array(items) => {
            proof {
                lemma_array_view(items@);
            }
            if items.len() == 2 {
                match (read_text(Some(&items[0])), read_count(Some(&items[1]))) {
                    (Some(id), Some(until)) => Some((id, until)),
                    _ => None,
                }
            } else {
                None
            }
        },
        _ => None,
    }
}

fn read_cooldowns(j: Option<&Json>) -> (r: Option<Vec<(String, TimestampMs)>>)
    ensures
        (match r {
            Some(s) => cooldowns_in(seen(j)) == Some(cooldown_views(s@)),
            None => cooldowns_in(seen(j)) is None,
        }),
{
    match j {
        Some(Json::Array(items)) => {
            let mut s: Vec<(String, TimestampMs)> = Vec::new();
            let ghost all = array_view(items@);
            proof {
                lemma_array_view(items@);
                assert(all.take(0) =~= seq![]);
                assert(cooldown_views(s@) =~= seq![]);
            }
            let mut i: usize = 0;
            while i < items.len()
                invariant
                    i <= items@.len(),
                    all.len() == items@.len(),
                    seen(j) == Some(JsonView::Array(all)),
                    forall|k: int| 0 <= k < items@.len() ==> #[trigger] all[k] == items@[k]@,
                    all_cooldowns(all.take(i as int)) == Some(cooldown_views(s@)),
                decreases items@.len() - i,
            {
                assert(all.take(i + 1).drop_last() =~= all.take(i as int));
                assert(all.take(i + 1).last() == items@[i as int]@);
                match read_cooldown(&items[i]) {
                    Some(c) => {
                        let ghost before = s@;
                        s.push(c);
                        assert(cooldown_views(s@) =~= cooldown_views(before).push((c.0@, c.1)));
                    },
                    None => {
                        proof {
                            lemma_all_or_nothing(all, i + 1);
                        }
                        return None;
                    },
                }
                i += 1;
            }
            assert(all.take(i as int) =~= all);
            Some(s)
        },
        _ => None,
    }
}

/// What cannot be read in part cannot be read as a whole.
proof fn lemma_all_or_nothing(a: Seq<JsonView>, n: int)
    requires
        0 <= n <= a.len(),
        all_cooldowns(a.take(n)) is None,
    ensures
        all_cooldowns(a) is None,
    decreases a.len() - n,
{
    if n < a.len() {
        assert(a.take(n + 1).drop_last() =~= a.take(n));
        lemma_all_or_nothing(a, n + 1);
    } else {
        assert(a.take(n) =~= a);
    }
}

pub open spec fn optional_time_json(t: Option<TimestampMs>) -> JsonView {
    match t {
        Some(n) => JsonView::Number(Number::PosInt(n)),
        None => JsonView::Null,
    }
}

pub open spec fn hysteresis_json(s: HysteresisStateView) -> JsonView {
    let o: Members = seq![];
    let o = with_member(o, "current_route_id"@, JsonView::Text(s.current_route_id));
    let o = with_member(o, "cooldowns"@, cooldowns_json(s.cooldowns));
    let o = with_member(o, "degradation_since"@, optional_time_json(s.degradation_since));
    let o = with_member(o, "current_metrics"@, metrics_json(s.current_metrics));
    JsonView::Object(o)
}

pub open spec fn metrics_in(j: Option<JsonView>) -> Option<MetricsSnapshot> {
    match j {
        Some(v) => metrics_of(v),
        None => None,
    }
}

pub open spec fn hysteresis_of(j: JsonView) -> Option<HysteresisStateView> {
    match (
        text_in(field_of(j, "current_route_id"@, 0, 4)),
        cooldowns_in(field_of(j, "cooldowns"@, 1, 4)),
        optional_time_in(field_of(j, "degradation_since"@, 2, 4)),
        metrics_in(field_of(j, "current_metrics"@, 3, 4)),
    ) {
        (Some(id), Some(cooldowns), Some(since), Some(metrics)) => Some(
            HysteresisStateView {
                current_route_id: id,
                cooldowns,
                degradation_since: since,
                current_metrics: metrics,
            },
        ),
        _ => None,
    }
}

impl HysteresisState {
    pub fn to_json(&self) -> (r: Json)
        ensures
            r@ == hysteresis_json(self@),
    {
        let since = match self.degradation_since {
            Some(n) => Json::Number(Number::PosInt(n)),
            None => Json::Null,
        };
        let mut o: Vec<(String, Json)> = Vec::new();
        assert(members_view(o@) =~= seq![]);
        put_member(&mut o, "current_route_id", Json::Text(self.current_route_id.clone()));
        put_member(&mut o, "cooldowns", write_cooldowns(&self.cooldowns));
        put_member(&mut o, "degradation_since", since);
        put_member(&mut o, "current_metrics", write_metrics(&self.current_metrics));
        Json::Object(o)
    }

    pub fn from_json(j: &Json) -> (r: Result<HysteresisState>)
        requires
            well_formed(j@),
        ensures
            (match r {
                Ok(s) => hysteresis_of(j@) == Some(s@),
                Err(e) => hysteresis_of(j@) is None && e@ == ErrorView::Serde(
                    "malformed hysteresis state"@,
                ),
            }),
    {
        let metrics = match field(j, "current_metrics", 3, 4) {
            Some(m) => read_metrics(m),
            None => None,
        };
        match (
            read_text(field(j, "current_route_id", 0, 4)),
            read_cooldowns(field(j, "cooldowns", 1, 4)),
            read_optional_time(field(j, "degradation_since", 2, 4)),
            metrics,
        ) {
            (Some(current_route_id), Some(cooldowns), Some(degradation_since), Some(m)) => Ok(
                HysteresisState {
                    current_route_id,
                    cooldowns,
                    degradation_since,
                    current_metrics: m,
                },
            ),
            _ => Err(Error::Serde("malformed hysteresis state".to_owned())),
        }
    }
}

/// A value that can be read from what is stored.
pub trait Stored: Sized + View {
    /// What the JSON stands for, if anything.
    spec fn read_from(j: JsonView) -> Option<Self::V>;

    fn decode(j: &Json) -> (r: Result<Self>)
        requires
            well_formed(j@),
        ensures
            (match r {
                Ok(t) => Self::read_from(j@) == Some(t@),
                Err(e) => Self::read_from(j@) is None && e@ is Serde,
            }),
    ;
}

impl Stored for HysteresisState {
    open spec fn read_from(j: JsonView) -> Option<HysteresisStateView> {
        hysteresis_of(j)
    }

    fn decode(j: &Json) -> (r: Result<HysteresisState>) {
        HysteresisState::from_json(j)
    }
}

/// What an object holds once a member is set.
pub proof fn lemma_set_member(m: Members, key: Seq<char>, value: JsonView)
    requires
        members_well_formed(m),
        well_formed(value),
    ensures
        members_well_formed(with_member(m, key, value)),
        lookup(with_member(m, key, value), key) == Some(value),
        forall|k: Seq<char>|
            k != key ==> #[trigger] lookup(with_member(m, key, value), k) == lookup(m, k),
{
    lemma_with_member_well_formed(m, key, value);
    lemma_with_member(m, key, value);
}

pub open spec fn finite(r: Reading) -> bool {
    r.magnitude() < INFINITE
}

pub open spec fn all_finite(m: MetricsSnapshot) -> bool {
    finite(m.latency_ms) && finite(m.jitter_ms) && finite(m.packet_loss_ratio) && finite(
        m.stability,
    ) && finite(m.handshake_latency_ms) && finite(m.reconnect_rate)
}

proof fn lemma_metrics_round_trip(m: MetricsSnapshot)
    ensures
        all_finite(m) ==> metrics_of(metrics_json(m)) == Some(m),
        well_formed(metrics_json(m)),
        metrics_json(m) is Object,
        lookup(metrics_json(m)->Object_0, "latency_ms"@) == Some(reading_json(m.latency_ms)),
        lookup(metrics_json(m)->Object_0, "jitter_ms"@) == Some(reading_json(m.jitter_ms)),
        lookup(metrics_json(m)->Object_0, "packet_loss_ratio"@) == Some(
            reading_json(m.packet_loss_ratio),
        ),
        lookup(metrics_json(m)->Object_0, "stability"@) == Some(reading_json(m.stability)),
        lookup(metrics_json(m)->Object_0, "handshake_latency_ms"@) == Some(
            reading_json(m.handshake_latency_ms),
        ),
        lookup(metrics_json(m)->Object_0, "reconnect_rate"@) == Some(
            reading_json(m.reconnect_rate),
        ),
{
    reveal_strlit("latency_ms");
    reveal_strlit("jitter_ms");
    reveal_strlit("packet_loss_ratio");
    reveal_strlit("stability");
    reveal_strlit("handshake_latency_ms");
    reveal_strlit("reconnect_rate");
    assert("latency_ms"@.len() == 10);
    assert("jitter_ms"@.len() == 9);
    assert("packet_loss_ratio"@.len() == 17);
    assert("stability"@.len() == 9);
    assert("jitter_ms"@[0] != "stability"@[0]);
    assert("handshake_latency_ms"@.len() == 20);
    assert("reconnect_rate"@.len() == 14);
    let o0: Members = seq![];
    assert(members_well_formed(o0));
    let o1 = with_member(o0, "latency_ms"@, reading_json(m.latency_ms));
    lemma_set_member(o0, "latency_ms"@, reading_json(m.latency_ms));
    let o2 = with_member(o1, "jitter_ms"@, reading_json(m.jitter_ms));
    lemma_set_member(o1, "jitter_ms"@, reading_json(m.jitter_ms));
    let o3 = with_member(o2, "packet_loss_ratio"@, reading_json(m.packet_loss_ratio));
    lemma_set_member(o2, "packet_loss_ratio"@, reading_json(m.packet_loss_ratio));
    let o4 = with_member(o3, "stability"@, reading_json(m.stability));
    lemma_set_member(o3, "stability"@, reading_json(m.stability));
    let o5 = with_member(o4, "handshake_latency_ms"@, reading_json(m.handshake_latency_ms));
    lemma_set_member(o4, "handshake_latency_ms"@, reading_json(m.handshake_latency_ms));
    let o6 = with_member(o5, "reconnect_rate"@, reading_json(m.reconnect_rate));
    lemma_set_member(o5, "reconnect_rate"@, reading_json(m.reconnect_rate));
    assert(metrics_json(m) == JsonView::Object(o6));
    assert(lookup(o6, "latency_ms"@) == lookup(o1, "latency_ms"@));
    assert(lookup(o6, "jitter_ms"@) == lookup(o2, "jitter_ms"@));
    assert(lookup(o6, "packet_loss_ratio"@) == lookup(o3, "packet_loss_ratio"@));
    assert(lookup(o6, "stability"@) == lookup(o4, "stability"@));
    assert(lookup(o6, "handshake_latency_ms"@) == lookup(o5, "handshake_latency_ms"@));
    lemma_object_well_formed(o6);
}

proof fn lemma_cooldowns_round_trip(s: Seq<(Seq<char>, TimestampMs)>)
    ensures
        cooldowns_in(Some(cooldowns_json(s))) == Some(s),
        well_formed(cooldowns_json(s)),
    decreases s.len(),
{
    let a = Seq::new(s.len(), |i: int| cooldown_json(s[i]));
    assert forall|i: int| 0 <= i < a.len() implies well_formed(#[trigger] a[i]) by {
        lemma_cooldown_well_formed(s[i]);
    }
    if s.len() > 0 {
        let front = s.drop_last();
        lemma_cooldowns_round_trip(front);
        assert(a.drop_last() =~= Seq::new(front.len(), |i: int| cooldown_json(front[i])));
        assert(cooldown_of(cooldown_json(s.last())) == Some(s.last()));
        assert(front.push(s.last()) =~= s);
    } else {
        assert(s =~= seq![]);
    }
}

proof fn lemma_cooldown_well_formed(c: (Seq<char>, TimestampMs))
    ensures
        well_formed(cooldown_json(c)),
{
    let a = seq![JsonView::Text(c.0), JsonView::Number(Number::PosInt(c.1))];
    assert forall|i: int| 0 <= i < a.len() implies well_formed(#[trigger] a[i]) by {}
}

/// The state that is restored is the state that was stored. A reading that is
/// not finite has no place in JSON.
pub proof fn law_hysteresis_round_trips(s: HysteresisStateView)
    ensures
        all_finite(s.current_metrics) ==> hysteresis_of(hysteresis_json(s)) == Some(s),
        well_formed(hysteresis_json(s)),
        hysteresis_json(s) is Object,
        lookup(hysteresis_json(s)->Object_0, "current_route_id"@) == Some(
            JsonView::Text(s.current_route_id),
        ),
        lookup(hysteresis_json(s)->Object_0, "cooldowns"@) == Some(cooldowns_json(s.cooldowns)),
        lookup(hysteresis_json(s)->Object_0, "degradation_since"@) == Some(
            match s.degradation_since {
                Some(at) => JsonView::Number(Number::PosInt(at)),
                None => JsonView::Null,
            },
        ),
        lookup(hysteresis_json(s)->Object_0, "current_metrics"@) == Some(
            metrics_json(s.current_metrics),
        ),
{
    reveal_strlit("current_route_id");
    reveal_strlit("cooldowns");
    reveal_strlit("degradation_since");
    reveal_strlit("current_metrics");
    assert("current_route_id"@.len() == 16);
    assert("cooldowns"@.len() == 9);
    assert("degradation_since"@.len() == 17);
    assert("current_metrics"@.len() == 15);
    lemma_cooldowns_round_trip(s.cooldowns);
    lemma_metrics_round_trip(s.current_metrics);
    let since = optional_time_json(s.degradation_since);
    let o0: Members = seq![];
    assert(members_well_formed(o0));
    let o1 = with_member(o0, "current_route_id"@, JsonView::Text(s.current_route_id));
    lemma_set_member(o0, "current_route_id"@, JsonView::Text(s.current_route_id));
    let o2 = with_member(o1, "cooldowns"@, cooldowns_json(s.cooldowns));
    lemma_set_member(o1, "cooldowns"@, cooldowns_json(s.cooldowns));
    let o3 = with_member(o2, "degradation_since"@, since);
    lemma_set_member(o2, "degradation_since"@, since);
    let o4 = with_member(o3, "current_metrics"@, metrics_json(s.current_metrics));
    lemma_set_member(o3, "current_metrics"@, metrics_json(s.current_metrics));
    assert(hysteresis_json(s) == JsonView::Object(o4));
    assert(lookup(o4, "current_route_id"@) == lookup(o1, "current_route_id"@));
    assert(lookup(o4, "cooldowns"@) == lookup(o2, "cooldowns"@));
    assert(lookup(o4, "degradation_since"@) == lookup(o3, "degradation_since"@));
    lemma_object_well_formed(o4);
}

/// Each of the metrics stands under its own name, as the number it is. A ban
/// is written as the route and the time at which it ends.
pub proof fn law_metrics_stand_under_their_names(
    m: MetricsSnapshot,
    bans: Seq<(Seq<char>, TimestampMs)>,
    i: int,
)
    requires
        all_finite(m),
        0 <= i < bans.len(),
    ensures
        metrics_json(m) is Object,
        ({
            let o = metrics_json(m)->Object_0;
            &&& lookup(o, "latency_ms"@) == Some(JsonView::Number(Number::Float(m.latency_ms)))
            &&& lookup(o, "jitter_ms"@) == Some(JsonView::Number(Number::Float(m.jitter_ms)))
            &&& lookup(o, "packet_loss_ratio"@) == Some(
                JsonView::Number(Number::Float(m.packet_loss_ratio)),
            )
            &&& lookup(o, "stability"@) == Some(JsonView::Number(Number::Float(m.stability)))
            &&& lookup(o, "handshake_latency_ms"@) == Some(
                JsonView::Number(Number::Float(m.handshake_latency_ms)),
            )
            &&& lookup(o, "reconnect_rate"@) == Some(
                JsonView::Number(Number::Float(m.reconnect_rate)),
            )
        }),
        cooldowns_json(bans) is Array,
        cooldowns_json(bans)->Array_0.len() == bans.len(),
        cooldowns_json(bans)->Array_0[i] == JsonView::Array(
            seq![JsonView::Text(bans[i].0), JsonView::Number(Number::PosInt(bans[i].1))],
        ),
{
    lemma_metrics_round_trip(m);
}

} // verus!
