//! JSON values.
//!
//! The members of an object are kept in the order of their keys, by code
//! points, each key once.
use vstd::prelude::*;

use crate::reading::{Reading, SIGN};
use crate::search::{first_index, lemma_first_index, lemma_first_index_is};
use crate::text::{letters, same};

verus! {

/// A JSON number: integers are kept as such.
#[derive(Clone, Copy, Debug)]
pub enum Number {
    PosInt(u64),
    NegInt(i64),
    Float(Reading),
}

#[derive(Debug)]
pub enum Json {
    Null,
    Bool(bool),
    Number(Number),
    Text(String),
    Array(Vec<Json>),
    Object(Vec<(String, Json)>),
}

pub enum JsonView {
    Null,
    Bool(bool),
    Number(Number),
    Text(Seq<char>),
    Array(Seq<JsonView>),
    Object(Seq<(Seq<char>, JsonView)>),
}

/// The members of an object.
pub type Members = Seq<(Seq<char>, JsonView)>;

impl View for Json {
    type V = JsonView;

    open spec fn view(&self) -> JsonView {
        json_view(*self)
    }
}

pub open spec fn json_view(j: Json) -> JsonView
    decreases j,
{
    match j {
        Json::Null => JsonView::Null,
        Json::Bool(b) => JsonView::Bool(b),
        Json::Number(n) => JsonView::Number(n),
        Json::Text(t) => JsonView::Text(t@),
        Json::Array(v) => JsonView::Array(array_view(v@)),
        Json::Object(v) => JsonView::Object(members_view(v@)),
    }
}

pub open spec fn array_view(s: Seq<Json>) -> Seq<JsonView>
    decreases s,
{
    if s.len() == 0 {
        seq![]
    } else {
        array_view(s.drop_last()).push(json_view(s.last()))
    }
}

pub open spec fn members_view(s: Seq<(String, Json)>) -> Members
    decreases s,
{
    if s.len() == 0 {
        seq![]
    } else {
        members_view(s.drop_last()).push((s.last().0@, json_view(s.last().1)))
    }
}

pub broadcast proof fn lemma_array_view(s: Seq<Json>)
    ensures
        #[trigger] array_view(s).len() == s.len(),
        forall|i: int| 0 <= i < s.len() ==> #[trigger] array_view(s)[i] == s[i]@,
    decreases s.len(),
{
    if s.len() > 0 {
        lemma_array_view(s.drop_last());
    }
}

pub broadcast proof fn lemma_members_view(s: Seq<(String, Json)>)
    ensures
        #[trigger] members_view(s).len() == s.len(),
        forall|i: int| 0 <= i < s.len() ==> #[trigger] members_view(s)[i] == (s[i].0@, s[i].1@),
    decreases s.len(),
{
    if s.len() > 0 {
        lemma_members_view(s.drop_last());
    }
}

/// Whether text `a` comes before text `b`, by code points.
pub open spec fn comes_before(a: Seq<char>, b: Seq<char>) -> bool
    decreases a.len(),
{
    if b.len() == 0 {
        false
    } else if a.len() == 0 {
        true
    } else if a[0] != b[0] {
        a[0] < b[0]
    } else {
        comes_before(a.drop_first(), b.drop_first())
    }
}

pub proof fn lemma_order(a: Seq<char>, b: Seq<char>)
    ensures
        !comes_before(a, a),
        comes_before(a, b) ==> !comes_before(b, a) && a != b,
        a != b ==> comes_before(a, b) || comes_before(b, a),
    decreases a.len(),
{
    if a.len() > 0 {
        lemma_order(a.drop_first(), a.drop_first());
        if b.len() > 0 {
            lemma_order(a.drop_first(), b.drop_first());
            if a[0] == b[0] && a.drop_first() == b.drop_first() {
                assert(a =~= seq![a[0]] + a.drop_first());
                assert(b =~= seq![b[0]] + b.drop_first());
            }
        }
    } else if b.len() == 0 {
        assert(a =~= b);
    }
}

pub proof fn lemma_order_transitive(a: Seq<char>, b: Seq<char>, c: Seq<char>)
    requires
        comes_before(a, b),
        comes_before(b, c),
    ensures
        comes_before(a, c),
    decreases a.len(),
{
    if a.len() > 0 && b.len() > 0 && c.len() > 0 && a[0] == b[0] && b[0] == c[0] {
        lemma_order_transitive(a.drop_first(), b.drop_first(), c.drop_first());
    }
}

/// Whether the members are in order, each key once.
pub open spec fn sorted(s: Members) -> bool {
    forall|i: int, j: int|
        0 <= i < j < s.len() ==> comes_before((#[trigger] s[i]).0, (#[trigger] s[j]).0)
}

/// Whether the value is one that JSON text can stand for: objects in order,
/// and no number that is none.
pub open spec fn well_formed(j: JsonView) -> bool
    decreases j,
{
    match j {
        JsonView::Number(Number::Float(r)) => !r.is_nan(),
        JsonView::Array(s) => forall|i: int| 0 <= i < s.len() ==> well_formed(#[trigger] s[i]),
        JsonView::Object(s) => members_well_formed(s),
        _ => true,
    }
}

pub open spec fn members_well_formed(s: Members) -> bool
    decreases s,
{
    sorted(s) && forall|i: int| 0 <= i < s.len() ==> well_formed((#[trigger] s[i]).1)
}

pub open spec fn same_number(a: Number, b: Number) -> bool {
    match (a, b) {
        (Number::PosInt(x), Number::PosInt(y)) => x == y,
        (Number::NegInt(x), Number::NegInt(y)) => x == y,
        (Number::Float(x), Number::Float(y)) => x.equals(y),
        _ => false,
    }
}

/// Whether two values are the same JSON.
pub open spec fn same_json(a: JsonView, b: JsonView) -> bool
    decreases a,
{
    match (a, b) {
        (JsonView::Null, JsonView::Null) => true,
        (JsonView::Bool(x), JsonView::Bool(y)) => x == y,
        (JsonView::Number(x), JsonView::Number(y)) => same_number(x, y),
        (JsonView::Text(x), JsonView::Text(y)) => x == y,
        (JsonView::Array(x), JsonView::Array(y)) => x.len() == y.len() && forall|i: int|
            0 <= i < x.len() ==> same_json(#[trigger] x[i], y[i]),
        (JsonView::Object(x), JsonView::Object(y)) => same_members(x, y),
        _ => false,
    }
}

/// Whether two objects have the same members.
pub open spec fn same_members(x: Members, y: Members) -> bool
    decreases x,
{
    x.len() == y.len() && forall|i: int|
        0 <= i < x.len() ==> (#[trigger] x[i]).0 == y[i].0 && same_json(x[i].1, y[i].1)
}

pub open spec fn named(key: Seq<char>) -> spec_fn((Seq<char>, JsonView)) -> bool {
    |m: (Seq<char>, JsonView)| m.0 == key
}

/// The value of the key, where there is one.
pub open spec fn lookup(s: Members, key: Seq<char>) -> Option<JsonView> {
    let at = first_index(s, named(key));
    if at < s.len() {
        Some(s[at].1)
    } else {
        None
    }
}

pub open spec fn not_before(key: Seq<char>) -> spec_fn((Seq<char>, JsonView)) -> bool {
    |m: (Seq<char>, JsonView)| !comes_before(m.0, key)
}

/// Where the key stands, or would stand.
pub open spec fn slot(s: Members, key: Seq<char>) -> int {
    first_index(s, not_before(key))
}

/// The members with the value under the key.
pub open spec fn with_member(s: Members, key: Seq<char>, value: JsonView) -> Members {
    let at = slot(s, key);
    if at < s.len() && s[at].0 == key {
        s.update(at, (key, value))
    } else {
        s.insert(at, (key, value))
    }
}

/// In an ordered object, a key is found at its slot or nowhere.
pub proof fn lemma_slot(s: Members, key: Seq<char>)
    requires
        sorted(s),
    ensures
        0 <= slot(s, key) <= s.len(),
        forall|i: int| 0 <= i < slot(s, key) ==> comes_before((#[trigger] s[i]).0, key),
        forall|i: int|
            slot(s, key) <= i < s.len() ==> (#[trigger] s[i]).0 == key || comes_before(
                key,
                s[i].0,
            ),
        forall|i: int|
            slot(s, key) < i < s.len() ==> comes_before(key, (#[trigger] s[i]).0),
        lookup(s, key) == (if slot(s, key) < s.len() && s[slot(s, key)].0 == key {
            Some(s[slot(s, key)].1)
        } else {
            None
        }),
{
    lemma_first_index(s, not_before(key));
    let at = slot(s, key);
    assert forall|i: int| 0 <= i < at implies comes_before((#[trigger] s[i]).0, key) by {
        assert(!not_before(key)(s[i]));
    }
    if at < s.len() {
        assert(not_before(key)(s[at]));
        lemma_order(s[at].0, key);
    }
    assert forall|i: int| at < i < s.len() implies comes_before(key, (#[trigger] s[i]).0) by {
        assert(comes_before(s[at].0, s[i].0));
        if s[at].0 != key {
            lemma_order_transitive(key, s[at].0, s[i].0);
        }
    }
    assert forall|i: int| 0 <= i < s.len() && i != at implies (#[trigger] s[i]).0 != key by {
        lemma_order(s[i].0, key);
        lemma_order(key, s[i].0);
    }
    if at < s.len() && s[at].0 == key {
        assert forall|i: int| 0 <= i < at implies !named(key)(#[trigger] s[i]) by {}
        lemma_first_index_is(s, named(key), at);
    } else {
        assert forall|i: int| 0 <= i < s.len() implies !named(key)(#[trigger] s[i]) by {
            assert(i != at ==> s[i].0 != key);
        }
        lemma_first_index_is(s, named(key), s.len() as int);
    }
}

/// A member that stands in an ordered object is the one found by its key.
pub proof fn lemma_lookup_at(s: Members, i: int)
    requires
        sorted(s),
        0 <= i < s.len(),
    ensures
        lookup(s, s[i].0) == Some(s[i].1),
{
    let key = s[i].0;
    assert forall|j: int| 0 <= j < i implies !named(key)(#[trigger] s[j]) by {
        lemma_order(s[j].0, s[i].0);
    }
    lemma_first_index_is(s, named(key), i);
}

/// A key that is found stands somewhere.
pub proof fn lemma_found(s: Members, key: Seq<char>)
    ensures
        lookup(s, key) is Some ==> exists|i: int|
            0 <= i < s.len() && (#[trigger] s[i]).0 == key && s[i].1 == lookup(s, key)->Some_0,
        lookup(s, key) is None ==> forall|i: int|
            0 <= i < s.len() ==> (#[trigger] s[i]).0 != key,
{
    lemma_first_index(s, named(key));
    let at = first_index(s, named(key));
    if at < s.len() {
        assert(named(key)(s[at]));
        assert(s[at].0 == key);
    } else {
        assert forall|i: int| 0 <= i < s.len() implies (#[trigger] s[i]).0 != key by {
            assert(!named(key)(s[i]));
        }
    }
}

/// Putting a member in keeps the order, sets its key, and leaves every other
/// key as it was.
pub proof fn lemma_with_member(s: Members, key: Seq<char>, value: JsonView)
    requires
        sorted(s),
    ensures
        sorted(with_member(s, key, value)),
        lookup(with_member(s, key, value), key) == Some(value),
        forall|k: Seq<char>|
            k != key ==> #[trigger] lookup(with_member(s, key, value), k) == lookup(s, k),
{
    lemma_slot(s, key);
    let at = slot(s, key);
    let t = with_member(s, key, value);
    let replaces = at < s.len() && s[at].0 == key;
    assert(t[at] == (key, value));
    assert forall|i: int, j: int| 0 <= i < j < t.len() implies comes_before(
        (#[trigger] t[i]).0,
        (#[trigger] t[j]).0,
    ) by {
        if replaces {
            assert(comes_before(s[i].0, s[j].0));
        } else {
            let i0 = if i < at {
                i
            } else {
                i - 1
            };
            let j0 = if j < at {
                j
            } else {
                j - 1
            };
            if i == at {
                assert(t[j] == s[j0]);
            } else if j == at {
                assert(t[i] == s[i0]);
            } else {
                assert(t[i] == s[i0] && t[j] == s[j0]);
                assert(comes_before(s[i0].0, s[j0].0));
            }
        }
    }
    lemma_lookup_at(t, at);
    assert forall|k: Seq<char>| k != key implies #[trigger] lookup(t, k) == lookup(s, k) by {
        lemma_found(s, k);
        lemma_found(t, k);
        if lookup(s, k) is Some {
            let i = choose|i: int|
                0 <= i < s.len() && (#[trigger] s[i]).0 == k && s[i].1 == lookup(s, k)->Some_0;
            let i1 = if replaces || i < at {
                i
            } else {
                i + 1
            };
            assert(t[i1] == s[i]);
            lemma_lookup_at(t, i1);
        } else if lookup(t, k) is Some {
            let i = choose|i: int|
                0 <= i < t.len() && (#[trigger] t[i]).0 == k && t[i].1 == lookup(t, k)->Some_0;
            let i0 = if replaces || i < at {
                i
            } else {
                i - 1
            };
            assert(i != at);
            assert(s[i0] == t[i]);
        }
    }
}

/// Ordered objects with the same values under the same keys are equal.
pub proof fn lemma_same_lookups(s: Members, t: Members)
    requires
        sorted(s),
        sorted(t),
        forall|k: Seq<char>| #[trigger] lookup(s, k) == lookup(t, k),
    ensures
        s == t,
    decreases s.len(),
{
    if s.len() == 0 {
        if t.len() > 0 {
            lemma_lookup_at(t, 0);
            lemma_found(s, t[0].0);
        }
        assert(s =~= t);
    } else {
        let n = s.len() - 1;
        lemma_lookup_at(s, n);
        lemma_found(t, s[n].0);
        let m = choose|i: int| 0 <= i < t.len() && (#[trigger] t[i]).0 == s[n].0;
        let last = t.len() - 1;
        if m < last {
            lemma_lookup_at(t, last);
            lemma_found(s, t[last].0);
            let p = choose|i: int| 0 <= i < s.len() && (#[trigger] s[i]).0 == t[last].0;
            assert(comes_before(t[m].0, t[last].0));
            lemma_order(s[p].0, s[n].0);
            lemma_order(t[m].0, t[last].0);
            if p < n {
                assert(comes_before(s[p].0, s[n].0));
            }
        }
        assert(m == last);
        let s0 = s.drop_last();
        let t0 = t.drop_last();
        assert(sorted(s0));
        assert(sorted(t0));
        lemma_lookup_at(t, last);
        assert forall|k: Seq<char>| #[trigger] lookup(s0, k) == lookup(t0, k) by {
            lemma_drop_last(s, k);
            lemma_drop_last(t, k);
            assert(lookup(s, k) == lookup(t, k));
        }
        lemma_same_lookups(s0, t0);
        assert(s =~= s0.push(s[n]));
        assert(t =~= t0.push(t[last]));
    }
}

proof fn lemma_drop_last(s: Members, k: Seq<char>)
    requires
        sorted(s),
        s.len() > 0,
    ensures
        lookup(s.drop_last(), k) == (if k == s.last().0 {
            None
        } else {
            lookup(s, k)
        }),
{
    let s0 = s.drop_last();
    lemma_found(s0, k);
    lemma_found(s, k);
    assert(sorted(s0));
    if lookup(s0, k) is Some {
        let i = choose|i: int|
            0 <= i < s0.len() && (#[trigger] s0[i]).0 == k && s0[i].1 == lookup(s0, k)->Some_0;
        assert(s[i] == s0[i]);
        lemma_lookup_at(s, i);
        lemma_order(s[i].0, s.last().0);
        assert(comes_before(s[i].0, s[s.len() - 1].0));
    } else if lookup(s, k) is Some && k != s.last().0 {
        let i = choose|i: int|
            0 <= i < s.len() && (#[trigger] s[i]).0 == k && s[i].1 == lookup(s, k)->Some_0;
        assert(s0[i] == s[i]);
    }
}

/// Ordered objects with the same JSON under the same keys are the same.
pub proof fn lemma_alike(s: Members, t: Members)
    requires
        sorted(s),
        sorted(t),
        forall|k: Seq<char>|
            #![trigger lookup(s, k)]
            #![trigger lookup(t, k)]
            match (lookup(s, k), lookup(t, k)) {
                (Some(x), Some(y)) => same_json(x, y),
                (None, None) => true,
                _ => false,
            },
    ensures
        same_members(s, t),
    decreases s.len(),
{
    if s.len() == 0 {
        if t.len() > 0 {
            lemma_lookup_at(t, 0);
            lemma_found(s, t[0].0);
            assert(lookup(s, t[0].0) is None);
        }
    } else {
        let n = s.len() - 1;
        lemma_lookup_at(s, n);
        lemma_found(t, s[n].0);
        assert(lookup(t, s[n].0) is Some);
        let m = choose|i: int| 0 <= i < t.len() && (#[trigger] t[i]).0 == s[n].0;
        let last = t.len() - 1;
        if m < last {
            lemma_lookup_at(t, last);
            assert(lookup(s, t[last].0) is Some);
            lemma_found(s, t[last].0);
            let p = choose|i: int| 0 <= i < s.len() && (#[trigger] s[i]).0 == t[last].0;
            assert(comes_before(t[m].0, t[last].0));
            lemma_order(s[p].0, s[n].0);
            lemma_order(t[m].0, t[last].0);
            if p < n {
                assert(comes_before(s[p].0, s[n].0));
            }
        }
        assert(m == last);
        let s0 = s.drop_last();
        let t0 = t.drop_last();
        assert(sorted(s0));
        assert(sorted(t0));
        lemma_lookup_at(t, last);
        assert forall|k: Seq<char>|
            #![trigger lookup(s0, k)]
            #![trigger lookup(t0, k)]
            match (lookup(s0, k), lookup(t0, k)) {
                (Some(x), Some(y)) => same_json(x, y),
                (None, None) => true,
                _ => false,
            } by {
            lemma_drop_last(s, k);
            lemma_drop_last(t, k);
            assert(match (lookup(s, k), lookup(t, k)) {
                (Some(x), Some(y)) => same_json(x, y),
                (None, None) => true,
                _ => false,
            });
        }
        lemma_alike(s0, t0);
        assert forall|i: int| 0 <= i < s.len() implies (#[trigger] s[i]).0 == t[i].0 && same_json(
            s[i].1,
            t[i].1,
        ) by {
            if i < n {
                assert(s0[i] == s[i] && t0[i] == t[i]);
            } else {
                assert(lookup(s, s[n].0) == Some(s[n].1));
                assert(lookup(t, t[last].0) == Some(t[last].1));
            }
        }
    }
}

/// Every well-formed value is the same as itself.
pub proof fn lemma_same_reflexive(j: JsonView)
    requires
        well_formed(j),
    ensures
        same_json(j, j),
    decreases j,
{
    match j {
        JsonView::Array(s) => {
            assert forall|i: int| 0 <= i < s.len() implies same_json(#[trigger] s[i], s[i]) by {
                assert(well_formed(s[i]));
                lemma_same_reflexive(s[i]);
            }
        },
        JsonView::Object(s) => {
            assert(members_well_formed(s));
            assert forall|i: int| 0 <= i < s.len() implies (#[trigger] s[i]).0 == s[i].0
                && same_json(s[i].1, s[i].1) by {
                lemma_same_reflexive(s[i].1);
            }
            assert(same_members(s, s));
        },
        _ => {},
    }
}

/// Whether no float is the negative zero, which is the same number as the
/// other one.
pub open spec fn one_zero(j: JsonView) -> bool
    decreases j,
{
    match j {
        JsonView::Number(Number::Float(r)) => r.bits != SIGN,
        JsonView::Array(s) => forall|i: int| 0 <= i < s.len() ==> one_zero(#[trigger] s[i]),
        JsonView::Object(s) => members_one_zero(s),
        _ => true,
    }
}

pub open spec fn members_one_zero(s: Members) -> bool
    decreases s,
{
    forall|i: int| 0 <= i < s.len() ==> one_zero((#[trigger] s[i]).1)
}

/// Two values that are the same JSON are equal, the two zeros aside.
pub proof fn law_same_is_equal(a: JsonView, b: JsonView)
    requires
        same_json(a, b),
        one_zero(a),
        one_zero(b),
    ensures
        a == b,
    decreases a,
{
    match (a, b) {
        (JsonView::Array(x), JsonView::Array(y)) => {
            assert forall|i: int| 0 <= i < x.len() implies x[i] == y[i] by {
                assert(same_json(x[i], y[i]));
                assert(one_zero(x[i]) && one_zero(y[i]));
                law_same_is_equal(x[i], y[i]);
            }
            assert(x =~= y);
        },
        (JsonView::Object(x), JsonView::Object(y)) => {
            assert(same_members(x, y));
            assert(members_one_zero(x));
            assert(members_one_zero(y));
            assert forall|i: int| 0 <= i < x.len() implies x[i] == y[i] by {
                assert(x[i].0 == y[i].0 && same_json(x[i].1, y[i].1));
                assert(one_zero(x[i].1) && one_zero(y[i].1));
                law_same_is_equal(x[i].1, y[i].1);
            }
            assert(x =~= y);
        },
        _ => {},
    }
}

pub proof fn lemma_with_member_well_formed(s: Members, key: Seq<char>, value: JsonView)
    requires
        members_well_formed(s),
        well_formed(value),
    ensures
        members_well_formed(with_member(s, key, value)),
{
    lemma_with_member(s, key, value);
    lemma_slot(s, key);
    let t = with_member(s, key, value);
    let at = slot(s, key);
    assert forall|i: int| 0 <= i < t.len() implies well_formed((#[trigger] t[i]).1) by {
        if at < s.len() && s[at].0 == key {
            if i != at {
                assert(t[i] == s[i]);
            }
        } else if i < at {
            assert(t[i] == s[i]);
        } else if i > at {
            assert(t[i] == s[i - 1]);
        }
    }
}

pub proof fn lemma_object_well_formed(s: Members)
    ensures
        well_formed(JsonView::Object(s)) == members_well_formed(s),
{
    reveal_with_fuel(well_formed, 2);
    reveal_with_fuel(members_well_formed, 2);
}

pub proof fn lemma_member_well_formed(s: Members, key: Seq<char>)
    requires
        members_well_formed(s),
        lookup(s, key) is Some,
    ensures
        well_formed(lookup(s, key)->Some_0),
{
    crate::json::lemma_found(s, key);
}

/// Whether text `a` comes before text `b`, by code points.
pub fn precedes(a: &str, b: &str) -> (r: bool)
    ensures
        r == comes_before(a@, b@),
{
    let x = letters(a);
    let y = letters(b);
    let mut i: usize = 0;
    assert(x@.skip(0) =~= x@);
    assert(y@.skip(0) =~= y@);
    while i < x.len() && i < y.len() && x[i] == y[i]
        invariant
            i <= x@.len(),
            i <= y@.len(),
            x@ == a@,
            y@ == b@,
            comes_before(a@, b@) == comes_before(x@.skip(i as int), y@.skip(i as int)),
        decreases x@.len() - i,
    {
        assert(x@.skip(i as int).drop_first() =~= x@.skip(i + 1));
        assert(y@.skip(i as int).drop_first() =~= y@.skip(i + 1));
        i = i + 1;
    }
    if i >= y.len() {
        false
    } else if i >= x.len() {
        true
    } else {
        x[i] < y[i]
    }
}

/// The place where the key stands or would stand.
pub fn find_slot(members: &Vec<(String, Json)>, key: &str) -> (r: usize)
    ensures
        r == slot(members_view(members@), key@),
        r <= members@.len(),
{
    broadcast use lemma_members_view;

    let mut i: usize = 0;
    let ghost view = members_view(members@);
    while i < members.len() && precedes(&members[i].0, key)
        invariant
            i <= members@.len(),
            view == members_view(members@),
            view.len() == members@.len(),
            forall|j: int| 0 <= j < i ==> !not_before(key@)(#[trigger] view[j]),
        decreases members@.len() - i,
    {
        proof {
            lemma_members_view(members@);
            assert(view[i as int] == (members@[i as int].0@, members@[i as int].1@));
        }
        i = i + 1;
    }
    proof {
        if i < members@.len() {
            assert(view[i as int] == (members@[i as int].0@, members@[i as int].1@));
        }
        lemma_first_index_is(view, not_before(key@), i as int);
    }
    i
}

/// The value of the key, where there is one.
pub fn get_member<'a>(members: &'a Vec<(String, Json)>, key: &str) -> (r: Option<&'a Json>)
    requires
        sorted(members_view(members@)),
    ensures
        (match r {
            Some(j) => lookup(members_view(members@), key@) == Some(j@),
            None => lookup(members_view(members@), key@) is None,
        }),
{
    broadcast use lemma_members_view;

    let at: usize = find_slot(members, key);
    proof {
        lemma_slot(members_view(members@), key@);
    }
    if at < members.len() && same(&members[at].0, key) {
        Some(&members[at].1)
    } else {
        None
    }
}

/// Puts the value under the key.
pub fn put_member(members: &mut Vec<(String, Json)>, key: &str, value: Json)
    ensures
        members_view(final(members)@) == with_member(members_view(old(members)@), key@, value@),
{
    broadcast use lemma_members_view;

    let at: usize = find_slot(members, key);
    let ghost before = members@;
    if at < members.len() && same(&members[at].0, key) {
        members.set(at, (key.to_owned(), value));
        assert(members_view(members@) =~= members_view(before).update(at as int, (key@, value@)));
    } else {
        members.insert(at, (key.to_owned(), value));
        assert(members_view(members@) =~= members_view(before).insert(at as int, (key@, value@)));
    }
}

impl Json {
    /// A copy of the value, all the way down.
    pub fn copy(&self) -> (r: Json)
        ensures
            r@ == self@,
        decreases self,
    {
        match self {
            Json::Null => Json::Null,
            Json::Bool(b) => Json::Bool(*b),
            Json::Number(n) => Json::Number(*n),
            Json::Text(t) => Json::Text(t.clone()),
            Json::Array(items) => Json::Array(copy_items(items)),
            Json::Object(members) => Json::Object(copy_members(members)),
        }
    }

    /// Whether the two values are the same JSON.
    pub fn equal(&self, other: &Json) -> (r: bool)
        ensures
            r == same_json(self@, other@),
        decreases self,
    {
        broadcast use {lemma_array_view, lemma_members_view};

        match (self, other) {
            (Json::Null, Json::Null) => true,
            (Json::Bool(x), Json::Bool(y)) => *x == *y,
            (Json::Number(x), Json::Number(y)) => match (x, y) {
                (Number::PosInt(m), Number::PosInt(n)) => *m == *n,
                (Number::NegInt(m), Number::NegInt(n)) => *m == *n,
                (Number::Float(m), Number::Float(n)) => *m == *n,
                _ => false,
            },
            (Json::Text(x), Json::Text(y)) => same(x, y),
            (Json::Array(x), Json::Array(y)) => equal_items(x, y),
            (Json::Object(x), Json::Object(y)) => equal_members(x, y),
            _ => false,
        }
    }
}

fn copy_items(items: &Vec<Json>) -> (r: Vec<Json>)
    ensures
        array_view(r@) == array_view(items@),
    decreases items@,
{
    let mut r: Vec<Json> = Vec::new();
    let mut i: usize = 0;
    assert(items@.take(0) =~= seq![]);
    while i < items.len()
        invariant
            i <= items@.len(),
            array_view(r@) == array_view(items@.take(i as int)),
        decreases items@.len() - i,
    {
        let item = items[i].copy();
        let ghost before = r@;
        r.push(item);
        assert(r@.drop_last() =~= before);
        assert(items@.take(i + 1).drop_last() =~= items@.take(i as int));
        i = i + 1;
    }
    assert(items@.take(i as int) =~= items@);
    r
}

fn copy_members(members: &Vec<(String, Json)>) -> (r: Vec<(String, Json)>)
    ensures
        members_view(r@) == members_view(members@),
    decreases members@,
{
    let mut r: Vec<(String, Json)> = Vec::new();
    let mut i: usize = 0;
    assert(members@.take(0) =~= seq![]);
    while i < members.len()
        invariant
            i <= members@.len(),
            members_view(r@) == members_view(members@.take(i as int)),
        decreases members@.len() - i,
    {
        let key = members[i].0.clone();
        let value = members[i].1.copy();
        let ghost before = r@;
        r.push((key, value));
        assert(r@.drop_last() =~= before);
        assert(members@.take(i + 1).drop_last() =~= members@.take(i as int));
        i = i + 1;
    }
    assert(members@.take(i as int) =~= members@);
    r
}

fn equal_items(x: &Vec<Json>, y: &Vec<Json>) -> (r: bool)
    ensures
        r == same_json(JsonView::Array(array_view(x@)), JsonView::Array(array_view(y@))),
    decreases x@,
{
    broadcast use lemma_array_view;

    if x.len() != y.len() {
        return false;
    }
    let mut i: usize = 0;
    while i < x.len()
        invariant
            i <= x@.len(),
            x@.len() == y@.len(),
            array_view(x@).len() == x@.len(),
            array_view(y@).len() == y@.len(),
            forall|j: int|
                0 <= j < i ==> same_json(#[trigger] array_view(x@)[j], array_view(y@)[j]),
        decreases x@.len() - i,
    {
        proof {
            lemma_array_view(x@);
            lemma_array_view(y@);
            assert(array_view(x@)[i as int] == x@[i as int]@);
            assert(array_view(y@)[i as int] == y@[i as int]@);
        }
        if !x[i].equal(&y[i]) {
            return false;
        }
        i = i + 1;
    }
    true
}

fn equal_members(x: &Vec<(String, Json)>, y: &Vec<(String, Json)>) -> (r: bool)
    ensures
        r == same_members(members_view(x@), members_view(y@)),
    decreases x@,
{
    broadcast use lemma_members_view;

    if x.len() != y.len() {
        return false;
    }
    let mut i: usize = 0;
    while i < x.len()
        invariant
            i <= x@.len(),
            x@.len() == y@.len(),
            members_view(x@).len() == x@.len(),
            members_view(y@).len() == y@.len(),
            forall|j: int|
                0 <= j < i ==> (#[trigger] members_view(x@)[j]).0 == members_view(y@)[j].0
                    && same_json(members_view(x@)[j].1, members_view(y@)[j].1),
        decreases x@.len() - i,
    {
        proof {
            lemma_members_view(x@);
            lemma_members_view(y@);
            assert(members_view(x@)[i as int] == (x@[i as int].0@, x@[i as int].1@));
            assert(members_view(y@)[i as int] == (y@[i as int].0@, y@[i as int].1@));
        }
        if !same(&x[i].0, &y[i].0) || !x[i].1.equal(&y[i].1) {
            return false;
        }
        i = i + 1;
    }
    true
}

} // verus!
