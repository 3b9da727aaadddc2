//! Delta sync: what changed between two states, when that is worth sending.
//!
//! A delta maps paths to new values, each the keys that lead there with dots
//! between them. Two kinds of entry begin with a dot, as no such path does:
//! `.-` names a member that is gone, and `.=` one whose keys could not be told
//! apart again otherwise. In these a tilde within a key is written `~0`, and a
//! dot `~1`.
use vstd::prelude::*;

use crate::json::{
    comes_before, find_slot, lemma_member_well_formed, lemma_members_view, lemma_object_well_formed,
    lemma_order, lemma_slot, lemma_with_member, lemma_with_member_well_formed,
    lookup, members_one_zero, members_view, members_well_formed, one_zero, precedes, put_member,
    same_json, same_members, slot,
    sorted, well_formed, with_member, Json, JsonView, Members,
};
use crate::text::{before_first, head_before_first, letters, same};
use crate::views::views;

verus! {

/// A change: where, as the keys that lead there, and the new value, `None`
/// where there is no longer one.
pub type Change = (Seq<Seq<char>>, Option<JsonView>);

/// The changes as seen from one level above.
pub open spec fn under(key: Seq<char>, changes: Seq<Change>) -> Seq<Change> {
    Seq::new(changes.len(), |i: int| (seq![key] + changes[i].0, changes[i].1))
}

/// The change of one member that both objects have.
pub open spec fn change_at(key: Seq<char>, old_value: JsonView, new_value: JsonView) -> Seq<Change>
    decreases old_value, new_value,
{
    if same_json(old_value, new_value) {
        seq![]
    } else {
        match (old_value, new_value) {
            (JsonView::Object(x), JsonView::Object(y)) => under(key, changes(x, y)),
            _ => seq![(seq![key], Some(new_value))],
        }
    }
}

/// The changes that lead from one object to the other, by key; objects that
/// both have are compared member by member.
pub open spec fn changes(a: Members, b: Members) -> Seq<Change>
    decreases a, b,
{
    if a.len() == 0 && b.len() == 0 {
        seq![]
    } else if b.len() == 0 || (a.len() > 0 && comes_before(a[0].0, b[0].0)) {
        seq![(seq![a[0].0], None::<JsonView>)] + changes(a.drop_first(), b)
    } else if a.len() == 0 || comes_before(b[0].0, a[0].0) {
        seq![(seq![b[0].0], Some(b[0].1))] + changes(a, b.drop_first())
    } else {
        change_at(a[0].0, a[0].1, b[0].1) + changes(a.drop_first(), b.drop_first())
    }
}

/// How a character of a key is written behind `.-` or `.=`.
pub open spec fn code(c: char) -> Seq<char> {
    if c == '~' {
        seq!['~', '0']
    } else if c == '.' {
        seq!['~', '1']
    } else {
        seq![c]
    }
}

/// A key as it is written behind `.-` or `.=`: without a dot.
pub open spec fn escaped(key: Seq<char>) -> Seq<char>
    decreases key.len(),
{
    if key.len() == 0 {
        seq![]
    } else {
        code(key[0]) + escaped(key.drop_first())
    }
}

/// The key that is written so behind `.-` or `.=`.
pub open spec fn unescaped(text: Seq<char>) -> Seq<char>
    decreases text.len(),
{
    if text.len() == 0 {
        seq![]
    } else if text.len() >= 2 && text[0] == '~' && text[1] == '0' {
        seq!['~'] + unescaped(text.skip(2))
    } else if text.len() >= 2 && text[0] == '~' && text[1] == '1' {
        seq!['.'] + unescaped(text.skip(2))
    } else {
        seq![text[0]] + unescaped(text.drop_first())
    }
}

pub open spec fn escaped_all(keys: Seq<Seq<char>>) -> Seq<Seq<char>> {
    Seq::new(keys.len(), |i: int| escaped(keys[i]))
}

pub open spec fn unescaped_all(texts: Seq<Seq<char>>) -> Seq<Seq<char>> {
    Seq::new(texts.len(), |i: int| unescaped(texts[i]))
}

/// The texts with dots between them.
pub open spec fn joined(texts: Seq<Seq<char>>) -> Seq<char>
    decreases texts.len(),
{
    if texts.len() == 0 {
        seq![]
    } else if texts.len() == 1 {
        texts[0]
    } else {
        texts[0] + "."@ + joined(texts.drop_first())
    }
}

/// Whether a text holds no dot.
pub open spec fn plain(key: Seq<char>) -> bool {
    forall|i: int| 0 <= i < key.len() ==> key[i] != '.'
}

/// Whether the keys, with dots between them, can be told apart again, and give
/// a path that does not begin with a dot.
pub open spec fn tell_apart(keys: Seq<Seq<char>>) -> bool {
    &&& forall|i: int| 0 <= i < keys.len() ==> plain(#[trigger] keys[i])
    &&& keys.len() > 1 ==> keys[0].len() > 0
}

/// The name of the patch of what the keys lead to, which may be gone.
pub open spec fn name_for(keys: Seq<Seq<char>>, gone: bool) -> Seq<char> {
    if gone {
        ".-"@ + joined(escaped_all(keys))
    } else if tell_apart(keys) {
        joined(keys)
    } else {
        ".="@ + joined(escaped_all(keys))
    }
}

/// The name of the patch of a change below the keys.
pub open spec fn patch_name(above: Seq<Seq<char>>, c: Change) -> Seq<char> {
    name_for(above + c.0, c.1 is None)
}

/// The value of the patch of a change: null stands for none.
pub open spec fn patch_value(change: Option<JsonView>) -> JsonView {
    match change {
        Some(v) => v,
        None => JsonView::Null,
    }
}

/// The patches with the changes added under their paths.
pub open spec fn recorded(out: Members, above: Seq<Seq<char>>, changes: Seq<Change>) -> Members
    decreases changes.len(),
{
    if changes.len() == 0 {
        out
    } else {
        with_member(
            recorded(out, above, changes.drop_last()),
            patch_name(above, changes.last()),
            patch_value(changes.last().1),
        )
    }
}

/// The patches that lead from one object to the other.
pub open spec fn patches_of(a: Members, b: Members) -> Members {
    recorded(seq![], seq![], changes(a, b))
}

proof fn lemma_recorded_concat(
    out: Members,
    above: Seq<Seq<char>>,
    c: Seq<Change>,
    d: Seq<Change>,
)
    ensures
        recorded(out, above, c + d) == recorded(recorded(out, above, c), above, d),
    decreases d.len(),
{
    if d.len() == 0 {
        assert(c + d =~= c);
    } else {
        lemma_recorded_concat(out, above, c, d.drop_last());
        assert((c + d).drop_last() =~= c + d.drop_last());
        assert((c + d).last() == d.last());
    }
}

proof fn lemma_recorded_under(
    out: Members,
    above: Seq<Seq<char>>,
    key: Seq<char>,
    c: Seq<Change>,
)
    ensures
        recorded(out, above, under(key, c)) == recorded(out, above.push(key), c),
    decreases c.len(),
{
    if c.len() > 0 {
        lemma_recorded_under(out, above, key, c.drop_last());
        let u = under(key, c);
        assert(u.drop_last() =~= under(key, c.drop_last()));
        assert(u.last() == (seq![key] + c.last().0, c.last().1));
        assert(above + (seq![key] + c.last().0) =~= above.push(key) + c.last().0);
    }
}

/// Compares two objects: the patches that lead from the first to the second,
/// or `None` where nothing changed or one of them is no object.
pub fn diff(a: &Json, b: &Json) -> (r: Option<Vec<(String, Json)>>)
    requires
        well_formed(a@),
        well_formed(b@),
    ensures
        (match (a@, b@) {
            (JsonView::Object(x), JsonView::Object(y)) => match r {
                Some(m) => members_view(m@) == patches_of(x, y) && patches_of(x, y).len() > 0,
                None => patches_of(x, y).len() == 0,
            },
            _ => r is None,
        }),
        r is Some ==> members_well_formed(members_view(r->Some_0@)),
{
    broadcast use lemma_members_view;

    match (a, b) {
        (Json::Object(x), Json::Object(y)) => {
            let mut out: Vec<(String, Json)> = Vec::new();
            proof {
                reveal_with_fuel(well_formed, 2);
                reveal_with_fuel(members_well_formed, 2);
                law_delta_round_trips(members_view(x@), members_view(y@));
            }
            let above: Vec<String> = Vec::new();
            collect_diff(&above, x, y, &mut out);
            proof {
                assert(views(above@) =~= seq![]);
                assert(members_view(Seq::<(String, Json)>::empty()) =~= seq![]);
            }
            if out.len() == 0 {
                None
            } else {
                Some(out)
            }
        },
        _ => None,
    }
}

/// A key as it is written behind `.-` or `.=`.
fn escape(key: &str) -> (r: String)
    ensures
        r@ == escaped(key@),
{
    let chars = letters(key);
    let mut r = String::new();
    let mut i: usize = chars.len();
    let ghost whole = key@;
    proof {
        reveal_strlit("~0");
        reveal_strlit("~1");
        assert(whole.skip(whole.len() as int) =~= seq![]);
        assert(r@ =~= seq![]);
    }
    while i > 0
        invariant
            i <= chars@.len(),
            chars@ == whole,
            key@ == whole,
            r@ == escaped(whole.skip(i as int)),
            "~0"@ =~= seq!['~', '0'],
            "~1"@ =~= seq!['~', '1'],
        decreases i,
    {
        i = i - 1;
        let c = chars[i];
        let mut next = if c == '~' {
            "~0".to_owned()
        } else if c == '.' {
            "~1".to_owned()
        } else {
            key.substring_char(i, i + 1).to_owned()
        };
        proof {
            let rest = whole.skip(i as int);
            assert(rest[0] == c);
            assert(rest.drop_first() =~= whole.skip(i + 1));
            assert(next@ =~= code(c));
        }
        next.append(r.as_str());
        r = next;
    }
    assert(whole.skip(0) =~= whole);
    r
}

/// The key that is written so behind `.-` or `.=`.
fn unescape(text: &str) -> (r: String)
    ensures
        r@ == unescaped(text@),
{
    let chars = letters(text);
    let n: usize = chars.len();
    let ghost whole = text@;
    let mut r = String::new();
    let mut i: usize = 0;
    proof {
        reveal_strlit("~");
        reveal_strlit(".");
        assert(whole.skip(0) =~= whole);
        assert(r@ + unescaped(whole) =~= unescaped(whole));
    }
    while i < n
        invariant
            i <= n,
            n == chars@.len(),
            chars@ == whole,
            text@ == whole,
            r@ + unescaped(whole.skip(i as int)) == unescaped(whole),
            "~"@ =~= seq!['~'],
            "."@ =~= seq!['.'],
        decreases n - i,
    {
        let ghost rest = whole.skip(i as int);
        let ghost done = r@;
        proof {
            assert(rest[0] == whole[i as int]);
            if i + 1 < n {
                assert(rest[1] == whole[i + 1]);
                assert(rest.skip(2) =~= whole.skip(i + 2));
            }
            assert(rest.drop_first() =~= whole.skip(i + 1));
        }
        if i + 1 < n && chars[i] == '~' && chars[i + 1] == '0' {
            r.append("~");
            assert(done + (seq!['~'] + unescaped(rest.skip(2))) =~= r@ + unescaped(rest.skip(2)));
            i = i + 2;
        } else if i + 1 < n && chars[i] == '~' && chars[i + 1] == '1' {
            r.append(".");
            assert(done + (seq!['.'] + unescaped(rest.skip(2))) =~= r@ + unescaped(rest.skip(2)));
            i = i + 2;
        } else {
            let one = text.substring_char(i, i + 1);
            assert(one@ =~= seq![rest[0]]);
            r.append(one);
            assert(done + (seq![rest[0]] + unescaped(rest.drop_first())) =~= r@ + unescaped(
                rest.drop_first(),
            ));
            i = i + 1;
        }
    }
    assert(whole.skip(n as int) =~= seq![]);
    assert(r@ + unescaped(seq![]) =~= r@);
    r
}

/// Whether the text holds no dot.
fn is_plain(text: &str) -> (r: bool)
    ensures
        r == plain(text@),
{
    let chars = letters(text);
    let mut i: usize = 0;
    while i < chars.len()
        invariant
            i <= chars@.len(),
            chars@ == text@,
            forall|k: int| 0 <= k < i ==> chars@[k] != '.',
        decreases chars@.len() - i,
    {
        if chars[i] == '.' {
            assert(text@[i as int] == '.');
            return false;
        }
        i = i + 1;
    }
    true
}

/// The keys and one more.
fn extended(keys: &Vec<String>, key: &str) -> (r: Vec<String>)
    ensures
        views(r@) == views(keys@).push(key@),
{
    let mut r: Vec<String> = Vec::new();
    let mut i: usize = 0;
    while i < keys.len()
        invariant
            i <= keys@.len(),
            r@.len() == i,
            forall|k: int| 0 <= k < i ==> (#[trigger] r@[k])@ == keys@[k]@,
        decreases keys@.len() - i,
    {
        r.push(keys[i].clone());
        i = i + 1;
    }
    r.push(key.to_owned());
    assert(views(r@) =~= views(keys@).push(key@));
    r
}

/// The texts with dots between them.
fn join(texts: &Vec<String>) -> (r: String)
    ensures
        r@ == joined(views(texts@)),
{
    let ghost all = views(texts@);
    let mut r = String::new();
    let n: usize = texts.len();
    if n == 0 {
        assert(r@ =~= seq![]);
        return r;
    }
    let mut i: usize = n - 1;
    r = texts[i].clone();
    proof {
        assert(all.skip(i as int)[0] == all[i as int]);
        assert(r@ == joined(all.skip(i as int)));
    }
    while i > 0
        invariant
            i < n,
            n == texts@.len(),
            all == views(texts@),
            r@ == joined(all.skip(i as int)),
        decreases i,
    {
        i = i - 1;
        let mut next = texts[i].clone();
        next.append(".");
        next.append(r.as_str());
        proof {
            let rest = all.skip(i as int);
            assert(rest[0] == texts@[i as int]@);
            assert(rest.drop_first() =~= all.skip(i + 1));
            assert(next@ =~= rest[0] + "."@ + joined(rest.drop_first()));
        }
        r = next;
    }
    assert(all.skip(0) =~= all);
    r
}

/// The name of the patch of what the keys lead to, which may be gone.
fn name_of(keys: &Vec<String>, gone: bool) -> (r: String)
    ensures
        r@ == name_for(views(keys@), gone),
{
    let mut told_apart = keys.len() <= 1 || keys[0].as_str().unicode_len() > 0;
    let mut texts: Vec<String> = Vec::new();
    let mut i: usize = 0;
    let ghost all = views(keys@);
    assert(keys@.len() > 0 ==> all[0] == keys@[0]@);
    while i < keys.len()
        invariant
            i <= keys@.len(),
            texts@.len() == i,
            all == views(keys@),
            forall|k: int| 0 <= k < i ==> (#[trigger] texts@[k])@ == escaped(all[k]),
            told_apart == ((all.len() > 1 ==> all[0].len() > 0) && forall|k: int|
                0 <= k < i ==> plain(#[trigger] all[k])),
        decreases keys@.len() - i,
    {
        assert(all[i as int] == keys@[i as int]@);
        told_apart = told_apart && is_plain(keys[i].as_str());
        texts.push(escape(keys[i].as_str()));
        i = i + 1;
    }
    assert(views(texts@) =~= escaped_all(all));
    if !gone && told_apart {
        return join(keys);
    }
    let mut r = if gone {
        ".-".to_owned()
    } else {
        ".=".to_owned()
    };
    r.append(join(&texts).as_str());
    r
}

/// Records that the member has the value now, or is gone.
fn record_change(
    out: &mut Vec<(String, Json)>,
    above: &Vec<String>,
    key: &str,
    value: Option<&Json>,
)
    ensures
        members_view(final(out)@) == recorded(
            members_view(old(out)@),
            views(above@),
            seq![(seq![key@], now_held(value))],
        ),
{
    let keys = extended(above, key);
    let name = name_of(&keys, value.is_none());
    proof {
        let one: Seq<Change> = seq![(seq![key@], now_held(value))];
        assert(one.drop_last() =~= seq![]);
        assert(one.last() == (seq![key@], now_held(value)));
        assert(views(above@) + seq![key@] =~= views(keys@));
        reveal_with_fuel(recorded, 2);
    }
    match value {
        Some(v) => {
            put_member(out, &name, v.copy());
        },
        None => {
            put_member(out, &name, Json::Null);
        },
    }
}

/// A borrowed optional value, as a value.
pub open spec fn now_held(value: Option<&Json>) -> Option<JsonView> {
    match value {
        Some(v) => Some(v@),
        None => None,
    }
}

fn collect_diff(
    above: &Vec<String>,
    a: &Vec<(String, Json)>,
    b: &Vec<(String, Json)>,
    out: &mut Vec<(String, Json)>,
)
    requires
        members_well_formed(members_view(a@)),
        members_well_formed(members_view(b@)),
    ensures
        members_view(final(out)@) == recorded(
            members_view(old(out)@),
            views(above@),
            changes(members_view(a@), members_view(b@)),
        ),
    decreases a@,
{
    let ghost x = members_view(a@);
    let ghost y = members_view(b@);
    let mut i: usize = 0;
    let mut j: usize = 0;
    proof {
        lemma_members_view(a@);
        lemma_members_view(b@);
        assert(x.skip(0) =~= x);
        assert(y.skip(0) =~= y);
    }
    while i < a.len() || j < b.len()
        invariant
            i <= a@.len(),
            j <= b@.len(),
            x == members_view(a@),
            y == members_view(b@),
            x.len() == a@.len(),
            y.len() == b@.len(),
            members_well_formed(x),
            members_well_formed(y),
            recorded(members_view(old(out)@), views(above@), changes(x, y)) == recorded(
                members_view(out@),
                views(above@),
                changes(x.skip(i as int), y.skip(j as int)),
            ),
        decreases a@.len() - i + b@.len() - j,
    {
        let ghost p = x.skip(i as int);
        let ghost q = y.skip(j as int);
        let ghost before = members_view(out@);
        proof {
            lemma_members_view(a@);
            lemma_members_view(b@);
            if i < a@.len() {
                assert(x[i as int] == (a@[i as int].0@, a@[i as int].1@));
                assert(p[0] == x[i as int]);
                assert(p.drop_first() =~= x.skip(i + 1));
            }
            if j < b@.len() {
                assert(y[j as int] == (b@[j as int].0@, b@[j as int].1@));
                assert(q[0] == y[j as int]);
                assert(q.drop_first() =~= y.skip(j + 1));
            }
        }
        if j >= b.len() || (i < a.len() && precedes(&a[i].0, &b[j].0)) {
            record_change(out, above, &a[i].0, None);
            proof {
                let first: Seq<Change> = seq![(seq![p[0].0], None::<JsonView>)];
                lemma_recorded_concat(before, views(above@), first, changes(p.drop_first(), q));
            }
            i = i + 1;
        } else if i >= a.len() || precedes(&b[j].0, &a[i].0) {
            record_change(out, above, &b[j].0, Some(&b[j].1));
            proof {
                let first: Seq<Change> = seq![(seq![q[0].0], Some(q[0].1))];
                lemma_recorded_concat(before, views(above@), first, changes(p, q.drop_first()));
            }
            j = j + 1;
        } else {
            proof {
                lemma_order(p[0].0, q[0].0);
                lemma_recorded_concat(
                    before,
                    views(above@),
                    change_at(p[0].0, p[0].1, q[0].1),
                    changes(p.drop_first(), q.drop_first()),
                );
            }
            if !a[i].1.equal(&b[j].1) {
                match (&a[i].1, &b[j].1) {
                    (Json::Object(ao), Json::Object(bo)) => {
                        proof {
                            assert(well_formed(x[i as int].1));
                            assert(well_formed(y[j as int].1));
                            reveal_with_fuel(well_formed, 2);
                            reveal_with_fuel(members_well_formed, 2);
                            lemma_recorded_under(
                                before,
                                views(above@),
                                p[0].0,
                                changes(members_view(ao@), members_view(bo@)),
                            );
                        }
                        let deeper = extended(above, a[i].0.as_str());
                        collect_diff(&deeper, ao, bo, out);
                    },
                    _ => {
                        record_change(out, above, &a[i].0, Some(&b[j].1));
                    },
                }
            } else {
                assert(recorded(before, views(above@), seq![]) == before);
            }
            i = i + 1;
            j = j + 1;
        }
    }
    assert(x.skip(i as int) =~= seq![]);
    assert(y.skip(j as int) =~= seq![]);
}

/// How many leaves a value has: an object has those of its members, and
/// everything else, an empty object too, is one.
pub open spec fn leaves(v: JsonView) -> nat
    decreases v,
{
    match v {
        JsonView::Object(s) => if s.len() == 0 {
            1
        } else {
            leaves_of(s)
        },
        _ => 1,
    }
}

/// How many leaves the members have together.
pub open spec fn leaves_of(s: Members) -> nat
    decreases s,
{
    if s.len() == 0 {
        0
    } else {
        leaves(s[0].1) + leaves_of(s.drop_first())
    }
}

/// What is left of `n` without the leaves of the value; `None` where it has
/// more of them.
fn without_leaves(v: &Json, n: usize) -> (r: Option<usize>)
    ensures
        (match r {
            Some(left) => leaves(v@) <= n && left == n - leaves(v@),
            None => leaves(v@) > n,
        }),
    decreases v,
{
    match v {
        Json::Object(members) => {
            if members.len() == 0 {
                proof {
                    lemma_members_view(members@);
                }
                if n >= 1 {
                    Some(n - 1)
                } else {
                    None
                }
            } else {
                proof {
                    lemma_members_view(members@);
                }
                without_leaves_of(members, n)
            }
        },
        _ => if n >= 1 {
            Some(n - 1)
        } else {
            None
        },
    }
}

/// The same for the members of an object, together.
fn without_leaves_of(members: &Vec<(String, Json)>, n: usize) -> (r: Option<usize>)
    ensures
        (match r {
            Some(left) => leaves_of(members_view(members@)) <= n && left == n - leaves_of(
                members_view(members@),
            ),
            None => leaves_of(members_view(members@)) > n,
        }),
    decreases members@,
{
    let ghost s = members_view(members@);
    let mut left: usize = n;
    let mut i: usize = 0;
    proof {
        lemma_members_view(members@);
        assert(s.skip(0) =~= s);
    }
    while i < members.len()
        invariant
            i <= members@.len(),
            left <= n,
            s == members_view(members@),
            s.len() == members@.len(),
            leaves_of(s) == n - left + leaves_of(s.skip(i as int)),
        decreases members@.len() - i,
    {
        proof {
            lemma_members_view(members@);
            assert(s[i as int] == (members@[i as int].0@, members@[i as int].1@));
            assert(s.skip(i as int)[0] == s[i as int]);
            assert(s.skip(i as int).drop_first() =~= s.skip(i + 1));
        }
        match without_leaves(&members[i].1, left) {
            Some(rest) => {
                left = rest;
            },
            None => {
                return None;
            },
        }
        i = i + 1;
    }
    assert(s.skip(i as int) =~= seq![]);
    Some(left)
}

/// Whether the delta is worth sending in place of the whole state: it touches
/// fewer leaves than the state has, and has as many entries as asked for. A
/// state that is no object has none to save on.
pub fn should_apply_delta(
    full_snapshot: &Json,
    delta: &Vec<(String, Json)>,
    min_fields: usize,
) -> (r: bool)
    ensures
        r == (min_fields <= delta@.len() && delta@.len() < (match full_snapshot@ {
            JsonView::Object(s) => leaves_of(s),
            _ => 0,
        })),
{
    if delta.len() < min_fields {
        return false;
    }
    match full_snapshot {
        Json::Object(members) => without_leaves_of(members, delta.len()).is_none(),
        _ => false,
    }
}

/// The keys of a dotted path.
pub open spec fn split(path: Seq<char>) -> Seq<Seq<char>>
    decreases path.len(),
{
    let head = before_first(path, '.');
    if head.len() >= path.len() {
        seq![path]
    } else {
        seq![head] + split(path.skip(head.len() as int + 1))
    }
}

/// The members without the key.
pub open spec fn without_member(s: Members, key: Seq<char>) -> Members {
    let at = slot(s, key);
    if at < s.len() && s[at].0 == key {
        s.remove(at)
    } else {
        s
    }
}

/// The members with the value where the keys lead, or without one there:
/// objects are made on the way to a value, and a value in the way that is no
/// object stays.
pub open spec fn set_at(s: Members, keys: Seq<Seq<char>>, change: Option<JsonView>) -> Members
    decreases keys.len(),
{
    if keys.len() == 0 {
        s
    } else if keys.len() == 1 {
        match change {
            Some(value) => with_member(s, keys[0], value),
            None => without_member(s, keys[0]),
        }
    } else {
        match lookup(s, keys[0]) {
            None => if change is None {
                s
            } else {
                with_member(
                    s,
                    keys[0],
                    JsonView::Object(set_at(seq![], keys.drop_first(), change)),
                )
            },
            Some(JsonView::Object(o)) => with_member(
                s,
                keys[0],
                JsonView::Object(set_at(o, keys.drop_first(), change)),
            ),
            Some(_) => s,
        }
    }
}

/// Whether the name of a patch begins with a dot and the mark.
pub open spec fn begins(name: Seq<char>, mark: char) -> bool {
    name.len() >= 2 && name[0] == '.' && name[1] == mark
}

/// The keys that the name of a patch leads to.
pub open spec fn keys_of(name: Seq<char>) -> Seq<Seq<char>> {
    if begins(name, '-') || begins(name, '=') {
        unescaped_all(split(name.skip(2)))
    } else {
        split(name)
    }
}

/// What a patch does: one that begins with `.-` takes the member out.
pub open spec fn change_of(name: Seq<char>, value: JsonView) -> Option<JsonView> {
    if begins(name, '-') {
        None
    } else {
        Some(value)
    }
}

/// The members after all patches, in order.
pub open spec fn patched(s: Members, patches: Members) -> Members
    decreases patches.len(),
{
    if patches.len() == 0 {
        s
    } else {
        let last = patches.last();
        set_at(patched(s, patches.drop_last()), keys_of(last.0), change_of(last.0, last.1))
    }
}

/// Taking a member out keeps the order, and leaves every other key as it was.
proof fn lemma_without_member(s: Members, key: Seq<char>)
    requires
        members_well_formed(s),
    ensures
        members_well_formed(without_member(s, key)),
        lookup(without_member(s, key), key) is None,
        forall|k: Seq<char>|
            k != key ==> #[trigger] lookup(without_member(s, key), k) == lookup(s, k),
{
    lemma_slot(s, key);
    let at = slot(s, key);
    let t = without_member(s, key);
    if at < s.len() && s[at].0 == key {
        assert forall|i: int, j: int| 0 <= i < j < t.len() implies comes_before(
            (#[trigger] t[i]).0,
            (#[trigger] t[j]).0,
        ) by {
            let x = if i < at {
                i
            } else {
                i + 1
            };
            let y = if j < at {
                j
            } else {
                j + 1
            };
            assert(t[i] == s[x] && t[j] == s[y]);
        }
        assert forall|i: int| 0 <= i < t.len() implies well_formed((#[trigger] t[i]).1) by {
            let x = if i < at {
                i
            } else {
                i + 1
            };
            assert(t[i] == s[x]);
        }
        crate::json::lemma_found(t, key);
        if lookup(t, key) is Some {
            let i = choose|i: int| 0 <= i < t.len() && (#[trigger] t[i]).0 == key;
            let x = if i < at {
                i
            } else {
                i + 1
            };
            assert(t[i] == s[x]);
            if i < at {
                assert(comes_before(s[i].0, key));
            } else {
                assert(comes_before(key, s[x].0));
            }
            lemma_order(s[x].0, key);
        }
        assert forall|k: Seq<char>| k != key implies #[trigger] lookup(t, k) == lookup(s, k) by {
            crate::json::lemma_found(t, k);
            crate::json::lemma_found(s, k);
            if lookup(s, k) is Some {
                let x = choose|x: int|
                    0 <= x < s.len() && (#[trigger] s[x]).0 == k && s[x].1 == lookup(
                        s,
                        k,
                    )->Some_0;
                let i = if x < at {
                    x
                } else {
                    x - 1
                };
                assert(t[i] == s[x]);
                crate::json::lemma_lookup_at(t, i);
            } else if lookup(t, k) is Some {
                let i = choose|i: int| 0 <= i < t.len() && (#[trigger] t[i]).0 == k;
                let x = if i < at {
                    i
                } else {
                    i + 1
                };
                assert(t[i] == s[x]);
            }
        }
    }
}

/// There is nothing to take out of an empty object.
proof fn lemma_nothing_to_remove(keys: Seq<Seq<char>>)
    ensures
        set_at(seq![], keys, None) == Seq::<(Seq<char>, JsonView)>::empty(),
{
    let empty: Members = seq![];
    if keys.len() > 0 {
        crate::json::lemma_found(empty, keys[0]);
        if keys.len() == 1 {
            assert(without_member(empty, keys[0]) =~= empty);
        }
    }
}

/// Whether a change brings a well-formed value, if any.
pub open spec fn change_well_formed(change: Option<JsonView>) -> bool {
    change is Some ==> well_formed(change->Some_0)
}

pub proof fn lemma_set_at_well_formed(s: Members, keys: Seq<Seq<char>>, change: Option<JsonView>)
    requires
        members_well_formed(s),
        change_well_formed(change),
    ensures
        members_well_formed(set_at(s, keys, change)),
    decreases keys.len(),
{
    if keys.len() == 1 {
        match change {
            Some(value) => {
                lemma_with_member_well_formed(s, keys[0], value);
            },
            None => {
                lemma_without_member(s, keys[0]);
            },
        }
    } else if keys.len() > 1 {
        let empty: Members = seq![];
        assert(members_well_formed(empty));
        match lookup(s, keys[0]) {
            None => {
                lemma_set_at_well_formed(empty, keys.drop_first(), change);
                lemma_object_well_formed(set_at(empty, keys.drop_first(), change));
                lemma_with_member_well_formed(
                    s,
                    keys[0],
                    JsonView::Object(set_at(empty, keys.drop_first(), change)),
                );
            },
            Some(JsonView::Object(o)) => {
                lemma_member_well_formed(s, keys[0]);
                lemma_object_well_formed(o);
                lemma_set_at_well_formed(o, keys.drop_first(), change);
                lemma_object_well_formed(set_at(o, keys.drop_first(), change));
                lemma_with_member_well_formed(
                    s,
                    keys[0],
                    JsonView::Object(set_at(o, keys.drop_first(), change)),
                );
            },
            Some(_) => {},
        }
    }
}

/// The parts of a path.
fn split_path(path: &str) -> (r: Vec<String>)
    ensures
        views(r@) == split(path@),
    decreases path@.len(),
{
    let n: usize = path.unicode_len();
    let head = head_before_first(path, '.');
    let m: usize = head.as_str().unicode_len();
    let mut r: Vec<String> = Vec::new();
    if m >= n {
        r.push(path.to_owned());
        assert(views(r@) =~= seq![path@]);
    } else {
        let rest = path.substring_char(m + 1, n);
        assert(rest@ =~= path@.skip(head@.len() as int + 1));
        let tail = split_path(rest);
        r.push(head);
        let mut i: usize = 0;
        while i < tail.len()
            invariant
                i <= tail@.len(),
                r@.len() == i + 1,
                r@[0]@ == head@,
                forall|k: int| 0 <= k < i ==> (#[trigger] r@[k + 1])@ == tail@[k]@,
            decreases tail@.len() - i,
        {
            r.push(tail[i].clone());
            i = i + 1;
        }
        assert(views(r@) =~= seq![head@] + views(tail@)) by {
            assert forall|k: int| 0 < k < r@.len() implies views(r@)[k] == views(tail@)[k - 1] by {
                assert(r@[(k - 1) + 1]@ == tail@[k - 1]@);
            }
        }
    }
    r
}

/// The keys that are written so behind `.-` or `.=`.
fn unescape_all(texts: &Vec<String>) -> (r: Vec<String>)
    ensures
        views(r@) == unescaped_all(views(texts@)),
{
    let mut r: Vec<String> = Vec::new();
    let mut i: usize = 0;
    while i < texts.len()
        invariant
            i <= texts@.len(),
            r@.len() == i,
            forall|k: int| 0 <= k < i ==> (#[trigger] r@[k])@ == unescaped(texts@[k]@),
        decreases texts@.len() - i,
    {
        r.push(unescape(texts[i].as_str()));
        i = i + 1;
    }
    assert(views(r@) =~= unescaped_all(views(texts@)));
    r
}

/// Applies patches to an object; `None` where the base is no object.
pub fn apply(base: &Json, patches: &Vec<(String, Json)>) -> (r: Option<Json>)
    requires
        well_formed(base@),
        members_well_formed(members_view(patches@)),
    ensures
        (match base@ {
            JsonView::Object(s) => r is Some && r->Some_0@ == JsonView::Object(
                patched(s, members_view(patches@)),
            ),
            _ => r is None,
        }),
{
    let root = base.copy();
    match root {
        Json::Object(obj) => {
            let mut obj = obj;
            let ghost s = members_view(obj@);
            let ghost all = members_view(patches@);
            let mut i: usize = 0;
            proof {
                lemma_object_well_formed(s);
                lemma_members_view(patches@);
            }
            assert(all.take(0) =~= seq![]);
            while i < patches.len()
                invariant
                    i <= patches@.len(),
                    all == members_view(patches@),
                    all.len() == patches@.len(),
                    members_well_formed(all),
                    members_view(obj@) == patched(s, all.take(i as int)),
                    members_well_formed(members_view(obj@)),
                decreases patches@.len() - i,
            {
                proof {
                    lemma_members_view(patches@);
                    assert(all[i as int] == (patches@[i as int].0@, patches@[i as int].1@));
                    assert(all.take(i + 1).drop_last() =~= all.take(i as int));
                    lemma_set_at_well_formed(
                        members_view(obj@),
                        keys_of(all[i as int].0),
                        change_of(all[i as int].0, all[i as int].1),
                    );
                }
                let name = patches[i].0.as_str();
                let n: usize = name.unicode_len();
                let dotted = n >= 2 && name.get_char(0) == '.';
                let gone = dotted && name.get_char(1) == '-';
                let parts = if gone || (dotted && name.get_char(1) == '=') {
                    let path = name.substring_char(2, n);
                    assert(path@ =~= name@.skip(2));
                    unescape_all(&split_path(path))
                } else {
                    split_path(name)
                };
                let change = if gone {
                    None
                } else {
                    Some(&patches[i].1)
                };
                assert(views(parts@).skip(0) =~= views(parts@));
                set_path(&mut obj, &parts, 0, change);
                i = i + 1;
            }
            assert(all.take(i as int) =~= all);
            Some(Json::Object(obj))
        },
        _ => None,
    }
}

/// Takes the key out.
fn remove_member(members: &mut Vec<(String, Json)>, key: &str)
    ensures
        members_view(final(members)@) == without_member(members_view(old(members)@), key@),
{
    let at: usize = find_slot(members, key);
    let ghost before = members@;
    proof {
        lemma_members_view(before);
    }
    if at < members.len() && same(&members[at].0, key) {
        let _gone = members.remove(at);
        proof {
            lemma_members_view(members@);
            assert(members_view(members@) =~= members_view(before).remove(at as int));
        }
    }
}

fn set_path(
    obj: &mut Vec<(String, Json)>,
    parts: &Vec<String>,
    from: usize,
    change: Option<&Json>,
)
    requires
        members_well_formed(members_view(old(obj)@)),
        change_well_formed(now_held(change)),
        from <= parts@.len(),
    ensures
        members_view(final(obj)@) == set_at(
            members_view(old(obj)@),
            views(parts@).skip(from as int),
            now_held(change),
        ),
    decreases parts@.len() - from,
{
    let ghost s = members_view(obj@);
    let ghost keys = views(parts@).skip(from as int);
    if from >= parts.len() {
        return ;
    }
    let head = &parts[from];
    assert(keys[0] == head@);
    assert(keys.drop_first() =~= views(parts@).skip(from + 1));
    if from + 1 == parts.len() {
        match change {
            Some(value) => {
                put_member(obj, head, value.copy());
            },
            None => {
                remove_member(obj, head);
            },
        }
        return ;
    }
    let at: usize = find_slot(obj, head);
    proof {
        lemma_slot(s, head@);
        lemma_members_view(obj@);
    }
    if at < obj.len() && same(&obj[at].0, head) {
        let ghost whole = obj@;
        let (key, entry) = obj.remove(at);
        assert((key@, entry@) == s[at as int]);
        proof {
            lemma_member_well_formed(s, head@);
        }
        match entry {
            Json::Object(inner) => {
                let mut next = inner;
                proof {
                    lemma_object_well_formed(members_view(next@));
                }
                let ghost held = members_view(next@);
                set_path(&mut next, parts, from + 1, change);
                obj.insert(at, (key, Json::Object(next)));
                proof {
                    lemma_members_view(obj@);
                    assert(members_view(obj@) =~= s.update(
                        at as int,
                        (
                            head@,
                            JsonView::Object(set_at(held, keys.drop_first(), now_held(change))),
                        ),
                    ));
                }
            },
            other => {
                obj.insert(at, (key, other));
                proof {
                    lemma_members_view(obj@);
                    assert(members_view(obj@) =~= s);
                }
            },
        }
    } else if change.is_some() {
        let mut next: Vec<(String, Json)> = Vec::new();
        proof {
            let empty: Members = seq![];
            assert(members_view(next@) =~= empty);
            assert(members_well_formed(empty));
        }
        set_path(&mut next, parts, from + 1, change);
        obj.insert(at, (head.clone(), Json::Object(next)));
        proof {
            lemma_members_view(obj@);
            assert(members_view(obj@) =~= s.insert(
                at as int,
                (
                    head@,
                    JsonView::Object(set_at(seq![], keys.drop_first(), now_held(change))),
                ),
            ));
        }
    }
}

/// A state, whole or as the patches that lead to it.
#[derive(Debug)]
pub struct SyncDelta {
    pub full: Option<Json>,
    pub patches: Option<Vec<(String, Json)>>,
}

/// What to send of a state: all of it where nothing was sent before, the
/// patches where both are objects, and all of it again where one is none;
/// neither where nothing changed.
pub fn encode_sync(base: Option<&Json>, next: &Json) -> (r: SyncDelta)
    requires
        base is Some ==> well_formed(base->Some_0@),
        well_formed(next@),
    ensures
        r.full is Some ==> r.full->Some_0@ == next@ && r.patches is None,
        (match base {
            None => r.full is Some,
            Some(prev) => match (prev@, next@) {
                (JsonView::Object(x), JsonView::Object(y)) => r.full is None && match r.patches {
                    Some(m) => members_view(m@) == patches_of(x, y) && patches_of(x, y).len() > 0,
                    None => patches_of(x, y).len() == 0,
                },
                _ => r.patches is None && (r.full is None <==> same_json(prev@, next@)),
            },
        }),
        base is Some ==> (r.full is None && r.patches is None <==> same_json(
            base->Some_0@,
            next@,
        )),
        base is Some && one_zero(base->Some_0@) && one_zero(next@) && base->Some_0@ != next@
            ==> r.full is Some || r.patches is Some,
{
    match base {
        None => SyncDelta { full: Some(next.copy()), patches: None },
        Some(prev) => {
            proof {
                if same_json(prev@, next@) && one_zero(prev@) && one_zero(next@) {
                    crate::json::law_same_is_equal(prev@, next@);
                }
                if let (JsonView::Object(x), JsonView::Object(y)) = (prev@, next@) {
                    lemma_object_well_formed(x);
                    lemma_object_well_formed(y);
                    law_no_delta_iff_same(x, y);
                    lemma_same_objects(x, y);
                }
            }
            match (prev, next) {
                (Json::Object(_), Json::Object(_)) => SyncDelta {
                    full: None,
                    patches: diff(prev, next),
                },
                _ => {
                    if prev.equal(next) {
                        SyncDelta { full: None, patches: None }
                    } else {
                        SyncDelta { full: Some(next.copy()), patches: None }
                    }
                },
            }
        },
    }
}

/// Two objects have no changes between them exactly where they are the same:
/// a delta is empty when nothing changed, and only then.
pub proof fn law_no_delta_iff_same(a: Members, b: Members)
    requires
        members_well_formed(a),
        members_well_formed(b),
    ensures
        patches_of(a, b).len() == 0 <==> same_members(a, b),
{
    lemma_no_changes_iff_same(a, b);
    let c = changes(a, b);
    if c.len() > 0 {
        let before = recorded(seq![], seq![], c.drop_last());
        let key = patch_name(seq![], c.last());
        crate::search::lemma_first_index(before, crate::json::not_before(key));
        assert(with_member(before, key, patch_value(c.last().1)).len() > 0);
    }
}

proof fn lemma_no_changes_iff_same(a: Members, b: Members)
    requires
        members_well_formed(a),
        members_well_formed(b),
    ensures
        changes(a, b).len() == 0 <==> same_members(a, b),
    decreases a, b,
{
    if a.len() == 0 && b.len() == 0 {
    } else if b.len() == 0 || (a.len() > 0 && comes_before(a[0].0, b[0].0)) {
        if b.len() > 0 {
            lemma_order(a[0].0, b[0].0);
            assert(a[0].0 != b[0].0);
        }
    } else if a.len() == 0 || comes_before(b[0].0, a[0].0) {
        if a.len() > 0 {
            lemma_order(b[0].0, a[0].0);
            assert(a[0].0 != b[0].0);
        }
    } else {
        lemma_order(a[0].0, b[0].0);
        let x = a.drop_first();
        let y = b.drop_first();
        lemma_drop_first_well_formed(a);
        lemma_drop_first_well_formed(b);
        lemma_no_changes_iff_same(x, y);
        let va = a[0].1;
        let vb = b[0].1;
        assert(change_at(a[0].0, va, vb).len() == 0 <==> same_json(va, vb)) by {
            if !same_json(va, vb) {
                match (va, vb) {
                    (JsonView::Object(p), JsonView::Object(q)) => {
                        lemma_object_well_formed(p);
                        lemma_object_well_formed(q);
                        lemma_no_changes_iff_same(p, q);
                        lemma_same_objects(p, q);
                    },
                    _ => {},
                }
            }
        }
        assert(same_members(a, b) <==> same_json(va, vb) && same_members(x, y)) by {
            lemma_same_members_front(a, b);
        }
    }
}

proof fn lemma_same_objects(p: Members, q: Members)
    ensures
        same_json(JsonView::Object(p), JsonView::Object(q)) == same_members(p, q),
{
    reveal_with_fuel(same_json, 2);
    reveal_with_fuel(same_members, 2);
}

proof fn lemma_same_members_front(a: Members, b: Members)
    requires
        a.len() > 0,
        b.len() > 0,
        a[0].0 == b[0].0,
    ensures
        same_members(a, b) <==> same_json(a[0].1, b[0].1) && same_members(
            a.drop_first(),
            b.drop_first(),
        ),
{
    let x = a.drop_first();
    let y = b.drop_first();
    if same_members(a, b) {
        assert forall|i: int| 0 <= i < x.len() implies (#[trigger] x[i]).0 == y[i].0 && same_json(
            x[i].1,
            y[i].1,
        ) by {
            assert(a[i + 1].0 == b[i + 1].0);
        }
    }
    if same_json(a[0].1, b[0].1) && same_members(x, y) {
        assert forall|i: int| 0 <= i < a.len() implies (#[trigger] a[i]).0 == b[i].0 && same_json(
            a[i].1,
            b[i].1,
        ) by {
            if i > 0 {
                assert(x[i - 1].0 == y[i - 1].0);
            }
        }
    }
}

proof fn lemma_drop_first_well_formed(s: Members)
    requires
        members_well_formed(s),
        s.len() > 0,
    ensures
        members_well_formed(s.drop_first()),
        forall|k: Seq<char>|
            #[trigger] lookup(s.drop_first(), k) == (if k == s[0].0 {
                None
            } else {
                lookup(s, k)
            }),
        lookup(s, s[0].0) == Some(s[0].1),
{
    let t = s.drop_first();
    assert forall|i: int, j: int| 0 <= i < j < t.len() implies comes_before(
        (#[trigger] t[i]).0,
        (#[trigger] t[j]).0,
    ) by {
        assert(comes_before(s[i + 1].0, s[j + 1].0));
    }
    assert forall|i: int| 0 <= i < t.len() implies well_formed((#[trigger] t[i]).1) by {
        assert(t[i] == s[i + 1]);
    }
    assert forall|k: Seq<char>| #[trigger] lookup(t, k) == (if k == s[0].0 {
        None
    } else {
        lookup(s, k)
    }) by {
        if k == s[0].0 {
            crate::json::lemma_found(t, k);
            if lookup(t, k) is Some {
                let i = choose|i: int| 0 <= i < t.len() && (#[trigger] t[i]).0 == k;
                assert(comes_before(s[0].0, s[i + 1].0));
                lemma_order(s[0].0, s[i + 1].0);
            }
        } else {
            let fits = crate::json::named(k);
            assert(!fits(s[0]));
            crate::search::lemma_first_index(t, fits);
            let at = crate::search::first_index(t, fits);
            assert(crate::search::first_index(s, fits) == 1 + at);
            if at < t.len() {
                assert(t[at] == s[at + 1]);
            }
        }
    }
    crate::json::lemma_lookup_at(s, 0);
}

/// Whether neither path leads through the other.
pub open spec fn apart(p: Seq<Seq<char>>, q: Seq<Seq<char>>) -> bool {
    exists|i: int| 0 <= i < p.len() && i < q.len() && #[trigger] p[i] != q[i]
}

/// Whether no two changes meet.
pub open spec fn disjoint(c: Seq<Change>) -> bool {
    forall|i: int, j: int|
        0 <= i < c.len() && 0 <= j < c.len() && i != j ==> apart(
            (#[trigger] c[i]).0,
            (#[trigger] c[j]).0,
        )
}

/// The members after the changes, in order.
pub open spec fn changed(s: Members, c: Seq<Change>) -> Members
    decreases c.len(),
{
    if c.len() == 0 {
        s
    } else {
        set_at(changed(s, c.drop_last()), c.last().0, c.last().1)
    }
}

proof fn lemma_changed_concat(s: Members, c: Seq<Change>, d: Seq<Change>)
    ensures
        changed(s, c + d) == changed(changed(s, c), d),
    decreases d.len(),
{
    if d.len() == 0 {
        assert(c + d =~= c);
    } else {
        lemma_changed_concat(s, c, d.drop_last());
        assert((c + d).drop_last() =~= c + d.drop_last());
    }
}

/// What the first key of a path holds once the change is made.
pub open spec fn new_head(
    held: Option<JsonView>,
    rest: Seq<Seq<char>>,
    change: Option<JsonView>,
) -> Option<JsonView> {
    if rest.len() == 0 {
        change
    } else {
        match held {
            None => if change is None {
                None
            } else {
                Some(JsonView::Object(set_at(seq![], rest, change)))
            },
            Some(JsonView::Object(o)) => Some(JsonView::Object(set_at(o, rest, change))),
            Some(v) => Some(v),
        }
    }
}

proof fn lemma_set_at_head(s: Members, keys: Seq<Seq<char>>, change: Option<JsonView>)
    requires
        members_well_formed(s),
        change_well_formed(change),
        keys.len() > 0,
    ensures
        members_well_formed(set_at(s, keys, change)),
        lookup(set_at(s, keys, change), keys[0]) == new_head(
            lookup(s, keys[0]),
            keys.drop_first(),
            change,
        ),
        forall|k: Seq<char>|
            k != keys[0] ==> #[trigger] lookup(set_at(s, keys, change), k) == lookup(s, k),
{
    lemma_set_at_well_formed(s, keys, change);
    match new_head(lookup(s, keys[0]), keys.drop_first(), change) {
        Some(h) => {
            lemma_with_member(s, keys[0], h);
        },
        None => {
            lemma_without_member(s, keys[0]);
        },
    }
}

/// Changes apart from each other can be made in either order.
proof fn lemma_set_commutes(
    s: Members,
    p: Seq<Seq<char>>,
    v: Option<JsonView>,
    q: Seq<Seq<char>>,
    w: Option<JsonView>,
)
    requires
        members_well_formed(s),
        change_well_formed(v),
        change_well_formed(w),
        apart(p, q),
    ensures
        set_at(set_at(s, p, v), q, w) == set_at(set_at(s, q, w), p, v),
    decreases p.len(),
{
    let i = choose|i: int| 0 <= i < p.len() && i < q.len() && #[trigger] p[i] != q[i];
    let sp = set_at(s, p, v);
    let sq = set_at(s, q, w);
    lemma_set_at_head(s, p, v);
    lemma_set_at_head(s, q, w);
    lemma_set_at_head(sp, q, w);
    lemma_set_at_head(sq, p, v);
    let left = set_at(sp, q, w);
    let right = set_at(sq, p, v);
    if p[0] == q[0] {
        let pr = p.drop_first();
        let qr = q.drop_first();
        assert(pr[i - 1] != qr[i - 1]);
        assert(apart(pr, qr));
        let empty: Members = seq![];
        match lookup(s, p[0]) {
            None => {
                assert(members_well_formed(empty));
                lemma_set_commutes(empty, pr, v, qr, w);
                lemma_nothing_to_remove(pr);
                lemma_nothing_to_remove(qr);
            },
            Some(JsonView::Object(o)) => {
                lemma_member_well_formed(s, p[0]);
                lemma_object_well_formed(o);
                lemma_set_commutes(o, pr, v, qr, w);
            },
            Some(_) => {},
        }
    }
    assert forall|k: Seq<char>| #[trigger] lookup(left, k) == lookup(right, k) by {
        if k != p[0] && k != q[0] {
            assert(lookup(left, k) == lookup(sp, k));
            assert(lookup(right, k) == lookup(sq, k));
        } else if p[0] != q[0] {
            assert(lookup(sq, p[0]) == lookup(s, p[0]));
            assert(lookup(sp, q[0]) == lookup(s, q[0]));
            assert(lookup(left, p[0]) == lookup(sp, p[0]));
            assert(lookup(right, q[0]) == lookup(sq, q[0]));
        }
    }
    crate::json::lemma_same_lookups(left, right);
}

proof fn lemma_patched_well_formed(s: Members, patches: Members)
    requires
        members_well_formed(s),
        forall|i: int| 0 <= i < patches.len() ==> well_formed((#[trigger] patches[i]).1),
    ensures
        members_well_formed(patched(s, patches)),
    decreases patches.len(),
{
    if patches.len() > 0 {
        assert forall|i: int| 0 <= i < patches.drop_last().len() implies well_formed(
            (#[trigger] patches.drop_last()[i]).1,
        ) by {
            assert(patches[i] == patches.drop_last()[i]);
        }
        lemma_patched_well_formed(s, patches.drop_last());
        assert(well_formed(patches[patches.len() - 1].1));
        lemma_set_at_well_formed(
            patched(s, patches.drop_last()),
            keys_of(patches.last().0),
            change_of(patches.last().0, patches.last().1),
        );
    }
}

/// A patch apart from all others acts the same wherever it stands among them.
proof fn lemma_patch_moves_to_end(
    s: Members,
    patches: Members,
    at: int,
    key: Seq<char>,
    value: JsonView,
)
    requires
        members_well_formed(s),
        0 <= at <= patches.len(),
        well_formed(value),
        forall|i: int|
            0 <= i < patches.len() ==> well_formed((#[trigger] patches[i]).1) && apart(
                keys_of(key),
                keys_of(patches[i].0),
            ),
    ensures
        patched(s, patches.insert(at, (key, value))) == set_at(
            patched(s, patches),
            keys_of(key),
            change_of(key, value),
        ),
    decreases patches.len(),
{
    let more = patches.insert(at, (key, value));
    if at == patches.len() {
        assert(more.drop_last() =~= patches);
    } else {
        let last = patches.last();
        let front = patches.drop_last();
        assert(more.drop_last() =~= front.insert(at, (key, value)));
        assert(more.last() == last);
        assert forall|i: int| 0 <= i < front.len() implies well_formed((#[trigger] front[i]).1)
            && apart(keys_of(key), keys_of(front[i].0)) by {
            assert(patches[i] == front[i]);
        }
        lemma_patch_moves_to_end(s, front, at, key, value);
        lemma_patched_well_formed(s, front);
        assert(well_formed(patches[patches.len() - 1].1));
        lemma_set_commutes(
            patched(s, front),
            keys_of(key),
            change_of(key, value),
            keys_of(last.0),
            change_of(last.0, last.1),
        );
    }
}

proof fn lemma_escaped(key: Seq<char>)
    ensures
        plain(escaped(key)),
        unescaped(escaped(key)) == key,
    decreases key.len(),
{
    if key.len() > 0 {
        let rest = key.drop_first();
        lemma_escaped(rest);
        let text = escaped(key);
        let first = code(key[0]);
        assert forall|i: int| 0 <= i < text.len() implies text[i] != '.' by {
            if i >= first.len() {
                assert(text[i] == escaped(rest)[i - first.len()]);
            }
        }
        if first.len() == 2 {
            assert(text.skip(2) =~= escaped(rest));
        } else {
            assert(text.drop_first() =~= escaped(rest));
        }
        assert(unescaped(text) =~= seq![key[0]] + rest);
        assert(seq![key[0]] + rest =~= key);
    } else {
        assert(escaped(key) =~= seq![]);
        assert(unescaped(escaped(key)) =~= key);
    }
}

proof fn lemma_split_joined(keys: Seq<Seq<char>>)
    requires
        keys.len() > 0,
        forall|i: int| 0 <= i < keys.len() ==> plain(#[trigger] keys[i]),
    ensures
        split(joined(keys)) == keys,
    decreases keys.len(),
{
    reveal_strlit(".");
    let text = joined(keys);
    let head = keys[0];
    assert(plain(head));
    if keys.len() == 1 {
        crate::text::lemma_before_first_at(text, '.', text.len() as int);
        assert(text.subrange(0, text.len() as int) =~= text);
        assert(split(text) =~= seq![text]);
        assert(keys =~= seq![text]);
    } else {
        let rest = keys.drop_first();
        assert forall|i: int| 0 <= i < rest.len() implies plain(#[trigger] rest[i]) by {
            assert(plain(keys[i + 1]));
        }
        lemma_split_joined(rest);
        let at = head.len() as int;
        assert(text[at] == '.');
        assert forall|j: int| 0 <= j < at implies text[j] != '.' by {
            assert(text[j] == head[j]);
        }
        crate::text::lemma_before_first_at(text, '.', at);
        assert(text.subrange(0, at) =~= head);
        assert(text.skip(at + 1) =~= joined(rest));
        assert(seq![head] + rest =~= keys);
    }
}

/// The name of a patch leads where its change does, and its value says what
/// the change is.
proof fn lemma_patch_is_change(c: Change)
    requires
        c.0.len() > 0,
    ensures
        keys_of(patch_name(seq![], c)) == c.0,
        change_of(patch_name(seq![], c), patch_value(c.1)) == c.1,
{
    reveal_strlit(".-");
    reveal_strlit(".=");
    reveal_strlit(".");
    let keys = c.0;
    let name = patch_name(seq![], c);
    assert(Seq::<Seq<char>>::empty() + keys =~= keys);
    let texts = escaped_all(keys);
    assert forall|i: int| 0 <= i < texts.len() implies plain(#[trigger] texts[i]) && unescaped(
        texts[i],
    ) == keys[i] by {
        lemma_escaped(keys[i]);
    }
    if c.1 is Some && tell_apart(keys) {
        lemma_split_joined(keys);
        assert(plain(keys[0]));
        if name.len() > 0 {
            if keys.len() > 1 {
                assert(name[0] == keys[0][0]);
            }
            assert(name[0] != '.');
        }
    } else {
        lemma_split_joined(texts);
        assert(unescaped_all(texts) =~= keys);
        assert(name.skip(2) =~= joined(texts));
        assert(name[0] == '.');
    }
}

/// Patches made of disjoint changes do what the changes do.
proof fn lemma_patches_do_changes(s: Members, c: Seq<Change>)
    requires
        members_well_formed(s),
        disjoint(c),
        forall|i: int|
            0 <= i < c.len() ==> (#[trigger] c[i]).0.len() > 0 && change_well_formed(c[i].1),
    ensures
        ({
            let p = recorded(seq![], seq![], c);
            &&& members_well_formed(p)
            &&& patched(s, p) == changed(s, c)
            &&& forall|i: int|
                0 <= i < p.len() ==> exists|j: int|
                    0 <= j < c.len() && (#[trigger] p[i]).0 == patch_name(
                        seq![],
                        #[trigger] c[j],
                    )
        }),
    decreases c.len(),
{
    let empty: Members = seq![];
    let top: Seq<Seq<char>> = seq![];
    if c.len() == 0 {
        assert(members_well_formed(empty));
    } else {
        let front = c.drop_last();
        let last = c.last();
        let n = c.len() - 1;
        assert(c[n] == last);
        assert(disjoint(front)) by {
            assert forall|i: int, j: int|
                0 <= i < front.len() && 0 <= j < front.len() && i != j implies apart(
                (#[trigger] front[i]).0,
                (#[trigger] front[j]).0,
            ) by {
                assert(apart(c[i].0, c[j].0));
            }
        }
        assert forall|i: int| 0 <= i < front.len() implies (#[trigger] front[i]).0.len() > 0
            && change_well_formed(front[i].1) by {
            assert(front[i] == c[i]);
        }
        lemma_patches_do_changes(s, front);
        let p = recorded(empty, top, front);
        let key = patch_name(top, last);
        let value = patch_value(last.1);
        lemma_patch_is_change(last);
        assert forall|i: int| 0 <= i < p.len() implies well_formed((#[trigger] p[i]).1) && apart(
            keys_of(key),
            keys_of(p[i].0),
        ) && p[i].0 != key by {
            let j = choose|j: int|
                0 <= j < front.len() && p[i].0 == patch_name(top, #[trigger] front[j]);
            assert(front[j] == c[j]);
            lemma_patch_is_change(c[j]);
            assert(apart(c[n].0, c[j].0));
        }
        lemma_slot(p, key);
        let at = slot(p, key);
        assert(with_member(p, key, value) == p.insert(at, (key, value)));
        lemma_patch_moves_to_end(s, p, at, key, value);
        lemma_with_member_well_formed(p, key, value);
        let q = recorded(empty, top, c);
        assert(q == p.insert(at, (key, value)));
        assert forall|i: int| 0 <= i < q.len() implies exists|j: int|
            0 <= j < c.len() && (#[trigger] q[i]).0 == patch_name(top, #[trigger] c[j]) by {
            if i == at {
                assert(q[i].0 == patch_name(top, c[n]));
            } else {
                let i0 = if i < at {
                    i
                } else {
                    i - 1
                };
                assert(q[i] == p[i0]);
                let j = choose|j: int|
                    0 <= j < front.len() && p[i0].0 == patch_name(top, #[trigger] front[j]);
                assert(front[j] == c[j]);
                assert(q[i].0 == patch_name(top, c[j]));
            }
        }
    }
}

/// Whether one of the objects has the key.
pub open spec fn involved(a: Members, b: Members, key: Seq<char>) -> bool {
    lookup(a, key) is Some || lookup(b, key) is Some
}

/// The changes between two objects are disjoint, and stay within the keys of
/// the objects.
proof fn lemma_changes_sound(a: Members, b: Members)
    requires
        members_well_formed(a),
        members_well_formed(b),
    ensures
        disjoint(changes(a, b)),
        forall|i: int|
            0 <= i < changes(a, b).len() ==> {
                let c = #[trigger] changes(a, b)[i];
                c.0.len() > 0 && change_well_formed(c.1) && involved(a, b, c.0[0])
            },
    decreases a, b,
{
    let all = changes(a, b);
    if a.len() == 0 && b.len() == 0 {
    } else if b.len() == 0 || (a.len() > 0 && comes_before(a[0].0, b[0].0)) {
        let x = a.drop_first();
        lemma_drop_first_well_formed(a);
        lemma_changes_sound(x, b);
        let k = a[0].0;
        lemma_absent(b, k);
        let first: Seq<Change> = seq![(seq![k], None::<JsonView>)];
        lemma_split_changes(first, changes(x, b), x, b, a, b, k);
    } else if a.len() == 0 || comes_before(b[0].0, a[0].0) {
        let y = b.drop_first();
        lemma_drop_first_well_formed(b);
        lemma_changes_sound(a, y);
        let k = b[0].0;
        lemma_absent(a, k);
        let first: Seq<Change> = seq![(seq![k], Some(b[0].1))];
        lemma_split_changes(first, changes(a, y), a, y, a, b, k);
    } else {
        lemma_order(a[0].0, b[0].0);
        let x = a.drop_first();
        let y = b.drop_first();
        lemma_drop_first_well_formed(a);
        lemma_drop_first_well_formed(b);
        lemma_changes_sound(x, y);
        let k = a[0].0;
        let first = change_at(k, a[0].1, b[0].1);
        lemma_change_at_sound(k, a[0].1, b[0].1);
        lemma_split_changes(first, changes(x, y), x, y, a, b, k);
    }
}

/// A key before all keys of an object is not in it.
proof fn lemma_absent(s: Members, key: Seq<char>)
    requires
        sorted(s),
        s.len() > 0 ==> comes_before(key, s[0].0),
    ensures
        lookup(s, key) is None,
{
    crate::json::lemma_found(s, key);
    if lookup(s, key) is Some {
        let i = choose|i: int| 0 <= i < s.len() && (#[trigger] s[i]).0 == key;
        lemma_order(key, s[0].0);
        if i > 0 {
            assert(comes_before(s[0].0, s[i].0));
        }
    }
}

proof fn lemma_change_at_sound(key: Seq<char>, va: JsonView, vb: JsonView)
    requires
        well_formed(va),
        well_formed(vb),
    ensures
        disjoint(change_at(key, va, vb)),
        forall|i: int|
            0 <= i < change_at(key, va, vb).len() ==> {
                let c = #[trigger] change_at(key, va, vb)[i];
                c.0.len() > 0 && change_well_formed(c.1) && c.0[0] == key
            },
    decreases va, vb,
{
    if !same_json(va, vb) {
        match (va, vb) {
            (JsonView::Object(x), JsonView::Object(y)) => {
                lemma_object_well_formed(x);
                lemma_object_well_formed(y);
                lemma_changes_sound(x, y);
                let inner = changes(x, y);
                let outer = under(key, inner);
                assert forall|i: int| 0 <= i < outer.len() implies {
                    let c = #[trigger] outer[i];
                    c.0.len() > 0 && change_well_formed(c.1) && c.0[0] == key
                } by {
                    let c = inner[i];
                    assert(change_well_formed(c.1));
                    assert(outer[i].0 == seq![key] + c.0);
                }
                assert forall|i: int, j: int|
                    0 <= i < outer.len() && 0 <= j < outer.len() && i != j implies apart(
                    (#[trigger] outer[i]).0,
                    (#[trigger] outer[j]).0,
                ) by {
                    assert(apart(inner[i].0, inner[j].0));
                    let n = choose|n: int|
                        0 <= n < inner[i].0.len() && n < inner[j].0.len()
                            && #[trigger] inner[i].0[n] != inner[j].0[n];
                    assert(outer[i].0[n + 1] == inner[i].0[n]);
                    assert(outer[j].0[n + 1] == inner[j].0[n]);
                }
            },
            _ => {},
        }
    }
}

/// The changes of one key go together with those of all other keys.
proof fn lemma_split_changes(
    first: Seq<Change>,
    rest: Seq<Change>,
    x: Members,
    y: Members,
    a: Members,
    b: Members,
    key: Seq<char>,
)
    requires
        disjoint(first),
        disjoint(rest),
        forall|i: int|
            0 <= i < first.len() ==> {
                let c = #[trigger] first[i];
                c.0.len() > 0 && change_well_formed(c.1) && c.0[0] == key
            },
        forall|i: int|
            0 <= i < rest.len() ==> {
                let c = #[trigger] rest[i];
                c.0.len() > 0 && change_well_formed(c.1) && involved(x, y, c.0[0])
            },
        involved(a, b, key),
        !involved(x, y, key),
        forall|k: Seq<char>| #[trigger] involved(x, y, k) ==> involved(a, b, k),
    ensures
        disjoint(first + rest),
        forall|i: int|
            0 <= i < (first + rest).len() ==> {
                let c = #[trigger] (first + rest)[i];
                c.0.len() > 0 && change_well_formed(c.1) && involved(a, b, c.0[0])
            },
{
    let all = first + rest;
    let n = first.len() as int;
    assert forall|i: int| 0 <= i < all.len() implies {
        let c = #[trigger] all[i];
        c.0.len() > 0 && change_well_formed(c.1) && involved(a, b, c.0[0])
    } by {
        if i < n {
            assert(all[i] == first[i]);
        } else {
            assert(all[i] == rest[i - n]);
        }
    }
    assert forall|i: int, j: int| 0 <= i < all.len() && 0 <= j < all.len() && i != j implies apart(
        (#[trigger] all[i]).0,
        (#[trigger] all[j]).0,
    ) by {
        if i < n && j < n {
            assert(apart(first[i].0, first[j].0));
        } else if i >= n && j >= n {
            assert(apart(rest[i - n].0, rest[j - n].0));
        } else {
            let p = if i < n {
                first[i]
            } else {
                rest[i - n]
            };
            let q = if j < n {
                first[j]
            } else {
                rest[j - n]
            };
            assert(p.0[0] != q.0[0]);
            assert(all[i].0 == p.0 && all[j].0 == q.0);
        }
    }
}

/// Whether two optional values are the same JSON, or both missing.
pub open spec fn alike(a: Option<JsonView>, b: Option<JsonView>) -> bool {
    match (a, b) {
        (Some(x), Some(y)) => same_json(x, y),
        (None, None) => true,
        _ => false,
    }
}

/// Whether what was found is what was wanted: the same JSON, and equal where
/// the objects hold no negative zero.
pub open spec fn reached(
    a: Members,
    b: Members,
    found: Option<JsonView>,
    wanted: Option<JsonView>,
) -> bool {
    &&& alike(found, wanted)
    &&& members_one_zero(a) && members_one_zero(b) ==> found == wanted
}

proof fn lemma_drop_first_one_zero(s: Members)
    requires
        s.len() > 0,
        members_one_zero(s),
    ensures
        one_zero(s[0].1),
        members_one_zero(s.drop_first()),
{
    assert(one_zero(s[0].1));
    let t = s.drop_first();
    assert forall|i: int| 0 <= i < t.len() implies one_zero((#[trigger] t[i]).1) by {
        assert(one_zero(s[i + 1].1));
    }
}

/// Changes below one key act on the object there.
proof fn lemma_changed_under(s: Members, key: Seq<char>, inner: Members, c: Seq<Change>)
    requires
        members_well_formed(s),
        lookup(s, key) == Some(JsonView::Object(inner)),
        forall|i: int|
            0 <= i < c.len() ==> (#[trigger] c[i]).0.len() > 0 && change_well_formed(c[i].1),
    ensures
        ({
            let after = changed(s, under(key, c));
            &&& members_well_formed(after)
            &&& members_well_formed(changed(inner, c))
            &&& lookup(after, key) == Some(JsonView::Object(changed(inner, c)))
            &&& forall|k: Seq<char>| k != key ==> #[trigger] lookup(after, k) == lookup(s, k)
        }),
    decreases c.len(),
{
    lemma_member_well_formed(s, key);
    lemma_object_well_formed(inner);
    if c.len() > 0 {
        let front = c.drop_last();
        let last = c.last();
        assert(c[c.len() - 1] == last);
        assert forall|i: int| 0 <= i < front.len() implies (#[trigger] front[i]).0.len() > 0
            && change_well_formed(front[i].1) by {
            assert(front[i] == c[i]);
        }
        lemma_changed_under(s, key, inner, front);
        let u = under(key, c);
        assert(u.drop_last() =~= under(key, front));
        assert(u.last() == (seq![key] + last.0, last.1));
        let before = changed(s, under(key, front));
        let keys = seq![key] + last.0;
        assert(keys.drop_first() =~= last.0);
        assert(keys[0] == key);
        lemma_set_at_head(before, keys, last.1);
        lemma_set_at_well_formed(changed(inner, front), last.0, last.1);
        assert(changed(s, u) == set_at(before, keys, last.1));
        assert forall|k: Seq<char>| k != key implies #[trigger] lookup(changed(s, u), k) == lookup(
            s,
            k,
        ) by {
            assert(lookup(set_at(before, keys, last.1), k) == lookup(before, k));
        }
    }
}

/// The changes from `a` to `b`, made to an object that agrees with `a` on the
/// keys of both, make it agree with `b` there, and leave other keys alone.
proof fn lemma_changes_lead_there(obj: Members, a: Members, b: Members)
    requires
        members_well_formed(obj),
        members_well_formed(a),
        members_well_formed(b),
        forall|k: Seq<char>|
            involved(a, b, k) ==> #[trigger] lookup(obj, k) == lookup(a, k),
    ensures
        ({
            let after = changed(obj, changes(a, b));
            &&& members_well_formed(after)
            &&& forall|k: Seq<char>|
                #![trigger lookup(after, k)]
                if involved(a, b, k) {
                    reached(a, b, lookup(after, k), lookup(b, k))
                } else {
                    lookup(after, k) == lookup(obj, k)
                }
        }),
    decreases a, b,
{
    if a.len() == 0 && b.len() == 0 {
        lemma_nothing_involved(a, b);
    } else if b.len() == 0 || (a.len() > 0 && comes_before(a[0].0, b[0].0)) {
        let x = a.drop_first();
        let key = a[0].0;
        lemma_drop_first_well_formed(a);
        lemma_absent(b, key);
        let first: Seq<Change> = seq![(seq![key], None::<JsonView>)];
        lemma_changed_concat(obj, first, changes(x, b));
        let mid = changed(obj, first);
        lemma_one_change(obj, key, None);
        lemma_without_member(obj, key);
        assert forall|k: Seq<char>| involved(x, b, k) implies #[trigger] lookup(mid, k) == lookup(
            x,
            k,
        ) by {
            assert(k != key);
            assert(lookup(x, k) == lookup(a, k));
            assert(involved(a, b, k));
            assert(lookup(obj, k) == lookup(a, k));
        }
        lemma_changes_lead_there(mid, x, b);
        if members_one_zero(a) {
            lemma_drop_first_one_zero(a);
        }
        let after = changed(obj, changes(a, b));
        assert forall|k: Seq<char>|
            #![trigger lookup(after, k)]
            if involved(a, b, k) {
            reached(a, b, lookup(after, k), lookup(b, k))
        } else {
            lookup(after, k) == lookup(obj, k)
        } by {
            if k == key {
                assert(!involved(x, b, key));
                assert(lookup(after, key) == lookup(mid, key));
            } else {
                assert(lookup(x, k) == lookup(a, k));
                assert(involved(x, b, k) == involved(a, b, k));
            }
        }
    } else if a.len() == 0 || comes_before(b[0].0, a[0].0) {
        let y = b.drop_first();
        let key = b[0].0;
        lemma_drop_first_well_formed(b);
        lemma_absent(a, key);
        let first: Seq<Change> = seq![(seq![key], Some(b[0].1))];
        lemma_changed_concat(obj, first, changes(a, y));
        let mid = changed(obj, first);
        lemma_one_change(obj, key, Some(b[0].1));
        lemma_with_member(obj, key, b[0].1);
        lemma_with_member_well_formed(obj, key, b[0].1);
        assert forall|k: Seq<char>| involved(a, y, k) implies #[trigger] lookup(mid, k) == lookup(
            a,
            k,
        ) by {
            assert(k != key);
            assert(involved(a, b, k));
            assert(lookup(obj, k) == lookup(a, k));
        }
        lemma_changes_lead_there(mid, a, y);
        if members_one_zero(b) {
            lemma_drop_first_one_zero(b);
        }
        let after = changed(obj, changes(a, b));
        crate::json::lemma_same_reflexive(b[0].1);
        assert forall|k: Seq<char>|
            #![trigger lookup(after, k)]
            if involved(a, b, k) {
            reached(a, b, lookup(after, k), lookup(b, k))
        } else {
            lookup(after, k) == lookup(obj, k)
        } by {
            if k == key {
                assert(!involved(a, y, key));
                assert(lookup(after, key) == lookup(mid, key));
            } else {
                assert(lookup(y, k) == lookup(b, k));
                assert(involved(a, y, k) == involved(a, b, k));
            }
        }
    } else {
        lemma_order(a[0].0, b[0].0);
        let x = a.drop_first();
        let y = b.drop_first();
        let key = a[0].0;
        lemma_drop_first_well_formed(a);
        lemma_drop_first_well_formed(b);
        let first = change_at(key, a[0].1, b[0].1);
        lemma_changed_concat(obj, first, changes(x, y));
        let mid = changed(obj, first);
        assert(involved(a, b, key));
        assert(lookup(obj, key) == Some(a[0].1));
        lemma_member_leads_there(obj, key, a[0].1, b[0].1);
        assert forall|k: Seq<char>| involved(x, y, k) implies #[trigger] lookup(mid, k) == lookup(
            x,
            k,
        ) by {
            assert(k != key);
            assert(involved(a, b, k));
            assert(lookup(obj, k) == lookup(a, k));
        }
        lemma_changes_lead_there(mid, x, y);
        if members_one_zero(a) && members_one_zero(b) {
            lemma_drop_first_one_zero(a);
            lemma_drop_first_one_zero(b);
        }
        let after = changed(obj, changes(a, b));
        assert forall|k: Seq<char>|
            #![trigger lookup(after, k)]
            if involved(a, b, k) {
            reached(a, b, lookup(after, k), lookup(b, k))
        } else {
            lookup(after, k) == lookup(obj, k)
        } by {
            if k == key {
                assert(!involved(x, y, key));
                assert(lookup(after, key) == lookup(mid, key));
            } else {
                assert(lookup(x, k) == lookup(a, k));
                assert(lookup(y, k) == lookup(b, k));
                assert(involved(x, y, k) == involved(a, b, k));
            }
        }
    }
}

proof fn lemma_nothing_involved(a: Members, b: Members)
    requires
        a.len() == 0,
        b.len() == 0,
    ensures
        forall|k: Seq<char>| !#[trigger] involved(a, b, k),
{
}

proof fn lemma_one_change(s: Members, key: Seq<char>, change: Option<JsonView>)
    ensures
        changed(s, seq![(seq![key], change)]) == (match change {
            Some(value) => with_member(s, key, value),
            None => without_member(s, key),
        }),
{
    let one: Seq<Change> = seq![(seq![key], change)];
    assert(one.drop_last() =~= seq![]);
    assert(changed(s, one.drop_last()) == s);
    assert(one.last() == (seq![key], change));
}

proof fn lemma_member_leads_there(
    obj: Members,
    key: Seq<char>,
    va: JsonView,
    vb: JsonView,
)
    requires
        members_well_formed(obj),
        lookup(obj, key) == Some(va),
        well_formed(va),
        well_formed(vb),
    ensures
        ({
            let after = changed(obj, change_at(key, va, vb));
            &&& members_well_formed(after)
            &&& alike(lookup(after, key), Some(vb))
            &&& one_zero(va) && one_zero(vb) ==> lookup(after, key) == Some(vb)
            &&& forall|k: Seq<char>| k != key ==> #[trigger] lookup(after, k) == lookup(obj, k)
        }),
    decreases va, vb,
{
    if !same_json(va, vb) {
        match (va, vb) {
            (JsonView::Object(x), JsonView::Object(y)) => {
                lemma_object_well_formed(x);
                lemma_object_well_formed(y);
                lemma_changes_sound(x, y);
                let c = changes(x, y);
                assert forall|i: int| 0 <= i < c.len() implies (#[trigger] c[i]).0.len() > 0
                    && change_well_formed(c[i].1) by {}
                lemma_changed_under(obj, key, x, c);
                lemma_changes_lead_there(x, x, y);
                let inner = changed(x, c);
                assert forall|k: Seq<char>|
                    #![trigger lookup(inner, k)]
                    #![trigger lookup(y, k)]
                    match (lookup(inner, k), lookup(y, k)) {
                        (Some(p), Some(q)) => same_json(p, q),
                        (None, None) => true,
                        _ => false,
                    } by {
                    if !involved(x, y, k) {
                        assert(lookup(inner, k) == lookup(x, k));
                    } else {
                        assert(reached(x, y, lookup(inner, k), lookup(y, k)));
                    }
                }
                crate::json::lemma_alike(inner, y);
                lemma_same_objects(inner, y);
                if one_zero(va) && one_zero(vb) {
                    assert forall|k: Seq<char>| #[trigger] lookup(inner, k) == lookup(y, k) by {
                        if involved(x, y, k) {
                            assert(reached(x, y, lookup(inner, k), lookup(y, k)));
                        }
                    }
                    crate::json::lemma_same_lookups(inner, y);
                }
            },
            _ => {
                lemma_one_change(obj, key, Some(vb));
                lemma_with_member(obj, key, vb);
                lemma_with_member_well_formed(obj, key, vb);
                crate::json::lemma_same_reflexive(vb);
            },
        }
    } else if one_zero(va) && one_zero(vb) {
        crate::json::law_same_is_equal(va, vb);
    }
}

/// Applying the delta between two objects to the first gives the second,
/// whatever was added, changed or taken out: the same JSON, and an equal object
/// unless a negative zero stands for the other one.
pub proof fn law_delta_round_trips(a: Members, b: Members)
    requires
        members_well_formed(a),
        members_well_formed(b),
    ensures
        members_well_formed(patches_of(a, b)),
        same_members(patched(a, patches_of(a, b)), b),
        members_one_zero(a) && members_one_zero(b) ==> patched(a, patches_of(a, b)) == b,
{
    lemma_changes_sound(a, b);
    let c = changes(a, b);
    assert forall|i: int| 0 <= i < c.len() implies (#[trigger] c[i]).0.len() > 0
        && change_well_formed(c[i].1) by {}
    lemma_patches_do_changes(a, c);
    lemma_changes_lead_there(a, a, b);
    let after = changed(a, c);
    assert forall|k: Seq<char>|
        #![trigger lookup(after, k)]
        #![trigger lookup(b, k)]
        reached(a, b, lookup(after, k), lookup(b, k)) by {
        if !involved(a, b, k) {
            assert(lookup(after, k) == lookup(a, k));
        }
    }
    crate::json::lemma_alike(after, b);
    if members_one_zero(a) && members_one_zero(b) {
        assert forall|k: Seq<char>| #[trigger] lookup(after, k) == lookup(b, k) by {
            assert(reached(a, b, lookup(after, k), lookup(b, k)));
        }
        crate::json::lemma_same_lookups(after, b);
    }
}

/// The leaves of a state are those of its members together: two parts of a
/// state have the leaves of the one and of the other, a member that is an
/// object counts for what is in it, and any other for one.
pub proof fn law_leaves_add_up(a: Members, b: Members, key: Seq<char>, value: JsonView)
    ensures
        leaves_of(a + b) == leaves_of(a) + leaves_of(b),
        leaves_of(seq![(key, value)]) == (match value {
            JsonView::Object(inner) => if inner.len() > 0 {
                leaves_of(inner)
            } else {
                1
            },
            _ => 1,
        }),
        leaves_of(Seq::empty()) == 0,
    decreases a.len(),
{
    if a.len() == 0 {
        assert(a + b =~= b);
    } else {
        law_leaves_add_up(a.drop_first(), b, key, value);
        assert((a + b).drop_first() =~= a.drop_first() + b);
        assert((a + b)[0] == a[0]);
    }
    let one = seq![(key, value)];
    assert(one.drop_first() =~= Seq::<(Seq<char>, JsonView)>::empty());
    assert(leaves_of(one.drop_first()) == 0);
    assert(leaves_of(one) == leaves(one[0].1) + leaves_of(one.drop_first()));
}

/// A flat state has as many leaves as members.
pub proof fn law_flat_state_has_a_leaf_for_each_member(s: Members)
    requires
        forall|i: int| 0 <= i < s.len() ==> (#[trigger] s[i]).1 !is Object,
    ensures
        leaves_of(s) == s.len(),
    decreases s.len(),
{
    if s.len() > 0 {
        let rest = s.drop_first();
        assert forall|i: int| 0 <= i < rest.len() implies (#[trigger] rest[i]).1 !is Object by {
            assert(s[i + 1].1 !is Object);
        }
        law_flat_state_has_a_leaf_for_each_member(rest);
        assert(leaves(s[0].1) == 1) by {
            assert(s[0].1 !is Object);
        }
        assert(leaves_of(s) == leaves(s[0].1) + leaves_of(rest));
    }
}

/// The changes between two objects are in members that differ.
proof fn lemma_changes_differ(a: Members, b: Members)
    requires
        members_well_formed(a),
        members_well_formed(b),
    ensures
        forall|i: int|
            0 <= i < changes(a, b).len() ==> {
                let c = #[trigger] changes(a, b)[i];
                &&& !alike(lookup(a, c.0[0]), lookup(b, c.0[0]))
                &&& c.0.len() == 1 ==> c.1 == lookup(b, c.0[0])
            },
    decreases a, b,
{
    lemma_changes_sound(a, b);
    if a.len() == 0 && b.len() == 0 {
    } else if b.len() == 0 || (a.len() > 0 && comes_before(a[0].0, b[0].0)) {
        let x = a.drop_first();
        lemma_drop_first_well_formed(a);
        lemma_absent(b, a[0].0);
        lemma_changes_sound(x, b);
        lemma_changes_differ(x, b);
        let rest = changes(x, b);
        assert forall|i: int| 0 <= i < changes(a, b).len() implies {
            let c = #[trigger] changes(a, b)[i];
            &&& !alike(lookup(a, c.0[0]), lookup(b, c.0[0]))
            &&& c.0.len() == 1 ==> c.1 == lookup(b, c.0[0])
        } by {
            if i > 0 {
                assert(changes(a, b)[i] == rest[i - 1]);
                assert(lookup(x, rest[i - 1].0[0]) == lookup(a, rest[i - 1].0[0]) || rest[i - 1].0[0]
                    == a[0].0);
            }
        }
    } else if a.len() == 0 || comes_before(b[0].0, a[0].0) {
        let y = b.drop_first();
        lemma_drop_first_well_formed(b);
        lemma_absent(a, b[0].0);
        lemma_changes_sound(a, y);
        lemma_changes_differ(a, y);
        let rest = changes(a, y);
        assert forall|i: int| 0 <= i < changes(a, b).len() implies {
            let c = #[trigger] changes(a, b)[i];
            &&& !alike(lookup(a, c.0[0]), lookup(b, c.0[0]))
            &&& c.0.len() == 1 ==> c.1 == lookup(b, c.0[0])
        } by {
            if i > 0 {
                assert(changes(a, b)[i] == rest[i - 1]);
                assert(lookup(y, rest[i - 1].0[0]) == lookup(b, rest[i - 1].0[0]) || rest[i - 1].0[0]
                    == b[0].0);
            }
        }
    } else {
        lemma_order(a[0].0, b[0].0);
        let (x, y) = (a.drop_first(), b.drop_first());
        lemma_drop_first_well_formed(a);
        lemma_drop_first_well_formed(b);
        lemma_changes_sound(x, y);
        lemma_changes_differ(x, y);
        let first = change_at(a[0].0, a[0].1, b[0].1);
        let rest = changes(x, y);
        lemma_change_at_sound(a[0].0, a[0].1, b[0].1);
        assert forall|i: int| 0 <= i < changes(a, b).len() implies {
            let c = #[trigger] changes(a, b)[i];
            &&& !alike(lookup(a, c.0[0]), lookup(b, c.0[0]))
            &&& c.0.len() == 1 ==> c.1 == lookup(b, c.0[0])
        } by {
            if i < first.len() {
                assert(changes(a, b)[i] == first[i]);
                assert(first[i].0[0] == a[0].0);
                if let (JsonView::Object(p), JsonView::Object(q)) = (a[0].1, b[0].1) {
                    lemma_object_well_formed(p);
                    lemma_object_well_formed(q);
                    lemma_changes_sound(p, q);
                    assert(first[i].0 == seq![a[0].0] + changes(p, q)[i].0);
                }
            } else {
                let c = rest[i - first.len()];
                assert(changes(a, b)[i] == c);
                assert(involved(x, y, c.0[0]));
                assert(lookup(x, c.0[0]) == lookup(a, c.0[0]) || c.0[0] == a[0].0);
                assert(lookup(y, c.0[0]) == lookup(b, c.0[0]) || c.0[0] == b[0].0);
            }
        }
    }
}

/// What is recorded of changes is a patch of one of them.
proof fn lemma_recorded_is_of(c: Seq<Change>, name: Seq<char>)
    ensures
        sorted(recorded(seq![], seq![], c)),
        lookup(recorded(seq![], seq![], c), name) is Some ==> exists|i: int|
            0 <= i < c.len() && name == patch_name(seq![], #[trigger] c[i]) && lookup(
                recorded(seq![], seq![], c),
                name,
            ) == Some(patch_value(c[i].1)),
    decreases c.len(),
{
    if c.len() > 0 {
        let front = c.drop_last();
        lemma_recorded_is_of(front, name);
        let before = recorded(seq![], seq![], front);
        let key = patch_name(seq![], c.last());
        crate::json::lemma_with_member(before, key, patch_value(c.last().1));
        if key == name {
            assert(c[c.len() - 1] == c.last());
        } else if lookup(before, name) is Some {
            let i = choose|i: int|
                0 <= i < front.len() && name == patch_name(seq![], #[trigger] front[i]) && lookup(
                    before,
                    name,
                ) == Some(patch_value(front[i].1));
            assert(c[i] == front[i]);
        }
    } else {
        crate::json::lemma_found(recorded(seq![], seq![], c), name);
    }
}

/// A delta names nothing but what changed: what a patch is of lies in a member
/// in which the two states differ, and a patch of a whole member has the value
/// of the new state.
pub proof fn law_delta_names_only_changes(a: Members, b: Members, name: Seq<char>)
    requires
        members_well_formed(a),
        members_well_formed(b),
        lookup(patches_of(a, b), name) is Some,
    ensures
        keys_of(name).len() > 0,
        !alike(lookup(a, keys_of(name)[0]), lookup(b, keys_of(name)[0])),
        keys_of(name).len() == 1 ==> change_of(name, lookup(patches_of(a, b), name)->Some_0)
            == lookup(b, keys_of(name)[0]),
{
    let c = changes(a, b);
    lemma_recorded_is_of(c, name);
    lemma_changes_sound(a, b);
    lemma_changes_differ(a, b);
    let i = choose|i: int|
        0 <= i < c.len() && name == patch_name(seq![], #[trigger] c[i]) && lookup(
            recorded(seq![], seq![], c),
            name,
        ) == Some(patch_value(c[i].1));
    lemma_patch_is_change(c[i]);
}

} // verus!
