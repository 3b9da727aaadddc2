//! Values kept under text keys, each key once.
use vstd::prelude::*;

use crate::search::{first_index, lemma_first_index, lemma_first_index_is};
use crate::text::same;

verus! {

pub open spec fn keyed<V>(key: Seq<char>) -> spec_fn((String, V)) -> bool {
    |e: (String, V)| e.0@ == key
}

/// The value under the key, where there is one.
pub open spec fn held<V>(s: Seq<(String, V)>, key: Seq<char>) -> Option<V> {
    let at = first_index(s, keyed(key));
    if at < s.len() {
        Some(s[at].1)
    } else {
        None
    }
}

pub open spec fn distinct<V>(s: Seq<(String, V)>) -> bool {
    forall|i: int, j: int| 0 <= i < j < s.len() ==> (#[trigger] s[i]).0@ != (#[trigger] s[j]).0@
}

/// An entry is found by its key, and a key that no entry has is not found.
pub proof fn lemma_held<V>(s: Seq<(String, V)>)
    requires
        distinct(s),
    ensures
        forall|i: int| 0 <= i < s.len() ==> held(s, (#[trigger] s[i]).0@) == Some(s[i].1),
        forall|k: Seq<char>|
            (forall|i: int| 0 <= i < s.len() ==> (#[trigger] s[i]).0@ != k) ==> #[trigger] held(
                s,
                k,
            ) is None,
        forall|k: Seq<char>|
            (#[trigger] held(s, k)) is Some ==> exists|i: int|
                0 <= i < s.len() && (#[trigger] s[i]).0@ == k && s[i].1 == held(s, k)->Some_0,
{
    assert forall|i: int| 0 <= i < s.len() implies held(s, (#[trigger] s[i]).0@) == Some(
        s[i].1,
    ) by {
        lemma_held_at(s, i);
    }
    assert forall|k: Seq<char>|
        (forall|i: int|
            0 <= i < s.len() ==> (#[trigger] s[i]).0@ != k) implies #[trigger] held(s, k) is None by {
        lemma_first_index(s, keyed::<V>(k));
        let at = first_index(s, keyed::<V>(k));
        if at < s.len() {
            assert(keyed::<V>(k)(s[at]));
            assert(s[at].0@ == k);
        }
    }
    assert forall|k: Seq<char>| (#[trigger] held(s, k)) is Some implies exists|i: int|
        0 <= i < s.len() && (#[trigger] s[i]).0@ == k && s[i].1 == held(s, k)->Some_0 by {
        lemma_first_index(s, keyed::<V>(k));
        let at = first_index(s, keyed::<V>(k));
        assert(keyed::<V>(k)(s[at]));
        assert(s[at].0@ == k);
    }
}

proof fn lemma_held_at<V>(s: Seq<(String, V)>, i: int)
    requires
        distinct(s),
        0 <= i < s.len(),
    ensures
        first_index(s, keyed::<V>(s[i].0@)) == i,
        held(s, s[i].0@) == Some(s[i].1),
{
    let fits = keyed::<V>(s[i].0@);
    assert forall|j: int| 0 <= j < i implies !fits(#[trigger] s[j]) by {
        assert(s[j].0@ != s[i].0@);
    }
    lemma_first_index_is(s, fits, i);
}

/// Where the key stands, or the length where it does not.
fn find<V>(s: &Vec<(String, V)>, key: &str) -> (r: usize)
    ensures
        r == first_index(s@, keyed::<V>(key@)),
        r <= s@.len(),
        r < s@.len() ==> s@[r as int].0@ == key@,
        forall|j: int| 0 <= j < r ==> (#[trigger] s@[j]).0@ != key@,
{
    let mut i: usize = 0;
    while i < s.len() && !same(s[i].0.as_str(), key)
        invariant
            i <= s@.len(),
            forall|j: int| 0 <= j < i ==> (#[trigger] s@[j]).0@ != key@,
        decreases s@.len() - i,
    {
        i += 1;
    }
    proof {
        let fits = keyed::<V>(key@);
        assert forall|j: int| 0 <= j < i implies !fits(#[trigger] s@[j]) by {}
        lemma_first_index_is(s@, fits, i as int);
    }
    i
}

pub fn get<'a, V>(s: &'a Vec<(String, V)>, key: &str) -> (r: Option<&'a V>)
    ensures
        (match r {
            Some(v) => held(s@, key@) == Some(*v),
            None => held(s@, key@) is None,
        }),
{
    let at: usize = find(s, key);
    if at < s.len() {
        Some(&s[at].1)
    } else {
        None
    }
}

/// Puts the value under the key, in place of what was there.
pub fn put<V>(s: &mut Vec<(String, V)>, key: &str, value: V)
    requires
        distinct(old(s)@),
    ensures
        distinct(final(s)@),
        forall|k: Seq<char>|
            #[trigger] held(final(s)@, k) == (if k == key@ {
                Some(value)
            } else {
                held(old(s)@, k)
            }),
{
    let at: usize = find(s, key);
    let ghost before = s@;
    if at < s.len() {
        s.set(at, (key.to_owned(), value));
    } else {
        s.push((key.to_owned(), value));
    }
    proof {
        assert(distinct(s@)) by {
            assert forall|i: int, j: int| 0 <= i < j < s@.len() implies (#[trigger] s@[i]).0@
                != (#[trigger] s@[j]).0@ by {
                if j < before.len() {
                    assert(before[i].0@ != before[j].0@);
                }
            }
        }
        lemma_held(before);
        lemma_held(s@);
        assert forall|k: Seq<char>| #[trigger] held(s@, k) == (if k == key@ {
            Some(value)
        } else {
            held(before, k)
        }) by {
            if k == key@ {
                assert(s@[at as int].0@ == k);
            } else if held(before, k) is Some {
                let i = choose|i: int|
                    0 <= i < before.len() && (#[trigger] before[i]).0@ == k && before[i].1 == held(
                        before,
                        k,
                    )->Some_0;
                assert(s@[i] == before[i]);
            } else if held(s@, k) is Some {
                let i = choose|i: int| 0 <= i < s@.len() && (#[trigger] s@[i]).0@ == k;
                assert(before[i] == s@[i]);
            }
        }
    }
}

} // verus!
