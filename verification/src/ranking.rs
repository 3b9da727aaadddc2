//! Ranking by score: highest first, and equal scores in the order they came.
use vstd::prelude::*;

use crate::reading::Reading;

verus! {

/// Inserts `x` behind everything that its score does not exceed.
pub open spec fn inserted<T>(ranked: Seq<(T, Reading)>, x: (T, Reading)) -> Seq<(T, Reading)>
    decreases ranked.len(),
{
    if ranked.len() == 0 || !ranked.last().1.below(x.1) {
        ranked.push(x)
    } else {
        inserted(ranked.drop_last(), x).push(ranked.last())
    }
}

/// The entries by descending score; entries of equal score keep their order.
pub open spec fn ranked<T>(s: Seq<(T, Reading)>) -> Seq<(T, Reading)>
    decreases s.len(),
{
    if s.len() == 0 {
        seq![]
    } else {
        inserted(ranked(s.drop_last()), s.last())
    }
}

pub open spec fn no_nan<T>(s: Seq<(T, Reading)>) -> bool {
    forall|i: int| 0 <= i < s.len() ==> !(#[trigger] s[i]).1.is_nan()
}

pub open spec fn descending<T>(s: Seq<(T, Reading)>) -> bool {
    forall|i: int, j: int|
        0 <= i <= j < s.len() ==> (#[trigger] s[i]).1.position() >= (#[trigger] s[j]).1.position()
}

proof fn lemma_inserted<T>(r: Seq<(T, Reading)>, x: (T, Reading))
    ensures
        inserted(r, x).len() == r.len() + 1,
        inserted(r, x).to_multiset() =~= r.to_multiset().insert(x),
        no_nan(r) && !x.1.is_nan() ==> no_nan(inserted(r, x)),
        no_nan(r) && !x.1.is_nan() && descending(r) ==> descending(inserted(r, x)),
        inserted(r, x).last() == x || (r.len() > 0 && inserted(r, x).last() == r.last()),
        r.len() > 0 && !r.last().1.is_nan() && !x.1.is_nan() ==> (inserted(r, x).last().1.position()
            <= x.1.position()),
    decreases r.len(),
{
    broadcast use vstd::seq_lib::group_to_multiset_ensures;

    if r.len() == 0 || !r.last().1.below(x.1) {
    } else {
        lemma_inserted(r.drop_last(), x);
        assert(r =~= r.drop_last().push(r.last()));
        let inner = inserted(r.drop_last(), x);
        if no_nan(r) && !x.1.is_nan() {
            assert(no_nan(r.drop_last()));
            assert(no_nan(inner));
            if descending(r) {
                assert(descending(r.drop_last()));
                assert(inner.last() == x || inner.last() == r.drop_last().last());
                assert(inner.last().1.position() >= r.last().1.position());
                let whole = inner.push(r.last());
                assert forall|i: int, j: int| 0 <= i <= j < whole.len() implies (
                #[trigger] whole[i]).1.position() >= (#[trigger] whole[j]).1.position() by {
                    if j == whole.len() - 1 && i < j {
                        assert(inner[i].1.position() >= inner[inner.len() - 1].1.position());
                    }
                }
            }
        }
    }
}

/// Ranking loses and adds nothing, and scores that are numbers come out in
/// descending order.
pub proof fn law_ranked<T>(s: Seq<(T, Reading)>)
    ensures
        ranked(s).len() == s.len(),
        ranked(s).to_multiset() =~= s.to_multiset(),
        no_nan(s) ==> no_nan(ranked(s)) && descending(ranked(s)),
    decreases s.len(),
{
    broadcast use vstd::seq_lib::group_to_multiset_ensures;

    if s.len() > 0 {
        law_ranked(s.drop_last());
        lemma_inserted(ranked(s.drop_last()), s.last());
        assert(s =~= s.drop_last().push(s.last()));
        if no_nan(s) {
            assert(no_nan(s.drop_last()));
        }
    }
}

/// The entries ranked by score.
pub fn rank<T: Copy>(s: &[(T, Reading)]) -> (r: Vec<(T, Reading)>)
    ensures
        r@ == ranked(s@),
{
    let mut r: Vec<(T, Reading)> = Vec::new();
    let mut n: usize = 0;
    assert(s@.take(0) =~= seq![]);
    while n < s.len()
        invariant
            n <= s.len(),
            r@ == ranked(s@.take(n as int)),
        decreases s.len() - n,
    {
        let x = s[n];
        let ghost before = r@;
        let mut at: usize = r.len();
        let ghost tail: Seq<(T, Reading)> = seq![];
        assert(before =~= before.take(at as int));
        assert(inserted(before, x) =~= inserted(before.take(at as int), x) + tail);
        while at > 0 && r[at - 1].1 < x.1
            invariant
                at <= r.len(),
                r@ == before,
                tail == before.skip(at as int),
                inserted(before, x) == inserted(before.take(at as int), x) + tail,
            decreases at,
        {
            proof {
                let front = before.take(at as int);
                assert(front.drop_last() =~= before.take(at - 1));
                assert(inserted(front, x) == inserted(front.drop_last(), x).push(front.last()));
                assert(seq![before[at - 1]] + tail =~= before.skip(at - 1));
                assert(inserted(before.take(at - 1), x).push(before[at - 1]) + tail =~= inserted(
                    before.take(at - 1),
                    x,
                ) + before.skip(at - 1));
                tail = before.skip(at - 1);
            }
            at = at - 1;
        }
        r.insert(at, x);
        proof {
            let front = before.take(at as int);
            assert(inserted(front, x) == front.push(x));
            assert(r@ =~= front.push(x) + tail);
            assert(s@.take(n + 1).drop_last() =~= s@.take(n as int));
        }
        n = n + 1;
    }
    assert(s@.take(n as int) =~= s@);
    r
}

/// Entries of equal score keep their order.
pub proof fn law_equal_scores_keep_their_order<T>(s: Seq<(T, Reading)>, place: int)
    ensures
        ranked(s).filter(|e: (T, Reading)| e.1.position() == place) == s.filter(
            |e: (T, Reading)| e.1.position() == place,
        ),
    decreases s.len(),
{
    reveal(Seq::filter);
    let here = |e: (T, Reading)| e.1.position() == place;
    if s.len() > 0 {
        law_equal_scores_keep_their_order(s.drop_last(), place);
        lemma_inserted_in_place(ranked(s.drop_last()), s.last(), place);
        assert(ranked(s).filter(here) == s.filter(here));
    }
}

proof fn lemma_inserted_in_place<T>(r: Seq<(T, Reading)>, x: (T, Reading), place: int)
    ensures
        ({
            let here = |e: (T, Reading)| e.1.position() == place;
            inserted(r, x).filter(here) == (if here(x) {
                r.filter(here).push(x)
            } else {
                r.filter(here)
            })
        }),
    decreases r.len(),
{
    reveal(Seq::filter);
    if r.len() == 0 || !r.last().1.below(x.1) {
        assert(r.push(x).drop_last() =~= r);
    } else {
        lemma_inserted_in_place(r.drop_last(), x, place);
        let inner = inserted(r.drop_last(), x);
        assert(inner.push(r.last()).drop_last() =~= inner);
    }
}

} // verus!
