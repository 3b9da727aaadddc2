//! The first element of a sequence that fits.
use vstd::prelude::*;

verus! {

/// The place of the first element that fits, or the length where none does.
pub open spec fn first_index<T>(s: Seq<T>, fits: spec_fn(T) -> bool) -> int
    decreases s.len(),
{
    if s.len() == 0 || fits(s[0]) {
        0
    } else {
        1 + first_index(s.drop_first(), fits)
    }
}

pub proof fn lemma_first_index_is<T>(s: Seq<T>, fits: spec_fn(T) -> bool, at: int)
    requires
        0 <= at <= s.len(),
        at < s.len() ==> fits(s[at]),
        forall|j: int| 0 <= j < at ==> !fits(#[trigger] s[j]),
    ensures
        first_index(s, fits) == at,
    decreases s.len(),
{
    if at > 0 {
        assert(!fits(s[0]));
        assert forall|j: int| 0 <= j < at - 1 implies !fits(#[trigger] s.drop_first()[j]) by {
            assert(!fits(s[j + 1]));
        }
        lemma_first_index_is(s.drop_first(), fits, at - 1);
    }
}

pub proof fn lemma_first_index<T>(s: Seq<T>, fits: spec_fn(T) -> bool)
    ensures
        0 <= first_index(s, fits) <= s.len(),
        first_index(s, fits) < s.len() ==> fits(s[first_index(s, fits)]),
        forall|j: int| 0 <= j < first_index(s, fits) ==> !fits(#[trigger] s[j]),
    decreases s.len(),
{
    if s.len() > 0 && !fits(s[0]) {
        lemma_first_index(s.drop_first(), fits);
        assert forall|j: int| 0 <= j < first_index(s, fits) implies !fits(#[trigger] s[j]) by {
            if j > 0 {
                assert(s[j] == s.drop_first()[j - 1]);
            }
        }
    }
}

} // verus!
