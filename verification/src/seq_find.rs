//! Finding the first element of a sequence that satisfies a predicate. The
//! engine resolves every lookup — an item by name in a queue or pick list, a
//! league by name or id, a participant by id — to the first match, so its
//! contracts all speak of this one spec function.

use vstd::prelude::*;

verus! {

/// Index of the first element of `s` satisfying `pred`, or `s.len()` when no
/// element does.
pub open spec fn first_match<A>(s: Seq<A>, pred: spec_fn(A) -> bool) -> int
    decreases s.len(),
{
    if s.len() == 0 {
        0
    } else if pred(s[0]) {
        0
    } else {
        1 + first_match(s.drop_first(), pred)
    }
}

/// What `first_match` returns: an index within the sequence pointing at the
/// first satisfying element, or the length when nothing satisfies `pred`.
pub proof fn lemma_first_match<A>(s: Seq<A>, pred: spec_fn(A) -> bool)
    ensures
        0 <= first_match(s, pred) <= s.len(),
        first_match(s, pred) < s.len() ==> pred(s[first_match(s, pred)]),
        forall|j: int| 0 <= j < first_match(s, pred) ==> !pred(#[trigger] s[j]),
        first_match(s, pred) == s.len() ==> forall|j: int|
            0 <= j < s.len() ==> !pred(#[trigger] s[j]),
    decreases s.len(),
{
    let f = first_match(s, pred);
    if s.len() == 0 {
    } else if pred(s[0]) {
    } else {
        let d = s.drop_first();
        lemma_first_match(d, pred);
        let fd = first_match(d, pred);
        assert(f == 1 + fd);
        if fd < d.len() {
            assert(s[f] == d[fd]);
        }
        assert forall|j: int| 0 <= j < f implies !pred(s[j]) by {
            if j >= 1 {
                assert(s[j] == d[j - 1]);
            }
        }
        if f == s.len() {
            assert forall|j: int| 0 <= j < s.len() implies !pred(s[j]) by {
                if j >= 1 {
                    assert(s[j] == d[j - 1]);
                }
            }
        }
    }
}

} // verus!
