//! Scores of text clauses, taken together.

use vstd::prelude::*;

use crate::bits;
use crate::kernel::{plus_of, Kernel};
use crate::text::{combined, max_of, FtsCombine};

verus! {

/// Under `Max` the combined score is not less than any clause's score, and is zero or the score of
/// one of the clauses, however many match.
pub proof fn the_best_clause_decides<K: Kernel>(k: K, scores: Seq<Option<u32>>)
    ensures
        forall|i: int|
            0 <= i < scores.len() && (#[trigger] scores[i]) is Some ==> !bits::num_lt(
                combined(k, FtsCombine::Max, scores),
                scores[i]->0,
            ),
        !bits::num_lt(combined(k, FtsCombine::Max, scores), 0),
        !bits::is_nan(combined(k, FtsCombine::Max, scores)),
        combined(k, FtsCombine::Max, scores) == 0 || scores.contains(
            Some(combined(k, FtsCombine::Max, scores)),
        ),
{
    max_bounds(scores);
}

proof fn max_bounds(scores: Seq<Option<u32>>)
    ensures
        forall|i: int|
            0 <= i < scores.len() && (#[trigger] scores[i]) is Some ==> !bits::num_lt(
                max_of(scores),
                scores[i]->0,
            ),
        !bits::num_lt(max_of(scores), 0),
        !bits::is_nan(max_of(scores)),
        max_of(scores) == 0 || scores.contains(Some(max_of(scores))),
    decreases scores.len(),
{
    if scores.len() > 0 {
        let d = scores.drop_last();
        max_bounds(d);
        assert forall|i: int| 0 <= i < d.len() implies #[trigger] scores[i] == d[i] by {}
        assert(scores[scores.len() - 1] == scores.last());
        if max_of(scores) != 0 && max_of(scores) == max_of(d) {
            let i = choose|i: int| 0 <= i < d.len() && d[i] == Some(max_of(d));
            assert(scores[i] == Some(max_of(scores)));
        }
    }
}

/// Under `Max` the clauses' order does not matter, nor how often a score occurs.
pub proof fn the_best_clause_may_stand_anywhere<K: Kernel>(
    k: K,
    a: Seq<Option<u32>>,
    b: Seq<Option<u32>>,
)
    requires
        forall|x: Option<u32>| a.contains(x) <==> b.contains(x),
    ensures
        bits::level(combined(k, FtsCombine::Max, a), combined(k, FtsCombine::Max, b)),
{
    the_best_clause_decides(k, a);
    the_best_clause_decides(k, b);
    let x = combined(k, FtsCombine::Max, a);
    let y = combined(k, FtsCombine::Max, b);
    if x != 0 {
        assert(a.contains(Some(x)));
        assert(b.contains(Some(x)));
        let i = choose|i: int| 0 <= i < b.len() && b[i] == Some(x);
        assert(!bits::num_lt(y, b[i]->0));
    }
    if y != 0 {
        assert(b.contains(Some(y)));
        assert(a.contains(Some(y)));
        let i = choose|i: int| 0 <= i < a.len() && a[i] == Some(y);
        assert(!bits::num_lt(x, a[i]->0));
    }
}

/// Under `Sum` the first score counts as it is, each later one is added to what the clauses
/// before it come to, a clause without a score adds nothing, and no score at all is zero.
pub proof fn each_clause_is_added<K: Kernel>(k: K, scores: Seq<Option<u32>>, x: u32)
    ensures
        (forall|i: int| 0 <= i < scores.len() ==> (#[trigger] scores[i]) is None) ==> combined(
            k,
            FtsCombine::Sum,
            scores,
        ) == 0 && combined(k, FtsCombine::Sum, scores.push(Some(x))) == x,
        (exists|i: int| 0 <= i < scores.len() && (#[trigger] scores[i]) is Some) ==> combined(
            k,
            FtsCombine::Sum,
            scores.push(Some(x)),
        ) == plus_of(k, combined(k, FtsCombine::Sum, scores), x),
        combined(k, FtsCombine::Sum, scores.push(None)) == combined(k, FtsCombine::Sum, scores),
{
    assert(scores.push(Some(x)).drop_last() =~= scores);
    assert(scores.push(None).drop_last() =~= scores);
    a_sum_is_there(k, scores);
}

proof fn a_sum_is_there<K: Kernel>(k: K, scores: Seq<Option<u32>>)
    ensures
        crate::text::sum_of(k, scores) is Some <==> exists|i: int|
            0 <= i < scores.len() && (#[trigger] scores[i]) is Some,
    decreases scores.len(),
{
    if scores.len() > 0 {
        let d = scores.drop_last();
        a_sum_is_there(k, d);
        assert forall|i: int| 0 <= i < d.len() implies #[trigger] scores[i] == d[i] by {}
        if exists|i: int| 0 <= i < d.len() && (#[trigger] d[i]) is Some {
            let i = choose|i: int| 0 <= i < d.len() && (#[trigger] d[i]) is Some;
            assert(scores[i] is Some);
        }
        if exists|i: int| 0 <= i < scores.len() && (#[trigger] scores[i]) is Some {
            let i = choose|i: int| 0 <= i < scores.len() && (#[trigger] scores[i]) is Some;
            if i < d.len() {
                assert(d[i] is Some);
            }
        }
        assert(scores[scores.len() - 1] == scores.last());
    }
}

} // verus!
