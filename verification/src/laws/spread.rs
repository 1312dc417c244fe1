//! Results that are spread out.

use vstd::prelude::*;

use crate::bits;
use crate::diversity::{
    diversified, pick, picks, redundancy, scores_of, selection, window_of, worth,
};
use crate::index::CollsV;
use crate::kernel::{cosine_of, mmr_of, Kernel};
use crate::model::HitV;

verus! {

/// The redundancy of a candidate is not less than its cosine to any chosen result, where both
/// have a vector, and it is zero or one of those cosines.
pub proof fn redundancy_is_the_likeness_to_the_nearest_choice<K: Kernel>(
    k: K,
    window: Seq<Option<Seq<u32>>>,
    chosen: Seq<int>,
    i: int,
)
    ensures
        forall|j: int|
            0 <= j < chosen.len() && window[#[trigger] chosen[j]] is Some && window[i] is Some
                ==> !bits::num_lt(
                redundancy(k, window, chosen, i),
                cosine_of(k, window[chosen[j]]->0, window[i]->0),
            ),
        !bits::num_lt(redundancy(k, window, chosen, i), 0),
        !bits::is_nan(redundancy(k, window, chosen, i)),
        redundancy(k, window, chosen, i) == 0 || exists|j: int|
            0 <= j < chosen.len() && window[#[trigger] chosen[j]] is Some && window[i] is Some
                && redundancy(k, window, chosen, i) == cosine_of(
                k,
                window[chosen[j]]->0,
                window[i]->0,
            ),
    decreases chosen.len(),
{
    if chosen.len() > 0 {
        let before = chosen.drop_last();
        redundancy_is_the_likeness_to_the_nearest_choice(k, window, before, i);
        assert forall|j: int| 0 <= j < before.len() implies #[trigger] before[j] == chosen[j] by {}
        let n = chosen.len() - 1;
        assert(chosen[n] == chosen.last());
        let r = redundancy(k, window, chosen, i);
        assert forall|j: int|
            0 <= j < chosen.len() && window[#[trigger] chosen[j]] is Some && window[i] is Some implies
            !bits::num_lt(r, cosine_of(k, window[chosen[j]]->0, window[i]->0)) by {
            if j < n {
                assert(before[j] == chosen[j]);
            }
        }
        if r != 0 {
            if r == redundancy(k, window, before, i) {
                let j = choose|j: int|
                    0 <= j < before.len() && window[#[trigger] before[j]] is Some
                        && window[i] is Some && r == cosine_of(
                        k,
                        window[before[j]]->0,
                        window[i]->0,
                    );
                assert(chosen[j] == before[j]);
            } else {
                assert(r == cosine_of(k, window[chosen[n]]->0, window[i]->0));
            }
        }
    }
}

/// The order in which results were chosen does not matter to what a candidate is worth.
pub proof fn redundancy_ignores_the_order_of_choices<K: Kernel>(
    k: K,
    window: Seq<Option<Seq<u32>>>,
    a: Seq<int>,
    b: Seq<int>,
    i: int,
)
    requires
        forall|x: int| a.contains(x) <==> b.contains(x),
    ensures
        bits::level(redundancy(k, window, a, i), redundancy(k, window, b, i)),
{
    redundancy_is_the_likeness_to_the_nearest_choice(k, window, a, i);
    redundancy_is_the_likeness_to_the_nearest_choice(k, window, b, i);
    reaches_as_far(k, window, a, b, i);
    reaches_as_far(k, window, b, a, i);
}

proof fn reaches_as_far<K: Kernel>(
    k: K,
    window: Seq<Option<Seq<u32>>>,
    a: Seq<int>,
    b: Seq<int>,
    i: int,
)
    requires
        forall|x: int| a.contains(x) <==> b.contains(x),
    ensures
        !bits::num_lt(redundancy(k, window, b, i), redundancy(k, window, a, i)),
{
    redundancy_is_the_likeness_to_the_nearest_choice(k, window, a, i);
    redundancy_is_the_likeness_to_the_nearest_choice(k, window, b, i);
    let r = redundancy(k, window, a, i);
    if r != 0 {
        let j = choose|j: int|
            0 <= j < a.len() && window[#[trigger] a[j]] is Some && window[i] is Some && r
                == cosine_of(k, window[a[j]]->0, window[i]->0);
        assert(a.contains(a[j]));
        let m = choose|m: int| 0 <= m < b.len() && b[m] == a[j];
        assert(window[b[m]] is Some);
    }
}

/// A candidate worth `a`, ranked at `p`, goes before one worth `b`, ranked at `i`: the second is
/// not worth more, nor as much where it ranked first. What is worth no number goes first only
/// where it ranked first of all.
pub open spec fn outweighs(a: u32, p: int, b: u32, i: int) -> bool {
    if bits::is_nan(a) {
        p <= i
    } else {
        !bits::num_lt(a, b) && (i < p && !bits::is_nan(b) ==> bits::num_lt(b, a))
    }
}

proof fn a_pick_is_bounded<K: Kernel>(
    k: K,
    window: Seq<Option<Seq<u32>>>,
    scores: Seq<u32>,
    lambda: u32,
    chosen: Seq<int>,
    m: nat,
    i: int,
)
    requires
        0 <= i < m,
        !chosen.contains(i),
    ensures
        pick(k, window, scores, lambda, chosen, m) is Some,
        ({
            let p = pick(k, window, scores, lambda, chosen, m)->0;
            &&& 0 <= p < m
            &&& !chosen.contains(p)
            &&& outweighs(
                worth(k, window, scores, lambda, chosen, p),
                p,
                worth(k, window, scores, lambda, chosen, i),
                i,
            )
        }),
    decreases m,
{
    let n = (m - 1) as nat;
    let rest = pick(k, window, scores, lambda, chosen, n);
    if i < n {
        a_pick_is_bounded(k, window, scores, lambda, chosen, n, i);
    } else if rest is Some {
        a_pick_is_fresh(k, window, scores, lambda, chosen, n);
        a_pick_is_bounded(k, window, scores, lambda, chosen, n, rest->0);
    }
}

proof fn a_pick_is_fresh<K: Kernel>(
    k: K,
    window: Seq<Option<Seq<u32>>>,
    scores: Seq<u32>,
    lambda: u32,
    chosen: Seq<int>,
    m: nat,
)
    ensures
        pick(k, window, scores, lambda, chosen, m) matches Some(p) ==> 0 <= p < m
            && !chosen.contains(p),
    decreases m,
{
    if m > 0 {
        a_pick_is_fresh(k, window, scores, lambda, chosen, (m - 1) as nat);
    }
}

proof fn picks_extend<K: Kernel>(
    k: K,
    window: Seq<Option<Seq<u32>>>,
    scores: Seq<u32>,
    lambda: u32,
    n: nat,
    step: int,
)
    requires
        0 <= step < n,
        picks(k, window, scores, lambda, n).len() == n,
    ensures
        pick(
            k,
            window,
            scores,
            lambda,
            picks(k, window, scores, lambda, n).take(step),
            window.len(),
        ) == Some(picks(k, window, scores, lambda, n)[step]),
    decreases n,
{
    let rest = picks(k, window, scores, lambda, (n - 1) as nat);
    let all = picks(k, window, scores, lambda, n);
    picks_are_few(k, window, scores, lambda, (n - 1) as nat);
    assert(all == rest.push(all[n - 1]));
    if step == n - 1 {
        assert(all.take(step) =~= rest);
    } else {
        picks_extend(k, window, scores, lambda, (n - 1) as nat, step);
        assert(all.take(step) =~= rest.take(step));
    }
}

proof fn picks_are_few<K: Kernel>(
    k: K,
    window: Seq<Option<Seq<u32>>>,
    scores: Seq<u32>,
    lambda: u32,
    n: nat,
)
    ensures
        picks(k, window, scores, lambda, n).len() <= n,
    decreases n,
{
    if n > 0 {
        picks_are_few(k, window, scores, lambda, (n - 1) as nat);
    }
}

/// A candidate's trade of its score against its likeness to the results chosen before.
pub open spec fn trade<K: Kernel>(
    k: K,
    lambda: u32,
    hits: Seq<HitV>,
    vectors: Seq<Option<Seq<u32>>>,
    chosen: Seq<int>,
    i: int,
) -> u32 {
    mmr_of(k, lambda, hits[i].score, redundancy(k, vectors, chosen, i))
}

/// The vectors that results are stored with: the row of the record's document, where it has one.
pub open spec fn stored_vectors(cols: CollsV, rows: Seq<Seq<u32>>, hits: Seq<HitV>) -> Seq<
    Option<Seq<u32>>,
> {
    hits.map_values(
        |h: HitV|
            if cols.contains_key(h.collection) && cols[h.collection].docs.contains_key(h.id) {
                match cols[h.collection].docs[h.id].row {
                    Some(r) => Some(rows[r as int]),
                    None => None,
                }
            } else {
                None
            },
    )
}

/// Spreading a ranking out takes its first 512 results in another order and leaves the rest where
/// they are. Each next result is one not yet taken whose trade of score against likeness to those
/// taken no other exceeds, and of those that tie the one that ranked first. A result is as like
/// another as the cosine of their stored vectors.
pub proof fn each_result_is_the_best_left<K: Kernel>(
    k: K,
    cols: CollsV,
    rows: Seq<Seq<u32>>,
    lambda: u32,
    hits: Seq<HitV>,
    w: int,
) -> (order: Seq<int>)
    requires
        hits.len() >= 2,
        w == if hits.len() < 512 {
            hits.len() as int
        } else {
            512
        },
    ensures
        diversified(k, cols, rows, lambda, hits).len() == hits.len(),
        order.len() == w,
        order.no_duplicates(),
        forall|j: int|
            0 <= j < w ==> 0 <= #[trigger] order[j] < w && diversified(
                k,
                cols,
                rows,
                lambda,
                hits,
            )[j] == hits[order[j]],
        forall|j: int|
            w <= j < hits.len() ==> #[trigger] diversified(k, cols, rows, lambda, hits)[j]
                == hits[j],
        forall|step: int, other: int|
            0 <= step < w && 0 <= other < w && !order.take(step).contains(other) ==> outweighs(
                trade(
                    k,
                    lambda,
                    hits,
                    stored_vectors(cols, rows, hits.take(w)),
                    order.take(step),
                    order[step],
                ),
                order[step],
                #[trigger] trade(
                    k,
                    lambda,
                    hits,
                    stored_vectors(cols, rows, hits.take(w)),
                    order.take(step),
                    other,
                ),
                other,
            ),
{
    let head = hits.take(w);
    let window = window_of(cols, rows, head);
    let scores = scores_of(head);
    let order = selection(k, window, scores, lambda);
    crate::diversity::selection_permutes(k, window, scores, lambda);
    let vectors = stored_vectors(cols, rows, head);
    assert(vectors =~= window);
    assert forall|step: int, other: int|
        0 <= step < w && 0 <= other < w && !order.take(step).contains(other) implies outweighs(
        trade(k, lambda, hits, vectors, order.take(step), order[step]),
        order[step],
        #[trigger] trade(k, lambda, hits, vectors, order.take(step), other),
        other,
    ) by {
        picks_extend(k, window, scores, lambda, window.len(), step);
        a_pick_is_bounded(k, window, scores, lambda, order.take(step), window.len(), other);
        assert(scores[other] == hits[other].score);
        assert(scores[order[step]] == hits[order[step]].score);
    }
    order
}

/// A ranking of one result, or of none, is spread out already.
pub proof fn one_result_is_spread_out<K: Kernel>(
    k: K,
    cols: CollsV,
    rows: Seq<Seq<u32>>,
    lambda: u32,
    hits: Seq<HitV>,
)
    requires
        hits.len() < 2,
    ensures
        diversified(k, cols, rows, lambda, hits) == hits,
{
}

} // verus!
