//! A second ranking by an outside model.

use vstd::prelude::*;

use crate::bits;
use crate::laws::ordering::sorting_is_stable;
use crate::model::{HitV, SearchOpts};
use crate::order::{lex_lt, sorted};
use crate::rank::depth_of;
use crate::rerank::{
    as_scored, counted, has_text, hit_order, is_for, passed, places_where, rerank_depth_of,
    reranked, retrimmed, text_attr,
};

verus! {

/// A second ranking is fetched as many times deeper as its overscan says, and never shallower.
pub proof fn a_second_ranking_is_fetched_deeper(opts: SearchOpts)
    ensures
        opts.rerank is None ==> rerank_depth_of(opts) == depth_of(opts),
        opts.rerank matches Some(r) ==> {
            &&& r.overscan <= 1 ==> rerank_depth_of(opts) == depth_of(opts)
            &&& r.overscan > 1 && depth_of(opts) * r.overscan <= usize::MAX ==> rerank_depth_of(
                opts,
            ) == depth_of(opts) * r.overscan
            &&& r.overscan > 1 && depth_of(opts) * r.overscan > usize::MAX ==> rerank_depth_of(opts)
                == usize::MAX
        },
{
    let d = depth_of(opts);
    assert(d * 1 == d) by (nonlinear_arith);
}

/// The text of a result is what it holds under the configured attribute, where that is a string
/// that is not empty.
pub proof fn what_is_ranked_again(opts: SearchOpts, attr: Seq<char>, h: HitV)
    ensures
        opts.rerank is None ==> text_attr(opts) == "nidus.text"@,
        opts.rerank matches Some(r) ==> text_attr(opts) == r.text_attr@,
        has_text(attr, h) <==> h.attrs.contains_key(attr) && h.attrs[attr] is Str
            && h.attrs[attr]->Str_0.len() > 0,
{
}

/// The results with a text and those without are told apart, each kind in its order.
pub proof fn results_with_a_text_are_told_apart(
    attr: Seq<char>,
    hits: Seq<HitV>,
    with: bool,
    i: int,
)
    ensures
        places_where(attr, hits, with).contains(i) <==> 0 <= i < hits.len() && has_text(
            attr,
            hits[i],
        ) == with,
        forall|a: int, b: int|
            0 <= a < b < places_where(attr, hits, with).len() ==> #[trigger] places_where(
                attr,
                hits,
                with,
            )[a] < #[trigger] places_where(attr, hits, with)[b],
        forall|a: int|
            0 <= a < places_where(attr, hits, with).len() ==> 0 <= #[trigger] places_where(
                attr,
                hits,
                with,
            )[a] < hits.len(),
    decreases hits.len(),
{
    if hits.len() > 0 {
        let d = hits.drop_last();
        results_with_a_text_are_told_apart(attr, d, with, i);
        let rest = places_where(attr, d, with);
        let all = places_where(attr, hits, with);
        let n = hits.len() - 1;
        assert(hits[n] == hits.last());
        if 0 <= i < n {
            assert(d[i] == hits[i]);
        }
        if rest.contains(i) {
            let m = choose|m: int| 0 <= m < rest.len() && rest[m] == i;
            assert(all[m] == i);
        }
        if all.contains(i) && i != n {
            let m = choose|m: int| 0 <= m < all.len() && all[m] == i;
            assert(rest[m] == i);
        }
        if all.len() > rest.len() {
            assert(all[all.len() - 1] == n);
        }
    }
}

/// Of the scores that the model gives, the first for each result that is there counts.
pub proof fn the_first_score_counts(scored: Seq<(usize, u32)>, x: (usize, u32), n: int)
    ensures
        counted(Seq::<(usize, u32)>::empty(), n).len() == 0,
        x.0 < n && !is_for(scored, x.0) ==> counted(scored.push(x), n) == counted(scored, n).push(
            x,
        ),
        x.0 >= n || is_for(scored, x.0) ==> counted(scored.push(x), n) == counted(scored, n),
{
    assert(scored.push(x).drop_last() =~= scored);
    counted_is_for(scored, n, x.0);
}

proof fn counted_is_for(scored: Seq<(usize, u32)>, n: int, i: usize)
    ensures
        i < n ==> (is_for(counted(scored, n), i) <==> is_for(scored, i)),
        i >= n ==> !is_for(counted(scored, n), i),
    decreases scored.len(),
{
    if scored.len() > 0 {
        let d = scored.drop_last();
        counted_is_for(d, n, i);
        counted_is_for(d, n, scored.last().0);
        let rest = counted(d, n);
        let all = counted(scored, n);
        assert(scored[scored.len() - 1] == scored.last());
        if is_for(d, i) {
            let j = choose|j: int| 0 <= j < d.len() && (#[trigger] d[j]).0 == i;
            assert(scored[j].0 == i);
        }
        if is_for(scored, i) && scored.last().0 != i {
            let j = choose|j: int| 0 <= j < scored.len() && (#[trigger] scored[j]).0 == i;
            assert(d[j].0 == i);
        }
        if is_for(rest, i) {
            let j = choose|j: int| 0 <= j < rest.len() && (#[trigger] rest[j]).0 == i;
            assert(all[j].0 == i);
        }
        if is_for(all, i) && !is_for(rest, i) {
            let j = choose|j: int| 0 <= j < all.len() && (#[trigger] all[j]).0 == i;
            if j < rest.len() {
                assert(rest[j].0 == i);
            }
        }
        if all.len() > rest.len() {
            assert(all[all.len() - 1] == scored.last());
        }
    }
}

/// Of the results that the model passes through, each that is there and has no score counts once,
/// in their order.
pub proof fn what_is_passed_through(
    scored: Seq<(usize, u32)>,
    through: Seq<usize>,
    x: usize,
    n: int,
)
    ensures
        passed(scored, Seq::<usize>::empty(), n).len() == 0,
        x < n && !is_for(scored, x) && !through.contains(x) ==> passed(scored, through.push(x), n)
            == passed(scored, through, n).push(x),
        x >= n || is_for(scored, x) || through.contains(x) ==> passed(scored, through.push(x), n)
            == passed(scored, through, n),
{
    assert(through.push(x).drop_last() =~= through);
    counted_is_for(scored, n, x);
    passed_has(scored, through, n, x);
}

proof fn passed_has(scored: Seq<(usize, u32)>, through: Seq<usize>, n: int, x: usize)
    ensures
        passed(scored, through, n).contains(x) <==> through.contains(x) && x < n && !is_for(
            counted(scored, n),
            x,
        ),
    decreases through.len(),
{
    if through.len() > 0 {
        let d = through.drop_last();
        passed_has(scored, d, n, x);
        let rest = passed(scored, d, n);
        let all = passed(scored, through, n);
        assert(through[through.len() - 1] == through.last());
        if d.contains(x) {
            let j = choose|j: int| 0 <= j < d.len() && d[j] == x;
            assert(through[j] == x);
        }
        if through.contains(x) && through.last() != x {
            let j = choose|j: int| 0 <= j < through.len() && through[j] == x;
            assert(d[j] == x);
        }
        if rest.contains(x) {
            let j = choose|j: int| 0 <= j < rest.len() && rest[j] == x;
            assert(all[j] == x);
        }
        if all.contains(x) && !rest.contains(x) {
            let j = choose|j: int| 0 <= j < all.len() && all[j] == x;
            if j < rest.len() {
                assert(rest[j] == x);
            }
        }
        if all.len() > rest.len() {
            assert(all[all.len() - 1] == through.last());
        }
    }
}

/// A ranking ranked again: first the results that count, at the model's scores and in the order
/// of results, then those passed through, as they were.
pub proof fn what_is_scored_goes_first(
    hits: Seq<HitV>,
    scored: Seq<(usize, u32)>,
    through: Seq<usize>,
) -> (from: Seq<int>)
    ensures
        ({
            let out = reranked(hits, scored, through);
            let n = hits.len() as int;
            let first = counted(scored, n);
            let then_come = passed(scored, through, n);
            &&& out.len() == first.len() + then_come.len()
            &&& from.len() == first.len()
            &&& from.no_duplicates()
            &&& forall|i: int|
                0 <= i < first.len() ==> 0 <= #[trigger] from[i] < first.len() && out[i] == (
                HitV { score: first[from[i]].1, ..hits[first[from[i]].0 as int] })
            &&& forall|i: int, j: int|
                0 <= i < j < first.len() ==> !bits::ahead(
                    (#[trigger] out[j]).score,
                    (#[trigger] out[i]).score,
                ) && (bits::level(out[i].score, out[j].score) ==> !lex_lt(
                    out[j].collection,
                    out[i].collection,
                ) && (out[i].collection == out[j].collection ==> !lex_lt(out[j].id, out[i].id)))
            &&& forall|i: int|
                0 <= i < then_come.len() ==> #[trigger] out[first.len() + i]
                    == hits[then_come[i] as int]
        }),
{
    let n = hits.len() as int;
    let first = counted(scored, n);
    let f = |x: (usize, u32)| HitV { score: x.1, ..hits[x.0 as int] };
    let loose = first.map_values(f);
    let lt = hit_order();
    crate::rank::ranking_is_order();
    assert(crate::order::weak_order(lt)) by {
        let g = crate::rank::ranking();
        assert forall|x: HitV, y: HitV| #[trigger] lt(x, y) implies !lt(y, x) by {
            assert(g(as_scored(x), as_scored(y)));
        }
        assert forall|x: HitV, y: HitV, z: HitV| lt(x, z) implies #[trigger] lt(x, y)
            || #[trigger] lt(y, z) by {
            assert(g(as_scored(x), as_scored(z)));
            assert(g(as_scored(x), as_scored(y)) || g(as_scored(y), as_scored(z)));
        }
    }
    let from = sorting_is_stable(loose, lt);
    let head = sorted(loose, lt);
    let out = reranked(hits, scored, through);
    assert forall|i: int| 0 <= i < first.len() implies out[i] == head[i] by {}
    assert forall|i: int| 0 <= i < first.len() implies 0 <= #[trigger] from[i] < first.len()
        && out[i] == (HitV { score: first[from[i]].1, ..hits[first[from[i]].0 as int] }) by {
        assert(head[i] == loose[from[i]]);
    }
    assert forall|i: int, j: int| 0 <= i < j < first.len() implies !bits::ahead(
        (#[trigger] out[j]).score,
        (#[trigger] out[i]).score,
    ) && (bits::level(out[i].score, out[j].score) ==> !lex_lt(
        out[j].collection,
        out[i].collection,
    ) && (out[i].collection == out[j].collection ==> !lex_lt(out[j].id, out[i].id))) by {
        assert(!lt(head[j], head[i]));
    }
    from
}

/// The text that was fetched only to be ranked by is taken off again; nothing else is.
pub proof fn a_fetched_text_is_taken_off(opts: SearchOpts, kept: bool, h: HitV, key: Seq<char>)
    ensures
        kept || opts.rerank is None ==> retrimmed(opts, kept, h) == h,
        !kept && opts.rerank is Some ==> {
            let out = retrimmed(opts, kept, h);
            &&& out == (HitV { attrs: out.attrs, ..h })
            &&& out.attrs.contains_key(key) <==> h.attrs.contains_key(key) && key != text_attr(
                opts,
            )
            &&& out.attrs.contains_key(key) ==> out.attrs[key] == h.attrs[key]
        },
{
}

} // verus!
