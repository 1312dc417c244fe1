//! What a search finds.

use vstd::prelude::*;

use crate::expand::expanded_all;
use crate::host::{propose_of, Host};
use crate::kernel::{adjust_of, dot_of, gap_of, unit_of, Kernel};
use crate::laws::fusion::goes_before;
use crate::model::{project, Distance, HitV, RankBy, SearchOpts};
use crate::order::{sorted_members, top};
use crate::rank::{clears, depth_of, page, plus, ranking, terms, times, ScoredV};
use crate::scan::{
    answered, gathered, listable, narrowed, scan_is_sound, sound_item, ScanV,
};
use crate::scoring::{score_for, scored};
use crate::search::{
    filter_indexed, outcome, proposals_of, query_of, search_of, stage, without_doc,
};
use crate::store::Store;
use crate::value::passes;

verus! {

/// The score of a stored record for a query: the dot product of its row with the query, which
/// under the cosine metric is first scaled to length one, or under the Euclidean metric the
/// negated squared distance; less what a ranking expression takes off.
pub open spec fn true_score<K: Kernel>(
    s: Store,
    k: K,
    query: Seq<u32>,
    rank_by: Option<RankBy>,
    c: Seq<char>,
    id: Seq<char>,
) -> u32 {
    let doc = s.index@.collections[c].docs[id];
    let row = s.rows@[doc.row->0 as int]@;
    let base = match s.config.distance {
        Distance::Cosine => dot_of(k, unit_of(k, query), row),
        Distance::DotProduct => dot_of(k, query, row),
        Distance::Euclidean => gap_of(k, query, row),
    };
    match rank_by {
        None => base,
        Some(RankBy::Decay(d)) => adjust_of(k, d, base, terms(d, doc.attrs)),
    }
}

/// A record that a query can find: in a collection of the scope, stored with a vector, admitted
/// by the filter, and not below the floor.
pub open spec fn findable<K: Kernel>(
    s: Store,
    k: K,
    scope: Seq<Seq<char>>,
    query: Seq<u32>,
    opts: SearchOpts,
    c: Seq<char>,
    id: Seq<char>,
) -> bool {
    &&& scope.contains(c)
    &&& s.index@.collections.contains_key(c)
    &&& s.index@.collections[c].docs.contains_key(id)
    &&& s.index@.collections[c].docs[id].row is Some
    &&& passes(opts.filter, s.index@.collections[c].docs[id].attrs)
    &&& clears(opts.min_score, true_score(s, k, query, opts.rank_by, c, id))
}

/// Where the store has a filter index, it proposes at least every record that the filter admits.
pub open spec fn proposes_enough<H: Host>(
    s: Store,
    h: H,
    scope: Seq<Seq<char>>,
    opts: SearchOpts,
) -> bool {
    filter_indexed(s) ==> forall|c: Seq<char>, id: Seq<char>|
        s.index@.collections.contains_key(c) && #[trigger] s.index@.collections[c].docs.contains_key(
            id,
        ) && passes(opts.filter, s.index@.collections[c].docs[id].attrs) ==> (propose_of(
            h,
            c,
            opts.filter,
        ) matches Some(ids) ==> ids.contains(id))
}

proof fn stage_has<H: Host>(
    s: Store,
    h: H,
    scope: Seq<Seq<char>>,
    opts: SearchOpts,
    x: ScanV,
)
    requires
        listable(s.index@.collections),
        proposes_enough(s, h, scope, opts),
    ensures
        stage(s, h, scope, opts.filter).1.contains(x) <==> sound_item(
            s.index@.collections,
            scope,
            opts.filter,
            x,
        ),
{
    let cols = s.index@.collections;
    scan_is_sound(cols, scope, opts.filter);
    let ps = proposals_of(s, h, scope, opts.filter);
    if filter_indexed(s) && answered(cols, scope, ps) {
        let some = narrowed(cols, scope, ps, opts.filter);
        sorted_members(some, crate::scan::by_row());
        assert forall|i: int, id: Seq<char>|
            0 <= i < scope.len() && cols.contains_key(scope[i])
                && #[trigger] cols[scope[i]].docs.contains_key(id) && passes(
                opts.filter,
                cols[scope[i]].docs[id].attrs,
            ) implies ps[i]->0.contains(id) by {
            assert(ps[i] is Some);
            assert(ps[i] == propose_of(h, scope[i], opts.filter));
        }
        crate::scan::narrowing_loses_nothing(cols, scope, ps, opts.filter, x);
        crate::scan::gathered_members(cols, scope, opts.filter, x);
        assert(gathered(cols, scope, opts.filter).contains(x) == sound_item(
            cols,
            scope,
            opts.filter,
            x,
        ));
    }
}

proof fn scored_has<K: Kernel>(
    s: Store,
    k: K,
    q: Seq<u32>,
    opts: SearchOpts,
    scan: Seq<ScanV>,
    y: ScoredV,
)
    ensures
        scored(s, k, q, opts, scan).contains(y) <==> exists|j: int|
            0 <= j < scan.len() && (#[trigger] scan[j]).collection == y.collection && scan[j].id
                == y.id && score_for(s, k, q, opts, scan[j]) == y.score && clears(
                opts.min_score,
                y.score,
            ),
    decreases scan.len(),
{
    if scan.len() > 0 {
        let d = scan.drop_last();
        scored_has(s, k, q, opts, d, y);
        let rest = scored(s, k, q, opts, d);
        let all = scored(s, k, q, opts, scan);
        let x = scan.last();
        let score = score_for(s, k, q, opts, x);
        let n = scan.len() - 1;
        assert(scan[n] == x);
        if all.contains(y) {
            let i = choose|i: int| 0 <= i < all.len() && all[i] == y;
            if i < rest.len() {
                assert(rest[i] == y);
                let j = choose|j: int|
                    0 <= j < d.len() && (#[trigger] d[j]).collection == y.collection && d[j].id
                        == y.id && score_for(s, k, q, opts, d[j]) == y.score && clears(
                        opts.min_score,
                        y.score,
                    );
                assert(scan[j] == d[j]);
            }
        }
        if exists|j: int|
            0 <= j < scan.len() && (#[trigger] scan[j]).collection == y.collection && scan[j].id
                == y.id && score_for(s, k, q, opts, scan[j]) == y.score && clears(
                opts.min_score,
                y.score,
            ) {
            let j = choose|j: int|
                0 <= j < scan.len() && (#[trigger] scan[j]).collection == y.collection && scan[j].id
                    == y.id && score_for(s, k, q, opts, scan[j]) == y.score && clears(
                    opts.min_score,
                    y.score,
                );
            if j < n {
                assert(d[j] == scan[j]);
                let i = choose|i: int| 0 <= i < rest.len() && rest[i] == y;
                assert(all[i] == y);
            } else {
                assert(all[all.len() - 1] == y);
            }
        }
    }
}

/// The result that a found record gives: where it is, its score, and the attributes that the
/// projection keeps.
pub open spec fn result_for<K: Kernel>(
    s: Store,
    k: K,
    query: Seq<u32>,
    opts: SearchOpts,
    h: HitV,
) -> bool {
    &&& h.score == true_score(s, k, query, opts.rank_by, h.collection, h.id)
    &&& h.attrs == project(
        opts.projection,
        s.index@.collections[h.collection].docs[h.id].attrs,
    )
}

/// An exhaustive search, nothing thinned or spread, finds the best: every result is a record that
/// can be found, at its own score and with its own attributes, and a record that can be found is
/// among the results unless they are full and each of them goes before it, or stands level.
pub proof fn an_exact_search_finds_the_best<K: Kernel, H: Host>(
    s: Store,
    k: K,
    h: H,
    scope: Seq<Seq<char>>,
    query: Seq<u32>,
    opts: SearchOpts,
    c: Seq<char>,
    id: Seq<char>,
)
    requires
        listable(s.index@.collections),
        proposes_enough(s, h, scope, opts),
        opts.exact,
        opts.limit_per is None,
        opts.diversity is None,
        opts.expand is None,
        opts.offset == 0,
    ensures
        ({
            let out = search_of(s, k, h, scope, query, opts);
            &&& out.len() <= opts.top_k
            &&& forall|i: int|
                0 <= i < out.len() ==> findable(
                    s,
                    k,
                    scope,
                    query,
                    opts,
                    (#[trigger] out[i]).collection,
                    out[i].id,
                ) && result_for(s, k, query, opts, out[i])
            &&& findable(s, k, scope, query, opts, c, id) ==> (exists|i: int|
                0 <= i < out.len() && (#[trigger] out[i]).collection == c && out[i].id == id) || (
            out.len() == opts.top_k && forall|i: int|
                0 <= i < out.len() ==> !crate::rank::before(
                    ScoredV {
                        score: true_score(s, k, query, opts.rank_by, c, id),
                        collection: c,
                        id,
                    },
                    ScoredV {
                        score: (#[trigger] out[i]).score,
                        collection: out[i].collection,
                        id: out[i].id,
                    },
                ))
        }),
{
    let cols = s.index@.collections;
    let n = opts.top_k;
    let q = query_of(s, k, query);
    assert(depth_of(opts) == n) by (nonlinear_arith)
        requires
            depth_of(opts) == times(plus(0, n), 1),
            n >= 0,
    ;
    let scan = stage(s, h, scope, opts.filter).1;
    let all = scored(s, k, q, opts, scan);
    let kept = top(all, n as int, ranking());
    let ranked = outcome(s, k, h, scope, q, opts, n).ranked;
    let out = search_of(s, k, h, scope, query, opts);
    assert(ranked.len() == kept.len());
    assert(page(ranked, 0, n as int) =~= ranked);
    assert(expanded_all(cols, None, ranked) =~= ranked);
    assert(out == ranked);
    crate::order::top_members(all, n as int, ranking());
    assert forall|i: int| 0 <= i < out.len() implies findable(
        s,
        k,
        scope,
        query,
        opts,
        (#[trigger] out[i]).collection,
        out[i].id,
    ) && result_for(s, k, query, opts, out[i]) by {
        let y = kept[i];
        assert(kept.contains(y));
        scored_has(s, k, q, opts, scan, y);
        let j = choose|j: int|
            0 <= j < scan.len() && (#[trigger] scan[j]).collection == y.collection && scan[j].id
                == y.id && score_for(s, k, q, opts, scan[j]) == y.score && clears(
                opts.min_score,
                y.score,
            );
        assert(scan.contains(scan[j]));
        stage_has(s, h, scope, opts, scan[j]);
    }
    if findable(s, k, scope, query, opts, c, id) {
        let x = ScanV { row: cols[c].docs[id].row->0, collection: c, id };
        stage_has(s, h, scope, opts, x);
        let j = choose|j: int| 0 <= j < scan.len() && scan[j] == x;
        let y = ScoredV {
            score: true_score(s, k, query, opts.rank_by, c, id),
            collection: c,
            id,
        };
        assert(score_for(s, k, q, opts, scan[j]) == y.score);
        scored_has(s, k, q, opts, scan, y);
        if kept.contains(y) {
            let i = choose|i: int| 0 <= i < kept.len() && kept[i] == y;
            assert(out[i].collection == c && out[i].id == id);
        } else {
            crate::rank::nothing_better_is_left_out(all, n as int, y);
            assert forall|i: int| 0 <= i < out.len() implies !crate::rank::before(
                y,
                ScoredV {
                    score: (#[trigger] out[i]).score,
                    collection: out[i].collection,
                    id: out[i].id,
                },
            ) by {
                assert(kept[i] == ScoredV {
                    score: out[i].score,
                    collection: out[i].collection,
                    id: out[i].id,
                });
            }
        }
    }
}

/// An exhaustive search shows its results in order, the best first.
pub proof fn an_exact_search_is_in_order<K: Kernel, H: Host>(
    s: Store,
    k: K,
    h: H,
    scope: Seq<Seq<char>>,
    query: Seq<u32>,
    opts: SearchOpts,
    i: int,
    j: int,
)
    requires
        listable(s.index@.collections),
        proposes_enough(s, h, scope, opts),
        opts.exact,
        opts.limit_per is None,
        opts.diversity is None,
        opts.expand is None,
        opts.offset == 0,
        0 <= i < j < search_of(s, k, h, scope, query, opts).len(),
    ensures
        ({
            let a = search_of(s, k, h, scope, query, opts)[i];
            let b = search_of(s, k, h, scope, query, opts)[j];
            goes_before(a, b) || (a.collection == b.collection && a.id == b.id && a.score
                == b.score)
        }),
{
    let n = opts.top_k;
    let q = query_of(s, k, query);
    assert(depth_of(opts) == n) by (nonlinear_arith)
        requires
            depth_of(opts) == times(plus(0, n), 1),
            n >= 0,
    ;
    let scan = stage(s, h, scope, opts.filter).1;
    let all = scored(s, k, q, opts, scan);
    let kept = top(all, n as int, ranking());
    let ranked = outcome(s, k, h, scope, q, opts, n).ranked;
    assert(page(ranked, 0, n as int) =~= ranked);
    assert(expanded_all(s.index@.collections, None, ranked) =~= ranked);
    crate::rank::top_is_ordered(all, n as int);
    assert(!crate::rank::before(kept[j], kept[i]));
    an_exact_search_finds_the_best(
        s,
        k,
        h,
        scope,
        query,
        opts,
        kept[i].collection,
        kept[i].id,
    );
    if kept[i].collection != kept[j].collection || kept[i].id != kept[j].id {
        crate::rank::ranking_is_total(kept[i], kept[j]);
    } else {
        assert(ranked[i].score == ranked[j].score);
    }
}

/// Leaving a document out leaves every other result where it was and that one nowhere.
pub proof fn leaving_out_takes_one_document(
    hits: Seq<HitV>,
    h: HitV,
    c: Seq<char>,
    id: Seq<char>,
)
    ensures
        h.collection == c && h.id == id ==> without_doc(hits.push(h), c, id) == without_doc(
            hits,
            c,
            id,
        ),
        h.collection != c || h.id != id ==> without_doc(hits.push(h), c, id) == without_doc(
            hits,
            c,
            id,
        ).push(h),
        without_doc(Seq::<HitV>::empty(), c, id) == Seq::<HitV>::empty(),
        forall|i: int|
            0 <= i < without_doc(hits, c, id).len() ==> (#[trigger] without_doc(
                hits,
                c,
                id,
            )[i]).collection != c || without_doc(hits, c, id)[i].id != id,
        without_doc(hits, c, id).len() <= hits.len(),
    decreases hits.len(),
{
    assert(hits.push(h).drop_last() =~= hits);
    if hits.len() > 0 {
        leaving_out_takes_one_document(hits.drop_last(), h, c, id);
    }
}

} // verus!
