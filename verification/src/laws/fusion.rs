//! Hybrid searches: two rankings fused.

use vstd::prelude::*;

use crate::bits;
use crate::expand::expanded_all;
use crate::coarse::{first_pass, quantizing, rescored};
use crate::host::{walk_of, Host};
use crate::hybrid::{
    fused, fused_doc, fused_order, fused_text, fused_vector, hybrid_of, is_fused, leg_opts,
    leg_rank, text_leg, vector_leg, FusedV,
};
use crate::kernel::{plus_of, reciprocal_of, Kernel};
use crate::lexicon::Lexicon;
use crate::model::{HitV, HybridOpts, LegScore, Projection, QueryFault, SearchOpts};
use crate::order::{lex_lt, sorted_members};
use crate::rank::{before, depth_of, page, plus, times};
use crate::scan::{scan_of, ScanV};
use crate::scoring::scored;
use crate::search::{
    ann_overscan, outcome, query_of, search_of, segment_walks, segmented, stage, uncovered, wanted,
    SEGMENT_OVERSCAN,
};
use crate::store::{Store, StoreError};
use crate::text::{text_all, text_coll, text_of, text_ranked, FtsQuery};
use crate::value::Filter;
use crate::walk::{fate, survivors, tally};

verus! {

/// The options of a search for the best `n` under a filter, with everything else left off.
pub open spec fn plain(o: SearchOpts, filter: Filter, n: int) -> bool {
    &&& o.top_k == n
    &&& o.offset == 0
    &&& o.filter == filter
    &&& o.min_score is None
    &&& o.limit_per is None
    &&& o.diversity is None
    &&& o.expand is None
    &&& o.rank_by is None
    &&& o.projection == Projection::All
    &&& !o.exact
    &&& !o.explain
}

/// How deep the legs of a hybrid search go: as far as its page reaches, and at least as far as
/// the candidates that were asked for.
pub open spec fn reach(opts: HybridOpts) -> int {
    let page_end = if opts.offset + opts.top_k > usize::MAX {
        usize::MAX as int
    } else {
        opts.offset + opts.top_k
    };
    if opts.candidates > page_end {
        opts.candidates as int
    } else {
        page_end
    }
}

/// Two queries differ in nothing that a ranking depends on.
spec fn alike(a: SearchOpts, b: SearchOpts) -> bool {
    &&& a.filter == b.filter
    &&& a.min_score == b.min_score
    &&& a.rank_by == b.rank_by
    &&& a.projection == b.projection
    &&& a.exact == b.exact
}

proof fn scored_alike<K: Kernel>(
    s: Store,
    k: K,
    q: Seq<u32>,
    a: SearchOpts,
    b: SearchOpts,
    scan: Seq<ScanV>,
)
    requires
        alike(a, b),
    ensures
        scored(s, k, q, a, scan) == scored(s, k, q, b, scan),
    decreases scan.len(),
{
    if scan.len() > 0 {
        scored_alike(s, k, q, a, b, scan.drop_last());
    }
}

proof fn survivors_alike<K: Kernel>(
    s: Store,
    k: K,
    q: Seq<u32>,
    a: SearchOpts,
    b: SearchOpts,
    scope: Seq<Seq<char>>,
    rows: Seq<u64>,
)
    requires
        alike(a, b),
    ensures
        survivors(s, k, q, a, scope, rows) == survivors(s, k, q, b, scope, rows),
        tally(s, k, q, a, scope, rows) == tally(s, k, q, b, scope, rows),
    decreases rows.len(),
{
    if rows.len() > 0 {
        survivors_alike(s, k, q, a, b, scope, rows.drop_last());
        assert(fate(s, k, q, a, scope, rows.last()) == fate(s, k, q, b, scope, rows.last()));
    }
}

proof fn outcome_alike<K: Kernel, H: Host>(
    s: Store,
    k: K,
    h: H,
    scope: Seq<Seq<char>>,
    q: Seq<u32>,
    a: SearchOpts,
    b: SearchOpts,
    n: usize,
)
    requires
        alike(a, b),
    ensures
        outcome(s, k, h, scope, q, a, n) == outcome(s, k, h, scope, q, b, n),
{
    let cols = s.index@.collections;
    let scan = stage(s, h, scope, a.filter).1;
    scored_alike(s, k, q, a, b, scan_of(cols, scope, a.filter));
    scored_alike(s, k, q, a, b, scan);
    scored_alike(s, k, q, a, b, first_pass(s, k, q, scan, rescored(s, n)));
    scored_alike(s, k, q, a, b, uncovered(s, scan_of(cols, scope, a.filter)));
    let walked = walk_of(h, s.config.ann->0, q, wanted(n, ann_overscan(s)));
    survivors_alike(s, k, q, a, b, scope, walked);
    let walked = segment_walks(s, h, q, wanted(n, SEGMENT_OVERSCAN), s.indexed@.len());
    survivors_alike(s, k, q, a, b, scope, walked);
}

proof fn text_coll_alike<K: Kernel, L: Lexicon>(
    s: Store,
    k: K,
    l: L,
    c: Seq<char>,
    entries: Seq<(Seq<char>, crate::index::DocV)>,
    x: FtsQuery,
    y: FtsQuery,
    a: SearchOpts,
    b: SearchOpts,
)
    requires
        alike(a, b),
        x.clauses == y.clauses,
        x.combine == y.combine,
    ensures
        text_coll(s, k, l, c, entries, x, a) == text_coll(s, k, l, c, entries, y, b),
    decreases entries.len(),
{
    if entries.len() > 0 {
        text_coll_alike(s, k, l, c, entries.drop_last(), x, y, a, b);
    }
}

proof fn text_alike<K: Kernel, L: Lexicon>(
    s: Store,
    k: K,
    l: L,
    scope: Seq<Seq<char>>,
    x: FtsQuery,
    y: FtsQuery,
    a: SearchOpts,
    b: SearchOpts,
)
    requires
        alike(a, b),
        x.clauses == y.clauses,
        x.combine == y.combine,
    ensures
        text_all(s, k, l, scope, x, a) == text_all(s, k, l, scope, y, b),
    decreases scope.len(),
{
    if scope.len() > 0 {
        text_alike(s, k, l, scope.drop_last(), x, y, a, b);
        let c = scope.last();
        text_coll_alike(
            s,
            k,
            l,
            c,
            crate::dict::ordered(s.index@.collections[c].docs),
            x,
            y,
            a,
            b,
        );
    }
}

/// Each leg of a hybrid search is a search of its own: the plain one, under the same filter, for
/// as many results as the candidates asked for, or as the page reaches where that is more.
pub proof fn each_leg_is_a_search<K: Kernel, H: Host, L: Lexicon>(
    s: Store,
    k: K,
    h: H,
    l: L,
    scope: Seq<Seq<char>>,
    vector: Seq<u32>,
    query: FtsQuery,
    bare_query: FtsQuery,
    opts: HybridOpts,
    o: SearchOpts,
)
    requires
        opts.top_k > 0,
        plain(o, opts.filter, reach(opts)),
        bare_query.clauses == query.clauses,
        bare_query.combine == query.combine,
        bare_query.highlight is None,
    ensures
        vector_leg(s, k, h, scope, vector, opts).ranked == search_of(s, k, h, scope, vector, o),
        text_leg(s, k, l, scope, query, opts) == text_of(s, k, l, scope, bare_query, o),
{
    let n = o.top_k;
    let cols = s.index@.collections;
    assert(depth_of(o) == n) by (nonlinear_arith)
        requires
            depth_of(o) == times(plus(0, n), 1),
            n >= 1,
    ;
    assert(leg_opts(opts).top_k == n);
    outcome_alike(s, k, h, scope, query_of(s, k, vector), leg_opts(opts), o, n);
    let ranked = outcome(s, k, h, scope, query_of(s, k, vector), o, n).ranked;
    assert(ranked.len() <= n);
    assert(page(ranked, 0, n as int) =~= ranked);
    assert(expanded_all(cols, None, ranked) =~= ranked);
    text_alike(s, k, l, scope, query, bare_query, leg_opts(opts), o);
    let found = text_ranked(s, k, l, scope, bare_query, o, n);
    assert(found.len() <= n);
    assert(page(found, 0, n as int) =~= found);
    assert(expanded_all(cols, None, found) =~= found);
    assert(found.map_values(|x: HitV| crate::text::annotated(s, l, bare_query, false, x))
        =~= found);
}

/// A hybrid search shows a page of the fusion of two searches, each as deep as the candidates
/// asked for, or as the page reaches: document for document, at the fused scores.
pub proof fn a_hybrid_search_fuses_two_searches<K: Kernel, H: Host, L: Lexicon>(
    s: Store,
    k: K,
    h: H,
    l: L,
    scope: Seq<Seq<char>>,
    vector: Seq<u32>,
    query: FtsQuery,
    bare_query: FtsQuery,
    opts: HybridOpts,
    o: SearchOpts,
)
    requires
        opts.top_k > 0,
        plain(o, opts.filter, reach(opts)),
        bare_query.clauses == query.clauses,
        bare_query.combine == query.combine,
        bare_query.highlight is None,
    ensures
        ({
            let all = fused(
                k,
                opts,
                search_of(s, k, h, scope, vector, o),
                text_of(s, k, l, scope, bare_query, o),
            );
            let out = hybrid_of(s, k, h, l, scope, vector, query, opts);
            &&& out.len() == if all.len() <= opts.offset {
                0
            } else if all.len() - opts.offset <= opts.top_k {
                all.len() - opts.offset
            } else {
                opts.top_k as int
            }
            &&& forall|i: int|
                0 <= i < out.len() ==> (#[trigger] out[i]).collection == all[opts.offset
                    + i].hit.collection && out[i].id == all[opts.offset + i].hit.id && out[i].score
                    == all[opts.offset + i].hit.score && out[i].attrs == all[opts.offset
                    + i].hit.attrs
        }),
{
    each_leg_is_a_search(s, k, h, l, scope, vector, query, bare_query, opts, o);
    let all = fused(
        k,
        opts,
        search_of(s, k, h, scope, vector, o),
        text_of(s, k, l, scope, bare_query, o),
    );
    let f = |f: FusedV|
        crate::text::annotated(
            s,
            l,
            query,
            false,
            crate::hybrid::fused_hit(s, l, query, opts.explain, f),
        );
    let cut = page(all, opts.offset as int, opts.top_k as int);
    let shown = cut.map_values(f);
    crate::expand::expansion_keeps_the_ranking(s.index@.collections, opts.expand, shown);
    let out = hybrid_of(s, k, h, l, scope, vector, query, opts);
    assert(out == expanded_all(s.index@.collections, opts.expand, shown));
    assert forall|i: int| 0 <= i < out.len() implies (#[trigger] out[i]).collection == all[opts.offset
        + i].hit.collection && out[i].id == all[opts.offset + i].hit.id && out[i].score
        == all[opts.offset + i].hit.score && out[i].attrs == all[opts.offset + i].hit.attrs by {
        assert(cut[i] == all[opts.offset + i]);
        assert(shown[i] == f(cut[i]));
    }
}

/// A result of a hybrid search that explains itself tells its place and score in each leg, and the
/// clauses that score it where the text leg has it; one that does not, and cuts no highlights,
/// tells nothing.
pub proof fn a_hybrid_result_tells_its_places<K: Kernel, H: Host, L: Lexicon>(
    s: Store,
    k: K,
    h: H,
    l: L,
    scope: Seq<Seq<char>>,
    vector: Seq<u32>,
    query: FtsQuery,
    opts: HybridOpts,
    i: int,
)
    requires
        opts.top_k > 0,
        0 <= i < hybrid_of(s, k, h, l, scope, vector, query, opts).len(),
    ensures
        ({
            let all = fused(
                k,
                opts,
                vector_leg(s, k, h, scope, vector, opts).ranked,
                text_leg(s, k, l, scope, query, opts),
            );
            let x = all[opts.offset + i];
            let out = hybrid_of(s, k, h, l, scope, vector, query, opts)[i];
            &&& !opts.explain && query.highlight is None ==> out.annotations is None
            &&& opts.explain ==> {
                &&& out.annotations is Some
                &&& out.annotations->0.vector == x.vector
                &&& out.annotations->0.text == x.text
                &&& x.text is None ==> out.annotations->0.clauses.len() == 0
                &&& x.text is Some ==> out.annotations->0.clauses == crate::text::clause_report(
                    s,
                    l,
                    x.hit.collection,
                    query.clauses@,
                    x.hit.id,
                )
                &&& query.highlight is None ==> out.annotations->0.highlights.len() == 0
            }
            &&& query.highlight matches Some(cut) ==> out.annotations is Some
                && out.annotations->0.highlights == crate::text::highlights_of(
                s,
                l,
                x.hit.collection,
                query.clauses@,
                x.hit.id,
                cut,
            )
            &&& opts.expand is None ==> out.context is None || out.context == x.hit.context
        }),
{
    let all = fused(
        k,
        opts,
        vector_leg(s, k, h, scope, vector, opts).ranked,
        text_leg(s, k, l, scope, query, opts),
    );
    let f = |f: FusedV|
        crate::text::annotated(
            s,
            l,
            query,
            false,
            crate::hybrid::fused_hit(s, l, query, opts.explain, f),
        );
    let cut = page(all, opts.offset as int, opts.top_k as int);
    let shown = cut.map_values(f);
    crate::expand::expansion_keeps_the_ranking(s.index@.collections, opts.expand, shown);
    let out = hybrid_of(s, k, h, l, scope, vector, query, opts);
    assert(out == expanded_all(s.index@.collections, opts.expand, shown));
    assert(cut[i] == all[opts.offset + i]);
    assert(shown[i] == f(cut[i]));
    hit_of_a_leg_is_plain(
        k,
        opts,
        vector_leg(s, k, h, scope, vector, opts).ranked,
        text_leg(s, k, l, scope, query, opts),
        opts.offset + i,
    );
}

proof fn hit_of_a_leg_is_plain<K: Kernel>(
    k: K,
    opts: HybridOpts,
    vector: Seq<HitV>,
    text: Seq<HitV>,
    i: int,
)
    requires
        forall|j: int| 0 <= j < vector.len() ==> (#[trigger] vector[j]).annotations is None,
        forall|j: int| 0 <= j < text.len() ==> (#[trigger] text[j]).annotations is None,
        0 <= i < fused(k, opts, vector, text).len(),
    ensures
        fused(k, opts, vector, text)[i].hit.annotations is None,
{
    let v = fused_vector(k, opts, vector, text, vector.len());
    let t = fused_text(k, opts, vector, text, text.len());
    let loose = v + t;
    let all = fused(k, opts, vector, text);
    plain_vector_docs(k, opts, vector, text, vector.len());
    plain_text_docs(k, opts, vector, text, text.len());
    sorted_members(loose, fused_order());
    assert(all.contains(all[i]));
    let m = choose|m: int| 0 <= m < loose.len() && loose[m] == all[i];
    if m < v.len() {
        assert(loose[m] == v[m]);
    } else {
        assert(loose[m] == t[m - v.len()]);
    }
}

proof fn plain_vector_docs<K: Kernel>(
    k: K,
    opts: HybridOpts,
    vector: Seq<HitV>,
    text: Seq<HitV>,
    n: nat,
)
    requires
        n <= vector.len(),
        forall|j: int| 0 <= j < vector.len() ==> (#[trigger] vector[j]).annotations is None,
    ensures
        forall|j: int|
            0 <= j < fused_vector(k, opts, vector, text, n).len() ==> (#[trigger] fused_vector(
                k,
                opts,
                vector,
                text,
                n,
            )[j]).hit.annotations is None,
    decreases n,
{
    if n > 0 {
        plain_vector_docs(k, opts, vector, text, (n - 1) as nat);
        assert(vector[n - 1].annotations is None);
    }
}

proof fn plain_text_docs<K: Kernel>(
    k: K,
    opts: HybridOpts,
    vector: Seq<HitV>,
    text: Seq<HitV>,
    n: nat,
)
    requires
        n <= text.len(),
        forall|j: int| 0 <= j < text.len() ==> (#[trigger] text[j]).annotations is None,
    ensures
        forall|j: int|
            0 <= j < fused_text(k, opts, vector, text, n).len() ==> (#[trigger] fused_text(
                k,
                opts,
                vector,
                text,
                n,
            )[j]).hit.annotations is None,
    decreases n,
{
    if n > 0 {
        plain_text_docs(k, opts, vector, text, (n - 1) as nat);
        assert(text[n - 1].annotations is None);
    }
}

/// What a hybrid query is refused for, whatever it asks for: a vector of the wrong length, no
/// clause, or a weight that is not finite or is negative.
pub proof fn what_a_hybrid_query_is_refused_for(
    s: Store,
    vector: Seq<u32>,
    query: FtsQuery,
    opts: HybridOpts,
)
    ensures
        ({
            let refusal = crate::hybrid::hybrid_refusal(s, vector, query, opts);
            let fits = vector.len() == s.config.dimension;
            let asks = query.clauses@.len() > 0;
            let a = opts.vector_weight < 0x7f80_0000 || opts.vector_weight == 0x8000_0000;
            let b = opts.text_weight < 0x7f80_0000 || opts.text_weight == 0x8000_0000;
            &&& refusal is None <==> fits && asks && a && b
            &&& !fits && vector.len() <= usize::MAX ==> refusal == Some(
                StoreError::QueryLength { got: vector.len() as usize, want: s.config.dimension },
            )
            &&& fits && !asks ==> refusal == Some(StoreError::Query(QueryFault::NoClauses))
            &&& fits && asks && !a ==> refusal == Some(StoreError::Query(QueryFault::VectorWeight))
            &&& fits && asks && a && !b ==> refusal == Some(
                StoreError::Query(QueryFault::TextWeight),
            )
        }),
{
}

/// The first place of a document in a ranking is `r`.
pub open spec fn first_at(leg: Seq<HitV>, c: Seq<char>, id: Seq<char>, r: int) -> bool {
    &&& 0 <= r < leg.len()
    &&& leg[r].collection == c
    &&& leg[r].id == id
    &&& forall|j: int| 0 <= j < r ==> (#[trigger] leg[j]).collection != c || leg[j].id != id
}

/// The ranking does not have the document.
pub open spec fn nowhere(leg: Seq<HitV>, c: Seq<char>, id: Seq<char>) -> bool {
    forall|j: int| 0 <= j < leg.len() ==> (#[trigger] leg[j]).collection != c || leg[j].id != id
}

proof fn leg_rank_means(leg: Seq<HitV>, c: Seq<char>, id: Seq<char>)
    requires
        leg.len() <= usize::MAX,
    ensures
        leg_rank(leg, c, id) matches Some(r) ==> first_at(leg, c, id, r as int),
        leg_rank(leg, c, id) is None ==> nowhere(leg, c, id),
    decreases leg.len(),
{
    if leg.len() > 0 {
        let d = leg.drop_last();
        leg_rank_means(d, c, id);
        assert forall|j: int| 0 <= j < d.len() implies #[trigger] leg[j] == d[j] by {}
    }
}

/// What a fused document is: its score is what its first place in each leg that has it is worth,
/// weighted as that leg is, the vector leg's share before the text leg's; one that only one leg
/// has is carried by that leg alone. With it stand its place and its score in each leg.
pub open spec fn is_fusion_of<K: Kernel>(
    k: K,
    opts: HybridOpts,
    vector: Seq<HitV>,
    text: Seq<HitV>,
    x: FusedV,
) -> bool {
    let c = x.hit.collection;
    let id = x.hit.id;
    ||| exists|a: usize, b: usize|
        first_at(vector, c, id, a as int) && first_at(text, c, id, b as int) && x.hit.score
            == plus_of(
            k,
            #[trigger] reciprocal_of(k, opts.vector_weight, opts.rrf_k, a),
            #[trigger] reciprocal_of(k, opts.text_weight, opts.rrf_k, b),
        ) && x.hit.attrs == vector[a as int].attrs && x.vector == Some(
            LegScore { rank: a, score: vector[a as int].score },
        ) && x.text == Some(LegScore { rank: b, score: text[b as int].score })
    ||| exists|a: usize|
        first_at(vector, c, id, a as int) && nowhere(text, c, id) && x.hit.score
            == #[trigger] reciprocal_of(k, opts.vector_weight, opts.rrf_k, a) && x.hit.attrs
            == vector[a as int].attrs && x.vector == Some(
            LegScore { rank: a, score: vector[a as int].score },
        ) && x.text is None
    ||| exists|b: usize|
        nowhere(vector, c, id) && first_at(text, c, id, b as int) && x.hit.score
            == #[trigger] reciprocal_of(k, opts.text_weight, opts.rrf_k, b) && x.hit.attrs
            == text[b as int].attrs && x.vector is None && x.text == Some(
            LegScore { rank: b, score: text[b as int].score },
        )
}

proof fn a_fused_doc_is<K: Kernel>(
    k: K,
    opts: HybridOpts,
    vector: Seq<HitV>,
    text: Seq<HitV>,
    h: HitV,
    r: int,
)
    requires
        vector.len() <= usize::MAX,
        text.len() <= usize::MAX,
        first_at(vector, h.collection, h.id, r) && vector[r] == h || nowhere(
            vector,
            h.collection,
            h.id,
        ) && first_at(text, h.collection, h.id, r) && text[r] == h,
    ensures
        is_fusion_of(k, opts, vector, text, fused_doc(k, opts, vector, text, h)),
{
    leg_rank_means(vector, h.collection, h.id);
    leg_rank_means(text, h.collection, h.id);
    let c = h.collection;
    let id = h.id;
    let v = leg_rank(vector, c, id);
    let t = leg_rank(text, c, id);
    if v is Some {
        let a = v->0;
        assert(vector[a as int].collection == c);
        if first_at(vector, c, id, r) {
            assert(r == a) by {
                if r < a {
                    assert(vector[r].collection == c);
                } else if (a as int) < r {
                    assert(vector[a as int].id == id);
                }
            }
        }
        if t is Some {
            let b = t->0;
            assert(fused_doc(k, opts, vector, text, h).hit.score == plus_of(
                k,
                reciprocal_of(k, opts.vector_weight, opts.rrf_k, a),
                reciprocal_of(k, opts.text_weight, opts.rrf_k, b),
            ));
        } else {
            assert(fused_doc(k, opts, vector, text, h).hit.score == reciprocal_of(
                k,
                opts.vector_weight,
                opts.rrf_k,
                a,
            ));
        }
    } else {
        if first_at(vector, c, id, r) {
            assert(vector[r].collection == c);
        }
        let b = t->0;
        if t is None {
            assert(text[r].collection == c);
        } else {
            assert(r == b) by {
                if r < b {
                    assert(text[r].collection == c);
                } else if (b as int) < r {
                    assert(text[b as int].id == id);
                }
            }
        }
        assert(fused_doc(k, opts, vector, text, h).hit.score == reciprocal_of(
            k,
            opts.text_weight,
            opts.rrf_k,
            b,
        ));
    }
}

proof fn vector_docs_are<K: Kernel>(
    k: K,
    opts: HybridOpts,
    vector: Seq<HitV>,
    text: Seq<HitV>,
    n: nat,
)
    requires
        vector.len() <= usize::MAX,
        text.len() <= usize::MAX,
        n <= vector.len(),
    ensures
        ({
            let all = fused_vector(k, opts, vector, text, n);
            &&& forall|i: int|
                0 <= i < all.len() ==> is_fusion_of(k, opts, vector, text, #[trigger] all[i])
                    && exists|r: int|
                    0 <= r < n && #[trigger] first_at(
                        vector,
                        all[i].hit.collection,
                        all[i].hit.id,
                        r,
                    )
            &&& forall|i: int, j: int|
                0 <= i < j < all.len() ==> (#[trigger] all[i]).hit.collection != (
                #[trigger] all[j]).hit.collection || all[i].hit.id != all[j].hit.id
        }),
    decreases n,
{
    if n > 0 {
        vector_docs_are(k, opts, vector, text, (n - 1) as nat);
        let h = vector[n - 1];
        let rest = fused_vector(k, opts, vector, text, (n - 1) as nat);
        let all = fused_vector(k, opts, vector, text, n);
        leg_rank_means(vector, h.collection, h.id);
        if leg_rank(vector, h.collection, h.id) == Some((n - 1) as usize) {
            a_fused_doc_is(k, opts, vector, text, h, n - 1);
            assert(first_at(vector, h.collection, h.id, n - 1));
            assert forall|i: int, j: int| 0 <= i < j < all.len() implies (
            #[trigger] all[i]).hit.collection != (#[trigger] all[j]).hit.collection
                || all[i].hit.id != all[j].hit.id by {
                assert(all[i] == rest[i]);
                if j < rest.len() {
                    assert(all[j] == rest[j]);
                } else {
                    let r = choose|r: int|
                        0 <= r < n - 1 && #[trigger] first_at(
                            vector,
                            rest[i].hit.collection,
                            rest[i].hit.id,
                            r,
                        );
                    assert(vector[r].collection != h.collection || vector[r].id != h.id);
                }
            }
            assert forall|i: int| 0 <= i < all.len() implies is_fusion_of(
                k,
                opts,
                vector,
                text,
                #[trigger] all[i],
            ) && exists|r: int|
                0 <= r < n && #[trigger] first_at(
                    vector,
                    all[i].hit.collection,
                    all[i].hit.id,
                    r,
                ) by {
                if i < rest.len() {
                    assert(all[i] == rest[i]);
                    let r = choose|r: int|
                        0 <= r < n - 1 && #[trigger] first_at(
                            vector,
                            rest[i].hit.collection,
                            rest[i].hit.id,
                            r,
                        );
                    assert(first_at(vector, all[i].hit.collection, all[i].hit.id, r));
                }
            }
        } else {
            assert forall|i: int| 0 <= i < all.len() implies exists|r: int|
                0 <= r < n && #[trigger] first_at(
                    vector,
                    (#[trigger] all[i]).hit.collection,
                    all[i].hit.id,
                    r,
                ) by {
                let r = choose|r: int|
                    0 <= r < n - 1 && #[trigger] first_at(
                        vector,
                        rest[i].hit.collection,
                        rest[i].hit.id,
                        r,
                    );
                assert(first_at(vector, all[i].hit.collection, all[i].hit.id, r));
            }
        }
    }
}

proof fn text_docs_are<K: Kernel>(
    k: K,
    opts: HybridOpts,
    vector: Seq<HitV>,
    text: Seq<HitV>,
    n: nat,
)
    requires
        vector.len() <= usize::MAX,
        text.len() <= usize::MAX,
        n <= text.len(),
    ensures
        ({
            let all = fused_text(k, opts, vector, text, n);
            &&& forall|i: int|
                0 <= i < all.len() ==> is_fusion_of(k, opts, vector, text, #[trigger] all[i])
                    && nowhere(vector, all[i].hit.collection, all[i].hit.id) && exists|r: int|
                    0 <= r < n && #[trigger] first_at(
                        text,
                        all[i].hit.collection,
                        all[i].hit.id,
                        r,
                    )
            &&& forall|i: int, j: int|
                0 <= i < j < all.len() ==> (#[trigger] all[i]).hit.collection != (
                #[trigger] all[j]).hit.collection || all[i].hit.id != all[j].hit.id
        }),
    decreases n,
{
    if n > 0 {
        text_docs_are(k, opts, vector, text, (n - 1) as nat);
        let h = text[n - 1];
        let rest = fused_text(k, opts, vector, text, (n - 1) as nat);
        let all = fused_text(k, opts, vector, text, n);
        leg_rank_means(vector, h.collection, h.id);
        leg_rank_means(text, h.collection, h.id);
        let added = leg_rank(vector, h.collection, h.id) is None && leg_rank(
            text,
            h.collection,
            h.id,
        ) == Some((n - 1) as usize);
        if added {
            a_fused_doc_is(k, opts, vector, text, h, n - 1);
            assert(first_at(text, h.collection, h.id, n - 1));
        }
        assert forall|i: int, j: int| 0 <= i < j < all.len() implies (
        #[trigger] all[i]).hit.collection != (#[trigger] all[j]).hit.collection || all[i].hit.id
            != all[j].hit.id by {
            assert(all[i] == rest[i]);
            if j < rest.len() {
                assert(all[j] == rest[j]);
            } else {
                let r = choose|r: int|
                    0 <= r < n - 1 && #[trigger] first_at(
                        text,
                        rest[i].hit.collection,
                        rest[i].hit.id,
                        r,
                    );
                assert(text[r].collection != h.collection || text[r].id != h.id);
            }
        }
        assert forall|i: int| 0 <= i < all.len() implies is_fusion_of(
            k,
            opts,
            vector,
            text,
            #[trigger] all[i],
        ) && nowhere(vector, all[i].hit.collection, all[i].hit.id) && exists|r: int|
            0 <= r < n && #[trigger] first_at(text, all[i].hit.collection, all[i].hit.id, r) by {
            if i < rest.len() {
                assert(all[i] == rest[i]);
                let r = choose|r: int|
                    0 <= r < n - 1 && #[trigger] first_at(
                        text,
                        rest[i].hit.collection,
                        rest[i].hit.id,
                        r,
                    );
                assert(first_at(text, all[i].hit.collection, all[i].hit.id, r));
            }
        }
    }
}

/// Two results of different documents stand in their order: the larger score first, and of equal
/// scores the smaller collection, and then the smaller id.
pub open spec fn goes_before(a: HitV, b: HitV) -> bool {
    &&& a.collection != b.collection || a.id != b.id
    &&& bits::ahead(a.score, b.score) || (bits::level(a.score, b.score) && (lex_lt(
        a.collection,
        b.collection,
    ) || (a.collection == b.collection && lex_lt(a.id, b.id))))
}

/// The fusion of two rankings holds each document of either exactly once, at the score that its
/// first places in them add up to, the best first and equal scores by collection and id.
pub proof fn fusion_adds_up_the_places<K: Kernel>(
    k: K,
    opts: HybridOpts,
    vector: Seq<HitV>,
    text: Seq<HitV>,
)
    requires
        vector.len() <= usize::MAX,
        text.len() <= usize::MAX,
    ensures
        ({
            let all = fused(k, opts, vector, text);
            &&& forall|i: int|
                0 <= i < all.len() ==> is_fusion_of(k, opts, vector, text, #[trigger] all[i])
            &&& forall|h: HitV| #[trigger]
                vector.contains(h) ==> is_fused(all, h.collection, h.id)
            &&& forall|h: HitV| #[trigger] text.contains(h) ==> is_fused(all, h.collection, h.id)
            &&& forall|i: int, j: int|
                0 <= i < j < all.len() ==> goes_before(
                    (#[trigger] all[i]).hit,
                    (#[trigger] all[j]).hit,
                )
        }),
{
    let v = fused_vector(k, opts, vector, text, vector.len());
    let t = fused_text(k, opts, vector, text, text.len());
    let loose = v + t;
    let all = fused(k, opts, vector, text);
    vector_docs_are(k, opts, vector, text, vector.len());
    text_docs_are(k, opts, vector, text, text.len());
    assert(loose.len() == v.len() + t.len());
    assert forall|i: int| 0 <= i < loose.len() implies is_fusion_of(
        k,
        opts,
        vector,
        text,
        #[trigger] loose[i],
    ) by {
        if i < v.len() {
            assert(loose[i] == v[i]);
        } else {
            assert(loose[i] == t[i - v.len()]);
        }
    }
    assert forall|i: int, j: int| 0 <= i < j < loose.len() implies (
    #[trigger] loose[i]).hit.collection != (#[trigger] loose[j]).hit.collection || loose[i].hit.id
        != loose[j].hit.id by {
        if j < v.len() {
            assert(loose[i] == v[i] && loose[j] == v[j]);
        } else if i >= v.len() {
            assert(loose[i] == t[i - v.len()] && loose[j] == t[j - v.len()]);
        } else {
            assert(loose[i] == v[i] && loose[j] == t[j - v.len()]);
            let r = choose|r: int|
                0 <= r < vector.len() && #[trigger] first_at(
                    vector,
                    v[i].hit.collection,
                    v[i].hit.id,
                    r,
                );
            assert(vector[r].collection == v[i].hit.collection);
        }
    }
    sorted_members(loose, fused_order());
    assert forall|i: int| 0 <= i < all.len() implies is_fusion_of(
        k,
        opts,
        vector,
        text,
        #[trigger] all[i],
    ) by {
        assert(all.contains(all[i]));
        assert(loose.contains(all[i]));
        let m = choose|m: int| 0 <= m < loose.len() && loose[m] == all[i];
        assert(is_fusion_of(k, opts, vector, text, loose[m]));
    }
    assert forall|h: HitV| #[trigger] vector.contains(h) implies is_fused(
        all,
        h.collection,
        h.id,
    ) by {
        crate::hybrid::fusion_loses_nothing(k, opts, vector, text, h);
    }
    assert forall|h: HitV| #[trigger] text.contains(h) implies is_fused(
        all,
        h.collection,
        h.id,
    ) by {
        crate::hybrid::fusion_loses_nothing(k, opts, vector, text, h);
    }
    fused_is_in_order(loose);
    assert forall|i: int, j: int| 0 <= i < j < all.len() implies goes_before(
        (#[trigger] all[i]).hit,
        (#[trigger] all[j]).hit,
    ) by {
        let a = crate::rerank::as_scored(all[i].hit);
        let b = crate::rerank::as_scored(all[j].hit);
        crate::rank::ranking_is_total(a, b);
        assert(!fused_order()(all[j], all[i]));
    }
}

proof fn fused_is_in_order(loose: Seq<FusedV>)
    requires
        forall|i: int, j: int|
            0 <= i < j < loose.len() ==> (#[trigger] loose[i]).hit.collection != (
            #[trigger] loose[j]).hit.collection || loose[i].hit.id != loose[j].hit.id,
    ensures
        ({
            let all = crate::order::sorted(loose, fused_order());
            forall|i: int, j: int|
                0 <= i < j < all.len() ==> !fused_order()(#[trigger] all[j], #[trigger] all[i]) && (
                all[i].hit.collection != all[j].hit.collection || all[i].hit.id != all[j].hit.id)
        }),
{
    crate::rank::ranking_is_order();
    let lt = fused_order();
    assert(crate::order::weak_order(lt)) by {
        assert forall|x: FusedV, y: FusedV| #[trigger] lt(x, y) implies !lt(y, x) by {
            let f = crate::rank::ranking();
            assert(f(crate::rerank::as_scored(x.hit), crate::rerank::as_scored(y.hit)));
        }
        assert forall|x: FusedV, y: FusedV, z: FusedV| lt(x, z) implies #[trigger] lt(x, y)
            || #[trigger] lt(y, z) by {
            let f = crate::rank::ranking();
            let a = crate::rerank::as_scored(x.hit);
            let b = crate::rerank::as_scored(y.hit);
            let c = crate::rerank::as_scored(z.hit);
            assert(f(a, c));
            assert(f(a, b) || f(b, c));
        }
    }
    crate::order::sorted_ordered(loose, lt);
    crate::order::sorted_permutes(loose, lt);
    let all = crate::order::sorted(loose, lt);
    assert(all.len() == loose.len()) by {
        crate::order::sorted_len(loose, lt);
    }
    assert forall|i: int, j: int| 0 <= i < j < all.len() implies all[i].hit.collection
        != all[j].hit.collection || all[i].hit.id != all[j].hit.id by {
        no_twins(loose, all, i, j);
    }
}

/// A permutation of documents that differ names no document twice.
proof fn no_twins(loose: Seq<FusedV>, all: Seq<FusedV>, i: int, j: int)
    requires
        all.to_multiset() == loose.to_multiset(),
        0 <= i < j < all.len(),
        forall|a: int, b: int|
            0 <= a < b < loose.len() ==> (#[trigger] loose[a]).hit.collection != (
            #[trigger] loose[b]).hit.collection || loose[a].hit.id != loose[b].hit.id,
    ensures
        all[i].hit.collection != all[j].hit.collection || all[i].hit.id != all[j].hit.id,
{
    broadcast use vstd::seq_lib::group_to_multiset_ensures;

    all.to_multiset_ensures();
    loose.to_multiset_ensures();
    assert(all.contains(all[i]) && all.contains(all[j]));
    assert(all.to_multiset().count(all[i]) > 0 && all.to_multiset().count(all[j]) > 0);
    assert(loose.contains(all[i]) && loose.contains(all[j]));
    let a = choose|a: int| 0 <= a < loose.len() && loose[a] == all[i];
    let b = choose|b: int| 0 <= b < loose.len() && loose[b] == all[j];
    if a < b {
        assert(loose[a].hit.collection != loose[b].hit.collection || loose[a].hit.id
            != loose[b].hit.id);
    } else if b < a {
        assert(loose[b].hit.collection != loose[a].hit.collection || loose[b].hit.id
            != loose[a].hit.id);
    } else if all[i] == all[j] {
        // One document twice in the permutation, once in what was permuted.
        let x = all[i];
        let fewer = all.remove(j);
        assert(fewer[i] == x);
        assert(fewer.contains(x));
        assert(fewer.to_multiset().count(x) > 0);
        assert(all.to_multiset().count(x) >= 2);
        let rest = loose.remove(a);
        assert(rest.to_multiset().count(x) > 0);
        assert(rest.contains(x));
        let m = choose|m: int| 0 <= m < rest.len() && rest[m] == x;
        if m < a {
            assert(loose[m] == x);
        } else {
            assert(loose[m + 1] == x);
        }
    }
}

/// Every document among the first candidates of a text ranking, however deep that ranking goes,
/// is among the fused ones, whatever the page is.
pub proof fn the_first_text_candidates_are_fused<K: Kernel, H: Host, L: Lexicon>(
    s: Store,
    k: K,
    h: H,
    l: L,
    scope: Seq<Seq<char>>,
    vector: Seq<u32>,
    query: FtsQuery,
    bare_query: FtsQuery,
    opts: HybridOpts,
    full: SearchOpts,
    r: int,
)
    requires
        opts.top_k > 0,
        plain(full, opts.filter, full.top_k as int),
        bare_query.clauses == query.clauses,
        bare_query.combine == query.combine,
        bare_query.highlight is None,
        0 <= r < text_of(s, k, l, scope, bare_query, full).len(),
        r < opts.candidates || r < opts.offset + opts.top_k,
        r < usize::MAX,
    ensures
        ({
            let x = text_of(s, k, l, scope, bare_query, full)[r];
            is_fused(
                fused(
                    k,
                    opts,
                    vector_leg(s, k, h, scope, vector, opts).ranked,
                    text_leg(s, k, l, scope, query, opts),
                ),
                x.collection,
                x.id,
            ) && text_leg(s, k, l, scope, query, opts)[r] == x
        }),
{
    let n = reach(opts) as usize;
    let o = SearchOpts { top_k: n, ..full };
    each_leg_is_a_search(s, k, h, l, scope, vector, query, bare_query, opts, o);
    let deep = text_of(s, k, l, scope, bare_query, full);
    let leg = text_leg(s, k, l, scope, query, opts);
    text_alike(s, k, l, scope, bare_query, bare_query, o, full);
    plain_text(s, k, l, scope, bare_query, o);
    if full.top_k > 0 {
        plain_text(s, k, l, scope, bare_query, full);
    }
    assert(leg[r] == deep[r]);
    assert(leg.contains(leg[r]));
    crate::hybrid::fusion_loses_nothing(
        k,
        opts,
        vector_leg(s, k, h, scope, vector, opts).ranked,
        leg,
        leg[r],
    );
}

proof fn plain_text<K: Kernel, L: Lexicon>(
    s: Store,
    k: K,
    l: L,
    scope: Seq<Seq<char>>,
    query: FtsQuery,
    o: SearchOpts,
)
    requires
        plain(o, o.filter, o.top_k as int),
        o.top_k > 0,
        query.highlight is None,
    ensures
        text_of(s, k, l, scope, query, o) == text_ranked(s, k, l, scope, query, o, o.top_k),
        text_of(s, k, l, scope, query, o).len() <= o.top_k,
{
    let n = o.top_k;
    assert(depth_of(o) == n) by (nonlinear_arith)
        requires
            depth_of(o) == times(plus(0, n), 1),
            n >= 1,
    ;
    let found = text_ranked(s, k, l, scope, query, o, n);
    assert(found.len() <= n);
    assert(page(found, 0, n as int) =~= found);
    assert(expanded_all(s.index@.collections, None, found) =~= found);
    assert(found.map_values(|x: HitV| crate::text::annotated(s, l, query, false, x)) =~= found);
}

/// Every document among the first candidates of an exhaustive vector ranking, however deep that
/// ranking goes, is among the fused ones, whatever the page is.
pub proof fn the_first_vector_candidates_are_fused<K: Kernel, H: Host, L: Lexicon>(
    s: Store,
    k: K,
    h: H,
    l: L,
    scope: Seq<Seq<char>>,
    vector: Seq<u32>,
    query: FtsQuery,
    opts: HybridOpts,
    full: SearchOpts,
    r: int,
)
    requires
        opts.top_k > 0,
        !s.ann,
        !segmented(s),
        !quantizing(s),
        plain(full, opts.filter, full.top_k as int),
        0 <= r < search_of(s, k, h, scope, vector, full).len(),
        r < opts.candidates || r < opts.offset + opts.top_k,
        r < usize::MAX,
    ensures
        ({
            let x = search_of(s, k, h, scope, vector, full)[r];
            is_fused(
                fused(
                    k,
                    opts,
                    vector_leg(s, k, h, scope, vector, opts).ranked,
                    text_leg(s, k, l, scope, query, opts),
                ),
                x.collection,
                x.id,
            ) && vector_leg(s, k, h, scope, vector, opts).ranked[r] == x
        }),
{
    let n = reach(opts) as usize;
    let q = query_of(s, k, vector);
    let o = SearchOpts { top_k: n, ..full };
    outcome_alike(s, k, h, scope, q, leg_opts(opts), o, n);
    outcome_alike(s, k, h, scope, q, full, o, full.top_k);
    let m = full.top_k;
    if m > 0 {
        assert(depth_of(full) == m) by (nonlinear_arith)
            requires
                depth_of(full) == times(plus(0, m), 1),
                m >= 1,
        ;
    }
    let deep = outcome(s, k, h, scope, q, full, depth_of(full)).ranked;
    let shown = search_of(s, k, h, scope, vector, full);
    assert(expanded_all(s.index@.collections, None, page(deep, 0, m as int)) =~= page(
        deep,
        0,
        m as int,
    ));
    assert(shown[r] == deep[r]);
    let leg = vector_leg(s, k, h, scope, vector, opts).ranked;
    let scan = stage(s, h, scope, opts.filter).1;
    scored_alike(s, k, q, leg_opts(opts), full, scan);
    assert(leg[r] == deep[r]);
    assert(leg.contains(leg[r]));
    crate::hybrid::fusion_loses_nothing(
        k,
        opts,
        leg,
        text_leg(s, k, l, scope, query, opts),
        leg[r],
    );
}

} // verus!
