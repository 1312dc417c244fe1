//! What a text search finds and shows.

use vstd::prelude::*;

use crate::index::DocV;
use crate::kernel::{adjust_of, Kernel};
use crate::lexicon::{analyze_of, expand_of, passages_of, scores_of, split_of, Lexicon};
use crate::model::{
    project, ClauseScoreV, Expansion, HighlightOpts, HighlightV, HitV, RankBy, SearchOpts,
};
use crate::order::top;
use crate::rank::{clears, depth_of, page, plus, ranking, terms, times, ScoredV};
use crate::scan::listable;
use crate::store::Store;
use crate::text::{
    annotated, clause_report, clause_score, clause_terms, combined, declares, highlights_of,
    per_clause, score_in, text_all, text_coll, text_of, text_ranked, FtsClause, FtsQuery,
};
use crate::value::passes;

verus! {

/// What the combined score of a record's clauses is, less what a ranking expression takes off.
pub open spec fn true_text_score<K: Kernel, L: Lexicon>(
    s: Store,
    k: K,
    l: L,
    query: FtsQuery,
    rank_by: Option<RankBy>,
    c: Seq<char>,
    id: Seq<char>,
) -> u32 {
    let scores = Seq::new(
        query.clauses@.len(),
        |i: int| clause_score(s, l, c, query.clauses@[i], id),
    );
    let base = combined(k, query.combine, scores);
    match rank_by {
        None => base,
        Some(RankBy::Decay(d)) => adjust_of(
            k,
            d,
            base,
            terms(d, s.index@.collections[c].docs[id].attrs),
        ),
    }
}

/// A record that a text query can find: in a collection of the scope, scored by at least one
/// clause, admitted by the filter, and not below the floor.
pub open spec fn text_findable<K: Kernel, L: Lexicon>(
    s: Store,
    k: K,
    l: L,
    scope: Seq<Seq<char>>,
    query: FtsQuery,
    opts: SearchOpts,
    c: Seq<char>,
    id: Seq<char>,
) -> bool {
    &&& scope.contains(c)
    &&& s.index@.collections.contains_key(c)
    &&& s.index@.collections[c].docs.contains_key(id)
    &&& exists|i: int|
        0 <= i < query.clauses@.len() && clause_score(
            s,
            l,
            c,
            #[trigger] query.clauses@[i],
            id,
        ) is Some
    &&& passes(opts.filter, s.index@.collections[c].docs[id].attrs)
    &&& clears(opts.min_score, true_text_score(s, k, l, query, opts.rank_by, c, id))
}

proof fn what_a_collection_offers<K: Kernel, L: Lexicon>(
    s: Store,
    k: K,
    l: L,
    c: Seq<char>,
    entries: Seq<(Seq<char>, DocV)>,
    query: FtsQuery,
    opts: SearchOpts,
    y: ScoredV,
)
    requires
        s.index@.collections.contains_key(c),
        forall|i: int|
            0 <= i < entries.len() ==> s.index@.collections[c].docs.contains_key(
                (#[trigger] entries[i]).0,
            ) && s.index@.collections[c].docs[entries[i].0] == entries[i].1,
    ensures
        text_coll(s, k, l, c, entries, query, opts).contains(y) <==> y.collection == c && exists|
            i: int,
        |
            0 <= i < entries.len() && (#[trigger] entries[i]).0 == y.id && text_findable(
                s,
                k,
                l,
                seq![c],
                query,
                opts,
                c,
                y.id,
            ) && y.score == true_text_score(s, k, l, query, opts.rank_by, c, y.id),
    decreases entries.len(),
{
    if entries.len() > 0 {
        let d = entries.drop_last();
        assert forall|i: int| 0 <= i < d.len() implies #[trigger] d[i] == entries[i] by {}
        what_a_collection_offers(s, k, l, c, d, query, opts, y);
        let rest = text_coll(s, k, l, c, d, query, opts);
        let all = text_coll(s, k, l, c, entries, query, opts);
        let n = entries.len() - 1;
        assert(entries[n] == entries.last());
        let (id, doc) = entries.last();
        let scores = per_clause(s, l, c, query.clauses@, id);
        assert(scores =~= Seq::new(
            query.clauses@.len(),
            |i: int| clause_score(s, l, c, query.clauses@[i], id),
        ));
        if crate::text::any_score(scores) {
            let i = choose|i: int| 0 <= i < scores.len() && (#[trigger] scores[i]) is Some;
            assert(clause_score(s, l, c, query.clauses@[i], id) is Some);
        }
        if exists|i: int|
            0 <= i < query.clauses@.len() && clause_score(
                s,
                l,
                c,
                #[trigger] query.clauses@[i],
                id,
            ) is Some {
            let i = choose|i: int|
                0 <= i < query.clauses@.len() && clause_score(
                    s,
                    l,
                    c,
                    #[trigger] query.clauses@[i],
                    id,
                ) is Some;
            assert(scores[i] is Some);
        }
        assert(seq![c].contains(c)) by {
            assert(seq![c][0] == c);
        }
        let offered = all.len() > rest.len();
        assert(offered == text_findable(s, k, l, seq![c], query, opts, c, id));
        if all.contains(y) {
            let i = choose|i: int| 0 <= i < all.len() && all[i] == y;
            if i < rest.len() {
                assert(rest[i] == y);
                let m = choose|m: int|
                    0 <= m < d.len() && (#[trigger] d[m]).0 == y.id && text_findable(
                        s,
                        k,
                        l,
                        seq![c],
                        query,
                        opts,
                        c,
                        y.id,
                    ) && y.score == true_text_score(s, k, l, query, opts.rank_by, c, y.id);
                assert(entries[m].0 == y.id);
            } else {
                assert(entries[n].0 == y.id);
            }
        }
        if y.collection == c && exists|i: int|
            0 <= i < entries.len() && (#[trigger] entries[i]).0 == y.id && text_findable(
                s,
                k,
                l,
                seq![c],
                query,
                opts,
                c,
                y.id,
            ) && y.score == true_text_score(s, k, l, query, opts.rank_by, c, y.id) {
            let m = choose|m: int|
                0 <= m < entries.len() && (#[trigger] entries[m]).0 == y.id && text_findable(
                    s,
                    k,
                    l,
                    seq![c],
                    query,
                    opts,
                    c,
                    y.id,
                ) && y.score == true_text_score(s, k, l, query, opts.rank_by, c, y.id);
            if m < n {
                assert(d[m].0 == y.id);
                assert(rest.contains(y));
                let i = choose|i: int| 0 <= i < rest.len() && rest[i] == y;
                assert(all[i] == y);
            } else {
                assert(all[all.len() - 1] == y);
            }
        }
    }
}

proof fn what_a_scope_offers<K: Kernel, L: Lexicon>(
    s: Store,
    k: K,
    l: L,
    scope: Seq<Seq<char>>,
    query: FtsQuery,
    opts: SearchOpts,
    y: ScoredV,
)
    requires
        listable(s.index@.collections),
    ensures
        text_all(s, k, l, scope, query, opts).contains(y) <==> text_findable(
            s,
            k,
            l,
            scope,
            query,
            opts,
            y.collection,
            y.id,
        ) && y.score == true_text_score(s, k, l, query, opts.rank_by, y.collection, y.id),
    decreases scope.len(),
{
    let cols = s.index@.collections;
    if scope.len() > 0 {
        let d = scope.drop_last();
        what_a_scope_offers(s, k, l, d, query, opts, y);
        let c = scope.last();
        let rest = text_all(s, k, l, d, query, opts);
        let all = text_all(s, k, l, scope, query, opts);
        assert(scope[scope.len() - 1] == c);
        if d.contains(y.collection) {
            let i = choose|i: int| 0 <= i < d.len() && d[i] == y.collection;
            assert(scope[i] == y.collection);
        }
        if scope.contains(y.collection) && y.collection != c {
            let i = choose|i: int| 0 <= i < scope.len() && scope[i] == y.collection;
            assert(d[i] == y.collection);
        }
        if cols.contains_key(c) {
            let e = crate::dict::ordered(cols[c].docs);
            let own = text_coll(s, k, l, c, e, query, opts);
            assert forall|i: int| 0 <= i < e.len() implies cols[c].docs.contains_key(
                (#[trigger] e[i]).0,
            ) && cols[c].docs[e[i].0] == e[i].1 by {
                crate::dict::to_map_at(e, i);
            }
            what_a_collection_offers(s, k, l, c, e, query, opts, y);
            assert(seq![c].contains(c)) by {
                assert(seq![c][0] == c);
            }
            if all.contains(y) {
                let i = choose|i: int| 0 <= i < all.len() && all[i] == y;
                if i < rest.len() {
                    assert(rest[i] == y);
                } else {
                    assert(own[i - rest.len()] == y);
                }
            }
            if rest.contains(y) {
                let i = choose|i: int| 0 <= i < rest.len() && rest[i] == y;
                assert(all[i] == y);
            }
            if own.contains(y) {
                let i = choose|i: int| 0 <= i < own.len() && own[i] == y;
                assert(all[rest.len() + i] == y);
            }
            if y.collection == c && cols[c].docs.contains_key(y.id) {
                assert(crate::dict::to_map(e).contains_key(y.id));
                let i = choose|i: int| 0 <= i < e.len() && (#[trigger] e[i]).0 == y.id;
                assert(e[i].0 == y.id);
            }
        }
    }
}

/// A text search, nothing thinned or spread, finds the best: every result is a record that the
/// query can find, at the combined score of its clauses, and a record that it can find is among
/// the results unless they are full and it goes before none of them.
pub proof fn a_text_search_finds_the_best<K: Kernel, L: Lexicon>(
    s: Store,
    k: K,
    l: L,
    scope: Seq<Seq<char>>,
    query: FtsQuery,
    opts: SearchOpts,
    c: Seq<char>,
    id: Seq<char>,
)
    requires
        listable(s.index@.collections),
        opts.limit_per is None,
        opts.diversity is None,
        opts.expand is None,
        opts.offset == 0,
        opts.top_k > 0,
    ensures
        ({
            let out = text_of(s, k, l, scope, query, opts);
            &&& out.len() <= opts.top_k
            &&& forall|i: int|
                0 <= i < out.len() ==> text_findable(
                    s,
                    k,
                    l,
                    scope,
                    query,
                    opts,
                    (#[trigger] out[i]).collection,
                    out[i].id,
                ) && out[i].score == true_text_score(
                    s,
                    k,
                    l,
                    query,
                    opts.rank_by,
                    out[i].collection,
                    out[i].id,
                ) && out[i].attrs == project(
                    opts.projection,
                    s.index@.collections[out[i].collection].docs[out[i].id].attrs,
                )
            &&& text_findable(s, k, l, scope, query, opts, c, id) ==> (exists|i: int|
                0 <= i < out.len() && (#[trigger] out[i]).collection == c && out[i].id == id) || (
            out.len() == opts.top_k && forall|i: int|
                0 <= i < out.len() ==> !crate::rank::before(
                    ScoredV {
                        score: true_text_score(s, k, l, query, opts.rank_by, c, id),
                        collection: c,
                        id,
                    },
                    ScoredV {
                        score: (#[trigger] out[i]).score,
                        collection: out[i].collection,
                        id: out[i].id,
                    },
                ))
            &&& forall|i: int, j: int|
                0 <= i < j < out.len() ==> !crate::rank::before(
                    ScoredV {
                        score: (#[trigger] out[j]).score,
                        collection: out[j].collection,
                        id: out[j].id,
                    },
                    ScoredV {
                        score: (#[trigger] out[i]).score,
                        collection: out[i].collection,
                        id: out[i].id,
                    },
                )
        }),
{
    let cols = s.index@.collections;
    let n = opts.top_k;
    assert(depth_of(opts) == n) by (nonlinear_arith)
        requires
            depth_of(opts) == times(plus(0, n), 1),
            n >= 0,
    ;
    let all = text_all(s, k, l, scope, query, opts);
    let kept = top(all, n as int, ranking());
    let ranked = text_ranked(s, k, l, scope, query, opts, n);
    let out = text_of(s, k, l, scope, query, opts);
    assert(ranked.len() == kept.len());
    assert(page(ranked, 0, n as int) =~= ranked);
    assert(crate::expand::expanded_all(cols, None, ranked) =~= ranked);
    assert(out.len() == ranked.len());
    crate::order::top_members(all, n as int, ranking());
    crate::rank::top_is_ordered(all, n as int);
    assert forall|i: int| 0 <= i < out.len() implies kept[i] == (ScoredV {
        score: (#[trigger] out[i]).score,
        collection: out[i].collection,
        id: out[i].id,
    }) && out[i].attrs == ranked[i].attrs by {
        assert(out[i] == annotated(s, l, query, opts.explain, ranked[i]));
    }
    assert forall|i: int| 0 <= i < out.len() implies text_findable(
        s,
        k,
        l,
        scope,
        query,
        opts,
        (#[trigger] out[i]).collection,
        out[i].id,
    ) && out[i].score == true_text_score(
        s,
        k,
        l,
        query,
        opts.rank_by,
        out[i].collection,
        out[i].id,
    ) && out[i].attrs == project(
        opts.projection,
        s.index@.collections[out[i].collection].docs[out[i].id].attrs,
    ) by {
        assert(kept.contains(kept[i]));
        what_a_scope_offers(s, k, l, scope, query, opts, kept[i]);
    }
    if text_findable(s, k, l, scope, query, opts, c, id) {
        let y = ScoredV {
            score: true_text_score(s, k, l, query, opts.rank_by, c, id),
            collection: c,
            id,
        };
        what_a_scope_offers(s, k, l, scope, query, opts, y);
        if kept.contains(y) {
            let i = choose|i: int| 0 <= i < kept.len() && kept[i] == y;
            assert(out[i].collection == c && out[i].id == id);
        } else {
            crate::rank::nothing_better_is_left_out(all, n as int, y);
        }
    }
}

/// A clause scores nothing where the collection does not index its field, and otherwise what the
/// index gives the record for the clause's terms: those that its text is analysed to, and under a
/// prefix clause its whole words and every word that its last fragment begins.
pub proof fn what_a_clause_scores<L: Lexicon>(
    s: Store,
    l: L,
    c: Seq<char>,
    clause: FtsClause,
    id: Seq<char>,
)
    ensures
        declares(s.index@.fts, c, clause.field@) <==> s.index@.fts.contains_key(c) && exists|i: int|
            0 <= i < s.index@.fts[c].len() && (#[trigger] s.index@.fts[c][i]).field
                == clause.field@,
        !declares(s.index@.fts, c, clause.field@) ==> clause_score(s, l, c, clause, id) is None,
        declares(s.index@.fts, c, clause.field@) ==> clause_score(s, l, c, clause, id) == score_in(
            scores_of(l, c, clause.field@, clause_terms(l, c, clause).0),
            id,
        ),
        !clause.prefix ==> clause_terms(l, c, clause).0 == analyze_of(
            l,
            c,
            clause.field@,
            clause.text@,
        ) && clause_terms(l, c, clause).1 is None,
        clause.prefix ==> {
            let cut = split_of(l, c, clause.field@, clause.text@);
            &&& cut.1 is None ==> clause_terms(l, c, clause) == (cut.0, None::<Expansion>)
            &&& cut.1 matches Some(t) ==> {
                let more = expand_of(l, c, clause.field@, t);
                &&& clause_terms(l, c, clause).0 == cut.0 + more.0
                &&& clause_terms(l, c, clause).1 matches Some(e) && e.matched == more.1 && e.scored
                    == more.0.len() as usize
            }
        },
{
}

/// A record's score in a list is the one that stands beside its id, and none where its id is
/// not there.
pub proof fn a_score_stands_beside_its_id(scores: Seq<(Seq<char>, u32)>, id: Seq<char>)
    ensures
        score_in(scores, id) is None <==> forall|i: int|
            0 <= i < scores.len() ==> (#[trigger] scores[i]).0 != id,
        score_in(scores, id) matches Some(x) ==> scores.contains((id, x)),
    decreases scores.len(),
{
    if scores.len() > 0 {
        let d = scores.drop_last();
        a_score_stands_beside_its_id(d, id);
        assert(scores[scores.len() - 1] == scores.last());
        assert forall|i: int| 0 <= i < d.len() implies #[trigger] scores[i] == d[i] by {}
        if scores.last().0 != id {
            if let Some(x) = score_in(d, id) {
                let i = choose|i: int| 0 <= i < d.len() && d[i] == (id, x);
                assert(scores[i] == (id, x));
            }
        }
        if score_in(d, id) is Some && score_in(scores, id) is Some && scores.last().0 != id {
            let i = choose|i: int| 0 <= i < d.len() && (#[trigger] d[i]).0 == id;
            assert(scores[i].0 == id);
        }
    }
}

/// The breakdown of a record's score names each clause that scores it, in the order of the query,
/// with its field, what it scored, and how far a prefix was expanded.
pub proof fn a_breakdown_names_the_clauses<L: Lexicon>(
    s: Store,
    l: L,
    c: Seq<char>,
    clauses: Seq<FtsClause>,
    clause: FtsClause,
    id: Seq<char>,
)
    ensures
        clause_report(s, l, c, Seq::<FtsClause>::empty(), id).len() == 0,
        clause_score(s, l, c, clause, id) is None ==> clause_report(
            s,
            l,
            c,
            clauses.push(clause),
            id,
        ) == clause_report(s, l, c, clauses, id),
        clause_score(s, l, c, clause, id) matches Some(x) ==> clause_report(
            s,
            l,
            c,
            clauses.push(clause),
            id,
        ) == clause_report(s, l, c, clauses, id).push(
            ClauseScoreV {
                field: clause.field@,
                score: x,
                expansion: clause_terms(l, c, clause).1,
            },
        ),
{
    assert(clauses.push(clause).drop_last() =~= clauses);
}

/// The highlights of a record: for each clause on an indexed field, the passages of that field
/// around the clause's terms, where there are any.
pub proof fn highlights_are_passages_of_the_clauses<L: Lexicon>(
    s: Store,
    l: L,
    c: Seq<char>,
    clauses: Seq<FtsClause>,
    clause: FtsClause,
    id: Seq<char>,
    cut: HighlightOpts,
)
    ensures
        ({
            let cols = s.index@.collections;
            let before = highlights_of(s, l, c, clauses, id, cut);
            let after = highlights_of(s, l, c, clauses.push(clause), id, cut);
            let there = cols.contains_key(c) && cols[c].docs.contains_key(id);
            let found = passages_of(
                l,
                c,
                clause.field@,
                cols[c].docs[id].attrs,
                clause_terms(l, c, clause).0,
                cut,
            );
            &&& !there ==> after.len() == 0
            &&& highlights_of(s, l, c, Seq::<FtsClause>::empty(), id, cut).len() == 0
            &&& there && declares(s.index@.fts, c, clause.field@) && found.len() > 0 ==> after
                == before.push(HighlightV { field: clause.field@, fragments: found })
            &&& there && !(declares(s.index@.fts, c, clause.field@) && found.len() > 0) ==> after
                == before
        }),
{
    assert(clauses.push(clause).drop_last() =~= clauses);
}

/// A result is annotated only as the query asks: with the breakdown where it explains, with
/// highlights where it cuts them, and its place, score and attributes stay as they are.
pub proof fn annotations_are_what_was_asked_for<L: Lexicon>(
    s: Store,
    l: L,
    query: FtsQuery,
    explain: bool,
    h: HitV,
)
    ensures
        ({
            let out = annotated(s, l, query, explain, h);
            &&& out == (HitV { annotations: out.annotations, ..h })
            &&& !explain && query.highlight is None ==> out == h
            &&& explain ==> out.annotations is Some && out.annotations->0.clauses == clause_report(
                s,
                l,
                h.collection,
                query.clauses@,
                h.id,
            )
            &&& query.highlight matches Some(cut) ==> out.annotations is Some
                && out.annotations->0.highlights == highlights_of(
                s,
                l,
                h.collection,
                query.clauses@,
                h.id,
                cut,
            )
            &&& h.annotations is None && explain && query.highlight is None
                ==> out.annotations->0.highlights.len() == 0
            &&& h.annotations matches Some(a) ==> out.annotations is Some
                && out.annotations->0.vector == a.vector && out.annotations->0.text == a.text
        }),
{
}

proof fn offers_alike<K: Kernel, L: Lexicon>(
    s: Store,
    k: K,
    l: L,
    scope: Seq<Seq<char>>,
    query: FtsQuery,
    a: SearchOpts,
    b: SearchOpts,
)
    requires
        a.filter == b.filter,
        a.min_score == b.min_score,
        a.rank_by == b.rank_by,
    ensures
        text_all(s, k, l, scope, query, a) == text_all(s, k, l, scope, query, b),
    decreases scope.len(),
{
    if scope.len() > 0 {
        offers_alike(s, k, l, scope.drop_last(), query, a, b);
        let c = scope.last();
        collection_offers_alike(
            s,
            k,
            l,
            c,
            crate::dict::ordered(s.index@.collections[c].docs),
            query,
            a,
            b,
        );
    }
}

proof fn collection_offers_alike<K: Kernel, L: Lexicon>(
    s: Store,
    k: K,
    l: L,
    c: Seq<char>,
    entries: Seq<(Seq<char>, DocV)>,
    query: FtsQuery,
    a: SearchOpts,
    b: SearchOpts,
)
    requires
        a.filter == b.filter,
        a.min_score == b.min_score,
        a.rank_by == b.rank_by,
    ensures
        text_coll(s, k, l, c, entries, query, a) == text_coll(s, k, l, c, entries, query, b),
    decreases entries.len(),
{
    if entries.len() > 0 {
        collection_offers_alike(s, k, l, c, entries.drop_last(), query, a, b);
    }
}

/// A page of a text search is what stands there in the search that begins at the top and reaches
/// to the end of that page.
pub proof fn a_text_page_is_a_cut_of_a_deeper_search<K: Kernel, L: Lexicon>(
    s: Store,
    k: K,
    l: L,
    scope: Seq<Seq<char>>,
    query: FtsQuery,
    opts: SearchOpts,
    full: SearchOpts,
    i: int,
)
    requires
        opts.limit_per is None,
        opts.diversity is None,
        opts.expand is None,
        opts.top_k > 0,
        opts.offset + opts.top_k <= usize::MAX,
        full == (SearchOpts {
            offset: 0,
            top_k: (opts.offset + opts.top_k) as usize,
            ..opts
        }),
        0 <= i < text_of(s, k, l, scope, query, opts).len(),
    ensures
        i < opts.top_k,
        opts.offset + i < text_of(s, k, l, scope, query, full).len(),
        text_of(s, k, l, scope, query, opts)[i] == text_of(s, k, l, scope, query, full)[opts.offset
            + i],
{
    let n = full.top_k;
    assert(depth_of(full) == n && depth_of(opts) == n) by (nonlinear_arith)
        requires
            depth_of(full) == times(plus(0, n), 1),
            depth_of(opts) == times(plus(opts.offset, opts.top_k), 1),
            n == opts.offset + opts.top_k,
            n >= 0,
    ;
    offers_alike(s, k, l, scope, query, opts, full);
    let deep = text_ranked(s, k, l, scope, query, full, n);
    assert(deep == text_ranked(s, k, l, scope, query, opts, n));
    assert(deep.len() <= n);
    assert(page(deep, 0, n as int) =~= deep);
    let cols = s.index@.collections;
    assert(crate::expand::expanded_all(cols, None, deep) =~= deep);
    let cut = page(deep, opts.offset as int, opts.top_k as int);
    assert(crate::expand::expanded_all(cols, None, cut) =~= cut);
    assert(cut[i] == deep[opts.offset + i]);
}

} // verus!
