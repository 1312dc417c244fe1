//! Searches that walk an index, and what a plan says of any search.

use vstd::prelude::*;

use crate::coarse::quantizing;
use crate::host::{walk_of, walk_segment_of, Host};
use crate::index::{CollsV, DocV};
use crate::kernel::Kernel;
use crate::laws::searching::true_score;
use crate::model::SearchOpts;
use crate::order::top;
use crate::plan::{Narrowing, PlanRec, QueryPath};
use crate::rank::{clears, ranking, ScoredV};
use crate::scan::{gathered, listable, scan_of, sound_item, ScanV};
use crate::scoring::{hits_for, scored};
use crate::search::{
    ann_overscan, in_indexed, outcome, prefilters, query_of, rowed, rowed_in,
    rowed_total, segment_walks, segmented, stage, uncovered, wanted,
};
use crate::store::{seg_total, Segment, Store};
use crate::value::passes;
use crate::walk::{owner, owner_in, survivors, tally};

verus! {

/// A row has an owner where a document is stored with it, and the owner is such a document.
pub proof fn a_row_is_owned_by_its_document(
    cols: CollsV,
    row: u64,
    c: Seq<char>,
    id: Seq<char>,
)
    requires
        listable(cols),
    ensures
        owner(crate::dict::ordered(cols), row) matches Some(p) ==> cols.contains_key(p.0)
            && cols[p.0].docs.contains_key(p.1) && cols[p.0].docs[p.1].row == Some(row),
        cols.contains_key(c) && cols[c].docs.contains_key(id) && cols[c].docs[id].row == Some(row)
            ==> owner(crate::dict::ordered(cols), row) is Some,
{
    crate::walk::owner_is_live(cols, row);
    let colls = crate::dict::ordered(cols);
    if cols.contains_key(c) && cols[c].docs.contains_key(id) && cols[c].docs[id].row == Some(row) {
        assert(crate::dict::to_map(colls).contains_key(c));
        let i = choose|i: int| 0 <= i < colls.len() && (#[trigger] colls[i]).0 == c;
        crate::scan::listable_at(cols, i);
        let e = crate::dict::ordered(colls[i].1.docs);
        assert(crate::dict::to_map(e).contains_key(id));
        let j = choose|j: int| 0 <= j < e.len() && (#[trigger] e[j]).0 == id;
        crate::dict::to_map_at(e, j);
        owner_in_finds(e, row, j);
        owner_finds(colls, row, i);
    }
}

proof fn owner_in_finds(entries: Seq<(Seq<char>, DocV)>, row: u64, j: int)
    requires
        0 <= j < entries.len(),
        entries[j].1.row == Some(row),
    ensures
        owner_in(entries, row) is Some,
    decreases entries.len(),
{
    if entries.last().1.row != Some(row) {
        assert(entries.drop_last()[j] == entries[j]);
        owner_in_finds(entries.drop_last(), row, j);
    }
}

proof fn owner_finds(colls: Seq<(Seq<char>, crate::index::CollV)>, row: u64, i: int)
    requires
        0 <= i < colls.len(),
        owner_in(crate::dict::ordered(colls[i].1.docs), row) is Some,
    ensures
        owner(colls, row) is Some,
    decreases colls.len(),
{
    if i < colls.len() - 1 {
        assert(colls.drop_last()[i] == colls[i]);
        owner_finds(colls.drop_last(), row, i);
    }
}

/// What becomes of a walked row: it is counted as surfaced, and under exactly one more head. A row
/// that no document owns is stale; one whose document is in no collection of the scope is out of
/// scope; one that the filter does not admit is filtered; one below the floor is dropped for that;
/// and the rest survive, at their documents' own scores.
pub proof fn what_becomes_of_a_walked_row<K: Kernel>(
    s: Store,
    k: K,
    query: Seq<u32>,
    opts: SearchOpts,
    scope: Seq<Seq<char>>,
    rows: Seq<u64>,
    row: u64,
)
    requires
        listable(s.index@.collections),
        rows.len() < u64::MAX,
    ensures
        ({
            let cols = s.index@.collections;
            let q = query_of(s, k, query);
            let before = tally(s, k, q, opts, scope, rows);
            let after = tally(s, k, q, opts, scope, rows.push(row));
            let had = survivors(s, k, q, opts, scope, rows);
            let has = survivors(s, k, q, opts, scope, rows.push(row));
            let own = owner(crate::dict::ordered(cols), row);
            let c = (own->0).0;
            let id = (own->0).1;
            let score = true_score(s, k, query, opts.rank_by, c, id);
            &&& after.surfaced == before.surfaced + 1
            &&& after.dropped_stale == before.dropped_stale + (if own is None {
                1int
            } else {
                0
            })
            &&& after.dropped_out_of_scope == before.dropped_out_of_scope + (if own is Some
                && !scope.contains(c) {
                1int
            } else {
                0
            })
            &&& after.dropped_filtered == before.dropped_filtered + (if own is Some
                && scope.contains(c) && !passes(opts.filter, cols[c].docs[id].attrs) {
                1int
            } else {
                0
            })
            &&& after.dropped_min_score == before.dropped_min_score + (if own is Some
                && scope.contains(c) && passes(opts.filter, cols[c].docs[id].attrs) && !clears(
                opts.min_score,
                score,
            ) {
                1int
            } else {
                0
            })
            &&& if own is Some && scope.contains(c) && passes(
                opts.filter,
                cols[c].docs[id].attrs,
            ) && clears(opts.min_score, score) {
                after.survived == before.survived + 1 && has == had.push(
                    ScoredV { score, collection: c, id },
                )
            } else {
                after.survived == before.survived && has == had
            }
        }),
{
    let q = query_of(s, k, query);
    assert(rows.push(row).drop_last() =~= rows);
    crate::walk::tally_balances(s, k, q, opts, scope, rows);
    crate::walk::owner_is_live(s.index@.collections, row);
}

/// A walk is asked for the depth times the overscan, and never for less than the depth; an
/// overscan of nothing is one.
pub proof fn how_far_a_walk_goes(s: Store, top_k: usize, overscan: usize)
    ensures
        overscan >= 1 && top_k * overscan <= usize::MAX ==> wanted(top_k, overscan) == top_k
            * overscan,
        overscan == 0 ==> wanted(top_k, overscan) == top_k,
        top_k * overscan > usize::MAX ==> wanted(top_k, overscan) == usize::MAX,
        s.config.ann is None ==> ann_overscan(s) == 1,
        s.config.ann matches Some(a) ==> ann_overscan(s) == if a.overscan == 0 {
            1
        } else {
            a.overscan
        },
{
    assert(top_k * 0 == 0) by (nonlinear_arith);
    if overscan >= 1 {
        assert(top_k * overscan >= top_k) by (nonlinear_arith)
            requires
                overscan >= 1,
                top_k >= 0,
        ;
    }
}

/// Documents are counted where they have a row.
pub proof fn documents_with_a_row_are_counted(
    entries: Seq<(Seq<char>, DocV)>,
    e: (Seq<char>, DocV),
)
    ensures
        rowed(Seq::<(Seq<char>, DocV)>::empty()) == 0,
        rowed(entries.push(e)) == rowed(entries) + if e.1.row is Some {
            1int
        } else {
            0
        },
{
    assert(entries.push(e).drop_last() =~= entries);
}

/// A collection that the scope names counts with its documents, once, and one that is not there
/// counts with none.
pub proof fn a_scope_counts_each_collection_once(
    cols: CollsV,
    scope: Seq<Seq<char>>,
    c: Seq<char>,
)
    ensures
        rowed_in(cols, Seq::<Seq<char>>::empty()) == 0,
        scope.contains(c) || !cols.contains_key(c) ==> rowed_in(cols, scope.push(c)) == rowed_in(
            cols,
            scope,
        ),
        !scope.contains(c) && cols.contains_key(c) ==> rowed_in(cols, scope.push(c)) == rowed_in(
            cols,
            scope,
        ) + rowed(crate::dict::ordered(cols[c].docs)),
{
    assert(scope.push(c).drop_last() =~= scope);
}

/// A narrowed query whose matches are few is answered exactly and not by a walk: few are no more
/// than the share of all documents that one overscan leaves, or than the walk would ask for.
pub proof fn few_matches_are_scored_exactly(
    s: Store,
    scope: Seq<Seq<char>>,
    opts: SearchOpts,
    top_k: usize,
)
    ensures
        ({
            let cols = s.index@.collections;
            let all = rowed_total(crate::dict::ordered(cols)) as int;
            let found = gathered(cols, scope, opts.filter).len();
            let narrow = opts.filter.0@.len() > 0 || rowed_in(cols, scope) < all;
            &&& prefilters(s, scope, opts.filter, top_k) ==> narrow
            &&& narrow && found <= all / (ann_overscan(s) as int) ==> prefilters(
                s,
                scope,
                opts.filter,
                top_k,
            )
            &&& narrow && found <= wanted(top_k, ann_overscan(s)) ==> prefilters(
                s,
                scope,
                opts.filter,
                top_k,
            )
            &&& found > all / (ann_overscan(s) as int) && found > wanted(top_k, ann_overscan(s))
                ==> !prefilters(s, scope, opts.filter, top_k)
        }),
{
}

/// The rows that a segment holds begin where those of the segments before it end.
pub open spec fn segment_holds(segments: Seq<Segment>, i: int, row: u64) -> bool {
    seg_total(segments.take(i)) <= row < seg_total(segments.take(i)) + segments[i].rows
}

/// A row is covered by an index where the segment that holds it is indexed.
pub proof fn a_row_is_covered_by_its_segment(
    segments: Seq<Segment>,
    indexed: Seq<bool>,
    row: u64,
)
    ensures
        in_indexed(segments, indexed, row) <==> exists|i: int|
            0 <= i < segments.len() && i < indexed.len() && indexed[i] && #[trigger] segment_holds(
                segments,
                i,
                row,
            ),
    decreases segments.len(),
{
    if segments.len() > 0 {
        let d = segments.drop_last();
        let n = segments.len() - 1;
        a_row_is_covered_by_its_segment(d, indexed, row);
        assert(segments.take(n) =~= d);
        assert(segments[n] == segments.last());
        assert forall|i: int| 0 <= i < n implies #[trigger] segment_holds(segments, i, row)
            == segment_holds(d, i, row) by {
            assert(d.take(i) =~= segments.take(i));
        }
        if in_indexed(d, indexed, row) {
            let i = choose|i: int|
                0 <= i < d.len() && i < indexed.len() && indexed[i] && #[trigger] segment_holds(
                    d,
                    i,
                    row,
                );
            assert(segment_holds(segments, i, row));
        }
        if segments.len() <= indexed.len() && indexed[n] && seg_total(d) <= row < seg_total(
            segments,
        ) {
            assert(segment_holds(segments, n, row));
        }
        if exists|i: int|
            0 <= i < segments.len() && i < indexed.len() && indexed[i] && #[trigger] segment_holds(
                segments,
                i,
                row,
            ) {
            let i = choose|i: int|
                0 <= i < segments.len() && i < indexed.len() && indexed[i]
                    && #[trigger] segment_holds(segments, i, row);
            if i < n {
                assert(segment_holds(d, i, row));
            }
        }
    }
}

/// What no index covers is scanned, and nothing else is.
pub proof fn what_is_not_covered_is_scanned(s: Store, scan: Seq<ScanV>, x: ScanV)
    ensures
        uncovered(s, Seq::<ScanV>::empty()).len() == 0,
        in_indexed(s.segments@, s.indexed@, x.row) ==> uncovered(s, scan.push(x)) == uncovered(
            s,
            scan,
        ),
        !in_indexed(s.segments@, s.indexed@, x.row) ==> uncovered(s, scan.push(x)) == uncovered(
            s,
            scan,
        ).push(x),
{
    assert(scan.push(x).drop_last() =~= scan);
}

/// Every indexed segment is walked, and no other.
pub proof fn every_indexed_segment_is_walked<H: Host>(
    s: Store,
    h: H,
    q: Seq<u32>,
    want: usize,
    n: nat,
)
    requires
        n < usize::MAX,
    ensures
        segment_walks(s, h, q, want, 0).len() == 0,
        s.indexed@[n as int] ==> segment_walks(s, h, q, want, n + 1) == segment_walks(
            s,
            h,
            q,
            want,
            n,
        ) + walk_segment_of(h, n as usize, q, want),
        !s.indexed@[n as int] ==> segment_walks(s, h, q, want, n + 1) == segment_walks(
            s,
            h,
            q,
            want,
            n,
        ),
{
}

/// Which path a query takes: an exact one scans, over full vectors; else the index over all rows
/// is walked where there is one, unless the matches are few; else the indexed segments are; else
/// a quantized copy is scanned first where there is one.
pub proof fn which_path_a_query_takes<K: Kernel, H: Host>(
    s: Store,
    k: K,
    h: H,
    scope: Seq<Seq<char>>,
    q: Seq<u32>,
    opts: SearchOpts,
    top_k: usize,
)
    ensures
        ({
            let o = outcome(s, k, h, scope, q, opts, top_k);
            &&& opts.exact ==> o.path == QueryPath::Exact
            &&& !opts.exact && s.ann && (top_k == 0 || !prefilters(s, scope, opts.filter, top_k))
                ==> o.path == QueryPath::Ann
            &&& !opts.exact && s.ann && top_k > 0 && prefilters(s, scope, opts.filter, top_k)
                ==> o.path == QueryPath::AnnPrefilterFallback
            &&& !opts.exact && !s.ann && segmented(s) ==> o.path == QueryPath::Segmented
            &&& !opts.exact && !s.ann && !segmented(s) ==> o.path == if quantizing(s) {
                QueryPath::Quantized
            } else {
                QueryPath::Exact
            }
            &&& segmented(s) <==> exists|i: int| 0 <= i < s.indexed@.len() && s.indexed@[i]
            &&& quantizing(s) <==> s.config.dimension > 0 && s.quant is Some && s.rows@.len() > 0
            &&& o.rows_scanned is Some <==> o.path == QueryPath::Exact || o.path
                == QueryPath::Quantized
            &&& o.rows_scanned matches Some(n) ==> n == stage(
                s,
                h,
                scope,
                opts.filter,
            ).1.len() as u64
            &&& top_k > 0 ==> (o.candidates is Some <==> o.path == QueryPath::Ann || o.path
                == QueryPath::Segmented)
        }),
{
    if segmented(s) {
        let i = choose|i: int| 0 <= i < s.indexed@.len() && s.indexed@[i] == true;
        assert(s.indexed@[i]);
    }
}

/// What a walk ranks is what survives of the rows it surfaces, the best of them in order.
pub proof fn a_walk_ranks_its_survivors<K: Kernel, H: Host>(
    s: Store,
    k: K,
    h: H,
    scope: Seq<Seq<char>>,
    q: Seq<u32>,
    opts: SearchOpts,
    top_k: usize,
)
    requires
        s.ann,
        !opts.exact,
        top_k > 0,
        !prefilters(s, scope, opts.filter, top_k),
    ensures
        ({
            let o = outcome(s, k, h, scope, q, opts, top_k);
            let rows = walk_of(h, s.config.ann->0, q, wanted(top_k, ann_overscan(s)));
            &&& o.ranked == hits_for(
                s,
                opts.projection,
                top(survivors(s, k, q, opts, scope, rows), top_k as int, ranking()),
            )
            &&& o.candidates == Some(tally(s, k, q, opts, scope, rows))
        }),
{
}

/// A search over segments ranks the exact scan of what no index covers together with what
/// survives of the walks: a record that is not covered, can be found and is ahead of one that is
/// shown is shown.
pub proof fn uncovered_records_are_ranked_exactly<K: Kernel, H: Host>(
    s: Store,
    k: K,
    h: H,
    scope: Seq<Seq<char>>,
    q: Seq<u32>,
    opts: SearchOpts,
    top_k: usize,
    x: ScanV,
)
    requires
        listable(s.index@.collections),
        !s.ann,
        segmented(s),
        !opts.exact,
        top_k > 0,
        sound_item(s.index@.collections, scope, opts.filter, x),
        !in_indexed(s.segments@, s.indexed@, x.row),
        clears(opts.min_score, crate::scoring::score_for(s, k, q, opts, x)),
    ensures
        ({
            let out = outcome(s, k, h, scope, q, opts, top_k).ranked;
            let score = crate::scoring::score_for(s, k, q, opts, x);
            (exists|i: int|
                0 <= i < out.len() && (#[trigger] out[i]).collection == x.collection && out[i].id
                    == x.id && out[i].score == score) || (out.len() == top_k && forall|i: int|
                0 <= i < out.len() ==> !crate::rank::before(
                    ScoredV { score, collection: x.collection, id: x.id },
                    ScoredV {
                        score: (#[trigger] out[i]).score,
                        collection: out[i].collection,
                        id: out[i].id,
                    },
                ))
        }),
{
    let cols = s.index@.collections;
    let whole = scan_of(cols, scope, opts.filter);
    let tail = uncovered(s, whole);
    let rows = segment_walks(
        s,
        h,
        q,
        wanted(top_k, crate::search::SEGMENT_OVERSCAN),
        s.indexed@.len(),
    );
    let offered = scored(s, k, q, opts, tail) + survivors(s, k, q, opts, scope, rows);
    let kept = top(offered, top_k as int, ranking());
    let out = outcome(s, k, h, scope, q, opts, top_k).ranked;
    let score = crate::scoring::score_for(s, k, q, opts, x);
    let y = ScoredV { score, collection: x.collection, id: x.id };
    crate::scan::scan_is_sound(cols, scope, opts.filter);
    assert(whole.contains(x));
    uncovered_has(s, whole, x);
    tail_is_offered(s, k, q, opts, tail, x);
    let own = scored(s, k, q, opts, tail);
    let m = choose|m: int| 0 <= m < own.len() && own[m] == y;
    assert(offered[m] == y);
    assert(offered.contains(y));
    assert(out.len() == kept.len());
    assert forall|i: int| 0 <= i < out.len() implies kept[i] == (ScoredV {
        score: (#[trigger] out[i]).score,
        collection: out[i].collection,
        id: out[i].id,
    }) by {}
    if kept.contains(y) {
        let i = choose|i: int| 0 <= i < kept.len() && kept[i] == y;
        assert(out[i].collection == x.collection);
    } else {
        crate::rank::nothing_better_is_left_out(offered, top_k as int, y);
    }
}

proof fn uncovered_has(s: Store, scan: Seq<ScanV>, x: ScanV)
    requires
        scan.contains(x),
        !in_indexed(s.segments@, s.indexed@, x.row),
    ensures
        uncovered(s, scan).contains(x),
    decreases scan.len(),
{
    let d = scan.drop_last();
    let i = choose|i: int| 0 <= i < scan.len() && scan[i] == x;
    let all = uncovered(s, scan);
    if i < scan.len() - 1 {
        assert(d[i] == x);
        uncovered_has(s, d, x);
        let rest = uncovered(s, d);
        let m = choose|m: int| 0 <= m < rest.len() && rest[m] == x;
        assert(all[m] == x);
    } else {
        assert(all[all.len() - 1] == x);
    }
}

proof fn tail_is_offered<K: Kernel>(
    s: Store,
    k: K,
    q: Seq<u32>,
    opts: SearchOpts,
    scan: Seq<ScanV>,
    x: ScanV,
)
    requires
        scan.contains(x),
        clears(opts.min_score, crate::scoring::score_for(s, k, q, opts, x)),
    ensures
        scored(s, k, q, opts, scan).contains(
            ScoredV {
                score: crate::scoring::score_for(s, k, q, opts, x),
                collection: x.collection,
                id: x.id,
            },
        ),
    decreases scan.len(),
{
    let d = scan.drop_last();
    let i = choose|i: int| 0 <= i < scan.len() && scan[i] == x;
    let all = scored(s, k, q, opts, scan);
    let y = ScoredV {
        score: crate::scoring::score_for(s, k, q, opts, x),
        collection: x.collection,
        id: x.id,
    };
    if i < scan.len() - 1 {
        assert(d[i] == x);
        tail_is_offered(s, k, q, opts, d, x);
        let rest = scored(s, k, q, opts, d);
        let m = choose|m: int| 0 <= m < rest.len() && rest[m] == y;
        assert(all[m] == y);
    } else {
        assert(all[all.len() - 1] == y);
    }
}

/// A finished plan tells what was recorded: the path, exhaustive where none was, the rows, the
/// candidates, how the filter index fared, and the time it all took; without recording there is
/// no plan.
pub proof fn a_plan_tells_what_was_recorded(rec: PlanRec, total: u64)
    ensures
        rec is Off ==> crate::plan::finished(rec, total) is None,
        rec matches PlanRec::On(r) ==> {
            &&& crate::plan::finished(rec, total) is Some
            &&& crate::plan::finished(rec, total)->0.path == match r.path {
                Some(p) => p,
                None => QueryPath::Exact,
            }
            &&& crate::plan::finished(rec, total)->0.rows_scanned == r.rows_scanned
            &&& crate::plan::finished(rec, total)->0.candidates == r.candidates
            &&& crate::plan::finished(rec, total)->0.narrowing == match r.narrowing {
                Some(n) => n,
                None => Narrowing::Inactive,
            }
            &&& crate::plan::finished(rec, total)->0.timings.total == total
            &&& crate::plan::finished(rec, total)->0.timings.walk == r.timings.walk
            &&& crate::plan::finished(rec, total)->0.timings.score == r.timings.score
            &&& crate::plan::finished(rec, total)->0.timings.narrow == r.timings.narrow
            &&& crate::plan::finished(rec, total)->0.timings.gather == r.timings.gather
            &&& crate::plan::finished(rec, total)->0.timings.resolve == r.timings.resolve
            &&& crate::plan::finished(rec, total)->0.timings.first_pass == r.timings.first_pass
            &&& crate::plan::finished(rec, total)->0.timings.rescore == r.timings.rescore
        },
{
}

/// How the filter index fared is reported as it was: inactive where none is declared, declined
/// where it cannot answer for a collection in scope, and otherwise with as many candidates as were
/// scanned.
pub proof fn what_is_said_of_the_filter_index<H: Host>(
    s: Store,
    h: H,
    scope: Seq<Seq<char>>,
    opts: SearchOpts,
)
    ensures
        ({
            let (said, scan) = stage(s, h, scope, opts.filter);
            let declared = exists|c: Seq<char>| #[trigger] s.index@.findex.contains_key(c);
            &&& !declared ==> said == Narrowing::Inactive
            &&& declared && (exists|i: int|
                0 <= i < scope.len() && s.index@.collections.contains_key(#[trigger] scope[i])
                    && crate::host::propose_of(h, scope[i], opts.filter) is None) ==> said
                == Narrowing::Declined && scan == scan_of(
                s.index@.collections,
                scope,
                opts.filter,
            )
            &&& said matches Narrowing::Narrowed { candidates } ==> candidates == scan.len() as u64
            &&& !(said is Narrowed) ==> scan == scan_of(s.index@.collections, scope, opts.filter)
        }),
{
    let cols = s.index@.collections;
    let ps = crate::search::proposals_of(s, h, scope, opts.filter);
    if !(exists|c: Seq<char>| #[trigger] s.index@.findex.contains_key(c)) {
        assert(s.index@.findex =~= Map::<Seq<char>, Seq<Seq<char>>>::empty());
    } else {
        let c = choose|c: Seq<char>| #[trigger] s.index@.findex.contains_key(c);
        assert(!Map::<Seq<char>, Seq<Seq<char>>>::empty().contains_key(c));
        if exists|i: int|
            0 <= i < scope.len() && cols.contains_key(#[trigger] scope[i])
                && crate::host::propose_of(h, scope[i], opts.filter) is None {
            let i = choose|i: int|
                0 <= i < scope.len() && cols.contains_key(#[trigger] scope[i])
                    && crate::host::propose_of(h, scope[i], opts.filter) is None;
            assert(ps[i] is None);
            assert(!crate::scan::answered(cols, scope, ps));
        }
    }
}

/// All documents with a row are those of each collection, added up.
pub proof fn all_documents_with_a_row_are_added_up(
    colls: Seq<(Seq<char>, crate::index::CollV)>,
    e: (Seq<char>, crate::index::CollV),
)
    ensures
        rowed_total(Seq::<(Seq<char>, crate::index::CollV)>::empty()) == 0,
        rowed_total(colls.push(e)) == rowed_total(colls) + rowed(crate::dict::ordered(e.1.docs)),
{
    assert(colls.push(e).drop_last() =~= colls);
}

/// A search whose matches are few gives what the exact search gives, wherever the filter index
/// takes no part in that.
pub proof fn few_matches_are_found_as_an_exact_search_finds_them<K: Kernel, H: Host>(
    s: Store,
    k: K,
    h: H,
    scope: Seq<Seq<char>>,
    q: Seq<u32>,
    opts: SearchOpts,
    exact: SearchOpts,
    top_k: usize,
)
    requires
        s.ann,
        !opts.exact,
        top_k > 0,
        prefilters(s, scope, opts.filter, top_k),
        !crate::search::filter_indexed(s),
        exact == (SearchOpts { exact: true, ..opts }),
    ensures
        outcome(s, k, h, scope, q, opts, top_k).ranked == outcome(
            s,
            k,
            h,
            scope,
            q,
            exact,
            top_k,
        ).ranked,
{
    scored_same(s, k, q, opts, exact, scan_of(s.index@.collections, scope, opts.filter));
}

proof fn scored_same<K: Kernel>(
    s: Store,
    k: K,
    q: Seq<u32>,
    a: SearchOpts,
    b: SearchOpts,
    scan: Seq<ScanV>,
)
    requires
        b == (SearchOpts { exact: true, ..a }),
    ensures
        scored(s, k, q, a, scan) == scored(s, k, q, b, scan),
    decreases scan.len(),
{
    if scan.len() > 0 {
        scored_same(s, k, q, a, b, scan.drop_last());
    }
}

/// A search over segments ranks, beside the exact scan of what no index covers, what survives of
/// walks that each ask for four times the depth.
pub proof fn segments_are_walked_four_times_as_deep<K: Kernel, H: Host>(
    s: Store,
    k: K,
    h: H,
    scope: Seq<Seq<char>>,
    q: Seq<u32>,
    opts: SearchOpts,
    top_k: usize,
)
    requires
        !s.ann,
        segmented(s),
        !opts.exact,
        top_k > 0,
        4 * top_k <= usize::MAX,
    ensures
        ({
            let o = outcome(s, k, h, scope, q, opts, top_k);
            let rows = segment_walks(s, h, q, (4 * top_k) as usize, s.indexed@.len());
            let tail = uncovered(s, scan_of(s.index@.collections, scope, opts.filter));
            &&& o.candidates == Some(tally(s, k, q, opts, scope, rows))
            &&& o.ranked == hits_for(
                s,
                opts.projection,
                top(
                    scored(s, k, q, opts, tail) + survivors(s, k, q, opts, scope, rows),
                    top_k as int,
                    ranking(),
                ),
            )
        }),
{
    assert(top_k * 4 == 4 * top_k) by (nonlinear_arith);
    how_far_a_walk_goes(s, top_k, 4);
}

} // verus!
