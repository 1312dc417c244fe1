//! Ranked vector search: which path serves a query, what it ranks, and the one tail that caps,
//! spreads, cuts and widens the page.

use vstd::prelude::*;

use crate::aggregate::capped;
use crate::coarse::{first_pass, quantizing, rescored};
use crate::dict::{ordered, views};
use crate::diversity::diversified;
use crate::expand::{expanded_all, expansion_keeps_the_ranking};
use crate::host::{
    ids_in, minds, propose, propose_of, settled, walk, walk_of, walk_segment, walk_segment_of, Host,
};
use crate::index::{is_live, CollV, CollsV, DocV};
use crate::kernel::{functional, unit_of, Kernel};
use crate::model::{Distance, Hit, HitV, QueryFault, SearchOpts};
use crate::order::{reversed, same, sorted, sorted_len, sorted_members, top, top_members};
use crate::plan::{
    no_timings, recorded, shape, untimed, Candidates, Narrowing, Phase, PlanRec, QueryPath,
    QueryPlan, Rec, Timings,
};
use crate::rank::{
    check_query_opts, cut, depth, depth_of, page, plus, query_fault, ranking, saturating_plus,
    saturating_times, times, ScoredV, TopK,
};
use crate::scan::{
    answered, by_row, check_listable, gathered, is_repeated, listable, names, narrowed, proposed,
    scan_of, Proposal, ProposalV, ScanItem, ScanV,
};
use crate::scoring::{best, hits_for, in_rows, scored};
use crate::store::{seg_total, Segment, Store, StoreError};
use crate::value::{passes, Filter};
use crate::walk::{survivors, tally};

verus! {

/// How many times the page a walk of a segment's index surfaces.
pub const SEGMENT_OVERSCAN: usize = 4;

// ── The tail ────────────────────────────────────────────────────────────────

/// The page of a ranking: capped by value, spread out, cut, and widened, in this order.
pub open spec fn finish_of<K: Kernel>(s: Store, k: K, opts: SearchOpts, ranked: Seq<HitV>) -> Seq<
    HitV,
> {
    let cols = s.index@.collections;
    let thinned = match opts.limit_per {
        Some(cap) => capped(cols, cap.field@, cap.max as int, ranked),
        None => ranked,
    };
    let spread = match opts.diversity {
        Some(lambda) => diversified(k, cols, views(s.rows@), lambda, thinned),
        None => thinned,
    };
    expanded_all(cols, opts.expand, page(spread, opts.offset as int, opts.top_k as int))
}

/// A page holds no more than was asked for.
pub proof fn page_is_bounded<K: Kernel>(s: Store, k: K, opts: SearchOpts, ranked: Seq<HitV>)
    ensures
        finish_of(s, k, opts, ranked).len() <= opts.top_k,
{
}

/// Widening changes no ranking: with and without it a page has the same results in the same
/// places, with the same scores and attributes.
pub proof fn widening_keeps_the_page<K: Kernel>(
    s: Store,
    k: K,
    opts: SearchOpts,
    ranked: Seq<HitV>,
)
    ensures
        ({
            let plain = finish_of(s, k, SearchOpts { expand: None, ..opts }, ranked);
            let wide = finish_of(s, k, opts, ranked);
            &&& wide.len() == plain.len()
            &&& forall|i: int|
                0 <= i < wide.len() ==> #[trigger] wide[i] == (HitV {
                    context: wide[i].context,
                    ..plain[i]
                })
        }),
{
    let plain = finish_of(s, k, SearchOpts { expand: None, ..opts }, ranked);
    expansion_keeps_the_ranking(s.index@.collections, opts.expand, plain);
}

/// Consecutive pages join into one longer page.
pub proof fn search_pages_join<K: Kernel>(
    s: Store,
    k: K,
    opts: SearchOpts,
    ranked: Seq<HitV>,
    m: usize,
)
    requires
        opts.offset + opts.top_k <= usize::MAX,
        opts.top_k + m <= usize::MAX,
    ensures
        finish_of(s, k, SearchOpts { top_k: (opts.top_k + m) as usize, ..opts }, ranked)
            == finish_of(s, k, opts, ranked) + finish_of(
            s,
            k,
            SearchOpts { offset: (opts.offset + opts.top_k) as usize, top_k: m, ..opts },
            ranked,
        ),
{
    let cols = s.index@.collections;
    let thinned = match opts.limit_per {
        Some(cap) => capped(cols, cap.field@, cap.max as int, ranked),
        None => ranked,
    };
    let spread = match opts.diversity {
        Some(lambda) => diversified(k, cols, views(s.rows@), lambda, thinned),
        None => thinned,
    };
    let o = opts.offset as int;
    let n = opts.top_k as int;
    crate::rank::pages_join(spread, o, n, m as int);
    let a = page(spread, o, n);
    let b = page(spread, o + n, m as int);
    assert(page(spread, o, n + m) == a + b);
    assert(expanded_all(cols, opts.expand, a + b) =~= expanded_all(cols, opts.expand, a)
        + expanded_all(cols, opts.expand, b));
}

// ── What a search path does ─────────────────────────────────────────────────

/// What a search path ranks, and what it records of itself.
pub ghost struct Outcome {
    pub ranked: Seq<HitV>,
    pub path: QueryPath,
    pub rows_scanned: Option<u64>,
    pub narrowing: Option<Narrowing>,
    pub candidates: Option<Candidates>,
    pub phases: Timings,
    /// It looks whether the query is still wanted: rows are scanned.
    pub looks: bool,
}

/// The query as rows are stored: of length one under the cosine metric.
pub open spec fn query_of<K: Kernel>(s: Store, k: K, query: Seq<u32>) -> Seq<u32> {
    if s.config.distance == Distance::Cosine {
        unit_of(k, query)
    } else {
        query
    }
}

/// Some collection declares a filter index.
pub open spec fn filter_indexed(s: Store) -> bool {
    s.index@.findex != Map::<Seq<char>, Seq<Seq<char>>>::empty()
}

/// What the filter index proposes for each collection in scope that exists.
pub open spec fn proposals_of<H: Host>(s: Store, h: H, scope: Seq<Seq<char>>, filter: Filter) -> Seq<
    ProposalV,
> {
    scope.map_values(
        |c: Seq<char>|
            if s.index@.collections.contains_key(c) {
                propose_of(h, c, filter)
            } else {
                None
            },
    )
}

/// How the filter index fares, and the scan that it leaves.
pub open spec fn stage<H: Host>(s: Store, h: H, scope: Seq<Seq<char>>, filter: Filter) -> (
    Narrowing,
    Seq<ScanV>,
) {
    let cols = s.index@.collections;
    let proposals = proposals_of(s, h, scope, filter);
    if !filter_indexed(s) {
        (Narrowing::Inactive, scan_of(cols, scope, filter))
    } else if !answered(cols, scope, proposals) {
        (Narrowing::Declined, scan_of(cols, scope, filter))
    } else {
        let scan = sorted(narrowed(cols, scope, proposals, filter), by_row());
        (Narrowing::Narrowed { candidates: scan.len() as u64 }, scan)
    }
}

/// A linear scan: exact, or by the coarse copy first where there is one.
pub open spec fn scan_outcome<K: Kernel, H: Host>(
    s: Store,
    k: K,
    h: H,
    scope: Seq<Seq<char>>,
    q: Seq<u32>,
    opts: SearchOpts,
    top_k: usize,
) -> Outcome {
    let (narrowing, scan) = stage(s, h, scope, opts.filter);
    let coarse = !opts.exact && quantizing(s);
    let scanned = if coarse {
        first_pass(s, k, q, scan, rescored(s, top_k))
    } else {
        scan
    };
    Outcome {
        ranked: hits_for(s, opts.projection, best(s, k, q, opts, top_k, scanned)),
        path: if coarse {
            QueryPath::Quantized
        } else {
            QueryPath::Exact
        },
        rows_scanned: Some(scan.len() as u64),
        narrowing: Some(narrowing),
        candidates: None,
        phases: if coarse {
            Timings {
                narrow: Some(0),
                gather: Some(0),
                first_pass: Some(0),
                rescore: Some(0),
                ..no_timings()
            }
        } else {
            Timings { narrow: Some(0), gather: Some(0), score: Some(0), ..no_timings() }
        },
        looks: scan.len() > 0,
    }
}

/// How many of the documents have a row.
pub open spec fn rowed(entries: Seq<(Seq<char>, DocV)>) -> nat
    decreases entries.len(),
{
    if entries.len() == 0 {
        0
    } else {
        rowed(entries.drop_last()) + if entries.last().1.row is Some {
            1nat
        } else {
            0
        }
    }
}

/// How many documents of all the collections have a row.
pub open spec fn rowed_total(colls: Seq<(Seq<char>, CollV)>) -> nat
    decreases colls.len(),
{
    if colls.len() == 0 {
        0
    } else {
        rowed_total(colls.drop_last()) + rowed(ordered(colls.last().1.docs))
    }
}

/// How many documents in scope have a row.
pub open spec fn rowed_in(cols: CollsV, scope: Seq<Seq<char>>) -> nat
    decreases scope.len(),
{
    if scope.len() == 0 {
        0
    } else {
        rowed_in(cols, scope.drop_last()) + if cols.contains_key(scope.last())
            && !scope.drop_last().contains(scope.last()) {
            rowed(ordered(cols[scope.last()].docs))
        } else {
            0
        }
    }
}

/// The larger of the two.
pub open spec fn most(a: int, b: int) -> int {
    if a < b {
        b
    } else {
        a
    }
}

/// How many candidates a walk is asked for.
pub open spec fn wanted(top_k: usize, overscan: usize) -> usize {
    let n = times(top_k, overscan);
    if n < top_k {
        top_k
    } else {
        n
    }
}

/// How many times the page a walk surfaces.
pub open spec fn ann_overscan(s: Store) -> usize {
    match s.config.ann {
        Some(a) => if a.overscan < 1 {
            1
        } else {
            a.overscan
        },
        None => 1,
    }
}

/// A filter or a scope narrows the query, and so few documents are left that a walk could miss
/// them: they are scored exactly instead.
pub open spec fn prefilters(s: Store, scope: Seq<Seq<char>>, filter: Filter, top_k: usize) -> bool {
    let cols = s.index@.collections;
    let total = rowed_total(ordered(cols)) as int;
    let overscan = ann_overscan(s);
    &&& filter.0@.len() > 0 || rowed_in(cols, scope) < total
    &&& gathered(cols, scope, filter).len() <= most(
        total / overscan as int,
        wanted(top_k, overscan) as int,
    )
}

/// A walk of the nearest-neighbour index, or an exact ranking where a walk could starve.
pub open spec fn ann_outcome<K: Kernel, H: Host>(
    s: Store,
    k: K,
    h: H,
    scope: Seq<Seq<char>>,
    q: Seq<u32>,
    opts: SearchOpts,
    top_k: usize,
) -> Outcome {
    let cols = s.index@.collections;
    let none = Outcome {
        ranked: Seq::empty(),
        path: QueryPath::Ann,
        rows_scanned: None,
        narrowing: None,
        candidates: None,
        phases: no_timings(),
        looks: false,
    };
    if top_k == 0 {
        none
    } else if prefilters(s, scope, opts.filter, top_k) {
        Outcome {
            ranked: hits_for(
                s,
                opts.projection,
                best(s, k, q, opts, top_k, scan_of(cols, scope, opts.filter)),
            ),
            path: QueryPath::AnnPrefilterFallback,
            looks: scan_of(cols, scope, opts.filter).len() > 0,
            ..none
        }
    } else {
        let rows = walk_of(h, s.config.ann->0, q, wanted(top_k, ann_overscan(s)));
        Outcome {
            ranked: hits_for(
                s,
                opts.projection,
                top(survivors(s, k, q, opts, scope, rows), top_k as int, ranking()),
            ),
            candidates: Some(tally(s, k, q, opts, scope, rows)),
            phases: Timings { walk: Some(0), resolve: Some(0), ..no_timings() },
            ..none
        }
    }
}

/// The row lies in a segment that has an index of its own.
pub open spec fn in_indexed(segments: Seq<Segment>, indexed: Seq<bool>, row: u64) -> bool
    decreases segments.len(),
{
    if segments.len() == 0 {
        false
    } else {
        let d = segments.drop_last();
        ||| segments.len() <= indexed.len() && indexed[segments.len() - 1] && seg_total(d) <= row
            < seg_total(segments)
        ||| in_indexed(d, indexed, row)
    }
}

/// The part of a scan that no segment's index covers.
pub open spec fn uncovered(s: Store, scan: Seq<ScanV>) -> Seq<ScanV>
    decreases scan.len(),
{
    if scan.len() == 0 {
        Seq::empty()
    } else {
        let rest = uncovered(s, scan.drop_last());
        if in_indexed(s.segments@, s.indexed@, scan.last().row) {
            rest
        } else {
            rest.push(scan.last())
        }
    }
}

/// What the walks of the first `n` segments' indexes surface, one after the other.
pub open spec fn segment_walks<H: Host>(s: Store, h: H, q: Seq<u32>, want: usize, n: nat) -> Seq<u64>
    decreases n,
{
    if n == 0 {
        Seq::empty()
    } else {
        let rest = segment_walks(s, h, q, want, (n - 1) as nat);
        if s.indexed@[n - 1] {
            rest + walk_segment_of(h, (n - 1) as usize, q, want)
        } else {
            rest
        }
    }
}

/// Some segment has an index of its own.
pub open spec fn segmented(s: Store) -> bool {
    s.indexed@.contains(true)
}

/// Walks of the segments that have an index, and an exact ranking of the rest, made one.
pub open spec fn segmented_outcome<K: Kernel, H: Host>(
    s: Store,
    k: K,
    h: H,
    scope: Seq<Seq<char>>,
    q: Seq<u32>,
    opts: SearchOpts,
    top_k: usize,
) -> Outcome {
    let none = Outcome {
        ranked: Seq::empty(),
        path: QueryPath::Segmented,
        rows_scanned: None,
        narrowing: None,
        candidates: None,
        phases: no_timings(),
        looks: false,
    };
    if top_k == 0 {
        none
    } else {
        let tail = uncovered(s, scan_of(s.index@.collections, scope, opts.filter));
        let rows = segment_walks(s, h, q, wanted(top_k, SEGMENT_OVERSCAN), s.indexed@.len());
        Outcome {
            ranked: hits_for(
                s,
                opts.projection,
                top(
                    scored(s, k, q, opts, tail) + survivors(s, k, q, opts, scope, rows),
                    top_k as int,
                    ranking(),
                ),
            ),
            candidates: Some(tally(s, k, q, opts, scope, rows)),
            phases: Timings { walk: Some(0), ..no_timings() },
            looks: tail.len() > 0,
            ..none
        }
    }
}

/// What a search ranks, `top_k` deep. An exact query takes no approximate path.
pub open spec fn outcome<K: Kernel, H: Host>(
    s: Store,
    k: K,
    h: H,
    scope: Seq<Seq<char>>,
    q: Seq<u32>,
    opts: SearchOpts,
    top_k: usize,
) -> Outcome {
    if s.ann && !opts.exact {
        ann_outcome(s, k, h, scope, q, opts, top_k)
    } else if segmented(s) && !opts.exact {
        segmented_outcome(s, k, h, scope, q, opts, top_k)
    } else {
        scan_outcome(s, k, h, scope, q, opts, top_k)
    }
}

/// The results of a search.
pub open spec fn search_of<K: Kernel, H: Host>(
    s: Store,
    k: K,
    h: H,
    scope: Seq<Seq<char>>,
    query: Seq<u32>,
    opts: SearchOpts,
) -> Seq<HitV> {
    finish_of(
        s,
        k,
        opts,
        outcome(s, k, h, scope, query_of(s, k, query), opts, depth_of(opts)).ranked,
    )
}

/// Why a query is refused.
pub open spec fn search_refusal(s: Store, query: Seq<u32>, opts: SearchOpts) -> Option<StoreError> {
    if query.len() != s.config.dimension {
        Some(StoreError::QueryLength { got: query.len() as usize, want: s.config.dimension })
    } else {
        match query_fault(opts) {
            Some(f) => Some(StoreError::Query(f)),
            None => None,
        }
    }
}

/// One timing or another.
pub open spec fn either(new: Option<u64>, old_time: Option<u64>) -> Option<u64> {
    if new is Some {
        new
    } else {
        old_time
    }
}

/// A recorder with what a search path records of itself.
pub open spec fn noted(r: PlanRec, o: Outcome) -> PlanRec {
    recorded(
        r,
        |x: Rec|
            Rec {
                path: Some(o.path),
                rows_scanned: either(o.rows_scanned, x.rows_scanned),
                candidates: if o.candidates is Some {
                    o.candidates
                } else {
                    x.candidates
                },
                narrowing: if o.narrowing is Some {
                    o.narrowing
                } else {
                    x.narrowing
                },
                timings: Timings {
                    total: x.timings.total,
                    narrow: either(o.phases.narrow, x.timings.narrow),
                    gather: either(o.phases.gather, x.timings.gather),
                    walk: either(o.phases.walk, x.timings.walk),
                    resolve: either(o.phases.resolve, x.timings.resolve),
                    first_pass: either(o.phases.first_pass, x.timings.first_pass),
                    rescore: either(o.phases.rescore, x.timings.rescore),
                    score: either(o.phases.score, x.timings.score),
                },
            },
    )
}

/// The plan of a query that went this way, but for how long it took.
pub open spec fn plan_of(o: Outcome, plan: QueryPlan) -> bool {
    &&& plan.path == o.path
    &&& plan.rows_scanned == o.rows_scanned
    &&& plan.candidates == o.candidates
    &&& plan.narrowing == if o.narrowing is Some {
        o.narrowing->0
    } else {
        Narrowing::Inactive
    }
    &&& shape(plan.timings) == o.phases
}

// ── Laws of an exact search ─────────────────────────────────────────────────

/// A result stands for a live document in scope that the filter admits and that clears the floor.
pub open spec fn sound_hit(s: Store, scope: Seq<Seq<char>>, opts: SearchOpts, x: HitV) -> bool {
    let cols = s.index@.collections;
    &&& scope.contains(x.collection)
    &&& is_live(cols, (x.collection, x.id))
    &&& passes(opts.filter, cols[x.collection].docs[x.id].attrs)
    &&& crate::rank::clears(opts.min_score, x.score)
    &&& x.attrs == crate::model::project(opts.projection, cols[x.collection].docs[x.id].attrs)
}

/// Every scored document is of the scan, with its score, and clears the floor.
proof fn scored_sound<K: Kernel>(
    s: Store,
    k: K,
    q: Seq<u32>,
    opts: SearchOpts,
    scan: Seq<ScanV>,
    x: ScoredV,
)
    requires
        scored(s, k, q, opts, scan).contains(x),
    ensures
        crate::rank::clears(opts.min_score, x.score),
        exists|i: int|
            0 <= i < scan.len() && (#[trigger] scan[i]).collection == x.collection && scan[i].id
                == x.id,
    decreases scan.len(),
{
    let all = scored(s, k, q, opts, scan);
    let j = choose|j: int| 0 <= j < all.len() && all[j] == x;
    if scan.len() > 0 {
        let d = scan.drop_last();
        let rest = scored(s, k, q, opts, d);
        if j < rest.len() {
            assert(rest[j] == x);
            scored_sound(s, k, q, opts, d, x);
            let i = choose|i: int|
                0 <= i < d.len() && (#[trigger] d[i]).collection == x.collection && d[i].id
                    == x.id;
            assert(scan[i] == d[i]);
        } else {
            assert(scan[scan.len() - 1] == scan.last());
        }
    }
}

/// Every result of an exact ranking stands for a live document in scope that the filter admits
/// and that clears the floor.
pub proof fn exact_ranking_is_sound<K: Kernel>(
    s: Store,
    k: K,
    q: Seq<u32>,
    scope: Seq<Seq<char>>,
    opts: SearchOpts,
    top_k: usize,
)
    requires
        listable(s.index@.collections),
    ensures
        ({
            let scan = scan_of(s.index@.collections, scope, opts.filter);
            let out = hits_for(s, opts.projection, best(s, k, q, opts, top_k, scan));
            forall|i: int| 0 <= i < out.len() ==> sound_hit(s, scope, opts, #[trigger] out[i])
        }),
{
    let cols = s.index@.collections;
    let scan = scan_of(cols, scope, opts.filter);
    let all = scored(s, k, q, opts, scan);
    let kept = best(s, k, q, opts, top_k, scan);
    let out = hits_for(s, opts.projection, kept);
    crate::scan::scan_is_sound(cols, scope, opts.filter);
    top_members(all, top_k as int, ranking());
    assert forall|i: int| 0 <= i < out.len() implies sound_hit(s, scope, opts, #[trigger] out[i]) by {
        assert(kept.contains(kept[i]));
        scored_sound(s, k, q, opts, scan, kept[i]);
        let j = choose|j: int|
            0 <= j < scan.len() && (#[trigger] scan[j]).collection == kept[i].collection
                && scan[j].id == kept[i].id;
        assert(scan.contains(scan[j]));
    }
}

// ── Soundness of the scan stage ─────────────────────────────────────────────

/// Every scanned item is a live document with that row.
pub open spec fn live_items(cols: CollsV, scan: Seq<ScanV>) -> bool {
    forall|i: int|
        0 <= i < scan.len() ==> is_live(
            cols,
            ((#[trigger] scan[i]).collection, scan[i].id),
        ) && cols[scan[i].collection].docs[scan[i].id].row == Some(scan[i].row)
}

proof fn picked_live(cols: CollsV, c: Seq<char>, ids: Seq<Seq<char>>, filter: Filter)
    ensures
        live_items(cols, crate::scan::picked(cols, c, ids, filter)),
    decreases ids.len(),
{
    if ids.len() > 0 {
        picked_live(cols, c, ids.drop_last(), filter);
    }
}

proof fn narrowed_live(cols: CollsV, scope: Seq<Seq<char>>, ps: Seq<ProposalV>, filter: Filter)
    ensures
        live_items(cols, narrowed(cols, scope, ps, filter)),
    decreases scope.len(),
{
    if scope.len() > 0 {
        let d = scope.drop_last();
        narrowed_live(cols, d, ps, filter);
        let c = scope.last();
        if cols.contains_key(c) {
            let own = crate::scan::picked(cols, c, ps[scope.len() - 1]->0, filter);
            picked_live(cols, c, ps[scope.len() - 1]->0, filter);
            let rest = narrowed(cols, d, ps, filter);
            let all = narrowed(cols, scope, ps, filter);
            assert forall|i: int| 0 <= i < all.len() implies is_live(
                cols,
                ((#[trigger] all[i]).collection, all[i].id),
            ) && cols[all[i].collection].docs[all[i].id].row == Some(all[i].row) by {
                if i < rest.len() {
                    assert(all[i] == rest[i]);
                } else {
                    assert(all[i] == own[i - rest.len()]);
                }
            }
        }
    }
}

proof fn live_rows_exist(s: Store, scan: Seq<ScanV>)
    requires
        s.wf(),
        live_items(s.index@.collections, scan),
    ensures
        in_rows(s, scan),
{
    let cols = s.index@.collections;
    assert forall|i: int| 0 <= i < scan.len() implies (#[trigger] scan[i]).row < s.rows@.len() by {
        assert(cols[scan[i].collection].docs[scan[i].id].row->0 < s.rows@.len());
    }
}

proof fn scan_rows_exist(s: Store, scope: Seq<Seq<char>>, filter: Filter)
    requires
        s.wf(),
        listable(s.index@.collections),
    ensures
        in_rows(s, scan_of(s.index@.collections, scope, filter)),
{
    let cols = s.index@.collections;
    let scan = scan_of(cols, scope, filter);
    crate::scan::scan_is_sound(cols, scope, filter);
    assert forall|i: int| 0 <= i < scan.len() implies is_live(
        cols,
        ((#[trigger] scan[i]).collection, scan[i].id),
    ) && cols[scan[i].collection].docs[scan[i].id].row == Some(scan[i].row) by {
        assert(scan.contains(scan[i]));
    }
    live_rows_exist(s, scan);
}

proof fn sorted_live(cols: CollsV, scan: Seq<ScanV>)
    requires
        live_items(cols, scan),
    ensures
        live_items(cols, sorted(scan, by_row())),
{
    sorted_members(scan, by_row());
    sorted_len(scan, by_row());
    let out = sorted(scan, by_row());
    assert forall|i: int| 0 <= i < out.len() implies is_live(
        cols,
        ((#[trigger] out[i]).collection, out[i].id),
    ) && cols[out[i].collection].docs[out[i].id].row == Some(out[i].row) by {
        assert(out.contains(out[i]));
        let j = choose|j: int| 0 <= j < scan.len() && scan[j] == out[i];
    }
}

/// Every row that a query scans exists.
pub proof fn stage_in_rows<H: Host>(s: Store, h: H, scope: Seq<Seq<char>>, filter: Filter)
    requires
        s.wf(),
        listable(s.index@.collections),
    ensures
        in_rows(s, stage(s, h, scope, filter).1),
{
    let cols = s.index@.collections;
    let ps = proposals_of(s, h, scope, filter);
    scan_rows_exist(s, scope, filter);
    narrowed_live(cols, scope, ps, filter);
    sorted_live(cols, narrowed(cols, scope, ps, filter));
    live_rows_exist(s, sorted(narrowed(cols, scope, ps, filter), by_row()));
}

pub(crate) fn elapsed(from: u64, now: u64) -> (r: u64)
    ensures
        from <= now ==> r == now - from,
        from > now ==> r == 0,
{
    if now > from {
        now - from
    } else {
        0
    }
}

/// Record a phase that began at `from`; a recorder that is off reads no clock.
fn lap<H: Host>(rec: &mut PlanRec, slot: Phase, from: u64, h: &H)
    ensures
        untimed(*final(rec)) == recorded(
            untimed(*old(rec)),
            |r: Rec| Rec { timings: crate::plan::timed(r.timings, slot, 0), ..r },
        ),
{
    if rec.is_on() {
        let now: u64 = h.now();
        rec.stop(slot, elapsed(from, now));
    }
}

/// When a phase begins, as the clock tells it; a recorder that is off reads no clock.
fn begin<H: Host>(rec: &PlanRec, h: &H) -> (r: u64)
    ensures
        *rec is On ==> call_ensures(H::now, (h,), r),
        *rec is Off ==> r == 0,
{
    if rec.is_on() {
        h.now()
    } else {
        0
    }
}

impl Store {
    /// The one tail that every ranking goes through: cap by value, spread out, cut the page,
    /// widen it. The cap comes before the spread, and both before the cut.
    pub fn finish<K: Kernel>(&self, ranked: Vec<Hit>, opts: &SearchOpts, k: &K) -> (out: Vec<Hit>)
        requires
            self.wf(),
            functional(*k),
        ensures
            views(out@) == finish_of(*self, *k, *opts, views(ranked@)),
    {
        let thinned = match &opts.limit_per {
            Some(cap) => self.cap_per_value(ranked, cap),
            None => ranked,
        };
        let spread = match opts.diversity {
            Some(lambda) => self.diversify(thinned, lambda, k),
            None => thinned,
        };
        let mut hits = cut(spread, opts.offset, opts.top_k);
        proof {
            assert(views(hits@) =~= page(
                views(spread@),
                opts.offset as int,
                opts.top_k as int,
            ));
        }
        if let Some(e) = &opts.expand {
            self.expand_hits(&mut hits, e);
        }
        hits
    }

    /// What the filter index proposes for each collection in scope.
    fn proposals<H: Host>(&self, collections: &[&str], filter: &Filter, h: &H) -> (out: Vec<
        Proposal,
    >)
        requires
            settled(*h),
        ensures
            proposed(out@) == proposals_of(*self, *h, names(collections@), *filter),
            out@.len() == collections@.len(),
    {
        let mut out: Vec<Proposal> = Vec::new();
        let mut i: usize = 0;
        while i < collections.len()
            invariant
                i <= collections@.len(),
                settled(*h),
                out@.len() == i,
                forall|j: int|
                    0 <= j < i ==> ids_in(#[trigger] out@[j]) == proposals_of(
                        *self,
                        *h,
                        names(collections@),
                        *filter,
                    )[j],
            decreases collections@.len() - i,
        {
            let c = collections[i];
            let p = if self.index.collections.contains_key(c) {
                propose(h, c, filter)
            } else {
                None
            };
            out.push(p);
            i = i + 1;
        }
        proof {
            assert(proposed(out@) =~= proposals_of(*self, *h, names(collections@), *filter));
        }
        out
    }

    /// The scan of a query, narrowed by the filter index where that can answer.
    pub(crate) fn sorted_scan<H: Host>(
        &self,
        collections: &[&str],
        filter: &Filter,
        h: &H,
        rec: &mut PlanRec,
    ) -> (scan: Vec<ScanItem>)
        requires
            self.wf(),
            settled(*h),
        ensures
            views(scan@) == stage(*self, *h, names(collections@), *filter).1,
            in_rows(*self, views(scan@)),
            untimed(*final(rec)) == recorded(
                untimed(*old(rec)),
                |r: Rec|
                    Rec {
                        narrowing: Some(stage(*self, *h, names(collections@), *filter).0),
                        timings: Timings { narrow: Some(0), gather: Some(0), ..r.timings },
                        ..r
                    },
            ),
    {
        let ghost cols = self.index@.collections;
        let ghost scope = names(collections@);
        let t: u64 = begin(rec, h);
        let active = !self.index.findex.is_empty();
        let proposals = if active {
            self.proposals(collections, filter, h)
        } else {
            let mut none: Vec<Proposal> = Vec::new();
            let mut i: usize = 0;
            while i < collections.len()
                invariant
                    i <= collections@.len(),
                    none@.len() == i,
                decreases collections@.len() - i,
            {
                none.push(None);
                i = i + 1;
            }
            none
        };
        let (fared, some) = self.narrowed_scan(collections, filter, active, &proposals);
        lap(rec, Phase::Narrow, t, h);
        rec.narrowing(fared);
        check_listable(&self.index.collections);
        let t: u64 = begin(rec, h);
        let scan = match fared {
            Narrowing::Narrowed { .. } => {
                proof {
                    narrowed_live(cols, scope, proposed(proposals@), *filter);
                    sorted_live(cols, narrowed(cols, scope, proposed(proposals@), *filter));
                    live_rows_exist(*self, views(some@));
                }
                some
            },
            _ => {
                proof {
                    scan_rows_exist(*self, scope, *filter);
                }
                self.scan(collections, filter)
            },
        };
        lap(rec, Phase::Gather, t, h);
        scan
    }

    /// A linear scan.
    fn search_scan<K: Kernel, H: Host>(
        &self,
        collections: &[&str],
        q: &Vec<u32>,
        opts: &SearchOpts,
        top_k: usize,
        k: &K,
        h: &H,
        rec: &mut PlanRec,
    ) -> (r: Result<Vec<Hit>, StoreError>)
        requires
            self.wf(),
            self.current(),
            functional(*k),
            settled(*h),
            q@.len() == self.config.dimension,
        ensures
            minds(
                *h,
                scan_outcome(*self, *k, *h, names(collections@), q@, *opts, top_k).looks,
                r,
            ),
            r matches Ok(out) ==> views(out@) == scan_outcome(*self, *k, *h, names(collections@), q@, *opts, top_k).ranked && untimed(*final(rec)) == noted(
                untimed(*old(rec)),
                scan_outcome(*self, *k, *h, names(collections@), q@, *opts, top_k),
            ),
    {
        let scan = self.sorted_scan(collections, &opts.filter, h, rec);
        rec.rows_scanned(scan.len() as u64);
        if !opts.exact && self.config.dimension > 0 && self.quant.is_some() && self.rows.len() > 0 {
            let t: u64 = begin(rec, h);
            let n: usize = self.overscan(top_k);
            let picked = match self.coarse_pass(q, &scan, n, k, h) {
                Err(e) => {
                    return Err(e);
                },
                Ok(x) => x,
            };
            lap(rec, Phase::FirstPass, t, h);
            let t: u64 = begin(rec, h);
            let ranked = self.rescore(q, &picked, opts, top_k, k);
            lap(rec, Phase::Rescore, t, h);
            rec.path(QueryPath::Quantized);
            Ok(self.hits_from_topk(ranked, &opts.projection))
        } else {
            rec.path(QueryPath::Exact);
            let t: u64 = begin(rec, h);
            let ranked = match self.rank_scan(q, &scan, opts, top_k, k, h) {
                Err(e) => {
                    return Err(e);
                },
                Ok(x) => x,
            };
            lap(rec, Phase::Score, t, h);
            Ok(self.hits_from_topk(ranked, &opts.projection))
        }
    }

    /// How many documents with a row a collection has.
    fn rowed_count(col: &crate::index::Collection) -> (n: usize)
        ensures
            n == rowed(ordered(col@.docs)),
    {
        let len: usize = col.docs.len();
        let ghost e = col.docs.entries();
        let mut n: usize = 0;
        let mut i: usize = 0;
        proof {
            assert(e.take(0) =~= Seq::empty());
        }
        while i < len
            invariant
                i <= len,
                n <= i,
                len == e.len(),
                e == col.docs.entries(),
                n == rowed(e.take(i as int)),
            decreases len - i,
        {
            proof {
                assert(e.take(i + 1).drop_last() =~= e.take(i as int));
                assert(e.take(i + 1).last() == e[i as int]);
            }
            if col.docs.value_at(i).row.is_some() {
                n = n + 1;
            }
            i = i + 1;
        }
        proof {
            assert(e.take(i as int) =~= e);
        }
        n
    }

    /// How many documents have a row.
    pub fn scannable_doc_count(&self) -> (n: u128)
        ensures
            n == rowed_total(ordered(self.index@.collections)),
    {
        let len: usize = self.index.collections.len();
        let ghost e = self.index.collections.entries();
        let mut n: u128 = 0;
        let mut i: usize = 0;
        proof {
            assert(e.take(0) =~= Seq::empty());
        }
        while i < len
            invariant
                i <= len,
                len == e.len(),
                e == self.index.collections.entries(),
                n <= i * usize::MAX,
                n == rowed_total(e.take(i as int)),
            decreases len - i,
        {
            let own: usize = Store::rowed_count(self.index.collections.value_at(i));
            proof {
                assert(e.take(i + 1).drop_last() =~= e.take(i as int));
                assert(e.take(i + 1).last() == e[i as int]);
                assert(i * usize::MAX + usize::MAX == (i + 1) * usize::MAX) by (nonlinear_arith);
                assert((i + 1) * usize::MAX <= u128::MAX) by (nonlinear_arith)
                    requires
                        i < usize::MAX,
                        usize::MAX <= u64::MAX,
                ;
            }
            n = n + own as u128;
            i = i + 1;
        }
        proof {
            assert(e.take(i as int) =~= e);
        }
        n
    }

    /// How many documents in scope have a row.
    pub fn scannable_in_scope(&self, collections: &[&str]) -> (n: u128)
        ensures
            n == rowed_in(self.index@.collections, names(collections@)),
    {
        let ghost cols = self.index@.collections;
        let ghost scope = names(collections@);
        let mut n: u128 = 0;
        let mut i: usize = 0;
        proof {
            assert(scope.take(0) =~= Seq::empty());
        }
        while i < collections.len()
            invariant
                i <= collections@.len(),
                cols == self.index@.collections,
                scope == names(collections@),
                n <= i * usize::MAX,
                n == rowed_in(cols, scope.take(i as int)),
            decreases collections@.len() - i,
        {
            proof {
                assert(scope.take(i + 1).drop_last() =~= scope.take(i as int));
                assert(scope.take(i + 1).last() == collections@[i as int]@);
                assert(i * usize::MAX + usize::MAX == (i + 1) * usize::MAX) by (nonlinear_arith);
                assert((i + 1) * usize::MAX <= u128::MAX) by (nonlinear_arith)
                    requires
                        i < usize::MAX,
                        usize::MAX <= u64::MAX,
                ;
            }
            if !is_repeated(collections, i) {
                if let Some(col) = self.index.collections.get(collections[i]) {
                    n = n + Store::rowed_count(col) as u128;
                }
            }
            i = i + 1;
        }
        proof {
            assert(scope.take(i as int) =~= scope);
        }
        n
    }

    /// Whether a walk could starve on this query.
    fn starves(&self, collections: &[&str], filter: &Filter, top_k: usize, found: usize) -> (r: bool)
        requires
            found == gathered(self.index@.collections, names(collections@), *filter).len(),
        ensures
            r == prefilters(*self, names(collections@), *filter, top_k),
    {
        let overscan: usize = self.walk_overscan();
        let want: usize = Store::candidates_wanted(top_k, overscan);
        let total: u128 = self.scannable_doc_count();
        if filter.0.len() == 0 && self.scannable_in_scope(collections) >= total {
            return false;
        }
        let share: u128 = total / (overscan as u128);
        let cap: u128 = if share < want as u128 {
            want as u128
        } else {
            share
        };
        found as u128 <= cap
    }

    fn walk_overscan(&self) -> (r: usize)
        ensures
            r == ann_overscan(*self),
            r >= 1,
    {
        match self.config.ann {
            Some(a) => if a.overscan < 1 {
                1
            } else {
                a.overscan
            },
            None => 1,
        }
    }

    fn candidates_wanted(top_k: usize, overscan: usize) -> (r: usize)
        ensures
            r == wanted(top_k, overscan),
    {
        let n: usize = saturating_times(top_k, overscan);
        if n < top_k {
            top_k
        } else {
            n
        }
    }

    /// A walk of the nearest-neighbour index, or an exact ranking where a walk could starve.
    fn search_ann<K: Kernel, H: Host>(
        &self,
        collections: &[&str],
        q: &Vec<u32>,
        opts: &SearchOpts,
        top_k: usize,
        k: &K,
        h: &H,
        rec: &mut PlanRec,
    ) -> (r: Result<Vec<Hit>, StoreError>)
        requires
            self.wf(),
            self.ann,
            functional(*k),
            settled(*h),
        ensures
            minds(
                *h,
                ann_outcome(*self, *k, *h, names(collections@), q@, *opts, top_k).looks,
                r,
            ),
            r matches Ok(out) ==> views(out@) == ann_outcome(*self, *k, *h, names(collections@), q@, *opts, top_k).ranked && untimed(*final(rec)) == noted(
                untimed(*old(rec)),
                ann_outcome(*self, *k, *h, names(collections@), q@, *opts, top_k),
            ),
    {
        let ghost scope = names(collections@);
        rec.path(QueryPath::Ann);
        if top_k == 0 {
            let none: Vec<Hit> = Vec::new();
            proof {
                assert(views(none@) =~= Seq::empty());
            }
            return Ok(none);
        }
        let scan = self.scan(collections, &opts.filter);
        check_listable(&self.index.collections);
        proof {
            sorted_len(gathered(self.index@.collections, scope, opts.filter), by_row());
            scan_rows_exist(*self, scope, opts.filter);
        }
        if self.starves(collections, &opts.filter, top_k, scan.len()) {
            rec.path(QueryPath::AnnPrefilterFallback);
            let ranked = match self.rank_scan(q, &scan, opts, top_k, k, h) {
                Err(e) => {
                    return Err(e);
                },
                Ok(x) => x,
            };
            return Ok(self.hits_from_topk(ranked, &opts.projection));
        }
        let n: usize = Store::candidates_wanted(top_k, self.walk_overscan());
        let t: u64 = begin(rec, h);
        let rows = match &self.config.ann {
            Some(ann) => walk(h, ann, q, n),
            None => Vec::new(),
        };
        lap(rec, Phase::Walk, t, h);
        let t: u64 = begin(rec, h);
        let mut best_so_far = TopK::new(top_k);
        let acc = self.offer_candidates(&rows, collections, q, opts, k, &mut best_so_far);
        lap(rec, Phase::Resolve, t, h);
        rec.record_candidates(acc);
        proof {
            assert(best_so_far.offered() =~= survivors(*self, *k, q@, *opts, scope, rows@));
        }
        Ok(self.hits_from_topk(best_so_far.into_sorted(), &opts.projection))
    }

    /// Whether the row lies in a segment that has an index of its own.
    fn is_covered(&self, row: u64) -> (r: bool)
        requires
            self.wf(),
        ensures
            r == in_indexed(self.segments@, self.indexed@, row),
    {
        let ghost segs = self.segments@;
        let mut base: u64 = 0;
        let mut found = false;
        let mut i: usize = 0;
        proof {
            assert(segs.take(0) =~= Seq::empty());
            assert(self.rows@.len() == self.rows.len());
        }
        while i < self.segments.len()
            invariant
                i <= segs.len(),
                segs == self.segments@,
                seg_total(segs) <= u64::MAX,
                base == seg_total(segs.take(i as int)),
                found == in_indexed(segs.take(i as int), self.indexed@, row),
            decreases segs.len() - i,
        {
            proof {
                assert(segs.take(i + 1).drop_last() =~= segs.take(i as int));
                assert(segs.take(i + 1).last() == segs[i as int]);
                seg_total_prefix(segs, i + 1);
            }
            let end: u64 = base + self.segments[i].rows;
            if i < self.indexed.len() && self.indexed[i] && base <= row && row < end {
                found = true;
            }
            base = end;
            i = i + 1;
        }
        proof {
            assert(segs.take(i as int) =~= segs);
        }
        found
    }

    /// The part of a scan that no segment's index covers.
    fn tail_of(&self, scan: Vec<ScanItem>) -> (out: Vec<ScanItem>)
        requires
            self.wf(),
            in_rows(*self, views(scan@)),
        ensures
            views(out@) == uncovered(*self, views(scan@)),
            in_rows(*self, views(out@)),
    {
        let ghost all = views(scan@);
        let ghost items = scan@;
        let mut rest = reversed(scan);
        let mut out: Vec<ScanItem> = Vec::new();
        let ghost mut i: int = 0;
        proof {
            assert(all.take(0) =~= Seq::empty());
            assert(views(out@) =~= Seq::empty());
        }
        while rest.len() > 0
            invariant
                0 <= i <= items.len(),
                rest@.len() == items.len() - i,
                forall|j: int|
                    0 <= j < rest@.len() ==> #[trigger] rest@[j] == items[items.len() - 1 - j],
                all == views(items),
                self.wf(),
                in_rows(*self, all),
                views(out@) == uncovered(*self, all.take(i)),
                in_rows(*self, views(out@)),
            decreases rest@.len(),
        {
            proof {
                assert(rest@.last() == items[i]);
                assert(all.take(i + 1).drop_last() =~= all.take(i));
                assert(all.take(i + 1).last() == all[i]);
            }
            if let Some(x) = rest.pop() {
                proof {
                    assert(x@ == all[i]);
                }
                if !self.is_covered(x.row) {
                    let ghost before = views(out@);
                    out.push(x);
                    proof {
                        assert(views(out@) =~= before.push(all[i]));
                    }
                }
                proof {
                    i = i + 1;
                }
            }
        }
        proof {
            assert(all.take(i) =~= all);
        }
        out
    }

    /// Walk every segment's index.
    fn walk_segments<H: Host>(&self, q: &Vec<u32>, want: usize, h: &H) -> (rows: Vec<u64>)
        requires
            settled(*h),
        ensures
            rows@ == segment_walks(*self, *h, q@, want, self.indexed@.len()),
    {
        let mut rows: Vec<u64> = Vec::new();
        let mut i: usize = 0;
        while i < self.indexed.len()
            invariant
                i <= self.indexed@.len(),
                settled(*h),
                rows@ == segment_walks(*self, *h, q@, want, i as nat),
            decreases self.indexed@.len() - i,
        {
            if self.indexed[i] {
                let mut found = walk_segment(h, i, q, want);
                rows.append(&mut found);
            }
            i = i + 1;
        }
        rows
    }

    /// Walks of the segments that have an index, and an exact ranking of the rest, made one.
    fn search_segmented<K: Kernel, H: Host>(
        &self,
        collections: &[&str],
        q: &Vec<u32>,
        opts: &SearchOpts,
        top_k: usize,
        k: &K,
        h: &H,
        rec: &mut PlanRec,
    ) -> (r: Result<Vec<Hit>, StoreError>)
        requires
            self.wf(),
            functional(*k),
            settled(*h),
        ensures
            minds(
                *h,
                segmented_outcome(*self, *k, *h, names(collections@), q@, *opts, top_k).looks,
                r,
            ),
            r matches Ok(out) ==> views(out@) == segmented_outcome(*self, *k, *h, names(collections@), q@, *opts, top_k).ranked && untimed(*final(rec)) == noted(
                untimed(*old(rec)),
                segmented_outcome(*self, *k, *h, names(collections@), q@, *opts, top_k),
            ),
    {
        let ghost scope = names(collections@);
        rec.path(QueryPath::Segmented);
        if top_k == 0 {
            let none: Vec<Hit> = Vec::new();
            proof {
                assert(views(none@) =~= Seq::empty());
            }
            return Ok(none);
        }
        let scan = self.scan(collections, &opts.filter);
        check_listable(&self.index.collections);
        proof {
            scan_rows_exist(*self, scope, opts.filter);
        }
        let tail = self.tail_of(scan);
        let mut best_so_far = TopK::new(top_k);
        let n: usize = tail.len();
        if let Err(e) = self.offer_blocks(q, &tail, 0, n, opts, k, h, &mut best_so_far) {
            return Err(e);
        }
        proof {
            assert(views(tail@).subrange(0, n as int) =~= views(tail@));
            assert(best_so_far.offered() =~= scored(*self, *k, q@, *opts, views(tail@)));
        }
        let want: usize = Store::candidates_wanted(top_k, SEGMENT_OVERSCAN);
        let t: u64 = begin(rec, h);
        let rows = self.walk_segments(q, want, h);
        let acc = self.offer_candidates(&rows, collections, q, opts, k, &mut best_so_far);
        lap(rec, Phase::Walk, t, h);
        rec.record_candidates(acc);
        Ok(self.hits_from_topk(best_so_far.into_sorted(), &opts.projection))
    }

    pub(crate) fn any_segment_indexed(&self) -> (r: bool)
        ensures
            r == segmented(*self),
    {
        let mut i: usize = 0;
        while i < self.indexed.len()
            invariant
                i <= self.indexed@.len(),
                forall|j: int| 0 <= j < i ==> !#[trigger] self.indexed@[j],
            decreases self.indexed@.len() - i,
        {
            if self.indexed[i] {
                proof {
                    assert(self.indexed@[i as int]);
                }
                return true;
            }
            i = i + 1;
        }
        false
    }

    /// Rank `top_k` deep, by the path that the store and the query call for.
    pub(crate) fn search_ranked<K: Kernel, H: Host>(
        &self,
        collections: &[&str],
        query: &Vec<u32>,
        opts: &SearchOpts,
        top_k: usize,
        k: &K,
        h: &H,
        rec: &mut PlanRec,
    ) -> (r: Result<Vec<Hit>, StoreError>)
        requires
            self.wf(),
            self.current(),
            functional(*k),
            settled(*h),
            query@.len() == self.config.dimension,
        ensures
            minds(
                *h,
                outcome(
                    *self,
                    *k,
                    *h,
                    names(collections@),
                    query_of(*self, *k, query@),
                    *opts,
                    top_k,
                ).looks,
                r,
            ),
            r matches Ok(out) ==> views(out@) == outcome(
                    *self,
                    *k,
                    *h,
                    names(collections@),
                    query_of(*self, *k, query@),
                    *opts,
                    top_k,
                ).ranked && untimed(*final(rec)) == noted(
                untimed(*old(rec)),
                outcome(
                    *self,
                    *k,
                    *h,
                    names(collections@),
                    query_of(*self, *k, query@),
                    *opts,
                    top_k,
                ),
            ),
    {
        let unit: Option<Vec<u32>> = match self.config.distance {
            Distance::Cosine => {
                Some(crate::kernel::unit(k, query))
            },
            _ => None,
        };
        let q: &Vec<u32> = match &unit {
            Some(u) => u,
            None => query,
        };
        if self.ann && !opts.exact {
            self.search_ann(collections, q, opts, top_k, k, h, rec)
        } else if !opts.exact && self.any_segment_indexed() {
            self.search_segmented(collections, q, opts, top_k, k, h, rec)
        } else {
            self.search_scan(collections, q, opts, top_k, k, h, rec)
        }
    }

    /// The body that the two search functions share.
    pub(crate) fn search_inner<K: Kernel, H: Host>(
        &self,
        collections: &[&str],
        query: &Vec<u32>,
        opts: &SearchOpts,
        k: &K,
        h: &H,
        rec: &mut PlanRec,
    ) -> (r: Result<Vec<Hit>, StoreError>)
        requires
            self.wf(),
            self.current(),
            functional(*k),
            settled(*h),
        ensures
            search_refusal(*self, query@, *opts) matches Some(e) ==> r == Err::<
                Vec<Hit>,
                StoreError,
            >(e),
            search_refusal(*self, query@, *opts) is None ==> minds(
                *h,
                outcome(
                    *self,
                    *k,
                    *h,
                    names(collections@),
                    query_of(*self, *k, query@),
                    *opts,
                    depth_of(*opts),
                ).looks,
                r,
            ),
            r matches Ok(out) ==> views(out@) == search_of(
                *self,
                *k,
                *h,
                names(collections@),
                query@,
                *opts,
            ) && untimed(*final(rec)) == noted(
                untimed(*old(rec)),
                outcome(
                    *self,
                    *k,
                    *h,
                    names(collections@),
                    query_of(*self, *k, query@),
                    *opts,
                    depth_of(*opts),
                ),
            ),
    {
        if query.len() != self.config.dimension {
            return Err(
                StoreError::QueryLength { got: query.len(), want: self.config.dimension },
            );
        }
        if let Err(f) = check_query_opts(opts) {
            return Err(StoreError::Query(f));
        }
        match self.search_ranked(collections, query, opts, depth(opts), k, h, rec) {
            Err(e) => Err(e),
            Ok(ranked) => Ok(self.finish(ranked, opts, k)),
        }
    }

    /// Search the union of the collections for the vectors nearest to `query`, as one ranking.
    pub fn search<K: Kernel, H: Host>(
        &self,
        collections: &[&str],
        query: &Vec<u32>,
        opts: &SearchOpts,
        k: &K,
        h: &H,
    ) -> (r: Result<Vec<Hit>, StoreError>)
        requires
            self.wf(),
            self.current(),
            functional(*k),
            settled(*h),
        ensures
            search_refusal(*self, query@, *opts) matches Some(e) ==> r == Err::<
                Vec<Hit>,
                StoreError,
            >(e),
            search_refusal(*self, query@, *opts) is None ==> minds(
                *h,
                outcome(
                    *self,
                    *k,
                    *h,
                    names(collections@),
                    query_of(*self, *k, query@),
                    *opts,
                    depth_of(*opts),
                ).looks,
                r,
            ),
            r matches Ok(out) ==> views(out@) == search_of(
                *self,
                *k,
                *h,
                names(collections@),
                query@,
                *opts,
            ),
    {
        let mut rec = PlanRec::new(opts.plan);
        self.search_inner(collections, query, opts, k, h, &mut rec)
    }

    /// Like [`Store::search`], with the plan of how the query ran.
    pub fn search_with_plan<K: Kernel, H: Host>(
        &self,
        collections: &[&str],
        query: &Vec<u32>,
        opts: &SearchOpts,
        k: &K,
        h: &H,
    ) -> (r: Result<(Vec<Hit>, QueryPlan), StoreError>)
        requires
            self.wf(),
            self.current(),
            functional(*k),
            settled(*h),
        ensures
            search_refusal(*self, query@, *opts) matches Some(e) ==> r == Err::<
                (Vec<Hit>, QueryPlan),
                StoreError,
            >(e),
            search_refusal(*self, query@, *opts) is None ==> minds(
                *h,
                outcome(
                    *self,
                    *k,
                    *h,
                    names(collections@),
                    query_of(*self, *k, query@),
                    *opts,
                    depth_of(*opts),
                ).looks,
                r,
            ),
            r matches Ok((out, plan)) ==> views(out@) == search_of(
                *self,
                *k,
                *h,
                names(collections@),
                query@,
                *opts,
            ) && plan_of(
                outcome(
                    *self,
                    *k,
                    *h,
                    names(collections@),
                    query_of(*self, *k, query@),
                    *opts,
                    depth_of(*opts),
                ),
                plan,
            ),
    {
        let start: u64 = h.now();
        let mut rec = PlanRec::new(true);
        match self.search_inner(collections, query, opts, k, h, &mut rec) {
            Err(e) => Err(e),
            Ok(hits) => match rec.finish(elapsed(start, h.now())) {
                Some(plan) => Ok((hits, plan)),
                None => {
                    proof {
                        assert(untimed(rec) is On);
                        assert(false);
                    }
                    Err(StoreError::DamagedRows)
                },
            },
        }
    }
}

// ── More like this ──────────────────────────────────────────────────────────

/// The results without those of one document.
pub open spec fn without_doc(hits: Seq<HitV>, c: Seq<char>, id: Seq<char>) -> Seq<HitV>
    decreases hits.len(),
{
    if hits.len() == 0 {
        Seq::empty()
    } else {
        let rest = without_doc(hits.drop_last(), c, id);
        let h = hits.last();
        if h.collection == c && h.id == id {
            rest
        } else {
            rest.push(h)
        }
    }
}

/// Why a search by a stored record is refused.
pub open spec fn similar_refusal(s: Store, c: Seq<char>, id: Seq<char>, opts: SearchOpts) -> Option<
    StoreError,
> {
    let cols = s.index@.collections;
    if !(cols.contains_key(c) && cols[c].docs.contains_key(id)) {
        Some(StoreError::Query(QueryFault::NoRecord))
    } else if cols[c].docs[id].row is None {
        Some(StoreError::Query(QueryFault::TextOnly))
    } else {
        match query_fault(opts) {
            Some(f) => Some(StoreError::Query(f)),
            None => None,
        }
    }
}

/// How deep a search by a stored record ranks: one more than otherwise, for the record itself.
pub open spec fn similar_outcome<K: Kernel, H: Host>(
    s: Store,
    k: K,
    h: H,
    scope: Seq<Seq<char>>,
    c: Seq<char>,
    id: Seq<char>,
    opts: SearchOpts,
) -> Outcome {
    let query = s.rows@[s.index@.collections[c].docs[id].row->0 as int]@;
    outcome(s, k, h, scope, query_of(s, k, query), opts, plus(depth_of(opts), 1))
}

/// The results of a search by a stored record.
pub open spec fn similar_of<K: Kernel, H: Host>(
    s: Store,
    k: K,
    h: H,
    scope: Seq<Seq<char>>,
    c: Seq<char>,
    id: Seq<char>,
    opts: SearchOpts,
) -> Seq<HitV> {
    finish_of(s, k, opts, without_doc(similar_outcome(s, k, h, scope, c, id, opts).ranked, c, id))
}

proof fn without_doc_members(hits: Seq<HitV>, c: Seq<char>, id: Seq<char>)
    ensures
        forall|i: int|
            0 <= i < without_doc(hits, c, id).len() ==> {
                &&& hits.contains(#[trigger] without_doc(hits, c, id)[i])
                &&& without_doc(hits, c, id)[i].collection != c || without_doc(hits, c, id)[i].id
                    != id
            },
        forall|i: int|
            0 <= i < hits.len() && ((#[trigger] hits[i]).collection != c || hits[i].id != id)
                ==> without_doc(hits, c, id).contains(hits[i]),
    decreases hits.len(),
{
    if hits.len() > 0 {
        let d = hits.drop_last();
        without_doc_members(d, c, id);
        let rest = without_doc(d, c, id);
        let all = without_doc(hits, c, id);
        assert forall|i: int| 0 <= i < all.len() implies hits.contains(#[trigger] all[i]) && (
        all[i].collection != c || all[i].id != id) by {
            if i < rest.len() {
                assert(all[i] == rest[i]);
                let j = choose|j: int| 0 <= j < d.len() && d[j] == rest[i];
                assert(hits[j] == all[i]);
            } else {
                assert(hits[hits.len() - 1] == all[i]);
            }
        }
        assert forall|i: int|
            0 <= i < hits.len() && ((#[trigger] hits[i]).collection != c || hits[i].id
                != id) implies all.contains(hits[i]) by {
            if i < d.len() {
                assert(d[i] == hits[i]);
                let j = choose|j: int| 0 <= j < rest.len() && rest[j] == d[i];
                assert(all[j] == hits[i]);
            } else {
                assert(all[all.len() - 1] == hits[i]);
            }
        }
    }
}

/// Every result of a page stands for a document of the ranking.
pub proof fn page_comes_from_the_ranking<K: Kernel>(
    s: Store,
    k: K,
    opts: SearchOpts,
    ranked: Seq<HitV>,
)
    ensures
        forall|i: int|
            0 <= i < finish_of(s, k, opts, ranked).len() ==> exists|j: int|
                0 <= j < ranked.len() && #[trigger] ranked[j] == (HitV {
                    context: ranked[j].context,
                    ..(#[trigger] finish_of(s, k, opts, ranked)[i])
                }),
{
    let cols = s.index@.collections;
    let thinned = match opts.limit_per {
        Some(cap) => capped(cols, cap.field@, cap.max as int, ranked),
        None => ranked,
    };
    let spread = match opts.diversity {
        Some(lambda) => diversified(k, cols, views(s.rows@), lambda, thinned),
        None => thinned,
    };
    let cut_page = page(spread, opts.offset as int, opts.top_k as int);
    let out = finish_of(s, k, opts, ranked);
    expansion_keeps_the_ranking(cols, opts.expand, cut_page);
    assert forall|i: int| 0 <= i < out.len() implies exists|j: int|
        0 <= j < ranked.len() && #[trigger] ranked[j] == (HitV {
            context: ranked[j].context,
            ..(#[trigger] out[i])
        }) by {
        assert(out[i] == HitV { context: out[i].context, ..cut_page[i] });
        assert(cut_page[i] == spread[opts.offset + i]);
        spread_members(s, k, opts, thinned, opts.offset + i);
        let t = choose|t: int| 0 <= t < thinned.len() && thinned[t] == spread[opts.offset + i];
        let j = match opts.limit_per {
            Some(cap) => {
                let keys = crate::aggregate::hit_keys(cols, cap.field@, ranked);
                crate::aggregate::cap_keeps_order(keys, cap.max as int);
                crate::aggregate::kept(keys, cap.max as int)[t]
            },
            None => t,
        };
        assert(ranked[j] == thinned[t]);
        assert(ranked[j] == HitV { context: ranked[j].context, ..out[i] });
    }
}

proof fn spread_members<K: Kernel>(
    s: Store,
    k: K,
    opts: SearchOpts,
    thinned: Seq<HitV>,
    i: int,
)
    requires
        0 <= i < thinned.len() || 0 <= i < (match opts.diversity {
            Some(lambda) => diversified(k, s.index@.collections, views(s.rows@), lambda, thinned),
            None => thinned,
        }).len(),
    ensures
        thinned.contains(
            (match opts.diversity {
                Some(lambda) => diversified(k, s.index@.collections, views(s.rows@), lambda, thinned),
                None => thinned,
            })[i],
        ),
{
    broadcast use vstd::seq_lib::group_to_multiset_ensures;

    if let Some(lambda) = opts.diversity {
        let out = diversified(k, s.index@.collections, views(s.rows@), lambda, thinned);
        crate::diversity::diversity_only_reorders(
            k,
            s.index@.collections,
            views(s.rows@),
            lambda,
            thinned,
        );
        assert(out.contains(out[i]));
        assert(out.to_multiset().count(out[i]) > 0);
        assert(thinned.to_multiset().count(out[i]) > 0);
    } else {
        assert(thinned.contains(thinned[i]));
    }
}

/// A search by a stored record never returns that record, whatever it scores.
pub proof fn similar_leaves_the_source_out<K: Kernel, H: Host>(
    s: Store,
    k: K,
    h: H,
    scope: Seq<Seq<char>>,
    c: Seq<char>,
    id: Seq<char>,
    opts: SearchOpts,
)
    ensures
        forall|i: int|
            0 <= i < similar_of(s, k, h, scope, c, id, opts).len() ==> (
            #[trigger] similar_of(s, k, h, scope, c, id, opts)[i]).collection != c || similar_of(
                s,
                k,
                h,
                scope,
                c,
                id,
                opts,
            )[i].id != id,
{
    let wide = similar_outcome(s, k, h, scope, c, id, opts).ranked;
    let ranked = without_doc(wide, c, id);
    let out = similar_of(s, k, h, scope, c, id, opts);
    without_doc_members(wide, c, id);
    page_comes_from_the_ranking(s, k, opts, ranked);
    assert forall|i: int| 0 <= i < out.len() implies (#[trigger] out[i]).collection != c
        || out[i].id != id by {
        let j = choose|j: int|
            0 <= j < ranked.len() && #[trigger] ranked[j] == (HitV {
                context: ranked[j].context,
                ..out[i]
            });
        assert(ranked[j].collection != c || ranked[j].id != id);
    }
}

fn drop_doc(hits: Vec<Hit>, collection: &str, id: &str) -> (out: Vec<Hit>)
    ensures
        views(out@) == without_doc(views(hits@), collection@, id@),
{
    let ghost all = views(hits@);
    let ghost items = hits@;
    let mut rest = reversed(hits);
    let mut out: Vec<Hit> = Vec::new();
    let ghost mut i: int = 0;
    proof {
        assert(all.take(0) =~= Seq::empty());
        assert(views(out@) =~= Seq::empty());
    }
    while rest.len() > 0
        invariant
            0 <= i <= items.len(),
            rest@.len() == items.len() - i,
            forall|j: int|
                0 <= j < rest@.len() ==> #[trigger] rest@[j] == items[items.len() - 1 - j],
            all == views(items),
            views(out@) == without_doc(all.take(i), collection@, id@),
        decreases rest@.len(),
    {
        proof {
            assert(rest@.last() == items[i]);
            assert(all.take(i + 1).drop_last() =~= all.take(i));
            assert(all.take(i + 1).last() == all[i]);
        }
        if let Some(x) = rest.pop() {
            proof {
                assert(x@ == all[i]);
            }
            if !(same(x.collection.as_str(), collection) && same(x.id.as_str(), id)) {
                let ghost before = views(out@);
                out.push(x);
                proof {
                    assert(views(out@) =~= before.push(all[i]));
                }
            }
            proof {
                i = i + 1;
            }
        }
    }
    proof {
        assert(all.take(i) =~= all);
    }
    out
}

impl Store {
    /// The body that the two functions share.
    fn search_similar_inner<K: Kernel, H: Host>(
        &self,
        collections: &[&str],
        collection: &str,
        id: &str,
        opts: &SearchOpts,
        k: &K,
        h: &H,
        rec: &mut PlanRec,
    ) -> (r: Result<Vec<Hit>, StoreError>)
        requires
            self.wf(),
            self.current(),
            functional(*k),
            settled(*h),
        ensures
            similar_refusal(*self, collection@, id@, *opts) matches Some(e) ==> r == Err::<
                Vec<Hit>,
                StoreError,
            >(e),
            similar_refusal(*self, collection@, id@, *opts) is None ==> minds(
                *h,
                similar_outcome(
                    *self,
                    *k,
                    *h,
                    names(collections@),
                    collection@,
                    id@,
                    *opts,
                ).looks,
                r,
            ),
            r matches Ok(out) ==> views(out@) == similar_of(
                *self,
                *k,
                *h,
                names(collections@),
                collection@,
                id@,
                *opts,
            ) && untimed(*final(rec)) == noted(
                untimed(*old(rec)),
                similar_outcome(*self, *k, *h, names(collections@), collection@, id@, *opts),
            ),
    {
        let doc = match self.index.collections.get(collection) {
            Some(col) => match col.docs.get(id) {
                Some(doc) => doc,
                None => {
                    return Err(StoreError::Query(QueryFault::NoRecord));
                },
            },
            None => {
                return Err(StoreError::Query(QueryFault::NoRecord));
            },
        };
        let row: u64 = match doc.row {
            Some(row) => row,
            None => {
                return Err(StoreError::Query(QueryFault::TextOnly));
            },
        };
        if let Err(f) = check_query_opts(opts) {
            return Err(StoreError::Query(f));
        }
        proof {
            assert(is_live(self.index@.collections, (collection@, id@)));
            assert(self.index@.collections[collection@].docs[id@].row->0 < self.rows@.len());
        }
        let query = self.row_at(row);
        let wide: usize = saturating_plus(depth(opts), 1);
        match self.search_ranked(collections, query, opts, wide, k, h, rec) {
            Err(e) => Err(e),
            Ok(ranked) => Ok(self.finish(drop_doc(ranked, collection, id), opts, k)),
        }
    }

    /// Search with the stored vector of a record, and leave the record itself out by its
    /// identity: a duplicate of it is still found.
    pub fn search_similar<K: Kernel, H: Host>(
        &self,
        collections: &[&str],
        collection: &str,
        id: &str,
        opts: &SearchOpts,
        k: &K,
        h: &H,
    ) -> (r: Result<Vec<Hit>, StoreError>)
        requires
            self.wf(),
            self.current(),
            functional(*k),
            settled(*h),
        ensures
            similar_refusal(*self, collection@, id@, *opts) matches Some(e) ==> r == Err::<
                Vec<Hit>,
                StoreError,
            >(e),
            similar_refusal(*self, collection@, id@, *opts) is None ==> minds(
                *h,
                similar_outcome(
                    *self,
                    *k,
                    *h,
                    names(collections@),
                    collection@,
                    id@,
                    *opts,
                ).looks,
                r,
            ),
            r matches Ok(out) ==> views(out@) == similar_of(
                *self,
                *k,
                *h,
                names(collections@),
                collection@,
                id@,
                *opts,
            ),
    {
        let mut rec = PlanRec::new(opts.plan);
        self.search_similar_inner(collections, collection, id, opts, k, h, &mut rec)
    }

    /// Like [`Store::search_similar`], with the plan of how the query ran.
    pub fn search_similar_with_plan<K: Kernel, H: Host>(
        &self,
        collections: &[&str],
        collection: &str,
        id: &str,
        opts: &SearchOpts,
        k: &K,
        h: &H,
    ) -> (r: Result<(Vec<Hit>, QueryPlan), StoreError>)
        requires
            self.wf(),
            self.current(),
            functional(*k),
            settled(*h),
        ensures
            similar_refusal(*self, collection@, id@, *opts) matches Some(e) ==> r == Err::<
                (Vec<Hit>, QueryPlan),
                StoreError,
            >(e),
            similar_refusal(*self, collection@, id@, *opts) is None ==> minds(
                *h,
                similar_outcome(
                    *self,
                    *k,
                    *h,
                    names(collections@),
                    collection@,
                    id@,
                    *opts,
                ).looks,
                r,
            ),
            r matches Ok((out, plan)) ==> views(out@) == similar_of(
                *self,
                *k,
                *h,
                names(collections@),
                collection@,
                id@,
                *opts,
            ) && plan_of(
                similar_outcome(*self, *k, *h, names(collections@), collection@, id@, *opts),
                plan,
            ),
    {
        let start: u64 = h.now();
        let mut rec = PlanRec::new(true);
        match self.search_similar_inner(collections, collection, id, opts, k, h, &mut rec) {
            Err(e) => Err(e),
            Ok(hits) => match rec.finish(elapsed(start, h.now())) {
                Some(plan) => Ok((hits, plan)),
                None => {
                    proof {
                        assert(untimed(rec) is On);
                        assert(false);
                    }
                    Err(StoreError::DamagedRows)
                },
            },
        }
    }
}

/// The rows of the first segments are no more than those of all.
proof fn seg_total_prefix(segs: Seq<Segment>, i: int)
    requires
        0 <= i <= segs.len(),
    ensures
        seg_total(segs.take(i)) <= seg_total(segs),
    decreases segs.len() - i,
{
    if i < segs.len() {
        assert(segs.take(i + 1).drop_last() =~= segs.take(i));
        seg_total_prefix(segs, i + 1);
    } else {
        assert(segs.take(i) =~= segs);
    }
}

} // verus!
