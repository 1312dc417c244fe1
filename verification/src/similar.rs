//! A search by a stored record is the search by its vector, with the record itself left out.

use vstd::prelude::*;

use crate::coarse::{first_pass, rescored};
use crate::expand::expanded_all;
use crate::host::{walk_of, Host};
use crate::kernel::Kernel;
use crate::model::SearchOpts;
use crate::rank::{depth_of, page, plus, times};
use crate::scan::{scan_of, ScanV};
use crate::scoring::scored;
use crate::search::{
    ann_overscan, finish_of, outcome, query_of, search_of, segment_walks,
    similar_of, stage, uncovered, wanted, without_doc, SEGMENT_OVERSCAN,
};
use crate::store::Store;
use crate::walk::{fate, survivors, tally};

verus! {

/// The query without what happens to its ranking, `n` deep.
pub open spec fn bare(opts: SearchOpts, n: usize) -> SearchOpts {
    SearchOpts { offset: 0, top_k: n, limit_per: None, diversity: None, expand: None, ..opts }
}

proof fn scored_bare<K: Kernel>(
    s: Store,
    k: K,
    q: Seq<u32>,
    opts: SearchOpts,
    n: usize,
    scan: Seq<ScanV>,
)
    ensures
        scored(s, k, q, bare(opts, n), scan) == scored(s, k, q, opts, scan),
    decreases scan.len(),
{
    if scan.len() > 0 {
        scored_bare(s, k, q, opts, n, scan.drop_last());
    }
}

proof fn survivors_bare<K: Kernel>(
    s: Store,
    k: K,
    q: Seq<u32>,
    opts: SearchOpts,
    n: usize,
    scope: Seq<Seq<char>>,
    rows: Seq<u64>,
)
    ensures
        survivors(s, k, q, bare(opts, n), scope, rows) == survivors(s, k, q, opts, scope, rows),
        tally(s, k, q, bare(opts, n), scope, rows) == tally(s, k, q, opts, scope, rows),
    decreases rows.len(),
{
    if rows.len() > 0 {
        survivors_bare(s, k, q, opts, n, scope, rows.drop_last());
        assert(fate(s, k, q, bare(opts, n), scope, rows.last()) == fate(
            s,
            k,
            q,
            opts,
            scope,
            rows.last(),
        ));
    }
}

/// What a search ranks depends on no option that only shapes the page.
pub proof fn shaping_changes_no_ranking<K: Kernel, H: Host>(
    s: Store,
    k: K,
    h: H,
    scope: Seq<Seq<char>>,
    q: Seq<u32>,
    opts: SearchOpts,
    n: usize,
)
    ensures
        outcome(s, k, h, scope, q, bare(opts, n), n) == outcome(s, k, h, scope, q, opts, n),
{
    let cols = s.index@.collections;
    let scan = stage(s, h, scope, opts.filter).1;
    scored_bare(s, k, q, opts, n, scan_of(cols, scope, opts.filter));
    scored_bare(s, k, q, opts, n, scan);
    scored_bare(s, k, q, opts, n, first_pass(s, k, q, scan, rescored(s, n)));
    scored_bare(s, k, q, opts, n, uncovered(s, scan_of(cols, scope, opts.filter)));
    let walked = walk_of(h, s.config.ann->0, q, wanted(n, ann_overscan(s)));
    survivors_bare(s, k, q, opts, n, scope, walked);
    let walked = segment_walks(s, h, q, wanted(n, SEGMENT_OVERSCAN), s.indexed@.len());
    survivors_bare(s, k, q, opts, n, scope, walked);
}

/// A search by a stored record gives what the search by its vector gives, one place deeper,
/// without the record itself, and shaped into a page as the query asks.
pub proof fn similar_is_a_search_by_the_stored_vector<K: Kernel, H: Host>(
    s: Store,
    k: K,
    h: H,
    scope: Seq<Seq<char>>,
    c: Seq<char>,
    id: Seq<char>,
    opts: SearchOpts,
)
    ensures
        ({
            let vector = s.rows@[s.index@.collections[c].docs[id].row->0 as int]@;
            let found = search_of(
                s,
                k,
                h,
                scope,
                vector,
                bare(opts, plus(depth_of(opts), 1)),
            );
            similar_of(s, k, h, scope, c, id, opts) == finish_of(
                s,
                k,
                opts,
                without_doc(found, c, id),
            )
        }),
{
    let cols = s.index@.collections;
    let n = plus(depth_of(opts), 1);
    let b = bare(opts, n);
    let vector = s.rows@[cols[c].docs[id].row->0 as int]@;
    let q = query_of(s, k, vector);
    assert(depth_of(b) == n) by (nonlinear_arith)
        requires
            depth_of(b) == times(plus(0, n), 1),
            n >= 1,
    ;
    shaping_changes_no_ranking(s, k, h, scope, q, opts, n);
    let ranked = outcome(s, k, h, scope, q, opts, n).ranked;
    assert(ranked.len() <= n);
    assert(page(ranked, 0, n as int) =~= ranked);
    assert(expanded_all(cols, None, ranked) =~= ranked);
}

/// Pages of a search by a stored record are full, and counted without it: where nothing else
/// shapes the page, it is cut from the search by the vector, one place deeper, once the record is
/// taken out.
pub proof fn similar_pages_without_the_source<K: Kernel, H: Host>(
    s: Store,
    k: K,
    h: H,
    scope: Seq<Seq<char>>,
    c: Seq<char>,
    id: Seq<char>,
    opts: SearchOpts,
)
    requires
        opts.limit_per is None,
        opts.diversity is None,
        opts.expand is None,
        opts.offset + opts.top_k + 1 <= usize::MAX,
    ensures
        ({
            let vector = s.rows@[s.index@.collections[c].docs[id].row->0 as int]@;
            let deeper = SearchOpts {
                offset: 0,
                top_k: (opts.offset + opts.top_k + 1) as usize,
                ..opts
            };
            similar_of(s, k, h, scope, c, id, opts) == page(
                without_doc(search_of(s, k, h, scope, vector, deeper), c, id),
                opts.offset as int,
                opts.top_k as int,
            )
        }),
{
    let n = plus(opts.offset, opts.top_k);
    assert(times(n, 1) == n) by (nonlinear_arith)
        requires
            times(n, 1) == n * 1 || n * 1 > usize::MAX,
    ;
    similar_is_a_search_by_the_stored_vector(s, k, h, scope, c, id, opts);
}

} // verus!
