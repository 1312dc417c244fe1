//! The scope of a vector search is the union of the collections that it names: a name that is given
//! twice adds nothing. And no record comes twice in what a query gives, where no name does.

use vstd::prelude::*;

use crate::aggregate::{
    cap_keeps_order, capped, distinct, distinct_members, hit_keys, kept,
};
use crate::dict::{ascending, ascending_distinct, ordered};
use crate::diversity::{diversified, scores_of, selection, selection_permutes, width, window_of};
use crate::expand::expansion_keeps_the_ranking;
use crate::host::{walk_of, Host};
use crate::index::{CollsV, DocV};
use crate::kernel::Kernel;
use crate::lexicon::Lexicon;
use crate::model::{HitV, ListOpts, SearchOpts};
use crate::order::{insert_at, insert_at_bounds, sorted, sorted_len, sorted_members, top};
use crate::rank::{depth_of, page, plus, ranking, ScoredV};
use crate::read::{
    attribute_order, full_listing, list_all, list_coll, listing, storage_order, witness, ListV,
};
use crate::scan::{
    answered, by_row, gathered, gathered_members, listable, narrowed, picked, scan_coll, scan_of,
    ProposalV, ScanV,
};
use crate::scoring::{adjusted, best, hits_for, scored};
use crate::search::{
    ann_overscan, filter_indexed, finish_of, outcome, proposals_of, query_of, rowed_in, search_of,
    segment_walks, similar_of, stage, wanted, SEGMENT_OVERSCAN,
};
use crate::store::Store;
use crate::text::{
    combined, per_clause, text_all, text_coll, text_of, text_ranked, FtsQuery,
};
use crate::value::Filter;
use crate::walk::{fate, survivors, tally};

verus! {

// ── A name that is given twice ──────────────────────────────────────────────

proof fn distinct_step(scope: Seq<Seq<char>>)
    requires
        scope.len() > 0,
    ensures
        scope.drop_last().contains(scope.last()) ==> distinct(scope) == distinct(
            scope.drop_last(),
        ),
        !scope.drop_last().contains(scope.last()) ==> {
            &&& distinct(scope) == distinct(scope.drop_last()).push(scope.last())
            &&& distinct(scope).drop_last() == distinct(scope.drop_last())
            &&& distinct(scope).last() == scope.last()
            &&& !distinct(scope.drop_last()).contains(scope.last())
        },
{
    distinct_members(scope.drop_last());
    let rest = distinct(scope.drop_last());
    assert(rest.push(scope.last()).drop_last() =~= rest);
}

/// A scan gathers the same documents however often their collection is named.
pub proof fn gathered_of_distinct(cols: CollsV, scope: Seq<Seq<char>>, filter: Filter)
    ensures
        gathered(cols, scope, filter) == gathered(cols, distinct(scope), filter),
    decreases scope.len(),
{
    if scope.len() > 0 {
        distinct_step(scope);
        gathered_of_distinct(cols, scope.drop_last(), filter);
    }
}

proof fn rowed_of_distinct(cols: CollsV, scope: Seq<Seq<char>>)
    ensures
        rowed_in(cols, scope) == rowed_in(cols, distinct(scope)),
    decreases scope.len(),
{
    if scope.len() > 0 {
        distinct_step(scope);
        rowed_of_distinct(cols, scope.drop_last());
    }
}

proof fn narrowed_part(
    cols: CollsV,
    scope: Seq<Seq<char>>,
    a: Seq<ProposalV>,
    b: Seq<ProposalV>,
    filter: Filter,
)
    requires
        scope.len() <= a.len(),
        scope.len() <= b.len(),
        forall|i: int| 0 <= i < scope.len() ==> #[trigger] a[i] == b[i],
    ensures
        narrowed(cols, scope, a, filter) == narrowed(cols, scope, b, filter),
    decreases scope.len(),
{
    if scope.len() > 0 {
        narrowed_part(cols, scope.drop_last(), a, b, filter);
        assert(a[scope.len() - 1] == b[scope.len() - 1]);
    }
}

proof fn narrowed_of_distinct<H: Host>(s: Store, h: H, scope: Seq<Seq<char>>, filter: Filter)
    ensures
        ({
            let cols = s.index@.collections;
            narrowed(cols, scope, proposals_of(s, h, scope, filter), filter) == narrowed(
                cols,
                distinct(scope),
                proposals_of(s, h, distinct(scope), filter),
                filter,
            )
        }),
    decreases scope.len(),
{
    let cols = s.index@.collections;
    if scope.len() > 0 {
        let d = scope.drop_last();
        let e = distinct(d);
        distinct_step(scope);
        narrowed_of_distinct(s, h, d, filter);
        let ps = proposals_of(s, h, scope, filter);
        narrowed_part(cols, d, ps, proposals_of(s, h, d, filter), filter);
        if !d.contains(scope.last()) {
            let qs = proposals_of(s, h, distinct(scope), filter);
            assert forall|i: int| 0 <= i < e.len() implies #[trigger] qs[i] == proposals_of(
                s,
                h,
                e,
                filter,
            )[i] by {
                assert(distinct(scope)[i] == e[i]);
            }
            narrowed_part(cols, e, qs, proposals_of(s, h, e, filter), filter);
            assert(qs[e.len() as int] == ps[scope.len() - 1]);
        }
    }
}

proof fn answered_of_distinct<H: Host>(s: Store, h: H, scope: Seq<Seq<char>>, filter: Filter)
    ensures
        answered(s.index@.collections, scope, proposals_of(s, h, scope, filter)) == answered(
            s.index@.collections,
            distinct(scope),
            proposals_of(s, h, distinct(scope), filter),
        ),
{
    let cols = s.index@.collections;
    let names = distinct(scope);
    let ps = proposals_of(s, h, scope, filter);
    let qs = proposals_of(s, h, names, filter);
    distinct_members(scope);
    if answered(cols, scope, ps) {
        assert forall|i: int| 0 <= i < names.len() && cols.contains_key(
            #[trigger] names[i],
        ) implies qs[i] is Some by {
            assert(names.contains(names[i]));
            let j = choose|j: int| 0 <= j < scope.len() && scope[j] == names[i];
            assert(ps[j] is Some);
        }
    }
    if answered(cols, names, qs) {
        assert forall|i: int| 0 <= i < scope.len() && cols.contains_key(
            #[trigger] scope[i],
        ) implies ps[i] is Some by {
            assert(scope.contains(scope[i]));
            assert(names.contains(scope[i]));
            let j = choose|j: int| 0 <= j < names.len() && names[j] == scope[i];
            assert(qs[j] is Some);
        }
    }
}

proof fn survivors_of_distinct<K: Kernel>(
    s: Store,
    k: K,
    q: Seq<u32>,
    opts: SearchOpts,
    scope: Seq<Seq<char>>,
    rows: Seq<u64>,
)
    ensures
        survivors(s, k, q, opts, scope, rows) == survivors(s, k, q, opts, distinct(scope), rows),
        tally(s, k, q, opts, scope, rows) == tally(s, k, q, opts, distinct(scope), rows),
    decreases rows.len(),
{
    if rows.len() > 0 {
        survivors_of_distinct(s, k, q, opts, scope, rows.drop_last());
        distinct_members(scope);
        assert(fate(s, k, q, opts, scope, rows.last()) == fate(
            s,
            k,
            q,
            opts,
            distinct(scope),
            rows.last(),
        ));
    }
}

proof fn outcome_of_distinct<K: Kernel, H: Host>(
    s: Store,
    k: K,
    h: H,
    scope: Seq<Seq<char>>,
    q: Seq<u32>,
    opts: SearchOpts,
    top_k: usize,
)
    ensures
        outcome(s, k, h, scope, q, opts, top_k) == outcome(
            s,
            k,
            h,
            distinct(scope),
            q,
            opts,
            top_k,
        ),
{
    let cols = s.index@.collections;
    gathered_of_distinct(cols, scope, opts.filter);
    rowed_of_distinct(cols, scope);
    narrowed_of_distinct(s, h, scope, opts.filter);
    answered_of_distinct(s, h, scope, opts.filter);
    let walked = walk_of(h, s.config.ann->0, q, wanted(top_k, ann_overscan(s)));
    survivors_of_distinct(s, k, q, opts, scope, walked);
    let walked = segment_walks(s, h, q, wanted(top_k, SEGMENT_OVERSCAN), s.indexed@.len());
    survivors_of_distinct(s, k, q, opts, scope, walked);
}

/// A search is over the union of the collections: naming one twice changes no result.
pub proof fn repeated_names_change_no_search<K: Kernel, H: Host>(
    s: Store,
    k: K,
    h: H,
    scope: Seq<Seq<char>>,
    query: Seq<u32>,
    opts: SearchOpts,
)
    ensures
        search_of(s, k, h, scope, query, opts) == search_of(
            s,
            k,
            h,
            distinct(scope),
            query,
            opts,
        ),
{
    outcome_of_distinct(s, k, h, scope, query_of(s, k, query), opts, depth_of(opts));
}

/// Nor does it change a result of a search by a stored record.
pub proof fn repeated_names_change_no_similar_search<K: Kernel, H: Host>(
    s: Store,
    k: K,
    h: H,
    scope: Seq<Seq<char>>,
    c: Seq<char>,
    id: Seq<char>,
    opts: SearchOpts,
)
    ensures
        similar_of(s, k, h, scope, c, id, opts) == similar_of(
            s,
            k,
            h,
            distinct(scope),
            c,
            id,
            opts,
        ),
{
    let query = s.rows@[s.index@.collections[c].docs[id].row->0 as int]@;
    outcome_of_distinct(s, k, h, scope, query_of(s, k, query), opts, plus(depth_of(opts), 1));
}

// ── No record comes twice ───────────────────────────────────────────────────

/// No two elements have the same key.
pub open spec fn once<T, U>(s: Seq<T>, f: spec_fn(T) -> U) -> bool {
    forall|i: int, j: int| 0 <= i < j < s.len() ==> f(#[trigger] s[i]) != f(#[trigger] s[j])
}

/// The record that a scanned document is.
pub open spec fn scanned_record() -> spec_fn(ScanV) -> (Seq<char>, Seq<char>) {
    |x: ScanV| (x.collection, x.id)
}

/// The record that a ranked document is.
pub open spec fn ranked_record() -> spec_fn(ScoredV) -> (Seq<char>, Seq<char>) {
    |x: ScoredV| (x.collection, x.id)
}

/// The record that a result is.
pub open spec fn hit_record() -> spec_fn(HitV) -> (Seq<char>, Seq<char>) {
    |x: HitV| (x.collection, x.id)
}

pub(crate) proof fn sorted_once<T, U>(s: Seq<T>, f: spec_fn(T) -> U, lt: spec_fn(T, T) -> bool)
    requires
        once(s, f),
    ensures
        once(sorted(s, lt), f),
    decreases s.len(),
{
    if s.len() > 0 {
        let d = s.drop_last();
        assert forall|i: int, j: int| 0 <= i < j < d.len() implies f(#[trigger] d[i]) != f(
            #[trigger] d[j],
        ) by {
            assert(d[i] == s[i] && d[j] == s[j]);
        }
        sorted_once(d, f, lt);
        let rest = sorted(d, lt);
        let x = s.last();
        let p = insert_at(rest, x, lt);
        insert_at_bounds(rest, x, lt);
        sorted_members(d, lt);
        assert forall|i: int| 0 <= i < rest.len() implies f(#[trigger] rest[i]) != f(x) by {
            assert(rest.contains(rest[i]));
            let j = choose|j: int| 0 <= j < d.len() && d[j] == rest[i];
            assert(s[j] == rest[i]);
            assert(s[s.len() - 1] == x);
        }
        let all = sorted(s, lt);
        assert(all == rest.insert(p, x));
        assert forall|i: int, j: int| 0 <= i < j < all.len() implies f(#[trigger] all[i]) != f(
            #[trigger] all[j],
        ) by {
            let a = if i < p { i } else { i - 1 };
            let b = if j < p { j } else { j - 1 };
            if i == p {
                assert(all[j] == rest[b]);
            } else if j == p {
                assert(all[i] == rest[a]);
            } else {
                assert(all[i] == rest[a] && all[j] == rest[b]);
            }
        }
    }
}

/// Records of some collections, and then those of another one: none comes twice.
proof fn joined_once<T>(
    a: Seq<T>,
    b: Seq<T>,
    f: spec_fn(T) -> (Seq<char>, Seq<char>),
    names: Seq<Seq<char>>,
    c: Seq<char>,
)
    requires
        once(a, f),
        once(b, f),
        !names.contains(c),
        forall|i: int| 0 <= i < a.len() ==> names.contains(f(#[trigger] a[i]).0),
        forall|i: int| 0 <= i < b.len() ==> f(#[trigger] b[i]).0 == c,
    ensures
        once(a + b, f),
{
    let all = a + b;
    assert forall|i: int, j: int| 0 <= i < j < all.len() implies f(#[trigger] all[i]) != f(
        #[trigger] all[j],
    ) by {
        if j < a.len() {
            assert(all[i] == a[i] && all[j] == a[j]);
        } else if i >= a.len() {
            assert(all[i] == b[i - a.len()] && all[j] == b[j - a.len()]);
        } else {
            assert(all[i] == a[i] && all[j] == b[j - a.len()]);
        }
    }
}

/// The records of some of the entries of collection `c`.
spec fn drawn<T>(
    s: Seq<T>,
    f: spec_fn(T) -> (Seq<char>, Seq<char>),
    c: Seq<char>,
    e: Seq<(Seq<char>, DocV)>,
) -> bool {
    forall|i: int|
        0 <= i < s.len() ==> f(#[trigger] s[i]).0 == c && exists|j: int|
            0 <= j < e.len() && (#[trigger] e[j]).0 == f(s[i]).1
}

spec fn ids_once(e: Seq<(Seq<char>, DocV)>) -> bool {
    forall|i: int, j: int| 0 <= i < j < e.len() ==> (#[trigger] e[i]).0 != (#[trigger] e[j]).0
}

/// Whether the last entry joins the records drawn from the others or not, none comes twice.
proof fn drawn_step<T>(
    rest: Seq<T>,
    x: T,
    f: spec_fn(T) -> (Seq<char>, Seq<char>),
    c: Seq<char>,
    e: Seq<(Seq<char>, DocV)>,
)
    requires
        e.len() > 0,
        ids_once(e),
        once(rest, f),
        drawn(rest, f, c, e.drop_last()),
        f(x) == (c, e.last().0),
    ensures
        ids_once(e.drop_last()),
        drawn(rest, f, c, e),
        once(rest.push(x), f),
        drawn(rest.push(x), f, c, e),
{
    let d = e.drop_last();
    let last = e.len() - 1;
    assert forall|i: int, j: int| 0 <= i < j < d.len() implies (#[trigger] d[i]).0 != (
    #[trigger] d[j]).0 by {
        assert(d[i] == e[i] && d[j] == e[j]);
    }
    assert forall|i: int| 0 <= i < rest.len() implies f(#[trigger] rest[i]).0 == c && exists|j: int|
        0 <= j < last && (#[trigger] e[j]).0 == f(rest[i]).1 by {
        let j = choose|j: int| 0 <= j < d.len() && (#[trigger] d[j]).0 == f(rest[i]).1;
        assert(e[j] == d[j]);
    }
    let all = rest.push(x);
    assert forall|i: int| 0 <= i < all.len() implies f(#[trigger] all[i]).0 == c && exists|j: int|
        0 <= j < e.len() && (#[trigger] e[j]).0 == f(all[i]).1 by {
        if i < rest.len() {
            assert(all[i] == rest[i]);
        } else {
            assert(e[last].0 == f(all[i]).1);
        }
    }
    assert forall|i: int, j: int| 0 <= i < j < all.len() implies f(#[trigger] all[i]) != f(
        #[trigger] all[j],
    ) by {
        assert(all[i] == rest[i]);
        if j < rest.len() {
            assert(all[j] == rest[j]);
        } else {
            let k = choose|k: int| 0 <= k < last && (#[trigger] e[k]).0 == f(rest[i]).1;
            assert(e[k].0 != e[last].0);
        }
    }
}

proof fn ids_are_once(e: Seq<(Seq<char>, DocV)>)
    requires
        ascending(e),
    ensures
        ids_once(e),
{
    ascending_distinct(e);
}

proof fn scan_coll_once(c: Seq<char>, e: Seq<(Seq<char>, DocV)>, filter: Filter)
    requires
        ids_once(e),
    ensures
        once(scan_coll(c, e, filter), scanned_record()),
        drawn(scan_coll(c, e, filter), scanned_record(), c, e),
    decreases e.len(),
{
    if e.len() > 0 {
        let d = e.drop_last();
        let (id, doc) = e.last();
        let x = ScanV { row: doc.row->0, collection: c, id };
        let none: Seq<ScanV> = Seq::empty();
        drawn_step(none, x, scanned_record(), c, e);
        scan_coll_once(c, d, filter);
        drawn_step(scan_coll(c, d, filter), x, scanned_record(), c, e);
    }
}

/// No document comes twice in a scan.
pub proof fn a_scan_names_no_record_twice(cols: CollsV, scope: Seq<Seq<char>>, filter: Filter)
    requires
        listable(cols),
    ensures
        once(gathered(cols, scope, filter), scanned_record()),
        once(scan_of(cols, scope, filter), scanned_record()),
    decreases scope.len(),
{
    if scope.len() > 0 {
        let d = scope.drop_last();
        let c = scope.last();
        a_scan_names_no_record_twice(cols, d, filter);
        if cols.contains_key(c) && !d.contains(c) {
            let e = ordered(cols[c].docs);
            ids_are_once(e);
            scan_coll_once(c, e, filter);
            let rest = gathered(cols, d, filter);
            assert forall|i: int| 0 <= i < rest.len() implies d.contains(
                scanned_record()(#[trigger] rest[i]).0,
            ) by {
                gathered_members(cols, d, filter, rest[i]);
                assert(rest.contains(rest[i]));
            }
            joined_once(rest, scan_coll(c, e, filter), scanned_record(), d, c);
        }
    }
    sorted_once(gathered(cols, scope, filter), scanned_record(), by_row());
}

proof fn picked_once(cols: CollsV, c: Seq<char>, ids: Seq<Seq<char>>, filter: Filter)
    requires
        ids.no_duplicates(),
    ensures
        once(picked(cols, c, ids, filter), scanned_record()),
        forall|i: int|
            0 <= i < picked(cols, c, ids, filter).len() ==> (#[trigger] picked(
                cols,
                c,
                ids,
                filter,
            )[i]).collection == c && ids.contains(picked(cols, c, ids, filter)[i].id),
    decreases ids.len(),
{
    if ids.len() > 0 {
        let d = ids.drop_last();
        picked_once(cols, c, d, filter);
        let rest = picked(cols, c, d, filter);
        let all = picked(cols, c, ids, filter);
        assert forall|i: int| 0 <= i < all.len() implies (#[trigger] all[i]).collection == c
            && ids.contains(all[i].id) by {
            if i < rest.len() {
                assert(all[i] == rest[i]);
                let j = choose|j: int| 0 <= j < d.len() && d[j] == rest[i].id;
                assert(ids[j] == all[i].id);
            } else {
                assert(ids[ids.len() - 1] == all[i].id);
            }
        }
        assert forall|i: int, j: int| 0 <= i < j < all.len() implies scanned_record()(
            #[trigger] all[i],
        ) != scanned_record()(#[trigger] all[j]) by {
            assert(all[i] == rest[i]);
            if j < rest.len() {
                assert(all[j] == rest[j]);
            } else {
                let x = choose|x: int| 0 <= x < d.len() && d[x] == rest[i].id;
                assert(ids[x] == rest[i].id);
                assert(ids[ids.len() - 1] == all[j].id);
            }
        }
    }
}

/// The filter index proposes no document twice.
pub open spec fn proposes_once<H: Host>(
    s: Store,
    h: H,
    scope: Seq<Seq<char>>,
    filter: Filter,
) -> bool {
    let proposals = proposals_of(s, h, scope, filter);
    forall|i: int|
        0 <= i < scope.len() ==> ((#[trigger] proposals[i]) matches Some(ids)
            ==> ids.no_duplicates())
}

proof fn narrowed_once(cols: CollsV, scope: Seq<Seq<char>>, ps: Seq<ProposalV>, filter: Filter)
    requires
        ps.len() >= scope.len(),
        answered(cols, scope, ps),
        forall|i: int|
            0 <= i < scope.len() ==> ((#[trigger] ps[i]) matches Some(ids)
                ==> ids.no_duplicates()),
    ensures
        once(narrowed(cols, scope, ps, filter), scanned_record()),
        forall|i: int|
            0 <= i < narrowed(cols, scope, ps, filter).len() ==> scope.contains(
                (#[trigger] narrowed(cols, scope, ps, filter)[i]).collection,
            ),
    decreases scope.len(),
{
    if scope.len() > 0 {
        let d = scope.drop_last();
        let c = scope.last();
        assert(scope[scope.len() - 1] == c);
        assert forall|i: int| 0 <= i < d.len() && cols.contains_key(#[trigger] d[i]) implies ps[i]
            is Some by {
            assert(scope[i] == d[i]);
        }
        narrowed_once(cols, d, ps, filter);
        let rest = narrowed(cols, d, ps, filter);
        let all = narrowed(cols, scope, ps, filter);
        if cols.contains_key(c) && !d.contains(c) {
            let ids = ps[scope.len() - 1]->0;
            picked_once(cols, c, ids, filter);
            joined_once(rest, picked(cols, c, ids, filter), scanned_record(), d, c);
        }
        assert forall|i: int| 0 <= i < all.len() implies scope.contains(
            (#[trigger] all[i]).collection,
        ) by {
            if i < rest.len() {
                assert(all[i] == rest[i]);
                let j = choose|j: int| 0 <= j < d.len() && d[j] == rest[i].collection;
                assert(scope[j] == all[i].collection);
            } else {
                assert(all[i] == picked(cols, c, ps[scope.len() - 1]->0, filter)[i - rest.len()]);
                assert(scope[scope.len() - 1] == all[i].collection);
            }
        }
    }
}

proof fn scored_once<K: Kernel>(s: Store, k: K, q: Seq<u32>, opts: SearchOpts, scan: Seq<ScanV>)
    requires
        once(scan, scanned_record()),
    ensures
        once(scored(s, k, q, opts, scan), ranked_record()),
        forall|i: int|
            0 <= i < scored(s, k, q, opts, scan).len() ==> exists|j: int|
                0 <= j < scan.len() && scanned_record()(#[trigger] scan[j]) == ranked_record()(
                    #[trigger] scored(s, k, q, opts, scan)[i],
                ),
    decreases scan.len(),
{
    if scan.len() > 0 {
        let d = scan.drop_last();
        assert forall|i: int, j: int| 0 <= i < j < d.len() implies scanned_record()(
            #[trigger] d[i],
        ) != scanned_record()(#[trigger] d[j]) by {
            assert(d[i] == scan[i] && d[j] == scan[j]);
        }
        scored_once(s, k, q, opts, d);
        let rest = scored(s, k, q, opts, d);
        let all = scored(s, k, q, opts, scan);
        let last = scan.len() - 1;
        assert forall|i: int| 0 <= i < all.len() implies exists|j: int|
            0 <= j < scan.len() && scanned_record()(#[trigger] scan[j]) == ranked_record()(
                #[trigger] all[i],
            ) by {
            if i < rest.len() {
                assert(all[i] == rest[i]);
                let j = choose|j: int|
                    0 <= j < d.len() && scanned_record()(#[trigger] d[j]) == ranked_record()(
                        rest[i],
                    );
                assert(scan[j] == d[j]);
            } else {
                assert(scanned_record()(scan[last]) == ranked_record()(all[i]));
            }
        }
        assert forall|i: int, j: int| 0 <= i < j < all.len() implies ranked_record()(
            #[trigger] all[i],
        ) != ranked_record()(#[trigger] all[j]) by {
            assert(all[i] == rest[i]);
            if j < rest.len() {
                assert(all[j] == rest[j]);
            } else {
                let x = choose|x: int|
                    0 <= x < d.len() && scanned_record()(#[trigger] d[x]) == ranked_record()(
                        rest[i],
                    );
                assert(scan[x] == d[x]);
                assert(scanned_record()(scan[x]) != scanned_record()(scan[last]));
            }
        }
    }
}

proof fn finish_once<K: Kernel>(s: Store, k: K, opts: SearchOpts, ranked: Seq<HitV>)
    requires
        once(ranked, hit_record()),
    ensures
        once(finish_of(s, k, opts, ranked), hit_record()),
{
    let cols = s.index@.collections;
    let f = hit_record();
    let thinned = match opts.limit_per {
        Some(cap) => capped(cols, cap.field@, cap.max as int, ranked),
        None => ranked,
    };
    if let Some(cap) = opts.limit_per {
        let keys = hit_keys(cols, cap.field@, ranked);
        let at = kept(keys, cap.max as int);
        cap_keeps_order(keys, cap.max as int);
        assert forall|i: int, j: int| 0 <= i < j < thinned.len() implies f(
            #[trigger] thinned[i],
        ) != f(#[trigger] thinned[j]) by {
            assert(at[i] < at[j]);
            assert(thinned[i] == ranked[at[i]] && thinned[j] == ranked[at[j]]);
        }
    }
    assert(once(thinned, f));
    let rows = crate::dict::views(s.rows@);
    let spread = match opts.diversity {
        Some(lambda) => diversified(k, cols, rows, lambda, thinned),
        None => thinned,
    };
    if let Some(lambda) = opts.diversity {
        if thinned.len() >= 2 {
            let n = width(thinned);
            let head = thinned.take(n);
            let at = selection(k, window_of(cols, rows, head), scores_of(head), lambda);
            selection_permutes(k, window_of(cols, rows, head), scores_of(head), lambda);
            assert forall|i: int, j: int| 0 <= i < j < spread.len() implies f(
                #[trigger] spread[i],
            ) != f(#[trigger] spread[j]) by {
                let a = if i < n { at[i] } else { i };
                let b = if j < n { at[j] } else { j };
                assert(a != b);
                assert(spread[i] == thinned[a] && spread[j] == thinned[b]);
                if a < b {
                    assert(f(thinned[a]) != f(thinned[b]));
                } else {
                    assert(f(thinned[b]) != f(thinned[a]));
                }
            }
        }
    }
    assert(once(spread, f));
    let cut = page(spread, opts.offset as int, opts.top_k as int);
    assert(once(cut, f)) by {
        assert forall|i: int, j: int| 0 <= i < j < cut.len() implies f(#[trigger] cut[i]) != f(
            #[trigger] cut[j],
        ) by {
            let o = opts.offset as int;
            assert(cut[i] == spread[o + i] && cut[j] == spread[o + j]);
        }
    }
    expansion_keeps_the_ranking(cols, opts.expand, cut);
    let out = finish_of(s, k, opts, ranked);
    assert forall|i: int, j: int| 0 <= i < j < out.len() implies f(#[trigger] out[i]) != f(
        #[trigger] out[j],
    ) by {
        assert(f(out[i]) == f(cut[i]) && f(out[j]) == f(cut[j]));
    }
}

proof fn best_once(s: Store, opts: SearchOpts, all: Seq<ScoredV>, top_k: usize)
    requires
        once(all, ranked_record()),
    ensures
        once(
            hits_for(s, opts.projection, top(all, top_k as int, ranking())),
            hit_record(),
        ),
{
    sorted_once(all, ranked_record(), ranking());
    sorted_len(all, ranking());
    let kept = top(all, top_k as int, ranking());
    assert forall|i: int, j: int| 0 <= i < j < kept.len() implies ranked_record()(
        #[trigger] kept[i],
    ) != ranked_record()(#[trigger] kept[j]) by {
        assert(kept[i] == sorted(all, ranking())[i] && kept[j] == sorted(all, ranking())[j]);
    }
    let ranked = hits_for(s, opts.projection, kept);
    assert forall|i: int, j: int| 0 <= i < j < ranked.len() implies hit_record()(
        #[trigger] ranked[i],
    ) != hit_record()(#[trigger] ranked[j]) by {
        assert(ranked_record()(kept[i]) != ranked_record()(kept[j]));
    }
}

/// No document comes twice in the scan of a query, provided that the filter index proposes none
/// twice.
pub proof fn a_scan_stage_names_no_record_twice<H: Host>(
    s: Store,
    h: H,
    scope: Seq<Seq<char>>,
    filter: Filter,
)
    requires
        listable(s.index@.collections),
        filter_indexed(s) ==> proposes_once(s, h, scope, filter),
    ensures
        once(stage(s, h, scope, filter).1, scanned_record()),
{
    let cols = s.index@.collections;
    let ps = proposals_of(s, h, scope, filter);
    if filter_indexed(s) && answered(cols, scope, ps) {
        narrowed_once(cols, scope, ps, filter);
        sorted_once(narrowed(cols, scope, ps, filter), scanned_record(), by_row());
    } else {
        a_scan_names_no_record_twice(cols, scope, filter);
    }
}

/// No record comes twice in the results of an exact search, whatever is named, provided that the
/// filter index proposes none twice.
pub proof fn an_exact_search_names_no_record_twice<K: Kernel, H: Host>(
    s: Store,
    k: K,
    h: H,
    scope: Seq<Seq<char>>,
    query: Seq<u32>,
    opts: SearchOpts,
)
    requires
        listable(s.index@.collections),
        opts.exact,
        filter_indexed(s) ==> proposes_once(s, h, scope, opts.filter),
    ensures
        once(search_of(s, k, h, scope, query, opts), hit_record()),
{
    let q = query_of(s, k, query);
    let top_k = depth_of(opts);
    let scan = stage(s, h, scope, opts.filter).1;
    a_scan_stage_names_no_record_twice(s, h, scope, opts.filter);
    let all = scored(s, k, q, opts, scan);
    scored_once(s, k, q, opts, scan);
    best_once(s, opts, all, top_k);
    let ranked = hits_for(s, opts.projection, best(s, k, q, opts, top_k, scan));
    finish_once(s, k, opts, ranked);
}

/// The record that a listed document is.
pub open spec fn listed_record() -> spec_fn(ListV) -> (Seq<char>, Seq<char>) {
    |x: ListV| (x.collection, x.id)
}

proof fn last_is_new(scope: Seq<Seq<char>>)
    requires
        scope.len() > 0,
        scope.no_duplicates(),
    ensures
        !scope.drop_last().contains(scope.last()),
        scope.drop_last().no_duplicates(),
{
    let d = scope.drop_last();
    if d.contains(scope.last()) {
        let i = choose|i: int| 0 <= i < d.len() && d[i] == scope.last();
        assert(scope[i] == scope[scope.len() - 1]);
    }
}

proof fn list_coll_once(c: Seq<char>, e: Seq<(Seq<char>, DocV)>, filter: Filter)
    requires
        ids_once(e),
    ensures
        once(list_coll(c, e, filter), listed_record()),
        drawn(list_coll(c, e, filter), listed_record(), c, e),
    decreases e.len(),
{
    if e.len() > 0 {
        let d = e.drop_last();
        let (id, doc) = e.last();
        let x = ListV { row: doc.row, collection: c, id };
        let none: Seq<ListV> = Seq::empty();
        drawn_step(none, x, listed_record(), c, e);
        list_coll_once(c, d, filter);
        drawn_step(list_coll(c, d, filter), x, listed_record(), c, e);
    }
}

proof fn list_all_once(cols: CollsV, scope: Seq<Seq<char>>, filter: Filter)
    requires
        listable(cols),
        scope.no_duplicates(),
    ensures
        once(list_all(cols, scope, filter), listed_record()),
        forall|i: int|
            0 <= i < list_all(cols, scope, filter).len() ==> scope.contains(
                listed_record()(#[trigger] list_all(cols, scope, filter)[i]).0,
            ),
    decreases scope.len(),
{
    if scope.len() > 0 {
        let d = scope.drop_last();
        let c = scope.last();
        last_is_new(scope);
        list_all_once(cols, d, filter);
        let rest = list_all(cols, d, filter);
        let all = list_all(cols, scope, filter);
        let more = list_coll(c, ordered(cols[c].docs), filter);
        if cols.contains_key(c) {
            ids_are_once(ordered(cols[c].docs));
            list_coll_once(c, ordered(cols[c].docs), filter);
            joined_once(rest, more, listed_record(), d, c);
        }
        assert forall|i: int| 0 <= i < all.len() implies scope.contains(
            listed_record()(#[trigger] all[i]).0,
        ) by {
            if i < rest.len() {
                assert(all[i] == rest[i]);
                let j = choose|j: int| 0 <= j < d.len() && d[j] == listed_record()(rest[i]).0;
                assert(scope[j] == d[j]);
            } else {
                assert(all[i] == more[i - rest.len()]);
                assert(scope[scope.len() - 1] == c);
            }
        }
    }
}

/// No record comes twice in a listing of collections that are each named once.
pub proof fn a_listing_names_no_record_twice(cols: CollsV, scope: Seq<Seq<char>>, opts: ListOpts)
    requires
        listable(cols),
        scope.no_duplicates(),
    ensures
        once(listing(cols, scope, opts), hit_record()),
{
    let f = listed_record();
    let all = list_all(cols, scope, opts.filter);
    list_all_once(cols, scope, opts.filter);
    sorted_once(all, f, storage_order());
    let stored = sorted(all, storage_order());
    if let Some(o) = opts.order_by {
        if let Some(w) = witness(cols, o.field@, stored) {
            sorted_once(stored, f, attribute_order(cols, o.field@, o.descending, w));
        }
    }
    let full = full_listing(cols, scope, opts);
    assert(once(full, f));
    let out = listing(cols, scope, opts);
    assert forall|i: int, j: int| 0 <= i < j < out.len() implies hit_record()(#[trigger] out[i])
        != hit_record()(#[trigger] out[j]) by {
        let o = opts.offset as int;
        assert(f(full[o + i]) != f(full[o + j]));
    }
}

proof fn text_coll_once<K: Kernel, L: Lexicon>(
    s: Store,
    k: K,
    l: L,
    c: Seq<char>,
    e: Seq<(Seq<char>, DocV)>,
    query: FtsQuery,
    opts: SearchOpts,
)
    requires
        ids_once(e),
    ensures
        once(text_coll(s, k, l, c, e, query, opts), ranked_record()),
        drawn(text_coll(s, k, l, c, e, query, opts), ranked_record(), c, e),
    decreases e.len(),
{
    if e.len() > 0 {
        let d = e.drop_last();
        let (id, doc) = e.last();
        let scores = per_clause(s, l, c, query.clauses@, id);
        let score = adjusted(s, k, opts.rank_by, combined(k, query.combine, scores), c, id);
        let x = ScoredV { score, collection: c, id };
        let none: Seq<ScoredV> = Seq::empty();
        drawn_step(none, x, ranked_record(), c, e);
        text_coll_once(s, k, l, c, d, query, opts);
        drawn_step(text_coll(s, k, l, c, d, query, opts), x, ranked_record(), c, e);
    }
}

proof fn text_all_once<K: Kernel, L: Lexicon>(
    s: Store,
    k: K,
    l: L,
    scope: Seq<Seq<char>>,
    query: FtsQuery,
    opts: SearchOpts,
)
    requires
        listable(s.index@.collections),
        scope.no_duplicates(),
    ensures
        once(text_all(s, k, l, scope, query, opts), ranked_record()),
        forall|i: int|
            0 <= i < text_all(s, k, l, scope, query, opts).len() ==> scope.contains(
                ranked_record()(#[trigger] text_all(s, k, l, scope, query, opts)[i]).0,
            ),
    decreases scope.len(),
{
    if scope.len() > 0 {
        let cols = s.index@.collections;
        let d = scope.drop_last();
        let c = scope.last();
        last_is_new(scope);
        text_all_once(s, k, l, d, query, opts);
        let rest = text_all(s, k, l, d, query, opts);
        let all = text_all(s, k, l, scope, query, opts);
        let more = text_coll(s, k, l, c, ordered(cols[c].docs), query, opts);
        if cols.contains_key(c) {
            ids_are_once(ordered(cols[c].docs));
            text_coll_once(s, k, l, c, ordered(cols[c].docs), query, opts);
            joined_once(rest, more, ranked_record(), d, c);
        }
        assert forall|i: int| 0 <= i < all.len() implies scope.contains(
            ranked_record()(#[trigger] all[i]).0,
        ) by {
            if i < rest.len() {
                assert(all[i] == rest[i]);
                let j = choose|j: int| 0 <= j < d.len() && d[j] == ranked_record()(rest[i]).0;
                assert(scope[j] == d[j]);
            } else {
                assert(all[i] == more[i - rest.len()]);
                assert(scope[scope.len() - 1] == c);
            }
        }
    }
}

/// No record comes twice in the results of a full-text search of collections that are each named
/// once.
pub proof fn a_text_search_names_no_record_twice<K: Kernel, L: Lexicon>(
    s: Store,
    k: K,
    l: L,
    scope: Seq<Seq<char>>,
    query: FtsQuery,
    opts: SearchOpts,
)
    requires
        listable(s.index@.collections),
        scope.no_duplicates(),
    ensures
        once(text_of(s, k, l, scope, query, opts), hit_record()),
{
    let top_k = depth_of(opts);
    let all = text_all(s, k, l, scope, query, opts);
    text_all_once(s, k, l, scope, query, opts);
    best_once(s, opts, all, top_k);
    let ranked = text_ranked(s, k, l, scope, query, opts, top_k);
    finish_once(s, k, opts, ranked);
    let bare = finish_of(s, k, opts, ranked);
    let out = text_of(s, k, l, scope, query, opts);
    if opts.top_k > 0 {
        assert forall|i: int, j: int| 0 <= i < j < out.len() implies hit_record()(#[trigger] out[i])
            != hit_record()(#[trigger] out[j]) by {
            assert(hit_record()(bare[i]) != hit_record()(bare[j]));
        }
    }
}

} // verus!
