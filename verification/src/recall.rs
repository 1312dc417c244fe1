//! What an exact ranking finds, over one scope and over several.

use vstd::prelude::*;

use crate::index::CollsV;
use crate::kernel::Kernel;
use crate::model::SearchOpts;
use crate::order::{comparable, sorted_of_same, sorted_permutes, top, top_of_tops};
use crate::rank::{
    before, clears, nothing_better_is_left_out, ranking, ranking_is_order, ranking_is_total, ScoredV,
};
use crate::scan::{by_row, gathered, listable, scan_is_sound, scan_of, sound_item, ScanV};
use crate::scoring::{best, score_for, scored, scored_concat};
use crate::store::Store;
use crate::value::Filter;

verus! {

// ── Recall ──────────────────────────────────────────────────────────────────

/// A scanned document with its score.
pub open spec fn scored_as<K: Kernel>(s: Store, k: K, q: Seq<u32>, opts: SearchOpts, x: ScanV) -> ScoredV {
    ScoredV { score: score_for(s, k, q, opts, x), collection: x.collection, id: x.id }
}

proof fn scored_keeps<K: Kernel>(
    s: Store,
    k: K,
    q: Seq<u32>,
    opts: SearchOpts,
    scan: Seq<ScanV>,
    x: ScanV,
)
    requires
        scan.contains(x),
        clears(opts.min_score, score_for(s, k, q, opts, x)),
    ensures
        scored(s, k, q, opts, scan).contains(scored_as(s, k, q, opts, x)),
    decreases scan.len(),
{
    let d = scan.drop_last();
    let rest = scored(s, k, q, opts, d);
    let all = scored(s, k, q, opts, scan);
    let y = scored_as(s, k, q, opts, x);
    let i = choose|i: int| 0 <= i < scan.len() && scan[i] == x;
    if i < d.len() {
        assert(d[i] == x);
        scored_keeps(s, k, q, opts, d, x);
        let j = choose|j: int| 0 <= j < rest.len() && rest[j] == y;
        assert(all[j] == y);
    } else {
        assert(all[rest.len() as int] == y);
    }
}

/// An exact ranking has full recall: a live document in scope that the filter admits and that
/// clears the floor is in it, unless it is full of documents that this one is not before.
pub proof fn exact_ranking_misses_nothing<K: Kernel>(
    s: Store,
    k: K,
    q: Seq<u32>,
    scope: Seq<Seq<char>>,
    opts: SearchOpts,
    top_k: usize,
    x: ScanV,
)
    requires
        listable(s.index@.collections),
        sound_item(s.index@.collections, scope, opts.filter, x),
        clears(opts.min_score, score_for(s, k, q, opts, x)),
    ensures
        ({
            let out = best(
                s,
                k,
                q,
                opts,
                top_k,
                scan_of(s.index@.collections, scope, opts.filter),
            );
            let y = scored_as(s, k, q, opts, x);
            out.contains(y) || (out.len() == top_k && forall|i: int|
                0 <= i < out.len() ==> !before(y, #[trigger] out[i]))
        }),
{
    let cols = s.index@.collections;
    let scan = scan_of(cols, scope, opts.filter);
    let all = scored(s, k, q, opts, scan);
    let y = scored_as(s, k, q, opts, x);
    scan_is_sound(cols, scope, opts.filter);
    assert(scan.contains(x));
    scored_keeps(s, k, q, opts, scan, x);
    if !top(all, top_k as int, ranking()).contains(y) {
        nothing_better_is_left_out(all, top_k as int, y);
    }
}

// ── Scopes ──────────────────────────────────────────────────────────────────

/// The scopes share no name.
pub open spec fn apart(a: Seq<Seq<char>>, b: Seq<Seq<char>>) -> bool {
    forall|n: Seq<char>| !(#[trigger] a.contains(n) && b.contains(n))
}

proof fn gathered_concat(cols: CollsV, a: Seq<Seq<char>>, b: Seq<Seq<char>>, filter: Filter)
    requires
        apart(a, b),
    ensures
        gathered(cols, a + b, filter) == gathered(cols, a, filter) + gathered(cols, b, filter),
    decreases b.len(),
{
    if b.len() == 0 {
        assert(a + b =~= a);
        assert(gathered(cols, a, filter) + Seq::<ScanV>::empty() =~= gathered(cols, a, filter));
    } else {
        let d = b.drop_last();
        let c = b.last();
        assert(b[b.len() - 1] == c);
        assert(apart(a, d)) by {
            assert forall|n: Seq<char>| !(#[trigger] a.contains(n) && d.contains(n)) by {
                if d.contains(n) {
                    let i = choose|i: int| 0 <= i < d.len() && d[i] == n;
                    assert(b[i] == n);
                }
            }
        }
        gathered_concat(cols, a, d, filter);
        assert((a + b).drop_last() =~= a + d);
        assert((a + b).last() == c);
        assert(b.contains(c));
        assert(!a.contains(c));
        assert((a + d).contains(c) == d.contains(c)) by {
            if (a + d).contains(c) {
                let i = choose|i: int| 0 <= i < (a + d).len() && (a + d)[i] == c;
                if i < a.len() {
                    assert(a[i] == c);
                } else {
                    assert(d[i - a.len()] == c);
                }
            }
            if d.contains(c) {
                let i = choose|i: int| 0 <= i < d.len() && d[i] == c;
                assert((a + d)[a.len() + i] == c);
            }
        }
        assert(gathered(cols, a + b, filter) =~= gathered(cols, a, filter) + gathered(
            cols,
            b,
            filter,
        ));
    }
}

proof fn scored_permutes<K: Kernel>(
    s: Store,
    k: K,
    q: Seq<u32>,
    opts: SearchOpts,
    a: Seq<ScanV>,
    b: Seq<ScanV>,
)
    requires
        a.to_multiset() == b.to_multiset(),
    ensures
        scored(s, k, q, opts, a).to_multiset() == scored(s, k, q, opts, b).to_multiset(),
    decreases a.len(),
{
    broadcast use vstd::seq_lib::group_to_multiset_ensures;

    assert(a.len() == a.to_multiset().len());
    assert(b.len() == b.to_multiset().len());
    if a.len() > 0 {
        let x = a.last();
        let n = a.len() - 1;
        assert(a[n] == x);
        assert(a.contains(x));
        assert(b.to_multiset().count(x) > 0);
        assert(b.contains(x));
        let j = choose|j: int| 0 <= j < b.len() && b[j] == x;
        let front = b.take(j);
        let back = b.skip(j + 1);
        let rest = b.remove(j);
        assert(a.drop_last() =~= a.remove(n));
        assert(a.drop_last().to_multiset() =~= a.to_multiset().remove(x));
        assert(rest.to_multiset() =~= b.to_multiset().remove(x));
        scored_permutes(s, k, q, opts, a.drop_last(), rest);
        assert(rest =~= front + back);
        assert(b =~= (front + seq![x]) + back);
        assert(a =~= a.drop_last() + seq![x]);
        let one = scored(s, k, q, opts, seq![x]);
        let f = scored(s, k, q, opts, front);
        let g = scored(s, k, q, opts, back);
        let m = scored(s, k, q, opts, a.drop_last());
        scored_concat(s, k, q, opts, front, back);
        scored_concat(s, k, q, opts, front, seq![x]);
        scored_concat(s, k, q, opts, front + seq![x], back);
        scored_concat(s, k, q, opts, a.drop_last(), seq![x]);
        vstd::seq_lib::lemma_multiset_commutative(f, g);
        vstd::seq_lib::lemma_multiset_commutative(f, one);
        vstd::seq_lib::lemma_multiset_commutative(f + one, g);
        vstd::seq_lib::lemma_multiset_commutative(m, one);
        assert((m + one).to_multiset() =~= ((f + one) + g).to_multiset());
    } else {
        assert(a =~= b);
    }
}

proof fn scored_comparable_in<K: Kernel>(
    s: Store,
    k: K,
    q: Seq<u32>,
    scope: Seq<Seq<char>>,
    opts: SearchOpts,
    scan: Seq<ScanV>,
)
    requires
        forall|i: int|
            0 <= i < scan.len() ==> sound_item(
                s.index@.collections,
                scope,
                opts.filter,
                #[trigger] scan[i],
            ),
    ensures
        comparable(scored(s, k, q, opts, scan), ranking()),
{
    let all = scored(s, k, q, opts, scan);
    assert forall|x: ScoredV, y: ScoredV| #[trigger] all.contains(x) && #[trigger] all.contains(y)
        && x != y implies ranking()(x, y) || ranking()(y, x) by {
        scored_came_from(s, k, q, opts, scan, x);
        scored_came_from(s, k, q, opts, scan, y);
        let i = choose|i: int|
            0 <= i < scan.len() && scored_as(s, k, q, opts, #[trigger] scan[i]) == x;
        let j = choose|j: int|
            0 <= j < scan.len() && scored_as(s, k, q, opts, #[trigger] scan[j]) == y;
        if x.collection == y.collection && x.id == y.id {
            assert(scan[i] == scan[j]);
        }
        ranking_is_total(x, y);
    }
}

proof fn scored_came_from<K: Kernel>(
    s: Store,
    k: K,
    q: Seq<u32>,
    opts: SearchOpts,
    scan: Seq<ScanV>,
    x: ScoredV,
)
    requires
        scored(s, k, q, opts, scan).contains(x),
    ensures
        exists|i: int| 0 <= i < scan.len() && scored_as(s, k, q, opts, #[trigger] scan[i]) == x,
    decreases scan.len(),
{
    let d = scan.drop_last();
    let rest = scored(s, k, q, opts, d);
    let all = scored(s, k, q, opts, scan);
    let j = choose|j: int| 0 <= j < all.len() && all[j] == x;
    if j < rest.len() {
        assert(rest[j] == x);
        scored_came_from(s, k, q, opts, d, x);
        let i = choose|i: int|
            0 <= i < d.len() && scored_as(s, k, q, opts, #[trigger] d[i]) == x;
        assert(scan[i] == d[i]);
    } else {
        assert(scored_as(s, k, q, opts, scan[scan.len() - 1]) == x);
    }
}

/// A search of several collections merges into one ranking: the exact ranking of two scopes that
/// share no name is that of the best of each.
pub proof fn scopes_merge<K: Kernel>(
    s: Store,
    k: K,
    q: Seq<u32>,
    a: Seq<Seq<char>>,
    b: Seq<Seq<char>>,
    opts: SearchOpts,
    top_k: usize,
)
    requires
        listable(s.index@.collections),
        apart(a, b),
    ensures
        ({
            let cols = s.index@.collections;
            best(s, k, q, opts, top_k, scan_of(cols, a + b, opts.filter)) == top(
                best(s, k, q, opts, top_k, scan_of(cols, a, opts.filter)) + best(
                    s,
                    k,
                    q,
                    opts,
                    top_k,
                    scan_of(cols, b, opts.filter),
                ),
                top_k as int,
                ranking(),
            )
        }),
{
    broadcast use vstd::seq_lib::group_to_multiset_ensures;

    let cols = s.index@.collections;
    let f = opts.filter;
    let x = scan_of(cols, a, f);
    let y = scan_of(cols, b, f);
    let both = scan_of(cols, a + b, f);
    gathered_concat(cols, a, b, f);
    sorted_permutes(gathered(cols, a, f), by_row());
    sorted_permutes(gathered(cols, b, f), by_row());
    sorted_permutes(gathered(cols, a + b, f), by_row());
    vstd::seq_lib::lemma_multiset_commutative(gathered(cols, a, f), gathered(cols, b, f));
    vstd::seq_lib::lemma_multiset_commutative(x, y);
    assert((x + y).to_multiset() =~= both.to_multiset());
    scored_permutes(s, k, q, opts, both, x + y);
    scored_concat(s, k, q, opts, x, y);
    scan_is_sound(cols, a + b, f);
    assert forall|i: int| 0 <= i < both.len() implies sound_item(
        cols,
        a + b,
        f,
        #[trigger] both[i],
    ) by {
        assert(both.contains(both[i]));
    }
    scored_comparable_in(s, k, q, a + b, opts, both);
    ranking_is_order();
    let sx = scored(s, k, q, opts, x);
    let sy = scored(s, k, q, opts, y);
    let sb = scored(s, k, q, opts, both);
    sorted_of_same(sb, sx + sy, ranking());
    assert(comparable(sx + sy, ranking())) by {
        assert forall|v: ScoredV, w: ScoredV| #[trigger] (sx + sy).contains(v) && #[trigger] (sx
            + sy).contains(w) && v != w implies ranking()(v, w) || ranking()(w, v) by {
            assert(sb.to_multiset().count(v) > 0);
            assert(sb.to_multiset().count(w) > 0);
            assert(sb.contains(v) && sb.contains(w));
        }
    }
    top_of_tops(sx, sy, top_k as int, ranking());
}

} // verus!
