//! What happens to a ranking before it is shown.

use vstd::prelude::*;

use crate::aggregate::{capped, distinct, hit_keys, occurrences, told_apart};
use crate::dict::views;
use crate::diversity::diversified;
use crate::expand::expanded_all;
use crate::index::CollsV;
use crate::kernel::Kernel;
use crate::model::{HitV, LimitPer, SearchOpts};
use crate::rank::page;
use crate::search::finish_of;
use crate::store::Store;
use crate::value::ValueV;

verus! {

proof fn occurrences_add_up<A>(x: Seq<A>, y: Seq<A>, key: A)
    ensures
        occurrences(x + y, key) == occurrences(x, key) + occurrences(y, key),
    decreases y.len(),
{
    if y.len() == 0 {
        assert(x + y =~= x);
    } else {
        occurrences_add_up(x, y.drop_last(), key);
        assert((x + y).drop_last() =~= x + y.drop_last());
        assert((x + y).last() == y.last());
    }
}

/// Any rearrangement of some results has every value as often.
pub proof fn rearranging_keeps_how_often_a_value_occurs(
    cols: CollsV,
    field: Seq<char>,
    a: Seq<HitV>,
    b: Seq<HitV>,
    key: Option<ValueV>,
)
    requires
        a.to_multiset() == b.to_multiset(),
    ensures
        occurrences(hit_keys(cols, field, a), key) == occurrences(hit_keys(cols, field, b), key),
    decreases a.len(),
{
    broadcast use vstd::seq_lib::group_to_multiset_ensures;

    a.to_multiset_ensures();
    b.to_multiset_ensures();
    assert(a.len() == a.to_multiset().len());
    assert(b.len() == b.to_multiset().len());
    if a.len() > 0 {
        let x = a.last();
        assert(a.contains(x));
        assert(a.to_multiset().count(x) > 0);
        assert(b.contains(x));
        let j = choose|j: int| 0 <= j < b.len() && b[j] == x;
        let c = b.remove(j);
        assert(a.drop_last() =~= a.remove(a.len() - 1));
        assert(c.to_multiset() =~= a.drop_last().to_multiset());
        rearranging_keeps_how_often_a_value_occurs(cols, field, a.drop_last(), c, key);
        let ka = hit_keys(cols, field, a);
        let kb = hit_keys(cols, field, b);
        let kc = hit_keys(cols, field, c);
        let kx = crate::aggregate::hit_key(cols, field, x);
        assert(ka.drop_last() =~= hit_keys(cols, field, a.drop_last()));
        assert(ka.last() == kx);
        assert(kb =~= kb.take(j).push(kx) + kb.skip(j + 1));
        assert(kc =~= kb.take(j) + kb.skip(j + 1));
        occurrences_add_up(kb.take(j).push(kx), kb.skip(j + 1), key);
        occurrences_add_up(kb.take(j), kb.skip(j + 1), key);
        assert(kb.take(j).push(kx).drop_last() =~= kb.take(j));
    } else {
        assert(hit_keys(cols, field, a) =~= hit_keys(cols, field, b));
    }
}

/// Under a cap no page shows a value more often than the cap allows, however the results are
/// spread out: whatever the ranking, unless it has more than ten thousand values.
pub proof fn no_page_exceeds_the_cap<K: Kernel>(
    s: Store,
    k: K,
    opts: SearchOpts,
    cap: LimitPer,
    ranked: Seq<HitV>,
    key: Option<ValueV>,
)
    requires
        opts.limit_per == Some(cap),
        distinct(hit_keys(s.index@.collections, cap.field@, ranked)).len() <= 10_000,
    ensures
        occurrences(
            hit_keys(s.index@.collections, cap.field@, finish_of(s, k, opts, ranked)),
            key,
        ) <= cap.max,
{
    let cols = s.index@.collections;
    let field = cap.field@;
    let keys = hit_keys(cols, field, ranked);
    let thinned = capped(cols, field, cap.max as int, ranked);
    let spread = match opts.diversity {
        Some(lambda) => diversified(k, cols, views(s.rows@), lambda, thinned),
        None => thinned,
    };
    let shown = page(spread, opts.offset as int, opts.top_k as int);
    let out = finish_of(s, k, opts, ranked);
    crate::expand::expansion_keeps_the_ranking(cols, opts.expand, shown);
    assert(hit_keys(cols, field, out) =~= hit_keys(cols, field, shown)) by {
        assert(out == expanded_all(cols, opts.expand, shown));
        assert forall|i: int| 0 <= i < shown.len() implies hit_keys(cols, field, out)[i]
            == hit_keys(cols, field, shown)[i] by {
            assert(out[i] == (HitV { context: out[i].context, ..shown[i] }));
        }
    }
    // The page is a part of what was spread out.
    let ks = hit_keys(cols, field, spread);
    let kp = hit_keys(cols, field, shown);
    let o = opts.offset as int;
    if o < spread.len() {
        let n = shown.len() as int;
        assert(ks =~= ks.take(o) + kp + ks.skip(o + n));
        occurrences_add_up(ks.take(o) + kp, ks.skip(o + n), key);
        occurrences_add_up(ks.take(o), kp, key);
    }
    // Spreading out rearranges.
    if let Some(lambda) = opts.diversity {
        crate::diversity::diversity_only_reorders(k, cols, views(s.rows@), lambda, thinned);
        rearranging_keeps_how_often_a_value_occurs(cols, field, spread, thinned, key);
    }
    // The cap holds of what it left.
    let kt = hit_keys(cols, field, thinned);
    crate::aggregate::cap_keeps_order(keys, cap.max as int);
    assert(kt =~= crate::aggregate::kept_keys(keys, cap.max as int)) by {
        assert forall|i: int| 0 <= i < kt.len() implies kt[i] == crate::aggregate::kept_keys(
            keys,
            cap.max as int,
        )[i] by {
            let p = crate::aggregate::kept(keys, cap.max as int)[i];
            assert(thinned[i] == ranked[p]);
            assert(keys[p] == crate::aggregate::hit_key(cols, field, ranked[p]));
        }
    }
    assert(told_apart(keys) == distinct(keys));
    crate::aggregate::distinct_members(keys);
    if keys.contains(key) {
        crate::aggregate::cap_holds(keys, cap.max as int, key);
    } else {
        if kt.contains(key) {
            let i = choose|i: int| 0 <= i < kt.len() && kt[i] == key;
            let p = crate::aggregate::kept(keys, cap.max as int)[i];
            assert(keys[p] == key);
        }
        absent_never_occurs(kt, key);
    }
}

proof fn absent_never_occurs<A>(keys: Seq<A>, key: A)
    requires
        !keys.contains(key),
    ensures
        occurrences(keys, key) == 0,
    decreases keys.len(),
{
    if keys.len() > 0 {
        let d = keys.drop_last();
        assert(keys[keys.len() - 1] == keys.last());
        if d.contains(key) {
            let i = choose|i: int| 0 <= i < d.len() && d[i] == key;
            assert(keys[i] == key);
        }
        absent_never_occurs(d, key);
    }
}

/// The order of the steps: the cap thins the ranking, what it leaves is spread out, the page is
/// cut from that, and only what is on the page is widened.
pub proof fn a_ranking_is_finished_in_order<K: Kernel>(
    s: Store,
    k: K,
    opts: SearchOpts,
    cap: LimitPer,
    lambda: u32,
    ranked: Seq<HitV>,
)
    ensures
        opts.limit_per is None && opts.diversity is None && opts.expand is None ==> finish_of(
            s,
            k,
            opts,
            ranked,
        ) == page(ranked, opts.offset as int, opts.top_k as int),
        opts.limit_per == Some(cap) && opts.diversity is None && opts.expand is None ==> finish_of(
            s,
            k,
            opts,
            ranked,
        ) == page(
            capped(s.index@.collections, cap.field@, cap.max as int, ranked),
            opts.offset as int,
            opts.top_k as int,
        ),
        opts.limit_per is None && opts.diversity == Some(lambda) && opts.expand is None
            ==> finish_of(s, k, opts, ranked) == page(
            diversified(k, s.index@.collections, views(s.rows@), lambda, ranked),
            opts.offset as int,
            opts.top_k as int,
        ),
        opts.limit_per == Some(cap) && opts.diversity == Some(lambda) && opts.expand is None
            ==> finish_of(s, k, opts, ranked) == page(
            diversified(
                k,
                s.index@.collections,
                views(s.rows@),
                lambda,
                capped(s.index@.collections, cap.field@, cap.max as int, ranked),
            ),
            opts.offset as int,
            opts.top_k as int,
        ),
{
}

/// An expansion widens what is shown and moves nothing: without it the same results stand in the
/// same places.
pub proof fn widening_moves_nothing<K: Kernel>(
    s: Store,
    k: K,
    opts: SearchOpts,
    bare: SearchOpts,
    ranked: Seq<HitV>,
    i: int,
)
    requires
        bare == (SearchOpts { expand: None, ..opts }),
        0 <= i < finish_of(s, k, opts, ranked).len(),
    ensures
        finish_of(s, k, opts, ranked).len() == finish_of(s, k, bare, ranked).len(),
        finish_of(s, k, opts, ranked)[i] == (HitV {
            context: finish_of(s, k, opts, ranked)[i].context,
            ..finish_of(s, k, bare, ranked)[i]
        }),
        opts.expand matches Some(e) ==> finish_of(s, k, opts, ranked)[i] == crate::expand::expanded(
            s.index@.collections,
            e,
            finish_of(s, k, bare, ranked)[i],
        ),
{
}

} // verus!
