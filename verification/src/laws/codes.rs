//! Quantized copies: what codes measure, and which records a first pass picks.

use vstd::prelude::*;

use crate::bits;
use crate::coarse::{coarse_score, coarsely, first_pass, quantizing, rescored, CoarseV};
use crate::host::Host;
use crate::kernel::{quantize_of, whole_of, Kernel};
use crate::model::{Distance, SearchOpts};
use crate::order::{sorted_len, top};
use crate::quant::{code_nearness, dot_codes, gap_codes, negative, sign_distance, Quant};
use crate::rank::{clears, ranking, ScoredV};
use crate::scan::ScanV;
use crate::scoring::{score_for, scored};
use crate::search::{outcome, segmented, stage};
use crate::store::Store;

verus! {

/// A component is negative where its sign bit is set, and the sign distance of two rows is the
/// number of components that differ in it.
pub proof fn signs_are_counted(a: Seq<u32>, b: Seq<u32>, n: nat)
    ensures
        forall|x: u32| #[trigger] negative(x) <==> 0x8000_0000 <= x,
        sign_distance(a, b, 0) == 0,
        sign_distance(a, b, n + 1) == sign_distance(a, b, n) + if (a[n as int] >= 0x8000_0000)
            == (b[n as int] >= 0x8000_0000) {
            0int
        } else {
            1
        },
        sign_distance(a, b, n) <= n,
        sign_distance(a, b, n) == sign_distance(b, a, n),
        sign_distance(a, a, n) == 0,
    decreases n,
{
    if n > 0 {
        signs_are_counted(a, b, (n - 1) as nat);
    }
}

/// The nearness of two codes: the sum of the products of their components, or under the Euclidean
/// metric the sum of their squared differences, negated.
pub proof fn codes_are_near_as_their_components_are(a: Seq<i8>, b: Seq<i8>, x: i8, y: i8)
    requires
        a.len() == b.len(),
    ensures
        code_nearness(false, a.push(x), b.push(y)) == code_nearness(false, a, b) + x * y,
        code_nearness(true, a.push(x), b.push(y)) == code_nearness(true, a, b) - (x - y) * (x - y),
        code_nearness(false, Seq::<i8>::empty(), Seq::<i8>::empty()) == 0,
        code_nearness(true, Seq::<i8>::empty(), Seq::<i8>::empty()) == 0,
        code_nearness(true, a, b) <= 0,
        code_nearness(true, a, a) == 0,
{
    codes_keep(a, b, a.push(x), b.push(y), a.len());
    gaps_are_no_less(a, b, a.len());
}

proof fn codes_keep(a: Seq<i8>, b: Seq<i8>, c: Seq<i8>, d: Seq<i8>, n: nat)
    requires
        n <= a.len(),
        n <= b.len(),
        n <= c.len(),
        n <= d.len(),
        forall|i: int| 0 <= i < n ==> a[i] == c[i] && b[i] == d[i],
    ensures
        dot_codes(a, b, n) == dot_codes(c, d, n),
        gap_codes(a, b, n) == gap_codes(c, d, n),
    decreases n,
{
    if n > 0 {
        codes_keep(a, b, c, d, (n - 1) as nat);
    }
}

proof fn gaps_are_no_less(a: Seq<i8>, b: Seq<i8>, n: nat)
    ensures
        gap_codes(a, b, n) >= 0,
        gap_codes(a, a, n) == 0,
    decreases n,
{
    if n > 0 {
        gaps_are_no_less(a, b, (n - 1) as nat);
        let d = a[n - 1] - b[n - 1];
        assert(d * d >= 0) by (nonlinear_arith);
    }
}

/// What a record scores in the first pass: how near the query's code is to the row's, or how few
/// signs differ.
pub proof fn coarse_scores_measure_the_codes<K: Kernel>(s: Store, k: K, q: Seq<u32>, row: u64)
    ensures
        s.quant matches Some(Quant::Int8 { scale, vectors, .. }) ==> {
            &&& s.config.distance == Distance::Euclidean ==> coarse_score(s, k, q, row) == whole_of(
                k,
                code_nearness(true, quantize_of(k, scale, q), vectors@[row as int]@) as i128,
            )
            &&& s.config.distance != Distance::Euclidean ==> coarse_score(s, k, q, row) == whole_of(
                k,
                code_nearness(false, quantize_of(k, scale, q), vectors@[row as int]@) as i128,
            )
        },
        s.quant is Some && s.quant->0 is Binary ==> coarse_score(s, k, q, row) == whole_of(
            k,
            (0 - sign_distance(q, s.rows@[row as int]@, q.len())) as i128,
        ),
{
}

/// The first pass keeps the `n` records that score best in it, all of them where there are no
/// more; of records that score alike the one stored first.
pub proof fn a_first_pass_keeps_the_best<K: Kernel>(
    s: Store,
    k: K,
    q: Seq<u32>,
    scan: Seq<ScanV>,
    n: usize,
    x: ScanV,
    i: int,
)
    requires
        scan.contains(x),
        !first_pass(s, k, q, scan, n).contains(x),
        0 <= i < first_pass(s, k, q, scan, n).len(),
    ensures
        first_pass(s, k, q, scan, n).len() == n,
        n < scan.len(),
        scan.contains(first_pass(s, k, q, scan, n)[i]),
        ({
            let y = first_pass(s, k, q, scan, n)[i];
            let a = coarse_score(s, k, q, x.row);
            let b = coarse_score(s, k, q, y.row);
            &&& !bits::ahead(a, b)
            &&& bits::level(a, b) ==> y.row <= x.row
        }),
{
    let lt = crate::coarse::coarse_order();
    let all = coarsely(s, k, q, scan);
    let kept = top(all, n as int, lt);
    let out = first_pass(s, k, q, scan, n);
    crate::coarse::first_pass_is_order();
    crate::order::sorted_ordered(all, lt);
    sorted_len(all, lt);
    crate::order::sorted_members(all, lt);
    crate::order::top_members(all, n as int, lt);
    let whole = crate::order::sorted(all, lt);
    let m = choose|m: int| 0 <= m < scan.len() && scan[m] == x;
    let cx = CoarseV { score: coarse_score(s, k, q, x.row), item: x };
    assert(all[m] == cx);
    assert(all.contains(cx));
    assert(whole.contains(cx));
    let p = choose|p: int| 0 <= p < whole.len() && whole[p] == cx;
    if p < kept.len() {
        assert(kept[p] == cx);
        assert(out[p] == x);
        assert(out.contains(x));
    }
    assert(p >= n);
    assert(!lt(whole[p], whole[i]));
    assert(kept[i] == whole[i]);
    assert(kept.contains(kept[i]));
    let j = choose|j: int| 0 <= j < all.len() && all[j] == kept[i];
    assert(scan[j] == kept[i].item);
    assert(out[i] == kept[i].item);
}

/// How many records are scored again: the depth times the configured factor, never fewer than
/// the depth.
pub proof fn how_many_are_scored_again(s: Store, top_k: usize)
    ensures
        s.config.quantization is None ==> rescored(s, top_k) == top_k,
        s.config.quantization matches Some(c) ==> {
            &&& top_k * c.rescore <= usize::MAX && c.rescore >= 1 ==> rescored(s, top_k) == top_k
                * c.rescore
            &&& c.rescore == 0 ==> rescored(s, top_k) == top_k
            &&& top_k * c.rescore > usize::MAX ==> rescored(s, top_k) == usize::MAX
        },
{
    assert(top_k * 1 == top_k) by (nonlinear_arith);
    assert(top_k * 0 == 0) by (nonlinear_arith);
    if let Some(c) = s.config.quantization {
        if c.rescore >= 1 {
            let r = c.rescore;
            assert(top_k * r >= top_k) by (nonlinear_arith)
                requires
                    r >= 1,
                    top_k >= 0,
            ;
        }
    }
}

/// A search over a quantized copy scores again, by the stored rows, what the first pass picked, and
/// shows the best of that: nothing else, and nothing at a coarse score.
pub proof fn a_quantized_search_scores_again<K: Kernel, H: Host>(
    s: Store,
    k: K,
    h: H,
    scope: Seq<Seq<char>>,
    q: Seq<u32>,
    opts: SearchOpts,
    top_k: usize,
    i: int,
)
    requires
        !s.ann,
        !segmented(s),
        quantizing(s),
        !opts.exact,
        0 <= i < outcome(s, k, h, scope, q, opts, top_k).ranked.len(),
    ensures
        ({
            let scan = stage(s, h, scope, opts.filter).1;
            let first = first_pass(s, k, q, scan, rescored(s, top_k));
            let out = outcome(s, k, h, scope, q, opts, top_k).ranked;
            &&& out.len() <= top_k
            &&& exists|j: int|
                0 <= j < first.len() && (#[trigger] first[j]).collection == out[i].collection
                    && first[j].id == out[i].id && out[i].score == score_for(
                    s,
                    k,
                    q,
                    opts,
                    first[j],
                )
            &&& clears(opts.min_score, out[i].score)
        }),
{
    let scan = stage(s, h, scope, opts.filter).1;
    let first = first_pass(s, k, q, scan, rescored(s, top_k));
    let all = scored(s, k, q, opts, first);
    let kept = top(all, top_k as int, ranking());
    crate::order::top_members(all, top_k as int, ranking());
    assert(kept.contains(kept[i]));
    an_offer_is_an_item(s, k, q, opts, first, kept[i]);
    let j = choose|j: int|
        0 <= j < first.len() && (#[trigger] first[j]).collection == kept[i].collection
            && first[j].id == kept[i].id && kept[i].score == score_for(s, k, q, opts, first[j]);
    assert(outcome(s, k, h, scope, q, opts, top_k).ranked[i].collection == first[j].collection);
}

proof fn an_offer_is_an_item<K: Kernel>(
    s: Store,
    k: K,
    q: Seq<u32>,
    opts: SearchOpts,
    scan: Seq<ScanV>,
    y: ScoredV,
)
    requires
        scored(s, k, q, opts, scan).contains(y),
    ensures
        exists|j: int|
            0 <= j < scan.len() && (#[trigger] scan[j]).collection == y.collection && scan[j].id
                == y.id && y.score == score_for(s, k, q, opts, scan[j]),
        clears(opts.min_score, y.score),
    decreases scan.len(),
{
    let all = scored(s, k, q, opts, scan);
    let i = choose|i: int| 0 <= i < all.len() && all[i] == y;
    if scan.len() > 0 {
        let d = scan.drop_last();
        let rest = scored(s, k, q, opts, d);
        assert(scan[scan.len() - 1] == scan.last());
        if i < rest.len() {
            assert(rest[i] == y);
            an_offer_is_an_item(s, k, q, opts, d, y);
            let j = choose|j: int|
                0 <= j < d.len() && (#[trigger] d[j]).collection == y.collection && d[j].id == y.id
                    && y.score == score_for(s, k, q, opts, d[j]);
            assert(scan[j] == d[j]);
        }
    }
}

} // verus!
