//! The first pass of a quantized search: rank a scan by its coarse copy.

use vstd::prelude::*;

use crate::bits;
use crate::dict::views;
use crate::host::{check, may_go_on, minds, Host, CHECK_EVERY};
use crate::kernel::{functional, quantize, quantize_of, whole_of, Kernel};
use crate::model::Distance;
use crate::order::{
    lex_asymmetric, lex_irreflexive, lex_lt, lex_total, lex_transitive, offer, side, sorted_len,
    sorted_map, sorted_members, top, top_members, weak_order, Side,
};
use crate::quant::{
    code_nearness, codes_measure_signs, hamming, nearness, pack_signs, sign_distance, Quant,
};
use crate::rank::{saturating_times, times};
use crate::scan::{ScanItem, ScanV};
use crate::scoring::in_rows;
use crate::store::{Store, StoreError};

verus! {

/// A candidate of the first pass. `score` is an `f32` bit pattern.
#[derive(Clone, Debug, PartialEq)]
pub struct Coarse {
    pub score: u32,
    pub item: ScanItem,
}

/// What a [`Coarse`] holds.
pub ghost struct CoarseV {
    pub score: u32,
    pub item: ScanV,
}

impl View for Coarse {
    type V = CoarseV;

    open spec fn view(&self) -> CoarseV {
        CoarseV { score: self.score, item: self.item@ }
    }
}

/// By row, then by collection, then by id.
pub open spec fn item_before(a: ScanV, b: ScanV) -> bool {
    ||| a.row < b.row
    ||| a.row == b.row && lex_lt(a.collection, b.collection)
    ||| a.row == b.row && a.collection == b.collection && lex_lt(a.id, b.id)
}

/// By coarse score descending with NaN last, then by place.
pub open spec fn coarse_before(a: CoarseV, b: CoarseV) -> bool {
    ||| bits::ahead(a.score, b.score)
    ||| bits::level(a.score, b.score) && item_before(a.item, b.item)
}

/// The order of the first pass.
pub open spec fn coarse_order() -> spec_fn(CoarseV, CoarseV) -> bool {
    |a: CoarseV, b: CoarseV| coarse_before(a, b)
}

spec fn coarse_items() -> spec_fn(Coarse, Coarse) -> bool {
    |a: Coarse, b: Coarse| coarse_before(a@, b@)
}

proof fn coarse_asymmetric(a: CoarseV, b: CoarseV)
    requires
        coarse_before(a, b),
    ensures
        !coarse_before(b, a),
{
    if !bits::ahead(a.score, b.score) {
        if a.item.row == b.item.row {
            lex_irreflexive(a.item.collection);
            if lex_lt(a.item.collection, b.item.collection) {
                lex_asymmetric(a.item.collection, b.item.collection);
            } else {
                lex_asymmetric(a.item.id, b.item.id);
            }
        }
    }
}

proof fn coarse_weak(a: CoarseV, b: CoarseV, c: CoarseV)
    requires
        coarse_before(a, c),
    ensures
        coarse_before(a, b) || coarse_before(b, c),
{
    if !bits::ahead(a.score, b.score) && !bits::ahead(b.score, c.score) && !bits::ahead(
        a.score,
        c.score,
    ) {
        let (x, y, z) = (a.item, b.item, c.item);
        lex_total(x.collection, y.collection);
        lex_total(y.collection, z.collection);
        if x.row == y.row && y.row == z.row {
            if lex_lt(x.collection, z.collection) {
                if lex_lt(y.collection, x.collection) {
                    lex_transitive(y.collection, x.collection, z.collection);
                }
            } else {
                lex_total(x.id, y.id);
                if lex_lt(y.id, x.id) {
                    lex_transitive(y.id, x.id, z.id);
                }
            }
        }
    }
}

proof fn coarse_is_order()
    ensures
        weak_order(coarse_order()),
        weak_order(coarse_items()),
{
    assert forall|a: CoarseV, b: CoarseV| #[trigger]
        coarse_order()(a, b) implies !coarse_order()(b, a) by {
        coarse_asymmetric(a, b);
    }
    assert forall|a: CoarseV, b: CoarseV, c: CoarseV|
        coarse_order()(a, c) implies #[trigger] coarse_order()(a, b)
        || #[trigger] coarse_order()(b, c) by {
        coarse_weak(a, b, c);
    }
    assert forall|a: Coarse, b: Coarse| #[trigger]
        coarse_items()(a, b) implies !coarse_items()(b, a) by {
        coarse_asymmetric(a@, b@);
    }
    assert forall|a: Coarse, b: Coarse, c: Coarse| coarse_items()(a, c) implies #[trigger] coarse_items()(
        a,
        b,
    ) || #[trigger] coarse_items()(b, c) by {
        coarse_weak(a@, b@, c@);
    }
}

/// The order of a first pass is a strict order in which incomparability is transitive.
pub proof fn first_pass_is_order()
    ensures
        weak_order(coarse_order()),
{
    coarse_is_order();
}

fn is_coarse_before(a: &Coarse, b: &Coarse) -> (r: bool)
    ensures
        r == coarse_before(a@, b@),
{
    if bits::is_ahead(a.score, b.score) {
        return true;
    }
    if bits::is_ahead(b.score, a.score) {
        return false;
    }
    if a.item.row != b.item.row {
        return a.item.row < b.item.row;
    }
    match side(a.item.collection.as_str(), b.item.collection.as_str()) {
        Side::Before => true,
        Side::After => {
            proof {
                lex_asymmetric(b.item.collection@, a.item.collection@);
            }
            false
        },
        Side::Same => {
            proof {
                lex_irreflexive(a.item.collection@);
            }
            match side(a.item.id.as_str(), b.item.id.as_str()) {
                Side::Before => true,
                _ => false,
            }
        },
    }
}

/// A search may be quantized: there is a coarse copy with something in it.
pub open spec fn quantizing(s: Store) -> bool {
    s.config.dimension > 0 && s.quant is Some && s.rows@.len() > 0
}

/// The coarse score of a row: how near its int8 code is to the query's, or in how few components
/// the signs differ.
pub open spec fn coarse_score<K: Kernel>(s: Store, k: K, q: Seq<u32>, row: u64) -> u32 {
    match s.quant {
        Some(Quant::Int8 { scale, vectors, .. }) => whole_of(
            k,
            code_nearness(
                s.config.distance == Distance::Euclidean,
                quantize_of(k, scale, q),
                vectors@[row as int]@,
            ) as i128,
        ),
        Some(Quant::Binary { .. }) => whole_of(
            k,
            -(sign_distance(q, s.rows@[row as int]@, q.len())) as i128,
        ),
        None => bits::ZERO,
    }
}

/// The scan with its coarse scores.
pub open spec fn coarsely<K: Kernel>(s: Store, k: K, q: Seq<u32>, scan: Seq<ScanV>) -> Seq<CoarseV> {
    scan.map_values(|x: ScanV| CoarseV { score: coarse_score(s, k, q, x.row), item: x })
}

/// The `n` documents of a scan with the best coarse scores.
pub open spec fn first_pass<K: Kernel>(
    s: Store,
    k: K,
    q: Seq<u32>,
    scan: Seq<ScanV>,
    n: usize,
) -> Seq<ScanV> {
    top(coarsely(s, k, q, scan), n as int, coarse_order()).map_values(|c: CoarseV| c.item)
}

/// How many candidates the first pass keeps.
pub open spec fn rescored(s: Store, top_k: usize) -> usize {
    let n = times(
        top_k,
        match s.config.quantization {
            Some(q) => q.rescore,
            None => 1,
        },
    );
    if n < top_k {
        top_k
    } else {
        n
    }
}

/// The first pass only picks: whatever it keeps is of the scan.
pub proof fn first_pass_picks<K: Kernel>(s: Store, k: K, q: Seq<u32>, scan: Seq<ScanV>, n: usize)
    ensures
        forall|i: int|
            0 <= i < first_pass(s, k, q, scan, n).len() ==> scan.contains(
                #[trigger] first_pass(s, k, q, scan, n)[i],
            ),
{
    let all = coarsely(s, k, q, scan);
    let kept = top(all, n as int, coarse_order());
    top_members(all, n as int, coarse_order());
    assert forall|i: int| 0 <= i < kept.len() implies scan.contains(
        #[trigger] first_pass(s, k, q, scan, n)[i],
    ) by {
        assert(kept.contains(kept[i]));
        let j = choose|j: int| 0 <= j < all.len() && all[j] == kept[i];
        assert(scan[j] == kept[i].item);
    }
}

/// A first pass that keeps at least as many as there are loses nothing.
pub proof fn wide_first_pass_loses_nothing<K: Kernel>(
    s: Store,
    k: K,
    q: Seq<u32>,
    scan: Seq<ScanV>,
    n: usize,
    x: ScanV,
)
    requires
        scan.len() <= n,
        scan.contains(x),
    ensures
        first_pass(s, k, q, scan, n).contains(x),
{
    let all = coarsely(s, k, q, scan);
    let i = choose|i: int| 0 <= i < scan.len() && scan[i] == x;
    let c = all[i];
    assert(c.item == x);
    assert(all.contains(c));
    let kept = top(all, n as int, coarse_order());
    assert(kept.contains(c)) by {
        wide_top_keeps(all, n as int, coarse_order());
    }
    let j = choose|j: int| 0 <= j < kept.len() && kept[j] == c;
    assert(first_pass(s, k, q, scan, n)[j] == x);
}

proof fn wide_top_keeps<T>(s: Seq<T>, n: int, lt: spec_fn(T, T) -> bool)
    requires
        s.len() <= n,
    ensures
        forall|x: T| #[trigger] s.contains(x) ==> top(s, n, lt).contains(x),
{
    sorted_len(s, lt);
    sorted_members(s, lt);
}

impl Store {
    /// How many candidates the first pass keeps for a page of `top_k`.
    pub fn overscan(&self, top_k: usize) -> (r: usize)
        ensures
            r == rescored(*self, top_k),
    {
        let factor: usize = match self.config.quantization {
            Some(q) => q.rescore,
            None => 1,
        };
        let n: usize = saturating_times(top_k, factor);
        if n < top_k {
            top_k
        } else {
            n
        }
    }

    fn coarse_of<K: Kernel>(&self, q: &Vec<u32>, code: &QueryCode, row: u64, k: &K) -> (r: u32)
        requires
            self.wf(),
            self.current(),
            functional(*k),
            q@.len() == self.config.dimension,
            row < self.rows@.len(),
            self.quant is Some,
            code.fits(*self, *k, q@),
        ensures
            r == coarse_score(*self, *k, q@, row),
    {
        let near: i128 = match (&self.quant, code) {
            (Some(Quant::Int8 { vectors, .. }), QueryCode::Int8(c)) => {
                proof {
                    assert(vectors@.len() == vectors.len());
                    assert(vectors@[row as int]@.len() == self.rows@[row as int]@.len());
                    assert(self.rows@[row as int]@.len() == self.config.dimension);
                }
                nearness(
                    match self.config.distance {
                        Distance::Euclidean => true,
                        _ => false,
                    },
                    c,
                    &vectors[row as usize],
                )
            },
            (Some(Quant::Binary { words, .. }), QueryCode::Signs(c)) => {
                let ghost w = words@[row as int];
                proof {
                    assert(words@.len() == words.len());
                    assert(self.rows@[row as int]@.len() == self.config.dimension);
                    codes_measure_signs(
                        c@,
                        w@,
                        q@,
                        self.rows@[row as int]@,
                        (64 * c@.len()) as nat,
                    );
                }
                -hamming(c, &words[row as usize])
            },
            _ => 0,
        };
        let x: u32 = k.whole(near);
        proof {
            assert(call_ensures(K::whole, (k, near), x));
        }
        x
    }

    /// The `n` documents of a scan with the best coarse scores, the best first, unless the query is
    /// cancelled.
    pub fn coarse_pass<K: Kernel, H: Host>(
        &self,
        q: &Vec<u32>,
        scan: &Vec<ScanItem>,
        n: usize,
        k: &K,
        h: &H,
    ) -> (r: Result<Vec<ScanItem>, StoreError>)
        requires
            self.wf(),
            self.current(),
            functional(*k),
            q@.len() == self.config.dimension,
            in_rows(*self, views(scan@)),
            self.quant is Some,
        ensures
            minds(*h, scan@.len() > 0, r),
            r matches Ok(out) ==> views(out@) == first_pass(*self, *k, q@, views(scan@), n)
                && in_rows(*self, views(out@)),
    {
        proof {
            coarse_is_order();
        }
        let code = match &self.quant {
            Some(Quant::Int8 { scale, .. }) => {
                QueryCode::Int8(quantize(k, *scale, q))
            },
            _ => QueryCode::Signs(pack_signs(q)),
        };
        let ghost all = views(scan@);
        let ghost want = coarsely(*self, *k, q@, all);
        let mut best: Vec<Coarse> = Vec::new();
        let ghost mut seen: Seq<Coarse> = Seq::empty();
        let mut i: usize = 0;
        let f = |a: &Coarse, b: &Coarse| -> (r: bool)
            ensures
                r == coarse_before(a@, b@),
            { is_coarse_before(a, b) };
        proof {
            assert(views(seen) =~= want.take(0));
            assert(best@ =~= top(seen, n as int, coarse_items()));
        }
        while i < scan.len()
            invariant
                i <= scan@.len(),
                self.wf(),
                self.current(),
                functional(*k),
                q@.len() == self.config.dimension,
                self.quant is Some,
                code.fits(*self, *k, q@),
                all == views(scan@),
                in_rows(*self, all),
                want == coarsely(*self, *k, q@, all),
                weak_order(coarse_items()),
                views(seen) == want.take(i as int),
                best@ == top(seen, n as int, coarse_items()),
                forall|a: &Coarse, b: &Coarse| #[trigger] call_requires(f, (a, b)),
                forall|a: &Coarse, b: &Coarse, r: bool| #[trigger]
                    call_ensures(f, (a, b), r) ==> r == coarse_items()(*a, *b),
                i > 0 ==> may_go_on(*h),
            decreases scan@.len() - i,
        {
            if i % CHECK_EVERY == 0 {
                if let Err(e) = check(h) {
                    return Err(e);
                }
            }
            let x = &scan[i];
            proof {
                assert(all[i as int] == x@);
            }
            let score: u32 = self.coarse_of(q, &code, x.row, k);
            let c = Coarse {
                score,
                item: ScanItem {
                    row: x.row,
                    collection: x.collection.as_str().to_owned(),
                    id: x.id.as_str().to_owned(),
                },
            };
            offer(&mut best, c, n, &f, Ghost(coarse_items()), Ghost(seen));
            proof {
                assert(c.item@ == x@);
                assert(c@ == want[i as int]);
                assert(views(seen.push(c)) =~= views(seen).push(c@));
                assert(want.take(i + 1) =~= want.take(i as int).push(want[i as int]));
                seen = seen.push(c);
            }
            i = i + 1;
        }
        let mut out: Vec<ScanItem> = Vec::new();
        let mut j: usize = 0;
        while j < best.len()
            invariant
                j <= best@.len(),
                out@.len() == j,
                forall|x: int| 0 <= x < j ==> (#[trigger] out@[x])@ == best@[x]@.item,
            decreases best@.len() - j,
        {
            let x = &best[j].item;
            out.push(
                ScanItem {
                    row: x.row,
                    collection: x.collection.as_str().to_owned(),
                    id: x.id.as_str().to_owned(),
                },
            );
            j = j + 1;
        }
        proof {
            let v = |c: Coarse| c@;
            assert(want.take(i as int) =~= want);
            sorted_map(seen, v, coarse_items(), coarse_order());
            assert(views(seen) =~= seen.map_values(v));
            assert(views(best@) =~= top(want, n as int, coarse_order()));
            assert(views(out@) =~= first_pass(*self, *k, q@, all, n));
            first_pass_picks(*self, *k, q@, all, n);
            assert forall|x: int| 0 <= x < views(out@).len() implies (
            #[trigger] views(out@)[x]).row < self.rows@.len() by {
                assert(all.contains(views(out@)[x]));
            }
        }
        Ok(out)
    }
}

/// The query's own code.
enum QueryCode {
    Int8(Vec<i8>),
    Signs(Vec<u64>),
}

impl QueryCode {
    /// The code is of the store's kind and stands for the query.
    spec fn fits<K: Kernel>(&self, s: Store, k: K, q: Seq<u32>) -> bool {
        match (s.quant, *self) {
            (Some(Quant::Int8 { scale, .. }), QueryCode::Int8(c)) => c@ == quantize_of(k, scale, q)
                && c@.len() == q.len(),
            (Some(Quant::Binary { .. }), QueryCode::Signs(c)) => crate::quant::sign_code(c@, q),
            _ => false,
        }
    }
}

} // verus!
