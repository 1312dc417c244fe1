//! The floating-point arithmetic of a query, supplied by the caller.

use vstd::prelude::*;

use crate::dict::views;
use crate::model::{Decay, Distance};
use crate::rank::RankTerms;

verus! {

/// The arithmetic on `f32` bit patterns that the store does not do itself. An implementation
/// must be a function of what its arguments hold, and `unit` and `quantize` must keep the length
/// of theirs.
pub trait Kernel {
    /// The unit vector in the direction of `v`.
    fn unit(&self, v: &Vec<u32>) -> Vec<u32>;

    /// The dot product.
    fn dot(&self, a: &Vec<u32>, b: &Vec<u32>) -> u32;

    /// The squared distance, negated, so that the nearest has the largest.
    fn gap(&self, a: &Vec<u32>, b: &Vec<u32>) -> u32;

    /// A base score less what the ranking expression takes off it.
    fn adjust(&self, decay: &Decay, base: u32, terms: RankTerms) -> u32;

    /// The cosine of the angle between two rows.
    fn cosine(&self, a: &Vec<u32>, b: &Vec<u32>) -> u32;

    /// `lambda * score - (1 - lambda) * redundancy`.
    fn mmr(&self, lambda: u32, score: u32, redundancy: u32) -> u32;

    /// `a + b`.
    fn plus(&self, a: u32, b: u32) -> u32;

    /// `a * b`.
    fn scaled(&self, a: u32, b: u32) -> u32;

    /// `weight / (k + rank + 1)`.
    fn reciprocal(&self, weight: u32, k: u32, rank: usize) -> u32;

    /// The scale that `rows` are quantized with.
    fn fit(&self, rows: &Vec<Vec<u32>>) -> u32;

    /// A row quantized with `scale`, one code per component.
    fn quantize(&self, scale: u32, row: &Vec<u32>) -> Vec<i8>;

    /// The `f32` nearest to `n`.
    fn whole(&self, n: i128) -> u32;

    /// The `f64` bit pattern of a sum: the `f64` patterns in `floats` are added up in their order,
    /// from zero, and `ints`, rounded to an `f64`, is added last.
    fn total(&self, ints: i128, floats: &Vec<u64>) -> u64;

    /// `part / whole > share`.
    fn exceeds(&self, part: u64, whole: u64, share: u32) -> bool;
}

/// The kernel may answer `x` for the unit vector.
pub open spec fn units_to<K: Kernel>(k: K, v: Seq<u32>, x: Seq<u32>) -> bool {
    exists|a: Vec<u32>, b: Vec<u32>|
        a@ == v && b@ == x && #[trigger] call_ensures(K::unit, (&k, &a), b)
}

/// What the kernel makes of `v` when it scales it to length one.
pub open spec fn unit_of<K: Kernel>(k: K, v: Seq<u32>) -> Seq<u32> {
    choose|x: Seq<u32>| #[trigger] units_to(k, v, x)
}

/// The kernel may answer `x` for the dot product.
pub open spec fn dots_to<K: Kernel>(k: K, a: Seq<u32>, b: Seq<u32>, x: u32) -> bool {
    exists|v: Vec<u32>, w: Vec<u32>|
        v@ == a && w@ == b && #[trigger] call_ensures(K::dot, (&k, &v, &w), x)
}

/// The kernel's dot product.
pub open spec fn dot_of<K: Kernel>(k: K, a: Seq<u32>, b: Seq<u32>) -> u32 {
    choose|x: u32| #[trigger] dots_to(k, a, b, x)
}

/// The kernel may answer `x` for the negated squared distance.
pub open spec fn gaps_to<K: Kernel>(k: K, a: Seq<u32>, b: Seq<u32>, x: u32) -> bool {
    exists|v: Vec<u32>, w: Vec<u32>|
        v@ == a && w@ == b && #[trigger] call_ensures(K::gap, (&k, &v, &w), x)
}

/// The kernel's negated squared distance.
pub open spec fn gap_of<K: Kernel>(k: K, a: Seq<u32>, b: Seq<u32>) -> u32 {
    choose|x: u32| #[trigger] gaps_to(k, a, b, x)
}

/// How near a stored row is to the query under a metric: the dot product, which of vectors of
/// length one is their cosine, or under the Euclidean metric the negated squared distance.
pub open spec fn measured<K: Kernel>(k: K, d: Distance, q: Seq<u32>, row: Seq<u32>) -> u32 {
    match d {
        Distance::Euclidean => gap_of(k, q, row),
        _ => dot_of(k, q, row),
    }
}

/// What the kernel makes of a base score under a ranking expression.
pub open spec fn adjust_of<K: Kernel>(k: K, decay: Decay, base: u32, terms: RankTerms) -> u32 {
    choose|x: u32| call_ensures(K::adjust, (&k, &decay, base, terms), x)
}

/// The kernel may answer `x` for the cosine.
pub open spec fn cosines_to<K: Kernel>(k: K, a: Seq<u32>, b: Seq<u32>, x: u32) -> bool {
    exists|v: Vec<u32>, w: Vec<u32>|
        v@ == a && w@ == b && #[trigger] call_ensures(K::cosine, (&k, &v, &w), x)
}

/// The kernel's cosine of two rows.
pub open spec fn cosine_of<K: Kernel>(k: K, a: Seq<u32>, b: Seq<u32>) -> u32 {
    choose|x: u32| #[trigger] cosines_to(k, a, b, x)
}

/// The kernel's trade of relevance against redundancy.
pub open spec fn mmr_of<K: Kernel>(k: K, lambda: u32, score: u32, redundancy: u32) -> u32 {
    choose|x: u32| call_ensures(K::mmr, (&k, lambda, score, redundancy), x)
}

/// The kernel's sum.
pub open spec fn plus_of<K: Kernel>(k: K, a: u32, b: u32) -> u32 {
    choose|x: u32| call_ensures(K::plus, (&k, a, b), x)
}

/// The kernel's product.
pub open spec fn scaled_of<K: Kernel>(k: K, a: u32, b: u32) -> u32 {
    choose|x: u32| call_ensures(K::scaled, (&k, a, b), x)
}

/// The kernel's weighted reciprocal rank.
pub open spec fn reciprocal_of<K: Kernel>(k: K, weight: u32, c: u32, rank: usize) -> u32 {
    choose|x: u32| call_ensures(K::reciprocal, (&k, weight, c, rank), x)
}

/// The kernel may answer `x` for the scale.
pub open spec fn fits_to<K: Kernel>(k: K, rows: Seq<Seq<u32>>, x: u32) -> bool {
    exists|v: Vec<Vec<u32>>| views(v@) == rows && #[trigger] call_ensures(K::fit, (&k, &v), x)
}

/// The kernel's scale for `rows`.
pub open spec fn fit_of<K: Kernel>(k: K, rows: Seq<Seq<u32>>) -> u32 {
    choose|x: u32| #[trigger] fits_to(k, rows, x)
}

/// The kernel may answer `x` for the codes.
pub open spec fn quantizes_to<K: Kernel>(k: K, scale: u32, row: Seq<u32>, x: Seq<i8>) -> bool {
    exists|v: Vec<u32>, w: Vec<i8>|
        v@ == row && w@ == x && #[trigger] call_ensures(K::quantize, (&k, scale, &v), w)
}

/// The kernel's codes for `row`.
pub open spec fn quantize_of<K: Kernel>(k: K, scale: u32, row: Seq<u32>) -> Seq<i8> {
    choose|x: Seq<i8>| #[trigger] quantizes_to(k, scale, row, x)
}

/// The kernel's `f32` for a whole number.
pub open spec fn whole_of<K: Kernel>(k: K, n: i128) -> u32 {
    choose|x: u32| call_ensures(K::whole, (&k, n), x)
}

/// The kernel may answer `x` for the total.
pub open spec fn totals_to<K: Kernel>(k: K, ints: i128, floats: Seq<u64>, x: u64) -> bool {
    exists|v: Vec<u64>| v@ == floats && #[trigger] call_ensures(K::total, (&k, ints, &v), x)
}

/// The kernel's total.
pub open spec fn total_of<K: Kernel>(k: K, ints: i128, floats: Seq<u64>) -> u64 {
    choose|x: u64| #[trigger] totals_to(k, ints, floats, x)
}

/// The kernel finds that the part exceeds the share.
pub open spec fn exceeds_of<K: Kernel>(k: K, part: u64, whole: u64, share: u32) -> bool {
    choose|x: bool| call_ensures(K::exceeds, (&k, part, whole, share), x)
}

/// The kernel is a function of what its arguments hold; `unit` and `quantize` keep lengths.
pub open spec fn functional<K: Kernel>(k: K) -> bool {
    &&& forall|v: Seq<u32>, x: Seq<u32>, y: Seq<u32>| #[trigger]
        units_to(k, v, x) && #[trigger] units_to(k, v, y) ==> x == y && x.len() == v.len()
    &&& forall|a: Seq<u32>, b: Seq<u32>, x: u32, y: u32| #[trigger]
        dots_to(k, a, b, x) && #[trigger] dots_to(k, a, b, y) ==> x == y
    &&& forall|a: Seq<u32>, b: Seq<u32>, x: u32, y: u32| #[trigger]
        gaps_to(k, a, b, x) && #[trigger] gaps_to(k, a, b, y) ==> x == y
    &&& forall|d: Decay, b: u32, t: RankTerms, x: u32, y: u32| #[trigger]
        call_ensures(K::adjust, (&k, &d, b, t), x) && #[trigger] call_ensures(
            K::adjust,
            (&k, &d, b, t),
            y,
        ) ==> x == y
    &&& forall|a: Seq<u32>, b: Seq<u32>, x: u32, y: u32| #[trigger]
        cosines_to(k, a, b, x) && #[trigger] cosines_to(k, a, b, y) ==> x == y
    &&& forall|l: u32, s: u32, m: u32, x: u32, y: u32| #[trigger]
        call_ensures(K::mmr, (&k, l, s, m), x) && #[trigger] call_ensures(K::mmr, (&k, l, s, m), y)
            ==> x == y
    &&& forall|a: u32, b: u32, x: u32, y: u32| #[trigger]
        call_ensures(K::plus, (&k, a, b), x) && #[trigger] call_ensures(K::plus, (&k, a, b), y)
            ==> x == y
    &&& forall|a: u32, b: u32, x: u32, y: u32| #[trigger]
        call_ensures(K::scaled, (&k, a, b), x) && #[trigger] call_ensures(K::scaled, (&k, a, b), y)
            ==> x == y
    &&& forall|w: u32, c: u32, r: usize, x: u32, y: u32| #[trigger]
        call_ensures(K::reciprocal, (&k, w, c, r), x) && #[trigger] call_ensures(
            K::reciprocal,
            (&k, w, c, r),
            y,
        ) ==> x == y
    &&& forall|rows: Seq<Seq<u32>>, x: u32, y: u32| #[trigger]
        fits_to(k, rows, x) && #[trigger] fits_to(k, rows, y) ==> x == y
    &&& forall|s: u32, v: Seq<u32>, x: Seq<i8>, y: Seq<i8>| #[trigger]
        quantizes_to(k, s, v, x) && #[trigger] quantizes_to(k, s, v, y) ==> x == y && x.len()
            == v.len()
    &&& forall|n: i128, x: u32, y: u32| #[trigger]
        call_ensures(K::whole, (&k, n), x) && #[trigger] call_ensures(K::whole, (&k, n), y) ==> x
            == y
    &&& forall|n: i128, v: Seq<u64>, x: u64, y: u64| #[trigger]
        totals_to(k, n, v, x) && #[trigger] totals_to(k, n, v, y) ==> x == y
    &&& forall|p: u64, w: u64, s: u32, x: bool, y: bool| #[trigger]
        call_ensures(K::exceeds, (&k, p, w, s), x) && #[trigger] call_ensures(
            K::exceeds,
            (&k, p, w, s),
            y,
        ) ==> x == y
}

/// Scale a vector to length one.
pub(crate) fn unit<K: Kernel>(k: &K, v: &Vec<u32>) -> (r: Vec<u32>)
    requires
        functional(*k),
    ensures
        r@ == unit_of(*k, v@),
        r@.len() == v@.len(),
{
    let r = k.unit(v);
    proof {
        assert(call_ensures(K::unit, (k, v), r));
        assert(units_to(*k, v@, r@));
    }
    r
}

/// How near a stored row is to the query under a metric.
pub(crate) fn measure<K: Kernel>(k: &K, d: Distance, q: &Vec<u32>, row: &Vec<u32>) -> (r: u32)
    requires
        functional(*k),
    ensures
        r == measured(*k, d, q@, row@),
{
    match d {
        Distance::Euclidean => {
            let r: u32 = k.gap(q, row);
            proof {
                assert(call_ensures(K::gap, (k, q, row), r));
                assert(gaps_to(*k, q@, row@, r));
            }
            r
        },
        _ => {
            let r: u32 = k.dot(q, row);
            proof {
                assert(call_ensures(K::dot, (k, q, row), r));
                assert(dots_to(*k, q@, row@, r));
            }
            r
        },
    }
}

/// The cosine of two rows.
pub(crate) fn cosine<K: Kernel>(k: &K, a: &Vec<u32>, b: &Vec<u32>) -> (r: u32)
    requires
        functional(*k),
    ensures
        r == cosine_of(*k, a@, b@),
{
    let r: u32 = k.cosine(a, b);
    proof {
        assert(call_ensures(K::cosine, (k, a, b), r));
        assert(cosines_to(*k, a@, b@, r));
    }
    r
}

/// The scale that `rows` are quantized with.
pub(crate) fn fit<K: Kernel>(k: &K, rows: &Vec<Vec<u32>>) -> (r: u32)
    requires
        functional(*k),
    ensures
        r == fit_of(*k, views(rows@)),
{
    let r: u32 = k.fit(rows);
    proof {
        assert(call_ensures(K::fit, (k, rows), r));
        assert(fits_to(*k, views(rows@), r));
    }
    r
}

/// A row quantized with `scale`.
pub(crate) fn quantize<K: Kernel>(k: &K, scale: u32, row: &Vec<u32>) -> (r: Vec<i8>)
    requires
        functional(*k),
    ensures
        r@ == quantize_of(*k, scale, row@),
        r@.len() == row@.len(),
{
    let r = k.quantize(scale, row);
    proof {
        assert(call_ensures(K::quantize, (k, scale, row), r));
        assert(quantizes_to(*k, scale, row@, r@));
    }
    r
}

} // verus!
