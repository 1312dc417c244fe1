//! Coarse copies of the rows, which a first pass ranks by, and how they are kept up.

use vstd::prelude::*;

use crate::bits;
use crate::config::QuantKind;
use crate::dict::views;
use crate::kernel::{fit, fit_of, functional, quantize, quantize_of, Kernel};
use crate::model::Distance;
use crate::store::StoreError;

verus! {

/// The int8 scale is fitted anew once the rows outgrow this multiple of those it was fitted to.
pub const REFIT_GROWTH: u64 = 2;

/// How many components one word of a sign code covers.
pub const WORD: usize = 64;

/// The coarse copy of the rows, one code per row.
#[derive(Clone, Debug, PartialEq, Eq)]
pub enum Quant {
    Int8 {
        /// The shared scale, an `f32` bit pattern.
        scale: u32,
        vectors: Vec<Vec<i8>>,
        /// How many rows the scale was fitted to.
        params_rows: u64,
    },
    Binary { words: Vec<Vec<u64>>, words_per_row: usize },
}

// ── Sign codes ──────────────────────────────────────────────────────────────

/// Bit `b` of a word.
pub open spec fn bit(w: u64, b: u64) -> bool {
    (w >> b) & 1 == 1
}

/// The component is below zero, or negative zero.
pub open spec fn negative(x: u32) -> bool {
    x >= bits::SIGN
}

/// How many words the code of a row with `dim` components takes.
pub open spec fn words_for(dim: nat) -> nat {
    (dim + 63) / 64
}

/// The sign of component `d` as the code has it.
pub open spec fn sign_at(code: Seq<u64>, d: int) -> bool {
    bit(code[d / 64], (d % 64) as u64)
}

/// The code holds the sign of every component, and nothing past them.
pub open spec fn sign_code(code: Seq<u64>, v: Seq<u32>) -> bool {
    &&& code.len() == words_for(v.len())
    &&& forall|d: int| 0 <= d < v.len() ==> #[trigger] sign_at(code, d) == negative(v[d])
    &&& forall|d: int| v.len() <= d < 64 * code.len() ==> !#[trigger] sign_at(code, d)
}

/// In how many of the first `n` components two codes differ.
pub open spec fn differing(a: Seq<u64>, b: Seq<u64>, n: nat) -> nat
    decreases n,
{
    if n == 0 {
        0
    } else {
        differing(a, b, (n - 1) as nat) + if sign_at(a, n - 1) != sign_at(b, n - 1) {
            1nat
        } else {
            0
        }
    }
}

/// In how many of the first `n` components two rows differ in sign.
pub open spec fn sign_distance(a: Seq<u32>, b: Seq<u32>, n: nat) -> nat
    decreases n,
{
    if n == 0 {
        0
    } else {
        sign_distance(a, b, (n - 1) as nat) + if negative(a[n - 1]) != negative(b[n - 1]) {
            1nat
        } else {
            0
        }
    }
}

/// Comparing two codes compares the signs of the rows that they stand for.
pub proof fn codes_measure_signs(a: Seq<u64>, b: Seq<u64>, x: Seq<u32>, y: Seq<u32>, n: nat)
    requires
        sign_code(a, x),
        sign_code(b, y),
        x.len() == y.len(),
        n <= 64 * a.len(),
    ensures
        differing(a, b, n) == sign_distance(
            x,
            y,
            if n < x.len() {
                n
            } else {
                x.len()
            },
        ),
    decreases n,
{
    if n > 0 {
        codes_measure_signs(a, b, x, y, (n - 1) as nat);
        let d = n - 1;
        if d < x.len() {
            assert(sign_at(a, d) == negative(x[d]));
            assert(sign_at(b, d) == negative(y[d]));
        } else {
            assert(!sign_at(a, d));
            assert(!sign_at(b, d));
        }
    }
}

fn has_bit(w: u64, b: u64) -> (r: bool)
    requires
        b < 64,
    ensures
        r == bit(w, b),
{
    (w >> b) & 1 == 1
}

fn set_bit(w: u64, b: u64) -> (r: u64)
    requires
        b < 64,
    ensures
        forall|c: u64| c < 64 ==> #[trigger] bit(r, c) == (c == b || bit(w, c)),
{
    let r: u64 = w | (1u64 << b);
    proof {
        assert forall|c: u64| c < 64 implies #[trigger] bit(r, c) == (c == b || bit(w, c)) by {
            assert(((w | (1u64 << b)) >> c) & 1 == 1 <==> (c == b || (w >> c) & 1 == 1))
                by (bit_vector)
                requires
                    b < 64,
                    c < 64,
            ;
        }
    }
    r
}

/// The signs of a row, 64 to a word.
pub fn pack_signs(v: &Vec<u32>) -> (code: Vec<u64>)
    ensures
        sign_code(code@, v@),
{
    let mut code: Vec<u64> = Vec::new();
    let mut d: usize = 0;
    while d < v.len()
        invariant
            d <= v@.len(),
            code@.len() == words_for(d as nat),
            forall|e: int| 0 <= e < d ==> #[trigger] sign_at(code@, e) == negative(v@[e]),
            forall|e: int| d <= e < 64 * code@.len() ==> !#[trigger] sign_at(code@, e),
        decreases v@.len() - d,
    {
        let ghost before = code@;
        let at: usize = d / WORD;
        let b: u64 = (d % WORD) as u64;
        if b == 0 {
            code.push(0);
            proof {
                assert forall|e: int| d <= e < 64 * code@.len() implies !#[trigger] sign_at(
                    code@,
                    e,
                ) by {
                    let c = (e % 64) as u64;
                    assert((0u64 >> c) & 1 != 1) by (bit_vector)
                        requires
                            c < 64,
                    ;
                }
                assert forall|e: int| 0 <= e < d implies #[trigger] sign_at(code@, e) == negative(
                    v@[e],
                ) by {
                    assert(sign_at(before, e) == negative(v@[e]));
                }
            }
        }
        let ghost open = code@;
        if v[d] >= bits::SIGN {
            let w: u64 = set_bit(code[at], b);
            code.set(at, w);
        }
        proof {
            assert forall|e: int| 0 <= e < d + 1 implies #[trigger] sign_at(code@, e) == negative(
                v@[e],
            ) by {
                if e < d {
                    assert(sign_at(open, e) == negative(v@[e]));
                    if e / 64 == at {
                        assert(e % 64 != b);
                    }
                } else {
                    assert(!sign_at(open, e));
                }
            }
            assert forall|e: int| d + 1 <= e < 64 * code@.len() implies !#[trigger] sign_at(
                code@,
                e,
            ) by {
                assert(!sign_at(open, e));
                if e / 64 == at {
                    assert(e % 64 != b);
                }
            }
        }
        d = d + 1;
    }
    code
}

/// In how many components two codes of one length differ.
pub fn hamming(a: &Vec<u64>, b: &Vec<u64>) -> (n: i128)
    requires
        a@.len() == b@.len(),
    ensures
        n == differing(a@, b@, (64 * a@.len()) as nat),
        0 <= n <= 64 * a@.len(),
{
    let mut i: usize = 0;
    let mut n: i128 = 0;
    while i < a.len()
        invariant
            i <= a@.len(),
            a@.len() == b@.len(),
            0 <= n <= 64 * i,
            n == differing(a@, b@, (64 * i) as nat),
        decreases a@.len() - i,
    {
        let mut c: u64 = 0;
        while c < 64
            invariant
                i < a@.len(),
                a@.len() == b@.len(),
                c <= 64,
                0 <= n <= 64 * i + c,
                n == differing(a@, b@, (64 * i + c) as nat),
            decreases 64 - c,
        {
            proof {
                let d = 64 * i + c;
                assert(d / 64 == i && d % 64 == c);
            }
            if has_bit(a[i], c) != has_bit(b[i], c) {
                n = n + 1;
            }
            c = c + 1;
        }
        i = i + 1;
    }
    n
}

// ── Int8 codes ──────────────────────────────────────────────────────────────

/// The sum of the products of the first `n` codes.
pub open spec fn dot_codes(a: Seq<i8>, b: Seq<i8>, n: nat) -> int
    decreases n,
{
    if n == 0 {
        0
    } else {
        dot_codes(a, b, (n - 1) as nat) + a[n - 1] * b[n - 1]
    }
}

/// The sum of the squared differences of the first `n` codes.
pub open spec fn gap_codes(a: Seq<i8>, b: Seq<i8>, n: nat) -> int
    decreases n,
{
    if n == 0 {
        0
    } else {
        gap_codes(a, b, (n - 1) as nat) + (a[n - 1] - b[n - 1]) * (a[n - 1] - b[n - 1])
    }
}

/// How near two int8 codes are: their product, or under the Euclidean metric their squared
/// distance negated.
pub open spec fn code_nearness(euclidean: bool, a: Seq<i8>, b: Seq<i8>) -> int {
    if euclidean {
        -gap_codes(a, b, a.len())
    } else {
        dot_codes(a, b, a.len())
    }
}

/// How near two int8 codes are.
pub fn nearness(euclidean: bool, a: &Vec<i8>, b: &Vec<i8>) -> (r: i128)
    requires
        a@.len() == b@.len(),
    ensures
        r == code_nearness(euclidean, a@, b@),
{
    let mut i: usize = 0;
    let mut sum: i128 = 0;
    while i < a.len()
        invariant
            i <= a@.len(),
            a@.len() == b@.len(),
                -(i * 0x1_0000) <= sum <= i * 0x1_0000,
            sum == if euclidean {
                -gap_codes(a@, b@, i as nat)
            } else {
                dot_codes(a@, b@, i as nat)
            },
        decreases a@.len() - i,
    {
        let x: i128 = a[i] as i128;
        let y: i128 = b[i] as i128;
        proof {
            assert(-0x1_0000 <= x * y <= 0x1_0000) by (nonlinear_arith)
                requires
                    -128 <= x <= 127,
                    -128 <= y <= 127,
            ;
            assert(0 <= (x - y) * (x - y) <= 0x1_0000) by (nonlinear_arith)
                requires
                    -128 <= x <= 127,
                    -128 <= y <= 127,
            ;
        }
        if euclidean {
            sum = sum - (x - y) * (x - y);
        } else {
            sum = sum + x * y;
        }
        i = i + 1;
    }
    sum
}

// ── Keeping the copy up ─────────────────────────────────────────────────────

/// An empty copy of a kind that fits the metric.
pub fn empty(kind: QuantKind, dim: usize, distance: Distance) -> (r: Result<Quant, StoreError>)
    ensures
        r is Err <==> kind == QuantKind::Binary && distance != Distance::Cosine,
        r matches Err(e) ==> e == StoreError::BinaryNeedsCosine,
        r matches Ok(q) ==> codes(q) == 0 && (kind == QuantKind::Int8 ==> q is Int8
            && q->params_rows == 0 && q->scale == bits::ONE) && (kind == QuantKind::Binary ==> q is Binary
            && q->words_per_row == words_for(dim as nat)),
{
    match kind {
        QuantKind::Int8 => Ok(Quant::Int8 { scale: bits::ONE, vectors: Vec::new(), params_rows: 0 }),
        QuantKind::Binary => match distance {
            Distance::Cosine => {
                let words_per_row: usize = dim / WORD + if dim % WORD == 0 {
                    0
                } else {
                    1
                };
                Ok(Quant::Binary { words: Vec::new(), words_per_row })
            },
            _ => Err(StoreError::BinaryNeedsCosine),
        },
    }
}

/// How many rows the copy covers.
pub open spec fn codes(q: Quant) -> nat {
    match q {
        Quant::Int8 { vectors, .. } => vectors@.len(),
        Quant::Binary { words, .. } => words@.len(),
    }
}

/// Every code is the code of its row: for int8 of the row's length, for binary the row's signs.
pub open spec fn copies(q: Quant, rows: Seq<Vec<u32>>) -> bool {
    &&& codes(q) == rows.len()
    &&& q matches Quant::Int8 { vectors, params_rows, .. } ==> params_rows <= rows.len()
        && forall|i: int|
        0 <= i < rows.len() ==> (#[trigger] vectors@[i])@.len() == rows[i]@.len()
    &&& q matches Quant::Binary { words, .. } ==> forall|i: int|
        0 <= i < rows.len() ==> sign_code((#[trigger] words@[i])@, rows[i]@)
}

/// The int8 copy of all the rows under one scale.
pub open spec fn quantized<K: Kernel>(k: K, scale: u32, rows: Seq<Seq<u32>>, from: int) -> Seq<
    Seq<i8>,
> {
    Seq::new((rows.len() - from) as nat, |i: int| quantize_of(k, scale, rows[from + i]))
}

/// An int8 copy was made in one go, its scale fitted to all the rows. Of the binary one there is
/// only one copy.
pub open spec fn fitted<K: Kernel>(k: K, q: Option<Quant>, rows: Seq<Seq<u32>>) -> bool {
    q matches Some(Quant::Int8 { scale, vectors, params_rows }) ==> {
        &&& scale == fit_of(k, rows)
        &&& params_rows == rows.len()
        &&& views(vectors@) == quantized(k, scale, rows, 0)
    }
}

/// The scale is fitted anew for `total` rows.
pub open spec fn refits(params_rows: u64, total: nat) -> bool {
    params_rows == 0 || total > params_rows * REFIT_GROWTH
}

pub(crate) fn quantize_from<K: Kernel>(
    vectors: &mut Vec<Vec<i8>>,
    scale: u32,
    rows: &Vec<Vec<u32>>,
    from: usize,
    k: &K,
)
    requires
        functional(*k),
        from <= rows@.len(),
    ensures
        views(final(vectors)@) == views(old(vectors)@) + quantized(
            *k,
            scale,
            views(rows@),
            from as int,
        ),
        final(vectors)@.len() == old(vectors)@.len() + rows@.len() - from,
        forall|i: int|
            0 <= i < old(vectors)@.len() ==> #[trigger] final(vectors)@[i] == old(vectors)@[i],
        forall|i: int|
            0 <= i < rows@.len() - from ==> (#[trigger] final(vectors)@[old(vectors)@.len()
                + i])@.len() == rows@[from + i]@.len(),
{
    let ghost start = vectors@;
    let mut i: usize = from;
    while i < rows.len()
        invariant
            from <= i <= rows@.len(),
            functional(*k),
            vectors@.len() == start.len() + (i - from),
            forall|j: int| 0 <= j < start.len() ==> #[trigger] vectors@[j] == start[j],
            forall|j: int|
                0 <= j < i - from ==> (#[trigger] vectors@[start.len() + j])@ == quantize_of(
                    *k,
                    scale,
                    rows@[from + j]@,
                ) && vectors@[start.len() + j]@.len() == rows@[from + j]@.len(),
        decreases rows@.len() - i,
    {
        vectors.push(quantize(k, scale, &rows[i]));
        i = i + 1;
    }
    proof {
        let want = views(start) + quantized(*k, scale, views(rows@), from as int);
        assert forall|j: int| 0 <= j < want.len() implies #[trigger] views(vectors@)[j]
            == want[j] by {
            if j >= start.len() {
                assert(vectors@[start.len() + (j - start.len())]@ == quantize_of(
                    *k,
                    scale,
                    rows@[from + (j - start.len())]@,
                ));
            } else {
                assert(vectors@[j] == start[j]);
            }
        }
        assert(views(vectors@) =~= want);
    }
}

fn pack_from(words: &mut Vec<Vec<u64>>, rows: &Vec<Vec<u32>>, from: usize)
    requires
        from <= rows@.len(),
        old(words)@.len() == from,
        forall|i: int|
            0 <= i < from ==> sign_code((#[trigger] old(words)@[i])@, rows@[i]@),
    ensures
        final(words)@.len() == rows@.len(),
        forall|i: int|
            0 <= i < rows@.len() ==> sign_code((#[trigger] final(words)@[i])@, rows@[i]@),
{
    let mut i: usize = from;
    while i < rows.len()
        invariant
            from <= i <= rows@.len(),
            words@.len() == i,
            forall|j: int| 0 <= j < i ==> sign_code((#[trigger] words@[j])@, rows@[j]@),
        decreases rows@.len() - i,
    {
        words.push(pack_signs(&rows[i]));
        i = i + 1;
    }
}

/// Build the copy from all the rows: int8 fits the scale anew, binary packs signs.
pub fn rebuilt<K: Kernel>(q: Quant, rows: &Vec<Vec<u32>>, dim: usize, k: &K) -> (r: Quant)
    requires
        functional(*k),
    ensures
        copies(r, rows@),
        r is Int8 <==> q is Int8,
        q is Int8 ==> r->scale == fit_of(*k, views(rows@)) && r->params_rows == rows@.len()
            && views(r->vectors@) == quantized(*k, fit_of(*k, views(rows@)), views(rows@), 0),
        q is Binary ==> r->words_per_row == words_for(dim as nat),
{
    match q {
        Quant::Int8 { .. } => {
            let scale: u32 = fit(k, rows);
            let mut vectors: Vec<Vec<i8>> = Vec::new();
            quantize_from(&mut vectors, scale, rows, 0, k);
            let params_rows: u64 = rows.len() as u64;
            proof {
                let none: Seq<Vec<i8>> = Seq::empty();
                assert(views(none) + quantized(*k, scale, views(rows@), 0) =~= quantized(
                    *k,
                    scale,
                    views(rows@),
                    0,
                ));
                assert forall|i: int| 0 <= i < rows@.len() implies (
                #[trigger] vectors@[i])@.len() == rows@[i]@.len() by {
                    assert(vectors@[0 + i]@.len() == rows@[0 + i]@.len());
                }
            }
            Quant::Int8 { scale, vectors, params_rows }
        },
        Quant::Binary { .. } => {
            let mut words: Vec<Vec<u64>> = Vec::new();
            pack_from(&mut words, rows, 0);
            let words_per_row: usize = dim / WORD + if dim % WORD == 0 {
                0
            } else {
                1
            };
            Quant::Binary { words, words_per_row }
        },
    }
}

/// Extend the copy over the rows appended since: int8 keeps its scale until the rows outgrow it
/// and is then built anew, binary packs the new rows.
pub fn extended<K: Kernel>(q: Quant, rows: &Vec<Vec<u32>>, dim: usize, k: &K) -> (r: Quant)
    requires
        functional(*k),
        codes(q) <= rows@.len(),
        copies(q, rows@.take(codes(q) as int)),
    ensures
        copies(r, rows@),
        r is Int8 <==> q is Int8,
        q is Int8 && refits(q->params_rows, rows@.len()) ==> r->scale == fit_of(
            *k,
            views(rows@),
        ) && r->params_rows == rows@.len() && views(r->vectors@) == quantized(
            *k,
            fit_of(*k, views(rows@)),
            views(rows@),
            0,
        ),
        q is Int8 && !refits(q->params_rows, rows@.len()) ==> r->scale == q->scale
            && r->params_rows == q->params_rows && views(r->vectors@) == views(q->vectors@)
            + quantized(
            *k,
            q->scale,
            views(rows@),
            codes(q) as int,
        ),
        q is Binary && q->words_per_row == words_for(dim as nat) ==> r->words_per_row
            == words_for(dim as nat),
{
    let ghost prefix = rows@.take(codes(q) as int);
    match q {
        Quant::Int8 { scale, vectors, params_rows } => {
            let total: u128 = rows.len() as u128;
            if params_rows == 0 || total > params_rows as u128 * REFIT_GROWTH as u128 {
                return rebuilt(Quant::Int8 { scale, vectors, params_rows }, rows, dim, k);
            }
            let ghost old_vectors = vectors@;
            let mut vectors = vectors;
            let n: usize = vectors.len();
            quantize_from(&mut vectors, scale, rows, n, k);
            proof {
                assert forall|i: int| 0 <= i < rows@.len() implies (
                #[trigger] vectors@[i])@.len() == rows@[i]@.len() by {
                    if i < n {
                        assert(vectors@[i] == old_vectors[i]);
                        assert(old_vectors[i]@.len() == prefix[i]@.len());
                    } else {
                        assert(vectors@[n + (i - n)]@.len() == rows@[n + (i - n)]@.len());
                    }
                }
            }
            Quant::Int8 { scale, vectors, params_rows }
        },
        Quant::Binary { words, words_per_row } => {
            let mut words = words;
            let n: usize = words.len();
            proof {
                assert forall|i: int| 0 <= i < n implies sign_code(
                    (#[trigger] words@[i])@,
                    rows@[i]@,
                ) by {
                    assert(prefix[i] == rows@[i]);
                }
            }
            pack_from(&mut words, rows, n);
            Quant::Binary { words, words_per_row }
        },
    }
}

} // verus!
