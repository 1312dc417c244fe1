//! Records with several vectors, and a scan shared out among workers.

use vstd::prelude::*;

use crate::bits;
use crate::kernel::{dot_of, gap_of, plus_of, scaled_of, Kernel};
use crate::model::Distance;
use crate::rank::ScoredV;
use crate::scoring::{
    reaches, reaching, record_end, record_scores, weighted, workers_for, NamedV, Pool,
};
use crate::store::Store;

verus! {

/// A row's weighted score: how near it is to the query, times the weight of its name, which is
/// one where no weight is given.
pub proof fn a_row_counts_with_the_weight_of_its_name<K: Kernel>(
    k: K,
    metric: Distance,
    rows: Seq<Vec<u32>>,
    q: Seq<u32>,
    weights: Seq<u32>,
    x: NamedV,
)
    ensures
        ({
            let near = match metric {
                Distance::Euclidean => gap_of(k, q, rows[x.row as int]@),
                Distance::Cosine => dot_of(k, q, rows[x.row as int]@),
                Distance::DotProduct => dot_of(k, q, rows[x.row as int]@),
            };
            &&& x.name < weights.len() ==> weighted(k, metric, rows, q, weights, x) == scaled_of(
                k,
                near,
                weights[x.name as int],
            )
            &&& x.name >= weights.len() ==> weighted(k, metric, rows, q, weights, x) == scaled_of(
                k,
                near,
                0x3f80_0000,
            )
        }),
{
}

/// The scores of records: a row of a record that the row before it does not belong to begins a new
/// one, at its own weighted score; another row of the same record is pooled into it, and no record
/// before it changes.
pub proof fn rows_of_one_record_are_pooled<K: Kernel>(
    k: K,
    metric: Distance,
    rows: Seq<Vec<u32>>,
    q: Seq<u32>,
    weights: Seq<u32>,
    pool: Pool,
    scan: Seq<NamedV>,
    x: NamedV,
)
    ensures
        ({
            let before = record_scores(k, metric, rows, q, weights, pool, scan);
            let after = record_scores(k, metric, rows, q, weights, pool, scan.push(x));
            let w = weighted(k, metric, rows, q, weights, x);
            let same = scan.len() > 0 && scan.last().collection == x.collection && scan.last().id
                == x.id;
            &&& scan.len() == 0 ==> before.len() == 0
            &&& scan.len() > 0 ==> before.len() > 0 && before.last().collection
                == scan.last().collection && before.last().id == scan.last().id
            &&& !same ==> after == before.push(
                ScoredV { score: w, collection: x.collection, id: x.id },
            )
            &&& same ==> {
                &&& after.len() == before.len()
                &&& after.drop_last() == before.drop_last()
                &&& after.last().collection == x.collection && after.last().id == x.id
                &&& pool is Sum ==> after.last().score == plus_of(k, before.last().score, w)
                &&& pool is Max ==> (after.last().score == before.last().score
                    || after.last().score == w) && !bits::num_lt(
                    after.last().score,
                    before.last().score,
                ) && !bits::num_lt(after.last().score, w)
                &&& pool is Max && !bits::is_nan(w) ==> !bits::is_nan(after.last().score)
            }
        }),
    decreases scan.len(),
{
    assert(scan.push(x).drop_last() =~= scan);
    if scan.len() > 0 {
        rows_of_one_record_are_pooled(
            k,
            metric,
            rows,
            q,
            weights,
            pool,
            scan.drop_last(),
            scan.last(),
        );
        assert(scan.drop_last().push(scan.last()) =~= scan);
        let before = record_scores(k, metric, rows, q, weights, pool, scan);
        let after = record_scores(k, metric, rows, q, weights, pool, scan.push(x));
        assert(before.len() > 0);
        assert(after.drop_last() =~= if scan.last().collection == x.collection && scan.last().id
            == x.id {
            before.drop_last()
        } else {
            before
        });
    }
}

/// Under `Max` the score of a record with several rows is not below the weighted score of any of
/// them, and is one of them.
pub proof fn the_best_row_decides<K: Kernel>(
    k: K,
    metric: Distance,
    rows: Seq<Vec<u32>>,
    q: Seq<u32>,
    weights: Seq<u32>,
    scan: Seq<NamedV>,
)
    requires
        scan.len() > 0,
        forall|i: int|
            0 <= i < scan.len() ==> (#[trigger] scan[i]).collection == scan[0].collection
                && scan[i].id == scan[0].id,
        forall|i: int|
            0 <= i < scan.len() ==> !bits::is_nan(
                weighted(k, metric, rows, q, weights, #[trigger] scan[i]),
            ),
    ensures
        ({
            let out = record_scores(k, metric, rows, q, weights, Pool::Max, scan);
            &&& out.len() == 1
            &&& out[0].collection == scan[0].collection && out[0].id == scan[0].id
            &&& !bits::is_nan(out[0].score)
            &&& forall|i: int|
                0 <= i < scan.len() ==> !bits::num_lt(
                    out[0].score,
                    weighted(k, metric, rows, q, weights, #[trigger] scan[i]),
                )
            &&& exists|i: int|
                0 <= i < scan.len() && out[0].score == weighted(
                    k,
                    metric,
                    rows,
                    q,
                    weights,
                    #[trigger] scan[i],
                )
        }),
    decreases scan.len(),
{
    let d = scan.drop_last();
    let x = scan.last();
    let n = scan.len() - 1;
    assert(d.push(x) =~= scan);
    assert(scan[n] == x);
    rows_of_one_record_are_pooled(k, metric, rows, q, weights, Pool::Max, d, x);
    let out = record_scores(k, metric, rows, q, weights, Pool::Max, scan);
    let w = weighted(k, metric, rows, q, weights, x);
    if d.len() == 0 {
        assert(out[0] == out.last());
        assert(out[0].score == weighted(k, metric, rows, q, weights, scan[0]));
    } else {
        assert forall|i: int| 0 <= i < d.len() implies #[trigger] scan[i] == d[i] by {}
        assert(scan[0] == d[0]);
        the_best_row_decides(k, metric, rows, q, weights, d);
        let before = record_scores(k, metric, rows, q, weights, Pool::Max, d);
        assert(d.last() == scan[n - 1]);
        assert(out[0] == out.last() && before[0] == before.last());
        if out[0].score == before[0].score {
            let i = choose|i: int|
                0 <= i < d.len() && before[0].score == weighted(
                    k,
                    metric,
                    rows,
                    q,
                    weights,
                    #[trigger] d[i],
                );
            assert(scan[i] == d[i]);
        } else {
            assert(out[0].score == weighted(k, metric, rows, q, weights, scan[n]));
        }
    }
}

/// A floor under pooled scores keeps the numbers that are not below it, the floor itself too, and
/// drops what is no number.
pub proof fn a_floor_under_records_drops_what_is_no_number(
    m: u32,
    s: Seq<ScoredV>,
    x: ScoredV,
)
    ensures
        reaching(None, s.push(x)) == reaching(None, s).push(x),
        reaching(Some(m), s.push(x)) == if reaches(Some(m), x.score) {
            reaching(Some(m), s).push(x)
        } else {
            reaching(Some(m), s)
        },
        reaching(Some(m), Seq::<ScoredV>::empty()).len() == 0,
        m <= 0x7f80_0000 && x.score <= 0x7f80_0000 ==> (reaches(Some(m), x.score) <==> x.score
            >= m),
        0x8000_0000 <= m <= 0xff80_0000 && 0x8000_0000 <= x.score <= 0xff80_0000 ==> (reaches(
            Some(m),
            x.score,
        ) <==> x.score <= m),
        0x8000_0000 < m <= 0xff80_0000 && x.score <= 0x7f80_0000 ==> reaches(Some(m), x.score),
        0 < m <= 0x7f80_0000 && 0x8000_0000 <= x.score <= 0xff80_0000 ==> !reaches(
            Some(m),
            x.score,
        ),
        bits::is_nan(x.score) ==> !reaches(Some(m), x.score),
{
    assert(s.push(x).drop_last() =~= s);
}

/// A cut is moved on past the rows of the record that it would split, and no further.
pub proof fn a_cut_moves_past_one_record(scan: Seq<NamedV>, pos: int)
    requires
        0 < pos <= scan.len(),
    ensures
        pos <= record_end(scan, pos) <= scan.len(),
        record_end(scan, pos) < scan.len() ==> scan[record_end(scan, pos) - 1].collection
            != scan[record_end(scan, pos)].collection || scan[record_end(scan, pos) - 1].id
            != scan[record_end(scan, pos)].id,
        forall|p: int|
            pos <= p < record_end(scan, pos) ==> (#[trigger] scan[p]).collection == scan[pos
                - 1].collection && scan[p].id == scan[pos - 1].id,
    decreases scan.len() - pos,
{
    if pos < scan.len() && scan[pos - 1].collection == scan[pos].collection && scan[pos - 1].id
        == scan[pos].id {
        a_cut_moves_past_one_record(scan, pos + 1);
    }
}

/// A scan is shared out where several threads are configured and the work, rows times components,
/// is at least 1,048,576; else one worker does it.
pub proof fn large_scans_are_shared_out(s: Store, n: usize)
    ensures
        s.config.query_threads <= 1 ==> workers_for(s, n) == 1,
        s.config.query_threads > 1 && n * s.config.dimension < 1_048_576 && n * s.config.dimension
            <= usize::MAX ==> workers_for(s, n) == 1,
        s.config.query_threads > 1 && n * s.config.dimension >= 1_048_576 ==> workers_for(s, n)
            == s.config.query_threads,
{
}

} // verus!
