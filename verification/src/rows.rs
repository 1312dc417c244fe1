//! Every document that has a row has one of its own.

use vstd::prelude::*;

use crate::compact::{compacted, live_row_is_used, place_grows};
use crate::index::{apply, is_live, replay, CollsV, IndexV, OpV};
use crate::kernel::Kernel;
use crate::model::Record;
use crate::order::{sorted_len, sorted_members, sorted_ordered, weak_order};
use crate::scan::{by_row, gathered, gathered_members, listable, scan_of};
use crate::scope::{a_scan_names_no_record_twice, scanned_record};
use crate::store::{apply_all, rows_in_range, Store};
use crate::value::Filter;
use crate::write::{
    batch_ops, deleted, op_for, recall_op, recalled, swept, upserted, vec_count,
    vec_count_bounds,
};

verus! {

/// The row of a document that has one.
pub open spec fn row_at(cols: CollsV, p: (Seq<char>, Seq<char>)) -> u64 {
    cols[p.0].docs[p.1].row->0
}

/// No two documents share a row.
pub open spec fn rows_apart(cols: CollsV) -> bool {
    forall|p: (Seq<char>, Seq<char>), q: (Seq<char>, Seq<char>)| #[trigger]
        is_live(cols, p) && #[trigger] is_live(cols, q) && p != q ==> row_at(cols, p) != row_at(
            cols,
            q,
        )
}

impl Store {
    /// No two documents share a row. Every operation keeps it so.
    pub open spec fn apart(&self) -> bool {
        rows_apart(self.index@.collections)
    }
}

/// No document has the row.
pub open spec fn is_free(cols: CollsV, row: u64) -> bool {
    forall|p: (Seq<char>, Seq<char>)| #[trigger] is_live(cols, p) ==> row_at(cols, p) != row
}

/// The row that an operation gives a document.
pub open spec fn row_given(op: OpV) -> Option<u64> {
    match op {
        OpV::Put(_, _, row, _) => row,
        _ => None,
    }
}

/// Taking documents away, or changing anything but their rows, brings no two to one row.
pub proof fn fewer_documents_stay_apart(before: CollsV, after: CollsV)
    requires
        rows_apart(before),
        forall|p: (Seq<char>, Seq<char>)| #[trigger]
            is_live(after, p) ==> is_live(before, p) && row_at(after, p) == row_at(before, p),
    ensures
        rows_apart(after),
{
}

proof fn apply_stays_apart(ix: IndexV, op: OpV, rows: u64)
    requires
        rows_apart(ix.collections),
        row_given(op) matches Some(row) ==> is_free(ix.collections, row),
    ensures
        rows_apart(apply(ix, op, rows).collections),
        forall|p: (Seq<char>, Seq<char>)| #[trigger]
            is_live(apply(ix, op, rows).collections, p) ==> {
                ||| is_live(ix.collections, p) && row_at(apply(ix, op, rows).collections, p)
                    == row_at(ix.collections, p)
                ||| row_given(op) == Some(row_at(apply(ix, op, rows).collections, p))
            },
{
    let cols = ix.collections;
    let after = apply(ix, op, rows).collections;
    assert forall|p: (Seq<char>, Seq<char>)| #[trigger] is_live(after, p) implies {
        ||| is_live(cols, p) && row_at(after, p) == row_at(cols, p)
        ||| row_given(op) == Some(row_at(after, p))
    } by {
        match op {
            OpV::Put(c, id, row, _) => {
                if p.0 == c && p.1 != id && cols.contains_key(c) {
                    assert(is_live(cols, p) || row_given(op) == Some(row_at(after, p)));
                }
            },
            _ => {},
        }
    }
    assert forall|p: (Seq<char>, Seq<char>), q: (Seq<char>, Seq<char>)| #[trigger]
        is_live(after, p) && #[trigger] is_live(after, q) && p != q implies row_at(after, p)
        != row_at(after, q) by {
        if let OpV::Put(c, id, Some(row), _) = op {
            if row < rows {
                let x = (c, id);
                if p == x {
                    assert(is_live(cols, q) && row_at(after, q) == row_at(cols, q));
                } else if q == x {
                    assert(is_live(cols, p) && row_at(after, p) == row_at(cols, p));
                } else {
                    assert(is_live(cols, p) && row_at(after, p) == row_at(cols, p));
                    assert(is_live(cols, q) && row_at(after, q) == row_at(cols, q));
                }
            }
        }
    }
}

/// No two operations of the log give out the same row.
pub open spec fn given_once(log: Seq<OpV>) -> bool {
    forall|i: int, j: int|
        0 <= i < j < log.len() && row_given(#[trigger] log[i]) is Some && row_given(
            #[trigger] log[j],
        ) is Some ==> row_given(log[i]) != row_given(log[j])
}

proof fn replayed_rows_were_given(log: Seq<OpV>, rows: u64)
    requires
        given_once(log),
    ensures
        rows_apart(replay(log, rows).collections),
        forall|p: (Seq<char>, Seq<char>)| #[trigger]
            is_live(replay(log, rows).collections, p) ==> exists|i: int|
                0 <= i < log.len() && row_given(#[trigger] log[i]) == Some(
                    row_at(replay(log, rows).collections, p),
                ),
    decreases log.len(),
{
    if log.len() > 0 {
        let d = log.drop_last();
        assert forall|i: int, j: int|
            0 <= i < j < d.len() && row_given(#[trigger] d[i]) is Some && row_given(
                #[trigger] d[j],
            ) is Some implies row_given(d[i]) != row_given(d[j]) by {
            assert(d[i] == log[i] && d[j] == log[j]);
        }
        replayed_rows_were_given(d, rows);
        let ix = replay(d, rows);
        let op = log.last();
        let n = log.len() - 1;
        assert(log[n] == op);
        if let Some(row) = row_given(op) {
            assert forall|p: (Seq<char>, Seq<char>)| #[trigger]
                is_live(ix.collections, p) implies row_at(ix.collections, p) != row by {
                let i = choose|i: int|
                    0 <= i < d.len() && row_given(#[trigger] d[i]) == Some(
                        row_at(ix.collections, p),
                    );
                assert(log[i] == d[i]);
            }
        }
        apply_stays_apart(ix, op, rows);
        let after = replay(log, rows).collections;
        assert forall|p: (Seq<char>, Seq<char>)| #[trigger] is_live(after, p) implies exists|i: int|
            0 <= i < log.len() && row_given(#[trigger] log[i]) == Some(row_at(after, p)) by {
            if is_live(ix.collections, p) && row_at(after, p) == row_at(ix.collections, p) {
                let i = choose|i: int|
                    0 <= i < d.len() && row_given(#[trigger] d[i]) == Some(
                        row_at(ix.collections, p),
                    );
                assert(log[i] == d[i]);
            } else {
                assert(row_given(log[n]) == Some(row_at(after, p)));
            }
        }
    }
}

/// A log that gives out every row once replays to documents that share none.
pub proof fn a_replay_keeps_rows_apart(log: Seq<OpV>, rows: u64)
    requires
        given_once(log),
    ensures
        rows_apart(replay(log, rows).collections),
{
    replayed_rows_were_given(log, rows);
}

proof fn batch_stays_apart(
    ix: IndexV,
    c: Seq<char>,
    records: Seq<Record>,
    base: int,
    i: int,
    rows: u64,
)
    requires
        rows_apart(ix.collections),
        rows_in_range(ix.collections, base),
        0 <= base,
        0 <= i <= records.len(),
        base + vec_count(records) <= u64::MAX,
    ensures
        ({
            let after = apply_all(ix, batch_ops(c, records, base).take(i), rows).collections;
            &&& rows_apart(after)
            &&& rows_in_range(after, base + vec_count(records.take(i)))
        }),
    decreases i,
{
    let ops = batch_ops(c, records, base);
    if i == 0 {
        assert(ops.take(0) =~= Seq::<OpV>::empty());
        assert(records.take(0) =~= Seq::<Record>::empty());
    } else {
        batch_stays_apart(ix, c, records, base, i - 1, rows);
        let mid = apply_all(ix, ops.take(i - 1), rows);
        let cols = mid.collections;
        let after = apply_all(ix, ops.take(i), rows).collections;
        assert(ops.take(i).drop_last() =~= ops.take(i - 1));
        assert(ops.take(i).last() == ops[i - 1]);
        assert(records.take(i).drop_last() =~= records.take(i - 1));
        assert(records.take(i).last() == records[i - 1]);
        vec_count_bounds(records, i);
        vec_count_bounds(records, i - 1);
        let n = base + vec_count(records.take(i - 1));
        let op = ops[i - 1];
        assert(op == op_for(c, records, i - 1, base));
        assert(is_free(cols, n as u64)) by {
            assert forall|p: (Seq<char>, Seq<char>)| #[trigger] is_live(cols, p) implies row_at(
                cols,
                p,
            ) != n as u64 by {
                assert(cols[p.0].docs[p.1].row->0 < n);
            }
        }
        apply_stays_apart(mid, op, rows);
        assert forall|d: Seq<char>, id: Seq<char>| is_live(after, (d, id)) implies (
        #[trigger] after[d].docs[id]).row->0 < base + vec_count(records.take(i)) by {
            let p = (d, id);
            assert(is_live(after, p));
            if is_live(cols, p) && row_at(after, p) == row_at(cols, p) {
                assert(cols[d].docs[id].row->0 < n);
            } else {
                assert(row_given(op) == Some(row_at(after, p)));
            }
        }
    }
}

/// A batch gives every record a row that no document has.
pub proof fn a_batch_keeps_rows_apart<K: Kernel>(
    k: K,
    before: Store,
    after: Store,
    c: Seq<char>,
    records: Seq<Record>,
)
    requires
        before.wf(),
        rows_apart(before.index@.collections),
        upserted(k, before, after, c, records),
        after.rows@.len() <= u64::MAX,
    ensures
        rows_apart(after.index@.collections),
{
    let base = before.rows@.len() as int;
    let ops = batch_ops(c, records, base);
    batch_stays_apart(
        before.index@,
        c,
        records,
        base,
        records.len() as int,
        after.rows@.len() as u64,
    );
    assert(ops.take(records.len() as int) =~= ops);
}

/// A deletion brings no two documents to one row.
pub proof fn a_deletion_keeps_rows_apart(
    before: IndexV,
    after: IndexV,
    c: Seq<char>,
    gone: Set<Seq<char>>,
)
    requires
        rows_apart(before.collections),
        deleted(before, after, c, gone),
    ensures
        rows_apart(after.collections),
{
    fewer_documents_stay_apart(before.collections, after.collections);
}

/// A sweep brings no two documents to one row.
pub proof fn a_sweep_keeps_rows_apart(before: IndexV, after: IndexV, filter: Filter)
    requires
        rows_apart(before.collections),
        swept(before, after, filter),
    ensures
        rows_apart(after.collections),
{
    fewer_documents_stay_apart(before.collections, after.collections);
}

/// An operation that gives out no row brings no two documents to one.
pub proof fn an_operation_keeps_rows_apart(ix: IndexV, op: OpV, rows: u64)
    requires
        rows_apart(ix.collections),
        row_given(op) is None,
    ensures
        rows_apart(apply(ix, op, rows).collections),
{
    apply_stays_apart(ix, op, rows);
}

/// A recall brings no two documents to one row.
pub proof fn a_recall_keeps_rows_apart(
    ix: IndexV,
    c: Seq<char>,
    ids: Seq<Seq<char>>,
    now: i64,
    extend: Option<i64>,
    rows: u64,
)
    requires
        rows_apart(ix.collections),
    ensures
        rows_apart(recalled(ix, c, ids, now, extend, rows).collections),
    decreases ids.len(),
{
    if ids.len() > 0 {
        a_recall_keeps_rows_apart(ix, c, ids.drop_last(), now, extend, rows);
        let prior = recalled(ix, c, ids.drop_last(), now, extend, rows);
        apply_stays_apart(prior, recall_op(prior, c, ids.last(), now, extend), rows);
    }
}

/// A compaction renumbers the rows without bringing two documents to one.
pub proof fn a_compaction_keeps_rows_apart(ix: IndexV)
    requires
        listable(ix.collections),
        rows_apart(ix.collections),
    ensures
        rows_apart(compacted(ix).collections),
{
    let cols = ix.collections;
    let after = compacted(ix).collections;
    assert forall|p: (Seq<char>, Seq<char>), q: (Seq<char>, Seq<char>)| #[trigger]
        is_live(after, p) && #[trigger] is_live(after, q) && p != q implies row_at(after, p)
        != row_at(after, q) by {
        assert(is_live(cols, p) && is_live(cols, q));
        let a = row_at(cols, p) as int;
        let b = row_at(cols, q) as int;
        assert(a != b);
        live_row_is_used(cols, p.0, p.1);
        live_row_is_used(cols, q.0, q.1);
        place_grows(cols, a, a);
        place_grows(cols, b, b);
        if a < b {
            place_grows(cols, a, b);
        } else {
            place_grows(cols, b, a);
        }
    }
}

/// A scan goes through the rows in their order, and through none twice.
pub proof fn a_scan_goes_up_the_rows(cols: CollsV, scope: Seq<Seq<char>>, filter: Filter)
    requires
        listable(cols),
        rows_apart(cols),
    ensures
        forall|i: int, j: int|
            0 <= i < j < scan_of(cols, scope, filter).len() ==> (#[trigger] scan_of(
                cols,
                scope,
                filter,
            )[i]).row < (#[trigger] scan_of(cols, scope, filter)[j]).row,
{
    let all = gathered(cols, scope, filter);
    let scan = scan_of(cols, scope, filter);
    a_scan_names_no_record_twice(cols, scope, filter);
    sorted_len(all, by_row());
    sorted_members(all, by_row());
    assert(weak_order(by_row()));
    sorted_ordered(all, by_row());
    assert forall|i: int, j: int| 0 <= i < j < scan.len() implies (#[trigger] scan[i]).row < (
    #[trigger] scan[j]).row by {
        assert(scan.contains(scan[i]) && scan.contains(scan[j]));
        gathered_members(cols, scope, filter, scan[i]);
        gathered_members(cols, scope, filter, scan[j]);
        let p = (scan[i].collection, scan[i].id);
        let q = (scan[j].collection, scan[j].id);
        assert(scanned_record()(scan[i]) != scanned_record()(scan[j]));
        assert(is_live(cols, p) && is_live(cols, q));
        assert(!by_row()(scan[j], scan[i]));
    }
}

} // verus!
