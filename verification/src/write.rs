//! Batched writes: upserting, deleting and recalling records.

use vstd::prelude::*;

use crate::config::{OpenMode, QuantKind};
use crate::dict::{ascending_distinct, has_key, ordered, to_map_at, views, Dup};
use crate::index::{
    accounted, apply, apply_accounts, is_live, live, rows_brought, CollV, CollsV, IndexV, Op, OpV,
    META_ACCESS_COUNT, META_EXPIRES_AT,
};
use crate::kernel::{fit_of, functional, unit, unit_of, Kernel};
use crate::model::{dup_bits, Distance, Record};
use crate::quant::{codes, copies, extended, quantized, refits, words_for, Quant};
use crate::rank::saturating_plus;
use crate::scan::{check_listable, listable};
use crate::rows::{
    a_batch_keeps_rows_apart, a_deletion_keeps_rows_apart, a_recall_keeps_rows_apart,
    a_sweep_keeps_rows_apart,
};
use crate::store::{apply_all, rows_in_range, seg_total, Segment, Store, StoreError};
use crate::value::{admits, passes, Attrs, AttrsV, Filter, Value, ValueV};

verus! {

// ── Upsert ──────────────────────────────────────────────────────────────────

/// How many of the records have a vector.
pub open spec fn vec_count(records: Seq<Record>) -> nat
    decreases records.len(),
{
    if records.len() == 0 {
        0
    } else {
        vec_count(records.drop_last()) + if records.last().vector is Some {
            1nat
        } else {
            0
        }
    }
}

/// The row that record `i` of a batch gets when the batch's first vector goes to row `base`.
pub open spec fn row_for(records: Seq<Record>, i: int, base: int) -> int {
    base + vec_count(records.take(i))
}

/// The operation that record `i` of a batch is logged as.
pub open spec fn op_for(c: Seq<char>, records: Seq<Record>, i: int, base: int) -> OpV {
    OpV::Put(
        c,
        records[i].id@,
        if records[i].vector is Some {
            Some(row_for(records, i, base) as u64)
        } else {
            None
        },
        records[i].attrs@,
    )
}

/// The operations that a batch is logged as.
pub open spec fn batch_ops(c: Seq<char>, records: Seq<Record>, base: int) -> Seq<OpV> {
    Seq::new(records.len(), |i: int| op_for(c, records, i, base))
}

/// The components that are stored for a vector: of length one under the cosine metric.
pub open spec fn stored<K: Kernel>(k: K, distance: Distance, v: Vec<u32>) -> Seq<u32> {
    if distance == Distance::Cosine {
        unit_of(k, v@)
    } else {
        v@
    }
}

/// The first record whose vector has the wrong length.
pub open spec fn misfit(records: Seq<Record>, dim: usize) -> Option<usize>
    decreases records.len(),
{
    if records.len() == 0 {
        None
    } else if misfit(records.drop_last(), dim) is Some {
        misfit(records.drop_last(), dim)
    } else {
        match records.last().vector {
            Some(v) => if v@.len() != dim {
                Some(v@.len() as usize)
            } else {
                None
            },
            None => None,
        }
    }
}

/// The bytes that `n` rows take.
pub open spec fn row_bytes(n: int, dim: usize) -> int {
    n * dim * 4
}

impl Store {
    /// The batch would outgrow the cap on vector bytes.
    pub open spec fn over_cap(&self, n: int) -> bool {
        self.config.max_vector_bytes matches Some(cap) && row_bytes(
            self.rows@.len() + n,
            self.config.dimension,
        ) > cap
    }

    /// A batch starts by sealing the active segment once it is full.
    pub open spec fn seals(&self) -> bool {
        self.config.segment_max_rows matches Some(max) && self.segments@.last().rows >= max
    }

    /// Every batch is a commit point of its own.
    pub open spec fn counts_batches(&self) -> bool {
        self.config.history_versions is Some || self.config.cluster
    }

    /// The segments once a full active segment is sealed and a new one opened.
    pub open spec fn after_seal(&self) -> Seq<Segment> {
        if self.seals() {
            self.segments@.push(Segment { id: self.next_segment, rows: 0 })
        } else {
            self.segments@
        }
    }

    /// The segments that have an index once a full active segment is sealed: the sealed one has
    /// one where it reaches the threshold.
    pub open spec fn after_seal_flags(&self, flags: Seq<bool>) -> Seq<bool> {
        if self.seals() && self.segment_indexing() {
            let sealed = self.segments@.len() - 1;
            let built = self.segments@[sealed].rows >= self.config.segment_index_min_rows->0;
            flags.update(sealed, built).push(false)
        } else {
            flags
        }
    }
}

/// The segments with `n` more rows in the active one.
pub open spec fn grown(s: Seq<Segment>, n: int) -> Seq<Segment> {
    s.update(s.len() - 1, Segment { id: s.last().id, rows: (s.last().rows + n) as u64 })
}

/// The store after a batch is taken in.
pub open spec fn upserted<K: Kernel>(
    k: K,
    before: Store,
    after: Store,
    c: Seq<char>,
    records: Seq<Record>,
) -> bool {
    let base = before.rows@.len() as int;
    let ops = batch_ops(c, records, base);
    &&& after == (Store {
        rows: after.rows,
        segments: after.segments,
        next_segment: after.next_segment,
        version: after.version,
        log: after.log,
        index: after.index,
        quant: after.quant,
        indexed: after.indexed,
        index_dirty: after.index_dirty,
        ..before
    })
    &&& after.rows@.len() == base + vec_count(records)
    &&& after.rows@.take(base) == before.rows@
    &&& forall|i: int|
        0 <= i < records.len() && (#[trigger] records[i]).vector is Some
            ==> after.rows@[row_for(records, i, base)]@ == stored(
            k,
            before.config.distance,
            records[i].vector->0,
        )
    &&& after.segments@ == grown(before.after_seal(), vec_count(records) as int)
    &&& after.next_segment == before.next_segment + if before.seals() {
        1int
    } else {
        0
    }
    &&& after.version == before.version + (if before.seals() {
        1int
    } else {
        0
    }) + (if before.counts_batches() {
        1int
    } else {
        0
    })
    &&& views(after.log@) == views(before.log@) + ops
    &&& after.index@ == apply_all(before.index@, ops, after.rows@.len() as u64)
    &&& extends(k, before.quant, after.quant, after.rows@)
    &&& after.indexed@ == before.after_seal_flags(before.indexed@)
    &&& after.index_dirty@ == before.after_seal_flags(before.index_dirty@)
}

/// A part of a batch has no more vectors than the whole, and no more than records.
pub proof fn vec_count_bounds(records: Seq<Record>, i: int)
    requires
        0 <= i <= records.len(),
    ensures
        vec_count(records.take(i)) <= vec_count(records),
        vec_count(records) <= records.len(),
        vec_count(records.take(i)) <= i,
        i < records.len() ==> vec_count(records.take(i + 1)) == vec_count(records.take(i))
            + if records[i].vector is Some {
            1nat
        } else {
            0
        },
        i < records.len() && records[i].vector is Some ==> vec_count(records.take(i)) < vec_count(
            records,
        ),
    decreases records.len(),
{
    if i < records.len() {
        assert(records.take(i + 1).drop_last() =~= records.take(i));
        assert(records.take(i + 1).last() == records[i]);
    }
    if records.len() > 0 {
        let d = records.drop_last();
        if i < records.len() {
            vec_count_bounds(d, i);
            assert(d.take(i) =~= records.take(i));
            if i == records.len() - 1 {
                assert(d.take(i) =~= d);
            }
        } else {
            vec_count_bounds(d, d.len() as int);
            assert(d.take(d.len() as int) =~= d);
            assert(records.take(i) =~= records);
        }
    }
}

proof fn misfit_none(records: Seq<Record>, dim: usize)
    ensures
        misfit(records, dim) is None <==> forall|i: int|
            0 <= i < records.len() ==> ((#[trigger] records[i]).vector matches Some(v) ==> v@.len()
                == dim),
    decreases records.len(),
{
    if records.len() > 0 {
        let d = records.drop_last();
        misfit_none(d, dim);
        if misfit(records, dim) is None {
            assert forall|i: int| 0 <= i < records.len() implies (
            (#[trigger] records[i]).vector matches Some(v) ==> v@.len() == dim) by {
                if i < d.len() {
                    assert(d[i] == records[i]);
                }
            }
        } else {
            if misfit(d, dim) is Some {
                let i = choose|i: int|
                    0 <= i < d.len() && !((#[trigger] d[i]).vector matches Some(v) ==> v@.len()
                        == dim);
                assert(records[i] == d[i]);
            } else {
                assert(records[records.len() - 1] == records.last());
            }
        }
    }
}

proof fn seg_total_push(s: Seq<Segment>, x: Segment)
    ensures
        seg_total(s.push(x)) == seg_total(s) + x.rows,
{
    assert(s.push(x).drop_last() =~= s);
}

fn check_lengths(records: &[Record], dim: usize) -> (r: Result<usize, usize>)
    ensures
        misfit(records@, dim) matches Some(got) ==> r == Err::<usize, usize>(got),
        misfit(records@, dim) is None ==> r == Ok::<usize, usize>(vec_count(records@) as usize),
        vec_count(records@) <= usize::MAX,
{
    let mut i: usize = 0;
    let mut n: usize = 0;
    proof {
        assert(records@.take(0) =~= Seq::empty());
        vec_count_bounds(records@, 0);
    }
    while i < records.len()
        invariant
            i <= records@.len(),
            n <= i,
            n == vec_count(records@.take(i as int)),
            misfit(records@.take(i as int), dim) is None,
        decreases records@.len() - i,
    {
        proof {
            assert(records@.take(i + 1).drop_last() =~= records@.take(i as int));
            assert(records@.take(i + 1).last() == records@[i as int]);
        }
        match &records[i].vector {
            Some(v) => {
                if v.len() != dim {
                    proof {
                        misfit_prefix(records@, i + 1, dim);
                        vec_count_bounds(records@, 0);
                    }
                    return Err(v.len());
                }
                n = n + 1;
            },
            None => {},
        }
        i = i + 1;
    }
    proof {
        assert(records@.take(i as int) =~= records@);
    }
    Ok(n)
}

proof fn misfit_prefix(records: Seq<Record>, i: int, dim: usize)
    requires
        0 <= i <= records.len(),
        misfit(records.take(i), dim) is Some,
    ensures
        misfit(records, dim) == misfit(records.take(i), dim),
    decreases records.len() - i,
{
    if i < records.len() {
        assert(records.take(i + 1).drop_last() =~= records.take(i));
        misfit_prefix(records, i + 1, dim);
    } else {
        assert(records.take(i) =~= records);
    }
}

/// The coarse copy `after` is `before` brought up to `rows`: int8 codes of the new rows under the
/// scale it has, or of every row under a new one where the rows have outgrown that; sign codes of
/// the new rows.
pub open spec fn extends<K: Kernel>(
    k: K,
    before: Option<Quant>,
    after: Option<Quant>,
    rows: Seq<Vec<u32>>,
) -> bool {
    match (before, after) {
        (None, None) => true,
        (
            Some(Quant::Int8 { scale, vectors, params_rows }),
            Some(Quant::Int8 { scale: s2, vectors: v2, params_rows: p2 }),
        ) => if refits(params_rows, rows.len()) {
            &&& s2 == fit_of(k, views(rows))
            &&& p2 == rows.len()
            &&& views(v2@) == quantized(k, s2, views(rows), 0)
        } else {
            &&& s2 == scale
            &&& p2 == params_rows
            &&& views(v2@) == views(vectors@) + quantized(
                k,
                scale,
                views(rows),
                vectors@.len() as int,
            )
        },
        (Some(Quant::Binary { .. }), Some(Quant::Binary { .. })) => copies(after->0, rows),
        _ => false,
    }
}

impl Store {
    /// Why a batch is refused, the first reason in the order in which they are looked at.
    pub open spec fn upsert_refusal(&self, records: Seq<Record>) -> Option<StoreError> {
        if !self.writable() {
            Some(self.write_refusal())
        } else if misfit(records, self.config.dimension) is Some {
            Some(
                StoreError::VectorLength {
                    got: misfit(records, self.config.dimension)->0,
                    want: self.config.dimension,
                },
            )
        } else if self.over_cap(vec_count(records) as int) {
            Some(
                StoreError::OverCap {
                    bytes: clamp_u64(
                        row_bytes(
                            (self.rows@.len() + vec_count(records)) as int,
                            self.config.dimension,
                        ),
                    ),
                    cap: self.config.max_vector_bytes->0,
                },
            )
        } else if !self.room(records.len() as int) {
            Some(StoreError::Full)
        } else {
            None
        }
    }

    /// Index the active segment, which is about to be sealed, where it reaches the threshold, and
    /// make a place for the next one.
    fn index_just_sealed(&mut self)
        requires
            old(self).aligned(),
            old(self).segments@.len() >= 1,
        ensures
            *final(self) == (Store {
                indexed: final(self).indexed,
                index_dirty: final(self).index_dirty,
                ..*old(self)
            }),
            !old(self).segment_indexing() ==> *final(self) == *old(self),
            old(self).segment_indexing() ==> {
                let sealed = old(self).segments@.len() - 1;
                let built = old(self).segments@[sealed].rows
                    >= old(self).config.segment_index_min_rows->0;
                &&& final(self).indexed@ == old(self).indexed@.update(sealed, built).push(false)
                &&& final(self).index_dirty@ == old(self).index_dirty@.update(sealed, built).push(
                    false,
                )
            },
    {
        if self.ann {
            return;
        }
        if let Some(min) = self.config.segment_index_min_rows {
            let sealed: usize = self.segments.len() - 1;
            let built = self.segments[sealed].rows >= min;
            self.indexed.set(sealed, built);
            self.indexed.push(false);
            self.index_dirty.set(sealed, built);
            self.index_dirty.push(false);
        }
    }

    /// Seal the active segment where it is full, and open a new one.
    fn seal_if_full(&mut self)
        requires
            old(self).wf(),
            old(self).version < u64::MAX - 1,
            old(self).next_segment < u64::MAX,
        ensures
            final(self).wf(),
            *final(self) == (Store {
                segments: final(self).segments,
                next_segment: final(self).next_segment,
                version: final(self).version,
                indexed: final(self).indexed,
                index_dirty: final(self).index_dirty,
                ..*old(self)
            }),
            final(self).segments@ == old(self).after_seal(),
            final(self).indexed@ == old(self).after_seal_flags(old(self).indexed@),
            final(self).index_dirty@ == old(self).after_seal_flags(old(self).index_dirty@),
            old(self).seals() ==> {
                &&& final(self).next_segment == old(self).next_segment + 1
                &&& final(self).version == old(self).version + 1
            },
            !old(self).seals() ==> *final(self) == *old(self),
    {
        let last: usize = self.segments.len() - 1;
        match self.config.segment_max_rows {
            Some(max) => {
                if self.segments[last].rows >= max {
                    proof {
                        seg_total_push(
                            self.segments@,
                            Segment { id: self.next_segment, rows: 0 },
                        );
                    }
                    self.index_just_sealed();
                    self.segments.push(Segment { id: self.next_segment, rows: 0 });
                    self.next_segment = self.next_segment + 1;
                    self.version = self.version + 1;
                }
            },
            None => {},
        }
    }

    /// Append one row to the active segment.
    fn append_row(&mut self, row: Vec<u32>)
        requires
            old(self).wf(),
            row@.len() == old(self).config.dimension,
            old(self).rows@.len() < usize::MAX,
        ensures
            final(self).wf(),
            *final(self) == (Store {
                rows: final(self).rows,
                segments: final(self).segments,
                ..*old(self)
            }),
            final(self).rows@ == old(self).rows@.push(row),
            final(self).segments@ == old(self).segments@.update(
                old(self).segments@.len() - 1,
                Segment {
                    id: old(self).segments@.last().id,
                    rows: (old(self).segments@.last().rows + 1) as u64,
                },
            ),
    {
        let last: usize = self.segments.len() - 1;
        let active = self.segments[last];
        proof {
            let s = self.segments@;
            assert(seg_total(s) == seg_total(s.drop_last()) + s.last().rows);
            let u = s.update(
                last as int,
                Segment { id: active.id, rows: (active.rows + 1) as u64 },
            );
            assert(u.drop_last() =~= s.drop_last());
        }
        let grown: u64 = active.rows + 1;
        self.segments.set(last, Segment { id: active.id, rows: grown });
        self.rows.push(row);
        proof {
            assert(rows_in_range(self.index@.collections, self.rows@.len() as int)) by {
                assert forall|c: Seq<char>, id: Seq<char>|
                    is_live(self.index@.collections, (c, id)) implies (
                #[trigger] self.index@.collections[c].docs[id]).row->0 < self.rows@.len() by {
                    assert(old(self).index@.collections[c].docs[id].row->0 < old(self).rows@.len());
                }
            }
        }
    }

    /// Store a batch of records under their ids. The batch goes in whole or not at all; a
    /// collection that does not exist is created; an id that exists is overwritten.
    #[verifier::rlimit(60)]
    pub fn upsert<K: Kernel>(&mut self, collection: &str, records: &[Record], k: &K) -> (r: Result<
        (),
        StoreError,
    >)
        requires
            old(self).wf(),
            old(self).current(),
            functional(*k),
        ensures
            final(self).wf(),
            final(self).current(),
            old(self).faithful() ==> final(self).faithful(),
            old(self).apart() ==> final(self).apart(),
            old(self).upsert_refusal(records@) matches Some(e) ==> {
                &&& r == Err::<(), StoreError>(e)
                &&& *final(self) == *old(self)
            },
            old(self).upsert_refusal(records@) is None ==> {
                &&& r is Ok
                &&& upserted(*k, *old(self), *final(self), collection@, records@)
            },
    {
        match self.config.open_mode {
            OpenMode::ReadOnly => {
                return Err(StoreError::ReadOnly);
            },
            OpenMode::ReadWrite => {},
        }
        if self.fenced {
            return Err(StoreError::Fenced);
        }
        let dim: usize = self.config.dimension;
        let added: usize = match check_lengths(records, dim) {
            Ok(n) => n,
            Err(got) => {
                return Err(StoreError::VectorLength { got, want: dim });
            },
        };
        if let Some(cap) = self.config.max_vector_bytes {
            let bytes: Option<u128> = bytes_of(self.rows.len(), added, dim);
            match bytes {
                Some(b) => {
                    if b > cap as u128 {
                        return Err(StoreError::OverCap { bytes: clamp(b), cap });
                    }
                },
                None => {
                    return Err(StoreError::OverCap { bytes: u64::MAX, cap });
                },
            }
        }
        let used: u128 = self.log.len() as u128 + self.rows.len() as u128 + 2 * (
        records.len() as u128);
        if !(used < usize::MAX as u128 && self.version < u64::MAX - 1 && self.next_segment
            < u64::MAX) {
            return Err(StoreError::Full);
        }
        let ghost base = self.rows@.len() as int;
        self.seal_if_full();
        let ghost sealed = *self;
        self.append_all(records, k);
        let ghost grown = *self;
        let total: u64 = self.rows.len() as u64;
        let mut i: usize = 0;
        let first: u64 = total - added as u64;
        let mut next: u64 = first;
        let ghost ops = batch_ops(collection@, records@, base);
        proof {
            vec_count_bounds(records@, 0);
            assert(ops.take(0) =~= Seq::<OpV>::empty());
            assert(records@.take(0) =~= Seq::empty());
            assert(views(self.log@) =~= views(old(self).log@) + ops.take(0));
            assert(views(grown.log@).take(grown.log@.len() as int) =~= views(grown.log@));
        }
        while i < records.len()
            invariant
                i <= records@.len(),
                self.wf(),
                self.same_but_index(&grown),
                grown.rows@.len() == total,
                grown.log@ == old(self).log@,
                grown.index@ == old(self).index@,
                base == old(self).rows@.len(),
                total == base + vec_count(records@),
                base + vec_count(records@) + old(self).log@.len() + records@.len() < usize::MAX,
                self.log@.len() == old(self).log@.len() + i,
                next == base + vec_count(records@.take(i as int)),
                ops == batch_ops(collection@, records@, base),
                views(self.log@) == views(old(self).log@) + ops.take(i as int),
                self.index@ == apply_all(old(self).index@, ops.take(i as int), total),
            decreases records@.len() - i,
        {
            proof {
                vec_count_bounds(records@, i as int);
            }
            let record = &records[i];
            let op = match &record.vector {
                Some(_) => {
                    let row: u64 = next;
                    next = next + 1;
                    Op::Upsert {
                        collection: collection.to_owned(),
                        id: record.id.dup(),
                        row,
                        attrs: record.attrs.dup(),
                    }
                },
                None => Op::UpsertText {
                    collection: collection.to_owned(),
                    id: record.id.dup(),
                    attrs: record.attrs.dup(),
                },
            };
            let ghost v = op@;
            proof {
                assert(v == ops[i as int]);
            }
            let ghost mid = *self;
            self.commit(op);
            proof {
                Store::grown_twice(grown, mid, *self);
                assert(ops.take(i + 1).drop_last() =~= ops.take(i as int));
                assert(ops.take(i + 1).last() == ops[i as int]);
                assert(views(self.log@) =~= views(old(self).log@) + ops.take(i + 1));
            }
            i = i + 1;
        }
        proof {
            assert(ops.take(i as int) =~= ops);
            assert(records@.take(i as int) =~= records@);
        }
        if self.config.history_versions.is_some() || self.config.cluster {
            self.version = self.version + 1;
        }
        self.extend_quant(k, Ghost(base));
        proof {
            if old(self).faithful() {
                assert forall|j: int| 0 <= j < ops.len() implies (
                #[trigger] ops[j] matches OpV::Put(_, _, Some(row), _) ==> row < total) by {
                    vec_count_bounds(records@, j);
                }
                Store::commit_keeps_faithful(*old(self), *self, ops);
            }
            if old(self).apart() {
                a_batch_keeps_rows_apart(*k, *old(self), *self, collection@, records@);
            }
        }
        Ok(())
    }

    /// Bring the coarse copy up to the rows.
    fn extend_quant<K: Kernel>(&mut self, k: &K, Ghost(base): Ghost<int>)
        requires
            old(self).wf(),
            functional(*k),
            0 <= base <= old(self).rows@.len(),
            old(self).quant is Some <==> old(self).config.quantization is Some,
            old(self).quant matches Some(q) ==> copies(q, old(self).rows@.take(base)) && (q is Int8
                <==> old(self).config.quantization->0.kind == QuantKind::Int8) && (q is Binary
                ==> q->words_per_row == words_for(old(self).config.dimension as nat)),
        ensures
            *final(self) == (Store { quant: final(self).quant, ..*old(self) }),
            final(self).wf(),
            final(self).current(),
            extends(*k, old(self).quant, final(self).quant, final(self).rows@),
    {
        let mut q: Option<Quant> = None;
        std::mem::swap(&mut q, &mut self.quant);
        if let Some(q) = q {
            proof {
                assert(codes(q) == base);
            }
            let dim: usize = self.config.dimension;
            self.quant = Some(extended(q, &self.rows, dim, k));
        }
    }

    /// Append the vectors of a batch as rows.
    fn append_all<K: Kernel>(&mut self, records: &[Record], k: &K)
        requires
            old(self).wf(),
            functional(*k),
            misfit(records@, old(self).config.dimension) is None,
            old(self).rows@.len() + records@.len() < usize::MAX,
        ensures
            final(self).wf(),
            *final(self) == (Store {
                rows: final(self).rows,
                segments: final(self).segments,
                ..*old(self)
            }),
            final(self).segments@ == grown(old(self).segments@, vec_count(records@) as int),
            final(self).rows@.len() == old(self).rows@.len() + vec_count(records@),
            final(self).rows@.take(old(self).rows@.len() as int) == old(self).rows@,
            forall|i: int|
                0 <= i < records@.len() && (#[trigger] records@[i]).vector is Some ==> final(self).rows@[row_for(records@, i, old(self).rows@.len() as int)]@ == stored(
                    *k,
                    old(self).config.distance,
                    records@[i].vector->0,
                ),
    {
        let ghost base = self.rows@.len() as int;
        let ghost before = *self;
        let mut i: usize = 0;
        proof {
            assert(records@.take(0) =~= Seq::empty());
            misfit_none(records@, self.config.dimension);
            assert(self.rows@.take(base) =~= self.rows@);
            assert(self.segments@ =~= grown(self.segments@, 0));
            assert(seg_total(self.segments@) >= self.segments@.last().rows);
        }
        while i < records.len()
            invariant
                i <= records@.len(),
                self.wf(),
                functional(*k),
                before == *old(self),
                base == before.rows@.len(),
                base + records@.len() < usize::MAX,
                *self == (Store { rows: self.rows, segments: self.segments, ..before }),
                before.segments@.len() >= 1,
                before.segments@.last().rows <= base,
                self.segments@ == grown(before.segments@, vec_count(records@.take(i as int)) as int),
                self.rows@.len() == base + vec_count(records@.take(i as int)),
                self.rows@.take(base) == before.rows@,
                forall|j: int|
                    0 <= j < records@.len() ==> ((#[trigger] records@[j]).vector matches Some(v)
                        ==> v@.len() == before.config.dimension),
                forall|j: int|
                    0 <= j < i && (#[trigger] records@[j]).vector is Some ==> self.rows@[row_for(
                        records@,
                        j,
                        base,
                    )]@ == stored(*k, before.config.distance, records@[j].vector->0),
            decreases records@.len() - i,
        {
            proof {
                vec_count_bounds(records@, i as int);
            }
            match &records[i].vector {
                Some(v) => {
                    let row: Vec<u32> = match self.config.distance {
                        Distance::Cosine => unit(k, v),
                        _ => dup_bits(v),
                    };
                    proof {
                        assert(records@[i as int].vector == Some(*v));
                    }
                    let ghost prior = self.rows@;
                    let ghost filled = self.segments@;
                    self.append_row(row);
                    proof {
                        let n = vec_count(records@.take(i as int)) as int;
                        assert(filled.last().rows == before.segments@.last().rows + n);
                        assert(self.segments@ =~= grown(before.segments@, n + 1));
                        assert forall|j: int|
                            0 <= j < i + 1 && (
                            #[trigger] records@[j]).vector is Some implies self.rows@[row_for(
                            records@,
                            j,
                            base,
                        )]@ == stored(*k, before.config.distance, records@[j].vector->0) by {
                            if j < i {
                                count_strict(records@, j, i as int);
                                assert(self.rows@[row_for(records@, j, base)] == prior[row_for(
                                    records@,
                                    j,
                                    base,
                                )]);
                            }
                        }
                        assert(self.rows@.take(base) =~= prior.take(base));
                    }
                },
                None => {},
            }
            i = i + 1;
        }
        proof {
            assert(records@.take(i as int) =~= records@);
        }
    }
}

proof fn count_strict(records: Seq<Record>, j: int, i: int)
    requires
        0 <= j < i <= records.len(),
        records[j].vector is Some,
    ensures
        vec_count(records.take(j)) < vec_count(records.take(i)),
    decreases i - j,
{
    vec_count_bounds(records, j);
    if j + 1 < i {
        vec_count_bounds(records, i - 1);
        count_mono(records, j + 1, i);
    }
}

proof fn count_mono(records: Seq<Record>, j: int, i: int)
    requires
        0 <= j <= i <= records.len(),
    ensures
        vec_count(records.take(j)) <= vec_count(records.take(i)),
    decreases i - j,
{
    if j < i {
        vec_count_bounds(records, i - 1);
        count_mono(records, j, i - 1);
    }
}

proof fn apply_all_accounts(ix: IndexV, ops: Seq<OpV>, rows: u64)
    requires
        live(ix.collections).finite(),
    ensures
        live(apply_all(ix, ops, rows).collections).finite(),
        accounted(apply_all(ix, ops, rows)) == accounted(ix) + rows_brought(ops, rows),
    decreases ops.len(),
{
    if ops.len() > 0 {
        apply_all_accounts(ix, ops.drop_last(), rows);
        apply_accounts(apply_all(ix, ops.drop_last(), rows), ops.last(), rows);
    }
}

proof fn batch_brings(c: Seq<char>, records: Seq<Record>, base: int, rows: u64, i: int)
    requires
        0 <= i <= records.len(),
        0 <= base,
        base + vec_count(records) <= rows,
    ensures
        rows_brought(batch_ops(c, records, base).take(i), rows) == vec_count(records.take(i)),
    decreases i,
{
    let ops = batch_ops(c, records, base);
    if i == 0 {
        assert(ops.take(0) =~= Seq::empty());
        assert(records.take(0) =~= Seq::empty());
    } else {
        batch_brings(c, records, base, rows, i - 1);
        vec_count_bounds(records, i - 1);
        assert(ops.take(i).drop_last() =~= ops.take(i - 1));
        assert(ops.take(i).last() == op_for(c, records, i - 1, base));
    }
}

/// A batch loses no row: where every row was live or dead before it, every row is after it.
pub proof fn a_batch_loses_no_row(
    ix: IndexV,
    c: Seq<char>,
    records: Seq<Record>,
    base: int,
    rows: u64,
)
    requires
        live(ix.collections).finite(),
        accounted(ix) == base,
        rows == base + vec_count(records),
    ensures
        accounted(apply_all(ix, batch_ops(c, records, base), rows)) == rows,
{
    let ops = batch_ops(c, records, base);
    apply_all_accounts(ix, ops, rows);
    batch_brings(c, records, base, rows, records.len() as int);
    assert(ops.take(records.len() as int) =~= ops);
    assert(records.take(records.len() as int) =~= records);
}

/// The nearest `u64`.
pub open spec fn clamp_u64(n: int) -> u64 {
    if n > u64::MAX {
        u64::MAX
    } else {
        n as u64
    }
}

pub(crate) fn clamp(b: u128) -> (r: u64)
    ensures
        r == clamp_u64(b as int),
{
    if b > u64::MAX as u128 {
        u64::MAX
    } else {
        b as u64
    }
}

/// The bytes of `rows + added` rows, where they can be counted.
pub(crate) fn bytes_of(rows: usize, added: usize, dim: usize) -> (r: Option<u128>)
    ensures
        r matches Some(b) ==> b == row_bytes(rows + added, dim),
        r is None ==> row_bytes(rows + added, dim) > u64::MAX,
{
    let n: u128 = rows as u128 + added as u128;
    match n.checked_mul(dim as u128) {
        Some(x) => match x.checked_mul(4) {
            Some(b) => Some(b),
            None => None,
        },
        None => {
            proof {
                assert(n * dim * 4 >= n * dim) by (nonlinear_arith)
                    requires
                        n * dim >= 0,
                ;
            }
            None
        },
    }
}

// ── Delete ──────────────────────────────────────────────────────────────────

/// The document exists.
pub open spec fn present(cols: CollsV, c: Seq<char>, id: Seq<char>) -> bool {
    cols.contains_key(c) && cols[c].docs.contains_key(id)
}

/// The collections without the documents of `c` whose id is in `gone`.
pub open spec fn without(cols: CollsV, c: Seq<char>, gone: Set<Seq<char>>) -> CollsV {
    if cols.contains_key(c) {
        cols.insert(c, CollV { meta: cols[c].meta, docs: cols[c].docs.remove_keys(gone) })
    } else {
        cols
    }
}

/// The ids in `gone` that are documents of `c`.
pub open spec fn hits_of(cols: CollsV, c: Seq<char>, gone: Set<Seq<char>>) -> Set<Seq<char>> {
    gone.filter(|id: Seq<char>| present(cols, c, id))
}

/// The index after the documents of `c` whose id is in `gone` are deleted: they are gone, and
/// what they leave behind is dead.
pub open spec fn deleted(before: IndexV, after: IndexV, c: Seq<char>, gone: Set<Seq<char>>) -> bool {
    &&& after.collections == without(before.collections, c, gone)
    &&& accounted(after) == accounted(before)
    &&& after.fts == before.fts
    &&& after.findex == before.findex
}

/// The ids of the documents of `c` that pass the filter.
pub open spec fn passing(cols: CollsV, c: Seq<char>, filter: Filter) -> Set<Seq<char>> {
    Set::new(
        |id: Seq<char>| present(cols, c, id) && passes(filter, cols[c].docs[id].attrs),
    )
}

/// The index after the documents of every collection that pass the filter are deleted.
pub open spec fn swept(before: IndexV, after: IndexV, filter: Filter) -> bool {
    &&& after.collections == swept_of(before.collections, before.collections.dom(), filter)
    &&& accounted(after) == accounted(before)
    &&& after.fts == before.fts
    &&& after.findex == before.findex
}

/// The collections, those of `scope` without the documents that pass the filter.
pub open spec fn swept_of(cols: CollsV, scope: Set<Seq<char>>, filter: Filter) -> CollsV {
    Map::new(
        |c: Seq<char>| cols.contains_key(c),
        |c: Seq<char>|
            if scope.contains(c) {
                CollV { meta: cols[c].meta, docs: cols[c].docs.remove_keys(passing(cols, c, filter)) }
            } else {
                cols[c]
            },
    )
}

/// How many documents of the named collections pass the filter.
pub open spec fn passing_in(cols: CollsV, names: Seq<Seq<char>>, filter: Filter) -> nat
    decreases names.len(),
{
    if names.len() == 0 {
        0
    } else {
        passing_in(cols, names.drop_last(), filter) + passing(cols, names.last(), filter).len()
    }
}

/// How many documents pass the filter.
pub open spec fn passing_all(cols: CollsV, filter: Filter) -> nat {
    passing_in(cols, ordered(cols).map_values(|p: (Seq<char>, CollV)| p.0), filter)
}

proof fn passing_in_grows(cols: CollsV, names: Seq<Seq<char>>, filter: Filter, i: int)
    requires
        0 <= i <= names.len(),
    ensures
        passing_in(cols, names.take(i), filter) <= passing_in(cols, names, filter),
        i < names.len() ==> passing_in(cols, names.take(i + 1), filter) == passing_in(
            cols,
            names.take(i),
            filter,
        ) + passing(cols, names[i], filter).len(),
    decreases names.len() - i,
{
    if i < names.len() {
        assert(names.take(i + 1).drop_last() =~= names.take(i));
        assert(names.take(i + 1).last() == names[i]);
        passing_in_grows(cols, names, filter, i + 1);
    } else {
        assert(names.take(i) =~= names);
    }
}

impl Store {
    /// Delete the documents of `c` named by `ids`; how many there were.
    fn delete_ids(&mut self, c: &str, ids: &Vec<String>) -> (n: usize)
        requires
            old(self).wf(),
            old(self).room(ids@.len() as int),
        ensures
            final(self).wf(),
            old(self).faithful() ==> final(self).faithful(),
            old(self).apart() ==> final(self).apart(),
            final(self).same_but_index(old(self)),
            deleted(old(self).index@, final(self).index@, c@, views(ids@).to_set()),
            n == hits_of(old(self).index@.collections, c@, views(ids@).to_set()).len(),
            final(self).log@.len() <= old(self).log@.len() + ids@.len(),
    {
        let ghost before = *self;
        let ghost names = views(ids@);
        let mut n: usize = 0;
        let mut i: usize = 0;
        proof {
            assert(views(before.log@).take(before.log@.len() as int) =~= views(before.log@));
            assert(names.take(0).to_set() =~= Set::empty());
            assert(without(before.index@.collections, c@, Set::empty())
                =~= before.index@.collections) by {
                if before.index@.collections.contains_key(c@) {
                    let docs = before.index@.collections[c@].docs;
                    assert(docs.remove_keys(Set::empty()) =~= docs);
                }
            }
            assert(hits_of(before.index@.collections, c@, Set::empty()) =~= Set::empty());
        }
        while i < ids.len()
            invariant
                i <= ids@.len(),
                n <= i,
                names == views(ids@),
                before == *old(self),
                before.faithful() ==> self.faithful(),
                before.room(ids@.len() as int),
                self.wf(),
                self.same_but_index(&before),
                self.log@.len() <= before.log@.len() + i,
                deleted(before.index@, self.index@, c@, names.take(i as int).to_set()),
                hits_of(before.index@.collections, c@, names.take(i as int).to_set()).finite(),
                n == hits_of(before.index@.collections, c@, names.take(i as int).to_set()).len(),
            decreases ids@.len() - i,
        {
            let ghost cols = before.index@.collections;
            let ghost gone = names.take(i as int).to_set();
            let ghost x = names[i as int];
            let ghost mid = *self;
            let here = match self.index.collections.get(c) {
                Some(col) => col.docs.contains_key(ids[i].as_str()),
                None => false,
            };
            proof {
                let next = names.take(i + 1).to_set();
                assert(names.take(i + 1) =~= names.take(i as int).push(x));
                assert(next =~= gone.insert(x)) by {
                    assert forall|y: Seq<char>| next.contains(y) == gone.insert(x).contains(y) by {
                        if gone.contains(y) {
                            let j = choose|j: int| 0 <= j < i && names.take(i as int)[j] == y;
                            assert(names.take(i + 1)[j] == y);
                        }
                        if y == x {
                            assert(names.take(i + 1)[i as int] == y);
                        }
                    }
                }
                if here {
                    assert(!gone.contains(x));
                    assert(hits_of(cols, c@, next) =~= hits_of(cols, c@, gone).insert(x));
                } else {
                    assert(hits_of(cols, c@, next) =~= hits_of(cols, c@, gone));
                }
            }
            if here {
                self.commit(Op::Delete { collection: c.to_owned(), id: ids[i].dup() });
                n = n + 1;
                proof {
                    Store::grown_twice(before, mid, *self);
                    let rows = mid.rows@.len() as u64;
                    let op = OpV::Delete(c@, x);
                    apply_accounts(mid.index@, op, rows);
                    let docs = cols[c@].docs;
                    assert(docs.remove_keys(gone).remove(x) =~= docs.remove_keys(gone.insert(x)));
                    assert(self.index@.collections =~= without(cols, c@, gone.insert(x)));
                    if before.faithful() {
                        assert(views(self.log@) =~= views(mid.log@) + seq![op]);
                        assert(seq![op].drop_last() =~= Seq::<OpV>::empty());
                        assert(apply_all(mid.index@, Seq::<OpV>::empty(), rows) == mid.index@);
                        assert(apply_all(mid.index@, seq![op], rows) == self.index@);
                        Store::commit_keeps_faithful(mid, *self, seq![op]);
                    }
                }
            } else {
                proof {
                    if cols.contains_key(c@) {
                        let docs = cols[c@].docs;
                        assert(docs.remove_keys(gone) =~= docs.remove_keys(gone.insert(x)));
                    }
                }
            }
            i = i + 1;
        }
        proof {
            assert(names.take(i as int) =~= names);
            if before.apart() {
                a_deletion_keeps_rows_apart(before.index@, self.index@, c@, names.to_set());
            }
        }
        n
    }

    /// Delete the documents of a collection named by `ids`; how many there were. An id that does
    /// not exist is no error.
    pub fn delete(&mut self, collection: &str, ids: &[&str]) -> (r: Result<usize, StoreError>)
        requires
            old(self).wf(),
        ensures
            final(self).wf(),
            old(self).faithful() ==> final(self).faithful(),
            old(self).apart() ==> final(self).apart(),
            r is Ok <==> old(self).writable() && old(self).room(ids@.len() as int),
            r matches Ok(n) ==> {
                &&& final(self).same_but_index(old(self))
                &&& deleted(old(self).index@, final(self).index@, collection@, names_of(ids@))
                &&& n == hits_of(
                    old(self).index@.collections,
                    collection@,
                    names_of(ids@),
                ).len()
            },
            r matches Err(e) ==> *final(self) == *old(self) && e == if old(self).writable() {
                StoreError::Full
            } else {
                old(self).write_refusal()
            },
    {
        if let Err(e) = self.writer() {
            return Err(e);
        }
        if !self.has_room(ids.len()) {
            return Err(StoreError::Full);
        }
        let owned = owned_names(ids);
        Ok(self.delete_ids(collection, &owned))
    }

    /// Delete the documents of a collection that pass the filter; how many there were.
    pub fn delete_where(&mut self, collection: &str, filter: &Filter) -> (r: Result<
        usize,
        StoreError,
    >)
        requires
            old(self).wf(),
        ensures
            final(self).wf(),
            old(self).faithful() ==> final(self).faithful(),
            old(self).apart() ==> final(self).apart(),
            r is Ok <==> old(self).writable() && old(self).room(
                passing(old(self).index@.collections, collection@, *filter).len() as int,
            ),
            r matches Ok(n) ==> {
                let gone = passing(old(self).index@.collections, collection@, *filter);
                &&& final(self).same_but_index(old(self))
                &&& deleted(old(self).index@, final(self).index@, collection@, gone)
                &&& n == gone.len()
            },
            r matches Err(e) ==> *final(self) == *old(self) && e == if old(self).writable() {
                StoreError::Full
            } else {
                old(self).write_refusal()
            },
    {
        if let Err(e) = self.writer() {
            return Err(e);
        }
        let ids = self.matching_ids(collection, filter);
        proof {
            views(ids@).unique_seq_to_set();
        }
        if !self.has_room(ids.len()) {
            return Err(StoreError::Full);
        }
        proof {
            let cols = self.index@.collections;
            let gone = views(ids@).to_set();
            assert(hits_of(cols, collection@, gone) =~= gone);
        }
        Ok(self.delete_ids(collection, &ids))
    }

    /// Delete the documents of every collection that pass the filter, all of them or none; how
    /// many there were.
    pub fn delete_where_all(&mut self, filter: &Filter) -> (r: Result<usize, StoreError>)
        requires
            old(self).wf(),
        ensures
            final(self).wf(),
            old(self).faithful() ==> final(self).faithful(),
            old(self).apart() ==> final(self).apart(),
            r is Ok <==> old(self).writable() && old(self).room(
                passing_all(old(self).index@.collections, *filter) as int,
            ),
            r matches Ok(n) ==> {
                &&& final(self).same_but_index(old(self))
                &&& swept(old(self).index@, final(self).index@, *filter)
                &&& n == passing_all(old(self).index@.collections, *filter)
            },
            r matches Err(e) ==> *final(self) == *old(self) && e == if old(self).writable() {
                StoreError::Full
            } else {
                old(self).write_refusal()
            },
    {
        if let Err(e) = self.writer() {
            return Err(e);
        }
        let ghost before = *self;
        let ghost cols = self.index@.collections;
        let listed = self.collections();
        let ghost names = views(listed@);
        check_listable(&self.index.collections);
        let total: usize = self.count_matching(&listed, filter);
        if !self.has_room(total) {
            return Err(StoreError::Full);
        }
        let mut n: usize = 0;
        let mut i: usize = 0;
        proof {
            assert(views(before.log@).take(before.log@.len() as int) =~= views(before.log@));
            assert(names.take(0) =~= Seq::empty());
            assert(names.take(0).to_set() =~= Set::empty());
            assert(swept_of(cols, Set::empty(), *filter) =~= cols);
        }
        while i < listed.len()
            invariant
                i <= listed@.len(),
                names == views(listed@),
                names == ordered(cols).map_values(|p: (Seq<char>, CollV)| p.0),
                listable(cols),
                before == *old(self),
                cols == before.index@.collections,
                before.faithful() ==> self.faithful(),
                passing_in(cols, names, *filter) == total,
                before.room(total as int),
                self.wf(),
                self.same_but_index(&before),
                n == passing_in(cols, names.take(i as int), *filter),
                self.log@.len() <= before.log@.len() + n,
                self.index@.collections == swept_of(
                    cols,
                    names.take(i as int).to_set(),
                    *filter,
                ),
                accounted(self.index@) == accounted(before.index@),
                self.index@.fts == before.index@.fts,
                self.index@.findex == before.index@.findex,
            decreases listed@.len() - i,
        {
            let ghost c = names[i as int];
            let ghost done = names.take(i as int).to_set();
            let ghost here = self.index@.collections;
            let ids = self.matching_ids(listed[i].as_str(), filter);
            let ghost gone = passing(cols, c, *filter);
            proof {
                let e = ordered(cols);
                ascending_distinct(e);
                to_map_at(e, i as int);
                assert(c == e[i as int].0);
                if done.contains(c) {
                    let j = choose|j: int| 0 <= j < i && names.take(i as int)[j] == c;
                    assert(e[j].0 == e[i as int].0);
                }
                assert(here[c] == cols[c]);
                assert(passing(here, c, *filter) =~= gone);
                assert(hits_of(here, c, gone) =~= gone);
                views(ids@).unique_seq_to_set();
                passing_in_grows(cols, names, *filter, i as int);
                passing_in_grows(cols, names, *filter, i + 1);
            }
            let ghost mid = *self;
            let k: usize = self.delete_ids(listed[i].as_str(), &ids);
            proof {
                Store::grown_twice(before, mid, *self);
                let next = names.take(i + 1).to_set();
                assert(next =~= done.insert(c)) by {
                    assert(names.take(i + 1) =~= names.take(i as int).push(c));
                    assert forall|y: Seq<char>| next.contains(y) == done.insert(c).contains(y) by {
                        if done.contains(y) {
                            let j = choose|j: int| 0 <= j < i && names.take(i as int)[j] == y;
                            assert(names.take(i + 1)[j] == y);
                        }
                        if y == c {
                            assert(names.take(i + 1)[i as int] == y);
                        }
                    }
                }
                assert(self.index@.collections =~= swept_of(cols, next, *filter));
            }
            n = n + k;
            i = i + 1;
        }
        proof {
            assert(names.take(i as int) =~= names);
            assert forall|c: Seq<char>| cols.contains_key(c) implies names.to_set().contains(c) by {
                let e = ordered(cols);
                assert(has_key(e, c));
                let j = choose|j: int| 0 <= j < e.len() && (#[trigger] e[j]).0 == c;
                assert(names[j] == c);
            }
            assert(swept_of(cols, names.to_set(), *filter) =~= swept_of(cols, cols.dom(), *filter));
            if before.apart() {
                a_sweep_keeps_rows_apart(before.index@, self.index@, *filter);
            }
        }
        Ok(n)
    }

    /// How many documents of the named collections pass the filter, or the largest number where
    /// there are more.
    fn count_matching(&self, names: &Vec<String>, filter: &Filter) -> (n: usize)
        ensures
            n == if passing_in(self.index@.collections, views(names@), *filter) > usize::MAX {
                usize::MAX as nat
            } else {
                passing_in(self.index@.collections, views(names@), *filter)
            },
    {
        let ghost cols = self.index@.collections;
        let ghost all = views(names@);
        let mut n: usize = 0;
        let mut i: usize = 0;
        proof {
            assert(all.take(0) =~= Seq::empty());
        }
        while i < names.len()
            invariant
                i <= names@.len(),
                all == views(names@),
                cols == self.index@.collections,
                n == if passing_in(cols, all.take(i as int), *filter) > usize::MAX {
                    usize::MAX as nat
                } else {
                    passing_in(cols, all.take(i as int), *filter)
                },
            decreases names@.len() - i,
        {
            let ids = self.matching_ids(names[i].as_str(), filter);
            proof {
                views(ids@).unique_seq_to_set();
                passing_in_grows(cols, all, *filter, i as int);
            }
            n = saturating_plus(n, ids.len());
            i = i + 1;
        }
        proof {
            assert(all.take(i as int) =~= all);
        }
        n
    }

    /// The ids of a collection's documents that pass the filter, in order.
    fn matching_ids(&self, collection: &str, filter: &Filter) -> (ids: Vec<String>)
        ensures
            views(ids@).to_set() == passing(self.index@.collections, collection@, *filter),
            views(ids@).no_duplicates(),
    {
        let mut ids: Vec<String> = Vec::new();
        let ghost want = passing(self.index@.collections, collection@, *filter);
        let col = match self.index.collections.get(collection) {
            Some(col) => col,
            None => {
                proof {
                    assert(views(ids@).to_set() =~= want);
                }
                return ids;
            },
        };
        let n: usize = col.docs.len();
        let ghost e = col.docs.entries();
        let mut i: usize = 0;
        while i < n
            invariant
                i <= n,
                n == e.len(),
                e == col.docs.entries(),
                crate::dict::ascending(e),
                views(ids@).no_duplicates(),
                forall|id: Seq<char>| #[trigger]
                    views(ids@).contains(id) <==> exists|j: int|
                        0 <= j < i && (#[trigger] e[j]).0 == id && passes(*filter, e[j].1.attrs),
            decreases n - i,
        {
            let doc = col.docs.value_at(i);
            let ghost before = views(ids@);
            if admits(filter, &doc.attrs) {
                ids.push(col.docs.key_at(i).dup());
                proof {
                    ascending_distinct(e);
                    assert(!before.contains(e[i as int].0));
                    assert(views(ids@) =~= before.push(e[i as int].0));
                    assert forall|id: Seq<char>| #[trigger]
                        views(ids@).contains(id) <==> exists|j: int|
                            0 <= j < i + 1 && (#[trigger] e[j]).0 == id && passes(
                                *filter,
                                e[j].1.attrs,
                            ) by {
                        if id == e[i as int].0 {
                            assert(views(ids@)[before.len() as int] == id);
                            assert(e[i as int].0 == id);
                        }
                        if before.contains(id) {
                            let k = before.index_of(id);
                            assert(views(ids@)[k] == id);
                        }
                        if views(ids@).contains(id) && id != e[i as int].0 {
                            let k = choose|k: int|
                                0 <= k < views(ids@).len() && views(ids@)[k] == id;
                            assert(before[k] == id);
                        }
                    }
                }
            }
            i = i + 1;
        }
        proof {
            assert forall|id: Seq<char>| views(ids@).to_set().contains(id) == want.contains(id) by {
                if views(ids@).contains(id) {
                    let j = choose|j: int|
                        0 <= j < e.len() && (#[trigger] e[j]).0 == id && passes(
                            *filter,
                            e[j].1.attrs,
                        );
                    to_map_at(e, j);
                }
                if want.contains(id) {
                    assert(has_key(e, id));
                    let j = choose|j: int| 0 <= j < e.len() && (#[trigger] e[j]).0 == id;
                    to_map_at(e, j);
                    assert(views(ids@).contains(id));
                }
            }
            assert(views(ids@).to_set() =~= want);
        }
        ids
    }
}

/// The names in a list.
pub open spec fn names_of(ids: Seq<&str>) -> Set<Seq<char>> {
    ids.map_values(|s: &str| s@).to_set()
}

fn owned_names(ids: &[&str]) -> (out: Vec<String>)
    ensures
        views(out@) == ids@.map_values(|s: &str| s@),
        out@.len() == ids@.len(),
{
    let mut out: Vec<String> = Vec::new();
    let mut i: usize = 0;
    while i < ids.len()
        invariant
            i <= ids@.len(),
            out@.len() == i,
            forall|j: int| 0 <= j < i ==> (#[trigger] out@[j])@ == ids@[j]@,
        decreases ids@.len() - i,
    {
        out.push(ids[i].to_owned());
        i = i + 1;
    }
    proof {
        assert(views(out@) =~= ids@.map_values(|s: &str| s@));
    }
    out
}

// ── Recall ──────────────────────────────────────────────────────────────────

/// The nearest `i64`.
pub open spec fn clamp_i64(n: int) -> i64 {
    if n > i64::MAX {
        i64::MAX
    } else if n < i64::MIN {
        i64::MIN
    } else {
        n as i64
    }
}

fn clamp_wide(n: i128) -> (r: i64)
    ensures
        r == clamp_i64(n as int),
{
    if n > i64::MAX as i128 {
        i64::MAX
    } else if n < i64::MIN as i128 {
        i64::MIN
    } else {
        n as i64
    }
}

/// The recall count after one more recall; a record without one starts at one.
pub open spec fn next_count(attrs: AttrsV) -> i64 {
    if attrs.contains_key(META_ACCESS_COUNT@) {
        match attrs[META_ACCESS_COUNT@] {
            ValueV::Int(n) => clamp_i64(n + 1),
            _ => 1,
        }
    } else {
        1
    }
}

/// Where the expiry moves: only an expiry that exists, only forward, to `extend` seconds from
/// now.
pub open spec fn moved_expiry(attrs: AttrsV, now: i64, extend: Option<i64>) -> Option<i64> {
    match extend {
        Some(s) => {
            let floor = clamp_i64(now + clamp_i64(s * 1000));
            if attrs.contains_key(META_EXPIRES_AT@) {
                match attrs[META_EXPIRES_AT@] {
                    ValueV::DateTime(t) => if floor > t {
                        Some(floor)
                    } else {
                        None
                    },
                    _ => None,
                }
            } else {
                None
            }
        },
        None => None,
    }
}

/// The operation that recalling a document is logged as.
pub open spec fn recall_op(
    ix: IndexV,
    c: Seq<char>,
    id: Seq<char>,
    now: i64,
    extend: Option<i64>,
) -> OpV {
    let attrs = ix.collections[c].docs[id].attrs;
    OpV::Reinforce(c, id, next_count(attrs), now, moved_expiry(attrs, now, extend))
}

/// The index after the documents in `ids` are recalled, one after the other.
pub open spec fn recalled(
    ix: IndexV,
    c: Seq<char>,
    ids: Seq<Seq<char>>,
    now: i64,
    extend: Option<i64>,
    rows: u64,
) -> IndexV
    decreases ids.len(),
{
    if ids.len() == 0 {
        ix
    } else {
        let prior = recalled(ix, c, ids.drop_last(), now, extend, rows);
        if present(ix.collections, c, ids.last()) {
            apply(prior, recall_op(prior, c, ids.last(), now, extend), rows)
        } else {
            prior
        }
    }
}

/// How many of `ids` are documents of `c`.
pub open spec fn present_count(cols: CollsV, c: Seq<char>, ids: Seq<Seq<char>>) -> nat
    decreases ids.len(),
{
    if ids.len() == 0 {
        0
    } else {
        present_count(cols, c, ids.drop_last()) + if present(cols, c, ids.last()) {
            1nat
        } else {
            0
        }
    }
}

/// Recalling documents neither adds nor removes one, and moves no row.
pub proof fn recall_keeps_documents(
    ix: IndexV,
    c: Seq<char>,
    ids: Seq<Seq<char>>,
    now: i64,
    extend: Option<i64>,
    rows: u64,
)
    ensures
        recalled(ix, c, ids, now, extend, rows).dead_rows == ix.dead_rows,
        forall|d: Seq<char>, i: Seq<char>| #[trigger]
            present(recalled(ix, c, ids, now, extend, rows).collections, d, i) == present(
                ix.collections,
                d,
                i,
            ),
        forall|d: Seq<char>, i: Seq<char>|
            present(ix.collections, d, i) ==> (#[trigger] recalled(
                ix,
                c,
                ids,
                now,
                extend,
                rows,
            ).collections[d].docs[i]).row == ix.collections[d].docs[i].row,
    decreases ids.len(),
{
    if ids.len() > 0 {
        recall_keeps_documents(ix, c, ids.drop_last(), now, extend, rows);
        let prior = recalled(ix, c, ids.drop_last(), now, extend, rows);
        let after = recalled(ix, c, ids, now, extend, rows);
        assert forall|d: Seq<char>, i: Seq<char>| #[trigger]
            present(after.collections, d, i) == present(ix.collections, d, i) by {
            assert(present(prior.collections, d, i) == present(ix.collections, d, i));
        }
        assert forall|d: Seq<char>, i: Seq<char>| present(ix.collections, d, i) implies (
        #[trigger] after.collections[d].docs[i]).row == ix.collections[d].docs[i].row by {
            assert(prior.collections[d].docs[i].row == ix.collections[d].docs[i].row);
        }
    }
}

fn recall_terms(attrs: &Attrs, now: i64, extend: Option<i64>) -> (r: (i64, Option<i64>))
    ensures
        r.0 == next_count(attrs@),
        r.1 == moved_expiry(attrs@, now, extend),
{
    let count: i64 = match attrs.get(META_ACCESS_COUNT) {
        Some(Value::Int(n)) => clamp_wide(*n as i128 + 1),
        _ => 1,
    };
    let expiry: Option<i64> = match extend {
        Some(s) => {
            let span: i64 = clamp_wide(s as i128 * 1000);
            let floor: i64 = clamp_wide(now as i128 + span as i128);
            match attrs.get(META_EXPIRES_AT) {
                Some(Value::DateTime(t)) => if floor > *t {
                    Some(floor)
                } else {
                    None
                },
                _ => None,
            }
        },
        None => None,
    };
    (count, expiry)
}

impl Store {
    /// Stamp a recall on each document named by `ids`; how many there were. An id or a collection
    /// that does not exist is skipped.
    pub fn reinforce(&mut self, collection: &str, ids: &[&str], now: i64, extend: Option<i64>)
        -> (r: Result<usize, StoreError>)
        requires
            old(self).wf(),
        ensures
            final(self).wf(),
            old(self).faithful() ==> final(self).faithful(),
            old(self).apart() ==> final(self).apart(),
            r is Ok <==> old(self).writable() && old(self).room(ids@.len() as int),
            r matches Ok(n) ==> {
                let names = ids@.map_values(|s: &str| s@);
                &&& final(self).same_but_index(old(self))
                &&& final(self).index@ == recalled(
                    old(self).index@,
                    collection@,
                    names,
                    now,
                    extend,
                    old(self).rows@.len() as u64,
                )
                &&& n == present_count(old(self).index@.collections, collection@, names)
            },
            r matches Err(e) ==> *final(self) == *old(self) && e == if old(self).writable() {
                StoreError::Full
            } else {
                old(self).write_refusal()
            },
    {
        if let Err(e) = self.writer() {
            return Err(e);
        }
        if !self.has_room(ids.len()) {
            return Err(StoreError::Full);
        }
        let ghost before = *self;
        let ghost names = ids@.map_values(|s: &str| s@);
        let ghost rows = self.rows@.len() as u64;
        let mut n: usize = 0;
        let mut i: usize = 0;
        proof {
            assert(views(before.log@).take(before.log@.len() as int) =~= views(before.log@));
            assert(names.take(0) =~= Seq::empty());
        }
        while i < ids.len()
            invariant
                i <= ids@.len(),
                n <= i,
                names == ids@.map_values(|s: &str| s@),
                before == *old(self),
                before.faithful() ==> self.faithful(),
                before.room(ids@.len() as int),
                rows == before.rows@.len() as u64,
                self.wf(),
                self.same_but_index(&before),
                self.log@.len() <= before.log@.len() + i,
                self.index@ == recalled(
                    before.index@,
                    collection@,
                    names.take(i as int),
                    now,
                    extend,
                    rows,
                ),
                n == present_count(before.index@.collections, collection@, names.take(i as int)),
            decreases ids@.len() - i,
        {
            let ghost mid = *self;
            proof {
                recall_keeps_documents(
                    before.index@,
                    collection@,
                    names.take(i as int),
                    now,
                    extend,
                    rows,
                );
                assert(names.take(i + 1).drop_last() =~= names.take(i as int));
                assert(names.take(i + 1).last() == ids@[i as int]@);
                assert(present(mid.index@.collections, collection@, ids@[i as int]@) == present(
                    before.index@.collections,
                    collection@,
                    ids@[i as int]@,
                ));
            }
            let found: Option<(i64, Option<i64>)> = match self.index.collections.get(collection) {
                Some(col) => match col.docs.get(ids[i]) {
                    Some(doc) => Some(recall_terms(&doc.attrs, now, extend)),
                    None => None,
                },
                None => None,
            };
            if let Some((count, expiry)) = found {
                self.commit(
                    Op::Reinforce {
                        collection: collection.to_owned(),
                        id: ids[i].to_owned(),
                        access_count: count,
                        last_accessed: now,
                        expires_at: expiry,
                    },
                );
                n = n + 1;
                proof {
                    Store::grown_twice(before, mid, *self);
                    let op = recall_op(mid.index@, collection@, ids@[i as int]@, now, extend);
                    if before.faithful() {
                        assert(views(self.log@) =~= views(mid.log@) + seq![op]);
                        assert(seq![op].drop_last() =~= Seq::<OpV>::empty());
                        assert(apply_all(mid.index@, Seq::<OpV>::empty(), rows) == mid.index@);
                        assert(apply_all(mid.index@, seq![op], rows) == self.index@);
                        Store::commit_keeps_faithful(mid, *self, seq![op]);
                    }
                }
            }
            i = i + 1;
        }
        proof {
            assert(names.take(i as int) =~= names);
            if before.apart() {
                a_recall_keeps_rows_apart(before.index@, collection@, names, now, extend, rows);
            }
        }
        Ok(n)
    }
}

} // verus!
