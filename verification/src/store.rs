//! The store: its state, what keeps it consistent, and the operations that change it.

use std::sync::atomic::{AtomicBool, AtomicU64};
use std::sync::Arc;

use vstd::prelude::*;

use crate::bits;
use crate::config::{Config, OpenMode, OpenProfile, QuantKind};
use crate::dict::{dup_all, views, Dict, Dup};
use crate::index::{
    accounted, apply, apply_accounts, is_live, live, replay, replay_grows, rows_within, CollsV,
    FtsField, FtsFieldV, Index, IndexV, Op, OpV,
};
use crate::model::{Distance, QueryFault};
use crate::quant::{copies, words_for, Quant};
use crate::rows::an_operation_keeps_rows_apart;

verus! {

/// Why the store refuses.
#[allow(inconsistent_fields)]
#[derive(Clone, Copy, Debug, PartialEq, Eq, Structural)]
pub enum StoreError {
    /// A handle that may not write was asked to.
    ReadOnly,
    /// Another writer has taken over.
    Fenced,
    /// The query was cancelled while it ran.
    Cancelled,
    /// Another writer holds the store.
    Locked,
    /// A record's vector has the wrong length.
    VectorLength { got: usize, want: usize },
    /// A query vector has the wrong length.
    QueryLength { got: usize, want: usize },
    /// The vectors would outgrow `max_vector_bytes`.
    OverCap { bytes: u64, cap: u64 },
    /// The store has no room for another operation.
    Full,
    /// A full-text parameter that BM25 cannot use.
    FtsParams,
    /// Binary codes cannot rank under the metric.
    BinaryNeedsCosine,
    /// Per-segment indexes and quantization exclude each other.
    SegmentIndexWithQuantization,
    /// The caller's query is at fault.
    Query(QueryFault),
    /// Cluster mode over a single-node backend.
    ClusterNeedsObjectStore,
    /// Cluster mode without a shared memory tier.
    ClusterNeedsMemoryTier,
    /// Cluster mode over a backend without compare-and-swap.
    ClusterNeedsCas,
    /// The stored dimension is another one.
    StoredDimension { stored: u64, want: usize },
    /// The stored metric is another one.
    StoredDistance { stored: Distance, want: Distance },
    /// On a refresh, the stored dimension is another one.
    SwappedDimension { stored: u64, opened: usize },
    /// On a refresh, the stored metric is another one.
    SwappedDistance { stored: Distance, opened: Distance },
    /// The version asked for has not been written.
    VersionAhead { version: u64, current: u64 },
    /// The version asked for is no longer readable.
    VersionGone { version: u64, oldest: u64, current: u64 },
    /// The version asked for predates the first one recorded.
    VersionUnrecorded { version: u64, oldest: u64, current: u64 },
    /// The store records no history at all.
    NoHistory { version: u64, current: u64 },
    /// The segments of the version asked for were rewritten.
    VersionReclaimed { version: u64, rows: u64, expected: u64 },
    /// A stored vector has the wrong length.
    DamagedRows,
    /// A pinned handle cannot write.
    PinnedWriter,
    /// Only a durable read-only handle can be moved between versions.
    NotARefreshableReader,
}

/// A run of rows; the last one takes the appends.
#[derive(Clone, Copy, Debug, PartialEq, Eq, Structural)]
pub struct Segment {
    pub id: u64,
    pub rows: u64,
}

/// How many rows the segments hold together.
pub open spec fn seg_total(s: Seq<Segment>) -> nat
    decreases s.len(),
{
    if s.len() == 0 {
        0
    } else {
        seg_total(s.drop_last()) + s.last().rows as nat
    }
}

/// No two segments have the same id, and the next one to open has one of its own.
pub open spec fn named_apart(s: Seq<Segment>, next: u64) -> bool {
    &&& forall|i: int| 0 <= i < s.len() ==> (#[trigger] s[i]).id < next
    &&& forall|i: int, j: int| 0 <= i < j < s.len() ==> (#[trigger] s[i]).id != (#[trigger] s[j]).id
}

/// The store. Vectors are rows of `f32` bit patterns in one row space.
#[derive(Clone, Debug)]
pub struct Store {
    /// The tuning in force.
    pub config: Config,
    /// The tuning that was asked for, before any profile.
    pub baseline: Config,
    /// The recorded profile.
    pub profile: OpenProfile,
    pub rows: Vec<Vec<u32>>,
    pub segments: Vec<Segment>,
    pub next_segment: u64,
    /// The commit version.
    pub version: u64,
    pub log: Vec<Op>,
    pub index: Index,
    pub in_memory: bool,
    /// The version this handle is pinned to.
    pub pinned: Option<u64>,
    /// The length of the log that the handle has read, in operations.
    pub loaded_log_offset: u64,
    /// A writer lock or lease is held.
    pub holds_handle: bool,
    /// Who holds the lease, in cluster mode.
    pub lease_owner: Option<String>,
    /// The token of the commit point as this handle last knew it, where it writes in cluster mode.
    pub anchor: Option<u64>,
    /// Another writer has taken over; this handle can never write again.
    pub fenced: bool,
    /// When the handle last knew itself current, on a monotonic clock in milliseconds.
    pub last_verified: u64,
    /// What others see of `fenced`, and may raise: probes read it, a background renewal raises it.
    pub latch: Arc<AtomicBool>,
    /// What probes see of `last_verified`.
    pub stamp: Arc<AtomicU64>,
    /// The coarse copy of the rows, where there is one.
    pub quant: Option<Quant>,
    /// A nearest-neighbour index covers every row.
    pub ann: bool,
    /// Which segments have an index of their own; empty where none may have one.
    pub indexed: Vec<bool>,
    /// Which of those indexes are not yet written.
    pub index_dirty: Vec<bool>,
    /// How many rows the written nearest-neighbour index covers.
    pub ann_saved: Option<u64>,
    /// The length of the log when the full-text index was last written.
    pub fts_saved: Option<usize>,
    /// The length of the log when the filter index was last written.
    pub findex_saved: Option<usize>,
}

/// Every row that a document refers to exists.
pub open spec fn rows_in_range(cols: CollsV, n: int) -> bool {
    forall|c: Seq<char>, id: Seq<char>|
        is_live(cols, (c, id)) ==> (#[trigger] cols[c].docs[id]).row->0 < n
}

/// Every row has `dim` components.
pub open spec fn rows_shaped(rows: Seq<Vec<u32>>, dim: nat) -> bool {
    forall|i: int| 0 <= i < rows.len() ==> (#[trigger] rows[i])@.len() == dim
}

impl Store {
    /// What every operation keeps.
    pub open spec fn wf(&self) -> bool {
        &&& live(self.index@.collections).finite()
        &&& accounted(self.index@) <= self.log@.len() + self.rows@.len()
        &&& rows_in_range(self.index@.collections, self.rows@.len() as int)
        &&& rows_shaped(self.rows@, self.config.dimension as nat)
        &&& self.segments@.len() >= 1
        &&& seg_total(self.segments@) == self.rows@.len()
        &&& named_apart(self.segments@, self.next_segment)
        &&& self.ann ==> self.config.ann is Some
        &&& self.in_memory ==> !self.holds_handle && self.lease_owner is None
        &&& self.aligned()
    }

    /// Segments may have indexes of their own: a threshold is set, and no index covers every row.
    pub open spec fn segment_indexing(&self) -> bool {
        !self.ann && self.config.segment_index_min_rows is Some
    }

    /// There is a place for each segment's index, and the active segment has none: where segments
    /// are indexed, exactly those sealed ones are that reach the threshold.
    pub open spec fn aligned(&self) -> bool {
        if self.segment_indexing() {
            &&& self.indexed@.len() == self.segments@.len()
            &&& self.index_dirty@.len() == self.segments@.len()
            &&& forall|i: int|
                0 <= i < self.segments@.len() ==> #[trigger] self.indexed@[i] == (i
                    < self.segments@.len() - 1 && self.segments@[i].rows
                    >= self.config.segment_index_min_rows->0)
            &&& forall|i: int|
                0 <= i < self.segments@.len() && #[trigger] self.index_dirty@[i]
                    ==> self.indexed@[i]
        } else {
            self.indexed@.len() == 0 && self.index_dirty@.len() == 0
        }
    }

    /// The coarse copy is there exactly where it is asked for, of that kind, and up to date.
    pub open spec fn current(&self) -> bool {
        &&& self.quant is Some <==> self.config.quantization is Some
        &&& self.quant matches Some(q) ==> {
            &&& copies(q, self.rows@)
            &&& q is Int8 <==> self.config.quantization->0.kind == QuantKind::Int8
            &&& q is Binary ==> q->words_per_row == words_for(self.config.dimension as nat)
        }
    }

    /// The index is what the log replays to.
    pub open spec fn faithful(&self) -> bool {
        &&& rows_within(views(self.log@), self.rows@.len() as u64)
        &&& self.index@ == replay(views(self.log@), self.rows@.len() as u64)
    }

    /// A handle that may write.
    pub open spec fn writable(&self) -> bool {
        self.config.open_mode == OpenMode::ReadWrite && !self.fenced
    }

    /// Why a write is refused before it is looked at.
    pub open spec fn write_refusal(&self) -> StoreError {
        if self.config.open_mode == OpenMode::ReadOnly {
            StoreError::ReadOnly
        } else {
            StoreError::Fenced
        }
    }

    /// There is room for `n` more operations.
    pub open spec fn room(&self, n: int) -> bool {
        &&& self.log@.len() + self.rows@.len() + 2 * n < usize::MAX
        &&& self.version < u64::MAX - 1
        &&& self.next_segment < u64::MAX
    }
}

proof fn apply_in_range(ix: IndexV, op: OpV, rows: u64)
    requires
        rows_in_range(ix.collections, rows as int),
    ensures
        rows_in_range(apply(ix, op, rows).collections, rows as int),
{
    let cols = ix.collections;
    let after = apply(ix, op, rows).collections;
    assert forall|c: Seq<char>, id: Seq<char>| is_live(after, (c, id)) implies (
    #[trigger] after[c].docs[id]).row->0 < rows by {
        if is_live(cols, (c, id)) {
            assert(cols[c].docs[id].row->0 < rows);
        }
    }
}

/// A replayed index refers only to rows that exist.
pub proof fn replay_in_range(ops: Seq<OpV>, rows: u64)
    ensures
        rows_in_range(replay(ops, rows).collections, rows as int),
    decreases ops.len(),
{
    if ops.len() > 0 {
        replay_in_range(ops.drop_last(), rows);
        apply_in_range(replay(ops.drop_last(), rows), ops.last(), rows);
    }
}

/// The index after several operations.
pub open spec fn apply_all(ix: IndexV, ops: Seq<OpV>, rows: u64) -> IndexV
    decreases ops.len(),
{
    if ops.len() == 0 {
        ix
    } else {
        apply(apply_all(ix, ops.drop_last(), rows), ops.last(), rows)
    }
}

/// Applying operations to the index that a log stands for is replaying the longer log.
pub proof fn replay_append(log: Seq<OpV>, ops: Seq<OpV>, rows: u64)
    ensures
        apply_all(replay(log, rows), ops, rows) == replay(log + ops, rows),
    decreases ops.len(),
{
    if ops.len() == 0 {
        assert(log + ops =~= log);
    } else {
        replay_append(log, ops.drop_last(), rows);
        assert((log + ops).drop_last() =~= log + ops.drop_last());
    }
}

impl Dup for Op {
    fn dup(&self) -> (r: Self) {
        match self {
            Op::CreateCollection { collection } => Op::CreateCollection {
                collection: collection.dup(),
            },
            Op::DropCollection { collection } => Op::DropCollection {
                collection: collection.dup(),
            },
            Op::SetMeta { collection, meta } => Op::SetMeta {
                collection: collection.dup(),
                meta: meta.dup(),
            },
            Op::Upsert { collection, id, row, attrs } => Op::Upsert {
                collection: collection.dup(),
                id: id.dup(),
                row: *row,
                attrs: attrs.dup(),
            },
            Op::UpsertText { collection, id, attrs } => Op::UpsertText {
                collection: collection.dup(),
                id: id.dup(),
                attrs: attrs.dup(),
            },
            Op::Delete { collection, id } => Op::Delete {
                collection: collection.dup(),
                id: id.dup(),
            },
            Op::SetFtsSchema { collection, fields } => {
                let mut out: Vec<(String, crate::index::Language)> = Vec::new();
                let mut i: usize = 0;
                while i < fields.len()
                    invariant
                        i <= fields@.len(),
                        out@.len() == i,
                        forall|j: int|
                            0 <= j < i ==> (#[trigger] out@[j]).0@ == fields@[j].0@ && out@[j].1
                                == fields@[j].1,
                    decreases fields@.len() - i,
                {
                    out.push((fields[i].0.dup(), fields[i].1));
                    i = i + 1;
                }
                proof {
                    assert(crate::index::legacy_fields(out@) =~= crate::index::legacy_fields(
                        fields@,
                    ));
                }
                Op::SetFtsSchema { collection: collection.dup(), fields: out }
            },
            Op::SetFtsFields { collection, fields } => Op::SetFtsFields {
                collection: collection.dup(),
                fields: dup_all(fields),
            },
            Op::SetFilterIndex { collection, fields } => Op::SetFilterIndex {
                collection: collection.dup(),
                fields: dup_all(fields),
            },
            Op::Reinforce { collection, id, access_count, last_accessed, expires_at } =>
                Op::Reinforce {
                    collection: collection.dup(),
                    id: id.dup(),
                    access_count: *access_count,
                    last_accessed: *last_accessed,
                    expires_at: *expires_at,
                },
        }
    }
}

impl Store {
    /// Everything but the log and the index is as it was, and the log has only grown.
    pub open spec fn same_but_index(&self, other: &Store) -> bool {
        &&& *self == (Store { log: self.log, index: self.index, ..*other })
        &&& other.log@.len() <= self.log@.len()
        &&& views(self.log@).take(other.log@.len() as int) == views(other.log@)
    }

    pub(crate) fn writer(&self) -> (r: Result<(), StoreError>)
        ensures
            self.writable() <==> r is Ok,
            r matches Err(e) ==> e == self.write_refusal(),
    {
        match self.config.open_mode {
            OpenMode::ReadOnly => Err(StoreError::ReadOnly),
            OpenMode::ReadWrite => if self.fenced {
                Err(StoreError::Fenced)
            } else {
                Ok(())
            },
        }
    }

    pub(crate) fn has_room(&self, n: usize) -> (r: bool)
        ensures
            r == self.room(n as int),
    {
        let used: u128 = self.log.len() as u128 + self.rows.len() as u128 + 2 * (n as u128);
        used < usize::MAX as u128 && self.version < u64::MAX - 1 && self.next_segment < u64::MAX
    }

    /// A log that has grown twice has grown.
    pub(crate) proof fn grown_twice(before: Store, mid: Store, after: Store)
        requires
            mid.same_but_index(&before),
            after.same_but_index(&mid),
        ensures
            after.same_but_index(&before),
    {
        let n = before.log@.len() as int;
        let m = mid.log@.len() as int;
        assert(views(after.log@).take(n) =~= views(after.log@).take(m).take(n));
    }

    /// Log one operation and apply it.
    pub(crate) fn commit(&mut self, op: Op)
        requires
            old(self).wf(),
            old(self).log@.len() + old(self).rows@.len() + 1 < usize::MAX,
        ensures
            final(self).wf(),
            final(self).same_but_index(old(self)),
            views(final(self).log@) == views(old(self).log@).push(op@),
            final(self).index@ == apply(old(self).index@, op@, old(self).rows@.len() as u64),
            final(self).log@.len() == old(self).log@.len() + 1,
    {
        let n: u64 = self.rows.len() as u64;
        proof {
            apply_accounts(self.index@, op@, n);
            apply_in_range(self.index@, op@, n);
        }
        self.log.push(op.dup());
        self.index.apply_op(op, n);
        proof {
            assert(views(self.log@) =~= views(old(self).log@).push(op@));
            assert(views(self.log@).take(old(self).log@.len() as int) =~= views(old(self).log@));
        }
    }

    /// A committed operation keeps the index what the log replays to.
    pub proof fn commit_keeps_faithful(before: Store, after: Store, ops: Seq<OpV>)
        requires
            before.faithful(),
            before.rows@.len() <= after.rows@.len() <= u64::MAX,
            views(after.log@) == views(before.log@) + ops,
            after.index@ == apply_all(before.index@, ops, after.rows@.len() as u64),
            rows_within(ops, after.rows@.len() as u64),
        ensures
            after.faithful(),
    {
        let log = views(before.log@);
        let n = before.rows@.len() as u64;
        let m = after.rows@.len() as u64;
        replay_grows(log, n, m);
        replay_append(log, ops, m);
        let whole = log + ops;
        assert forall|i: int| 0 <= i < whole.len() implies (#[trigger] whole[i] matches OpV::Put(
            _,
            _,
            Some(row),
            _,
        ) ==> row < m) by {
            if i < log.len() {
                assert(whole[i] == log[i]);
            } else {
                assert(whole[i] == ops[i - log.len()]);
            }
        }
    }

    /// Commit one operation that gives no document a row.
    fn write(&mut self, op: Op) -> (r: Result<(), StoreError>)
        requires
            old(self).wf(),
            op@ matches OpV::Put(_, _, Some(_), _) ==> false,
        ensures
            final(self).wf(),
            old(self).faithful() ==> final(self).faithful(),
            old(self).apart() ==> final(self).apart(),
            r is Ok <==> old(self).writable() && old(self).room(1),
            r is Ok ==> {
                &&& final(self).same_but_index(old(self))
                &&& views(final(self).log@) == views(old(self).log@).push(op@)
                &&& final(self).index@ == apply(old(self).index@, op@, old(self).rows@.len() as u64)
            },
            r matches Err(e) ==> *final(self) == *old(self) && e == if old(self).writable() {
                StoreError::Full
            } else {
                old(self).write_refusal()
            },
    {
        if let Err(e) = self.writer() {
            return Err(e);
        }
        if !self.has_room(1) {
            return Err(StoreError::Full);
        }
        let ghost v = op@;
        self.commit(op);
        proof {
            let ops = seq![v];
            let n = self.rows@.len() as u64;
            assert(views(self.log@) =~= views(old(self).log@) + ops);
            assert(ops.drop_last() =~= Seq::<OpV>::empty());
            assert(apply_all(old(self).index@, Seq::<OpV>::empty(), n) == old(self).index@);
            assert(apply_all(old(self).index@, ops, n) == apply(old(self).index@, v, n));
            if old(self).faithful() {
                Store::commit_keeps_faithful(*old(self), *self, ops);
            }
            if old(self).apart() {
                an_operation_keeps_rows_apart(old(self).index@, v, n);
            }
        }
        Ok(())
    }

    /// Create a collection; one that exists stays as it is.
    pub fn create_collection(&mut self, collection: &str) -> (r: Result<(), StoreError>)
        requires
            old(self).wf(),
        ensures
            final(self).wf(),
            old(self).faithful() ==> final(self).faithful(),
            old(self).apart() ==> final(self).apart(),
            r is Ok <==> old(self).writable() && old(self).room(1),
            r is Ok ==> {
                &&& final(self).same_but_index(old(self))
                &&& final(self).index@ == apply(
                    old(self).index@,
                    OpV::CreateCollection(collection@),
                    old(self).rows@.len() as u64,
                )
            },
            r matches Err(e) ==> *final(self) == *old(self) && e == if old(self).writable() {
                StoreError::Full
            } else {
                old(self).write_refusal()
            },
    {
        self.write(Op::CreateCollection { collection: collection.to_owned() })
    }

    /// Drop a collection with its documents; one that does not exist is no error.
    pub fn drop_collection(&mut self, collection: &str) -> (r: Result<(), StoreError>)
        requires
            old(self).wf(),
        ensures
            final(self).wf(),
            old(self).faithful() ==> final(self).faithful(),
            old(self).apart() ==> final(self).apart(),
            r is Ok <==> old(self).writable() && old(self).room(1),
            r is Ok ==> {
                &&& final(self).same_but_index(old(self))
                &&& final(self).index@ == apply(
                    old(self).index@,
                    OpV::DropCollection(collection@),
                    old(self).rows@.len() as u64,
                )
            },
            r matches Err(e) ==> *final(self) == *old(self) && e == if old(self).writable() {
                StoreError::Full
            } else {
                old(self).write_refusal()
            },
    {
        self.write(Op::DropCollection { collection: collection.to_owned() })
    }

    /// Replace a collection's metadata, creating the collection where needed.
    pub fn set_meta(&mut self, collection: &str, meta: Dict<String>) -> (r: Result<(), StoreError>)
        requires
            old(self).wf(),
        ensures
            final(self).wf(),
            old(self).faithful() ==> final(self).faithful(),
            old(self).apart() ==> final(self).apart(),
            r is Ok <==> old(self).writable() && old(self).room(1),
            r is Ok ==> {
                &&& final(self).same_but_index(old(self))
                &&& final(self).index@ == apply(
                    old(self).index@,
                    OpV::SetMeta(collection@, meta@),
                    old(self).rows@.len() as u64,
                )
            },
            r matches Err(e) ==> *final(self) == *old(self) && e == if old(self).writable() {
                StoreError::Full
            } else {
                old(self).write_refusal()
            },
    {
        self.write(Op::SetMeta { collection: collection.to_owned(), meta })
    }

    /// Declare the attributes that a collection's filter index covers.
    pub fn set_filter_index(&mut self, collection: &str, fields: Vec<String>) -> (r: Result<
        (),
        StoreError,
    >)
        requires
            old(self).wf(),
        ensures
            final(self).wf(),
            old(self).faithful() ==> final(self).faithful(),
            old(self).apart() ==> final(self).apart(),
            r is Ok <==> old(self).writable() && old(self).room(1),
            r is Ok ==> {
                &&& final(self).same_but_index(old(self))
                &&& final(self).index@ == apply(
                    old(self).index@,
                    OpV::SetFilterIndex(collection@, views(fields@)),
                    old(self).rows@.len() as u64,
                )
            },
            r matches Err(e) ==> *final(self) == *old(self) && e == if old(self).writable() {
                StoreError::Full
            } else {
                old(self).write_refusal()
            },
    {
        self.write(Op::SetFilterIndex { collection: collection.to_owned(), fields })
    }

    /// Declare a collection's full-text fields. Parameters that BM25 cannot use (a `k1` that is
    /// negative or no finite number, a `b` outside the unit interval) are refused.
    pub fn set_fts_schema(&mut self, collection: &str, fields: Vec<FtsField>) -> (r: Result<
        (),
        StoreError,
    >)
        requires
            old(self).wf(),
        ensures
            final(self).wf(),
            old(self).faithful() ==> final(self).faithful(),
            old(self).apart() ==> final(self).apart(),
            r is Ok <==> usable_fields(views(fields@)) && old(self).writable() && old(self).room(1),
            r is Ok ==> {
                &&& final(self).same_but_index(old(self))
                &&& final(self).index@ == apply(
                    old(self).index@,
                    OpV::SetFts(collection@, views(fields@)),
                    old(self).rows@.len() as u64,
                )
            },
            r matches Err(e) ==> *final(self) == *old(self) && e == if !usable_fields(
                views(fields@),
            ) {
                StoreError::FtsParams
            } else if old(self).writable() {
                StoreError::Full
            } else {
                old(self).write_refusal()
            },
    {
        if !fields_usable(&fields) {
            return Err(StoreError::FtsParams);
        }
        self.write(Op::SetFtsFields { collection: collection.to_owned(), fields })
    }
}

fn fields_usable(fields: &Vec<FtsField>) -> (r: bool)
    ensures
        r == usable_fields(views(fields@)),
{
    let mut i: usize = 0;
    while i < fields.len()
        invariant
            i <= fields@.len(),
            forall|j: int| 0 <= j < i ==> usable_field(#[trigger] views(fields@)[j]),
        decreases fields@.len() - i,
    {
        let f = &fields[i];
        if !bits::finite(f.k1) || bits::less(f.k1, bits::ZERO) || !bits::finite(f.b) || bits::less(
            f.b,
            bits::ZERO,
        ) || bits::less(bits::ONE, f.b) {
            proof {
                assert(!usable_field(views(fields@)[i as int]));
            }
            return false;
        }
        i = i + 1;
    }
    true
}

/// BM25 can use the field's parameters.
pub open spec fn usable_field(f: FtsFieldV) -> bool {
    &&& bits::is_finite(f.k1)
    &&& !bits::num_lt(f.k1, bits::ZERO)
    &&& bits::is_finite(f.b)
    &&& !bits::num_lt(f.b, bits::ZERO)
    &&& !bits::num_lt(bits::ONE, f.b)
}

/// BM25 can use the parameters of every field.
pub open spec fn usable_fields(fields: Seq<FtsFieldV>) -> bool {
    forall|i: int| 0 <= i < fields.len() ==> usable_field(#[trigger] fields[i])
}

} // verus!
