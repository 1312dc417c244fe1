//! Opening a store, and following the writer of one that is open.

use std::sync::atomic::{AtomicBool, AtomicU64};
use std::sync::Arc;

use vstd::prelude::*;

use crate::config::{merged, no_profile, plain, quant_fits, Config, OpenMode, OpenProfile, QuantKind};
use crate::compact::compacts;
use crate::dict::{dup_all, dup_option, opt_view, views, Dup};
use crate::disk::{
    adoptable, check_rows, chronicled, dup_ids, gather, gathered, head_index, head_refusal,
    head_target, object_rows, pin_refusal, pinned_target, resolve_head, resolve_pinned_entry,
    rows_fault, shaped, sized, sound_index, try_adopt, Disk, Manifest, Target, TargetV,
};
use crate::index::{empty_index, replay, replay_accounts, replay_ops, Index, IndexV, Op, OpV};
use crate::durable::{
    a_compaction_keeps_the_record_in_order, ann_key, bumped, cached_ann, committed, compaction_saved,
    ids_of, next_token, published,
};
use crate::kernel::{exceeds_of, functional, Kernel};
use crate::model::Distance;
use crate::quant::{empty, fitted, rebuilt};
use crate::latch::{latch, note, noted, stamp};
use crate::recover::{
    a_recovery_keeps_the_record_in_order, a_true_tier_is_a_replay, publishing_leaves_a_true_tier,
    recover, recovered, tier_behind, true_tier, what_is_left_is_grounded,
};
use crate::store::{
    named_apart, replay_in_range, rows_shaped, seg_total, Segment, Store, StoreError,
};
use crate::wire::{log_size, watermark};

verus! {

// ── What is refused ─────────────────────────────────────────────────────────

/// Settings that exclude each other, whatever they are used on.
pub open spec fn config_refusal(c: Config) -> Option<StoreError> {
    if c.quantization is Some && c.segment_index_min_rows is Some {
        Some(StoreError::SegmentIndexWithQuantization)
    } else if c.at_version is Some && c.open_mode == OpenMode::ReadWrite {
        Some(StoreError::PinnedWriter)
    } else {
        None
    }
}

/// Cluster mode needs a place that instances can share: an object store, a memory tier beside it,
/// and conditional writes, without which a writer that was superseded could overwrite its
/// successor.
pub open spec fn cluster_refusal(c: Config, disk: Disk) -> Option<StoreError> {
    if !c.cluster {
        None
    } else if disk.backend.native_lock {
        Some(StoreError::ClusterNeedsObjectStore)
    } else if !disk.backend.memory_tier {
        Some(StoreError::ClusterNeedsMemoryTier)
    } else if !disk.backend.cas {
        Some(StoreError::ClusterNeedsCas)
    } else {
        None
    }
}

/// Why the commit point that the config asks for cannot be opened.
pub open spec fn target_refusal(c: Config, disk: Disk) -> Option<StoreError> {
    match c.at_version {
        Some(v) => pin_refusal(c, disk, v),
        None => head_refusal(c, disk),
    }
}

/// The commit point that the config asks for.
pub open spec fn target_of(c: Config, disk: Disk) -> TargetV {
    match c.at_version {
        Some(v) => pinned_target(disk, v),
        None => head_target(disk),
    }
}

/// Why rows cut into segments cannot be opened as a commit point under a config: they are damaged,
/// there are fewer rows than it was recorded with, or the coarse copy does not fit the metric.
pub open spec fn load_fault(
    c: Config,
    t: TargetV,
    rows: Seq<Seq<u32>>,
    segments: Seq<Segment>,
) -> Option<StoreError> {
    if rows_fault(c, rows, segments, t.next_segment) is Some {
        rows_fault(c, rows, segments, t.next_segment)
    } else if t.bound matches Some((expected, _)) && rows.len() < expected {
        Some(
            StoreError::VersionReclaimed {
                version: t.version,
                rows: rows.len() as u64,
                expected: (t.bound->0).0,
            },
        )
    } else if !quant_fits(c) {
        Some(StoreError::BinaryNeedsCosine)
    } else {
        None
    }
}

/// Why a commit point cannot be read under a config.
pub open spec fn load_refusal(c: Config, disk: Disk, t: TargetV) -> Option<StoreError> {
    load_fault(c, t, gathered(disk.objects@, t.segments), sized(disk.objects@, t.segments))
}

/// Why a store cannot be opened, the first reason in the order in which they are looked at.
pub open spec fn open_refusal(c: Config, disk: Disk) -> Option<StoreError> {
    let m = merged(c, target_of(c, disk).profile);
    if config_refusal(c) is Some {
        config_refusal(c)
    } else if cluster_refusal(c, disk) is Some {
        cluster_refusal(c, disk)
    } else if target_refusal(c, disk) is Some {
        target_refusal(c, disk)
    } else if config_refusal(m) is Some {
        config_refusal(m)
    } else {
        load_refusal(m, disk, target_of(c, disk))
    }
}

impl Config {
    /// Refuse settings that exclude each other.
    pub fn validate(&self) -> (r: Result<(), StoreError>)
        ensures
            match config_refusal(*self) {
                Some(e) => r == Err::<(), StoreError>(e),
                None => r is Ok,
            },
    {
        if self.quantization.is_some() && self.segment_index_min_rows.is_some() {
            return Err(StoreError::SegmentIndexWithQuantization);
        }
        if self.at_version.is_some() {
            if let OpenMode::ReadWrite = self.open_mode {
                return Err(StoreError::PinnedWriter);
            }
        }
        Ok(())
    }
}

/// Refuse cluster mode where instances cannot share the store.
pub fn check_cluster(config: &Config, disk: &Disk) -> (r: Result<(), StoreError>)
    ensures
        match cluster_refusal(*config, *disk) {
            Some(e) => r == Err::<(), StoreError>(e),
            None => r is Ok,
        },
{
    if config.cluster {
        if disk.backend.native_lock {
            return Err(StoreError::ClusterNeedsObjectStore);
        }
        if !disk.backend.memory_tier {
            return Err(StoreError::ClusterNeedsMemoryTier);
        }
        if !disk.backend.cas {
            return Err(StoreError::ClusterNeedsCas);
        }
    }
    Ok(())
}

// ── What is read ────────────────────────────────────────────────────────────

/// The operations that belong to a commit point.
pub open spec fn ops_of(disk: Disk, t: TargetV) -> Seq<OpV> {
    let log = views(disk.log@);
    match t.bound {
        Some((_, ops)) => if ops < log.len() {
            log.take(ops as int)
        } else {
            log
        },
        None => log,
    }
}

/// The index of a commit point over so many rows. A recorded one is always replayed, over just its
/// own rows and operations.
pub open spec fn index_of(c: Config, disk: Disk, t: TargetV, rows: nat) -> IndexV {
    match t.bound {
        Some((own, _)) => replay(ops_of(disk, t), own),
        None => head_index(c, disk, rows as int),
    }
}

/// The rows that the cached nearest-neighbour index covers. A cache that was built for something
/// else, or that claims more rows than there are, is stale.
pub open spec fn ann_cache(ann: bool, c: Config, disk: Disk, rows: nat) -> Option<u64> {
    match disk.ann {
        Some(a) => if ann && a == ann_key(c, a.covered) && a.covered <= rows {
            Some(a.covered)
        } else {
            None
        },
        None => None,
    }
}

/// The full-text cache is current: some collection declares fields, and nothing was written since.
pub open spec fn fts_cache(disk: Disk, ix: IndexV, ops: Seq<OpV>) -> Option<usize> {
    if ix.fts != Map::<Seq<char>, Seq<crate::index::FtsFieldV>>::empty() && disk.fts is Some
        && disk.fts->0.watermark == watermark(ops) {
        Some(ops.len() as usize)
    } else {
        None
    }
}

/// The filter-index cache is current.
pub open spec fn findex_cache(disk: Disk, ix: IndexV, ops: Seq<OpV>) -> Option<usize> {
    if ix.findex != Map::<Seq<char>, Seq<Seq<char>>>::empty() && disk.findex is Some
        && disk.findex->0 == watermark(ops) {
        Some(ops.len() as usize)
    } else {
        None
    }
}

/// The store holds the commit point `t` of `disk` under config `c`, over these rows and segments.
pub open spec fn holds_rows(
    disk: Disk,
    t: TargetV,
    c: Config,
    rows: Seq<Seq<u32>>,
    segments: Seq<Segment>,
    s: Store,
) -> bool {
    &&& s.config == c
    &&& s.profile == t.profile
    &&& views(s.rows@) == rows
    &&& s.segments@ == segments
    &&& s.next_segment == t.next_segment
    &&& s.version == t.version
    &&& views(s.log@) == ops_of(disk, t)
    &&& s.index@ == index_of(c, disk, t, rows.len())
    &&& s.loaded_log_offset == watermark(views(s.log@))
    &&& s.ann_saved == ann_cache(s.ann, c, disk, rows.len())
    &&& s.fts_saved == fts_cache(disk, s.index@, views(s.log@))
    &&& s.findex_saved == findex_cache(disk, s.index@, views(s.log@))
    &&& forall|i: int|
        0 <= i < s.index_dirty@.len() ==> #[trigger] s.index_dirty@[i] == (s.indexed@[i]
            && !disk.sidecars@.contains(s.segments@[i].id))
}

/// The store holds the commit point `t` of `disk` under config `c`.
pub open spec fn holds(disk: Disk, t: TargetV, c: Config, s: Store) -> bool {
    holds_rows(
        disk,
        t,
        c,
        gathered(disk.objects@, t.segments),
        sized(disk.objects@, t.segments),
        s,
    )
}

fn take_ops(log: &Vec<Op>, bound: &Option<(u64, u64)>) -> (out: Vec<Op>)
    ensures
        views(out@) == match bound {
            Some((_, ops)) => if *ops < views(log@).len() {
                views(log@).take(*ops as int)
            } else {
                views(log@)
            },
            None => views(log@),
        },
{
    let n: usize = match bound {
        Some((_, ops)) => if *ops < log.len() as u64 {
            *ops as usize
        } else {
            log.len()
        },
        None => log.len(),
    };
    let mut out: Vec<Op> = Vec::new();
    let mut i: usize = 0;
    while i < n
        invariant
            i <= n <= log@.len(),
            out@.len() == i,
            forall|j: int| 0 <= j < i ==> (#[trigger] out@[j])@ == log@[j]@,
        decreases n - i,
    {
        out.push(log[i].dup());
        i = i + 1;
    }
    proof {
        assert(views(out@) =~= views(log@).take(n as int));
        assert(views(log@).take(log@.len() as int) =~= views(log@));
    }
    out
}

fn cached(sidecars: &Vec<u64>, id: u64) -> (r: bool)
    ensures
        r == sidecars@.contains(id),
{
    let mut i: usize = 0;
    while i < sidecars.len()
        invariant
            i <= sidecars@.len(),
            forall|j: int| 0 <= j < i ==> sidecars@[j] != id,
        decreases sidecars@.len() - i,
    {
        if sidecars[i] == id {
            return true;
        }
        i = i + 1;
    }
    false
}

/// Which segments have an index of their own, and which of those have to be built.
fn build_segment_indexes(
    ann: bool,
    config: &Config,
    segments: &Vec<Segment>,
    sidecars: &Vec<u64>,
) -> (r: (Vec<bool>, Vec<bool>))
    requires
        segments@.len() >= 1,
    ensures
        !ann && config.segment_index_min_rows is Some ==> {
            &&& r.0@.len() == segments@.len()
            &&& r.1@.len() == segments@.len()
            &&& forall|i: int|
                0 <= i < segments@.len() ==> #[trigger] r.0@[i] == (i < segments@.len() - 1
                    && segments@[i].rows >= config.segment_index_min_rows->0)
        },
        ann || config.segment_index_min_rows is None ==> r.0@.len() == 0
            && r.1@.len() == 0,
        forall|i: int|
            0 <= i < r.1@.len() ==> #[trigger] r.1@[i] == (r.0@[i] && !sidecars@.contains(
                segments@[i].id,
            )),
{
    let mut indexed: Vec<bool> = Vec::new();
    let mut dirty: Vec<bool> = Vec::new();
    if ann {
        return (indexed, dirty);
    }
    if let Some(min) = config.segment_index_min_rows {
        let active: usize = segments.len() - 1;
        let mut i: usize = 0;
        while i < segments.len()
            invariant
                i <= segments@.len(),
                active == segments@.len() - 1,
                indexed@.len() == i,
                dirty@.len() == i,
                forall|j: int|
                    0 <= j < i ==> #[trigger] indexed@[j] == (j < segments@.len() - 1
                        && segments@[j].rows >= min),
                forall|j: int|
                    0 <= j < i ==> #[trigger] dirty@[j] == (indexed@[j] && !sidecars@.contains(
                        segments@[j].id,
                    )),
            decreases segments@.len() - i,
        {
            let built = i != active && segments[i].rows >= min;
            indexed.push(built);
            dirty.push(built && !cached(sidecars, segments[i].id));
            i = i + 1;
        }
    }
    (indexed, dirty)
}

/// How a handle came to be, apart from what it reads.
pub struct Handle {
    /// The config before any profile.
    pub baseline: Config,
    pub pinned: Option<u64>,
    /// A writer lock or lease is held.
    pub holds: bool,
    /// Who holds the lease, in cluster mode.
    pub owner: Option<String>,
    /// The token of the commit point, where the handle writes in cluster mode.
    pub anchor: Option<u64>,
    pub fenced: bool,
    pub now: u64,
    /// A nearest-neighbour index covers every row.
    pub ann: bool,
    pub latch: Arc<AtomicBool>,
    pub stamp: Arc<AtomicU64>,
}

/// The store is this handle's.
pub open spec fn is_handle(h: Handle, s: Store) -> bool {
    &&& !s.in_memory
    &&& s.baseline == h.baseline
    &&& s.pinned == h.pinned
    &&& s.holds_handle == h.holds
    &&& s.lease_owner == h.owner
    &&& s.anchor == h.anchor
    &&& s.fenced == h.fenced
    &&& s.last_verified == h.now
    &&& s.latch == h.latch
    &&& s.stamp == h.stamp
}

/// The coarse copy fits the metric.
fn fits_quant(c: &Config) -> (r: bool)
    ensures
        r == quant_fits(*c),
{
    match c.quantization {
        Some(q) => match q.kind {
            QuantKind::Binary => c.distance == Distance::Cosine,
            QuantKind::Int8 => true,
        },
        None => true,
    }
}

/// Read the segments of a commit point.
fn read(config: &Config, disk: &Disk, t: &Target) -> (r: Result<
    (Vec<Vec<u32>>, Vec<Segment>),
    StoreError,
>)
    ensures
        match load_refusal(*config, *disk, t@) {
            Some(e) => r == Err::<(Vec<Vec<u32>>, Vec<Segment>), StoreError>(e),
            None => r matches Ok((rows, segments)) && views(rows@) == gathered(
                disk.objects@,
                t.segments@,
            ) && segments@ == sized(disk.objects@, t.segments@) && fit(
                *config,
                t@,
                rows@,
                segments@,
            ),
        },
{
    let (rows, segments) = gather(&disk.objects, &t.segments);
    proof {
        assert(Seq::<Seq<u32>>::empty() + views(rows@) =~= views(rows@));
    }
    if let Err(e) = check_rows(
        config,
        0,
        &rows,
        &segments,
        t.next_segment,
        Ghost(Seq::empty()),
    ) {
        return Err(e);
    }
    let n: u64 = rows.len() as u64;
    proof {
        assert(views(rows@).len() == rows@.len());
    }
    if let Some((expected, _)) = t.bound {
        if n < expected {
            return Err(StoreError::VersionReclaimed { version: t.version, rows: n, expected });
        }
    }
    if !fits_quant(config) {
        return Err(StoreError::BinaryNeedsCosine);
    }
    Ok((rows, segments))
}

/// The rows and segments can be opened as a commit point under a config.
pub open spec fn fit(c: Config, t: TargetV, rows: Seq<Vec<u32>>, segments: Seq<Segment>) -> bool {
    &&& segments.len() >= 1
    &&& seg_total(segments) == rows.len()
    &&& named_apart(segments, t.next_segment)
    &&& rows_shaped(rows, c.dimension as nat)
    &&& t.bound matches Some((expected, _)) ==> expected <= rows.len()
    &&& quant_fits(c)
}

/// Make a store of a commit point whose rows were read.
fn assemble<K: Kernel>(
    config: Config,
    disk: &Disk,
    t: Target,
    rows: Vec<Vec<u32>>,
    segments: Vec<Segment>,
    h: Handle,
    k: &K,
) -> (s: Store)
    requires
        functional(*k),
        h.ann ==> config.ann is Some,
        fit(config, t@, rows@, segments@),
    ensures
        s.wf(),
        s.current(),
        holds_rows(*disk, t@, config, views(rows@), segments@, s),
        fitted(*k, s.quant, views(s.rows@)),
        is_handle(h, s),
        noted(*s.stamp, h.now),
        s.ann == h.ann,
{
    let n: u64 = rows.len() as u64;
    proof {
        assert(views(rows@).len() == rows@.len());
    }
    let quant = match config.quantization {
        Some(q) => match empty(q.kind, config.dimension, config.distance) {
            Err(_) => None,
            Ok(copy) => Some(rebuilt(copy, &rows, config.dimension, k)),
        },
        None => None,
    };
    let log = take_ops(&disk.log, &t.bound);
    let ghost ops = views(log@);
    let index = match t.bound {
        Some((bound, _)) => {
            proof {
                replay_accounts(ops, bound);
                replay_in_range(ops, bound);
            }
            replay_ops(dup_all(&log), bound)
        },
        None => match try_adopt(&config, disk, n) {
            Some(ix) => ix,
            None => {
                proof {
                    replay_accounts(ops, n);
                    replay_in_range(ops, n);
                }
                replay_ops(dup_all(&log), n)
            },
        },
    };
    proof {
        assert(sound_index(index@, n as int, ops.len() as int)) by {
            if t.bound is Some {
                let bound = (t.bound->0).0;
                assert forall|c: Seq<char>, id: Seq<char>|
                    crate::index::is_live(index@.collections, (c, id)) implies (
                #[trigger] index@.collections[c].docs[id]).row->0 < n by {
                    assert(index@.collections[c].docs[id].row->0 < bound);
                }
            }
        }
    }
    let (indexed, index_dirty) = build_segment_indexes(h.ann, &config, &segments, &disk.sidecars);
    let ann_saved: Option<u64> = match disk.ann {
        Some(a) => if h.ann && a == cached_ann(&config, a.covered) && a.covered <= n {
            Some(a.covered)
        } else {
            None
        },
        None => None,
    };
    let len: usize = log.len();
    let bytes: u64 = log_size(&log);
    proof {
        assert(views(log@).len() == log@.len());
    }
    let fts_saved: Option<usize> = match disk.fts {
        Some(c) => if !index.fts.is_empty() && c.watermark == bytes {
            Some(len)
        } else {
            None
        },
        None => None,
    };
    let findex_saved: Option<usize> = match disk.findex {
        Some(at) => if !index.findex.is_empty() && at == bytes {
            Some(len)
        } else {
            None
        },
        None => None,
    };
    note(&h.stamp, h.now);
    Store {
        config,
        baseline: h.baseline,
        profile: t.profile,
        rows,
        segments,
        next_segment: t.next_segment,
        version: t.version,
        log,
        index,
        in_memory: false,
        pinned: h.pinned,
        loaded_log_offset: bytes,
        holds_handle: h.holds,
        lease_owner: h.owner,
        anchor: h.anchor,
        fenced: h.fenced,
        last_verified: h.now,
        latch: h.latch,
        stamp: h.stamp,
        quant,
        ann: h.ann,
        indexed,
        index_dirty,
        ann_saved,
        fts_saved,
        findex_saved,
    }
}

// ── Opening ─────────────────────────────────────────────────────────────────

/// `n`, but at least one.
pub open spec fn at_least_one(n: u64) -> u64 {
    if n == 0 {
        1
    } else {
        n
    }
}

/// A writer compacts what it has opened: too large a share of the rows is dead, or of the postings
/// in the full-text cache that it adopted.
pub open spec fn overfull<K: Kernel>(k: K, disk: Disk, s: Store) -> bool {
    s.config.open_mode == OpenMode::ReadWrite && (s.config.auto_compact matches Some(share) && (
    exceeds_of(k, s.index.dead_rows as u64, at_least_one(s.rows@.len() as u64), share) || (
    s.fts_saved is Some && disk.fts is Some && exceeds_of(
        k,
        disk.fts->0.dead,
        at_least_one(disk.fts->0.total),
        share,
    ))))
}

/// The handle writes in cluster mode.
pub open spec fn shared_writer(c: Config) -> bool {
    c.cluster && c.open_mode == OpenMode::ReadWrite
}

/// The handle that opening gives, over the commit point that it leaves.
pub open spec fn opened_handle(
    c: Config,
    owner: Option<String>,
    disk: Disk,
    now: u64,
    s: Store,
) -> Handle {
    Handle {
        baseline: c,
        pinned: c.at_version,
        holds: c.open_mode == OpenMode::ReadWrite,
        owner: if shared_writer(c) {
            owner
        } else {
            None
        },
        anchor: if shared_writer(c) {
            Some(disk.token)
        } else {
            None
        },
        fenced: false,
        now,
        ann: s.ann,
        latch: s.latch,
        stamp: s.stamp,
    }
}

/// There is no commit point yet, and the handle may write one.
pub open spec fn begins(c: Config, disk: Disk) -> bool {
    disk.manifest is None && c.open_mode == OpenMode::ReadWrite
}

/// The commit point of a store that nothing was committed to.
pub open spec fn first_commit(c: Config, m: Manifest) -> bool {
    &&& m.version == 1
    &&& m.dimension == c.dimension
    &&& m.distance == c.distance
    &&& m.segments@ == seq![0u64]
    &&& m.next_segment == 1
    &&& m.profile == no_profile()
}

/// Opening found `mid`, read the store `l` from it and made `s` of that. A writer takes out of the
/// log what refers to rows that are not there; a reader finds the state as it is. The store is
/// compacted where that was due, else it is as it was read, with a commit point written where there
/// was none yet. A writer in cluster mode becomes the holder of the lease. The index is published to
/// the memory tier unless it came from there, or the handle is pinned.
pub open spec fn opens<K: Kernel>(
    k: K,
    c: Config,
    before: Disk,
    mid: Disk,
    l: Store,
    s: Store,
    after: Disk,
) -> bool {
    let t = target_of(c, before);
    let m = merged(c, t.profile);
    let rows = gathered(before.objects@, t.segments).len();
    &&& if c.open_mode == OpenMode::ReadWrite {
        recovered(rows as u64, before, mid)
    } else {
        mid == before
    }
    &&& holds(mid, t, m, l)
    &&& fitted(k, l.quant, views(l.rows@))
    &&& l.wf()
    &&& if shared_writer(c) {
        opt_view(after.holder) == opt_view(s.lease_owner)
    } else {
        after.holder == before.holder
    }
    &&& overfull(k, mid, l) ==> compacts(k, l, s) && compaction_saved(
        s,
        Disk { holder: after.holder, ..mid },
        after,
    )
    &&& !overfull(k, mid, l) ==> {
        &&& s == (Store { anchor: s.anchor, ..l })
        &&& after == (Disk {
            manifest: after.manifest,
            tier: after.tier,
            token: after.token,
            holder: after.holder,
            ..mid
        })
        &&& if begins(c, before) {
            after.manifest matches Some(w) && after.token == next_token(before.token)
                && first_commit(c, w)
        } else {
            after.manifest == before.manifest && after.token == before.token
        }
        &&& if before.backend.memory_tier && c.at_version is None && !adoptable(
            m,
            mid,
            rows as int,
        ) {
            after.tier matches Some(snap) && published(s, snap)
        } else {
            after.tier == before.tier
        }
    }
}

fn is_overfull<K: Kernel>(disk: &Disk, s: &Store, k: &K) -> (r: bool)
    requires
        functional(*k),
    ensures
        r == overfull(*k, *disk, *s),
{
    if let OpenMode::ReadOnly = s.config.open_mode {
        return false;
    }
    match s.config.auto_compact {
        None => false,
        Some(share) => {
            let rows: u64 = s.rows.len() as u64;
            let whole: u64 = if rows == 0 {
                1
            } else {
                rows
            };
            let dead: u64 = s.index.dead_rows as u64;
            let stale = k.exceeds(dead, whole, share);
            proof {
                assert(call_ensures(K::exceeds, (k, dead, whole, share), stale));
            }
            if stale {
                return true;
            }
            if s.fts_saved.is_none() {
                return false;
            }
            match disk.fts {
                None => false,
                Some(c) => {
                    let total: u64 = if c.total == 0 {
                        1
                    } else {
                        c.total
                    };
                    let worn = k.exceeds(c.dead, total, share);
                    proof {
                        assert(call_ensures(K::exceeds, (k, c.dead, total, share), worn));
                    }
                    worn
                },
            }
        },
    }
}

impl Manifest {
    fn first(config: &Config) -> (m: Manifest)
        ensures
            first_commit(*config, m),
    {
        let mut segments: Vec<u64> = Vec::new();
        segments.push(0);
        proof {
            assert(segments@ =~= seq![0u64]);
        }
        Manifest {
            version: 1,
            dimension: config.dimension as u64,
            distance: config.distance,
            segments,
            next_segment: 1,
            profile: OpenProfile::default(),
        }
    }
}

impl Store {
    /// Open a store: the live commit point, or the recorded one that the config pins. `owner` is
    /// who was granted the writer lease, in cluster mode. A writer compacts where too much is dead; a
    /// reader writes nothing but the memory tier.
    pub fn open<K: Kernel>(
        config: Config,
        disk: &mut Disk,
        owner: Option<String>,
        now: u64,
        k: &K,
    ) -> (r: Result<Store, StoreError>)
        requires
            functional(*k),
        ensures
            open_refusal(config, *old(disk)) matches Some(e) ==> r == Err::<Store, StoreError>(e)
                && *final(disk) == *old(disk),
            open_refusal(config, *old(disk)) is None ==> match r {
                Ok(s) => {
                    &&& s.wf()
                    &&& s.current()
                    &&& is_handle(opened_handle(config, owner, *final(disk), now, s), s)
                    &&& noted(*s.stamp, now)
                    &&& s.ann == (s.config.ann is Some)
                    &&& exists|mid: Disk, l: Store| #[trigger]
                        opens(*k, config, *old(disk), mid, l, s, *final(disk))
                    &&& config.open_mode == OpenMode::ReadWrite && true_tier(
                        s.config,
                        *old(disk),
                    ) ==> s.faithful() && true_tier(s.config, *final(disk))
                    &&& config.open_mode == OpenMode::ReadWrite ==> tier_behind(*final(disk))
                },
                Err(e) => {
                    let t = target_of(config, *old(disk));
                    &&& e == StoreError::Full
                    &&& recovered(
                        gathered(old(disk).objects@, t.segments).len() as u64,
                        *old(disk),
                        *final(disk),
                    )
                    &&& t.version >= u64::MAX - 1
                    &&& config.auto_compact is Some
                },
            },
    {
        if let Err(e) = config.validate() {
            return Err(e);
        }
        if let Err(e) = check_cluster(&config, disk) {
            return Err(e);
        }
        let resolved = match config.at_version {
            Some(v) => resolve_pinned_entry(&config, disk, v),
            None => resolve_head(&config, disk),
        };
        let t = match resolved {
            Err(e) => {
                return Err(e);
            },
            Ok(t) => t,
        };
        let ghost tv = t@;
        let tuned = config.with_profile(&t.profile);
        if let Err(e) = tuned.validate() {
            return Err(e);
        }
        let writer = match config.open_mode {
            OpenMode::ReadWrite => true,
            OpenMode::ReadOnly => false,
        };
        let h = Handle {
            baseline: config,
            pinned: config.at_version,
            holds: writer,
            owner: if config.cluster && writer {
                owner
            } else {
                None
            },
            anchor: if config.cluster && writer {
                Some(disk.token)
            } else {
                None
            },
            fenced: false,
            now,
            ann: tuned.ann.is_some(),
            latch: latch(),
            stamp: stamp(now),
        };
        let ghost hv = h;
        let (rows, segments) = match read(&tuned, disk, &t) {
            Err(e) => {
                return Err(e);
            },
            Ok(p) => p,
        };
        let ghost before = *disk;
        let n: u64 = rows.len() as u64;
        proof {
            assert(views(rows@).len() == rows@.len());
        }
        if writer {
            recover(disk, n);
        }
        let ghost mid = *disk;
        proof {
            assert(ops_of(mid, tv) == views(mid.log@) || config.at_version is Some);
        }
        let mut store = assemble(tuned, disk, t, rows, segments, h, k);
        let ghost l = store;
        let adopted = try_adopt(&tuned, disk, n).is_some();
        proof {
            assert(hv == opened_handle(config, owner, before, now, store));
            if writer && true_tier(tuned, before) {
                a_true_tier_is_a_replay(tuned, before, mid);
                assert(l.faithful());
            }
        }
        let due = is_overfull(disk, &store, k);
        let mut prior: Option<String> = dup_option(&store.lease_owner);
        if config.cluster && writer {
            std::mem::swap(&mut disk.holder, &mut prior);
        }
        if due {
            if let Err(e) = store.compact_on(disk, k) {
                if config.cluster && writer {
                    std::mem::swap(&mut disk.holder, &mut prior);
                }
                return Err(e);
            }
        } else if disk.manifest.is_none() && writer {
            disk.manifest = Some(store.manifest());
            disk.token = bumped(disk.token);
            if config.cluster {
                store.anchor = Some(disk.token);
            }
            proof {
                assert(ids_of(store.segments@) =~= seq![0u64]);
            }
        }
        if config.at_version.is_none() && !due && !adopted {
            store.publish_working_set(disk);
        }
        proof {
            assert(opens(*k, config, before, mid, l, store, *disk));
            if writer && true_tier(tuned, before) {
                opening_keeps_the_tier_true(*k, config, before, mid, l, store, *disk);
            }
        }
        Ok(store)
    }

    /// A store in memory: no files and no lock.
    pub fn in_memory(dimension: usize) -> (r: Result<Store, StoreError>)
        ensures
            r matches Ok(s) && is_empty_store(s, 0) && s.config == (Config {
                auto_compact: None,
                ..plain(dimension)
            }),
    {
        Store::in_memory_with(dimension, Distance::Cosine)
    }

    /// A store in memory with a metric.
    pub fn in_memory_with(dimension: usize, distance: Distance) -> (r: Result<Store, StoreError>)
        ensures
            r matches Ok(s) && is_empty_store(s, 0) && s.config == (Config {
                distance,
                auto_compact: None,
                ..plain(dimension)
            }),
    {
        Store::in_memory_cfg(
            Config::new(dimension).distance(distance).open_mode(
                OpenMode::ReadWrite,
            ).auto_compact(None),
            0,
        )
    }

    /// A store in memory under a config, made at `now`.
    pub fn in_memory_cfg(config: Config, now: u64) -> (r: Result<Store, StoreError>)
        ensures
            match memory_refusal(config) {
                Some(e) => r == Err::<Store, StoreError>(e),
                None => r matches Ok(s) && is_empty_store(s, now) && s.config == config,
            },
    {
        if let Err(e) = config.validate() {
            return Err(e);
        }
        let quant = match config.quantization {
            Some(q) => match empty(q.kind, config.dimension, config.distance) {
                Err(e) => {
                    return Err(e);
                },
                Ok(copy) => Some(copy),
            },
            None => None,
        };
        let mut segments: Vec<Segment> = Vec::new();
        segments.push(Segment { id: 0, rows: 0 });
        let none: Vec<u64> = Vec::new();
        let ann = config.ann.is_some();
        let (indexed, index_dirty) = build_segment_indexes(ann, &config, &segments, &none);
        let s = Store {
            config,
            baseline: config,
            profile: OpenProfile::default(),
            rows: Vec::new(),
            segments,
            next_segment: 1,
            version: 1,
            log: Vec::new(),
            index: Index::new(),
            in_memory: true,
            pinned: None,
            loaded_log_offset: 0,
            holds_handle: false,
            lease_owner: None,
            anchor: None,
            fenced: false,
            last_verified: now,
            latch: latch(),
            stamp: stamp(now),
            quant,
            ann,
            indexed,
            index_dirty,
            ann_saved: None,
            fts_saved: None,
            findex_saved: None,
        };
        proof {
            reveal_with_fuel(seg_total, 2);
            assert(s.segments@.drop_last() =~= Seq::<Segment>::empty());
            assert(s.segments@ =~= seq![Segment { id: 0, rows: 0 }]);
            assert(views(s.log@) =~= Seq::empty());
            replay_accounts(views(s.log@), 0);
            replay_in_range(views(s.log@), 0);
        }
        Ok(s)
    }
}

/// Why a store in memory is refused.
pub open spec fn memory_refusal(c: Config) -> Option<StoreError> {
    if config_refusal(c) is Some {
        config_refusal(c)
    } else if !quant_fits(c) {
        Some(StoreError::BinaryNeedsCosine)
    } else {
        None
    }
}

/// A store in memory that holds nothing yet, made at `now`.
pub open spec fn is_empty_store(s: Store, now: u64) -> bool {
    &&& s.wf()
    &&& s.current()
    &&& s.faithful()
    &&& s.apart()
    &&& s.in_memory
    &&& s.baseline == s.config
    &&& s.profile == no_profile()
    &&& s.rows@.len() == 0
    &&& s.log@.len() == 0
    &&& s.index@ == empty_index()
    &&& s.segments@ == seq![Segment { id: 0, rows: 0 }]
    &&& s.next_segment == 1
    &&& s.version == 1
    &&& s.pinned is None
    &&& !s.holds_handle
    &&& s.lease_owner is None
    &&& s.anchor is None
    &&& !s.fenced
    &&& s.loaded_log_offset == 0
    &&& s.last_verified == now
    &&& s.ann_saved is None
    &&& s.fts_saved is None
    &&& s.findex_saved is None
}

// ── Following the writer ────────────────────────────────────────────────────

/// The handle follows a separate writer: a reader over a durable store.
pub open spec fn follows(s: Store) -> bool {
    !s.in_memory && s.config.open_mode == OpenMode::ReadOnly
}

/// The durable state is not the one that the handle holds. The version rises with every seal and
/// compaction, and every other write makes the log longer.
pub open spec fn has_moved(s: Store, disk: Disk) -> bool {
    head_target(disk).version != s.version || watermark(views(disk.log@)) != s.loaded_log_offset
}

/// How many rows the sealed segments have.
pub open spec fn sealed_rows(s: Store) -> int {
    s.rows@.len() - s.segments@.last().rows
}

/// The rows that a handle has once it has adopted the live commit point. A sealed segment never
/// changes, so where the segments are the ones that the handle has, it keeps the rows of the sealed
/// ones and reads the active one again; else it reads them all.
pub open spec fn refreshed_rows(s: Store, disk: Disk) -> Seq<Seq<u32>> {
    let ids = head_target(disk).segments;
    if ids == ids_of(s.segments@) {
        views(s.rows@).take(sealed_rows(s)) + object_rows(disk.objects@, ids.last())
    } else {
        gathered(disk.objects@, ids)
    }
}

/// The segments of those rows.
pub open spec fn refreshed_segments(s: Store, disk: Disk) -> Seq<Segment> {
    let ids = head_target(disk).segments;
    if ids == ids_of(s.segments@) {
        s.segments@.drop_last().push(
            Segment { id: ids.last(), rows: object_rows(disk.objects@, ids.last()).len() as u64 },
        )
    } else {
        sized(disk.objects@, ids)
    }
}

/// The segments that a handle has to read to adopt a commit point with these segments.
pub open spec fn to_fetch(s: Store, ids: Seq<u64>) -> Seq<u64> {
    if ids == ids_of(s.segments@) {
        seq![ids.last()]
    } else {
        ids
    }
}

/// Two states agree on a segment.
pub open spec fn agree_on(a: Disk, b: Disk, id: u64) -> bool {
    object_rows(a.objects@, id) == object_rows(b.objects@, id)
}

/// The sealed segments of the durable state are the ones that the handle holds.
pub open spec fn sealed_alike(s: Store, disk: Disk) -> bool {
    let ids = ids_of(s.segments@).drop_last();
    &&& gathered(disk.objects@, ids) == views(s.rows@).take(sealed_rows(s))
    &&& sized(disk.objects@, ids) == s.segments@.drop_last()
}

proof fn gathered_alike(a: Disk, b: Disk, ids: Seq<u64>)
    requires
        forall|i: int| 0 <= i < ids.len() ==> agree_on(a, b, #[trigger] ids[i]),
    ensures
        gathered(a.objects@, ids) == gathered(b.objects@, ids),
        sized(a.objects@, ids) == sized(b.objects@, ids),
    decreases ids.len(),
{
    if ids.len() > 0 {
        let d = ids.drop_last();
        assert forall|i: int| 0 <= i < d.len() implies agree_on(a, b, #[trigger] d[i]) by {
            assert(d[i] == ids[i]);
        }
        gathered_alike(a, b, d);
        assert(agree_on(a, b, ids[ids.len() - 1]));
    }
    assert forall|i: int| 0 <= i < ids.len() implies #[trigger] sized(a.objects@, ids)[i]
        == sized(b.objects@, ids)[i] by {
        assert(agree_on(a, b, ids[i]));
    }
    assert(sized(a.objects@, ids) =~= sized(b.objects@, ids));
}

/// A refresh reads no segment but those that it has to: what the durable state holds of any other
/// decides nothing.
pub proof fn a_refresh_reads_only_what_it_fetches(s: Store, a: Disk, b: Disk)
    requires
        s.wf(),
        b == (Disk { objects: b.objects, ..a }),
        forall|i: int|
            #![trigger to_fetch(s, head_target(a).segments)[i]]
            0 <= i < to_fetch(s, head_target(a).segments).len() ==> agree_on(
                a,
                b,
                to_fetch(s, head_target(a).segments)[i],
            ),
    ensures
        refreshed_rows(s, a) == refreshed_rows(s, b),
        refreshed_segments(s, a) == refreshed_segments(s, b),
        refresh_refusal(s, a) == refresh_refusal(s, b),
        forall|t: TargetV, c: Config, rows: Seq<Seq<u32>>, segments: Seq<Segment>, x: Store|
            #![trigger holds_rows(b, t, c, rows, segments, x)]
            holds_rows(a, t, c, rows, segments, x) == holds_rows(b, t, c, rows, segments, x),
{
    let ids = head_target(a).segments;
    let f = to_fetch(s, ids);
    if ids == ids_of(s.segments@) {
        assert(agree_on(a, b, f[0]));
    } else {
        gathered_alike(a, b, ids);
    }
}

/// Sealed segments stay as they are while rows are added to the active one: a reader of the commit
/// point before holds those of the commit point after.
pub proof fn sealed_segments_stay(r: Store, c: Config, w: Store, a: Disk, x: Store, b: Disk)
    requires
        holds(a, head_target(a), c, r),
        w.wf(),
        committed(w, a),
        x.wf(),
        committed(x, b),
        ids_of(x.segments@) == ids_of(w.segments@),
        x.segments@.drop_last() == w.segments@.drop_last(),
        views(x.rows@).take(sealed_rows(w)) == views(w.rows@).take(sealed_rows(w)),
    ensures
        sealed_alike(r, b),
{
    let ids = ids_of(w.segments@);
    let front = ids.drop_last();
    assert(w.segments@.drop_last().push(w.segments@.last()) =~= w.segments@);
    assert(x.segments@.drop_last().push(x.segments@.last()) =~= x.segments@);
    assert(views(r.rows@).len() == r.rows@.len());
    assert(views(w.rows@).len() == w.rows@.len());
    assert(views(x.rows@).len() == x.rows@.len());
    assert(sized(a.objects@, ids)[ids.len() - 1] == w.segments@.last());
    assert(sized(b.objects@, ids)[ids.len() - 1] == x.segments@.last());
    assert(seg_total(w.segments@) == seg_total(w.segments@.drop_last())
        + w.segments@.last().rows);
    assert(seg_total(x.segments@) == seg_total(x.segments@.drop_last())
        + x.segments@.last().rows);
    let old_rows = object_rows(a.objects@, ids.last());
    let new_rows = object_rows(b.objects@, ids.last());
    assert(gathered(a.objects@, ids) == gathered(a.objects@, front) + old_rows);
    assert(gathered(b.objects@, ids) == gathered(b.objects@, front) + new_rows);
    assert(w.rows.len() == w.rows@.len() && x.rows.len() == x.rows@.len());
    assert(sized(a.objects@, ids).drop_last() =~= sized(a.objects@, front));
    assert(sized(b.objects@, ids).drop_last() =~= sized(b.objects@, front));
    assert(views(x.rows@).take(sealed_rows(w)) =~= gathered(b.objects@, front));
    assert(views(r.rows@).take(sealed_rows(r)) =~= views(w.rows@).take(sealed_rows(w)));
}

/// Where the sealed segments are still the ones that the handle holds, a refresh gives what reading
/// all of them would.
pub proof fn a_refresh_reads_as_a_full_read(s: Store, disk: Disk)
    requires
        s.wf(),
        head_target(disk).segments == ids_of(s.segments@) ==> sealed_alike(s, disk),
    ensures
        refreshed_rows(s, disk) == gathered(disk.objects@, head_target(disk).segments),
        refreshed_segments(s, disk) == sized(disk.objects@, head_target(disk).segments),
{
    let ids = head_target(disk).segments;
    if ids == ids_of(s.segments@) {
        let d = sized(disk.objects@, ids);
        assert(d.drop_last() =~= sized(disk.objects@, ids.drop_last()));
        assert(refreshed_segments(s, disk) =~= d);
    }
}

/// The config once the handle has adopted a recorded profile: what decides how queries run is
/// merged anew into what was asked for; memory mapping stays, since open segments are not
/// remapped.
pub open spec fn adopted_config(s: Store, profile: OpenProfile) -> Config {
    let m = merged(s.baseline, profile);
    Config {
        query_threads: m.query_threads,
        quantization: m.quantization,
        ann: m.ann,
        ..s.config
    }
}

/// Why the durable state is not that of the store which the handle has open.
pub open spec fn swap_refusal(s: Store, disk: Disk) -> Option<StoreError> {
    match head_refusal(s.config, disk) {
        Some(StoreError::StoredDimension { stored, want }) => Some(
            StoreError::SwappedDimension { stored, opened: want },
        ),
        Some(StoreError::StoredDistance { stored, want }) => Some(
            StoreError::SwappedDistance { stored, opened: want },
        ),
        other => other,
    }
}

/// Why a handle cannot adopt the durable state.
pub open spec fn refresh_refusal(s: Store, disk: Disk) -> Option<StoreError> {
    let t = head_target(disk);
    if !follows(s) || s.pinned is Some {
        None
    } else if swap_refusal(s, disk) is Some {
        swap_refusal(s, disk)
    } else if has_moved(s, disk) {
        load_fault(
            adopted_config(s, t.profile),
            t,
            refreshed_rows(s, disk),
            refreshed_segments(s, disk),
        )
    } else {
        None
    }
}

/// Why a handle cannot be moved to a version.
pub open spec fn refresh_to_refusal(s: Store, disk: Disk, version: u64) -> Option<StoreError> {
    let t = pinned_target(disk, version);
    if !follows(s) {
        Some(StoreError::NotARefreshableReader)
    } else if pin_refusal(s.config, disk, version) is Some {
        pin_refusal(s.config, disk, version)
    } else {
        load_refusal(adopted_config(s, t.profile), disk, t)
    }
}

/// A handle that has adopted the live commit point has nothing left to adopt.
pub proof fn an_adopted_state_is_current(disk: Disk, c: Config, s: Store)
    requires
        exists|rows: Seq<Seq<u32>>, segments: Seq<Segment>|
            holds_rows(disk, head_target(disk), c, rows, segments, s),
    ensures
        !has_moved(s, disk),
{
}

/// Two handles that hold the same commit point under configs of one shape hold the same things.
pub proof fn a_refresh_matches_a_fresh_open(
    disk: Disk,
    t: TargetV,
    c: Config,
    d: Config,
    a: Store,
    b: Store,
)
    requires
        holds(disk, t, c, a),
        holds(disk, t, d, b),
        c.dimension == d.dimension,
        c.distance == d.distance,
    ensures
        views(a.rows@) == views(b.rows@),
        views(a.log@) == views(b.log@),
        a.index@ == b.index@,
        a.segments@ == b.segments@,
        a.version == b.version,
        a.profile == b.profile,
{
}

/// A handle that takes up a config keeps a nearest-neighbour index where the config asks for one;
/// where it asks for what the handle was tuned to already, the handle keeps what it has.
pub open spec fn kept_ann(s: Store, c: Config) -> bool {
    if s.config.ann == c.ann {
        s.ann
    } else {
        c.ann is Some
    }
}

impl Store {
    fn adopted(&self, profile: &OpenProfile) -> (c: Config)
        ensures
            c == adopted_config(*self, *profile),
    {
        let m = self.baseline.with_profile(profile);
        Config {
            query_threads: m.query_threads,
            quantization: m.quantization,
            ann: m.ann,
            ..self.config
        }
    }

    fn handle(&self, config: &Config, pinned: Option<u64>, now: u64) -> (h: Handle)
        ensures
            h.baseline == self.baseline,
            h.pinned == pinned,
            h.holds == self.holds_handle,
            opt_view(h.owner) == opt_view(self.lease_owner),
            h.anchor == self.anchor,
            h.fenced == self.fenced,
            h.latch == self.latch,
            h.stamp == self.stamp,
            h.now == now,
            h.ann == kept_ann(*self, *config),
    {
        Handle {
            baseline: self.baseline,
            pinned,
            holds: self.holds_handle,
            owner: dup_option(&self.lease_owner),
            anchor: self.anchor,
            fenced: self.fenced,
            now,
            latch: self.latch.clone(),
            stamp: self.stamp.clone(),
            ann: if self.config.ann == config.ann {
                self.ann
            } else {
                config.ann.is_some()
            },
        }
    }

    /// Read the active segment again and put its rows behind those of the sealed ones, which the
    /// handle gives up. A refusal leaves the handle as it is.
    fn reopen_active(&mut self, config: &Config, disk: &Disk, t: &Target) -> (r: Result<
        (Vec<Vec<u32>>, Vec<Segment>),
        StoreError,
    >)
        requires
            old(self).wf(),
            config.dimension == old(self).config.dimension,
            t@ == head_target(*disk),
            t.segments@ == ids_of(old(self).segments@),
        ensures
            match load_fault(
                *config,
                t@,
                refreshed_rows(*old(self), *disk),
                refreshed_segments(*old(self), *disk),
            ) {
                Some(e) => r == Err::<(Vec<Vec<u32>>, Vec<Segment>), StoreError>(e)
                    && *final(self) == *old(self),
                None => r matches Ok((rows, segments)) && views(rows@) == refreshed_rows(
                    *old(self),
                    *disk,
                ) && segments@ == refreshed_segments(*old(self), *disk) && fit(
                    *config,
                    t@,
                    rows@,
                    segments@,
                ) && *final(self) == (Store { rows: final(self).rows, ..*old(self) }),
            },
    {
        let ghost s = *self;
        let ghost ids = t.segments@;
        let last: usize = self.segments.len() - 1;
        proof {
            assert(ids.len() == s.segments@.len());
            assert(ids.last() == s.segments@.last().id);
            assert(seg_total(s.segments@) == seg_total(s.segments@.drop_last())
                + s.segments@.last().rows);
        }
        let kept: usize = self.rows.len() - self.segments[last].rows as usize;
        let ghost front = views(s.rows@).take(kept as int);
        let id: u64 = self.segments[last].id;
        let mut active: Vec<u64> = Vec::new();
        active.push(id);
        let (mut fresh, own) = gather(&disk.objects, &active);
        proof {
            reveal_with_fuel(gathered, 2);
            assert(active@.drop_last() =~= Seq::empty());
            assert(active@.last() == id);
            assert(views(fresh@) =~= object_rows(disk.objects@, id));
            assert(views(fresh@).len() == fresh@.len());
        }
        let mut segments: Vec<Segment> = Vec::new();
        let mut i: usize = 0;
        while i < last
            invariant
                i <= last,
                last == self.segments@.len() - 1,
                segments@ == self.segments@.take(i as int),
            decreases last - i,
        {
            segments.push(self.segments[i]);
            i = i + 1;
            proof {
                assert(segments@ =~= self.segments@.take(i as int));
            }
        }
        segments.push(Segment { id, rows: fresh.len() as u64 });
        proof {
            assert(segments@ =~= refreshed_segments(s, *disk));
            assert(segments@.drop_last() =~= s.segments@.drop_last());
            assert(shaped(front, config.dimension as int)) by {
                assert forall|j: int| 0 <= j < front.len() implies (#[trigger] front[j]).len()
                    == config.dimension by {
                    assert(front[j] == s.rows@[j]@);
                }
            }
        }
        if let Err(e) = check_rows(
            config,
            kept,
            &fresh,
            &segments,
            t.next_segment,
            Ghost(front),
        ) {
            return Err(e);
        }
        if !fits_quant(config) {
            return Err(StoreError::BinaryNeedsCosine);
        }
        let mut rows: Vec<Vec<u32>> = Vec::new();
        std::mem::swap(&mut rows, &mut self.rows);
        rows.truncate(kept);
        let ghost tail = fresh@;
        rows.append(&mut fresh);
        proof {
            assert(views(rows@) =~= refreshed_rows(s, *disk));
            assert forall|j: int| 0 <= j < rows@.len() implies (#[trigger] rows@[j])@.len()
                == config.dimension by {
                if j < kept {
                    assert(rows@[j] == s.rows@[j]);
                } else {
                    assert(rows@[j] == tail[j - kept]);
                }
            }
        }
        Ok((rows, segments))
    }

    /// The durable state is not the one that the handle holds: there is something to adopt. No
    /// segment has to be read to tell.
    pub fn lags(&self, disk: &Disk) -> (r: bool)
        ensures
            r == has_moved(*self, *disk),
    {
        let version: u64 = match &disk.manifest {
            Some(m) => m.version,
            None => 1,
        };
        version != self.version || log_size(&disk.log) != self.loaded_log_offset
    }

    /// The segments that have to be read to adopt a commit point with these segments: the active
    /// one where they are the ones that the handle has, else all of them.
    pub fn segments_to_fetch(&self, segments: &Vec<u64>) -> (r: Vec<u64>)
        requires
            self.wf(),
        ensures
            r@ == to_fetch(*self, segments@),
    {
        if self.restructured(segments) {
            return dup_ids(segments);
        }
        let mut active: Vec<u64> = Vec::new();
        active.push(segments[segments.len() - 1]);
        proof {
            assert(active@ =~= seq![segments@.last()]);
        }
        active
    }

    /// Adopt the writer's newer state, all of it or none. Of the segments it reads those that
    /// [`Store::segments_to_fetch`] names. `false` where there was nothing to
    /// adopt: the handle is current, or pinned, or follows no one. Either way a reader knows
    /// itself as current as it is meant to be.
    pub fn refresh<K: Kernel>(&mut self, disk: &Disk, now: u64, k: &K) -> (r: Result<
        bool,
        StoreError,
    >)
        requires
            old(self).wf(),
            old(self).current(),
            functional(*k),
        ensures
            final(self).wf(),
            final(self).current(),
            refresh_refusal(*old(self), *disk) matches Some(e) ==> r == Err::<bool, StoreError>(e)
                && *final(self) == *old(self),
            refresh_refusal(*old(self), *disk) is None ==> r is Ok,
            r is Ok && follows(*old(self)) ==> noted(*final(self).stamp, now),
            !follows(*old(self)) ==> r == Ok::<bool, StoreError>(false) && *final(self) == *old(
                self,
            ),
            r is Ok && follows(*old(self)) && (old(self).pinned is Some || !has_moved(
                *old(self),
                *disk,
            )) ==> r == Ok::<bool, StoreError>(false) && *final(self) == (Store {
                last_verified: now,
                ..*old(self)
            }),
            r is Ok && follows(*old(self)) && old(self).pinned is None && has_moved(
                *old(self),
                *disk,
            ) ==> {
                let t = head_target(*disk);
                &&& r == Ok::<bool, StoreError>(true)
                &&& holds_rows(
                    *disk,
                    t,
                    adopted_config(*old(self), t.profile),
                    refreshed_rows(*old(self), *disk),
                    refreshed_segments(*old(self), *disk),
                    *final(self),
                )
                &&& fitted(*k, final(self).quant, views(final(self).rows@))
                &&& carries_on(*old(self), None, now, *final(self))
            },
    {
        if self.in_memory {
            return Ok(false);
        }
        if let OpenMode::ReadWrite = self.config.open_mode {
            return Ok(false);
        }
        if self.pinned.is_some() {
            self.verified_at(now);
            return Ok(false);
        }
        let t = match resolve_head(&self.config, disk) {
            Err(e) => {
                return Err(
                    match e {
                        StoreError::StoredDimension { stored, want } => {
                            StoreError::SwappedDimension { stored, opened: want }
                        },
                        StoreError::StoredDistance { stored, want } => {
                            StoreError::SwappedDistance { stored, opened: want }
                        },
                        other => other,
                    },
                );
            },
            Ok(t) => t,
        };
        if !self.lags(disk) {
            self.verified_at(now);
            return Ok(false);
        }
        let config = self.adopted(&t.profile);
        let h = self.handle(&config, None, now);
        let (rows, segments) = if self.restructured(&t.segments) {
            match read(&config, disk, &t) {
                Err(e) => {
                    return Err(e);
                },
                Ok(p) => p,
            }
        } else {
            match self.reopen_active(&config, disk, &t) {
                Err(e) => {
                    return Err(e);
                },
                Ok(p) => p,
            }
        };
        let s = assemble(config, disk, t, rows, segments, h, k);
        *self = s;
        Ok(true)
    }

    /// Move a reader to a recorded version, whether it is pinned or not. A refusal leaves it
    /// where it was.
    pub fn refresh_to<K: Kernel>(&mut self, disk: &Disk, version: u64, now: u64, k: &K) -> (r:
        Result<(), StoreError>)
        requires
            old(self).wf(),
            old(self).current(),
            functional(*k),
        ensures
            final(self).wf(),
            final(self).current(),
            refresh_to_refusal(*old(self), *disk, version) matches Some(e) ==> r == Err::<
                (),
                StoreError,
            >(e) && *final(self) == *old(self),
            refresh_to_refusal(*old(self), *disk, version) is None ==> {
                let t = pinned_target(*disk, version);
                &&& r is Ok
                &&& holds(*disk, t, adopted_config(*old(self), t.profile), *final(self))
                &&& fitted(*k, final(self).quant, views(final(self).rows@))
                &&& noted(*final(self).stamp, now)
                &&& carries_on(*old(self), Some(version), now, *final(self))
            },
    {
        if self.in_memory {
            return Err(StoreError::NotARefreshableReader);
        }
        if let OpenMode::ReadWrite = self.config.open_mode {
            return Err(StoreError::NotARefreshableReader);
        }
        let t = match resolve_pinned_entry(&self.config, disk, version) {
            Err(e) => {
                return Err(e);
            },
            Ok(t) => t,
        };
        let config = self.adopted(&t.profile);
        let h = self.handle(&config, Some(version), now);
        let (rows, segments) = match read(&config, disk, &t) {
            Err(e) => {
                return Err(e);
            },
            Ok(p) => p,
        };
        let s = assemble(config, disk, t, rows, segments, h, k);
        *self = s;
        Ok(())
    }

    /// The segments are not the ones that the handle holds: all of them have to be read again,
    /// and not just the active one.
    pub fn restructured(&self, segments: &Vec<u64>) -> (r: bool)
        ensures
            r == (segments@ != ids_of(self.segments@)),
    {
        if segments.len() != self.segments.len() {
            proof {
                assert(ids_of(self.segments@).len() == self.segments@.len());
            }
            return true;
        }
        let mut i: usize = 0;
        while i < segments.len()
            invariant
                i <= segments@.len(),
                segments@.len() == self.segments@.len(),
                forall|j: int| 0 <= j < i ==> #[trigger] segments@[j] == self.segments@[j].id,
            decreases segments@.len() - i,
        {
            if segments[i] != self.segments[i].id {
                proof {
                    assert(ids_of(self.segments@)[i as int] != segments@[i as int]);
                }
                return true;
            }
            i = i + 1;
        }
        proof {
            assert(segments@ =~= ids_of(self.segments@));
        }
        false
    }

    /// The version that the handle is pinned to.
    pub fn pinned(&self) -> (r: Option<u64>)
        ensures
            r == self.pinned,
    {
        self.pinned
    }
}

/// The handle stays the one it was, pinned to `pinned` and verified at `now`.
pub open spec fn carries_on(before: Store, pinned: Option<u64>, now: u64, after: Store) -> bool {
    &&& !after.in_memory
    &&& after.baseline == before.baseline
    &&& after.pinned == pinned
    &&& after.holds_handle == before.holds_handle
    &&& opt_view(after.lease_owner) == opt_view(before.lease_owner)
    &&& after.anchor == before.anchor
    &&& after.fenced == before.fenced
    &&& after.last_verified == now
    &&& after.latch == before.latch
    &&& after.stamp == before.stamp
    &&& after.ann == kept_ann(before, after.config)
}

/// Opening keeps the record of commit points in the order of their versions.
pub proof fn an_opening_keeps_the_record_in_order<K: Kernel>(
    k: K,
    c: Config,
    before: Disk,
    mid: Disk,
    l: Store,
    s: Store,
    after: Disk,
)
    requires
        opens(k, c, before, mid, l, s, after),
        chronicled(before),
    ensures
        chronicled(after),
{
    if c.open_mode == OpenMode::ReadWrite {
        a_recovery_keeps_the_record_in_order(
            gathered(before.objects@, target_of(c, before).segments).len() as u64,
            before,
            mid,
        );
    }
    if overfull(k, mid, l) {
        a_compaction_keeps_the_record_in_order(s, Disk { holder: after.holder, ..mid }, after);
    }
}

/// A writer that finds nothing false in the memory tier leaves nothing false in it.
pub proof fn opening_keeps_the_tier_true<K: Kernel>(
    k: K,
    c: Config,
    before: Disk,
    mid: Disk,
    l: Store,
    s: Store,
    after: Disk,
)
    requires
        opens(k, c, before, mid, l, s, after),
        c.open_mode == OpenMode::ReadWrite,
        c.at_version is None,
        s.faithful(),
        true_tier(s.config, before),
        begins(c, before) ==> gathered(before.objects@, head_target(before).segments).len()
            <= u64::MAX,
    ensures
        true_tier(s.config, after),
{
    let t = head_target(before);
    let rows = gathered(before.objects@, t.segments).len();
    what_is_left_is_grounded(views(before.log@), rows as u64);
    if overfull(k, mid, l) {
        if before.backend.memory_tier {
            publishing_leaves_a_true_tier(s.config, s, after);
        }
    } else {
        assert(views(l.rows@).len() == l.rows@.len());
        what_is_left_is_grounded(views(mid.log@), rows as u64);
        assert(head_target(after).segments == t.segments);
    }
}

} // verus!
