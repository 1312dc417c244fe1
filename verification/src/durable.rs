//! Making a store's state the durable one.

use vstd::prelude::*;

use crate::compact::compacts;
use crate::config::{AnnKind, Config, OpenMode, OpenProfile};
use crate::dict::{dup_all, opt_view, views, Dup};
use crate::disk::{
    chronicled, gathered, head_target, in_version_order, object_rows, sized, AnnCache, Disk, Entry,
    Manifest, Object, Snapshot,
};
use crate::index::{FtsFieldV, Op, OpV};
use crate::kernel::{functional, Kernel};
use crate::latch::raised;
use crate::model::{dup_bits, Distance};
use crate::open::{index_of, ops_of};
use crate::order::same;
use crate::recover::{true_tier, what_is_left_is_grounded};
use crate::store::{seg_total, Segment, Store, StoreError};
use crate::wire::{log_size, watermark};

verus! {

/// The ids of segments.
pub open spec fn ids_of(s: Seq<Segment>) -> Seq<u64> {
    s.map_values(|x: Segment| x.id)
}

/// What an [`Entry`] says.
pub ghost struct EntryV {
    pub version: u64,
    pub dimension: u64,
    pub distance: Distance,
    pub segments: Seq<u64>,
    pub next_segment: u64,
    pub profile: OpenProfile,
    pub rows: u64,
    pub ops: u64,
}

impl View for Entry {
    type V = EntryV;

    open spec fn view(&self) -> EntryV {
        EntryV {
            version: self.version,
            dimension: self.dimension,
            distance: self.distance,
            segments: self.segments@,
            next_segment: self.next_segment,
            profile: self.profile,
            rows: self.rows,
            ops: self.ops,
        }
    }
}

/// The store's state as a recorded commit point, with `rows` rows and `ops` operations.
pub open spec fn entry_at(s: Store, version: int, rows: nat, ops: nat) -> EntryV {
    EntryV {
        version: version as u64,
        dimension: s.config.dimension as u64,
        distance: s.config.distance,
        segments: ids_of(s.segments@),
        next_segment: s.next_segment,
        profile: s.profile,
        rows: rows as u64,
        ops: ops as u64,
    }
}

/// Since the last commit a segment was sealed, which was a commit point of its own.
pub open spec fn sealed_between(s: Store, disk: Disk) -> bool {
    disk.manifest matches Some(m) && s.version == m.version + 2 && s.segments@.len()
        == m.segments@.len() + 1
}

/// The commit points that a commit records.
pub open spec fn fresh_entries(s: Store, disk: Disk) -> Seq<EntryV> {
    let h = disk.history@;
    let now = entry_at(s, s.version as int, s.rows@.len(), s.log@.len());
    if h.len() > 0 && h.last().version >= s.version {
        Seq::empty()
    } else if sealed_between(s, disk) {
        seq![
            entry_at(
                s,
                s.version - 1,
                gathered(disk.objects@, disk.manifest->0.segments@).len(),
                disk.log@.len(),
            ),
            now,
        ]
    } else {
        seq![now]
    }
}

/// How many commit points stay on record.
pub open spec fn kept_versions(keep: u64) -> int {
    if keep == 0 {
        1
    } else {
        keep as int
    }
}

/// The newest `keep` commit points.
pub open spec fn newest(h: Seq<EntryV>, keep: int) -> Seq<EntryV> {
    if h.len() > keep {
        h.skip(h.len() - keep)
    } else {
        h
    }
}

/// The record of commit points after a commit: the newest ones, and a floor at the oldest of them
/// once any was dropped.
pub open spec fn records(s: Store, before: Disk, after: Disk) -> bool {
    match s.config.history_versions {
        None => after.history@ == before.history@ && after.floor == before.floor,
        Some(keep) => {
            let all = views(before.history@) + fresh_entries(s, before);
            let n = kept_versions(keep);
            &&& views(after.history@) == newest(all, n)
            &&& after.floor == if all.len() > n {
                Some(newest(all, n)[0].version)
            } else {
                before.floor
            }
        },
    }
}

/// `disk` holds the store's rows, log and commit point.
pub open spec fn committed(s: Store, disk: Disk) -> bool {
    &&& disk.manifest matches Some(m) && {
        &&& m.version == s.version
        &&& m.dimension == s.config.dimension
        &&& m.distance == s.config.distance
        &&& m.segments@ == ids_of(s.segments@)
        &&& m.next_segment == s.next_segment
        &&& m.profile == s.profile
    }
    &&& gathered(disk.objects@, ids_of(s.segments@)) == views(s.rows@)
    &&& sized(disk.objects@, ids_of(s.segments@)) == s.segments@
    &&& views(disk.log@) == views(s.log@)
}

/// A reopened store is the one that was committed: whoever opens the live commit point reads the
/// same rows, the same log, and the index that it replays to.
pub proof fn reopening_reads_what_was_committed(s: Store, disk: Disk, c: Config)
    requires
        s.wf(),
        s.faithful(),
        committed(s, disk),
        true_tier(c, disk),
    ensures
        gathered(disk.objects@, head_target(disk).segments) == views(s.rows@),
        sized(disk.objects@, head_target(disk).segments) == s.segments@,
        head_target(disk).version == s.version,
        head_target(disk).profile == s.profile,
        ops_of(disk, head_target(disk)) == views(s.log@),
        index_of(c, disk, head_target(disk), s.rows@.len()) == s.index@,
{
    assert(views(s.rows@).len() == s.rows@.len());
    what_is_left_is_grounded(views(s.log@), s.rows@.len() as u64);
}

// ── Writing the segments ────────────────────────────────────────────────────

proof fn gathered_skips(objects: Seq<Object>, o: Object, ids: Seq<u64>)
    requires
        !ids.contains(o.id),
    ensures
        gathered(objects.push(o), ids) == gathered(objects, ids),
    decreases ids.len(),
{
    if ids.len() > 0 {
        let d = ids.drop_last();
        assert(!d.contains(o.id)) by {
            if d.contains(o.id) {
                let i = choose|i: int| 0 <= i < d.len() && d[i] == o.id;
                assert(ids[i] == o.id);
            }
        }
        gathered_skips(objects, o, d);
        assert(ids[ids.len() - 1] == ids.last());
        assert(objects.push(o).drop_last() =~= objects);
    }
}

proof fn seg_total_prefix(s: Seq<Segment>, i: int)
    requires
        0 <= i <= s.len(),
    ensures
        seg_total(s.take(i)) <= seg_total(s),
        i < s.len() ==> seg_total(s.take(i + 1)) == seg_total(s.take(i)) + s[i].rows,
    decreases s.len() - i,
{
    if i < s.len() {
        assert(s.take(i + 1).drop_last() =~= s.take(i));
        assert(s.take(i + 1).last() == s[i]);
        seg_total_prefix(s, i + 1);
    } else {
        assert(s.take(i) =~= s);
    }
}

fn dup_run(rows: &Vec<Vec<u32>>, from: usize, n: usize) -> (out: Vec<Vec<u32>>)
    requires
        from + n <= rows@.len(),
    ensures
        views(out@) == views(rows@).subrange(from as int, from + n),
        out@.len() == n,
{
    let mut out: Vec<Vec<u32>> = Vec::new();
    let mut i: usize = 0;
    let total: usize = rows.len();
    while i < n
        invariant
            i <= n,
            total == rows@.len(),
            from + n <= total,
            out@.len() == i,
            forall|j: int| 0 <= j < i ==> (#[trigger] out@[j])@ == rows@[from + j]@,
        decreases n - i,
    {
        out.push(dup_bits(&rows[from + i]));
        i = i + 1;
    }
    proof {
        assert(views(out@) =~= views(rows@).subrange(from as int, from + n));
    }
    out
}

impl Store {
    /// The rows cut into their segments.
    fn objects(&self) -> (out: Vec<Object>)
        requires
            self.wf(),
        ensures
            gathered(out@, ids_of(self.segments@)) == views(self.rows@),
            sized(out@, ids_of(self.segments@)) == self.segments@,
    {
        let ghost segs = self.segments@;
        let ghost ids = ids_of(segs);
        let ghost all = views(self.rows@);
        let mut out: Vec<Object> = Vec::new();
        let mut at: usize = 0;
        let mut i: usize = 0;
        let total: usize = self.rows.len();
        proof {
            assert(segs.take(0) =~= Seq::empty());
            assert(ids.take(0) =~= Seq::empty());
            assert(all.take(0) =~= Seq::empty());
        }
        while i < self.segments.len()
            invariant
                self.wf(),
                i <= segs.len(),
                segs == self.segments@,
                ids == ids_of(segs),
                all == views(self.rows@),
                at == seg_total(segs.take(i as int)),
                total == self.rows@.len(),
                at <= total,
                gathered(out@, ids.take(i as int)) == all.take(at as int),
                forall|x: int|
                    0 <= x < i ==> object_rows(out@, (#[trigger] segs[x]).id).len() == segs[x].rows,
            decreases segs.len() - i,
        {
            proof {
                seg_total_prefix(segs, i as int);
                seg_total_prefix(segs, i + 1);
                assert(at + segs[i as int].rows <= total);
            }
            let n: usize = self.segments[i].rows as usize;
            let o = Object { id: self.segments[i].id, rows: dup_run(&self.rows, at, n) };
            let ghost prior = out@;
            proof {
                let head = ids.take(i as int);
                assert(!head.contains(o.id)) by {
                    if head.contains(o.id) {
                        let x = choose|x: int| 0 <= x < head.len() && head[x] == o.id;
                        assert(segs[x].id == segs[i as int].id);
                    }
                }
                gathered_skips(prior, o, head);
                assert(prior.push(o).drop_last() =~= prior);
                assert(ids.take(i + 1).drop_last() =~= head);
                assert(ids.take(i + 1).last() == o.id);
                assert(all.take(at as int) + views(o.rows@) =~= all.take(at + n));
                assert forall|x: int| 0 <= x < i + 1 implies object_rows(
                    prior.push(o),
                    (#[trigger] segs[x]).id,
                ).len() == segs[x].rows by {
                    if x < i {
                        assert(segs[x].id != segs[i as int].id);
                    }
                }
            }
            out.push(o);
            at = at + n;
            i = i + 1;
        }
        proof {
            assert(segs.take(i as int) =~= segs);
            assert(ids.take(i as int) =~= ids);
            assert(all.take(at as int) =~= all);
            assert(sized(out@, ids) =~= segs) by {
                assert forall|x: int| 0 <= x < segs.len() implies #[trigger] sized(out@, ids)[x]
                    == segs[x] by {
                    assert(object_rows(out@, segs[x].id).len() == segs[x].rows);
                }
            }
        }
        out
    }

    /// The ids of the segments.
    fn segment_ids(&self) -> (out: Vec<u64>)
        ensures
            out@ == ids_of(self.segments@),
    {
        let mut out: Vec<u64> = Vec::new();
        let mut i: usize = 0;
        while i < self.segments.len()
            invariant
                i <= self.segments@.len(),
                out@.len() == i,
                forall|j: int| 0 <= j < i ==> #[trigger] out@[j] == self.segments@[j].id,
            decreases self.segments@.len() - i,
        {
            out.push(self.segments[i].id);
            i = i + 1;
        }
        proof {
            assert(out@ =~= ids_of(self.segments@));
        }
        out
    }

    /// The commit point of the store as it stands.
    pub(crate) fn manifest(&self) -> (m: Manifest)
        ensures
            m.version == self.version,
            m.dimension == self.config.dimension,
            m.distance == self.config.distance,
            m.segments@ == ids_of(self.segments@),
            m.next_segment == self.next_segment,
            m.profile == self.profile,
    {
        Manifest {
            version: self.version,
            dimension: self.config.dimension as u64,
            distance: self.config.distance,
            segments: self.segment_ids(),
            next_segment: self.next_segment,
            profile: self.profile,
        }
    }

    fn entry(&self, version: u64, rows: u64, ops: u64) -> (e: Entry)
        ensures
            e@ == entry_at(*self, version as int, rows as nat, ops as nat),
    {
        Entry {
            version,
            dimension: self.config.dimension as u64,
            distance: self.config.distance,
            segments: self.segment_ids(),
            next_segment: self.next_segment,
            profile: self.profile,
            rows,
            ops,
        }
    }
}

// ── Committing ──────────────────────────────────────────────────────────────

/// The index as it is published to the memory tier.
pub open spec fn published(s: Store, snap: Snapshot) -> bool {
    &&& snap.dimension == s.config.dimension
    &&& snap.distance == s.config.distance
    &&& snap.watermark == watermark(views(s.log@))
    &&& snap.rows == s.rows@.len()
    &&& snap.index@ == s.index@
}

/// The token that the commit point gets when it is written again.
pub open spec fn next_token(t: u64) -> u64 {
    if t == u64::MAX {
        0
    } else {
        (t + 1) as u64
    }
}

pub(crate) fn bumped(t: u64) -> (r: u64)
    ensures
        r == next_token(t),
{
    if t == u64::MAX {
        0
    } else {
        t + 1
    }
}

/// The durable state after a commit: the store's, under a new token, with all else as it was.
pub open spec fn saved(s: Store, before: Disk, after: Disk) -> bool {
    &&& committed(s, after)
    &&& records(s, before, after)
    &&& after == (Disk {
        manifest: after.manifest,
        objects: after.objects,
        log: after.log,
        history: after.history,
        floor: after.floor,
        token: next_token(before.token),
        ..before
    })
}

/// The durable state after a flush: the store's, and its index is in the memory tier, where there
/// is one.
pub open spec fn flushed(s: Store, before: Disk, after: Disk) -> bool {
    &&& saved(s, before, Disk { tier: before.tier, ..after })
    &&& if before.backend.memory_tier {
        after.tier matches Some(t) && published(s, t)
    } else {
        after.tier == before.tier
    }
}

fn same_option(a: &Option<String>, b: &Option<String>) -> (r: bool)
    ensures
        r == (opt_view(*a) == opt_view(*b)),
{
    match (a, b) {
        (Some(x), Some(y)) => same(x.as_str(), y.as_str()),
        (None, None) => true,
        _ => false,
    }
}

impl Store {
    /// Other instances can take over from this handle.
    pub open spec fn shares(&self) -> bool {
        self.config.cluster && !self.in_memory
    }

    /// Another writer has taken over: it holds the lease, or it has written the commit point since
    /// this handle did.
    pub open spec fn superseded(&self, disk: Disk) -> bool {
        self.shares() && (opt_view(self.lease_owner) != opt_view(disk.holder) || self.anchor
            != Some(disk.token))
    }

    /// Why the durable state is not written.
    pub open spec fn save_refusal(&self, disk: Disk) -> Option<StoreError> {
        if !self.writable() {
            Some(self.write_refusal())
        } else if self.superseded(disk) {
            Some(StoreError::Fenced)
        } else {
            None
        }
    }

    /// Why a commit that is counted is not written.
    pub open spec fn flush_refusal(&self, disk: Disk) -> Option<StoreError> {
        if self.save_refusal(disk) is Some {
            self.save_refusal(disk)
        } else if self.counts_batches() && self.version >= u64::MAX - 1 {
            Some(StoreError::Full)
        } else {
            None
        }
    }

    /// The handle after a refusal: one that was superseded can never write again.
    pub open spec fn after_refusal(&self, disk: Disk) -> Store {
        if self.writable() && self.superseded(disk) {
            Store { fenced: true, ..*self }
        } else {
            *self
        }
    }

    /// The handle once it knows the commit point of `disk` as its own.
    pub open spec fn anchored(&self, disk: Disk) -> Store {
        if self.shares() {
            Store { anchor: Some(disk.token), ..*self }
        } else {
            *self
        }
    }

    /// The store one commit later, where commits are counted.
    pub open spec fn counted(&self) -> Store {
        if self.counts_batches() {
            Store { version: (self.version + 1) as u64, ..*self }
        } else {
            *self
        }
    }
}

/// A takeover fences: once another writer has written the commit point, or holds the lease, a
/// handle in cluster mode is refused and leaves the durable state alone, and so is every later
/// write of it.
pub proof fn a_takeover_fences(w: Store, other: Store, before: Disk, after: Disk)
    requires
        w.shares(),
        w.anchor == Some(before.token),
        saved(other, before, after) || opt_view(after.holder) != opt_view(w.lease_owner),
    ensures
        w.superseded(after),
        w.save_refusal(after) is Some,
        !w.after_refusal(after).writable(),
{
}

impl Store {
    /// Record the commit points since the last commit, and drop the oldest ones.
    fn record_history(&self, disk: &mut Disk)
        requires
            self.wf(),
        ensures
            records(*self, *old(disk), *final(disk)),
            *final(disk) == (Disk {
                history: final(disk).history,
                floor: final(disk).floor,
                ..*old(disk)
            }),
    {
        if let Some(keep) = self.config.history_versions {
            let ghost before = *disk;
            let ghost h = views(disk.history@);
            let have: usize = disk.history.len();
            let done = have > 0 && disk.history[have - 1].version >= self.version;
            proof {
                if have > 0 {
                    assert(disk.history@.last() == disk.history@[have - 1]);
                }
            }
            if !done {
                let sealed = match &disk.manifest {
                    Some(m) => self.version >= 2 && self.version - 2 == m.version
                        && self.segments.len() > 0 && self.segments.len() - 1 == m.segments.len(),
                    None => false,
                };
                proof {
                    assert(sealed == sealed_between(*self, before));
                }
                if sealed {
                    if let Some(m) = &disk.manifest {
                        let (rows, _) = crate::disk::gather(&disk.objects, &m.segments);
                        let e = self.entry(
                            self.version - 1,
                            rows.len() as u64,
                            disk.log.len() as u64,
                        );
                        proof {
                            assert(rows@.len() == views(rows@).len());
                        }
                        disk.history.push(e);
                    }
                }
                let now = self.entry(
                    self.version,
                    self.rows.len() as u64,
                    self.log.len() as u64,
                );
                disk.history.push(now);
            }
            let ghost all = h + fresh_entries(*self, before);
            proof {
                assert(views(disk.history@) =~= all);
            }
            let total: usize = disk.history.len();
            let mut removed: usize = 0;
            let most: u64 = if keep == 0 {
                1
            } else {
                keep
            };
            proof {
                assert(all.skip(0) =~= all);
            }
            while disk.history.len() as u64 > most
                invariant
                    removed <= total,
                    total == all.len(),
                    most == kept_versions(keep),
                    most >= 1,
                    disk.history@.len() == total - removed,
                    removed == 0 || disk.history@.len() >= most,
                    views(disk.history@) == all.skip(removed as int),
                    *disk == (Disk { history: disk.history, ..before }),
                decreases disk.history@.len(),
            {
                let ghost prior = disk.history@;
                let _ = disk.history.remove(0);
                proof {
                    assert(views(disk.history@) =~= all.skip(removed + 1)) by {
                        assert forall|j: int| 0 <= j < disk.history@.len() implies #[trigger] views(
                            disk.history@,
                        )[j] == all.skip(removed + 1)[j] by {
                            assert(disk.history@[j] == prior[j + 1]);
                            assert(views(prior)[j + 1] == all.skip(removed as int)[j + 1]);
                        }
                    }
                }
                removed = removed + 1;
            }
            proof {
                assert(views(disk.history@) =~= newest(all, most as int));
            }
            if removed > 0 {
                disk.floor = Some(disk.history[0].version);
                proof {
                    assert(views(disk.history@)[0].version == disk.history@[0].version);
                }
            }
        }
    }

    /// Write the rows, the log and the commit point.
    fn write_out(&self, disk: &mut Disk)
        requires
            self.wf(),
        ensures
            saved(*self, *old(disk), *final(disk)),
    {
        self.record_history(disk);
        disk.objects = self.objects();
        disk.log = dup_all(&self.log);
        disk.manifest = Some(self.manifest());
        disk.token = bumped(disk.token);
    }

    /// Make sure that this handle may still write. One that was superseded is fenced for good.
    pub fn keep_lease(&mut self, disk: &Disk) -> (r: Result<(), StoreError>)
        ensures
            match old(self).save_refusal(*disk) {
                Some(e) => r == Err::<(), StoreError>(e) && *final(self) == old(
                    self,
                ).after_refusal(*disk),
                None => r is Ok && *final(self) == *old(self),
            },
            old(self).writable() && old(self).superseded(*disk) ==> raised(*final(self).latch),
    {
        if let Err(e) = self.writer() {
            return Err(e);
        }
        if self.config.cluster && !self.in_memory {
            let current = match self.anchor {
                Some(t) => t == disk.token,
                None => false,
            };
            if !current || !same_option(&self.lease_owner, &disk.holder) {
                self.fence();
                return Err(StoreError::Fenced);
            }
        }
        Ok(())
    }

    /// Make the store's state the durable one. A store in memory has nowhere to write to; a writer
    /// that was superseded writes nothing.
    pub fn save(&mut self, disk: &mut Disk) -> (r: Result<(), StoreError>)
        requires
            old(self).wf(),
        ensures
            match old(self).save_refusal(*old(disk)) {
                Some(e) => {
                    &&& r == Err::<(), StoreError>(e)
                    &&& *final(disk) == *old(disk)
                    &&& *final(self) == old(self).after_refusal(*old(disk))
                },
                None => {
                    &&& r is Ok
                    &&& *final(self) == old(self).anchored(*final(disk))
                    &&& if old(self).in_memory {
                        *final(disk) == *old(disk)
                    } else {
                        saved(*final(self), *old(disk), *final(disk))
                    }
                },
            },
    {
        if let Err(e) = self.keep_lease(disk) {
            return Err(e);
        }
        if !self.in_memory {
            self.write_out(disk);
            self.anchor_at(disk);
        }
        Ok(())
    }

    /// Remember the token of the commit point that was just written.
    fn anchor_at(&mut self, disk: &Disk)
        ensures
            *final(self) == old(self).anchored(*disk),
    {
        if self.config.cluster && !self.in_memory {
            self.anchor = Some(disk.token);
        }
    }

    /// Publish the index to the memory tier, where there is one.
    pub fn publish_working_set(&self, disk: &mut Disk)
        ensures
            !old(disk).backend.memory_tier ==> *final(disk) == *old(disk),
            old(disk).backend.memory_tier ==> {
                &&& *final(disk) == (Disk { tier: final(disk).tier, ..*old(disk) })
                &&& final(disk).tier matches Some(t) && published(*self, t)
            },
    {
        if disk.backend.memory_tier {
            disk.tier = Some(
                Snapshot {
                    dimension: self.config.dimension,
                    distance: self.config.distance,
                    watermark: log_size(&self.log),
                    rows: self.rows.len() as u64,
                    index: self.index.dup(),
                },
            );
        }
    }

    /// Make the store's state the durable one and publish its index. Where commits are counted,
    /// a flush is one.
    pub fn flush(&mut self, disk: &mut Disk) -> (r: Result<(), StoreError>)
        requires
            old(self).wf(),
        ensures
            match old(self).flush_refusal(*old(disk)) {
                Some(e) => {
                    &&& r == Err::<(), StoreError>(e)
                    &&& *final(disk) == *old(disk)
                    &&& *final(self) == old(self).after_refusal(*old(disk))
                },
                None => {
                    &&& r is Ok
                    &&& final(self).wf()
                    &&& *final(self) == old(self).counted().anchored(*final(disk))
                    &&& if old(self).in_memory {
                        *final(disk) == *old(disk)
                    } else {
                        flushed(*final(self), *old(disk), *final(disk))
                    }
                },
            },
    {
        if let Err(e) = self.keep_lease(disk) {
            return Err(e);
        }
        if self.config.history_versions.is_some() || self.config.cluster {
            if self.version >= u64::MAX - 1 {
                return Err(StoreError::Full);
            }
            self.version = self.version + 1;
        }
        if !self.in_memory {
            self.write_out(disk);
            self.publish_working_set(disk);
            self.anchor_at(disk);
        }
        Ok(())
    }
}

// ── Persisting the derived indexes ──────────────────────────────────────────

/// The operation changes what the full-text index holds.
pub open spec fn touches_text(op: OpV) -> bool {
    op is Put || op is Delete || op is DropCollection || op is SetFts
}

/// The operation changes what the filter index holds.
pub open spec fn touches_attrs(op: OpV) -> bool {
    op is Put || op is Delete || op is DropCollection || op is SetFilterIndex
}

/// An operation past the first `from` ones changes it.
pub open spec fn touched(log: Seq<OpV>, from: int, hit_by: spec_fn(OpV) -> bool) -> bool {
    exists|i: int| from <= i < log.len() && hit_by(#[trigger] log[i])
}

impl Store {
    /// The nearest-neighbour index has rows that its cache lacks.
    pub open spec fn ann_dirty(&self) -> bool {
        self.ann && self.ann_saved != Some(self.rows@.len() as u64)
    }

    /// The full-text index has changed since it was cached.
    pub open spec fn fts_dirty(&self) -> bool {
        self.index@.fts != Map::<Seq<char>, Seq<FtsFieldV>>::empty() && (
        self.fts_saved matches Some(n) ==> touched(
            views(self.log@),
            n as int,
            |op: OpV| touches_text(op),
        ))
    }

    /// The filter index has changed since it was cached.
    pub open spec fn findex_dirty(&self) -> bool {
        self.index@.findex != Map::<Seq<char>, Seq<Seq<char>>>::empty() && (
        self.findex_saved matches Some(n) ==> touched(
            views(self.log@),
            n as int,
            |op: OpV| touches_attrs(op),
        ))
    }

    fn text_touched(&self, from: usize) -> (r: bool)
        ensures
            r == touched(views(self.log@), from as int, |op: OpV| touches_text(op)),
    {
        let ghost hit_by = |op: OpV| touches_text(op);
        let ghost log = views(self.log@);
        let mut i: usize = from;
        while i < self.log.len()
            invariant
                from <= i,
                hit_by == (|op: OpV| touches_text(op)),
                log == views(self.log@),
                forall|j: int| from <= j < i && j < log.len() ==> !hit_by(#[trigger] log[j]),
            decreases self.log@.len() - i,
        {
            let hit = match &self.log[i] {
                Op::Upsert { .. } => true,
                Op::UpsertText { .. } => true,
                Op::Delete { .. } => true,
                Op::DropCollection { .. } => true,
                Op::SetFtsSchema { .. } => true,
                Op::SetFtsFields { .. } => true,
                _ => false,
            };
            proof {
                assert(log[i as int] == self.log@[i as int]@);
            }
            if hit {
                proof {
                    assert(hit_by(log[i as int]));
                }
                return true;
            }
            i = i + 1;
        }
        false
    }

    fn attrs_touched(&self, from: usize) -> (r: bool)
        ensures
            r == touched(views(self.log@), from as int, |op: OpV| touches_attrs(op)),
    {
        let ghost hit_by = |op: OpV| touches_attrs(op);
        let ghost log = views(self.log@);
        let mut i: usize = from;
        while i < self.log.len()
            invariant
                from <= i,
                hit_by == (|op: OpV| touches_attrs(op)),
                log == views(self.log@),
                forall|j: int| from <= j < i && j < log.len() ==> !hit_by(#[trigger] log[j]),
            decreases self.log@.len() - i,
        {
            let hit = match &self.log[i] {
                Op::Upsert { .. } => true,
                Op::UpsertText { .. } => true,
                Op::Delete { .. } => true,
                Op::DropCollection { .. } => true,
                Op::SetFilterIndex { .. } => true,
                _ => false,
            };
            proof {
                assert(log[i as int] == self.log@[i as int]@);
            }
            if hit {
                proof {
                    assert(hit_by(log[i as int]));
                }
                return true;
            }
            i = i + 1;
        }
        false
    }
}

/// What the cache of a nearest-neighbour index over so many rows says of it.
pub open spec fn ann_key(c: Config, covered: u64) -> AnnCache {
    AnnCache {
        covered,
        dimension: c.dimension,
        distance: c.distance,
        kind: c.ann->0.kind,
        quant: match c.quantization {
            Some(q) => Some(q.kind),
            None => None,
        },
    }
}

pub(crate) fn cached_ann(c: &Config, covered: u64) -> (r: AnnCache)
    requires
        c.ann is Some,
    ensures
        r == ann_key(*c, covered),
{
    let kind = match c.ann {
        Some(a) => a.kind,
        None => AnnKind::Hnsw,
    };
    AnnCache {
        covered,
        dimension: c.dimension,
        distance: c.distance,
        kind,
        quant: match c.quantization {
            Some(q) => Some(q.kind),
            None => None,
        },
    }
}

/// The segments whose index is not yet written.
pub open spec fn dirty_ids(segments: Seq<Segment>, dirty: Seq<bool>, n: int) -> Seq<u64>
    decreases n,
{
    if n <= 0 {
        Seq::empty()
    } else if dirty[n - 1] {
        dirty_ids(segments, dirty, n - 1).push(segments[n - 1].id)
    } else {
        dirty_ids(segments, dirty, n - 1)
    }
}

impl Store {
    /// The caches of the derived indexes are written for this handle.
    pub open spec fn keeps_caches(&self) -> bool {
        !self.in_memory && self.config.open_mode == OpenMode::ReadWrite
    }

    /// The store once its derived indexes are cached.
    pub open spec fn with_caches(&self, after: Store) -> bool {
        &&& after == (Store {
            ann_saved: if self.ann_dirty() {
                Some(self.rows@.len() as u64)
            } else {
                self.ann_saved
            },
            fts_saved: if self.fts_dirty() {
                Some(self.log@.len() as usize)
            } else {
                self.fts_saved
            },
            findex_saved: if self.findex_dirty() {
                Some(self.log@.len() as usize)
            } else {
                self.findex_saved
            },
            index_dirty: after.index_dirty,
            ..*self
        })
        &&& after.index_dirty@ == Seq::new(self.index_dirty@.len(), |i: int| false)
    }

    /// What caching the derived indexes writes: those that have changed, and no other.
    pub open spec fn caches(&self, before: Disk, after: Disk, postings: (u64, u64)) -> bool {
        &&& after == (Disk {
            ann: if self.ann_dirty() {
                Some(ann_key(self.config, self.rows@.len() as u64))
            } else {
                before.ann
            },
            fts: if self.fts_dirty() {
                Some(
                    crate::disk::FtsCache {
                        watermark: watermark(views(self.log@)),
                        dead: postings.0,
                        total: postings.1,
                    },
                )
            } else {
                before.fts
            },
            findex: if self.findex_dirty() {
                Some(watermark(views(self.log@)))
            } else {
                before.findex
            },
            sidecars: after.sidecars,
            ..before
        })
        &&& after.sidecars@ == before.sidecars@ + dirty_ids(
            self.segments@,
            self.index_dirty@,
            self.index_dirty@.len() as int,
        )
    }

    /// Cache the derived indexes that have changed since they were last cached, so that the next
    /// open need not build them. Nothing is written for a store in memory or a reader. `postings`
    /// says how many postings of the full-text index are dead, and how many there are.
    pub fn persist_index(&mut self, disk: &mut Disk, postings: (u64, u64))
        requires
            old(self).wf(),
        ensures
            final(self).wf(),
            !old(self).keeps_caches() ==> *final(self) == *old(self) && *final(disk) == *old(disk),
            old(self).keeps_caches() ==> old(self).with_caches(*final(self)) && old(self).caches(
                *old(disk),
                *final(disk),
                postings,
            ),
    {
        if self.in_memory {
            return;
        }
        if let OpenMode::ReadOnly = self.config.open_mode {
            return;
        }
        let ghost before = *self;
        let ghost disk0 = *disk;
        let rows: u64 = self.rows.len() as u64;
        let ops: usize = self.log.len();
        let bytes: u64 = log_size(&self.log);
        let ann = self.ann && match self.ann_saved {
            Some(n) => n != rows,
            None => true,
        };
        let fts = !self.index.fts.is_empty() && match self.fts_saved {
            Some(n) => self.text_touched(n),
            None => true,
        };
        let findex = !self.index.findex.is_empty() && match self.findex_saved {
            Some(n) => self.attrs_touched(n),
            None => true,
        };
        if ann {
            disk.ann = Some(cached_ann(&self.config, rows));
            self.ann_saved = Some(rows);
        }
        if fts {
            disk.fts = Some(
                crate::disk::FtsCache { watermark: bytes, dead: postings.0, total: postings.1 },
            );
            self.fts_saved = Some(ops);
        }
        if findex {
            disk.findex = Some(bytes);
            self.findex_saved = Some(ops);
        }
        let n: usize = self.index_dirty.len();
        let mut clean: Vec<bool> = Vec::new();
        let mut i: usize = 0;
        let ghost base = disk.sidecars@;
        let ghost disk1 = *disk;
        proof {
            assert(base + dirty_ids(before.segments@, before.index_dirty@, 0) =~= base);
        }
        while i < n
            invariant
                i <= n,
                n == self.index_dirty@.len(),
                n <= self.segments@.len(),
                clean@.len() == i,
                forall|j: int| 0 <= j < i ==> !(#[trigger] clean@[j]),
                disk.sidecars@ == base + dirty_ids(self.segments@, self.index_dirty@, i as int),
                *disk == (Disk { sidecars: disk.sidecars, ..disk1 }),
            decreases n - i,
        {
            if self.index_dirty[i] {
                let ghost prior = disk.sidecars@;
                disk.sidecars.push(self.segments[i].id);
                proof {
                    assert(disk.sidecars@ =~= base + dirty_ids(
                        self.segments@,
                        self.index_dirty@,
                        i + 1,
                    ));
                }
            }
            clean.push(false);
            i = i + 1;
        }
        proof {
            assert(clean@ =~= Seq::new(before.index_dirty@.len(), |i: int| false));
        }
        self.index_dirty = clean;
    }

    /// Why a compaction is not made durable.
    pub open spec fn compact_refusal(&self, disk: Disk) -> Option<StoreError> {
        if self.save_refusal(disk) is Some {
            self.save_refusal(disk)
        } else if self.version >= u64::MAX - 1 {
            Some(StoreError::Full)
        } else {
            None
        }
    }

    /// Compact, and make the result the durable state: earlier versions are no longer readable,
    /// the indexes that were cached for segments are dropped, and the derived indexes are cached
    /// and published anew.
    pub fn compact_on<K: Kernel>(&mut self, disk: &mut Disk, k: &K) -> (r: Result<(), StoreError>)
        requires
            old(self).wf(),
            old(self).current(),
            functional(*k),
        ensures
            match old(self).compact_refusal(*old(disk)) {
                Some(e) => {
                    &&& r == Err::<(), StoreError>(e)
                    &&& *final(disk) == *old(disk)
                    &&& *final(self) == old(self).after_refusal(*old(disk))
                },
                None => {
                    &&& r is Ok
                    &&& compacts(*k, *old(self), *final(self))
                    &&& final(self).wf()
                    &&& final(self).current()
                    &&& old(self).apart() ==> final(self).apart()
                    &&& final(self).anchor == old(self).anchored(*final(disk)).anchor
                    &&& if old(self).in_memory {
                        *final(disk) == *old(disk)
                    } else {
                        compaction_saved(*final(self), *old(disk), *final(disk))
                    }
                },
            },
    {
        if let Err(e) = self.keep_lease(disk) {
            return Err(e);
        }
        if let Err(e) = self.compact(k) {
            return Err(e);
        }
        if !self.in_memory {
            let had = disk.history.len() > 0 || disk.floor.is_some()
                || self.config.history_versions.is_some();
            disk.history = Vec::new();
            disk.sidecars = Vec::new();
            disk.manifest = None;
            if had {
                disk.floor = Some(self.version);
            }
            let ghost mid = *disk;
            self.write_out(disk);
            proof {
                let all = views(mid.history@) + fresh_entries(*self, mid);
                assert(all =~= fresh_entries(*self, mid));
                if self.config.history_versions is None {
                    assert(views(disk.history@) =~= Seq::empty());
                } else {
                    assert(views(disk.history@) =~= seq![
                        entry_at(*self, self.version as int, self.rows@.len(), self.log@.len()),
                    ]);
                }
            }
            let ghost disk2 = *disk;
            let ghost bare = *self;
            self.persist_index(disk, (0, 0));
            proof {
                assert forall|i: int| 0 <= i < bare.index_dirty@.len() implies !(
                #[trigger] bare.index_dirty@[i]) by {
                    if bare.index_dirty@[i] {
                        assert(bare.indexed@[i]);
                    }
                }
                nothing_dirty(bare.segments@, bare.index_dirty@, bare.index_dirty@.len() as int);
                assert(disk.sidecars@ =~= Seq::empty());
            }
            self.anchor_at(disk);
            self.publish_working_set(disk);
        }
        Ok(())
    }
}

proof fn nothing_dirty(segments: Seq<Segment>, dirty: Seq<bool>, n: int)
    requires
        n <= dirty.len(),
        forall|i: int| 0 <= i < dirty.len() ==> !(#[trigger] dirty[i]),
    ensures
        dirty_ids(segments, dirty, n) == Seq::<u64>::empty(),
    decreases n,
{
    if n > 0 {
        nothing_dirty(segments, dirty, n - 1);
    }
}

/// The durable state after a compaction: the store's, with no earlier version readable, no cached
/// segment index, every other derived index cached as it stands, and the index in the memory tier,
/// where there is one.
pub open spec fn compaction_saved(s: Store, before: Disk, after: Disk) -> bool {
    let ops = s.log@.len();
    &&& committed(s, after)
    &&& views(after.history@) == if s.config.history_versions is Some {
        seq![entry_at(s, s.version as int, s.rows@.len(), ops)]
    } else {
        Seq::empty()
    }
    &&& after.floor == if before.history@.len() > 0 || before.floor is Some
        || s.config.history_versions is Some {
        Some(s.version)
    } else {
        None
    }
    &&& after.sidecars@.len() == 0
    &&& s.ann ==> s.ann_saved == Some(s.rows@.len() as u64) && after.ann == Some(
        ann_key(s.config, s.rows@.len() as u64),
    )
    &&& s.index@.fts != Map::<Seq<char>, Seq<FtsFieldV>>::empty() ==> s.fts_saved == Some(
        ops as usize,
    ) && after.fts == Some(
        crate::disk::FtsCache { watermark: watermark(views(s.log@)), dead: 0, total: 0 },
    )
    &&& s.index@.findex != Map::<Seq<char>, Seq<Seq<char>>>::empty() ==> s.findex_saved == Some(
        ops as usize,
    ) && after.findex == Some(watermark(views(s.log@)))
    &&& !s.ann ==> after.ann == before.ann
    &&& s.index@.fts == Map::<Seq<char>, Seq<FtsFieldV>>::empty() ==> after.fts == before.fts
    &&& s.index@.findex == Map::<Seq<char>, Seq<Seq<char>>>::empty() ==> after.findex
        == before.findex
    &&& after.token == next_token(before.token)
    &&& after.holder == before.holder
    &&& after.backend == before.backend
    &&& if before.backend.memory_tier {
        after.tier matches Some(t) && published(s, t)
    } else {
        after.tier == before.tier
    }
}

/// A commit keeps the record of commit points in the order of their versions, where the store is
/// not behind the commit point that it replaces.
pub proof fn a_commit_keeps_the_record_in_order(s: Store, before: Disk, after: Disk)
    requires
        saved(s, before, after),
        chronicled(before),
        before.manifest matches Some(m) ==> m.version <= s.version,
    ensures
        chronicled(after),
{
    let h = views(before.history@);
    let fresh = fresh_entries(s, before);
    let all = h + fresh;
    if before.history@.len() > 0 {
        assert(h[h.len() - 1].version == before.history@.last().version);
    }
    assert forall|i: int, j: int| 0 <= i < j < all.len() implies (#[trigger] all[i]).version < (
    #[trigger] all[j]).version by {
        if j < h.len() {
            assert(h[i].version < h[j].version);
        } else if i < h.len() && i < h.len() - 1 {
            assert(h[i].version < h[h.len() - 1].version);
        }
    }
    let kept = views(after.history@);
    match s.config.history_versions {
        None => {
            assert(kept == h);
        },
        Some(keep) => {
            let n = kept_versions(keep);
            let from = if all.len() > n {
                all.len() - n
            } else {
                0
            };
            assert forall|i: int| 0 <= i < kept.len() implies #[trigger] kept[i] == all[from
                + i] by {}
        },
    }
    assert(in_version_order(kept));
    if after.history@.len() > 0 {
        let n = after.history@.len() - 1;
        assert(kept[n].version == after.history@.last().version);
        if s.config.history_versions is Some {
            assert(kept[n] == all[all.len() - 1]);
        }
    }
}

/// A compaction keeps the record of commit points in the order of their versions.
pub proof fn a_compaction_keeps_the_record_in_order(s: Store, before: Disk, after: Disk)
    requires
        compaction_saved(s, before, after),
    ensures
        chronicled(after),
{
    assert(views(after.history@).len() == after.history@.len());
    if after.history@.len() > 0 {
        assert(views(after.history@)[0].version == after.history@[0].version);
    }
}

} // verus!
