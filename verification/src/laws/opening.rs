//! What is read when a store is opened, and what is kept when it is written.

use vstd::prelude::*;

use crate::config::{Config, OpenMode, QuantKind};
use crate::disk::{
    fits_tier, gathered, head_refusal, head_target, is_readable, object_rows, pin_refusal,
    pinned_target, recorded, rows_fault, sized, Disk, Entry, Object,
};
use crate::dict::views;
use crate::durable::{
    dirty_ids, ids_of, kept_versions, newest, next_token, records, touched, touches_attrs,
    touches_text, EntryV,
};
use crate::index::{replay, OpV};
use crate::model::Distance;
use crate::open::{
    adopted_config, ann_cache, cluster_refusal, config_refusal, follows, has_moved, index_of,
    memory_refusal, ops_of, target_of,
};
use crate::recover::{dangles, grounded};
use crate::store::{Segment, Store, StoreError};
use crate::wire::watermark;

verus! {

/// What a configuration is refused for: an index per segment beside a quantized copy, a pinned
/// writer, and sign codes under another metric than the cosine.
pub proof fn what_a_configuration_is_refused_for(c: Config)
    ensures
        config_refusal(c) is None <==> !(c.quantization is Some && c.segment_index_min_rows is Some)
            && !(c.at_version is Some && c.open_mode == OpenMode::ReadWrite),
        c.quantization is Some && c.segment_index_min_rows is Some ==> config_refusal(c) == Some(
            StoreError::SegmentIndexWithQuantization,
        ),
        !(c.quantization is Some && c.segment_index_min_rows is Some) && c.at_version is Some
            && c.open_mode == OpenMode::ReadWrite ==> config_refusal(c) == Some(
            StoreError::PinnedWriter,
        ),
        config_refusal(c) is None ==> (memory_refusal(c) is Some <==> c.quantization is Some
            && c.quantization->0.kind == QuantKind::Binary && c.distance != Distance::Cosine),
        memory_refusal(c) is Some && config_refusal(c) is None ==> memory_refusal(c) == Some(
            StoreError::BinaryNeedsCosine,
        ),
{
}

/// What shared storage must have before a store is shared on it.
pub proof fn what_sharing_is_refused_for(c: Config, disk: Disk)
    ensures
        cluster_refusal(c, disk) is None <==> !c.cluster || (!disk.backend.native_lock
            && disk.backend.memory_tier && disk.backend.cas),
        c.cluster && disk.backend.native_lock ==> cluster_refusal(c, disk) == Some(
            StoreError::ClusterNeedsObjectStore,
        ),
        c.cluster && !disk.backend.native_lock && !disk.backend.memory_tier ==> cluster_refusal(
            c,
            disk,
        ) == Some(StoreError::ClusterNeedsMemoryTier),
        c.cluster && !disk.backend.native_lock && disk.backend.memory_tier && !disk.backend.cas
            ==> cluster_refusal(c, disk) == Some(StoreError::ClusterNeedsCas),
{
}

/// A version is recorded where the history has it, and it is its own entry that is found.
pub proof fn a_recorded_version_is_found(h: Seq<Entry>, version: u64)
    ensures
        recorded(h, version) matches Some(i) ==> 0 <= i < h.len() && h[i].version == version,
        recorded(h, version) is None <==> forall|i: int|
            0 <= i < h.len() ==> (#[trigger] h[i]).version != version,
    decreases h.len(),
{
    if h.len() > 0 {
        let d = h.drop_last();
        a_recorded_version_is_found(d, version);
        assert forall|i: int| 0 <= i < d.len() implies #[trigger] h[i] == d[i] by {}
        assert(h[h.len() - 1] == h.last());
        if recorded(d, version) is Some {
            let i = recorded(d, version)->0;
            assert(h[i] == d[i]);
        }
    }
}

/// A version can be read where it is recorded, not below the floor and not ahead of the present,
/// and of the shape that is asked for; what is wrong else is told.
pub proof fn which_versions_can_be_read(c: Config, disk: Disk, version: u64)
    ensures
        ({
            let current = match disk.manifest {
                Some(m) => m.version,
                None => 0,
            };
            let refusal = pin_refusal(c, disk, version);
            let there = (exists|i: int|
                0 <= i < disk.history@.len() && (#[trigger] disk.history@[i]).version == version)
                && (disk.floor is None || version >= disk.floor->0);
            &&& is_readable(disk, version) <==> there
            &&& version > current ==> refusal == Some(
                StoreError::VersionAhead { version, current },
            )
            &&& version <= current && !there && disk.floor is Some ==> refusal == Some(
                StoreError::VersionGone { version, oldest: disk.floor->0, current },
            )
            &&& version <= current && !there && disk.floor is None && disk.history@.len() > 0
                ==> refusal == Some(
                StoreError::VersionUnrecorded {
                    version,
                    oldest: disk.history@[0].version,
                    current,
                },
            )
            &&& version <= current && !there && disk.floor is None && disk.history@.len() == 0
                ==> refusal == Some(StoreError::NoHistory { version, current })
            &&& refusal is None ==> there && version <= current && pinned_target(
                disk,
                version,
            ).version == version
        }),
{
    a_recorded_version_is_found(disk.history@, version);
    if is_readable(disk, version) {
        let i = recorded(disk.history@, version)->0;
        assert(disk.history@[i].version == version);
    }
}

/// A stored shape must be the shape that is asked for: its dimension first, then its metric.
pub proof fn a_stored_shape_must_fit(c: Config, disk: Disk)
    ensures
        disk.manifest is None ==> head_refusal(c, disk) is None,
        disk.manifest matches Some(m) ==> {
            &&& head_refusal(c, disk) is None <==> m.dimension == c.dimension && m.distance
                == c.distance
            &&& m.dimension != c.dimension ==> head_refusal(c, disk) == Some(
                StoreError::StoredDimension { stored: m.dimension, want: c.dimension },
            )
            &&& m.dimension == c.dimension && m.distance != c.distance ==> head_refusal(c, disk)
                == Some(StoreError::StoredDistance { stored: m.distance, want: c.distance })
        },
{
}

/// What is opened: the pinned version where one is, else the latest commit, and where there is
/// none a first one, empty.
pub proof fn what_is_opened(c: Config, disk: Disk)
    ensures
        c.at_version matches Some(v) ==> target_of(c, disk) == pinned_target(disk, v),
        c.at_version is None ==> target_of(c, disk) == head_target(disk),
        head_target(disk).bound is None,
        disk.manifest matches Some(m) ==> head_target(disk).version == m.version && head_target(
            disk,
        ).segments == m.segments@ && head_target(disk).next_segment == m.next_segment
            && head_target(disk).profile == m.profile,
        disk.manifest is None ==> head_target(disk).version == 1 && head_target(disk).segments
            == seq![0u64] && head_target(disk).next_segment == 1,
{
}

/// A pinned version is read as it was: what is logged later changes nothing of it.
pub proof fn a_pinned_version_stays_as_it_was(
    c: Config,
    before: Disk,
    after: Disk,
    version: u64,
    rows: nat,
)
    requires
        after.history@ == before.history@,
        before.log@.len() <= after.log@.len(),
        views(after.log@).take(before.log@.len() as int) == views(before.log@),
        recorded(before.history@, version) is Some,
        before.history@[recorded(before.history@, version)->0].ops <= before.log@.len(),
    ensures
        ({
            let e = before.history@[recorded(before.history@, version)->0];
            let was = pinned_target(before, version);
            let is = pinned_target(after, version);
            &&& was == is
            &&& was.segments == e.segments@
            &&& ops_of(before, was) == views(before.log@).take(e.ops as int)
            &&& ops_of(after, is) == ops_of(before, was)
            &&& index_of(c, after, is, rows) == index_of(c, before, was, rows)
            &&& index_of(c, before, was, rows) == replay(
                views(before.log@).take(e.ops as int),
                e.rows,
            )
        }),
{
    let e = before.history@[recorded(before.history@, version)->0];
    let was = pinned_target(before, version);
    assert(views(before.log@).take(before.log@.len() as int) =~= views(before.log@));
    assert(views(after.log@).take(e.ops as int) =~= views(before.log@).take(e.ops as int)) by {
        assert forall|i: int| 0 <= i < e.ops implies views(after.log@)[i] == views(before.log@)[i] by {
            assert(views(after.log@).take(before.log@.len() as int)[i] == views(before.log@)[i]);
        }
    }
    assert(ops_of(before, was) =~= views(before.log@).take(e.ops as int));
    assert(ops_of(after, was) =~= views(after.log@).take(e.ops as int));
}

/// The rows of a store are those of its segments, one after another; the rows of a segment are
/// those of the latest object under its id.
pub proof fn rows_are_gathered_segment_by_segment(
    objects: Seq<Object>,
    o: Object,
    ids: Seq<u64>,
    id: u64,
)
    ensures
        gathered(objects, Seq::<u64>::empty()).len() == 0,
        gathered(objects, ids.push(id)) == gathered(objects, ids) + object_rows(objects, id),
        object_rows(objects.push(o), o.id) == views(o.rows@),
        o.id != id ==> object_rows(objects.push(o), id) == object_rows(objects, id),
        object_rows(Seq::<Object>::empty(), id).len() == 0,
        sized(objects, ids).len() == ids.len(),
        forall|i: int|
            0 <= i < ids.len() ==> (#[trigger] sized(objects, ids)[i]).id == ids[i] && sized(
                objects,
                ids,
            )[i].rows == object_rows(objects, ids[i]).len() as u64,
{
    assert(ids.push(id).drop_last() =~= ids);
    assert(objects.push(o).drop_last() =~= objects);
}

/// When stored rows can be used: some segment, none under another's id or a future one's, rows of
/// the right length, and no more bytes than are allowed.
pub proof fn when_stored_rows_can_be_used(
    c: Config,
    rows: Seq<Seq<u32>>,
    segments: Seq<Segment>,
    next: u64,
)
    ensures
        ({
            let bytes = rows.len() * c.dimension * 4;
            let over = c.max_vector_bytes is Some && bytes > c.max_vector_bytes->0;
            let named = segments.len() > 0 && (forall|i: int|
                0 <= i < segments.len() ==> (#[trigger] segments[i]).id < next) && (forall|
                i: int,
                j: int,
            |
                0 <= i < j < segments.len() ==> (#[trigger] segments[i]).id != (
                #[trigger] segments[j]).id);
            let shaped = forall|i: int|
                0 <= i < rows.len() ==> (#[trigger] rows[i]).len() == c.dimension;
            &&& rows_fault(c, rows, segments, next) is None <==> named && !over && shaped
            &&& !named ==> rows_fault(c, rows, segments, next) == Some(StoreError::DamagedRows)
            &&& named && over ==> rows_fault(c, rows, segments, next) is Some && rows_fault(
                c,
                rows,
                segments,
                next,
            )->0 is OverCap
            &&& named && !over && !shaped ==> rows_fault(c, rows, segments, next) == Some(
                StoreError::DamagedRows,
            )
        }),
{
}

/// A published index is taken over only where it was made for this very state: for the dimension
/// and the metric, after the same log, byte for byte as long, and over as many rows.
pub proof fn which_published_index_is_taken_over(
    c: Config,
    disk: Disk,
    log: Seq<OpV>,
    rows: int,
)
    ensures
        fits_tier(c, disk, log, rows) ==> disk.backend.memory_tier && disk.tier is Some
            && disk.tier->0.dimension == c.dimension && disk.tier->0.distance == c.distance
            && disk.tier->0.watermark == watermark(log) && disk.tier->0.rows == rows,
        disk.tier is None || !disk.backend.memory_tier ==> !fits_tier(c, disk, log, rows),
{
}

/// A history keeps its newest entries, at least one and at most as many as are configured.
pub proof fn the_newest_versions_are_kept(h: Seq<EntryV>, keep: u64, i: int)
    requires
        0 <= i < newest(h, kept_versions(keep)).len(),
    ensures
        ({
            let n = if keep == 0 {
                1int
            } else {
                keep as int
            };
            let out = newest(h, kept_versions(keep));
            &&& out.len() == if h.len() <= n {
                h.len() as int
            } else {
                n
            }
            &&& out[i] == h[h.len() - out.len() + i]
        }),
{
}

/// A commit is recorded behind what was recorded, and what falls off the end moves the floor up to
/// the oldest that is left; without a history nothing is recorded.
pub proof fn a_commit_is_recorded(s: Store, before: Disk, after: Disk)
    requires
        records(s, before, after),
    ensures
        s.config.history_versions is None ==> after.history@ == before.history@ && after.floor
            == before.floor,
        s.config.history_versions matches Some(keep) ==> {
            let n = if keep == 0 {
                1int
            } else {
                keep as int
            };
            &&& after.history@.len() <= n
            &&& before.history@.len() == 0 || before.history@.last().version < s.version ==> {
                &&& after.history@.len() > 0
                &&& after.history@.last().version == s.version
                &&& after.history@.last().rows == s.rows@.len() as u64
                &&& after.history@.last().ops == s.log@.len() as u64
                &&& after.history@.last().segments@ == ids_of(s.segments@)
                &&& after.history@.last().profile == s.profile
            }
            &&& after.floor != before.floor ==> after.floor == Some(after.history@[0].version)
        },
{
    if let Some(keep) = s.config.history_versions {
        let fresh = crate::durable::fresh_entries(s, before);
        let all = views(before.history@) + fresh;
        let n = kept_versions(keep);
        let out = newest(all, n);
        assert(views(after.history@).len() == after.history@.len());
        if before.history@.len() == 0 || before.history@.last().version < s.version {
            assert(fresh.len() > 0);
            assert(all.last() == fresh.last());
            assert(out.last() == all.last());
            assert(views(after.history@)[after.history@.len() - 1] == after.history@.last()@);
        }
        if all.len() > n {
            assert(views(after.history@)[0] == after.history@[0]@);
        }
    }
}

/// Every write changes the token that the next one is conditional on.
pub proof fn every_write_changes_the_token(t: u64)
    ensures
        next_token(t) != t,
        t < 0xffff_ffff_ffff_ffff ==> next_token(t) == t + 1,
        t == 0xffff_ffff_ffff_ffff ==> next_token(t) == 0,
{
}

/// A writer on shared storage that another has superseded, by its lease or by a commit of its own,
/// is refused and fenced; a writer of its own storage never is.
pub proof fn a_superseded_writer_is_refused(s: Store, disk: Disk)
    ensures
        s.in_memory || !s.config.cluster ==> !s.superseded(disk),
        s.shares() && s.anchor != Some(disk.token) ==> s.superseded(disk),
        s.config.open_mode == OpenMode::ReadOnly ==> s.save_refusal(disk) == Some(
            StoreError::ReadOnly,
        ),
        s.config.open_mode == OpenMode::ReadWrite && s.fenced ==> s.save_refusal(disk) == Some(
            StoreError::Fenced,
        ),
        s.config.open_mode == OpenMode::ReadWrite && s.superseded(disk) ==> s.save_refusal(disk)
            == Some(StoreError::Fenced),
        s.config.open_mode == OpenMode::ReadWrite && !s.fenced && !s.superseded(disk)
            ==> s.save_refusal(disk) is None,
{
}

/// Which logged operations a cached text index, or a cached filter index, does not outlive.
pub proof fn which_changes_a_cache_does_not_outlive(op: OpV, log: Seq<OpV>, from: int)
    requires
        0 <= from <= log.len(),
    ensures
        touches_text(op) <==> op is Put || op is Delete || op is DropCollection || op is SetFts,
        touches_attrs(op) <==> op is Put || op is Delete || op is DropCollection
            || op is SetFilterIndex,
        touched(log.push(op), from, |x: OpV| touches_text(x)) <==> touched(
            log,
            from,
            |x: OpV| touches_text(x),
        ) || touches_text(op),
        !touched(log, log.len() as int, |x: OpV| touches_text(x)),
{
    let f = |x: OpV| touches_text(x);
    let more = log.push(op);
    assert(more[log.len() as int] == op);
    if touches_text(op) {
        assert(f(more[log.len() as int]));
    }
    if touched(log, from, f) {
        let i = choose|i: int| from <= i < log.len() && f(#[trigger] log[i]);
        assert(more[i] == log[i]);
        assert(f(more[i]));
    }
    if touched(more, from, f) && !touches_text(op) {
        let i = choose|i: int| from <= i < more.len() && f(#[trigger] more[i]);
        assert(log[i] == more[i]);
        assert(f(log[i]));
    }
}

/// A cached index over all rows is used where it was built for this dimension, metric, kind and
/// copy, and covers no more rows than there are.
pub proof fn which_cached_index_is_used(ann: bool, c: Config, disk: Disk, rows: nat)
    ensures
        ann_cache(ann, c, disk, rows) is Some <==> ann && disk.ann is Some
            && disk.ann->0.dimension == c.dimension && disk.ann->0.distance == c.distance
            && disk.ann->0.kind == c.ann->0.kind && disk.ann->0.quant == (match c.quantization {
            Some(q) => Some(q.kind),
            None => None,
        }) && disk.ann->0.covered <= rows,
        ann_cache(ann, c, disk, rows) matches Some(n) ==> n == disk.ann->0.covered,
{
}

/// The segments whose index is to be saved are those that are marked, in their order.
pub proof fn marked_segments_are_saved(segments: Seq<Segment>, dirty: Seq<bool>, n: int)
    requires
        0 <= n,
    ensures
        dirty_ids(segments, dirty, 0).len() == 0,
        dirty[n] ==> dirty_ids(segments, dirty, n + 1) == dirty_ids(segments, dirty, n).push(
            segments[n].id,
        ),
        !dirty[n] ==> dirty_ids(segments, dirty, n + 1) == dirty_ids(segments, dirty, n),
{
}

/// Only a reader of stored state follows it, and what it follows has moved where the version or
/// the length of the log is another.
pub proof fn what_a_reader_follows(s: Store, disk: Disk)
    ensures
        follows(s) <==> !s.in_memory && s.config.open_mode == OpenMode::ReadOnly,
        disk.manifest matches Some(m) ==> m.version != s.version ==> has_moved(s, disk),
        watermark(views(disk.log@)) != s.loaded_log_offset ==> has_moved(s, disk),
        disk.manifest is Some && disk.manifest->0.version == s.version && watermark(
            views(disk.log@),
        ) == s.loaded_log_offset ==> !has_moved(s, disk),
{
}

/// What a profile may change of a handle that is open: the threads, the copy and the index; and
/// nothing that was chosen when it was opened.
pub proof fn what_a_profile_may_change(s: Store, disk: Disk)
    ensures
        ({
            let p = head_target(disk).profile;
            let c = adopted_config(s, p);
            &&& c == (Config {
                query_threads: c.query_threads,
                quantization: c.quantization,
                ann: c.ann,
                ..s.config
            })
            &&& s.baseline.ann is Some ==> c.ann == s.baseline.ann
            &&& s.baseline.ann is None ==> c.ann == p.ann
            &&& s.baseline.quantization is Some ==> c.quantization == s.baseline.quantization
            &&& s.baseline.quantization is None ==> c.quantization == p.quantization
            &&& s.baseline.threads_chosen || p.query_threads is None ==> c.query_threads
                == s.baseline.query_threads
            &&& !s.baseline.threads_chosen && p.query_threads is Some ==> c.query_threads
                == p.query_threads->0
        }),
{
}

/// Recovery drops the operations that name a row that was never written, and no others.
pub proof fn recovery_drops_what_dangles(ops: Seq<OpV>, op: OpV, rows: u64)
    ensures
        dangles(op, rows) <==> (op matches OpV::Put(_, _, row, _) && row is Some && row->0 >= rows),
        grounded(Seq::<OpV>::empty(), rows).len() == 0,
        dangles(op, rows) ==> grounded(ops.push(op), rows) == grounded(ops, rows),
        !dangles(op, rows) ==> grounded(ops.push(op), rows) == grounded(ops, rows).push(op),
{
    assert(ops.push(op).drop_last() =~= ops);
}

} // verus!
