//! What a store leaves behind when it is closed, and how that is read back.

use vstd::prelude::*;

use crate::config::{no_profile, AnnKind, Config, OpenProfile, QuantKind};
use crate::dict::{views, Dup};
use crate::durable::EntryV;
use crate::index::{
    accounted, is_live, live, live_in, replay, CollsV, Index, IndexV, Op, OpV,
};
use crate::model::{dup_bits, Distance};
use crate::store::{named_apart, rows_in_range, rows_shaped, seg_total, Segment, StoreError};
use crate::wire::{log_size, watermark};
use crate::write::{bytes_of, clamp, clamp_u64, row_bytes};

verus! {

/// What the place that a store is kept in can do.
#[derive(Clone, Copy, Debug, PartialEq, Eq, Structural)]
pub struct Backend {
    /// It belongs to one machine, which locks it itself.
    pub native_lock: bool,
    /// There is a memory tier that several processes share.
    pub memory_tier: bool,
    /// It can replace an object only if that is still the one last seen.
    pub cas: bool,
}

/// The commit point: which segments are live, and under which pins.
#[derive(Clone, Debug)]
pub struct Manifest {
    pub version: u64,
    pub dimension: u64,
    pub distance: Distance,
    /// The ids of the live segments, the active one last.
    pub segments: Vec<u64>,
    pub next_segment: u64,
    pub profile: OpenProfile,
}

/// A recorded commit point, with how much of the rows and of the log belongs to it.
#[derive(Clone, Debug)]
pub struct Entry {
    pub version: u64,
    pub dimension: u64,
    pub distance: Distance,
    pub segments: Vec<u64>,
    pub next_segment: u64,
    pub profile: OpenProfile,
    pub rows: u64,
    /// How many operations of the log belong to it.
    pub ops: u64,
}

/// A segment's rows.
#[derive(Clone, Debug)]
pub struct Object {
    pub id: u64,
    pub rows: Vec<Vec<u32>>,
}

/// An index that was published to the memory tier, and for what.
#[derive(Clone, Debug)]
pub struct Snapshot {
    pub dimension: usize,
    pub distance: Distance,
    /// How long the log was, in bytes.
    pub watermark: u64,
    pub rows: u64,
    pub index: Index,
}

/// The cached nearest-neighbour index: how many rows it covers, and what it was built for. What only
/// a query of it goes by is not part of that.
#[derive(Clone, Copy, Debug, PartialEq, Eq, Structural)]
pub struct AnnCache {
    pub covered: u64,
    pub dimension: usize,
    pub distance: Distance,
    pub kind: AnnKind,
    /// The coarse copy that it was built over, where there was one.
    pub quant: Option<QuantKind>,
}

/// The full-text cache: how long the log was in bytes, and how many of its postings are dead.
#[derive(Clone, Copy, Debug, PartialEq, Eq, Structural)]
pub struct FtsCache {
    pub watermark: u64,
    pub dead: u64,
    pub total: u64,
}

/// What checking a segment against its checksum found.
#[derive(Clone, Copy, Debug, PartialEq, Eq, Structural)]
#[allow(inconsistent_fields)]
pub enum SegmentIntegrity {
    /// The rows that the checksum covers are as they were written.
    Intact { rows_covered: u64, rows_total: u64 },
    /// They are not.
    Mismatch { rows_covered: u64, rows_total: u64 },
    NoChecksum { rows_total: u64 },
}

/// A segment, and what checking it found.
#[derive(Clone, Debug, PartialEq)]
pub struct SegmentReport {
    pub segment: String,
    pub integrity: SegmentIntegrity,
}

/// The durable state of a store, with the shared memory tier and the caches beside it.
#[derive(Clone, Debug)]
pub struct Disk {
    pub backend: Backend,
    pub manifest: Option<Manifest>,
    /// Versions below it are no longer readable.
    pub floor: Option<u64>,
    /// The recorded commit points in the order of their versions.
    pub history: Vec<Entry>,
    pub objects: Vec<Object>,
    pub log: Vec<Op>,
    pub tier: Option<Snapshot>,
    pub ann: Option<AnnCache>,
    pub fts: Option<FtsCache>,
    /// How long the log was, in bytes, when the filter index was cached.
    pub findex: Option<u64>,
    /// The segments whose own index is cached.
    pub sidecars: Vec<u64>,
    /// What a conditional write of the commit point is conditional on: every write changes it.
    pub token: u64,
    /// Who holds the writer lease, in cluster mode.
    pub holder: Option<String>,
}

/// The commit points are on record in the order of their versions, each once, and none of them
/// is past the live one.
pub open spec fn chronicled(disk: Disk) -> bool {
    &&& in_version_order(views(disk.history@))
    &&& disk.history@.len() > 0 ==> (disk.manifest matches Some(m)
        && disk.history@.last().version <= m.version)
}

/// Every version is above the one before it.
pub open spec fn in_version_order(h: Seq<EntryV>) -> bool {
    forall|i: int, j: int|
        0 <= i < j < h.len() ==> (#[trigger] h[i]).version < (#[trigger] h[j]).version
}

impl Disk {
    /// A place where no store has been yet.
    pub fn fresh(backend: Backend) -> (r: Disk)
        ensures
            r.backend == backend,
            r.manifest is None,
            r.floor is None,
            r.history@.len() == 0,
            r.objects@.len() == 0,
            r.log@.len() == 0,
            r.tier is None,
            r.ann is None,
            r.fts is None,
            r.findex is None,
            r.sidecars@.len() == 0,
            r.token == 0,
            r.holder is None,
            chronicled(r),
    {
        Disk {
            backend,
            manifest: None,
            floor: None,
            history: Vec::new(),
            objects: Vec::new(),
            log: Vec::new(),
            tier: None,
            ann: None,
            fts: None,
            findex: None,
            sidecars: Vec::new(),
            token: 0,
            holder: None,
        }
    }
}

// ── Which commit point is opened ────────────────────────────────────────────

/// A commit point to open: its segments and profile, and for a recorded one how many rows and
/// operations belong to it.
#[derive(Clone, Debug)]
pub struct Target {
    pub version: u64,
    pub segments: Vec<u64>,
    pub next_segment: u64,
    pub profile: OpenProfile,
    pub bound: Option<(u64, u64)>,
}

/// What a [`Target`] says.
pub ghost struct TargetV {
    pub version: u64,
    pub segments: Seq<u64>,
    pub next_segment: u64,
    pub profile: OpenProfile,
    pub bound: Option<(u64, u64)>,
}

impl View for Target {
    type V = TargetV;

    open spec fn view(&self) -> TargetV {
        TargetV {
            version: self.version,
            segments: self.segments@,
            next_segment: self.next_segment,
            profile: self.profile,
            bound: self.bound,
        }
    }
}

/// The version of the live commit point, `0` where there is none.
pub open spec fn head(disk: Disk) -> u64 {
    match disk.manifest {
        Some(m) => m.version,
        None => 0,
    }
}

/// The place of a recorded version.
pub open spec fn recorded(history: Seq<Entry>, version: u64) -> Option<int>
    decreases history.len(),
{
    if history.len() == 0 {
        None
    } else if recorded(history.drop_last(), version) is Some {
        recorded(history.drop_last(), version)
    } else if history.last().version == version {
        Some(history.len() - 1)
    } else {
        None
    }
}

/// The version was recorded, and the floor has not risen past it.
pub open spec fn is_readable(disk: Disk, version: u64) -> bool {
    recorded(disk.history@, version) is Some && (disk.floor matches Some(f) ==> version >= f)
}

/// The stored pins are not the ones that were asked for.
pub open spec fn pin_mismatch(
    dimension: u64,
    distance: Distance,
    config: Config,
) -> Option<StoreError> {
    if dimension as int != config.dimension {
        Some(StoreError::StoredDimension { stored: dimension, want: config.dimension })
    } else if distance != config.distance {
        Some(StoreError::StoredDistance { stored: distance, want: config.distance })
    } else {
        None
    }
}

/// Why a recorded version cannot be opened. No other version takes its place.
pub open spec fn pin_refusal(config: Config, disk: Disk, version: u64) -> Option<StoreError> {
    let current = head(disk);
    if version > current {
        Some(StoreError::VersionAhead { version, current })
    } else if !is_readable(disk, version) {
        match disk.floor {
            Some(oldest) => Some(StoreError::VersionGone { version, oldest, current }),
            None => if disk.history@.len() > 0 {
                Some(
                    StoreError::VersionUnrecorded {
                        version,
                        oldest: disk.history@[0].version,
                        current,
                    },
                )
            } else {
                Some(StoreError::NoHistory { version, current })
            },
        }
    } else {
        let e = disk.history@[recorded(disk.history@, version)->0];
        pin_mismatch(e.dimension, e.distance, config)
    }
}

/// A recorded version as a target.
pub open spec fn pinned_target(disk: Disk, version: u64) -> TargetV {
    let e = disk.history@[recorded(disk.history@, version)->0];
    TargetV {
        version: e.version,
        segments: e.segments@,
        next_segment: e.next_segment,
        profile: e.profile,
        bound: Some((e.rows, e.ops)),
    }
}

/// The live commit point as a target; that of a fresh store where there is none.
pub open spec fn head_target(disk: Disk) -> TargetV {
    match disk.manifest {
        Some(m) => TargetV {
            version: m.version,
            segments: m.segments@,
            next_segment: m.next_segment,
            profile: m.profile,
            bound: None,
        },
        None => TargetV {
            version: 1,
            segments: seq![0u64],
            next_segment: 1,
            profile: no_profile(),
            bound: None,
        },
    }
}

/// Why the live commit point does not fit the pins.
pub open spec fn head_refusal(config: Config, disk: Disk) -> Option<StoreError> {
    match disk.manifest {
        Some(m) => pin_mismatch(m.dimension, m.distance, config),
        None => None,
    }
}

pub(crate) fn dup_ids(v: &Vec<u64>) -> (out: Vec<u64>)
    ensures
        out@ == v@,
{
    let mut out: Vec<u64> = Vec::new();
    let mut i: usize = 0;
    while i < v.len()
        invariant
            i <= v@.len(),
            out@ == v@.take(i as int),
        decreases v@.len() - i,
    {
        out.push(v[i]);
        proof {
            assert(out@ =~= v@.take(i + 1));
        }
        i = i + 1;
    }
    proof {
        assert(v@.take(i as int) =~= v@);
    }
    out
}

proof fn recorded_prefix(history: Seq<Entry>, n: int, version: u64)
    requires
        0 <= n <= history.len(),
        recorded(history.take(n), version) is Some,
    ensures
        recorded(history, version) == recorded(history.take(n), version),
    decreases history.len() - n,
{
    if n < history.len() {
        assert(history.take(n + 1).drop_last() =~= history.take(n));
        recorded_prefix(history, n + 1, version);
    } else {
        assert(history.take(n) =~= history);
    }
}

fn find_entry(history: &Vec<Entry>, version: u64) -> (r: Option<usize>)
    ensures
        match recorded(history@, version) {
            Some(i) => r matches Some(j) && i == j && j < history@.len(),
            None => r is None,
        },
{
    let mut i: usize = 0;
    proof {
        assert(history@.take(0) =~= Seq::empty());
    }
    while i < history.len()
        invariant
            i <= history@.len(),
            recorded(history@.take(i as int), version) is None,
        decreases history@.len() - i,
    {
        proof {
            assert(history@.take(i + 1).drop_last() =~= history@.take(i as int));
            assert(history@.take(i + 1).last() == history@[i as int]);
        }
        if history[i].version == version {
            proof {
                recorded_prefix(history@, i + 1, version);
            }
            return Some(i);
        }
        i = i + 1;
    }
    proof {
        assert(history@.take(i as int) =~= history@);
    }
    None
}

fn check_pins(dimension: u64, distance: Distance, config: &Config) -> (r: Result<(), StoreError>)
    ensures
        match pin_mismatch(dimension, distance, *config) {
            Some(e) => r == Err::<(), StoreError>(e),
            None => r is Ok,
        },
{
    if dimension != config.dimension as u64 {
        return Err(StoreError::StoredDimension { stored: dimension, want: config.dimension });
    }
    if distance != config.distance {
        return Err(StoreError::StoredDistance { stored: distance, want: config.distance });
    }
    Ok(())
}

/// Find a recorded version: it must exist, be no older than the floor, and fit the pins.
pub fn resolve_pinned_entry(config: &Config, disk: &Disk, version: u64) -> (r: Result<
    Target,
    StoreError,
>)
    ensures
        match pin_refusal(*config, *disk, version) {
            Some(e) => r == Err::<Target, StoreError>(e),
            None => r matches Ok(t) && t@ == pinned_target(*disk, version),
        },
{
    let current: u64 = match &disk.manifest {
        Some(m) => m.version,
        None => 0,
    };
    if version > current {
        return Err(StoreError::VersionAhead { version, current });
    }
    let found = find_entry(&disk.history, version);
    let above = match disk.floor {
        Some(f) => version >= f,
        None => true,
    };
    if let Some(i) = found {
        if above {
            let e = &disk.history[i];
            return match check_pins(e.dimension, e.distance, config) {
                Err(err) => Err(err),
                Ok(()) => Ok(
                    Target {
                        version: e.version,
                        segments: dup_ids(&e.segments),
                        next_segment: e.next_segment,
                        profile: e.profile,
                        bound: Some((e.rows, e.ops)),
                    },
                ),
            };
        }
    }
    match disk.floor {
        Some(oldest) => Err(StoreError::VersionGone { version, oldest, current }),
        None => if disk.history.len() > 0 {
            Err(
                StoreError::VersionUnrecorded {
                    version,
                    oldest: disk.history[0].version,
                    current,
                },
            )
        } else {
            Err(StoreError::NoHistory { version, current })
        },
    }
}

/// Find the live commit point.
pub fn resolve_head(config: &Config, disk: &Disk) -> (r: Result<Target, StoreError>)
    ensures
        match head_refusal(*config, *disk) {
            Some(e) => r == Err::<Target, StoreError>(e),
            None => r matches Ok(t) && t@ == head_target(*disk),
        },
{
    match &disk.manifest {
        Some(m) => match check_pins(m.dimension, m.distance, config) {
            Err(e) => Err(e),
            Ok(()) => Ok(
                Target {
                    version: m.version,
                    segments: dup_ids(&m.segments),
                    next_segment: m.next_segment,
                    profile: m.profile,
                    bound: None,
                },
            ),
        },
        None => {
            let mut segments: Vec<u64> = Vec::new();
            segments.push(0);
            proof {
                assert(segments@ =~= seq![0u64]);
            }
            Ok(
                Target {
                    version: 1,
                    segments,
                    next_segment: 1,
                    profile: OpenProfile::default(),
                    bound: None,
                },
            )
        },
    }
}

// ── Reading the rows ────────────────────────────────────────────────────────

/// The rows of a segment; one whose object is not there has none.
pub open spec fn object_rows(objects: Seq<Object>, id: u64) -> Seq<Seq<u32>>
    decreases objects.len(),
{
    if objects.len() == 0 {
        Seq::empty()
    } else if objects.last().id == id {
        views(objects.last().rows@)
    } else {
        object_rows(objects.drop_last(), id)
    }
}

/// The rows of several segments in one row space.
pub open spec fn gathered(objects: Seq<Object>, ids: Seq<u64>) -> Seq<Seq<u32>>
    decreases ids.len(),
{
    if ids.len() == 0 {
        Seq::empty()
    } else {
        gathered(objects, ids.drop_last()) + object_rows(objects, ids.last())
    }
}

/// The segments with the number of their rows.
pub open spec fn sized(objects: Seq<Object>, ids: Seq<u64>) -> Seq<Segment> {
    ids.map_values(
        |id: u64| Segment { id, rows: object_rows(objects, id).len() as u64 },
    )
}

/// Every row has `dim` components.
pub open spec fn shaped(rows: Seq<Seq<u32>>, dim: int) -> bool {
    forall|i: int| 0 <= i < rows.len() ==> (#[trigger] rows[i]).len() == dim
}

/// Why rows cut into segments cannot be opened: there are no segments, they do not bear names of
/// their own, the rows outgrow the cap, or one of them has the wrong length.
pub open spec fn rows_fault(
    config: Config,
    rows: Seq<Seq<u32>>,
    segments: Seq<Segment>,
    next_segment: u64,
) -> Option<StoreError> {
    let bytes = row_bytes(rows.len() as int, config.dimension);
    if segments.len() == 0 || !named_apart(segments, next_segment) {
        Some(StoreError::DamagedRows)
    } else if config.max_vector_bytes matches Some(cap) && bytes > cap {
        Some(
            StoreError::OverCap {
                bytes: clamp_u64(bytes),
                cap: config.max_vector_bytes->0,
            },
        )
    } else if !shaped(rows, config.dimension as int) {
        Some(StoreError::DamagedRows)
    } else {
        None
    }
}

/// The place of the object that holds a segment's rows.
fn object_of(objects: &Vec<Object>, id: u64) -> (r: Option<usize>)
    ensures
        match r {
            Some(i) => i < objects@.len() && views(objects@[i as int].rows@) == object_rows(
                objects@,
                id,
            ),
            None => object_rows(objects@, id).len() == 0,
        },
{
    let ghost all = objects@;
    let mut i: usize = objects.len();
    proof {
        assert(all.take(i as int) =~= all);
    }
    while i > 0
        invariant
            i <= all.len(),
            all == objects@,
            object_rows(all.take(i as int), id) == object_rows(all, id),
        decreases i,
    {
        proof {
            assert(all.take(i as int).drop_last() =~= all.take(i - 1));
            assert(all.take(i as int).last() == all[i - 1]);
        }
        if objects[i - 1].id == id {
            return Some(i - 1);
        }
        i = i - 1;
    }
    proof {
        assert(all.take(0) =~= Seq::empty());
    }
    None
}

/// Read the rows of several segments, and how many each has.
pub(crate) fn gather(objects: &Vec<Object>, ids: &Vec<u64>) -> (r: (Vec<Vec<u32>>, Vec<Segment>))
    ensures
        views(r.0@) == gathered(objects@, ids@),
        r.1@ == sized(objects@, ids@),
        seg_total(r.1@) == r.0@.len(),
{
    let mut rows: Vec<Vec<u32>> = Vec::new();
    let mut segments: Vec<Segment> = Vec::new();
    let mut i: usize = 0;
    proof {
        assert(ids@.take(0) =~= Seq::empty());
        assert(views(rows@) =~= Seq::empty());
        assert(segments@ =~= sized(objects@, ids@.take(0)));
    }
    while i < ids.len()
        invariant
            i <= ids@.len(),
            views(rows@) == gathered(objects@, ids@.take(i as int)),
            segments@ == sized(objects@, ids@.take(i as int)),
            seg_total(segments@) == rows@.len(),
        decreases ids@.len() - i,
    {
        let ghost before = views(rows@);
        let ghost segs = segments@;
        let id: u64 = ids[i];
        let ghost own = object_rows(objects@, id);
        let mut n: u64 = 0;
        match object_of(objects, id) {
            Some(at) => {
                let src = &objects[at].rows;
                let mut j: usize = 0;
                proof {
                    assert(before + own.take(0) =~= before);
                }
                while j < src.len()
                    invariant
                        j <= src@.len(),
                        own == views(src@),
                        views(rows@) == before + own.take(j as int),
                    decreases src@.len() - j,
                {
                    let r = dup_bits(&src[j]);
                    proof {
                        assert(own[j as int] == r@);
                    }
                    let ghost prior = views(rows@);
                    rows.push(r);
                    proof {
                        assert(views(rows@) =~= prior.push(r@));
                        assert(views(rows@) =~= before + own.take(j + 1));
                    }
                    j = j + 1;
                }
                proof {
                    assert(own.take(j as int) =~= own);
                }
                n = src.len() as u64;
            },
            None => {
                proof {
                    assert(before + own =~= before);
                }
            },
        }
        segments.push(Segment { id, rows: n });
        proof {
            assert(ids@.take(i + 1).drop_last() =~= ids@.take(i as int));
            assert(segments@ =~= sized(objects@, ids@.take(i + 1)));
            assert(segments@.drop_last() =~= segs);
        }
        i = i + 1;
    }
    proof {
        assert(ids@.take(i as int) =~= ids@);
    }
    (rows, segments)
}

fn all_shaped(rows: &Vec<Vec<u32>>, dim: usize) -> (r: bool)
    ensures
        r == shaped(views(rows@), dim as int),
        r ==> rows_shaped(rows@, dim as nat),
{
    let mut i: usize = 0;
    while i < rows.len()
        invariant
            i <= rows@.len(),
            forall|j: int| 0 <= j < i ==> (#[trigger] rows@[j])@.len() == dim,
        decreases rows@.len() - i,
    {
        if rows[i].len() != dim {
            proof {
                assert(views(rows@)[i as int].len() != dim);
            }
            return false;
        }
        i = i + 1;
    }
    proof {
        assert forall|j: int| 0 <= j < rows@.len() implies (#[trigger] views(rows@)[j]).len()
            == dim by {
            assert(rows@[j]@.len() == dim);
        }
    }
    true
}

fn are_apart(segments: &Vec<Segment>, next: u64) -> (r: bool)
    ensures
        r == named_apart(segments@, next),
{
    let mut i: usize = 0;
    while i < segments.len()
        invariant
            i <= segments@.len(),
            forall|x: int| 0 <= x < i ==> (#[trigger] segments@[x]).id < next,
            forall|x: int, y: int|
                0 <= x < y < i ==> (#[trigger] segments@[x]).id != (#[trigger] segments@[y]).id,
        decreases segments@.len() - i,
    {
        if segments[i].id >= next {
            return false;
        }
        let mut j: usize = 0;
        while j < i
            invariant
                j <= i < segments@.len(),
                forall|x: int| 0 <= x < j ==> (#[trigger] segments@[x]).id != segments@[i as int].id,
            decreases i - j,
        {
            if segments[j].id == segments[i].id {
                return false;
            }
            j = j + 1;
        }
        i = i + 1;
    }
    true
}

/// Refuse rows that cannot be opened. `kept` of them, which come before the `fresh` ones, are known
/// to have the right length.
pub(crate) fn check_rows(
    config: &Config,
    kept: usize,
    fresh: &Vec<Vec<u32>>,
    segments: &Vec<Segment>,
    next_segment: u64,
    Ghost(front): Ghost<Seq<Seq<u32>>>,
) -> (r: Result<(), StoreError>)
    requires
        kept == front.len(),
        shaped(front, config.dimension as int),
    ensures
        match rows_fault(*config, front + views(fresh@), segments@, next_segment) {
            Some(e) => r == Err::<(), StoreError>(e),
            None => r is Ok && segments@.len() >= 1 && named_apart(segments@, next_segment)
                && rows_shaped(fresh@, config.dimension as nat),
        },
{
    let ghost all = front + views(fresh@);
    if segments.len() == 0 {
        return Err(StoreError::DamagedRows);
    }
    if !are_apart(segments, next_segment) {
        return Err(StoreError::DamagedRows);
    }
    if let Some(cap) = config.max_vector_bytes {
        match bytes_of(kept, fresh.len(), config.dimension) {
            Some(bytes) => {
                if bytes > cap as u128 {
                    return Err(StoreError::OverCap { bytes: clamp(bytes), cap });
                }
            },
            None => {
                return Err(StoreError::OverCap { bytes: u64::MAX, cap });
            },
        }
    }
    if !all_shaped(fresh, config.dimension) {
        proof {
            let i = choose|i: int|
                0 <= i < views(fresh@).len() && (#[trigger] views(fresh@)[i]).len()
                    != config.dimension;
            assert(all[front.len() + i] == views(fresh@)[i]);
        }
        return Err(StoreError::DamagedRows);
    }
    proof {
        assert(shaped(all, config.dimension as int)) by {
            assert forall|i: int| 0 <= i < all.len() implies (#[trigger] all[i]).len()
                == config.dimension by {
                if i < front.len() {
                    assert(all[i] == front[i]);
                } else {
                    assert(all[i] == views(fresh@)[i - front.len()]);
                }
            }
        }
    }
    Ok(())
}

// ── Adopting a published index ──────────────────────────────────────────────

/// An index that a store over so many rows, with a log of so many operations, can have.
pub open spec fn sound_index(ix: IndexV, rows: int, ops: int) -> bool {
    &&& live(ix.collections).finite()
    &&& rows_in_range(ix.collections, rows)
    &&& accounted(ix) <= rows + ops
}

/// The published index is the one for a store with this log and so many rows: of the same shape, for
/// a log and a row space of the same length, and undamaged.
pub open spec fn fits_tier(config: Config, disk: Disk, log: Seq<OpV>, rows: int) -> bool {
    disk.backend.memory_tier && (disk.tier matches Some(s) && {
        &&& s.dimension == config.dimension
        &&& s.distance == config.distance
        &&& s.watermark == watermark(log)
        &&& s.rows == rows
        &&& sound_index(s.index@, rows, log.len() as int)
    })
}

/// The published index is the one for this store as it stands.
pub open spec fn adoptable(config: Config, disk: Disk, rows: int) -> bool {
    fits_tier(config, disk, views(disk.log@), rows)
}

/// The index of the live commit point: the published one where it is current, else what the log
/// replays to.
pub open spec fn head_index(config: Config, disk: Disk, rows: int) -> IndexV {
    if adoptable(config, disk, rows) {
        disk.tier->0.index@
    } else {
        replay(views(disk.log@), rows as u64)
    }
}

/// A published index that its publisher replayed from the same log is what a replay gives:
/// adopting it changes nothing.
pub proof fn adopting_is_replaying(config: Config, disk: Disk, rows: int)
    requires
        disk.tier matches Some(s) ==> s.index@ == replay(views(disk.log@), s.rows),
    ensures
        head_index(config, disk, rows) == replay(views(disk.log@), rows as u64),
{
}

fn rows_below(docs: &crate::dict::Dict<crate::index::Doc>, rows: u64) -> (r: bool)
    ensures
        r == forall|id: Seq<char>|
            docs@.contains_key(id) && (#[trigger] docs@[id]).row is Some ==> docs@[id].row->0 < rows,
{
    let ghost e = docs.entries();
    let mut i: usize = 0;
    while i < docs.len()
        invariant
            i <= e.len(),
            e == docs.entries(),
            forall|j: int|
                0 <= j < i && (#[trigger] e[j]).1.row is Some ==> e[j].1.row->0 < rows,
        decreases e.len() - i,
    {
        if let Some(row) = docs.value_at(i).row {
            if row >= rows {
                proof {
                    crate::dict::to_map_at(e, i as int);
                    let id = e[i as int].0;
                    assert(docs@.contains_key(id) && docs@[id].row is Some);
                }
                return false;
            }
        }
        i = i + 1;
    }
    proof {
        assert forall|id: Seq<char>|
            docs@.contains_key(id) && (#[trigger] docs@[id]).row is Some implies docs@[id].row->0
            < rows by {
            assert(crate::dict::has_key(e, id));
            let j = choose|j: int| 0 <= j < e.len() && (#[trigger] e[j]).0 == id;
            crate::dict::to_map_at(e, j);
        }
    }
    true
}

/// The live documents of the first `n` collections.
pub open spec fn live_upto(
    cols: CollsV,
    e: Seq<(Seq<char>, crate::index::CollV)>,
    n: int,
) -> Set<(Seq<char>, Seq<char>)> {
    Set::new(
        |p: (Seq<char>, Seq<char>)|
            is_live(cols, p) && exists|j: int| 0 <= j < n && (#[trigger] e[j]).0 == p.0,
    )
}

/// Count the documents that have a row, where each has one below `rows`.
fn count_live(index: &Index, rows: u64) -> (r: Option<u128>)
    ensures
        live(index@.collections).finite(),
        match r {
            Some(n) => rows_in_range(index@.collections, rows as int) && n == live(
                index@.collections,
            ).len() && n <= usize::MAX * usize::MAX,
            None => !rows_in_range(index@.collections, rows as int),
        },
{
    let ghost cols = index@.collections;
    let ghost e = index.collections.entries();
    let mut n: u128 = 0;
    let mut fits = true;
    let mut i: usize = 0;
    let count: usize = index.collections.len();
    proof {
        assert(live_upto(cols, e, 0) =~= Set::empty());
    }
    while i < count
        invariant
            i <= count,
            count == e.len(),
            e == index.collections.entries(),
            cols == index@.collections,
            crate::dict::ascending(e),
            cols == crate::dict::to_map(e),
            n <= i * usize::MAX,
            live_upto(cols, e, i as int).finite(),
            live_upto(cols, e, i as int).len() == n,
            fits ==> forall|j: int, id: Seq<char>|
                0 <= j < i && is_live(cols, (e[j].0, id)) ==> (
                #[trigger] cols[e[j].0].docs[id]).row->0 < rows,
            !fits ==> !rows_in_range(cols, rows as int),
        decreases e.len() - i,
    {
        let col = index.collections.value_at(i);
        let ghost name = e[i as int].0;
        proof {
            crate::dict::to_map_at(e, i as int);
            crate::dict::ascending_distinct(e);
            assert(cols[name] == col@);
        }
        if !rows_below(&col.docs, rows) {
            fits = false;
            proof {
                let id = choose|id: Seq<char>|
                    col.docs@.contains_key(id) && (#[trigger] col.docs@[id]).row is Some
                        && col.docs@[id].row->0 >= rows;
                assert(is_live(cols, (name, id)));
                assert(cols[name].docs[id].row->0 >= rows);
            }
        }
        let own: usize = col.rowed(Ghost(cols), Ghost(name));
        proof {
            let a = live_upto(cols, e, i as int);
            let b = live_in(cols, name);
            let next = live_upto(cols, e, i + 1);
            assert forall|p: (Seq<char>, Seq<char>)| next.contains(p) == a.union(b).contains(p) by {
                if b.contains(p) {
                    assert(e[i as int].0 == p.0);
                }
                if next.contains(p) && !a.contains(p) {
                    let j = choose|j: int| 0 <= j < i + 1 && (#[trigger] e[j]).0 == p.0;
                    assert(j == i);
                }
            }
            assert(next =~= a.union(b));
            assert(a.disjoint(b)) by {
                assert forall|p: (Seq<char>, Seq<char>)| a.contains(p) implies !b.contains(p) by {
                    let j = choose|j: int| 0 <= j < i && (#[trigger] e[j]).0 == p.0;
                    assert(e[j].0 != e[i as int].0);
                }
            }
            vstd::set_lib::lemma_set_disjoint_lens(a, b);
            assert(i * usize::MAX + own <= (i + 1) * usize::MAX) by (nonlinear_arith)
                requires
                    own <= usize::MAX,
            ;
            assert((i + 1) * usize::MAX <= usize::MAX * usize::MAX) by (nonlinear_arith)
                requires
                    i + 1 <= usize::MAX,
            ;
            assert(usize::MAX * usize::MAX < 0x1_0000_0000_0000_0000 * 0x1_0000_0000_0000_0000)
                by (nonlinear_arith)
                requires
                    usize::MAX < 0x1_0000_0000_0000_0000,
            ;
        }
        n = n + own as u128;
        i = i + 1;
    }
    proof {
        assert forall|p: (Seq<char>, Seq<char>)| live(cols).contains(p) == live_upto(
            cols,
            e,
            i as int,
        ).contains(p) by {
            if live(cols).contains(p) {
                assert(crate::dict::has_key(e, p.0));
            }
        }
        assert(live(cols) =~= live_upto(cols, e, i as int));
        if fits {
            assert forall|c: Seq<char>, id: Seq<char>| is_live(cols, (c, id)) implies (
            #[trigger] cols[c].docs[id]).row->0 < rows by {
                assert(crate::dict::has_key(e, c));
                let j = choose|j: int| 0 <= j < e.len() && (#[trigger] e[j]).0 == c;
                assert(is_live(cols, (e[j].0, id)));
                assert(cols[e[j].0].docs[id].row->0 < rows);
            }
        }
    }
    proof {
        assert(i * usize::MAX <= usize::MAX * usize::MAX) by (nonlinear_arith)
            requires
                i <= usize::MAX,
        ;
    }
    if fits {
        Some(n)
    } else {
        None
    }
}

fn is_sound(index: &Index, rows: u64, ops: usize) -> (r: bool)
    ensures
        r == sound_index(index@, rows as int, ops as int),
{
    match count_live(index, rows) {
        Some(n) => {
            proof {
                assert(usize::MAX * usize::MAX + usize::MAX <= u128::MAX) by (nonlinear_arith)
                    requires
                        usize::MAX <= 0xffff_ffff_ffff_ffff,
                        u128::MAX == 0xffff_ffff_ffff_ffff_ffff_ffff_ffff_ffff,
                ;
            }
            n + index.dead_rows as u128 <= rows as u128 + ops as u128
        },
        None => false,
    }
}

/// Adopt the published index where it is current; a missing, stale or damaged one is declined and
/// the caller replays the log.
pub fn try_adopt(config: &Config, disk: &Disk, rows: u64) -> (r: Option<Index>)
    ensures
        match r {
            Some(ix) => adoptable(*config, *disk, rows as int) && ix@ == disk.tier->0.index@,
            None => !adoptable(*config, *disk, rows as int),
        },
{
    match &disk.tier {
        Some(s) => {
            proof {
                assert(views(disk.log@).len() == disk.log@.len());
            }
            if disk.backend.memory_tier && s.dimension == config.dimension && s.distance
                == config.distance && s.rows == rows && s.watermark == log_size(&disk.log)
                && is_sound(&s.index, rows, disk.log.len()) {
                Some(s.index.dup())
            } else {
                None
            }
        },
        None => None,
    }
}

} // verus!
