//! A log that is ahead of its rows. Rows are written before the operations that refer to them, but
//! a crash can leave an operation whose row never arrived. A reader passes over it; a writer takes
//! it out of the log before it writes more rows, one of which would else be taken for the lost one.

use vstd::prelude::*;

use crate::config::Config;
use crate::dict::{views, Dup};
use crate::disk::{
    adoptable, chronicled, dup_ids, fits_tier, gathered, head_index, head_target, in_version_order,
    Disk, Entry,
};
use crate::durable::{committed, published, saved, EntryV};
use crate::index::{apply, replay, rows_within, Op, OpV};
use crate::store::Store;
use crate::wire::{a_log_grows, log_bytes, watermark};

verus! {

/// The operation refers to a row that is not there.
pub open spec fn dangles(op: OpV, rows: u64) -> bool {
    op matches OpV::Put(_, _, Some(row), _) && row >= rows
}

/// The operations whose rows are there.
pub open spec fn grounded(ops: Seq<OpV>, rows: u64) -> Seq<OpV>
    decreases ops.len(),
{
    if ops.len() == 0 {
        Seq::empty()
    } else if dangles(ops.last(), rows) {
        grounded(ops.drop_last(), rows)
    } else {
        grounded(ops.drop_last(), rows).push(ops.last())
    }
}

/// How many of the first `n` operations have their rows.
pub open spec fn grounded_upto(ops: Seq<OpV>, rows: u64, n: u64) -> u64 {
    if n < ops.len() {
        grounded(ops.take(n as int), rows).len() as u64
    } else {
        grounded(ops, rows).len() as u64
    }
}

/// The recorded commit points, over the log that is left.
pub open spec fn recounted(h: Seq<EntryV>, ops: Seq<OpV>, rows: u64) -> Seq<EntryV> {
    h.map_values(|e: EntryV| EntryV { ops: grounded_upto(ops, rows, e.ops), ..e })
}

/// The durable state without the operations whose rows are not there. The recorded commit points
/// lose the same ones. Where there are none, nothing changes.
pub open spec fn recovered(rows: u64, before: Disk, after: Disk) -> bool {
    let ops = views(before.log@);
    if rows_within(ops, rows) {
        after == before
    } else {
        &&& after == (Disk { log: after.log, history: after.history, ..before })
        &&& views(after.log@) == grounded(ops, rows)
        &&& views(after.history@) == recounted(views(before.history@), ops, rows)
    }
}

/// What is left of a log has all its rows.
pub proof fn what_is_left_is_grounded(ops: Seq<OpV>, rows: u64)
    ensures
        rows_within(grounded(ops, rows), rows),
        grounded(ops, rows).len() <= ops.len(),
        rows_within(ops, rows) ==> grounded(ops, rows) == ops,
    decreases ops.len(),
{
    if ops.len() > 0 {
        let d = ops.drop_last();
        what_is_left_is_grounded(d, rows);
        if rows_within(ops, rows) {
            assert forall|i: int| 0 <= i < d.len() implies (#[trigger] d[i] matches OpV::Put(
                _,
                _,
                Some(row),
                _,
            ) ==> row < rows) by {
                assert(d[i] == ops[i]);
            }
            assert(ops[ops.len() - 1] == ops.last());
            assert(d.push(ops.last()) =~= ops);
        }
    }
}

/// What is taken out of a log had no effect: over those rows, or over fewer, what is left replays to
/// the same index.
pub proof fn recovery_changes_no_index(ops: Seq<OpV>, rows: u64, over: u64)
    requires
        over <= rows,
    ensures
        replay(grounded(ops, rows), over) == replay(ops, over),
    decreases ops.len(),
{
    if ops.len() > 0 {
        let d = ops.drop_last();
        recovery_changes_no_index(d, rows, over);
        if dangles(ops.last(), rows) {
            assert(apply(replay(d, over), ops.last(), over) == replay(d, over));
        } else {
            assert(grounded(ops, rows).drop_last() =~= grounded(d, rows));
        }
    }
}

proof fn grounded_prefix(ops: Seq<OpV>, rows: u64, n: int)
    requires
        0 <= n <= ops.len(),
    ensures
        grounded(ops.take(n), rows).len() <= grounded(ops, rows).len(),
        grounded(ops, rows).take(grounded(ops.take(n), rows).len() as int) == grounded(
            ops.take(n),
            rows,
        ),
    decreases ops.len(),
{
    if n == ops.len() {
        assert(ops.take(n) =~= ops);
        assert(grounded(ops, rows).take(grounded(ops, rows).len() as int) =~= grounded(ops, rows));
    } else {
        let d = ops.drop_last();
        grounded_prefix(d, rows, n);
        assert(d.take(n) =~= ops.take(n));
        let m = grounded(ops.take(n), rows).len() as int;
        if !dangles(ops.last(), rows) {
            assert(grounded(ops, rows).take(m) =~= grounded(d, rows).take(m));
        }
    }
}

/// A recovery changes no recorded commit point: over its own rows, the operations that belong to it
/// afterwards replay to what they did before.
pub proof fn recovery_keeps_the_versions(rows: u64, before: Disk, after: Disk, i: int)
    requires
        recovered(rows, before, after),
        0 <= i < before.history@.len(),
        before.history@[i].rows <= rows,
        before.log@.len() <= u64::MAX,
    ensures
        ({
            let a = before.history@[i];
            let b = after.history@[i];
            &&& a.version == b.version
            &&& a.segments@ == b.segments@
            &&& a.rows == b.rows
            &&& replay(first(views(after.log@), b.ops), b.rows) == replay(
                first(views(before.log@), a.ops),
                a.rows,
            )
        }),
{
    let ops = views(before.log@);
    assert(views(before.log@).len() == before.log@.len());
    if !rows_within(ops, rows) {
        let a = before.history@[i];
        let b = after.history@[i];
        assert(views(after.history@).len() == after.history@.len());
        assert(views(before.history@)[i] == a@);
        assert(views(after.history@)[i] == b@);
        what_is_left_is_grounded(ops, rows);
        let n = if a.ops < ops.len() {
            a.ops as int
        } else {
            ops.len() as int
        };
        assert(ops.take(ops.len() as int) =~= ops);
        grounded_prefix(ops, rows, n);
        let left = grounded(ops, rows);
        assert(left.take(left.len() as int) =~= left);
        assert(first(left, b.ops) == grounded(ops.take(n), rows));
        assert(first(ops, a.ops) == ops.take(n));
        recovery_changes_no_index(ops.take(n), rows, a.rows);
    }
}

/// The first `n` operations, or all where there are fewer.
pub open spec fn first(ops: Seq<OpV>, n: u64) -> Seq<OpV> {
    if n < ops.len() {
        ops.take(n as int)
    } else {
        ops
    }
}

/// A recovery keeps the record of commit points in the order of their versions.
pub proof fn a_recovery_keeps_the_record_in_order(rows: u64, before: Disk, after: Disk)
    requires
        recovered(rows, before, after),
        chronicled(before),
    ensures
        chronicled(after),
{
    let a = views(before.history@);
    let b = views(after.history@);
    if !rows_within(views(before.log@), rows) {
        assert(b.len() == a.len());
        assert forall|i: int, j: int| 0 <= i < j < b.len() implies (#[trigger] b[i]).version < (
        #[trigger] b[j]).version by {
            assert(a[i].version < a[j].version);
        }
        assert(in_version_order(b));
        if b.len() > 0 {
            let n = b.len() - 1;
            assert(b[n].version == after.history@.last().version);
            assert(a[n].version == before.history@.last().version);
        }
    }
}

fn is_dangling(op: &Op, rows: u64) -> (r: bool)
    ensures
        r == dangles(op@, rows),
{
    match op {
        Op::Upsert { row, .. } => *row >= rows,
        _ => false,
    }
}

/// Take the operations whose rows are not there out of the log.
pub(crate) fn recover(disk: &mut Disk, rows: u64)
    ensures
        recovered(rows, *old(disk), *final(disk)),
{
    let ghost ops = views(disk.log@);
    let mut left: Vec<Op> = Vec::new();
    let mut counts: Vec<u64> = Vec::new();
    let mut i: usize = 0;
    counts.push(0);
    proof {
        assert(ops.take(0) =~= Seq::empty());
        assert(views(left@) =~= Seq::empty());
    }
    while i < disk.log.len()
        invariant
            i <= disk.log@.len(),
            ops == views(disk.log@),
            views(left@) == grounded(ops.take(i as int), rows),
            left@.len() <= i,
            counts@.len() == i + 1,
            forall|j: int|
                0 <= j <= i ==> #[trigger] counts@[j] == grounded(ops.take(j), rows).len(),
            (left@.len() == i) <==> rows_within(ops.take(i as int), rows),
        decreases disk.log@.len() - i,
    {
        let ghost t = ops.take(i as int);
        let ghost u = ops.take(i + 1);
        proof {
            assert(u.drop_last() =~= t);
            assert(u.last() == disk.log@[i as int]@);
            assert forall|j: int| 0 <= j < t.len() implies t[j] == #[trigger] u[j] by {}
        }
        if !is_dangling(&disk.log[i], rows) {
            let ghost prior = views(left@);
            left.push(disk.log[i].dup());
            proof {
                assert(views(left@) =~= prior.push(disk.log@[i as int]@));
                if rows_within(t, rows) {
                    assert(rows_within(u, rows));
                }
                if rows_within(u, rows) {
                    assert forall|j: int| 0 <= j < t.len() implies (
                    #[trigger] t[j] matches OpV::Put(_, _, Some(row), _) ==> row < rows) by {
                        assert(t[j] == u[j]);
                    }
                }
            }
        } else {
            proof {
                assert(dangles(u[i as int], rows));
                assert(!rows_within(u, rows));
            }
        }
        proof {
            assert(views(left@).len() == left@.len());
        }
        counts.push(left.len() as u64);
        i = i + 1;
    }
    proof {
        assert(ops.take(i as int) =~= ops);
    }
    if left.len() == disk.log.len() {
        return;
    }
    let ghost before = *disk;
    let ghost h = views(disk.history@);
    let mut history: Vec<Entry> = Vec::new();
    let mut j: usize = 0;
    while j < disk.history.len()
        invariant
            j <= disk.history@.len(),
            *disk == before,
            ops == views(disk.log@),
            h == views(disk.history@),
            counts@.len() == ops.len() + 1,
            forall|x: int|
                0 <= x <= ops.len() ==> #[trigger] counts@[x] == grounded(ops.take(x), rows).len(),
            history@.len() == j,
            forall|x: int|
                0 <= x < j ==> (#[trigger] history@[x])@ == recounted(h, ops, rows)[x],
        decreases disk.history@.len() - j,
    {
        let e = &disk.history[j];
        let total: usize = disk.log.len();
        let n: usize = if e.ops < total as u64 {
            e.ops as usize
        } else {
            total
        };
        proof {
            assert(ops.take(ops.len() as int) =~= ops);
            assert(h[j as int] == disk.history@[j as int]@);
        }
        history.push(
            Entry {
                version: e.version,
                dimension: e.dimension,
                distance: e.distance,
                segments: dup_ids(&e.segments),
                next_segment: e.next_segment,
                profile: e.profile,
                rows: e.rows,
                ops: counts[n],
            },
        );
        j = j + 1;
    }
    proof {
        assert(views(history@) =~= recounted(h, ops, rows));
    }
    disk.log = left;
    disk.history = history;
}

// ── What was published ──────────────────────────────────────────────────────

/// Where the published index would be adopted, it is what the log replays to.
pub open spec fn true_tier(c: Config, disk: Disk) -> bool {
    let rows = gathered(disk.objects@, head_target(disk).segments).len();
    let log = grounded(views(disk.log@), rows as u64);
    fits_tier(c, disk, log, rows as int) ==> disk.tier->0.index@ == replay(log, rows as u64)
}

/// What a store publishes is adopted over the state that it was published for: an index that a store
/// has is always undamaged.
pub proof fn what_a_store_publishes_is_adopted(c: Config, s: Store, disk: Disk)
    requires
        s.wf(),
        disk.backend.memory_tier,
        disk.tier matches Some(t) && published(s, t),
        views(disk.log@) == views(s.log@),
        c.dimension == s.config.dimension,
        c.distance == s.config.distance,
    ensures
        adoptable(c, disk, s.rows@.len() as int),
{
    assert(views(s.log@).len() == s.log@.len());
    assert(s.rows.len() == s.rows@.len());
}

/// Where nothing was published, nothing false was.
pub proof fn an_empty_tier_is_true(c: Config, disk: Disk)
    requires
        disk.tier is None,
    ensures
        true_tier(c, disk),
{
}

/// What a store publishes with its commit point is what its log replays to.
pub proof fn publishing_leaves_a_true_tier(c: Config, s: Store, disk: Disk)
    requires
        s.faithful(),
        committed(s, disk),
        disk.tier matches Some(t) && published(s, t),
    ensures
        true_tier(c, disk),
        tier_behind(disk),
{
    what_is_left_is_grounded(views(s.log@), s.rows@.len() as u64);
    assert(views(s.rows@).len() == s.rows@.len());
}

/// What was published is no further than the log.
pub open spec fn tier_behind(disk: Disk) -> bool {
    disk.backend.memory_tier ==> (disk.tier matches Some(t) ==> t.watermark <= watermark(
        views(disk.log@),
    ))
}

/// A commit that adds to the log, or changes neither the log nor the number of rows, leaves nothing
/// false in the memory tier.
pub proof fn a_commit_keeps_the_tier_true(
    c: Config,
    s: Store,
    before: Disk,
    after: Disk,
    more: Seq<OpV>,
)
    requires
        true_tier(c, before),
        tier_behind(before),
        rows_within(
            views(before.log@),
            gathered(before.objects@, head_target(before).segments).len() as u64,
        ),
        saved(s, before, after),
        s.faithful(),
        views(s.log@) == views(before.log@) + more,
        log_bytes(views(s.log@)) < u64::MAX,
        more.len() == 0 ==> s.rows@.len() == gathered(
            before.objects@,
            head_target(before).segments,
        ).len(),
    ensures
        true_tier(c, after),
        tier_behind(after),
{
    let rows = gathered(before.objects@, head_target(before).segments).len();
    what_is_left_is_grounded(views(before.log@), rows as u64);
    what_is_left_is_grounded(views(s.log@), s.rows@.len() as u64);
    assert(views(s.rows@).len() == s.rows@.len());
    a_log_grows(views(before.log@), more);
    if more.len() == 0 {
        assert(views(s.log@) =~= views(before.log@));
    }
}

/// A recovered log whose published index is true replays to the index that is adopted.
pub proof fn a_true_tier_is_a_replay(c: Config, before: Disk, after: Disk)
    requires
        true_tier(c, before),
        recovered(
            gathered(before.objects@, head_target(before).segments).len() as u64,
            before,
            after,
        ),
        gathered(before.objects@, head_target(before).segments).len() <= u64::MAX,
    ensures
        ({
            let rows = gathered(before.objects@, head_target(before).segments).len();
            &&& rows_within(views(after.log@), rows as u64)
            &&& head_index(c, after, rows as int) == replay(views(after.log@), rows as u64)
        }),
{
    let rows = gathered(before.objects@, head_target(before).segments).len();
    what_is_left_is_grounded(views(before.log@), rows as u64);
}

} // verus!
