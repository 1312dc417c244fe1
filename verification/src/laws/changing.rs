//! What a whole operation does to a store and to what is kept of it.

use vstd::prelude::*;

use crate::compact::compacts;
use crate::dict::views;
use crate::disk::{gathered, sized, Disk};
use crate::durable::{compaction_saved, flushed, fresh_entries, ids_of, saved};
use crate::fanout::fans_out;
use crate::host::Host;
use crate::index::OpV;
use crate::kernel::{unit_of, Kernel};
use crate::message::{digits, refusal_text};
use crate::model::{Distance, QueryFault, Record, SearchOpts};
use crate::open::{carries_on, is_empty_store};
use crate::recover::{grounded, recovered};
use crate::scoring::workers_for;
use crate::search::{segmented, stage};
use crate::store::{Store, StoreError};
use crate::undo::restored;
use crate::wire::watermark;
use crate::write::{batch_ops, row_for, upserted, vec_count};

verus! {

/// What a batch changes: the rows grow by one for each record with a vector, behind those that
/// were there, at length one under the cosine metric and as they are else; the log grows by one
/// operation for each record; and the configuration stays. Batches are counted where a history is
/// kept or the store is shared, and a sealed segment counts as well.
pub proof fn what_a_batch_changes<K: Kernel>(
    k: K,
    before: Store,
    after: Store,
    c: Seq<char>,
    records: Seq<Record>,
    i: int,
)
    requires
        upserted(k, before, after, c, records),
        0 <= i < records.len(),
    ensures
        after.config == before.config,
        after.rows@.len() == before.rows@.len() + vec_count(records),
        forall|r: int| 0 <= r < before.rows@.len() ==> #[trigger] after.rows@[r] == before.rows@[r],
        ({
            let row = row_for(records, i, before.rows@.len() as int);
            &&& records[i].vector matches Some(v) ==> {
                &&& before.config.distance == Distance::Cosine ==> after.rows@[row]@ == unit_of(
                    k,
                    v@,
                )
                &&& before.config.distance != Distance::Cosine ==> after.rows@[row]@ == v@
            }
        }),
        views(after.log@).len() == before.log@.len() + records.len(),
        views(after.log@)[before.log@.len() + i] == batch_ops(
            c,
            records,
            before.rows@.len() as int,
        )[i],
        ({
            let counts = before.config.history_versions is Some || before.config.cluster;
            let seals = before.config.segment_max_rows is Some && before.segments@.last().rows
                >= before.config.segment_max_rows->0;
            after.version == before.version + (if seals {
                1int
            } else {
                0
            }) + (if counts {
                1int
            } else {
                0
            })
        }),
{
    assert forall|r: int| 0 <= r < before.rows@.len() implies #[trigger] after.rows@[r]
        == before.rows@[r] by {
        assert(after.rows@.take(before.rows@.len() as int)[r] == before.rows@[r]);
    }
}

/// What a compaction changes: one segment is left, under the id of the first, with every row that
/// a document owns; the version goes up by one; no dead row is counted; and the configuration
/// stays.
pub proof fn what_a_compaction_changes<K: Kernel>(k: K, before: Store, after: Store)
    requires
        compacts(k, before, after),
    ensures
        after.config == before.config,
        after.version == before.version + 1,
        after.segments@.len() == 1,
        after.segments@[0].id == before.segments@[0].id,
        after.segments@[0].rows == after.rows@.len() as u64,
        after.index@.dead_rows == 0,
        after.next_segment == before.next_segment,
        after.profile == before.profile,
        before.quant is Some <==> after.quant is Some,
{
}

/// What a commit writes: the version and the shape of the store, its segments with all rows, and
/// its log, and nothing that others wait on but a new token.
pub proof fn what_a_commit_writes(s: Store, before: Disk, after: Disk)
    requires
        saved(s, before, after),
    ensures
        after.manifest is Some,
        after.manifest->0.version == s.version,
        after.manifest->0.dimension == s.config.dimension,
        after.manifest->0.distance == s.config.distance,
        after.manifest->0.segments@ == ids_of(s.segments@),
        after.manifest->0.next_segment == s.next_segment,
        after.manifest->0.profile == s.profile,
        gathered(after.objects@, after.manifest->0.segments@) == views(s.rows@),
        sized(after.objects@, after.manifest->0.segments@) == s.segments@,
        views(after.log@) == views(s.log@),
        after.token != before.token,
        after.holder == before.holder,
        after.backend == before.backend,
        after.tier == before.tier,
{
}

/// A flush publishes the index to the memory tier where there is one, marked with what it was made
/// for.
pub proof fn what_a_flush_publishes(s: Store, before: Disk, after: Disk)
    requires
        flushed(s, before, after),
    ensures
        !before.backend.memory_tier ==> after.tier == before.tier,
        before.backend.memory_tier ==> after.tier is Some && after.tier->0.index@ == s.index@
            && after.tier->0.rows == s.rows@.len() && after.tier->0.watermark == watermark(
            views(s.log@),
        ) && after.tier->0.dimension == s.config.dimension && after.tier->0.distance
            == s.config.distance,
        views(after.log@) == views(s.log@),
        after.manifest is Some && after.manifest->0.version == s.version,
{
}

/// What a compaction writes: the compacted state, a history that begins with it where one is kept,
/// a floor at its version where there was anything to read below, and no index of a segment.
pub proof fn what_a_compaction_writes(s: Store, before: Disk, after: Disk)
    requires
        compaction_saved(s, before, after),
    ensures
        after.manifest is Some && after.manifest->0.version == s.version,
        gathered(after.objects@, ids_of(s.segments@)) == views(s.rows@),
        views(after.log@) == views(s.log@),
        s.config.history_versions is None ==> after.history@.len() == 0,
        s.config.history_versions is Some ==> after.history@.len() == 1
            && after.history@[0].version == s.version && after.history@[0].rows
            == s.rows@.len() as u64 && after.history@[0].ops == s.log@.len() as u64,
        before.history@.len() > 0 || before.floor is Some || s.config.history_versions is Some
            ==> after.floor == Some(s.version),
        before.history@.len() == 0 && before.floor is None && s.config.history_versions is None
            ==> after.floor is None,
        after.sidecars@.len() == 0,
        after.token != before.token,
{
    assert(views(after.history@).len() == after.history@.len());
    if s.config.history_versions is Some {
        assert(views(after.history@)[0] == after.history@[0]@);
    }
}

/// Recovery rewrites the log only where an operation names a row that was never written, and then
/// leaves out exactly those.
pub proof fn what_a_recovery_rewrites(rows: u64, before: Disk, after: Disk, i: int)
    requires
        recovered(rows, before, after),
        0 <= i < before.log@.len(),
    ensures
        views(after.log@) == grounded(views(before.log@), rows) || after == before,
        (views(before.log@)[i] matches OpV::Put(_, _, row, _) && row is Some && row->0 >= rows)
            ==> views(after.log@) == grounded(views(before.log@), rows),
        after.manifest == before.manifest,
        after.objects == before.objects,
        after.floor == before.floor,
        after.history@.len() == before.history@.len(),
{
    assert(views(after.history@).len() == after.history@.len());
    assert(views(before.history@).len() == before.history@.len());
}

/// A rollback gives everything back: rows, segments, log, index, version and profile.
pub proof fn what_a_rollback_restores<K: Kernel>(k: K, before: Store, after: Store)
    requires
        restored(k, before, after),
    ensures
        after.rows@ == before.rows@,
        after.segments@ == before.segments@,
        views(after.log@) == views(before.log@),
        after.index@ == before.index@,
        after.version == before.version,
        after.profile == before.profile,
        after.next_segment == before.next_segment,
        after.config == before.config,
        after.indexed@ == before.indexed@,
{
}

/// What a store in memory begins with: nothing, at version one.
pub proof fn what_an_empty_store_is(s: Store, now: u64)
    requires
        is_empty_store(s, now),
    ensures
        s.in_memory,
        s.rows@.len() == 0,
        s.log@.len() == 0,
        s.index@.collections == Map::<Seq<char>, crate::index::CollV>::empty(),
        s.index@.dead_rows == 0,
        s.version == 1,
        s.segments@.len() == 1 && s.segments@[0].id == 0 && s.segments@[0].rows == 0,
        s.next_segment == 1,
        s.pinned is None,
        !s.fenced,
        !s.holds_handle,
        s.baseline == s.config,
{
}

/// A refreshed handle is the same handle: pinned where it is told to be, verified now, and with
/// what was chosen for it when it was opened.
pub proof fn what_a_refresh_carries_on(before: Store, pinned: Option<u64>, now: u64, after: Store)
    requires
        carries_on(before, pinned, now, after),
    ensures
        !after.in_memory,
        after.baseline == before.baseline,
        after.pinned == pinned,
        after.last_verified == now,
        after.fenced == before.fenced,
        after.holds_handle == before.holds_handle,
        after.anchor == before.anchor,
{
}

/// A search is shared out among threads where it scans all rows exactly, no ranking expression
/// reads the records, and the scan is large.
pub proof fn which_searches_are_shared_out<H: Host>(
    s: Store,
    h: H,
    scope: Seq<Seq<char>>,
    opts: SearchOpts,
)
    ensures
        opts.rank_by is Some ==> !fans_out(s, h, scope, opts),
        !opts.exact && (s.ann || segmented(s) || crate::coarse::quantizing(s)) ==> !fans_out(
            s,
            h,
            scope,
            opts,
        ),
        s.config.query_threads <= 1 ==> !fans_out(s, h, scope, opts),
        opts.exact && opts.rank_by is None && workers_for(
            s,
            stage(s, h, scope, opts.filter).1.len() as usize,
        ) > 1 ==> fans_out(s, h, scope, opts),
{
}

/// Every message about a query that is the caller's mistake says so first, and names the fault
/// behind.
pub proof fn a_bad_query_is_called_one(f: QueryFault, g: QueryFault)
    ensures
        "invalid query option: "@.is_prefix_of(refusal_text(StoreError::Query(f))),
        refusal_text(StoreError::Query(f)) == refusal_text(StoreError::Query(g))
            <==> crate::message::fault_text(f) == crate::message::fault_text(g),
{
    reveal_strlit("invalid query option: ");
    reveal_strlit("invalid query option");
    reveal_strlit(": ");
    let head = "invalid query option"@ + ": "@;
    assert(head =~= "invalid query option: "@);
    let a = refusal_text(StoreError::Query(f));
    let b = refusal_text(StoreError::Query(g));
    assert(a =~= head + crate::message::fault_text(f));
    assert(b =~= head + crate::message::fault_text(g));
    assert(a.subrange(0, head.len() as int) =~= head);
    assert(a.skip(head.len() as int) =~= crate::message::fault_text(f));
    assert(b.skip(head.len() as int) =~= crate::message::fault_text(g));
}

/// A segment that was sealed since the last commit is a version of its own, and is recorded as one,
/// with the rows and the log that were stored before it.
pub proof fn a_seal_since_the_last_commit_is_recorded(s: Store, disk: Disk)
    requires
        disk.manifest is Some,
        s.version == disk.manifest->0.version + 2,
        s.segments@.len() == disk.manifest->0.segments@.len() + 1,
        disk.history@.len() == 0 || disk.history@.last().version < s.version,
    ensures
        fresh_entries(s, disk).len() == 2,
        fresh_entries(s, disk)[0].version == s.version - 1,
        fresh_entries(s, disk)[0].rows == gathered(
            disk.objects@,
            disk.manifest->0.segments@,
        ).len() as u64,
        fresh_entries(s, disk)[0].ops == disk.log@.len() as u64,
        fresh_entries(s, disk)[1].version == s.version,
        fresh_entries(s, disk)[1].rows == s.rows@.len() as u64,
        fresh_entries(s, disk)[1].ops == s.log@.len() as u64,
{
}

/// What is committed again under a version that is recorded already is not recorded twice, and
/// every other commit, with no seal since the last, is recorded once.
pub proof fn a_version_is_recorded_once(s: Store, disk: Disk)
    ensures
        disk.history@.len() > 0 && disk.history@.last().version >= s.version ==> fresh_entries(
            s,
            disk,
        ).len() == 0,
        (disk.history@.len() == 0 || disk.history@.last().version < s.version) && (disk.manifest
            is None || s.version != disk.manifest->0.version + 2) ==> fresh_entries(s, disk).len()
            == 1 && fresh_entries(s, disk)[0].version == s.version,
{
}

/// A message about lengths, bytes or versions names each number in its place.
pub proof fn messages_name_their_numbers(got: usize, want: usize, a: u64, b: u64)
    ensures
        refusal_text(StoreError::VectorLength { got, want }) == "vector length "@ + digits(
            got as nat,
        ) + " does not match store dimension "@ + digits(want as nat),
        refusal_text(StoreError::QueryLength { got, want }) == "query length "@ + digits(
            got as nat,
        ) + " does not match store dimension "@ + digits(want as nat),
        refusal_text(StoreError::OverCap { bytes: a, cap: b }) == "vectors of "@ + digits(a as nat)
            + " bytes would exceed max_vector_bytes "@ + digits(b as nat),
        refusal_text(StoreError::VersionAhead { version: a, current: b }) == "version "@ + digits(
            a as nat,
        ) + " does not exist yet: the store's current commit version is "@ + digits(b as nat),
{
}

} // verus!
