//! What reads give back of writes.

use vstd::prelude::*;

use crate::compact::{
    compacted, compaction_keeps_records, compacts, live_row_is_used, moved_coll, moved_doc, place,
    place_grows,
};
use crate::dict::{ascending, has_key, ordered, ordered_is, to_map, to_map_at, views};
use crate::index::{
    apply, is_live, replay, replay_grows, stamped, CollsV, DocV, IndexV, OpV, META_ACCESS_COUNT,
    META_EXPIRES_AT, META_LAST_ACCESSED,
};
use crate::config::Config;
use crate::disk::{head_target, Disk};
use crate::durable::{flushed, ids_of};
use crate::host::Host;
use crate::kernel::Kernel;
use crate::model::{Record, RecordV, SearchOpts};
use crate::order::{sorted_agree, sorted_map};
use crate::open::{
    a_refresh_matches_a_fresh_open, a_refresh_reads_as_a_full_read, holds, holds_rows, opens,
    overfull, refreshed_rows, refreshed_segments, sealed_alike,
};
use crate::rank::depth_of;
use crate::read::{attrs_at, found};
use crate::rows::a_compaction_keeps_rows_apart;
use crate::scan::{by_row, gathered, gathered_members, listable, scan_coll, scan_of, sound_item, ScanV};
use crate::scoring::{best, hits_for, in_rows, score_for, scored};
use crate::search::{proposals_of, query_of, search_of, stage, stage_in_rows};
use crate::store::{apply_all, replay_append, rows_in_range, Store};
use crate::undo::restored;
use crate::value::{AttrsV, Filter, ValueV};
use crate::write::{
    batch_ops, deleted, moved_expiry, next_count, op_for, passing, present, recall_keeps_documents,
    recalled, row_for, stored, swept, upserted, vec_count, vec_count_bounds,
};

verus! {

// ── Writes ──────────────────────────────────────────────────────────────────

/// The last record of a batch that has the id.
pub open spec fn newest_of(records: Seq<Record>, id: Seq<char>) -> Option<int>
    decreases records.len(),
{
    if records.len() == 0 {
        None
    } else if records.last().id@ == id {
        Some(records.len() - 1)
    } else {
        newest_of(records.drop_last(), id)
    }
}

/// A record as it is stored.
pub open spec fn as_stored<K: Kernel>(k: K, s: Store, r: Record) -> RecordV {
    RecordV {
        id: r.id@,
        vector: match r.vector {
            Some(v) => Some(stored(k, s.config.distance, v)),
            None => None,
        },
        attrs: r.attrs@,
    }
}

proof fn newest_bounds(records: Seq<Record>, id: Seq<char>)
    ensures
        newest_of(records, id) matches Some(i) ==> 0 <= i < records.len() && records[i].id@ == id,
    decreases records.len(),
{
    if records.len() > 0 {
        newest_bounds(records.drop_last(), id);
    }
}

proof fn batch_docs(
    ix: IndexV,
    c: Seq<char>,
    records: Seq<Record>,
    base: int,
    rows: u64,
    n: int,
    d: Seq<char>,
    id: Seq<char>,
)
    requires
        0 <= n <= records.len(),
        0 <= base,
        base + vec_count(records) <= rows,
    ensures
        ({
            let cols = ix.collections;
            let after = apply_all(ix, batch_ops(c, records, base).take(n), rows).collections;
            let newest = newest_of(records.take(n), id);
            if d == c && newest is Some {
                &&& after.contains_key(d)
                &&& after[d].docs.contains_key(id)
                &&& after[d].docs[id] == DocV {
                    row: if records[newest->0].vector is Some {
                        Some(row_for(records, newest->0, base) as u64)
                    } else {
                        None
                    },
                    attrs: records[newest->0].attrs@,
                }
            } else {
                &&& (after.contains_key(d) && after[d].docs.contains_key(id)) == (
                cols.contains_key(d) && cols[d].docs.contains_key(id))
                &&& cols.contains_key(d) && cols[d].docs.contains_key(id) ==> after[d].docs[id]
                    == cols[d].docs[id]
            }
        }),
    decreases n,
{
    let ops = batch_ops(c, records, base);
    if n > 0 {
        batch_docs(ix, c, records, base, rows, n - 1, d, id);
        assert(ops.take(n).drop_last() =~= ops.take(n - 1));
        assert(ops.take(n).last() == op_for(c, records, n - 1, base));
        assert(records.take(n).drop_last() =~= records.take(n - 1));
        assert(records.take(n).last() == records[n - 1]);
        vec_count_bounds(records, n - 1);
        newest_bounds(records.take(n - 1), id);
    } else {
        assert(ops.take(0) =~= Seq::<OpV>::empty());
        assert(records.take(0) =~= Seq::<Record>::empty());
    }
}

/// A batch reads back: a lookup of an id that it wrote gives the last record that it has for that
/// id, and every other lookup gives what it gave before.
pub proof fn a_batch_reads_back<K: Kernel>(
    k: K,
    before: Store,
    after: Store,
    c: Seq<char>,
    records: Seq<Record>,
    d: Seq<char>,
    id: Seq<char>,
)
    requires
        before.wf(),
        before.upsert_refusal(records) is None,
        upserted(k, before, after, c, records),
    ensures
        found(after.index@.collections, after.rows@, d, id) == if d == c && newest_of(
            records,
            id,
        ) is Some {
            Some(as_stored(k, before, records[newest_of(records, id)->0]))
        } else {
            found(before.index@.collections, before.rows@, d, id)
        },
{
    let base = before.rows@.len() as int;
    let rows = after.rows@.len() as u64;
    let cols = before.index@.collections;
    let ops = batch_ops(c, records, base);
    vec_count_bounds(records, records.len() as int);
    batch_docs(before.index@, c, records, base, rows, records.len() as int, d, id);
    assert(ops.take(records.len() as int) =~= ops);
    assert(records.take(records.len() as int) =~= records);
    newest_bounds(records, id);
    if d == c && newest_of(records, id) is Some {
        let i = newest_of(records, id)->0;
        vec_count_bounds(records, i);
        assert(records[i].id@ == id);
    } else if cols.contains_key(d) && cols[d].docs.contains_key(id) {
        if cols[d].docs[id].row is Some {
            assert(is_live(cols, (d, id)));
            let r = cols[d].docs[id].row->0 as int;
            assert(r < base);
            assert(after.rows@.take(base)[r] == after.rows@[r]);
        }
    }
}

/// Upserts are idempotent: a batch that is written again changes no lookup.
pub proof fn a_repeated_batch_reads_alike<K: Kernel>(
    k: K,
    before: Store,
    once: Store,
    twice: Store,
    c: Seq<char>,
    records: Seq<Record>,
    d: Seq<char>,
    id: Seq<char>,
)
    requires
        before.wf(),
        once.wf(),
        before.upsert_refusal(records) is None,
        once.upsert_refusal(records) is None,
        upserted(k, before, once, c, records),
        upserted(k, once, twice, c, records),
    ensures
        found(twice.index@.collections, twice.rows@, d, id) == found(
            once.index@.collections,
            once.rows@,
            d,
            id,
        ),
{
    a_batch_reads_back(k, before, once, c, records, d, id);
    a_batch_reads_back(k, once, twice, c, records, d, id);
    newest_bounds(records, id);
}

// ── Crashes ─────────────────────────────────────────────────────────────────

proof fn batch_leaves(
    ix: IndexV,
    c: Seq<char>,
    records: Seq<Record>,
    base: int,
    rows: u64,
    n: int,
    d: Seq<char>,
    id: Seq<char>,
)
    requires
        0 <= n <= records.len(),
        d != c || newest_of(records, id) is None,
    ensures
        ({
            let cols = ix.collections;
            let after = apply_all(ix, batch_ops(c, records, base).take(n), rows).collections;
            &&& (after.contains_key(d) && after[d].docs.contains_key(id)) == (cols.contains_key(d)
                && cols[d].docs.contains_key(id))
            &&& cols.contains_key(d) && cols[d].docs.contains_key(id) ==> after[d].docs[id]
                == cols[d].docs[id]
        }),
    decreases n,
{
    let ops = batch_ops(c, records, base);
    if n > 0 {
        batch_leaves(ix, c, records, base, rows, n - 1, d, id);
        assert(ops.take(n).drop_last() =~= ops.take(n - 1));
        assert(ops.take(n).last() == op_for(c, records, n - 1, base));
        if d == c {
            unnamed(records, id, n - 1);
        }
    } else {
        assert(ops.take(0) =~= Seq::<OpV>::empty());
    }
}

proof fn unnamed(records: Seq<Record>, id: Seq<char>, i: int)
    requires
        newest_of(records, id) is None,
        0 <= i < records.len(),
    ensures
        records[i].id@ != id,
    decreases records.len(),
{
    if i < records.len() - 1 {
        unnamed(records.drop_last(), id, i);
        assert(records.drop_last()[i] == records[i]);
    }
}

/// A crash loses at most the batch that was being written. However many of its operations reached
/// the log, and however many of its rows, what they replay to is the store before the batch with
/// those operations applied whose rows are there; no document is touched that the batch does not
/// name.
pub proof fn a_crash_loses_at_most_the_batch<K: Kernel>(
    k: K,
    before: Store,
    after: Store,
    c: Seq<char>,
    records: Seq<Record>,
    n: int,
    rows: u64,
    d: Seq<char>,
    id: Seq<char>,
)
    requires
        before.wf(),
        before.faithful(),
        upserted(k, before, after, c, records),
        0 <= n <= records.len(),
        before.rows@.len() <= rows <= after.rows@.len(),
    ensures
        ({
            let base = before.rows@.len() as int;
            let left = replay(views(after.log@).take(before.log@.len() + n), rows);
            let cols = before.index@.collections;
            &&& left == apply_all(before.index@, batch_ops(c, records, base).take(n), rows)
            &&& n == 0 ==> left == before.index@
            &&& d != c || newest_of(records, id) is None ==> {
                &&& (left.collections.contains_key(d) && left.collections[d].docs.contains_key(id))
                    == (cols.contains_key(d) && cols[d].docs.contains_key(id))
                &&& cols.contains_key(d) && cols[d].docs.contains_key(id)
                    ==> left.collections[d].docs[id] == cols[d].docs[id]
            }
        }),
{
    let base = before.rows@.len() as int;
    let log = views(before.log@);
    let ops = batch_ops(c, records, base).take(n);
    assert(views(after.log@).take(before.log@.len() + n) =~= log + ops);
    replay_grows(log, base as u64, rows);
    replay_append(log, ops, rows);
    if d != c || newest_of(records, id) is None {
        batch_leaves(before.index@, c, records, base, rows, n, d, id);
    }
    if n == 0 {
        assert(ops =~= Seq::<OpV>::empty());
    }
}

// ── Deletions ───────────────────────────────────────────────────────────────

/// A deletion reads back: the ids that it names are gone, and every other lookup gives what it
/// gave before.
pub proof fn a_deletion_reads_back(
    before: Store,
    after: Store,
    c: Seq<char>,
    gone: Set<Seq<char>>,
    d: Seq<char>,
    id: Seq<char>,
)
    requires
        deleted(before.index@, after.index@, c, gone),
        after.rows == before.rows,
    ensures
        found(after.index@.collections, after.rows@, d, id) == if d == c && gone.contains(id) {
            None
        } else {
            found(before.index@.collections, before.rows@, d, id)
        },
{
}

/// A sweep reads back: every document that passes the filter is gone, from whichever collection,
/// and every other lookup gives what it gave before.
pub proof fn a_sweep_reads_back(
    before: Store,
    after: Store,
    filter: Filter,
    d: Seq<char>,
    id: Seq<char>,
)
    requires
        swept(before.index@, after.index@, filter),
        after.rows == before.rows,
    ensures
        found(after.index@.collections, after.rows@, d, id) == if passing(
            before.index@.collections,
            d,
            filter,
        ).contains(id) {
            None
        } else {
            found(before.index@.collections, before.rows@, d, id)
        },
{
}

/// A dropped collection reads back as absent, and every other collection as it was.
pub proof fn a_drop_reads_back(
    ix: IndexV,
    rows: Seq<Vec<u32>>,
    c: Seq<char>,
    d: Seq<char>,
    id: Seq<char>,
)
    ensures
        found(
            apply(ix, OpV::DropCollection(c), rows.len() as u64).collections,
            rows,
            d,
            id,
        ) == if d == c {
            None
        } else {
            found(ix.collections, rows, d, id)
        },
{
}

// ── Recall ──────────────────────────────────────────────────────────────────

/// The expiry that the attributes give.
pub open spec fn expiry_of(attrs: AttrsV) -> Option<i64> {
    if attrs.contains_key(META_EXPIRES_AT@) {
        match attrs[META_EXPIRES_AT@] {
            ValueV::DateTime(t) => Some(t),
            _ => None,
        }
    } else {
        None
    }
}

/// Both have the attribute, with one value, or neither has it.
pub open spec fn same_attr(a: AttrsV, b: AttrsV, key: Seq<char>) -> bool {
    &&& a.contains_key(key) == b.contains_key(key)
    &&& a.contains_key(key) ==> a[key] == b[key]
}

proof fn stamp_keys()
    ensures
        META_EXPIRES_AT@ != META_ACCESS_COUNT@,
        META_EXPIRES_AT@ != META_LAST_ACCESSED@,
{
    reveal_strlit("nidus.access_count");
    reveal_strlit("nidus.last_accessed");
    reveal_strlit("nidus.expires_at");
    assert("nidus.access_count"@.len() == 18);
    assert("nidus.last_accessed"@.len() == 19);
    assert("nidus.expires_at"@.len() == 16);
}

/// A recall leaves every attribute but its own stamps alone, never moves an expiry back, and
/// gives none to a document that has none.
pub proof fn a_recall_only_stamps(
    ix: IndexV,
    c: Seq<char>,
    ids: Seq<Seq<char>>,
    now: i64,
    extend: Option<i64>,
    rows: u64,
    d: Seq<char>,
    id: Seq<char>,
)
    requires
        present(ix.collections, d, id),
    ensures
        ({
            let old_attrs = ix.collections[d].docs[id].attrs;
            let new_attrs = recalled(ix, c, ids, now, extend, rows).collections[d].docs[id].attrs;
            &&& forall|key: Seq<char>|
                key != META_ACCESS_COUNT@ && key != META_LAST_ACCESSED@ && key != META_EXPIRES_AT@
                    ==> #[trigger] same_attr(old_attrs, new_attrs, key)
            &&& expiry_of(old_attrs) is None <==> expiry_of(new_attrs) is None
            &&& expiry_of(old_attrs) matches Some(t) ==> expiry_of(new_attrs)->0 >= t
        }),
    decreases ids.len(),
{
    if ids.len() > 0 {
        stamp_keys();
        a_recall_only_stamps(ix, c, ids.drop_last(), now, extend, rows, d, id);
        recall_keeps_documents(ix, c, ids.drop_last(), now, extend, rows);
        let prior = recalled(ix, c, ids.drop_last(), now, extend, rows);
        assert(present(prior.collections, d, id));
        let after = recalled(ix, c, ids, now, extend, rows);
        let last = ids.last();
        if present(ix.collections, c, last) {
            assert(present(prior.collections, c, last));
            if d == c && id == last {
                let first = ix.collections[d].docs[id].attrs;
                let a = prior.collections[d].docs[id].attrs;
                assert(after.collections[d].docs[id].attrs == stamped(
                    a,
                    next_count(a),
                    now,
                    moved_expiry(a, now, extend),
                ));
                let b = after.collections[d].docs[id].attrs;
                assert forall|key: Seq<char>|
                    key != META_ACCESS_COUNT@ && key != META_LAST_ACCESSED@ && key
                        != META_EXPIRES_AT@ implies #[trigger] same_attr(first, b, key) by {
                    assert(same_attr(first, a, key));
                }
            } else {
                assert(after.collections[d].docs[id] == prior.collections[d].docs[id]);
            }
        }
    }
}

// ── Segments ────────────────────────────────────────────────────────────────

/// The stores hold the same documents and the same rows, under one metric.
pub open spec fn same_contents(a: Store, b: Store) -> bool {
    &&& a.index@ == b.index@
    &&& views(a.rows@) == views(b.rows@)
    &&& a.config.distance == b.config.distance
}

proof fn scored_alike<K: Kernel>(
    k: K,
    a: Store,
    b: Store,
    q: Seq<u32>,
    opts: SearchOpts,
    scan: Seq<ScanV>,
)
    requires
        same_contents(a, b),
        in_rows(a, scan),
    ensures
        scored(a, k, q, opts, scan) == scored(b, k, q, opts, scan),
    decreases scan.len(),
{
    if scan.len() > 0 {
        let d = scan.drop_last();
        assert forall|i: int| 0 <= i < d.len() implies (#[trigger] d[i]).row < a.rows@.len() by {
            assert(d[i] == scan[i]);
        }
        scored_alike(k, a, b, q, opts, d);
        let x = scan[scan.len() - 1];
        assert(x.row < a.rows@.len());
        assert(views(a.rows@).len() == a.rows@.len() && views(b.rows@).len() == b.rows@.len());
        assert(views(a.rows@)[x.row as int] == a.rows@[x.row as int]@);
        assert(views(b.rows@)[x.row as int] == b.rows@[x.row as int]@);
        assert(score_for(a, k, q, opts, x) == score_for(b, k, q, opts, x));
    }
}

/// An exact search depends on the documents and their rows alone: not on how the rows are cut
/// into segments, on how the store was opened, or on how often it was written.
pub proof fn segments_do_not_matter<K: Kernel>(
    k: K,
    a: Store,
    b: Store,
    q: Seq<u32>,
    opts: SearchOpts,
    top_k: usize,
    scan: Seq<ScanV>,
)
    requires
        same_contents(a, b),
        in_rows(a, scan),
    ensures
        best(a, k, q, opts, top_k, scan) == best(b, k, q, opts, top_k, scan),
        hits_for(a, opts.projection, best(a, k, q, opts, top_k, scan)) == hits_for(
            b,
            opts.projection,
            best(b, k, q, opts, top_k, scan),
        ),
{
    scored_alike(k, a, b, q, opts, scan);
    let kept = best(a, k, q, opts, top_k, scan);
    assert(hits_for(a, opts.projection, kept) =~= hits_for(b, opts.projection, kept));
}

/// Stores of the same contents answer every exact search alike, whichever way each of them came
/// to hold them.
pub proof fn exact_searches_agree<K: Kernel, H: Host>(
    k: K,
    h: H,
    a: Store,
    b: Store,
    scope: Seq<Seq<char>>,
    query: Seq<u32>,
    opts: SearchOpts,
)
    requires
        same_contents(a, b),
        a.wf(),
        listable(a.index@.collections),
        opts.exact,
    ensures
        search_of(a, k, h, scope, query, opts) == search_of(b, k, h, scope, query, opts),
{
    let q = query_of(a, k, query);
    let top_k = depth_of(opts);
    let scan = stage(a, h, scope, opts.filter).1;
    assert(proposals_of(a, h, scope, opts.filter) =~= proposals_of(b, h, scope, opts.filter));
    assert(stage(b, h, scope, opts.filter).1 == scan);
    stage_in_rows(a, h, scope, opts.filter);
    segments_do_not_matter(k, a, b, q, opts, top_k, scan);
}

/// A reader that has adopted the writer's state answers every exact search as one that opens the
/// store afresh does, since sealed segments stay as they are.
pub proof fn a_refresh_searches_as_a_fresh_open<K: Kernel, H: Host>(
    k: K,
    h: H,
    disk: Disk,
    before: Store,
    c: Config,
    d: Config,
    refreshed: Store,
    opened: Store,
    scope: Seq<Seq<char>>,
    query: Seq<u32>,
    opts: SearchOpts,
)
    requires
        before.wf(),
        head_target(disk).segments == ids_of(before.segments@) ==> sealed_alike(before, disk),
        holds_rows(
            disk,
            head_target(disk),
            c,
            refreshed_rows(before, disk),
            refreshed_segments(before, disk),
            refreshed,
        ),
        holds(disk, head_target(disk), d, opened),
        c.dimension == d.dimension,
        c.distance == d.distance,
        refreshed.wf(),
        listable(refreshed.index@.collections),
        opts.exact,
    ensures
        search_of(refreshed, k, h, scope, query, opts) == search_of(
            opened,
            k,
            h,
            scope,
            query,
            opts,
        ),
{
    a_refresh_reads_as_a_full_read(before, disk);
    a_refresh_matches_a_fresh_open(disk, head_target(disk), c, d, refreshed, opened);
    exact_searches_agree(k, h, refreshed, opened, scope, query, opts);
}

/// What was flushed is what a new open reads: every lookup, the collections and their metadata,
/// and no two documents share a row where none did.
/// Where the open does not compact, it has the same rows, the same index and the same version.
pub proof fn a_flushed_store_is_read_back<K: Kernel>(
    k: K,
    s: Store,
    before: Disk,
    disk: Disk,
    c: Config,
    mid: Disk,
    read: Store,
    opened: Store,
    after: Disk,
    coll: Seq<char>,
    id: Seq<char>,
)
    requires
        s.wf(),
        s.faithful(),
        listable(s.index@.collections),
        s.rows@.len() <= u64::MAX,
        flushed(s, before, disk),
        c.at_version is None,
        opens(k, c, disk, mid, read, opened, after),
    ensures
        found(opened.index@.collections, opened.rows@, coll, id) == found(
            s.index@.collections,
            s.rows@,
            coll,
            id,
        ),
        opened.index@.collections.dom() == s.index@.collections.dom(),
        s.index@.collections.contains_key(coll) ==> opened.index@.collections[coll].meta
            == s.index@.collections[coll].meta,
        s.apart() ==> opened.apart(),
        !overfull(k, mid, read) ==> {
            &&& views(opened.rows@) == views(s.rows@)
            &&& opened.index@ == s.index@
            &&& views(opened.log@) == views(s.log@)
            &&& opened.version == s.version
        },
{
    let t = head_target(disk);
    assert(views(s.rows@).len() == s.rows@.len());
    assert(views(s.log@).len() == s.log@.len());
    assert(views(disk.log@).len() == disk.log@.len());
    assert(crate::disk::gathered(disk.objects@, t.segments) == views(s.rows@));
    assert(read.index@ == s.index@);
    assert(views(read.rows@) == views(s.rows@));
    assert(views(read.rows@).len() == read.rows@.len());
    assert(found(read.index@.collections, read.rows@, coll, id) == found(
        s.index@.collections,
        s.rows@,
        coll,
        id,
    )) by {
        let cols = s.index@.collections;
        if cols.contains_key(coll) && cols[coll].docs.contains_key(id) {
            let doc = cols[coll].docs[id];
            if doc.row is Some {
                assert(is_live(cols, (coll, id)));
                let i = doc.row->0 as int;
                assert(views(read.rows@)[i] == read.rows@[i]@);
                assert(views(s.rows@)[i] == s.rows@[i]@);
            }
        }
    }
    assert(mid == disk);
    if overfull(k, mid, read) {
        compaction_keeps_lookups(k, read, opened, coll, id);
        if s.apart() {
            a_compaction_keeps_rows_apart(read.index@);
        }
        assert(opened.index@.collections.dom() =~= s.index@.collections.dom());
    }
}

/// A write that was taken back leaves no trace: every lookup and every exact search gives what it
/// gave before.
pub proof fn a_rollback_reads_as_before<K: Kernel, H: Host>(
    k: K,
    h: H,
    before: Store,
    after: Store,
    c: Seq<char>,
    id: Seq<char>,
    scope: Seq<Seq<char>>,
    query: Seq<u32>,
    opts: SearchOpts,
)
    requires
        before.wf(),
        listable(before.index@.collections),
        restored(k, before, after),
        opts.exact,
    ensures
        found(after.index@.collections, after.rows@, c, id) == found(
            before.index@.collections,
            before.rows@,
            c,
            id,
        ),
        search_of(after, k, h, scope, query, opts) == search_of(
            before,
            k,
            h,
            scope,
            query,
            opts,
        ),
{
    exact_searches_agree(k, h, before, after, scope, query, opts);
}

// ── Compaction ──────────────────────────────────────────────────────────────

/// Every lookup gives after a compaction what it gave before.
pub proof fn compaction_keeps_lookups<K: Kernel>(
    k: K,
    before: Store,
    after: Store,
    c: Seq<char>,
    id: Seq<char>,
)
    requires
        before.wf(),
        listable(before.index@.collections),
        before.rows@.len() <= u64::MAX,
        compacts(k, before, after),
    ensures
        found(after.index@.collections, after.rows@, c, id) == found(
            before.index@.collections,
            before.rows@,
            c,
            id,
        ),
{
    if before.index@.collections.contains_key(c) {
        compaction_keeps_records(before.index@, before.rows@, c, id);
    }
}

/// A scanned document under its row's new number.
pub open spec fn moved_scan(cols: CollsV, x: ScanV) -> ScanV {
    ScanV { row: place(cols, x.row as int) as u64, ..x }
}

proof fn ordered_map<A, B>(m: Map<Seq<char>, A>, f: spec_fn(A) -> B)
    requires
        ascending(ordered(m)),
        to_map(ordered(m)) == m,
    ensures
        ordered(m.map_values(f)) == ordered(m).map_values(|p: (Seq<char>, A)| (p.0, f(p.1))),
{
    let e = ordered(m);
    let g = |p: (Seq<char>, A)| (p.0, f(p.1));
    let h = e.map_values(g);
    assert(ascending(h)) by {
        assert forall|i: int, j: int| 0 <= i < j < h.len() implies crate::order::lex_lt(
            #[trigger] h[i].0,
            #[trigger] h[j].0,
        ) by {
            assert(h[i].0 == e[i].0 && h[j].0 == e[j].0);
        }
    }
    assert(to_map(h) =~= m.map_values(f)) by {
        assert forall|key: Seq<char>| to_map(h).contains_key(key) == m.map_values(f).contains_key(
            key,
        ) by {
            if has_key(h, key) {
                let i = choose|i: int| 0 <= i < h.len() && (#[trigger] h[i]).0 == key;
                assert(e[i].0 == key);
                to_map_at(e, i);
            }
            if m.contains_key(key) {
                assert(has_key(e, key));
                let i = choose|i: int| 0 <= i < e.len() && (#[trigger] e[i]).0 == key;
                assert(h[i].0 == key);
            }
        }
        assert forall|key: Seq<char>| to_map(h).contains_key(key) implies #[trigger] to_map(h)[key]
            == m.map_values(f)[key] by {
            let i = choose|i: int| 0 <= i < h.len() && (#[trigger] h[i]).0 == key;
            to_map_at(h, i);
            to_map_at(e, i);
            assert(h[i] == g(e[i]));
        }
    }
    ordered_is(h);
}

proof fn scan_coll_moves(
    cols: CollsV,
    c: Seq<char>,
    e: Seq<(Seq<char>, DocV)>,
    filter: Filter,
)
    ensures
        scan_coll(
            c,
            e.map_values(|p: (Seq<char>, DocV)| (p.0, moved_doc(cols, p.1))),
            filter,
        ) == scan_coll(c, e, filter).map_values(|x: ScanV| moved_scan(cols, x)),
    decreases e.len(),
{
    let g = |p: (Seq<char>, DocV)| (p.0, moved_doc(cols, p.1));
    let f = |x: ScanV| moved_scan(cols, x);
    let h = e.map_values(g);
    if e.len() > 0 {
        scan_coll_moves(cols, c, e.drop_last(), filter);
        assert(h.drop_last() =~= e.drop_last().map_values(g));
        assert(h.last() == g(e.last()));
        assert(scan_coll(c, h, filter) =~= scan_coll(c, e, filter).map_values(f));
    } else {
        assert(scan_coll(c, h, filter) =~= scan_coll(c, e, filter).map_values(f));
    }
}

proof fn gathered_moves(ix: IndexV, scope: Seq<Seq<char>>, filter: Filter)
    requires
        listable(ix.collections),
    ensures
        gathered(compacted(ix).collections, scope, filter) == gathered(
            ix.collections,
            scope,
            filter,
        ).map_values(|x: ScanV| moved_scan(ix.collections, x)),
    decreases scope.len(),
{
    let cols = ix.collections;
    let now = compacted(ix).collections;
    let f = |x: ScanV| moved_scan(cols, x);
    if scope.len() > 0 {
        let c = scope.last();
        gathered_moves(ix, scope.drop_last(), filter);
        if cols.contains_key(c) {
            ordered_map(cols[c].docs, |d: DocV| moved_doc(cols, d));
            let e = ordered(cols[c].docs);
            let g = |p: (Seq<char>, DocV)| (p.0, moved_doc(cols, p.1));
            let inner = |d: DocV| moved_doc(cols, d);
            assert(e.map_values(g) =~= e.map_values(|p: (Seq<char>, DocV)| (p.0, inner(p.1))));
            assert(now[c] == moved_coll(cols, cols[c]));
            scan_coll_moves(cols, c, e, filter);
        }
        assert(gathered(now, scope, filter) =~= gathered(cols, scope, filter).map_values(f));
    } else {
        assert(gathered(now, scope, filter) =~= gathered(cols, scope, filter).map_values(f));
    }
}

/// A scan after a compaction is the scan before it under the new numbers.
pub proof fn compaction_keeps_the_scan(
    ix: IndexV,
    rows: int,
    scope: Seq<Seq<char>>,
    filter: Filter,
)
    requires
        listable(ix.collections),
        rows_in_range(ix.collections, rows),
        rows <= u64::MAX,
    ensures
        scan_of(compacted(ix).collections, scope, filter) == scan_of(
            ix.collections,
            scope,
            filter,
        ).map_values(|x: ScanV| moved_scan(ix.collections, x)),
{
    let cols = ix.collections;
    let g = gathered(cols, scope, filter);
    let f = |x: ScanV| moved_scan(cols, x);
    let lt = |x: ScanV, y: ScanV| by_row()(f(x), f(y));
    gathered_moves(ix, scope, filter);
    assert forall|x: ScanV, y: ScanV| #[trigger] lt(x, y) == by_row()(f(x), f(y)) by {}
    sorted_map(g, f, lt, by_row());
    assert forall|i: int, j: int| 0 <= i < g.len() && 0 <= j < g.len() implies #[trigger] lt(
        g[i],
        g[j],
    ) == by_row()(g[i], g[j]) by {
        assert(g.contains(g[i]) && g.contains(g[j]));
        gathered_members(cols, scope, filter, g[i]);
        gathered_members(cols, scope, filter, g[j]);
        let (a, b) = (g[i].row as int, g[j].row as int);
        assert(is_live(cols, (g[i].collection, g[i].id)));
        assert(is_live(cols, (g[j].collection, g[j].id)));
        assert(cols[g[i].collection].docs[g[i].id].row->0 < rows);
        assert(cols[g[j].collection].docs[g[j].id].row->0 < rows);
        live_row_is_used(cols, g[i].collection, g[i].id);
        live_row_is_used(cols, g[j].collection, g[j].id);
        place_grows(cols, a, rows);
        place_grows(cols, b, rows);
        if a < b {
            place_grows(cols, a, b);
        } else {
            place_grows(cols, b, a);
        }
    }
    sorted_agree(g, lt, by_row());
}

proof fn scored_moves<K: Kernel>(
    k: K,
    before: Store,
    after: Store,
    q: Seq<u32>,
    opts: SearchOpts,
    scope: Seq<Seq<char>>,
    scan: Seq<ScanV>,
)
    requires
        before.wf(),
        listable(before.index@.collections),
        before.rows@.len() <= u64::MAX,
        compacts(k, before, after),
        forall|i: int|
            0 <= i < scan.len() ==> sound_item(
                before.index@.collections,
                scope,
                opts.filter,
                #[trigger] scan[i],
            ),
    ensures
        scored(
            after,
            k,
            q,
            opts,
            scan.map_values(|x: ScanV| moved_scan(before.index@.collections, x)),
        ) == scored(before, k, q, opts, scan),
    decreases scan.len(),
{
    let cols = before.index@.collections;
    let f = |x: ScanV| moved_scan(cols, x);
    let moved = scan.map_values(f);
    if scan.len() > 0 {
        let rest = scan.drop_last();
        assert forall|i: int| 0 <= i < rest.len() implies sound_item(
            cols,
            scope,
            opts.filter,
            #[trigger] rest[i],
        ) by {
            assert(rest[i] == scan[i]);
        }
        scored_moves(k, before, after, q, opts, scope, rest);
        assert(moved.drop_last() =~= rest.map_values(f));
        let x = scan.last();
        assert(sound_item(cols, scope, opts.filter, scan[scan.len() - 1]));
        assert(moved.last() == f(x));
        compaction_keeps_records(before.index@, before.rows@, x.collection, x.id);
        assert(attrs_at(after.index@.collections, x.collection, x.id) == attrs_at(
            cols,
            x.collection,
            x.id,
        ));
        assert(after.rows@[f(x).row as int] == before.rows@[x.row as int]);
        assert(score_for(after, k, q, opts, f(x)) == score_for(before, k, q, opts, x));
    }
}

/// An exact search gives after a compaction what it gave before: the same documents in the same
/// order, with the same scores and attributes.
pub proof fn compaction_keeps_the_ranking<K: Kernel>(
    k: K,
    before: Store,
    after: Store,
    q: Seq<u32>,
    scope: Seq<Seq<char>>,
    opts: SearchOpts,
    top_k: usize,
)
    requires
        before.wf(),
        listable(before.index@.collections),
        before.rows@.len() <= u64::MAX,
        compacts(k, before, after),
    ensures
        ({
            let old_scan = scan_of(before.index@.collections, scope, opts.filter);
            let new_scan = scan_of(after.index@.collections, scope, opts.filter);
            &&& best(after, k, q, opts, top_k, new_scan) == best(
                before,
                k,
                q,
                opts,
                top_k,
                old_scan,
            )
            &&& hits_for(after, opts.projection, best(after, k, q, opts, top_k, new_scan))
                == hits_for(before, opts.projection, best(before, k, q, opts, top_k, old_scan))
        }),
{
    let cols = before.index@.collections;
    let scan = scan_of(cols, scope, opts.filter);
    compaction_keeps_the_scan(before.index@, before.rows@.len() as int, scope, opts.filter);
    crate::scan::scan_is_sound(cols, scope, opts.filter);
    assert forall|i: int| 0 <= i < scan.len() implies sound_item(
        cols,
        scope,
        opts.filter,
        #[trigger] scan[i],
    ) by {
        assert(scan.contains(scan[i]));
    }
    scored_moves(k, before, after, q, opts, scope, scan);
    let kept = best(before, k, q, opts, top_k, scan);
    assert forall|i: int| 0 <= i < kept.len() implies attrs_at(
        after.index@.collections,
        (#[trigger] kept[i]).collection,
        kept[i].id,
    ) == attrs_at(cols, kept[i].collection, kept[i].id) by {
        compaction_keeps_lookups(k, before, after, kept[i].collection, kept[i].id);
    }
    assert(hits_for(after, opts.projection, kept) =~= hits_for(before, opts.projection, kept));
}

} // verus!
