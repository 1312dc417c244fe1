//! A reader that follows a writer: whatever the writer has done in between, a refresh gives what a
//! fresh open gives.

use vstd::prelude::*;

use crate::compact::compacts;
use crate::config::{Config, OpenMode};
use crate::dict::views;
use crate::disk::{gathered, head_target, sized, Disk};
use crate::durable::{committed, ids_of};
use crate::host::Host;
use crate::index::is_live;
use crate::kernel::Kernel;
use crate::model::{Record, SearchOpts};
use crate::open::{
    a_refresh_reads_as_a_full_read, an_adopted_state_is_current, has_moved, holds, holds_rows, opens,
    refreshed_rows, refreshed_segments, sealed_alike, sealed_rows, sealed_segments_stay, target_of,
};
use crate::read::found;
use crate::roundtrip::exact_searches_agree;
use crate::scan::listable;
use crate::search::search_of;
use crate::store::{seg_total, Store};
use crate::wire::{a_log_grows, log_bytes};
use crate::write::upserted;

verus! {

// ── A run of writes ─────────────────────────────────────────────────────────

/// Nothing that is stored was changed: a commit, a retuning, a fencing.
pub open spec fn stands(x: Store, y: Store) -> bool {
    &&& y.rows@ == x.rows@
    &&& y.segments@ == x.segments@
    &&& y.next_segment == x.next_segment
    &&& views(y.log@) == views(x.log@)
    &&& x.version <= y.version
}

/// One thing that a writer does: it takes in a batch, changes something that only the log tells of,
/// compacts, or changes nothing that is stored.
pub open spec fn advances<K: Kernel>(k: K, x: Store, y: Store) -> bool {
    ||| exists|c: Seq<char>, records: Seq<Record>| #[trigger] upserted(k, x, y, c, records)
    ||| y.same_but_index(&x)
    ||| compacts(k, x, y)
    ||| stands(x, y)
}

/// What a writer was from one moment to another, with everything that it did in between.
pub open spec fn is_run<K: Kernel>(k: K, ws: Seq<Store>) -> bool {
    &&& ws.len() > 0
    &&& forall|i: int| 0 <= i < ws.len() ==> (#[trigger] ws[i]).wf()
    &&& forall|i: int|
        0 <= i < ws.len() - 1 ==> advances(k, #[trigger] ws[i], ws[i + 1])
}

/// The segments of `w` are still there, with the rows that the sealed ones had, and those that were
/// opened since have names of their own.
pub open spec fn extends(w: Store, x: Store) -> bool {
    let n = w.segments@.len();
    &&& n <= x.segments@.len()
    &&& x.segments@.take(n - 1) == w.segments@.drop_last()
    &&& x.segments@[n - 1].id == w.segments@[n - 1].id
    &&& forall|i: int|
        n <= i < x.segments@.len() ==> (#[trigger] x.segments@[i]).id >= w.next_segment
    &&& sealed_rows(w) <= x.rows@.len()
    &&& views(x.rows@).take(sealed_rows(w)) == views(w.rows@).take(sealed_rows(w))
}

/// What becomes of a store: its segments were added to, or made one and then added to. Without a new
/// version its log was only added to.
pub open spec fn descends(w: Store, x: Store) -> bool {
    &&& w.next_segment <= x.next_segment
    &&& w.version <= x.version
    &&& x.segments@[0].id == w.segments@[0].id
    &&& extends(w, x) || forall|i: int|
        1 <= i < x.segments@.len() ==> (#[trigger] x.segments@[i]).id >= w.next_segment
    &&& x.version == w.version ==> {
        &&& w.log@.len() <= x.log@.len()
        &&& views(x.log@).take(w.log@.len() as int) == views(w.log@)
    }
}

proof fn log_prefix_joins(w: Store, x: Store, y: Store)
    requires
        w.log@.len() <= x.log@.len() <= y.log@.len(),
        views(x.log@).take(w.log@.len() as int) == views(w.log@),
        views(y.log@).take(x.log@.len() as int) == views(x.log@),
    ensures
        views(y.log@).take(w.log@.len() as int) == views(w.log@),
{
    let a = views(y.log@);
    let n = w.log@.len() as int;
    assert(a.take(x.log@.len() as int).take(n) =~= a.take(n));
}

proof fn a_batch_descends<K: Kernel>(
    k: K,
    w: Store,
    x: Store,
    y: Store,
    c: Seq<char>,
    records: Seq<Record>,
)
    requires
        w.wf(),
        x.wf(),
        y.wf(),
        descends(w, x),
        upserted(k, x, y, c, records),
    ensures
        descends(w, y),
{
    let n = w.segments@.len();
    let base = x.rows@.len() as int;
    assert(views(x.log@).len() == x.log@.len() && views(y.log@).len() == y.log@.len());
    assert(views(y.log@).take(x.log@.len() as int) =~= views(x.log@));
    if y.version == w.version {
        log_prefix_joins(w, x, y);
    }
    let s = x.after_seal();
    assert forall|i: int| 0 <= i < x.segments@.len() implies (#[trigger] y.segments@[i]).id
        == x.segments@[i].id by {}
    assert(y.segments@[0].id == x.segments@[0].id);
    if extends(w, x) {
        assert(y.segments@.take(n - 1) =~= x.segments@.take(n - 1)) by {
            assert forall|i: int| 0 <= i < n - 1 implies #[trigger] y.segments@[i]
                == x.segments@[i] by {}
        }
        let m = sealed_rows(w);
        assert(views(y.rows@).take(m) =~= views(x.rows@).take(m)) by {
            assert forall|i: int| 0 <= i < m implies #[trigger] views(y.rows@)[i] == views(
                x.rows@,
            )[i] by {
                assert(y.rows@.take(base)[i] == x.rows@[i]);
            }
        }
        assert(extends(w, y));
    }
}

proof fn a_step_descends<K: Kernel>(k: K, w: Store, x: Store, y: Store)
    requires
        w.wf(),
        x.wf(),
        y.wf(),
        descends(w, x),
        advances(k, x, y),
    ensures
        descends(w, y),
{
    if exists|c: Seq<char>, records: Seq<Record>| #[trigger] upserted(k, x, y, c, records) {
        let (c, records) = choose|c: Seq<char>, records: Seq<Record>| #[trigger]
            upserted(k, x, y, c, records);
        a_batch_descends(k, w, x, y, c, records);
    } else if y.same_but_index(&x) {
        if y.version == w.version {
            log_prefix_joins(w, x, y);
        }
    } else if compacts(k, x, y) {
        assert(y.segments@.len() == 1);
    } else {
        assert(views(x.log@).len() == x.log@.len() && views(y.log@).len() == y.log@.len());
    }
}

/// Whatever a writer does, in whatever order, what it becomes descends from what it was.
pub proof fn a_run_descends<K: Kernel>(k: K, ws: Seq<Store>)
    requires
        is_run(k, ws),
    ensures
        descends(ws[0], ws.last()),
    decreases ws.len(),
{
    let w = ws[0];
    if ws.len() == 1 {
        let m = sealed_rows(w);
        assert(seg_total(w.segments@) == seg_total(w.segments@.drop_last())
            + w.segments@.last().rows);
        assert(w.segments@.take(w.segments@.len() - 1) =~= w.segments@.drop_last());
        assert(views(w.log@).take(w.log@.len() as int) =~= views(w.log@));
        assert(extends(w, w));
    } else {
        let d = ws.drop_last();
        assert forall|i: int| 0 <= i < d.len() implies (#[trigger] d[i]).wf() by {
            assert(d[i] == ws[i]);
        }
        assert forall|i: int| 0 <= i < d.len() - 1 implies advances(
            k,
            #[trigger] d[i],
            d[i + 1],
        ) by {
            assert(d[i] == ws[i] && d[i + 1] == ws[i + 1]);
        }
        a_run_descends(k, d);
        let n = ws.len() - 2;
        assert(advances(k, ws[n], ws[n + 1]));
        a_step_descends(k, w, ws[n], ws[n + 1]);
    }
}

/// A reader of the commit point that a run began with holds the sealed segments of the one that it
/// ended with, where it has the same segments.
pub proof fn a_run_keeps_what_is_sealed<K: Kernel>(
    k: K,
    ws: Seq<Store>,
    a: Disk,
    b: Disk,
    c: Config,
    r: Store,
)
    requires
        is_run(k, ws),
        committed(ws[0], a),
        committed(ws.last(), b),
        holds(a, head_target(a), c, r),
    ensures
        head_target(b).segments == ids_of(r.segments@) ==> sealed_alike(r, b),
{
    let w = ws[0];
    let x = ws[ws.len() - 1];
    a_run_descends(k, ws);
    let n = w.segments@.len();
    if head_target(b).segments == ids_of(r.segments@) {
        let ids = ids_of(w.segments@);
        assert(ids_of(x.segments@) == ids);
        assert(ids.len() == n && ids_of(x.segments@).len() == x.segments@.len());
        assert forall|i: int| 0 <= i < n implies (#[trigger] x.segments@[i]).id
            == w.segments@[i].id by {
            assert(ids_of(x.segments@)[i] == ids[i]);
        }
        if extends(w, x) {
            assert(x.segments@.take(n - 1) =~= x.segments@.drop_last());
        } else {
            if n >= 2 {
                assert(x.segments@[1].id >= w.next_segment);
                assert(w.segments@[1].id < w.next_segment);
            }
            assert(x.segments@.drop_last() =~= w.segments@.drop_last());
            assert(seg_total(w.segments@) == seg_total(w.segments@.drop_last())
                + w.segments@.last().rows);
            assert(w.segments@.drop_last() =~= Seq::empty());
            assert(views(x.rows@).take(0) =~= views(w.rows@).take(0));
        }
        sealed_segments_stay(r, c, w, a, x, b);
    }
}

/// A reader notices that a writer has done something: there is a new version, or more in the log.
pub proof fn a_reader_notices<K: Kernel>(
    k: K,
    ws: Seq<Store>,
    a: Disk,
    b: Disk,
    c: Config,
    r: Store,
)
    requires
        is_run(k, ws),
        committed(ws[0], a),
        committed(ws.last(), b),
        holds(a, head_target(a), c, r),
        ws.last().version != ws[0].version || ws.last().log@.len() != ws[0].log@.len(),
        log_bytes(views(ws.last().log@)) < u64::MAX,
    ensures
        has_moved(r, b),
{
    let w = ws[0];
    let x = ws.last();
    a_run_descends(k, ws);
    if x.version == w.version {
        let n = w.log@.len() as int;
        assert(views(x.log@).len() == x.log@.len() && views(w.log@).len() == n);
        let more = views(x.log@).skip(n);
        assert(views(w.log@) + more =~= views(x.log@));
        a_log_grows(views(w.log@), more);
    }
}

/// After whatever run of writes, a reader that has refreshed is what a reader is that opens the
/// store afresh: the same rows, index and version, the same answer to every lookup and to every
/// exact search. And there is nothing left to adopt. Here `refreshed` is what [`Store::refresh`]
/// makes of `r`, and `opened` what [`Store::open`] gives.
pub proof fn a_refresh_gives_what_a_fresh_open_gives<K: Kernel, H: Host>(
    k: K,
    h: H,
    ws: Seq<Store>,
    a: Disk,
    b: Disk,
    c: Config,
    r: Store,
    tuned: Config,
    refreshed: Store,
    d: Config,
    mid: Disk,
    l: Store,
    opened: Store,
    after: Disk,
    coll: Seq<char>,
    id: Seq<char>,
    scope: Seq<Seq<char>>,
    query: Seq<u32>,
    opts: SearchOpts,
)
    requires
        is_run(k, ws),
        committed(ws[0], a),
        committed(ws.last(), b),
        r.wf(),
        holds(a, head_target(a), c, r),
        holds_rows(
            b,
            head_target(b),
            tuned,
            refreshed_rows(r, b),
            refreshed_segments(r, b),
            refreshed,
        ),
        refreshed.wf(),
        listable(refreshed.index@.collections),
        opens(k, d, b, mid, l, opened, after),
        d.open_mode == OpenMode::ReadOnly,
        d.at_version is None,
        opened.config.dimension == tuned.dimension,
        opened.config.distance == tuned.distance,
        opts.exact,
    ensures
        holds(b, head_target(b), tuned, refreshed),
        views(refreshed.rows@) == views(opened.rows@),
        refreshed.index@ == opened.index@,
        refreshed.segments@ == opened.segments@,
        refreshed.version == opened.version,
        found(refreshed.index@.collections, refreshed.rows@, coll, id) == found(
            opened.index@.collections,
            opened.rows@,
            coll,
            id,
        ),
        search_of(refreshed, k, h, scope, query, opts) == search_of(
            opened,
            k,
            h,
            scope,
            query,
            opts,
        ),
        !has_moved(refreshed, b),
{
    a_run_keeps_what_is_sealed(k, ws, a, b, c, r);
    a_refresh_reads_as_a_full_read(r, b);
    an_adopted_state_is_current(b, tuned, refreshed);
    assert(mid == b);
    assert(target_of(d, b) == head_target(b));
    assert(views(refreshed.rows@) == gathered(b.objects@, head_target(b).segments));
    assert(refreshed.segments@ == sized(b.objects@, head_target(b).segments));
    let cols = refreshed.index@.collections;
    if cols.contains_key(coll) && cols[coll].docs.contains_key(id) {
        let doc = cols[coll].docs[id];
        if doc.row is Some {
            assert(is_live(cols, (coll, id)));
            let i = doc.row->0 as int;
            assert(views(opened.rows@).len() == opened.rows@.len());
            assert(views(refreshed.rows@).len() == refreshed.rows@.len());
            assert(views(refreshed.rows@)[i] == refreshed.rows@[i]@);
            assert(views(opened.rows@)[i] == opened.rows@[i]@);
        }
    }
    exact_searches_agree(k, h, refreshed, opened, scope, query, opts);
}

} // verus!
