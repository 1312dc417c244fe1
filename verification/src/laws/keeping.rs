//! Copies, caches and counts that are kept beside the records.

use vstd::prelude::*;

use crate::config::{Config, OpenMode};
use crate::dict::views;
use crate::disk::Disk;
use crate::durable::{touches_attrs, touches_text};
use crate::index::{empty_index, legacy_fields, replay, Language, OpV};
use crate::kernel::{exceeds_of, fit_of, quantize_of, Kernel};
use crate::open::{
    at_least_one, findex_cache, first_commit, fts_cache, kept_ann, overfull, shared_writer,
};
use crate::quant::{bit, quantized, refits, sign_code, words_for, Quant};
use crate::store::{apply_all, Store};
use crate::value::Filter;
use crate::wire::{fields_bytes, op_bytes, payload_bytes, text_bytes, watermark};
use crate::write::{extends, passing, passing_in, present, present_count};

verus! {

/// A sign code has a bit for every component, sixty-four to a word, set where the component is
/// negative, and no bit beyond.
pub proof fn a_sign_code_has_a_bit_for_each_component(code: Seq<u64>, v: Seq<u32>, d: int)
    requires
        sign_code(code, v),
        0 <= d < 64 * code.len(),
    ensures
        64 * code.len() >= v.len(),
        64 * code.len() < v.len() + 64,
        d < v.len() ==> (bit(code[d / 64], (d % 64) as u64) <==> v[d] >= 0x8000_0000),
        d >= v.len() ==> !bit(code[d / 64], (d % 64) as u64),
        words_for(v.len()) == code.len(),
{
    assert(crate::quant::sign_at(code, d) == bit(code[d / 64], (d % 64) as u64));
}

/// A copy is fitted anew once the rows are more than twice those that it was fitted to, or where
/// it was fitted to none.
pub proof fn when_a_copy_is_fitted_anew(fitted_to: u64, total: nat)
    ensures
        refits(fitted_to, total) <==> fitted_to == 0 || total > 2 * fitted_to,
{
}

/// A copy that grows has a code for every row: under the scale it was fitted with, or under a new
/// one, fitted to all rows, for all of them.
pub proof fn a_copy_has_a_code_for_every_row<K: Kernel>(
    k: K,
    before: Quant,
    after: Quant,
    rows: Seq<Vec<u32>>,
    i: int,
)
    requires
        extends(k, Some(before), Some(after), rows),
        before is Int8,
        before->vectors@.len() <= rows.len(),
        0 <= i < rows.len(),
    ensures
        after is Int8,
        after->vectors@.len() == rows.len(),
        ({
            let anew = before->params_rows == 0 || rows.len() > 2 * before->params_rows;
            &&& anew ==> after->scale == fit_of(k, views(rows)) && after->params_rows == rows.len()
                && after->vectors@[i]@ == quantize_of(k, fit_of(k, views(rows)), rows[i]@)
            &&& !anew ==> after->scale == before->scale && after->params_rows
                == before->params_rows
            &&& !anew && i < before->vectors@.len() ==> after->vectors@[i]@
                == before->vectors@[i]@
            &&& !anew && i >= before->vectors@.len() ==> after->vectors@[i]@ == quantize_of(
                k,
                before->scale,
                rows[i]@,
            )
        }),
{
    let anew = before->params_rows == 0 || rows.len() > 2 * before->params_rows;
    let v = views(after->vectors@);
    assert(v.len() == after->vectors@.len());
    assert(v[i] == after->vectors@[i]@);
    if anew {
        assert(v[i] == quantized(k, after->scale, views(rows), 0)[i]);
    } else {
        let n = before->vectors@.len() as int;
        if i < n {
            assert(v[i] == views(before->vectors@)[i]);
        } else {
            assert(v[i] == quantized(k, before->scale, views(rows), n)[i - n]);
        }
    }
}

/// A cached text index is used where one is declared and it was saved after this very log; a
/// cached filter index likewise.
pub proof fn which_cached_text_index_is_used(disk: Disk, ops: Seq<OpV>, rows: u64)
    ensures
        ({
            let ix = replay(ops, rows);
            let reads = exists|c: Seq<char>| #[trigger] ix.fts.contains_key(c);
            let finds = exists|c: Seq<char>| #[trigger] ix.findex.contains_key(c);
            &&& fts_cache(disk, ix, ops) is Some ==> reads && disk.fts is Some
                && disk.fts->0.watermark == watermark(ops)
            &&& reads && disk.fts is Some && disk.fts->0.watermark == watermark(ops) ==> fts_cache(
                disk,
                ix,
                ops,
            ) == Some(ops.len() as usize)
            &&& findex_cache(disk, ix, ops) is Some ==> finds && disk.findex == Some(
                watermark(ops),
            )
            &&& finds && disk.findex == Some(watermark(ops)) ==> findex_cache(disk, ix, ops)
                == Some(ops.len() as usize)
        }),
{
    let ix = replay(ops, rows);
    if !(exists|c: Seq<char>| #[trigger] ix.fts.contains_key(c)) {
        assert(ix.fts =~= Map::empty());
    } else {
        let c = choose|c: Seq<char>| #[trigger] ix.fts.contains_key(c);
        assert(!Map::<Seq<char>, Seq<crate::index::FtsFieldV>>::empty().contains_key(c));
    }
    if !(exists|c: Seq<char>| #[trigger] ix.findex.contains_key(c)) {
        assert(ix.findex =~= Map::empty());
    } else {
        let c = choose|c: Seq<char>| #[trigger] ix.findex.contains_key(c);
        assert(!Map::<Seq<char>, Seq<Seq<char>>>::empty().contains_key(c));
    }
}

/// A cached text index is saved again where one is declared and, since it was saved, an operation
/// touched what it reads; a filter index likewise; an index over all rows where rows were added.
pub proof fn when_a_cache_is_saved_again(s: Store, c: Seq<char>)
    ensures
        s.index@.fts.contains_key(c) && s.fts_saved is None ==> s.fts_dirty(),
        s.index@.findex.contains_key(c) && s.findex_saved is None ==> s.findex_dirty(),
        s.index@.fts.contains_key(c) ==> (s.fts_saved matches Some(n) ==> (s.fts_dirty()
            <==> exists|i: int|
            n <= i < s.log@.len() && touches_text((#[trigger] views(s.log@)[i])))),
        s.index@.findex.contains_key(c) ==> (s.findex_saved matches Some(n) ==> (s.findex_dirty()
            <==> exists|i: int|
            n <= i < s.log@.len() && touches_attrs((#[trigger] views(s.log@)[i])))),
        s.ann_dirty() <==> s.ann && (s.ann_saved is None || s.ann_saved->0 != s.rows@.len() as u64),
{
    assert(!Map::<Seq<char>, Seq<crate::index::FtsFieldV>>::empty().contains_key(c));
    assert(!Map::<Seq<char>, Seq<Seq<char>>>::empty().contains_key(c));
    let log = views(s.log@);
    let f = |op: OpV| touches_text(op);
    let g = |op: OpV| touches_attrs(op);
    if let Some(n) = s.fts_saved {
        if crate::durable::touched(log, n as int, f) {
            let i = choose|i: int| n <= i < log.len() && f(#[trigger] log[i]);
            assert(touches_text(log[i]));
        }
        if exists|i: int| n <= i < s.log@.len() && touches_text((#[trigger] views(s.log@)[i])) {
            let i = choose|i: int|
                n <= i < s.log@.len() && touches_text((#[trigger] views(s.log@)[i]));
            assert(f(log[i]));
        }
    }
    if let Some(n) = s.findex_saved {
        if crate::durable::touched(log, n as int, g) {
            let i = choose|i: int| n <= i < log.len() && g(#[trigger] log[i]);
            assert(touches_attrs(log[i]));
        }
        if exists|i: int| n <= i < s.log@.len() && touches_attrs((#[trigger] views(s.log@)[i])) {
            let i = choose|i: int|
                n <= i < s.log@.len() && touches_attrs((#[trigger] views(s.log@)[i]));
            assert(g(log[i]));
        }
    }
}

/// A writer compacts at opening where it is configured to and the share of dead rows, or of dead
/// postings of the text index that it loaded, exceeds the configured one; nobody else does.
pub proof fn when_an_opening_compacts<K: Kernel>(k: K, disk: Disk, s: Store)
    ensures
        s.config.open_mode == OpenMode::ReadOnly || s.config.auto_compact is None ==> !overfull(
            k,
            disk,
            s,
        ),
        s.config.open_mode == OpenMode::ReadWrite ==> (s.config.auto_compact matches Some(share)
            ==> (s.rows@.len() > 0 && s.rows@.len() <= u64::MAX && exceeds_of(
            k,
            s.index.dead_rows as u64,
            s.rows@.len() as u64,
            share,
        ) ==> overfull(k, disk, s))),
        s.fts_saved is None && !(s.config.auto_compact is Some && exceeds_of(
            k,
            s.index.dead_rows as u64,
            at_least_one(s.rows@.len() as u64),
            s.config.auto_compact->0,
        )) ==> !overfull(k, disk, s),
        at_least_one(0) == 1,
        forall|n: u64| n > 0 ==> #[trigger] at_least_one(n) == n,
{
}

/// A first commit is the empty store: version one, one empty segment, and the shape asked for.
pub proof fn what_a_first_commit_is(c: Config, m: crate::disk::Manifest)
    requires
        first_commit(c, m),
    ensures
        m.version == 1,
        m.dimension == c.dimension,
        m.distance == c.distance,
        m.segments@.len() == 1,
        m.segments@[0] == 0,
        m.next_segment == 1,
        m.profile.ann is None,
        m.profile.quantization is None,
        m.profile.query_threads is None,
        m.profile.mmap is None,
{
}

/// Only a writer on shared storage takes a lease.
pub proof fn who_takes_a_lease(c: Config)
    ensures
        shared_writer(c) <==> c.cluster && c.open_mode == OpenMode::ReadWrite,
{
}

/// An index over all rows is kept where its configuration stays, and where that changes there is
/// one exactly where one is configured.
pub proof fn when_an_index_is_kept(s: Store, c: Config)
    ensures
        s.config.ann == c.ann ==> kept_ann(s, c) == s.ann,
        s.config.ann != c.ann ==> (kept_ann(s, c) <==> c.ann is Some),
{
}

/// How many are deleted is how many were there: of each collection those that the filter admits,
/// and of the ids that are named those that are present.
pub proof fn deletions_are_counted(
    s: Store,
    names: Seq<Seq<char>>,
    c: Seq<char>,
    filter: Filter,
    ids: Seq<Seq<char>>,
    id: Seq<char>,
)
    ensures
        ({
            let cols = s.index@.collections;
            &&& passing_in(cols, Seq::<Seq<char>>::empty(), filter) == 0
            &&& passing_in(cols, names.push(c), filter) == passing_in(cols, names, filter)
                + passing(cols, c, filter).len()
            &&& present_count(cols, c, Seq::<Seq<char>>::empty()) == 0
            &&& present_count(cols, c, ids.push(id)) == present_count(cols, c, ids) + if present(
                cols,
                c,
                id,
            ) {
                1int
            } else {
                0
            }
            &&& present(cols, c, id) <==> cols.contains_key(c) && cols[c].docs.contains_key(id)
        }),
{
    assert(names.push(c).drop_last() =~= names);
    assert(ids.push(id).drop_last() =~= ids);
}

/// Batches are counted, each as a version, where a history is kept or the store is shared.
pub proof fn when_batches_are_counted(s: Store)
    ensures
        s.counts_batches() <==> s.config.history_versions is Some || s.config.cluster,
        s.config.cluster && s.version < u64::MAX ==> s.counted().version == s.version + 1,
        s.config.history_versions is None && !s.config.cluster ==> s.counted() == s,
{
}

/// A segment that is sealed gets an index of its own where segments are indexed and it is long
/// enough; the one that is opened has none yet, and those before keep theirs.
pub proof fn a_sealed_segment_is_indexed(s: Store, flags: Seq<bool>, i: int)
    requires
        s.segments@.len() > 0,
        flags.len() == s.segments@.len(),
        0 <= i < flags.len(),
    ensures
        ({
            let out = s.after_seal_flags(flags);
            let splits = s.seals() && !s.ann && s.config.segment_index_min_rows is Some;
            &&& !splits ==> out == flags
            &&& splits ==> {
                &&& out.len() == flags.len() + 1
                &&& !out.last()
                &&& i < flags.len() - 1 ==> out[i] == flags[i]
                &&& out[flags.len() - 1] == (s.segments@.last().rows
                    >= s.config.segment_index_min_rows->0)
            }
        }),
{
}

/// A log is replayed from nothing, one operation after another, and replaying on is replaying all.
pub proof fn a_log_is_replayed_in_order(ops: Seq<OpV>, more: Seq<OpV>, rows: u64)
    ensures
        replay(Seq::<OpV>::empty(), rows) == empty_index(),
        empty_index().collections == Map::<Seq<char>, crate::index::CollV>::empty(),
        empty_index().dead_rows == 0,
        replay(ops + more, rows) == apply_all(replay(ops, rows), more, rows),
    decreases more.len(),
{
    if more.len() == 0 {
        assert(ops + more =~= ops);
    } else {
        a_log_is_replayed_in_order(ops, more.drop_last(), rows);
        assert((ops + more).drop_last() =~= ops + more.drop_last());
        assert((ops + more).last() == more.last());
    }
}

/// Fields that were declared with a language alone have the usual knobs, and no folding.
pub proof fn fields_without_knobs_have_the_usual_ones(fields: Seq<(String, Language)>, i: int)
    requires
        0 <= i < fields.len(),
    ensures
        legacy_fields(fields).len() == fields.len(),
        legacy_fields(fields)[i].field == fields[i].0@,
        legacy_fields(fields)[i].language == fields[i].1,
        legacy_fields(fields)[i].k1 == 0x3f99_999a,
        legacy_fields(fields)[i].b == 0x3f40_0000,
        !legacy_fields(fields)[i].ascii_folding,
{
}

/// What an operation takes beyond a fixed head: the texts that it names, the row of a record that
/// has one, and what it stores.
pub proof fn what_operations_take(
    c: Seq<char>,
    id: Seq<char>,
    row: u64,
    attrs: crate::value::AttrsV,
    a: OpV,
    b: OpV,
)
    ensures
        payload_bytes(OpV::CreateCollection(c)) == text_bytes(c),
        payload_bytes(OpV::DropCollection(c)) == text_bytes(c),
        payload_bytes(OpV::Delete(c, id)) == text_bytes(c) + text_bytes(id),
        payload_bytes(OpV::Put(c, id, Some(row), attrs)) == payload_bytes(
            OpV::Put(c, id, None, attrs),
        ) + 8,
        payload_bytes(OpV::Put(c, id, None, attrs)) > text_bytes(c) + text_bytes(id),
        op_bytes(a) - op_bytes(b) == payload_bytes(a) - payload_bytes(b),
        fields_bytes(Seq::empty()) == 8,
{
    attrs_take_room(crate::dict::ordered(attrs));
}

proof fn attrs_take_room(e: Seq<(Seq<char>, crate::value::ValueV)>)
    ensures
        crate::wire::attrs_bytes(e) >= 8,
    decreases e.len(),
{
    if e.len() > 0 {
        attrs_take_room(e.drop_last());
    }
}

} // verus!
