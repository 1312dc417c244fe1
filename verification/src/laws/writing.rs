//! What a write changes, and what it leaves alone.

use vstd::prelude::*;

use crate::compact::{compacted, is_used, place, used_rows};
use crate::config::{plain, LeaseWait, OpenMode};
use crate::index::{apply, default_field, live_in, FtsFieldV, IndexV, Language, OpV};
use crate::kernel::{unit_of, Kernel};
use crate::model::{Distance, Record};
use crate::store::{seg_total, usable_field, Segment, Store, StoreError};
use crate::value::{passes, AttrsV, Filter, ValueV};
use crate::write::{
    batch_ops, clamp_i64, grown, hits_of, misfit, moved_expiry, next_count, passing, present,
    recall_op, recalled, row_bytes, row_for, stored, swept_of, vec_count, without,
};

verus! {

/// Two indexes hold the same under `(c, id)`.
pub open spec fn same_doc(a: IndexV, b: IndexV, c: Seq<char>, id: Seq<char>) -> bool {
    &&& present(a.collections, c, id) <==> present(b.collections, c, id)
    &&& present(a.collections, c, id) ==> a.collections[c].docs[id] == b.collections[c].docs[id]
}

/// Two indexes hold the same metadata for `c`.
pub open spec fn same_meta(a: IndexV, b: IndexV, c: Seq<char>) -> bool {
    a.collections.contains_key(c) && b.collections.contains_key(c) ==> a.collections[c].meta
        == b.collections[c].meta
}

/// A document has a row that counts.
pub open spec fn has_row(ix: IndexV, c: Seq<char>, id: Seq<char>) -> bool {
    present(ix.collections, c, id) && ix.collections[c].docs[id].row is Some
}

/// Storing a document puts it there, as it is, over what was there before, whose row, if it had
/// one, is dead; it changes no other document, no metadata and no schema. A row that was never
/// written is not stored.
pub proof fn storing_a_document(
    ix: IndexV,
    c: Seq<char>,
    id: Seq<char>,
    row: Option<u64>,
    attrs: AttrsV,
    rows: u64,
    d: Seq<char>,
    other: Seq<char>,
)
    ensures
        ({
            let out = apply(ix, OpV::Put(c, id, row, attrs), rows);
            let written = row is None || row->0 < rows;
            &&& !written ==> out == ix
            &&& written ==> present(out.collections, c, id) && out.collections[c].docs[id].row
                == row && out.collections[c].docs[id].attrs == attrs
            &&& d != c || other != id ==> same_doc(ix, out, d, other)
            &&& same_meta(ix, out, d)
            &&& !ix.collections.contains_key(c) && written ==> out.collections[c].meta
                == Map::<Seq<char>, Seq<char>>::empty()
            &&& d != c ==> (out.collections.contains_key(d) <==> ix.collections.contains_key(d))
            &&& out.fts == ix.fts && out.findex == ix.findex
            &&& written ==> out.dead_rows == ix.dead_rows + if has_row(ix, c, id) {
                1int
            } else {
                0
            }
        }),
{
}

/// Deleting a document takes it away, and its row, if it had one, is dead; it changes nothing
/// else, and nothing at all where the document is not there.
pub proof fn deleting_a_document(
    ix: IndexV,
    c: Seq<char>,
    id: Seq<char>,
    rows: u64,
    d: Seq<char>,
    other: Seq<char>,
)
    ensures
        ({
            let out = apply(ix, OpV::Delete(c, id), rows);
            &&& !present(out.collections, c, id)
            &&& !present(ix.collections, c, id) ==> out == ix
            &&& d != c || other != id ==> same_doc(ix, out, d, other)
            &&& same_meta(ix, out, d)
            &&& out.collections.contains_key(d) <==> ix.collections.contains_key(d)
            &&& out.fts == ix.fts && out.findex == ix.findex
            &&& out.dead_rows == ix.dead_rows + if has_row(ix, c, id) {
                1int
            } else {
                0
            }
        }),
{
}

/// Dropping a collection takes all of its documents away, whose rows are dead, and touches no
/// other collection.
pub proof fn dropping_a_collection(
    ix: IndexV,
    c: Seq<char>,
    rows: u64,
    d: Seq<char>,
    other: Seq<char>,
)
    ensures
        ({
            let out = apply(ix, OpV::DropCollection(c), rows);
            &&& !out.collections.contains_key(c)
            &&& d != c ==> (out.collections.contains_key(d) <==> ix.collections.contains_key(d))
            &&& d != c ==> same_doc(ix, out, d, other) && same_meta(ix, out, d)
            &&& out.fts == ix.fts && out.findex == ix.findex
            &&& out.dead_rows == ix.dead_rows + live_in(ix.collections, c).len()
            &&& forall|p: (Seq<char>, Seq<char>)| #[trigger]
                live_in(ix.collections, c).contains(p) <==> p.0 == c && has_row(ix, c, p.1)
        }),
{
}

/// Creating a collection, setting its metadata or a schema of it makes it be there, changes no
/// document, and nothing of another collection.
pub proof fn describing_a_collection(
    ix: IndexV,
    c: Seq<char>,
    meta: Map<Seq<char>, Seq<char>>,
    fields: Seq<FtsFieldV>,
    names: Seq<Seq<char>>,
    rows: u64,
    d: Seq<char>,
    id: Seq<char>,
)
    ensures
        ({
            let made = apply(ix, OpV::CreateCollection(c), rows);
            let told = apply(ix, OpV::SetMeta(c, meta), rows);
            let read = apply(ix, OpV::SetFts(c, fields), rows);
            let found = apply(ix, OpV::SetFilterIndex(c, names), rows);
            &&& made.collections.contains_key(c) && told.collections.contains_key(c)
                && read.collections.contains_key(c) && found.collections.contains_key(c)
            &&& same_doc(ix, made, d, id) && same_doc(ix, told, d, id) && same_doc(ix, read, d, id)
                && same_doc(ix, found, d, id)
            &&& same_meta(ix, made, d) && same_meta(ix, read, d) && same_meta(ix, found, d)
            &&& told.collections[c].meta == meta
            &&& d != c ==> same_meta(ix, told, d)
            &&& made.dead_rows == ix.dead_rows && told.dead_rows == ix.dead_rows && read.dead_rows
                == ix.dead_rows && found.dead_rows == ix.dead_rows
            &&& made.fts == ix.fts && told.fts == ix.fts && found.fts == ix.fts
            &&& made.findex == ix.findex && told.findex == ix.findex && read.findex == ix.findex
            &&& read.fts.contains_key(c) && read.fts[c] == fields
            &&& found.findex.contains_key(c) && found.findex[c] == names
            &&& d != c ==> (read.fts.contains_key(d) <==> ix.fts.contains_key(d)) && (
            ix.fts.contains_key(d) ==> read.fts[d] == ix.fts[d])
            &&& d != c ==> (found.findex.contains_key(d) <==> ix.findex.contains_key(d)) && (
            ix.findex.contains_key(d) ==> found.findex[d] == ix.findex[d])
        }),
{
}

/// Recalling a document stamps how often and when it was recalled, and its expiry where that
/// moves; its row and its other attributes stay, and no other document changes.
pub proof fn recalling_a_document(
    ix: IndexV,
    c: Seq<char>,
    id: Seq<char>,
    count: i64,
    last: i64,
    expires: Option<i64>,
    rows: u64,
    d: Seq<char>,
    other: Seq<char>,
    key: Seq<char>,
)
    ensures
        ({
            let out = apply(ix, OpV::Reinforce(c, id, count, last, expires), rows);
            let was = ix.collections[c].docs[id];
            let is = out.collections[c].docs[id];
            &&& !present(ix.collections, c, id) ==> out == ix
            &&& d != c || other != id ==> same_doc(ix, out, d, other)
            &&& same_meta(ix, out, d)
            &&& out.dead_rows == ix.dead_rows && out.fts == ix.fts && out.findex == ix.findex
            &&& present(ix.collections, c, id) ==> {
                &&& present(out.collections, c, id)
                &&& is.row == was.row
                &&& is.attrs.contains_key("nidus.last_accessed"@)
                    && is.attrs["nidus.last_accessed"@] == ValueV::DateTime(last)
                &&& is.attrs.contains_key("nidus.access_count"@) && is.attrs["nidus.access_count"@]
                    == ValueV::Int(count)
                &&& expires matches Some(t) ==> is.attrs.contains_key("nidus.expires_at"@)
                    && is.attrs["nidus.expires_at"@] == ValueV::DateTime(t)
                &&& key != "nidus.last_accessed"@ && key != "nidus.access_count"@ && (expires is None
                    || key != "nidus.expires_at"@) ==> (is.attrs.contains_key(key)
                    <==> was.attrs.contains_key(key)) && (was.attrs.contains_key(key)
                    ==> is.attrs[key] == was.attrs[key])
            }
        }),
{
    reveal_strlit("nidus.last_accessed");
    reveal_strlit("nidus.access_count");
    reveal_strlit("nidus.expires_at");
    assert("nidus.last_accessed"@.len() == 19);
    assert("nidus.access_count"@.len() == 18);
    assert("nidus.expires_at"@.len() == 16);
}

/// A recall counts one more, from nothing where no count is kept, and never past the largest
/// number; the last recall is now.
pub proof fn a_recall_counts_one_more(
    ix: IndexV,
    c: Seq<char>,
    id: Seq<char>,
    now: i64,
    extend: Option<i64>,
)
    ensures
        ({
            let attrs = ix.collections[c].docs[id].attrs;
            let key = "nidus.access_count"@;
            &&& !attrs.contains_key(key) || !(attrs[key] is Int) ==> next_count(attrs) == 1
            &&& attrs.contains_key(key) && attrs[key] is Int && attrs[key]->Int_0
                < 0x7fff_ffff_ffff_ffff ==> next_count(attrs) == attrs[key]->Int_0 + 1
            &&& attrs.contains_key(key) && attrs[key] is Int && attrs[key]->Int_0
                == 0x7fff_ffff_ffff_ffff ==> next_count(attrs) == 0x7fff_ffff_ffff_ffff
            &&& recall_op(ix, c, id, now, extend) == OpV::Reinforce(
                c,
                id,
                next_count(attrs),
                now,
                moved_expiry(attrs, now, extend),
            )
        }),
{
}

/// An expiry moves only where the recall extends it and the record has one, only later, and to as
/// many seconds from now as were asked for.
pub proof fn an_expiry_only_moves_later(attrs: AttrsV, now: i64, extend: Option<i64>)
    ensures
        ({
            let key = "nidus.expires_at"@;
            let moved = moved_expiry(attrs, now, extend);
            &&& extend is None ==> moved is None
            &&& !attrs.contains_key(key) || !(attrs[key] is DateTime) ==> moved is None
            &&& moved matches Some(t) ==> t > attrs[key]->DateTime_0
            &&& extend matches Some(n) ==> attrs.contains_key(key) && attrs[key] is DateTime
                && -0x8000_0000_0000_0000 <= n * 1000 <= 0x7fff_ffff_ffff_ffff
                && -0x8000_0000_0000_0000 <= now + n * 1000 <= 0x7fff_ffff_ffff_ffff ==> moved == (
            if now + n * 1000 > attrs[key]->DateTime_0 {
                Some((now + n * 1000) as i64)
            } else {
                None
            })
        }),
{
}

/// A number is held within the range of its type.
pub proof fn numbers_are_held_in_range(n: int)
    ensures
        n > 0x7fff_ffff_ffff_ffff ==> clamp_i64(n) == 0x7fff_ffff_ffff_ffff,
        n < -0x8000_0000_0000_0000 ==> clamp_i64(n) == -0x8000_0000_0000_0000,
        -0x8000_0000_0000_0000 <= n <= 0x7fff_ffff_ffff_ffff ==> clamp_i64(n) == n,
        n > 0xffff_ffff_ffff_ffff ==> crate::write::clamp_u64(n) == 0xffff_ffff_ffff_ffff,
        0 <= n <= 0xffff_ffff_ffff_ffff ==> crate::write::clamp_u64(n) == n,
{
}

/// Recalling one id more recalls that document once more, as it stands after the others; one that
/// is not there is passed over.
pub proof fn recalls_follow_one_another(
    ix: IndexV,
    c: Seq<char>,
    ids: Seq<Seq<char>>,
    id: Seq<char>,
    now: i64,
    extend: Option<i64>,
    rows: u64,
)
    ensures
        recalled(ix, c, Seq::<Seq<char>>::empty(), now, extend, rows) == ix,
        ({
            let prior = recalled(ix, c, ids, now, extend, rows);
            recalled(ix, c, ids.push(id), now, extend, rows) == if ix.collections.contains_key(c)
                && ix.collections[c].docs.contains_key(id) {
                apply(
                    prior,
                    OpV::Reinforce(
                        c,
                        id,
                        next_count(prior.collections[c].docs[id].attrs),
                        now,
                        moved_expiry(prior.collections[c].docs[id].attrs, now, extend),
                    ),
                    rows,
                )
            } else {
                prior
            }
        }),
{
    assert(ids.push(id).drop_last() =~= ids);
}

/// Under the cosine metric a vector is stored at length one, and under the others as it is.
pub proof fn how_a_vector_is_stored<K: Kernel>(k: K, v: Vec<u32>)
    ensures
        stored(k, Distance::Cosine, v) == unit_of(k, v@),
        stored(k, Distance::DotProduct, v) == v@,
        stored(k, Distance::Euclidean, v) == v@,
{
}

/// A batch stores its records in their order: each with a vector takes the next row from the base
/// on, and one without takes none.
pub proof fn a_batch_takes_rows_in_order(c: Seq<char>, records: Seq<Record>, base: int, i: int)
    requires
        0 <= i < records.len(),
        0 <= base,
        base + records.len() <= u64::MAX,
    ensures
        row_for(records, 0, base) == base,
        row_for(records, i + 1, base) == row_for(records, i, base) + if records[i].vector is Some {
            1int
        } else {
            0
        },
        base <= row_for(records, i, base) <= base + i,
        batch_ops(c, records, base).len() == records.len(),
        records[i].vector is None ==> batch_ops(c, records, base)[i] == OpV::Put(
            c,
            records[i].id@,
            None,
            records[i].attrs@,
        ),
        records[i].vector is Some ==> batch_ops(c, records, base)[i] == OpV::Put(
            c,
            records[i].id@,
            Some(row_for(records, i, base) as u64),
            records[i].attrs@,
        ),
    decreases i,
{
    assert(records.take(0) =~= Seq::<Record>::empty());
    assert(records.take(i + 1).drop_last() =~= records.take(i));
    assert(records.take(i + 1).last() == records[i]);
    if i > 0 {
        a_batch_takes_rows_in_order(c, records, base, i - 1);
    }
}

/// The first vector of another length than the store's is the one that is named.
pub proof fn the_first_misfit_is_named(records: Seq<Record>, r: Record, dim: usize)
    ensures
        misfit(Seq::<Record>::empty(), dim) is None,
        misfit(records, dim) is Some ==> misfit(records.push(r), dim) == misfit(records, dim),
        misfit(records, dim) is None && r.vector is None ==> misfit(records.push(r), dim) is None,
        misfit(records, dim) is None && r.vector is Some && r.vector->0@.len() == dim ==> misfit(
            records.push(r),
            dim,
        ) is None,
        misfit(records, dim) is None && r.vector is Some && r.vector->0@.len() != dim
            && r.vector->0@.len() <= usize::MAX ==> misfit(records.push(r), dim) == Some(
            r.vector->0@.len() as usize,
        ),
{
    assert(records.push(r).drop_last() =~= records);
}

/// What an upsert is refused for: a store that takes no writes, then a vector of the wrong length,
/// then a cap on the bytes of all rows, four to a component, that the batch would exceed.
pub proof fn what_an_upsert_is_refused_for(s: Store, records: Seq<Record>)
    ensures
        ({
            let read_only = s.config.open_mode == OpenMode::ReadOnly;
            let bytes = (s.rows@.len() + vec_count(records)) * s.config.dimension * 4;
            let over = s.config.max_vector_bytes matches Some(cap) && bytes > cap;
            let refusal = s.upsert_refusal(records);
            &&& read_only ==> refusal == Some(StoreError::ReadOnly)
            &&& !read_only && s.fenced ==> refusal == Some(StoreError::Fenced)
            &&& !read_only && !s.fenced && misfit(records, s.config.dimension) is Some ==> refusal
                == Some(
                StoreError::VectorLength {
                    got: misfit(records, s.config.dimension)->0,
                    want: s.config.dimension,
                },
            )
            &&& !read_only && !s.fenced && misfit(records, s.config.dimension) is None && over
                ==> refusal is Some && refusal->0 is OverCap && (bytes <= 0xffff_ffff_ffff_ffff
                ==> refusal == Some(
                StoreError::OverCap {
                    bytes: bytes as u64,
                    cap: s.config.max_vector_bytes->0,
                },
            ))
            &&& refusal is None ==> !read_only && !s.fenced && misfit(
                records,
                s.config.dimension,
            ) is None && !over
        }),
{
    let n = s.rows@.len() as int + vec_count(records);
    assert(row_bytes(n, s.config.dimension) == n * s.config.dimension * 4);
}

/// A segment is sealed once it is as long as it may be: the next batch opens a new one, under the
/// next id, and grows it alone.
pub proof fn a_full_segment_is_sealed(s: Store, n: int)
    requires
        s.segments@.len() > 0,
        0 <= n,
        s.segments@.last().rows + n <= u64::MAX,
        n <= u64::MAX,
    ensures
        s.seals() <==> (s.config.segment_max_rows matches Some(max) && s.segments@.last().rows
            >= max),
        !s.seals() ==> s.after_seal() == s.segments@,
        s.seals() ==> s.after_seal().len() == s.segments@.len() + 1 && s.after_seal().drop_last()
            == s.segments@ && s.after_seal().last() == (Segment { id: s.next_segment, rows: 0 }),
        ({
            let out = grown(s.after_seal(), n);
            &&& out.len() == s.after_seal().len()
            &&& out.drop_last() == s.after_seal().drop_last()
            &&& out.last().id == s.after_seal().last().id
            &&& out.last().rows == s.after_seal().last().rows + n
            &&& seg_total(out) == seg_total(s.segments@) + n
        }),
{
    let out = grown(s.after_seal(), n);
    assert(out.drop_last() =~= s.after_seal().drop_last());
    if s.seals() {
        assert(s.after_seal().drop_last() =~= s.segments@);
    }
}

/// The records that a conditional delete takes are those of the collection that the filter admits.
pub proof fn what_a_conditional_delete_takes(
    ix: IndexV,
    c: Seq<char>,
    filter: Filter,
    d: Seq<char>,
    id: Seq<char>,
)
    ensures
        passing(ix.collections, c, filter).contains(id) <==> ix.collections.contains_key(c)
            && ix.collections[c].docs.contains_key(id) && passes(
            filter,
            ix.collections[c].docs[id].attrs,
        ),
        ({
            let out = without(ix.collections, c, passing(ix.collections, c, filter));
            let gone = d == c && present(ix.collections, c, id) && passes(
                filter,
                ix.collections[c].docs[id].attrs,
            );
            &&& present(out, d, id) <==> present(ix.collections, d, id) && !gone
            &&& present(out, d, id) ==> out[d].docs[id] == ix.collections[d].docs[id]
            &&& out.contains_key(d) <==> ix.collections.contains_key(d)
            &&& ix.collections.contains_key(d) ==> out[d].meta == ix.collections[d].meta
        }),
{
}

/// A delete by id takes the documents that are named and there, and no others.
pub proof fn what_a_delete_takes(
    ix: IndexV,
    c: Seq<char>,
    gone: Set<Seq<char>>,
    d: Seq<char>,
    id: Seq<char>,
)
    ensures
        hits_of(ix.collections, c, gone).contains(id) <==> gone.contains(id) && present(
            ix.collections,
            c,
            id,
        ),
        ({
            let out = without(ix.collections, c, gone);
            &&& present(out, d, id) <==> present(ix.collections, d, id) && !(d == c
                && gone.contains(id))
            &&& present(out, d, id) ==> out[d].docs[id] == ix.collections[d].docs[id]
            &&& out.contains_key(d) <==> ix.collections.contains_key(d)
            &&& ix.collections.contains_key(d) ==> out[d].meta == ix.collections[d].meta
        }),
{
}

/// A sweep takes the records that the filter admits out of every collection in its scope, and
/// leaves all others.
pub proof fn what_a_sweep_takes(
    ix: IndexV,
    scope: Set<Seq<char>>,
    filter: Filter,
    d: Seq<char>,
    id: Seq<char>,
)
    ensures
        ({
            let out = swept_of(ix.collections, scope, filter);
            &&& present(out, d, id) <==> present(ix.collections, d, id) && !(scope.contains(d)
                && passes(filter, ix.collections[d].docs[id].attrs))
            &&& present(out, d, id) ==> out[d].docs[id] == ix.collections[d].docs[id]
            &&& out.contains_key(d) <==> ix.collections.contains_key(d)
            &&& ix.collections.contains_key(d) ==> out[d].meta == ix.collections[d].meta
        }),
{
}

/// A compaction keeps every document with its attributes and every collection with its metadata,
/// counts no dead row any more, and keeps the schemas of the collections that are there.
pub proof fn what_a_compaction_keeps(ix: IndexV, c: Seq<char>, id: Seq<char>)
    ensures
        ({
            let out = compacted(ix);
            &&& present(out.collections, c, id) <==> present(ix.collections, c, id)
            &&& present(ix.collections, c, id) ==> out.collections[c].docs[id].attrs
                == ix.collections[c].docs[id].attrs && (out.collections[c].docs[id].row is Some
                <==> ix.collections[c].docs[id].row is Some)
            &&& ix.collections.contains_key(c) <==> out.collections.contains_key(c)
            &&& ix.collections.contains_key(c) ==> out.collections[c].meta
                == ix.collections[c].meta
            &&& out.dead_rows == 0
            &&& out.fts.contains_key(c) <==> ix.fts.contains_key(c) && ix.collections.contains_key(
                c,
            )
            &&& out.fts.contains_key(c) ==> out.fts[c] == ix.fts[c]
            &&& out.findex.contains_key(c) <==> ix.findex.contains_key(c)
                && ix.collections.contains_key(c)
            &&& out.findex.contains_key(c) ==> out.findex[c] == ix.findex[c]
        }),
{
}

/// The rows that a compaction keeps are those that a document owns, in their order: a row moves to
/// as many places as owned rows stand before it.
pub proof fn owned_rows_close_up<T>(rows: Seq<T>, ix: IndexV, n: int, r: int)
    requires
        0 <= r < n <= rows.len(),
    ensures
        place(ix.collections, 0) == 0,
        place(ix.collections, r + 1) == place(ix.collections, r) + if is_used(ix.collections, r) {
            1int
        } else {
            0
        },
        used_rows(rows, ix.collections, n).len() == place(ix.collections, n),
        is_used(ix.collections, r) ==> place(ix.collections, r) < place(ix.collections, n)
            && used_rows(rows, ix.collections, n)[place(ix.collections, r) as int] == rows[r],
    decreases n,
{
    if n > 1 {
        owned_rows_close_up(rows, ix, n - 1, if r < n - 1 {
            r
        } else {
            0
        });
    } else {
        assert(used_rows(rows, ix.collections, 0).len() == 0);
    }
}

/// What a store is configured with where nothing is chosen.
pub proof fn what_is_configured_by_default(dim: usize, field: Seq<char>, language: Language)
    ensures
        plain(dim).dimension == dim,
        plain(dim).distance == Distance::Cosine,
        plain(dim).open_mode == OpenMode::ReadWrite,
        plain(dim).auto_compact == Some(0x3f00_0000u32),
        plain(dim).max_vector_bytes is None,
        plain(dim).quantization is None,
        plain(dim).ann is None,
        plain(dim).segment_max_rows is None,
        plain(dim).segment_index_min_rows is None,
        plain(dim).query_threads == 1,
        !plain(dim).mmap,
        plain(dim).history_versions is None,
        plain(dim).at_version is None,
        !plain(dim).cluster,
        plain(dim).lock_ttl == 30_000,
        plain(dim).lease_wait == LeaseWait::Fail,
        default_field(field, language).field == field,
        default_field(field, language).language == language,
        default_field(field, language).k1 == 0x3f99_999a,
        default_field(field, language).b == 0x3f40_0000,
        !default_field(field, language).ascii_folding,
{
}

/// The knobs of an indexed field are finite and not negative, and the length knob is at most one.
pub proof fn which_fields_can_be_indexed(f: FtsFieldV)
    ensures
        usable_field(f) <==> (f.k1 < 0x7f80_0000 || f.k1 == 0x8000_0000) && (f.b <= 0x3f80_0000
            || f.b == 0x8000_0000),
{
}

} // verus!
