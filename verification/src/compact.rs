//! Compaction: dropping the rows that no document refers to any more.

use vstd::prelude::*;

use crate::dict::{dup_all, has_key, ordered, to_map, to_map_at, views, Dup};
use crate::index::{
    apply, is_live, put, replay, replay_accounts, replay_ops, replay_push, rows_within, weight,
    CollV, CollsV, Collection, DocV, IndexV, Indexed, Op, OpV, Schema,
};
use crate::kernel::{functional, Kernel};
use crate::order::reversed;
use crate::quant::{copies, rebuilt, Quant};
use crate::rows::a_compaction_keeps_rows_apart;
use crate::scan::check_listable;
use crate::store::{
    replay_in_range, rows_in_range, rows_shaped, seg_total, Segment, Store, StoreError,
};
use crate::walk::{doc_at, owner, owner_in, owners};

verus! {

/// A document refers to the row.
pub open spec fn is_used(cols: CollsV, r: int) -> bool {
    owner(ordered(cols), r as u64) is Some
}

/// The number that a row gets: how many of the rows before it are used.
pub open spec fn place(cols: CollsV, r: int) -> nat
    decreases r,
{
    if r <= 0 {
        0
    } else {
        place(cols, r - 1) + if is_used(cols, r - 1) {
            1nat
        } else {
            0
        }
    }
}

/// The used ones of the first `n` rows, in their order.
pub open spec fn used_rows<T>(rows: Seq<T>, cols: CollsV, n: int) -> Seq<T>
    decreases n,
{
    if n <= 0 {
        Seq::empty()
    } else if is_used(cols, n - 1) {
        used_rows(rows, cols, n - 1).push(rows[n - 1])
    } else {
        used_rows(rows, cols, n - 1)
    }
}

/// A document under its row's new number.
pub open spec fn moved_doc(cols: CollsV, d: DocV) -> DocV {
    DocV {
        row: match d.row {
            Some(r) => Some(place(cols, r as int) as u64),
            None => None,
        },
        attrs: d.attrs,
    }
}

/// A collection's documents under the new numbers.
pub open spec fn moved_coll(cols: CollsV, c: CollV) -> CollV {
    CollV { meta: c.meta, docs: c.docs.map_values(|d: DocV| moved_doc(cols, d)) }
}

/// The index after a compaction: every document and every collection's metadata is as it was,
/// rows have new numbers, none is dead, and schemas of dropped collections are gone.
pub open spec fn compacted(ix: IndexV) -> IndexV {
    IndexV {
        collections: ix.collections.map_values(|c: CollV| moved_coll(ix.collections, c)),
        dead_rows: 0,
        fts: ix.fts.restrict(ix.collections.dom()),
        findex: ix.findex.restrict(ix.collections.dom()),
    }
}

proof fn owner_in_some(e: Seq<(Seq<char>, DocV)>, j: int, row: u64)
    requires
        0 <= j < e.len(),
        e[j].1.row == Some(row),
    ensures
        owner_in(e, row) is Some,
    decreases e.len(),
{
    if j < e.len() - 1 {
        assert(e.drop_last()[j] == e[j]);
        owner_in_some(e.drop_last(), j, row);
    }
}

proof fn owner_some(colls: Seq<(Seq<char>, CollV)>, i: int, j: int, row: u64)
    requires
        0 <= i < colls.len(),
        0 <= j < ordered(colls[i].1.docs).len(),
        ordered(colls[i].1.docs)[j].1.row == Some(row),
    ensures
        owner(colls, row) is Some,
    decreases colls.len(),
{
    if i == colls.len() - 1 {
        owner_in_some(ordered(colls.last().1.docs), j, row);
    } else {
        assert(colls.drop_last()[i] == colls[i]);
        owner_some(colls.drop_last(), i, j, row);
    }
}

/// A later row does not get an earlier place.
pub proof fn place_grows(cols: CollsV, r: int, n: int)
    requires
        0 <= r <= n,
    ensures
        place(cols, r) <= place(cols, n),
        place(cols, n) <= n,
        r < n && is_used(cols, r) ==> place(cols, r) < place(cols, n),
    decreases n,
{
    if r < n {
        place_grows(cols, r, n - 1);
    } else if n > 0 {
        place_grows(cols, n - 1, n - 1);
    }
}

/// A used row keeps its vector: it is found again under its new number.
pub proof fn used_row_is_kept<T>(rows: Seq<T>, cols: CollsV, n: int, r: int)
    requires
        0 <= r < n <= rows.len(),
        is_used(cols, r),
    ensures
        used_rows(rows, cols, n).len() == place(cols, n),
        place(cols, r) < place(cols, n),
        used_rows(rows, cols, n)[place(cols, r) as int] == rows[r],
    decreases n,
{
    used_rows_len(rows, cols, n);
    place_grows(cols, r, n);
    if r < n - 1 {
        used_row_is_kept(rows, cols, n - 1, r);
    } else {
        used_rows_len(rows, cols, n - 1);
    }
}

proof fn used_rows_len<T>(rows: Seq<T>, cols: CollsV, n: int)
    ensures
        used_rows(rows, cols, n).len() == place(cols, n),
    decreases n,
{
    if n > 0 {
        used_rows_len(rows, cols, n - 1);
    }
}

proof fn used_rows_shaped(rows: Seq<Vec<u32>>, cols: CollsV, n: int, dim: nat)
    requires
        0 <= n <= rows.len(),
        rows_shaped(rows, dim),
    ensures
        rows_shaped(used_rows(rows, cols, n), dim),
    decreases n,
{
    if n > 0 {
        used_rows_shaped(rows, cols, n - 1, dim);
        let all = used_rows(rows, cols, n);
        let rest = used_rows(rows, cols, n - 1);
        assert forall|i: int| 0 <= i < all.len() implies (#[trigger] all[i])@.len() == dim by {
            if i < rest.len() {
                assert(all[i] == rest[i]);
            } else {
                assert(rows[n - 1]@.len() == dim);
            }
        }
    }
}

/// The row of a document is used.
pub proof fn live_row_is_used(cols: CollsV, c: Seq<char>, id: Seq<char>)
    requires
        crate::scan::listable(cols),
        is_live(cols, (c, id)),
    ensures
        is_used(cols, cols[c].docs[id].row->0 as int),
{
    let row = cols[c].docs[id].row->0;
    let colls = ordered(cols);
    assert(has_key(colls, c));
    let i = choose|i: int| 0 <= i < colls.len() && (#[trigger] colls[i]).0 == c;
    crate::scan::listable_at(cols, i);
    let e = ordered(colls[i].1.docs);
    assert(has_key(e, id));
    let j = choose|j: int| 0 <= j < e.len() && (#[trigger] e[j]).0 == id;
    to_map_at(e, j);
    owner_some(colls, i, j, row);
}

/// Compaction keeps every record: the same documents, with the same attributes and vectors.
pub proof fn compaction_keeps_records<T>(ix: IndexV, rows: Seq<T>, c: Seq<char>, id: Seq<char>)
    requires
        crate::scan::listable(ix.collections),
        rows_in_range(ix.collections, rows.len() as int),
        rows.len() <= u64::MAX,
        ix.collections.contains_key(c),
    ensures
        compacted(ix).collections.contains_key(c),
        compacted(ix).collections[c].meta == ix.collections[c].meta,
        compacted(ix).collections[c].docs.contains_key(id) <==> ix.collections[c].docs.contains_key(
            id,
        ),
        ix.collections[c].docs.contains_key(id) ==> {
            let d = ix.collections[c].docs[id];
            let after = compacted(ix).collections[c].docs[id];
            &&& after.attrs == d.attrs
            &&& after.row is Some <==> d.row is Some
            &&& d.row is Some ==> used_rows(
                rows,
                ix.collections,
                rows.len() as int,
            )[after.row->0 as int] == rows[d.row->0 as int]
        },
{
    let cols = ix.collections;
    if cols[c].docs.contains_key(id) && cols[c].docs[id].row is Some {
        let row = cols[c].docs[id].row->0;
        assert(is_live(cols, (c, id)));
        assert(cols[c].docs[id].row->0 < rows.len());
        live_row_is_used(cols, c, id);
        used_row_is_kept(rows, cols, rows.len() as int, row as int);
        place_grows(cols, row as int, rows.len() as int);
    }
}

// ── Doing it ────────────────────────────────────────────────────────────────

/// `places` gives the new number of every row.
pub open spec fn numbers(places: Seq<u64>, cols: CollsV) -> bool {
    forall|r: int| 0 <= r < places.len() ==> #[trigger] places[r] == place(cols, r)
}

/// The keys of the first `n` entries.
pub open spec fn keys_upto<A>(e: Seq<(Seq<char>, A)>, n: int) -> Set<Seq<char>> {
    Set::new(|k: Seq<char>| exists|j: int| 0 <= j < n && (#[trigger] e[j]).0 == k)
}

fn log_op(ops: &mut Vec<Op>, op: Op, Ghost(rows): Ghost<u64>)
    requires
        rows_within(views(old(ops)@), rows),
        op@ matches OpV::Put(_, _, Some(row), _) ==> row < rows,
    ensures
        rows_within(views(final(ops)@), rows),
        replay(views(final(ops)@), rows) == apply(replay(views(old(ops)@), rows), op@, rows),
{
    ops.push(op);
    proof {
        assert(views(ops@) =~= views(old(ops)@).push(op@));
        replay_push(views(old(ops)@), op@, rows);
        assert forall|i: int| 0 <= i < views(ops@).len() implies (#[trigger] views(
            ops@,
        )[i] matches OpV::Put(_, _, Some(row), _) ==> row < rows) by {
            if i < old(ops)@.len() {
                assert(views(ops@)[i] == views(old(ops)@)[i]);
            }
        }
    }
}

/// Log what brings a collection back: its metadata, its schemas and its documents.
fn log_collection(
    ops: &mut Vec<Op>,
    name: &String,
    col: &Collection,
    fts: Option<&Schema>,
    findex: Option<&Indexed>,
    places: &Vec<u64>,
    Ghost(cols): Ghost<CollsV>,
    Ghost(rows): Ghost<u64>,
)
    requires
        rows_within(views(old(ops)@), rows),
        !replay(views(old(ops)@), rows).collections.contains_key(name@),
        numbers(places@, cols),
        forall|id: Seq<char>|
            col@.docs.contains_key(id) && (#[trigger] col@.docs[id]).row is Some
                ==> col@.docs[id].row->0 < places@.len() && place(
                cols,
                col@.docs[id].row->0 as int,
            ) < rows,
    ensures
        rows_within(views(final(ops)@), rows),
        ({
            let before = replay(views(old(ops)@), rows);
            replay(views(final(ops)@), rows) == IndexV {
                collections: before.collections.insert(name@, moved_coll(cols, col@)),
                dead_rows: before.dead_rows,
                fts: match fts {
                    Some(s) => before.fts.insert(name@, s@),
                    None => before.fts,
                },
                findex: match findex {
                    Some(s) => before.findex.insert(name@, s@),
                    None => before.findex,
                },
            }
        }),
{
    let ghost before = replay(views(ops@), rows);
    let ghost bare = CollV { meta: col@.meta, docs: Map::empty() };
    log_op(ops, Op::SetMeta { collection: name.dup(), meta: col.meta.dup() }, Ghost(rows));
    let ghost one = replay(views(ops@), rows);
    proof {
        assert(one.collections =~= before.collections.insert(name@, bare));
    }
    if let Some(s) = fts {
        log_op(
            ops,
            Op::SetFtsFields { collection: name.dup(), fields: dup_all(&s.fields) },
            Ghost(rows),
        );
        proof {
            assert(replay(views(ops@), rows).collections =~= one.collections);
        }
    }
    let ghost two = replay(views(ops@), rows);
    if let Some(s) = findex {
        log_op(
            ops,
            Op::SetFilterIndex { collection: name.dup(), fields: dup_all(&s.fields) },
            Ghost(rows),
        );
        proof {
            assert(replay(views(ops@), rows).collections =~= one.collections);
        }
    }
    let ghost three = replay(views(ops@), rows);
    let count: usize = col.docs.len();
    let ghost e = col.docs.entries();
    let ghost all = moved_coll(cols, col@).docs;
    let mut j: usize = 0;
    proof {
        assert(all.restrict(keys_upto(e, 0)) =~= Map::empty());
        assert(before.collections.insert(
            name@,
            CollV { meta: col@.meta, docs: all.restrict(keys_upto(e, 0)) },
        ) =~= three.collections);
    }
    while j < count
        invariant
            j <= count,
            count == e.len(),
            e == col.docs.entries(),
            crate::dict::ascending(e),
            col@.docs == to_map(e),
            all == moved_coll(cols, col@).docs,
            numbers(places@, cols),
            forall|id: Seq<char>|
                col@.docs.contains_key(id) && (#[trigger] col@.docs[id]).row is Some
                    ==> col@.docs[id].row->0 < places@.len() && place(
                    cols,
                    col@.docs[id].row->0 as int,
                ) < rows,
            rows_within(views(ops@), rows),
            replay(views(ops@), rows) == (IndexV {
                collections: before.collections.insert(
                    name@,
                    CollV { meta: col@.meta, docs: all.restrict(keys_upto(e, j as int)) },
                ),
                ..three
            }),
        decreases count - j,
    {
        let id = col.docs.key_at(j);
        let doc = col.docs.value_at(j);
        let ghost prior = replay(views(ops@), rows);
        let ghost v = moved_doc(cols, doc@);
        proof {
            to_map_at(e, j as int);
            crate::dict::ascending_distinct(e);
            assert(col@.docs[id@] == doc@);
            assert(!keys_upto(e, j as int).contains(id@));
            assert(weight(prior.collections, name@, id@) == 0);
        }
        match doc.row {
            Some(row) => {
                let total: usize = places.len();
                proof {
                    assert(col@.docs[id@].row is Some);
                    assert(row < total);
                }
                let to: u64 = places[row as usize];
                proof {
                    assert(to == place(cols, row as int));
                }
                log_op(
                    ops,
                    Op::Upsert { collection: name.dup(), id: id.dup(), row: to, attrs: doc.attrs.dup() },
                    Ghost(rows),
                );
            },
            None => {
                log_op(
                    ops,
                    Op::UpsertText { collection: name.dup(), id: id.dup(), attrs: doc.attrs.dup() },
                    Ghost(rows),
                );
            },
        }
        proof {
            let docs = all.restrict(keys_upto(e, j as int)).insert(id@, v);
            assert(docs =~= all.restrict(keys_upto(e, j + 1))) by {
                assert forall|k: Seq<char>|
                    all.restrict(keys_upto(e, j + 1)).contains_key(k) == docs.contains_key(k) by {
                    if k == id@ {
                        assert(e[j as int].0 == k);
                    }
                    if keys_upto(e, j + 1).contains(k) && k != id@ {
                        let i = choose|i: int| 0 <= i < j + 1 && (#[trigger] e[i]).0 == k;
                        assert(i < j);
                        assert(keys_upto(e, j as int).contains(k));
                    }
                    if keys_upto(e, j as int).contains(k) {
                        let i = choose|i: int| 0 <= i < j && (#[trigger] e[i]).0 == k;
                        assert(keys_upto(e, j + 1).contains(k));
                    }
                }
            }
            let after = replay(views(ops@), rows);
            assert(after == put(prior, name@, id@, v));
            assert(after.collections =~= before.collections.insert(
                name@,
                CollV { meta: col@.meta, docs: all.restrict(keys_upto(e, j + 1)) },
            ));
        }
        j = j + 1;
    }
    proof {
        assert(all.restrict(keys_upto(e, count as int)) =~= all) by {
            assert forall|k: Seq<char>| all.contains_key(k) implies keys_upto(
                e,
                count as int,
            ).contains(k) by {
                assert(has_key(e, k));
                let i = choose|i: int| 0 <= i < e.len() && (#[trigger] e[i]).0 == k;
                assert(e[i].0 == k);
            }
        }
    }
}

/// The coarse copy after a compaction: built anew over the rows that are left.
pub open spec fn recopied<K: Kernel>(
    k: K,
    before: Option<Quant>,
    after: Option<Quant>,
    rows: Seq<Vec<u32>>,
) -> bool {
    match (before, after) {
        (None, None) => true,
        (Some(Quant::Int8 { .. }), Some(Quant::Int8 { scale, vectors, params_rows })) => {
            &&& scale == crate::kernel::fit_of(k, views(rows))
            &&& params_rows == rows.len()
            &&& views(vectors@) == crate::quant::quantized(k, scale, views(rows), 0)
        },
        (Some(Quant::Binary { .. }), Some(Quant::Binary { .. })) => copies(after->0, rows),
        _ => false,
    }
}

/// The store `after` is `before` compacted.
pub open spec fn compacts<K: Kernel>(k: K, before: Store, after: Store) -> bool {
    &&& after.rows@ == used_rows(
        before.rows@,
        before.index@.collections,
        before.rows@.len() as int,
    )
    &&& after.index@ == compacted(before.index@)
    &&& after.faithful()
    &&& after.segments@ == seq![
        Segment { id: before.segments@[0].id, rows: after.rows@.len() as u64 },
    ]
    &&& after.version == before.version + 1
    &&& recopied(k, before.quant, after.quant, after.rows@)
    &&& after == (Store {
        rows: after.rows,
        index: after.index,
        log: after.log,
        segments: after.segments,
        version: after.version,
        quant: after.quant,
        indexed: after.indexed,
        index_dirty: after.index_dirty,
        ann_saved: after.ann_saved,
        fts_saved: after.fts_saved,
        findex_saved: after.findex_saved,
        anchor: after.anchor,
        ..before
    })
}

impl Store {
    /// The new number of every row, and how many rows there will be.
    fn renumber(&self) -> (r: (Vec<u64>, Vec<bool>, u64))
        ensures
            r.0@.len() == self.rows@.len(),
            numbers(r.0@, self.index@.collections),
            r.1@.len() == self.rows@.len(),
            forall|i: int|
                0 <= i < self.rows@.len() ==> #[trigger] r.1@[i] == is_used(
                    self.index@.collections,
                    i,
                ),
            r.2 == place(self.index@.collections, self.rows@.len() as int),
    {
        let ghost cols = self.index@.collections;
        let map = self.row_owners();
        let mut places: Vec<u64> = Vec::new();
        let mut used: Vec<bool> = Vec::new();
        let mut next: u64 = 0;
        let mut i: usize = 0;
        while i < map.len()
            invariant
                i <= map@.len(),
                owners(map@, cols, self.rows@.len()),
                cols == self.index@.collections,
                places@.len() == i,
                used@.len() == i,
                numbers(places@, cols),
                forall|j: int| 0 <= j < i ==> #[trigger] used@[j] == is_used(cols, j),
                next == place(cols, i as int),
                next <= i,
            decreases map@.len() - i,
        {
            proof {
                assert(doc_at(ordered(cols), map@[i as int]) == owner(ordered(cols), i as u64));
            }
            places.push(next);
            if map[i].is_some() {
                used.push(true);
                next = next + 1;
            } else {
                used.push(false);
            }
            i = i + 1;
        }
        (places, used, next)
    }

    /// Log what brings the whole index back under the new numbers.
    fn compact_log(&self, places: &Vec<u64>, rows: u64) -> (ops: Vec<Op>)
        requires
            places@.len() == self.rows@.len(),
            numbers(places@, self.index@.collections),
            rows == place(self.index@.collections, self.rows@.len() as int),
            rows_in_range(self.index@.collections, self.rows@.len() as int),
        ensures
            rows_within(views(ops@), rows),
            replay(views(ops@), rows) == compacted(self.index@),
    {
        let ghost ix = self.index@;
        let ghost cols = ix.collections;
        crate::scan::check_listable(&self.index.collections);
        let count: usize = self.index.collections.len();
        let ghost e = self.index.collections.entries();
        let ghost want = compacted(ix);
        let mut ops: Vec<Op> = Vec::new();
        let mut i: usize = 0;
        proof {
            assert(views(ops@) =~= Seq::empty());
            assert(want.collections.restrict(keys_upto(e, 0)) =~= Map::empty());
            assert(want.fts.restrict(keys_upto(e, 0)) =~= Map::empty());
            assert(want.findex.restrict(keys_upto(e, 0)) =~= Map::empty());
        }
        while i < count
            invariant
                i <= count,
                count == e.len(),
                e == self.index.collections.entries(),
                e == ordered(cols),
                crate::dict::ascending(e),
                crate::scan::listable(cols),
                ix == self.index@,
                cols == ix.collections,
                cols == to_map(e),
                want == compacted(ix),
                places@.len() == self.rows@.len(),
                numbers(places@, cols),
                rows == place(cols, self.rows@.len() as int),
                rows_in_range(cols, self.rows@.len() as int),
                rows_within(views(ops@), rows),
                replay(views(ops@), rows) == (IndexV {
                    collections: want.collections.restrict(keys_upto(e, i as int)),
                    dead_rows: 0,
                    fts: want.fts.restrict(keys_upto(e, i as int)),
                    findex: want.findex.restrict(keys_upto(e, i as int)),
                }),
            decreases count - i,
        {
            let name = self.index.collections.key_at(i);
            let col = self.index.collections.value_at(i);
            let ghost prior = replay(views(ops@), rows);
            proof {
                to_map_at(e, i as int);
                crate::dict::ascending_distinct(e);
                crate::scan::listable_at(cols, i as int);
                assert(cols[name@] == col@);
                assert(!keys_upto(e, i as int).contains(name@));
                assert forall|id: Seq<char>|
                    col@.docs.contains_key(id) && (#[trigger] col@.docs[id]).row is Some implies
                    col@.docs[id].row->0 < places@.len() && place(
                    cols,
                    col@.docs[id].row->0 as int,
                ) < rows by {
                    let row = col@.docs[id].row->0;
                    assert(is_live(cols, (name@, id)));
                    assert(cols[name@].docs[id].row->0 < self.rows@.len());
                    let d = ordered(e[i as int].1.docs);
                    assert(has_key(d, id));
                    let j = choose|j: int| 0 <= j < d.len() && (#[trigger] d[j]).0 == id;
                    to_map_at(d, j);
                    owner_some(e, i as int, j, row);
                    place_grows(cols, row as int, self.rows@.len() as int);
                }
            }
            let fts = self.index.fts.get(name.as_str());
            let findex = self.index.findex.get(name.as_str());
            log_collection(&mut ops, name, col, fts, findex, places, Ghost(cols), Ghost(rows));
            proof {
                let ks = keys_upto(e, i as int);
                let next = keys_upto(e, i + 1);
                assert(next =~= ks.insert(name@)) by {
                    assert forall|k: Seq<char>| next.contains(k) == ks.insert(name@).contains(k) by {
                        if k == name@ {
                            assert(e[i as int].0 == k);
                        }
                        if next.contains(k) && k != name@ {
                            let j = choose|j: int| 0 <= j < i + 1 && (#[trigger] e[j]).0 == k;
                            assert(j < i);
                            assert(ks.contains(k));
                        }
                        if ks.contains(k) {
                            let j = choose|j: int| 0 <= j < i && (#[trigger] e[j]).0 == k;
                            assert(next.contains(k));
                        }
                    }
                }
                let after = replay(views(ops@), rows);
                assert(after.collections =~= want.collections.restrict(next));
                assert(after.fts =~= want.fts.restrict(next));
                assert(after.findex =~= want.findex.restrict(next));
            }
            i = i + 1;
        }
        proof {
            let ks = keys_upto(e, count as int);
            assert forall|k: Seq<char>| cols.contains_key(k) implies ks.contains(k) by {
                assert(has_key(e, k));
                let j = choose|j: int| 0 <= j < e.len() && (#[trigger] e[j]).0 == k;
                assert(e[j].0 == k);
            }
            let after = replay(views(ops@), rows);
            assert(after.collections =~= want.collections);
            assert(after.fts =~= want.fts);
            assert(after.findex =~= want.findex);
        }
        ops
    }

    /// Rewrite the store without its dead rows: live rows keep their order and are numbered anew,
    /// the segments become one, and the log holds just what is there. The caches of the derived
    /// indexes are stale afterwards.
    pub fn compact<K: Kernel>(&mut self, k: &K) -> (r: Result<(), StoreError>)
        requires
            old(self).wf(),
            old(self).current(),
            functional(*k),
        ensures
            r is Ok <==> old(self).writable() && old(self).version < u64::MAX - 1,
            r matches Err(e) ==> *final(self) == *old(self) && e == if old(self).writable() {
                StoreError::Full
            } else {
                old(self).write_refusal()
            },
            r is Ok ==> {
                &&& compacts(*k, *old(self), *final(self))
                &&& final(self).ann_saved is None
                &&& final(self).fts_saved is None
                &&& final(self).findex_saved is None
                &&& final(self).anchor == old(self).anchor
                &&& final(self).wf()
                &&& final(self).current()
                &&& old(self).apart() ==> final(self).apart()
            },
    {
        if let Err(e) = self.writer() {
            return Err(e);
        }
        if self.version >= u64::MAX - 1 {
            return Err(StoreError::Full);
        }
        let ghost cols = self.index@.collections;
        let ghost rows0 = self.rows@;
        check_listable(&self.index.collections);
        let (places, used, total) = self.renumber();
        let ops = self.compact_log(&places, total);
        let index = replay_ops(dup_all(&ops), total);
        let mut taken: Vec<Vec<u32>> = Vec::new();
        std::mem::swap(&mut taken, &mut self.rows);
        let n: usize = taken.len();
        let mut rest = reversed(taken);
        let mut rows: Vec<Vec<u32>> = Vec::new();
        let mut i: usize = 0;
        while i < n
            invariant
                i <= n,
                n == rows0.len(),
                n == used@.len(),
                rest@.len() == n - i,
                forall|j: int| 0 <= j < rest@.len() ==> #[trigger] rest@[j] == rows0[n - 1 - j],
                forall|j: int| 0 <= j < n ==> #[trigger] used@[j] == is_used(cols, j),
                rows@ == used_rows(rows0, cols, i as int),
            decreases n - i,
        {
            if let Some(row) = rest.pop() {
                if used[i] {
                    rows.push(row);
                }
            }
            i = i + 1;
        }
        proof {
            used_rows_len(rows0, cols, n as int);
            used_rows_shaped(rows0, cols, n as int, self.config.dimension as nat);
            replay_accounts(views(ops@), total);
            replay_in_range(views(ops@), total);
        }
        let quant = match self.quant.take() {
            Some(q) => Some(rebuilt(q, &rows, self.config.dimension, k)),
            None => None,
        };
        let base: u64 = self.segments[0].id;
        let mut segments: Vec<Segment> = Vec::new();
        segments.push(Segment { id: base, rows: rows.len() as u64 });
        let mut indexed: Vec<bool> = Vec::new();
        let mut index_dirty: Vec<bool> = Vec::new();
        if !self.ann && self.config.segment_index_min_rows.is_some() {
            indexed.push(false);
            index_dirty.push(false);
        }
        proof {
            reveal_with_fuel(seg_total, 2);
            assert(segments@.drop_last() =~= Seq::<Segment>::empty());
            assert(seg_total(segments@) == rows@.len());
            assert(segments@ =~= seq![Segment { id: base, rows: rows@.len() as u64 }]);
        }
        self.rows = rows;
        self.log = ops;
        self.index = index;
        self.segments = segments;
        self.version = self.version + 1;
        self.quant = quant;
        self.indexed = indexed;
        self.index_dirty = index_dirty;
        self.ann_saved = None;
        self.fts_saved = None;
        self.findex_saved = None;
        proof {
            if old(self).apart() {
                a_compaction_keeps_rows_apart(old(self).index@);
            }
        }
        Ok(())
    }
}

} // verus!
