//! Reads that rank nothing: accessors, lookups and listings.

use vstd::prelude::*;

use crate::bits;
use crate::config::Config;
use crate::dict::{ascending, ordered, to_map_at, views, Dict, Dup};
use crate::index::{is_live, CollV, CollsV, Doc, DocV};
use crate::model::{
    bare_hit, dup_bits, project, Hit, HitV, ListOpts, OrderBy, Projection, Record, RecordV,
};
use crate::order::{
    lex_asymmetric, lex_lt, lex_total, lex_transitive, side, sort_stable, sorted, sorted_len,
    sorted_map, sorted_ordered, sorted_permutes, weak_order, Side,
};
use crate::rank::{cut, page, pages_join};
use crate::scan::{listable, names};
use crate::store::{Store, StoreError};
use crate::value::{
    admits, orderable, passes, value_lt, value_side, Attrs, AttrsV, Filter, Value, ValueV,
};
use crate::write::{clamp_u64, row_bytes};

verus! {

/// What the store takes up.
#[derive(Clone, Copy, Debug, PartialEq, Eq, Structural)]
pub struct Footprint {
    pub rows: u64,
    pub dead_rows: u64,
    pub dimension: usize,
    pub vector_bytes: u64,
    pub doc_count: u64,
    /// What the filter index takes up in memory.
    pub filter_index_bytes: u64,
}

/// How many documents the collections hold together.
pub open spec fn doc_total(entries: Seq<(Seq<char>, CollV)>) -> nat
    decreases entries.len(),
{
    if entries.len() == 0 {
        0
    } else {
        doc_total(entries.drop_last()) + ordered(entries.last().1.docs).len()
    }
}

/// A document as a record, its vector read from its row.
pub open spec fn record_of(rows: Seq<Vec<u32>>, id: Seq<char>, doc: DocV) -> RecordV {
    RecordV {
        id,
        vector: match doc.row {
            Some(r) => Some(rows[r as int]@),
            None => None,
        },
        attrs: doc.attrs,
    }
}

/// What a lookup gives.
pub open spec fn found(cols: CollsV, rows: Seq<Vec<u32>>, c: Seq<char>, id: Seq<char>) -> Option<
    RecordV,
> {
    if cols.contains_key(c) && cols[c].docs.contains_key(id) {
        Some(record_of(rows, id, cols[c].docs[id]))
    } else {
        None
    }
}

impl Store {
    pub fn dimension(&self) -> (r: usize)
        ensures
            r == self.config.dimension,
    {
        self.config.dimension
    }

    pub fn config(&self) -> (r: &Config)
        ensures
            *r == self.config,
    {
        &self.config
    }

    /// How many threads a query may use.
    pub fn effective_query_threads(&self) -> (r: usize)
        ensures
            r == self.config.query_threads,
    {
        self.config.query_threads
    }

    /// What the store takes up, with what the filter index around it says it takes up.
    pub fn footprint(&self, filter_index_bytes: u64) -> (r: Footprint)
        ensures
            r.filter_index_bytes == filter_index_bytes,
            r.rows == self.rows@.len(),
            r.dead_rows == self.index@.dead_rows,
            r.dimension == self.config.dimension,
            r.vector_bytes == clamp_u64(row_bytes(self.rows@.len() as int, self.config.dimension)),
            r.doc_count == clamp_u64(doc_total(ordered(self.index@.collections)) as int),
    {
        let n: usize = self.index.collections.len();
        let ghost e = self.index.collections.entries();
        let mut docs: u128 = 0;
        let mut i: usize = 0;
        proof {
            assert(e.take(0) =~= Seq::empty());
        }
        while i < n
            invariant
                i <= n,
                n == e.len(),
                e == self.index.collections.entries(),
                docs == doc_total(e.take(i as int)),
                docs <= i * usize::MAX,
            decreases n - i,
        {
            let col = self.index.collections.value_at(i);
            let d: usize = col.docs.len();
            proof {
                assert(e.take(i + 1).drop_last() =~= e.take(i as int));
                assert(e.take(i + 1).last() == e[i as int]);
                assert((i + 1) * usize::MAX == i * usize::MAX + usize::MAX) by (nonlinear_arith);
                assert(i * usize::MAX <= usize::MAX * usize::MAX) by (nonlinear_arith)
                    requires
                        i <= usize::MAX,
                ;
                assert(usize::MAX * usize::MAX + usize::MAX <= u128::MAX) by (nonlinear_arith);
            }
            docs = docs + d as u128;
            i = i + 1;
        }
        proof {
            assert(e.take(n as int) =~= e);
        }
        let bytes: u64 = match crate::write::bytes_of(self.rows.len(), 0, self.config.dimension) {
            Some(b) => crate::write::clamp(b),
            None => u64::MAX,
        };
        Footprint {
            rows: self.rows.len() as u64,
            dead_rows: self.index.dead_rows as u64,
            dimension: self.config.dimension,
            vector_bytes: bytes,
            doc_count: crate::write::clamp(docs),
            filter_index_bytes,
        }
    }

    pub fn has_collection(&self, name: &str) -> (r: bool)
        ensures
            r == self.index@.collections.contains_key(name@),
    {
        self.index.collections.contains_key(name)
    }

    /// Whether a collection declares a full-text schema.
    pub fn has_fts_schema(&self, collection: &str) -> (r: bool)
        ensures
            r == self.index@.fts.contains_key(collection@),
    {
        self.index.fts.contains_key(collection)
    }

    /// The names of the collections, in order.
    pub fn collections(&self) -> (r: Vec<String>)
        ensures
            views(r@) == ordered(self.index@.collections).map_values(
                |p: (Seq<char>, CollV)| p.0,
            ),
    {
        let n: usize = self.index.collections.len();
        let ghost e = self.index.collections.entries();
        let mut out: Vec<String> = Vec::new();
        let mut i: usize = 0;
        while i < n
            invariant
                i <= n,
                n == e.len(),
                e == self.index.collections.entries(),
                out@.len() == i,
                forall|j: int| 0 <= j < i ==> (#[trigger] out@[j])@ == e[j].0,
            decreases n - i,
        {
            out.push(self.index.collections.key_at(i).dup());
            i = i + 1;
        }
        proof {
            assert(views(out@) =~= e.map_values(|p: (Seq<char>, CollV)| p.0));
        }
        out
    }

    /// A collection's metadata; none where there is no such collection.
    pub fn get_meta(&self, collection: &str) -> (r: Dict<String>)
        ensures
            r@ == if self.index@.collections.contains_key(collection@) {
                self.index@.collections[collection@].meta
            } else {
                Map::empty()
            },
    {
        match self.index.collections.get(collection) {
            Some(col) => col.meta.dup(),
            None => Dict::new(),
        }
    }

    /// The stored vector of a row.
    pub(crate) fn row_at(&self, row: u64) -> (r: &Vec<u32>)
        requires
            row < self.rows@.len(),
        ensures
            *r == self.rows@[row as int],
    {
        proof {
            assert(self.rows@.len() == self.rows.len());
        }
        &self.rows[row as usize]
    }

    fn record(&self, id: &str, doc: &Doc) -> (r: Record)
        requires
            doc.row matches Some(row) ==> row < self.rows@.len(),
        ensures
            r@ == record_of(self.rows@, id@, doc@),
    {
        let vector = match doc.row {
            Some(row) => Some(dup_bits(self.row_at(row))),
            None => None,
        };
        Record { id: id.to_owned(), vector, attrs: doc.attrs.dup() }
    }

    /// The record of an id; none where the collection or the id does not exist.
    pub fn get(&self, collection: &str, id: &str) -> (r: Option<Record>)
        requires
            self.wf(),
        ensures
            r is Some <==> found(self.index@.collections, self.rows@, collection@, id@) is Some,
            r matches Some(rec) ==> Some(rec@) == found(
                self.index@.collections,
                self.rows@,
                collection@,
                id@,
            ),
    {
        match self.index.collections.get(collection) {
            Some(col) => match col.docs.get(id) {
                Some(doc) => {
                    proof {
                        if doc.row is Some {
                            assert(is_live(self.index@.collections, (collection@, id@)));
                            assert(self.index@.collections[collection@].docs[id@].row->0
                                < self.rows@.len());
                        }
                    }
                    Some(self.record(id, doc))
                },
                None => None,
            },
            None => None,
        }
    }

    /// Every record of a collection, by id; none where there is no such collection.
    pub fn get_all(&self, collection: &str) -> (r: Vec<Record>)
        requires
            self.wf(),
        ensures
            views(r@) == if self.index@.collections.contains_key(collection@) {
                ordered(self.index@.collections[collection@].docs).map_values(
                    |p: (Seq<char>, DocV)| record_of(self.rows@, p.0, p.1),
                )
            } else {
                Seq::empty()
            },
    {
        let mut out: Vec<Record> = Vec::new();
        let col = match self.index.collections.get(collection) {
            Some(col) => col,
            None => {
                proof {
                    assert(views(out@) =~= Seq::<RecordV>::empty());
                }
                return out;
            },
        };
        let n: usize = col.docs.len();
        let ghost e = col.docs.entries();
        let mut i: usize = 0;
        while i < n
            invariant
                i <= n,
                n == e.len(),
                e == col.docs.entries(),
                ascending(e),
                self.wf(),
                self.index@.collections.contains_key(collection@),
                self.index@.collections[collection@] == col@,
                col.docs@ == crate::dict::to_map(e),
                out@.len() == i,
                forall|j: int|
                    0 <= j < i ==> (#[trigger] out@[j])@ == record_of(self.rows@, e[j].0, e[j].1),
            decreases n - i,
        {
            let doc = col.docs.value_at(i);
            proof {
                to_map_at(e, i as int);
                let id = e[i as int].0;
                if doc.row is Some {
                    assert(is_live(self.index@.collections, (collection@, id)));
                    assert(self.index@.collections[collection@].docs[id].row->0
                        < self.rows@.len());
                }
            }
            out.push(self.record(col.docs.key_at(i).as_str(), doc));
            i = i + 1;
        }
        proof {
            assert(views(out@) =~= e.map_values(
                |p: (Seq<char>, DocV)| record_of(self.rows@, p.0, p.1),
            ));
        }
        out
    }

    /// The live attributes of a document.
    pub fn attrs_of(&self, collection: &str, id: &str) -> (r: Option<&Attrs>)
        ensures
            r is Some <==> attrs_at(self.index@.collections, collection@, id@) is Some,
            r matches Some(a) ==> Some(a@) == attrs_at(
                self.index@.collections,
                collection@,
                id@,
            ),
    {
        match self.index.collections.get(collection) {
            Some(col) => match col.docs.get(id) {
                Some(doc) => Some(&doc.attrs),
                None => None,
            },
            None => None,
        }
    }
}

/// The live attributes of a document.
pub open spec fn attrs_at(cols: CollsV, c: Seq<char>, id: Seq<char>) -> Option<AttrsV> {
    if cols.contains_key(c) && cols[c].docs.contains_key(id) {
        Some(cols[c].docs[id].attrs)
    } else {
        None
    }
}

/// A lookup and a full read agree on every document.
pub proof fn get_agrees_with_get_all(
    cols: CollsV,
    rows: Seq<Vec<u32>>,
    c: Seq<char>,
    i: int,
)
    requires
        listable(cols),
        cols.contains_key(c),
        0 <= i < ordered(cols[c].docs).len(),
    ensures
        ({
            let (id, doc) = ordered(cols[c].docs)[i];
            found(cols, rows, c, id) == Some(record_of(rows, id, doc))
        }),
{
    to_map_at(ordered(cols[c].docs), i);
}

// ── Listing ─────────────────────────────────────────────────────────────────

/// A document in a listing.
#[derive(Clone, Debug, PartialEq)]
pub struct ListItem {
    pub row: Option<u64>,
    pub collection: String,
    pub id: String,
}

/// What a [`ListItem`] holds.
pub ghost struct ListV {
    pub row: Option<u64>,
    pub collection: Seq<char>,
    pub id: Seq<char>,
}

impl View for ListItem {
    type V = ListV;

    open spec fn view(&self) -> ListV {
        ListV { row: self.row, collection: self.collection@, id: self.id@ }
    }
}

/// The admitted documents among the entries of collection `c`.
pub open spec fn list_coll(c: Seq<char>, entries: Seq<(Seq<char>, DocV)>, filter: Filter) -> Seq<
    ListV,
>
    decreases entries.len(),
{
    if entries.len() == 0 {
        Seq::empty()
    } else {
        let rest = list_coll(c, entries.drop_last(), filter);
        let (id, doc) = entries.last();
        if passes(filter, doc.attrs) {
            rest.push(ListV { row: doc.row, collection: c, id })
        } else {
            rest
        }
    }
}

/// The admitted documents of the collections in scope, one after the other as they are named.
pub open spec fn list_all(cols: CollsV, scope: Seq<Seq<char>>, filter: Filter) -> Seq<ListV>
    decreases scope.len(),
{
    if scope.len() == 0 {
        Seq::empty()
    } else {
        let rest = list_all(cols, scope.drop_last(), filter);
        let c = scope.last();
        if cols.contains_key(c) {
            rest + list_coll(c, ordered(cols[c].docs), filter)
        } else {
            rest
        }
    }
}

/// Rows in storage order, then the text-only documents by id.
pub open spec fn stored_before(a: ListV, b: ListV) -> bool {
    match (a.row, b.row) {
        (Some(x), Some(y)) => x < y,
        (Some(_), None) => true,
        (None, Some(_)) => false,
        (None, None) => lex_lt(a.id, b.id),
    }
}

/// Storage order: documents with a row by row, then the others by id.
pub open spec fn storage_order() -> spec_fn(ListV, ListV) -> bool {
    |a: ListV, b: ListV| stored_before(a, b)
}

/// The value that a listing is ordered by.
pub open spec fn key_of(cols: CollsV, field: Seq<char>, x: ListV) -> Option<ValueV> {
    match attrs_at(cols, x.collection, x.id) {
        Some(a) => if a.contains_key(field) {
            Some(a[field])
        } else {
            None
        },
        None => None,
    }
}

/// The value that fixes the type of an ordering: the first that has an order with itself.
pub open spec fn witness(cols: CollsV, field: Seq<char>, items: Seq<ListV>) -> Option<ValueV>
    decreases items.len(),
{
    if items.len() == 0 {
        None
    } else if witness(cols, field, items.drop_last()) is Some {
        witness(cols, field, items.drop_last())
    } else {
        match key_of(cols, field, items.last()) {
            Some(v) => if orderable(v, v) {
                Some(v)
            } else {
                None
            },
            None => None,
        }
    }
}

/// The item's value has an order with the witness.
pub open spec fn sortable(cols: CollsV, field: Seq<char>, w: ValueV, x: ListV) -> bool {
    match key_of(cols, field, x) {
        Some(v) => orderable(v, w),
        None => false,
    }
}

/// `a` is listed before `b`: what has an order with the witness by value, everything else behind
/// it, whichever the direction.
pub open spec fn listed_before(
    cols: CollsV,
    field: Seq<char>,
    descending: bool,
    w: ValueV,
    a: ListV,
    b: ListV,
) -> bool {
    if sortable(cols, field, w, a) {
        if sortable(cols, field, w, b) {
            let va = key_of(cols, field, a)->0;
            let vb = key_of(cols, field, b)->0;
            if descending {
                value_lt(vb, va)
            } else {
                value_lt(va, vb)
            }
        } else {
            true
        }
    } else {
        false
    }
}

/// The order by an attribute.
pub open spec fn attribute_order(
    cols: CollsV,
    field: Seq<char>,
    descending: bool,
    w: ValueV,
) -> spec_fn(ListV, ListV) -> bool {
    |a: ListV, b: ListV| listed_before(cols, field, descending, w, a, b)
}

/// A listing reordered by an attribute; where no value is orderable it stays as it is.
pub open spec fn order_by(cols: CollsV, items: Seq<ListV>, order: Option<OrderBy>) -> Seq<ListV> {
    match order {
        Some(o) => match witness(cols, o.field@, items) {
            Some(w) => sorted(items, attribute_order(cols, o.field@, o.descending, w)),
            None => items,
        },
        None => items,
    }
}

/// The hit that a listed document becomes.
pub open spec fn list_hit(cols: CollsV, p: Projection, x: ListV) -> HitV {
    bare_hit(
        x.collection,
        x.id,
        bits::ZERO,
        match attrs_at(cols, x.collection, x.id) {
            Some(a) => project(p, a),
            None => Map::empty(),
        },
    )
}

/// Every admitted document, in the order asked for.
pub open spec fn full_listing(cols: CollsV, scope: Seq<Seq<char>>, opts: ListOpts) -> Seq<ListV> {
    order_by(cols, sorted(list_all(cols, scope, opts.filter), storage_order()), opts.order_by)
}

/// What a listing gives.
pub open spec fn listing(cols: CollsV, scope: Seq<Seq<char>>, opts: ListOpts) -> Seq<HitV> {
    page(full_listing(cols, scope, opts), opts.offset as int, opts.limit as int).map_values(
        |x: ListV| list_hit(cols, opts.projection, x),
    )
}

/// Storage order is a strict order in which incomparability is transitive.
pub proof fn storage_is_order()
    ensures
        weak_order(storage_order()),
{
    assert forall|a: ListV, b: ListV| #[trigger] storage_order()(a, b) implies !storage_order()(
        b,
        a,
    ) by {
        if a.row is None && b.row is None {
            lex_asymmetric(a.id, b.id);
        }
    }
    assert forall|a: ListV, b: ListV, c: ListV|
        storage_order()(a, c) implies #[trigger] storage_order()(a, b)
        || #[trigger] storage_order()(b, c) by {
        if a.row is None && b.row is None && c.row is None {
            lex_total(a.id, b.id);
            if lex_lt(b.id, a.id) {
                lex_transitive(b.id, a.id, c.id);
            }
        }
    }
}

proof fn value_lt_weak(a: ValueV, b: ValueV, c: ValueV, w: ValueV)
    requires
        orderable(a, w),
        orderable(b, w),
        orderable(c, w),
    ensures
        value_lt(a, b) ==> !value_lt(b, a),
        value_lt(a, c) ==> value_lt(a, b) || value_lt(b, c),
{
    match (a, b, c) {
        (ValueV::Str(x), ValueV::Str(y), ValueV::Str(z)) => {
            if lex_lt(x, y) {
                lex_asymmetric(x, y);
            }
            if lex_lt(x, z) {
                lex_total(x, y);
                if lex_lt(y, x) {
                    lex_transitive(y, x, z);
                }
            }
        },
        _ => {},
    }
}

/// The order of an attribute is a strict order in which incomparability is transitive.
pub proof fn attribute_is_order(cols: CollsV, field: Seq<char>, descending: bool, w: ValueV)
    ensures
        weak_order(attribute_order(cols, field, descending, w)),
{
    let lt = attribute_order(cols, field, descending, w);
    assert forall|a: ListV, b: ListV| #[trigger] lt(a, b) implies !lt(b, a) by {
        if sortable(cols, field, w, a) && sortable(cols, field, w, b) {
            let va = key_of(cols, field, a)->0;
            let vb = key_of(cols, field, b)->0;
            value_lt_weak(va, vb, va, w);
            value_lt_weak(vb, va, vb, w);
        }
    }
    assert forall|a: ListV, b: ListV, c: ListV| lt(a, c) implies #[trigger] lt(a, b)
        || #[trigger] lt(b, c) by {
        if sortable(cols, field, w, a) && sortable(cols, field, w, b) && sortable(
            cols,
            field,
            w,
            c,
        ) {
            let va = key_of(cols, field, a)->0;
            let vb = key_of(cols, field, b)->0;
            let vc = key_of(cols, field, c)->0;
            value_lt_weak(va, vb, vc, w);
            value_lt_weak(vc, vb, va, w);
        }
    }
}

/// Ordering a listing loses no document and adds none.
pub proof fn ordering_permutes(cols: CollsV, items: Seq<ListV>, order: Option<OrderBy>)
    ensures
        order_by(cols, items, order).to_multiset() == items.to_multiset(),
        order_by(cols, items, order).len() == items.len(),
{
    if let Some(o) = order {
        if let Some(w) = witness(cols, o.field@, items) {
            sorted_permutes(items, attribute_order(cols, o.field@, o.descending, w));
            sorted_len(items, attribute_order(cols, o.field@, o.descending, w));
        }
    }
}

/// Whatever has no order with the witness trails what has, in either direction.
pub proof fn unorderable_trails(
    cols: CollsV,
    items: Seq<ListV>,
    field: Seq<char>,
    descending: bool,
    w: ValueV,
    i: int,
    j: int,
)
    requires
        0 <= i < j < items.len(),
        sortable(
            cols,
            field,
            w,
            sorted(items, attribute_order(cols, field, descending, w))[j],
        ),
    ensures
        sortable(
            cols,
            field,
            w,
            sorted(items, attribute_order(cols, field, descending, w))[i],
        ),
{
    attribute_is_order(cols, field, descending, w);
    let lt = attribute_order(cols, field, descending, w);
    sorted_ordered(items, lt);
    sorted_len(items, lt);
    let s = sorted(items, lt);
    assert(!lt(s[j], s[i]));
}

/// Two listing pages in a row are one page of both lengths.
pub proof fn listing_pages_join(
    cols: CollsV,
    scope: Seq<Seq<char>>,
    first: ListOpts,
    second: ListOpts,
    both: ListOpts,
)
    requires
        second == (ListOpts { offset: second.offset, limit: second.limit, ..first }),
        both == (ListOpts { limit: both.limit, ..first }),
        second.offset == first.offset + first.limit,
        both.limit == first.limit + second.limit,
    ensures
        listing(cols, scope, first) + listing(cols, scope, second) == listing(cols, scope, both),
{
    let all = full_listing(cols, scope, first);
    pages_join(all, first.offset as int, first.limit as int, second.limit as int);
    assert(listing(cols, scope, first) + listing(cols, scope, second) =~= listing(
        cols,
        scope,
        both,
    ));
}

/// A page of a listing is a cut of the full one, whose length is at most `usize::MAX`, as
/// [`Store::list`] says: no more than asked for, from the offset on, and nothing past its end.
pub proof fn a_listing_page_is_a_cut(
    cols: CollsV,
    scope: Seq<Seq<char>>,
    full: ListOpts,
    opts: ListOpts,
)
    requires
        full == (ListOpts { offset: 0, limit: usize::MAX, ..opts }),
        full_listing(cols, scope, opts).len() <= usize::MAX,
    ensures
        ({
            let f = listing(cols, scope, full);
            let from = if opts.offset <= f.len() {
                opts.offset as int
            } else {
                f.len() as int
            };
            let to = if opts.offset + opts.limit <= f.len() {
                opts.offset + opts.limit
            } else {
                f.len() as int
            };
            &&& f.len() == full_listing(cols, scope, opts).len()
            &&& listing(cols, scope, opts) == f.subrange(from, to)
        }),
{
    let f = listing(cols, scope, full);
    let all = full_listing(cols, scope, opts);
    assert(full_listing(cols, scope, full) == all);
    assert(all.skip(0) =~= all);
    assert(f =~= all.map_values(|x: ListV| list_hit(cols, opts.projection, x)));
    let from = if opts.offset <= f.len() {
        opts.offset as int
    } else {
        f.len() as int
    };
    let to = if opts.offset + opts.limit <= f.len() {
        opts.offset + opts.limit
    } else {
        f.len() as int
    };
    assert(listing(cols, scope, opts) =~= f.subrange(from, to));
}

impl Store {
    fn list_into(&self, name: &str, filter: &Filter, out: &mut Vec<ListItem>)
        ensures
            views(final(out)@) == views(old(out)@) + (if self.index@.collections.contains_key(
                name@,
            ) {
                list_coll(name@, ordered(self.index@.collections[name@].docs), *filter)
            } else {
                Seq::empty()
            }),
    {
        let col = match self.index.collections.get(name) {
            Some(col) => col,
            None => {
                proof {
                    assert(views(old(out)@) + Seq::<ListV>::empty() =~= views(old(out)@));
                }
                return;
            },
        };
        let n: usize = col.docs.len();
        let ghost e = col.docs.entries();
        let ghost start = views(out@);
        let mut i: usize = 0;
        proof {
            assert(e.take(0) =~= Seq::empty());
            assert(start + Seq::<ListV>::empty() =~= start);
        }
        while i < n
            invariant
                i <= n,
                n == e.len(),
                e == col.docs.entries(),
                views(out@) == start + list_coll(name@, e.take(i as int), *filter),
            decreases n - i,
        {
            let doc = col.docs.value_at(i);
            proof {
                assert(e.take(i + 1).drop_last() =~= e.take(i as int));
                assert(e.take(i + 1).last() == e[i as int]);
            }
            if admits(filter, &doc.attrs) {
                let ghost before = views(out@);
                let item = ListItem {
                    row: doc.row,
                    collection: name.to_owned(),
                    id: col.docs.key_at(i).dup(),
                };
                out.push(item);
                proof {
                    assert(views(out@) =~= before.push(item@));
                    assert(views(out@) =~= start + list_coll(name@, e.take(i + 1), *filter));
                }
            }
            i = i + 1;
        }
        proof {
            assert(e.take(n as int) =~= e);
        }
    }

    /// The value of `field` that a listed document has.
    fn list_key(&self, field: &str, x: &ListItem) -> (r: Option<&Value>)
        ensures
            r is Some <==> key_of(self.index@.collections, field@, x@) is Some,
            r matches Some(v) ==> Some(v@) == key_of(self.index@.collections, field@, x@),
    {
        match self.attrs_of(x.collection.as_str(), x.id.as_str()) {
            Some(a) => a.get(field),
            None => None,
        }
    }

    /// The first value that has an order with itself.
    fn find_witness(&self, field: &str, items: &Vec<ListItem>) -> (r: Option<&Value>)
        ensures
            r is Some <==> witness(self.index@.collections, field@, views(items@)) is Some,
            r matches Some(v) ==> Some(v@) == witness(
                self.index@.collections,
                field@,
                views(items@),
            ),
    {
        let ghost cols = self.index@.collections;
        let ghost all = views(items@);
        let mut i: usize = 0;
        proof {
            assert(all.take(0) =~= Seq::empty());
        }
        while i < items.len()
            invariant
                i <= items@.len(),
                cols == self.index@.collections,
                all == views(items@),
                witness(cols, field@, all.take(i as int)) is None,
            decreases items@.len() - i,
        {
            proof {
                assert(all.take(i + 1).drop_last() =~= all.take(i as int));
                assert(all.take(i + 1).last() == items@[i as int]@);
            }
            if let Some(v) = self.list_key(field, &items[i]) {
                if value_side(v, v).is_some() {
                    proof {
                        witness_prefix(cols, field@, all, i + 1);
                    }
                    return Some(v);
                }
            }
            i = i + 1;
        }
        proof {
            assert(all.take(i as int) =~= all);
        }
        None
    }

    /// Whether `a` is listed before `b`.
    fn is_listed_before(
        &self,
        field: &str,
        descending: bool,
        w: &Value,
        a: &ListItem,
        b: &ListItem,
    ) -> (r: bool)
        ensures
            r == listed_before(self.index@.collections, field@, descending, w@, a@, b@),
    {
        let va = match self.list_key(field, a) {
            Some(v) => v,
            None => {
                return false;
            },
        };
        if value_side(va, w).is_none() {
            return false;
        }
        let vb = match self.list_key(field, b) {
            Some(v) => v,
            None => {
                return true;
            },
        };
        if value_side(vb, w).is_none() {
            return true;
        }
        match value_side(va, vb) {
            Some(Side::Before) => {
                proof {
                    value_lt_weak(va@, vb@, va@, w@);
                }
                !descending
            },
            Some(Side::After) => {
                proof {
                    value_lt_weak(vb@, va@, vb@, w@);
                }
                descending
            },
            _ => false,
        }
    }

    /// Reorder a listing by an attribute.
    pub fn order_scan(&self, items: Vec<ListItem>, order: &OrderBy) -> (out: Vec<ListItem>)
        ensures
            views(out@) == order_by(self.index@.collections, views(items@), Some(*order)),
    {
        let ghost cols = self.index@.collections;
        let w: &Value = match self.find_witness(order.field.as_str(), &items) {
            Some(w) => w,
            None => {
                return items;
            },
        };
        let ghost lt = |a: ListItem, b: ListItem|
            listed_before(cols, order.field@, order.descending, w@, a@, b@);
        let f = |a: &ListItem, b: &ListItem| -> (r: bool)
            ensures
                r == listed_before(
                    self.index@.collections,
                    order.field@,
                    order.descending,
                    w@,
                    a@,
                    b@,
                ),
            { self.is_listed_before(order.field.as_str(), order.descending, w, a, b) };
        let out = sort_stable(items, &f, Ghost(lt));
        proof {
            let v = |x: ListItem| x@;
            let mt = attribute_order(cols, order.field@, order.descending, w@);
            sorted_map(items@, v, lt, mt);
            assert(views(items@) =~= items@.map_values(v));
            assert(views(out@) =~= out@.map_values(v));
        }
        out
    }

    /// The documents in scope that pass the filter, collection by collection.
    pub(crate) fn collect(&self, collections: &[&str], filter: &Filter) -> (items: Vec<ListItem>)
        ensures
            views(items@) == list_all(self.index@.collections, names(collections@), *filter),
    {
        let ghost scope = names(collections@);
        let ghost cols = self.index@.collections;
        let mut items: Vec<ListItem> = Vec::new();
        let mut i: usize = 0;
        proof {
            assert(scope.take(0) =~= Seq::empty());
            assert(views(items@) =~= Seq::<ListV>::empty());
        }
        while i < collections.len()
            invariant
                i <= collections@.len(),
                scope == names(collections@),
                cols == self.index@.collections,
                views(items@) == list_all(cols, scope.take(i as int), *filter),
            decreases collections@.len() - i,
        {
            let ghost before = views(items@);
            self.list_into(collections[i], filter, &mut items);
            proof {
                assert(scope.take(i + 1).drop_last() =~= scope.take(i as int));
                assert(scope.take(i + 1).last() == collections@[i as int]@);
                assert(before + Seq::<ListV>::empty() =~= before);
            }
            i = i + 1;
        }
        proof {
            assert(scope.take(i as int) =~= scope);
        }
        items
    }

    /// List the documents that pass the filter, across collections: in storage order with the
    /// text-only documents behind, or ordered by an attribute; one page of them.
    pub fn list(&self, collections: &[&str], opts: &ListOpts) -> (r: Result<Vec<Hit>, StoreError>)
        ensures
            r is Ok,
            views(r->Ok_0@) == listing(self.index@.collections, names(collections@), *opts),
            full_listing(self.index@.collections, names(collections@), *opts).len() <= usize::MAX,
    {
        let ghost scope = names(collections@);
        let ghost cols = self.index@.collections;
        let items = self.collect(collections, &opts.filter);
        let ghost raw = items@;
        let ghost lt = |a: ListItem, b: ListItem| stored_before(a@, b@);
        let f = |a: &ListItem, b: &ListItem| -> (r: bool)
            ensures
                r == stored_before(a@, b@),
            { is_stored_before(a, b) };
        let stored = sort_stable(items, &f, Ghost(lt));
        proof {
            let v = |x: ListItem| x@;
            sorted_map(raw, v, lt, storage_order());
            assert(views(raw) =~= raw.map_values(v));
            assert(views(stored@) =~= stored@.map_values(v));
        }
        let ordered_items = match &opts.order_by {
            Some(o) => self.order_scan(stored, o),
            None => stored,
        };
        let ghost all = ordered_items@;
        let total: usize = ordered_items.len();
        proof {
            assert(views(all).len() == total);
        }
        let chosen = cut(ordered_items, opts.offset, opts.limit);
        let mut hits: Vec<Hit> = Vec::new();
        let mut j: usize = 0;
        while j < chosen.len()
            invariant
                j <= chosen@.len(),
                cols == self.index@.collections,
                hits@.len() == j,
                forall|k: int|
                    0 <= k < j ==> (#[trigger] hits@[k])@ == list_hit(
                        cols,
                        opts.projection,
                        chosen@[k]@,
                    ),
            decreases chosen@.len() - j,
        {
            let item = &chosen[j];
            let attrs = match self.attrs_of(item.collection.as_str(), item.id.as_str()) {
                Some(a) => opts.projection.apply(a),
                None => Dict::new(),
            };
            hits.push(
                Hit::new(item.collection.as_str(), item.id.as_str(), bits::ZERO, attrs),
            );
            j = j + 1;
        }
        proof {
            assert(views(page(all, opts.offset as int, opts.limit as int)) =~= page(
                views(all),
                opts.offset as int,
                opts.limit as int,
            ));
            assert(views(hits@) =~= listing(cols, scope, *opts));
        }
        Ok(hits)
    }
}

proof fn witness_prefix(cols: CollsV, field: Seq<char>, items: Seq<ListV>, i: int)
    requires
        0 <= i <= items.len(),
        witness(cols, field, items.take(i)) is Some,
    ensures
        witness(cols, field, items) == witness(cols, field, items.take(i)),
    decreases items.len() - i,
{
    if i < items.len() {
        assert(items.take(i + 1).drop_last() =~= items.take(i));
        witness_prefix(cols, field, items, i + 1);
    } else {
        assert(items.take(i) =~= items);
    }
}

fn is_stored_before(a: &ListItem, b: &ListItem) -> (r: bool)
    ensures
        r == stored_before(a@, b@),
{
    match (a.row, b.row) {
        (Some(x), Some(y)) => x < y,
        (Some(_), None) => true,
        (None, Some(_)) => false,
        (None, None) => match side(a.id.as_str(), b.id.as_str()) {
            Side::Before => true,
            _ => false,
        },
    }
}

} // verus!
