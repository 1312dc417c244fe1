//! The in-memory index, and the operations whose replay builds it.

use vstd::prelude::*;

use crate::dict::{dup_all, to_map_at, views, Dict, Dup};
use crate::order::reversed;
use crate::value::{Attrs, AttrsV, Value, ValueV};

verus! {

/// The attribute that counts how often a record was recalled.
pub const META_ACCESS_COUNT: &'static str = "nidus.access_count";

/// The attribute that holds when a record was last recalled.
pub const META_LAST_ACCESSED: &'static str = "nidus.last_accessed";

/// The attribute that holds when a record expires.
pub const META_EXPIRES_AT: &'static str = "nidus.expires_at";

/// A stemming language.
#[derive(Clone, Copy, Debug, PartialEq, Eq, Structural)]
pub enum Language {
    English,
    Danish,
    Dutch,
    Finnish,
    French,
    German,
    Italian,
    Norwegian,
    Portuguese,
    Russian,
    Spanish,
    Swedish,
}

/// One full-text indexed field: its language and its BM25 and analyzer parameters.
/// `k1` and `b` are `f32` bit patterns.
#[derive(Clone, Debug, PartialEq)]
pub struct FtsField {
    pub field: String,
    pub language: Language,
    pub k1: u32,
    pub b: u32,
    pub ascii_folding: bool,
}

/// What an [`FtsField`] holds.
pub ghost struct FtsFieldV {
    pub field: Seq<char>,
    pub language: Language,
    pub k1: u32,
    pub b: u32,
    pub ascii_folding: bool,
}

/// The default `k1`, 1.2.
pub const DEFAULT_K1: u32 = 0x3f99_999a;

/// The default `b`, 0.75.
pub const DEFAULT_B: u32 = 0x3f40_0000;

impl View for FtsField {
    type V = FtsFieldV;

    open spec fn view(&self) -> FtsFieldV {
        FtsFieldV {
            field: self.field@,
            language: self.language,
            k1: self.k1,
            b: self.b,
            ascii_folding: self.ascii_folding,
        }
    }
}

impl Dup for FtsField {
    fn dup(&self) -> (r: Self) {
        FtsField {
            field: self.field.dup(),
            language: self.language,
            k1: self.k1,
            b: self.b,
            ascii_folding: self.ascii_folding,
        }
    }
}

/// A field with the default parameters.
pub open spec fn default_field(field: Seq<char>, language: Language) -> FtsFieldV {
    FtsFieldV { field, language, k1: DEFAULT_K1, b: DEFAULT_B, ascii_folding: false }
}

impl FtsField {
    pub fn new(field: &str) -> (r: FtsField)
        ensures
            r@ == default_field(field@, Language::English),
    {
        FtsField {
            field: field.to_owned(),
            language: Language::English,
            k1: DEFAULT_K1,
            b: DEFAULT_B,
            ascii_folding: false,
        }
    }

    pub fn language(self, language: Language) -> (r: FtsField)
        ensures
            r == (FtsField { language, ..self }),
    {
        FtsField { language, ..self }
    }

    pub fn k1(self, k1: u32) -> (r: FtsField)
        ensures
            r == (FtsField { k1, ..self }),
    {
        FtsField { k1, ..self }
    }

    pub fn b(self, b: u32) -> (r: FtsField)
        ensures
            r == (FtsField { b, ..self }),
    {
        FtsField { b, ..self }
    }

    pub fn ascii_folding(self, ascii_folding: bool) -> (r: FtsField)
        ensures
            r == (FtsField { ascii_folding, ..self }),
    {
        FtsField { ascii_folding, ..self }
    }
}

/// The full-text fields that a collection declares.
#[derive(Clone, Debug, PartialEq)]
pub struct Schema {
    pub fields: Vec<FtsField>,
}

impl View for Schema {
    type V = Seq<FtsFieldV>;

    open spec fn view(&self) -> Seq<FtsFieldV> {
        views(self.fields@)
    }
}

impl Dup for Schema {
    fn dup(&self) -> (r: Self) {
        Schema { fields: dup_all(&self.fields) }
    }
}

/// The attributes over which a collection keeps a filter index.
#[derive(Clone, Debug, PartialEq)]
pub struct Indexed {
    pub fields: Vec<String>,
}

impl View for Indexed {
    type V = Seq<Seq<char>>;

    open spec fn view(&self) -> Seq<Seq<char>> {
        views(self.fields@)
    }
}

impl Dup for Indexed {
    fn dup(&self) -> (r: Self) {
        Indexed { fields: dup_all(&self.fields) }
    }
}

/// One document: its row, unless it is text-only, and its attributes.
#[derive(Clone, Debug, PartialEq)]
pub struct Doc {
    pub row: Option<u64>,
    pub attrs: Attrs,
}

/// What a [`Doc`] holds.
pub ghost struct DocV {
    pub row: Option<u64>,
    pub attrs: AttrsV,
}

impl View for Doc {
    type V = DocV;

    open spec fn view(&self) -> DocV {
        DocV { row: self.row, attrs: self.attrs@ }
    }
}

impl Dup for Doc {
    fn dup(&self) -> (r: Self) {
        Doc { row: self.row, attrs: self.attrs.dup() }
    }
}

/// One logical namespace.
#[derive(Clone, Debug, PartialEq)]
pub struct Collection {
    pub meta: Dict<String>,
    pub docs: Dict<Doc>,
}

/// What a [`Collection`] holds.
pub ghost struct CollV {
    pub meta: Map<Seq<char>, Seq<char>>,
    pub docs: Map<Seq<char>, DocV>,
}

impl View for Collection {
    type V = CollV;

    open spec fn view(&self) -> CollV {
        CollV { meta: self.meta@, docs: self.docs@ }
    }
}

impl Dup for Collection {
    fn dup(&self) -> (r: Self) {
        Collection { meta: self.meta.dup(), docs: self.docs.dup() }
    }
}

/// A collection without documents.
pub open spec fn empty_coll() -> CollV {
    CollV { meta: Map::empty(), docs: Map::empty() }
}

/// Collections by name.
pub type CollsV = Map<Seq<char>, CollV>;

/// One logged operation.
#[allow(inconsistent_fields)]
#[derive(Clone, Debug, PartialEq)]
pub enum Op {
    CreateCollection { collection: String },
    DropCollection { collection: String },
    SetMeta { collection: String, meta: Dict<String> },
    Upsert { collection: String, id: String, row: u64, attrs: Attrs },
    UpsertText { collection: String, id: String, attrs: Attrs },
    Delete { collection: String, id: String },
    /// The older form of a schema: a language per field and default parameters.
    SetFtsSchema { collection: String, fields: Vec<(String, Language)> },
    SetFtsFields { collection: String, fields: Vec<FtsField> },
    SetFilterIndex { collection: String, fields: Vec<String> },
    Reinforce {
        collection: String,
        id: String,
        access_count: i64,
        last_accessed: i64,
        expires_at: Option<i64>,
    },
}

/// What an [`Op`] says.
pub ghost enum OpV {
    CreateCollection(Seq<char>),
    DropCollection(Seq<char>),
    SetMeta(Seq<char>, Map<Seq<char>, Seq<char>>),
    /// Collection, id, row (unless text-only), attributes.
    Put(Seq<char>, Seq<char>, Option<u64>, AttrsV),
    Delete(Seq<char>, Seq<char>),
    SetFts(Seq<char>, Seq<FtsFieldV>),
    SetFilterIndex(Seq<char>, Seq<Seq<char>>),
    /// Collection, id, access count, last access, expiry where it moves.
    Reinforce(Seq<char>, Seq<char>, i64, i64, Option<i64>),
}

/// The fields that the older form of a schema declares.
pub open spec fn legacy_fields(fields: Seq<(String, Language)>) -> Seq<FtsFieldV> {
    fields.map_values(|p: (String, Language)| default_field(p.0@, p.1))
}

impl View for Op {
    type V = OpV;

    open spec fn view(&self) -> OpV {
        match self {
            Op::CreateCollection { collection } => OpV::CreateCollection(collection@),
            Op::DropCollection { collection } => OpV::DropCollection(collection@),
            Op::SetMeta { collection, meta } => OpV::SetMeta(collection@, meta@),
            Op::Upsert { collection, id, row, attrs } => OpV::Put(
                collection@,
                id@,
                Some(*row),
                attrs@,
            ),
            Op::UpsertText { collection, id, attrs } => OpV::Put(collection@, id@, None, attrs@),
            Op::Delete { collection, id } => OpV::Delete(collection@, id@),
            Op::SetFtsSchema { collection, fields } => OpV::SetFts(
                collection@,
                legacy_fields(fields@),
            ),
            Op::SetFtsFields { collection, fields } => OpV::SetFts(collection@, views(fields@)),
            Op::SetFilterIndex { collection, fields } => OpV::SetFilterIndex(
                collection@,
                views(fields@),
            ),
            Op::Reinforce { collection, id, access_count, last_accessed, expires_at } =>
                OpV::Reinforce(collection@, id@, *access_count, *last_accessed, *expires_at),
        }
    }
}

/// The collections with their documents, the number of rows no document refers to any more,
/// and the declared full-text and filter-index schemas.
#[derive(Clone, Debug, PartialEq)]
pub struct Index {
    pub collections: Dict<Collection>,
    pub dead_rows: usize,
    pub fts: Dict<Schema>,
    pub findex: Dict<Indexed>,
}

/// What an [`Index`] holds.
pub ghost struct IndexV {
    pub collections: CollsV,
    pub dead_rows: nat,
    pub fts: Map<Seq<char>, Seq<FtsFieldV>>,
    pub findex: Map<Seq<char>, Seq<Seq<char>>>,
}

impl View for Index {
    type V = IndexV;

    open spec fn view(&self) -> IndexV {
        IndexV {
            collections: self.collections@,
            dead_rows: self.dead_rows as nat,
            fts: self.fts@,
            findex: self.findex@,
        }
    }
}

/// An index without collections.
pub open spec fn empty_index() -> IndexV {
    IndexV { collections: Map::empty(), dead_rows: 0, fts: Map::empty(), findex: Map::empty() }
}

/// The collection called `c`, an empty one where there is none.
pub open spec fn coll(cols: CollsV, c: Seq<char>) -> CollV {
    if cols.contains_key(c) {
        cols[c]
    } else {
        empty_coll()
    }
}

/// The document `id` of collection `c` exists and has a row.
pub open spec fn is_live(cols: CollsV, p: (Seq<char>, Seq<char>)) -> bool {
    cols.contains_key(p.0) && cols[p.0].docs.contains_key(p.1) && cols[p.0].docs[p.1].row is Some
}

/// The documents that have a row, as pairs of collection and id.
pub open spec fn live(cols: CollsV) -> Set<(Seq<char>, Seq<char>)> {
    Set::new(|p: (Seq<char>, Seq<char>)| is_live(cols, p))
}

/// The documents of collection `c` that have a row.
pub open spec fn live_in(cols: CollsV, c: Seq<char>) -> Set<(Seq<char>, Seq<char>)> {
    Set::new(|p: (Seq<char>, Seq<char>)| p.0 == c && is_live(cols, p))
}

/// `1` where the document exists and has a row.
pub open spec fn weight(cols: CollsV, c: Seq<char>, id: Seq<char>) -> nat {
    if is_live(cols, (c, id)) {
        1
    } else {
        0
    }
}

/// Store a document under its id, creating its collection where needed; a row that the id had
/// before goes dead.
pub open spec fn put(ix: IndexV, c: Seq<char>, id: Seq<char>, doc: DocV) -> IndexV {
    let col = coll(ix.collections, c);
    IndexV {
        collections: ix.collections.insert(
            c,
            CollV { meta: col.meta, docs: col.docs.insert(id, doc) },
        ),
        dead_rows: ix.dead_rows + weight(ix.collections, c, id),
        fts: ix.fts,
        findex: ix.findex,
    }
}

/// The attributes after a recall is stamped on them.
pub open spec fn stamped(attrs: AttrsV, count: i64, last: i64, expires: Option<i64>) -> AttrsV {
    let a = attrs.insert(META_ACCESS_COUNT@, ValueV::Int(count)).insert(
        META_LAST_ACCESSED@,
        ValueV::DateTime(last),
    );
    match expires {
        Some(t) => a.insert(META_EXPIRES_AT@, ValueV::DateTime(t)),
        None => a,
    }
}

/// The index after one operation, over a row space of `rows` rows. A document whose row lies
/// beyond the row space is ignored: its vector is not there yet.
pub open spec fn apply(ix: IndexV, op: OpV, rows: u64) -> IndexV {
    match op {
        OpV::CreateCollection(c) => IndexV {
            collections: ix.collections.insert(c, coll(ix.collections, c)),
            ..ix
        },
        OpV::DropCollection(c) => IndexV {
            collections: ix.collections.remove(c),
            dead_rows: ix.dead_rows + live_in(ix.collections, c).len(),
            ..ix
        },
        OpV::SetMeta(c, meta) => IndexV {
            collections: ix.collections.insert(
                c,
                CollV { meta, docs: coll(ix.collections, c).docs },
            ),
            ..ix
        },
        OpV::Put(c, id, row, attrs) => if row is Some && row->0 >= rows {
            ix
        } else {
            put(ix, c, id, DocV { row, attrs })
        },
        OpV::Delete(c, id) => if ix.collections.contains_key(c)
            && ix.collections[c].docs.contains_key(id) {
            IndexV {
                collections: ix.collections.insert(
                    c,
                    CollV {
                        meta: ix.collections[c].meta,
                        docs: ix.collections[c].docs.remove(id),
                    },
                ),
                dead_rows: ix.dead_rows + weight(ix.collections, c, id),
                ..ix
            }
        } else {
            ix
        },
        OpV::SetFts(c, fields) => IndexV {
            collections: ix.collections.insert(c, coll(ix.collections, c)),
            fts: ix.fts.insert(c, fields),
            ..ix
        },
        OpV::SetFilterIndex(c, fields) => IndexV {
            collections: ix.collections.insert(c, coll(ix.collections, c)),
            findex: ix.findex.insert(c, fields),
            ..ix
        },
        OpV::Reinforce(c, id, count, last, expires) => if ix.collections.contains_key(c)
            && ix.collections[c].docs.contains_key(id) {
            let col = ix.collections[c];
            let doc = col.docs[id];
            IndexV {
                collections: ix.collections.insert(
                    c,
                    CollV {
                        meta: col.meta,
                        docs: col.docs.insert(
                            id,
                            DocV {
                                row: doc.row,
                                attrs: stamped(doc.attrs, count, last, expires),
                            },
                        ),
                    },
                ),
                ..ix
            }
        } else {
            ix
        },
    }
}

/// The index that a log stands for, over a row space of `rows` rows.
pub open spec fn replay(ops: Seq<OpV>, rows: u64) -> IndexV
    decreases ops.len(),
{
    if ops.len() == 0 {
        empty_index()
    } else {
        apply(replay(ops.drop_last(), rows), ops.last(), rows)
    }
}

/// `1` where the operation gives a document a row.
pub open spec fn brings_row(op: OpV, rows: u64) -> nat {
    match op {
        OpV::Put(_, _, Some(row), _) => if row < rows {
            1
        } else {
            0
        },
        _ => 0,
    }
}

/// How many of the operations give a document a row.
pub open spec fn rows_brought(ops: Seq<OpV>, rows: u64) -> nat
    decreases ops.len(),
{
    if ops.len() == 0 {
        0
    } else {
        rows_brought(ops.drop_last(), rows) + brings_row(ops.last(), rows)
    }
}

/// The documents that have a row, and the rows that went dead.
pub open spec fn accounted(ix: IndexV) -> nat {
    live(ix.collections).len() + ix.dead_rows
}

proof fn live_put(cols: CollsV, c: Seq<char>, id: Seq<char>, doc: DocV)
    requires
        live(cols).finite(),
    ensures
        ({
            let col = coll(cols, c);
            let after = cols.insert(c, CollV { meta: col.meta, docs: col.docs.insert(id, doc) });
            &&& live(after).finite()
            &&& live(after).len() + weight(cols, c, id) == live(cols).len() + (if doc.row is Some {
                1nat
            } else {
                0
            })
        }),
{
    let col = coll(cols, c);
    let after = cols.insert(c, CollV { meta: col.meta, docs: col.docs.insert(id, doc) });
    let p = (c, id);
    let base = live(cols).remove(p);
    assert(base.len() + weight(cols, c, id) == live(cols).len());
    if doc.row is Some {
        assert(live(after) =~= base.insert(p));
    } else {
        assert(live(after) =~= base);
    }
}

proof fn live_unchanged(cols: CollsV, after: CollsV)
    requires
        live(cols).finite(),
        forall|p: (Seq<char>, Seq<char>)| is_live(cols, p) == is_live(after, p),
    ensures
        live(after) == live(cols),
{
    assert(live(after) =~= live(cols));
}

/// Every operation keeps the books: a row is brought in live, and leaves the live documents only
/// by going dead.
pub proof fn apply_accounts(ix: IndexV, op: OpV, rows: u64)
    requires
        live(ix.collections).finite(),
    ensures
        live(apply(ix, op, rows).collections).finite(),
        accounted(apply(ix, op, rows)) == accounted(ix) + brings_row(op, rows),
{
    let cols = ix.collections;
    let after = apply(ix, op, rows);
    match op {
        OpV::CreateCollection(c) => {
            live_unchanged(cols, after.collections);
        },
        OpV::DropCollection(c) => {
            let gone = live_in(cols, c);
            assert(gone =~= live(cols).intersect(gone));
            assert(live(after.collections) =~= live(cols).difference(gone));
            vstd::set_lib::lemma_set_difference_len(live(cols), gone);
            vstd::set_lib::lemma_len_intersect(live(cols), gone);
            assert(gone.finite());
        },
        OpV::SetMeta(c, meta) => {
            live_unchanged(cols, after.collections);
        },
        OpV::Put(c, id, row, attrs) => {
            live_put(cols, c, id, DocV { row, attrs });
        },
        OpV::Delete(c, id) => {
            if cols.contains_key(c) && cols[c].docs.contains_key(id) {
                assert(live(after.collections) =~= live(cols).remove((c, id)));
            }
        },
        OpV::SetFts(c, fields) => {
            live_unchanged(cols, after.collections);
        },
        OpV::SetFilterIndex(c, fields) => {
            live_unchanged(cols, after.collections);
        },
        OpV::Reinforce(c, id, count, last, expires) => {
            live_unchanged(cols, after.collections);
        },
    }
}

/// After a replay every row that the log brought is live or dead, and none is both.
pub proof fn replay_accounts(ops: Seq<OpV>, rows: u64)
    ensures
        live(replay(ops, rows).collections).finite(),
        accounted(replay(ops, rows)) == rows_brought(ops, rows),
        rows_brought(ops, rows) <= ops.len(),
    decreases ops.len(),
{
    if ops.len() == 0 {
        assert(live(empty_index().collections) =~= Set::empty());
    } else {
        replay_accounts(ops.drop_last(), rows);
        apply_accounts(replay(ops.drop_last(), rows), ops.last(), rows);
    }
}

/// A recall never touches a row: no document joins or leaves the live ones and nothing goes dead.
pub proof fn reinforce_keeps_rows(
    ix: IndexV,
    c: Seq<char>,
    id: Seq<char>,
    count: i64,
    last: i64,
    expires: Option<i64>,
    rows: u64,
)
    ensures
        apply(ix, OpV::Reinforce(c, id, count, last, expires), rows).dead_rows == ix.dead_rows,
        live(apply(ix, OpV::Reinforce(c, id, count, last, expires), rows).collections) == live(
            ix.collections,
        ),
        forall|d: Seq<char>, i: Seq<char>|
            is_live(ix.collections, (d, i)) ==> (#[trigger] apply(
                ix,
                OpV::Reinforce(c, id, count, last, expires),
                rows,
            ).collections[d].docs[i]).row == ix.collections[d].docs[i].row,
{
    let after = apply(ix, OpV::Reinforce(c, id, count, last, expires), rows);
    assert(live(after.collections) =~= live(ix.collections));
}

/// A document whose row the row space does not hold changes nothing.
pub proof fn unwritten_row_is_ignored(
    ix: IndexV,
    c: Seq<char>,
    id: Seq<char>,
    row: u64,
    attrs: AttrsV,
    rows: u64,
)
    requires
        row >= rows,
    ensures
        apply(ix, OpV::Put(c, id, Some(row), attrs), rows) == ix,
{
}

/// Replaying a log extended by one operation applies that operation to the replay of the log.
pub proof fn replay_push(ops: Seq<OpV>, op: OpV, rows: u64)
    ensures
        replay(ops.push(op), rows) == apply(replay(ops, rows), op, rows),
{
    assert(ops.push(op).drop_last() =~= ops);
}

/// No operation of the log refers to a row outside `rows`.
pub open spec fn rows_within(ops: Seq<OpV>, rows: u64) -> bool {
    forall|i: int|
        0 <= i < ops.len() ==> (#[trigger] ops[i] matches OpV::Put(_, _, Some(row), _) ==> row
            < rows)
}

/// Growing the row space does not change what a log means whose rows were all there already.
pub proof fn replay_grows(ops: Seq<OpV>, rows: u64, more: u64)
    requires
        rows_within(ops, rows),
        rows <= more,
    ensures
        replay(ops, rows) == replay(ops, more),
    decreases ops.len(),
{
    if ops.len() > 0 {
        let d = ops.drop_last();
        assert forall|i: int| 0 <= i < d.len() implies (#[trigger] d[i] matches OpV::Put(
            _,
            _,
            Some(row),
            _,
        ) ==> row < rows) by {
            assert(d[i] == ops[i]);
        }
        replay_grows(d, rows, more);
        assert(ops.last() == ops[ops.len() - 1]);
    }
}

impl Collection {
    pub fn new() -> (r: Self)
        ensures
            r@ == empty_coll(),
    {
        Collection { meta: Dict::new(), docs: Dict::new() }
    }

    /// How many of the documents have a row.
    pub(crate) fn rowed(&self, Ghost(cols): Ghost<CollsV>, Ghost(c): Ghost<Seq<char>>) -> (n: usize)
        requires
            cols.contains_key(c),
            cols[c] == self@,
        ensures
            n == live_in(cols, c).len(),
            live_in(cols, c).finite(),
    {
        let mut n: usize = 0;
        let mut i: usize = 0;
        let count: usize = self.docs.len();
        let ghost e = self.docs.entries();
        let ghost mut seen = Set::<(Seq<char>, Seq<char>)>::empty();
        while i < count
            invariant
                i <= count,
                n <= i,
                count == e.len(),
                e == self.docs.entries(),
                crate::dict::ascending(e),
                seen.finite(),
                seen.len() == n,
                forall|p: (Seq<char>, Seq<char>)|
                    #[trigger] seen.contains(p) <==> p.0 == c && exists|j: int|
                        0 <= j < i && (#[trigger] e[j]).0 == p.1 && e[j].1.row is Some,
            decreases count - i,
        {
            let doc = self.docs.value_at(i);
            if doc.row.is_some() {
                proof {
                    let p = (c, e[i as int].0);
                    crate::dict::ascending_distinct(e);
                    assert(!seen.contains(p));
                    let next = seen.insert(p);
                    assert forall|q: (Seq<char>, Seq<char>)|
                        #[trigger] next.contains(q) <==> q.0 == c && exists|j: int|
                            0 <= j < i + 1 && (#[trigger] e[j]).0 == q.1 && e[j].1.row is Some by {
                        if q == p {
                            assert(e[i as int].0 == q.1);
                        }
                    }
                    seen = next;
                }
                n = n + 1;
            }
            i = i + 1;
        }
        proof {
            assert forall|p: (Seq<char>, Seq<char>)| seen.contains(p) == live_in(cols, c).contains(
                p,
            ) by {
                if seen.contains(p) {
                    let j = choose|j: int|
                        0 <= j < e.len() && (#[trigger] e[j]).0 == p.1 && e[j].1.row is Some;
                    to_map_at(e, j);
                }
                if live_in(cols, c).contains(p) {
                    assert(crate::dict::has_key(e, p.1));
                    let j = choose|j: int| 0 <= j < e.len() && (#[trigger] e[j]).0 == p.1;
                    to_map_at(e, j);
                }
            }
            assert(seen =~= live_in(cols, c));
        }
        n
    }
}

impl Dup for Index {
    fn dup(&self) -> (r: Self) {
        Index {
            collections: self.collections.dup(),
            dead_rows: self.dead_rows,
            fts: self.fts.dup(),
            findex: self.findex.dup(),
        }
    }
}

impl Index {
    pub fn new() -> (r: Self)
        ensures
            r@ == empty_index(),
    {
        Index { collections: Dict::new(), dead_rows: 0, fts: Dict::new(), findex: Dict::new() }
    }

    /// Take the collection out, an empty one where there is none.
    fn checkout(&mut self, c: &str) -> (r: Collection)
        ensures
            r@ == coll(old(self)@.collections, c@),
            final(self)@ == (IndexV {
                collections: old(self)@.collections.remove(c@),
                ..old(self)@
            }),
            final(self).dead_rows == old(self).dead_rows,
    {
        match self.collections.remove(c) {
            Some(col) => col,
            None => {
                proof {
                    assert(old(self)@.collections.remove(c@) =~= old(self)@.collections);
                }
                Collection::new()
            },
        }
    }

    /// Make sure the collection exists.
    fn ensure(&mut self, c: String)
        ensures
            final(self)@ == (IndexV {
                collections: old(self)@.collections.insert(c@, coll(old(self)@.collections, c@)),
                ..old(self)@
            }),
            final(self).dead_rows == old(self).dead_rows,
    {
        let col = self.checkout(c.as_str());
        let _ = self.collections.insert(c, col);
        proof {
            assert(self@.collections =~= old(self)@.collections.insert(
                c@,
                coll(old(self)@.collections, c@),
            ));
        }
    }

    fn put_doc(&mut self, c: String, id: String, doc: Doc)
        requires
            old(self).dead_rows < usize::MAX,
        ensures
            final(self)@ == put(old(self)@, c@, id@, doc@),
    {
        let mut col = self.checkout(c.as_str());
        let ghost before = self@;
        if let Some(prior) = col.docs.insert(id, doc) {
            if prior.row.is_some() {
                self.dead_rows = self.dead_rows + 1;
            }
        }
        let _ = self.collections.insert(c, col);
        proof {
            assert(self@.collections =~= put(old(self)@, c@, id@, doc@).collections);
        }
    }

    /// Apply one logged operation over a row space of `rows` rows.
    pub fn apply_op(&mut self, op: Op, rows: u64)
        requires
            live(old(self)@.collections).finite(),
            accounted(old(self)@) < usize::MAX,
        ensures
            final(self)@ == apply(old(self)@, op@, rows),
    {
        match op {
            Op::CreateCollection { collection } => {
                self.ensure(collection);
            },
            Op::DropCollection { collection } => {
                proof {
                    let gone = live_in(self@.collections, collection@);
                    assert(gone.subset_of(live(self@.collections)));
                    vstd::set_lib::lemma_len_subset(gone, live(self@.collections));
                }
                match self.collections.remove(collection.as_str()) {
                    Some(col) => {
                        let n: usize = col.rowed(
                            Ghost(old(self)@.collections),
                            Ghost(collection@),
                        );
                        self.dead_rows = self.dead_rows + n;
                    },
                    None => {
                        proof {
                            assert(live_in(self@.collections, collection@) =~= Set::empty());
                            assert(old(self)@.collections.remove(collection@)
                                =~= old(self)@.collections);
                        }
                    },
                }
            },
            Op::SetMeta { collection, meta } => {
                let col = self.checkout(collection.as_str());
                let _ = self.collections.insert(collection, Collection { meta, docs: col.docs });
                proof {
                    assert(self@.collections =~= apply(old(self)@, op@, rows).collections);
                }
            },
            Op::Upsert { collection, id, row, attrs } => {
                if row < rows {
                    self.put_doc(collection, id, Doc { row: Some(row), attrs });
                }
            },
            Op::UpsertText { collection, id, attrs } => {
                self.put_doc(collection, id, Doc { row: None, attrs });
            },
            Op::Delete { collection, id } => {
                match self.collections.remove(collection.as_str()) {
                    Some(mut col) => {
                        if let Some(prior) = col.docs.remove(id.as_str()) {
                            if prior.row.is_some() {
                                self.dead_rows = self.dead_rows + 1;
                            }
                        } else {
                            proof {
                                assert(col.docs@ =~= old(self)@.collections[collection@].docs);
                            }
                        }
                        let _ = self.collections.insert(collection, col);
                    },
                    None => {},
                }
                proof {
                    assert(self@.collections =~= apply(old(self)@, op@, rows).collections);
                }
            },
            Op::SetFtsSchema { collection, fields } => {
                let mut out: Vec<FtsField> = Vec::new();
                let mut i: usize = 0;
                while i < fields.len()
                    invariant
                        i <= fields@.len(),
                        out@.len() == i,
                        forall|j: int|
                            0 <= j < i ==> (#[trigger] out@[j])@ == default_field(
                                fields@[j].0@,
                                fields@[j].1,
                            ),
                    decreases fields@.len() - i,
                {
                    out.push(FtsField::new(fields[i].0.as_str()).language(fields[i].1));
                    i = i + 1;
                }
                proof {
                    assert(views(out@) =~= legacy_fields(fields@));
                }
                let key = collection.clone();
                self.ensure(collection);
                let _ = self.fts.insert(key, Schema { fields: out });
            },
            Op::SetFtsFields { collection, fields } => {
                let key = collection.clone();
                self.ensure(collection);
                let _ = self.fts.insert(key, Schema { fields });
            },
            Op::SetFilterIndex { collection, fields } => {
                let key = collection.clone();
                self.ensure(collection);
                let _ = self.findex.insert(key, Indexed { fields });
            },
            Op::Reinforce { collection, id, access_count, last_accessed, expires_at } => {
                match self.collections.remove(collection.as_str()) {
                    Some(mut col) => {
                        match col.docs.remove(id.as_str()) {
                            Some(mut doc) => {
                                stamp(&mut doc.attrs, access_count, last_accessed, expires_at);
                                let _ = col.docs.insert(id, doc);
                                proof {
                                    assert(col.docs@ =~= apply(
                                        old(self)@,
                                        op@,
                                        rows,
                                    ).collections[collection@].docs);
                                }
                            },
                            None => {
                                proof {
                                    assert(col.docs@ =~= old(self)@.collections[collection@].docs);
                                }
                            },
                        }
                        let _ = self.collections.insert(collection, col);
                    },
                    None => {},
                }
                proof {
                    assert(self@.collections =~= apply(old(self)@, op@, rows).collections);
                }
            },
        }
    }
}

/// Stamp a recall on a record's attributes.
fn stamp(attrs: &mut Attrs, access_count: i64, last_accessed: i64, expires_at: Option<i64>)
    ensures
        final(attrs)@ == stamped(old(attrs)@, access_count, last_accessed, expires_at),
{
    let _ = attrs.insert(META_ACCESS_COUNT.to_owned(), Value::Int(access_count));
    let _ = attrs.insert(META_LAST_ACCESSED.to_owned(), Value::DateTime(last_accessed));
    if let Some(t) = expires_at {
        let _ = attrs.insert(META_EXPIRES_AT.to_owned(), Value::DateTime(t));
    }
}

/// Replay a log into an index: the source of truth wherever no current snapshot is at hand.
pub fn replay_ops(ops: Vec<Op>, row_count: u64) -> (ix: Index)
    ensures
        ix@ == replay(views(ops@), row_count),
{
    let ghost all = views(ops@);
    let n: usize = ops.len();
    let mut rest = reversed(ops);
    let mut ix = Index::new();
    let mut done: usize = 0;
    proof {
        assert(all.take(0) =~= Seq::empty());
    }
    while done < n
        invariant
            done <= n,
            n == all.len(),
            rest@.len() == n - done,
            forall|i: int|
                0 <= i < rest@.len() ==> (#[trigger] rest@[i])@ == all[n - 1 - i],
            ix@ == replay(all.take(done as int), row_count),
        decreases n - done,
    {
        proof {
            replay_accounts(all.take(done as int), row_count);
        }
        match rest.pop() {
            Some(op) => {
                ix.apply_op(op, row_count);
            },
            None => {},
        }
        proof {
            assert(all.take(done + 1).drop_last() =~= all.take(done as int));
            assert(all.take(done + 1).last() == all[done as int]);
        }
        done = done + 1;
    }
    proof {
        assert(all.take(n as int) =~= all);
    }
    ix
}

} // verus!
