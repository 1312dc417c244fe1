//! Scans: which documents a query looks at, and in what order.

use vstd::prelude::*;

use crate::dict::{ascending, has_key, ordered, to_map, to_map_at, views, Dict, Dup};
use crate::host::ids_in;
use crate::index::{CollsV, Collection, DocV};
use crate::order::{
    same, sort_stable, sorted, sorted_len, sorted_map, sorted_members, sorted_ordered, weak_order,
};
use crate::plan::Narrowing;
use crate::store::Store;
use crate::value::{admits, passes, Filter};

verus! {

/// A document in a scan.
#[derive(Clone, Debug, PartialEq)]
pub struct ScanItem {
    pub row: u64,
    pub collection: String,
    pub id: String,
}

/// What a [`ScanItem`] holds.
pub ghost struct ScanV {
    pub row: u64,
    pub collection: Seq<char>,
    pub id: Seq<char>,
}

impl View for ScanItem {
    type V = ScanV;

    open spec fn view(&self) -> ScanV {
        ScanV { row: self.row, collection: self.collection@, id: self.id@ }
    }
}

/// The characters of the names in a list.
pub open spec fn names(s: Seq<&str>) -> Seq<Seq<char>> {
    s.map_values(|n: &str| n@)
}

/// Whether the name at place `i` stands at an earlier place too.
pub(crate) fn is_repeated(collections: &[&str], i: usize) -> (r: bool)
    requires
        i < collections@.len(),
    ensures
        r == names(collections@).take(i as int).contains(names(collections@)[i as int]),
{
    let ghost all = names(collections@);
    let mut j: usize = 0;
    while j < i
        invariant
            j <= i < collections@.len(),
            all == names(collections@),
            forall|x: int| 0 <= x < j ==> #[trigger] all.take(i as int)[x] != all[i as int],
        decreases i - j,
    {
        if same(collections[j], collections[i]) {
            proof {
                assert(all.take(i as int)[j as int] == all[i as int]);
            }
            return true;
        }
        j = j + 1;
    }
    false
}

/// The filter admits the document and it has a row.
pub open spec fn scannable(doc: DocV, filter: Filter) -> bool {
    doc.row is Some && passes(filter, doc.attrs)
}

/// The admitted documents with a row among the entries of collection `c`, in their order.
pub open spec fn scan_coll(c: Seq<char>, entries: Seq<(Seq<char>, DocV)>, filter: Filter) -> Seq<
    ScanV,
>
    decreases entries.len(),
{
    if entries.len() == 0 {
        Seq::empty()
    } else {
        let rest = scan_coll(c, entries.drop_last(), filter);
        let (id, doc) = entries.last();
        if scannable(doc, filter) {
            rest.push(ScanV { row: doc.row->0, collection: c, id })
        } else {
            rest
        }
    }
}

/// The admitted documents with a row, collection by collection as they are named, by id within
/// one. The scope is the union of what is named: a name that is no collection contributes
/// nothing, and neither does one that was named before.
pub open spec fn gathered(cols: CollsV, scope: Seq<Seq<char>>, filter: Filter) -> Seq<ScanV>
    decreases scope.len(),
{
    if scope.len() == 0 {
        Seq::empty()
    } else {
        let rest = gathered(cols, scope.drop_last(), filter);
        let c = scope.last();
        if cols.contains_key(c) && !scope.drop_last().contains(c) {
            rest + scan_coll(c, ordered(cols[c].docs), filter)
        } else {
            rest
        }
    }
}

/// Storage order.
pub open spec fn by_row() -> spec_fn(ScanV, ScanV) -> bool {
    |a: ScanV, b: ScanV| a.row < b.row
}

pub open spec fn item_by_row() -> spec_fn(ScanItem, ScanItem) -> bool {
    |a: ScanItem, b: ScanItem| a.row < b.row
}

/// The scan of a query: the admitted documents with a row, in storage order.
pub open spec fn scan_of(cols: CollsV, scope: Seq<Seq<char>>, filter: Filter) -> Seq<ScanV> {
    sorted(gathered(cols, scope, filter), by_row())
}

/// An item of a scan stands for a document in scope that is admitted and has that row.
pub open spec fn sound_item(cols: CollsV, scope: Seq<Seq<char>>, filter: Filter, x: ScanV) -> bool {
    &&& scope.contains(x.collection)
    &&& cols.contains_key(x.collection)
    &&& cols[x.collection].docs.contains_key(x.id)
    &&& cols[x.collection].docs[x.id].row == Some(x.row)
    &&& passes(filter, cols[x.collection].docs[x.id].attrs)
}

proof fn scan_coll_members(c: Seq<char>, entries: Seq<(Seq<char>, DocV)>, filter: Filter, x: ScanV)
    ensures
        scan_coll(c, entries, filter).contains(x) <==> x.collection == c && exists|i: int|
            0 <= i < entries.len() && (#[trigger] entries[i]).0 == x.id && scannable(
                entries[i].1,
                filter,
            ) && entries[i].1.row == Some(x.row),
    decreases entries.len(),
{
    if entries.len() > 0 {
        let d = entries.drop_last();
        scan_coll_members(c, d, filter, x);
        let rest = scan_coll(c, d, filter);
        let all = scan_coll(c, entries, filter);
        let (id, doc) = entries.last();
        let new = ScanV { row: doc.row->0, collection: c, id };
        if scannable(doc, filter) {
            assert(all == rest.push(new));
            if all.contains(x) {
                let k = choose|k: int| 0 <= k < all.len() && all[k] == x;
                if k < rest.len() {
                    assert(rest[k] == x);
                } else {
                    assert(entries[entries.len() - 1].0 == x.id);
                }
            }
            if x == new {
                assert(all[rest.len() as int] == x);
            }
            if rest.contains(x) {
                let k = choose|k: int| 0 <= k < rest.len() && rest[k] == x;
                assert(all[k] == x);
            }
        }
        if exists|i: int|
            0 <= i < d.len() && (#[trigger] d[i]).0 == x.id && scannable(d[i].1, filter)
                && d[i].1.row == Some(x.row) {
            let i = choose|i: int|
                0 <= i < d.len() && (#[trigger] d[i]).0 == x.id && scannable(d[i].1, filter)
                    && d[i].1.row == Some(x.row);
            assert(entries[i] == d[i]);
        }
        if x.collection == c && exists|i: int|
            0 <= i < entries.len() && (#[trigger] entries[i]).0 == x.id && scannable(
                entries[i].1,
                filter,
            ) && entries[i].1.row == Some(x.row) {
            let i = choose|i: int|
                0 <= i < entries.len() && (#[trigger] entries[i]).0 == x.id && scannable(
                    entries[i].1,
                    filter,
                ) && entries[i].1.row == Some(x.row);
            if i < d.len() {
                assert(d[i] == entries[i]);
            } else {
                assert(x == new);
            }
        }
    }
}

/// The collections are finite: they, and the documents of each, have their entries in key order.
pub open spec fn listable(cols: CollsV) -> bool {
    &&& ascending(ordered(cols))
    &&& to_map(ordered(cols)) == cols
    &&& forall|c: Seq<char>| #[trigger]
        cols.contains_key(c) ==> ascending(ordered(cols[c].docs)) && to_map(ordered(cols[c].docs))
            == cols[c].docs
}

/// A scan holds exactly the admitted documents in scope that have a row.
pub proof fn gathered_members(cols: CollsV, scope: Seq<Seq<char>>, filter: Filter, x: ScanV)
    requires
        listable(cols),
    ensures
        gathered(cols, scope, filter).contains(x) <==> sound_item(cols, scope, filter, x),
    decreases scope.len(),
{
    if scope.len() > 0 {
        let d = scope.drop_last();
        gathered_members(cols, d, filter, x);
        let c = scope.last();
        let rest = gathered(cols, d, filter);
        let all = gathered(cols, scope, filter);
        if scope.contains(x.collection) && x.collection != c {
            let k = choose|k: int| 0 <= k < scope.len() && scope[k] == x.collection;
            assert(d[k] == x.collection);
        }
        if d.contains(x.collection) {
            let k = choose|k: int| 0 <= k < d.len() && d[k] == x.collection;
            assert(scope[k] == x.collection);
        }
        assert(scope[scope.len() - 1] == c);
        if cols.contains_key(c) && !d.contains(c) {
            let e = ordered(cols[c].docs);
            let own = scan_coll(c, e, filter);
            scan_coll_members(c, e, filter, x);
            assert(all == rest + own);
            if all.contains(x) {
                let k = choose|k: int| 0 <= k < all.len() && all[k] == x;
                if k < rest.len() {
                    assert(rest[k] == x);
                } else {
                    assert(own[k - rest.len()] == x);
                }
            }
            if rest.contains(x) {
                let k = choose|k: int| 0 <= k < rest.len() && rest[k] == x;
                assert(all[k] == x);
            }
            if own.contains(x) {
                let k = choose|k: int| 0 <= k < own.len() && own[k] == x;
                assert(all[rest.len() + k] == x);
                let i = choose|i: int|
                    0 <= i < e.len() && (#[trigger] e[i]).0 == x.id && scannable(e[i].1, filter)
                        && e[i].1.row == Some(x.row);
                to_map_at(e, i);
            }
            if x.collection == c && sound_item(cols, scope, filter, x) {
                assert(crate::dict::to_map(e).contains_key(x.id));
                assert(has_key(e, x.id));
                let i = choose|i: int| 0 <= i < e.len() && (#[trigger] e[i]).0 == x.id;
                to_map_at(e, i);
                assert(own.contains(x));
            }
        }
    }
}

/// A scan holds exactly the admitted documents in scope that have a row, in storage order.
pub proof fn scan_is_sound(cols: CollsV, scope: Seq<Seq<char>>, filter: Filter)
    requires
        listable(cols),
    ensures
        forall|x: ScanV| #[trigger]
            scan_of(cols, scope, filter).contains(x) <==> sound_item(cols, scope, filter, x),
        forall|i: int, j: int|
            0 <= i < j < scan_of(cols, scope, filter).len() ==> (#[trigger] scan_of(
                cols,
                scope,
                filter,
            )[i]).row <= (#[trigger] scan_of(cols, scope, filter)[j]).row,
{
    let g = gathered(cols, scope, filter);
    sorted_members(g, by_row());
    sorted_len(g, by_row());
    assert(weak_order(by_row()));
    sorted_ordered(g, by_row());
    assert forall|x: ScanV| #[trigger]
        scan_of(cols, scope, filter).contains(x) <==> sound_item(cols, scope, filter, x) by {
        gathered_members(cols, scope, filter, x);
    }
    assert forall|i: int, j: int| 0 <= i < j < scan_of(cols, scope, filter).len() implies (
    #[trigger] scan_of(cols, scope, filter)[i]).row <= (
    #[trigger] scan_of(cols, scope, filter)[j]).row by {
        assert(!by_row()(sorted(g, by_row())[j], sorted(g, by_row())[i]));
    }
}

// ── The filter index ────────────────────────────────────────────────────────

/// What the filter index proposes for one collection: candidate ids, or nothing where it cannot
/// answer the filter.
pub type Proposal = Option<Vec<String>>;

/// What a [`Proposal`] holds.
pub type ProposalV = Option<Seq<Seq<char>>>;

/// What proposals hold.
pub open spec fn proposed(s: Seq<Proposal>) -> Seq<ProposalV> {
    s.map_values(|p: Proposal| ids_in(p))
}

/// The proposed documents of `c` that are admitted and have a row, in the order proposed.
pub open spec fn picked(cols: CollsV, c: Seq<char>, ids: Seq<Seq<char>>, filter: Filter) -> Seq<
    ScanV,
>
    decreases ids.len(),
{
    if ids.len() == 0 {
        Seq::empty()
    } else {
        let rest = picked(cols, c, ids.drop_last(), filter);
        let id = ids.last();
        if cols.contains_key(c) && cols[c].docs.contains_key(id) && scannable(
            cols[c].docs[id],
            filter,
        ) {
            rest.push(ScanV { row: cols[c].docs[id].row->0, collection: c, id })
        } else {
            rest
        }
    }
}

/// The filter index answered for every collection in scope that exists.
pub open spec fn answered(cols: CollsV, scope: Seq<Seq<char>>, proposals: Seq<ProposalV>) -> bool {
    forall|i: int|
        0 <= i < scope.len() && cols.contains_key(#[trigger] scope[i]) ==> proposals[i] is Some
}

/// The proposed documents of every collection in scope.
pub open spec fn narrowed(
    cols: CollsV,
    scope: Seq<Seq<char>>,
    proposals: Seq<ProposalV>,
    filter: Filter,
) -> Seq<ScanV>
    decreases scope.len(),
{
    if scope.len() == 0 {
        Seq::empty()
    } else {
        let rest = narrowed(cols, scope.drop_last(), proposals, filter);
        let c = scope.last();
        if cols.contains_key(c) && !scope.drop_last().contains(c) {
            rest + picked(cols, c, proposals[scope.len() - 1]->0, filter)
        } else {
            rest
        }
    }
}

proof fn picked_members(cols: CollsV, c: Seq<char>, ids: Seq<Seq<char>>, filter: Filter, x: ScanV)
    requires
        cols.contains_key(c),
    ensures
        picked(cols, c, ids, filter).contains(x) <==> x.collection == c && ids.contains(x.id)
            && cols[c].docs.contains_key(x.id) && cols[c].docs[x.id].row == Some(x.row) && passes(
            filter,
            cols[c].docs[x.id].attrs,
        ),
    decreases ids.len(),
{
    if ids.len() > 0 {
        let d = ids.drop_last();
        picked_members(cols, c, d, filter, x);
        let rest = picked(cols, c, d, filter);
        let all = picked(cols, c, ids, filter);
        let id = ids.last();
        assert(ids[ids.len() - 1] == id);
        if d.contains(x.id) {
            let k = choose|k: int| 0 <= k < d.len() && d[k] == x.id;
            assert(ids[k] == x.id);
        }
        if ids.contains(x.id) && x.id != id {
            let k = choose|k: int| 0 <= k < ids.len() && ids[k] == x.id;
            assert(d[k] == x.id);
        }
        if all.len() > rest.len() {
            if all.contains(x) {
                let k = choose|k: int| 0 <= k < all.len() && all[k] == x;
                if k < rest.len() {
                    assert(rest[k] == x);
                }
            }
            if rest.contains(x) {
                let k = choose|k: int| 0 <= k < rest.len() && rest[k] == x;
                assert(all[k] == x);
            }
            assert(all[rest.len() as int] == all.last());
        }
    }
}

/// The filter index narrows, it does not decide: where it answers for every collection and
/// proposes at least the documents that the filter admits, the narrowed scan holds exactly what
/// the full one holds.
pub proof fn narrowing_loses_nothing(
    cols: CollsV,
    scope: Seq<Seq<char>>,
    proposals: Seq<ProposalV>,
    filter: Filter,
    x: ScanV,
)
    requires
        listable(cols),
        proposals.len() >= scope.len(),
        answered(cols, scope, proposals),
        forall|i: int, id: Seq<char>|
            0 <= i < scope.len() && cols.contains_key(scope[i]) && #[trigger] cols[scope[i]].docs
                .contains_key(id) && passes(filter, cols[scope[i]].docs[id].attrs) ==> proposals[i]->0.contains(id),
    ensures
        narrowed(cols, scope, proposals, filter).contains(x) <==> gathered(
            cols,
            scope,
            filter,
        ).contains(x),
    decreases scope.len(),
{
    gathered_members(cols, scope, filter, x);
    if scope.len() > 0 {
        let d = scope.drop_last();
        assert forall|i: int| 0 <= i < d.len() && cols.contains_key(
            #[trigger] d[i],
        ) implies proposals[i] is Some by {
            assert(scope[i] == d[i]);
        }
        assert forall|i: int, id: Seq<char>|
            0 <= i < d.len() && cols.contains_key(d[i]) && #[trigger] cols[d[i]].docs.contains_key(
                id,
            ) && passes(filter, cols[d[i]].docs[id].attrs) implies proposals[i]->0.contains(id) by {
            assert(scope[i] == d[i]);
            assert(cols[scope[i]].docs.contains_key(id));
        }
        narrowing_loses_nothing(cols, d, proposals, filter, x);
        gathered_members(cols, d, filter, x);
        let c = scope.last();
        let last = scope.len() - 1;
        assert(scope[last] == c);
        if scope.contains(x.collection) && x.collection != c {
            let k = choose|k: int| 0 <= k < scope.len() && scope[k] == x.collection;
            assert(d[k] == x.collection);
        }
        if d.contains(x.collection) {
            let k = choose|k: int| 0 <= k < d.len() && d[k] == x.collection;
            assert(scope[k] == x.collection);
        }
        let rest = narrowed(cols, d, proposals, filter);
        let all = narrowed(cols, scope, proposals, filter);
        if cols.contains_key(c) && !d.contains(c) {
            let ids = proposals[last]->0;
            let own = picked(cols, c, ids, filter);
            picked_members(cols, c, ids, filter, x);
            if all.contains(x) {
                let k = choose|k: int| 0 <= k < all.len() && all[k] == x;
                if k < rest.len() {
                    assert(rest[k] == x);
                } else {
                    assert(own[k - rest.len()] == x);
                }
            }
            if rest.contains(x) {
                let k = choose|k: int| 0 <= k < rest.len() && rest[k] == x;
                assert(all[k] == x);
            }
            if own.contains(x) {
                let k = choose|k: int| 0 <= k < own.len() && own[k] == x;
                assert(all[rest.len() + k] == x);
            }
            if x.collection == c && sound_item(cols, scope, filter, x) {
                assert(cols[scope[last]].docs.contains_key(x.id));
            }
        }
    }
}

// ── Building scans ──────────────────────────────────────────────────────────

/// Every collection's documents have their entries in key order.
pub fn check_listable(collections: &Dict<Collection>)
    ensures
        listable(collections@),
{
    let n: usize = collections.len();
    let ghost e = collections.entries();
    let mut i: usize = 0;
    while i < n
        invariant
            i <= n,
            n == e.len(),
            e == collections.entries(),
            ascending(e),
            forall|j: int|
                0 <= j < i ==> ascending(ordered((#[trigger] e[j]).1.docs)) && crate::dict::to_map(
                    ordered(e[j].1.docs),
                ) == e[j].1.docs,
        decreases n - i,
    {
        let _ = collections.value_at(i).docs.len();
        i = i + 1;
    }
    proof {
        assert forall|c: Seq<char>| #[trigger] collections@.contains_key(c) implies ascending(
            ordered(collections@[c].docs),
        ) && crate::dict::to_map(ordered(collections@[c].docs)) == collections@[c].docs by {
            assert(has_key(e, c));
            let j = choose|j: int| 0 <= j < e.len() && (#[trigger] e[j]).0 == c;
            to_map_at(e, j);
        }
    }
}

/// An entry of the index is a collection, with its documents in order.
pub proof fn listable_at(cols: CollsV, i: int)
    requires
        listable(cols),
        0 <= i < ordered(cols).len(),
    ensures
        cols.contains_key(ordered(cols)[i].0),
        cols[ordered(cols)[i].0] == ordered(cols)[i].1,
        ascending(ordered(ordered(cols)[i].1.docs)),
        to_map(ordered(ordered(cols)[i].1.docs)) == ordered(cols)[i].1.docs,
{
    to_map_at(ordered(cols), i);
}

/// Sort a scan into storage order.
pub fn sort_by_row(scan: Vec<ScanItem>) -> (out: Vec<ScanItem>)
    ensures
        views(out@) == sorted(views(scan@), by_row()),
        out@.len() == scan@.len(),
{
    let f = |a: &ScanItem, b: &ScanItem| -> (r: bool)
        ensures
            r == (a.row < b.row),
        { a.row < b.row };
    let out = sort_stable(scan, &f, Ghost(item_by_row()));
    proof {
        let v = |x: ScanItem| x@;
        sorted_map(scan@, v, item_by_row(), by_row());
        assert(views(scan@) =~= scan@.map_values(v));
        assert(views(out@) =~= out@.map_values(v));
    }
    out
}

impl Store {
    /// Append the admitted documents of one collection that have a row.
    fn scan_into(&self, name: &str, filter: &Filter, scan: &mut Vec<ScanItem>)
        ensures
            views(final(scan)@) == views(old(scan)@) + (if self.index@.collections.contains_key(
                name@,
            ) {
                scan_coll(name@, ordered(self.index@.collections[name@].docs), *filter)
            } else {
                Seq::empty()
            }),
    {
        let col = match self.index.collections.get(name) {
            Some(col) => col,
            None => {
                proof {
                    assert(views(old(scan)@) + Seq::<ScanV>::empty() =~= views(old(scan)@));
                }
                return;
            },
        };
        let n: usize = col.docs.len();
        let ghost e = col.docs.entries();
        let ghost start = views(scan@);
        let mut i: usize = 0;
        proof {
            assert(e.take(0) =~= Seq::empty());
            assert(start + Seq::<ScanV>::empty() =~= start);
        }
        while i < n
            invariant
                i <= n,
                n == e.len(),
                e == col.docs.entries(),
                views(scan@) == start + scan_coll(name@, e.take(i as int), *filter),
            decreases n - i,
        {
            let doc = col.docs.value_at(i);
            proof {
                assert(e.take(i + 1).drop_last() =~= e.take(i as int));
                assert(e.take(i + 1).last() == e[i as int]);
            }
            if let Some(row) = doc.row {
                if admits(filter, &doc.attrs) {
                    let ghost before = views(scan@);
                    let item = ScanItem {
                        row,
                        collection: name.to_owned(),
                        id: col.docs.key_at(i).dup(),
                    };
                    scan.push(item);
                    proof {
                        assert(views(scan@) =~= before.push(item@));
                        assert(views(scan@) =~= start + scan_coll(name@, e.take(i + 1), *filter));
                    }
                }
            }
            i = i + 1;
        }
        proof {
            assert(e.take(n as int) =~= e);
        }
    }

    /// The scan of a query, in storage order.
    pub fn scan(&self, collections: &[&str], filter: &Filter) -> (out: Vec<ScanItem>)
        ensures
            views(out@) == scan_of(self.index@.collections, names(collections@), *filter),
    {
        let mut scan: Vec<ScanItem> = Vec::new();
        let mut i: usize = 0;
        let ghost scope = names(collections@);
        let ghost cols = self.index@.collections;
        proof {
            assert(scope.take(0) =~= Seq::empty());
            assert(views(scan@) =~= Seq::<ScanV>::empty());
        }
        while i < collections.len()
            invariant
                i <= collections@.len(),
                scope == names(collections@),
                cols == self.index@.collections,
                views(scan@) == gathered(cols, scope.take(i as int), *filter),
            decreases collections@.len() - i,
        {
            let ghost before = views(scan@);
            if !is_repeated(collections, i) {
                self.scan_into(collections[i], filter, &mut scan);
            }
            proof {
                assert(scope.take(i + 1).drop_last() =~= scope.take(i as int));
                assert(scope.take(i + 1).last() == collections@[i as int]@);
                assert(before + Seq::<ScanV>::empty() =~= before);
            }
            i = i + 1;
        }
        proof {
            assert(scope.take(i as int) =~= scope);
        }
        sort_by_row(scan)
    }

    /// The scan that the filter index narrows to, or how it fared. All or nothing: a scan built
    /// from some of the collections would miss the others' documents.
    pub fn narrowed_scan(
        &self,
        collections: &[&str],
        filter: &Filter,
        active: bool,
        proposals: &Vec<Proposal>,
    ) -> (r: (Narrowing, Vec<ScanItem>))
        requires
            proposals@.len() == collections@.len(),
        ensures
            ({
                let cols = self.index@.collections;
                let scope = names(collections@);
                &&& !active ==> r.0 == Narrowing::Inactive
                &&& active && !answered(cols, scope, proposed(proposals@)) ==> r.0 == Narrowing::Declined
                &&& active && answered(cols, scope, proposed(proposals@)) ==> r.0 == Narrowing::Narrowed {
                    candidates: r.1@.len() as u64,
                } && views(r.1@) == sorted(
                    narrowed(cols, scope, proposed(proposals@), *filter),
                    by_row(),
                )
            }),
    {
        let mut scan: Vec<ScanItem> = Vec::new();
        if !active {
            return (Narrowing::Inactive, scan);
        }
        let ghost scope = names(collections@);
        let ghost cols = self.index@.collections;
        let mut i: usize = 0;
        proof {
            assert(scope.take(0) =~= Seq::empty());
            assert(views(scan@) =~= Seq::<ScanV>::empty());
        }
        while i < collections.len()
            invariant
                i <= collections@.len(),
                active,
                proposals@.len() == collections@.len(),
                scope == names(collections@),
                cols == self.index@.collections,
                forall|j: int|
                    0 <= j < i && cols.contains_key(#[trigger] scope[j])
                        ==> proposed(proposals@)[j] is Some,
                views(scan@) == narrowed(
                    cols,
                    scope.take(i as int),
                    proposed(proposals@),
                    *filter,
                ),
            decreases collections@.len() - i,
        {
            proof {
                assert(scope.take(i + 1).drop_last() =~= scope.take(i as int));
                assert(scope.take(i + 1).last() == collections@[i as int]@);
                assert(scope[i as int] == collections@[i as int]@);
            }
            if self.index.collections.contains_key(collections[i]) {
                match &proposals[i] {
                    Some(ids) => {
                        proof {
                            assert(proposed(proposals@)[i as int] == Some(views(ids@)));
                        }
                        if !is_repeated(collections, i) {
                            self.pick_into(collections[i], ids, filter, &mut scan);
                        }
                    },
                    None => {
                        proof {
                            assert(cols.contains_key(scope[i as int]));
                            assert(proposed(proposals@)[i as int] is None);
                        }
                        return (Narrowing::Declined, Vec::new());
                    },
                }
            }
            i = i + 1;
        }
        proof {
            assert(scope.take(i as int) =~= scope);
        }
        let out = sort_by_row(scan);
        let n: u64 = out.len() as u64;
        (Narrowing::Narrowed { candidates: n }, out)
    }

    /// Append the proposed documents that are admitted and have a row.
    fn pick_into(&self, name: &str, ids: &Vec<String>, filter: &Filter, scan: &mut Vec<ScanItem>)
        ensures
            views(final(scan)@) == views(old(scan)@) + picked(
                self.index@.collections,
                name@,
                views(ids@),
                *filter,
            ),
    {
        let ghost start = views(scan@);
        let ghost all = views(ids@);
        let ghost cols = self.index@.collections;
        let mut i: usize = 0;
        proof {
            assert(all.take(0) =~= Seq::empty());
            assert(start + Seq::<ScanV>::empty() =~= start);
        }
        while i < ids.len()
            invariant
                i <= ids@.len(),
                all == views(ids@),
                cols == self.index@.collections,
                views(scan@) == start + picked(cols, name@, all.take(i as int), *filter),
            decreases ids@.len() - i,
        {
            proof {
                assert(all.take(i + 1).drop_last() =~= all.take(i as int));
                assert(all.take(i + 1).last() == ids@[i as int]@);
            }
            if let Some(col) = self.index.collections.get(name) {
                if let Some(doc) = col.docs.get(ids[i].as_str()) {
                    if let Some(row) = doc.row {
                        if admits(filter, &doc.attrs) {
                            let ghost before = views(scan@);
                            let item = ScanItem {
                                row,
                                collection: name.to_owned(),
                                id: ids[i].dup(),
                            };
                            scan.push(item);
                            proof {
                                assert(views(scan@) =~= before.push(item@));
                                assert(views(scan@) =~= start + picked(
                                    cols,
                                    name@,
                                    all.take(i + 1),
                                    *filter,
                                ));
                            }
                        }
                    }
                }
            }
            i = i + 1;
        }
        proof {
            assert(all.take(i as int) =~= all);
        }
    }
}

} // verus!
