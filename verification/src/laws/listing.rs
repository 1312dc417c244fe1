//! What a listing shows, and in which order.

use vstd::prelude::*;

use crate::index::CollsV;
use crate::laws::ordering::sorting_is_stable;
use crate::model::{project, ListOpts, OrderBy};
use crate::order::{lex_lt, sorted};
use crate::read::{
    attribute_order, full_listing, key_of, list_all, listing, sortable, storage_order, witness,
    ListV,
};
use crate::scan::listable;
use crate::value::{orderable, value_lt, ValueV};

verus! {

/// Two documents of a listing stand in storage order: by their rows, those without one behind,
/// and among those by their ids.
pub open spec fn stand_as_stored(a: ListV, b: ListV) -> bool {
    &&& a.row is Some && b.row is Some ==> a.row->0 <= b.row->0
    &&& a.row is None ==> b.row is None
    &&& a.row is None && b.row is None ==> !lex_lt(b.id, a.id)
}

/// A listing without an order of its own goes by storage.
pub proof fn a_listing_goes_by_storage(
    cols: CollsV,
    scope: Seq<Seq<char>>,
    opts: ListOpts,
    i: int,
    j: int,
)
    requires
        opts.order_by is None,
        0 <= i < j < full_listing(cols, scope, opts).len(),
    ensures
        stand_as_stored(
            full_listing(cols, scope, opts)[i],
            full_listing(cols, scope, opts)[j],
        ),
        full_listing(cols, scope, opts).to_multiset() == list_all(
            cols,
            scope,
            opts.filter,
        ).to_multiset(),
{
    let all = list_all(cols, scope, opts.filter);
    crate::read::storage_is_order();
    crate::order::sorted_ordered(all, storage_order());
    crate::order::sorted_len(all, storage_order());
    crate::order::sorted_permutes(all, storage_order());
    let out = sorted(all, storage_order());
    assert(!storage_order()(out[j], out[i]));
}

/// What a document holds under a field now.
pub open spec fn held(cols: CollsV, field: Seq<char>, x: ListV) -> Option<ValueV> {
    if cols.contains_key(x.collection) && cols[x.collection].docs.contains_key(x.id)
        && cols[x.collection].docs[x.id].attrs.contains_key(field) {
        Some(cols[x.collection].docs[x.id].attrs[field])
    } else {
        None
    }
}

/// The type that a listing is ordered by is that of the first value, in storage order, that can
/// be compared with itself.
pub proof fn the_first_comparable_value_decides(cols: CollsV, field: Seq<char>, items: Seq<ListV>)
    ensures
        witness(cols, field, items) is None ==> forall|i: int|
            0 <= i < items.len() ==> !(held(cols, field, #[trigger] items[i]) is Some && orderable(
                held(cols, field, items[i])->0,
                held(cols, field, items[i])->0,
            )),
        witness(cols, field, items) is Some ==> exists|i: int|
            0 <= i < items.len() && held(cols, field, #[trigger] items[i]) == witness(
                cols,
                field,
                items,
            ) && orderable(witness(cols, field, items)->0, witness(cols, field, items)->0)
                && forall|j: int|
                0 <= j < i ==> !(held(cols, field, #[trigger] items[j]) is Some && orderable(
                    held(cols, field, items[j])->0,
                    held(cols, field, items[j])->0,
                )),
    decreases items.len(),
{
    if items.len() > 0 {
        let d = items.drop_last();
        the_first_comparable_value_decides(cols, field, d);
        let n = items.len() - 1;
        assert(items[n] == items.last());
        assert forall|i: int| 0 <= i < n implies #[trigger] items[i] == d[i] by {}
        if witness(cols, field, d) is Some {
            let w = witness(cols, field, d);
            let i = choose|i: int|
                0 <= i < d.len() && held(cols, field, #[trigger] d[i]) == w && orderable(
                    w->0,
                    w->0,
                ) && forall|j: int|
                    0 <= j < i ==> !(held(cols, field, #[trigger] d[j]) is Some && orderable(
                        held(cols, field, d[j])->0,
                        held(cols, field, d[j])->0,
                    ));
            assert(items[i] == d[i]);
            assert forall|j: int| 0 <= j < i implies !(held(cols, field, #[trigger] items[j]) is Some
                && orderable(held(cols, field, items[j])->0, held(cols, field, items[j])->0)) by {
                assert(items[j] == d[j]);
            }
        } else if witness(cols, field, items) is Some {
            assert(held(cols, field, items[n]) == witness(cols, field, items));
        }
    }
}

/// A listing ordered by an attribute: what can be compared with the deciding value comes first,
/// ascending or descending by value, and the rest trails; what ties, and what trails, stands as
/// stored.
pub proof fn a_listing_goes_by_its_attribute(
    cols: CollsV,
    scope: Seq<Seq<char>>,
    opts: ListOpts,
    o: OrderBy,
    w: ValueV,
    i: int,
    j: int,
)
    requires
        opts.order_by == Some(o),
        witness(cols, o.field@, sorted(list_all(cols, scope, opts.filter), storage_order()))
            == Some(w),
        0 <= i < j < full_listing(cols, scope, opts).len(),
    ensures
        ({
            let a = full_listing(cols, scope, opts)[i];
            let b = full_listing(cols, scope, opts)[j];
            let x = held(cols, o.field@, a);
            let y = held(cols, o.field@, b);
            let ranks = |v: Option<ValueV>| v is Some && orderable(v->0, w);
            &&& ranks(y) ==> ranks(x)
            &&& ranks(x) && ranks(y) && !o.descending ==> !value_lt(y->0, x->0)
            &&& ranks(x) && ranks(y) && o.descending ==> !value_lt(x->0, y->0)
            &&& !ranks(x) ==> stand_as_stored(a, b)
            &&& ranks(x) && ranks(y) && !value_lt(x->0, y->0) && !value_lt(y->0, x->0)
                ==> stand_as_stored(a, b)
        }),
{
    let all = list_all(cols, scope, opts.filter);
    let stored = sorted(all, storage_order());
    let lt = attribute_order(cols, o.field@, o.descending, w);
    crate::read::storage_is_order();
    crate::read::attribute_is_order(cols, o.field@, o.descending, w);
    let from = sorting_is_stable(stored, lt);
    let under = sorting_is_stable(all, storage_order());
    let out = sorted(stored, lt);
    let a = out[i];
    let b = out[j];
    assert(key_of(cols, o.field@, a) == held(cols, o.field@, a));
    assert(key_of(cols, o.field@, b) == held(cols, o.field@, b));
    assert(!lt(b, a));
    assert(a == stored[from[i]] && b == stored[from[j]]);
    if !lt(a, b) {
        assert(from[i] < from[j]);
        assert(!storage_order()(stored[from[j]], stored[from[i]]));
        assert(stand_as_stored(a, b));
    }
    assert(sortable(cols, o.field@, w, a) == (held(cols, o.field@, a) is Some && orderable(
        held(cols, o.field@, a)->0,
        w,
    )));
    assert(sortable(cols, o.field@, w, b) == (held(cols, o.field@, b) is Some && orderable(
        held(cols, o.field@, b)->0,
        w,
    )));
}

/// What a listing shows of a document: where it is, no score, and the attributes that the
/// projection keeps.
pub proof fn what_a_listing_shows(cols: CollsV, scope: Seq<Seq<char>>, opts: ListOpts, i: int)
    requires
        listable(cols),
        0 <= i < listing(cols, scope, opts).len(),
    ensures
        opts.offset + i < full_listing(cols, scope, opts).len(),
        i < opts.limit,
        ({
            let x = full_listing(cols, scope, opts)[opts.offset + i];
            let h = listing(cols, scope, opts)[i];
            &&& h.collection == x.collection
            &&& h.id == x.id
            &&& h.score == 0
            &&& h.context is None
            &&& h.annotations is None
            &&& cols.contains_key(x.collection) && cols[x.collection].docs.contains_key(x.id)
                ==> h.attrs == project(opts.projection, cols[x.collection].docs[x.id].attrs)
        }),
{
}

} // verus!
