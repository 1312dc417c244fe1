//! Caps per value and groups.

use vstd::prelude::*;

use crate::aggregate::{
    by_count, capped, covered, distinct, distinct_members, field_total, group_keys, group_of,
    grouping, hit_keys, kept, members, occurrences, told_apart, totals, 
};
use crate::index::CollsV;
use crate::kernel::Kernel;
use crate::model::HitV;
use crate::read::{list_all, list_coll, ListV};
use crate::scan::listable;
use crate::value::{passes, AttrsV, Filter, ValueV};

verus! {

/// One key more occurs once more, and every other as often as before.
pub proof fn occurrences_count_places<A>(keys: Seq<A>, x: A, key: A)
    ensures
        occurrences(Seq::<A>::empty(), key) == 0,
        occurrences(keys.push(x), key) == occurrences(keys, key) + if x == key {
            1int
        } else {
            0
        },
{
    assert(keys.push(x).drop_last() =~= keys);
}

/// A cap walks the ranking in order: a result is kept where fewer than `max` results before it
/// share its value; past ten thousand values further ones are not counted and always kept.
pub proof fn a_cap_keeps_the_first_of_each_value<A>(keys: Seq<A>, max: int, i: int)
    requires
        0 <= i < keys.len(),
        0 <= max,
    ensures
        distinct(keys.take(i + 1)).len() <= 10_000 ==> (kept(keys, max).contains(i)
            <==> occurrences(keys.take(i), keys[i]) < max),
        !keys.take(i).contains(keys[i]) && distinct(keys.take(i)).len() >= 10_000 ==> kept(
            keys,
            max,
        ).contains(i),
    decreases keys.len(),
{
    let d = keys.drop_last();
    crate::aggregate::cap_keeps_order(d, max);
    crate::aggregate::cap_keeps_order(keys, max);
    let rest = kept(d, max);
    let all = kept(keys, max);
    if i < d.len() {
        a_cap_keeps_the_first_of_each_value(d, max, i);
        assert(d.take(i + 1) =~= keys.take(i + 1));
        assert(d.take(i) =~= keys.take(i));
        if rest.contains(i) {
            let m = choose|m: int| 0 <= m < rest.len() && rest[m] == i;
            assert(all[m] == i);
        }
        if all.contains(i) {
            let m = choose|m: int| 0 <= m < all.len() && all[m] == i;
            assert(rest[m] == i);
        }
    } else {
        assert(keys.take(i + 1) =~= keys);
        assert(keys.take(i) =~= d);
        let last = keys.last();
        distinct_members(keys);
        distinct_members(d);
        assert(keys.contains(last)) by {
            assert(keys[keys.len() - 1] == last);
        }
        assert(!rest.contains(i));
        let drops = told_apart(keys).contains(last) && occurrences(keys, last) > max;
        if drops {
            assert(all == rest);
        } else {
            assert(all[all.len() - 1] == i);
        }
        if distinct(keys).len() <= 10_000 {
            assert(told_apart(keys) == distinct(keys));
        }
        if !d.contains(last) && distinct(d).len() >= 10_000 {
            assert(distinct(keys) == distinct(d).push(last));
            assert(told_apart(keys) =~= distinct(d).take(10_000));
            if told_apart(keys).contains(last) {
                let m = choose|m: int|
                    0 <= m < told_apart(keys).len() && told_apart(keys)[m] == last;
                assert(distinct(d)[m] == last);
                assert(distinct(d).contains(last));
            }
        }
    }
}

/// The distinct keys are the keys, each once, in the order of their first places.
pub proof fn distinct_keys_come_in_their_first_order<A>(keys: Seq<A>, x: A)
    ensures
        distinct(Seq::<A>::empty()).len() == 0,
        keys.contains(x) ==> distinct(keys.push(x)) == distinct(keys),
        !keys.contains(x) ==> distinct(keys.push(x)) == distinct(keys).push(x),
{
    assert(keys.push(x).drop_last() =~= keys);
    distinct_members(keys);
}

/// The value that a result is capped by is the one its record holds now under the field, and all
/// records that hold none, or are gone, share one.
pub proof fn results_are_capped_by_their_records(
    cols: CollsV,
    field: Seq<char>,
    hits: Seq<HitV>,
    i: int,
)
    requires
        0 <= i < hits.len(),
    ensures
        hit_keys(cols, field, hits).len() == hits.len(),
        ({
            let h = hits[i];
            let key = hit_keys(cols, field, hits)[i];
            if cols.contains_key(h.collection) && cols[h.collection].docs.contains_key(h.id)
                && cols[h.collection].docs[h.id].attrs.contains_key(field) {
                key == Some(cols[h.collection].docs[h.id].attrs[field])
            } else {
                key is None
            }
        }),
{
}

/// A capped ranking is the ranking without the results that were not kept.
pub proof fn a_cap_only_drops(
    cols: CollsV,
    field: Seq<char>,
    max: int,
    hits: Seq<HitV>,
    i: int,
)
    requires
        0 <= i < capped(cols, field, max, hits).len(),
    ensures
        capped(cols, field, max, hits).len() == kept(hit_keys(cols, field, hits), max).len(),
        capped(cols, field, max, hits)[i] == hits[kept(hit_keys(cols, field, hits), max)[i]],
        capped(cols, field, max, hits).len() <= hits.len(),
{
    crate::aggregate::cap_keeps_order(hit_keys(cols, field, hits), max);
}

/// The members of a group are the records that hold its value, in their order; the number of
/// them is how often the value occurs.
pub proof fn a_group_has_the_records_that_share_its_value(
    items: Seq<AttrsV>,
    a: AttrsV,
    field: Seq<char>,
    key: Option<ValueV>,
)
    ensures
        members(Seq::<AttrsV>::empty(), field, key).len() == 0,
        ({
            let own = if a.contains_key(field) {
                Some(a[field])
            } else {
                None
            };
            members(items.push(a), field, key) == if own == key {
                members(items, field, key).push(a)
            } else {
                members(items, field, key)
            }
        }),
        members(items, field, key).len() == occurrences(group_keys(items, field), key),
    decreases items.len(),
{
    assert(items.push(a).drop_last() =~= items);
    if items.len() > 0 {
        a_group_has_the_records_that_share_its_value(items.drop_last(), a, field, key);
        assert(group_keys(items, field).drop_last() =~= group_keys(items.drop_last(), field));
    }
}

/// The groups of some records: one for each value told apart, with as many records as hold it and
/// their totals; the largest first, and of groups of one size the one whose value came first.
pub proof fn groups_come_by_size<K: Kernel>(
    k: K,
    items: Seq<AttrsV>,
    field: Seq<char>,
    fields: Seq<Seq<char>>,
) -> (from: Seq<int>)
    requires
        items.len() <= u64::MAX,
    ensures
        ({
            let out = grouping(k, items, field, fields);
            let values = distinct(group_keys(items, field));
            &&& out.len() == if values.len() <= 10_000 {
                values.len() as int
            } else {
                10_000
            }
            &&& from.len() == out.len()
            &&& from.no_duplicates()
            &&& forall|i: int|
                0 <= i < out.len() ==> 0 <= #[trigger] from[i] < out.len() && out[i].value
                    == values[from[i]] && out[i].count == occurrences(
                    group_keys(items, field),
                    out[i].value,
                ) && out[i].sums == totals(k, members(items, field, out[i].value), fields)
            &&& forall|i: int, j: int|
                0 <= i < j < out.len() ==> (#[trigger] out[i]).count >= (#[trigger] out[j]).count
            &&& forall|i: int, j: int|
                0 <= i < j < out.len() && out[i].count == out[j].count ==> #[trigger] from[i]
                    < #[trigger] from[j]
        }),
{
    let keys = told_apart(group_keys(items, field));
    let f = |key: Option<ValueV>| group_of(k, items, field, key, fields);
    let loose = keys.map_values(f);
    let out = grouping(k, items, field, fields);
    assert(crate::order::weak_order(by_count()));
    let from = crate::laws::ordering::sorting_is_stable(loose, by_count());
    assert forall|i: int| 0 <= i < out.len() implies 0 <= #[trigger] from[i] < out.len()
        && out[i].value == distinct(group_keys(items, field))[from[i]] && out[i].count
        == occurrences(group_keys(items, field), out[i].value) && out[i].sums == totals(
        k,
        members(items, field, out[i].value),
        fields,
    ) by {
        let key = keys[from[i]];
        assert(out[i] == loose[from[i]]);
        assert(loose[from[i]] == f(key));
        a_group_has_the_records_that_share_its_value(items, Map::empty(), field, key);
        members_are_few(items, field, key);
    }
    assert forall|i: int, j: int| 0 <= i < j < out.len() implies (#[trigger] out[i]).count >= (
    #[trigger] out[j]).count by {
        assert(!by_count()(out[j], out[i]));
    }
    assert forall|i: int, j: int|
        0 <= i < j < out.len() && out[i].count == out[j].count implies #[trigger] from[i]
        < #[trigger] from[j] by {
        assert(!by_count()(out[i], out[j]));
    }
    from
}

proof fn members_are_few(items: Seq<AttrsV>, field: Seq<char>, key: Option<ValueV>)
    ensures
        members(items, field, key).len() <= items.len(),
    decreases items.len(),
{
    if items.len() > 0 {
        members_are_few(items.drop_last(), field, key);
    }
}

/// Each field that is asked for has its total, and no other field has one.
pub proof fn every_field_has_its_total<K: Kernel>(
    k: K,
    items: Seq<AttrsV>,
    fields: Seq<Seq<char>>,
    f: Seq<char>,
)
    ensures
        totals(k, items, fields).contains_key(f) <==> fields.contains(f),
        fields.contains(f) ==> totals(k, items, fields)[f] == field_total(k, items, f),
    decreases fields.len(),
{
    if fields.len() > 0 {
        let d = fields.drop_last();
        every_field_has_its_total(k, items, d, f);
        assert(fields[fields.len() - 1] == fields.last());
        if d.contains(f) {
            let i = choose|i: int| 0 <= i < d.len() && d[i] == f;
            assert(fields[i] == f);
        }
        if fields.contains(f) && f != fields.last() {
            let i = choose|i: int| 0 <= i < fields.len() && fields[i] == f;
            assert(d[i] == f);
        }
    }
}

/// A listing, and so an aggregation, covers the records of the collections in scope that the
/// filter admits, with a vector or without, and no others.
pub proof fn what_is_listed(cols: CollsV, scope: Seq<Seq<char>>, filter: Filter, x: ListV)
    requires
        listable(cols),
    ensures
        list_all(cols, scope, filter).contains(x) <==> scope.contains(x.collection)
            && cols.contains_key(x.collection) && cols[x.collection].docs.contains_key(x.id)
            && cols[x.collection].docs[x.id].row == x.row && passes(
            filter,
            cols[x.collection].docs[x.id].attrs,
        ),
    decreases scope.len(),
{
    if scope.len() > 0 {
        let d = scope.drop_last();
        what_is_listed(cols, d, filter, x);
        let c = scope.last();
        let rest = list_all(cols, d, filter);
        let all = list_all(cols, scope, filter);
        assert(scope[scope.len() - 1] == c);
        if d.contains(x.collection) {
            let i = choose|i: int| 0 <= i < d.len() && d[i] == x.collection;
            assert(scope[i] == x.collection);
        }
        if scope.contains(x.collection) && x.collection != c {
            let i = choose|i: int| 0 <= i < scope.len() && scope[i] == x.collection;
            assert(d[i] == x.collection);
        }
        if cols.contains_key(c) {
            let e = crate::dict::ordered(cols[c].docs);
            let own = list_coll(c, e, filter);
            what_a_collection_lists(c, e, filter, x);
            if all.contains(x) {
                let i = choose|i: int| 0 <= i < all.len() && all[i] == x;
                if i < rest.len() {
                    assert(rest[i] == x);
                } else {
                    assert(own[i - rest.len()] == x);
                }
            }
            if rest.contains(x) {
                let i = choose|i: int| 0 <= i < rest.len() && rest[i] == x;
                assert(all[i] == x);
            }
            if own.contains(x) {
                let i = choose|i: int| 0 <= i < own.len() && own[i] == x;
                assert(all[rest.len() + i] == x);
            }
            if cols[c].docs.contains_key(x.id) {
                assert(crate::dict::to_map(e).contains_key(x.id));
            }
            if exists|i: int| 0 <= i < e.len() && (#[trigger] e[i]).0 == x.id {
                let i = choose|i: int| 0 <= i < e.len() && (#[trigger] e[i]).0 == x.id;
                crate::dict::to_map_at(e, i);
            }
        }
    }
}

proof fn what_a_collection_lists(
    c: Seq<char>,
    entries: Seq<(Seq<char>, crate::index::DocV)>,
    filter: Filter,
    x: ListV,
)
    ensures
        list_coll(c, entries, filter).contains(x) <==> x.collection == c && exists|i: int|
            0 <= i < entries.len() && (#[trigger] entries[i]).0 == x.id && entries[i].1.row == x.row
                && passes(filter, entries[i].1.attrs),
    decreases entries.len(),
{
    if entries.len() > 0 {
        let d = entries.drop_last();
        what_a_collection_lists(c, d, filter, x);
        let rest = list_coll(c, d, filter);
        let all = list_coll(c, entries, filter);
        let n = entries.len() - 1;
        assert(entries[n] == entries.last());
        if all.contains(x) {
            let i = choose|i: int| 0 <= i < all.len() && all[i] == x;
            if i < rest.len() {
                assert(rest[i] == x);
                let m = choose|m: int|
                    0 <= m < d.len() && (#[trigger] d[m]).0 == x.id && d[m].1.row == x.row
                        && passes(filter, d[m].1.attrs);
                assert(entries[m] == d[m]);
            }
        }
        if x.collection == c && exists|i: int|
            0 <= i < entries.len() && (#[trigger] entries[i]).0 == x.id && entries[i].1.row == x.row
                && passes(filter, entries[i].1.attrs) {
            let m = choose|m: int|
                0 <= m < entries.len() && (#[trigger] entries[m]).0 == x.id && entries[m].1.row
                    == x.row && passes(filter, entries[m].1.attrs);
            if m < n {
                assert(d[m] == entries[m]);
                let i = choose|i: int| 0 <= i < rest.len() && rest[i] == x;
                assert(all[i] == x);
            } else {
                assert(all[all.len() - 1] == x);
            }
        }
    }
}

/// What is counted and added up are the attributes of what is listed, record by record.
pub proof fn what_is_covered(cols: CollsV, scope: Seq<Seq<char>>, filter: Filter, i: int)
    requires
        0 <= i < list_all(cols, scope, filter).len(),
    ensures
        covered(cols, scope, filter).len() == list_all(cols, scope, filter).len(),
        ({
            let x = list_all(cols, scope, filter)[i];
            covered(cols, scope, filter)[i] == cols[x.collection].docs[x.id].attrs
        }),
{
}

} // verus!
