//! Counting, summing and grouping, and a cap on how many results may share a value.

use vstd::prelude::*;

use crate::dict::{has_key, ordered, views, Dict, Dup};
use crate::index::CollsV;
use crate::kernel::{functional, total_of, totals_to, Kernel};
use crate::model::{Hit, HitV, LimitPer, ListOpts};
use crate::order::{clip, reversed, sort_stable, sorted, sorted_len, sorted_map};
use crate::read::{
    attribute_order, attrs_at, full_listing, list_all, listing, storage_order, witness, ListV,
};
use crate::scan::{check_listable, names};
use crate::store::Store;
use crate::value::{value_same, Attrs, AttrsV, Filter, Value, ValueV};

verus! {

/// How many distinct values are told apart. Further ones are neither capped nor grouped.
pub const MAX_GROUPS: usize = 10_000;

/// What to count, sum and group.
#[derive(Clone, Debug, PartialEq)]
pub struct AggregateOpts {
    pub filter: Filter,
    pub sum: Vec<String>,
    pub group_by: Option<String>,
}

impl Default for AggregateOpts {
    fn default() -> (r: Self)
        ensures
            r.filter.0@.len() == 0,
            r.sum@.len() == 0,
            r.group_by is None,
    {
        AggregateOpts { filter: Filter(Vec::new()), sum: Vec::new(), group_by: None }
    }
}

/// The records that share one value of the group attribute, or that have none.
#[derive(Clone, Debug, PartialEq)]
pub struct Group {
    pub value: Option<Value>,
    pub count: u64,
    pub sums: Dict<Value>,
}

/// What a [`Group`] holds.
pub ghost struct GroupV {
    pub value: Option<ValueV>,
    pub count: u64,
    pub sums: AttrsV,
}

/// What an optional value holds.
pub open spec fn value_view(v: Option<Value>) -> Option<ValueV> {
    match v {
        Some(x) => Some(x@),
        None => None,
    }
}

impl View for Group {
    type V = GroupV;

    open spec fn view(&self) -> GroupV {
        GroupV { value: value_view(self.value), count: self.count, sums: self.sums@ }
    }
}

/// Counts and sums over a scope, and per group.
#[derive(Clone, Debug, PartialEq)]
pub struct Aggregation {
    pub count: u64,
    pub sums: Dict<Value>,
    pub groups: Vec<Group>,
    /// There were more groups than are reported.
    pub groups_truncated: bool,
}

/// The key that tells one group value from another. A record without the attribute has a key of
/// its own, and so has every value of every type.
pub fn group_key(v: Option<&Value>) -> (r: Option<Value>)
    ensures
        v is None ==> r is None,
        v matches Some(x) ==> r matches Some(y) && y@ == x@,
{
    match v {
        Some(x) => Some(x.dup()),
        None => None,
    }
}

/// The value under `field`, if there is one.
pub open spec fn key_in(attrs: AttrsV, field: Seq<char>) -> Option<ValueV> {
    if attrs.contains_key(field) {
        Some(attrs[field])
    } else {
        None
    }
}

// ── Sums ────────────────────────────────────────────────────────────────────

/// The sum of the integers under `field`. What is missing or no number does not count.
pub open spec fn int_sum(items: Seq<AttrsV>, field: Seq<char>) -> int
    decreases items.len(),
{
    if items.len() == 0 {
        0
    } else {
        int_sum(items.drop_last(), field) + match key_in(items.last(), field) {
            Some(ValueV::Int(n)) => n as int,
            _ => 0,
        }
    }
}

/// The floats under `field`, in order.
pub open spec fn floats_in(items: Seq<AttrsV>, field: Seq<char>) -> Seq<u64>
    decreases items.len(),
{
    if items.len() == 0 {
        Seq::empty()
    } else {
        let rest = floats_in(items.drop_last(), field);
        match key_in(items.last(), field) {
            Some(ValueV::Float(b)) => rest.push(b),
            _ => rest,
        }
    }
}

/// The total under `field`: an integer as long as every addend is one and the total fits, a
/// float otherwise.
pub open spec fn field_total<K: Kernel>(k: K, items: Seq<AttrsV>, field: Seq<char>) -> ValueV {
    let ints = int_sum(items, field);
    let floats = floats_in(items, field);
    if floats.len() == 0 && i64::MIN <= ints <= i64::MAX {
        ValueV::Int(ints as i64)
    } else {
        ValueV::Float(total_of(k, ints as i128, floats))
    }
}

/// The totals of several fields.
pub open spec fn totals<K: Kernel>(k: K, items: Seq<AttrsV>, fields: Seq<Seq<char>>) -> AttrsV
    decreases fields.len(),
{
    if fields.len() == 0 {
        Map::empty()
    } else {
        totals(k, items, fields.drop_last()).insert(
            fields.last(),
            field_total(k, items, fields.last()),
        )
    }
}

proof fn int_sum_bound(items: Seq<AttrsV>, field: Seq<char>)
    ensures
        -(items.len() * 0x8000_0000_0000_0000) <= int_sum(items, field) <= items.len()
            * 0x8000_0000_0000_0000,
    decreases items.len(),
{
    if items.len() > 0 {
        int_sum_bound(items.drop_last(), field);
    }
}

/// A running count and sums, under one group value.
pub struct Acc {
    value: Option<Value>,
    count: u64,
    ints: Vec<i128>,
    floats: Vec<Vec<u64>>,
}

impl Acc {
    /// The count and sums are those of `items`.
    pub closed spec fn holds(&self, items: Seq<AttrsV>, fields: Seq<Seq<char>>) -> bool {
        &&& self.count == items.len()
        &&& self.ints@.len() == fields.len()
        &&& self.floats@.len() == fields.len()
        &&& forall|f: int|
            0 <= f < fields.len() ==> #[trigger] self.ints@[f] == int_sum(items, fields[f])
        &&& forall|f: int|
            0 <= f < fields.len() ==> (#[trigger] self.floats@[f])@ == floats_in(items, fields[f])
    }

    pub closed spec fn key(&self) -> Option<ValueV> {
        value_view(self.value)
    }

    fn new(value: Option<Value>, n: usize, Ghost(fields): Ghost<Seq<Seq<char>>>) -> (r: Acc)
        requires
            n == fields.len(),
        ensures
            r.holds(Seq::empty(), fields),
            r.key() == value_view(value),
    {
        let mut ints: Vec<i128> = Vec::new();
        let mut floats: Vec<Vec<u64>> = Vec::new();
        let mut i: usize = 0;
        while i < n
            invariant
                i <= n,
                ints@.len() == i,
                floats@.len() == i,
                forall|f: int| 0 <= f < i ==> #[trigger] ints@[f] == 0,
                forall|f: int| 0 <= f < i ==> (#[trigger] floats@[f])@ == Seq::<u64>::empty(),
            decreases n - i,
        {
            ints.push(0);
            floats.push(Vec::new());
            i = i + 1;
        }
        Acc { value, count: 0, ints, floats }
    }

    /// Take one more record in.
    fn take_in(&mut self, attrs: &Attrs, fields: &Vec<String>, Ghost(items): Ghost<Seq<AttrsV>>)
        requires
            old(self).holds(items, views(fields@)),
            items.len() < u64::MAX,
        ensures
            final(self).holds(items.push(attrs@), views(fields@)),
            final(self).key() == old(self).key(),
    {
        let ghost names = views(fields@);
        let ghost next = items.push(attrs@);
        proof {
            assert(next.drop_last() =~= items);
        }
        let mut i: usize = 0;
        while i < fields.len()
            invariant
                i <= fields@.len(),
                names == views(fields@),
                next == items.push(attrs@),
                next.drop_last() == items,
                items.len() < u64::MAX,
                self.key() == old(self).key(),
                self.count == items.len(),
                self.ints@.len() == names.len(),
                self.floats@.len() == names.len(),
                forall|f: int|
                    0 <= f < i ==> #[trigger] self.ints@[f] == int_sum(next, names[f]),
                forall|f: int|
                    0 <= f < i ==> (#[trigger] self.floats@[f])@ == floats_in(next, names[f]),
                forall|f: int|
                    i <= f < names.len() ==> #[trigger] self.ints@[f] == int_sum(items, names[f]),
                forall|f: int|
                    i <= f < names.len() ==> (#[trigger] self.floats@[f])@ == floats_in(
                        items,
                        names[f],
                    ),
            decreases fields@.len() - i,
        {
            proof {
                int_sum_bound(items, names[i as int]);
                int_sum_bound(next, names[i as int]);
                assert(names[i as int] == fields@[i as int]@);
            }
            match attrs.get(fields[i].as_str()) {
                Some(Value::Int(n)) => {
                    let sum: i128 = self.ints[i] + *n as i128;
                    self.ints.set(i, sum);
                },
                Some(Value::Float(b)) => {
                    let mut own: Vec<u64> = Vec::new();
                    std::mem::swap(&mut own, &mut self.floats[i]);
                    own.push(*b);
                    self.floats.set(i, own);
                },
                _ => {},
            }
            i = i + 1;
        }
        self.count = self.count + 1;
    }

    /// The totals, one per field.
    fn sums<K: Kernel>(&self, fields: &Vec<String>, k: &K, Ghost(items): Ghost<Seq<AttrsV>>) -> (r:
        Dict<Value>)
        requires
            self.holds(items, views(fields@)),
            functional(*k),
        ensures
            r@ == totals(*k, items, views(fields@)),
    {
        let mut out: Dict<Value> = Dict::new();
        let ghost names = views(fields@);
        let mut i: usize = 0;
        proof {
            assert(names.take(0) =~= Seq::empty());
        }
        while i < fields.len()
            invariant
                i <= fields@.len(),
                names == views(fields@),
                self.holds(items, names),
                functional(*k),
                out@ == totals(*k, items, names.take(i as int)),
            decreases fields@.len() - i,
        {
            proof {
                assert(names.take(i + 1).drop_last() =~= names.take(i as int));
                assert(names.take(i + 1).last() == fields@[i as int]@);
            }
            let ints: i128 = self.ints[i];
            let value = if self.floats[i].len() == 0 && i64::MIN as i128 <= ints && ints
                <= i64::MAX as i128 {
                Value::Int(ints as i64)
            } else {
                let x: u64 = k.total(ints, &self.floats[i]);
                proof {
                    let v = self.floats@[i as int];
                    assert(call_ensures(K::total, (k, ints, &v), x));
                    assert(totals_to(*k, ints, floats_in(items, names[i as int]), x));
                    assert(total_of(*k, ints, floats_in(items, names[i as int])) == x);
                }
                Value::Float(x)
            };
            let _ = out.insert(fields[i].dup(), value);
            i = i + 1;
        }
        proof {
            assert(names.take(i as int) =~= names);
        }
        out
    }
}

// ── Groups ──────────────────────────────────────────────────────────────────

/// The distinct keys, in the order in which they first occur.
pub open spec fn distinct<A>(keys: Seq<A>) -> Seq<A>
    decreases keys.len(),
{
    if keys.len() == 0 {
        Seq::empty()
    } else {
        let rest = distinct(keys.drop_last());
        if rest.contains(keys.last()) {
            rest
        } else {
            rest.push(keys.last())
        }
    }
}

/// The keys that are told apart.
pub open spec fn told_apart<A>(keys: Seq<A>) -> Seq<A> {
    clip(distinct(keys), MAX_GROUPS as int)
}

/// The group values of the records.
pub open spec fn group_keys(items: Seq<AttrsV>, field: Seq<char>) -> Seq<Option<ValueV>> {
    items.map_values(|a: AttrsV| key_in(a, field))
}

/// The records with the group value `key`.
pub open spec fn members(items: Seq<AttrsV>, field: Seq<char>, key: Option<ValueV>) -> Seq<AttrsV>
    decreases items.len(),
{
    if items.len() == 0 {
        Seq::empty()
    } else {
        let rest = members(items.drop_last(), field, key);
        if key_in(items.last(), field) == key {
            rest.push(items.last())
        } else {
            rest
        }
    }
}

/// One group.
pub open spec fn group_of<K: Kernel>(
    k: K,
    items: Seq<AttrsV>,
    field: Seq<char>,
    key: Option<ValueV>,
    fields: Seq<Seq<char>>,
) -> GroupV {
    let own = members(items, field, key);
    GroupV { value: key, count: own.len() as u64, sums: totals(k, own, fields) }
}

/// The larger group first.
pub open spec fn by_count() -> spec_fn(GroupV, GroupV) -> bool {
    |a: GroupV, b: GroupV| a.count > b.count
}

/// The groups that are reported, the largest first; of two of one size the one seen first.
pub open spec fn grouping<K: Kernel>(
    k: K,
    items: Seq<AttrsV>,
    field: Seq<char>,
    fields: Seq<Seq<char>>,
) -> Seq<GroupV> {
    sorted(
        told_apart(group_keys(items, field)).map_values(
            |key: Option<ValueV>| group_of(k, items, field, key, fields),
        ),
        by_count(),
    )
}

/// The attributes of the records that an aggregation covers.
pub open spec fn covered(cols: CollsV, scope: Seq<Seq<char>>, filter: Filter) -> Seq<AttrsV> {
    list_all(cols, scope, filter).map_values(
        |x: ListV| cols[x.collection].docs[x.id].attrs,
    )
}

/// The distinct keys are exactly the keys, each once.
pub proof fn distinct_members<A>(keys: Seq<A>)
    ensures
        forall|x: A| #[trigger] distinct(keys).contains(x) <==> keys.contains(x),
        distinct(keys).no_duplicates(),
        distinct(keys).len() <= keys.len(),
    decreases keys.len(),
{
    if keys.len() > 0 {
        let d = keys.drop_last();
        distinct_members(d);
        let rest = distinct(d);
        let last = keys.last();
        assert(keys[keys.len() - 1] == last);
        assert forall|x: A| #[trigger] distinct(keys).contains(x) <==> keys.contains(x) by {
            if d.contains(x) {
                let j = choose|j: int| 0 <= j < d.len() && d[j] == x;
                assert(keys[j] == x);
            }
            if keys.contains(x) && x != last {
                let j = choose|j: int| 0 <= j < keys.len() && keys[j] == x;
                assert(d[j] == x);
            }
            if !rest.contains(last) {
                let all = rest.push(last);
                if rest.contains(x) {
                    let j = choose|j: int| 0 <= j < rest.len() && rest[j] == x;
                    assert(all[j] == x);
                }
                if all.contains(x) && x != last {
                    let j = choose|j: int| 0 <= j < all.len() && all[j] == x;
                    assert(rest[j] == x);
                }
                assert(all[rest.len() as int] == last);
            }
        }
    }
}

proof fn members_absent(items: Seq<AttrsV>, field: Seq<char>, key: Option<ValueV>)
    requires
        !group_keys(items, field).contains(key),
    ensures
        members(items, field, key).len() == 0,
    decreases items.len(),
{
    if items.len() > 0 {
        let d = items.drop_last();
        let ks = group_keys(items, field);
        assert(ks[items.len() - 1] == key_in(items.last(), field));
        if group_keys(d, field).contains(key) {
            let j = choose|j: int|
                0 <= j < group_keys(d, field).len() && group_keys(d, field)[j] == key;
            assert(ks[j] == key);
        }
        members_absent(d, field, key);
    }
}

/// Whether two optional values are the same.
pub fn key_same(a: &Option<Value>, b: Option<&Value>) -> (r: bool)
    ensures
        r == (value_view(*a) == match b {
            Some(x) => Some(x@),
            None => None::<ValueV>,
        }),
{
    match (a, b) {
        (Some(x), Some(y)) => value_same(x, y),
        (None, None) => true,
        _ => false,
    }
}

/// What an optional borrowed value holds.
pub open spec fn ref_view(v: Option<&Value>) -> Option<ValueV> {
    match v {
        Some(x) => Some(x@),
        None => None,
    }
}

fn find_group(groups: &Vec<Acc>, v: Option<&Value>) -> (r: Option<usize>)
    ensures
        r matches Some(g) ==> g < groups@.len() && groups@[g as int].key() == ref_view(v),
        r is None ==> forall|g: int|
            0 <= g < groups@.len() ==> (#[trigger] groups@[g]).key() != ref_view(v),
{
    let mut g: usize = 0;
    while g < groups.len()
        invariant
            g <= groups@.len(),
            forall|j: int| 0 <= j < g ==> (#[trigger] groups@[j]).key() != ref_view(v),
        decreases groups@.len() - g,
    {
        if key_same(&groups[g].value, v) {
            return Some(g);
        }
        g = g + 1;
    }
    None
}

/// The running groups are those of `items`.
spec fn groups_hold(
    groups: Seq<Acc>,
    items: Seq<AttrsV>,
    field: Seq<char>,
    fields: Seq<Seq<char>>,
) -> bool {
    let ks = told_apart(group_keys(items, field));
    &&& groups.len() == ks.len()
    &&& forall|g: int| 0 <= g < groups.len() ==> (#[trigger] groups[g]).key() == ks[g]
    &&& forall|g: int|
        0 <= g < groups.len() ==> (#[trigger] groups[g]).holds(
            members(items, field, ks[g]),
            fields,
        )
}

impl Store {
    /// Take one more record into its group.
    fn group_in(
        groups: &mut Vec<Acc>,
        attrs: &Attrs,
        field: &str,
        fields: &Vec<String>,
        Ghost(items): Ghost<Seq<AttrsV>>,
    ) -> (missed: bool)
        requires
            groups_hold(old(groups)@, items, field@, views(fields@)),
            items.len() < u64::MAX,
        ensures
            groups_hold(final(groups)@, items.push(attrs@), field@, views(fields@)),
            missed == !told_apart(group_keys(items.push(attrs@), field@)).contains(
                key_in(attrs@, field@),
            ),
    {
        let ghost ks = group_keys(items, field@);
        let ghost next = items.push(attrs@);
        let ghost nks = group_keys(next, field@);
        let ghost key = key_in(attrs@, field@);
        let v = attrs.get(field);
        proof {
            assert(next.drop_last() =~= items);
            assert(nks =~= ks.push(key));
            assert(nks.drop_last() =~= ks);
            distinct_members(ks);
            distinct_members(nks);
            assert(ref_view(v) == key);
        }
        let ghost before = groups@;
        match find_group(groups, v) {
            Some(g) => {
                proof {
                    assert(before[g as int].key() == told_apart(ks)[g as int]);
                    assert(distinct(ks)[g as int] == key);
                    assert(distinct(ks).contains(key));
                    assert(distinct(nks) == distinct(ks));
                    assert(told_apart(nks)[g as int] == key);
                    members_len(items, field@, key);
                }
                let mut own = groups.remove(g);
                own.take_in(attrs, fields, Ghost(members(items, field@, key)));
                groups.insert(g, own);
                proof {
                    assert forall|j: int| 0 <= j < groups@.len() implies (
                    #[trigger] groups@[j]).key() == told_apart(nks)[j] && groups@[j].holds(
                        members(next, field@, told_apart(nks)[j]),
                        views(fields@),
                    ) by {
                        if j != g {
                            assert(groups@[j] == before[j]);
                            assert(before[j].key() == told_apart(ks)[j]);
                            assert(distinct(ks)[j] != distinct(ks)[g as int]);
                        }
                    }
                }
                false
            },
            None => {
                proof {
                    if told_apart(ks).contains(key) {
                        let j = choose|j: int|
                            0 <= j < told_apart(ks).len() && told_apart(ks)[j] == key;
                        assert(before[j].key() == key);
                    }
                }
                if groups.len() >= MAX_GROUPS {
                    proof {
                        assert(told_apart(nks) =~= told_apart(ks));
                        assert forall|j: int| 0 <= j < groups@.len() implies (
                        #[trigger] groups@[j]).key() == told_apart(nks)[j] && groups@[j].holds(
                            members(next, field@, told_apart(nks)[j]),
                            views(fields@),
                        ) by {
                            assert(told_apart(ks).contains(told_apart(ks)[j]));
                            assert(before[j].key() == told_apart(ks)[j]);
                        }
                    }
                    return true;
                }
                proof {
                    assert(told_apart(ks) == distinct(ks));
                    assert(!ks.contains(key));
                    members_absent(items, field@, key);
                    assert(members(items, field@, key) =~= Seq::empty());
                }
                let mut own = Acc::new(group_key(v), fields.len(), Ghost(views(fields@)));
                own.take_in(attrs, fields, Ghost(Seq::empty()));
                groups.push(own);
                proof {
                    assert(distinct(nks) == distinct(ks).push(key));
                    assert(told_apart(nks) =~= distinct(ks).push(key));
                    assert(told_apart(nks)[before.len() as int] == key);
                    assert(told_apart(nks).contains(key));
                    assert forall|j: int| 0 <= j < groups@.len() implies (
                    #[trigger] groups@[j]).key() == told_apart(nks)[j] && groups@[j].holds(
                        members(next, field@, told_apart(nks)[j]),
                        views(fields@),
                    ) by {
                        if j < before.len() {
                            assert(groups@[j] == before[j]);
                            assert(before[j].key() == told_apart(ks)[j]);
                            assert(distinct(ks).contains(distinct(ks)[j]));
                        }
                    }
                }
                false
            },
        }
    }

    /// Count the records in scope that pass the filter and add up attributes of them, over all
    /// and, where a group attribute is named, for each of its values.
    #[verifier::rlimit(40)]
    pub fn aggregate<K: Kernel>(&self, collections: &[&str], opts: &AggregateOpts, k: &K) -> (r:
        Aggregation)
        requires
            functional(*k),
        ensures
            ({
                let items = covered(self.index@.collections, names(collections@), opts.filter);
                let fields = views(opts.sum@);
                &&& r.count == items.len()
                &&& items.len() <= usize::MAX
                &&& r.sums@ == totals(*k, items, fields)
                &&& opts.group_by is None ==> r.groups@.len() == 0 && !r.groups_truncated
                &&& opts.group_by matches Some(g) ==> {
                    &&& views(r.groups@) == grouping(*k, items, g@, fields)
                    &&& r.groups_truncated == (distinct(group_keys(items, g@)).len() > MAX_GROUPS)
                }
            }),
    {
        let ghost cols = self.index@.collections;
        let ghost items = covered(cols, names(collections@), opts.filter);
        let ghost fields = views(opts.sum@);
        let list = self.collect(collections, &opts.filter);
        check_listable(&self.index.collections);
        let mut all = Acc::new(None, opts.sum.len(), Ghost(fields));
        let mut groups: Vec<Acc> = Vec::new();
        let mut truncated = false;
        let ghost field: Seq<char> = match &opts.group_by {
            Some(g) => g@,
            None => Seq::empty(),
        };
        let mut i: usize = 0;
        let n: usize = list.len();
        proof {
            list_all_present(cols, names(collections@), opts.filter);
            assert(items.take(0) =~= Seq::empty());
            assert(group_keys(items.take(0), field) =~= Seq::empty());
            assert(told_apart(group_keys(items.take(0), field)) =~= Seq::empty());
        }
        while i < n
            invariant
                n == list@.len(),
                i <= list@.len(),
                cols == self.index@.collections,
                list@.len() == items.len(),
                items.len() <= u64::MAX,
                fields == views(opts.sum@),
                opts.group_by matches Some(g) ==> field == g@,
                forall|j: int|
                    0 <= j < list@.len() ==> attrs_at(
                        cols,
                        (#[trigger] list@[j])@.collection,
                        list@[j]@.id,
                    ) == Some(items[j]),
                all.holds(items.take(i as int), fields),
                opts.group_by is Some ==> groups_hold(
                    groups@,
                    items.take(i as int),
                    field,
                    fields,
                ),
                opts.group_by is None ==> groups@.len() == 0 && !truncated,
                opts.group_by is Some ==> truncated == (distinct(
                    group_keys(items.take(i as int), field),
                ).len() > MAX_GROUPS),
            decreases list@.len() - i,
        {
            let ghost now = items.take(i as int);
            let ghost next = items.take(i + 1);
            proof {
                assert(next =~= now.push(items[i as int]));
                assert(attrs_at(cols, list@[i as int]@.collection, list@[i as int]@.id) == Some(
                    items[i as int],
                ));
            }
            if let Some(attrs) = self.attrs_of(list[i].collection.as_str(), list[i].id.as_str()) {
                all.take_in(attrs, &opts.sum, Ghost(now));
                if let Some(g) = &opts.group_by {
                    let missed = Store::group_in(
                        &mut groups,
                        attrs,
                        g.as_str(),
                        &opts.sum,
                        Ghost(now),
                    );
                    proof {
                        truncation_step(now, items[i as int], field);
                    }
                    if missed {
                        truncated = true;
                    }
                }
            }
            i = i + 1;
        }
        proof {
            assert(items.take(i as int) =~= items);
        }
        let sums = all.sums(&opts.sum, k, Ghost(items));
        let out = match &opts.group_by {
            Some(g) => Store::report_groups(&groups, &opts.sum, k, g.as_str(), Ghost(items)),
            None => Vec::new(),
        };
        Aggregation { count: all.count, sums, groups: out, groups_truncated: truncated }
    }

    fn report_groups<K: Kernel>(
        groups: &Vec<Acc>,
        fields: &Vec<String>,
        k: &K,
        field: &str,
        Ghost(items): Ghost<Seq<AttrsV>>,
    ) -> (out: Vec<Group>)
        requires
            functional(*k),
            groups_hold(groups@, items, field@, views(fields@)),
        ensures
            views(out@) == grouping(*k, items, field@, views(fields@)),
    {
        let ghost ks = told_apart(group_keys(items, field@));
        let mut list: Vec<Group> = Vec::new();
        let mut i: usize = 0;
        while i < groups.len()
            invariant
                i <= groups@.len(),
                functional(*k),
                ks == told_apart(group_keys(items, field@)),
                groups_hold(groups@, items, field@, views(fields@)),
                list@.len() == i,
                forall|j: int|
                    0 <= j < i ==> (#[trigger] list@[j])@ == group_of(
                        *k,
                        items,
                        field@,
                        ks[j],
                        views(fields@),
                    ),
            decreases groups@.len() - i,
        {
            let g = &groups[i];
            proof {
                assert(groups@[i as int].key() == ks[i as int]);
                assert(groups@[i as int].holds(members(items, field@, ks[i as int]), views(
                    fields@,
                )));
            }
            let value = match &g.value {
                Some(v) => Some(v.dup()),
                None => None,
            };
            list.push(
                Group {
                    value,
                    count: g.count,
                    sums: g.sums(fields, k, Ghost(members(items, field@, ks[i as int]))),
                },
            );
            i = i + 1;
        }
        let ghost lt = |a: Group, b: Group| a.count > b.count;
        let f = |a: &Group, b: &Group| -> (r: bool)
            ensures
                r == (a.count > b.count),
            { a.count > b.count };
        let ghost raw = list@;
        let out = sort_stable(list, &f, Ghost(lt));
        proof {
            let v = |x: Group| x@;
            sorted_map(raw, v, lt, by_count());
            assert(raw.map_values(v) =~= ks.map_values(
                |key: Option<ValueV>| group_of(*k, items, field@, key, views(fields@)),
            ));
            assert(views(out@) =~= out@.map_values(v));
        }
        out
    }
}

proof fn members_len(items: Seq<AttrsV>, field: Seq<char>, key: Option<ValueV>)
    ensures
        members(items, field, key).len() <= items.len(),
    decreases items.len(),
{
    if items.len() > 0 {
        members_len(items.drop_last(), field, key);
    }
}

proof fn truncation_step(items: Seq<AttrsV>, a: AttrsV, field: Seq<char>)
    ensures
        ({
            let ks = group_keys(items, field);
            let nks = group_keys(items.push(a), field);
            (distinct(nks).len() > MAX_GROUPS) == (distinct(ks).len() > MAX_GROUPS || !told_apart(
                nks,
            ).contains(key_in(a, field)))
        }),
{
    let ks = group_keys(items, field);
    let key = key_in(a, field);
    let nks = group_keys(items.push(a), field);
    assert(nks =~= ks.push(key));
    assert(nks.drop_last() =~= ks);
    distinct_members(ks);
    distinct_members(nks);
    if distinct(nks).len() <= MAX_GROUPS {
        assert(nks[ks.len() as int] == key);
        assert(distinct(nks).contains(key));
    } else if distinct(ks).len() <= MAX_GROUPS {
        assert(distinct(nks) == distinct(ks).push(key));
        if told_apart(nks).contains(key) {
            let j = choose|j: int| 0 <= j < told_apart(nks).len() && told_apart(nks)[j] == key;
            assert(distinct(ks)[j] == key);
        }
    }
}

/// Every listed document exists.
pub proof fn list_all_present(cols: CollsV, scope: Seq<Seq<char>>, filter: Filter)
    requires
        crate::scan::listable(cols),
    ensures
        forall|i: int|
            0 <= i < list_all(cols, scope, filter).len() ==> attrs_at(
                cols,
                (#[trigger] list_all(cols, scope, filter)[i]).collection,
                list_all(cols, scope, filter)[i].id,
            ) == Some(
                cols[list_all(cols, scope, filter)[i].collection].docs[list_all(
                    cols,
                    scope,
                    filter,
                )[i].id].attrs,
            ),
    decreases scope.len(),
{
    if scope.len() > 0 {
        list_all_present(cols, scope.drop_last(), filter);
        let c = scope.last();
        let rest = list_all(cols, scope.drop_last(), filter);
        let all = list_all(cols, scope, filter);
        if cols.contains_key(c) {
            let e = ordered(cols[c].docs);
            list_coll_present(c, e, filter);
            assert forall|i: int| 0 <= i < all.len() implies attrs_at(
                cols,
                (#[trigger] all[i]).collection,
                all[i].id,
            ) == Some(cols[all[i].collection].docs[all[i].id].attrs) by {
                if i < rest.len() {
                    assert(all[i] == rest[i]);
                } else {
                    let own = crate::read::list_coll(c, e, filter);
                    assert(all[i] == own[i - rest.len()]);
                    assert(has_key(e, all[i].id));
                }
            }
        }
    }
}

proof fn list_coll_present(
    c: Seq<char>,
    e: Seq<(Seq<char>, crate::index::DocV)>,
    filter: Filter,
)
    ensures
        forall|i: int|
            0 <= i < crate::read::list_coll(c, e, filter).len() ==> (
            #[trigger] crate::read::list_coll(c, e, filter)[i]).collection == c && has_key(
                e,
                crate::read::list_coll(c, e, filter)[i].id,
            ),
    decreases e.len(),
{
    if e.len() > 0 {
        let d = e.drop_last();
        list_coll_present(c, d, filter);
        let rest = crate::read::list_coll(c, d, filter);
        let all = crate::read::list_coll(c, e, filter);
        assert forall|i: int| 0 <= i < all.len() implies (#[trigger] all[i]).collection == c
            && has_key(e, all[i].id) by {
            if i < rest.len() {
                assert(all[i] == rest[i]);
                let j = choose|j: int| 0 <= j < d.len() && (#[trigger] d[j]).0 == all[i].id;
                assert(e[j] == d[j]);
            } else {
                assert(e[e.len() - 1].0 == all[i].id);
            }
        }
    }
}

// ── A cap per value ─────────────────────────────────────────────────────────

/// How often `key` occurs.
pub open spec fn occurrences<A>(keys: Seq<A>, key: A) -> nat
    decreases keys.len(),
{
    if keys.len() == 0 {
        0
    } else {
        occurrences(keys.drop_last(), key) + if keys.last() == key {
            1nat
        } else {
            0
        }
    }
}

/// The places that survive a cap of `max` results per value: the first `max` of each value, and
/// all of a value that is not told apart.
pub open spec fn kept<A>(keys: Seq<A>, max: int) -> Seq<int>
    decreases keys.len(),
{
    if keys.len() == 0 {
        Seq::empty()
    } else {
        let rest = kept(keys.drop_last(), max);
        if told_apart(keys).contains(keys.last()) && occurrences(keys, keys.last()) > max {
            rest
        } else {
            rest.push(keys.len() - 1)
        }
    }
}

/// The value of `field` on the live record behind a result.
pub open spec fn hit_key(cols: CollsV, field: Seq<char>, h: HitV) -> Option<ValueV> {
    match attrs_at(cols, h.collection, h.id) {
        Some(a) => key_in(a, field),
        None => None,
    }
}

/// The values of `field` behind the results.
pub open spec fn hit_keys(cols: CollsV, field: Seq<char>, hits: Seq<HitV>) -> Seq<
    Option<ValueV>,
> {
    hits.map_values(|h: HitV| hit_key(cols, field, h))
}

/// The results that a cap leaves.
pub open spec fn capped(cols: CollsV, field: Seq<char>, max: int, hits: Seq<HitV>) -> Seq<HitV> {
    kept(hit_keys(cols, field, hits), max).map_values(|i: int| hits[i])
}

/// A cap only drops: what it leaves keeps its order.
pub proof fn cap_keeps_order<A>(keys: Seq<A>, max: int)
    ensures
        forall|i: int| 0 <= i < kept(keys, max).len() ==> 0 <= #[trigger] kept(keys, max)[i]
            < keys.len(),
        forall|i: int, j: int|
            0 <= i < j < kept(keys, max).len() ==> #[trigger] kept(keys, max)[i]
                < #[trigger] kept(keys, max)[j],
        kept(keys, max).len() <= keys.len(),
    decreases keys.len(),
{
    if keys.len() > 0 {
        cap_keeps_order(keys.drop_last(), max);
    }
}

/// The keys at the places that survive.
pub open spec fn kept_keys<A>(keys: Seq<A>, max: int) -> Seq<A> {
    kept(keys, max).map_values(|i: int| keys[i])
}

/// The keys told apart stay told apart, in place, as more keys come.
proof fn told_apart_was<A>(keys: Seq<A>, key: A)
    requires
        keys.len() > 0,
        told_apart(keys).contains(key),
        key != keys.last(),
    ensures
        told_apart(keys.drop_last()).contains(key),
{
    let j = choose|j: int| 0 <= j < told_apart(keys).len() && told_apart(keys)[j] == key;
    assert(distinct(keys.drop_last())[j] == key);
    assert(told_apart(keys.drop_last())[j] == key);
}

/// After a cap no value that is told apart occurs more than `max` times, and one that occurred
/// no more often than that has lost nothing.
pub proof fn cap_holds<A>(keys: Seq<A>, max: int, key: A)
    requires
        0 <= max,
        told_apart(keys).contains(key),
    ensures
        occurrences(kept_keys(keys, max), key) == if occurrences(keys, key) <= max {
            occurrences(keys, key) as int
        } else {
            max
        },
    decreases keys.len(),
{
    if keys.len() > 0 {
        let d = keys.drop_last();
        let last = keys.last();
        let all = kept_keys(keys, max);
        let rest = kept_keys(d, max);
        cap_keeps_order(d, max);
        assert forall|i: int| 0 <= i < rest.len() implies #[trigger] rest[i] == keys[kept(
            d,
            max,
        )[i]] by {
            assert(0 <= kept(d, max)[i] < d.len());
        }
        if told_apart(d).contains(key) {
            cap_holds(d, max, key);
        } else {
            if key != last {
                told_apart_was(keys, key);
            }
            distinct_members(d);
            if distinct(d).contains(key) {
                assert(distinct(keys) == distinct(d));
                assert(told_apart(keys) == told_apart(d));
            }
            assert(!d.contains(key));
            absent_does_not_occur(d, key);
            if rest.contains(key) {
                let i = choose|i: int| 0 <= i < rest.len() && rest[i] == key;
                assert(d[kept(d, max)[i]] == key);
            }
            absent_does_not_occur(rest, key);
        }
        if told_apart(keys).contains(last) && occurrences(keys, last) > max {
            assert(all =~= rest);
        } else {
            assert(all =~= rest.push(last));
            assert(all.drop_last() =~= rest);
        }
    }
}

proof fn absent_does_not_occur<A>(keys: Seq<A>, key: A)
    requires
        !keys.contains(key),
    ensures
        occurrences(keys, key) == 0,
    decreases keys.len(),
{
    if keys.len() > 0 {
        let d = keys.drop_last();
        assert(keys[keys.len() - 1] == keys.last());
        if d.contains(key) {
            let j = choose|j: int| 0 <= j < d.len() && d[j] == key;
            assert(keys[j] == key);
        }
        absent_does_not_occur(d, key);
    }
}

proof fn occurrences_bound<A>(keys: Seq<A>, key: A)
    ensures
        occurrences(keys, key) <= keys.len(),
    decreases keys.len(),
{
    if keys.len() > 0 {
        occurrences_bound(keys.drop_last(), key);
    }
}

/// One value that is told apart, and how often it has come.
struct Seen {
    value: Option<Value>,
    count: usize,
}

/// `seen` counts the values of `keys` that are told apart.
spec fn seen_counts(seen: Seq<Seen>, keys: Seq<Option<ValueV>>) -> bool {
    &&& seen.len() == told_apart(keys).len()
    &&& forall|g: int|
        0 <= g < seen.len() ==> value_view((#[trigger] seen[g]).value) == told_apart(keys)[g]
    &&& forall|g: int|
        0 <= g < seen.len() ==> (#[trigger] seen[g]).count == occurrences(
            keys,
            told_apart(keys)[g],
        )
}

/// Note one more value; says whether a result with it may stay.
fn note_value(
    seen: &mut Vec<Seen>,
    v: Option<&Value>,
    max: usize,
    Ghost(keys): Ghost<Seq<Option<ValueV>>>,
) -> (stays: bool)
    requires
        seen_counts(old(seen)@, keys),
        keys.len() < usize::MAX,
    ensures
        seen_counts(final(seen)@, keys.push(ref_view(v))),
        stays == !(told_apart(keys.push(ref_view(v))).contains(ref_view(v)) && occurrences(
            keys.push(ref_view(v)),
            ref_view(v),
        ) > max),
{
    let ghost key = ref_view(v);
    let ghost next = keys.push(key);
    let ghost before = seen@;
    proof {
        assert(next.drop_last() =~= keys);
        distinct_members(keys);
        distinct_members(next);
        occurrences_bound(keys, key);
    }
    let mut g: usize = 0;
    while g < seen.len()
        invariant
            g <= seen@.len(),
            seen@ == before,
            before == old(seen)@,
            key == ref_view(v),
            next == keys.push(key),
            next.drop_last() == keys,
            keys.len() < usize::MAX,
            seen_counts(before, keys),
            distinct(keys).no_duplicates(),
            occurrences(keys, key) <= keys.len(),
            forall|x: Option<ValueV>|
                #[trigger] distinct(keys).contains(x) <==> keys.contains(x),
            forall|j: int| 0 <= j < g ==> value_view((#[trigger] before[j]).value) != key,
        decreases seen@.len() - g,
    {
        if key_same(&seen[g].value, v) {
            proof {
                assert(told_apart(keys)[g as int] == key);
                assert(distinct(keys)[g as int] == key);
                assert(distinct(keys).contains(key));
                assert(distinct(next) == distinct(keys));
                assert(told_apart(next)[g as int] == key);
                assert(told_apart(next).contains(key));
                assert(before[g as int].count == occurrences(keys, key));
            }
            let old_seen = seen.remove(g);
            let count: usize = old_seen.count + 1;
            seen.insert(g, Seen { value: old_seen.value, count });
            proof {
                assert forall|j: int| 0 <= j < seen@.len() implies value_view(
                    (#[trigger] seen@[j]).value,
                ) == told_apart(next)[j] && seen@[j].count == occurrences(
                    next,
                    told_apart(next)[j],
                ) by {
                    if j != g {
                        assert(seen@[j] == before[j]);
                        assert(distinct(keys)[j] != distinct(keys)[g as int]);
                    }
                }
            }
            return count <= max;
        }
        g = g + 1;
    }
    proof {
        if told_apart(keys).contains(key) {
            let j = choose|j: int| 0 <= j < told_apart(keys).len() && told_apart(keys)[j] == key;
            assert(value_view(before[j].value) == key);
        }
    }
    if seen.len() >= MAX_GROUPS {
        proof {
            assert(told_apart(next) =~= told_apart(keys));
            assert forall|j: int| 0 <= j < seen@.len() implies value_view(
                (#[trigger] seen@[j]).value,
            ) == told_apart(next)[j] && seen@[j].count == occurrences(
                next,
                told_apart(next)[j],
            ) by {
                assert(told_apart(keys).contains(told_apart(keys)[j]));
                assert(seen@[j] == before[j]);
            }
        }
        return true;
    }
    proof {
        assert(told_apart(keys) == distinct(keys));
        assert(!keys.contains(key));
        absent_does_not_occur(keys, key);
    }
    seen.push(Seen { value: group_key(v), count: 1 });
    proof {
        assert(distinct(next) == distinct(keys).push(key));
        assert(told_apart(next) =~= distinct(keys).push(key));
        assert(told_apart(next)[before.len() as int] == key);
        assert(told_apart(next).contains(key));
        assert forall|j: int| 0 <= j < seen@.len() implies value_view((#[trigger] seen@[j]).value)
            == told_apart(next)[j] && seen@[j].count == occurrences(next, told_apart(next)[j]) by {
            if j < before.len() {
                assert(seen@[j] == before[j]);
                assert(distinct(keys).contains(distinct(keys)[j]));
            }
        }
    }
    max >= 1
}

impl Store {
    /// Walk the results in order and drop those past the cap on their value of `cap.field`. The
    /// value is read from the live record, so a projection that leaves the attribute out does
    /// not lift the cap.
    pub fn cap_per_value(&self, hits: Vec<Hit>, cap: &LimitPer) -> (out: Vec<Hit>)
        ensures
            views(out@) == capped(
                self.index@.collections,
                cap.field@,
                cap.max as int,
                views(hits@),
            ),
    {
        let ghost cols = self.index@.collections;
        let ghost all = views(hits@);
        let ghost keys = hit_keys(cols, cap.field@, all);
        let ghost total = hits@;
        let mut rest = reversed(hits);
        let mut seen: Vec<Seen> = Vec::new();
        let mut out: Vec<Hit> = Vec::new();
        let ghost mut i: int = 0;
        proof {
            assert(rest.len() == total.len());
            assert(keys.take(0) =~= Seq::empty());
            assert(told_apart(keys.take(0)) =~= Seq::empty());
            assert(views(out@) =~= kept(keys.take(0), cap.max as int).map_values(|j: int| all[j]));
        }
        while rest.len() > 0
            invariant
                0 <= i <= total.len(),
                rest@.len() == total.len() - i,
                total.len() <= usize::MAX,
                forall|j: int| 0 <= j < rest@.len() ==> #[trigger] rest@[j] == total[total.len()
                    - 1 - j],
                all == views(total),
                cols == self.index@.collections,
                keys == hit_keys(cols, cap.field@, all),
                seen_counts(seen@, keys.take(i)),
                views(out@) == kept(keys.take(i), cap.max as int).map_values(|j: int| all[j]),
            decreases rest@.len(),
        {
            let ghost now = keys.take(i);
            let ghost next = keys.take(i + 1);
            proof {
                assert(next =~= now.push(keys[i]));
                assert(next.drop_last() =~= now);
                assert(rest@.last() == total[i]);
            }
            if let Some(hit) = rest.pop() {
                let v = match self.attrs_of(hit.collection.as_str(), hit.id.as_str()) {
                    Some(a) => a.get(cap.field.as_str()),
                    None => None,
                };
                proof {
                    assert(hit@ == all[i]);
                    assert(ref_view(v) == keys[i]);
                }
                let stays = note_value(&mut seen, v, cap.max, Ghost(now));
                let ghost so_far = views(out@);
                if stays {
                    out.push(hit);
                    proof {
                        assert(views(out@) =~= so_far.push(all[i]));
                        assert(views(out@) =~= kept(next, cap.max as int).map_values(
                            |j: int| all[j],
                        ));
                    }
                }
                proof {
                    i = i + 1;
                }
            }
        }
        proof {
            assert(keys.take(i) =~= keys);
            assert(views(out@) =~= capped(cols, cap.field@, cap.max as int, all));
        }
        out
    }
}

/// An aggregation counts exactly the records that a listing without an end lists. There are at most
/// `usize::MAX` of them, as [`Store::aggregate`] and [`Store::list`] say.
pub proof fn a_count_is_the_length_of_the_listing(
    cols: CollsV,
    scope: Seq<Seq<char>>,
    opts: ListOpts,
)
    requires
        opts.offset == 0,
        opts.limit == usize::MAX,
        covered(cols, scope, opts.filter).len() <= usize::MAX || full_listing(
            cols,
            scope,
            opts,
        ).len() <= usize::MAX,
    ensures
        listing(cols, scope, opts).len() == covered(cols, scope, opts.filter).len(),
{
    let all = list_all(cols, scope, opts.filter);
    let stored = sorted(all, storage_order());
    sorted_len(all, storage_order());
    if let Some(o) = opts.order_by {
        if let Some(w) = witness(cols, o.field@, stored) {
            sorted_len(stored, attribute_order(cols, o.field@, o.descending, w));
        }
    }
}

} // verus!
