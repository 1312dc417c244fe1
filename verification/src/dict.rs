//! A string-keyed map held as one vector in key order.

use vstd::prelude::*;

use crate::order::{lex_asymmetric, lex_irreflexive, lex_lt, lex_transitive, side, Side};

verus! {

/// A copy with an equal view.
pub trait Dup: View + Sized {
    fn dup(&self) -> (r: Self)
        ensures
            r@ == self@,
    ;
}

impl Dup for String {
    fn dup(&self) -> (r: Self) {
        self.clone()
    }
}

/// The views of a vector's elements.
pub open spec fn views<T: View>(v: Seq<T>) -> Seq<T::V> {
    v.map_values(|x: T| x@)
}

/// Copy every element of `v`.
pub fn dup_all<T: Dup>(v: &Vec<T>) -> (out: Vec<T>)
    ensures
        views(out@) == views(v@),
        out@.len() == v@.len(),
{
    let mut out: Vec<T> = Vec::new();
    let mut i: usize = 0;
    while i < v.len()
        invariant
            i <= v@.len(),
            out@.len() == i,
            forall|j: int| 0 <= j < i ==> (#[trigger] out@[j])@ == v@[j]@,
        decreases v@.len() - i,
    {
        out.push(v[i].dup());
        i = i + 1;
    }
    proof {
        assert(views(out@) =~= views(v@));
    }
    out
}

/// Copy an optional string.
pub fn dup_option(o: &Option<String>) -> (r: Option<String>)
    ensures
        opt_view(r) == opt_view(*o),
{
    match o {
        Some(s) => Some(s.dup()),
        None => None,
    }
}

/// The characters of an optional string.
pub open spec fn opt_view(o: Option<String>) -> Option<Seq<char>> {
    match o {
        Some(s) => Some(s@),
        None => None,
    }
}

// ── Key-ordered entries and the map they stand for ──────────────────────────

/// The keys ascend strictly.
pub open spec fn ascending<A>(e: Seq<(Seq<char>, A)>) -> bool {
    forall|i: int, j: int| 0 <= i < j < e.len() ==> lex_lt(#[trigger] e[i].0, #[trigger] e[j].0)
}

/// `k` is the key of some entry.
pub open spec fn has_key<A>(e: Seq<(Seq<char>, A)>, k: Seq<char>) -> bool {
    exists|i: int| 0 <= i < e.len() && (#[trigger] e[i]).0 == k
}

/// The map that the entries stand for.
pub open spec fn to_map<A>(e: Seq<(Seq<char>, A)>) -> Map<Seq<char>, A> {
    Map::new(
        |k: Seq<char>| has_key(e, k),
        |k: Seq<char>| e[choose|i: int| 0 <= i < e.len() && (#[trigger] e[i]).0 == k].1,
    )
}

/// The entries of a map in key order.
pub open spec fn ordered<A>(m: Map<Seq<char>, A>) -> Seq<(Seq<char>, A)> {
    choose|e: Seq<(Seq<char>, A)>| #[trigger] ascending(e) && to_map(e) == m
}

/// Entries in key order have no key twice.
pub proof fn ascending_distinct<A>(e: Seq<(Seq<char>, A)>)
    requires
        ascending(e),
    ensures
        forall|i: int, j: int|
            0 <= i < e.len() && 0 <= j < e.len() && (#[trigger] e[i]).0 == (#[trigger] e[j]).0
                ==> i == j,
{
    assert forall|i: int, j: int|
        0 <= i < e.len() && 0 <= j < e.len() && (#[trigger] e[i]).0 == (#[trigger] e[j]).0 implies i
        == j by {
        lex_irreflexive(e[i].0);
    }
}

/// The map of entries in key order holds each of them.
pub proof fn to_map_at<A>(e: Seq<(Seq<char>, A)>, i: int)
    requires
        ascending(e),
        0 <= i < e.len(),
    ensures
        to_map(e).contains_key(e[i].0),
        to_map(e)[e[i].0] == e[i].1,
{
    ascending_distinct(e);
    let k = e[i].0;
    assert(has_key(e, k));
    let c = choose|j: int| 0 <= j < e.len() && (#[trigger] e[j]).0 == k;
    assert(c == i);
}

proof fn to_map_drop_last<A>(e: Seq<(Seq<char>, A)>)
    requires
        ascending(e),
        e.len() > 0,
    ensures
        to_map(e.drop_last()) == to_map(e).remove(e.last().0),
        ascending(e.drop_last()),
{
    let d = e.drop_last();
    ascending_distinct(e);
    assert(ascending(d)) by {
        assert forall|i: int, j: int| 0 <= i < j < d.len() implies lex_lt(
            #[trigger] d[i].0,
            #[trigger] d[j].0,
        ) by {
            assert(d[i] == e[i] && d[j] == e[j]);
        }
    }
    assert forall|k: Seq<char>| to_map(d).contains_key(k) == to_map(e).remove(
        e.last().0,
    ).contains_key(k) by {
        if has_key(d, k) {
            let i = choose|i: int| 0 <= i < d.len() && (#[trigger] d[i]).0 == k;
            assert(e[i] == d[i]);
        }
        if has_key(e, k) && k != e.last().0 {
            let i = choose|i: int| 0 <= i < e.len() && (#[trigger] e[i]).0 == k;
            assert(d[i] == e[i]);
        }
    }
    assert forall|k: Seq<char>| to_map(d).contains_key(k) implies to_map(d)[k] == to_map(e).remove(
        e.last().0,
    )[k] by {
        let i = choose|i: int| 0 <= i < d.len() && (#[trigger] d[i]).0 == k;
        to_map_at(d, i);
        assert(e[i] == d[i]);
        to_map_at(e, i);
    }
    assert(to_map(d) =~= to_map(e).remove(e.last().0));
}

/// A map has one list of entries in key order.
pub proof fn entries_unique<A>(a: Seq<(Seq<char>, A)>, b: Seq<(Seq<char>, A)>)
    requires
        ascending(a),
        ascending(b),
        to_map(a) == to_map(b),
    ensures
        a == b,
    decreases a.len(),
{
    if a.len() == 0 {
        if b.len() > 0 {
            to_map_at(b, 0);
            assert(has_key(a, b[0].0));
        }
        assert(a =~= b);
    } else if b.len() == 0 {
        to_map_at(a, 0);
        assert(has_key(b, a[0].0));
    } else {
        let n = a.len() - 1;
        let m = b.len() - 1;
        to_map_at(a, n);
        to_map_at(b, m);
        assert(has_key(b, a[n].0));
        assert(has_key(a, b[m].0));
        let j = choose|j: int| 0 <= j < b.len() && (#[trigger] b[j]).0 == a[n].0;
        let i = choose|i: int| 0 <= i < a.len() && (#[trigger] a[i]).0 == b[m].0;
        if j != m {
            assert(lex_lt(b[j].0, b[m].0));
            lex_asymmetric(b[j].0, b[m].0);
            assert(i != n);
            assert(lex_lt(a[i].0, a[n].0));
        }
        assert(a[n].0 == b[m].0);
        to_map_drop_last(a);
        to_map_drop_last(b);
        entries_unique(a.drop_last(), b.drop_last());
        assert(a =~= a.drop_last().push(a.last()));
        assert(b =~= b.drop_last().push(b.last()));
    }
}

/// The entries of a map in key order are those of any ascending list that stands for it.
pub proof fn ordered_is<A>(e: Seq<(Seq<char>, A)>)
    requires
        ascending(e),
    ensures
        ordered(to_map(e)) == e,
{
    let o = ordered(to_map(e));
    assert(ascending(o) && to_map(o) == to_map(e));
    entries_unique(o, e);
}

/// A map from strings to values, kept in key order.
#[derive(Debug, PartialEq)]
pub struct Dict<V> {
    items: Vec<(String, V)>,
}

impl<V> Dict<V> {
    #[verifier::type_invariant]
    spec fn in_order(&self) -> bool {
        forall|i: int, j: int|
            0 <= i < j < self.items@.len() ==> lex_lt(
                #[trigger] self.items@[i].0@,
                #[trigger] self.items@[j].0@,
            )
    }
}

impl<V: View> View for Dict<V> {
    type V = Map<Seq<char>, V::V>;

    closed spec fn view(&self) -> Map<Seq<char>, V::V> {
        to_map(self.entries())
    }
}

impl<V: View> Dict<V> {
    /// The entries in key order.
    pub closed spec fn entries(&self) -> Seq<(Seq<char>, V::V)> {
        self.items@.map_values(|p: (String, V)| (p.0@, p.1@))
    }

    pub fn new() -> (r: Self)
        ensures
            r@ == Map::<Seq<char>, V::V>::empty(),
            r.entries().len() == 0,
    {
        let r = Dict { items: Vec::new() };
        proof {
            assert(r@ =~= Map::<Seq<char>, V::V>::empty());
        }
        r
    }

    /// How many entries there are.
    pub fn len(&self) -> (n: usize)
        ensures
            n == self.entries().len(),
            ascending(self.entries()),
            self@ == to_map(self.entries()),
            ordered(self@) == self.entries(),
    {
        proof {
            use_type_invariant(self);
            assert(ascending(self.entries()));
            ordered_is(self.entries());
        }
        self.items.len()
    }

    pub fn is_empty(&self) -> (r: bool)
        ensures
            r == (self@ == Map::<Seq<char>, V::V>::empty()),
    {
        let n = self.len();
        proof {
            if n > 0 {
                to_map_at(self.entries(), 0);
            } else {
                assert(self@ =~= Map::<Seq<char>, V::V>::empty());
            }
        }
        n == 0
    }

    /// The key of entry `i`.
    pub fn key_at(&self, i: usize) -> (r: &String)
        requires
            i < self.entries().len(),
        ensures
            r@ == self.entries()[i as int].0,
    {
        &self.items[i].0
    }

    /// The value of entry `i`.
    pub fn value_at(&self, i: usize) -> (r: &V)
        requires
            i < self.entries().len(),
        ensures
            r@ == self.entries()[i as int].1,
    {
        &self.items[i].1
    }

    /// Where `key` is, or where it would go.
    fn find(&self, key: &str) -> (r: (bool, usize))
        ensures
            ascending(self.entries()),
            r.0 ==> r.1 < self.entries().len() && self.entries()[r.1 as int].0 == key@,
            !r.0 ==> {
                &&& r.1 <= self.entries().len()
                &&& forall|i: int| 0 <= i < r.1 ==> lex_lt((#[trigger] self.entries()[i]).0, key@)
                &&& forall|i: int|
                    r.1 <= i < self.entries().len() ==> lex_lt(
                        key@,
                        (#[trigger] self.entries()[i]).0,
                    )
            },
    {
        proof {
            use_type_invariant(self);
            assert(ascending(self.entries()));
        }
        let ghost e = self.entries();
        let mut lo: usize = 0;
        let mut hi: usize = self.items.len();
        while lo < hi
            invariant
                lo <= hi <= e.len(),
                e == self.entries(),
                e.len() == self.items@.len(),
                ascending(e),
                forall|i: int| 0 <= i < lo ==> lex_lt((#[trigger] e[i]).0, key@),
                forall|i: int| hi <= i < e.len() ==> lex_lt(key@, (#[trigger] e[i]).0),
            decreases hi - lo,
        {
            let mid: usize = lo + (hi - lo) / 2;
            match side(self.items[mid].0.as_str(), key) {
                Side::Same => {
                    return (true, mid);
                },
                Side::Before => {
                    proof {
                        assert(lex_lt(e[mid as int].0, key@));
                        assert forall|i: int| 0 <= i < mid + 1 implies lex_lt(
                            (#[trigger] e[i]).0,
                            key@,
                        ) by {
                            if i < mid {
                                lex_transitive(e[i].0, e[mid as int].0, key@);
                            }
                        }
                    }
                    lo = mid + 1;
                },
                Side::After => {
                    proof {
                        assert(lex_lt(key@, e[mid as int].0));
                        assert forall|i: int| mid <= i < e.len() implies lex_lt(
                            key@,
                            (#[trigger] e[i]).0,
                        ) by {
                            if mid < i {
                                lex_transitive(key@, e[mid as int].0, e[i].0);
                            }
                        }
                    }
                    hi = mid;
                },
            }
        }
        (false, lo)
    }

    /// Whether `key` has an entry.
    pub fn contains_key(&self, key: &str) -> (r: bool)
        ensures
            r == self@.contains_key(key@),
    {
        self.get(key).is_some()
    }

    /// The value under `key`.
    pub fn get(&self, key: &str) -> (r: Option<&V>)
        ensures
            r is Some <==> self@.contains_key(key@),
            r is Some ==> r->0@ == self@[key@],
    {
        let (found, i) = self.find(key);
        if found {
            proof {
                to_map_at(self.entries(), i as int);
            }
            Some(&self.items[i].1)
        } else {
            proof {
                absent(self.entries(), key@, i as int);
            }
            None
        }
    }

    /// Put `value` under `key`; the value that was there comes back.
    pub fn insert(&mut self, key: String, value: V) -> (r: Option<V>)
        ensures
            final(self)@ == old(self)@.insert(key@, value@),
            r is Some <==> old(self)@.contains_key(key@),
            r is Some ==> r->0@ == old(self)@[key@],
    {
        let (found, i) = self.find(key.as_str());
        let ghost before = self.entries();
        let ghost item = (key@, value@);
        let mut items: Vec<(String, V)> = Vec::new();
        std::mem::swap(&mut items, &mut self.items);
        proof {
            assert(items@.map_values(|p: (String, V)| (p.0@, p.1@)) == before);
        }
        if found {
            proof {
                to_map_at(before, i as int);
            }
            let old_item = items.remove(i);
            items.insert(i, (key, value));
            proof {
                let after = items@.map_values(|p: (String, V)| (p.0@, p.1@));
                assert(after =~= before.update(i as int, item));
                put_existing(before, i as int, item.1);
                keys_in_order(items@);
            }
            self.items = items;
            Some(old_item.1)
        } else {
            items.insert(i, (key, value));
            proof {
                let after = items@.map_values(|p: (String, V)| (p.0@, p.1@));
                assert(after =~= before.insert(i as int, item));
                absent(before, item.0, i as int);
                put_new(before, i as int, item);
                keys_in_order(items@);
            }
            self.items = items;
            None
        }
    }

    /// Take the entry of `key` out; its value comes back.
    pub fn remove(&mut self, key: &str) -> (r: Option<V>)
        ensures
            final(self)@ == old(self)@.remove(key@),
            r is Some <==> old(self)@.contains_key(key@),
            r is Some ==> r->0@ == old(self)@[key@],
    {
        let (found, i) = self.find(key);
        let ghost before = self.entries();
        if found {
            let mut items: Vec<(String, V)> = Vec::new();
            std::mem::swap(&mut items, &mut self.items);
            let old_item = items.remove(i);
            proof {
                to_map_at(before, i as int);
                let after = items@.map_values(|p: (String, V)| (p.0@, p.1@));
                assert(after =~= before.remove(i as int));
                take_out(before, i as int);
                keys_in_order(items@);
            }
            self.items = items;
            Some(old_item.1)
        } else {
            proof {
                absent(before, key@, i as int);
                assert(self@.remove(key@) =~= self@);
            }
            None
        }
    }
}

impl<V: Clone> Clone for Dict<V> {
    fn clone(&self) -> (r: Self) {
        proof {
            use_type_invariant(self);
        }
        let mut items: Vec<(String, V)> = Vec::new();
        let mut i: usize = 0;
        while i < self.items.len()
            invariant
                i <= self.items@.len(),
                items@.len() == i,
                forall|j: int| 0 <= j < i ==> (#[trigger] items@[j]).0@ == self.items@[j].0@,
            decreases self.items@.len() - i,
        {
            items.push((self.items[i].0.clone(), self.items[i].1.clone()));
            i = i + 1;
        }
        Dict { items }
    }
}

proof fn keys_in_order<V: View>(items: Seq<(String, V)>)
    requires
        ascending(items.map_values(|p: (String, V)| (p.0@, p.1@))),
    ensures
        forall|i: int, j: int|
            0 <= i < j < items.len() ==> lex_lt(#[trigger] items[i].0@, #[trigger] items[j].0@),
{
    let e = items.map_values(|p: (String, V)| (p.0@, p.1@));
    assert forall|i: int, j: int| 0 <= i < j < items.len() implies lex_lt(
        #[trigger] items[i].0@,
        #[trigger] items[j].0@,
    ) by {
        assert(lex_lt(e[i].0, e[j].0));
    }
}

impl<V: Dup> Dup for Dict<V> {
    fn dup(&self) -> (r: Self) {
        proof {
            use_type_invariant(self);
        }
        let mut items: Vec<(String, V)> = Vec::new();
        let mut i: usize = 0;
        while i < self.items.len()
            invariant
                i <= self.items@.len(),
                items@.len() == i,
                forall|j: int|
                    0 <= j < i ==> (#[trigger] items@[j]).0@ == self.items@[j].0@ && items@[j].1@
                        == self.items@[j].1@,
            decreases self.items@.len() - i,
        {
            items.push((self.items[i].0.dup(), self.items[i].1.dup()));
            i = i + 1;
        }
        proof {
            assert(items@.map_values(|p: (String, V)| (p.0@, p.1@)) =~= self.entries());
        }
        Dict { items }
    }
}

proof fn absent<A>(e: Seq<(Seq<char>, A)>, k: Seq<char>, p: int)
    requires
        0 <= p <= e.len(),
        forall|i: int| 0 <= i < p ==> lex_lt((#[trigger] e[i]).0, k),
        forall|i: int| p <= i < e.len() ==> lex_lt(k, (#[trigger] e[i]).0),
    ensures
        !to_map(e).contains_key(k),
{
    if has_key(e, k) {
        let i = choose|i: int| 0 <= i < e.len() && (#[trigger] e[i]).0 == k;
        lex_irreflexive(k);
    }
}

proof fn put_existing<A>(e: Seq<(Seq<char>, A)>, p: int, v: A)
    requires
        ascending(e),
        0 <= p < e.len(),
    ensures
        ascending(e.update(p, (e[p].0, v))),
        to_map(e.update(p, (e[p].0, v))) == to_map(e).insert(e[p].0, v),
{
    let u = e.update(p, (e[p].0, v));
    assert(ascending(u)) by {
        assert forall|i: int, j: int| 0 <= i < j < u.len() implies lex_lt(
            #[trigger] u[i].0,
            #[trigger] u[j].0,
        ) by {
            assert(u[i].0 == e[i].0 && u[j].0 == e[j].0);
        }
    }
    map_from_entries(u, to_map(e).insert(e[p].0, v), e, p);
}

proof fn map_from_entries<A>(
    u: Seq<(Seq<char>, A)>,
    m: Map<Seq<char>, A>,
    e: Seq<(Seq<char>, A)>,
    p: int,
)
    requires
        ascending(e),
        ascending(u),
        0 <= p < e.len(),
        u == e.update(p, (e[p].0, u[p].1)),
        m == to_map(e).insert(e[p].0, u[p].1),
    ensures
        to_map(u) == m,
{
    assert forall|k: Seq<char>| to_map(u).contains_key(k) == m.contains_key(k) by {
        if has_key(u, k) {
            let i = choose|i: int| 0 <= i < u.len() && (#[trigger] u[i]).0 == k;
            assert(e[i].0 == k);
        }
        if has_key(e, k) {
            let i = choose|i: int| 0 <= i < e.len() && (#[trigger] e[i]).0 == k;
            assert(u[i].0 == k);
        }
        if k == e[p].0 {
            assert(u[p].0 == k);
        }
    }
    assert forall|k: Seq<char>| to_map(u).contains_key(k) implies to_map(u)[k] == m[k] by {
        let i = choose|i: int| 0 <= i < u.len() && (#[trigger] u[i]).0 == k;
        to_map_at(u, i);
        to_map_at(e, i);
        ascending_distinct(e);
    }
    assert(to_map(u) =~= m);
}

proof fn put_new<A>(e: Seq<(Seq<char>, A)>, p: int, item: (Seq<char>, A))
    requires
        ascending(e),
        0 <= p <= e.len(),
        forall|i: int| 0 <= i < p ==> lex_lt((#[trigger] e[i]).0, item.0),
        forall|i: int| p <= i < e.len() ==> lex_lt(item.0, (#[trigger] e[i]).0),
    ensures
        ascending(e.insert(p, item)),
        to_map(e.insert(p, item)) == to_map(e).insert(item.0, item.1),
{
    let u = e.insert(p, item);
    assert(ascending(u)) by {
        assert forall|i: int, j: int| 0 <= i < j < u.len() implies lex_lt(
            #[trigger] u[i].0,
            #[trigger] u[j].0,
        ) by {
            let ei = if i < p { i } else { i - 1 };
            let ej = if j < p { j } else { j - 1 };
            if i != p {
                assert(u[i] == e[ei]);
            }
            if j != p {
                assert(u[j] == e[ej]);
            }
        }
    }
    let m = to_map(e).insert(item.0, item.1);
    assert forall|k: Seq<char>| to_map(u).contains_key(k) == m.contains_key(k) by {
        if has_key(u, k) {
            let i = choose|i: int| 0 <= i < u.len() && (#[trigger] u[i]).0 == k;
            if i < p {
                assert(e[i] == u[i]);
            } else if i > p {
                assert(e[i - 1] == u[i]);
            }
        }
        if has_key(e, k) {
            let i = choose|i: int| 0 <= i < e.len() && (#[trigger] e[i]).0 == k;
            if i < p {
                assert(u[i] == e[i]);
            } else {
                assert(u[i + 1] == e[i]);
            }
        }
        if k == item.0 {
            assert(u[p] == item);
        }
    }
    assert forall|k: Seq<char>| to_map(u).contains_key(k) implies to_map(u)[k] == m[k] by {
        let i = choose|i: int| 0 <= i < u.len() && (#[trigger] u[i]).0 == k;
        to_map_at(u, i);
        if i < p {
            assert(u[i] == e[i]);
            to_map_at(e, i);
            lex_irreflexive(k);
        } else if i > p {
            assert(u[i] == e[i - 1]);
            to_map_at(e, i - 1);
            lex_irreflexive(k);
        }
    }
    assert(to_map(u) =~= m);
}

proof fn take_out<A>(e: Seq<(Seq<char>, A)>, p: int)
    requires
        ascending(e),
        0 <= p < e.len(),
    ensures
        ascending(e.remove(p)),
        to_map(e.remove(p)) == to_map(e).remove(e[p].0),
{
    let u = e.remove(p);
    ascending_distinct(e);
    assert(ascending(u)) by {
        assert forall|i: int, j: int| 0 <= i < j < u.len() implies lex_lt(
            #[trigger] u[i].0,
            #[trigger] u[j].0,
        ) by {
            let ei = if i < p { i } else { i + 1 };
            let ej = if j < p { j } else { j + 1 };
            assert(u[i] == e[ei] && u[j] == e[ej]);
        }
    }
    let m = to_map(e).remove(e[p].0);
    assert forall|k: Seq<char>| to_map(u).contains_key(k) == m.contains_key(k) by {
        if has_key(u, k) {
            let i = choose|i: int| 0 <= i < u.len() && (#[trigger] u[i]).0 == k;
            let ei = if i < p { i } else { i + 1 };
            assert(e[ei] == u[i]);
        }
        if has_key(e, k) && k != e[p].0 {
            let i = choose|i: int| 0 <= i < e.len() && (#[trigger] e[i]).0 == k;
            let ui = if i < p { i } else { i - 1 };
            assert(u[ui] == e[i]);
        }
    }
    assert forall|k: Seq<char>| to_map(u).contains_key(k) implies to_map(u)[k] == m[k] by {
        let i = choose|i: int| 0 <= i < u.len() && (#[trigger] u[i]).0 == k;
        let ei = if i < p { i } else { i + 1 };
        assert(e[ei] == u[i]);
        to_map_at(u, i);
        to_map_at(e, ei);
    }
    assert(to_map(u) =~= m);
}

} // verus!
