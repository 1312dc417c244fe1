//! Orderings: strings by code point, and stable sorting under a caller-named order.

use vstd::prelude::*;

verus! {

/// `a` and `b` agree before `k`, and at `k` the string `a` ends or holds the smaller character.
pub open spec fn lt_at(a: Seq<char>, b: Seq<char>, k: int) -> bool {
    &&& 0 <= k <= a.len()
    &&& k < b.len()
    &&& forall|i: int| 0 <= i < k ==> a[i] == b[i]
    &&& k == a.len() || (a[k] as int) < (b[k] as int)
}

/// The order of strings: by the first code point in which they differ, a proper prefix first.
pub open spec fn lex_lt(a: Seq<char>, b: Seq<char>) -> bool {
    exists|k: int| lt_at(a, b, k)
}

/// The string order is irreflexive.
pub proof fn lex_irreflexive(a: Seq<char>)
    ensures
        !lex_lt(a, a),
{
}

/// The string order is asymmetric.
pub proof fn lex_asymmetric(a: Seq<char>, b: Seq<char>)
    requires
        lex_lt(a, b),
    ensures
        !lex_lt(b, a),
        a != b,
{
    let k = choose|k: int| lt_at(a, b, k);
    if lex_lt(b, a) {
        let j = choose|j: int| lt_at(b, a, j);
        if j < k {
            assert(a[j] == b[j]);
        } else if k < j {
            assert(b[k] == a[k]);
        }
    }
    if a == b {
        lex_irreflexive(a);
    }
}

/// The string order is transitive.
pub proof fn lex_transitive(a: Seq<char>, b: Seq<char>, c: Seq<char>)
    requires
        lex_lt(a, b),
        lex_lt(b, c),
    ensures
        lex_lt(a, c),
{
    let k = choose|k: int| lt_at(a, b, k);
    let j = choose|j: int| lt_at(b, c, j);
    let m = if k < j { k } else { j };
    assert forall|i: int| 0 <= i < m implies a[i] == c[i] by {
        assert(a[i] == b[i]);
        assert(b[i] == c[i]);
    }
    if k < j {
        assert(b[k] == c[k]);
    } else if j < k {
        assert(a[j] == b[j]);
    }
    assert(lt_at(a, c, m));
}

proof fn lex_total_from(a: Seq<char>, b: Seq<char>, k: int)
    requires
        0 <= k <= a.len(),
        k <= b.len(),
        forall|i: int| 0 <= i < k ==> a[i] == b[i],
    ensures
        lex_lt(a, b) || a == b || lex_lt(b, a),
    decreases a.len() - k,
{
    if k == a.len() && k == b.len() {
        assert(a =~= b);
    } else if k == a.len() {
        assert(lt_at(a, b, k));
    } else if k == b.len() {
        assert(lt_at(b, a, k));
    } else if a[k] == b[k] {
        lex_total_from(a, b, k + 1);
    } else if (a[k] as int) < (b[k] as int) {
        assert(lt_at(a, b, k));
    } else {
        assert(lt_at(b, a, k));
    }
}

/// Of two different strings one is before the other.
pub proof fn lex_total(a: Seq<char>, b: Seq<char>)
    ensures
        lex_lt(a, b) || a == b || lex_lt(b, a),
{
    lex_total_from(a, b, 0);
}

/// Where one key stands relative to another.
#[derive(Clone, Copy, Debug, PartialEq, Eq, Structural)]
pub enum Side {
    Before,
    Same,
    After,
}

/// Where `a` stands relative to `b` in the string order.
pub fn side(a: &str, b: &str) -> (r: Side)
    ensures
        r == Side::Before <==> lex_lt(a@, b@),
        r == Side::Same <==> a@ == b@,
        r == Side::After <==> lex_lt(b@, a@),
{
    broadcast use vstd::string::axiom_spec_iter, vstd::string::next_postcondition;

    let mut xs = a.chars();
    let mut ys = b.chars();
    let ghost mut k: int = 0;
    proof {
        assert(a@.skip(0) =~= a@);
        assert(b@.skip(0) =~= b@);
        lex_irreflexive(a@);
    }
    loop
        invariant
            0 <= k <= a@.len(),
            k <= b@.len(),
            forall|i: int| 0 <= i < k ==> a@[i] == b@[i],
            vstd::std_specs::iter::IteratorSpec::remaining(&xs) == a@.skip(k),
            vstd::std_specs::iter::IteratorSpec::remaining(&ys) == b@.skip(k),
        decreases a@.len() - k,
    {
        let x = xs.next();
        let y = ys.next();
        match (x, y) {
            (None, None) => {
                proof {
                    assert(a@ =~= b@);
                    lex_irreflexive(a@);
                }
                return Side::Same;
            },
            (None, Some(_)) => {
                proof {
                    assert(lt_at(a@, b@, k));
                    lex_asymmetric(a@, b@);
                }
                return Side::Before;
            },
            (Some(_), None) => {
                proof {
                    assert(lt_at(b@, a@, k));
                    lex_asymmetric(b@, a@);
                }
                return Side::After;
            },
            (Some(c), Some(d)) => {
                if c < d {
                    proof {
                        assert(lt_at(a@, b@, k));
                        lex_asymmetric(a@, b@);
                    }
                    return Side::Before;
                }
                if d < c {
                    proof {
                        assert(lt_at(b@, a@, k));
                        lex_asymmetric(b@, a@);
                    }
                    return Side::After;
                }
                proof {
                    assert(a@.skip(k).drop_first() =~= a@.skip(k + 1));
                    assert(b@.skip(k).drop_first() =~= b@.skip(k + 1));
                    k = k + 1;
                }
            },
        }
    }
}

/// Whether two strings are equal.
pub fn same(a: &str, b: &str) -> (r: bool)
    ensures
        r == (a@ == b@),
{
    match side(a, b) {
        Side::Same => true,
        _ => false,
    }
}

// ── Stable sorting ──────────────────────────────────────────────────────────

/// Where `x` goes into the ordered `s`: behind every element that it is not before.
pub open spec fn insert_at<T>(s: Seq<T>, x: T, lt: spec_fn(T, T) -> bool) -> int
    decreases s.len(),
{
    if s.len() == 0 {
        0
    } else if lt(x, s.last()) {
        insert_at(s.drop_last(), x, lt)
    } else {
        s.len() as int
    }
}

/// `s` sorted by `lt`; elements that are not before one another keep their order.
pub open spec fn sorted<T>(s: Seq<T>, lt: spec_fn(T, T) -> bool) -> Seq<T>
    decreases s.len(),
{
    if s.len() == 0 {
        Seq::empty()
    } else {
        let rest = sorted(s.drop_last(), lt);
        rest.insert(insert_at(rest, s.last(), lt), s.last())
    }
}

/// The first `k` of `s` sorted by `lt`.
pub open spec fn top<T>(s: Seq<T>, k: int, lt: spec_fn(T, T) -> bool) -> Seq<T> {
    let all = sorted(s, lt);
    if all.len() <= k {
        all
    } else {
        all.take(k)
    }
}

/// `lt` is a strict order under which incomparability is transitive.
pub open spec fn weak_order<T>(lt: spec_fn(T, T) -> bool) -> bool {
    &&& forall|x: T, y: T| #[trigger] lt(x, y) ==> !lt(y, x)
    &&& forall|x: T, y: T, z: T| lt(x, z) ==> #[trigger] lt(x, y) || #[trigger] lt(y, z)
}

/// Everything from the place of `x` on is behind it, and what stands just before is not.
pub proof fn insert_at_bounds<T>(s: Seq<T>, x: T, lt: spec_fn(T, T) -> bool)
    ensures
        0 <= insert_at(s, x, lt) <= s.len(),
        forall|i: int| insert_at(s, x, lt) <= i < s.len() ==> lt(x, #[trigger] s[i]),
        insert_at(s, x, lt) > 0 ==> !lt(x, s[insert_at(s, x, lt) - 1]),
    decreases s.len(),
{
    if s.len() > 0 && lt(x, s.last()) {
        insert_at_bounds(s.drop_last(), x, lt);
        let p = insert_at(s, x, lt);
        assert forall|i: int| p <= i < s.len() implies lt(x, #[trigger] s[i]) by {
            if i < s.len() - 1 {
                assert(s.drop_last()[i] == s[i]);
            }
        }
    }
}

/// Sorting keeps the number of elements.
pub proof fn sorted_len<T>(s: Seq<T>, lt: spec_fn(T, T) -> bool)
    ensures
        sorted(s, lt).len() == s.len(),
    decreases s.len(),
{
    if s.len() > 0 {
        sorted_len(s.drop_last(), lt);
        insert_at_bounds(sorted(s.drop_last(), lt), s.last(), lt);
    }
}

/// Sorting reorders and nothing else: every element occurs as often as before.
pub proof fn sorted_permutes<T>(s: Seq<T>, lt: spec_fn(T, T) -> bool)
    ensures
        sorted(s, lt).to_multiset() == s.to_multiset(),
    decreases s.len(),
{
    broadcast use vstd::seq_lib::group_to_multiset_ensures;

    if s.len() > 0 {
        let rest = sorted(s.drop_last(), lt);
        sorted_permutes(s.drop_last(), lt);
        insert_at_bounds(rest, s.last(), lt);
        let p = insert_at(rest, s.last(), lt);
        vstd::seq_lib::to_multiset_insert(rest, p, s.last());
        assert(s =~= s.drop_last().push(s.last()));
    } else {
        assert(s =~= Seq::empty());
    }
}

/// Every element of a sorted sequence is one of the elements that were sorted.
pub proof fn sorted_members<T>(s: Seq<T>, lt: spec_fn(T, T) -> bool)
    ensures
        forall|x: T| #[trigger] sorted(s, lt).contains(x) <==> s.contains(x),
{
    broadcast use vstd::seq_lib::group_to_multiset_ensures;

    sorted_permutes(s, lt);
    assert forall|x: T| #[trigger] sorted(s, lt).contains(x) <==> s.contains(x) by {
        assert(sorted(s, lt).contains(x) <==> sorted(s, lt).to_multiset().count(x) > 0);
        assert(s.contains(x) <==> s.to_multiset().count(x) > 0);
    }
}

/// In a sorted sequence nothing stands behind an element that it is before.
pub proof fn sorted_ordered<T>(s: Seq<T>, lt: spec_fn(T, T) -> bool)
    requires
        weak_order(lt),
    ensures
        forall|i: int, j: int|
            0 <= i < j < s.len() ==> !lt(#[trigger] sorted(s, lt)[j], #[trigger] sorted(s, lt)[i]),
    decreases s.len(),
{
    sorted_len(s, lt);
    if s.len() > 0 {
        let rest = sorted(s.drop_last(), lt);
        let x = s.last();
        let p = insert_at(rest, x, lt);
        sorted_ordered(s.drop_last(), lt);
        sorted_len(s.drop_last(), lt);
        insert_at_bounds(rest, x, lt);
        let out = sorted(s, lt);
        assert forall|i: int, j: int| 0 <= i < j < s.len() implies !lt(
            #[trigger] out[j],
            #[trigger] out[i],
        ) by {
            let ri = if i < p { i } else { i - 1 };
            let rj = if j < p { j } else { j - 1 };
            if i != p && j != p {
                assert(out[i] == rest[ri]);
                assert(out[j] == rest[rj]);
            } else if i == p {
                assert(out[j] == rest[j - 1]);
                assert(lt(x, rest[j - 1]));
            } else {
                assert(out[i] == rest[i]);
                if lt(x, rest[i]) {
                    if i == p - 1 {
                        assert(false);
                    } else {
                        assert(!lt(rest[p - 1], rest[i]));
                        assert(lt(x, rest[p - 1]) || lt(rest[p - 1], rest[i]));
                        assert(false);
                    }
                }
            }
        }
    }
}

/// Sorting commutes with a change of representation that keeps the order.
pub proof fn sorted_map<T, U>(
    s: Seq<T>,
    f: spec_fn(T) -> U,
    lt: spec_fn(T, T) -> bool,
    mt: spec_fn(U, U) -> bool,
)
    requires
        forall|x: T, y: T| #[trigger] lt(x, y) == mt(f(x), f(y)),
    ensures
        sorted(s, lt).map_values(f) == sorted(s.map_values(f), mt),
    decreases s.len(),
{
    if s.len() > 0 {
        let rest = sorted(s.drop_last(), lt);
        sorted_map(s.drop_last(), f, lt, mt);
        assert(s.map_values(f).drop_last() =~= s.drop_last().map_values(f));
        insert_at_map(rest, s.last(), f, lt, mt);
        insert_at_bounds(rest, s.last(), lt);
        assert(sorted(s, lt).map_values(f) =~= sorted(s.map_values(f), mt));
    } else {
        assert(sorted(s, lt).map_values(f) =~= sorted(s.map_values(f), mt));
    }
}

proof fn insert_at_map<T, U>(
    s: Seq<T>,
    x: T,
    f: spec_fn(T) -> U,
    lt: spec_fn(T, T) -> bool,
    mt: spec_fn(U, U) -> bool,
)
    requires
        forall|x: T, y: T| #[trigger] lt(x, y) == mt(f(x), f(y)),
    ensures
        insert_at(s, x, lt) == insert_at(s.map_values(f), f(x), mt),
    decreases s.len(),
{
    if s.len() > 0 {
        assert(s.map_values(f).last() == f(s.last()));
        assert(s.map_values(f).drop_last() =~= s.drop_last().map_values(f));
        assert(lt(x, s.last()) == mt(f(x), f(s.last())));
        insert_at_map(s.drop_last(), x, f, lt, mt);
    }
}

/// Two orders that agree on the elements sort them alike.
pub proof fn sorted_agree<T>(
    s: Seq<T>,
    lt: spec_fn(T, T) -> bool,
    mt: spec_fn(T, T) -> bool,
)
    requires
        forall|i: int, j: int|
            0 <= i < s.len() && 0 <= j < s.len() ==> #[trigger] lt(s[i], s[j]) == mt(s[i], s[j]),
    ensures
        sorted(s, lt) == sorted(s, mt),
    decreases s.len(),
{
    if s.len() > 0 {
        let d = s.drop_last();
        assert forall|i: int, j: int| 0 <= i < d.len() && 0 <= j < d.len() implies #[trigger] lt(
            d[i],
            d[j],
        ) == mt(d[i], d[j]) by {
            assert(d[i] == s[i] && d[j] == s[j]);
            assert(lt(s[i], s[j]) == mt(s[i], s[j]));
        }
        sorted_agree(d, lt, mt);
        let rest = sorted(d, lt);
        sorted_members(d, lt);
        assert forall|i: int| 0 <= i < rest.len() implies lt(s.last(), #[trigger] rest[i]) == mt(
            s.last(),
            rest[i],
        ) by {
            assert(rest.contains(rest[i]));
            let j = choose|j: int| 0 <= j < d.len() && d[j] == rest[i];
            assert(s[j] == rest[i]);
            assert(lt(s[s.len() - 1], s[j]) == mt(s[s.len() - 1], s[j]));
        }
        insert_at_agree(rest, s.last(), lt, mt);
    }
}

proof fn insert_at_agree<T>(
    s: Seq<T>,
    x: T,
    lt: spec_fn(T, T) -> bool,
    mt: spec_fn(T, T) -> bool,
)
    requires
        forall|i: int| 0 <= i < s.len() ==> lt(x, #[trigger] s[i]) == mt(x, s[i]),
    ensures
        insert_at(s, x, lt) == insert_at(s, x, mt),
    decreases s.len(),
{
    if s.len() > 0 {
        let d = s.drop_last();
        assert forall|i: int| 0 <= i < d.len() implies lt(x, #[trigger] d[i]) == mt(x, d[i]) by {
            assert(d[i] == s[i]);
        }
        assert(lt(x, s[s.len() - 1]) == mt(x, s[s.len() - 1]));
        insert_at_agree(d, x, lt, mt);
    }
}

/// A sequence in which nothing is before its predecessors is already sorted.
pub proof fn sorted_of_ordered<T>(s: Seq<T>, lt: spec_fn(T, T) -> bool)
    requires
        forall|i: int, j: int| 0 <= i < j < s.len() ==> !lt(#[trigger] s[j], #[trigger] s[i]),
    ensures
        sorted(s, lt) == s,
    decreases s.len(),
{
    if s.len() > 0 {
        sorted_of_ordered(s.drop_last(), lt);
        let rest = s.drop_last();
        if rest.len() > 0 {
            assert(rest.last() == s[s.len() - 2]);
            assert(!lt(s.last(), rest.last()));
        }
        assert(insert_at(rest, s.last(), lt) == rest.len());
        assert(sorted(s, lt) =~= s);
    } else {
        assert(sorted(s, lt) =~= s);
    }
}

/// Insert `x` into the ordered `v`, behind everything that it is not before.
pub fn insert_ordered<T, F: Fn(&T, &T) -> bool>(
    v: &mut Vec<T>,
    x: T,
    f: &F,
    Ghost(lt): Ghost<spec_fn(T, T) -> bool>,
)
    requires
        forall|a: &T, b: &T| #[trigger] call_requires(*f, (a, b)),
        forall|a: &T, b: &T, r: bool| #[trigger] call_ensures(*f, (a, b), r) ==> r == lt(*a, *b),
    ensures
        final(v)@ == old(v)@.insert(insert_at(old(v)@, x, lt), x),
        0 <= insert_at(old(v)@, x, lt) <= old(v)@.len(),
{
    let mut i: usize = v.len();
    proof {
        assert(v@.take(i as int) =~= v@);
        insert_at_bounds(v@, x, lt);
    }
    while i > 0 && f(&x, &v[i - 1])
        invariant
            i <= v@.len(),
            v@ == old(v)@,
            insert_at(v@, x, lt) == insert_at(v@.take(i as int), x, lt),
            forall|a: &T, b: &T| #[trigger] call_requires(*f, (a, b)),
            forall|a: &T, b: &T, r: bool| #[trigger] call_ensures(*f, (a, b), r) ==> r == lt(*a, *b),
        ensures
            i <= v@.len(),
            v@ == old(v)@,
            insert_at(v@, x, lt) == insert_at(v@.take(i as int), x, lt),
            i > 0 ==> !lt(x, v@[i - 1]),
        decreases i,
    {
        proof {
            assert(v@.take(i as int).last() == v@[i - 1]);
            assert(v@.take(i as int).drop_last() =~= v@.take(i - 1));
        }
        i = i - 1;
    }
    proof {
        if i > 0 {
            assert(v@.take(i as int).last() == v@[i - 1]);
        }
        assert(insert_at(v@.take(i as int), x, lt) == i);
    }
    v.insert(i, x);
}

/// Stable sort.
pub fn sort_stable<T, F: Fn(&T, &T) -> bool>(
    v: Vec<T>,
    f: &F,
    Ghost(lt): Ghost<spec_fn(T, T) -> bool>,
) -> (out: Vec<T>)
    requires
        forall|a: &T, b: &T| #[trigger] call_requires(*f, (a, b)),
        forall|a: &T, b: &T, r: bool| #[trigger] call_ensures(*f, (a, b), r) ==> r == lt(*a, *b),
    ensures
        out@ == sorted(v@, lt),
        out@.len() == v@.len(),
{
    let mut out: Vec<T> = Vec::new();
    let ghost all = v@;
    let mut rest = v;
    rest = reversed(rest);
    let ghost mut done: int = 0;
    proof {
        assert(all.take(0) =~= Seq::empty());
    }
    while rest.len() > 0
        invariant
            0 <= done <= all.len(),
            rest@.len() == all.len() - done,
            forall|i: int| 0 <= i < rest@.len() ==> rest@[i] == all[all.len() - 1 - i],
            out@ == sorted(all.take(done), lt),
            forall|a: &T, b: &T| #[trigger] call_requires(*f, (a, b)),
            forall|a: &T, b: &T, r: bool| #[trigger] call_ensures(*f, (a, b), r) ==> r == lt(*a, *b),
        decreases rest@.len(),
    {
        let x = rest.pop();
        match x {
            Some(x) => {
                insert_ordered(&mut out, x, f, Ghost(lt));
                proof {
                    assert(all.take(done + 1).drop_last() =~= all.take(done));
                    assert(all.take(done + 1).last() == all[done]);
                    done = done + 1;
                }
            },
            None => {},
        }
    }
    proof {
        assert(all.take(done) =~= all);
        sorted_len(all, lt);
    }
    out
}

/// At most the first `k` elements.
pub open spec fn clip<T>(s: Seq<T>, k: int) -> Seq<T> {
    if s.len() <= k {
        s
    } else {
        s.take(k)
    }
}

/// The best `k` of a sequence and one more element: put the element among the best `k` so far,
/// and let the last fall off.
pub proof fn top_push<T>(s: Seq<T>, x: T, k: int, lt: spec_fn(T, T) -> bool)
    requires
        weak_order(lt),
        0 <= k,
    ensures
        ({
            let t = top(s, k, lt);
            top(s.push(x), k, lt) == clip(t.insert(insert_at(t, x, lt), x), k)
        }),
{
    let all = sorted(s, lt);
    let t = top(s, k, lt);
    let p = insert_at(all, x, lt);
    assert(s.push(x).drop_last() =~= s);
    sorted_ordered(s, lt);
    sorted_len(s, lt);
    insert_at_bounds(all, x, lt);
    insert_at_bounds(t, x, lt);
    let q = insert_at(t, x, lt);
    if all.len() > k {
        if p >= k {
            if q < k {
                assert(lt(x, t[q]));
                assert(t[q] == all[q]);
                if q == p - 1 {
                    assert(false);
                } else {
                    assert(!lt(all[p - 1], all[q]));
                    assert(lt(x, all[p - 1]) || lt(all[p - 1], all[q]));
                    assert(false);
                }
            }
            assert(q == k);
            assert(top(s.push(x), k, lt) =~= clip(t.insert(q, x), k));
        } else {
            if q < p {
                assert(t[q] == all[q]);
                if q == p - 1 {
                    assert(false);
                } else {
                    assert(!lt(all[p - 1], all[q]));
                    assert(lt(x, all[p - 1]) || lt(all[p - 1], all[q]));
                    assert(false);
                }
            } else if q > p {
                assert(t[q - 1] == all[q - 1]);
                assert(lt(x, all[q - 1]));
            }
            assert(q == p);
            assert(top(s.push(x), k, lt) =~= clip(t.insert(q, x), k));
        }
    }
}

/// The best `k` of a sequence are the best of themselves.
pub proof fn top_again<T>(s: Seq<T>, k: int, lt: spec_fn(T, T) -> bool)
    requires
        weak_order(lt),
        0 <= k,
    ensures
        top(top(s, k, lt), k, lt) == top(s, k, lt),
{
    let t = top(s, k, lt);
    sorted_ordered(s, lt);
    sorted_len(s, lt);
    assert forall|i: int, j: int| 0 <= i < j < t.len() implies !lt(
        #[trigger] t[j],
        #[trigger] t[i],
    ) by {
        assert(t[i] == sorted(s, lt)[i]);
        assert(t[j] == sorted(s, lt)[j]);
    }
    sorted_of_ordered(t, lt);
    assert(top(t, k, lt) =~= t);
}

/// What comes later meets only the best `k` of what came before.
pub proof fn top_of_prefix<T>(a: Seq<T>, b: Seq<T>, k: int, lt: spec_fn(T, T) -> bool)
    requires
        weak_order(lt),
        0 <= k,
    ensures
        top(a + b, k, lt) == top(top(a, k, lt) + b, k, lt),
    decreases b.len(),
{
    let t = top(a, k, lt);
    if b.len() == 0 {
        assert(a + b =~= a);
        assert(t + b =~= t);
        top_again(a, k, lt);
    } else {
        let d = b.drop_last();
        top_of_prefix(a, d, k, lt);
        assert(a + b =~= (a + d).push(b.last()));
        assert(t + b =~= (t + d).push(b.last()));
        top_push(a + d, b.last(), k, lt);
        top_push(t + d, b.last(), k, lt);
    }
}

/// Any two different elements are ordered.
pub open spec fn comparable<T>(s: Seq<T>, lt: spec_fn(T, T) -> bool) -> bool {
    forall|x: T, y: T| #[trigger]
        s.contains(x) && #[trigger] s.contains(y) && x != y ==> lt(x, y) || lt(y, x)
}

/// Nothing stands behind an element that it is before.
pub open spec fn in_order<T>(s: Seq<T>, lt: spec_fn(T, T) -> bool) -> bool {
    forall|i: int, j: int| 0 <= i < j < s.len() ==> !lt(#[trigger] s[j], #[trigger] s[i])
}

/// The same elements, any two of them ordered, can be put in order in one way only.
proof fn order_is_unique<T>(p: Seq<T>, q: Seq<T>, lt: spec_fn(T, T) -> bool)
    requires
        p.to_multiset() == q.to_multiset(),
        in_order(p, lt),
        in_order(q, lt),
        comparable(p, lt),
    ensures
        p == q,
    decreases p.len(),
{
    broadcast use vstd::seq_lib::group_to_multiset_ensures;

    assert(p.len() == p.to_multiset().len());
    assert(q.len() == q.to_multiset().len());
    if p.len() > 0 {
        assert(p.contains(p[0]));
        assert(q.contains(q[0]));
        assert(q.to_multiset().count(p[0]) > 0);
        assert(p.to_multiset().count(q[0]) > 0);
        assert(q.contains(p[0]));
        assert(p.contains(q[0]));
        let i = choose|i: int| 0 <= i < p.len() && p[i] == q[0];
        let j = choose|j: int| 0 <= j < q.len() && q[j] == p[0];
        if p[0] != q[0] {
            assert(!lt(p[i], p[0]));
            assert(!lt(q[j], q[0]));
            assert(false);
        }
        let p2 = p.drop_first();
        let q2 = q.drop_first();
        assert(p2 =~= p.remove(0));
        assert(q2 =~= q.remove(0));
        assert(p2.to_multiset() =~= p.to_multiset().remove(p[0]));
        assert(q2.to_multiset() =~= q.to_multiset().remove(q[0]));
        assert forall|x: T, y: T| #[trigger] p2.contains(x) && #[trigger] p2.contains(y) && x
            != y implies lt(x, y) || lt(y, x) by {
            let a = choose|a: int| 0 <= a < p2.len() && p2[a] == x;
            let b = choose|b: int| 0 <= b < p2.len() && p2[b] == y;
            assert(p[a + 1] == x);
            assert(p[b + 1] == y);
            assert(p.contains(x) && p.contains(y));
        }
        order_is_unique(p2, q2, lt);
        assert(p =~= seq![p[0]] + p2);
        assert(q =~= seq![q[0]] + q2);
    } else {
        assert(p =~= q);
    }
}

/// Sorting does not depend on the order in which elements come, as long as any two different
/// ones are ordered.
pub proof fn sorted_of_same<T>(a: Seq<T>, b: Seq<T>, lt: spec_fn(T, T) -> bool)
    requires
        weak_order(lt),
        comparable(a, lt),
        a.to_multiset() == b.to_multiset(),
    ensures
        sorted(a, lt) == sorted(b, lt),
{
    sorted_permutes(a, lt);
    sorted_permutes(b, lt);
    sorted_members(a, lt);
    sorted_ordered(a, lt);
    sorted_ordered(b, lt);
    sorted_len(a, lt);
    sorted_len(b, lt);
    order_is_unique(sorted(a, lt), sorted(b, lt), lt);
}

proof fn sorted_commutes<T>(a: Seq<T>, b: Seq<T>, lt: spec_fn(T, T) -> bool)
    requires
        weak_order(lt),
        comparable(a + b, lt),
    ensures
        sorted(a + b, lt) == sorted(b + a, lt),
{
    broadcast use vstd::seq_lib::group_to_multiset_ensures;

    vstd::seq_lib::lemma_multiset_commutative(a, b);
    vstd::seq_lib::lemma_multiset_commutative(b, a);
    assert((a + b).to_multiset() =~= (b + a).to_multiset());
    sorted_of_same(a + b, b + a, lt);
}

/// Ranking the best `k` of two parts together ranks the best `k` of the whole.
pub proof fn top_of_tops<T>(a: Seq<T>, b: Seq<T>, k: int, lt: spec_fn(T, T) -> bool)
    requires
        weak_order(lt),
        0 <= k,
        comparable(a + b, lt),
    ensures
        top(top(a, k, lt) + top(b, k, lt), k, lt) == top(a + b, k, lt),
{
    let t = top(a, k, lt);
    let u = top(b, k, lt);
    top_of_prefix(a, b, k, lt);
    top_members(a, k, lt);
    top_members(b, k, lt);
    assert(comparable(t + b, lt)) by {
        part_comparable(a + b, t + b, lt, t, b, a, b);
    }
    sorted_commutes(t, b, lt);
    top_of_prefix(b, t, k, lt);
    assert(comparable(u + t, lt)) by {
        part_comparable(a + b, u + t, lt, u, t, b, a);
    }
    sorted_commutes(u, t, lt);
}

/// The best `k` are elements of the whole.
pub proof fn top_members<T>(s: Seq<T>, k: int, lt: spec_fn(T, T) -> bool)
    requires
        0 <= k,
    ensures
        forall|x: T| #[trigger] top(s, k, lt).contains(x) ==> s.contains(x),
{
    sorted_members(s, lt);
    assert forall|x: T| #[trigger] top(s, k, lt).contains(x) implies s.contains(x) by {
        let i = choose|i: int| 0 <= i < top(s, k, lt).len() && top(s, k, lt)[i] == x;
        assert(sorted(s, lt)[i] == x);
        assert(sorted(s, lt).contains(x));
    }
}

proof fn part_comparable<T>(
    whole: Seq<T>,
    part: Seq<T>,
    lt: spec_fn(T, T) -> bool,
    t: Seq<T>,
    u: Seq<T>,
    a: Seq<T>,
    b: Seq<T>,
)
    requires
        comparable(whole, lt),
        part == t + u,
        whole == a + b || whole == b + a,
        forall|x: T| #[trigger] t.contains(x) ==> a.contains(x),
        forall|x: T| #[trigger] u.contains(x) ==> b.contains(x),
    ensures
        comparable(part, lt),
{
    assert forall|x: T, y: T| #[trigger] part.contains(x) && #[trigger] part.contains(y) && x
        != y implies lt(x, y) || lt(y, x) by {
        part_member(whole, part, t, u, a, b, x);
        part_member(whole, part, t, u, a, b, y);
    }
}

proof fn part_member<T>(
    whole: Seq<T>,
    part: Seq<T>,
    t: Seq<T>,
    u: Seq<T>,
    a: Seq<T>,
    b: Seq<T>,
    x: T,
)
    requires
        part == t + u,
        whole == a + b || whole == b + a,
        forall|x: T| #[trigger] t.contains(x) ==> a.contains(x),
        forall|x: T| #[trigger] u.contains(x) ==> b.contains(x),
        part.contains(x),
    ensures
        whole.contains(x),
{
    let i = choose|i: int| 0 <= i < part.len() && part[i] == x;
    if i < t.len() {
        assert(t[i] == x);
        assert(t.contains(x));
        let j = choose|j: int| 0 <= j < a.len() && a[j] == x;
        if whole == a + b {
            assert(whole[j] == x);
        } else {
            assert(whole[b.len() + j] == x);
        }
    } else {
        assert(u[i - t.len()] == x);
        assert(u.contains(x));
        let j = choose|j: int| 0 <= j < b.len() && b[j] == x;
        if whole == a + b {
            assert(whole[a.len() + j] == x);
        } else {
            assert(whole[j] == x);
        }
    }
}

/// Offer one more element to the best `k` so far.
pub fn offer<T, F: Fn(&T, &T) -> bool>(
    best: &mut Vec<T>,
    x: T,
    k: usize,
    f: &F,
    Ghost(lt): Ghost<spec_fn(T, T) -> bool>,
    Ghost(seen): Ghost<Seq<T>>,
)
    requires
        weak_order(lt),
        old(best)@ == top(seen, k as int, lt),
        forall|a: &T, b: &T| #[trigger] call_requires(*f, (a, b)),
        forall|a: &T, b: &T, r: bool| #[trigger] call_ensures(*f, (a, b), r) ==> r == lt(*a, *b),
    ensures
        final(best)@ == top(seen.push(x), k as int, lt),
{
    proof {
        top_push(seen, x, k as int, lt);
    }
    insert_ordered(best, x, f, Ghost(lt));
    if best.len() > k {
        best.truncate(k);
        proof {
            assert(best@ =~= clip(
                old(best)@.insert(insert_at(old(best)@, x, lt), x),
                k as int,
            ));
        }
    }
}

/// The elements of `v` from last to first.
pub fn reversed<T>(v: Vec<T>) -> (out: Vec<T>)
    ensures
        out@ == v@.reverse(),
{
    let mut v = v;
    let ghost all = v@;
    let mut out: Vec<T> = Vec::new();
    while v.len() > 0
        invariant
            v@.len() + out@.len() == all.len(),
            v@ == all.take(v@.len() as int),
            forall|i: int| 0 <= i < out@.len() ==> out@[i] == all[all.len() - 1 - i],
        decreases v@.len(),
    {
        match v.pop() {
            Some(x) => {
                out.push(x);
                proof {
                    assert(v@ =~= all.take(v@.len() as int));
                }
            },
            None => {},
        }
    }
    proof {
        assert(out@ =~= all.reverse());
    }
    out
}

} // verus!
