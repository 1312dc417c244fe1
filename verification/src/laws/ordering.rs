//! Sorting.

use vstd::prelude::*;

use crate::order::{insert_at, sorted, top, weak_order};

verus! {

/// Sorting rearranges and is stable: the result reads its items off the input, each place once, in
/// order, and of items that tie the one that stood first comes first.
pub proof fn sorting_is_stable<T>(s: Seq<T>, lt: spec_fn(T, T) -> bool) -> (from: Seq<int>)
    requires
        weak_order(lt),
    ensures
        sorted(s, lt).len() == s.len(),
        from.len() == s.len(),
        from.no_duplicates(),
        forall|i: int|
            0 <= i < s.len() ==> 0 <= #[trigger] from[i] < s.len() && sorted(s, lt)[i]
                == s[from[i]],
        forall|i: int, j: int|
            0 <= i < j < s.len() ==> !lt(#[trigger] sorted(s, lt)[j], #[trigger] sorted(s, lt)[i]),
        forall|i: int, j: int|
            0 <= i < j < s.len() && !lt(sorted(s, lt)[i], sorted(s, lt)[j]) ==> #[trigger] from[i]
                < #[trigger] from[j],
    decreases s.len(),
{
    crate::order::sorted_ordered(s, lt);
    crate::order::sorted_len(s, lt);
    let out = sorted(s, lt);
    assert forall|i: int, j: int| 0 <= i < j < s.len() implies !lt(
        #[trigger] out[j],
        #[trigger] out[i],
    ) by {}
    if s.len() == 0 {
        Seq::empty()
    } else {
        let d = s.drop_last();
        let x = s.last();
        let n = d.len() as int;
        let before = sorting_is_stable(d, lt);
        let rest = sorted(d, lt);
        let at = insert_at(rest, x, lt);
        what_follows_is_larger(rest, x, lt);
        let from = before.insert(at, n);
        assert(out == rest.insert(at, x));
        assert forall|i: int| 0 <= i < s.len() implies 0 <= #[trigger] from[i] < s.len() && out[i]
            == s[from[i]] by {
            if i < at {
                assert(from[i] == before[i]);
                assert(rest[i] == d[before[i]]);
            } else if i > at {
                assert(from[i] == before[i - 1]);
                assert(rest[i - 1] == d[before[i - 1]]);
            }
        }
        assert(from.no_duplicates()) by {
            assert forall|i: int, j: int|
                0 <= i < from.len() && 0 <= j < from.len() && i != j implies from[i] != from[j] by {
                let a = if i < at {
                    i
                } else {
                    i - 1
                };
                let b = if j < at {
                    j
                } else {
                    j - 1
                };
                if i != at {
                    assert(from[i] == before[a]);
                }
                if j != at {
                    assert(from[j] == before[b]);
                }
            }
        }
        assert forall|i: int, j: int|
            0 <= i < j < s.len() && !lt(out[i], out[j]) implies #[trigger] from[i]
            < #[trigger] from[j] by {
            if j < at {
                assert(from[i] == before[i] && from[j] == before[j]);
                assert(out[i] == rest[i] && out[j] == rest[j]);
            } else if j == at {
                assert(from[i] == before[i]);
            } else if i == at {
                assert(out[j] == rest[j - 1]);
                assert(lt(x, rest[j - 1]));
            } else {
                assert(from[j] == before[j - 1]);
                assert(out[j] == rest[j - 1]);
                if i < at {
                    assert(from[i] == before[i]);
                    assert(out[i] == rest[i]);
                } else {
                    assert(from[i] == before[i - 1]);
                    assert(out[i] == rest[i - 1]);
                }
            }
        }
        from
    }
}

proof fn what_follows_is_larger<T>(s: Seq<T>, x: T, lt: spec_fn(T, T) -> bool)
    ensures
        0 <= insert_at(s, x, lt) <= s.len(),
        forall|i: int| insert_at(s, x, lt) <= i < s.len() ==> lt(x, #[trigger] s[i]),
    decreases s.len(),
{
    if s.len() > 0 {
        what_follows_is_larger(s.drop_last(), x, lt);
        assert forall|i: int| insert_at(s, x, lt) <= i < s.len() implies lt(x, #[trigger] s[i]) by {
            if i < s.len() - 1 {
                assert(s.drop_last()[i] == s[i]);
            }
        }
    }
}

/// The first `k` of a sorted list, or all of it where it is shorter.
pub proof fn the_first_k_are_the_first_k<T>(s: Seq<T>, k: int, lt: spec_fn(T, T) -> bool)
    requires
        0 <= k,
    ensures
        top(s, k, lt).len() == if s.len() <= k {
            s.len() as int
        } else {
            k
        },
        forall|i: int|
            0 <= i < top(s, k, lt).len() ==> #[trigger] top(s, k, lt)[i] == sorted(s, lt)[i],
{
    crate::order::sorted_len(s, lt);
}

} // verus!
