//! Spreading a ranking out: each next result weighs its score against its likeness to those
//! already chosen.

use vstd::prelude::*;

use crate::bits;
use crate::dict::views;
use crate::index::{is_live, CollsV};
use crate::kernel::{cosine, cosine_of, functional, mmr_of, Kernel};
use crate::model::{Hit, HitV};
use crate::order::reversed;
use crate::store::Store;

verus! {

/// How many results at the head of a ranking are reordered. The cost is quadratic in this.
pub const MAX_DIVERSITY_WINDOW: usize = 512;

/// How like candidate `i` is to the most similar of `chosen`, at least zero. A candidate without
/// a vector is like nothing.
pub open spec fn redundancy<K: Kernel>(
    k: K,
    window: Seq<Option<Seq<u32>>>,
    chosen: Seq<int>,
    i: int,
) -> u32
    decreases chosen.len(),
{
    if chosen.len() == 0 {
        bits::ZERO
    } else {
        let rest = redundancy(k, window, chosen.drop_last(), i);
        match (window[chosen.last()], window[i]) {
            (Some(a), Some(b)) => bits::larger(rest, cosine_of(k, a, b)),
            _ => rest,
        }
    }
}

/// What candidate `i` is worth once `chosen` are chosen.
pub open spec fn worth<K: Kernel>(
    k: K,
    window: Seq<Option<Seq<u32>>>,
    scores: Seq<u32>,
    lambda: u32,
    chosen: Seq<int>,
    i: int,
) -> u32 {
    mmr_of(k, lambda, scores[i], redundancy(k, window, chosen, i))
}

/// The pick among the first `m` candidates: the first that is worth more than those before it.
pub open spec fn pick<K: Kernel>(
    k: K,
    window: Seq<Option<Seq<u32>>>,
    scores: Seq<u32>,
    lambda: u32,
    chosen: Seq<int>,
    m: nat,
) -> Option<int>
    decreases m,
{
    if m == 0 {
        None
    } else {
        let rest = pick(k, window, scores, lambda, chosen, (m - 1) as nat);
        let i = m - 1;
        if chosen.contains(i) {
            rest
        } else {
            match rest {
                None => Some(i),
                Some(b) => if bits::num_lt(
                    worth(k, window, scores, lambda, chosen, b),
                    worth(k, window, scores, lambda, chosen, i),
                ) {
                    Some(i)
                } else {
                    rest
                },
            }
        }
    }
}

/// The first `steps` picks.
pub open spec fn picks<K: Kernel>(
    k: K,
    window: Seq<Option<Seq<u32>>>,
    scores: Seq<u32>,
    lambda: u32,
    steps: nat,
) -> Seq<int>
    decreases steps,
{
    if steps == 0 {
        Seq::empty()
    } else {
        let rest = picks(k, window, scores, lambda, (steps - 1) as nat);
        match pick(k, window, scores, lambda, rest, window.len()) {
            Some(i) => rest.push(i),
            None => rest,
        }
    }
}

/// The order in which the candidates of a window come.
pub open spec fn selection<K: Kernel>(
    k: K,
    window: Seq<Option<Seq<u32>>>,
    scores: Seq<u32>,
    lambda: u32,
) -> Seq<int> {
    picks(k, window, scores, lambda, window.len())
}

proof fn pick_is_fresh<K: Kernel>(
    k: K,
    window: Seq<Option<Seq<u32>>>,
    scores: Seq<u32>,
    lambda: u32,
    chosen: Seq<int>,
    m: nat,
)
    ensures
        pick(k, window, scores, lambda, chosen, m) matches Some(i) ==> 0 <= i < m
            && !chosen.contains(i),
        pick(k, window, scores, lambda, chosen, m) is None <==> forall|i: int|
            0 <= i < m ==> chosen.contains(i),
    decreases m,
{
    if m > 0 {
        pick_is_fresh(k, window, scores, lambda, chosen, (m - 1) as nat);
        if pick(k, window, scores, lambda, chosen, m) is None {
            assert forall|i: int| 0 <= i < m implies chosen.contains(i) by {
                if i < m - 1 {
                    assert(pick(k, window, scores, lambda, chosen, (m - 1) as nat) is None);
                }
            }
        }
    }
}

/// A pick is the first of the best: nothing left is worth more, and whatever ranked before it is
/// worth less. This is stated of worths that are numbers.
pub proof fn pick_is_the_first_best<K: Kernel>(
    k: K,
    window: Seq<Option<Seq<u32>>>,
    scores: Seq<u32>,
    lambda: u32,
    chosen: Seq<int>,
    m: nat,
)
    requires
        forall|i: int|
            0 <= i < m && !chosen.contains(i) ==> !bits::is_nan(
                #[trigger] worth(k, window, scores, lambda, chosen, i),
            ),
    ensures
        pick(k, window, scores, lambda, chosen, m) matches Some(p) ==> {
            &&& forall|i: int|
                0 <= i < m && !chosen.contains(i) ==> !bits::num_lt(
                    worth(k, window, scores, lambda, chosen, p),
                    #[trigger] worth(k, window, scores, lambda, chosen, i),
                )
            &&& forall|i: int|
                0 <= i < p && !chosen.contains(i) ==> bits::num_lt(
                    #[trigger] worth(k, window, scores, lambda, chosen, i),
                    worth(k, window, scores, lambda, chosen, p),
                )
        },
    decreases m,
{
    if m > 0 {
        let n = (m - 1) as nat;
        pick_is_the_first_best(k, window, scores, lambda, chosen, n);
        pick_is_fresh(k, window, scores, lambda, chosen, n);
        if let Some(b) = pick(k, window, scores, lambda, chosen, n) {
            assert(!bits::is_nan(worth(k, window, scores, lambda, chosen, b)));
        }
    }
}

proof fn picks_are_fresh<K: Kernel>(
    k: K,
    window: Seq<Option<Seq<u32>>>,
    scores: Seq<u32>,
    lambda: u32,
    steps: nat,
)
    requires
        steps <= window.len(),
    ensures
        ({
            let p = picks(k, window, scores, lambda, steps);
            &&& p.len() == steps
            &&& p.no_duplicates()
            &&& forall|j: int| 0 <= j < p.len() ==> 0 <= #[trigger] p[j] < window.len()
        }),
    decreases steps,
{
    if steps > 0 {
        let n = (steps - 1) as nat;
        picks_are_fresh(k, window, scores, lambda, n);
        let rest = picks(k, window, scores, lambda, n);
        pick_is_fresh(k, window, scores, lambda, rest, window.len());
        if pick(k, window, scores, lambda, rest, window.len()) is None {
            all_taken(rest, window.len());
        }
    }
}

/// Distinct places below `n` that leave none out are `n` in number.
proof fn all_taken(p: Seq<int>, n: nat)
    requires
        p.no_duplicates(),
        forall|i: int| 0 <= i < n ==> p.contains(i),
    ensures
        p.len() >= n,
{
    p.unique_seq_to_set();
    let below = Seq::new(n, |i: int| i);
    assert(below.no_duplicates());
    below.unique_seq_to_set();
    assert(below.to_set().subset_of(p.to_set())) by {
        assert forall|i: int| below.to_set().contains(i) implies p.to_set().contains(i) by {
            assert(below.contains(i));
        }
    }
    vstd::set_lib::lemma_len_subset(below.to_set(), p.to_set());
}

/// A selection is a reordering: every candidate of the window comes exactly once.
pub proof fn selection_permutes<K: Kernel>(
    k: K,
    window: Seq<Option<Seq<u32>>>,
    scores: Seq<u32>,
    lambda: u32,
)
    ensures
        ({
            let s = selection(k, window, scores, lambda);
            &&& s.len() == window.len()
            &&& s.no_duplicates()
            &&& forall|j: int| 0 <= j < s.len() ==> 0 <= #[trigger] s[j] < window.len()
            &&& forall|i: int| 0 <= i < window.len() ==> #[trigger] s.contains(i)
        }),
{
    let n = window.len();
    let s = selection(k, window, scores, lambda);
    picks_are_fresh(k, window, scores, lambda, n);
    assert forall|i: int| 0 <= i < n implies #[trigger] s.contains(i) by {
        if !s.contains(i) {
            let more = s.push(i);
            more.unique_seq_to_set();
            let below = vstd::set_lib::set_int_range(0, n as int);
            vstd::set_lib::lemma_int_range(0, n as int);
            assert(more.to_set().subset_of(below)) by {
                assert forall|x: int| more.to_set().contains(x) implies below.contains(x) by {
                    let j = choose|j: int| 0 <= j < more.len() && more[j] == x;
                    if j < s.len() {
                        assert(more[j] == s[j]);
                    }
                }
            }
            vstd::set_lib::lemma_len_subset(more.to_set(), below);
        }
    }
}

/// The best result stays first as long as nothing outweighs it at the start.
pub proof fn the_top_stays<K: Kernel>(
    k: K,
    window: Seq<Option<Seq<u32>>>,
    scores: Seq<u32>,
    lambda: u32,
)
    requires
        window.len() > 0,
        forall|i: int|
            0 <= i < window.len() ==> !bits::num_lt(
                worth(k, window, scores, lambda, Seq::empty(), 0),
                #[trigger] worth(k, window, scores, lambda, Seq::empty(), i),
            ),
    ensures
        selection(k, window, scores, lambda)[0] == 0,
{
    top_pick(k, window, scores, lambda, window.len());
    first_pick(k, window, scores, lambda, window.len());
}

proof fn top_pick<K: Kernel>(
    k: K,
    window: Seq<Option<Seq<u32>>>,
    scores: Seq<u32>,
    lambda: u32,
    m: nat,
)
    requires
        0 < m <= window.len(),
        forall|i: int|
            0 <= i < window.len() ==> !bits::num_lt(
                worth(k, window, scores, lambda, Seq::empty(), 0),
                #[trigger] worth(k, window, scores, lambda, Seq::empty(), i),
            ),
    ensures
        pick(k, window, scores, lambda, Seq::empty(), m) == Some(0int),
    decreases m,
{
    let none = Seq::<int>::empty();
    assert(!none.contains(m - 1));
    if m > 1 {
        top_pick(k, window, scores, lambda, (m - 1) as nat);
    } else {
        assert(pick(k, window, scores, lambda, none, 0) is None);
    }
}

proof fn first_pick<K: Kernel>(
    k: K,
    window: Seq<Option<Seq<u32>>>,
    scores: Seq<u32>,
    lambda: u32,
    steps: nat,
)
    requires
        0 < steps <= window.len(),
    ensures
        picks(k, window, scores, lambda, steps).len() > 0,
        pick(k, window, scores, lambda, Seq::empty(), window.len()) == Some(
            picks(k, window, scores, lambda, steps)[0],
        ),
    decreases steps,
{
    picks_are_fresh(k, window, scores, lambda, steps);
    if steps > 1 {
        first_pick(k, window, scores, lambda, (steps - 1) as nat);
    } else {
        assert(picks(k, window, scores, lambda, 0) =~= Seq::empty());
        pick_is_fresh(k, window, scores, lambda, Seq::empty(), window.len());
    }
}

/// The vectors behind a window of borrowed ones.
pub open spec fn borrowed(window: Seq<Option<&Vec<u32>>>) -> Seq<Option<Seq<u32>>> {
    window.map_values(
        |v: Option<&Vec<u32>>|
            match v {
                Some(x) => Some(x@),
                None => None,
            },
    )
}

/// The places as mathematical integers.
pub open spec fn places(s: Seq<usize>) -> Seq<int> {
    s.map_values(|i: usize| i as int)
}

/// Reorder a window. The result gives for each place the candidate that comes there.
pub fn select<K: Kernel>(
    window: &Vec<Option<&Vec<u32>>>,
    scores: &Vec<u32>,
    lambda: u32,
    k: &K,
) -> (order: Vec<usize>)
    requires
        functional(*k),
        window@.len() == scores@.len(),
    ensures
        places(order@) == selection(*k, borrowed(window@), scores@, lambda),
{
    let n: usize = window.len();
    let ghost w = borrowed(window@);
    let mut order: Vec<usize> = Vec::new();
    let mut taken: Vec<bool> = Vec::new();
    let mut likeness: Vec<u32> = Vec::new();
    let mut i: usize = 0;
    while i < n
        invariant
            i <= n,
            taken@.len() == i,
            likeness@.len() == i,
            forall|j: int| 0 <= j < i ==> !#[trigger] taken@[j],
            forall|j: int| 0 <= j < i ==> #[trigger] likeness@[j] == bits::ZERO,
        decreases n - i,
    {
        taken.push(false);
        likeness.push(bits::ZERO);
        i = i + 1;
    }
    let mut step: usize = 0;
    proof {
        assert(places(order@) =~= Seq::empty());
    }
    while step < n
        invariant
            step <= n,
            n == window@.len(),
            n == scores@.len(),
            functional(*k),
            w == borrowed(window@),
            taken@.len() == n,
            likeness@.len() == n,
            places(order@) == picks(*k, w, scores@, lambda, step as nat),
            forall|j: int|
                0 <= j < n ==> #[trigger] taken@[j] == places(order@).contains(j),
            forall|j: int|
                0 <= j < n && !taken@[j] ==> #[trigger] likeness@[j] == redundancy(
                    *k,
                    w,
                    places(order@),
                    j,
                ),
        decreases n - step,
    {
        let ghost chosen = places(order@);
        let best = pick_best(scores, lambda, &taken, &likeness, k, Ghost(w), Ghost(chosen));
        proof {
            picks_are_fresh(*k, w, scores@, lambda, step as nat);
            picks_are_fresh(*k, w, scores@, lambda, (step + 1) as nat);
            pick_is_fresh(*k, w, scores@, lambda, chosen, n as nat);
        }
        if let Some(p) = best {
            taken.set(p, true);
            order.push(p);
            proof {
                assert(places(order@) =~= chosen.push(p as int));
                assert(places(order@).drop_last() =~= chosen);
                assert forall|j: int| 0 <= j < n implies #[trigger] taken@[j] == places(
                    order@,
                ).contains(j) by {
                    if j == p {
                        assert(places(order@)[step as int] == p);
                    } else if chosen.contains(j) {
                        let x = choose|x: int| 0 <= x < chosen.len() && chosen[x] == j;
                        assert(places(order@)[x] == j);
                    } else if places(order@).contains(j) {
                        let x = choose|x: int|
                            0 <= x < places(order@).len() && places(order@)[x] == j;
                        assert(chosen[x] == j);
                    }
                }
            }
            note_likeness(window, &taken, &mut likeness, p, k, Ghost(chosen));
        }
        step = step + 1;
    }
    order
}

fn pick_best<K: Kernel>(
    scores: &Vec<u32>,
    lambda: u32,
    taken: &Vec<bool>,
    likeness: &Vec<u32>,
    k: &K,
    Ghost(w): Ghost<Seq<Option<Seq<u32>>>>,
    Ghost(chosen): Ghost<Seq<int>>,
) -> (best: Option<usize>)
    requires
        functional(*k),
        w.len() == scores@.len(),
        taken@.len() == w.len(),
        likeness@.len() == w.len(),
        forall|j: int| 0 <= j < w.len() ==> #[trigger] taken@[j] == chosen.contains(j),
        forall|j: int|
            0 <= j < w.len() && !taken@[j] ==> #[trigger] likeness@[j] == redundancy(
                *k,
                w,
                chosen,
                j,
            ),
    ensures
        best is None <==> pick(*k, w, scores@, lambda, chosen, w.len()) is None,
        best matches Some(p) ==> pick(*k, w, scores@, lambda, chosen, w.len()) == Some(p as int)
            && p < w.len(),
{
    let n: usize = scores.len();
    let mut best: Option<(usize, u32)> = None;
    let mut i: usize = 0;
    while i < n
        invariant
            i <= n,
            n == scores@.len(),
            functional(*k),
            w.len() == n,
            taken@.len() == n,
            likeness@.len() == n,
            forall|j: int| 0 <= j < n ==> #[trigger] taken@[j] == chosen.contains(j),
            forall|j: int|
                0 <= j < n && !taken@[j] ==> #[trigger] likeness@[j] == redundancy(
                    *k,
                    w,
                    chosen,
                    j,
                ),
            best is None <==> pick(*k, w, scores@, lambda, chosen, i as nat) is None,
            best matches Some(b) ==> b.0 < i && pick(*k, w, scores@, lambda, chosen, i as nat)
                == Some(b.0 as int) && b.1 == worth(*k, w, scores@, lambda, chosen, b.0 as int),
        decreases n - i,
    {
        if !taken[i] {
            let x: u32 = k.mmr(lambda, scores[i], likeness[i]);
            proof {
                assert(call_ensures(K::mmr, (k, lambda, scores@[i as int], likeness@[i as int]), x));
                assert(x == worth(*k, w, scores@, lambda, chosen, i as int));
            }
            let wins = match best {
                None => true,
                Some(b) => bits::less(b.1, x),
            };
            if wins {
                best = Some((i, x));
            }
        }
        i = i + 1;
    }
    match best {
        Some(b) => Some(b.0),
        None => None,
    }
}

fn note_likeness<K: Kernel>(
    window: &Vec<Option<&Vec<u32>>>,
    taken: &Vec<bool>,
    likeness: &mut Vec<u32>,
    p: usize,
    k: &K,
    Ghost(chosen): Ghost<Seq<int>>,
)
    requires
        functional(*k),
        p < window@.len(),
        taken@.len() == window@.len(),
        old(likeness)@.len() == window@.len(),
        forall|j: int|
            0 <= j < window@.len() && !taken@[j] ==> #[trigger] old(likeness)@[j] == redundancy(
                *k,
                borrowed(window@),
                chosen,
                j,
            ),
    ensures
        final(likeness)@.len() == window@.len(),
        forall|j: int|
            0 <= j < window@.len() && !taken@[j] ==> #[trigger] final(likeness)@[j] == redundancy(
                *k,
                borrowed(window@),
                chosen.push(p as int),
                j,
            ),
{
    let ghost w = borrowed(window@);
    let ghost next = chosen.push(p as int);
    proof {
        assert(next.drop_last() =~= chosen);
    }
    if let Some(a) = window[p] {
        let mut i: usize = 0;
        while i < window.len()
            invariant
                i <= window@.len(),
                p < window@.len(),
                functional(*k),
                window@[p as int] == Some(a),
                w == borrowed(window@),
                next == chosen.push(p as int),
                next.drop_last() == chosen,
                taken@.len() == window@.len(),
                likeness@.len() == window@.len(),
                forall|j: int|
                    0 <= j < i && !taken@[j] ==> #[trigger] likeness@[j] == redundancy(
                        *k,
                        w,
                        next,
                        j,
                    ),
                forall|j: int|
                    i <= j < window@.len() && !taken@[j] ==> #[trigger] likeness@[j]
                        == redundancy(*k, w, chosen, j),
            decreases window@.len() - i,
        {
            if !taken[i] {
                if let Some(b) = window[i] {
                    let c: u32 = cosine(k, a, b);
                    proof {
                        assert(w[p as int] == Some(a@));
                        assert(w[i as int] == Some(b@));
                    }
                    let m: u32 = bits::max(likeness[i], c);
                    likeness.set(i, m);
                }
            }
            i = i + 1;
        }
    }
}

/// The vector behind a result, read from the live record.
pub open spec fn vector_at(cols: CollsV, rows: Seq<Seq<u32>>, c: Seq<char>, id: Seq<char>) -> Option<
    Seq<u32>,
> {
    if is_live(cols, (c, id)) {
        Some(rows[cols[c].docs[id].row->0 as int])
    } else {
        None
    }
}

/// The vectors behind the results.
pub open spec fn window_of(cols: CollsV, rows: Seq<Seq<u32>>, hits: Seq<HitV>) -> Seq<
    Option<Seq<u32>>,
> {
    hits.map_values(|h: HitV| vector_at(cols, rows, h.collection, h.id))
}

/// The scores of results.
pub open spec fn scores_of(hits: Seq<HitV>) -> Seq<u32> {
    hits.map_values(|h: HitV| h.score)
}

/// How many results are reordered.
pub open spec fn width(hits: Seq<HitV>) -> int {
    if hits.len() < MAX_DIVERSITY_WINDOW {
        hits.len() as int
    } else {
        MAX_DIVERSITY_WINDOW as int
    }
}

/// A ranking with its head reordered and its tail as it was.
pub open spec fn diversified<K: Kernel>(
    k: K,
    cols: CollsV,
    rows: Seq<Seq<u32>>,
    lambda: u32,
    hits: Seq<HitV>,
) -> Seq<HitV> {
    if hits.len() < 2 {
        hits
    } else {
        let head = hits.take(width(hits));
        selection(k, window_of(cols, rows, head), scores_of(head), lambda).map_values(
            |i: int| head[i],
        ) + hits.skip(width(hits))
    }
}

/// Spreading a ranking out neither adds nor loses a result, and leaves those past the window
/// where they were.
pub proof fn diversity_only_reorders<K: Kernel>(
    k: K,
    cols: CollsV,
    rows: Seq<Seq<u32>>,
    lambda: u32,
    hits: Seq<HitV>,
)
    ensures
        ({
            let out = diversified(k, cols, rows, lambda, hits);
            &&& out.len() == hits.len()
            &&& forall|i: int| width(hits) <= i < hits.len() ==> #[trigger] out[i] == hits[i]
            &&& out.to_multiset() == hits.to_multiset()
        }),
{
    if hits.len() >= 2 {
        let n = width(hits);
        let head = hits.take(n);
        let s = selection(k, window_of(cols, rows, head), scores_of(head), lambda);
        selection_permutes(k, window_of(cols, rows, head), scores_of(head), lambda);
        let moved = s.map_values(|i: int| head[i]);
        places_permute(s, head);
        assert(hits =~= head + hits.skip(n));
        vstd::seq_lib::lemma_multiset_commutative(head, hits.skip(n));
        vstd::seq_lib::lemma_multiset_commutative(moved, hits.skip(n));
    }
}

/// Reading a sequence at each of its places once gives the same elements.
proof fn places_permute<T>(s: Seq<int>, items: Seq<T>)
    requires
        s.len() == items.len(),
        s.no_duplicates(),
        forall|j: int| 0 <= j < s.len() ==> 0 <= #[trigger] s[j] < items.len(),
        forall|i: int| 0 <= i < items.len() ==> #[trigger] s.contains(i),
    ensures
        s.map_values(|i: int| items[i]).to_multiset() == items.to_multiset(),
    decreases items.len(),
{
    broadcast use vstd::seq_lib::group_to_multiset_ensures;

    let read = s.map_values(|i: int| items[i]);
    let n = items.len() as int;
    if n == 0 {
        assert(read =~= items);
    } else {
        // Take the last element out on both sides.
        assert(s.contains(n - 1));
        let j = choose|j: int| 0 <= j < s.len() && s[j] == n - 1;
        let s2 = s.remove(j);
        let items2 = items.drop_last();
        assert forall|x: int| 0 <= x < s2.len() implies 0 <= #[trigger] s2[x] < items2.len() by {
            let y = if x < j {
                x
            } else {
                x + 1
            };
            assert(s2[x] == s[y]);
            assert(s[y] != s[j]);
        }
        assert forall|i: int| 0 <= i < items2.len() implies #[trigger] s2.contains(i) by {
            assert(s.contains(i));
            let y = choose|y: int| 0 <= y < s.len() && s[y] == i;
            let x = if y < j {
                y
            } else {
                y - 1
            };
            assert(s2[x] == i);
        }
        assert(s2.no_duplicates()) by {
            assert forall|a: int, b: int|
                0 <= a < s2.len() && 0 <= b < s2.len() && a != b implies s2[a] != s2[b] by {
                let a1 = if a < j {
                    a
                } else {
                    a + 1
                };
                let b1 = if b < j {
                    b
                } else {
                    b + 1
                };
                assert(s[a1] != s[b1]);
            }
        }
        places_permute(s2, items2);
        assert(s2.map_values(|i: int| items2[i]) =~= read.remove(j));
        assert(read.remove(j).to_multiset() =~= read.to_multiset().remove(read[j]));
        assert(items =~= items2.push(items.last()));
        assert(read =~= read.remove(j).insert(j, items.last()));
        assert(items.to_multiset() =~= items2.to_multiset().insert(items.last()));
        assert(read.to_multiset() =~= read.remove(j).to_multiset().insert(items.last()));
    }
}

impl Store {
    /// Reorder the head of a ranking so that near-identical results stop crowding it. Likeness
    /// is measured on the stored vectors, so a projection does not change it.
    pub fn diversify<K: Kernel>(&self, ranked: Vec<Hit>, lambda: u32, k: &K) -> (out: Vec<Hit>)
        requires
            self.wf(),
            functional(*k),
        ensures
            views(out@) == diversified(
                *k,
                self.index@.collections,
                views(self.rows@),
                lambda,
                views(ranked@),
            ),
    {
        if ranked.len() < 2 {
            return ranked;
        }
        let ghost cols = self.index@.collections;
        let ghost all = views(ranked@);
        let ghost hits = ranked@;
        let n: usize = if ranked.len() < MAX_DIVERSITY_WINDOW {
            ranked.len()
        } else {
            MAX_DIVERSITY_WINDOW
        };
        let ghost head = all.take(n as int);
        let mut window: Vec<Option<&Vec<u32>>> = Vec::new();
        let mut scores: Vec<u32> = Vec::new();
        let mut i: usize = 0;
        while i < n
            invariant
                i <= n <= ranked@.len(),
                self.wf(),
                hits == ranked@,
                all == views(ranked@),
                cols == self.index@.collections,
                head == all.take(n as int),
                window@.len() == i,
                scores@.len() == i,
                forall|j: int|
                    0 <= j < i ==> borrowed(window@)[j] == vector_at(
                        cols,
                        views(self.rows@),
                        (#[trigger] head[j]).collection,
                        head[j].id,
                    ),
                forall|j: int| 0 <= j < i ==> #[trigger] scores@[j] == head[j].score,
            decreases n - i,
        {
            let h = &ranked[i];
            let ghost before = window@;
            let row = self.vector_of(h.collection.as_str(), h.id.as_str());
            window.push(row);
            scores.push(h.score);
            proof {
                assert(head[i as int] == h@);
                assert forall|j: int| 0 <= j < i + 1 implies borrowed(window@)[j] == vector_at(
                    cols,
                    views(self.rows@),
                    (#[trigger] head[j]).collection,
                    head[j].id,
                ) by {
                    if j < i {
                        assert(borrowed(before)[j] == borrowed(window@)[j]);
                    }
                }
            }
            i = i + 1;
        }
        proof {
            assert(borrowed(window@) =~= window_of(cols, views(self.rows@), head));
            assert(scores@ =~= scores_of(head));
            selection_permutes(*k, borrowed(window@), scores@, lambda);
        }
        let order = select(&window, &scores, lambda, k);
        let ghost sel = places(order@);
        let mut slots: Vec<Option<Hit>> = Vec::new();
        let mut rest = reversed(ranked);
        while rest.len() > 0
            invariant
                slots@.len() + rest@.len() == hits.len(),
                forall|j: int|
                    0 <= j < rest@.len() ==> #[trigger] rest@[j] == hits[hits.len() - 1 - j],
                forall|j: int| 0 <= j < slots@.len() ==> #[trigger] slots@[j] == Some(hits[j]),
            decreases rest@.len(),
        {
            if let Some(h) = rest.pop() {
                slots.push(Some(h));
            }
        }
        let mut out: Vec<Hit> = Vec::new();
        let mut j: usize = 0;
        while j < order.len()
            invariant
                j <= order@.len(),
                order@.len() == n <= hits.len(),
                sel == places(order@),
                sel.no_duplicates(),
                forall|x: int| 0 <= x < sel.len() ==> 0 <= #[trigger] sel[x] < n,
                slots@.len() == hits.len(),
                out@.len() == j,
                forall|x: int| 0 <= x < j ==> #[trigger] out@[x] == hits[sel[x]],
                forall|x: int| n <= x < hits.len() ==> #[trigger] slots@[x] == Some(hits[x]),
                forall|x: int|
                    j <= x < sel.len() ==> slots@[#[trigger] sel[x]] == Some(hits[sel[x]]),
            decreases order@.len() - j,
        {
            let ghost before = slots@;
            let at: usize = order[j];
            proof {
                assert(sel[j as int] == at);
            }
            let mut taken: Option<Hit> = None;
            std::mem::swap(&mut taken, &mut slots[at]);
            proof {
                assert(slots@ =~= before.update(at as int, None));
                assert forall|x: int| j + 1 <= x < sel.len() implies slots@[#[trigger] sel[x]]
                    == Some(hits[sel[x]]) by {
                    assert(sel[x] != sel[j as int]);
                }
            }
            if let Some(h) = taken {
                out.push(h);
            }
            j = j + 1;
        }
        let mut t: usize = n;
        while t < slots.len()
            invariant
                n <= t <= hits.len(),
                slots@.len() == hits.len(),
                out@.len() == t,
                sel.len() == n,
                forall|x: int| 0 <= x < n ==> #[trigger] out@[x] == hits[sel[x]],
                forall|x: int| n <= x < t ==> #[trigger] out@[x] == hits[x],
                forall|x: int| t <= x < hits.len() ==> #[trigger] slots@[x] == Some(hits[x]),
            decreases slots@.len() - t,
        {
            let ghost before = slots@;
            let mut taken: Option<Hit> = None;
            std::mem::swap(&mut taken, &mut slots[t]);
            proof {
                assert(slots@ =~= before.update(t as int, None));
            }
            if let Some(h) = taken {
                out.push(h);
            }
            t = t + 1;
        }
        proof {
            assert(sel == selection(*k, window_of(cols, views(self.rows@), head), scores_of(head), lambda));
            let want = diversified(*k, cols, views(self.rows@), lambda, all);
            assert forall|x: int| 0 <= x < hits.len() implies #[trigger] views(out@)[x]
                == want[x] by {
                if x < n {
                    assert(want[x] == head[sel[x]]);
                    assert(out@[x] == hits[sel[x]]);
                } else {
                    assert(out@[x] == hits[x]);
                }
            }
            assert(views(out@) =~= want);
        }
        out
    }

    /// The stored vector of a document.
    pub(crate) fn vector_of(&self, collection: &str, id: &str) -> (r: Option<&Vec<u32>>)
        requires
            self.wf(),
        ensures
            r is Some <==> is_live(self.index@.collections, (collection@, id@)),
            r matches Some(v) ==> Some(v@) == vector_at(
                self.index@.collections,
                views(self.rows@),
                collection@,
                id@,
            ),
    {
        match self.index.collections.get(collection) {
            Some(col) => match col.docs.get(id) {
                Some(doc) => match doc.row {
                    Some(row) => {
                        proof {
                            assert(is_live(self.index@.collections, (collection@, id@)));
                            assert(self.index@.collections[collection@].docs[id@].row->0
                                < self.rows@.len());
                        }
                        Some(self.row_at(row))
                    },
                    None => None,
                },
                None => None,
            },
            None => None,
        }
    }
}

} // verus!
