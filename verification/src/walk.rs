//! Candidates that an index walk surfaces: whose rows they are, and what becomes of them.

use vstd::prelude::*;

use crate::dict::ordered;
use crate::index::{is_live, CollV, CollsV, Collection, DocV};
use crate::kernel::{functional, measure, measured, Kernel};
use crate::model::SearchOpts;
use crate::order::same;
use crate::plan::{no_candidates, Candidates};
use crate::rank::{clears, clears_floor, Scored, ScoredV, TopK};
use crate::scan::names;
use crate::scoring::adjusted;
use crate::store::Store;
use crate::value::{admits, passes};

verus! {

// ── Whose a row is ──────────────────────────────────────────────────────────

/// The document of a collection that has `row`; the last by id where several say so.
pub open spec fn owner_in(entries: Seq<(Seq<char>, DocV)>, row: u64) -> Option<Seq<char>>
    decreases entries.len(),
{
    if entries.len() == 0 {
        None
    } else if entries.last().1.row == Some(row) {
        Some(entries.last().0)
    } else {
        owner_in(entries.drop_last(), row)
    }
}

/// The document that has `row`; the last by collection and id where several say so.
pub open spec fn owner(colls: Seq<(Seq<char>, CollV)>, row: u64) -> Option<(Seq<char>, Seq<char>)>
    decreases colls.len(),
{
    if colls.len() == 0 {
        None
    } else {
        match owner_in(ordered(colls.last().1.docs), row) {
            Some(id) => Some((colls.last().0, id)),
            None => owner(colls.drop_last(), row),
        }
    }
}

/// The document at a place of the index.
pub open spec fn doc_at(colls: Seq<(Seq<char>, CollV)>, at: Option<(usize, usize)>) -> Option<
    (Seq<char>, Seq<char>),
> {
    match at {
        Some((i, j)) => Some(
            (colls[i as int].0, ordered(colls[i as int].1.docs)[j as int].0),
        ),
        None => None,
    }
}

/// A place of the index.
pub open spec fn is_place(colls: Seq<(Seq<char>, CollV)>, at: Option<(usize, usize)>) -> bool {
    at matches Some((i, j)) ==> i < colls.len() && j < ordered(colls[i as int].1.docs).len()
}

/// `map` gives the owner of every row.
pub open spec fn owners(map: Seq<Option<(usize, usize)>>, cols: CollsV, rows: nat) -> bool {
    let colls = ordered(cols);
    &&& map.len() == rows
    &&& forall|r: int|
        0 <= r < rows ==> is_place(colls, #[trigger] map[r]) && doc_at(colls, map[r]) == owner(
            colls,
            r as u64,
        )
}

proof fn owner_in_is_there(entries: Seq<(Seq<char>, DocV)>, row: u64)
    ensures
        owner_in(entries, row) matches Some(id) ==> exists|j: int|
            0 <= j < entries.len() && (#[trigger] entries[j]).0 == id && entries[j].1.row == Some(
                row,
            ),
    decreases entries.len(),
{
    if entries.len() > 0 {
        if entries.last().1.row == Some(row) {
            assert(entries[entries.len() - 1] == entries.last());
        } else {
            owner_in_is_there(entries.drop_last(), row);
            if let Some(id) = owner_in(entries, row) {
                let d = entries.drop_last();
                let j = choose|j: int|
                    0 <= j < d.len() && (#[trigger] d[j]).0 == id && d[j].1.row == Some(row);
                assert(entries[j] == d[j]);
            }
        }
    }
}

proof fn owner_is_there(colls: Seq<(Seq<char>, CollV)>, row: u64)
    ensures
        owner(colls, row) matches Some(p) ==> exists|i: int, j: int|
            0 <= i < colls.len() && 0 <= j < ordered(colls[i].1.docs).len() && colls[i].0 == p.0
                && (#[trigger] ordered(colls[i].1.docs)[j]).0 == p.1 && ordered(
                colls[i].1.docs,
            )[j].1.row == Some(row),
    decreases colls.len(),
{
    if colls.len() > 0 {
        let e = ordered(colls.last().1.docs);
        owner_in_is_there(e, row);
        if let Some(p) = owner(colls, row) {
            if let Some(id) = owner_in(e, row) {
                let j = choose|j: int|
                    0 <= j < e.len() && (#[trigger] e[j]).0 == id && e[j].1.row == Some(row);
                let i = colls.len() - 1;
                assert(colls[i] == colls.last());
                assert(ordered(colls[i].1.docs)[j].0 == p.1);
            } else {
                let d = colls.drop_last();
                owner_is_there(d, row);
                let (i, j) = choose|i: int, j: int|
                    0 <= i < d.len() && 0 <= j < ordered(d[i].1.docs).len() && d[i].0 == p.0 && (
                    #[trigger] ordered(d[i].1.docs)[j]).0 == p.1 && ordered(d[i].1.docs)[j].1.row
                        == Some(row);
                assert(colls[i] == d[i]);
                assert(ordered(colls[i].1.docs)[j].0 == p.1);
            }
        }
    }
}

/// The owners of one collection's rows, over those found before.
fn own_rows(col: &Collection, at: usize, map: &mut Vec<Option<(usize, usize)>>, Ghost(colls): Ghost<
    Seq<(Seq<char>, CollV)>,
>)
    requires
        at < colls.len(),
        col@ == colls[at as int].1,
        forall|r: int|
            0 <= r < old(map)@.len() ==> is_place(colls, #[trigger] old(map)@[r]) && doc_at(
                colls,
                old(map)@[r],
            ) == owner(colls.take(at as int), r as u64),
        old(map)@.len() <= u64::MAX,
    ensures
        final(map)@.len() == old(map)@.len(),
        forall|r: int|
            0 <= r < final(map)@.len() ==> is_place(colls, #[trigger] final(map)@[r]) && doc_at(
                colls,
                final(map)@[r],
            ) == owner(colls.take(at + 1), r as u64),
{
    let n: usize = col.docs.len();
    let ghost e = col.docs.entries();
    let ghost start = map@;
    let ghost before = colls.take(at as int);
    let mut j: usize = 0;
    proof {
        assert(e == ordered(colls[at as int].1.docs));
        assert(e.take(0) =~= Seq::empty());
    }
    while j < n
        invariant
            j <= n,
            n == e.len(),
            at < colls.len(),
            e == col.docs.entries(),
            e == ordered(colls[at as int].1.docs),
            map@.len() == start.len(),
            map@.len() <= u64::MAX,
            before == colls.take(at as int),
            forall|r: int|
                0 <= r < map@.len() ==> is_place(colls, #[trigger] map@[r]) && doc_at(colls, map@[r])
                    == match owner_in(e.take(j as int), r as u64) {
                    Some(id) => Some((colls[at as int].0, id)),
                    None => owner(before, r as u64),
                },
        decreases n - j,
    {
        let doc = col.docs.value_at(j);
        let ghost prior = map@;
        proof {
            assert(e.take(j + 1).drop_last() =~= e.take(j as int));
            assert(e.take(j + 1).last() == e[j as int]);
        }
        if let Some(row) = doc.row {
            if (row as u128) < map.len() as u128 {
                map.set(row as usize, Some((at, j)));
            }
        }
        proof {
            assert forall|r: int| 0 <= r < map@.len() implies is_place(colls, #[trigger] map@[r])
                && doc_at(colls, map@[r]) == match owner_in(e.take(j + 1), r as u64) {
                Some(id) => Some((colls[at as int].0, id)),
                None => owner(before, r as u64),
            } by {
                assert(is_place(colls, prior[r]));
                if doc.row == Some(r as u64) {
                    assert(map@[r] == Some((at, j)));
                } else {
                    assert(map@[r] == prior[r]);
                }
            }
        }
        j = j + 1;
    }
    proof {
        assert(e.take(j as int) =~= e);
        let now = colls.take(at + 1);
        assert(now.drop_last() =~= before);
        assert(now.last() == colls[at as int]);
    }
}

impl Store {
    /// Whose each row is; a row that no document has belongs to nobody.
    pub fn row_owners(&self) -> (map: Vec<Option<(usize, usize)>>)
        ensures
            owners(map@, self.index@.collections, self.rows@.len()),
    {
        let rows: usize = self.rows.len();
        let n: usize = self.index.collections.len();
        let ghost colls = ordered(self.index@.collections);
        let mut map: Vec<Option<(usize, usize)>> = Vec::new();
        let mut r: usize = 0;
        while r < rows
            invariant
                r <= rows,
                map@.len() == r,
                forall|x: int| 0 <= x < r ==> #[trigger] map@[x] is None,
            decreases rows - r,
        {
            map.push(None);
            r = r + 1;
        }
        let mut i: usize = 0;
        proof {
            assert(colls.take(0) =~= Seq::empty());
        }
        while i < n
            invariant
                i <= n,
                n == colls.len(),
                rows == self.rows@.len(),
                colls == ordered(self.index@.collections),
                colls == self.index.collections.entries(),
                map@.len() == rows,
                forall|r: int|
                    0 <= r < map@.len() ==> is_place(colls, #[trigger] map@[r]) && doc_at(
                        colls,
                        map@[r],
                    ) == owner(colls.take(i as int), r as u64),
            decreases n - i,
        {
            own_rows(self.index.collections.value_at(i), i, &mut map, Ghost(colls));
            i = i + 1;
        }
        proof {
            assert(colls.take(i as int) =~= colls);
        }
        map
    }
}

// ── What becomes of a candidate ─────────────────────────────────────────────

/// What becomes of a row that a walk surfaces.
pub ghost enum Fate {
    /// No document has it any more.
    Stale,
    OutOfScope,
    Filtered,
    BelowFloor,
    Kept(ScoredV),
}

/// What becomes of a candidate.
pub open spec fn fate<K: Kernel>(
    s: Store,
    k: K,
    q: Seq<u32>,
    opts: SearchOpts,
    scope: Seq<Seq<char>>,
    row: u64,
) -> Fate {
    let cols = s.index@.collections;
    match owner(ordered(cols), row) {
        None => Fate::Stale,
        Some((c, id)) => if !scope.contains(c) {
            Fate::OutOfScope
        } else if !passes(opts.filter, cols[c].docs[id].attrs) {
            Fate::Filtered
        } else {
            let score = adjusted(
                s,
                k,
                opts.rank_by,
                measured(k, s.config.distance, q, s.rows@[row as int]@),
                c,
                id,
            );
            if !clears(opts.min_score, score) {
                Fate::BelowFloor
            } else {
                Fate::Kept(ScoredV { score, collection: c, id })
            }
        },
    }
}

/// The candidates that are kept, in the order surfaced.
pub open spec fn survivors<K: Kernel>(
    s: Store,
    k: K,
    q: Seq<u32>,
    opts: SearchOpts,
    scope: Seq<Seq<char>>,
    rows: Seq<u64>,
) -> Seq<ScoredV>
    decreases rows.len(),
{
    if rows.len() == 0 {
        Seq::empty()
    } else {
        let rest = survivors(s, k, q, opts, scope, rows.drop_last());
        match fate(s, k, q, opts, scope, rows.last()) {
            Fate::Kept(x) => rest.push(x),
            _ => rest,
        }
    }
}

/// How many candidates met each fate.
pub open spec fn tally<K: Kernel>(
    s: Store,
    k: K,
    q: Seq<u32>,
    opts: SearchOpts,
    scope: Seq<Seq<char>>,
    rows: Seq<u64>,
) -> Candidates
    decreases rows.len(),
{
    if rows.len() == 0 {
        no_candidates()
    } else {
        let t = tally(s, k, q, opts, scope, rows.drop_last());
        let t = Candidates { surfaced: (t.surfaced + 1) as u64, ..t };
        match fate(s, k, q, opts, scope, rows.last()) {
            Fate::Stale => Candidates { dropped_stale: (t.dropped_stale + 1) as u64, ..t },
            Fate::OutOfScope => Candidates {
                dropped_out_of_scope: (t.dropped_out_of_scope + 1) as u64,
                ..t
            },
            Fate::Filtered => Candidates { dropped_filtered: (t.dropped_filtered + 1) as u64, ..t },
            Fate::BelowFloor => Candidates {
                dropped_min_score: (t.dropped_min_score + 1) as u64,
                ..t
            },
            Fate::Kept(_) => Candidates { survived: (t.survived + 1) as u64, ..t },
        }
    }
}

/// Every surfaced candidate is accounted for: it survived, or was dropped for one reason.
pub proof fn tally_balances<K: Kernel>(
    s: Store,
    k: K,
    q: Seq<u32>,
    opts: SearchOpts,
    scope: Seq<Seq<char>>,
    rows: Seq<u64>,
)
    requires
        rows.len() <= u64::MAX,
    ensures
        tally(s, k, q, opts, scope, rows).balanced(),
        tally(s, k, q, opts, scope, rows).surfaced == rows.len(),
        tally(s, k, q, opts, scope, rows).survived == survivors(s, k, q, opts, scope, rows).len(),
    decreases rows.len(),
{
    if rows.len() > 0 {
        tally_balances(s, k, q, opts, scope, rows.drop_last());
    }
}

/// A walk never brings back what is gone: every survivor is a live document in scope that the
/// filter admits.
pub proof fn survivors_are_sound<K: Kernel>(
    s: Store,
    k: K,
    q: Seq<u32>,
    opts: SearchOpts,
    scope: Seq<Seq<char>>,
    rows: Seq<u64>,
    x: ScoredV,
)
    requires
        crate::scan::listable(s.index@.collections),
        survivors(s, k, q, opts, scope, rows).contains(x),
    ensures
        scope.contains(x.collection),
        is_live(s.index@.collections, (x.collection, x.id)),
        passes(opts.filter, s.index@.collections[x.collection].docs[x.id].attrs),
        clears(opts.min_score, x.score),
    decreases rows.len(),
{
    let all = survivors(s, k, q, opts, scope, rows);
    let i = choose|i: int| 0 <= i < all.len() && all[i] == x;
    if rows.len() > 0 {
        let rest = survivors(s, k, q, opts, scope, rows.drop_last());
        if i < rest.len() {
            assert(rest[i] == x);
            survivors_are_sound(s, k, q, opts, scope, rows.drop_last(), x);
        } else {
            owner_is_live(s.index@.collections, rows.last());
        }
    }
}

/// The owner of a row is a live document that has the row.
pub proof fn owner_is_live(cols: CollsV, row: u64)
    requires
        crate::scan::listable(cols),
    ensures
        owner(ordered(cols), row) matches Some((c, id)) ==> is_live(cols, (c, id))
            && cols[c].docs[id].row == Some(row),
{
    let colls = ordered(cols);
    owner_is_there(colls, row);
    if let Some(p) = owner(colls, row) {
        let (i, j) = choose|i: int, j: int|
            0 <= i < colls.len() && 0 <= j < ordered(colls[i].1.docs).len() && colls[i].0 == p.0
                && (#[trigger] ordered(colls[i].1.docs)[j]).0 == p.1 && ordered(
                colls[i].1.docs,
            )[j].1.row == Some(row);
        crate::scan::listable_at(cols, i);
        crate::dict::to_map_at(ordered(cols[p.0].docs), j);
    }
}

fn in_scope(collections: &[&str], name: &str) -> (r: bool)
    ensures
        r == names(collections@).contains(name@),
{
    let mut i: usize = 0;
    while i < collections.len()
        invariant
            i <= collections@.len(),
            forall|j: int| 0 <= j < i ==> #[trigger] names(collections@)[j] != name@,
        decreases collections@.len() - i,
    {
        if same(collections[i], name) {
            proof {
                assert(names(collections@)[i as int] == name@);
            }
            return true;
        }
        i = i + 1;
    }
    false
}

impl Store {
    /// Resolve surfaced rows to their documents, drop those that are stale, out of scope or
    /// filtered out, score the rest exactly and offer what clears the floor.
    #[verifier::rlimit(60)]
    pub fn offer_candidates<K: Kernel>(
        &self,
        rows: &Vec<u64>,
        collections: &[&str],
        q: &Vec<u32>,
        opts: &SearchOpts,
        k: &K,
        best_so_far: &mut TopK,
    ) -> (acc: Candidates)
        requires
            self.wf(),
            functional(*k),
            old(best_so_far).wf(),
        ensures
            final(best_so_far).wf(),
            final(best_so_far).bound() == old(best_so_far).bound(),
            final(best_so_far).offered() == old(best_so_far).offered() + survivors(
                *self,
                *k,
                q@,
                *opts,
                names(collections@),
                rows@,
            ),
            acc == tally(*self, *k, q@, *opts, names(collections@), rows@),
            acc.balanced(),
    {
        let map = self.row_owners();
        let n: usize = self.index.collections.len();
        crate::scan::check_listable(&self.index.collections);
        let ghost cols = self.index@.collections;
        let ghost colls = ordered(cols);
        let ghost scope = names(collections@);
        let ghost start = best_so_far.offered();
        let mut acc = Candidates::default();
        let mut i: usize = 0;
        proof {
            assert(rows@.take(0) =~= Seq::empty());
            assert(start + Seq::<ScoredV>::empty() =~= start);
        }
        while i < rows.len()
            invariant
                i <= rows@.len(),
                self.wf(),
                functional(*k),
                cols == self.index@.collections,
                crate::scan::listable(cols),
                colls == ordered(cols),
                colls == self.index.collections.entries(),
                n == colls.len(),
                scope == names(collections@),
                owners(map@, cols, self.rows@.len()),
                best_so_far.wf(),
                best_so_far.bound() == old(best_so_far).bound(),
                best_so_far.offered() == start + survivors(
                    *self,
                    *k,
                    q@,
                    *opts,
                    scope,
                    rows@.take(i as int),
                ),
                acc == tally(*self, *k, q@, *opts, scope, rows@.take(i as int)),
                acc.surfaced == i,
                acc.balanced(),
            decreases rows@.len() - i,
        {
            let row: u64 = rows[i];
            let ghost prior = best_so_far.offered();
            proof {
                assert(rows@.take(i + 1).drop_last() =~= rows@.take(i as int));
                assert(rows@.take(i + 1).last() == row);
                owner_is_live(cols, row);
                if row >= self.rows@.len() {
                    if let Some((c, id)) = owner(colls, row) {
                        assert(cols[c].docs[id].row->0 < self.rows@.len());
                    }
                }
                if row < self.rows@.len() {
                    assert(is_place(colls, map@[row as int]));
                }
            }
            acc.surfaced = acc.surfaced + 1;
            let at = if (row as u128) < self.rows.len() as u128 {
                map[row as usize]
            } else {
                None
            };
            match at {
                None => {
                    acc.dropped_stale = acc.dropped_stale + 1;
                },
                Some((ci, di)) => {
                    let name = self.index.collections.key_at(ci).as_str();
                    let col = self.index.collections.value_at(ci);
                    let docs: usize = col.docs.len();
                    let id = col.docs.key_at(di).as_str();
                    let doc = col.docs.value_at(di);
                    proof {
                        crate::scan::listable_at(cols, ci as int);
                        crate::dict::to_map_at(ordered(cols[name@].docs), di as int);
                        assert(owner(colls, row) == Some((name@, id@)));
                    }
                    if !in_scope(collections, name) {
                        acc.dropped_out_of_scope = acc.dropped_out_of_scope + 1;
                    } else if !admits(&opts.filter, &doc.attrs) {
                        acc.dropped_filtered = acc.dropped_filtered + 1;
                    } else {
                        let base: u32 = measure(k, self.config.distance, q, self.row_at(row));
                        let score: u32 = self.ranked_score(&opts.rank_by, base, name, id, k);
                        if !clears_floor(opts.min_score, score) {
                            acc.dropped_min_score = acc.dropped_min_score + 1;
                        } else {
                            acc.survived = acc.survived + 1;
                            best_so_far.offer(
                                Scored { score, collection: name.to_owned(), id: id.to_owned() },
                            );
                        }
                    }
                },
            }
            proof {
                assert(best_so_far.offered() =~= start + survivors(
                    *self,
                    *k,
                    q@,
                    *opts,
                    scope,
                    rows@.take(i + 1),
                ));
            }
            i = i + 1;
        }
        proof {
            assert(rows@.take(i as int) =~= rows@);
        }
        acc
    }
}

} // verus!
