//! Scoring a scan: piece by piece, so that pieces can be scored apart and merged.

use vstd::prelude::*;

use crate::bits;
use crate::dict::views;
use crate::host::{check, may_go_on, minds, Host, CHECK_EVERY};
use crate::kernel::{adjust_of, functional, measure, measured, plus_of, scaled_of, Kernel};
use crate::model::{bare_hit, project, Distance, Hit, HitV, Projection, RankBy, SearchOpts};
use crate::order::{comparable, same, top, top_of_prefix, top_of_tops};
use crate::rank::{
    clears, clears_floor, rank_terms, ranking, ranking_is_order, ranking_is_total, terms, times,
    saturating_times, Scored, ScoredV, TopK,
};
use crate::read::attrs_at;
use crate::scan::{ScanItem, ScanV};
use crate::store::{Store, StoreError};
use crate::value::Attrs;

verus! {

/// The least work, rows times dimension, for which a scan is split.
pub const PARALLEL_SCAN_WORK_FLOOR: usize = 1_048_576;

// ── Scores ──────────────────────────────────────────────────────────────────

/// A base score under the ranking expression, which reads the live record.
pub open spec fn adjusted<K: Kernel>(
    s: Store,
    k: K,
    rank_by: Option<RankBy>,
    base: u32,
    c: Seq<char>,
    id: Seq<char>,
) -> u32 {
    match rank_by {
        None => base,
        Some(RankBy::Decay(d)) => match attrs_at(s.index@.collections, c, id) {
            Some(attrs) => adjust_of(k, d, base, terms(d, attrs)),
            None => base,
        },
    }
}

/// The score of a scanned document.
pub open spec fn score_for<K: Kernel>(s: Store, k: K, q: Seq<u32>, opts: SearchOpts, x: ScanV) -> u32 {
    adjusted(
        s,
        k,
        opts.rank_by,
        measured(k, s.config.distance, q, s.rows@[x.row as int]@),
        x.collection,
        x.id,
    )
}

/// The scored documents of a scan that clear the floor, in the scan's order.
pub open spec fn scored<K: Kernel>(
    s: Store,
    k: K,
    q: Seq<u32>,
    opts: SearchOpts,
    scan: Seq<ScanV>,
) -> Seq<ScoredV>
    decreases scan.len(),
{
    if scan.len() == 0 {
        Seq::empty()
    } else {
        let rest = scored(s, k, q, opts, scan.drop_last());
        let x = scan.last();
        let score = score_for(s, k, q, opts, x);
        if clears(opts.min_score, score) {
            rest.push(ScoredV { score, collection: x.collection, id: x.id })
        } else {
            rest
        }
    }
}

/// The best `top_k` documents of a scan.
pub open spec fn best<K: Kernel>(
    s: Store,
    k: K,
    q: Seq<u32>,
    opts: SearchOpts,
    top_k: usize,
    scan: Seq<ScanV>,
) -> Seq<ScoredV> {
    top(scored(s, k, q, opts, scan), top_k as int, ranking())
}

/// Every scanned row exists.
pub open spec fn in_rows(s: Store, scan: Seq<ScanV>) -> bool {
    forall|i: int| 0 <= i < scan.len() ==> (#[trigger] scan[i]).row < s.rows@.len()
}

/// No document comes twice.
pub open spec fn each_once(scan: Seq<ScanV>) -> bool {
    forall|i: int, j: int|
        0 <= i < j < scan.len() ==> (#[trigger] scan[i]).collection != (
        #[trigger] scan[j]).collection || scan[i].id != scan[j].id
}

/// A ranked document as a result, its attributes read from the live record.
pub open spec fn hit_for(s: Store, p: Projection, x: ScoredV) -> HitV {
    bare_hit(
        x.collection,
        x.id,
        x.score,
        match attrs_at(s.index@.collections, x.collection, x.id) {
            Some(attrs) => project(p, attrs),
            None => Map::empty(),
        },
    )
}

/// Ranked documents as results.
pub open spec fn hits_for(s: Store, p: Projection, ranked: Seq<ScoredV>) -> Seq<HitV> {
    ranked.map_values(|x: ScoredV| hit_for(s, p, x))
}

/// Scoring a scan in two parts scores the whole.
pub proof fn scored_concat<K: Kernel>(
    s: Store,
    k: K,
    q: Seq<u32>,
    opts: SearchOpts,
    a: Seq<ScanV>,
    b: Seq<ScanV>,
)
    ensures
        scored(s, k, q, opts, a + b) == scored(s, k, q, opts, a) + scored(s, k, q, opts, b),
    decreases b.len(),
{
    if b.len() == 0 {
        assert(a + b =~= a);
        assert(scored(s, k, q, opts, a) + Seq::<ScoredV>::empty() =~= scored(s, k, q, opts, a));
    } else {
        scored_concat(s, k, q, opts, a, b.drop_last());
        assert((a + b).drop_last() =~= a + b.drop_last());
        assert((a + b).last() == b.last());
        assert(scored(s, k, q, opts, a + b) =~= scored(s, k, q, opts, a) + scored(
            s,
            k,
            q,
            opts,
            b,
        ));
    }
}

/// Every scored document is one of the scan, with its score.
proof fn scored_from_scan<K: Kernel>(s: Store, k: K, q: Seq<u32>, opts: SearchOpts, scan: Seq<ScanV>)
    ensures
        forall|x: ScoredV| #[trigger]
            scored(s, k, q, opts, scan).contains(x) ==> exists|i: int|
                0 <= i < scan.len() && (#[trigger] scan[i]).collection == x.collection
                    && scan[i].id == x.id && x.score == score_for(s, k, q, opts, scan[i]),
    decreases scan.len(),
{
    if scan.len() > 0 {
        let d = scan.drop_last();
        scored_from_scan(s, k, q, opts, d);
        let all = scored(s, k, q, opts, scan);
        assert forall|x: ScoredV| #[trigger] all.contains(x) implies exists|i: int|
            0 <= i < scan.len() && (#[trigger] scan[i]).collection == x.collection && scan[i].id
                == x.id && x.score == score_for(s, k, q, opts, scan[i]) by {
            let j = choose|j: int| 0 <= j < all.len() && all[j] == x;
            let rest = scored(s, k, q, opts, d);
            if j < rest.len() {
                assert(rest[j] == x);
                assert(rest.contains(x));
                let i = choose|i: int|
                    0 <= i < d.len() && (#[trigger] d[i]).collection == x.collection && d[i].id
                        == x.id && x.score == score_for(s, k, q, opts, d[i]);
                assert(scan[i] == d[i]);
            } else {
                assert(scan[scan.len() - 1] == scan.last());
            }
        }
    }
}

/// The scored documents of a scan in which no document comes twice are all ordered.
proof fn scored_comparable<K: Kernel>(
    s: Store,
    k: K,
    q: Seq<u32>,
    opts: SearchOpts,
    scan: Seq<ScanV>,
)
    requires
        each_once(scan),
    ensures
        comparable(scored(s, k, q, opts, scan), ranking()),
{
    scored_from_scan(s, k, q, opts, scan);
    let all = scored(s, k, q, opts, scan);
    assert forall|x: ScoredV, y: ScoredV| #[trigger] all.contains(x) && #[trigger] all.contains(y)
        && x != y implies ranking()(x, y) || ranking()(y, x) by {
        let i = choose|i: int|
            0 <= i < scan.len() && (#[trigger] scan[i]).collection == x.collection && scan[i].id
                == x.id && x.score == score_for(s, k, q, opts, scan[i]);
        let j = choose|j: int|
            0 <= j < scan.len() && (#[trigger] scan[j]).collection == y.collection && scan[j].id
                == y.id && y.score == score_for(s, k, q, opts, scan[j]);
        if i == j {
            assert(x == y);
        } else if i < j {
            assert(scan[i].collection != scan[j].collection || scan[i].id != scan[j].id);
            ranking_is_total(x, y);
        } else {
            assert(scan[j].collection != scan[i].collection || scan[j].id != scan[i].id);
            ranking_is_total(x, y);
        }
    }
}

// ── Splitting a scan ────────────────────────────────────────────────────────

/// How many workers a scan of `n` rows is split over.
pub open spec fn workers_for(s: Store, n: usize) -> usize {
    if s.config.query_threads > 1 && times(n, s.config.dimension) >= PARALLEL_SCAN_WORK_FLOOR {
        s.config.query_threads
    } else {
        1
    }
}

/// The pieces of a scan between the given ends.
pub open spec fn pieces<T>(scan: Seq<T>, ends: Seq<int>) -> Seq<Seq<T>> {
    Seq::new(
        ends.len(),
        |i: int|
            scan.subrange(
                if i == 0 {
                    0
                } else {
                    ends[i - 1]
                },
                ends[i],
            ),
    )
}

/// The ends ascend and the last of them is the end of the scan.
pub open spec fn partition(n: int, ends: Seq<int>) -> bool {
    &&& ends.len() > 0
    &&& ends.last() == n
    &&& forall|i: int| 0 <= i < ends.len() ==> 0 <= #[trigger] ends[i] <= n
    &&& forall|i: int, j: int| 0 <= i < j < ends.len() ==> #[trigger] ends[i] <= #[trigger] ends[j]
}

/// The best `top_k` of each piece, one after the other.
pub open spec fn local_bests<K: Kernel>(
    s: Store,
    k: K,
    q: Seq<u32>,
    opts: SearchOpts,
    top_k: usize,
    scan: Seq<ScanV>,
    ends: Seq<int>,
) -> Seq<ScoredV>
    decreases ends.len(),
{
    if ends.len() == 0 {
        Seq::empty()
    } else {
        local_bests(s, k, q, opts, top_k, scan, ends.drop_last()) + best(
            s,
            k,
            q,
            opts,
            top_k,
            pieces(scan, ends).last(),
        )
    }
}

proof fn pieces_prefix<T>(scan: Seq<T>, ends: Seq<int>)
    requires
        ends.len() > 0,
        forall|i: int| 0 <= i < ends.len() ==> 0 <= #[trigger] ends[i] <= scan.len(),
        forall|i: int, j: int|
            0 <= i < j < ends.len() ==> #[trigger] ends[i] <= #[trigger] ends[j],
    ensures
        ({
            let from = if ends.len() == 1 {
                0
            } else {
                ends[ends.len() - 2]
            };
            scan.take(ends.last()) == scan.take(from) + pieces(scan, ends).last()
        }),
{
    let from = if ends.len() == 1 {
        0
    } else {
        ends[ends.len() - 2]
    };
    if ends.len() > 1 {
        assert(ends[ends.len() - 2] <= ends[ends.len() - 1]);
    }
    assert(scan.take(ends.last()) =~= scan.take(from) + scan.subrange(from, ends.last()));
}

/// A split scan ranks as an unsplit one: merging the best of the pieces, however the scan is cut,
/// gives the best of the whole. No document may come twice in the scan.
pub proof fn split_ranks_alike<K: Kernel>(
    s: Store,
    k: K,
    q: Seq<u32>,
    opts: SearchOpts,
    top_k: usize,
    scan: Seq<ScanV>,
    ends: Seq<int>,
)
    requires
        each_once(scan),
        partition(scan.len() as int, ends),
    ensures
        top(local_bests(s, k, q, opts, top_k, scan, ends), top_k as int, ranking()) == best(
            s,
            k,
            q,
            opts,
            top_k,
            scan,
        ),
{
    split_prefix(s, k, q, opts, top_k, scan, ends);
    assert(scan.take(ends.last()) =~= scan);
}

proof fn split_prefix<K: Kernel>(
    s: Store,
    k: K,
    q: Seq<u32>,
    opts: SearchOpts,
    top_k: usize,
    scan: Seq<ScanV>,
    ends: Seq<int>,
)
    requires
        each_once(scan),
        forall|i: int| 0 <= i < ends.len() ==> 0 <= #[trigger] ends[i] <= scan.len(),
        forall|i: int, j: int|
            0 <= i < j < ends.len() ==> #[trigger] ends[i] <= #[trigger] ends[j],
    ensures
        top(local_bests(s, k, q, opts, top_k, scan, ends), top_k as int, ranking()) == best(
            s,
            k,
            q,
            opts,
            top_k,
            scan.take(
                if ends.len() == 0 {
                    0
                } else {
                    ends.last()
                },
            ),
        ),
    decreases ends.len(),
{
    ranking_is_order();
    let m = top_k as int;
    if ends.len() == 0 {
        assert(scan.take(0) =~= Seq::empty());
    } else {
        let d = ends.drop_last();
        split_prefix(s, k, q, opts, top_k, scan, d);
        let from = if d.len() == 0 {
            0
        } else {
            d.last()
        };
        if d.len() > 0 {
            assert(ends[d.len() - 1] == d.last());
            assert(ends[ends.len() - 2] == d.last());
        }
        let a = scan.take(from);
        let b = pieces(scan, ends).last();
        pieces_prefix(scan, ends);
        scored_concat(s, k, q, opts, a, b);
        let sa = scored(s, k, q, opts, a);
        let sb = scored(s, k, q, opts, b);
        let whole = a + b;
        assert forall|i: int, j: int| 0 <= i < j < whole.len() implies (
        #[trigger] whole[i]).collection != (#[trigger] whole[j]).collection || whole[i].id
            != whole[j].id by {
            assert(whole[i] == scan[i]);
            assert(whole[j] == scan[j]);
        }
        scored_comparable(s, k, q, opts, whole);
        top_of_tops(sa, sb, m, ranking());
        let l = local_bests(s, k, q, opts, top_k, scan, d);
        top_of_prefix(l, top(sb, m, ranking()), m, ranking());
    }
}

impl Store {
    /// How many workers a scan of `n` rows is split over: the configured number, where the work
    /// is worth it, else one.
    pub fn parallel_workers(&self, n: usize) -> (r: usize)
        ensures
            r == workers_for(*self, n),
            r >= 1,
    {
        let threads: usize = self.config.query_threads;
        if threads > 1 && saturating_times(n, self.config.dimension) >= PARALLEL_SCAN_WORK_FLOOR {
            threads
        } else {
            1
        }
    }

    /// A base score under the ranking expression.
    pub fn ranked_score<K: Kernel>(
        &self,
        rank_by: &Option<RankBy>,
        base: u32,
        collection: &str,
        id: &str,
        k: &K,
    ) -> (r: u32)
        requires
            functional(*k),
        ensures
            r == adjusted(*self, *k, *rank_by, base, collection@, id@),
    {
        match rank_by {
            None => base,
            Some(RankBy::Decay(d)) => match self.attrs_of(collection, id) {
                Some(attrs) => {
                    let t = rank_terms(d, attrs);
                    let x: u32 = k.adjust(d, base, t);
                    proof {
                        assert(call_ensures(K::adjust, (k, d, base, t), x));
                    }
                    x
                },
                None => base,
            },
        }
    }

    /// The best `top_k` documents of the part of a scan from `from` to `to`, unless the query is
    /// cancelled.
    pub fn score_chunk<K: Kernel, H: Host>(
        &self,
        q: &Vec<u32>,
        scan: &Vec<ScanItem>,
        from: usize,
        to: usize,
        opts: &SearchOpts,
        top_k: usize,
        k: &K,
        h: &H,
    ) -> (r: Result<Vec<Scored>, StoreError>)
        requires
            functional(*k),
            from <= to <= scan@.len(),
            in_rows(*self, views(scan@)),
        ensures
            minds(*h, from < to, r),
            r matches Ok(out) ==> views(out@) == best(
                *self,
                *k,
                q@,
                *opts,
                top_k,
                views(scan@).subrange(from as int, to as int),
            ),
    {
        let mut top_so_far = TopK::new(top_k);
        if let Err(e) = self.offer_blocks(q, scan, from, to, opts, k, h, &mut top_so_far) {
            return Err(e);
        }
        proof {
            assert(top_so_far.offered() =~= scored(
                *self,
                *k,
                q@,
                *opts,
                views(scan@).subrange(from as int, to as int),
            ));
        }
        Ok(top_so_far.into_sorted())
    }

    /// Score part of a scan block by block, each only if the query is still wanted.
    pub(crate) fn offer_blocks<K: Kernel, H: Host>(
        &self,
        q: &Vec<u32>,
        scan: &Vec<ScanItem>,
        from: usize,
        to: usize,
        opts: &SearchOpts,
        k: &K,
        h: &H,
        best_so_far: &mut TopK,
    ) -> (r: Result<(), StoreError>)
        requires
            functional(*k),
            from <= to <= scan@.len(),
            in_rows(*self, views(scan@)),
            old(best_so_far).wf(),
        ensures
            minds(*h, from < to, r),
            final(best_so_far).wf(),
            final(best_so_far).bound() == old(best_so_far).bound(),
            r is Ok ==> final(best_so_far).offered() == old(best_so_far).offered() + scored(
                *self,
                *k,
                q@,
                *opts,
                views(scan@).subrange(from as int, to as int),
            ),
    {
        let ghost all = views(scan@);
        let ghost start = best_so_far.offered();
        let mut i: usize = from;
        proof {
            assert(all.subrange(from as int, from as int) =~= Seq::empty());
            assert(start + Seq::<ScoredV>::empty() =~= start);
        }
        while i < to
            invariant
                from <= i <= to <= scan@.len(),
                all == views(scan@),
                functional(*k),
                in_rows(*self, all),
                from < i ==> may_go_on(*h),
                best_so_far.wf(),
                best_so_far.bound() == old(best_so_far).bound(),
                best_so_far.offered() == start + scored(
                    *self,
                    *k,
                    q@,
                    *opts,
                    all.subrange(from as int, i as int),
                ),
            decreases to - i,
        {
            if let Err(e) = check(h) {
                return Err(e);
            }
            let end: usize = if to - i > CHECK_EVERY {
                i + CHECK_EVERY
            } else {
                to
            };
            self.offer_scan(q, scan, i, end, opts, k, best_so_far);
            proof {
                let a = all.subrange(from as int, i as int);
                let b = all.subrange(i as int, end as int);
                assert(a + b =~= all.subrange(from as int, end as int));
                scored_concat(*self, *k, q@, *opts, a, b);
                assert(best_so_far.offered() =~= start + scored(
                    *self,
                    *k,
                    q@,
                    *opts,
                    all.subrange(from as int, end as int),
                ));
            }
            i = end;
        }
        Ok(())
    }

    /// Score part of a scan and offer what clears the floor.
    pub(crate) fn offer_scan<K: Kernel>(
        &self,
        q: &Vec<u32>,
        scan: &Vec<ScanItem>,
        from: usize,
        to: usize,
        opts: &SearchOpts,
        k: &K,
        best_so_far: &mut TopK,
    )
        requires
            functional(*k),
            from <= to <= scan@.len(),
            in_rows(*self, views(scan@)),
            old(best_so_far).wf(),
        ensures
            final(best_so_far).wf(),
            final(best_so_far).bound() == old(best_so_far).bound(),
            final(best_so_far).offered() == old(best_so_far).offered() + scored(
                *self,
                *k,
                q@,
                *opts,
                views(scan@).subrange(from as int, to as int),
            ),
    {
        let ghost all = views(scan@);
        let ghost start = best_so_far.offered();
        let mut i: usize = from;
        proof {
            assert(all.subrange(from as int, from as int) =~= Seq::empty());
            assert(start + Seq::<ScoredV>::empty() =~= start);
        }
        while i < to
            invariant
                from <= i <= to <= scan@.len(),
                all == views(scan@),
                functional(*k),
                in_rows(*self, all),
                best_so_far.wf(),
                best_so_far.bound() == old(best_so_far).bound(),
                best_so_far.offered() == start + scored(
                    *self,
                    *k,
                    q@,
                    *opts,
                    all.subrange(from as int, i as int),
                ),
            decreases to - i,
        {
            let x = &scan[i];
            proof {
                assert(all[i as int] == x@);
                assert(all.subrange(from as int, i + 1).drop_last() =~= all.subrange(
                    from as int,
                    i as int,
                ));
                assert(all.subrange(from as int, i + 1).last() == x@);
            }
            let base: u32 = measure(k, self.config.distance, q, self.row_at(x.row));
            let score: u32 = self.ranked_score(
                &opts.rank_by,
                base,
                x.collection.as_str(),
                x.id.as_str(),
                k,
            );
            if clears_floor(opts.min_score, score) {
                let ghost before = best_so_far.offered();
                let c = Scored {
                    score,
                    collection: x.collection.as_str().to_owned(),
                    id: x.id.as_str().to_owned(),
                };
                best_so_far.offer(c);
                proof {
                    assert(best_so_far.offered() =~= start + scored(
                        *self,
                        *k,
                        q@,
                        *opts,
                        all.subrange(from as int, i + 1),
                    ));
                }
            }
            i = i + 1;
        }
    }

    /// Score a whole scan, unless the query is cancelled.
    pub fn rank_scan<K: Kernel, H: Host>(
        &self,
        q: &Vec<u32>,
        scan: &Vec<ScanItem>,
        opts: &SearchOpts,
        top_k: usize,
        k: &K,
        h: &H,
    ) -> (r: Result<Vec<Scored>, StoreError>)
        requires
            functional(*k),
            in_rows(*self, views(scan@)),
        ensures
            minds(*h, scan@.len() > 0, r),
            r matches Ok(out) ==> views(out@) == best(
                *self,
                *k,
                q@,
                *opts,
                top_k,
                views(scan@),
            ),
    {
        proof {
            assert(views(scan@).subrange(0, scan@.len() as int) =~= views(scan@));
        }
        self.score_chunk(q, scan, 0, scan.len(), opts, top_k, k, h)
    }

    /// Score the few candidates that a first pass has left.
    pub fn rescore<K: Kernel>(
        &self,
        q: &Vec<u32>,
        scan: &Vec<ScanItem>,
        opts: &SearchOpts,
        top_k: usize,
        k: &K,
    ) -> (out: Vec<Scored>)
        requires
            functional(*k),
            in_rows(*self, views(scan@)),
        ensures
            views(out@) == best(*self, *k, q@, *opts, top_k, views(scan@)),
    {
        let mut top_so_far = TopK::new(top_k);
        self.offer_scan(q, scan, 0, scan.len(), opts, k, &mut top_so_far);
        proof {
            assert(views(scan@).subrange(0, scan@.len() as int) =~= views(scan@));
            assert(top_so_far.offered() =~= scored(*self, *k, q@, *opts, views(scan@)));
        }
        top_so_far.into_sorted()
    }

    /// Ranked documents as results: the one place where a result is built, and the projection
    /// applied.
    pub fn hits_from_topk(&self, ranked: Vec<Scored>, projection: &Projection) -> (out: Vec<Hit>)
        ensures
            views(out@) == hits_for(*self, *projection, views(ranked@)),
    {
        let mut out: Vec<Hit> = Vec::new();
        let mut i: usize = 0;
        while i < ranked.len()
            invariant
                i <= ranked@.len(),
                out@.len() == i,
                forall|j: int|
                    0 <= j < i ==> (#[trigger] out@[j])@ == hit_for(
                        *self,
                        *projection,
                        ranked@[j]@,
                    ),
            decreases ranked@.len() - i,
        {
            let x = &ranked[i];
            let attrs = match self.attrs_of(x.collection.as_str(), x.id.as_str()) {
                Some(attrs) => projection.apply(attrs),
                None => Attrs::new(),
            };
            out.push(Hit::new(x.collection.as_str(), x.id.as_str(), x.score, attrs));
            i = i + 1;
        }
        proof {
            assert(views(out@) =~= hits_for(*self, *projection, views(ranked@)));
        }
        out
    }
}

/// The elements of the lists one after the other.
pub open spec fn joined(lists: Seq<Vec<Scored>>) -> Seq<ScoredV>
    decreases lists.len(),
{
    if lists.len() == 0 {
        Seq::empty()
    } else {
        joined(lists.drop_last()) + views(lists.last()@)
    }
}

/// Merge the rankings of several workers into one.
pub fn merge(locals: Vec<Vec<Scored>>, top_k: usize) -> (out: Vec<Scored>)
    ensures
        views(out@) == top(joined(locals@), top_k as int, ranking()),
{
    let mut merged = TopK::new(top_k);
    let mut i: usize = 0;
    proof {
        assert(locals@.take(0) =~= Seq::empty());
    }
    while i < locals.len()
        invariant
            i <= locals@.len(),
            merged.wf(),
            merged.bound() == top_k,
            merged.offered() == joined(locals@.take(i as int)),
        decreases locals@.len() - i,
    {
        let local = &locals[i];
        let mut j: usize = 0;
        let ghost start = merged.offered();
        proof {
            assert(locals@.take(i + 1).drop_last() =~= locals@.take(i as int));
            assert(locals@.take(i + 1).last() == *local);
            assert(start + views(local@).take(0) =~= start);
        }
        while j < local.len()
            invariant
                j <= local@.len(),
                merged.wf(),
                merged.bound() == top_k,
                merged.offered() == start + views(local@).take(j as int),
            decreases local@.len() - j,
        {
            let x = &local[j];
            merged.offer(
                Scored {
                    score: x.score,
                    collection: x.collection.as_str().to_owned(),
                    id: x.id.as_str().to_owned(),
                },
            );
            proof {
                assert(merged.offered() =~= start + views(local@).take(j + 1));
            }
            j = j + 1;
        }
        proof {
            assert(views(local@).take(j as int) =~= views(local@));
        }
        i = i + 1;
    }
    proof {
        assert(locals@.take(i as int) =~= locals@);
    }
    merged.into_sorted()
}

/// Where the pieces of a scan of `n` rows end when it is split over `workers`.
pub fn split(n: usize, workers: usize) -> (ends: Vec<usize>)
    requires
        workers >= 1,
    ensures
        n > 0 ==> partition(n as int, ends@.map_values(|e: usize| e as int)),
        n == 0 ==> ends@.len() == 0,
        ends@.len() <= workers,
        forall|i: int|
            0 <= i < ends@.len() - 1 ==> #[trigger] ends@[i] == (i + 1) * ceil(
                n as int,
                workers as int,
            ),
{
    let mut ends: Vec<usize> = Vec::new();
    if n == 0 {
        return ends;
    }
    let len: usize = (n - 1) / workers + 1;
    let mut at: usize = 0;
    let ghost mut cuts: int = 0;
    proof {
        ceil_bounds(n as int, workers as int);
        assert(len == ceil(n as int, workers as int));
    }
    while n - at > len
        invariant
            0 <= at < n,
            len == ceil(n as int, workers as int),
            1 <= len <= n,
            cuts == ends@.len(),
            at == cuts * len,
            n <= len * workers,
            forall|i: int| 0 <= i < ends@.len() ==> #[trigger] ends@[i] == (i + 1) * len,
        decreases n - at,
    {
        at = at + len;
        ends.push(at);
        proof {
            assert((cuts + 1) * len == cuts * len + len) by (nonlinear_arith);
            cuts = cuts + 1;
        }
    }
    proof {
        // One more piece at most than the cuts, and those stop short of the end.
        assert(cuts < workers) by (nonlinear_arith)
            requires
                cuts * len < n,
                n <= len * workers,
                len >= 1,
        ;
    }
    let ghost before = ends@;
    ends.push(n);
    proof {
        let e = ends@.map_values(|e: usize| e as int);
        assert forall|i: int| 0 <= i < e.len() implies 0 <= #[trigger] e[i] <= n by {
            if i < before.len() {
                assert(before[i] == (i + 1) * len);
                assert((i + 1) * len <= cuts * len) by (nonlinear_arith)
                    requires
                        i + 1 <= cuts,
                        len >= 1,
                ;
            }
        }
        assert forall|i: int, j: int| 0 <= i < j < e.len() implies #[trigger] e[i]
            <= #[trigger] e[j] by {
            if j < before.len() {
                assert(before[i] == (i + 1) * len);
                assert(before[j] == (j + 1) * len);
                assert((i + 1) * len <= (j + 1) * len) by (nonlinear_arith)
                    requires
                        i < j,
                        len >= 1,
                ;
            } else {
                assert(0 <= e[i] <= n);
            }
        }
    }
    ends
}

/// `n / m`, rounded up.
pub open spec fn ceil(n: int, m: int) -> int {
    (n - 1) / m + 1
}

proof fn ceil_bounds(n: int, m: int)
    requires
        n > 0,
        m > 0,
    ensures
        1 <= ceil(n, m) <= n,
        n <= ceil(n, m) * m,
{
    let d = (n - 1) / m;
    assert(d * m <= n - 1 < d * m + m && 0 <= d <= n - 1) by (nonlinear_arith)
        requires
            n > 0,
            m > 0,
            d == (n - 1) / m,
    ;
    assert((d + 1) * m == d * m + m) by (nonlinear_arith);
}

// ── Records with several rows ───────────────────────────────────────────────

/// How a record's scores are made one.
#[derive(Clone, Copy, Debug, PartialEq, Eq, Structural)]
pub enum Pool {
    Max,
    Sum,
}

/// A scanned row of a record that has several, with the number of its name.
#[derive(Clone, Debug, PartialEq, Eq)]
pub struct NamedItem {
    pub row: u64,
    pub collection: String,
    pub id: String,
    pub name: u32,
}

/// What a [`NamedItem`] holds.
pub ghost struct NamedV {
    pub row: u64,
    pub collection: Seq<char>,
    pub id: Seq<char>,
    pub name: u32,
}

impl View for NamedItem {
    type V = NamedV;

    open spec fn view(&self) -> NamedV {
        NamedV { row: self.row, collection: self.collection@, id: self.id@, name: self.name }
    }
}

/// Both rows belong to one record.
pub open spec fn one_record(a: NamedV, b: NamedV) -> bool {
    a.collection == b.collection && a.id == b.id
}

/// The weight of a name: one where none is given.
pub open spec fn weight_of(weights: Seq<u32>, name: u32) -> u32 {
    if name < weights.len() {
        weights[name as int]
    } else {
        bits::ONE
    }
}

/// The weighted score of one row.
pub open spec fn weighted<K: Kernel>(
    k: K,
    metric: Distance,
    rows: Seq<Vec<u32>>,
    q: Seq<u32>,
    weights: Seq<u32>,
    x: NamedV,
) -> u32 {
    scaled_of(k, measured(k, metric, q, rows[x.row as int]@), weight_of(weights, x.name))
}

/// Two scores made one.
pub open spec fn pooled<K: Kernel>(k: K, pool: Pool, a: u32, b: u32) -> u32 {
    match pool {
        Pool::Max => bits::larger(a, b),
        Pool::Sum => plus_of(k, a, b),
    }
}

/// The scores of the records of a scan: each record's run of rows made one.
pub open spec fn record_scores<K: Kernel>(
    k: K,
    metric: Distance,
    rows: Seq<Vec<u32>>,
    q: Seq<u32>,
    weights: Seq<u32>,
    pool: Pool,
    scan: Seq<NamedV>,
) -> Seq<ScoredV>
    decreases scan.len(),
{
    if scan.len() == 0 {
        Seq::empty()
    } else {
        let d = scan.drop_last();
        let x = scan.last();
        let w = weighted(k, metric, rows, q, weights, x);
        let rest = record_scores(k, metric, rows, q, weights, pool, d);
        if d.len() > 0 && one_record(d.last(), x) {
            rest.drop_last().push(
                ScoredV {
                    score: pooled(k, pool, rest.last().score, w),
                    collection: x.collection,
                    id: x.id,
                },
            )
        } else {
            rest.push(ScoredV { score: w, collection: x.collection, id: x.id })
        }
    }
}

proof fn record_scores_nonempty<K: Kernel>(
    k: K,
    metric: Distance,
    rows: Seq<Vec<u32>>,
    q: Seq<u32>,
    weights: Seq<u32>,
    pool: Pool,
    scan: Seq<NamedV>,
)
    ensures
        record_scores(k, metric, rows, q, weights, pool, scan).len() > 0 <==> scan.len() > 0,
        scan.len() > 0 ==> record_scores(k, metric, rows, q, weights, pool, scan).last().collection
            == scan.last().collection && record_scores(k, metric, rows, q, weights, pool, scan).last().id
            == scan.last().id,
    decreases scan.len(),
{
    if scan.len() > 0 {
        record_scores_nonempty(k, metric, rows, q, weights, pool, scan.drop_last());
    }
}

/// The score is a number at or above the floor, where there is one.
pub open spec fn reaches(min: Option<u32>, score: u32) -> bool {
    min matches Some(m) ==> !bits::is_nan(score) && !bits::is_nan(m) && !bits::num_lt(score, m)
}

/// The candidates that reach the floor.
pub open spec fn reaching(min: Option<u32>, s: Seq<ScoredV>) -> Seq<ScoredV>
    decreases s.len(),
{
    if s.len() == 0 {
        Seq::empty()
    } else {
        let rest = reaching(min, s.drop_last());
        if reaches(min, s.last().score) {
            rest.push(s.last())
        } else {
            rest
        }
    }
}

/// Cutting a scan between two records cuts no record: the parts score as the whole does.
pub proof fn aligned_cut_scores_alike<K: Kernel>(
    k: K,
    metric: Distance,
    rows: Seq<Vec<u32>>,
    q: Seq<u32>,
    weights: Seq<u32>,
    pool: Pool,
    a: Seq<NamedV>,
    b: Seq<NamedV>,
)
    requires
        a.len() > 0 && b.len() > 0 ==> !one_record(a.last(), b.first()),
    ensures
        record_scores(k, metric, rows, q, weights, pool, a + b) == record_scores(
            k,
            metric,
            rows,
            q,
            weights,
            pool,
            a,
        ) + record_scores(k, metric, rows, q, weights, pool, b),
    decreases b.len(),
{
    let ra = record_scores(k, metric, rows, q, weights, pool, a);
    if b.len() == 0 {
        assert(a + b =~= a);
        assert(ra + Seq::<ScoredV>::empty() =~= ra);
    } else {
        let d = b.drop_last();
        if d.len() > 0 {
            assert(d.first() == b.first());
        }
        aligned_cut_scores_alike(k, metric, rows, q, weights, pool, a, d);
        assert((a + b).drop_last() =~= a + d);
        assert((a + b).last() == b.last());
        let rd = record_scores(k, metric, rows, q, weights, pool, d);
        record_scores_nonempty(k, metric, rows, q, weights, pool, d);
        if d.len() > 0 {
            assert((a + d).last() == d.last());
            if one_record(d.last(), b.last()) {
                assert((ra + rd).last() == rd.last());
                assert((ra + rd).drop_last() =~= ra + rd.drop_last());
            }
        } else {
            assert(a + d =~= a);
            assert(b.first() == b.last());
        }
        assert(record_scores(k, metric, rows, q, weights, pool, a + b) =~= ra + record_scores(
            k,
            metric,
            rows,
            q,
            weights,
            pool,
            b,
        ));
    }
}

fn same_record(a: &NamedItem, b: &NamedItem) -> (r: bool)
    ensures
        r == one_record(a@, b@),
{
    same(a.collection.as_str(), b.collection.as_str()) && same(a.id.as_str(), b.id.as_str())
}

/// The best `top_k` records of a scan of rows with names, unless the query is cancelled. The rows of
/// one record must stand together.
pub fn score_chunk_named<K: Kernel, H: Host>(
    metric: Distance,
    rows: &Vec<Vec<u32>>,
    chunk: &Vec<NamedItem>,
    q: &Vec<u32>,
    top_k: usize,
    min_score: Option<u32>,
    weights: &Vec<u32>,
    pool: Pool,
    k: &K,
    h: &H,
) -> (r: Result<Vec<Scored>, StoreError>)
    requires
        functional(*k),
        forall|i: int| 0 <= i < chunk@.len() ==> (#[trigger] chunk@[i]).row < rows@.len(),
    ensures
        minds(*h, chunk@.len() > 0, r),
        r matches Ok(out) ==> views(out@) == top(
            reaching(
                min_score,
                record_scores(*k, metric, rows@, q@, weights@, pool, views(chunk@)),
            ),
            top_k as int,
            ranking(),
        ),
{
    let ghost all = views(chunk@);
    let mut records: Vec<Scored> = Vec::new();
    let mut i: usize = 0;
    proof {
        assert(all.take(0) =~= Seq::empty());
        assert(views(records@) =~= Seq::empty());
    }
    while i < chunk.len()
        invariant
            i <= chunk@.len(),
            functional(*k),
            all == views(chunk@),
            forall|j: int| 0 <= j < chunk@.len() ==> (#[trigger] chunk@[j]).row < rows@.len(),
            views(records@) == record_scores(*k, metric, rows@, q@, weights@, pool, all.take(i as int)),
            i > 0 ==> may_go_on(*h),
        decreases chunk@.len() - i,
    {
        if i % CHECK_EVERY == 0 {
            if let Err(e) = check(h) {
                return Err(e);
            }
        }
        let x = &chunk[i];
        let ghost now = all.take(i as int);
        proof {
            assert(all.take(i + 1).drop_last() =~= now);
            assert(all.take(i + 1).last() == x@);
            record_scores_nonempty(*k, metric, rows@, q@, weights@, pool, now);
            assert(rows@.len() == rows.len());
        }
        let row = &rows[x.row as usize];
        let base: u32 = measure(k, metric, q, row);
        proof {
            assert(weights@.len() == weights.len());
        }
        let w: u32 = if (x.name as u64) < weights.len() as u64 {
            weights[x.name as usize]
        } else {
            bits::ONE
        };
        let score: u32 = k.scaled(base, w);
        proof {
            assert(call_ensures(K::scaled, (k, base, w), score));
            assert(score == weighted(*k, metric, rows@, q@, weights@, x@));
        }
        let ghost before = views(records@);
        let joins = i > 0 && same_record(&chunk[i - 1], x);
        proof {
            if i > 0 {
                assert(now.last() == chunk@[i - 1]@);
            }
        }
        let mut merged: u32 = score;
        if joins {
            if let Some(last) = records.pop() {
                merged = match pool {
                    Pool::Max => bits::max(last.score, score),
                    Pool::Sum => {
                        let sum: u32 = k.plus(last.score, score);
                        proof {
                            assert(call_ensures(K::plus, (k, last.score, score), sum));
                        }
                        sum
                    },
                };
                proof {
                    assert(views(records@) =~= before.drop_last());
                }
            }
        }
        records.push(
            Scored {
                score: merged,
                collection: x.collection.as_str().to_owned(),
                id: x.id.as_str().to_owned(),
            },
        );
        proof {
            assert(views(records@) =~= record_scores(
                *k,
                metric,
                rows@,
                q@,
                weights@,
                pool,
                all.take(i + 1),
            ));
        }
        i = i + 1;
    }
    proof {
        assert(all.take(i as int) =~= all);
    }
    let ghost scores = views(records@);
    let mut best_so_far = TopK::new(top_k);
    let mut j: usize = 0;
    proof {
        assert(scores.take(0) =~= Seq::empty());
    }
    while j < records.len()
        invariant
            j <= records@.len(),
            scores == views(records@),
            best_so_far.wf(),
            best_so_far.bound() == top_k,
            best_so_far.offered() == reaching(min_score, scores.take(j as int)),
        decreases records@.len() - j,
    {
        let x = &records[j];
        proof {
            assert(scores.take(j + 1).drop_last() =~= scores.take(j as int));
            assert(scores.take(j + 1).last() == x@);
        }
        let reaches_floor = match min_score {
            None => true,
            Some(m) => !bits::nan(x.score) && !bits::nan(m) && !bits::less(x.score, m),
        };
        if reaches_floor {
            best_so_far.offer(
                Scored {
                    score: x.score,
                    collection: x.collection.as_str().to_owned(),
                    id: x.id.as_str().to_owned(),
                },
            );
        }
        j = j + 1;
    }
    proof {
        assert(scores.take(j as int) =~= scores);
    }
    Ok(best_so_far.into_sorted())
}

/// The first place from `pos` on at which a scan may be cut: where a record ends.
pub open spec fn record_end(scan: Seq<NamedV>, pos: int) -> int
    decreases scan.len() - pos,
{
    if pos <= 0 || pos >= scan.len() {
        pos
    } else if one_record(scan[pos - 1], scan[pos]) {
        record_end(scan, pos + 1)
    } else {
        pos
    }
}

/// A scan may be cut here: not within a record.
pub open spec fn at_record_end(scan: Seq<NamedV>, pos: int) -> bool {
    0 < pos < scan.len() ==> !one_record(scan[pos - 1], scan[pos])
}

/// Where the pieces of a scan end when it is split over `workers` and no record is cut: each
/// piece as long as an even share, then to the end of its last record.
#[verifier::rlimit(60)]
#[verifier::spinoff_prover]
pub fn record_aligned_split(scan: &Vec<NamedItem>, workers: usize) -> (ends: Vec<usize>)
    ensures
        partition(scan@.len() as int, ends@.map_values(|e: usize| e as int)),
        forall|i: int|
            0 <= i < ends@.len() ==> at_record_end(views(scan@), #[trigger] ends@[i] as int),
        workers <= 1 || scan@.len() == 0 ==> ends@.len() == 1,
        workers > 1 ==> ends@.len() <= workers,
        workers > 1 ==> forall|i: int|
            0 <= i < ends@.len() - 1 ==> #[trigger] ends@[i] == record_end(
                views(scan@),
                (if i == 0 {
                    0
                } else {
                    ends@[i - 1] as int
                }) + ceil(scan@.len() as int, workers as int),
            ),
{
    let n: usize = scan.len();
    let ghost all = views(scan@);
    let mut ends: Vec<usize> = Vec::new();
    if workers <= 1 || n == 0 {
        ends.push(n);
        return ends;
    }
    let target: usize = (n - 1) / workers + 1;
    proof {
        ceil_bounds(n as int, workers as int);
    }
    let mut last: usize = 0;
    while n - last > target
        invariant
            0 <= last <= n,
            n == scan@.len(),
            workers > 1,
            all == views(scan@),
            target == ceil(n as int, workers as int),
            target >= 1,
            n <= target * workers,
            last >= ends@.len() * target,
            ends@.len() < workers,
            last == if ends@.len() == 0 {
                0
            } else {
                ends@.last()
            },
            at_record_end(all, last as int),
            forall|i: int| 0 <= i < ends@.len() ==> #[trigger] ends@[i] <= n,
            forall|i: int|
                0 <= i < ends@.len() ==> at_record_end(all, #[trigger] ends@[i] as int),
            forall|i: int, j: int|
                0 <= i < j < ends@.len() ==> #[trigger] ends@[i] <= #[trigger] ends@[j],
            forall|i: int|
                0 <= i < ends@.len() ==> #[trigger] ends@[i] == record_end(
                    all,
                    (if i == 0 {
                        0
                    } else {
                        ends@[i - 1] as int
                    }) + target,
                ),
        decreases n - last,
    {
        let ghost from = last + target;
        proof {
            let m = ends@.len() as int;
            assert((m + 1) * target == m * target + target && (m + 1 < workers || (m + 1) * target
                >= workers * target)) by (nonlinear_arith)
                requires
                    target >= 1,
            ;
            assert(workers * target == target * workers) by (nonlinear_arith);
        }
        let mut pos: usize = last + target;
        while pos < n && same_record(&scan[pos - 1], &scan[pos])
            invariant
                from <= pos,
                last < pos <= n,
                n == scan@.len(),
                all == views(scan@),
                record_end(all, from) == record_end(all, pos as int),
            ensures
                from <= pos,
                last < pos <= n,
                record_end(all, from) == record_end(all, pos as int),
                at_record_end(all, pos as int),
            decreases n - pos,
        {
            proof {
                assert(all[pos as int] == scan@[pos as int]@);
                assert(all[pos - 1] == scan@[pos - 1]@);
            }
            pos = pos + 1;
        }
        proof {
            assert(record_end(all, pos as int) == pos);
        }
        let ghost before = ends@;
        ends.push(pos);
        proof {
            assert forall|i: int, j: int| 0 <= i < j < ends@.len() implies #[trigger] ends@[i]
                <= #[trigger] ends@[j] by {
                if j == before.len() {
                    if i < before.len() - 1 {
                        assert(before[i] <= before[before.len() - 1]);
                    }
                } else {
                    assert(before[i] <= before[j]);
                }
            }
        }
        last = pos;
    }
    let ghost before = ends@;
    ends.push(n);
    proof {
        let e = ends@.map_values(|e: usize| e as int);
        assert forall|i: int, j: int| 0 <= i < j < e.len() implies #[trigger] e[i]
            <= #[trigger] e[j] by {
            if j < before.len() {
                assert(before[i] <= before[j]);
            } else {
                assert(before[i] <= n);
            }
        }
    }
    ends
}

} // verus!
