//! A search whose scan is scored piece by piece, so that the pieces can be scored at once.

use vstd::prelude::*;

use crate::coarse::quantizing;
use crate::dict::views;
use crate::host::{settled, Host};
use crate::kernel::{functional, Kernel};
use crate::model::{Distance, Hit, SearchOpts};
use crate::order::top;
use crate::plan::PlanRec;
use crate::rank::{check_query_opts, depth_of, ranking, Scored};
use crate::scan::{listable, names, ScanItem};
use crate::scope::{a_scan_stage_names_no_record_twice, proposes_once, scanned_record};
use crate::scoring::{
    each_once, hits_for, in_rows, joined, local_bests, merge, partition, split, split_ranks_alike,
    workers_for,
};
use crate::search::{
    filter_indexed, finish_of, query_of, search_of, search_refusal, segmented, stage,
};
use crate::store::{Store, StoreError};

verus! {

/// A scan to be scored in pieces: the query as rows are stored, what is scanned, and where the
/// pieces end.
#[derive(Clone, Debug, PartialEq)]
pub struct ScanJob {
    pub query: Vec<u32>,
    pub scan: Vec<ScanItem>,
    pub ends: Vec<usize>,
}

/// The search goes over every row that the filter admits, with nothing but the vectors to score by,
/// and the work is worth more than one worker.
pub open spec fn fans_out<H: Host>(
    s: Store,
    h: H,
    scope: Seq<Seq<char>>,
    opts: SearchOpts,
) -> bool {
    &&& opts.exact || (!s.ann && !segmented(s) && !quantizing(s))
    &&& opts.rank_by is None
    &&& workers_for(s, stage(s, h, scope, opts.filter).1.len() as usize) > 1
}

/// The ends as numbers.
pub open spec fn cuts(ends: Seq<usize>) -> Seq<int> {
    ends.map_values(|e: usize| e as int)
}

/// What is scored, and where it is cut.
pub open spec fn is_job<K: Kernel, H: Host>(
    s: Store,
    k: K,
    h: H,
    scope: Seq<Seq<char>>,
    query: Seq<u32>,
    opts: SearchOpts,
    job: ScanJob,
) -> bool {
    &&& job.query@ == query_of(s, k, query)
    &&& views(job.scan@) == stage(s, h, scope, opts.filter).1
    &&& in_rows(s, views(job.scan@))
    &&& partition(job.scan@.len() as int, cuts(job.ends@))
    &&& job.ends@.len() <= s.config.query_threads
}

/// Scoring the pieces of a scan and merging what is best of each is the search, provided that the
/// filter index proposes no document twice.
pub proof fn a_split_search_is_the_search<K: Kernel, H: Host>(
    s: Store,
    k: K,
    h: H,
    scope: Seq<Seq<char>>,
    query: Seq<u32>,
    opts: SearchOpts,
    job: ScanJob,
)
    requires
        s.wf(),
        listable(s.index@.collections),
        filter_indexed(s) ==> proposes_once(s, h, scope, opts.filter),
        fans_out(s, h, scope, opts),
        is_job(s, k, h, scope, query, opts, job),
    ensures
        finish_of(
            s,
            k,
            opts,
            hits_for(
                s,
                opts.projection,
                top(
                    local_bests(
                        s,
                        k,
                        job.query@,
                        opts,
                        depth_of(opts),
                        views(job.scan@),
                        cuts(job.ends@),
                    ),
                    depth_of(opts) as int,
                    ranking(),
                ),
            ),
        ) == search_of(s, k, h, scope, query, opts),
{
    let scan = views(job.scan@);
    a_scan_stage_names_no_record_twice(s, h, scope, opts.filter);
    let f = scanned_record();
    assert forall|i: int, j: int| 0 <= i < j < scan.len() implies (#[trigger] scan[i]).collection
        != (#[trigger] scan[j]).collection || scan[i].id != scan[j].id by {
        assert(f(scan[i]) != f(scan[j]));
    }
    assert(each_once(scan));
    assert(scan.len() == job.scan@.len());
    split_ranks_alike(s, k, job.query@, opts, depth_of(opts), scan, cuts(job.ends@));
}

/// What the workers give together: the first failure, or their rankings made one.
pub open spec fn together(locals: Seq<Result<Vec<Scored>, StoreError>>) -> Option<StoreError>
    decreases locals.len(),
{
    if locals.len() == 0 {
        None
    } else if together(locals.drop_last()) is Some {
        together(locals.drop_last())
    } else {
        match locals.last() {
            Err(e) => Some(e),
            Ok(_) => None,
        }
    }
}

/// The rankings of workers none of which failed.
pub open spec fn rankings(locals: Seq<Result<Vec<Scored>, StoreError>>) -> Seq<Vec<Scored>> {
    locals.map_values(|r: Result<Vec<Scored>, StoreError>| r->Ok_0)
}

/// Make one ranking of what the workers have found. Where one of them has failed there is none: a
/// part of a ranking would look like a whole one.
pub fn merge_workers(locals: Vec<Result<Vec<Scored>, StoreError>>, top_k: usize) -> (r: Result<
    Vec<Scored>,
    StoreError,
>)
    ensures
        match together(locals@) {
            Some(e) => r == Err::<Vec<Scored>, StoreError>(e),
            None => r matches Ok(out) && views(out@) == top(
                joined(rankings(locals@)),
                top_k as int,
                ranking(),
            ),
        },
{
    let ghost all = locals@;
    let mut found: Vec<Vec<Scored>> = Vec::new();
    let mut rest = locals;
    let ghost mut i: int = 0;
    proof {
        assert(all.take(0) =~= Seq::empty());
        assert(all.skip(0) =~= all);
        assert(found@ =~= rankings(all.take(0)));
    }
    while rest.len() > 0
        invariant
            0 <= i <= all.len(),
            all == locals@,
            rest@ == all.skip(i),
            together(all.take(i)) is None,
            found@ == rankings(all.take(i)),
        decreases rest@.len(),
    {
        let x = rest.remove(0);
        proof {
            assert(x == all[i]);
            assert(all.take(i + 1).drop_last() =~= all.take(i));
            assert(all.take(i + 1).last() == x);
            assert(rest@ =~= all.skip(i + 1));
        }
        match x {
            Err(e) => {
                proof {
                    first_failure(all, i + 1);
                }
                return Err(e);
            },
            Ok(v) => {
                let ghost prior = found@;
                found.push(v);
                proof {
                    assert(found@ =~= rankings(all.take(i + 1)));
                    i = i + 1;
                }
            },
        }
    }
    proof {
        assert(all.take(i) =~= all);
    }
    Ok(merge(found, top_k))
}

proof fn first_failure(locals: Seq<Result<Vec<Scored>, StoreError>>, n: int)
    requires
        0 <= n <= locals.len(),
        together(locals.take(n)) is Some,
    ensures
        together(locals) == together(locals.take(n)),
    decreases locals.len(),
{
    if n == locals.len() {
        assert(locals.take(n) =~= locals);
    } else {
        let d = locals.drop_last();
        assert(d.take(n) =~= locals.take(n));
        first_failure(d, n);
    }
}

/// A failure of any worker is a failure of the whole.
pub proof fn one_failure_fails_all(locals: Seq<Result<Vec<Scored>, StoreError>>, i: int)
    requires
        0 <= i < locals.len(),
        locals[i] is Err,
    ensures
        together(locals) is Some,
    decreases locals.len(),
{
    if i < locals.len() - 1 {
        one_failure_fails_all(locals.drop_last(), i);
    }
}

impl Store {
    /// The scan of a search that is worth splitting; nothing where [`Store::search`] is the way.
    pub fn scan_job<K: Kernel, H: Host>(
        &self,
        collections: &[&str],
        query: &Vec<u32>,
        opts: &SearchOpts,
        k: &K,
        h: &H,
    ) -> (r: Result<Option<ScanJob>, StoreError>)
        requires
            self.wf(),
            functional(*k),
            settled(*h),
        ensures
            match search_refusal(*self, query@, *opts) {
                Some(e) => r == Err::<Option<ScanJob>, StoreError>(e),
                None => match r {
                    Ok(Some(job)) => fans_out(*self, *h, names(collections@), *opts) && is_job(
                        *self,
                        *k,
                        *h,
                        names(collections@),
                        query@,
                        *opts,
                        job,
                    ),
                    Ok(None) => !fans_out(*self, *h, names(collections@), *opts),
                    Err(_) => false,
                },
            },
    {
        if query.len() != self.config.dimension {
            return Err(
                StoreError::QueryLength { got: query.len(), want: self.config.dimension },
            );
        }
        if let Err(f) = check_query_opts(opts) {
            return Err(StoreError::Query(f));
        }
        let plain = opts.exact || (!self.ann && !self.any_segment_indexed() && !(
        self.config.dimension > 0 && self.quant.is_some() && self.rows.len() > 0));
        if !plain || opts.rank_by.is_some() {
            return Ok(None);
        }
        let mut rec = PlanRec::new(false);
        let scan = self.sorted_scan(collections, &opts.filter, h, &mut rec);
        proof {
            assert(views(scan@).len() == scan@.len());
        }
        let workers: usize = self.parallel_workers(scan.len());
        if workers <= 1 {
            return Ok(None);
        }
        let ends = split(scan.len(), workers);
        let q: Vec<u32> = match self.config.distance {
            Distance::Cosine => crate::kernel::unit(k, query),
            _ => crate::model::dup_bits(query),
        };
        Ok(Some(ScanJob { query: q, scan, ends }))
    }

    /// The results of a search whose scan was scored in pieces.
    pub fn finish_job<K: Kernel>(&self, ranked: Vec<Scored>, opts: &SearchOpts, k: &K) -> (out: Vec<
        Hit,
    >)
        requires
            self.wf(),
            functional(*k),
        ensures
            views(out@) == finish_of(
                *self,
                *k,
                *opts,
                hits_for(*self, opts.projection, views(ranked@)),
            ),
    {
        let hits = self.hits_from_topk(ranked, &opts.projection);
        self.finish(hits, opts, k)
    }
}

} // verus!
