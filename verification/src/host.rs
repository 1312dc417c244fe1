//! What surrounds a store: the indexes derived from it, a clock, and whether a query is still wanted.

use vstd::prelude::*;

use crate::config::AnnConfig;
use crate::dict::views;
use crate::store::StoreError;
use crate::value::Filter;

verus! {

/// The derived indexes, the clock and the cancellation. What the indexes answer must depend on what the arguments
/// hold alone; the store checks every answer against its own documents.
pub trait Host {
    /// A monotonic clock, in microseconds.
    fn now(&self) -> u64;

    /// The query that runs is no longer wanted. A scan asks before each block of rows; what is
    /// answered may change from one time to the next.
    fn cancelled(&self) -> bool;

    /// The documents of `collection` that the filter index proposes for `filter`; nothing where
    /// it cannot answer it.
    fn propose(&self, collection: &str, filter: &Filter) -> Option<Vec<String>>;

    /// The rows that a walk of the nearest-neighbour index surfaces, tuned as `ann` says, at most
    /// `n` of them.
    fn walk(&self, ann: &AnnConfig, query: &Vec<u32>, n: usize) -> Vec<u64>;

    /// The rows that a walk of one segment's index surfaces, at most `n` of them.
    fn walk_segment(&self, segment: usize, query: &Vec<u32>, n: usize) -> Vec<u64>;
}

/// How many rows a scan scores between two looks at whether it is still wanted.
pub const CHECK_EVERY: usize = 4096;

/// The query may be found cancelled.
pub open spec fn may_stop<H: Host>(h: H) -> bool {
    call_ensures(H::cancelled, (&h,), true)
}

/// The query may be found wanted.
pub open spec fn may_go_on<H: Host>(h: H) -> bool {
    call_ensures(H::cancelled, (&h,), false)
}

/// What a scan that looks whether it is still wanted, where `looks`, makes of it: a cancelled one
/// fails, with no result, and one that does not look is not stopped.
pub open spec fn minds<H: Host, T>(h: H, looks: bool, r: Result<T, StoreError>) -> bool {
    &&& r is Ok && looks ==> may_go_on(h)
    &&& r matches Err(e) ==> e == StoreError::Cancelled && looks && may_stop(h)
}

/// A scan of a query that was cancelled before it began fails.
pub proof fn a_cancelled_scan_fails<H: Host, T>(h: H, looks: bool, r: Result<T, StoreError>)
    requires
        minds(h, looks, r),
        looks,
        !may_go_on(h),
    ensures
        r == Err::<T, StoreError>(StoreError::Cancelled),
{
}

/// A scan of a query that is never cancelled succeeds.
pub proof fn a_wanted_scan_succeeds<H: Host, T>(h: H, looks: bool, r: Result<T, StoreError>)
    requires
        minds(h, looks, r),
        !may_stop(h),
    ensures
        r is Ok,
{
}

/// Look whether the query is still wanted.
pub(crate) fn check<H: Host>(h: &H) -> (r: Result<(), StoreError>)
    ensures
        minds(*h, true, r),
{
    if h.cancelled() {
        Err(StoreError::Cancelled)
    } else {
        Ok(())
    }
}

/// What the filter index proposes for one collection, or nothing where it cannot answer.
pub open spec fn ids_in(p: Option<Vec<String>>) -> Option<Seq<Seq<char>>> {
    match p {
        Some(v) => Some(views(v@)),
        None => None,
    }
}

/// The filter index may propose `x`.
pub open spec fn proposes<H: Host>(
    h: H,
    c: Seq<char>,
    filter: Filter,
    x: Option<Seq<Seq<char>>>,
) -> bool {
    exists|a: &str, b: Option<Vec<String>>|
        a@ == c && ids_in(b) == x && #[trigger] call_ensures(H::propose, (&h, a, &filter), b)
}

/// What the filter index proposes.
pub open spec fn propose_of<H: Host>(h: H, c: Seq<char>, filter: Filter) -> Option<Seq<Seq<char>>> {
    choose|x: Option<Seq<Seq<char>>>| #[trigger] proposes(h, c, filter, x)
}

/// A walk of the nearest-neighbour index may surface `x`.
pub open spec fn walks_to<H: Host>(
    h: H,
    ann: AnnConfig,
    q: Seq<u32>,
    n: usize,
    x: Seq<u64>,
) -> bool {
    exists|a: Vec<u32>, b: Vec<u64>|
        a@ == q && b@ == x && #[trigger] call_ensures(H::walk, (&h, &ann, &a, n), b)
}

/// What a walk of the nearest-neighbour index surfaces.
pub open spec fn walk_of<H: Host>(h: H, ann: AnnConfig, q: Seq<u32>, n: usize) -> Seq<u64> {
    choose|x: Seq<u64>| #[trigger] walks_to(h, ann, q, n, x)
}

/// A walk of one segment's index may surface `x`.
pub open spec fn segment_walks_to<H: Host>(
    h: H,
    segment: usize,
    q: Seq<u32>,
    n: usize,
    x: Seq<u64>,
) -> bool {
    exists|a: Vec<u32>, b: Vec<u64>|
        a@ == q && b@ == x && #[trigger] call_ensures(H::walk_segment, (&h, segment, &a, n), b)
}

/// What a walk of one segment's index surfaces.
pub open spec fn walk_segment_of<H: Host>(h: H, segment: usize, q: Seq<u32>, n: usize) -> Seq<u64> {
    choose|x: Seq<u64>| #[trigger] segment_walks_to(h, segment, q, n, x)
}

/// What the indexes answer depends on what the arguments hold and on nothing else.
pub open spec fn settled<H: Host>(h: H) -> bool {
    &&& forall|
        c: Seq<char>,
        f: Filter,
        x: Option<Seq<Seq<char>>>,
        y: Option<Seq<Seq<char>>>,
    | #[trigger]
        proposes(h, c, f, x) && #[trigger] proposes(h, c, f, y) ==> x == y
    &&& forall|ann: AnnConfig, q: Seq<u32>, n: usize, x: Seq<u64>, y: Seq<u64>| #[trigger]
        walks_to(h, ann, q, n, x) && #[trigger] walks_to(h, ann, q, n, y) ==> x == y
    &&& forall|i: usize, q: Seq<u32>, n: usize, x: Seq<u64>, y: Seq<u64>| #[trigger]
        segment_walks_to(h, i, q, n, x) && #[trigger] segment_walks_to(h, i, q, n, y) ==> x == y
}

/// Ask the filter index.
pub(crate) fn propose<H: Host>(h: &H, c: &str, filter: &Filter) -> (r: Option<Vec<String>>)
    requires
        settled(*h),
    ensures
        ids_in(r) == propose_of(*h, c@, *filter),
{
    let r = h.propose(c, filter);
    proof {
        assert(call_ensures(H::propose, (h, c, filter), r));
        assert(proposes(*h, c@, *filter, ids_in(r)));
    }
    r
}

/// Walk the nearest-neighbour index.
pub(crate) fn walk<H: Host>(h: &H, ann: &AnnConfig, q: &Vec<u32>, n: usize) -> (r: Vec<u64>)
    requires
        settled(*h),
    ensures
        r@ == walk_of(*h, *ann, q@, n),
{
    let r = h.walk(ann, q, n);
    proof {
        assert(call_ensures(H::walk, (h, ann, q, n), r));
        assert(walks_to(*h, *ann, q@, n, r@));
    }
    r
}

/// Walk one segment's index.
pub(crate) fn walk_segment<H: Host>(h: &H, segment: usize, q: &Vec<u32>, n: usize) -> (r: Vec<u64>)
    requires
        settled(*h),
    ensures
        r@ == walk_segment_of(*h, segment, q@, n),
{
    let r = h.walk_segment(segment, q, n);
    proof {
        assert(call_ensures(H::walk_segment, (h, segment, q, n), r));
        assert(segment_walks_to(*h, segment, q@, n, r@));
    }
    r
}

} // verus!
