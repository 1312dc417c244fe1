//! What queries are refused for, and what a search records of itself.

use vstd::prelude::*;

use crate::config::{merged, OpenMode, OpenProfile, QuantKind};
use crate::disk::Disk;
use crate::host::Host;
use crate::hybrid::{hybrid_noted, hybrid_plan, vector_leg};
use crate::kernel::Kernel;
use crate::laws::fusion::plain;
use crate::model::{Distance, HybridOpts, QueryFault, SearchOpts};
use crate::open::{config_refusal, load_fault, open_refusal, refresh_refusal, refresh_to_refusal};
use crate::plan::{
    timed, Narrowing, Phase, PlanRec, QueryPath, QueryPlan, Rec, Timings,
};
use crate::rank::query_fault;
use crate::search::{noted, plan_of, search_refusal, similar_refusal, Outcome};
use crate::store::{Store, StoreError};
use crate::text::{text_refusal, FtsQuery};

verus! {

/// A search is refused a query of the wrong length first, and then what its options are refused
/// for; a plain one is refused for nothing else.
pub proof fn what_a_search_is_refused_for(s: Store, query: Seq<u32>, opts: SearchOpts)
    ensures
        search_refusal(s, query, opts) is None <==> query.len() == s.config.dimension
            && query_fault(opts) is None,
        query.len() != s.config.dimension && query.len() <= usize::MAX ==> search_refusal(
            s,
            query,
            opts,
        ) == Some(
            StoreError::QueryLength { got: query.len() as usize, want: s.config.dimension },
        ),
        query.len() == s.config.dimension ==> (query_fault(opts) matches Some(f) ==> search_refusal(
            s,
            query,
            opts,
        ) == Some(StoreError::Query(f))),
        query.len() == s.config.dimension && plain(opts, opts.filter, opts.top_k as int)
            ==> search_refusal(s, query, opts) is None,
{
}

/// A search by a record is refused where the record is not there, and where it has no vector.
pub proof fn what_a_search_by_a_record_is_refused_for(
    s: Store,
    c: Seq<char>,
    id: Seq<char>,
    opts: SearchOpts,
)
    ensures
        ({
            let cols = s.index@.collections;
            let there = cols.contains_key(c) && cols[c].docs.contains_key(id);
            let refusal = similar_refusal(s, c, id, opts);
            &&& !there ==> refusal == Some(StoreError::Query(QueryFault::NoRecord))
            &&& there && cols[c].docs[id].row is None ==> refusal == Some(
                StoreError::Query(QueryFault::TextOnly),
            )
            &&& there && cols[c].docs[id].row is Some ==> (refusal is None <==> query_fault(
                opts,
            ) is None) && (query_fault(opts) matches Some(f) ==> refusal == Some(
                StoreError::Query(f),
            ))
        }),
{
}

/// A text search is refused a query without a clause first, and then what its options are refused
/// for.
pub proof fn what_a_text_search_is_refused_for(query: FtsQuery, opts: SearchOpts)
    ensures
        query.clauses@.len() == 0 ==> text_refusal(query, opts) == Some(
            StoreError::Query(QueryFault::NoClauses),
        ),
        query.clauses@.len() > 0 ==> (text_refusal(query, opts) is None <==> query_fault(
            opts,
        ) is None) && (query_fault(opts) matches Some(f) ==> text_refusal(query, opts) == Some(
            StoreError::Query(f),
        )),
{
}

/// What a search records of itself: its path always, what it counted where it counted, and the
/// phases that it went through; what it did not touch stays as it was recorded.
pub proof fn what_a_search_records(x: Rec, o: Outcome)
    ensures
        noted(PlanRec::Off, o) == PlanRec::Off,
        noted(PlanRec::On(x), o) matches PlanRec::On(y) && {
            &&& y.path == Some(o.path)
            &&& y.rows_scanned == if o.rows_scanned is Some {
                o.rows_scanned
            } else {
                x.rows_scanned
            }
            &&& y.candidates == if o.candidates is Some {
                o.candidates
            } else {
                x.candidates
            }
            &&& y.narrowing == if o.narrowing is Some {
                o.narrowing
            } else {
                x.narrowing
            }
            &&& y.timings.total == x.timings.total
            &&& y.timings.walk is Some <==> o.phases.walk is Some || x.timings.walk is Some
            &&& y.timings.score is Some <==> o.phases.score is Some || x.timings.score is Some
            &&& y.timings.narrow is Some <==> o.phases.narrow is Some || x.timings.narrow is Some
            &&& y.timings.gather is Some <==> o.phases.gather is Some || x.timings.gather is Some
            &&& y.timings.resolve is Some <==> o.phases.resolve is Some
                || x.timings.resolve is Some
            &&& y.timings.first_pass is Some <==> o.phases.first_pass is Some
                || x.timings.first_pass is Some
            &&& y.timings.rescore is Some <==> o.phases.rescore is Some
                || x.timings.rescore is Some
        },
{
}

/// A profile is refused where the store takes no writes, and where what it comes to could not have
/// been opened.
pub proof fn what_a_profile_is_refused_for(s: Store, p: OpenProfile)
    ensures
        ({
            let m = merged(s.baseline, p);
            let writes = s.config.open_mode == OpenMode::ReadWrite && !s.fenced;
            let fits = !(m.quantization is Some && m.quantization->0.kind == QuantKind::Binary
                && m.distance != Distance::Cosine);
            let refusal = s.profile_refusal(p);
            &&& s.config.open_mode == OpenMode::ReadOnly ==> refusal == Some(StoreError::ReadOnly)
            &&& s.config.open_mode == OpenMode::ReadWrite && s.fenced ==> refusal == Some(
                StoreError::Fenced,
            )
            &&& writes && config_refusal(m) is Some ==> refusal == config_refusal(m)
            &&& writes && config_refusal(m) is None && !fits ==> refusal == Some(
                StoreError::BinaryNeedsCosine,
            )
            &&& refusal is None ==> writes && config_refusal(m) is None && fits
        }),
{
}

/// What a store is opened with must be allowed before anything is read, and the store must be what
/// is asked for.
pub proof fn an_opening_is_refused_in_order(c: crate::config::Config, disk: Disk)
    ensures
        config_refusal(c) is Some ==> open_refusal(c, disk) == config_refusal(c),
        config_refusal(c) is None && crate::open::cluster_refusal(c, disk) is Some ==> open_refusal(
            c,
            disk,
        ) == crate::open::cluster_refusal(c, disk),
        config_refusal(c) is None && crate::open::cluster_refusal(c, disk) is None && c.at_version
            is None && crate::disk::head_refusal(c, disk) is Some ==> open_refusal(c, disk)
            == crate::disk::head_refusal(c, disk),
        config_refusal(c) is None && crate::open::cluster_refusal(c, disk) is None ==> (
        c.at_version matches Some(v) ==> crate::disk::pin_refusal(c, disk, v) is Some
            ==> open_refusal(c, disk) == crate::disk::pin_refusal(c, disk, v)),
{
}

/// Loaded rows that are fewer than a pinned version had are refused, as are sign codes under
/// another metric than the cosine.
pub proof fn what_loaded_rows_are_refused_for(
    c: crate::config::Config,
    t: crate::disk::TargetV,
    rows: Seq<Seq<u32>>,
    segments: Seq<crate::store::Segment>,
)
    ensures
        ({
            let bad = crate::disk::rows_fault(c, rows, segments, t.next_segment);
            let out = load_fault(c, t, rows, segments);
            let short = t.bound is Some && rows.len() < (t.bound->0).0;
            let fits = !(c.quantization is Some && c.quantization->0.kind == QuantKind::Binary
                && c.distance != Distance::Cosine);
            &&& bad is Some ==> out == bad
            &&& bad is None && short ==> out == Some(
                StoreError::VersionReclaimed {
                    version: t.version,
                    rows: rows.len() as u64,
                    expected: (t.bound->0).0,
                },
            )
            &&& bad is None && !short && !fits ==> out == Some(StoreError::BinaryNeedsCosine)
            &&& out is None <==> bad is None && !short && fits
        }),
{
}

/// Only a reader of stored state can be moved to a version; a refresh of any other handle, or of a
/// pinned one, does nothing and is not refused; a store that was swapped for one of another shape
/// is.
pub proof fn what_a_refresh_is_refused_for(s: Store, disk: Disk, version: u64)
    ensures
        s.in_memory || s.config.open_mode == OpenMode::ReadWrite ==> refresh_to_refusal(
            s,
            disk,
            version,
        ) == Some(StoreError::NotARefreshableReader),
        s.in_memory || s.config.open_mode == OpenMode::ReadWrite || s.pinned is Some
            ==> refresh_refusal(s, disk) is None,
        !s.in_memory && s.config.open_mode == OpenMode::ReadOnly && s.pinned is None ==> (
        disk.manifest matches Some(m) ==> {
            &&& m.dimension != s.config.dimension ==> refresh_refusal(s, disk) == Some(
                StoreError::SwappedDimension { stored: m.dimension, opened: s.config.dimension },
            )
            &&& m.dimension == s.config.dimension && m.distance != s.config.distance
                ==> refresh_refusal(s, disk) == Some(
                StoreError::SwappedDistance { stored: m.distance, opened: s.config.distance },
            )
            &&& m.dimension == s.config.dimension && m.distance == s.config.distance && m.version
                == s.version && crate::wire::watermark(crate::dict::views(disk.log@))
                == s.loaded_log_offset ==> refresh_refusal(s, disk) is None
        }),
{
}

/// A phase that is timed is written down under its own head, and no other changes.
pub proof fn a_phase_is_timed_under_its_own_head(t: Timings, micros: u64)
    ensures
        timed(t, Phase::Narrow, micros) == (Timings { narrow: Some(micros), ..t }),
        timed(t, Phase::Gather, micros) == (Timings { gather: Some(micros), ..t }),
        timed(t, Phase::Walk, micros) == (Timings { walk: Some(micros), ..t }),
        timed(t, Phase::Resolve, micros) == (Timings { resolve: Some(micros), ..t }),
        timed(t, Phase::FirstPass, micros) == (Timings { first_pass: Some(micros), ..t }),
        timed(t, Phase::Rescore, micros) == (Timings { rescore: Some(micros), ..t }),
        timed(t, Phase::Score, micros) == (Timings { score: Some(micros), ..t }),
{
}

/// What is chosen at opening stands over what a profile keeps, and a profile stands over what is
/// chosen nowhere; nothing else of a configuration comes from a profile.
pub proof fn choices_stand_over_profiles(c: crate::config::Config, p: OpenProfile)
    ensures
        ({
            let m = merged(c, p);
            &&& m == (crate::config::Config {
                ann: m.ann,
                quantization: m.quantization,
                query_threads: m.query_threads,
                mmap: m.mmap,
                ..c
            })
            &&& c.ann is Some ==> m.ann == c.ann
            &&& c.ann is None ==> m.ann == p.ann
            &&& c.quantization is Some ==> m.quantization == c.quantization
            &&& c.quantization is None ==> m.quantization == p.quantization
            &&& c.threads_chosen ==> m.query_threads == c.query_threads
            &&& !c.threads_chosen && p.query_threads is Some ==> m.query_threads
                == p.query_threads->0
            &&& p.query_threads is None ==> m.query_threads == c.query_threads
            &&& c.mmap_chosen ==> m.mmap == c.mmap
            &&& !c.mmap_chosen && p.mmap is Some ==> m.mmap == p.mmap->0
            &&& p.mmap is None ==> m.mmap == c.mmap
        }),
{
}

/// The plan of a search tells what the search did: its path, its counts, how the filter index
/// fared, and which phases it went through.
pub proof fn a_plan_tells_what_the_search_did(o: Outcome, plan: QueryPlan)
    requires
        plan_of(o, plan),
    ensures
        plan.path == o.path,
        plan.rows_scanned == o.rows_scanned,
        plan.candidates == o.candidates,
        o.narrowing is Some ==> plan.narrowing == o.narrowing->0,
        o.narrowing is None ==> plan.narrowing == Narrowing::Inactive,
        plan.timings.walk is Some <==> o.phases.walk is Some,
        plan.timings.score is Some <==> o.phases.score is Some,
        plan.timings.narrow is Some <==> o.phases.narrow is Some,
        plan.timings.gather is Some <==> o.phases.gather is Some,
        plan.timings.resolve is Some <==> o.phases.resolve is Some,
        plan.timings.first_pass is Some <==> o.phases.first_pass is Some,
        plan.timings.rescore is Some <==> o.phases.rescore is Some,
{
}

/// A hybrid search is planned as its vector leg is, and one for nothing records nothing.
pub proof fn a_hybrid_search_is_planned_as_its_vector_leg<K: Kernel, H: Host>(
    r: PlanRec,
    s: Store,
    k: K,
    h: H,
    scope: Seq<Seq<char>>,
    vector: Seq<u32>,
    opts: HybridOpts,
    plan: QueryPlan,
)
    ensures
        opts.top_k == 0 ==> hybrid_noted(r, s, k, h, scope, vector, opts) == r,
        opts.top_k > 0 ==> hybrid_noted(r, s, k, h, scope, vector, opts) == noted(
            r,
            vector_leg(s, k, h, scope, vector, opts),
        ),
        opts.top_k > 0 && hybrid_plan(s, k, h, scope, vector, opts, plan) ==> plan_of(
            vector_leg(s, k, h, scope, vector, opts),
            plan,
        ),
        opts.top_k == 0 && hybrid_plan(s, k, h, scope, vector, opts, plan) ==> plan.path
            == QueryPath::Exact && plan.rows_scanned is None && plan.candidates is None
            && plan.narrowing == Narrowing::Inactive,
{
}

} // verus!
