//! How a query ran: the path it took, what it scanned, what it dropped.

use vstd::prelude::*;

verus! {

/// The path that served a query.
#[derive(Clone, Copy, Debug, PartialEq, Eq, Structural)]
pub enum QueryPath {
    Exact,
    Quantized,
    Ann,
    AnnPrefilterFallback,
    Segmented,
}

/// How the filter index fared.
#[derive(Clone, Copy, Debug, PartialEq, Eq, Structural)]
pub enum Narrowing {
    /// No filter index is declared.
    Inactive,
    /// The filter index could not answer for every collection in scope.
    Declined,
    Narrowed { candidates: u64 },
}

/// What became of the candidates that an index walk surfaced.
#[derive(Clone, Copy, Debug, PartialEq, Eq, Structural)]
pub struct Candidates {
    pub surfaced: u64,
    pub survived: u64,
    pub dropped_out_of_scope: u64,
    pub dropped_stale: u64,
    pub dropped_filtered: u64,
    pub dropped_min_score: u64,
}

/// No candidates at all.
pub open spec fn no_candidates() -> Candidates {
    Candidates {
        surfaced: 0,
        survived: 0,
        dropped_out_of_scope: 0,
        dropped_stale: 0,
        dropped_filtered: 0,
        dropped_min_score: 0,
    }
}

impl Default for Candidates {
    fn default() -> (r: Self)
        ensures
            r == no_candidates(),
    {
        Candidates {
            surfaced: 0,
            survived: 0,
            dropped_out_of_scope: 0,
            dropped_stale: 0,
            dropped_filtered: 0,
            dropped_min_score: 0,
        }
    }
}

impl Candidates {
    /// Every candidate survived or was dropped for one reason.
    pub open spec fn balanced(&self) -> bool {
        self.surfaced == self.survived + self.dropped_out_of_scope + self.dropped_stale
            + self.dropped_filtered + self.dropped_min_score
    }
}

/// A timed part of a query.
#[derive(Clone, Copy, Debug, PartialEq, Eq, Structural)]
pub enum Phase {
    Narrow,
    Gather,
    Walk,
    Resolve,
    FirstPass,
    Rescore,
    Score,
}

/// Microseconds per phase.
#[derive(Clone, Copy, Debug, PartialEq, Eq, Structural)]
pub struct Timings {
    pub total: u64,
    pub narrow: Option<u64>,
    pub gather: Option<u64>,
    pub walk: Option<u64>,
    pub resolve: Option<u64>,
    pub first_pass: Option<u64>,
    pub rescore: Option<u64>,
    pub score: Option<u64>,
}

/// No time spent on anything.
pub open spec fn no_timings() -> Timings {
    Timings {
        total: 0,
        narrow: None,
        gather: None,
        walk: None,
        resolve: None,
        first_pass: None,
        rescore: None,
        score: None,
    }
}

/// The timings with one phase filled in.
pub open spec fn timed(t: Timings, slot: Phase, micros: u64) -> Timings {
    match slot {
        Phase::Narrow => Timings { narrow: Some(micros), ..t },
        Phase::Gather => Timings { gather: Some(micros), ..t },
        Phase::Walk => Timings { walk: Some(micros), ..t },
        Phase::Resolve => Timings { resolve: Some(micros), ..t },
        Phase::FirstPass => Timings { first_pass: Some(micros), ..t },
        Phase::Rescore => Timings { rescore: Some(micros), ..t },
        Phase::Score => Timings { score: Some(micros), ..t },
    }
}

/// How a query ran.
#[derive(Clone, Copy, Debug, PartialEq, Eq, Structural)]
pub struct QueryPlan {
    pub path: QueryPath,
    pub rows_scanned: Option<u64>,
    pub candidates: Option<Candidates>,
    pub narrowing: Narrowing,
    pub timings: Timings,
}

/// What has been recorded of a query so far.
#[derive(Clone, Copy, Debug, PartialEq, Eq, Structural)]
pub struct Rec {
    pub path: Option<QueryPath>,
    pub rows_scanned: Option<u64>,
    pub candidates: Option<Candidates>,
    pub narrowing: Option<Narrowing>,
    pub timings: Timings,
}

/// The recorder of a query; one that is off records nothing.
#[derive(Clone, Copy, Debug, PartialEq, Eq, Structural)]
pub enum PlanRec {
    Off,
    On(Rec),
}

/// A record of nothing.
pub open spec fn blank_rec() -> Rec {
    Rec {
        path: None,
        rows_scanned: None,
        candidates: None,
        narrowing: None,
        timings: no_timings(),
    }
}

/// The recorder after `f` is recorded.
pub open spec fn recorded(r: PlanRec, f: spec_fn(Rec) -> Rec) -> PlanRec {
    match r {
        PlanRec::Off => PlanRec::Off,
        PlanRec::On(rec) => PlanRec::On(f(rec)),
    }
}

impl PlanRec {
    pub fn new(on: bool) -> (r: PlanRec)
        ensures
            r == if on {
                PlanRec::On(blank_rec())
            } else {
                PlanRec::Off
            },
    {
        if on {
            PlanRec::On(
                Rec {
                    path: None,
                    rows_scanned: None,
                    candidates: None,
                    narrowing: None,
                    timings: Timings {
                        total: 0,
                        narrow: None,
                        gather: None,
                        walk: None,
                        resolve: None,
                        first_pass: None,
                        rescore: None,
                        score: None,
                    },
                },
            )
        } else {
            PlanRec::Off
        }
    }

    pub fn is_on(&self) -> (r: bool)
        ensures
            r == (*self is On),
    {
        match self {
            PlanRec::On(_) => true,
            PlanRec::Off => false,
        }
    }

    pub fn path(&mut self, p: QueryPath)
        ensures
            *final(self) == recorded(*old(self), |r: Rec| Rec { path: Some(p), ..r }),
    {
        if let PlanRec::On(r) = *self {
            *self = PlanRec::On(Rec { path: Some(p), ..r });
        }
    }

    pub fn rows_scanned(&mut self, n: u64)
        ensures
            *final(self) == recorded(*old(self), |r: Rec| Rec { rows_scanned: Some(n), ..r }),
    {
        if let PlanRec::On(r) = *self {
            *self = PlanRec::On(Rec { rows_scanned: Some(n), ..r });
        }
    }

    pub fn narrowing(&mut self, n: Narrowing)
        ensures
            *final(self) == recorded(*old(self), |r: Rec| Rec { narrowing: Some(n), ..r }),
    {
        if let PlanRec::On(r) = *self {
            *self = PlanRec::On(Rec { narrowing: Some(n), ..r });
        }
    }

    /// The candidate counts, zero where none were recorded; nothing on a recorder that is off.
    pub fn candidates(&self) -> (r: Option<Candidates>)
        ensures
            *self is Off ==> r is None,
            *self matches PlanRec::On(rec) ==> r == Some(
                match rec.candidates {
                    Some(c) => c,
                    None => no_candidates(),
                },
            ),
    {
        match self {
            PlanRec::Off => None,
            PlanRec::On(rec) => match rec.candidates {
                Some(c) => Some(c),
                None => Some(Candidates::default()),
            },
        }
    }

    pub fn record_candidates(&mut self, c: Candidates)
        ensures
            *final(self) == recorded(*old(self), |r: Rec| Rec { candidates: Some(c), ..r }),
    {
        if let PlanRec::On(r) = *self {
            *self = PlanRec::On(Rec { candidates: Some(c), ..r });
        }
    }

    /// Record that a phase took `micros`.
    pub fn stop(&mut self, slot: Phase, micros: u64)
        ensures
            *final(self) == recorded(
                *old(self),
                |r: Rec| Rec { timings: timed(r.timings, slot, micros), ..r },
            ),
    {
        if let PlanRec::On(r) = *self {
            let t = r.timings;
            let timings = match slot {
                Phase::Narrow => Timings { narrow: Some(micros), ..t },
                Phase::Gather => Timings { gather: Some(micros), ..t },
                Phase::Walk => Timings { walk: Some(micros), ..t },
                Phase::Resolve => Timings { resolve: Some(micros), ..t },
                Phase::FirstPass => Timings { first_pass: Some(micros), ..t },
                Phase::Rescore => Timings { rescore: Some(micros), ..t },
                Phase::Score => Timings { score: Some(micros), ..t },
            };
            *self = PlanRec::On(Rec { timings, ..r });
        }
    }

    /// Run `f` as a phase that took `micros`.
    pub fn phase<T, F: FnOnce() -> T>(&mut self, slot: Phase, micros: u64, f: F) -> (out: T)
        requires
            call_requires(f, ()),
        ensures
            call_ensures(f, (), out),
            *final(self) == recorded(
                *old(self),
                |r: Rec| Rec { timings: timed(r.timings, slot, micros), ..r },
            ),
    {
        let out = f();
        self.stop(slot, micros);
        out
    }

    /// The plan, on a recorder that is on; `total` is how long the whole query took.
    pub fn finish(self, total: u64) -> (r: Option<QueryPlan>)
        ensures
            r == finished(self, total),
    {
        match self {
            PlanRec::Off => None,
            PlanRec::On(rec) => Some(
                QueryPlan {
                    path: match rec.path {
                        Some(p) => p,
                        None => QueryPath::Exact,
                    },
                    rows_scanned: rec.rows_scanned,
                    candidates: rec.candidates,
                    narrowing: match rec.narrowing {
                        Some(n) => n,
                        None => Narrowing::Inactive,
                    },
                    timings: Timings { total, ..rec.timings },
                },
            ),
        }
    }
}

/// The plan that a recorder stands for.
pub open spec fn finished(rec: PlanRec, total: u64) -> Option<QueryPlan> {
    match rec {
        PlanRec::Off => None,
        PlanRec::On(r) => Some(
            QueryPlan {
                path: if r.path is Some {
                    r.path->0
                } else {
                    QueryPath::Exact
                },
                rows_scanned: r.rows_scanned,
                candidates: r.candidates,
                narrowing: if r.narrowing is Some {
                    r.narrowing->0
                } else {
                    Narrowing::Inactive
                },
                timings: Timings { total, ..r.timings },
            },
        ),
    }
}

/// A time of which only is kept that it was taken.
pub open spec fn taken(t: Option<u64>) -> Option<u64> {
    if t is Some {
        Some(0)
    } else {
        None
    }
}

/// The timings of which only is kept which were taken.
pub open spec fn shape(t: Timings) -> Timings {
    Timings {
        total: 0,
        narrow: taken(t.narrow),
        gather: taken(t.gather),
        walk: taken(t.walk),
        resolve: taken(t.resolve),
        first_pass: taken(t.first_pass),
        rescore: taken(t.rescore),
        score: taken(t.score),
    }
}

/// The recorder, of whose timings only is kept which were taken.
pub open spec fn untimed(r: PlanRec) -> PlanRec {
    recorded(r, |x: Rec| Rec { timings: shape(x.timings), ..x })
}

/// A recorder that is off stays off whatever is recorded, and gives no plan.
pub proof fn off_records_nothing(f: spec_fn(Rec) -> Rec, total: u64)
    ensures
        recorded(PlanRec::Off, f) == PlanRec::Off,
        finished(PlanRec::Off, total) is None,
{
}

} // verus!
