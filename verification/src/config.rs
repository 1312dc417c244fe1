//! How a store is opened and tuned.

use vstd::prelude::*;

use crate::model::Distance;

verus! {

/// Whether a handle may write.
#[derive(Clone, Copy, Debug, PartialEq, Eq, Structural)]
pub enum OpenMode {
    ReadWrite,
    ReadOnly,
}

/// What a writer does when the handle it wants is held.
#[derive(Clone, Copy, Debug, PartialEq, Eq, Structural)]
pub enum LeaseWait {
    /// Give up at once.
    Fail,
    /// Retry for so many milliseconds.
    Timeout(u64),
    /// Retry until the handle is free.
    Forever,
}

/// A coarse copy of the vectors that a first pass ranks by.
#[derive(Clone, Copy, Debug, PartialEq, Eq, Structural)]
pub enum QuantKind {
    Int8,
    Binary,
}

/// Quantization: its kind, and how many times the page the first pass keeps.
#[derive(Clone, Copy, Debug, PartialEq, Eq, Structural)]
pub struct Quantization {
    pub kind: QuantKind,
    pub rescore: usize,
}

impl Quantization {
    pub fn int8() -> (r: Quantization)
        ensures
            r.kind == QuantKind::Int8,
            r.rescore == 4,
    {
        Quantization { kind: QuantKind::Int8, rescore: 4 }
    }

    /// One bit says less of a component than a byte, so the first pass keeps twice as much.
    pub fn binary() -> (r: Quantization)
        ensures
            r.kind == QuantKind::Binary,
            r.rescore == 8,
    {
        Quantization { kind: QuantKind::Binary, rescore: 8 }
    }

    pub fn rescore(self, rescore: usize) -> (r: Quantization)
        ensures
            r == (Quantization { kind: self.kind, rescore }),
    {
        Quantization { kind: self.kind, rescore }
    }
}

impl Default for Quantization {
    fn default() -> (r: Self)
        ensures
            r.kind == QuantKind::Int8,
            r.rescore == 4,
    {
        Quantization { kind: QuantKind::Int8, rescore: 4 }
    }
}

/// The kind of a nearest-neighbour index.
#[derive(Clone, Copy, Debug, PartialEq, Eq, Structural)]
pub enum AnnKind {
    Hnsw,
    Ivf,
}

/// A nearest-neighbour index: its kind, and what only a query of it goes by.
#[derive(Clone, Copy, Debug, PartialEq, Eq, Structural)]
pub struct AnnConfig {
    pub kind: AnnKind,
    /// How many times the page its walk surfaces.
    pub overscan: usize,
    /// How wide a walk of a graph looks; the index's own width where nothing is asked for.
    pub ef_search: Option<usize>,
    /// How many lists a walk of an inverted file reads.
    pub n_probe: usize,
}

impl AnnConfig {
    pub fn hnsw() -> (r: AnnConfig)
        ensures
            r == (AnnConfig { kind: AnnKind::Hnsw, overscan: 4, ef_search: None, n_probe: 8 }),
    {
        AnnConfig { kind: AnnKind::Hnsw, overscan: 4, ef_search: None, n_probe: 8 }
    }

    pub fn ivf() -> (r: AnnConfig)
        ensures
            r == (AnnConfig { kind: AnnKind::Ivf, overscan: 4, ef_search: None, n_probe: 8 }),
    {
        AnnConfig { kind: AnnKind::Ivf, overscan: 4, ef_search: None, n_probe: 8 }
    }

    pub fn overscan(self, overscan: usize) -> (r: AnnConfig)
        ensures
            r == (AnnConfig { overscan, ..self }),
    {
        AnnConfig { overscan, ..self }
    }

    pub fn ef_search(self, width: usize) -> (r: AnnConfig)
        ensures
            r == (AnnConfig { ef_search: Some(width), ..self }),
    {
        AnnConfig { ef_search: Some(width), ..self }
    }

    pub fn n_probe(self, lists: usize) -> (r: AnnConfig)
        ensures
            r == (AnnConfig { n_probe: lists, ..self }),
    {
        AnnConfig { n_probe: lists, ..self }
    }
}

/// The tuning that a store records for those who open it without tuning of their own.
#[derive(Clone, Copy, Debug, PartialEq, Eq, Structural)]
pub struct OpenProfile {
    pub ann: Option<AnnConfig>,
    pub quantization: Option<Quantization>,
    pub query_threads: Option<usize>,
    pub mmap: Option<bool>,
}

/// A profile that records nothing.
pub open spec fn no_profile() -> OpenProfile {
    OpenProfile { ann: None, quantization: None, query_threads: None, mmap: None }
}

impl Default for OpenProfile {
    fn default() -> (r: Self)
        ensures
            r == no_profile(),
    {
        OpenProfile { ann: None, quantization: None, query_threads: None, mmap: None }
    }
}

/// How a store is opened and tuned. `auto_compact` is the `f32` bit pattern of the share of dead
/// rows past which a writer compacts.
#[derive(Clone, Copy, Debug, PartialEq, Eq, Structural)]
pub struct Config {
    pub dimension: usize,
    pub distance: Distance,
    pub open_mode: OpenMode,
    pub auto_compact: Option<u32>,
    pub max_vector_bytes: Option<u64>,
    pub quantization: Option<Quantization>,
    pub ann: Option<AnnConfig>,
    pub segment_max_rows: Option<u64>,
    pub segment_index_min_rows: Option<u64>,
    pub query_threads: usize,
    /// `query_threads` was asked for, and is not the default.
    pub threads_chosen: bool,
    pub mmap: bool,
    /// `mmap` was asked for, and is not the default.
    pub mmap_chosen: bool,
    pub history_versions: Option<u64>,
    pub at_version: Option<u64>,
    pub cluster: bool,
    /// How long a silent holder keeps the writer handle, in milliseconds.
    pub lock_ttl: u64,
    pub lease_wait: LeaseWait,
}

/// The share of dead rows past which a writer compacts by default, one half.
pub const DEFAULT_AUTO_COMPACT: u32 = 0x3f00_0000;

impl Config {
    pub fn new(dimension: usize) -> (r: Config)
        ensures
            r == plain(dimension),
    {
        Config {
            dimension,
            distance: Distance::Cosine,
            open_mode: OpenMode::ReadWrite,
            auto_compact: Some(DEFAULT_AUTO_COMPACT),
            max_vector_bytes: None,
            quantization: None,
            ann: None,
            segment_max_rows: None,
            segment_index_min_rows: None,
            query_threads: 1,
            threads_chosen: false,
            mmap: false,
            mmap_chosen: false,
            history_versions: None,
            at_version: None,
            cluster: false,
            lock_ttl: 30_000,
            lease_wait: LeaseWait::Fail,
        }
    }

    pub fn distance(self, distance: Distance) -> (r: Config)
        ensures
            r == (Config { distance, ..self }),
    {
        Config { distance, ..self }
    }

    pub fn open_mode(self, open_mode: OpenMode) -> (r: Config)
        ensures
            r == (Config { open_mode, ..self }),
    {
        Config { open_mode, ..self }
    }

    pub fn auto_compact(self, auto_compact: Option<u32>) -> (r: Config)
        ensures
            r == (Config { auto_compact, ..self }),
    {
        Config { auto_compact, ..self }
    }

    pub fn max_vector_bytes(self, max_vector_bytes: Option<u64>) -> (r: Config)
        ensures
            r == (Config { max_vector_bytes, ..self }),
    {
        Config { max_vector_bytes, ..self }
    }

    pub fn quantization(self, quantization: Option<Quantization>) -> (r: Config)
        ensures
            r == (Config { quantization, ..self }),
    {
        Config { quantization, ..self }
    }

    pub fn ann(self, ann: Option<AnnConfig>) -> (r: Config)
        ensures
            r == (Config { ann, ..self }),
    {
        Config { ann, ..self }
    }

    pub fn segment_max_rows(self, segment_max_rows: Option<u64>) -> (r: Config)
        ensures
            r == (Config { segment_max_rows, ..self }),
    {
        Config { segment_max_rows, ..self }
    }

    pub fn segment_index_min_rows(self, segment_index_min_rows: Option<u64>) -> (r: Config)
        ensures
            r == (Config { segment_index_min_rows, ..self }),
    {
        Config { segment_index_min_rows, ..self }
    }

    /// Ask for a number of threads; a recorded profile no longer decides it.
    pub fn query_threads(self, query_threads: usize) -> (r: Config)
        ensures
            r == (Config { query_threads, threads_chosen: true, ..self }),
    {
        Config { query_threads, threads_chosen: true, ..self }
    }

    /// Ask for memory mapping or not; a recorded profile no longer decides it.
    pub fn mmap(self, mmap: bool) -> (r: Config)
        ensures
            r == (Config { mmap, mmap_chosen: true, ..self }),
    {
        Config { mmap, mmap_chosen: true, ..self }
    }

    pub fn history_versions(self, history_versions: Option<u64>) -> (r: Config)
        ensures
            r == (Config { history_versions, ..self }),
    {
        Config { history_versions, ..self }
    }

    pub fn at_version(self, at_version: Option<u64>) -> (r: Config)
        ensures
            r == (Config { at_version, ..self }),
    {
        Config { at_version, ..self }
    }

    pub fn cluster(self, cluster: bool) -> (r: Config)
        ensures
            r == (Config { cluster, ..self }),
    {
        Config { cluster, ..self }
    }

    pub fn lock_ttl(self, lock_ttl: u64) -> (r: Config)
        ensures
            r == (Config { lock_ttl, ..self }),
    {
        Config { lock_ttl, ..self }
    }

    pub fn lease_wait(self, lease_wait: LeaseWait) -> (r: Config)
        ensures
            r == (Config { lease_wait, ..self }),
    {
        Config { lease_wait, ..self }
    }

    /// The config with the recorded profile filled in where nothing was asked for.
    pub fn with_profile(self, p: &OpenProfile) -> (r: Config)
        ensures
            r == merged(self, *p),
    {
        Config {
            ann: match self.ann {
                Some(a) => Some(a),
                None => p.ann,
            },
            quantization: match self.quantization {
                Some(q) => Some(q),
                None => p.quantization,
            },
            query_threads: if self.threads_chosen {
                self.query_threads
            } else {
                match p.query_threads {
                    Some(n) => n,
                    None => self.query_threads,
                }
            },
            mmap: if self.mmap_chosen {
                self.mmap
            } else {
                match p.mmap {
                    Some(b) => b,
                    None => self.mmap,
                }
            },
            ..self
        }
    }

    /// Binary codes are an angular proxy: they are refused for any metric but cosine.
    pub fn quantization_fits(&self) -> (r: bool)
        ensures
            r == quant_fits(*self),
    {
        match self.quantization {
            Some(q) => match (q.kind, self.distance) {
                (QuantKind::Binary, Distance::Cosine) => true,
                (QuantKind::Binary, _) => false,
                (QuantKind::Int8, _) => true,
            },
            None => true,
        }
    }
}

/// A writer's config for a durable store, with nothing tuned.
pub open spec fn plain(dimension: usize) -> Config {
    Config {
        dimension,
        distance: Distance::Cosine,
        open_mode: OpenMode::ReadWrite,
        auto_compact: Some(DEFAULT_AUTO_COMPACT),
        max_vector_bytes: None,
        quantization: None,
        ann: None,
        segment_max_rows: None,
        segment_index_min_rows: None,
        query_threads: 1,
        threads_chosen: false,
        mmap: false,
        mmap_chosen: false,
        history_versions: None,
        at_version: None,
        cluster: false,
        lock_ttl: 30_000,
        lease_wait: LeaseWait::Fail,
    }
}

/// The config with the recorded profile filled in where nothing was asked for.
pub open spec fn merged(c: Config, p: OpenProfile) -> Config {
    Config {
        ann: if c.ann is Some {
            c.ann
        } else {
            p.ann
        },
        quantization: if c.quantization is Some {
            c.quantization
        } else {
            p.quantization
        },
        query_threads: if c.threads_chosen || p.query_threads is None {
            c.query_threads
        } else {
            p.query_threads->0
        },
        mmap: if c.mmap_chosen || p.mmap is None {
            c.mmap
        } else {
            p.mmap->0
        },
        ..c
    }
}

/// The quantization can rank under the metric.
pub open spec fn quant_fits(c: Config) -> bool {
    c.quantization matches Some(q) ==> q.kind == QuantKind::Binary ==> c.distance
        == Distance::Cosine
}

/// What was asked for beats the recorded profile.
pub proof fn choice_beats_profile(c: Config, p: OpenProfile)
    ensures
        c.ann is Some ==> merged(c, p).ann == c.ann,
        c.quantization is Some ==> merged(c, p).quantization == c.quantization,
        c.threads_chosen ==> merged(c, p).query_threads == c.query_threads,
        c.mmap_chosen ==> merged(c, p).mmap == c.mmap,
{
}

/// A profile that records nothing changes nothing: a cleared knob retracts, because a profile is
/// always merged into what was asked for and never into an earlier merge.
pub proof fn cleared_profile_retracts(c: Config)
    ensures
        merged(c, no_profile()) == c,
{
}

} // verus!
