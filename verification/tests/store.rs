#![allow(dead_code)]

//! The store driven through `f32` vectors, with a plain index of each kind beside it.

use std::cell::Cell;
use std::collections::{BTreeMap, HashSet};
use std::fmt;
use std::sync::{Arc, Mutex};

use nidus::barrier::Barrier;
use nidus::claim::Lock;
use nidus::aggregate::{AggregateOpts as Totals, MAX_GROUPS};
use nidus::config::{
    AnnConfig, AnnKind, Config as Settings, LeaseWait, OpenMode, OpenProfile, Quantization,
};
use nidus::dict::Dict;
use nidus::disk::{Backend, Disk, Manifest, Object, SegmentIntegrity, SegmentReport, Snapshot};
use nidus::diversity::MAX_DIVERSITY_WINDOW;
use nidus::expand::Piece;
use nidus::host::Host;
use nidus::index::{
    Collection, FtsField as Declared, Index, Indexed, Language, Op, Schema, META_ACCESS_COUNT,
    META_EXPIRES_AT, META_LAST_ACCESSED,
};
use nidus::kernel::Kernel;
use nidus::lexicon::Lexicon;
use nidus::message::BAD_QUERY;
use nidus::model::{
    Annotations as Notes, Decay as Rule, DecayFault, Distance, Expand, Expansion, Fragment, Highlight,
    HighlightOpts, Hit as Found, HybridOpts as HybridRequest, LegScore as Leg, LimitPer, ListOpts as ListRequest,
    OrderBy, Projection, QueryFault, RankBy as Ranking, Record as Stored, RerankOpts, SearchOpts as Request,
    META_CHAR_START, META_CHUNK_INDEX, META_PARENT_ID, META_TEXT,
};
use nidus::order::Side;
use nidus::plan::{Candidates, Narrowing, Phase, PlanRec, QueryPath, QueryPlan};
use nidus::quant::Quant;
use nidus::rank::{RankTerms, Recency, Scored, LIMIT_PER_OVERFETCH, MMR_OVERFETCH};
use nidus::read::Footprint;
use nidus::scoring::{NamedItem, Pool, PARALLEL_SCAN_WORK_FLOOR};
use nidus::status::{Claim, Role, Standby, StoreVersions, Wait};
use nidus::store::{Store as Core, StoreError};
use nidus::suggest::SuggestOpts;
use nidus::text::{FtsClause, FtsCombine, FtsQuery as TextQuery};
use nidus::value::{Attrs, Filter as Condition, Predicate as Check, Value as Datum};

// ---- what a caller holds -------------------------------------------------------------------

struct Fail(String);

impl fmt::Display for Fail {
    fn fmt(&self, f: &mut fmt::Formatter<'_>) -> fmt::Result {
        f.write_str(&self.0)
    }
}

impl fmt::Debug for Fail {
    fn fmt(&self, f: &mut fmt::Formatter<'_>) -> fmt::Result {
        f.write_str(&self.0)
    }
}

fn fail(e: StoreError) -> Fail {
    Fail(e.message())
}

fn bits(v: &[f32]) -> Vec<u32> {
    v.iter().map(|x| x.to_bits()).collect()
}

fn floats(v: &[u32]) -> Vec<f32> {
    v.iter().map(|x| f32::from_bits(*x)).collect()
}

#[derive(Clone, Debug, PartialEq)]
enum Value {
    Null,
    Str(String),
    Int(i64),
    Bool(bool),
    Float(f64),
    DateTime(i64),
    List(Vec<String>),
}

fn lowered(v: &Value) -> Datum {
    match v {
        Value::Null => Datum::Null,
        Value::Str(s) => Datum::Str(s.clone()),
        Value::Int(n) => Datum::Int(*n),
        Value::Bool(b) => Datum::Bool(*b),
        Value::Float(x) => Datum::Float(x.to_bits()),
        Value::DateTime(n) => Datum::DateTime(*n),
        Value::List(l) => Datum::List(l.clone()),
    }
}

fn lifted(v: &Datum) -> Value {
    match v {
        Datum::Null => Value::Null,
        Datum::Str(s) => Value::Str(s.clone()),
        Datum::Int(n) => Value::Int(*n),
        Datum::Bool(b) => Value::Bool(*b),
        Datum::Float(x) => Value::Float(f64::from_bits(*x)),
        Datum::DateTime(n) => Value::DateTime(*n),
        Datum::List(l) => Value::List(l.clone()),
    }
}

fn lowered_attrs(attrs: &BTreeMap<String, Value>) -> Attrs {
    let mut out: Attrs = Dict::new();
    for (k, v) in attrs {
        out.insert(k.clone(), lowered(v));
    }
    out
}

fn lifted_attrs(attrs: &Attrs) -> BTreeMap<String, Value> {
    (0..attrs.len())
        .map(|i| (attrs.key_at(i).clone(), lifted(attrs.value_at(i))))
        .collect()
}

#[derive(Clone, Debug, PartialEq)]
struct Record {
    id: String,
    vector: Option<Vec<f32>>,
    attrs: BTreeMap<String, Value>,
}

impl Record {
    fn new(id: impl Into<String>, vector: Vec<f32>, attrs: BTreeMap<String, Value>) -> Record {
        Record {
            id: id.into(),
            vector: Some(vector),
            attrs,
        }
    }

    fn text_only(id: impl Into<String>, attrs: BTreeMap<String, Value>) -> Record {
        Record {
            id: id.into(),
            vector: None,
            attrs,
        }
    }
}

fn lowered_record(r: &Record) -> Stored {
    let attrs = lowered_attrs(&r.attrs);
    match &r.vector {
        Some(v) => Stored::new(&r.id, bits(v), attrs),
        None => Stored::text_only(&r.id, attrs),
    }
}

fn lifted_record(r: &Stored) -> Record {
    Record {
        id: r.id.clone(),
        vector: r.vector.as_ref().map(|v| floats(v)),
        attrs: lifted_attrs(&r.attrs),
    }
}

#[derive(Clone, Debug)]
enum Predicate {
    Eq(String, Value),
    Le(String, Value),
    Ge(String, Value),
    ContainsAllTokens(String, String),
    Not(Box<Predicate>),
}

fn lowered_predicate(p: &Predicate) -> Check {
    match p {
        Predicate::Eq(k, v) => Check::Eq(k.clone(), lowered(v)),
        Predicate::Le(k, v) => Check::Le(k.clone(), lowered(v)),
        Predicate::Ge(k, v) => Check::Ge(k.clone(), lowered(v)),
        Predicate::ContainsAllTokens(k, t) => Check::ContainsAllTokens(k.clone(), t.clone()),
        Predicate::Not(p) => Check::Not(Box::new(lowered_predicate(p))),
    }
}

#[derive(Clone, Debug, Default)]
struct Filter(Vec<Predicate>);

impl Filter {
    fn lowered(&self) -> Condition {
        Condition(self.0.iter().map(lowered_predicate).collect())
    }
}

#[derive(Clone, Debug, PartialEq)]
struct Decay {
    field: String,
    origin: i64,
    scale: i64,
    decay: f32,
    lambda: f32,
    missing: f32,
    count_field: Option<String>,
    count_scale: f32,
    count_lambda: f32,
}

impl Decay {
    fn new(field: &str, origin: i64, scale: i64) -> Decay {
        Decay::lifted(&Rule::new(field, origin, scale))
    }

    fn lifted(r: &Rule) -> Decay {
        Decay {
            field: r.field.clone(),
            origin: r.origin,
            scale: r.scale,
            decay: f32::from_bits(r.decay),
            lambda: f32::from_bits(r.lambda),
            missing: f32::from_bits(r.missing),
            count_field: r.count_field.clone(),
            count_scale: f32::from_bits(r.count_scale),
            count_lambda: f32::from_bits(r.count_lambda),
        }
    }

    fn lowered(&self) -> Rule {
        Rule {
            field: self.field.clone(),
            origin: self.origin,
            scale: self.scale,
            decay: self.decay.to_bits(),
            lambda: self.lambda.to_bits(),
            missing: self.missing.to_bits(),
            count_field: self.count_field.clone(),
            count_scale: self.count_scale.to_bits(),
            count_lambda: self.count_lambda.to_bits(),
        }
    }

    fn decay(self, x: f32) -> Decay {
        Decay::lifted(&self.lowered().decay(x.to_bits()))
    }

    fn lambda(self, x: f32) -> Decay {
        Decay::lifted(&self.lowered().lambda(x.to_bits()))
    }

    fn missing(self, x: f32) -> Decay {
        Decay::lifted(&self.lowered().missing(x.to_bits()))
    }

    fn count_field(self, field: &str) -> Decay {
        Decay::lifted(&self.lowered().count_field(field))
    }

    fn count_scale(self, x: f32) -> Decay {
        Decay::lifted(&self.lowered().count_scale(x.to_bits()))
    }

    fn count_lambda(self, x: f32) -> Decay {
        Decay::lifted(&self.lowered().count_lambda(x.to_bits()))
    }
}

#[derive(Clone, Debug)]
enum RankBy {
    Decay(Decay),
}

fn lowered_rank(r: &RankBy) -> Ranking {
    match r {
        RankBy::Decay(d) => Ranking::Decay(d.lowered()),
    }
}

trait Columns {
    fn only<const N: usize>(keys: [&str; N]) -> Projection;
    fn exclude<const N: usize>(keys: [&str; N]) -> Projection;
}

impl Columns for Projection {
    fn only<const N: usize>(keys: [&str; N]) -> Projection {
        Projection::Include(keys.iter().map(|k| k.to_string()).collect())
    }

    fn exclude<const N: usize>(keys: [&str; N]) -> Projection {
        Projection::Exclude(keys.iter().map(|k| k.to_string()).collect())
    }
}

#[derive(Clone, Debug)]
struct SearchOpts {
    top_k: usize,
    offset: usize,
    filter: Filter,
    min_score: Option<f32>,
    limit_per: Option<LimitPer>,
    diversity: Option<f32>,
    expand: Option<Expand>,
    rank_by: Option<RankBy>,
    rerank: Option<RerankOpts>,
    projection: Projection,
    exact: bool,
    explain: bool,
}

impl Default for SearchOpts {
    fn default() -> SearchOpts {
        let d = Request::default();
        SearchOpts {
            top_k: d.top_k,
            offset: d.offset,
            filter: Filter::default(),
            min_score: d.min_score.map(f32::from_bits),
            limit_per: d.limit_per,
            diversity: d.diversity.map(f32::from_bits),
            expand: d.expand,
            rank_by: None,
            rerank: d.rerank,
            projection: d.projection,
            exact: d.exact,
            explain: d.explain,
        }
    }
}

impl SearchOpts {
    fn lowered(&self) -> Request {
        Request {
            top_k: self.top_k,
            offset: self.offset,
            filter: self.filter.lowered(),
            min_score: self.min_score.map(f32::to_bits),
            limit_per: self.limit_per.clone(),
            diversity: self.diversity.map(f32::to_bits),
            expand: self.expand.clone(),
            rank_by: self.rank_by.as_ref().map(lowered_rank),
            rerank: self.rerank.clone(),
            projection: self.projection.clone(),
            exact: self.exact,
            explain: self.explain,
            ..Default::default()
        }
    }
}

#[derive(Clone, Debug)]
struct ListOpts {
    filter: Filter,
    offset: usize,
    limit: usize,
    order_by: Option<OrderBy>,
    projection: Projection,
}

impl Default for ListOpts {
    fn default() -> ListOpts {
        let d = ListRequest::default();
        ListOpts {
            filter: Filter::default(),
            offset: d.offset,
            limit: d.limit,
            order_by: d.order_by,
            projection: d.projection,
        }
    }
}

#[derive(Clone, Debug)]
struct HybridOpts {
    top_k: usize,
    offset: usize,
    candidates: usize,
    rrf_k: f32,
    filter: Filter,
    vector_weight: f32,
    text_weight: f32,
    explain: bool,
    expand: Option<Expand>,
    rerank: Option<RerankOpts>,
}

impl Default for HybridOpts {
    fn default() -> HybridOpts {
        let d = HybridRequest::default();
        HybridOpts {
            top_k: d.top_k,
            offset: d.offset,
            candidates: d.candidates,
            rrf_k: f32::from_bits(d.rrf_k),
            filter: Filter::default(),
            vector_weight: f32::from_bits(d.vector_weight),
            text_weight: f32::from_bits(d.text_weight),
            explain: d.explain,
            expand: d.expand,
            rerank: d.rerank,
        }
    }
}

impl HybridOpts {
    fn lowered(&self) -> HybridRequest {
        HybridRequest {
            top_k: self.top_k,
            offset: self.offset,
            candidates: self.candidates,
            rrf_k: self.rrf_k.to_bits(),
            filter: self.filter.lowered(),
            vector_weight: self.vector_weight.to_bits(),
            text_weight: self.text_weight.to_bits(),
            explain: self.explain,
            expand: self.expand.clone(),
            rerank: self.rerank.clone(),
            ..Default::default()
        }
    }
}

#[derive(Clone, Debug, Default)]
struct AggregateOpts {
    filter: Filter,
    sum: Vec<String>,
    group_by: Option<String>,
}

#[derive(Clone, Debug, PartialEq)]
struct Group {
    value: Option<Value>,
    count: u64,
    sums: BTreeMap<String, Value>,
}

#[derive(Clone, Debug, PartialEq)]
struct Aggregation {
    count: u64,
    sums: BTreeMap<String, Value>,
    groups: Vec<Group>,
    groups_truncated: bool,
}

#[derive(Clone, Copy, Debug, PartialEq)]
struct LegScore {
    rank: usize,
    score: f32,
}

#[derive(Clone, Debug, PartialEq)]
struct ClauseScore {
    field: String,
    score: f32,
    expansion: Option<Expansion>,
}

#[derive(Clone, Debug, PartialEq)]
struct Annotations {
    vector: Option<LegScore>,
    text: Option<LegScore>,
    clauses: Vec<ClauseScore>,
    highlights: Vec<Highlight>,
}

#[derive(Clone, Debug, PartialEq)]
struct Hit {
    collection: String,
    id: String,
    score: f32,
    attrs: BTreeMap<String, Value>,
    context: Option<String>,
    annotations: Option<Annotations>,
}

impl Hit {
    fn new(
        collection: impl Into<String>,
        id: impl Into<String>,
        score: f32,
        attrs: BTreeMap<String, Value>,
    ) -> Hit {
        Hit {
            collection: collection.into(),
            id: id.into(),
            score,
            attrs,
            context: None,
            annotations: None,
        }
    }

    fn lowered(&self) -> Found {
        let mut out = Found::new(
            &self.collection,
            &self.id,
            self.score.to_bits(),
            lowered_attrs(&self.attrs),
        );
        out.context = self.context.clone();
        out
    }
}

fn leg(l: &Leg) -> LegScore {
    LegScore {
        rank: l.rank,
        score: f32::from_bits(l.score),
    }
}

fn lifted_notes(n: &Notes) -> Annotations {
    Annotations {
        vector: n.vector.as_ref().map(leg),
        text: n.text.as_ref().map(leg),
        clauses: n
            .clauses
            .iter()
            .map(|c| ClauseScore {
                field: c.field.clone(),
                score: f32::from_bits(c.score),
                expansion: c.expansion,
            })
            .collect(),
        highlights: n.highlights.clone(),
    }
}

fn lifted_hit(h: &Found) -> Hit {
    Hit {
        collection: h.collection.clone(),
        id: h.id.clone(),
        score: f32::from_bits(h.score),
        attrs: lifted_attrs(&h.attrs),
        context: h.context.clone(),
        annotations: h.annotations.as_ref().map(lifted_notes),
    }
}

fn lifted_hits(hits: Vec<Found>) -> Vec<Hit> {
    hits.iter().map(lifted_hit).collect()
}

fn lowered_hits(hits: &[Hit]) -> Vec<Found> {
    hits.iter().map(Hit::lowered).collect()
}

#[derive(Clone, Debug, PartialEq)]
struct FtsField {
    field: String,
    language: Language,
    k1: f32,
    b: f32,
    ascii_folding: bool,
}

impl FtsField {
    fn new(field: &str) -> FtsField {
        FtsField::lifted(&Declared::new(field))
    }

    fn lifted(f: &Declared) -> FtsField {
        FtsField {
            field: f.field.clone(),
            language: f.language,
            k1: f32::from_bits(f.k1),
            b: f32::from_bits(f.b),
            ascii_folding: f.ascii_folding,
        }
    }

    fn lowered(&self) -> Declared {
        Declared::new(&self.field)
            .language(self.language)
            .k1(self.k1.to_bits())
            .b(self.b.to_bits())
            .ascii_folding(self.ascii_folding)
    }

    fn k1(self, k1: f32) -> FtsField {
        FtsField { k1, ..self }
    }

    fn b(self, b: f32) -> FtsField {
        FtsField { b, ..self }
    }

    fn ascii_folding(self, ascii_folding: bool) -> FtsField {
        FtsField {
            ascii_folding,
            ..self
        }
    }
}

#[derive(Debug, PartialEq)]
struct Analyzer {
    language: Language,
    ascii_folding: bool,
}

impl Default for Analyzer {
    fn default() -> Analyzer {
        Analyzer {
            language: Language::English,
            ascii_folding: false,
        }
    }
}

struct Schemas(Dict<Schema>);

impl Schemas {
    fn schema_for(&self, collection: &str) -> Option<Vec<FtsField>> {
        self.0
            .get(collection)
            .map(|s| s.fields.iter().map(FtsField::lifted).collect())
    }

    fn field_analyzer(&self, collection: &str, field: &str) -> Option<Analyzer> {
        let fields = self.schema_for(collection)?;
        let f = fields.iter().find(|f| f.field == field)?;
        Some(Analyzer {
            language: f.language,
            ascii_folding: f.ascii_folding,
        })
    }

    fn cache_key(&self) -> String {
        format!("{:?}", self.0)
    }
}

#[derive(Clone, Debug)]
struct FtsQuery(TextQuery);

impl FtsQuery {
    fn new(field: &str, text: &str) -> FtsQuery {
        FtsQuery(TextQuery::new(field, text))
    }

    fn multi<const N: usize>(clauses: [FtsClause; N]) -> FtsQuery {
        FtsQuery(TextQuery::multi(clauses.into_iter().collect()))
    }

    fn combine(self, combine: FtsCombine) -> FtsQuery {
        FtsQuery(self.0.combine(combine))
    }

    fn highlight(self, opts: HighlightOpts) -> FtsQuery {
        FtsQuery(self.0.highlight(opts))
    }
}

#[derive(Clone, Debug, PartialEq)]
struct Suggestion {
    term: String,
    df: usize,
}

#[derive(Clone, Debug, Default, PartialEq)]
struct Suggestions {
    suggestions: Vec<Suggestion>,
    matched: usize,
}

struct FilterIndexField(String);

impl FilterIndexField {
    fn new(field: &str) -> FilterIndexField {
        FilterIndexField(field.to_string())
    }
}

// ---- the arithmetic ------------------------------------------------------------------------

fn normalize(v: &mut [f32]) {
    let norm = v.iter().map(|x| x * x).sum::<f32>().sqrt();
    if norm > 0.0 {
        for x in v.iter_mut() {
            *x /= norm;
        }
    }
}

fn f(b: u32) -> f32 {
    f32::from_bits(b)
}

fn dot(a: &[u32], b: &[u32]) -> f32 {
    a.iter().zip(b).map(|(x, y)| f(*x) * f(*y)).sum()
}

#[derive(Clone, Copy)]
struct Single;

impl Kernel for Single {
    fn unit(&self, v: &Vec<u32>) -> Vec<u32> {
        let mut x = floats(v);
        normalize(&mut x);
        bits(&x)
    }

    fn dot(&self, a: &Vec<u32>, b: &Vec<u32>) -> u32 {
        dot(a, b).to_bits()
    }

    fn gap(&self, a: &Vec<u32>, b: &Vec<u32>) -> u32 {
        let gaps = a.iter().zip(b).map(|(x, y)| f(*x) - f(*y));
        (-gaps.map(|d| d * d).sum::<f32>()).to_bits()
    }

    fn adjust(&self, d: &Rule, base: u32, terms: RankTerms) -> u32 {
        let mut out = f(base);
        match terms.recency {
            Recency::Off => {}
            Recency::Missing => out -= f(d.lambda) * (1.0 - f(d.missing)),
            Recency::Age(ms) => {
                let factor = f(d.decay).powf((ms as f64 / d.scale as f64) as f32);
                out -= f(d.lambda) * (1.0 - factor);
            }
        }
        if let Some(n) = terms.recalls {
            out -= f(d.count_lambda) * (1.0 - recall_factor(d, n));
        }
        out.to_bits()
    }

    fn cosine(&self, a: &Vec<u32>, b: &Vec<u32>) -> u32 {
        let (na, nb) = (dot(a, a).sqrt(), dot(b, b).sqrt());
        if na <= 0.0 || nb <= 0.0 {
            return 0.0f32.to_bits();
        }
        (dot(a, b) / (na * nb)).to_bits()
    }

    fn mmr(&self, lambda: u32, score: u32, redundancy: u32) -> u32 {
        (f(lambda) * f(score) - (1.0 - f(lambda)) * f(redundancy)).to_bits()
    }

    fn plus(&self, a: u32, b: u32) -> u32 {
        (f(a) + f(b)).to_bits()
    }

    fn scaled(&self, a: u32, b: u32) -> u32 {
        (f(a) * f(b)).to_bits()
    }

    fn reciprocal(&self, weight: u32, k: u32, rank: usize) -> u32 {
        (f(weight) / (f(k) + rank as f32 + 1.0)).to_bits()
    }

    fn fit(&self, rows: &Vec<Vec<u32>>) -> u32 {
        let mut widest = 0.0f32;
        for x in rows.iter().flatten() {
            widest = widest.max(f(*x).abs());
        }
        let scale = if widest > 0.0 { widest / 127.0 } else { 1.0 };
        scale.to_bits()
    }

    fn quantize(&self, scale: u32, row: &Vec<u32>) -> Vec<i8> {
        row.iter()
            .map(|x| (f(*x) / f(scale)).round().clamp(-127.0, 127.0) as i8)
            .collect()
    }

    fn whole(&self, n: i128) -> u32 {
        (n as f32).to_bits()
    }

    fn total(&self, ints: i128, floats: &Vec<u64>) -> u64 {
        let mut sum = 0.0;
        for x in floats {
            sum += f64::from_bits(*x);
        }
        (ints as f64 + sum).to_bits()
    }

    fn exceeds(&self, part: u64, whole: u64, share: u32) -> bool {
        part as f32 / whole as f32 > f(share)
    }
}

fn recall_factor(d: &Rule, n: i64) -> f32 {
    let n = n.max(0) as f64;
    (n / (n + f(d.count_scale) as f64)) as f32
}

// ---- the indexes beside the store ----------------------------------------------------------

/// The indexes beside a store. A graph that is walked narrowly misses some of the rows of a large
/// store; an inverted file is read as far as it is probed.
struct Walker<'a> {
    core: &'a Core,
    kernel: Single,
    cancelled: bool,
}

impl Walker<'_> {
    fn closeness(&self, a: &Vec<u32>, b: &Vec<u32>) -> f32 {
        match self.core.config.distance {
            Distance::Euclidean => f(self.kernel.gap(a, b)),
            _ => f(self.kernel.dot(a, b)),
        }
    }

    fn nearest(&self, rows: impl Iterator<Item = usize>, query: &Vec<u32>, n: usize) -> Vec<u64> {
        let mut found: Vec<(f32, u64)> = rows
            .map(|r| (self.closeness(query, &self.core.rows[r]), r as u64))
            .collect();
        found.sort_by(|a, b| b.0.total_cmp(&a.0).then(a.1.cmp(&b.1)));
        found.into_iter().take(n).map(|(_, r)| r).collect()
    }

    /// A graph over all the rows, walked `width` wide.
    fn graph(&self, width: usize, query: &Vec<u32>, n: usize) -> Vec<u64> {
        let narrow = self.core.rows.len() > 500 && width.max(n) < 128;
        let seen = (0..self.core.rows.len()).filter(|r| !narrow || r % 23 != 11);
        self.nearest(seen, query, n)
    }

    /// An inverted file over some of the rows: about as many lists as each is long, of which the
    /// `probes` nearest to the query are read.
    fn lists(
        &self,
        from: usize,
        to: usize,
        probes: usize,
        query: &Vec<u32>,
        n: usize,
    ) -> Vec<u64> {
        let count = ((to - from) as f64).sqrt().ceil() as usize;
        let mut heads: Vec<Vec<u32>> = (0..count)
            .map(|i| self.core.rows[from + i * (to - from) / count].clone())
            .collect();
        let assigned = |heads: &[Vec<u32>]| -> Vec<usize> {
            self.core.rows[from..to]
                .iter()
                .map(|row| {
                    let near = |i: &usize| self.closeness(row, &heads[*i]);
                    (0..count).max_by(|a, b| near(a).total_cmp(&near(b))).unwrap()
                })
                .collect()
        };
        for _ in 0..2 {
            let list = assigned(&heads);
            for (i, head) in heads.iter_mut().enumerate() {
                let mut sum = vec![0.0f32; query.len()];
                for (r, _) in list.iter().enumerate().filter(|(_, l)| **l == i) {
                    for (s, x) in sum.iter_mut().zip(&self.core.rows[from + r]) {
                        *s += f(*x);
                    }
                }
                normalize(&mut sum);
                *head = bits(&sum);
            }
        }
        let list = assigned(&heads);
        let mut order: Vec<usize> = (0..count).collect();
        order.sort_by(|a, b| {
            let (x, y) = (self.closeness(query, &heads[*a]), self.closeness(query, &heads[*b]));
            y.total_cmp(&x)
        });
        order.truncate(probes);
        let read = (from..to).filter(|r| order.contains(&list[*r - from]));
        self.nearest(read, query, n)
    }
}

impl Host for Walker<'_> {
    fn now(&self) -> u64 {
        0
    }

    fn cancelled(&self) -> bool {
        self.cancelled
    }

    /// The index over the declared fields knows words, and nothing else.
    fn propose(&self, collection: &str, filter: &Condition) -> Option<Vec<String>> {
        let indexed = self.core.index.findex.get(collection)?;
        let (field, text) = filter.0.iter().find_map(|p| match p {
            Check::ContainsAllTokens(f, t) if indexed.fields.contains(f) => Some((f, t)),
            _ => None,
        })?;
        let docs = &self.core.index.collections.get(collection)?.docs;
        let named = (0..docs.len()).filter(|i| match docs.value_at(*i).attrs.get(field) {
            Some(Datum::Str(s)) => nidus::token::holds_words(s, text),
            _ => false,
        });
        Some(named.map(|i| docs.key_at(i).clone()).collect())
    }

    fn walk(&self, ann: &AnnConfig, query: &Vec<u32>, n: usize) -> Vec<u64> {
        match ann.kind {
            AnnKind::Hnsw => self.graph(ann.ef_search.unwrap_or(64), query, n),
            AnnKind::Ivf => self.lists(0, self.core.rows.len(), ann.n_probe, query, n),
        }
    }

    fn walk_segment(&self, segment: usize, query: &Vec<u32>, n: usize) -> Vec<u64> {
        let from: u64 = self.core.segments[..segment].iter().map(|s| s.rows).sum();
        let rows = self.core.segments[segment].rows;
        self.lists(from as usize, (from + rows) as usize, 8, query, n)
    }
}

const STOP_WORDS: [&str; 16] = [
    "a", "an", "and", "are", "at", "by", "for", "in", "is", "of", "on", "the", "to", "was", "were",
    "with",
];

fn folded(c: char) -> char {
    match c {
        'à' | 'á' | 'â' | 'ä' => 'a',
        'é' | 'è' | 'ê' | 'ë' => 'e',
        'ö' | 'ô' => 'o',
        'ü' | 'û' => 'u',
        other => other,
    }
}

fn stem(word: &str) -> String {
    let mut w = word.to_string();
    if w.len() > 5 && w.ends_with("ing") {
        w.truncate(w.len() - 3);
        let b = w.as_bytes();
        if b.len() > 2 && b[b.len() - 1] == b[b.len() - 2] {
            w.pop();
        }
    } else if w.len() > 3 && w.ends_with('s') && !w.ends_with("ss") {
        w.pop();
    }
    w
}

/// The words of a text with the bytes they take up, the stop words among them.
fn words(text: &str, fold: bool) -> Vec<(usize, usize, String)> {
    let mut out = Vec::new();
    let mut current = String::new();
    let mut start = 0;
    for (at, c) in text.char_indices() {
        if c.is_alphanumeric() {
            if current.is_empty() {
                start = at;
            }
            for l in c.to_lowercase() {
                current.push(if fold { folded(l) } else { l });
            }
        } else if !current.is_empty() {
            out.push((start, at, std::mem::take(&mut current)));
        }
    }
    if !current.is_empty() {
        out.push((start, text.len(), current));
    }
    out
}

/// A full-text index that reads the documents anew at every question. A term is a stem, marked
/// `s:`, or a word as it is spelled, marked `w:`.
struct Reader<'a>(&'a Index);

impl Reader<'_> {
    fn field(&self, collection: &str, field: &str) -> Option<Declared> {
        let schema = self.0.fts.get(collection)?;
        schema.fields.iter().find(|f| f.field == field).cloned()
    }

    fn tokens(&self, declared: &Declared, text: &str) -> Vec<(usize, usize, String)> {
        words(text, declared.ascii_folding)
            .into_iter()
            .filter(|(_, _, w)| !STOP_WORDS.contains(&w.as_str()))
            .collect()
    }

    fn terms(&self, declared: &Declared, text: &str) -> Vec<String> {
        self.tokens(declared, text)
            .iter()
            .map(|(_, _, w)| format!("s:{}", stem(w)))
            .collect()
    }

    /// Each document that has the field, with its words.
    fn documents(&self, collection: &str, declared: &Declared) -> Vec<(String, Vec<String>)> {
        let Some(c) = self.0.collections.get(collection) else {
            return Vec::new();
        };
        let mut out = Vec::new();
        for i in 0..c.docs.len() {
            if let Some(Datum::Str(text)) = c.docs.value_at(i).attrs.get(&declared.field) {
                let words = self.tokens(declared, text).into_iter().map(|t| t.2);
                out.push((c.docs.key_at(i).clone(), words.collect()));
            }
        }
        out
    }

    fn spelled(&self, collection: &str, declared: &Declared) -> BTreeMap<String, Vec<String>> {
        let mut out: BTreeMap<String, Vec<String>> = BTreeMap::new();
        for (id, words) in self.documents(collection, declared) {
            let distinct: HashSet<String> = words.into_iter().collect();
            for w in distinct {
                out.entry(w).or_default().push(id.clone());
            }
        }
        out
    }
}

fn occurrences(term: &str, words: &[String]) -> usize {
    match term.split_at(2) {
        ("s:", t) => words.iter().filter(|w| stem(w) == t).count(),
        (_, t) => words.iter().filter(|w| w.as_str() == t).count(),
    }
}

impl Lexicon for Reader<'_> {
    fn analyze(&self, collection: &str, field: &str, text: &str) -> Vec<String> {
        match self.field(collection, field) {
            Some(d) => self.terms(&d, text),
            None => Vec::new(),
        }
    }

    fn split(&self, collection: &str, field: &str, text: &str) -> (Vec<String>, Option<String>) {
        let Some(d) = self.field(collection, field) else {
            return (Vec::new(), None);
        };
        match words(text, d.ascii_folding).pop() {
            Some((start, _, fragment)) => (self.terms(&d, &text[..start]), Some(fragment)),
            None => (Vec::new(), None),
        }
    }

    fn expand(&self, collection: &str, field: &str, fragment: &str) -> (Vec<String>, usize) {
        let all = self.complete(collection, field, fragment);
        let kept = all.iter().take(self.most_terms());
        (kept.map(|(w, _)| format!("w:{w}")).collect(), all.len())
    }

    fn score(&self, collection: &str, field: &str, terms: &Vec<String>) -> Vec<(String, u32)> {
        let Some(d) = self.field(collection, field) else {
            return Vec::new();
        };
        let docs = self.documents(collection, &d);
        let n = docs.len() as f32;
        let length: usize = docs.iter().map(|(_, w)| w.len()).sum();
        let mean = length as f32 / n;
        let (k1, b) = (f(d.k1), f(d.b));
        let mut out = Vec::new();
        for (id, words) in &docs {
            let mut sum = 0.0f32;
            for t in terms {
                let tf = occurrences(t, words) as f32;
                if tf > 0.0 {
                    let df = docs.iter().filter(|(_, w)| occurrences(t, w) > 0).count() as f32;
                    let idf = (1.0 + (n - df + 0.5) / (df + 0.5)).ln();
                    let spread = 1.0 - b + b * words.len() as f32 / mean;
                    sum += idf * tf * (k1 + 1.0) / (tf + k1 * spread);
                }
            }
            if sum > 0.0 {
                out.push((id.clone(), sum.to_bits()));
            }
        }
        out
    }

    fn passages(
        &self,
        collection: &str,
        field: &str,
        attrs: &Attrs,
        terms: &Vec<String>,
        opts: &HighlightOpts,
    ) -> Vec<Fragment> {
        if opts.max_fragments == Some(0) {
            return Vec::new();
        }
        let Some(d) = self.field(collection, field) else {
            return Vec::new();
        };
        let Some(Datum::Str(text)) = attrs.get(field) else {
            return Vec::new();
        };
        let spans: Vec<(usize, usize)> = self
            .tokens(&d, text)
            .into_iter()
            .filter(|(_, _, w)| {
                terms
                    .iter()
                    .any(|t| occurrences(t, std::slice::from_ref(w)) > 0)
            })
            .map(|(s, e, _)| (s, e))
            .collect();
        if spans.is_empty() {
            return Vec::new();
        }
        vec![Fragment {
            text: text.clone(),
            spans,
        }]
    }

    fn holding(&self, collection: &str, field: &str, terms: &Vec<String>) -> Option<Vec<String>> {
        if terms.is_empty() {
            return None;
        }
        let d = self.field(collection, field)?;
        Some(
            self.documents(collection, &d)
                .into_iter()
                .filter(|(_, words)| terms.iter().all(|t| occurrences(t, words) > 0))
                .map(|(id, _)| id)
                .collect(),
        )
    }

    fn complete(
        &self,
        collection: &str,
        field: &str,
        fragment: &str,
    ) -> Vec<(String, Vec<String>)> {
        match self.field(collection, field) {
            Some(d) => self
                .spelled(collection, &d)
                .into_iter()
                .filter(|(w, _)| w.starts_with(fragment))
                .collect(),
            None => Vec::new(),
        }
    }

    fn near(
        &self,
        collection: &str,
        field: &str,
        fragment: &str,
        edits: usize,
    ) -> Vec<(String, usize, Vec<String>)> {
        match self.field(collection, field) {
            Some(d) => self
                .spelled(collection, &d)
                .into_iter()
                .map(|(w, ids)| (distance(&w, fragment), w, ids))
                .filter(|(apart, _, _)| *apart <= edits)
                .map(|(apart, w, ids)| (w, apart, ids))
                .collect(),
            None => Vec::new(),
        }
    }

    fn edits(&self, fragment: &str) -> usize {
        if fragment.chars().count() < 4 {
            0
        } else {
            1
        }
    }

    fn most_terms(&self) -> usize {
        50
    }

    fn refuses(&self, filter: &Condition) -> bool {
        filter.0.iter().any(|p| matches!(p, Check::In(_, values) if values.is_empty()))
    }
}

/// How many letters have to be inserted, dropped or exchanged.
fn distance(a: &str, b: &str) -> usize {
    let b: Vec<char> = b.chars().collect();
    let mut row: Vec<usize> = (0..=b.len()).collect();
    for (i, x) in a.chars().enumerate() {
        let mut next = vec![i + 1];
        for (j, y) in b.iter().enumerate() {
            let exchanged = row[j] + usize::from(x != *y);
            next.push(exchanged.min(row[j + 1] + 1).min(next[j] + 1));
        }
        row = next;
    }
    row[b.len()]
}

// ---- a place on disk -----------------------------------------------------------------------

#[derive(Clone, Debug)]
struct Place {
    disk: Arc<Mutex<Disk>>,
    /// How often each segment was read.
    gets: Arc<Mutex<BTreeMap<u64, usize>>>,
    name: String,
}

fn tempdir() -> Place {
    place(Backend {
        native_lock: true,
        memory_tier: false,
        cas: false,
    })
}

fn place(backend: Backend) -> Place {
    Place {
        disk: Arc::new(Mutex::new(Disk::fresh(backend))),
        gets: Arc::default(),
        name: String::new(),
    }
}

fn segment_name(id: u64) -> String {
    if id == 0 {
        "data".to_string()
    } else {
        format!("seg-{id:08}")
    }
}

impl Place {
    fn path(&self) -> &Place {
        self
    }

    fn to_path_buf(&self) -> Place {
        self.clone()
    }

    fn join(&self, name: impl AsRef<str>) -> Place {
        Place {
            disk: self.disk.clone(),
            gets: self.gets.clone(),
            name: name.as_ref().to_string(),
        }
    }

    /// The state with no other segments than those that a handle has to read.
    fn fetched(&self, core: &Core) -> Disk {
        let mut d = self.edit(|d| d.clone());
        let live = match &d.manifest {
            Some(m) => m.segments.clone(),
            None => vec![0],
        };
        let ids = match core.lags(&d) {
            true => core.segments_to_fetch(&live),
            false => Vec::new(),
        };
        for id in &ids {
            *self.gets.lock().unwrap().entry(*id).or_default() += 1;
        }
        d.objects.retain(|o| ids.contains(&o.id));
        d
    }

    fn reset_gets(&self) {
        self.gets.lock().unwrap().clear();
    }

    fn get_count(&self, name: &str) -> usize {
        let gets = self.gets.lock().unwrap();
        let named = gets.iter().filter(|(id, _)| segment_name(**id) == name);
        named.map(|(_, n)| n).sum()
    }

    fn edit<T>(&self, f: impl FnOnce(&mut Disk) -> T) -> T {
        f(&mut self.disk.lock().unwrap())
    }

    fn is_there(&self) -> bool {
        self.edit(|d| match self.name.as_str() {
            "manifest" => d.manifest.is_some(),
            "fts" => d.fts.is_some(),
            name => match name.strip_suffix(".ivf") {
                Some(base) => d.sidecars.iter().any(|id| segment_name(*id) == base),
                None => d.objects.iter().any(|o| segment_name(o.id) == name),
            },
        })
    }

    fn remove(&self) {
        assert!(self.is_there());
        self.edit(|d| match self.name.as_str() {
            "manifest" => d.manifest = None,
            name => {
                let base = name.strip_suffix(".ivf").unwrap();
                d.sidecars.retain(|id| segment_name(*id) != base);
            }
        })
    }
}

trait Located {
    fn located(&self) -> Option<Place>;
}

impl Located for &Place {
    fn located(&self) -> Option<Place> {
        Some((*self).clone())
    }
}

impl Located for &str {
    fn located(&self) -> Option<Place> {
        None
    }
}

enum Fsync {
    OnFlush,
}

#[derive(Clone)]
struct Config {
    settings: Settings,
    place: Option<Place>,
}

impl Config {
    fn new(place: impl Located, dimension: usize) -> Config {
        Config {
            settings: Settings::new(dimension),
            place: place.located(),
        }
    }

    fn with(self, settings: Settings) -> Config {
        Config { settings, ..self }
    }

    fn distance(self, x: Distance) -> Config {
        let s = self.settings.distance(x);
        self.with(s)
    }

    fn open_mode(self, x: OpenMode) -> Config {
        let s = self.settings.open_mode(x);
        self.with(s)
    }

    fn auto_compact(self, x: Option<f32>) -> Config {
        let s = self.settings.auto_compact(x.map(f32::to_bits));
        self.with(s)
    }

    fn max_vector_bytes(self, x: Option<u64>) -> Config {
        let s = self.settings.max_vector_bytes(x);
        self.with(s)
    }

    fn quantization(self, x: Option<Quantization>) -> Config {
        let s = self.settings.quantization(x);
        self.with(s)
    }

    fn ann(self, x: Option<AnnConfig>) -> Config {
        let s = self.settings.ann(x);
        self.with(s)
    }

    fn segment_max_rows(self, x: Option<u64>) -> Config {
        let s = self.settings.segment_max_rows(x);
        self.with(s)
    }

    fn segment_index_min_rows(self, x: Option<u64>) -> Config {
        let s = self.settings.segment_index_min_rows(x);
        self.with(s)
    }

    fn query_threads(self, x: usize) -> Config {
        let s = self.settings.query_threads(x);
        self.with(s)
    }

    fn mmap(self, x: bool) -> Config {
        let s = self.settings.mmap(x);
        self.with(s)
    }

    fn history_versions(self, x: Option<u64>) -> Config {
        let s = self.settings.history_versions(x);
        self.with(s)
    }

    fn at_version(self, x: Option<u64>) -> Config {
        let s = self.settings.at_version(x);
        self.with(s)
    }

    fn cluster(self, x: bool) -> Config {
        let s = self.settings.cluster(x);
        self.with(s)
    }

    fn fsync(self, x: Fsync) -> Config {
        match x {
            Fsync::OnFlush => self,
        }
    }
}

// ---- the store -----------------------------------------------------------------------------

struct Store {
    core: Core,
    place: Option<Place>,
    kernel: Single,
    barrier: Barrier,
    /// How often the rows and the log were written.
    puts: Cell<(usize, usize)>,
    /// How many more rows can be appended before the appending fails.
    room: Cell<usize>,
    /// A query that runs is no longer wanted.
    cancelled: Cell<bool>,
}

struct Data<'a>(&'a Core, &'a Cell<usize>);

impl Data<'_> {
    fn row_count(&self) -> u64 {
        self.0.rows.len() as u64
    }

    fn version(&self) -> u64 {
        self.0.version
    }

    fn fail_after(&self, rows: usize) {
        self.1.set(rows);
    }

    fn dimension(&self) -> usize {
        self.0.dimension()
    }

    fn segment_count(&self) -> usize {
        self.0.segments.len()
    }

    fn segment_names(&self) -> Vec<String> {
        self.0.segments.iter().map(|s| segment_name(s.id)).collect()
    }

    fn segment_ranges(&self) -> Vec<(u64, u64)> {
        let mut base = 0;
        let mut out = Vec::new();
        for s in &self.0.segments {
            out.push((base, s.rows));
            base += s.rows;
        }
        out
    }
}

impl Store {
    fn wrap(core: Core, place: Option<Place>) -> Store {
        let kernel = Single;
        Store {
            core,
            place,
            kernel,
            barrier: Barrier::new(),
            puts: Cell::new((0, 0)),
            room: Cell::new(usize::MAX),
            cancelled: Cell::new(false),
        }
    }

    fn in_memory(dimension: usize) -> Result<Store, Fail> {
        let core = Core::in_memory(dimension).map_err(fail)?;
        Ok(Store::wrap(core, None))
    }

    fn in_memory_with(dimension: usize, distance: Distance) -> Result<Store, Fail> {
        let core = Core::in_memory_with(dimension, distance).map_err(fail)?;
        Ok(Store::wrap(core, None))
    }

    fn in_memory_cfg(config: Config) -> Result<Store, Fail> {
        let core = Core::in_memory_cfg(config.settings, 0).map_err(fail)?;
        Ok(Store::wrap(core, None))
    }

    fn open(config: Config) -> Result<Store, Fail> {
        let kernel = Single;
        let place = config.place.expect("a store on disk has a place");
        let core = place
            .edit(|d| Core::open(config.settings, d, None, 0, &kernel))
            .map_err(fail)?;
        Ok(Store::wrap(core, Some(place)))
    }

    fn replay_ops(ops: Vec<Op>, rows: u64) -> (Dict<Collection>, usize, Schemas, Dict<Indexed>) {
        let ix = nidus::index::replay_ops(ops, rows);
        (ix.collections, ix.dead_rows, Schemas(ix.fts), ix.findex)
    }

    /// A write is refused before anything changes where the handle may no longer write.
    fn guard(&mut self) -> Result<(), Fail> {
        let core = &mut self.core;
        match &self.place {
            Some(p) => p.edit(|d| core.keep_lease(d)).map_err(fail),
            None => Ok(()),
        }
    }

    /// What a successful write leaves on disk.
    fn saved<T>(&mut self, r: Result<T, StoreError>) -> Result<T, Fail> {
        let out = r.map_err(fail)?;
        if self.barrier.appended() {
            self.take_barrier()?;
        }
        Ok(out)
    }

    /// Make what was appended durable.
    fn take_barrier(&mut self) -> Result<(), Fail> {
        let core = &mut self.core;
        if let Some(p) = &self.place {
            let (data, log) = p.edit(|d| {
                let rows = |d: &Disk| d.objects.iter().map(|o| o.rows.len()).sum::<usize>();
                let before = (rows(d), d.log.len());
                core.save(d)
                    .map(|_| (rows(d) != before.0, d.log.len() != before.1))
            })
            .map_err(fail)?;
            let (rows, ops) = self.puts.get();
            self.puts.set((rows + data as usize, ops + log as usize));
        }
        self.barrier.covered();
        Ok(())
    }

    fn begin_deferred(&mut self) -> bool {
        self.barrier.begin_deferred()
    }

    fn end_deferred(&mut self, before: bool) {
        self.barrier.end_deferred(before);
    }

    fn commit(&mut self) -> Result<(), Fail> {
        if self.barrier.due() {
            self.take_barrier()?;
        }
        Ok(())
    }

    fn walker(&self) -> Walker<'_> {
        Walker {
            core: &self.core,
            kernel: self.kernel,
            cancelled: self.cancelled.get(),
        }
    }

    fn reader(&self) -> Reader<'_> {
        Reader(&self.core.index)
    }

    fn data(&self) -> Data<'_> {
        Data(&self.core, &self.room)
    }

    fn dead_rows(&self) -> usize {
        self.core.index.dead_rows
    }

    fn fts(&self) -> Schemas {
        Schemas(self.core.index.fts.clone())
    }

    fn open_profile(&self) -> OpenProfile {
        self.core.profile
    }

    fn seg_indexes(&self) -> Vec<Option<()>> {
        self.core
            .indexed
            .iter()
            .map(|on| if *on { Some(()) } else { None })
            .collect()
    }

    fn seg_index_dirty(&self) -> Vec<bool> {
        self.core.index_dirty.clone()
    }

    fn config(&self) -> &Settings {
        self.core.config()
    }

    fn dimension(&self) -> usize {
        self.core.dimension()
    }

    fn effective_query_threads(&self) -> usize {
        self.core.effective_query_threads()
    }

    fn footprint(&self) -> Footprint {
        self.core.footprint(0)
    }

    fn has_collection(&self, name: &str) -> bool {
        self.core.has_collection(name)
    }

    fn collections(&self) -> Vec<String> {
        self.core.collections()
    }

    fn create_collection(&mut self, name: &str) -> Result<(), Fail> {
        self.guard()?;
        let r = self.core.create_collection(name);
        self.saved(r)
    }

    fn drop_collection(&mut self, name: &str) -> Result<(), Fail> {
        self.guard()?;
        let r = self.core.drop_collection(name);
        self.saved(r)
    }

    fn set_meta(&mut self, name: &str, meta: BTreeMap<String, String>) -> Result<(), Fail> {
        let mut d: Dict<String> = Dict::new();
        for (k, v) in meta {
            d.insert(k, v);
        }
        self.guard()?;
        let r = self.core.set_meta(name, d);
        self.saved(r)
    }

    fn get_meta(&self, name: &str) -> BTreeMap<String, String> {
        let d = self.core.get_meta(name);
        (0..d.len())
            .map(|i| (d.key_at(i).clone(), d.value_at(i).clone()))
            .collect()
    }

    fn upsert(&mut self, name: &str, records: &[Record]) -> Result<(), Fail> {
        let records: Vec<Stored> = records.iter().map(lowered_record).collect();
        self.guard()?;
        let at = self.core.savepoint();
        let rows = self.core.rows.len();
        let r = self.core.upsert(name, &records, &self.kernel);
        let added = self.core.rows.len() - rows;
        if added > self.room.get() {
            self.core.rollback(at, &self.kernel);
            return Err(Fail("the rows could not be appended".to_string()));
        }
        if self.room.get() < usize::MAX {
            self.room.set(self.room.get() - added);
        }
        self.saved(r)
    }

    fn delete(&mut self, name: &str, ids: &[&str]) -> Result<usize, Fail> {
        self.guard()?;
        let r = self.core.delete(name, ids);
        self.saved(r)
    }

    fn delete_where(&mut self, name: &str, filter: &Filter) -> Result<usize, Fail> {
        self.guard()?;
        let r = self.core.delete_where(name, &filter.lowered());
        self.saved(r)
    }

    fn delete_where_all(&mut self, filter: &Filter) -> Result<usize, Fail> {
        self.guard()?;
        let r = self.core.delete_where_all(&filter.lowered());
        self.saved(r)
    }

    fn reinforce(
        &mut self,
        name: &str,
        ids: &[&str],
        now: i64,
        extend: Option<i64>,
    ) -> Result<usize, Fail> {
        self.guard()?;
        let r = self.core.reinforce(name, ids, now, extend);
        self.saved(r)
    }

    fn set_fts_schema(&mut self, name: &str, fields: &[FtsField]) -> Result<(), Fail> {
        let fields: Vec<Declared> = fields.iter().map(FtsField::lowered).collect();
        self.guard()?;
        let r = self.core.set_fts_schema(name, fields);
        self.saved(r)
    }

    fn set_filter_index(&mut self, name: &str, fields: &[FilterIndexField]) -> Result<(), Fail> {
        let fields: Vec<String> = fields.iter().map(|f| f.0.clone()).collect();
        self.guard()?;
        let r = self.core.set_filter_index(name, fields);
        self.saved(r)
    }

    fn set_open_profile(&mut self, profile: &OpenProfile) -> Result<(), Fail> {
        self.guard()?;
        let r = self.core.set_open_profile(profile);
        self.saved(r)
    }

    fn clear_open_profile(&mut self) -> Result<(), Fail> {
        self.guard()?;
        let r = self.core.clear_open_profile();
        self.saved(r)
    }

    fn get(&self, name: &str, id: &str) -> Option<Record> {
        self.core.get(name, id).map(|r| lifted_record(&r))
    }

    fn get_all(&self, name: &str) -> Vec<Record> {
        self.core.get_all(name).iter().map(lifted_record).collect()
    }

    fn attrs_of(&self, name: &str, id: &str) -> Option<BTreeMap<String, Value>> {
        self.core.attrs_of(name, id).map(lifted_attrs)
    }

    fn list(&self, names: &[&str], opts: &ListOpts) -> Result<Vec<Hit>, Fail> {
        let request = ListRequest {
            filter: opts.filter.lowered(),
            offset: opts.offset,
            limit: opts.limit,
            order_by: opts.order_by.clone(),
            projection: opts.projection.clone(),
        };
        self.core.list(names, &request).map(lifted_hits).map_err(fail)
    }

    fn aggregate(&self, names: &[&str], opts: &AggregateOpts) -> Aggregation {
        let request = Totals {
            filter: opts.filter.lowered(),
            sum: opts.sum.clone(),
            group_by: opts.group_by.clone(),
        };
        let out = self.core.aggregate(names, &request, &self.kernel);
        Aggregation {
            count: out.count,
            sums: lifted_attrs(&out.sums),
            groups: out
                .groups
                .iter()
                .map(|g| Group {
                    value: g.value.as_ref().map(lifted),
                    count: g.count,
                    sums: lifted_attrs(&g.sums),
                })
                .collect(),
            groups_truncated: out.groups_truncated,
        }
    }

    fn search(&self, names: &[&str], query: &[f32], opts: &SearchOpts) -> Result<Vec<Hit>, Fail> {
        self.core
            .search(
                names,
                &bits(query),
                &opts.lowered(),
                &self.kernel,
                &self.walker(),
            )
            .map(lifted_hits)
            .map_err(fail)
    }

    fn search_with_plan(
        &self,
        names: &[&str],
        query: &[f32],
        opts: &SearchOpts,
    ) -> Result<(Vec<Hit>, QueryPlan), Fail> {
        self.core
            .search_with_plan(
                names,
                &bits(query),
                &opts.lowered(),
                &self.kernel,
                &self.walker(),
            )
            .map(|(hits, plan)| (lifted_hits(hits), plan))
            .map_err(fail)
    }

    fn search_similar(
        &self,
        names: &[&str],
        name: &str,
        id: &str,
        opts: &SearchOpts,
    ) -> Result<Vec<Hit>, Fail> {
        self.core
            .search_similar(
                names,
                name,
                id,
                &opts.lowered(),
                &self.kernel,
                &self.walker(),
            )
            .map(lifted_hits)
            .map_err(|e| Fail(e.about(name, id)))
    }

    fn text_search(
        &self,
        names: &[&str],
        query: &FtsQuery,
        opts: &SearchOpts,
    ) -> Result<Vec<Hit>, Fail> {
        self.core
            .text_search(
                names,
                &query.0,
                &opts.lowered(),
                &self.kernel,
                &self.reader(),
            )
            .map(lifted_hits)
            .map_err(fail)
    }

    fn hybrid_search(
        &self,
        names: &[&str],
        vector: &[f32],
        query: &FtsQuery,
        opts: &HybridOpts,
    ) -> Result<Vec<Hit>, Fail> {
        self.core
            .hybrid_search(
                names,
                &bits(vector),
                &query.0,
                opts.lowered(),
                &self.kernel,
                &self.walker(),
                &self.reader(),
            )
            .map(lifted_hits)
            .map_err(fail)
    }

    fn suggest(&self, name: &str, field: &str, typed: &str, limit: usize) -> Suggestions {
        let out = self.core.suggest(
            &[name],
            field,
            typed,
            &SuggestOpts::new(limit),
            &self.reader(),
        )
        .unwrap();
        Suggestions {
            suggestions: out
                .suggestions
                .iter()
                .map(|s| Suggestion {
                    term: s.term.clone(),
                    df: s.df,
                })
                .collect(),
            matched: out.matched,
        }
    }

    fn finish(&self, hits: Vec<Hit>, opts: &SearchOpts) -> Vec<Hit> {
        lifted_hits(
            self.core
                .finish(lowered_hits(&hits), &opts.lowered(), &self.kernel),
        )
    }

    fn finish_hybrid(&self, hits: Vec<Hit>, opts: &HybridOpts) -> Vec<Hit> {
        lifted_hits(
            self.core
                .finish_hybrid(lowered_hits(&hits), &opts.lowered()),
        )
    }

    fn expand_hits(&self, hits: &mut Vec<Hit>, opts: &Expand) {
        let mut found = lowered_hits(hits);
        self.core.expand_hits(&mut found, opts);
        *hits = lifted_hits(found);
    }

    fn flush(&mut self) -> Result<(), Fail> {
        let core = &mut self.core;
        match &self.place {
            Some(p) => p.edit(|d| core.flush(d)),
            None => tempdir().edit(|d| core.flush(d)),
        }
        .map_err(fail)
    }

    fn compact(&mut self) -> Result<(), Fail> {
        let core = &mut self.core;
        let kernel = self.kernel;
        match &self.place {
            Some(p) => p.edit(|d| core.compact_on(d, &kernel)),
            None => core.compact(&kernel),
        }
        .map_err(fail)
    }

    /// The postings that a document's later versions replaced, and all of them.
    fn postings(&self) -> (u64, u64) {
        let ix = &self.core.index;
        let (mut written, mut live) = (0, 0);
        for op in &self.core.log {
            if let Op::Upsert { collection, .. } | Op::UpsertText { collection, .. } = op {
                if ix.fts.contains_key(collection) {
                    written += 1;
                }
            }
        }
        for i in 0..ix.collections.len() {
            if ix.fts.contains_key(ix.collections.key_at(i)) {
                live += ix.collections.value_at(i).docs.len() as u64;
            }
        }
        (written - live, written)
    }

    fn tombstone_ratio(&self) -> f32 {
        let (dead, total) = self.postings();
        if total == 0 {
            0.0
        } else {
            dead as f32 / total as f32
        }
    }

    fn fts_posting_count(&self) -> u64 {
        self.postings().1
    }

    fn persist_index(&mut self) -> Result<(), Fail> {
        let postings = self.postings();
        let core = &mut self.core;
        if let Some(p) = &self.place {
            p.edit(|d| core.persist_index(d, postings));
        }
        Ok(())
    }

    fn refresh(&mut self) -> Result<bool, Fail> {
        let core = &mut self.core;
        let kernel = self.kernel;
        match &self.place {
            Some(p) => {
                let d = p.fetched(core);
                core.refresh(&d, 0, &kernel)
            }
            None => tempdir().edit(|d| core.refresh(d, 0, &kernel)),
        }
        .map_err(fail)
    }

    fn refresh_to(&mut self, version: u64) -> Result<(), Fail> {
        let core = &mut self.core;
        let kernel = self.kernel;
        let p = self.place.as_ref().expect("a store on disk has a place");
        p.edit(|d| core.refresh_to(d, version, 0, &kernel))
            .map_err(fail)
    }

    fn versions(&self) -> Result<StoreVersions, Fail> {
        let core = &self.core;
        let p = self.place.as_ref().expect("a store on disk has a place");
        Ok(p.edit(|d| core.versions(d)))
    }

    fn pinned(&self) -> Option<u64> {
        self.core.pinned()
    }
}

fn depth(opts: &SearchOpts) -> usize {
    nidus::rank::depth(&opts.lowered())
}

fn rerank_depth(opts: &SearchOpts) -> usize {
    nidus::rerank::rerank_depth(&opts.lowered())
}

fn candidate_texts(hits: &[Hit], attr: &str) -> (Vec<String>, Vec<usize>) {
    let found = lowered_hits(hits);
    let (texts, through) = nidus::rerank::candidate_texts(&found, attr);
    (texts.iter().map(|t| t.to_string()).collect(), through)
}

fn apply_scores(hits: Vec<Hit>, scored: &[(usize, f32)], through: Vec<usize>) -> Vec<Hit> {
    let scored: Vec<(usize, u32)> = scored.iter().map(|(i, s)| (*i, s.to_bits())).collect();
    lifted_hits(nidus::rerank::apply_scores(
        lowered_hits(&hits),
        &scored,
        &through,
    ))
}

struct Int8State {
    vectors: Vec<i8>,
    params_rows: u64,
}

fn int8_state(store: &Store) -> Int8State {
    match store.core.quant.as_ref().expect("quantization should be enabled") {
        Quant::Int8 {
            vectors,
            params_rows,
            ..
        } => Int8State {
            vectors: vectors.iter().flatten().copied().collect(),
            params_rows: *params_rows,
        },
        Quant::Binary { .. } => panic!("expected int8 quant state, found binary"),
    }
}

struct BinState {
    words: Vec<u64>,
    words_per_row: usize,
}

fn bin_state(store: &Store) -> BinState {
    match store.core.quant.as_ref().expect("quantization should be enabled") {
        Quant::Binary {
            words,
            words_per_row,
        } => BinState {
            words: words.iter().flatten().copied().collect(),
            words_per_row: *words_per_row,
        },
        Quant::Int8 { .. } => panic!("expected binary quant state, found int8"),
    }
}

struct SplitMix64(u64);

impl SplitMix64 {
    fn new(seed: u64) -> SplitMix64 {
        SplitMix64(seed)
    }

    fn next_f64(&mut self) -> f64 {
        self.0 = self.0.wrapping_add(0x9E37_79B9_7F4A_7C15);
        let mut z = self.0;
        z = (z ^ (z >> 30)).wrapping_mul(0xBF58_476D_1CE4_E5B9);
        z = (z ^ (z >> 27)).wrapping_mul(0x94D0_49BB_1331_11EB);
        z ^= z >> 31;
        (z >> 11) as f64 / (1u64 << 53) as f64
    }
}


// ---- the tests -----------------------------------------------------------------------------

fn rec(id: &str, vector: Vec<f32>) -> Record {
    Record::new(id, vector, BTreeMap::new())
}

fn rec_with(id: &str, vector: Vec<f32>, attrs: BTreeMap<String, Value>) -> Record {
    Record::new(id, vector, attrs)
}

fn default_opts(top_k: usize) -> SearchOpts {
    SearchOpts {
        top_k,
        ..Default::default()
    }
}

#[test]
fn in_memory_dimension() {
    let store = Store::in_memory(4).unwrap();
    assert_eq!(store.dimension(), 4);
}

#[test]
fn effective_query_threads_matches_config_on_native() {
    let store = Store::in_memory_cfg(Config::new("/dev/null", 3).query_threads(4)).unwrap();
    assert_eq!(store.effective_query_threads(), 4);
}

#[test]
fn create_and_has_collection() {
    let mut store = Store::in_memory(3).unwrap();
    assert!(!store.has_collection("docs"));
    store.create_collection("docs").unwrap();
    assert!(store.has_collection("docs"));
}

#[test]
fn create_collection_idempotent() {
    let mut store = Store::in_memory(3).unwrap();
    store.create_collection("docs").unwrap();
    store.create_collection("docs").unwrap();
    assert!(store.has_collection("docs"));
    assert_eq!(store.collections().len(), 1);
}

#[test]
fn drop_collection() {
    let mut store = Store::in_memory(3).unwrap();
    store.create_collection("docs").unwrap();
    store.drop_collection("docs").unwrap();
    assert!(!store.has_collection("docs"));
}

#[test]
fn drop_nonexistent_collection_is_noop() {
    let mut store = Store::in_memory(3).unwrap();
    store.drop_collection("ghost").unwrap();
}

#[test]
fn collections_sorted() {
    let mut store = Store::in_memory(2).unwrap();
    store.create_collection("zebra").unwrap();
    store.create_collection("apple").unwrap();
    store.create_collection("mango").unwrap();
    let names = store.collections();
    assert_eq!(names, vec!["apple", "mango", "zebra"]);
}

#[test]
fn metadata_round_trip() {
    let mut store = Store::in_memory(2).unwrap();
    store.create_collection("col").unwrap();
    let mut meta = BTreeMap::new();
    meta.insert("model".to_string(), "text-embed-v1".to_string());
    meta.insert("hwm".to_string(), "42".to_string());
    store.set_meta("col", meta.clone()).unwrap();
    assert_eq!(store.get_meta("col"), meta);
}

#[test]
fn get_meta_absent_collection_returns_empty() {
    let store = Store::in_memory(2).unwrap();
    assert!(store.get_meta("nope").is_empty());
}

#[test]
fn upsert_and_search_exact_match() {
    let mut store = Store::in_memory(3).unwrap();
    store.create_collection("col").unwrap();
    store
        .upsert("col", &[rec("doc1", vec![1.0, 0.0, 0.0])])
        .unwrap();
    let hits = store
        .search(&["col"], &[1.0, 0.0, 0.0], &default_opts(5))
        .unwrap();
    assert_eq!(hits.len(), 1);
    assert_eq!(hits[0].id, "doc1");
    assert!(
        (hits[0].score - 1.0).abs() < 1e-6,
        "exact match should score ~1.0"
    );
}

#[test]
fn upsert_orthogonal_scores_zero() {
    let mut store = Store::in_memory(3).unwrap();
    store.create_collection("col").unwrap();
    store
        .upsert("col", &[rec("doc1", vec![1.0, 0.0, 0.0])])
        .unwrap();
    let hits = store
        .search(&["col"], &[0.0, 1.0, 0.0], &default_opts(5))
        .unwrap();
    assert_eq!(hits.len(), 1);
    assert!(
        hits[0].score.abs() < 1e-6,
        "orthogonal vectors should score ~0.0"
    );
}

#[test]
fn search_ranking_order() {
    let mut store = Store::in_memory(3).unwrap();
    store.create_collection("col").unwrap();
    store
        .upsert(
            "col",
            &[
                rec("doc_a", vec![1.0, 0.0, 0.0]),
                rec("doc_b", vec![0.0, 1.0, 0.0]),
            ],
        )
        .unwrap();
    let hits = store
        .search(&["col"], &[1.0, 0.0, 0.0], &default_opts(5))
        .unwrap();
    assert_eq!(hits.len(), 2);
    assert_eq!(hits[0].id, "doc_a", "highest scorer should be first");
    assert!(hits[0].score > hits[1].score);
}

#[test]
fn search_similar_excludes_the_source_record() {
    let mut store = Store::in_memory(3).unwrap();
    store
        .upsert(
            "col",
            &[
                rec("src", vec![1.0, 0.0, 0.0]),
                rec("near", vec![0.9, 0.1, 0.0]),
                rec("far", vec![0.0, 1.0, 0.0]),
            ],
        )
        .unwrap();
    let hits = store
        .search_similar(&["col"], "col", "src", &default_opts(10))
        .unwrap();
    let ids: Vec<&str> = hits.iter().map(|h| h.id.as_str()).collect();
    assert!(!ids.contains(&"src"), "source record must not self-match");
    assert!(ids.contains(&"near"), "a real neighbour must be returned");
    assert_eq!(hits[0].id, "near", "nearest neighbour ranks first");
}

#[test]
fn search_similar_keeps_a_true_duplicate() {
    let mut store = Store::in_memory(3).unwrap();
    store
        .upsert(
            "col",
            &[
                rec("src", vec![1.0, 0.0, 0.0]),
                rec("dup", vec![1.0, 0.0, 0.0]),
            ],
        )
        .unwrap();
    let hits = store
        .search_similar(&["col"], "col", "src", &default_opts(10))
        .unwrap();
    assert_eq!(hits.len(), 1);
    assert_eq!(hits[0].id, "dup");
    assert!(
        (hits[0].score - 1.0).abs() < 1e-6,
        "byte-identical duplicate must still score ~1.0"
    );
}

#[test]
fn search_similar_on_a_text_only_record_errors_with_the_reason() {
    let mut store = Store::in_memory(3).unwrap();
    store
        .upsert("col", &[text_rec("t1", attrs_one("kind", "note"))])
        .unwrap();
    let err = store
        .search_similar(&["col"], "col", "t1", &default_opts(10))
        .unwrap_err();
    let msg = err.to_string();
    assert!(msg.contains("t1"), "message should name the record: {msg}");
    assert!(msg.contains("text-only"), "message should say why: {msg}");
}

#[test]
fn search_similar_on_an_unknown_id_errors_distinctly() {
    let mut store = Store::in_memory(3).unwrap();
    store
        .upsert("col", &[rec("src", vec![1.0, 0.0, 0.0])])
        .unwrap();
    let err = store
        .search_similar(&["col"], "col", "ghost", &default_opts(10))
        .unwrap_err();
    let text_only_err = {
        store
            .upsert("col", &[text_rec("t1", attrs_one("kind", "note"))])
            .unwrap();
        store
            .search_similar(&["col"], "col", "t1", &default_opts(10))
            .unwrap_err()
    };
    assert_ne!(
        err.to_string(),
        text_only_err.to_string(),
        "a missing id and a text-only record must report distinct reasons"
    );
}

#[test]
fn search_similar_returns_a_full_page() {
    let mut store = Store::in_memory(3).unwrap();
    store
        .upsert(
            "col",
            &[
                rec("src", vec![1.0, 0.0, 0.0]),
                rec("n1", vec![0.9, 0.1, 0.0]),
                rec("n2", vec![0.8, 0.2, 0.0]),
                rec("n3", vec![0.7, 0.3, 0.0]),
                rec("n4", vec![0.6, 0.4, 0.0]),
            ],
        )
        .unwrap();
    let hits = store
        .search_similar(&["col"], "col", "src", &default_opts(3))
        .unwrap();
    assert_eq!(hits.len(), 3, "a full page of 3, not 2");
    let ids: Vec<&str> = hits.iter().map(|h| h.id.as_str()).collect();
    assert_eq!(ids, vec!["n1", "n2", "n3"]);
}

#[test]
fn search_similar_pages_without_the_source() {
    let mut store = Store::in_memory(3).unwrap();
    store
        .upsert(
            "col",
            &[
                rec("src", vec![1.0, 0.0, 0.0]),
                rec("n1", vec![0.9, 0.1, 0.0]),
                rec("n2", vec![0.8, 0.2, 0.0]),
                rec("n3", vec![0.7, 0.3, 0.0]),
            ],
        )
        .unwrap();
    let opts = SearchOpts {
        top_k: 1,
        offset: 1,
        ..Default::default()
    };
    let hits = store.search_similar(&["col"], "col", "src", &opts).unwrap();
    assert_eq!(hits.len(), 1);
    assert_eq!(hits[0].id, "n2");
}

#[test]
fn search_similar_can_cross_collections() {
    let mut store = Store::in_memory(3).unwrap();
    store
        .upsert("a", &[rec("src", vec![1.0, 0.0, 0.0])])
        .unwrap();
    store
        .upsert(
            "b",
            &[
                rec("near", vec![0.9, 0.1, 0.0]),
                rec("far", vec![0.0, 1.0, 0.0]),
            ],
        )
        .unwrap();
    let hits = store
        .search_similar(&["a", "b"], "a", "src", &default_opts(10))
        .unwrap();
    let ids: Vec<&str> = hits.iter().map(|h| h.id.as_str()).collect();
    assert!(!ids.contains(&"src"));
    assert_eq!(hits[0].collection, "b");
    assert_eq!(hits[0].id, "near");
}

#[test]
fn search_similar_does_not_let_the_source_spend_its_own_limit_per_slot() {
    let mut store = Store::in_memory(3).unwrap();
    let mut attrs = BTreeMap::new();
    attrs.insert("cat".to_string(), Value::Str("x".to_string()));
    store
        .upsert(
            "col",
            &[
                rec_with("src", vec![1.0, 0.0, 0.0], attrs.clone()),
                rec_with("near", vec![0.99, 0.1, 0.0], attrs),
                rec_with("far", vec![0.0, 1.0, 0.0], {
                    let mut m = BTreeMap::new();
                    m.insert("cat".to_string(), Value::Str("y".to_string()));
                    m
                }),
            ],
        )
        .unwrap();
    let opts = SearchOpts {
        top_k: 10,
        limit_per: Some(LimitPer::new("cat", 1)),
        ..Default::default()
    };
    let hits = store.search_similar(&["col"], "col", "src", &opts).unwrap();
    let ids: Vec<&str> = hits.iter().map(|h| h.id.as_str()).collect();
    assert!(!ids.contains(&"src"), "source must be excluded: {ids:?}");
    assert!(
        ids.contains(&"near"),
        "the cap's one `cat=x` slot belongs to the nearest real neighbour, not to the \
         already-excluded source: {ids:?}"
    );
    assert!(
        ids.contains(&"far"),
        "the other group is unaffected: {ids:?}"
    );
}

#[test]
fn upsert_is_idempotent_by_id() {
    let mut store = Store::in_memory(3).unwrap();
    store.create_collection("col").unwrap();
    store
        .upsert("col", &[rec("doc1", vec![1.0, 0.0, 0.0])])
        .unwrap();
    store
        .upsert("col", &[rec("doc1", vec![0.0, 1.0, 0.0])])
        .unwrap();
    assert_eq!(store.get_all("col").len(), 1);
    let hits = store
        .search(&["col"], &[0.0, 1.0, 0.0], &default_opts(5))
        .unwrap();
    assert_eq!(hits.len(), 1);
    assert!((hits[0].score - 1.0).abs() < 1e-6);
}

#[test]
fn delete_removes_doc() {
    let mut store = Store::in_memory(3).unwrap();
    store.create_collection("col").unwrap();
    store
        .upsert("col", &[rec("doc1", vec![1.0, 0.0, 0.0])])
        .unwrap();
    let removed = store.delete("col", &["doc1"]).unwrap();
    assert_eq!(removed, 1);
    assert!(store.get_all("col").is_empty());
}

#[test]
fn delete_nonexistent_returns_zero() {
    let mut store = Store::in_memory(3).unwrap();
    store.create_collection("col").unwrap();
    let removed = store.delete("col", &["ghost"]).unwrap();
    assert_eq!(removed, 0);
}

#[test]
fn delete_where_by_attr() {
    let mut store = Store::in_memory(3).unwrap();
    store.create_collection("col").unwrap();
    let mut attrs_a = BTreeMap::new();
    attrs_a.insert("kind".to_string(), Value::Str("file".to_string()));
    let mut attrs_b = BTreeMap::new();
    attrs_b.insert("kind".to_string(), Value::Str("section".to_string()));
    store
        .upsert(
            "col",
            &[
                rec_with("doc_a", vec![1.0, 0.0, 0.0], attrs_a),
                rec_with("doc_b", vec![0.0, 1.0, 0.0], attrs_b),
            ],
        )
        .unwrap();
    let filter = Filter(vec![Predicate::Eq(
        "kind".to_string(),
        Value::Str("file".to_string()),
    )]);
    let removed = store.delete_where("col", &filter).unwrap();
    assert_eq!(removed, 1);
    let remaining = store.get_all("col");
    assert_eq!(remaining.len(), 1);
    assert_eq!(remaining[0].id, "doc_b");
}

#[test]
fn not_expired_predicate_is_a_true_complement() {
    const EXPIRES_AT: &str = "nidus.expires_at";
    let not_expired = |now: i64| -> Predicate {
        Predicate::Not(Box::new(Predicate::Le(
            EXPIRES_AT.to_string(),
            Value::DateTime(now),
        )))
    };
    let mut store = Store::in_memory(3).unwrap();
    store.create_collection("col").unwrap();
    let now = 1_700_000_000_000i64;
    let unexpired = BTreeMap::from([(EXPIRES_AT.to_string(), Value::DateTime(now + 60_000))]);
    let expired = BTreeMap::from([(EXPIRES_AT.to_string(), Value::DateTime(now - 1))]);
    store
        .upsert(
            "col",
            &[
                rec_with("never_ttld", vec![1.0, 0.0, 0.0], BTreeMap::new()),
                rec_with("unexpired", vec![1.0, 0.0, 0.0], unexpired),
                rec_with("expired", vec![1.0, 0.0, 0.0], expired),
            ],
        )
        .unwrap();
    let opts = SearchOpts {
        top_k: 10,
        filter: Filter(vec![not_expired(now)]),
        ..Default::default()
    };
    let hits = store.search(&["col"], &[1.0, 0.0, 0.0], &opts).unwrap();
    let mut ids: Vec<&str> = hits.iter().map(|h| h.id.as_str()).collect();
    ids.sort();
    assert_eq!(
        ids,
        vec!["never_ttld", "unexpired"],
        "absent-key and unexpired must match; expired must not"
    );
}

#[test]
fn min_score_filters_low_results() {
    let mut store = Store::in_memory(3).unwrap();
    store.create_collection("col").unwrap();
    store
        .upsert("col", &[rec("doc1", vec![1.0, 0.0, 0.0])])
        .unwrap();
    let opts = SearchOpts {
        top_k: 5,
        min_score: Some(0.5),
        ..Default::default()
    };
    let hits = store.search(&["col"], &[0.0, 1.0, 0.0], &opts).unwrap();
    assert!(hits.is_empty(), "doc should be filtered by min_score");
}

#[test]
fn filter_scoping_in_search() {
    let mut store = Store::in_memory(3).unwrap();
    store.create_collection("col").unwrap();
    let mut attrs_rust = BTreeMap::new();
    attrs_rust.insert("lang".to_string(), Value::Str("rust".to_string()));
    let mut attrs_go = BTreeMap::new();
    attrs_go.insert("lang".to_string(), Value::Str("go".to_string()));
    store
        .upsert(
            "col",
            &[
                rec_with("rust_doc", vec![1.0, 0.0, 0.0], attrs_rust),
                rec_with("go_doc", vec![1.0, 0.0, 0.0], attrs_go),
            ],
        )
        .unwrap();
    let opts = SearchOpts {
        top_k: 5,
        filter: Filter(vec![Predicate::Eq(
            "lang".to_string(),
            Value::Str("rust".to_string()),
        )]),
        ..Default::default()
    };
    let hits = store.search(&["col"], &[1.0, 0.0, 0.0], &opts).unwrap();
    assert_eq!(hits.len(), 1);
    assert_eq!(hits[0].id, "rust_doc");
}

#[test]
fn multi_collection_merged_search() {
    let mut store = Store::in_memory(3).unwrap();
    store.create_collection("col_a").unwrap();
    store.create_collection("col_b").unwrap();
    store
        .upsert("col_a", &[rec("best", vec![1.0, 0.0, 0.0])])
        .unwrap();
    let h = std::f32::consts::FRAC_1_SQRT_2;
    store
        .upsert("col_b", &[rec("ok", vec![h, h, 0.0])])
        .unwrap();
    let hits = store
        .search(&["col_a", "col_b"], &[1.0, 0.0, 0.0], &default_opts(5))
        .unwrap();
    assert_eq!(hits.len(), 2);
    assert_eq!(hits[0].id, "best");
    assert_eq!(hits[0].collection, "col_a");
    assert_eq!(hits[1].id, "ok");
    assert_eq!(hits[1].collection, "col_b");
}

#[test]
fn multi_collection_hit_collection_field() {
    let mut store = Store::in_memory(2).unwrap();
    store.create_collection("alpha").unwrap();
    store.create_collection("beta").unwrap();
    store.upsert("alpha", &[rec("a1", vec![1.0, 0.0])]).unwrap();
    store.upsert("beta", &[rec("b1", vec![0.0, 1.0])]).unwrap();
    let hits = store
        .search(&["alpha", "beta"], &[1.0, 0.0], &default_opts(5))
        .unwrap();
    for hit in &hits {
        if hit.id == "a1" {
            assert_eq!(hit.collection, "alpha");
        } else if hit.id == "b1" {
            assert_eq!(hit.collection, "beta");
        } else {
            panic!("unexpected id: {}", hit.id);
        }
    }
}

#[test]
fn search_missing_collection_skipped() {
    let mut store = Store::in_memory(2).unwrap();
    store.create_collection("real").unwrap();
    store
        .upsert("real", &[rec("doc1", vec![1.0, 0.0])])
        .unwrap();
    let hits = store
        .search(&["real", "phantom"], &[1.0, 0.0], &default_opts(5))
        .unwrap();
    assert_eq!(hits.len(), 1);
    assert_eq!(hits[0].id, "doc1");
}

#[test]
fn upsert_wrong_dimension_errors() {
    let mut store = Store::in_memory(3).unwrap();
    store.create_collection("col").unwrap();
    let result = store.upsert("col", &[rec("doc1", vec![1.0, 0.0])]);
    assert!(result.is_err());
}

#[test]
fn upsert_implicitly_creates_collection() {
    let mut store = Store::in_memory(3).unwrap();
    store
        .upsert("newcol", &[rec("doc1", vec![1.0, 0.0, 0.0])])
        .unwrap();
    assert!(store.has_collection("newcol"));
}

#[test]
fn get_all_includes_vector() {
    let mut store = Store::in_memory(3).unwrap();
    store.create_collection("col").unwrap();
    store
        .upsert("col", &[rec("doc1", vec![1.0, 0.0, 0.0])])
        .unwrap();
    let records = store.get_all("col");
    assert_eq!(records.len(), 1);
    assert_eq!(records[0].id, "doc1");
    assert_eq!(records[0].vector.as_deref().unwrap().len(), 3);
}

#[test]
fn get_hits_returns_record_with_attrs() {
    let mut store = Store::in_memory(3).unwrap();
    store.create_collection("col").unwrap();
    store
        .upsert(
            "col",
            &[rec_with(
                "doc1",
                vec![1.0, 0.0, 0.0],
                attrs_one("kind", "note"),
            )],
        )
        .unwrap();
    let record = store.get("col", "doc1").expect("doc1 should exist");
    assert_eq!(record.id, "doc1");
    assert_eq!(record.attrs.get("kind"), Some(&Value::Str("note".into())));
}

#[test]
fn get_unknown_id_in_real_collection_is_none() {
    let mut store = Store::in_memory(3).unwrap();
    store.create_collection("col").unwrap();
    store
        .upsert("col", &[rec("doc1", vec![1.0, 0.0, 0.0])])
        .unwrap();
    assert!(store.get("col", "nope").is_none());
}

#[test]
fn get_unknown_collection_is_none() {
    let store = Store::in_memory(3).unwrap();
    assert!(store.get("nope", "doc1").is_none());
}

#[test]
fn get_text_only_doc_has_no_vector() {
    let mut store = Store::in_memory(3).unwrap();
    store
        .upsert("col", &[text_rec("t1", attrs_one("kind", "note"))])
        .unwrap();
    let record = store.get("col", "t1").expect("t1 should exist");
    assert_eq!(record.vector, None);
}

#[test]
fn get_agrees_with_get_all() {
    let mut store = Store::in_memory(3).unwrap();
    store.create_collection("col").unwrap();
    store
        .upsert("col", &[rec("doc1", vec![1.0, 0.0, 0.0])])
        .unwrap();
    let via_get = store.get("col", "doc1").unwrap();
    let via_get_all = store
        .get_all("col")
        .into_iter()
        .find(|r| r.id == "doc1")
        .unwrap();
    assert_eq!(via_get.id, via_get_all.id);
    assert_eq!(via_get.vector, via_get_all.vector);
    assert_eq!(via_get.attrs, via_get_all.attrs);
}

#[test]
fn compact_in_memory_preserves_live_docs() {
    let mut store = Store::in_memory(3).unwrap();
    store.create_collection("col").unwrap();
    store
        .upsert("col", &[rec("doc1", vec![1.0, 0.0, 0.0])])
        .unwrap();
    store
        .upsert("col", &[rec("doc2", vec![0.0, 1.0, 0.0])])
        .unwrap();
    store
        .upsert("col", &[rec("doc1", vec![0.0, 0.0, 1.0])])
        .unwrap();
    store.compact().unwrap();
    assert_eq!(store.dead_rows(), 0);
    let hits = store
        .search(&["col"], &[0.0, 0.0, 1.0], &default_opts(5))
        .unwrap();
    assert_eq!(hits.len(), 2);
    assert_eq!(hits[0].id, "doc1");
}

#[test]
fn drop_increments_dead_rows() {
    let mut store = Store::in_memory(3).unwrap();
    store.create_collection("col").unwrap();
    store
        .upsert("col", &[rec("doc1", vec![1.0, 0.0, 0.0])])
        .unwrap();
    store
        .upsert("col", &[rec("doc2", vec![0.0, 1.0, 0.0])])
        .unwrap();
    assert_eq!(store.dead_rows(), 0);
    store.drop_collection("col").unwrap();
    assert_eq!(store.dead_rows(), 2);
}

#[test]
fn top_k_limits_results() {
    let mut store = Store::in_memory(2).unwrap();
    store.create_collection("col").unwrap();
    for i in 0..10u32 {
        let v = vec![i as f32, 0.0];
        store.upsert("col", &[rec(&format!("doc{i}"), v)]).unwrap();
    }
    let hits = store
        .search(&["col"], &[1.0, 0.0], &default_opts(3))
        .unwrap();
    assert_eq!(hits.len(), 3);
}

#[test]
fn upsert_rolls_back_on_mid_batch_failure() {
    let mut store = Store::in_memory(2).unwrap();
    store.create_collection("col").unwrap();
    store.upsert("col", &[rec("a", vec![1.0, 0.0])]).unwrap();
    let rows_before = store.data().row_count();
    let docs_before = store.get_all("col").len();
    let dead_before = store.dead_rows();
    store.data().fail_after(1);
    let res = store.upsert("col", &[rec("b", vec![0.0, 1.0]), rec("c", vec![1.0, 1.0])]);
    assert!(res.is_err());
    assert_eq!(
        store.data().row_count(),
        rows_before,
        "orphan row must be rolled back"
    );
    assert_eq!(store.get_all("col").len(), docs_before, "index unchanged");
    assert_eq!(store.dead_rows(), dead_before);
    store.data().fail_after(usize::MAX);
    store.upsert("col", &[rec("b", vec![0.0, 1.0])]).unwrap();
    assert_eq!(store.get_all("col").len(), 2);
}

#[test]
fn footprint_tracks_rows_dead_and_docs() {
    let mut store = Store::in_memory(4).unwrap();
    store.create_collection("col").unwrap();
    let fp0 = store.footprint();
    assert_eq!(fp0.rows, 0);
    assert_eq!(fp0.dead_rows, 0);
    assert_eq!(fp0.dimension, 4);
    assert_eq!(fp0.vector_bytes, 0);
    assert_eq!(fp0.doc_count, 0);
    store
        .upsert("col", &[rec("a", vec![1.0, 0.0, 0.0, 0.0])])
        .unwrap();
    store
        .upsert("col", &[rec("b", vec![0.0, 1.0, 0.0, 0.0])])
        .unwrap();
    let fp1 = store.footprint();
    assert_eq!(fp1.rows, 2);
    assert_eq!(fp1.dead_rows, 0);
    assert_eq!(fp1.vector_bytes, 2 * 4 * 4);
    assert_eq!(fp1.doc_count, 2);
    store
        .upsert("col", &[rec("a", vec![0.0, 0.0, 1.0, 0.0])])
        .unwrap();
    let fp2 = store.footprint();
    assert_eq!(fp2.rows, 3);
    assert_eq!(fp2.dead_rows, 1);
    assert_eq!(fp2.doc_count, 2);
    store.compact().unwrap();
    let fp3 = store.footprint();
    assert_eq!(fp3.rows, 2);
    assert_eq!(fp3.dead_rows, 0);
    assert_eq!(fp3.doc_count, 2);
}

#[test]
fn max_vector_bytes_refuses_over_budget_upsert() {
    let config = Config::new("/dev/null/in-memory", 2)
        .open_mode(OpenMode::ReadWrite)
        .auto_compact(None)
        .max_vector_bytes(Some(16));
    let mut store = Store::in_memory_cfg(config).unwrap();
    store.create_collection("col").unwrap();
    store.upsert("col", &[rec("a", vec![1.0, 0.0])]).unwrap();
    store.upsert("col", &[rec("b", vec![0.0, 1.0])]).unwrap();
    assert_eq!(store.footprint().vector_bytes, 16);
    let res = store.upsert("col", &[rec("c", vec![1.0, 1.0])]);
    assert!(res.is_err());
    assert_eq!(store.footprint().rows, 2, "refused batch must not append");
    let hits = store
        .search(&["col"], &[1.0, 0.0], &default_opts(5))
        .unwrap();
    assert_eq!(hits.len(), 2);
}

#[test]
fn open_refuses_data_file_over_cap() {
    let dir = tempdir();
    let path = dir.path().to_path_buf();
    {
        let mut store = Store::open(Config::new(&path, 2)).unwrap();
        store.create_collection("col").unwrap();
        store.upsert("col", &[rec("a", vec![1.0, 0.0])]).unwrap();
        store.upsert("col", &[rec("b", vec![0.0, 1.0])]).unwrap();
        store.upsert("col", &[rec("c", vec![1.0, 1.0])]).unwrap();
    }
    let res = Store::open(Config::new(&path, 2).max_vector_bytes(Some(8)));
    assert!(res.is_err());
    let msg = res.err().unwrap().to_string();
    assert!(
        msg.contains("max_vector_bytes"),
        "error should mention the cap: {msg}"
    );
    let ok = Store::open(Config::new(&path, 2).max_vector_bytes(Some(24)));
    assert!(ok.is_ok());
}

#[test]
fn upsert_rollback_survives_reopen() {
    let dir = tempdir();
    let path = dir.path().to_path_buf();
    {
        let mut store = Store::open(Config::new(&path, 2)).unwrap();
        store.create_collection("col").unwrap();
        store.upsert("col", &[rec("a", vec![1.0, 0.0])]).unwrap();
        store.data().fail_after(0);
        assert!(store.upsert("col", &[rec("b", vec![0.0, 1.0])]).is_err());
        assert_eq!(store.data().row_count(), 1);
        assert_eq!(store.get_all("col").len(), 1);
    }
    let store = Store::open(Config::new(&path, 2).open_mode(OpenMode::ReadOnly)).unwrap();
    let recs = store.get_all("col");
    assert_eq!(recs.len(), 1);
    assert_eq!(recs[0].id, "a");
}

#[test]
fn on_flush_persists_every_batch_once_flushed() {
    let dir = tempdir();
    let path = dir.path().to_path_buf();
    {
        let mut store = Store::open(Config::new(&path, 2).fsync(Fsync::OnFlush)).unwrap();
        for i in 0..8 {
            store
                .upsert("col", &[rec(&format!("d{i}"), vec![i as f32, 1.0])])
                .unwrap();
        }
        store.flush().unwrap();
    }
    let store = Store::open(Config::new(&path, 2).open_mode(OpenMode::ReadOnly)).unwrap();
    assert_eq!(store.get_all("col").len(), 8);
}

#[test]
fn a_log_ahead_of_data_tail_is_dropped_on_reopen() {
    let dir = tempdir();
    let path = dir.path().to_path_buf();
    {
        let mut store = Store::open(Config::new(&path, 2).fsync(Fsync::OnFlush)).unwrap();
        for i in 0..6 {
            store
                .upsert("col", &[rec(&format!("d{i}"), vec![i as f32, 1.0])])
                .unwrap();
        }
        store.flush().unwrap();
    }
    path.edit(|d| {
        let data = d.objects.iter_mut().find(|o| o.id == 0).unwrap();
        let rows = data.rows.len();
        data.rows.truncate(rows - 2);
    });
    let store = Store::open(Config::new(&path, 2).open_mode(OpenMode::ReadOnly)).unwrap();
    let recs = store.get_all("col");
    assert_eq!(recs.len(), 4, "the two rowless records must be ignored");
    let mut ids: Vec<&str> = recs.iter().map(|r| r.id.as_str()).collect();
    ids.sort_unstable();
    assert_eq!(ids, ["d0", "d1", "d2", "d3"]);
    let hits = store
        .search(
            &["col"],
            &[0.0, 1.0],
            &SearchOpts {
                top_k: 10,
                ..Default::default()
            },
        )
        .unwrap();
    assert!(!hits.is_empty(), "recovered store must still serve search");
    assert!(hits.iter().all(|h| h.id != "d4" && h.id != "d5"));
}

#[test]
fn reopen_sees_prior_data() {
    let dir = tempdir();
    let path = dir.path().to_path_buf();
    {
        let mut store = Store::open(Config::new(&path, 3)).unwrap();
        store.create_collection("col").unwrap();
        store
            .upsert("col", &[rec("doc1", vec![1.0, 0.0, 0.0])])
            .unwrap();
        store
            .upsert("col", &[rec("doc2", vec![0.0, 1.0, 0.0])])
            .unwrap();
    }
    {
        let store = Store::open(Config::new(&path, 3).open_mode(OpenMode::ReadOnly)).unwrap();
        assert!(store.has_collection("col"));
        let records = store.get_all("col");
        assert_eq!(records.len(), 2);
        let ids: Vec<String> = records.iter().map(|r| r.id.clone()).collect();
        assert!(ids.contains(&"doc1".to_string()));
        assert!(ids.contains(&"doc2".to_string()));
    }
}

#[test]
fn readonly_rejects_writes() {
    let dir = tempdir();
    let path = dir.path().to_path_buf();
    {
        Store::open(Config::new(&path, 2)).unwrap();
    }
    let mut store = Store::open(Config::new(&path, 2).open_mode(OpenMode::ReadOnly)).unwrap();
    assert!(store.create_collection("col").is_err());
    assert!(store.drop_collection("col").is_err());
    assert!(store.set_meta("col", BTreeMap::new()).is_err());
    assert!(store.upsert("col", &[rec("doc1", vec![1.0, 0.0])]).is_err());
    assert!(store.delete("col", &["doc1"]).is_err());
    assert!(store.delete_where("col", &Filter::default()).is_err());
    assert!(store.flush().is_err());
    assert!(store.compact().is_err());
}

#[test]
fn compaction_preserves_live_docs_and_results() {
    let dir = tempdir();
    let path = dir.path().to_path_buf();
    {
        let mut store = Store::open(Config::new(&path, 3).auto_compact(None)).unwrap();
        store.create_collection("col").unwrap();
        store
            .upsert("col", &[rec("doc1", vec![1.0, 0.0, 0.0])])
            .unwrap();
        store
            .upsert("col", &[rec("doc2", vec![0.0, 1.0, 0.0])])
            .unwrap();
        store
            .upsert("col", &[rec("doc1", vec![0.0, 0.0, 1.0])])
            .unwrap();
        assert_eq!(store.dead_rows(), 1);
        store.compact().unwrap();
        assert_eq!(store.dead_rows(), 0);
        let hits = store
            .search(&["col"], &[0.0, 0.0, 1.0], &default_opts(5))
            .unwrap();
        assert_eq!(hits.len(), 2);
        assert_eq!(hits[0].id, "doc1");
    }
    {
        let store = Store::open(
            Config::new(&path, 3)
                .open_mode(OpenMode::ReadOnly)
                .auto_compact(None),
        )
        .unwrap();
        let records = store.get_all("col");
        assert_eq!(records.len(), 2);
        let hits = store
            .search(&["col"], &[0.0, 0.0, 1.0], &default_opts(5))
            .unwrap();
        assert_eq!(hits.len(), 2);
        assert_eq!(hits[0].id, "doc1");
    }
}

#[test]
fn metadata_survives_reopen() {
    let dir = tempdir();
    let path = dir.path().to_path_buf();
    let mut meta = BTreeMap::new();
    meta.insert("model".to_string(), "text-v3".to_string());
    {
        let mut store = Store::open(Config::new(&path, 2)).unwrap();
        store.create_collection("col").unwrap();
        store.set_meta("col", meta.clone()).unwrap();
    }
    {
        let store = Store::open(Config::new(&path, 2).open_mode(OpenMode::ReadOnly)).unwrap();
        assert_eq!(store.get_meta("col"), meta);
    }
}

#[test]
fn auto_compact_triggers_on_open() {
    let dir = tempdir();
    let path = dir.path().to_path_buf();
    {
        let mut store = Store::open(
            Config::new(&path, 3).auto_compact(None),
        )
        .unwrap();
        store.create_collection("col").unwrap();
        store
            .upsert("col", &[rec("a", vec![1.0, 0.0, 0.0])])
            .unwrap();
        store
            .upsert("col", &[rec("b", vec![0.0, 1.0, 0.0])])
            .unwrap();
        store
            .upsert("col", &[rec("c", vec![0.0, 0.0, 1.0])])
            .unwrap();
        store
            .upsert("col", &[rec("a", vec![1.0, 0.0, 0.0])])
            .unwrap();
        store
            .upsert("col", &[rec("b", vec![0.0, 1.0, 0.0])])
            .unwrap();
        assert_eq!(store.dead_rows(), 2);
    }
    {
        let store = Store::open(Config::new(&path, 3).auto_compact(Some(0.3))).unwrap();
        assert_eq!(store.dead_rows(), 0, "auto-compact should have run");
        assert_eq!(store.get_all("col").len(), 3);
    }
}

#[test]
fn auto_compact_is_skipped_on_a_read_only_open() {
    let dir = tempdir();
    let path = dir.path().to_path_buf();
    {
        let mut store = Store::open(Config::new(&path, 3).auto_compact(None)).unwrap();
        store.create_collection("col").unwrap();
        for (id, v) in [
            ("a", vec![1.0, 0.0, 0.0]),
            ("b", vec![0.0, 1.0, 0.0]),
            ("c", vec![0.0, 0.0, 1.0]),
        ] {
            store.upsert("col", &[rec(id, v)]).unwrap();
        }
        store
            .upsert("col", &[rec("a", vec![1.0, 0.0, 0.0])])
            .unwrap();
        store
            .upsert("col", &[rec("b", vec![0.0, 1.0, 0.0])])
            .unwrap();
        assert_eq!(store.dead_rows(), 2, "2 dead of 5 rows: past a 0.3 threshold");
    }
    {
        let store = Store::open(
            Config::new(&path, 3)
                .auto_compact(Some(0.3))
                .open_mode(OpenMode::ReadOnly),
        )
        .expect("a read-only open past the threshold must not fail");
        assert_eq!(store.dead_rows(), 2, "read-only must not compact");
        assert_eq!(store.get_all("col").len(), 3);
    }
    {
        let store = Store::open(Config::new(&path, 3).auto_compact(Some(0.3))).unwrap();
        assert_eq!(store.dead_rows(), 0, "the next writer open still compacts");
    }
}

#[test]
fn upsert_idempotent_survives_reopen() {
    let dir = tempdir();
    let path = dir.path().to_path_buf();
    {
        let mut store = Store::open(Config::new(&path, 2)).unwrap();
        store.create_collection("col").unwrap();
        store.upsert("col", &[rec("doc1", vec![1.0, 0.0])]).unwrap();
        store.upsert("col", &[rec("doc1", vec![0.0, 1.0])]).unwrap();
    }
    {
        let store = Store::open(Config::new(&path, 2).open_mode(OpenMode::ReadOnly)).unwrap();
        let records = store.get_all("col");
        assert_eq!(records.len(), 1);
        let hits = store
            .search(&["col"], &[0.0, 1.0], &default_opts(5))
            .unwrap();
        assert_eq!(hits.len(), 1);
        assert!((hits[0].score - 1.0).abs() < 1e-5);
    }
}

#[test]
fn euclidean_exact_match_scores_zero() {
    let mut store = Store::in_memory_with(3, Distance::Euclidean).unwrap();
    store.create_collection("col").unwrap();
    store
        .upsert("col", &[rec("doc1", vec![1.0, 2.0, 3.0])])
        .unwrap();
    let hits = store
        .search(&["col"], &[1.0, 2.0, 3.0], &default_opts(5))
        .unwrap();
    assert_eq!(hits.len(), 1);
    assert!(
        hits[0].score.abs() < 1e-6,
        "identical vectors should score 0.0, got {}",
        hits[0].score
    );
}

#[test]
fn euclidean_ranking_closer_first() {
    let mut store = Store::in_memory_with(3, Distance::Euclidean).unwrap();
    store.create_collection("col").unwrap();
    store
        .upsert(
            "col",
            &[
                rec("close", vec![0.9, 0.1, 0.0]),
                rec("far", vec![0.0, 1.0, 0.0]),
            ],
        )
        .unwrap();
    let hits = store
        .search(&["col"], &[1.0, 0.0, 0.0], &default_opts(5))
        .unwrap();
    assert_eq!(hits[0].id, "close", "closer vector should rank first");
    assert!(hits[0].score > hits[1].score);
}

#[test]
fn euclidean_does_not_normalize() {
    let mut store = Store::in_memory_with(2, Distance::Euclidean).unwrap();
    store.create_collection("col").unwrap();
    store.upsert("col", &[rec("doc1", vec![3.0, 4.0])]).unwrap();
    let records = store.get_all("col");
    assert_eq!(
        records[0].vector,
        Some(vec![3.0, 4.0]),
        "raw vectors preserved"
    );
}

#[test]
fn euclidean_min_score_filters() {
    let mut store = Store::in_memory_with(2, Distance::Euclidean).unwrap();
    store.create_collection("col").unwrap();
    store
        .upsert("col", &[rec("doc1", vec![10.0, 0.0])])
        .unwrap();
    let opts = SearchOpts {
        top_k: 5,
        min_score: Some(-1.0),
        ..Default::default()
    };
    let hits = store.search(&["col"], &[0.0, 0.0], &opts).unwrap();
    assert!(
        hits.is_empty(),
        "score should be -100, below min_score of -1"
    );
}

#[test]
fn dotproduct_raw_dot() {
    let mut store = Store::in_memory_with(3, Distance::DotProduct).unwrap();
    store.create_collection("col").unwrap();
    store
        .upsert(
            "col",
            &[rec("a", vec![2.0, 0.0, 0.0]), rec("b", vec![1.0, 0.0, 0.0])],
        )
        .unwrap();
    let hits = store
        .search(&["col"], &[1.0, 0.0, 0.0], &default_opts(5))
        .unwrap();
    assert_eq!(hits[0].id, "a", "higher magnitude should score higher");
    assert!(
        (hits[0].score - 2.0).abs() < 1e-6,
        "score = raw dot product"
    );
    assert!((hits[1].score - 1.0).abs() < 1e-6);
}

#[test]
fn dotproduct_does_not_normalize() {
    let mut store = Store::in_memory_with(2, Distance::DotProduct).unwrap();
    store.create_collection("col").unwrap();
    store.upsert("col", &[rec("doc1", vec![3.0, 4.0])]).unwrap();
    let records = store.get_all("col");
    assert_eq!(
        records[0].vector,
        Some(vec![3.0, 4.0]),
        "raw vectors preserved"
    );
}

#[test]
fn dotproduct_ranking_by_magnitude() {
    let mut store = Store::in_memory_with(2, Distance::DotProduct).unwrap();
    store.create_collection("col").unwrap();
    store
        .upsert(
            "col",
            &[rec("big", vec![10.0, 0.0]), rec("small", vec![1.0, 0.0])],
        )
        .unwrap();
    let hits = store
        .search(&["col"], &[1.0, 0.0], &default_opts(5))
        .unwrap();
    assert_eq!(hits[0].id, "big");
    assert!(hits[0].score > hits[1].score);
}

#[test]
fn euclidean_survives_reopen() {
    let dir = tempdir();
    let path = dir.path().to_path_buf();
    {
        let mut store = Store::open(Config::new(&path, 3).distance(Distance::Euclidean)).unwrap();
        store.create_collection("col").unwrap();
        store
            .upsert("col", &[rec("doc1", vec![1.0, 2.0, 3.0])])
            .unwrap();
    }
    {
        let store = Store::open(
            Config::new(&path, 3)
                .distance(Distance::Euclidean)
                .open_mode(OpenMode::ReadOnly),
        )
        .unwrap();
        let records = store.get_all("col");
        assert_eq!(records[0].vector, Some(vec![1.0, 2.0, 3.0]));
        let hits = store
            .search(&["col"], &[1.0, 2.0, 3.0], &default_opts(5))
            .unwrap();
        assert!(hits[0].score.abs() < 1e-6);
    }
}

#[test]
fn distance_mismatch_on_reopen_errors() {
    let dir = tempdir();
    let path = dir.path().to_path_buf();
    {
        Store::open(Config::new(&path, 3).distance(Distance::Euclidean)).unwrap();
    }
    let res = Store::open(Config::new(&path, 3).distance(Distance::Cosine));
    assert!(res.is_err());
    let msg = res.err().unwrap().to_string();
    assert!(
        msg.contains("distance"),
        "error should mention distance: {msg}"
    );
}

#[test]
fn recorded_profile_applies_on_reopen_with_bare_config() {
    let dir = tempdir();
    let path = dir.path().to_path_buf();
    {
        let mut store = Store::open(Config::new(&path, 3)).unwrap();
        store
            .set_open_profile(&OpenProfile {
                ann: Some(AnnConfig::hnsw()),
                quantization: Some(Quantization::int8()),
                query_threads: Some(4),
                mmap: None,
            })
            .unwrap();
    }
    let store = Store::open(Config::new(&path, 3)).unwrap();
    assert_eq!(store.config().ann, Some(AnnConfig::hnsw()));
    assert_eq!(store.config().quantization, Some(Quantization::int8()));
    assert_eq!(store.config().query_threads, 4);
}

#[test]
fn explicit_flag_beats_recorded_profile_on_reopen() {
    let dir = tempdir();
    let path = dir.path().to_path_buf();
    {
        let mut store = Store::open(Config::new(&path, 3)).unwrap();
        store
            .set_open_profile(&OpenProfile {
                ann: None,
                quantization: Some(Quantization::int8()),
                query_threads: Some(4),
                mmap: None,
            })
            .unwrap();
    }
    let store = Store::open(Config::new(&path, 3).query_threads(2)).unwrap();
    assert_eq!(
        store.config().query_threads,
        2,
        "an explicit builder call must beat the recorded profile"
    );
    assert_eq!(
        store.config().quantization,
        Some(Quantization::int8()),
        "a knob the caller never set explicitly still adopts the recorded profile"
    );
}

#[test]
fn no_recorded_profile_opens_on_built_in_defaults() {
    let dir = tempdir();
    let path = dir.path().to_path_buf();
    {
        Store::open(Config::new(&path, 3)).unwrap();
    }
    let store = Store::open(Config::new(&path, 3)).unwrap();
    assert_eq!(store.config().ann, None);
    assert_eq!(store.config().quantization, None);
    assert_eq!(store.config().query_threads, 1);
    assert!(!store.config().mmap);
}

#[test]
fn cleared_profile_reopens_on_built_in_defaults() {
    let dir = tempdir();
    let path = dir.path().to_path_buf();
    {
        let mut store = Store::open(Config::new(&path, 3)).unwrap();
        store
            .set_open_profile(&OpenProfile {
                ann: Some(AnnConfig::hnsw()),
                quantization: Some(Quantization::int8()),
                query_threads: Some(4),
                mmap: None,
            })
            .unwrap();
    }
    {
        let mut store = Store::open(Config::new(&path, 3)).unwrap();
        assert_eq!(
            store.config().ann,
            Some(AnnConfig::hnsw()),
            "sanity: the profile applied before it is cleared"
        );
        store.clear_open_profile().unwrap();
    }
    let store = Store::open(Config::new(&path, 3)).unwrap();
    assert_eq!(store.config().ann, None);
    assert_eq!(store.config().quantization, None);
    assert_eq!(store.config().query_threads, 1);
}

#[test]
fn profile_survives_a_seal() {
    let dir = tempdir();
    let path = dir.path().to_path_buf();
    {
        let mut store = Store::open(Config::new(&path, 2).segment_max_rows(Some(1))).unwrap();
        store
            .set_open_profile(&OpenProfile {
                ann: None,
                quantization: Some(Quantization::int8()),
                query_threads: Some(3),
                mmap: None,
            })
            .unwrap();
        store.create_collection("col").unwrap();
        store.upsert("col", &[rec("a", vec![1.0, 0.0])]).unwrap();
        store.upsert("col", &[rec("b", vec![0.0, 1.0])]).unwrap();
    }
    let store = Store::open(Config::new(&path, 2).segment_max_rows(Some(1))).unwrap();
    assert_eq!(
        store.config().quantization,
        Some(Quantization::int8()),
        "a seal must not revert the recorded profile to defaults"
    );
    assert_eq!(store.config().query_threads, 3);
}

#[test]
fn pre_profile_v1_manifest_opens_end_to_end() {
    let dir = tempdir();
    let path = dir.path().to_path_buf();
    {
        let mut store = Store::open(Config::new(&path, 3)).unwrap();
        store.create_collection("col").unwrap();
        store
            .upsert("col", &[rec("doc1", vec![1.0, 2.0, 3.0])])
            .unwrap();
    }
    path.edit(|d| {
        d.manifest = Some(Manifest {
            version: 1,
            dimension: 3,
            distance: Distance::Cosine,
            segments: vec![0],
            next_segment: 1,
            profile: OpenProfile::default(),
        })
    });
    let store = Store::open(Config::new(&path, 3)).unwrap();
    let records = store.get_all("col");
    assert_eq!(records.len(), 1);
    assert_eq!(store.open_profile(), OpenProfile::default());
}

#[test]
fn list_returns_all_matching() {
    let mut store = Store::in_memory(3).unwrap();
    store.create_collection("col").unwrap();
    let mut a_rust = BTreeMap::new();
    a_rust.insert("lang".to_string(), Value::Str("rust".to_string()));
    let mut a_go = BTreeMap::new();
    a_go.insert("lang".to_string(), Value::Str("go".to_string()));
    store
        .upsert(
            "col",
            &[
                rec_with("r1", vec![1.0, 0.0, 0.0], a_rust.clone()),
                rec_with("r2", vec![0.0, 1.0, 0.0], a_rust),
                rec_with("g1", vec![0.0, 0.0, 1.0], a_go),
            ],
        )
        .unwrap();
    let filter = Filter(vec![Predicate::Eq(
        "lang".to_string(),
        Value::Str("rust".to_string()),
    )]);
    let hits = store
        .list(
            &["col"],
            &ListOpts {
                filter,
                ..Default::default()
            },
        )
        .unwrap();
    assert_eq!(hits.len(), 2);
    let ids: Vec<&str> = hits.iter().map(|h| h.id.as_str()).collect();
    assert!(ids.contains(&"r1"));
    assert!(ids.contains(&"r2"));
}

#[test]
fn list_respects_limit() {
    let mut store = Store::in_memory(2).unwrap();
    store.create_collection("col").unwrap();
    for i in 0..10u32 {
        store
            .upsert("col", &[rec(&format!("d{i}"), vec![i as f32, 0.0])])
            .unwrap();
    }
    let hits = store
        .list(
            &["col"],
            &ListOpts {
                limit: 3,
                ..Default::default()
            },
        )
        .unwrap();
    assert_eq!(hits.len(), 3);
}

#[test]
fn list_scores_are_zero() {
    let mut store = Store::in_memory(2).unwrap();
    store.create_collection("col").unwrap();
    store.upsert("col", &[rec("a", vec![1.0, 0.0])]).unwrap();
    let hits = store
        .list(
            &["col"],
            &ListOpts {
                limit: 10,
                ..Default::default()
            },
        )
        .unwrap();
    assert_eq!(hits.len(), 1);
    assert_eq!(hits[0].score, 0.0);
}

#[test]
fn list_empty_filter_returns_all() {
    let mut store = Store::in_memory(2).unwrap();
    store.create_collection("col").unwrap();
    store.upsert("col", &[rec("a", vec![1.0, 0.0])]).unwrap();
    store.upsert("col", &[rec("b", vec![0.0, 1.0])]).unwrap();
    let hits = store.list(&["col"], &ListOpts::default()).unwrap();
    assert_eq!(hits.len(), 2);
}

#[test]
fn list_multi_collection() {
    let mut store = Store::in_memory(2).unwrap();
    store.create_collection("a").unwrap();
    store.create_collection("b").unwrap();
    store.upsert("a", &[rec("x", vec![1.0, 0.0])]).unwrap();
    store.upsert("b", &[rec("y", vec![0.0, 1.0])]).unwrap();
    let hits = store.list(&["a", "b"], &ListOpts::default()).unwrap();
    assert_eq!(hits.len(), 2);
}

#[test]
fn list_insertion_order() {
    let mut store = Store::in_memory(2).unwrap();
    store.create_collection("col").unwrap();
    store
        .upsert("col", &[rec("first", vec![1.0, 0.0])])
        .unwrap();
    store
        .upsert("col", &[rec("second", vec![0.0, 1.0])])
        .unwrap();
    let hits = store.list(&["col"], &ListOpts::default()).unwrap();
    assert_eq!(hits[0].id, "first");
    assert_eq!(hits[1].id, "second");
}

#[test]
fn list_offset_paginates() {
    let mut store = Store::in_memory(2).unwrap();
    store.create_collection("col").unwrap();
    for i in 0..10u32 {
        store
            .upsert("col", &[rec(&format!("d{i}"), vec![i as f32, 0.0])])
            .unwrap();
    }
    let mut paged: Vec<String> = Vec::new();
    for page in 0..4 {
        let hits = store
            .list(
                &["col"],
                &ListOpts {
                    offset: page * 3,
                    limit: 3,
                    ..Default::default()
                },
            )
            .unwrap();
        paged.extend(hits.into_iter().map(|h| h.id));
    }
    let full: Vec<String> = store
        .list(&["col"], &ListOpts::default())
        .unwrap()
        .into_iter()
        .map(|h| h.id)
        .collect();
    assert_eq!(
        paged, full,
        "paginated windows must reconstruct the full list"
    );
    assert_eq!(paged.len(), 10);
}

#[test]
fn list_offset_past_end_is_empty() {
    let mut store = Store::in_memory(2).unwrap();
    store.create_collection("col").unwrap();
    store.upsert("col", &[rec("a", vec![1.0, 0.0])]).unwrap();
    let hits = store
        .list(
            &["col"],
            &ListOpts {
                offset: 5,
                limit: 10,
                ..Default::default()
            },
        )
        .unwrap();
    assert!(hits.is_empty());
}

#[test]
fn scan_cache_reflects_upsert_between_searches() {
    let mut store = Store::in_memory(3).unwrap();
    store.create_collection("col").unwrap();
    store
        .upsert("col", &[rec("doc1", vec![1.0, 0.0, 0.0])])
        .unwrap();
    let hits = store
        .search(&["col"], &[0.0, 1.0, 0.0], &default_opts(5))
        .unwrap();
    assert_eq!(hits.len(), 1);
    store
        .upsert("col", &[rec("doc2", vec![0.0, 1.0, 0.0])])
        .unwrap();
    let hits = store
        .search(&["col"], &[0.0, 1.0, 0.0], &default_opts(5))
        .unwrap();
    assert_eq!(hits.len(), 2, "second search must see the upserted doc");
    assert_eq!(hits[0].id, "doc2", "new doc is the nearest to the query");
}

#[test]
fn scan_cache_reflects_delete_between_searches() {
    let mut store = Store::in_memory(3).unwrap();
    store.create_collection("col").unwrap();
    store
        .upsert(
            "col",
            &[
                rec("doc1", vec![1.0, 0.0, 0.0]),
                rec("doc2", vec![0.0, 1.0, 0.0]),
            ],
        )
        .unwrap();
    assert_eq!(
        store
            .search(&["col"], &[1.0, 0.0, 0.0], &default_opts(5))
            .unwrap()
            .len(),
        2
    );
    store.delete("col", &["doc1"]).unwrap();
    let hits = store
        .search(&["col"], &[1.0, 0.0, 0.0], &default_opts(5))
        .unwrap();
    assert_eq!(hits.len(), 1);
    assert_eq!(hits[0].id, "doc2");
}

#[test]
fn scan_cache_overwrite_uses_new_vector() {
    let mut store = Store::in_memory(3).unwrap();
    store.create_collection("col").unwrap();
    store
        .upsert("col", &[rec("doc1", vec![1.0, 0.0, 0.0])])
        .unwrap();
    store
        .search(&["col"], &[1.0, 0.0, 0.0], &default_opts(5))
        .unwrap();
    store
        .upsert("col", &[rec("doc1", vec![0.0, 1.0, 0.0])])
        .unwrap();
    let hits = store
        .search(&["col"], &[0.0, 1.0, 0.0], &default_opts(5))
        .unwrap();
    assert_eq!(hits.len(), 1);
    assert!(
        (hits[0].score - 1.0).abs() < 1e-6,
        "search must score the overwritten vector, not the dead row"
    );
}

#[test]
fn scan_cache_survives_compact() {
    let mut store = Store::in_memory(3).unwrap();
    store.create_collection("col").unwrap();
    store
        .upsert(
            "col",
            &[
                rec("a", vec![1.0, 0.0, 0.0]),
                rec("b", vec![0.0, 1.0, 0.0]),
                rec("c", vec![0.0, 0.0, 1.0]),
            ],
        )
        .unwrap();
    store.delete("col", &["b"]).unwrap();
    store
        .search(&["col"], &[1.0, 0.0, 0.0], &default_opts(5))
        .unwrap();
    store.compact().unwrap();
    let hits = store
        .search(&["col"], &[0.0, 0.0, 1.0], &default_opts(5))
        .unwrap();
    assert_eq!(hits.len(), 2);
    assert_eq!(hits[0].id, "c");
}

#[test]
fn scan_cache_whole_store_filter_matches_subset_path() {
    let mut store = Store::in_memory(3).unwrap();
    store.create_collection("col").unwrap();
    let tag = |t: &str| {
        let mut m = BTreeMap::new();
        m.insert("tag".to_string(), Value::Str(t.to_string()));
        m
    };
    store
        .upsert(
            "col",
            &[
                rec_with("a", vec![1.0, 0.0, 0.0], tag("keep")),
                rec_with("b", vec![0.9, 0.1, 0.0], tag("drop")),
                rec_with("c", vec![0.8, 0.2, 0.0], tag("keep")),
            ],
        )
        .unwrap();
    let opts = SearchOpts {
        top_k: 5,
        filter: Filter(vec![Predicate::Eq(
            "tag".to_string(),
            Value::Str("keep".to_string()),
        )]),
        ..Default::default()
    };
    let hits = store.search(&["col"], &[1.0, 0.0, 0.0], &opts).unwrap();
    let ids: Vec<&str> = hits.iter().map(|h| h.id.as_str()).collect();
    assert_eq!(ids, vec!["a", "c"], "filter must keep only tagged docs");
}

#[test]
fn scan_cache_subset_scope_excludes_other_collections() {
    let mut store = Store::in_memory(3).unwrap();
    store.create_collection("a").unwrap();
    store.create_collection("b").unwrap();
    store
        .upsert("a", &[rec("a1", vec![1.0, 0.0, 0.0])])
        .unwrap();
    store
        .upsert("b", &[rec("b1", vec![0.0, 1.0, 0.0])])
        .unwrap();
    assert_eq!(
        store
            .search(&["a", "b"], &[1.0, 0.0, 0.0], &default_opts(5))
            .unwrap()
            .len(),
        2
    );
    let hits = store
        .search(&["a"], &[1.0, 0.0, 0.0], &default_opts(5))
        .unwrap();
    assert_eq!(hits.len(), 1);
    assert_eq!(hits[0].id, "a1");
}

fn quantized_store(dim: usize) -> Store {
    Store::in_memory_cfg(
        Config::new("/dev/null/in-memory", dim)
            .open_mode(OpenMode::ReadWrite)
            .auto_compact(None)
            .quantization(Some(Quantization::default())),
    )
    .unwrap()
}

#[test]
fn quantized_search_ranking_matches_exact() {
    let mut store = quantized_store(3);
    store.create_collection("col").unwrap();
    store
        .upsert(
            "col",
            &[
                rec("close", vec![0.9, 0.1, 0.0]),
                rec("mid", vec![0.5, 0.5, 0.0]),
                rec("far", vec![0.0, 0.0, 1.0]),
            ],
        )
        .unwrap();
    let hits = store
        .search(&["col"], &[1.0, 0.0, 0.0], &default_opts(3))
        .unwrap();
    assert_eq!(
        hits[0].id, "close",
        "quantized search should rank correctly"
    );
}

#[test]
fn quantized_search_respects_top_k() {
    let mut store = quantized_store(2);
    store.create_collection("col").unwrap();
    for i in 0..20u32 {
        store
            .upsert("col", &[rec(&format!("d{i}"), vec![i as f32, 0.0])])
            .unwrap();
    }
    let hits = store
        .search(&["col"], &[19.0, 0.0], &default_opts(5))
        .unwrap();
    assert_eq!(hits.len(), 5);
}

#[test]
fn quantized_search_with_filter() {
    let mut store = quantized_store(3);
    store.create_collection("col").unwrap();
    let mut a_rust = BTreeMap::new();
    a_rust.insert("lang".to_string(), Value::Str("rust".to_string()));
    let mut a_go = BTreeMap::new();
    a_go.insert("lang".to_string(), Value::Str("go".to_string()));
    store
        .upsert(
            "col",
            &[
                rec_with("r1", vec![1.0, 0.0, 0.0], a_rust),
                rec_with("g1", vec![1.0, 0.0, 0.0], a_go),
            ],
        )
        .unwrap();
    let opts = SearchOpts {
        top_k: 5,
        filter: Filter(vec![Predicate::Eq(
            "lang".to_string(),
            Value::Str("rust".to_string()),
        )]),
        ..Default::default()
    };
    let hits = store.search(&["col"], &[1.0, 0.0, 0.0], &opts).unwrap();
    assert_eq!(hits.len(), 1);
    assert_eq!(hits[0].id, "r1");
}

#[test]
fn quantized_search_euclidean() {
    let mut store = Store::in_memory_cfg(
        Config::new("/dev/null/in-memory", 3)
            .distance(Distance::Euclidean)
            .open_mode(OpenMode::ReadWrite)
            .auto_compact(None)
            .quantization(Some(Quantization::default())),
    )
    .unwrap();
    store.create_collection("col").unwrap();
    store
        .upsert(
            "col",
            &[
                rec("exact", vec![1.0, 2.0, 3.0]),
                rec("far", vec![10.0, 20.0, 30.0]),
            ],
        )
        .unwrap();
    let hits = store
        .search(&["col"], &[1.0, 2.0, 3.0], &default_opts(2))
        .unwrap();
    assert_eq!(hits[0].id, "exact");
}

#[test]
fn quantized_survives_compact() {
    let mut store = quantized_store(3);
    store.create_collection("col").unwrap();
    store
        .upsert("col", &[rec("a", vec![1.0, 0.0, 0.0])])
        .unwrap();
    store
        .upsert("col", &[rec("a", vec![0.0, 1.0, 0.0])])
        .unwrap();
    store.compact().unwrap();
    let hits = store
        .search(&["col"], &[0.0, 1.0, 0.0], &default_opts(5))
        .unwrap();
    assert_eq!(hits.len(), 1);
    assert!((hits[0].score - 1.0).abs() < 1e-5);
}

#[test]
fn quantized_empty_store_searches_ok() {
    let store = quantized_store(3);
    let hits = store
        .search(&["col"], &[1.0, 0.0, 0.0], &default_opts(5))
        .unwrap();
    assert!(hits.is_empty());
}

#[test]
fn quantized_incremental_matches_bulk() {
    let make = |incremental: bool| {
        let mut store = quantized_store(4);
        store.create_collection("col").unwrap();
        let recs: Vec<Record> = (0..50u32)
            .map(|i| {
                let a = i as f32 * 0.01;
                rec(&format!("d{i}"), vec![a, 1.0 - a, 0.5, -a])
            })
            .collect();
        if incremental {
            for r in &recs {
                store.upsert("col", std::slice::from_ref(r)).unwrap();
            }
        } else {
            store.upsert("col", &recs).unwrap();
        }
        store
    };
    let bulk = make(false);
    let incr = make(true);
    let q = vec![0.2, 0.8, 0.5, -0.2];
    let hb = bulk.search(&["col"], &q, &default_opts(10)).unwrap();
    let hi = incr.search(&["col"], &q, &default_opts(10)).unwrap();
    let ids_b: Vec<&str> = hb.iter().map(|h| h.id.as_str()).collect();
    let ids_i: Vec<&str> = hi.iter().map(|h| h.id.as_str()).collect();
    assert_eq!(ids_b, ids_i, "incremental and bulk must rank identically");
}

#[test]
fn quantized_incremental_keeps_full_recall() {
    let mut store = quantized_store(3);
    store.create_collection("col").unwrap();
    for i in 0..30u32 {
        let v = vec![i as f32, (30 - i) as f32, 1.0];
        store.upsert("col", &[rec(&format!("d{i}"), v)]).unwrap();
    }
    let hits = store
        .search(&["col"], &[7.0, 23.0, 1.0], &default_opts(1))
        .unwrap();
    assert_eq!(hits[0].id, "d7");
}

#[test]
fn quantized_refit_tracks_row_growth() {
    let mut store = quantized_store(2);
    store.create_collection("col").unwrap();
    store
        .upsert("col", &[rec("a", vec![1.0, 0.0]), rec("b", vec![0.0, 1.0])])
        .unwrap();
    assert_eq!(int8_state(&store).params_rows, 2);
    store.upsert("col", &[rec("c", vec![1.0, 1.0])]).unwrap();
    assert_eq!(int8_state(&store).params_rows, 2);
    store
        .upsert("col", &[rec("d", vec![2.0, 0.0]), rec("e", vec![0.0, 2.0])])
        .unwrap();
    assert_eq!(int8_state(&store).params_rows, 5);
    let dim = store.data().dimension();
    assert_eq!(
        int8_state(&store).vectors.len(),
        store.data().row_count() as usize * dim
    );
}

fn pseudo_vec(seed: u64, dim: usize) -> Vec<f32> {
    let mut s = seed.wrapping_mul(0x9E37_79B9_7F4A_7C15).wrapping_add(1);
    (0..dim)
        .map(|_| {
            s ^= s << 13;
            s ^= s >> 7;
            s ^= s << 17;
            ((s >> 40) as f32) / ((1u64 << 24) as f32) - 0.5
        })
        .collect()
}

fn binary_store(dim: usize) -> Store {
    Store::in_memory_cfg(
        Config::new("/dev/null/in-memory", dim)
            .distance(Distance::Cosine)
            .open_mode(OpenMode::ReadWrite)
            .auto_compact(None)
            .quantization(Some(Quantization::binary())),
    )
    .unwrap()
}

#[test]
fn binary_rejects_non_cosine() {
    for distance in [Distance::DotProduct, Distance::Euclidean] {
        let result = Store::in_memory_cfg(
            Config::new("/dev/null/in-memory", 4)
                .distance(distance)
                .open_mode(OpenMode::ReadWrite)
                .quantization(Some(Quantization::binary())),
        );
        let err = match result {
            Ok(_) => panic!("binary quantization must be rejected for {distance:?}"),
            Err(e) => e,
        };
        assert!(
            err.to_string()
                .contains("binary quantization requires Distance::Cosine"),
            "expected cosine-only rejection, got: {err}"
        );
    }
    assert!(
        Store::in_memory_cfg(
            Config::new("/dev/null/in-memory", 4)
                .distance(Distance::Cosine)
                .open_mode(OpenMode::ReadWrite)
                .quantization(Some(Quantization::binary())),
        )
        .is_ok()
    );
}

#[test]
fn binary_search_ranks_correctly() {
    let mut store = binary_store(3);
    store.create_collection("col").unwrap();
    store
        .upsert(
            "col",
            &[
                rec("close", vec![0.9, 0.1, 0.0]),
                rec("mid", vec![0.6, 0.5, 0.1]),
                rec("far", vec![-1.0, -0.2, 0.3]),
            ],
        )
        .unwrap();
    let hits = store
        .search(&["col"], &[1.0, 0.0, 0.0], &default_opts(3))
        .unwrap();
    assert_eq!(
        hits[0].id, "close",
        "binary first-pass + f32 rerank should rank correctly"
    );
    assert!(hits[0].score <= 1.0 + 1e-6 && hits[0].score >= -1.0 - 1e-6);
}

#[test]
fn binary_state_covers_all_rows_multiword() {
    let mut store = binary_store(130);
    store.create_collection("col").unwrap();
    for i in 0..7u32 {
        store
            .upsert(
                "col",
                &[rec(&format!("d{i}"), pseudo_vec(i as u64 + 1, 130))],
            )
            .unwrap();
    }
    assert_eq!(bin_state(&store).words_per_row, 130usize.div_ceil(64));
    assert_eq!(
        bin_state(&store).words.len(),
        store.data().row_count() as usize * 3
    );
}

#[test]
fn binary_search_recall_high_vs_exact() {
    let dim = 128;
    let n = 2000usize;
    let k = 10usize;
    let mut exact = Store::in_memory_with(dim, Distance::Cosine).unwrap();
    let mut bin = binary_store(dim);
    exact.create_collection("c").unwrap();
    bin.create_collection("c").unwrap();
    for i in 0..n {
        let r = rec(&format!("d{i}"), pseudo_vec(i as u64 + 1, dim));
        exact.upsert("c", std::slice::from_ref(&r)).unwrap();
        bin.upsert("c", &[r]).unwrap();
    }
    let (mut hit, mut total) = (0usize, 0usize);
    for qi in 0..20u64 {
        let q = pseudo_vec(1_000_000 + qi, dim);
        let truth: Vec<String> = exact
            .search(&["c"], &q, &default_opts(k))
            .unwrap()
            .into_iter()
            .map(|h| h.id)
            .collect();
        let got: std::collections::HashSet<String> = bin
            .search(&["c"], &q, &default_opts(k))
            .unwrap()
            .into_iter()
            .map(|h| h.id)
            .collect();
        for id in &truth {
            if got.contains(id) {
                hit += 1;
            }
            total += 1;
        }
    }
    let recall = hit as f64 / total as f64;
    assert!(recall >= 0.6, "binary recall@{k} too low: {recall:.3}");
}

fn binary_pseudo_store(dim: usize, n: usize, threads: usize) -> Store {
    let mut store = Store::in_memory_cfg(
        Config::new("/dev/null/in-memory", dim)
            .distance(Distance::Cosine)
            .open_mode(OpenMode::ReadWrite)
            .auto_compact(None)
            .query_threads(threads)
            .quantization(Some(Quantization::binary())),
    )
    .unwrap();
    store.create_collection("col").unwrap();
    let recs: Vec<Record> = (0..n)
        .map(|i| rec(&format!("d{i}"), pseudo_vec(i as u64 + 1, dim)))
        .collect();
    store.upsert("col", &recs).unwrap();
    store
}

#[test]
fn binary_parallel_matches_serial() {
    let dim = 768;
    let n = rows_to_parallelize(dim) + 100;
    let serial = binary_pseudo_store(dim, n, 1);
    let parallel = binary_pseudo_store(dim, n, 4);
    let q = pseudo_vec(7_000_001, dim);
    let hs: Vec<String> = serial
        .search(&["col"], &q, &default_opts(20))
        .unwrap()
        .into_iter()
        .map(|h| h.id)
        .collect();
    let hp: Vec<String> = parallel
        .search(&["col"], &q, &default_opts(20))
        .unwrap()
        .into_iter()
        .map(|h| h.id)
        .collect();
    assert_eq!(hs, hp, "binary parallel scan must match serial");
}

fn rows_to_parallelize(dim: usize) -> usize {
    PARALLEL_SCAN_WORK_FLOOR.div_ceil(dim) + 1
}

fn threaded_store_cfg(dim: usize, n: usize, threads: usize, quant: bool) -> Store {
    let mut cfg = Config::new("/dev/null/in-memory", dim)
        .open_mode(OpenMode::ReadWrite)
        .auto_compact(None)
        .query_threads(threads);
    if quant {
        cfg = cfg.quantization(Some(Quantization::default()));
    }
    let mut store = Store::in_memory_cfg(cfg).unwrap();
    store.create_collection("col").unwrap();
    let recs: Vec<Record> = (0..n)
        .map(|i| {
            let v: Vec<f32> = (0..dim)
                .map(|d| ((i * 31 + d * 7) % 97) as f32 - 48.0)
                .collect();
            rec(&format!("d{i}"), v)
        })
        .collect();
    store.upsert("col", &recs).unwrap();
    store
}

fn threaded_store(dim: usize, n: usize, threads: usize) -> Store {
    threaded_store_cfg(dim, n, threads, false)
}

#[test]
fn parallel_search_matches_serial() {
    let dim = 768;
    let n = rows_to_parallelize(dim) + 100;
    let serial = threaded_store(dim, n, 1);
    let parallel = threaded_store(dim, n, 4);
    let q: Vec<f32> = (0..dim).map(|d| (d * 5 % 13) as f32 - 6.0).collect();
    let hs = serial.search(&["col"], &q, &default_opts(20)).unwrap();
    let hp = parallel.search(&["col"], &q, &default_opts(20)).unwrap();
    assert_eq!(hs.len(), hp.len());
    for (a, b) in hs.iter().zip(&hp) {
        assert!(
            (a.score - b.score).abs() < 1e-6,
            "score mismatch: serial {} vs parallel {}",
            a.score,
            b.score
        );
    }
}

#[test]
fn parallel_search_respects_filter_and_min_score() {
    let dim = 768;
    let n = rows_to_parallelize(dim) + 100;
    let parallel = threaded_store(dim, n, 4);
    let q: Vec<f32> = (0..dim).map(|d| (d * 5 % 13) as f32 - 6.0).collect();
    let opts = SearchOpts {
        top_k: 30,
        min_score: Some(0.99),
        ..Default::default()
    };
    let hits = parallel.search(&["col"], &q, &opts).unwrap();
    assert!(hits.iter().all(|h| h.score >= 0.99));
}

#[test]
fn parallel_quantized_matches_serial() {
    let dim = 768;
    let n = rows_to_parallelize(dim) + 100;
    let serial = threaded_store_cfg(dim, n, 1, true);
    let parallel = threaded_store_cfg(dim, n, 4, true);
    let q: Vec<f32> = (0..dim).map(|d| (d * 5 % 13) as f32 - 6.0).collect();
    let hs = serial.search(&["col"], &q, &default_opts(20)).unwrap();
    let hp = parallel.search(&["col"], &q, &default_opts(20)).unwrap();
    assert_eq!(hs.len(), hp.len());
    for (a, b) in hs.iter().zip(&hp) {
        assert!(
            (a.score - b.score).abs() < 1e-6,
            "score mismatch: serial {} vs parallel {}",
            a.score,
            b.score
        );
    }
}

#[test]
fn parallel_below_floor_falls_back_to_serial() {
    let store = threaded_store(4, 10, 8);
    let hits = store
        .search(&["col"], &[1.0, 0.0, 0.0, 0.0], &default_opts(5))
        .unwrap();
    assert_eq!(hits.len(), 5);
    for w in hits.windows(2) {
        assert!(w[0].score >= w[1].score);
    }
}

#[test]
fn parallel_search_with_quantization() {
    let store = threaded_store_cfg(8, 200, 4, true);
    let q: Vec<f32> = (0..8).map(|d| (d * 2 % 7) as f32).collect();
    let hits = store.search(&["col"], &q, &default_opts(10)).unwrap();
    assert_eq!(hits.len(), 10);
}

fn random_unit_vectors(n: usize, dim: usize, seed: u64) -> Vec<Vec<f32>> {
    let mut rng = SplitMix64::new(seed);
    (0..n)
        .map(|_| {
            let mut v: Vec<f32> = (0..dim)
                .map(|_| rng.next_f64() as f32 * 2.0 - 1.0)
                .collect();
            normalize(&mut v);
            v
        })
        .collect()
}

fn ann_store(dim: usize, cfg: AnnConfig, vectors: &[Vec<f32>]) -> Store {
    let mut s = Store::in_memory_cfg(
        Config::new("/dev/null/in-memory", dim)
            .auto_compact(None)
            .ann(Some(cfg)),
    )
    .unwrap();
    let recs: Vec<Record> = vectors
        .iter()
        .enumerate()
        .map(|(i, v)| rec(&format!("d{i}"), v.clone()))
        .collect();
    s.upsert("col", &recs).unwrap();
    s
}

fn exact_store(dim: usize, vectors: &[Vec<f32>]) -> Store {
    let mut s = Store::in_memory(dim).unwrap();
    let recs: Vec<Record> = vectors
        .iter()
        .enumerate()
        .map(|(i, v)| rec(&format!("d{i}"), v.clone()))
        .collect();
    s.upsert("col", &recs).unwrap();
    s
}

fn mean_recall(ann: &Store, truth: &Store, queries: &[Vec<f32>], k: usize) -> f32 {
    let mut total = 0.0f32;
    for q in queries {
        let exact: std::collections::HashSet<String> = truth
            .search(&["col"], q, &default_opts(k))
            .unwrap()
            .into_iter()
            .map(|h| h.id)
            .collect();
        let got = ann.search(&["col"], q, &default_opts(k)).unwrap();
        let hit = got.iter().filter(|h| exact.contains(&h.id)).count();
        total += hit as f32 / k as f32;
    }
    total / queries.len() as f32
}

#[test]
fn hnsw_recall_matches_exact() {
    let (n, dim, k) = (2000, 32, 10);
    let data = random_unit_vectors(n, dim, 1);
    let queries = random_unit_vectors(50, dim, 2);
    let ann = ann_store(dim, AnnConfig::hnsw(), &data);
    let truth = exact_store(dim, &data);
    let recall = mean_recall(&ann, &truth, &queries, k);
    assert!(
        recall >= 0.90,
        "HNSW recall@{k} = {recall:.3}, expected >= 0.90"
    );
}

#[test]
fn hnsw_parallel_build_recall_matches_serial() {
    let (n, dim, k) = (1500, 32, 10);
    let data = random_unit_vectors(n, dim, 7);
    let queries = random_unit_vectors(30, dim, 8);
    let truth = exact_store(dim, &data);
    let serial = ann_store(dim, AnnConfig::hnsw(), &data);
    let parallel = {
        let mut s = Store::in_memory_cfg(
            Config::new("/dev/null/in-memory", dim)
                .auto_compact(None)
                .query_threads(4)
                .ann(Some(AnnConfig::hnsw())),
        )
        .unwrap();
        let recs: Vec<Record> = data
            .iter()
            .enumerate()
            .map(|(i, v)| rec(&format!("d{i}"), v.clone()))
            .collect();
        s.upsert("col", &recs).unwrap();
        s.compact().unwrap();
        s
    };
    let serial_recall = mean_recall(&serial, &truth, &queries, k);
    let parallel_recall = mean_recall(&parallel, &truth, &queries, k);
    assert!(
        parallel_recall >= serial_recall - 0.05,
        "parallel recall {parallel_recall:.3} should track serial {serial_recall:.3}"
    );
}

#[test]
fn ivf_recall_matches_exact() {
    let (n, dim, k) = (2000, 32, 10);
    let data = random_unit_vectors(n, dim, 3);
    let queries = random_unit_vectors(50, dim, 4);
    let ann = ann_store(dim, AnnConfig::ivf().n_probe(12), &data);
    let truth = exact_store(dim, &data);
    let recall = mean_recall(&ann, &truth, &queries, k);
    assert!(
        recall >= 0.70,
        "IVF recall@{k} = {recall:.3}, expected >= 0.70"
    );
}

#[test]
fn ann_finds_exact_match_small() {
    let data = vec![
        vec![1.0, 0.0, 0.0],
        vec![0.0, 1.0, 0.0],
        vec![0.0, 0.0, 1.0],
    ];
    for cfg in [AnnConfig::hnsw(), AnnConfig::ivf().n_probe(8)] {
        let s = ann_store(3, cfg, &data);
        let hits = s
            .search(&["col"], &[0.0, 1.0, 0.0], &default_opts(1))
            .unwrap();
        assert_eq!(hits.len(), 1);
        assert_eq!(hits[0].id, "d1", "{cfg:?} should find the exact match");
    }
}

#[test]
fn ann_post_filter_returns_only_matching() {
    let dim = 16;
    let data = random_unit_vectors(200, dim, 5);
    let mut s = Store::in_memory_cfg(
        Config::new("/dev/null/in-memory", dim)
            .auto_compact(None)
            .ann(Some(AnnConfig::hnsw().overscan(8))),
    )
    .unwrap();
    let recs: Vec<Record> = data
        .iter()
        .enumerate()
        .map(|(i, v)| {
            let mut attrs = BTreeMap::new();
            let kind = if i % 2 == 0 { "a" } else { "b" };
            attrs.insert("kind".to_string(), Value::Str(kind.to_string()));
            rec_with(&format!("d{i}"), v.clone(), attrs)
        })
        .collect();
    s.upsert("col", &recs).unwrap();
    let opts = SearchOpts {
        top_k: 10,
        filter: Filter(vec![Predicate::Eq(
            "kind".to_string(),
            Value::Str("b".to_string()),
        )]),
        ..Default::default()
    };
    let hits = s.search(&["col"], &data[1], &opts).unwrap();
    assert!(!hits.is_empty(), "filtered ANN should still return results");
    for h in &hits {
        let idx: usize = h.id.trim_start_matches('d').parse().unwrap();
        assert_eq!(idx % 2, 1, "{} leaked into a kind=b query", h.id);
    }
}

#[test]
fn ann_skips_deleted_rows() {
    let data = vec![
        vec![1.0, 0.0, 0.0],
        vec![0.9, 0.1, 0.0],
        vec![0.0, 1.0, 0.0],
    ];
    let mut s = ann_store(3, AnnConfig::hnsw(), &data);
    s.delete("col", &["d0"]).unwrap();
    let hits = s
        .search(&["col"], &[1.0, 0.0, 0.0], &default_opts(3))
        .unwrap();
    assert!(
        hits.iter().all(|h| h.id != "d0"),
        "deleted doc must not appear: {hits:?}"
    );
    assert_eq!(hits[0].id, "d1");
}

fn ann_quant_store(dim: usize, cfg: AnnConfig, quant: Quantization, vectors: &[Vec<f32>]) -> Store {
    let mut s = Store::in_memory_cfg(
        Config::new("/dev/null/in-memory", dim)
            .auto_compact(None)
            .ann(Some(cfg))
            .quantization(Some(quant)),
    )
    .unwrap();
    let recs: Vec<Record> = vectors
        .iter()
        .enumerate()
        .map(|(i, v)| rec(&format!("d{i}"), v.clone()))
        .collect();
    s.upsert("col", &recs).unwrap();
    s
}

#[test]
fn hnsw_int8_walk_recall() {
    let (n, dim, k) = (2000, 32, 10);
    let data = random_unit_vectors(n, dim, 11);
    let queries = random_unit_vectors(50, dim, 12);
    let truth = exact_store(dim, &data);
    let ann = ann_quant_store(dim, AnnConfig::hnsw(), Quantization::default(), &data);
    let recall = mean_recall(&ann, &truth, &queries, k);
    assert!(
        recall >= 0.85,
        "HNSW+int8 recall@{k} = {recall:.3}, expected >= 0.85"
    );
}

#[test]
fn hnsw_binary_walk_recall() {
    let (n, dim, k) = (2000, 64, 10);
    let data = random_unit_vectors(n, dim, 13);
    let queries = random_unit_vectors(50, dim, 14);
    let truth = exact_store(dim, &data);
    let ann = ann_quant_store(
        dim,
        AnnConfig::hnsw().ef_search(128).overscan(16),
        Quantization::binary(),
        &data,
    );
    let recall = mean_recall(&ann, &truth, &queries, k);
    assert!(
        recall >= 0.70,
        "HNSW+binary recall@{k} = {recall:.3}, expected >= 0.70"
    );
}

#[test]
fn ivf_int8_walk_recall() {
    let (n, dim, k) = (2000, 32, 10);
    let data = random_unit_vectors(n, dim, 15);
    let queries = random_unit_vectors(50, dim, 16);
    let truth = exact_store(dim, &data);
    let ann = ann_quant_store(
        dim,
        AnnConfig::ivf().n_probe(12),
        Quantization::default(),
        &data,
    );
    let recall = mean_recall(&ann, &truth, &queries, k);
    assert!(
        recall >= 0.65,
        "IVF+int8 recall@{k} = {recall:.3}, expected >= 0.65"
    );
}

#[test]
fn ann_with_quantization_is_accepted() {
    let data: Vec<Vec<f32>> = (0..8)
        .map(|i| {
            let t = i as f32 / 8.0;
            let mut v = vec![t.cos(), t.sin(), 0.25, -0.5];
            normalize(&mut v);
            v
        })
        .collect();
    let s = ann_quant_store(4, AnnConfig::hnsw(), Quantization::default(), &data);
    let hits = s.search(&["col"], &data[2], &default_opts(3)).unwrap();
    assert_eq!(hits.len(), 3);
    assert_eq!(hits[0].id, "d2");
    assert!(hits[0].score > 0.99, "self-match score {}", hits[0].score);
}

fn kinded_stores(
    dim: usize,
    cfg: AnnConfig,
    vectors: &[Vec<f32>],
    stride: usize,
) -> (Store, Store) {
    let recs: Vec<Record> = vectors
        .iter()
        .enumerate()
        .map(|(i, v)| {
            let mut attrs = BTreeMap::new();
            let kind = if i % stride == 0 { "rare" } else { "common" };
            attrs.insert("kind".to_string(), Value::Str(kind.to_string()));
            rec_with(&format!("d{i}"), v.clone(), attrs)
        })
        .collect();
    let mut ann = Store::in_memory_cfg(
        Config::new("/dev/null/in-memory", dim)
            .auto_compact(None)
            .ann(Some(cfg)),
    )
    .unwrap();
    ann.upsert("col", &recs).unwrap();
    let mut exact = Store::in_memory(dim).unwrap();
    exact.upsert("col", &recs).unwrap();
    (ann, exact)
}

fn rare_filter() -> Filter {
    Filter(vec![Predicate::Eq(
        "kind".to_string(),
        Value::Str("rare".to_string()),
    )])
}

#[test]
fn ann_selective_filter_keeps_exact_recall() {
    let (dim, k) = (16, 5);
    let data = random_unit_vectors(400, dim, 11);
    let queries = random_unit_vectors(20, dim, 12);
    for cfg in [AnnConfig::hnsw(), AnnConfig::ivf().n_probe(8)] {
        let (ann, exact) = kinded_stores(dim, cfg, &data, 40);
        for q in &queries {
            let opts = SearchOpts {
                top_k: k,
                filter: rare_filter(),
                ..Default::default()
            };
            let got = ann.search(&["col"], q, &opts).unwrap();
            let want = exact.search(&["col"], q, &opts).unwrap();
            let got_ids: Vec<&str> = got.iter().map(|h| h.id.as_str()).collect();
            let want_ids: Vec<&str> = want.iter().map(|h| h.id.as_str()).collect();
            assert_eq!(
                got_ids, want_ids,
                "{cfg:?}: selective-filter ranking diverged"
            );
            for (g, w) in got.iter().zip(&want) {
                assert!((g.score - w.score).abs() < 1e-6);
            }
            assert!(got.iter().all(|h| {
                let idx: usize = h.id.trim_start_matches('d').parse().unwrap();
                idx.is_multiple_of(40)
            }));
        }
    }
}

#[test]
fn ann_selective_scope_keeps_exact_recall() {
    let (dim, k) = (16, 5);
    let big = random_unit_vectors(400, dim, 21);
    let small = random_unit_vectors(8, dim, 22);
    let queries = random_unit_vectors(20, dim, 23);
    let build = |cfg: Option<AnnConfig>| {
        let mut c = Config::new("/dev/null/in-memory", dim).auto_compact(None);
        if let Some(a) = cfg {
            c = c.ann(Some(a));
        }
        let mut s = Store::in_memory_cfg(c).unwrap();
        let big_recs: Vec<Record> = big
            .iter()
            .enumerate()
            .map(|(i, v)| rec(&format!("b{i}"), v.clone()))
            .collect();
        let small_recs: Vec<Record> = small
            .iter()
            .enumerate()
            .map(|(i, v)| rec(&format!("s{i}"), v.clone()))
            .collect();
        s.upsert("big", &big_recs).unwrap();
        s.upsert("small", &small_recs).unwrap();
        s
    };
    let ann = build(Some(AnnConfig::hnsw()));
    let exact = build(None);
    for q in &queries {
        let got = ann.search(&["small"], q, &default_opts(k)).unwrap();
        let want = exact.search(&["small"], q, &default_opts(k)).unwrap();
        let got_ids: Vec<&str> = got.iter().map(|h| h.id.as_str()).collect();
        let want_ids: Vec<&str> = want.iter().map(|h| h.id.as_str()).collect();
        assert_eq!(got_ids, want_ids, "selective-scope ranking diverged");
        assert!(got.iter().all(|h| h.id.starts_with('s')));
    }
}

#[test]
fn ann_selective_filter_respects_min_score() {
    let dim = 8;
    let data = random_unit_vectors(16, dim, 31);
    let (ann, _exact) = kinded_stores(dim, AnnConfig::hnsw(), &data, 4);
    let opts = SearchOpts {
        top_k: 10,
        filter: rare_filter(),
        min_score: Some(0.99),
        ..Default::default()
    };
    let hits = ann.search(&["col"], &data[0], &opts).unwrap();
    assert!(hits.iter().all(|h| h.score >= 0.99));
    assert_eq!(hits[0].id, "d0");
}

fn text_rec(id: &str, attrs: BTreeMap<String, Value>) -> Record {
    Record::text_only(id, attrs)
}

fn attrs_one(key: &str, val: &str) -> BTreeMap<String, Value> {
    let mut m = BTreeMap::new();
    m.insert(key.to_string(), Value::Str(val.to_string()));
    m
}

#[test]
fn text_only_upsert_adds_no_row() {
    let mut store = Store::in_memory(3).unwrap();
    store
        .upsert("col", &[text_rec("t1", attrs_one("kind", "note"))])
        .unwrap();
    let fp = store.footprint();
    assert_eq!(fp.rows, 0);
    assert_eq!(fp.vector_bytes, 0);
    assert_eq!(fp.doc_count, 1);
    let recs = store.get_all("col");
    assert_eq!(recs.len(), 1);
    assert_eq!(recs[0].id, "t1");
    assert_eq!(recs[0].vector, None);
}

#[test]
fn vector_search_excludes_text_only_docs() {
    let mut store = Store::in_memory(3).unwrap();
    store
        .upsert(
            "col",
            &[
                rec("v1", vec![1.0, 0.0, 0.0]),
                text_rec("t1", attrs_one("kind", "note")),
            ],
        )
        .unwrap();
    let hits = store
        .search(&["col"], &[1.0, 0.0, 0.0], &default_opts(10))
        .unwrap();
    assert_eq!(hits.len(), 1);
    assert_eq!(hits[0].id, "v1");
}

#[test]
fn list_includes_text_only_docs() {
    let mut store = Store::in_memory(3).unwrap();
    store
        .upsert(
            "col",
            &[
                rec("v1", vec![1.0, 0.0, 0.0]),
                text_rec("t1", attrs_one("kind", "note")),
            ],
        )
        .unwrap();
    let hits = store
        .list(
            &["col"],
            &ListOpts {
                limit: 10,
                ..Default::default()
            },
        )
        .unwrap();
    let ids: Vec<&str> = hits.iter().map(|h| h.id.as_str()).collect();
    assert_eq!(
        ids,
        vec!["v1", "t1"],
        "rowed doc first, then text-only by id"
    );
}

#[test]
fn doc_can_switch_between_vector_and_text_only() {
    let mut store = Store::in_memory(3).unwrap();
    store
        .upsert("col", &[rec("d", vec![1.0, 0.0, 0.0])])
        .unwrap();
    assert_eq!(store.footprint().rows, 1);
    store
        .upsert("col", &[text_rec("d", attrs_one("kind", "note"))])
        .unwrap();
    assert_eq!(store.footprint().doc_count, 1);
    assert_eq!(store.footprint().dead_rows, 1);
    let hits = store
        .search(&["col"], &[1.0, 0.0, 0.0], &default_opts(10))
        .unwrap();
    assert!(hits.is_empty());
    store
        .upsert("col", &[rec("d", vec![0.0, 1.0, 0.0])])
        .unwrap();
    let hits = store
        .search(&["col"], &[0.0, 1.0, 0.0], &default_opts(10))
        .unwrap();
    assert_eq!(hits.len(), 1);
    assert_eq!(hits[0].id, "d");
}

#[test]
fn delete_text_only_doc_leaves_no_dead_row() {
    let mut store = Store::in_memory(3).unwrap();
    store
        .upsert("col", &[text_rec("t1", attrs_one("kind", "note"))])
        .unwrap();
    assert_eq!(store.delete("col", &["t1"]).unwrap(), 1);
    assert_eq!(store.footprint().dead_rows, 0);
    assert_eq!(store.footprint().doc_count, 0);
}

#[test]
fn text_only_docs_survive_reopen_and_compact() {
    let dir = tempdir();
    let path = dir.path().join("store");
    {
        let mut store = Store::open(Config::new(&path, 2)).unwrap();
        store
            .upsert(
                "col",
                &[
                    rec("v1", vec![3.0, 4.0]),
                    text_rec("t1", attrs_one("kind", "note")),
                    text_rec("t2", attrs_one("kind", "memo")),
                ],
            )
            .unwrap();
        store.compact().unwrap();
    }
    let store = Store::open(Config::new(&path, 2)).unwrap();
    assert_eq!(store.footprint().doc_count, 3);
    assert_eq!(store.footprint().rows, 1, "only the vector doc has a row");
    let all = store.get_all("col");
    let mut text_only: Vec<&str> = all
        .iter()
        .filter(|r| r.vector.is_none())
        .map(|r| r.id.as_str())
        .collect();
    text_only.sort();
    assert_eq!(text_only, vec!["t1", "t2"]);
}

fn segmented_store(dim: usize, seal: u64, index_min: u64) -> Store {
    Store::in_memory_cfg(
        Config::new("/dev/null/in-memory", dim)
            .distance(Distance::Cosine)
            .open_mode(OpenMode::ReadWrite)
            .auto_compact(None)
            .segment_max_rows(Some(seal))
            .segment_index_min_rows(Some(index_min)),
    )
    .unwrap()
}

#[test]
fn segmented_indexes_build_as_segments_seal() {
    let mut s = segmented_store(2, 4, 2);
    s.create_collection("col").unwrap();
    for i in 0..5 {
        s.upsert(
            "col",
            &[
                rec(&format!("a{i}"), vec![(i as f32).cos(), (i as f32).sin()]),
                rec(
                    &format!("b{i}"),
                    vec![(-(i as f32)).sin(), (i as f32).cos()],
                ),
            ],
        )
        .unwrap();
    }
    assert_eq!(s.seg_indexes().len(), s.data().segment_count());
    assert!(
        s.seg_indexes().last().unwrap().is_none(),
        "the active segment must stay exhaustive (never indexed)"
    );
    assert!(
        s.seg_indexes().iter().filter(|x| x.is_some()).count() >= 1,
        "at least one sealed segment should be IVF-indexed"
    );
}

#[test]
fn segmented_off_by_default_is_exact() {
    let dim = 8;
    let data = random_unit_vectors(40, dim, 11);
    let exact = exact_store(dim, &data);
    let mut seg = Store::in_memory_cfg(
        Config::new("/dev/null/in-memory", dim)
            .auto_compact(None)
            .segment_max_rows(Some(8)),
    )
    .unwrap();
    let recs: Vec<Record> = data
        .iter()
        .enumerate()
        .map(|(i, v)| rec(&format!("d{i}"), v.clone()))
        .collect();
    seg.upsert("col", &recs).unwrap();
    assert!(
        seg.seg_indexes().iter().all(Option::is_none),
        "no segment may be indexed when segment_index_min_rows is unset"
    );
    let q = random_unit_vectors(1, dim, 99).pop().unwrap();
    let got: Vec<String> = seg
        .search(&["col"], &q, &default_opts(10))
        .unwrap()
        .into_iter()
        .map(|h| h.id)
        .collect();
    let truth: Vec<String> = exact
        .search(&["col"], &q, &default_opts(10))
        .unwrap()
        .into_iter()
        .map(|h| h.id)
        .collect();
    assert_eq!(got, truth, "unindexed multi-segment store must be exact");
}

#[test]
fn segmented_small_segments_are_fully_probed_exact() {
    let mut s = segmented_store(2, 4, 2);
    s.create_collection("col").unwrap();
    let vectors: Vec<Vec<f32>> = (0..12)
        .map(|i| {
            let t = i as f32 / 12.0 * std::f32::consts::TAU;
            vec![t.cos(), t.sin()]
        })
        .collect();
    for (i, v) in vectors.iter().enumerate() {
        s.upsert("col", &[rec(&format!("d{i}"), v.clone())])
            .unwrap();
    }
    s.flush().unwrap();
    for (i, v) in vectors.iter().enumerate() {
        let hits = s.search(&["col"], v, &default_opts(1)).unwrap();
        assert_eq!(hits[0].id, format!("d{i}"), "row {i} should be its own NN");
    }
}

#[test]
fn segmented_skips_deleted_rows_in_cold_segments() {
    let mut s = segmented_store(2, 4, 2);
    s.create_collection("col").unwrap();
    let vectors: Vec<Vec<f32>> = (0..12)
        .map(|i| {
            let t = i as f32 / 12.0 * std::f32::consts::TAU;
            vec![t.cos(), t.sin()]
        })
        .collect();
    for (i, v) in vectors.iter().enumerate() {
        s.upsert("col", &[rec(&format!("d{i}"), v.clone())])
            .unwrap();
    }
    s.flush().unwrap();
    s.delete("col", &["d1"]).unwrap();
    let hits = s.search(&["col"], &vectors[1], &default_opts(3)).unwrap();
    assert!(
        hits.iter().all(|h| h.id != "d1"),
        "a deleted row in a cold segment must not surface: {hits:?}"
    );
}

#[test]
fn segmented_compact_collapses_to_exact() {
    let mut s = segmented_store(2, 4, 2);
    s.create_collection("col").unwrap();
    let vectors: Vec<Vec<f32>> = (0..12)
        .map(|i| {
            let t = i as f32 / 12.0 * std::f32::consts::TAU;
            vec![t.cos(), t.sin()]
        })
        .collect();
    for (i, v) in vectors.iter().enumerate() {
        s.upsert("col", &[rec(&format!("d{i}"), v.clone())])
            .unwrap();
    }
    s.flush().unwrap();
    assert!(
        s.data().segment_count() > 1,
        "store should have sealed segments"
    );
    s.compact().unwrap();
    assert_eq!(s.data().segment_count(), 1);
    assert!(s.seg_indexes().iter().all(Option::is_none));
    for (i, v) in vectors.iter().enumerate() {
        let hits = s.search(&["col"], v, &default_opts(1)).unwrap();
        assert_eq!(hits[0].id, format!("d{i}"));
    }
}

#[test]
fn segmented_recall_matches_exact() {
    let (n, dim, k) = (2000usize, 32, 10);
    let data = random_unit_vectors(n, dim, 3);
    let queries = random_unit_vectors(40, dim, 4);
    let truth = exact_store(dim, &data);
    let mut seg = segmented_store(dim, 256, 64);
    let recs: Vec<Record> = data
        .iter()
        .enumerate()
        .map(|(i, v)| rec(&format!("d{i}"), v.clone()))
        .collect();
    for batch in recs.chunks(256) {
        seg.upsert("col", batch).unwrap();
    }
    assert!(
        seg.seg_indexes().iter().filter(|x| x.is_some()).count() >= 2,
        "expected several indexed cold segments"
    );
    let recall = mean_recall(&seg, &truth, &queries, k);
    assert!(
        recall >= 0.80,
        "per-segment IVF recall@{k} = {recall:.3}, expected >= 0.80"
    );
}

#[test]
fn segmented_survives_reopen() {
    let dir = tempdir();
    let path = dir.path().join("store");
    let vectors: Vec<Vec<f32>> = (0..12)
        .map(|i| {
            let t = i as f32 / 12.0 * std::f32::consts::TAU;
            vec![t.cos(), t.sin()]
        })
        .collect();
    {
        let mut s = Store::open(
            Config::new(&path, 2)
                .auto_compact(None)
                .segment_max_rows(Some(4))
                .segment_index_min_rows(Some(2)),
        )
        .unwrap();
        for (i, v) in vectors.iter().enumerate() {
            s.upsert("col", &[rec(&format!("d{i}"), v.clone())])
                .unwrap();
        }
        s.flush().unwrap();
    }
    let s = Store::open(
        Config::new(&path, 2)
            .auto_compact(None)
            .segment_max_rows(Some(4))
            .segment_index_min_rows(Some(2)),
    )
    .unwrap();
    assert!(
        s.seg_indexes().iter().filter(|x| x.is_some()).count() >= 1,
        "cold-segment indexes should be rebuilt on open"
    );
    for (i, v) in vectors.iter().enumerate() {
        let hits = s.search(&["col"], v, &default_opts(1)).unwrap();
        assert_eq!(hits[0].id, format!("d{i}"), "row {i} after reopen");
    }
}

fn write_sealed_store(path: &Place, n: usize, dim: usize, seal: u64) -> Vec<Vec<f32>> {
    let data = random_unit_vectors(n, dim, 7);
    let mut s = Store::open(
        Config::new(path, dim)
            .auto_compact(None)
            .segment_max_rows(Some(seal)),
    )
    .unwrap();
    let recs: Vec<Record> = data
        .iter()
        .enumerate()
        .map(|(i, v)| rec(&format!("d{i}"), v.clone()))
        .collect();
    for batch in recs.chunks(64) {
        s.upsert("col", batch).unwrap();
    }
    s.flush().unwrap();
    data
}

#[test]
fn mmap_search_matches_ram_load() {
    let dir = tempdir();
    let path = dir.path().join("store");
    let (n, dim, k) = (500usize, 16, 10);
    write_sealed_store(&path, n, dim, 64);
    let queries = random_unit_vectors(20, dim, 8);
    let ram_results: Vec<Vec<(String, f32)>> = {
        let ram = Store::open(Config::new(&path, dim).auto_compact(None).mmap(false)).unwrap();
        queries
            .iter()
            .map(|q| {
                ram.search(&["col"], q, &default_opts(k))
                    .unwrap()
                    .into_iter()
                    .map(|h| (h.id, h.score))
                    .collect()
            })
            .collect()
    };
    let mapped = Store::open(Config::new(&path, dim).auto_compact(None).mmap(true)).unwrap();
    for (q, expected) in queries.iter().zip(&ram_results) {
        let got: Vec<(String, f32)> = mapped
            .search(&["col"], q, &default_opts(k))
            .unwrap()
            .into_iter()
            .map(|h| (h.id, h.score))
            .collect();
        assert_eq!(
            &got, expected,
            "mmap search must match the RAM-loaded search exactly"
        );
    }
}

#[test]
fn mmap_excludes_deleted_rows_in_mapped_segments() {
    let dir = tempdir();
    let path = dir.path().join("store");
    let dim = 4;
    let data = write_sealed_store(&path, 100, dim, 32);
    let mut s = Store::open(Config::new(&path, dim).auto_compact(None).mmap(true)).unwrap();
    s.delete("col", &["d10"]).unwrap();
    let hits = s.search(&["col"], &data[10], &default_opts(5)).unwrap();
    assert!(
        hits.iter().all(|h| h.id != "d10"),
        "a deleted row in a mapped segment must not appear"
    );
}

#[test]
fn mmap_compact_collapses_mapped_base() {
    let dir = tempdir();
    let path = dir.path().join("store");
    let dim = 8;
    let data = write_sealed_store(&path, 200, dim, 64);
    let mut s = Store::open(Config::new(&path, dim).auto_compact(None).mmap(true)).unwrap();
    for i in 0..50 {
        s.delete("col", &[format!("d{i}").as_str()]).unwrap();
    }
    s.compact().unwrap();
    assert_eq!(
        s.data().segment_count(),
        1,
        "compaction collapses every segment into one"
    );
    let hits = s.search(&["col"], &data[120], &default_opts(1)).unwrap();
    assert_eq!(hits[0].id, "d120");
}

#[test]
fn mmap_single_segment_store_stays_ram() {
    let dir = tempdir();
    let path = dir.path().join("store");
    let dim = 4;
    let data = random_unit_vectors(20, dim, 5);
    {
        let mut s = Store::open(Config::new(&path, dim)).unwrap();
        let recs: Vec<Record> = data
            .iter()
            .enumerate()
            .map(|(i, v)| rec(&format!("d{i}"), v.clone()))
            .collect();
        s.upsert("col", &recs).unwrap();
        s.flush().unwrap();
    }
    let s = Store::open(Config::new(&path, dim).mmap(true)).unwrap();
    let hits = s.search(&["col"], &data[3], &default_opts(1)).unwrap();
    assert_eq!(hits[0].id, "d3");
}

#[test]
fn mmap_with_per_segment_index_keeps_recall() {
    let (n, dim, k) = (2000usize, 32, 10);
    let dir = tempdir();
    let path = dir.path().join("store");
    let queries = random_unit_vectors(40, dim, 4);
    let data = {
        let all = random_unit_vectors(n, dim, 3);
        let mut s = Store::open(
            Config::new(&path, dim)
                .auto_compact(None)
                .segment_max_rows(Some(256))
                .segment_index_min_rows(Some(64)),
        )
        .unwrap();
        let recs: Vec<Record> = all
            .iter()
            .enumerate()
            .map(|(i, v)| rec(&format!("d{i}"), v.clone()))
            .collect();
        for batch in recs.chunks(256) {
            s.upsert("col", batch).unwrap();
        }
        s.flush().unwrap();
        all
    };
    let truth = exact_store(dim, &data);
    let mapped = Store::open(
        Config::new(&path, dim)
            .auto_compact(None)
            .segment_max_rows(Some(256))
            .segment_index_min_rows(Some(64))
            .mmap(true),
    )
    .unwrap();
    assert!(
        mapped.seg_indexes().iter().filter(|x| x.is_some()).count() >= 2,
        "cold segments should be indexed over the mapped data"
    );
    let recall = mean_recall(&mapped, &truth, &queries, k);
    assert!(
        recall >= 0.80,
        "mmap + per-segment IVF recall@{k} = {recall:.3}, expected >= 0.80"
    );
}

fn segmented_on_disk(path: &Place, dim: usize) -> Store {
    Store::open(
        Config::new(path, dim)
            .distance(Distance::Cosine)
            .auto_compact(None)
            .segment_max_rows(Some(8))
            .segment_index_min_rows(Some(4)),
    )
    .unwrap()
}

fn fill_segmented(s: &mut Store, dim: usize, n: usize, seed: u64) -> Vec<Vec<f32>> {
    let data = random_unit_vectors(n, dim, seed);
    let recs: Vec<Record> = data
        .iter()
        .enumerate()
        .map(|(i, v)| rec(&format!("d{i}"), v.clone()))
        .collect();
    for batch in recs.chunks(4) {
        s.upsert("col", batch).unwrap();
    }
    s.flush().unwrap();
    data
}

#[test]
fn segment_ivf_sidecars_are_written_and_reloaded() {
    let dir = tempdir();
    let path = dir.path().join("store");
    let dim = 8;
    let (data, sidecars) = {
        let mut s = segmented_on_disk(&path, dim);
        let data = fill_segmented(&mut s, dim, 40, 7);
        let indexed = s.seg_indexes().iter().filter(|x| x.is_some()).count();
        assert!(indexed >= 2, "expected several indexed cold segments");
        s.persist_index().unwrap();
        let names = s.data().segment_names();
        let sidecars: Vec<Place> = names
            .iter()
            .zip(&s.seg_indexes())
            .filter(|(_, ix)| ix.is_some())
            .map(|(n, _)| path.join(format!("{n}.ivf")))
            .collect();
        assert_eq!(sidecars.len(), indexed);
        for f in &sidecars {
            assert!(f.is_there(), "sidecar {f:?} written");
        }
        (data, sidecars)
    };
    let q = data[3].clone();
    let ids = |s: &Store| -> Vec<String> {
        s.search(&["col"], &q, &default_opts(10))
            .unwrap()
            .into_iter()
            .map(|h| h.id)
            .collect()
    };
    let from_cache = {
        let reopened = segmented_on_disk(&path, dim);
        assert_eq!(
            reopened.seg_indexes().iter().filter(|x| x.is_some()).count(),
            sidecars.len()
        );
        assert!(
            reopened.seg_index_dirty().iter().all(|d| !d),
            "an adopted sidecar must not be marked dirty (it would be rewritten every persist)"
        );
        ids(&reopened)
    };
    for f in &sidecars {
        f.remove();
    }
    let rebuilt = segmented_on_disk(&path, dim);
    assert!(
        rebuilt.seg_index_dirty().iter().any(|&d| d),
        "with no sidecar every index is freshly built, hence dirty"
    );
    assert_eq!(from_cache, ids(&rebuilt));
}

#[test]
fn compaction_drops_stale_segment_sidecars() {
    let dir = tempdir();
    let path = dir.path().join("store");
    let dim = 8;
    let base_sidecar = path.join("data.ivf");
    let mut s = segmented_on_disk(&path, dim);
    let data = fill_segmented(&mut s, dim, 40, 13);
    let (base, rows) = s.data().segment_ranges()[0];
    assert_eq!(base, 0, "the base segment always starts at row 0");
    path.edit(|d| {
        if !d.sidecars.contains(&0) {
            d.sidecars.push(0);
        }
    });
    assert!(base_sidecar.is_there());
    let doomed: Vec<String> = (rows as usize..40).map(|i| format!("d{i}")).collect();
    let refs: Vec<&str> = doomed.iter().map(String::as_str).collect();
    s.delete("col", &refs).unwrap();
    s.compact().unwrap();
    assert!(
        !base_sidecar.is_there(),
        "compaction must delete the base segment's stale IVF sidecar"
    );
    drop(s);
    let mut s = segmented_on_disk(&path, dim);
    assert_eq!(
        s.data().segment_ranges()[0].1,
        rows,
        "reseals at the same size"
    );
    let refill: Vec<Record> = (0..32)
        .map(|i| rec(&format!("n{i}"), data[i % data.len()].clone()))
        .collect();
    for batch in refill.chunks(4) {
        s.upsert("col", batch).unwrap();
    }
    s.flush().unwrap();
    assert_eq!(s.data().segment_ranges()[0], (base, rows));
    drop(s);
    let reopened = segmented_on_disk(&path, dim);
    let hits = reopened
        .search(&["col"], &data[0], &default_opts(64))
        .unwrap();
    assert_eq!(
        hits.len(),
        rows as usize + 32,
        "every live doc must still be reachable"
    );
}

#[test]
fn compaction_stale_sidecar_would_wreck_recall() {
    let (rows, dim, k) = (512usize, 32usize, 10usize);
    let dir = tempdir();
    let path = dir.path().join("store");
    let cfg = || {
        Config::new(&path, dim)
            .distance(Distance::Cosine)
            .auto_compact(None)
            .segment_max_rows(Some(rows as u64))
            .segment_index_min_rows(Some(256))
    };
    let fill = |s: &mut Store, vs: &[Vec<f32>]| {
        let recs: Vec<Record> = vs
            .iter()
            .enumerate()
            .map(|(i, v)| rec(&format!("d{i}"), v.clone()))
            .collect();
        for batch in recs.chunks(128) {
            s.upsert("col", batch).unwrap();
        }
        s.flush().unwrap();
    };
    let old = random_unit_vectors(rows + 1, dim, 21);
    let new = random_unit_vectors(rows + 1, dim, 22);
    let queries = random_unit_vectors(30, dim, 23);
    let mut s = Store::open(cfg()).unwrap();
    fill(&mut s, &old);
    assert_eq!(s.data().segment_ranges()[0], (0, rows as u64));
    s.persist_index().unwrap();
    assert!(path.join("data.ivf").is_there());
    let ids: Vec<String> = (0..=rows).map(|i| format!("d{i}")).collect();
    let refs: Vec<&str> = ids.iter().map(String::as_str).collect();
    s.delete("col", &refs).unwrap();
    s.compact().unwrap();
    fill(&mut s, &new);
    assert_eq!(s.data().segment_ranges()[0], (0, rows as u64));
    drop(s);
    let reopened = Store::open(cfg()).unwrap();
    let truth = exact_store(dim, &new);
    let recall = mean_recall(&reopened, &truth, &queries, k);
    let ref_dir = tempdir();
    let ref_path = ref_dir.path().join("store");
    let ref_cfg = || {
        Config::new(&ref_path, dim)
            .distance(Distance::Cosine)
            .auto_compact(None)
            .segment_max_rows(Some(rows as u64))
            .segment_index_min_rows(Some(256))
    };
    let mut r = Store::open(ref_cfg()).unwrap();
    fill(&mut r, &new);
    drop(r);
    let baseline = mean_recall(&Store::open(ref_cfg()).unwrap(), &truth, &queries, k);
    assert!(
        recall >= baseline - 0.02,
        "recall@{k} = {recall:.3} through the compaction path vs {baseline:.3} without \
         compacting — a stale sidecar was adopted over the rewritten vectors"
    );
}

fn doc(id: &str, body: &str) -> Record {
    let mut attrs = BTreeMap::new();
    attrs.insert("body".to_string(), Value::Str(body.to_string()));
    Record::text_only(id, attrs)
}

#[test]
fn text_search_ranks_and_stems() {
    let mut store = Store::in_memory(3).unwrap();
    store
        .set_fts_schema("docs", &[FtsField::new("body")])
        .unwrap();
    store
        .upsert(
            "docs",
            &[
                doc("a", "the cat sat on the mat"),
                doc("b", "cats are running and cats keep running"),
                doc("c", "a dog barked loudly"),
            ],
        )
        .unwrap();
    let hits = store
        .text_search(
            &["docs"],
            &FtsQuery::new("body", "running cats"),
            &default_opts(10),
        )
        .unwrap();
    assert_eq!(hits[0].id, "b");
    assert!(!hits.iter().any(|h| h.id == "c"));
}

#[test]
fn text_search_indexes_docs_upserted_before_schema() {
    let mut store = Store::in_memory(3).unwrap();
    store.upsert("docs", &[doc("a", "alpha beta")]).unwrap();
    store
        .set_fts_schema("docs", &[FtsField::new("body")])
        .unwrap();
    let hits = store
        .text_search(
            &["docs"],
            &FtsQuery::new("body", "alpha"),
            &default_opts(10),
        )
        .unwrap();
    assert_eq!(hits.len(), 1);
    assert_eq!(hits[0].id, "a");
}

#[test]
fn text_search_respects_filter_and_delete() {
    let mut store = Store::in_memory(3).unwrap();
    store
        .set_fts_schema("docs", &[FtsField::new("body")])
        .unwrap();
    let mut a = doc("a", "shared term");
    a.attrs
        .insert("lang".to_string(), Value::Str("rust".to_string()));
    let mut b = doc("b", "shared term");
    b.attrs
        .insert("lang".to_string(), Value::Str("go".to_string()));
    store.upsert("docs", &[a, b]).unwrap();
    let opts = SearchOpts {
        top_k: 10,
        filter: Filter(vec![Predicate::Eq(
            "lang".to_string(),
            Value::Str("rust".to_string()),
        )]),
        ..Default::default()
    };
    let hits = store
        .text_search(&["docs"], &FtsQuery::new("body", "shared"), &opts)
        .unwrap();
    assert_eq!(
        hits.iter().map(|h| h.id.as_str()).collect::<Vec<_>>(),
        vec!["a"]
    );
    store.delete("docs", &["a"]).unwrap();
    let hits = store
        .text_search(
            &["docs"],
            &FtsQuery::new("body", "shared"),
            &default_opts(10),
        )
        .unwrap();
    assert_eq!(
        hits.iter().map(|h| h.id.as_str()).collect::<Vec<_>>(),
        vec!["b"]
    );
}

#[test]
fn text_search_survives_reopen_and_compact() {
    let dir = tempdir();
    let path = dir.path().join("store");
    {
        let mut store = Store::open(Config::new(&path, 2)).unwrap();
        store
            .set_fts_schema("docs", &[FtsField::new("body")])
            .unwrap();
        store
            .upsert(
                "docs",
                &[
                    doc("a", "searching for needles"),
                    doc("b", "haystack of hay"),
                ],
            )
            .unwrap();
        store.delete("docs", &["b"]).unwrap();
        store.compact().unwrap();
    }
    let store = Store::open(Config::new(&path, 2)).unwrap();
    let hits = store
        .text_search(
            &["docs"],
            &FtsQuery::new("body", "needle"),
            &default_opts(10),
        )
        .unwrap();
    assert_eq!(
        hits.iter().map(|h| h.id.as_str()).collect::<Vec<_>>(),
        vec!["a"]
    );
}

#[test]
fn hybrid_collection_text_and_vector_coexist() {
    let mut store = Store::in_memory(3).unwrap();
    store
        .set_fts_schema("docs", &[FtsField::new("body")])
        .unwrap();
    let mut r = Record::new("a", vec![1.0, 0.0, 0.0], BTreeMap::new());
    r.attrs.insert(
        "body".to_string(),
        Value::Str("vector and text together".to_string()),
    );
    store.upsert("docs", &[r]).unwrap();
    let vhits = store
        .search(&["docs"], &[1.0, 0.0, 0.0], &default_opts(10))
        .unwrap();
    assert_eq!(vhits.len(), 1);
    let thits = store
        .text_search(&["docs"], &FtsQuery::new("body", "text"), &default_opts(10))
        .unwrap();
    assert_eq!(thits.len(), 1);
    assert_eq!(thits[0].id, "a");
}

#[test]
fn hybrid_search_fuses_vector_and_text() {
    let mut store = Store::in_memory(3).unwrap();
    store
        .set_fts_schema("docs", &[FtsField::new("body")])
        .unwrap();
    let mut a = Record::new("a", vec![1.0, 0.0, 0.0], BTreeMap::new());
    a.attrs.insert(
        "body".to_string(),
        Value::Str("unrelated words".to_string()),
    );
    let mut b = Record::new("b", vec![0.0, 1.0, 0.0], BTreeMap::new());
    b.attrs.insert(
        "body".to_string(),
        Value::Str("quantum physics lecture".to_string()),
    );
    let c = doc("c", "quantum physics quantum physics");
    store.upsert("docs", &[a, b, c]).unwrap();
    let opts = HybridOpts {
        top_k: 10,
        ..Default::default()
    };
    let hits = store
        .hybrid_search(
            &["docs"],
            &[1.0, 0.0, 0.0],
            &FtsQuery::new("body", "quantum physics"),
            &opts,
        )
        .unwrap();
    let ids: Vec<&str> = hits.iter().map(|h| h.id.as_str()).collect();
    assert!(ids.contains(&"a"));
    assert!(ids.contains(&"b"));
    assert!(
        ids.contains(&"c"),
        "text-only doc ranked by its BM25 leg alone"
    );
    for w in hits.windows(2) {
        assert!(w[0].score >= w[1].score);
    }
}

#[test]
fn hybrid_search_is_deterministic() {
    let mut store = Store::in_memory(3).unwrap();
    store
        .set_fts_schema("docs", &[FtsField::new("body")])
        .unwrap();
    store
        .upsert(
            "docs",
            &[
                doc("x", "alpha beta"),
                doc("y", "alpha gamma"),
                doc("z", "beta gamma"),
            ],
        )
        .unwrap();
    let opts = HybridOpts::default();
    let q = FtsQuery::new("body", "alpha beta");
    let a = store
        .hybrid_search(&["docs"], &[0.0, 0.0, 0.0], &q, &opts)
        .unwrap();
    let b = store
        .hybrid_search(&["docs"], &[0.0, 0.0, 0.0], &q, &opts)
        .unwrap();
    let ids_a: Vec<&str> = a.iter().map(|h| h.id.as_str()).collect();
    let ids_b: Vec<&str> = b.iter().map(|h| h.id.as_str()).collect();
    assert_eq!(ids_a, ids_b);
}

#[test]
fn fts_cache_persists_and_reloads() {
    let dir = tempdir();
    let path = dir.path().join("store");
    {
        let mut store = Store::open(Config::new(&path, 2)).unwrap();
        store
            .set_fts_schema("docs", &[FtsField::new("body")])
            .unwrap();
        store
            .upsert("docs", &[doc("a", "alpha beta"), doc("b", "beta gamma")])
            .unwrap();
        store.persist_index().unwrap();
        assert!(path.join("fts").is_there(), "fts cache file written");
    }
    {
        let store = Store::open(Config::new(&path, 2)).unwrap();
        let hits = store
            .text_search(&["docs"], &FtsQuery::new("body", "beta"), &default_opts(10))
            .unwrap();
        let mut ids: Vec<&str> = hits.iter().map(|h| h.id.as_str()).collect();
        ids.sort();
        assert_eq!(ids, vec!["a", "b"]);
    }
    {
        let mut store = Store::open(Config::new(&path, 2)).unwrap();
        store.upsert("docs", &[doc("c", "gamma delta")]).unwrap();
    }
    {
        let store = Store::open(Config::new(&path, 2)).unwrap();
        let hits = store
            .text_search(
                &["docs"],
                &FtsQuery::new("body", "delta"),
                &default_opts(10),
            )
            .unwrap();
        assert_eq!(
            hits.iter().map(|h| h.id.as_str()).collect::<Vec<_>>(),
            vec!["c"]
        );
    }
}

#[test]
fn text_only_churn_auto_compacts_fts_on_reopen() {
    let dir = tempdir();
    let path = dir.path().join("store");
    {
        let mut store = Store::open(Config::new(&path, 2)).unwrap();
        store
            .set_fts_schema("docs", &[FtsField::new("body")])
            .unwrap();
        for round in 0..5 {
            for i in 0..4 {
                let body = format!("term{round} shared");
                store
                    .upsert("docs", &[doc(&format!("d{i}"), &body)])
                    .unwrap();
            }
        }
        assert_eq!(
            store.footprint().dead_rows,
            0,
            "no data rows for text-only docs"
        );
        assert!(
            store.tombstone_ratio() > 0.5,
            "churn should accumulate FTS tombstones"
        );
        store.persist_index().unwrap();
    }
    let store = Store::open(Config::new(&path, 2)).unwrap();
    assert_eq!(
        store.tombstone_ratio(),
        0.0,
        "reopen auto-compacted the FTS index"
    );
    let hits = store
        .text_search(
            &["docs"],
            &FtsQuery::new("body", "shared"),
            &default_opts(10),
        )
        .unwrap();
    assert_eq!(hits.len(), 4, "all four live docs still searchable");
}

#[test]
fn text_search_across_collections_analyzes_once() {
    let mut store = Store::in_memory(3).unwrap();
    for c in ["a", "b"] {
        store.set_fts_schema(c, &[FtsField::new("body")]).unwrap();
    }
    store.upsert("a", &[doc("a1", "running fast")]).unwrap();
    store.upsert("b", &[doc("b1", "runners run")]).unwrap();
    let hits = store
        .text_search(
            &["a", "b"],
            &FtsQuery::new("body", "run"),
            &default_opts(10),
        )
        .unwrap();
    let mut ids: Vec<&str> = hits.iter().map(|h| h.id.as_str()).collect();
    ids.sort();
    assert_eq!(
        ids,
        vec!["a1", "b1"],
        "stemmed match across both collections"
    );
}

#[test]
fn suggest_ranks_by_document_frequency_not_idf() {
    let mut store = Store::in_memory(3).unwrap();
    store
        .set_fts_schema("docs", &[FtsField::new("body")])
        .unwrap();
    store
        .upsert(
            "docs",
            &[
                doc("a", "nidus"),
                doc("b", "nidus"),
                doc("c", "nidus"),
                doc("d", "nidification"),
            ],
        )
        .unwrap();
    let got = store.suggest("docs", "body", "nid", 10);
    assert_eq!(
        got.suggestions
            .iter()
            .map(|s| (s.term.as_str(), s.df))
            .collect::<Vec<_>>(),
        vec![("nidus", 3), ("nidification", 1)],
        "{got:?}"
    );
    assert_eq!(got.matched, 2);
    let hits = store
        .text_search(
            &["docs"],
            &FtsQuery::multi([FtsClause::new("body", "nid").prefix()]),
            &default_opts(10),
        )
        .unwrap();
    assert_eq!(
        hits[0].id, "d",
        "the rare term's sole doc still ranks first"
    );
}

#[test]
fn a_prefix_clause_matches_a_stem_shortened_word() {
    let mut store = Store::in_memory(3).unwrap();
    store
        .set_fts_schema("docs", &[FtsField::new("body")])
        .unwrap();
    store
        .upsert("docs", &[doc("a", "running late"), doc("b", "quiet")])
        .unwrap();
    for typed in ["runn", "runni", "running"] {
        let hits = store
            .text_search(
                &["docs"],
                &FtsQuery::multi([FtsClause::new("body", typed).prefix()]),
                &default_opts(10),
            )
            .unwrap();
        assert_eq!(
            hits.iter().map(|h| h.id.as_str()).collect::<Vec<_>>(),
            vec!["a"],
            "prefix {typed:?} must match the document that spells it"
        );
    }
}

#[test]
fn suggest_folds_the_prefix_like_a_prefix_clause() {
    let mut store = Store::in_memory(3).unwrap();
    store
        .set_fts_schema("docs", &[FtsField::new("body").ascii_folding(true)])
        .unwrap();
    store
        .upsert("docs", &[doc("a", "nidus"), doc("b", "café")])
        .unwrap();
    let upper = store.suggest("docs", "body", "NID", 10);
    let lower = store.suggest("docs", "body", "nid", 10);
    assert_eq!(upper, lower);
    assert_eq!(upper.suggestions.len(), 1, "{upper:?}");
    let folded = store.suggest("docs", "body", "caf", 10);
    assert_eq!(folded.suggestions[0].term, "cafe");
}

#[test]
fn suggest_takes_only_the_trailing_token() {
    let mut store = Store::in_memory(3).unwrap();
    store
        .set_fts_schema("docs", &[FtsField::new("body")])
        .unwrap();
    store.upsert("docs", &[doc("a", "nidus store")]).unwrap();
    assert_eq!(
        store.suggest("docs", "body", "the nid", 10),
        store.suggest("docs", "body", "nid", 10)
    );
}

#[test]
fn suggest_is_empty_for_an_unindexed_field_and_an_unknown_collection() {
    let mut store = Store::in_memory(3).unwrap();
    store
        .set_fts_schema("docs", &[FtsField::new("body")])
        .unwrap();
    store.upsert("docs", &[doc("a", "nidus")]).unwrap();
    assert_eq!(
        store.suggest("docs", "title", "nid", 10),
        Suggestions::default()
    );
    assert_eq!(
        store.suggest("nope", "body", "nid", 10),
        Suggestions::default()
    );
}

#[test]
fn suggest_of_an_empty_prefix_is_empty() {
    let mut store = Store::in_memory(3).unwrap();
    store
        .set_fts_schema("docs", &[FtsField::new("body")])
        .unwrap();
    store.upsert("docs", &[doc("a", "nidus")]).unwrap();
    for prefix in ["", "  ", "!!"] {
        assert_eq!(
            store.suggest("docs", "body", prefix, 10),
            Suggestions::default(),
            "prefix {prefix:?} must yield no suggestions"
        );
    }
}

#[test]
fn suggest_limit_truncates_and_matched_still_reports_the_full_count() {
    let mut store = Store::in_memory(3).unwrap();
    store
        .set_fts_schema("docs", &[FtsField::new("body")])
        .unwrap();
    store
        .upsert(
            "docs",
            &[
                doc("a", "nid1"),
                doc("b", "nid2"),
                doc("c", "nid3"),
                doc("d", "nid4"),
                doc("e", "nid5"),
            ],
        )
        .unwrap();
    let got = store.suggest("docs", "body", "nid", 2);
    assert_eq!(got.suggestions.len(), 2);
    assert_eq!(got.matched, 5);
}

#[test]
fn suggest_limit_zero_is_empty() {
    let mut store = Store::in_memory(3).unwrap();
    store
        .set_fts_schema("docs", &[FtsField::new("body")])
        .unwrap();
    store.upsert("docs", &[doc("a", "nidus")]).unwrap();
    let got = store.suggest("docs", "body", "nid", 0);
    assert!(got.suggestions.is_empty());
    assert_eq!(got.matched, 1);
}

#[test]
fn a_legacy_fts_schema_op_replays_with_the_default_params() {
    let ops = vec![
        Op::CreateCollection {
            collection: "docs".to_string(),
        },
        Op::SetFtsSchema {
            collection: "docs".to_string(),
            fields: vec![("body".to_string(), Language::English)],
        },
    ];
    let (collections, _dead, fts, _findex) = Store::replay_ops(ops, 0);
    assert!(collections.contains_key("docs"));
    let decl = fts.schema_for("docs").expect("legacy schema restored");
    assert_eq!(decl, vec![FtsField::new("body")]);
    assert_eq!(decl[0].k1, 1.2);
    assert_eq!(decl[0].b, 0.75);
    assert_eq!(
        fts.field_analyzer("docs", "body"),
        Some(Analyzer::default())
    );
}

#[test]
fn an_old_format_log_still_opens_and_searches() {
    let dir = tempdir();
    let path = dir.path().join("store");
    {
        let mut store = Store::open(Config::new(&path, 2)).unwrap();
        store.create_collection("docs").unwrap();
        store.core.log.push(Op::SetFtsSchema {
            collection: "docs".to_string(),
            fields: vec![("body".to_string(), Language::English)],
        });
        store.flush().unwrap();
        store
            .upsert(
                "docs",
                &[doc("a", "the cat sat"), doc("b", "cats and cats")],
            )
            .unwrap();
        store.flush().unwrap();
    }
    let store = Store::open(Config::new(&path, 2)).unwrap();
    let hits = store
        .text_search(&["docs"], &FtsQuery::new("body", "cat"), &default_opts(10))
        .unwrap();
    assert_eq!(
        hits.iter().map(|h| h.id.as_str()).collect::<Vec<_>>(),
        vec!["b", "a"]
    );
    assert!((hits[1].score - 0.182_321_6).abs() < 1e-5, "{hits:?}");
}

#[test]
fn per_field_params_change_the_ranking_they_are_declared_on() {
    let ranked = |field: FtsField| {
        let mut store = Store::in_memory(3).unwrap();
        store.set_fts_schema("docs", &[field]).unwrap();
        store
            .upsert(
                "docs",
                &[
                    doc("short", "needle"),
                    doc(
                        "long",
                        "needle needle plus assorted unrelated padding words here",
                    ),
                ],
            )
            .unwrap();
        let hits = store
            .text_search(
                &["docs"],
                &FtsQuery::new("body", "needle"),
                &default_opts(10),
            )
            .unwrap();
        hits[0].id.clone()
    };
    assert_eq!(ranked(FtsField::new("body")), "short");
    assert_eq!(ranked(FtsField::new("body").b(0.0)), "long");
}

#[test]
fn analyzer_options_apply_at_index_and_query_time() {
    let mut store = Store::in_memory(3).unwrap();
    store
        .set_fts_schema("docs", &[FtsField::new("body").ascii_folding(true)])
        .unwrap();
    store.upsert("docs", &[doc("a", "un café noir")]).unwrap();
    for q in ["cafe", "café"] {
        let hits = store
            .text_search(&["docs"], &FtsQuery::new("body", q), &default_opts(10))
            .unwrap();
        assert_eq!(hits.len(), 1, "query {q:?} must match the folded term");
    }
}

#[test]
fn set_fts_schema_rejects_params_bm25_cannot_use() {
    let mut store = Store::in_memory(3).unwrap();
    assert!(
        store
            .set_fts_schema("docs", &[FtsField::new("body").b(2.0)])
            .is_err()
    );
    assert!(
        store
            .set_fts_schema("docs", &[FtsField::new("body").k1(-1.0)])
            .is_err()
    );
    assert!(store.fts().schema_for("docs").is_none());
}

#[test]
fn changing_a_bm25_param_rebuilds_instead_of_serving_the_stale_cache() {
    let dir = tempdir();
    let path = dir.path().join("store");
    let corpus = [
        doc("short", "needle"),
        doc(
            "long",
            "needle needle plus assorted unrelated padding words here",
        ),
    ];
    let key_default;
    {
        let mut store = Store::open(Config::new(&path, 2)).unwrap();
        store
            .set_fts_schema("docs", &[FtsField::new("body")])
            .unwrap();
        store.upsert("docs", &corpus).unwrap();
        store.persist_index().unwrap();
        key_default = store.fts().cache_key();
        assert!(path.join("fts").is_there());
    }
    {
        let mut store = Store::open(Config::new(&path, 2)).unwrap();
        store
            .set_fts_schema("docs", &[FtsField::new("body").b(0.0)])
            .unwrap();
        assert_ne!(store.fts().cache_key(), key_default, "the key must move");
        store.persist_index().unwrap();
    }
    {
        let store = Store::open(Config::new(&path, 2)).unwrap();
        let hits = store
            .text_search(
                &["docs"],
                &FtsQuery::new("body", "needle"),
                &default_opts(10),
            )
            .unwrap();
        assert_eq!(hits[0].id, "long", "reopened under the new b");
    }
    {
        let mut store = Store::open(Config::new(&path, 2)).unwrap();
        store
            .set_fts_schema("docs", &[FtsField::new("body")])
            .unwrap();
        assert_eq!(store.fts().cache_key(), key_default);
        let hits = store
            .text_search(
                &["docs"],
                &FtsQuery::new("body", "needle"),
                &default_opts(10),
            )
            .unwrap();
        assert_eq!(hits[0].id, "short", "back to the default ranking");
    }
}

#[test]
fn compact_re_emits_the_full_field_configuration() {
    let dir = tempdir();
    let path = dir.path().join("store");
    let field = FtsField::new("body").k1(1.7).b(0.3).ascii_folding(true);
    {
        let mut store = Store::open(Config::new(&path, 2)).unwrap();
        store
            .set_fts_schema("docs", std::slice::from_ref(&field))
            .unwrap();
        store.upsert("docs", &[doc("a", "un café noir")]).unwrap();
        store.compact().unwrap();
    }
    let store = Store::open(Config::new(&path, 2)).unwrap();
    assert_eq!(store.fts().schema_for("docs"), Some(vec![field]));
    let hits = store
        .text_search(&["docs"], &FtsQuery::new("body", "cafe"), &default_opts(10))
        .unwrap();
    assert_eq!(hits.len(), 1, "folding survived the compaction");
}

fn angled(n: usize) -> Vec<Record> {
    (0..n)
        .map(|i| {
            let t = i as f32 / n as f32;
            rec(&format!("doc{i}"), vec![1.0 - t, t])
        })
        .collect()
}

#[test]
fn seal_on_threshold_creates_multiple_segments() {
    let dir = tempdir();
    let path = dir.path().to_path_buf();
    {
        let mut store = Store::open(Config::new(&path, 2).segment_max_rows(Some(3))).unwrap();
        for r in angled(7) {
            store.upsert("col", &[r]).unwrap();
        }
        store.flush().unwrap();
        assert_eq!(store.data().segment_count(), 3, "active sealed twice");
        assert_eq!(store.footprint().rows, 7);
    }
    assert!(path.join("data").is_there());
    assert!(path.join("seg-00000001").is_there());
    assert!(path.join("seg-00000002").is_there());
    assert!(path.join("manifest").is_there());
    let store = Store::open(Config::new(&path, 2).open_mode(OpenMode::ReadOnly)).unwrap();
    assert_eq!(store.data().segment_count(), 3);
    assert_eq!(store.footprint().rows, 7);
}

#[test]
fn multi_segment_search_matches_single_segment() {
    let q = [0.6_f32, 0.4];
    let recs = angled(8);
    let multi_dir = tempdir();
    let multi_hits = {
        let mut store =
            Store::open(Config::new(multi_dir.path(), 2).segment_max_rows(Some(2))).unwrap();
        for r in &recs {
            store.upsert("col", std::slice::from_ref(r)).unwrap();
        }
        assert!(store.data().segment_count() > 1, "store should have sealed");
        store.search(&["col"], &q, &default_opts(8)).unwrap()
    };
    let single_dir = tempdir();
    let single_hits = {
        let mut store = Store::open(Config::new(single_dir.path(), 2)).unwrap();
        store.upsert("col", &recs).unwrap();
        assert_eq!(store.data().segment_count(), 1);
        store.search(&["col"], &q, &default_opts(8)).unwrap()
    };
    let ids = |hits: &[Hit]| hits.iter().map(|h| h.id.clone()).collect::<Vec<_>>();
    assert_eq!(
        ids(&multi_hits),
        ids(&single_hits),
        "ranking must match exactly"
    );
    for (m, s) in multi_hits.iter().zip(&single_hits) {
        assert!(
            (m.score - s.score).abs() < 1e-6,
            "scores must match: {m:?} vs {s:?}"
        );
    }
}

#[test]
fn compact_collapses_segments_and_reclaims_objects() {
    let dir = tempdir();
    let path = dir.path().to_path_buf();
    let mut store = Store::open(Config::new(&path, 2).segment_max_rows(Some(2))).unwrap();
    for r in angled(6) {
        store.upsert("col", &[r]).unwrap();
    }
    assert!(store.data().segment_count() > 1);
    assert!(path.join("seg-00000001").is_there());
    store.compact().unwrap();
    assert_eq!(
        store.data().segment_count(),
        1,
        "compaction collapses to one segment"
    );
    assert!(
        !path.join("seg-00000001").is_there(),
        "orphaned segment object deleted"
    );
    assert_eq!(store.footprint().rows, 6);
    drop(store);
    let store = Store::open(Config::new(&path, 2).open_mode(OpenMode::ReadOnly)).unwrap();
    assert_eq!(store.get_all("col").len(), 6);
}

#[test]
fn legacy_store_without_manifest_migrates_on_open() {
    let dir = tempdir();
    let path = dir.path().to_path_buf();
    {
        let mut store = Store::open(Config::new(&path, 2)).unwrap();
        store.upsert("col", &angled(3)).unwrap();
    }
    path.join("manifest").remove();
    assert!(!path.join("manifest").is_there());
    {
        let store = Store::open(Config::new(&path, 2)).unwrap();
        assert_eq!(store.get_all("col").len(), 3);
    }
    assert!(path.join("manifest").is_there(), "migration wrote a manifest");
}

#[test]
fn readonly_open_without_manifest_writes_nothing() {
    let dir = tempdir();
    let path = dir.path().to_path_buf();
    {
        let mut store = Store::open(Config::new(&path, 2)).unwrap();
        store.upsert("col", &angled(2)).unwrap();
    }
    path.join("manifest").remove();
    let store = Store::open(Config::new(&path, 2).open_mode(OpenMode::ReadOnly)).unwrap();
    assert_eq!(store.get_all("col").len(), 2);
    assert!(
        !path.join("manifest").is_there(),
        "read-only open must not write a manifest"
    );
}

#[test]
fn orphan_segment_not_in_manifest_is_ignored() {
    let dir = tempdir();
    let path = dir.path().to_path_buf();
    {
        let mut store = Store::open(Config::new(&path, 2).segment_max_rows(Some(3))).unwrap();
        for r in angled(4) {
            store.upsert("col", &[r]).unwrap();
        }
        store.flush().unwrap();
        assert_eq!(store.data().segment_count(), 2);
    }
    path.edit(|d| {
        d.objects.push(Object {
            id: 99,
            rows: vec![vec![7, 7, 7]],
        })
    });
    let store = Store::open(Config::new(&path, 2).open_mode(OpenMode::ReadOnly)).unwrap();
    assert_eq!(store.data().segment_count(), 2, "stray object ignored");
    assert_eq!(
        store.get_all("col").len(),
        4,
        "data intact at pre-crash state"
    );
}

fn open_reader(path: &Place, dim: usize) -> Store {
    Store::open(
        Config::new(path, dim)
            .open_mode(OpenMode::ReadOnly)
            .auto_compact(None),
    )
    .unwrap()
}

fn ranking(store: &Store, query: &[f32], k: usize) -> Vec<(String, f32)> {
    store
        .search(&["col"], query, &default_opts(k))
        .unwrap()
        .into_iter()
        .map(|h| (h.id, h.score))
        .collect()
}

#[test]
fn refresh_adopts_a_writers_appends() {
    let dir = tempdir();
    let path = dir.path().to_path_buf();
    let mut w = Store::open(Config::new(&path, 2).auto_compact(None)).unwrap();
    w.create_collection("col").unwrap();
    w.upsert("col", &[rec("a", vec![1.0, 0.0])]).unwrap();
    let mut r = open_reader(&path, 2);
    assert_eq!(r.get_all("col").len(), 1);
    w.upsert("col", &[rec("b", vec![0.0, 1.0])]).unwrap();
    let before = ranking(&r, &[0.0, 1.0], 5);
    assert_eq!(before.len(), 1, "still the open-time snapshot");
    assert_eq!(before[0].0, "a");
    assert!(r.refresh().unwrap(), "refresh adopts the new write");
    let after = ranking(&r, &[0.0, 1.0], 5);
    assert_eq!(after.len(), 2);
    assert_eq!(after[0].0, "b");
    assert!((after[0].1 - 1.0).abs() < 1e-5);
    assert!(!r.refresh().unwrap(), "already current");
}

#[test]
fn refresh_is_a_noop_when_nothing_changed() {
    let dir = tempdir();
    let path = dir.path().to_path_buf();
    let mut w = Store::open(Config::new(&path, 2).auto_compact(None)).unwrap();
    w.create_collection("col").unwrap();
    w.upsert("col", &[rec("a", vec![1.0, 0.0])]).unwrap();
    let mut r = open_reader(&path, 2);
    assert!(!r.refresh().unwrap(), "nothing committed since open");
    assert!(!r.refresh().unwrap(), "still current");
}

#[test]
fn refresh_adopts_deletes() {
    let dir = tempdir();
    let path = dir.path().to_path_buf();
    let mut w = Store::open(Config::new(&path, 2).auto_compact(None)).unwrap();
    w.create_collection("col").unwrap();
    w.upsert("col", &[rec("a", vec![1.0, 0.0])]).unwrap();
    w.upsert("col", &[rec("b", vec![0.0, 1.0])]).unwrap();
    let mut r = open_reader(&path, 2);
    assert_eq!(r.get_all("col").len(), 2);
    w.delete("col", &["a"]).unwrap();
    assert!(r.refresh().unwrap(), "the delete is adopted");
    let ids: Vec<String> = r.get_all("col").into_iter().map(|rec| rec.id).collect();
    assert_eq!(ids, vec!["b".to_string()]);
}

#[test]
fn refresh_adopts_a_seal_and_matches_a_fresh_open() {
    let dir = tempdir();
    let path = dir.path().to_path_buf();
    let mut w = Store::open(
        Config::new(&path, 2)
            .auto_compact(None)
            .segment_max_rows(Some(3)),
    )
    .unwrap();
    for record in angled(2) {
        w.upsert("col", &[record]).unwrap();
    }
    let mut r = open_reader(&path, 2);
    assert_eq!(
        r.data().segment_count(),
        1,
        "reader opened on a single segment"
    );
    for record in angled(8).into_iter().skip(2) {
        w.upsert("col", &[record]).unwrap();
    }
    w.flush().unwrap();
    assert!(w.data().segment_count() >= 2, "writer sealed at least once");
    assert!(
        r.refresh().unwrap(),
        "the seal advances the manifest version"
    );
    assert_eq!(
        r.data().segment_count(),
        w.data().segment_count(),
        "reader adopts the new segment set"
    );
    assert_eq!(r.data().version(), w.data().version());
    let fresh = open_reader(&path, 2);
    for q in random_unit_vectors(12, 2, 5) {
        assert_eq!(ranking(&r, &q, 6), ranking(&fresh, &q, 6), "query {q:?}");
    }
}

#[test]
fn refresh_adopts_a_compaction() {
    let dir = tempdir();
    let path = dir.path().to_path_buf();
    let mut w = Store::open(Config::new(&path, 3).auto_compact(None)).unwrap();
    w.create_collection("col").unwrap();
    w.upsert("col", &[rec("a", vec![1.0, 0.0, 0.0])]).unwrap();
    w.upsert("col", &[rec("b", vec![0.0, 1.0, 0.0])]).unwrap();
    w.upsert("col", &[rec("a", vec![0.0, 0.0, 1.0])]).unwrap();
    let mut r = open_reader(&path, 3);
    assert_eq!(r.dead_rows(), 1, "reader sees the dead row pre-compaction");
    w.compact().unwrap();
    assert!(r.refresh().unwrap(), "the compaction is adopted");
    assert_eq!(r.dead_rows(), 0, "compaction reclaimed the dead row");
    let hits = r
        .search(&["col"], &[0.0, 0.0, 1.0], &default_opts(5))
        .unwrap();
    assert_eq!(hits.len(), 2);
    assert_eq!(hits[0].id, "a");
    let fresh = open_reader(&path, 3);
    for q in random_unit_vectors(8, 3, 9) {
        assert_eq!(ranking(&r, &q, 5), ranking(&fresh, &q, 5));
    }
}

#[test]
fn refresh_is_a_noop_on_a_writer_and_in_memory() {
    let dir = tempdir();
    let path = dir.path().to_path_buf();
    let mut w = Store::open(Config::new(&path, 2).auto_compact(None)).unwrap();
    w.create_collection("col").unwrap();
    w.upsert("col", &[rec("a", vec![1.0, 0.0])]).unwrap();
    assert!(
        !w.refresh().unwrap(),
        "a writer is already the source of truth"
    );
    let mut mem = Store::in_memory(2).unwrap();
    mem.create_collection("col").unwrap();
    assert!(!mem.refresh().unwrap(), "an in-memory store has no backend");
}

#[test]
fn refresh_keeps_recall_with_per_segment_indexing() {
    let dir = tempdir();
    let path = dir.path().to_path_buf();
    let dim = 8;
    let data = random_unit_vectors(240, dim, 3);
    let mut w = Store::open(
        Config::new(&path, dim)
            .auto_compact(None)
            .segment_max_rows(Some(64))
            .segment_index_min_rows(Some(64)),
    )
    .unwrap();
    for (i, v) in data.iter().enumerate().take(80) {
        w.upsert("col", &[rec(&format!("d{i}"), v.clone())])
            .unwrap();
    }
    let mut r = Store::open(
        Config::new(&path, dim)
            .open_mode(OpenMode::ReadOnly)
            .auto_compact(None)
            .segment_max_rows(Some(64))
            .segment_index_min_rows(Some(64)),
    )
    .unwrap();
    for (i, v) in data.iter().enumerate().skip(80) {
        w.upsert("col", &[rec(&format!("d{i}"), v.clone())])
            .unwrap();
    }
    w.flush().unwrap();
    assert!(r.refresh().unwrap());
    let fresh = Store::open(
        Config::new(&path, dim)
            .open_mode(OpenMode::ReadOnly)
            .auto_compact(None)
            .segment_max_rows(Some(64))
            .segment_index_min_rows(Some(64)),
    )
    .unwrap();
    for q in random_unit_vectors(15, dim, 11) {
        assert_eq!(ranking(&r, &q, 10), ranking(&fresh, &q, 10), "query {q:?}");
    }
}

#[test]
fn refresh_composes_with_a_memory_mapped_reader() {
    let dir = tempdir();
    let path = dir.path().to_path_buf();
    let dim = 16;
    let data = random_unit_vectors(300, dim, 4);
    let mut w = Store::open(
        Config::new(&path, dim)
            .auto_compact(None)
            .segment_max_rows(Some(64)),
    )
    .unwrap();
    for (i, v) in data.iter().enumerate().take(70) {
        w.upsert("col", &[rec(&format!("d{i}"), v.clone())])
            .unwrap();
    }
    w.flush().unwrap();
    let mut r = Store::open(
        Config::new(&path, dim)
            .open_mode(OpenMode::ReadOnly)
            .auto_compact(None)
            .segment_max_rows(Some(64))
            .mmap(true),
    )
    .unwrap();
    for (i, v) in data.iter().enumerate().skip(70) {
        w.upsert("col", &[rec(&format!("d{i}"), v.clone())])
            .unwrap();
    }
    w.flush().unwrap();
    assert!(
        r.refresh().unwrap(),
        "the mapped reader adopts the new segments"
    );
    let fresh = Store::open(
        Config::new(&path, dim)
            .open_mode(OpenMode::ReadOnly)
            .auto_compact(None)
            .segment_max_rows(Some(64))
            .mmap(true),
    )
    .unwrap();
    for q in random_unit_vectors(15, dim, 13) {
        assert_eq!(ranking(&r, &q, 10), ranking(&fresh, &q, 10), "query {q:?}");
    }
}

#[test]
fn pinned_open_survives_a_later_commit_but_not_its_delete() {
    let dir = tempdir();
    let path = dir.path().to_path_buf();
    let mut w = Store::open(
        Config::new(&path, 2)
            .auto_compact(None)
            .segment_max_rows(Some(2))
            .history_versions(Some(10)),
    )
    .unwrap();
    w.upsert("col", &[rec("a", vec![1.0, 0.0])]).unwrap();
    w.upsert("col", &[rec("b", vec![0.0, 1.0])]).unwrap();
    let v = w.data().version();
    w.upsert("col", &[rec("c", vec![1.0, 1.0])]).unwrap();
    w.delete("col", &["a"]).unwrap();
    w.flush().unwrap();
    let pinned = Store::open(
        Config::new(&path, 2)
            .open_mode(OpenMode::ReadOnly)
            .auto_compact(None)
            .at_version(Some(v)),
    )
    .unwrap();
    let ids: std::collections::BTreeSet<String> =
        pinned.get_all("col").into_iter().map(|r| r.id).collect();
    assert_eq!(
        ids,
        ["a", "b"].into_iter().map(String::from).collect(),
        "sees a,b as of the pin; not c; still a despite the later delete"
    );
}

#[test]
fn pinned_open_across_a_compaction_is_refused() {
    let dir = tempdir();
    let path = dir.path().to_path_buf();
    let mut w = Store::open(
        Config::new(&path, 2)
            .auto_compact(None)
            .segment_max_rows(Some(2))
            .history_versions(Some(10)),
    )
    .unwrap();
    w.upsert("col", &[rec("a", vec![1.0, 0.0])]).unwrap();
    w.upsert("col", &[rec("b", vec![0.0, 1.0])]).unwrap();
    w.upsert("col", &[rec("c", vec![1.0, 1.0])]).unwrap();
    let v = w.data().version();
    w.delete("col", &["a"]).unwrap();
    w.compact().unwrap();
    let err = Store::open(
        Config::new(&path, 2)
            .open_mode(OpenMode::ReadOnly)
            .auto_compact(None)
            .at_version(Some(v)),
    )
    .map(|_| ())
    .unwrap_err()
    .to_string();
    let oldest = w.versions().unwrap().oldest_readable.unwrap();
    assert!(err.contains(&v.to_string()), "{err}");
    assert!(err.contains(&oldest.to_string()), "{err}");
}

#[test]
fn a_history_entry_that_outlives_a_compaction_is_still_refused() {
    let dir = tempdir();
    let path = dir.path().to_path_buf();
    let mut w = Store::open(
        Config::new(&path, 2)
            .auto_compact(None)
            .segment_max_rows(Some(2))
            .history_versions(Some(10)),
    )
    .unwrap();
    w.upsert("col", &[rec("a", vec![1.0, 0.0])]).unwrap();
    w.upsert("col", &[rec("b", vec![0.0, 1.0])]).unwrap();
    let v = w.data().version();
    let stale = path
        .edit(|d| d.history.iter().find(|e| e.version == v).cloned())
        .expect("the pinned version was recorded");
    w.delete("col", &["a"]).unwrap();
    w.compact().unwrap();
    path.edit(|d| d.history.insert(0, stale));
    let err = Store::open(
        Config::new(&path, 2)
            .open_mode(OpenMode::ReadOnly)
            .auto_compact(None)
            .at_version(Some(v)),
    )
    .map(|_| ())
    .unwrap_err()
    .to_string();
    let oldest = w.versions().unwrap().oldest_readable.unwrap();
    assert!(err.contains(&oldest.to_string()), "{err}");
}

#[test]
fn a_pin_held_across_a_compaction_keeps_serving_and_never_moves() {
    let dir = tempdir();
    let path = dir.path().to_path_buf();
    let mut w = Store::open(
        Config::new(&path, 2)
            .auto_compact(None)
            .segment_max_rows(Some(2))
            .history_versions(Some(10)),
    )
    .unwrap();
    w.upsert("col", &[rec("a", vec![1.0, 0.0])]).unwrap();
    w.upsert("col", &[rec("b", vec![0.0, 1.0])]).unwrap();
    let v = w.data().version();
    let mut r = Store::open(
        Config::new(&path, 2)
            .open_mode(OpenMode::ReadOnly)
            .auto_compact(None)
            .at_version(Some(v)),
    )
    .unwrap();
    let before: std::collections::BTreeSet<String> =
        r.get_all("col").into_iter().map(|rec| rec.id).collect();
    assert_eq!(before, ["a", "b"].into_iter().map(String::from).collect());
    w.delete("col", &["a"]).unwrap();
    w.compact().unwrap();
    assert!(!r.refresh().unwrap(), "refresh must never cross a pin");
    let after: std::collections::BTreeSet<String> =
        r.get_all("col").into_iter().map(|rec| rec.id).collect();
    assert_eq!(after, before, "the held pin still serves its own snapshot");
    let err = r.refresh_to(v).map(|_| ()).unwrap_err().to_string();
    let oldest = w.versions().unwrap().oldest_readable.unwrap();
    assert!(err.contains(&oldest.to_string()), "{err}");
    let survived: std::collections::BTreeSet<String> =
        r.get_all("col").into_iter().map(|rec| rec.id).collect();
    assert_eq!(
        survived, before,
        "a refused refresh_to left the snapshot serving"
    );
}

#[test]
fn refresh_never_crosses_a_pin_but_refresh_to_does() {
    let dir = tempdir();
    let path = dir.path().to_path_buf();
    let mut w = Store::open(
        Config::new(&path, 2)
            .auto_compact(None)
            .segment_max_rows(Some(2))
            .history_versions(Some(10)),
    )
    .unwrap();
    w.upsert("col", &[rec("a", vec![1.0, 0.0])]).unwrap();
    w.upsert("col", &[rec("b", vec![0.0, 1.0])]).unwrap();
    w.upsert("col", &[rec("c", vec![1.0, 1.0])]).unwrap();
    let v1 = w.data().version();
    let mut r = Store::open(
        Config::new(&path, 2)
            .open_mode(OpenMode::ReadOnly)
            .auto_compact(None)
            .at_version(Some(v1)),
    )
    .unwrap();
    let before: std::collections::BTreeSet<String> =
        r.get_all("col").into_iter().map(|rec| rec.id).collect();
    w.upsert("col", &[rec("d", vec![0.0, 0.0])]).unwrap();
    w.upsert("col", &[rec("e", vec![1.0, 0.0])]).unwrap();
    w.flush().unwrap();
    let v2 = w.data().version();
    assert!(v2 > v1, "the second seal must have advanced the version");
    assert!(!r.refresh().unwrap(), "refresh must never cross a pin");
    let still_pinned: std::collections::BTreeSet<String> =
        r.get_all("col").into_iter().map(|rec| rec.id).collect();
    assert_eq!(
        still_pinned, before,
        "refresh left the pinned snapshot alone"
    );
    let vs = r.versions().unwrap();
    assert_eq!(vs.pinned, Some(v1));
    assert_eq!(
        vs.commit_version, v2,
        "commit_version is the live head, not the pin"
    );
    r.refresh_to(v2).unwrap();
    assert_eq!(r.pinned(), Some(v2));
    let moved: std::collections::BTreeSet<String> =
        r.get_all("col").into_iter().map(|rec| rec.id).collect();
    assert_ne!(moved, before, "refresh_to actually moved the snapshot");
    let fresh_pin = Store::open(
        Config::new(&path, 2)
            .open_mode(OpenMode::ReadOnly)
            .auto_compact(None)
            .at_version(Some(v2)),
    )
    .unwrap();
    let expected: std::collections::BTreeSet<String> = fresh_pin
        .get_all("col")
        .into_iter()
        .map(|rec| rec.id)
        .collect();
    assert_eq!(moved, expected, "matches a fresh open at the same version");
}

#[test]
fn pinned_handle_rejects_every_mutation() {
    let dir = tempdir();
    let path = dir.path().to_path_buf();
    let mut w = Store::open(
        Config::new(&path, 2)
            .auto_compact(None)
            .segment_max_rows(Some(2))
            .history_versions(Some(10)),
    )
    .unwrap();
    w.upsert("col", &[rec("a", vec![1.0, 0.0])]).unwrap();
    w.upsert("col", &[rec("b", vec![0.0, 1.0])]).unwrap();
    w.upsert("col", &[rec("c", vec![1.0, 1.0])]).unwrap();
    let v = w.data().version();
    w.flush().unwrap();
    let mut pinned = Store::open(
        Config::new(&path, 2)
            .open_mode(OpenMode::ReadOnly)
            .auto_compact(None)
            .at_version(Some(v)),
    )
    .unwrap();
    assert!(pinned.upsert("col", &[rec("z", vec![0.0, 0.0])]).is_err());
    assert!(pinned.delete("col", &["a"]).is_err());
    assert!(pinned.compact().is_err());
    assert!(pinned.flush().is_err());
}

#[test]
fn open_at_with_history_off_names_the_reason() {
    let dir = tempdir();
    let path = dir.path().to_path_buf();
    {
        let mut w = Store::open(Config::new(&path, 2).auto_compact(None)).unwrap();
        w.upsert("col", &[rec("a", vec![1.0, 0.0])]).unwrap();
    }
    let err = Store::open(
        Config::new(&path, 2)
            .open_mode(OpenMode::ReadOnly)
            .at_version(Some(1)),
    )
    .map(|_| ())
    .unwrap_err()
    .to_string();
    assert!(err.contains("no history"), "{err}");
    assert!(err.contains("history_versions"), "{err}");
}

#[test]
fn pruning_moves_the_floor_and_versions_reports_the_survivors() {
    let dir = tempdir();
    let path = dir.path().to_path_buf();
    let mut w = Store::open(
        Config::new(&path, 2)
            .auto_compact(None)
            .segment_max_rows(Some(1))
            .history_versions(Some(2)),
    )
    .unwrap();
    for (i, id) in ["a", "b", "c", "d", "e"].into_iter().enumerate() {
        w.upsert("col", &[rec(id, vec![i as f32, 0.0])]).unwrap();
    }
    w.flush().unwrap();
    let vs = w.versions().unwrap();
    assert_eq!(vs.commit_version, w.data().version());
    assert_eq!(vs.pinned, None);
    let oldest = vs.oldest_readable.expect("some history was recorded");
    assert!(oldest > 1, "the earliest seals must have been pruned");
    assert_eq!(
        vs.readable,
        (oldest..=vs.commit_version).collect::<Vec<_>>(),
        "no gaps in the surviving window"
    );
    let err = Store::open(
        Config::new(&path, 2)
            .open_mode(OpenMode::ReadOnly)
            .at_version(Some(oldest - 1)),
    )
    .map(|_| ())
    .unwrap_err()
    .to_string();
    assert!(err.contains(&oldest.to_string()), "{err}");
}

#[test]
fn versions_reports_the_landscape_without_pruning() {
    let dir = tempdir();
    let path = dir.path().to_path_buf();
    let mut w = Store::open(
        Config::new(&path, 2)
            .auto_compact(None)
            .segment_max_rows(Some(1))
            .history_versions(Some(10)),
    )
    .unwrap();
    w.upsert("col", &[rec("a", vec![1.0, 0.0])]).unwrap();
    w.upsert("col", &[rec("b", vec![0.0, 1.0])]).unwrap();
    w.flush().unwrap();
    let v = w.data().version();
    let vs = w.versions().unwrap();
    assert_eq!(vs.commit_version, v);
    assert_eq!(vs.pinned, None);
    assert_eq!(vs.oldest_readable, Some(2));
    assert_eq!(vs.readable, vec![2, 3, 4, v]);
    let pinned = Store::open(
        Config::new(&path, 2)
            .open_mode(OpenMode::ReadOnly)
            .at_version(Some(v)),
    )
    .unwrap();
    assert_eq!(pinned.versions().unwrap().pinned, Some(v));
}

#[test]
fn cluster_mode_rejects_a_local_filesystem_store() {
    let dir = tempdir();
    let Err(err) = Store::open(Config::new(dir.path(), 2).cluster(true)) else {
        panic!("a local-filesystem cluster store must be rejected");
    };
    assert!(err.to_string().contains("object-store"), "{err}");
}

fn assert_dim_error(err: Fail, want_len: usize, want_dim: usize) {
    let msg = format!("{err:#}");
    assert!(
        msg.contains("does not match store dimension"),
        "message must keep the substring `classify` matches for 400, got: {msg}"
    );
    assert!(
        msg.contains(&want_len.to_string()) && msg.contains(&want_dim.to_string()),
        "message should name both lengths ({want_len} vs {want_dim}), got: {msg}"
    );
}

#[test]
fn search_rejects_a_query_of_the_wrong_dimension() {
    let mut store = Store::in_memory(3).unwrap();
    store
        .upsert("col", &[rec("a", vec![1.0, 0.0, 0.0])])
        .unwrap();
    for bad in [vec![1.0, 0.0], vec![1.0, 0.0, 0.0, 9.0], vec![]] {
        let n = bad.len();
        let err = match store.search(&["col"], &bad, &default_opts(5)) {
            Ok(hits) => panic!(
                "a {n}-dim query against a dim-3 store must be refused, got {} hit(s)",
                hits.len()
            ),
            Err(e) => e,
        };
        assert_dim_error(err, n, 3);
    }
    assert_eq!(
        store
            .search(&["col"], &[1.0, 0.0, 0.0], &default_opts(5))
            .unwrap()
            .len(),
        1
    );
}

#[test]
fn search_rejects_a_bad_dimension_even_on_an_empty_store() {
    let store = Store::in_memory(8).unwrap();
    let err = store
        .search(&["col"], &[1.0, 2.0], &default_opts(5))
        .expect_err("dimension is pinned at creation, not inferred from the rows present");
    assert_dim_error(err, 2, 8);
}

#[test]
fn search_rejects_a_bad_dimension_on_the_ann_path_too() {
    let vectors: Vec<Vec<f32>> = (0..32)
        .map(|i| {
            let x = i as f32;
            vec![x, 1.0 - x, x * 0.5, 2.0 - x]
        })
        .collect();
    let store = ann_store(4, AnnConfig::hnsw(), &vectors);
    let err = store
        .search(&["col"], &[1.0, 0.0, 0.0], &default_opts(5))
        .expect_err("the ANN path must refuse a mismatched query too");
    assert_dim_error(err, 3, 4);
}

#[test]
fn hybrid_search_rejects_a_bad_dimension_regardless_of_top_k() {
    let mut store = Store::in_memory(3).unwrap();
    store
        .set_fts_schema("docs", &[FtsField::new("body")])
        .unwrap();
    store
        .upsert("docs", &[doc("c", "quantum physics")])
        .unwrap();
    let query = FtsQuery::new("body", "quantum");
    for top_k in [10, 0] {
        let opts = HybridOpts {
            top_k,
            ..Default::default()
        };
        let err = store
            .hybrid_search(&["docs"], &[1.0, 0.0], &query, &opts)
            .expect_err("hybrid must refuse a mismatched vector at any top_k");
        assert_dim_error(err, 2, 3);
    }
}

#[test]
fn an_absurd_top_k_returns_every_doc_instead_of_panicking() {
    let mut store = Store::in_memory(3).unwrap();
    store.create_collection("col").unwrap();
    store
        .upsert(
            "col",
            &[rec("a", vec![1.0, 0.0, 0.0]), rec("b", vec![0.0, 1.0, 0.0])],
        )
        .unwrap();
    let huge = store
        .search(&["col"], &[1.0, 0.0, 0.0], &default_opts(usize::MAX / 2))
        .unwrap();
    let sane = store
        .search(&["col"], &[1.0, 0.0, 0.0], &default_opts(10))
        .unwrap();
    assert_eq!(huge, sane);
    assert_eq!(huge.len(), 2);
    assert_eq!(huge[0].id, "a");
}

#[test]
fn hybrid_search_is_unchanged_by_the_fusion_extraction() {
    let (store, vector, text) = golden_fixture();
    let ranked = |top_k, rrf_k, candidates| -> Vec<(String, u32)> {
        let opts = HybridOpts {
            top_k,
            rrf_k,
            candidates,
            ..Default::default()
        };
        store
            .hybrid_search(&["docs"], &vector, &text, &opts)
            .unwrap()
            .iter()
            .map(|h| (h.id.clone(), h.score.to_bits()))
            .collect()
    };
    let frozen = |pairs: &[(&str, u32)]| -> Vec<(String, u32)> {
        pairs
            .iter()
            .map(|(id, b)| ((*id).to_string(), *b))
            .collect()
    };
    assert_eq!(
        ranked(5, 60.0, 100),
        frozen(&[
            ("a", 1023751753),
            ("d", 1023476752),
            ("c", 1015434122),
            ("b", 1015292168),
            ("e", 1015154721),
        ])
    );
    assert_eq!(
        ranked(3, 5.0, 2),
        frozen(&[("a", 1050573288), ("c", 1042983595), ("b", 1041385765)])
    );
}

fn golden_fixture() -> (Store, Vec<f32>, FtsQuery) {
    let mut store = Store::in_memory(3).unwrap();
    store
        .set_fts_schema("docs", &[FtsField::new("body")])
        .unwrap();
    let mut a = Record::new("a", vec![1.0, 0.0, 0.0], BTreeMap::new());
    a.attrs.insert(
        "body".to_string(),
        Value::Str("quantum physics lecture notes".to_string()),
    );
    let mut b = Record::new("b", vec![0.9, 0.1, 0.0], BTreeMap::new());
    b.attrs.insert(
        "body".to_string(),
        Value::Str("unrelated cooking recipe".to_string()),
    );
    let c = doc("c", "quantum physics quantum entanglement");
    let mut d = Record::new("d", vec![0.0, 1.0, 0.0], BTreeMap::new());
    d.attrs.insert(
        "body".to_string(),
        Value::Str("the physics of cooking".to_string()),
    );
    let e = Record::new("e", vec![0.5, 0.5, 0.0], BTreeMap::new());
    store.upsert("docs", &[a, b, c, d, e]).unwrap();
    (
        store,
        vec![1.0, 0.0, 0.0],
        FtsQuery::new("body", "quantum physics"),
    )
}

fn ranked_store() -> Store {
    let mut store = Store::in_memory(3).unwrap();
    let recs: Vec<Record> = (0..10)
        .map(|i| rec(&format!("d{i}"), vec![1.0, i as f32 * 0.1, 0.0]))
        .collect();
    store.upsert("docs", &recs).unwrap();
    store
}

fn ids(hits: &[Hit]) -> Vec<String> {
    hits.iter().map(|h| h.id.clone()).collect()
}

fn page(top_k: usize, offset: usize) -> SearchOpts {
    SearchOpts {
        top_k,
        offset,
        ..Default::default()
    }
}

#[test]
fn search_pages_partition_the_ranking() {
    let store = ranked_store();
    let q = [1.0, 0.0, 0.0];
    let first = store.search(&["docs"], &q, &page(3, 0)).unwrap();
    let second = store.search(&["docs"], &q, &page(3, 3)).unwrap();
    let both = store.search(&["docs"], &q, &page(6, 0)).unwrap();
    assert_eq!(ids(&first).len(), 3);
    assert_eq!(ids(&second).len(), 3);
    let joined: Vec<String> = ids(&first).into_iter().chain(ids(&second)).collect();
    assert_eq!(joined, ids(&both));
    assert_eq!(joined, vec!["d0", "d1", "d2", "d3", "d4", "d5"]);
}

#[test]
fn search_offset_past_the_result_set_is_an_empty_page() {
    let store = ranked_store();
    let q = [1.0, 0.0, 0.0];
    assert!(
        store
            .search(&["docs"], &q, &page(5, 10))
            .unwrap()
            .is_empty()
    );
    assert!(
        store
            .search(&["docs"], &q, &page(5, 1_000))
            .unwrap()
            .is_empty()
    );
    assert_eq!(store.search(&["docs"], &q, &page(5, 9)).unwrap().len(), 1);
}

#[test]
fn search_with_the_default_offset_is_unchanged() {
    let store = ranked_store();
    let q = [1.0, 0.0, 0.0];
    let implicit = store.search(&["docs"], &q, &default_opts(4)).unwrap();
    let explicit = store.search(&["docs"], &q, &page(4, 0)).unwrap();
    assert_eq!(ids(&implicit), ids(&explicit));
    assert_eq!(ids(&implicit), vec!["d0", "d1", "d2", "d3"]);
}

#[test]
fn a_zero_top_k_page_is_empty_at_any_offset() {
    let store = ranked_store();
    let q = [1.0, 0.0, 0.0];
    assert!(store.search(&["docs"], &q, &page(0, 0)).unwrap().is_empty());
    assert!(store.search(&["docs"], &q, &page(0, 3)).unwrap().is_empty());
}

#[test]
fn tied_scores_paginate_without_repeating_or_dropping_a_doc() {
    let mut store = Store::in_memory(3).unwrap();
    let recs: Vec<Record> = ["e", "c", "a", "f", "b", "d"]
        .iter()
        .map(|id| rec(id, vec![1.0, 0.0, 0.0]))
        .collect();
    store.upsert("docs", &recs).unwrap();
    let q = [1.0, 0.0, 0.0];
    let mut walked: Vec<String> = Vec::new();
    for offset in [0, 2, 4] {
        walked.extend(ids(&store.search(&["docs"], &q, &page(2, offset)).unwrap()));
    }
    assert_eq!(walked, vec!["a", "b", "c", "d", "e", "f"]);
}

#[test]
fn tied_scores_are_stable_across_repeated_searches() {
    let mut store = Store::in_memory(3).unwrap();
    let recs: Vec<Record> = (0..12)
        .map(|i| rec(&format!("t{i:02}"), vec![1.0, 0.0, 0.0]))
        .collect();
    store.upsert("docs", &recs).unwrap();
    let q = [1.0, 0.0, 0.0];
    let first = ids(&store.search(&["docs"], &q, &page(4, 4)).unwrap());
    assert_eq!(first, vec!["t04", "t05", "t06", "t07"]);
    for _ in 0..20 {
        assert_eq!(
            ids(&store.search(&["docs"], &q, &page(4, 4)).unwrap()),
            first
        );
    }
}

#[test]
fn tied_scores_break_on_collection_before_id() {
    let mut store = Store::in_memory(3).unwrap();
    store
        .upsert("zeta", &[rec("a", vec![1.0, 0.0, 0.0])])
        .unwrap();
    store
        .upsert("alpha", &[rec("z", vec![1.0, 0.0, 0.0])])
        .unwrap();
    let hits = store
        .search(&["zeta", "alpha"], &[1.0, 0.0, 0.0], &page(2, 0))
        .unwrap();
    assert_eq!(hits[0].collection, "alpha");
    assert_eq!(hits[1].collection, "zeta");
}

#[test]
fn text_search_paginates() {
    let mut store = Store::in_memory(3).unwrap();
    store
        .set_fts_schema("docs", &[FtsField::new("body")])
        .unwrap();
    let recs: Vec<Record> = (0..6)
        .map(|i| doc(&format!("t{i}"), &"quantum ".repeat(6 - i)))
        .collect();
    store.upsert("docs", &recs).unwrap();
    let q = FtsQuery::new("body", "quantum");
    let first = store.text_search(&["docs"], &q, &page(2, 0)).unwrap();
    let second = store.text_search(&["docs"], &q, &page(2, 2)).unwrap();
    let both = store.text_search(&["docs"], &q, &page(4, 0)).unwrap();
    let joined: Vec<String> = ids(&first).into_iter().chain(ids(&second)).collect();
    assert_eq!(joined, ids(&both));
    assert!(
        store
            .text_search(&["docs"], &q, &page(2, 99))
            .unwrap()
            .is_empty()
    );
}

#[test]
fn hybrid_search_paginates_the_fused_ranking() {
    let (store, vector, text) = golden_fixture();
    let full = store
        .hybrid_search(
            &["docs"],
            &vector,
            &text,
            &HybridOpts {
                top_k: 4,
                ..Default::default()
            },
        )
        .unwrap();
    let second = store
        .hybrid_search(
            &["docs"],
            &vector,
            &text,
            &HybridOpts {
                top_k: 2,
                offset: 2,
                ..Default::default()
            },
        )
        .unwrap();
    assert_eq!(ids(&second), ids(&full)[2..4].to_vec());
    let past_the_end = store
        .hybrid_search(
            &["docs"],
            &vector,
            &text,
            &HybridOpts {
                top_k: 3,
                offset: 50,
                ..Default::default()
            },
        )
        .unwrap();
    assert!(past_the_end.is_empty());
}

#[test]
fn a_page_past_the_first_is_not_starved_by_the_top_k_cap() {
    let store = ranked_store();
    let hits = store
        .search(&["docs"], &[1.0, 0.0, 0.0], &page(2, 6))
        .unwrap();
    assert_eq!(ids(&hits), vec!["d6", "d7"]);
}

#[test]
fn exact_bypasses_the_ann_walk_and_matches_brute_force() {
    let (n, dim, k) = (2000, 32, 10);
    let data = random_unit_vectors(n, dim, 21);
    let queries = random_unit_vectors(20, dim, 22);
    let ann = ann_store(dim, AnnConfig::hnsw(), &data);
    let truth = exact_store(dim, &data);
    let forced = SearchOpts {
        top_k: k,
        exact: true,
        ..Default::default()
    };
    let mut approximate_ever_differed = false;
    for q in &queries {
        let want = truth.search(&["col"], q, &default_opts(k)).unwrap();
        assert_eq!(
            ann.search(&["col"], q, &forced).unwrap(),
            want,
            "exact: true must reproduce brute force"
        );
        approximate_ever_differed |= ann.search(&["col"], q, &default_opts(k)).unwrap() != want;
    }
    assert!(
        approximate_ever_differed,
        "the ANN path should differ somewhere, else this proves nothing"
    );
}

#[test]
fn exact_bypasses_the_quantized_first_pass() {
    let (dim, k) = (32, 10);
    let data = random_unit_vectors(120, dim, 23);
    let mut quantized = Store::in_memory_cfg(
        Config::new("/dev/null/in-memory", dim)
            .auto_compact(None)
            .quantization(Some(Quantization::binary().rescore(1))),
    )
    .unwrap();
    let recs: Vec<Record> = data
        .iter()
        .enumerate()
        .map(|(i, v)| rec(&format!("d{i}"), v.clone()))
        .collect();
    quantized.upsert("col", &recs).unwrap();
    let truth = exact_store(dim, &data);
    let q = &random_unit_vectors(1, dim, 24)[0];
    let want = truth.search(&["col"], q, &default_opts(k)).unwrap();
    let forced = SearchOpts {
        top_k: k,
        exact: true,
        ..Default::default()
    };
    assert_eq!(quantized.search(&["col"], q, &forced).unwrap(), want);
    assert_ne!(
        quantized.search(&["col"], q, &default_opts(k)).unwrap(),
        want,
        "rescore(1) binary should be lossy, else the bypass proves nothing"
    );
}

#[test]
fn exact_false_is_the_untouched_approximate_path() {
    let (n, dim, k) = (600, 16, 5);
    let data = random_unit_vectors(n, dim, 25);
    let ann = ann_store(dim, AnnConfig::hnsw(), &data);
    let q = &random_unit_vectors(1, dim, 26)[0];
    let spelled_out = SearchOpts {
        top_k: k,
        exact: false,
        ..Default::default()
    };
    assert_eq!(
        ann.search(&["col"], q, &default_opts(k)).unwrap(),
        ann.search(&["col"], q, &spelled_out).unwrap()
    );
}

fn projected_store() -> Store {
    let mut store = Store::in_memory(2).unwrap();
    let attrs = |id: &str| {
        BTreeMap::from([
            ("title".to_string(), Value::Str(format!("title of {id}"))),
            ("body".to_string(), Value::Str("x".repeat(4096))),
            ("lang".to_string(), Value::Str("rust".to_string())),
        ])
    };
    let recs: Vec<Record> = ["a", "b"]
        .iter()
        .enumerate()
        .map(|(i, id)| rec_with(id, vec![1.0, i as f32 * 0.1], attrs(id)))
        .collect();
    store.upsert("col", &recs).unwrap();
    store
}

fn attr_keys(hit: &Hit) -> Vec<&str> {
    hit.attrs.keys().map(String::as_str).collect()
}

#[test]
fn the_default_projection_returns_every_attr() {
    let store = projected_store();
    let hits = store
        .search(&["col"], &[1.0, 0.0], &default_opts(2))
        .unwrap();
    assert_eq!(attr_keys(&hits[0]), vec!["body", "lang", "title"]);
}

#[test]
fn include_returns_only_the_named_attrs() {
    let store = projected_store();
    let opts = SearchOpts {
        top_k: 2,
        projection: Projection::only(["title", "missing"]),
        ..Default::default()
    };
    let hits = store.search(&["col"], &[1.0, 0.0], &opts).unwrap();
    assert_eq!(hits.len(), 2);
    for hit in &hits {
        assert_eq!(attr_keys(hit), vec!["title"]);
    }
}

#[test]
fn exclude_removes_only_the_named_attrs() {
    let store = projected_store();
    let opts = SearchOpts {
        top_k: 2,
        projection: Projection::exclude(["body"]),
        ..Default::default()
    };
    let hits = store.search(&["col"], &[1.0, 0.0], &opts).unwrap();
    assert_eq!(attr_keys(&hits[0]), vec!["lang", "title"]);
}

#[test]
fn projection_leaves_the_ranking_alone() {
    let store = projected_store();
    let ranked = |projection: Projection| {
        let opts = SearchOpts {
            top_k: 2,
            projection,
            ..Default::default()
        };
        let hits = store.search(&["col"], &[1.0, 0.0], &opts).unwrap();
        hits.into_iter()
            .map(|h| (h.id, h.score))
            .collect::<Vec<_>>()
    };
    assert_eq!(
        ranked(Projection::All),
        ranked(Projection::only(["lang"]))
    );
    assert_eq!(
        ranked(Projection::All),
        ranked(Projection::exclude(["lang"]))
    );
}

#[test]
fn list_projects_attrs() {
    let store = projected_store();
    let listed = |projection: Projection| {
        store
            .list(
                &["col"],
                &ListOpts {
                    projection,
                    ..Default::default()
                },
            )
            .unwrap()
    };
    assert_eq!(
        attr_keys(&listed(Projection::All)[0]),
        vec!["body", "lang", "title"]
    );
    assert_eq!(
        attr_keys(&listed(Projection::only(["lang"]))[0]),
        vec!["lang"]
    );
    assert_eq!(
        attr_keys(&listed(Projection::exclude(["body", "lang"]))[0]),
        vec!["title"]
    );
}

#[test]
fn text_search_projects_attrs() {
    let mut store = projected_store();
    store
        .set_fts_schema("col", &[FtsField::new("title")])
        .unwrap();
    let opts = SearchOpts {
        top_k: 2,
        projection: Projection::only(["lang"]),
        ..Default::default()
    };
    let hits = store
        .text_search(&["col"], &FtsQuery::new("title", "title"), &opts)
        .unwrap();
    assert!(!hits.is_empty());
    assert_eq!(attr_keys(&hits[0]), vec!["lang"]);
}

#[test]
fn projection_applies_on_the_ann_and_quantized_paths() {
    let dim = 16;
    let data = random_unit_vectors(300, dim, 27);
    let attrs = BTreeMap::from([
        ("keep".to_string(), Value::Int(1)),
        ("drop".to_string(), Value::Str("x".repeat(1024))),
    ]);
    let build = |store: &mut Store| {
        let recs: Vec<Record> = data
            .iter()
            .enumerate()
            .map(|(i, v)| rec_with(&format!("d{i}"), v.clone(), attrs.clone()))
            .collect();
        store.upsert("col", &recs).unwrap();
    };
    let mut ann = Store::in_memory_cfg(
        Config::new("/dev/null/in-memory", dim)
            .auto_compact(None)
            .ann(Some(AnnConfig::hnsw())),
    )
    .unwrap();
    build(&mut ann);
    let mut quantized = Store::in_memory_cfg(
        Config::new("/dev/null/in-memory", dim)
            .auto_compact(None)
            .quantization(Some(Quantization::default())),
    )
    .unwrap();
    build(&mut quantized);
    let q = &random_unit_vectors(1, dim, 28)[0];
    let opts = SearchOpts {
        top_k: 5,
        projection: Projection::exclude(["drop"]),
        ..Default::default()
    };
    for store in [&ann, &quantized] {
        let hits = store.search(&["col"], q, &opts).unwrap();
        assert_eq!(hits.len(), 5);
        for hit in &hits {
            assert_eq!(attr_keys(hit), vec!["keep"]);
        }
    }
}

fn titled(id: &str, title: &str, body: &str) -> Record {
    let mut attrs = BTreeMap::new();
    attrs.insert("title".to_string(), Value::Str(title.to_string()));
    attrs.insert("body".to_string(), Value::Str(body.to_string()));
    Record::text_only(id, attrs)
}

fn two_field_store(docs: &[Record]) -> Store {
    let mut store = Store::in_memory(3).unwrap();
    store
        .set_fts_schema(
            "docs",
            &[FtsField::new("title").b(0.0), FtsField::new("body").b(0.0)],
        )
        .unwrap();
    store.upsert("docs", docs).unwrap();
    store
}

fn combine_fixture() -> Store {
    two_field_store(&[
        titled("spread", "needle", "needle"),
        titled("focused", "alpha", "needle needle needle needle"),
        titled("filler", "needle", "gamma"),
    ])
}

fn hit_ids(hits: &[Hit]) -> Vec<&str> {
    hits.iter().map(|h| h.id.as_str()).collect()
}

#[test]
fn a_clause_per_field_searches_both_at_once() {
    let store = two_field_store(&[
        titled("a", "rust vector store", "unrelated prose"),
        titled("b", "unrelated heading", "an embedded vector store"),
        titled("c", "nothing here", "nothing there"),
    ]);
    let q = FtsQuery::multi([
        FtsClause::new("title", "rust"),
        FtsClause::new("body", "embedded"),
    ]);
    let hits = store.text_search(&["docs"], &q, &default_opts(10)).unwrap();
    let mut found = hit_ids(&hits);
    found.sort_unstable();
    assert_eq!(found, vec!["a", "b"]);
}

#[test]
fn sum_and_max_rank_the_same_corpus_differently() {
    let store = combine_fixture();
    let q = || {
        FtsQuery::multi([
            FtsClause::new("title", "needle"),
            FtsClause::new("body", "needle"),
        ])
    };
    let sum = store
        .text_search(&["docs"], &q(), &default_opts(10))
        .unwrap();
    assert_eq!(hit_ids(&sum), vec!["spread", "focused", "filler"]);
    let max = store
        .text_search(&["docs"], &q().combine(FtsCombine::Max), &default_opts(10))
        .unwrap();
    assert_eq!(max[0].id, "focused");
    assert!(max[0].score < sum[0].score, "{max:?} vs {sum:?}");
}

#[test]
fn a_single_clause_scores_exactly_as_the_one_field_query_always_did() {
    let store = two_field_store(&[
        titled("d1", "t", "the cat sat on the mat"),
        titled("d2", "t", "cats and more cats running with cats"),
        titled("d3", "t", "a dog barked"),
    ]);
    let run = |q: FtsQuery| store.text_search(&["docs"], &q, &default_opts(10)).unwrap();
    let baseline = run(FtsQuery::new("body", "cat"));
    assert_eq!(hit_ids(&baseline), vec!["d2", "d1"]);
    for combine in [FtsCombine::Sum, FtsCombine::Max] {
        let hits = run(FtsQuery::multi([FtsClause::new("body", "cat")]).combine(combine));
        assert_eq!(hits, baseline, "{combine:?}");
    }
}

#[test]
fn a_clause_list_must_not_be_empty() {
    let store = combine_fixture();
    let empty = FtsQuery::multi([]);
    assert!(
        store
            .text_search(&["docs"], &empty, &default_opts(10))
            .is_err()
    );
    assert!(
        store
            .hybrid_search(&["docs"], &[0.0, 0.0, 0.0], &empty, &HybridOpts::default())
            .is_err()
    );
}

#[test]
fn a_clause_naming_an_unindexed_field_contributes_nothing() {
    let store = combine_fixture();
    let q = FtsQuery::multi([
        FtsClause::new("title", "needle"),
        FtsClause::new("author", "needle"),
    ]);
    let hits = store.text_search(&["docs"], &q, &default_opts(10)).unwrap();
    let mut found = hit_ids(&hits);
    found.sort_unstable();
    assert_eq!(found, vec!["filler", "spread"]);
}

#[test]
fn hybrid_fuses_a_vector_leg_with_several_text_clauses() {
    let mut store = Store::in_memory(3).unwrap();
    store
        .set_fts_schema("docs", &[FtsField::new("title"), FtsField::new("body")])
        .unwrap();
    let rec = |id: &str, v: Vec<f32>, title: &str, body: &str| {
        let mut r = titled(id, title, body);
        Record::new(id, v, std::mem::take(&mut r.attrs))
    };
    store
        .upsert(
            "docs",
            &[
                rec("vec", vec![1.0, 0.0, 0.0], "nothing", "nothing"),
                rec("title-hit", vec![0.0, 1.0, 0.0], "quantum", "nothing"),
                rec("body-hit", vec![0.0, 0.0, 1.0], "nothing", "photon physics"),
            ],
        )
        .unwrap();
    let q = FtsQuery::multi([
        FtsClause::new("title", "quantum"),
        FtsClause::new("body", "photon"),
    ]);
    let hits = store
        .hybrid_search(&["docs"], &[1.0, 0.0, 0.0], &q, &HybridOpts::default())
        .unwrap();
    let mut found = hit_ids(&hits);
    found.sort_unstable();
    assert_eq!(found, vec!["body-hit", "title-hit", "vec"]);
}

#[test]
fn explain_reports_each_matched_clauses_own_score() {
    let store = combine_fixture();
    let q = FtsQuery::multi([
        FtsClause::new("title", "needle"),
        FtsClause::new("body", "needle"),
    ]);
    let plain = store.text_search(&["docs"], &q, &default_opts(10)).unwrap();
    assert!(
        plain.iter().all(|h| h.annotations.is_none()),
        "annotations must stay opt-in"
    );
    let opts = SearchOpts {
        top_k: 10,
        explain: true,
        ..Default::default()
    };
    let hits = store.text_search(&["docs"], &q, &opts).unwrap();
    let by_id = |id: &str| {
        hits.iter()
            .find(|h| h.id == id)
            .unwrap()
            .annotations
            .clone()
            .unwrap()
    };
    let spread = by_id("spread");
    assert_eq!(
        spread
            .clauses
            .iter()
            .map(|c| c.field.as_str())
            .collect::<Vec<_>>(),
        vec!["title", "body"],
        "matched clauses are reported in query order"
    );
    let total: f32 = spread.clauses.iter().map(|c| c.score).sum();
    let hit_score = hits.iter().find(|h| h.id == "spread").unwrap().score;
    assert!((total - hit_score).abs() < 1e-6);
    assert_eq!(by_id("focused").clauses.len(), 1);
    assert_eq!(by_id("focused").clauses[0].field, "body");
}

#[test]
fn explain_reports_each_legs_rank_and_score_on_a_hybrid_hit() {
    let mut store = Store::in_memory(3).unwrap();
    store
        .set_fts_schema("docs", &[FtsField::new("body")])
        .unwrap();
    let mut attrs = BTreeMap::new();
    attrs.insert("body".to_string(), Value::Str("quantum physics".into()));
    store
        .upsert(
            "docs",
            &[
                Record::new("both", vec![1.0, 0.0, 0.0], attrs.clone()),
                Record::new("vec-only", vec![0.9, 0.1, 0.0], BTreeMap::new()),
            ],
        )
        .unwrap();
    let q = FtsQuery::new("body", "quantum");
    let opts = HybridOpts {
        explain: true,
        ..Default::default()
    };
    let hits = store
        .hybrid_search(&["docs"], &[1.0, 0.0, 0.0], &q, &opts)
        .unwrap();
    let both = hits.iter().find(|h| h.id == "both").unwrap();
    let a = both.annotations.clone().unwrap();
    let vector = a.vector.expect("vector leg reported");
    let text = a.text.expect("text leg reported");
    assert_eq!(vector.rank, 0);
    assert!((vector.score - 1.0).abs() < 1e-6, "{vector:?}");
    assert_eq!(text.rank, 0);
    assert_eq!(a.clauses.len(), 1);
    assert!((text.score - a.clauses[0].score).abs() < 1e-6);
    let vec_only = hits.iter().find(|h| h.id == "vec-only").unwrap();
    let a = vec_only.annotations.clone().unwrap();
    assert!(a.vector.is_some() && a.text.is_none() && a.clauses.is_empty());
    let plain = store
        .hybrid_search(&["docs"], &[1.0, 0.0, 0.0], &q, &HybridOpts::default())
        .unwrap();
    assert!(plain.iter().all(|h| h.annotations.is_none()));
}

#[test]
fn highlight_spans_index_the_original_text_across_the_stemmer() {
    let store = two_field_store(&[
        titled("a", "t", "The engineers were running experiments overnight"),
        titled("b", "t", "We run the suite nightly"),
    ]);
    for (query, want) in [("running", "run"), ("run", "running")] {
        let q = FtsQuery::new("body", query).highlight(HighlightOpts::default());
        let hits = store.text_search(&["docs"], &q, &default_opts(10)).unwrap();
        let hit = hits
            .iter()
            .find(|h| h.id == if want == "run" { "b" } else { "a" })
            .unwrap();
        let hl = &hit.annotations.as_ref().unwrap().highlights;
        assert_eq!(hl.len(), 1);
        assert_eq!(hl[0].field, "body");
        let frag = &hl[0].fragments[0];
        let marked: Vec<&str> = frag.spans.iter().map(|&(s, e)| &frag.text[s..e]).collect();
        assert_eq!(marked, vec![want], "query {query:?}");
    }
}

#[test]
fn highlighting_reads_the_stored_text_even_when_projection_drops_the_field() {
    let store = two_field_store(&[titled("a", "heading", "the engineers were running late")]);
    let q = FtsQuery::new("body", "run").highlight(HighlightOpts::default());
    let opts = SearchOpts {
        top_k: 10,
        projection: Projection::only(["title"]),
        ..Default::default()
    };
    let hits = store.text_search(&["docs"], &q, &opts).unwrap();
    assert_eq!(
        attr_keys(&hits[0]),
        vec!["title"],
        "body was projected away"
    );
    let hl = &hits[0].annotations.as_ref().unwrap().highlights;
    assert!(hl[0].fragments[0].text.contains("running"));
    let opts = SearchOpts {
        top_k: 10,
        projection: Projection::exclude(["body"]),
        ..Default::default()
    };
    let hits = store.text_search(&["docs"], &q, &opts).unwrap();
    assert_eq!(attr_keys(&hits[0]), vec!["title"]);
    assert!(!hits[0].annotations.as_ref().unwrap().highlights.is_empty());
}

#[test]
fn expansion_and_highlighting_coexist_over_a_projected_away_body() {
    let mut store = Store::in_memory(3).unwrap();
    store
        .set_fts_schema("docs", &[FtsField::new("body").b(0.0)])
        .unwrap();
    let chunk = |i: i64, start: i64, body: &str| {
        let mut attrs = BTreeMap::new();
        attrs.insert("body".to_string(), Value::Str(body.to_string()));
        attrs.insert(
            META_TEXT.to_string(),
            Value::Str(body.to_string()),
        );
        attrs.insert(
            META_PARENT_ID.to_string(),
            Value::Str("doc".to_string()),
        );
        attrs.insert(META_CHUNK_INDEX.to_string(), Value::Int(i));
        attrs.insert(META_CHAR_START.to_string(), Value::Int(start));
        Record::text_only(format!("doc#{i}"), attrs)
    };
    store
        .upsert(
            "docs",
            &[
                chunk(0, 0, "the engineers were"),
                chunk(1, 4, "engineers were running late"),
            ],
        )
        .unwrap();
    let q = FtsQuery::new("body", "run").highlight(HighlightOpts::default());
    let opts = SearchOpts {
        top_k: 10,
        projection: Projection::exclude(["body", META_TEXT]),
        expand: Some(Expand::new(1)),
        ..Default::default()
    };
    let hits = store.text_search(&["docs"], &q, &opts).unwrap();
    let hit = hits.iter().find(|h| h.id == "doc#1").expect("chunk 1 hit");
    assert!(!hit.attrs.contains_key("body"), "body was projected away");
    let hl = &hit.annotations.as_ref().unwrap().highlights;
    assert!(
        hl[0].fragments[0].text.contains("running"),
        "the fragment still comes from the stored text"
    );
    assert_eq!(
        hit.context.as_deref(),
        Some("the engineers were running late"),
        "and the window is still stitched from the stored chunks"
    );
}

#[test]
fn highlighting_covers_every_matched_clause_and_survives_fusion() {
    let mut store = Store::in_memory(3).unwrap();
    store
        .set_fts_schema("docs", &[FtsField::new("title"), FtsField::new("body")])
        .unwrap();
    let mut attrs = BTreeMap::new();
    attrs.insert("title".to_string(), Value::Str("running order".into()));
    attrs.insert(
        "body".to_string(),
        Value::Str("the tests all passed".into()),
    );
    store
        .upsert("docs", &[Record::new("a", vec![1.0, 0.0, 0.0], attrs)])
        .unwrap();
    let q = FtsQuery::multi([
        FtsClause::new("title", "run"),
        FtsClause::new("body", "test"),
    ])
    .highlight(HighlightOpts::default());
    let hits = store.text_search(&["docs"], &q, &default_opts(10)).unwrap();
    let fields: Vec<&str> = hits[0]
        .annotations
        .as_ref()
        .unwrap()
        .highlights
        .iter()
        .map(|h| h.field.as_str())
        .collect();
    assert_eq!(fields, vec!["title", "body"]);
    let hits = store
        .hybrid_search(&["docs"], &[1.0, 0.0, 0.0], &q, &HybridOpts::default())
        .unwrap();
    assert_eq!(hits[0].annotations.as_ref().unwrap().highlights.len(), 2);
}

const DAY: i64 = 86_400_000;

fn days_ago(origin: i64, n: i64) -> Value {
    Value::DateTime(origin - n * DAY)
}

fn stamped(id: &str, vector: Vec<f32>, ts: Value) -> Record {
    rec_with(id, vector, BTreeMap::from([("ts".to_string(), ts)]))
}

fn decay_store(origin: i64) -> Store {
    let mut store = Store::in_memory(3).unwrap();
    store
        .upsert(
            "docs",
            &[
                stamped("fresh", vec![1.0, 0.0, 0.0], days_ago(origin, 0)),
                stamped("week", vec![1.0, 0.0, 0.0], days_ago(origin, 7)),
                stamped("year", vec![1.0, 0.0, 0.0], days_ago(origin, 365)),
            ],
        )
        .unwrap();
    store
}

fn decayed(origin: i64, lambda: f32) -> SearchOpts {
    SearchOpts {
        top_k: 10,
        rank_by: Some(RankBy::Decay(
            Decay::new("ts", origin, 7 * DAY).lambda(lambda),
        )),
        ..Default::default()
    }
}

#[test]
fn decay_reorders_by_age_and_subtracts_lambda_times_one_minus_factor() {
    let origin = 2_000 * DAY;
    let store = decay_store(origin);
    let hits = store
        .search(&["docs"], &[1.0, 0.0, 0.0], &decayed(origin, 0.4))
        .unwrap();
    let ids: Vec<&str> = hits.iter().map(|h| h.id.as_str()).collect();
    assert_eq!(ids, vec!["fresh", "week", "year"], "newest first");
    assert!((hits[0].score - 1.0).abs() < 1e-5, "{}", hits[0].score);
    assert!(
        (hits[1].score - (1.0 - 0.4 * 0.5)).abs() < 1e-5,
        "{}",
        hits[1].score
    );
    let year_factor = 0.5f32.powf(365.0 / 7.0);
    assert!(
        (hits[2].score - (1.0 - 0.4 * (1.0 - year_factor))).abs() < 1e-5,
        "{}",
        hits[2].score
    );
}

#[test]
fn decay_off_by_default_leaves_the_ranking_and_the_scores_alone() {
    let origin = 2_000 * DAY;
    let store = decay_store(origin);
    let plain = store
        .search(&["docs"], &[1.0, 0.0, 0.0], &default_opts(10))
        .unwrap();
    assert_eq!(plain.len(), 3);
    for hit in &plain {
        assert!((hit.score - 1.0).abs() < 1e-6, "base score untouched");
    }
    let ids: Vec<&str> = plain.iter().map(|h| h.id.as_str()).collect();
    assert_eq!(ids, vec!["fresh", "week", "year"], "tie-break unchanged");
}

#[test]
fn a_record_with_no_timestamp_is_not_penalized() {
    let origin = 2_000 * DAY;
    let mut store = decay_store(origin);
    store
        .upsert("docs", &[rec("undated", vec![1.0, 0.0, 0.0])])
        .unwrap();
    let hits = store
        .search(&["docs"], &[1.0, 0.0, 0.0], &decayed(origin, 0.9))
        .unwrap();
    let undated = hits.iter().find(|h| h.id == "undated").unwrap();
    assert!((undated.score - 1.0).abs() < 1e-5, "{}", undated.score);
    let ids: Vec<&str> = hits.iter().map(|h| h.id.as_str()).collect();
    assert_eq!(ids[..2], ["fresh", "undated"], "{ids:?}");
}

#[test]
fn a_missing_timestamp_can_be_opted_into_a_penalty() {
    let origin = 2_000 * DAY;
    let mut store = decay_store(origin);
    store
        .upsert("docs", &[rec("undated", vec![1.0, 0.0, 0.0])])
        .unwrap();
    let opts = SearchOpts {
        top_k: 10,
        rank_by: Some(RankBy::Decay(
            Decay::new("ts", origin, 7 * DAY).lambda(0.5).missing(0.0),
        )),
        ..Default::default()
    };
    let hits = store.search(&["docs"], &[1.0, 0.0, 0.0], &opts).unwrap();
    let undated = hits.iter().find(|h| h.id == "undated").unwrap();
    assert!((undated.score - 0.5).abs() < 1e-5, "{}", undated.score);
}

#[test]
fn decay_works_under_euclidean_and_dot_product() {
    let origin = 2_000 * DAY;
    for distance in [Distance::Euclidean, Distance::DotProduct] {
        let mut store = Store::in_memory_with(3, distance).unwrap();
        store
            .upsert(
                "docs",
                &[
                    stamped("fresh", vec![2.0, 0.0, 0.0], days_ago(origin, 0)),
                    stamped("week", vec![2.0, 0.0, 0.0], days_ago(origin, 7)),
                ],
            )
            .unwrap();
        let base = store
            .search(&["docs"], &[2.0, 0.0, 0.0], &default_opts(10))
            .unwrap();
        assert!(
            (base[0].score - base[1].score).abs() < 1e-6,
            "{distance:?}: identical vectors must tie before decay"
        );
        let hits = store
            .search(&["docs"], &[2.0, 0.0, 0.0], &decayed(origin, 1.0))
            .unwrap();
        assert_eq!(hits[0].id, "fresh", "{distance:?}");
        assert!(
            (hits[1].score - (base[1].score - 0.5)).abs() < 1e-4,
            "{distance:?}: one half-life costs lambda/2, got {}",
            hits[1].score
        );
    }
}

#[test]
fn decay_applies_over_an_ann_result_set_without_forcing_exact() {
    let origin = 2_000 * DAY;
    let mut store = Store::in_memory_cfg(
        Config::new("/dev/null/in-memory", 3)
            .auto_compact(None)
            .ann(Some(AnnConfig::hnsw())),
    )
    .unwrap();
    store
        .upsert(
            "docs",
            &[
                stamped("fresh", vec![1.0, 0.0, 0.0], days_ago(origin, 0)),
                stamped("week", vec![1.0, 0.0, 0.0], days_ago(origin, 7)),
            ],
        )
        .unwrap();
    let hits = store
        .search(&["docs"], &[1.0, 0.0, 0.0], &decayed(origin, 0.4))
        .unwrap();
    assert_eq!(hits[0].id, "fresh");
    assert!((hits[1].score - (1.0 - 0.4 * 0.5)).abs() < 1e-5, "{hits:?}");
}

#[test]
fn decay_applies_over_the_quantized_two_pass_search() {
    let origin = 2_000 * DAY;
    let mut store = Store::in_memory_cfg(
        Config::new("/dev/null/in-memory", 3)
            .auto_compact(None)
            .quantization(Some(Quantization::default())),
    )
    .unwrap();
    store
        .upsert(
            "docs",
            &[
                stamped("fresh", vec![1.0, 0.0, 0.0], days_ago(origin, 0)),
                stamped("week", vec![1.0, 0.0, 0.0], days_ago(origin, 7)),
            ],
        )
        .unwrap();
    let hits = store
        .search(&["docs"], &[1.0, 0.0, 0.0], &decayed(origin, 0.4))
        .unwrap();
    assert_eq!(hits[0].id, "fresh");
    assert!((hits[1].score - (1.0 - 0.4 * 0.5)).abs() < 1e-5, "{hits:?}");
}

#[test]
fn min_score_gates_the_decayed_score_not_the_base_one() {
    let origin = 2_000 * DAY;
    let store = decay_store(origin);
    let opts = SearchOpts {
        min_score: Some(0.9),
        ..decayed(origin, 0.4)
    };
    let ids: Vec<String> = store
        .search(&["docs"], &[1.0, 0.0, 0.0], &opts)
        .unwrap()
        .into_iter()
        .map(|h| h.id)
        .collect();
    assert_eq!(ids, vec!["fresh"]);
}

#[test]
fn a_degenerate_ranking_expression_is_refused() {
    let store = decay_store(0);
    for bad in [
        Decay::new("ts", 0, 0),
        Decay::new("ts", 0, DAY).decay(1.0),
        Decay::new("ts", 0, DAY).lambda(f32::NAN),
        Decay::new("", 0, DAY),
    ] {
        let opts = SearchOpts {
            top_k: 3,
            rank_by: Some(RankBy::Decay(bad.clone())),
            ..Default::default()
        };
        assert!(
            store.search(&["docs"], &[1.0, 0.0, 0.0], &opts).is_err(),
            "{bad:?} must be refused"
        );
    }
}

fn ordered_store() -> Store {
    let mut store = Store::in_memory(2).unwrap();
    let with_n = |id: &str, n: i64| {
        rec_with(
            id,
            vec![1.0, 0.0],
            BTreeMap::from([("n".to_string(), Value::Int(n))]),
        )
    };
    store
        .upsert("docs", &[with_n("b", 2), with_n("c", 3), with_n("a", 1)])
        .unwrap();
    store
}

fn listed(store: &Store, order: Option<OrderBy>) -> Vec<String> {
    store
        .list(
            &["docs"],
            &ListOpts {
                order_by: order,
                ..Default::default()
            },
        )
        .unwrap()
        .into_iter()
        .map(|h| h.id)
        .collect()
}

#[test]
fn order_by_sorts_a_plain_attribute_both_ways() {
    let store = ordered_store();
    assert_eq!(listed(&store, Some(OrderBy::asc("n"))), ["a", "b", "c"]);
    assert_eq!(listed(&store, Some(OrderBy::desc("n"))), ["c", "b", "a"]);
    assert_eq!(listed(&store, None), ["b", "c", "a"]);
}

#[test]
fn order_by_sorts_strings_and_datetimes_too() {
    let mut store = Store::in_memory(2).unwrap();
    let with =
        |id: &str, v: Value| rec_with(id, vec![1.0, 0.0], BTreeMap::from([("k".to_string(), v)]));
    store
        .upsert(
            "docs",
            &[
                with("mid", Value::Str("m".into())),
                with("low", Value::Str("a".into())),
                with("high", Value::Str("z".into())),
                with("older", Value::DateTime(1)),
            ],
        )
        .unwrap();
    let asc = listed(&store, Some(OrderBy::asc("k")));
    assert_eq!(&asc[..3], ["low", "mid", "high"], "{asc:?}");
    assert_eq!(asc[3], "older", "a DateTime does not order against a Str");
}

#[test]
fn order_by_puts_cross_type_and_missing_values_in_a_trailing_bucket() {
    let mut store = ordered_store();
    store
        .upsert(
            "docs",
            &[
                rec_with(
                    "str",
                    vec![1.0, 0.0],
                    BTreeMap::from([("n".to_string(), Value::Str("zzz".into()))]),
                ),
                rec_with(
                    "null",
                    vec![1.0, 0.0],
                    BTreeMap::from([("n".to_string(), Value::Null)]),
                ),
                rec("absent", vec![1.0, 0.0]),
            ],
        )
        .unwrap();
    let trailing = ["str", "null", "absent"];
    let asc = listed(&store, Some(OrderBy::asc("n")));
    assert_eq!(&asc[..3], ["a", "b", "c"], "{asc:?}");
    for id in trailing {
        assert!(asc[3..].contains(&id.to_string()), "{asc:?}");
    }
    let desc = listed(&store, Some(OrderBy::desc("n")));
    assert_eq!(&desc[..3], ["c", "b", "a"], "{desc:?}");
    for id in trailing {
        assert!(
            desc[3..].contains(&id.to_string()),
            "reversing must not promote the trailing bucket: {desc:?}"
        );
    }
}

#[test]
fn order_by_an_attribute_nobody_has_keeps_the_storage_order() {
    let store = ordered_store();
    assert_eq!(listed(&store, Some(OrderBy::asc("nope"))), ["b", "c", "a"]);
}

#[test]
fn order_by_runs_before_the_page_is_cut() {
    let store = ordered_store();
    let page = store
        .list(
            &["docs"],
            &ListOpts {
                offset: 1,
                limit: 1,
                order_by: Some(OrderBy::asc("n")),
                ..Default::default()
            },
        )
        .unwrap();
    assert_eq!(page.len(), 1);
    assert_eq!(page[0].id, "b", "the second row of the SORTED set");
}

fn weighted_hybrid_store() -> Store {
    let mut store = Store::in_memory(3).unwrap();
    store
        .set_fts_schema("docs", &[FtsField::new("body")])
        .unwrap();
    let mut vecdoc = Record::new("vecdoc", vec![1.0, 0.0, 0.0], BTreeMap::new());
    vecdoc
        .attrs
        .insert("body".to_string(), Value::Str("nothing here".to_string()));
    store
        .upsert("docs", &[vecdoc, doc("textdoc", "quantum physics")])
        .unwrap();
    store
}

fn fused(store: &Store, opts: HybridOpts) -> Vec<Hit> {
    store
        .hybrid_search(
            &["docs"],
            &[1.0, 0.0, 0.0],
            &FtsQuery::new("body", "quantum physics"),
            &opts,
        )
        .unwrap()
}

fn weighted(vector_weight: f32, text_weight: f32) -> HybridOpts {
    HybridOpts {
        top_k: 10,
        vector_weight,
        text_weight,
        ..Default::default()
    }
}

#[test]
fn both_leg_weights_at_one_are_identical_to_the_unweighted_fusion() {
    let store = weighted_hybrid_store();
    let default = fused(
        &store,
        HybridOpts {
            top_k: 10,
            ..Default::default()
        },
    );
    assert_eq!(fused(&store, weighted(1.0, 1.0)), default);
}

#[test]
fn a_leg_weight_shifts_which_leg_wins_the_fusion() {
    let store = weighted_hybrid_store();
    assert_eq!(fused(&store, weighted(4.0, 1.0))[0].id, "vecdoc");
    assert_eq!(fused(&store, weighted(1.0, 4.0))[0].id, "textdoc");
    let heavy = fused(&store, weighted(4.0, 1.0));
    assert!(
        (heavy[0].score - 4.0 / 61.0).abs() < 1e-6,
        "{}",
        heavy[0].score
    );
}

#[test]
fn a_poisonous_leg_weight_is_refused() {
    let store = weighted_hybrid_store();
    for (v, t) in [(f32::NAN, 1.0), (1.0, -1.0), (f32::INFINITY, 1.0)] {
        assert!(
            store
                .hybrid_search(
                    &["docs"],
                    &[1.0, 0.0, 0.0],
                    &FtsQuery::new("body", "quantum"),
                    &weighted(v, t)
                )
                .is_err(),
            "({v}, {t}) must be refused"
        );
    }
}

fn agg_store() -> Store {
    let mut store = Store::in_memory(2).unwrap();
    let doc = |id: &str, kind: &str, bytes: Value| {
        rec_with(
            id,
            vec![1.0, 0.0],
            BTreeMap::from([
                ("kind".to_string(), Value::Str(kind.to_string())),
                ("bytes".to_string(), bytes),
            ]),
        )
    };
    store
        .upsert(
            "docs",
            &[
                doc("a", "note", Value::Int(10)),
                doc("b", "note", Value::Int(32)),
                doc("c", "code", Value::Int(5)),
                rec("d", vec![0.0, 1.0]),
            ],
        )
        .unwrap();
    store
}

fn agg(store: &Store, filter: Filter, sum: &[&str]) -> Aggregation {
    store.aggregate(
        &["docs"],
        &AggregateOpts {
            filter,
            sum: sum.iter().map(|s| s.to_string()).collect(),
            group_by: None,
        },
    )
}

fn agg_by(store: &Store, field: &str, sum: &[&str]) -> Aggregation {
    store.aggregate(
        &["docs"],
        &AggregateOpts {
            filter: Filter::default(),
            sum: sum.iter().map(|s| s.to_string()).collect(),
            group_by: Some(field.to_string()),
        },
    )
}

#[test]
fn group_by_reports_a_row_per_distinct_value_beside_the_totals() {
    let store = agg_store();
    let out = agg_by(&store, "kind", &["bytes"]);
    assert_eq!(out.count, 4, "the totals still cover every record");
    assert_eq!(out.sums["bytes"], Value::Int(47));
    let kinds: Vec<Option<&Value>> = out.groups.iter().map(|g| g.value.as_ref()).collect();
    assert_eq!(kinds[0], Some(&Value::Str("note".into())));
    assert_eq!(out.groups[0].count, 2);
    assert_eq!(out.groups[0].sums["bytes"], Value::Int(42));
    let regrouped: i64 = out
        .groups
        .iter()
        .map(|g| match g.sums["bytes"] {
            Value::Int(n) => n,
            ref other => panic!("expected Int, got {other:?}"),
        })
        .sum();
    assert_eq!(regrouped, 47);
    assert!(!out.groups_truncated);
}

#[test]
fn a_record_missing_the_group_attribute_forms_its_own_group() {
    let store = agg_store();
    let out = agg_by(&store, "kind", &["bytes"]);
    let missing = out
        .groups
        .iter()
        .find(|g| g.value.is_none())
        .expect("the attribute-less record must be represented");
    assert_eq!(missing.count, 1);
    assert_eq!(missing.sums["bytes"], Value::Int(0));
    let total: u64 = out.groups.iter().map(|g| g.count).sum();
    assert_eq!(total, out.count, "every record lands in exactly one group");
}

#[test]
fn grouping_on_an_unknown_attribute_yields_one_missing_group() {
    let store = agg_store();
    let out = agg_by(&store, "nope", &[]);
    assert_eq!(out.groups.len(), 1);
    assert_eq!(out.groups[0].value, None);
    assert_eq!(out.groups[0].count, 4);
}

#[test]
fn outrunning_the_group_cap_is_reported_not_hidden() {
    let mut store = Store::in_memory(2).unwrap();
    store.create_collection("docs").unwrap();
    let recs: Vec<Record> = (0..MAX_GROUPS + 1)
        .map(|i| {
            Record::new(
                format!("r{i}"),
                vec![1.0, 0.0],
                BTreeMap::from([("k".to_string(), Value::Int(i as i64))]),
            )
        })
        .collect();
    store.upsert("docs", &recs).unwrap();
    let out = store.aggregate(
        &["docs"],
        &AggregateOpts {
            filter: Filter::default(),
            sum: Vec::new(),
            group_by: Some("k".to_string()),
        },
    );
    assert!(out.groups_truncated, "the cap was hit and must be reported");
    assert_eq!(out.groups.len(), MAX_GROUPS);
    assert_eq!(out.count as usize, MAX_GROUPS + 1);
}

#[test]
fn group_order_is_stable_across_calls() {
    let store = agg_store();
    let a = agg_by(&store, "kind", &["bytes"]);
    let b = agg_by(&store, "kind", &["bytes"]);
    let values = |x: &Aggregation| -> Vec<Option<Value>> {
        x.groups.iter().map(|g| g.value.clone()).collect()
    };
    assert_eq!(values(&a), values(&b));
}

#[test]
fn count_and_sum_over_a_filter() {
    let store = agg_store();
    let all = agg(&store, Filter::default(), &["bytes"]);
    assert_eq!(all.count, 4);
    assert_eq!(all.sums["bytes"], Value::Int(47));
    let notes = agg(
        &store,
        Filter(vec![Predicate::Eq(
            "kind".into(),
            Value::Str("note".into()),
        )]),
        &["bytes"],
    );
    assert_eq!(notes.count, 2);
    assert_eq!(notes.sums["bytes"], Value::Int(42));
}

#[test]
fn an_empty_match_counts_zero_and_sums_zero() {
    let store = agg_store();
    let none = agg(
        &store,
        Filter(vec![Predicate::Eq(
            "kind".into(),
            Value::Str("nope".into()),
        )]),
        &["bytes"],
    );
    assert_eq!(none.count, 0);
    assert_eq!(none.sums["bytes"], Value::Int(0));
    let empty = Store::in_memory(2).unwrap();
    let out = empty.aggregate(&["missing"], &AggregateOpts::default());
    assert_eq!(out.count, 0);
    assert!(out.sums.is_empty());
}

#[test]
fn a_sum_reports_a_tagged_value_and_promotes_to_float() {
    let mut store = Store::in_memory(2).unwrap();
    let with =
        |id: &str, v: Value| rec_with(id, vec![1.0, 0.0], BTreeMap::from([("x".to_string(), v)]));
    store
        .upsert(
            "docs",
            &[
                with("i", Value::Int(2)),
                with("f", Value::Float(0.5)),
                with("s", Value::Str("nope".into())),
                rec("none", vec![1.0, 0.0]),
            ],
        )
        .unwrap();
    assert_eq!(
        agg(&store, Filter::default(), &["x"]).sums["x"],
        Value::Float(2.5)
    );
}

#[test]
fn aggregate_sums_several_fields_in_one_pass() {
    let store = agg_store();
    let out = agg(&store, Filter::default(), &["bytes", "kind"]);
    assert_eq!(out.sums["bytes"], Value::Int(47));
    assert_eq!(out.sums["kind"], Value::Int(0));
}

fn diverse_store() -> Store {
    let mut store = Store::in_memory(2).unwrap();
    let recs: Vec<Record> = (0..6)
        .map(|i| {
            let file = if i % 2 == 0 { "a.rs" } else { "b.rs" };
            let angle = 0.02 * i as f32;
            rec_with(
                &format!("d{i}"),
                vec![1.0 - angle, angle],
                BTreeMap::from([("file".to_string(), Value::Str(file.to_string()))]),
            )
        })
        .collect();
    store.upsert("docs", &recs).unwrap();
    store
}

fn capped(store: &Store, cap: Option<LimitPer>, top_k: usize) -> Vec<String> {
    store
        .search(
            &["docs"],
            &[1.0, 0.0],
            &SearchOpts {
                top_k,
                limit_per: cap,
                ..Default::default()
            },
        )
        .unwrap()
        .into_iter()
        .map(|h| h.id)
        .collect()
}

#[test]
fn limit_per_caps_the_hits_carrying_one_value() {
    let store = diverse_store();
    assert_eq!(capped(&store, None, 6).len(), 6);
    let ids = capped(&store, Some(LimitPer::new("file", 2)), 6);
    assert_eq!(ids, ["d0", "d1", "d2", "d3"], "{ids:?}");
    assert_eq!(capped(&store, Some(LimitPer::new("file", 1)), 6).len(), 2);
}

#[test]
fn records_missing_the_group_attribute_share_one_group() {
    let mut store = Store::in_memory(2).unwrap();
    let recs: Vec<Record> = (0..4)
        .map(|i| {
            rec(
                &format!("d{i}"),
                vec![1.0 - 0.02 * i as f32, 0.02 * i as f32],
            )
        })
        .collect();
    store.upsert("docs", &recs).unwrap();
    let ids = capped(&store, Some(LimitPer::new("file", 2)), 4);
    assert_eq!(ids, ["d0", "d1"], "all four share one group: {ids:?}");
}

#[test]
fn limit_per_reads_the_live_record_not_the_projected_hit() {
    let store = diverse_store();
    let ids: Vec<String> = store
        .search(
            &["docs"],
            &[1.0, 0.0],
            &SearchOpts {
                top_k: 6,
                limit_per: Some(LimitPer::new("file", 1)),
                projection: Projection::exclude(["file"]),
                ..Default::default()
            },
        )
        .unwrap()
        .into_iter()
        .map(|h| h.id)
        .collect();
    assert_eq!(
        ids,
        ["d0", "d1"],
        "excluding the attr must not lift the cap"
    );
}

#[test]
fn limit_per_composes_with_pagination() {
    let store = diverse_store();
    let page = store
        .search(
            &["docs"],
            &[1.0, 0.0],
            &SearchOpts {
                top_k: 2,
                offset: 2,
                limit_per: Some(LimitPer::new("file", 2)),
                ..Default::default()
            },
        )
        .unwrap();
    let ids: Vec<&str> = page.iter().map(|h| h.id.as_str()).collect();
    assert_eq!(ids, ["d2", "d3"], "the page is cut AFTER the cap");
}

#[test]
fn limit_per_caps_a_text_search_too() {
    let mut store = Store::in_memory(2).unwrap();
    store
        .set_fts_schema("docs", &[FtsField::new("body")])
        .unwrap();
    let docs: Vec<Record> = (0..4)
        .map(|i| {
            let mut r = doc(&format!("d{i}"), "quantum physics");
            r.attrs
                .insert("file".to_string(), Value::Str("a.rs".to_string()));
            r
        })
        .collect();
    store.upsert("docs", &docs).unwrap();
    let hits = store
        .text_search(
            &["docs"],
            &FtsQuery::new("body", "quantum"),
            &SearchOpts {
                top_k: 4,
                limit_per: Some(LimitPer::new("file", 2)),
                ..Default::default()
            },
        )
        .unwrap();
    assert_eq!(hits.len(), 2);
}

#[test]
fn a_degenerate_cap_is_refused() {
    let store = diverse_store();
    for bad in [LimitPer::new("file", 0), LimitPer::new("", 2)] {
        let opts = SearchOpts {
            top_k: 3,
            limit_per: Some(bad.clone()),
            ..Default::default()
        };
        assert!(
            store.search(&["docs"], &[1.0, 0.0], &opts).is_err(),
            "{bad:?} must be refused"
        );
    }
}

fn texted(id: &str, vector: Vec<f32>, text: &str) -> Record {
    rec_with(
        id,
        vector,
        BTreeMap::from([("nidus.text".to_string(), Value::Str(text.to_string()))]),
    )
}

fn rerank_opts(top_k: usize) -> SearchOpts {
    SearchOpts {
        top_k,
        rerank: Some(RerankOpts::default()),
        ..Default::default()
    }
}

fn reranked(store: &Store, hits: Vec<Hit>, opts: &SearchOpts) -> Vec<Hit> {
    let text_attr = opts
        .rerank
        .as_ref()
        .expect("opts.rerank must be set")
        .text_attr
        .clone();
    let (texts, passthrough) = candidate_texts(&hits, &text_attr);
    let candidate_idx: Vec<usize> = (0..hits.len())
        .filter(|i| !passthrough.contains(i))
        .collect();
    let scored: Vec<(usize, f32)> = candidate_idx
        .into_iter()
        .zip(texts.iter().map(|t| t.len() as f32))
        .collect();
    store.finish(
        apply_scores(hits, &scored, passthrough),
        opts,
    )
}

fn reranked_hybrid(store: &Store, hits: Vec<Hit>, opts: &HybridOpts) -> Vec<Hit> {
    let text_attr = opts
        .rerank
        .as_ref()
        .expect("opts.rerank must be set")
        .text_attr
        .clone();
    let (texts, passthrough) = candidate_texts(&hits, &text_attr);
    let candidate_idx: Vec<usize> = (0..hits.len())
        .filter(|i| !passthrough.contains(i))
        .collect();
    let scored: Vec<(usize, f32)> = candidate_idx
        .into_iter()
        .zip(texts.iter().map(|t| t.len() as f32))
        .collect();
    store.finish_hybrid(
        apply_scores(hits, &scored, passthrough),
        opts,
    )
}

fn cosine_docs() -> Store {
    let mut store = Store::in_memory(2).unwrap();
    store
        .upsert(
            "docs",
            &[
                texted("d0", vec![1.0, 0.0], "a"),
                texted("d1", vec![0.99, 0.02], "bb"),
                texted("d2", vec![0.9, 0.2], "ccc"),
            ],
        )
        .unwrap();
    store
}

#[test]
fn rerank_reorders_by_provider_score() {
    let store = cosine_docs();
    let opts = rerank_opts(3);
    let hits = store.search(&["docs"], &[1.0, 0.0], &opts).unwrap();
    assert_eq!(
        hits.iter().map(|h| h.id.as_str()).collect::<Vec<_>>(),
        vec!["d0", "d1", "d2"],
        "metric order, before reranking"
    );
    let out = reranked(&store, hits, &opts);
    assert_eq!(
        out.iter().map(|h| h.id.as_str()).collect::<Vec<_>>(),
        vec!["d2", "d1", "d0"],
        "the metric-worst candidate (longest text) now ranks first"
    );
}

#[test]
fn rerank_widens_the_candidate_window() {
    let mut store = Store::in_memory(2).unwrap();
    let texts = ["a", "aa", "aaa", "aaaa", "aaaaa"];
    let recs: Vec<Record> = (0..5)
        .map(|i| {
            let angle = 0.05 * i as f32;
            texted(&format!("d{i}"), vec![1.0 - angle, angle], texts[i])
        })
        .collect();
    store.upsert("docs", &recs).unwrap();
    let plain_hits = store
        .search(&["docs"], &[1.0, 0.0], &default_opts(2))
        .unwrap();
    assert_eq!(
        plain_hits.iter().map(|h| h.id.as_str()).collect::<Vec<_>>(),
        vec!["d0", "d1"],
        "without widening only the metric-best two are seen"
    );
    let opts = SearchOpts {
        top_k: 2,
        rerank: Some(RerankOpts {
            overscan: 5,
            text_attr: "nidus.text".to_string(),
        }),
        ..Default::default()
    };
    let widened = store
        .search(
            &["docs"],
            &[1.0, 0.0],
            &SearchOpts {
                top_k: rerank_depth(&opts),
                ..opts.clone()
            },
        )
        .unwrap();
    assert_eq!(widened.len(), 5, "the window now covers the whole corpus");
    let out = reranked(&store, widened, &opts);
    assert_eq!(out.len(), 2, "top_k still caps the final page");
    assert_eq!(
        out[0].id, "d4",
        "metric-worst (longest text) now finishes first, having been outside the plain page"
    );
}

#[test]
fn a_record_with_no_text_attr_is_passed_through_unranked() {
    let mut null_attrs = BTreeMap::new();
    null_attrs.insert("nidus.text".to_string(), Value::Null);
    let mut int_attrs = BTreeMap::new();
    int_attrs.insert("nidus.text".to_string(), Value::Int(3));
    let mut store = Store::in_memory(2).unwrap();
    store
        .upsert(
            "docs",
            &[
                texted("has_text", vec![0.9, 0.1], "hello"),
                rec("absent", vec![0.8, 0.2]),
                rec_with("nullish", vec![0.7, 0.3], null_attrs),
                rec_with("nonstr", vec![0.6, 0.4], int_attrs),
                texted("empty", vec![1.0, 0.0], ""),
            ],
        )
        .unwrap();
    let opts = rerank_opts(5);
    let hits = store.search(&["docs"], &[1.0, 0.0], &opts).unwrap();
    let metric_order: Vec<String> = hits.iter().map(|h| h.id.clone()).collect();
    let out = reranked(&store, hits.clone(), &opts);
    assert_eq!(
        out[0].id, "has_text",
        "the only candidate with usable text ranks first"
    );
    let passthrough_ids: Vec<&str> = out[1..].iter().map(|h| h.id.as_str()).collect();
    let expected: Vec<&str> = metric_order
        .iter()
        .filter(|id| id.as_str() != "has_text")
        .map(String::as_str)
        .collect();
    assert_eq!(
        passthrough_ids, expected,
        "absent/Null/non-Str/empty-string all pass through in original metric order"
    );
    for h in &out[1..] {
        let original = hits.iter().find(|o| o.id == h.id).unwrap();
        assert_eq!(
            h.score, original.score,
            "passthrough score untouched: {}",
            h.id
        );
    }
}

#[test]
fn rerank_applies_over_an_ann_result_set() {
    let mut store = Store::in_memory_cfg(
        Config::new("/dev/null/in-memory", 2)
            .auto_compact(None)
            .ann(Some(AnnConfig::hnsw())),
    )
    .unwrap();
    store
        .upsert(
            "docs",
            &[
                texted("d0", vec![1.0, 0.0], "a"),
                texted("d1", vec![0.9, 0.1], "bb"),
            ],
        )
        .unwrap();
    let opts = rerank_opts(2);
    let hits = store.search(&["docs"], &[1.0, 0.0], &opts).unwrap();
    assert_eq!(hits[0].id, "d0", "ANN still returns the metric-best first");
    let out = reranked(&store, hits, &opts);
    assert_eq!(
        out[0].id, "d1",
        "reranking still applies over the ANN result set, without forcing exact"
    );
}

#[test]
fn rerank_preserves_the_collection_id_tie_break() {
    let mut store = Store::in_memory(2).unwrap();
    store
        .upsert(
            "docs",
            &[
                texted("z", vec![1.0, 0.0], "aa"),
                texted("a", vec![0.99, 0.02], "bb"),
            ],
        )
        .unwrap();
    let opts = rerank_opts(2);
    let hits = store.search(&["docs"], &[1.0, 0.0], &opts).unwrap();
    let out = reranked(&store, hits, &opts);
    assert_eq!(out[0].score, out[1].score, "equal-length texts tie exactly");
    assert_eq!(
        out.iter().map(|h| h.id.as_str()).collect::<Vec<_>>(),
        vec!["a", "z"],
        "ties break on (collection, id) ascending, same as the metric path"
    );
}

#[test]
fn limit_per_survives_a_rerank() {
    let mut store = Store::in_memory(2).unwrap();
    let mk = |id: &str, angle: f32, file: &str, text: &str| {
        rec_with(
            id,
            vec![1.0 - angle, angle],
            BTreeMap::from([
                ("file".to_string(), Value::Str(file.to_string())),
                ("nidus.text".to_string(), Value::Str(text.to_string())),
            ]),
        )
    };
    store
        .upsert(
            "docs",
            &[
                mk("a1", 0.01, "a.rs", "a"),
                mk("a2", 0.05, "a.rs", "aaaa"),
                mk("b1", 0.02, "b.rs", "bb"),
                mk("b2", 0.06, "b.rs", "bbb"),
            ],
        )
        .unwrap();
    let opts = SearchOpts {
        top_k: 4,
        limit_per: Some(LimitPer::new("file", 1)),
        rerank: Some(RerankOpts::default()),
        ..Default::default()
    };
    let plain = store.search(&["docs"], &[1.0, 0.0], &opts).unwrap();
    assert_eq!(
        plain.iter().map(|h| h.id.as_str()).collect::<Vec<_>>(),
        vec!["a1", "b1"],
        "the plain metric cap, for contrast"
    );
    let widened = store
        .search(
            &["docs"],
            &[1.0, 0.0],
            &SearchOpts {
                top_k: rerank_depth(&opts),
                limit_per: None,
                ..opts.clone()
            },
        )
        .unwrap();
    let out = reranked(&store, widened, &opts);
    assert_eq!(
        out.iter().map(|h| h.id.as_str()).collect::<Vec<_>>(),
        vec!["a2", "b2"],
        "limit_per re-applied AFTER rerank keeps the reranked winner per group"
    );
}

#[test]
fn min_score_applies_before_rerank() {
    let store = cosine_docs();
    let opts = SearchOpts {
        top_k: 3,
        min_score: Some(0.98),
        rerank: Some(RerankOpts::default()),
        ..Default::default()
    };
    let hits = store.search(&["docs"], &[1.0, 0.0], &opts).unwrap();
    assert!(
        hits.iter().all(|h| h.id != "d2"),
        "d2's cosine score is below min_score, so it never enters the rerank window: {hits:?}"
    );
    let out = reranked(&store, hits, &opts);
    assert!(
        out.iter().all(|h| h.id != "d2"),
        "reranking cannot resurrect a hit min_score already excluded"
    );
}

#[test]
fn rerank_of_a_hybrid_ranking() {
    let mut store = Store::in_memory(2).unwrap();
    store
        .set_fts_schema("docs", &[FtsField::new("body")])
        .unwrap();
    let mk = |id: &str, vector: Vec<f32>, body: &str, text: &str| {
        rec_with(
            id,
            vector,
            BTreeMap::from([
                ("body".to_string(), Value::Str(body.to_string())),
                ("nidus.text".to_string(), Value::Str(text.to_string())),
            ]),
        )
    };
    store
        .upsert(
            "docs",
            &[
                mk("d0", vec![1.0, 0.0], "quantum physics", "a"),
                mk("d1", vec![0.9, 0.1], "quantum physics", "aaaa"),
            ],
        )
        .unwrap();
    let opts = HybridOpts {
        top_k: 2,
        rerank: Some(RerankOpts::default()),
        ..Default::default()
    };
    let fused = store
        .hybrid_search(
            &["docs"],
            &[1.0, 0.0],
            &FtsQuery::new("body", "quantum"),
            &opts,
        )
        .unwrap();
    assert_eq!(fused[0].id, "d0", "d0 wins the plain fused ranking");
    let out = reranked_hybrid(&store, fused, &opts);
    assert_eq!(
        out[0].id, "d1",
        "reranking still applies over a fused RRF result set"
    );
}

#[test]
fn a_nan_rerank_score_does_not_poison_the_order() {
    let store = cosine_docs();
    let opts = rerank_opts(3);
    let hits = store.search(&["docs"], &[1.0, 0.0], &opts).unwrap();
    let scored = vec![(0, f32::NAN), (1, 2.0), (2, 1.0)];
    let out = apply_scores(hits, &scored, vec![]);
    let out = store.finish(out, &opts);
    assert_eq!(
        out.iter().map(|h| h.id.as_str()).collect::<Vec<_>>(),
        vec!["d1", "d2", "d0"],
        "a NaN score sorts last, never displacing a real result"
    );
}

#[test]
fn refresh_retracts_a_cleared_profile_knob() {
    let dir = tempdir();
    let path = dir.path().to_path_buf();
    let mut writer = Store::open(Config::new(&path, 3)).unwrap();
    writer
        .set_open_profile(&OpenProfile {
            ann: Some(AnnConfig::hnsw()),
            ..Default::default()
        })
        .unwrap();
    let mut reader = Store::open(Config::new(&path, 3).open_mode(OpenMode::ReadOnly)).unwrap();
    assert_eq!(
        reader.config().ann,
        Some(AnnConfig::hnsw()),
        "reader should adopt the recorded profile at open"
    );
    writer.clear_open_profile().unwrap();
    reader.refresh().unwrap();
    assert_eq!(
        reader.config().ann,
        None,
        "a live reader must drop an ann default the writer cleared"
    );
}

#[test]
fn set_open_profile_rejects_a_combination_that_could_never_open() {
    let dir = tempdir();
    let path = dir.path().to_path_buf();
    let mut store = Store::open(Config::new(&path, 3).distance(Distance::Euclidean)).unwrap();
    let err = store
        .set_open_profile(&OpenProfile {
            quantization: Some(Quantization::binary()),
            ..Default::default()
        })
        .expect_err("binary quantization on a Euclidean store must be refused");
    assert!(
        err.to_string().contains("binary quantization requires"),
        "{err}"
    );
    drop(store);
    Store::open(Config::new(&path, 3).distance(Distance::Euclidean))
        .expect("the store must still open: nothing unbuildable was persisted");
}

#[test]
fn segment_report_field_shape() {
    let report = SegmentReport {
        segment: "data".to_string(),
        integrity: SegmentIntegrity::NoChecksum { rows_total: 0 },
    };
    assert_eq!(report.segment, "data");
    assert!(matches!(
        report.integrity,
        SegmentIntegrity::NoChecksum { rows_total: 0 }
    ));
}

fn crowded_store() -> Store {
    let mut store = Store::in_memory(3).unwrap();
    let recs = vec![
        rec_with(
            "dup0",
            vec![1.0, 0.02, 0.0],
            BTreeMap::from([("file".to_string(), Value::Str("a.rs".into()))]),
        ),
        rec_with(
            "dup1",
            vec![1.0, 0.03, 0.0],
            BTreeMap::from([("file".to_string(), Value::Str("a.rs".into()))]),
        ),
        rec_with(
            "dup2",
            vec![1.0, 0.04, 0.0],
            BTreeMap::from([("file".to_string(), Value::Str("a.rs".into()))]),
        ),
        rec_with(
            "novel",
            vec![0.6, 0.8, 0.0],
            BTreeMap::from([("file".to_string(), Value::Str("b.rs".into()))]),
        ),
    ];
    store.upsert("docs", &recs).unwrap();
    store
}

fn spread(store: &Store, lambda: Option<f32>, top_k: usize) -> Vec<String> {
    store
        .search(
            &["docs"],
            &[1.0, 0.0, 0.0],
            &SearchOpts {
                top_k,
                diversity: lambda,
                ..Default::default()
            },
        )
        .unwrap()
        .into_iter()
        .map(|h| h.id)
        .collect()
}

#[test]
fn diversity_changes_the_returned_set_on_a_near_duplicate_corpus() {
    let store = crowded_store();
    assert_eq!(spread(&store, None, 2), ["dup0", "dup1"]);
    assert_eq!(spread(&store, Some(0.3), 2), ["dup0", "novel"]);
}

#[test]
fn diversity_unset_is_a_no_op() {
    let store = crowded_store();
    let plain = store
        .search(&["docs"], &[1.0, 0.0, 0.0], &default_opts(4))
        .unwrap();
    let explicit = store
        .search(
            &["docs"],
            &[1.0, 0.0, 0.0],
            &SearchOpts {
                top_k: 4,
                diversity: None,
                ..Default::default()
            },
        )
        .unwrap();
    let ids: Vec<&str> = plain.iter().map(|h| h.id.as_str()).collect();
    assert_eq!(ids, ["dup0", "dup1", "dup2", "novel"]);
    assert_eq!(plain, explicit);
}

#[test]
fn diversity_only_over_fetches_when_it_is_set() {
    let plain = SearchOpts {
        top_k: 10,
        ..Default::default()
    };
    assert_eq!(depth(&plain), 10);
    let spread = SearchOpts {
        diversity: Some(0.5),
        ..plain.clone()
    };
    assert_eq!(depth(&spread), 10 * MMR_OVERFETCH);
    let both = SearchOpts {
        limit_per: Some(LimitPer::new("file", 1)),
        ..spread
    };
    assert_eq!(
        depth(&both),
        10 * LIMIT_PER_OVERFETCH
    );
}

#[test]
fn lambda_one_leaves_the_metric_ranking_alone() {
    let store = crowded_store();
    assert_eq!(spread(&store, Some(1.0), 4), spread(&store, None, 4));
}

#[test]
fn diversity_never_displaces_the_top_hit() {
    let store = crowded_store();
    for lambda in [0.0, 0.25, 0.5, 0.75, 1.0] {
        assert_eq!(
            spread(&store, Some(lambda), 4)[0],
            "dup0",
            "lambda {lambda}"
        );
    }
}

#[test]
fn identical_vectors_keep_the_deterministic_total_order() {
    let mut store = Store::in_memory(2).unwrap();
    let recs: Vec<Record> = ["c", "a", "b", "d"]
        .iter()
        .map(|id| rec(id, vec![1.0, 0.0]))
        .collect();
    store.upsert("docs", &recs).unwrap();
    let ids = spread_q(&store, &[1.0, 0.0], Some(0.3), 4);
    assert_eq!(ids, ["a", "b", "c", "d"], "{ids:?}");
    assert_eq!(spread_q(&store, &[1.0, 0.0], Some(0.3), 4), ids);
}

#[test]
fn diversity_composes_with_pagination() {
    let store = crowded_store();
    let page0 = store
        .search(
            &["docs"],
            &[1.0, 0.0, 0.0],
            &SearchOpts {
                top_k: 1,
                diversity: Some(0.3),
                ..Default::default()
            },
        )
        .unwrap();
    let page1 = store
        .search(
            &["docs"],
            &[1.0, 0.0, 0.0],
            &SearchOpts {
                top_k: 1,
                offset: 1,
                diversity: Some(0.3),
                ..Default::default()
            },
        )
        .unwrap();
    assert_eq!(page0[0].id, "dup0");
    assert_eq!(page1[0].id, "novel");
}

#[test]
fn diversity_composes_with_limit_per() {
    let store = crowded_store();
    let ids: Vec<String> = store
        .search(
            &["docs"],
            &[1.0, 0.0, 0.0],
            &SearchOpts {
                top_k: 4,
                limit_per: Some(LimitPer::new("file", 2)),
                diversity: Some(0.3),
                ..Default::default()
            },
        )
        .unwrap()
        .into_iter()
        .map(|h| h.id)
        .collect();
    assert_eq!(ids, ["dup0", "novel", "dup1"], "{ids:?}");
}

#[test]
fn diversity_composes_with_rank_by() {
    const DAY: i64 = 86_400_000;
    let origin = 2_000 * DAY;
    let mut store = crowded_store();
    store
        .upsert(
            "docs",
            &[rec_with(
                "dup1",
                vec![1.0, 0.03, 0.0],
                BTreeMap::from([
                    ("file".to_string(), Value::Str("a.rs".into())),
                    ("ts".to_string(), Value::Int(origin)),
                ]),
            )],
        )
        .unwrap();
    let opts = SearchOpts {
        top_k: 2,
        rank_by: Some(RankBy::Decay(
            Decay::new("ts", origin, 7 * DAY).lambda(0.5).missing(0.0),
        )),
        diversity: Some(0.1),
        ..Default::default()
    };
    let ids: Vec<String> = store
        .search(&["docs"], &[1.0, 0.0, 0.0], &opts)
        .unwrap()
        .into_iter()
        .map(|h| h.id)
        .collect();
    assert_eq!(ids, ["dup1", "novel"], "{ids:?}");
    assert_eq!(spread(&store, Some(0.1), 2), ["dup0", "novel"]);
}

#[test]
fn diversity_measures_cosine_on_an_unnormalized_store() {
    let mut store = Store::in_memory_with(2, Distance::DotProduct).unwrap();
    store
        .upsert(
            "docs",
            &[
                rec("big", vec![9.0, 0.0]),
                rec("small", vec![1.0, 0.0]),
                rec("side", vec![0.0, 2.0]),
            ],
        )
        .unwrap();
    let ids = spread_q(&store, &[1.0, 0.0], Some(0.0), 2);
    assert_eq!(ids, ["big", "side"], "{ids:?}");
}

fn spread_q(store: &Store, q: &[f32], lambda: Option<f32>, top_k: usize) -> Vec<String> {
    store
        .search(
            &["docs"],
            q,
            &SearchOpts {
                top_k,
                diversity: lambda,
                ..Default::default()
            },
        )
        .unwrap()
        .into_iter()
        .map(|h| h.id)
        .collect()
}

#[test]
fn a_bad_lambda_is_a_caller_fault() {
    let store = crowded_store();
    for bad in [f32::NAN, -0.1, 1.1, f32::INFINITY] {
        let err = store
            .search(
                &["docs"],
                &[1.0, 0.0, 0.0],
                &SearchOpts {
                    top_k: 2,
                    diversity: Some(bad),
                    ..Default::default()
                },
            )
            .unwrap_err();
        let msg = format!("{err:#}");
        assert!(msg.contains(BAD_QUERY), "{bad}: {msg}");
        assert!(msg.contains("diversity"), "{bad}: {msg}");
    }
}

#[test]
fn beyond_the_window_bound_the_tail_keeps_score_order() {
    let n = MAX_DIVERSITY_WINDOW + 8;
    let mut store = Store::in_memory(2).unwrap();
    let recs: Vec<Record> = (0..n)
        .map(|i| {
            let angle = i as f32 * 1e-4;
            rec(&format!("d{i:05}"), vec![1.0, angle])
        })
        .collect();
    store.upsert("docs", &recs).unwrap();
    let hits = store
        .search(
            &["docs"],
            &[1.0, 0.0],
            &SearchOpts {
                top_k: n,
                diversity: Some(0.5),
                ..Default::default()
            },
        )
        .unwrap();
    assert_eq!(hits.len(), n);
    let tail: Vec<&str> = hits[MAX_DIVERSITY_WINDOW..]
        .iter()
        .map(|h| h.id.as_str())
        .collect();
    let mut sorted = tail.clone();
    sorted.sort_unstable();
    assert_eq!(
        tail, sorted,
        "the tail past the window must stay score-ordered"
    );
}

#[test]
fn diversity_spreads_the_ann_and_quantized_rankings() {
    let crowd = [
        vec![1.0, 0.02, 0.0],
        vec![1.0, 0.03, 0.0],
        vec![1.0, 0.04, 0.0],
        vec![0.6, 0.8, 0.0],
    ];
    let configs: Vec<(&str, Store)> = vec![
        ("hnsw", ann_store(3, AnnConfig::hnsw(), &crowd)),
        ("ivf", ann_store(3, AnnConfig::ivf(), &crowd)),
        ("int8", crowded_quant_store(Quantization::default())),
        ("binary", crowded_quant_store(Quantization::binary())),
    ];
    for (name, store) in configs {
        let plain = spread_col(&store, None, 2);
        let mmr = spread_col(&store, Some(0.3), 2);
        assert_eq!(plain[0], mmr[0], "{name}: rank 1 must survive");
        assert_ne!(plain, mmr, "{name}: MMR changed nothing");
        assert!(
            mmr[1].contains('3'),
            "{name}: expected the outlier, got {mmr:?}"
        );
    }
}

fn crowded_quant_store(q: Quantization) -> Store {
    let mut store = Store::in_memory_cfg(
        Config::new("/dev/null/in-memory", 3)
            .open_mode(OpenMode::ReadWrite)
            .auto_compact(None)
            .quantization(Some(q)),
    )
    .unwrap();
    let recs: Vec<Record> = [
        vec![1.0, 0.02, 0.0],
        vec![1.0, 0.03, 0.0],
        vec![1.0, 0.04, 0.0],
        vec![0.6, 0.8, 0.0],
    ]
    .iter()
    .enumerate()
    .map(|(i, v)| rec(&format!("d{i}"), v.clone()))
    .collect();
    store.upsert("col", &recs).unwrap();
    store
}

fn spread_col(store: &Store, lambda: Option<f32>, top_k: usize) -> Vec<String> {
    store
        .search(
            &["col"],
            &[1.0, 0.0, 0.0],
            &SearchOpts {
                top_k,
                diversity: lambda,
                ..Default::default()
            },
        )
        .unwrap()
        .into_iter()
        .map(|h| h.id)
        .collect()
}

#[test]
fn diversity_handles_a_text_only_hit() {
    let mut store = Store::in_memory(2).unwrap();
    store
        .set_fts_schema("docs", &[FtsField::new("body")])
        .unwrap();
    let body = |t: &str| BTreeMap::from([("body".to_string(), Value::Str(t.to_string()))]);
    store
        .upsert(
            "docs",
            &[
                rec_with("vec0", vec![1.0, 0.0], body("alpha alpha alpha")),
                rec_with("vec1", vec![1.0, 0.0], body("alpha alpha")),
                Record::text_only("textual", body("alpha beta gamma delta")),
            ],
        )
        .unwrap();
    let opts = SearchOpts {
        top_k: 3,
        diversity: Some(0.3),
        ..Default::default()
    };
    let ids: Vec<String> = store
        .text_search(&["docs"], &FtsQuery::new("body", "alpha"), &opts)
        .unwrap()
        .into_iter()
        .map(|h| h.id)
        .collect();
    assert_eq!(ids, ["vec0", "textual", "vec1"], "{ids:?}");
}

#[test]
fn reinforce_increments_from_absent_and_then_from_a_prior_count() {
    let mut store = Store::in_memory(2).unwrap();
    store.upsert("docs", &[rec("a", vec![1.0, 0.0])]).unwrap();
    assert_eq!(store.reinforce("docs", &["a"], 1_000, None).unwrap(), 1);
    let first = store.get("docs", "a").unwrap();
    assert_eq!(first.attrs.get(META_ACCESS_COUNT), Some(&Value::Int(1)));
    assert_eq!(
        first.attrs.get(META_LAST_ACCESSED),
        Some(&Value::DateTime(1_000))
    );
    store.reinforce("docs", &["a"], 2_000, None).unwrap();
    let second = store.get("docs", "a").unwrap();
    assert_eq!(second.attrs.get(META_ACCESS_COUNT), Some(&Value::Int(2)));
    assert_eq!(
        second.attrs.get(META_LAST_ACCESSED),
        Some(&Value::DateTime(2_000))
    );
}

#[test]
fn reinforce_leaves_the_row_and_every_other_attr_alone() {
    let mut store = Store::in_memory(2).unwrap();
    store
        .upsert(
            "docs",
            &[rec_with(
                "a",
                vec![1.0, 0.0],
                BTreeMap::from([("keep".to_string(), Value::Str("mine".to_string()))]),
            )],
        )
        .unwrap();
    let before = store
        .search(&["docs"], &[1.0, 0.0], &default_opts(1))
        .unwrap();
    assert_eq!(before.len(), 1, "must be searchable before reinforcing");
    store.reinforce("docs", &["a"], 1_000, None).unwrap();
    let after = store
        .search(&["docs"], &[1.0, 0.0], &default_opts(1))
        .unwrap();
    assert_eq!(
        after.len(),
        1,
        "the doc must still be searchable — its row must survive"
    );
    assert_eq!(
        after[0].score, before[0].score,
        "reinforce must not change the score — the vector/row is untouched"
    );
    assert_eq!(
        after[0].attrs.get("keep"),
        Some(&Value::Str("mine".to_string())),
        "every other attr must survive untouched"
    );
}

#[test]
fn reinforce_does_not_count_a_dead_row() {
    let mut store = Store::in_memory(2).unwrap();
    store.upsert("docs", &[rec("a", vec![1.0, 0.0])]).unwrap();
    let before = store.dead_rows();
    for i in 0..5 {
        store.reinforce("docs", &["a"], 1_000 + i, None).unwrap();
    }
    assert_eq!(
        store.dead_rows(), before,
        "pure reads must never fire compaction bookkeeping"
    );
}

#[test]
fn reinforce_survives_reopen() {
    let dir = tempdir();
    let path = dir.path().to_path_buf();
    {
        let mut store = Store::open(Config::new(&path, 2)).unwrap();
        store.upsert("docs", &[rec("a", vec![1.0, 0.0])]).unwrap();
        store.reinforce("docs", &["a"], 5_000, None).unwrap();
    }
    let store = Store::open(Config::new(&path, 2)).unwrap();
    let record = store.get("docs", "a").unwrap();
    assert_eq!(record.attrs.get(META_ACCESS_COUNT), Some(&Value::Int(1)));
    assert_eq!(
        record.attrs.get(META_LAST_ACCESSED),
        Some(&Value::DateTime(5_000))
    );
}

#[test]
fn reinforce_skips_an_absent_id_without_erroring() {
    let mut store = Store::in_memory(2).unwrap();
    store.upsert("docs", &[rec("a", vec![1.0, 0.0])]).unwrap();
    let stamped = store
        .reinforce("docs", &["a", "ghost"], 1_000, None)
        .unwrap();
    assert_eq!(stamped, 1, "only the present id is stamped");
    assert_eq!(
        store
            .reinforce("no-such-collection", &["a"], 1_000, None)
            .unwrap(),
        0,
        "an absent collection is skipped too, not an error"
    );
}

#[test]
fn reinforce_is_refused_on_a_read_only_store() {
    let dir = tempdir();
    let path = dir.path().to_path_buf();
    {
        let mut store = Store::open(Config::new(&path, 2)).unwrap();
        store.upsert("docs", &[rec("a", vec![1.0, 0.0])]).unwrap();
    }
    let mut store = Store::open(Config::new(&path, 2).open_mode(OpenMode::ReadOnly)).unwrap();
    assert!(store.reinforce("docs", &["a"], 1_000, None).is_err());
}

#[test]
fn extend_ttl_moves_an_existing_expiry_forward_only() {
    let mut store = Store::in_memory(2).unwrap();
    store
        .upsert(
            "docs",
            &[
                rec("no-expiry", vec![1.0, 0.0]),
                rec_with(
                    "near-expiry",
                    vec![0.0, 1.0],
                    BTreeMap::from([(META_EXPIRES_AT.to_string(), Value::DateTime(1_500))]),
                ),
                rec_with(
                    "far-expiry",
                    vec![1.0, 1.0],
                    BTreeMap::from([(META_EXPIRES_AT.to_string(), Value::DateTime(10_000))]),
                ),
            ],
        )
        .unwrap();
    store
        .reinforce(
            "docs",
            &["no-expiry", "near-expiry", "far-expiry"],
            1_000,
            Some(5),
        )
        .unwrap();
    let no_expiry = store.get("docs", "no-expiry").unwrap();
    assert!(
        !no_expiry.attrs.contains_key(META_EXPIRES_AT),
        "never had an expiry, must not gain one"
    );
    let near = store.get("docs", "near-expiry").unwrap();
    assert_eq!(
        near.attrs.get(META_EXPIRES_AT),
        Some(&Value::DateTime(6_000)),
        "a nearer expiry moves out to now + extend"
    );
    let far = store.get("docs", "far-expiry").unwrap();
    assert_eq!(
        far.attrs.get(META_EXPIRES_AT),
        Some(&Value::DateTime(10_000)),
        "an already-further expiry must not move back"
    );
}

#[test]
fn reinforce_makes_the_count_filterable() {
    let mut store = Store::in_memory(2).unwrap();
    store.upsert("docs", &[rec("a", vec![1.0, 0.0])]).unwrap();
    store
        .set_filter_index("docs", &[FilterIndexField::new(META_ACCESS_COUNT)])
        .unwrap();
    store.reinforce("docs", &["a"], 1_000, None).unwrap();
    let hits = store
        .list(
            &["docs"],
            &ListOpts {
                filter: Filter(vec![Predicate::Ge(
                    META_ACCESS_COUNT.to_string(),
                    Value::Int(1),
                )]),
                ..Default::default()
            },
        )
        .unwrap();
    assert_eq!(
        hits.len(),
        1,
        "the reinforced doc must be found via the filter"
    );
}

#[test]
fn reinforce_saturates_instead_of_overflowing() {
    let mut store = Store::in_memory(2).unwrap();
    let mut attrs = BTreeMap::new();
    attrs.insert(META_ACCESS_COUNT.to_string(), Value::Int(i64::MAX));
    attrs.insert(META_EXPIRES_AT.to_string(), Value::DateTime(i64::MAX - 1));
    store
        .upsert(
            "docs",
            &[Record {
                id: "a".into(),
                vector: Some(vec![1.0, 0.0]),
                attrs,
            }],
        )
        .unwrap();
    store
        .reinforce("docs", &["a"], 1_000, Some(i64::MAX))
        .unwrap();
    let got = store.attrs_of("docs", "a").unwrap();
    assert_eq!(got.get(META_ACCESS_COUNT), Some(&Value::Int(i64::MAX)));
    assert_eq!(got.get(META_EXPIRES_AT), Some(&Value::DateTime(i64::MAX)));
}

#[test]
fn reinforce_does_not_reindex_a_collection_it_does_not_touch() {
    let mut store = Store::in_memory(2).unwrap();
    store
        .set_fts_schema("docs", &[FtsField::new("body")])
        .unwrap();
    let mut attrs = BTreeMap::new();
    attrs.insert("body".to_string(), Value::Str("deploys run at noon".into()));
    store
        .upsert(
            "docs",
            &[Record {
                id: "a".into(),
                vector: Some(vec![1.0, 0.0]),
                attrs,
            }],
        )
        .unwrap();
    let before = store.fts_posting_count();
    for _ in 0..5 {
        store.reinforce("docs", &["a"], 1_000, None).unwrap();
    }
    assert_eq!(
        store.fts_posting_count(),
        before,
        "a stamp touching no indexed field must not re-append postings"
    );
    let hits = store
        .text_search(
            &["docs"],
            &FtsQuery::new("body", "deploys"),
            &default_opts(10),
        )
        .unwrap();
    assert_eq!(hits.len(), 1, "the doc must still be findable by text");
}

#[test]
fn plan_reports_exact_path_with_rows_scanned() {
    let data = random_unit_vectors(20, 3, 1);
    let store = exact_store(3, &data);
    let q = random_unit_vectors(1, 3, 2).pop().unwrap();
    let (hits, plan) = store
        .search_with_plan(&["col"], &q, &default_opts(5))
        .unwrap();
    assert!(!hits.is_empty());
    assert_eq!(plan.path, QueryPath::Exact);
    assert_eq!(plan.rows_scanned, Some(20));
    assert_eq!(plan.narrowing, Narrowing::Inactive);
}

#[test]
fn plan_reports_quantized_path_with_rows_scanned() {
    let mut store = quantized_store(3);
    store.create_collection("col").unwrap();
    store
        .upsert(
            "col",
            &[
                rec("a", vec![0.9, 0.1, 0.0]),
                rec("b", vec![0.5, 0.5, 0.0]),
                rec("c", vec![0.0, 0.0, 1.0]),
            ],
        )
        .unwrap();
    let (hits, plan) = store
        .search_with_plan(&["col"], &[1.0, 0.0, 0.0], &default_opts(3))
        .unwrap();
    assert!(!hits.is_empty());
    assert_eq!(plan.path, QueryPath::Quantized);
    assert_eq!(plan.rows_scanned, Some(3));
}

#[test]
fn plan_reports_ann_path_with_no_rows_scanned() {
    let data = random_unit_vectors(50, 4, 3);
    let store = ann_store(4, AnnConfig::hnsw(), &data);
    let q = random_unit_vectors(1, 4, 4).pop().unwrap();
    let (hits, plan) = store
        .search_with_plan(&["col"], &q, &default_opts(5))
        .unwrap();
    assert!(!hits.is_empty());
    assert_eq!(plan.path, QueryPath::Ann);
    assert_eq!(plan.rows_scanned, None);
    assert!(plan.candidates.is_some());
}

#[test]
fn plan_reports_ann_prefilter_fallback_on_a_selective_filter() {
    let data = random_unit_vectors(50, 4, 5);
    let mut store = ann_store(4, AnnConfig::hnsw(), &data);
    let mut attrs = BTreeMap::new();
    attrs.insert("tag".to_string(), Value::Int(1));
    store
        .upsert(
            "col",
            &[rec_with("tagged", vec![1.0, 0.0, 0.0, 0.0], attrs)],
        )
        .unwrap();
    let opts = SearchOpts {
        filter: Filter(vec![Predicate::Eq("tag".to_string(), Value::Int(1))]),
        ..default_opts(5)
    };
    let (hits, plan) = store
        .search_with_plan(&["col"], &[1.0, 0.0, 0.0, 0.0], &opts)
        .unwrap();
    assert_eq!(hits.len(), 1);
    assert_eq!(plan.path, QueryPath::AnnPrefilterFallback);
    assert_eq!(
        plan.rows_scanned, None,
        "the fallback is not the counted brute-force scan"
    );
}

#[test]
fn plan_reports_segmented_path() {
    let mut s = segmented_store(2, 4, 2);
    s.create_collection("col").unwrap();
    for i in 0..5 {
        s.upsert(
            "col",
            &[
                rec(&format!("a{i}"), vec![(i as f32).cos(), (i as f32).sin()]),
                rec(
                    &format!("b{i}"),
                    vec![(-(i as f32)).sin(), (i as f32).cos()],
                ),
            ],
        )
        .unwrap();
    }
    let (hits, plan) = s
        .search_with_plan(&["col"], &[1.0, 0.0], &default_opts(5))
        .unwrap();
    assert!(!hits.is_empty());
    assert_eq!(plan.path, QueryPath::Segmented);
    assert_eq!(plan.rows_scanned, None);
}

#[test]
fn plan_candidates_survived_and_dropped_sum_to_surfaced() {
    let data = random_unit_vectors(80, 4, 7);
    let store = ann_store(4, AnnConfig::hnsw(), &data);
    let q = random_unit_vectors(1, 4, 8).pop().unwrap();
    let (_, plan) = store
        .search_with_plan(&["col"], &q, &default_opts(5))
        .unwrap();
    let c: Candidates = plan.candidates.unwrap();
    assert!(c.surfaced >= c.survived);
    let dropped =
        c.dropped_out_of_scope + c.dropped_stale + c.dropped_filtered + c.dropped_min_score;
    assert_eq!(c.surfaced, c.survived + dropped);
}

#[test]
fn plan_narrowing_reports_inactive_declined_and_narrowed() {
    let mut store = Store::in_memory(2).unwrap();
    store
        .upsert(
            "col",
            &[
                rec_with(
                    "a",
                    vec![1.0, 0.0],
                    BTreeMap::from([("tag".to_string(), Value::Str("hello world".into()))]),
                ),
                rec("b", vec![0.0, 1.0]),
            ],
        )
        .unwrap();
    let (_, plan) = store
        .search_with_plan(&["col"], &[1.0, 0.0], &default_opts(5))
        .unwrap();
    assert_eq!(plan.narrowing, Narrowing::Inactive);
    store
        .set_filter_index("col", &[FilterIndexField::new("tag")])
        .unwrap();
    let opts = SearchOpts {
        filter: Filter(vec![Predicate::Eq(
            "tag".to_string(),
            Value::Str("hello world".into()),
        )]),
        ..default_opts(5)
    };
    let (_, plan) = store
        .search_with_plan(&["col"], &[1.0, 0.0], &opts)
        .unwrap();
    assert_eq!(plan.narrowing, Narrowing::Declined);
    let opts = SearchOpts {
        filter: Filter(vec![Predicate::ContainsAllTokens(
            "tag".to_string(),
            "hello".to_string(),
        )]),
        ..default_opts(5)
    };
    let (_, plan) = store
        .search_with_plan(&["col"], &[1.0, 0.0], &opts)
        .unwrap();
    assert!(matches!(plan.narrowing, Narrowing::Narrowed { .. }));
}

#[test]
fn plan_opt_out_search_ignores_the_plan_but_still_answers() {
    let data = random_unit_vectors(10, 3, 9);
    let store = exact_store(3, &data);
    let hits = store
        .search(&["col"], &[1.0, 0.0, 0.0], &default_opts(5))
        .unwrap();
    assert!(!hits.is_empty());
}

// ---- expansion -----------------------------------------------------------------------------

const SOURCE: &str = "alpha beta gamma delta epsilon zeta eta theta";

const SPANS: [(usize, usize); 3] = [(0, 20), (15, 34), (29, 45)];

fn chunked_store(with_offsets: bool) -> Store {
    let mut store = Store::in_memory(2).unwrap();
    let records: Vec<Record> = SPANS
        .iter()
        .enumerate()
        .map(|(i, &(start, end))| {
            let text: String = SOURCE.chars().take(end).skip(start).collect();
            let mut attrs = BTreeMap::new();
            attrs.insert(
                META_PARENT_ID.to_string(),
                Value::Str("doc".to_string()),
            );
            attrs.insert(META_CHUNK_INDEX.to_string(), Value::Int(i as i64));
            attrs.insert(META_TEXT.to_string(), Value::Str(text));
            if with_offsets {
                attrs.insert(META_CHAR_START.to_string(), Value::Int(start as i64));
            }
            Record::new(format!("doc#{i}"), vec![1.0, i as f32], attrs)
        })
        .collect();
    store.upsert("c", &records).unwrap();
    store
}

fn chunk_hit(store: &Store, id: &str) -> Hit {
    let attrs = store.attrs_of("c", id).unwrap();
    Hit::new("c", id, 1.0, attrs)
}

#[test]
fn a_window_with_offsets_reconstructs_the_source_exactly() {
    let store = chunked_store(true);
    let mut hits = vec![chunk_hit(&store, "doc#1")];
    store.expand_hits(&mut hits, &Expand::new(1));
    assert_eq!(hits[0].context.as_deref(), Some(SOURCE));
}

#[test]
fn a_window_without_offsets_falls_back_to_a_blank_line_join() {
    let store = chunked_store(false);
    let mut hits = vec![chunk_hit(&store, "doc#1")];
    store.expand_hits(&mut hits, &Expand::new(1));
    let context = hits[0].context.clone().unwrap();
    assert!(context.contains("\n\n"), "{context}");
    assert!(context.len() > SOURCE.len(), "{context}");
}

#[test]
fn a_window_is_clipped_at_both_ends_of_the_document() {
    let store = chunked_store(true);
    let mut hits = vec![chunk_hit(&store, "doc#0"), chunk_hit(&store, "doc#2")];
    store.expand_hits(&mut hits, &Expand::new(5));
    assert_eq!(hits[0].context.as_deref(), Some(SOURCE));
    assert_eq!(hits[1].context.as_deref(), Some(SOURCE));
}

#[test]
fn radius_zero_reports_the_hits_own_text() {
    let store = chunked_store(true);
    let mut hits = vec![chunk_hit(&store, "doc#1")];
    store.expand_hits(&mut hits, &Expand::new(0));
    let own: String = SOURCE.chars().take(SPANS[1].1).skip(SPANS[1].0).collect();
    assert_eq!(hits[0].context, Some(own));
}

#[test]
fn expansion_never_crosses_a_document_boundary() {
    let mut store = chunked_store(true);
    let mut attrs = BTreeMap::new();
    attrs.insert(
        META_PARENT_ID.to_string(),
        Value::Str("other".to_string()),
    );
    attrs.insert(META_CHUNK_INDEX.to_string(), Value::Int(1));
    attrs.insert(
        META_TEXT.to_string(),
        Value::Str("CONTAMINANT".to_string()),
    );
    attrs.insert(META_CHAR_START.to_string(), Value::Int(0));
    store
        .upsert("c", &[Record::new("other#1", vec![1.0, 9.0], attrs)])
        .unwrap();

    let mut hits = vec![chunk_hit(&store, "doc#1")];
    store.expand_hits(&mut hits, &Expand::new(2));
    assert!(!hits[0].context.as_deref().unwrap().contains("CONTAMINANT"));
}

#[test]
fn a_record_without_chunk_coordinates_is_left_alone() {
    let mut store = chunked_store(true);
    let mut attrs = BTreeMap::new();
    attrs.insert(
        META_TEXT.to_string(),
        Value::Str("a plain memory".to_string()),
    );
    store
        .upsert("c", &[Record::new("plain", vec![1.0, 0.5], attrs)])
        .unwrap();

    let mut hits = vec![chunk_hit(&store, "plain"), chunk_hit(&store, "doc#1")];
    store.expand_hits(&mut hits, &Expand::new(1));
    assert_eq!(
        hits[0].context, None,
        "a non-chunked record gets no context"
    );
    assert!(hits[1].context.is_some(), "its neighbour still expands");
}

#[test]
fn expansion_does_not_change_the_ranking() {
    let store = chunked_store(true);
    let q = [1.0, 1.0];
    let base = SearchOpts {
        top_k: 10,
        ..Default::default()
    };
    let plain = store.search(&["c"], &q, &base).unwrap();
    let expanded = store
        .search(
            &["c"],
            &q,
            &SearchOpts {
                expand: Some(Expand::new(1)),
                ..base.clone()
            },
        )
        .unwrap();

    let seq = |hits: &[Hit]| -> Vec<(String, f32)> {
        hits.iter().map(|h| (h.id.clone(), h.score)).collect()
    };
    assert_eq!(seq(&plain), seq(&expanded));
    assert!(plain.iter().all(|h| h.context.is_none()));
    assert!(expanded.iter().all(|h| h.context.is_some()));
}

#[test]
fn a_projected_away_body_still_expands() {
    let store = chunked_store(true);
    let hits = store
        .search(
            &["c"],
            &[1.0, 1.0],
            &SearchOpts {
                top_k: 1,
                projection: Projection::Exclude(vec![
                    META_TEXT.to_string(),
                    META_PARENT_ID.to_string(),
                    META_CHUNK_INDEX.to_string(),
                ]),
                expand: Some(Expand::new(1)),
                ..Default::default()
            },
        )
        .unwrap();
    assert!(!hits[0].attrs.contains_key(META_TEXT));
    assert!(hits[0].context.is_some(), "the stored text still expands");
}

#[test]
fn a_rewound_char_start_does_not_duplicate_written_text() {
    let mut store = Store::in_memory(2).unwrap();
    let spans = [(0i64, "AAAAA BBBBB"), (3, "AA"), (6, "BBBBB")];
    let records: Vec<Record> = spans
        .iter()
        .enumerate()
        .map(|(i, &(start, text))| {
            let mut attrs = BTreeMap::new();
            attrs.insert(
                META_PARENT_ID.to_string(),
                Value::Str("doc".to_string()),
            );
            attrs.insert(
                META_CHUNK_INDEX.to_string(),
                Value::Int(i as i64),
            );
            attrs.insert(META_CHAR_START.to_string(), Value::Int(start));
            attrs.insert(
                META_TEXT.to_string(),
                Value::Str(text.to_string()),
            );
            Record::new(format!("doc#{i}"), vec![1.0, i as f32], attrs)
        })
        .collect();
    store.upsert("c", &records).unwrap();

    let mut hits = vec![chunk_hit(&store, "doc#0")];
    store.expand_hits(&mut hits, &Expand::new(2));
    let context = hits[0].context.clone().unwrap();
    assert_eq!(
        context.matches("BBBBB").count(),
        1,
        "already-written text was re-emitted: {context}"
    );
}

#[test]
fn an_empty_field_name_is_a_query_error() {
    let mut e = Expand::new(1);
    e.parent_field = String::new();
    let err = nidus::rank::validate_expand(Some(&e))
        .map_err(|fault| fail(StoreError::Query(fault)))
        .unwrap_err()
        .to_string();
    assert!(err.contains("parent_field"), "{err}");
}

// ---- group keys ----------------------------------------------------------------------------

fn group_key(v: Option<&Value>) -> Option<Value> {
    nidus::aggregate::group_key(v.map(lowered).as_ref())
        .as_ref()
        .map(lifted)
}

#[test]
fn a_group_key_never_collides_across_variants() {
    let keys = [
        group_key(None),
        group_key(Some(&Value::Null)),
        group_key(Some(&Value::Str("1".into()))),
        group_key(Some(&Value::Int(1))),
        group_key(Some(&Value::Bool(true))),
        group_key(Some(&Value::Float(1.0))),
        group_key(Some(&Value::DateTime(1))),
        group_key(Some(&Value::List(vec!["1".into()]))),
    ];
    let mut unique: Vec<&Option<Value>> = Vec::new();
    for k in &keys {
        if !unique.contains(&k) {
            unique.push(k);
        }
    }
    assert_eq!(unique.len(), keys.len(), "{keys:?}");
}

#[test]
fn every_missing_record_shares_one_key() {
    assert_eq!(group_key(None), group_key(None));
    assert_ne!(group_key(None), group_key(Some(&Value::Null)));
}

// ---- diversity -----------------------------------------------------------------------------

fn select(window: &[Option<Vec<f32>>], scores: &[f32], lambda: f32) -> Vec<usize> {
    let rows: Vec<Option<Vec<u32>>> = window.iter().map(|v| v.as_ref().map(|v| bits(v))).collect();
    nidus::diversity::select(
        &rows.iter().map(|v| v.as_ref()).collect(),
        &bits(scores),
        lambda.to_bits(),
        &Single,
    )
}

fn cosine(a: &[f32], b: &[f32]) -> f32 {
    f(Single.cosine(&bits(a), &bits(b)))
}

fn cand(v: &[f32]) -> Option<Vec<f32>> {
    Some(v.to_vec())
}

#[test]
fn lambda_one_is_pure_relevance() {
    let a = [1.0, 0.0];
    let b = [1.0, 0.0];
    let c = [0.0, 1.0];
    let w = [cand(&a), cand(&b), cand(&c)];
    assert_eq!(select(&w, &[0.9, 0.8, 0.7], 1.0), vec![0, 1, 2]);
}

#[test]
fn a_near_duplicate_is_pushed_behind_a_novel_candidate() {
    let a = [1.0, 0.0];
    let dup = [1.0, 0.0];
    let novel = [0.0, 1.0];
    let w = [cand(&a), cand(&dup), cand(&novel)];
    assert_eq!(select(&w, &[0.9, 0.89, 0.5], 0.5), vec![0, 2, 1]);
}

#[test]
fn the_top_hit_is_never_displaced() {
    let a = [1.0, 0.0];
    let b = [0.0, 1.0];
    let w = [cand(&a), cand(&b)];
    for lambda in [0.0, 0.25, 0.5, 0.75, 1.0] {
        assert_eq!(select(&w, &[0.9, 0.1], lambda)[0], 0, "lambda {lambda}");
    }
}

#[test]
fn identical_candidates_keep_their_input_order() {
    let a = [1.0, 0.0];
    let b = [1.0, 0.0];
    let c = [1.0, 0.0];
    let w = [cand(&a), cand(&b), cand(&c)];
    assert_eq!(select(&w, &[0.5, 0.5, 0.5], 0.5), vec![0, 1, 2]);
}

#[test]
fn a_vectorless_candidate_is_never_redundant() {
    let a = [1.0, 0.0];
    let dup = [1.0, 0.0];
    let w = [cand(&a), cand(&dup), None];
    assert_eq!(select(&w, &[0.9, 0.8, 0.1], 0.0), vec![0, 2, 1]);
}

#[test]
fn cosine_is_computed_on_unnormalized_vectors() {
    let a = [3.0, 0.0];
    let b = [10.0, 0.0];
    assert!((cosine(&a, &b) - 1.0).abs() < 1e-6);
}

#[test]
fn a_zero_vector_is_similar_to_nothing() {
    let z = [0.0, 0.0];
    let a = [1.0, 0.0];
    assert_eq!(cosine(&z, &a), 0.0);
}

#[test]
fn validate_accepts_the_closed_unit_interval_and_nothing_else() {
    let validate = |lambda: Option<f32>| nidus::rank::validate_diversity(lambda.map(f32::to_bits));
    for ok in [None, Some(0.0), Some(0.5), Some(1.0)] {
        assert!(validate(ok).is_ok(), "{ok:?}");
    }
    for bad in [f32::NAN, f32::INFINITY, -0.1, 1.1] {
        assert!(validate(Some(bad)).is_err(), "{bad}");
    }
}

// ---- ranking expressions -------------------------------------------------------------------

fn adjust(rank_by: Option<&RankBy>, base: f32, attrs: &BTreeMap<String, Value>) -> f32 {
    match rank_by {
        None => base,
        Some(RankBy::Decay(d)) => {
            let rule = d.lowered();
            let terms = nidus::rank::rank_terms(&rule, &lowered_attrs(attrs));
            f(Single.adjust(&rule, base.to_bits(), terms))
        }
    }
}

fn count_factor(d: &Decay, attrs: &BTreeMap<String, Value>) -> f32 {
    let rule = d.lowered();
    match nidus::rank::rank_terms(&rule, &lowered_attrs(attrs)).recalls {
        Some(n) => recall_factor(&rule, n),
        None => 0.0,
    }
}

fn validate_rank(rank_by: Option<&RankBy>) -> Result<(), Fail> {
    nidus::rank::validate_rank(rank_by.map(lowered_rank).as_ref())
        .map_err(|fault| fail(StoreError::Query(fault)))
}

fn attrs(pairs: &[(&str, Value)]) -> BTreeMap<String, Value> {
    pairs
        .iter()
        .map(|(k, v)| (k.to_string(), v.clone()))
        .collect()
}

#[test]
fn one_half_life_subtracts_lambda_times_one_minus_decay() {
    let day = 86_400_000i64;
    let d = Decay::new("ts", 10 * day, day).lambda(0.4);
    let rank = RankBy::Decay(d);
    let fresh = adjust(
        Some(&rank),
        0.9,
        &attrs(&[("ts", Value::DateTime(10 * day))]),
    );
    let aged = adjust(
        Some(&rank),
        0.9,
        &attrs(&[("ts", Value::DateTime(9 * day))]),
    );
    assert!((fresh - 0.9).abs() < 1e-6, "age 0 keeps the base score");
    assert!((aged - (0.9 - 0.4 * 0.5)).abs() < 1e-6, "got {aged}");
}

#[test]
fn a_negative_base_score_stays_ordered_under_the_penalty() {
    let day = 86_400_000i64;
    let rank = RankBy::Decay(Decay::new("ts", 10 * day, day).lambda(1.0));
    let old = adjust(Some(&rank), -4.0, &attrs(&[("ts", Value::DateTime(0))]));
    assert!((old - (-5.0)).abs() < 1e-3, "got {old}");
}

#[test]
fn a_missing_timestamp_is_unpenalized_by_default() {
    let rank = RankBy::Decay(Decay::new("ts", 1_000_000, 1_000));
    assert_eq!(adjust(Some(&rank), 0.7, &attrs(&[])), 0.7);
    assert_eq!(
        adjust(
            Some(&rank),
            0.7,
            &attrs(&[("ts", Value::Str("nope".into()))])
        ),
        0.7
    );
}

#[test]
fn an_int_timestamp_decays_exactly_like_a_datetime_one() {
    let rank = RankBy::Decay(Decay::new("ts", 2_000, 1_000).lambda(1.0));
    let as_int = adjust(Some(&rank), 1.0, &attrs(&[("ts", Value::Int(1_000))]));
    let as_dt = adjust(Some(&rank), 1.0, &attrs(&[("ts", Value::DateTime(1_000))]));
    assert!((as_int - as_dt).abs() < 1e-6, "{as_int} vs {as_dt}");
}

#[test]
fn a_future_timestamp_is_not_boosted() {
    let rank = RankBy::Decay(Decay::new("ts", 1_000, 1_000).lambda(1.0));
    assert_eq!(
        adjust(Some(&rank), 0.5, &attrs(&[("ts", Value::Int(9_999))])),
        0.5
    );
}

#[test]
fn no_expression_leaves_the_score_untouched() {
    assert_eq!(adjust(None, -3.25, &attrs(&[("ts", Value::Int(0))])), -3.25);
}

#[test]
fn validate_refuses_the_degenerate_knobs() {
    let ok = Decay::new("ts", 0, 1_000);
    assert!(validate_rank(Some(&RankBy::Decay(ok.clone()))).is_ok());
    assert!(
        validate_rank(Some(&RankBy::Decay(Decay {
            scale: 0,
            ..ok.clone()
        })))
        .is_err()
    );
    assert!(validate_rank(Some(&RankBy::Decay(ok.clone().decay(1.0)))).is_err());
    assert!(validate_rank(Some(&RankBy::Decay(ok.clone().decay(0.0)))).is_err());
    assert!(validate_rank(Some(&RankBy::Decay(ok.clone().lambda(-1.0)))).is_err());
    assert!(validate_rank(Some(&RankBy::Decay(ok.clone().missing(1.5)))).is_err());
    assert!(validate_rank(Some(&RankBy::Decay(Decay::new("", 0, 1)))).is_err());
    assert!(validate_rank(None).is_ok());
}

#[test]
fn count_factor_saturates_and_reads_a_missing_count_as_zero() {
    let d = Decay::new("ts", 0, 1_000)
        .count_field("n")
        .count_scale(10.0);
    assert_eq!(
        count_factor(&d, &attrs(&[])),
        0.0,
        "missing count reads as 0"
    );
    assert_eq!(
        count_factor(&d, &attrs(&[("n", Value::Int(10))])),
        0.5,
        "n == count_scale is the half-saturation point"
    );
    let near_one = count_factor(&d, &attrs(&[("n", Value::Int(1_000_000))]));
    assert!(
        near_one > 0.999,
        "a huge count approaches 1, got {near_one}"
    );
}

#[test]
fn an_un_reinforced_record_pays_the_full_count_penalty_and_a_hot_one_pays_none() {
    let rank = RankBy::Decay(
        Decay::new("ts", 0, 1_000)
            .lambda(0.0)
            .count_field("n")
            .count_scale(10.0)
            .count_lambda(1.0),
    );
    let cold = adjust(Some(&rank), 1.0, &attrs(&[]));
    assert!(
        (cold - 0.0).abs() < 1e-6,
        "no reinforcement: full penalty, got {cold}"
    );
    let hot = adjust(
        Some(&rank),
        1.0,
        &attrs(&[("n", Value::Int(1_000_000_000))]),
    );
    assert!(
        (hot - 1.0).abs() < 1e-3,
        "saturated count: ~no penalty, got {hot}"
    );
}

#[test]
fn a_decay_without_count_field_keeps_the_pre_gk6_defaults() {
    let via_builder = Decay::new("ts", 10_000, 1_000).lambda(0.7);
    let via_literal = Decay {
        field: "ts".to_string(),
        origin: 10_000,
        scale: 1_000,
        decay: 0.5,
        lambda: 0.7,
        missing: 1.0,
        count_field: None,
        count_scale: 10.0,
        count_lambda: 1.0,
    };
    assert_eq!(via_builder, via_literal);
}

#[test]
fn a_decay_without_count_field_ranks_exactly_as_before() {
    let d = Decay::new("ts", 10_000, 1_000).lambda(0.7);
    let a = &attrs(&[("ts", Value::Int(9_500))]);
    let with_count_absent = adjust(Some(&RankBy::Decay(d.clone())), 0.42, a);
    let expected = 0.42 - 0.7 * (1.0 - 0.5f32.powf(500.0 / 1_000.0));
    assert_eq!(
        with_count_absent, expected,
        "no count_field must rank bit-identically to the recency formula"
    );
    assert!(
        d.count_field.is_none(),
        "the guard above only means anything while count_field is unset"
    );
}

#[test]
fn validate_rejects_a_non_positive_count_scale_and_accepts_an_empty_field_with_a_count() {
    let d = Decay::new("", 0, 1_000).count_field("n");
    assert!(
        validate_rank(Some(&RankBy::Decay(d.clone()))).is_ok(),
        "an empty timestamp field is fine once count_field is set"
    );
    assert!(validate_rank(Some(&RankBy::Decay(d.clone().count_scale(0.0)))).is_err());
    assert!(validate_rank(Some(&RankBy::Decay(d.clone().count_scale(-1.0)))).is_err());
    assert!(validate_rank(Some(&RankBy::Decay(d.count_lambda(-1.0)))).is_err());
}

// ---- reranking -----------------------------------------------------------------------------

fn text_hit(collection: &str, id: &str, score: f32, text: Option<&str>) -> Hit {
    let mut attrs = BTreeMap::new();
    if let Some(t) = text {
        attrs.insert("nidus.text".to_string(), Value::Str(t.to_string()));
    }
    Hit::new(collection, id, score, attrs)
}

#[test]
fn rerank_depth_multiplies_the_page_by_overscan() {
    let opts = SearchOpts {
        top_k: 10,
        rerank: Some(RerankOpts {
            overscan: 5,
            text_attr: "nidus.text".to_string(),
        }),
        ..Default::default()
    };
    assert_eq!(rerank_depth(&opts), 50);
}

#[test]
fn rerank_depth_clamps_overscan_to_at_least_one() {
    let opts = SearchOpts {
        top_k: 10,
        rerank: Some(RerankOpts {
            overscan: 0,
            text_attr: "nidus.text".to_string(),
        }),
        ..Default::default()
    };
    assert_eq!(rerank_depth(&opts), 10);
}

#[test]
fn rerank_depth_respects_limit_per_overfetch() {
    let plain = SearchOpts {
        top_k: 10,
        rerank: Some(RerankOpts {
            overscan: 2,
            text_attr: "nidus.text".to_string(),
        }),
        ..Default::default()
    };
    let with_cap = SearchOpts {
        limit_per: Some(LimitPer::new("f", 1)),
        ..plain.clone()
    };
    assert!(rerank_depth(&with_cap) > rerank_depth(&plain));
}

#[test]
fn candidate_texts_separates_non_empty_str_from_everything_else() {
    let hits = vec![
        text_hit("c", "a", 1.0, Some("hello")),
        text_hit("c", "b", 1.0, None),
        text_hit("c", "d", 1.0, Some("")),
    ];
    let (texts, passthrough) = candidate_texts(&hits, "nidus.text");
    assert_eq!(texts, vec!["hello"]);
    assert_eq!(passthrough, vec![1, 2]);
}

#[test]
fn candidate_texts_treats_null_and_non_str_as_passthrough() {
    let mut null_attrs = BTreeMap::new();
    null_attrs.insert("nidus.text".to_string(), Value::Null);
    let mut int_attrs = BTreeMap::new();
    int_attrs.insert("nidus.text".to_string(), Value::Int(3));
    let hits = vec![
        Hit::new("c", "a", 1.0, null_attrs),
        Hit::new("c", "b", 1.0, int_attrs),
    ];
    let (texts, passthrough) = candidate_texts(&hits, "nidus.text");
    assert!(texts.is_empty());
    assert_eq!(passthrough, vec![0, 1]);
}

#[test]
fn apply_scores_reorders_by_score_then_appends_passthroughs_in_order() {
    let hits = vec![
        text_hit("c", "a", 0.9, Some("a")),
        text_hit("c", "b", 0.5, Some("b")),
        text_hit("c", "z-passthrough", 0.99, None),
    ];
    let scored = vec![(0, 0.1), (1, 0.8)];
    let out = apply_scores(hits, &scored, vec![2]);
    let ids: Vec<&str> = out.iter().map(|h| h.id.as_str()).collect();
    assert_eq!(ids, vec!["b", "a", "z-passthrough"]);
    assert_eq!(out[0].score, 0.8);
    assert_eq!(out[1].score, 0.1);
    assert_eq!(out[2].score, 0.99, "passthrough score untouched");
}

#[test]
fn apply_scores_breaks_ties_on_collection_then_id() {
    let hits = vec![text_hit("z", "a", 1.0, Some("x")), text_hit("a", "b", 1.0, Some("y"))];
    let scored = vec![(0, 5.0), (1, 5.0)];
    let out = apply_scores(hits, &scored, vec![]);
    assert_eq!(
        out.iter()
            .map(|h| h.collection.as_str())
            .collect::<Vec<_>>(),
        vec!["a", "z"]
    );
}

#[test]
fn a_nan_rerank_score_sorts_deterministically_last() {
    let hits = vec![
        text_hit("c", "a", 1.0, Some("x")),
        text_hit("c", "b", 1.0, Some("y")),
        text_hit("c", "c", 1.0, Some("z")),
    ];
    let scored = vec![(0, f32::NAN), (1, 2.0), (2, 1.0)];
    let out = apply_scores(hits, &scored, vec![]);
    let ids: Vec<&str> = out.iter().map(|h| h.id.as_str()).collect();
    assert_eq!(ids, vec!["b", "c", "a"], "NaN never displaces a real score");
}

// ---- query plans ---------------------------------------------------------------------------

#[test]
fn off_records_nothing_and_finishes_to_none() {
    let mut rec = PlanRec::Off;
    assert!(!rec.is_on());
    let ran = rec.phase(Phase::Score, 3, || true);
    assert!(ran);
    assert!(rec.candidates().is_none());
    assert!(rec.finish(1_000_000).is_none());
}

#[test]
fn on_accumulates_path_rows_and_phase_timing() {
    let mut rec = PlanRec::new(true);
    assert!(rec.is_on());
    rec.path(QueryPath::Quantized);
    rec.rows_scanned(42);
    rec.narrowing(Narrowing::Narrowed { candidates: 7 });
    let doubled = rec.phase(Phase::FirstPass, 3, || 2 + 2);
    assert_eq!(doubled, 4);
    if let Some(mut c) = rec.candidates() {
        c.surfaced = 10;
        c.survived = 6;
        rec.record_candidates(c);
    }
    let plan = rec.finish(500).unwrap();
    assert_eq!(plan.path, QueryPath::Quantized);
    assert_eq!(plan.rows_scanned, Some(42));
    assert_eq!(plan.narrowing, Narrowing::Narrowed { candidates: 7 });
    assert_eq!(plan.timings.total, 500);
    assert!(plan.timings.first_pass.is_some());
    assert_eq!(plan.candidates.unwrap().surfaced, 10);
}

// ---- named vectors -------------------------------------------------------------------------

fn named(row: u64, collection: &str, id: &str, name: u32) -> NamedItem {
    NamedItem {
        row,
        collection: collection.to_string(),
        id: id.to_string(),
        name,
    }
}

#[test]
fn parallel_topk_grouped_never_splits_a_records_rows_across_shards() {
    let scan = vec![
        named(0, "c", "r1", 0),
        named(1, "c", "r1", 1),
        named(2, "c", "r1", 2),
        named(3, "c", "r2", 0),
        named(4, "c", "r3", 0),
        named(5, "c", "r3", 1),
    ];
    let ends = nidus::scoring::record_aligned_split(&scan, 4);
    let mut seen: BTreeMap<&str, Vec<f32>> = BTreeMap::new();
    let mut from = 0;
    for to in ends {
        let chunk = &scan[from..to];
        let mut i = 0;
        while i < chunk.len() {
            let mut j = i + 1;
            while j < chunk.len() && chunk[j].id == chunk[i].id {
                j += 1;
            }
            seen.entry(chunk[i].id.as_str())
                .or_default()
                .push((j - i) as f32);
            i = j;
        }
        from = to;
    }
    assert_eq!(from, scan.len(), "every row is in some shard");
    assert_eq!(seen.len(), 3, "no id split into extra entries: {seen:?}");
    assert_eq!(seen["r1"], vec![3.0], "r1's 3 rows must land in one shard");
    assert_eq!(seen["r2"], vec![1.0]);
    assert_eq!(seen["r3"], vec![2.0], "r3's 2 rows must land in one shard");
}

/// A query that is cancelled, or is not, and how often it was asked.
#[derive(Default)]
struct Watch {
    stop: bool,
    asked: Cell<usize>,
    saw: Cell<usize>,
}

impl Host for Watch {
    fn now(&self) -> u64 {
        0
    }

    fn cancelled(&self) -> bool {
        self.asked.set(self.asked.get() + 1);
        self.saw.set(self.saw.get() + usize::from(self.stop));
        self.stop
    }

    fn propose(&self, _collection: &str, _filter: &Condition) -> Option<Vec<String>> {
        None
    }

    fn walk(&self, _ann: &AnnConfig, _query: &Vec<u32>, _n: usize) -> Vec<u64> {
        Vec::new()
    }

    fn walk_segment(&self, _segment: usize, _query: &Vec<u32>, _n: usize) -> Vec<u64> {
        Vec::new()
    }
}

/// Score 64 rows in four pieces: how many pieces there were, and what they give together.
fn scored_by_workers(watch: &Watch) -> (usize, Result<Vec<Scored>, StoreError>) {
    const WORKERS: usize = 4;
    let mut store = Store::in_memory(1).unwrap();
    let recs: Vec<Record> = (0..64).map(|i| rec(&format!("id{i}"), vec![1.0])).collect();
    store.upsert("col", &recs).unwrap();
    let opts = SearchOpts::default().lowered();
    let scan = store.core.scan(&["col"], &opts.filter);
    let ends = nidus::scoring::split(scan.len(), WORKERS);
    let mut from = 0;
    let mut locals = Vec::new();
    for to in &ends {
        locals.push(store.core.score_chunk(
            &bits(&[1.0]),
            &scan,
            from,
            *to,
            &opts,
            4,
            &Single,
            watch,
        ));
        from = *to;
    }
    (ends.len(), nidus::fanout::merge_workers(locals, 4))
}

#[test]
fn cancellation_reaches_every_parallel_worker() {
    let watch = Watch {
        stop: true,
        ..Watch::default()
    };
    let (ran, result) = scored_by_workers(&watch);
    assert_eq!(ran, 4, "every chunk ran");
    assert_eq!(
        watch.saw.get(),
        4,
        "every worker must observe the caller's cancellation, not just the first"
    );
    assert!(
        result.is_err(),
        "a cancelled parallel scan must surface the error, not partial results"
    );
    assert!(matches!(result, Err(StoreError::Cancelled)));
}

#[test]
fn workers_see_no_cancellation_when_none_is_installed() {
    let watch = Watch::default();
    let (_, result) = scored_by_workers(&watch);
    assert_eq!((watch.asked.get(), watch.saw.get()), (4, 0));
    assert!(result.is_ok());
    assert_eq!(result.unwrap().len(), 4);
}

#[test]
fn a_cancelled_search_stops_and_errors() {
    let mut store = Store::in_memory(8).unwrap();
    store.create_collection("col").unwrap();
    let recs: Vec<Record> = (0..64)
        .map(|i| {
            let v: Vec<f32> = (0..8).map(|d| ((i * 7 + d) % 13) as f32).collect();
            Record::new(format!("d{i}"), v, Default::default())
        })
        .collect();
    store.upsert("col", &recs).unwrap();

    let q = vec![1.0f32; 8];
    let opts = SearchOpts {
        top_k: 10,
        ..Default::default()
    };

    // Nothing changes for ordinary callers.
    assert_eq!(store.search(&["col"], &q, &opts).unwrap().len(), 10);

    // Cancelled: it must refuse rather than return partial results, which would look like
    // a legitimate (but wrong) ranking.
    store.cancelled.set(true);
    let err = store
        .search(&["col"], &q, &opts)
        .expect_err("a cancelled search must not return results");
    assert!(
        format!("{err:#}").contains("cancelled"),
        "the error should say why: {err:#}"
    );

    // A query that can be cancelled and is not goes on.
    store.cancelled.set(false);
    assert_eq!(store.search(&["col"], &q, &opts).unwrap().len(), 10);
}

#[test]
fn score_chunk_named_pools_max_and_sum_and_skips_an_absent_name() {
    let rows = vec![bits(&[1.0, 0.0]), bits(&[0.0, 1.0]), bits(&[1.0, 0.0])];
    let chunk = vec![
        named(0, "col", "a", 0),
        named(1, "col", "a", 1),
        named(2, "col", "b", 0),
    ];
    let q = bits(&[1.0, 0.0]);
    let weights = bits(&[1.0, 1.0]);
    let pooled = |pool: Pool| -> BTreeMap<String, f32> {
        nidus::scoring::score_chunk_named(
            Distance::Cosine,
            &rows,
            &chunk,
            &q,
            10,
            None,
            &weights,
            pool,
            &Single,
            &Watch::default(),
        )
        .unwrap()
        .into_iter()
        .map(|s| (s.id, f(s.score)))
        .collect()
    };
    let max = pooled(Pool::Max);
    assert!(
        (max["a"] - 1.0).abs() < 1e-6,
        "max(1.0, 0.0) == 1.0, {max:?}"
    );
    assert!(
        (max["b"] - 1.0).abs() < 1e-6,
        "b has only `x`, unpenalized for missing `y`"
    );
    let sum = pooled(Pool::Sum);
    assert!((sum["a"] - 1.0).abs() < 1e-6, "1.0 + 0.0 == 1.0, {sum:?}");
    assert!(
        (sum["b"] - 1.0).abs() < 1e-6,
        "single term: sum == that term"
    );
}

// ---- the memory tier -----------------------------------------------------------------------

fn tiered() -> Place {
    place(Backend {
        native_lock: false,
        memory_tier: true,
        cas: true,
    })
}

fn sample_index() -> Index {
    let mut attrs: Attrs = Dict::new();
    attrs.insert("lang".to_string(), Datum::Str("rust".to_string()));
    let ops = vec![Op::Upsert {
        collection: "col".to_string(),
        id: "doc1".to_string(),
        row: 0,
        attrs,
    }];
    nidus::index::replay_ops(ops, 1)
}

#[test]
fn adopts_only_a_matching_snapshot() {
    let tier = tiered();
    // An operation that creates a collection takes up twenty bytes and its name.
    let published = |bytes: usize| {
        tier.edit(|d| {
            d.tier = Some(Snapshot {
                dimension: 3,
                distance: Distance::Cosine,
                watermark: 100,
                rows: 1,
                index: sample_index(),
            });
            d.log = (0..5)
                .map(|i| Op::CreateCollection {
                    collection: "x".repeat(if i == 4 { bytes - 100 } else { 0 }),
                })
                .collect();
            assert_eq!(nidus::wire::log_size(&d.log), bytes as u64);
        })
    };
    let adopted = |dimension: usize, rows: u64| {
        tier.edit(|d| nidus::disk::try_adopt(&Settings::new(dimension), d, rows))
    };
    published(100);
    let ix = adopted(3, 1).expect("matching snapshot adopts");
    assert_eq!(ix.dead_rows, 0);
    assert!(ix.collections.get("col").unwrap().docs.contains_key("doc1"));
    published(101);
    assert!(adopted(3, 1).is_none());
    published(100);
    assert!(adopted(3, 2).is_none());
    assert!(adopted(4, 1).is_none());
}

#[test]
fn no_tier_and_empty_tier_never_adopt() {
    let adopted = |p: &Place| p.edit(|d| nidus::disk::try_adopt(&Settings::new(3), d, 0));
    assert!(adopted(&tempdir()).is_none());
    assert!(adopted(&tiered()).is_none());
}

fn object_cfg(p: &Place) -> Config {
    Config::new(p, 3)
        .open_mode(OpenMode::ReadWrite)
        .auto_compact(None)
}

fn cluster_writer(p: &Place) -> Store {
    let config = object_cfg(p).cluster(true);
    let kernel = Single;
    let owner = Some("writer".to_string());
    let core = p
        .edit(|d| Core::open(config.settings, d, owner, 0, &kernel))
        .map_err(fail)
        .unwrap();
    Store::wrap(core, Some(p.clone()))
}

fn cluster_reader(p: &Place) -> Store {
    Store::open(object_cfg(p).cluster(true).open_mode(OpenMode::ReadOnly)).unwrap()
}

#[test]
fn live_object_backing_round_trips_through_a_shared_tier() {
    let p = tiered();
    {
        let mut store = Store::open(object_cfg(&p)).unwrap();
        store.create_collection("col").unwrap();
        store
            .upsert(
                "col",
                &[rec("a", vec![1.0, 0.0, 0.0]), rec("b", vec![0.0, 1.0, 0.0])],
            )
            .unwrap();
        store.flush().unwrap();
    }
    assert!(p.join("data").is_there(), "data object written");
    assert!(p.edit(|d| !d.log.is_empty()), "log object written");
    assert!(
        p.edit(|d| d.tier.is_some()),
        "working set published to the tier"
    );
    let store = Store::open(object_cfg(&p)).unwrap();
    let hits = store
        .search(&["col"], &[1.0, 0.0, 0.0], &default_opts(5))
        .unwrap();
    assert_eq!(hits[0].id, "a", "nearest neighbour survives the round-trip");
    assert_eq!(hits.len(), 2, "both rows present after reopen");
}

#[test]
fn cluster_mode_requires_a_shared_memory_tier() {
    let p = place(Backend {
        native_lock: false,
        memory_tier: false,
        cas: true,
    });
    let Err(err) = Store::open(object_cfg(&p).cluster(true)) else {
        panic!("cluster without a memory tier must be rejected");
    };
    assert!(err.to_string().contains("shared memory tier"), "{err}");
}

#[test]
fn cluster_reader_refreshes_on_every_commit() {
    let p = tiered();
    let mut w = cluster_writer(&p);
    w.create_collection("col").unwrap();
    w.upsert("col", &[rec("a", vec![1.0, 0.0, 0.0])]).unwrap();
    let mut r = cluster_reader(&p);
    assert_eq!(r.get_all("col").len(), 1);
    let v0 = r.data().version();
    w.upsert("col", &[rec("b", vec![0.0, 1.0, 0.0])]).unwrap();
    assert!(
        r.refresh().unwrap(),
        "the commit advanced the manifest version"
    );
    assert!(r.data().version() > v0, "reader adopted the newer version");
    assert_eq!(r.get_all("col").len(), 2);
    let hits = r
        .search(&["col"], &[0.0, 1.0, 0.0], &default_opts(5))
        .unwrap();
    assert_eq!(hits[0].id, "b");
    assert!(!r.refresh().unwrap(), "already current");
}

#[test]
fn cluster_reader_matches_a_fresh_open_after_refresh() {
    let p = tiered();
    let mut w = cluster_writer(&p);
    w.create_collection("col").unwrap();
    w.upsert("col", &[rec("a", vec![1.0, 0.0, 0.0])]).unwrap();
    let mut r = cluster_reader(&p);
    w.upsert("col", &[rec("b", vec![0.0, 1.0, 0.0])]).unwrap();
    w.upsert("col", &[rec("c", vec![0.0, 0.0, 1.0])]).unwrap();
    w.upsert("col", &[rec("a", vec![0.5, 0.5, 0.0])]).unwrap();
    w.delete("col", &["b"]).unwrap();
    w.flush().unwrap();
    assert!(r.refresh().unwrap());
    let fresh = cluster_reader(&p);
    for q in [
        [1.0, 0.0, 0.0],
        [0.0, 1.0, 0.0],
        [0.0, 0.0, 1.0],
        [0.5, 0.5, 0.0],
    ] {
        assert_eq!(ranking(&r, &q, 5), ranking(&fresh, &q, 5), "query {q:?}");
    }
}

#[test]
fn cluster_lease_renews_across_many_batches() {
    let p = tiered();
    let mut w = cluster_writer(&p);
    w.create_collection("col").unwrap();
    for i in 0..25 {
        w.upsert("col", &[rec(&format!("d{i}"), vec![1.0, 0.0, 0.0])])
            .unwrap();
    }
    w.flush().unwrap();
    assert_eq!(w.get_all("col").len(), 25);
}

#[test]
fn cluster_lease_fences_a_superseded_writer() {
    let p = tiered();
    let mut w = cluster_writer(&p);
    w.create_collection("col").unwrap();
    w.upsert("col", &[rec("a", vec![1.0, 0.0, 0.0])]).unwrap();
    p.edit(|d| d.holder = Some("other-writer-77".to_string()));
    let err = w
        .upsert("col", &[rec("b", vec![0.0, 1.0, 0.0])])
        .expect_err("a superseded writer must be fenced");
    assert!(err.to_string().contains("lease lost"), "{err}");
    assert_eq!(w.get_all("col").len(), 1);
}

/// Someone else writes the same commit point again.
fn rewritten(p: &Place) {
    p.edit(|d| d.token += 1);
}

#[test]
fn cluster_cas_fences_a_superseded_writer_and_preserves_committed_data() {
    let p = tiered();
    let mut w = cluster_writer(&p);
    w.create_collection("col").unwrap();
    w.upsert("col", &[rec("a", vec![1.0, 0.0, 0.0])]).unwrap();
    rewritten(&p);
    let err = w
        .upsert("col", &[rec("b", vec![0.0, 1.0, 0.0])])
        .expect_err("a superseded cluster writer must be fenced before it clobbers the store");
    let msg = format!("{err:#}");
    assert!(
        msg.contains("fenced") || msg.contains("superseded"),
        "expected a fencing error, got: {msg}"
    );
    let r = cluster_reader(&p);
    let ids: Vec<String> = r.get_all("col").into_iter().map(|h| h.id).collect();
    assert_eq!(ids, vec!["a".to_string()]);
}

#[test]
fn cluster_manifest_commit_is_compare_and_swapped() {
    let p = tiered();
    let mut w = cluster_writer(&p);
    w.create_collection("col").unwrap();
    w.upsert("col", &[rec("a", vec![1.0, 0.0, 0.0])]).unwrap();
    w.flush().unwrap();
    rewritten(&p);
    let err = w
        .flush()
        .expect_err("a stale manifest commit must be compare-and-swapped out");
    assert!(err.to_string().contains("lease lost"), "{err}");
}

#[test]
fn cluster_incremental_refresh_skips_immutable_segments() {
    let p = tiered();
    let config = object_cfg(&p).cluster(true).segment_max_rows(Some(2));
    let kernel = Single;
    let owner = Some("writer".to_string());
    let core = p
        .edit(|d| Core::open(config.settings, d, owner, 0, &kernel))
        .unwrap();
    let mut w = Store::wrap(core, Some(p.clone()));
    w.create_collection("col").unwrap();
    w.upsert("col", &[rec("a", vec![1.0, 0.0, 0.0])]).unwrap();
    w.upsert("col", &[rec("b", vec![0.0, 1.0, 0.0])]).unwrap();
    w.upsert("col", &[rec("c", vec![0.0, 0.0, 1.0])]).unwrap();
    let mut r = cluster_reader(&p);
    assert_eq!(r.get_all("col").len(), 3);
    // A plain append to the active segment: the segment list is unchanged.
    w.upsert("col", &[rec("d", vec![1.0, 1.0, 0.0])]).unwrap();
    p.reset_gets();
    assert!(r.refresh().unwrap(), "the commit is detected");
    assert_eq!(
        p.get_count("data"),
        0,
        "the immutable base segment must not be re-fetched on an incremental refresh"
    );
    assert!(
        p.get_count("seg-00000001") >= 1,
        "the active segment is re-read to pick up the appended row"
    );
    assert_eq!(
        r.get_all("col").len(),
        4,
        "the new row is visible after refresh"
    );

    // A seal restructures the list: the next refresh reads the whole set.
    w.upsert("col", &[rec("e", vec![0.5, 0.5, 0.0])]).unwrap();
    p.reset_gets();
    assert!(r.refresh().unwrap());
    assert!(
        p.get_count("data") >= 1,
        "a restructure (seal) re-opens every segment, including the immutable base"
    );
    assert_eq!(r.get_all("col").len(), 5);
}

/// Three batches, with nothing made durable yet.
fn deferred_group(w: &mut Store) {
    let before = w.begin_deferred();
    for i in 0..3u32 {
        w.upsert("col", &[rec(&format!("g-{i}"), vec![1.0, 0.0, 0.0])])
            .unwrap();
    }
    w.end_deferred(before);
}

#[test]
fn group_commit_coalesces_the_barrier_across_batches() {
    let p = tiered();
    let mut store = Store::open(object_cfg(&p)).unwrap();
    store.create_collection("col").unwrap();

    // Baseline: four separate batches, each taking its own barrier.
    store.puts.set((0, 0));
    for i in 0..4u32 {
        store
            .upsert("col", &[rec(&format!("solo-{i}"), vec![1.0, 0.0, 0.0])])
            .unwrap();
    }
    assert_eq!(
        store.puts.get(),
        (4, 4),
        "without group commit every batch pays its own data+log barrier"
    );

    // The same four batches inside one deferred scope, closed by one `commit`.
    store.puts.set((0, 0));
    let prev = store.begin_deferred();
    for i in 0..4u32 {
        store
            .upsert("col", &[rec(&format!("group-{i}"), vec![0.0, 1.0, 0.0])])
            .unwrap();
    }
    store.end_deferred(prev);
    assert_eq!(
        store.puts.get(),
        (0, 0),
        "a deferred batch appends without taking a barrier"
    );
    store.commit().unwrap();
    assert_eq!(store.puts.get(), (1, 1), "one barrier covers the whole group");

    // And the data is all there: coalescing barriers must not lose batches.
    assert_eq!(store.get_all("col").len(), 8);
    assert_eq!(Store::open(object_cfg(&p)).unwrap().get_all("col").len(), 8);

    // A second `commit` with nothing owed is free.
    store.puts.set((0, 0));
    store.commit().unwrap();
    assert_eq!(store.puts.get(), (0, 0));
}

#[test]
fn group_commit_publishes_one_cluster_commit_for_the_group() {
    let p = tiered();
    let mut w = cluster_writer(&p);
    w.create_collection("col").unwrap();
    let published = || p.edit(|d| (d.token, d.manifest.as_ref().unwrap().version));
    let before = published();
    deferred_group(&mut w);
    assert_eq!(published(), before, "a deferred batch publishes nothing");
    w.commit().unwrap();
    let after = published();
    assert_eq!(
        after.0,
        before.0 + 1,
        "three batches, one manifest publish"
    );
    assert!(
        after.1 > before.1,
        "the commit counter must still advance, or a reader never sees the group \
         ({} -> {})",
        before.1,
        after.1
    );
    let mut r = cluster_reader(&p);
    assert_eq!(
        r.get_all("col").len(),
        3,
        "and a peer picks the whole group up on one refresh"
    );
    assert!(!r.refresh().unwrap(), "which leaves it current");
}

#[test]
fn a_failed_group_barrier_is_reported_not_swallowed() {
    let p = tiered();
    let mut w = cluster_writer(&p);
    w.create_collection("col").unwrap();
    deferred_group(&mut w);
    rewritten(&p);
    let err = w
        .commit()
        .expect_err("a superseded writer's group barrier must fail");
    assert!(err.to_string().contains("lease lost"), "{err}");
    let err = w
        .commit()
        .expect_err("the barrier is still owed and retried");
    assert!(err.to_string().contains("lease lost"), "{err}");
}

#[test]
fn a_failed_scope_wide_delete_leaves_every_collection_intact() {
    let p = tiered();
    let mut w = cluster_writer(&p);

    let expired = BTreeMap::from([(META_EXPIRES_AT.to_string(), Value::DateTime(1))]);
    for c in ["a", "b"] {
        w.create_collection(c).unwrap();
        w.upsert(
            c,
            &[rec_with(
                &format!("{c}-1"),
                vec![1.0, 0.0, 0.0],
                expired.clone(),
            )],
        )
        .unwrap();
    }

    rewritten(&p);

    let filter = Filter(vec![Predicate::Le(
        META_EXPIRES_AT.to_string(),
        Value::DateTime(i64::MAX),
    )]);
    w.delete_where_all(&filter)
        .expect_err("a failed barrier must fail the whole sweep");

    for c in ["a", "b"] {
        assert_eq!(
            w.core.index.collections.get(c).unwrap().docs.len(),
            1,
            "collection {c} must be untouched by a failed sweep"
        );
    }
}

/// A store whose writer handle is given back when it goes away.
struct Exclusive {
    store: Store,
    lock: Arc<Mutex<Lock>>,
}

impl Drop for Exclusive {
    fn drop(&mut self) {
        self.lock.lock().unwrap().release("writer");
    }
}

/// Open a store for writing, once the handle is claimed.
fn exclusive(lock: &Arc<Mutex<Lock>>, config: Config) -> Result<Exclusive, Fail> {
    let settings = config.settings;
    let claim = lock.lock().unwrap().claim("writer", 0, settings.lock_ttl);
    match Standby::new(&settings, 0).step(claim, 0, 0) {
        Wait::Proceed => Ok(Exclusive {
            store: Store::open(config)?,
            lock: lock.clone(),
        }),
        Wait::Locked => Err(fail(StoreError::Locked)),
        Wait::Fault | Wait::Retry(_) => unreachable!("nobody waits"),
    }
}

#[test]
fn advisory_lock_excludes_a_second_live_writer() {
    let p = tiered();
    let lock = Arc::new(Mutex::new(Lock::free()));

    let first = exclusive(&lock, object_cfg(&p)).unwrap();
    let Err(err) = exclusive(&lock, object_cfg(&p)) else {
        panic!("second open must be locked out");
    };
    assert!(err.to_string().contains("locked"), "{err}");
    assert!(first.store.core.holds_handle);

    drop(first);
    assert!(
        exclusive(&lock, object_cfg(&p)).is_ok(),
        "lock is reclaimable after the holder drops"
    );
}

#[test]
fn cluster_writer_lease_excludes_a_second_writer() {
    let p = tiered();
    let lock = Arc::new(Mutex::new(Lock::free()));
    let config = || object_cfg(&p).cluster(true);

    let first = exclusive(&lock, config()).unwrap();
    let Err(err) = exclusive(&lock, config()) else {
        panic!("second cluster writer must be locked out");
    };
    assert!(err.to_string().contains("locked"), "{err}");

    drop(first);
    assert!(
        exclusive(&lock, config()).is_ok(),
        "lease is reclaimable after the holder drops"
    );
}

// ---- what a refusal says -------------------------------------------------------------------

#[test]
fn every_refusal_has_its_text() {
    let texts = [
        (StoreError::ReadOnly, "the store was opened read-only"),
        (
            StoreError::Fenced,
            "writer lease lost: this writer was superseded and is fenced",
        ),
        (
            StoreError::VectorLength { got: 2, want: 3 },
            "vector length 2 does not match store dimension 3",
        ),
        (
            StoreError::QueryLength { got: 0, want: 10 },
            "query length 0 does not match store dimension 10",
        ),
        (
            StoreError::OverCap { bytes: 24, cap: 16 },
            "vectors of 24 bytes would exceed max_vector_bytes 16",
        ),
        (
            StoreError::Full,
            "the store has no room for another operation",
        ),
        (
            StoreError::FtsParams,
            "a full-text field needs a finite, non-negative k1 and a b in [0, 1]",
        ),
        (
            StoreError::SegmentIndexWithQuantization,
            "segment_index_min_rows and quantization cannot be combined",
        ),
        (
            StoreError::StoredDimension { stored: 3, want: 4 },
            "store dimension mismatch: manifest has 3, requested 4",
        ),
        (
            StoreError::StoredDistance {
                stored: Distance::Euclidean,
                want: Distance::Cosine,
            },
            "store distance metric mismatch: manifest has Euclidean, requested Cosine",
        ),
        (
            StoreError::SwappedDimension {
                stored: 3,
                opened: 4,
            },
            "store dimension mismatch on refresh: manifest has 3, store opened with 4",
        ),
        (
            StoreError::SwappedDistance {
                stored: Distance::DotProduct,
                opened: Distance::Cosine,
            },
            "store distance metric mismatch on refresh: manifest has DotProduct, store opened \
             with Cosine",
        ),
        (
            StoreError::NoHistory {
                version: 2,
                current: 5,
            },
            "version 2 is not readable: this store records no history (Config::history_versions \
             is off); only the current version 5 is readable",
        ),
        (
            StoreError::VersionAhead {
                version: 9,
                current: 4,
            },
            "version 9 does not exist yet: the store's current commit version is 4",
        ),
        (
            StoreError::VersionGone {
                version: 1,
                oldest: 3,
                current: 4,
            },
            "version 1 is no longer readable (its segments were reclaimed by a compaction, or it \
             was pruned): the oldest readable version is 3, current is 4",
        ),
        (
            StoreError::VersionUnrecorded {
                version: 1,
                oldest: 2,
                current: 4,
            },
            "version 1 is not readable: the oldest recorded version is 2, current is 4",
        ),
        (
            StoreError::VersionReclaimed {
                version: 2,
                rows: 1,
                expected: 5,
            },
            "version 2 is no longer readable (its segments were reclaimed by a compaction, or it \
             was pruned): the live segment set now holds 1 rows, fewer than the 5 this snapshot \
             expects",
        ),
        (StoreError::DamagedRows, "the stored segments are damaged"),
        (
            StoreError::PinnedWriter,
            "a handle that is pinned to a version cannot write",
        ),
        (
            StoreError::NotARefreshableReader,
            "refresh_to requires a durable ReadOnly store",
        ),
        (
            StoreError::Query(QueryFault::Decay(DecayFault::Scale(-3))),
            "invalid query option: Decay scale must be positive, got -3",
        ),
        (
            StoreError::Query(QueryFault::Decay(DecayFault::Scale(i64::MIN))),
            "invalid query option: Decay scale must be positive, got -9223372036854775808",
        ),
        (
            StoreError::Query(QueryFault::LimitPerMax),
            "invalid query option: limit_per max must be at least 1",
        ),
    ];
    for (e, text) in texts {
        assert_eq!(e.message(), text);
    }
}

#[test]
fn numbers_are_written_out_in_full() {
    for n in [0, 7, 10, 100, 65_536, u64::MAX] {
        assert_eq!(nidus::message::decimal(n), n.to_string());
    }
}

fn code(r: Result<Core, StoreError>) -> StoreError {
    r.map(|_| ()).unwrap_err()
}

fn opened(p: &Place, settings: Settings) -> Result<Core, StoreError> {
    let kernel = Single;
    p.edit(|d| Core::open(settings, d, None, 0, &kernel))
}

#[test]
fn each_open_is_refused_for_its_own_reason() {
    let p = tempdir();
    {
        let mut store = Store::open(Config::new(&p, 2).auto_compact(None)).unwrap();
        store.upsert("col", &[rec("a", vec![1.0, 0.0])]).unwrap();
    }
    let reader = Settings::new(2).open_mode(OpenMode::ReadOnly);
    assert_eq!(
        code(opened(&p, Settings::new(3))),
        StoreError::StoredDimension { stored: 2, want: 3 }
    );
    assert_eq!(
        code(opened(&p, Settings::new(2).distance(Distance::Euclidean))),
        StoreError::StoredDistance {
            stored: Distance::Cosine,
            want: Distance::Euclidean,
        }
    );
    assert_eq!(
        code(opened(&p, Settings::new(2).at_version(Some(1)))),
        StoreError::PinnedWriter
    );
    assert_eq!(
        code(opened(&p, reader.at_version(Some(7)))),
        StoreError::VersionAhead {
            version: 7,
            current: 1,
        }
    );
    assert_eq!(
        code(opened(&p, reader.at_version(Some(1)))),
        StoreError::NoHistory {
            version: 1,
            current: 1,
        }
    );
    assert_eq!(
        code(opened(&p, Settings::new(2).max_vector_bytes(Some(4)))),
        StoreError::OverCap { bytes: 8, cap: 4 }
    );
    let both = Settings::new(2)
        .quantization(Some(Quantization::int8()))
        .segment_index_min_rows(Some(8));
    assert_eq!(
        code(opened(&p, both)),
        StoreError::SegmentIndexWithQuantization
    );
    p.edit(|d| d.objects[0].rows[0].push(0));
    assert_eq!(code(opened(&p, Settings::new(2))), StoreError::DamagedRows);
}

#[test]
fn a_version_that_history_cannot_give_is_refused_for_its_own_reason() {
    let p = tempdir();
    let config = || {
        Config::new(&p, 2)
            .auto_compact(None)
            .history_versions(Some(10))
    };
    let mut w = Store::open(config()).unwrap();
    w.upsert("col", &[rec("a", vec![1.0, 0.0])]).unwrap();
    w.upsert("col", &[rec("b", vec![0.0, 1.0])]).unwrap();
    let current = w.data().version();
    let pinned = |v: u64| {
        opened(
            &p,
            Settings::new(2)
                .open_mode(OpenMode::ReadOnly)
                .at_version(Some(v)),
        )
    };
    assert_eq!(
        code(pinned(0)),
        StoreError::VersionUnrecorded {
            version: 0,
            oldest: p.edit(|d| d.history[0].version),
            current,
        }
    );
    assert_eq!(pinned(current).unwrap().get_all("col").len(), 2);
    let lost = p.edit(|d| d.objects[0].rows.pop()).unwrap();
    assert_eq!(
        code(pinned(current)),
        StoreError::VersionReclaimed {
            version: current,
            rows: 1,
            expected: 2,
        }
    );
    p.edit(|d| d.objects[0].rows.push(lost));
    w.compact().unwrap();
    assert_eq!(
        code(pinned(current)),
        StoreError::VersionGone {
            version: current,
            oldest: current + 1,
            current: current + 1,
        }
    );
}

#[test]
fn cluster_mode_needs_conditional_writes() {
    let p = place(Backend {
        native_lock: false,
        memory_tier: true,
        cas: false,
    });
    assert_eq!(
        code(opened(&p, Settings::new(2).cluster(true))),
        StoreError::ClusterNeedsCas
    );
}

#[test]
fn each_write_is_refused_for_its_own_reason() {
    let k = Single;
    let row = |v: &[f32]| [lowered_record(&rec("a", v.to_vec()))];
    let mut core = Core::in_memory_cfg(Settings::new(2).max_vector_bytes(Some(8)), 0).unwrap();
    assert_eq!(
        core.upsert("col", &row(&[1.0, 2.0, 3.0]), &k),
        Err(StoreError::VectorLength { got: 3, want: 2 })
    );
    core.upsert("col", &row(&[1.0, 0.0]), &k).unwrap();
    assert_eq!(
        core.upsert("col", &row(&[1.0, 0.0]), &k),
        Err(StoreError::OverCap { bytes: 16, cap: 8 })
    );
    let field = Declared::new("body").b(2.0f32.to_bits());
    assert_eq!(
        core.set_fts_schema("col", vec![field]),
        Err(StoreError::FtsParams)
    );
    core.fence();
    assert_eq!(core.delete("col", &["a"]), Err(StoreError::Fenced));
    assert_eq!(core.get_all("col").len(), 1, "a fenced handle still reads");
    let mut full = Core::in_memory(2).unwrap();
    full.version = u64::MAX - 1;
    assert_eq!(
        full.upsert("col", &row(&[1.0, 0.0]), &k),
        Err(StoreError::Full)
    );
    assert_eq!(
        full.refresh_to(&Disk::fresh(tempdir().edit(|d| d.backend)), 1, 0, &k),
        Err(StoreError::NotARefreshableReader)
    );
}

#[test]
fn a_query_of_the_wrong_length_names_both_lengths() {
    let core = Core::in_memory(3).unwrap();
    let k = Single;
    let h = Walker {
        core: &core,
        kernel: k,
        cancelled: false,
    };
    assert_eq!(
        core.search(&["col"], &bits(&[1.0]), &Request::default(), &k, &h),
        Err(StoreError::QueryLength { got: 1, want: 3 })
    );
}

// ---- writes read back ----------------------------------------------------------------------

#[test]
fn the_last_record_of_an_id_wins_within_a_batch() {
    let mut store = Store::in_memory_with(2, Distance::DotProduct).unwrap();
    store
        .upsert("col", &[rec("kept", vec![7.0, 7.0])])
        .unwrap();
    store
        .upsert(
            "col",
            &[
                rec("a", vec![1.0, 0.0]),
                rec("b", vec![0.0, 1.0]),
                rec_with("a", vec![2.0, 0.0], attrs_one("kind", "note")),
            ],
        )
        .unwrap();
    let a = store.get("col", "a").unwrap();
    assert_eq!(a.vector, Some(vec![2.0, 0.0]));
    assert_eq!(a.attrs, attrs_one("kind", "note"));
    assert_eq!(store.get("col", "b").unwrap().vector, Some(vec![0.0, 1.0]));
    assert_eq!(
        store.get("col", "kept").unwrap().vector,
        Some(vec![7.0, 7.0])
    );
    assert_eq!(store.dead_rows(), 1, "the first row of `a` is dead");
    store.drop_collection("col").unwrap();
    assert_eq!(store.get("col", "a"), None);
    assert_eq!(store.dead_rows(), 4, "no row is lost count of");
}

#[test]
fn a_cosine_store_keeps_the_direction_of_a_vector_alone() {
    let mut store = Store::in_memory(2).unwrap();
    store.upsert("col", &[rec("a", vec![3.0, 4.0])]).unwrap();
    assert_eq!(store.get("col", "a").unwrap().vector, Some(vec![0.6, 0.8]));
}

#[test]
fn compaction_changes_no_lookup_and_no_ranking() {
    let mut store = Store::in_memory(8).unwrap();
    let data = random_unit_vectors(60, 8, 41);
    let recs: Vec<Record> = data
        .iter()
        .enumerate()
        .map(|(i, v)| rec(&format!("d{i}"), v.clone()))
        .collect();
    store.upsert("col", &recs).unwrap();
    store.upsert("col", &recs[..20]).unwrap();
    store.delete("col", &["d30", "d31"]).unwrap();
    assert_eq!(store.dead_rows(), 22);
    let q = &random_unit_vectors(1, 8, 42)[0];
    let ranked = ranking(&store, q, 100);
    let all = store.get_all("col");
    store.compact().unwrap();
    assert_eq!(store.dead_rows(), 0);
    assert_eq!(store.data().row_count(), 58);
    assert_eq!(ranking(&store, q, 100), ranked);
    assert_eq!(store.get_all("col"), all);
}

#[test]
fn a_compaction_forgets_the_schemas_of_dropped_collections() {
    let mut store = Store::in_memory(2).unwrap();
    store.set_fts_schema("gone", &[FtsField::new("body")]).unwrap();
    store.set_fts_schema("here", &[FtsField::new("body")]).unwrap();
    store.drop_collection("gone").unwrap();
    store.compact().unwrap();
    assert!(store.fts().schema_for("gone").is_none());
    assert!(store.fts().schema_for("here").is_some());
}

#[test]
fn a_recall_leaves_what_it_does_not_stamp() {
    let mut store = Store::in_memory(2).unwrap();
    let mut attrs = attrs_one("kind", "note");
    attrs.insert(META_EXPIRES_AT.to_string(), Value::DateTime(500));
    store
        .upsert("col", &[rec_with("a", vec![1.0, 0.0], attrs)])
        .unwrap();
    assert_eq!(
        store
            .reinforce("col", &["a", "a"], 1_000, Some(-10))
            .unwrap(),
        2
    );
    let got = store.attrs_of("col", "a").unwrap();
    assert_eq!(got["kind"], Value::Str("note".to_string()));
    assert_eq!(got[META_ACCESS_COUNT], Value::Int(2));
    assert_eq!(
        got[META_EXPIRES_AT],
        Value::DateTime(500),
        "an expiry never moves back"
    );
}

#[test]
fn a_reopened_store_holds_what_was_saved() {
    let p = tempdir();
    let config = || {
        Config::new(&p, 2)
            .auto_compact(None)
            .segment_max_rows(Some(2))
    };
    let mut w = Store::open(config()).unwrap();
    for r in angled(5) {
        w.upsert("col", &[r]).unwrap();
    }
    w.delete("col", &["doc1"]).unwrap();
    let again = Store::open(config()).unwrap();
    assert_eq!(again.get_all("col"), w.get_all("col"));
    assert_eq!(again.data().segment_ranges(), w.data().segment_ranges());
    assert_eq!(again.data().version(), w.data().version());
    assert_eq!(again.dead_rows(), 1);
}

#[test]
fn caches_are_written_once_and_adopted() {
    let p = tempdir();
    let config = || Config::new(&p, 2).ann(Some(AnnConfig::hnsw()));
    {
        let mut w = Store::open(config()).unwrap();
        w.set_fts_schema("col", &[FtsField::new("body")]).unwrap();
        w.set_filter_index("col", &[FilterIndexField::new("body")])
            .unwrap();
        w.upsert("col", &[rec("a", vec![1.0, 0.0])]).unwrap();
        w.persist_index().unwrap();
    }
    p.edit(|d| {
        assert_eq!(d.log.len(), 3);
        let bytes = nidus::wire::log_size(&d.log);
        assert_eq!(d.ann.map(|a| (a.covered, a.dimension)), Some((1, 2)));
        assert_eq!(
            d.fts.map(|c| (c.watermark, c.dead, c.total)),
            Some((bytes, 0, 1))
        );
        assert_eq!(d.findex, Some(bytes));
    });
    let w = Store::open(config()).unwrap();
    assert_eq!(w.core.ann_saved, Some(1));
    assert_eq!(w.core.fts_saved, Some(3));
    assert_eq!(w.core.findex_saved, Some(3));
}

// ---- roles and leases ----------------------------------------------------------------------

#[test]
fn a_handle_reports_its_role() {
    let p = tiered();
    let writer = cluster_writer(&p);
    let status = writer.core.cluster_status(5_000);
    assert_eq!(status.role, Role::ClusterWriter);
    assert!(status.cluster && status.holds_writer_handle && !status.fenced);
    assert_eq!(status.lease_owner.as_deref(), Some("writer"));
    assert_eq!(writer.core.lease_renewer().unwrap().owner, "writer");
    assert_eq!(status.staleness_secs, 0, "a writer is never stale");
    let reader = cluster_reader(&p);
    let status = reader.core.cluster_status(5_999);
    assert_eq!(status.role, Role::ClusterReader);
    assert!(!status.holds_writer_handle);
    assert_eq!(status.staleness_secs, 5);
    assert!(reader.core.lease_renewer().is_none());
    let ready = reader.core.readiness();
    assert_eq!(ready.role(), Role::ClusterReader);
    assert!(!ready.fenced());
    assert_eq!(ready.staleness_secs(3_000), 3);
    let memory = Core::in_memory(2).unwrap();
    assert_eq!(memory.cluster_status(9_000).role, Role::InMemory);
    assert_eq!(memory.readiness().staleness_secs(9_000), 0);
}

#[test]
fn a_fenced_writer_no_longer_holds_its_handle() {
    let p = tiered();
    let mut writer = cluster_writer(&p);
    writer.core.fence();
    let status = writer.core.cluster_status(0);
    assert!(status.fenced && !status.holds_writer_handle);
    let err = writer
        .upsert("col", &[rec("a", vec![1.0, 0.0, 0.0])])
        .unwrap_err();
    assert!(err.to_string().contains("fenced"), "{err}");
}

#[test]
fn a_second_writer_takes_over_and_the_first_writes_no_more() {
    let p = tiered();
    let mut first = cluster_writer(&p);
    first
        .upsert("col", &[rec("a", vec![1.0, 0.0, 0.0])])
        .unwrap();
    let config = object_cfg(&p).cluster(true);
    let kernel = Single;
    let owner = Some("heir".to_string());
    let core = p
        .edit(|d| Core::open(config.settings, d, owner, 0, &kernel))
        .unwrap();
    let mut second = Store::wrap(core, Some(p.clone()));
    assert_eq!(p.edit(|d| d.holder.clone()).as_deref(), Some("heir"));
    second
        .upsert("col", &[rec("b", vec![0.0, 1.0, 0.0])])
        .unwrap();
    let before = p.edit(|d| d.token);
    assert!(first.flush().is_err());
    assert!(first.compact().is_err());
    assert!(first.core.fenced, "and it stays that way");
    assert_eq!(p.edit(|d| d.token), before, "nothing was written");
    assert_eq!(cluster_reader(&p).get_all("col").len(), 2);
}

#[test]
fn retuning_builds_no_index() {
    let mut plain = Core::in_memory(2).unwrap();
    plain.retune_ann(AnnConfig::ivf());
    assert_eq!(plain.config().ann, Some(AnnConfig::ivf()));
    assert!(!plain.ann);
    let mut tuned = Core::in_memory_cfg(Settings::new(2).ann(Some(AnnConfig::hnsw())), 0).unwrap();
    tuned.retune_ann(AnnConfig::hnsw().overscan(9));
    assert_eq!(tuned.config().ann, Some(AnnConfig::hnsw().overscan(9)));
    assert!(tuned.ann);
}

#[test]
fn a_claim_is_waited_for_as_the_settings_say() {
    let wait = |w: LeaseWait| Standby::new(&Settings::new(2).lock_ttl(8_000).lease_wait(w), 1_000);
    let mut fail = wait(LeaseWait::Fail);
    assert_eq!(fail.step(Claim::Taken, 1_000, 0), Wait::Proceed);
    assert_eq!(fail.step(Claim::Held, 1_000, 0), Wait::Locked);
    assert_eq!(fail.step(Claim::Failed, 1_000, 0), Wait::Fault);
    let mut timed = wait(LeaseWait::Timeout(500));
    assert_eq!(
        timed.step(Claim::Held, 1_499, 0),
        Wait::Retry(1_000_000_000),
        "an eighth of eight seconds"
    );
    assert_eq!(
        timed.step(Claim::Held, 1_499, 250_000_001),
        Wait::Retry(1_000_000_001),
        "the noise stays under a quarter of the pause"
    );
    assert_eq!(timed.step(Claim::Held, 1_500, 0), Wait::Locked);
    assert_eq!(timed.step(Claim::Failed, 1_499, 0), Wait::Retry(1_000_000_000));
    assert_eq!(
        timed.step(Claim::Held, 1_500, 0),
        Wait::Fault,
        "the failure is the reason"
    );
    let mut patient = wait(LeaseWait::Forever);
    for claim in [Claim::Held, Claim::Failed] {
        assert!(matches!(
            patient.step(claim, u64::MAX, 3),
            Wait::Retry(1_000_000_003)
        ));
    }
}

#[test]
fn the_pause_between_claims_is_bounded() {
    let pause = |ttl: u64| {
        let settings = Settings::new(2).lock_ttl(ttl).lease_wait(LeaseWait::Forever);
        match Standby::new(&settings, 0).step(Claim::Held, 0, 0) {
            Wait::Retry(n) => n,
            other => panic!("{other:?}"),
        }
    };
    assert_eq!(pause(0), 250_000_000);
    assert_eq!(pause(4_000), 500_000_000);
    assert_eq!(pause(u64::MAX), 2_000_000_000);
}

// ---- orders --------------------------------------------------------------------------------

#[test]
fn scores_rank_downward_with_no_number_last() {
    let ahead = |a: f32, b: f32| nidus::bits::is_ahead(a.to_bits(), b.to_bits());
    assert!(ahead(2.0, 1.0) && !ahead(1.0, 2.0));
    assert!(ahead(0.5, -3.0));
    assert!(!ahead(0.0, -0.0) && !ahead(-0.0, 0.0), "two zeros tie");
    assert!(ahead(f32::NEG_INFINITY, f32::NAN) && !ahead(f32::NAN, 1.0));
    assert!(!nidus::bits::less(f32::NAN.to_bits(), 0));
    assert!(nidus::bits::less((-1.0f32).to_bits(), 1.0f32.to_bits()));
    assert!(nidus::bits::finite(f32::MAX.to_bits()) && !nidus::bits::finite(f32::INFINITY.to_bits()));
}

#[test]
fn values_order_within_a_kind_alone() {
    let side = |a: &Value, b: &Value| nidus::value::value_side(&lowered(a), &lowered(b));
    assert_eq!(side(&Value::Int(1), &Value::Int(2)), Some(Side::Before));
    assert_eq!(
        side(&Value::Str("b".into()), &Value::Str("a".into())),
        Some(Side::After)
    );
    assert_eq!(
        side(&Value::DateTime(4), &Value::DateTime(4)),
        Some(Side::Same)
    );
    assert_eq!(side(&Value::Str("1".into()), &Value::Int(1)), None);
    assert_eq!(side(&Value::Null, &Value::Int(1)), None);
}

#[test]
fn a_glob_star_stands_for_any_run_of_characters() {
    let glob = nidus::value::glob_matches;
    assert!(glob("*.rs", "main.rs") && !glob("*.rs", "main.rc"));
    assert!(glob("a*b*c", "abc") && glob("a*b*c", "axxbyyc"));
    assert!(glob("*", "") && !glob("", "x") && glob("", ""));
}

#[test]
fn a_filter_holds_where_each_of_its_conditions_does() {
    let mut attrs: Attrs = Dict::new();
    attrs.insert("n".to_string(), Datum::Int(3));
    attrs.insert("path".to_string(), Datum::Str("src/a.rs".to_string()));
    let n = || "n".to_string();
    let holds = |p: Check| nidus::value::admits(&Condition(vec![p]), &attrs);
    assert!(holds(Check::Lt(n(), Datum::Int(4))) && !holds(Check::Lt(n(), Datum::Int(3))));
    assert!(holds(Check::Gt(n(), Datum::Int(2))) && !holds(Check::Gt(n(), Datum::Int(3))));
    assert!(holds(Check::In(n(), vec![Datum::Int(9), Datum::Int(3)])));
    assert!(!holds(Check::In(n(), vec![])));
    assert!(holds(Check::Glob("path".to_string(), "src/*".to_string())));
    assert!(!holds(Check::Glob(n(), "*".to_string())), "no text");
    assert!(!holds(Check::Eq("absent".to_string(), Datum::Null)));
    assert!(nidus::value::admits(&Condition(vec![]), &attrs));
}

// ---- the ranking's parts -------------------------------------------------------------------

#[test]
fn signs_are_packed_a_bit_a_component() {
    let v: Vec<f32> = (0..70).map(|i| if i % 2 == 0 { 1.0 } else { -1.0 }).collect();
    let code = nidus::quant::pack_signs(&bits(&v));
    assert_eq!(code, vec![0xAAAA_AAAA_AAAA_AAAA, 0b10_1010]);
    let other = nidus::quant::pack_signs(&bits(&vec![1.0; 70]));
    assert_eq!(nidus::quant::hamming(&code, &other), 35);
    assert_eq!(nidus::quant::hamming(&code, &code), 0);
}

#[test]
fn codes_are_near_by_product_or_by_distance() {
    let (a, b) = (vec![1i8, -2, 127], vec![3i8, 5, -128]);
    assert_eq!(nidus::quant::nearness(false, &a, &b), 3 - 10 - 127 * 128);
    assert_eq!(
        nidus::quant::nearness(true, &a, &b),
        -(4 + 49 + 255 * 255)
    );
}

#[test]
fn a_scan_is_split_evenly_and_merged_again() {
    assert_eq!(nidus::scoring::split(10, 4), vec![3, 6, 9, 10]);
    assert_eq!(nidus::scoring::split(2, 4), vec![1, 2]);
    assert!(nidus::scoring::split(0, 4).is_empty());
    let hit = |score: f32, id: &str| Scored {
        score: score.to_bits(),
        collection: "c".to_string(),
        id: id.to_string(),
    };
    let merged = nidus::scoring::merge(
        vec![
            vec![hit(0.9, "a"), hit(0.1, "d")],
            vec![hit(0.9, "b"), hit(0.5, "c")],
        ],
        3,
    );
    let ids: Vec<&str> = merged.iter().map(|s| s.id.as_str()).collect();
    assert_eq!(ids, ["a", "b", "c"]);
}

#[test]
fn a_page_is_cut_from_the_ranking() {
    assert_eq!(nidus::rank::cut(vec![1, 2, 3, 4, 5], 1, 2), vec![2, 3]);
    assert_eq!(nidus::rank::cut(vec![1, 2, 3], 2, 5), vec![3]);
    assert!(nidus::rank::cut(vec![1, 2, 3], 3, 5).is_empty());
    assert_eq!(nidus::rank::paginate(vec![1, 2, 3], 1), vec![2, 3]);
    let deep = SearchOpts {
        top_k: usize::MAX,
        offset: 3,
        ..Default::default()
    };
    assert_eq!(depth(&deep), usize::MAX, "a depth saturates");
}

#[test]
fn the_text_is_fetched_for_a_second_ranking_and_taken_out_again() {
    let opts = SearchOpts {
        top_k: 4,
        offset: 2,
        limit_per: Some(LimitPer::new("file", 1)),
        projection: Projection::only(["title"]),
        rerank: Some(RerankOpts::default()),
        ..Default::default()
    };
    let (wide, kept) = nidus::rerank::widened_opts(opts.lowered());
    assert!(!kept);
    assert_eq!(wide.top_k, rerank_depth(&opts));
    assert_eq!((wide.offset, wide.limit_per), (0, None));
    assert!(wide.projection.carries(META_TEXT) && wide.projection.carries("title"));
    let mut hits = lowered_hits(&[text_hit("c", "a", 1.0, Some("body"))]);
    nidus::rerank::retrim(&mut hits, &opts.lowered(), kept);
    assert!(!hits[0].attrs.contains_key(META_TEXT));
}

#[test]
fn an_offset_and_a_gap_are_stitched_differently() {
    let piece = |index: i64, text: &'static str, start: Option<i64>| Piece { index, text, start };
    let stitch = |w: Vec<Piece>| nidus::expand::stitch(&w);
    assert_eq!(
        stitch(vec![piece(0, "abcd", Some(0)), piece(1, "cdef", Some(2))]),
        Some("abcdef".to_string())
    );
    assert_eq!(
        stitch(vec![piece(0, "ab", None), piece(1, "cd", None)]),
        Some("ab\n\ncd".to_string())
    );
    assert_eq!(stitch(vec![]), None);
}

// ---- indexes that a host keeps -------------------------------------------------------------

/// A filter index over one attribute, and a clock that ticks at every look.
struct Ledger<'a> {
    core: &'a Core,
    field: &'a str,
    ticks: Mutex<u64>,
}

impl Host for Ledger<'_> {
    fn cancelled(&self) -> bool {
        false
    }

    fn now(&self) -> u64 {
        let mut t = self.ticks.lock().unwrap();
        *t += 10;
        *t
    }

    fn propose(&self, collection: &str, filter: &Condition) -> Option<Vec<String>> {
        let wanted = filter.0.iter().find_map(|p| match p {
            Check::Eq(f, v) if f == self.field => Some(v),
            _ => None,
        })?;
        let all = self.core.get_all(collection);
        Some(
            all.iter()
                .filter(|r| r.attrs.get(self.field) == Some(wanted))
                .map(|r| r.id.clone())
                .collect(),
        )
    }

    fn walk(&self, _ann: &AnnConfig, _query: &Vec<u32>, _n: usize) -> Vec<u64> {
        Vec::new()
    }

    fn walk_segment(&self, _segment: usize, _query: &Vec<u32>, _n: usize) -> Vec<u64> {
        Vec::new()
    }
}

#[test]
fn a_filter_index_narrows_a_scan_and_loses_nothing() {
    let mut store = Store::in_memory(2).unwrap();
    let recs: Vec<Record> = (0..40)
        .map(|i| {
            let kind = if i % 10 == 0 { "rare" } else { "common" };
            rec_with(
                &format!("d{i}"),
                vec![1.0, i as f32 * 0.01],
                attrs_one("kind", kind),
            )
        })
        .collect();
    store.upsert("col", &recs).unwrap();
    let opts = SearchOpts {
        top_k: 10,
        filter: rare_filter(),
        ..Default::default()
    };
    let run = |store: &Store| {
        let ledger = Ledger {
            core: &store.core,
            field: "kind",
            ticks: Mutex::new(0),
        };
        store
            .core
            .search_with_plan(
                &["col"],
                &bits(&[1.0, 0.0]),
                &opts.lowered(),
                &store.kernel,
                &ledger,
            )
            .unwrap()
    };
    let (whole, plan) = run(&store);
    assert_eq!(plan.narrowing, Narrowing::Inactive);
    store
        .set_filter_index("col", &[FilterIndexField::new("kind")])
        .unwrap();
    let (narrowed, plan) = run(&store);
    assert_eq!(plan.narrowing, Narrowing::Narrowed { candidates: 4 });
    assert_eq!(plan.rows_scanned, Some(4));
    assert!(plan.timings.total > 0 && plan.timings.score.is_some());
    assert_eq!(narrowed, whole);
}

/// A walk that names what it likes.
struct Whim(Vec<u64>);

impl Host for Whim {
    fn cancelled(&self) -> bool {
        false
    }

    fn now(&self) -> u64 {
        0
    }

    fn propose(&self, _collection: &str, _filter: &Condition) -> Option<Vec<String>> {
        None
    }

    fn walk(&self, _ann: &AnnConfig, _query: &Vec<u32>, _n: usize) -> Vec<u64> {
        self.0.clone()
    }

    fn walk_segment(&self, _segment: usize, _query: &Vec<u32>, _n: usize) -> Vec<u64> {
        Vec::new()
    }
}

#[test]
fn what_a_walk_names_is_checked_against_the_documents() {
    let mut store = ann_store(2, AnnConfig::hnsw(), &random_unit_vectors(40, 2, 51));
    store.upsert("other", &[rec("x", vec![1.0, 0.0])]).unwrap();
    store.delete("col", &["d1"]).unwrap();
    let opts = SearchOpts {
        top_k: 5,
        ..Default::default()
    };
    let (hits, plan) = store
        .core
        .search_with_plan(
            &["col"],
            &bits(&[1.0, 0.0]),
            &opts.lowered(),
            &store.kernel,
            &Whim(vec![0, 1, 2, 40, 9_999]),
        )
        .unwrap();
    let mut ids: Vec<&str> = hits.iter().map(|h| h.id.as_str()).collect();
    ids.sort_unstable();
    assert_eq!(ids, ["d0", "d2"]);
    let c = plan.candidates.unwrap();
    assert_eq!((c.surfaced, c.survived), (5, 2));
    assert_eq!((c.dropped_stale, c.dropped_out_of_scope), (2, 1));
}

// ---- text ----------------------------------------------------------------------------------

#[test]
fn suggestions_add_up_over_collections() {
    let mut store = Store::in_memory(2).unwrap();
    for c in ["a", "b"] {
        store.set_fts_schema(c, &[FtsField::new("body")]).unwrap();
        store.upsert(c, &[doc("x", "nidus nest")]).unwrap();
    }
    store.upsert("b", &[doc("y", "nidus")]).unwrap();
    let both = store.core.suggest(
        &["a", "b"],
        "body",
        "ni",
        &SuggestOpts::new(5),
        &store.reader(),
    )
    .unwrap();
    assert_eq!(both.matched, 1);
    assert_eq!(both.suggestions[0].term, "nidus");
    assert_eq!(both.suggestions[0].df, 3);
}

#[test]
fn a_misspelled_word_is_completed_where_asked() {
    let mut store = Store::in_memory(2).unwrap();
    store.set_fts_schema("docs", &[FtsField::new("body")]).unwrap();
    store.upsert("docs", &[doc("a", "nidus")]).unwrap();
    let ask = |fuzzy: bool| {
        let opts = SuggestOpts {
            fuzzy,
            ..SuggestOpts::new(5)
        };
        store
            .core
            .suggest(&["docs"], "body", "nidas", &opts, &store.reader())
            .unwrap()
    };
    assert!(ask(false).suggestions.is_empty());
    assert_eq!(ask(true).suggestions[0].term, "nidus");
}

#[test]
fn a_prefix_clause_reports_how_far_it_was_expanded() {
    let mut store = Store::in_memory(2).unwrap();
    store.set_fts_schema("docs", &[FtsField::new("body")]).unwrap();
    store
        .upsert("docs", &[doc("a", "nidus"), doc("b", "nidification")])
        .unwrap();
    let opts = SearchOpts {
        explain: true,
        ..Default::default()
    };
    let q = FtsQuery::multi([FtsClause::new("body", "nid").prefix()]);
    let hits = store.text_search(&["docs"], &q, &opts).unwrap();
    let notes = hits[0].annotations.as_ref().unwrap();
    assert_eq!(
        notes.clauses[0].expansion,
        Some(Expansion {
            matched: 2,
            scored: 2,
        })
    );
}

#[test]
fn a_fusion_keeps_every_result_of_both_legs() {
    let (store, vector, text) = golden_fixture();
    let fused = store
        .hybrid_search(&["docs"], &vector, &text, &HybridOpts::default())
        .unwrap();
    let mut want: HashSet<String> = HashSet::new();
    want.extend(ids(&store.search(&["docs"], &vector, &default_opts(100)).unwrap()));
    want.extend(ids(&store.text_search(&["docs"], &text, &default_opts(100)).unwrap()));
    let got: HashSet<String> = ids(&fused).into_iter().collect();
    assert_eq!(got.len(), fused.len(), "nothing comes twice");
    assert_eq!(got, want);
    assert_eq!(
        fused[0].score,
        1.0 / 61.0 + 1.0 / 62.0,
        "first by vector, second by text"
    );
}

#[test]
fn a_similar_query_reports_its_plan_and_the_same_hits() {
    let data = random_unit_vectors(20, 3, 1);
    let store = exact_store(3, &data);
    let opts = default_opts(5);
    let id = "d3";
    let want = store.search_similar(&["col"], "col", id, &opts).unwrap();
    let (hits, plan) = store
        .core
        .search_similar_with_plan(
            &["col"],
            "col",
            id,
            &opts.lowered(),
            &store.kernel,
            &store.walker(),
        )
        .unwrap();
    assert_eq!(ids(&lifted_hits(hits)), ids(&want));
    assert!(want.iter().all(|h| h.id != id), "the source is no result");
    assert_eq!(plan.path, QueryPath::Exact);
    assert_eq!(plan.rows_scanned, Some(20));
}

#[test]
fn a_fused_query_reports_the_plan_of_its_vector_leg() {
    let (store, vector, text) = golden_fixture();
    let opts = HybridOpts::default();
    let want = store.hybrid_search(&["docs"], &vector, &text, &opts).unwrap();
    let (hits, plan) = store
        .core
        .hybrid_search_with_plan(
            &["docs"],
            &bits(&vector),
            &text.0,
            opts.lowered(),
            &store.kernel,
            &store.walker(),
            &store.reader(),
        )
        .unwrap();
    assert_eq!(ids(&lifted_hits(hits)), ids(&want));
    assert_eq!(plan.path, QueryPath::Exact);
    assert_eq!(plan.rows_scanned, Some(store.core.rows.len() as u64));
}

#[test]
fn only_a_collection_with_a_text_schema_says_so() {
    let mut store = Store::in_memory(2).unwrap();
    store.set_fts_schema("docs", &[FtsField::new("body")]).unwrap();
    store.upsert("plain", &[doc("a", "nidus")]).unwrap();
    assert!(store.core.has_fts_schema("docs"));
    assert!(!store.core.has_fts_schema("plain"));
    assert!(!store.core.has_fts_schema("missing"));
}

#[test]
fn a_scan_is_split_only_where_it_is_worth_it() {
    let one = Store::in_memory_cfg(Config::new("mem", 1024)).unwrap();
    assert_eq!(one.core.parallel_workers(1_000_000), 1);
    let four = Store::in_memory_cfg(Config::new("mem", 1024).query_threads(4)).unwrap();
    assert_eq!(four.core.parallel_workers(1023), 1);
    assert_eq!(four.core.parallel_workers(1024), 4);
    assert_eq!(four.core.parallel_workers(usize::MAX), 4);
}

#[test]
fn a_copy_that_does_not_fit_the_metric_is_refused_before_anything_is_written() {
    let settings = Settings::new(2)
        .distance(Distance::DotProduct)
        .quantization(Some(Quantization::binary()));
    let p = tempdir();
    for mode in [OpenMode::ReadOnly, OpenMode::ReadWrite] {
        let e = opened(&p, settings.open_mode(mode)).map(|_| ()).unwrap_err();
        assert!(matches!(e, StoreError::BinaryNeedsCosine));
        p.edit(|d| assert!(d.manifest.is_none() && d.token == 0));
    }
    assert!(opened(&p, settings.quantization(None)).is_ok());
}

#[test]
fn a_query_by_example_names_the_record_it_cannot_use() {
    let mut store = Store::in_memory(2).unwrap();
    store.upsert("docs", &[doc("a", "nidus")]).unwrap();
    let opts = default_opts(5);
    let missing = store.search_similar(&["docs"], "docs", "b", &opts);
    assert_eq!(
        missing.unwrap_err().to_string(),
        "invalid query option: no record `b` in collection `docs`"
    );
    let bare = store.search_similar(&["docs"], "docs", "a", &opts);
    assert_eq!(
        bare.unwrap_err().to_string(),
        "invalid query option: record `docs/a` is text-only and has no vector to search with"
    );
    assert_eq!(StoreError::Fenced.about("docs", "a"), StoreError::Fenced.message());
}

#[test]
fn a_store_that_was_swapped_is_not_adopted() {
    let p = tempdir();
    {
        let mut store = Store::open(Config::new(&p, 2)).unwrap();
        store.upsert("col", &[rec("a", vec![1.0, 0.0])]).unwrap();
    }
    let reader = Settings::new(2).open_mode(OpenMode::ReadOnly);
    let mut r = opened(&p, reader).unwrap();
    let kernel = Single;
    p.edit(|d| {
        d.manifest.as_mut().unwrap().dimension = 3;
        assert_eq!(
            r.refresh(d, 1, &kernel).unwrap_err(),
            StoreError::SwappedDimension {
                stored: 3,
                opened: 2,
            }
        );
        let m = d.manifest.as_mut().unwrap();
        m.dimension = 2;
        m.distance = Distance::Euclidean;
        assert_eq!(
            r.refresh(d, 1, &kernel).unwrap_err(),
            StoreError::SwappedDistance {
                stored: Distance::Euclidean,
                opened: Distance::Cosine,
            }
        );
    });
    assert_eq!(r.get_all("col").len(), 1, "the handle stays where it was");
}

#[test]
fn a_batch_written_twice_reads_like_once() {
    let mut store = Store::in_memory(2).unwrap();
    let batch = [rec("a", vec![3.0, 4.0]), rec("b", vec![0.0, 2.0])];
    store.upsert("col", &batch).unwrap();
    let once: Vec<_> = ["a", "b"].map(|id| store.get("col", id).unwrap().vector).into();
    store.upsert("col", &batch).unwrap();
    let twice: Vec<_> = ["a", "b"].map(|id| store.get("col", id).unwrap().vector).into();
    assert_eq!(once, twice);
    assert_eq!(store.get_all("col").len(), 2);
    assert_eq!(store.core.rows.len(), 4);
    assert_eq!(store.core.index.dead_rows, 2, "the first rows are dead");
}

#[test]
fn a_crash_in_a_batch_loses_no_more_than_the_batch() {
    let p = tempdir();
    {
        let mut store = Store::open(Config::new(&p, 2).auto_compact(None)).unwrap();
        store.upsert("col", &[rec("a", vec![1.0, 0.0])]).unwrap();
        store
            .upsert("col", &[rec("a", vec![0.0, 1.0]), rec("b", vec![0.0, 1.0])])
            .unwrap();
    }
    let full = p.edit(|d| d.clone());
    let read = |log: usize, rows: usize| {
        let torn = tempdir();
        torn.edit(|d| {
            *d = full.clone();
            d.log.truncate(log);
            d.objects[0].rows.truncate(rows);
        });
        let core = opened(&torn, Settings::new(2).auto_compact(None)).unwrap();
        Store::wrap(core, Some(torn))
    };
    let n = full.log.len();
    for rows in 1..=3 {
        let store = read(n - 2, rows);
        assert_eq!(store.get("col", "a").unwrap().vector, Some(vec![1.0, 0.0]));
        assert!(store.get("col", "b").is_none());
    }
    let store = read(n - 1, 3);
    assert_eq!(store.get("col", "a").unwrap().vector, Some(vec![0.0, 1.0]));
    assert!(store.get("col", "b").is_none());
    let store = read(n, 2);
    assert_eq!(store.get("col", "a").unwrap().vector, Some(vec![0.0, 1.0]));
    assert!(store.get("col", "b").is_none(), "its row was not written");
}

#[test]
fn two_scopes_merge_into_the_ranking_of_both() {
    let mut store = Store::in_memory(3).unwrap();
    let data = random_unit_vectors(30, 3, 5);
    for (i, v) in data.iter().enumerate() {
        let col = if i % 2 == 0 { "even" } else { "odd" };
        store.upsert(col, &[rec(&format!("d{i}"), v.clone())]).unwrap();
    }
    let q = random_unit_vectors(1, 3, 6).pop().unwrap();
    let opts = default_opts(7);
    let both = store.search(&["even", "odd"], &q, &opts).unwrap();
    let mut merged = store.search(&["even"], &q, &opts).unwrap();
    merged.extend(store.search(&["odd"], &q, &opts).unwrap());
    merged.sort_by(|a, b| b.score.total_cmp(&a.score));
    merged.truncate(7);
    assert_eq!(ids(&both), ids(&merged));
}

#[test]
fn an_exact_search_finds_every_neighbour() {
    let data = random_unit_vectors(40, 3, 8);
    let store = exact_store(3, &data);
    let q = random_unit_vectors(1, 3, 9).pop().unwrap();
    let mut want: Vec<(f32, String)> = data
        .iter()
        .enumerate()
        .map(|(i, v)| (v.iter().zip(&q).map(|(x, y)| x * y).sum(), format!("d{i}")))
        .collect();
    want.sort_by(|a, b| b.0.total_cmp(&a.0));
    let got = ids(&store.search(&["col"], &q, &default_opts(40)).unwrap());
    assert_eq!(got.len(), 40);
    assert_eq!(got[0], want[0].1);
    assert_eq!(got[39], want[39].1);
}

#[test]
fn a_sweep_deletes_what_passes_from_every_collection() {
    let mut store = Store::in_memory(2).unwrap();
    let attrs = |n: i64| BTreeMap::from([("n".to_string(), Value::Int(n))]);
    for c in ["a", "b"] {
        let records: Vec<Record> = (0..4)
            .map(|i| rec_with(&format!("{c}{i}"), vec![1.0, i as f32], attrs(i)))
            .collect();
        store.upsert(c, &records).unwrap();
    }
    store.create_collection("empty").unwrap();
    let filter = Filter(vec![Predicate::Le("n".to_string(), Value::Int(2))]);
    assert_eq!(store.delete_where_all(&filter).unwrap(), 6);
    assert_eq!(store.get_all("a").len(), 1);
    assert!(store.get("b", "b3").is_some());
    assert_eq!(store.core.index.dead_rows, 6);
    assert_eq!(store.delete_where_all(&filter).unwrap(), 0);
    let settings = Settings::new(2).open_mode(OpenMode::ReadOnly);
    let mut reader = Core::in_memory_cfg(settings, 0).unwrap();
    assert!(matches!(
        reader.delete_where_all(&filter.lowered()),
        Err(StoreError::ReadOnly)
    ));
}

// ---- scopes, metrics and undoing ------------------------------------------------------------

fn top(k: usize) -> SearchOpts {
    SearchOpts {
        top_k: k,
        ..SearchOpts::default()
    }
}

fn found_ids(hits: &[Hit]) -> Vec<String> {
    hits.iter().map(|h| h.id.clone()).collect()
}

/// Two collections of which the first is asked for.
fn two_collections() -> Store {
    let mut store = Store::in_memory(2).unwrap();
    for c in ["a", "b"] {
        store.set_fts_schema(c, &[FtsField::new("body")]).unwrap();
        let r = rec_with(
            &format!("{c}1"),
            vec![1.0, 0.0],
            BTreeMap::from([("body".to_string(), Value::Str("nidus nest".to_string()))]),
        );
        store.upsert(c, &[r]).unwrap();
    }
    store
}

#[test]
fn a_vector_search_is_over_the_union_of_what_is_named() {
    let store = two_collections();
    let scope = ["a", "a"];
    let hits = store.search(&scope, &[1.0, 0.0], &top(10)).unwrap();
    assert_eq!(hits.len(), 1);
    assert_eq!((hits[0].collection.as_str(), hits[0].id.as_str()), ("a", "a1"));
}

#[test]
fn what_goes_from_name_to_name_takes_a_name_twice() {
    let store = two_collections();
    let scope = ["a", "a"];
    let text = store
        .text_search(&scope, &FtsQuery::new("body", "nidus"), &top(10))
        .unwrap();
    let ids: Vec<&str> = text.iter().map(|h| h.id.as_str()).collect();
    assert_eq!(ids, vec!["a1", "a1"]);
    let listed = store.core.list(&scope, &ListRequest::default()).unwrap();
    assert_eq!(listed.len(), 2);
    let counted = store.core.aggregate(&scope, &Totals::default(), &store.kernel);
    assert_eq!(counted.count, 2);
    let done = store
        .core
        .suggest(&scope, "body", "ni", &SuggestOpts::new(5), &store.reader())
        .unwrap();
    assert_eq!((done.matched, done.suggestions[0].df), (1, 2));
}

#[test]
fn suggestions_come_by_count_and_then_by_letters() {
    let mut store = Store::in_memory(1).unwrap();
    for c in ["a", "b"] {
        store.set_fts_schema(c, &[FtsField::new("body")]).unwrap();
    }
    let put = |store: &mut Store, c: &str, id: &str, text: &str| {
        let attrs = BTreeMap::from([("body".to_string(), Value::Str(text.to_string()))]);
        store.upsert(c, &[rec_with(id, vec![1.0], attrs)]).unwrap();
    };
    put(&mut store, "a", "1", "nest nidus nickel");
    put(&mut store, "a", "2", "nidus");
    put(&mut store, "b", "1", "nest nickel night");
    put(&mut store, "b", "2", "nidus");
    let ask = |limit: usize| {
        store
            .core
            .suggest(&["a", "b"], "body", "n", &SuggestOpts::new(limit), &store.reader())
            .unwrap()
    };
    let all = ask(9);
    let told: Vec<(&str, usize)> = all.suggestions.iter().map(|x| (x.term.as_str(), x.df)).collect();
    assert_eq!(told, vec![("nidus", 3), ("nest", 2), ("nickel", 2), ("night", 1)]);
    assert_eq!((all.matched, ask(2).matched), (4, 4));
    assert_eq!(ask(2).suggestions, all.suggestions[..2]);
}

#[test]
fn floats_are_added_up_before_the_integers_are() {
    let mut store = Store::in_memory(1).unwrap();
    let put = |store: &mut Store, id: &str, x: Value| {
        let attrs = BTreeMap::from([("n".to_string(), x)]);
        store.upsert("col", &[rec_with(id, vec![1.0], attrs)]).unwrap();
    };
    put(&mut store, "a", Value::Int(1 << 53));
    put(&mut store, "b", Value::Float(1.0));
    put(&mut store, "c", Value::Float(1.0));
    let out = store.aggregate(
        &["col"],
        &AggregateOpts {
            sum: vec!["n".to_string()],
            ..Default::default()
        },
    );
    assert_eq!(out.sums["n"], Value::Float(9_007_199_254_740_994.0));
}

#[test]
fn a_refresh_after_a_long_run_reads_as_a_fresh_open() {
    let p = tempdir();
    let config = || Config::new(&p, 2).segment_max_rows(Some(2));
    let mut w = Store::open(config()).unwrap();
    let reader = || Store::open(config().open_mode(OpenMode::ReadOnly)).unwrap();
    let mut r = reader();
    for step in 0..12 {
        let id = format!("d{step}");
        w.upsert("col", &[rec(&id, vec![1.0, step as f32])]).unwrap();
        if step % 5 == 3 {
            w.delete("col", &["d1", "d2"]).unwrap();
            w.compact().unwrap();
        }
        if step % 3 == 1 {
            w.flush().unwrap();
        }
        if step % 2 == 0 {
            assert!(r.refresh().unwrap(), "step {step}");
            assert!(!r.refresh().unwrap());
            let fresh = reader();
            assert_eq!(r.core.rows, fresh.core.rows);
            assert_eq!(r.core.segments, fresh.core.segments);
            assert_eq!(r.core.index, fresh.core.index);
            let (a, b) = (
                r.search(&["col"], &[1.0, 3.0], &top(20)).unwrap(),
                fresh.search(&["col"], &[1.0, 3.0], &top(20)).unwrap(),
            );
            let ids = |hits: &[Hit]| hits.iter().map(|h| h.id.clone()).collect::<Vec<_>>();
            assert_eq!(ids(&a), ids(&b));
        }
    }
}

#[test]
fn the_metric_decides_which_row_is_nearest() {
    let ranked = |distance: Distance| {
        let mut store = Store::in_memory_with(2, distance).unwrap();
        store
            .upsert(
                "col",
                &[rec("far", vec![9.0, 0.0]), rec("near", vec![1.0, 1.0])],
            )
            .unwrap();
        store
            .search(&["col"], &[1.0, 0.5], &top(2))
            .unwrap()
    };
    let dot = ranked(Distance::DotProduct);
    assert_eq!((dot[0].id.as_str(), dot[0].score), ("far", 9.0));
    assert_eq!((dot[1].id.as_str(), dot[1].score), ("near", 1.5));
    let gap = ranked(Distance::Euclidean);
    assert_eq!((gap[0].id.as_str(), gap[0].score), ("near", -0.25));
    assert_eq!((gap[1].id.as_str(), gap[1].score), ("far", -64.25));
    let cosine = ranked(Distance::Cosine);
    assert_eq!(cosine[0].id, "near");
}

#[test]
fn a_search_by_a_record_is_one_by_its_vector() {
    let mut store = Store::in_memory(2).unwrap();
    store
        .upsert(
            "col",
            &[
                rec("a", vec![1.0, 0.0]),
                rec("b", vec![0.8, 0.6]),
                rec("c", vec![0.0, 1.0]),
            ],
        )
        .unwrap();
    let by_vector = store
        .search(&["col"], &[0.8, 0.6], &top(3))
        .unwrap();
    let by_record = store
        .search_similar(&["col"], "col", "b", &top(2))
        .unwrap();
    let others: Vec<_> = by_vector.iter().filter(|h| h.id != "b").map(|h| (&h.id, h.score)).collect();
    let found: Vec<_> = by_record.iter().map(|h| (&h.id, h.score)).collect();
    assert_eq!(found, others);
    assert_eq!(found.len(), 2);
}

#[test]
fn a_walk_is_tuned_as_the_config_says() {
    let asked = AnnConfig::ivf().n_probe(1).overscan(2);
    assert_eq!((asked.n_probe, asked.overscan, asked.ef_search), (1, 2, None));
    assert_eq!(AnnConfig::hnsw().ef_search(99).ef_search, Some(99));
    assert_eq!(AnnConfig::ivf().n_probe, 8);
    let data = random_unit_vectors(200, 8, 7);
    let exact = |store: &Store, q: &[f32]| -> Vec<String> {
        let opts = SearchOpts {
            exact: true,
            ..top(10)
        };
        found_ids(&store.search(&["col"], q, &opts).unwrap())
    };
    let recall = |probes: usize| -> usize {
        let store = ann_store(8, AnnConfig::ivf().n_probe(probes), &data);
        data.iter()
            .take(20)
            .map(|q| {
                let want = exact(&store, q);
                let got = found_ids(&store.search(&["col"], q, &top(10)).unwrap());
                got.iter().filter(|id| want.contains(id)).count()
            })
            .sum()
    };
    let (narrow, wide) = (recall(1), recall(15));
    assert_eq!(wide, 200, "every list is read");
    assert!(narrow < wide, "one list is not all of them: {narrow}");
}

#[test]
fn a_malformed_filter_is_refused_by_a_completion() {
    let store = two_collections();
    let opts = SuggestOpts {
        filter: Condition(vec![Check::In("kind".to_string(), Vec::new())]),
        ..SuggestOpts::new(5)
    };
    let refused = store.core.suggest(&["a"], "body", "ni", &opts, &store.reader());
    let err = refused.unwrap_err();
    assert_eq!(err, StoreError::Query(QueryFault::Filter));
    assert!(err.message().starts_with(BAD_QUERY), "{}", err.message());
}

#[test]
fn fewer_completions_are_the_first_ones() {
    let mut store = Store::in_memory(2).unwrap();
    store.set_fts_schema("docs", &[FtsField::new("body")]).unwrap();
    store
        .upsert(
            "docs",
            &[
                doc("a", "nidus nidification"),
                doc("b", "nidus niche"),
                doc("c", "nidus"),
            ],
        )
        .unwrap();
    let ask = |limit: usize, fuzzy: bool| {
        let opts = SuggestOpts {
            fuzzy,
            ..SuggestOpts::new(limit)
        };
        store
            .core
            .suggest(&["docs"], "body", "ni", &opts, &store.reader())
            .unwrap()
    };
    let all = ask(10, false);
    assert_eq!(all.matched, 3);
    assert_eq!(all.suggestions[0].term, "nidus");
    let two = ask(2, false);
    assert_eq!(two.matched, 3);
    assert_eq!(two.suggestions, all.suggestions[..2]);
    assert_eq!(ask(10, true), all, "a word begins with it, so no near one is looked for");
    assert_eq!(ask(0, false).suggestions.len(), 0);
}

#[test]
fn passages_are_cut_as_the_query_asks() {
    let store = two_collections();
    let query = |max: Option<usize>| {
        FtsQuery::new("body", "nidus").highlight(HighlightOpts {
            max_fragments: max,
            fragment_chars: None,
        })
    };
    let shown = |max: Option<usize>| {
        let hits = store
            .text_search(&["a"], &query(max), &top(1))
            .unwrap();
        hits[0].annotations.as_ref().unwrap().highlights.len()
    };
    assert_eq!(shown(None), 1);
    assert_eq!(shown(Some(0)), 0);
    assert_eq!(HighlightOpts::default().max_fragments, None);
}

#[test]
fn a_count_is_as_long_as_the_listing() {
    let mut store = two_collections();
    store
        .upsert("a", &[rec("a2", vec![0.0, 1.0]), rec("a3", vec![1.0, 1.0])])
        .unwrap();
    let scope = ["a", "b", "missing", "a"];
    let listed = store.core.list(
        &scope,
        &ListRequest {
            limit: usize::MAX,
            ..ListRequest::default()
        },
    )
    .unwrap();
    let counted = store.core.aggregate(&scope, &Totals::default(), &store.kernel);
    assert_eq!(counted.count, 7);
    assert_eq!(listed.len(), 7);
}

#[test]
fn a_rollback_gives_back_the_store() {
    for quantization in [None, Some(Quantization::default())] {
        let settings = Settings::new(2)
            .quantization(quantization)
            .segment_max_rows(Some(2));
        let kernel = Single;
        let mut store = Core::in_memory_cfg(settings, 0).unwrap();
        let put = |store: &mut Core, id: &str, v: Vec<f32>| {
            let r = lowered_record(&rec(id, v));
            store.upsert("col", &[r], &kernel).unwrap();
        };
        put(&mut store, "a", vec![1.0, 0.0]);
        put(&mut store, "b", vec![0.0, 1.0]);
        let before = store.clone();
        let at = store.savepoint();
        put(&mut store, "a", vec![0.0, 1.0]);
        put(&mut store, "c", vec![1.0, 1.0]);
        put(&mut store, "d", vec![1.0, 1.0]);
        store.delete("col", &["b"]).unwrap();
        store.rollback(at, &kernel);
        assert_eq!(store.rows, before.rows);
        assert_eq!(store.log.len(), before.log.len());
        assert_eq!(store.segments, before.segments);
        assert_eq!(store.next_segment, before.next_segment);
        assert_eq!(store.version, before.version);
        assert_eq!(store.quant, before.quant);
        assert_eq!(store.index.dead_rows, before.index.dead_rows);
        for id in ["a", "b", "c", "d"] {
            assert_eq!(
                store.get("col", id).map(|r| r.vector),
                before.get("col", id).map(|r| r.vector)
            );
        }
        assert_eq!(store.get("col", "a").unwrap().vector, Some(bits(&[1.0, 0.0])));
    }
}

#[test]
fn a_barrier_that_failed_is_still_owed() {
    let mut b = Barrier::new();
    assert!(!b.due());
    assert!(b.appended(), "a write outside a group takes its own");
    assert!(b.due(), "until it came through");
    b.covered();
    assert!(!b.due());
    let outer = b.begin_deferred();
    let inner = b.begin_deferred();
    assert!(!b.appended());
    b.end_deferred(inner);
    assert!(!b.appended(), "the outer group is still open");
    b.end_deferred(outer);
    assert!(b.due());
    assert!(b.appended());
}

#[test]
fn readable_versions_ascend_from_the_oldest() {
    let p = tempdir();
    let mut store = Store::open(Config::new(&p, 2).history_versions(Some(3))).unwrap();
    for i in 0..6u32 {
        store
            .upsert("col", &[rec(&format!("d{i}"), vec![1.0, i as f32])])
            .unwrap();
    }
    let versions = p.edit(|d| store.core.versions(d));
    assert_eq!(versions.readable.len(), 3);
    assert!(versions.readable.windows(2).all(|w| w[0] < w[1]));
    assert_eq!(versions.oldest_readable, Some(versions.readable[0]));
    assert_eq!(versions.commit_version, versions.readable[2]);
}

#[test]
fn a_footprint_holds_what_the_filter_index_takes_up() {
    let store = Core::in_memory(4).unwrap();
    assert_eq!(store.footprint(123).filter_index_bytes, 123);
}

#[test]
fn a_locked_store_says_so() {
    assert_eq!(
        StoreError::Locked.message(),
        "store is locked by another writer"
    );
}

#[test]
fn a_split_has_no_more_pieces_than_workers() {
    let scan: Vec<NamedItem> = (0..7).map(|i| named(i, "col", &format!("r{}", i / 2), 0)).collect();
    for workers in 2..9 {
        let ends = nidus::scoring::record_aligned_split(&scan, workers);
        assert!(ends.len() <= workers, "{ends:?} over {workers}");
        assert_eq!(*ends.last().unwrap(), 7);
    }
}

#[test]
fn no_two_documents_share_a_row() {
    let mut store = Store::in_memory(2).unwrap();
    let rows = |store: &Store| -> Vec<u64> {
        let cols = &store.core.index.collections;
        let mut rows: Vec<u64> = (0..cols.len())
            .flat_map(|i| {
                let docs = &cols.value_at(i).docs;
                (0..docs.len()).filter_map(|j| docs.value_at(j).row).collect::<Vec<u64>>()
            })
            .collect();
        rows.sort_unstable();
        rows
    };
    for c in ["a", "b"] {
        for i in 0..4 {
            let r = rec(&format!("d{i}"), vec![1.0, i as f32]);
            store.upsert(c, &[r.clone()]).unwrap();
            store.upsert(c, &[r]).unwrap();
        }
    }
    assert_eq!(rows(&store), vec![1, 3, 5, 7, 9, 11, 13, 15]);
    store.delete("a", &["d1"]).unwrap();
    assert_eq!(rows(&store), vec![1, 5, 7, 9, 11, 13, 15]);
    store.compact().unwrap();
    assert_eq!(rows(&store), vec![0, 1, 2, 3, 4, 5, 6]);
}

#[test]
fn what_was_flushed_is_read_by_a_new_open() {
    let p = tiered();
    let mut w = Store::open(object_cfg(&p)).unwrap();
    w.create_collection("empty").unwrap();
    w.set_meta("col", BTreeMap::from([("k".to_string(), "v".to_string())]))
        .unwrap();
    w.upsert("col", &[rec("a", vec![1.0, 0.0, 0.0]), rec("b", vec![0.0, 2.0, 0.0])])
        .unwrap();
    w.delete("col", &["a"]).unwrap();
    w.flush().unwrap();
    let r = Store::open(object_cfg(&p).open_mode(OpenMode::ReadOnly)).unwrap();
    assert_eq!(r.collections(), w.collections());
    assert_eq!(r.get_meta("col"), w.get_meta("col"));
    let (was, is) = (w.get_all("col"), r.get_all("col"));
    assert_eq!(is.len(), 1);
    assert_eq!(is[0].id, was[0].id);
    assert_eq!(is[0].vector, was[0].vector);
    assert_eq!(is[0].vector, Some(vec![0.0, 1.0, 0.0]));
}

// ---- a handle that is probed from outside --------------------------------------------------

#[test]
fn a_probe_taken_before_shows_a_fencing_and_a_refresh() {
    let p = tiered();
    let mut writer = cluster_writer(&p);
    let probe = writer.core.readiness();
    assert!(!probe.fenced());
    writer.core.fence();
    assert!(probe.fenced() && writer.core.cluster_status(0).fenced);
    assert_eq!(probe.staleness_secs(90_000), 0, "a writer is never stale");

    let mut reader = cluster_reader(&p);
    let probe = reader.core.readiness();
    assert_eq!(probe.staleness_secs(60_000), 60);
    let d = p.fetched(&reader.core);
    assert!(!reader.core.refresh(&d, 60_000, &Single).unwrap());
    assert_eq!(probe.staleness_secs(60_000), 0);
    assert_eq!(probe.staleness_secs(65_000), 5);
    assert_eq!(reader.core.cluster_status(65_000).staleness_secs, 5);
}

#[test]
fn a_lease_lost_in_the_background_stops_the_writer() {
    let p = tiered();
    let mut writer = cluster_writer(&p);
    writer.create_collection("col").unwrap();
    let probe = writer.core.readiness();
    let renewer = writer.core.lease_renewer().unwrap();
    renewer.lost();
    assert!(probe.fenced());
    let status = writer.core.cluster_status(0);
    assert!(status.fenced && !status.holds_writer_handle);
    writer.core.heed();
    let err = writer.create_collection("other").unwrap_err();
    assert!(err.to_string().contains("fenced"), "{err}");
}

#[test]
fn a_store_in_memory_counts_from_when_it_was_made() {
    let settings = Settings::new(2).open_mode(OpenMode::ReadOnly);
    let store = Core::in_memory_cfg(settings, 5_000).unwrap();
    assert_eq!(store.cluster_status(5_000).staleness_secs, 0);
    assert_eq!(store.cluster_status(9_000).staleness_secs, 4);
    assert_eq!(store.readiness().staleness_secs(9_000), 0);
}

// ---- what is read, and what is left alone --------------------------------------------------

#[test]
fn a_refresh_keeps_its_own_rows_of_sealed_segments() {
    let p = tempdir();
    let config = || Config::new(&p, 2).segment_max_rows(Some(2));
    let mut w = Store::open(config()).unwrap();
    for (i, id) in ["a", "b", "c"].iter().enumerate() {
        w.upsert("col", &[rec(id, vec![1.0, i as f32])]).unwrap();
    }
    let reader = || Store::open(config().open_mode(OpenMode::ReadOnly)).unwrap();
    let (mut honest, mut misled) = (reader(), reader());
    w.upsert("col", &[rec("d", vec![0.0, 1.0])]).unwrap();
    let live = p.edit(|d| d.manifest.as_ref().unwrap().segments.clone());
    assert_eq!(honest.core.segments_to_fetch(&live), vec![1]);
    assert_eq!(honest.core.segments_to_fetch(&vec![0, 1, 2]), vec![0, 1, 2]);
    // What the sealed segment holds elsewhere decides nothing.
    let mut other = p.edit(|d| d.clone());
    other.objects.iter_mut().find(|o| o.id == 0).unwrap().rows.clear();
    assert!(misled.core.refresh(&other, 0, &Single).unwrap());
    assert!(honest.core.refresh(&p.edit(|d| d.clone()), 0, &Single).unwrap());
    assert_eq!(honest.core.rows, misled.core.rows);
    assert_eq!(honest.core.segments, misled.core.segments);
    assert_eq!(honest.get_all("col").len(), 4);
    assert_eq!(reader().core.rows, honest.core.rows, "a fresh open reads the same");
}

#[test]
fn a_refused_refresh_leaves_the_reader_as_it_was() {
    let p = tempdir();
    let mut w = Store::open(Config::new(&p, 2)).unwrap();
    w.upsert("col", &[rec("a", vec![1.0, 0.0])]).unwrap();
    let capped = Config::new(&p, 2)
        .open_mode(OpenMode::ReadOnly)
        .max_vector_bytes(Some(8));
    let mut r = Store::open(capped).unwrap();
    w.upsert("col", &[rec("b", vec![0.0, 1.0])]).unwrap();
    assert!(r.refresh().is_err());
    assert_eq!(r.get_all("col").len(), 1);
    assert_eq!(r.core.rows.len(), 1);
}

#[test]
fn an_index_cached_for_something_else_is_built_anew() {
    let p = tempdir();
    let config = |c: Config| Config::new(&p, 2).ann(c.settings.ann).quantization(c.settings.quantization);
    let plain = || Config::new(&p, 2);
    let saved = |c: Config| Store::open(config(c)).unwrap().core.ann_saved;
    {
        let mut w = Store::open(plain().ann(Some(AnnConfig::hnsw()))).unwrap();
        w.upsert("col", &[rec("a", vec![1.0, 0.0])]).unwrap();
        w.persist_index().unwrap();
    }
    assert_eq!(saved(plain().ann(Some(AnnConfig::hnsw()))), Some(1));
    let tuned = AnnConfig {
        ef_search: Some(9),
        overscan: 7,
        ..AnnConfig::hnsw()
    };
    assert_eq!(saved(plain().ann(Some(tuned))), Some(1), "only a query goes by these");
    assert_eq!(saved(plain().ann(Some(AnnConfig::ivf()))), None);
    let coded = plain()
        .ann(Some(AnnConfig::hnsw()))
        .quantization(Some(Quantization::int8()));
    assert_eq!(saved(coded.clone()), None);
    // A cache that does not count is written again.
    let mut w = Store::open(coded.clone()).unwrap();
    w.persist_index().unwrap();
    assert_eq!(saved(coded), Some(1));
    assert_eq!(saved(plain().ann(Some(AnnConfig::hnsw()))), None);
}

#[test]
fn a_log_is_as_long_as_its_bytes() {
    let create = |c: &str| Op::CreateCollection {
        collection: c.to_string(),
    };
    assert_eq!(nidus::wire::log_size(&vec![]), 0);
    assert_eq!(nidus::wire::log_size(&vec![create("a")]), 21);
    assert_eq!(nidus::wire::log_size(&vec![create("\u{e9}")]), 22);
    let mut attrs: Attrs = Dict::new();
    attrs.insert("k".to_string(), Datum::Int(7));
    let put = Op::Upsert {
        collection: "c".to_string(),
        id: "id".to_string(),
        row: 0,
        attrs,
    };
    // frame 12, collection 9, id 10, row 8, and one attribute 8 + 9 + 12
    assert_eq!(nidus::wire::log_size(&vec![create("a"), put]), 21 + 68);

    // Two logs of one operation each are not taken for one another.
    let tier = tiered();
    tier.edit(|d| {
        d.log = vec![create("a")];
        d.tier = Some(Snapshot {
            dimension: 3,
            distance: Distance::Cosine,
            watermark: 21,
            rows: 0,
            index: nidus::index::replay_ops(vec![create("a")], 0),
        });
        assert!(nidus::disk::try_adopt(&Settings::new(3), d, 0).is_some());
        d.log = vec![create("bbbb")];
        assert!(nidus::disk::try_adopt(&Settings::new(3), d, 0).is_none());
    });
}

// ---- a log ahead of its rows ---------------------------------------------------------------

#[test]
fn a_lost_row_is_not_taken_for_the_next_one() {
    let p = tempdir();
    {
        let mut w = Store::open(Config::new(&p, 2).history_versions(Some(9))).unwrap();
        w.upsert("col", &[rec("a", vec![1.0, 0.0])]).unwrap();
        w.flush().unwrap();
        w.upsert("col", &[rec("lost", vec![0.0, 1.0])]).unwrap();
    }
    p.edit(|d| d.objects.iter_mut().find(|o| o.id == 0).unwrap().rows.truncate(1));
    let kept = p.edit(|d| d.history.iter().map(|e| (e.version, e.rows, e.ops)).collect::<Vec<_>>());
    // A reader passes over the operation and leaves it where it is.
    let r = Store::open(Config::new(&p, 2).open_mode(OpenMode::ReadOnly)).unwrap();
    assert_eq!(r.get_all("col").len(), 1);
    let before = p.edit(|d| d.log.len());
    let mut w = Store::open(Config::new(&p, 2).history_versions(Some(9))).unwrap();
    assert_eq!(p.edit(|d| d.log.len()), before - 1);
    let recounted = p.edit(|d| d.history.iter().map(|e| e.ops).collect::<Vec<_>>());
    assert!(recounted.iter().all(|ops| *ops <= before as u64 - 1), "{kept:?} {recounted:?}");
    w.upsert("col", &[rec("new", vec![0.0, 2.0])]).unwrap();
    w.flush().unwrap();
    let r = Store::open(Config::new(&p, 2).open_mode(OpenMode::ReadOnly)).unwrap();
    let ids: Vec<String> = r.get_all("col").into_iter().map(|r| r.id).collect();
    assert_eq!(ids, vec!["a".to_string(), "new".to_string()]);
    assert_eq!(w.get_all("col").len(), 2);
    let first = kept[0].0;
    let old = Store::open(
        Config::new(&p, 2)
            .open_mode(OpenMode::ReadOnly)
            .at_version(Some(first)),
    )
    .unwrap();
    assert_eq!(old.get_all("col").len(), kept[0].1 as usize);
}

#[test]
fn a_compaction_publishes_what_it_leaves() {
    let p = tiered();
    let mut w = Store::open(object_cfg(&p)).unwrap();
    w.upsert("col", &[rec("a", vec![1.0, 0.0, 0.0])]).unwrap();
    w.upsert("col", &[rec("a", vec![0.0, 1.0, 0.0])]).unwrap();
    w.flush().unwrap();
    w.compact().unwrap();
    p.edit(|d| {
        let t = d.tier.as_ref().unwrap();
        assert_eq!((t.rows, t.watermark), (1, nidus::wire::log_size(&d.log)));
        assert!(nidus::disk::try_adopt(&Settings::new(3), d, 1).is_some());
    });
}

// ---- refusals, words and pieces ------------------------------------------------------------

#[test]
fn a_search_by_a_record_refuses_a_malformed_cap_and_spread() {
    let mut store = Store::in_memory(2).unwrap();
    store
        .upsert("col", &[rec("a", vec![1.0, 0.0]), rec("b", vec![1.0, 0.1])])
        .unwrap();
    let refused = |opts: SearchOpts| {
        store
            .search_similar(&["col"], "col", "a", &opts)
            .expect_err("malformed")
            .to_string()
    };
    let mut capped = default_opts(2);
    capped.limit_per = Some(LimitPer {
        field: "k".to_string(),
        max: 0,
    });
    assert!(refused(capped).contains(BAD_QUERY));
    let mut spread = default_opts(2);
    spread.diversity = Some(2.0);
    assert!(refused(spread).contains(BAD_QUERY));
    assert_eq!(
        store
            .search_similar(&["col"], "col", "a", &default_opts(2))
            .unwrap()
            .len(),
        1
    );
}

#[test]
fn a_page_is_a_cut_of_the_full_listing() {
    let mut store = Store::in_memory(2).unwrap();
    let recs: Vec<Record> = (0..7).map(|i| rec(&format!("d{i}"), vec![1.0, 0.0])).collect();
    store.upsert("col", &recs).unwrap();
    let list = |offset: usize, limit: usize| -> Vec<String> {
        let opts = ListRequest {
            offset,
            limit,
            ..ListRequest::default()
        };
        let hits = store.core.list(&["col"], &opts).unwrap();
        hits.into_iter().map(|h| h.id).collect()
    };
    let full = list(0, usize::MAX);
    assert_eq!(full.len(), 7);
    for (o, l) in [(0usize, 3usize), (2, 3), (5, 3), (7, 3), (9, 1), (3, usize::MAX - 3)] {
        let from = o.min(7);
        let to = o.saturating_add(l).min(7);
        assert_eq!(list(o, l), full[from..to].to_vec());
    }
}

#[test]
fn words_are_compared_whole_and_without_case() {
    let has = |text: &str, wanted: &str| nidus::token::holds_words(text, wanted);
    assert!(has("Hello, World!", "world hello"));
    assert!(!has("hello world", "hell"));
    assert!(has("na\u{ef}ve caf\u{e9}", "caf\u{e9}"));
    assert!(has("anything", " - "));
    assert!(!has("", "a"));
    let p = Check::ContainsAllTokens("body".to_string(), "b a".to_string());
    let mut attrs: Attrs = Dict::new();
    assert!(!nidus::value::predicate_holds(&p, &attrs));
    attrs.insert("body".to_string(), Datum::Str("A-B".to_string()));
    assert!(nidus::value::predicate_holds(&p, &attrs));
    attrs.insert("body".to_string(), Datum::Int(1));
    assert!(!nidus::value::predicate_holds(&p, &attrs));
}

#[test]
fn a_search_scored_in_pieces_is_the_search() {
    let config = Config::new("memory", 1024)
        .open_mode(OpenMode::ReadWrite)
        .query_threads(3);
    let mut store = Store::in_memory_cfg(config).unwrap();
    let recs: Vec<Record> = (0..1100)
        .map(|i| {
            let mut v = vec![0.0; 1024];
            v[0] = 1.0;
            v[1] = (i % 37) as f32;
            rec(&format!("d{i}"), v)
        })
        .collect();
    store.upsert("col", &recs).unwrap();
    let mut q = vec![0.0; 1024];
    q[0] = 1.0;
    let q = bits(&q);
    let opts = default_opts(9).lowered();
    let watch = Watch::default();
    let job = store
        .core
        .scan_job(&["col"], &q, &opts, &Single, &watch)
        .unwrap()
        .expect("the work is worth three workers");
    assert_eq!((job.scan.len(), job.ends.len()), (1100, 3));
    let depth = nidus::rank::depth(&opts);
    let mut from = 0;
    let mut locals = Vec::new();
    for to in &job.ends {
        let piece = store
            .core
            .score_chunk(&job.query, &job.scan, from, *to, &opts, depth, &Single, &watch);
        locals.push(piece);
        from = *to;
    }
    let ranked = nidus::fanout::merge_workers(locals, depth).unwrap();
    let hits = store.core.finish_job(ranked, &opts, &Single);
    let whole = store.core.search(&["col"], &q, &opts, &Single, &watch).unwrap();
    assert_eq!(hits, whole);
    // A single thread has no pieces, and a bad query has none either.
    let small = Core::in_memory(1024).unwrap();
    assert!(matches!(small.scan_job(&["col"], &q, &opts, &Single, &watch), Ok(None)));
    assert!(small.scan_job(&["col"], &vec![0], &opts, &Single, &watch).is_err());
}

#[test]
fn every_path_that_scans_looks_whether_it_is_wanted() {
    let stop = Watch {
        stop: true,
        ..Watch::default()
    };
    let search = |config: Config, exact: bool, filled: bool| {
        let mut store = Store::in_memory_cfg(config).unwrap();
        store.create_collection("col").unwrap();
        if filled {
            store.upsert("col", &[rec("a", vec![1.0, 0.0])]).unwrap();
        }
        let mut opts = default_opts(3).lowered();
        opts.exact = exact;
        store.core.search(&["col"], &bits(&[1.0, 0.0]), &opts, &Single, &stop)
    };
    let plain = || Config::new("memory", 2).open_mode(OpenMode::ReadWrite);
    let coded = || plain().quantization(Some(Quantization::int8()));
    let walked = || plain().ann(Some(AnnConfig::hnsw()));
    assert!(matches!(search(plain(), false, true), Err(StoreError::Cancelled)));
    assert!(matches!(search(coded(), false, true), Err(StoreError::Cancelled)));
    assert!(matches!(search(walked(), true, true), Err(StoreError::Cancelled)));
    assert!(search(walked(), false, true).is_ok(), "a walk scans nothing");
    assert!(search(plain(), false, false).is_ok(), "there is nothing to scan");
}

// ---- the writer handle ---------------------------------------------------------------------

#[test]
fn a_handle_is_held_until_it_lapses_or_is_given_back() {
    let mut lock = Lock::free();
    assert_eq!(lock.claim("one", 1_000, 500), Claim::Taken);
    assert_eq!(lock.claim("two", 1_499, 500), Claim::Held);
    assert_eq!(lock.owner.as_deref(), Some("one"));
    assert!(!lock.renew("two", 1_200, 500) && lock.renew("one", 1_200, 500));
    assert_eq!(lock.until, 1_700);
    lock.release("two");
    assert_eq!(lock.claim("two", 1_699, 500), Claim::Held);
    assert_eq!(lock.claim("two", 1_700, 500), Claim::Taken);
    assert!(!lock.renew("one", 1_701, 500), "it has gone to somebody else");
    lock.release("two");
    assert_eq!(lock.claim("one", 1_702, u64::MAX), Claim::Taken);
    assert_eq!(lock.until, u64::MAX);
    let reader = Settings::new(2).open_mode(OpenMode::ReadOnly);
    assert!(nidus::claim::asks(&Settings::new(2)) && !nidus::claim::asks(&reader));
}
