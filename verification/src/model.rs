//! Records, hits, and the options of a query.

use vstd::prelude::*;

use crate::dict::{dup_all, opt_view, views, Dict, Dup};
use crate::order::same;
use crate::value::{Attrs, AttrsV, Filter};

verus! {

/// The attribute that holds a record's text.
pub const META_TEXT: &'static str = "nidus.text";

/// The attribute that names the document a chunk was cut from.
pub const META_PARENT_ID: &'static str = "nidus.parent_id";

/// The attribute that holds a chunk's position within its document.
pub const META_CHUNK_INDEX: &'static str = "nidus.chunk_index";

/// The attribute that holds the character offset at which a chunk starts.
pub const META_CHAR_START: &'static str = "nidus.char_start";

// ── Records ─────────────────────────────────────────────────────────────────

/// A record as a caller writes and reads it. A vector holds `f32` bit patterns; a text-only
/// record has none.
#[derive(Clone, Debug, PartialEq)]
pub struct Record {
    pub id: String,
    pub vector: Option<Vec<u32>>,
    pub attrs: Attrs,
}

/// What a [`Record`] holds.
pub ghost struct RecordV {
    pub id: Seq<char>,
    pub vector: Option<Seq<u32>>,
    pub attrs: AttrsV,
}

pub open spec fn vec_view(v: Option<Vec<u32>>) -> Option<Seq<u32>> {
    match v {
        Some(x) => Some(x@),
        None => None,
    }
}

impl View for Record {
    type V = RecordV;

    open spec fn view(&self) -> RecordV {
        RecordV { id: self.id@, vector: vec_view(self.vector), attrs: self.attrs@ }
    }
}

impl Record {
    pub fn new(id: &str, vector: Vec<u32>, attrs: Attrs) -> (r: Record)
        ensures
            r@ == (RecordV { id: id@, vector: Some(vector@), attrs: attrs@ }),
    {
        Record { id: id.to_owned(), vector: Some(vector), attrs }
    }

    pub fn text_only(id: &str, attrs: Attrs) -> (r: Record)
        ensures
            r@ == (RecordV { id: id@, vector: None, attrs: attrs@ }),
    {
        Record { id: id.to_owned(), vector: None, attrs }
    }
}

/// Copy a bit-pattern vector.
pub fn dup_bits(v: &Vec<u32>) -> (out: Vec<u32>)
    ensures
        out@ == v@,
{
    let mut out: Vec<u32> = Vec::new();
    let mut i: usize = 0;
    while i < v.len()
        invariant
            i <= v@.len(),
            out@ == v@.take(i as int),
        decreases v@.len() - i,
    {
        out.push(v[i]);
        i = i + 1;
        proof {
            assert(v@.take(i as int) =~= v@.take(i - 1).push(v@[i - 1]));
        }
    }
    proof {
        assert(v@.take(i as int) =~= v@);
    }
    out
}

// ── Hits ────────────────────────────────────────────────────────────────────

/// A leg's rank of a document, from 0, and the score it gave.
#[derive(Clone, Copy, Debug, PartialEq, Eq, Structural)]
pub struct LegScore {
    pub rank: usize,
    pub score: u32,
}

/// How many terms a prefix matched, and how many of them were scored.
#[derive(Clone, Copy, Debug, PartialEq, Eq, Structural)]
pub struct Expansion {
    pub matched: usize,
    pub scored: usize,
}

/// One matched clause's own score.
#[derive(Clone, Debug, PartialEq)]
pub struct ClauseScore {
    pub field: String,
    pub score: u32,
    pub expansion: Option<Expansion>,
}

/// What a [`ClauseScore`] holds.
pub ghost struct ClauseScoreV {
    pub field: Seq<char>,
    pub score: u32,
    pub expansion: Option<Expansion>,
}

impl View for ClauseScore {
    type V = ClauseScoreV;

    open spec fn view(&self) -> ClauseScoreV {
        ClauseScoreV { field: self.field@, score: self.score, expansion: self.expansion }
    }
}

impl Dup for ClauseScore {
    fn dup(&self) -> (r: Self) {
        ClauseScore { field: self.field.dup(), score: self.score, expansion: self.expansion }
    }
}

/// How passages are cut: how many of a field at most, and how long. The index goes by its own
/// where nothing is asked for.
#[derive(Clone, Copy, Debug, PartialEq, Eq, Structural)]
pub struct HighlightOpts {
    pub max_fragments: Option<usize>,
    pub fragment_chars: Option<usize>,
}

impl Default for HighlightOpts {
    fn default() -> (r: Self)
        ensures
            r == (HighlightOpts { max_fragments: None, fragment_chars: None }),
    {
        HighlightOpts { max_fragments: None, fragment_chars: None }
    }
}

/// A passage of a text, and where in it the matched words stand, in bytes.
#[derive(Clone, Debug, PartialEq)]
pub struct Fragment {
    pub text: String,
    pub spans: Vec<(usize, usize)>,
}

/// What a [`Fragment`] holds.
pub ghost struct FragmentV {
    pub text: Seq<char>,
    pub spans: Seq<(usize, usize)>,
}

impl View for Fragment {
    type V = FragmentV;

    open spec fn view(&self) -> FragmentV {
        FragmentV { text: self.text@, spans: self.spans@ }
    }
}

impl Dup for Fragment {
    fn dup(&self) -> (r: Self) {
        let mut spans: Vec<(usize, usize)> = Vec::new();
        let mut i: usize = 0;
        while i < self.spans.len()
            invariant
                i <= self.spans@.len(),
                spans@ == self.spans@.take(i as int),
            decreases self.spans@.len() - i,
        {
            spans.push(self.spans[i]);
            proof {
                assert(spans@ =~= self.spans@.take(i + 1));
            }
            i = i + 1;
        }
        proof {
            assert(self.spans@.take(i as int) =~= self.spans@);
        }
        Fragment { text: self.text.dup(), spans }
    }
}

/// The passages of one field that a query matched.
#[derive(Clone, Debug, PartialEq)]
pub struct Highlight {
    pub field: String,
    pub fragments: Vec<Fragment>,
}

/// What a [`Highlight`] holds.
pub ghost struct HighlightV {
    pub field: Seq<char>,
    pub fragments: Seq<FragmentV>,
}

impl View for Highlight {
    type V = HighlightV;

    open spec fn view(&self) -> HighlightV {
        HighlightV { field: self.field@, fragments: views(self.fragments@) }
    }
}

impl Dup for Highlight {
    fn dup(&self) -> (r: Self) {
        Highlight { field: self.field.dup(), fragments: dup_all(&self.fragments) }
    }
}

/// What explains a hit: the legs that ranked it, the clauses it matched, the passages.
#[derive(Clone, Debug, PartialEq)]
pub struct Annotations {
    pub vector: Option<LegScore>,
    pub text: Option<LegScore>,
    pub clauses: Vec<ClauseScore>,
    pub highlights: Vec<Highlight>,
}

/// What [`Annotations`] hold.
pub ghost struct AnnotationsV {
    pub vector: Option<LegScore>,
    pub text: Option<LegScore>,
    pub clauses: Seq<ClauseScoreV>,
    pub highlights: Seq<HighlightV>,
}

impl View for Annotations {
    type V = AnnotationsV;

    open spec fn view(&self) -> AnnotationsV {
        AnnotationsV {
            vector: self.vector,
            text: self.text,
            clauses: views(self.clauses@),
            highlights: views(self.highlights@),
        }
    }
}

impl Dup for Annotations {
    fn dup(&self) -> (r: Self) {
        Annotations {
            vector: self.vector,
            text: self.text,
            clauses: dup_all(&self.clauses),
            highlights: dup_all(&self.highlights),
        }
    }
}

pub open spec fn ann_view(a: Option<Annotations>) -> Option<AnnotationsV> {
    match a {
        Some(x) => Some(x@),
        None => None,
    }
}

/// One result. `score` is an `f32` bit pattern.
#[derive(Clone, Debug, PartialEq)]
pub struct Hit {
    pub collection: String,
    pub id: String,
    pub score: u32,
    pub attrs: Attrs,
    pub context: Option<String>,
    pub annotations: Option<Annotations>,
}

/// What a [`Hit`] holds.
pub ghost struct HitV {
    pub collection: Seq<char>,
    pub id: Seq<char>,
    pub score: u32,
    pub attrs: AttrsV,
    pub context: Option<Seq<char>>,
    pub annotations: Option<AnnotationsV>,
}

impl View for Hit {
    type V = HitV;

    open spec fn view(&self) -> HitV {
        HitV {
            collection: self.collection@,
            id: self.id@,
            score: self.score,
            attrs: self.attrs@,
            context: opt_view(self.context),
            annotations: ann_view(self.annotations),
        }
    }
}

/// A hit without context or annotations.
pub open spec fn bare_hit(collection: Seq<char>, id: Seq<char>, score: u32, attrs: AttrsV) -> HitV {
    HitV { collection, id, score, attrs, context: None, annotations: None }
}

impl Hit {
    pub fn new(collection: &str, id: &str, score: u32, attrs: Attrs) -> (r: Hit)
        ensures
            r@ == bare_hit(collection@, id@, score, attrs@),
    {
        Hit {
            collection: collection.to_owned(),
            id: id.to_owned(),
            score,
            attrs,
            context: None,
            annotations: None,
        }
    }
}

// ── Projections ─────────────────────────────────────────────────────────────

/// Which attributes a hit carries.
#[derive(Clone, Debug, PartialEq)]
pub enum Projection {
    All,
    Include(Vec<String>),
    Exclude(Vec<String>),
}

/// The projection keeps the attribute `k`.
pub open spec fn keeps(p: Projection, k: Seq<char>) -> bool {
    match p {
        Projection::All => true,
        Projection::Include(keys) => views(keys@).contains(k),
        Projection::Exclude(keys) => !views(keys@).contains(k),
    }
}

/// The attributes that the projection keeps.
pub open spec fn project(p: Projection, attrs: AttrsV) -> AttrsV {
    Map::new(|k: Seq<char>| attrs.contains_key(k) && keeps(p, k), |k: Seq<char>| attrs[k])
}

/// Whether `key` is among `keys`.
pub fn listed(keys: &Vec<String>, key: &str) -> (r: bool)
    ensures
        r == views(keys@).contains(key@),
{
    let mut i: usize = 0;
    while i < keys.len()
        invariant
            i <= keys@.len(),
            forall|j: int| 0 <= j < i ==> (#[trigger] keys@[j])@ != key@,
        decreases keys@.len() - i,
    {
        if same(keys[i].as_str(), key) {
            proof {
                assert(views(keys@)[i as int] == key@);
            }
            return true;
        }
        i = i + 1;
    }
    proof {
        if views(keys@).contains(key@) {
            let j = choose|j: int| 0 <= j < views(keys@).len() && views(keys@)[j] == key@;
            assert(keys@[j]@ == key@);
        }
    }
    false
}

impl Projection {
    /// Whether the attribute `key` is kept.
    pub fn carries(&self, key: &str) -> (r: bool)
        ensures
            r == keeps(*self, key@),
    {
        match self {
            Projection::All => true,
            Projection::Include(keys) => listed(keys, key),
            Projection::Exclude(keys) => !listed(keys, key),
        }
    }

    /// The attributes that are kept.
    pub fn apply(&self, attrs: &Attrs) -> (out: Attrs)
        ensures
            out@ == project(*self, attrs@),
    {
        let mut out: Attrs = Dict::new();
        let n: usize = attrs.len();
        let ghost e = attrs.entries();
        let mut i: usize = 0;
        while i < n
            invariant
                i <= n,
                n == e.len(),
                e == attrs.entries(),
                crate::dict::ascending(e),
                attrs@ == crate::dict::to_map(e),
                forall|k: Seq<char>|
                    #[trigger] out@.contains_key(k) <==> keeps(*self, k) && exists|j: int|
                        0 <= j < i && (#[trigger] e[j]).0 == k,
                forall|k: Seq<char>| #[trigger]
                    out@.contains_key(k) ==> attrs@.contains_key(k) && out@[k] == attrs@[k],
            decreases n - i,
        {
            proof {
                crate::dict::to_map_at(e, i as int);
            }
            let ghost before = out@;
            if self.carries(attrs.key_at(i).as_str()) {
                let _ = out.insert(attrs.key_at(i).dup(), attrs.value_at(i).dup());
            }
            proof {
                assert forall|k: Seq<char>|
                    #[trigger] out@.contains_key(k) <==> keeps(*self, k) && exists|j: int|
                        0 <= j < i + 1 && (#[trigger] e[j]).0 == k by {
                    if k == e[i as int].0 {
                        assert(e[i as int].0 == k);
                    }
                    if before.contains_key(k) {
                        let j = choose|j: int| 0 <= j < i && (#[trigger] e[j]).0 == k;
                        assert(e[j].0 == k);
                    }
                }
            }
            i = i + 1;
        }
        proof {
            assert forall|k: Seq<char>| out@.contains_key(k) == project(
                *self,
                attrs@,
            ).contains_key(k) by {
                if attrs@.contains_key(k) {
                    assert(crate::dict::has_key(e, k));
                }
            }
            assert(out@ =~= project(*self, attrs@));
        }
        out
    }
}

// ── Query options ───────────────────────────────────────────────────────────

/// Distance metric: which way a larger score means a nearer record.
#[derive(Clone, Copy, Debug, PartialEq, Eq, Structural)]
pub enum Distance {
    Cosine,
    DotProduct,
    Euclidean,
}

/// A cap on how many hits may carry one value of `field`.
#[derive(Clone, Debug, PartialEq)]
pub struct LimitPer {
    pub field: String,
    pub max: usize,
}

impl LimitPer {
    pub fn new(field: &str, max: usize) -> (r: LimitPer)
        ensures
            r.field@ == field@,
            r.max == max,
    {
        LimitPer { field: field.to_owned(), max }
    }
}

/// Widen each hit by the `radius` chunks on either side of it.
#[derive(Clone, Debug, PartialEq)]
pub struct Expand {
    pub radius: u32,
    pub parent_field: String,
    pub index_field: String,
    pub text_field: String,
}

impl Expand {
    pub fn new(radius: u32) -> (r: Expand)
        ensures
            r.radius == radius,
            r.parent_field@ == META_PARENT_ID@,
            r.index_field@ == META_CHUNK_INDEX@,
            r.text_field@ == META_TEXT@,
    {
        Expand {
            radius,
            parent_field: META_PARENT_ID.to_owned(),
            index_field: META_CHUNK_INDEX.to_owned(),
            text_field: META_TEXT.to_owned(),
        }
    }
}

/// Recency and recall decay: what a record's age, and how rarely it was recalled, cost its
/// score. `decay`, `lambda`, `missing`, `count_scale` and `count_lambda` are `f32` bit patterns.
#[derive(Clone, Debug, PartialEq)]
pub struct Decay {
    pub field: String,
    pub origin: i64,
    pub scale: i64,
    pub decay: u32,
    pub lambda: u32,
    pub missing: u32,
    pub count_field: Option<String>,
    pub count_scale: u32,
    pub count_lambda: u32,
}

impl Decay {
    /// Half the score's penalty at one `scale` of age, weight one, no penalty for a record
    /// without a timestamp.
    pub fn new(field: &str, origin: i64, scale: i64) -> (r: Decay)
        ensures
            r.field@ == field@,
            r.origin == origin,
            r.scale == scale,
            r.decay == 0x3f00_0000u32,
            r.lambda == crate::bits::ONE,
            r.missing == crate::bits::ONE,
            r.count_field is None,
            r.count_scale == 0x4120_0000u32,
            r.count_lambda == crate::bits::ONE,
    {
        Decay {
            field: field.to_owned(),
            origin,
            scale,
            decay: 0x3f00_0000u32,
            lambda: crate::bits::ONE,
            missing: crate::bits::ONE,
            count_field: None,
            count_scale: 0x4120_0000u32,
            count_lambda: crate::bits::ONE,
        }
    }

    pub fn decay(self, decay: u32) -> (r: Decay)
        ensures
            r == (Decay { decay, ..self }),
    {
        Decay { decay, ..self }
    }

    pub fn lambda(self, lambda: u32) -> (r: Decay)
        ensures
            r == (Decay { lambda, ..self }),
    {
        Decay { lambda, ..self }
    }

    pub fn missing(self, missing: u32) -> (r: Decay)
        ensures
            r == (Decay { missing, ..self }),
    {
        Decay { missing, ..self }
    }

    pub fn count_field(self, field: &str) -> (r: Decay)
        ensures
            opt_view(r.count_field) == Some(field@),
            r == (Decay { count_field: r.count_field, ..self }),
    {
        Decay { count_field: Some(field.to_owned()), ..self }
    }

    pub fn count_scale(self, count_scale: u32) -> (r: Decay)
        ensures
            r == (Decay { count_scale, ..self }),
    {
        Decay { count_scale, ..self }
    }

    pub fn count_lambda(self, count_lambda: u32) -> (r: Decay)
        ensures
            r == (Decay { count_lambda, ..self }),
    {
        Decay { count_lambda, ..self }
    }
}

/// A ranking expression over the base score.
#[derive(Clone, Debug, PartialEq)]
pub enum RankBy {
    Decay(Decay),
}

/// Order a listing by one attribute.
#[derive(Clone, Debug, PartialEq)]
pub struct OrderBy {
    pub field: String,
    pub descending: bool,
}

impl OrderBy {
    pub fn asc(field: &str) -> (r: OrderBy)
        ensures
            r.field@ == field@,
            !r.descending,
    {
        OrderBy { field: field.to_owned(), descending: false }
    }

    pub fn desc(field: &str) -> (r: OrderBy)
        ensures
            r.field@ == field@,
            r.descending,
    {
        OrderBy { field: field.to_owned(), descending: true }
    }
}

/// A second ranking of an over-fetched page by an outside model.
#[derive(Clone, Debug, PartialEq)]
pub struct RerankOpts {
    pub overscan: usize,
    pub text_attr: String,
}

impl Default for RerankOpts {
    fn default() -> (r: Self)
        ensures
            r.overscan == 5,
            r.text_attr@ == META_TEXT@,
    {
        RerankOpts { overscan: 5, text_attr: META_TEXT.to_owned() }
    }
}

/// The options of a search. `min_score` and `diversity` are `f32` bit patterns.
#[derive(Clone, Debug, PartialEq)]
pub struct SearchOpts {
    pub top_k: usize,
    pub offset: usize,
    pub filter: Filter,
    pub min_score: Option<u32>,
    pub limit_per: Option<LimitPer>,
    pub diversity: Option<u32>,
    pub expand: Option<Expand>,
    pub rank_by: Option<RankBy>,
    pub rerank: Option<RerankOpts>,
    pub projection: Projection,
    pub exact: bool,
    pub explain: bool,
    pub plan: bool,
}

impl Default for SearchOpts {
    fn default() -> (r: Self)
        ensures
            r.top_k == 10,
            r.offset == 0,
            r.filter.0@.len() == 0,
            r.min_score is None,
            r.limit_per is None,
            r.diversity is None,
            r.expand is None,
            r.rank_by is None,
            r.rerank is None,
            r.projection == Projection::All,
            !r.exact,
            !r.explain,
            !r.plan,
    {
        SearchOpts {
            top_k: 10,
            offset: 0,
            filter: Filter(Vec::new()),
            min_score: None,
            limit_per: None,
            diversity: None,
            expand: None,
            rank_by: None,
            rerank: None,
            projection: Projection::All,
            exact: false,
            explain: false,
            plan: false,
        }
    }
}

/// The options of a listing.
#[derive(Clone, Debug, PartialEq)]
pub struct ListOpts {
    pub filter: Filter,
    pub offset: usize,
    pub limit: usize,
    pub order_by: Option<OrderBy>,
    pub projection: Projection,
}

impl Default for ListOpts {
    fn default() -> (r: Self)
        ensures
            r.filter.0@.len() == 0,
            r.offset == 0,
            r.limit == usize::MAX,
            r.order_by is None,
            r.projection == Projection::All,
    {
        ListOpts {
            filter: Filter(Vec::new()),
            offset: 0,
            limit: usize::MAX,
            order_by: None,
            projection: Projection::All,
        }
    }
}

/// The options of a hybrid search. `rrf_k` and the weights are `f32` bit patterns.
#[derive(Clone, Debug, PartialEq)]
pub struct HybridOpts {
    pub top_k: usize,
    pub offset: usize,
    pub candidates: usize,
    pub rrf_k: u32,
    pub filter: Filter,
    pub vector_weight: u32,
    pub text_weight: u32,
    pub explain: bool,
    pub plan: bool,
    pub expand: Option<Expand>,
    pub rerank: Option<RerankOpts>,
}

impl Default for HybridOpts {
    fn default() -> (r: Self)
        ensures
            r.top_k == 10,
            r.offset == 0,
            r.candidates == 100,
            r.rrf_k == 0x4270_0000u32,
            r.filter.0@.len() == 0,
            r.vector_weight == crate::bits::ONE,
            r.text_weight == crate::bits::ONE,
            !r.explain,
            !r.plan,
            r.expand is None,
            r.rerank is None,
    {
        HybridOpts {
            top_k: 10,
            offset: 0,
            candidates: 100,
            rrf_k: 0x4270_0000u32,
            filter: Filter(Vec::new()),
            vector_weight: crate::bits::ONE,
            text_weight: crate::bits::ONE,
            explain: false,
            plan: false,
            expand: None,
            rerank: None,
        }
    }
}

// ── Refusals ────────────────────────────────────────────────────────────────

/// What a ranking expression got wrong.
#[derive(Clone, Copy, Debug, PartialEq, Eq, Structural)]
pub enum DecayFault {
    Field,
    Scale(i64),
    Decay,
    Lambda,
    Missing,
    CountScale,
    CountLambda,
}

/// Which field name of an expansion is blank.
#[derive(Clone, Copy, Debug, PartialEq, Eq, Structural)]
pub enum ExpandField {
    Parent,
    Index,
    Text,
}

/// Why a query is the caller's mistake.
#[derive(Clone, Copy, Debug, PartialEq, Eq, Structural)]
pub enum QueryFault {
    Decay(DecayFault),
    LimitPerField,
    LimitPerMax,
    Diversity,
    Expand(ExpandField),
    VectorWeight,
    TextWeight,
    NoClauses,
    /// The filter is malformed.
    Filter,
    /// There is no such record to search from.
    NoRecord,
    /// The record to search from has no vector.
    TextOnly,
}

} // verus!
