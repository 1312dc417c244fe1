//! Hybrid search: a vector leg and a full-text leg fused by the reciprocals of their ranks.

use vstd::prelude::*;

use crate::bits;
use crate::dict::{dup_option, views, Dup};
use crate::expand::expanded_all;
use crate::host::{minds, settled, Host};
use crate::kernel::{functional, plus_of, reciprocal_of, Kernel};
use crate::lexicon::{steady, Lexicon};
use crate::model::{
    Annotations, AnnotationsV, Hit, HitV, HybridOpts, LegScore, Projection, QueryFault, SearchOpts,
};
use crate::order::{same, sort_stable, sorted, sorted_map, sorted_members};
use crate::plan::{untimed, Narrowing, PlanRec, QueryPath, QueryPlan};
use crate::rank::{
    bad_weight, before, cut, is_bad_weight, page, plus, ranks_before, saturating_plus,
};
use crate::rerank::as_scored;
use crate::scan::names;
use crate::search::{noted, outcome, plan_of, query_of, Outcome};
use crate::store::{Store, StoreError};
use crate::text::{annotated, clause_report, text_ranked, FtsQuery};

verus! {

/// The options that each leg runs with: at least a page deep, under the same filter.
pub open spec fn leg_opts(opts: HybridOpts) -> SearchOpts {
    let depth = plus(opts.offset, opts.top_k);
    SearchOpts {
        top_k: if opts.candidates < depth {
            depth
        } else {
            opts.candidates
        },
        offset: 0,
        filter: opts.filter,
        min_score: None,
        limit_per: None,
        diversity: None,
        expand: None,
        rank_by: None,
        rerank: None,
        projection: Projection::All,
        exact: false,
        explain: opts.explain,
        plan: false,
    }
}

/// The first place of a document in a leg.
pub open spec fn leg_rank(leg: Seq<HitV>, c: Seq<char>, id: Seq<char>) -> Option<usize>
    decreases leg.len(),
{
    if leg.len() == 0 {
        None
    } else if leg_rank(leg.drop_last(), c, id) is Some {
        leg_rank(leg.drop_last(), c, id)
    } else if leg.last().collection == c && leg.last().id == id {
        Some((leg.len() - 1) as usize)
    } else {
        None
    }
}

/// A fused document with its places in the legs.
pub ghost struct FusedV {
    pub hit: HitV,
    pub vector: Option<LegScore>,
    pub text: Option<LegScore>,
}

/// A leg's rank of a document and the score it gave.
pub open spec fn leg_score(leg: Seq<HitV>, c: Seq<char>, id: Seq<char>) -> Option<LegScore> {
    match leg_rank(leg, c, id) {
        Some(r) => Some(LegScore { rank: r, score: leg[r as int].score }),
        None => None,
    }
}

/// The fused score: what the document's rank in each leg that has it is worth, added up.
pub open spec fn fused_score<K: Kernel>(
    k: K,
    opts: HybridOpts,
    vector: Option<LegScore>,
    text: Option<LegScore>,
) -> u32 {
    match (vector, text) {
        (Some(a), Some(b)) => plus_of(
            k,
            reciprocal_of(k, opts.vector_weight, opts.rrf_k, a.rank),
            reciprocal_of(k, opts.text_weight, opts.rrf_k, b.rank),
        ),
        (Some(a), None) => reciprocal_of(k, opts.vector_weight, opts.rrf_k, a.rank),
        (None, Some(b)) => reciprocal_of(k, opts.text_weight, opts.rrf_k, b.rank),
        (None, None) => bits::ZERO,
    }
}

/// A document of a leg, fused.
pub open spec fn fused_doc<K: Kernel>(
    k: K,
    opts: HybridOpts,
    vector: Seq<HitV>,
    text: Seq<HitV>,
    h: HitV,
) -> FusedV {
    let v = leg_score(vector, h.collection, h.id);
    let t = leg_score(text, h.collection, h.id);
    FusedV {
        hit: HitV { score: fused_score(k, opts, v, t), ..h },
        vector: v,
        text: t,
    }
}

/// The documents of the vector leg, each once.
pub open spec fn fused_vector<K: Kernel>(
    k: K,
    opts: HybridOpts,
    vector: Seq<HitV>,
    text: Seq<HitV>,
    n: nat,
) -> Seq<FusedV>
    decreases n,
{
    if n == 0 {
        Seq::empty()
    } else {
        let rest = fused_vector(k, opts, vector, text, (n - 1) as nat);
        let h = vector[n - 1];
        if leg_rank(vector, h.collection, h.id) == Some((n - 1) as usize) {
            rest.push(fused_doc(k, opts, vector, text, h))
        } else {
            rest
        }
    }
}

/// The documents of the text leg that the vector leg does not have, each once.
pub open spec fn fused_text<K: Kernel>(
    k: K,
    opts: HybridOpts,
    vector: Seq<HitV>,
    text: Seq<HitV>,
    n: nat,
) -> Seq<FusedV>
    decreases n,
{
    if n == 0 {
        Seq::empty()
    } else {
        let rest = fused_text(k, opts, vector, text, (n - 1) as nat);
        let h = text[n - 1];
        if leg_rank(vector, h.collection, h.id) is None && leg_rank(text, h.collection, h.id)
            == Some((n - 1) as usize) {
            rest.push(fused_doc(k, opts, vector, text, h))
        } else {
            rest
        }
    }
}

/// By fused score, then by collection and id.
pub open spec fn fused_order() -> spec_fn(FusedV, FusedV) -> bool {
    |a: FusedV, b: FusedV| before(as_scored(a.hit), as_scored(b.hit))
}

/// The fused ranking.
pub open spec fn fused<K: Kernel>(
    k: K,
    opts: HybridOpts,
    vector: Seq<HitV>,
    text: Seq<HitV>,
) -> Seq<FusedV> {
    sorted(
        fused_vector(k, opts, vector, text, vector.len()) + fused_text(
            k,
            opts,
            vector,
            text,
            text.len(),
        ),
        fused_order(),
    )
}

/// A fused document as a result.
pub open spec fn fused_hit<L: Lexicon>(s: Store, l: L, query: FtsQuery, explain: bool, f: FusedV) -> HitV {
    HitV {
        annotations: if explain {
            Some(
                AnnotationsV {
                    vector: f.vector,
                    text: f.text,
                    clauses: if f.text is Some {
                        clause_report(s, l, f.hit.collection, query.clauses@, f.hit.id)
                    } else {
                        Seq::empty()
                    },
                    highlights: Seq::empty(),
                },
            )
        } else {
            None
        },
        ..f.hit
    }
}

/// What the vector leg ranks.
pub open spec fn vector_leg<K: Kernel, H: Host>(
    s: Store,
    k: K,
    h: H,
    scope: Seq<Seq<char>>,
    vector: Seq<u32>,
    opts: HybridOpts,
) -> Outcome {
    outcome(s, k, h, scope, query_of(s, k, vector), leg_opts(opts), leg_opts(opts).top_k)
}

/// What the text leg ranks.
pub open spec fn text_leg<K: Kernel, L: Lexicon>(
    s: Store,
    k: K,
    l: L,
    scope: Seq<Seq<char>>,
    query: FtsQuery,
    opts: HybridOpts,
) -> Seq<HitV> {
    text_ranked(s, k, l, scope, query, leg_opts(opts), leg_opts(opts).top_k)
}

/// The results of a hybrid search. The page is cut from the fused ranking, never from a leg.
pub open spec fn hybrid_of<K: Kernel, H: Host, L: Lexicon>(
    s: Store,
    k: K,
    h: H,
    l: L,
    scope: Seq<Seq<char>>,
    vector: Seq<u32>,
    query: FtsQuery,
    opts: HybridOpts,
) -> Seq<HitV> {
    if opts.top_k == 0 {
        Seq::empty()
    } else {
        let ranked = fused(
            k,
            opts,
            vector_leg(s, k, h, scope, vector, opts).ranked,
            text_leg(s, k, l, scope, query, opts),
        );
        expanded_all(
            s.index@.collections,
            opts.expand,
            page(ranked, opts.offset as int, opts.top_k as int).map_values(
                |f: FusedV|
                    annotated(s, l, query, false, fused_hit(s, l, query, opts.explain, f)),
            ),
        )
    }
}

/// Why a hybrid query is refused. A bad query is refused whatever `top_k` is.
pub open spec fn hybrid_refusal(
    s: Store,
    vector: Seq<u32>,
    query: FtsQuery,
    opts: HybridOpts,
) -> Option<StoreError> {
    if vector.len() != s.config.dimension {
        Some(StoreError::QueryLength { got: vector.len() as usize, want: s.config.dimension })
    } else if query.clauses@.len() == 0 {
        Some(StoreError::Query(QueryFault::NoClauses))
    } else if bad_weight(opts.vector_weight) {
        Some(StoreError::Query(QueryFault::VectorWeight))
    } else if bad_weight(opts.text_weight) {
        Some(StoreError::Query(QueryFault::TextWeight))
    } else {
        None
    }
}

/// What a hybrid search records of its vector leg.
pub open spec fn hybrid_noted<K: Kernel, H: Host>(
    r: PlanRec,
    s: Store,
    k: K,
    h: H,
    scope: Seq<Seq<char>>,
    vector: Seq<u32>,
    opts: HybridOpts,
) -> PlanRec {
    if opts.top_k == 0 {
        r
    } else {
        noted(r, vector_leg(s, k, h, scope, vector, opts))
    }
}

/// The vector leg's plan; a hybrid search for nothing has run nothing.
pub open spec fn hybrid_plan<K: Kernel, H: Host>(
    s: Store,
    k: K,
    h: H,
    scope: Seq<Seq<char>>,
    vector: Seq<u32>,
    opts: HybridOpts,
    plan: QueryPlan,
) -> bool {
    if opts.top_k == 0 {
        &&& plan.path == QueryPath::Exact
        &&& plan.rows_scanned is None
        &&& plan.candidates is None
        &&& plan.narrowing == Narrowing::Inactive
    } else {
        plan_of(vector_leg(s, k, h, scope, vector, opts), plan)
    }
}

// ── Laws of fusion ──────────────────────────────────────────────────────────

proof fn leg_rank_is(leg: Seq<HitV>, c: Seq<char>, id: Seq<char>)
    requires
        leg.len() <= usize::MAX,
    ensures
        leg_rank(leg, c, id) matches Some(r) ==> r < leg.len() && leg[r as int].collection == c
            && leg[r as int].id == id && forall|j: int|
            0 <= j < r ==> (#[trigger] leg[j]).collection != c || leg[j].id != id,
        leg_rank(leg, c, id) is None ==> forall|j: int|
            0 <= j < leg.len() ==> (#[trigger] leg[j]).collection != c || leg[j].id != id,
    decreases leg.len(),
{
    if leg.len() > 0 {
        let d = leg.drop_last();
        leg_rank_is(d, c, id);
        if leg_rank(d, c, id) is None {
            assert forall|j: int| 0 <= j < d.len() implies (#[trigger] leg[j]).collection != c
                || leg[j].id != id by {
                assert(d[j] == leg[j]);
            }
        } else {
            let r = leg_rank(d, c, id)->0;
            assert(d[r as int] == leg[r as int]);
            assert forall|j: int| 0 <= j < r implies (#[trigger] leg[j]).collection != c
                || leg[j].id != id by {
                assert(d[j] == leg[j]);
            }
        }
    }
}

/// The document is among the fused ones.
pub open spec fn is_fused(f: Seq<FusedV>, c: Seq<char>, id: Seq<char>) -> bool {
    exists|i: int| 0 <= i < f.len() && (#[trigger] f[i]).hit.collection == c && f[i].hit.id == id
}

proof fn fused_vector_has<K: Kernel>(
    k: K,
    opts: HybridOpts,
    vector: Seq<HitV>,
    text: Seq<HitV>,
    n: nat,
    r: int,
)
    requires
        vector.len() <= usize::MAX,
        0 <= r < n <= vector.len(),
        leg_rank(vector, vector[r].collection, vector[r].id) == Some(r as usize),
    ensures
        is_fused(fused_vector(k, opts, vector, text, n), vector[r].collection, vector[r].id),
    decreases n,
{
    let all = fused_vector(k, opts, vector, text, n);
    if r < n - 1 {
        fused_vector_has(k, opts, vector, text, (n - 1) as nat, r);
        let rest = fused_vector(k, opts, vector, text, (n - 1) as nat);
        let i = choose|i: int|
            0 <= i < rest.len() && (#[trigger] rest[i]).hit.collection == vector[r].collection
                && rest[i].hit.id == vector[r].id;
        assert(all[i] == rest[i]);
    } else {
        assert(all.last().hit.collection == vector[r].collection);
        assert(all[all.len() - 1] == all.last());
    }
}

proof fn fused_text_has<K: Kernel>(
    k: K,
    opts: HybridOpts,
    vector: Seq<HitV>,
    text: Seq<HitV>,
    n: nat,
    r: int,
)
    requires
        text.len() <= usize::MAX,
        0 <= r < n <= text.len(),
        leg_rank(vector, text[r].collection, text[r].id) is None,
        leg_rank(text, text[r].collection, text[r].id) == Some(r as usize),
    ensures
        is_fused(fused_text(k, opts, vector, text, n), text[r].collection, text[r].id),
    decreases n,
{
    let all = fused_text(k, opts, vector, text, n);
    if r < n - 1 {
        fused_text_has(k, opts, vector, text, (n - 1) as nat, r);
        let rest = fused_text(k, opts, vector, text, (n - 1) as nat);
        let i = choose|i: int|
            0 <= i < rest.len() && (#[trigger] rest[i]).hit.collection == text[r].collection
                && rest[i].hit.id == text[r].id;
        assert(all[i] == rest[i]);
    } else {
        assert(all.last().hit.collection == text[r].collection);
        assert(all[all.len() - 1] == all.last());
    }
}

/// Fusion loses nothing: a document that either leg ranks is in the fused ranking, carried by the
/// legs that have it.
pub proof fn fusion_loses_nothing<K: Kernel>(
    k: K,
    opts: HybridOpts,
    vector: Seq<HitV>,
    text: Seq<HitV>,
    h: HitV,
)
    requires
        vector.len() <= usize::MAX,
        text.len() <= usize::MAX,
        vector.contains(h) || text.contains(h),
    ensures
        is_fused(fused(k, opts, vector, text), h.collection, h.id),
{
    let a = fused_vector(k, opts, vector, text, vector.len());
    let b = fused_text(k, opts, vector, text, text.len());
    let c = h.collection;
    leg_rank_is(vector, c, h.id);
    leg_rank_is(text, c, h.id);
    let all = a + b;
    if leg_rank(vector, c, h.id) is Some {
        let r = leg_rank(vector, c, h.id)->0 as int;
        fused_vector_has(k, opts, vector, text, vector.len(), r);
        let i = choose|i: int|
            0 <= i < a.len() && (#[trigger] a[i]).hit.collection == c && a[i].hit.id == h.id;
        assert(all[i] == a[i]);
    } else {
        if vector.contains(h) {
            let j = choose|j: int| 0 <= j < vector.len() && vector[j] == h;
            assert(vector[j].collection != c || vector[j].id != h.id);
        }
        if text.contains(h) {
            let j = choose|j: int| 0 <= j < text.len() && text[j] == h;
            assert(text[j].collection == c);
        }
        let r = leg_rank(text, c, h.id)->0 as int;
        fused_text_has(k, opts, vector, text, text.len(), r);
        let i = choose|i: int|
            0 <= i < b.len() && (#[trigger] b[i]).hit.collection == c && b[i].hit.id == h.id;
        assert(all[a.len() + i] == b[i]);
    }
    let i = choose|i: int|
        0 <= i < all.len() && (#[trigger] all[i]).hit.collection == c && all[i].hit.id == h.id;
    sorted_members(all, fused_order());
    assert(all.contains(all[i]));
    let out = fused(k, opts, vector, text);
    assert(out.contains(all[i]));
    let j = choose|j: int| 0 <= j < out.len() && out[j] == all[i];
    assert(out[j].hit.collection == c);
}

// ── Fusing ──────────────────────────────────────────────────────────────────

/// A fused document.
pub struct Fused {
    hit: Hit,
    vector: Option<LegScore>,
    text: Option<LegScore>,
}

impl View for Fused {
    type V = FusedV;

    closed spec fn view(&self) -> FusedV {
        FusedV { hit: self.hit@, vector: self.vector, text: self.text }
    }
}

fn rank_in(leg: &Vec<Hit>, c: &str, id: &str) -> (r: Option<usize>)
    ensures
        r == leg_rank(views(leg@), c@, id@),
        r matches Some(i) ==> i < leg@.len(),
{
    let ghost all = views(leg@);
    let mut i: usize = 0;
    proof {
        assert(all.take(0) =~= Seq::empty());
    }
    while i < leg.len()
        invariant
            i <= leg@.len(),
            all == views(leg@),
            leg_rank(all.take(i as int), c@, id@) is None,
        decreases leg@.len() - i,
    {
        let ghost next = all.take(i + 1);
        proof {
            assert(next.drop_last() =~= all.take(i as int));
            assert(next.last() == leg@[i as int]@);
        }
        if same(leg[i].collection.as_str(), c) && same(leg[i].id.as_str(), id) {
            proof {
                assert(leg_rank(next, c@, id@) == Some(i));
                leg_rank_prefix(all, i + 1, c@, id@);
            }
            return Some(i);
        }
        i = i + 1;
    }
    proof {
        assert(all.take(i as int) =~= all);
    }
    None
}

proof fn leg_rank_prefix(leg: Seq<HitV>, n: int, c: Seq<char>, id: Seq<char>)
    requires
        0 <= n <= leg.len(),
        leg_rank(leg.take(n), c, id) is Some,
    ensures
        leg_rank(leg, c, id) == leg_rank(leg.take(n), c, id),
    decreases leg.len() - n,
{
    if n < leg.len() {
        assert(leg.take(n + 1).drop_last() =~= leg.take(n));
        leg_rank_prefix(leg, n + 1, c, id);
    } else {
        assert(leg.take(n) =~= leg);
    }
}

fn place_in(leg: &Vec<Hit>, c: &str, id: &str) -> (r: Option<LegScore>)
    ensures
        r == leg_score(views(leg@), c@, id@),
{
    match rank_in(leg, c, id) {
        Some(i) => Some(LegScore { rank: i, score: leg[i].score }),
        None => None,
    }
}

fn fuse_doc<K: Kernel>(
    vector: &Vec<Hit>,
    text: &Vec<Hit>,
    h: &Hit,
    opts: &HybridOpts,
    k: &K,
) -> (r: Fused)
    requires
        functional(*k),
    ensures
        r@ == fused_doc(*k, *opts, views(vector@), views(text@), h@),
{
    let v = place_in(vector, h.collection.as_str(), h.id.as_str());
    let t = place_in(text, h.collection.as_str(), h.id.as_str());
    let from_vector: Option<u32> = match v {
        Some(a) => {
            let x: u32 = k.reciprocal(opts.vector_weight, opts.rrf_k, a.rank);
            proof {
                assert(call_ensures(
                    K::reciprocal,
                    (k, opts.vector_weight, opts.rrf_k, a.rank),
                    x,
                ));
            }
            Some(x)
        },
        None => None,
    };
    let from_text: Option<u32> = match t {
        Some(b) => {
            let x: u32 = k.reciprocal(opts.text_weight, opts.rrf_k, b.rank);
            proof {
                assert(call_ensures(
                    K::reciprocal,
                    (k, opts.text_weight, opts.rrf_k, b.rank),
                    x,
                ));
            }
            Some(x)
        },
        None => None,
    };
    let score: u32 = match (from_vector, from_text) {
        (Some(a), Some(b)) => {
            let x: u32 = k.plus(a, b);
            proof {
                assert(call_ensures(K::plus, (k, a, b), x));
            }
            x
        },
        (Some(a), None) => a,
        (None, Some(b)) => b,
        (None, None) => bits::ZERO,
    };
    let annotations = match &h.annotations {
        Some(a) => Some(a.dup()),
        None => None,
    };
    Fused {
        hit: Hit {
            collection: h.collection.dup(),
            id: h.id.dup(),
            score,
            attrs: h.attrs.dup(),
            context: dup_option(&h.context),
            annotations,
        },
        vector: v,
        text: t,
    }
}

/// Fuse two legs.
pub fn fuse<K: Kernel>(vector: &Vec<Hit>, text: &Vec<Hit>, opts: &HybridOpts, k: &K) -> (out: Vec<
    Fused,
>)
    requires
        functional(*k),
    ensures
        views(out@) == fused(*k, *opts, views(vector@), views(text@)),
{
    let ghost vs = views(vector@);
    let ghost ts = views(text@);
    let mut all: Vec<Fused> = Vec::new();
    let mut i: usize = 0;
    proof {
        assert(views(all@) =~= Seq::empty());
    }
    while i < vector.len()
        invariant
            i <= vector@.len(),
            functional(*k),
            vs == views(vector@),
            ts == views(text@),
            views(all@) == fused_vector(*k, *opts, vs, ts, i as nat),
        decreases vector@.len() - i,
    {
        let h = &vector[i];
        proof {
            assert(vs[i as int] == h@);
        }
        let first = match rank_in(vector, h.collection.as_str(), h.id.as_str()) {
            Some(r) => r == i,
            None => false,
        };
        if first {
            let ghost prior = views(all@);
            let f = fuse_doc(vector, text, h, opts, k);
            all.push(f);
            proof {
                assert(views(all@) =~= prior.push(f@));
            }
        }
        i = i + 1;
    }
    let ghost head = views(all@);
    let mut j: usize = 0;
    proof {
        assert(head + Seq::<FusedV>::empty() =~= head);
    }
    while j < text.len()
        invariant
            j <= text@.len(),
            functional(*k),
            vs == views(vector@),
            ts == views(text@),
            views(all@) == head + fused_text(*k, *opts, vs, ts, j as nat),
        decreases text@.len() - j,
    {
        let h = &text[j];
        proof {
            assert(ts[j as int] == h@);
        }
        let first = match rank_in(text, h.collection.as_str(), h.id.as_str()) {
            Some(r) => r == j,
            None => false,
        };
        if first && rank_in(vector, h.collection.as_str(), h.id.as_str()).is_none() {
            let ghost prior = views(all@);
            let f = fuse_doc(vector, text, h, opts, k);
            all.push(f);
            proof {
                assert(views(all@) =~= prior.push(f@));
                assert(views(all@) =~= head + fused_text(*k, *opts, vs, ts, (j + 1) as nat));
            }
        }
        j = j + 1;
    }
    let ghost raw = all@;
    let ghost lt = |a: Fused, b: Fused| before(as_scored(a@.hit), as_scored(b@.hit));
    let f = |a: &Fused, b: &Fused| -> (r: bool)
        ensures
            r == before(as_scored(a@.hit), as_scored(b@.hit)),
        {
            ranks_before(
                a.hit.score,
                a.hit.collection.as_str(),
                a.hit.id.as_str(),
                b.hit.score,
                b.hit.collection.as_str(),
                b.hit.id.as_str(),
            )
        };
    let out = sort_stable(all, &f, Ghost(lt));
    proof {
        let v = |x: Fused| x@;
        sorted_map(raw, v, lt, fused_order());
        assert(views(raw) =~= raw.map_values(v));
        assert(views(out@) =~= out@.map_values(v));
    }
    out
}

impl Store {
    fn fused_hits<L: Lexicon>(&self, ranked: Vec<Fused>, query: &FtsQuery, explain: bool, l: &L) -> (out:
        Vec<Hit>)
        requires
            steady(*l),
        ensures
            views(out@) == views(ranked@).map_values(
                |f: FusedV| fused_hit(*self, *l, *query, explain, f),
            ),
    {
        let mut out: Vec<Hit> = Vec::new();
        let mut i: usize = 0;
        while i < ranked.len()
            invariant
                i <= ranked@.len(),
                steady(*l),
                out@.len() == i,
                forall|j: int|
                    0 <= j < i ==> (#[trigger] out@[j])@ == fused_hit(
                        *self,
                        *l,
                        *query,
                        explain,
                        ranked@[j]@,
                    ),
            decreases ranked@.len() - i,
        {
            let f = &ranked[i];
            let h = &f.hit;
            let annotations = if explain {
                let clauses = if f.text.is_some() {
                    self.report_clauses(h.collection.as_str(), h.id.as_str(), query, l)
                } else {
                    Vec::new()
                };
                proof {
                    if f.text is None {
                        assert(views(clauses@) =~= Seq::empty());
                    }
                }
                let a = Annotations {
                    vector: f.vector,
                    text: f.text,
                    clauses,
                    highlights: Vec::new(),
                };
                proof {
                    assert(a@.highlights =~= Seq::empty());
                }
                Some(a)
            } else {
                None
            };
            out.push(
                Hit {
                    collection: h.collection.dup(),
                    id: h.id.dup(),
                    score: h.score,
                    attrs: h.attrs.dup(),
                    context: dup_option(&h.context),
                    annotations,
                },
            );
            i = i + 1;
        }
        proof {
            assert(views(out@) =~= views(ranked@).map_values(
                |f: FusedV| fused_hit(*self, *l, *query, explain, f),
            ));
        }
        out
    }

    /// The body that the two hybrid functions share.
    fn hybrid_search_inner<K: Kernel, H: Host, L: Lexicon>(
        &self,
        collections: &[&str],
        vector: &Vec<u32>,
        query: &FtsQuery,
        opts: HybridOpts,
        k: &K,
        h: &H,
        l: &L,
        rec: &mut PlanRec,
    ) -> (r: Result<Vec<Hit>, StoreError>)
        requires
            self.wf(),
            self.current(),
            functional(*k),
            settled(*h),
            steady(*l),
        ensures
            hybrid_refusal(*self, vector@, *query, opts) matches Some(e) ==> r == Err::<
                Vec<Hit>,
                StoreError,
            >(e),
            hybrid_refusal(*self, vector@, *query, opts) is None ==> minds(
                *h,
                opts.top_k > 0 && vector_leg(
                    *self,
                    *k,
                    *h,
                    names(collections@),
                    vector@,
                    opts,
                ).looks,
                r,
            ),
            r matches Ok(out) ==> views(out@) == hybrid_of(
                *self,
                *k,
                *h,
                *l,
                names(collections@),
                vector@,
                *query,
                opts,
            ) && untimed(*final(rec)) == hybrid_noted(
                untimed(*old(rec)),
                *self,
                *k,
                *h,
                names(collections@),
                vector@,
                opts,
            ),
    {
        if vector.len() != self.config.dimension {
            return Err(
                StoreError::QueryLength { got: vector.len(), want: self.config.dimension },
            );
        }
        if query.clauses.len() == 0 {
            return Err(StoreError::Query(QueryFault::NoClauses));
        }
        if is_bad_weight(opts.vector_weight) {
            return Err(StoreError::Query(QueryFault::VectorWeight));
        }
        if is_bad_weight(opts.text_weight) {
            return Err(StoreError::Query(QueryFault::TextWeight));
        }
        if opts.top_k == 0 {
            let none: Vec<Hit> = Vec::new();
            proof {
                assert(views(none@) =~= Seq::empty());
            }
            return Ok(none);
        }
        let ghost asked = opts;
        let mut opts = opts;
        let mut filter = crate::value::Filter(Vec::new());
        std::mem::swap(&mut filter, &mut opts.filter);
        let deep: usize = saturating_plus(opts.offset, opts.top_k);
        let top_k: usize = if opts.candidates < deep {
            deep
        } else {
            opts.candidates
        };
        let leg = SearchOpts {
            top_k,
            offset: 0,
            filter,
            min_score: None,
            limit_per: None,
            diversity: None,
            expand: None,
            rank_by: None,
            rerank: None,
            projection: Projection::All,
            exact: false,
            explain: opts.explain,
            plan: false,
        };
        proof {
            assert(leg == leg_opts(asked));
        }
        let near = match self.search_ranked(collections, vector, &leg, top_k, k, h, rec) {
            Err(e) => {
                return Err(e);
            },
            Ok(near) => near,
        };
        let said = self.rank_text(collections, query, &leg, top_k, k, l);
        let ranked = fuse(&near, &said, &opts, k);
        proof {
            fused_same(*k, asked, opts, views(near@), views(said@));
        }
        let cut_page = cut(ranked, opts.offset, opts.top_k);
        proof {
            assert(views(cut_page@) =~= page(
                views(ranked@),
                opts.offset as int,
                opts.top_k as int,
            ));
        }
        let mut hits = self.fused_hits(cut_page, query, opts.explain, l);
        self.annotate(&mut hits, query, false, l);
        proof {
            assert(views(hits@) =~= views(cut_page@).map_values(
                |f: FusedV|
                    annotated(
                        *self,
                        *l,
                        *query,
                        false,
                        fused_hit(*self, *l, *query, asked.explain, f),
                    ),
            ));
        }
        if let Some(e) = &opts.expand {
            self.expand_hits(&mut hits, e);
        }
        Ok(hits)
    }

    /// Fuse a vector and a full-text search. Each leg ranks on its own; a document's score is
    /// what its ranks are worth, and one that only one leg has is carried by it.
    pub fn hybrid_search<K: Kernel, H: Host, L: Lexicon>(
        &self,
        collections: &[&str],
        vector: &Vec<u32>,
        query: &FtsQuery,
        opts: HybridOpts,
        k: &K,
        h: &H,
        l: &L,
    ) -> (r: Result<Vec<Hit>, StoreError>)
        requires
            self.wf(),
            self.current(),
            functional(*k),
            settled(*h),
            steady(*l),
        ensures
            hybrid_refusal(*self, vector@, *query, opts) matches Some(e) ==> r == Err::<
                Vec<Hit>,
                StoreError,
            >(e),
            hybrid_refusal(*self, vector@, *query, opts) is None ==> minds(
                *h,
                opts.top_k > 0 && vector_leg(
                    *self,
                    *k,
                    *h,
                    names(collections@),
                    vector@,
                    opts,
                ).looks,
                r,
            ),
            r matches Ok(out) ==> views(out@) == hybrid_of(
                *self,
                *k,
                *h,
                *l,
                names(collections@),
                vector@,
                *query,
                opts,
            ),
    {
        let mut rec = PlanRec::new(opts.plan);
        self.hybrid_search_inner(collections, vector, query, opts, k, h, l, &mut rec)
    }

    /// Like [`Store::hybrid_search`], with the plan of the vector leg.
    pub fn hybrid_search_with_plan<K: Kernel, H: Host, L: Lexicon>(
        &self,
        collections: &[&str],
        vector: &Vec<u32>,
        query: &FtsQuery,
        opts: HybridOpts,
        k: &K,
        h: &H,
        l: &L,
    ) -> (r: Result<(Vec<Hit>, QueryPlan), StoreError>)
        requires
            self.wf(),
            self.current(),
            functional(*k),
            settled(*h),
            steady(*l),
        ensures
            hybrid_refusal(*self, vector@, *query, opts) matches Some(e) ==> r == Err::<
                (Vec<Hit>, QueryPlan),
                StoreError,
            >(e),
            hybrid_refusal(*self, vector@, *query, opts) is None ==> minds(
                *h,
                opts.top_k > 0 && vector_leg(
                    *self,
                    *k,
                    *h,
                    names(collections@),
                    vector@,
                    opts,
                ).looks,
                r,
            ),
            r matches Ok((out, plan)) ==> views(out@) == hybrid_of(
                *self,
                *k,
                *h,
                *l,
                names(collections@),
                vector@,
                *query,
                opts,
            ) && hybrid_plan(*self, *k, *h, names(collections@), vector@, opts, plan),
    {
        let start: u64 = h.now();
        let mut rec = PlanRec::new(true);
        match self.hybrid_search_inner(collections, vector, query, opts, k, h, l, &mut rec) {
            Err(e) => Err(e),
            Ok(hits) => match rec.finish(crate::search::elapsed(start, h.now())) {
                Some(plan) => Ok((hits, plan)),
                None => {
                    proof {
                        assert(untimed(rec) is On);
                        assert(false);
                    }
                    Err(StoreError::DamagedRows)
                },
            },
        }
    }

    /// The page of an already fused ranking, widened.
    pub fn finish_hybrid(&self, ranked: Vec<Hit>, opts: &HybridOpts) -> (out: Vec<Hit>)
        ensures
            views(out@) == expanded_all(
                self.index@.collections,
                opts.expand,
                page(views(ranked@), opts.offset as int, opts.top_k as int),
            ),
    {
        let mut hits = cut(ranked, opts.offset, opts.top_k);
        proof {
            assert(views(hits@) =~= page(
                views(ranked@),
                opts.offset as int,
                opts.top_k as int,
            ));
        }
        if let Some(e) = &opts.expand {
            self.expand_hits(&mut hits, e);
        }
        hits
    }
}

/// Fusion reads only the weights and the rank constant.
proof fn fused_same<K: Kernel>(
    k: K,
    a: HybridOpts,
    b: HybridOpts,
    vector: Seq<HitV>,
    text: Seq<HitV>,
)
    requires
        a.vector_weight == b.vector_weight,
        a.text_weight == b.text_weight,
        a.rrf_k == b.rrf_k,
    ensures
        fused(k, a, vector, text) == fused(k, b, vector, text),
{
    fused_vector_same(k, a, b, vector, text, vector.len());
    fused_text_same(k, a, b, vector, text, text.len());
}

proof fn fused_vector_same<K: Kernel>(
    k: K,
    a: HybridOpts,
    b: HybridOpts,
    vector: Seq<HitV>,
    text: Seq<HitV>,
    n: nat,
)
    requires
        a.vector_weight == b.vector_weight,
        a.text_weight == b.text_weight,
        a.rrf_k == b.rrf_k,
    ensures
        fused_vector(k, a, vector, text, n) == fused_vector(k, b, vector, text, n),
    decreases n,
{
    if n > 0 {
        fused_vector_same(k, a, b, vector, text, (n - 1) as nat);
    }
}

proof fn fused_text_same<K: Kernel>(
    k: K,
    a: HybridOpts,
    b: HybridOpts,
    vector: Seq<HitV>,
    text: Seq<HitV>,
    n: nat,
)
    requires
        a.vector_weight == b.vector_weight,
        a.text_weight == b.text_weight,
        a.rrf_k == b.rrf_k,
    ensures
        fused_text(k, a, vector, text, n) == fused_text(k, b, vector, text, n),
    decreases n,
{
    if n > 0 {
        fused_text_same(k, a, b, vector, text, (n - 1) as nat);
    }
}

} // verus!
