//! Full-text search: several clauses, each over its own field, made one score per document, and
//! what explains a result.

use vstd::prelude::*;

use crate::bits;
use crate::dict::{ordered, views, Dup};
use crate::index::{Collection, DocV, FtsFieldV};
use crate::kernel::{functional, plus_of, Kernel};
use crate::lexicon::{
    analyze, analyze_of, expand, expand_of, passages, passages_of, score, scored_ids, scores_of,
    split, split_of, steady, Lexicon,
};
use crate::model::{
    Annotations, AnnotationsV, ClauseScore, ClauseScoreV, Expansion, Highlight, HighlightOpts,
    HighlightV, Hit, HitV, QueryFault, SearchOpts,
};
use crate::order::{same, top};
use crate::rank::{
    check_query_opts, clears, clears_floor, depth, depth_of, query_fault, ranking, Scored, ScoredV,
    TopK,
};
use crate::read::attrs_at;
use crate::scan::names;
use crate::scoring::{adjusted, hits_for};
use crate::search::finish_of;
use crate::store::{Store, StoreError};
use crate::value::{admits, passes, Attrs};

verus! {

/// How a document's clause scores are made one.
#[derive(Clone, Copy, Debug, PartialEq, Eq, Structural)]
pub enum FtsCombine {
    Sum,
    Max,
}

/// Words to find in one field. Of a prefix clause the last word is only begun.
#[derive(Clone, Debug, PartialEq, Eq)]
pub struct FtsClause {
    pub field: String,
    pub text: String,
    pub prefix: bool,
}

impl FtsClause {
    pub fn new(field: &str, text: &str) -> (r: FtsClause)
        ensures
            r.field@ == field@,
            r.text@ == text@,
            !r.prefix,
    {
        FtsClause { field: field.to_owned(), text: text.to_owned(), prefix: false }
    }

    pub fn prefix(self) -> (r: FtsClause)
        ensures
            r == (FtsClause { prefix: true, ..self }),
    {
        FtsClause { field: self.field, text: self.text, prefix: true }
    }
}

/// A full-text query.
#[derive(Clone, Debug, PartialEq, Eq)]
pub struct FtsQuery {
    pub clauses: Vec<FtsClause>,
    pub combine: FtsCombine,
    /// Report the passages that matched, cut this way.
    pub highlight: Option<HighlightOpts>,
}

impl FtsQuery {
    /// A query of one clause.
    pub fn new(field: &str, text: &str) -> (r: FtsQuery)
        ensures
            r.clauses@.len() == 1,
            r.clauses@[0].field@ == field@,
            r.clauses@[0].text@ == text@,
            !r.clauses@[0].prefix,
            r.combine == FtsCombine::Sum,
            r.highlight is None,
    {
        let mut clauses: Vec<FtsClause> = Vec::new();
        clauses.push(FtsClause::new(field, text));
        FtsQuery { clauses, combine: FtsCombine::Sum, highlight: None }
    }

    /// A query of several clauses.
    pub fn multi(clauses: Vec<FtsClause>) -> (r: FtsQuery)
        ensures
            r.clauses == clauses,
            r.combine == FtsCombine::Sum,
            r.highlight is None,
    {
        FtsQuery { clauses, combine: FtsCombine::Sum, highlight: None }
    }

    pub fn combine(self, combine: FtsCombine) -> (r: FtsQuery)
        ensures
            r == (FtsQuery { combine, ..self }),
    {
        FtsQuery { clauses: self.clauses, combine, highlight: self.highlight }
    }

    pub fn highlight(self, opts: HighlightOpts) -> (r: FtsQuery)
        ensures
            r == (FtsQuery { highlight: Some(opts), ..self }),
    {
        FtsQuery { clauses: self.clauses, combine: self.combine, highlight: Some(opts) }
    }
}

// ── Clauses ─────────────────────────────────────────────────────────────────

/// The collection declares the field for full-text search.
pub open spec fn declares(fts: Map<Seq<char>, Seq<FtsFieldV>>, c: Seq<char>, field: Seq<char>) -> bool {
    fts.contains_key(c) && exists|i: int|
        0 <= i < fts[c].len() && (#[trigger] fts[c][i]).field == field
}

/// The terms of a clause in a collection: of a prefix clause the finished words' terms and those
/// that the fragment expands to, with how many that were.
pub open spec fn clause_terms<L: Lexicon>(l: L, c: Seq<char>, clause: FtsClause) -> (
    Seq<Seq<char>>,
    Option<Expansion>,
) {
    if clause.prefix {
        let (heads, fragment) = split_of(l, c, clause.field@, clause.text@);
        match fragment {
            Some(t) => {
                let (more, matched) = expand_of(l, c, clause.field@, t);
                (
                    heads + more,
                    Some(Expansion { matched, scored: more.len() as usize }),
                )
            },
            None => (heads, None),
        }
    } else {
        (analyze_of(l, c, clause.field@, clause.text@), None)
    }
}

/// What a clause finds in one collection.
pub ghost struct Found {
    pub scores: Seq<(Seq<char>, u32)>,
    pub expansion: Option<Expansion>,
}

/// What a clause finds; nothing at all where the collection does not declare its field.
pub open spec fn found_by<L: Lexicon>(s: Store, l: L, c: Seq<char>, clause: FtsClause) -> Option<
    Found,
> {
    if declares(s.index@.fts, c, clause.field@) {
        let (terms, expansion) = clause_terms(l, c, clause);
        Some(Found { scores: scores_of(l, c, clause.field@, terms), expansion })
    } else {
        None
    }
}

/// The score of a document among those found; the last one given where there are several.
pub open spec fn score_in(scores: Seq<(Seq<char>, u32)>, id: Seq<char>) -> Option<u32>
    decreases scores.len(),
{
    if scores.len() == 0 {
        None
    } else if scores.last().0 == id {
        Some(scores.last().1)
    } else {
        score_in(scores.drop_last(), id)
    }
}

/// The score that a clause gives a document.
pub open spec fn clause_score<L: Lexicon>(
    s: Store,
    l: L,
    c: Seq<char>,
    clause: FtsClause,
    id: Seq<char>,
) -> Option<u32> {
    match found_by(s, l, c, clause) {
        Some(f) => score_in(f.scores, id),
        None => None,
    }
}

/// The scores that the clauses give a document.
pub open spec fn per_clause<L: Lexicon>(
    s: Store,
    l: L,
    c: Seq<char>,
    clauses: Seq<FtsClause>,
    id: Seq<char>,
) -> Seq<Option<u32>> {
    clauses.map_values(|x: FtsClause| clause_score(s, l, c, x, id))
}

/// The sum of the scores that there are.
pub open spec fn sum_of<K: Kernel>(k: K, scores: Seq<Option<u32>>) -> Option<u32>
    decreases scores.len(),
{
    if scores.len() == 0 {
        None
    } else {
        match (sum_of(k, scores.drop_last()), scores.last()) {
            (None, x) => x,
            (Some(a), Some(b)) => Some(plus_of(k, a, b)),
            (Some(a), None) => Some(a),
        }
    }
}

/// The largest of the scores that there are, at least zero.
pub open spec fn max_of(scores: Seq<Option<u32>>) -> u32
    decreases scores.len(),
{
    if scores.len() == 0 {
        bits::ZERO
    } else {
        match scores.last() {
            Some(b) => bits::larger(max_of(scores.drop_last()), b),
            None => max_of(scores.drop_last()),
        }
    }
}

/// A document's clause scores made one. A clause that did not match contributes nothing.
pub open spec fn combined<K: Kernel>(k: K, mode: FtsCombine, scores: Seq<Option<u32>>) -> u32 {
    match mode {
        FtsCombine::Sum => match sum_of(k, scores) {
            Some(x) => x,
            None => bits::ZERO,
        },
        FtsCombine::Max => max_of(scores),
    }
}

/// Some clause matched.
pub open spec fn any_score(scores: Seq<Option<u32>>) -> bool {
    exists|i: int| 0 <= i < scores.len() && (#[trigger] scores[i]) is Some
}

/// A query of one clause scores as that clause does, whichever way scores are made one; for the
/// larger-of way this is stated of a score above zero.
pub proof fn one_clause_scores_alike<K: Kernel>(k: K, mode: FtsCombine, score: u32)
    requires
        mode == FtsCombine::Max ==> !bits::is_nan(score) && bits::rank(score) > 0,
    ensures
        combined(k, mode, seq![Some(score)]) == score,
{
    let one = seq![Some(score)];
    assert(one.drop_last() =~= Seq::<Option<u32>>::empty());
    assert(sum_of(k, one.drop_last()) is None);
    assert(max_of(one.drop_last()) == bits::ZERO);
}

/// A clause that matches nothing changes no score.
pub proof fn silent_clause_changes_nothing<K: Kernel>(
    k: K,
    mode: FtsCombine,
    scores: Seq<Option<u32>>,
)
    ensures
        combined(k, mode, scores.push(None)) == combined(k, mode, scores),
{
    assert(scores.push(None).drop_last() =~= scores);
}

// ── Ranking ─────────────────────────────────────────────────────────────────

/// The scored documents of one collection that match, pass the filter and clear the floor.
pub open spec fn text_coll<K: Kernel, L: Lexicon>(
    s: Store,
    k: K,
    l: L,
    c: Seq<char>,
    entries: Seq<(Seq<char>, DocV)>,
    query: FtsQuery,
    opts: SearchOpts,
) -> Seq<ScoredV>
    decreases entries.len(),
{
    if entries.len() == 0 {
        Seq::empty()
    } else {
        let rest = text_coll(s, k, l, c, entries.drop_last(), query, opts);
        let (id, doc) = entries.last();
        let scores = per_clause(s, l, c, query.clauses@, id);
        let score = adjusted(s, k, opts.rank_by, combined(k, query.combine, scores), c, id);
        if any_score(scores) && passes(opts.filter, doc.attrs) && clears(opts.min_score, score) {
            rest.push(ScoredV { score, collection: c, id })
        } else {
            rest
        }
    }
}

/// The scored documents of the collections in scope, one after the other as they are named.
pub open spec fn text_all<K: Kernel, L: Lexicon>(
    s: Store,
    k: K,
    l: L,
    scope: Seq<Seq<char>>,
    query: FtsQuery,
    opts: SearchOpts,
) -> Seq<ScoredV>
    decreases scope.len(),
{
    if scope.len() == 0 {
        Seq::empty()
    } else {
        let rest = text_all(s, k, l, scope.drop_last(), query, opts);
        let c = scope.last();
        let cols = s.index@.collections;
        if cols.contains_key(c) {
            rest + text_coll(s, k, l, c, ordered(cols[c].docs), query, opts)
        } else {
            rest
        }
    }
}

/// The ranking of a full-text search, `top_k` deep.
pub open spec fn text_ranked<K: Kernel, L: Lexicon>(
    s: Store,
    k: K,
    l: L,
    scope: Seq<Seq<char>>,
    query: FtsQuery,
    opts: SearchOpts,
    top_k: usize,
) -> Seq<HitV> {
    hits_for(
        s,
        opts.projection,
        top(text_all(s, k, l, scope, query, opts), top_k as int, ranking()),
    )
}

// ── Annotations ─────────────────────────────────────────────────────────────

/// The matched clauses with their own scores, in the order of the query.
pub open spec fn clause_report<L: Lexicon>(
    s: Store,
    l: L,
    c: Seq<char>,
    clauses: Seq<FtsClause>,
    id: Seq<char>,
) -> Seq<ClauseScoreV>
    decreases clauses.len(),
{
    if clauses.len() == 0 {
        Seq::empty()
    } else {
        let rest = clause_report(s, l, c, clauses.drop_last(), id);
        let clause = clauses.last();
        match clause_score(s, l, c, clause, id) {
            Some(score) => rest.push(
                ClauseScoreV {
                    field: clause.field@,
                    score,
                    expansion: found_by(s, l, c, clause)->0.expansion,
                },
            ),
            None => rest,
        }
    }
}

/// The passages of the live record that the clauses match, one entry per clause that has any.
pub open spec fn highlights_of<L: Lexicon>(
    s: Store,
    l: L,
    c: Seq<char>,
    clauses: Seq<FtsClause>,
    id: Seq<char>,
    opts: HighlightOpts,
) -> Seq<HighlightV>
    decreases clauses.len(),
{
    if clauses.len() == 0 || attrs_at(s.index@.collections, c, id) is None {
        Seq::empty()
    } else {
        let rest = highlights_of(s, l, c, clauses.drop_last(), id, opts);
        let clause = clauses.last();
        let attrs = attrs_at(s.index@.collections, c, id)->0;
        if declares(s.index@.fts, c, clause.field@) {
            let terms = clause_terms(l, c, clause).0;
            let found = passages_of(l, c, clause.field@, attrs, terms, opts);
            if found.len() > 0 {
                rest.push(HighlightV { field: clause.field@, fragments: found })
            } else {
                rest
            }
        } else {
            rest
        }
    }
}

/// Annotations that say nothing.
pub open spec fn no_annotations() -> AnnotationsV {
    AnnotationsV { vector: None, text: None, clauses: Seq::empty(), highlights: Seq::empty() }
}

/// A result with its annotations: the matched clauses where it is to be explained, the passages
/// where the query asks for them, and nothing where neither is asked for.
pub open spec fn annotated<L: Lexicon>(s: Store, l: L, query: FtsQuery, explain: bool, h: HitV) -> HitV {
    let a = match h.annotations {
        Some(a) => a,
        None => no_annotations(),
    };
    if !explain && query.highlight is None {
        h
    } else {
        HitV {
            annotations: Some(
                AnnotationsV {
                    clauses: if explain {
                        clause_report(s, l, h.collection, query.clauses@, h.id)
                    } else {
                        a.clauses
                    },
                    highlights: match query.highlight {
                        Some(cut) => highlights_of(
                            s,
                            l,
                            h.collection,
                            query.clauses@,
                            h.id,
                            cut,
                        ),
                        None => a.highlights,
                    },
                    ..a
                },
            ),
            ..h
        }
    }
}

/// The results of a full-text search.
pub open spec fn text_of<K: Kernel, L: Lexicon>(
    s: Store,
    k: K,
    l: L,
    scope: Seq<Seq<char>>,
    query: FtsQuery,
    opts: SearchOpts,
) -> Seq<HitV> {
    if opts.top_k == 0 {
        Seq::empty()
    } else {
        finish_of(s, k, opts, text_ranked(s, k, l, scope, query, opts, depth_of(opts))).map_values(
            |h: HitV| annotated(s, l, query, opts.explain, h),
        )
    }
}

/// Why a full-text query is refused.
pub open spec fn text_refusal(query: FtsQuery, opts: SearchOpts) -> Option<StoreError> {
    if query.clauses@.len() == 0 {
        Some(StoreError::Query(QueryFault::NoClauses))
    } else {
        match query_fault(opts) {
            Some(f) => Some(StoreError::Query(f)),
            None => None,
        }
    }
}

/// Explaining and highlighting change no ranking: only the annotations of a result differ.
pub proof fn annotating_keeps_the_ranking<L: Lexicon>(
    s: Store,
    l: L,
    query: FtsQuery,
    explain: bool,
    hits: Seq<HitV>,
)
    ensures
        ({
            let out = hits.map_values(|h: HitV| annotated(s, l, query, explain, h));
            &&& out.len() == hits.len()
            &&& forall|i: int|
                0 <= i < out.len() ==> #[trigger] out[i] == (HitV {
                    annotations: out[i].annotations,
                    ..hits[i]
                })
        }),
{
}

// ── The search ──────────────────────────────────────────────────────────────

/// What a clause finds in one collection.
pub struct ClauseMatches {
    scores: Vec<(String, u32)>,
    expansion: Option<Expansion>,
}

impl ClauseMatches {
    spec fn is(&self, f: Found) -> bool {
        scored_ids(self.scores@) == f.scores && self.expansion == f.expansion
    }
}

/// `found` is what the clauses find in collection `c`.
spec fn all_found<L: Lexicon>(
    found: Seq<Option<ClauseMatches>>,
    s: Store,
    l: L,
    c: Seq<char>,
    clauses: Seq<FtsClause>,
) -> bool {
    &&& found.len() == clauses.len()
    &&& forall|i: int|
        0 <= i < clauses.len() ==> match (
            #[trigger] found[i],
            found_by(s, l, c, clauses[i]),
        ) {
            (Some(m), Some(f)) => m.is(f),
            (None, None) => true,
            _ => false,
        }
}

fn score_for_id(scores: &Vec<(String, u32)>, id: &str) -> (r: Option<u32>)
    ensures
        r == score_in(scored_ids(scores@), id@),
{
    let ghost all = scored_ids(scores@);
    let mut i: usize = scores.len();
    proof {
        assert(all.take(i as int) =~= all);
    }
    while i > 0
        invariant
            i <= scores@.len(),
            all == scored_ids(scores@),
            score_in(all, id@) == score_in(all.take(i as int), id@),
        decreases i,
    {
        proof {
            assert(all.take(i as int).last() == (scores@[i - 1].0@, scores@[i - 1].1));
            assert(all.take(i as int).drop_last() =~= all.take(i - 1));
        }
        if same(scores[i - 1].0.as_str(), id) {
            return Some(scores[i - 1].1);
        }
        i = i - 1;
    }
    None
}

fn scores_per_clause<L: Lexicon>(
    found: &Vec<Option<ClauseMatches>>,
    id: &str,
    l: &L,
    Ghost(s): Ghost<Store>,
    Ghost(c): Ghost<Seq<char>>,
    Ghost(clauses): Ghost<Seq<FtsClause>>,
) -> (out: Vec<Option<u32>>)
    requires
        all_found(found@, s, *l, c, clauses),
    ensures
        out@ == per_clause(s, *l, c, clauses, id@),
{
    let mut out: Vec<Option<u32>> = Vec::new();
    let mut i: usize = 0;
    while i < found.len()
        invariant
            i <= found@.len(),
            all_found(found@, s, *l, c, clauses),
            out@.len() == i,
            forall|j: int|
                0 <= j < i ==> #[trigger] out@[j] == clause_score(s, *l, c, clauses[j], id@),
        decreases found@.len() - i,
    {
        let x = match &found[i] {
            Some(m) => score_for_id(&m.scores, id),
            None => None,
        };
        out.push(x);
        i = i + 1;
    }
    proof {
        assert(out@ =~= per_clause(s, *l, c, clauses, id@));
    }
    out
}

/// Make a document's clause scores one.
pub fn combine<K: Kernel>(scores: &Vec<Option<u32>>, mode: FtsCombine, k: &K) -> (r: u32)
    requires
        functional(*k),
    ensures
        r == combined(*k, mode, scores@),
{
    let mut sum: Option<u32> = None;
    let mut max: u32 = bits::ZERO;
    let mut i: usize = 0;
    proof {
        assert(scores@.take(0) =~= Seq::empty());
    }
    while i < scores.len()
        invariant
            i <= scores@.len(),
            functional(*k),
            sum == sum_of(*k, scores@.take(i as int)),
            max == max_of(scores@.take(i as int)),
        decreases scores@.len() - i,
    {
        proof {
            assert(scores@.take(i + 1).drop_last() =~= scores@.take(i as int));
            assert(scores@.take(i + 1).last() == scores@[i as int]);
        }
        if let Some(x) = scores[i] {
            sum = match sum {
                None => Some(x),
                Some(a) => {
                    let y: u32 = k.plus(a, x);
                    proof {
                        assert(call_ensures(K::plus, (k, a, x), y));
                    }
                    Some(y)
                },
            };
            max = bits::max(max, x);
        }
        i = i + 1;
    }
    proof {
        assert(scores@.take(i as int) =~= scores@);
    }
    match mode {
        FtsCombine::Sum => match sum {
            Some(x) => x,
            None => bits::ZERO,
        },
        FtsCombine::Max => max,
    }
}

fn has_score(scores: &Vec<Option<u32>>) -> (r: bool)
    ensures
        r == any_score(scores@),
{
    let mut i: usize = 0;
    while i < scores.len()
        invariant
            i <= scores@.len(),
            forall|j: int| 0 <= j < i ==> (#[trigger] scores@[j]) is None,
        decreases scores@.len() - i,
    {
        if scores[i].is_some() {
            proof {
                assert(scores@[i as int] is Some);
            }
            return true;
        }
        i = i + 1;
    }
    false
}

impl Store {
    pub(crate) fn declares_field(&self, collection: &str, field: &str) -> (r: bool)
        ensures
            r == declares(self.index@.fts, collection@, field@),
    {
        match self.index.fts.get(collection) {
            None => false,
            Some(schema) => {
                let mut i: usize = 0;
                while i < schema.fields.len()
                    invariant
                        i <= schema.fields@.len(),
                        self.index@.fts.contains_key(collection@),
                        self.index@.fts[collection@] == schema@,
                        forall|j: int| 0 <= j < i ==> (#[trigger] schema@[j]).field != field@,
                    decreases schema.fields@.len() - i,
                {
                    if same(schema.fields[i].field.as_str(), field) {
                        proof {
                            assert(schema@[i as int].field == field@);
                        }
                        return true;
                    }
                    i = i + 1;
                }
                false
            },
        }
    }

    fn terms_of<L: Lexicon>(&self, collection: &str, clause: &FtsClause, l: &L) -> (r: (
        Vec<String>,
        Option<Expansion>,
    ))
        requires
            steady(*l),
        ensures
            views(r.0@) == clause_terms(*l, collection@, *clause).0,
            r.1 == clause_terms(*l, collection@, *clause).1,
    {
        let field = clause.field.as_str();
        let text = clause.text.as_str();
        if clause.prefix {
            let (heads, fragment) = split(l, collection, field, text);
            match fragment {
                Some(t) => {
                    let (more, matched) = expand(l, collection, field, t.as_str());
                    let scored: usize = more.len();
                    let ghost joined = views(heads@) + views(more@);
                    let mut terms = heads;
                    let mut more = more;
                    terms.append(&mut more);
                    proof {
                        assert(views(terms@) =~= joined);
                    }
                    (terms, Some(Expansion { matched, scored }))
                },
                None => (heads, None),
            }
        } else {
            (analyze(l, collection, field, text), None)
        }
    }

    fn clause_matches<L: Lexicon>(&self, collection: &str, clause: &FtsClause, l: &L) -> (r: Option<
        ClauseMatches,
    >)
        requires
            steady(*l),
        ensures
            match (r, found_by(*self, *l, collection@, *clause)) {
                (Some(m), Some(f)) => m.is(f),
                (None, None) => true,
                _ => false,
            },
    {
        let field = clause.field.as_str();
        if !self.declares_field(collection, field) {
            return None;
        }
        let (terms, expansion) = self.terms_of(collection, clause, l);
        let scores = score(l, collection, field, &terms);
        Some(ClauseMatches { scores, expansion })
    }

    fn find_clauses<L: Lexicon>(&self, collection: &str, query: &FtsQuery, l: &L) -> (found: Vec<
        Option<ClauseMatches>,
    >)
        requires
            steady(*l),
        ensures
            all_found(found@, *self, *l, collection@, query.clauses@),
    {
        let mut found: Vec<Option<ClauseMatches>> = Vec::new();
        let mut i: usize = 0;
        while i < query.clauses.len()
            invariant
                i <= query.clauses@.len(),
                steady(*l),
                found@.len() == i,
                forall|j: int|
                    0 <= j < i ==> match (
                        #[trigger] found@[j],
                        found_by(*self, *l, collection@, query.clauses@[j]),
                    ) {
                        (Some(m), Some(f)) => m.is(f),
                        (None, None) => true,
                        _ => false,
                    },
            decreases query.clauses@.len() - i,
        {
            found.push(self.clause_matches(collection, &query.clauses[i], l));
            i = i + 1;
        }
        found
    }

    /// Offer the documents of one collection that match.
    fn offer_text<K: Kernel, L: Lexicon>(
        &self,
        name: &str,
        col: &Collection,
        found: &Vec<Option<ClauseMatches>>,
        query: &FtsQuery,
        opts: &SearchOpts,
        k: &K,
        l: &L,
        best_so_far: &mut TopK,
    )
        requires
            functional(*k),
            all_found(found@, *self, *l, name@, query.clauses@),
            old(best_so_far).wf(),
        ensures
            final(best_so_far).wf(),
            final(best_so_far).bound() == old(best_so_far).bound(),
            final(best_so_far).offered() == old(best_so_far).offered() + text_coll(
                *self,
                *k,
                *l,
                name@,
                ordered(col@.docs),
                *query,
                *opts,
            ),
    {
        let n: usize = col.docs.len();
        let ghost e = col.docs.entries();
        let ghost start = best_so_far.offered();
        let mut i: usize = 0;
        proof {
            assert(e.take(0) =~= Seq::empty());
            assert(start + Seq::<ScoredV>::empty() =~= start);
        }
        while i < n
            invariant
                i <= n,
                n == e.len(),
                e == col.docs.entries(),
                functional(*k),
                all_found(found@, *self, *l, name@, query.clauses@),
                best_so_far.wf(),
                best_so_far.bound() == old(best_so_far).bound(),
                best_so_far.offered() == start + text_coll(
                    *self,
                    *k,
                    *l,
                    name@,
                    e.take(i as int),
                    *query,
                    *opts,
                ),
            decreases n - i,
        {
            let id = col.docs.key_at(i).as_str();
            let doc = col.docs.value_at(i);
            proof {
                assert(e.take(i + 1).drop_last() =~= e.take(i as int));
                assert(e.take(i + 1).last() == e[i as int]);
            }
            let scores = scores_per_clause(
                found,
                id,
                l,
                Ghost(*self),
                Ghost(name@),
                Ghost(query.clauses@),
            );
            if has_score(&scores) && admits(&opts.filter, &doc.attrs) {
                let base: u32 = combine(&scores, query.combine, k);
                let score: u32 = self.ranked_score(&opts.rank_by, base, name, id, k);
                if clears_floor(opts.min_score, score) {
                    best_so_far.offer(
                        Scored { score, collection: name.to_owned(), id: id.to_owned() },
                    );
                }
            }
            proof {
                assert(best_so_far.offered() =~= start + text_coll(
                    *self,
                    *k,
                    *l,
                    name@,
                    e.take(i + 1),
                    *query,
                    *opts,
                ));
            }
            i = i + 1;
        }
        proof {
            assert(e.take(i as int) =~= e);
        }
    }

    /// The ranking of a full-text search, `top_k` deep.
    pub(crate) fn rank_text<K: Kernel, L: Lexicon>(
        &self,
        collections: &[&str],
        query: &FtsQuery,
        opts: &SearchOpts,
        top_k: usize,
        k: &K,
        l: &L,
    ) -> (out: Vec<Hit>)
        requires
            functional(*k),
            steady(*l),
        ensures
            views(out@) == text_ranked(*self, *k, *l, names(collections@), *query, *opts, top_k),
    {
        let ghost scope = names(collections@);
        let mut best_so_far = TopK::new(top_k);
        let mut i: usize = 0;
        proof {
            assert(scope.take(0) =~= Seq::empty());
        }
        while i < collections.len()
            invariant
                i <= collections@.len(),
                functional(*k),
                steady(*l),
                scope == names(collections@),
                best_so_far.wf(),
                best_so_far.bound() == top_k,
                best_so_far.offered() == text_all(
                    *self,
                    *k,
                    *l,
                    scope.take(i as int),
                    *query,
                    *opts,
                ),
            decreases collections@.len() - i,
        {
            let name = collections[i];
            proof {
                assert(scope.take(i + 1).drop_last() =~= scope.take(i as int));
                assert(scope.take(i + 1).last() == name@);
            }
            if let Some(col) = self.index.collections.get(name) {
                let found = self.find_clauses(name, query, l);
                self.offer_text(name, col, &found, query, opts, k, l, &mut best_so_far);
            }
            i = i + 1;
        }
        proof {
            assert(scope.take(i as int) =~= scope);
        }
        self.hits_from_topk(best_so_far.into_sorted(), &opts.projection)
    }

    /// The matched clauses of a document with their own scores.
    pub(crate) fn report_clauses<L: Lexicon>(&self, collection: &str, id: &str, query: &FtsQuery, l: &L) -> (out:
        Vec<ClauseScore>)
        requires
            steady(*l),
        ensures
            views(out@) == clause_report(*self, *l, collection@, query.clauses@, id@),
    {
        let mut out: Vec<ClauseScore> = Vec::new();
        let ghost clauses = query.clauses@;
        let mut i: usize = 0;
        proof {
            assert(clauses.take(0) =~= Seq::empty());
            assert(views(out@) =~= Seq::empty());
        }
        while i < query.clauses.len()
            invariant
                i <= clauses.len(),
                clauses == query.clauses@,
                steady(*l),
                views(out@) == clause_report(
                    *self,
                    *l,
                    collection@,
                    clauses.take(i as int),
                    id@,
                ),
            decreases clauses.len() - i,
        {
            let clause = &query.clauses[i];
            proof {
                assert(clauses.take(i + 1).drop_last() =~= clauses.take(i as int));
                assert(clauses.take(i + 1).last() == *clause);
            }
            if let Some(m) = self.clause_matches(collection, clause, l) {
                if let Some(score) = score_for_id(&m.scores, id) {
                    let ghost before = views(out@);
                    let x = ClauseScore {
                        field: clause.field.dup(),
                        score,
                        expansion: m.expansion,
                    };
                    out.push(x);
                    proof {
                        assert(views(out@) =~= before.push(x@));
                    }
                }
            }
            i = i + 1;
        }
        proof {
            assert(clauses.take(i as int) =~= clauses);
        }
        out
    }

    /// The passages of the live record that the clauses match.
    fn highlights_for<L: Lexicon>(
        &self,
        collection: &str,
        id: &str,
        query: &FtsQuery,
        opts: &HighlightOpts,
        l: &L,
    ) -> (out: Vec<Highlight>)
        requires
            steady(*l),
        ensures
            views(out@) == highlights_of(*self, *l, collection@, query.clauses@, id@, *opts),
    {
        let mut out: Vec<Highlight> = Vec::new();
        let ghost clauses = query.clauses@;
        let attrs: &Attrs = match self.attrs_of(collection, id) {
            Some(attrs) => attrs,
            None => {
                proof {
                    assert(views(out@) =~= Seq::empty());
                }
                return out;
            },
        };
        let mut i: usize = 0;
        proof {
            assert(clauses.take(0) =~= Seq::empty());
            assert(views(out@) =~= Seq::empty());
        }
        while i < query.clauses.len()
            invariant
                i <= clauses.len(),
                clauses == query.clauses@,
                steady(*l),
                attrs_at(self.index@.collections, collection@, id@) == Some(attrs@),
                views(out@) == highlights_of(
                    *self,
                    *l,
                    collection@,
                    clauses.take(i as int),
                    id@,
                    *opts,
                ),
            decreases clauses.len() - i,
        {
            let clause = &query.clauses[i];
            let field = clause.field.as_str();
            proof {
                assert(clauses.take(i + 1).drop_last() =~= clauses.take(i as int));
                assert(clauses.take(i + 1).last() == *clause);
            }
            if self.declares_field(collection, field) {
                let (terms, _) = self.terms_of(collection, clause, l);
                let fragments = passages(l, collection, field, attrs, &terms, opts);
                proof {
                    assert(views(fragments@).len() == fragments@.len());
                }
                if fragments.len() > 0 {
                    let ghost before = views(out@);
                    let x = Highlight { field: clause.field.dup(), fragments };
                    out.push(x);
                    proof {
                        assert(views(out@) =~= before.push(x@));
                    }
                }
            }
            i = i + 1;
        }
        proof {
            assert(clauses.take(i as int) =~= clauses);
        }
        out
    }

    /// Attach the annotations that are asked for to a final page.
    pub(crate) fn annotate<L: Lexicon>(
        &self,
        hits: &mut Vec<Hit>,
        query: &FtsQuery,
        explain: bool,
        l: &L,
    )
        requires
            steady(*l),
        ensures
            views(final(hits)@) == views(old(hits)@).map_values(
                |h: HitV| annotated(*self, *l, *query, explain, h),
            ),
    {
        let ghost all = views(hits@);
        let ghost want = all.map_values(|h: HitV| annotated(*self, *l, *query, explain, h));
        if !explain && query.highlight.is_none() {
            proof {
                assert(views(hits@) =~= want);
            }
            return;
        }
        let mut i: usize = 0;
        while i < hits.len()
            invariant
                i <= hits@.len(),
                hits@.len() == all.len(),
                explain || query.highlight is Some,
                steady(*l),
                forall|j: int|
                    0 <= j < i ==> (#[trigger] hits@[j])@ == annotated(
                        *self,
                        *l,
                        *query,
                        explain,
                        all[j],
                    ),
                forall|j: int| i <= j < all.len() ==> (#[trigger] hits@[j])@ == all[j],
            decreases hits@.len() - i,
        {
            let ghost prior = hits@;
            let h = &hits[i];
            let mut a = match &h.annotations {
                Some(a) => a.dup(),
                None => {
                    let none = Annotations {
                        vector: None,
                        text: None,
                        clauses: Vec::new(),
                        highlights: Vec::new(),
                    };
                    proof {
                        assert(none@.clauses =~= Seq::empty());
                        assert(none@.highlights =~= Seq::empty());
                    }
                    none
                },
            };
            if explain {
                a.clauses = self.report_clauses(h.collection.as_str(), h.id.as_str(), query, l);
            }
            if let Some(cut) = &query.highlight {
                a.highlights = self.highlights_for(
                    h.collection.as_str(),
                    h.id.as_str(),
                    query,
                    cut,
                    l,
                );
            }
            hits[i].annotations = Some(a);
            proof {
                assert(hits@ =~= prior.update(i as int, hits@[i as int]));
            }
            i = i + 1;
        }
        proof {
            assert(views(hits@) =~= want);
        }
    }

    /// Full-text search over the collections. Every clause scores against its own field; the
    /// floor and the ranking expression apply to the score that they are made into.
    pub fn text_search<K: Kernel, L: Lexicon>(
        &self,
        collections: &[&str],
        query: &FtsQuery,
        opts: &SearchOpts,
        k: &K,
        l: &L,
    ) -> (r: Result<Vec<Hit>, StoreError>)
        requires
            self.wf(),
            functional(*k),
            steady(*l),
        ensures
            text_refusal(*query, *opts) matches Some(e) ==> r == Err::<Vec<Hit>, StoreError>(e),
            text_refusal(*query, *opts) is None ==> r is Ok,
            r matches Ok(out) ==> views(out@) == text_of(
                *self,
                *k,
                *l,
                names(collections@),
                *query,
                *opts,
            ),
    {
        if query.clauses.len() == 0 {
            return Err(StoreError::Query(QueryFault::NoClauses));
        }
        if let Err(f) = check_query_opts(opts) {
            return Err(StoreError::Query(f));
        }
        if opts.top_k == 0 {
            let none: Vec<Hit> = Vec::new();
            proof {
                assert(views(none@) =~= Seq::empty());
            }
            return Ok(none);
        }
        let ranked = self.rank_text(collections, query, opts, depth(opts), k, l);
        let mut hits = self.finish(ranked, opts, k);
        self.annotate(&mut hits, query, opts.explain, l);
        Ok(hits)
    }
}

} // verus!
