//! The full-text index of a store, supplied by the caller: analysis, scoring and completion.

use vstd::prelude::*;

use crate::dict::{opt_view, views};
use crate::host::ids_in;
use crate::model::{Fragment, FragmentV, HighlightOpts};
use crate::value::{Attrs, AttrsV, Filter};

verus! {

/// The full-text index over the fields that the collections declare. What it answers must depend
/// on what the arguments hold alone; the store checks every document that it names against its own.
pub trait Lexicon {
    /// The terms of a text, as a field's analyzer makes them.
    fn analyze(&self, collection: &str, field: &str, text: &str) -> Vec<String>;

    /// The terms of the finished words of a text, and the beginning of the word that is not.
    fn split(&self, collection: &str, field: &str, text: &str) -> (Vec<String>, Option<String>);

    /// The terms that begin with `fragment`, as many as are scored, and how many there are.
    fn expand(&self, collection: &str, field: &str, fragment: &str) -> (Vec<String>, usize);

    /// The documents that hold some of the terms, with their scores as `f32` bit patterns.
    fn score(&self, collection: &str, field: &str, terms: &Vec<String>) -> Vec<(String, u32)>;

    /// The passages of a record's field in which the terms stand, cut as `opts` says.
    fn passages(
        &self,
        collection: &str,
        field: &str,
        attrs: &Attrs,
        terms: &Vec<String>,
        opts: &HighlightOpts,
    ) -> Vec<Fragment>;

    /// The documents that hold every one of the terms; nothing where there are no terms.
    fn holding(&self, collection: &str, field: &str, terms: &Vec<String>) -> Option<Vec<String>>;

    /// The words that begin with `fragment`, each with the documents that hold it.
    fn complete(&self, collection: &str, field: &str, fragment: &str) -> Vec<
        (String, Vec<String>),
    >;

    /// The words within `edits` of `fragment`, each with its distance and the documents that
    /// hold it.
    fn near(&self, collection: &str, field: &str, fragment: &str, edits: usize) -> Vec<
        (String, usize, Vec<String>),
    >;

    /// How many edits a fragment is given.
    fn edits(&self, fragment: &str) -> usize;

    /// How many terms a prefix is expanded to at most.
    fn most_terms(&self) -> usize;

    /// Whether a filter is malformed.
    fn refuses(&self, filter: &Filter) -> bool;
}

/// The documents with their scores.
pub open spec fn scored_ids(s: Seq<(String, u32)>) -> Seq<(Seq<char>, u32)> {
    s.map_values(|p: (String, u32)| (p.0@, p.1))
}

/// The words with the documents that hold them.
pub open spec fn held_words(s: Seq<(String, Vec<String>)>) -> Seq<(Seq<char>, Seq<Seq<char>>)> {
    s.map_values(|p: (String, Vec<String>)| (p.0@, views(p.1@)))
}

/// The words with their distances and the documents that hold them.
pub open spec fn near_words(s: Seq<(String, usize, Vec<String>)>) -> Seq<
    (Seq<char>, usize, Seq<Seq<char>>),
> {
    s.map_values(|p: (String, usize, Vec<String>)| (p.0@, p.1, views(p.2@)))
}

/// A text may have the terms `x`.
pub open spec fn analyzes_to<L: Lexicon>(
    l: L,
    c: Seq<char>,
    f: Seq<char>,
    t: Seq<char>,
    x: Seq<Seq<char>>,
) -> bool {
    exists|a: &str, b: &str, d: &str, y: Vec<String>|
        a@ == c && b@ == f && d@ == t && views(y@) == x && #[trigger] call_ensures(
            L::analyze,
            (&l, a, b, d),
            y,
        )
}

/// The terms of a text.
pub open spec fn analyze_of<L: Lexicon>(
    l: L,
    c: Seq<char>,
    f: Seq<char>,
    t: Seq<char>,
) -> Seq<Seq<char>> {
    choose|x: Seq<Seq<char>>| #[trigger] analyzes_to(l, c, f, t, x)
}

/// A text may be split into the terms and the fragment `x`.
pub open spec fn splits_to<L: Lexicon>(
    l: L,
    c: Seq<char>,
    f: Seq<char>,
    t: Seq<char>,
    x: (Seq<Seq<char>>, Option<Seq<char>>),
) -> bool {
    exists|a: &str, b: &str, d: &str, y: (Vec<String>, Option<String>)|
        a@ == c && b@ == f && d@ == t && (views(y.0@), opt_view(y.1)) == x
            && #[trigger] call_ensures(
            L::split,
            (&l, a, b, d),
            y,
        )
}

/// The terms and the fragment of a text.
pub open spec fn split_of<L: Lexicon>(
    l: L,
    c: Seq<char>,
    f: Seq<char>,
    t: Seq<char>,
) -> (Seq<Seq<char>>, Option<Seq<char>>) {
    choose|x: (Seq<Seq<char>>, Option<Seq<char>>)| #[trigger] splits_to(l, c, f, t, x)
}

/// A fragment may expand to `x`.
pub open spec fn expands_to<L: Lexicon>(
    l: L,
    c: Seq<char>,
    f: Seq<char>,
    t: Seq<char>,
    x: (Seq<Seq<char>>, usize),
) -> bool {
    exists|a: &str, b: &str, d: &str, y: (Vec<String>, usize)|
        a@ == c && b@ == f && d@ == t && (views(y.0@), y.1) == x && #[trigger] call_ensures(
            L::expand,
            (&l, a, b, d),
            y,
        )
}

/// The terms that a fragment expands to.
pub open spec fn expand_of<L: Lexicon>(
    l: L,
    c: Seq<char>,
    f: Seq<char>,
    t: Seq<char>,
) -> (Seq<Seq<char>>, usize) {
    choose|x: (Seq<Seq<char>>, usize)| #[trigger] expands_to(l, c, f, t, x)
}

/// The documents that hold some of the terms may be `x`.
pub open spec fn scores_to<L: Lexicon>(
    l: L,
    c: Seq<char>,
    f: Seq<char>,
    terms: Seq<Seq<char>>,
    x: Seq<(Seq<char>, u32)>,
) -> bool {
    exists|a: &str, b: &str, d: Vec<String>, y: Vec<(String, u32)>|
        a@ == c && b@ == f && views(d@) == terms && scored_ids(y@) == x && #[trigger] call_ensures(
            L::score,
            (&l, a, b, &d),
            y,
        )
}

/// The documents that hold some of the terms.
pub open spec fn scores_of<L: Lexicon>(
    l: L,
    c: Seq<char>,
    f: Seq<char>,
    terms: Seq<Seq<char>>,
) -> Seq<(Seq<char>, u32)> {
    choose|x: Seq<(Seq<char>, u32)>| #[trigger] scores_to(l, c, f, terms, x)
}

/// The passages in which the terms stand may be `x`.
pub open spec fn passages_to<L: Lexicon>(
    l: L,
    c: Seq<char>,
    f: Seq<char>,
    attrs: AttrsV,
    terms: Seq<Seq<char>>,
    opts: HighlightOpts,
    x: Seq<FragmentV>,
) -> bool {
    exists|a: &str, b: &str, d: Attrs, g: Vec<String>, y: Vec<Fragment>|
        a@ == c && b@ == f && d@ == attrs && views(g@) == terms && views(y@) == x
            && #[trigger] call_ensures(
            L::passages,
            (&l, a, b, &d, &g, &opts),
            y,
        )
}

/// The passages in which the terms stand.
pub open spec fn passages_of<L: Lexicon>(
    l: L,
    c: Seq<char>,
    f: Seq<char>,
    attrs: AttrsV,
    terms: Seq<Seq<char>>,
    opts: HighlightOpts,
) -> Seq<FragmentV> {
    choose|x: Seq<FragmentV>| #[trigger] passages_to(l, c, f, attrs, terms, opts, x)
}

/// The documents that hold every one of the terms may be `x`.
pub open spec fn holds_to<L: Lexicon>(
    l: L,
    c: Seq<char>,
    f: Seq<char>,
    terms: Seq<Seq<char>>,
    x: Option<Seq<Seq<char>>>,
) -> bool {
    exists|a: &str, b: &str, d: Vec<String>, y: Option<Vec<String>>|
        a@ == c && b@ == f && views(d@) == terms && ids_in(y) == x && #[trigger] call_ensures(
            L::holding,
            (&l, a, b, &d),
            y,
        )
}

/// The documents that hold every one of the terms.
pub open spec fn holding_of<L: Lexicon>(
    l: L,
    c: Seq<char>,
    f: Seq<char>,
    terms: Seq<Seq<char>>,
) -> Option<Seq<Seq<char>>> {
    choose|x: Option<Seq<Seq<char>>>| #[trigger] holds_to(l, c, f, terms, x)
}

/// The completions of a fragment may be `x`.
pub open spec fn completes_to<L: Lexicon>(
    l: L,
    c: Seq<char>,
    f: Seq<char>,
    t: Seq<char>,
    x: Seq<(Seq<char>, Seq<Seq<char>>)>,
) -> bool {
    exists|a: &str, b: &str, d: &str, y: Vec<(String, Vec<String>)>|
        a@ == c && b@ == f && d@ == t && held_words(y@) == x && #[trigger] call_ensures(
            L::complete,
            (&l, a, b, d),
            y,
        )
}

/// The completions of a fragment.
pub open spec fn complete_of<L: Lexicon>(
    l: L,
    c: Seq<char>,
    f: Seq<char>,
    t: Seq<char>,
) -> Seq<(Seq<char>, Seq<Seq<char>>)> {
    choose|x: Seq<(Seq<char>, Seq<Seq<char>>)>| #[trigger] completes_to(l, c, f, t, x)
}

/// The words near a fragment may be `x`.
pub open spec fn nears_to<L: Lexicon>(
    l: L,
    c: Seq<char>,
    f: Seq<char>,
    t: Seq<char>,
    n: usize,
    x: Seq<(Seq<char>, usize, Seq<Seq<char>>)>,
) -> bool {
    exists|a: &str, b: &str, d: &str, y: Vec<(String, usize, Vec<String>)>|
        a@ == c && b@ == f && d@ == t && near_words(y@) == x && #[trigger] call_ensures(
            L::near,
            (&l, a, b, d, n),
            y,
        )
}

/// The words near a fragment.
pub open spec fn near_of<L: Lexicon>(
    l: L,
    c: Seq<char>,
    f: Seq<char>,
    t: Seq<char>,
    n: usize,
) -> Seq<(Seq<char>, usize, Seq<Seq<char>>)> {
    choose|x: Seq<(Seq<char>, usize, Seq<Seq<char>>)>| #[trigger] nears_to(l, c, f, t, n, x)
}

/// A fragment may be given `x` edits.
pub open spec fn edits_to<L: Lexicon>(l: L, t: Seq<char>, x: usize) -> bool {
    exists|a: &str, y: usize|
        a@ == t && y == x && #[trigger] call_ensures(
            L::edits,
            (&l, a),
            y,
        )
}

/// How many edits a fragment is given.
pub open spec fn edits_of<L: Lexicon>(l: L, t: Seq<char>) -> usize {
    choose|x: usize| #[trigger] edits_to(l, t, x)
}

/// How many terms a prefix is expanded to at most.
pub open spec fn most_terms_of<L: Lexicon>(l: L) -> usize {
    choose|x: usize| call_ensures(L::most_terms, (&l,), x)
}

/// A filter is malformed.
pub open spec fn refused_by<L: Lexicon>(l: L, filter: Filter) -> bool {
    choose|x: bool| call_ensures(L::refuses, (&l, &filter), x)
}

/// What the index answers depends on what the arguments hold and on nothing else.
pub open spec fn steady<L: Lexicon>(l: L) -> bool {
    &&& forall|
        c: Seq<char>,
        f: Seq<char>,
        t: Seq<char>,
        x: Seq<Seq<char>>,
        y: Seq<Seq<char>>,
    | #[trigger]
        analyzes_to(l, c, f, t, x) && #[trigger] analyzes_to(l, c, f, t, y) ==> x == y
    &&& forall|
        c: Seq<char>,
        f: Seq<char>,
        t: Seq<char>,
        x: (Seq<Seq<char>>, Option<Seq<char>>),
        y: (Seq<Seq<char>>, Option<Seq<char>>),
    | #[trigger]
        splits_to(l, c, f, t, x) && #[trigger] splits_to(l, c, f, t, y) ==> x == y
    &&& forall|
        c: Seq<char>,
        f: Seq<char>,
        t: Seq<char>,
        x: (Seq<Seq<char>>, usize),
        y: (Seq<Seq<char>>, usize),
    | #[trigger]
        expands_to(l, c, f, t, x) && #[trigger] expands_to(l, c, f, t, y) ==> x == y
    &&& forall|
        c: Seq<char>,
        f: Seq<char>,
        terms: Seq<Seq<char>>,
        x: Seq<(Seq<char>, u32)>,
        y: Seq<(Seq<char>, u32)>,
    | #[trigger]
        scores_to(l, c, f, terms, x) && #[trigger] scores_to(l, c, f, terms, y) ==> x == y
    &&& forall|
        c: Seq<char>,
        f: Seq<char>,
        attrs: AttrsV,
        terms: Seq<Seq<char>>,
        opts: HighlightOpts,
        x: Seq<FragmentV>,
        y: Seq<FragmentV>,
    | #[trigger]
        passages_to(l, c, f, attrs, terms, opts, x)
            && #[trigger] passages_to(l, c, f, attrs, terms, opts, y) ==> x == y
    &&& forall|
        c: Seq<char>,
        f: Seq<char>,
        terms: Seq<Seq<char>>,
        x: Option<Seq<Seq<char>>>,
        y: Option<Seq<Seq<char>>>,
    | #[trigger]
        holds_to(l, c, f, terms, x) && #[trigger] holds_to(l, c, f, terms, y) ==> x == y
    &&& forall|
        c: Seq<char>,
        f: Seq<char>,
        t: Seq<char>,
        x: Seq<(Seq<char>, Seq<Seq<char>>)>,
        y: Seq<(Seq<char>, Seq<Seq<char>>)>,
    | #[trigger]
        completes_to(l, c, f, t, x) && #[trigger] completes_to(l, c, f, t, y) ==> x == y
    &&& forall|
        c: Seq<char>,
        f: Seq<char>,
        t: Seq<char>,
        n: usize,
        x: Seq<(Seq<char>, usize, Seq<Seq<char>>)>,
        y: Seq<(Seq<char>, usize, Seq<Seq<char>>)>,
    | #[trigger]
        nears_to(l, c, f, t, n, x) && #[trigger] nears_to(l, c, f, t, n, y) ==> x == y
    &&& forall|t: Seq<char>, x: usize, y: usize| #[trigger]
        edits_to(l, t, x) && #[trigger] edits_to(l, t, y) ==> x == y
    &&& forall|x: usize, y: usize| #[trigger]
        call_ensures(L::most_terms, (&l,), x) && #[trigger] call_ensures(L::most_terms, (&l,), y)
            ==> x == y
    &&& forall|filter: Filter, x: bool, y: bool| #[trigger]
        call_ensures(L::refuses, (&l, &filter), x) && #[trigger] call_ensures(
            L::refuses,
            (&l, &filter),
            y,
        ) ==> x == y
}

/// Analyze a text.
pub(crate) fn analyze<L: Lexicon>(l: &L, c: &str, f: &str, t: &str) -> (r: Vec<String>)
    requires
        steady(*l),
    ensures
        views(r@) == analyze_of(*l, c@, f@, t@),
{
    let r = l.analyze(c, f, t);
    proof {
        assert(call_ensures(L::analyze, (l, c, f, t), r));
        assert(analyzes_to(*l, c@, f@, t@, views(r@)));
    }
    r
}

/// Split a text.
pub(crate) fn split<L: Lexicon>(
    l: &L,
    c: &str,
    f: &str,
    t: &str,
) -> (r: (Vec<String>, Option<String>))
    requires
        steady(*l),
    ensures
        (views(r.0@), opt_view(r.1)) == split_of(*l, c@, f@, t@),
{
    let r = l.split(c, f, t);
    proof {
        assert(call_ensures(L::split, (l, c, f, t), r));
        assert(splits_to(*l, c@, f@, t@, (views(r.0@), opt_view(r.1))));
    }
    r
}

/// Expand a fragment.
pub(crate) fn expand<L: Lexicon>(l: &L, c: &str, f: &str, t: &str) -> (r: (Vec<String>, usize))
    requires
        steady(*l),
    ensures
        (views(r.0@), r.1) == expand_of(*l, c@, f@, t@),
{
    let r = l.expand(c, f, t);
    proof {
        assert(call_ensures(L::expand, (l, c, f, t), r));
        assert(expands_to(*l, c@, f@, t@, (views(r.0@), r.1)));
    }
    r
}

/// Score the documents that hold some of the terms.
pub(crate) fn score<L: Lexicon>(
    l: &L,
    c: &str,
    f: &str,
    terms: &Vec<String>,
) -> (r: Vec<(String, u32)>)
    requires
        steady(*l),
    ensures
        scored_ids(r@) == scores_of(*l, c@, f@, views(terms@)),
{
    let r = l.score(c, f, terms);
    proof {
        assert(call_ensures(L::score, (l, c, f, terms), r));
        assert(scores_to(*l, c@, f@, views(terms@), scored_ids(r@)));
    }
    r
}

/// Cut the passages in which the terms stand.
pub(crate) fn passages<L: Lexicon>(
    l: &L,
    c: &str,
    f: &str,
    attrs: &Attrs,
    terms: &Vec<String>,
    opts: &HighlightOpts,
) -> (r: Vec<Fragment>)
    requires
        steady(*l),
    ensures
        views(r@) == passages_of(*l, c@, f@, attrs@, views(terms@), *opts),
{
    let r = l.passages(c, f, attrs, terms, opts);
    proof {
        assert(call_ensures(L::passages, (l, c, f, attrs, terms, opts), r));
        assert(passages_to(*l, c@, f@, attrs@, views(terms@), *opts, views(r@)));
    }
    r
}

/// Look up the documents that hold every one of the terms.
pub(crate) fn holding<L: Lexicon>(
    l: &L,
    c: &str,
    f: &str,
    terms: &Vec<String>,
) -> (r: Option<Vec<String>>)
    requires
        steady(*l),
    ensures
        ids_in(r) == holding_of(*l, c@, f@, views(terms@)),
{
    let r = l.holding(c, f, terms);
    proof {
        assert(call_ensures(L::holding, (l, c, f, terms), r));
        assert(holds_to(*l, c@, f@, views(terms@), ids_in(r)));
    }
    r
}

/// Complete a fragment.
pub(crate) fn complete<L: Lexicon>(
    l: &L,
    c: &str,
    f: &str,
    t: &str,
) -> (r: Vec<(String, Vec<String>)>)
    requires
        steady(*l),
    ensures
        held_words(r@) == complete_of(*l, c@, f@, t@),
{
    let r = l.complete(c, f, t);
    proof {
        assert(call_ensures(L::complete, (l, c, f, t), r));
        assert(completes_to(*l, c@, f@, t@, held_words(r@)));
    }
    r
}

/// Look up the words near a fragment.
pub(crate) fn near<L: Lexicon>(
    l: &L,
    c: &str,
    f: &str,
    t: &str,
    n: usize,
) -> (r: Vec<(String, usize, Vec<String>)>)
    requires
        steady(*l),
    ensures
        near_words(r@) == near_of(*l, c@, f@, t@, n),
{
    let r = l.near(c, f, t, n);
    proof {
        assert(call_ensures(L::near, (l, c, f, t, n), r));
        assert(nears_to(*l, c@, f@, t@, n, near_words(r@)));
    }
    r
}

/// How many edits a fragment is given.
pub(crate) fn edits<L: Lexicon>(l: &L, t: &str) -> (r: usize)
    requires
        steady(*l),
    ensures
        r == edits_of(*l, t@),
{
    let r: usize = l.edits(t);
    proof {
        assert(call_ensures(L::edits, (l, t), r));
        assert(edits_to(*l, t@, r));
    }
    r
}

} // verus!
