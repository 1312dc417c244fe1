//! Completions of a word that is being typed, ranked over several collections.

use vstd::prelude::*;

use crate::dict::{views, Dup};
use crate::host::ids_in;
use crate::lexicon::{
    complete, complete_of, edits, edits_of, held_words, holding, holding_of, most_terms_of, near,
    near_of, near_words, refused_by, split, split_of, steady, Lexicon,
};
use crate::model::QueryFault;
use crate::order::{
    clip, lex_asymmetric, lex_lt, lex_total, lex_transitive, same, side, sort_stable, sorted,
    sorted_len, sorted_map, sorted_members, sorted_ordered, weak_order, Side,
};
use crate::rank::{plus, saturating_plus};
use crate::scan::names;
use crate::scope::sorted_once;
use crate::store::{Store, StoreError};
use crate::text::declares;
use crate::value::{admits, passes, Filter};

verus! {

/// What is asked of a completion.
#[derive(Clone, Debug, PartialEq)]
pub struct SuggestOpts {
    pub limit: usize,
    /// Count only documents that pass.
    pub filter: Filter,
    /// Look for near words where no word begins with the prefix.
    pub fuzzy: bool,
}

impl SuggestOpts {
    pub fn new(limit: usize) -> (r: SuggestOpts)
        ensures
            r.limit == limit,
            r.filter.0@.len() == 0,
            !r.fuzzy,
    {
        SuggestOpts { limit, filter: Filter(Vec::new()), fuzzy: false }
    }
}

/// A completion, and how many documents hold it.
#[derive(Clone, Debug, PartialEq, Eq)]
pub struct Suggestion {
    pub term: String,
    pub df: usize,
}

/// What a [`Suggestion`] holds.
pub ghost struct SuggestionV {
    pub term: Seq<char>,
    pub df: usize,
}

impl View for Suggestion {
    type V = SuggestionV;

    open spec fn view(&self) -> SuggestionV {
        SuggestionV { term: self.term@, df: self.df }
    }
}

/// The completions that are reported, and how many there were.
#[derive(Clone, Debug, PartialEq, Eq)]
pub struct Suggestions {
    pub suggestions: Vec<Suggestion>,
    pub matched: usize,
}

/// A completion with its distance from what was typed.
#[derive(Clone, Debug, PartialEq, Eq)]
pub struct Row {
    pub term: String,
    pub df: usize,
    pub distance: usize,
}

/// What a [`Row`] holds.
pub ghost struct RowV {
    pub term: Seq<char>,
    pub df: usize,
    pub distance: usize,
}

impl View for Row {
    type V = RowV;

    open spec fn view(&self) -> RowV {
        RowV { term: self.term@, df: self.df, distance: self.distance }
    }
}

/// A document counts: it holds the words before the one being typed, where there are any, and it
/// passes the filter, where there is one.
pub open spec fn counts(
    s: Store,
    c: Seq<char>,
    filter: Filter,
    heads: Option<Seq<Seq<char>>>,
    id: Seq<char>,
) -> bool {
    let cols = s.index@.collections;
    &&& heads matches Some(h) ==> h.contains(id)
    &&& filter.0@.len() > 0 ==> cols.contains_key(c) && cols[c].docs.contains_key(id) && passes(
        filter,
        cols[c].docs[id].attrs,
    )
}

/// How many of the documents count.
pub open spec fn df_of(
    s: Store,
    c: Seq<char>,
    filter: Filter,
    heads: Option<Seq<Seq<char>>>,
    ids: Seq<Seq<char>>,
) -> nat
    decreases ids.len(),
{
    if ids.len() == 0 {
        0
    } else {
        df_of(s, c, filter, heads, ids.drop_last()) + if counts(
            s,
            c,
            filter,
            heads,
            ids.last(),
        ) {
            1nat
        } else {
            0
        }
    }
}

/// `n`, or the largest count where it is larger.
pub open spec fn counted_to(n: nat) -> usize {
    if n > usize::MAX {
        usize::MAX
    } else {
        n as usize
    }
}

/// The words that some counting document holds.
pub open spec fn counted_words(
    s: Store,
    c: Seq<char>,
    filter: Filter,
    heads: Option<Seq<Seq<char>>>,
    words: Seq<(Seq<char>, usize, Seq<Seq<char>>)>,
) -> Seq<RowV>
    decreases words.len(),
{
    if words.len() == 0 {
        Seq::empty()
    } else {
        let rest = counted_words(s, c, filter, heads, words.drop_last());
        let (term, distance, ids) = words.last();
        let df = df_of(s, c, filter, heads, ids);
        if df > 0 {
            rest.push(RowV { term, df: counted_to(df), distance })
        } else {
            rest
        }
    }
}

/// Words that begin with what was typed, at no distance from it.
pub open spec fn at_no_distance(words: Seq<(Seq<char>, Seq<Seq<char>>)>) -> Seq<
    (Seq<char>, usize, Seq<Seq<char>>),
> {
    words.map_values(|w: (Seq<char>, Seq<Seq<char>>)| (w.0, 0usize, w.1))
}

/// One collection's completions.
pub open spec fn completions<L: Lexicon>(
    s: Store,
    l: L,
    c: Seq<char>,
    field: Seq<char>,
    typed: Seq<char>,
    filter: Filter,
    fuzzy: bool,
) -> Seq<RowV> {
    let (heads, fragment) = split_of(l, c, field, typed);
    let held = holding_of(l, c, field, heads);
    if !declares(s.index@.fts, c, field) || !s.index@.collections.contains_key(c) || fragment is None
        || (held is Some && held->0.len() == 0) {
        Seq::empty()
    } else {
        let begun = fragment->0;
        if !fuzzy {
            counted_words(
                s,
                c,
                filter,
                held,
                at_no_distance(complete_of(l, c, field, begun)),
            )
        } else if edits_of(l, begun) == 0 {
            Seq::empty()
        } else {
            counted_words(
                s,
                c,
                filter,
                held,
                near_of(l, c, field, begun, edits_of(l, begun)),
            )
        }
    }
}

/// The place of a term.
pub open spec fn term_at(rows: Seq<RowV>, term: Seq<char>) -> Option<int>
    decreases rows.len(),
{
    if rows.len() == 0 {
        None
    } else if rows.last().term == term {
        Some(rows.len() - 1)
    } else {
        term_at(rows.drop_last(), term)
    }
}

/// The completions with one more: of a term that is there already the documents add up and the
/// lesser distance counts.
pub open spec fn merged_with(rows: Seq<RowV>, r: RowV) -> Seq<RowV> {
    match term_at(rows, r.term) {
        Some(i) => rows.update(
            i,
            RowV {
                term: r.term,
                df: plus(rows[i].df, r.df),
                distance: if r.distance < rows[i].distance {
                    r.distance
                } else {
                    rows[i].distance
                },
            },
        ),
        None => rows.push(r),
    }
}

/// The completions with several more.
pub open spec fn merged_all(rows: Seq<RowV>, more: Seq<RowV>) -> Seq<RowV>
    decreases more.len(),
{
    if more.len() == 0 {
        rows
    } else {
        merged_with(merged_all(rows, more.drop_last()), more.last())
    }
}

/// The completions of all the collections in scope, each term once.
pub open spec fn merged_scope<L: Lexicon>(
    s: Store,
    l: L,
    scope: Seq<Seq<char>>,
    field: Seq<char>,
    typed: Seq<char>,
    filter: Filter,
    fuzzy: bool,
) -> Seq<RowV>
    decreases scope.len(),
{
    if scope.len() == 0 {
        Seq::empty()
    } else {
        let rest = merged_scope(s, l, scope.drop_last(), field, typed, filter, fuzzy);
        merged_all(rest, completions(s, l, scope.last(), field, typed, filter, fuzzy))
    }
}

/// More documents first, then by term.
pub open spec fn common_first() -> spec_fn(RowV, RowV) -> bool {
    |a: RowV, b: RowV| a.df > b.df || (a.df == b.df && lex_lt(a.term, b.term))
}

/// Nearer first, then more documents, then by term.
pub open spec fn near_first() -> spec_fn(RowV, RowV) -> bool {
    |a: RowV, b: RowV|
        a.distance < b.distance || (a.distance == b.distance && (a.df > b.df || (a.df == b.df
            && lex_lt(a.term, b.term))))
}

/// Near words are looked for: they are asked for, there is room for some, and no word begins
/// with what was typed.
pub open spec fn goes_fuzzy<L: Lexicon>(
    s: Store,
    l: L,
    scope: Seq<Seq<char>>,
    field: Seq<char>,
    typed: Seq<char>,
    opts: SuggestOpts,
) -> bool {
    opts.fuzzy && opts.limit > 0 && merged_scope(s, l, scope, field, typed, opts.filter, false).len()
        == 0
}

/// The completions, the best first.
pub open spec fn ranked_rows<L: Lexicon>(
    s: Store,
    l: L,
    scope: Seq<Seq<char>>,
    field: Seq<char>,
    typed: Seq<char>,
    opts: SuggestOpts,
) -> Seq<RowV> {
    if goes_fuzzy(s, l, scope, field, typed, opts) {
        sorted(merged_scope(s, l, scope, field, typed, opts.filter, true), near_first())
    } else {
        sorted(merged_scope(s, l, scope, field, typed, opts.filter, false), common_first())
    }
}

/// The completions that are reported.
pub open spec fn suggested<L: Lexicon>(
    s: Store,
    l: L,
    scope: Seq<Seq<char>>,
    field: Seq<char>,
    typed: Seq<char>,
    opts: SuggestOpts,
) -> Seq<SuggestionV> {
    clip(
        clip(ranked_rows(s, l, scope, field, typed, opts), most_terms_of(l) as int),
        opts.limit as int,
    ).map_values(|r: RowV| SuggestionV { term: r.term, df: r.df })
}

/// No term is reported twice.
pub open spec fn terms_once(rows: Seq<RowV>) -> bool {
    forall|i: int, j: int|
        0 <= i < j < rows.len() ==> (#[trigger] rows[i]).term != (#[trigger] rows[j]).term
}

proof fn term_at_is(rows: Seq<RowV>, term: Seq<char>)
    ensures
        term_at(rows, term) matches Some(i) ==> 0 <= i < rows.len() && rows[i].term == term,
        term_at(rows, term) is None ==> forall|i: int|
            0 <= i < rows.len() ==> (#[trigger] rows[i]).term != term,
    decreases rows.len(),
{
    if rows.len() > 0 && rows.last().term != term {
        let d = rows.drop_last();
        term_at_is(d, term);
        if term_at(rows, term) is None {
            assert forall|i: int| 0 <= i < rows.len() implies (#[trigger] rows[i]).term != term by {
                if i < d.len() {
                    assert(d[i] == rows[i]);
                }
            }
        }
    }
}

proof fn merge_keeps_once(rows: Seq<RowV>, more: Seq<RowV>)
    requires
        terms_once(rows),
    ensures
        terms_once(merged_all(rows, more)),
    decreases more.len(),
{
    if more.len() > 0 {
        merge_keeps_once(rows, more.drop_last());
        term_at_is(merged_all(rows, more.drop_last()), more.last().term);
    }
}

/// A completion that several collections share is one completion.
pub proof fn shared_terms_are_merged<L: Lexicon>(
    s: Store,
    l: L,
    scope: Seq<Seq<char>>,
    field: Seq<char>,
    typed: Seq<char>,
    filter: Filter,
    fuzzy: bool,
)
    ensures
        terms_once(merged_scope(s, l, scope, field, typed, filter, fuzzy)),
    decreases scope.len(),
{
    if scope.len() > 0 {
        shared_terms_are_merged(s, l, scope.drop_last(), field, typed, filter, fuzzy);
        merge_keeps_once(
            merged_scope(s, l, scope.drop_last(), field, typed, filter, fuzzy),
            completions(s, l, scope.last(), field, typed, filter, fuzzy),
        );
    }
}

/// How many documents hold a term, over several completions.
pub open spec fn df_sum(rows: Seq<RowV>, term: Seq<char>) -> nat
    decreases rows.len(),
{
    if rows.len() == 0 {
        0
    } else {
        df_sum(rows.drop_last(), term) + if rows.last().term == term {
            rows.last().df as nat
        } else {
            0
        }
    }
}

/// How many documents of the collections in scope hold a term, collection by collection.
pub open spec fn df_scope<L: Lexicon>(
    s: Store,
    l: L,
    scope: Seq<Seq<char>>,
    field: Seq<char>,
    typed: Seq<char>,
    filter: Filter,
    fuzzy: bool,
    term: Seq<char>,
) -> nat
    decreases scope.len(),
{
    if scope.len() == 0 {
        0
    } else {
        df_scope(s, l, scope.drop_last(), field, typed, filter, fuzzy, term) + df_sum(
            completions(s, l, scope.last(), field, typed, filter, fuzzy),
            term,
        )
    }
}

/// Every row says of its term how many documents hold it, by `df`, and no term that some document
/// holds is missing.
pub open spec fn tells(rows: Seq<RowV>, df: spec_fn(Seq<char>) -> nat) -> bool {
    &&& forall|i: int|
        0 <= i < rows.len() ==> (#[trigger] rows[i]).df == counted_to(df(rows[i].term))
    &&& forall|t: Seq<char>| #[trigger] df(t) > 0 ==> exists|i: int|
        0 <= i < rows.len() && (#[trigger] rows[i]).term == t
}

proof fn merging_adds_up(rows: Seq<RowV>, more: Seq<RowV>, df: spec_fn(Seq<char>) -> nat)
    requires
        terms_once(rows),
        tells(rows, df),
        forall|i: int| 0 <= i < rows.len() ==> df((#[trigger] rows[i]).term) > 0,
        forall|i: int| 0 <= i < more.len() ==> (#[trigger] more[i]).df > 0,
    ensures
        tells(merged_all(rows, more), |t: Seq<char>| df(t) + df_sum(more, t)),
        forall|i: int|
            0 <= i < merged_all(rows, more).len() ==> df(
                (#[trigger] merged_all(rows, more)[i]).term,
            ) + df_sum(more, merged_all(rows, more)[i].term) > 0,
    decreases more.len(),
{
    let sum = |t: Seq<char>| df(t) + df_sum(more, t);
    if more.len() == 0 {
        assert forall|t: Seq<char>| #[trigger] sum(t) > 0 implies exists|i: int|
            0 <= i < rows.len() && (#[trigger] rows[i]).term == t by {
            assert(df(t) > 0);
        }
    } else {
        let d = more.drop_last();
        let x = more.last();
        assert(more[more.len() - 1] == x);
        assert forall|i: int| 0 <= i < d.len() implies (#[trigger] d[i]).df > 0 by {
            assert(d[i] == more[i]);
        }
        merging_adds_up(rows, d, df);
        merge_keeps_once(rows, d);
        let was = |t: Seq<char>| df(t) + df_sum(d, t);
        let m = merged_all(rows, d);
        let out = merged_all(rows, more);
        term_at_is(m, x.term);
        assert forall|t: Seq<char>| #[trigger] sum(t) == was(t) + (if x.term == t {
            x.df as nat
        } else {
            0
        }) by {}
        match term_at(m, x.term) {
            Some(at) => {
                assert forall|i: int| 0 <= i < out.len() implies (#[trigger] out[i]).df
                    == counted_to(sum(out[i].term)) && sum(out[i].term) > 0 by {
                    assert(m[i].df == counted_to(was(m[i].term)));
                    if i != at {
                        assert(m[i].term != m[at].term) by {
                            if i < at {
                                assert(m[i].term != m[at].term);
                            } else {
                                assert(m[at].term != m[i].term);
                            }
                        }
                    }
                }
                assert forall|t: Seq<char>| #[trigger] sum(t) > 0 implies exists|i: int|
                    0 <= i < out.len() && (#[trigger] out[i]).term == t by {
                    if t == x.term {
                        assert(out[at].term == t);
                    } else {
                        assert(was(t) > 0);
                        let i = choose|i: int| 0 <= i < m.len() && (#[trigger] m[i]).term == t;
                        assert(out[i].term == t);
                    }
                }
            },
            None => {
                assert(was(x.term) == 0) by {
                    if was(x.term) > 0 {
                        let i = choose|i: int|
                            0 <= i < m.len() && (#[trigger] m[i]).term == x.term;
                        assert(m[i].term != x.term);
                    }
                }
                assert forall|i: int| 0 <= i < out.len() implies (#[trigger] out[i]).df
                    == counted_to(sum(out[i].term)) && sum(out[i].term) > 0 by {
                    if i < m.len() {
                        assert(out[i] == m[i]);
                        assert(m[i].df == counted_to(was(m[i].term)));
                    } else {
                        assert(out[i] == x);
                    }
                }
                assert forall|t: Seq<char>| #[trigger] sum(t) > 0 implies exists|i: int|
                    0 <= i < out.len() && (#[trigger] out[i]).term == t by {
                    if t == x.term {
                        assert(out[m.len() as int].term == t);
                    } else {
                        assert(was(t) > 0);
                        let i = choose|i: int| 0 <= i < m.len() && (#[trigger] m[i]).term == t;
                        assert(out[i].term == t);
                    }
                }
            },
        }
    }
}

proof fn counted_words_count(
    s: Store,
    c: Seq<char>,
    filter: Filter,
    heads: Option<Seq<Seq<char>>>,
    words: Seq<(Seq<char>, usize, Seq<Seq<char>>)>,
)
    ensures
        forall|i: int|
            0 <= i < counted_words(s, c, filter, heads, words).len() ==> (
            #[trigger] counted_words(s, c, filter, heads, words)[i]).df > 0,
    decreases words.len(),
{
    if words.len() > 0 {
        let d = words.drop_last();
        counted_words_count(s, c, filter, heads, d);
        let rest = counted_words(s, c, filter, heads, d);
        let all = counted_words(s, c, filter, heads, words);
        assert forall|i: int| 0 <= i < all.len() implies (#[trigger] all[i]).df > 0 by {
            if i < rest.len() {
                assert(all[i] == rest[i]);
            }
        }
    }
}

/// What is said of a completion is the sum of what the collections say of it: how many documents
/// hold it, over all that are named. None that some collection has is missing.
pub proof fn counts_add_up<L: Lexicon>(
    s: Store,
    l: L,
    scope: Seq<Seq<char>>,
    field: Seq<char>,
    typed: Seq<char>,
    filter: Filter,
    fuzzy: bool,
)
    ensures
        tells(
            merged_scope(s, l, scope, field, typed, filter, fuzzy),
            |t: Seq<char>| df_scope(s, l, scope, field, typed, filter, fuzzy, t),
        ),
        forall|i: int|
            0 <= i < merged_scope(s, l, scope, field, typed, filter, fuzzy).len() ==> df_scope(
                s,
                l,
                scope,
                field,
                typed,
                filter,
                fuzzy,
                (#[trigger] merged_scope(s, l, scope, field, typed, filter, fuzzy)[i]).term,
            ) > 0,
    decreases scope.len(),
{
    let all = |t: Seq<char>| df_scope(s, l, scope, field, typed, filter, fuzzy, t);
    if scope.len() > 0 {
        let d = scope.drop_last();
        let df = |t: Seq<char>| df_scope(s, l, d, field, typed, filter, fuzzy, t);
        counts_add_up(s, l, d, field, typed, filter, fuzzy);
        shared_terms_are_merged(s, l, d, field, typed, filter, fuzzy);
        let rows = merged_scope(s, l, d, field, typed, filter, fuzzy);
        let c = scope.last();
        let more = completions(s, l, c, field, typed, filter, fuzzy);
        let (heads, fragment) = split_of(l, c, field, typed);
        let held = holding_of(l, c, field, heads);
        let begun = fragment->0;
        counted_words_count(s, c, filter, held, at_no_distance(complete_of(l, c, field, begun)));
        counted_words_count(
            s,
            c,
            filter,
            held,
            near_of(l, c, field, begun, edits_of(l, begun)),
        );
        assert forall|i: int| 0 <= i < rows.len() implies df((#[trigger] rows[i]).term) > 0 by {}
        merging_adds_up(rows, more, df);
        let sum = |t: Seq<char>| df(t) + df_sum(more, t);
        let out = merged_scope(s, l, scope, field, typed, filter, fuzzy);
        assert forall|t: Seq<char>| #[trigger] all(t) == sum(t) by {}
        assert forall|i: int| 0 <= i < out.len() implies (#[trigger] out[i]).df == counted_to(
            all(out[i].term),
        ) by {
            assert(out[i].df == counted_to(sum(out[i].term)));
        }
        assert forall|t: Seq<char>| #[trigger] all(t) > 0 implies exists|i: int|
            0 <= i < out.len() && (#[trigger] out[i]).term == t by {
            assert(sum(t) > 0);
        }
    }
}

proof fn commonness_is_order()
    ensures
        weak_order(common_first()),
{
    let lt = common_first();
    assert forall|a: RowV, b: RowV| #[trigger] lt(a, b) implies !lt(b, a) by {
        if a.df == b.df {
            lex_asymmetric(a.term, b.term);
        }
    }
    assert forall|a: RowV, b: RowV, c: RowV| lt(a, c) implies #[trigger] lt(a, b) || #[trigger] lt(
        b,
        c,
    ) by {
        if a.df == b.df && b.df == c.df {
            lex_total(a.term, b.term);
            if lex_lt(b.term, a.term) {
                lex_transitive(b.term, a.term, c.term);
            }
        }
    }
}

proof fn nearness_is_order()
    ensures
        weak_order(near_first()),
{
    let lt = near_first();
    assert forall|a: RowV, b: RowV| #[trigger] lt(a, b) implies !lt(b, a) by {
        if a.distance == b.distance && a.df == b.df {
            lex_asymmetric(a.term, b.term);
        }
    }
    assert forall|a: RowV, b: RowV, c: RowV| lt(a, c) implies #[trigger] lt(a, b) || #[trigger] lt(
        b,
        c,
    ) by {
        if a.distance == b.distance && b.distance == c.distance && a.df == b.df && b.df == c.df {
            lex_total(a.term, b.term);
            if lex_lt(b.term, a.term) {
                lex_transitive(b.term, a.term, c.term);
            }
        }
    }
}

/// The reported completions are in order and distinct, and each says how many documents hold it. Of
/// words that begin with what was typed the commoner comes first, of two as common the one that
/// comes first by its letters. There are as many as asked for, as the full-text index allows, or as
/// there are.
pub proof fn suggestions_are_in_order<L: Lexicon>(
    s: Store,
    l: L,
    scope: Seq<Seq<char>>,
    field: Seq<char>,
    typed: Seq<char>,
    opts: SuggestOpts,
)
    requires
        merged_scope(s, l, scope, field, typed, opts.filter, false).len() > 0,
    ensures
        ({
            let out = suggested(s, l, scope, field, typed, opts);
            let matched = ranked_rows(s, l, scope, field, typed, opts).len() as int;
            &&& forall|i: int, j: int|
                0 <= i < j < out.len() ==> (#[trigger] out[i]).df > (#[trigger] out[j]).df || (
                out[i].df == out[j].df && lex_lt(out[i].term, out[j].term))
            &&& forall|i: int, j: int|
                0 <= i < j < out.len() ==> (#[trigger] out[i]).term != (#[trigger] out[j]).term
            &&& forall|i: int|
                0 <= i < out.len() ==> (#[trigger] out[i]).df == counted_to(
                    df_scope(s, l, scope, field, typed, opts.filter, false, out[i].term),
                )
            &&& out.len() == least(least(opts.limit as int, most_terms_of(l) as int), matched)
        }),
{
    let rows = merged_scope(s, l, scope, field, typed, opts.filter, false);
    let ranked = ranked_rows(s, l, scope, field, typed, opts);
    let out = suggested(s, l, scope, field, typed, opts);
    commonness_is_order();
    shared_terms_are_merged(s, l, scope, field, typed, opts.filter, false);
    counts_add_up(s, l, scope, field, typed, opts.filter, false);
    ranked_once(rows, common_first());
    sorted_ordered(rows, common_first());
    sorted_members(rows, common_first());
    sorted_len(rows, common_first());
    assert forall|i: int| 0 <= i < out.len() implies (#[trigger] out[i]).term == ranked[i].term
        && out[i].df == ranked[i].df by {}
    assert forall|i: int, j: int| 0 <= i < j < out.len() implies (#[trigger] out[i]).df > (
    #[trigger] out[j]).df || (out[i].df == out[j].df && lex_lt(out[i].term, out[j].term)) by {
        assert(!common_first()(ranked[j], ranked[i]));
        assert(ranked[i].term != ranked[j].term);
        lex_total(ranked[i].term, ranked[j].term);
    }
    assert forall|i: int| 0 <= i < out.len() implies (#[trigger] out[i]).df == counted_to(
        df_scope(s, l, scope, field, typed, opts.filter, false, out[i].term),
    ) by {
        assert(ranked.contains(ranked[i]));
        let j = choose|j: int| 0 <= j < rows.len() && rows[j] == ranked[i];
        assert(rows[j].df == counted_to(
            df_scope(s, l, scope, field, typed, opts.filter, false, rows[j].term),
        ));
    }
}

/// The lesser of the two.
pub open spec fn least(a: int, b: int) -> int {
    if a < b {
        a
    } else {
        b
    }
}

/// Near words come by their distance, those at one distance by how many documents hold them, and
/// each once.
pub proof fn near_words_are_in_order<L: Lexicon>(
    s: Store,
    l: L,
    scope: Seq<Seq<char>>,
    field: Seq<char>,
    typed: Seq<char>,
    opts: SuggestOpts,
)
    requires
        goes_fuzzy(s, l, scope, field, typed, opts),
    ensures
        ({
            let ranked = ranked_rows(s, l, scope, field, typed, opts);
            &&& terms_once(ranked)
            &&& forall|i: int, j: int|
                0 <= i < j < ranked.len() ==> near_first()(#[trigger] ranked[i], #[trigger] ranked[j])
        }),
{
    let rows = merged_scope(s, l, scope, field, typed, opts.filter, true);
    let ranked = ranked_rows(s, l, scope, field, typed, opts);
    nearness_is_order();
    shared_terms_are_merged(s, l, scope, field, typed, opts.filter, true);
    ranked_once(rows, near_first());
    sorted_ordered(rows, near_first());
    sorted_len(rows, near_first());
    assert forall|i: int, j: int| 0 <= i < j < ranked.len() implies near_first()(
        #[trigger] ranked[i],
        #[trigger] ranked[j],
    ) by {
        assert(!near_first()(ranked[j], ranked[i]));
        assert(ranked[i].term != ranked[j].term);
        lex_total(ranked[i].term, ranked[j].term);
    }
}

proof fn ranked_once(rows: Seq<RowV>, lt: spec_fn(RowV, RowV) -> bool)
    requires
        terms_once(rows),
    ensures
        terms_once(sorted(rows, lt)),
{
    let f = |r: RowV| r.term;
    assert forall|i: int, j: int| 0 <= i < j < rows.len() implies f(#[trigger] rows[i]) != f(
        #[trigger] rows[j],
    ) by {}
    sorted_once(rows, f, lt);
    let out = sorted(rows, lt);
    assert forall|i: int, j: int| 0 <= i < j < out.len() implies (#[trigger] out[i]).term != (
    #[trigger] out[j]).term by {
        assert(f(out[i]) != f(out[j]));
    }
}

/// A smaller limit gives the beginning of what a larger one gives.
pub proof fn a_smaller_limit_gives_a_prefix<L: Lexicon>(
    s: Store,
    l: L,
    scope: Seq<Seq<char>>,
    field: Seq<char>,
    typed: Seq<char>,
    few: SuggestOpts,
    many: SuggestOpts,
)
    requires
        few == (SuggestOpts { limit: few.limit, ..many }),
        few.limit <= many.limit,
    ensures
        suggested(s, l, scope, field, typed, few) == clip(
            suggested(s, l, scope, field, typed, many),
            few.limit as int,
        ),
{
    assert(suggested(s, l, scope, field, typed, few) =~= clip(
        suggested(s, l, scope, field, typed, many),
        few.limit as int,
    ));
}

/// How many completions there are does not depend on how many are asked for. Near words are only
/// looked for where any are.
pub proof fn the_limit_changes_no_match_count<L: Lexicon>(
    s: Store,
    l: L,
    scope: Seq<Seq<char>>,
    field: Seq<char>,
    typed: Seq<char>,
    a: SuggestOpts,
    b: SuggestOpts,
)
    requires
        a == (SuggestOpts { limit: a.limit, ..b }),
        a.fuzzy && merged_scope(s, l, scope, field, typed, a.filter, false).len() == 0 ==> a.limit
            > 0 && b.limit > 0,
    ensures
        ranked_rows(s, l, scope, field, typed, a) == ranked_rows(s, l, scope, field, typed, b),
{
}

/// Near words never displace words that begin with what was typed: where there is one of these,
/// asking for near words changes nothing.
pub proof fn near_words_come_only_where_nothing_begins<L: Lexicon>(
    s: Store,
    l: L,
    scope: Seq<Seq<char>>,
    field: Seq<char>,
    typed: Seq<char>,
    exact: SuggestOpts,
    fuzzy: SuggestOpts,
)
    requires
        fuzzy == (SuggestOpts { fuzzy: true, ..exact }),
        merged_scope(s, l, scope, field, typed, exact.filter, false).len() > 0,
    ensures
        suggested(s, l, scope, field, typed, fuzzy) == suggested(
            s,
            l,
            scope,
            field,
            typed,
            exact,
        ),
        ranked_rows(s, l, scope, field, typed, fuzzy) == ranked_rows(
            s,
            l,
            scope,
            field,
            typed,
            exact,
        ),
{
}

/// As many completions are reported as there are, up to the limit and up to the bound of the
/// full-text index.
pub proof fn as_many_as_there_are<L: Lexicon>(
    s: Store,
    l: L,
    scope: Seq<Seq<char>>,
    field: Seq<char>,
    typed: Seq<char>,
    opts: SuggestOpts,
)
    ensures
        ({
            let n = suggested(s, l, scope, field, typed, opts).len();
            let matched = ranked_rows(s, l, scope, field, typed, opts).len();
            &&& n <= matched
            &&& n <= opts.limit
            &&& n <= most_terms_of(l)
            &&& n == matched || n == opts.limit || n == most_terms_of(l)
        }),
{
}

fn held(ids: &Vec<String>, id: &str) -> (r: bool)
    ensures
        r == views(ids@).contains(id@),
{
    crate::model::listed(ids, id)
}

fn merge_row(rows: &mut Vec<Row>, r: Row)
    ensures
        views(final(rows)@) == merged_with(views(old(rows)@), r@),
{
    let ghost all = views(rows@);
    let ghost items = rows@;
    let mut i: usize = rows.len();
    proof {
        assert(all.take(i as int) =~= all);
    }
    while i > 0
        invariant
            i <= rows@.len(),
            rows@ == items,
            items == old(rows)@,
            all == views(items),
            term_at(all, r@.term) == term_at(all.take(i as int), r@.term),
        decreases i,
    {
        proof {
            assert(all.take(i as int).last() == items[i - 1]@);
            assert(all.take(i as int).drop_last() =~= all.take(i - 1));
        }
        if same(rows[i - 1].term.as_str(), r.term.as_str()) {
            let old_df: usize = rows[i - 1].df;
            let old_distance: usize = rows[i - 1].distance;
            let distance: usize = if r.distance < old_distance {
                r.distance
            } else {
                old_distance
            };
            let x = Row { term: r.term, df: saturating_plus(old_df, r.df), distance };
            rows.set(i - 1, x);
            proof {
                assert(views(rows@) =~= all.update(i - 1, x@));
            }
            return;
        }
        i = i - 1;
    }
    rows.push(r);
    proof {
        assert(views(rows@) =~= all.push(r@));
    }
}

fn merge_rows(rows: &mut Vec<Row>, more: Vec<Row>)
    ensures
        views(final(rows)@) == merged_all(views(old(rows)@), views(more@)),
{
    let ghost start = views(rows@);
    let ghost all = views(more@);
    let mut i: usize = 0;
    proof {
        assert(all.take(0) =~= Seq::empty());
    }
    while i < more.len()
        invariant
            i <= more@.len(),
            all == views(more@),
            start == views(old(rows)@),
            views(rows@) == merged_all(start, all.take(i as int)),
        decreases more@.len() - i,
    {
        let x = &more[i];
        proof {
            assert(all.take(i + 1).drop_last() =~= all.take(i as int));
            assert(all.take(i + 1).last() == x@);
        }
        let r = Row { term: x.term.dup(), df: x.df, distance: x.distance };
        merge_row(rows, r);
        i = i + 1;
    }
    proof {
        assert(all.take(i as int) =~= all);
    }
}

impl Store {
    fn counts_doc(&self, collection: &str, filter: &Filter, heads: &Option<Vec<String>>, id: &str) -> (r:
        bool)
        ensures
            r == counts(*self, collection@, *filter, ids_in(*heads), id@),
    {
        if let Some(h) = heads {
            if !held(h, id) {
                return false;
            }
        }
        if filter.0.len() == 0 {
            return true;
        }
        match self.attrs_of(collection, id) {
            Some(attrs) => admits(filter, attrs),
            None => false,
        }
    }

    fn count_docs(
        &self,
        collection: &str,
        filter: &Filter,
        heads: &Option<Vec<String>>,
        ids: &Vec<String>,
    ) -> (n: usize)
        ensures
            n == df_of(*self, collection@, *filter, ids_in(*heads), views(ids@)),
    {
        let ghost all = views(ids@);
        let mut n: usize = 0;
        let mut i: usize = 0;
        proof {
            assert(all.take(0) =~= Seq::empty());
        }
        while i < ids.len()
            invariant
                i <= ids@.len(),
                n <= i,
                all == views(ids@),
                n == df_of(*self, collection@, *filter, ids_in(*heads), all.take(i as int)),
            decreases ids@.len() - i,
        {
            proof {
                assert(all.take(i + 1).drop_last() =~= all.take(i as int));
                assert(all.take(i + 1).last() == ids@[i as int]@);
            }
            if self.counts_doc(collection, filter, heads, ids[i].as_str()) {
                n = n + 1;
            }
            i = i + 1;
        }
        proof {
            assert(all.take(i as int) =~= all);
        }
        n
    }

    fn count_words(
        &self,
        collection: &str,
        filter: &Filter,
        heads: &Option<Vec<String>>,
        words: &Vec<(String, usize, Vec<String>)>,
    ) -> (out: Vec<Row>)
        ensures
            views(out@) == counted_words(
                *self,
                collection@,
                *filter,
                ids_in(*heads),
                near_words(words@),
            ),
    {
        let ghost all = near_words(words@);
        let mut out: Vec<Row> = Vec::new();
        let mut i: usize = 0;
        proof {
            assert(all.take(0) =~= Seq::empty());
            assert(views(out@) =~= Seq::empty());
        }
        while i < words.len()
            invariant
                i <= words@.len(),
                all == near_words(words@),
                views(out@) == counted_words(
                    *self,
                    collection@,
                    *filter,
                    ids_in(*heads),
                    all.take(i as int),
                ),
            decreases words@.len() - i,
        {
            let w = &words[i];
            proof {
                assert(all.take(i + 1).drop_last() =~= all.take(i as int));
                assert(all.take(i + 1).last() == (w.0@, w.1, views(w.2@)));
            }
            let df: usize = self.count_docs(collection, filter, heads, &w.2);
            if df > 0 {
                let ghost before = views(out@);
                let r = Row { term: w.0.dup(), df, distance: w.1 };
                out.push(r);
                proof {
                    assert(views(out@) =~= before.push(r@));
                }
            }
            i = i + 1;
        }
        proof {
            assert(all.take(i as int) =~= all);
        }
        out
    }

    /// One collection's completions.
    fn suggest_one<L: Lexicon>(
        &self,
        collection: &str,
        field: &str,
        typed: &str,
        filter: &Filter,
        fuzzy: bool,
        l: &L,
    ) -> (out: Vec<Row>)
        requires
            steady(*l),
        ensures
            views(out@) == completions(
                *self,
                *l,
                collection@,
                field@,
                typed@,
                *filter,
                fuzzy,
            ),
    {
        let none: Vec<Row> = Vec::new();
        proof {
            assert(views(none@) =~= Seq::empty());
        }
        if !self.declares_field(collection, field) || !self.index.collections.contains_key(
            collection,
        ) {
            return none;
        }
        let (heads, fragment) = split(l, collection, field, typed);
        let fragment = match fragment {
            Some(t) => t,
            None => {
                return none;
            },
        };
        let begun = fragment.as_str();
        let docs = holding(l, collection, field, &heads);
        if let Some(d) = &docs {
            proof {
                assert(views(d@).len() == d@.len());
            }
            if d.len() == 0 {
                return none;
            }
        }
        if !fuzzy {
            let words = complete(l, collection, field, begun);
            let ghost all = at_no_distance(held_words(words@));
            let mut out: Vec<Row> = Vec::new();
            let mut i: usize = 0;
            proof {
                assert(all.take(0) =~= Seq::empty());
                assert(views(out@) =~= Seq::empty());
            }
            while i < words.len()
                invariant
                    i <= words@.len(),
                    all == at_no_distance(held_words(words@)),
                    views(out@) == counted_words(
                        *self,
                        collection@,
                        *filter,
                        ids_in(docs),
                        all.take(i as int),
                    ),
                decreases words@.len() - i,
            {
                let w = &words[i];
                proof {
                    assert(all.take(i + 1).drop_last() =~= all.take(i as int));
                    assert(all.take(i + 1).last() == (w.0@, 0usize, views(w.1@)));
                }
                let df: usize = self.count_docs(collection, filter, &docs, &w.1);
                if df > 0 {
                    let ghost before = views(out@);
                    let r = Row { term: w.0.dup(), df, distance: 0 };
                    out.push(r);
                    proof {
                        assert(views(out@) =~= before.push(r@));
                    }
                }
                i = i + 1;
            }
            proof {
                assert(all.take(i as int) =~= all);
            }
            return out;
        }
        let n: usize = edits(l, begun);
        if n == 0 {
            return none;
        }
        let words = near(l, collection, field, begun, n);
        self.count_words(collection, filter, &docs, &words)
    }

    fn suggest_scope<L: Lexicon>(
        &self,
        collections: &[&str],
        field: &str,
        typed: &str,
        filter: &Filter,
        fuzzy: bool,
        l: &L,
    ) -> (rows: Vec<Row>)
        requires
            steady(*l),
        ensures
            views(rows@) == merged_scope(
                *self,
                *l,
                names(collections@),
                field@,
                typed@,
                *filter,
                fuzzy,
            ),
    {
        let ghost scope = names(collections@);
        let mut rows: Vec<Row> = Vec::new();
        let mut i: usize = 0;
        proof {
            assert(scope.take(0) =~= Seq::empty());
            assert(views(rows@) =~= Seq::empty());
        }
        while i < collections.len()
            invariant
                i <= collections@.len(),
                steady(*l),
                scope == names(collections@),
                views(rows@) == merged_scope(
                    *self,
                    *l,
                    scope.take(i as int),
                    field@,
                    typed@,
                    *filter,
                    fuzzy,
                ),
            decreases collections@.len() - i,
        {
            proof {
                assert(scope.take(i + 1).drop_last() =~= scope.take(i as int));
                assert(scope.take(i + 1).last() == collections@[i as int]@);
            }
            let more = self.suggest_one(collections[i], field, typed, filter, fuzzy, l);
            merge_rows(&mut rows, more);
            i = i + 1;
        }
        proof {
            assert(scope.take(i as int) =~= scope);
        }
        rows
    }

    /// The completions of `typed` from a field's vocabulary over the collections. Words that
    /// begin with it come by how many documents hold them; only where there is no such word at
    /// all, near ones come by their distance.
    pub fn suggest<L: Lexicon>(
        &self,
        collections: &[&str],
        field: &str,
        typed: &str,
        opts: &SuggestOpts,
        l: &L,
    ) -> (r: Result<Suggestions, StoreError>)
        requires
            steady(*l),
        ensures
            refused_by(*l, opts.filter) ==> r == Err::<Suggestions, StoreError>(
                StoreError::Query(QueryFault::Filter),
            ),
            !refused_by(*l, opts.filter) ==> {
                let scope = names(collections@);
                let ranked = ranked_rows(*self, *l, scope, field@, typed@, *opts);
                &&& r matches Ok(found) && found.matched == ranked.len() && views(
                    found.suggestions@,
                ) == suggested(*self, *l, scope, field@, typed@, *opts)
            },
    {
        let ghost scope = names(collections@);
        let refused: bool = l.refuses(&opts.filter);
        proof {
            assert(call_ensures(L::refuses, (l, &opts.filter), refused));
        }
        if refused {
            return Err(StoreError::Query(QueryFault::Filter));
        }
        let found = self.suggest_scope(collections, field, typed, &opts.filter, false, l);
        let fuzzy = opts.fuzzy && opts.limit > 0 && found.len() == 0;
        let ghost v = |r: Row| r@;
        let rows = if fuzzy {
            let near = self.suggest_scope(collections, field, typed, &opts.filter, true, l);
            let ghost lt = |a: Row, b: Row| near_first()(a@, b@);
            let f = |a: &Row, b: &Row| -> (r: bool)
                ensures
                    r == near_first()(a@, b@),
                {
                    if a.distance != b.distance {
                        a.distance < b.distance
                    } else if a.df != b.df {
                        a.df > b.df
                    } else {
                        match side(a.term.as_str(), b.term.as_str()) {
                            Side::Before => true,
                            _ => false,
                        }
                    }
                };
            proof {
                sorted_map(near@, v, lt, near_first());
                assert(views(near@) =~= near@.map_values(v));
            }
            sort_stable(near, &f, Ghost(lt))
        } else {
            let ghost lt = |a: Row, b: Row| common_first()(a@, b@);
            let f = |a: &Row, b: &Row| -> (r: bool)
                ensures
                    r == common_first()(a@, b@),
                {
                    if a.df != b.df {
                        a.df > b.df
                    } else {
                        match side(a.term.as_str(), b.term.as_str()) {
                            Side::Before => true,
                            _ => false,
                        }
                    }
                };
            proof {
                sorted_map(found@, v, lt, common_first());
                assert(views(found@) =~= found@.map_values(v));
            }
            sort_stable(found, &f, Ghost(lt))
        };
        let ghost ranked = ranked_rows(*self, *l, scope, field@, typed@, *opts);
        proof {
            assert(views(rows@) =~= rows@.map_values(v));
            assert(views(rows@) == ranked);
        }
        let matched: usize = rows.len();
        let most: usize = l.most_terms();
        proof {
            assert(call_ensures(L::most_terms, (l,), most));
        }
        let least: usize = if most < opts.limit {
            most
        } else {
            opts.limit
        };
        let end: usize = if matched < least {
            matched
        } else {
            least
        };
        let mut suggestions: Vec<Suggestion> = Vec::new();
        let mut i: usize = 0;
        while i < end
            invariant
                i <= end <= rows@.len(),
                suggestions@.len() == i,
                forall|j: int|
                    0 <= j < i ==> (#[trigger] suggestions@[j])@ == (SuggestionV {
                        term: rows@[j]@.term,
                        df: rows@[j]@.df,
                    }),
            decreases end - i,
        {
            suggestions.push(Suggestion { term: rows[i].term.dup(), df: rows[i].df });
            i = i + 1;
        }
        proof {
            assert(views(suggestions@) =~= suggested(*self, *l, scope, field@, typed@, *opts));
        }
        Ok(Suggestions { suggestions, matched })
    }
}

} // verus!
