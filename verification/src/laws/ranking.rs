//! The order of results, the gates before it, the page, and what a query is refused for.

use vstd::prelude::*;

use crate::model::{
    Decay, DecayFault, Expand, ExpandField, LimitPer, Projection, QueryFault, RankBy, SearchOpts,
};
use crate::order::{lex_lt, top};
use crate::rank::{
    age_of, bad_weight, before, blank, clears, decay_fault, depth_of, diversity_fault,
    expand_fault, limit_fault, page, plus, query_fault, rank_fault, ranking, terms,
    times, Recency, ScoredV,
};
use crate::value::{AttrsV, ValueV};

verus! {

/// The larger score goes first; of equal scores the smaller collection, and within one the
/// smaller id. What has no number for a score goes behind everything that has one.
pub proof fn results_stand_in_order(a: ScoredV, b: ScoredV)
    ensures
        a.score <= 0x7f80_0000 && b.score <= 0x7f80_0000 && a.score > b.score ==> before(a, b)
            && !before(b, a),
        0x8000_0000 <= a.score < b.score <= 0xff80_0000 ==> before(a, b) && !before(b, a),
        a.score <= 0x7f80_0000 && 0x8000_0000 < b.score <= 0xff80_0000 ==> before(a, b) && !before(
            b,
            a,
        ),
        0xff80_0000 < b.score && a.score <= 0x7f80_0000 ==> before(a, b) && !before(b, a),
        a.score == b.score && lex_lt(a.collection, b.collection) ==> before(a, b),
        a.score == b.score && a.collection == b.collection ==> (before(a, b) <==> lex_lt(
            a.id,
            b.id,
        )),
        a.score == 0 && b.score == 0x8000_0000 && lex_lt(b.collection, a.collection) ==> before(
            b,
            a,
        ),
{
    crate::order::lex_irreflexive(a.collection);
}

/// The best `k` of some candidates are the best `k`: each is one of them, what is kept stands in
/// order, and what is left out goes before nothing that is kept.
pub proof fn the_best_are_kept(s: Seq<ScoredV>, k: int, i: int, j: int, x: ScoredV)
    requires
        0 <= k,
        0 <= i < j < top(s, k, ranking()).len(),
    ensures
        s.contains(top(s, k, ranking())[i]),
        !before(top(s, k, ranking())[j], top(s, k, ranking())[i]),
        s.contains(x) && !top(s, k, ranking()).contains(x) ==> top(s, k, ranking()).len() == k
            && !before(x, top(s, k, ranking())[i]),
        top(s, k, ranking()).len() <= k,
        s.len() <= k ==> top(s, k, ranking()).len() == s.len(),
{
    crate::order::top_members(s, k, ranking());
    crate::rank::top_is_ordered(s, k);
    crate::order::sorted_len(s, ranking());
    assert(top(s, k, ranking()).contains(top(s, k, ranking())[i]));
    if s.contains(x) && !top(s, k, ranking()).contains(x) {
        crate::rank::nothing_better_is_left_out(s, k, x);
    }
}

/// Without a floor every score passes; with one, every number that is not below it does, the
/// floor itself too, and no number below it does.
pub proof fn a_floor_keeps_what_reaches_it(m: u32, score: u32)
    ensures
        clears(None, score),
        clears(Some(score), score),
        m <= 0x7f80_0000 && score <= 0x7f80_0000 ==> (clears(Some(m), score) <==> score >= m),
        0x8000_0000 <= m <= 0xff80_0000 && 0x8000_0000 <= score <= 0xff80_0000 ==> (clears(
            Some(m),
            score,
        ) <==> score <= m),
        0x8000_0000 < m <= 0xff80_0000 && score <= 0x7f80_0000 ==> clears(Some(m), score),
        0 < m <= 0x7f80_0000 && 0x8000_0000 <= score <= 0xff80_0000 ==> !clears(Some(m), score),
        (0x7f80_0000 < score && score < 0x8000_0000) || 0xff80_0000 < score ==> clears(
            Some(m),
            score,
        ),
{
}

/// Sums and products stop at the largest number.
pub proof fn arithmetic_stops_at_the_top(a: usize, b: usize)
    ensures
        a + b <= usize::MAX ==> plus(a, b) == a + b,
        a + b > usize::MAX ==> plus(a, b) == usize::MAX,
        a * b <= usize::MAX ==> times(a, b) == a * b,
        a * b > usize::MAX ==> times(a, b) == usize::MAX,
{
}

/// How deep a search ranks: to the end of its page, eight times as deep under a cap per value,
/// and four times as deep where it is only spread out.
pub proof fn a_thinned_ranking_goes_deeper(opts: SearchOpts)
    requires
        8 * (opts.offset + opts.top_k) <= usize::MAX,
    ensures
        opts.limit_per is Some ==> depth_of(opts) == 8 * (opts.offset + opts.top_k),
        opts.limit_per is None && opts.diversity is Some ==> depth_of(opts) == 4 * (opts.offset
            + opts.top_k),
        opts.limit_per is None && opts.diversity is None ==> depth_of(opts) == opts.offset
            + opts.top_k,
{
    let p = plus(opts.offset, opts.top_k);
    assert(p * 8 == 8 * p && p * 4 == 4 * p && p * 1 == p) by (nonlinear_arith);
}

/// A page is what stands behind the first `offset` places, as far as it reaches and there is.
pub proof fn a_page_is_what_stands_there<T>(ranked: Seq<T>, offset: int, k: int)
    requires
        0 <= offset,
        0 <= k,
    ensures
        page(ranked, offset, k).len() == if ranked.len() <= offset {
            0
        } else if ranked.len() - offset <= k {
            ranked.len() - offset
        } else {
            k
        },
        forall|i: int|
            0 <= i < page(ranked, offset, k).len() ==> #[trigger] page(ranked, offset, k)[i]
                == ranked[offset + i],
{
}

/// A weight can be used where it is a finite number and not negative; a negative zero is zero.
pub proof fn which_weights_are_usable(w: u32)
    ensures
        bad_weight(w) <==> !(w < 0x7f80_0000 || w == 0x8000_0000),
{
}

/// When a ranking expression can be used, and which fault is named where it cannot: the first in
/// the order of the fields.
pub proof fn what_a_ranking_expression_is_refused_for(d: Decay)
    ensures
        ({
            let named = d.field@.len() > 0 || d.count_field is Some;
            let decays = 0 < d.decay < 0x3f80_0000;
            let weighs = d.lambda < 0x7f80_0000 || d.lambda == 0x8000_0000;
            let fills = d.missing <= 0x3f80_0000 || d.missing == 0x8000_0000;
            let counts = d.count_field is None || (0 < d.count_scale && d.count_scale < 0x8000_0000)
                || d.count_scale > 0xff80_0000;
            let count_weighs = d.count_lambda < 0x7f80_0000 || d.count_lambda == 0x8000_0000;
            &&& decay_fault(d) is None <==> named && d.scale > 0 && decays && weighs && fills
                && counts && count_weighs
            &&& !named ==> decay_fault(d) == Some(DecayFault::Field)
            &&& named && d.scale <= 0 ==> decay_fault(d) == Some(DecayFault::Scale(d.scale))
            &&& named && d.scale > 0 && !decays ==> decay_fault(d) == Some(DecayFault::Decay)
            &&& named && d.scale > 0 && decays && !weighs ==> decay_fault(d) == Some(
                DecayFault::Lambda,
            )
            &&& named && d.scale > 0 && decays && weighs && !fills ==> decay_fault(d) == Some(
                DecayFault::Missing,
            )
            &&& named && d.scale > 0 && decays && weighs && fills && !counts ==> decay_fault(d)
                == Some(DecayFault::CountScale)
            &&& named && d.scale > 0 && decays && weighs && fills && counts && !count_weighs
                ==> decay_fault(d) == Some(DecayFault::CountLambda)
        }),
{
}

/// A cap needs a field and room for one; a spread is a number from zero to one.
pub proof fn what_a_cap_or_a_spread_is_refused_for(cap: LimitPer, spread: u32)
    ensures
        limit_fault(None) is None,
        limit_fault(Some(cap)) == if cap.field@.len() == 0 {
            Some(QueryFault::LimitPerField)
        } else if cap.max < 1 {
            Some(QueryFault::LimitPerMax)
        } else {
            None
        },
        diversity_fault(None) is None,
        diversity_fault(Some(spread)) == if spread <= 0x3f80_0000 || spread == 0x8000_0000 {
            None
        } else {
            Some(QueryFault::Diversity)
        },
{
}

/// A name is blank where nothing but white space stands in it; an expansion names the first of
/// its fields that is.
pub proof fn what_an_expansion_is_refused_for(e: Expand, s: Seq<char>, i: int)
    ensures
        expand_fault(None) is None,
        expand_fault(Some(e)) is None <==> !blank(e.parent_field@) && !blank(e.index_field@)
            && !blank(e.text_field@),
        blank(e.parent_field@) ==> expand_fault(Some(e)) == Some(
            QueryFault::Expand(ExpandField::Parent),
        ),
        !blank(e.parent_field@) && blank(e.index_field@) ==> expand_fault(Some(e)) == Some(
            QueryFault::Expand(ExpandField::Index),
        ),
        !blank(e.parent_field@) && !blank(e.index_field@) && blank(e.text_field@) ==> expand_fault(
            Some(e),
        ) == Some(QueryFault::Expand(ExpandField::Text)),
        s.len() == 0 ==> blank(s),
        (forall|j: int|
            0 <= j < s.len() ==> #[trigger] s[j] == ' ' || s[j] == '\t' || s[j] == '\n' || s[j]
                == '\r') ==> blank(s),
        0 <= i < s.len() && '!' <= s[i] && s[i] <= '~' ==> !blank(s),
{
    if 0 <= i < s.len() && '!' <= s[i] && s[i] <= '~' {
        assert(!crate::rank::is_space(s[i]));
    }
}

/// The ranking expression is looked at first, then the cap, the spread and the expansion.
pub proof fn faults_are_found_in_order(opts: SearchOpts)
    ensures
        query_fault(opts) is None <==> rank_fault(opts.rank_by) is None && limit_fault(
            opts.limit_per,
        ) is None && diversity_fault(opts.diversity) is None && expand_fault(opts.expand) is None,
        opts.rank_by matches Some(RankBy::Decay(d)) ==> (decay_fault(d) matches Some(f)
            ==> query_fault(opts) == Some(QueryFault::Decay(f))),
        opts.rank_by is None && limit_fault(opts.limit_per) is Some ==> query_fault(opts)
            == limit_fault(opts.limit_per),
        opts.rank_by is None && opts.limit_per is None && diversity_fault(opts.diversity) is Some
            ==> query_fault(opts) == diversity_fault(opts.diversity),
        opts.rank_by is None && opts.limit_per is None && opts.diversity is None ==> query_fault(
            opts,
        ) == expand_fault(opts.expand),
        opts.rank_by is None ==> rank_fault(opts.rank_by) is None,
{
}

/// An age is how far a time lies behind the origin: none for a time that is not behind it, and
/// no more than the largest number.
pub proof fn ages_count_from_the_origin(origin: i64, ts: i64)
    ensures
        ts >= origin ==> age_of(origin, ts) == 0,
        ts < origin && origin - ts <= 0x7fff_ffff_ffff_ffff ==> age_of(origin, ts) == origin - ts,
        ts < origin && origin - ts > 0x7fff_ffff_ffff_ffff ==> age_of(origin, ts)
            == 0x7fff_ffff_ffff_ffff,
{
}

/// What a ranking expression reads of a record: its age by the timestamp, an integer or a date,
/// where the expression names one; and how often it was recalled, none where the attribute is
/// missing, no number or negative, where the expression counts that.
pub proof fn what_is_read_of_a_record(d: Decay, attrs: AttrsV)
    ensures
        d.field@.len() == 0 ==> terms(d, attrs).recency == Recency::Off,
        d.field@.len() > 0 && attrs.contains_key(d.field@) ==> {
            &&& attrs[d.field@] matches ValueV::DateTime(t) ==> terms(d, attrs).recency
                == Recency::Age(age_of(d.origin, t))
            &&& attrs[d.field@] matches ValueV::Int(t) ==> terms(d, attrs).recency == Recency::Age(
                age_of(d.origin, t),
            )
            &&& !(attrs[d.field@] is Int) && !(attrs[d.field@] is DateTime) ==> terms(
                d,
                attrs,
            ).recency == Recency::Missing
        },
        d.field@.len() > 0 && !attrs.contains_key(d.field@) ==> terms(d, attrs).recency
            == Recency::Missing,
        d.count_field is None ==> terms(d, attrs).recalls is None,
        d.count_field matches Some(f) ==> {
            &&& terms(d, attrs).recalls is Some
            &&& attrs.contains_key(f@) && attrs[f@] is Int && attrs[f@]->Int_0 >= 0 ==> terms(
                d,
                attrs,
            ).recalls == Some(attrs[f@]->Int_0)
            &&& attrs.contains_key(f@) && attrs[f@] is DateTime && attrs[f@]->DateTime_0 >= 0
                ==> terms(d, attrs).recalls == Some(attrs[f@]->DateTime_0)
            &&& !(attrs.contains_key(f@) && ((attrs[f@] is Int && attrs[f@]->Int_0 >= 0) || (
            attrs[f@] is DateTime && attrs[f@]->DateTime_0 >= 0))) ==> terms(d, attrs).recalls
                == Some(0i64)
        },
{
}

/// A projection keeps every attribute, those that are named, or all but those; what it keeps it
/// keeps as it is.
pub proof fn projections_pick_attributes(p: Projection, attrs: AttrsV, key: Seq<char>)
    ensures
        ({
            let kept = crate::model::project(p, attrs);
            &&& kept.contains_key(key) ==> attrs.contains_key(key) && kept[key] == attrs[key]
            &&& p is All ==> (kept.contains_key(key) <==> attrs.contains_key(key))
            &&& p matches Projection::Include(keys) ==> (kept.contains_key(key)
                <==> attrs.contains_key(key) && exists|i: int|
                0 <= i < keys@.len() && (#[trigger] keys@[i])@ == key)
            &&& p matches Projection::Exclude(keys) ==> (kept.contains_key(key)
                <==> attrs.contains_key(key) && forall|i: int|
                0 <= i < keys@.len() ==> (#[trigger] keys@[i])@ != key)
        }),
{
    let keys = match p {
        Projection::Include(keys) => keys,
        Projection::Exclude(keys) => keys,
        Projection::All => arbitrary(),
    };
    let seen = crate::dict::views(keys@);
    if seen.contains(key) {
        let i = choose|i: int| 0 <= i < seen.len() && seen[i] == key;
        assert(keys@[i]@ == key);
    }
    if exists|i: int| 0 <= i < keys@.len() && (#[trigger] keys@[i])@ == key {
        let i = choose|i: int| 0 <= i < keys@.len() && (#[trigger] keys@[i])@ == key;
        assert(seen[i] == key);
    }
}

} // verus!
