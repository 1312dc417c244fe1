//! Ranking: the order of results, the gates in front of it, and the page cut out of it.

use vstd::prelude::*;

use crate::bits;
use crate::model::{
    Decay, DecayFault, Expand, ExpandField, LimitPer, QueryFault, RankBy, SearchOpts,
};
use crate::order::{
    clip, lex_asymmetric, lex_irreflexive, lex_lt, lex_total, lex_transitive, offer, side, sorted,
    sorted_len, sorted_ordered, top, weak_order, Side,
};
use crate::value::{Attrs, AttrsV, Value, ValueV};

verus! {

/// How much deeper than a page a capped search ranks.
pub const LIMIT_PER_OVERFETCH: usize = 8;

/// How much deeper than a page a diversified search ranks.
pub const MMR_OVERFETCH: usize = 4;

// ── The order of results ────────────────────────────────────────────────────

/// A candidate of a ranking. `score` is an `f32` bit pattern.
#[derive(Clone, Debug, PartialEq)]
pub struct Scored {
    pub score: u32,
    pub collection: String,
    pub id: String,
}

/// What a [`Scored`] holds.
pub ghost struct ScoredV {
    pub score: u32,
    pub collection: Seq<char>,
    pub id: Seq<char>,
}

impl View for Scored {
    type V = ScoredV;

    open spec fn view(&self) -> ScoredV {
        ScoredV { score: self.score, collection: self.collection@, id: self.id@ }
    }
}

/// `a` is ranked before `b`: by score descending with NaN last, then by collection, then by id.
pub open spec fn before(a: ScoredV, b: ScoredV) -> bool {
    ||| bits::ahead(a.score, b.score)
    ||| bits::level(a.score, b.score) && (lex_lt(a.collection, b.collection) || (a.collection
        == b.collection && lex_lt(a.id, b.id)))
}

/// [`before`] as a function value.
pub open spec fn ranking() -> spec_fn(ScoredV, ScoredV) -> bool {
    |a: ScoredV, b: ScoredV| before(a, b)
}

/// [`before`] over candidates.
pub open spec fn scored_ranking() -> spec_fn(Scored, Scored) -> bool {
    |a: Scored, b: Scored| before(a@, b@)
}

proof fn before_asymmetric(a: ScoredV, b: ScoredV)
    requires
        before(a, b),
    ensures
        !before(b, a),
{
    if !bits::ahead(a.score, b.score) {
        if lex_lt(a.collection, b.collection) {
            lex_asymmetric(a.collection, b.collection);
        } else {
            lex_irreflexive(a.collection);
            lex_asymmetric(a.id, b.id);
        }
    }
}

proof fn before_weak(a: ScoredV, b: ScoredV, c: ScoredV)
    requires
        before(a, c),
    ensures
        before(a, b) || before(b, c),
{
    if !bits::ahead(a.score, b.score) && !bits::ahead(b.score, c.score) && !bits::ahead(
        a.score,
        c.score,
    ) {
        lex_total(a.collection, b.collection);
        lex_total(b.collection, c.collection);
        if lex_lt(a.collection, c.collection) {
            if lex_lt(b.collection, a.collection) {
                lex_transitive(b.collection, a.collection, c.collection);
            }
        } else {
            lex_total(a.id, b.id);
            if lex_lt(b.id, a.id) {
                lex_transitive(b.id, a.id, c.id);
            }
        }
    }
}

/// The order of results is a strict order in which incomparability is transitive.
pub proof fn ranking_is_order()
    ensures
        weak_order(ranking()),
        weak_order(scored_ranking()),
{
    assert forall|a: ScoredV, b: ScoredV| #[trigger] ranking()(a, b) implies !ranking()(b, a) by {
        before_asymmetric(a, b);
    }
    assert forall|a: ScoredV, b: ScoredV, c: ScoredV| ranking()(a, c) implies #[trigger] ranking()(
        a,
        b,
    ) || #[trigger] ranking()(b, c) by {
        before_weak(a, b, c);
    }
    assert forall|a: Scored, b: Scored| #[trigger]
        scored_ranking()(a, b) implies !scored_ranking()(b, a) by {
        before_asymmetric(a@, b@);
    }
    assert forall|a: Scored, b: Scored, c: Scored|
        scored_ranking()(a, c) implies #[trigger] scored_ranking()(a, b)
        || #[trigger] scored_ranking()(b, c) by {
        before_weak(a@, b@, c@);
    }
}

/// Two candidates of different documents are never level: the order of results is total.
pub proof fn ranking_is_total(a: ScoredV, b: ScoredV)
    requires
        a.collection != b.collection || a.id != b.id,
    ensures
        before(a, b) || before(b, a),
{
    lex_total(a.collection, b.collection);
    lex_total(a.id, b.id);
}

/// Whether a candidate is ranked before another.
pub fn ranks_before(s: u32, c: &str, i: &str, t: u32, d: &str, j: &str) -> (r: bool)
    ensures
        r == before(
            ScoredV { score: s, collection: c@, id: i@ },
            ScoredV { score: t, collection: d@, id: j@ },
        ),
{
    if bits::is_ahead(s, t) {
        return true;
    }
    if bits::is_ahead(t, s) {
        return false;
    }
    match side(c, d) {
        Side::Before => true,
        Side::After => {
            proof {
                lex_asymmetric(d@, c@);
            }
            false
        },
        Side::Same => {
            proof {
                lex_irreflexive(c@);
            }
            match side(i, j) {
                Side::Before => true,
                _ => false,
            }
        },
    }
}

/// Whether `a` is ranked before `b`.
pub fn is_before(a: &Scored, b: &Scored) -> (r: bool)
    ensures
        r == before(a@, b@),
{
    ranks_before(
        a.score,
        a.collection.as_str(),
        a.id.as_str(),
        b.score,
        b.collection.as_str(),
        b.id.as_str(),
    )
}

/// The best `k` candidates so far.
pub struct TopK {
    best: Vec<Scored>,
    k: usize,
    seen: Ghost<Seq<Scored>>,
}

impl TopK {
    /// Every candidate that was offered.
    pub closed spec fn offered(&self) -> Seq<ScoredV> {
        self.seen@.map_values(|x: Scored| x@)
    }

    /// How many are kept.
    pub closed spec fn bound(&self) -> nat {
        self.k as nat
    }

    pub closed spec fn wf(&self) -> bool {
        self.best@ == top(self.seen@, self.k as int, scored_ranking())
    }

    pub fn new(k: usize) -> (r: TopK)
        ensures
            r.wf(),
            r.bound() == k,
            r.offered() == Seq::<ScoredV>::empty(),
    {
        let r = TopK { best: Vec::new(), k, seen: Ghost(Seq::empty()) };
        proof {
            assert(r.offered() =~= Seq::<ScoredV>::empty());
            assert(r.best@ =~= top(r.seen@, r.k as int, scored_ranking()));
        }
        r
    }

    /// Offer a candidate.
    pub fn offer(&mut self, x: Scored)
        requires
            old(self).wf(),
        ensures
            final(self).wf(),
            final(self).bound() == old(self).bound(),
            final(self).offered() == old(self).offered().push(x@),
    {
        proof {
            ranking_is_order();
        }
        let ghost seen = self.seen@;
        let f = |a: &Scored, b: &Scored| -> (r: bool)
            ensures
                r == before(a@, b@),
            { is_before(a, b) };
        offer(&mut self.best, x, self.k, &f, Ghost(scored_ranking()), Ghost(seen));
        self.seen = Ghost(seen.push(x));
        proof {
            assert(self.offered() =~= old(self).offered().push(x@));
        }
    }

    /// The best candidates, the best first.
    pub fn into_sorted(self) -> (out: Vec<Scored>)
        requires
            self.wf(),
        ensures
            crate::dict::views(out@) == top(self.offered(), self.bound() as int, ranking()),
    {
        proof {
            let f = |x: Scored| x@;
            crate::order::sorted_map(self.seen@, f, scored_ranking(), ranking());
            assert(self.offered() =~= self.seen@.map_values(f));
            assert(crate::dict::views(self.best@) =~= top(
                self.offered(),
                self.bound() as int,
                ranking(),
            ));
        }
        self.best
    }
}

// ── Laws of a ranking ───────────────────────────────────────────────────────

/// Best first: nothing in a ranking stands behind a result that it is before.
pub proof fn top_is_ordered(s: Seq<ScoredV>, k: int)
    requires
        0 <= k,
    ensures
        forall|i: int, j: int|
            0 <= i < j < top(s, k, ranking()).len() ==> !before(
                #[trigger] top(s, k, ranking())[j],
                #[trigger] top(s, k, ranking())[i],
            ),
{
    ranking_is_order();
    sorted_ordered(s, ranking());
    sorted_len(s, ranking());
    let t = top(s, k, ranking());
    assert forall|i: int, j: int| 0 <= i < j < t.len() implies !before(
        #[trigger] t[j],
        #[trigger] t[i],
    ) by {
        assert(t[i] == sorted(s, ranking())[i]);
        assert(t[j] == sorted(s, ranking())[j]);
        assert(!ranking()(sorted(s, ranking())[j], sorted(s, ranking())[i]));
    }
}

/// Nothing that a ranking leaves out is before anything that it keeps, and it leaves something out
/// only once it is full.
pub proof fn nothing_better_is_left_out(s: Seq<ScoredV>, k: int, x: ScoredV)
    requires
        0 <= k,
        s.contains(x),
        !top(s, k, ranking()).contains(x),
    ensures
        top(s, k, ranking()).len() == k,
        forall|i: int| 0 <= i < k ==> !before(x, #[trigger] top(s, k, ranking())[i]),
{
    ranking_is_order();
    sorted_ordered(s, ranking());
    sorted_len(s, ranking());
    crate::order::sorted_members(s, ranking());
    let all = sorted(s, ranking());
    let t = top(s, k, ranking());
    assert(all.contains(x));
    let j = choose|j: int| 0 <= j < all.len() && all[j] == x;
    if all.len() <= k {
        assert(t == all);
    } else {
        if j < k {
            assert(t[j] == x);
        }
        assert forall|i: int| 0 <= i < k implies !before(x, #[trigger] t[i]) by {
            assert(t[i] == all[i]);
            assert(!ranking()(all[j], all[i]));
        }
    }
}

/// A deeper ranking begins with the shallower one.
pub proof fn deeper_extends(s: Seq<ScoredV>, k: int, m: int)
    requires
        0 <= k <= m,
    ensures
        top(s, k, ranking()) == clip(top(s, m, ranking()), k),
{
    assert(top(s, k, ranking()) =~= clip(top(s, m, ranking()), k));
}

// ── Pages ───────────────────────────────────────────────────────────────────

/// The page of `k` results behind the first `offset`.
pub open spec fn page<T>(ranked: Seq<T>, offset: int, k: int) -> Seq<T> {
    if offset >= ranked.len() {
        Seq::empty()
    } else {
        clip(ranked.skip(offset), k)
    }
}

/// Drop the first `offset` entries: the one place where a page begins.
pub fn paginate<T>(ranked: Vec<T>, offset: usize) -> (out: Vec<T>)
    ensures
        offset >= ranked@.len() ==> out@ == Seq::<T>::empty(),
        offset < ranked@.len() ==> out@ == ranked@.skip(offset as int),
{
    let mut ranked = ranked;
    if offset == 0 {
        proof {
            assert(ranked@.skip(0) =~= ranked@);
        }
        return ranked;
    }
    if offset >= ranked.len() {
        return Vec::new();
    }
    let ghost all = ranked@;
    let rest = ranked.split_off(offset);
    proof {
        assert(rest@ =~= all.skip(offset as int));
    }
    rest
}

/// Cut one page.
pub fn cut<T>(ranked: Vec<T>, offset: usize, k: usize) -> (out: Vec<T>)
    ensures
        out@ == page(ranked@, offset as int, k as int),
{
    let mut out = paginate(ranked, offset);
    if out.len() > k {
        out.truncate(k);
    }
    proof {
        assert(out@ =~= page(ranked@, offset as int, k as int));
    }
    out
}

/// Two pages in a row are one page of both lengths: no result is lost or shown twice.
pub proof fn pages_join<T>(ranked: Seq<T>, offset: int, k: int, m: int)
    requires
        0 <= offset,
        0 <= k,
        0 <= m,
    ensures
        page(ranked, offset, k) + page(ranked, offset + k, m) == page(ranked, offset, k + m),
{
    assert(page(ranked, offset, k) + page(ranked, offset + k, m) =~= page(ranked, offset, k + m));
}

/// An offset past the last result is an empty page.
pub proof fn page_past_the_end<T>(ranked: Seq<T>, offset: int, k: int)
    requires
        offset >= ranked.len(),
    ensures
        page(ranked, offset, k) == Seq::<T>::empty(),
{
}

/// A page of a ranking that is just deep enough is that page of the full ranking.
pub proof fn page_needs_no_more(s: Seq<ScoredV>, offset: int, k: int, depth: int)
    requires
        0 <= offset,
        0 <= k,
        offset + k <= depth,
    ensures
        page(top(s, depth, ranking()), offset, k) == page(sorted(s, ranking()), offset, k),
{
    assert(page(top(s, depth, ranking()), offset, k) =~= page(sorted(s, ranking()), offset, k));
}

// ── Gates ───────────────────────────────────────────────────────────────────

/// The score is not below the floor, where there is one.
pub open spec fn clears(min: Option<u32>, score: u32) -> bool {
    min matches Some(m) ==> !bits::num_lt(score, m)
}

/// Whether the score is not below the floor, where there is one.
pub fn clears_floor(min: Option<u32>, score: u32) -> (r: bool)
    ensures
        r == clears(min, score),
{
    match min {
        Some(m) => !bits::less(score, m),
        None => true,
    }
}

/// `a * b`, or the largest number where that is larger.
pub open spec fn times(a: usize, b: usize) -> usize {
    if a * b > usize::MAX {
        usize::MAX
    } else {
        (a * b) as usize
    }
}

/// `a + b`, or the largest number where that is larger.
pub open spec fn plus(a: usize, b: usize) -> usize {
    if a + b > usize::MAX {
        usize::MAX
    } else {
        (a + b) as usize
    }
}

/// `a * b`, no more than `usize::MAX`.
pub fn saturating_times(a: usize, b: usize) -> (r: usize)
    ensures
        r == times(a, b),
{
    match a.checked_mul(b) {
        Some(x) => x,
        None => usize::MAX,
    }
}

/// `a + b`, no more than `usize::MAX`.
pub fn saturating_plus(a: usize, b: usize) -> (r: usize)
    ensures
        r == plus(a, b),
{
    match a.checked_add(b) {
        Some(x) => x,
        None => usize::MAX,
    }
}

/// How much deeper than a page a search must rank: a cap per value thins the ranking and
/// diversity reorders it. The larger factor serves both.
pub open spec fn overfetch(opts: SearchOpts) -> usize {
    if opts.limit_per is Some {
        LIMIT_PER_OVERFETCH
    } else if opts.diversity is Some {
        MMR_OVERFETCH
    } else {
        1
    }
}

/// How deep a search must rank.
pub open spec fn depth_of(opts: SearchOpts) -> usize {
    times(plus(opts.offset, opts.top_k), overfetch(opts))
}

/// How deep a search must rank: one page, times the over-fetch.
pub fn depth(opts: &SearchOpts) -> (r: usize)
    ensures
        r == depth_of(*opts),
{
    let page: usize = saturating_plus(opts.offset, opts.top_k);
    let cap: usize = if opts.limit_per.is_some() {
        LIMIT_PER_OVERFETCH
    } else {
        1
    };
    let spread: usize = if opts.diversity.is_some() {
        MMR_OVERFETCH
    } else {
        1
    };
    saturating_times(
        page,
        if cap > spread {
            cap
        } else {
            spread
        },
    )
}

/// A search ranks at least its page deep.
pub proof fn depth_covers_the_page(opts: SearchOpts)
    requires
        opts.offset + opts.top_k <= usize::MAX,
    ensures
        depth_of(opts) >= opts.offset + opts.top_k,
{
    let p = plus(opts.offset, opts.top_k);
    let o = overfetch(opts);
    assert(p * o >= p) by (nonlinear_arith)
        requires
            o >= 1,
            p >= 0,
    ;
}

// ── Refusals ────────────────────────────────────────────────────────────────

/// A weight that is no number, infinite or negative.
pub open spec fn bad_weight(w: u32) -> bool {
    !bits::is_finite(w) || bits::num_lt(w, bits::ZERO)
}

/// Whether a weight cannot be used.
pub fn is_bad_weight(w: u32) -> (r: bool)
    ensures
        r == bad_weight(w),
{
    !bits::finite(w) || bits::less(w, bits::ZERO)
}

/// What is wrong with a ranking expression, the first fault in the order of its fields.
pub open spec fn decay_fault(d: Decay) -> Option<DecayFault> {
    if d.field@.len() == 0 && d.count_field is None {
        Some(DecayFault::Field)
    } else if d.scale <= 0 {
        Some(DecayFault::Scale(d.scale))
    } else if !(bits::num_lt(bits::ZERO, d.decay) && bits::num_lt(d.decay, bits::ONE)) {
        Some(DecayFault::Decay)
    } else if bad_weight(d.lambda) {
        Some(DecayFault::Lambda)
    } else if bits::is_nan(d.missing) || bits::num_lt(d.missing, bits::ZERO) || bits::num_lt(
        bits::ONE,
        d.missing,
    ) {
        Some(DecayFault::Missing)
    } else if d.count_field is Some && !bits::is_nan(d.count_scale) && !bits::num_lt(
        bits::ZERO,
        d.count_scale,
    ) {
        Some(DecayFault::CountScale)
    } else if bad_weight(d.count_lambda) {
        Some(DecayFault::CountLambda)
    } else {
        None
    }
}

/// What is wrong with an optional ranking expression.
pub open spec fn rank_fault(rank_by: Option<RankBy>) -> Option<QueryFault> {
    match rank_by {
        Some(RankBy::Decay(d)) => match decay_fault(d) {
            Some(f) => Some(QueryFault::Decay(f)),
            None => None,
        },
        None => None,
    }
}

/// Refuse a ranking expression that cannot be honoured as written.
pub fn validate_rank(rank_by: Option<&RankBy>) -> (r: Result<(), QueryFault>)
    ensures
        ({
            let fault = rank_fault(
                match rank_by {
                    Some(x) => Some(*x),
                    None => None,
                },
            );
            &&& fault matches Some(f) ==> r == Err::<(), QueryFault>(f)
            &&& fault is None ==> r is Ok
        }),
{
    let d = match rank_by {
        Some(RankBy::Decay(d)) => d,
        None => {
            return Ok(());
        },
    };
    if d.field.as_str().is_empty() && d.count_field.is_none() {
        return Err(QueryFault::Decay(DecayFault::Field));
    }
    if d.scale <= 0 {
        return Err(QueryFault::Decay(DecayFault::Scale(d.scale)));
    }
    if !(bits::less(bits::ZERO, d.decay) && bits::less(d.decay, bits::ONE)) {
        return Err(QueryFault::Decay(DecayFault::Decay));
    }
    if is_bad_weight(d.lambda) {
        return Err(QueryFault::Decay(DecayFault::Lambda));
    }
    if bits::nan(d.missing) || bits::less(d.missing, bits::ZERO) || bits::less(
        bits::ONE,
        d.missing,
    ) {
        return Err(QueryFault::Decay(DecayFault::Missing));
    }
    if d.count_field.is_some() && !bits::nan(d.count_scale) && !bits::less(
        bits::ZERO,
        d.count_scale,
    ) {
        return Err(QueryFault::Decay(DecayFault::CountScale));
    }
    if is_bad_weight(d.count_lambda) {
        return Err(QueryFault::Decay(DecayFault::CountLambda));
    }
    Ok(())
}

/// What is wrong with a cap per value.
pub open spec fn limit_fault(limit_per: Option<LimitPer>) -> Option<QueryFault> {
    match limit_per {
        Some(cap) => if cap.field@.len() == 0 {
            Some(QueryFault::LimitPerField)
        } else if cap.max == 0 {
            Some(QueryFault::LimitPerMax)
        } else {
            None
        },
        None => None,
    }
}

/// Refuse a cap that cannot be honoured: no field, or none at all of each value.
pub fn validate_limit(limit_per: Option<&LimitPer>) -> (r: Result<(), QueryFault>)
    ensures
        ({
            let fault = limit_fault(
                match limit_per {
                    Some(x) => Some(*x),
                    None => None,
                },
            );
            &&& fault matches Some(f) ==> r == Err::<(), QueryFault>(f)
            &&& fault is None ==> r is Ok
        }),
{
    match limit_per {
        Some(cap) => {
            if cap.field.as_str().is_empty() {
                Err(QueryFault::LimitPerField)
            } else if cap.max == 0 {
                Err(QueryFault::LimitPerMax)
            } else {
                Ok(())
            }
        },
        None => Ok(()),
    }
}

/// What is wrong with the weight of relevance against redundancy.
pub open spec fn diversity_fault(diversity: Option<u32>) -> Option<QueryFault> {
    match diversity {
        Some(l) => if !bits::is_finite(l) || bits::num_lt(l, bits::ZERO) || bits::num_lt(
            bits::ONE,
            l,
        ) {
            Some(QueryFault::Diversity)
        } else {
            None
        },
        None => None,
    }
}

/// Refuse a diversity weight outside the closed unit interval.
pub fn validate_diversity(diversity: Option<u32>) -> (r: Result<(), QueryFault>)
    ensures
        diversity_fault(diversity) matches Some(f) ==> r == Err::<(), QueryFault>(f),
        diversity_fault(diversity) is None ==> r is Ok,
{
    match diversity {
        Some(l) => {
            if !bits::finite(l) || bits::less(l, bits::ZERO) || bits::less(bits::ONE, l) {
                Err(QueryFault::Diversity)
            } else {
                Ok(())
            }
        },
        None => Ok(()),
    }
}

/// A white-space character.
pub open spec fn is_space(c: char) -> bool {
    ||| 0x9 <= c as int <= 0xd
    ||| c as int == 0x20
    ||| c as int == 0x85
    ||| c as int == 0xa0
    ||| c as int == 0x1680
    ||| 0x2000 <= c as int <= 0x200a
    ||| c as int == 0x2028
    ||| c as int == 0x2029
    ||| c as int == 0x202f
    ||| c as int == 0x205f
    ||| c as int == 0x3000
}

/// Nothing but white space.
pub open spec fn blank(s: Seq<char>) -> bool {
    forall|i: int| 0 <= i < s.len() ==> is_space(#[trigger] s[i])
}

/// Whether a string holds nothing but white space.
pub fn is_blank(s: &str) -> (r: bool)
    ensures
        r == blank(s@),
{
    let chars = crate::value::chars_of(s);
    let mut i: usize = 0;
    while i < chars.len()
        invariant
            i <= chars@.len(),
            chars@ == s@,
            forall|j: int| 0 <= j < i ==> is_space(#[trigger] s@[j]),
        decreases chars@.len() - i,
    {
        let c: char = chars[i];
        let space = ('\u{9}' <= c && c <= '\u{d}') || c == ' ' || c == '\u{85}' || c == '\u{a0}'
            || c == '\u{1680}' || ('\u{2000}' <= c && c <= '\u{200a}') || c == '\u{2028}' || c
            == '\u{2029}' || c == '\u{202f}' || c == '\u{205f}' || c == '\u{3000}';
        proof {
            assert(space == is_space(s@[i as int]));
        }
        if !space {
            return false;
        }
        i = i + 1;
    }
    true
}

/// What is wrong with an expansion.
pub open spec fn expand_fault(expand: Option<Expand>) -> Option<QueryFault> {
    match expand {
        Some(e) => if blank(e.parent_field@) {
            Some(QueryFault::Expand(ExpandField::Parent))
        } else if blank(e.index_field@) {
            Some(QueryFault::Expand(ExpandField::Index))
        } else if blank(e.text_field@) {
            Some(QueryFault::Expand(ExpandField::Text))
        } else {
            None
        },
        None => None,
    }
}

/// Refuse an expansion with a blank field name.
pub fn validate_expand(expand: Option<&Expand>) -> (r: Result<(), QueryFault>)
    ensures
        ({
            let fault = expand_fault(
                match expand {
                    Some(x) => Some(*x),
                    None => None,
                },
            );
            &&& fault matches Some(f) ==> r == Err::<(), QueryFault>(f)
            &&& fault is None ==> r is Ok
        }),
{
    match expand {
        Some(e) => {
            if is_blank(e.parent_field.as_str()) {
                Err(QueryFault::Expand(ExpandField::Parent))
            } else if is_blank(e.index_field.as_str()) {
                Err(QueryFault::Expand(ExpandField::Index))
            } else if is_blank(e.text_field.as_str()) {
                Err(QueryFault::Expand(ExpandField::Text))
            } else {
                Ok(())
            }
        },
        None => Ok(()),
    }
}

/// The first fault among the options that shape a ranking.
pub open spec fn query_fault(opts: SearchOpts) -> Option<QueryFault> {
    if rank_fault(opts.rank_by) is Some {
        rank_fault(opts.rank_by)
    } else if limit_fault(opts.limit_per) is Some {
        limit_fault(opts.limit_per)
    } else if diversity_fault(opts.diversity) is Some {
        diversity_fault(opts.diversity)
    } else {
        expand_fault(opts.expand)
    }
}

/// Refuse the options that cannot shape a ranking, once per query.
pub fn check_query_opts(opts: &SearchOpts) -> (r: Result<(), QueryFault>)
    ensures
        query_fault(*opts) matches Some(f) ==> r == Err::<(), QueryFault>(f),
        query_fault(*opts) is None ==> r is Ok,
{
    if let Err(f) = validate_rank(opts.rank_by.as_ref()) {
        return Err(f);
    }
    if let Err(f) = validate_limit(opts.limit_per.as_ref()) {
        return Err(f);
    }
    if let Err(f) = validate_diversity(opts.diversity) {
        return Err(f);
    }
    validate_expand(opts.expand.as_ref())
}

// ── Ranking expressions ─────────────────────────────────────────────────────

/// How old a record is, for the recency term of a ranking expression.
#[derive(Clone, Copy, Debug, PartialEq, Eq, Structural)]
pub enum Recency {
    /// The expression has no recency term.
    Off,
    /// The record has no timestamp.
    Missing,
    /// Milliseconds of age; a timestamp in the future is no age.
    Age(i64),
}

/// What a ranking expression reads off one record.
#[derive(Clone, Copy, Debug, PartialEq, Eq, Structural)]
pub struct RankTerms {
    pub recency: Recency,
    /// How often the record was recalled, where the expression has a recall term.
    pub recalls: Option<i64>,
}

/// `origin - ts`, no less than zero and no more than `i64::MAX`.
pub open spec fn age_of(origin: i64, ts: i64) -> i64 {
    if origin - ts <= 0 {
        0
    } else if origin - ts > i64::MAX {
        i64::MAX
    } else {
        (origin - ts) as i64
    }
}

/// The whole number under `k`, of an integer or a date.
pub open spec fn number_at(attrs: AttrsV, k: Seq<char>) -> Option<i64> {
    if attrs.contains_key(k) {
        match attrs[k] {
            ValueV::Int(n) => Some(n),
            ValueV::DateTime(n) => Some(n),
            _ => None,
        }
    } else {
        None
    }
}

/// What a ranking expression reads of a record.
pub open spec fn terms(d: Decay, attrs: AttrsV) -> RankTerms {
    RankTerms {
        recency: if d.field@.len() == 0 {
            Recency::Off
        } else {
            match number_at(attrs, d.field@) {
                Some(ts) => Recency::Age(age_of(d.origin, ts)),
                None => Recency::Missing,
            }
        },
        recalls: match d.count_field {
            Some(f) => match number_at(attrs, f@) {
                Some(n) => Some(
                    if n < 0 {
                        0
                    } else {
                        n
                    },
                ),
                None => Some(0),
            },
            None => None,
        },
    }
}

fn number_of(attrs: &Attrs, k: &str) -> (r: Option<i64>)
    ensures
        r == number_at(attrs@, k@),
{
    match attrs.get(k) {
        Some(Value::Int(n)) => Some(*n),
        Some(Value::DateTime(n)) => Some(*n),
        _ => None,
    }
}

/// What a ranking expression reads off one record.
pub fn rank_terms(d: &Decay, attrs: &Attrs) -> (r: RankTerms)
    ensures
        r == terms(*d, attrs@),
{
    let recency = if d.field.as_str().is_empty() {
        Recency::Off
    } else {
        match number_of(attrs, d.field.as_str()) {
            Some(ts) => {
                let wide: i128 = d.origin as i128 - ts as i128;
                if wide <= 0 {
                    Recency::Age(0)
                } else if wide > i64::MAX as i128 {
                    Recency::Age(i64::MAX)
                } else {
                    Recency::Age(wide as i64)
                }
            },
            None => Recency::Missing,
        }
    };
    let recalls: Option<i64> = match &d.count_field {
        Some(f) => match number_of(attrs, f.as_str()) {
            Some(n) => if n < 0 {
                Some(0)
            } else {
                Some(n)
            },
            None => Some(0),
        },
        None => None,
    };
    RankTerms { recency, recalls }
}

} // verus!
