//! A second ranking by an outside model: how deep to fetch for it, which texts it gets, and what
//! its scores make of the ranking.

use vstd::prelude::*;

use crate::dict::{views, Dup};
use crate::model::{keeps, project, Hit, HitV, Projection, SearchOpts, META_TEXT};
use crate::order::{reversed, same, sort_stable, sorted, sorted_map};
use crate::rank::{before, depth, depth_of, saturating_times, times, ScoredV};
use crate::value::{AttrsV, Value, ValueV};

verus! {

/// How deep to rank before a second ranking: one page times the overscan, which counts as one at
/// least.
pub open spec fn rerank_depth_of(opts: SearchOpts) -> usize {
    let overscan = match opts.rerank {
        Some(r) => if r.overscan < 1 {
            1
        } else {
            r.overscan
        },
        None => 1,
    };
    times(depth_of(opts), overscan)
}

/// How deep a ranking has to be for a rerank.
pub fn rerank_depth(opts: &SearchOpts) -> (r: usize)
    ensures
        r == rerank_depth_of(*opts),
{
    let overscan: usize = match &opts.rerank {
        Some(r) => if r.overscan < 1 {
            1
        } else {
            r.overscan
        },
        None => 1,
    };
    saturating_times(depth(opts), overscan)
}

/// The attribute that holds the text.
pub open spec fn text_attr(opts: SearchOpts) -> Seq<char> {
    match opts.rerank {
        Some(r) => r.text_attr@,
        None => META_TEXT@,
    }
}

/// A projection that also carries `field`.
fn force_include(p: Projection, field: &str) -> (out: Projection)
    ensures
        forall|key: Seq<char>| #[trigger] keeps(out, key) == (keeps(p, key) || key == field@),
{
    match p {
        Projection::All => Projection::All,
        Projection::Include(keys) => {
            let ghost before = views(keys@);
            let mut keys = keys;
            keys.push(field.to_owned());
            proof {
                let now = views(keys@);
                assert(now =~= before.push(field@));
                assert forall|key: Seq<char>| now.contains(key) == (before.contains(key) || key
                    == field@) by {
                    if before.contains(key) {
                        let i = choose|i: int| 0 <= i < before.len() && before[i] == key;
                        assert(now[i] == key);
                    }
                    if key == field@ {
                        assert(now[before.len() as int] == key);
                    }
                    if now.contains(key) && key != field@ {
                        let i = choose|i: int| 0 <= i < now.len() && now[i] == key;
                        assert(before[i] == key);
                    }
                }
            }
            Projection::Include(keys)
        },
        Projection::Exclude(keys) => {
            let ghost all = views(keys@);
            let mut out: Vec<String> = Vec::new();
            let mut i: usize = 0;
            while i < keys.len()
                invariant
                    i <= keys@.len(),
                    all == views(keys@),
                    forall|key: Seq<char>| #[trigger]
                        views(out@).contains(key) == (all.take(i as int).contains(key) && key
                            != field@),
                decreases keys@.len() - i,
            {
                let x = &keys[i];
                let ghost prior = views(out@);
                if !same(x.as_str(), field) {
                    out.push(x.dup());
                }
                proof {
                    let now = views(out@);
                    let upto = all.take(i + 1);
                    assert(upto =~= all.take(i as int).push(x@));
                    if x@ != field@ {
                        assert(now =~= prior.push(x@));
                    }
                    assert forall|key: Seq<char>| #[trigger] now.contains(key) == (upto.contains(
                        key,
                    ) && key != field@) by {
                        push_contains(all.take(i as int), x@, key);
                        push_contains(prior, x@, key);
                    }
                }
                i = i + 1;
            }
            proof {
                assert(all.take(i as int) =~= all);
            }
            Projection::Exclude(out)
        },
    }
}

proof fn push_contains<T>(s: Seq<T>, x: T, y: T)
    ensures
        s.push(x).contains(y) == (s.contains(y) || x == y),
{
    let t = s.push(x);
    if s.contains(y) {
        let i = choose|i: int| 0 <= i < s.len() && s[i] == y;
        assert(t[i] == y);
    }
    if x == y {
        assert(t[s.len() as int] == y);
    }
    if t.contains(y) && x != y {
        let i = choose|i: int| 0 <= i < t.len() && t[i] == y;
        assert(s[i] == y);
    }
}

/// The options of the fetch before a second ranking: deep enough, from the start, without a cap,
/// and carrying the text. Says whether the text was carried anyway.
pub fn widened_opts(opts: SearchOpts) -> (r: (SearchOpts, bool))
    ensures
        r.0 == (SearchOpts {
            top_k: rerank_depth_of(opts),
            offset: 0,
            limit_per: None,
            projection: r.0.projection,
            ..opts
        }),
        r.1 == keeps(opts.projection, text_attr(opts)),
        r.1 ==> r.0.projection == opts.projection,
        forall|key: Seq<char>| #[trigger]
            keeps(r.0.projection, key) == (keeps(opts.projection, key) || key == text_attr(opts)),
{
    let top_k: usize = rerank_depth(&opts);
    let attr: String = match &opts.rerank {
        Some(r) => r.text_attr.dup(),
        None => META_TEXT.to_owned(),
    };
    let kept = opts.projection.carries(attr.as_str());
    if kept {
        (SearchOpts { top_k, offset: 0, limit_per: None, ..opts }, true)
    } else {
        let projection = force_include(opts.projection, attr.as_str());
        (
            SearchOpts {
                top_k,
                offset: 0,
                limit_per: None,
                projection,
                filter: opts.filter,
                min_score: opts.min_score,
                diversity: opts.diversity,
                expand: opts.expand,
                rank_by: opts.rank_by,
                rerank: opts.rerank,
                exact: opts.exact,
                explain: opts.explain,
                plan: opts.plan,
            },
            false,
        )
    }
}

/// A result as the caller's own projection has it.
pub open spec fn retrimmed(opts: SearchOpts, already_kept: bool, h: HitV) -> HitV {
    if already_kept || opts.rerank is None {
        h
    } else {
        HitV { attrs: h.attrs.remove(text_attr(opts)), ..h }
    }
}

/// Take the text back out of results whose projection did not ask for it.
pub fn retrim(hits: &mut Vec<Hit>, opts: &SearchOpts, already_kept: bool)
    ensures
        views(final(hits)@) == views(old(hits)@).map_values(
            |h: HitV| retrimmed(*opts, already_kept, h),
        ),
{
    let ghost all = views(hits@);
    let ghost want = all.map_values(|h: HitV| retrimmed(*opts, already_kept, h));
    if already_kept {
        proof {
            assert(views(hits@) =~= want);
        }
        return;
    }
    let attr = match &opts.rerank {
        Some(r) => r.text_attr.as_str(),
        None => {
            proof {
                assert(views(hits@) =~= want);
            }
            return;
        },
    };
    let mut i: usize = 0;
    while i < hits.len()
        invariant
            i <= hits@.len(),
            hits@.len() == all.len(),
            opts.rerank is Some,
            !already_kept,
            attr@ == text_attr(*opts),
            forall|j: int|
                0 <= j < i ==> (#[trigger] hits@[j])@ == retrimmed(*opts, already_kept, all[j]),
            forall|j: int| i <= j < all.len() ==> (#[trigger] hits@[j])@ == all[j],
        decreases hits@.len() - i,
    {
        let ghost prior = hits@;
        let mut attrs = hits[i].attrs.dup();
        let _ = attrs.remove(attr);
        hits[i].attrs = attrs;
        proof {
            assert(hits@ =~= prior.update(i as int, hits@[i as int]));
            assert(hits@[i as int]@.attrs == prior[i as int]@.attrs.remove(attr@));
        }
        i = i + 1;
    }
    proof {
        assert(views(hits@) =~= want);
    }
}

/// Fetching wide and trimming again gives what the caller's own projection would have given.
pub proof fn widen_then_trim(opts: SearchOpts, wide: Projection, attrs: AttrsV)
    requires
        opts.rerank is Some,
        forall|key: Seq<char>| #[trigger]
            keeps(wide, key) == (keeps(opts.projection, key) || key == text_attr(opts)),
    ensures
        ({
            let kept = keeps(opts.projection, text_attr(opts));
            let got = project(wide, attrs);
            (if kept {
                got
            } else {
                got.remove(text_attr(opts))
            }) == project(opts.projection, attrs)
        }),
{
    let kept = keeps(opts.projection, text_attr(opts));
    let got = project(wide, attrs);
    let end = if kept {
        got
    } else {
        got.remove(text_attr(opts))
    };
    assert forall|key: Seq<char>| end.contains_key(key) == project(
        opts.projection,
        attrs,
    ).contains_key(key) by {
        assert(keeps(wide, key) == (keeps(opts.projection, key) || key == text_attr(opts)));
    }
    assert(end =~= project(opts.projection, attrs));
}

// ── The texts ───────────────────────────────────────────────────────────────

/// The result has a text to rank by.
pub open spec fn has_text(attr: Seq<char>, h: HitV) -> bool {
    h.attrs.contains_key(attr) && (h.attrs[attr] matches ValueV::Str(s) && s.len() > 0)
}

/// The places of the results with a text, or of those without one.
pub open spec fn places_where(attr: Seq<char>, hits: Seq<HitV>, with: bool) -> Seq<int>
    decreases hits.len(),
{
    if hits.len() == 0 {
        Seq::empty()
    } else {
        let rest = places_where(attr, hits.drop_last(), with);
        if has_text(attr, hits.last()) == with {
            rest.push(hits.len() - 1)
        } else {
            rest
        }
    }
}

/// The texts to rank by, in order, and the places of the results that have none.
pub fn candidate_texts<'a>(hits: &'a Vec<Hit>, attr: &str) -> (r: (Vec<&'a str>, Vec<usize>))
    ensures
        crate::scan::names(r.0@) == places_where(attr@, views(hits@), true).map_values(
            |i: int| views(hits@)[i].attrs[attr@]->Str_0,
        ),
        r.1@.map_values(|i: usize| i as int) == places_where(attr@, views(hits@), false),
{
    let ghost all = views(hits@);
    let mut texts: Vec<&'a str> = Vec::new();
    let mut rest: Vec<usize> = Vec::new();
    let mut i: usize = 0;
    let ghost f = |j: int| all[j].attrs[attr@]->Str_0;
    let ghost g = |j: usize| j as int;
    proof {
        assert(all.take(0) =~= Seq::empty());
        assert(crate::scan::names(texts@) =~= places_where(attr@, all.take(0), true).map_values(f));
        assert(rest@.map_values(g) =~= places_where(attr@, all.take(0), false));
    }
    while i < hits.len()
        invariant
            i <= hits@.len(),
            all == views(hits@),
            f == (|j: int| all[j].attrs[attr@]->Str_0),
            g == (|j: usize| j as int),
            crate::scan::names(texts@) == places_where(
                attr@,
                all.take(i as int),
                true,
            ).map_values(f),
            rest@.map_values(g) == places_where(attr@, all.take(i as int), false),
        decreases hits@.len() - i,
    {
        let ghost before_texts = texts@;
        let ghost before_rest = rest@;
        proof {
            assert(all.take(i + 1).drop_last() =~= all.take(i as int));
            assert(all.take(i + 1).last() == hits@[i as int]@);
        }
        let text: Option<&'a str> = match hits[i].attrs.get(attr) {
            Some(Value::Str(s)) => if s.as_str().is_empty() {
                None
            } else {
                Some(s.as_str())
            },
            _ => None,
        };
        match text {
            Some(t) => {
                texts.push(t);
                proof {
                    assert(crate::scan::names(texts@) =~= crate::scan::names(before_texts).push(
                        t@,
                    ));
                    assert(crate::scan::names(texts@) =~= places_where(
                        attr@,
                        all.take(i + 1),
                        true,
                    ).map_values(f));
                }
            },
            None => {
                rest.push(i);
                proof {
                    assert(rest@.map_values(g) =~= before_rest.map_values(g).push(i as int));
                }
            },
        }
        i = i + 1;
    }
    proof {
        assert(all.take(i as int) =~= all);
    }
    (texts, rest)
}

// ── The scores ──────────────────────────────────────────────────────────────

/// The scores that count: each for a result that exists and that none before it was for.
pub open spec fn counted(scored: Seq<(usize, u32)>, n: int) -> Seq<(usize, u32)>
    decreases scored.len(),
{
    if scored.len() == 0 {
        Seq::empty()
    } else {
        let rest = counted(scored.drop_last(), n);
        let x = scored.last();
        if x.0 < n && !is_for(rest, x.0) {
            rest.push(x)
        } else {
            rest
        }
    }
}

/// Some score is for place `i`.
pub open spec fn is_for(scored: Seq<(usize, u32)>, i: usize) -> bool {
    exists|j: int| 0 <= j < scored.len() && (#[trigger] scored[j]).0 == i
}

/// The places that are passed through: those that exist and are neither scored nor repeated.
pub open spec fn passed(scored: Seq<(usize, u32)>, through: Seq<usize>, n: int) -> Seq<usize>
    decreases through.len(),
{
    if through.len() == 0 {
        Seq::empty()
    } else {
        let rest = passed(scored, through.drop_last(), n);
        let x = through.last();
        if x < n && !is_for(counted(scored, n), x) && !rest.contains(x) {
            rest.push(x)
        } else {
            rest
        }
    }
}

/// A result as the ranking compares it.
pub open spec fn as_scored(h: HitV) -> ScoredV {
    ScoredV { score: h.score, collection: h.collection, id: h.id }
}

/// The order of results.
pub open spec fn hit_order() -> spec_fn(HitV, HitV) -> bool {
    |a: HitV, b: HitV| before(as_scored(a), as_scored(b))
}

/// The results with their new scores, in the order of these, and behind them those passed
/// through, as they were.
pub open spec fn reranked(hits: Seq<HitV>, scored: Seq<(usize, u32)>, through: Seq<usize>) -> Seq<
    HitV,
> {
    let n = hits.len() as int;
    sorted(
        counted(scored, n).map_values(
            |x: (usize, u32)| HitV { score: x.1, ..hits[x.0 as int] },
        ),
        hit_order(),
    ) + passed(scored, through, n).map_values(|i: usize| hits[i as int])
}

/// A second ranking uses no result twice, and none that is not there.
pub proof fn rerank_doubles_nothing(scored: Seq<(usize, u32)>, through: Seq<usize>, n: int)
    ensures
        forall|i: int, j: int|
            0 <= i < j < counted(scored, n).len() ==> (#[trigger] counted(scored, n)[i]).0 != (
            #[trigger] counted(scored, n)[j]).0,
        forall|i: int| 0 <= i < counted(scored, n).len() ==> (#[trigger] counted(scored, n)[i]).0 < n,
        passed(scored, through, n).no_duplicates(),
        forall|i: int|
            0 <= i < passed(scored, through, n).len() ==> #[trigger] passed(scored, through, n)[i]
                < n && !is_for(counted(scored, n), passed(scored, through, n)[i]),
    decreases scored.len() + through.len(),
{
    if scored.len() > 0 {
        rerank_doubles_nothing(scored.drop_last(), Seq::empty(), n);
        let rest = counted(scored.drop_last(), n);
        let all = counted(scored, n);
        assert forall|i: int, j: int| 0 <= i < j < all.len() implies (#[trigger] all[i]).0 != (
        #[trigger] all[j]).0 by {
            if j == rest.len() {
                assert(rest[i].0 == all[i].0);
            } else {
                assert(rest[i].0 != rest[j].0);
            }
        }
        assert forall|i: int| 0 <= i < all.len() implies (#[trigger] all[i]).0 < n by {
            if i < rest.len() {
                assert(rest[i].0 < n);
            }
        }
    }
    if through.len() > 0 {
        rerank_doubles_nothing(scored, through.drop_last(), n);
    }
}

fn is_hit_before(a: &Hit, b: &Hit) -> (r: bool)
    ensures
        r == before(as_scored(a@), as_scored(b@)),
{
    crate::rank::ranks_before(
        a.score,
        a.collection.as_str(),
        a.id.as_str(),
        b.score,
        b.collection.as_str(),
        b.id.as_str(),
    )
}

/// Put the scores of a second ranking (place, score) onto the results that they are for and sort
/// these by them; results without a score follow in their old order, scores untouched.
#[verifier::rlimit(40)]
pub fn apply_scores(hits: Vec<Hit>, scored: &Vec<(usize, u32)>, through: &Vec<usize>) -> (out: Vec<
    Hit,
>)
    ensures
        views(out@) == reranked(views(hits@), scored@, through@),
{
    let ghost all = views(hits@);
    let ghost items = hits@;
    let n: usize = hits.len();
    let mut slots: Vec<Option<Hit>> = Vec::new();
    let mut rest = reversed(hits);
    while rest.len() > 0
        invariant
            slots@.len() + rest@.len() == items.len(),
            forall|j: int|
                0 <= j < rest@.len() ==> #[trigger] rest@[j] == items[items.len() - 1 - j],
            forall|j: int| 0 <= j < slots@.len() ==> #[trigger] slots@[j] == Some(items[j]),
        decreases rest@.len(),
    {
        if let Some(h) = rest.pop() {
            slots.push(Some(h));
        }
    }
    let mut front: Vec<Hit> = Vec::new();
    let ghost pick = |x: (usize, u32)| HitV { score: x.1, ..all[x.0 as int] };
    let mut i: usize = 0;
    proof {
        assert(scored@.take(0) =~= Seq::empty());
        assert(views(front@) =~= counted(scored@.take(0), n as int).map_values(pick));
    }
    while i < scored.len()
        invariant
            i <= scored@.len(),
            n == items.len(),
            all == views(items),
            slots@.len() == n,
            pick == (|x: (usize, u32)| HitV { score: x.1, ..all[x.0 as int] }),
            forall|j: int|
                0 <= j < n ==> #[trigger] slots@[j] == if is_for(
                    counted(scored@.take(i as int), n as int),
                    j as usize,
                ) {
                    None
                } else {
                    Some(items[j])
                },
            views(front@) == counted(scored@.take(i as int), n as int).map_values(pick),
        decreases scored@.len() - i,
    {
        let (at, score) = scored[i];
        let ghost done = counted(scored@.take(i as int), n as int);
        let ghost prior = slots@;
        let ghost so_far = views(front@);
        proof {
            assert(scored@.take(i + 1).drop_last() =~= scored@.take(i as int));
            assert(scored@.take(i + 1).last() == scored@[i as int]);
        }
        if at < n {
            let mut taken: Option<Hit> = None;
            std::mem::swap(&mut taken, &mut slots[at]);
            proof {
                assert(slots@ =~= prior.update(at as int, None));
                assert(prior[at as int] == taken);
            }
            if let Some(h) = taken {
                let mut h = h;
                h.score = score;
                front.push(h);
                proof {
                    assert(views(front@) =~= so_far.push(pick((at, score))));
                    assert(views(front@) =~= counted(
                        scored@.take(i + 1),
                        n as int,
                    ).map_values(pick));
                }
            }
        }
        proof {
            let next = counted(scored@.take(i + 1), n as int);
            assert forall|j: int| 0 <= j < n implies #[trigger] slots@[j] == if is_for(
                next,
                j as usize,
            ) {
                None
            } else {
                Some(items[j])
            } by {
                counted_push(done, (at, score), next, j as usize);
            }
        }
        i = i + 1;
    }
    proof {
        assert(scored@.take(i as int) =~= scored@);
    }
    let ghost raw = front@;
    let f = |a: &Hit, b: &Hit| -> (r: bool)
        ensures
            r == before(as_scored(a@), as_scored(b@)),
        { is_hit_before(a, b) };
    let ghost lt = |a: Hit, b: Hit| before(as_scored(a@), as_scored(b@));
    let mut out = sort_stable(front, &f, Ghost(lt));
    proof {
        let v = |h: Hit| h@;
        sorted_map(raw, v, lt, hit_order());
        assert(raw.map_values(v) =~= counted(scored@, n as int).map_values(pick));
        assert(views(out@) =~= out@.map_values(v));
    }
    let ghost head = views(out@);
    let ghost done = counted(scored@, n as int);
    let ghost read = |x: usize| all[x as int];
    let mut j: usize = 0;
    proof {
        assert(through@.take(0) =~= Seq::empty());
        assert(head + passed(scored@, through@.take(0), n as int).map_values(read) =~= head);
    }
    while j < through.len()
        invariant
            j <= through@.len(),
            n == items.len(),
            all == views(items),
            slots@.len() == n,
            done == counted(scored@, n as int),
            read == (|x: usize| all[x as int]),
            forall|x: int|
                0 <= x < n ==> #[trigger] slots@[x] == if is_for(done, x as usize) || passed(
                    scored@,
                    through@.take(j as int),
                    n as int,
                ).contains(x as usize) {
                    None
                } else {
                    Some(items[x])
                },
            views(out@) == head + passed(
                scored@,
                through@.take(j as int),
                n as int,
            ).map_values(read),
        decreases through@.len() - j,
    {
        let at: usize = through[j];
        let ghost gone = passed(scored@, through@.take(j as int), n as int);
        let ghost prior = slots@;
        let ghost so_far = views(out@);
        proof {
            assert(through@.take(j + 1).drop_last() =~= through@.take(j as int));
            assert(through@.take(j + 1).last() == at);
        }
        if at < n {
            let mut taken: Option<Hit> = None;
            std::mem::swap(&mut taken, &mut slots[at]);
            proof {
                assert(slots@ =~= prior.update(at as int, None));
                assert(prior[at as int] == taken);
            }
            if let Some(h) = taken {
                out.push(h);
                proof {
                    assert(views(out@) =~= so_far.push(all[at as int]));
                    assert(views(out@) =~= head + passed(
                        scored@,
                        through@.take(j + 1),
                        n as int,
                    ).map_values(read));
                }
            }
        }
        proof {
            let next = passed(scored@, through@.take(j + 1), n as int);
            assert forall|x: int| 0 <= x < n implies #[trigger] slots@[x] == if is_for(
                done,
                x as usize,
            ) || next.contains(x as usize) {
                None
            } else {
                Some(items[x])
            } by {
                push_contains(gone, at, x as usize);
            }
        }
        j = j + 1;
    }
    proof {
        assert(through@.take(j as int) =~= through@);
        assert(views(out@) =~= reranked(all, scored@, through@));
    }
    out
}

proof fn counted_push(
    done: Seq<(usize, u32)>,
    x: (usize, u32),
    next: Seq<(usize, u32)>,
    j: usize,
)
    requires
        next == done || next == done.push(x),
    ensures
        next == done.push(x) ==> is_for(next, j) == (is_for(done, j) || x.0 == j),
{
    if next == done.push(x) {
        if is_for(done, j) {
            let i = choose|i: int| 0 <= i < done.len() && (#[trigger] done[i]).0 == j;
            assert(next[i].0 == j);
        }
        if x.0 == j {
            assert(next[done.len() as int].0 == j);
        }
        if is_for(next, j) && x.0 != j {
            let i = choose|i: int| 0 <= i < next.len() && (#[trigger] next[i]).0 == j;
            assert(done[i].0 == j);
        }
    }
}

} // verus!
