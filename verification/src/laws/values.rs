//! Conditions on attributes.

use vstd::prelude::*;

use crate::order::{lex_lt, lt_at};
use crate::value::{
    glob, holds, orderable, passes, value_lt, AttrsV, Filter, Predicate, Value, ValueV,
};

verus! {

/// Integers are ordered as integers, dates as dates, strings at their first difference with a
/// prefix below what it begins; values of different types have no order, nor have booleans, lists
/// and nulls.
pub proof fn values_of_one_type_are_ordered(a: ValueV, b: ValueV)
    ensures
        a is Int && b is Int ==> (value_lt(a, b) <==> a->Int_0 < b->Int_0),
        a is DateTime && b is DateTime ==> (value_lt(a, b) <==> a->DateTime_0 < b->DateTime_0),
        a is Str && b is Str && a != b ==> (value_lt(a, b) <==> !value_lt(b, a)),
        value_lt(a, b) ==> !value_lt(b, a) && a != b,
        value_lt(a, b) ==> (a is Int && b is Int) || (a is DateTime && b is DateTime) || (a is Str
            && b is Str) || (a is Float && b is Float),
{
    if a is Str && b is Str {
        let x = a->Str_0;
        let y = b->Str_0;
        crate::order::lex_irreflexive(x);
        if lex_lt(x, y) {
            crate::order::lex_asymmetric(x, y);
        }
        if x != y {
            crate::order::lex_total(x, y);
        }
    }
}

/// The first character in which two strings differ orders them by its code point, and a string
/// is below every longer one that it begins.
pub proof fn strings_are_ordered_at_their_first_difference(
    head: Seq<char>,
    x: char,
    y: char,
    p: Seq<char>,
    q: Seq<char>,
)
    ensures
        (x as u32) < (y as u32) ==> value_lt(
            ValueV::Str(head.push(x) + p),
            ValueV::Str(head.push(y) + q),
        ),
        value_lt(ValueV::Str(head), ValueV::Str(head.push(x) + p)),
        !value_lt(ValueV::Str(head.push(x) + p), ValueV::Str(head)),
{
    let a = head.push(x) + p;
    let b = head.push(y) + q;
    let n = head.len() as int;
    assert forall|i: int| 0 <= i < n implies a[i] == b[i] && a[i] == head[i] by {}
    assert(a[n] == x && b[n] == y);
    if (x as u32) < (y as u32) {
        assert(lt_at(a, b, n));
    }
    assert(lt_at(head, a, n));
    crate::order::lex_asymmetric(head, a);
}

/// An attribute that can be compared is below the bound, or at least it; above, or at most it;
/// one that cannot, or that the record does not have, is none of these.
pub proof fn comparisons_are_told_apart(f: String, v: Value, attrs: AttrsV)
    ensures
        attrs.contains_key(f@) && orderable(attrs[f@], v@) ==> {
            &&& holds(Predicate::Lt(f, v), attrs) <==> !holds(Predicate::Ge(f, v), attrs)
            &&& holds(Predicate::Gt(f, v), attrs) <==> !holds(Predicate::Le(f, v), attrs)
            &&& !(holds(Predicate::Lt(f, v), attrs) && holds(Predicate::Gt(f, v), attrs))
        },
        !(attrs.contains_key(f@) && orderable(attrs[f@], v@)) ==> {
            &&& !holds(Predicate::Lt(f, v), attrs)
            &&& !holds(Predicate::Le(f, v), attrs)
            &&& !holds(Predicate::Gt(f, v), attrs)
            &&& !holds(Predicate::Ge(f, v), attrs)
        },
{
    if attrs.contains_key(f@) {
        values_of_one_type_are_ordered(attrs[f@], v@);
        values_of_one_type_are_ordered(v@, attrs[f@]);
    }
}

/// What a comparison means of an integer attribute and an integer bound.
pub proof fn integers_compare_as_integers(f: String, v: Value, attrs: AttrsV, n: i64, m: i64)
    requires
        attrs.contains_key(f@),
        attrs[f@] == ValueV::Int(n) && v@ == ValueV::Int(m) || attrs[f@] == ValueV::DateTime(n)
            && v@ == ValueV::DateTime(m),
    ensures
        holds(Predicate::Lt(f, v), attrs) <==> n < m,
        holds(Predicate::Le(f, v), attrs) <==> n <= m,
        holds(Predicate::Gt(f, v), attrs) <==> n > m,
        holds(Predicate::Ge(f, v), attrs) <==> n >= m,
        holds(Predicate::Eq(f, v), attrs) <==> n == m,
{
}

/// Which pairs of values can be compared.
pub proof fn what_can_be_compared(a: ValueV, b: ValueV)
    ensures
        orderable(a, b) <==> (a is Int && b is Int) || (a is DateTime && b is DateTime) || (a is Str
            && b is Str) || (a is Float && b is Float && !(0x7ff0_0000_0000_0000 < a->Float_0
            && a->Float_0 < 0x8000_0000_0000_0000) && !(0xfff0_0000_0000_0000 < a->Float_0) && !(
        0x7ff0_0000_0000_0000 < b->Float_0 && b->Float_0 < 0x8000_0000_0000_0000) && !(
        0xfff0_0000_0000_0000 < b->Float_0)),
{
}

/// Equality is equality of what is held; one of several values is one of them; a negated
/// condition holds where the condition does not.
pub proof fn conditions_mean_what_they_say(
    f: String,
    v: Value,
    vs: Vec<Value>,
    q: Predicate,
    attrs: AttrsV,
)
    ensures
        holds(Predicate::Eq(f, v), attrs) <==> attrs.contains_key(f@) && attrs[f@] == v@,
        holds(Predicate::In(f, vs), attrs) <==> attrs.contains_key(f@) && exists|i: int|
            0 <= i < vs@.len() && (#[trigger] vs@[i])@ == attrs[f@],
        holds(Predicate::Not(Box::new(q)), attrs) <==> !holds(q, attrs),
{
    let seen = crate::dict::views(vs@);
    if attrs.contains_key(f@) {
        if seen.contains(attrs[f@]) {
            let i = choose|i: int| 0 <= i < seen.len() && seen[i] == attrs[f@];
            assert(vs@[i]@ == attrs[f@]);
        }
        if exists|i: int| 0 <= i < vs@.len() && (#[trigger] vs@[i])@ == attrs[f@] {
            let i = choose|i: int| 0 <= i < vs@.len() && (#[trigger] vs@[i])@ == attrs[f@];
            assert(seen[i] == attrs[f@]);
        }
    }
}

/// A filter with one condition more passes what the shorter one passes and the condition admits.
pub proof fn filters_narrow(f: Filter, g: Filter, p: Predicate, attrs: AttrsV)
    requires
        g.0@ == f.0@.push(p),
    ensures
        passes(g, attrs) <==> passes(f, attrs) && holds(p, attrs),
{
    let n = f.0@.len() as int;
    assert(g.0@[n] == p);
    assert forall|i: int| 0 <= i < n implies g.0@[i] == #[trigger] f.0@[i] by {}
    if passes(g, attrs) {
        assert(holds(g.0@[n], attrs));
        assert forall|i: int| 0 <= i < n implies holds(#[trigger] f.0@[i], attrs) by {
            assert(holds(g.0@[i], attrs));
        }
    }
}

/// A pattern without a star matches the string that it is and no other.
pub proof fn a_plain_pattern_matches_itself(pattern: Seq<char>, text: Seq<char>)
    requires
        !pattern.contains('*'),
    ensures
        glob(pattern, text) <==> pattern == text,
    decreases pattern.len(),
{
    if pattern.len() > 0 {
        assert(pattern.contains(pattern[0]));
        assert forall|i: int| 0 <= i < pattern.drop_first().len() implies pattern.drop_first()[i]
            != '*' by {
            assert(pattern.contains(pattern[i + 1]));
        }
        a_plain_pattern_matches_itself(pattern.drop_first(), text.drop_first());
        if text.len() > 0 && pattern[0] == text[0] && pattern.drop_first() == text.drop_first() {
            assert(pattern =~= seq![pattern[0]] + pattern.drop_first());
            assert(text =~= seq![text[0]] + text.drop_first());
        }
    } else {
        assert(text.len() == 0 ==> pattern =~= text);
    }
}

/// A star stands for any run of characters, an empty one too: what follows it matches some tail.
pub proof fn a_star_stands_for_any_run(rest: Seq<char>, text: Seq<char>)
    ensures
        glob(seq!['*'] + rest, text) <==> exists|i: int|
            0 <= i <= text.len() && #[trigger] glob(rest, text.skip(i)),
    decreases text.len(),
{
    let p = seq!['*'] + rest;
    assert(p.drop_first() =~= rest);
    assert(p[0] == '*');
    assert(text.skip(0) =~= text);
    if glob(rest, text) {
        assert(glob(rest, text.skip(0)));
    }
    if text.len() > 0 {
        let t = text.drop_first();
        a_star_stands_for_any_run(rest, t);
        assert forall|i: int| 0 <= i <= t.len() implies t.skip(i) == #[trigger] text.skip(i + 1) by {
            assert(t.skip(i) =~= text.skip(i + 1));
        }
        if glob(p, t) {
            let i = choose|i: int| 0 <= i <= t.len() && #[trigger] glob(rest, t.skip(i));
            assert(t.skip(i) =~= text.skip(i + 1));
            assert(glob(rest, text.skip(i + 1)));
        }
        if exists|i: int| 0 <= i <= text.len() && #[trigger] glob(rest, text.skip(i)) {
            let i = choose|i: int| 0 <= i <= text.len() && #[trigger] glob(rest, text.skip(i));
            if i > 0 {
                assert(t.skip(i - 1) =~= text.skip(i));
                assert(glob(rest, t.skip(i - 1)));
            }
        }
    } else if exists|i: int| 0 <= i <= text.len() && #[trigger] glob(rest, text.skip(i)) {
        let i = choose|i: int| 0 <= i <= text.len() && #[trigger] glob(rest, text.skip(i));
        assert(i == 0);
    }
}

/// Characters before the first star are matched one for one.
pub proof fn what_precedes_a_star_is_matched_literally(
    head: Seq<char>,
    rest: Seq<char>,
    text: Seq<char>,
)
    requires
        !head.contains('*'),
    ensures
        glob(head + rest, text) <==> head.is_prefix_of(text) && glob(
            rest,
            text.skip(head.len() as int),
        ),
    decreases head.len(),
{
    if head.len() == 0 {
        assert(head + rest =~= rest);
        assert(text.skip(0) =~= text);
    } else {
        let p = head + rest;
        let h = head.drop_first();
        assert(head.contains(head[0]));
        assert forall|i: int| 0 <= i < h.len() implies h[i] != '*' by {
            assert(head.contains(head[i + 1]));
        }
        assert(p.drop_first() =~= h + rest);
        assert(p[0] == head[0]);
        if text.len() > 0 {
            let t = text.drop_first();
            what_precedes_a_star_is_matched_literally(h, rest, t);
            if text.len() >= head.len() {
                assert(t.skip(h.len() as int) =~= text.skip(head.len() as int));
            }
            if head[0] == text[0] && h.is_prefix_of(t) {
                assert(head =~= text.subrange(0, head.len() as int)) by {
                    assert forall|i: int| 0 <= i < head.len() implies head[i] == text[i] by {
                        if i > 0 {
                            assert(h[i - 1] == t.subrange(0, h.len() as int)[i - 1]);
                        }
                    }
                }
            }
            if head.is_prefix_of(text) {
                assert(head[0] == text.subrange(0, head.len() as int)[0]);
                assert(h =~= t.subrange(0, h.len() as int)) by {
                    assert forall|i: int| 0 <= i < h.len() implies h[i] == t[i] by {
                        assert(head[i + 1] == text.subrange(0, head.len() as int)[i + 1]);
                    }
                }
            }
        }
    }
}

/// A pattern of a run of characters and a star matches the strings that the run begins.
pub proof fn a_trailing_star_matches_every_ending(head: Seq<char>, text: Seq<char>)
    requires
        !head.contains('*'),
    ensures
        glob(head.push('*'), text) <==> head.is_prefix_of(text),
{
    assert(head.push('*') =~= head + (seq!['*'] + Seq::<char>::empty()));
    what_precedes_a_star_is_matched_literally(head, seq!['*'] + Seq::<char>::empty(), text);
    let tail = text.skip(head.len() as int);
    a_star_stands_for_any_run(Seq::<char>::empty(), tail);
    if head.is_prefix_of(text) {
        assert(tail.skip(tail.len() as int) =~= Seq::<char>::empty());
        assert(glob(Seq::<char>::empty(), tail.skip(tail.len() as int)));
    }
}

/// A glob condition asks for a string that the pattern matches.
pub proof fn only_strings_match_a_pattern(f: String, g: String, attrs: AttrsV)
    ensures
        holds(Predicate::Glob(f, g), attrs) <==> attrs.contains_key(f@) && attrs[f@] is Str && glob(
            g@,
            attrs[f@]->Str_0,
        ),
{
}

} // verus!
