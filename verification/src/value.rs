//! Attribute values and the filters over them.

use vstd::prelude::*;

use crate::bits;
use crate::dict::{dup_all, views, Dict, Dup};
use crate::order::{lex_lt, same, side, Side};
use crate::token::{has_words, holds_words};

verus! {

/// One attribute value. A float is held as its `f64` bit pattern, a date as epoch milliseconds.
#[derive(Clone, Debug, PartialEq)]
pub enum Value {
    Null,
    Str(String),
    Int(i64),
    Bool(bool),
    Float(u64),
    DateTime(i64),
    List(Vec<String>),
}

/// What a [`Value`] holds.
pub ghost enum ValueV {
    Null,
    Str(Seq<char>),
    Int(i64),
    Bool(bool),
    Float(u64),
    DateTime(i64),
    List(Seq<Seq<char>>),
}

impl View for Value {
    type V = ValueV;

    open spec fn view(&self) -> ValueV {
        match self {
            Value::Null => ValueV::Null,
            Value::Str(s) => ValueV::Str(s@),
            Value::Int(i) => ValueV::Int(*i),
            Value::Bool(b) => ValueV::Bool(*b),
            Value::Float(f) => ValueV::Float(*f),
            Value::DateTime(t) => ValueV::DateTime(*t),
            Value::List(items) => ValueV::List(views(items@)),
        }
    }
}

impl Dup for Value {
    fn dup(&self) -> (r: Self) {
        match self {
            Value::Null => Value::Null,
            Value::Str(s) => Value::Str(s.dup()),
            Value::Int(i) => Value::Int(*i),
            Value::Bool(b) => Value::Bool(*b),
            Value::Float(f) => Value::Float(*f),
            Value::DateTime(t) => Value::DateTime(*t),
            Value::List(items) => Value::List(dup_all(items)),
        }
    }
}

/// The attributes of a record.
pub type Attrs = Dict<Value>;

/// What [`Attrs`] hold.
pub type AttrsV = Map<Seq<char>, ValueV>;

fn same_items(a: &Vec<String>, b: &Vec<String>) -> (r: bool)
    ensures
        r == (views(a@) == views(b@)),
{
    if a.len() != b.len() {
        proof {
            assert(views(a@).len() != views(b@).len());
        }
        return false;
    }
    let mut i: usize = 0;
    while i < a.len()
        invariant
            i <= a@.len(),
            a@.len() == b@.len(),
            forall|j: int| 0 <= j < i ==> (#[trigger] a@[j])@ == b@[j]@,
        decreases a@.len() - i,
    {
        if !same(a[i].as_str(), b[i].as_str()) {
            proof {
                assert(views(a@)[i as int] != views(b@)[i as int]);
            }
            return false;
        }
        i = i + 1;
    }
    proof {
        assert(views(a@) =~= views(b@));
    }
    true
}

/// Whether two values hold the same.
pub fn value_same(a: &Value, b: &Value) -> (r: bool)
    ensures
        r == (a@ == b@),
{
    match (a, b) {
        (Value::Null, Value::Null) => true,
        (Value::Str(x), Value::Str(y)) => same(x.as_str(), y.as_str()),
        (Value::Int(x), Value::Int(y)) => *x == *y,
        (Value::Bool(x), Value::Bool(y)) => *x == *y,
        (Value::Float(x), Value::Float(y)) => *x == *y,
        (Value::DateTime(x), Value::DateTime(y)) => *x == *y,
        (Value::List(x), Value::List(y)) => same_items(x, y),
        _ => false,
    }
}

/// Two values have an order: both of one orderable type, and no float is a NaN.
pub open spec fn orderable(a: ValueV, b: ValueV) -> bool {
    match (a, b) {
        (ValueV::Str(_), ValueV::Str(_)) => true,
        (ValueV::Int(_), ValueV::Int(_)) => true,
        (ValueV::DateTime(_), ValueV::DateTime(_)) => true,
        (ValueV::Float(x), ValueV::Float(y)) => !bits::is_nan64(x) && !bits::is_nan64(y),
        _ => false,
    }
}

/// `a` is smaller than `b`; false where the two have no order.
pub open spec fn value_lt(a: ValueV, b: ValueV) -> bool {
    match (a, b) {
        (ValueV::Str(x), ValueV::Str(y)) => lex_lt(x, y),
        (ValueV::Int(x), ValueV::Int(y)) => x < y,
        (ValueV::DateTime(x), ValueV::DateTime(y)) => x < y,
        (ValueV::Float(x), ValueV::Float(y)) => orderable(a, b) && bits::rank64(x) < bits::rank64(
            y,
        ),
        _ => false,
    }
}

/// Where `a` stands relative to `b`, where the two have an order.
pub fn value_side(a: &Value, b: &Value) -> (r: Option<Side>)
    ensures
        r is Some <==> orderable(a@, b@),
        r == Some(Side::Before) <==> value_lt(a@, b@),
        r == Some(Side::After) <==> value_lt(b@, a@),
{
    match (a, b) {
        (Value::Str(x), Value::Str(y)) => Some(side(x.as_str(), y.as_str())),
        (Value::Int(x), Value::Int(y)) => Some(number_side(*x, *y)),
        (Value::DateTime(x), Value::DateTime(y)) => Some(number_side(*x, *y)),
        (Value::Float(x), Value::Float(y)) => {
            if bits::nan64(*x) || bits::nan64(*y) {
                None
            } else {
                Some(number_side(bits::rank_of64(*x), bits::rank_of64(*y)))
            }
        },
        _ => None,
    }
}

fn number_side(x: i64, y: i64) -> (r: Side)
    ensures
        r == Side::Before <==> x < y,
        r == Side::After <==> y < x,
{
    if x < y {
        Side::Before
    } else if y < x {
        Side::After
    } else {
        Side::Same
    }
}

// ── Filters ─────────────────────────────────────────────────────────────────

/// One condition on a record's attributes.
#[derive(Debug, PartialEq)]
pub enum Predicate {
    /// The attribute equals the value.
    Eq(String, Value),
    /// The attribute equals one of the values.
    In(String, Vec<Value>),
    /// The attribute is a string that the pattern matches; `*` stands for any run of characters.
    Glob(String, String),
    Lt(String, Value),
    Le(String, Value),
    Gt(String, Value),
    Ge(String, Value),
    /// The attribute is a string that has every word of the text, without regard to case.
    ContainsAllTokens(String, String),
    /// The condition does not hold.
    Not(Box<Predicate>),
}

impl Clone for Predicate {
    fn clone(&self) -> (r: Self)
        decreases self,
    {
        match self {
            Predicate::Eq(f, v) => Predicate::Eq(f.clone(), v.clone()),
            Predicate::In(f, vs) => Predicate::In(f.clone(), vs.clone()),
            Predicate::Glob(f, g) => Predicate::Glob(f.clone(), g.clone()),
            Predicate::Lt(f, v) => Predicate::Lt(f.clone(), v.clone()),
            Predicate::Le(f, v) => Predicate::Le(f.clone(), v.clone()),
            Predicate::Gt(f, v) => Predicate::Gt(f.clone(), v.clone()),
            Predicate::Ge(f, v) => Predicate::Ge(f.clone(), v.clone()),
            Predicate::ContainsAllTokens(f, t) => {
                Predicate::ContainsAllTokens(f.clone(), t.clone())
            },
            Predicate::Not(q) => Predicate::Not(Box::new((&**q).clone())),
        }
    }
}

/// Conditions that must all hold; none at all admits every record.
#[derive(Clone, Debug, PartialEq)]
pub struct Filter(pub Vec<Predicate>);

impl Default for Filter {
    fn default() -> (r: Self)
        ensures
            r.0@.len() == 0,
    {
        Filter(Vec::new())
    }
}

/// The pattern from `i` on matches the text from `j` on.
pub open spec fn glob(pattern: Seq<char>, text: Seq<char>) -> bool
    decreases pattern.len() + text.len(),
{
    if pattern.len() == 0 {
        text.len() == 0
    } else if pattern[0] == '*' {
        glob(pattern.drop_first(), text) || (text.len() > 0 && glob(pattern, text.drop_first()))
    } else {
        text.len() > 0 && pattern[0] == text[0] && glob(pattern.drop_first(), text.drop_first())
    }
}

/// The attribute value under `field` satisfies the condition.
pub open spec fn holds(p: Predicate, attrs: AttrsV) -> bool
    decreases p,
{
    match p {
        Predicate::Eq(f, v) => attrs.contains_key(f@) && attrs[f@] == v@,
        Predicate::In(f, vs) => attrs.contains_key(f@) && views(vs@).contains(attrs[f@]),
        Predicate::Glob(f, g) => attrs.contains_key(f@) && (match attrs[f@] {
            ValueV::Str(s) => glob(g@, s),
            _ => false,
        }),
        Predicate::Lt(f, v) => attrs.contains_key(f@) && value_lt(attrs[f@], v@),
        Predicate::Le(f, v) => attrs.contains_key(f@) && orderable(attrs[f@], v@) && !value_lt(
            v@,
            attrs[f@],
        ),
        Predicate::Gt(f, v) => attrs.contains_key(f@) && value_lt(v@, attrs[f@]),
        Predicate::Ge(f, v) => attrs.contains_key(f@) && orderable(attrs[f@], v@) && !value_lt(
            attrs[f@],
            v@,
        ),
        Predicate::ContainsAllTokens(f, t) => attrs.contains_key(f@) && (match attrs[f@] {
            ValueV::Str(s) => has_words(s, t@),
            _ => false,
        }),
        Predicate::Not(q) => !holds(*q, attrs),
    }
}

/// Every condition of the filter holds.
pub open spec fn passes(f: Filter, attrs: AttrsV) -> bool {
    forall|i: int| 0 <= i < f.0@.len() ==> holds(#[trigger] f.0@[i], attrs)
}

/// The characters of a string.
pub fn chars_of(s: &str) -> (out: Vec<char>)
    ensures
        out@ == s@,
{
    broadcast use vstd::string::axiom_spec_iter, vstd::string::next_postcondition;

    let mut out: Vec<char> = Vec::new();
    let mut it = s.chars();
    let ghost mut k: int = 0;
    proof {
        assert(s@.skip(0) =~= s@);
    }
    loop
        invariant
            0 <= k <= s@.len(),
            out@ == s@.take(k),
            vstd::std_specs::iter::IteratorSpec::remaining(&it) == s@.skip(k),
        decreases s@.len() - k,
    {
        match it.next() {
            Some(c) => {
                out.push(c);
                proof {
                    assert(s@.skip(k).drop_first() =~= s@.skip(k + 1));
                    assert(s@.take(k).push(s@[k]) =~= s@.take(k + 1));
                    k = k + 1;
                }
            },
            None => {
                proof {
                    assert(s@.take(k) =~= s@);
                }
                return out;
            },
        }
    }
}

fn glob_from(p: &Vec<char>, i: usize, t: &Vec<char>, j: usize) -> (r: bool)
    requires
        i <= p@.len(),
        j <= t@.len(),
    ensures
        r == glob(p@.skip(i as int), t@.skip(j as int)),
    decreases p@.len() - i + t@.len() - j,
{
    if i == p.len() {
        return j == t.len();
    }
    proof {
        assert(p@.skip(i as int).drop_first() =~= p@.skip(i + 1));
        if j < t@.len() {
            assert(t@.skip(j as int).drop_first() =~= t@.skip(j + 1));
        }
    }
    if p[i] == '*' {
        if glob_from(p, i + 1, t, j) {
            return true;
        }
        j < t.len() && glob_from(p, i, t, j + 1)
    } else {
        j < t.len() && p[i] == t[j] && glob_from(p, i + 1, t, j + 1)
    }
}

/// Whether the pattern matches the whole text.
pub fn glob_matches(pattern: &str, text: &str) -> (r: bool)
    ensures
        r == glob(pattern@, text@),
{
    let p = chars_of(pattern);
    let t = chars_of(text);
    proof {
        assert(p@.skip(0) =~= p@);
        assert(t@.skip(0) =~= t@);
    }
    glob_from(&p, 0, &t, 0)
}

fn one_of(vs: &Vec<Value>, x: &Value) -> (r: bool)
    ensures
        r == views(vs@).contains(x@),
{
    let mut i: usize = 0;
    while i < vs.len()
        invariant
            i <= vs@.len(),
            forall|j: int| 0 <= j < i ==> (#[trigger] vs@[j])@ != x@,
        decreases vs@.len() - i,
    {
        if value_same(&vs[i], x) {
            proof {
                assert(views(vs@)[i as int] == x@);
            }
            return true;
        }
        i = i + 1;
    }
    proof {
        if views(vs@).contains(x@) {
            let j = choose|j: int| 0 <= j < views(vs@).len() && views(vs@)[j] == x@;
            assert(vs@[j]@ == x@);
        }
    }
    false
}

/// Whether one condition holds.
pub fn predicate_holds(p: &Predicate, attrs: &Attrs) -> (r: bool)
    ensures
        r == holds(*p, attrs@),
    decreases p,
{
    match p {
        Predicate::Eq(f, v) => match attrs.get(f.as_str()) {
            Some(x) => value_same(x, v),
            None => false,
        },
        Predicate::In(f, vs) => match attrs.get(f.as_str()) {
            Some(x) => one_of(vs, x),
            None => false,
        },
        Predicate::Glob(f, g) => match attrs.get(f.as_str()) {
            Some(Value::Str(s)) => glob_matches(g.as_str(), s.as_str()),
            _ => false,
        },
        Predicate::Lt(f, v) => match attrs.get(f.as_str()) {
            Some(x) => match value_side(x, v) {
                Some(Side::Before) => true,
                _ => false,
            },
            None => false,
        },
        Predicate::Le(f, v) => match attrs.get(f.as_str()) {
            Some(x) => match value_side(x, v) {
                Some(Side::Before) => true,
                Some(Side::Same) => true,
                _ => false,
            },
            None => false,
        },
        Predicate::Gt(f, v) => match attrs.get(f.as_str()) {
            Some(x) => match value_side(x, v) {
                Some(Side::After) => true,
                _ => false,
            },
            None => false,
        },
        Predicate::Ge(f, v) => match attrs.get(f.as_str()) {
            Some(x) => match value_side(x, v) {
                Some(Side::After) => true,
                Some(Side::Same) => true,
                _ => false,
            },
            None => false,
        },
        Predicate::ContainsAllTokens(f, t) => match attrs.get(f.as_str()) {
            Some(Value::Str(s)) => holds_words(s.as_str(), t.as_str()),
            _ => false,
        },
        Predicate::Not(q) => !predicate_holds(q, attrs),
    }
}

/// Whether a record with these attributes passes the filter.
pub fn admits(filter: &Filter, attrs: &Attrs) -> (r: bool)
    ensures
        r == passes(*filter, attrs@),
{
    let mut i: usize = 0;
    while i < filter.0.len()
        invariant
            i <= filter.0@.len(),
            forall|j: int| 0 <= j < i ==> holds(#[trigger] filter.0@[j], attrs@),
        decreases filter.0@.len() - i,
    {
        if !predicate_holds(&filter.0[i], attrs) {
            return false;
        }
        i = i + 1;
    }
    true
}

/// A filter with no conditions admits every record.
pub proof fn empty_filter_passes(f: Filter, attrs: AttrsV)
    requires
        f.0@.len() == 0,
    ensures
        passes(f, attrs),
{
}

/// An attribute that a record lacks satisfies no condition on its value.
pub proof fn absent_attribute_fails(p: Predicate, field: Seq<char>, attrs: AttrsV)
    requires
        !attrs.contains_key(field),
        match p {
            Predicate::Eq(f, _) => f@ == field,
            Predicate::In(f, _) => f@ == field,
            Predicate::Glob(f, _) => f@ == field,
            Predicate::Lt(f, _) => f@ == field,
            Predicate::Le(f, _) => f@ == field,
            Predicate::Gt(f, _) => f@ == field,
            Predicate::Ge(f, _) => f@ == field,
            Predicate::ContainsAllTokens(f, _) => f@ == field,
            Predicate::Not(_) => false,
        },
    ensures
        !holds(p, attrs),
{
}

} // verus!
