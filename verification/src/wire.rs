//! How long the operation log is. An operation takes up a frame, a tag and its fields; a text is
//! preceded by its length, and so is a list.

use vstd::prelude::*;
use vstd::utf8::encode_utf8;

use crate::dict::{ordered, views, Dict};
use crate::index::{legacy_fields, FtsField, FtsFieldV, Language, Op, OpV};
use crate::value::{Attrs, Value, ValueV};

verus! {

/// What an operation takes up beside its fields: the length before it, the checksum behind it, and
/// the tag.
pub const OVERHEAD: u64 = 12;

/// What a number or a length takes up.
pub const WORD: u64 = 8;

/// What the language, the parameters and the switch of a full-text field take up.
pub const FIELD_SETTINGS: u64 = 13;

/// `n`, or the largest number where it is larger.
pub open spec fn capped(n: nat) -> u64 {
    if n > u64::MAX {
        u64::MAX
    } else {
        n as u64
    }
}

fn more(a: u64, b: u64, Ghost(x): Ghost<nat>, Ghost(y): Ghost<nat>) -> (r: u64)
    requires
        a == capped(x),
        b == capped(y),
    ensures
        r == capped(x + y),
{
    if b > u64::MAX - a {
        u64::MAX
    } else {
        a + b
    }
}

/// What a text takes up.
pub open spec fn text_bytes(s: Seq<char>) -> nat {
    WORD as nat + encode_utf8(s).len()
}

fn text_size(s: &str) -> (r: u64)
    ensures
        r == capped(text_bytes(s@)),
{
    let n: usize = s.as_bytes().len();
    let len: u64 = n as u64;
    more(WORD, len, Ghost(WORD as nat), Ghost(len as nat))
}

/// What several texts take up.
pub open spec fn texts_bytes(s: Seq<Seq<char>>) -> nat
    decreases s.len(),
{
    if s.len() == 0 {
        WORD as nat
    } else {
        texts_bytes(s.drop_last()) + text_bytes(s.last())
    }
}

fn texts_size(v: &Vec<String>) -> (r: u64)
    ensures
        r == capped(texts_bytes(views(v@))),
{
    let ghost all = views(v@);
    let mut n: u64 = WORD;
    let mut i: usize = 0;
    proof {
        assert(all.take(0) =~= Seq::empty());
    }
    while i < v.len()
        invariant
            i <= v@.len(),
            all == views(v@),
            n == capped(texts_bytes(all.take(i as int))),
        decreases v@.len() - i,
    {
        proof {
            assert(all.take(i + 1).drop_last() =~= all.take(i as int));
            assert(all.take(i + 1).last() == v@[i as int]@);
        }
        let t: u64 = text_size(v[i].as_str());
        n = more(n, t, Ghost(texts_bytes(all.take(i as int))), Ghost(text_bytes(v@[i as int]@)));
        i = i + 1;
    }
    proof {
        assert(all.take(i as int) =~= all);
    }
    n
}

/// What a value takes up.
pub open spec fn value_bytes(v: ValueV) -> nat {
    4 + match v {
        ValueV::Null => 0nat,
        ValueV::Str(s) => text_bytes(s),
        ValueV::Int(_) => WORD as nat,
        ValueV::Bool(_) => 1nat,
        ValueV::Float(_) => WORD as nat,
        ValueV::DateTime(_) => WORD as nat,
        ValueV::List(l) => texts_bytes(l),
    }
}

fn value_size(v: &Value) -> (r: u64)
    ensures
        r == capped(value_bytes(v@)),
{
    let payload: u64 = match v {
        Value::Null => 0,
        Value::Str(s) => text_size(s.as_str()),
        Value::Int(_) => WORD,
        Value::Bool(_) => 1,
        Value::Float(_) => WORD,
        Value::DateTime(_) => WORD,
        Value::List(l) => texts_size(l),
    };
    more(4, payload, Ghost(4), Ghost((value_bytes(v@) - 4) as nat))
}

/// What the entries of a map of texts take up.
pub open spec fn meta_bytes(e: Seq<(Seq<char>, Seq<char>)>) -> nat
    decreases e.len(),
{
    if e.len() == 0 {
        WORD as nat
    } else {
        meta_bytes(e.drop_last()) + text_bytes(e.last().0) + text_bytes(e.last().1)
    }
}

fn meta_size(d: &Dict<String>) -> (r: u64)
    ensures
        r == capped(meta_bytes(ordered(d@))),
{
    let ghost e = d.entries();
    let mut n: u64 = WORD;
    let mut i: usize = 0;
    proof {
        assert(e.take(0) =~= Seq::empty());
    }
    while i < d.len()
        invariant
            i <= e.len(),
            e == d.entries(),
            n == capped(meta_bytes(e.take(i as int))),
        decreases e.len() - i,
    {
        proof {
            assert(e.take(i + 1).drop_last() =~= e.take(i as int));
            assert(e.take(i + 1).last() == e[i as int]);
        }
        let key: u64 = text_size(d.key_at(i).as_str());
        let value: u64 = text_size(d.value_at(i).as_str());
        let ghost before = meta_bytes(e.take(i as int));
        n = more(n, key, Ghost(before), Ghost(text_bytes(e[i as int].0)));
        n = more(
            n,
            value,
            Ghost(before + text_bytes(e[i as int].0)),
            Ghost(text_bytes(e[i as int].1)),
        );
        i = i + 1;
    }
    proof {
        assert(e.take(i as int) =~= e);
    }
    n
}

/// What the entries of a record's attributes take up.
pub open spec fn attrs_bytes(e: Seq<(Seq<char>, ValueV)>) -> nat
    decreases e.len(),
{
    if e.len() == 0 {
        WORD as nat
    } else {
        attrs_bytes(e.drop_last()) + text_bytes(e.last().0) + value_bytes(e.last().1)
    }
}

fn attrs_size(d: &Attrs) -> (r: u64)
    ensures
        r == capped(attrs_bytes(ordered(d@))),
{
    let ghost e = d.entries();
    let mut n: u64 = WORD;
    let mut i: usize = 0;
    proof {
        assert(e.take(0) =~= Seq::empty());
    }
    while i < d.len()
        invariant
            i <= e.len(),
            e == d.entries(),
            n == capped(attrs_bytes(e.take(i as int))),
        decreases e.len() - i,
    {
        proof {
            assert(e.take(i + 1).drop_last() =~= e.take(i as int));
            assert(e.take(i + 1).last() == e[i as int]);
        }
        let key: u64 = text_size(d.key_at(i).as_str());
        let value: u64 = value_size(d.value_at(i));
        let ghost before = attrs_bytes(e.take(i as int));
        n = more(n, key, Ghost(before), Ghost(text_bytes(e[i as int].0)));
        n = more(
            n,
            value,
            Ghost(before + text_bytes(e[i as int].0)),
            Ghost(value_bytes(e[i as int].1)),
        );
        i = i + 1;
    }
    proof {
        assert(e.take(i as int) =~= e);
    }
    n
}

/// What the declared full-text fields take up.
pub open spec fn fields_bytes(s: Seq<FtsFieldV>) -> nat
    decreases s.len(),
{
    if s.len() == 0 {
        WORD as nat
    } else {
        fields_bytes(s.drop_last()) + text_bytes(s.last().field) + FIELD_SETTINGS as nat
    }
}

fn fields_size(v: &Vec<FtsField>) -> (r: u64)
    ensures
        r == capped(fields_bytes(views(v@))),
{
    let ghost all = views(v@);
    let mut n: u64 = WORD;
    let mut i: usize = 0;
    proof {
        assert(all.take(0) =~= Seq::empty());
    }
    while i < v.len()
        invariant
            i <= v@.len(),
            all == views(v@),
            n == capped(fields_bytes(all.take(i as int))),
        decreases v@.len() - i,
    {
        proof {
            assert(all.take(i + 1).drop_last() =~= all.take(i as int));
            assert(all.take(i + 1).last() == v@[i as int]@);
        }
        let ghost before = fields_bytes(all.take(i as int));
        let ghost own = text_bytes(v@[i as int]@.field);
        let t: u64 = text_size(v[i].field.as_str());
        n = more(n, t, Ghost(before), Ghost(own));
        n = more(n, FIELD_SETTINGS, Ghost(before + own), Ghost(FIELD_SETTINGS as nat));
        i = i + 1;
    }
    proof {
        assert(all.take(i as int) =~= all);
    }
    n
}

fn legacy_size(v: &Vec<(String, Language)>) -> (r: u64)
    ensures
        r == capped(fields_bytes(legacy_fields(v@))),
{
    let ghost all = legacy_fields(v@);
    let mut n: u64 = WORD;
    let mut i: usize = 0;
    proof {
        assert(all.take(0) =~= Seq::empty());
    }
    while i < v.len()
        invariant
            i <= v@.len(),
            all == legacy_fields(v@),
            n == capped(fields_bytes(all.take(i as int))),
        decreases v@.len() - i,
    {
        proof {
            assert(all.take(i + 1).drop_last() =~= all.take(i as int));
            assert(all.take(i + 1).last() == all[i as int]);
            assert(all[i as int].field == v@[i as int].0@);
        }
        let ghost before = fields_bytes(all.take(i as int));
        let ghost own = text_bytes(all[i as int].field);
        let t: u64 = text_size(v[i].0.as_str());
        n = more(n, t, Ghost(before), Ghost(own));
        n = more(n, FIELD_SETTINGS, Ghost(before + own), Ghost(FIELD_SETTINGS as nat));
        i = i + 1;
    }
    proof {
        assert(all.take(i as int) =~= all);
    }
    n
}

/// What the fields of an operation take up. A schema takes up what its fields do, in whichever form
/// it was given.
pub open spec fn payload_bytes(op: OpV) -> nat {
    match op {
        OpV::CreateCollection(c) => text_bytes(c),
        OpV::DropCollection(c) => text_bytes(c),
        OpV::SetMeta(c, meta) => text_bytes(c) + meta_bytes(ordered(meta)),
        OpV::Put(c, id, row, attrs) => text_bytes(c) + text_bytes(id) + (attrs_bytes(
            ordered(attrs),
        ) + if row is Some {
            WORD as nat
        } else {
            0
        }),
        OpV::Delete(c, id) => text_bytes(c) + text_bytes(id),
        OpV::SetFts(c, fields) => text_bytes(c) + fields_bytes(fields),
        OpV::SetFilterIndex(c, fields) => text_bytes(c) + texts_bytes(fields),
        OpV::Reinforce(c, id, _, _, expires) => text_bytes(c) + text_bytes(id)
            + if expires is Some {
            25nat
        } else {
            17
        },
    }
}

/// What an operation takes up in the log.
pub open spec fn op_bytes(op: OpV) -> nat {
    OVERHEAD as nat + payload_bytes(op)
}

fn pair_size(c: &str, id: &str) -> (r: u64)
    ensures
        r == capped(text_bytes(c@) + text_bytes(id@)),
{
    let a: u64 = text_size(c);
    let b: u64 = text_size(id);
    more(a, b, Ghost(text_bytes(c@)), Ghost(text_bytes(id@)))
}

fn op_size(op: &Op) -> (r: u64)
    ensures
        r == capped(op_bytes(op@)),
{
    let payload: u64 = match op {
        Op::CreateCollection { collection } => text_size(collection.as_str()),
        Op::DropCollection { collection } => text_size(collection.as_str()),
        Op::SetMeta { collection, meta } => {
            let a: u64 = text_size(collection.as_str());
            let b: u64 = meta_size(meta);
            more(a, b, Ghost(text_bytes(collection@)), Ghost(meta_bytes(ordered(meta@))))
        },
        Op::Upsert { collection, id, attrs, .. } => {
            let a: u64 = pair_size(collection.as_str(), id.as_str());
            let b: u64 = attrs_size(attrs);
            let ghost own = attrs_bytes(ordered(attrs@));
            let b: u64 = more(b, WORD, Ghost(own), Ghost(WORD as nat));
            more(
                a,
                b,
                Ghost(text_bytes(collection@) + text_bytes(id@)),
                Ghost(own + WORD as nat),
            )
        },
        Op::UpsertText { collection, id, attrs } => {
            let a: u64 = pair_size(collection.as_str(), id.as_str());
            let b: u64 = attrs_size(attrs);
            more(
                a,
                b,
                Ghost(text_bytes(collection@) + text_bytes(id@)),
                Ghost(attrs_bytes(ordered(attrs@))),
            )
        },
        Op::Delete { collection, id } => pair_size(collection.as_str(), id.as_str()),
        Op::SetFtsSchema { collection, fields } => {
            let a: u64 = text_size(collection.as_str());
            let b: u64 = legacy_size(fields);
            more(
                a,
                b,
                Ghost(text_bytes(collection@)),
                Ghost(fields_bytes(legacy_fields(fields@))),
            )
        },
        Op::SetFtsFields { collection, fields } => {
            let a: u64 = text_size(collection.as_str());
            let b: u64 = fields_size(fields);
            more(a, b, Ghost(text_bytes(collection@)), Ghost(fields_bytes(views(fields@))))
        },
        Op::SetFilterIndex { collection, fields } => {
            let a: u64 = text_size(collection.as_str());
            let b: u64 = texts_size(fields);
            more(a, b, Ghost(text_bytes(collection@)), Ghost(texts_bytes(views(fields@))))
        },
        Op::Reinforce { collection, id, expires_at, .. } => {
            let a: u64 = pair_size(collection.as_str(), id.as_str());
            let b: u64 = if expires_at.is_some() {
                25
            } else {
                17
            };
            more(a, b, Ghost(text_bytes(collection@) + text_bytes(id@)), Ghost(b as nat))
        },
    };
    more(OVERHEAD, payload, Ghost(OVERHEAD as nat), Ghost(payload_bytes(op@)))
}

/// What a log takes up.
pub open spec fn log_bytes(log: Seq<OpV>) -> nat
    decreases log.len(),
{
    if log.len() == 0 {
        0
    } else {
        log_bytes(log.drop_last()) + op_bytes(log.last())
    }
}

/// How long a log is, in bytes: what caches of it are held against.
pub open spec fn watermark(log: Seq<OpV>) -> u64 {
    capped(log_bytes(log))
}

/// How long a log is, in bytes.
pub fn log_size(log: &Vec<Op>) -> (r: u64)
    ensures
        r == watermark(views(log@)),
{
    let ghost all = views(log@);
    let mut n: u64 = 0;
    let mut i: usize = 0;
    proof {
        assert(all.take(0) =~= Seq::empty());
    }
    while i < log.len()
        invariant
            i <= log@.len(),
            all == views(log@),
            n == capped(log_bytes(all.take(i as int))),
        decreases log@.len() - i,
    {
        proof {
            assert(all.take(i + 1).drop_last() =~= all.take(i as int));
            assert(all.take(i + 1).last() == log@[i as int]@);
        }
        let t: u64 = op_size(&log[i]);
        n = more(n, t, Ghost(log_bytes(all.take(i as int))), Ghost(op_bytes(log@[i as int]@)));
        i = i + 1;
    }
    proof {
        assert(all.take(i as int) =~= all);
    }
    n
}

/// A log that has grown is longer.
pub proof fn a_log_grows(log: Seq<OpV>, ops: Seq<OpV>)
    ensures
        log_bytes(log + ops) >= log_bytes(log) + OVERHEAD * ops.len(),
    decreases ops.len(),
{
    if ops.len() == 0 {
        assert(log + ops =~= log);
    } else {
        a_log_grows(log, ops.drop_last());
        assert((log + ops).drop_last() =~= log + ops.drop_last());
    }
}

} // verus!
