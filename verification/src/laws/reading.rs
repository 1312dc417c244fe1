//! Reads of single records and of the whole.

use vstd::prelude::*;

use crate::barrier::{after_writes, on_commit, Barrier};
use crate::claim::{claims, lapse, Lock};
use crate::config::{Config, OpenMode};
use crate::index::{CollV, CollsV, OpV};
use crate::message::{digit, digits, signed};
use crate::read::{doc_total, found, record_of};
use crate::value::ValueV;
use crate::wire::{
    attrs_bytes, log_bytes, meta_bytes, op_bytes, text_bytes, texts_bytes, value_bytes, watermark,
};

verus! {

/// A record is found where it is stored, and it is what is stored: its id, its attributes, and the
/// row that it was written with, where it has one.
pub proof fn a_record_is_found_as_it_is_stored(
    cols: CollsV,
    rows: Seq<Vec<u32>>,
    c: Seq<char>,
    id: Seq<char>,
)
    ensures
        found(cols, rows, c, id) is Some <==> cols.contains_key(c) && cols[c].docs.contains_key(id),
        found(cols, rows, c, id) matches Some(r) ==> {
            &&& r.id == id
            &&& r.attrs == cols[c].docs[id].attrs
            &&& cols[c].docs[id].row matches Some(n) ==> r.vector == Some(rows[n as int]@)
            &&& cols[c].docs[id].row is None ==> r.vector is None
            &&& r == record_of(rows, id, cols[c].docs[id])
        },
{
}

/// All documents are the documents of each collection, added up.
pub proof fn documents_are_added_up(entries: Seq<(Seq<char>, CollV)>, e: (Seq<char>, CollV))
    ensures
        doc_total(Seq::<(Seq<char>, CollV)>::empty()) == 0,
        doc_total(entries.push(e)) == doc_total(entries) + crate::dict::ordered(e.1.docs).len(),
{
    assert(entries.push(e).drop_last() =~= entries);
}

/// A log is as long as its operations together, and every operation makes it longer; the mark is
/// that length, as far as it can be counted.
pub proof fn a_log_is_as_long_as_its_operations(log: Seq<OpV>, op: OpV)
    ensures
        log_bytes(Seq::<OpV>::empty()) == 0,
        log_bytes(log.push(op)) == log_bytes(log) + op_bytes(op),
        op_bytes(op) > 0,
        log_bytes(log) <= 0xffff_ffff_ffff_ffff ==> watermark(log) == log_bytes(log),
        log_bytes(log) > 0xffff_ffff_ffff_ffff ==> watermark(log) == 0xffff_ffff_ffff_ffff,
{
    assert(log.push(op).drop_last() =~= log);
}

/// What the parts of an operation take: a text eight bytes and its own, a list eight and its
/// texts, and a value four and what it holds.
pub proof fn what_values_take(
    items: Seq<Seq<char>>,
    x: Seq<char>,
    attrs: Seq<(Seq<char>, ValueV)>,
    meta: Seq<(Seq<char>, Seq<char>)>,
    key: Seq<char>,
    v: ValueV,
    n: i64,
    f: u64,
    b: bool,
)
    ensures
        text_bytes(x) == 8 + vstd::utf8::encode_utf8(x).len(),
        texts_bytes(Seq::<Seq<char>>::empty()) == 8,
        texts_bytes(items.push(x)) == texts_bytes(items) + text_bytes(x),
        value_bytes(ValueV::Null) == 4,
        value_bytes(ValueV::Bool(b)) == 5,
        value_bytes(ValueV::Int(n)) == 12,
        value_bytes(ValueV::DateTime(n)) == 12,
        value_bytes(ValueV::Float(f)) == 12,
        value_bytes(ValueV::Str(x)) == 4 + text_bytes(x),
        value_bytes(ValueV::List(items)) == 4 + texts_bytes(items),
        attrs_bytes(Seq::<(Seq<char>, ValueV)>::empty()) == 8,
        attrs_bytes(attrs.push((key, v))) == attrs_bytes(attrs) + text_bytes(key) + value_bytes(v),
        meta_bytes(Seq::<(Seq<char>, Seq<char>)>::empty()) == 8,
        meta_bytes(meta.push((key, x))) == meta_bytes(meta) + text_bytes(key) + text_bytes(x),
{
    assert(items.push(x).drop_last() =~= items);
    assert(attrs.push((key, v)).drop_last() =~= attrs);
    assert(meta.push((key, x)).drop_last() =~= meta);
}

/// Outside a group every write takes a barrier of its own and owes none; within one no write does,
/// and one is owed, which a commit then takes.
pub proof fn writes_in_a_group_share_a_barrier(b: Barrier, n: nat)
    ensures
        ({
            let (after, taken) = after_writes(b, n);
            &&& after.deferred == b.deferred
            &&& b.deferred ==> taken == 0
            &&& b.deferred && n > 0 ==> after.owed && on_commit(after) == 1
            &&& !b.deferred ==> taken == n
            &&& !b.deferred && n > 0 ==> !after.owed && on_commit(after) == 0
            &&& n == 0 ==> after == b
        }),
    decreases n,
{
    if n > 0 {
        writes_in_a_group_share_a_barrier(b, (n - 1) as nat);
    }
}

/// Only a writer claims a handle; a claim holds until its time is over, and then lapses.
pub proof fn a_claim_lapses(c: Config, lock: Lock, now: u64, ttl: u64)
    ensures
        lock.owner is None ==> !lock.held(now),
        lock.owner is Some ==> (lock.held(now) <==> lock.until > now),
        claims(c) <==> c.open_mode == OpenMode::ReadWrite,
        now + ttl <= 0xffff_ffff_ffff_ffff ==> lapse(now, ttl) == now + ttl,
        now + ttl > 0xffff_ffff_ffff_ffff ==> lapse(now, ttl) == 0xffff_ffff_ffff_ffff,
{
}

/// The number that a string of decimal digits stands for.
pub open spec fn value_of(s: Seq<char>) -> int
    decreases s.len(),
{
    if s.len() == 0 {
        0
    } else {
        10 * value_of(s.drop_last()) + (s.last() as int - '0' as int)
    }
}

/// A number is written in decimal digits, without a leading zero, and behind a minus sign where it
/// is negative: read back it is the number.
pub proof fn numbers_are_written_in_digits(n: nat, m: i64)
    ensures
        value_of(digits(n)) == n,
        digits(n).len() > 0,
        forall|i: int| 0 <= i < digits(n).len() ==> '0' <= #[trigger] digits(n)[i] <= '9',
        n > 0 ==> digits(n)[0] != '0',
        m >= 0 ==> signed(m) == digits(m as nat),
        m < 0 ==> signed(m) == seq!['-'] + digits((0 - m) as nat),
    decreases n,
{
    reveal_strlit("-");
    assert("-"@ =~= seq!['-']);
    if n < 10 {
        assert(digits(n) =~= seq![digit(n)]);
        assert(seq![digit(n)].drop_last() =~= Seq::<char>::empty());
        assert(value_of(Seq::<char>::empty()) == 0);
    } else {
        numbers_are_written_in_digits(n / 10, 0);
        let rest = digits(n / 10);
        let last = digit(n % 10);
        assert(digits(n) == rest.push(last));
        assert(rest.push(last).drop_last() =~= rest);
        assert(n == 10 * (n / 10) + n % 10);
        assert(digits(n)[0] == rest[0]);
    }
}

} // verus!
