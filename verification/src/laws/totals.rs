//! Sums, counts and groups.

use vstd::prelude::*;

use crate::aggregate::{field_total, floats_in, int_sum};
use crate::kernel::{total_of, Kernel};
use crate::value::{AttrsV, ValueV};

verus! {

/// One record more changes the integer total of a field by exactly the integer that it holds
/// there, negative or not, and by nothing where it holds none.
pub proof fn a_record_adds_its_integer(items: Seq<AttrsV>, a: AttrsV, field: Seq<char>, n: i64)
    ensures
        int_sum(Seq::<AttrsV>::empty(), field) == 0,
        a.contains_key(field) && a[field] == ValueV::Int(n) ==> int_sum(items.push(a), field)
            == int_sum(items, field) + n,
        !(a.contains_key(field) && a[field] is Int) ==> int_sum(items.push(a), field) == int_sum(
            items,
            field,
        ),
{
    assert(items.push(a).drop_last() =~= items);
}

/// One record more appends the float that it holds under a field, and nothing where it holds none.
pub proof fn a_record_adds_its_float(items: Seq<AttrsV>, a: AttrsV, field: Seq<char>, x: u64)
    ensures
        floats_in(Seq::<AttrsV>::empty(), field).len() == 0,
        a.contains_key(field) && a[field] == ValueV::Float(x) ==> floats_in(items.push(a), field)
            == floats_in(items, field).push(x),
        !(a.contains_key(field) && a[field] is Float) ==> floats_in(items.push(a), field)
            == floats_in(items, field),
{
    assert(items.push(a).drop_last() =~= items);
}

/// Totals of two lists of records add up to the total of both.
pub proof fn integer_totals_add_up(x: Seq<AttrsV>, y: Seq<AttrsV>, field: Seq<char>)
    ensures
        int_sum(x + y, field) == int_sum(x, field) + int_sum(y, field),
    decreases y.len(),
{
    if y.len() == 0 {
        assert(x + y =~= x);
    } else {
        integer_totals_add_up(x, y.drop_last(), field);
        assert((x + y).drop_last() =~= x + y.drop_last());
        assert((x + y).last() == y.last());
    }
}

/// The order of the records does not change an integer total.
pub proof fn integer_totals_ignore_order(x: Seq<AttrsV>, y: Seq<AttrsV>, field: Seq<char>)
    requires
        x.to_multiset() == y.to_multiset(),
    ensures
        int_sum(x, field) == int_sum(y, field),
    decreases x.len(),
{
    broadcast use vstd::seq_lib::group_to_multiset_ensures;

    x.to_multiset_ensures();
    y.to_multiset_ensures();
    assert(x.len() == x.to_multiset().len());
    assert(y.len() == y.to_multiset().len());
    if x.len() > 0 {
        let a = x.last();
        assert(x.to_multiset().count(a) > 0) by {
            assert(x.contains(a));
        }
        assert(y.contains(a));
        let j = choose|j: int| 0 <= j < y.len() && y[j] == a;
        let z = y.remove(j);
        assert(x.drop_last() =~= x.remove(x.len() - 1));
        assert(z.to_multiset() =~= x.drop_last().to_multiset());
        integer_totals_ignore_order(x.drop_last(), z, field);
        assert(y =~= y.take(j).push(a) + y.skip(j + 1));
        assert(z =~= y.take(j) + y.skip(j + 1));
        integer_totals_add_up(y.take(j).push(a), y.skip(j + 1), field);
        integer_totals_add_up(y.take(j), y.skip(j + 1), field);
        assert(y.take(j).push(a).drop_last() =~= y.take(j));
        assert(int_sum(x, field) == int_sum(x.drop_last(), field) + (int_sum(
            y.take(j).push(a),
            field,
        ) - int_sum(y.take(j), field)));
    }
}

/// A total is the integer where every number under the field is one and the total fits, and
/// otherwise the float that the integers and floats add up to.
pub proof fn a_total_stays_an_integer_while_it_can<K: Kernel>(
    k: K,
    items: Seq<AttrsV>,
    field: Seq<char>,
)
    ensures
        (forall|i: int|
            0 <= i < items.len() ==> !((#[trigger] items[i]).contains_key(field)
                && items[i][field] is Float)) && -0x8000_0000_0000_0000 <= int_sum(items, field)
            <= 0x7fff_ffff_ffff_ffff ==> field_total(k, items, field) == ValueV::Int(
            int_sum(items, field) as i64,
        ),
        (exists|i: int|
            0 <= i < items.len() && (#[trigger] items[i]).contains_key(field)
                && items[i][field] is Float) || !(-0x8000_0000_0000_0000 <= int_sum(items, field)
            <= 0x7fff_ffff_ffff_ffff) ==> field_total(k, items, field) == ValueV::Float(
            total_of(k, int_sum(items, field) as i128, floats_in(items, field)),
        ),
{
    a_float_is_seen(items, field);
}

proof fn a_float_is_seen(items: Seq<AttrsV>, field: Seq<char>)
    ensures
        floats_in(items, field).len() > 0 <==> exists|i: int|
            0 <= i < items.len() && (#[trigger] items[i]).contains_key(field)
                && items[i][field] is Float,
    decreases items.len(),
{
    if items.len() > 0 {
        let d = items.drop_last();
        a_float_is_seen(d, field);
        let n = items.len() - 1;
        if exists|i: int|
            0 <= i < d.len() && (#[trigger] d[i]).contains_key(field) && d[i][field] is Float {
            let i = choose|i: int|
                0 <= i < d.len() && (#[trigger] d[i]).contains_key(field) && d[i][field] is Float;
            assert(items[i] == d[i]);
        }
        if exists|i: int|
            0 <= i < items.len() && (#[trigger] items[i]).contains_key(field)
                && items[i][field] is Float {
            let i = choose|i: int|
                0 <= i < items.len() && (#[trigger] items[i]).contains_key(field)
                    && items[i][field] is Float;
            if i < n {
                assert(d[i] == items[i]);
            }
        }
        if items[n].contains_key(field) && items[n][field] is Float {
            assert(items.last() == items[n]);
        }
    }
}

} // verus!
