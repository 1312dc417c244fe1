//! Bit patterns stand for numbers.

use vstd::prelude::*;

use crate::bits;
use crate::value::{value_lt, ValueV};

verus! {

/// Which `f32` patterns encode no number, and which a finite one: the patterns past an infinity
/// and those short of it, on either side of zero.
pub proof fn patterns_that_are_no_numbers(b: u32)
    ensures
        bits::is_nan(b) <==> (0x7f80_0000 < b && b < 0x8000_0000) || 0xff80_0000 < b,
        bits::is_finite(b) <==> b < 0x7f80_0000 || (0x8000_0000 <= b && b < 0xff80_0000),
{
}

/// Without a sign bit the smaller pattern is the smaller number, with it the larger pattern is,
/// and a negative number is below every number without a sign; the two zeros are one number.
pub proof fn patterns_order_as_numbers(a: u32, b: u32)
    ensures
        a <= 0x7f80_0000 && b <= 0x7f80_0000 ==> (bits::num_lt(a, b) <==> a < b),
        0x8000_0000 <= a <= 0xff80_0000 && 0x8000_0000 <= b <= 0xff80_0000 ==> (bits::num_lt(a, b)
            <==> b < a),
        0x8000_0000 < a <= 0xff80_0000 && b <= 0x7f80_0000 ==> bits::num_lt(a, b)
            && !bits::num_lt(b, a),
        a == 0x8000_0000u32 && b <= 0x7f80_0000 ==> !bits::num_lt(b, a) && (bits::num_lt(a, b)
            <==> b > 0),
        (0x7f80_0000 < a && a < 0x8000_0000) || 0xff80_0000 < a ==> !bits::num_lt(a, b)
            && !bits::num_lt(b, a),
{
}

/// In a ranking the larger number is ahead, no number is ahead of itself, and what is no number
/// is behind every number and level with what is none either.
pub proof fn larger_numbers_are_ahead(a: u32, b: u32)
    ensures
        a <= 0x7f80_0000 && b <= 0x7f80_0000 ==> (bits::ahead(a, b) <==> a > b),
        0x8000_0000 <= a <= 0xff80_0000 && 0x8000_0000 <= b <= 0xff80_0000 ==> (bits::ahead(a, b)
            <==> a < b),
        a <= 0x7f80_0000 && 0x8000_0000 < b <= 0xff80_0000 ==> bits::ahead(a, b)
            && !bits::ahead(b, a),
        (0x7f80_0000 < a && a < 0x8000_0000) || 0xff80_0000 < a ==> !bits::ahead(a, b),
        ((0x7f80_0000 < a && a < 0x8000_0000) || 0xff80_0000 < a) && (b <= 0x7f80_0000 || (
        0x8000_0000 <= b && b <= 0xff80_0000)) ==> bits::ahead(b, a),
        bits::level(a, b) <==> !bits::ahead(a, b) && !bits::ahead(b, a),
        bits::level(0, 0x8000_0000),
{
}

/// The larger of two is one of them, not below either that is a number, and a number as soon as
/// one of them is.
pub proof fn the_larger_bounds_both(a: u32, b: u32)
    ensures
        bits::larger(a, b) == a || bits::larger(a, b) == b,
        !bits::num_lt(bits::larger(a, b), a),
        !bits::num_lt(bits::larger(a, b), b),
        bits::is_nan(bits::larger(a, b)) <==> bits::is_nan(a) && bits::is_nan(b),
{
}

/// Which `f64` patterns encode no number.
pub proof fn wide_patterns_that_are_no_numbers(b: u64)
    ensures
        bits::is_nan64(b) <==> (0x7ff0_0000_0000_0000 < b && b < 0x8000_0000_0000_0000)
            || 0xfff0_0000_0000_0000 < b,
{
}

/// The order of `f64` patterns is the order of the numbers they encode: without a sign bit the
/// smaller pattern is smaller, with it the larger pattern is, a negative number is below every
/// number without a sign, the two zeros are not apart, and what is no number is below nothing
/// and nothing is below it.
pub proof fn wide_patterns_order_as_numbers(a: u64, b: u64)
    ensures
        a <= 0x7ff0_0000_0000_0000 && b <= 0x7ff0_0000_0000_0000 ==> (bits::rank64(a)
            < bits::rank64(b) <==> a < b),
        0x8000_0000_0000_0000 <= a <= 0xfff0_0000_0000_0000 && 0x8000_0000_0000_0000 <= b
            <= 0xfff0_0000_0000_0000 ==> (bits::rank64(a) < bits::rank64(b) <==> b < a),
        0x8000_0000_0000_0000 < a <= 0xfff0_0000_0000_0000 && b <= 0x7ff0_0000_0000_0000
            ==> bits::rank64(a) < bits::rank64(b),
        bits::rank64(0x8000_0000_0000_0000) == bits::rank64(0),
        a <= 0x7ff0_0000_0000_0000 && b <= 0x7ff0_0000_0000_0000 ==> (value_lt(
            ValueV::Float(a),
            ValueV::Float(b),
        ) <==> a < b),
        0x8000_0000_0000_0000 <= a <= 0xfff0_0000_0000_0000 && 0x8000_0000_0000_0000 <= b
            <= 0xfff0_0000_0000_0000 ==> (value_lt(ValueV::Float(a), ValueV::Float(b)) <==> b < a),
        0x8000_0000_0000_0000 < a <= 0xfff0_0000_0000_0000 && b <= 0x7ff0_0000_0000_0000
            ==> value_lt(ValueV::Float(a), ValueV::Float(b)) && !value_lt(
            ValueV::Float(b),
            ValueV::Float(a),
        ),
        a == 0x8000_0000_0000_0000u64 && b <= 0x7ff0_0000_0000_0000 ==> !value_lt(
            ValueV::Float(b),
            ValueV::Float(a),
        ) && (value_lt(ValueV::Float(a), ValueV::Float(b)) <==> b > 0),
        (0x7ff0_0000_0000_0000 < a && a < 0x8000_0000_0000_0000) || 0xfff0_0000_0000_0000 < a
            ==> !value_lt(ValueV::Float(a), ValueV::Float(b)) && !value_lt(
            ValueV::Float(b),
            ValueV::Float(a),
        ),
        value_lt(ValueV::Float(0x3ff0_0000_0000_0000), ValueV::Float(0x4000_0000_0000_0000)),
        value_lt(ValueV::Float(0xc000_0000_0000_0000), ValueV::Float(0xbff0_0000_0000_0000)),
{
}

} // verus!
