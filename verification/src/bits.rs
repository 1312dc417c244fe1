//! IEEE-754 bit patterns of `f32` and `f64` values, ordered as the numbers they encode.

use vstd::prelude::*;

verus! {

/// The bit pattern of `f32` zero.
pub const ZERO: u32 = 0;

/// The bit pattern of `f32` one.
pub const ONE: u32 = 0x3f80_0000;

/// The bit pattern of `f32` positive infinity.
pub const INFINITY: u32 = 0x7f80_0000;

/// The bit pattern with only the sign of an `f32` set.
pub const SIGN: u32 = 0x8000_0000;

/// The magnitude of an `f32` pattern: everything but the sign.
pub open spec fn magnitude(b: u32) -> int {
    if b < SIGN {
        b as int
    } else {
        b - SIGN
    }
}

/// The pattern encodes no number.
pub open spec fn is_nan(b: u32) -> bool {
    magnitude(b) > INFINITY
}

/// The pattern encodes a finite number.
pub open spec fn is_finite(b: u32) -> bool {
    magnitude(b) < INFINITY
}

/// An integer that orders the numbers as the patterns' values do; both zeros map to `0`.
pub open spec fn rank(b: u32) -> int {
    if b < SIGN {
        b as int
    } else {
        -(b - SIGN)
    }
}

/// `a < b` as numbers; false where either is not one.
pub open spec fn num_lt(a: u32, b: u32) -> bool {
    !is_nan(a) && !is_nan(b) && rank(a) < rank(b)
}

/// `a` ranks ahead of `b` in a descending order with every NaN last.
pub open spec fn ahead(a: u32, b: u32) -> bool {
    !is_nan(a) && (is_nan(b) || rank(a) > rank(b))
}

/// Neither pattern ranks ahead of the other.
pub open spec fn level(a: u32, b: u32) -> bool {
    (is_nan(a) && is_nan(b)) || (!is_nan(a) && !is_nan(b) && rank(a) == rank(b))
}

/// The larger number of the two; a NaN gives way to the other.
pub open spec fn larger(a: u32, b: u32) -> u32 {
    if is_nan(a) {
        b
    } else if is_nan(b) || rank(a) >= rank(b) {
        a
    } else {
        b
    }
}

pub fn nan(b: u32) -> (r: bool)
    ensures
        r == is_nan(b),
{
    if b < SIGN {
        b > INFINITY
    } else {
        b - SIGN > INFINITY
    }
}

pub fn finite(b: u32) -> (r: bool)
    ensures
        r == is_finite(b),
{
    if b < SIGN {
        b < INFINITY
    } else {
        b - SIGN < INFINITY
    }
}

fn rank_of(b: u32) -> (r: i64)
    ensures
        r == rank(b),
{
    if b < SIGN {
        b as i64
    } else {
        -((b - SIGN) as i64)
    }
}

pub fn less(a: u32, b: u32) -> (r: bool)
    ensures
        r == num_lt(a, b),
{
    !nan(a) && !nan(b) && rank_of(a) < rank_of(b)
}

pub fn is_ahead(a: u32, b: u32) -> (r: bool)
    ensures
        r == ahead(a, b),
{
    !nan(a) && (nan(b) || rank_of(a) > rank_of(b))
}

pub fn max(a: u32, b: u32) -> (r: u32)
    ensures
        r == larger(a, b),
{
    if nan(a) {
        b
    } else if nan(b) || rank_of(a) >= rank_of(b) {
        a
    } else {
        b
    }
}

/// The bit pattern with only the sign of an `f64` set.
pub const SIGN64: u64 = 0x8000_0000_0000_0000;

/// The bit pattern of `f64` positive infinity.
pub const INFINITY64: u64 = 0x7ff0_0000_0000_0000;

/// The pattern of an `f64` that is no number.
pub open spec fn is_nan64(b: u64) -> bool {
    (if b < SIGN64 {
        b as int
    } else {
        b - SIGN64
    }) > INFINITY64
}

/// The place of an `f64` that is a number among all of them.
pub open spec fn rank64(b: u64) -> int {
    if b < SIGN64 {
        b as int
    } else {
        -(b - SIGN64)
    }
}

pub fn nan64(b: u64) -> (r: bool)
    ensures
        r == is_nan64(b),
{
    if b < SIGN64 {
        b > INFINITY64
    } else {
        b - SIGN64 > INFINITY64
    }
}

pub fn rank_of64(b: u64) -> (r: i64)
    requires
        !is_nan64(b),
    ensures
        r == rank64(b),
{
    if b < SIGN64 {
        b as i64
    } else {
        -((b - SIGN64) as i64)
    }
}

} // verus!
