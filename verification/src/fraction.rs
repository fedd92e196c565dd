//! Fractions as the bit patterns of IEEE 754 double-precision numbers.
//!
//! A pattern is a sign bit, and below it the magnitude. Numbers of the same sign
//! are ordered by their magnitudes, and magnitudes above that of infinity are no
//! numbers. Only comparisons are made here; computing with fractions is left to
//! the caller.

use vstd::prelude::*;

verus! {

/// The pattern whose only bit is the sign; it is that of a negative zero.
pub const SIGN: u64 = 0x8000_0000_0000_0000;

/// The pattern of infinity, the largest magnitude that is a number.
pub const INFINITE: u64 = 0x7ff0_0000_0000_0000;

/// The pattern without its sign.
pub open spec fn magnitude(a: u64) -> int {
    if a < SIGN {
        a as int
    } else {
        a - SIGN
    }
}

/// The pattern is no number.
pub open spec fn is_nan(a: u64) -> bool {
    magnitude(a) > INFINITE
}

/// Where a pattern stands among all patterns: the numbers stand in their order,
/// both zeros at one place, and what is no number stands in front of them.
pub open spec fn rank(a: u64) -> int {
    if is_nan(a) {
        -0x8000_0000_0000_0000
    } else if a < SIGN {
        magnitude(a)
    } else {
        -magnitude(a)
    }
}

/// The first number is greater than the second. Nothing is greater than what is
/// no number, nor is that greater than anything.
pub open spec fn above(a: u64, b: u64) -> bool {
    !is_nan(a) && !is_nan(b) && rank(a) > rank(b)
}

/// Where a pattern stands among all patterns.
pub fn rank_of(a: u64) -> (r: i64)
    ensures
        r == rank(a),
{
    let size: u64 = if a < SIGN {
        a
    } else {
        a - SIGN
    };
    if size > INFINITE {
        i64::MIN
    } else if a < SIGN {
        size as i64
    } else {
        -(size as i64)
    }
}

/// Whether the first number is greater than the second.
pub fn is_above(a: u64, b: u64) -> (r: bool)
    ensures
        r == above(a, b),
{
    let x: i64 = rank_of(a);
    let y: i64 = rank_of(b);
    y != i64::MIN && x > y
}

/// No number is above itself, of two numbers at most one is above the other, and
/// a number above a second is above all that the second is above.
pub proof fn law_above_is_an_order(a: u64, b: u64, c: u64)
    ensures
        !above(a, a),
        !(above(a, b) && above(b, a)),
        above(a, b) && above(b, c) ==> above(a, c),
{
}

/// Patterns without a sign are ordered as they are.
pub proof fn law_unsigned_order(a: u64, b: u64)
    requires
        a <= 0x7ff0_0000_0000_0000,
        b <= 0x7ff0_0000_0000_0000,
    ensures
        above(a, b) <==> a > b,
{
}

/// Numbers that both have the sign are ordered the other way round; a number without
/// the sign is above every one with it, except that the zeros are equal.
pub proof fn law_signed_order(a: u64, b: u64)
    requires
        0x8000_0000_0000_0000 <= b <= 0xfff0_0000_0000_0000,
    ensures
        0x8000_0000_0000_0000 <= a <= 0xfff0_0000_0000_0000 ==> (above(a, b) <==> a < b),
        a <= 0x7ff0_0000_0000_0000 ==> !above(b, a) && (above(a, b) <==> !(a == 0 && b
            == 0x8000_0000_0000_0000)),
{
}

/// What is no number is above nothing, and nothing is above it.
pub proof fn law_no_number_compares(a: u64, b: u64)
    requires
        0x7ff0_0000_0000_0000 < a < 0x8000_0000_0000_0000 || 0xfff0_0000_0000_0000 < a,
    ensures
        !above(a, b),
        !above(b, a),
{
}

/// Sorting by the place sorts the numbers, and puts what is no number in front.
pub proof fn law_rank_sorts(a: u64, b: u64)
    ensures
        above(a, b) ==> rank(a) > rank(b),
        rank(a) > rank(b) ==> above(a, b) || 0x7ff0_0000_0000_0000 < b < 0x8000_0000_0000_0000
            || 0xfff0_0000_0000_0000 < b,
        (0x7ff0_0000_0000_0000 < a < 0x8000_0000_0000_0000 || 0xfff0_0000_0000_0000 < a)
            ==> rank(a) <= rank(b),
{
}

} // verus!
