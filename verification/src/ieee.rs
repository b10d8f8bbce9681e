//! Double-precision numbers by their bits.
//!
//! The library carries a measure as the 64 bits of its IEEE 754 encoding and
//! compares measures without computing with them.

use vstd::prelude::*;

verus! {

/// The bits without the sign.
pub open spec fn magnitude(b: u64) -> int {
    if b >= 0x8000_0000_0000_0000 {
        b - 0x8000_0000_0000_0000
    } else {
        b as int
    }
}

/// The bits stand for no number.
pub open spec fn is_nan(b: u64) -> bool {
    magnitude(b) > 0x7ff0_0000_0000_0000
}

/// Numbers compare as their keys do: the encoding ascends with the magnitude,
/// and both zeros are equal.
pub open spec fn key(b: u64) -> int {
    if b >= 0x8000_0000_0000_0000 {
        -magnitude(b)
    } else {
        magnitude(b)
    }
}

/// `a > b` for numbers; false where one is none.
pub open spec fn greater(a: u64, b: u64) -> bool {
    !is_nan(a) && !is_nan(b) && key(a) > key(b)
}

/// `a >= b` for numbers; false where one is none.
pub open spec fn at_least(a: u64, b: u64) -> bool {
    !is_nan(a) && !is_nan(b) && key(a) >= key(b)
}

fn nan(b: u64) -> (r: bool)
    ensures
        r == is_nan(b),
{
    let m: u64 = if b >= 0x8000_0000_0000_0000 {
        b - 0x8000_0000_0000_0000
    } else {
        b
    };
    m > 0x7ff0_0000_0000_0000
}

/// Whether the key of `a` is above that of `b`.
pub fn key_above(a: u64, b: u64) -> (r: bool)
    ensures
        r == (key(a) > key(b)),
{
    if a >= 0x8000_0000_0000_0000 {
        if b >= 0x8000_0000_0000_0000 {
            a < b
        } else {
            false
        }
    } else if b >= 0x8000_0000_0000_0000 {
        a > 0 || b > 0x8000_0000_0000_0000
    } else {
        a > b
    }
}

/// Whether `a > b`.
pub fn is_greater(a: u64, b: u64) -> (r: bool)
    ensures
        r == greater(a, b),
{
    !nan(a) && !nan(b) && key_above(a, b)
}

/// Whether `a >= b`.
pub fn is_at_least(a: u64, b: u64) -> (r: bool)
    ensures
        r == at_least(a, b),
{
    !nan(a) && !nan(b) && !key_above(b, a)
}

/// Whether the bits stand for no number.
pub fn not_a_number(b: u64) -> (r: bool)
    ensures
        r == is_nan(b),
{
    nan(b)
}

/// Numbers without a sign compare as their bits do, those with a sign the other
/// way round, and one with a sign is less than one without, unless both are
/// zero; what is no number compares with nothing.
pub proof fn numbers_compare_by_sign(a: u64, b: u64)
    ensures
        a <= 0x7ff0_0000_0000_0000 && b <= 0x7ff0_0000_0000_0000 ==> (greater(a, b) <==> a > b),
        0x8000_0000_0000_0000 <= a <= 0xfff0_0000_0000_0000 && 0x8000_0000_0000_0000 <= b
            <= 0xfff0_0000_0000_0000 ==> (greater(a, b) <==> a < b),
        a <= 0x7ff0_0000_0000_0000 && 0x8000_0000_0000_0000 <= b <= 0xfff0_0000_0000_0000 ==> (
        greater(a, b) <==> a != 0 || b != 0x8000_0000_0000_0000) && !greater(b, a),
        0x7ff0_0000_0000_0000 < a < 0x8000_0000_0000_0000 || a > 0xfff0_0000_0000_0000
            ==> is_nan(a) && !greater(a, b) && !greater(b, a) && !at_least(a, b) && !at_least(b, a),
        !is_nan(a) && !is_nan(b) ==> (at_least(a, b) <==> !greater(b, a)),
{
}

} // verus!
