//! Order on IEEE 754 single-precision numbers held by bit pattern.
//!
//! The sign is the top bit and the other bits are the magnitude. Among numbers
//! the magnitude bits grow with the absolute value, so the signed magnitude
//! orders singles as their values do; both zeros have the signed magnitude 0.
use vstd::prelude::*;

verus! {

/// A single-precision number, by its bit pattern.
pub type Bits = u32;

/// The bit pattern of `+0.0`.
pub const ZERO: Bits = 0;

/// The bit pattern of `1.0`.
pub const ONE: Bits = 0x3f80_0000;

/// The bit pattern of negative infinity.
pub const NEG_INFINITY: Bits = 0xff80_0000;

/// The first bit pattern whose sign bit is set.
pub const SIGN: Bits = 0x8000_0000;

/// The magnitude bits of infinity; larger magnitudes are not numbers.
pub const INFINITY_MAGNITUDE: Bits = 0x7f80_0000;

/// The bits below the sign.
pub open spec fn magnitude(x: Bits) -> int {
    if x >= SIGN {
        x - SIGN
    } else {
        x as int
    }
}

/// `x` is not a number.
pub open spec fn is_nan(x: Bits) -> bool {
    magnitude(x) > INFINITY_MAGNITUDE
}

/// The signed magnitude, which orders numbers by value.
pub open spec fn signed(x: Bits) -> int {
    if x >= SIGN {
        -magnitude(x)
    } else {
        magnitude(x)
    }
}

/// `a > b` as numbers; false where either is not a number.
pub open spec fn greater(a: Bits, b: Bits) -> bool {
    !is_nan(a) && !is_nan(b) && signed(a) > signed(b)
}

/// `a == b` as numbers: both zeros are equal, and what is not a number equals
/// nothing.
pub open spec fn equal(a: Bits, b: Bits) -> bool {
    !is_nan(a) && !is_nan(b) && signed(a) == signed(b)
}

/// The larger of two singles; where one is not a number, the other.
pub open spec fn larger(a: Bits, b: Bits) -> Bits {
    if is_nan(a) {
        b
    } else if is_nan(b) || signed(a) >= signed(b) {
        a
    } else {
        b
    }
}

/// The place of `x` in a ranking: numbers by value, and what is not a number
/// below every number.
pub open spec fn rank(x: Bits) -> int {
    if is_nan(x) {
        -(SIGN as int)
    } else {
        signed(x)
    }
}

/// Whether `x` is not a number.
pub fn test_nan(x: Bits) -> (r: bool)
    ensures
        r == is_nan(x),
{
    if x >= SIGN {
        x - SIGN > INFINITY_MAGNITUDE
    } else {
        x > INFINITY_MAGNITUDE
    }
}

/// The place of `x` in a ranking.
pub fn rank_of(x: Bits) -> (r: i64)
    ensures
        r == rank(x),
{
    if test_nan(x) {
        -0x8000_0000
    } else if x >= SIGN {
        -((x - SIGN) as i64)
    } else {
        x as i64
    }
}

/// Whether `a > b`, as the operator on singles decides it.
pub fn is_greater(a: Bits, b: Bits) -> (r: bool)
    ensures
        r == greater(a, b),
{
    !test_nan(a) && !test_nan(b) && rank_of(a) > rank_of(b)
}

/// Whether `a == b`, as the operator on singles decides it.
pub fn is_equal(a: Bits, b: Bits) -> (r: bool)
    ensures
        r == equal(a, b),
{
    !test_nan(a) && !test_nan(b) && rank_of(a) == rank_of(b)
}

/// The larger of two singles; where one is not a number, the other.
pub fn larger_of(a: Bits, b: Bits) -> (r: Bits)
    ensures
        r == larger(a, b),
{
    if test_nan(a) {
        b
    } else if test_nan(b) || rank_of(a) >= rank_of(b) {
        a
    } else {
        b
    }
}

/// Numbers are totally ordered by `greater`: of two numbers with different
/// signed magnitudes exactly one is greater, and the relation is transitive.
pub proof fn law_numbers_are_ordered(a: Bits, b: Bits, c: Bits)
    requires
        !is_nan(a),
        !is_nan(b),
        !is_nan(c),
    ensures
        !(greater(a, b) && greater(b, a)),
        greater(a, b) || greater(b, a) || signed(a) == signed(b),
        greater(a, b) && greater(b, c) ==> greater(a, c),
        greater(a, b) <==> rank(a) > rank(b),
{
}

/// The two zeros are equal in the order, and negative infinity is below every
/// other number.
pub proof fn law_order_ends(x: Bits)
    requires
        !is_nan(x),
    ensures
        signed(SIGN) == signed(ZERO),
        x != NEG_INFINITY ==> greater(x, NEG_INFINITY),
        rank(x) > rank(0x7fc0_0000),
{
}

/// How singles compare by their bits. Of two positive numbers the one with the larger
/// pattern is greater, of two negative ones the one with the smaller pattern, and a
/// positive number is greater than a negative one unless both are zero; what is not
/// a number is neither greater nor less than anything, nor equal to it. Beyond both
/// infinities nothing is a number.
pub proof fn law_bits_compare_as_numbers(a: Bits, b: Bits)
    ensures
        a <= 0x7f80_0000 && b <= 0x7f80_0000 ==> (greater(a, b) <==> a > b),
        0x8000_0000 <= a <= 0xff80_0000 && 0x8000_0000 <= b <= 0xff80_0000 ==> (greater(a, b)
            <==> a < b),
        a <= 0x7f80_0000 && 0x8000_0000 <= b <= 0xff80_0000 ==> !greater(b, a) && (greater(a, b)
            <==> !(a == 0 && b == 0x8000_0000)),
        is_nan(a) <==> 0x7f80_0000 < a < 0x8000_0000 || a > 0xff80_0000,
        is_nan(a) || is_nan(b) ==> !greater(a, b) && !equal(a, b),
        !is_nan(a) && !is_nan(b) ==> (equal(a, b) <==> !greater(a, b) && !greater(b, a)),
        equal(a, b) <==> !is_nan(a) && !is_nan(b) && (a == b || (a == 0 || a == 0x8000_0000) && (b
            == 0 || b == 0x8000_0000)),
        is_nan(a) && !is_nan(b) ==> rank(a) < rank(b),
        !is_nan(a) && !is_nan(b) ==> (rank(a) > rank(b) <==> greater(a, b)),
{
}

/// The larger of two singles is one of them, and neither is greater; where one is
/// not a number it is the other.
pub proof fn law_larger_is_an_upper_bound(a: Bits, b: Bits)
    ensures
        larger(a, b) == a || larger(a, b) == b,
        !greater(a, larger(a, b)),
        !greater(b, larger(a, b)),
        is_nan(a) ==> larger(a, b) == b,
        is_nan(b) && !is_nan(a) ==> larger(a, b) == a,
        greater(a, b) ==> larger(a, b) == a,
        greater(b, a) ==> larger(a, b) == b,
{
}

} // verus!
