//! Single-precision numbers, handled by their bit patterns.
//!
//! The library compares such numbers and passes them on. It does not calculate
//! with them.

use vstd::arithmetic::mul::*;
use vstd::arithmetic::power2::*;
use vstd::prelude::*;

verus! {

/// The bit pattern is that of no number.
pub open spec fn is_nan(bits: u32) -> bool {
    0x7f80_0000 < bits < 0x8000_0000 || 0xff80_0000 < bits
}

/// Where a number stands among the others. The two zeros stand at one place.
pub open spec fn rank(bits: u32) -> int {
    if bits < 0x8000_0000 {
        bits as int
    } else {
        0x8000_0000 - bits
    }
}

/// `a < b` of two numbers.
pub open spec fn less(a: u32, b: u32) -> bool {
    !is_nan(a) && !is_nan(b) && rank(a) < rank(b)
}

/// `a <= b` of two numbers.
pub open spec fn at_most(a: u32, b: u32) -> bool {
    !is_nan(a) && !is_nan(b) && rank(a) <= rank(b)
}

/// The whole number that a finite number is the product of, with a power of two;
/// the sign is left out.
pub open spec fn significand(bits: u32) -> nat {
    let fraction = (bits % 0x80_0000) as nat;
    if bits / 0x80_0000 % 0x100 == 0 {
        fraction
    } else {
        fraction + 0x80_0000
    }
}

/// The power of two that a finite number is the product of, with a whole number.
pub open spec fn exponent(bits: u32) -> int {
    let e = bits / 0x80_0000 % 0x100;
    if e == 0 {
        -149
    } else {
        e - 150
    }
}

/// The bit pattern is that of a finite number.
pub open spec fn is_finite(bits: u32) -> bool {
    bits / 0x80_0000 % 0x100 != 0xff
}

/// A finite number in units of the least one above zero; the sign is left out.
pub open spec fn magnitude(bits: u32) -> nat {
    significand(bits) * pow2((exponent(bits) + 149) as nat)
}

/// The bit pattern of twice a finite number. What is too large for one becomes
/// infinite.
pub open spec fn doubled(bits: u32) -> u32 {
    let e = bits / 0x80_0000 % 0x100;
    if e == 0 {
        (bits + bits % 0x80_0000) as u32
    } else if e < 0xfe {
        (bits + 0x80_0000) as u32
    } else if bits < 0x8000_0000 {
        INFINITY
    } else {
        (0x8000_0000 + INFINITY) as u32
    }
}

/// The bit pattern of what is larger than every number.
pub const INFINITY: u32 = 0x7f80_0000;

/// The bit pattern of zero.
pub const ZERO: u32 = 0;

/// The bit pattern of one.
pub const ONE: u32 = 0x3f80_0000;

/// The bit pattern is that of no number.
pub fn not_a_number(bits: u32) -> (r: bool)
    ensures
        r == is_nan(bits),
{
    (0x7f80_0000 < bits && bits < 0x8000_0000) || 0xff80_0000 < bits
}

/// The whole number that a finite number is the product of, with a power of two.
pub fn significand_of(bits: u32) -> (r: u32)
    ensures
        r == significand(bits),
        r < 0x100_0000,
        0 < bits < INFINITY ==> r > 0,
{
    let fraction: u32 = bits % 0x80_0000;
    if bits / 0x80_0000 % 0x100 == 0 {
        fraction
    } else {
        fraction + 0x80_0000
    }
}

/// The power of two that a finite number is the product of, with a whole number.
pub fn exponent_of(bits: u32) -> (r: i32)
    ensures
        r == exponent(bits),
        -149 <= r <= 105,
{
    let e: u32 = bits / 0x80_0000 % 0x100;
    if e == 0 {
        -149
    } else {
        e as i32 - 150
    }
}

fn rank_of(bits: u32) -> (r: i64)
    ensures
        r == rank(bits),
{
    if bits < 0x8000_0000 {
        bits as i64
    } else {
        0x8000_0000 - bits as i64
    }
}

/// `a < b` of two numbers.
pub fn lt(a: u32, b: u32) -> (r: bool)
    ensures
        r == less(a, b),
{
    !not_a_number(a) && !not_a_number(b) && rank_of(a) < rank_of(b)
}

/// `a <= b` of two numbers.
pub fn le(a: u32, b: u32) -> (r: bool)
    ensures
        r == at_most(a, b),
{
    !not_a_number(a) && !not_a_number(b) && rank_of(a) <= rank_of(b)
}

/// Of two bit patterns that are numbers, exactly one of `a < b` and `b <= a`
/// holds, and the order carries over.
pub proof fn numbers_are_ordered(a: u32, b: u32, c: u32)
    requires
        !is_nan(a),
        !is_nan(b),
        !is_nan(c),
    ensures
        less(a, b) <==> !at_most(b, a),
        less(a, b) && less(b, c) ==> less(a, c),
{
}

/// Twice a number is that: where it is still finite, it has twice the magnitude and
/// the same sign.
pub proof fn doubling_doubles(bits: u32)
    requires
        is_finite(bits),
        is_finite(doubled(bits)),
    ensures
        magnitude(doubled(bits)) == 2 * magnitude(bits),
        bits < 0x8000_0000 <==> doubled(bits) < 0x8000_0000,
{
    let e = bits / 0x80_0000 % 0x100;
    let d = doubled(bits);
    if e == 0 {
        assert(significand(d) == 2 * significand(bits));
        assert(exponent(d) == -149);
        lemma_mul_is_associative(2, significand(bits) as int, pow2(0) as int);
    } else {
        let p = (exponent(bits) + 149) as nat;
        assert(significand(d) == significand(bits));
        assert(exponent(d) == exponent(bits) + 1);
        lemma_pow2_unfold(p + 1);
        let (m, q) = (significand(bits) as int, pow2(p) as int);
        assert(m * (2 * q) == 2 * (m * q)) by (nonlinear_arith);
    }
}

/// One step up from a finite number that is not negative is a larger one.
proof fn lemma_next_is_larger(bits: u32)
    requires
        bits + 1 < 0x7f80_0000,
    ensures
        magnitude(bits) < magnitude((bits + 1) as u32),
{
    let n = (bits + 1) as u32;
    let e = bits / 0x80_0000 % 0x100;
    let f = n / 0x80_0000 % 0x100;
    let p = (exponent(bits) + 149) as nat;
    lemma_pow2_pos(p);
    let (m, q) = (significand(bits) as int, pow2(p) as int);
    if e == f || e == 0 {
        assert(significand(n) == m + 1);
        assert(exponent(n) == exponent(bits));
        lemma_mul_is_distributive_add_other_way(q, m, 1);
    } else {
        assert(significand(bits) == 0xff_ffff);
        assert(significand(n) == 0x80_0000);
        assert(exponent(n) == exponent(bits) + 1);
        lemma_pow2_unfold(p + 1);
        assert(0x80_0000 * (2 * q) == 0x100_0000 * q) by (nonlinear_arith);
        assert(0xff_ffff * q < 0x100_0000 * q) by (nonlinear_arith)
            requires
                q > 0,
        ;
    }
}

/// Larger bit patterns without a sign stand for larger numbers.
proof fn lemma_magnitudes_rise(a: u32, b: u32)
    requires
        a < b < 0x7f80_0000,
    ensures
        magnitude(a) < magnitude(b),
    decreases b - a,
{
    lemma_next_is_larger(a);
    if a + 1 < b {
        lemma_magnitudes_rise((a + 1) as u32, b);
    }
}

/// The sign does not change the magnitude.
proof fn lemma_sign_and_magnitude(bits: u32)
    requires
        bits < 0x8000_0000,
    ensures
        magnitude((bits + 0x8000_0000) as u32) == magnitude(bits),
{
    let n = (bits + 0x8000_0000) as u32;
    assert(n % 0x80_0000 == bits % 0x80_0000);
    assert(n / 0x80_0000 % 0x100 == bits / 0x80_0000 % 0x100);
}

/// Numbers are compared by what they stand for: two that are not negative by their
/// magnitudes, two negative ones the other way round, a negative one is below all
/// others but for the two zeros, which are equal. Infinity is above all finite
/// numbers, and what is no number compares with nothing.
pub proof fn order_is_that_of_the_values(a: u32, b: u32)
    ensures
        a < 0x7f80_0000 && b < 0x7f80_0000 ==> (less(a, b) <==> magnitude(a) < magnitude(b)),
        0x8000_0000 <= a < 0xff80_0000 && 0x8000_0000 <= b < 0xff80_0000 ==> (less(a, b)
            <==> magnitude(b) < magnitude(a)),
        0x8000_0000 <= a < 0xff80_0000 && b < 0x7f80_0000 ==> (less(a, b) <==> magnitude(a) > 0
            || magnitude(b) > 0) && !less(b, a),
        a < 0x7f80_0000 && b == 0x7f80_0000 ==> less(a, b) && !less(b, a),
        0x8000_0000 <= a <= 0xff80_0000 && b == 0x7f80_0000 ==> less(a, b) && !less(b, a),
        b == 0xff80_0000 && !is_nan(a) ==> !less(a, b) && (a != b ==> less(b, a)),
        0x7f80_0000 < a < 0x8000_0000 || 0xff80_0000 < a ==> !less(a, b) && !less(b, a)
            && !at_most(a, b) && !at_most(b, a),
        !is_nan(a) && !is_nan(b) ==> (at_most(a, b) <==> !less(b, a)),
{
    if a < 0x7f80_0000 && b < 0x7f80_0000 {
        if a < b {
            lemma_magnitudes_rise(a, b);
        } else if b < a {
            lemma_magnitudes_rise(b, a);
        }
    }
    if 0x8000_0000 <= a < 0xff80_0000 {
        let x = (a - 0x8000_0000) as u32;
        lemma_sign_and_magnitude(x);
        if x > 0 {
            lemma_magnitudes_rise(0, x);
        }
        assert(magnitude(0) == 0) by {
            magnitudes_are_spaced(0);
        }
        if 0x8000_0000 <= b < 0xff80_0000 {
            let y = (b - 0x8000_0000) as u32;
            lemma_sign_and_magnitude(y);
            if x < y {
                lemma_magnitudes_rise(x, y);
            } else if y < x {
                lemma_magnitudes_rise(y, x);
            }
        }
        if b < 0x7f80_0000 && b > 0 {
            lemma_magnitudes_rise(0, b);
        }
    }
}

/// How magnitudes are spaced: the least ones are the bit patterns themselves, and from
/// there on each further step of the exponent doubles them.
pub proof fn magnitudes_are_spaced(bits: u32)
    ensures
        bits < 0x100_0000 ==> magnitude(bits) == bits,
        0x80_0000 <= bits < 0x7f00_0000 ==> magnitude((bits + 0x80_0000) as u32) == 2
            * magnitude(bits),
{
    lemma2_to64();
    if bits < 0x100_0000 {
        assert(exponent(bits) + 149 == 0);
        assert(significand(bits) == bits);
        lemma_mul_basics(significand(bits) as int);
    }
    if 0x80_0000 <= bits < 0x7f00_0000 {
        doubling_doubles(bits);
    }
}

/// The patterns of one, of zero and of infinity: one is as many of the least numbers as
/// its exponent says, zero is none, and what follows the last finite number is infinity.
pub proof fn named_patterns()
    ensures
        magnitude(ONE) == pow2(149),
        magnitude(ZERO) == 0,
        ONE < 0x8000_0000,
        is_finite(ONE),
        !is_finite(INFINITY),
        is_finite((INFINITY - 1) as u32),
        INFINITY < 0x8000_0000,
        !is_nan(INFINITY),
{
    magnitudes_are_spaced(0);
    lemma2_to64();
    lemma_pow2_adds(23, 126);
    assert(significand(ONE) == 0x80_0000);
    assert(exponent(ONE) + 149 == 126);
}

} // verus!
