//! Colours with a shared exponent.

use vstd::arithmetic::power2::*;
use vstd::bits::*;
use vstd::prelude::*;

use crate::shared::Vec3;
use crate::single;

verus! {

/// A colour with an exponent that its three parts share.
#[derive(Debug, Clone, Copy, PartialEq, Eq, Structural)]
pub struct ColorRGBExp32 {
    pub r: u8,
    pub g: u8,
    pub b: u8,
    pub exponent: i8,
}

/// The larger one of two numbers. Where one is none, it is the other.
pub open spec fn larger(a: u32, b: u32) -> u32 {
    if single::is_nan(a) {
        b
    } else if single::less(a, b) {
        b
    } else {
        a
    }
}

/// The largest part of a colour.
pub open spec fn largest_spec(c: Vec3) -> u32 {
    larger(larger(c.x, c.y), c.z)
}

fn larger_of(a: u32, b: u32) -> (r: u32)
    ensures
        r == larger(a, b),
{
    if single::not_a_number(a) || single::lt(a, b) {
        b
    } else {
        a
    }
}

/// The largest part of a colour.
pub fn largest(c: &Vec3) -> (r: u32)
    ensures
        r == largest_spec(*c),
{
    larger_of(larger_of(c.x, c.y), c.z)
}

/// The number that `n / 2^e` has before its point, for a finite `n` that is not
/// negative.
pub open spec fn whole_part(bits: u32, e: int) -> nat {
    let shift = single::exponent(bits) - e;
    if shift >= 0 {
        single::significand(bits) * pow2(shift as nat)
    } else {
        single::significand(bits) / pow2((-shift) as nat)
    }
}

/// The byte that stands for `n / 2^e`: its whole part, as far as it is a byte. With
/// an exponent below the least one of a scale, everything above zero is too large.
pub open spec fn part_byte(bits: u32, e: int) -> u8 {
    if single::is_nan(bits) || bits >= 0x8000_0000 || bits == 0 {
        0
    } else if e < -127 || bits == single::INFINITY || whole_part(bits, e) > 255 {
        255
    } else {
        whole_part(bits, e) as u8
    }
}

/// The byte that stands for `n / 2^e`.
fn part(bits: u32, e: i32) -> (r: u8)
    requires
        -200 <= e <= 200,
    ensures
        r == part_byte(bits, e as int),
{
    if single::not_a_number(bits) || bits >= 0x8000_0000 || bits == 0 {
        return 0;
    }
    if e < -127 || bits == single::INFINITY {
        return 255;
    }
    let m: u64 = single::significand_of(bits) as u64;
    let shift: i32 = single::exponent_of(bits) - e;
    proof {
        lemma2_to64();
    }
    if shift >= 8 {
        proof {
            lemma_pow2_strictly_increases_or_same(8, shift as nat);
            let p = pow2(shift as nat) as int;
            assert(m as int * p >= 256) by (nonlinear_arith)
                requires
                    m >= 1,
                    p >= 256,
            ;
        }
        return 255;
    }
    let whole: u64 = if shift >= 0 {
        let s: u64 = shift as u64;
        proof {
            lemma_pow2_strictly_increases_or_same(s as nat, 8);
            let p = pow2(s as nat) as int;
            assert(m as int * p <= 0x100_0000 * 256) by (nonlinear_arith)
                requires
                    0 <= m < 0x100_0000,
                    0 <= p <= 256,
            ;
            lemma_u64_shl_is_mul(m, s);
        }
        m << s
    } else if shift <= -25 {
        proof {
            lemma_pow2_strictly_increases_or_same(25, (-shift) as nat);
            vstd::arithmetic::div_mod::lemma_basic_div(m as int, pow2((-shift) as nat) as int);
        }
        0
    } else {
        let s: u64 = (-shift) as u64;
        proof {
            lemma_u64_shr_is_div(m, s);
            lemma_pow2_pos(s as nat);
        }
        m >> s
    };
    if whole > 255 {
        255
    } else {
        whole as u8
    }
}

proof fn lemma_pow2_strictly_increases_or_same(a: nat, b: nat)
    requires
        a <= b,
    ensures
        pow2(a) <= pow2(b),
{
    if a < b {
        lemma_pow2_strictly_increases(a, b);
    }
}

/// The exponent by which a colour is scaled, where its largest part is about two to
/// the power of `floor_log2`.
pub open spec fn scale_exponent(floor_log2: i32) -> int {
    floor_log2 - 7
}

/// The exponent that is stored with a colour.
pub open spec fn stored_exponent(floor_log2: i32) -> i8 {
    let e = scale_exponent(floor_log2);
    if e < i8::MIN {
        i8::MIN
    } else if e > i8::MAX {
        i8::MAX
    } else {
        e as i8
    }
}

/// The encoding of a colour.
pub open spec fn encoded(c: Vec3, floor_log2: i32) -> ColorRGBExp32 {
    let e = scale_exponent(floor_log2);
    if single::at_most(largest_spec(c), single::ZERO) {
        ColorRGBExp32 { r: 0, g: 0, b: 0, exponent: 0 }
    } else {
        ColorRGBExp32 {
            r: part_byte(c.x, e),
            g: part_byte(c.y, e),
            b: part_byte(c.z, e),
            exponent: stored_exponent(floor_log2),
        }
    }
}

/// The encoding of a colour. `floor_log2` is the logarithm of its largest part to
/// the base of two, rounded down; it does not count where no part is above zero.
pub fn encode_rgbexp32(color: &Vec3, floor_log2: i32) -> (r: ColorRGBExp32)
    requires
        -149 <= floor_log2 <= 128,
    ensures
        r == encoded(*color, floor_log2),
{
    if single::le(largest(color), single::ZERO) {
        return ColorRGBExp32 { r: 0, g: 0, b: 0, exponent: 0 };
    }
    let exponent: i32 = floor_log2 + 1 - 8;
    let stored: i8 = if exponent < -128 {
        -128
    } else if exponent > 127 {
        127
    } else {
        exponent as i8
    };
    ColorRGBExp32 {
        r: part(color.x, exponent),
        g: part(color.y, exponent),
        b: part(color.z, exponent),
        exponent: stored,
    }
}

/// With the logarithm of its largest part, that part of a colour takes all eight
/// bits: nothing is cut off, and the upper bit is set.
pub proof fn largest_part_fills_its_byte(bits: u32, floor_log2: i32)
    requires
        0 < bits < single::INFINITY,
        -120 <= floor_log2 <= 127,
        whole_part(bits, floor_log2 as int) == 1,
    ensures
        128 <= part_byte(bits, scale_exponent(floor_log2)) <= 255,
        part_byte(bits, scale_exponent(floor_log2)) == whole_part(
            bits,
            scale_exponent(floor_log2),
        ),
{
    let m = single::significand(bits) as int;
    let f = floor_log2 as int;
    let shift = single::exponent(bits) - f;
    lemma2_to64();
    lemma_pow2_pos(7);
    if shift >= 0 {
        lemma_pow2_pos(shift as nat);
        lemma_pow2_adds(shift as nat, 7);
        let p = pow2(shift as nat) as int;
        assert(m * (p * 128) == 128 * (m * p)) by (nonlinear_arith);
    } else if shift >= -7 {
        let p = pow2((-shift) as nat) as int;
        let q = pow2((shift + 7) as nat) as int;
        lemma_pow2_pos((-shift) as nat);
        lemma_pow2_pos((shift + 7) as nat);
        lemma_pow2_adds((-shift) as nat, (shift + 7) as nat);
        vstd::arithmetic::div_mod::lemma_fundamental_div_mod(m, p);
        vstd::arithmetic::div_mod::lemma_mod_bound(m, p);
        assert(p * q == 128);
        assert(128 <= m * q <= 255) by (nonlinear_arith)
            requires
                p <= m < 2 * p,
                p * q == 128,
                q > 0,
        ;
    } else {
        let p = pow2((-shift) as nat) as int;
        let q = pow2((-shift - 7) as nat) as int;
        lemma_pow2_pos((-shift) as nat);
        lemma_pow2_pos((-shift - 7) as nat);
        lemma_pow2_adds((-shift - 7) as nat, 7);
        vstd::arithmetic::div_mod::lemma_fundamental_div_mod(m, p);
        vstd::arithmetic::div_mod::lemma_mod_bound(m, p);
        vstd::arithmetic::div_mod::lemma_fundamental_div_mod(m, q);
        vstd::arithmetic::div_mod::lemma_mod_bound(m, q);
        let d = m / q;
        assert(128 <= d <= 255) by (nonlinear_arith)
            requires
                128 * q <= m < 256 * q,
                m == q * d + m % q,
                0 <= m % q < q,
                q > 0,
        ;
    }
}

/// A colour of twice the brightness.
pub open spec fn doubled(c: Vec3) -> Vec3 {
    Vec3 { x: single::doubled(c.x), y: single::doubled(c.y), z: single::doubled(c.z) }
}

/// Twice a number has as much before its point for an exponent that is larger by one.
proof fn lemma_doubled_whole_part(bits: u32, e: int)
    requires
        single::is_finite(bits),
        single::is_finite(single::doubled(bits)),
    ensures
        whole_part(single::doubled(bits), e + 1) == whole_part(bits, e),
{
    let d = single::doubled(bits);
    let m = single::significand(bits) as int;
    let shift = single::exponent(bits) - e;
    if bits / 0x80_0000 % 0x100 == 0 {
        assert(single::significand(d) == 2 * m);
        assert(single::exponent(d) == -149);
        if shift > 0 {
            lemma_pow2_unfold(shift as nat);
            let q = pow2((shift - 1) as nat) as int;
            assert(m * (2 * q) == (2 * m) * q) by (nonlinear_arith);
        } else {
            let p = pow2((-shift) as nat) as int;
            lemma_pow2_pos((-shift) as nat);
            lemma_pow2_unfold((1 - shift) as nat);
            lemma2_to64();
            vstd::arithmetic::div_mod::lemma_div_denominator(2 * m, 2, p);
            assert((2 * m) / 2 == m);
            if shift == 0 {
                assert(p == 1);
            }
        }
    } else {
        assert(single::significand(d) == m);
        assert(single::exponent(d) == single::exponent(bits) + 1);
    }
}

/// The larger one of two numbers is so among their doubles.
proof fn lemma_doubled_larger(a: u32, b: u32)
    requires
        single::is_finite(a),
        single::is_finite(b),
    ensures
        larger(single::doubled(a), single::doubled(b)) == single::doubled(larger(a, b)),
{
}

/// A colour of twice the brightness is encoded with the same three bytes, and with an
/// exponent that is larger by one, wherever the exponents fit and the largest part
/// stays finite. The logarithm of its largest part is then larger by one as well.
pub proof fn doubling_raises_the_exponent(c: Vec3, floor_log2: i32)
    requires
        single::is_finite(c.x),
        single::is_finite(c.y),
        single::is_finite(c.z),
        !single::at_most(largest_spec(c), single::ZERO),
        single::is_finite(single::doubled(largest_spec(c))),
        i8::MIN < scale_exponent(floor_log2) < i8::MAX,
    ensures
        ({
            let a = encoded(c, floor_log2);
            let b = encoded(doubled(c), (floor_log2 + 1) as i32);
            &&& b.r == a.r
            &&& b.g == a.g
            &&& b.b == a.b
            &&& b.exponent == a.exponent + 1
        }),
        largest_spec(doubled(c)) == single::doubled(largest_spec(c)),
        whole_part(largest_spec(doubled(c)), floor_log2 + 1) == whole_part(
            largest_spec(c),
            floor_log2 as int,
        ),
{
    lemma_largest(c);
    let most = largest_spec(c);
    assert(largest_spec(doubled(c)) == single::doubled(most)) by {
        lemma_doubled_larger(c.x, c.y);
        lemma_doubled_larger(larger(c.x, c.y), c.z);
    }
    lemma_above_zero(most);
    lemma_doubled_whole_part(largest_spec(c), floor_log2 as int);
    let e = scale_exponent(floor_log2);
    assert(scale_exponent((floor_log2 + 1) as i32) == e + 1);
    lemma_doubled_part(c.x, most, e);
    lemma_doubled_part(c.y, most, e);
    lemma_doubled_part(c.z, most, e);
}

/// What is above zero is so when it is doubled.
proof fn lemma_above_zero(bits: u32)
    requires
        single::is_finite(bits),
        !single::at_most(bits, single::ZERO),
    ensures
        !single::at_most(single::doubled(bits), single::ZERO),
{
}

/// Among finite parts the largest one is one of them, and none is above it.
proof fn lemma_largest(c: Vec3)
    requires
        single::is_finite(c.x),
        single::is_finite(c.y),
        single::is_finite(c.z),
    ensures
        single::is_finite(larger(c.x, c.y)),
        single::is_finite(largest_spec(c)),
        single::at_most(c.x, largest_spec(c)),
        single::at_most(c.y, largest_spec(c)),
        single::at_most(c.z, largest_spec(c)),
{
}

/// A part that is not above the largest one has the same byte when it is doubled, for
/// an exponent that is larger by one.
proof fn lemma_doubled_part(bits: u32, most: u32, e: int)
    requires
        single::is_finite(bits),
        single::is_finite(most),
        single::is_finite(single::doubled(most)),
        single::at_most(bits, most),
        e >= -127,
    ensures
        part_byte(single::doubled(bits), e + 1) == part_byte(bits, e),
{
    if 0 < bits < 0x8000_0000 {
        assert(single::is_finite(single::doubled(bits)));
        lemma_doubled_whole_part(bits, e);
    }
}

/// What a number has before its point: as many steps of `2^e` as fit into it, and one more
/// is too many.
pub proof fn whole_part_fits(bits: u32, e: int)
    requires
        bits < single::INFINITY,
        -149 <= e,
    ensures
        whole_part(bits, e) * pow2((e + 149) as nat) <= single::magnitude(bits),
        single::magnitude(bits) < (whole_part(bits, e) + 1) * pow2((e + 149) as nat),
{
    let m = single::significand(bits) as int;
    let x = (single::exponent(bits) + 149) as nat;
    let y = (e + 149) as nat;
    let shift = single::exponent(bits) - e;
    lemma_pow2_pos(x);
    lemma_pow2_pos(y);
    let (p, u) = (pow2(x) as int, pow2(y) as int);
    if shift >= 0 {
        let q = pow2(shift as nat) as int;
        lemma_pow2_adds(shift as nat, y);
        let w = m * q;
        assert(m * p == w * u && w * u < (w + 1) * u) by (nonlinear_arith)
            requires
                p == q * u,
                w == m * q,
                u > 0,
        ;
    } else {
        let q = pow2((-shift) as nat) as int;
        lemma_pow2_pos((-shift) as nat);
        lemma_pow2_adds((-shift) as nat, x);
        let w = m / q;
        vstd::arithmetic::div_mod::lemma_fundamental_div_mod(m, q);
        vstd::arithmetic::div_mod::lemma_mod_bound(m, q);
        assert(w * u <= m * p < (w + 1) * u) by (nonlinear_arith)
            requires
                u == q * p,
                m == q * w + m % q,
                0 <= m % q < q,
                p > 0,
                q > 0,
        ;
    }
}

/// The byte of a part: nothing for what is not above zero, all for what is infinite or has
/// more than fits, and else the whole steps that it has.
pub proof fn parts_are_cut_to_bytes(bits: u32, e: int)
    requires
        -127 <= e,
    ensures
        !single::less(single::ZERO, bits) ==> part_byte(bits, e) == 0,
        bits == single::INFINITY ==> part_byte(bits, e) == 255,
        0 < bits < single::INFINITY && whole_part(bits, e) <= 255 ==> part_byte(bits, e)
            == whole_part(bits, e),
        0 < bits < single::INFINITY && whole_part(bits, e) > 255 ==> part_byte(bits, e) == 255,
{
}

/// A brighter part has no smaller byte.
pub proof fn brighter_parts_have_no_smaller_bytes(a: u32, b: u32, e: int)
    requires
        -127 <= e,
        single::at_most(a, b),
    ensures
        part_byte(a, e) <= part_byte(b, e),
{
    if 0 < a < single::INFINITY && 0 < b < single::INFINITY {
        single::order_is_that_of_the_values(b, a);
        whole_part_fits(a, e);
        whole_part_fits(b, e);
        lemma_pow2_pos((e + 149) as nat);
        let u = pow2((e + 149) as nat) as int;
        let (x, y) = (whole_part(a, e) as int, whole_part(b, e) as int);
        assert(x <= y) by (nonlinear_arith)
            requires
                x * u < (y + 1) * u,
                u > 0,
        ;
    }
}

/// Every part of a colour has the byte of its place, all of them for one exponent, which
/// is seven below the logarithm; it is stored as far as eight bits go. A colour of which
/// no part is above zero is black.
pub proof fn parts_keep_their_places(c: Vec3, floor_log2: i32)
    requires
        -149 <= floor_log2 <= 128,
    ensures
        ({
            let r = encoded(c, floor_log2);
            let e = floor_log2 - 7;
            let black = !single::less(0, c.x) && !single::less(0, c.y) && !single::less(0, c.z);
            let numbers = !single::is_nan(c.x) || !single::is_nan(c.y) || !single::is_nan(c.z);
            &&& black && numbers ==> r.r == 0 && r.g == 0 && r.b == 0 && r.exponent == 0
            &&& !black ==> {
                &&& r.r == part_byte(c.x, e)
                &&& r.g == part_byte(c.y, e)
                &&& r.b == part_byte(c.z, e)
                &&& -128 <= e <= 127 ==> r.exponent == e
                &&& e < -128 ==> r.exponent == -128
                &&& e > 127 ==> r.exponent == 127
            }
        }),
{
}

/// The largest part of a colour is one of its parts and none is above it. What is no
/// number does not count, as long as there is a number.
pub proof fn largest_is_above_all(c: Vec3)
    ensures
        largest_spec(c) == c.x || largest_spec(c) == c.y || largest_spec(c) == c.z,
        !single::less(largest_spec(c), c.x),
        !single::less(largest_spec(c), c.y),
        !single::less(largest_spec(c), c.z),
        !single::is_nan(c.x) || !single::is_nan(c.y) || !single::is_nan(c.z) ==> !single::is_nan(
            largest_spec(c),
        ),
{
}

/// For an exponent below the least one of a scale, everything above zero has all of its
/// byte, and everything else nothing.
pub proof fn least_exponents_fill_every_byte(bits: u32, e: int)
    requires
        e < -127,
    ensures
        single::less(single::ZERO, bits) ==> part_byte(bits, e) == 255,
        !single::less(single::ZERO, bits) ==> part_byte(bits, e) == 0,
{
}

/// A colour without a number in it has no light, and still the exponent of its logarithm.
pub proof fn what_is_no_number_has_no_light(c: Vec3, floor_log2: i32)
    requires
        single::is_nan(c.x),
        single::is_nan(c.y),
        single::is_nan(c.z),
        -121 <= floor_log2 <= 128,
    ensures
        encoded(c, floor_log2) == (ColorRGBExp32 {
            r: 0,
            g: 0,
            b: 0,
            exponent: (floor_log2 - 7) as i8,
        }),
{
}

} // verus!
