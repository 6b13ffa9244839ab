//! Spans of time and how they read in a report.
//!
//! Milliseconds and seconds are shown with two decimals, as the nearest
//! double-precision number would be. Doubles are modelled here as dyadic
//! rationals, so that the text is computed with integers alone.

use vstd::arithmetic::div_mod::*;
use vstd::arithmetic::mul::*;
use vstd::arithmetic::power2::*;
use vstd::prelude::*;

use crate::text;

verus! {

broadcast use vstd::string::group_string_axioms;

pub const NANOS_PER_SEC: u32 = 1_000_000_000;

/// A span of time: whole seconds and the nanoseconds beyond them.
#[derive(Debug, Clone, Copy, PartialEq, Eq, Structural)]
pub struct Duration {
    pub secs: u64,
    pub nanos: u32,
}

impl Duration {
    pub open spec fn wf(self) -> bool {
        self.nanos < NANOS_PER_SEC
    }

    /// The whole span in nanoseconds.
    pub open spec fn total_nanos(self) -> nat {
        self.secs as nat * 1_000_000_000 + self.nanos as nat
    }

    /// The whole microseconds in the span.
    pub open spec fn micros(self) -> nat {
        self.secs as nat * 1_000_000 + self.nanos as nat / 1_000
    }

    /// The span of `nanos` nanoseconds.
    pub fn from_nanos(nanos: u64) -> (d: Duration)
        ensures
            d.wf(),
            d.total_nanos() == nanos,
    {
        Duration {
            secs: nanos / 1_000_000_000,
            nanos: (nanos % 1_000_000_000) as u32,
        }
    }

    /// The whole microseconds in the span.
    pub fn as_micros(&self) -> (us: u128)
        requires
            self.wf(),
        ensures
            us == self.micros(),
    {
        self.secs as u128 * 1_000_000 + (self.nanos / 1_000) as u128
    }
}

/// `n / d` rounded to the nearest integer, ties to even.
pub open spec fn round_half_even(n: nat, d: nat) -> nat
    recommends
        d > 0,
{
    let q = n / d;
    let r = n % d;
    if 2 * r < d || (2 * r == d && q % 2 == 0) {
        q
    } else {
        q + 1
    }
}

/// The number `m / 2^k`.
pub struct Dyadic {
    pub m: nat,
    pub k: nat,
}

/// The least `j >= k` with `n * 2^j >= 2^52 * d`.
pub open spec fn normal_shift(n: nat, d: nat, k: nat) -> nat
    decreases 2 * (pow2(52) * d) - n * pow2(k),
    when n > 0
    via normal_shift_decreases
{
    if n * pow2(k) >= pow2(52) * d {
        k
    } else {
        normal_shift(n, d, k + 1)
    }
}

#[via_fn]
proof fn normal_shift_decreases(n: nat, d: nat, k: nat) {
    lemma_pow2_unfold(k + 1);
    lemma_pow2_pos(k);
    lemma_mul_is_associative(n as int, 2, pow2(k) as int);
    lemma_mul_is_commutative(n as int, 2);
    lemma_mul_is_associative(2, n as int, pow2(k) as int);
    lemma_mul_strictly_positive(n as int, pow2(k) as int);
}

/// The double-precision number nearest to `n / d`, for `0 <= n / d < 2^52` with
/// a quotient that is zero or in the normal range: 53 significant bits, ties to
/// even.
pub open spec fn binary64(n: nat, d: nat) -> Dyadic {
    if n == 0 {
        Dyadic { m: 0, k: 0 }
    } else {
        let k = normal_shift(n, d, 0);
        Dyadic { m: round_half_even(n * pow2(k), d), k }
    }
}

/// The sum of the integer `n` and the double `x`, as a double.
pub open spec fn binary64_sum(n: nat, x: Dyadic) -> Dyadic {
    binary64(n * pow2(x.k) + x.m, pow2(x.k))
}

/// A double in hundredths, rounded to the nearest one, ties to even.
pub open spec fn hundredths(x: Dyadic) -> nat {
    round_half_even(100 * x.m, pow2(x.k))
}

/// `h` hundredths as a number with two decimals.
pub open spec fn two_decimals(h: nat) -> Seq<char> {
    text::decimal(h / 100) + seq!['.', text::digit(h / 10 % 10), text::digit(h % 10)]
}

/// `us` microseconds in milliseconds, as a double.
pub open spec fn millis_binary64(us: nat) -> Dyadic {
    binary64(us, 1_000)
}

/// A span in seconds, as a double: the whole seconds plus the rounded fraction.
pub open spec fn secs_binary64(d: Duration) -> Dyadic {
    binary64_sum(d.secs as nat, binary64(d.nanos as nat, NANOS_PER_SEC as nat))
}

/// How a span reads in a report.
pub open spec fn human_duration(d: Duration) -> Seq<char> {
    if d.micros() < 1_000 {
        text::decimal(d.micros()) + seq!['µ', 's']
    } else if d.micros() < 1_000_000 {
        two_decimals(hundredths(millis_binary64(d.micros()))) + seq!['m', 's']
    } else if d.secs < 60 {
        two_decimals(hundredths(secs_binary64(d))) + seq!['s']
    } else if d.secs < 3_600 {
        text::decimal(d.secs as nat / 60) + seq!['m', ' '] + text::decimal(d.secs as nat % 60)
            + seq!['s']
    } else {
        text::decimal(d.secs as nat / 3_600) + seq!['h', ' '] + text::decimal(
            d.secs as nat % 3_600 / 60,
        ) + seq!['m']
    }
}

/// The shift is settled by the two bounds that it meets.
proof fn lemma_normal_shift(n: nat, d: nat, i: nat, j: nat)
    requires
        n > 0,
        i <= j,
        n * pow2(j) >= pow2(52) * d,
        forall|l: nat| i <= l < j ==> n * #[trigger] pow2(l) < pow2(52) * d,
    ensures
        normal_shift(n, d, i) == j,
    decreases j - i,
{
    if i < j {
        assert(n * pow2(i) < pow2(52) * d);
        lemma_normal_shift(n, d, i + 1, j);
    }
}

/// `n / d` rounded to the nearest integer, ties to even.
fn rounded(n: u128, d: u128) -> (r: u128)
    requires
        0 < d <= u128::MAX / 2,
        n <= u128::MAX / 2,
    ensures
        r == round_half_even(n as nat, d as nat),
        r <= n / d + 1,
{
    let q: u128 = n / d;
    let r: u128 = n % d;
    if 2 * r < d || (2 * r == d && q % 2 == 0) {
        q
    } else {
        assert(q <= n) by {
            lemma_div_is_ordered_by_denominator(n as int, 1, d as int);
        }
        q + 1
    }
}

/// The double nearest to `n / d`, as its significand and its denominator.
fn nearest_double(n: u64, d: u64) -> (r: (u128, u128))
    requires
        0 < n,
        0 < d <= 0x4000_0000,
        n < 0x4000_0000 * d,
    ensures
        r.0 == binary64(n as nat, d as nat).m,
        r.1 == pow2(binary64(n as nat, d as nat).k),
        r.0 <= 0x20_0000_0000_0000,
        0x10_0000_0000_0000 * d <= n * r.1 < 0x20_0000_0000_0000 * d,
        0 < r.1 < 0x20_0000_0000_0000 * d,
        r.0 <= (n * r.1) / (d as int) + 1,
{
    let target: u128 = 0x10_0000_0000_0000 * d as u128;
    let mut scaled: u128 = n as u128;
    let mut scale: u128 = 1;
    let ghost mut k: nat = 0;
    proof {
        lemma2_to64();
        lemma2_to64_rest();
    }
    while scaled < target
        invariant
            0 < n,
            0 < d <= 0x4000_0000,
            target == 0x10_0000_0000_0000 * d,
            target == pow2(52) * d,
            scale == pow2(k),
            scale > 0,
            scaled == n * pow2(k),
            scaled == n * scale,
            scaled < 2 * target,
            forall|l: nat| 0 <= l < k ==> n * #[trigger] pow2(l) < pow2(52) * d,
        decreases 2 * target - scaled,
    {
        proof {
            lemma_pow2_unfold(k + 1);
            assert(n * (2 * scale) == 2 * (n * scale)) by (nonlinear_arith);
            assert(scale <= scaled) by (nonlinear_arith)
                requires
                    scaled == n * scale,
                    n > 0,
                    scale > 0,
            ;
            assert(scaled > 0);
        }
        scaled = scaled * 2;
        scale = scale * 2;
        proof {
            k = k + 1;
        }
    }
    proof {
        lemma_normal_shift(n as nat, d as nat, 0, k);
    }
    let m: u128 = rounded(scaled, d as u128);
    proof {
        assert(scaled / (d as u128) < 0x20_0000_0000_0000) by {
            assert(scaled < 0x20_0000_0000_0000 * (d as u128));
            lemma_multiply_divide_lt(scaled as int, d as int, 0x20_0000_0000_0000);
        }
    }
    assert(scale <= scaled) by (nonlinear_arith)
        requires
            scaled == n * scale,
            n > 0,
    ;
    (m, scale)
}

/// A common factor does not change the rounded quotient.
proof fn lemma_round_common_factor(c: nat, n: nat, d: nat)
    requires
        c > 0,
        d > 0,
    ensures
        round_half_even(c * n, c * d) == round_half_even(n, d),
{
    lemma_div_multiples_vanish_quotient(c as int, n as int, d as int);
    lemma_truncate_middle(n as int, c as int, d as int);
    let r = (n % d) as int;
    assert(2 * (c * r) < c * d <==> 2 * r < d) by (nonlinear_arith)
        requires
            c > 0,
    ;
    assert(2 * (c * r) == c * d <==> 2 * r == d) by (nonlinear_arith)
        requires
            c > 0,
    ;
}

/// Hundredths of a double given by its significand and denominator.
fn double_hundredths(m: u128, scale: u128, x: Ghost<Dyadic>) -> (h: u64)
    requires
        m == x@.m,
        scale == pow2(x@.k),
        m <= 0x20_0000_0000_0000,
        0 < scale <= u128::MAX / 2,
    ensures
        h == hundredths(x@),
{
    let h: u128 = rounded(100 * m, scale);
    assert((100 * m) / (scale as int) <= 100 * m) by {
        lemma_div_is_ordered_by_denominator((100 * m) as int, 1, scale as int);
    }
    h as u64
}

/// The fraction `m / scale` of a second, rounded from `nanos` nanoseconds, is
/// less than one and spreads over more than 52 binary places.
proof fn lemma_fraction(nanos: u32, m: u128, scale: u128, k: nat)
    requires
        0 < nanos < NANOS_PER_SEC,
        scale == pow2(k),
        0x10_0000_0000_0000 * NANOS_PER_SEC <= nanos * scale,
        m <= (nanos * scale) / (NANOS_PER_SEC as int) + 1,
    ensures
        m < scale,
        k > 52,
{
    lemma2_to64_rest();
    assert(scale > 0x10_0000_0000_0000) by (nonlinear_arith)
        requires
            0 < nanos < 1_000_000_000,
            0x10_0000_0000_0000 * 1_000_000_000 <= nanos * scale,
    ;
    if k <= 52 {
        if k < 52 {
            lemma_pow2_strictly_increases(k, 52);
        }
    }
    assert(nanos * scale <= 999_999_999 * scale) by (nonlinear_arith)
        requires
            nanos <= 999_999_999,
    ;
    assert((nanos * scale) / 1_000_000_000 < scale - 1) by {
        assert(nanos * scale < 1_000_000_000 * (scale - 1));
    }
}

/// A number `n / 2^k` between `2^e` and `2^(e+1)`, with `k > 52 >= e`, has its
/// significand at `52 - e` binary places.
proof fn lemma_significand(n: nat, k: nat, e: nat)
    requires
        k > 52 >= e,
        pow2(e) * pow2(k) <= n < 2 * pow2(e) * pow2(k),
    ensures
        binary64(n, pow2(k)).k == 52 - e,
        binary64(n, pow2(k)).m == round_half_even(n, pow2((k + e - 52) as nat)),
        pow2((52 - e) as nat) * pow2((k + e - 52) as nat) == pow2(k),
        n < 0x20_0000_0000_0000 * pow2((k + e - 52) as nat),
{
    let j: nat = (52 - e) as nat;
    let d = pow2(k);
    let step = pow2((k + e - 52) as nat);
    lemma2_to64_rest();
    lemma_pow2_pos(k);
    lemma_pow2_pos(e);
    lemma_pow2_pos(j);
    lemma_pow2_pos((k + e - 52) as nat);
    lemma_pow2_adds(j, (k + e - 52) as nat);
    lemma_pow2_adds(e, j);
    lemma_pow2_adds(52, (k + e - 52) as nat);
    lemma_pow2_adds(e, k);
    let pe = pow2(e);
    let pj = pow2(j);
    assert(n > 0) by (nonlinear_arith)
        requires
            pe > 0,
            d > 0,
            pe * d <= n,
    ;
    assert(n * pj >= pow2(52) * d) by (nonlinear_arith)
        requires
            pe * d <= n,
            pe * pj == pow2(52),
            pj > 0,
    ;
    assert(n * pj < 2 * (pow2(52) * d)) by (nonlinear_arith)
        requires
            n < 2 * pe * d,
            pe * pj == pow2(52),
            pj > 0,
    ;
    assert forall|l: nat| 0 <= l < j implies n * #[trigger] pow2(l) < pow2(52) * d by {
        lemma_pow2_unfold(l + 1);
        if l + 1 < j {
            lemma_pow2_strictly_increases(l + 1, j);
        }
        let pl = pow2(l);
        assert(2 * (n * pl) <= n * pj) by (nonlinear_arith)
            requires
                2 * pl <= pj,
        ;
    }
    lemma_normal_shift(n, d, 0, j);
    lemma_round_common_factor(pj, n, step);
    lemma_mul_is_commutative(n as int, pj as int);
    assert(2 * pe * d == 2 * (pow2(52) * step)) by (nonlinear_arith)
        requires
            pe * d == pow2(52) * step,
    ;
}

/// The hundredths of a second in a span of one second to a minute.
fn seconds_hundredths(d: &Duration) -> (h: u64)
    requires
        d.wf(),
        1 <= d.secs < 60,
    ensures
        h == hundredths(secs_binary64(*d)),
{
    proof {
        lemma2_to64();
        lemma2_to64_rest();
    }
    if d.nanos == 0 {
        let (m, scale) = nearest_double(d.secs, 1);
        assert(d.secs as nat * pow2(0) + 0 == d.secs as nat) by (nonlinear_arith)
            requires
                pow2(0) == 1,
        ;
        return double_hundredths(m, scale, Ghost(secs_binary64(*d)));
    }
    let (m, scale) = nearest_double(d.nanos as u64, NANOS_PER_SEC as u64);
    let ghost q = binary64(d.nanos as nat, NANOS_PER_SEC as nat);
    proof {
        lemma_fraction(d.nanos, m, scale, q.k);
        assert(d.secs * scale <= 59 * scale) by (nonlinear_arith)
            requires
                d.secs <= 59,
        ;
    }
    let n: u128 = d.secs as u128 * scale + m;
    assert(n == d.secs as nat * pow2(q.k) + q.m);

    // `unit` is the least power of two that has no more than 52 binary places
    // left below the whole seconds.
    let mut p: u128 = 1;
    let mut unit: u128 = 0x10_0000_0000_0000;
    let ghost mut e: nat = 0;
    while 2 * p <= d.secs as u128
        invariant
            1 <= d.secs < 60,
            1 <= p <= d.secs,
            e <= 52,
            p == pow2(e),
            unit == pow2((52 - e) as nat),
            p < 64,
            p * unit == 0x10_0000_0000_0000,
        decreases 64 - p,
    {
        proof {
            lemma2_to64();
            lemma2_to64_rest();
            if e == 52 {
                assert(p == 0x10_0000_0000_0000);
            }
            lemma_pow2_unfold(e + 1);
            lemma_pow2_unfold((52 - e) as nat);
            assert(unit == 2 * pow2((51 - e) as nat));
            assert(unit / 2 == pow2((51 - e) as nat));
            assert((2 * p) * (unit / 2) == p * unit) by (nonlinear_arith)
                requires
                    unit == 2 * (unit / 2),
            ;
        }
        p = 2 * p;
        unit = unit / 2;
        proof {
            e = e + 1;
        }
    }
    let ghost x = secs_binary64(*d);
    let step: u128 = scale / unit;
    proof {
        assert(p * scale <= d.secs * scale && (d.secs + 1) * scale <= 2 * p * scale)
            by (nonlinear_arith)
            requires
                p <= d.secs < 2 * p,
        ;
        assert((d.secs + 1) * scale == d.secs * scale + scale) by (nonlinear_arith);
        assert(x == binary64(n as nat, scale as nat));
        lemma_significand(n as nat, q.k, e);
        let s = pow2((q.k + e - 52) as nat);
        lemma_pow2_pos((q.k + e - 52) as nat);
        lemma_div_by_multiple(s as int, unit as int);
        lemma_mul_is_commutative(s as int, unit as int);
        assert(step == s);
        lemma_multiply_divide_lt(n as int, s as int, 0x20_0000_0000_0000);
        assert(s <= unit * s) by (nonlinear_arith)
            requires
                unit >= 1,
        ;
    }
    let m2: u128 = rounded(n, step);
    double_hundredths(m2, unit, Ghost(x))
}

/// Appends `h` hundredths as a number with two decimals.
fn push_two_decimals(out: &mut String, h: u64)
    ensures
        final(out)@ == old(out)@ + two_decimals(h as nat),
{
    text::push_decimal(out, h / 100);
    out.push('.');
    text::push_digit(out, (h / 10 % 10) as u8);
    text::push_digit(out, (h % 10) as u8);
    assert(out@ =~= old(out)@ + two_decimals(h as nat));
}

/// How the span `d` reads in a report: microseconds below a millisecond,
/// milliseconds below a second, seconds below a minute, minutes and seconds
/// below an hour, and hours and minutes beyond.
pub fn format_human_duration(d: Duration) -> (s: String)
    requires
        d.wf(),
    ensures
        s@ == human_duration(d),
{
    let us: u128 = d.as_micros();
    let mut out = String::new();
    if us < 1_000 {
        text::push_decimal(&mut out, us as u64);
        out.push('µ');
        out.push('s');
    } else if us < 1_000_000 {
        let (m, scale) = nearest_double(us as u64, 1_000);
        let h: u64 = double_hundredths(m, scale, Ghost(millis_binary64(us as nat)));
        push_two_decimals(&mut out, h);
        out.push('m');
        out.push('s');
    } else if d.secs < 60 {
        let h: u64 = seconds_hundredths(&d);
        push_two_decimals(&mut out, h);
        out.push('s');
    } else if d.secs < 3_600 {
        text::push_decimal(&mut out, d.secs / 60);
        out.push('m');
        out.push(' ');
        text::push_decimal(&mut out, d.secs % 60);
        out.push('s');
    } else {
        text::push_decimal(&mut out, d.secs / 3_600);
        out.push('h');
        out.push(' ');
        text::push_decimal(&mut out, d.secs % 3_600 / 60);
        out.push('m');
    }
    assert(out@ =~= human_duration(d));
    out
}

/// A rounded quotient is off by at most one half.
proof fn lemma_round_error(n: nat, d: nat)
    requires
        d > 0,
    ensures
        -(d as int) <= 2 * (round_half_even(n, d) * d - n) <= d,
{
    lemma_fundamental_div_mod(n as int, d as int);
    let q = n / d;
    lemma_mul_is_commutative(q as int, d as int);
    assert((q + 1) * d == q * d + d) by (nonlinear_arith);
}

/// The shift that `normal_shift` finds reaches its target.
proof fn lemma_normal_shift_reaches(n: nat, d: nat, k: nat)
    requires
        n > 0,
    ensures
        n * pow2(normal_shift(n, d, k)) >= pow2(52) * d,
    decreases 2 * (pow2(52) * d) - n * pow2(k),
{
    if n * pow2(k) < pow2(52) * d {
        lemma_pow2_pos(k);
        lemma_mul_strictly_positive(n as int, pow2(k) as int);
        lemma_pow2_unfold(k + 1);
        assert(n * (2 * pow2(k)) == 2 * (n * pow2(k))) by (nonlinear_arith);
        lemma_normal_shift_reaches(n, d, k + 1);
    }
}

/// A span between a millisecond and a second reads as the milliseconds to the
/// nearest hundredth: the shown number of microseconds is within five of the
/// span's.
pub proof fn millis_shown_to_nearest_hundredth(us: nat)
    requires
        1_000 <= us < 1_000_000,
    ensures
        -5 <= 10 * hundredths(millis_binary64(us)) - us <= 5,
{
    let x = millis_binary64(us);
    let b = pow2(x.k) as int;
    let h = hundredths(x) as int;
    let m = x.m as int;
    lemma2_to64_rest();
    lemma_pow2_pos(x.k);
    lemma_normal_shift_reaches(us, 1_000, 0);
    lemma_round_error(us * pow2(x.k), 1_000);
    lemma_round_error(100 * x.m, pow2(x.k));
    assert(b > 1_000) by (nonlinear_arith)
        requires
            us * b >= 0x10_0000_0000_0000 * 1_000,
            us < 1_000_000,
    ;
    let g = 10 * h - us;
    assert(g * b == 10 * (h * b) - us * b) by (nonlinear_arith)
        requires
            g == 10 * h - us,
    ;
    assert(-6 * b < g * b < 6 * b);
    assert(-6 < g < 6) by (nonlinear_arith)
        requires
            -6 * b < g * b < 6 * b,
            b > 0,
    ;
}

/// The three roundings on the way from a span to its hundredths add up to less
/// than half a hundredth and one nanosecond.
proof fn lemma_three_roundings(
    total: int,
    a: int,
    b: int,
    n: int,
    m: int,
    h: int,
)
    requires
        a > 0,
        b > 2_000_000_000,
        n * 1_000_000_000 == total * a || (a > 2_000_000_000 && -1_000_000_000 <= 2 * (n
            * 1_000_000_000 - total * a) <= 1_000_000_000),
        -a <= 2 * (m * a - n * b) <= a,
        -b <= 2 * (h * b - 100 * m) <= b,
    ensures
        -5_000_000 <= h * 10_000_000 - total <= 5_000_000,
{
    let g = h * 10_000_000 - total;
    let e1 = h * b - 100 * m;
    let e2 = m * a - n * b;
    let e3 = n * 1_000_000_000 - total * a;
    assert(g * (a * b) == 10_000_000 * (a * e1) + 1_000_000_000 * e2 + b * e3) by (nonlinear_arith)
        requires
            g == h * 10_000_000 - total,
            e1 == h * b - 100 * m,
            e2 == m * a - n * b,
            e3 == n * 1_000_000_000 - total * a,
    ;
    assert(-(a * b) <= 2 * (a * e1) <= a * b) by (nonlinear_arith)
        requires
            -b <= 2 * e1 <= b,
            a > 0,
    ;
    assert(4 * (500_000_000 * a) < a * b) by (nonlinear_arith)
        requires
            b > 2_000_000_000,
            a > 0,
    ;
    assert(-(a * b) <= 4 * (b * e3) <= a * b) by (nonlinear_arith)
        requires
            a > 0,
            b > 0,
            e3 == 0 || (a > 2_000_000_000 && -1_000_000_000 <= 2 * e3 <= 1_000_000_000),
    ;
    assert(-5_000_001 * (a * b) < g * (a * b) < 5_000_001 * (a * b));
    assert(-5_000_001 < g < 5_000_001) by (nonlinear_arith)
        requires
            -5_000_001 * (a * b) < g * (a * b) < 5_000_001 * (a * b),
            a > 0,
            b > 0,
    ;
}

/// A span between a second and a minute reads as the seconds to the nearest
/// hundredth: the shown number of nanoseconds is within five million of the
/// span's.
pub proof fn seconds_shown_to_nearest_hundredth(d: Duration)
    requires
        d.wf(),
        1 <= d.secs < 60,
    ensures
        -5_000_000 <= 10_000_000 * hundredths(secs_binary64(d)) - d.total_nanos() <= 5_000_000,
{
    let q = binary64(d.nanos as nat, NANOS_PER_SEC as nat);
    let x = secs_binary64(d);
    let a = pow2(q.k);
    let n = d.secs as nat * a + q.m;
    let b = pow2(x.k);
    lemma2_to64();
    lemma2_to64_rest();
    lemma_pow2_pos(q.k);
    lemma_pow2_pos(x.k);
    assert(d.secs * a >= a && d.secs * a < 60 * a) by (nonlinear_arith)
        requires
            1 <= d.secs < 60,
            a > 0,
    ;
    if d.nanos > 0 {
        lemma_normal_shift_reaches(d.nanos as nat, NANOS_PER_SEC as nat, 0);
        lemma_round_error(d.nanos as nat * a, NANOS_PER_SEC as nat);
        assert(a > 2_000_000_000) by (nonlinear_arith)
            requires
                d.nanos * a >= 0x10_0000_0000_0000 * 1_000_000_000,
                d.nanos < 1_000_000_000,
        ;
        assert(q.m <= a) by (nonlinear_arith)
            requires
                2 * (q.m * 1_000_000_000 - d.nanos * a) <= 1_000_000_000,
                d.nanos < 1_000_000_000,
                a > 2_000_000_000,
        ;
    }
    lemma_normal_shift_reaches(n, a, 0);
    lemma_round_error(n * b, a);
    lemma_round_error(100 * x.m, b);
    assert(b > 2_000_000_000) by (nonlinear_arith)
        requires
            n * b >= 0x10_0000_0000_0000 * a,
            n <= 61 * a,
            a > 0,
    ;
    assert(n * 1_000_000_000 - d.total_nanos() * a == q.m * 1_000_000_000 - d.nanos * a)
        by (nonlinear_arith)
        requires
            n == d.secs * a + q.m,
            d.total_nanos() == d.secs * 1_000_000_000 + d.nanos,
    ;
    lemma_three_roundings(
        d.total_nanos() as int,
        a as int,
        b as int,
        n as int,
        x.m as int,
        hundredths(x) as int,
    );
}

/// A rounded quotient is a nearest whole number, and where two are equally near it is the
/// even one.
pub proof fn rounding_is_to_the_nearest(n: nat, d: nat)
    requires
        d > 0,
    ensures
        -(d as int) <= 2 * (round_half_even(n, d) * d - n) <= d,
        2 * (round_half_even(n, d) * d - n) == d || 2 * (n - round_half_even(n, d) * d) == d
            ==> round_half_even(n, d) % 2 == 0,
{
    lemma_round_error(n, d);
    lemma_fundamental_div_mod(n as int, d as int);
    let q = n / d;
    lemma_mul_is_commutative(q as int, d as int);
    assert((q + 1) * d == q * d + d) by (nonlinear_arith);
}

/// No smaller shift than the one that `normal_shift` finds reaches its target.
proof fn lemma_normal_shift_least(n: nat, d: nat, k: nat, l: nat)
    requires
        n > 0,
        k <= l < normal_shift(n, d, k),
    ensures
        n * pow2(l) < pow2(52) * d,
    decreases 2 * (pow2(52) * d) - n * pow2(k),
{
    if n * pow2(k) < pow2(52) * d {
        lemma_pow2_pos(k);
        lemma_mul_strictly_positive(n as int, pow2(k) as int);
        lemma_pow2_unfold(k + 1);
        assert(n * (2 * pow2(k)) == 2 * (n * pow2(k))) by (nonlinear_arith);
        if k < l {
            lemma_normal_shift_least(n, d, k + 1, l);
        }
    }
}

/// The double that stands for a quotient is a nearest one with that many bits: it has at
/// least 53 of them, where the quotient has a fraction no more, and the last one is even
/// where two are equally near. Zero stands for itself.
pub proof fn doubles_are_the_nearest(n: nat, d: nat)
    requires
        d > 0,
    ensures
        ({
            let x = binary64(n, d);
            let p = pow2(x.k) as int;
            &&& n == 0 ==> x.m == 0
            &&& n > 0 ==> {
                &&& n * p >= 0x10_0000_0000_0000 * d
                &&& x.k > 0 ==> n * pow2((x.k - 1) as nat) < 0x10_0000_0000_0000 * d
                &&& -(d as int) <= 2 * (x.m * d - n * p) <= d
                &&& 2 * (x.m * d - n * p) == d || 2 * (n * p - x.m * d) == d ==> x.m % 2 == 0
            }
        }),
{
    lemma2_to64_rest();
    if n > 0 {
        let k = normal_shift(n, d, 0);
        lemma_normal_shift_reaches(n, d, 0);
        rounding_is_to_the_nearest(n * pow2(k), d);
        if k > 0 {
            lemma_normal_shift_least(n, d, 0, (k - 1) as nat);
        }
    }
}

/// How a span reads: in whole microseconds below a millisecond, with two decimals in
/// milliseconds below a second and in seconds below a minute, within half a hundredth of
/// the span; then in whole minutes with the seconds that they leave, and from an hour on
/// in whole hours with the minutes that they leave.
pub proof fn spans_read_in_their_units(d: Duration)
    requires
        d.wf(),
    ensures
        ({
            let ns = d.secs as nat * 1_000_000_000 + d.nanos as nat;
            let ms = hundredths(binary64(ns / 1_000, 1_000));
            let s = hundredths(secs_binary64(d));
            &&& ns < 1_000_000 ==> human_duration(d) == text::decimal(ns / 1_000) + seq!['µ', 's']
            &&& 1_000_000 <= ns < 1_000_000_000 ==> {
                &&& human_duration(d) == two_decimals(ms) + seq!['m', 's']
                &&& -5 <= 10 * ms - ns / 1_000 <= 5
            }
            &&& 1_000_000_000 <= ns < 60_000_000_000 ==> {
                &&& human_duration(d) == two_decimals(s) + seq!['s']
                &&& -5_000_000 <= 10_000_000 * s - ns <= 5_000_000
            }
            &&& 60_000_000_000 <= ns < 3_600_000_000_000 ==> human_duration(d) == text::decimal(
                ns / 60_000_000_000,
            ) + seq!['m', ' '] + text::decimal(ns % 60_000_000_000 / 1_000_000_000) + seq!['s']
            &&& 3_600_000_000_000 <= ns ==> human_duration(d) == text::decimal(
                ns / 3_600_000_000_000,
            ) + seq!['h', ' '] + text::decimal(ns % 3_600_000_000_000 / 60_000_000_000) + seq!['m']
        }),
{
    let secs = d.secs as int;
    let ns = secs * 1_000_000_000 + d.nanos;
    assert(ns / 1_000 == d.micros()) by {
        lemma_fundamental_div_mod(d.nanos as int, 1_000);
    }
    if 1_000_000 <= ns < 1_000_000_000 {
        millis_shown_to_nearest_hundredth(d.micros());
    }
    if 1_000_000_000 <= ns < 60_000_000_000 {
        seconds_shown_to_nearest_hundredth(d);
    }
    assert(ns / 60_000_000_000 == secs / 60 && ns % 60_000_000_000 / 1_000_000_000 == secs % 60) by {
        lemma_fundamental_div_mod(secs, 60);
    }
    assert(ns / 3_600_000_000_000 == secs / 3_600 && ns % 3_600_000_000_000 / 60_000_000_000 == secs
        % 3_600 / 60) by {
        lemma_fundamental_div_mod(secs, 3_600);
        lemma_fundamental_div_mod(secs % 3_600, 60);
    }
}

/// Seconds with a fraction are one double: the nearest one to the whole seconds and the
/// double that stands for the fraction. Below a second and above, hundredths are the
/// nearest ones to the double.
pub proof fn seconds_are_one_double(d: Duration, x: Dyadic)
    ensures
        ({
            let q = binary64(d.nanos as nat, 1_000_000_000);
            let n = d.secs as nat * pow2(q.k) + q.m;
            secs_binary64(d) == binary64(n, pow2(q.k))
        }),
        -(pow2(x.k) as int) <= 2 * (hundredths(x) * pow2(x.k) - 100 * x.m) <= pow2(x.k),
        2 * (hundredths(x) * pow2(x.k) - 100 * x.m) == pow2(x.k) || 2 * (100 * x.m - hundredths(x)
            * pow2(x.k)) == pow2(x.k) ==> hundredths(x) % 2 == 0,
{
    lemma_pow2_pos(x.k);
    rounding_is_to_the_nearest(100 * x.m, pow2(x.k));
}

/// A number with two decimals: the digits before the point, the point, and two digits.
pub proof fn hundredths_have_two_decimals(h: nat)
    ensures
        ({
            let t = two_decimals(h);
            let n = t.len();
            &&& n >= 4
            &&& t.take(n - 3) == text::decimal(h / 100)
            &&& t[n - 3] == '.'
            &&& t[n - 2] as int == 0x30 + h / 10 % 10
            &&& t[n - 1] as int == 0x30 + h % 10
        }),
{
    text::decimal_reads_back(h / 100);
    let t = two_decimals(h);
    assert(t.take(t.len() - 3) =~= text::decimal(h / 100));
}

} // verus!
