//! Which texel an invocation lights, and which samples it takes.

use vstd::arithmetic::div_mod::*;
use vstd::arithmetic::mul::*;
use vstd::prelude::*;

verus! {

/// How many ambient directions are tried for each sample of a texel.
pub const AMBIENT_SAMPLES: u32 = 16;

/// How many samples are taken of each texel.
pub const SAMPLES_PER_LUXEL: u32 = 16;

/// The bit of `x` at place `i`.
pub open spec fn bit(x: u32, i: u32) -> bool {
    (x >> i) & 1 == 1
}

/// The bits of `bits` in reverse order: the numerator of the radical inverse in
/// base two, over `2^32`.
pub fn radical_inverse_base2(bits: u32) -> (r: u32)
    ensures
        forall|i: u32| 0 <= i < 32 ==> #[trigger] bit(r, i) == bit(bits, (31 - i) as u32),
{
    let a: u32 = (bits << 16) | (bits >> 16);
    let b: u32 = ((a & 0x5555_5555) << 1) | ((a & 0xAAAA_AAAA) >> 1);
    let c: u32 = ((b & 0x3333_3333) << 2) | ((b & 0xCCCC_CCCC) >> 2);
    let d: u32 = ((c & 0x0F0F_0F0F) << 4) | ((c & 0xF0F0_F0F0) >> 4);
    let e: u32 = ((d & 0x00FF_00FF) << 8) | ((d & 0xFF00_FF00) >> 8);
    assert forall|i: u32| 0 <= i < 32 implies #[trigger] bit(e, i) == bit(
        bits,
        (31 - i) as u32,
    ) by {
        let j: u32 = (31 - i) as u32;
        assert((e >> i) & 1 == (bits >> j) & 1) by (bit_vector)
            requires
                i < 32,
                j == 31 - i,
                a == (bits << 16) | (bits >> 16),
                b == ((a & 0x5555_5555) << 1) | ((a & 0xAAAA_AAAA) >> 1),
                c == ((b & 0x3333_3333) << 2) | ((b & 0xCCCC_CCCC) >> 2),
                d == ((c & 0x0F0F_0F0F) << 4) | ((c & 0xF0F0_F0F0) >> 4),
                e == ((d & 0x00FF_00FF) << 8) | ((d & 0xFF00_FF00) >> 8),
        ;
    }
    e
}

/// Reversing the bits twice gives them back: different samples have different
/// radical inverses.
pub proof fn bit_reversal_is_one_to_one(x: u32, y: u32, r: u32)
    requires
        forall|i: u32| 0 <= i < 32 ==> #[trigger] bit(r, i) == bit(x, (31 - i) as u32),
        forall|i: u32| 0 <= i < 32 ==> #[trigger] bit(r, i) == bit(y, (31 - i) as u32),
    ensures
        x == y,
{
    assert forall|i: u32| 0 <= i < 32 implies bit(x, i) == bit(y, i) by {
        let j: u32 = (31 - i) as u32;
        assert(bit(r, j) == bit(x, (31 - j) as u32));
        assert(bit(r, j) == bit(y, (31 - j) as u32));
    }
    lemma_same_bits(x, y);
}

/// Numbers with the same bits are equal.
proof fn lemma_same_bits(x: u32, y: u32)
    requires
        forall|i: u32| 0 <= i < 32 ==> bit(x, i) == bit(y, i),
    ensures
        x == y,
    decreases x + y,
{
    if x != 0 || y != 0 {
        let p: u32 = x >> 1;
        let q: u32 = y >> 1;
        assert forall|i: u32| 0 <= i < 32 implies bit(p, i) == bit(q, i) by {
            let j: u32 = (i + 1) as u32;
            if i < 31 {
                assert(bit(x, j) == bit(y, j));
            }
            assert((i < 31 ==> (p >> i) & 1 == (x >> j) & 1 && (q >> i) & 1 == (y >> j) & 1) && (i
                == 31 ==> (p >> i) & 1 == (q >> i) & 1)) by (bit_vector)
                requires
                    p == x >> 1,
                    q == y >> 1,
                    j == i + 1,
                    i < 32,
            ;
        }
        assert(p + q < x + y) by (bit_vector)
            requires
                p == x >> 1,
                q == y >> 1,
                x != 0 || y != 0,
        ;
        lemma_same_bits(p, q);
        assert(bit(x, 0) == bit(y, 0));
        assert(x == y) by (bit_vector)
            requires
                x >> 1 == y >> 1,
                ((x >> 0u32) & 1 == 1) == ((y >> 0u32) & 1 == 1),
        ;
    }
}

/// How the invocations of a lighting pass are laid out: in groups of
/// `workgroup_size`, with at most `x_groups` groups in a row.
#[derive(Debug, Clone, Copy, PartialEq, Eq, Structural)]
pub struct ComputeLayout {
    pub workgroup_size: u32,
    pub x_groups: u32,
}

/// `n / d`, rounded up.
pub open spec fn div_up(n: int, d: int) -> int {
    (n + d - 1) / d
}

impl ComputeLayout {
    pub open spec fn wf(self) -> bool {
        &&& self.workgroup_size > 0
        &&& self.x_groups > 0
        &&& self.workgroup_size * self.x_groups <= u32::MAX
    }

    /// How many invocations a full row has.
    pub open spec fn stride(self) -> int {
        self.workgroup_size * self.x_groups
    }

    /// The texel that the invocation at `(x, y)` lights.
    pub open spec fn index(self, x: int, y: int) -> int {
        y * self.stride() + x
    }

    /// The groups in a row.
    pub open spec fn groups_x(self, count: int) -> int {
        let needed = div_up(count, self.workgroup_size as int);
        if needed < self.x_groups {
            needed
        } else {
            self.x_groups as int
        }
    }

    /// The rows.
    pub open spec fn groups_y(self, count: int) -> int {
        div_up(count, self.stride())
    }

    /// The invocation at `(x, y)` runs in a pass over `count` texels.
    pub open spec fn runs(self, count: int, x: int, y: int) -> bool {
        &&& 0 <= x < self.groups_x(count) * self.workgroup_size
        &&& 0 <= y < self.groups_y(count)
    }

    /// The texel that the invocation at `(x, y)` lights.
    pub fn texel_index(&self, x: u32, y: u32) -> (r: usize)
        requires
            self.wf(),
            self.index(x as int, y as int) <= u32::MAX,
        ensures
            r == self.index(x as int, y as int),
    {
        let stride: u32 = self.workgroup_size * self.x_groups;
        proof {
            lemma_mul_nonnegative(y as int, stride as int);
        }
        (y * stride + x) as usize
    }

    /// The texel that the invocation at `(x, y)` lights, where there is one.
    pub fn lit_texel(&self, x: u32, y: u32, texel_count: usize) -> (r: Option<usize>)
        requires
            self.wf(),
            self.index(x as int, y as int) <= u32::MAX,
        ensures
            r == if self.index(x as int, y as int) < texel_count {
                Some(self.index(x as int, y as int) as usize)
            } else {
                None
            },
    {
        let idx: usize = self.texel_index(x, y);
        if idx >= texel_count {
            None
        } else {
            Some(idx)
        }
    }

    /// The groups that light `texel_count` texels: how many in a row, and how
    /// many rows. Counts are taken modulo `2^32`.
    pub fn dispatch_groups(&self, texel_count: usize) -> (r: (u32, u32))
        requires
            self.wf(),
        ensures
            r.0 == self.groups_x(texel_count as int % 0x1_0000_0000),
            r.1 == self.groups_y(texel_count as int % 0x1_0000_0000),
    {
        let count: u32 = (texel_count as u64 % 0x1_0000_0000) as u32;
        let stride: u32 = self.workgroup_size * self.x_groups;
        let needed: u32 = quotient_up(count, self.workgroup_size);
        let x: u32 = if needed < self.x_groups {
            needed
        } else {
            self.x_groups
        };
        proof {
            lemma_mul_strictly_positive(self.workgroup_size as int, self.x_groups as int);
        }
        (x, quotient_up(count, stride))
    }
}

/// `n / d`, rounded up.
fn quotient_up(n: u32, d: u32) -> (r: u32)
    requires
        d > 0,
    ensures
        r == div_up(n as int, d as int),
{
    let q: u32 = n / d;
    proof {
        let (a, b) = (n as int, d as int);
        lemma_fundamental_div_mod(a, b);
        if a % b == 0 {
            lemma_fundamental_div_mod_converse(a + b - 1, b, a / b, b - 1);
        } else {
            assert(b * (a / b + 1) == b * (a / b) + b) by (nonlinear_arith);
            lemma_fundamental_div_mod_converse(a + b - 1, b, a / b + 1, a % b - 1);
            assert(a / b <= a / 2) by {
                if b == 1 {
                    assert(a % 1 == 0);
                } else {
                    lemma_div_is_ordered_by_denominator(a, 2, b);
                }
            }
        }
    }
    if n % d == 0 {
        q
    } else {
        q + 1
    }
}

/// Every texel is lit by exactly one invocation of a pass: one invocation that
/// runs has its index, and no other.
pub proof fn each_texel_lit_once(layout: ComputeLayout, count: int, i: int)
    requires
        layout.wf(),
        0 <= i < count <= u32::MAX,
    ensures
        layout.runs(count, i % layout.stride(), i / layout.stride()),
        layout.index(i % layout.stride(), i / layout.stride()) == i,
        forall|x: int, y: int|
            layout.runs(count, x, y) && #[trigger] layout.index(x, y) == i ==> x == i
                % layout.stride() && y == i / layout.stride(),
{
    let w = layout.workgroup_size as int;
    let g = layout.x_groups as int;
    let s = layout.stride();
    assert(s > 0) by (nonlinear_arith)
        requires
            w > 0,
            g > 0,
            s == w * g,
    ;
    let x = i % s;
    let y = i / s;
    lemma_fundamental_div_mod(i, s);
    lemma_mul_is_commutative(s, y);
    lemma_mod_bound(i, s);
    lemma_div_pos_is_pos(i, s);
    lemma_div_up(count, s);
    lemma_div_up(count, w);
    let gx = layout.groups_x(count);
    assert(x < gx * w) by {
        if gx == g {
            lemma_mul_is_commutative(g, w);
        } else {
            assert(x <= i) by {
                lemma_mul_nonnegative(y, s);
            }
        }
    }
    assert(y < layout.groups_y(count)) by {
        let gy = layout.groups_y(count);
        if gy <= y {
            lemma_mul_inequality(gy, y, s);
        }
    }
    assert forall|x2: int, y2: int|
        layout.runs(count, x2, y2) && #[trigger] layout.index(x2, y2) == i implies x2 == x && y2
        == y by {
        assert(x2 < s) by {
            lemma_mul_inequality(gx, g, w);
            lemma_mul_is_commutative(g, w);
        }
        lemma_mul_is_commutative(s, y2);
        lemma_fundamental_div_mod_converse(i, s, y2, x2);
    }
}

/// No invocation of a pass has an index beyond 32 bits, where a row more than the
/// texels has not.
pub proof fn invocations_can_be_numbered(layout: ComputeLayout, count: int, x: int, y: int)
    requires
        layout.wf(),
        0 <= count,
        count + layout.stride() <= 0x1_0000_0000,
        layout.runs(count, x, y),
    ensures
        0 <= layout.index(x, y) <= u32::MAX,
{
    let w = layout.workgroup_size as int;
    let g = layout.x_groups as int;
    let s = layout.stride();
    let gx = layout.groups_x(count);
    let gy = layout.groups_y(count);
    lemma_mul_strictly_positive(w, g);
    assert(x < s) by {
        lemma_mul_inequality(gx, g, w);
        lemma_mul_is_commutative(g, w);
    }
    let m = count + s - 1;
    lemma_fundamental_div_mod(m, s);
    lemma_mod_bound(m, s);
    lemma_mul_is_commutative(s, gy);
    lemma_mul_inequality(y, gy - 1, s);
    lemma_mul_is_distributive_sub_other_way(s, gy, 1);
    lemma_mul_nonnegative(y, s);
}

/// A quotient that is rounded up covers the dividend.
proof fn lemma_div_up(n: int, d: int)
    requires
        n > 0,
        d > 0,
    ensures
        n <= div_up(n, d) * d,
        div_up(n, d) > 0,
{
    let m = n + d - 1;
    lemma_fundamental_div_mod(m, d);
    lemma_mod_bound(m, d);
    lemma_mul_is_commutative(d, m / d);
    if m / d <= 0 {
        lemma_mul_inequality(m / d, 0, d);
    }
}

/// Which of `AMBIENT_SAMPLES * samples_per_luxel` directions is tried as the
/// `a`-th one of a sample, and how many there are.
pub fn ambient_direction(a: u32, sample_index: u32, samples_per_luxel: u32) -> (r: (u32, u32))
    requires
        a * samples_per_luxel + sample_index <= u32::MAX,
        samples_per_luxel * AMBIENT_SAMPLES <= u32::MAX,
    ensures
        r.0 == a * samples_per_luxel + sample_index,
        r.1 == samples_per_luxel * AMBIENT_SAMPLES,
{
    proof {
        lemma_mul_nonnegative(a as int, samples_per_luxel as int);
    }
    (a * samples_per_luxel + sample_index, samples_per_luxel * AMBIENT_SAMPLES)
}

/// The samples of a texel share out the ambient directions: every direction is
/// tried for exactly one sample, once.
pub proof fn ambient_directions_shared_out(d: int, samples: int)
    requires
        samples > 0,
        0 <= d < samples * AMBIENT_SAMPLES,
    ensures
        0 <= d / samples < AMBIENT_SAMPLES,
        0 <= d % samples < samples,
        (d / samples) * samples + d % samples == d,
        forall|a: int, s: int|
            0 <= a < AMBIENT_SAMPLES && 0 <= s < samples && #[trigger] (a * samples + s) == d ==> a
                == d / samples && s == d % samples,
{
    lemma_fundamental_div_mod(d, samples);
    lemma_mul_is_commutative(samples, d / samples);
    lemma_mod_bound(d, samples);
    lemma_div_pos_is_pos(d, samples);
    lemma_multiply_divide_lt(d, samples, AMBIENT_SAMPLES as int);
    assert forall|a: int, s: int|
        0 <= a < AMBIENT_SAMPLES && 0 <= s < samples && #[trigger] (a * samples + s)
            == d implies a == d / samples && s == d % samples by {
        lemma_mul_is_commutative(samples, a);
        lemma_fundamental_div_mod_converse(d, samples, a, s);
    }
}

/// A pass has no groups to spare: with one row less, or with one group less in a row, some
/// texel would not be lit. Rows are not longer than they may be, and without
/// texels there are no groups.
pub proof fn no_groups_to_spare(layout: ComputeLayout, count: int)
    requires
        layout.wf(),
        0 <= count,
    ensures
        count == 0 ==> layout.groups_x(count) == 0 && layout.groups_y(count) == 0,
        count > 0 ==> (layout.groups_y(count) - 1) * (layout.workgroup_size * layout.x_groups) < count,
        0 <= layout.groups_x(count) <= layout.x_groups,
        count > 0 ==> (layout.groups_x(count) - 1) * layout.workgroup_size < count,
        layout.groups_x(count) < layout.x_groups ==> count <= layout.groups_x(count)
            * layout.workgroup_size,
        count <= layout.groups_y(count) * (layout.workgroup_size * layout.x_groups),
{
    let w = layout.workgroup_size as int;
    let s = layout.stride();
    lemma_mul_strictly_positive(w, layout.x_groups as int);
    lemma_div_pos_is_pos(count + w - 1, w);
    if count > 0 {
        lemma_div_up(count, w);
        lemma_div_up(count, s);
        lemma_not_too_many(count, w);
        lemma_not_too_many(count, s);
        lemma_mul_inequality(layout.groups_x(count) - 1, div_up(count, w) - 1, w);
    } else {
        lemma_basic_div(w - 1, w);
        lemma_basic_div(s - 1, s);
    }
}

/// One less than a quotient that is rounded up does not cover the dividend.
proof fn lemma_not_too_many(n: int, d: int)
    requires
        n > 0,
        d > 0,
    ensures
        (div_up(n, d) - 1) * d < n,
{
    let m = n + d - 1;
    lemma_fundamental_div_mod(m, d);
    lemma_mod_bound(m, d);
    lemma_mul_is_commutative(d, m / d);
    lemma_mul_is_distributive_sub_other_way(d, m / d, 1);
}

/// Neighbours in a row light neighbouring texels, and a row starts where a full one
/// before it ends.
pub proof fn invocations_follow_one_another(layout: ComputeLayout, x: int, y: int)
    ensures
        layout.index(0, 0) == 0,
        layout.index(x + 1, y) == layout.index(x, y) + 1,
        layout.index(x, y + 1) == layout.index(x, y) + layout.workgroup_size * layout.x_groups,
{
    lemma_mul_is_distributive_add_other_way(layout.stride(), y, 1);
}

} // verus!
