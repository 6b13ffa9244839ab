//! How long the passes take on the device.

use vstd::arithmetic::div_mod::*;
use vstd::arithmetic::power2::*;
use vstd::bits::*;
use vstd::prelude::*;

verus! {

/// The moments that are recorded.
#[derive(Debug, Clone, Copy, PartialEq, Eq, Structural)]
pub enum TimestampSlot {
    SkyBegin,
    SkyEnd,
    WorldBegin,
    WorldEnd,
}

/// The number of moments.
pub const TIMESTAMP_COUNT: u32 = 4;

impl TimestampSlot {
    /// The place of a moment among the queries.
    pub open spec fn query_spec(self) -> u32 {
        match self {
            TimestampSlot::SkyBegin => 0,
            TimestampSlot::SkyEnd => 1,
            TimestampSlot::WorldBegin => 2,
            TimestampSlot::WorldEnd => 3,
        }
    }

    /// The place of a moment among the queries.
    pub fn query(self) -> (r: u32)
        ensures
            r == self.query_spec(),
            r < TIMESTAMP_COUNT,
    {
        match self {
            TimestampSlot::SkyBegin => 0,
            TimestampSlot::SkyEnd => 1,
            TimestampSlot::WorldBegin => 2,
            TimestampSlot::WorldEnd => 3,
        }
    }
}

/// No two moments share a query.
pub proof fn slots_are_distinct(a: TimestampSlot, b: TimestampSlot)
    ensures
        a.query_spec() == b.query_spec() ==> a == b,
        a.query_spec() < TIMESTAMP_COUNT,
{
}

/// How many values a counter of `valid_bits` bits has.
pub open spec fn counter_range(valid_bits: u32) -> int {
    if valid_bits >= 64 {
        0x1_0000_0000_0000_0000
    } else {
        pow2(valid_bits as nat) as int
    }
}

/// A counter has at least one value.
proof fn lemma_counter_range(valid_bits: u32)
    ensures
        0 < counter_range(valid_bits) <= 0x1_0000_0000_0000_0000,
        valid_bits < 64 ==> counter_range(valid_bits) <= u64::MAX,
{
    if valid_bits < 64 {
        lemma_pow2_pos(valid_bits as nat);
        lemma_pow2_strictly_increases(valid_bits as nat, 64);
        lemma2_to64();
        lemma2_to64_rest();
    }
}

/// Taking only the bits that count leaves the rest by the range of the counter.
proof fn lemma_masked(x: u64, valid_bits: u32, mask: u64)
    requires
        mask == if valid_bits >= 64 {
            u64::MAX as int
        } else {
            pow2(valid_bits as nat) - 1
        },
    ensures
        (x & mask) == x as int % counter_range(valid_bits),
{
    if valid_bits >= 64 {
        assert(x & 0xffff_ffff_ffff_ffff == x) by (bit_vector);
    } else {
        lemma_counter_range(valid_bits);
        lemma_u64_low_bits_mask_is_mod(x, valid_bits as nat);
    }
}

/// A counter of 64 bits starts over together with every smaller one.
proof fn lemma_starts_over(x: int, valid_bits: u32)
    ensures
        (x % 0x1_0000_0000_0000_0000) % counter_range(valid_bits) == x % counter_range(valid_bits),
{
    let range = counter_range(valid_bits);
    lemma_counter_range(valid_bits);
    if valid_bits < 64 {
        let rest = pow2((64 - valid_bits) as nat) as int;
        lemma_pow2_pos((64 - valid_bits) as nat);
        lemma_pow2_adds(valid_bits as nat, (64 - valid_bits) as nat);
        lemma2_to64_rest();
        lemma_mod_mod(x, range, rest);
    } else {
        lemma_mod_twice(x, range);
    }
}

/// The ticks between two readings of a counter of which `valid_bits` bits count,
/// also where it starts over in between.
pub fn elapsed_ticks(start: u64, end: u64, valid_bits: u32) -> (r: u64)
    ensures
        r == (end - start) % counter_range(valid_bits),
{
    proof {
        if valid_bits < 64 {
            lemma_counter_range(valid_bits);
            lemma_u64_shl_is_mul(1, valid_bits as u64);
        }
    }
    let mask: u64 = if valid_bits >= 64 {
        u64::MAX
    } else {
        (1u64 << valid_bits as u64) - 1
    };
    let a: u64 = start & mask;
    let b: u64 = end & mask;
    let d: u64 = b.wrapping_sub(a);
    proof {
        let range = counter_range(valid_bits);
        lemma_counter_range(valid_bits);
        lemma_masked(start, valid_bits, mask);
        lemma_masked(end, valid_bits, mask);
        lemma_masked(d, valid_bits, mask);
        assert(d == (b - a) % 0x1_0000_0000_0000_0000);
        lemma_starts_over(b - a, valid_bits);
        lemma_sub_mod_noop(end as int, start as int, range);
    }
    d & mask
}

/// A counter that reaches its end in between gives the ticks up to there and those
/// from there on.
pub proof fn ticks_across_the_end(start: u64, end: u64, valid_bits: u32)
    requires
        start < counter_range(valid_bits),
        end < counter_range(valid_bits),
    ensures
        start <= end ==> (end - start) % counter_range(valid_bits) == end - start,
        end < start ==> (end - start) % counter_range(valid_bits) == counter_range(valid_bits)
            - start + end,
{
    let range = counter_range(valid_bits);
    if start <= end {
        lemma_small_mod((end - start) as nat, range as nat);
    } else {
        lemma_mod_add_multiples_vanish(end - start, range);
        lemma_small_mod((range - start + end) as nat, range as nat);
    }
}

/// A counter of one more bit has twice as many values, up to 64 bits, where there are no
/// more; without bits it has one.
pub proof fn counters_double_with_each_bit(valid_bits: u32)
    ensures
        counter_range(0) == 1,
        valid_bits < 64 ==> counter_range((valid_bits + 1) as u32) == 2 * counter_range(valid_bits),
        valid_bits >= 64 ==> counter_range(valid_bits) == counter_range(64),
{
    lemma2_to64();
    lemma2_to64_rest();
    if valid_bits < 63 {
        lemma_pow2_unfold((valid_bits + 1) as nat);
    }
}

/// A pass begins before it ends, and the sky comes before the world: the moments are asked
/// for in the order in which they come.
pub proof fn moments_are_in_order()
    ensures
        TimestampSlot::SkyBegin.query_spec() == 0,
        TimestampSlot::SkyEnd.query_spec() == TimestampSlot::SkyBegin.query_spec() + 1,
        TimestampSlot::WorldBegin.query_spec() == TimestampSlot::SkyEnd.query_spec() + 1,
        TimestampSlot::WorldEnd.query_spec() == TimestampSlot::WorldBegin.query_spec() + 1,
        TIMESTAMP_COUNT == TimestampSlot::WorldEnd.query_spec() + 1,
{
}

} // verus!
