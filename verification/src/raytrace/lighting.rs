//! Lighting the texels: two passes on the device, and the way back to the host.

use vstd::prelude::*;

use crate::raytrace::acceleration::Application;
use crate::raytrace::steps;
use crate::raytrace::steps::{Barrier, Pass, Resource, Step};
use crate::raytrace::steps::{
    ALL_TRANSFER, COMPUTE_SHADER, HOST, HOST_READ, SHADER_READ, SHADER_WRITE, TRANSFER_READ,
    TRANSFER_WRITE,
};
use crate::raytrace::timestamps::{TimestampSlot, TIMESTAMP_COUNT};
use crate::sampling::ComputeLayout;

verus! {

/// The second pass waits for what the first one writes.
pub open spec fn pass_barrier() -> Barrier {
    Barrier {
        src_stage: COMPUTE_SHADER,
        src_access: SHADER_WRITE,
        dst_stage: COMPUTE_SHADER,
        dst_access: SHADER_READ | SHADER_WRITE,
        buffer: Some(Resource::Output),
    }
}

/// The copy to the host waits for what the passes write.
pub open spec fn transfer_barrier() -> Barrier {
    Barrier {
        src_stage: COMPUTE_SHADER,
        src_access: SHADER_WRITE,
        dst_stage: ALL_TRANSFER,
        dst_access: TRANSFER_READ,
        buffer: Some(Resource::Output),
    }
}

/// The host waits for the copy.
pub open spec fn host_barrier() -> Barrier {
    Barrier {
        src_stage: ALL_TRANSFER,
        src_access: TRANSFER_WRITE,
        dst_stage: HOST,
        dst_access: HOST_READ,
        buffer: Some(Resource::Readback),
    }
}

/// The steps of a pass: the time is taken before and after it.
pub open spec fn pass_steps(
    pass: Pass,
    begin: TimestampSlot,
    end: TimestampSlot,
    x: u32,
    y: u32,
) -> Seq<Step> {
    seq![
        Step::BindPipeline(pass),
        Step::WriteTimestamp { slot: begin, stage: COMPUTE_SHADER },
        Step::Dispatch { x, y, z: 1 },
        Step::WriteTimestamp { slot: end, stage: COMPUTE_SHADER },
    ]
}

/// The steps that light the texels in groups of the given numbers, and copy `size`
/// bytes of the result.
pub open spec fn lighting_steps(x: u32, y: u32, size: u64) -> Seq<Step> {
    seq![
        Step::ResetTimestamps { first: 0, count: TIMESTAMP_COUNT },
        Step::BindDescriptorSet,
    ] + pass_steps(Pass::Sky, TimestampSlot::SkyBegin, TimestampSlot::SkyEnd, x, y) + seq![
        Step::Barrier(pass_barrier()),
    ] + pass_steps(Pass::World, TimestampSlot::WorldBegin, TimestampSlot::WorldEnd, x, y) + seq![
        Step::Barrier(transfer_barrier()),
        Step::Copy { from: Resource::Output, to: Resource::Readback, size },
        Step::Barrier(host_barrier()),
        Step::End,
        Step::Submit,
        Step::WaitTimestamp { pass: Pass::Sky, slot: TimestampSlot::SkyEnd },
        Step::RecordElapsed {
            pass: Pass::Sky,
            begin: TimestampSlot::SkyBegin,
            end: TimestampSlot::SkyEnd,
        },
        Step::WaitTimestamp { pass: Pass::World, slot: TimestampSlot::WorldEnd },
        Step::RecordElapsed {
            pass: Pass::World,
            begin: TimestampSlot::WorldBegin,
            end: TimestampSlot::WorldEnd,
        },
        Step::WaitIdle,
    ]
}

impl Application {
    /// Appends the steps of a pass.
    fn push_pass(
        steps: &mut Vec<Step>,
        pass: Pass,
        begin: TimestampSlot,
        end: TimestampSlot,
        groups: (u32, u32),
    )
        ensures
            final(steps)@ == old(steps)@ + pass_steps(pass, begin, end, groups.0, groups.1),
    {
        steps.push(Step::BindPipeline(pass));
        steps.push(Step::WriteTimestamp { slot: begin, stage: COMPUTE_SHADER });
        steps.push(Step::Dispatch { x: groups.0, y: groups.1, z: 1 });
        steps.push(Step::WriteTimestamp { slot: end, stage: COMPUTE_SHADER });
        assert(steps@ =~= old(steps)@ + pass_steps(pass, begin, end, groups.0, groups.1));
    }

    /// The steps that light `texel_count` texels: the sky first, then the lights of
    /// the world on top of it, and then the way back to the host, as far as the
    /// buffer there reaches.
    pub fn dispatch_lighting(
        &self,
        layout: &ComputeLayout,
        texel_count: usize,
        readback_size: u64,
    ) -> (r: Vec<Step>)
        requires
            layout.wf(),
        ensures
            r@ == lighting_steps(
                layout.groups_x(texel_count as int % 0x1_0000_0000) as u32,
                layout.groups_y(texel_count as int % 0x1_0000_0000) as u32,
                readback_size,
            ),
    {
        let groups: (u32, u32) = layout.dispatch_groups(texel_count);
        let mut steps: Vec<Step> = Vec::new();
        steps.push(Step::ResetTimestamps { first: 0, count: TIMESTAMP_COUNT });
        steps.push(Step::BindDescriptorSet);
        Self::push_pass(
            &mut steps,
            Pass::Sky,
            TimestampSlot::SkyBegin,
            TimestampSlot::SkyEnd,
            groups,
        );
        steps.push(
            Step::Barrier(
                Barrier {
                    src_stage: COMPUTE_SHADER,
                    src_access: SHADER_WRITE,
                    dst_stage: COMPUTE_SHADER,
                    dst_access: SHADER_READ | SHADER_WRITE,
                    buffer: Some(Resource::Output),
                },
            ),
        );
        Self::push_pass(
            &mut steps,
            Pass::World,
            TimestampSlot::WorldBegin,
            TimestampSlot::WorldEnd,
            groups,
        );
        steps.push(
            Step::Barrier(
                Barrier {
                    src_stage: COMPUTE_SHADER,
                    src_access: SHADER_WRITE,
                    dst_stage: ALL_TRANSFER,
                    dst_access: TRANSFER_READ,
                    buffer: Some(Resource::Output),
                },
            ),
        );
        steps.push(
            Step::Copy { from: Resource::Output, to: Resource::Readback, size: readback_size },
        );
        steps.push(
            Step::Barrier(
                Barrier {
                    src_stage: ALL_TRANSFER,
                    src_access: TRANSFER_WRITE,
                    dst_stage: HOST,
                    dst_access: HOST_READ,
                    buffer: Some(Resource::Readback),
                },
            ),
        );
        steps.push(Step::End);
        steps.push(Step::Submit);
        steps.push(Step::WaitTimestamp { pass: Pass::Sky, slot: TimestampSlot::SkyEnd });
        steps.push(
            Step::RecordElapsed {
                pass: Pass::Sky,
                begin: TimestampSlot::SkyBegin,
                end: TimestampSlot::SkyEnd,
            },
        );
        steps.push(Step::WaitTimestamp { pass: Pass::World, slot: TimestampSlot::WorldEnd });
        steps.push(
            Step::RecordElapsed {
                pass: Pass::World,
                begin: TimestampSlot::WorldBegin,
                end: TimestampSlot::WorldEnd,
            },
        );
        steps.push(Step::WaitIdle);
        assert(steps@ =~= lighting_steps(groups.0, groups.1, readback_size));
        steps
    }
}

/// The flags of the barriers between the passes and the host.
pub proof fn lemma_pass_flags()
    ensures
        forall|x: u64| #[trigger] steps::has(x, x),
        steps::has(SHADER_READ | SHADER_WRITE, SHADER_READ),
        steps::has(SHADER_READ | SHADER_WRITE, SHADER_WRITE),
{
    assert forall|x: u64| #[trigger] steps::has(x, x) by {
        assert(x & x == x) by (bit_vector);
    }
    assert((0x20u64 | 0x40u64) & 0x20u64 == 0x20u64 && (0x20u64 | 0x40u64) & 0x40u64 == 0x40u64)
        by (bit_vector);
}

/// The time is taken once for each moment, after the old times are cleared and
/// before they are waited for; a pass lies between its two moments.
pub proof fn passes_are_timed(x: u32, y: u32, size: u64, slot: TimestampSlot)
    ensures
        ({
            let all = lighting_steps(x, y, size);
            let at = match slot {
                TimestampSlot::SkyBegin => 3int,
                TimestampSlot::SkyEnd => 5,
                TimestampSlot::WorldBegin => 8,
                TimestampSlot::WorldEnd => 10,
            };
            &&& forall|i: int|
                0 <= i < all.len() ==> ((#[trigger] all[i]) == (Step::WriteTimestamp {
                    slot,
                    stage: COMPUTE_SHADER,
                }) <==> i == at)
            &&& forall|i: int|
                0 <= i < all.len() && (#[trigger] all[i]) is ResetTimestamps ==> i < at
            &&& forall|i: int|
                0 <= i < all.len() && (#[trigger] all[i]) is WaitTimestamp ==> at < i
            &&& forall|i: int|
                0 <= i < all.len() && (#[trigger] all[i]) is Dispatch ==> i == 4 || i == 9
            &&& all[2] == Step::BindPipeline(Pass::Sky)
            &&& all[7] == Step::BindPipeline(Pass::World)
        }),
{
}

/// Every pass is started with groups enough for all texels: the invocation that lights the
/// texel `i` is among those that run.
pub proof fn passes_light_every_texel(
    layout: ComputeLayout,
    texel_count: int,
    size: u64,
    i: int,
    step: int,
)
    requires
        layout.wf(),
        0 <= i < texel_count <= u32::MAX,
    ensures
        ({
            let all = lighting_steps(
                layout.groups_x(texel_count) as u32,
                layout.groups_y(texel_count) as u32,
                size,
            );
            let row = layout.workgroup_size * layout.x_groups;
            0 <= step < all.len() ==> (all[step] matches Step::Dispatch { x, y, z } ==> {
                &&& z == 1
                &&& i % row < x * layout.workgroup_size
                &&& i / row < y
                &&& (i / row) * row + i % row == i
            })
        }),
{
    let (gx, gy) = (layout.groups_x(texel_count), layout.groups_y(texel_count));
    crate::sampling::each_texel_lit_once(layout, texel_count, i);
    crate::sampling::no_groups_to_spare(layout, texel_count);
    let s = layout.stride();
    vstd::arithmetic::mul::lemma_mul_strictly_positive(
        layout.workgroup_size as int,
        layout.x_groups as int,
    );
    assert(gy <= texel_count) by (nonlinear_arith)
        requires
            (gy - 1) * s < texel_count,
            s > 0,
            texel_count > 0,
    ;
}

/// The light of the sky comes first, and that of the world is added to it: each pass has
/// its own shader bound when it is started, both reach their resources, and after both
/// the colours are copied back and the commands are handed over, waited for and timed;
/// the time of a pass is that between its own two moments.
pub proof fn passes_take_their_turns(x: u32, y: u32, size: u64)
    ensures
        ({
            let all = lighting_steps(x, y, size);
            &&& forall|i: int|
                0 <= i < all.len() && (#[trigger] all[i]) is Dispatch ==> {
                    &&& all[i] == Step::Dispatch { x, y, z: 1 }
                    &&& exists|j: int|
                        {
                            &&& 0 <= j < i
                            &&& (#[trigger] all[j]) is BindPipeline
                            &&& forall|l: int|
                                j < l < i ==> !((#[trigger] all[l]) is BindPipeline)
                        }
                    &&& exists|j: int| 0 <= j < i && #[trigger] all[j] == Step::BindDescriptorSet
                }
            &&& count_of(all, Step::BindPipeline(Pass::Sky)) == 1
            &&& count_of(all, Step::BindPipeline(Pass::World)) == 1
            &&& forall|i: int, j: int|
                0 <= i < all.len() && 0 <= j < all.len() && #[trigger] all[i] == Step::BindPipeline(
                    Pass::Sky,
                ) && #[trigger] all[j] == Step::BindPipeline(Pass::World) ==> i + 1 < j
            &&& forall|i: int|
                0 <= i < all.len() ==> (#[trigger] all[i] matches Step::Copy { from, to, size: n }
                    ==> {
                    &&& from == Resource::Output && to == Resource::Readback && n == size
                    &&& forall|j: int| 0 <= j < all.len() && (#[trigger] all[j]) is Dispatch ==> j < i
                    &&& forall|j: int| 0 <= j < all.len() && (#[trigger] all[j]) is End ==> i < j
                })
            &&& exists|i: int| 0 <= i < all.len() && (#[trigger] all[i]) is Copy
            &&& forall|i: int|
                0 <= i < all.len() ==> (#[trigger] all[i] matches Step::RecordElapsed {
                    pass,
                    begin,
                    end,
                } ==> {
                    &&& pass == Pass::Sky ==> begin == TimestampSlot::SkyBegin && end
                        == TimestampSlot::SkyEnd
                    &&& pass == Pass::World ==> begin == TimestampSlot::WorldBegin && end
                        == TimestampSlot::WorldEnd
                    &&& i > 0 && all[i - 1] == Step::WaitTimestamp { pass, slot: end }
                    &&& exists|j: int| 0 <= j < i && (#[trigger] all[j]) is Submit
                })
            &&& forall|i: int, j: int|
                0 <= i < all.len() && 0 <= j < all.len() && (#[trigger] all[i]) is End && (
                #[trigger] all[j]) is Submit ==> i < j
            &&& all.last() == Step::WaitIdle
        }),
{
    let all = lighting_steps(x, y, size);
    assert(all.len() == 21);
    assert(all[1] == Step::BindDescriptorSet);
    assert(all[2] is BindPipeline && all[7] is BindPipeline);
    assert(all[12] is Copy);
    assert(all[15] is Submit);
    assert(count_of(all, Step::BindPipeline(Pass::Sky)) == 1) by {
        reveal_with_fuel(count_of, 22);
    }
    assert(count_of(all, Step::BindPipeline(Pass::World)) == 1) by {
        reveal_with_fuel(count_of, 22);
    }
}

/// How often a step is in a list.
pub open spec fn count_of(all: Seq<Step>, step: Step) -> nat
    decreases all.len(),
{
    if all.len() == 0 {
        0
    } else {
        count_of(all.drop_last(), step) + if all.last() == step {
            1nat
        } else {
            0
        }
    }
}

} // verus!
