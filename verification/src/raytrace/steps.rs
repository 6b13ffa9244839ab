//! The steps in which a map is lit on the device, and what they read and write.

use vstd::prelude::*;

use crate::raytrace::timestamps::TimestampSlot;
use crate::vulkan::buffer;
use crate::vulkan::buffer::{Buffer, TRANSFER_DST, TRANSFER_SRC};

verus! {

/// The stage in which compute shaders run.
pub const COMPUTE_SHADER: u64 = 0x800;

/// The stage of copies.
pub const ALL_TRANSFER: u64 = 0x1000;

/// The stage in which the host reads.
pub const HOST: u64 = 0x4000;

/// The stage in which the shaders of ray tracing pipelines run.
pub const RAY_TRACING_SHADER: u64 = 0x20_0000;

/// The stage in which acceleration structures are built.
pub const ACCELERATION_STRUCTURE_BUILD: u64 = 0x200_0000;

pub const SHADER_READ: u64 = 0x20;

pub const SHADER_WRITE: u64 = 0x40;

pub const TRANSFER_READ: u64 = 0x800;

pub const TRANSFER_WRITE: u64 = 0x1000;

pub const HOST_READ: u64 = 0x2000;

pub const ACCELERATION_STRUCTURE_READ: u64 = 0x20_0000;

pub const ACCELERATION_STRUCTURE_WRITE: u64 = 0x40_0000;

/// A structure of instances.
pub const TOP_LEVEL: i32 = 0;

/// A structure of triangles.
pub const BOTTOM_LEVEL: i32 = 1;

/// Build a structure for fast tracing.
pub const PREFER_FAST_TRACE: u32 = 0x4;

/// What lies in memory of the device.
#[derive(Debug, Clone, Copy, PartialEq, Eq, Hash, Structural)]
pub enum Resource {
    VertexStaging,
    Vertices,
    SolidIndexStaging,
    SolidIndices,
    SkyIndexStaging,
    SkyIndices,
    SolidStructure,
    SolidScratch,
    SkyStructure,
    SkyScratch,
    Instances,
    TopStructure,
    TopScratch,
    TexelStaging,
    Texels,
    Output,
    Readback,
    SkyStaging,
    Sky,
    LightStaging,
    Lights,
}

impl Resource {
    /// It is needed only until the lighting is done: what is copied from, what
    /// builds work with, the triangles of the sky, and the instances.
    pub open spec fn is_temporary(self) -> bool {
        match self {
            Resource::VertexStaging
            | Resource::SolidIndexStaging
            | Resource::SkyIndexStaging
            | Resource::SkyIndices
            | Resource::SolidScratch
            | Resource::SkyScratch
            | Resource::Instances
            | Resource::TopScratch => true,
            _ => false,
        }
    }

    /// It is needed only until the lighting is done.
    pub fn temporary(self) -> (r: bool)
        ensures
            r == self.is_temporary(),
    {
        match self {
            Resource::VertexStaging
            | Resource::SolidIndexStaging
            | Resource::SkyIndexStaging
            | Resource::SkyIndices
            | Resource::SolidScratch
            | Resource::SkyScratch
            | Resource::Instances
            | Resource::TopScratch => true,
            _ => false,
        }
    }
}

/// The passes that light the texels.
#[derive(Debug, Clone, Copy, PartialEq, Eq, Hash, Structural)]
pub enum Pass {
    Sky,
    World,
}

impl Pass {
    /// The shader of the pass.
    pub open spec fn shader(self) -> Seq<char> {
        match self {
            Pass::Sky => "compute_sky"@,
            Pass::World => "compute_world"@,
        }
    }

    /// The shader of the pass.
    pub fn entry_point(self) -> (r: &'static str)
        ensures
            r@ == self.shader(),
    {
        match self {
            Pass::Sky => "compute_sky",
            Pass::World => "compute_world",
        }
    }
}

/// A barrier: what comes after it at the one stages and accesses waits for what
/// came before it at the others. It is for one resource, or for all memory.
#[derive(Debug, Clone, Copy, PartialEq, Eq, Structural)]
pub struct Barrier {
    pub src_stage: u64,
    pub src_access: u64,
    pub dst_stage: u64,
    pub dst_access: u64,
    pub buffer: Option<Resource>,
}

/// What an acceleration structure is made of.
#[derive(Debug, Clone, Copy, PartialEq, Eq, Structural)]
pub enum Geometry {
    Triangles {
        vertices: Resource,
        indices: Resource,
        max_vertex: u32,
        vertex_stride: u64,
        vertex_format: i32,
        index_type: i32,
    },
    Instances { instances: Resource },
}

/// The build of an acceleration structure.
#[derive(Debug, Clone, Copy, PartialEq, Eq, Structural)]
pub struct Build {
    pub structure: Resource,
    pub scratch: Resource,
    pub level: i32,
    pub geometry: Geometry,
    pub primitive_count: u32,
    pub flags: u32,
}

/// A step in lighting a map.
#[derive(Debug, Clone, Copy, PartialEq, Eq, Structural)]
pub enum Step {
    /// Start to record commands.
    Begin,
    Create { resource: Resource, buffer: Buffer },
    /// The host fills a resource.
    Store(Resource),
    Copy { from: Resource, to: Resource, size: u64 },
    Barrier(Barrier),
    /// Make room for a structure, and build it.
    Build(Build),
    CreatePipelines,
    CreateDescriptorSet,
    ResetTimestamps { first: u32, count: u32 },
    BindDescriptorSet,
    BindPipeline(Pass),
    WriteTimestamp { slot: TimestampSlot, stage: u64 },
    Dispatch { x: u32, y: u32, z: u32 },
    /// Stop to record commands.
    End,
    /// Have the commands run.
    Submit,
    WaitTimestamp { pass: Pass, slot: TimestampSlot },
    RecordElapsed { pass: Pass, begin: TimestampSlot, end: TimestampSlot },
    WaitIdle,
    /// Give up what is temporary.
    DropTemporaries,
    /// The host reads a resource.
    Load(Resource),
}

/// A stage of the device, and how it touches memory there.
pub struct Use {
    pub stage: u64,
    pub access: u64,
}

/// How a step reads a resource on the device.
pub open spec fn read_of(step: Step, r: Resource) -> Option<Use> {
    match step {
        Step::Copy { from, .. } => if r == from {
            Some(Use { stage: ALL_TRANSFER, access: TRANSFER_READ })
        } else {
            None
        },
        Step::Build(build) => match build.geometry {
            Geometry::Triangles { vertices, indices, .. } => if r == vertices || r == indices {
                Some(Use { stage: ACCELERATION_STRUCTURE_BUILD, access: SHADER_READ })
            } else {
                None
            },
            Geometry::Instances { instances } => if r == instances {
                Some(Use { stage: ACCELERATION_STRUCTURE_BUILD, access: SHADER_READ })
            } else if r == Resource::SolidStructure || r == Resource::SkyStructure {
                Some(
                    Use {
                        stage: ACCELERATION_STRUCTURE_BUILD,
                        access: ACCELERATION_STRUCTURE_READ,
                    },
                )
            } else {
                None
            },
        },
        Step::Dispatch { .. } => match r {
            Resource::TopStructure => Some(
                Use { stage: COMPUTE_SHADER, access: ACCELERATION_STRUCTURE_READ },
            ),
            Resource::Texels | Resource::Output | Resource::Sky | Resource::Lights => Some(
                Use { stage: COMPUTE_SHADER, access: SHADER_READ },
            ),
            _ => None,
        },
        Step::Load(from) => if r == from {
            Some(Use { stage: HOST, access: HOST_READ })
        } else {
            None
        },
        _ => None,
    }
}

/// How a step writes a resource on the device.
pub open spec fn write_of(step: Step, r: Resource) -> Option<Use> {
    match step {
        Step::Copy { to, .. } => if r == to {
            Some(Use { stage: ALL_TRANSFER, access: TRANSFER_WRITE })
        } else {
            None
        },
        Step::Build(build) => if r == build.structure || r == build.scratch {
            Some(
                Use { stage: ACCELERATION_STRUCTURE_BUILD, access: ACCELERATION_STRUCTURE_WRITE },
            )
        } else {
            None
        },
        Step::Dispatch { .. } => if r == Resource::Output {
            Some(Use { stage: COMPUTE_SHADER, access: SHADER_WRITE })
        } else {
            None
        },
        _ => None,
    }
}

/// All of `flags` are set in `set`.
pub open spec fn has(set: u64, flags: u64) -> bool {
    set & flags == flags
}

/// The barrier makes the use `second` of `r` wait for the use `first`.
pub open spec fn separates(b: Barrier, r: Resource, first: Use, second: Use) -> bool {
    &&& b.buffer is None || b.buffer == Some(r)
    &&& has(b.src_stage, first.stage)
    &&& has(b.src_access, first.access)
    &&& has(b.dst_stage, second.stage)
    &&& has(b.dst_access, second.access)
}

/// Between the steps `i` and `j`, a barrier makes the use `second` of `r` wait for
/// the use `first`.
pub open spec fn separated(
    steps: Seq<Step>,
    i: int,
    j: int,
    r: Resource,
    first: Use,
    second: Use,
) -> bool {
    exists|k: int|
        i < k < j && (#[trigger] steps[k] matches Step::Barrier(b) && separates(
            b,
            r,
            first,
            second,
        ))
}

/// Whatever a step writes on the device is there for each later step that reads or
/// writes it: a barrier stands between the two.
pub open spec fn ordered(steps: Seq<Step>) -> bool {
    forall|i: int, j: int, r: Resource|
        #![trigger write_of(steps[i], r), read_of(steps[j], r)]
        #![trigger write_of(steps[i], r), write_of(steps[j], r)]
        0 <= i < j < steps.len() && write_of(steps[i], r) is Some ==> {
            &&& read_of(steps[j], r) is Some ==> separated(
                steps,
                i,
                j,
                r,
                write_of(steps[i], r)->0,
                read_of(steps[j], r)->0,
            )
            &&& write_of(steps[j], r) is Some ==> separated(
                steps,
                i,
                j,
                r,
                write_of(steps[i], r)->0,
                write_of(steps[j], r)->0,
            )
        }
}

/// Before step `i`, the resource is created as a buffer for the given use, with
/// room for `size` bytes.
pub open spec fn ready(steps: Seq<Step>, i: int, r: Resource, usage: u32, size: u64) -> bool {
    exists|c: int|
        0 <= c < i && (#[trigger] steps[c] matches Step::Create { resource, buffer } && resource
            == r && buffer::has_flags(buffer.usage, usage) && size <= buffer.size)
}

/// Every copy is between buffers that were created before for it, and fits in
/// both.
pub open spec fn copies_fit(steps: Seq<Step>) -> bool {
    forall|i: int|
        0 <= i < steps.len() ==> (#[trigger] steps[i] matches Step::Copy { from, to, size } ==> {
            &&& ready(steps, i, from, TRANSFER_SRC, size)
            &&& ready(steps, i, to, TRANSFER_DST, size)
        })
}

/// What is ready in a list of steps is ready at the same place in a longer one.
pub proof fn lemma_ready_before(
    x: Seq<Step>,
    y: Seq<Step>,
    i: int,
    r: Resource,
    usage: u32,
    size: u64,
)
    requires
        0 <= i <= x.len(),
        ready(x, i, r, usage, size),
    ensures
        ready(x + y, i, r, usage, size),
{
    let c = choose|c: int|
        0 <= c < i && (#[trigger] x[c] matches Step::Create { resource, buffer } && resource == r
            && buffer::has_flags(buffer.usage, usage) && size <= buffer.size);
    assert((x + y)[c] == x[c]);
}

/// What is ready in a list of steps is ready behind others too, and so is what was
/// ready at their end.
pub proof fn lemma_ready_behind(
    x: Seq<Step>,
    y: Seq<Step>,
    i: int,
    r: Resource,
    usage: u32,
    size: u64,
)
    requires
        0 <= i <= y.len(),
        ready(y, i, r, usage, size) || ready(x, x.len() as int, r, usage, size),
    ensures
        ready(x + y, x.len() + i, r, usage, size),
{
    let all = x + y;
    if ready(y, i, r, usage, size) {
        let c = choose|c: int|
            0 <= c < i && (#[trigger] y[c] matches Step::Create { resource, buffer } && resource
                == r && buffer::has_flags(buffer.usage, usage) && size <= buffer.size);
        assert(all[x.len() + c] == y[c]);
    } else {
        let c = choose|c: int|
            0 <= c < x.len() && (#[trigger] x[c] matches Step::Create { resource, buffer }
                && resource == r && buffer::has_flags(buffer.usage, usage) && size
                <= buffer.size);
        assert(all[c] == x[c]);
    }
}

/// Before step `i`, the resource is filled by the host or written on the device.
pub open spec fn filled(steps: Seq<Step>, i: int, r: Resource) -> bool {
    exists|f: int|
        0 <= f < i && (#[trigger] steps[f] == Step::Store(r) || write_of(steps[f], r) is Some)
}

/// Everything that is copied was filled before.
pub open spec fn copies_have_contents(steps: Seq<Step>) -> bool {
    forall|i: int|
        0 <= i < steps.len() ==> (#[trigger] steps[i] matches Step::Copy { from, .. } ==> filled(
            steps,
            i,
            from,
        ))
}

/// The copies of two lists of steps, one behind the other, have contents.
pub proof fn lemma_contents_join(x: Seq<Step>, y: Seq<Step>)
    requires
        copies_have_contents(x),
        copies_have_contents(y),
    ensures
        copies_have_contents(x + y),
{
    let all = x + y;
    assert forall|i: int| 0 <= i < all.len() implies (#[trigger] all[i] matches Step::Copy {
        from,
        ..
    } ==> filled(all, i, from)) by {
        if let Step::Copy { from, .. } = all[i] {
            if i < x.len() {
                assert(all[i] == x[i]);
                let f = choose|f: int|
                    0 <= f < i && (#[trigger] x[f] == Step::Store(from) || write_of(x[f], from)
                        is Some);
                assert(all[f] == x[f]);
            } else {
                let n = x.len();
                assert(all[i] == y[i - n]);
                let f = choose|f: int|
                    0 <= f < i - n && (#[trigger] y[f] == Step::Store(from) || write_of(y[f], from)
                        is Some);
                assert(all[n + f] == y[f]);
            }
        }
    }
}

/// Flags are there if and only if each of them is: none always are, and of two sets all are
/// there where both sets are; a single one is there where its bit is set.
pub proof fn flags_are_there_one_by_one(set: u64, a: u64, b: u64, i: u64)
    requires
        i < 64,
    ensures
        has(set, 0),
        has(set, a | b) <==> has(set, a) && has(set, b),
        has(set, 1u64 << i) <==> (set >> i) & 1 == 1,
{
    assert(set & 0 == 0) by (bit_vector);
    assert((set & (a | b) == a | b) <==> (set & a == a) && (set & b == b)) by (bit_vector);
    assert((set & (1u64 << i) == 1u64 << i) <==> (set >> i) & 1 == 1) by (bit_vector)
        requires
            i < 64,
    ;
}

/// What is temporary is what only the builds need: what vertices and indices are copied
/// from, what builds work with, the indices of the sky, and the instances. What the passes
/// and the host touch is not.
pub proof fn only_builds_need_what_is_temporary(r: Resource, step: Step)
    ensures
        r.is_temporary() <==> r == Resource::VertexStaging || r == Resource::SolidIndexStaging || r
            == Resource::SkyIndexStaging || r == Resource::SkyIndices || r == Resource::SolidScratch
            || r == Resource::SkyScratch || r == Resource::TopScratch || r == Resource::Instances,
        step is Dispatch && (read_of(step, r) is Some || write_of(step, r) is Some)
            ==> !r.is_temporary(),
{
}

/// What the steps touch on the device: a copy reads the one and writes the other, a build
/// reads what it is built of and writes the structure and what it works with, a pass reads
/// what its shader is given and writes the colours, and the host reads what it loads.
pub proof fn steps_touch_what_they_are_for(step: Step, r: Resource)
    ensures
        step matches Step::Copy { from, to, .. } ==> (read_of(step, r) is Some <==> r == from) && (
        write_of(step, r) is Some <==> r == to),
        step matches Step::Build(b) ==> {
            &&& write_of(step, r) is Some <==> r == b.structure || r == b.scratch
            &&& b.geometry matches Geometry::Triangles { vertices, indices, .. } ==> (read_of(
                step,
                r,
            ) is Some <==> r == vertices || r == indices)
            &&& b.geometry matches Geometry::Instances { instances } ==> (read_of(step, r) is Some
                <==> r == instances || r == Resource::SolidStructure || r == Resource::SkyStructure)
        },
        step is Dispatch ==> (read_of(step, r) is Some <==> r == Resource::TopStructure || r
            == Resource::Texels || r == Resource::Output || r == Resource::Sky || r
            == Resource::Lights) && (write_of(step, r) is Some <==> r == Resource::Output),
        step matches Step::Load(from) ==> (read_of(step, r) is Some <==> r == from),
{
}

} // verus!
