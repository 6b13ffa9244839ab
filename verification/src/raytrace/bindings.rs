//! How the shaders reach their resources.

use vstd::prelude::*;

use crate::raytrace::acceleration::Application;
use crate::raytrace::steps::{Pass, Resource};

verus! {

/// Compute shaders.
pub const COMPUTE: u32 = 0x20;

/// What a shader reaches.
#[derive(Debug, Clone, Copy, PartialEq, Eq, Structural)]
pub enum DescriptorKind {
    AccelerationStructure,
    StorageBuffer,
}

impl DescriptorKind {
    /// The number that stands for a kind.
    pub open spec fn code_spec(self) -> i32 {
        match self {
            DescriptorKind::AccelerationStructure => 1_000_150_000,
            DescriptorKind::StorageBuffer => 7,
        }
    }

    /// The number that stands for a kind.
    pub fn code(self) -> (r: i32)
        ensures
            r == self.code_spec(),
    {
        match self {
            DescriptorKind::AccelerationStructure => 1_000_150_000,
            DescriptorKind::StorageBuffer => 7,
        }
    }
}

/// A place at which shaders reach a resource.
#[derive(Debug, Clone, Copy, PartialEq, Eq, Structural)]
pub struct Binding {
    pub binding: u32,
    pub kind: DescriptorKind,
    pub count: u32,
    pub stages: u32,
}

/// A resource at its place.
#[derive(Debug, Clone, Copy, PartialEq, Eq, Structural)]
pub struct DescriptorWrite {
    pub binding: u32,
    pub kind: DescriptorKind,
    pub resource: Resource,
}

/// What is set aside for resources of one kind.
#[derive(Debug, Clone, Copy, PartialEq, Eq, Structural)]
pub struct PoolSize {
    pub kind: DescriptorKind,
    pub count: u32,
}

/// The places at which shaders reach resources.
pub open spec fn layout_spec() -> Seq<Binding> {
    Seq::new(
        5,
        |i: int|
            Binding {
                binding: i as u32,
                kind: if i == 0 {
                    DescriptorKind::AccelerationStructure
                } else {
                    DescriptorKind::StorageBuffer
                },
                count: 1,
                stages: COMPUTE,
            },
    )
}

/// What is set aside for resources.
pub open spec fn pool_spec() -> Seq<PoolSize> {
    seq![
        PoolSize { kind: DescriptorKind::AccelerationStructure, count: 1 },
        PoolSize { kind: DescriptorKind::StorageBuffer, count: 4 },
    ]
}

/// The resources at their places.
pub open spec fn writes_spec() -> Seq<DescriptorWrite> {
    seq![
        DescriptorWrite {
            binding: 0,
            kind: DescriptorKind::AccelerationStructure,
            resource: Resource::TopStructure,
        },
        DescriptorWrite {
            binding: 1,
            kind: DescriptorKind::StorageBuffer,
            resource: Resource::Texels,
        },
        DescriptorWrite {
            binding: 2,
            kind: DescriptorKind::StorageBuffer,
            resource: Resource::Output,
        },
        DescriptorWrite {
            binding: 3,
            kind: DescriptorKind::StorageBuffer,
            resource: Resource::Lights,
        },
        DescriptorWrite {
            binding: 4,
            kind: DescriptorKind::StorageBuffer,
            resource: Resource::Sky,
        },
    ]
}

/// What the shader of a pass takes from the given place.
pub open spec fn shader_takes(pass: Pass, binding: u32) -> Option<Resource> {
    if binding == 0 {
        Some(Resource::TopStructure)
    } else if binding == 1 {
        Some(Resource::Texels)
    } else if binding == 2 {
        Some(Resource::Output)
    } else if binding == 3 && pass == Pass::World {
        Some(Resource::Lights)
    } else if binding == 4 && pass == Pass::Sky {
        Some(Resource::Sky)
    } else {
        None
    }
}

/// The place of a resource for all shaders.
fn storage_binding(binding: u32) -> (r: Binding)
    ensures
        r == (Binding { binding, kind: DescriptorKind::StorageBuffer, count: 1, stages: COMPUTE }),
{
    Binding { binding, kind: DescriptorKind::StorageBuffer, count: 1, stages: COMPUTE }
}

impl Application {
    /// The places at which shaders reach resources, and the passes in the order of
    /// their pipelines.
    pub fn create_pipelines(&self) -> (r: (Vec<Binding>, [Pass; 2]))
        ensures
            r.0@ == layout_spec(),
            r.1@ == seq![Pass::Sky, Pass::World],
    {
        let mut layout: Vec<Binding> = Vec::new();
        layout.push(
            Binding {
                binding: 0,
                kind: DescriptorKind::AccelerationStructure,
                count: 1,
                stages: COMPUTE,
            },
        );
        layout.push(storage_binding(1));
        layout.push(storage_binding(2));
        layout.push(storage_binding(3));
        layout.push(storage_binding(4));
        assert(layout@ =~= layout_spec());
        let passes: [Pass; 2] = [Pass::Sky, Pass::World];
        assert(passes@ =~= seq![Pass::Sky, Pass::World]);
        (layout, passes)
    }

    /// What is set aside for resources, and the resources at their places.
    pub fn create_descriptor_set(&self) -> (r: (Vec<PoolSize>, Vec<DescriptorWrite>))
        ensures
            r.0@ == pool_spec(),
            r.1@ == writes_spec(),
    {
        let mut sizes: Vec<PoolSize> = Vec::new();
        sizes.push(PoolSize { kind: DescriptorKind::AccelerationStructure, count: 1 });
        sizes.push(PoolSize { kind: DescriptorKind::StorageBuffer, count: 4 });
        assert(sizes@ =~= pool_spec());
        let mut writes: Vec<DescriptorWrite> = Vec::new();
        writes.push(
            DescriptorWrite {
                binding: 0,
                kind: DescriptorKind::AccelerationStructure,
                resource: Resource::TopStructure,
            },
        );
        writes.push(
            DescriptorWrite {
                binding: 1,
                kind: DescriptorKind::StorageBuffer,
                resource: Resource::Texels,
            },
        );
        writes.push(
            DescriptorWrite {
                binding: 2,
                kind: DescriptorKind::StorageBuffer,
                resource: Resource::Output,
            },
        );
        writes.push(
            DescriptorWrite {
                binding: 3,
                kind: DescriptorKind::StorageBuffer,
                resource: Resource::Lights,
            },
        );
        writes.push(
            DescriptorWrite {
                binding: 4,
                kind: DescriptorKind::StorageBuffer,
                resource: Resource::Sky,
            },
        );
        assert(writes@ =~= writes_spec());
        (sizes, writes)
    }
}

/// How many places are of the given kind.
pub open spec fn places_of(layout: Seq<Binding>, kind: DescriptorKind) -> int {
    layout.filter(|b: Binding| b.kind == kind).len() as int
}

/// Every place gets exactly one resource, of its kind, and what the shader of
/// each pass takes from a place is what was put there.
pub proof fn shaders_reach_their_resources(pass: Pass, b: int)
    requires
        0 <= b < layout_spec().len(),
    ensures
        ({
            let place = layout_spec()[b];
            &&& exists|w: int|
                {
                    &&& 0 <= w < writes_spec().len()
                    &&& (#[trigger] writes_spec()[w]).binding == place.binding
                    &&& writes_spec()[w].kind == place.kind
                    &&& shader_takes(pass, place.binding) matches Some(r)
                        ==> writes_spec()[w].resource == r
                }
            &&& forall|v: int, w: int|
                0 <= v < w < writes_spec().len() ==> (#[trigger] writes_spec()[v]).binding != (
                #[trigger] writes_spec()[w]).binding
        }),
        forall|binding: u32|
            (#[trigger] shader_takes(pass, binding)) is Some ==> exists|i: int|
                0 <= i < layout_spec().len() && (#[trigger] layout_spec()[i]).binding == binding,
{
    assert(writes_spec()[b].binding == layout_spec()[b].binding);
    assert forall|binding: u32|
        (#[trigger] shader_takes(pass, binding)) is Some implies exists|i: int|
        0 <= i < layout_spec().len() && (#[trigger] layout_spec()[i]).binding == binding by {
        assert(layout_spec()[binding as int].binding == binding);
    }
}

/// What is set aside is what the places take.
pub proof fn pool_is_large_enough(kind: DescriptorKind)
    ensures
        exists|i: int|
            {
                &&& 0 <= i < pool_spec().len()
                &&& (#[trigger] pool_spec()[i]).kind == kind
                &&& pool_spec()[i].count == places_of(layout_spec(), kind)
            },
{
    let p = |b: Binding| b.kind == kind;
    let l = layout_spec();
    reveal_with_fuel(Seq::filter, 6);
    let at = if kind == DescriptorKind::AccelerationStructure {
        0int
    } else {
        1int
    };
    assert(pool_spec()[at].kind == kind);
    assert(l.filter(p).len() == if at == 0 { 1int } else { 4 });
}

/// The places are numbered from 0 to 4, in order. Each is for one resource, and for compute
/// shaders. At the first one they reach an acceleration structure, at the others a buffer,
/// and what is put at a place has its number and is of its kind.
pub proof fn places_are_numbered(b: int)
    requires
        0 <= b < 5,
    ensures
        layout_spec().len() == 5,
        layout_spec()[b].binding == b,
        layout_spec()[b].count == 1,
        layout_spec()[b].stages == 0x20,
        layout_spec()[b].kind == DescriptorKind::AccelerationStructure <==> b == 0,
        writes_spec().len() == 5,
        writes_spec()[b].binding == b,
        writes_spec()[b].kind == layout_spec()[b].kind,
        writes_spec()[b].resource == Resource::TopStructure <==> writes_spec()[b].kind
            == DescriptorKind::AccelerationStructure,
        pool_spec().len() == 2,
        pool_spec()[0].kind != pool_spec()[1].kind,
        pool_spec()[0].count + pool_spec()[1].count == 5,
{
}

/// Whatever a pass reads or writes on the device, its shader reaches at a place.
pub proof fn passes_touch_what_is_bound(x: u32, y: u32, z: u32, r: Resource)
    ensures
        ({
            let step = crate::raytrace::steps::Step::Dispatch { x, y, z };
            crate::raytrace::steps::read_of(step, r) is Some || crate::raytrace::steps::write_of(
                step,
                r,
            ) is Some ==> exists|w: int|
                0 <= w < writes_spec().len() && (#[trigger] writes_spec()[w]).resource == r
        }),
{
    assert(writes_spec()[0].resource == Resource::TopStructure);
    assert(writes_spec()[1].resource == Resource::Texels);
    assert(writes_spec()[2].resource == Resource::Output);
    assert(writes_spec()[3].resource == Resource::Lights);
    assert(writes_spec()[4].resource == Resource::Sky);
}

/// Buffers have the number seven among the first kinds; acceleration structures have the first
/// number of those that are set aside for what they were introduced with.
pub proof fn kinds_are_numbered(kind: DescriptorKind)
    ensures
        kind.code_spec() < 11 <==> kind == DescriptorKind::StorageBuffer,
        kind.code_spec() < 11 ==> kind.code_spec() == 7,
        kind.code_spec() >= 11 ==> kind.code_spec() == 1_000_000_000 + 150 * 1_000,
{
}

/// Each resource has its place: first what rays are traced through, then the texels, then
/// the colours, then the lights of the world, and last that of the sky.
pub proof fn resources_have_their_places(w: int)
    requires
        0 <= w < writes_spec().len(),
    ensures
        writes_spec()[w].resource == Resource::TopStructure <==> writes_spec()[w].binding == 0,
        writes_spec()[w].resource == Resource::Texels <==> writes_spec()[w].binding == 1,
        writes_spec()[w].resource == Resource::Output <==> writes_spec()[w].binding == 2,
        writes_spec()[w].resource == Resource::Lights <==> writes_spec()[w].binding == 3,
        writes_spec()[w].resource == Resource::Sky <==> writes_spec()[w].binding == 4,
{
}

} // verus!
