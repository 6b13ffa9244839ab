use ash::vk;

use radiosity::raytrace::acceleration;
use radiosity::raytrace::acceleration::{
    instances, AccelerationStructure, Application, BuildSizes, StructureBuild, StructureStep,
};
use radiosity::raytrace::bake::{BakeError, Counts};
use radiosity::raytrace::bindings;
use radiosity::raytrace::bindings::DescriptorKind;
use radiosity::raytrace::steps;
use radiosity::raytrace::steps::{Build, Geometry, Pass, Resource, Step};
use radiosity::raytrace::timestamps::{elapsed_ticks, TimestampSlot, TIMESTAMP_COUNT};
use radiosity::sampling::ComputeLayout;
use radiosity::vulkan::buffer::{Buffer, SHADER_DEVICE_ADDRESS, STORAGE_BUFFER};

const LAYOUT: ComputeLayout = ComputeLayout { workgroup_size: 64, x_groups: 1024 };

fn app() -> Application {
    Application::new(256, 64)
}

fn counts() -> Counts {
    Counts { texels: 100, vertices: 8, solid_indices: 12, sky_indices: 6, lights: 3 }
}

fn bake(counts: Counts) -> Vec<Step> {
    app().run::<[u32; 3], u16>(&LAYOUT, counts).unwrap()
}

#[test]
fn flags_are_those_of_vulkan() {
    assert_eq!(steps::COMPUTE_SHADER, vk::PipelineStageFlags2::COMPUTE_SHADER.as_raw());
    assert_eq!(steps::ALL_TRANSFER, vk::PipelineStageFlags2::ALL_TRANSFER.as_raw());
    assert_eq!(steps::HOST, vk::PipelineStageFlags2::HOST.as_raw());
    assert_eq!(
        steps::RAY_TRACING_SHADER,
        vk::PipelineStageFlags2::RAY_TRACING_SHADER_KHR.as_raw()
    );
    assert_eq!(
        steps::ACCELERATION_STRUCTURE_BUILD,
        vk::PipelineStageFlags2::ACCELERATION_STRUCTURE_BUILD_KHR.as_raw()
    );
    assert_eq!(steps::SHADER_READ, vk::AccessFlags2::SHADER_READ.as_raw());
    assert_eq!(steps::SHADER_WRITE, vk::AccessFlags2::SHADER_WRITE.as_raw());
    assert_eq!(steps::TRANSFER_READ, vk::AccessFlags2::TRANSFER_READ.as_raw());
    assert_eq!(steps::TRANSFER_WRITE, vk::AccessFlags2::TRANSFER_WRITE.as_raw());
    assert_eq!(steps::HOST_READ, vk::AccessFlags2::HOST_READ.as_raw());
    assert_eq!(
        steps::ACCELERATION_STRUCTURE_READ,
        vk::AccessFlags2::ACCELERATION_STRUCTURE_READ_KHR.as_raw()
    );
    assert_eq!(
        steps::ACCELERATION_STRUCTURE_WRITE,
        vk::AccessFlags2::ACCELERATION_STRUCTURE_WRITE_KHR.as_raw()
    );
    assert_eq!(steps::TOP_LEVEL, vk::AccelerationStructureTypeKHR::TOP_LEVEL.as_raw());
    assert_eq!(steps::BOTTOM_LEVEL, vk::AccelerationStructureTypeKHR::BOTTOM_LEVEL.as_raw());
    assert_eq!(
        steps::PREFER_FAST_TRACE,
        vk::BuildAccelerationStructureFlagsKHR::PREFER_FAST_TRACE.as_raw()
    );
    assert_eq!(
        acceleration::TRIANGLE_FACING_CULL_DISABLE,
        vk::GeometryInstanceFlagsKHR::TRIANGLE_FACING_CULL_DISABLE.as_raw() as u8
    );
    assert_eq!(
        acceleration::INSTANCE_BYTES,
        std::mem::size_of::<vk::AccelerationStructureInstanceKHR>() as u64
    );
    assert_eq!(bindings::COMPUTE, vk::ShaderStageFlags::COMPUTE.as_raw());
    assert_eq!(
        DescriptorKind::AccelerationStructure.code(),
        vk::DescriptorType::ACCELERATION_STRUCTURE_KHR.as_raw()
    );
    assert_eq!(
        DescriptorKind::StorageBuffer.code(),
        vk::DescriptorType::STORAGE_BUFFER.as_raw()
    );
}

#[test]
fn timestamps_have_queries() {
    let slots = [
        TimestampSlot::SkyBegin,
        TimestampSlot::SkyEnd,
        TimestampSlot::WorldBegin,
        TimestampSlot::WorldEnd,
    ];
    assert_eq!(slots.map(|s| s.query()), [0, 1, 2, 3]);
    assert_eq!(TIMESTAMP_COUNT, 4);
}

#[test]
fn ticks_between_timestamps() {
    assert_eq!(elapsed_ticks(10, 25, 64), 15);
    assert_eq!(elapsed_ticks(u64::MAX, 4, 64), 5);
    assert_eq!(elapsed_ticks(u64::MAX, 4, 99), 5);
    assert_eq!(elapsed_ticks(0xff, 0x01, 8), 2);
    assert_eq!(elapsed_ticks(0xabff, 0x1201, 8), 2);
    assert_eq!(elapsed_ticks((1 << 36) - 1, 9, 36), 10);
    assert_eq!(elapsed_ticks(123, 456, 0), 0);
    assert_eq!(elapsed_ticks(0, 3, 1), 1);
    for bits in 0..64u32 {
        let mask = (1u64 << bits) - 1;
        for (start, end) in [(5u64, 3u64), (0, u64::MAX), (1 << 40, 7), (u64::MAX, 0)] {
            assert_eq!(
                elapsed_ticks(start, end, bits),
                (end & mask).wrapping_sub(start & mask) & mask
            );
        }
    }
}

#[test]
fn scratch_is_aligned() {
    let app = app();
    let (storage, scratch) = app.create_as(BuildSizes { structure: 1000, scratch: 300 });
    assert_eq!(storage.size(), 1000);
    assert_eq!(storage.usage, 0x10_0000 | SHADER_DEVICE_ADDRESS | STORAGE_BUFFER);
    assert_eq!(scratch.size(), 555);
    assert_eq!(scratch.usage, SHADER_DEVICE_ADDRESS | STORAGE_BUFFER);
    for address in [0u64, 1, 255, 256, 257, 0xffff_0001] {
        let at = app.scratch_address(address);
        assert_eq!(at % 256, 0);
        assert!(address <= at && at + 300 <= address + scratch.size());
    }
    let plain = Application::new(0, 64);
    assert_eq!(plain.scratch_address(77), 77);
    assert_eq!(plain.create_as(BuildSizes { structure: 1, scratch: 9 }).1.size(), 9);
}

#[test]
fn a_structure_on_its_own() {
    let build = builds(&app().create_acceleration_structures::<[u32; 3], u16>(3, 3, 0))[0];
    let build = StructureBuild {
        structure: build.structure,
        scratch: build.scratch,
        level: build.level,
        geometries: vec![build.geometry, build.geometry],
        primitive_counts: vec![1, 5],
        flags: build.flags,
    };
    let s = AccelerationStructure::new(build, BuildSizes { structure: 64, scratch: 9999 });
    assert_eq!(s.build.geometries.len(), 2);
    assert_eq!(s.build.primitive_counts, vec![1, 5]);
    assert_eq!(s.storage, Buffer::local(64, 0x10_0000 | SHADER_DEVICE_ADDRESS | STORAGE_BUFFER));
    assert_eq!(s.scratch, Buffer::local(64, SHADER_DEVICE_ADDRESS | STORAGE_BUFFER));
    assert_eq!(
        s.steps,
        vec![
            StructureStep::CreateBuffer { resource: Resource::SolidStructure, buffer: s.storage },
            StructureStep::CreateStructure(Resource::SolidStructure),
            StructureStep::CreateBuffer { resource: Resource::SolidScratch, buffer: s.scratch },
            StructureStep::AllocateCommands,
            StructureStep::Begin,
            StructureStep::Build,
            StructureStep::End,
            StructureStep::Submit,
            StructureStep::WaitIdle,
            StructureStep::FreeCommands,
            StructureStep::Destroy(Resource::SolidScratch),
        ]
    );
}

#[test]
fn instances_of_structures() {
    let both = instances(true, 1, 2);
    assert_eq!(both.len(), 2);
    assert_eq!(both[0].structure, Resource::SolidStructure);
    assert_eq!(both[0].mask, 1);
    assert_eq!(both[1].structure, Resource::SkyStructure);
    assert_eq!(both[1].mask, 2);
    let matrix = both[0].transform.map(f32::from_bits);
    assert_eq!(matrix, [1.0, 0.0, 0.0, 0.0, 0.0, 1.0, 0.0, 0.0, 0.0, 0.0, 1.0, 0.0]);
    assert_eq!(both[1].flags, 1);
    assert_eq!(both[1].custom_index, 0);
    assert_eq!(instances(false, 1, 2).len(), 1);
}

fn builds(steps: &[Step]) -> Vec<Build> {
    steps
        .iter()
        .filter_map(|s| match s {
            Step::Build(b) => Some(*b),
            _ => None,
        })
        .collect()
}

#[test]
fn structures_are_built_of_triangles() {
    let steps = app().create_acceleration_structures::<[u32; 3], u16>(8, 12, 6);
    let built = builds(&steps);
    assert_eq!(built.len(), 3);
    assert_eq!(built[0].structure, Resource::SolidStructure);
    assert_eq!(built[0].primitive_count, 4);
    assert_eq!(
        built[0].geometry,
        Geometry::Triangles {
            vertices: Resource::Vertices,
            indices: Resource::SolidIndices,
            max_vertex: 7,
            vertex_stride: 12,
            vertex_format: vk::Format::R32G32B32_SFLOAT.as_raw(),
            index_type: vk::IndexType::UINT16.as_raw(),
        }
    );
    assert_eq!(built[1].structure, Resource::SkyStructure);
    assert_eq!(built[1].primitive_count, 2);
    assert_eq!(built[2].level, steps::TOP_LEVEL);
    assert_eq!(built[2].primitive_count, 2);
    assert!(steps.contains(&Step::Copy {
        from: Resource::VertexStaging,
        to: Resource::Vertices,
        size: 96
    }));
    assert!(steps.contains(&Step::Copy {
        from: Resource::SkyIndexStaging,
        to: Resource::SkyIndices,
        size: 12
    }));
}

#[test]
fn without_sky_there_is_no_structure_of_it() {
    let steps = app().create_acceleration_structures::<[u32; 3], u32>(0, 3, 0);
    let built = builds(&steps);
    assert_eq!(built.len(), 2);
    match built[0].geometry {
        Geometry::Triangles { max_vertex, index_type, .. } => {
            assert_eq!(max_vertex, 0);
            assert_eq!(index_type, vk::IndexType::UINT32.as_raw());
        }
        Geometry::Instances { .. } => panic!("not triangles"),
    }
    assert_eq!(built[1].primitive_count, 1);
    assert!(!steps.iter().any(|s| matches!(s, Step::Store(Resource::SkyIndexStaging))));
    assert!(steps.contains(&Step::Copy {
        from: Resource::SolidIndexStaging,
        to: Resource::SolidIndices,
        size: 12
    }));
}

#[test]
fn lighting_goes_pass_by_pass() {
    let steps = app().dispatch_lighting(&LAYOUT, 65_537, 99);
    let order: Vec<Step> = steps
        .iter()
        .filter(|s| matches!(s, Step::BindPipeline(_) | Step::Dispatch { .. } | Step::Copy { .. }))
        .copied()
        .collect();
    assert_eq!(
        order,
        vec![
            Step::BindPipeline(Pass::Sky),
            Step::Dispatch { x: 1024, y: 2, z: 1 },
            Step::BindPipeline(Pass::World),
            Step::Dispatch { x: 1024, y: 2, z: 1 },
            Step::Copy { from: Resource::Output, to: Resource::Readback, size: 99 },
        ]
    );
    assert_eq!(steps[0], Step::ResetTimestamps { first: 0, count: 4 });
    assert_eq!(steps.last(), Some(&Step::WaitIdle));
    let written: Vec<TimestampSlot> = steps
        .iter()
        .filter_map(|s| match s {
            Step::WriteTimestamp { slot, stage } if *stage == steps::COMPUTE_SHADER => Some(*slot),
            _ => None,
        })
        .collect();
    assert_eq!(
        written,
        vec![
            TimestampSlot::SkyBegin,
            TimestampSlot::SkyEnd,
            TimestampSlot::WorldBegin,
            TimestampSlot::WorldEnd,
        ]
    );
}

#[test]
fn a_map_without_texels_is_not_lit() {
    let none = Counts { texels: 0, ..counts() };
    assert_eq!(app().run::<[u32; 3], u16>(&LAYOUT, none), Err(BakeError::NoTexels));
    assert_eq!(BakeError::NoTexels.message(), "no texels");
    assert!(counts().can_fit::<[u32; 3], u16>());
    assert!(!Counts { lights: usize::MAX, ..counts() }.can_fit::<[u32; 3], u16>());
}

#[test]
fn copies_fit_in_their_buffers() {
    for lights in [0, 3] {
        for sky_indices in [0, 6] {
            let steps = bake(Counts { lights, sky_indices, ..counts() });
            let size_of = |r: Resource, before: usize| {
                steps[..before].iter().find_map(|s| match s {
                    Step::Create { resource, buffer } if *resource == r => Some(*buffer),
                    _ => None,
                })
            };
            for (i, step) in steps.iter().enumerate() {
                if let Step::Copy { from, to, size } = step {
                    let source = size_of(*from, i).unwrap();
                    let target = size_of(*to, i).unwrap();
                    assert!(*size <= source.size() && *size <= target.size());
                    assert_eq!(source.usage & 0x1, 0x1);
                    assert_eq!(target.usage & 0x2, 0x2);
                }
            }
        }
    }
}

#[test]
fn copies_have_contents() {
    let steps = bake(counts());
    for (i, step) in steps.iter().enumerate() {
        if let Step::Copy { from, .. } = step {
            let stored = steps[..i].contains(&Step::Store(*from));
            let traced = *from == Resource::Output
                && steps[..i].iter().any(|s| matches!(s, Step::Dispatch { .. }));
            assert!(stored || traced);
        }
    }
}

#[test]
fn sizes_of_what_is_brought_over() {
    let steps = bake(counts());
    let size_of = |r: Resource| {
        steps.iter().find_map(|s| match s {
            Step::Create { resource, buffer } if *resource == r => Some(buffer.size()),
            _ => None,
        })
    };
    assert_eq!(size_of(Resource::Texels), Some(3200));
    assert_eq!(size_of(Resource::Output), Some(1600));
    assert_eq!(size_of(Resource::Readback), Some(1600));
    assert_eq!(size_of(Resource::Sky), Some(48));
    assert_eq!(size_of(Resource::Lights), Some(240));
    assert_eq!(steps.last(), Some(&Step::Load(Resource::Readback)));
    let dark = bake(Counts { lights: 0, ..counts() });
    assert!(dark.contains(&Step::Create {
        resource: Resource::Lights,
        buffer: Buffer::local(1, STORAGE_BUFFER | SHADER_DEVICE_ADDRESS | 0x2),
    }));
    assert!(!dark.iter().any(|s| matches!(s, Step::Store(Resource::LightStaging))));
}

/// What a step does to a resource: the resource, the stage, the access, and whether it
/// is a write.
type Touch = (Resource, vk::PipelineStageFlags2, vk::AccessFlags2, bool);

fn touches(step: &Step) -> Vec<Touch> {
    let transfer = vk::PipelineStageFlags2::ALL_TRANSFER;
    let building = vk::PipelineStageFlags2::ACCELERATION_STRUCTURE_BUILD_KHR;
    let compute = vk::PipelineStageFlags2::COMPUTE_SHADER;
    let structure_read = vk::AccessFlags2::ACCELERATION_STRUCTURE_READ_KHR;
    let structure_write = vk::AccessFlags2::ACCELERATION_STRUCTURE_WRITE_KHR;
    let read = vk::AccessFlags2::SHADER_READ;
    match *step {
        Step::Copy { from, to, .. } => vec![
            (from, transfer, vk::AccessFlags2::TRANSFER_READ, false),
            (to, transfer, vk::AccessFlags2::TRANSFER_WRITE, true),
        ],
        Step::Build(build) => {
            let mut list = vec![
                (build.structure, building, structure_write, true),
                (build.scratch, building, structure_write, true),
            ];
            match build.geometry {
                Geometry::Triangles { vertices, indices, .. } => {
                    list.push((vertices, building, read, false));
                    list.push((indices, building, read, false));
                }
                Geometry::Instances { instances } => {
                    list.push((instances, building, read, false));
                    list.push((Resource::SolidStructure, building, structure_read, false));
                    list.push((Resource::SkyStructure, building, structure_read, false));
                }
            }
            list
        }
        Step::Dispatch { .. } => vec![
            (Resource::TopStructure, compute, structure_read, false),
            (Resource::Texels, compute, read, false),
            (Resource::Sky, compute, read, false),
            (Resource::Lights, compute, read, false),
            (Resource::Output, compute, read, false),
            (Resource::Output, compute, vk::AccessFlags2::SHADER_WRITE, true),
        ],
        Step::Load(from) => {
            vec![(from, vk::PipelineStageFlags2::HOST, vk::AccessFlags2::HOST_READ, false)]
        }
        _ => vec![],
    }
}

fn separates(step: &Step, first: &Touch, second: &Touch) -> bool {
    match step {
        Step::Barrier(b) => {
            (b.buffer.is_none() || b.buffer == Some(first.0))
                && vk::PipelineStageFlags2::from_raw(b.src_stage).contains(first.1)
                && vk::AccessFlags2::from_raw(b.src_access).contains(first.2)
                && vk::PipelineStageFlags2::from_raw(b.dst_stage).contains(second.1)
                && vk::AccessFlags2::from_raw(b.dst_access).contains(second.2)
        }
        _ => false,
    }
}

#[test]
fn barriers_stand_between_writes_and_reads() {
    for (lights, sky_indices) in [(0, 0), (0, 6), (3, 0), (3, 6)] {
        let steps = bake(Counts { lights, sky_indices, ..counts() });
        let mut pairs = 0;
        for (i, step) in steps.iter().enumerate() {
            for first in touches(step).iter().filter(|t| t.3) {
                for (j, later) in steps.iter().enumerate().skip(i + 1) {
                    for second in touches(later).iter().filter(|t| t.0 == first.0) {
                        let between = &steps[i + 1..j];
                        assert!(between.iter().any(|s| separates(s, first, second)));
                        pairs += 1;
                    }
                }
            }
        }
        assert!(pairs > 10);
    }
}

#[test]
fn passes_wait_for_what_is_brought_over() {
    let steps = bake(counts());
    let first_pass = steps.iter().position(|s| matches!(s, Step::Dispatch { .. })).unwrap();
    let before = steps[..first_pass].iter().rev().find_map(|s| match s {
        Step::Barrier(b) => Some(*b),
        _ => None,
    });
    let before = before.unwrap();
    assert_eq!(
        before.dst_stage,
        (vk::PipelineStageFlags2::RAY_TRACING_SHADER_KHR
            | vk::PipelineStageFlags2::COMPUTE_SHADER)
            .as_raw()
    );
    assert_eq!(
        before.dst_access,
        (vk::AccessFlags2::ACCELERATION_STRUCTURE_READ_KHR | vk::AccessFlags2::SHADER_READ)
            .as_raw()
    );
    assert_eq!(
        before.src_stage,
        (vk::PipelineStageFlags2::ACCELERATION_STRUCTURE_BUILD_KHR
            | vk::PipelineStageFlags2::ALL_TRANSFER)
            .as_raw()
    );
}

#[test]
fn shaders_reach_what_they_take() {
    let (layout, passes) = app().create_pipelines();
    assert_eq!(layout.iter().map(|b| b.binding).collect::<Vec<_>>(), vec![0, 1, 2, 3, 4]);
    assert_eq!(passes.map(|p| p.entry_point()), ["compute_sky", "compute_world"]);
    let (pool, writes) = app().create_descriptor_set();
    for size in &pool {
        let places = layout.iter().filter(|b| b.kind == size.kind).count();
        assert_eq!(size.count as usize, places);
    }
    for (place, write) in layout.iter().zip(&writes) {
        assert_eq!((place.binding, place.kind), (write.binding, write.kind));
        assert_eq!((place.count, place.stages), (1, 0x20));
    }
    assert_eq!(
        writes.iter().map(|w| w.resource).collect::<Vec<_>>(),
        vec![
            Resource::TopStructure,
            Resource::Texels,
            Resource::Output,
            Resource::Lights,
            Resource::Sky,
        ]
    );
}

#[test]
fn what_is_temporary() {
    for r in [
        Resource::VertexStaging,
        Resource::SolidScratch,
        Resource::SkyIndices,
        Resource::Instances,
    ] {
        assert!(r.temporary());
    }
    for r in [
        Resource::Vertices,
        Resource::SolidIndices,
        Resource::TopStructure,
        Resource::Texels,
        Resource::TexelStaging,
    ] {
        assert!(!r.temporary());
    }
}
