//! The acceleration structures that rays are traced through.

use vstd::arithmetic::div_mod::*;
use vstd::arithmetic::power2::*;
use vstd::bits::*;
use vstd::prelude::*;

use crate::raytrace::steps;
use crate::raytrace::steps::{Barrier, Build, Geometry, Resource, Step};
use crate::raytrace::steps::{
    ACCELERATION_STRUCTURE_BUILD, ACCELERATION_STRUCTURE_READ, ACCELERATION_STRUCTURE_WRITE,
    ALL_TRANSFER, BOTTOM_LEVEL, PREFER_FAST_TRACE, SHADER_READ, TOP_LEVEL, TRANSFER_WRITE,
};
use crate::single;
use crate::vulkan::buffer::{
    Buffer, ACCELERATION_STRUCTURE_BUILD_INPUT_READ_ONLY, ACCELERATION_STRUCTURE_STORAGE,
    HOST_COHERENT, HOST_VISIBLE, INDEX_BUFFER, SHADER_DEVICE_ADDRESS, STORAGE_BUFFER, TRANSFER_DST,
    VERTEX_BUFFER,
};
use crate::vulkan::geometry::{GeometryIndex, GeometryVertex};

verus! {

/// Triangles count from both sides.
pub const TRIANGLE_FACING_CULL_DISABLE: u8 = 0x1;

/// The bytes of an instance.
pub const INSTANCE_BYTES: u64 = 64;

/// An instance of a structure in the one that rays are traced through.
#[derive(Debug, Clone, Copy)]
pub struct Instance {
    pub structure: Resource,
    /// Rays whose mask shares a bit with it can hit the instance.
    pub mask: u8,
    pub custom_index: u32,
    pub flags: u8,
    /// Where it stands, as three rows of four bit patterns.
    pub transform: [u32; 12],
}

/// The transformation that leaves everything in place.
pub open spec fn identity() -> Seq<u32> {
    Seq::new(
        12,
        |i: int|
            if i % 5 == 0 {
                single::ONE
            } else {
                single::ZERO
            },
    )
}

impl Instance {
    /// It is the structure as it is, for rays with the given mask.
    pub open spec fn shows(self, structure: Resource, mask: u8) -> bool {
        &&& self.structure == structure
        &&& self.mask == mask
        &&& self.custom_index == 0
        &&& self.flags == TRIANGLE_FACING_CULL_DISABLE
        &&& self.transform@ == identity()
    }

    /// The structure as it is, for rays with the given mask.
    fn of(structure: Resource, mask: u8) -> (r: Instance)
        ensures
            r.shows(structure, mask),
    {
        let o: u32 = single::ZERO;
        let l: u32 = single::ONE;
        let transform: [u32; 12] = [l, o, o, o, o, l, o, o, o, o, l, o];
        assert(transform@ =~= identity());
        Instance {
            structure,
            mask,
            custom_index: 0,
            flags: TRIANGLE_FACING_CULL_DISABLE,
            transform,
        }
    }
}

/// The instances that rays are traced through: the solid faces, and the sky where
/// there is one.
pub fn instances(sky: bool, mask_solid: u8, mask_sky: u8) -> (r: Vec<Instance>)
    ensures
        r@.len() == if sky {
            2nat
        } else {
            1nat
        },
        r@[0].shows(Resource::SolidStructure, mask_solid),
        sky ==> r@[1].shows(Resource::SkyStructure, mask_sky),
{
    let mut instances: Vec<Instance> = Vec::new();
    instances.push(Instance::of(Resource::SolidStructure, mask_solid));
    if sky {
        instances.push(Instance::of(Resource::SkyStructure, mask_sky));
    }
    instances
}

/// The sizes that a device asks for to build a structure.
#[derive(Debug, Clone, Copy, PartialEq, Eq, Structural)]
pub struct BuildSizes {
    pub structure: u64,
    pub scratch: u64,
}

/// What buffers of structures are used for.
pub open spec fn structure_usage() -> u32 {
    ACCELERATION_STRUCTURE_STORAGE | SHADER_DEVICE_ADDRESS | STORAGE_BUFFER
}

/// What buffers that builds work with are used for.
pub open spec fn scratch_usage() -> u32 {
    SHADER_DEVICE_ADDRESS | STORAGE_BUFFER
}

/// What buffers that builds read from are used for.
pub open spec fn input_usage(usage: u32) -> u32 {
    SHADER_DEVICE_ADDRESS | ACCELERATION_STRUCTURE_BUILD_INPUT_READ_ONLY | TRANSFER_DST | usage
}

/// What the buffer of the instances is used for.
pub open spec fn instance_usage() -> u32 {
    SHADER_DEVICE_ADDRESS | ACCELERATION_STRUCTURE_BUILD_INPUT_READ_ONLY
}

/// The build of a structure that is made at once, of any number of geometries.
#[derive(Debug)]
pub struct StructureBuild {
    pub structure: Resource,
    pub scratch: Resource,
    pub level: i32,
    pub geometries: Vec<Geometry>,
    /// How many primitives there are of each geometry.
    pub primitive_counts: Vec<u32>,
    pub flags: u32,
}

/// A step in making a structure at once.
#[derive(Debug, Clone, Copy, PartialEq, Eq, Structural)]
pub enum StructureStep {
    CreateBuffer { resource: Resource, buffer: Buffer },
    /// Make the structure in its buffer.
    CreateStructure(Resource),
    /// Get room for commands of their own.
    AllocateCommands,
    Begin,
    Build,
    End,
    Submit,
    WaitIdle,
    /// Give the room for the commands back.
    FreeCommands,
    /// Give a buffer up.
    Destroy(Resource),
}

/// A structure that is built at once, in a buffer of its own.
#[derive(Debug)]
pub struct AccelerationStructure {
    pub build: StructureBuild,
    pub storage: Buffer,
    pub scratch: Buffer,
    /// What makes the structure.
    pub steps: Vec<StructureStep>,
}

/// The steps that make a structure at once: its buffers, and commands of their own
/// that are waited for. Then all is given back but the structure and its buffer.
pub open spec fn structure_steps(
    structure: Resource,
    scratch: Resource,
    storage_buffer: Buffer,
    scratch_buffer: Buffer,
) -> Seq<StructureStep> {
    seq![
        StructureStep::CreateBuffer { resource: structure, buffer: storage_buffer },
        StructureStep::CreateStructure(structure),
        StructureStep::CreateBuffer { resource: scratch, buffer: scratch_buffer },
        StructureStep::AllocateCommands,
        StructureStep::Begin,
        StructureStep::Build,
        StructureStep::End,
        StructureStep::Submit,
        StructureStep::WaitIdle,
        StructureStep::FreeCommands,
        StructureStep::Destroy(scratch),
    ]
}

impl AccelerationStructure {
    /// The buffers of a structure of the given size, and the steps that make it. To
    /// work with, the build gets as much room as the structure takes.
    pub fn new(build: StructureBuild, sizes: BuildSizes) -> (r: AccelerationStructure)
        ensures
            r.build == build,
            r.storage == Buffer::local_spec(sizes.structure, structure_usage()),
            r.scratch == Buffer::local_spec(sizes.structure, scratch_usage()),
            r.steps@ == structure_steps(build.structure, build.scratch, r.storage, r.scratch),
    {
        let storage: Buffer = Buffer::local(
            sizes.structure,
            ACCELERATION_STRUCTURE_STORAGE | SHADER_DEVICE_ADDRESS | STORAGE_BUFFER,
        );
        let scratch: Buffer = Buffer::local(
            sizes.structure,
            SHADER_DEVICE_ADDRESS | STORAGE_BUFFER,
        );
        let mut steps: Vec<StructureStep> = Vec::new();
        steps.push(StructureStep::CreateBuffer { resource: build.structure, buffer: storage });
        steps.push(StructureStep::CreateStructure(build.structure));
        steps.push(StructureStep::CreateBuffer { resource: build.scratch, buffer: scratch });
        steps.push(StructureStep::AllocateCommands);
        steps.push(StructureStep::Begin);
        steps.push(StructureStep::Build);
        steps.push(StructureStep::End);
        steps.push(StructureStep::Submit);
        steps.push(StructureStep::WaitIdle);
        steps.push(StructureStep::FreeCommands);
        steps.push(StructureStep::Destroy(build.scratch));
        assert(steps@ =~= structure_steps(build.structure, build.scratch, storage, scratch));
        AccelerationStructure { build, storage, scratch, steps }
    }
}

/// What the builds of the structures depend on.
#[derive(Debug, Clone, Copy, PartialEq, Eq, Structural)]
pub struct Application {
    /// The addresses that builds work at are multiples of this.
    pub scratch_offset_alignment: u32,
    /// How many bits of a timestamp count.
    pub timestamp_valid_bits: u32,
}

/// The steps that bring `bytes` bytes to the device.
pub open spec fn input_steps(
    staging: Resource,
    resource: Resource,
    bytes: u64,
    usage: u32,
) -> Seq<Step> {
    seq![
        Step::Create { resource: staging, buffer: Buffer::staging_spec(bytes) },
        Step::Store(staging),
        Step::Create { resource, buffer: Buffer::local_spec(bytes, input_usage(usage)) },
        Step::Copy { from: staging, to: resource, size: bytes },
    ]
}

/// Builds wait for what has been copied.
pub open spec fn upload_barrier() -> Barrier {
    Barrier {
        src_stage: ALL_TRANSFER,
        src_access: TRANSFER_WRITE,
        dst_stage: ACCELERATION_STRUCTURE_BUILD,
        dst_access: ACCELERATION_STRUCTURE_READ | SHADER_READ,
        buffer: None,
    }
}

/// Builds wait for builds.
pub open spec fn build_barrier() -> Barrier {
    Barrier {
        src_stage: ACCELERATION_STRUCTURE_BUILD,
        src_access: ACCELERATION_STRUCTURE_WRITE,
        dst_stage: ACCELERATION_STRUCTURE_BUILD,
        dst_access: ACCELERATION_STRUCTURE_READ,
        buffer: None,
    }
}

/// The low 32 bits of a count.
pub open spec fn low_word(n: int) -> u32 {
    (n % 0x1_0000_0000) as u32
}

/// The build of a structure from triangles.
pub open spec fn triangle_build<V: GeometryVertex, I: GeometryIndex>(
    structure: Resource,
    scratch: Resource,
    indices: Resource,
    vertex_count: int,
    index_count: int,
) -> Build {
    Build {
        structure,
        scratch,
        level: BOTTOM_LEVEL,
        geometry: Geometry::Triangles {
            vertices: Resource::Vertices,
            indices,
            max_vertex: if low_word(vertex_count) == 0 {
                0
            } else {
                (low_word(vertex_count) - 1) as u32
            },
            vertex_stride: V::stride(),
            vertex_format: V::format(),
            index_type: I::index_type(),
        },
        primitive_count: low_word(index_count) / 3,
        flags: PREFER_FAST_TRACE,
    }
}

/// The build of the structure that rays are traced through.
pub open spec fn instance_build(count: u32) -> Build {
    Build {
        structure: Resource::TopStructure,
        scratch: Resource::TopScratch,
        level: TOP_LEVEL,
        geometry: Geometry::Instances { instances: Resource::Instances },
        primitive_count: count,
        flags: PREFER_FAST_TRACE,
    }
}

/// The steps that bring the triangles to the device.
pub open spec fn triangle_input_steps<V: GeometryVertex, I: GeometryIndex>(
    vertex_count: int,
    solid_count: int,
    sky_count: int,
) -> Seq<Step> {
    input_steps(
        Resource::VertexStaging,
        Resource::Vertices,
        (vertex_count * V::stride()) as u64,
        VERTEX_BUFFER,
    ) + input_steps(
        Resource::SolidIndexStaging,
        Resource::SolidIndices,
        (solid_count * I::size()) as u64,
        INDEX_BUFFER,
    ) + if sky_count == 0 {
        Seq::empty()
    } else {
        input_steps(
            Resource::SkyIndexStaging,
            Resource::SkyIndices,
            (sky_count * I::size()) as u64,
            INDEX_BUFFER,
        )
    }
}

/// The steps that build the structures of triangles.
pub open spec fn triangle_build_steps<V: GeometryVertex, I: GeometryIndex>(
    vertex_count: int,
    solid_count: int,
    sky_count: int,
) -> Seq<Step> {
    seq![
        Step::Build(
            triangle_build::<V, I>(
                Resource::SolidStructure,
                Resource::SolidScratch,
                Resource::SolidIndices,
                vertex_count,
                solid_count,
            ),
        ),
    ] + if sky_count == 0 {
        Seq::empty()
    } else {
        seq![
            Step::Build(
                triangle_build::<V, I>(
                    Resource::SkyStructure,
                    Resource::SkyScratch,
                    Resource::SkyIndices,
                    vertex_count,
                    sky_count,
                ),
            ),
        ]
    }
}

/// How many instances there are.
pub open spec fn instance_count(sky_count: int) -> u32 {
    if sky_count == 0 {
        1
    } else {
        2
    }
}

/// The steps that build the structure that rays are traced through.
pub open spec fn instance_steps(sky_count: int) -> Seq<Step> {
    seq![
        Step::Create {
            resource: Resource::Instances,
            buffer: Buffer::of(
                (instance_count(sky_count) * INSTANCE_BYTES) as u64,
                instance_usage(),
                HOST_VISIBLE | HOST_COHERENT,
            ),
        },
        Step::Store(Resource::Instances),
        Step::Build(instance_build(instance_count(sky_count))),
    ]
}

/// The steps that build all structures.
pub open spec fn acceleration_steps<V: GeometryVertex, I: GeometryIndex>(
    vertex_count: int,
    solid_count: int,
    sky_count: int,
) -> Seq<Step> {
    triangle_input_steps::<V, I>(vertex_count, solid_count, sky_count) + seq![
        Step::Barrier(upload_barrier()),
    ] + triangle_build_steps::<V, I>(vertex_count, solid_count, sky_count) + seq![
        Step::Barrier(build_barrier()),
    ] + instance_steps(sky_count)
}

impl Application {
    /// The alignment of the addresses that builds work at.
    pub open spec fn alignment(self) -> int {
        if self.scratch_offset_alignment == 0 {
            1
        } else {
            self.scratch_offset_alignment as int
        }
    }

    pub fn new(scratch_offset_alignment: u32, timestamp_valid_bits: u32) -> (r: Application)
        ensures
            r.scratch_offset_alignment == scratch_offset_alignment,
            r.timestamp_valid_bits == timestamp_valid_bits,
    {
        Application { scratch_offset_alignment, timestamp_valid_bits }
    }

    /// The buffers of a structure: the one that holds it, and the one that its build
    /// works with, which has room for an address to be aligned.
    pub fn create_as(&self, sizes: BuildSizes) -> (r: (Buffer, Buffer))
        requires
            sizes.scratch + self.alignment() - 1 <= u64::MAX,
        ensures
            r.0 == Buffer::local_spec(sizes.structure, structure_usage()),
            r.1 == Buffer::local_spec(
                (sizes.scratch + self.alignment() - 1) as u64,
                scratch_usage(),
            ),
    {
        let alignment: u64 = if self.scratch_offset_alignment == 0 {
            1
        } else {
            self.scratch_offset_alignment as u64
        };
        (
            Buffer::local(
                sizes.structure,
                ACCELERATION_STRUCTURE_STORAGE | SHADER_DEVICE_ADDRESS | STORAGE_BUFFER,
            ),
            Buffer::local(
                sizes.scratch + (alignment - 1),
                SHADER_DEVICE_ADDRESS | STORAGE_BUFFER,
            ),
        )
    }

    /// The address that a build works at, in a buffer at `address`.
    pub open spec fn scratch_address_spec(self, address: u64) -> u64 {
        let mask = (self.alignment() - 1) as u64;
        ((address + mask) as u64) & !mask
    }

    /// The address that a build works at, in a buffer at `address`.
    pub fn scratch_address(&self, address: u64) -> (r: u64)
        requires
            address + self.alignment() - 1 <= u64::MAX,
        ensures
            r == self.scratch_address_spec(address),
    {
        let alignment: u64 = if self.scratch_offset_alignment == 0 {
            1
        } else {
            self.scratch_offset_alignment as u64
        };
        let mask: u64 = alignment - 1;
        (address + mask) & !mask
    }

    /// The steps that bring the data of `bytes` bytes to the device.
    fn create_input_buffer(
        steps: &mut Vec<Step>,
        staging: Resource,
        resource: Resource,
        bytes: u64,
        usage: u32,
    )
        ensures
            final(steps)@ == old(steps)@ + input_steps(staging, resource, bytes, usage),
    {
        steps.push(Step::Create { resource: staging, buffer: Buffer::staging(bytes) });
        steps.push(Step::Store(staging));
        steps.push(
            Step::Create {
                resource,
                buffer: Buffer::local(
                    bytes,
                    SHADER_DEVICE_ADDRESS | ACCELERATION_STRUCTURE_BUILD_INPUT_READ_ONLY
                        | TRANSFER_DST | usage,
                ),
            },
        );
        steps.push(Step::Copy { from: staging, to: resource, size: bytes });
        assert(steps@ =~= old(steps)@ + input_steps(staging, resource, bytes, usage));
    }

    /// The build of a structure from triangles.
    fn create_triangle_geometry<V: GeometryVertex, I: GeometryIndex>(
        structure: Resource,
        scratch: Resource,
        indices: Resource,
        vertex_count: usize,
        index_count: usize,
    ) -> (r: Build)
        ensures
            r == triangle_build::<V, I>(
                structure,
                scratch,
                indices,
                vertex_count as int,
                index_count as int,
            ),
    {
        let vertices: u32 = (vertex_count as u64 % 0x1_0000_0000) as u32;
        let indices_low: u32 = (index_count as u64 % 0x1_0000_0000) as u32;
        Build {
            structure,
            scratch,
            level: BOTTOM_LEVEL,
            geometry: Geometry::Triangles {
                vertices: Resource::Vertices,
                indices,
                max_vertex: if vertices == 0 {
                    0
                } else {
                    vertices - 1
                },
                vertex_stride: V::vk_stride(),
                vertex_format: V::vk_format(),
                index_type: I::vk_index_type(),
            },
            primitive_count: indices_low / 3,
            flags: PREFER_FAST_TRACE,
        }
    }

    /// The steps that build the structure that rays are traced through.
    fn create_instance_geometry(steps: &mut Vec<Step>, sky: bool, Ghost(sky_count): Ghost<int>)
        requires
            sky == (sky_count != 0),
        ensures
            final(steps)@ == old(steps)@ + instance_steps(sky_count),
    {
        let count: u32 = if sky {
            2
        } else {
            1
        };
        steps.push(
            Step::Create {
                resource: Resource::Instances,
                buffer: Buffer::new(
                    count as u64 * INSTANCE_BYTES,
                    SHADER_DEVICE_ADDRESS | ACCELERATION_STRUCTURE_BUILD_INPUT_READ_ONLY,
                    HOST_VISIBLE | HOST_COHERENT,
                ),
            },
        );
        steps.push(Step::Store(Resource::Instances));
        steps.push(
            Step::Build(
                Build {
                    structure: Resource::TopStructure,
                    scratch: Resource::TopScratch,
                    level: TOP_LEVEL,
                    geometry: Geometry::Instances { instances: Resource::Instances },
                    primitive_count: count,
                    flags: PREFER_FAST_TRACE,
                },
            ),
        );
        assert(steps@ =~= old(steps)@ + instance_steps(sky_count));
    }

    /// The steps that build the acceleration structures: the triangles are brought
    /// to the device, structures are built of them, and of these the one that rays
    /// are traced through. Without triangles of the sky there is no structure of it.
    pub fn create_acceleration_structures<V: GeometryVertex, I: GeometryIndex>(
        &self,
        vertex_count: usize,
        solid_count: usize,
        sky_count: usize,
    ) -> (r: Vec<Step>)
        requires
            vertex_count * V::stride() <= u64::MAX,
            solid_count * I::size() <= u64::MAX,
            sky_count * I::size() <= u64::MAX,
        ensures
            r@ == acceleration_steps::<V, I>(
                vertex_count as int,
                solid_count as int,
                sky_count as int,
            ),
    {
        let mut steps: Vec<Step> = Vec::new();
        Self::create_input_buffer(
            &mut steps,
            Resource::VertexStaging,
            Resource::Vertices,
            vertex_count as u64 * V::vk_stride(),
            VERTEX_BUFFER,
        );
        Self::create_input_buffer(
            &mut steps,
            Resource::SolidIndexStaging,
            Resource::SolidIndices,
            solid_count as u64 * I::index_size(),
            INDEX_BUFFER,
        );
        if sky_count != 0 {
            Self::create_input_buffer(
                &mut steps,
                Resource::SkyIndexStaging,
                Resource::SkyIndices,
                sky_count as u64 * I::index_size(),
                INDEX_BUFFER,
            );
        }
        assert(steps@ =~= triangle_input_steps::<V, I>(
            vertex_count as int,
            solid_count as int,
            sky_count as int,
        ));
        steps.push(
            Step::Barrier(
                Barrier {
                    src_stage: ALL_TRANSFER,
                    src_access: TRANSFER_WRITE,
                    dst_stage: ACCELERATION_STRUCTURE_BUILD,
                    dst_access: ACCELERATION_STRUCTURE_READ | SHADER_READ,
                    buffer: None,
                },
            ),
        );
        let ghost before = steps@;
        steps.push(
            Step::Build(
                Self::create_triangle_geometry::<V, I>(
                    Resource::SolidStructure,
                    Resource::SolidScratch,
                    Resource::SolidIndices,
                    vertex_count,
                    solid_count,
                ),
            ),
        );
        if sky_count != 0 {
            steps.push(
                Step::Build(
                    Self::create_triangle_geometry::<V, I>(
                        Resource::SkyStructure,
                        Resource::SkyScratch,
                        Resource::SkyIndices,
                        vertex_count,
                        sky_count,
                    ),
                ),
            );
        }
        assert(steps@ =~= before + triangle_build_steps::<V, I>(
            vertex_count as int,
            solid_count as int,
            sky_count as int,
        ));
        steps.push(
            Step::Barrier(
                Barrier {
                    src_stage: ACCELERATION_STRUCTURE_BUILD,
                    src_access: ACCELERATION_STRUCTURE_WRITE,
                    dst_stage: ACCELERATION_STRUCTURE_BUILD,
                    dst_access: ACCELERATION_STRUCTURE_READ,
                    buffer: None,
                },
            ),
        );
        Self::create_instance_geometry(&mut steps, sky_count != 0, Ghost(sky_count as int));
        assert(steps@ =~= acceleration_steps::<V, I>(
            vertex_count as int,
            solid_count as int,
            sky_count as int,
        ));
        steps
    }
}

/// The address that a build works at is a multiple of the alignment, where that is
/// a power of two, and what the build needs from there on lies in its buffer.
pub proof fn scratch_is_aligned_and_fits(
    app: Application,
    sizes: BuildSizes,
    address: u64,
    power: nat,
)
    requires
        power < 32,
        app.alignment() == pow2(power),
        sizes.scratch + app.alignment() - 1 <= u64::MAX,
        address + app.alignment() - 1 <= u64::MAX,
    ensures
        ({
            let at = app.scratch_address_spec(address);
            let size = sizes.scratch + app.alignment() - 1;
            &&& at as int % app.alignment() == 0
            &&& address <= at
            &&& at + sizes.scratch <= address + size
        }),
{
    let a = app.alignment();
    let mask = (a - 1) as u64;
    let x = (address + mask) as u64;
    lemma_u64_low_bits_mask_is_mod(x, power);
    assert(x & mask == x as int % a);
    assert(x & !mask == x - (x & mask)) by (bit_vector);
    lemma_mod_bound(x as int, a);
    lemma_fundamental_div_mod(x as int, a);
    lemma_mod_multiples_basic(x as int / a, a);
    assert((x as int / a) * a == a * (x as int / a)) by (nonlinear_arith);
}

/// The flags of the barriers between builds.
proof fn lemma_build_flags()
    ensures
        steps::has(ALL_TRANSFER, ALL_TRANSFER),
        steps::has(TRANSFER_WRITE, TRANSFER_WRITE),
        steps::has(ACCELERATION_STRUCTURE_BUILD, ACCELERATION_STRUCTURE_BUILD),
        steps::has(ACCELERATION_STRUCTURE_READ | SHADER_READ, SHADER_READ),
        steps::has(ACCELERATION_STRUCTURE_WRITE, ACCELERATION_STRUCTURE_WRITE),
        steps::has(ACCELERATION_STRUCTURE_READ, ACCELERATION_STRUCTURE_READ),
{
    assert(forall|x: u64| #[trigger] (x & x) == x) by (bit_vector);
    assert((0x20_0000u64 | 0x20u64) & 0x20u64 == 0x20u64) by (bit_vector);
}

/// Every build waits for what it is built of: for the triangles to be on the
/// device, and for the structures of triangles to be built.
pub proof fn builds_wait_for_their_inputs<V: GeometryVertex, I: GeometryIndex>(
    vertex_count: int,
    solid_count: int,
    sky_count: int,
)
    ensures
        steps::ordered(acceleration_steps::<V, I>(vertex_count, solid_count, sky_count)),
{
    let all = acceleration_steps::<V, I>(vertex_count, solid_count, sky_count);
    let uploads = triangle_input_steps::<V, I>(vertex_count, solid_count, sky_count);
    let builds = triangle_build_steps::<V, I>(vertex_count, solid_count, sky_count);
    let b1 = uploads.len() as int;
    let b2 = b1 + 1 + builds.len();
    lemma_build_flags();
    assert(all[b1] == Step::Barrier(upload_barrier()));
    assert(all[b2] == Step::Barrier(build_barrier()));
    assert forall|i: int, j: int, r: Resource|
        #![trigger steps::write_of(all[i], r), steps::read_of(all[j], r)]
        #![trigger steps::write_of(all[i], r), steps::write_of(all[j], r)]
        0 <= i < j < all.len() && steps::write_of(all[i], r) is Some implies {
        &&& steps::read_of(all[j], r) is Some ==> steps::separated(
            all,
            i,
            j,
            r,
            steps::write_of(all[i], r)->0,
            steps::read_of(all[j], r)->0,
        )
        &&& steps::write_of(all[j], r) is Some ==> steps::separated(
            all,
            i,
            j,
            r,
            steps::write_of(all[i], r)->0,
            steps::write_of(all[j], r)->0,
        )
    } by {
        if i < b1 {
            assert(all[i] == uploads[i]);
            assert(r == Resource::Vertices || r == Resource::SolidIndices || r
                == Resource::SkyIndices);
            if j < b1 {
                assert(all[j] == uploads[j]);
            } else if b1 < j < b2 {
                assert(all[j] == builds[j - b1 - 1]);
            } else if b2 < j {
                assert(all[j] == instance_steps(sky_count)[j - b2 - 1]);
            }
        } else if i < b2 {
            assert(all[i] == builds[i - b1 - 1]);
            if j < b2 {
                assert(all[j] == builds[j - b1 - 1]);
            } else if b2 < j {
                assert(all[j] == instance_steps(sky_count)[j - b2 - 1]);
            }
        } else {
            assert(all[i] == instance_steps(sky_count)[i - b2 - 1]);
            assert(all[j] == instance_steps(sky_count)[j - b2 - 1]);
        }
    }
}

/// The builds and copies among the steps for the structures, and where they stand.
pub proof fn lemma_builds_and_copies<V: GeometryVertex, I: GeometryIndex>(v: int, s: int, k: int)
    ensures
        ({
            let all = acceleration_steps::<V, I>(v, s, k);
            let b = if k == 0 {
                8int
            } else {
                12
            };
            let n = if k == 0 {
                1int
            } else {
                2
            };
            &&& all.len() == b + n + 5
            &&& all[1] == Step::Store(Resource::VertexStaging)
            &&& all[3] matches Step::Copy { from, to, size } && from == Resource::VertexStaging && to
                == Resource::Vertices && size == (v * V::stride()) as u64
            &&& all[5] == Step::Store(Resource::SolidIndexStaging)
            &&& all[7] matches Step::Copy { from, to, size } && from == Resource::SolidIndexStaging
                && to == Resource::SolidIndices && size == (s * I::size()) as u64
            &&& k != 0 ==> all[9] == Step::Store(Resource::SkyIndexStaging)
            &&& k != 0 ==> (all[11] matches Step::Copy { from, to, size } && from
                == Resource::SkyIndexStaging && to == Resource::SkyIndices && size == (k
                * I::size()) as u64)
            &&& all[b + 1] == Step::Build(
                triangle_build::<V, I>(
                    Resource::SolidStructure,
                    Resource::SolidScratch,
                    Resource::SolidIndices,
                    v,
                    s,
                ),
            )
            &&& k != 0 ==> all[b + 2] == Step::Build(
                triangle_build::<V, I>(
                    Resource::SkyStructure,
                    Resource::SkyScratch,
                    Resource::SkyIndices,
                    v,
                    k,
                ),
            )
            &&& all[b + n + 2] matches Step::Create { resource, buffer } && resource
                == Resource::Instances && buffer.size == 64 * n
            &&& all[b + n + 3] == Step::Store(Resource::Instances)
            &&& all[b + n + 4] == Step::Build(instance_build(n as u32))
            &&& forall|i: int|
                0 <= i < all.len() && (#[trigger] all[i]) is Build ==> i == b + 1 || (k != 0 && i == b
                    + 2) || i == b + n + 4
            &&& forall|i: int|
                0 <= i < all.len() && (#[trigger] all[i]) is Copy ==> i == 3 || i == 7 || (k != 0 && i
                    == 11)
        }),
{
    let all = acceleration_steps::<V, I>(v, s, k);
    let uploads = triangle_input_steps::<V, I>(v, s, k);
    let builds = triangle_build_steps::<V, I>(v, s, k);
    let b = uploads.len() as int;
    let n = builds.len() as int;
    assert(b == if k == 0 { 8int } else { 12 });
    assert forall|i: int| 0 <= i < b implies #[trigger] all[i] == uploads[i] by {}
    assert forall|i: int| b < i < b + 1 + n implies #[trigger] all[i] == builds[i - b - 1] by {}
    assert forall|i: int| b + 1 + n < i < all.len() implies #[trigger] all[i] == instance_steps(
        k,
    )[i - b - n - 2] by {}
    assert(uploads[1] == Step::Store(Resource::VertexStaging));
    assert(uploads[3] is Copy);
    assert(uploads[5] == Step::Store(Resource::SolidIndexStaging));
    assert(uploads[7] is Copy);
    if k != 0 {
        assert(uploads[9] == Step::Store(Resource::SkyIndexStaging));
        assert(uploads[11] is Copy);
    }
    assert forall|i: int| 0 <= i < b && (#[trigger] all[i]) is Copy implies i == 3 || i == 7 || (k
        != 0 && i == 11) by {
        assert(all[i] == uploads[i]);
    }
    assert(all[b] is Barrier);
    assert(all[b + 1 + n] is Barrier);
}

/// Every structure is built once, and of what it is for. The solid structure is made of
/// the triangles of the solid indices, and the one of the sky, which is there if and only
/// if the sky has indices, of those of the sky; both over all vertices. The structure
/// that rays are traced through is made of as many instances as there are structures of
/// triangles. No two builds share what they work with.
pub proof fn structures_are_built_of_their_own<V: GeometryVertex, I: GeometryIndex>(
    vertex_count: int,
    solid_count: int,
    sky_count: int,
    i: int,
)
    requires
        0 <= i < acceleration_steps::<V, I>(vertex_count, solid_count, sky_count).len(),
    ensures
        ({
            let all = acceleration_steps::<V, I>(vertex_count, solid_count, sky_count);
            &&& all[i] matches Step::Build(b) ==> {
                &&& b.flags == 0x4
                &&& match b.structure {
                    Resource::SolidStructure => {
                        &&& b.scratch == Resource::SolidScratch
                        &&& b.level == 1
                        &&& b.geometry matches Geometry::Triangles { vertices, indices, .. }
                            && vertices == Resource::Vertices && indices == Resource::SolidIndices
                        &&& b.primitive_count == solid_count % 0x1_0000_0000 / 3
                    },
                    Resource::SkyStructure => {
                        &&& sky_count != 0
                        &&& b.scratch == Resource::SkyScratch
                        &&& b.level == 1
                        &&& b.geometry matches Geometry::Triangles { vertices, indices, .. }
                            && vertices == Resource::Vertices && indices == Resource::SkyIndices
                        &&& b.primitive_count == sky_count % 0x1_0000_0000 / 3
                    },
                    Resource::TopStructure => {
                        &&& b.scratch == Resource::TopScratch
                        &&& b.level == 0
                        &&& b.geometry matches Geometry::Instances { instances } && instances
                            == Resource::Instances
                        &&& b.primitive_count == if sky_count == 0 {
                            1int
                        } else {
                            2
                        }
                    },
                    _ => false,
                }
                &&& b.geometry matches Geometry::Triangles {
                    max_vertex,
                    vertex_stride,
                    vertex_format,
                    index_type,
                    ..
                } ==> {
                    &&& 0 < vertex_count <= u32::MAX ==> max_vertex == vertex_count - 1
                    &&& vertex_stride == V::stride()
                    &&& vertex_format == V::format()
                    &&& index_type == I::index_type()
                }
            }
            &&& exists|j: int|
                0 <= j < all.len() && (#[trigger] all[j] matches Step::Build(b) && b.structure
                    == Resource::SolidStructure)
            &&& sky_count != 0 ==> exists|j: int|
                0 <= j < all.len() && (#[trigger] all[j] matches Step::Build(b) && b.structure
                    == Resource::SkyStructure)
            &&& exists|j: int|
                0 <= j < all.len() && (#[trigger] all[j] matches Step::Build(b) && b.structure
                    == Resource::TopStructure)
            &&& forall|j: int|
                0 <= j < all.len() && all[i] is Build && (#[trigger] all[j]) is Build
                    && all[i]->Build_0.structure == all[j]->Build_0.structure ==> i == j
        }),
{
    lemma_builds_and_copies::<V, I>(vertex_count, solid_count, sky_count);
    let all = acceleration_steps::<V, I>(vertex_count, solid_count, sky_count);
    let b = if sky_count == 0 {
        8int
    } else {
        12
    };
    assert(all[b + 1] is Build);
    assert(all[all.len() - 1] is Build);
    if sky_count != 0 {
        assert(all[b + 2] is Build);
    }
}

/// What each structure of triangles is built of has been brought to the device for it:
/// the indices that its build reads are those that the host stored for it, three for each
/// triangle lie in the buffer, and so do the vertices. Every buffer of indices that is
/// brought over is read by exactly one build.
pub proof fn indices_are_read_where_they_were_put<V: GeometryVertex, I: GeometryIndex>(
    vertex_count: int,
    solid_count: int,
    sky_count: int,
    i: int,
)
    requires
        0 <= vertex_count,
        0 <= solid_count,
        0 <= sky_count,
        vertex_count * V::stride() <= u64::MAX,
        solid_count * I::size() <= u64::MAX,
        sky_count * I::size() <= u64::MAX,
        0 <= i < acceleration_steps::<V, I>(vertex_count, solid_count, sky_count).len(),
    ensures
        ({
            let all = acceleration_steps::<V, I>(vertex_count, solid_count, sky_count);
            &&& all[i] matches Step::Build(b) ==> (b.geometry matches Geometry::Triangles {
                indices,
                vertices,
                ..
            } ==> {
                &&& exists|c: int|
                    0 <= c < i && (#[trigger] all[c] matches Step::Copy { from, to, size } && {
                        &&& to == indices
                        &&& 3 * b.primitive_count * I::size() <= size
                        &&& b.structure == Resource::SolidStructure ==> from
                            == Resource::SolidIndexStaging && size == solid_count * I::size()
                        &&& b.structure == Resource::SkyStructure ==> from
                            == Resource::SkyIndexStaging && size == sky_count * I::size()
                    })
                &&& exists|c: int|
                    0 <= c < i && (#[trigger] all[c] matches Step::Copy { from, to, size } && {
                        &&& to == vertices
                        &&& from == Resource::VertexStaging
                        &&& size == vertex_count * V::stride()
                    })
            })
            &&& all[i] matches Step::Copy { from, to, .. } ==> {
                &&& exists|f: int| 0 <= f < i && #[trigger] all[f] == Step::Store(from)
                &&& to == Resource::Vertices || exists|j: int|
                    {
                        &&& i < j < all.len()
                        &&& #[trigger] reads_indices(all[j], to)
                        &&& forall|l: int|
                            0 <= l < all.len() && #[trigger] reads_indices(all[l], to) ==> l == j
                    }
            }
        }),
{
    lemma_builds_and_copies::<V, I>(vertex_count, solid_count, sky_count);
    let all = acceleration_steps::<V, I>(vertex_count, solid_count, sky_count);
    let b = if sky_count == 0 {
        8int
    } else {
        12
    };
    let z = I::size() as int;
    assert(all[1] is Store && all[3] is Copy && all[5] is Store && all[7] is Copy);
    if sky_count != 0 {
        assert(all[9] is Store && all[11] is Copy);
        lemma_triangles_fit(sky_count, z);
        assert(reads_indices(all[b + 2], Resource::SkyIndices));
    }
    lemma_triangles_fit(solid_count, z);
    vstd::arithmetic::mul::lemma_mul_nonnegative(vertex_count, V::stride() as int);
    vstd::arithmetic::mul::lemma_mul_nonnegative(solid_count, z);
    vstd::arithmetic::mul::lemma_mul_nonnegative(sky_count, z);
    assert(reads_indices(all[b + 1], Resource::SolidIndices));
}

/// The step builds a structure from the indices in `r`.
pub open spec fn reads_indices(step: Step, r: Resource) -> bool {
    step matches Step::Build(b) && (b.geometry matches Geometry::Triangles { indices, .. } && indices
        == r)
}

/// The indices of whole triangles are no more than all.
proof fn lemma_triangles_fit(count: int, size: int)
    requires
        0 <= count,
        0 <= size,
    ensures
        3 * (count % 0x1_0000_0000 / 3) * size <= count * size,
{
    let t = 3 * (count % 0x1_0000_0000 / 3);
    vstd::arithmetic::mul::lemma_mul_inequality(t, count, size);
}

/// The buffer of the instances has room for as many as the build takes: one for each
/// structure of triangles, of sixty-four bytes.
pub proof fn instances_fit<V: GeometryVertex, I: GeometryIndex>(
    vertex_count: int,
    solid_count: int,
    sky_count: int,
    i: int,
)
    requires
        0 <= i < acceleration_steps::<V, I>(vertex_count, solid_count, sky_count).len(),
    ensures
        ({
            let all = acceleration_steps::<V, I>(vertex_count, solid_count, sky_count);
            all[i] matches Step::Build(b) ==> (b.geometry matches Geometry::Instances { instances }
                ==> {
                &&& exists|c: int|
                    0 <= c < i && (#[trigger] all[c] matches Step::Create { resource, buffer } && {
                        &&& resource == instances
                        &&& buffer.size == 64 * b.primitive_count
                    })
                &&& exists|f: int| 0 <= f < i && #[trigger] all[f] == Step::Store(instances)
            })
        }),
{
    lemma_builds_and_copies::<V, I>(vertex_count, solid_count, sky_count);
    let all = acceleration_steps::<V, I>(vertex_count, solid_count, sky_count);
    assert(all[all.len() - 3] is Create);
    assert(all[all.len() - 2] is Store);
}

/// An instance stands where its structure is: the three rows of its transformation have
/// a one where row and column are the same, and else zeros.
pub proof fn instances_stay_in_place(row: int, column: int)
    requires
        0 <= row < 3,
        0 <= column < 4,
    ensures
        identity().len() == 12,
        identity()[4 * row + column] == if row == column {
            single::ONE
        } else {
            0
        },
{
}

/// The room for a build that works at an aligned address is no larger than that takes:
/// less than one step of the alignment is left over. Without an alignment nothing is.
pub proof fn scratch_is_not_wasted(app: Application, address: u64, power: nat)
    requires
        power < 32,
        app.alignment() == pow2(power),
        address + app.alignment() - 1 <= u64::MAX,
    ensures
        app.alignment() == if app.scratch_offset_alignment <= 1 {
            1
        } else {
            app.scratch_offset_alignment as int
        },
        address <= app.scratch_address_spec(address) < address + app.alignment(),
        address as int % app.alignment() == 0 ==> app.scratch_address_spec(address) == address,
{
    let a = app.alignment();
    let at = app.scratch_address_spec(address) as int;
    scratch_is_aligned_and_fits(app, BuildSizes { structure: 0, scratch: 0 }, address, power);
    let x = address as int;
    if x % a == 0 && at != x {
        lemma_fundamental_div_mod(x, a);
        lemma_fundamental_div_mod(at, a);
        let (p, q) = (x / a, at / a);
        assert(false) by (nonlinear_arith)
            requires
                x == a * p,
                at == a * q,
                x < at < x + a,
                a > 0,
        ;
    }
}

/// A buffer has the given size, is for the given uses, and lies in memory with the given
/// properties.
pub open spec fn is_buffer(b: Buffer, size: int, usage: u32, memory: u32) -> bool {
    b.size == size && b.usage == usage && b.memory_properties == memory
}

/// The buffers that the structures take have room for all that goes into them, and are
/// made for it: what is copied from is filled by the host, vertices and indices lie on the
/// device and builds read them from their addresses, and so they do the instances, which
/// the host fills in place.
pub proof fn inputs_have_room<V: GeometryVertex, I: GeometryIndex>(
    vertex_count: int,
    solid_count: int,
    sky_count: int,
    i: int,
)
    requires
        0 <= vertex_count,
        0 <= solid_count,
        0 <= sky_count,
        vertex_count * V::stride() <= u64::MAX,
        solid_count * I::size() <= u64::MAX,
        sky_count * I::size() <= u64::MAX,
        0 <= i < acceleration_steps::<V, I>(vertex_count, solid_count, sky_count).len(),
    ensures
        acceleration_steps::<V, I>(vertex_count, solid_count, sky_count)[i] matches Step::Create {
            resource,
            buffer,
        } ==> {
            let vertices = vertex_count * V::stride();
            let solid = solid_count * I::size();
            let sky = sky_count * I::size();
            match resource {
                Resource::VertexStaging => is_buffer(buffer, vertices, 0x1, 0x6),
                Resource::Vertices => is_buffer(buffer, vertices, 0xa_0082, 0x1),
                Resource::SolidIndexStaging => is_buffer(buffer, solid, 0x1, 0x6),
                Resource::SolidIndices => is_buffer(buffer, solid, 0xa_0042, 0x1),
                Resource::SkyIndexStaging => sky_count > 0 && is_buffer(buffer, sky, 0x1, 0x6),
                Resource::SkyIndices => sky_count > 0 && is_buffer(buffer, sky, 0xa_0042, 0x1),
                Resource::Instances => is_buffer(
                    buffer,
                    if sky_count == 0 {
                        64
                    } else {
                        128
                    },
                    0xa_0000,
                    0x6,
                ),
                _ => false,
            }
        },
{
    let all = acceleration_steps::<V, I>(vertex_count, solid_count, sky_count);
    let uploads = triangle_input_steps::<V, I>(vertex_count, solid_count, sky_count);
    let builds = triangle_build_steps::<V, I>(vertex_count, solid_count, sky_count);
    let b = uploads.len() as int;
    let n = builds.len() as int;
    lemma_builds_and_copies::<V, I>(vertex_count, solid_count, sky_count);
    vstd::arithmetic::mul::lemma_mul_nonnegative(vertex_count, V::stride() as int);
    vstd::arithmetic::mul::lemma_mul_nonnegative(solid_count, I::size() as int);
    vstd::arithmetic::mul::lemma_mul_nonnegative(sky_count, I::size() as int);
    assert(0x2_0000u32 | 0x8_0000u32 | 0x2u32 | 0x80u32 == 0xa_0082u32 && 0x2_0000u32 | 0x8_0000u32
        | 0x2u32 | 0x40u32 == 0xa_0042u32 && 0x2_0000u32 | 0x8_0000u32 == 0xa_0000u32 && 0x2u32
        | 0x4u32 == 0x6u32) by (bit_vector);
    if i < b {
        assert(all[i] == uploads[i]);
    } else if b < i < b + 1 + n {
        assert(all[i] == builds[i - b - 1]);
    } else if b + 1 + n < i {
        assert(all[i] == instance_steps(sky_count)[i - b - n - 2]);
    }
}

/// A structure that is made at once has its buffers before it is made, is built between
/// the beginning and the end of commands of their own, and these are waited for before
/// they are given back and what the build worked with is given up. The structure and its
/// buffer are kept.
pub proof fn structures_outlive_their_builds(
    structure: Resource,
    scratch: Resource,
    a: Buffer,
    b: Buffer,
    i: int,
    j: int,
)
    requires
        structure != scratch,
        0 <= i < structure_steps(structure, scratch, a, b).len(),
        0 <= j < structure_steps(structure, scratch, a, b).len(),
    ensures
        ({
            let all = structure_steps(structure, scratch, a, b);
            &&& all[0] == StructureStep::CreateBuffer { resource: structure, buffer: a }
            &&& all[i] == (StructureStep::CreateBuffer { resource: scratch, buffer: b }) && all[j]
                is Build ==> i < j
            &&& all[i] is CreateStructure ==> all[i] == StructureStep::CreateStructure(structure) && (
            all[j] is Build ==> i < j)
            &&& all[i] is AllocateCommands && all[j] is Begin ==> i < j
            &&& all[i] is Begin && all[j] is Build ==> i < j
            &&& all[i] is Build && all[j] is End ==> i < j
            &&& all[i] is End && all[j] is Submit ==> i < j
            &&& all[i] is Submit && all[j] is WaitIdle ==> i < j
            &&& all[i] is WaitIdle && (all[j] is FreeCommands || all[j] is Destroy) ==> i < j
            &&& all[i] is Destroy ==> all[i] == StructureStep::Destroy(scratch)
            &&& all[5] is Build && all[8] is WaitIdle && all[9] is FreeCommands && all[10] is Destroy
        }),
{
}

/// The buffers of a structure can hold one and have an address, and those that builds work
/// with have an address too.
pub proof fn structures_have_addresses()
    ensures
        structure_usage() == 0x12_0020,
        scratch_usage() == 0x2_0020,
{
    assert(0x10_0000u32 | 0x2_0000u32 | 0x20u32 == 0x12_0020u32 && 0x2_0000u32 | 0x20u32
        == 0x2_0020u32) by (bit_vector);
}

/// An instance hides nothing of its structure: triangles are hit from both sides, and each
/// corner stays at its place.
pub proof fn instances_hide_nothing(
    instance: Instance,
    structure: Resource,
    mask: u8,
    row: int,
    column: int,
)
    requires
        instance.shows(structure, mask),
        0 <= row < 3,
        0 <= column < 4,
    ensures
        instance.structure == structure,
        instance.mask == mask,
        instance.flags == 0x1,
        instance.custom_index == 0,
        instance.transform@[4 * row + column] == if row == column {
            0x3f80_0000u32
        } else {
            0
        },
{
    instances_stay_in_place(row, column);
}

} // verus!
