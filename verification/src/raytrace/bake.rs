//! Lighting a map, from its texels to the colours that come back.

use vstd::prelude::*;

use crate::raytrace::acceleration;
use crate::raytrace::acceleration::Application;
use crate::raytrace::lighting;
use crate::raytrace::steps;
use crate::raytrace::steps::{Barrier, Resource, Step, Use};
use crate::raytrace::steps::{
    ACCELERATION_STRUCTURE_BUILD, ACCELERATION_STRUCTURE_READ, ACCELERATION_STRUCTURE_WRITE,
    ALL_TRANSFER, COMPUTE_SHADER, RAY_TRACING_SHADER, SHADER_READ, TRANSFER_WRITE,
};
use crate::sampling::ComputeLayout;
use crate::vulkan::buffer;
use crate::vulkan::buffer::{
    Buffer, HOST_COHERENT, HOST_VISIBLE, SHADER_DEVICE_ADDRESS, STORAGE_BUFFER, TRANSFER_DST,
    TRANSFER_SRC,
};
use crate::vulkan::geometry::{GeometryIndex, GeometryVertex};

verus! {

/// The bytes of a texel.
pub const TEXEL_BYTES: u64 = 32;

/// The bytes of a colour.
pub const COLOR_BYTES: u64 = 16;

/// The bytes of the light of the sky.
pub const SKY_BYTES: u64 = 48;

/// The bytes of a light.
pub const LIGHT_BYTES: u64 = 80;

/// Why a map cannot be lit.
#[derive(Debug, Clone, Copy, PartialEq, Eq, Structural)]
pub enum BakeError {
    NoTexels,
}

impl BakeError {
    /// The error as a message to the user.
    pub fn message(&self) -> (r: &'static str)
        ensures
            r@ == "no texels"@,
    {
        "no texels"
    }
}

/// What buffers that shaders read from are used for.
pub open spec fn shader_input_usage() -> u32 {
    STORAGE_BUFFER | SHADER_DEVICE_ADDRESS | TRANSFER_DST
}

/// What the buffer that shaders write to is used for.
pub open spec fn shader_output_usage() -> u32 {
    STORAGE_BUFFER | SHADER_DEVICE_ADDRESS | TRANSFER_SRC
}

/// The steps that bring the texels to the device, and make room for the colours.
pub open spec fn texel_steps(texel_count: int) -> Seq<Step> {
    let texels = (TEXEL_BYTES * texel_count) as u64;
    let colors = (COLOR_BYTES * texel_count) as u64;
    seq![
        Step::Create { resource: Resource::TexelStaging, buffer: Buffer::staging_spec(texels) },
        Step::Store(Resource::TexelStaging),
        Step::Begin,
        Step::Create {
            resource: Resource::Texels,
            buffer: Buffer::local_spec(texels, shader_input_usage()),
        },
        Step::Copy { from: Resource::TexelStaging, to: Resource::Texels, size: texels },
        Step::Create {
            resource: Resource::Output,
            buffer: Buffer::local_spec(colors, shader_output_usage()),
        },
        Step::Create {
            resource: Resource::Readback,
            buffer: Buffer::of(colors, TRANSFER_DST, HOST_VISIBLE | HOST_COHERENT),
        },
    ]
}

/// The bytes of the lights. A buffer has one byte at least.
pub open spec fn lights_size(light_count: int) -> u64 {
    if light_count == 0 {
        1
    } else {
        (LIGHT_BYTES * light_count) as u64
    }
}

/// Shaders wait for copies and builds: those that trace rays in a pipeline of their
/// own, and those of the passes, which trace them in compute shaders.
pub open spec fn trace_barrier() -> Barrier {
    Barrier {
        src_stage: ACCELERATION_STRUCTURE_BUILD | ALL_TRANSFER,
        src_access: ACCELERATION_STRUCTURE_WRITE | TRANSFER_WRITE,
        dst_stage: RAY_TRACING_SHADER | COMPUTE_SHADER,
        dst_access: ACCELERATION_STRUCTURE_READ | SHADER_READ,
        buffer: None,
    }
}

/// The steps that bring the lights to the device.
pub open spec fn light_steps(light_count: int) -> Seq<Step> {
    let size = lights_size(light_count);
    seq![
        Step::Create { resource: Resource::SkyStaging, buffer: Buffer::staging_spec(SKY_BYTES) },
        Step::Store(Resource::SkyStaging),
        Step::Create {
            resource: Resource::Sky,
            buffer: Buffer::local_spec(SKY_BYTES, shader_input_usage()),
        },
        Step::Copy { from: Resource::SkyStaging, to: Resource::Sky, size: SKY_BYTES },
        Step::Create { resource: Resource::LightStaging, buffer: Buffer::staging_spec(size) },
        Step::Create {
            resource: Resource::Lights,
            buffer: Buffer::local_spec(size, shader_input_usage()),
        },
    ] + (if light_count == 0 {
        Seq::empty()
    } else {
        seq![
            Step::Store(Resource::LightStaging),
            Step::Copy { from: Resource::LightStaging, to: Resource::Lights, size },
        ]
    }) + seq![Step::Barrier(trace_barrier())]
}

/// How much there is of everything.
#[derive(Debug, Clone, Copy, PartialEq, Eq, Structural)]
pub struct Counts {
    pub texels: usize,
    pub vertices: usize,
    pub solid_indices: usize,
    pub sky_indices: usize,
    pub lights: usize,
}

impl Counts {
    /// All sizes in bytes fit.
    pub open spec fn fit<V: GeometryVertex, I: GeometryIndex>(self) -> bool {
        &&& TEXEL_BYTES * self.texels <= u64::MAX
        &&& LIGHT_BYTES * self.lights <= u64::MAX
        &&& self.vertices * V::stride() <= u64::MAX
        &&& self.solid_indices * I::size() <= u64::MAX
        &&& self.sky_indices * I::size() <= u64::MAX
    }

    /// Whether all sizes in bytes fit.
    pub fn can_fit<V: GeometryVertex, I: GeometryIndex>(&self) -> (r: bool)
        ensures
            r == self.fit::<V, I>(),
    {
        (self.texels as u64).checked_mul(TEXEL_BYTES).is_some() && (self.lights as u64).checked_mul(
            LIGHT_BYTES,
        ).is_some() && (self.vertices as u64).checked_mul(V::vk_stride()).is_some() && (
        self.solid_indices as u64).checked_mul(I::index_size()).is_some() && (
        self.sky_indices as u64).checked_mul(I::index_size()).is_some()
    }
}

/// The steps that bring everything to the device, up to the point at which shaders
/// can use it.
pub open spec fn setup_steps<V: GeometryVertex, I: GeometryIndex>(c: Counts) -> Seq<Step> {
    texel_steps(c.texels as int) + acceleration::acceleration_steps::<V, I>(
        c.vertices as int,
        c.solid_indices as int,
        c.sky_indices as int,
    ) + light_steps(c.lights as int)
}

/// The steps that light the texels, once everything is on the device, and bring the
/// colours back.
pub open spec fn trace_steps(layout: ComputeLayout, texel_count: int) -> Seq<Step> {
    seq![Step::CreatePipelines, Step::CreateDescriptorSet] + lighting::lighting_steps(
        layout.groups_x(texel_count % 0x1_0000_0000) as u32,
        layout.groups_y(texel_count % 0x1_0000_0000) as u32,
        (COLOR_BYTES * texel_count) as u64,
    ) + seq![Step::DropTemporaries, Step::Load(Resource::Readback)]
}

/// The steps that light a map.
pub open spec fn bake_steps<V: GeometryVertex, I: GeometryIndex>(
    layout: ComputeLayout,
    c: Counts,
) -> Seq<Step> {
    setup_steps::<V, I>(c) + trace_steps(layout, c.texels as int)
}

impl Application {
    /// The steps that bring the texels to the device, and make room for the colours.
    fn upload_texels(texel_count: usize) -> (r: Vec<Step>)
        requires
            TEXEL_BYTES * texel_count <= u64::MAX,
        ensures
            r@ == texel_steps(texel_count as int),
    {
        let texels: u64 = TEXEL_BYTES * texel_count as u64;
        let colors: u64 = COLOR_BYTES * texel_count as u64;
        let mut steps: Vec<Step> = Vec::new();
        steps.push(
            Step::Create { resource: Resource::TexelStaging, buffer: Buffer::staging(texels) },
        );
        steps.push(Step::Store(Resource::TexelStaging));
        steps.push(Step::Begin);
        steps.push(
            Step::Create {
                resource: Resource::Texels,
                buffer: Buffer::local(
                    texels,
                    STORAGE_BUFFER | SHADER_DEVICE_ADDRESS | TRANSFER_DST,
                ),
            },
        );
        steps.push(
            Step::Copy { from: Resource::TexelStaging, to: Resource::Texels, size: texels },
        );
        steps.push(
            Step::Create {
                resource: Resource::Output,
                buffer: Buffer::local(
                    colors,
                    STORAGE_BUFFER | SHADER_DEVICE_ADDRESS | TRANSFER_SRC,
                ),
            },
        );
        steps.push(
            Step::Create {
                resource: Resource::Readback,
                buffer: Buffer::new(colors, TRANSFER_DST, HOST_VISIBLE | HOST_COHERENT),
            },
        );
        assert(steps@ =~= texel_steps(texel_count as int));
        steps
    }

    /// The steps that bring the lights to the device.
    fn upload_lights(light_count: usize) -> (r: Vec<Step>)
        requires
            LIGHT_BYTES * light_count <= u64::MAX,
        ensures
            r@ == light_steps(light_count as int),
    {
        let size: u64 = if light_count == 0 {
            1
        } else {
            LIGHT_BYTES * light_count as u64
        };
        let mut steps: Vec<Step> = Vec::new();
        steps.push(
            Step::Create { resource: Resource::SkyStaging, buffer: Buffer::staging(SKY_BYTES) },
        );
        steps.push(Step::Store(Resource::SkyStaging));
        steps.push(
            Step::Create {
                resource: Resource::Sky,
                buffer: Buffer::local(
                    SKY_BYTES,
                    STORAGE_BUFFER | SHADER_DEVICE_ADDRESS | TRANSFER_DST,
                ),
            },
        );
        steps.push(
            Step::Copy { from: Resource::SkyStaging, to: Resource::Sky, size: SKY_BYTES },
        );
        steps.push(
            Step::Create { resource: Resource::LightStaging, buffer: Buffer::staging(size) },
        );
        steps.push(
            Step::Create {
                resource: Resource::Lights,
                buffer: Buffer::local(size, STORAGE_BUFFER | SHADER_DEVICE_ADDRESS | TRANSFER_DST),
            },
        );
        if light_count != 0 {
            steps.push(Step::Store(Resource::LightStaging));
            steps.push(Step::Copy { from: Resource::LightStaging, to: Resource::Lights, size });
        }
        steps.push(
            Step::Barrier(
                Barrier {
                    src_stage: ACCELERATION_STRUCTURE_BUILD | ALL_TRANSFER,
                    src_access: ACCELERATION_STRUCTURE_WRITE | TRANSFER_WRITE,
                    dst_stage: RAY_TRACING_SHADER | COMPUTE_SHADER,
                    dst_access: ACCELERATION_STRUCTURE_READ | SHADER_READ,
                    buffer: None,
                },
            ),
        );
        assert(steps@ =~= light_steps(light_count as int));
        steps
    }

    /// The steps that light a map: texels, triangles and lights are brought to the
    /// device, the texels are lit there, and their colours come back. A map without
    /// texels cannot be lit.
    pub fn run<V: GeometryVertex, I: GeometryIndex>(
        &self,
        layout: &ComputeLayout,
        counts: Counts,
    ) -> (r: Result<Vec<Step>, BakeError>)
        requires
            layout.wf(),
            counts.fit::<V, I>(),
        ensures
            match r {
                Ok(steps) => counts.texels > 0 && steps@ == bake_steps::<V, I>(*layout, counts),
                Err(e) => counts.texels == 0 && e == BakeError::NoTexels,
            },
    {
        if counts.texels == 0 {
            return Err(BakeError::NoTexels);
        }
        let mut steps: Vec<Step> = Self::upload_texels(counts.texels);
        let mut structures: Vec<Step> = self.create_acceleration_structures::<V, I>(
            counts.vertices,
            counts.solid_indices,
            counts.sky_indices,
        );
        steps.append(&mut structures);
        let mut lights: Vec<Step> = Self::upload_lights(counts.lights);
        steps.append(&mut lights);
        steps.push(Step::CreatePipelines);
        steps.push(Step::CreateDescriptorSet);
        let mut passes: Vec<Step> = self.dispatch_lighting(
            layout,
            counts.texels,
            COLOR_BYTES * counts.texels as u64,
        );
        steps.append(&mut passes);
        steps.push(Step::DropTemporaries);
        steps.push(Step::Load(Resource::Readback));
        assert(steps@ =~= bake_steps::<V, I>(*layout, counts));
        Ok(steps)
    }
}

/// The flags of the buffers.
proof fn lemma_usages()
    ensures
        buffer::has_flags(TRANSFER_SRC, TRANSFER_SRC),
        buffer::has_flags(TRANSFER_DST, TRANSFER_DST),
        buffer::has_flags(shader_input_usage(), TRANSFER_DST),
        buffer::has_flags(shader_output_usage(), TRANSFER_SRC),
        forall|u: u32| buffer::has_flags(#[trigger] acceleration::input_usage(u), TRANSFER_DST),
{
    assert(0x1u32 & 0x1u32 == 0x1u32 && 0x2u32 & 0x2u32 == 0x2u32) by (bit_vector);
    assert((0x20u32 | 0x2_0000u32 | 0x2u32) & 0x2u32 == 0x2u32) by (bit_vector);
    assert((0x20u32 | 0x2_0000u32 | 0x1u32) & 0x1u32 == 0x1u32) by (bit_vector);
    assert forall|u: u32| buffer::has_flags(
        #[trigger] acceleration::input_usage(u),
        TRANSFER_DST,
    ) by {
        assert((0x2_0000u32 | 0x8_0000u32 | 0x2u32 | u) & 0x2u32 == 0x2u32) by (bit_vector);
    }
}

/// The copies of two lists of steps fit in both together.
proof fn lemma_copies_join(x: Seq<Step>, y: Seq<Step>)
    requires
        steps::copies_fit(x),
        forall|i: int|
            0 <= i < y.len() ==> (#[trigger] y[i] matches Step::Copy { from, to, size } ==> {
                &&& steps::ready(y, i, from, TRANSFER_SRC, size) || steps::ready(
                    x,
                    x.len() as int,
                    from,
                    TRANSFER_SRC,
                    size,
                )
                &&& steps::ready(y, i, to, TRANSFER_DST, size) || steps::ready(
                    x,
                    x.len() as int,
                    to,
                    TRANSFER_DST,
                    size,
                )
            }),
    ensures
        steps::copies_fit(x + y),
{
    let all = x + y;
    assert forall|i: int| 0 <= i < all.len() implies (#[trigger] all[i] matches Step::Copy {
        from,
        to,
        size,
    } ==> {
        &&& steps::ready(all, i, from, TRANSFER_SRC, size)
        &&& steps::ready(all, i, to, TRANSFER_DST, size)
    }) by {
        if let Step::Copy { from, to, size } = all[i] {
            if i < x.len() {
                assert(all[i] == x[i]);
                steps::lemma_ready_before(x, y, i, from, TRANSFER_SRC, size);
                steps::lemma_ready_before(x, y, i, to, TRANSFER_DST, size);
            } else {
                assert(all[i] == y[i - x.len()]);
                steps::lemma_ready_behind(x, y, i - x.len(), from, TRANSFER_SRC, size);
                steps::lemma_ready_behind(x, y, i - x.len(), to, TRANSFER_DST, size);
            }
        }
    }
}

/// The copies of the triangles fit.
proof fn lemma_triangle_copies<V: GeometryVertex, I: GeometryIndex>(c: Counts)
    ensures
        steps::copies_fit(
            acceleration::acceleration_steps::<V, I>(
                c.vertices as int,
                c.solid_indices as int,
                c.sky_indices as int,
            ),
        ),
{
    let (v, s, k) = (c.vertices as int, c.solid_indices as int, c.sky_indices as int);
    let all = acceleration::acceleration_steps::<V, I>(v, s, k);
    let uploads = acceleration::triangle_input_steps::<V, I>(v, s, k);
    let builds = acceleration::triangle_build_steps::<V, I>(v, s, k);
    lemma_usages();
    assert forall|i: int| 0 <= i < all.len() implies (#[trigger] all[i] matches Step::Copy {
        from,
        to,
        size,
    } ==> {
        &&& steps::ready(all, i, from, TRANSFER_SRC, size)
        &&& steps::ready(all, i, to, TRANSFER_DST, size)
    }) by {
        let b1 = uploads.len();
        let b2 = b1 + 1 + builds.len();
        if i < b1 {
            assert(all[i] == uploads[i]);
            if all[i] is Copy {
                assert(all[i - 3] == uploads[i - 3]);
                assert(all[i - 1] == uploads[i - 1]);
                assert(all[i - 3] is Create);
                assert(all[i - 1] is Create);
            }
        } else if b1 < i < b2 {
            assert(all[i] == builds[i - b1 - 1]);
        } else if b2 < i {
            assert(all[i] == acceleration::instance_steps(k)[i - b2 - 1]);
        }
    }
}

/// Every copy in lighting a map is between buffers that were created before for
/// it, and fits in both.
pub proof fn all_copies_fit<V: GeometryVertex, I: GeometryIndex>(layout: ComputeLayout, c: Counts)
    ensures
        steps::copies_fit(bake_steps::<V, I>(layout, c)),
{
    lemma_usages();
    let texels = texel_steps(c.texels as int);
    let triangles = acceleration::acceleration_steps::<V, I>(
        c.vertices as int,
        c.solid_indices as int,
        c.sky_indices as int,
    );
    let lights = light_steps(c.lights as int);
    let size = (COLOR_BYTES * c.texels) as u64;
    let passes = trace_steps(layout, c.texels as int);
    assert(texels[0] is Create && texels[3] is Create);
    assert(texels[5] is Create && texels[6] is Create);
    assert(lights[0] is Create && lights[2] is Create);
    assert(lights[4] is Create && lights[5] is Create);
    assert(steps::copies_fit(texels));
    assert(steps::copies_fit(lights));
    lemma_triangle_copies::<V, I>(c);
    lemma_copies_join(texels, triangles);
    lemma_copies_join(texels + triangles, lights);
    let n = texels.len() as int;
    assert(steps::ready(texels, n, Resource::Output, TRANSFER_SRC, size));
    assert(steps::ready(texels, n, Resource::Readback, TRANSFER_DST, size));
    let x = texels + triangles;
    let t = triangles.len() as int;
    let l = lights.len() as int;
    steps::lemma_ready_behind(texels, triangles, t, Resource::Output, TRANSFER_SRC, size);
    steps::lemma_ready_behind(texels, triangles, t, Resource::Readback, TRANSFER_DST, size);
    steps::lemma_ready_behind(x, lights, l, Resource::Output, TRANSFER_SRC, size);
    steps::lemma_ready_behind(x, lights, l, Resource::Readback, TRANSFER_DST, size);
    lemma_copies_join(x + lights, passes);
}

/// The flags of the barrier before the shaders.
proof fn lemma_trace_flags()
    ensures
        steps::has(trace_barrier().src_stage, ALL_TRANSFER),
        steps::has(trace_barrier().src_stage, ACCELERATION_STRUCTURE_BUILD),
        steps::has(trace_barrier().src_access, TRANSFER_WRITE),
        steps::has(trace_barrier().src_access, ACCELERATION_STRUCTURE_WRITE),
        steps::has(trace_barrier().dst_stage, RAY_TRACING_SHADER),
        steps::has(trace_barrier().dst_stage, COMPUTE_SHADER),
        steps::has(trace_barrier().dst_access, ACCELERATION_STRUCTURE_READ | SHADER_READ),
        steps::has(trace_barrier().dst_access, ACCELERATION_STRUCTURE_READ),
        steps::has(trace_barrier().dst_access, SHADER_READ),
{
    assert((0x20_0000u64 | 0x800u64) & 0x800u64 == 0x800u64 && (0x20_0000u64 | 0x800u64)
        & 0x20_0000u64 == 0x20_0000u64 && (0x20_0000u64 | 0x20u64) & 0x20u64 == 0x20u64 && (
    0x20_0000u64 | 0x20u64) & 0x20_0000u64 == 0x20_0000u64 && (0x200_0000u64 | 0x1000u64) & 0x1000u64
        == 0x1000u64 && (0x200_0000u64 | 0x1000u64) & 0x200_0000u64 == 0x200_0000u64 && (
    0x40_0000u64 | 0x1000u64) & 0x1000u64 == 0x1000u64 && (0x40_0000u64 | 0x1000u64) & 0x40_0000u64
        == 0x40_0000u64) by (bit_vector);
    assert(forall|x: u64| #[trigger] (x & x) == x) by (bit_vector);
}

/// Whatever has been brought to the device or built there is there for all shaders that
/// come after it: in a ray tracing pipeline, and in the passes.
pub proof fn setup_is_done_before_tracing<V: GeometryVertex, I: GeometryIndex>(
    c: Counts,
    i: int,
    r: Resource,
    stage: u64,
)
    requires
        0 <= i < setup_steps::<V, I>(c).len(),
        steps::write_of(setup_steps::<V, I>(c)[i], r) is Some,
        stage == RAY_TRACING_SHADER || stage == COMPUTE_SHADER,
    ensures
        steps::separated(
            setup_steps::<V, I>(c),
            i,
            setup_steps::<V, I>(c).len() as int,
            r,
            steps::write_of(setup_steps::<V, I>(c)[i], r)->0,
            (Use { stage, access: ACCELERATION_STRUCTURE_READ | SHADER_READ }),
        ),
{
    lemma_trace_flags();
    lemma_setup_writes::<V, I>(c, i, r);
    let all = setup_steps::<V, I>(c);
    assert(all[all.len() - 1] == Step::Barrier(trace_barrier()));
}

/// Two lists of steps that are ordered are so together, where the second one does
/// not touch what the first one writes.
proof fn lemma_ordered_join(x: Seq<Step>, y: Seq<Step>)
    requires
        steps::ordered(x),
        steps::ordered(y),
        forall|i: int, j: int, r: Resource|
            #![trigger steps::write_of(x[i], r), y[j]]
            0 <= i < x.len() && 0 <= j < y.len() && steps::write_of(x[i], r) is Some
                ==> steps::read_of(y[j], r) is None && steps::write_of(y[j], r) is None,
    ensures
        steps::ordered(x + y),
{
    let all = x + y;
    assert forall|i: int, j: int, r: Resource|
        #![trigger steps::write_of(all[i], r), steps::read_of(all[j], r)]
        #![trigger steps::write_of(all[i], r), steps::write_of(all[j], r)]
        0 <= i < j < all.len() && steps::write_of(all[i], r) is Some implies {
        &&& steps::read_of(all[j], r) is Some ==> steps::separated(
            all,
            i,
            j,
            r,
            steps::write_of(all[i], r)->0,
            steps::read_of(all[j], r)->0,
        )
        &&& steps::write_of(all[j], r) is Some ==> steps::separated(
            all,
            i,
            j,
            r,
            steps::write_of(all[i], r)->0,
            steps::write_of(all[j], r)->0,
        )
    } by {
        let w = steps::write_of(all[i], r)->0;
        let n = x.len();
        if j < n {
            assert(all[i] == x[i] && all[j] == x[j]);
            if steps::read_of(x[j], r) is Some {
                lemma_separated(x, x + y, 0, i, j, r, w, steps::read_of(x[j], r)->0);
            }
            if steps::write_of(x[j], r) is Some {
                lemma_separated(x, x + y, 0, i, j, r, w, steps::write_of(x[j], r)->0);
            }
        } else if i < n {
            assert(all[i] == x[i] && all[j] == y[j - n]);
            assert(steps::write_of(x[i], r) is Some);
        } else {
            assert(all[i] == y[i - n] && all[j] == y[j - n]);
            assert forall|k: int| 0 <= k < y.len() implies #[trigger] all[n + k] == y[k] by {}
            if steps::read_of(y[j - n], r) is Some {
                lemma_separated(
                    y,
                    x + y,
                    n as int,
                    i - n,
                    j - n,
                    r,
                    w,
                    steps::read_of(y[j - n], r)->0,
                );
            }
            if steps::write_of(y[j - n], r) is Some {
                lemma_separated(
                    y,
                    x + y,
                    n as int,
                    i - n,
                    j - n,
                    r,
                    w,
                    steps::write_of(y[j - n], r)->0,
                );
            }
        }
    }
}

/// What is separated in a list of steps is so in a longer one that holds it from
/// `n` on.
proof fn lemma_separated(
    part: Seq<Step>,
    all: Seq<Step>,
    n: int,
    i: int,
    j: int,
    r: Resource,
    first: Use,
    second: Use,
)
    requires
        0 <= n <= n + part.len() <= all.len(),
        forall|k: int| 0 <= k < part.len() ==> #[trigger] part[k] == all[n + k],
        0 <= i < j < part.len(),
        steps::separated(part, i, j, r, first, second),
    ensures
        steps::separated(all, n + i, n + j, r, first, second),
{
    let k = choose|k: int|
        i < k < j && (#[trigger] part[k] matches Step::Barrier(b) && steps::separates(
            b,
            r,
            first,
            second,
        ));
    assert(all[n + k] == part[k]);
}

/// Up to the point at which shaders can use it, everything that is brought to the
/// device or built there waits for what it needs.
pub proof fn setup_is_ordered<V: GeometryVertex, I: GeometryIndex>(c: Counts)
    ensures
        steps::ordered(setup_steps::<V, I>(c)),
{
    let texels = texel_steps(c.texels as int);
    let (v, s, k) = (c.vertices as int, c.solid_indices as int, c.sky_indices as int);
    let triangles = acceleration::acceleration_steps::<V, I>(v, s, k);
    let lights = light_steps(c.lights as int);
    acceleration::builds_wait_for_their_inputs::<V, I>(v, s, k);
    lemma_triangles_apart::<V, I>(v, s, k);
    assert(steps::ordered(texels));
    assert(steps::ordered(lights));
    lemma_ordered_join(texels, triangles);
    let x = texels + triangles;
    assert forall|i: int, j: int, r: Resource|
        #![trigger steps::write_of(x[i], r), lights[j]]
        0 <= i < x.len() && 0 <= j < lights.len() && steps::write_of(x[i], r)
            is Some implies steps::read_of(lights[j], r) is None && steps::write_of(lights[j], r)
        is None by {
        if i < texels.len() {
            assert(x[i] == texels[i]);
        } else {
            assert(x[i] == triangles[i - texels.len()]);
        }
    }
    lemma_ordered_join(x, lights);
}

/// The steps for the triangles touch nothing of the texels, the colours and the
/// lights.
proof fn lemma_triangles_apart<V: GeometryVertex, I: GeometryIndex>(v: int, s: int, k: int)
    ensures
        forall|i: int, r: Resource|
            #![trigger steps::read_of(
                acceleration::acceleration_steps::<V, I>(v, s, k)[i],
                r,
            )]
            #![trigger steps::write_of(
                acceleration::acceleration_steps::<V, I>(v, s, k)[i],
                r,
            )]
            0 <= i < acceleration::acceleration_steps::<V, I>(v, s, k).len() && (r
                == Resource::TexelStaging || r == Resource::Texels || r == Resource::Output || r
                == Resource::Readback || r == Resource::SkyStaging || r == Resource::Sky || r
                == Resource::LightStaging || r == Resource::Lights) ==> steps::read_of(
                acceleration::acceleration_steps::<V, I>(v, s, k)[i],
                r,
            ) is None && steps::write_of(
                acceleration::acceleration_steps::<V, I>(v, s, k)[i],
                r,
            ) is None,
{
    let all = acceleration::acceleration_steps::<V, I>(v, s, k);
    let uploads = acceleration::triangle_input_steps::<V, I>(v, s, k);
    let builds = acceleration::triangle_build_steps::<V, I>(v, s, k);
    let b1 = uploads.len();
    let b2 = b1 + 1 + builds.len();
    assert forall|i: int, r: Resource|
        #![trigger steps::read_of(all[i], r)]
        #![trigger steps::write_of(all[i], r)]
        0 <= i < all.len() && (r == Resource::TexelStaging || r == Resource::Texels || r
            == Resource::Output || r == Resource::Readback || r == Resource::SkyStaging || r
            == Resource::Sky || r == Resource::LightStaging || r
            == Resource::Lights) implies steps::read_of(all[i], r) is None && steps::write_of(
        all[i],
        r,
    ) is None by {
        if i < b1 {
            assert(all[i] == uploads[i]);
        } else if b1 < i < b2 {
            assert(all[i] == builds[i - b1 - 1]);
        } else if b2 < i {
            assert(all[i] == acceleration::instance_steps(k)[i - b2 - 1]);
        }
    }
}

/// What is temporary is touched by no step that lights the texels or comes after.
pub proof fn temporaries_end_with_the_setup(
    layout: ComputeLayout,
    texel_count: int,
    i: int,
    r: Resource,
)
    requires
        0 <= i < trace_steps(layout, texel_count).len(),
        r.is_temporary(),
    ensures
        steps::read_of(trace_steps(layout, texel_count)[i], r) is None,
        steps::write_of(trace_steps(layout, texel_count)[i], r) is None,
{
}

/// Once everything is on the device, the second pass waits for the first one, the
/// copy for both, and the host, when it reads the colours, for the copy.
pub proof fn tracing_is_ordered(layout: ComputeLayout, texel_count: int)
    ensures
        steps::ordered(trace_steps(layout, texel_count)),
{
    let all = trace_steps(layout, texel_count);
    lighting::lemma_pass_flags();
    assert(all[8] == Step::Barrier(lighting::pass_barrier()));
    assert(all[13] == Step::Barrier(lighting::transfer_barrier()));
    assert(all[15] == Step::Barrier(lighting::host_barrier()));
    assert forall|i: int, j: int, r: Resource|
        #![trigger steps::write_of(all[i], r), steps::read_of(all[j], r)]
        #![trigger steps::write_of(all[i], r), steps::write_of(all[j], r)]
        0 <= i < j < all.len() && steps::write_of(all[i], r) is Some implies {
        &&& steps::read_of(all[j], r) is Some ==> steps::separated(
            all,
            i,
            j,
            r,
            steps::write_of(all[i], r)->0,
            steps::read_of(all[j], r)->0,
        )
        &&& steps::write_of(all[j], r) is Some ==> steps::separated(
            all,
            i,
            j,
            r,
            steps::write_of(all[i], r)->0,
            steps::write_of(all[j], r)->0,
        )
    } by {
        assert(i == 6 || i == 11 || i == 14);
        assert(steps::read_of(all[j], r) is Some || steps::write_of(all[j], r) is Some ==> j == 6
            || j == 11 || j == 14 || j == 24);
    }
}

/// In all of lighting a map, whatever a step writes on the device is there for each
/// later step that reads or writes it: from the first copy to the device to the
/// reading of the colours.
pub proof fn lighting_is_ordered<V: GeometryVertex, I: GeometryIndex>(
    layout: ComputeLayout,
    c: Counts,
)
    ensures
        steps::ordered(bake_steps::<V, I>(layout, c)),
{
    let x = setup_steps::<V, I>(c);
    let y = trace_steps(layout, c.texels as int);
    let all = bake_steps::<V, I>(layout, c);
    let n = x.len() as int;
    let (v, s, k) = (c.vertices as int, c.solid_indices as int, c.sky_indices as int);
    setup_is_ordered::<V, I>(c);
    tracing_is_ordered(layout, c.texels as int);
    lemma_triangles_apart::<V, I>(v, s, k);
    lemma_trace_flags();
    assert forall|i: int, j: int, r: Resource|
        #![trigger steps::write_of(all[i], r), steps::read_of(all[j], r)]
        #![trigger steps::write_of(all[i], r), steps::write_of(all[j], r)]
        0 <= i < j < all.len() && steps::write_of(all[i], r) is Some implies {
        &&& steps::read_of(all[j], r) is Some ==> steps::separated(
            all,
            i,
            j,
            r,
            steps::write_of(all[i], r)->0,
            steps::read_of(all[j], r)->0,
        )
        &&& steps::write_of(all[j], r) is Some ==> steps::separated(
            all,
            i,
            j,
            r,
            steps::write_of(all[i], r)->0,
            steps::write_of(all[j], r)->0,
        )
    } by {
        let w = steps::write_of(all[i], r)->0;
        if j < n {
            assert(all[i] == x[i] && all[j] == x[j]);
            if steps::read_of(x[j], r) is Some {
                lemma_separated(x, all, 0, i, j, r, w, steps::read_of(x[j], r)->0);
            }
            if steps::write_of(x[j], r) is Some {
                lemma_separated(x, all, 0, i, j, r, w, steps::write_of(x[j], r)->0);
            }
        } else if i < n {
            assert(all[i] == x[i] && all[j] == y[j - n]);
            lemma_setup_writes::<V, I>(c, i, r);
            assert(all[n - 1] == x[n - 1]);
        } else {
            assert(all[i] == y[i - n] && all[j] == y[j - n]);
            assert forall|k: int| 0 <= k < y.len() implies #[trigger] y[k] == all[n + k] by {}
            if steps::read_of(y[j - n], r) is Some {
                lemma_separated(y, all, n, i - n, j - n, r, w, steps::read_of(y[j - n], r)->0);
            }
            if steps::write_of(y[j - n], r) is Some {
                lemma_separated(y, all, n, i - n, j - n, r, w, steps::write_of(y[j - n], r)->0);
            }
        }
    }
}

/// What the steps that bring everything to the device write: not the colours, and by
/// copies and builds alone, before the barrier at the end.
proof fn lemma_setup_writes<V: GeometryVertex, I: GeometryIndex>(c: Counts, i: int, r: Resource)
    requires
        0 <= i < setup_steps::<V, I>(c).len(),
        steps::write_of(setup_steps::<V, I>(c)[i], r) is Some,
    ensures
        r != Resource::Output,
        r != Resource::Readback,
        i < setup_steps::<V, I>(c).len() - 1,
        setup_steps::<V, I>(c)[i] is Copy || setup_steps::<V, I>(c)[i] is Build,
        setup_steps::<V, I>(c).last() == Step::Barrier(trace_barrier()),
{
    let all = setup_steps::<V, I>(c);
    let texels = texel_steps(c.texels as int);
    let (v, s, k) = (c.vertices as int, c.solid_indices as int, c.sky_indices as int);
    let triangles = acceleration::acceleration_steps::<V, I>(v, s, k);
    let lights = light_steps(c.lights as int);
    lemma_triangles_apart::<V, I>(v, s, k);
    assert(all.last() == lights[lights.len() - 1]);
    if i < texels.len() {
        assert(all[i] == texels[i]);
    } else if i < texels.len() + triangles.len() {
        assert(all[i] == triangles[i - texels.len()]);
    } else {
        assert(all[i] == lights[i - texels.len() - triangles.len()]);
    }
}

/// Everything that is copied in lighting a map was filled before, by the host or on
/// the device.
pub proof fn all_copies_have_contents<V: GeometryVertex, I: GeometryIndex>(
    layout: ComputeLayout,
    c: Counts,
)
    ensures
        steps::copies_have_contents(bake_steps::<V, I>(layout, c)),
{
    let texels = texel_steps(c.texels as int);
    let (v, s, k) = (c.vertices as int, c.solid_indices as int, c.sky_indices as int);
    let triangles = acceleration::acceleration_steps::<V, I>(v, s, k);
    let lights = light_steps(c.lights as int);
    let passes = trace_steps(layout, c.texels as int);
    assert(steps::copies_have_contents(texels)) by {
        assert(texels[1] == Step::Store(Resource::TexelStaging));
    }
    assert(steps::copies_have_contents(triangles)) by {
        let uploads = acceleration::triangle_input_steps::<V, I>(v, s, k);
        let builds = acceleration::triangle_build_steps::<V, I>(v, s, k);
        let b1 = uploads.len();
        let b2 = b1 + 1 + builds.len();
        assert forall|i: int|
            0 <= i < triangles.len() implies (#[trigger] triangles[i] matches Step::Copy {
            from,
            ..
        } ==> steps::filled(triangles, i, from)) by {
            if i < b1 {
                assert(triangles[i] == uploads[i]);
                if let Step::Copy { from, .. } = triangles[i] {
                    assert(triangles[i - 2] == uploads[i - 2]);
                    assert(triangles[i - 2] == Step::Store(from));
                }
            } else if b1 < i < b2 {
                assert(triangles[i] == builds[i - b1 - 1]);
            } else if b2 < i {
                assert(triangles[i] == acceleration::instance_steps(k)[i - b2 - 1]);
            }
        }
    }
    assert(steps::copies_have_contents(lights)) by {
        assert(lights[1] == Step::Store(Resource::SkyStaging));
        if c.lights != 0 {
            assert(lights[6] == Step::Store(Resource::LightStaging));
        }
    }
    assert(steps::copies_have_contents(passes)) by {
        assert(steps::write_of(passes[6], Resource::Output) is Some);
    }
    steps::lemma_contents_join(texels, triangles);
    steps::lemma_contents_join(texels + triangles, lights);
    steps::lemma_contents_join(texels + triangles + lights, passes);
}

/// The parts of lighting a map, step by step.
proof fn lemma_bake_parts<V: GeometryVertex, I: GeometryIndex>(layout: ComputeLayout, c: Counts, i: int)
    requires
        0 <= i < bake_steps::<V, I>(layout, c).len(),
    ensures
        ({
            let all = bake_steps::<V, I>(layout, c);
            let texels = texel_steps(c.texels as int);
            let triangles = acceleration::acceleration_steps::<V, I>(
                c.vertices as int,
                c.solid_indices as int,
                c.sky_indices as int,
            );
            let lights = light_steps(c.lights as int);
            let passes = trace_steps(layout, c.texels as int);
            let a = texels.len() as int;
            let b = a + triangles.len();
            let d = b + lights.len();
            &&& all.len() == d + passes.len()
            &&& i < a ==> all[i] == texels[i]
            &&& a <= i < b ==> all[i] == triangles[i - a]
            &&& b <= i < d ==> all[i] == lights[i - b]
            &&& d <= i ==> all[i] == passes[i - d]
        }),
{
}

/// Everything that is copied goes where it belongs, whole: texels, lights, vertices and
/// indices from where the host stored them to the device, and the colours of all texels
/// from there to where the host reads them.
pub proof fn copies_go_where_they_belong<V: GeometryVertex, I: GeometryIndex>(
    layout: ComputeLayout,
    c: Counts,
    i: int,
)
    requires
        c.fit::<V, I>(),
        0 <= i < bake_steps::<V, I>(layout, c).len(),
    ensures
        bake_steps::<V, I>(layout, c)[i] matches Step::Copy { from, to, size } ==> match to {
            Resource::Texels => from == Resource::TexelStaging && size == 32 * c.texels,
            Resource::Sky => from == Resource::SkyStaging && size == 48,
            Resource::Lights => from == Resource::LightStaging && size == 80 * c.lights && c.lights
                > 0,
            Resource::Vertices => from == Resource::VertexStaging && size == c.vertices
                * V::stride(),
            Resource::SolidIndices => from == Resource::SolidIndexStaging && size
                == c.solid_indices * I::size(),
            Resource::SkyIndices => from == Resource::SkyIndexStaging && size == c.sky_indices
                * I::size() && c.sky_indices > 0,
            Resource::Readback => from == Resource::Output && size == 16 * c.texels,
            _ => false,
        },
{
    lemma_bake_parts::<V, I>(layout, c, i);
    acceleration::lemma_builds_and_copies::<V, I>(
        c.vertices as int,
        c.solid_indices as int,
        c.sky_indices as int,
    );
    vstd::arithmetic::mul::lemma_mul_nonnegative(c.vertices as int, V::stride() as int);
    vstd::arithmetic::mul::lemma_mul_nonnegative(c.solid_indices as int, I::size() as int);
    vstd::arithmetic::mul::lemma_mul_nonnegative(c.sky_indices as int, I::size() as int);
}

/// The buffers have room for all that goes into them, and are made for what is done with
/// them: those that are copied from are filled by the host, texels, lights and colours lie
/// on the device, where shaders reach them, and the colours can be copied from there to
/// where the host reads them.
pub proof fn buffers_are_made_for_their_use<V: GeometryVertex, I: GeometryIndex>(
    layout: ComputeLayout,
    c: Counts,
    i: int,
)
    requires
        c.fit::<V, I>(),
        0 <= i < bake_steps::<V, I>(layout, c).len(),
    ensures
        bake_steps::<V, I>(layout, c)[i] matches Step::Create { resource, buffer } ==> {
            let texels = 32 * c.texels;
            let colors = 16 * c.texels;
            let lights = if c.lights == 0 {
                1
            } else {
                80 * c.lights
            };
            let vertices = c.vertices * V::stride();
            let solid = c.solid_indices * I::size();
            let sky = c.sky_indices * I::size();
            match resource {
                Resource::TexelStaging => acceleration::is_buffer(buffer, texels, 0x1, 0x6),
                Resource::Texels => acceleration::is_buffer(buffer, texels, 0x2_0022, 0x1),
                Resource::Output => acceleration::is_buffer(buffer, colors, 0x2_0021, 0x1),
                Resource::Readback => acceleration::is_buffer(buffer, colors, 0x2, 0x6),
                Resource::SkyStaging => acceleration::is_buffer(buffer, 48, 0x1, 0x6),
                Resource::Sky => acceleration::is_buffer(buffer, 48, 0x2_0022, 0x1),
                Resource::LightStaging => acceleration::is_buffer(buffer, lights, 0x1, 0x6),
                Resource::Lights => acceleration::is_buffer(buffer, lights, 0x2_0022, 0x1),
                Resource::VertexStaging => acceleration::is_buffer(buffer, vertices, 0x1, 0x6),
                Resource::Vertices => acceleration::is_buffer(buffer, vertices, 0xa_0082, 0x1),
                Resource::SolidIndexStaging => acceleration::is_buffer(buffer, solid, 0x1, 0x6),
                Resource::SolidIndices => acceleration::is_buffer(buffer, solid, 0xa_0042, 0x1),
                Resource::SkyIndexStaging => acceleration::is_buffer(buffer, sky, 0x1, 0x6),
                Resource::SkyIndices => acceleration::is_buffer(buffer, sky, 0xa_0042, 0x1),
                Resource::Instances => acceleration::is_buffer(
                    buffer,
                    if c.sky_indices == 0 {
                        64
                    } else {
                        128
                    },
                    0xa_0000,
                    0x6,
                ),
                _ => false,
            }
        },
{
    lemma_bake_parts::<V, I>(layout, c, i);
    let (v, s, k) = (c.vertices as int, c.solid_indices as int, c.sky_indices as int);
    let triangles = acceleration::acceleration_steps::<V, I>(v, s, k);
    let a = texel_steps(c.texels as int).len() as int;
    if a <= i < a + triangles.len() {
        acceleration::inputs_have_room::<V, I>(v, s, k, i - a);
    }
    assert(0x20u32 | 0x2_0000u32 | 0x2u32 == 0x2_0022u32 && 0x20u32 | 0x2_0000u32 | 0x1u32
        == 0x2_0021u32 && 0x2u32 | 0x4u32 == 0x6u32) by (bit_vector);
}

/// When a pass is started, all that its shader reads is there: the texels, the light of the
/// sky, the structure that rays are traced through, and the lights where there are any.
pub proof fn passes_have_what_they_read<V: GeometryVertex, I: GeometryIndex>(
    layout: ComputeLayout,
    c: Counts,
    j: int,
)
    requires
        0 <= j < bake_steps::<V, I>(layout, c).len(),
        bake_steps::<V, I>(layout, c)[j] is Dispatch,
    ensures
        steps::filled(bake_steps::<V, I>(layout, c), j, Resource::Texels),
        steps::filled(bake_steps::<V, I>(layout, c), j, Resource::Sky),
        steps::filled(bake_steps::<V, I>(layout, c), j, Resource::TopStructure),
        c.lights > 0 ==> steps::filled(bake_steps::<V, I>(layout, c), j, Resource::Lights),
        steps::filled(bake_steps::<V, I>(layout, c), j, Resource::SolidStructure),
        c.sky_indices > 0 ==> steps::filled(
            bake_steps::<V, I>(layout, c),
            j,
            Resource::SkyStructure,
        ),
{
    let all = bake_steps::<V, I>(layout, c);
    let (v, s, k) = (c.vertices as int, c.solid_indices as int, c.sky_indices as int);
    let triangles = acceleration::acceleration_steps::<V, I>(v, s, k);
    let lights = light_steps(c.lights as int);
    let a = texel_steps(c.texels as int).len() as int;
    let b = a + triangles.len();
    let d = b + lights.len();
    acceleration::lemma_builds_and_copies::<V, I>(v, s, k);
    lemma_bake_parts::<V, I>(layout, c, j);
    let u = if k == 0 {
        8int
    } else {
        12
    };
    lemma_bake_parts::<V, I>(layout, c, 4);
    lemma_bake_parts::<V, I>(layout, c, a + u + 1);
    lemma_bake_parts::<V, I>(layout, c, a + u + 2);
    lemma_bake_parts::<V, I>(layout, c, b - 1);
    lemma_bake_parts::<V, I>(layout, c, b + 3);
    assert(j >= d);
    assert(steps::write_of(all[4], Resource::Texels) is Some);
    assert(steps::write_of(all[b + 3], Resource::Sky) is Some);
    assert(steps::write_of(all[b - 1], Resource::TopStructure) is Some);
    assert(steps::write_of(all[a + u + 1], Resource::SolidStructure) is Some);
    if k != 0 {
        assert(steps::write_of(all[a + u + 2], Resource::SkyStructure) is Some);
    }
    if c.lights > 0 {
        lemma_bake_parts::<V, I>(layout, c, b + 7);
        assert(lights[7] is Copy);
        assert(steps::write_of(all[b + 7], Resource::Lights) is Some);
    }
}

/// Lighting a map begins to record before anything is recorded, has the pipelines and what
/// shaders reach ready before a pass is started, gives up what is temporary only when the
/// device is idle, and ends with the colours being read.
#[verifier::spinoff_prover]
#[verifier::rlimit(50)]
pub proof fn lighting_has_a_beginning_and_an_end<V: GeometryVertex, I: GeometryIndex>(
    layout: ComputeLayout,
    c: Counts,
    i: int,
    j: int,
)
    requires
        0 <= i < bake_steps::<V, I>(layout, c).len(),
        0 <= j < bake_steps::<V, I>(layout, c).len(),
    ensures
        ({
            let all = bake_steps::<V, I>(layout, c);
            &&& all[2] is Begin
            &&& all[i] is Begin ==> i == 2
            &&& all[j] is Copy || all[j] is Barrier || all[j] is Build || all[j] is Dispatch || all[j]
                is End ==> j > 2
            &&& (all[i] is CreatePipelines || all[i] is CreateDescriptorSet) && all[j] is Dispatch
                ==> i < j
            &&& all[i] is WaitIdle && (all[j] is DropTemporaries || all[j] is Load) ==> i < j
            &&& all.last() == Step::Load(Resource::Readback)
            &&& all[i] is Load ==> i == all.len() - 1
            &&& all[all.len() - 2] is DropTemporaries
        }),
{
    let all = bake_steps::<V, I>(layout, c);
    let (v, s, k) = (c.vertices as int, c.solid_indices as int, c.sky_indices as int);
    let n = all.len() as int;
    lemma_bake_parts::<V, I>(layout, c, i);
    lemma_bake_parts::<V, I>(layout, c, j);
    lemma_bake_parts::<V, I>(layout, c, 2);
    lemma_bake_parts::<V, I>(layout, c, n - 1);
    lemma_bake_parts::<V, I>(layout, c, n - 2);
    let triangles = acceleration::acceleration_steps::<V, I>(v, s, k);
    let uploads = acceleration::triangle_input_steps::<V, I>(v, s, k);
    let builds = acceleration::triangle_build_steps::<V, I>(v, s, k);
    let b1 = uploads.len();
    let b2 = b1 + 1 + builds.len();
    assert forall|m: int| 0 <= m < triangles.len() implies !((#[trigger] triangles[m]) is Begin)
        && !(triangles[m] is Load) && !(triangles[m] is WaitIdle) && !(triangles[m] is Dispatch)
        && !(triangles[m] is CreatePipelines) && !(triangles[m] is CreateDescriptorSet) && !(
    triangles[m] is DropTemporaries) by {
        if m < b1 {
            assert(triangles[m] == uploads[m]);
        } else if b1 < m < b2 {
            assert(triangles[m] == builds[m - b1 - 1]);
        } else if b2 < m {
            assert(triangles[m] == acceleration::instance_steps(k)[m - b2 - 1]);
        }
    }
}

/// A barrier stands between the given stages and kinds of access.
pub open spec fn stands_between(
    b: Barrier,
    src_stage: u64,
    src_access: u64,
    dst_stage: u64,
    dst_access: u64,
) -> bool {
    &&& b.src_stage == src_stage
    &&& b.src_access == src_access
    &&& b.dst_stage == dst_stage
    &&& b.dst_access == dst_access
}

/// Barriers hold up no more than they must. Those for everything stand between copies and
/// builds, between builds and builds, and between both of them and the shaders; those for
/// the colours between one pass and the next, and between the passes and the copy; and the
/// one for what the host reads between that copy and the host.
#[verifier::spinoff_prover]
#[verifier::rlimit(50)]
pub proof fn barriers_hold_up_no_more_than_they_must<V: GeometryVertex, I: GeometryIndex>(
    layout: ComputeLayout,
    c: Counts,
    i: int,
)
    requires
        0 <= i < bake_steps::<V, I>(layout, c).len(),
    ensures
        bake_steps::<V, I>(layout, c)[i] matches Step::Barrier(b) ==> match b.buffer {
            None => {
                ||| stands_between(b, 0x1000, 0x1000, 0x200_0000, 0x20_0020)
                ||| stands_between(b, 0x200_0000, 0x40_0000, 0x200_0000, 0x20_0000)
                ||| stands_between(b, 0x200_1000, 0x40_1000, 0x20_0800, 0x20_0020)
            },
            Some(Resource::Output) => {
                ||| stands_between(b, 0x800, 0x40, 0x800, 0x60)
                ||| stands_between(b, 0x800, 0x40, 0x1000, 0x800)
            },
            Some(Resource::Readback) => stands_between(b, 0x1000, 0x1000, 0x4000, 0x2000),
            Some(_) => false,
        },
{
    lemma_bake_parts::<V, I>(layout, c, i);
    let (v, s, k) = (c.vertices as int, c.solid_indices as int, c.sky_indices as int);
    let triangles = acceleration::acceleration_steps::<V, I>(v, s, k);
    let uploads = acceleration::triangle_input_steps::<V, I>(v, s, k);
    let builds = acceleration::triangle_build_steps::<V, I>(v, s, k);
    let b1 = uploads.len();
    let b2 = b1 + 1 + builds.len();
    assert forall|m: int| 0 <= m < triangles.len() && (#[trigger] triangles[m]) is Barrier implies m
        == b1 || m == b2 by {
        if m < b1 {
            assert(triangles[m] == uploads[m]);
        } else if b1 < m < b2 {
            assert(triangles[m] == builds[m - b1 - 1]);
        } else if b2 < m {
            assert(triangles[m] == acceleration::instance_steps(k)[m - b2 - 1]);
        }
    }
    assert(triangles[b1 as int] == Step::Barrier(acceleration::upload_barrier()));
    assert(triangles[b2 as int] == Step::Barrier(acceleration::build_barrier()));
    assert(0x20_0000u64 | 0x20u64 == 0x20_0020u64 && 0x200_0000u64 | 0x1000u64 == 0x200_1000u64
        && 0x40_0000u64 | 0x1000u64 == 0x40_1000u64 && 0x20_0000u64 | 0x800u64 == 0x20_0800u64
        && 0x20u64 | 0x40u64 == 0x60u64) by (bit_vector);
}

} // verus!
