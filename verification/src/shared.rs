//! Data that the host and the lighting passes share. Numbers with a fraction are
//! held by their bit patterns.

use vstd::prelude::*;

verus! {

/// A vector, by the bit patterns of its components.
#[derive(Debug, Clone, Copy, PartialEq, Eq, Structural)]
pub struct Vec3 {
    pub x: u32,
    pub y: u32,
    pub z: u32,
}

impl Vec3 {
    pub open spec fn zero() -> Vec3 {
        Vec3 { x: 0, y: 0, z: 0 }
    }
}

/// A vector that takes sixteen bytes.
#[derive(Debug, Clone, Copy, PartialEq, Eq, Structural)]
pub struct AlignedVec3(pub Vec3);

impl From<Vec3> for AlignedVec3 {
    fn from(value: Vec3) -> (r: AlignedVec3) {
        AlignedVec3(value)
    }
}

impl vstd::std_specs::convert::FromSpecImpl<Vec3> for AlignedVec3 {
    open spec fn obeys_from_spec() -> bool {
        true
    }

    open spec fn from_spec(value: Vec3) -> AlignedVec3 {
        AlignedVec3(value)
    }
}

impl From<AlignedVec3> for Vec3 {
    fn from(val: AlignedVec3) -> (r: Vec3) {
        val.0
    }
}

impl vstd::std_specs::convert::FromSpecImpl<AlignedVec3> for Vec3 {
    open spec fn obeys_from_spec() -> bool {
        true
    }

    open spec fn from_spec(val: AlignedVec3) -> Vec3 {
        val.0
    }
}

/// A lightmap texel in the world.
#[derive(Debug, Clone, Copy, PartialEq, Eq, Structural)]
pub struct TexelData {
    pub position: AlignedVec3,
    pub normal: AlignedVec3,
}

impl TexelData {
    /// The texel at `position` on a face with the given normal.
    pub fn new(position: Vec3, normal: Vec3) -> (t: TexelData)
        ensures
            t.position.0 == position,
            t.normal.0 == normal,
    {
        TexelData { position: AlignedVec3::from(position), normal: AlignedVec3::from(normal) }
    }
}

/// How a light emits.
#[derive(Debug, Clone, Copy, PartialEq, Eq, Structural)]
pub enum EmitType {
    Surface,
    Point,
    Spotlight,
    SkyLight,
    QuakeLight,
    SkyAmbient,
}

impl EmitType {
    /// The number that stands for a way to emit.
    pub open spec fn code_spec(self) -> i32 {
        match self {
            EmitType::Surface => 0,
            EmitType::Point => 1,
            EmitType::Spotlight => 2,
            EmitType::SkyLight => 3,
            EmitType::QuakeLight => 4,
            EmitType::SkyAmbient => 5,
        }
    }

    /// The number that stands for a way to emit.
    pub fn code(self) -> (r: i32)
        ensures
            r == self.code_spec(),
    {
        match self {
            EmitType::Surface => 0,
            EmitType::Point => 1,
            EmitType::Spotlight => 2,
            EmitType::SkyLight => 3,
            EmitType::QuakeLight => 4,
            EmitType::SkyAmbient => 5,
        }
    }

    /// The way to emit that a number stands for.
    pub fn from_code(code: i32) -> (r: Option<EmitType>)
        ensures
            match r {
                Some(ty) => ty.code_spec() == code,
                None => forall|ty: EmitType| (#[trigger] ty.code_spec()) != code,
            },
    {
        match code {
            0 => Some(EmitType::Surface),
            1 => Some(EmitType::Point),
            2 => Some(EmitType::Spotlight),
            3 => Some(EmitType::SkyLight),
            4 => Some(EmitType::QuakeLight),
            5 => Some(EmitType::SkyAmbient),
            _ => None,
        }
    }
}

/// A light in the world.
#[derive(Debug, Clone, Copy, PartialEq, Eq, Structural)]
pub struct Light {
    pub position: AlignedVec3,
    pub color: AlignedVec3,
    pub direction: AlignedVec3,
    pub ty: EmitType,
    pub radius: u32,
    pub constant_attn: u32,
    pub linear_attn: u32,
    pub quadratic_attn: u32,
    pub penumbra_start: u32,
    pub penumbra_end: u32,
    pub exponent: u32,
}

/// The light of the sky.
#[derive(Debug, Clone, Copy, PartialEq, Eq, Structural)]
pub struct Sky {
    pub sun_direction: AlignedVec3,
    pub sun_color: AlignedVec3,
    pub ambient_color: AlignedVec3,
}

impl Default for Sky {
    fn default() -> (s: Sky)
        ensures
            s.sun_direction.0 == Vec3::zero(),
            s.sun_color.0 == Vec3::zero(),
            s.ambient_color.0 == Vec3::zero(),
    {
        let zero = AlignedVec3(Vec3 { x: 0, y: 0, z: 0 });
        Sky { sun_direction: zero, sun_color: zero, ambient_color: zero }
    }
}

/// What a ray met, and where.
#[derive(Debug, Clone, Copy, PartialEq, Eq, Structural)]
pub struct RayPayload {
    pub hit_pos: Vec3,
    pub hit_normal: Vec3,
    pub hit: u32,
}

impl Default for RayPayload {
    fn default() -> (p: RayPayload)
        ensures
            p.hit_pos == Vec3::zero(),
            p.hit_normal == Vec3::zero(),
            p.hit == 0,
    {
        let zero = Vec3 { x: 0, y: 0, z: 0 };
        RayPayload { hit_pos: zero, hit_normal: zero, hit: 0 }
    }
}

/// The numbers of the ways to emit, as maps list them: no two share one, and there are
/// no others than those from 0 to 5.
pub proof fn ways_to_emit_are_numbered(a: EmitType, b: EmitType)
    ensures
        a.code_spec() == b.code_spec() ==> a == b,
        0 <= a.code_spec() <= 5,
        a.code_spec() == 0 <==> a == EmitType::Surface,
        a.code_spec() == 1 <==> a == EmitType::Point,
        a.code_spec() == 2 <==> a == EmitType::Spotlight,
        a.code_spec() == 3 <==> a == EmitType::SkyLight,
        a.code_spec() == 4 <==> a == EmitType::QuakeLight,
        a.code_spec() == 5 <==> a == EmitType::SkyAmbient,
{
}

/// The null vector is zero in all directions, and stays itself in sixteen bytes.
pub proof fn nothing_points_nowhere(v: Vec3)
    ensures
        Vec3::zero().x == 0 && Vec3::zero().y == 0 && Vec3::zero().z == 0,
        <AlignedVec3 as vstd::std_specs::convert::FromSpec<Vec3>>::from_spec(v).0 == v,
        <Vec3 as vstd::std_specs::convert::FromSpec<AlignedVec3>>::from_spec(AlignedVec3(v)) == v,
{
}

} // verus!
