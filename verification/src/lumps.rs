//! The parts of a map that baking reads, and how they refer to one another.

use vstd::prelude::*;

verus! {

/// The rectangle of luxels of a face.
#[derive(Debug, Clone, Copy)]
pub struct LightmapArea {
    pub mins: [i32; 2],
    pub maxs: [i32; 2],
}

/// A face of the map.
#[derive(Debug, Clone, Copy)]
pub struct Face {
    pub plane_index: u16,
    pub edge_index: i32,
    pub edge_count: i16,
    pub texture_info_index: i16,
    pub styles: [u8; 4],
    pub light_offset: i32,
    pub lightmap: LightmapArea,
}

/// How a texture lies on a face. The axes are held by bit patterns.
#[derive(Debug, Clone, Copy)]
pub struct TextureInfo {
    pub luxels: [[u32; 4]; 2],
    pub flags: i32,
}

/// The plane of a face, by bit patterns.
#[derive(Debug, Clone, Copy)]
pub struct Plane {
    pub normal: [u32; 3],
    pub dist: u32,
}

/// An edge, with the sign of its index for the direction.
#[derive(Debug, Clone, Copy, PartialEq, Eq, Structural)]
pub struct SurfaceEdge {
    pub edge_index: i32,
}

/// The two vertices of an edge.
#[derive(Debug, Clone, Copy)]
pub struct Edge {
    pub edge: [u16; 2],
}

/// The lists of a map that faces refer to.
#[derive(Debug)]
pub struct Lumps {
    pub planes: Vec<Plane>,
    pub texture_infos: Vec<TextureInfo>,
    pub surface_edges: Vec<SurfaceEdge>,
    pub edges: Vec<Edge>,
}

/// Types that refer to something in a list of the map.
pub trait Associated<T: ?Sized> {
    /// What it refers to is there.
    spec fn refers_into(&self, lumps: &Lumps) -> bool;

    /// It refers to `t`.
    spec fn refers_to(&self, lumps: &Lumps, t: &T) -> bool;

    /// What it refers to.
    fn associated<'a>(&self, lumps: &'a Lumps) -> (r: &'a T)
        requires
            self.refers_into(lumps),
        ensures
            self.refers_to(lumps, r),
    ;
}

impl Associated<TextureInfo> for Face {
    open spec fn refers_into(&self, lumps: &Lumps) -> bool {
        0 <= self.texture_info_index < lumps.texture_infos@.len()
    }

    open spec fn refers_to(&self, lumps: &Lumps, t: &TextureInfo) -> bool {
        *t == lumps.texture_infos@[self.texture_info_index as int]
    }

    fn associated<'a>(&self, lumps: &'a Lumps) -> (r: &'a TextureInfo) {
        &lumps.texture_infos[self.texture_info_index as usize]
    }
}

impl Associated<Plane> for Face {
    open spec fn refers_into(&self, lumps: &Lumps) -> bool {
        self.plane_index < lumps.planes@.len()
    }

    open spec fn refers_to(&self, lumps: &Lumps, t: &Plane) -> bool {
        *t == lumps.planes@[self.plane_index as int]
    }

    fn associated<'a>(&self, lumps: &'a Lumps) -> (r: &'a Plane) {
        &lumps.planes[self.plane_index as usize]
    }
}

impl Associated<[SurfaceEdge]> for Face {
    open spec fn refers_into(&self, lumps: &Lumps) -> bool {
        &&& 0 <= self.edge_index
        &&& 0 <= self.edge_count
        &&& self.edge_index + self.edge_count <= lumps.surface_edges@.len()
    }

    open spec fn refers_to(&self, lumps: &Lumps, t: &[SurfaceEdge]) -> bool {
        t@ == lumps.surface_edges@.subrange(
            self.edge_index as int,
            self.edge_index + self.edge_count,
        )
    }

    fn associated<'a>(&self, lumps: &'a Lumps) -> (r: &'a [SurfaceEdge]) {
        let start: usize = self.edge_index as usize;
        let count: usize = self.edge_count as usize;
        vstd::slice::slice_subrange(lumps.surface_edges.as_slice(), start, start + count)
    }
}

impl Associated<Edge> for SurfaceEdge {
    open spec fn refers_into(&self, lumps: &Lumps) -> bool {
        magnitude(self.edge_index) < lumps.edges@.len()
    }

    open spec fn refers_to(&self, lumps: &Lumps, t: &Edge) -> bool {
        *t == lumps.edges@[magnitude(self.edge_index)]
    }

    fn associated<'a>(&self, lumps: &'a Lumps) -> (r: &'a Edge) {
        let i: usize = if self.edge_index < 0 {
            (-(self.edge_index as i64)) as usize
        } else {
            self.edge_index as usize
        };
        &lumps.edges[i]
    }
}

impl SurfaceEdge {
    /// Whether the edge is in the list of edges.
    pub fn is_there(&self, lumps: &Lumps) -> (r: bool)
        ensures
            r == self.refers_into(lumps),
    {
        let i: u64 = if self.edge_index < 0 {
            (-(self.edge_index as i64)) as u64
        } else {
            self.edge_index as u64
        };
        i < lumps.edges.len() as u64
    }
}

/// `|n|`.
pub open spec fn magnitude(n: i32) -> int {
    if n < 0 {
        -n
    } else {
        n as int
    }
}

/// Every reference goes to the place that its number says, counted from the start of the
/// list: that of a face to its texture and to its plane, and that to its edges to as many
/// as it has, one behind the other.
pub proof fn references_go_by_number(
    face: Face,
    lumps: &Lumps,
    texture: &TextureInfo,
    plane: &Plane,
    edges: &[SurfaceEdge],
    k: int,
)
    requires
        <Face as Associated<TextureInfo>>::refers_to(&face, lumps, texture),
        <Face as Associated<Plane>>::refers_to(&face, lumps, plane),
        <Face as Associated<[SurfaceEdge]>>::refers_into(&face, lumps),
        <Face as Associated<[SurfaceEdge]>>::refers_to(&face, lumps, edges),
    ensures
        texture == lumps.texture_infos@[face.texture_info_index as int],
        plane == lumps.planes@[face.plane_index as int],
        edges@.len() == face.edge_count,
        0 <= k < face.edge_count ==> edges@[k] == lumps.surface_edges@[face.edge_index + k],
{
}

/// A reference goes nowhere if and only if its number is not that of a place in the list.
pub proof fn references_can_be_broken(face: Face, lumps: &Lumps)
    ensures
        <Face as Associated<TextureInfo>>::refers_into(&face, lumps) <==> 0
            <= face.texture_info_index && face.texture_info_index < lumps.texture_infos@.len(),
        <Face as Associated<Plane>>::refers_into(&face, lumps) <==> face.plane_index
            < lumps.planes@.len(),
        <Face as Associated<[SurfaceEdge]>>::refers_into(&face, lumps) <==> 0 <= face.edge_index
            && 0 <= face.edge_count && face.edge_index + face.edge_count
            <= lumps.surface_edges@.len(),
{
}

/// An edge and the same edge the other way round are one edge of the list.
pub proof fn both_directions_are_one_edge(a: SurfaceEdge, b: SurfaceEdge, lumps: &Lumps, edge: &Edge)
    requires
        a.edge_index == -b.edge_index,
    ensures
        a.refers_into(lumps) <==> b.refers_into(lumps),
        a.refers_to(lumps, edge) <==> b.refers_to(lumps, edge),
        a.edge_index >= 0 ==> (a.refers_into(lumps) <==> a.edge_index < lumps.edges@.len()),
        a.edge_index >= 0 ==> (a.refers_to(lumps, edge) <==> edge
            == lumps.edges@[a.edge_index as int]),
{
}

} // verus!
