//! The triangles that rays can hit.

use vstd::prelude::*;

use crate::lumps;
use crate::lumps::{Associated, Edge, Face, Lumps, SurfaceEdge, TextureInfo};

verus! {

/// The sky, as a flat picture.
pub const SKY2D: u16 = 0x2;

/// The sky.
pub const SKY: u16 = 0x4;

/// The volume of a trigger.
pub const TRIGGER: u16 = 0x40;

/// Not drawn.
pub const NODRAW: u16 = 0x80;

/// A hint to the visibility of a map.
pub const HINT: u16 = 0x100;

/// Ignored.
pub const SKIP: u16 = 0x200;

/// Faces with one of these flags are not there for light.
pub const INVISIBLE_FLAGS: u16 = 0x3c0;

/// Faces with one of these flags show the sky.
pub const SKY_FLAGS: u16 = 0x6;

/// What a face is for light.
#[derive(Debug, Clone, Copy, PartialEq, Eq, Structural)]
pub enum Category {
    Invisible,
    Solid,
    Sky,
}

/// What a face whose texture has the given flags is for light. The lower sixteen
/// flags count.
pub open spec fn category_of(flags: i32) -> Category {
    let flags = flags as u16;
    if flags & (NODRAW | TRIGGER | HINT | SKIP) != 0 {
        Category::Invisible
    } else if flags & (SKY | SKY2D) != 0 {
        Category::Sky
    } else {
        Category::Solid
    }
}

/// What a face whose texture has the given flags is for light.
pub fn category(flags: i32) -> (r: Category)
    ensures
        r == category_of(flags),
{
    assert(0x80u16 | 0x40u16 | 0x100u16 | 0x200u16 == 0x3c0u16 && 0x4u16 | 0x2u16 == 0x6u16)
        by (bit_vector);
    let flags: u16 =
        #[verifier::truncate]
        (flags as u16);
    if flags & INVISIBLE_FLAGS != 0 {
        Category::Invisible
    } else if flags & SKY_FLAGS != 0 {
        Category::Sky
    } else {
        Category::Solid
    }
}

/// The texture of a face.
pub open spec fn texture(lumps: &Lumps, face: Face) -> TextureInfo {
    lumps.texture_infos@[face.texture_info_index as int]
}

/// What a face is for light.
pub open spec fn face_category(lumps: &Lumps, face: Face) -> Category {
    category_of(texture(lumps, face).flags)
}

/// The edges of a face.
pub open spec fn boundary(lumps: &Lumps, face: Face) -> Seq<SurfaceEdge> {
    lumps.surface_edges@.subrange(face.edge_index as int, face.edge_index + face.edge_count)
}

/// The vertex at which an edge of a face starts.
pub open spec fn start_vertex(lumps: &Lumps, e: SurfaceEdge) -> u16 {
    let edge = lumps.edges@[lumps::magnitude(e.edge_index)];
    if e.edge_index < 0 {
        edge.edge@[1]
    } else {
        edge.edge@[0]
    }
}

/// The vertices of a face, in order.
pub open spec fn corners(lumps: &Lumps, face: Face) -> Seq<u16> {
    boundary(lumps, face).map_values(|e: SurfaceEdge| start_vertex(lumps, e))
}

/// The fan of triangles over corners: each has the first corner and two
/// neighbours.
pub open spec fn fan(corners: Seq<u16>) -> Seq<u16> {
    if corners.len() < 3 {
        Seq::empty()
    } else {
        Seq::new(
            (3 * (corners.len() - 2)) as nat,
            |i: int|
                if i % 3 == 0 {
                    corners[0]
                } else {
                    corners[i / 3 + i % 3]
                },
        )
    }
}

/// Everything that the triangles of a face take from the map is there.
pub open spec fn face_is_there(lumps: &Lumps, face: Face) -> bool {
    &&& <Face as Associated<TextureInfo>>::refers_into(&face, lumps)
    &&& face_category(lumps, face) != Category::Invisible ==> {
        &&& <Face as Associated<[SurfaceEdge]>>::refers_into(&face, lumps)
        &&& forall|i: int|
            0 <= i < boundary(lumps, face).len() ==> (#[trigger] boundary(
                lumps,
                face,
            )[i]).refers_into(lumps)
    }
}

/// Whether everything that the triangles of a face take from the map is there.
pub fn has_face(lumps: &Lumps, face: &Face) -> (r: bool)
    ensures
        r == face_is_there(lumps, *face),
{
    if face.texture_info_index < 0 || face.texture_info_index as usize
        >= lumps.texture_infos.len() {
        return false;
    }
    let tex: &TextureInfo = face.associated(lumps);
    match category(tex.flags) {
        Category::Invisible => {
            return true;
        },
        _ => {},
    }
    if face.edge_index < 0 || face.edge_count < 0 || face.edge_index as u64
        + face.edge_count as u64 > lumps.surface_edges.len() as u64 {
        return false;
    }
    let surface_edges: &[SurfaceEdge] = face.associated(lumps);
    assert(surface_edges@ == boundary(lumps, *face));
    let n: usize = surface_edges.len();
    let mut i: usize = 0;
    while i < n
        invariant
            i <= n == surface_edges@.len(),
            surface_edges@ == boundary(lumps, *face),
            face_category(lumps, *face) != Category::Invisible,
            forall|j: int| 0 <= j < i ==> (#[trigger] surface_edges@[j]).refers_into(lumps),
        decreases n - i,
    {
        if !surface_edges[i].is_there(lumps) {
            assert(!boundary(lumps, *face)[i as int].refers_into(lumps));
            return false;
        }
        i = i + 1;
    }
    true
}

/// The triangles of a face, as a fan over its vertices.
pub fn triangulate(lumps: &Lumps, face: &Face) -> (r: Vec<u16>)
    requires
        <Face as Associated<[SurfaceEdge]>>::refers_into(face, lumps),
        forall|i: int|
            0 <= i < boundary(lumps, *face).len() ==> (#[trigger] boundary(
                lumps,
                *face,
            )[i]).refers_into(lumps),
    ensures
        r@ == fan(corners(lumps, *face)),
{
    let surface_edges: &[SurfaceEdge] = face.associated(lumps);
    let ghost cs = corners(lumps, *face);
    assert(surface_edges@ == boundary(lumps, *face));
    let mut tris: Vec<u16> = Vec::new();
    let n: usize = surface_edges.len();
    if n < 2 {
        assert(tris@ =~= fan(cs));
        return tris;
    }
    let pivot: u16 = first_vertex(lumps, &surface_edges[0]);
    let mut prev: u16 = first_vertex(lumps, &surface_edges[1]);
    let mut i: usize = 2;
    while i < n
        invariant
            2 <= i <= n,
            n == surface_edges@.len(),
            surface_edges@ == boundary(lumps, *face),
            cs == corners(lumps, *face),
            pivot == cs[0],
            prev == cs[i - 1],
            forall|i: int|
                0 <= i < surface_edges@.len() ==> (#[trigger] surface_edges@[i]).refers_into(lumps),
            tris@ == fan(cs.take(i as int)),
        decreases n - i,
    {
        let current: u16 = first_vertex(lumps, &surface_edges[i]);
        tris.push(pivot);
        tris.push(prev);
        tris.push(current);
        prev = current;
        i = i + 1;
        assert(tris@ =~= fan(cs.take(i as int)));
    }
    assert(cs.take(n as int) =~= cs);
    tris
}

/// The vertex at which an edge of a face starts.
fn first_vertex(lumps: &Lumps, e: &SurfaceEdge) -> (r: u16)
    requires
        e.refers_into(lumps),
    ensures
        r == start_vertex(lumps, *e),
{
    let edge: &Edge = e.associated(lumps);
    if e.edge_index < 0 {
        edge.edge[1]
    } else {
        edge.edge[0]
    }
}

/// The triangles of those of the first `n` faces that are of the category `c`.
pub open spec fn indices_of(lumps: &Lumps, faces: Seq<Face>, c: Category, n: nat) -> Seq<u16>
    decreases n,
{
    if n == 0 {
        Seq::empty()
    } else {
        let before = indices_of(lumps, faces, c, (n - 1) as nat);
        if face_category(lumps, faces[n - 1]) == c {
            before + fan(corners(lumps, faces[n - 1]))
        } else {
            before
        }
    }
}

/// The triangles of the solid faces, and those of the faces that show the sky.
pub fn collect_geometry(lumps: &Lumps, faces: &[Face]) -> (r: (Vec<u16>, Vec<u16>))
    requires
        forall|i: int| 0 <= i < faces@.len() ==> face_is_there(lumps, #[trigger] faces@[i]),
    ensures
        r.0@ == indices_of(lumps, faces@, Category::Solid, faces@.len()),
        r.1@ == indices_of(lumps, faces@, Category::Sky, faces@.len()),
{
    let mut solid_indices: Vec<u16> = Vec::new();
    let mut sky_indices: Vec<u16> = Vec::new();
    let n: usize = faces.len();
    let mut i: usize = 0;
    while i < n
        invariant
            i <= n == faces@.len(),
            forall|i: int| 0 <= i < faces@.len() ==> face_is_there(lumps, #[trigger] faces@[i]),
            solid_indices@ == indices_of(lumps, faces@, Category::Solid, i as nat),
            sky_indices@ == indices_of(lumps, faces@, Category::Sky, i as nat),
        decreases n - i,
    {
        let face = &faces[i];
        assert(face_is_there(lumps, faces@[i as int]));
        let tex: &TextureInfo = face.associated(lumps);
        match category(tex.flags) {
            Category::Solid => {
                let mut tris: Vec<u16> = triangulate(lumps, face);
                solid_indices.append(&mut tris);
            },
            Category::Sky => {
                let mut tris: Vec<u16> = triangulate(lumps, face);
                sky_indices.append(&mut tris);
            },
            Category::Invisible => {},
        }
        i = i + 1;
    }
    (solid_indices, sky_indices)
}

/// The index is that of a corner of a face of the category `c`.
pub open spec fn is_corner(lumps: &Lumps, faces: Seq<Face>, c: Category, v: u16) -> bool {
    exists|f: int|
        #![trigger faces[f]]
        0 <= f < faces.len() && face_category(lumps, faces[f]) == c && corners(
            lumps,
            faces[f],
        ).contains(v)
}

/// The triangles are whole, and their indices are those of corners of faces of
/// the category.
pub proof fn triangles_are_whole(lumps: &Lumps, faces: Seq<Face>, c: Category)
    ensures
        indices_of(lumps, faces, c, faces.len()).len() % 3 == 0,
        forall|i: int|
            0 <= i < indices_of(lumps, faces, c, faces.len()).len() ==> is_corner(
                lumps,
                faces,
                c,
                #[trigger] indices_of(lumps, faces, c, faces.len())[i],
            ),
{
    lemma_whole(lumps, faces, c, faces.len());
}

proof fn lemma_whole(lumps: &Lumps, faces: Seq<Face>, c: Category, n: nat)
    requires
        n <= faces.len(),
    ensures
        indices_of(lumps, faces, c, n).len() % 3 == 0,
        forall|i: int|
            0 <= i < indices_of(lumps, faces, c, n).len() ==> is_corner(
                lumps,
                faces,
                c,
                #[trigger] indices_of(lumps, faces, c, n)[i],
            ),
    decreases n,
{
    if n > 0 {
        lemma_whole(lumps, faces, c, (n - 1) as nat);
        let before = indices_of(lumps, faces, c, (n - 1) as nat);
        let after = indices_of(lumps, faces, c, n);
        let cs = corners(lumps, faces[n - 1]);
        assert forall|i: int| 0 <= i < after.len() implies is_corner(
            lumps,
            faces,
            c,
            #[trigger] after[i],
        ) by {
            if i < before.len() {
                assert(after[i] == before[i]);
            } else {
                let k = i - before.len();
                let j = if k % 3 == 0 {
                    0
                } else {
                    k / 3 + k % 3
                };
                assert(after[i] == cs[j]);
                assert(cs.contains(cs[j]));
                assert(faces[n - 1] == faces[n - 1]);
            }
        }
    }
}

/// A fan over three or more corners has a triangle for each corner but two. Each
/// one has the first corner, and the rest of its boundary is a side of the face.
pub proof fn fan_covers_face(corners: Seq<u16>, t: int)
    requires
        0 <= t < corners.len() - 2,
    ensures
        fan(corners).len() == 3 * (corners.len() - 2),
        fan(corners)[3 * t] == corners[0],
        fan(corners)[3 * t + 1] == corners[t + 1],
        fan(corners)[3 * t + 2] == corners[t + 2],
{
}

/// A face is invisible if and only if it has one of four flags: that of a trigger
/// (0x40), of what is not drawn (0x80), of a hint (0x100) or of what is skipped (0x200).
/// Else it shows the sky if and only if it has one of the two flags of the sky (0x2 and
/// 0x4). No other flag changes what a face is: two words of flags that agree on these six
/// are of one category.
pub proof fn six_flags_decide(flags: i32, other: i32)
    ensures
        category_of(flags) == Category::Invisible <==> flags & 0x40 != 0 || flags & 0x80 != 0
            || flags & 0x100 != 0 || flags & 0x200 != 0,
        category_of(flags) == Category::Sky <==> category_of(flags) != Category::Invisible && (flags
            & 0x2 != 0 || flags & 0x4 != 0),
        flags & 0x3c6 == other & 0x3c6 ==> category_of(flags) == category_of(other),
{
    lemma_flags(flags);
    lemma_flags(other);
    assert(flags & 0x3c6 == other & 0x3c6 ==> flags & 0x3c0 == other & 0x3c0 && flags & 0x6 == other
        & 0x6) by (bit_vector);
    assert((flags & 0x3c0 != 0 <==> flags & 0x40 != 0 || flags & 0x80 != 0 || flags & 0x100 != 0
        || flags & 0x200 != 0) && (flags & 0x6 != 0 <==> flags & 0x2 != 0 || flags & 0x4 != 0))
        by (bit_vector);
}

/// The flags that decide are among the lower sixteen.
proof fn lemma_flags(flags: i32)
    ensures
        category_of(flags) == if flags & 0x3c0 != 0 {
            Category::Invisible
        } else if flags & 0x6 != 0 {
            Category::Sky
        } else {
            Category::Solid
        },
{
    assert(((flags as u16) & (0x80u16 | 0x40u16 | 0x100u16 | 0x200u16) != 0 <==> flags & 0x3c0 != 0)
        && ((flags as u16) & (0x4u16 | 0x2u16) != 0 <==> flags & 0x6 != 0)) by (bit_vector);
}

/// Along the boundary of a face, the corner at each edge is the end at which the face
/// enters the edge: the first one where the edge is listed as it is, the second one where
/// it is turned round. Turning an edge round gives its other end.
pub proof fn corners_follow_the_boundary(lumps: &Lumps, face: Face, i: int)
    requires
        0 <= face.edge_index,
        0 <= i < face.edge_count,
        face.edge_index + face.edge_count <= lumps.surface_edges@.len(),
    ensures
        corners(lumps, face).len() == face.edge_count,
        ({
            let k = lumps.surface_edges@[face.edge_index + i].edge_index as int;
            &&& k >= 0 ==> corners(lumps, face)[i] == lumps.edges@[k].edge@[0]
            &&& k < 0 ==> corners(lumps, face)[i] == lumps.edges@[-k].edge@[1]
        }),
{
}

/// The first face of a list has no say in the triangles of the faces behind it, and the
/// last one none in those before it: the triangles of two lists in a row are those of the
/// one and then those of the other.
pub proof fn lists_are_joined(lumps: &Lumps, a: Seq<Face>, b: Seq<Face>, c: Category)
    ensures
        indices_of(lumps, a + b, c, a.len() + b.len()) == indices_of(lumps, a, c, a.len())
            + indices_of(lumps, b, c, b.len()),
{
    lemma_joined(lumps, a, b, c, b.len());
}

proof fn lemma_joined(lumps: &Lumps, a: Seq<Face>, b: Seq<Face>, c: Category, n: nat)
    requires
        n <= b.len(),
    ensures
        indices_of(lumps, a + b, c, a.len() + n) == indices_of(lumps, a, c, a.len()) + indices_of(
            lumps,
            b,
            c,
            n,
        ),
    decreases n,
{
    if n == 0 {
        lemma_prefix(lumps, a, b, c, a.len());
        assert(indices_of(lumps, a, c, a.len()) + indices_of(lumps, b, c, 0) =~= indices_of(
            lumps,
            a,
            c,
            a.len(),
        ));
    } else {
        lemma_joined(lumps, a, b, c, (n - 1) as nat);
        assert((a + b)[a.len() + n - 1] == b[n - 1]);
        assert(indices_of(lumps, a + b, c, a.len() + n) =~= indices_of(lumps, a, c, a.len())
            + indices_of(lumps, b, c, n));
    }
}

proof fn lemma_prefix(lumps: &Lumps, a: Seq<Face>, b: Seq<Face>, c: Category, n: nat)
    requires
        n <= a.len(),
    ensures
        indices_of(lumps, a + b, c, n) == indices_of(lumps, a, c, n),
    decreases n,
{
    if n > 0 {
        lemma_prefix(lumps, a, b, c, (n - 1) as nat);
        assert((a + b)[n - 1] == a[n - 1]);
    }
}

/// The triangles of one face are in one list alone: in that of solid faces, or in that of
/// the sky, or in none. There it has all of its triangles: for each corner but two the
/// first corner, that corner's neighbour and the next one.
pub proof fn a_face_has_its_triangles(lumps: &Lumps, face: Face, c: Category, t: int)
    requires
        0 <= face.edge_index,
        0 <= face.edge_count,
        face.edge_index + face.edge_count <= lumps.surface_edges@.len(),
        0 <= t < face.edge_count - 2,
    ensures
        ({
            let flags = lumps.texture_infos@[face.texture_info_index as int].flags;
            let list = indices_of(lumps, seq![face], c, 1);
            let cs = corners(lumps, face);
            &&& category_of(flags) != c ==> list.len() == 0
            &&& category_of(flags) == c ==> {
                &&& list.len() == 3 * (face.edge_count - 2)
                &&& list[3 * t] == cs[0]
                &&& list[3 * t + 1] == cs[t + 1]
                &&& list[3 * t + 2] == cs[t + 2]
            }
        }),
{
    reveal_with_fuel(indices_of, 2);
    let cs = corners(lumps, face);
    fan_covers_face(cs, t);
    assert(indices_of(lumps, seq![face], c, 0) + fan(cs) =~= fan(cs));
}

/// A face with fewer than three corners has no triangles.
pub proof fn thin_faces_have_no_triangles(lumps: &Lumps, face: Face, c: Category)
    requires
        0 <= face.edge_index,
        0 <= face.edge_count < 3,
        face.edge_index + face.edge_count <= lumps.surface_edges@.len(),
    ensures
        indices_of(lumps, seq![face], c, 1).len() == 0,
{
    reveal_with_fuel(indices_of, 2);
}

/// Of a face that is invisible only the texture has to be there. Of every other one its
/// edges have to be there too, and each of them with the vertices that it refers to.
pub proof fn invisible_faces_need_no_edges(lumps: &Lumps, face: Face)
    ensures
        ({
            let i = face.texture_info_index as int;
            let there = 0 <= i < lumps.texture_infos@.len();
            let invisible = category_of(lumps.texture_infos@[i].flags) == Category::Invisible;
            let (start, n) = (face.edge_index as int, face.edge_count as int);
            &&& face_is_there(lumps, face) ==> there
            &&& there && invisible ==> face_is_there(lumps, face)
            &&& there && !invisible ==> (face_is_there(lumps, face) <==> {
                &&& 0 <= start && 0 <= n && start + n <= lumps.surface_edges@.len()
                &&& forall|j: int|
                    start <= j < start + n ==> -lumps.edges@.len() < (
                    #[trigger] lumps.surface_edges@[j]).edge_index < lumps.edges@.len()
            })
        }),
{
    let (start, n) = (face.edge_index as int, face.edge_count as int);
    if 0 <= start && 0 <= n && start + n <= lumps.surface_edges@.len() {
        let edges = boundary(lumps, face);
        assert forall|j: int| start <= j < start + n implies #[trigger] lumps.surface_edges@[j]
            == edges[j - start] by {}
        assert forall|j: int| 0 <= j < edges.len() implies #[trigger] edges[j]
            == lumps.surface_edges@[start + j] by {}
        if forall|j: int| 0 <= j < edges.len() ==> (#[trigger] edges[j]).refers_into(lumps) {
            assert forall|j: int| start <= j < start + n implies -lumps.edges@.len() < (
            #[trigger] lumps.surface_edges@[j]).edge_index < lumps.edges@.len() by {
                assert(edges[j - start].refers_into(lumps));
            }
        }
    }
}

} // verus!
