//! How vertices and indices lie in a buffer.

use vstd::prelude::*;

verus! {

/// Three single-precision numbers.
pub const R32G32B32_SFLOAT: i32 = 106;

/// Indices of sixteen bits.
pub const UINT16: i32 = 0;

/// Indices of thirty-two bits.
pub const UINT32: i32 = 1;

/// Types of vertices.
pub trait GeometryVertex {
    spec fn format() -> i32;

    /// The bytes of a vertex.
    spec fn stride() -> u64;

    fn vk_format() -> (r: i32)
        ensures
            r == Self::format(),
    ;

    fn vk_stride() -> (r: u64)
        ensures
            r == Self::stride(),
    ;
}

impl GeometryVertex for [u32; 3] {
    open spec fn format() -> i32 {
        R32G32B32_SFLOAT
    }

    open spec fn stride() -> u64 {
        12
    }

    fn vk_format() -> (r: i32) {
        R32G32B32_SFLOAT
    }

    fn vk_stride() -> (r: u64) {
        12
    }
}

/// Types of indices.
pub trait GeometryIndex {
    spec fn index_type() -> i32;

    /// The bytes of an index.
    spec fn size() -> u64;

    fn vk_index_type() -> (r: i32)
        ensures
            r == Self::index_type(),
    ;

    fn index_size() -> (r: u64)
        ensures
            r == Self::size(),
    ;
}

impl GeometryIndex for u16 {
    open spec fn index_type() -> i32 {
        UINT16
    }

    open spec fn size() -> u64 {
        2
    }

    fn vk_index_type() -> (r: i32) {
        UINT16
    }

    fn index_size() -> (r: u64) {
        2
    }
}

impl GeometryIndex for u32 {
    open spec fn index_type() -> i32 {
        UINT32
    }

    open spec fn size() -> u64 {
        4
    }

    fn vk_index_type() -> (r: i32) {
        UINT32
    }

    fn index_size() -> (r: u64) {
        4
    }
}

/// Vertices and indices take the bytes that their formats say: three numbers of four bytes
/// for a vertex, and two or four bytes for an index, by its type.
pub proof fn formats_say_how_much_there_is()
    ensures
        <[u32; 3] as GeometryVertex>::stride() == 3 * 4,
        <[u32; 3] as GeometryVertex>::format() == 106,
        8 * <u16 as GeometryIndex>::size() == 16,
        <u16 as GeometryIndex>::index_type() == 0,
        8 * <u32 as GeometryIndex>::size() == 32,
        <u32 as GeometryIndex>::index_type() == 1,
{
}

} // verus!
