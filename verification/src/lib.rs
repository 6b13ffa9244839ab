//! Baking the lighting of maps.
//!
//! The lights of a map, its triangles and the luxels of its faces go in; a plan of
//! the work on the graphics device and the bytes of the lighting come out. Floating
//! point numbers are held by their bit patterns: the library compares them and
//! takes them apart, and leaves calculating with them to the program around it.

pub mod color;
pub mod duration;
pub mod geometry;
pub mod lightmap;
pub mod lights;
pub mod lumps;
pub mod raytrace;
pub mod sampling;
pub mod shading;
pub mod shared;
pub mod single;
pub mod texels;
pub mod text;
pub mod timing;
pub mod valve_kv;
pub mod vulkan;
pub mod words;
