//! What is decided about the graphics device. The device itself is driven by the
//! program; numbers that stand for flags and enumerations are those of Vulkan.

pub mod application;
pub mod buffer;
pub mod context;
pub mod debug;
pub mod geometry;
pub mod names;
