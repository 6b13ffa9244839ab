//! Ray tracing: what is recorded for the device, in which order, and with which
//! resources.

pub mod acceleration;
pub mod bake;
pub mod bindings;
pub mod lighting;
pub mod steps;
pub mod timestamps;
