//! A report of nested spans and events, with the time that each span took.

pub mod fields;
pub mod level;
pub mod tree;
pub mod laws;
pub mod screen;
