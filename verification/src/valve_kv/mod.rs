//! Valve's text format for lists of entities: blocks of quoted keys and values.

pub mod block;
pub mod grammar;
pub mod laws;
pub mod parser;
pub mod properties;
