//! An event notification library: validated event envelopes, an in-process
//! bus with wildcard topic matching, a wire codec for a distributed bus,
//! and the small validated value objects used alongside them.

pub mod cache;
pub mod clock;
pub mod collections;
pub mod errors;
pub mod events;
pub mod json;
pub mod models;
pub mod text;
