//! Streams of timestamped batches of records, and the operators on them.

pub mod channels;
pub mod operators;
pub mod scope;

pub use scope::{Scope, Stream};
