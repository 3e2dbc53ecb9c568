//! Operators built on the progress protocol.

pub mod binary;
pub mod feedback;
pub mod input;
