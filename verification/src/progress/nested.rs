//! The places of a graph: the outputs and the inputs of its vertices.

use vstd::prelude::*;

verus! {

/// An output of a vertex.
#[derive(Clone, Copy, Debug, PartialEq, Eq, Structural)]
pub struct Source {
    pub index: usize,
    pub port: usize,
}

/// An input of a vertex.
#[derive(Clone, Copy, Debug, PartialEq, Eq, Structural)]
pub struct Target {
    pub index: usize,
    pub port: usize,
}

} // verus!
