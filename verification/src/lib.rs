//! Progress tracking for timely dataflow: operators exchange timestamped
//! batches of records, and each operator learns, from counts of outstanding
//! messages and capabilities alone, when a timestamp is complete.

use vstd::prelude::*;

pub mod dataflow;
pub mod progress;

verus! {

/// Records carried by a stream. A batch is handed to every subscriber of an
/// output, so a record must be able to produce an equal copy of itself.
pub trait Data: Sized {
    /// An equal copy of this record.
    fn duplicate(&self) -> (copy: Self)
        ensures
            copy == *self,
    ;
}

impl Data for u64 {
    fn duplicate(&self) -> (copy: Self) {
        *self
    }
}

impl Data for i64 {
    fn duplicate(&self) -> (copy: Self) {
        *self
    }
}

impl Data for u32 {
    fn duplicate(&self) -> (copy: Self) {
        *self
    }
}

impl Data for u8 {
    fn duplicate(&self) -> (copy: Self) {
        *self
    }
}

impl Data for bool {
    fn duplicate(&self) -> (copy: Self) {
        *self
    }
}

impl<A: Data, B: Data> Data for (A, B) {
    fn duplicate(&self) -> (copy: Self) {
        (self.0.duplicate(), self.1.duplicate())
    }
}

} // verus!
