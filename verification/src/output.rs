//! Outputs.
use crate::geometry::{Point, Rectangle};
use crate::protocol::OutputId;
use vstd::prelude::*;

verus! {

/// An output, and what part of the global space it shows.
#[derive(Clone, Copy, PartialEq, Eq, Structural, Debug)]
pub struct Output {
    pub id: OutputId,
    pub geometry: Rectangle,
}

impl Output {
    /// The size of the output is not negative.
    pub open spec fn wf(self) -> bool {
        self.geometry.size.wf()
    }

    /// Where the output lies in the global space.
    pub open spec fn location(self) -> Point {
        self.geometry.loc
    }

    /// Where the output lies in the global space.
    pub fn current_location(&self) -> (p: Point)
        ensures
            p == self.location(),
    {
        self.geometry.loc
    }
}

} // verus!
