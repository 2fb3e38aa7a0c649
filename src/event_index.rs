use vstd::prelude::*;

verus! {

/// A process-local handle of an event: its position in the order in which
/// events entered the local graph.
#[derive(Clone, Copy, Debug, PartialEq, Eq, Structural, PartialOrd, Ord, Hash)]
pub struct EventIndex(pub usize);

impl EventIndex {
    /// The position of the event in the local topological order.
    pub fn topological_index(self) -> (r: usize)
        ensures
            r == self.0,
    {
        self.0
    }
}

} // verus!
