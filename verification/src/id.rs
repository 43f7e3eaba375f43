//! Node identifiers.

use vstd::prelude::*;

verus! {

/// The address of a node: the index of its slot and the generation the slot
/// had when the node was stored.
///
/// An identifier does not own its node. Once the node is removed the
/// identifier is stale for good: whatever is stored in the same slot later
/// carries a greater generation.
#[derive(Clone, Copy, Debug, PartialEq, Eq, Structural, Hash, PartialOrd, Ord)]
pub struct NodeId {
    /// Index of the slot.
    pub index: usize,
    /// Generation of the slot at the time the node was stored.
    pub generation: u64,
}

impl NodeId {
    /// Builds an identifier from a slot index and a generation.
    pub fn from_raw_parts(index: usize, generation: u64) -> (id: NodeId)
        ensures
            id == (NodeId { index, generation }),
    {
        NodeId { index, generation }
    }

    /// The slot index and the generation of this identifier.
    pub fn into_raw_parts(self) -> (parts: (usize, u64))
        ensures
            parts == (self.index, self.generation),
    {
        (self.index, self.generation)
    }
}

} // verus!
