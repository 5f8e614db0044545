//! Identifiers that the control loop holds on to.

use vstd::prelude::*;

verus! {

/// A copyable reference to a node of the graph: a slot and the generation the
/// slot had when the node was created. It borrows nothing from the graph, so
/// it may go stale; the graph store alone decides whether it still names a
/// node.
#[derive(Clone, Copy, Debug, PartialEq, Eq, Hash, Structural)]
pub struct NodeHandle {
    pub slot: usize,
    pub generation: u64,
}

/// The label of the stage of a host tick in which the audio graph is brought
/// up to date. Systems that edit the graph are ordered before it.
#[derive(Clone, Copy, Debug, PartialEq, Eq, Hash, Structural)]
pub struct AudioGraphProcessing;

/// What a host entity carries to name its node of the graph.
#[derive(Clone, Copy, Debug, PartialEq, Eq, Hash, Structural)]
pub struct NodeRef(pub NodeHandle);

impl core::ops::Deref for NodeRef {
    type Target = NodeHandle;

    /// The handle that this reference carries.
    fn deref(&self) -> (h: &NodeHandle)
        ensures
            *h == self.0,
    {
        &self.0
    }
}

/// Pairs the identifier of a sample buffer held by the audio side with the
/// identifier of the host asset it was loaded from.
#[derive(Clone, Copy, Debug, PartialEq, Eq, Hash, Structural)]
pub struct AudioHandleRef {
    pub buffer: u64,
    pub handle: u64,
}

} // verus!
