//! Shared behavior of node handles, and the events a recomputation emits.

use vstd::prelude::*;

verus! {

/// An event emitted by recomputing one node. Nodes never mutate the
/// graph's edge table themselves; they only report what happened, and the
/// engine applies the structural consequences.
pub enum StablizationCallback {
    /// The recomputed value may differ from the previous one; the node's
    /// children must be scheduled.
    ValueChanged,
    /// Emitted only by a bind node whose active candidate changed: the
    /// edges `from -> bind` must be removed and `to -> bind` added.
    DependenciesUpdated { from: Vec<usize>, to: Vec<usize> },
}

/// A handle that names a node of some graph by its id.
pub trait Observable: Sized {
    /// The id of the node this handle refers to.
    spec fn node_id(&self) -> int;

    /// Executable access to the node id.
    fn id(&self) -> (r: usize)
        ensures
            r as int == self.node_id(),
    ;
}

/// Marker for handles of nodes that can hold changes staged from outside
/// the graph (variables); only such nodes seed a stabilization pass.
pub trait MaybeDirty: Observable {

}

} // verus!
