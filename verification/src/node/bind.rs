//! Handles for bind nodes.

use vstd::prelude::*;

use crate::node::traits::Observable;

verus! {

/// A handle for a bind node: a node that forwards the value of one of
/// two candidate nodes, chosen from a selector's value. Its dependency
/// set changes at runtime; only the active candidate is an edge.
#[derive(Clone, Copy, PartialEq, Eq, Structural)]
pub struct Bind1 {
    /// Id of the bind node inside its graph.
    pub id: usize,
}

impl Observable for Bind1 {
    open spec fn node_id(&self) -> int {
        self.id as int
    }

    fn id(&self) -> usize {
        self.id
    }
}

} // verus!
