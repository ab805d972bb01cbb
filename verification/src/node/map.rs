//! Handles for unary map nodes.

use vstd::prelude::*;

use crate::node::traits::Observable;

verus! {

/// A handle for a unary map node: value = f(op, parent value).
#[derive(Clone, Copy, PartialEq, Eq, Structural)]
pub struct Map1 {
    /// Id of the map node inside its graph.
    pub id: usize,
}

impl Observable for Map1 {
    open spec fn node_id(&self) -> int {
        self.id as int
    }

    fn id(&self) -> usize {
        self.id
    }
}

impl Map1 {
    /// A copy of this handle, for wiring it as the input of another node.
    pub fn as_input(&self) -> (r: Map1)
        ensures
            r == *self,
    {
        Map1 { id: self.id }
    }
}

} // verus!
