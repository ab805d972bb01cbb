//! Handles for binary map nodes.

use vstd::prelude::*;

use crate::node::traits::Observable;

verus! {

/// A handle for a binary map node: value = f(op, left value, right value).
#[derive(Clone, Copy, PartialEq, Eq, Structural)]
pub struct Map2 {
    /// Id of the map node inside its graph.
    pub id: usize,
}

impl Observable for Map2 {
    open spec fn node_id(&self) -> int {
        self.id as int
    }

    fn id(&self) -> usize {
        self.id
    }
}

} // verus!
