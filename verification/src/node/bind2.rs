//! The two-candidate bind handle used by the `Graph` front end.

use vstd::prelude::*;

use crate::node::traits::Observable;

verus! {

/// A handle for a bind node over exactly two captured candidates, as
/// produced by `Graph::bind2`.
#[derive(Clone, Copy, PartialEq, Eq, Structural)]
pub struct Bind2 {
    /// Id of the bind node inside its graph.
    pub id: usize,
}

impl Observable for Bind2 {
    open spec fn node_id(&self) -> int {
        self.id as int
    }

    fn id(&self) -> usize {
        self.id
    }
}

impl Bind2 {
    /// Wrap a node id in a bind handle.
    pub fn make(id: usize) -> (r: Bind2)
        ensures
            r.node_id() == id as int,
    {
        Bind2 { id }
    }
}

} // verus!
