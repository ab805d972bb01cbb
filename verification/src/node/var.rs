//! Handles for variable nodes.

use vstd::prelude::*;

use crate::node::traits::{MaybeDirty, Observable};
use crate::node::{Incrementars, NodeKind};

verus! {

/// A handle for a variable node: the one kind of node whose value is
/// written from outside the graph.
#[derive(Clone, Copy, PartialEq, Eq, Structural)]
pub struct Var {
    /// Id of the variable node inside its graph.
    pub id: usize,
}

impl Observable for Var {
    open spec fn node_id(&self) -> int {
        self.id as int
    }

    fn id(&self) -> usize {
        self.id
    }
}

impl MaybeDirty for Var {

}

impl Var {
    /// Stage a new value: write it into the node and mark the node dirty.
    /// Nothing is scheduled here; changes batch until `stablize`.
    pub fn set<T, F1, F2, FC>(&self, dag: &mut Incrementars<T, F1, F2, FC>, value: T) where
        T: Clone,
        F1: Fn(u64, &T) -> T,
        F2: Fn(u64, &T, &T) -> T,
        FC: Fn(u64, &T) -> bool,

        requires
            old(dag).wf(),
            0 <= self.node_id() < old(dag).n(),
            old(dag).kind_at(self.node_id()) is Var,
        ensures
            final(dag).wf(),
            final(dag).values@ == old(dag).values@.update(self.node_id(), value),
            final(dag).dirty@ == old(dag).dirty@.update(self.node_id(), true),
            final(dag).kinds@ == old(dag).kinds@,
            final(dag).heights@ == old(dag).heights@,
            final(dag).children@ == old(dag).children@,
            final(dag).map_fn == old(dag).map_fn,
            final(dag).map2_fn == old(dag).map2_fn,
            final(dag).choose_fn == old(dag).choose_fn,
            final(dag).last_pass == old(dag).last_pass,
            old(dag).explained() ==> final(dag).explained(),
    {
        let id = self.id;
        dag.values.set(id, value);
        dag.dirty.set(id, true);
        proof {
            assert forall|i: int|
                0 <= i < dag.n() && #[trigger] dag.dirty_at(i) implies dag.kind_at(i) is Var by {
                if i != id as int {
                    assert(old(dag).dirty_at(i));
                }
            }
            crate::node::lemma_wf_same_structure(*old(dag), *dag);
            if old(dag).explained() {
                assert forall|i: int|
                    0 <= i < dag.n() implies (#[trigger] dag.node_ok(i) || exists|p: int|
                    #[trigger] dag.is_parent(p, i) && dag.dirty_at(p)) by {
                    if dag.is_parent(id as int, i) {
                        assert(dag.is_parent(id as int, i) && dag.dirty_at(id as int));
                    } else {
                        assert(old(dag).node_ok(i) || exists|p: int|
                            #[trigger] old(dag).is_parent(p, i) && old(dag).dirty_at(p));
                        if old(dag).node_ok(i) {
                            assert(dag.node_ok(i));
                        } else {
                            let p = choose|p: int|
                                #[trigger] old(dag).is_parent(p, i) && old(dag).dirty_at(p);
                            assert(dag.is_parent(p, i) && dag.dirty_at(p));
                        }
                    }
                }
            }
        }
    }
}

} // verus!
