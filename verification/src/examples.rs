//! A verified walk-through of the engine: build a small graph, stage a
//! change, stabilize, and prove from the contracts alone which values
//! every observer reads afterwards.

use vstd::prelude::*;

use crate::node::Incrementars;
use crate::node::traits::Observable;

verus! {

/// The bound below which the example's interpreter increments; above it,
/// it yields zero, so that it accepts every input.
pub const EXAMPLE_CAP: i64 = 1000000;

/// What the example's unary interpreter computes: the successor of small
/// values, zero otherwise.
pub open spec fn inc_spec(x: i64) -> i64 {
    if x < EXAMPLE_CAP {
        (x + 1) as i64
    } else {
        0
    }
}

/// Build a variable feeding one map node, stage a change, stabilize, and
/// prove that the map node ends up holding exactly the successor of the
/// staged value.
pub fn _example() {
    let inc = |op: u64, x: &i64| -> (r: i64)
        ensures
            r == inc_spec(*x),
        {
            if *x < EXAMPLE_CAP {
                *x + 1
            } else {
                0
            }
        };
    let keep_left = |op: u64, x: &i64, y: &i64| -> (r: i64)
        ensures
            r == *x,
        {
            *x
        };
    let never = |op: u64, x: &i64| -> (r: bool)
        ensures
            r == false,
        {
            false
        };
    let mut dag = Incrementars::new(inc, keep_left, never);
    let v = dag.var(0);
    let m = dag.map(&v, 0);
    assert(dag.val_at(m.node_id()) == 1int) by {
        assert(call_ensures(dag.map_fn, (0u64, &0i64), dag.val_at(m.node_id())));
    }
    let first = dag.observe(&m);
    assert(*first == 1);

    v.set(&mut dag, 10);
    // staged only: the map still holds the stale value
    let stale = dag.observe(&m);
    assert(*stale == 1);

    let ghost pre = dag;
    dag.stablize();
    proof {
        assert(pre.no_binds()) by {
            assert forall|i: int| 0 <= i < pre.n() implies !((#[trigger] pre.kind_at(i))
                is Bind) by {
                if i == 0 {
                    assert(pre.kind_at(0) is Var);
                } else {
                    assert(pre.kind_at(1) is Map1);
                }
            }
        }
        assert(dag.node_ok(m.node_id()));
        assert(dag.val_at(v.node_id()) == 10int);
        assert(call_ensures(dag.map_fn, (0u64, &10i64), dag.val_at(m.node_id())));
    }
    let fresh = dag.observe(&m);
    assert(*fresh == 11);
}

} // verus!
