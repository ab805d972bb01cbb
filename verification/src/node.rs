//! The node graph and its stabilization engine.
//!
//! Nodes are stored in an arena indexed by id: a node's id is its index in
//! the node table, ids are assigned monotonically and never reused, and
//! every node only reads from nodes with strictly smaller ids, so the
//! graph is acyclic by construction.

use vstd::multiset::Multiset;
use vstd::prelude::*;

use crate::H_MAX;
use crate::node::bind::Bind1;
use crate::node::bitmap::Bitmap;
use crate::node::map::Map1;
use crate::node::map2::Map2;
use crate::node::traits::{Observable, StablizationCallback};
use crate::node::var::Var;

pub mod bind;
pub mod bind2;
pub mod bitmap;
pub mod graph;
pub mod laws;
pub mod map;
pub mod map2;
pub mod traits;
pub mod var;

verus! {

broadcast use vstd::seq_lib::group_to_multiset_ensures, vstd::set::group_set_axioms;

/// Hard cap on the number of nodes a graph may hold. Keeping ids below
/// this bound guarantees that pseudo-heights, which never drop below
/// `H_MAX - id`, stay far away from `i64::MIN`.
pub const MAX_NODES: usize = 0x1000_0000;

/// The structural description of one node: what kind it is and which
/// earlier nodes it reads from.
#[derive(Clone, Copy)]
pub enum NodeKind {
    /// A leaf holding a value set from outside the graph.
    Var,
    /// value = f(op, value of `input`).
    Map1 { input: usize, op: u64 },
    /// value = f(op, value of `left`, value of `right`).
    Map2 { left: usize, right: usize, op: u64 },
    /// Forwards the value of one of two candidate nodes, chosen from the
    /// selector's value; `active_second` records the current choice.
    Bind { selector: usize, op: u64, first: usize, second: usize, active_second: bool },
}

impl NodeKind {
    /// All node ids this kind reads from lie strictly below `i`.
    pub open spec fn refs_below(self, i: int) -> bool {
        match self {
            NodeKind::Var => true,
            NodeKind::Map1 { input, .. } => (input as int) < i,
            NodeKind::Map2 { left, right, .. } => (left as int) < i && (right as int) < i,
            NodeKind::Bind { selector, first, second, .. } => (selector as int) < i
                && (first as int) < i && (second as int) < i,
        }
    }

    /// The id of a bind node's currently active candidate.
    pub open spec fn active(self) -> int {
        match self {
            NodeKind::Bind { first, second, active_second, .. } => if active_second {
                second as int
            } else {
                first as int
            },
            _ => -1,
        }
    }

    /// How many of this node's parent roles point at node `p`: a map over
    /// two equal inputs reads `p` twice, and a bind whose selector is also
    /// its active candidate does too. This count is exactly the number of
    /// entries `p`'s child list owes to this node.
    pub open spec fn role_count(self, p: int) -> int {
        match self {
            NodeKind::Var => 0,
            NodeKind::Map1 { input, .. } => if input as int == p {
                1
            } else {
                0
            },
            NodeKind::Map2 { left, right, .. } => (if left as int == p {
                1int
            } else {
                0
            }) + (if right as int == p {
                1int
            } else {
                0
            }),
            NodeKind::Bind { selector, .. } => (if selector as int == p {
                1int
            } else {
                0
            }) + (if self.active() == p {
                1int
            } else {
                0
            }),
        }
    }

    /// Whether `p` is one of this node's parents (selector and active
    /// candidate for a bind; inactive candidates are not parents).
    pub open spec fn is_parent_of(self, p: int) -> bool {
        self.role_count(p) > 0
    }

    /// The two kinds agree on everything except, for a bind, which
    /// candidate is active.
    pub open spec fn same_shape(self, other: NodeKind) -> bool {
        match self {
            NodeKind::Var => other is Var,
            NodeKind::Map1 { input, op } => other == NodeKind::Map1 { input, op },
            NodeKind::Map2 { left, right, op } => other == NodeKind::Map2 { left, right, op },
            NodeKind::Bind { selector, op, first, second, active_second } => match other {
                NodeKind::Bind {
                    selector: s2,
                    op: o2,
                    first: f2,
                    second: n2,
                    active_second: _,
                } => selector == s2 && op == o2 && first == f2 && second == n2,
                _ => false,
            },
        }
    }
}

/// The computation graph: the node arena, the reverse-adjacency table,
/// and the three interpreters that give meaning to the per-node operation
/// codes. `F1` evaluates unary map nodes, `F2` binary map nodes, and `FC`
/// chooses a bind node's active candidate (`true` picks the second).
#[verifier::reject_recursive_types(T)]
#[verifier::reject_recursive_types(F1)]
#[verifier::reject_recursive_types(F2)]
#[verifier::reject_recursive_types(FC)]
pub struct Incrementars<T, F1, F2, FC> where
    T: Clone,
    F1: Fn(u64, &T) -> T,
    F2: Fn(u64, &T, &T) -> T,
    FC: Fn(u64, &T) -> bool,
 {
    /// Interpreter for unary map nodes.
    pub map_fn: F1,
    /// Interpreter for binary map nodes.
    pub map2_fn: F2,
    /// Interpreter for bind nodes' choosers.
    pub choose_fn: FC,
    /// Kind and wiring of each node, indexed by id.
    pub kinds: Vec<NodeKind>,
    /// Last computed value of each node.
    pub values: Vec<T>,
    /// Pseudo-height of each node: strictly larger than the height of any
    /// of its children, used as the scheduling priority.
    pub heights: Vec<i64>,
    /// Whether a change staged on this node has not been propagated yet.
    pub dirty: Vec<bool>,
    /// Reverse adjacency: `children[p]` lists the ids that read `p`, one
    /// entry per parent role.
    pub children: Vec<Vec<usize>>,
    /// The ids recomputed by the most recent stabilization, in order.
    pub last_pass: Ghost<Seq<int>>,
}

impl<T, F1, F2, FC> Incrementars<T, F1, F2, FC> where
    T: Clone,
    F1: Fn(u64, &T) -> T,
    F2: Fn(u64, &T, &T) -> T,
    FC: Fn(u64, &T) -> bool,
 {
    /// Number of nodes in the graph.
    pub open spec fn n(&self) -> int {
        self.kinds@.len() as int
    }

    pub open spec fn kind_at(&self, i: int) -> NodeKind {
        self.kinds@[i]
    }

    pub open spec fn val_at(&self, i: int) -> T {
        self.values@[i]
    }

    pub open spec fn height_at(&self, i: int) -> int {
        self.heights@[i] as int
    }

    pub open spec fn dirty_at(&self, i: int) -> bool {
        self.dirty@[i]
    }

    pub open spec fn child_list(&self, i: int) -> Seq<usize> {
        self.children@[i]@
    }

    /// Whether the edge `p -> c` is in the graph: `c` currently reads `p`.
    pub open spec fn is_parent(&self, p: int, c: int) -> bool {
        self.kind_at(c).is_parent_of(p)
    }

    /// The smallest height among `c`'s current parents; meaningful only
    /// for non-variable nodes.
    pub open spec fn min_parent_height(&self, c: int) -> int {
        match self.kind_at(c) {
            NodeKind::Var => H_MAX as int,
            NodeKind::Map1 { input, .. } => self.height_at(input as int),
            NodeKind::Map2 { left, right, .. } => if self.height_at(left as int) <= self.height_at(
                right as int,
            ) {
                self.height_at(left as int)
            } else {
                self.height_at(right as int)
            },
            NodeKind::Bind { selector, .. } => {
                let a = self.height_at(self.kind_at(c).active());
                if self.height_at(selector as int) <= a {
                    self.height_at(selector as int)
                } else {
                    a
                }
            },
        }
    }

    /// All per-node tables have one entry per node, and the node count is
    /// capped.
    pub open spec fn sized_ok(&self) -> bool {
        &&& self.values@.len() == self.n()
        &&& self.heights@.len() == self.n()
        &&& self.dirty@.len() == self.n()
        &&& self.children@.len() == self.n()
        &&& self.n() <= MAX_NODES as int
    }

    /// Every node reads only from nodes with strictly smaller ids.
    pub open spec fn kinds_ok(&self) -> bool {
        forall|i: int| 0 <= i < self.n() ==> (#[trigger] self.kind_at(i)).refs_below(i)
    }

    /// Only variables ever carry the dirty bit.
    pub open spec fn dirty_ok(&self) -> bool {
        forall|i: int|
            0 <= i < self.n() && #[trigger] self.dirty_at(i) ==> self.kind_at(i) is Var
    }

    /// The child table matches the parent roles exactly: `children[p]`
    /// holds `c` as many times as `c` reads `p`. In particular a node
    /// never stays in the child list of a candidate it no longer observes.
    pub open spec fn edges_ok(&self) -> bool {
        forall|p: int, c: usize|
            0 <= p < self.n() ==> #[trigger] self.child_list(p).to_multiset().count(c) == (
            if (c as int) < self.n() {
                self.kind_at(c as int).role_count(p)
            } else {
                0
            })
    }

    /// Heights decrease strictly along every edge, never exceed `H_MAX`,
    /// and never drop below `H_MAX - id`; variables sit exactly at
    /// `H_MAX`.
    pub open spec fn heights_ok(&self) -> bool {
        &&& forall|i: int|
            0 <= i < self.n() ==> H_MAX - i <= #[trigger] self.height_at(i) <= H_MAX
        &&& forall|i: int|
            0 <= i < self.n() && self.kind_at(i) is Var ==> #[trigger] self.height_at(i)
                == H_MAX
        &&& forall|p: int, c: int|
            0 <= c < self.n() && #[trigger] self.is_parent(p, c) ==> self.height_at(c)
                < self.height_at(p)
    }

    /// The three interpreters accept every argument; they are closures
    /// without preconditions.
    pub open spec fn fns_total(&self) -> bool {
        &&& forall|op: u64, x: T| call_requires(self.map_fn, (op, &x))
        &&& forall|op: u64, x: T, y: T| call_requires(self.map2_fn, (op, &x, &y))
        &&& forall|op: u64, x: T| call_requires(self.choose_fn, (op, &x))
    }

    /// Well-formedness of the graph: this holds after construction and is
    /// preserved by every operation.
    pub open spec fn wf(&self) -> bool {
        &&& self.sized_ok()
        &&& self.kinds_ok()
        &&& self.dirty_ok()
        &&& self.edges_ok()
        &&& self.heights_ok()
        &&& self.fns_total()
    }

    /// Node `i`'s stored value agrees with its function of its parents'
    /// current values. A variable always agrees (its function is "whatever
    /// was last set"); a bind agrees when its recorded choice is one the
    /// chooser allows for the selector's current value and its value is a
    /// clone of the active candidate's.
    pub open spec fn node_ok(&self, i: int) -> bool {
        match self.kind_at(i) {
            NodeKind::Var => true,
            NodeKind::Map1 { input, op } => call_ensures(
                self.map_fn,
                (op, &self.val_at(input as int)),
                self.val_at(i),
            ),
            NodeKind::Map2 { left, right, op } => call_ensures(
                self.map2_fn,
                (op, &self.val_at(left as int), &self.val_at(right as int)),
                self.val_at(i),
            ),
            NodeKind::Bind { selector, op, active_second, .. } => {
                &&& call_ensures(self.choose_fn, (op, &self.val_at(selector as int)), active_second)
                &&& vstd::pervasive::cloned(self.val_at(self.kind_at(i).active()), self.val_at(i))
            },
        }
    }

    /// Every stale node is explained by a dirty parent: staleness only
    /// ever arises one step below a variable whose change has not been
    /// propagated yet.
    pub open spec fn explained(&self) -> bool {
        forall|i: int|
            0 <= i < self.n() ==> (#[trigger] self.node_ok(i) || exists|p: int|
                #[trigger] self.is_parent(p, i) && self.dirty_at(p))
    }

    /// No bind node anywhere in the graph.
    pub open spec fn no_binds(&self) -> bool {
        forall|i: int| 0 <= i < self.n() ==> !((#[trigger] self.kind_at(i)) is Bind)
    }

    /// No bind moved its active candidate between the two states: every
    /// node observes the same active parent in both. Holds trivially of
    /// any two states of a bind-free graph.
    pub open spec fn active_unchanged(&self, other: &Self) -> bool {
        forall|i: int|
            0 <= i < self.n() ==> (#[trigger] self.kind_at(i)).active() == other.kind_at(
                i,
            ).active()
    }

    /// Every node other than `i` observes the same active parent in
    /// `other` as in `self`: no bind but possibly `i` itself has moved.
    pub open spec fn others_active_unchanged(&self, other: Self, i: int) -> bool {
        forall|j: int|
            0 <= j < self.n() && j != i ==> (#[trigger] other.kind_at(j)).active()
                == self.kind_at(j).active()
    }

    /// A bind's recorded choice is one its chooser admits for its
    /// selector's current value; trivially true of other nodes.
    pub open spec fn choice_current(&self, b: int) -> bool {
        match self.kind_at(b) {
            NodeKind::Bind { selector, op, active_second, .. } => call_ensures(
                self.choose_fn,
                (op, &self.val_at(selector as int)),
                active_second,
            ),
            _ => true,
        }
    }

    /// Node `i` can be affected by the staged changes: it is dirty
    /// itself, or it reads some affected node. Only such nodes may be
    /// recomputed by a stabilization pass that moves no bind.
    pub open spec fn affected(&self, i: int) -> bool
        decreases i,
    {
        self.dirty_at(i) || (exists|p: int|
            0 <= p < i && #[trigger] self.is_parent(p, i) && self.affected(p))
    }

    /// The two graphs have the same interpreters and the same nodes up to
    /// bind choices, heights and values.
    pub open spec fn same_shape(&self, other: &Self) -> bool {
        &&& self.map_fn == other.map_fn
        &&& self.map2_fn == other.map2_fn
        &&& self.choose_fn == other.choose_fn
        &&& self.n() == other.n()
        &&& forall|i: int|
            0 <= i < self.n() ==> (#[trigger] self.kind_at(i)).same_shape(other.kind_at(i))
    }
}

impl<T, F1, F2, FC> Incrementars<T, F1, F2, FC> where
    T: Clone,
    F1: Fn(u64, &T) -> T,
    F2: Fn(u64, &T, &T) -> T,
    FC: Fn(u64, &T) -> bool,
 {
    /// Create an empty graph over the given interpreters. The
    /// interpreters must accept every argument: nodes may be recomputed
    /// at any value their parents take.
    pub fn new(map_fn: F1, map2_fn: F2, choose_fn: FC) -> (r: Self)
        requires
            forall|op: u64, x: T| call_requires(map_fn, (op, &x)),
            forall|op: u64, x: T, y: T| call_requires(map2_fn, (op, &x, &y)),
            forall|op: u64, x: T| call_requires(choose_fn, (op, &x)),
        ensures
            r.wf(),
            r.n() == 0,
            r.map_fn == map_fn,
            r.map2_fn == map2_fn,
            r.choose_fn == choose_fn,
            r.explained(),
    {
        Incrementars {
            map_fn,
            map2_fn,
            choose_fn,
            kinds: Vec::new(),
            values: Vec::new(),
            heights: Vec::new(),
            dirty: Vec::new(),
            children: Vec::new(),
            last_pass: Ghost(Seq::empty()),
        }
    }

    /// Create a variable node holding `value`. The node starts clean: its
    /// value is already "computed", and nothing downstream exists yet.
    pub fn var(&mut self, value: T) -> (h: Var)
        requires
            old(self).wf(),
            old(self).n() < MAX_NODES as int,
        ensures
            final(self).wf(),
            h.node_id() == old(self).n(),
            final(self).n() == old(self).n() + 1,
            final(self).kinds@ == old(self).kinds@.push(NodeKind::Var),
            final(self).values@ == old(self).values@.push(value),
            final(self).heights@ == old(self).heights@.push(H_MAX),
            final(self).dirty@ == old(self).dirty@.push(false),
            forall|i: int|
                0 <= i < old(self).n() ==> #[trigger] final(self).child_list(i) == old(self).child_list(i),
            final(self).child_list(old(self).n()) == Seq::<usize>::empty(),
            final(self).map_fn == old(self).map_fn,
            final(self).map2_fn == old(self).map2_fn,
            final(self).choose_fn == old(self).choose_fn,
            final(self).last_pass == old(self).last_pass,
            old(self).explained() ==> final(self).explained(),
    {
        let id: usize = self.kinds.len();
        self.kinds.push(NodeKind::Var);
        self.values.push(value);
        self.heights.push(H_MAX);
        self.dirty.push(false);
        self.children.push(Vec::new());
        proof {
            assert forall|p: int, c: usize|
                0 <= p < old(self).n() implies #[trigger] self.child_list(p).to_multiset().count(c)
                == old(self).child_list(p).to_multiset().count(c) + (if c as int == old(self).n() {
                NodeKind::Var.role_count(p)
            } else {
                0
            }) by {
                assert(self.child_list(p) == old(self).child_list(p));
            }
            lemma_add_node(*old(self), *self, NodeKind::Var);
        }
        Var { id }
    }

    /// Create a unary map node over `input`. The value is computed
    /// eagerly, so the node starts consistent with its parent; its height
    /// sits one below the parent's and the reverse edge is recorded.
    /// The parent must sit above height zero: a node at height zero is
    /// already `H_MAX` levels deep, and exceeding that depth bound is a
    /// programmer error.
    pub fn map<H: Observable>(&mut self, input: &H, op: u64) -> (h: Map1)
        requires
            old(self).wf(),
            0 <= input.node_id() < old(self).n(),
            old(self).height_at(input.node_id()) >= 1,
            old(self).n() < MAX_NODES as int,
        ensures
            final(self).wf(),
            h.node_id() == old(self).n(),
            final(self).n() == old(self).n() + 1,
            final(self).kind_at(old(self).n()) matches NodeKind::Map1 { input: i2, op: o2 }
                && i2 as int == input.node_id() && o2 == op,
            final(self).values@.len() == old(self).n() + 1,
            final(self).heights@.len() == old(self).n() + 1,
            final(self).dirty@.len() == old(self).n() + 1,
            final(self).children@.len() == old(self).n() + 1,
            forall|i: int| 0 <= i < old(self).n() ==> #[trigger] final(self).kind_at(i) == old(self).kind_at(i),
            forall|i: int| 0 <= i < old(self).n() ==> #[trigger] final(self).val_at(i) == old(self).val_at(i),
            forall|i: int| 0 <= i < old(self).n() ==> #[trigger] final(self).height_at(i) == old(self).height_at(i),
            forall|i: int| 0 <= i < old(self).n() ==> #[trigger] final(self).dirty_at(i) == old(self).dirty_at(i),
            final(self).dirty_at(old(self).n()) == false,
            call_ensures(
                old(self).map_fn,
                (op, &old(self).val_at(input.node_id())),
                final(self).val_at(old(self).n()),
            ),
            final(self).height_at(old(self).n()) == old(self).height_at(input.node_id()) - 1,
            forall|i: int|
                0 <= i < old(self).n() && i != input.node_id() ==> #[trigger] final(self).child_list(i) == old(self).child_list(i),
            final(self).child_list(input.node_id()) == old(self).child_list(
                input.node_id(),
            ).push((old(self).n()) as usize),
            final(self).child_list(old(self).n()) == Seq::<usize>::empty(),
            final(self).map_fn == old(self).map_fn,
            final(self).map2_fn == old(self).map2_fn,
            final(self).choose_fn == old(self).choose_fn,
            final(self).last_pass == old(self).last_pass,
            old(self).explained() ==> final(self).explained(),
    {
        let iid: usize = input.id();
        let v = (self.map_fn)(op, &self.values[iid]);
        proof {
            assert(H_MAX - iid <= self.height_at(iid as int) <= H_MAX);
        }
        let ht: i64 = self.heights[iid] - 1;
        let id: usize = self.kinds.len();
        let k = NodeKind::Map1 { input: iid, op };
        self.kinds.push(k);
        self.values.push(v);
        self.heights.push(ht);
        self.dirty.push(false);
        self.children.push(Vec::new());
        self.push_edge(iid, id);
        proof {
            assert forall|p: int, c: usize|
                0 <= p < old(self).n() implies #[trigger] self.child_list(p).to_multiset().count(c)
                == old(self).child_list(p).to_multiset().count(c) + (if c as int == old(self).n() {
                k.role_count(p)
            } else {
                0
            }) by {
                if p == iid as int {
                    assert(self.child_list(p) == old(self).child_list(p).push(id));
                    assert(self.child_list(p).to_multiset() == old(self).child_list(
                        p,
                    ).to_multiset().insert(id));
                } else {
                    assert(self.child_list(p) == old(self).child_list(p));
                }
            }
            lemma_add_node(*old(self), *self, k);
        }
        Map1 { id }
    }

    /// Create a binary map node over `left` and `right`. The value is
    /// computed eagerly; the height sits one below the lower parent, and
    /// one reverse edge is recorded per parent role. Both parents must
    /// sit above height zero: deeper graphs exceed the `H_MAX` depth
    /// bound, which is a programmer error.
    pub fn map2<HL: Observable, HR: Observable>(&mut self, left: &HL, right: &HR, op: u64) -> (h:
        Map2)
        requires
            old(self).wf(),
            0 <= left.node_id() < old(self).n(),
            0 <= right.node_id() < old(self).n(),
            old(self).height_at(left.node_id()) >= 1,
            old(self).height_at(right.node_id()) >= 1,
            old(self).n() < MAX_NODES as int,
        ensures
            final(self).wf(),
            h.node_id() == old(self).n(),
            final(self).n() == old(self).n() + 1,
            final(self).kind_at(old(self).n()) matches NodeKind::Map2 { left: l2, right: r2, op: o2 }
                && l2 as int == left.node_id() && r2 as int == right.node_id() && o2 == op,
            final(self).values@.len() == old(self).n() + 1,
            final(self).heights@.len() == old(self).n() + 1,
            final(self).dirty@.len() == old(self).n() + 1,
            final(self).children@.len() == old(self).n() + 1,
            forall|i: int| 0 <= i < old(self).n() ==> #[trigger] final(self).kind_at(i) == old(self).kind_at(i),
            forall|i: int| 0 <= i < old(self).n() ==> #[trigger] final(self).val_at(i) == old(self).val_at(i),
            forall|i: int| 0 <= i < old(self).n() ==> #[trigger] final(self).height_at(i) == old(self).height_at(i),
            forall|i: int| 0 <= i < old(self).n() ==> #[trigger] final(self).dirty_at(i) == old(self).dirty_at(i),
            final(self).dirty_at(old(self).n()) == false,
            call_ensures(
                old(self).map2_fn,
                (op, &old(self).val_at(left.node_id()), &old(self).val_at(right.node_id())),
                final(self).val_at(old(self).n()),
            ),
            final(self).height_at(old(self).n()) == (if old(self).height_at(left.node_id()) <= old(self).height_at(right.node_id()) {
                old(self).height_at(left.node_id())
            } else {
                old(self).height_at(right.node_id())
            }) - 1,
            forall|i: int|
                0 <= i < old(self).n() && i != left.node_id() && i != right.node_id()
                    ==> #[trigger] final(self).child_list(i) == old(self).child_list(i),
            left.node_id() != right.node_id() ==> final(self).child_list(left.node_id()) == old(self).child_list(left.node_id()).push((old(self).n()) as usize),
            left.node_id() != right.node_id() ==> final(self).child_list(right.node_id()) == old(self).child_list(right.node_id()).push((old(self).n()) as usize),
            left.node_id() == right.node_id() ==> final(self).child_list(left.node_id()) == old(self).child_list(left.node_id()).push((old(self).n()) as usize).push(
                (old(self).n()) as usize,
            ),
            final(self).child_list(old(self).n()) == Seq::<usize>::empty(),
            final(self).map_fn == old(self).map_fn,
            final(self).map2_fn == old(self).map2_fn,
            final(self).choose_fn == old(self).choose_fn,
            final(self).last_pass == old(self).last_pass,
            old(self).explained() ==> final(self).explained(),
    {
        let i1: usize = left.id();
        let i2: usize = right.id();
        let v = (self.map2_fn)(op, &self.values[i1], &self.values[i2]);
        proof {
            assert(H_MAX - i1 <= self.height_at(i1 as int) <= H_MAX);
            assert(H_MAX - i2 <= self.height_at(i2 as int) <= H_MAX);
        }
        let h1: i64 = self.heights[i1];
        let h2: i64 = self.heights[i2];
        let ht: i64 = (if h1 <= h2 {
            h1
        } else {
            h2
        }) - 1;
        let id: usize = self.kinds.len();
        let k = NodeKind::Map2 { left: i1, right: i2, op };
        self.kinds.push(k);
        self.values.push(v);
        self.heights.push(ht);
        self.dirty.push(false);
        self.children.push(Vec::new());
        self.push_edge(i1, id);
        self.push_edge(i2, id);
        proof {
            assert forall|p: int, c: usize|
                0 <= p < old(self).n() implies #[trigger] self.child_list(p).to_multiset().count(c)
                == old(self).child_list(p).to_multiset().count(c) + (if c as int == old(self).n() {
                k.role_count(p)
            } else {
                0
            }) by {
                if p == i1 as int && p == i2 as int {
                    assert(self.child_list(p) == old(self).child_list(p).push(id).push(id));
                    assert(self.child_list(p).to_multiset() == old(self).child_list(
                        p,
                    ).to_multiset().insert(id).insert(id));
                } else if p == i1 as int || p == i2 as int {
                    assert(self.child_list(p).to_multiset() == old(self).child_list(
                        p,
                    ).to_multiset().insert(id));
                } else {
                    assert(self.child_list(p) == old(self).child_list(p));
                }
            }
            lemma_add_node(*old(self), *self, k);
        }
        Map2 { id }
    }

    /// Create a bind node: `selector`'s value is handed to the chooser,
    /// which picks one of the two candidates (`true` picks the second);
    /// the node forwards the chosen candidate's value. Only the selector
    /// and the chosen candidate become edges: changes under the inactive
    /// candidate must not propagate here.
    /// The selector and both candidates must sit above height zero:
    /// deeper graphs exceed the `H_MAX` depth bound, a programmer error.
    pub fn bind<HS: Observable, HA: Observable, HB: Observable>(
        &mut self,
        selector: &HS,
        op: u64,
        first: &HA,
        second: &HB,
    ) -> (h: Bind1)
        requires
            old(self).wf(),
            0 <= selector.node_id() < old(self).n(),
            0 <= first.node_id() < old(self).n(),
            0 <= second.node_id() < old(self).n(),
            old(self).height_at(selector.node_id()) >= 1,
            old(self).height_at(first.node_id()) >= 1,
            old(self).height_at(second.node_id()) >= 1,
            old(self).n() < MAX_NODES as int,
        ensures
            final(self).wf(),
            h.node_id() == old(self).n(),
            final(self).n() == old(self).n() + 1,
            final(self).kind_at(old(self).n()) matches NodeKind::Bind {
                selector: s2,
                op: o2,
                first: f2,
                second: n2,
                active_second: _,
            } && s2 as int == selector.node_id() && o2 == op && f2 as int == first.node_id()
                && n2 as int == second.node_id(),
            final(self).node_ok(old(self).n()),
            final(self).values@.len() == old(self).n() + 1,
            final(self).heights@.len() == old(self).n() + 1,
            final(self).dirty@.len() == old(self).n() + 1,
            final(self).children@.len() == old(self).n() + 1,
            forall|i: int| 0 <= i < old(self).n() ==> #[trigger] final(self).kind_at(i) == old(self).kind_at(i),
            forall|i: int| 0 <= i < old(self).n() ==> #[trigger] final(self).val_at(i) == old(self).val_at(i),
            forall|i: int| 0 <= i < old(self).n() ==> #[trigger] final(self).height_at(i) == old(self).height_at(i),
            forall|i: int| 0 <= i < old(self).n() ==> #[trigger] final(self).dirty_at(i) == old(self).dirty_at(i),
            final(self).dirty_at(old(self).n()) == false,
            call_ensures(
                old(self).choose_fn,
                (op, &old(self).val_at(selector.node_id())),
                final(self).kind_at(old(self).n())->Bind_active_second,
            ),
            final(self).height_at(old(self).n()) == (if old(self).height_at(selector.node_id())
                <= old(self).height_at(final(self).kind_at(old(self).n()).active()) {
                old(self).height_at(selector.node_id())
            } else {
                old(self).height_at(final(self).kind_at(old(self).n()).active())
            }) - 1,
            vstd::pervasive::cloned(
                old(self).val_at(final(self).kind_at(old(self).n()).active()),
                final(self).val_at(old(self).n()),
            ),
            final(self).child_list(old(self).n()) == Seq::<usize>::empty(),
            forall|i: int|
                0 <= i < old(self).n() && i != selector.node_id() && i != final(self).kind_at(
                    old(self).n(),
                ).active() ==> #[trigger] final(self).child_list(i) == old(self).child_list(i),
            final(self).map_fn == old(self).map_fn,
            final(self).map2_fn == old(self).map2_fn,
            final(self).choose_fn == old(self).choose_fn,
            final(self).last_pass == old(self).last_pass,
            old(self).explained() ==> final(self).explained(),
    {
        let sid: usize = selector.id();
        let fid: usize = first.id();
        let nid: usize = second.id();
        let pick = (self.choose_fn)(op, &self.values[sid]);
        let act: usize = if pick {
            nid
        } else {
            fid
        };
        let v = self.values[act].clone();
        proof {
            assert(H_MAX - sid <= self.height_at(sid as int) <= H_MAX);
            assert(H_MAX - act <= self.height_at(act as int) <= H_MAX);
        }
        let hs: i64 = self.heights[sid];
        let ha: i64 = self.heights[act];
        let ht: i64 = (if hs <= ha {
            hs
        } else {
            ha
        }) - 1;
        let id: usize = self.kinds.len();
        let k = NodeKind::Bind { selector: sid, op, first: fid, second: nid, active_second: pick };
        self.kinds.push(k);
        self.values.push(v);
        self.heights.push(ht);
        self.dirty.push(false);
        self.children.push(Vec::new());
        self.push_edge(sid, id);
        self.push_edge(act, id);
        proof {
            assert(k.active() == act as int);
            assert forall|p: int, c: usize|
                0 <= p < old(self).n() implies #[trigger] self.child_list(p).to_multiset().count(c)
                == old(self).child_list(p).to_multiset().count(c) + (if c as int == old(self).n() {
                k.role_count(p)
            } else {
                0
            }) by {
                if p == sid as int && p == act as int {
                    assert(self.child_list(p) == old(self).child_list(p).push(id).push(id));
                    assert(self.child_list(p).to_multiset() == old(self).child_list(
                        p,
                    ).to_multiset().insert(id).insert(id));
                } else if p == sid as int || p == act as int {
                    assert(self.child_list(p).to_multiset() == old(self).child_list(
                        p,
                    ).to_multiset().insert(id));
                } else {
                    assert(self.child_list(p) == old(self).child_list(p));
                }
            }
            lemma_add_node(*old(self), *self, k);
        }
        Bind1 { id }
    }

    /// Append one reverse edge `p -> c` to the child table.
    fn push_edge(&mut self, p: usize, c: usize)
        requires
            (p as int) < old(self).children@.len(),
        ensures
            final(self).children@.len() == old(self).children@.len(),
            forall|i: int|
                0 <= i < old(self).children@.len() && i != p as int ==> #[trigger] final(self).child_list(i) == old(self).child_list(i),
            final(self).child_list(p as int) == old(self).child_list(p as int).push(c),
            final(self).kinds == old(self).kinds,
            final(self).values == old(self).values,
            final(self).heights == old(self).heights,
            final(self).dirty == old(self).dirty,
            final(self).map_fn == old(self).map_fn,
            final(self).map2_fn == old(self).map2_fn,
            final(self).choose_fn == old(self).choose_fn,
            final(self).last_pass == old(self).last_pass,
    {
        let mut tmp: Vec<usize> = Vec::new();
        self.children.set_and_swap(p, &mut tmp);
        tmp.push(c);
        self.children.set_and_swap(p, &mut tmp);
    }

    /// Read the current value of any node, without recomputing anything.
    /// Between a `set` and the next `stablize` this is the stale value:
    /// mutation is batched by contract.
    pub fn observe<H: Observable>(&self, h: &H) -> (r: &T)
        requires
            self.wf(),
            0 <= h.node_id() < self.n(),
        ensures
            *r == self.val_at(h.node_id()),
    {
        let id: usize = h.id();
        &self.values[id]
    }

    /// The current pseudo-height of the node `h` names.
    pub fn depth<H: Observable>(&self, h: &H) -> (r: i64)
        requires
            self.wf(),
            0 <= h.node_id() < self.n(),
        ensures
            r as int == self.height_at(h.node_id()),
    {
        let id: usize = h.id();
        self.heights[id]
    }

    /// Whether the node `h` names carries an unpropagated change.
    pub fn is_dirty<H: Observable>(&self, h: &H) -> (r: bool)
        requires
            self.wf(),
            0 <= h.node_id() < self.n(),
        ensures
            r == self.dirty_at(h.node_id()),
    {
        let id: usize = h.id();
        self.dirty[id]
    }
}

/// Lexicographic order on queue entries: height first, id second. The
/// scheduler always pops a largest entry.
pub open spec fn entry_le(a: (i64, usize), b: (i64, usize)) -> bool {
    a.0 < b.0 || (a.0 == b.0 && a.1 <= b.1)
}

/// The ids of a queue's entries, as integers.
pub open spec fn entry_ids(q: Seq<(i64, usize)>) -> Seq<int> {
    q.map_values(|e: (i64, usize)| e.1 as int)
}

/// Remove and return a lexicographically largest entry of the queue.
fn pop_max(q: &mut Vec<(i64, usize)>) -> (r: (i64, usize))
    requires
        old(q)@.len() > 0,
    ensures
        old(q)@.to_multiset().count(r) > 0,
        final(q)@.to_multiset() == old(q)@.to_multiset().remove(r),
        final(q)@.len() == old(q)@.len() - 1,
        forall|k: int| 0 <= k < final(q)@.len() ==> entry_le(#[trigger] final(q)@[k], r),
        forall|k: int|
            0 <= k < final(q)@.len() ==> old(q)@.to_multiset().count(#[trigger] final(q)@[k]) > 0,
        exists|k: int|
            0 <= k < old(q)@.len() && old(q)@[k] == r && final(q)@ == old(q)@.remove(k),
{
    let mut bi: usize = 0;
    let mut j: usize = 1;
    while j < q.len()
        invariant
            bi < j <= q@.len(),
            q@.len() > 0,
            forall|k: int| 0 <= k < j ==> entry_le(#[trigger] q@[k], q@[bi as int]),
        decreases q@.len() - j,
    {
        let (hj, ij) = q[j];
        let (hb, ib) = q[bi];
        if hj > hb || (hj == hb && ij > ib) {
            bi = j;
        }
        j += 1;
    }
    let r = q.remove(bi);
    proof {
        assert(old(q)@.to_multiset() =~= final(q)@.to_multiset().insert(r));
        assert forall|k: int| 0 <= k < final(q)@.len() implies entry_le(
            #[trigger] final(q)@[k],
            r,
        ) && old(q)@.to_multiset().count(final(q)@[k]) > 0 by {
            if k < bi {
                assert(final(q)@[k] == old(q)@[k]);
            } else {
                assert(final(q)@[k] == old(q)@[k + 1]);
            }
        }
    }
    r
}

impl<T, F1, F2, FC> Incrementars<T, F1, F2, FC> where
    T: Clone,
    F1: Fn(u64, &T) -> T,
    F2: Fn(u64, &T, &T) -> T,
    FC: Fn(u64, &T) -> bool,
 {
    /// Remove one reverse edge `p -> c` from the child table.
    fn remove_edge(&mut self, p: usize, c: usize)
        requires
            (p as int) < old(self).children@.len(),
            old(self).child_list(p as int).contains(c),
        ensures
            final(self).children@.len() == old(self).children@.len(),
            forall|i: int|
                0 <= i < old(self).children@.len() && i != p as int ==> #[trigger] final(self).child_list(i) == old(self).child_list(i),
            final(self).child_list(p as int).to_multiset() == old(self).child_list(
                p as int,
            ).to_multiset().remove(c),
            final(self).kinds == old(self).kinds,
            final(self).values == old(self).values,
            final(self).heights == old(self).heights,
            final(self).dirty == old(self).dirty,
            final(self).map_fn == old(self).map_fn,
            final(self).map2_fn == old(self).map2_fn,
            final(self).choose_fn == old(self).choose_fn,
            final(self).last_pass == old(self).last_pass,
    {
        let mut tmp: Vec<usize> = Vec::new();
        self.children.set_and_swap(p, &mut tmp);
        let mut j: usize = 0;
        while j < tmp.len() && tmp[j] != c
            invariant
                j <= tmp@.len(),
                forall|k: int| 0 <= k < j ==> tmp@[k] != c,
            decreases tmp@.len() - j,
        {
            j += 1;
        }
        proof {
            assert(tmp@.contains(c));
            let w = choose|w: int| 0 <= w < tmp@.len() && tmp@[w] == c;
            assert(j as int <= w);
        }
        tmp.remove(j);
        self.children.set_and_swap(p, &mut tmp);
    }

    /// Recompute one node from its parents' current values, clear its
    /// dirty bit, and report what happened: a value change, and for a
    /// bind whose choice moved, the edge swap the engine must apply.
    /// The child table is untouched here, so after a bind switch the
    /// caller must apply the reported swap to restore the edge invariant.
    fn recompute(&mut self, i: usize) -> (cbs: Vec<StablizationCallback>)
        requires
            old(self).wf(),
            (i as int) < old(self).n(),
        ensures
            final(self).kinds@.len() == old(self).n(),
            final(self).values@.len() == old(self).n(),
            final(self).heights@ == old(self).heights@,
            final(self).dirty@ == old(self).dirty@.update(i as int, false),
            final(self).children@ == old(self).children@,
            final(self).map_fn == old(self).map_fn,
            final(self).map2_fn == old(self).map2_fn,
            final(self).choose_fn == old(self).choose_fn,
            final(self).last_pass == old(self).last_pass,
            forall|j: int|
                0 <= j < old(self).n() && j != i as int ==> #[trigger] final(self).kind_at(j)
                    == old(self).kind_at(j),
            forall|j: int|
                0 <= j < old(self).n() && j != i as int ==> #[trigger] final(self).val_at(j) == old(self).val_at(j),
            final(self).kind_at(i as int).same_shape(old(self).kind_at(i as int)),
            old(self).kind_at(i as int).same_shape(final(self).kind_at(i as int)),
            final(self).node_ok(i as int),
            !(old(self).kind_at(i as int) is Bind) ==> final(self).kind_at(i as int) == old(self).kind_at(i as int),
            old(self).kind_at(i as int) is Var ==> final(self).val_at(i as int) == old(self).val_at(
                i as int,
            ),
            cbs@.len() <= 2,
            (old(self).kind_at(i as int) is Var && old(self).dirty_at(i as int)) ==> cbs@ == seq![
                StablizationCallback::ValueChanged,
            ],
            (old(self).kind_at(i as int) is Var && !old(self).dirty_at(i as int)) ==> cbs@
                == Seq::<StablizationCallback>::empty(),
            (old(self).kind_at(i as int) is Map1 || old(self).kind_at(i as int) is Map2) ==> cbs@
                == seq![StablizationCallback::ValueChanged],
            old(self).kind_at(i as int) is Bind ==> {
                &&& cbs@.len() >= 1
                &&& cbs@[0] == StablizationCallback::ValueChanged
                &&& (final(self).kind_at(i as int).active() == old(self).kind_at(i as int).active()
                    <==> cbs@.len() == 1)
                &&& (cbs@.len() == 2 ==> (cbs@[1] matches StablizationCallback::DependenciesUpdated {
                    from,
                    to,
                } && from@ == seq![(old(self).kind_at(i as int).active()) as usize] && to@ == seq![
                    (final(self).kind_at(i as int).active()) as usize,
                ]))
            },
    {
        let k = self.kinds[i];
        match k {
            NodeKind::Var => {
                let was: bool = self.dirty[i];
                self.dirty.set(i, false);
                proof {
                    assert(self.dirty@ =~= old(self).dirty@.update(i as int, false));
                }
                if was {
                    vec![StablizationCallback::ValueChanged]
                } else {
                    let r: Vec<StablizationCallback> = Vec::new();
                    r
                }
            },
            NodeKind::Map1 { input, op } => {
                let v = (self.map_fn)(op, &self.values[input]);
                self.values.set(i, v);
                self.dirty.set(i, false);
                proof {
                    assert(self.dirty@ =~= old(self).dirty@.update(i as int, false));
                }
                vec![StablizationCallback::ValueChanged]
            },
            NodeKind::Map2 { left, right, op } => {
                let v = (self.map2_fn)(op, &self.values[left], &self.values[right]);
                self.values.set(i, v);
                self.dirty.set(i, false);
                proof {
                    assert(self.dirty@ =~= old(self).dirty@.update(i as int, false));
                }
                vec![StablizationCallback::ValueChanged]
            },
            NodeKind::Bind { selector, op, first, second, active_second } => {
                let pick = (self.choose_fn)(op, &self.values[selector]);
                let act: usize = if pick {
                    second
                } else {
                    first
                };
                let v = self.values[act].clone();
                self.values.set(i, v);
                self.kinds.set(
                    i,
                    NodeKind::Bind { selector, op, first, second, active_second: pick },
                );
                self.dirty.set(i, false);
                proof {
                    assert(self.dirty@ =~= old(self).dirty@.update(i as int, false));
                }
                let old_act: usize = if active_second {
                    second
                } else {
                    first
                };
                if old_act != act {
                    let mut from: Vec<usize> = Vec::new();
                    from.push(old_act);
                    let mut to: Vec<usize> = Vec::new();
                    to.push(act);
                    vec![
                        StablizationCallback::ValueChanged,
                        StablizationCallback::DependenciesUpdated { from, to },
                    ]
                } else {
                    vec![StablizationCallback::ValueChanged]
                }
            },
        }
    }
}

impl<T, F1, F2, FC> Incrementars<T, F1, F2, FC> where
    T: Clone,
    F1: Fn(u64, &T) -> T,
    F2: Fn(u64, &T, &T) -> T,
    FC: Fn(u64, &T) -> bool,
 {
    /// Everything `wf` asks for, except that edges into the nodes of
    /// `bad` need not respect the strict height order yet. Used during
    /// depth maintenance, whose worklist is exactly the set of nodes
    /// whose height may still be too high.
    pub open spec fn wf_except_heights(&self, bad: Set<int>) -> bool {
        &&& self.sized_ok()
        &&& self.kinds_ok()
        &&& self.dirty_ok()
        &&& self.edges_ok()
        &&& self.fns_total()
        &&& forall|i: int|
            0 <= i < self.n() ==> H_MAX - i <= #[trigger] self.height_at(i) <= H_MAX
        &&& forall|i: int|
            0 <= i < self.n() && self.kind_at(i) is Var ==> #[trigger] self.height_at(i) == H_MAX
        &&& forall|p: int, c: int|
            0 <= c < self.n() && #[trigger] self.is_parent(p, c) && !bad.contains(c)
                ==> self.height_at(c) < self.height_at(p)
    }
}

/// The set of ids a worklist holds.
pub open spec fn work_set(q: Seq<usize>) -> Set<int> {
    Set::new(|v: int| exists|k: int| 0 <= k < q.len() && #[trigger] q[k] as int == v)
}

/// The sum of a sequence of heights.
pub open spec fn sum_heights(s: Seq<i64>) -> int
    decreases s.len(),
{
    if s.len() == 0 {
        0
    } else {
        sum_heights(s.drop_last()) + s.last()
    }
}

/// Replacing one element changes the sum by the difference.
proof fn lemma_sum_update(s: Seq<i64>, i: int, v: i64)
    requires
        0 <= i < s.len(),
    ensures
        sum_heights(s.update(i, v)) == sum_heights(s) - s[i] + v,
    decreases s.len(),
{
    if i == s.len() - 1 {
        assert(s.update(i, v).drop_last() =~= s.drop_last());
    } else {
        assert(s.update(i, v).drop_last() =~= s.drop_last().update(i, v));
        lemma_sum_update(s.drop_last(), i, v);
    }
}

/// A pointwise lower bound on the elements bounds the sum from below.
proof fn lemma_sum_lower_bound(s: Seq<i64>, lb: int)
    requires
        forall|k: int| 0 <= k < s.len() ==> lb <= #[trigger] s[k],
    ensures
        sum_heights(s) >= lb * s.len(),
    decreases s.len(),
{
    if s.len() == 0 {
    } else {
        lemma_sum_lower_bound(s.drop_last(), lb);
        assert(lb * s.len() == lb * (s.len() - 1) + lb) by (nonlinear_arith);
    }
}

impl<T, F1, F2, FC> Incrementars<T, F1, F2, FC> where
    T: Clone,
    F1: Fn(u64, &T) -> T,
    F2: Fn(u64, &T, &T) -> T,
    FC: Fn(u64, &T) -> bool,
 {
    /// Lower the heights of `start` and, transitively, of any descendant
    /// whose height no longer sits strictly below its parents', until the
    /// strict order along every edge is restored. Heights never rise.
    fn adjust_heights(&mut self, start: usize)
        requires
            (start as int) < old(self).n(),
            old(self).wf_except_heights(work_set(seq![start])),
        ensures
            final(self).wf(),
            final(self).kinds == old(self).kinds,
            final(self).values == old(self).values,
            final(self).dirty == old(self).dirty,
            final(self).children == old(self).children,
            final(self).map_fn == old(self).map_fn,
            final(self).map2_fn == old(self).map2_fn,
            final(self).choose_fn == old(self).choose_fn,
            final(self).last_pass == old(self).last_pass,
            final(self).heights@.len() == old(self).heights@.len(),
            forall|i: int|
                0 <= i < old(self).n() ==> #[trigger] final(self).height_at(i) <= old(self).height_at(i),
            forall|i: int|
                0 <= i < old(self).n() ==> #[trigger] final(self).height_at(i) == old(self).height_at(i) || final(self).height_at(i) >= final(self).min_parent_height(i) - 1,
    {
        let ghost n = self.n();
        let mut aq: Vec<usize> = Vec::new();
        aq.push(start);
        proof {
            assert(work_set(aq@) =~= work_set(seq![start]));
        }
        while aq.len() > 0
            invariant
                self.kinds == old(self).kinds,
                self.values == old(self).values,
                self.dirty == old(self).dirty,
                self.children == old(self).children,
                self.map_fn == old(self).map_fn,
                self.map2_fn == old(self).map2_fn,
                self.choose_fn == old(self).choose_fn,
                self.last_pass == old(self).last_pass,
                n == self.n(),
                self.heights@.len() == n,
                forall|k: int| 0 <= k < aq@.len() ==> (#[trigger] aq@[k] as int) < n,
                self.wf_except_heights(work_set(aq@)),
                forall|i: int|
                    0 <= i < n ==> #[trigger] self.height_at(i) <= old(self).height_at(i),
                forall|i: int|
                    0 <= i < n ==> #[trigger] self.height_at(i) == old(self).height_at(i)
                        || self.height_at(i) >= self.min_parent_height(i) - 1,
            decreases sum_heights(self.heights@) - (H_MAX - n) * n, aq@.len(),
        {
            proof {
                assert forall|k2: int|
                    0 <= k2 < self.heights@.len() implies H_MAX - n <= #[trigger] self.heights@[k2] by {
                    assert(H_MAX - k2 <= self.height_at(k2));
                }
                lemma_sum_lower_bound(self.heights@, H_MAX - n);
            }
            let ghost aq_pre = aq@;
            let x = aq.pop().unwrap();
            let ghost bad_pre = work_set(aq_pre);
            let k = self.kinds[x];
            let mp: i64;
            let has_parents: bool;
            match k {
                NodeKind::Var => {
                    mp = H_MAX;
                    has_parents = false;
                },
                NodeKind::Map1 { input, .. } => {
                    mp = self.heights[input];
                    has_parents = true;
                },
                NodeKind::Map2 { left, right, .. } => {
                    let hl = self.heights[left];
                    let hr = self.heights[right];
                    mp = if hl <= hr {
                        hl
                    } else {
                        hr
                    };
                    has_parents = true;
                },
                NodeKind::Bind { selector, first, second, active_second, .. } => {
                    let hs = self.heights[selector];
                    let act: usize = if active_second {
                        second
                    } else {
                        first
                    };
                    let ha = self.heights[act];
                    mp = if hs <= ha {
                        hs
                    } else {
                        ha
                    };
                    has_parents = true;
                },
            }
            proof {
                assert(aq@ == aq_pre.drop_last());
                assert(x == aq_pre.last());
                assert(bad_pre.contains(x as int));
                assert(has_parents ==> mp as int == self.min_parent_height(x as int));
                assert(!(self.kind_at(x as int) is Var) ==> has_parents);
                assert(has_parents ==> !(self.kind_at(x as int) is Var));
                assert(has_parents ==> H_MAX - x <= mp as int <= H_MAX) by {
                    if has_parents {
                        assert(self.kind_at(x as int).refs_below(x as int));
                        match self.kind_at(x as int) {
                            NodeKind::Var => {},
                            NodeKind::Map1 { input, .. } => {
                                assert(H_MAX - input <= self.height_at(input as int) <= H_MAX);
                            },
                            NodeKind::Map2 { left, right, .. } => {
                                assert(H_MAX - left <= self.height_at(left as int) <= H_MAX);
                                assert(H_MAX - right <= self.height_at(right as int) <= H_MAX);
                            },
                            NodeKind::Bind { selector, first, second, .. } => {
                                assert(H_MAX - selector <= self.height_at(selector as int)
                                    <= H_MAX);
                                assert(H_MAX - first <= self.height_at(first as int) <= H_MAX);
                                assert(H_MAX - second <= self.height_at(second as int) <= H_MAX);
                            },
                        }
                    }
                }
                lemma_min_parent_le(*self, x as int);
            }
            if has_parents && mp - 1 < self.heights[x] {
                let req: i64 = mp - 1;
                proof {
                    assert(bad_pre.subset_of(work_set(aq@).insert(x as int))) by {
                        assert forall|v: int| bad_pre.contains(v) implies work_set(aq@).insert(
                            x as int,
                        ).contains(v) by {
                            let k6 = choose|k6: int|
                                0 <= k6 < aq_pre.len() && #[trigger] aq_pre[k6] as int == v;
                            if k6 < aq_pre.len() - 1 {
                                assert(aq@[k6] as int == v);
                            }
                        }
                    }
                    lemma_wf_except_mono(*self, bad_pre, work_set(aq@).insert(x as int));
                }
                // enlarge the worklist first: once x drops, each child of x
                // may in turn sit too high
                let ghost g_mid = *self;
                let kids_len: usize = self.children[x].len();
                let mut j: usize = 0;
                while j < kids_len
                    invariant
                        0 <= j <= kids_len,
                        (x as int) < n,
                        *self == g_mid,
                        n == self.n(),
                        kids_len == self.child_list(x as int).len(),
                        forall|k2: int| 0 <= k2 < aq@.len() ==> (#[trigger] aq@[k2] as int) < n,
                        self.wf_except_heights(work_set(aq@).insert(x as int)),
                        forall|k2: int|
                            0 <= k2 < j ==> work_set(aq@).contains(
                                #[trigger] self.child_list(x as int)[k2] as int,
                            ),
                        bad_pre.subset_of(work_set(aq@).insert(x as int)),
                    decreases kids_len - j,
                {
                    let ghost aq_in = aq@;
                    let c = self.children[x][j];
                    proof {
                        assert(self.child_list(x as int).contains(c));
                        assert(self.child_list(x as int).to_multiset().count(c) > 0);
                        assert((c as int) < n && self.kind_at(c as int).role_count(x as int) > 0);
                    }
                    aq.push(c);
                    proof {
                        assert(work_set(aq_in).subset_of(work_set(aq@))) by {
                            assert forall|v: int| work_set(aq_in).contains(v) implies work_set(
                                aq@,
                            ).contains(v) by {
                                let k3 = choose|k3: int|
                                    0 <= k3 < aq_in.len() && #[trigger] aq_in[k3] as int == v;
                                assert(aq@[k3] as int == v);
                            }
                        }
                        assert(work_set(aq@).contains(c as int)) by {
                            assert(aq@[aq@.len() - 1] as int == c as int);
                        }
                        assert(work_set(aq_in).insert(x as int).subset_of(
                            work_set(aq@).insert(x as int),
                        ));
                        lemma_wf_except_mono(
                            *self,
                            work_set(aq_in).insert(x as int),
                            work_set(aq@).insert(x as int),
                        );
                    }
                    j += 1;
                }
                proof {
                    assert forall|c2: int|
                        0 <= c2 < n && self.is_parent(x as int, c2) implies work_set(aq@).contains(
                        c2,
                    ) by {
                        assert(self.child_list(x as int).to_multiset().count(c2 as usize)
                            == self.kind_at(c2).role_count(x as int));
                        assert(self.child_list(x as int).to_multiset().count(c2 as usize) > 0);
                        assert(self.child_list(x as int).contains(c2 as usize));
                        let k4 = choose|k4: int|
                            0 <= k4 < self.child_list(x as int).len() && self.child_list(
                                x as int,
                            )[k4] == c2 as usize;
                        assert(work_set(aq@).contains(
                            self.child_list(x as int)[k4] as int,
                        ));
                    }
                }
                let ghost g_before_set = *self;
                self.heights.set(x, req);
                proof {
                    lemma_sum_update(g_before_set.heights@, x as int, req);
                    assert(sum_heights(self.heights@) < sum_heights(g_before_set.heights@));
                    lemma_non_height_parts(g_before_set, *self);
                    lemma_min_parent_le(g_before_set, x as int);
                    assert(g_before_set.wf_except_heights(work_set(aq@).insert(x as int)));
                    assert(self.wf_except_heights(work_set(aq@))) by {
                        assert forall|i: int|
                            0 <= i < n implies H_MAX - i <= #[trigger] self.height_at(i)
                            <= H_MAX by {
                            if i != x as int {
                                assert(self.height_at(i) == g_before_set.height_at(i));
                                assert(H_MAX - i <= g_before_set.height_at(i) <= H_MAX);
                            }
                        }
                        assert forall|i: int|
                            0 <= i < n && self.kind_at(i) is Var implies #[trigger] self.height_at(
                            i,
                        ) == H_MAX by {
                            assert(i != x as int);
                            assert(g_before_set.height_at(i) == H_MAX as int);
                        }
                        assert forall|p: int, c: int|
                            0 <= c < n && #[trigger] self.is_parent(p, c) && !work_set(
                                aq@,
                            ).contains(c) implies self.height_at(c) < self.height_at(p) by {
                            assert(0 <= p < n) by {
                                if p >= c {
                                    lemma_role_below(self.kind_at(c), c, p);
                                }
                            }
                            assert(g_before_set.kind_at(c) == self.kind_at(c));
                            assert(g_before_set.is_parent(p, c));
                            if c == x as int {
                                assert(g_before_set.min_parent_height(c) <= g_before_set.height_at(
                                    p,
                                ));
                                assert(p != x as int) by {
                                    if p == x as int {
                                        lemma_role_below(self.kind_at(c), c, p);
                                    }
                                }
                                assert(self.height_at(p) == g_before_set.height_at(p));
                                assert(self.height_at(c) == req as int);
                                assert((req as int) < g_before_set.min_parent_height(c)) by {
                                    assert(mp as int == g_before_set.min_parent_height(c));
                                }
                            } else {
                                assert(p != x as int);
                                assert(!work_set(aq@).insert(x as int).contains(c));
                                assert(g_before_set.height_at(c) < g_before_set.height_at(p));
                                assert(self.height_at(c) == g_before_set.height_at(c));
                                assert(self.height_at(p) == g_before_set.height_at(p));
                            }
                        }
                    }
                    assert forall|i: int|
                        0 <= i < n implies #[trigger] self.height_at(i) <= old(self).height_at(i)
                         by {
                        if i != x as int {
                            assert(self.height_at(i) == g_before_set.height_at(i));
                        } else {
                            assert((req as int) < g_before_set.height_at(i));
                        }
                    }
                    assert forall|i: int|
                        0 <= i < n implies #[trigger] self.height_at(i) == old(self).height_at(i)
                        || self.height_at(i) >= self.min_parent_height(i) - 1 by {
                        assert(self.kind_at(i) == g_before_set.kind_at(i));
                        assert(self.kind_at(i).refs_below(n)) by {
                            assert(self.kind_at(i).refs_below(i));
                        }
                        lemma_min_parent_mono(g_before_set, *self, i, n);
                        if i == x as int {
                            assert(self.min_parent_height(i) <= mp as int);
                            assert(self.height_at(i) == req as int);
                        } else {
                            assert(self.height_at(i) == g_before_set.height_at(i));
                            if g_before_set.height_at(i) != old(self).height_at(i) {
                                assert(g_before_set.height_at(i)
                                    >= g_before_set.min_parent_height(i) - 1);
                            }
                        }
                    }
                    assert forall|k7: int|
                        0 <= k7 < self.heights@.len() implies H_MAX - n
                        <= #[trigger] self.heights@[k7] by {
                        assert(H_MAX - k7 <= self.height_at(k7));
                    }
                    lemma_sum_lower_bound(self.heights@, H_MAX - n);
                }
            } else {
                proof {
                    assert(self.wf_except_heights(work_set(aq@))) by {
                        assert forall|p: int, c: int|
                            0 <= c < n && #[trigger] self.is_parent(p, c) && !work_set(
                                aq@,
                            ).contains(c) implies self.height_at(c) < self.height_at(p) by {
                            if c == x as int && bad_pre.contains(c) {
                                if self.kind_at(c) is Var {
                                    assert(self.kind_at(c).role_count(p) == 0);
                                } else {
                                    assert(self.height_at(x as int) <= mp - 1);
                                    assert(self.min_parent_height(c) <= self.height_at(p));
                                }
                            } else {
                                assert(!bad_pre.contains(c) || c != x as int);
                                if bad_pre.contains(c) {
                                    assert(work_set(aq_pre.drop_last()).contains(c) ==> work_set(
                                        aq@,
                                    ).contains(c));
                                    let k5 = choose|k5: int|
                                        0 <= k5 < aq_pre.len() && #[trigger] aq_pre[k5] as int
                                            == c;
                                    if k5 < aq_pre.len() - 1 {
                                        assert(aq_pre.drop_last()[k5] as int == c);
                                        assert(work_set(aq@).contains(c));
                                    } else {
                                        assert(c == x as int);
                                    }
                                } else {
                                    assert(self.height_at(c) < self.height_at(p));
                                }
                            }
                        }
                    }
                }
            }
        }
    }

    /// Drive the graph to a stable state: starting from the variables
    /// with staged changes, recompute every affected node at most once,
    /// popping pending nodes in decreasing pseudo-height order so that a
    /// node fires only after the ancestors that made it stale, and apply
    /// bind rewiring together with the depth maintenance it calls for.
    #[verifier::loop_isolation(false)]
    #[verifier::rlimit(100)]
    #[verifier::spinoff_prover]
    pub fn stablize(&mut self)
        requires
            old(self).wf(),
        ensures
            final(self).wf(),
            old(self).same_shape(final(self)),
            forall|i: int| 0 <= i < old(self).n() ==> !(#[trigger] final(self).dirty_at(i)),
            forall|i: int|
                0 <= i < old(self).n() ==> #[trigger] final(self).height_at(i) <= old(self).height_at(i),
            forall|i: int|
                0 <= i < old(self).n() && old(self).kind_at(i) is Var ==> #[trigger] final(self).val_at(i) == old(self).val_at(i),
            final(self).last_pass@.no_duplicates(),
            forall|k: int|
                0 <= k < final(self).last_pass@.len() ==> 0 <= #[trigger] final(self).last_pass@[k]
                    < old(self).n(),
            forall|i: int|
                0 <= i < old(self).n() && !final(self).last_pass@.contains(i) ==> #[trigger] final(self).val_at(i) == old(self).val_at(i) && final(self).kind_at(i) == old(self).kind_at(
                    i,
                ),
            forall|i: int|
                0 <= i < old(self).n() && #[trigger] old(self).dirty_at(i) ==> final(self).last_pass@.contains(i),
            (forall|i: int| 0 <= i < old(self).n() ==> !(#[trigger] old(self).dirty_at(i))) ==> (
            final(self).kinds@ == old(self).kinds@ && final(self).values@ == old(self).values@
                && final(self).heights@ == old(self).heights@ && final(self).dirty@ == old(self).dirty@ && final(self).children@ == old(self).children@ && final(self).last_pass@
                == Seq::<int>::empty()),
            old(self).no_binds() ==> final(self).kinds@ == old(self).kinds@,
            old(self).active_unchanged(final(self)) ==> final(self).heights@ == old(self).heights@
                && final(self).children@ == old(self).children@,
            forall|k: int|
                0 <= k < final(self).last_pass@.len() ==> old(self).affected(
                    #[trigger] final(self).last_pass@[k],
                ),
            forall|i: int|
                0 <= i < old(self).n() && #[trigger] old(self).affected(i) ==> final(self).last_pass@.contains(i),
            (old(self).active_unchanged(final(self)) && old(self).explained()) ==> forall|i: int|
                0 <= i < old(self).n() ==> #[trigger] final(self).node_ok(i),
            (old(self).active_unchanged(final(self)) && old(self).explained()) ==> final(self).explained(),
            old(self).active_unchanged(final(self)) ==> forall|k1: int, k2: int|
                0 <= k1 <= k2 < final(self).last_pass@.len() ==> final(self).height_at(
                    final(self).last_pass@[k1],
                ) >= final(self).height_at(final(self).last_pass@[k2]),
            forall|i: int|
                0 <= i < old(self).n() ==> #[trigger] final(self).height_at(i) == old(self).height_at(i) || final(self).height_at(i) >= final(self).min_parent_height(i) - 1
                    || final(self).kind_at(i).active() != old(self).kind_at(i).active(),
            forall|b: int|
                0 <= b < old(self).n() && #[trigger] final(self).last_pass@.contains(b) && final(self).kind_at(b) is Bind && (final(self).kind_at(
                    final(self).kind_at(b)->Bind_selector as int,
                ) is Var || !final(self).last_pass@.contains(
                    final(self).kind_at(b)->Bind_selector as int,
                )) ==> final(self).choice_current(b),
            forall|i: int|
                #![trigger final(self).height_at(i)]
                0 <= i < old(self).n() && old(self).others_active_unchanged(*final(self), i)
                    ==> final(self).height_at(i) == old(self).height_at(i) || final(self).height_at(i) >= final(self).min_parent_height(i) - 1,
    {
        let n: usize = self.kinds.len();
        let mut queue: Vec<(i64, usize)> = Vec::new();
        let mut idx: usize = 0;
        while idx < n
            invariant
                *self == *old(self),
                old(self).wf(),
                n == self.kinds@.len(),
                idx <= n,
                forall|k: int|
                    0 <= k < queue@.len() ==> ((#[trigger] queue@[k]).1 as int) < idx
                        && self.dirty_at(queue@[k].1 as int) && queue@[k].0 as int
                        == self.height_at(queue@[k].1 as int),
                forall|i: int|
                    0 <= i < idx && #[trigger] self.dirty_at(i) ==> entry_ids(queue@).contains(i),
                forall|k1: int, k2: int|
                    0 <= k1 < k2 < queue@.len() ==> queue@[k1].1 < queue@[k2].1,
            decreases n - idx,
        {
            if self.dirty[idx] {
                let ghost q_seed = queue@;
                queue.push((self.heights[idx], idx));
                proof {
                    lemma_entry_ids_push(q_seed, (self.heights@[idx as int], idx));
                    assert forall|i: int|
                        0 <= i < idx + 1 && #[trigger] self.dirty_at(i) implies entry_ids(
                        queue@,
                    ).contains(i) by {
                        if i < idx {
                            assert(entry_ids(q_seed).contains(i));
                            let k8 = choose|k8: int|
                                0 <= k8 < entry_ids(q_seed).len() && entry_ids(q_seed)[k8] == i;
                            assert(entry_ids(queue@)[k8] == i);
                        } else {
                            assert(entry_ids(queue@)[entry_ids(queue@).len() - 1] == i);
                        }
                    }
                }
            }
            idx += 1;
        }
        let mut visited = Bitmap::new(n);
        let ghost mut trace: Seq<int> = Seq::<int>::empty();
        let ghost o = *old(self);
        let ghost mut last_h: int = H_MAX as int;
        let ghost mut moved: bool = false;
        proof {
            assert forall|x: int|
                #[trigger] trace.to_multiset().count(x) + entry_ids(
                    queue@,
                ).to_multiset().count(x) <= 1 by {
                assert(trace.to_multiset().count(x) == 0) by {
                    assert(trace.to_multiset() =~= Multiset::empty());
                }
                assert forall|k1: int, k2: int|
                    0 <= k1 < k2 < entry_ids(queue@).len() implies entry_ids(queue@)[k1]
                    != entry_ids(queue@)[k2] by {
                    assert(queue@[k1].1 < queue@[k2].1);
                }
                lemma_count_le_one_of_strictly_sorted(entry_ids(queue@));
            }
            assert forall|k: int|
                0 <= k < queue@.len() implies (#[trigger] queue@[k]).0 as int == self.height_at(
                queue@[k].1 as int,
            ) && queue@[k].0 as int <= last_h by {
                assert(H_MAX - queue@[k].1 <= self.height_at(queue@[k].1 as int) <= H_MAX);
            }
            assert forall|k: int|
                0 <= k < queue@.len() implies o.affected((#[trigger] queue@[k]).1 as int) by {
                assert(o.dirty_at(queue@[k].1 as int));
            }
            assert forall|i: int|
                0 <= i < n && #[trigger] o.affected(i) implies trace.contains(i) || entry_ids(
                queue@,
            ).contains(i) || (exists|p: int|
                0 <= p < i && #[trigger] o.is_parent(p, i) && o.affected(p) && !trace.contains(
                    p,
                )) by {
                if o.dirty_at(i) {
                    assert(entry_ids(queue@).contains(i));
                }
            }
            if forall|i: int| 0 <= i < n ==> !(#[trigger] o.dirty_at(i)) {
                assert(queue@.len() == 0) by {
                    if queue@.len() > 0 {
                        assert(self.dirty_at(queue@[0].1 as int));
                    }
                }
            }
        }
        #[verifier::loop_isolation(true)]
        while queue.len() > 0
            invariant
                o == *old(self),
                o.wf(),
                self.wf(),
                o.same_shape(self),
                n == o.n(),
                n == self.kinds@.len(),
                visited.capacity() >= n as int,
                visited@.finite(),
                forall|x: int| #[trigger] visited@.contains(x) ==> 0 <= x < n,
                forall|i: int|
                    0 <= i < n ==> #[trigger] self.height_at(i) <= o.height_at(i),
                forall|i: int|
                    0 <= i < n ==> #[trigger] self.height_at(i) == o.height_at(i)
                        || self.height_at(i) >= self.min_parent_height(i) - 1 || self.kind_at(
                        i,
                    ).active() != o.kind_at(i).active(),
                forall|i: int|
                    #![trigger self.height_at(i)]
                    0 <= i < n && o.others_active_unchanged(*self, i) ==> self.height_at(i)
                        == o.height_at(i) || self.height_at(i) >= self.min_parent_height(i) - 1,
                forall|i: int|
                    0 <= i < n && o.kind_at(i) is Var ==> #[trigger] self.val_at(i) == o.val_at(i),
                forall|k: int|
                    0 <= k < trace.len() ==> 0 <= #[trigger] trace[k] < n,
                forall|k: int| 0 <= k < queue@.len() ==> ((#[trigger] queue@[k]).1 as int) < n,
                forall|x: int|
                    #[trigger] trace.to_multiset().count(x) + entry_ids(
                        queue@,
                    ).to_multiset().count(x) <= 1,
                forall|x: int|
                    0 <= x < n && !(self.kind_at(x) is Var) && #[trigger] (
                    trace.to_multiset().count(x) + entry_ids(queue@).to_multiset().count(
                        x,
                    )) > 0 ==> visited@.contains(x),
                forall|x: int|
                    #[trigger] visited@.contains(x) ==> trace.to_multiset().count(x)
                        + entry_ids(queue@).to_multiset().count(x) > 0,
                forall|i: int|
                    0 <= i < n && #[trigger] self.dirty_at(i) ==> entry_ids(queue@).contains(i),
                forall|k: int|
                    0 <= k < queue@.len() && self.kind_at(queue@[k].1 as int) is Var
                        ==> self.dirty_at((#[trigger] queue@[k]).1 as int),
                forall|i: int|
                    #![trigger self.val_at(i)]
                    #![trigger self.kind_at(i)]
                    #![trigger self.dirty_at(i)]
                    0 <= i < n && !trace.contains(i) ==> self.val_at(i) == o.val_at(i)
                        && self.kind_at(i) == o.kind_at(i) && self.dirty_at(i) == o.dirty_at(i),
                trace.len() == 0 ==> self.kinds@ == o.kinds@ && self.values@ == o.values@
                    && self.heights@ == o.heights@ && self.dirty@ == o.dirty@ && self.children@
                    == o.children@,
                (forall|i: int| 0 <= i < n ==> !(#[trigger] o.dirty_at(i))) ==> (queue@.len() == 0
                    && trace.len() == 0),
                o.no_binds() ==> self.kinds@ == o.kinds@,
                o.no_binds() ==> !moved,
                !moved ==> self.heights@ == o.heights@ && self.children@ == o.children@,
                moved ==> exists|b: int|
                    0 <= b < n && trace.contains(b) && (#[trigger] self.kind_at(b)).active()
                        != o.kind_at(b).active(),
                forall|i: int|
                    0 <= i < n && #[trigger] o.dirty_at(i) ==> trace.contains(i) || entry_ids(
                        queue@,
                    ).contains(i),
                forall|k: int|
                    0 <= k < trace.len() ==> o.affected(#[trigger] trace[k]),
                forall|k: int|
                    #![trigger trace[k]]
                    0 <= k < trace.len() && self.kind_at(trace[k]) is Bind
                        ==> self.choice_current(trace[k]) || (trace.contains(
                        self.kind_at(trace[k])->Bind_selector as int,
                    ) && !(self.kind_at(self.kind_at(trace[k])->Bind_selector as int) is Var)),
                forall|k: int|
                    0 <= k < queue@.len() ==> o.affected((#[trigger] queue@[k]).1 as int),
                forall|i: int|
                    0 <= i < n && #[trigger] o.affected(i) ==> trace.contains(i) || entry_ids(
                        queue@,
                    ).contains(i) || (exists|p: int|
                        0 <= p < i && #[trigger] o.is_parent(p, i) && o.affected(p)
                            && !trace.contains(p)),
                !moved ==> forall|k: int|
                    0 <= k < queue@.len() ==> (#[trigger] queue@[k]).0 as int == self.height_at(
                        queue@[k].1 as int,
                    ) && queue@[k].0 as int <= last_h,
                !moved ==> forall|k: int|
                    0 <= k < trace.len() ==> #[trigger] self.height_at(
                        trace[k],
                    ) >= last_h,
                !moved ==> forall|k1: int, k2: int|
                    0 <= k1 <= k2 < trace.len() ==> self.height_at(trace[k1])
                        >= self.height_at(trace[k2]),
                last_h <= H_MAX as int,
                (!moved && o.explained()) ==> forall|i: int|
                    0 <= i < n ==> #[trigger] self.node_ok(i) || entry_ids(queue@).contains(i) || (
                    exists|p: int| #[trigger] self.is_parent(p, i) && entry_ids(queue@).contains(
                        p,
                    )),
            decreases queue@.len() + n - visited@.len(),
        {
            proof {
                vstd::set_lib::lemma_int_range(0, n as int);
                assert(visited@.subset_of(vstd::set_lib::set_int_range(0, n as int))) by {
                    assert forall|v: int| visited@.contains(v) implies vstd::set_lib::set_int_range(
                        0,
                        n as int,
                    ).contains(v) by {}
                }
                vstd::set_lib::lemma_len_subset(
                    visited@,
                    vstd::set_lib::set_int_range(0, n as int),
                );
            }
            let ghost g0 = *self;
            let ghost q_pre = queue@;
            let ghost trace_pre = trace;
            let ghost vis_pre = visited@;
            let he = pop_max(&mut queue);
            let h: i64 = he.0;
            let id: usize = he.1;
            proof {
                let kx = choose|kx: int|
                    0 <= kx < q_pre.len() && q_pre[kx] == he && queue@ == q_pre.remove(kx);
                lemma_entry_ids_remove(q_pre, kx);
                assert(entry_ids(q_pre)[kx] == id as int);
                assert(entry_ids(queue@).to_multiset() == entry_ids(q_pre).to_multiset().remove(
                    id as int,
                ));
                assert((id as int) < n);
                assert(entry_ids(q_pre)[kx] == id as int);
                assert(entry_ids(q_pre).contains(id as int));
                assert(entry_ids(q_pre).to_multiset().count(id as int) > 0);
                assert(o.affected(q_pre[kx].1 as int));
                assert(o.affected(id as int));
                if !moved {
                    assert(q_pre[kx].0 as int == self.height_at(q_pre[kx].1 as int));
                    assert(h as int == self.height_at(id as int));
                    assert(q_pre[kx].0 as int <= last_h);
                    assert(h as int <= last_h);
                }
                if g0.kind_at(id as int) is Var {
                    assert(g0.kind_at(q_pre[kx].1 as int) is Var);
                    assert(g0.dirty_at(q_pre[kx].1 as int));
                    assert(g0.dirty_at(id as int));
                }
            }
            let cbs = self.recompute(id);
            proof {
                trace = trace.push(id as int);
            }
            let ghost g1 = *self;
            let ghost last_h_pre = last_h;
            let ghost moved_pre = moved;
            proof {
                if !moved {
                    last_h = h as int;
                }
                if cbs@.len() < 2 {
                    assert(g1.kind_at(id as int).active() == g0.kind_at(id as int).active()) by {
                        if g0.kind_at(id as int) is Bind {
                        } else {
                            assert(g1.kind_at(id as int) == g0.kind_at(id as int));
                        }
                    }
                    lemma_wf_recompute(g0, g1, id as int);
                }
                if o.no_binds() {
                    assert(o.kind_at(id as int).same_shape(g0.kind_at(id as int)));
                    assert(!(g0.kind_at(id as int) is Bind));
                    assert(cbs@.len() < 2);
                    assert(h as int == g0.height_at(id as int));
                }
                assert(cbs@.len() >= 1) by {
                    if g0.kind_at(id as int) is Var {
                        assert(g0.dirty_at(id as int));
                    }
                }
                assert(g0.sized_ok());
                assert(g1.heights@ == g0.heights@);
                assert(g1.children@ == g0.children@);
                assert(g1.dirty@ == g0.dirty@.update(id as int, false));
                assert(g1.kinds@.len() == n);
                assert(g1.values@.len() == n);
                assert(g1.heights@.len() == n);
                assert(g1.dirty@.len() == n);
                assert(g1.children@.len() == n);
                if !moved {
                    assert(h as int <= last_h_pre);
                    assert(h as int == g0.height_at(id as int));
                    assert(g1.height_at(id as int) == h as int);
                }
                assert(!trace_pre.contains(id as int)) by {
                    if trace_pre.contains(id as int) {
                        assert(trace_pre.to_multiset().count(id as int) > 0);
                    }
                }
                assert(g0.val_at(id as int) == o.val_at(id as int) && g0.kind_at(id as int)
                    == o.kind_at(id as int));
                if o.no_binds() {
                    assert(g1.kinds@ == g0.kinds@) by {
                        assert forall|i2: int|
                            0 <= i2 < n implies g1.kinds@[i2] == g0.kinds@[i2] by {
                            if i2 == id as int {
                                assert(!(g0.kind_at(i2) is Bind));
                                assert(g1.kind_at(i2) == g0.kind_at(i2));
                            } else {
                                assert(g1.kind_at(i2) == g0.kind_at(i2));
                            }
                        }
                        assert(g1.kinds@ =~= g0.kinds@);
                    }
                }
                // membership bookkeeping after moving `id` from the queue to
                // the trace
                lemma_pop_bookkeeping(
                    &o,
                    &g0,
                    &g1,
                    trace_pre,
                    trace,
                    q_pre,
                    queue@,
                    vis_pre,
                    he,
                    id,
                    n as int,
                );
                lemma_choice_after_pop(&g0, &g1, trace_pre, trace, id, n as int);
                if !moved {
                    lemma_order_after_pop(
                        &g0,
                        &g1,
                        trace_pre,
                        trace,
                        q_pre,
                        queue@,
                        he,
                        id,
                        last_h_pre,
                        last_h,
                    );
                }
                if !moved && o.explained() {
                    lemma_expl_after_pop(g0, g1, q_pre, queue@, id, n as int);
                }
            }
            if cbs.len() >= 1 {
                let ghost q_mid = queue@;
                let ghost vis_mid = visited@;
                let kids: usize = self.children[id].len();
                let mut j: usize = 0;
                while j < kids
                    invariant
                        o == *old(self),
                        o.wf(),
                        g0.wf(),
                        *self == g1,
                        self.kinds@ == g1.kinds@,
                        self.values@ == g1.values@,
                        self.heights@ == g1.heights@,
                        self.dirty@ == g1.dirty@,
                        self.children@ == g1.children@,
                        self.map_fn == g1.map_fn,
                        self.map2_fn == g1.map2_fn,
                        self.choose_fn == g1.choose_fn,
                        self.children@.len() == n,
                        self.heights@.len() == n,
                        n == o.n(),
                        n == self.kinds@.len(),
                        (id as int) < n,
                        j <= kids,
                        kids == self.child_list(id as int).len(),
                        visited.capacity() >= n as int,
                        visited@.finite(),
                        forall|x: int| #[trigger] visited@.contains(x) ==> 0 <= x < n,
                        forall|k: int|
                            0 <= k < queue@.len() ==> ((#[trigger] queue@[k]).1 as int) < n,
                        forall|x: int|
                            #[trigger] trace.to_multiset().count(x) + entry_ids(
                                queue@,
                            ).to_multiset().count(x) <= 1,
                        forall|x: int|
                            0 <= x < n && !(self.kind_at(x) is Var) && #[trigger] (
                            trace.to_multiset().count(x) + entry_ids(
                                queue@,
                            ).to_multiset().count(x)) > 0 ==> visited@.contains(x),
                        forall|x: int|
                            #[trigger] visited@.contains(x) ==> trace.to_multiset().count(
                                x,
                            ) + entry_ids(queue@).to_multiset().count(x) > 0,
                        forall|i: int|
                            0 <= i < n && #[trigger] self.dirty_at(i) ==> entry_ids(
                                queue@,
                            ).contains(i),
                        forall|k: int|
                            0 <= k < queue@.len() && self.kind_at(queue@[k].1 as int) is Var
                                ==> self.dirty_at((#[trigger] queue@[k]).1 as int),
                        queue@.len() + n - visited@.len() <= q_mid.len() + n - vis_mid.len(),
                        forall|i2: int|
                            0 <= i2 < n && #[trigger] o.dirty_at(i2) ==> trace.contains(i2)
                                || entry_ids(queue@).contains(i2),
                        forall|k: int|
                            0 <= k < queue@.len() ==> o.affected((#[trigger] queue@[k]).1 as int),
                        forall|x: int|
                            x != id as int ==> #[trigger] entry_ids(queue@).to_multiset().count(x)
                                >= entry_ids(q_pre).to_multiset().count(x),
                        forall|k2: int|
                            0 <= k2 < j ==> entry_ids(queue@).contains(
                                (#[trigger] self.child_list(id as int)[k2]) as int,
                            ) || trace.contains(self.child_list(id as int)[k2] as int),
                        !moved ==> forall|k: int|
                            0 <= k < queue@.len() ==> (#[trigger] queue@[k]).0 as int
                                == self.height_at(queue@[k].1 as int) && queue@[k].0 as int
                                <= last_h,
                        !moved ==> forall|k2: int|
                            0 <= k2 < j ==> entry_ids(queue@).contains(
                                (#[trigger] self.child_list(id as int)[k2]) as int,
                            ),
                        !moved ==> forall|k: int|
                            0 <= k < trace.len() ==> #[trigger] self.height_at(
                                trace[k],
                            ) >= last_h,
                        (!moved && o.explained()) ==> forall|i: int|
                            0 <= i < n ==> #[trigger] self.node_ok(i) || entry_ids(
                                queue@,
                            ).contains(i) || (exists|p: int|
                                #[trigger] self.is_parent(p, i) && entry_ids(queue@).contains(p))
                                || (self.is_parent(id as int, i) && exists|k2: int|
                                j <= k2 < kids && self.child_list(id as int)[k2] as int == i),
                    decreases kids - j,
                {
                    let c = self.children[id][j];
                    proof {
                        assert(self.child_list(id as int) == g0.child_list(id as int));
                        assert(self.child_list(id as int)[j as int] == c);
                        assert(self.child_list(id as int).contains(c));
                        assert(g0.child_list(id as int).contains(c));
                        assert(g0.child_list(id as int).to_multiset().count(c) > 0);
                        assert((c as int) < n && g0.kind_at(c as int).role_count(id as int) > 0);
                        assert(!(g0.kind_at(c as int) is Var));
                        assert(self.kind_at(c as int) == g0.kind_at(c as int));
                        if !moved {
                            assert(g0.is_parent(id as int, c as int));
                            assert(g0.height_at(c as int) < g0.height_at(id as int));
                            assert(self.height_at(c as int) < self.height_at(id as int));
                            assert(self.height_at(id as int) == h as int);
                            assert(self.height_at(c as int) < last_h);
                        }
                    }
                    let ghost q_in = queue@;
                    let ghost vis_in = visited@;
                    if !visited.contains(&c) {
                        visited.insert(c);
                        queue.push((self.heights[c], c));
                        proof {
                            lemma_entry_ids_push(q_in, (self.heights@[c as int], c));
                            assert(!vis_in.contains(c as int));
                            assert(visited@ == vis_in.insert(c as int));
                            assert(visited@.len() == vis_in.len() + 1);
                            lemma_push_bookkeeping(
                                &o,
                                &g0,
                                &g1,
                                trace_pre,
                                trace,
                                q_pre,
                                q_in,
                                queue@,
                                (self.heights@[c as int], c),
                                id,
                                c,
                                n as int,
                            );
                        }
                    } else {
                        proof {
                            assert(trace.contains(c as int) || entry_ids(queue@).contains(
                                c as int,
                            )) by {
                                assert(trace.to_multiset().count(c as int) + entry_ids(
                                    queue@,
                                ).to_multiset().count(c as int) > 0);
                                if trace.to_multiset().count(c as int) > 0 {
                                    assert(trace.contains(c as int));
                                } else {
                                    assert(entry_ids(queue@).contains(c as int));
                                }
                            }
                            if !moved {
                                assert(trace.to_multiset().count(c as int) + entry_ids(
                                    queue@,
                                ).to_multiset().count(c as int) > 0);
                                if trace.to_multiset().count(c as int) > 0 {
                                    assert(trace.contains(c as int));
                                    let kt = choose|kt: int|
                                        0 <= kt < trace.len() && trace[kt]
                                            == c as int;
                                    assert(self.height_at(trace[kt]) >= last_h);
                                    assert(self.height_at(c as int) >= last_h);
                                    assert(false);
                                }
                                assert(entry_ids(queue@).to_multiset().count(c as int) > 0);
                                assert(entry_ids(queue@).contains(c as int));
                            }
                        }
                    }
                    proof {
                        assert forall|x: int|
                            entry_ids(q_in).contains(x) implies #[trigger] entry_ids(
                            queue@,
                        ).contains(x) by {
                            let ka = choose|ka: int|
                                0 <= ka < entry_ids(q_in).len() && entry_ids(q_in)[ka] == x;
                            assert(entry_ids(queue@)[ka] == x);
                        }
                        assert forall|k2: int|
                            0 <= k2 < j + 1 implies entry_ids(queue@).contains(
                            (#[trigger] self.child_list(id as int)[k2]) as int,
                        ) || trace.contains(self.child_list(id as int)[k2] as int) by {
                            if k2 < j {
                                if entry_ids(q_in).contains(
                                    self.child_list(id as int)[k2] as int,
                                ) {
                                    assert(entry_ids(queue@).contains(
                                        self.child_list(id as int)[k2] as int,
                                    ));
                                }
                            } else {
                                assert(self.child_list(id as int)[k2] == c);
                            }
                        }
                        if !moved {
                            assert forall|k2: int|
                                0 <= k2 < j + 1 implies entry_ids(queue@).contains(
                                (#[trigger] self.child_list(id as int)[k2]) as int,
                            ) by {
                                if k2 < j {
                                    assert(entry_ids(q_in).contains(
                                        self.child_list(id as int)[k2] as int,
                                    ));
                                }
                            }
                        }
                        if !moved && o.explained() {
                            assert(entry_ids(queue@).contains(c as int));
                            lemma_expl_after_push(
                                *self,
                                q_in,
                                queue@,
                                id,
                                c,
                                j as int,
                                kids as int,
                                n as int,
                            );
                        }
                    }
                    j += 1;
                }
                proof {
                    if !moved && o.explained() {
                        assert forall|i2: int|
                            0 <= i2 < n implies #[trigger] g1.node_ok(i2) || entry_ids(
                            queue@,
                        ).contains(i2) || (exists|p: int|
                            #[trigger] g1.is_parent(p, i2) && entry_ids(queue@).contains(p)) by {
                            assert(self.node_ok(i2) || entry_ids(queue@).contains(i2) || (
                            exists|p: int|
                                #[trigger] self.is_parent(p, i2) && entry_ids(queue@).contains(p))
                                || (self.is_parent(id as int, i2) && exists|k2: int|
                                j <= k2 < kids && self.child_list(id as int)[k2] as int == i2));
                        }
                    }
                }
            }
            if cbs.len() >= 2 {
                proof {
                    assert(g0.kind_at(id as int) is Bind) by {
                        if !(g0.kind_at(id as int) is Bind) {
                            assert(cbs@.len() <= 1);
                        }
                    }
                    assert(!o.no_binds()) by {
                        assert(o.kind_at(id as int).same_shape(g0.kind_at(id as int)));
                        assert(o.kind_at(id as int) is Bind);
                    }
                }
                let cb1 = &cbs[1];
                if let StablizationCallback::DependenciesUpdated { from, to } = cb1 {
                    let f0: usize = from[0];
                    let t0: usize = to[0];
                    proof {
                        assert(from@ == seq![(g0.kind_at(id as int).active()) as usize]);
                        assert(to@ == seq![(g1.kind_at(id as int).active()) as usize]);
                        assert(f0 as int == g0.kind_at(id as int).active());
                        assert(t0 as int == g1.kind_at(id as int).active());
                        assert(g0.kind_at(id as int).refs_below(id as int));
                        assert((f0 as int) < n && (t0 as int) < n);
                        assert(g0.kind_at(id as int).role_count(f0 as int) > 0);
                        assert(self.child_list(f0 as int).to_multiset().count(id) == g0.kind_at(
                            id as int,
                        ).role_count(f0 as int)) by {
                            assert(self.child_list(f0 as int) == g0.child_list(f0 as int));
                            assert(g0.child_list(f0 as int).to_multiset().count(id) == g0.kind_at(
                                id as int,
                            ).role_count(f0 as int));
                        }
                        assert(self.child_list(f0 as int).contains(id)) by {
                            assert(self.child_list(f0 as int).to_multiset().count(id) > 0);
                        }
                    }
                    let ghost g2 = *self;
                    self.remove_edge(f0, id);
                    self.push_edge(t0, id);
                    let ghost g3 = *self;
                    proof {
                        lemma_bind_switch_edges(g0, g2, g3, id as int, f0 as int, t0 as int);
                        assert(work_set(seq![id]) == Set::<int>::empty().insert(id as int)) by {
                            assert forall|v: int|
                                work_set(seq![id]).contains(v) <==> Set::<int>::empty().insert(
                                    id as int,
                                ).contains(v) by {
                                if v == id as int {
                                    assert(seq![id][0] as int == v);
                                }
                            }
                            assert(work_set(seq![id]) =~= Set::<int>::empty().insert(id as int));
                        }
                        assert(g3.wf_except_heights(work_set(seq![id])));
                    }
                    self.adjust_heights(id);
                    proof {
                        assert(self.kinds@ == g1.kinds@ && self.values@ == g1.values@
                            && self.dirty@ == g1.dirty@ && self.map_fn == g1.map_fn
                            && self.map2_fn == g1.map2_fn && self.choose_fn == g1.choose_fn);
                        assert forall|i2: int|
                            0 <= i2 < n implies #[trigger] self.height_at(i2) <= o.height_at(
                            i2,
                        ) by {
                            assert(self.height_at(i2) <= g3.height_at(i2));
                            assert(g3.height_at(i2) == g0.height_at(i2));
                        }
                        lemma_min_after_rewire(o, g0, g1, g3, *self, id as int, n as int);
                        assert forall|i2: int|
                            #![trigger self.height_at(i2)]
                            0 <= i2 < n && o.others_active_unchanged(*self, i2)
                            implies self.height_at(i2) == o.height_at(i2) || self.height_at(i2)
                            >= self.min_parent_height(i2) - 1 by {
                            if i2 != id as int {
                                assert(self.kind_at(id as int).active() != o.kind_at(
                                    id as int,
                                ).active());
                            } else {
                                if moved_pre {
                                    let b2 = choose|b2: int|
                                        0 <= b2 < n && trace_pre.contains(b2) && (
                                        #[trigger] g0.kind_at(b2)).active() != o.kind_at(
                                            b2,
                                        ).active();
                                    assert(b2 != id as int);
                                    assert(self.kind_at(b2) == g1.kind_at(b2));
                                    assert(g1.kind_at(b2) == g0.kind_at(b2));
                                    assert(self.kind_at(b2).active() == o.kind_at(b2).active());
                                } else {
                                    assert(g0.heights@ == o.heights@);
                                    assert(g3.heights@ == g0.heights@);
                                    assert(self.height_at(i2) == g3.height_at(i2)
                                        || self.height_at(i2) >= self.min_parent_height(i2) - 1);
                                }
                            }
                        }
                        moved = true;
                        assert(trace.contains(id as int)) by {
                            assert(trace[trace.len() - 1] == id as int);
                        }
                        assert(self.kind_at(id as int) == g1.kind_at(id as int));
                        assert(self.kind_at(id as int).active() != o.kind_at(id as int).active())
                            by {
                            assert(g0.kind_at(id as int) == o.kind_at(id as int));
                            assert(g1.kind_at(id as int).active() != g0.kind_at(
                                id as int,
                            ).active());
                        }
                    }
                }
            } else {
                proof {
                    assert(self.wf());
                    assert(self.heights@ == g1.heights@ && self.children@ == g1.children@
                        && self.kinds@ == g1.kinds@);
                }
            }
            proof {
                // the invariants, restated for whichever path was taken
                assert forall|i2: int|
                    0 <= i2 < n implies #[trigger] self.height_at(i2) <= o.height_at(i2) by {
                    if cbs@.len() < 2 {
                        assert(self.heights@ == g1.heights@);
                        assert(g1.heights@ == g0.heights@);
                        assert(g0.height_at(i2) <= o.height_at(i2));
                    }
                }
                if cbs@.len() < 2 {
                    assert(g1.kind_at(id as int).active() == g0.kind_at(id as int).active()) by {
                        if !(g0.kind_at(id as int) is Bind) {
                            assert(g1.kind_at(id as int) == g0.kind_at(id as int));
                        }
                    }
                    lemma_min_frame_same_heights(o, g0, g1, *self, id as int, n as int);
                }
                assert(self.kinds@ == g1.kinds@ && self.values@ == g1.values@ && self.dirty@
                    == g1.dirty@ && self.map_fn == g1.map_fn && self.map2_fn == g1.map2_fn
                    && self.choose_fn == g1.choose_fn);
                lemma_iteration_frame(
                    &o,
                    &g0,
                    &g1,
                    &*self,
                    trace_pre,
                    trace,
                    queue@,
                    visited@,
                    id,
                    n as int,
                );
                assert(trace.len() > 0);
                if forall|i2: int| 0 <= i2 < n ==> !(#[trigger] o.dirty_at(i2)) {
                    assert(q_pre.len() == 0);
                    assert(false);
                }
                lemma_aff_after_iteration(&o, &g0, &g1, trace_pre, trace, q_pre, queue@, id, n as int);
                lemma_choice_frame(&g1, &*self, trace, n as int);
                if o.no_binds() {
                    assert(!(g0.kind_at(id as int) is Bind)) by {
                        assert(o.kind_at(id as int).same_shape(g0.kind_at(id as int)));
                    }
                    assert(cbs@.len() < 2);
                    assert(self.kinds@ == g1.kinds@);
                    assert(g1.kinds@ == g0.kinds@);
                    assert(g0.kinds@ == o.kinds@);
                    assert(self.kinds@ == o.kinds@);
                }
                if !moved {
                    assert(cbs@.len() < 2);
                    assert(self.heights@ == g1.heights@ && self.children@ == g1.children@);
                    assert(g1.heights@ == g0.heights@ && g1.children@ == g0.children@);
                    assert(g0.heights@ == o.heights@ && g0.children@ == o.children@);
                    assert(self.heights@ == o.heights@ && self.children@ == o.children@);
                    assert forall|k: int|
                        0 <= k < queue@.len() implies (#[trigger] queue@[k]).0 as int
                            == self.height_at(queue@[k].1 as int) && queue@[k].0 as int
                            <= last_h by {
                        assert(queue@[k].0 as int == g1.height_at(queue@[k].1 as int));
                    }
                    assert forall|k: int|
                        0 <= k < trace.len() implies #[trigger] self.height_at(trace[k])
                        >= last_h by {
                        assert(g1.height_at(trace[k]) >= last_h);
                    }
                    assert forall|k1: int, k2: int|
                        0 <= k1 <= k2 < trace.len() implies self.height_at(trace[k1])
                            >= self.height_at(trace[k2]) by {
                        assert(g1.height_at(trace[k1]) >= g1.height_at(trace[k2]));
                    }
                }
                if !moved && o.explained() {
                    lemma_expl_frame(g1, *self, queue@, n as int);
                }
                assert forall|v: int| #[trigger] visited@.contains(v) implies vstd::set_lib::set_int_range(
                    0,
                    n as int,
                ).contains(v) by {
                }
                vstd::set_lib::lemma_int_range(0, n as int);
                vstd::set_lib::lemma_len_subset(
                    visited@,
                    vstd::set_lib::set_int_range(0, n as int),
                );
            }
        }
        proof {
            lemma_exit_facts(&o, &*self, trace, queue@, moved, n as int);
        }
        let ghost g_end = *self;
        self.last_pass = Ghost(trace);
        proof {
            lemma_conclude_pass(&o, &g_end, &*self, trace, moved, n as int);
            if forall|i: int| 0 <= i < n ==> !(#[trigger] o.dirty_at(i)) {
                assert(trace.len() == 0);
                assert(trace =~= Seq::<int>::empty());
                assert(self.kinds@ == o.kinds@ && self.values@ == o.values@ && self.heights@
                    == o.heights@ && self.dirty@ == o.dirty@ && self.children@ == o.children@);
            }
        }
    }
}

/// When the queue has drained, the loop's invariants close the pass's
/// conclusions: nothing is dirty, the trace has no duplicates and holds
/// the whole affected set, and -- when no bind moved -- every node is
/// consistent.
#[verifier::spinoff_prover]
proof fn lemma_exit_facts<T, F1, F2, FC>(
    o: &Incrementars<T, F1, F2, FC>,
    g: &Incrementars<T, F1, F2, FC>,
    trace: Seq<int>,
    q: Seq<(i64, usize)>,
    moved: bool,
    n: int,
) where T: Clone, F1: Fn(u64, &T) -> T, F2: Fn(u64, &T, &T) -> T, FC: Fn(u64, &T) -> bool
    requires
        q.len() == 0,
        forall|i: int|
            0 <= i < n && #[trigger] g.dirty_at(i) ==> entry_ids(q).contains(i),
        forall|x: int|
            #[trigger] trace.to_multiset().count(x) + entry_ids(q).to_multiset().count(x) <= 1,
        forall|i: int|
            0 <= i < n && #[trigger] o.dirty_at(i) ==> trace.contains(i) || entry_ids(
                q,
            ).contains(i),
        forall|i2: int|
            0 <= i2 < n && #[trigger] o.affected(i2) ==> trace.contains(i2) || entry_ids(
                q,
            ).contains(i2) || (exists|p: int|
                0 <= p < i2 && #[trigger] o.is_parent(p, i2) && o.affected(p) && !trace.contains(
                    p,
                )),
        (!moved && o.explained()) ==> forall|i: int|
            0 <= i < n ==> #[trigger] g.node_ok(i) || entry_ids(q).contains(i) || (
            exists|p: int| #[trigger] g.is_parent(p, i) && entry_ids(q).contains(p)),
    ensures
        forall|i: int| 0 <= i < n ==> !(#[trigger] g.dirty_at(i)),
        trace.no_duplicates(),
        forall|i: int| 0 <= i < n && #[trigger] o.dirty_at(i) ==> trace.contains(i),
        forall|i: int| 0 <= i < n && #[trigger] o.affected(i) ==> trace.contains(i),
        (!moved && o.explained()) ==> forall|i: int| 0 <= i < n ==> #[trigger] g.node_ok(i),
{
    assert(entry_ids(q).len() == 0);
    assert forall|i: int| 0 <= i < n implies !(#[trigger] g.dirty_at(i)) by {
        if g.dirty_at(i) {
            assert(entry_ids(q).contains(i));
        }
    }
    assert forall|x: int| #[trigger] trace.to_multiset().count(x) <= 1 by {
        assert(trace.to_multiset().count(x) + entry_ids(q).to_multiset().count(x) <= 1);
    }
    lemma_count_le_one_no_dup(trace);
    assert forall|i: int|
        0 <= i < n && #[trigger] o.dirty_at(i) implies trace.contains(i) by {
        if entry_ids(q).contains(i) {
            let kz = choose|kz: int| 0 <= kz < entry_ids(q).len() && entry_ids(q)[kz] == i;
            assert(false);
        }
    }
    assert forall|i: int|
        0 <= i < n && #[trigger] o.affected(i) implies trace.contains(i) by {
        assert forall|x: int|
            0 <= x < n && #[trigger] o.affected(x) implies trace.contains(x) || (exists|p: int|
            0 <= p < x && #[trigger] o.is_parent(p, x) && o.affected(p) && !trace.contains(
                p,
            )) by {
            if entry_ids(q).contains(x) {
                let kz2 = choose|kz2: int| 0 <= kz2 < entry_ids(q).len() && entry_ids(q)[kz2] == x;
                assert(false);
            }
        }
        lemma_affected_in_trace(o, trace, n, i);
    }
    if !moved && o.explained() {
        assert forall|i: int| 0 <= i < n implies #[trigger] g.node_ok(i) by {
            assert(g.node_ok(i) || entry_ids(q).contains(i) || (exists|p: int|
                #[trigger] g.is_parent(p, i) && entry_ids(q).contains(p)));
            if !g.node_ok(i) {
                if entry_ids(q).contains(i) {
                    let kz = choose|kz: int|
                        0 <= kz < entry_ids(q).len() && entry_ids(q)[kz] == i;
                    assert(false);
                } else {
                    let p = choose|p: int|
                        #[trigger] g.is_parent(p, i) && entry_ids(q).contains(p);
                    let kz = choose|kz: int|
                        0 <= kz < entry_ids(q).len() && entry_ids(q)[kz] == p;
                    assert(false);
                }
            }
        }
    }
}

/// Carry every exit fact of the scheduling loop over to the state that
/// additionally records the pass trace, and close the well-formedness
/// and consistency conclusions the contract states.
#[verifier::spinoff_prover]
proof fn lemma_conclude_pass<T, F1, F2, FC>(
    o: &Incrementars<T, F1, F2, FC>,
    g_end: &Incrementars<T, F1, F2, FC>,
    gs: &Incrementars<T, F1, F2, FC>,
    trace: Seq<int>,
    moved: bool,
    n: int,
) where T: Clone, F1: Fn(u64, &T) -> T, F2: Fn(u64, &T, &T) -> T, FC: Fn(u64, &T) -> bool
    requires
        n == o.n(),
        g_end.wf(),
        n == g_end.n(),
        gs.kinds@ == g_end.kinds@,
        gs.values@ == g_end.values@,
        gs.heights@ == g_end.heights@,
        gs.dirty@ == g_end.dirty@,
        gs.children@ == g_end.children@,
        gs.map_fn == g_end.map_fn,
        gs.map2_fn == g_end.map2_fn,
        gs.choose_fn == g_end.choose_fn,
        gs.last_pass@ == trace,
        forall|i: int| 0 <= i < n ==> !(#[trigger] g_end.dirty_at(i)),
        o.same_shape(g_end),
        forall|i: int| 0 <= i < n ==> (#[trigger] o.kind_at(i)).same_shape(g_end.kind_at(i)),
        forall|i: int| 0 <= i < n ==> #[trigger] g_end.height_at(i) <= o.height_at(i),
        forall|i: int|
            0 <= i < n ==> #[trigger] g_end.height_at(i) == o.height_at(i) || g_end.height_at(i)
                >= g_end.min_parent_height(i) - 1 || g_end.kind_at(i).active() != o.kind_at(
                i,
            ).active(),
        forall|i: int|
            #![trigger g_end.height_at(i)]
            0 <= i < n && o.others_active_unchanged(*g_end, i) ==> g_end.height_at(i)
                == o.height_at(i) || g_end.height_at(i) >= g_end.min_parent_height(i) - 1,
        forall|i: int|
            0 <= i < n && o.kind_at(i) is Var ==> #[trigger] g_end.val_at(i) == o.val_at(i),
        forall|i: int|
            #![trigger g_end.val_at(i)]
            #![trigger g_end.kind_at(i)]
            0 <= i < n && !trace.contains(i) ==> g_end.val_at(i) == o.val_at(i) && g_end.kind_at(
                i,
            ) == o.kind_at(i),
        forall|i: int| 0 <= i < n && #[trigger] o.dirty_at(i) ==> trace.contains(i),
        forall|i: int| 0 <= i < n && #[trigger] o.affected(i) ==> trace.contains(i),
        forall|k: int| 0 <= k < trace.len() ==> o.affected(#[trigger] trace[k]),
        o.no_binds() ==> g_end.kinds@ == o.kinds@,
        moved ==> exists|b: int|
            0 <= b < n && trace.contains(b) && (#[trigger] g_end.kind_at(b)).active()
                != o.kind_at(b).active(),
        !moved ==> g_end.heights@ == o.heights@ && g_end.children@ == o.children@,
        !moved ==> forall|k1: int, k2: int|
            0 <= k1 <= k2 < trace.len() ==> g_end.height_at(trace[k1]) >= g_end.height_at(
                trace[k2],
            ),
        (!moved && o.explained()) ==> forall|i: int| 0 <= i < n ==> #[trigger] g_end.node_ok(i),
        forall|k: int| 0 <= k < trace.len() ==> 0 <= #[trigger] trace[k] < n,
        forall|k: int|
            #![trigger trace[k]]
            0 <= k < trace.len() && g_end.kind_at(trace[k]) is Bind ==> g_end.choice_current(
                trace[k],
            ) || (trace.contains(g_end.kind_at(trace[k])->Bind_selector as int) && !(
            g_end.kind_at(g_end.kind_at(trace[k])->Bind_selector as int) is Var)),
    ensures
        gs.wf(),
        o.same_shape(gs),
        forall|i: int| 0 <= i < n ==> !(#[trigger] gs.dirty_at(i)),
        forall|i: int| 0 <= i < n ==> #[trigger] gs.height_at(i) <= o.height_at(i),
        forall|i: int|
            0 <= i < n ==> #[trigger] gs.height_at(i) == o.height_at(i) || gs.height_at(i)
                >= gs.min_parent_height(i) - 1 || gs.kind_at(i).active() != o.kind_at(
                i,
            ).active(),
        forall|i: int|
            0 <= i < n && o.kind_at(i) is Var ==> #[trigger] gs.val_at(i) == o.val_at(i),
        forall|i: int|
            0 <= i < n && !gs.last_pass@.contains(i) ==> #[trigger] gs.val_at(i) == o.val_at(i)
                && gs.kind_at(i) == o.kind_at(i),
        forall|i: int|
            0 <= i < n && #[trigger] o.dirty_at(i) ==> gs.last_pass@.contains(i),
        forall|i: int|
            0 <= i < n && #[trigger] o.affected(i) ==> gs.last_pass@.contains(i),
        forall|k: int|
            0 <= k < gs.last_pass@.len() ==> o.affected(#[trigger] gs.last_pass@[k]),
        o.no_binds() ==> gs.kinds@ == o.kinds@,
        o.active_unchanged(gs) ==> gs.heights@ == o.heights@ && gs.children@ == o.children@,
        (o.active_unchanged(gs) && o.explained()) ==> forall|i: int|
            0 <= i < n ==> #[trigger] gs.node_ok(i),
        (o.active_unchanged(gs) && o.explained()) ==> gs.explained(),
        o.active_unchanged(gs) ==> forall|k1: int, k2: int|
            0 <= k1 <= k2 < gs.last_pass@.len() ==> gs.height_at(gs.last_pass@[k1])
                >= gs.height_at(gs.last_pass@[k2]),
        forall|b: int|
            0 <= b < n && #[trigger] gs.last_pass@.contains(b) && gs.kind_at(b) is Bind && (
            gs.kind_at(gs.kind_at(b)->Bind_selector as int) is Var || !gs.last_pass@.contains(
                gs.kind_at(b)->Bind_selector as int,
            )) ==> gs.choice_current(b),
        forall|i: int|
            #![trigger gs.height_at(i)]
            0 <= i < n && o.others_active_unchanged(*gs, i) ==> gs.height_at(i) == o.height_at(i) || gs.height_at(i) >= gs.min_parent_height(i) - 1,
{
    lemma_choice_frame(g_end, gs, trace, n);
    assert forall|i: int|
        #![trigger gs.height_at(i)]
        0 <= i < n && o.others_active_unchanged(*gs, i) implies gs.height_at(i)
        == o.height_at(i) || gs.height_at(i) >= gs.min_parent_height(i) - 1 by {
        assert forall|j: int|
            0 <= j < n && j != i implies (#[trigger] g_end.kind_at(j)).active() == o.kind_at(
            j,
        ).active() by {
            assert(gs.kind_at(j).active() == o.kind_at(j).active());
            assert(gs.kind_at(j) == g_end.kind_at(j));
        }
        assert(o.others_active_unchanged(*g_end, i));
        assert(g_end.height_at(i) == o.height_at(i) || g_end.height_at(i)
            >= g_end.min_parent_height(i) - 1);
        assert(gs.kind_at(i) == g_end.kind_at(i));
        assert(gs.min_parent_height(i) == g_end.min_parent_height(i)) by {
            match g_end.kind_at(i) {
                NodeKind::Var => {},
                NodeKind::Map1 { .. } => {},
                NodeKind::Map2 { .. } => {},
                NodeKind::Bind { .. } => {},
            }
        }
    }
    assert forall|b: int|
        0 <= b < n && #[trigger] gs.last_pass@.contains(b) && gs.kind_at(b) is Bind && (
    gs.kind_at(gs.kind_at(b)->Bind_selector as int) is Var || !gs.last_pass@.contains(
        gs.kind_at(b)->Bind_selector as int,
    )) implies gs.choice_current(b) by {
        let kb = choose|kb: int| 0 <= kb < trace.len() && trace[kb] == b;
        assert(trace[kb] == b);
        assert(gs.choice_current(trace[kb]) || (trace.contains(
            gs.kind_at(trace[kb])->Bind_selector as int,
        ) && !(gs.kind_at(gs.kind_at(trace[kb])->Bind_selector as int) is Var)));
    }
    assert forall|i: int|
        0 <= i < n && #[trigger] gs.dirty_at(i) implies gs.kind_at(i) is Var by {
        assert(!g_end.dirty_at(i));
    }
    lemma_wf_same_structure(*g_end, *gs);
    assert forall|i: int| 0 <= i < n implies !(#[trigger] gs.dirty_at(i)) by {
        assert(!g_end.dirty_at(i));
    }
    assert forall|i: int|
        0 <= i < n implies (#[trigger] o.kind_at(i)).same_shape(gs.kind_at(i)) by {
        assert(gs.kind_at(i) == g_end.kind_at(i));
        assert(o.kind_at(i).same_shape(g_end.kind_at(i)));
    }
    assert forall|i: int|
        0 <= i < n implies #[trigger] gs.height_at(i) <= o.height_at(i) by {
        assert(g_end.height_at(i) <= o.height_at(i));
    }
    assert forall|i: int|
        0 <= i < n implies #[trigger] gs.height_at(i) == o.height_at(i) || gs.height_at(i)
        >= gs.min_parent_height(i) - 1 || gs.kind_at(i).active() != o.kind_at(i).active() by {
        assert(gs.kind_at(i) == g_end.kind_at(i));
        assert(gs.min_parent_height(i) == g_end.min_parent_height(i)) by {
            match g_end.kind_at(i) {
                NodeKind::Var => {},
                NodeKind::Map1 { .. } => {},
                NodeKind::Map2 { .. } => {},
                NodeKind::Bind { .. } => {},
            }
        }
        assert(g_end.height_at(i) == o.height_at(i) || g_end.height_at(i)
            >= g_end.min_parent_height(i) - 1 || g_end.kind_at(i).active() != o.kind_at(
            i,
        ).active());
    }
    assert forall|i: int|
        0 <= i < n && o.kind_at(i) is Var implies #[trigger] gs.val_at(i) == o.val_at(i) by {
        assert(g_end.val_at(i) == o.val_at(i));
    }
    assert forall|i: int|
        0 <= i < n && !gs.last_pass@.contains(i) implies #[trigger] gs.val_at(i) == o.val_at(i)
        && gs.kind_at(i) == o.kind_at(i) by {
        assert(g_end.val_at(i) == o.val_at(i) && g_end.kind_at(i) == o.kind_at(i));
    }
    if o.active_unchanged(gs) {
        assert(!moved) by {
            if moved {
                let b = choose|b: int|
                    0 <= b < n && trace.contains(b) && (#[trigger] g_end.kind_at(b)).active()
                        != o.kind_at(b).active();
                assert(o.kind_at(b).active() == gs.kind_at(b).active());
                assert(gs.kind_at(b) == g_end.kind_at(b));
            }
        }
        assert(g_end.heights@ == o.heights@ && g_end.children@ == o.children@);
        if o.explained() {
            assert forall|i: int| 0 <= i < n implies #[trigger] gs.node_ok(i) by {
                assert(g_end.node_ok(i));
                assert forall|p: int|
                    g_end.is_parent(p, i) implies #[trigger] gs.val_at(p) == g_end.val_at(p) by {
                }
                lemma_ok_frame(*g_end, *gs, i);
            }
            assert(gs.explained());
        }
        assert forall|k1: int, k2: int|
            0 <= k1 <= k2 < gs.last_pass@.len() implies gs.height_at(gs.last_pass@[k1])
            >= gs.height_at(gs.last_pass@[k2]) by {
            assert(g_end.height_at(trace[k1]) >= g_end.height_at(trace[k2]));
        }
    }
}

/// A bind recomputed by this pass recorded a choice its chooser admits
/// for the selector value it read; the record can only go stale if the
/// selector itself is recomputed afterwards, and a variable's value never
/// changes within a pass.
#[verifier::spinoff_prover]
proof fn lemma_choice_after_pop<T, F1, F2, FC>(
    g0: &Incrementars<T, F1, F2, FC>,
    g1: &Incrementars<T, F1, F2, FC>,
    trace_pre: Seq<int>,
    trace: Seq<int>,
    id: usize,
    n: int,
) where T: Clone, F1: Fn(u64, &T) -> T, F2: Fn(u64, &T, &T) -> T, FC: Fn(u64, &T) -> bool
    requires
        0 <= (id as int) < n,
        g0.wf(),
        n == g0.n(),
        g1.kinds@.len() == n,
        trace == trace_pre.push(id as int),
        !trace_pre.contains(id as int),
        forall|k: int| 0 <= k < trace_pre.len() ==> 0 <= #[trigger] trace_pre[k] < n,
        forall|j: int|
            0 <= j < n && j != id as int ==> #[trigger] g1.kind_at(j) == g0.kind_at(j),
        forall|j: int| 0 <= j < n && j != id as int ==> #[trigger] g1.val_at(j) == g0.val_at(j),
        g1.kind_at(id as int).same_shape(g0.kind_at(id as int)),
        g0.kind_at(id as int).same_shape(g1.kind_at(id as int)),
        g0.kind_at(id as int) is Var ==> g1.val_at(id as int) == g0.val_at(id as int),
        g1.choose_fn == g0.choose_fn,
        g1.node_ok(id as int),
        forall|k: int|
            #![trigger trace_pre[k]]
            0 <= k < trace_pre.len() && g0.kind_at(trace_pre[k]) is Bind ==> g0.choice_current(
                trace_pre[k],
            ) || (trace_pre.contains(g0.kind_at(trace_pre[k])->Bind_selector as int) && !(
            g0.kind_at(g0.kind_at(trace_pre[k])->Bind_selector as int) is Var)),
    ensures
        forall|k: int|
            #![trigger trace[k]]
            0 <= k < trace.len() && g1.kind_at(trace[k]) is Bind ==> g1.choice_current(trace[k])
                || (trace.contains(g1.kind_at(trace[k])->Bind_selector as int) && !(g1.kind_at(
                g1.kind_at(trace[k])->Bind_selector as int,
            ) is Var)),
{
    assert forall|k: int|
        #![trigger trace[k]]
        0 <= k < trace.len() && g1.kind_at(trace[k]) is Bind implies g1.choice_current(trace[k])
        || (trace.contains(g1.kind_at(trace[k])->Bind_selector as int) && !(g1.kind_at(
        g1.kind_at(trace[k])->Bind_selector as int,
    ) is Var)) by {
        if k == trace.len() - 1 {
            assert(trace[k] == id as int);
        } else {
            let b = trace_pre[k];
            assert(trace[k] == b);
            assert(b != id as int);
            assert(g1.kind_at(b) == g0.kind_at(b));
            assert(g0.kind_at(b) is Bind);
            let sel = g0.kind_at(b)->Bind_selector as int;
            assert(0 <= sel < b) by {
                assert(g0.kind_at(b).refs_below(b));
                assert(g0.kind_at(b).role_count(sel) > 0);
                if sel >= b {
                    lemma_role_below(g0.kind_at(b), b, sel);
                }
            }
            assert(g0.choice_current(b) || (trace_pre.contains(sel) && !(g0.kind_at(sel)
                is Var)));
            if g0.choice_current(b) {
                if sel != id as int {
                    assert(g1.val_at(sel) == g0.val_at(sel));
                    assert(g1.kind_at(sel) == g0.kind_at(sel));
                    assert(g1.choice_current(b));
                } else {
                    if g0.kind_at(id as int) is Var {
                        assert(g1.val_at(sel) == g0.val_at(sel));
                        assert(g1.choice_current(b));
                    } else {
                        assert(trace[trace.len() - 1] == sel);
                        assert(trace.contains(sel));
                        assert(!(g1.kind_at(sel) is Var));
                    }
                }
            } else {
                assert(trace_pre.contains(sel));
                let ks = choose|ks: int| 0 <= ks < trace_pre.len() && trace_pre[ks] == sel;
                assert(trace[ks] == sel);
                assert(sel != id as int);
                assert(g1.kind_at(sel) == g0.kind_at(sel));
            }
        }
    }
}

/// The recorded-choice discipline only looks at kinds, values and the
/// chooser, so it carries to any state agreeing on those.
proof fn lemma_choice_frame<T, F1, F2, FC>(
    g1: &Incrementars<T, F1, F2, FC>,
    gs: &Incrementars<T, F1, F2, FC>,
    trace: Seq<int>,
    n: int,
) where T: Clone, F1: Fn(u64, &T) -> T, F2: Fn(u64, &T, &T) -> T, FC: Fn(u64, &T) -> bool
    requires
        gs.kinds@ == g1.kinds@,
        gs.values@ == g1.values@,
        gs.choose_fn == g1.choose_fn,
        forall|k: int|
            #![trigger trace[k]]
            0 <= k < trace.len() && g1.kind_at(trace[k]) is Bind ==> g1.choice_current(trace[k])
                || (trace.contains(g1.kind_at(trace[k])->Bind_selector as int) && !(g1.kind_at(
                g1.kind_at(trace[k])->Bind_selector as int,
            ) is Var)),
    ensures
        forall|k: int|
            #![trigger trace[k]]
            0 <= k < trace.len() && gs.kind_at(trace[k]) is Bind ==> gs.choice_current(trace[k])
                || (trace.contains(gs.kind_at(trace[k])->Bind_selector as int) && !(gs.kind_at(
                gs.kind_at(trace[k])->Bind_selector as int,
            ) is Var)),
{
    assert forall|k: int|
        #![trigger trace[k]]
        0 <= k < trace.len() && gs.kind_at(trace[k]) is Bind implies gs.choice_current(trace[k])
        || (trace.contains(gs.kind_at(trace[k])->Bind_selector as int) && !(gs.kind_at(
        gs.kind_at(trace[k])->Bind_selector as int,
    ) is Var)) by {
        assert(gs.kind_at(trace[k]) == g1.kind_at(trace[k]));
    }
}

/// One scheduling step preserves the pending-work discipline: after the
/// popped node `id` has been recomputed, every node is either consistent,
/// or still queued, or has a queued parent, or is a not-yet-scheduled
/// child of `id`.
#[verifier::spinoff_prover]
proof fn lemma_expl_after_pop<T, F1, F2, FC>(
    g0: Incrementars<T, F1, F2, FC>,
    g1: Incrementars<T, F1, F2, FC>,
    q_pre: Seq<(i64, usize)>,
    q_now: Seq<(i64, usize)>,
    id: usize,
    n: int,
) where T: Clone, F1: Fn(u64, &T) -> T, F2: Fn(u64, &T, &T) -> T, FC: Fn(u64, &T) -> bool
    requires
        g0.wf(),
        n == g0.n(),
        g1.kinds@.len() == n,
        g1.values@.len() == n,
        0 <= (id as int) < n,
        forall|i: int|
            0 <= i < n ==> #[trigger] g0.node_ok(i) || entry_ids(q_pre).contains(i) || (
            exists|p: int| #[trigger] g0.is_parent(p, i) && entry_ids(q_pre).contains(p)),
        entry_ids(q_now).to_multiset() == entry_ids(q_pre).to_multiset().remove(id as int),
        forall|j: int|
            0 <= j < n && j != id as int ==> #[trigger] g1.kind_at(j) == g0.kind_at(j),
        forall|j: int| 0 <= j < n && j != id as int ==> #[trigger] g1.val_at(j) == g0.val_at(j),
        g1.children@ == g0.children@,
        g1.map_fn == g0.map_fn,
        g1.map2_fn == g0.map2_fn,
        g1.choose_fn == g0.choose_fn,
        g1.node_ok(id as int),
    ensures
        forall|i: int|
            0 <= i < n ==> #[trigger] g1.node_ok(i) || entry_ids(q_now).contains(i) || (
            exists|p: int| #[trigger] g1.is_parent(p, i) && entry_ids(q_now).contains(p)) || (
            g1.is_parent(id as int, i) && exists|k2: int|
                0 <= k2 < g1.child_list(id as int).len() && g1.child_list(id as int)[k2] as int
                    == i),
{
    assert forall|i: int|
        0 <= i < n implies #[trigger] g1.node_ok(i) || entry_ids(q_now).contains(i) || (
    exists|p: int| #[trigger] g1.is_parent(p, i) && entry_ids(q_now).contains(p)) || (
    g1.is_parent(id as int, i) && exists|k2: int|
        0 <= k2 < g1.child_list(id as int).len() && g1.child_list(id as int)[k2] as int == i) by {
        if i == id as int {
            assert(g1.node_ok(i));
        } else {
            assert(g1.kind_at(i) == g0.kind_at(i));
            assert(g0.node_ok(i) || entry_ids(q_pre).contains(i) || (exists|p: int|
                #[trigger] g0.is_parent(p, i) && entry_ids(q_pre).contains(p)));
            if g0.is_parent(id as int, i) {
                assert(g0.child_list(id as int).to_multiset().count(i as usize) == g0.kind_at(
                    i,
                ).role_count(id as int));
                assert(g0.child_list(id as int).to_multiset().count(i as usize) > 0);
                assert(g0.child_list(id as int).contains(i as usize));
                let kc = choose|kc: int|
                    0 <= kc < g0.child_list(id as int).len() && g0.child_list(id as int)[kc]
                        == i as usize;
                assert(g1.child_list(id as int)[kc] as int == i);
                assert(g1.is_parent(id as int, i));
            } else {
                if g0.node_ok(i) {
                    assert forall|p: int|
                        g0.is_parent(p, i) implies #[trigger] g1.val_at(p) == g0.val_at(p) by {
                        assert(p != id as int);
                        assert(0 <= p < n) by {
                            assert(g0.kind_at(i).refs_below(i));
                            if p >= i {
                                lemma_role_below(g0.kind_at(i), i, p);
                            }
                        }
                    }
                    lemma_ok_frame(g0, g1, i);
                } else if entry_ids(q_pre).contains(i) {
                    assert(entry_ids(q_pre).to_multiset().count(i) > 0);
                    assert(entry_ids(q_now).to_multiset().count(i) > 0);
                } else {
                    let p = choose|p: int|
                        #[trigger] g0.is_parent(p, i) && entry_ids(q_pre).contains(p);
                    assert(p != id as int);
                    assert(entry_ids(q_pre).to_multiset().count(p) > 0);
                    assert(entry_ids(q_now).to_multiset().count(p) > 0);
                    assert(g1.is_parent(p, i));
                }
            }
        }
    }
}

/// Scheduling one more child of the popped node preserves the pending-
/// work discipline: the freshly pushed child now answers for itself.
#[verifier::spinoff_prover]
proof fn lemma_expl_after_push<T, F1, F2, FC>(
    g1: Incrementars<T, F1, F2, FC>,
    q_in: Seq<(i64, usize)>,
    q_now: Seq<(i64, usize)>,
    id: usize,
    c: usize,
    j: int,
    kids: int,
    n: int,
) where T: Clone, F1: Fn(u64, &T) -> T, F2: Fn(u64, &T, &T) -> T, FC: Fn(u64, &T) -> bool
    requires
        0 <= (id as int) < n,
        0 <= j < kids,
        kids == g1.child_list(id as int).len(),
        g1.child_list(id as int)[j] == c,
        forall|x: int| entry_ids(q_in).contains(x) ==> #[trigger] entry_ids(q_now).contains(x),
        entry_ids(q_now).contains(c as int),
        forall|i: int|
            0 <= i < n ==> #[trigger] g1.node_ok(i) || entry_ids(q_in).contains(i) || (
            exists|p: int| #[trigger] g1.is_parent(p, i) && entry_ids(q_in).contains(p)) || (
            g1.is_parent(id as int, i) && exists|k2: int|
                j <= k2 < kids && g1.child_list(id as int)[k2] as int == i),
    ensures
        forall|i: int|
            0 <= i < n ==> #[trigger] g1.node_ok(i) || entry_ids(q_now).contains(i) || (
            exists|p: int| #[trigger] g1.is_parent(p, i) && entry_ids(q_now).contains(p)) || (
            g1.is_parent(id as int, i) && exists|k2: int|
                j + 1 <= k2 < kids && g1.child_list(id as int)[k2] as int == i),
{
    assert forall|i: int|
        0 <= i < n implies #[trigger] g1.node_ok(i) || entry_ids(q_now).contains(i) || (
    exists|p: int| #[trigger] g1.is_parent(p, i) && entry_ids(q_now).contains(p)) || (
    g1.is_parent(id as int, i) && exists|k2: int|
        j + 1 <= k2 < kids && g1.child_list(id as int)[k2] as int == i) by {
        if !g1.node_ok(i) {
            if entry_ids(q_in).contains(i) {
                assert(entry_ids(q_now).contains(i));
            } else if exists|p: int|
                #[trigger] g1.is_parent(p, i) && entry_ids(q_in).contains(p) {
                let p = choose|p: int| #[trigger] g1.is_parent(p, i) && entry_ids(q_in).contains(p);
                assert(entry_ids(q_now).contains(p));
            } else if g1.is_parent(id as int, i) && exists|k2: int|
                j <= k2 < kids && g1.child_list(id as int)[k2] as int == i {
                let k2 = choose|k2: int|
                    j <= k2 < kids && g1.child_list(id as int)[k2] as int == i;
                if k2 == j {
                    assert(i == c as int);
                    assert(entry_ids(q_now).contains(c as int));
                }
            }
        }
    }
}

/// The pending-work discipline carries over to a state that differs only
/// in heights, edges and bind wiring of already-recomputed nodes --
/// values and kinds being equal, every node's consistency is unchanged.
#[verifier::spinoff_prover]
proof fn lemma_expl_frame<T, F1, F2, FC>(
    g1: Incrementars<T, F1, F2, FC>,
    gs: Incrementars<T, F1, F2, FC>,
    q: Seq<(i64, usize)>,
    n: int,
) where T: Clone, F1: Fn(u64, &T) -> T, F2: Fn(u64, &T, &T) -> T, FC: Fn(u64, &T) -> bool
    requires
        n == g1.n(),
        gs.kinds@ == g1.kinds@,
        gs.values@ == g1.values@,
        gs.map_fn == g1.map_fn,
        gs.map2_fn == g1.map2_fn,
        gs.choose_fn == g1.choose_fn,
        forall|i: int|
            0 <= i < n ==> #[trigger] g1.node_ok(i) || entry_ids(q).contains(i) || (
            exists|p: int| #[trigger] g1.is_parent(p, i) && entry_ids(q).contains(p)),
    ensures
        forall|i: int|
            0 <= i < n ==> #[trigger] gs.node_ok(i) || entry_ids(q).contains(i) || (
            exists|p: int| #[trigger] gs.is_parent(p, i) && entry_ids(q).contains(p)),
{
    assert forall|i: int|
        0 <= i < n implies #[trigger] gs.node_ok(i) || entry_ids(q).contains(i) || (
    exists|p: int| #[trigger] gs.is_parent(p, i) && entry_ids(q).contains(p)) by {
        assert(g1.node_ok(i) || entry_ids(q).contains(i) || (exists|p: int|
            #[trigger] g1.is_parent(p, i) && entry_ids(q).contains(p)));
        if g1.node_ok(i) {
            assert forall|p: int|
                g1.is_parent(p, i) implies #[trigger] gs.val_at(p) == g1.val_at(p) by {
            }
            lemma_ok_frame(g1, gs, i);
        } else if entry_ids(q).contains(i) {
        } else if exists|p: int| #[trigger] g1.is_parent(p, i) && entry_ids(q).contains(p) {
            let p = choose|p: int| #[trigger] g1.is_parent(p, i) && entry_ids(q).contains(p);
            assert(gs.is_parent(p, i)) by {
                assert(gs.kind_at(i) == g1.kind_at(i));
            }
        } else {
            assert(false);
        }
    }
}

/// If every height drops or stays while node `i` keeps its kind, the
/// smallest height among `i`'s parents drops or stays as well.
proof fn lemma_min_parent_mono<T, F1, F2, FC>(
    a: Incrementars<T, F1, F2, FC>,
    b: Incrementars<T, F1, F2, FC>,
    i: int,
    n: int,
) where T: Clone, F1: Fn(u64, &T) -> T, F2: Fn(u64, &T, &T) -> T, FC: Fn(u64, &T) -> bool
    requires
        0 <= i < n,
        b.kind_at(i) == a.kind_at(i),
        a.kind_at(i).refs_below(n),
        forall|p: int| 0 <= p < n ==> #[trigger] b.height_at(p) <= a.height_at(p),
    ensures
        b.min_parent_height(i) <= a.min_parent_height(i),
{
    match a.kind_at(i) {
        NodeKind::Var => {},
        NodeKind::Map1 { input, .. } => {
            assert(b.height_at(input as int) <= a.height_at(input as int));
        },
        NodeKind::Map2 { left, right, .. } => {
            assert(b.height_at(left as int) <= a.height_at(left as int));
            assert(b.height_at(right as int) <= a.height_at(right as int));
        },
        NodeKind::Bind { selector, first, second, .. } => {
            assert(b.height_at(selector as int) <= a.height_at(selector as int));
            assert(b.height_at(first as int) <= a.height_at(first as int));
            assert(b.height_at(second as int) <= a.height_at(second as int));
        },
    }
}

/// The minimal-adjustment discipline survives a recomputation that
/// changes no height and keeps every node's active parent.
#[verifier::spinoff_prover]
proof fn lemma_min_frame_same_heights<T, F1, F2, FC>(
    o: Incrementars<T, F1, F2, FC>,
    g0: Incrementars<T, F1, F2, FC>,
    g1: Incrementars<T, F1, F2, FC>,
    gs: Incrementars<T, F1, F2, FC>,
    id: int,
    n: int,
) where T: Clone, F1: Fn(u64, &T) -> T, F2: Fn(u64, &T, &T) -> T, FC: Fn(u64, &T) -> bool
    requires
        0 <= id < n,
        gs.heights@ == g1.heights@,
        g1.heights@ == g0.heights@,
        gs.kinds@ == g1.kinds@,
        forall|j: int| 0 <= j < n && j != id ==> #[trigger] g1.kind_at(j) == g0.kind_at(j),
        g1.kind_at(id).same_shape(g0.kind_at(id)),
        g0.kind_at(id).same_shape(g1.kind_at(id)),
        g1.kind_at(id).active() == g0.kind_at(id).active(),
        forall|i: int|
            0 <= i < n ==> #[trigger] g0.height_at(i) == o.height_at(i) || g0.height_at(i)
                >= g0.min_parent_height(i) - 1 || g0.kind_at(i).active() != o.kind_at(i).active(),
        forall|i: int|
            #![trigger g0.height_at(i)]
            0 <= i < n && o.others_active_unchanged(g0, i) ==> g0.height_at(i) == o.height_at(i) || g0.height_at(i) >= g0.min_parent_height(i) - 1,
        n == o.n(),
    ensures
        forall|i: int|
            0 <= i < n ==> #[trigger] gs.height_at(i) == o.height_at(i) || gs.height_at(i)
                >= gs.min_parent_height(i) - 1 || gs.kind_at(i).active() != o.kind_at(i).active(),
        forall|i: int|
            #![trigger gs.height_at(i)]
            0 <= i < n && o.others_active_unchanged(gs, i) ==> gs.height_at(i) == o.height_at(i) || gs.height_at(i) >= gs.min_parent_height(i) - 1,
{
    assert forall|i: int|
        0 <= i < n implies #[trigger] gs.height_at(i) == o.height_at(i) || gs.height_at(i)
        >= gs.min_parent_height(i) - 1 || gs.kind_at(i).active() != o.kind_at(i).active() by {
        assert(gs.kind_at(i) == g1.kind_at(i));
        assert(g0.height_at(i) == o.height_at(i) || g0.height_at(i) >= g0.min_parent_height(i) - 1
            || g0.kind_at(i).active() != o.kind_at(i).active());
        assert(gs.min_parent_height(i) == g0.min_parent_height(i)) by {
            if i == id {
                match g0.kind_at(i) {
                    NodeKind::Var => {},
                    NodeKind::Map1 { .. } => {},
                    NodeKind::Map2 { .. } => {},
                    NodeKind::Bind { .. } => {},
                }
            }
        }
        assert(gs.kind_at(i).active() == g0.kind_at(i).active());
    }
    assert forall|i: int|
        #![trigger gs.height_at(i)]
        0 <= i < n && o.others_active_unchanged(gs, i) implies gs.height_at(i)
        == o.height_at(i) || gs.height_at(i) >= gs.min_parent_height(i) - 1 by {
        assert forall|j: int|
            0 <= j < n && j != i implies (#[trigger] g0.kind_at(j)).active() == o.kind_at(
            j,
        ).active() by {
            assert(gs.kind_at(j).active() == o.kind_at(j).active());
            assert(gs.kind_at(j) == g1.kind_at(j));
            if j == id {
                assert(g1.kind_at(j).active() == g0.kind_at(j).active());
            } else {
                assert(g1.kind_at(j) == g0.kind_at(j));
            }
        }
        assert(o.others_active_unchanged(g0, i));
        assert(g0.height_at(i) == o.height_at(i) || g0.height_at(i) >= g0.min_parent_height(
            i,
        ) - 1);
        assert(gs.kind_at(i) == g1.kind_at(i));
        if i != id {
            assert(g1.kind_at(i) == g0.kind_at(i));
        }
        assert(gs.min_parent_height(i) == g0.min_parent_height(i)) by {
            if i == id {
                match g0.kind_at(i) {
                    NodeKind::Var => {},
                    NodeKind::Map1 { .. } => {},
                    NodeKind::Map2 { .. } => {},
                    NodeKind::Bind { .. } => {},
                }
            }
        }
    }
}

/// The minimal-adjustment discipline survives a bind rewiring followed by
/// depth maintenance: the moved bind answers with its moved candidate,
/// every lowered node sits exactly one below its parents, and everything
/// else kept its height.
#[verifier::spinoff_prover]
proof fn lemma_min_after_rewire<T, F1, F2, FC>(
    o: Incrementars<T, F1, F2, FC>,
    g0: Incrementars<T, F1, F2, FC>,
    g1: Incrementars<T, F1, F2, FC>,
    g3: Incrementars<T, F1, F2, FC>,
    gs: Incrementars<T, F1, F2, FC>,
    id: int,
    n: int,
) where T: Clone, F1: Fn(u64, &T) -> T, F2: Fn(u64, &T, &T) -> T, FC: Fn(u64, &T) -> bool
    requires
        0 <= id < n,
        g0.wf(),
        n == g0.n(),
        g3.heights@ == g0.heights@,
        gs.kinds@ == g1.kinds@,
        g3.kinds@ == g1.kinds@,
        forall|j: int| 0 <= j < n && j != id ==> #[trigger] g1.kind_at(j) == g0.kind_at(j),
        g0.kind_at(id) == o.kind_at(id),
        g1.kind_at(id).active() != g0.kind_at(id).active(),
        forall|p: int| 0 <= p < n ==> #[trigger] gs.height_at(p) <= g3.height_at(p),
        gs.heights@.len() == g3.heights@.len(),
        g3.heights@.len() == n,
        forall|i: int|
            0 <= i < n ==> #[trigger] gs.height_at(i) == g3.height_at(i) || gs.height_at(i)
                >= gs.min_parent_height(i) - 1,
        forall|i: int|
            0 <= i < n ==> #[trigger] g0.height_at(i) == o.height_at(i) || g0.height_at(i)
                >= g0.min_parent_height(i) - 1 || g0.kind_at(i).active() != o.kind_at(i).active(),
    ensures
        forall|i: int|
            0 <= i < n ==> #[trigger] gs.height_at(i) == o.height_at(i) || gs.height_at(i)
                >= gs.min_parent_height(i) - 1 || gs.kind_at(i).active() != o.kind_at(i).active(),
{
    assert forall|i: int|
        0 <= i < n implies #[trigger] gs.height_at(i) == o.height_at(i) || gs.height_at(i)
        >= gs.min_parent_height(i) - 1 || gs.kind_at(i).active() != o.kind_at(i).active() by {
        assert(gs.kind_at(i) == g1.kind_at(i));
        if gs.height_at(i) != g3.height_at(i) {
            assert(gs.height_at(i) >= gs.min_parent_height(i) - 1);
        } else if i == id {
            assert(gs.kind_at(i).active() != o.kind_at(i).active());
        } else {
            assert(gs.kind_at(i) == g0.kind_at(i));
            assert(g0.height_at(i) == o.height_at(i) || g0.height_at(i) >= g0.min_parent_height(
                i,
            ) - 1 || g0.kind_at(i).active() != o.kind_at(i).active());
            if g0.height_at(i) == o.height_at(i) {
                assert(gs.height_at(i) == o.height_at(i));
            } else if g0.kind_at(i).active() != o.kind_at(i).active() {
                assert(gs.kind_at(i).active() != o.kind_at(i).active());
            } else {
                assert(g0.height_at(i) >= g0.min_parent_height(i) - 1);
                assert(gs.kind_at(i).refs_below(n)) by {
                    assert(g0.kind_at(i).refs_below(i));
                }
                assert forall|p: int|
                    0 <= p < n implies #[trigger] gs.height_at(p) <= g0.height_at(p) by {
                }
                lemma_min_parent_mono(g0, gs, i, n);
                assert(gs.height_at(i) == g0.height_at(i));
            }
        }
    }
}

/// At the end of a pass the pending-parent chain has emptied: by
/// induction over ids, every node the staged changes could affect is in
/// the pass trace.
proof fn lemma_affected_in_trace<T, F1, F2, FC>(
    o: &Incrementars<T, F1, F2, FC>,
    trace: Seq<int>,
    n: int,
    i: int,
) where T: Clone, F1: Fn(u64, &T) -> T, F2: Fn(u64, &T, &T) -> T, FC: Fn(u64, &T) -> bool
    requires
        forall|x: int|
            0 <= x < n && #[trigger] o.affected(x) ==> trace.contains(x) || (exists|p: int|
                0 <= p < x && #[trigger] o.is_parent(p, x) && o.affected(p) && !trace.contains(
                    p,
                )),
        0 <= i < n,
        o.affected(i),
    ensures
        trace.contains(i),
    decreases i,
{
    if !trace.contains(i) {
        let p = choose|p: int|
            0 <= p < i && #[trigger] o.is_parent(p, i) && o.affected(p) && !trace.contains(p);
        lemma_affected_in_trace(o, trace, n, p);
    }
}

/// One full iteration preserves the affected-pending discipline: every
/// node the staged changes can reach is recomputed, queued, or waiting on
/// an affected parent that has not fired yet.
#[verifier::spinoff_prover]
proof fn lemma_aff_after_iteration<T, F1, F2, FC>(
    o: &Incrementars<T, F1, F2, FC>,
    g0: &Incrementars<T, F1, F2, FC>,
    g1: &Incrementars<T, F1, F2, FC>,
    trace_pre: Seq<int>,
    trace: Seq<int>,
    q_pre: Seq<(i64, usize)>,
    q_now: Seq<(i64, usize)>,
    id: usize,
    n: int,
) where T: Clone, F1: Fn(u64, &T) -> T, F2: Fn(u64, &T, &T) -> T, FC: Fn(u64, &T) -> bool
    requires
        0 <= (id as int) < n,
        n == g0.n(),
        g0.wf(),
        trace == trace_pre.push(id as int),
        g1.children@ == g0.children@,
        forall|i: int|
            #![trigger g0.val_at(i)]
            #![trigger g0.kind_at(i)]
            #![trigger g0.dirty_at(i)]
            0 <= i < n && !trace_pre.contains(i) ==> g0.val_at(i) == o.val_at(i) && g0.kind_at(i)
                == o.kind_at(i) && g0.dirty_at(i) == o.dirty_at(i),
        forall|i2: int|
            0 <= i2 < n && #[trigger] o.affected(i2) ==> trace_pre.contains(i2) || entry_ids(
                q_pre,
            ).contains(i2) || (exists|p: int|
                0 <= p < i2 && #[trigger] o.is_parent(p, i2) && o.affected(p)
                    && !trace_pre.contains(p)),
        forall|x: int|
            x != id as int ==> #[trigger] entry_ids(q_now).to_multiset().count(x) >= entry_ids(
                q_pre,
            ).to_multiset().count(x),
        forall|k2: int|
            0 <= k2 < g1.child_list(id as int).len() ==> entry_ids(q_now).contains(
                (#[trigger] g1.child_list(id as int)[k2]) as int,
            ) || trace.contains(g1.child_list(id as int)[k2] as int),
    ensures
        forall|i2: int|
            0 <= i2 < n && #[trigger] o.affected(i2) ==> trace.contains(i2) || entry_ids(
                q_now,
            ).contains(i2) || (exists|p: int|
                0 <= p < i2 && #[trigger] o.is_parent(p, i2) && o.affected(p) && !trace.contains(
                    p,
                )),
{
    assert forall|i2: int|
        0 <= i2 < n && #[trigger] o.affected(i2) implies trace.contains(i2) || entry_ids(
        q_now,
    ).contains(i2) || (exists|p: int|
        0 <= p < i2 && #[trigger] o.is_parent(p, i2) && o.affected(p) && !trace.contains(p)) by {
        assert(trace_pre.contains(i2) || entry_ids(q_pre).contains(i2) || (exists|p: int|
            0 <= p < i2 && #[trigger] o.is_parent(p, i2) && o.affected(p) && !trace_pre.contains(
                p,
            )));
        if trace_pre.contains(i2) {
            let kt = choose|kt: int| 0 <= kt < trace_pre.len() && trace_pre[kt] == i2;
            assert(trace[kt] == i2);
        } else if entry_ids(q_pre).contains(i2) {
            if i2 == id as int {
                assert(trace[trace.len() - 1] == i2);
            } else {
                assert(entry_ids(q_pre).to_multiset().count(i2) > 0);
                assert(entry_ids(q_now).to_multiset().count(i2) >= entry_ids(
                    q_pre,
                ).to_multiset().count(i2));
            }
        } else {
            let p = choose|p: int|
                0 <= p < i2 && #[trigger] o.is_parent(p, i2) && o.affected(p)
                    && !trace_pre.contains(p);
            if p == id as int {
                if !trace.contains(i2) {
                    assert(!trace_pre.contains(i2)) by {
                        if trace_pre.contains(i2) {
                            let kt2 = choose|kt2: int|
                                0 <= kt2 < trace_pre.len() && trace_pre[kt2] == i2;
                            assert(trace[kt2] == i2);
                        }
                    }
                    assert(g0.kind_at(i2) == o.kind_at(i2));
                    assert(g0.kind_at(i2).role_count(id as int) > 0);
                    assert(g0.child_list(id as int).to_multiset().count(i2 as usize)
                        == g0.kind_at(i2).role_count(id as int));
                    assert(g0.child_list(id as int).contains(i2 as usize));
                    let kc = choose|kc: int|
                        0 <= kc < g0.child_list(id as int).len() && g0.child_list(id as int)[kc]
                            == i2 as usize;
                    assert(g1.child_list(id as int)[kc] as int == i2);
                    assert(entry_ids(q_now).contains(g1.child_list(id as int)[kc] as int)
                        || trace.contains(g1.child_list(id as int)[kc] as int));
                }
            } else {
                assert(!trace.contains(p)) by {
                    if trace.contains(p) {
                        let kt3 = choose|kt3: int| 0 <= kt3 < trace.len() && trace[kt3] == p;
                        if kt3 < trace_pre.len() {
                            assert(trace_pre[kt3] == p);
                        }
                    }
                }
            }
        }
    }
}

/// Moving the popped node from the queue to the trace and recomputing it
/// preserves the pass's membership bookkeeping: occupancy stays at most
/// one, visited tracks exactly the occupied non-variables, dirty nodes
/// stay queued, queued variables stay dirty, and everything queued or
/// traced is affected.
#[verifier::spinoff_prover]
proof fn lemma_pop_bookkeeping<T, F1, F2, FC>(
    o: &Incrementars<T, F1, F2, FC>,
    g0: &Incrementars<T, F1, F2, FC>,
    g1: &Incrementars<T, F1, F2, FC>,
    trace_pre: Seq<int>,
    trace: Seq<int>,
    q_pre: Seq<(i64, usize)>,
    q_now: Seq<(i64, usize)>,
    vis_pre: Set<int>,
    he: (i64, usize),
    id: usize,
    n: int,
) where T: Clone, F1: Fn(u64, &T) -> T, F2: Fn(u64, &T, &T) -> T, FC: Fn(u64, &T) -> bool
    requires
        0 <= (id as int) < n,
        id == he.1,
        n == g0.n(),
        g0.wf(),
        trace == trace_pre.push(id as int),
        entry_ids(q_now).to_multiset() == entry_ids(q_pre).to_multiset().remove(id as int),
        entry_ids(q_pre).to_multiset().count(id as int) > 0,
        forall|k: int|
            0 <= k < q_now.len() ==> q_pre.to_multiset().count(#[trigger] q_now[k]) > 0,
        forall|x: int|
            #[trigger] trace_pre.to_multiset().count(x) + entry_ids(q_pre).to_multiset().count(x)
                <= 1,
        forall|x: int|
            0 <= x < n && !(g0.kind_at(x) is Var) && #[trigger] (trace_pre.to_multiset().count(x)
                + entry_ids(q_pre).to_multiset().count(x)) > 0 ==> vis_pre.contains(x),
        forall|x: int|
            #[trigger] vis_pre.contains(x) ==> trace_pre.to_multiset().count(x) + entry_ids(
                q_pre,
            ).to_multiset().count(x) > 0,
        forall|i: int|
            0 <= i < n && #[trigger] g0.dirty_at(i) ==> entry_ids(q_pre).contains(i),
        forall|k: int| 0 <= k < q_pre.len() ==> ((#[trigger] q_pre[k]).1 as int) < n,
        forall|k: int|
            0 <= k < q_pre.len() && g0.kind_at(q_pre[k].1 as int) is Var ==> g0.dirty_at(
                (#[trigger] q_pre[k]).1 as int,
            ),
        forall|i: int|
            0 <= i < n && #[trigger] o.dirty_at(i) ==> trace_pre.contains(i) || entry_ids(
                q_pre,
            ).contains(i),
        forall|k: int| 0 <= k < trace_pre.len() ==> o.affected(#[trigger] trace_pre[k]),
        forall|k: int| 0 <= k < q_pre.len() ==> o.affected((#[trigger] q_pre[k]).1 as int),
        o.affected(id as int),
        g1.kinds@.len() == n,
        g1.dirty@ == g0.dirty@.update(id as int, false),
        forall|j: int|
            0 <= j < n && j != id as int ==> #[trigger] g1.kind_at(j) == g0.kind_at(j),
        g1.kind_at(id as int).same_shape(g0.kind_at(id as int)),
        g0.kind_at(id as int).same_shape(g1.kind_at(id as int)),
    ensures
        forall|x: int|
            #[trigger] trace.to_multiset().count(x) + entry_ids(q_now).to_multiset().count(x)
                <= 1,
        forall|x: int|
            0 <= x < n && !(g1.kind_at(x) is Var) && #[trigger] (trace.to_multiset().count(x)
                + entry_ids(q_now).to_multiset().count(x)) > 0 ==> vis_pre.contains(x),
        forall|x: int|
            #[trigger] vis_pre.contains(x) ==> trace.to_multiset().count(x) + entry_ids(
                q_now,
            ).to_multiset().count(x) > 0,
        forall|i: int|
            0 <= i < n && #[trigger] g1.dirty_at(i) ==> entry_ids(q_now).contains(i),
        forall|k: int|
            0 <= k < q_now.len() ==> q_pre.to_multiset().count(#[trigger] q_now[k]) > 0
                && q_now[k].1 as int != id as int,
        forall|k: int|
            0 <= k < q_now.len() && g1.kind_at(q_now[k].1 as int) is Var ==> g1.dirty_at(
                (#[trigger] q_now[k]).1 as int,
            ),
        forall|i: int|
            0 <= i < n && #[trigger] o.dirty_at(i) ==> trace.contains(i) || entry_ids(
                q_now,
            ).contains(i),
        forall|k: int| 0 <= k < trace.len() ==> o.affected(#[trigger] trace[k]),
        forall|k: int| 0 <= k < q_now.len() ==> o.affected((#[trigger] q_now[k]).1 as int),
        forall|x: int|
            x != id as int ==> #[trigger] entry_ids(q_now).to_multiset().count(x) >= entry_ids(
                q_pre,
            ).to_multiset().count(x),
{
    assert(entry_ids(q_now).to_multiset() == entry_ids(q_pre).to_multiset().remove(
        id as int,
    ));
    assert forall|x: int|
        #[trigger] trace.to_multiset().count(x) + entry_ids(
            q_now,
        ).to_multiset().count(x) <= 1 by {
        assert(trace.to_multiset() == trace_pre.to_multiset().insert(id as int));
        assert(trace_pre.to_multiset().count(x) + entry_ids(q_pre).to_multiset().count(
            x,
        ) <= 1);
    }
    assert forall|x: int|
        0 <= x < n && !(g1.kind_at(x) is Var) && #[trigger] (trace.to_multiset().count(
            x,
        ) + entry_ids(q_now).to_multiset().count(x)) > 0 implies vis_pre.contains(
        x,
    ) by {
        if x == id as int {
            if !(g0.kind_at(x) is Var) {
                assert(trace_pre.to_multiset().count(x) + entry_ids(
                    q_pre,
                ).to_multiset().count(x) > 0);
            } else {
                assert(g1.kind_at(x) is Var);
            }
        } else {
            assert(g1.kind_at(x) == g0.kind_at(x));
            assert(trace_pre.to_multiset().count(x) + entry_ids(
                q_pre,
            ).to_multiset().count(x) > 0);
        }
    }
    assert forall|x: int|
        #[trigger] vis_pre.contains(x) implies trace.to_multiset().count(x)
            + entry_ids(q_now).to_multiset().count(x) > 0 by {
        assert(trace_pre.to_multiset().count(x) + entry_ids(q_pre).to_multiset().count(
            x,
        ) > 0);
        if x == id as int {
            assert(trace.to_multiset().count(x) > 0);
        }
    }
    assert forall|i: int|
        0 <= i < n && #[trigger] g1.dirty_at(i) implies entry_ids(q_now).contains(
        i,
    ) by {
        assert(i != id as int);
        assert(g0.dirty_at(i));
        assert(entry_ids(q_pre).contains(i));
        assert(entry_ids(q_pre).to_multiset().count(i) > 0);
        assert(entry_ids(q_now).to_multiset().count(i) > 0);
    }
    assert forall|k: int|
        0 <= k < q_now.len() implies q_pre.to_multiset().count(#[trigger] q_now[k])
            > 0 && q_now[k].1 as int != id as int by {
        assert(q_pre.to_multiset().count(q_now[k]) > 0);
        assert(q_pre.contains(q_now[k]));
        if q_now[k].1 as int == id as int {
            assert(entry_ids(q_now)[k] == id as int);
            assert(entry_ids(q_now).contains(id as int));
            assert(entry_ids(q_now).to_multiset().count(id as int) > 0);
            assert(trace.to_multiset().count(id as int) > 0);
        }
    }
    assert forall|k: int|
        0 <= k < q_now.len() && g1.kind_at(q_now[k].1 as int) is Var
            implies g1.dirty_at((#[trigger] q_now[k]).1 as int) by {
        assert(q_pre.contains(q_now[k]));
        let kk = choose|kk: int| 0 <= kk < q_pre.len() && q_pre[kk] == q_now[k];
        assert((q_pre[kk].1 as int) < n);
        assert(q_now[k].1 as int != id as int);
        assert(g1.kind_at(q_pre[kk].1 as int) == g0.kind_at(q_pre[kk].1 as int));
        assert(g0.kind_at(q_pre[kk].1 as int) is Var);
        assert(g0.dirty_at(q_pre[kk].1 as int));
        assert(g1.dirty_at(q_pre[kk].1 as int));
    }
    assert forall|i: int|
        0 <= i < n && #[trigger] o.dirty_at(i) implies trace.contains(i) || entry_ids(
        q_now,
    ).contains(i) by {
        if i == id as int {
            assert(trace[trace.len() - 1] == i);
        } else if trace_pre.contains(i) {
            let kt = choose|kt: int| 0 <= kt < trace_pre.len() && trace_pre[kt] == i;
            assert(trace[kt] == i);
        } else {
            assert(entry_ids(q_pre).contains(i));
            assert(entry_ids(q_pre).to_multiset().count(i) > 0);
            assert(entry_ids(q_now).to_multiset().count(i) > 0);
        }
    }
    assert forall|k: int|
        0 <= k < trace.len() implies o.affected(#[trigger] trace[k]) by {
        if k == trace.len() - 1 {
            assert(trace[k] == id as int);
            assert(o.affected(id as int));
        } else {
            assert(trace_pre[k] == trace[k]);
        }
    }
    assert forall|k: int|
        0 <= k < q_now.len() implies o.affected(
        (#[trigger] q_now[k]).1 as int,
    ) by {
        let kk = choose|kk: int| 0 <= kk < q_pre.len() && q_pre[kk] == q_now[k];
        assert(o.affected(q_pre[kk].1 as int));
    }
    assert forall|x: int|
        x != id as int implies #[trigger] entry_ids(q_now).to_multiset().count(x) >= entry_ids(
        q_pre,
    ).to_multiset().count(x) by {
    }
}

/// After one iteration the per-node frame facts carry from the state the
/// recomputation produced to the state the iteration ends in, which may
/// additionally have rewired edges and lowered heights: shapes are
/// preserved, variables keep their values, dirty nodes stay queued, and
/// nodes outside the trace are untouched.
#[verifier::spinoff_prover]
proof fn lemma_iteration_frame<T, F1, F2, FC>(
    o: &Incrementars<T, F1, F2, FC>,
    g0: &Incrementars<T, F1, F2, FC>,
    g1: &Incrementars<T, F1, F2, FC>,
    gs: &Incrementars<T, F1, F2, FC>,
    trace_pre: Seq<int>,
    trace: Seq<int>,
    q_now: Seq<(i64, usize)>,
    vis: Set<int>,
    id: usize,
    n: int,
) where T: Clone, F1: Fn(u64, &T) -> T, F2: Fn(u64, &T, &T) -> T, FC: Fn(u64, &T) -> bool
    requires
        0 <= (id as int) < n,
        n == o.n(),
        g1.kinds@.len() == n,
        trace == trace_pre.push(id as int),
        gs.kinds@ == g1.kinds@,
        gs.values@ == g1.values@,
        gs.dirty@ == g1.dirty@,
        g1.dirty@ == g0.dirty@.update(id as int, false),
        g0.dirty@.len() == n,
        forall|i2: int|
            0 <= i2 < n ==> (#[trigger] o.kind_at(i2)).same_shape(g0.kind_at(i2)),
        forall|j: int|
            0 <= j < n && j != id as int ==> #[trigger] g1.kind_at(j) == g0.kind_at(j),
        forall|j: int| 0 <= j < n && j != id as int ==> #[trigger] g1.val_at(j) == g0.val_at(j),
        g1.kind_at(id as int).same_shape(g0.kind_at(id as int)),
        g0.kind_at(id as int).same_shape(g1.kind_at(id as int)),
        g0.kind_at(id as int) is Var ==> g1.val_at(id as int) == g0.val_at(id as int),
        forall|i: int|
            0 <= i < n && o.kind_at(i) is Var ==> #[trigger] g0.val_at(i) == o.val_at(i),
        forall|i: int|
            0 <= i < n && #[trigger] g1.dirty_at(i) ==> entry_ids(q_now).contains(i),
        forall|k: int|
            0 <= k < q_now.len() && g1.kind_at(q_now[k].1 as int) is Var ==> g1.dirty_at(
                (#[trigger] q_now[k]).1 as int,
            ),
        forall|k: int| 0 <= k < q_now.len() ==> ((#[trigger] q_now[k]).1 as int) < n,
        forall|x: int|
            0 <= x < n && !(g1.kind_at(x) is Var) && #[trigger] (trace.to_multiset().count(x)
                + entry_ids(q_now).to_multiset().count(x)) > 0 ==> vis.contains(x),
        forall|x: int|
            #[trigger] trace.to_multiset().count(x) + entry_ids(q_now).to_multiset().count(x)
                <= 1,
        forall|i: int|
            #![trigger g0.val_at(i)]
            #![trigger g0.kind_at(i)]
            #![trigger g0.dirty_at(i)]
            0 <= i < n && !trace_pre.contains(i) ==> g0.val_at(i) == o.val_at(i) && g0.kind_at(i)
                == o.kind_at(i) && g0.dirty_at(i) == o.dirty_at(i),
    ensures
        forall|i2: int|
            0 <= i2 < n ==> (#[trigger] o.kind_at(i2)).same_shape(gs.kind_at(i2)),
        forall|i2: int|
            0 <= i2 < n && o.kind_at(i2) is Var ==> #[trigger] gs.val_at(i2) == o.val_at(i2),
        forall|i2: int|
            0 <= i2 < n && #[trigger] gs.dirty_at(i2) ==> entry_ids(q_now).contains(i2),
        forall|k: int|
            0 <= k < q_now.len() && gs.kind_at(q_now[k].1 as int) is Var ==> gs.dirty_at(
                (#[trigger] q_now[k]).1 as int,
            ),
        forall|x: int|
            0 <= x < n && !(gs.kind_at(x) is Var) && #[trigger] (trace.to_multiset().count(x)
                + entry_ids(q_now).to_multiset().count(x)) > 0 ==> vis.contains(x),
        forall|i2: int|
            #![trigger gs.val_at(i2)]
            #![trigger gs.kind_at(i2)]
            #![trigger gs.dirty_at(i2)]
            0 <= i2 < n && !trace.contains(i2) ==> gs.val_at(i2) == o.val_at(i2) && gs.kind_at(
                i2,
            ) == o.kind_at(i2) && gs.dirty_at(i2) == o.dirty_at(i2),
{
            assert forall|i2: int|
                0 <= i2 < n implies (#[trigger] o.kind_at(i2)).same_shape(
                gs.kind_at(i2),
            ) by {
                assert(gs.kind_at(i2) == g1.kind_at(i2));
                assert(o.kind_at(i2).same_shape(g0.kind_at(i2)));
                if i2 != id as int {
                    assert(g1.kind_at(i2) == g0.kind_at(i2));
                } else {
                    assert(g1.kind_at(i2).same_shape(g0.kind_at(i2)));
                    assert(g0.kind_at(i2).same_shape(g1.kind_at(i2)));
                    match o.kind_at(i2) {
                        NodeKind::Var => {},
                        NodeKind::Map1 { .. } => {},
                        NodeKind::Map2 { .. } => {},
                        NodeKind::Bind { .. } => {},
                    }
                }
            }
            assert forall|i2: int|
                0 <= i2 < n && o.kind_at(i2) is Var implies #[trigger] gs.val_at(i2)
                == o.val_at(i2) by {
                assert(gs.val_at(i2) == g1.val_at(i2));
                assert(o.kind_at(i2).same_shape(g0.kind_at(i2)));
                if i2 == id as int {
                    assert(g0.kind_at(i2) is Var);
                    assert(g1.val_at(i2) == g0.val_at(i2));
                } else {
                    assert(g1.val_at(i2) == g0.val_at(i2));
                }
            }
            assert forall|i2: int|
                0 <= i2 < n && #[trigger] gs.dirty_at(i2) implies entry_ids(
                q_now,
            ).contains(i2) by {
                assert(g1.dirty_at(i2));
            }
            assert forall|k: int|
                0 <= k < q_now.len() && gs.kind_at(q_now[k].1 as int) is Var
                    implies gs.dirty_at((#[trigger] q_now[k]).1 as int) by {
                assert(gs.kind_at(q_now[k].1 as int) == g1.kind_at(q_now[k].1 as int));
                assert(gs.dirty_at(q_now[k].1 as int) == g1.dirty_at(q_now[k].1 as int));
            }
            assert forall|x: int|
                0 <= x < n && !(gs.kind_at(x) is Var) && #[trigger] (trace.to_multiset().count(
                    x,
                ) + entry_ids(q_now).to_multiset().count(x)) > 0 implies vis.contains(
                x,
            ) by {
                assert(gs.kind_at(x) == g1.kind_at(x));
            }
            assert forall|i2: int|
                0 <= i2 < n && !trace.contains(i2) implies #[trigger] gs.val_at(i2)
                    == o.val_at(i2) && gs.kind_at(i2) == o.kind_at(i2) && gs.dirty_at(i2)
                    == o.dirty_at(i2) by {
                assert(trace.to_multiset().count(i2) == trace_pre.to_multiset().count(i2) + (
                if i2 == id as int {
                    1int
                } else {
                    0
                }));
                assert(i2 != id as int) by {
                    if i2 == id as int {
                        assert(trace.to_multiset().count(i2) > 0);
                        assert(trace.contains(i2));
                    }
                }
                assert(!trace_pre.contains(i2)) by {
                    if trace_pre.contains(i2) {
                        assert(trace_pre.to_multiset().count(i2) > 0);
                        assert(trace.contains(i2));
                    }
                }
                assert(gs.val_at(i2) == g1.val_at(i2) && g1.val_at(i2) == g0.val_at(i2));
                assert(gs.kind_at(i2) == g1.kind_at(i2) && g1.kind_at(i2) == g0.kind_at(i2));
                assert(gs.dirty_at(i2) == g1.dirty_at(i2) && g1.dirty_at(i2) == g0.dirty_at(
                    i2,
                ));
            }
}

/// Popping a maximal entry keeps the pass height-ordered: remaining
/// entries stay at or below the new watermark, and the growing trace
/// stays sorted by non-increasing height.
#[verifier::spinoff_prover]
proof fn lemma_order_after_pop<T, F1, F2, FC>(
    g0: &Incrementars<T, F1, F2, FC>,
    g1: &Incrementars<T, F1, F2, FC>,
    trace_pre: Seq<int>,
    trace: Seq<int>,
    q_pre: Seq<(i64, usize)>,
    q_now: Seq<(i64, usize)>,
    he: (i64, usize),
    id: usize,
    last_h_pre: int,
    last_h: int,
) where T: Clone, F1: Fn(u64, &T) -> T, F2: Fn(u64, &T, &T) -> T, FC: Fn(u64, &T) -> bool
    requires
        g1.heights@ == g0.heights@,
        trace == trace_pre.push(id as int),
        id == he.1,
        last_h == he.0 as int,
        last_h <= last_h_pre,
        he.0 as int == g0.height_at(id as int),
        forall|k: int|
            0 <= k < q_now.len() ==> q_pre.to_multiset().count(#[trigger] q_now[k]) > 0,
        forall|k: int| 0 <= k < q_now.len() ==> entry_le(#[trigger] q_now[k], he),
        forall|k: int|
            0 <= k < q_pre.len() ==> (#[trigger] q_pre[k]).0 as int == g0.height_at(
                q_pre[k].1 as int,
            ) && q_pre[k].0 as int <= last_h_pre,
        forall|k: int|
            0 <= k < trace_pre.len() ==> #[trigger] g0.height_at(trace_pre[k]) >= last_h_pre,
        forall|k1: int, k2: int|
            0 <= k1 <= k2 < trace_pre.len() ==> g0.height_at(trace_pre[k1]) >= g0.height_at(
                trace_pre[k2],
            ),
    ensures
        forall|k: int|
            0 <= k < q_now.len() ==> (#[trigger] q_now[k]).0 as int == g1.height_at(
                q_now[k].1 as int,
            ) && q_now[k].0 as int <= last_h,
        forall|k: int| 0 <= k < trace.len() ==> #[trigger] g1.height_at(trace[k]) >= last_h,
        forall|k1: int, k2: int|
            0 <= k1 <= k2 < trace.len() ==> g1.height_at(trace[k1]) >= g1.height_at(trace[k2]),
{
    assert forall|k: int|
        0 <= k < q_now.len() implies (#[trigger] q_now[k]).0 as int == g1.height_at(
        q_now[k].1 as int,
    ) && q_now[k].0 as int <= last_h by {
        assert(q_pre.contains(q_now[k]));
        let kk = choose|kk: int| 0 <= kk < q_pre.len() && q_pre[kk] == q_now[k];
        assert(q_pre[kk].0 as int == g0.height_at(q_pre[kk].1 as int));
        assert(entry_le(q_now[k], he));
    }
    assert forall|k: int|
        0 <= k < trace.len() implies #[trigger] g1.height_at(trace[k]) >= last_h by {
        if k < trace_pre.len() {
            assert(g0.height_at(trace_pre[k]) >= last_h_pre);
        } else {
            assert(trace[k] == id as int);
        }
    }
    assert forall|k1: int, k2: int|
        0 <= k1 <= k2 < trace.len() implies g1.height_at(trace[k1]) >= g1.height_at(
        trace[k2],
    ) by {
        if k2 < trace_pre.len() {
            assert(g0.height_at(trace_pre[k1]) >= g0.height_at(trace_pre[k2]));
        } else if k1 < trace_pre.len() {
            assert(g0.height_at(trace_pre[k1]) >= last_h_pre);
        }
    }
}

/// Scheduling one not-yet-visited child keeps the pass bookkeeping: the
/// child occupies one slot, dirt stays queued, counts only grow, and the
/// child -- read through an edge its unchanged kind still owes -- is
/// itself affected.
#[verifier::spinoff_prover]
proof fn lemma_push_bookkeeping<T, F1, F2, FC>(
    o: &Incrementars<T, F1, F2, FC>,
    g0: &Incrementars<T, F1, F2, FC>,
    g1: &Incrementars<T, F1, F2, FC>,
    trace_pre: Seq<int>,
    trace: Seq<int>,
    q_pre: Seq<(i64, usize)>,
    q_in: Seq<(i64, usize)>,
    q_now: Seq<(i64, usize)>,
    e: (i64, usize),
    id: usize,
    c: usize,
    n: int,
) where T: Clone, F1: Fn(u64, &T) -> T, F2: Fn(u64, &T, &T) -> T, FC: Fn(u64, &T) -> bool
    requires
        0 <= (id as int) < n,
        (c as int) < n,
        g0.wf(),
        n == g0.n(),
        trace == trace_pre.push(id as int),
        q_now == q_in.push(e),
        e.1 == c,
        g0.kind_at(c as int).role_count(id as int) > 0,
        forall|j: int|
            0 <= j < n && j != id as int ==> #[trigger] g1.kind_at(j) == g0.kind_at(j),
        forall|i: int|
            #![trigger g0.val_at(i)]
            #![trigger g0.kind_at(i)]
            #![trigger g0.dirty_at(i)]
            0 <= i < n && !trace_pre.contains(i) ==> g0.val_at(i) == o.val_at(i) && g0.kind_at(i)
                == o.kind_at(i) && g0.dirty_at(i) == o.dirty_at(i),
        trace.to_multiset().count(c as int) + entry_ids(q_in).to_multiset().count(c as int) == 0,
        forall|x: int|
            #[trigger] trace.to_multiset().count(x) + entry_ids(q_in).to_multiset().count(x)
                <= 1,
        forall|i: int|
            0 <= i < n && #[trigger] g1.dirty_at(i) ==> entry_ids(q_in).contains(i),
        forall|k: int| 0 <= k < q_in.len() ==> o.affected((#[trigger] q_in[k]).1 as int),
        o.affected(id as int),
        forall|x: int|
            x != id as int ==> #[trigger] entry_ids(q_in).to_multiset().count(x) >= entry_ids(
                q_pre,
            ).to_multiset().count(x),
    ensures
        forall|x: int|
            #[trigger] trace.to_multiset().count(x) + entry_ids(q_now).to_multiset().count(x)
                <= 1,
        forall|i: int|
            0 <= i < n && #[trigger] g1.dirty_at(i) ==> entry_ids(q_now).contains(i),
        entry_ids(q_now).contains(c as int),
        o.affected(c as int),
        forall|k: int| 0 <= k < q_now.len() ==> o.affected((#[trigger] q_now[k]).1 as int),
        forall|x: int|
            x != id as int ==> #[trigger] entry_ids(q_now).to_multiset().count(x) >= entry_ids(
                q_pre,
            ).to_multiset().count(x),
{
    lemma_entry_ids_push(q_in, e);
    assert(entry_ids(q_now) == entry_ids(q_in).push(c as int));
    assert(trace.to_multiset() == trace_pre.to_multiset().insert(id as int));
    assert(trace_pre.to_multiset().count(c as int) == 0);
    assert(!trace_pre.contains(c as int)) by {
        if trace_pre.contains(c as int) {
            assert(trace_pre.to_multiset().count(c as int) > 0);
        }
    }
    assert(g0.val_at(c as int) == o.val_at(c as int) && g0.kind_at(c as int) == o.kind_at(
        c as int,
    ) && g0.dirty_at(c as int) == o.dirty_at(c as int));
    assert(o.kind_at(c as int).role_count(id as int) > 0);
    assert(o.is_parent(id as int, c as int));
    assert((id as int) < c as int) by {
        assert(o.kind_at(c as int).refs_below(c as int)) by {
            assert(g0.kind_at(c as int).refs_below(c as int));
        }
        if id as int >= c as int {
            lemma_role_below(o.kind_at(c as int), c as int, id as int);
        }
    }
    assert(o.affected(c as int));
    assert forall|k: int|
        0 <= k < q_now.len() implies o.affected((#[trigger] q_now[k]).1 as int) by {
        if k < q_now.len() - 1 {
            assert(q_now[k] == q_in[k]);
        } else {
            assert(entry_ids(q_now)[k] == c as int);
        }
    }
    assert forall|x: int|
        #[trigger] trace.to_multiset().count(x) + entry_ids(q_now).to_multiset().count(x)
        <= 1 by {
        if x != c as int {
            assert(entry_ids(q_now).to_multiset().count(x) == entry_ids(q_in).to_multiset().count(
                x,
            ));
        }
    }
    assert forall|i: int|
        0 <= i < n && #[trigger] g1.dirty_at(i) implies entry_ids(q_now).contains(i) by {
        assert(entry_ids(q_in).contains(i));
        let k9 = choose|k9: int| 0 <= k9 < entry_ids(q_in).len() && entry_ids(q_in)[k9] == i;
        assert(entry_ids(q_now)[k9] == i);
    }
    assert(entry_ids(q_now).contains(c as int)) by {
        assert(entry_ids(q_now)[entry_ids(q_now).len() - 1] == c as int);
    }
    assert forall|x: int|
        x != id as int implies #[trigger] entry_ids(q_now).to_multiset().count(x) >= entry_ids(
        q_pre,
    ).to_multiset().count(x) by {
        assert(entry_ids(q_in).to_multiset().count(x) >= entry_ids(q_pre).to_multiset().count(x));
    }
}

/// `wf_except_heights` only weakens as the excused set grows.
pub(crate) proof fn lemma_wf_except_mono<T, F1, F2, FC>(
    g: Incrementars<T, F1, F2, FC>,
    s1: Set<int>,
    s2: Set<int>,
) where T: Clone, F1: Fn(u64, &T) -> T, F2: Fn(u64, &T, &T) -> T, FC: Fn(u64, &T) -> bool
    requires
        g.wf_except_heights(s1),
        s1.subset_of(s2),
    ensures
        g.wf_except_heights(s2),
{
    assert forall|p: int, c: int|
        0 <= c < g.n() && #[trigger] g.is_parent(p, c) && !s2.contains(c) implies g.height_at(c)
        < g.height_at(p) by {
        assert(!s1.contains(c));
    }
}

/// The parts of well-formedness that do not mention heights carry over
/// unchanged when only the height table is rewritten.
pub(crate) proof fn lemma_non_height_parts<T, F1, F2, FC>(
    pre: Incrementars<T, F1, F2, FC>,
    post: Incrementars<T, F1, F2, FC>,
) where T: Clone, F1: Fn(u64, &T) -> T, F2: Fn(u64, &T, &T) -> T, FC: Fn(u64, &T) -> bool
    requires
        pre.sized_ok(),
        pre.kinds_ok(),
        pre.dirty_ok(),
        pre.edges_ok(),
        pre.fns_total(),
        post.kinds@ == pre.kinds@,
        post.children@ == pre.children@,
        post.dirty@ == pre.dirty@,
        post.values@.len() == pre.values@.len(),
        post.heights@.len() == pre.heights@.len(),
        post.map_fn == pre.map_fn,
        post.map2_fn == pre.map2_fn,
        post.choose_fn == pre.choose_fn,
    ensures
        post.sized_ok(),
        post.kinds_ok(),
        post.dirty_ok(),
        post.edges_ok(),
        post.fns_total(),
{
    assert forall|i: int| 0 <= i < post.n() implies (#[trigger] post.kind_at(i)).refs_below(i) by {
        assert(post.kind_at(i) == pre.kind_at(i));
        assert(pre.kind_at(i).refs_below(i));
    }
    assert forall|i: int|
        0 <= i < post.n() && #[trigger] post.dirty_at(i) implies post.kind_at(i) is Var by {
        assert(pre.dirty_at(i));
        assert(pre.kind_at(i) is Var);
    }
    assert forall|p: int, c: usize|
        0 <= p < post.n() implies #[trigger] post.child_list(p).to_multiset().count(c) == (
    if (c as int) < post.n() {
        post.kind_at(c as int).role_count(p)
    } else {
        0
    }) by {
        assert(post.child_list(p) == pre.child_list(p));
        assert(pre.child_list(p).to_multiset().count(c) == (if (c as int) < pre.n() {
            pre.kind_at(c as int).role_count(p)
        } else {
            0
        }));
        if (c as int) < post.n() {
            assert(post.kind_at(c as int) == pre.kind_at(c as int));
        }
    }
    assert(post.fns_total()) by {
        assert forall|op: u64, x: T| call_requires(post.map_fn, (op, &x)) by {
            assert(call_requires(pre.map_fn, (op, &x)));
        }
        assert forall|op: u64, x: T, y: T| call_requires(post.map2_fn, (op, &x, &y)) by {
            assert(call_requires(pre.map2_fn, (op, &x, &y)));
        }
        assert forall|op: u64, x: T| call_requires(post.choose_fn, (op, &x)) by {
            assert(call_requires(pre.choose_fn, (op, &x)));
        }
    }
}

/// Removing an entry from a queue removes its id at the same position.
proof fn lemma_entry_ids_remove(q: Seq<(i64, usize)>, k: int)
    requires
        0 <= k < q.len(),
    ensures
        entry_ids(q.remove(k)) == entry_ids(q).remove(k),
{
    assert(entry_ids(q.remove(k)) =~= entry_ids(q).remove(k));
}

/// Appending an entry to a queue appends its id.
proof fn lemma_entry_ids_push(q: Seq<(i64, usize)>, e: (i64, usize))
    requires
        true,
    ensures
        entry_ids(q.push(e)) == entry_ids(q).push(e.1 as int),
{
    assert(entry_ids(q.push(e)) =~= entry_ids(q).push(e.1 as int));
}

/// Recomputing one node rewrites its value, clears its dirty bit and, for
/// a bind, re-records its choice; as long as the choice kept the same
/// active candidate, every graph invariant is preserved.
pub(crate) proof fn lemma_wf_recompute<T, F1, F2, FC>(
    pre: Incrementars<T, F1, F2, FC>,
    post: Incrementars<T, F1, F2, FC>,
    i: int,
) where T: Clone, F1: Fn(u64, &T) -> T, F2: Fn(u64, &T, &T) -> T, FC: Fn(u64, &T) -> bool
    requires
        pre.wf(),
        0 <= i < pre.n(),
        post.kinds@.len() == pre.n(),
        post.heights@ == pre.heights@,
        post.children@ == pre.children@,
        post.values@.len() == pre.values@.len(),
        post.dirty@ == pre.dirty@.update(i, false),
        forall|j: int| 0 <= j < pre.n() && j != i ==> #[trigger] post.kind_at(j) == pre.kind_at(j),
        post.kind_at(i).same_shape(pre.kind_at(i)),
        pre.kind_at(i).same_shape(post.kind_at(i)),
        post.kind_at(i).active() == pre.kind_at(i).active(),
        post.map_fn == pre.map_fn,
        post.map2_fn == pre.map2_fn,
        post.choose_fn == pre.choose_fn,
    ensures
        post.wf(),
{
    assert forall|p: int, j: int|
        0 <= j < post.n() implies #[trigger] post.kind_at(j).role_count(p) == pre.kind_at(
        j,
    ).role_count(p) by {
        if j == i {
            match pre.kind_at(i) {
                NodeKind::Var => {},
                NodeKind::Map1 { .. } => {},
                NodeKind::Map2 { .. } => {},
                NodeKind::Bind { .. } => {},
            }
        }
    }
    assert forall|j: int| 0 <= j < post.n() implies (#[trigger] post.kind_at(j)).refs_below(j) by {
        assert(pre.kind_at(j).refs_below(j));
        if j == i {
            match pre.kind_at(i) {
                NodeKind::Var => {},
                NodeKind::Map1 { .. } => {},
                NodeKind::Map2 { .. } => {},
                NodeKind::Bind { .. } => {},
            }
        }
    }
    assert forall|j: int|
        0 <= j < post.n() && #[trigger] post.dirty_at(j) implies post.kind_at(j) is Var by {
        assert(j != i);
        assert(pre.dirty_at(j));
        assert(pre.kind_at(j) is Var);
        if pre.kind_at(j) is Var {
            assert(post.kind_at(j) is Var);
        }
    }
    assert forall|p: int, c: usize|
        0 <= p < post.n() implies #[trigger] post.child_list(p).to_multiset().count(c) == (
    if (c as int) < post.n() {
        post.kind_at(c as int).role_count(p)
    } else {
        0
    }) by {
        assert(post.child_list(p) == pre.child_list(p));
        assert(pre.child_list(p).to_multiset().count(c) == (if (c as int) < pre.n() {
            pre.kind_at(c as int).role_count(p)
        } else {
            0
        }));
    }
    assert forall|j: int|
        0 <= j < post.n() implies H_MAX - j <= #[trigger] post.height_at(j) <= H_MAX by {
        assert(H_MAX - j <= pre.height_at(j) <= H_MAX);
    }
    assert forall|j: int|
        0 <= j < post.n() && post.kind_at(j) is Var implies #[trigger] post.height_at(j)
        == H_MAX by {
        assert(pre.kind_at(j) is Var);
        assert(pre.height_at(j) == H_MAX as int);
    }
    assert forall|p: int, c: int|
        0 <= c < post.n() && #[trigger] post.is_parent(p, c) implies post.height_at(c)
        < post.height_at(p) by {
        assert(post.kind_at(c).role_count(p) == pre.kind_at(c).role_count(p));
        assert(pre.is_parent(p, c));
        assert(pre.height_at(c) < pre.height_at(p));
    }
    assert(post.fns_total()) by {
        assert forall|op: u64, x: T| call_requires(post.map_fn, (op, &x)) by {
            assert(call_requires(pre.map_fn, (op, &x)));
        }
        assert forall|op: u64, x: T, y: T| call_requires(post.map2_fn, (op, &x, &y)) by {
            assert(call_requires(pre.map2_fn, (op, &x, &y)));
        }
        assert forall|op: u64, x: T| call_requires(post.choose_fn, (op, &x)) by {
            assert(call_requires(pre.choose_fn, (op, &x)));
        }
    }
}

/// A node's consistency only depends on its own kind and value, its
/// parents' values, and the interpreters.
pub(crate) proof fn lemma_ok_frame<T, F1, F2, FC>(
    a: Incrementars<T, F1, F2, FC>,
    b: Incrementars<T, F1, F2, FC>,
    i: int,
) where T: Clone, F1: Fn(u64, &T) -> T, F2: Fn(u64, &T, &T) -> T, FC: Fn(u64, &T) -> bool
    requires
        0 <= i < a.n(),
        b.kind_at(i) == a.kind_at(i),
        b.val_at(i) == a.val_at(i),
        forall|p: int| a.is_parent(p, i) ==> #[trigger] b.val_at(p) == a.val_at(p),
        b.map_fn == a.map_fn,
        b.map2_fn == a.map2_fn,
        b.choose_fn == a.choose_fn,
        a.node_ok(i),
    ensures
        b.node_ok(i),
{
    match a.kind_at(i) {
        NodeKind::Var => {},
        NodeKind::Map1 { input, .. } => {
            assert(a.is_parent(input as int, i));
            assert(b.val_at(input as int) == a.val_at(input as int));
        },
        NodeKind::Map2 { left, right, .. } => {
            assert(a.is_parent(left as int, i));
            assert(a.is_parent(right as int, i));
            assert(b.val_at(left as int) == a.val_at(left as int));
            assert(b.val_at(right as int) == a.val_at(right as int));
        },
        NodeKind::Bind { selector, .. } => {
            assert(a.is_parent(selector as int, i));
            assert(a.is_parent(a.kind_at(i).active(), i));
            assert(b.val_at(selector as int) == a.val_at(selector as int));
            assert(b.val_at(a.kind_at(i).active()) == a.val_at(a.kind_at(i).active()));
        },
    }
}

/// Every parent of `x` sits at or above `x`'s minimum parent height.
pub(crate) proof fn lemma_min_parent_le<T, F1, F2, FC>(
    g: Incrementars<T, F1, F2, FC>,
    x: int,
) where T: Clone, F1: Fn(u64, &T) -> T, F2: Fn(u64, &T, &T) -> T, FC: Fn(u64, &T) -> bool
    requires
        0 <= x < g.n(),
    ensures
        forall|p: int| #[trigger] g.is_parent(p, x) ==> g.min_parent_height(x) <= g.height_at(p),
{
    assert forall|p: int| #[trigger] g.is_parent(p, x) implies g.min_parent_height(x)
        <= g.height_at(p) by {
        match g.kind_at(x) {
            NodeKind::Var => {},
            NodeKind::Map1 { input, .. } => {
                assert(p == input as int);
            },
            NodeKind::Map2 { left, right, .. } => {
                assert(p == left as int || p == right as int);
            },
            NodeKind::Bind { selector, .. } => {
                assert(p == selector as int || p == g.kind_at(x).active());
            },
        }
    }
}

/// Well-formedness only looks at the kinds, heights, child lists and
/// dirty bits; an operation that keeps the first three and keeps dirty
/// bits confined to variables preserves it whatever it does to values.
pub(crate) proof fn lemma_wf_same_structure<T, F1, F2, FC>(
    pre: Incrementars<T, F1, F2, FC>,
    post: Incrementars<T, F1, F2, FC>,
) where T: Clone, F1: Fn(u64, &T) -> T, F2: Fn(u64, &T, &T) -> T, FC: Fn(u64, &T) -> bool
    requires
        pre.wf(),
        post.kinds@ == pre.kinds@,
        post.heights@ == pre.heights@,
        post.children@ == pre.children@,
        post.values@.len() == pre.values@.len(),
        post.dirty@.len() == pre.dirty@.len(),
        forall|i: int|
            0 <= i < post.n() && #[trigger] post.dirty_at(i) ==> post.kind_at(i) is Var,
        post.map_fn == pre.map_fn,
        post.map2_fn == pre.map2_fn,
        post.choose_fn == pre.choose_fn,
    ensures
        post.wf(),
{
    let n = pre.n();
    assert forall|i: int| 0 <= i < post.n() implies (#[trigger] post.kind_at(i)).refs_below(i) by {
        assert(post.kind_at(i) == pre.kind_at(i));
        assert(pre.kind_at(i).refs_below(i));
    }
    assert forall|i: int|
        0 <= i < post.n() implies H_MAX - i <= #[trigger] post.height_at(i) <= H_MAX by {
        assert(H_MAX - i <= pre.height_at(i) <= H_MAX);
    }
    assert forall|i: int|
        0 <= i < post.n() && post.kind_at(i) is Var implies #[trigger] post.height_at(i)
        == H_MAX by {
        assert(pre.kind_at(i) is Var);
        assert(pre.height_at(i) == H_MAX as int);
    }
    assert forall|p: int, c: int|
        0 <= c < post.n() && #[trigger] post.is_parent(p, c) implies post.height_at(c)
        < post.height_at(p) by {
        assert(pre.is_parent(p, c));
        assert(pre.height_at(c) < pre.height_at(p));
    }
    assert forall|p: int, c: usize|
        0 <= p < post.n() implies #[trigger] post.child_list(p).to_multiset().count(c) == (
    if (c as int) < post.n() {
        post.kind_at(c as int).role_count(p)
    } else {
        0
    }) by {
        assert(post.child_list(p) == pre.child_list(p));
        assert(pre.child_list(p).to_multiset().count(c) == (if (c as int) < pre.n() {
            pre.kind_at(c as int).role_count(p)
        } else {
            0
        }));
        if (c as int) < post.n() {
            assert(post.kind_at(c as int) == pre.kind_at(c as int));
        }
    }
    assert(post.fns_total()) by {
        assert forall|op: u64, x: T| call_requires(post.map_fn, (op, &x)) by {
            assert(call_requires(pre.map_fn, (op, &x)));
        }
        assert forall|op: u64, x: T, y: T| call_requires(post.map2_fn, (op, &x, &y)) by {
            assert(call_requires(pre.map2_fn, (op, &x, &y)));
        }
        assert forall|op: u64, x: T| call_requires(post.choose_fn, (op, &x)) by {
            assert(call_requires(pre.choose_fn, (op, &x)));
        }
    }
}

/// A node whose references all lie below `i` has no parent at or above
/// `i`.
pub(crate) proof fn lemma_role_below(k: NodeKind, i: int, p: int)
    requires
        k.refs_below(i),
        p >= i,
    ensures
        k.role_count(p) == 0,
{
}

/// Appending one node, together with exactly the reverse edges its parent
/// roles call for and an empty child list of its own, preserves every
/// graph invariant; if the new node starts consistent, it also preserves
/// the staleness discipline.
pub(crate) proof fn lemma_add_node<T, F1, F2, FC>(
    pre: Incrementars<T, F1, F2, FC>,
    post: Incrementars<T, F1, F2, FC>,
    k: NodeKind,
) where T: Clone, F1: Fn(u64, &T) -> T, F2: Fn(u64, &T, &T) -> T, FC: Fn(u64, &T) -> bool
    requires
        pre.wf(),
        pre.n() < MAX_NODES as int,
        k.refs_below(pre.n()),
        post.map_fn == pre.map_fn,
        post.map2_fn == pre.map2_fn,
        post.choose_fn == pre.choose_fn,
        post.kinds@ == pre.kinds@.push(k),
        post.values@.len() == pre.n() + 1,
        forall|i: int| 0 <= i < pre.n() ==> #[trigger] post.val_at(i) == pre.val_at(i),
        post.heights@.len() == pre.n() + 1,
        forall|i: int| 0 <= i < pre.n() ==> #[trigger] post.height_at(i) == pre.height_at(i),
        k is Var ==> post.height_at(pre.n()) == H_MAX as int,
        !(k is Var) ==> post.height_at(pre.n()) == post.min_parent_height(pre.n()) - 1,
        post.dirty@.len() == pre.n() + 1,
        forall|i: int| 0 <= i < pre.n() ==> #[trigger] post.dirty_at(i) == pre.dirty_at(i),
        post.dirty_at(pre.n()) == false,
        post.children@.len() == pre.n() + 1,
        post.child_list(pre.n()) == Seq::<usize>::empty(),
        forall|p: int, c: usize|
            0 <= p < pre.n() ==> #[trigger] post.child_list(p).to_multiset().count(c)
                == pre.child_list(p).to_multiset().count(c) + (if c as int == pre.n() {
                k.role_count(p)
            } else {
                0
            }),
        post.node_ok(pre.n()),
    ensures
        post.wf(),
        pre.explained() ==> post.explained(),
{
    let n = pre.n();
    assert forall|i: int| 0 <= i < post.n() implies (#[trigger] post.kind_at(i)).refs_below(i) by {
        if i < n {
            assert(post.kind_at(i) == pre.kind_at(i));
            assert(pre.kind_at(i).refs_below(i));
        }
    }
    assert forall|i: int|
        0 <= i < post.n() && #[trigger] post.dirty_at(i) implies post.kind_at(i) is Var by {
        if i < n {
            assert(pre.dirty_at(i));
            assert(pre.kind_at(i) is Var);
        }
    }
    assert forall|i: int|
        0 <= i < post.n() implies H_MAX - i <= #[trigger] post.height_at(i) <= H_MAX by {
        if i < n {
            assert(pre.height_at(i) == post.height_at(i));
            assert(H_MAX - i <= pre.height_at(i) <= H_MAX);
        } else {
            match k {
                NodeKind::Var => {},
                NodeKind::Map1 { input, .. } => {
                    assert(H_MAX - input <= pre.height_at(input as int) <= H_MAX);
                },
                NodeKind::Map2 { left, right, .. } => {
                    assert(H_MAX - left <= pre.height_at(left as int) <= H_MAX);
                    assert(H_MAX - right <= pre.height_at(right as int) <= H_MAX);
                },
                NodeKind::Bind { selector, first, second, .. } => {
                    assert(H_MAX - selector <= pre.height_at(selector as int) <= H_MAX);
                    assert(H_MAX - first <= pre.height_at(first as int) <= H_MAX);
                    assert(H_MAX - second <= pre.height_at(second as int) <= H_MAX);
                },
            }
        }
    }
    assert forall|i: int|
        0 <= i < post.n() && post.kind_at(i) is Var implies #[trigger] post.height_at(i)
        == H_MAX by {
        if i < n {
            assert(pre.kind_at(i) is Var);
            assert(pre.height_at(i) == H_MAX as int);
        }
    }
    assert forall|p: int, c: int|
        0 <= c < post.n() && #[trigger] post.is_parent(p, c) implies post.height_at(c)
        < post.height_at(p) by {
        if c < n {
            assert(pre.is_parent(p, c));
            assert(0 <= p < n) by {
                if p >= c {
                    lemma_role_below(pre.kind_at(c), c, p);
                }
            }
            assert(pre.height_at(c) < pre.height_at(p));
        } else {
            assert(0 <= p < n) by {
                if p >= n {
                    lemma_role_below(k, n, p);
                }
            }
        }
    }
    assert forall|p: int, c: usize|
        0 <= p < post.n() implies #[trigger] post.child_list(p).to_multiset().count(c) == (
    if (c as int) < post.n() {
        post.kind_at(c as int).role_count(p)
    } else {
        0
    }) by {
        if p < n {
            if (c as int) < n {
                assert(post.kind_at(c as int) == pre.kind_at(c as int));
                assert(pre.child_list(p).to_multiset().count(c) == pre.kind_at(
                    c as int,
                ).role_count(p));
            } else if (c as int) == n {
                assert(pre.child_list(p).to_multiset().count(c) == 0);
            } else {
                assert(pre.child_list(p).to_multiset().count(c) == 0);
                lemma_role_below(k, n, c as int);
            }
        } else {
            assert(post.child_list(p).to_multiset() =~= Multiset::empty());
            if (c as int) < n {
                lemma_role_below(post.kind_at(c as int), c as int, p);
            } else if (c as int) == n {
                lemma_role_below(k, n, p);
            }
        }
    }
    assert(post.fns_total()) by {
        assert forall|op: u64, x: T| call_requires(post.map_fn, (op, &x)) by {
            assert(call_requires(pre.map_fn, (op, &x)));
        }
        assert forall|op: u64, x: T, y: T| call_requires(post.map2_fn, (op, &x, &y)) by {
            assert(call_requires(pre.map2_fn, (op, &x, &y)));
        }
        assert forall|op: u64, x: T| call_requires(post.choose_fn, (op, &x)) by {
            assert(call_requires(pre.choose_fn, (op, &x)));
        }
    }
    if pre.explained() {
        assert forall|i: int|
            0 <= i < post.n() implies (#[trigger] post.node_ok(i) || exists|p: int|
            #[trigger] post.is_parent(p, i) && post.dirty_at(p)) by {
            if i < n {
                assert(pre.node_ok(i) || exists|p: int|
                    #[trigger] pre.is_parent(p, i) && pre.dirty_at(p));
                if pre.node_ok(i) {
                    assert(pre.kind_at(i).refs_below(i));
                    assert(post.node_ok(i));
                } else {
                    let p = choose|p: int| #[trigger] pre.is_parent(p, i) && pre.dirty_at(p);
                    assert(0 <= p < n) by {
                        if p >= i {
                            lemma_role_below(pre.kind_at(i), i, p);
                        }
                    }
                    assert(post.is_parent(p, i) && post.dirty_at(p));
                }
            }
        }
    }
}

/// A sequence whose entries are pairwise distinct has multiset counts of
/// at most one.
proof fn lemma_count_le_one_of_strictly_sorted(s: Seq<int>)
    requires
        forall|k1: int, k2: int| 0 <= k1 < k2 < s.len() ==> s[k1] != s[k2],
    ensures
        forall|x: int| #[trigger] s.to_multiset().count(x) <= 1,
{
    assert forall|x: int| #[trigger] s.to_multiset().count(x) <= 1 by {
        lemma_count_le_one_pointwise(s, x);
    }
}

/// With pairwise-distinct entries, any one value occurs at most once.
proof fn lemma_count_le_one_pointwise(s: Seq<int>, x: int)
    requires
        forall|k1: int, k2: int| 0 <= k1 < k2 < s.len() ==> s[k1] != s[k2],
    ensures
        s.to_multiset().count(x) <= 1,
    decreases s.len(),
{
    if s.len() > 0 {
        assert(s =~= s.drop_last().push(s.last()));
        lemma_count_le_one_pointwise(s.drop_last(), x);
        if x == s.last() {
            assert(!s.drop_last().contains(x));
            assert(s.drop_last().to_multiset().count(x) == 0) by {
                if s.drop_last().to_multiset().count(x) > 0 {
                    assert(s.drop_last().contains(x));
                }
            }
        }
    }
}

/// Multiset counts of at most one mean the sequence has no duplicates.
proof fn lemma_count_le_one_no_dup(s: Seq<int>)
    requires
        forall|x: int| #[trigger] s.to_multiset().count(x) <= 1,
    ensures
        s.no_duplicates(),
{
    assert forall|k1: int, k2: int|
        0 <= k1 < s.len() && 0 <= k2 < s.len() && k1 != k2 implies s[k1] != s[k2] by {
        if s[k1] == s[k2] {
            let lo = if k1 < k2 {
                k1
            } else {
                k2
            };
            let hi = if k1 < k2 {
                k2
            } else {
                k1
            };
            assert(s.remove(lo).to_multiset() == s.to_multiset().remove(s[lo]));
            assert(s.remove(lo)[hi - 1] == s[hi]);
            assert(s.remove(lo).contains(s[hi]));
            assert(s.remove(lo).to_multiset().count(s[hi]) > 0);
            assert(s.to_multiset().count(s[lo]) >= 2);
        }
    }
}

/// After a bind's recompute moved its active candidate from `f0` to
/// `t0`, removing one `f0 -> b` edge and adding one `t0 -> b` edge
/// restores every invariant except that `b`'s height may now sit at or
/// below its new parent's.
pub(crate) proof fn lemma_bind_switch_edges<T, F1, F2, FC>(
    g0: Incrementars<T, F1, F2, FC>,
    g2: Incrementars<T, F1, F2, FC>,
    g3: Incrementars<T, F1, F2, FC>,
    b: int,
    f0: int,
    t0: int,
) where T: Clone, F1: Fn(u64, &T) -> T, F2: Fn(u64, &T, &T) -> T, FC: Fn(u64, &T) -> bool
    requires
        g0.wf(),
        0 <= b < g0.n(),
        g0.kind_at(b) is Bind,
        g2.kind_at(b) is Bind,
        g2.kind_at(b).same_shape(g0.kind_at(b)),
        g0.kind_at(b).same_shape(g2.kind_at(b)),
        f0 == g0.kind_at(b).active(),
        t0 == g2.kind_at(b).active(),
        f0 != t0,
        0 <= f0 < g0.n(),
        0 <= t0 < g0.n(),
        g2.kinds@.len() == g0.n(),
        forall|j: int| 0 <= j < g0.n() && j != b ==> #[trigger] g2.kind_at(j) == g0.kind_at(j),
        g2.heights@ == g0.heights@,
        g2.children@ == g0.children@,
        g2.values@.len() == g0.values@.len(),
        g2.dirty@ == g0.dirty@.update(b, false),
        g2.map_fn == g0.map_fn,
        g2.map2_fn == g0.map2_fn,
        g2.choose_fn == g0.choose_fn,
        g3.kinds@ == g2.kinds@,
        g3.heights@ == g2.heights@,
        g3.values@ == g2.values@,
        g3.dirty@ == g2.dirty@,
        g3.map_fn == g2.map_fn,
        g3.map2_fn == g2.map2_fn,
        g3.choose_fn == g2.choose_fn,
        g3.children@.len() == g2.children@.len(),
        forall|i: int|
            0 <= i < g2.children@.len() && i != f0 && i != t0 ==> #[trigger] g3.child_list(i)
                == g2.child_list(i),
        f0 != t0 ==> g3.child_list(f0).to_multiset() == g2.child_list(f0).to_multiset().remove(
            b as usize,
        ),
        f0 != t0 ==> g3.child_list(t0) == g2.child_list(t0).push(b as usize),
    ensures
        g3.wf_except_heights(Set::<int>::empty().insert(b)),
{
    let n = g0.n();
    assert forall|j: int|
        0 <= j < n && j != b implies #[trigger] g3.kind_at(j) == g0.kind_at(j) by {
        assert(g3.kind_at(j) == g2.kind_at(j));
        assert(g2.kind_at(j) == g0.kind_at(j));
    }
    assert(g3.kind_at(b) == g2.kind_at(b));
    assert(g3.kind_at(b)->Bind_selector == g0.kind_at(b)->Bind_selector);
    assert(g3.kind_at(b)->Bind_first == g0.kind_at(b)->Bind_first);
    assert(g3.kind_at(b)->Bind_second == g0.kind_at(b)->Bind_second);
    assert forall|j: int| 0 <= j < n implies (#[trigger] g3.kind_at(j)).refs_below(j) by {
        assert(g0.kind_at(j).refs_below(j));
    }
    assert forall|j: int|
        0 <= j < n && #[trigger] g3.dirty_at(j) implies g3.kind_at(j) is Var by {
        assert(j != b) by {
            if j == b {
                assert(g3.dirty@[b] == false);
            }
        }
        assert(g0.dirty_at(j));
        assert(g0.kind_at(j) is Var);
    }
    assert forall|p: int, c: usize|
        0 <= p < n implies #[trigger] g3.child_list(p).to_multiset().count(c) == (if (c as int)
        < n {
        g3.kind_at(c as int).role_count(p)
    } else {
        0
    }) by {
        assert(g0.child_list(p).to_multiset().count(c) == (if (c as int) < n {
            g0.kind_at(c as int).role_count(p)
        } else {
            0
        }));
        let sel = g0.kind_at(b)->Bind_selector;
        if p == f0 {
            if c == b as usize {
                assert(g3.child_list(p).to_multiset().count(c) == g0.child_list(
                    p,
                ).to_multiset().count(c) - 1);
                assert(g3.kind_at(b).role_count(f0) == g0.kind_at(b).role_count(f0) - 1);
            } else {
                assert(g3.child_list(p).to_multiset().count(c) == g0.child_list(
                    p,
                ).to_multiset().count(c));
            }
        } else if p == t0 {
            if c == b as usize {
                assert(g3.child_list(p).to_multiset() == g2.child_list(p).to_multiset().insert(
                    b as usize,
                ));
                assert(g3.kind_at(b).role_count(t0) == g0.kind_at(b).role_count(t0) + 1);
            } else {
                assert(g3.child_list(p).to_multiset() == g2.child_list(p).to_multiset().insert(
                    b as usize,
                ));
            }
        } else {
            assert(g3.child_list(p) == g0.child_list(p));
            if (c as int) < n && c as int != b {
                assert(g3.kind_at(c as int).role_count(p) == g0.kind_at(c as int).role_count(p));
            }
            if c == b as usize {
                assert(g3.kind_at(b).role_count(p) == g0.kind_at(b).role_count(p));
            }
        }
    }
    assert forall|j: int|
        0 <= j < n implies H_MAX - j <= #[trigger] g3.height_at(j) <= H_MAX by {
        assert(H_MAX - j <= g0.height_at(j) <= H_MAX);
    }
    assert forall|j: int|
        0 <= j < n && g3.kind_at(j) is Var implies #[trigger] g3.height_at(j) == H_MAX by {
        assert(j != b);
        assert(g0.kind_at(j) is Var);
        assert(g0.height_at(j) == H_MAX as int);
    }
    assert forall|p: int, c: int|
        0 <= c < n && #[trigger] g3.is_parent(p, c) && !Set::<int>::empty().insert(b).contains(
            c,
        ) implies g3.height_at(c) < g3.height_at(p) by {
        assert(c != b);
        assert(g3.kind_at(c) == g0.kind_at(c));
        assert(g0.is_parent(p, c));
        assert(g0.height_at(c) < g0.height_at(p));
    }
    assert(g3.fns_total()) by {
        assert forall|op: u64, x: T| call_requires(g3.map_fn, (op, &x)) by {
            assert(call_requires(g0.map_fn, (op, &x)));
        }
        assert forall|op: u64, x: T, y: T| call_requires(g3.map2_fn, (op, &x, &y)) by {
            assert(call_requires(g0.map2_fn, (op, &x, &y)));
        }
        assert forall|op: u64, x: T| call_requires(g3.choose_fn, (op, &x)) by {
            assert(call_requires(g0.choose_fn, (op, &x)));
        }
    }
}

} // verus!
