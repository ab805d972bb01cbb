//! An incremental computation engine: computations are described as a
//! directed acyclic graph of typed nodes, and when input values change,
//! only the nodes whose results can actually differ are recomputed.
//!
//! The crate root offers a minimal single-node layer: free-standing
//! variable and map nodes that own their inputs, recomputed one node at a
//! time. The full engine -- an arena of nodes with a scheduler that
//! recomputes every affected node at most once, in dependency order --
//! lives under [`node`].

use vstd::prelude::*;

pub mod examples;
pub mod node;

verus! {

/// Upper bound on the pseudo-height of any node: the height assigned to
/// every variable node. Each dependent node sits strictly below all of
/// its parents, so this also bounds the depth of any graph.
pub const H_MAX: i64 = 1000;

/// The shared contract of a free-standing node: a current value, a
/// pseudo-height, and a recomputation step that refreshes the value from
/// the node's own inputs.
pub trait Node<O>: Sized {
    /// The node's current value.
    spec fn val(&self) -> O;

    /// The node's internal invariant.
    spec fn wf(&self) -> bool;

    /// How one recomputation step relates the node's state before and
    /// after: the value is refreshed from the node's current inputs, and
    /// everything else stays.
    spec fn recomputed(pre: Self, post: Self) -> bool;

    /// Read the current value without recomputing; between a change and
    /// the next `stablize` this is the stale value.
    fn observe(&self) -> (r: &O)
        ensures
            *r == self.val(),
    ;

    /// Recompute this node's value from its inputs' current values.
    fn stablize(&mut self)
        requires
            old(self).wf(),
        ensures
            final(self).wf(),
            Self::recomputed(*old(self), *final(self)),
    ;

    /// The node's pseudo-height, as the contracts speak of it.
    spec fn height_spec(&self) -> int;

    /// The node's pseudo-height: strictly above every dependent's.
    fn height(&self) -> (r: i64)
        ensures
            r as int == self.height_spec(),
    ;
}

/// A leaf node holding a value set from outside.
pub struct Var<O> {
    /// The value `set` last wrote.
    pub value: O,
    /// Whether a change has been staged and not yet propagated.
    pub dirty: bool,
}

/// Create a variable node holding `value`, starting clean.
pub fn var<O>(value: O) -> (r: Var<O>)
    ensures
        r.value == value,
        !r.dirty,
{
    Var { value, dirty: false }
}

impl<O> Node<O> for Var<O> {
    open spec fn val(&self) -> O {
        self.value
    }

    open spec fn wf(&self) -> bool {
        true
    }

    open spec fn recomputed(pre: Self, post: Self) -> bool {
        post.value == pre.value && !post.dirty
    }

    open spec fn height_spec(&self) -> int {
        H_MAX as int
    }

    fn observe(&self) -> &O {
        &self.value
    }

    fn stablize(&mut self) {
        self.dirty = false;
    }

    fn height(&self) -> i64 {
        H_MAX
    }
}

impl<O> Var<O> {
    /// Stage a new value and mark the variable dirty.
    pub fn set(&mut self, new: O)
        ensures
            final(self).value == new,
            final(self).dirty,
    {
        self.value = new;
        self.dirty = true;
    }
}

/// A node computing `fun` of one input node, owning that input.
pub struct Map1<I, O, N, F> {
    /// The pure function recomputation applies to the input's value.
    pub fun: F,
    /// This node's pseudo-height: one below the input's.
    pub height: i64,
    /// The value computed by the last recomputation.
    pub value: O,
    /// The node this one reads from.
    pub input: N,
    /// Marker tying the node to its input's value type.
    pub marker: core::marker::PhantomData<I>,
}

/// Create a map node over `input`, eagerly computing its initial value,
/// with a height exactly one below the input's. The function must accept
/// every value the input can take, and the input must sit above the
/// lowest representable height so the subtraction cannot wrap.
pub fn map1<I, O, N: Node<I>, F: Fn(&I) -> O>(input: N, fun: F) -> (r: Map1<I, O, N, F>)
    requires
        input.wf(),
        input.height_spec() > i64::MIN as int,
        forall|x: I| call_requires(fun, (&x,)),
    ensures
        r.wf(),
        r.input == input,
        r.fun == fun,
        call_ensures(fun, (&input.val(),), r.val()),
        r.height_spec() == input.height_spec() - 1,
{
    let value = fun(input.observe());
    let h = input.height();
    let height: i64 = h - 1;
    Map1 { fun, height, value, input, marker: core::marker::PhantomData }
}

impl<I, O, N: Node<I>, F: Fn(&I) -> O> Node<O> for Map1<I, O, N, F> {
    open spec fn val(&self) -> O {
        self.value
    }

    open spec fn wf(&self) -> bool {
        &&& self.input.wf()
        &&& forall|x: I| call_requires(self.fun, (&x,))
    }

    open spec fn recomputed(pre: Self, post: Self) -> bool {
        &&& post.input == pre.input
        &&& post.fun == pre.fun
        &&& post.height == pre.height
        &&& call_ensures(pre.fun, (&pre.input.val(),), post.value)
    }

    open spec fn height_spec(&self) -> int {
        self.height as int
    }

    fn observe(&self) -> &O {
        &self.value
    }

    fn stablize(&mut self) {
        self.value = (self.fun)(self.input.observe());
    }

    fn height(&self) -> i64 {
        self.height
    }
}

/// Just peek at the value, not enforcing stabilization.
pub fn peek<O: Copy, N: Node<O>>(node: &N) -> (r: O)
    ensures
        r == node.val(),
{
    *node.observe()
}

/// Recompute `node`'s value from its inputs' current values.
pub fn stablize<O, N: Node<O>>(node: &mut N)
    requires
        old(node).wf(),
    ensures
        final(node).wf(),
        N::recomputed(*old(node), *final(node)),
{
    node.stablize();
}

} // verus!
