//! A thin front end over the engine that tracks the next id to assign.

use vstd::prelude::*;

use crate::node::bind2::Bind2;
use crate::node::map::Map1;
use crate::node::map2::Map2;
use crate::node::traits::Observable;
use crate::node::var::Var;
use crate::node::{Incrementars, NodeKind, MAX_NODES};

verus! {

/// High level construct to manage nodes and their dependency
/// relationships: the same engine as `Incrementars`, with an explicit
/// counter for the next id to assign.
#[verifier::reject_recursive_types(T)]
#[verifier::reject_recursive_types(F1)]
#[verifier::reject_recursive_types(F2)]
#[verifier::reject_recursive_types(FC)]
pub struct Graph<T, F1, F2, FC> where
    T: Clone,
    F1: Fn(u64, &T) -> T,
    F2: Fn(u64, &T, &T) -> T,
    FC: Fn(u64, &T) -> bool,
 {
    /// The underlying node arena and scheduler.
    pub inner: Incrementars<T, F1, F2, FC>,
    /// The id the next constructed node will get.
    pub id_counter: u64,
}

impl<T, F1, F2, FC> Graph<T, F1, F2, FC> where
    T: Clone,
    F1: Fn(u64, &T) -> T,
    F2: Fn(u64, &T, &T) -> T,
    FC: Fn(u64, &T) -> bool,
 {
    /// The graph is well-formed and the counter names the next free id.
    pub open spec fn wf(&self) -> bool {
        &&& self.inner.wf()
        &&& self.id_counter as int == self.inner.n()
    }

    /// Create a new graph over the given interpreters; see
    /// `Incrementars::new`.
    pub fn new(map_fn: F1, map2_fn: F2, choose_fn: FC) -> (r: Self)
        requires
            forall|op: u64, x: T| call_requires(map_fn, (op, &x)),
            forall|op: u64, x: T, y: T| call_requires(map2_fn, (op, &x, &y)),
            forall|op: u64, x: T| call_requires(choose_fn, (op, &x)),
        ensures
            r.wf(),
            r.inner.n() == 0,
            r.inner.map_fn == map_fn,
            r.inner.map2_fn == map2_fn,
            r.inner.choose_fn == choose_fn,
            r.inner.explained(),
    {
        Graph { inner: Incrementars::new(map_fn, map2_fn, choose_fn), id_counter: 0 }
    }

    /// Create a variable node holding `value`.
    pub fn var(&mut self, value: T) -> (h: Var)
        requires
            old(self).wf(),
            old(self).inner.n() < MAX_NODES as int,
        ensures
            final(self).wf(),
            h.node_id() == old(self).inner.n(),
            final(self).inner.n() == old(self).inner.n() + 1,
            final(self).inner.kinds@ == old(self).inner.kinds@.push(NodeKind::Var),
            final(self).inner.values@ == old(self).inner.values@.push(value),
            final(self).inner.map_fn == old(self).inner.map_fn,
            final(self).inner.map2_fn == old(self).inner.map2_fn,
            final(self).inner.choose_fn == old(self).inner.choose_fn,
            old(self).inner.explained() ==> final(self).inner.explained(),
    {
        let h = self.inner.var(value);
        self.id_counter = self.id_counter + 1;
        h
    }

    /// Create a unary map node over `n`; see `Incrementars::map`.
    pub fn map<H: Observable>(&mut self, n: &H, op: u64) -> (h: Map1)
        requires
            old(self).wf(),
            0 <= n.node_id() < old(self).inner.n(),
            old(self).inner.height_at(n.node_id()) >= 1,
            old(self).inner.n() < MAX_NODES as int,
        ensures
            final(self).wf(),
            h.node_id() == old(self).inner.n(),
            final(self).inner.n() == old(self).inner.n() + 1,
            final(self).inner.kind_at(old(self).inner.n()) matches NodeKind::Map1 {
                input: i2,
                op: o2,
            } && i2 as int == n.node_id() && o2 == op,
            call_ensures(
                old(self).inner.map_fn,
                (op, &old(self).inner.val_at(n.node_id())),
                final(self).inner.val_at(old(self).inner.n()),
            ),
            final(self).inner.height_at(old(self).inner.n()) == old(self).inner.height_at(
                n.node_id(),
            ) - 1,
            forall|i: int|
                0 <= i < old(self).inner.n() ==> #[trigger] final(self).inner.val_at(i) == old(self).inner.val_at(i),
            final(self).inner.map_fn == old(self).inner.map_fn,
            final(self).inner.map2_fn == old(self).inner.map2_fn,
            final(self).inner.choose_fn == old(self).inner.choose_fn,
            old(self).inner.explained() ==> final(self).inner.explained(),
    {
        let h = self.inner.map(n, op);
        self.id_counter = self.id_counter + 1;
        h
    }

    /// Create a binary map node over `n1` and `n2`; see
    /// `Incrementars::map2`.
    pub fn map2<H1: Observable, H2: Observable>(&mut self, n1: &H1, n2: &H2, op: u64) -> (h: Map2)
        requires
            old(self).wf(),
            0 <= n1.node_id() < old(self).inner.n(),
            0 <= n2.node_id() < old(self).inner.n(),
            old(self).inner.height_at(n1.node_id()) >= 1,
            old(self).inner.height_at(n2.node_id()) >= 1,
            old(self).inner.n() < MAX_NODES as int,
        ensures
            final(self).wf(),
            h.node_id() == old(self).inner.n(),
            final(self).inner.n() == old(self).inner.n() + 1,
            final(self).inner.kind_at(old(self).inner.n()) matches NodeKind::Map2 {
                left: l2,
                right: r2,
                op: o2,
            } && l2 as int == n1.node_id() && r2 as int == n2.node_id() && o2 == op,
            call_ensures(
                old(self).inner.map2_fn,
                (op, &old(self).inner.val_at(n1.node_id()), &old(self).inner.val_at(n2.node_id())),
                final(self).inner.val_at(old(self).inner.n()),
            ),
            forall|i: int|
                0 <= i < old(self).inner.n() ==> #[trigger] final(self).inner.val_at(i) == old(self).inner.val_at(i),
            final(self).inner.map_fn == old(self).inner.map_fn,
            final(self).inner.map2_fn == old(self).inner.map2_fn,
            final(self).inner.choose_fn == old(self).inner.choose_fn,
            old(self).inner.explained() ==> final(self).inner.explained(),
    {
        let h = self.inner.map2(n1, n2, op);
        self.id_counter = self.id_counter + 1;
        h
    }

    /// Create a bind node over a selector and exactly two captured
    /// candidates; see `Incrementars::bind`. This is useful to create
    /// dynamism in node topology: in a graph where refiring on changes to
    /// temporarily unused state must be avoided, a bind listens to only
    /// one candidate at a time, chosen from the selector's value.
    pub fn bind2<HS: Observable, HA: Observable, HB: Observable>(
        &mut self,
        n: &HS,
        op: u64,
        captured_inputs: (&HA, &HB),
    ) -> (h: Bind2)
        requires
            old(self).wf(),
            0 <= n.node_id() < old(self).inner.n(),
            0 <= captured_inputs.0.node_id() < old(self).inner.n(),
            0 <= captured_inputs.1.node_id() < old(self).inner.n(),
            old(self).inner.height_at(n.node_id()) >= 1,
            old(self).inner.height_at(captured_inputs.0.node_id()) >= 1,
            old(self).inner.height_at(captured_inputs.1.node_id()) >= 1,
            old(self).inner.n() < MAX_NODES as int,
        ensures
            final(self).wf(),
            h.node_id() == old(self).inner.n(),
            final(self).inner.n() == old(self).inner.n() + 1,
            final(self).inner.kind_at(old(self).inner.n()) matches NodeKind::Bind {
                selector: s2,
                op: o2,
                first: f2,
                second: n2,
                active_second: _,
            } && s2 as int == n.node_id() && o2 == op && f2 as int == captured_inputs.0.node_id()
                && n2 as int == captured_inputs.1.node_id(),
            final(self).inner.node_ok(old(self).inner.n()),
            forall|i: int|
                0 <= i < old(self).inner.n() ==> #[trigger] final(self).inner.val_at(i) == old(self).inner.val_at(i),
            final(self).inner.map_fn == old(self).inner.map_fn,
            final(self).inner.map2_fn == old(self).inner.map2_fn,
            final(self).inner.choose_fn == old(self).inner.choose_fn,
            old(self).inner.explained() ==> final(self).inner.explained(),
    {
        let b = self.inner.bind(n, op, captured_inputs.0, captured_inputs.1);
        self.id_counter = self.id_counter + 1;
        Bind2::make(b.id)
    }

    /// Read the current value of any node without recomputing anything.
    pub fn observe<H: Observable>(&self, h: &H) -> (r: &T)
        requires
            self.wf(),
            0 <= h.node_id() < self.inner.n(),
        ensures
            *r == self.inner.val_at(h.node_id()),
    {
        self.inner.observe(h)
    }

    /// Recompute all the necessary nodes in the graph; see
    /// `Incrementars::stablize` for the full account. The engine's
    /// guarantees are restated here so callers of this front end lose
    /// nothing: every node ends clean, the pass visits each node at most
    /// once and every staged variable at least once, heights never rise,
    /// nodes outside the pass keep value and kind, an idle pass changes
    /// nothing, and whenever no bind moved its active candidate the pass
    /// is height-ordered, touches only nodes downstream of the staged
    /// variables, and leaves every node consistent with its parents.
    pub fn stablize(&mut self)
        requires
            old(self).wf(),
        ensures
            final(self).wf(),
            final(self).id_counter == old(self).id_counter,
            old(self).inner.same_shape(&final(self).inner),
            forall|i: int|
                0 <= i < old(self).inner.n() ==> !(#[trigger] final(self).inner.dirty_at(i)),
            forall|i: int|
                0 <= i < old(self).inner.n() ==> #[trigger] final(self).inner.height_at(i) <= old(self).inner.height_at(i),
            forall|i: int|
                0 <= i < old(self).inner.n() && old(self).inner.kind_at(i) is Var
                    ==> #[trigger] final(self).inner.val_at(i) == old(self).inner.val_at(i),
            final(self).inner.last_pass@.no_duplicates(),
            forall|k: int|
                0 <= k < final(self).inner.last_pass@.len() ==> 0 <= #[trigger] final(self).inner.last_pass@[k] < old(self).inner.n(),
            forall|i: int|
                0 <= i < old(self).inner.n() && !final(self).inner.last_pass@.contains(i)
                    ==> #[trigger] final(self).inner.val_at(i) == old(self).inner.val_at(i)
                    && final(self).inner.kind_at(i) == old(self).inner.kind_at(i),
            forall|i: int|
                0 <= i < old(self).inner.n() && #[trigger] old(self).inner.dirty_at(i) ==> final(self).inner.last_pass@.contains(i),
            (forall|i: int|
                0 <= i < old(self).inner.n() ==> !(#[trigger] old(self).inner.dirty_at(i))) ==> (
            final(self).inner.kinds@ == old(self).inner.kinds@ && final(self).inner.values@ == old(self).inner.values@ && final(self).inner.heights@ == old(self).inner.heights@ && final(self).inner.dirty@ == old(self).inner.dirty@ && final(self).inner.children@ == old(self).inner.children@ && final(self).inner.last_pass@ == Seq::<int>::empty()),
            old(self).inner.no_binds() ==> final(self).inner.kinds@ == old(self).inner.kinds@,
            old(self).inner.active_unchanged(&final(self).inner) ==> final(self).inner.heights@
                == old(self).inner.heights@ && final(self).inner.children@ == old(self).inner.children@,
            forall|k: int|
                0 <= k < final(self).inner.last_pass@.len() ==> old(self).inner.affected(
                    #[trigger] final(self).inner.last_pass@[k],
                ),
            forall|i: int|
                0 <= i < old(self).inner.n() && #[trigger] old(self).inner.affected(i) ==> final(self).inner.last_pass@.contains(i),
            forall|b: int|
                0 <= b < old(self).inner.n() && #[trigger] final(self).inner.last_pass@.contains(
                    b,
                ) && final(self).inner.kind_at(b) is Bind && (final(self).inner.kind_at(
                    final(self).inner.kind_at(b)->Bind_selector as int,
                ) is Var || !final(self).inner.last_pass@.contains(
                    final(self).inner.kind_at(b)->Bind_selector as int,
                )) ==> final(self).inner.choice_current(b),
            (old(self).inner.active_unchanged(&final(self).inner) && old(self).inner.explained())
                ==> forall|i: int|
                0 <= i < old(self).inner.n() ==> #[trigger] final(self).inner.node_ok(i),
            (old(self).inner.active_unchanged(&final(self).inner) && old(self).inner.explained())
                ==> final(self).inner.explained(),
            old(self).inner.active_unchanged(&final(self).inner) ==> forall|k1: int, k2: int|
                0 <= k1 <= k2 < final(self).inner.last_pass@.len() ==> final(self).inner.height_at(
                    final(self).inner.last_pass@[k1],
                ) >= final(self).inner.height_at(final(self).inner.last_pass@[k2]),
            forall|i: int|
                0 <= i < old(self).inner.n() ==> #[trigger] final(self).inner.height_at(i) == old(self).inner.height_at(i) || final(self).inner.height_at(i) >= final(self).inner.min_parent_height(i) - 1 || final(self).inner.kind_at(i).active() != old(self).inner.kind_at(i).active(),
            forall|i: int|
                #![trigger final(self).inner.height_at(i)]
                0 <= i < old(self).inner.n() && old(self).inner.others_active_unchanged(
                    final(self).inner,
                    i,
                ) ==> final(self).inner.height_at(i) == old(self).inner.height_at(i) || final(self).inner.height_at(i) >= final(self).inner.min_parent_height(i) - 1,
    {
        self.inner.stablize();
        proof {
            assert forall|i: int|
                0 <= i < old(self).inner.n() && !self.inner.last_pass@.contains(
                    i,
                ) implies #[trigger] self.inner.val_at(i) == old(self).inner.val_at(i)
                && self.inner.kind_at(i) == old(self).inner.kind_at(i) by {
                assert(!self.inner.last_pass@.contains(i));
            }
        }
    }
}

} // verus!
