//! Properties of the graph that relate several operations, stated and
//! proved once over the spec model.

use vstd::prelude::*;

use crate::node::{Incrementars, NodeKind};

verus! {

broadcast use vstd::seq_lib::group_to_multiset_ensures;

/// Along every edge of a well-formed graph, the child's pseudo-height is
/// strictly below the parent's. This is the order the scheduler relies on
/// to recompute ancestors first.
pub proof fn lemma_edge_heights_strict<T, F1, F2, FC>(
    g: &Incrementars<T, F1, F2, FC>,
    p: int,
    c: int,
) where T: Clone, F1: Fn(u64, &T) -> T, F2: Fn(u64, &T, &T) -> T, FC: Fn(u64, &T) -> bool
    requires
        g.wf(),
        0 <= c < g.n(),
        g.is_parent(p, c),
    ensures
        g.height_at(c) < g.height_at(p),
{
}

/// A bind node is a child of exactly one of its candidates: the one its
/// chooser last selected. The candidate it switched away from keeps no
/// edge to it, so changes under the inactive candidate cannot reach the
/// bind.
pub proof fn lemma_bind_single_candidate_edge<T, F1, F2, FC>(
    g: &Incrementars<T, F1, F2, FC>,
    b: int,
) where T: Clone, F1: Fn(u64, &T) -> T, F2: Fn(u64, &T, &T) -> T, FC: Fn(u64, &T) -> bool
    requires
        g.wf(),
        0 <= b < g.n(),
        g.kind_at(b) is Bind,
    ensures
        g.child_list(g.kind_at(b).active()).contains((b as usize)),
        forall|cand: int|
            0 <= cand < g.n() && (g.kind_at(b) matches NodeKind::Bind { first, second, .. }
                && (cand == first as int || cand == second as int)) && cand != g.kind_at(b).active()
                && cand != g.kind_at(b)->Bind_selector as int ==> !(#[trigger] g.child_list(
                cand,
            ).contains((b as usize))),
{
    let act = g.kind_at(b).active();
    assert(0 <= act < g.n()) by {
        assert(g.kind_at(b).refs_below(b));
    }
    assert(g.child_list(act).to_multiset().count(b as usize) == g.kind_at(b).role_count(act));
    assert(g.kind_at(b).role_count(act) > 0);
    assert forall|cand: int|
        0 <= cand < g.n() && (g.kind_at(b) matches NodeKind::Bind { first, second, .. } && (cand
            == first as int || cand == second as int)) && cand != g.kind_at(b).active() && cand
        != g.kind_at(b)->Bind_selector as int implies !(#[trigger] g.child_list(cand).contains(
        (b as usize),
    )) by {
        assert(g.child_list(cand).to_multiset().count(b as usize) == g.kind_at(b).role_count(
            cand,
        ));
        assert(g.kind_at(b).role_count(cand) == 0);
        if g.child_list(cand).contains(b as usize) {
            assert(g.child_list(cand).to_multiset().count(b as usize) > 0);
        }
    }
}

/// A stabilization pass whose fired binds all read settled selectors
/// moves no active candidate: an unfired bind keeps its record, and a
/// fired bind re-derives the same choice when its chooser behaves as a
/// function and its selector's value is the one it already chose by --
/// because the selector is a variable, whose value never changes within
/// a pass, or was not recomputed at all. This is how a caller discharges
/// the `active_unchanged` guard on the stabilization contract for graphs
/// that hold binds.
pub proof fn lemma_pass_preserves_choices<T, F1, F2, FC>(
    pre: &Incrementars<T, F1, F2, FC>,
    post: &Incrementars<T, F1, F2, FC>,
) where T: Clone, F1: Fn(u64, &T) -> T, F2: Fn(u64, &T, &T) -> T, FC: Fn(u64, &T) -> bool
    requires
        pre.wf(),
        pre.same_shape(post),
        forall|b: int| 0 <= b < pre.n() ==> #[trigger] pre.choice_current(b),
        forall|i: int|
            0 <= i < pre.n() && !post.last_pass@.contains(i) ==> #[trigger] post.val_at(i)
                == pre.val_at(i) && post.kind_at(i) == pre.kind_at(i),
        forall|i: int|
            0 <= i < pre.n() && pre.kind_at(i) is Var ==> #[trigger] post.val_at(i) == pre.val_at(
                i,
            ),
        forall|b: int|
            0 <= b < pre.n() && #[trigger] post.last_pass@.contains(b) && post.kind_at(b) is Bind
                && (post.kind_at(post.kind_at(b)->Bind_selector as int) is Var
                || !post.last_pass@.contains(post.kind_at(b)->Bind_selector as int))
                ==> post.choice_current(b),
        forall|b: int|
            0 <= b < pre.n() && #[trigger] post.last_pass@.contains(b) && post.kind_at(b) is Bind
                ==> post.kind_at(post.kind_at(b)->Bind_selector as int) is Var
                || !post.last_pass@.contains(post.kind_at(b)->Bind_selector as int),
        forall|op: u64, x: T, r1: bool, r2: bool|
            call_ensures(pre.choose_fn, (op, &x), r1) && call_ensures(pre.choose_fn, (op, &x), r2)
                ==> r1 == r2,
    ensures
        pre.active_unchanged(post),
{
    assert forall|j: int|
        0 <= j < pre.n() implies (#[trigger] pre.kind_at(j)).active() == post.kind_at(
        j,
    ).active() by {
        assert(pre.kind_at(j).same_shape(post.kind_at(j)));
        match pre.kind_at(j) {
            NodeKind::Var => {},
            NodeKind::Map1 { .. } => {},
            NodeKind::Map2 { .. } => {},
            NodeKind::Bind { selector, op, first, second, active_second } => {
                assert(post.kind_at(j) is Bind);
                if post.last_pass@.contains(j) {
                    let sel = post.kind_at(j)->Bind_selector as int;
                    assert(sel == selector as int);
                    assert(0 <= sel < j) by {
                        assert(pre.kind_at(j).refs_below(j));
                        assert(pre.kind_at(j).role_count(sel) > 0);
                        if sel >= j {
                            crate::node::lemma_role_below(pre.kind_at(j), j, sel);
                        }
                    }
                    assert(post.choice_current(j));
                    let post_flag = post.kind_at(j)->Bind_active_second;
                    assert(call_ensures(
                        post.choose_fn,
                        (op, &post.val_at(sel)),
                        post_flag,
                    ));
                    assert(post.val_at(sel) == pre.val_at(sel)) by {
                        if post.kind_at(sel) is Var {
                            assert(pre.kind_at(sel).same_shape(post.kind_at(sel)));
                            assert(pre.kind_at(sel) is Var);
                        } else {
                            assert(!post.last_pass@.contains(sel));
                        }
                    }
                    assert(pre.choice_current(j));
                    assert(call_ensures(pre.choose_fn, (op, &pre.val_at(sel)), active_second));
                    assert(post.choose_fn == pre.choose_fn);
                    assert(post_flag == active_second);
                } else {
                    assert(post.val_at(j) == pre.val_at(j) && post.kind_at(j) == pre.kind_at(
                        j,
                    ));
                }
            },
        }
    }
}

/// Stable graphs are observationally deterministic: two graphs with the
/// same wiring and interpreters, both fully consistent, agree on every
/// node's value as soon as they agree on the variables' values -- provided
/// the interpreters behave as functions of their arguments and cloning a
/// value reproduces it exactly. In particular, setting a variable to the
/// value it already has and stabilizing again cannot change what any
/// observer reads.
pub proof fn lemma_stable_values_determined<T, F1, F2, FC>(
    a: &Incrementars<T, F1, F2, FC>,
    b: &Incrementars<T, F1, F2, FC>,
) where T: Clone, F1: Fn(u64, &T) -> T, F2: Fn(u64, &T, &T) -> T, FC: Fn(u64, &T) -> bool
    requires
        a.wf(),
        b.wf(),
        a.same_shape(b),
        forall|i: int| 0 <= i < a.n() ==> #[trigger] a.node_ok(i),
        forall|i: int| 0 <= i < a.n() ==> #[trigger] b.node_ok(i),
        forall|i: int|
            0 <= i < a.n() && a.kind_at(i) is Var ==> #[trigger] a.val_at(i) == b.val_at(i),
        forall|op: u64, x: T, y1: T, y2: T|
            call_ensures(a.map_fn, (op, &x), y1) && call_ensures(a.map_fn, (op, &x), y2) ==> y1
                == y2,
        forall|op: u64, x1: T, x2: T, y1: T, y2: T|
            call_ensures(a.map2_fn, (op, &x1, &x2), y1) && call_ensures(
                a.map2_fn,
                (op, &x1, &x2),
                y2,
            ) ==> y1 == y2,
        forall|op: u64, x: T, r1: bool, r2: bool|
            call_ensures(a.choose_fn, (op, &x), r1) && call_ensures(a.choose_fn, (op, &x), r2)
                ==> r1 == r2,
        forall|x: T, y: T| vstd::pervasive::cloned(x, y) ==> y == x,
    ensures
        forall|i: int| 0 <= i < a.n() ==> #[trigger] a.val_at(i) == b.val_at(i),
{
    assert forall|i: int| 0 <= i < a.n() implies #[trigger] a.val_at(i) == b.val_at(i) by {
        lemma_values_agree_below(a, b, i);
    }
}

/// Induction step for `lemma_stable_values_determined`: node values agree
/// at `i`, by induction over ids, since every node reads only nodes with
/// smaller ids.
proof fn lemma_values_agree_below<T, F1, F2, FC>(
    a: &Incrementars<T, F1, F2, FC>,
    b: &Incrementars<T, F1, F2, FC>,
    i: int,
) where T: Clone, F1: Fn(u64, &T) -> T, F2: Fn(u64, &T, &T) -> T, FC: Fn(u64, &T) -> bool
    requires
        a.wf(),
        b.wf(),
        a.same_shape(b),
        forall|j: int| 0 <= j < a.n() ==> #[trigger] a.node_ok(j),
        forall|j: int| 0 <= j < a.n() ==> #[trigger] b.node_ok(j),
        forall|j: int|
            0 <= j < a.n() && a.kind_at(j) is Var ==> #[trigger] a.val_at(j) == b.val_at(j),
        forall|op: u64, x: T, y1: T, y2: T|
            call_ensures(a.map_fn, (op, &x), y1) && call_ensures(a.map_fn, (op, &x), y2) ==> y1
                == y2,
        forall|op: u64, x1: T, x2: T, y1: T, y2: T|
            call_ensures(a.map2_fn, (op, &x1, &x2), y1) && call_ensures(
                a.map2_fn,
                (op, &x1, &x2),
                y2,
            ) ==> y1 == y2,
        forall|op: u64, x: T, r1: bool, r2: bool|
            call_ensures(a.choose_fn, (op, &x), r1) && call_ensures(a.choose_fn, (op, &x), r2)
                ==> r1 == r2,
        forall|x: T, y: T| vstd::pervasive::cloned(x, y) ==> y == x,
        0 <= i < a.n(),
    ensures
        a.val_at(i) == b.val_at(i),
    decreases i,
{
    assert(a.kind_at(i).same_shape(b.kind_at(i)));
    assert(a.kind_at(i).refs_below(i));
    assert(a.node_ok(i));
    assert(b.node_ok(i));
    match a.kind_at(i) {
        NodeKind::Var => {
        },
        NodeKind::Map1 { input, op } => {
            assert(b.kind_at(i) == NodeKind::Map1 { input, op });
            lemma_values_agree_below(a, b, input as int);
            assert(call_ensures(a.map_fn, (op, &a.val_at(input as int)), a.val_at(i)));
            assert(call_ensures(b.map_fn, (op, &b.val_at(input as int)), b.val_at(i)));
        },
        NodeKind::Map2 { left, right, op } => {
            assert(b.kind_at(i) == NodeKind::Map2 { left, right, op });
            lemma_values_agree_below(a, b, left as int);
            lemma_values_agree_below(a, b, right as int);
        },
        NodeKind::Bind { selector, op, first, second, active_second } => {
            lemma_values_agree_below(a, b, selector as int);
            let b_active = b.kind_at(i)->Bind_active_second;
            assert(call_ensures(a.choose_fn, (op, &a.val_at(selector as int)), active_second));
            assert(call_ensures(b.choose_fn, (op, &b.val_at(selector as int)), b_active));
            assert(b_active == active_second);
            assert(a.kind_at(i).active() == b.kind_at(i).active());
            assert(0 <= a.kind_at(i).active() < i);
            lemma_values_agree_below(a, b, a.kind_at(i).active());
            assert(vstd::pervasive::cloned(a.val_at(a.kind_at(i).active()), a.val_at(i)));
            assert(vstd::pervasive::cloned(b.val_at(b.kind_at(i).active()), b.val_at(i)));
        },
    }
}

} // verus!
