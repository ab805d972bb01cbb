//! The bitmap, the graph front end, and the structural bookkeeping.

use incrementars::node::bitmap::Bitmap;
use incrementars::node::graph::Graph;
use incrementars::node::traits::Observable;

#[test]
fn bitmap_insert_and_contains() {
    let mut bm = Bitmap::new(130);
    assert!(!bm.contains(&0));
    assert!(!bm.contains(&64));
    bm.insert(0);
    bm.insert(64);
    bm.insert(129);
    assert!(bm.contains(&0));
    assert!(bm.contains(&64));
    assert!(bm.contains(&129));
    assert!(!bm.contains(&1));
    assert!(!bm.contains(&65));
}

#[test]
fn bitmap_out_of_range_is_ignored() {
    let mut bm = Bitmap::new(10);
    // capacity rounds up to a whole word
    bm.insert(1000);
    assert!(!bm.contains(&1000));
    assert!(!bm.contains(&9));
}

#[test]
fn graph_front_end_round_trip() {
    let mut g = Graph::new(
        |op: u64, x: &i64| match op {
            1 => x + 1,
            _ => *x,
        },
        |_op: u64, x: &i64, y: &i64| x + y,
        |_op: u64, x: &i64| *x != 0,
    );
    assert_eq!(g.id_counter, 0);
    let v = g.var(3);
    let m = g.map(&v, 1);
    let w = g.var(10);
    let s = g.map2(&m, &w, 0);
    assert_eq!(g.id_counter, 4);
    assert_eq!(*g.observe(&s), 14);

    v.set(&mut g.inner, 5);
    g.stablize();
    assert_eq!(*g.observe(&m), 6);
    assert_eq!(*g.observe(&s), 16);
}

#[test]
fn graph_bind2_switches() {
    let mut g = Graph::new(
        |_op: u64, x: &i64| *x,
        |_op: u64, x: &i64, _y: &i64| *x,
        |_op: u64, x: &i64| *x != 0,
    );
    let a = g.var(100);
    let b = g.var(200);
    let sel = g.var(0);
    let bind = g.bind2(&sel, 0, (&a, &b));
    assert_eq!(bind.id(), 3);
    assert_eq!(*g.observe(&bind), 100);
    sel.set(&mut g.inner, 1);
    g.stablize();
    assert_eq!(*g.observe(&bind), 200);
}

#[test]
fn handles_report_their_ids() {
    let mut g = Graph::new(
        |_op: u64, x: &i64| *x,
        |_op: u64, x: &i64, _y: &i64| *x,
        |_op: u64, _x: &i64| false,
    );
    let v = g.var(0);
    let m = g.map(&v, 0);
    let m2 = g.map2(&v, &m, 0);
    assert_eq!(v.id(), 0);
    assert_eq!(m.id(), 1);
    assert_eq!(m.as_input().id(), 1);
    assert_eq!(m2.id(), 2);
}
