//! The single-node layer at the crate root: free-standing variables and
//! map nodes.

use incrementars::{map1, peek, stablize, var, Node};

#[test]
fn lib_var_instantiation() {
    let _ = var(10);
}

#[test]
fn lib_map_instantiation() {
    let var = var(10);
    let _var_rc = map1(var, |x: &i32| x + 1);
}

#[test]
fn lib_map_initial_value() {
    let v = var(10);
    let m = map1(v, |x: &i32| x + 1);
    assert_eq!(*m.observe(), 11);
    assert_eq!(peek(&m), 11);
}

#[test]
fn lib_set_then_stablize() {
    let v = var(2);
    let mut m = map1(v, |x: &i32| x * 3);
    assert_eq!(*m.observe(), 6);
    m.input.set(20);
    // staged only: the map still holds the stale value
    assert_eq!(*m.observe(), 6);
    stablize(&mut m);
    assert_eq!(*m.observe(), 60);
}

#[test]
fn lib_heights_descend() {
    let v = var(1i64);
    let h_var = v.height();
    let m = map1(v, |x: &i64| x + 1);
    let n = map1(m, |x: &i64| x + 1);
    assert_eq!(n.input.height, h_var - 1);
    assert_eq!(n.height, h_var - 2);
}

#[test]
fn lib_var_stablize_clears_dirty() {
    let mut v = var(5);
    v.set(7);
    assert!(v.dirty);
    stablize(&mut v);
    assert!(!v.dirty);
    assert_eq!(peek(&v), 7);
}
