//! End-to-end scenarios: diamonds, chains, shared variables, bind
//! switches, and the exactly-once firing discipline.

use std::cell::Cell;
use std::cell::RefCell;
use std::rc::Rc;

use incrementars::node::Incrementars;

/// Values carried by graphs that mix numbers and text.
#[derive(Clone, PartialEq, Debug)]
enum Value {
    Int(i64),
    Text(String),
}

const NOP: u64 = 0;
const INC: u64 = 1;
const STRINGIFY: u64 = 2;
const ADD: u64 = 10;
const MUL: u64 = 11;

fn value_dag() -> Incrementars<
    Value,
    impl Fn(u64, &Value) -> Value,
    impl Fn(u64, &Value, &Value) -> Value,
    impl Fn(u64, &Value) -> bool,
> {
    Incrementars::new(
        |op: u64, x: &Value| match (op, x) {
            (INC, Value::Int(a)) => Value::Int(a + 1),
            (STRINGIFY, Value::Int(a)) => Value::Text(format!("{}", a)),
            _ => x.clone(),
        },
        |op: u64, x: &Value, y: &Value| match (op, x, y) {
            (ADD, Value::Int(a), Value::Int(b)) => Value::Int(a + b),
            (MUL, Value::Int(a), Value::Int(b)) => Value::Int(a * b),
            _ => x.clone(),
        },
        |_op: u64, x: &Value| match x {
            Value::Int(a) => *a != 0,
            _ => false,
        },
    )
}

/// Diamond arithmetic: m1 = v1 + v2, m2 = m1 * v3, m3 = stringify(m1 + m2).
#[test]
fn diamond_arithmetic() {
    let mut dag = value_dag();
    let v1 = dag.var(Value::Int(1));
    let v2 = dag.var(Value::Int(1));
    let v3 = dag.var(Value::Int(2));
    let m1 = dag.map2(&v1, &v2, ADD);
    let m2 = dag.map2(&m1, &v3, MUL);
    let sum = dag.map2(&m1, &m2, ADD);
    let m3 = dag.map(&sum, STRINGIFY);
    dag.stablize();
    assert_eq!(*dag.observe(&m3), Value::Text("6".to_string()));

    v1.set(&mut dag, Value::Int(5));
    dag.stablize();
    assert_eq!(*dag.observe(&m3), Value::Text("18".to_string()));
}

/// Four-leaf tree: m1 = v1 + v2, m2 = m1 + v3, m3 = m2 + v4.
#[test]
fn four_leaf_tree() {
    let mut dag = value_dag();
    let v1 = dag.var(Value::Int(1));
    let v2 = dag.var(Value::Int(1));
    let v3 = dag.var(Value::Int(1));
    let v4 = dag.var(Value::Int(1));
    let m1 = dag.map2(&v1, &v2, ADD);
    let m2 = dag.map2(&m1, &v3, ADD);
    let m3 = dag.map2(&m2, &v4, ADD);
    assert_eq!(*dag.observe(&m3), Value::Int(4));
    v1.set(&mut dag, Value::Int(5));
    dag.stablize();
    assert_eq!(*dag.observe(&m3), Value::Int(8));
}

/// Two independent pipelines sharing nothing must not disturb each other,
/// and only the changed pipeline recomputes.
#[test]
fn two_pipelines_share_variable() {
    let log: Rc<RefCell<Vec<usize>>> = Rc::new(RefCell::new(Vec::new()));
    let l2 = log.clone();
    let mut dag = Incrementars::new(
        |op: u64, x: &Value| match (op, x) {
            (INC, Value::Int(a)) => Value::Int(a + 1),
            (STRINGIFY, Value::Int(a)) => Value::Text(format!("{}", a)),
            _ => x.clone(),
        },
        move |op: u64, x: &Value, y: &Value| {
            l2.borrow_mut().push(op as usize);
            match (op, x, y) {
                (ADD, Value::Int(a), Value::Int(b)) => Value::Int(a + b),
                _ => x.clone(),
            }
        },
        |_op: u64, _x: &Value| false,
    );
    let v1 = dag.var(Value::Int(1));
    let v2 = dag.var(Value::Int(2));
    let v3 = dag.var(Value::Int(10));

    // pipeline A over v1 and v3
    let a1 = dag.map(&v1, INC);
    let a2 = dag.map(&a1, INC);
    let a3 = dag.map2(&a2, &v3, ADD);
    let a_out = dag.map(&a3, STRINGIFY);

    // pipeline B over v2 and v3
    let b1 = dag.map(&v2, INC);
    let b2 = dag.map(&b1, INC);
    let b3 = dag.map2(&b2, &v3, ADD);
    let b_out = dag.map(&b3, STRINGIFY);

    dag.stablize();
    assert_eq!(*dag.observe(&a_out), Value::Text("13".to_string()));
    assert_eq!(*dag.observe(&b_out), Value::Text("14".to_string()));

    let joins_before = log.borrow().len();
    v2.set(&mut dag, Value::Int(5));
    dag.stablize();
    assert_eq!(*dag.observe(&a_out), Value::Text("13".to_string()));
    assert_eq!(*dag.observe(&b_out), Value::Text("17".to_string()));
    // only pipeline B's join fired again
    assert_eq!(log.borrow().len(), joins_before + 1);
}

/// Bind switch: out forwards v1 or m1 = v2 + 1, chosen by ctrl; setting a
/// variable under the inactive candidate does not change the output.
#[test]
fn bind_switch() {
    let mut dag = value_dag();
    let v1 = dag.var(Value::Int(1));
    let v2 = dag.var(Value::Int(2));
    let m1 = dag.map(&v2, INC);
    // ctrl 0 picks v1, anything else picks m1
    let ctrl = dag.var(Value::Int(0));
    let bind = dag.bind(&ctrl, NOP, &v1, &m1);
    let out = dag.map(&bind, STRINGIFY);
    dag.stablize();
    assert_eq!(*dag.observe(&out), Value::Text("1".to_string()));

    ctrl.set(&mut dag, Value::Int(1));
    dag.stablize();
    assert_eq!(*dag.observe(&out), Value::Text("3".to_string()));

    v2.set(&mut dag, Value::Int(5));
    dag.stablize();
    assert_eq!(*dag.observe(&out), Value::Text("6".to_string()));

    // v1 is no longer a dependency: its changes do not reach the output
    v1.set(&mut dag, Value::Int(10));
    dag.stablize();
    assert_eq!(*dag.observe(&out), Value::Text("6".to_string()));
}

/// A single variable with no dependents stabilizes without invoking any
/// user function.
#[test]
fn single_variable_stabilizes_alone() {
    let calls = Rc::new(Cell::new(0usize));
    let c1 = calls.clone();
    let c2 = calls.clone();
    let c3 = calls.clone();
    let mut dag = Incrementars::new(
        move |_op: u64, x: &i64| {
            c1.set(c1.get() + 1);
            *x
        },
        move |_op: u64, x: &i64, _y: &i64| {
            c2.set(c2.get() + 1);
            *x
        },
        move |_op: u64, _x: &i64| {
            c3.set(c3.get() + 1);
            false
        },
    );
    let v = dag.var(7);
    v.set(&mut dag, 9);
    dag.stablize();
    assert_eq!(*dag.observe(&v), 9);
    assert_eq!(calls.get(), 0);
}

/// A linear chain of map nodes recomputes each node exactly once, in
/// ancestor-first order.
#[test]
fn linear_chain_recomputes_in_order() {
    let log: Rc<RefCell<Vec<u64>>> = Rc::new(RefCell::new(Vec::new()));
    let l1 = log.clone();
    let mut dag = Incrementars::new(
        move |op: u64, x: &i64| {
            l1.borrow_mut().push(op);
            x + 1
        },
        |_op: u64, x: &i64, _y: &i64| *x,
        |_op: u64, _x: &i64| false,
    );
    let v = dag.var(0);
    let m1 = dag.map(&v, 1);
    let m2 = dag.map(&m1, 2);
    let m3 = dag.map(&m2, 3);
    log.borrow_mut().clear();

    v.set(&mut dag, 10);
    dag.stablize();
    assert_eq!(*dag.observe(&m3), 13);
    // exactly the three chain nodes fired, parents before children
    assert_eq!(*log.borrow(), vec![1, 2, 3]);
}

/// Two consecutive stabilizations with no intervening set: the second
/// pass recomputes nothing.
#[test]
fn stabilize_twice_is_idle() {
    let calls = Rc::new(Cell::new(0usize));
    let c1 = calls.clone();
    let mut dag = Incrementars::new(
        move |_op: u64, x: &i64| {
            c1.set(c1.get() + 1);
            x + 1
        },
        |_op: u64, x: &i64, _y: &i64| *x,
        |_op: u64, _x: &i64| false,
    );
    let v = dag.var(1);
    let m = dag.map(&v, 0);
    v.set(&mut dag, 2);
    dag.stablize();
    let after_first = calls.get();
    assert_eq!(*dag.observe(&m), 3);
    dag.stablize();
    assert_eq!(calls.get(), after_first);
    assert_eq!(*dag.observe(&m), 3);
}

/// Setting a variable to the value it already holds and stabilizing again
/// leaves every observation unchanged, though the pass recomputes the
/// descendants once more.
#[test]
fn set_same_value_same_observations() {
    let mut dag = value_dag();
    let v1 = dag.var(Value::Int(4));
    let m1 = dag.map(&v1, INC);
    let m2 = dag.map(&m1, STRINGIFY);
    v1.set(&mut dag, Value::Int(6));
    dag.stablize();
    assert_eq!(*dag.observe(&m2), Value::Text("7".to_string()));
    v1.set(&mut dag, Value::Int(6));
    dag.stablize();
    assert_eq!(*dag.observe(&m2), Value::Text("7".to_string()));
}

/// A variable feeds three chained maps on the left and one map on the
/// right; both sides reach a join. Setting the variable and stabilizing
/// invokes the join's function exactly once.
#[test]
fn join_fires_once_after_set() {
    let joins = Rc::new(Cell::new(0usize));
    let j1 = joins.clone();
    let mut dag = Incrementars::new(
        |_op: u64, x: &i64| x + 1,
        move |_op: u64, x: &i64, y: &i64| {
            j1.set(j1.get() + 1);
            x + y
        },
        |_op: u64, _x: &i64| false,
    );
    let var1 = dag.var(1);
    let left1 = dag.map(&var1, 0);
    let left2 = dag.map(&left1, 0);
    let left3 = dag.map(&left2, 0);
    let right = dag.map(&var1, 0);
    let join = dag.map2(&left3, &right, 0);
    assert_eq!(joins.get(), 1);

    var1.set(&mut dag, 5);
    dag.stablize();
    assert_eq!(joins.get(), 2);
    assert_eq!(*dag.observe(&join), 14);
}

/// All sets staged before one stabilization are propagated together, and
/// the shared descendant still recomputes only once.
#[test]
fn batched_sets_propagate_together() {
    let joins = Rc::new(Cell::new(0usize));
    let j1 = joins.clone();
    let mut dag = Incrementars::new(
        |_op: u64, x: &i64| *x,
        move |_op: u64, x: &i64, y: &i64| {
            j1.set(j1.get() + 1);
            x + y
        },
        |_op: u64, _x: &i64| false,
    );
    let v1 = dag.var(1);
    let v2 = dag.var(2);
    let sum = dag.map2(&v1, &v2, 0);
    assert_eq!(joins.get(), 1);

    v1.set(&mut dag, 10);
    v2.set(&mut dag, 20);
    dag.stablize();
    assert_eq!(*dag.observe(&sum), 30);
    assert_eq!(joins.get(), 2);
}
