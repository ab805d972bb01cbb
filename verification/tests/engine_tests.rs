//! The engine exercised through its public surface: constructors,
//! setters, observation and stabilization.

use std::cell::Cell;
use std::rc::Rc;

use incrementars::node::Incrementars;

const NOP: u64 = 0;
const INC: u64 = 1;
const DOUBLE: u64 = 2;
const TENFOLD: u64 = 3;

fn int_dag() -> Incrementars<
    i64,
    impl Fn(u64, &i64) -> i64,
    impl Fn(u64, &i64, &i64) -> i64,
    impl Fn(u64, &i64) -> bool,
> {
    Incrementars::new(
        |op: u64, x: &i64| match op {
            INC => x + 1,
            DOUBLE => x * 2,
            TENFOLD => x * 10,
            _ => *x,
        },
        |_op: u64, x: &i64, y: &i64| x + y,
        |_op: u64, x: &i64| *x != 0,
    )
}

#[test]
fn mod_var_instantiation() {
    let mut dag = int_dag();
    let var = dag.var(0);
    var.set(&mut dag, 10);
    assert_eq!(*dag.observe(&var), 10);
}

#[test]
fn mod_map_instantiation() {
    let mut dag = int_dag();
    let var = dag.var(0);
    let map = dag.map(&var, INC);
    assert_eq!(*dag.observe(&map), 1);
}

#[test]
fn bifurcate() {
    let mut dag = int_dag();
    let var = dag.var(0);
    let map = dag.map(&var, INC);
    let map2 = dag.map(&var, INC);
    assert_eq!(*dag.observe(&map), 1);
    assert_eq!(*dag.observe(&map2), 1);

    var.set(&mut dag, 10);
    assert_eq!(*dag.observe(&map), 1);
    dag.stablize();
    assert_eq!(*dag.observe(&map), 11);
    assert_eq!(*dag.observe(&map2), 11);
}

/// Values carried by graphs that mix numbers and text.
#[derive(Clone, PartialEq, Debug)]
enum Value {
    Int(i64),
    Text(String),
}

#[test]
fn test_map2() {
    let mut dag = Incrementars::new(
        |_op: u64, x: &Value| x.clone(),
        |_op: u64, x: &Value, y: &Value| match (x, y) {
            (Value::Int(a), Value::Text(b)) => Value::Text(format!("{}{}", a, b)),
            _ => x.clone(),
        },
        |_op: u64, _x: &Value| false,
    );
    let var1 = dag.var(Value::Int(50));
    let var2 = dag.var(Value::Text(" dollars".to_string()));
    let map2 = dag.map2(&var1, &var2, NOP);
    assert_eq!(*dag.observe(&map2), Value::Text("50 dollars".to_string()));
}

#[test]
fn test_combinatoric() {
    let mut dag = int_dag();
    let var1 = dag.var(50);
    let var21 = dag.map(&var1, INC);
    let var22 = dag.map(&var21, INC);
    let var23 = dag.map(&var22, INC);
    let var31 = dag.map(&var1, INC);
    let rejoin = dag.map2(&var31, &var23, NOP);

    var1.set(&mut dag, 10);
    dag.stablize();
    assert_eq!(*dag.observe(&rejoin), 24);
}

#[test]
fn test_bind() {
    let mut dag = int_dag();
    let left = dag.var(1);
    let right = dag.var(2);
    let left_id = incrementars::node::traits::Observable::id(&left);
    let right_id = incrementars::node::traits::Observable::id(&right);

    // the picker holds which side to listen to: 0 is left, 1 is right
    let picker = dag.var(0);

    let binder = dag.bind(&picker, NOP, &left, &right);
    let binder_id = incrementars::node::traits::Observable::id(&binder);

    assert_eq!(dag.children[left_id], vec![binder_id]);
    assert_eq!(dag.children[right_id], Vec::<usize>::new());
    assert_eq!(*dag.observe(&binder), 1);
    picker.set(&mut dag, 1);
    dag.stablize();
    assert_eq!(*dag.observe(&binder), 2);
    assert_eq!(dag.children[right_id], vec![binder_id]);
    assert_eq!(dag.children[left_id], Vec::<usize>::new());
}

#[test]
fn test_bind_adjust_height_propagaion() {
    let mut dag = int_dag();
    let left_root = dag.var(1);
    let right_root = dag.var(-1);
    let left_map = dag.map(&left_root, DOUBLE);

    // the picker holds which side to listen to: 0 is the mapped side,
    // 1 is the plain variable
    let picker = dag.var(1);

    let binder = dag.bind(&picker, NOP, &left_map, &right_root);
    let map_after_bind = dag.map(&binder, TENFOLD);
    let binder_old_depth = dag.depth(&binder);
    let mabind_old_depth = dag.depth(&map_after_bind);

    picker.set(&mut dag, 0);
    dag.stablize();
    let binder_new_depth = dag.depth(&binder);
    let mabind_new_depth = dag.depth(&map_after_bind);

    assert_eq!(binder_new_depth, binder_old_depth - 1);
    assert_eq!(mabind_new_depth, mabind_old_depth - 1);
}

#[test]
fn test_real_life() {
    let mut dag = Incrementars::new(
        |op: u64, x: &f64| match op {
            1 => x * x,
            _ => *x,
        },
        |_op: u64, x: &f64, y: &f64| x * y,
        |_op: u64, _x: &f64| false,
    );
    let length = dag.var(2.0);
    let area = dag.map(&length, 1);

    // on initial stabilization, area is calculated to be 4.
    assert_eq!(*dag.observe(&area), 4.0);
    length.set(&mut dag, 3.0);

    // right after setting, dag isn't stablized yet.
    assert_eq!(*dag.observe(&area), 4.0);

    dag.stablize();
    assert_eq!(*dag.observe(&area), 9.0);

    let height = dag.var(5.0);
    let volume = dag.map2(&area, &height, 0);

    assert_eq!(*dag.observe(&volume), 45.0);

    height.set(&mut dag, 10.0);
    dag.stablize();
    assert_eq!(*dag.observe(&volume), 90.0);
}

#[test]
fn test_combinatorical_only_fire_once_at_combine() {
    let counter = Rc::new(Cell::new(0usize));
    let c2 = counter.clone();
    let mut dag = Incrementars::new(
        |op: u64, x: &i64| match op {
            INC => x + 1,
            _ => *x,
        },
        move |_op: u64, x: &i64, y: &i64| {
            c2.set(c2.get() + 1);
            x + y
        },
        |_op: u64, x: &i64| *x != 0,
    );
    let var1 = dag.var(1);
    let left1 = dag.map(&var1, INC);
    let left2 = dag.map(&left1, INC);
    let left3 = dag.map(&left2, INC);

    let right = dag.map(&var1, INC);

    dag.map2(&left3, &right, NOP);
    assert_eq!(counter.get(), 1);
}

#[test]
fn empty_graph_stabilizes() {
    let mut dag = int_dag();
    dag.stablize();
    assert_eq!(dag.kinds.len(), 0);
}

#[test]
fn map2_over_same_input_twice() {
    let counter = Rc::new(Cell::new(0usize));
    let c2 = counter.clone();
    let mut dag = Incrementars::new(
        |_op: u64, x: &i64| *x,
        move |_op: u64, x: &i64, y: &i64| {
            c2.set(c2.get() + 1);
            x + y
        },
        |_op: u64, _x: &i64| false,
    );
    let v = dag.var(3);
    let doubled = dag.map2(&v, &v, NOP);
    assert_eq!(*dag.observe(&doubled), 6);
    assert_eq!(counter.get(), 1);

    // the node owes v two edges, yet recomputes only once per pass
    let v_id = incrementars::node::traits::Observable::id(&v);
    let d_id = incrementars::node::traits::Observable::id(&doubled);
    assert_eq!(dag.children[v_id], vec![d_id, d_id]);
    v.set(&mut dag, 10);
    dag.stablize();
    assert_eq!(*dag.observe(&doubled), 20);
    assert_eq!(counter.get(), 2);
}
