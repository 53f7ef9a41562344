use rustygrad::{Neuron, Op, Tape};

#[test]
fn operations_record_operands() {
    let mut t = Tape::new();
    let x = t.leaf();
    let y = t.leaf();
    let a = t.add(x, y);
    let s = t.sub(x, y);
    let m = t.mul(x, y);
    let d = t.div(x, y);
    let p = t.pow(x);
    let r = t.relu(y);
    assert_eq!((x, y, a, s, m, d, p, r), (0, 1, 2, 3, 4, 5, 6, 7));
    assert_eq!(t.len(), 8);
    assert_eq!(t.op(x), Op::Leaf);
    assert_eq!(t.op(a), Op::Add(0, 1));
    assert_eq!(t.op(s), Op::Sub(0, 1));
    assert_eq!(t.op(m), Op::Mul(0, 1));
    assert_eq!(t.op(d), Op::Div(0, 1));
    assert_eq!(t.op(p), Op::Pow(0));
    assert_eq!(t.op(r), Op::Relu(1));
}

#[test]
fn new_tape_is_empty() {
    let t = Tape::new();
    assert_eq!(t.len(), 0);
}

#[test]
fn backward_order_of_product() {
    let mut t = Tape::new();
    let x = t.leaf();
    let y = t.leaf();
    let z = t.mul(x, y);
    assert_eq!(t.backward_order(z), vec![2, 1, 0]);
}

#[test]
fn backward_order_of_power_and_relu() {
    let mut t = Tape::new();
    let x = t.leaf();
    let y = t.pow(x);
    assert_eq!(t.backward_order(y), vec![1, 0]);
    let r = t.relu(x);
    assert_eq!(t.backward_order(r), vec![2, 0]);
}

#[test]
fn backward_order_from_leaf_is_the_leaf() {
    let mut t = Tape::new();
    let _ = t.leaf();
    let x = t.leaf();
    assert_eq!(t.backward_order(x), vec![1]);
}

#[test]
fn backward_order_skips_unreached_nodes() {
    let mut t = Tape::new();
    let x = t.leaf();
    let y = t.leaf();
    let u = t.mul(x, y);
    let v = t.add(x, x);
    assert_eq!(t.backward_order(v), vec![3, 0]);
    assert_eq!(t.backward_order(u), vec![2, 1, 0]);
}

#[test]
fn shared_node_comes_after_all_its_users() {
    let mut t = Tape::new();
    let w = t.leaf();
    let x = t.leaf();
    let y = t.leaf();
    let wx = t.mul(w, x);
    let wy = t.mul(w, y);
    let z = t.add(wx, wy);
    let order = t.backward_order(z);
    assert_eq!(order, vec![5, 4, 3, 2, 1, 0]);
    let at = |n: usize| order.iter().position(|&k| k == n).unwrap();
    assert!(at(wx) < at(w));
    assert!(at(wy) < at(w));
    assert_eq!(order.iter().filter(|&&k| k == w).count(), 1);
}

#[test]
fn backward_order_is_repeatable() {
    let mut t = Tape::new();
    let a = t.leaf();
    let b = t.leaf();
    let c = t.sub(a, b);
    let d = t.div(c, a);
    let first = t.backward_order(d);
    let second = t.backward_order(d);
    assert_eq!(first, second);
    assert_eq!(first, vec![3, 2, 1, 0]);
}

#[test]
fn sum_of_three_matches_nested_adds() {
    let mut s = Tape::new();
    let a = s.leaf();
    let b = s.leaf();
    let c = s.leaf();
    let total = s.sum(&vec![a, b, c]);

    let mut n = Tape::new();
    let a2 = n.leaf();
    let b2 = n.leaf();
    let c2 = n.leaf();
    let ab = n.add(a2, b2);
    let abc = n.add(ab, c2);

    assert_eq!(total, abc);
    assert_eq!(s.len(), n.len());
    for i in 0..s.len() {
        assert_eq!(s.op(i), n.op(i));
    }
    assert_eq!(s.op(total), Op::Add(3, 2));
    assert_eq!(s.backward_order(total), n.backward_order(abc));
}

#[test]
fn sum_of_one_item_is_that_item() {
    let mut t = Tape::new();
    let _ = t.leaf();
    let b = t.leaf();
    let r = t.sum(&vec![b]);
    assert_eq!(r, b);
    assert_eq!(t.len(), 2);
}

#[test]
fn sum_folds_from_the_left() {
    let mut t = Tape::new();
    let a = t.leaf();
    let b = t.leaf();
    let r = t.sum(&vec![b, a, b, a]);
    assert_eq!(r, 4);
    assert_eq!(t.op(2), Op::Add(1, 0));
    assert_eq!(t.op(3), Op::Add(2, 1));
    assert_eq!(t.op(4), Op::Add(3, 0));
}

#[test]
fn test_0() {
    let mut t = Tape::new();
    let deps: Vec<usize> = (0..10).map(|_| t.leaf()).collect();
    let nn = Neuron::new(&mut t, deps.len(), true);

    let _res = nn.forward(&mut t, &deps);

    assert_eq!(10, deps.len())
}
