use rustygrad::{Layer, Mlp, Neuron, Op, Tape};

#[test]
fn neuron_new_appends_weight_and_bias_leaves() {
    let mut t = Tape::new();
    let _ = t.leaf();
    let n = Neuron::new(&mut t, 3, false);
    assert_eq!(n.weights, vec![1, 2, 3]);
    assert_eq!(n.bias, 4);
    assert!(!n.nonlin);
    assert_eq!(t.len(), 5);
    for i in 0..t.len() {
        assert_eq!(t.op(i), Op::Leaf);
    }
    assert_eq!(n.parameters(), vec![1, 2, 3, 4]);
}

#[test]
fn neuron_forward_builds_products_sum_bias_and_relu() {
    let mut t = Tape::new();
    let x0 = t.leaf();
    let x1 = t.leaf();
    let n = Neuron::new(&mut t, 2, true);
    // weights 2, 3; bias 4
    let r = n.forward(&mut t, &vec![x0, x1]);
    assert_eq!(t.op(5), Op::Mul(0, 2));
    assert_eq!(t.op(6), Op::Mul(1, 3));
    assert_eq!(t.op(7), Op::Add(5, 6));
    assert_eq!(t.op(8), Op::Add(4, 7));
    assert_eq!(t.op(9), Op::Relu(8));
    assert_eq!(r, 9);
    assert_eq!(t.len(), 10);
}

#[test]
fn neuron_forward_pairs_up_to_the_shorter_side() {
    let mut t = Tape::new();
    let x0 = t.leaf();
    let n = Neuron::new(&mut t, 3, false);
    // weights 1, 2, 3; bias 4
    let r = n.forward(&mut t, &vec![x0]);
    assert_eq!(t.op(5), Op::Mul(0, 1));
    assert_eq!(t.op(6), Op::Add(4, 5));
    assert_eq!(r, 6);
    assert_eq!(t.len(), 7);
}

#[test]
fn layer_forward_gives_one_output_per_neuron() {
    let mut t = Tape::new();
    let x = t.leaf();
    let l = Layer::new(&mut t, 1, 2, false);
    assert_eq!(l.neurons.len(), 2);
    assert_eq!(l.parameters(), vec![1, 2, 3, 4]);
    let outs = l.forward(&mut t, &vec![x]);
    // neuron one: Mul(0, 1) at 5, Add(2, 5) at 6; neuron two: Mul(0, 3) at 7, Add(4, 7) at 8
    assert_eq!(outs, vec![6, 8]);
    assert_eq!(t.op(5), Op::Mul(0, 1));
    assert_eq!(t.op(6), Op::Add(2, 5));
    assert_eq!(t.op(7), Op::Mul(0, 3));
    assert_eq!(t.op(8), Op::Add(4, 7));
}

#[test]
fn mlp_new_shapes_layers() {
    let mut t = Tape::new();
    let nn = Mlp::new(&mut t, 3, vec![4, 1]);
    assert_eq!(nn.layers.len(), 2);
    assert_eq!(nn.layers[0].neurons.len(), 4);
    assert_eq!(nn.layers[1].neurons.len(), 1);
    for n in &nn.layers[0].neurons {
        assert_eq!(n.weights.len(), 3);
        assert!(n.nonlin);
    }
    assert_eq!(nn.layers[1].neurons[0].weights.len(), 4);
    assert!(!nn.layers[1].neurons[0].nonlin);
    let params = nn.parameters();
    assert_eq!(params.len(), 4 * 4 + 5);
    assert_eq!(params, (0..21).collect::<Vec<usize>>());
    assert_eq!(t.len(), 21);
}

#[test]
fn mlp_forward_feeds_each_layer_the_one_before() {
    let mut t = Tape::new();
    let nn = Mlp::new(&mut t, 1, vec![1, 1]);
    // layer one: weight 0, bias 1; layer two: weight 2, bias 3
    let x = t.leaf();
    assert!(nn.accepts(&t, &vec![x]));
    let outs = nn.forward(&mut t, vec![x]);
    assert_eq!(t.op(5), Op::Mul(4, 0));
    assert_eq!(t.op(6), Op::Add(1, 5));
    assert_eq!(t.op(7), Op::Relu(6));
    assert_eq!(t.op(8), Op::Mul(7, 2));
    assert_eq!(t.op(9), Op::Add(3, 8));
    assert_eq!(outs, vec![9]);
    assert_eq!(t.backward_order(9), vec![9, 8, 7, 6, 5, 4, 3, 2, 1, 0]);
}

#[test]
fn mlp_accepts_checks_widths_and_nodes() {
    let mut t = Tape::new();
    let nn = Mlp::new(&mut t, 2, vec![2, 1]);
    let a = t.leaf();
    let b = t.leaf();
    assert!(nn.accepts(&t, &vec![a, b]));
    assert!(!nn.accepts(&t, &vec![]));
    assert!(!nn.accepts(&t, &vec![a, t.len()]));
    let empty = Mlp::new(&mut t, 2, vec![0, 1]);
    assert!(!empty.accepts(&t, &vec![a, b]));
    let none = Mlp::new(&mut t, 2, vec![]);
    assert!(none.accepts(&t, &vec![a, b]));
    assert_eq!(none.forward(&mut t, vec![a, b]), vec![a, b]);
}
