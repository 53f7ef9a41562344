use vstd::prelude::*;
use crate::tape::{sum_ops, sum_root, Op, Tape};

verus! {

/// A neuron over nodes of a tape: one weight node per input, a bias node, and
/// whether its activation is rectified.
pub struct Neuron {
    pub weights: Vec<usize>,
    pub bias: usize,
    pub nonlin: bool,
}

/// The number of inputs a neuron reads: inputs and weights are paired up to
/// the shorter of the two.
pub open spec fn paired(n: nat, m: nat) -> nat {
    if n < m {
        n
    } else {
        m
    }
}

/// `m` leaves.
pub open spec fn leaves(m: nat) -> Seq<Op> {
    Seq::new(m, |k: int| Op::Leaf)
}

/// The nodes `base, base + 1, ..., base + m - 1`.
pub open spec fn run(base: int, m: nat) -> Seq<usize> {
    Seq::new(m, |k: int| (base + k) as usize)
}

/// The nodes a neuron appends on a tape of `base` nodes: the product of each
/// input with its weight, the sum of the products, the bias added to it, and a
/// rectifier on top when the neuron is nonlinear.
pub open spec fn neuron_ops(base: int, ws: Seq<usize>, bias: usize, nonlin: bool, xs: Seq<usize>) -> Seq<Op> {
    let m = paired(xs.len(), ws.len());
    let products = Seq::new(m, |k: int| Op::Mul(xs[k], ws[k]));
    let sums = sum_ops(base + m, run(base, m));
    let act = Op::Add(bias, sum_root(base + m, run(base, m)) as usize);
    let body = products + sums.push(act);
    if nonlin {
        body.push(Op::Relu((base + body.len() - 1) as usize))
    } else {
        body
    }
}

/// A neuron can read `width` inputs on a tape of `len` nodes: it pairs at least
/// one input with a weight, and its weights and bias are nodes of the tape.
pub open spec fn fits(n: Neuron, len: int, width: nat) -> bool {
    &&& paired(width, n.weights.len() as nat) > 0
    &&& n.bias < len
    &&& forall|k: int| 0 <= k < n.weights.len() ==> #[trigger] n.weights[k] < len
}

/// Every node of `xs` lies on a tape of `len` nodes.
pub open spec fn on_tape(xs: Seq<usize>, len: int) -> bool {
    forall|k: int| 0 <= k < xs.len() ==> #[trigger] xs[k] < len
}

impl Neuron {
    /// A neuron over `size` inputs: its weights and then its bias are new leaves,
    /// appended in that order.
    pub fn new(tape: &mut Tape, size: usize, nonlin: bool) -> (n: Neuron)
        requires
            old(tape).wf(),
        ensures
            final(tape).wf(),
            final(tape)@ == old(tape)@ + leaves((size + 1) as nat),
            n.weights@.push(n.bias) == run(old(tape)@.len() as int, (size + 1) as nat),
            n.weights.len() == size,
            n.nonlin == nonlin,
            size > 0 ==> fits(n, final(tape)@.len() as int, size as nat),
    {
        let ghost start = tape@;
        let ghost base = start.len() as int;
        let mut weights: Vec<usize> = Vec::new();
        let mut k: usize = 0;
        while k < size
            invariant
                tape.wf(),
                k <= size,
                start.len() == base,
                tape@ == start + leaves(k as nat),
                weights@ == run(base, k as nat),
            decreases size - k,
        {
            let w = tape.leaf();
            weights.push(w);
            k = k + 1;
            proof {
                assert(tape@ =~= start + leaves(k as nat));
                assert(weights@ =~= run(base, k as nat));
            }
        }
        let bias = tape.leaf();
        proof {
            assert(tape@ =~= start + leaves((size + 1) as nat));
            assert(weights@.push(bias) =~= run(base, (size + 1) as nat));
        }
        let n = Neuron { weights, bias, nonlin };
        proof {
            assert forall|k: int| 0 <= k < n.weights.len() implies #[trigger] n.weights[k] < tape@.len() by {
                assert(n.weights@[k] == run(base, k as nat + 1)[k]);
            }
        }
        n
    }

    /// The activation of the neuron on inputs `xs`, built on `tape`; the result
    /// is the last node appended.
    pub fn forward(&self, tape: &mut Tape, xs: &Vec<usize>) -> (r: usize)
        requires
            old(tape).wf(),
            paired(xs.len() as nat, self.weights.len() as nat) > 0,
            self.bias < old(tape)@.len(),
            forall|k: int| 0 <= k < xs.len() ==> #[trigger] xs[k] < old(tape)@.len(),
            forall|k: int| 0 <= k < self.weights.len() ==> #[trigger] self.weights[k] < old(tape)@.len(),
        ensures
            final(tape).wf(),
            final(tape)@ == old(tape)@ + neuron_ops(
                old(tape)@.len() as int,
                self.weights@,
                self.bias,
                self.nonlin,
                xs@,
            ),
            r + 1 == final(tape)@.len(),
    {
        let ghost start = tape@;
        let ghost base = start.len() as int;
        let m: usize = if xs.len() < self.weights.len() {
            xs.len()
        } else {
            self.weights.len()
        };
        let mut ids: Vec<usize> = Vec::new();
        let mut k: usize = 0;
        while k < m
            invariant
                tape.wf(),
                k <= m,
                m == paired(xs.len() as nat, self.weights.len() as nat),
                m <= xs.len(),
                m <= self.weights.len(),
                start.len() == base,
                self.bias < base,
                forall|j: int| 0 <= j < xs.len() ==> #[trigger] xs[j] < base,
                forall|j: int| 0 <= j < self.weights.len() ==> #[trigger] self.weights[j] < base,
                tape@ == start + Seq::new(k as nat, |j: int| Op::Mul(xs[j], self.weights[j])),
                ids@ == run(base, k as nat),
            decreases m - k,
        {
            let i = tape.mul(xs[k], self.weights[k]);
            ids.push(i);
            k = k + 1;
            proof {
                assert(tape@ =~= start + Seq::new(k as nat, |j: int| Op::Mul(xs[j], self.weights[j])));
                assert(ids@ =~= run(base, k as nat));
            }
        }
        let s = tape.sum(&ids);
        let act = tape.add(self.bias, s);
        if self.nonlin {
            let r = tape.relu(act);
            proof {
                assert(tape@ =~= start + neuron_ops(base, self.weights@, self.bias, self.nonlin, xs@));
            }
            r
        } else {
            proof {
                assert(tape@ =~= start + neuron_ops(base, self.weights@, self.bias, self.nonlin, xs@));
            }
            act
        }
    }

    /// The weights, then the bias.
    pub fn parameters(&self) -> (r: Vec<usize>)
        ensures
            r@ == self.weights@.push(self.bias),
    {
        let mut r: Vec<usize> = Vec::new();
        let mut k: usize = 0;
        while k < self.weights.len()
            invariant
                k <= self.weights.len(),
                r@ == self.weights@.take(k as int),
            decreases self.weights.len() - k,
        {
            r.push(self.weights[k]);
            k = k + 1;
            proof {
                assert(r@ =~= self.weights@.take(k as int));
            }
        }
        r.push(self.bias);
        proof {
            assert(self.weights@.take(k as int) =~= self.weights@);
        }
        r
    }
}

/// The nodes a layer of neurons appends on a tape of `base` nodes: those of
/// each neuron in turn, all reading `xs`.
pub open spec fn layer_ops(base: int, ns: Seq<Neuron>, xs: Seq<usize>) -> Seq<Op>
    decreases ns.len(),
{
    if ns.len() == 0 {
        Seq::empty()
    } else {
        let front = layer_ops(base, ns.drop_last(), xs);
        let n = ns.last();
        front + neuron_ops(base + front.len(), n.weights@, n.bias, n.nonlin, xs)
    }
}

/// The outputs of a layer: the last node appended for each neuron.
pub open spec fn layer_outs(base: int, ns: Seq<Neuron>, xs: Seq<usize>) -> Seq<usize>
    decreases ns.len(),
{
    if ns.len() == 0 {
        Seq::empty()
    } else {
        layer_outs(base, ns.drop_last(), xs).push((base + layer_ops(base, ns, xs).len() - 1) as usize)
    }
}

/// A layer of neurons that all read the same inputs.
pub struct Layer {
    pub neurons: Vec<Neuron>,
}

impl Layer {
    /// A layer of `nout` neurons over `nin` inputs; its parameters, neuron by
    /// neuron, are new leaves appended in that order.
    pub fn new(tape: &mut Tape, nin: usize, nout: usize, nonlin: bool) -> (l: Layer)
        requires
            old(tape).wf(),
        ensures
            final(tape).wf(),
            final(tape)@ == old(tape)@ + leaves((final(tape)@.len() - old(tape)@.len()) as nat),
            layer_params(l.neurons@) == run(
                old(tape)@.len() as int,
                (final(tape)@.len() - old(tape)@.len()) as nat,
            ),
            l.neurons.len() == nout,
            forall|k: int|
                0 <= k < nout ==> (#[trigger] l.neurons[k]).weights.len() == nin && l.neurons[k].nonlin
                    == nonlin,
            nin > 0 ==> forall|k: int|
                0 <= k < nout ==> fits(#[trigger] l.neurons[k], final(tape)@.len() as int, nin as nat),
    {
        let ghost start = tape@;
        let ghost base = start.len() as int;
        let mut neurons: Vec<Neuron> = Vec::new();
        let mut k: usize = 0;
        while k < nout
            invariant
                tape.wf(),
                k <= nout,
                start.len() == base,
                base <= tape@.len(),
                tape@ == start + leaves((tape@.len() - base) as nat),
                layer_params(neurons@) == run(base, (tape@.len() - base) as nat),
                neurons.len() == k,
                forall|j: int|
                    0 <= j < k ==> (#[trigger] neurons[j]).weights.len() == nin && neurons[j].nonlin
                        == nonlin,
                nin > 0 ==> forall|j: int|
                    0 <= j < k ==> fits(#[trigger] neurons[j], tape@.len() as int, nin as nat),
            decreases nout - k,
        {
            let n = Neuron::new(tape, nin, nonlin);
            let ghost old_neurons = neurons@;
            neurons.push(n);
            k = k + 1;
            proof {
                assert(neurons@.drop_last() =~= old_neurons);
                assert(tape@ =~= start + leaves((tape@.len() - base) as nat));
                assert(layer_params(neurons@) =~= run(base, (tape@.len() - base) as nat));
            }
        }
        Layer { neurons }
    }

    /// The outputs of every neuron on inputs `xs`, built on `tape`.
    pub fn forward(&self, tape: &mut Tape, xs: &Vec<usize>) -> (r: Vec<usize>)
        requires
            old(tape).wf(),
            on_tape(xs@, old(tape)@.len() as int),
            forall|k: int|
                0 <= k < self.neurons.len() ==> fits(
                    #[trigger] self.neurons[k],
                    old(tape)@.len() as int,
                    xs.len() as nat,
                ),
        ensures
            final(tape).wf(),
            final(tape)@ == old(tape)@ + layer_ops(old(tape)@.len() as int, self.neurons@, xs@),
            r@ == layer_outs(old(tape)@.len() as int, self.neurons@, xs@),
            on_tape(r@, final(tape)@.len() as int),
    {
        let ghost start = tape@;
        let ghost base = start.len() as int;
        let mut outs: Vec<usize> = Vec::new();
        let mut k: usize = 0;
        while k < self.neurons.len()
            invariant
                tape.wf(),
                k <= self.neurons.len(),
                start.len() == base,
                base <= tape@.len(),
                on_tape(xs@, base),
                forall|j: int|
                    0 <= j < self.neurons.len() ==> fits(#[trigger] self.neurons[j], base, xs.len() as nat),
                tape@ == start + layer_ops(base, self.neurons@.take(k as int), xs@),
                outs@ == layer_outs(base, self.neurons@.take(k as int), xs@),
                on_tape(outs@, tape@.len() as int),
            decreases self.neurons.len() - k,
        {
            let n = &self.neurons[k];
            assert(fits(*n, base, xs.len() as nat));
            let o = n.forward(tape, xs);
            k = k + 1;
            proof {
                let t = self.neurons@.take(k as int);
                assert(t.drop_last() =~= self.neurons@.take(k - 1));
                assert(t.last() == *n);
                assert(tape@ =~= start + layer_ops(base, t, xs@));
                assert(outs@.push(o) =~= layer_outs(base, t, xs@));
            }
            outs.push(o);
        }
        proof {
            assert(self.neurons@.take(k as int) =~= self.neurons@);
        }
        outs
    }

    /// The parameters of every neuron in turn.
    pub fn parameters(&self) -> (r: Vec<usize>)
        ensures
            r@ == layer_params(self.neurons@),
    {
        let mut r: Vec<usize> = Vec::new();
        let mut k: usize = 0;
        while k < self.neurons.len()
            invariant
                k <= self.neurons.len(),
                r@ == layer_params(self.neurons@.take(k as int)),
            decreases self.neurons.len() - k,
        {
            let mut p = self.neurons[k].parameters();
            let ghost t = self.neurons@.take(k + 1);
            proof {
                assert(t.drop_last() =~= self.neurons@.take(k as int));
            }
            r.append(&mut p);
            k = k + 1;
        }
        proof {
            assert(self.neurons@.take(k as int) =~= self.neurons@);
        }
        r
    }
}

/// The weights and bias of each neuron in turn.
pub open spec fn layer_params(ns: Seq<Neuron>) -> Seq<usize>
    decreases ns.len(),
{
    if ns.len() == 0 {
        Seq::empty()
    } else {
        layer_params(ns.drop_last()) + ns.last().weights@.push(ns.last().bias)
    }
}


/// The parameters of each layer in turn.
pub open spec fn mlp_params(ls: Seq<Layer>) -> Seq<usize>
    decreases ls.len(),
{
    if ls.len() == 0 {
        Seq::empty()
    } else {
        mlp_params(ls.drop_last()) + layer_params(ls.last().neurons@)
    }
}

/// What a network of layers `ls` appends on a tape of `base` nodes for inputs
/// `xs`, and its outputs: each layer reads the outputs of the one before.
pub open spec fn mlp_run(base: int, ls: Seq<Layer>, xs: Seq<usize>) -> (Seq<Op>, Seq<usize>)
    decreases ls.len(),
{
    if ls.len() == 0 {
        (Seq::empty(), xs)
    } else {
        let (ops, outs) = mlp_run(base, ls.drop_last(), xs);
        let ns = ls.last().neurons@;
        (ops + layer_ops(base + ops.len(), ns, outs), layer_outs(base + ops.len(), ns, outs))
    }
}

/// The number of inputs that layer `i` reads: those of the network for the
/// first layer, else the width of the layer before.
pub open spec fn width_before(ls: Seq<Layer>, nin: nat, i: int) -> nat {
    if i == 0 {
        nin
    } else {
        ls[i - 1].neurons.len() as nat
    }
}

/// Every neuron of `ls` can read what its layer receives on inputs of width
/// `nin`, on a tape of `len` nodes.
pub open spec fn mlp_fits(ls: Seq<Layer>, len: int, nin: nat) -> bool {
    forall|i: int, k: int|
        0 <= i < ls.len() && 0 <= k < ls[i].neurons.len() ==> fits(
            #[trigger] ls[i].neurons[k],
            len,
            width_before(ls, nin, i),
        )
}

/// A layer has one output per neuron.
pub proof fn lemma_layer_outs_len(base: int, ns: Seq<Neuron>, xs: Seq<usize>)
    ensures
        layer_outs(base, ns, xs).len() == ns.len(),
    decreases ns.len(),
{
    if ns.len() > 0 {
        lemma_layer_outs_len(base, ns.drop_last(), xs);
    }
}

/// A multilayer perceptron: layers applied one after another.
pub struct Mlp {
    pub layers: Vec<Layer>,
}

impl Mlp {
    /// A network over `nin` inputs with one layer per entry of `nout`, of that
    /// many neurons; every layer but the last is rectified. Its parameters,
    /// layer by layer, are new leaves appended in that order.
    pub fn new(tape: &mut Tape, nin: usize, nout: Vec<usize>) -> (m: Mlp)
        requires
            old(tape).wf(),
        ensures
            final(tape).wf(),
            final(tape)@ == old(tape)@ + leaves((final(tape)@.len() - old(tape)@.len()) as nat),
            mlp_params(m.layers@) == run(
                old(tape)@.len() as int,
                (final(tape)@.len() - old(tape)@.len()) as nat,
            ),
            m.layers.len() == nout.len(),
            forall|i: int| 0 <= i < nout.len() ==> (#[trigger] m.layers[i]).neurons.len() == nout[i],
            forall|i: int, k: int|
                0 <= i < nout.len() && 0 <= k < nout[i] ==> (#[trigger] m.layers[i].neurons[k]).weights.len()
                    == width_before(m.layers@, nin as nat, i) && m.layers[i].neurons[k].nonlin == (i
                    + 1 != nout.len()),
            nin > 0 && (forall|i: int| 0 <= i < nout.len() ==> #[trigger] nout[i] > 0) ==> mlp_fits(
                m.layers@,
                final(tape)@.len() as int,
                nin as nat,
            ),
    {
        let ghost start = tape@;
        let ghost base = start.len() as int;
        let n = nout.len();
        let mut layers: Vec<Layer> = Vec::new();
        let mut i: usize = 0;
        let mut width: usize = nin;
        while i < n
            invariant
                tape.wf(),
                i <= n,
                n == nout.len(),
                start.len() == base,
                base <= tape@.len(),
                tape@ == start + leaves((tape@.len() - base) as nat),
                mlp_params(layers@) == run(base, (tape@.len() - base) as nat),
                layers.len() == i,
                width == width_before(layers@, nin as nat, i as int),
                forall|j: int| 0 <= j < i ==> (#[trigger] layers[j]).neurons.len() == nout[j],
                forall|j: int, k: int|
                    0 <= j < i && 0 <= k < nout[j] ==> (#[trigger] layers[j].neurons[k]).weights.len()
                        == width_before(layers@, nin as nat, j) && layers[j].neurons[k].nonlin == (j
                        + 1 != n),
                nin > 0 && (forall|j: int| 0 <= j < n ==> #[trigger] nout[j] > 0) ==> width > 0
                    && mlp_fits(layers@, tape@.len() as int, nin as nat),
            decreases n - i,
        {
            let nonlin = i + 1 != n;
            let ghost before_len = tape@.len() as int;
            let l = Layer::new(tape, width, nout[i], nonlin);
            let ghost old_layers = layers@;
            layers.push(l);
            width = nout[i];
            i = i + 1;
            proof {
                assert(layers@.drop_last() =~= old_layers);
                assert(tape@ =~= start + leaves((tape@.len() - base) as nat));
                assert(mlp_params(layers@) =~= run(base, (tape@.len() - base) as nat));
                if nin > 0 && (forall|j: int| 0 <= j < n ==> #[trigger] nout[j] > 0) {
                    assert(nout[i - 1] > 0);
                    assert forall|j: int, k: int|
                        0 <= j < layers.len() && 0 <= k < layers[j].neurons.len() implies fits(
                        #[trigger] layers@[j].neurons[k],
                        tape@.len() as int,
                        width_before(layers@, nin as nat, j),
                    ) by {
                        if j < i - 1 {
                            assert(layers[j] == old_layers[j]);
                            if j > 0 {
                                assert(layers[j - 1] == old_layers[j - 1]);
                            }
                            assert(fits(old_layers[j].neurons[k], before_len, width_before(old_layers, nin as nat, j)));
                        }
                    }
                }
                assert forall|j: int, k: int|
                    0 <= j < i && 0 <= k < nout[j] implies (#[trigger] layers[j].neurons[k]).weights.len()
                        == width_before(layers@, nin as nat, j) && layers[j].neurons[k].nonlin == (j
                        + 1 != n) by {
                    if j < i - 1 {
                        assert(layers[j] == old_layers[j]);
                        if j > 0 {
                            assert(layers[j - 1] == old_layers[j - 1]);
                        }
                    }
                }
            }
        }
        Mlp { layers }
    }

    /// The outputs of the network on inputs `xs`, built on `tape`.
    pub fn forward(&self, tape: &mut Tape, xs: Vec<usize>) -> (r: Vec<usize>)
        requires
            old(tape).wf(),
            on_tape(xs@, old(tape)@.len() as int),
            mlp_fits(self.layers@, old(tape)@.len() as int, xs.len() as nat),
        ensures
            final(tape).wf(),
            final(tape)@ == old(tape)@ + mlp_run(old(tape)@.len() as int, self.layers@, xs@).0,
            r@ == mlp_run(old(tape)@.len() as int, self.layers@, xs@).1,
    {
        let ghost start = tape@;
        let ghost base = start.len() as int;
        let ghost xs0 = xs@;
        let mut cur = xs;
        let mut i: usize = 0;
        while i < self.layers.len()
            invariant
                tape.wf(),
                i <= self.layers.len(),
                start.len() == base,
                base <= tape@.len(),
                mlp_fits(self.layers@, base, xs0.len()),
                tape@ == start + mlp_run(base, self.layers@.take(i as int), xs0).0,
                cur@ == mlp_run(base, self.layers@.take(i as int), xs0).1,
                cur.len() == width_before(self.layers@, xs0.len(), i as int),
                on_tape(cur@, tape@.len() as int),
            decreases self.layers.len() - i,
        {
            let l = &self.layers[i];
            assert forall|k: int| 0 <= k < l.neurons.len() implies fits(
                #[trigger] l.neurons[k],
                tape@.len() as int,
                cur.len() as nat,
            ) by {
                assert(fits(self.layers@[i as int].neurons[k], base, width_before(self.layers@, xs0.len(), i as int)));
            }
            let ghost before = tape@;
            let next = l.forward(tape, &cur);
            proof {
                lemma_layer_outs_len(before.len() as int, l.neurons@, cur@);
                let t = self.layers@.take(i + 1);
                assert(t.drop_last() =~= self.layers@.take(i as int));
                assert(t.last() == *l);
                assert(tape@ =~= start + mlp_run(base, t, xs0).0);
            }
            cur = next;
            i = i + 1;
        }
        proof {
            assert(self.layers@.take(i as int) =~= self.layers@);
        }
        cur
    }

    /// Whether `forward` can run on inputs `xs` on `tape`: the inputs are nodes
    /// of the tape, and every neuron pairs at least one of its inputs with a
    /// weight node of the tape and has a bias node of the tape.
    pub fn accepts(&self, tape: &Tape, xs: &Vec<usize>) -> (b: bool)
        ensures
            b == (on_tape(xs@, tape@.len() as int) && mlp_fits(self.layers@, tape@.len() as int, xs.len() as nat)),
    {
        let len = tape.len();
        let ghost ln = len as int;
        let mut j: usize = 0;
        while j < xs.len()
            invariant
                ln == len,
                len == tape@.len(),
                j <= xs.len(),
                forall|q: int| 0 <= q < j ==> #[trigger] xs[q] < ln,
            decreases xs.len() - j,
        {
            if xs[j] >= len {
                assert(!on_tape(xs@, tape@.len() as int)) by {
                    assert(xs@[j as int] >= ln);
                }
                return false;
            }
            j = j + 1;
        }
        let mut width: usize = xs.len();
        let mut i: usize = 0;
        while i < self.layers.len()
            invariant
                ln == len,
                len == tape@.len(),
                on_tape(xs@, ln),
                i <= self.layers.len(),
                width == width_before(self.layers@, xs.len() as nat, i as int),
                forall|a: int, k: int|
                    0 <= a < i && 0 <= k < self.layers[a].neurons.len() ==> fits(
                        #[trigger] self.layers[a].neurons[k],
                        ln,
                        width_before(self.layers@, xs.len() as nat, a),
                    ),
            decreases self.layers.len() - i,
        {
            let ns = &self.layers[i].neurons;
            let mut k: usize = 0;
            while k < ns.len()
                invariant
                    ln == len,
                    len == tape@.len(),
                    ns == self.layers[i as int].neurons,
                    i < self.layers.len(),
                    k <= ns.len(),
                    width == width_before(self.layers@, xs.len() as nat, i as int),
                    forall|c: int| 0 <= c < k ==> fits(#[trigger] ns[c], ln, width as nat),
                decreases ns.len() - k,
            {
                let n = &ns[k];
                assert(*n == self.layers@[i as int].neurons@[k as int]);
                if width == 0 || n.weights.len() == 0 || n.bias >= len {
                    assert(!fits(self.layers@[i as int].neurons[k as int], ln, width as nat));
                    assert(!mlp_fits(self.layers@, tape@.len() as int, xs.len() as nat)) by {
                        assert(0 <= k < self.layers@[i as int].neurons.len());
                    }
                    return false;
                }
                let mut w: usize = 0;
                while w < n.weights.len()
                    invariant
                        ln == len,
                        len == tape@.len(),
                        *n == ns[k as int],
                        ns == self.layers[i as int].neurons,
                        i < self.layers.len(),
                        k < ns.len(),
                        width == width_before(self.layers@, xs.len() as nat, i as int),
                        width > 0,
                        n.weights.len() > 0,
                        n.bias < len,
                        w <= n.weights.len(),
                        forall|c: int| 0 <= c < w ==> #[trigger] n.weights[c] < ln,
                    decreases n.weights.len() - w,
                {
                    if n.weights[w] >= len {
                        assert(!fits(self.layers@[i as int].neurons[k as int], ln, width as nat));
                    assert(!mlp_fits(self.layers@, tape@.len() as int, xs.len() as nat)) by {
                        assert(0 <= k < self.layers@[i as int].neurons.len());
                    }
                        return false;
                    }
                    w = w + 1;
                }
                assert(fits(*n, ln, width as nat));
                k = k + 1;
            }
            width = ns.len();
            i = i + 1;
        }
        true
    }

    /// The parameters of every layer in turn.
    pub fn parameters(&self) -> (r: Vec<usize>)
        ensures
            r@ == mlp_params(self.layers@),
    {
        let mut r: Vec<usize> = Vec::new();
        let mut i: usize = 0;
        while i < self.layers.len()
            invariant
                i <= self.layers.len(),
                r@ == mlp_params(self.layers@.take(i as int)),
            decreases self.layers.len() - i,
        {
            let mut p = self.layers[i].parameters();
            let ghost t = self.layers@.take(i + 1);
            proof {
                assert(t.drop_last() =~= self.layers@.take(i as int));
            }
            r.append(&mut p);
            i = i + 1;
        }
        proof {
            assert(self.layers@.take(i as int) =~= self.layers@);
        }
        r
    }
}

} // verus!
