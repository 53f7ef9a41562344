use vstd::prelude::*;

verus! {

/// How a node was produced. Operands are indices of earlier nodes of the tape.
#[derive(Clone, Copy, Debug, PartialEq, Eq, Structural)]
pub enum Op {
    /// A constant or a trainable parameter: no operands.
    Leaf,
    Add(usize, usize),
    Sub(usize, usize),
    Mul(usize, usize),
    Div(usize, usize),
    /// Power by a constant exponent; only the base is differentiated through.
    /// The exponent is a number, kept by the caller with the node's value.
    Pow(usize),
    Relu(usize),
}

/// `j` is an operand of `op`.
pub open spec fn uses(op: Op, j: int) -> bool {
    match op {
        Op::Leaf => false,
        Op::Add(a, b) | Op::Sub(a, b) | Op::Mul(a, b) | Op::Div(a, b) => a == j || b == j,
        Op::Pow(a) | Op::Relu(a) => a == j,
    }
}

/// Every operand of `op` lies strictly below index `i`.
pub open spec fn placed_below(op: Op, i: int) -> bool {
    forall|j: int| #[trigger] uses(op, j) ==> 0 <= j < i
}

/// An arena of nodes: node `i` is `ops[i]`.
pub struct Tape {
    ops: Vec<Op>,
}

impl View for Tape {
    type V = Seq<Op>;

    closed spec fn view(&self) -> Seq<Op> {
        self.ops@
    }
}

/// Each node refers only to nodes created before it.
pub open spec fn acyclic(ops: Seq<Op>) -> bool {
    forall|i: int| 0 <= i < ops.len() ==> placed_below(#[trigger] ops[i], i)
}

/// The nodes appended when `items` is folded from the left with `Add`, on a tape
/// that held `base` nodes before.
pub open spec fn sum_ops(base: int, items: Seq<usize>) -> Seq<Op>
    decreases items.len(),
{
    if items.len() <= 1 {
        Seq::empty()
    } else {
        let front = items.drop_last();
        sum_ops(base, front).push(Op::Add(sum_root(base, front) as usize, items.last()))
    }
}

/// The node that stands for the sum of `items` after the fold: the single item
/// itself, or the last node appended.
pub open spec fn sum_root(base: int, items: Seq<usize>) -> int {
    if items.len() <= 1 {
        items[0] as int
    } else {
        base + items.len() - 2
    }
}

/// A fold over `n` items appends `n - 1` nodes.
pub proof fn lemma_sum_ops_len(base: int, items: Seq<usize>)
    requires
        items.len() >= 1,
    ensures
        sum_ops(base, items).len() == items.len() - 1,
    decreases items.len(),
{
    if items.len() > 1 {
        lemma_sum_ops_len(base, items.drop_last());
    }
}

/// Summing a sequence extended by one item appends what adding that item to the
/// sum of the sequence appends, and stands at the new node.
pub proof fn lemma_sum_push(base: int, items: Seq<usize>, x: usize)
    requires
        items.len() >= 1,
    ensures
        sum_ops(base, items.push(x)) == sum_ops(base, items).push(
            Op::Add(sum_root(base, items) as usize, x),
        ),
        sum_root(base, items.push(x)) == base + sum_ops(base, items).len(),
{
    assert(items.push(x).drop_last() =~= items);
    lemma_sum_ops_len(base, items);
}

/// Summing `[a, b, c]` appends the very nodes of `add(add(a, b), c)`, and its
/// result is the second of them. Equal nodes over equal operands have equal
/// values and pass equal gradients back.
pub proof fn lemma_sum_three(base: int, a: usize, b: usize, c: usize)
    requires
        0 <= base <= usize::MAX,
    ensures
        sum_ops(base, seq![a, b, c]) == seq![Op::Add(a, b), Op::Add(base as usize, c)],
        sum_root(base, seq![a, b, c]) == base + 1,
{
    lemma_sum_push(base, seq![a], b);
    lemma_sum_push(base, seq![a, b], c);
    assert(seq![a].push(b) =~= seq![a, b]);
    assert(seq![a, b].push(c) =~= seq![a, b, c]);
    assert(sum_ops(base, seq![a]) =~= Seq::<Op>::empty());
    assert(sum_ops(base, seq![a, b, c]) =~= seq![Op::Add(a, b), Op::Add(base as usize, c)]);
}

impl Tape {
    pub open spec fn wf(&self) -> bool {
        acyclic(self@)
    }

    pub fn new() -> (t: Tape)
        ensures
            t.wf(),
            t@ == Seq::<Op>::empty(),
    {
        Tape { ops: Vec::new() }
    }

    pub fn len(&self) -> (n: usize)
        ensures
            n == self@.len(),
    {
        self.ops.len()
    }

    /// The operation that produced node `i`.
    pub fn op(&self, i: usize) -> (o: Op)
        requires
            i < self@.len(),
        ensures
            o == self@[i as int],
    {
        self.ops[i]
    }

    /// Appends a node produced by `o` and returns its index.
    fn push_op(&mut self, o: Op) -> (i: usize)
        requires
            old(self).wf(),
            placed_below(o, old(self)@.len() as int),
        ensures
            final(self).wf(),
            final(self)@ == old(self)@.push(o),
            i == old(self)@.len(),
    {
        let i = self.ops.len();
        self.ops.push(o);
        assert forall|k: int| 0 <= k < self@.len() implies placed_below(#[trigger] self@[k], k) by {
            if k < i {
                assert(self@[k] == old(self)@[k]);
            }
        }
        i
    }

    /// A new leaf node.
    pub fn leaf(&mut self) -> (i: usize)
        requires
            old(self).wf(),
        ensures
            final(self).wf(),
            final(self)@ == old(self)@.push(Op::Leaf),
            i == old(self)@.len(),
    {
        self.push_op(Op::Leaf)
    }

    /// A new node for the sum of nodes `a` and `b`.
    pub fn add(&mut self, a: usize, b: usize) -> (i: usize)
        requires
            old(self).wf(),
            a < old(self)@.len(),
            b < old(self)@.len(),
        ensures
            final(self).wf(),
            final(self)@ == old(self)@.push(Op::Add(a, b)),
            i == old(self)@.len(),
    {
        self.push_op(Op::Add(a, b))
    }

    /// A new node for the difference of nodes `a` and `b`.
    pub fn sub(&mut self, a: usize, b: usize) -> (i: usize)
        requires
            old(self).wf(),
            a < old(self)@.len(),
            b < old(self)@.len(),
        ensures
            final(self).wf(),
            final(self)@ == old(self)@.push(Op::Sub(a, b)),
            i == old(self)@.len(),
    {
        self.push_op(Op::Sub(a, b))
    }

    /// A new node for the product of nodes `a` and `b`.
    pub fn mul(&mut self, a: usize, b: usize) -> (i: usize)
        requires
            old(self).wf(),
            a < old(self)@.len(),
            b < old(self)@.len(),
        ensures
            final(self).wf(),
            final(self)@ == old(self)@.push(Op::Mul(a, b)),
            i == old(self)@.len(),
    {
        self.push_op(Op::Mul(a, b))
    }

    /// A new node for the quotient of nodes `a` and `b`.
    pub fn div(&mut self, a: usize, b: usize) -> (i: usize)
        requires
            old(self).wf(),
            a < old(self)@.len(),
            b < old(self)@.len(),
        ensures
            final(self).wf(),
            final(self)@ == old(self)@.push(Op::Div(a, b)),
            i == old(self)@.len(),
    {
        self.push_op(Op::Div(a, b))
    }

    /// A new node for node `a` raised to a constant power.
    pub fn pow(&mut self, a: usize) -> (i: usize)
        requires
            old(self).wf(),
            a < old(self)@.len(),
        ensures
            final(self).wf(),
            final(self)@ == old(self)@.push(Op::Pow(a)),
            i == old(self)@.len(),
    {
        self.push_op(Op::Pow(a))
    }

    /// A new node for the rectified value of node `a`.
    pub fn relu(&mut self, a: usize) -> (i: usize)
        requires
            old(self).wf(),
            a < old(self)@.len(),
        ensures
            final(self).wf(),
            final(self)@ == old(self)@.push(Op::Relu(a)),
            i == old(self)@.len(),
    {
        self.push_op(Op::Relu(a))
    }

    /// The sum of a non-empty sequence of nodes, folded with `add` from the left
    /// starting with the first item. A single item is its own sum.
    pub fn sum(&mut self, items: &Vec<usize>) -> (r: usize)
        requires
            old(self).wf(),
            items.len() > 0,
            forall|k: int| 0 <= k < items.len() ==> #[trigger] items[k] < old(self)@.len(),
        ensures
            final(self).wf(),
            final(self)@ == old(self)@ + sum_ops(old(self)@.len() as int, items@),
            r == sum_root(old(self)@.len() as int, items@),
            r < final(self)@.len(),
    {
        let ghost start = self@;
        let ghost base = start.len() as int;
        let mut acc: usize = items[0];
        let mut k: usize = 1;
        proof {
            assert(start + sum_ops(base, items@.take(1)) =~= start);
        }
        while k < items.len()
            invariant
                self.wf(),
                1 <= k <= items.len(),
                start.len() == base,
                forall|m: int| 0 <= m < items.len() ==> #[trigger] items[m] < base,
                self@ == start + sum_ops(base, items@.take(k as int)),
                acc == sum_root(base, items@.take(k as int)),
                acc < self@.len(),
            decreases items.len() - k,
        {
            proof {
                lemma_sum_ops_len(base, items@.take(k as int));
            }
            let x = items[k];
            acc = self.add(acc, x);
            k = k + 1;
            proof {
                let t = items@.take(k as int);
                assert(t.drop_last() =~= items@.take(k - 1));
                assert(t.last() == x);
                assert(self@ =~= start + sum_ops(base, t));
            }
        }
        proof {
            assert(items@.take(k as int) =~= items@);
        }
        acc
    }
}

} // verus!
