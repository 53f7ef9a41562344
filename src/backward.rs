use vstd::prelude::*;
use crate::tape::{acyclic, placed_below, uses, Op, Tape};

verus! {

/// `p` is a chain of uses that starts at `root`: each node of it is an operand
/// of the node before it.
pub open spec fn is_chain(ops: Seq<Op>, root: int, p: Seq<int>) -> bool {
    &&& p.len() >= 1
    &&& p[0] == root
    &&& forall|m: int|
        0 <= m < p.len() ==> 0 <= #[trigger] p[m] < ops.len() && (m + 1 < p.len() ==> uses(
            ops[p[m]],
            p[m + 1],
        ))
}

/// Node `i` is reached from `root`: some chain of uses leads from `root` to `i`.
/// These are the nodes that receive a gradient from `root`.
pub open spec fn reached(ops: Seq<Op>, root: int, i: int) -> bool {
    exists|p: Seq<int>| #[trigger] is_chain(ops, root, p) && p.last() == i
}

/// The nodes of `[lo, root]` reached from `root`, from the highest index down.
pub open spec fn reached_from(ops: Seq<Op>, root: int, lo: int) -> Seq<usize>
    decreases root + 1 - lo,
{
    if lo > root || lo < 0 {
        Seq::empty()
    } else {
        let rest = reached_from(ops, root, lo + 1);
        if reached(ops, root, lo) {
            rest.push(lo as usize)
        } else {
            rest
        }
    }
}

/// The order in which the backward pass from `root` visits the nodes: every
/// reached node once, from the highest index down.
pub open spec fn backward_sequence(ops: Seq<Op>, root: int) -> Seq<usize> {
    reached_from(ops, root, 0)
}

/// What the visiting order holds: the reached nodes of `[lo, root]`, each once,
/// in strictly decreasing order.
pub proof fn lemma_reached_from(ops: Seq<Op>, root: int, lo: int)
    requires
        0 <= lo,
        root <= usize::MAX,
    ensures
        forall|p: int|
            0 <= p < reached_from(ops, root, lo).len() ==> lo <= #[trigger] reached_from(
                ops,
                root,
                lo,
            )[p] <= root && reached(ops, root, reached_from(ops, root, lo)[p] as int),
        forall|p: int, q: int|
            0 <= p < q < reached_from(ops, root, lo).len() ==> #[trigger] reached_from(
                ops,
                root,
                lo,
            )[p] > #[trigger] reached_from(ops, root, lo)[q],
        forall|i: int|
            lo <= i <= root && #[trigger] reached(ops, root, i) ==> reached_from(
                ops,
                root,
                lo,
            ).contains(i as usize),
    decreases root + 1 - lo,
{
    if lo <= root {
        lemma_reached_from(ops, root, lo + 1);
        let rest = reached_from(ops, root, lo + 1);
        let s = reached_from(ops, root, lo);
        if reached(ops, root, lo) {
            assert(s == rest.push(lo as usize));
            assert forall|i: int| lo <= i <= root && #[trigger] reached(ops, root, i) implies s.contains(
                i as usize,
            ) by {
                if i == lo {
                    assert(s[s.len() - 1] == i as usize);
                } else {
                    let p = choose|p: int| 0 <= p < rest.len() && rest[p] == i as usize;
                    assert(s[p] == i as usize);
                }
            }
        }
    }
}

/// Along a chain the indices fall, so no node of it lies above the root.
proof fn lemma_chain_below(ops: Seq<Op>, root: int, p: Seq<int>)
    requires
        acyclic(ops),
        is_chain(ops, root, p),
    ensures
        forall|m: int| 0 <= m < p.len() ==> #[trigger] p[m] <= root,
        p.last() <= root,
        p.len() > 1 ==> p.last() < root,
    decreases p.len(),
{
    if p.len() > 1 {
        let q = p.drop_last();
        assert(is_chain(ops, root, q)) by {
            assert forall|m: int| 0 <= m < q.len() implies 0 <= #[trigger] q[m] < ops.len() && (m + 1
                < q.len() ==> uses(ops[q[m]], q[m + 1])) by {
                assert(q[m] == p[m]);
                if m + 1 < q.len() {
                    assert(q[m + 1] == p[m + 1]);
                }
            }
        }
        lemma_chain_below(ops, root, q);
        let n = p.len() - 1;
        assert(q[n - 1] == p[n - 1]);
        assert(uses(ops[p[n - 1]], p[n]));
        assert(placed_below(ops[p[n - 1]], p[n - 1]));
        assert forall|m: int| 0 <= m < p.len() implies #[trigger] p[m] <= root by {
            if m < n {
                assert(q[m] == p[m]);
            }
        }
    }
}

/// A chain extended by an operand of its last node is a chain.
proof fn lemma_chain_push(ops: Seq<Op>, root: int, p: Seq<int>, k: int)
    requires
        is_chain(ops, root, p),
        0 <= k < ops.len(),
        uses(ops[p.last()], k),
    ensures
        is_chain(ops, root, p.push(k)),
{
    let q = p.push(k);
    assert forall|m: int| 0 <= m < q.len() implies 0 <= #[trigger] q[m] < ops.len() && (m + 1
        < q.len() ==> uses(ops[q[m]], q[m + 1])) by {
        if m < p.len() {
            assert(q[m] == p[m]);
            if m + 1 < p.len() {
                assert(q[m + 1] == p[m + 1]);
            }
        }
    }
}

/// An operand of a reached node is reached, and lies below it.
pub proof fn lemma_operand_reached(ops: Seq<Op>, root: int, i: int, j: int)
    requires
        acyclic(ops),
        0 <= i < ops.len(),
        reached(ops, root, i),
        uses(ops[i], j),
    ensures
        reached(ops, root, j),
        0 <= j < i,
{
    assert(placed_below(ops[i], i));
    let p = choose|p: Seq<int>| #[trigger] is_chain(ops, root, p) && p.last() == i;
    lemma_chain_push(ops, root, p, j);
    assert(p.push(j).last() == j);
}

/// A node is reached exactly when it is the root or an operand of a reached node
/// above it; no node above the root is reached.
pub proof fn lemma_reached_step(ops: Seq<Op>, root: int)
    requires
        acyclic(ops),
        0 <= root < ops.len(),
    ensures
        forall|k: int| #[trigger] reached(ops, root, k) ==> 0 <= k <= root,
        forall|k: int|
            0 <= k <= root ==> #[trigger] reached(ops, root, k) == (k == root || exists|j: int|
                k < j <= root && #[trigger] reached(ops, root, j) && uses(ops[j], k)),
{
    assert forall|k: int| #[trigger] reached(ops, root, k) implies 0 <= k <= root by {
        let p = choose|p: Seq<int>| #[trigger] is_chain(ops, root, p) && p.last() == k;
        lemma_chain_below(ops, root, p);
        assert(p[p.len() - 1] == k);
    }
    assert(is_chain(ops, root, seq![root]));
    assert(reached(ops, root, root)) by {
        assert(seq![root].last() == root);
    }
    assert forall|k: int| 0 <= k <= root implies #[trigger] reached(ops, root, k) == (k == root
        || exists|j: int| k < j <= root && #[trigger] reached(ops, root, j) && uses(ops[j], k)) by {
        if k < root {
            if reached(ops, root, k) {
                let p = choose|p: Seq<int>| #[trigger] is_chain(ops, root, p) && p.last() == k;
                let n = p.len() - 1;
                assert(n >= 1);
                let q = p.drop_last();
                assert(is_chain(ops, root, q)) by {
                    assert forall|m: int| 0 <= m < q.len() implies 0 <= #[trigger] q[m] < ops.len() && (m
                        + 1 < q.len() ==> uses(ops[q[m]], q[m + 1])) by {
                        assert(q[m] == p[m]);
                        if m + 1 < q.len() {
                            assert(q[m + 1] == p[m + 1]);
                        }
                    }
                }
                let j = p[n - 1];
                assert(q.last() == j);
                assert(uses(ops[j], k)) by {
                    assert(0 <= p[n - 1] < ops.len());
                }
                lemma_chain_below(ops, root, q);
                assert(placed_below(ops[j], j));
                assert(reached(ops, root, j));
            }
            if exists|j: int| k < j <= root && #[trigger] reached(ops, root, j) && uses(ops[j], k) {
                let j = choose|j: int| k < j <= root && #[trigger] reached(ops, root, j) && uses(ops[j], k);
                let p = choose|p: Seq<int>| #[trigger] is_chain(ops, root, p) && p.last() == j;
                lemma_chain_push(ops, root, p, k);
                assert(p.push(k).last() == k);
            }
        }
    }
}

/// In the backward order every user of a node comes before it, and every
/// operand of a visited node is visited after it. So when a node is visited,
/// each path from the root to it has already added its share to its gradient,
/// and the gradient it passes on is complete.
pub proof fn lemma_users_first(ops: Seq<Op>, root: int)
    requires
        acyclic(ops),
        0 <= root < ops.len(),
        ops.len() <= usize::MAX,
    ensures
        forall|p: int, q: int|
            0 <= p < backward_sequence(ops, root).len() && 0 <= q < backward_sequence(ops, root).len()
                && uses(ops[#[trigger] backward_sequence(ops, root)[p] as int], #[trigger] backward_sequence(ops, root)[q] as int)
                ==> p < q,
        forall|p: int, j: int|
            0 <= p < backward_sequence(ops, root).len() && #[trigger] uses(ops[backward_sequence(ops, root)[p] as int], j)
                ==> exists|q: int| p < q < backward_sequence(ops, root).len() && #[trigger] backward_sequence(ops, root)[q] == j,
{
    let s = backward_sequence(ops, root);
    lemma_reached_from(ops, root, 0);
    lemma_reached_step(ops, root);
    assert forall|p: int, q: int|
        0 <= p < s.len() && 0 <= q < s.len() && uses(ops[#[trigger] s[p] as int], #[trigger] s[q] as int)
        implies p < q by {
        lemma_operand_reached(ops, root, s[p] as int, s[q] as int);
        if q <= p {
            if q < p {
                assert(s[q] > s[p]);
            }
        }
    }
    assert forall|p: int, j: int|
        0 <= p < s.len() && #[trigger] uses(ops[s[p] as int], j)
        implies exists|q: int| p < q < s.len() && #[trigger] s[q] == j by {
        lemma_operand_reached(ops, root, s[p] as int, j);
        assert(s.contains(j as usize));
        let q = choose|q: int| 0 <= q < s.len() && s[q] == j as usize;
        if q <= p {
            if q < p {
                assert(s[q] > s[p]);
            }
        }
        assert(p < q);
    }
}

impl Tape {
    /// The order in which a backward pass from `root` processes the nodes: each
    /// node reached from `root` exactly once, from the highest index down.
    /// Since operands precede their users, a node comes after every reached node
    /// that uses it, so its gradient is complete before it is passed on.
    pub fn backward_order(&self, root: usize) -> (r: Vec<usize>)
        requires
            self.wf(),
            root < self@.len(),
        ensures
            r@ == backward_sequence(self@, root as int),
            r.len() > 0,
            r[0] == root,
            forall|p: int| 0 <= p < r.len() ==> reached(self@, root as int, #[trigger] r[p] as int),
            forall|p: int, q: int| 0 <= p < q < r.len() ==> #[trigger] r[p] > #[trigger] r[q],
            forall|i: int|
                0 <= i < self@.len() && #[trigger] reached(self@, root as int, i) ==> r@.contains(
                    i as usize,
                ),
    {
        let ghost ops = self@;
        let ghost rt = root as int;
        let len = self.len();
        let mut mark: Vec<bool> = Vec::new();
        let mut n: usize = 0;
        while n <= root
            invariant
                n <= root + 1,
                root < len,
                rt == root,
                mark.len() == n,
                forall|k: int| 0 <= k < n ==> mark[k] == (k == rt),
            decreases root + 1 - n,
        {
            let here: bool = n == root;
            mark.push(here);
            assert(mark[n as int] == (n == rt));
            n = n + 1;
        }
        proof {
            lemma_reached_step(ops, rt);
        }
        let mut order: Vec<usize> = Vec::new();
        let mut i: usize = n;
        while i > 0
            invariant
                self@ == ops,
                self.wf(),
                root < ops.len(),
                i <= root + 1,
                mark.len() == root + 1,
                forall|k: int|
                    0 <= k < i ==> #[trigger] mark[k] == (k == rt || exists|j: int|
                        i <= j <= rt && #[trigger] reached(ops, rt, j) && uses(ops[j], k)),
                forall|k: int| #[trigger] reached(ops, rt, k) ==> 0 <= k <= rt,
                forall|k: int| 0 <= k <= rt ==> #[trigger] reached(ops, rt, k) == (k == rt || exists|j: int|
                        k < j <= rt && #[trigger] reached(ops, rt, j) && uses(ops[j], k)),
                order@ == reached_from(ops, rt, i as int),
            decreases i,
        {
            i = i - 1;
            let ghost before = mark@;
            assert(mark[i as int] == reached(ops, rt, i as int));
            if mark[i] {
                order.push(i);
                let o = self.op(i);
                assert(placed_below(ops[i as int], i as int));
                match o {
                    Op::Leaf => {},
                    Op::Add(a, b) | Op::Sub(a, b) | Op::Mul(a, b) | Op::Div(a, b) => {
                        assert(uses(o, a as int));
                        assert(uses(o, b as int));
                        mark.set(a, true);
                        mark.set(b, true);
                    },
                    Op::Pow(a) | Op::Relu(a) => {
                        assert(uses(o, a as int));
                        mark.set(a, true);
                    },
                }
            }
            assert forall|k: int| 0 <= k < i implies #[trigger] mark[k] == (k == rt || exists|j: int|
                i <= j <= rt && #[trigger] reached(ops, rt, j) && uses(ops[j], k)) by {
                if reached(ops, rt, i as int) && uses(ops[i as int], k) {
                    assert(mark[k]);
                } else {
                    assert(mark[k] == before[k]);
                    if exists|j: int| i <= j <= rt && #[trigger] reached(ops, rt, j) && uses(ops[j], k) {
                        let j = choose|j: int| i <= j <= rt && #[trigger] reached(ops, rt, j) && uses(ops[j], k);
                        assert(j != i);
                    }
                }
            }
        }
        proof {
            lemma_reached_from(ops, rt, 0);
            assert(reached(ops, rt, rt));
            let p = choose|p: int| 0 <= p < order.len() && order[p] == root;
            if p > 0 {
                assert(order[0] > order[p]);
                assert(order[0] <= root);
            }
        }
        order
    }
}

} // verus!
