use vstd::prelude::*;
use crate::graph::{Graph, Node, Op, Value, uses};
use crate::ops::{pow_defined, pow_value, int_power};

verus! {

/// Node `n` can be reached from `root` by following operand links.
pub open spec fn reachable(nodes: Seq<Node>, root: int, n: int) -> bool
    decreases root - n, root + 2 - n,
{
    if n < 0 || n > root {
        false
    } else if n == root {
        true
    } else {
        used_by_reachable(nodes, root, n, n + 1)
    }
}

/// Some node with index in `m..=root` that is reachable from `root` takes `n` as an operand.
pub open spec fn used_by_reachable(nodes: Seq<Node>, root: int, n: int, m: int) -> bool
    decreases root - n, root + 1 - m,
{
    if n < 0 || n >= m || m > root {
        false
    } else {
        (reachable(nodes, root, m) && uses(nodes[m].op, n)) || used_by_reachable(nodes, root, n, m + 1)
    }
}

pub proof fn lemma_used_by_reachable(nodes: Seq<Node>, root: int, n: int, m: int)
    requires
        0 <= n < m <= root + 1,
    ensures
        used_by_reachable(nodes, root, n, m) <==> exists|k: int|
            m <= k <= root && #[trigger] reachable(nodes, root, k) && uses(nodes[k].op, n),
    decreases root + 1 - m,
{
    if m <= root {
        lemma_used_by_reachable(nodes, root, n, m + 1);
        if reachable(nodes, root, m) && uses(nodes[m].op, n) {
            assert(m <= m <= root && reachable(nodes, root, m) && uses(nodes[m].op, n));
        }
        if used_by_reachable(nodes, root, n, m + 1) {
            let k = choose|k: int| m + 1 <= k <= root && #[trigger] reachable(nodes, root, k) && uses(nodes[k].op, n);
            assert(m <= k <= root && reachable(nodes, root, k) && uses(nodes[k].op, n));
        }
        if exists|k: int| m <= k <= root && #[trigger] reachable(nodes, root, k) && uses(nodes[k].op, n) {
            let k = choose|k: int| m <= k <= root && #[trigger] reachable(nodes, root, k) && uses(nodes[k].op, n);
            if k > m {
                assert(m + 1 <= k <= root && reachable(nodes, root, k) && uses(nodes[k].op, n));
            }
        }
    }
}

/// The local derivative of `base ^ exp` with respect to `base`: `exp * base ^ (exp - 1)`.
/// It is 0 for exponent 0, and also where `base ^ (exp - 1)` has no integer value.
pub open spec fn pow_slope(base: i64, exp: i64) -> i64 {
    if exp != 0 && pow_defined(base, exp - 1) {
        exp.wrapping_mul(pow_value(base, exp - 1))
    } else {
        0
    }
}

/// What node `i`, holding gradient `gi`, adds into the gradient `prev` of node `n`,
/// taking its operands in order.
pub open spec fn propagate_into(nodes: Seq<Node>, i: int, gi: i64, n: int, prev: i64) -> i64 {
    match nodes[i].op {
        Op::Leaf => prev,
        Op::Add(x, y) => {
            let s = if x == n { prev.wrapping_add(gi) } else { prev };
            if y == n { s.wrapping_add(gi) } else { s }
        },
        Op::Mul(x, y) => {
            let s = if x == n { prev.wrapping_add(nodes[y as int].value.wrapping_mul(gi)) } else { prev };
            if y == n { s.wrapping_add(nodes[x as int].value.wrapping_mul(gi)) } else { s }
        },
        Op::Pow(x, y) => {
            if x == n {
                prev.wrapping_add(
                    pow_slope(nodes[x as int].value, nodes[y as int].value).wrapping_mul(gi),
                )
            } else {
                prev
            }
        },
    }
}

/// The gradient of node `n` once every reachable node with index at least `i` has
/// pushed its gradient to its operands, starting from the seed 1 at `root`.
///
/// This is the multivariate chain rule taken one consumer at a time: each reachable
/// consumer of `n`, from the highest handle down, adds its local partial derivative
/// times its own (by then complete) gradient to what `n` held before.
pub open spec fn grad_after(nodes: Seq<Node>, root: int, n: int, i: int) -> i64
    decreases root + 1 - i,
{
    if i > root {
        if n == root { 1 } else { nodes[n].grad }
    } else {
        let prev = grad_after(nodes, root, n, i + 1);
        if reachable(nodes, root, i) {
            propagate_into(nodes, i, grad_after(nodes, root, i, i + 1), n, prev)
        } else {
            prev
        }
    }
}

/// The gradient that `backward` from `root` leaves in node `n`.
pub open spec fn backward_grad(nodes: Seq<Node>, root: int, n: int) -> i64 {
    grad_after(nodes, root, n, 0)
}

impl Value {
    /// Seeds `self` with gradient 1 and pushes gradients to every node reachable from
    /// it, each node after all of its consumers. Gradients accumulate into what the
    /// nodes already held.
    pub fn backward(&self, g: &mut Graph)
        requires
            old(g).wf(),
            self.id < old(g).nodes@.len(),
        ensures
            final(g).wf(),
            final(g).labels@ == old(g).labels@,
            final(g).nodes@.len() == old(g).nodes@.len(),
            forall|n: int|
                0 <= n < old(g).nodes@.len() ==> {
                    &&& (#[trigger] final(g).nodes@[n]).value == old(g).nodes@[n].value
                    &&& final(g).nodes@[n].op == old(g).nodes@[n].op
                    &&& final(g).nodes@[n].grad == if n <= self.id {
                        backward_grad(old(g).nodes@, self.id as int, n)
                    } else {
                        old(g).nodes@[n].grad
                    }
                },
    {
        let ghost g0 = g.nodes@;
        let ghost root = self.id as int;
        let len = g.nodes.len();
        // visited[n]: node n is known to be reachable from the root, keyed by handle.
        let mut visited: Vec<bool> = Vec::new();
        let mut j: usize = 0;
        while j <= self.id
            invariant
                j <= self.id + 1,
                self.id < g.nodes@.len(),
                len == g.nodes@.len(),
                visited@.len() == j,
                forall|k: int| 0 <= k < j ==> !#[trigger] visited@[k],
            decreases self.id + 1 - j,
        {
            visited.push(false);
            j = j + 1;
        }
        visited.set(self.id, true);
        let mut root_node = g.nodes[self.id];
        root_node.grad = 1;
        g.nodes.set(self.id, root_node);
        // Handles increase along operand links, so walking down from the root visits
        // every node after all of its consumers.
        let mut i: usize = self.id + 1;
        while i > 0
            invariant
                g.wf(),
                g.labels@ == old(g).labels@,
                g0 == old(g).nodes@,
                root == self.id,
                i <= self.id + 1,
                self.id < g.nodes@.len(),
                g.nodes@.len() == g0.len(),
                visited@.len() == self.id + 1,
                forall|n: int|
                    0 <= n < g0.len() ==> {
                        &&& (#[trigger] g.nodes@[n]).value == g0[n].value
                        &&& g.nodes@[n].op == g0[n].op
                        &&& g.nodes@[n].grad == if n <= root {
                            grad_after(g0, root, n, i as int)
                        } else {
                            g0[n].grad
                        }
                    },
                forall|n: int| 0 <= n < i ==> (#[trigger] visited@[n] <==> (
                    n == root || exists|m: int| i <= m <= root && #[trigger] reachable(g0, root, m) && uses(g0[m].op, n))),
            decreases i,
        {
            i = i - 1;
            proof {
                if i < root {
                    lemma_used_by_reachable(g0, root, i as int, i + 1);
                }
            }
            assert(visited@[i as int] == reachable(g0, root, i as int));
            if visited[i] {
                let node = g.nodes[i];
                let gi = node.grad;
                match node.op {
                    Op::Leaf => {},
                    Op::Add(x, y) => {
                        let mut nx = g.nodes[x];
                        nx.grad = nx.grad.wrapping_add(gi);
                        g.nodes.set(x, nx);
                        let mut ny = g.nodes[y];
                        ny.grad = ny.grad.wrapping_add(gi);
                        g.nodes.set(y, ny);
                        visited.set(x, true);
                        visited.set(y, true);
                    },
                    Op::Mul(x, y) => {
                        let vx = g.nodes[x].value;
                        let vy = g.nodes[y].value;
                        let mut nx = g.nodes[x];
                        nx.grad = nx.grad.wrapping_add(vy.wrapping_mul(gi));
                        g.nodes.set(x, nx);
                        let mut ny = g.nodes[y];
                        ny.grad = ny.grad.wrapping_add(vx.wrapping_mul(gi));
                        g.nodes.set(y, ny);
                        visited.set(x, true);
                        visited.set(y, true);
                    },
                    Op::Pow(x, y) => {
                        let vx = g.nodes[x].value;
                        let vy = g.nodes[y].value;
                        let slope = if vy == 0 {
                            0
                        } else {
                            match int_power(vx, vy as i128 - 1) {
                                Some(p) => vy.wrapping_mul(p),
                                None => 0,
                            }
                        };
                        let mut nx = g.nodes[x];
                        nx.grad = nx.grad.wrapping_add(slope.wrapping_mul(gi));
                        g.nodes.set(x, nx);
                        visited.set(x, true);
                        visited.set(y, true);
                    },
                }
            }
        }
    }
}

} // verus!
