use vstd::prelude::*;
use crate::graph::{Node, Op, uses, nodes_wf, op_wf};
use crate::ops::pow_value;
use crate::backward::pow_slope;
use vstd::arithmetic::div_mod::{
    lemma_add_mod_noop, lemma_mod_add_multiples_vanish, lemma_mod_sub_multiples_vanish,
    lemma_mod_twice,
};
use crate::backward::{
    reachable, lemma_used_by_reachable, propagate_into, grad_after,
    backward_grad,
};

verus! {

/// Nodes that neither reach `n` as an operand nor are reachable leave its gradient alone.
proof fn lemma_untouched(nodes: Seq<Node>, root: int, n: int, lo: int, hi: int)
    requires
        0 <= lo <= hi <= root + 1,
        forall|m: int| lo <= m < hi && #[trigger] reachable(nodes, root, m) ==> !uses(nodes[m].op, n),
    ensures
        grad_after(nodes, root, n, lo) == grad_after(nodes, root, n, hi),
    decreases hi - lo,
{
    if lo < hi {
        lemma_untouched(nodes, root, n, lo + 1, hi);
    }
}

/// Every consumer of a node has a larger handle, so a node's gradient is complete once
/// the nodes above it have pushed theirs: what `backward` leaves in `n` is what it held
/// right after node `n + 1` was processed.
pub proof fn law_gradient_settles_after_consumers(nodes: Seq<Node>, root: int, n: int)
    requires
        nodes_wf(nodes),
        0 <= n <= root < nodes.len(),
    ensures
        backward_grad(nodes, root, n) == grad_after(nodes, root, n, n + 1),
{
    assert forall|m: int| 0 <= m < n + 1 && #[trigger] reachable(nodes, root, m) implies !uses(nodes[m].op, n) by {
        assert(op_wf(nodes[m].op, m));
    }
    lemma_untouched(nodes, root, n, 0, n + 1);
}

/// Every operand of node `c` is a leaf.
pub open spec fn operands_are_leaves(nodes: Seq<Node>, c: int) -> bool {
    forall|m: int| #[trigger] uses(nodes[c].op, m) ==> 0 <= m < nodes.len() && nodes[m].op == Op::Leaf
}

/// Below a root whose operands are leaves, only those operands are reachable.
proof fn lemma_reach_depth_one(nodes: Seq<Node>, c: int, n: int)
    requires
        nodes_wf(nodes),
        0 <= n < c < nodes.len(),
        operands_are_leaves(nodes, c),
        reachable(nodes, c, n),
    ensures
        uses(nodes[c].op, n),
    decreases c - n,
{
    lemma_used_by_reachable(nodes, c, n, n + 1);
    let k = choose|k: int| n + 1 <= k <= c && #[trigger] reachable(nodes, c, k) && uses(nodes[k].op, n);
    if k < c {
        lemma_reach_depth_one(nodes, c, k);
        assert(nodes[k].op == Op::Leaf);
    }
}

/// Under a root whose operands are leaves, `backward` applies the root's rule once
/// to each operand's gradient.
proof fn lemma_depth_one(nodes: Seq<Node>, c: int, n: int)
    requires
        nodes_wf(nodes),
        0 <= n < c < nodes.len(),
        operands_are_leaves(nodes, c),
    ensures
        backward_grad(nodes, c, n) == propagate_into(nodes, c, 1, n, nodes[n].grad),
{
    assert forall|m: int| 0 <= m < c && #[trigger] reachable(nodes, c, m) implies !uses(nodes[m].op, n) by {
        lemma_reach_depth_one(nodes, c, m);
        assert(nodes[m].op == Op::Leaf);
    }
    lemma_untouched(nodes, c, n, 0, c);
    assert(reachable(nodes, c, c));
    assert(grad_after(nodes, c, n, c + 1) == nodes[n].grad);
    assert(grad_after(nodes, c, c, c + 1) == 1);
}

/// For distinct fresh leaves `a` and `b`, `backward` on `a + b` gives each gradient 1.
pub proof fn law_add_gradients(nodes: Seq<Node>, a: int, b: int, c: int)
    requires
        nodes_wf(nodes),
        nodes.len() <= usize::MAX,
        0 <= c < nodes.len(),
        nodes[c].op == Op::Add(a as usize, b as usize),
        a != b,
        0 <= a < nodes.len(),
        0 <= b < nodes.len(),
        nodes[a].op == Op::Leaf && nodes[a].grad == 0,
        nodes[b].op == Op::Leaf && nodes[b].grad == 0,
    ensures
        backward_grad(nodes, c, a) == 1,
        backward_grad(nodes, c, b) == 1,
{
    assert(op_wf(nodes[c].op, c));
    assert(operands_are_leaves(nodes, c));
    lemma_depth_one(nodes, c, a);
    lemma_depth_one(nodes, c, b);
}

/// For distinct fresh leaves `a` and `b`, `backward` on `a * b` gives `a` the value
/// of `b` as gradient, and `b` the value of `a`.
pub proof fn law_mul_gradients(nodes: Seq<Node>, a: int, b: int, c: int)
    requires
        nodes_wf(nodes),
        nodes.len() <= usize::MAX,
        0 <= c < nodes.len(),
        nodes[c].op == Op::Mul(a as usize, b as usize),
        a != b,
        0 <= a < nodes.len(),
        0 <= b < nodes.len(),
        nodes[a].op == Op::Leaf && nodes[a].grad == 0,
        nodes[b].op == Op::Leaf && nodes[b].grad == 0,
    ensures
        backward_grad(nodes, c, a) == nodes[b].value,
        backward_grad(nodes, c, b) == nodes[a].value,
{
    assert(op_wf(nodes[c].op, c));
    assert(operands_are_leaves(nodes, c));
    lemma_depth_one(nodes, c, a);
    lemma_depth_one(nodes, c, b);
    lemma_mul_one(nodes[a].value);
    lemma_mul_one(nodes[b].value);
}

proof fn lemma_mul_one(x: i64)
    ensures
        x.wrapping_mul(1) == x,
{
    let m: int = 0x1_0000_0000_0000_0000;
    if x >= 0 {
        vstd::arithmetic::div_mod::lemma_small_mod(x as nat, m as nat);
    } else {
        vstd::arithmetic::div_mod::lemma_small_mod((x + m) as nat, m as nat);
        vstd::arithmetic::div_mod::lemma_mod_add_multiples_vanish(x as int, m);
    }
}

/// A fresh leaf used twice by one addition collects gradient 2: contributions from
/// every use add up.
pub proof fn law_shared_operand(nodes: Seq<Node>, x: int, c: int)
    requires
        nodes_wf(nodes),
        nodes.len() <= usize::MAX,
        0 <= c < nodes.len(),
        nodes[c].op == Op::Add(x as usize, x as usize),
        0 <= x < nodes.len(),
        nodes[x].op == Op::Leaf && nodes[x].grad == 0,
    ensures
        backward_grad(nodes, c, x) == 2,
{
    assert(op_wf(nodes[c].op, c));
    assert(operands_are_leaves(nodes, c));
    lemma_depth_one(nodes, c, x);
}

/// Running `backward` a second time without resetting gradients, on a root whose two
/// operands are distinct fresh leaves, doubles their gradients. `after` is the graph
/// as the first `backward` left it.
pub proof fn law_second_backward_accumulates(before: Seq<Node>, after: Seq<Node>, a: int, b: int, c: int)
    requires
        nodes_wf(before),
        before.len() <= usize::MAX,
        0 <= c < before.len(),
        after.len() == before.len(),
        forall|n: int| 0 <= n < before.len() ==> {
            &&& (#[trigger] after[n]).value == before[n].value
            &&& after[n].op == before[n].op
            &&& after[n].grad == if n <= c { backward_grad(before, c, n) } else { before[n].grad }
        },
        uses(before[c].op, a),
        uses(before[c].op, b),
        a != b,
        0 <= a < before.len(),
        0 <= b < before.len(),
        before[c].op != Op::Leaf,
        forall|m: int| #[trigger] uses(before[c].op, m) ==> m == a || m == b,
        before[a].op == Op::Leaf && before[a].grad == 0,
        before[b].op == Op::Leaf && before[b].grad == 0,
    ensures
        backward_grad(after, c, a) == backward_grad(before, c, a).wrapping_add(backward_grad(before, c, a)),
        backward_grad(after, c, b) == backward_grad(before, c, b).wrapping_add(backward_grad(before, c, b)),
{
    assert(op_wf(before[c].op, c));
    assert(nodes_wf(after)) by {
        assert forall|i: int| 0 <= i < after.len() implies op_wf(#[trigger] after[i].op, i) by {
            assert(after[i].op == before[i].op);
            assert(op_wf(before[i].op, i));
        }
    }
    assert(operands_are_leaves(before, c));
    assert(operands_are_leaves(after, c));
    lemma_depth_one(before, c, a);
    lemma_depth_one(before, c, b);
    lemma_depth_one(after, c, a);
    lemma_depth_one(after, c, b);
}

/// Reachability depends on the operations alone.
proof fn lemma_reachable_same_ops(n1: Seq<Node>, n2: Seq<Node>, root: int, n: int)
    requires
        n1.len() == n2.len(),
        0 <= root < n1.len(),
        forall|i: int| 0 <= i < n1.len() ==> (#[trigger] n1[i]).op == n2[i].op,
    ensures
        reachable(n1, root, n) == reachable(n2, root, n),
    decreases root - n,
{
    if 0 <= n < root {
        lemma_used_by_reachable(n1, root, n, n + 1);
        lemma_used_by_reachable(n2, root, n, n + 1);
        assert forall|k: int| n < k <= root implies #[trigger] reachable(n1, root, k) == reachable(n2, root, k) by {
            lemma_reachable_same_ops(n1, n2, root, k);
            assert(n1[k].op == n2[k].op);
        }
        if reachable(n1, root, n) {
            let k = choose|k: int| n + 1 <= k <= root && #[trigger] reachable(n1, root, k) && uses(n1[k].op, n);
            assert(n1[k].op == n2[k].op);
            assert(n + 1 <= k <= root && reachable(n2, root, k) && uses(n2[k].op, n));
        }
        if reachable(n2, root, n) {
            let k = choose|k: int| n + 1 <= k <= root && #[trigger] reachable(n2, root, k) && uses(n2[k].op, n);
            assert(n1[k].op == n2[k].op);
            assert(n + 1 <= k <= root && reachable(n1, root, k) && uses(n1[k].op, n));
        }
    }
}

proof fn lemma_grad_after_same(n1: Seq<Node>, n2: Seq<Node>, root: int, i: int)
    requires
        nodes_wf(n1),
        n1.len() == n2.len(),
        0 <= root < n1.len(),
        0 <= i <= root + 1,
        forall|k: int| 0 <= k < n1.len() ==> (#[trigger] n1[k]).op == n2[k].op && n1[k].value == n2[k].value,
        forall|k: int| 0 <= k <= root && #[trigger] reachable(n1, root, k) ==> n1[k].grad == n2[k].grad,
    ensures
        forall|n: int| 0 <= n <= root && #[trigger] reachable(n1, root, n) ==> grad_after(n1, root, n, i) == grad_after(n2, root, n, i),
    decreases root + 1 - i,
{
    if i <= root {
        lemma_grad_after_same(n1, n2, root, i + 1);
        lemma_reachable_same_ops(n1, n2, root, i);
        assert(op_wf(n1[i].op, i));
    }
}

/// `backward` reads no stale gradient outside what the root reaches: after the reachable
/// nodes' gradients are reset to 0, it gives every reachable node the gradient it gets
/// in a fresh graph of the same operations and values.
pub proof fn law_reset_matches_fresh(used: Seq<Node>, fresh: Seq<Node>, root: int)
    requires
        nodes_wf(used),
        used.len() == fresh.len(),
        0 <= root < used.len(),
        forall|k: int| 0 <= k < used.len() ==> (#[trigger] used[k]).op == fresh[k].op && used[k].value == fresh[k].value,
        forall|k: int| 0 <= k < fresh.len() ==> (#[trigger] fresh[k]).grad == 0,
        forall|k: int| 0 <= k <= root && #[trigger] reachable(used, root, k) ==> used[k].grad == 0,
    ensures
        forall|n: int| 0 <= n <= root && #[trigger] reachable(used, root, n) ==> backward_grad(used, root, n) == backward_grad(fresh, root, n),
{
    assert forall|k: int| 0 <= k <= root && #[trigger] reachable(used, root, k) implies used[k].grad == fresh[k].grad by {
        assert(fresh[k].grad == 0);
    }
    lemma_grad_after_same(used, fresh, root, 0);
}

/// The value that an operation computes from the current values of its operands.
pub open spec fn op_value(nodes: Seq<Node>, op: Op) -> i64 {
    match op {
        Op::Leaf => 0,
        Op::Add(x, y) => nodes[x as int].value.wrapping_add(nodes[y as int].value),
        Op::Mul(x, y) => nodes[x as int].value.wrapping_mul(nodes[y as int].value),
        Op::Pow(x, y) => pow_value(nodes[x as int].value, nodes[y as int].value as int),
    }
}

/// Building the same operation twice on the same operands gives two distinct nodes
/// with the same value: nothing is shared or deduplicated.
pub proof fn law_rebuild_is_distinct(before: Seq<Node>, after: Seq<Node>, op: Op)
    requires
        op != Op::Leaf,
        op_wf(op, before.len() as int),
        after == before.push(Node { value: op_value(before, op), grad: 0, op }).push(
            Node { value: op_value(before.push(Node { value: op_value(before, op), grad: 0, op }), op), grad: 0, op },
        ),
    ensures
        after[before.len() as int].value == after[before.len() + 1int].value,
        after[before.len() as int].op == after[before.len() + 1int].op,
{
    let mid = before.push(Node { value: op_value(before, op), grad: 0, op });
    match op {
        Op::Leaf => {},
        Op::Add(x, y) => {
            assert(mid[x as int] == before[x as int] && mid[y as int] == before[y as int]);
        },
        Op::Mul(x, y) => {
            assert(mid[x as int] == before[x as int] && mid[y as int] == before[y as int]);
        },
        Op::Pow(x, y) => {
            assert(mid[x as int] == before[x as int] && mid[y as int] == before[y as int]);
        },
    }
}

/// Two's-complement gradients are exact modulo this number.
pub open spec fn wrap_modulus() -> int {
    0x1_0000_0000_0000_0000
}

/// What consumer `m`, holding gradient `gm`, owes operand `n` by the chain rule: the sum,
/// over the operand slots of `m` that hold `n`, of that slot's local partial derivative
/// times `gm`.
pub open spec fn local_term(nodes: Seq<Node>, m: int, n: int, gm: int) -> int {
    match nodes[m].op {
        Op::Leaf => 0,
        Op::Add(x, y) => (if x == n { gm } else { 0 }) + (if y == n { gm } else { 0 }),
        Op::Mul(x, y) => (if x == n { nodes[y as int].value * gm } else { 0 }) + (if y == n {
            nodes[x as int].value * gm
        } else {
            0
        }),
        Op::Pow(x, y) => if x == n {
            pow_slope(nodes[x as int].value, nodes[y as int].value) * gm
        } else {
            0
        },
    }
}

/// The chain-rule terms that the reachable consumers of `n` with handles in `lo..=root`
/// owe it, each with the gradient that `backward` leaves in that consumer.
pub open spec fn consumer_terms(nodes: Seq<Node>, root: int, n: int, lo: int) -> int
    decreases root + 1 - lo,
{
    if lo > root {
        0
    } else {
        consumer_terms(nodes, root, n, lo + 1) + if reachable(nodes, root, lo) {
            local_term(nodes, lo, n, backward_grad(nodes, root, lo) as int)
        } else {
            0
        }
    }
}

proof fn lemma_wadd_congruent(s: i64, t: i64, a: int, b: int)
    requires
        s as int % wrap_modulus() == a % wrap_modulus(),
        t as int % wrap_modulus() == b % wrap_modulus(),
    ensures
        s.wrapping_add(t) as int % wrap_modulus() == (a + b) % wrap_modulus(),
{
    let m = wrap_modulus();
    let sum = s + t;
    if sum > i64::MAX {
        lemma_mod_sub_multiples_vanish(sum, m);
    } else if sum < i64::MIN {
        lemma_mod_add_multiples_vanish(sum, m);
    }
    lemma_add_mod_noop(s as int, t as int, m);
    lemma_add_mod_noop(a, b, m);
}

proof fn lemma_wmul_congruent(x: i64, y: i64)
    ensures
        x.wrapping_mul(y) as int % wrap_modulus() == (x * y) % wrap_modulus(),
{
    let m = wrap_modulus();
    let q = (x * y) % m;
    lemma_mod_twice(x * y, m);
    if q > i64::MAX {
        lemma_mod_sub_multiples_vanish(q, m);
    }
}

proof fn lemma_propagate_congruent(nodes: Seq<Node>, i: int, gi: i64, n: int, prev: i64)
    ensures
        propagate_into(nodes, i, gi, n, prev) as int % wrap_modulus() == (prev + local_term(nodes, i, n, gi as int))
            % wrap_modulus(),
{
    match nodes[i].op {
        Op::Leaf => {},
        Op::Add(x, y) => {
            let s = if x == n { prev.wrapping_add(gi) } else { prev };
            let a: int = prev + if x == n { gi as int } else { 0 };
            if x == n {
                lemma_wadd_congruent(prev, gi, prev as int, gi as int);
            }
            if y == n {
                lemma_wadd_congruent(s, gi, a, gi as int);
            }
        },
        Op::Mul(x, y) => {
            let vx = nodes[x as int].value;
            let vy = nodes[y as int].value;
            let s = if x == n { prev.wrapping_add(vy.wrapping_mul(gi)) } else { prev };
            let a: int = prev + if x == n { vy * gi } else { 0 };
            if x == n {
                lemma_wmul_congruent(vy, gi);
                lemma_wadd_congruent(prev, vy.wrapping_mul(gi), prev as int, vy * gi);
            }
            if y == n {
                lemma_wmul_congruent(vx, gi);
                lemma_wadd_congruent(s, vx.wrapping_mul(gi), a, vx * gi);
            }
        },
        Op::Pow(x, y) => {
            if x == n {
                let slope = pow_slope(nodes[x as int].value, nodes[y as int].value);
                lemma_wmul_congruent(slope, gi);
                lemma_wadd_congruent(prev, slope.wrapping_mul(gi), prev as int, slope * gi);
            }
        },
    }
}

proof fn lemma_grad_after_congruent(nodes: Seq<Node>, root: int, n: int, i: int)
    requires
        nodes_wf(nodes),
        0 <= n < root < nodes.len(),
        n + 1 <= i <= root + 1,
    ensures
        grad_after(nodes, root, n, i) as int % wrap_modulus() == (nodes[n].grad + consumer_terms(nodes, root, n, i))
            % wrap_modulus(),
    decreases root + 1 - i,
{
    let m = wrap_modulus();
    if i <= root {
        lemma_grad_after_congruent(nodes, root, n, i + 1);
        let prev = grad_after(nodes, root, n, i + 1);
        let base = nodes[n].grad + consumer_terms(nodes, root, n, i + 1);
        if reachable(nodes, root, i) {
            law_gradient_settles_after_consumers(nodes, root, i);
            let gi = grad_after(nodes, root, i, i + 1);
            let term = local_term(nodes, i, n, gi as int);
            lemma_propagate_congruent(nodes, i, gi, n, prev);
            lemma_add_mod_noop(prev as int, term, m);
            lemma_add_mod_noop(base, term, m);
        }
    }
}

/// The chain rule: the gradient that `backward` leaves in a node below the root is the
/// gradient it held before plus, for every reachable consumer, each local partial
/// derivative times that consumer's final gradient, in two's-complement arithmetic
/// (exact modulo 2^64).
pub proof fn law_chain_rule(nodes: Seq<Node>, root: int, n: int)
    requires
        nodes_wf(nodes),
        0 <= n < root < nodes.len(),
    ensures
        backward_grad(nodes, root, n) as int % wrap_modulus() == (nodes[n].grad + consumer_terms(
            nodes,
            root,
            n,
            n + 1,
        )) % wrap_modulus(),
{
    law_gradient_settles_after_consumers(nodes, root, n);
    lemma_grad_after_congruent(nodes, root, n, n + 1);
}

} // verus!
