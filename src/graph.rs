use vstd::prelude::*;

verus! {

/// The operation that produced a node, with the handles of its operands in order.
#[derive(Clone, Copy, PartialEq, Eq, Debug, Structural)]
pub enum Op {
    Leaf,
    Add(usize, usize),
    Mul(usize, usize),
    Pow(usize, usize),
}

/// One vertex of the computation graph.
#[derive(Clone, Copy, Debug)]
pub struct Node {
    pub value: i64,
    pub grad: i64,
    pub op: Op,
}

/// A handle to a node of a `Graph`; two handles are the same vertex exactly when
/// their indices are equal.
#[derive(Clone, Copy, PartialEq, Eq, Debug, Structural)]
pub struct Value {
    pub id: usize,
}

/// Errors raised while building a graph.
#[derive(Clone, Copy, PartialEq, Eq, Debug, Structural)]
pub enum EngineError {
    /// An operation whose result has no integer value (a negative exponent on a base other than 1 and -1).
    DomainError,
}

/// Whether node operation `op` takes `n` as one of its operands.
pub open spec fn uses(op: Op, n: int) -> bool {
    match op {
        Op::Leaf => false,
        Op::Add(x, y) => x == n || y == n,
        Op::Mul(x, y) => x == n || y == n,
        Op::Pow(x, y) => x == n || y == n,
    }
}

/// Every operand of node `i` is an earlier node.
pub open spec fn op_wf(op: Op, i: int) -> bool {
    match op {
        Op::Leaf => true,
        Op::Add(x, y) => x < i && y < i,
        Op::Mul(x, y) => x < i && y < i,
        Op::Pow(x, y) => x < i && y < i,
    }
}

pub open spec fn nodes_wf(nodes: Seq<Node>) -> bool {
    forall|i: int| 0 <= i < nodes.len() ==> op_wf(#[trigger] nodes[i].op, i)
}

/// The arena that owns every node.
pub struct Graph {
    pub nodes: Vec<Node>,
    pub labels: Vec<Option<String>>,
}

impl Graph {
    pub open spec fn wf(&self) -> bool {
        &&& nodes_wf(self.nodes@)
        &&& self.labels@.len() == self.nodes@.len()
    }

    pub fn new() -> (g: Graph)
        ensures
            g.wf(),
            g.nodes@.len() == 0,
    {
        Graph { nodes: Vec::new(), labels: Vec::new() }
    }

    pub fn len(&self) -> (r: usize)
        ensures
            r == self.nodes@.len(),
    {
        self.nodes.len()
    }

    /// The diagnostic name of a node, if it has one.
    pub fn label(&self, v: &Value) -> (r: &Option<String>)
        requires
            self.wf(),
            v.id < self.nodes@.len(),
        ensures
            *r == self.labels@[v.id as int],
    {
        &self.labels[v.id]
    }

    /// Appends a node with zero gradient and no label.
    pub(crate) fn push_node(&mut self, value: i64, op: Op) -> (v: Value)
        requires
            old(self).wf(),
            op_wf(op, old(self).nodes@.len() as int),
            old(self).nodes@.len() < usize::MAX,
        ensures
            final(self).wf(),
            v.id == old(self).nodes@.len(),
            final(self).labels@ == old(self).labels@.push(None),
            final(self).nodes@ == old(self).nodes@.push(Node { value, grad: 0, op }),
    {
        let id = self.nodes.len();
        self.nodes.push(Node { value, grad: 0, op });
        self.labels.push(None);
        proof {
            assert forall|i: int| 0 <= i < self.nodes@.len() implies op_wf(
                #[trigger] self.nodes@[i].op,
                i,
            ) by {
                if i < id {
                    assert(self.nodes@[i] == old(self).nodes@[i]);
                }
            }
        }
        Value { id }
    }
}

impl Value {
    /// The node's current value.
    pub fn data(&self, g: &Graph) -> (r: i64)
        requires
            self.id < g.nodes@.len(),
        ensures
            r == g.nodes@[self.id as int].value,
    {
        g.nodes[self.id].value
    }

    /// The node's current gradient.
    pub fn grad(&self, g: &Graph) -> (r: i64)
        requires
            self.id < g.nodes@.len(),
        ensures
            r == g.nodes@[self.id as int].grad,
    {
        g.nodes[self.id].grad
    }

    /// Resets the node's gradient to 0.
    pub fn zero_grad(&self, g: &mut Graph)
        requires
            old(g).wf(),
            self.id < old(g).nodes@.len(),
        ensures
            final(g).wf(),
            final(g).labels@ == old(g).labels@,
            final(g).nodes@ == old(g).nodes@.update(
                self.id as int,
                Node { grad: 0, ..old(g).nodes@[self.id as int] },
            ),
    {
        let mut node = g.nodes[self.id];
        node.grad = 0;
        g.nodes.set(self.id, node);
        proof {
            assert forall|i: int| 0 <= i < g.nodes@.len() implies op_wf(#[trigger] g.nodes@[i].op, i) by {
                assert(g.nodes@[i].op == old(g).nodes@[i].op);
            }
        }
    }

    /// A gradient-descent step: the value moves by `step` times the gradient.
    pub fn adjust(&self, g: &mut Graph, step: i64)
        requires
            old(g).wf(),
            self.id < old(g).nodes@.len(),
        ensures
            final(g).wf(),
            final(g).labels@ == old(g).labels@,
            final(g).nodes@ == old(g).nodes@.update(
                self.id as int,
                Node {
                    value: old(g).nodes@[self.id as int].value.wrapping_add(
                        step.wrapping_mul(old(g).nodes@[self.id as int].grad),
                    ),
                    ..old(g).nodes@[self.id as int]
                },
            ),
    {
        let mut node = g.nodes[self.id];
        node.value = node.value.wrapping_add(step.wrapping_mul(node.grad));
        g.nodes.set(self.id, node);
        proof {
            assert forall|i: int| 0 <= i < g.nodes@.len() implies op_wf(#[trigger] g.nodes@[i].op, i) by {
                assert(g.nodes@[i].op == old(g).nodes@[i].op);
            }
        }
    }

    /// Gives the node a diagnostic name and hands the handle back.
    pub fn add_label(self, g: &mut Graph, label: &str) -> (v: Value)
        requires
            old(g).wf(),
            self.id < old(g).nodes@.len(),
        ensures
            final(g).wf(),
            v == self,
            final(g).nodes@ == old(g).nodes@,
            final(g).labels@.len() == old(g).labels@.len(),
            final(g).labels@[self.id as int] matches Some(s) && s@ == label@,
            forall|i: int| 0 <= i < old(g).labels@.len() && i != self.id ==> #[trigger] final(g).labels@[i] == old(g).labels@[i],
    {
        proof {
            broadcast use vstd::string::to_string_from_display_ensures_for_str;
        }
        let name = label.to_string();
        g.labels.set(self.id, Some(name));
        self
    }
}

} // verus!
