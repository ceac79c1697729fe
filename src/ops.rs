use vstd::prelude::*;
use crate::graph::{Graph, Node, Op, Value, EngineError};

verus! {

/// `base` raised to `exp` in wrap-around arithmetic, by repeated squaring.
pub open spec fn wpow(base: i64, exp: nat) -> i64
    decreases exp,
{
    if exp == 0 {
        1
    } else if exp % 2 == 0 {
        wpow(base.wrapping_mul(base), exp / 2)
    } else {
        base.wrapping_mul(wpow(base.wrapping_mul(base), exp / 2))
    }
}

pub fn pow_i64(base: i64, exp: u64) -> (r: i64)
    ensures
        r == wpow(base, exp as nat),
    decreases exp,
{
    if exp == 0 {
        1
    } else {
        let half = pow_i64(base.wrapping_mul(base), exp / 2);
        if exp % 2 == 0 {
            half
        } else {
            base.wrapping_mul(half)
        }
    }
}

/// An integer power has an integer value: the exponent is non-negative, or the base is 1 or -1.
pub open spec fn pow_defined(base: i64, exp: int) -> bool {
    exp >= 0 || base == 1 || base == -1
}

/// `base` raised to `exp`, where `pow_defined` holds: wrap-around repeated squaring for a
/// non-negative exponent; 1 for base 1; and for base -1, 1 or -1 by the exponent's parity.
pub open spec fn pow_value(base: i64, exp: int) -> i64 {
    if exp >= 0 {
        wpow(base, exp as nat)
    } else if base == 1 || exp % 2 == 0 {
        1
    } else {
        -1i64
    }
}

/// `base` raised to `exp` when the power has an integer value.
pub fn int_power(base: i64, exp: i128) -> (r: Option<i64>)
    requires
        i64::MIN as i128 - 1 <= exp <= i64::MAX as i128,
    ensures
        r == (if pow_defined(base, exp as int) {
            Some(pow_value(base, exp as int))
        } else {
            None::<i64>
        }),
{
    if exp >= 0 {
        Some(pow_i64(base, exp as u64))
    } else if base == 1 {
        Some(1)
    } else if base == -1 {
        let magnitude: u128 = (-exp) as u128;
        if magnitude % 2 == 0 {
            Some(1)
        } else {
            Some(-1)
        }
    } else {
        None
    }
}

/// The value of the node that `sum` builds over `vals`: a left fold of additions from 0.
pub open spec fn fold_sum(vals: Seq<i64>) -> i64
    decreases vals.len(),
{
    if vals.len() == 0 {
        0
    } else {
        fold_sum(vals.drop_last()).wrapping_add(vals.last())
    }
}

impl Value {
    /// A new leaf holding `x`.
    pub fn from(g: &mut Graph, x: i64) -> (v: Value)
        requires
            old(g).wf(),
            old(g).nodes@.len() < usize::MAX,
        ensures
            final(g).wf(),
            v.id == old(g).nodes@.len(),
            final(g).labels@ == old(g).labels@.push(None),
            final(g).nodes@ == old(g).nodes@.push(Node { value: x, grad: 0, op: Op::Leaf }),
    {
        g.push_node(x, Op::Leaf)
    }

    /// `self + other`.
    pub fn add(&self, g: &mut Graph, other: &Value) -> (v: Value)
        requires
            old(g).wf(),
            old(g).nodes@.len() < usize::MAX,
            self.id < old(g).nodes@.len(),
            other.id < old(g).nodes@.len(),
        ensures
            final(g).wf(),
            v.id == old(g).nodes@.len(),
            final(g).labels@ == old(g).labels@.push(None),
            final(g).nodes@ == old(g).nodes@.push(
                Node {
                    value: old(g).nodes@[self.id as int].value.wrapping_add(
                        old(g).nodes@[other.id as int].value,
                    ),
                    grad: 0,
                    op: Op::Add(self.id, other.id),
                },
            ),
    {
        let value = g.nodes[self.id].value.wrapping_add(g.nodes[other.id].value);
        g.push_node(value, Op::Add(self.id, other.id))
    }

    /// `self * other`.
    pub fn mul(&self, g: &mut Graph, other: &Value) -> (v: Value)
        requires
            old(g).wf(),
            old(g).nodes@.len() < usize::MAX,
            self.id < old(g).nodes@.len(),
            other.id < old(g).nodes@.len(),
        ensures
            final(g).wf(),
            v.id == old(g).nodes@.len(),
            final(g).labels@ == old(g).labels@.push(None),
            final(g).nodes@ == old(g).nodes@.push(
                Node {
                    value: old(g).nodes@[self.id as int].value.wrapping_mul(
                        old(g).nodes@[other.id as int].value,
                    ),
                    grad: 0,
                    op: Op::Mul(self.id, other.id),
                },
            ),
    {
        let value = g.nodes[self.id].value.wrapping_mul(g.nodes[other.id].value);
        g.push_node(value, Op::Mul(self.id, other.id))
    }

    /// `-self`, built as `self * (-1)` with a fresh leaf for the constant.
    pub fn neg(&self, g: &mut Graph) -> (v: Value)
        requires
            old(g).wf(),
            old(g).nodes@.len() + 1 < usize::MAX,
            self.id < old(g).nodes@.len(),
        ensures
            final(g).wf(),
            v.id == old(g).nodes@.len() + 1,
            final(g).labels@ == old(g).labels@.push(None).push(None),
            final(g).nodes@ == old(g).nodes@.push(
                Node { value: -1i64, grad: 0, op: Op::Leaf },
            ).push(
                Node {
                    value: old(g).nodes@[self.id as int].value.wrapping_mul(-1i64),
                    grad: 0,
                    op: Op::Mul(self.id, (v.id - 1) as usize),
                },
            ),
    {
        let minus_one = Value::from(g, -1);
        self.mul(g, &minus_one)
    }

    /// `self` raised to `other`. Only the base receives gradient; the exponent is
    /// treated as a constant. A power without an integer value (a negative exponent on a
    /// base other than 1 and -1) is a domain error and adds nothing.
    pub fn pow(&self, g: &mut Graph, other: &Value) -> (r: Result<Value, EngineError>)
        requires
            old(g).wf(),
            old(g).nodes@.len() < usize::MAX,
            self.id < old(g).nodes@.len(),
            other.id < old(g).nodes@.len(),
        ensures
            final(g).wf(),
            !pow_defined(old(g).nodes@[self.id as int].value, old(g).nodes@[other.id as int].value as int)
                <==> r == Err::<Value, EngineError>(EngineError::DomainError),
            !pow_defined(old(g).nodes@[self.id as int].value, old(g).nodes@[other.id as int].value as int)
                ==> final(g).nodes@ == old(g).nodes@ && final(g).labels@ == old(g).labels@,
            pow_defined(old(g).nodes@[self.id as int].value, old(g).nodes@[other.id as int].value as int)
                ==> r == Ok::<Value, EngineError>(Value { id: old(g).nodes@.len() as usize })
                && final(g).labels@ == old(g).labels@.push(None)
                && final(g).nodes@ == old(g).nodes@.push(
                Node {
                    value: pow_value(
                        old(g).nodes@[self.id as int].value,
                        old(g).nodes@[other.id as int].value as int,
                    ),
                    grad: 0,
                    op: Op::Pow(self.id, other.id),
                },
            ),
    {
        match int_power(g.nodes[self.id].value, g.nodes[other.id].value as i128) {
            None => Err(EngineError::DomainError),
            Some(value) => Ok(g.push_node(value, Op::Pow(self.id, other.id))),
        }
    }

    /// The sum of `items`: a leaf 0 followed by one addition per item, in order.
    pub fn sum(g: &mut Graph, items: &Vec<Value>) -> (v: Value)
        requires
            old(g).wf(),
            old(g).nodes@.len() + items@.len() < usize::MAX,
            forall|k: int| 0 <= k < items@.len() ==> #[trigger] items@[k].id < old(g).nodes@.len(),
        ensures
            final(g).wf(),
            v.id == old(g).nodes@.len() + items@.len(),
            final(g).nodes@.len() == v.id + 1,
            final(g).nodes@.subrange(0, old(g).nodes@.len() as int) == old(g).nodes@,
            final(g).labels@ == old(g).labels@ + Seq::new((items@.len() + 1) as nat, |k: int| None::<String>),
            final(g).nodes@[old(g).nodes@.len() as int] == (Node { value: 0, grad: 0, op: Op::Leaf }),
            forall|k: int|
                0 <= k < items@.len() ==> #[trigger] final(g).nodes@[old(g).nodes@.len() + k + 1]
                    == (Node {
                    value: fold_sum(
                        items@.subrange(0, k + 1).map_values(|it: Value| old(g).nodes@[it.id as int].value),
                    ),
                    grad: 0,
                    op: Op::Add((old(g).nodes@.len() + k) as usize, items@[k].id),
                }),
    {
        let ghost g0 = g.nodes@;
        let ghost l0 = g.labels@;
        let ghost n0 = g.nodes@.len();
        let mut acc = Value::from(g, 0);
        assert(g.labels@ =~= l0 + Seq::new(1, |j: int| None::<String>));
        let mut k: usize = 0;
        while k < items.len()
            invariant
                g.wf(),
                0 <= k <= items@.len(),
                n0 + items@.len() < usize::MAX,
                forall|j: int| 0 <= j < items@.len() ==> #[trigger] items@[j].id < n0,
                acc.id == n0 + k,
                g.labels@ == l0 + Seq::new((k + 1) as nat, |j: int| None::<String>),
                g.nodes@.len() == n0 + k + 1,
                g.nodes@.subrange(0, n0 as int) == g0,
                g.nodes@[n0 as int] == (Node { value: 0, grad: 0, op: Op::Leaf }),
                g.nodes@[acc.id as int].value == fold_sum(
                    items@.subrange(0, k as int).map_values(|it: Value| g0[it.id as int].value),
                ),
                forall|j: int|
                    0 <= j < k ==> #[trigger] g.nodes@[n0 + j + 1] == (Node {
                        value: fold_sum(
                            items@.subrange(0, j + 1).map_values(|it: Value| g0[it.id as int].value),
                        ),
                        grad: 0,
                        op: Op::Add((n0 + j) as usize, items@[j].id),
                    }),
            decreases items@.len() - k,
        {
            let item = items[k];
            proof {
                assert(g.nodes@[item.id as int] == g.nodes@.subrange(0, n0 as int)[item.id as int]);
                let s = items@.subrange(0, k + 1).map_values(|it: Value| g0[it.id as int].value);
                assert(s.drop_last() =~= items@.subrange(0, k as int).map_values(|it: Value| g0[it.id as int].value));
            }
            let ghost prev = g.nodes@;
            acc = acc.add(g, &item);
            proof {
                assert forall|j: int| 0 <= j < n0 implies #[trigger] g.nodes@[j] == g0[j] by {
                    assert(g0[j] == prev.subrange(0, n0 as int)[j]);
                }
                assert(g.nodes@.subrange(0, n0 as int) =~= g0);
                assert(g.labels@ =~= l0 + Seq::new((k + 2) as nat, |j: int| None::<String>));
            }
            k = k + 1;
        }
        acc
    }
}

} // verus!
