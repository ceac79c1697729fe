use micrograd::graph::{EngineError, Graph, Op, Value};
use micrograd::ops::pow_i64;

#[test]
fn add_backward_gives_unit_gradients() {
    let mut g = Graph::new();
    let a = Value::from(&mut g, 4);
    let b = Value::from(&mut g, -7);
    let c = a.add(&mut g, &b);
    assert_eq!(c.data(&g), -3);
    c.backward(&mut g);
    assert_eq!(a.grad(&g), 1);
    assert_eq!(b.grad(&g), 1);
    assert_eq!(c.grad(&g), 1);
}

#[test]
fn mul_backward_swaps_values() {
    let mut g = Graph::new();
    let a = Value::from(&mut g, 5);
    let b = Value::from(&mut g, -3);
    let c = a.mul(&mut g, &b);
    assert_eq!(c.data(&g), -15);
    c.backward(&mut g);
    assert_eq!(a.grad(&g), -3);
    assert_eq!(b.grad(&g), 5);
}

#[test]
fn shared_operand_accumulates() {
    let mut g = Graph::new();
    let x = Value::from(&mut g, 3);
    let y = x.add(&mut g, &x);
    assert_eq!(y.data(&g), 6);
    y.backward(&mut g);
    assert_eq!(x.grad(&g), 2);
}

#[test]
fn square_by_self_multiplication() {
    let mut g = Graph::new();
    let x = Value::from(&mut g, 7);
    let y = x.mul(&mut g, &x);
    y.backward(&mut g);
    assert_eq!(y.data(&g), 49);
    assert_eq!(x.grad(&g), 14);
}

#[test]
fn chain_rule_through_power() {
    // z = (x * y)^2 with x = 2, y = 3: dz/dx = 2 * 6 * 3, dz/dy = 2 * 6 * 2.
    let mut g = Graph::new();
    let x = Value::from(&mut g, 2);
    let y = Value::from(&mut g, 3);
    let two = Value::from(&mut g, 2);
    let p = x.mul(&mut g, &y);
    let z = p.pow(&mut g, &two).unwrap();
    assert_eq!(z.data(&g), 36);
    z.backward(&mut g);
    assert_eq!(p.grad(&g), 12);
    assert_eq!(x.grad(&g), 36);
    assert_eq!(y.grad(&g), 24);
    assert_eq!(two.grad(&g), 0);
}

#[test]
fn mixed_expression_gradients() {
    // z = x + y * x with x = 2, y = 3: dz/dx = 1 + y, dz/dy = x.
    let mut g = Graph::new();
    let x = Value::from(&mut g, 2);
    let y = Value::from(&mut g, 3);
    let yx = y.mul(&mut g, &x);
    let z = x.add(&mut g, &yx);
    assert_eq!(z.data(&g), 8);
    z.backward(&mut g);
    assert_eq!(x.grad(&g), 4);
    assert_eq!(y.grad(&g), 2);
}

#[test]
fn same_expression_twice_gives_distinct_nodes() {
    let mut g = Graph::new();
    let x = Value::from(&mut g, 2);
    let y = Value::from(&mut g, 3);
    let first = x.mul(&mut g, &y);
    let second = x.mul(&mut g, &y);
    assert_eq!(first.data(&g), second.data(&g));
    assert_ne!(first, second);
    let s = first.add(&mut g, &second);
    s.backward(&mut g);
    assert_eq!(first.grad(&g), 1);
    assert_eq!(second.grad(&g), 1);
    assert_eq!(x.grad(&g), 6);
    assert_eq!(y.grad(&g), 4);
}

#[test]
fn zero_grad_then_backward_matches_fresh_graph() {
    let mut g = Graph::new();
    let x = Value::from(&mut g, 2);
    let y = Value::from(&mut g, 3);
    let p = x.mul(&mut g, &y);
    let z = p.add(&mut g, &x);
    z.backward(&mut g);
    let (gx, gy) = (x.grad(&g), y.grad(&g));
    for v in [x, y, p, z] {
        v.zero_grad(&mut g);
    }
    z.backward(&mut g);
    assert_eq!(x.grad(&g), gx);
    assert_eq!(y.grad(&g), gy);
    assert_eq!((gx, gy), (4, 2));
}

#[test]
fn second_backward_without_reset_accumulates() {
    let mut g = Graph::new();
    let a = Value::from(&mut g, 5);
    let b = Value::from(&mut g, 9);
    let c = a.mul(&mut g, &b);
    c.backward(&mut g);
    assert_eq!((a.grad(&g), b.grad(&g)), (9, 5));
    c.backward(&mut g);
    assert_eq!((a.grad(&g), b.grad(&g)), (18, 10));
}

#[test]
fn sum_of_nothing_is_zero_leaf() {
    let mut g = Graph::new();
    let s = Value::sum(&mut g, &Vec::new());
    assert_eq!(s.data(&g), 0);
    assert_eq!(g.nodes[s.id].op, Op::Leaf);
    assert_eq!(g.len(), 1);
}

#[test]
fn sum_distributes_unit_gradient() {
    let mut g = Graph::new();
    let a = Value::from(&mut g, 1);
    let b = Value::from(&mut g, 20);
    let c = Value::from(&mut g, 300);
    let s = Value::sum(&mut g, &vec![a, b, c]);
    assert_eq!(s.data(&g), 321);
    s.backward(&mut g);
    assert_eq!(a.grad(&g), 1);
    assert_eq!(b.grad(&g), 1);
    assert_eq!(c.grad(&g), 1);
}

#[test]
fn negative_exponent_is_domain_error() {
    let mut g = Graph::new();
    let base = Value::from(&mut g, -2);
    let exp = Value::from(&mut g, -1);
    assert_eq!(base.pow(&mut g, &exp), Err(EngineError::DomainError));
    assert_eq!(g.len(), 2);
}

#[test]
fn negative_exponent_on_unit_bases() {
    let mut g = Graph::new();
    let one = Value::from(&mut g, 1);
    let minus_one = Value::from(&mut g, -1);
    let e1 = Value::from(&mut g, -1);
    let e2 = Value::from(&mut g, -2);
    let p = one.pow(&mut g, &e1).unwrap();
    assert_eq!(p.data(&g), 1);
    let q = minus_one.pow(&mut g, &e1).unwrap();
    assert_eq!(q.data(&g), -1);
    let r = minus_one.pow(&mut g, &e2).unwrap();
    assert_eq!(r.data(&g), 1);
    // d/dx x^-2 at x = -1 is -2 * (-1)^-3 = 2.
    r.backward(&mut g);
    assert_eq!(minus_one.grad(&g), 2);
    // d/dx x^-1 at x = 1 is -1.
    p.backward(&mut g);
    assert_eq!(one.grad(&g), -1);
}

#[test]
fn zero_base_negative_exponent_is_domain_error() {
    let mut g = Graph::new();
    let base = Value::from(&mut g, 0);
    let exp = Value::from(&mut g, -3);
    assert_eq!(base.pow(&mut g, &exp), Err(EngineError::DomainError));
    let big = Value::from(&mut g, 2);
    assert_eq!(big.pow(&mut g, &exp), Err(EngineError::DomainError));
    assert_eq!(g.len(), 3);
}

#[test]
fn new_nodes_have_no_label_and_keep_others() {
    let mut g = Graph::new();
    let a = Value::from(&mut g, 1).add_label(&mut g, "a");
    let b = Value::from(&mut g, 2).add_label(&mut g, "b");
    let c = a.add(&mut g, &b);
    let n = a.neg(&mut g);
    let s = Value::sum(&mut g, &vec![a, b]);
    assert_eq!(g.label(&c), &None);
    assert_eq!(g.label(&n), &None);
    assert_eq!(g.label(&s), &None);
    assert_eq!(g.label(&a).as_deref(), Some("a"));
    assert_eq!(g.label(&b).as_deref(), Some("b"));
}

#[test]
fn power_value_and_gradient() {
    let mut g = Graph::new();
    let base = Value::from(&mut g, 2);
    let exp = Value::from(&mut g, 10);
    let p = base.pow(&mut g, &exp).unwrap();
    assert_eq!(p.data(&g), 1024);
    p.backward(&mut g);
    assert_eq!(base.grad(&g), 5120);
    assert_eq!(exp.grad(&g), 0);
}

#[test]
fn negative_base_integer_power() {
    let mut g = Graph::new();
    let base = Value::from(&mut g, -3);
    let exp = Value::from(&mut g, 3);
    let p = base.pow(&mut g, &exp).unwrap();
    assert_eq!(p.data(&g), -27);
    p.backward(&mut g);
    assert_eq!(base.grad(&g), 27);
}

#[test]
fn zero_exponent_gives_one_and_no_gradient() {
    let mut g = Graph::new();
    let base = Value::from(&mut g, 12);
    let exp = Value::from(&mut g, 0);
    let p = base.pow(&mut g, &exp).unwrap();
    assert_eq!(p.data(&g), 1);
    p.backward(&mut g);
    assert_eq!(base.grad(&g), 0);
}

#[test]
fn power_by_squaring_wraps() {
    assert_eq!(pow_i64(3, 4), 81);
    assert_eq!(pow_i64(2, 63), i64::MIN);
    assert_eq!(pow_i64(2, 64), 0);
    assert_eq!(pow_i64(-1, 1_000_000_000_000_000_001), -1);
    assert_eq!(pow_i64(7, 0), 1);
}

#[test]
fn negation_multiplies_by_minus_one() {
    let mut g = Graph::new();
    let x = Value::from(&mut g, 5);
    let n = x.neg(&mut g);
    assert_eq!(n.data(&g), -5);
    assert_eq!(g.len(), 3);
    n.backward(&mut g);
    assert_eq!(x.grad(&g), -1);
}

#[test]
fn arithmetic_wraps_around() {
    let mut g = Graph::new();
    let a = Value::from(&mut g, i64::MAX);
    let b = Value::from(&mut g, 1);
    let c = a.add(&mut g, &b);
    assert_eq!(c.data(&g), i64::MIN);
    let d = a.mul(&mut g, &a);
    assert_eq!(d.data(&g), 1);
}

#[test]
fn adjust_steps_along_gradient() {
    let mut g = Graph::new();
    let a = Value::from(&mut g, 10);
    let b = Value::from(&mut g, 3);
    let c = a.mul(&mut g, &b);
    c.backward(&mut g);
    a.adjust(&mut g, -2);
    assert_eq!(a.data(&g), 4);
    assert_eq!(b.data(&g), 3);
}

#[test]
fn unreachable_nodes_keep_their_gradients() {
    let mut g = Graph::new();
    let a = Value::from(&mut g, 1);
    let b = Value::from(&mut g, 2);
    let other = a.mul(&mut g, &b);
    let c = a.add(&mut g, &a);
    c.backward(&mut g);
    assert_eq!(other.grad(&g), 0);
    assert_eq!(b.grad(&g), 0);
    assert_eq!(a.grad(&g), 2);
}

#[test]
fn label_is_recorded() {
    let mut g = Graph::new();
    let a = Value::from(&mut g, 1).add_label(&mut g, "weight");
    assert_eq!(g.label(&a).as_deref(), Some("weight"));
    let b = Value::from(&mut g, 2);
    assert_eq!(g.label(&b), &None);
}
