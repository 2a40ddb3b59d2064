//! The structure of graphs, the topological order and the schedule of a
//! backward pass. Values play no part here, so every node holds zero.

use rustgrad::{
    add, backward, div, exp, mul, neg, pow, relu, sub, topo_sort, val, zero_grad, Graph, Op, Rule,
    Scalar, Step, ValueRef,
};

fn nil() -> Scalar {
    Scalar::zero()
}

fn position(order: &[ValueRef], v: ValueRef) -> usize {
    order.iter().position(|&x| x == v).unwrap()
}

fn occurrences(order: &[ValueRef], v: ValueRef) -> usize {
    order.iter().filter(|&&x| x == v).count()
}

#[test]
fn constants_are_the_bit_patterns_of_their_numbers() {
    assert_eq!(f64::from_bits(Scalar::zero().to_bits()), 0.0);
    assert!(f64::from_bits(Scalar::zero().to_bits()).is_sign_positive());
    assert_eq!(f64::from_bits(Scalar::one().to_bits()), 1.0);
    assert_eq!(f64::from_bits(Scalar::minus_one().to_bits()), -1.0);
    assert_eq!(Scalar::from_bits(2.5_f64.to_bits()).to_bits(), 2.5_f64.to_bits());
    assert_eq!(Scalar::from_bits(7).bits, 7);
}

#[test]
fn new_graph_is_empty() {
    let g = Graph::new();
    assert_eq!(g.len(), 0);
}

#[test]
fn leaf_has_no_operator_and_no_operands() {
    let mut g = Graph::new();
    let x = val(&mut g, Scalar::from_bits(2.0_f64.to_bits()));
    assert_eq!(x, 0);
    assert_eq!(g.len(), 1);
    let node = g.node(x);
    assert_eq!(node.data, Scalar::from_bits(2.0_f64.to_bits()));
    assert_eq!(node.grad, Scalar::zero());
    assert!(node.op.is_none());
    assert!(node.parents.is_empty());
}

#[test]
fn builders_tag_and_keep_operand_order() {
    let mut g = Graph::new();
    let a = val(&mut g, nil());
    let b = val(&mut g, nil());
    let five = Scalar::from_bits(5.0_f64.to_bits());

    let s = add(&mut g, b, a, five);
    assert_eq!(g.node(s).op, Some(Op::Add));
    assert_eq!(g.node(s).parents, vec![b, a]);
    assert_eq!(g.node(s).data, five);
    assert_eq!(g.node(s).grad, Scalar::zero());

    let m = mul(&mut g, a, s, five);
    assert_eq!(g.node(m).op, Some(Op::Mul));
    assert_eq!(g.node(m).parents, vec![a, s]);

    let r = relu(&mut g, m, five);
    assert_eq!(g.node(r).op, Some(Op::ReLU));
    assert_eq!(g.node(r).parents, vec![m]);

    let e = exp(&mut g, r, five);
    assert_eq!(g.node(e).op, Some(Op::Exp));
    assert_eq!(g.node(e).parents, vec![r]);

    let p = pow(&mut g, e, Scalar::from_bits(3.0_f64.to_bits()), five);
    assert_eq!(g.node(p).op, Some(Op::Pow(Scalar::from_bits(3.0_f64.to_bits()))));
    assert_eq!(g.node(p).parents, vec![e]);
    assert_eq!(g.node(p).data, five);

    assert_eq!(g.len(), 7);
    assert_eq!(g.node(a).parents, Vec::<ValueRef>::new());
    assert!(g.node(a).op.is_none());
}

#[test]
fn negation_multiplies_by_a_new_leaf() {
    let mut g = Graph::new();
    let a = val(&mut g, Scalar::from_bits(4.0_f64.to_bits()));
    let value = Scalar::from_bits((-4.0_f64).to_bits());
    let n = neg(&mut g, a, value);

    assert_eq!(g.len(), 3);
    assert_eq!(g.node(n).op, Some(Op::Mul));
    assert_eq!(g.node(n).data, value);
    let operands = g.node(n).parents.clone();
    assert_eq!(operands.len(), 2);
    assert_eq!(operands[0], a);
    let constant = g.node(operands[1]);
    assert!(constant.op.is_none());
    assert_eq!(constant.data, Scalar::minus_one());
    assert_eq!(f64::from_bits(constant.data.to_bits()), -1.0);
}

#[test]
fn difference_adds_the_negation() {
    let mut g = Graph::new();
    let a = val(&mut g, nil());
    let b = val(&mut g, nil());
    let minus_b = Scalar::from_bits(1);
    let value = Scalar::from_bits(2);
    let d = sub(&mut g, a, b, minus_b, value);

    assert_eq!(g.len(), 5);
    assert_eq!(g.node(d).op, Some(Op::Add));
    assert_eq!(g.node(d).data, value);
    let operands = g.node(d).parents.clone();
    assert_eq!(operands[0], a);
    let n = operands[1];
    assert_eq!(g.node(n).op, Some(Op::Mul));
    assert_eq!(g.node(n).data, minus_b);
    assert_eq!(g.node(n).parents[0], b);
    assert_eq!(g.node(g.node(n).parents[1]).data, Scalar::minus_one());
}

#[test]
fn quotient_multiplies_by_the_reciprocal() {
    let mut g = Graph::new();
    let a = val(&mut g, nil());
    let b = val(&mut g, nil());
    let reciprocal = Scalar::from_bits(1);
    let value = Scalar::from_bits(2);
    let q = div(&mut g, a, b, reciprocal, value);

    assert_eq!(g.len(), 4);
    assert_eq!(g.node(q).op, Some(Op::Mul));
    assert_eq!(g.node(q).data, value);
    let operands = g.node(q).parents.clone();
    assert_eq!(operands[0], a);
    let r = operands[1];
    assert_eq!(g.node(r).op, Some(Op::Pow(Scalar::minus_one())));
    assert_eq!(g.node(r).data, reciprocal);
    assert_eq!(g.node(r).parents, vec![b]);
}

#[test]
fn set_grad_changes_one_gradient() {
    let mut g = Graph::new();
    let a = val(&mut g, Scalar::from_bits(11));
    let b = val(&mut g, Scalar::from_bits(12));
    g.set_grad(a, Scalar::from_bits(99));
    assert_eq!(g.node(a).grad, Scalar::from_bits(99));
    assert_eq!(g.node(a).data, Scalar::from_bits(11));
    assert_eq!(g.node(b).grad, Scalar::zero());
    assert_eq!(g.node(b).data, Scalar::from_bits(12));
}

#[test]
fn order_of_a_leaf_is_the_leaf() {
    let mut g = Graph::new();
    let x = val(&mut g, nil());
    assert_eq!(topo_sort(&g, x), vec![x]);
}

#[test]
fn order_is_depth_first_postorder() {
    let mut g = Graph::new();
    let x = val(&mut g, nil());
    let y = val(&mut g, nil());
    let z = add(&mut g, x, y, nil());
    let w = mul(&mut g, z, x, nil());
    assert_eq!(topo_sort(&g, w), vec![x, y, z, w]);

    let v = mul(&mut g, y, z, nil());
    assert_eq!(topo_sort(&g, v), vec![y, x, z, v]);
}

#[test]
fn order_holds_only_what_the_root_reaches() {
    let mut g = Graph::new();
    let x = val(&mut g, nil());
    let y = val(&mut g, nil());
    let z = add(&mut g, x, y, nil());
    let unused = val(&mut g, nil());
    let w = exp(&mut g, unused, nil());
    assert_eq!(topo_sort(&g, z), vec![x, y, z]);
    assert_eq!(topo_sort(&g, w), vec![unused, w]);
    assert_eq!(topo_sort(&g, y), vec![y]);
}

#[test]
fn every_node_follows_its_operands() {
    let mut g = Graph::new();
    let a = val(&mut g, nil());
    let b = val(&mut g, nil());
    let c = mul(&mut g, b, a, nil());
    let d = add(&mut g, c, a, nil());
    let e = relu(&mut g, d, nil());
    let f = mul(&mut g, e, c, nil());
    let root = add(&mut g, f, d, nil());

    let order = topo_sort(&g, root);

    assert_eq!(*order.last().unwrap(), root);
    for (i, &node) in order.iter().enumerate() {
        for &operand in g.node(node).parents.iter() {
            assert!(position(&order, operand) < i);
        }
    }
}

#[test]
fn shared_node_is_visited_once() {
    let mut g = Graph::new();
    let x = val(&mut g, nil());
    let left = exp(&mut g, x, nil());
    let right = relu(&mut g, x, nil());
    let root = add(&mut g, left, right, nil());
    let twice = mul(&mut g, root, root, nil());

    let order = topo_sort(&g, twice);

    assert_eq!(order, vec![x, left, right, root, twice]);
    for v in [x, left, right, root, twice] {
        assert_eq!(occurrences(&order, v), 1);
    }
}

#[test]
fn backward_rule_of_each_operator() {
    let e = Scalar::from_bits(3.0_f64.to_bits());
    assert_eq!(
        Op::Add.apply_backward(9, &vec![4, 5]),
        vec![
            Step { target: 4, source: 9, rule: Rule::PassThrough },
            Step { target: 5, source: 9, rule: Rule::PassThrough },
        ]
    );
    assert_eq!(
        Op::Mul.apply_backward(9, &vec![4, 5]),
        vec![
            Step { target: 4, source: 9, rule: Rule::ScaleBy(5) },
            Step { target: 5, source: 9, rule: Rule::ScaleBy(4) },
        ]
    );
    assert_eq!(
        Op::Exp.apply_backward(9, &vec![4]),
        vec![Step { target: 4, source: 9, rule: Rule::ScaleBy(9) }]
    );
    assert_eq!(
        Op::Pow(e).apply_backward(9, &vec![4]),
        vec![Step { target: 4, source: 9, rule: Rule::PowerOf { base: 4, exponent: e } }]
    );
    assert_eq!(
        Op::ReLU.apply_backward(9, &vec![4]),
        vec![Step { target: 4, source: 9, rule: Rule::GateOn(9) }]
    );
}

#[test]
fn schedule_walks_the_order_from_the_root_down() {
    let mut g = Graph::new();
    let x = val(&mut g, nil());
    let y = val(&mut g, nil());
    let q = add(&mut g, x, y, nil());
    let z = mul(&mut g, q, y, nil());

    let steps = backward(&mut g, z);

    assert_eq!(
        steps,
        vec![
            Step { target: q, source: z, rule: Rule::ScaleBy(y) },
            Step { target: y, source: z, rule: Rule::ScaleBy(q) },
            Step { target: x, source: q, rule: Rule::PassThrough },
            Step { target: y, source: q, rule: Rule::PassThrough },
        ]
    );
    assert_eq!(g.node(z).grad, Scalar::one());
    assert_eq!(g.node(q).grad, Scalar::zero());
    assert_eq!(g.node(x).grad, Scalar::zero());
    assert_eq!(g.node(y).grad, Scalar::zero());
}

#[test]
fn schedule_of_a_leaf_is_empty() {
    let mut g = Graph::new();
    let x = val(&mut g, nil());
    let steps = backward(&mut g, x);
    assert!(steps.is_empty());
    assert_eq!(g.node(x).grad, Scalar::one());
}

#[test]
fn schedule_feeds_a_node_before_reading_it() {
    let mut g = Graph::new();
    let a = val(&mut g, nil());
    let b = val(&mut g, nil());
    let c = mul(&mut g, b, a, nil());
    let d = add(&mut g, c, a, nil());
    let e = relu(&mut g, d, nil());
    let f = mul(&mut g, e, c, nil());
    let root = add(&mut g, f, d, nil());

    let steps = backward(&mut g, root);

    for i in 0..steps.len() {
        for j in i..steps.len() {
            assert_ne!(steps[j].target, steps[i].source);
        }
    }
}

#[test]
fn schedule_feeds_once_for_each_use() {
    let mut g = Graph::new();
    let x = val(&mut g, nil());
    let y = mul(&mut g, x, x, nil());
    let z = add(&mut g, y, x, nil());

    let steps = backward(&mut g, z);

    assert_eq!(steps.iter().filter(|s| s.target == x).count(), 3);
    assert_eq!(steps.iter().filter(|s| s.target == y).count(), 1);
    assert_eq!(steps.iter().filter(|s| s.target == z).count(), 0);
}

#[test]
fn reset_zeroes_reached_gradients_and_nothing_else() {
    let mut g = Graph::new();
    let x = val(&mut g, Scalar::from_bits(21));
    let y = val(&mut g, Scalar::from_bits(22));
    let z = add(&mut g, x, y, Scalar::from_bits(23));
    let w = exp(&mut g, y, Scalar::from_bits(24));
    for v in [x, y, z, w] {
        g.set_grad(v, Scalar::from_bits(77));
    }

    zero_grad(&mut g, z);

    assert_eq!(g.node(x).grad, Scalar::zero());
    assert_eq!(g.node(y).grad, Scalar::zero());
    assert_eq!(g.node(z).grad, Scalar::zero());
    assert_eq!(g.node(w).grad, Scalar::from_bits(77));
    assert_eq!(g.node(x).data, Scalar::from_bits(21));
    assert_eq!(g.node(z).data, Scalar::from_bits(23));
    assert_eq!(g.node(z).op, Some(Op::Add));
    assert_eq!(g.node(z).parents, vec![x, y]);

    zero_grad(&mut g, z);
    assert_eq!(g.node(x).grad, Scalar::zero());
    assert_eq!(g.node(w).grad, Scalar::from_bits(77));
}

#[test]
fn deep_chain_is_sorted() {
    let mut g = Graph::new();
    let mut top = val(&mut g, nil());
    for _ in 0..200000 {
        top = exp(&mut g, top, nil());
    }
    let order = topo_sort(&g, top);
    assert_eq!(order.len(), 200001);
    for (i, &node) in order.iter().enumerate() {
        assert_eq!(node, i);
    }
}
