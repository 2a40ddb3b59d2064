use vstd::prelude::*;
use crate::value::{produced, val, Graph, Scalar, Value, ValueRef};

verus! {

/// The operators that produce a node from its operands.
#[derive(Debug, Clone, Copy, PartialEq, Eq, Structural)]
pub enum Op {
    /// The sum of two operands.
    Add,
    /// The product of two operands.
    Mul,
    /// The natural exponential of one operand.
    Exp,
    /// One operand raised to the exponent carried here.
    Pow(Scalar),
    /// One operand where it is positive, zero elsewhere.
    ReLU,
}

/// How much of a node's gradient one of its operands receives, as a recipe
/// over values stored in the graph. Below, `g` is the gradient of the step's
/// source at the time the step runs.
#[derive(Debug, Clone, Copy, PartialEq, Eq, Structural)]
pub enum Rule {
    /// `g` itself.
    PassThrough,
    /// The forward value of the named node, times `g`.
    ScaleBy(ValueRef),
    /// `exponent` times the forward value of `base` raised to `exponent` less
    /// one, times `g`.
    PowerOf { base: ValueRef, exponent: Scalar },
    /// `g` where the forward value of the named node is positive, zero elsewhere.
    GateOn(ValueRef),
}

/// One accumulation of a backward pass: the gradient of `target` grows by what
/// `rule` makes of the gradient of `source`.
#[derive(Debug, Clone, Copy, PartialEq, Eq, Structural)]
pub struct Step {
    pub target: ValueRef,
    pub source: ValueRef,
    pub rule: Rule,
}

impl Op {
    /// The number of operands that the operator takes.
    pub open spec fn arity(self) -> nat {
        match self {
            Op::Add | Op::Mul => 2,
            Op::Exp | Op::Pow(_) | Op::ReLU => 1,
        }
    }

    /// The backward rule of the operator: the accumulations by which a node
    /// `node` that it produced from `parents` hands its gradient on, one for
    /// each operand, in the order of the operands.
    pub open spec fn steps(self, node: ValueRef, parents: Seq<ValueRef>) -> Seq<Step> {
        match self {
            Op::Add => seq![
                Step { target: parents[0], source: node, rule: Rule::PassThrough },
                Step { target: parents[1], source: node, rule: Rule::PassThrough },
            ],
            Op::Mul => seq![
                Step { target: parents[0], source: node, rule: Rule::ScaleBy(parents[1]) },
                Step { target: parents[1], source: node, rule: Rule::ScaleBy(parents[0]) },
            ],
            Op::Exp => seq![Step { target: parents[0], source: node, rule: Rule::ScaleBy(node) }],
            Op::Pow(exponent) => seq![
                Step {
                    target: parents[0],
                    source: node,
                    rule: Rule::PowerOf { base: parents[0], exponent: exponent },
                },
            ],
            Op::ReLU => seq![Step { target: parents[0], source: node, rule: Rule::GateOn(node) }],
        }
    }

    /// Writes out the backward rule of the operator for the node `node` with
    /// the operands `parents`.
    pub fn apply_backward(&self, node: ValueRef, parents: &Vec<ValueRef>) -> (steps: Vec<Step>)
        requires
            parents@.len() == self.arity(),
        ensures
            steps@ == self.steps(node, parents@),
    {
        let mut steps: Vec<Step> = Vec::new();
        match *self {
            Op::Add => {
                steps.push(Step { target: parents[0], source: node, rule: Rule::PassThrough });
                steps.push(Step { target: parents[1], source: node, rule: Rule::PassThrough });
            },
            Op::Mul => {
                let a = parents[0];
                let b = parents[1];
                steps.push(Step { target: a, source: node, rule: Rule::ScaleBy(b) });
                steps.push(Step { target: b, source: node, rule: Rule::ScaleBy(a) });
            },
            Op::Exp => {
                steps.push(Step { target: parents[0], source: node, rule: Rule::ScaleBy(node) });
            },
            Op::Pow(exponent) => {
                let base = parents[0];
                steps.push(
                    Step { target: base, source: node, rule: Rule::PowerOf { base, exponent } },
                );
            },
            Op::ReLU => {
                steps.push(Step { target: parents[0], source: node, rule: Rule::GateOn(node) });
            },
        }
        assert(steps@ =~= self.steps(node, parents@));
        steps
    }
}

/// Adds the node for `a + b`. `value` is the sum, which the caller has computed.
pub fn add(g: &mut Graph, a: ValueRef, b: ValueRef, value: Scalar) -> (r: ValueRef)
    requires
        old(g).wf(),
        old(g).contains(a),
        old(g).contains(b),
    ensures
        final(g)@ == old(g)@.push(produced(value, Op::Add, seq![a, b])),
        final(g).wf(),
        r == old(g)@.len(),
{
    let mut parents: Vec<ValueRef> = Vec::new();
    parents.push(a);
    parents.push(b);
    assert(parents@ =~= seq![a, b]);
    g.attach(Value { data: value, grad: Scalar::zero(), op: Some(Op::Add), parents })
}

/// Adds the node for `a * b`. `value` is the product, which the caller has computed.
pub fn mul(g: &mut Graph, a: ValueRef, b: ValueRef, value: Scalar) -> (r: ValueRef)
    requires
        old(g).wf(),
        old(g).contains(a),
        old(g).contains(b),
    ensures
        final(g)@ == old(g)@.push(produced(value, Op::Mul, seq![a, b])),
        final(g).wf(),
        r == old(g)@.len(),
{
    let mut parents: Vec<ValueRef> = Vec::new();
    parents.push(a);
    parents.push(b);
    assert(parents@ =~= seq![a, b]);
    g.attach(Value { data: value, grad: Scalar::zero(), op: Some(Op::Mul), parents })
}

/// Adds the node for the rectified `a`. `value` is `a` where `a` is positive
/// and zero elsewhere, which the caller has computed.
pub fn relu(g: &mut Graph, a: ValueRef, value: Scalar) -> (r: ValueRef)
    requires
        old(g).wf(),
        old(g).contains(a),
    ensures
        final(g)@ == old(g)@.push(produced(value, Op::ReLU, seq![a])),
        final(g).wf(),
        r == old(g)@.len(),
{
    let mut parents: Vec<ValueRef> = Vec::new();
    parents.push(a);
    assert(parents@ =~= seq![a]);
    g.attach(Value { data: value, grad: Scalar::zero(), op: Some(Op::ReLU), parents })
}

/// Adds the node for `a` raised to `exponent`. `value` is the power, which
/// the caller has computed.
pub fn pow(g: &mut Graph, a: ValueRef, exponent: Scalar, value: Scalar) -> (r: ValueRef)
    requires
        old(g).wf(),
        old(g).contains(a),
    ensures
        final(g)@ == old(g)@.push(produced(value, Op::Pow(exponent), seq![a])),
        final(g).wf(),
        r == old(g)@.len(),
{
    let mut parents: Vec<ValueRef> = Vec::new();
    parents.push(a);
    assert(parents@ =~= seq![a]);
    g.attach(Value { data: value, grad: Scalar::zero(), op: Some(Op::Pow(exponent)), parents })
}

/// Adds the node for the natural exponential of `a`. `value` is the
/// exponential, which the caller has computed.
pub fn exp(g: &mut Graph, a: ValueRef, value: Scalar) -> (r: ValueRef)
    requires
        old(g).wf(),
        old(g).contains(a),
    ensures
        final(g)@ == old(g)@.push(produced(value, Op::Exp, seq![a])),
        final(g).wf(),
        r == old(g)@.len(),
{
    let mut parents: Vec<ValueRef> = Vec::new();
    parents.push(a);
    assert(parents@ =~= seq![a]);
    g.attach(Value { data: value, grad: Scalar::zero(), op: Some(Op::Exp), parents })
}

/// What [`neg`] appends to a graph: a leaf holding minus one, then the product
/// of `a` and that leaf.
pub open spec fn negated(nodes: Seq<crate::value::Node>, a: ValueRef, value: Scalar) -> Seq<
    crate::value::Node,
> {
    nodes.push(crate::value::leaf(Scalar::minus_one())).push(
        produced(value, Op::Mul, seq![a, nodes.len() as ValueRef]),
    )
}

/// Adds the nodes for `-a`: the product of `a` and a new leaf that holds minus
/// one. `value` is the negation, which the caller has computed.
pub fn neg(g: &mut Graph, a: ValueRef, value: Scalar) -> (r: ValueRef)
    requires
        old(g).wf(),
        old(g).contains(a),
    ensures
        final(g)@ == negated(old(g)@, a, value),
        final(g).wf(),
        r == old(g)@.len() + 1,
{
    let minus_one = val(g, Scalar::minus_one());
    self::mul(g, a, minus_one, value)
}

/// Adds the nodes for `a - b`: the sum of `a` and the negation of `b`.
/// `negation` is `-b` and `value` is the difference, which the caller has
/// computed.
pub fn sub(g: &mut Graph, a: ValueRef, b: ValueRef, negation: Scalar, value: Scalar) -> (r:
    ValueRef)
    requires
        old(g).wf(),
        old(g).contains(a),
        old(g).contains(b),
    ensures
        final(g)@ == negated(old(g)@, b, negation).push(
            produced(value, Op::Add, seq![a, (old(g)@.len() + 1) as ValueRef]),
        ),
        final(g).wf(),
        r == old(g)@.len() + 2,
{
    let minus_b = neg(g, b, negation);
    self::add(g, a, minus_b, value)
}

/// Adds the nodes for `a / b`: the product of `a` and `b` raised to minus
/// one. `reciprocal` is that power and `value` is the quotient, which the
/// caller has computed.
pub fn div(g: &mut Graph, a: ValueRef, b: ValueRef, reciprocal: Scalar, value: Scalar) -> (r:
    ValueRef)
    requires
        old(g).wf(),
        old(g).contains(a),
        old(g).contains(b),
    ensures
        final(g)@ == old(g)@.push(produced(reciprocal, Op::Pow(Scalar::minus_one()), seq![b])).push(
            produced(value, Op::Mul, seq![a, old(g)@.len() as ValueRef]),
        ),
        final(g).wf(),
        r == old(g)@.len() + 1,
{
    let inverse = pow(g, b, Scalar::minus_one(), reciprocal);
    self::mul(g, a, inverse, value)
}

} // verus!
