use vstd::prelude::*;
use crate::ops::Op;

verus! {

/// Bit pattern of positive zero in IEEE 754 binary64.
pub const ZERO_BITS: u64 = 0;

/// Bit pattern of one in IEEE 754 binary64.
pub const ONE_BITS: u64 = 0x3FF0_0000_0000_0000;

/// Bit pattern of minus one in IEEE 754 binary64.
pub const MINUS_ONE_BITS: u64 = 0xBFF0_0000_0000_0000;

/// A double-precision number, held by its IEEE 754 binary64 bit pattern.
///
/// The library stores and moves scalars; it never does arithmetic on them.
#[derive(Clone, Copy, Debug, PartialEq, Eq, Structural)]
pub struct Scalar {
    pub bits: u64,
}

impl Scalar {
    pub open spec fn spec_zero() -> Scalar {
        Scalar { bits: ZERO_BITS }
    }

    pub open spec fn spec_one() -> Scalar {
        Scalar { bits: ONE_BITS }
    }

    pub open spec fn spec_minus_one() -> Scalar {
        Scalar { bits: MINUS_ONE_BITS }
    }

    /// The scalar with the given bit pattern.
    pub fn from_bits(bits: u64) -> (s: Scalar)
        ensures
            s.bits == bits,
    {
        Scalar { bits }
    }

    /// The bit pattern of this scalar.
    pub fn to_bits(self) -> (bits: u64)
        ensures
            bits == self.bits,
    {
        self.bits
    }

    /// Positive zero: the gradient of a fresh node, and of a node after a reset.
    #[verifier::when_used_as_spec(spec_zero)]
    pub fn zero() -> (s: Scalar)
        ensures
            s == Scalar::spec_zero(),
    {
        Scalar { bits: ZERO_BITS }
    }

    /// One: the gradient of a root with respect to itself.
    #[verifier::when_used_as_spec(spec_one)]
    pub fn one() -> (s: Scalar)
        ensures
            s == Scalar::spec_one(),
    {
        Scalar { bits: ONE_BITS }
    }

    /// Minus one: the constant by which negation multiplies, and the exponent of a reciprocal.
    #[verifier::when_used_as_spec(spec_minus_one)]
    pub fn minus_one() -> (s: Scalar)
        ensures
            s == Scalar::spec_minus_one(),
    {
        Scalar { bits: MINUS_ONE_BITS }
    }
}

/// The name of a node: its position in the arena of its graph.
pub type ValueRef = usize;

/// A node of a graph.
pub struct Value {
    /// The forward value.
    pub data: Scalar,
    /// The gradient accumulated so far.
    pub grad: Scalar,
    /// The operator that produced this node; `None` for a leaf.
    pub op: Option<Op>,
    /// The operands, in the order in which the operator takes them.
    pub parents: Vec<ValueRef>,
}

/// The mathematical model of a [`Value`].
pub struct Node {
    pub data: Scalar,
    pub grad: Scalar,
    pub op: Option<Op>,
    pub parents: Seq<ValueRef>,
}

impl View for Value {
    type V = Node;

    open spec fn view(&self) -> Node {
        Node { data: self.data, grad: self.grad, op: self.op, parents: self.parents@ }
    }
}

impl Node {
    /// This node with another gradient.
    pub open spec fn with_grad(self, grad: Scalar) -> Node {
        Node { grad: grad, ..self }
    }

    /// A leaf carries no operator and no operands; any other node carries as
    /// many operands as its operator takes.
    pub open spec fn arity_ok(self) -> bool {
        match self.op {
            None => self.parents.len() == 0,
            Some(op) => self.parents.len() == op.arity(),
        }
    }

    /// Every operand names a node below position `at`.
    pub open spec fn operands_below(self, at: int) -> bool {
        forall|k: int| 0 <= k < self.parents.len() ==> #[trigger] self.parents[k] < at
    }
}

/// A sequence of nodes is a graph when each node has the operands its operator
/// takes and each operand stands earlier in the sequence than the node that
/// uses it. The second condition makes the operand relation acyclic.
pub open spec fn well_formed(nodes: Seq<Node>) -> bool {
    forall|i: int|
        0 <= i < nodes.len() ==> (#[trigger] nodes[i]).arity_ok() && nodes[i].operands_below(i)
}

/// A leaf with the given value, as it is created.
pub open spec fn leaf(x: Scalar) -> Node {
    Node { data: x, grad: Scalar::zero(), op: None, parents: Seq::empty() }
}

/// A node produced by an operator, as it is created.
pub open spec fn produced(data: Scalar, op: Op, parents: Seq<ValueRef>) -> Node {
    Node { data: data, grad: Scalar::zero(), op: Some(op), parents: parents }
}

/// An arena of nodes. It is the sole owner of its nodes; a node is shared by
/// naming its position wherever it is used as an operand.
pub struct Graph {
    nodes: Vec<Value>,
}

impl View for Graph {
    type V = Seq<Node>;

    closed spec fn view(&self) -> Seq<Node> {
        self.nodes@.map_values(|v: Value| v@)
    }
}

impl Graph {
    /// The invariant of a graph: see [`well_formed`].
    pub open spec fn wf(&self) -> bool {
        well_formed(self@)
    }

    /// Whether `node` names a node of this graph.
    pub open spec fn contains(&self, node: ValueRef) -> bool {
        node < self@.len()
    }

    /// The empty graph.
    pub fn new() -> (g: Graph)
        ensures
            g@ == Seq::<Node>::empty(),
            g.wf(),
    {
        let g = Graph { nodes: Vec::new() };
        assert(g@ =~= Seq::<Node>::empty());
        g
    }

    /// The number of nodes.
    pub fn len(&self) -> (n: usize)
        ensures
            n == self@.len(),
    {
        self.nodes.len()
    }

    /// The node at position `node`.
    pub fn node(&self, node: ValueRef) -> (v: &Value)
        requires
            self.contains(node),
        ensures
            v@ == self@[node as int],
    {
        &self.nodes[node]
    }

    /// Overwrites the gradient of one node and leaves everything else as it is.
    pub fn set_grad(&mut self, node: ValueRef, grad: Scalar)
        requires
            old(self).contains(node),
        ensures
            final(self)@ == old(self)@.update(node as int, old(self)@[node as int].with_grad(grad)),
            old(self).wf() ==> final(self).wf(),
    {
        self.nodes[node].grad = grad;
        assert(self@ =~= old(self)@.update(node as int, old(self)@[node as int].with_grad(grad)));
        assert forall|i: int| 0 <= i < self@.len() implies self@[i].parents == old(self)@[i].parents
            && self@[i].op == old(self)@[i].op by {}
    }

    /// Appends a node whose operands are already in the graph, and returns its name.
    pub(crate) fn attach(&mut self, value: Value) -> (r: ValueRef)
        requires
            old(self).wf(),
            value@.arity_ok(),
            value@.operands_below(old(self)@.len() as int),
        ensures
            final(self)@ == old(self)@.push(value@),
            final(self).wf(),
            r == old(self)@.len(),
    {
        let r = self.nodes.len();
        self.nodes.push(value);
        assert(self@ =~= old(self)@.push(value@));
        r
    }
}

/// Creates a leaf with the value `x`: gradient zero, no operator, no operands.
pub fn val(g: &mut Graph, x: Scalar) -> (r: ValueRef)
    requires
        old(g).wf(),
    ensures
        final(g)@ == old(g)@.push(leaf(x)),
        final(g).wf(),
        r == old(g)@.len(),
{
    let node = Value { data: x, grad: Scalar::zero(), op: None, parents: Vec::new() };
    g.attach(node)
}

} // verus!
