//! Reverse-mode automatic differentiation over scalar expression graphs.
//!
//! A [`Graph`] is an arena of nodes. Each node holds a forward value, an
//! accumulated gradient, the operator that produced it and its operands, named
//! by their positions in the arena. The library owns the structure of the
//! graph, the order in which a backward pass visits it and the rule by which
//! each operator hands gradient to its operands. Scalars are carried as bit
//! patterns and never computed on here: the caller evaluates the arithmetic
//! that a [`Step`] names and writes the result back.
pub mod value;
pub mod ops;
pub mod engine;
pub mod laws;

pub use value::{val, Graph, Node, Scalar, Value, ValueRef};
pub use ops::{add, div, exp, mul, neg, pow, relu, sub, Op, Rule, Step};
pub use engine::{backward, topo_sort, zero_grad};
