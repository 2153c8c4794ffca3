//! The mathematical model of the expression graph.
//!
//! A graph is a sequence of nodes. A node's position in the sequence is its
//! identifier, and a node only ever names earlier nodes as its operands, so
//! the graph cannot contain a cycle.

use vstd::prelude::*;
use crate::numbers::Calc;

verus! {

/// A handle on one node of a graph: the node's identifier.
///
/// Copies of a handle name the same node.
#[derive(Clone, Copy, Debug, PartialEq, Eq, Structural)]
pub struct Value {
    pub id: usize,
}

/// The operations that take two operands.
#[derive(Clone, Copy, Debug, PartialEq, Eq, Structural)]
pub enum BinaryOp {
    Mul,
    Div,
    Add,
    Sub,
    Max,
    Min,
}

/// The operations that take one operand.
#[derive(Clone, Copy, Debug, PartialEq, Eq, Structural)]
pub enum UnaryOp {
    Log,
    Exp,
}

/// How a node came to be.
#[derive(Clone, Copy, Debug, PartialEq, Eq, Structural)]
#[allow(inconsistent_fields)]
pub enum Provenance {
    /// A leaf: a weight, a bias, an input or a constant.
    Leaf,
    Unary { op: UnaryOp, operand: Value },
    Binary { op: BinaryOp, left: Value, right: Value },
}

/// One node: its value, the gradient gathered so far, and where it came from.
#[derive(Debug)]
pub struct Node<S> {
    pub data: S,
    pub grad: S,
    pub provenance: Provenance,
}

impl<S: Copy> Clone for Node<S> {
    fn clone(&self) -> (copy: Self)
        ensures
            copy == *self,
    {
        *self
    }
}

impl<S: Copy> Copy for Node<S> {

}

/// A graph together with the arithmetic it is computed in: what each
/// calculation gives, and which scalars exceed which.
#[verifier::reject_recursive_types(S)]
pub struct Graph<S> {
    pub nodes: Seq<Node<S>>,
    pub calc: spec_fn(Calc<S>) -> S,
    pub exceeds: spec_fn(S, S) -> bool,
}

impl<S> Graph<S> {
    pub open spec fn len(self) -> int {
        self.nodes.len() as int
    }

    /// `v` names a node of this graph.
    pub open spec fn holds(self, v: Value) -> bool {
        v.id < self.nodes.len()
    }

    /// Every handle of `vs` names a node of this graph.
    pub open spec fn holds_all(self, vs: Seq<Value>) -> bool {
        forall|i: int| 0 <= i < vs.len() ==> self.holds(#[trigger] vs[i])
    }

    pub open spec fn data(self, v: Value) -> S {
        self.nodes[v.id as int].data
    }

    pub open spec fn grad(self, v: Value) -> S {
        self.nodes[v.id as int].grad
    }

    pub open spec fn provenance(self, v: Value) -> Provenance {
        self.nodes[v.id as int].provenance
    }

    /// The result of the calculation `c`.
    pub open spec fn value(self, c: Calc<S>) -> S {
        (self.calc)(c)
    }

    /// Whether `a` is strictly greater than `b`.
    pub open spec fn above(self, a: S, b: S) -> bool {
        (self.exceeds)(a, b)
    }

    pub open spec fn zero(self) -> S {
        self.value(Calc::Zero)
    }

    pub open spec fn one(self) -> S {
        self.value(Calc::One)
    }

    /// The clipping margin of the loss.
    pub open spec fn epsilon(self) -> S {
        self.value(Calc::Epsilon)
    }

    /// One less the clipping margin.
    pub open spec fn ceiling(self) -> S {
        self.value(Calc::Sub(self.one(), self.epsilon()))
    }

    /// Minus one.
    pub open spec fn minus_one(self) -> S {
        self.value(Calc::Neg(self.one()))
    }

    /// The operands that `provenance` names all come before position `at`.
    pub open spec fn earlier(provenance: Provenance, at: int) -> bool {
        match provenance {
            Provenance::Leaf => true,
            Provenance::Binary { left, right, .. } => left.id < at && right.id < at,
            Provenance::Unary { operand, .. } => operand.id < at,
        }
    }

    /// Every node names only earlier nodes.
    pub open spec fn acyclic(self) -> bool {
        forall|i: int| 0 <= i < self.nodes.len() ==> Self::earlier(#[trigger] self.nodes[i].provenance, i)
    }

    /// Every node has an identifier, and the graph has no cycle.
    pub open spec fn wf(self) -> bool {
        &&& self.nodes.len() <= usize::MAX
        &&& self.acyclic()
    }

    /// The same arithmetic, and the same number of nodes with the same
    /// origins: only values and gradients may differ.
    pub open spec fn same_shape(self, other: Self) -> bool {
        &&& self.calc == other.calc
        &&& self.exceeds == other.exceeds
        &&& self.nodes.len() == other.nodes.len()
        &&& forall|i: int| 0 <= i < self.nodes.len() ==> (#[trigger] self.nodes[i]).provenance == other.nodes[i].provenance
    }

    /// This graph is `base` with nodes added: the same arithmetic, and the
    /// nodes of `base` unchanged at the front.
    pub open spec fn extends(self, base: Self) -> bool {
        &&& self.calc == base.calc
        &&& self.exceeds == base.exceeds
        &&& base.nodes.len() <= self.nodes.len()
        &&& forall|i: int|
            #![trigger self.nodes[i]]
            #![trigger base.nodes[i]]
            0 <= i < base.nodes.len() ==> self.nodes[i] == base.nodes[i]
    }

    /// The handle of the node added last.
    pub open spec fn top(self) -> Value {
        Value { id: (self.nodes.len() - 1) as usize }
    }

    /// The handle that the next node will get.
    pub open spec fn next(self) -> Value {
        Value { id: self.nodes.len() as usize }
    }

    pub open spec fn with_node(self, node: Node<S>) -> Self {
        Graph { nodes: self.nodes.push(node), calc: self.calc, exceeds: self.exceeds }
    }

    pub open spec fn with_grad(self, v: Value, grad: S) -> Self {
        Graph {
            nodes: self.nodes.update(
                v.id as int,
                Node { data: self.data(v), grad, provenance: self.provenance(v) },
            ),
            calc: self.calc,
            exceeds: self.exceeds,
        }
    }

    pub open spec fn with_data(self, v: Value, data: S) -> Self {
        Graph {
            nodes: self.nodes.update(
                v.id as int,
                Node { data, grad: self.grad(v), provenance: self.provenance(v) },
            ),
            calc: self.calc,
            exceeds: self.exceeds,
        }
    }

    /// The graph with the gradient of every node that `params` names set to
    /// zero, and everything else as it is.
    pub open spec fn cleared(self, params: Seq<Value>) -> Self {
        Graph {
            nodes: Seq::new(
                self.nodes.len(),
                |i: int|
                    if params.contains(Value { id: i as usize }) {
                        Node {
                            data: self.nodes[i].data,
                            grad: self.zero(),
                            provenance: self.nodes[i].provenance,
                        }
                    } else {
                        self.nodes[i]
                    },
            ),
            calc: self.calc,
            exceeds: self.exceeds,
        }
    }

    /// The graph cut back to its first `len` nodes.
    pub open spec fn truncated(self, len: int) -> Self {
        Graph { nodes: self.nodes.take(len), calc: self.calc, exceeds: self.exceeds }
    }

    /// The graph with a new leaf of value `data` and gradient zero.
    pub open spec fn leaf(self, data: S) -> Self {
        self.with_node(Node { data, grad: self.zero(), provenance: Provenance::Leaf })
    }

    /// What a node made by `op` from operands of values `a` and `b` holds.
    /// `Max` and `Min` compare, and keep the left operand on a tie.
    pub open spec fn binary_data(self, op: BinaryOp, a: S, b: S) -> S {
        match op {
            BinaryOp::Mul => self.value(Calc::Mul(a, b)),
            BinaryOp::Div => self.value(Calc::Div(a, b)),
            BinaryOp::Add => self.value(Calc::Add(a, b)),
            BinaryOp::Sub => self.value(Calc::Sub(a, b)),
            BinaryOp::Max => if self.above(b, a) { b } else { a },
            BinaryOp::Min => if self.above(a, b) { b } else { a },
        }
    }

    /// What a node made by `op` from an operand of value `a` holds.
    pub open spec fn unary_data(self, op: UnaryOp, a: S) -> S {
        match op {
            UnaryOp::Log => self.value(Calc::Ln(a)),
            UnaryOp::Exp => self.value(Calc::Exp(a)),
        }
    }

    /// The graph with a new node `op(left, right)`: its value computed from
    /// the operands' current values, its gradient zero.
    pub open spec fn binary(self, op: BinaryOp, left: Value, right: Value) -> Self {
        self.with_node(
            Node {
                data: self.binary_data(op, self.data(left), self.data(right)),
                grad: self.zero(),
                provenance: Provenance::Binary { op, left, right },
            },
        )
    }

    /// The graph with a new node `op(operand)`.
    pub open spec fn unary(self, op: UnaryOp, operand: Value) -> Self {
        self.with_node(
            Node {
                data: self.unary_data(op, self.data(operand)),
                grad: self.zero(),
                provenance: Provenance::Unary { op, operand },
            },
        )
    }
}

} // verus!
