//! The backward pass: from a root, the gradient of the root with respect to
//! every node it depends on.
//!
//! The pass sets the root's gradient to one and then visits the nodes in the
//! walker's order. At each node it applies the rule of the node's operation,
//! which adds a term to the gradient of each operand. A gradient is only ever
//! added to, so a node with several consumers gathers a term from each.

use vstd::prelude::*;
use crate::graph::{BinaryOp, Graph, Provenance, UnaryOp, Value};
use crate::numbers::Calc;
use crate::tape::Tape;

verus! {

impl<S> Graph<S> {
    /// The graph with `term` added to the gradient of `v`.
    pub open spec fn accumulate(self, v: Value, term: S) -> Self {
        self.with_grad(v, self.value(Calc::Add(self.grad(v), term)))
    }

    /// The terms that a node made by `op` hands to its left and to its right
    /// operand, where the operands hold `l` and `r` and the node's own
    /// gradient is `g`.
    ///
    /// `Max` hands `g` to the operand that it took the value from and zero
    /// to the other; on a tie that is the left one. `Min` likewise.
    pub open spec fn binary_terms(self, op: BinaryOp, l: S, r: S, g: S) -> (S, S) {
        match op {
            BinaryOp::Mul => (self.value(Calc::Mul(r, g)), self.value(Calc::Mul(l, g))),
            BinaryOp::Div => (
                self.value(Calc::Div(g, r)),
                self.value(
                    Calc::Mul(
                        self.value(
                            Calc::Neg(self.value(Calc::Div(l, self.value(Calc::Mul(r, r))))),
                        ),
                        g,
                    ),
                ),
            ),
            BinaryOp::Add => (g, g),
            BinaryOp::Sub => (g, self.value(Calc::Neg(g))),
            BinaryOp::Max => if self.above(r, l) {
                (self.zero(), g)
            } else {
                (g, self.zero())
            },
            BinaryOp::Min => if self.above(l, r) {
                (self.zero(), g)
            } else {
                (g, self.zero())
            },
        }
    }

    /// The term that a node made by `op` hands to its operand, where the
    /// operand holds `a`, the node itself holds `d`, and the node's gradient
    /// is `g`.
    pub open spec fn unary_term(self, op: UnaryOp, a: S, d: S, g: S) -> S {
        match op {
            UnaryOp::Log => self.value(Calc::Div(g, a)),
            UnaryOp::Exp => self.value(Calc::Mul(g, d)),
        }
    }

    /// The graph after the rule of the node `v` was applied: each operand's
    /// gradient has gained its term, first the left operand's, then the
    /// right one's. A leaf changes nothing.
    pub open spec fn step(self, v: Value) -> Self {
        match self.provenance(v) {
            Provenance::Leaf => self,
            Provenance::Unary { op, operand } => self.accumulate(
                operand,
                self.unary_term(op, self.data(operand), self.data(v), self.grad(v)),
            ),
            Provenance::Binary { op, left, right } => {
                let terms = self.binary_terms(op, self.data(left), self.data(right), self.grad(v));
                self.accumulate(left, terms.0).accumulate(right, terms.1)
            },
        }
    }

    /// The graph after the rules of the nodes of `order` were applied, one
    /// after the other.
    pub open spec fn run(self, order: Seq<Value>) -> Self
        decreases order.len(),
    {
        if order.len() == 0 {
            self
        } else {
            self.run(order.drop_last()).step(order.last())
        }
    }

    /// The graph after a backward pass from `root`.
    pub open spec fn backward(self, root: Value) -> Self {
        self.with_grad(root, self.one()).run(self.order(root))
    }
}

/// Applying a rule changes gradients only: the arithmetic, the number of
/// nodes, their values and their origins stay.
pub proof fn lemma_step_keeps<S>(
    g: Graph<S>,
    v: Value,
)
    requires
        g.acyclic(),
        g.holds(v),
    ensures
        g.step(v).same_shape(g),
        g.step(v).acyclic(),
        forall|w: Value| g.holds(w) ==> g.step(v).data(w) == g.data(w),
        forall|w: Value| g.holds(w) && !g.feeds(w, v) ==> g.step(v).grad(w) == g.grad(w),
{
    assert(Graph::<S>::earlier(g.nodes[v.id as int].provenance, v.id as int));
}

/// A run of rules changes gradients only.
pub proof fn lemma_run_keeps<S>(
    g: Graph<S>,
    order: Seq<Value>,
)
    requires
        g.acyclic(),
        g.holds_all(order),
    ensures
        g.run(order).same_shape(g),
        g.run(order).acyclic(),
        forall|w: Value| g.holds(w) ==> g.run(order).data(w) == g.data(w),
    decreases order.len(),
{
    if order.len() > 0 {
        let front = order.drop_last();
        assert(g.holds_all(front)) by {
            assert forall|i: int| 0 <= i < front.len() implies g.holds(#[trigger] front[i]) by {
                assert(front[i] == order[i]);
            }
        }
        lemma_run_keeps(g, front);
        assert(g.holds(order[order.len() - 1]));
        lemma_step_keeps(g.run(front), order.last());
    }
}

/// A run over a single node applies that node's rule.
pub proof fn lemma_run_one<S>(g: Graph<S>, v: Value)
    ensures
        g.run(seq![v]) == g.step(v),
{
    assert(seq![v].drop_last() =~= Seq::<Value>::empty());
    assert(g.run(Seq::<Value>::empty()) == g);
}

/// Running two orders one after the other is running them joined.
pub proof fn lemma_run_joined<S>(
    g: Graph<S>,
    first: Seq<Value>,
    second: Seq<Value>,
)
    ensures
        g.run(first + second) == g.run(first).run(second),
    decreases second.len(),
{
    if second.len() == 0 {
        assert(first + second =~= first);
    } else {
        lemma_run_joined(g, first, second.drop_last());
        assert((first + second).drop_last() =~= first + second.drop_last());
        assert((first + second).last() == second.last());
    }
}

/// A run leaves the gradient of `w` alone where `w` is an operand of none of
/// the nodes visited.
pub proof fn lemma_run_spares<S>(
    g: Graph<S>,
    order: Seq<Value>,
    w: Value,
)
    requires
        g.acyclic(),
        g.holds_all(order),
        g.holds(w),
        forall|i: int| 0 <= i < order.len() ==> !g.feeds(w, #[trigger] order[i]),
    ensures
        g.run(order).grad(w) == g.grad(w),
    decreases order.len(),
{
    if order.len() > 0 {
        let front = order.drop_last();
        assert(g.holds_all(front)) by {
            assert forall|i: int| 0 <= i < front.len() implies g.holds(#[trigger] front[i]) by {
                assert(front[i] == order[i]);
            }
        }
        assert forall|i: int| 0 <= i < front.len() implies !g.feeds(w, #[trigger] front[i]) by {
            assert(front[i] == order[i]);
        }
        lemma_run_spares(g, front, w);
        lemma_run_keeps(g, front);
        let v = order[order.len() - 1];
        assert(g.holds(v));
        assert(!g.feeds(w, v));
        lemma_step_keeps(g.run(front), v);
        assert(g.run(front).provenance(v) == g.provenance(v));
        assert(!g.run(front).feeds(w, v));
    }
}

impl Value {
    /// Applies the rule of this node's operation: adds to the gradient of
    /// each operand the term that this node owes it.
    pub fn propagate<S: Copy, A: Fn(Calc<S>) -> S, C: Fn(S, S) -> bool>(
        &self,
        tape: &mut Tape<S, A, C>,
    )
        requires
            old(tape).wf(),
            old(tape)@.holds(*self),
        ensures
            final(tape).wf(),
            final(tape)@ == old(tape)@.step(*self),
    {
        let node = tape.node(*self);
        proof {
            lemma_step_keeps(tape@, *self);
            assert(Graph::<S>::earlier(tape@.nodes[self.id as int].provenance, self.id as int));
        }
        match node.provenance {
            Provenance::Leaf => {},
            Provenance::Unary { op, operand } => {
                let a = tape.node(operand).data;
                let term = match op {
                    UnaryOp::Log => tape.eval(Calc::Div(node.grad, a)),
                    UnaryOp::Exp => tape.eval(Calc::Mul(node.grad, node.data)),
                };
                let sum = tape.eval(Calc::Add(tape.node(operand).grad, term));
                tape.set_grad(operand, sum);
            },
            Provenance::Binary { op, left, right } => {
                let l = tape.node(left).data;
                let r = tape.node(right).data;
                let g = node.grad;
                let terms = match op {
                    BinaryOp::Mul => (tape.eval(Calc::Mul(r, g)), tape.eval(Calc::Mul(l, g))),
                    BinaryOp::Div => {
                        let square = tape.eval(Calc::Mul(r, r));
                        let ratio = tape.eval(Calc::Div(l, square));
                        let slope = tape.eval(Calc::Neg(ratio));
                        (tape.eval(Calc::Div(g, r)), tape.eval(Calc::Mul(slope, g)))
                    },
                    BinaryOp::Add => (g, g),
                    BinaryOp::Sub => (g, tape.eval(Calc::Neg(g))),
                    BinaryOp::Max => if tape.above(r, l) {
                        (tape.eval(Calc::Zero), g)
                    } else {
                        (g, tape.eval(Calc::Zero))
                    },
                    BinaryOp::Min => if tape.above(l, r) {
                        (tape.eval(Calc::Zero), g)
                    } else {
                        (g, tape.eval(Calc::Zero))
                    },
                };
                let first = tape.eval(Calc::Add(tape.node(left).grad, terms.0));
                tape.set_grad(left, first);
                let second = tape.eval(Calc::Add(tape.node(right).grad, terms.1));
                tape.set_grad(right, second);
            },
        }
    }

    /// The backward pass from this node. Sets this node's gradient to one,
    /// then applies the rule of every node that this node depends on, in the
    /// walker's order. Values and origins are left as they are.
    ///
    /// Gradients are added to, never reset: a gradient that was not zero
    /// before the pass still counts after it.
    pub fn backward<S: Copy, A: Fn(Calc<S>) -> S, C: Fn(S, S) -> bool>(
        &self,
        tape: &mut Tape<S, A, C>,
    )
        requires
            old(tape).wf(),
            old(tape)@.holds(*self),
        ensures
            final(tape).wf(),
            final(tape)@ == old(tape)@.backward(*self),
            final(tape)@.same_shape(old(tape)@),
            forall|w: Value| old(tape)@.holds(w) ==> final(tape)@.data(w) == old(tape)@.data(w),
            forall|w: Value|
                old(tape)@.holds(w) && !old(tape)@.reaches(*self, w) ==> final(tape)@.grad(w) == old(
                    tape,
                )@.grad(w),
    {
        let order = self.walk(tape);
        let one = tape.eval(Calc::One);
        tape.set_grad(*self, one);
        let ghost seeded = tape@;
        proof {
            assert forall|i: int| 0 <= i < order@.len() implies seeded.holds(#[trigger] order@[i]) by {
                assert(order@.contains(order@[i]));
                crate::walker::lemma_reaches_below(old(tape)@, *self, order@[i]);
            }
        }
        let mut i: usize = 0;
        while i < order.len()
            invariant
                0 <= i <= order.len(),
                tape.wf(),
                seeded.acyclic(),
                seeded.holds_all(order@),
                tape@ == seeded.run(order@.take(i as int)),
            decreases order.len() - i,
        {
            proof {
                let done = order@.take(i as int);
                assert(seeded.holds_all(done)) by {
                    assert forall|j: int| 0 <= j < done.len() implies seeded.holds(#[trigger] done[j]) by {
                        assert(done[j] == order@[j]);
                    }
                }
                lemma_run_keeps(seeded, done);
                assert(seeded.holds(order@[i as int]));
                assert(order@.take(i + 1).drop_last() =~= done);
            }
            order[i].propagate(tape);
            i += 1;
        }
        proof {
            assert(order@.take(i as int) =~= order@);
            lemma_run_keeps(seeded, order@);
            assert forall|w: Value| old(tape)@.holds(w) implies tape@.data(w) == old(tape)@.data(
                w,
            ) by {
                assert(seeded.holds(w));
                assert(seeded.data(w) == old(tape)@.data(w));
            }
            assert forall|w: Value|
                old(tape)@.holds(w) && !old(tape)@.reaches(*self, w) implies tape@.grad(w) == old(
                    tape,
                )@.grad(w) by {
                assert forall|i: int| 0 <= i < order@.len() implies !seeded.feeds(
                    w,
                    #[trigger] order@[i],
                ) by {
                    if seeded.feeds(w, order@[i]) {
                        assert(order@.contains(order@[i]));
                        assert(old(tape)@.feeds(w, order@[i]));
                        crate::walker::lemma_reaches_operand(old(tape)@, *self, order@[i], w);
                    }
                }
                lemma_run_spares(seeded, order@, w);
            }
        }
    }
}

} // verus!
