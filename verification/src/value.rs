//! The scalar engine: the operations that build the graph.
//!
//! Every operation appends one node whose value is computed at once from its
//! operands' current values, and returns the new node's handle. No operation
//! changes a node that already exists.

use vstd::prelude::*;
use crate::graph::{BinaryOp, Graph, Node, Provenance, UnaryOp, Value};
use crate::numbers::Calc;
use crate::tape::Tape;

verus! {

impl<S> Graph<S> {
    /// The graph after `relu(v)`: a leaf zero, then the maximum of `v` and
    /// that leaf.
    pub open spec fn relu(self, v: Value) -> Self {
        self.leaf(self.zero()).binary(BinaryOp::Max, v, self.next())
    }

    /// The graph after `negate(v)`: a leaf minus one, then the product of
    /// `v` and that leaf.
    pub open spec fn negate(self, v: Value) -> Self {
        self.leaf(self.minus_one()).binary(BinaryOp::Mul, v, self.next())
    }

    /// The graph after `subtract(a, b)`: the negation of `b`, then the sum
    /// of `a` and it.
    pub open spec fn subtract(self, a: Value, b: Value) -> Self {
        self.negate(b).binary(BinaryOp::Add, a, self.negate(b).top())
    }

    /// The graph after the first `n` handles of `values` were summed: a leaf
    /// zero, then one addition per handle, each adding the handle to the
    /// running total before it.
    pub open spec fn sum_of(self, values: Seq<Value>, n: int) -> Self
        decreases n,
    {
        if n <= 0 {
            self.leaf(self.zero())
        } else {
            let before = self.sum_of(values, n - 1);
            before.binary(BinaryOp::Add, before.top(), values[n - 1])
        }
    }

    /// The graph after all of `values` were summed.
    pub open spec fn sum(self, values: Seq<Value>) -> Self {
        self.sum_of(values, values.len() as int)
    }
}

/// A partial sum keeps the graph it started from, and adds one node per
/// term to it.
pub proof fn lemma_sum_of_extends<S>(
    g: Graph<S>,
    values: Seq<Value>,
    n: int,
)
    requires
        0 <= n,
    ensures
        g.sum_of(values, n).len() == g.len() + n + 1,
        g.sum_of(values, n).extends(g),
    decreases n,
{
    if n > 0 {
        lemma_sum_of_extends(g, values, n - 1);
    }
}

impl Value {
    /// A new leaf of value `data`, with gradient zero.
    pub fn new<S: Copy, A: Fn(Calc<S>) -> S, C: Fn(S, S) -> bool>(
        data: S,
        tape: &mut Tape<S, A, C>,
    ) -> (out: Value)
        requires
            old(tape).wf(),
        ensures
            final(tape).wf(),
            final(tape)@ == old(tape)@.leaf(data),
            out == old(tape)@.next(),
    {
        let zero = tape.eval(Calc::Zero);
        tape.push(Node { data, grad: zero, provenance: Provenance::Leaf })
    }

    /// The node's current value.
    pub fn data<S: Copy, A: Fn(Calc<S>) -> S, C: Fn(S, S) -> bool>(
        &self,
        tape: &Tape<S, A, C>,
    ) -> (data: S)
        requires
            tape@.holds(*self),
        ensures
            data == tape@.data(*self),
    {
        tape.node(*self).data
    }

    /// The gradient gathered in the node so far.
    pub fn grad<S: Copy, A: Fn(Calc<S>) -> S, C: Fn(S, S) -> bool>(
        &self,
        tape: &Tape<S, A, C>,
    ) -> (grad: S)
        requires
            tape@.holds(*self),
        ensures
            grad == tape@.grad(*self),
    {
        tape.node(*self).grad
    }

    /// Subtracts `delta` from the node's value, in place. Nothing else
    /// changes: nodes computed from this one keep the values they have.
    pub fn sub_assign<S: Copy, A: Fn(Calc<S>) -> S, C: Fn(S, S) -> bool>(
        &self,
        delta: S,
        tape: &mut Tape<S, A, C>,
    )
        requires
            old(tape).wf(),
            old(tape)@.holds(*self),
        ensures
            final(tape).wf(),
            final(tape)@ == old(tape)@.with_data(
                *self,
                old(tape)@.value(Calc::Sub(old(tape)@.data(*self), delta)),
            ),
    {
        let data = tape.eval(Calc::Sub(tape.node(*self).data, delta));
        tape.set_data(*self, data);
    }

    /// Sets the node's gradient to zero.
    pub fn zero_grad<S: Copy, A: Fn(Calc<S>) -> S, C: Fn(S, S) -> bool>(
        &self,
        tape: &mut Tape<S, A, C>,
    )
        requires
            old(tape).wf(),
            old(tape)@.holds(*self),
        ensures
            final(tape).wf(),
            final(tape)@ == old(tape)@.with_grad(*self, old(tape)@.zero()),
    {
        let zero = tape.eval(Calc::Zero);
        tape.set_grad(*self, zero);
    }

    /// Appends the node `op(self, other)`.
    fn binary<S: Copy, A: Fn(Calc<S>) -> S, C: Fn(S, S) -> bool>(
        &self,
        op: BinaryOp,
        other: &Value,
        tape: &mut Tape<S, A, C>,
    ) -> (out: Value)
        requires
            old(tape).wf(),
            old(tape)@.holds(*self),
            old(tape)@.holds(*other),
        ensures
            final(tape).wf(),
            final(tape)@ == old(tape)@.binary(op, *self, *other),
            out == old(tape)@.next(),
    {
        let a = tape.node(*self).data;
        let b = tape.node(*other).data;
        let data = match op {
            BinaryOp::Mul => tape.eval(Calc::Mul(a, b)),
            BinaryOp::Div => tape.eval(Calc::Div(a, b)),
            BinaryOp::Add => tape.eval(Calc::Add(a, b)),
            BinaryOp::Sub => tape.eval(Calc::Sub(a, b)),
            BinaryOp::Max => if tape.above(b, a) {
                b
            } else {
                a
            },
            BinaryOp::Min => if tape.above(a, b) {
                b
            } else {
                a
            },
        };
        let zero = tape.eval(Calc::Zero);
        tape.push(
            Node { data, grad: zero, provenance: Provenance::Binary { op, left: *self, right: *other } },
        )
    }

    /// Appends the node `op(self)`.
    fn unary<S: Copy, A: Fn(Calc<S>) -> S, C: Fn(S, S) -> bool>(
        &self,
        op: UnaryOp,
        tape: &mut Tape<S, A, C>,
    ) -> (out: Value)
        requires
            old(tape).wf(),
            old(tape)@.holds(*self),
        ensures
            final(tape).wf(),
            final(tape)@ == old(tape)@.unary(op, *self),
            out == old(tape)@.next(),
    {
        let a = tape.node(*self).data;
        let data = match op {
            UnaryOp::Log => tape.eval(Calc::Ln(a)),
            UnaryOp::Exp => tape.eval(Calc::Exp(a)),
        };
        let zero = tape.eval(Calc::Zero);
        tape.push(Node { data, grad: zero, provenance: Provenance::Unary { op, operand: *self } })
    }

    /// The product `self * other`.
    pub fn mul<S: Copy, A: Fn(Calc<S>) -> S, C: Fn(S, S) -> bool>(
        &self,
        other: &Value,
        tape: &mut Tape<S, A, C>,
    ) -> (out: Value)
        requires
            old(tape).wf(),
            old(tape)@.holds(*self),
            old(tape)@.holds(*other),
        ensures
            final(tape).wf(),
            final(tape)@ == old(tape)@.binary(BinaryOp::Mul, *self, *other),
            out == old(tape)@.next(),
    {
        self.binary(BinaryOp::Mul, other, tape)
    }

    /// The quotient `self / other`. Nothing guards a divisor of zero: the
    /// calculator's answer is stored as it comes.
    pub fn div<S: Copy, A: Fn(Calc<S>) -> S, C: Fn(S, S) -> bool>(
        &self,
        other: &Value,
        tape: &mut Tape<S, A, C>,
    ) -> (out: Value)
        requires
            old(tape).wf(),
            old(tape)@.holds(*self),
            old(tape)@.holds(*other),
        ensures
            final(tape).wf(),
            final(tape)@ == old(tape)@.binary(BinaryOp::Div, *self, *other),
            out == old(tape)@.next(),
    {
        self.binary(BinaryOp::Div, other, tape)
    }

    /// The sum `self + other`.
    pub fn add<S: Copy, A: Fn(Calc<S>) -> S, C: Fn(S, S) -> bool>(
        &self,
        other: &Value,
        tape: &mut Tape<S, A, C>,
    ) -> (out: Value)
        requires
            old(tape).wf(),
            old(tape)@.holds(*self),
            old(tape)@.holds(*other),
        ensures
            final(tape).wf(),
            final(tape)@ == old(tape)@.binary(BinaryOp::Add, *self, *other),
            out == old(tape)@.next(),
    {
        self.binary(BinaryOp::Add, other, tape)
    }

    /// The difference `self - other`.
    pub fn sub<S: Copy, A: Fn(Calc<S>) -> S, C: Fn(S, S) -> bool>(
        &self,
        other: &Value,
        tape: &mut Tape<S, A, C>,
    ) -> (out: Value)
        requires
            old(tape).wf(),
            old(tape)@.holds(*self),
            old(tape)@.holds(*other),
        ensures
            final(tape).wf(),
            final(tape)@ == old(tape)@.binary(BinaryOp::Sub, *self, *other),
            out == old(tape)@.next(),
    {
        self.binary(BinaryOp::Sub, other, tape)
    }

    /// The greater of `self` and `other`; `self` where neither exceeds the
    /// other.
    pub fn max<S: Copy, A: Fn(Calc<S>) -> S, C: Fn(S, S) -> bool>(
        &self,
        other: &Value,
        tape: &mut Tape<S, A, C>,
    ) -> (out: Value)
        requires
            old(tape).wf(),
            old(tape)@.holds(*self),
            old(tape)@.holds(*other),
        ensures
            final(tape).wf(),
            final(tape)@ == old(tape)@.binary(BinaryOp::Max, *self, *other),
            out == old(tape)@.next(),
    {
        self.binary(BinaryOp::Max, other, tape)
    }

    /// The lesser of `self` and `other`; `self` where neither exceeds the
    /// other.
    pub fn min<S: Copy, A: Fn(Calc<S>) -> S, C: Fn(S, S) -> bool>(
        &self,
        other: &Value,
        tape: &mut Tape<S, A, C>,
    ) -> (out: Value)
        requires
            old(tape).wf(),
            old(tape)@.holds(*self),
            old(tape)@.holds(*other),
        ensures
            final(tape).wf(),
            final(tape)@ == old(tape)@.binary(BinaryOp::Min, *self, *other),
            out == old(tape)@.next(),
    {
        self.binary(BinaryOp::Min, other, tape)
    }

    /// The natural logarithm of `self`. Nothing guards an operand that is
    /// not positive.
    pub fn log<S: Copy, A: Fn(Calc<S>) -> S, C: Fn(S, S) -> bool>(
        &self,
        tape: &mut Tape<S, A, C>,
    ) -> (out: Value)
        requires
            old(tape).wf(),
            old(tape)@.holds(*self),
        ensures
            final(tape).wf(),
            final(tape)@ == old(tape)@.unary(UnaryOp::Log, *self),
            out == old(tape)@.next(),
    {
        self.unary(UnaryOp::Log, tape)
    }

    /// `e` raised to `self`.
    pub fn exp<S: Copy, A: Fn(Calc<S>) -> S, C: Fn(S, S) -> bool>(
        &self,
        tape: &mut Tape<S, A, C>,
    ) -> (out: Value)
        requires
            old(tape).wf(),
            old(tape)@.holds(*self),
        ensures
            final(tape).wf(),
            final(tape)@ == old(tape)@.unary(UnaryOp::Exp, *self),
            out == old(tape)@.next(),
    {
        self.unary(UnaryOp::Exp, tape)
    }

    /// The rectifier: the maximum of `self` and a new leaf zero. The result
    /// is a `Max` node like any other, so the gradient is routed as for
    /// `max`.
    pub fn relu<S: Copy, A: Fn(Calc<S>) -> S, C: Fn(S, S) -> bool>(
        &self,
        tape: &mut Tape<S, A, C>,
    ) -> (out: Value)
        requires
            old(tape).wf(),
            old(tape)@.holds(*self),
        ensures
            final(tape).wf(),
            final(tape)@ == old(tape)@.relu(*self),
            out == final(tape)@.top(),
    {
        let zero = tape.eval(Calc::Zero);
        let floor = Value::new(zero, tape);
        self.max(&floor, tape)
    }

    /// The negation of `self`, as the product of `self` and a new leaf
    /// minus one.
    pub fn negate<S: Copy, A: Fn(Calc<S>) -> S, C: Fn(S, S) -> bool>(
        &self,
        tape: &mut Tape<S, A, C>,
    ) -> (out: Value)
        requires
            old(tape).wf(),
            old(tape)@.holds(*self),
        ensures
            final(tape).wf(),
            final(tape)@ == old(tape)@.negate(*self),
            out == final(tape)@.top(),
    {
        let one = tape.eval(Calc::One);
        let minus_one = tape.eval(Calc::Neg(one));
        let sign = Value::new(minus_one, tape);
        self.mul(&sign, tape)
    }

    /// The difference `self - other`, as the sum of `self` and the negation
    /// of `other`.
    pub fn subtract<S: Copy, A: Fn(Calc<S>) -> S, C: Fn(S, S) -> bool>(
        &self,
        other: &Value,
        tape: &mut Tape<S, A, C>,
    ) -> (out: Value)
        requires
            old(tape).wf(),
            old(tape)@.holds(*self),
            old(tape)@.holds(*other),
        ensures
            final(tape).wf(),
            final(tape)@ == old(tape)@.subtract(*self, *other),
            out == final(tape)@.top(),
    {
        let negated = other.negate(tape);
        self.add(&negated, tape)
    }

    /// The sum of `values`: a new leaf zero to which the handles are added
    /// one by one, in order.
    pub fn sum<S: Copy, A: Fn(Calc<S>) -> S, C: Fn(S, S) -> bool>(
        values: &[Value],
        tape: &mut Tape<S, A, C>,
    ) -> (out: Value)
        requires
            old(tape).wf(),
            old(tape)@.holds_all(values@),
        ensures
            final(tape).wf(),
            final(tape)@ == old(tape)@.sum(values@),
            out == final(tape)@.top(),
    {
        let zero = tape.eval(Calc::Zero);
        let mut total = Value::new(zero, tape);
        let mut i: usize = 0;
        while i < values.len()
            invariant
                0 <= i <= values.len(),
                tape.wf(),
                old(tape)@.holds_all(values@),
                tape@ == old(tape)@.sum_of(values@, i as int),
                total == tape@.top(),
            decreases values.len() - i,
        {
            proof {
                lemma_sum_of_extends(old(tape)@, values@, i as int);
            }
            total = total.add(&values[i], tape);
            i += 1;
        }
        total
    }
}

} // verus!
