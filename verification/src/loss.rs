//! The cross-entropy loss.

use vstd::prelude::*;
use crate::graph::{BinaryOp, Graph, UnaryOp, Value};
use crate::numbers::Calc;
use crate::tape::Tape;

verus! {

impl<S> Graph<S> {
    /// The graph after `y_hat` was clipped to the range from the margin to
    /// one less the margin: a leaf for the margin, the maximum of `y_hat`
    /// and it, a leaf for the upper bound, and the minimum of the two.
    pub open spec fn clipped(self, y_hat: Value) -> Self {
        let raised = self.leaf(self.epsilon()).binary(BinaryOp::Max, y_hat, self.next());
        raised.leaf(raised.ceiling()).binary(BinaryOp::Min, raised.top(), raised.next())
    }

    /// The graph after the first `n` terms of the loss were added up: a leaf
    /// zero, then for each pair the clipped prediction, its logarithm, the
    /// product of the target with it, and the sum with the running total.
    pub open spec fn entropy_of(self, y: Seq<Value>, y_hat: Seq<Value>, n: int) -> Self
        decreases n,
    {
        if n <= 0 {
            self.leaf(self.zero())
        } else {
            let before = self.entropy_of(y, y_hat, n - 1);
            let clipped = before.clipped(y_hat[n - 1]);
            let logged = clipped.unary(UnaryOp::Log, clipped.top());
            logged.binary(BinaryOp::Mul, y[n - 1], logged.top()).binary(
                BinaryOp::Add,
                before.top(),
                logged.next(),
            )
        }
    }

    /// The number of pairs that targets and predictions form.
    pub open spec fn matched(y: Seq<Value>, y_hat: Seq<Value>) -> int {
        if y.len() <= y_hat.len() {
            y.len() as int
        } else {
            y_hat.len() as int
        }
    }

    /// The graph after the cross-entropy of the targets `y` and the
    /// predictions `y_hat` was built: the sum of the terms, times a leaf
    /// minus one. The loss is the node added last.
    pub open spec fn cross_entropy(self, y: Seq<Value>, y_hat: Seq<Value>) -> Self {
        let summed = self.entropy_of(y, y_hat, Self::matched(y, y_hat));
        summed.leaf(summed.minus_one()).binary(BinaryOp::Mul, summed.top(), summed.next())
    }
}

/// The terms of the loss keep the graph, and add seven nodes per pair after
/// the leaf zero.
pub proof fn lemma_entropy_of_extends<S>(
    g: Graph<S>,
    y: Seq<Value>,
    y_hat: Seq<Value>,
    n: int,
)
    requires
        0 <= n,
    ensures
        g.entropy_of(y, y_hat, n).len() == g.len() + 7 * n + 1,
        g.entropy_of(y, y_hat, n).extends(g),
    decreases n,
{
    if n > 0 {
        lemma_entropy_of_extends(g, y, y_hat, n - 1);
    }
}

/// The cross-entropy of the targets `y` and the predictions `y_hat`: minus
/// the sum over the pairs of target times the natural logarithm of the
/// prediction. Each prediction is first clipped to the range from `1e-15`
/// to one less that, so that no logarithm of zero is taken. Where the two
/// differ in length, the pairs end with the shorter.
pub fn cross_entropy_loss<S: Copy, A: Fn(Calc<S>) -> S, C: Fn(S, S) -> bool>(
    y: &[Value],
    y_hat: &[Value],
    tape: &mut Tape<S, A, C>,
) -> (loss: Value)
    requires
        old(tape).wf(),
        old(tape)@.holds_all(y@),
        old(tape)@.holds_all(y_hat@),
    ensures
        final(tape).wf(),
        final(tape)@ == old(tape)@.cross_entropy(y@, y_hat@),
        final(tape)@.extends(old(tape)@),
        loss == final(tape)@.top(),
{
    let pairs = if y.len() <= y_hat.len() {
        y.len()
    } else {
        y_hat.len()
    };
    let zero = tape.eval(Calc::Zero);
    let mut total = Value::new(zero, tape);
    let mut i: usize = 0;
    while i < pairs
        invariant
            0 <= i <= pairs,
            pairs == Graph::<S>::matched(y@, y_hat@),
            tape.wf(),
            old(tape)@.holds_all(y@),
            old(tape)@.holds_all(y_hat@),
            tape@ == old(tape)@.entropy_of(y@, y_hat@, i as int),
            total == tape@.top(),
        decreases pairs - i,
    {
        proof {
            lemma_entropy_of_extends(old(tape)@, y@, y_hat@, i as int);
            assert(old(tape)@.holds(y@[i as int]));
            assert(old(tape)@.holds(y_hat@[i as int]));
        }
        let margin = tape.eval(Calc::Epsilon);
        let floor = Value::new(margin, tape);
        let raised = y_hat[i].max(&floor, tape);
        let one = tape.eval(Calc::One);
        let bound = tape.eval(Calc::Sub(one, margin));
        let ceiling = Value::new(bound, tape);
        let clipped = raised.min(&ceiling, tape);
        let logged = clipped.log(tape);
        let term = y[i].mul(&logged, tape);
        total = total.add(&term, tape);
        i += 1;
    }
    proof {
        lemma_entropy_of_extends(old(tape)@, y@, y_hat@, pairs as int);
    }
    let one = tape.eval(Calc::One);
    let minus_one = tape.eval(Calc::Neg(one));
    let sign = Value::new(minus_one, tape);
    total.mul(&sign, tape)
}

} // verus!
