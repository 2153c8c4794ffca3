//! Helpers for classification: softmax, one-hot targets, the predicted
//! label and the accuracy of predictions.

use vstd::prelude::*;
use crate::graph::{BinaryOp, Graph, UnaryOp, Value};
use crate::nn::lemma_within_extended;
use crate::numbers::Calc;
use crate::tape::Tape;
use crate::value::lemma_sum_of_extends;

verus! {

impl<S> Graph<S> {
    /// The graph after the greatest of the first `n` of `values` was taken:
    /// one `Max` node for each value after the first.
    pub open spec fn peak_of(self, values: Seq<Value>, n: int) -> Self
        decreases n,
    {
        if n <= 1 {
            self
        } else {
            let before = self.peak_of(values, n - 1);
            let so_far = if n == 2 {
                values[0]
            } else {
                before.top()
            };
            before.binary(BinaryOp::Max, so_far, values[n - 1])
        }
    }

    /// The handle of the greatest of the first `n` of `values`: the first
    /// value itself where `n` is one, else the `Max` node added last.
    pub open spec fn peak(self, values: Seq<Value>, n: int) -> Value {
        if n <= 1 {
            values[0]
        } else {
            self.peak_of(values, n).top()
        }
    }

    /// The graph after `e` was raised to each of the first `n` of `values`
    /// less `peak`: for each value the difference, then its exponential.
    pub open spec fn shifted_of(self, values: Seq<Value>, peak: Value, n: int) -> Self
        decreases n,
    {
        if n <= 0 {
            self
        } else {
            let before = self.shifted_of(values, peak, n - 1);
            before.binary(BinaryOp::Sub, values[n - 1], peak).unary(UnaryOp::Exp, before.next())
        }
    }

    /// The exponentials that `shifted_of` adds, in order.
    pub open spec fn shifted_outputs_of(self, values: Seq<Value>, peak: Value, n: int) -> Seq<
        Value,
    > {
        Seq::new(n as nat, |i: int| self.shifted_of(values, peak, i + 1).top())
    }

    /// The graph after each of the first `n` of `values` was divided by
    /// `total`.
    pub open spec fn scaled_of(self, values: Seq<Value>, total: Value, n: int) -> Self
        decreases n,
    {
        if n <= 0 {
            self
        } else {
            self.scaled_of(values, total, n - 1).binary(BinaryOp::Div, values[n - 1], total)
        }
    }

    /// The quotients that `scaled_of` adds, in order.
    pub open spec fn scaled_outputs_of(self, values: Seq<Value>, total: Value, n: int) -> Seq<
        Value,
    > {
        Seq::new(n as nat, |i: int| self.scaled_of(values, total, i + 1).top())
    }

    /// The exponentials of a softmax over `values`.
    pub open spec fn softmax_exps(self, values: Seq<Value>) -> Seq<Value> {
        let n = values.len() as int;
        self.peak_of(values, n).shifted_outputs_of(values, self.peak(values, n), n)
    }

    /// The graph of a softmax over `values` up to the sum of the
    /// exponentials, which is the node added last.
    pub open spec fn softmax_summed(self, values: Seq<Value>) -> Self {
        let n = values.len() as int;
        self.peak_of(values, n).shifted_of(values, self.peak(values, n), n).sum(
            self.softmax_exps(values),
        )
    }

    /// The graph after a softmax over `values`: the greatest of the values
    /// is taken; each value less that peak is exponentiated; the
    /// exponentials are summed; each exponential is divided by the sum.
    /// Without values the graph stays as it is.
    pub open spec fn softmax(self, values: Seq<Value>) -> Self {
        if values.len() == 0 {
            self
        } else {
            let summed = self.softmax_summed(values);
            summed.scaled_of(self.softmax_exps(values), summed.top(), values.len() as int)
        }
    }

    /// The outputs of a softmax over `values`, one for each value.
    pub open spec fn softmax_outputs(self, values: Seq<Value>) -> Seq<Value> {
        if values.len() == 0 {
            Seq::empty()
        } else {
            let summed = self.softmax_summed(values);
            summed.scaled_outputs_of(self.softmax_exps(values), summed.top(), values.len() as int)
        }
    }

    /// The graph with `n` new leaves, of which the one at position `label`
    /// is one and the others are zero.
    pub open spec fn hot_of(self, label: int, n: int) -> Self
        decreases n,
    {
        if n <= 0 {
            self
        } else {
            let before = self.hot_of(label, n - 1);
            before.leaf(
                if n - 1 == label {
                    before.one()
                } else {
                    before.zero()
                },
            )
        }
    }

    /// The handles of the next `n` nodes of this graph.
    pub open spec fn coming(self, n: int) -> Seq<Value> {
        Seq::new(n as nat, |i: int| Value { id: (self.len() + i) as usize })
    }

    /// A scan of the first `n` of `values` for the greatest: the position
    /// and the value of the first that exceeds the least finite scalar and
    /// everything before it. Position zero and the least finite scalar where
    /// none does.
    pub open spec fn best_of(self, values: Seq<Value>, n: int) -> (int, S)
        decreases n,
    {
        if n <= 0 {
            (0, self.value(Calc::Lowest))
        } else {
            let before = self.best_of(values, n - 1);
            if self.above(self.data(values[n - 1]), before.1) {
                (n - 1, self.data(values[n - 1]))
            } else {
                before
            }
        }
    }

    /// The position of the greatest of `values`, the first of them on a tie.
    pub open spec fn predicted_label(self, values: Seq<Value>) -> int {
        self.best_of(values, values.len() as int).0
    }
}

/// How many of the first `n` pairs of `y` and `y_hat` agree.
pub open spec fn agreeing(y: Seq<u32>, y_hat: Seq<u32>, n: int) -> int
    decreases n,
{
    if n <= 0 {
        0
    } else {
        agreeing(y, y_hat, n - 1) + if y[n - 1] == y_hat[n - 1] {
            1int
        } else {
            0int
        }
    }
}

/// The number of pairs that two sequences of labels form.
pub open spec fn paired(y: Seq<u32>, y_hat: Seq<u32>) -> int {
    if y.len() <= y_hat.len() {
        y.len() as int
    } else {
        y_hat.len() as int
    }
}

/// Of `n` pairs, at most `n` agree.
pub proof fn lemma_agreeing_bounds(y: Seq<u32>, y_hat: Seq<u32>, n: int)
    requires
        0 <= n,
    ensures
        0 <= agreeing(y, y_hat, n) <= n,
    decreases n,
{
    if n > 0 {
        lemma_agreeing_bounds(y, y_hat, n - 1);
    }
}

/// Taking a peak keeps the graph, and the peak names a node of the graph
/// that results.
pub proof fn lemma_peak_of_extends<S>(
    g: Graph<S>,
    values: Seq<Value>,
    n: int,
)
    requires
        1 <= n <= values.len(),
        g.holds_all(values),
    ensures
        g.peak_of(values, n).len() == g.len() + n - 1,
        g.peak_of(values, n).extends(g),
        g.peak_of(values, n).holds(g.peak(values, n)),
    decreases n,
{
    if n > 1 {
        lemma_peak_of_extends(g, values, n - 1);
    } else {
        assert(g.holds(values[0]));
    }
}

/// Exponentiating keeps the graph, and adds two nodes per value.
pub proof fn lemma_shifted_of_extends<S>(
    g: Graph<S>,
    values: Seq<Value>,
    peak: Value,
    n: int,
)
    requires
        0 <= n,
    ensures
        g.shifted_of(values, peak, n).len() == g.len() + 2 * n,
        g.shifted_of(values, peak, n).extends(g),
    decreases n,
{
    if n > 0 {
        lemma_shifted_of_extends(g, values, peak, n - 1);
    }
}

/// Dividing keeps the graph, and adds one node per value.
pub proof fn lemma_scaled_of_extends<S>(
    g: Graph<S>,
    values: Seq<Value>,
    total: Value,
    n: int,
)
    requires
        0 <= n,
    ensures
        g.scaled_of(values, total, n).len() == g.len() + n,
        g.scaled_of(values, total, n).extends(g),
    decreases n,
{
    if n > 0 {
        lemma_scaled_of_extends(g, values, total, n - 1);
    }
}

/// One-hot leaves keep the graph, and add one node per position.
pub proof fn lemma_hot_of_extends<S>(
    g: Graph<S>,
    label: int,
    n: int,
)
    requires
        0 <= n,
    ensures
        g.hot_of(label, n).len() == g.len() + n,
        g.hot_of(label, n).extends(g),
    decreases n,
{
    if n > 0 {
        lemma_hot_of_extends(g, label, n - 1);
    }
}

/// The softmax of `values`: each output is `e` raised to its value, divided
/// by the sum of all of them. For stability the greatest of the values is
/// subtracted from each value before it is exponentiated. All of it is built
/// from the engine's operations, so gradients pass through.
pub fn softmax<S: Copy, A: Fn(Calc<S>) -> S, C: Fn(S, S) -> bool>(
    values: &[Value],
    tape: &mut Tape<S, A, C>,
) -> (outputs: Vec<Value>)
    requires
        old(tape).wf(),
        old(tape)@.holds_all(values@),
    ensures
        final(tape).wf(),
        final(tape)@ == old(tape)@.softmax(values@),
        final(tape)@.extends(old(tape)@),
        outputs@ == old(tape)@.softmax_outputs(values@),
        final(tape)@.holds_all(outputs@),
{
    let n = values.len();
    if n == 0 {
        return Vec::new();
    }
    let mut peak = values[0];
    let mut i: usize = 1;
    while i < n
        invariant
            1 <= i <= n,
            n == values@.len(),
            tape.wf(),
            old(tape)@.holds_all(values@),
            tape@ == old(tape)@.peak_of(values@, i as int),
            peak == old(tape)@.peak(values@, i as int),
        decreases n - i,
    {
        proof {
            lemma_peak_of_extends(old(tape)@, values@, i as int);
        }
        peak = peak.max(&values[i], tape);
        i += 1;
    }
    let ghost peaked = tape@;
    proof {
        lemma_peak_of_extends(old(tape)@, values@, n as int);
        lemma_within_extended(old(tape)@, peaked);
    }
    let mut exps: Vec<Value> = Vec::new();
    let mut i: usize = 0;
    while i < n
        invariant
            0 <= i <= n,
            n == values@.len(),
            tape.wf(),
            peaked.holds_all(values@),
            peaked.holds(peak),
            tape@ == peaked.shifted_of(values@, peak, i as int),
            exps@ == peaked.shifted_outputs_of(values@, peak, i as int),
            tape@.holds_all(exps@),
        decreases n - i,
    {
        let ghost before = tape@;
        proof {
            lemma_shifted_of_extends(peaked, values@, peak, i as int);
        }
        let shifted = values[i].sub(&peak, tape);
        let exp = shifted.exp(tape);
        proof {
            lemma_within_extended(before, tape@);
        }
        exps.push(exp);
        i += 1;
        assert(exps@ =~= peaked.shifted_outputs_of(values@, peak, i as int));
        assert forall|k: int| 0 <= k < exps@.len() implies tape@.holds(#[trigger] exps@[k]) by {
            if k < i - 1 {
                assert(before.holds_all(exps@.take(i - 1)));
                assert(exps@.take(i - 1)[k] == exps@[k]);
            }
        }
    }
    let ghost shifted = tape@;
    proof {
        lemma_shifted_of_extends(peaked, values@, peak, n as int);
        lemma_sum_of_extends(shifted, exps@, exps@.len() as int);
    }
    let total = Value::sum(exps.as_slice(), tape);
    let ghost summed = tape@;
    proof {
        lemma_within_extended(shifted, summed);
    }
    let mut outputs: Vec<Value> = Vec::new();
    let mut i: usize = 0;
    while i < n
        invariant
            0 <= i <= n,
            n == exps@.len(),
            tape.wf(),
            summed.holds_all(exps@),
            summed.holds(total),
            tape@ == summed.scaled_of(exps@, total, i as int),
            outputs@ == summed.scaled_outputs_of(exps@, total, i as int),
            tape@.holds_all(outputs@),
        decreases n - i,
    {
        let ghost before = tape@;
        proof {
            lemma_scaled_of_extends(summed, exps@, total, i as int);
        }
        let out = exps[i].div(&total, tape);
        outputs.push(out);
        i += 1;
        assert(outputs@ =~= summed.scaled_outputs_of(exps@, total, i as int));
        assert forall|k: int| 0 <= k < outputs@.len() implies tape@.holds(#[trigger] outputs@[k]) by {
            if k < i - 1 {
                assert(before.holds_all(outputs@.take(i - 1)));
                assert(outputs@.take(i - 1)[k] == outputs@[k]);
            }
        }
    }
    proof {
        lemma_scaled_of_extends(summed, exps@, total, n as int);
    }
    outputs
}

/// A one-hot vector: `size` new leaves, all zero but for a one at position
/// `label`.
pub fn one_hot_encode<S: Copy, A: Fn(Calc<S>) -> S, C: Fn(S, S) -> bool>(
    label: usize,
    size: usize,
    tape: &mut Tape<S, A, C>,
) -> (encoded: Vec<Value>)
    requires
        old(tape).wf(),
        label < size,
    ensures
        final(tape).wf(),
        final(tape)@ == old(tape)@.hot_of(label as int, size as int),
        final(tape)@.extends(old(tape)@),
        encoded@ == old(tape)@.coming(size as int),
        final(tape)@.holds_all(encoded@),
{
    let mut encoded: Vec<Value> = Vec::new();
    let mut i: usize = 0;
    while i < size
        invariant
            0 <= i <= size,
            tape.wf(),
            tape@ == old(tape)@.hot_of(label as int, i as int),
            encoded@ == old(tape)@.coming(i as int),
        decreases size - i,
    {
        proof {
            lemma_hot_of_extends(old(tape)@, label as int, i as int);
        }
        let data = if i == label {
            tape.eval(Calc::One)
        } else {
            tape.eval(Calc::Zero)
        };
        let leaf = Value::new(data, tape);
        encoded.push(leaf);
        i += 1;
        assert(encoded@ =~= old(tape)@.coming(i as int));
    }
    proof {
        lemma_hot_of_extends(old(tape)@, label as int, size as int);
    }
    encoded
}

/// The predicted label: the position of the greatest of the outputs, the
/// first of them where several are greatest. Zero for no outputs, and where
/// no output exceeds the least finite scalar.
pub fn get_predicted_label<S: Copy, A: Fn(Calc<S>) -> S, C: Fn(S, S) -> bool>(
    softmax_output: &[Value],
    tape: &Tape<S, A, C>,
) -> (label: usize)
    requires
        tape.wf(),
        tape@.holds_all(softmax_output@),
    ensures
        label == tape@.predicted_label(softmax_output@),
        softmax_output@.len() > 0 ==> label < softmax_output@.len(),
{
    let mut max_value = tape.eval(Calc::Lowest);
    let mut max_index: usize = 0;
    let mut i: usize = 0;
    while i < softmax_output.len()
        invariant
            0 <= i <= softmax_output.len(),
            tape.wf(),
            tape@.holds_all(softmax_output@),
            (max_index as int, max_value) == tape@.best_of(softmax_output@, i as int),
            i > 0 ==> max_index < i,
            i == 0 ==> max_index == 0,
        decreases softmax_output.len() - i,
    {
        let data = softmax_output[i].data(tape);
        if tape.above(data, max_value) {
            max_value = data;
            max_index = i;
        }
        i += 1;
    }
    max_index
}

/// The accuracy of the predictions `y_hat` against the labels `y`: the
/// number of positions at which the two agree, divided by the number of
/// labels. Positions that only one of the two has do not agree.
pub fn calculate_accuracy<S: Copy, A: Fn(Calc<S>) -> S, C: Fn(S, S) -> bool>(
    y: &[u32],
    y_hat: &[u32],
    tape: &Tape<S, A, C>,
) -> (accuracy: S)
    requires
        tape.wf(),
    ensures
        accuracy == tape@.value(
            Calc::Div(
                tape@.value(Calc::Count(agreeing(y@, y_hat@, paired(y@, y_hat@)) as usize)),
                tape@.value(Calc::Count(y@.len() as usize)),
            ),
        ),
{
    let pairs = if y.len() <= y_hat.len() {
        y.len()
    } else {
        y_hat.len()
    };
    let mut correct: usize = 0;
    let mut i: usize = 0;
    while i < pairs
        invariant
            0 <= i <= pairs,
            pairs == paired(y@, y_hat@),
            correct == agreeing(y@, y_hat@, i as int),
        decreases pairs - i,
    {
        proof {
            lemma_agreeing_bounds(y@, y_hat@, i as int);
        }
        if y[i] == y_hat[i] {
            correct += 1;
        }
        i += 1;
    }
    let hits = tape.eval(Calc::Count(correct));
    let all = tape.eval(Calc::Count(y.len()));
    tape.eval(Calc::Div(hits, all))
}

} // verus!
