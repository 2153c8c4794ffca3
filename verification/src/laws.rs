//! What the backward pass computes when the arithmetic is exact.
//!
//! The engine's contracts hold for any arithmetic. The laws below hold for
//! one that is exact: there is a reading `val` of scalars as real numbers
//! under which each calculation is the operation it is named after.

use vstd::prelude::*;
use crate::backward::{
    lemma_run_joined, lemma_run_keeps, lemma_run_one, lemma_run_spares, lemma_step_keeps,
};
use crate::classify::{
    lemma_peak_of_extends, lemma_scaled_of_extends, lemma_shifted_of_extends,
};
use crate::graph::{BinaryOp, Graph, Provenance, Value};
use crate::nn::{lemma_dot_of_extends, NeuronModel};
use crate::numbers::Calc;
use crate::value::lemma_sum_of_extends;
use crate::walker::{lemma_reaches_below, lemma_reaches_operand, lemma_trail};

verus! {

/// Read through `val`, the arithmetic `calc` is exact.
pub open spec fn exact<S>(calc: spec_fn(Calc<S>) -> S, val: spec_fn(S) -> real) -> bool {
    &&& val(calc(Calc::Zero)) == 0real
    &&& val(calc(Calc::One)) == 1real
    &&& forall|n: usize| val(#[trigger] calc(Calc::Count(n))) == n as real
    &&& forall|a: S| val(#[trigger] calc(Calc::Neg(a))) == -val(a)
    &&& forall|a: S, b: S| val(#[trigger] calc(Calc::Add(a, b))) == val(a) + val(b)
    &&& forall|a: S, b: S| val(#[trigger] calc(Calc::Sub(a, b))) == val(a) - val(b)
    &&& forall|a: S, b: S| val(#[trigger] calc(Calc::Mul(a, b))) == val(a) * val(b)
    &&& forall|a: S, b: S|
        val(b) != 0real ==> val(#[trigger] calc(Calc::Div(a, b))) == val(a) / val(b)
}

/// Among the nodes of a graph, a graph that extends it finds the same
/// dependences.
pub proof fn lemma_reaches_extended<S>(
    base: Graph<S>,
    longer: Graph<S>,
    from: Value,
    to: Value,
)
    requires
        longer.extends(base),
        base.holds(from),
    ensures
        longer.reaches(from, to) == base.reaches(from, to),
    decreases from.id,
{
    assert(longer.nodes[from.id as int] == base.nodes[from.id as int]);
    if from != to {
        match base.provenance(from) {
            Provenance::Leaf => {},
            Provenance::Unary { operand, .. } => {
                if operand.id < from.id {
                    lemma_reaches_extended(base, longer, operand, to);
                }
            },
            Provenance::Binary { left, right, .. } => {
                if left.id < from.id {
                    lemma_reaches_extended(base, longer, left, to);
                }
                if right.id < from.id {
                    lemma_reaches_extended(base, longer, right, to);
                }
            },
        }
    }
}

/// After a pass from a node made just now from `a` and `b`, neither of which
/// depends on the other, the gradients of `a` and `b` are what the new
/// node's own rule left there: no other rule of the pass adds to them.
pub proof fn lemma_pass_from_new_node<S>(
    g: Graph<S>,
    op: BinaryOp,
    a: Value,
    b: Value,
)
    requires
        g.wf(),
        g.len() < usize::MAX,
        g.holds(a),
        g.holds(b),
        !g.reaches(a, b),
        !g.reaches(b, a),
    ensures
        ({
            let built = g.binary(op, a, b);
            let root = g.next();
            let ruled = built.with_grad(root, built.one()).step(root);
            &&& built.backward(root).grad(a) == ruled.grad(a)
            &&& built.backward(root).grad(b) == ruled.grad(b)
        }),
{
    let built = g.binary(op, a, b);
    let root = g.next();
    let seeded = built.with_grad(root, built.one());
    let ruled = seeded.step(root);
    let rest = built.trail(root, root.id - 1);
    assert(built.extends(g));
    assert(built.acyclic());
    assert(built.reaches(root, root));
    assert(built.order(root) == seq![root] + rest);
    lemma_run_joined(seeded, seq![root], rest);
    lemma_run_one(seeded, root);
    lemma_step_keeps(seeded, root);
    lemma_trail(built, root, root.id - 1);
    assert(ruled.holds_all(rest));
    assert forall|i: int| 0 <= i < rest.len() implies !ruled.feeds(a, #[trigger] rest[i])
        && !ruled.feeds(b, rest[i]) by {
        let w = rest[i];
        assert(built.reaches(root, w));
        assert(ruled.provenance(w) == built.provenance(w));
        assert(Graph::<S>::earlier(built.nodes[w.id as int].provenance, w.id as int));
        let via = if built.reaches(a, w) {
            a
        } else {
            b
        };
        assert(built.reaches(via, w));
        lemma_reaches_below(built, via, w);
        if built.feeds(a, w) {
            lemma_reaches_operand(built, via, w, a);
            lemma_reaches_extended(g, built, b, a);
        }
        if built.feeds(b, w) {
            lemma_reaches_operand(built, via, w, b);
            lemma_reaches_extended(g, built, a, b);
        }
    }
    lemma_run_spares(ruled, rest, a);
    lemma_run_spares(ruled, rest, b);
}

/// The gradient of a sum with respect to each of its terms is one.
///
/// For two handles `a` and `b` whose gradients are zero and of which neither
/// depends on the other: after `add(a, b)` and a backward pass from the sum,
/// the gradient of `a` is one and the gradient of `b` is one.
pub proof fn law_add_gradient<S>(
    g: Graph<S>,
    val: spec_fn(S) -> real,
    a: Value,
    b: Value,
)
    requires
        g.wf(),
        g.len() < usize::MAX,
        exact(g.calc, val),
        g.holds(a),
        g.holds(b),
        !g.reaches(a, b),
        !g.reaches(b, a),
        val(g.grad(a)) == 0real,
        val(g.grad(b)) == 0real,
    ensures
        ({
            let after = g.binary(BinaryOp::Add, a, b).backward(g.next());
            &&& val(after.grad(a)) == 1real
            &&& val(after.grad(b)) == 1real
        }),
{
    lemma_pass_from_new_node(g, BinaryOp::Add, a, b);
    assert(g.reaches(a, a));
}

/// The gradient of a product with respect to one factor is the other factor.
///
/// For two handles `a` and `b` whose gradients are zero and of which neither
/// depends on the other: after `mul(a, b)` and a backward pass from the
/// product, the gradient of `a` is the value of `b` and the gradient of `b`
/// is the value of `a`.
pub proof fn law_mul_gradient<S>(
    g: Graph<S>,
    val: spec_fn(S) -> real,
    a: Value,
    b: Value,
)
    requires
        g.wf(),
        g.len() < usize::MAX,
        exact(g.calc, val),
        g.holds(a),
        g.holds(b),
        !g.reaches(a, b),
        !g.reaches(b, a),
        val(g.grad(a)) == 0real,
        val(g.grad(b)) == 0real,
    ensures
        ({
            let after = g.binary(BinaryOp::Mul, a, b).backward(g.next());
            &&& val(after.grad(a)) == val(g.data(b))
            &&& val(after.grad(b)) == val(g.data(a))
        }),
{
    lemma_pass_from_new_node(g, BinaryOp::Mul, a, b);
    assert(g.reaches(a, a));
}

/// Gradients gather along every path.
///
/// For a handle `x` whose gradient is zero: after `add(mul(x, x), x)` and a
/// backward pass from the sum, the gradient of `x` is twice its value plus
/// one. The node `x` is an operand three times over, and each use adds its
/// term.
pub proof fn law_diamond_gradient<S>(
    g: Graph<S>,
    val: spec_fn(S) -> real,
    x: Value,
)
    requires
        g.wf(),
        g.len() < usize::MAX,
        exact(g.calc, val),
        g.holds(x),
        val(g.grad(x)) == 0real,
    ensures
        ({
            let squared = g.binary(BinaryOp::Mul, x, x);
            let summed = squared.binary(BinaryOp::Add, g.next(), x);
            let after = summed.backward(squared.next());
            val(after.grad(x)) == 2real * val(g.data(x)) + 1real
        }),
{
    let squared = g.binary(BinaryOp::Mul, x, x);
    let summed = squared.binary(BinaryOp::Add, g.next(), x);
    let m = g.next();
    let s = squared.next();
    let seeded = summed.with_grad(s, summed.one());
    let rest = summed.trail(s, m.id - 1);
    assert(summed.acyclic());
    assert(summed.reaches(m, m));
    assert(summed.reaches(s, m));
    assert(summed.reaches(s, s));
    assert(summed.trail(s, m.id as int) == seq![m] + rest);
    assert(summed.order(s) == seq![s] + (seq![m] + rest));
    lemma_run_joined(seeded, seq![s], seq![m] + rest);
    lemma_run_one(seeded, s);
    let first = seeded.step(s);
    lemma_step_keeps(seeded, s);
    lemma_run_joined(first, seq![m], rest);
    lemma_run_one(first, m);
    let second = first.step(m);
    lemma_step_keeps(first, m);
    assert(val(first.grad(m)) == 1real);
    assert(val(first.grad(x)) == 1real);
    assert(first.data(x) == g.data(x));
    assert(val(second.grad(x)) == 2real * val(g.data(x)) + 1real);
    lemma_trail(summed, s, m.id - 1);
    assert(second.holds_all(rest));
    assert forall|i: int| 0 <= i < rest.len() implies !second.feeds(x, #[trigger] rest[i]) by {
        let w = rest[i];
        assert(summed.reaches(s, w));
        assert(second.provenance(w) == summed.provenance(w));
        assert(Graph::<S>::earlier(summed.nodes[w.id as int].provenance, w.id as int));
        assert(summed.reaches(m, w) || summed.reaches(x, w));
        assert(summed.reaches(x, w));
        lemma_reaches_below(summed, x, w);
    }
    lemma_run_spares(second, rest, x);
}

impl<S> Graph<S> {
    /// What the rule of the node `v` adds to the gradient of `n`, read
    /// through `val`: the term for each operand place of `v` that `n`
    /// fills, and zero where it fills none.
    pub open spec fn handed(self, val: spec_fn(S) -> real, v: Value, n: Value) -> real {
        match self.provenance(v) {
            Provenance::Leaf => 0real,
            Provenance::Unary { op, operand } => if operand == n {
                val(self.unary_term(op, self.data(operand), self.data(v), self.grad(v)))
            } else {
                0real
            },
            Provenance::Binary { op, left, right } => {
                let terms = self.binary_terms(op, self.data(left), self.data(right), self.grad(v));
                (if left == n {
                    val(terms.0)
                } else {
                    0real
                }) + (if right == n {
                    val(terms.1)
                } else {
                    0real
                })
            },
        }
    }

    /// What the rules of the nodes of `order` add to the gradient of `n`,
    /// all together.
    pub open spec fn gathered(self, val: spec_fn(S) -> real, order: Seq<Value>, n: Value) -> real
        decreases order.len(),
    {
        if order.len() == 0 {
            0real
        } else {
            self.gathered(val, order.drop_last(), n) + self.handed(val, order.last(), n)
        }
    }
}

/// One rule adds to each gradient what it hands to it.
pub proof fn lemma_step_adds<S>(
    g: Graph<S>,
    val: spec_fn(S) -> real,
    v: Value,
    n: Value,
)
    requires
        g.acyclic(),
        exact(g.calc, val),
        g.holds(v),
        g.holds(n),
    ensures
        val(g.step(v).grad(n)) == val(g.grad(n)) + g.handed(val, v, n),
{
    assert(Graph::<S>::earlier(g.nodes[v.id as int].provenance, v.id as int));
}

/// What a node hands on depends on the values, on the origins and on the
/// node's own gradient only.
pub proof fn lemma_handed_same<S>(
    g: Graph<S>,
    h: Graph<S>,
    val: spec_fn(S) -> real,
    v: Value,
    n: Value,
)
    requires
        g.acyclic(),
        g.holds(v),
        h.same_shape(g),
        forall|w: Value| g.holds(w) ==> h.data(w) == g.data(w),
        h.grad(v) == g.grad(v),
    ensures
        h.handed(val, v, n) == g.handed(val, v, n),
{
    assert(Graph::<S>::earlier(g.nodes[v.id as int].provenance, v.id as int));
    assert(h.provenance(v) == g.provenance(v));
    match g.provenance(v) {
        Provenance::Leaf => {},
        Provenance::Unary { op, operand } => {
            assert(g.holds(operand));
        },
        Provenance::Binary { op, left, right } => {
            assert(g.holds(left));
            assert(g.holds(right));
        },
    }
}

/// What nodes hand on is the same in two graphs that agree on the values,
/// on the origins and on the gradients of those nodes.
pub proof fn lemma_gathered_same<S>(
    g: Graph<S>,
    h: Graph<S>,
    val: spec_fn(S) -> real,
    order: Seq<Value>,
    n: Value,
)
    requires
        g.acyclic(),
        g.holds_all(order),
        h.same_shape(g),
        forall|w: Value| g.holds(w) ==> h.data(w) == g.data(w),
        forall|i: int| 0 <= i < order.len() ==> h.grad(#[trigger] order[i]) == g.grad(order[i]),
    ensures
        h.gathered(val, order, n) == g.gathered(val, order, n),
    decreases order.len(),
{
    if order.len() > 0 {
        let front = order.drop_last();
        assert forall|i: int| 0 <= i < front.len() implies g.holds(#[trigger] front[i]) by {
            assert(front[i] == order[i]);
        }
        assert forall|i: int| 0 <= i < front.len() implies h.grad(#[trigger] front[i]) == g.grad(
            front[i],
        ) by {
            assert(front[i] == order[i]);
        }
        lemma_gathered_same(g, h, val, front, n);
        let v = order[order.len() - 1];
        assert(g.holds(v));
        lemma_handed_same(g, h, val, v, n);
    }
}

/// After a run over nodes in falling order of identifier, each gradient is
/// what it was plus what the nodes of the run hand to it, where what a node
/// hands on is taken from the graph as the run leaves it.
pub proof fn lemma_run_gathers<S>(
    g: Graph<S>,
    val: spec_fn(S) -> real,
    order: Seq<Value>,
    n: Value,
)
    requires
        g.acyclic(),
        exact(g.calc, val),
        g.holds_all(order),
        g.holds(n),
        forall|i: int, j: int|
            0 <= i < j < order.len() ==> (#[trigger] order[i]).id > (#[trigger] order[j]).id,
    ensures
        val(g.run(order).grad(n)) == val(g.grad(n)) + g.run(order).gathered(val, order, n),
        forall|i: int| 0 <= i < order.len() ==> g.run(order).grad(#[trigger] order[i]) == g.run(
            order.take(i),
        ).grad(order[i]),
    decreases order.len(),
{
    if order.len() == 0 {
        assert forall|i: int| 0 <= i < order.len() implies g.run(order).grad(#[trigger] order[i])
            == g.run(order.take(i)).grad(order[i]) by {}
    } else {
        let front = order.drop_last();
        let v = order[order.len() - 1];
        let mid = g.run(front);
        let end = g.run(order);
        assert(g.holds(v));
        assert forall|i: int| 0 <= i < front.len() implies g.holds(#[trigger] front[i]) by {
            assert(front[i] == order[i]);
        }
        assert forall|i: int, j: int| 0 <= i < j < front.len() implies (#[trigger] front[i]).id > (
        #[trigger] front[j]).id by {
            assert(front[i] == order[i]);
            assert(front[j] == order[j]);
        }
        lemma_run_gathers(g, val, front, n);
        lemma_run_keeps(g, front);
        lemma_step_keeps(mid, v);
        lemma_step_adds(mid, val, v, n);
        assert(Graph::<S>::earlier(mid.nodes[v.id as int].provenance, v.id as int));
        // the rule of `v` spares the gradient of `v` and of every node before it
        assert(!mid.feeds(v, v));
        assert(end.grad(v) == mid.grad(v));
        assert forall|i: int| 0 <= i < front.len() implies end.grad(#[trigger] front[i]) == mid.grad(
            front[i],
        ) by {
            assert(front[i] == order[i]);
            assert(order[i].id > v.id);
            assert(!mid.feeds(front[i], v));
        }
        assert forall|w: Value| mid.holds(w) implies end.data(w) == mid.data(w) by {}
        assert(mid.holds_all(front));
        lemma_gathered_same(mid, end, val, front, n);
        lemma_handed_same(mid, end, val, v, n);
        assert forall|i: int| 0 <= i < order.len() implies end.grad(#[trigger] order[i]) == g.run(
            order.take(i),
        ).grad(order[i]) by {
            if i < front.len() {
                assert(front[i] == order[i]);
                assert(front.take(i) =~= order.take(i));
            } else {
                assert(order.take(i) =~= front);
            }
        }
    }
}

/// The backward pass gathers along every path.
///
/// After a pass from `root`, the gradient of a node is what it was before
/// the pass, or one for `root` itself, plus the sum, over every node that
/// `root` depends on, of what that node's rule hands to it. What a rule
/// hands on is computed from the node's own gradient after the pass: a node
/// passes on all that it has gathered from its consumers, and passes it on
/// once.
pub proof fn law_backward_gathers<S>(
    g: Graph<S>,
    val: spec_fn(S) -> real,
    root: Value,
    n: Value,
)
    requires
        g.wf(),
        exact(g.calc, val),
        g.holds(root),
        g.holds(n),
    ensures
        ({
            let after = g.backward(root);
            let before = if n == root {
                1real
            } else {
                val(g.grad(n))
            };
            val(after.grad(n)) == before + after.gathered(val, g.order(root), n)
        }),
{
    let seeded = g.with_grad(root, g.one());
    let order = g.order(root);
    lemma_trail(g, root, root.id as int);
    assert(seeded.holds_all(order));
    lemma_run_gathers(seeded, val, order, n);
}

impl<S> Graph<S> {
    /// The values of the first `n` of `handles`, read through `val` and
    /// added up.
    pub open spec fn data_total(self, val: spec_fn(S) -> real, handles: Seq<Value>, n: int) -> real
        decreases n,
    {
        if n <= 0 {
            0real
        } else {
            self.data_total(val, handles, n - 1) + val(self.data(handles[n - 1]))
        }
    }
}

/// Nodes that are added do not change what the values of earlier nodes add
/// up to.
pub proof fn lemma_data_total_same<S>(
    base: Graph<S>,
    longer: Graph<S>,
    val: spec_fn(S) -> real,
    a: Seq<Value>,
    b: Seq<Value>,
    n: int,
)
    requires
        longer.extends(base),
        0 <= n <= a.len(),
        n <= b.len(),
        forall|i: int| 0 <= i < n ==> base.holds(#[trigger] a[i]) && a[i] == b[i],
    ensures
        longer.data_total(val, b, n) == base.data_total(val, a, n),
    decreases n,
{
    if n > 0 {
        lemma_data_total_same(base, longer, val, a, b, n - 1);
        assert(base.holds(a[n - 1]) && a[n - 1] == b[n - 1]);
        assert(longer.nodes[a[n - 1].id as int] == base.nodes[a[n - 1].id as int]);
    }
}

/// With exact arithmetic the node that `sum` adds last holds the total of
/// the values summed.
pub proof fn lemma_sum_totals<S>(
    g: Graph<S>,
    val: spec_fn(S) -> real,
    values: Seq<Value>,
    n: int,
)
    requires
        exact(g.calc, val),
        0 <= n <= values.len(),
        g.holds_all(values),
        g.len() + n < usize::MAX,
    ensures
        val(g.sum_of(values, n).data(g.sum_of(values, n).top())) == g.data_total(val, values, n),
    decreases n,
{
    lemma_sum_of_extends(g, values, n);
    if n > 0 {
        lemma_sum_totals(g, val, values, n - 1);
        lemma_sum_of_extends(g, values, n - 1);
        let before = g.sum_of(values, n - 1);
        assert(g.holds(values[n - 1]));
        assert(before.nodes[values[n - 1].id as int] == g.nodes[values[n - 1].id as int]);
    }
}

/// Dividing is done value by value: more quotients extend fewer.
pub proof fn lemma_scaled_steps<S>(
    g: Graph<S>,
    values: Seq<Value>,
    total: Value,
    fewer: int,
    more: int,
)
    requires
        0 <= fewer <= more,
    ensures
        g.scaled_of(values, total, more).extends(g.scaled_of(values, total, fewer)),
    decreases more,
{
    if fewer < more {
        lemma_scaled_steps(g, values, total, fewer, more - 1);
    }
}

/// Exponentiating is done value by value: more exponentials extend fewer.
pub proof fn lemma_shifted_steps<S>(
    g: Graph<S>,
    values: Seq<Value>,
    peak: Value,
    fewer: int,
    more: int,
)
    requires
        0 <= fewer <= more,
    ensures
        g.shifted_of(values, peak, more).extends(g.shifted_of(values, peak, fewer)),
    decreases more,
{
    if fewer < more {
        lemma_shifted_steps(g, values, peak, fewer, more - 1);
    }
}

/// With exact arithmetic the quotients of values by a total that is not
/// zero add up to the values' sum divided by that total.
pub proof fn lemma_scaled_totals<S>(
    g: Graph<S>,
    val: spec_fn(S) -> real,
    values: Seq<Value>,
    total: Value,
    n: int,
)
    requires
        exact(g.calc, val),
        0 <= n <= values.len(),
        g.holds_all(values),
        g.holds(total),
        val(g.data(total)) != 0real,
        g.len() + n <= usize::MAX,
    ensures
        g.scaled_of(values, total, n).data_total(
            val,
            g.scaled_outputs_of(values, total, n),
            n,
        ) == g.data_total(val, values, n) / val(g.data(total)),
    decreases n,
{
    let t = val(g.data(total));
    if n > 0 {
        lemma_scaled_totals(g, val, values, total, n - 1);
        lemma_scaled_of_extends(g, values, total, n - 1);
        let before = g.scaled_of(values, total, n - 1);
        let after = g.scaled_of(values, total, n);
        let fewer = g.scaled_outputs_of(values, total, n - 1);
        let outs = g.scaled_outputs_of(values, total, n);
        assert forall|i: int| 0 <= i < n - 1 implies before.holds(#[trigger] fewer[i]) && fewer[i]
            == outs[i] by {
            lemma_scaled_of_extends(g, values, total, i + 1);
            lemma_scaled_steps(g, values, total, i + 1, n - 1);
        }
        lemma_data_total_same(before, after, val, fewer, outs, n - 1);
        assert(g.holds(values[n - 1]));
        assert(before.nodes[values[n - 1].id as int] == g.nodes[values[n - 1].id as int]);
        assert(before.nodes[total.id as int] == g.nodes[total.id as int]);
        let x = g.data_total(val, values, n - 1);
        let y = val(g.data(values[n - 1]));
        assert(val(after.data(outs[n - 1])) == y / t);
        assert(x / t + y / t == (x + y) / t) by (nonlinear_arith)
            requires
                t != 0real,
        ;
    } else {
        assert(0real / t == 0real) by (nonlinear_arith)
            requires
                t != 0real,
        ;
    }
}

/// The outputs of a softmax add up to one.
///
/// With exact arithmetic, for at least one value, and where the sum of the
/// exponentials is not zero.
pub proof fn law_softmax_sums_to_one<S>(
    g: Graph<S>,
    val: spec_fn(S) -> real,
    values: Seq<Value>,
)
    requires
        g.wf(),
        exact(g.calc, val),
        g.holds_all(values),
        values.len() >= 1,
        g.softmax(values).len() <= usize::MAX,
        val(g.softmax_summed(values).data(g.softmax_summed(values).top())) != 0real,
    ensures
        g.softmax(values).data_total(
            val,
            g.softmax_outputs(values),
            values.len() as int,
        ) == 1real,
{
    let n = values.len() as int;
    let peaked = g.peak_of(values, n);
    let peak = g.peak(values, n);
    let shifted = peaked.shifted_of(values, peak, n);
    let exps = g.softmax_exps(values);
    let summed = g.softmax_summed(values);
    let total = summed.top();
    lemma_peak_of_extends(g, values, n);
    lemma_shifted_of_extends(peaked, values, peak, n);
    lemma_sum_of_extends(shifted, exps, n);
    lemma_scaled_of_extends(summed, exps, total, n);
    assert forall|i: int| 0 <= i < n implies shifted.holds(#[trigger] exps[i]) by {
        lemma_shifted_of_extends(peaked, values, peak, i + 1);
        lemma_shifted_steps(peaked, values, peak, i + 1, n);
    }
    lemma_sum_totals(shifted, val, exps, n);
    lemma_sum_of_extends(shifted, exps, n);
    lemma_data_total_same(shifted, summed, val, exps, exps, n);
    assert(summed.holds_all(exps)) by {
        assert forall|i: int| 0 <= i < exps.len() implies summed.holds(#[trigger] exps[i]) by {
            assert(shifted.holds(exps[i]));
        }
    }
    lemma_scaled_totals(summed, val, exps, total, n);
    let t = val(summed.data(total));
    assert(t / t == 1real) by (nonlinear_arith)
        requires
            t != 0real,
    ;
}

/// Read through `val`, the comparison `exceeds` orders scalars as the real
/// numbers are ordered.
pub open spec fn ordered<S>(exceeds: spec_fn(S, S) -> bool, val: spec_fn(S) -> real) -> bool {
    forall|a: S, b: S| #[trigger] exceeds(a, b) <==> val(a) > val(b)
}

/// Read through `val`, the exponential of the arithmetic `calc` gives equal
/// results for equal operands.
pub open spec fn exp_respects<S>(calc: spec_fn(Calc<S>) -> S, val: spec_fn(S) -> real) -> bool {
    forall|a: S, b: S|
        val(a) == val(b) ==> val(#[trigger] calc(Calc::Exp(a))) == val(
            #[trigger] calc(Calc::Exp(b)),
        )
}

impl<S> Graph<S> {
    /// What a softmax over `values` raises `e` to at place `i`: the value
    /// there less the peak.
    pub open spec fn softmax_exponent(self, values: Seq<Value>, i: int) -> S {
        let n = values.len() as int;
        let peaked = self.peak_of(values, n);
        peaked.value(Calc::Sub(peaked.data(values[i]), peaked.data(self.peak(values, n))))
    }

    /// The greatest of the values of the first `n` of `handles`, read
    /// through `val`.
    pub open spec fn greatest(self, val: spec_fn(S) -> real, handles: Seq<Value>, n: int) -> real
        decreases n,
    {
        if n <= 1 {
            val(self.data(handles[0]))
        } else {
            let before = self.greatest(val, handles, n - 1);
            let last = val(self.data(handles[n - 1]));
            if last > before {
                last
            } else {
                before
            }
        }
    }
}

/// Where every value moves by `c`, the greatest moves by `c`.
pub proof fn lemma_greatest_shifts<S>(
    g: Graph<S>,
    val: spec_fn(S) -> real,
    v: Seq<Value>,
    w: Seq<Value>,
    c: real,
    n: int,
)
    requires
        1 <= n <= v.len(),
        v.len() == w.len(),
        forall|i: int| 0 <= i < v.len() ==> val(g.data(#[trigger] w[i])) == val(g.data(v[i])) + c,
    ensures
        g.greatest(val, w, n) == g.greatest(val, v, n) + c,
    decreases n,
{
    if n > 1 {
        lemma_greatest_shifts(g, val, v, w, c, n - 1);
        assert(val(g.data(w[n - 1])) == val(g.data(v[n - 1])) + c);
    } else {
        assert(val(g.data(w[0])) == val(g.data(v[0])) + c);
    }
}

/// With an exact comparator, the peak that a softmax takes holds the
/// greatest of the values.
pub proof fn lemma_peak_is_greatest<S>(
    g: Graph<S>,
    val: spec_fn(S) -> real,
    values: Seq<Value>,
    n: int,
)
    requires
        ordered(g.exceeds, val),
        1 <= n <= values.len(),
        g.holds_all(values),
        g.len() + n <= usize::MAX,
    ensures
        val(g.peak_of(values, n).data(g.peak(values, n))) == g.greatest(val, values, n),
    decreases n,
{
    lemma_peak_of_extends(g, values, n);
    if n > 1 {
        lemma_peak_is_greatest(g, val, values, n - 1);
        lemma_peak_of_extends(g, values, n - 1);
        let before = g.peak_of(values, n - 1);
        let so_far = g.peak(values, n - 1);
        assert(g.holds(values[n - 1]));
        assert(before.nodes[values[n - 1].id as int] == g.nodes[values[n - 1].id as int]);
        assert(before.holds(so_far));
        let a = before.data(so_far);
        let b = before.data(values[n - 1]);
        assert(before.above(b, a) <==> val(b) > val(a));
    } else {
        assert(g.holds(values[0]));
    }
}

/// What an exponential of a softmax holds: `e` raised to its value less the
/// peak.
pub proof fn lemma_shifted_value<S>(
    g: Graph<S>,
    values: Seq<Value>,
    peak: Value,
    n: int,
    i: int,
)
    requires
        0 <= i < n <= values.len(),
        g.holds_all(values),
        g.holds(peak),
        g.len() + 2 * n <= usize::MAX,
    ensures
        g.shifted_of(values, peak, n).holds(g.shifted_outputs_of(values, peak, n)[i]),
        g.shifted_of(values, peak, n).data(g.shifted_outputs_of(values, peak, n)[i]) == g.value(
            Calc::Exp(g.value(Calc::Sub(g.data(values[i]), g.data(peak)))),
        ),
{
    let before = g.shifted_of(values, peak, i);
    let made = g.shifted_of(values, peak, i + 1);
    lemma_shifted_of_extends(g, values, peak, i);
    lemma_shifted_of_extends(g, values, peak, i + 1);
    lemma_shifted_steps(g, values, peak, i + 1, n);
    assert(g.holds(values[i]));
    assert(before.nodes[values[i].id as int] == g.nodes[values[i].id as int]);
    assert(before.nodes[peak.id as int] == g.nodes[peak.id as int]);
    let out = made.top();
    assert(g.shifted_of(values, peak, n).nodes[out.id as int] == made.nodes[out.id as int]);
}

/// What an output of a softmax holds: its exponential divided by the total.
pub proof fn lemma_scaled_value<S>(
    g: Graph<S>,
    values: Seq<Value>,
    total: Value,
    n: int,
    i: int,
)
    requires
        0 <= i < n <= values.len(),
        g.holds_all(values),
        g.holds(total),
        g.len() + n <= usize::MAX,
    ensures
        g.scaled_of(values, total, n).data(g.scaled_outputs_of(values, total, n)[i]) == g.value(
            Calc::Div(g.data(values[i]), g.data(total)),
        ),
{
    let before = g.scaled_of(values, total, i);
    let made = g.scaled_of(values, total, i + 1);
    lemma_scaled_of_extends(g, values, total, i);
    lemma_scaled_of_extends(g, values, total, i + 1);
    lemma_scaled_steps(g, values, total, i + 1, n);
    assert(g.holds(values[i]));
    assert(before.nodes[values[i].id as int] == g.nodes[values[i].id as int]);
    assert(before.nodes[total.id as int] == g.nodes[total.id as int]);
    let out = made.top();
    assert(g.scaled_of(values, total, n).nodes[out.id as int] == made.nodes[out.id as int]);
}

/// Handles whose values agree one by one have values that add up to the
/// same.
pub proof fn lemma_data_total_agrees<S>(
    g: Graph<S>,
    h: Graph<S>,
    val: spec_fn(S) -> real,
    a: Seq<Value>,
    b: Seq<Value>,
    n: int,
)
    requires
        0 <= n <= a.len(),
        n <= b.len(),
        forall|i: int| 0 <= i < n ==> val(g.data(#[trigger] a[i])) == val(h.data(b[i])),
    ensures
        g.data_total(val, a, n) == h.data_total(val, b, n),
    decreases n,
{
    if n > 0 {
        lemma_data_total_agrees(g, h, val, a, b, n - 1);
        assert(val(g.data(a[n - 1])) == val(h.data(b[n - 1])));
    }
}

/// With exact arithmetic, what the exponentials of a softmax hold and what
/// their sum holds, read through `val`.
proof fn lemma_softmax_parts<S>(
    g: Graph<S>,
    val: spec_fn(S) -> real,
    values: Seq<Value>,
)
    requires
        g.wf(),
        exact(g.calc, val),
        ordered(g.exceeds, val),
        g.holds_all(values),
        values.len() >= 1,
        g.softmax(values).len() <= usize::MAX,
    ensures
        ({
            let n = values.len() as int;
            let summed = g.softmax_summed(values);
            let exps = g.softmax_exps(values);
            &&& summed.calc == g.calc
            &&& val(summed.data(summed.top())) == summed.data_total(val, exps, n)
            &&& forall|i: int|
                0 <= i < n ==> {
                    &&& val(g.softmax_exponent(values, i)) == val(g.data(values[i])) - g.greatest(
                        val,
                        values,
                        n,
                    )
                    &&& summed.data(#[trigger] exps[i]) == g.value(
                        Calc::Exp(g.softmax_exponent(values, i)),
                    )
                }
            &&& forall|i: int|
                0 <= i < n ==> g.softmax(values).data(#[trigger] g.softmax_outputs(values)[i])
                    == g.value(Calc::Div(summed.data(exps[i]), summed.data(summed.top())))
        }),
{
    let n = values.len() as int;
    let peaked = g.peak_of(values, n);
    let peak = g.peak(values, n);
    let shifted = peaked.shifted_of(values, peak, n);
    let exps = g.softmax_exps(values);
    let summed = g.softmax_summed(values);
    let total = summed.top();
    lemma_peak_of_extends(g, values, n);
    lemma_shifted_of_extends(peaked, values, peak, n);
    lemma_sum_of_extends(shifted, exps, n);
    lemma_scaled_of_extends(summed, exps, total, n);
    lemma_peak_is_greatest(g, val, values, n);
    assert(peaked.holds_all(values)) by {
        assert forall|i: int| 0 <= i < values.len() implies peaked.holds(#[trigger] values[i]) by {
            assert(g.holds(values[i]));
        }
    }
    assert forall|i: int| 0 <= i < n implies shifted.holds(#[trigger] exps[i]) by {
        lemma_shifted_value(peaked, values, peak, n, i);
    }
    assert(summed.holds_all(exps)) by {
        assert forall|i: int| 0 <= i < exps.len() implies summed.holds(#[trigger] exps[i]) by {
            assert(shifted.holds(exps[i]));
        }
    }
    lemma_sum_totals(shifted, val, exps, n);
    lemma_data_total_same(shifted, summed, val, exps, exps, n);
    assert forall|i: int| 0 <= i < n implies {
        &&& val(g.softmax_exponent(values, i)) == val(g.data(values[i])) - g.greatest(
            val,
            values,
            n,
        )
        &&& summed.data(#[trigger] exps[i]) == g.value(Calc::Exp(g.softmax_exponent(values, i)))
    } by {
        lemma_shifted_value(peaked, values, peak, n, i);
        assert(g.holds(values[i]));
        assert(peaked.nodes[values[i].id as int] == g.nodes[values[i].id as int]);
        assert(shifted.holds(exps[i]));
        assert(summed.nodes[exps[i].id as int] == shifted.nodes[exps[i].id as int]);
        let x = peaked.value(Calc::Sub(peaked.data(values[i]), peaked.data(peak)));
        assert(val(x) == val(g.data(values[i])) - g.greatest(val, values, n));
        assert(summed.data(exps[i]) == g.value(Calc::Exp(x)));
    }
    assert forall|i: int| 0 <= i < n implies g.softmax(values).data(
        #[trigger] g.softmax_outputs(values)[i],
    ) == g.value(Calc::Div(summed.data(exps[i]), summed.data(summed.top()))) by {
        lemma_scaled_value(summed, exps, total, n, i);
    }
}

/// Softmax is shift-invariant.
///
/// With exact arithmetic: where every value of `moved` is the value of
/// `values` at the same place plus one constant `c`, and the sum of the
/// exponentials is not zero, the softmax of `moved` gives, place by place,
/// what the softmax of `values` gives.
pub proof fn law_softmax_shift_invariant<S>(
    g: Graph<S>,
    val: spec_fn(S) -> real,
    values: Seq<Value>,
    moved: Seq<Value>,
    c: real,
)
    requires
        g.wf(),
        exact(g.calc, val),
        ordered(g.exceeds, val),
        exp_respects(g.calc, val),
        g.holds_all(values),
        g.holds_all(moved),
        values.len() >= 1,
        moved.len() == values.len(),
        forall|i: int|
            0 <= i < values.len() ==> val(g.data(#[trigger] moved[i])) == val(g.data(values[i]))
                + c,
        g.softmax(values).len() <= usize::MAX,
        val(g.softmax_summed(values).data(g.softmax_summed(values).top())) != 0real,
    ensures
        forall|i: int|
            0 <= i < values.len() ==> val(
                g.softmax(moved).data(#[trigger] g.softmax_outputs(moved)[i]),
            ) == val(g.softmax(values).data(g.softmax_outputs(values)[i])),
{
    let n = values.len() as int;
    let summed_v = g.softmax_summed(values);
    let summed_w = g.softmax_summed(moved);
    let exps_v = g.softmax_exps(values);
    let exps_w = g.softmax_exps(moved);
    lemma_softmax_sizes(g, values);
    lemma_softmax_sizes(g, moved);
    lemma_softmax_parts(g, val, values);
    lemma_softmax_parts(g, val, moved);
    lemma_greatest_shifts(g, val, values, moved, c, n);
    assert forall|i: int| 0 <= i < n implies val(summed_w.data(#[trigger] exps_w[i])) == val(
        summed_v.data(exps_v[i]),
    ) by {
        let x = g.softmax_exponent(values, i);
        let y = g.softmax_exponent(moved, i);
        assert(summed_v.data(exps_v[i]) == g.value(Calc::Exp(x)));
        assert(summed_w.data(exps_w[i]) == g.value(Calc::Exp(y)));
        assert(val(g.data(moved[i])) == val(g.data(values[i])) + c);
        assert(val(x) == val(y));
    }
    lemma_data_total_agrees(summed_w, summed_v, val, exps_w, exps_v, n);
    let tv = summed_v.data(summed_v.top());
    let tw = summed_w.data(summed_w.top());
    assert(val(tw) == val(tv));
    assert forall|i: int| 0 <= i < n implies val(
        g.softmax(moved).data(#[trigger] g.softmax_outputs(moved)[i]),
    ) == val(g.softmax(values).data(g.softmax_outputs(values)[i])) by {
        assert(val(summed_w.data(exps_w[i])) == val(summed_v.data(exps_v[i])));
        let out_v = g.softmax(values).data(g.softmax_outputs(values)[i]);
        let out_w = g.softmax(moved).data(g.softmax_outputs(moved)[i]);
        assert(out_v == g.value(Calc::Div(summed_v.data(exps_v[i]), tv)));
        assert(out_w == g.value(Calc::Div(summed_w.data(exps_w[i]), tw)));
    }
}

/// A softmax adds as many nodes whatever its values hold.
proof fn lemma_softmax_sizes<S>(
    g: Graph<S>,
    values: Seq<Value>,
)
    requires
        g.holds_all(values),
        values.len() >= 1,
    ensures
        g.softmax(values).len() == g.len() + 5 * values.len(),
{
    let n = values.len() as int;
    let peaked = g.peak_of(values, n);
    let peak = g.peak(values, n);
    let shifted = peaked.shifted_of(values, peak, n);
    let exps = g.softmax_exps(values);
    let summed = g.softmax_summed(values);
    lemma_peak_of_extends(g, values, n);
    lemma_shifted_of_extends(peaked, values, peak, n);
    lemma_sum_of_extends(shifted, exps, n);
    lemma_scaled_of_extends(summed, exps, summed.top(), n);
}

impl<S> Graph<S> {
    /// The products of the first `n` pairs of `weights` and `input`, read
    /// through `val` and added up.
    pub open spec fn dot_value(
        self,
        val: spec_fn(S) -> real,
        weights: Seq<Value>,
        input: Seq<Value>,
        n: int,
    ) -> real
        decreases n,
    {
        if n <= 0 {
            0real
        } else {
            self.dot_value(val, weights, input, n - 1) + val(self.data(weights[n - 1])) * val(
                self.data(input[n - 1]),
            )
        }
    }
}

/// With exact arithmetic the node that a dot product adds last holds the
/// sum of the products.
pub proof fn lemma_dot_value<S>(
    g: Graph<S>,
    val: spec_fn(S) -> real,
    weights: Seq<Value>,
    input: Seq<Value>,
    n: int,
)
    requires
        exact(g.calc, val),
        0 <= n <= weights.len(),
        n <= input.len(),
        g.holds_all(weights),
        g.holds_all(input),
        g.len() + 2 * n < usize::MAX,
    ensures
        val(g.dot_of(weights, input, n).data(g.dot_of(weights, input, n).top())) == g.dot_value(
            val,
            weights,
            input,
            n,
        ),
    decreases n,
{
    lemma_dot_of_extends(g, weights, input, n);
    if n > 0 {
        lemma_dot_value(g, val, weights, input, n - 1);
        lemma_dot_of_extends(g, weights, input, n - 1);
        let before = g.dot_of(weights, input, n - 1);
        assert(g.holds(weights[n - 1]));
        assert(g.holds(input[n - 1]));
        assert(before.nodes[weights[n - 1].id as int] == g.nodes[weights[n - 1].id as int]);
        assert(before.nodes[input[n - 1].id as int] == g.nodes[input[n - 1].id as int]);
    }
}

/// What a neuron computes.
///
/// With exact arithmetic, the output of a neuron holds the sum of the
/// products of its weights and its inputs, pair by pair, plus its bias; and
/// zero instead where the neuron is rectified and that sum is negative.
pub proof fn law_neuron_value<S>(
    g: Graph<S>,
    val: spec_fn(S) -> real,
    neuron: NeuronModel,
    input: Seq<Value>,
)
    requires
        g.wf(),
        exact(g.calc, val),
        ordered(g.exceeds, val),
        neuron.within(g),
        g.holds_all(input),
        g.neuron(neuron, input).len() <= usize::MAX,
    ensures
        ({
            let after = g.neuron(neuron, input);
            let sum = g.dot_value(
                val,
                neuron.weights,
                input,
                Graph::<S>::pairs(neuron.weights, input),
            ) + val(g.data(neuron.bias));
            val(after.data(after.top())) == if neuron.nonlin && sum < 0real {
                0real
            } else {
                sum
            }
        }),
{
    let n = Graph::<S>::pairs(neuron.weights, input);
    lemma_dot_of_extends(g, neuron.weights, input, n);
    lemma_dot_value(g, val, neuron.weights, input, n);
    let dotted = g.dot_of(neuron.weights, input, n);
    assert(dotted.nodes[neuron.bias.id as int] == g.nodes[neuron.bias.id as int]);
}

/// The predicted label is the first greatest.
///
/// With an exact comparison, where some value exceeds the least finite
/// scalar: no value exceeds the one at the predicted label, and every value
/// before the predicted label is less than it.
pub proof fn law_predicted_label_is_first_greatest<S>(
    g: Graph<S>,
    val: spec_fn(S) -> real,
    values: Seq<Value>,
    n: int,
)
    requires
        ordered(g.exceeds, val),
        0 <= n <= values.len(),
        exists|j: int| 0 <= j < n && val(g.data(values[j])) > val(g.value(Calc::Lowest)),
    ensures
        ({
            let found = g.best_of(values, n);
            &&& 0 <= found.0 < n
            &&& found.1 == g.data(values[found.0])
            &&& val(found.1) > val(g.value(Calc::Lowest))
            &&& forall|j: int| 0 <= j < n ==> val(g.data(#[trigger] values[j])) <= val(found.1)
            &&& forall|j: int| 0 <= j < found.0 ==> val(g.data(#[trigger] values[j])) < val(found.1)
        }),
    decreases n,
{
    if n > 0 {
        let lowest = val(g.value(Calc::Lowest));
        let earlier = exists|j: int| 0 <= j < n - 1 && val(g.data(values[j])) > lowest;
        if earlier {
            law_predicted_label_is_first_greatest(g, val, values, n - 1);
        } else {
            lemma_nothing_found(g, val, values, n - 1);
        }
        let before = g.best_of(values, n - 1);
        let last = g.data(values[n - 1]);
        assert(g.above(last, before.1) <==> val(last) > val(before.1));
    }
}

/// With an exact comparison, a scan over values of which none exceeds the
/// least finite scalar finds nothing.
pub proof fn lemma_nothing_found<S>(
    g: Graph<S>,
    val: spec_fn(S) -> real,
    values: Seq<Value>,
    n: int,
)
    requires
        ordered(g.exceeds, val),
        0 <= n <= values.len(),
        forall|j: int| 0 <= j < n ==> val(g.data(values[j])) <= val(g.value(Calc::Lowest)),
    ensures
        g.best_of(values, n) == (0int, g.value(Calc::Lowest)),
    decreases n,
{
    if n > 0 {
        lemma_nothing_found(g, val, values, n - 1);
        let last = g.data(values[n - 1]);
        assert(g.above(last, g.value(Calc::Lowest)) <==> val(last) > val(g.value(Calc::Lowest)));
    }
}

} // verus!
