//! The arena that stores a graph's nodes, with the calculator and the
//! comparator that its values are computed by.

use vstd::prelude::*;
use crate::graph::{Graph, Node, Provenance, Value};
use crate::numbers::{Calc, computes, decides, exceeds_of, value_of};

verus! {

/// The nodes of one expression graph, stored in the order they were made.
#[verifier::reject_recursive_types(S)]
pub struct Tape<S, A, C> {
    nodes: Vec<Node<S>>,
    calc: A,
    exceeds: C,
    model: Ghost<(spec_fn(Calc<S>) -> S, spec_fn(S, S) -> bool)>,
}

impl<S: Copy, A: Fn(Calc<S>) -> S, C: Fn(S, S) -> bool> View for Tape<S, A, C> {
    type V = Graph<S>;

    closed spec fn view(&self) -> Graph<S> {
        Graph { nodes: self.nodes@, calc: self.model@.0, exceeds: self.model@.1 }
    }
}

impl<S: Copy, A: Fn(Calc<S>) -> S, C: Fn(S, S) -> bool> Tape<S, A, C> {
    /// The calculator and the comparator answer as the graph's arithmetic
    /// says.
    pub closed spec fn sound(&self) -> bool {
        computes(self.calc, self.model@.0) && decides(self.exceeds, self.model@.1)
    }

    /// The tape's invariant: the arithmetic is usable and no node names a
    /// later one.
    pub open spec fn wf(&self) -> bool {
        self.sound() && self@.wf()
    }

    /// An empty tape over the arithmetic given by `calc` and `exceeds`, which
    /// must answer each question in a single way.
    pub fn new(calc: A, exceeds: C) -> (tape: Self)
        requires
            computes(calc, value_of(calc)),
            decides(exceeds, exceeds_of(exceeds)),
        ensures
            tape.wf(),
            tape@ == (Graph {
                nodes: Seq::<Node<S>>::empty(),
                calc: value_of(calc),
                exceeds: exceeds_of(exceeds),
            }),
    {
        Tape {
            nodes: Vec::new(),
            model: Ghost((value_of(calc), exceeds_of(exceeds))),
            calc,
            exceeds,
        }
    }

    /// An empty tape over the arithmetic given by `calc` and `exceeds`, of
    /// which the caller knows what they compute: `value` and `above`.
    pub fn modelled(
        calc: A,
        exceeds: C,
        Ghost(value): Ghost<spec_fn(Calc<S>) -> S>,
        Ghost(above): Ghost<spec_fn(S, S) -> bool>,
    ) -> (tape: Self)
        requires
            computes(calc, value),
            decides(exceeds, above),
        ensures
            tape.wf(),
            tape@ == (Graph { nodes: Seq::<Node<S>>::empty(), calc: value, exceeds: above }),
    {
        Tape { nodes: Vec::new(), model: Ghost((value, above)), calc, exceeds }
    }

    /// The number of nodes on the tape.
    pub fn len(&self) -> (n: usize)
        ensures
            n == self@.len(),
    {
        self.nodes.len()
    }

    /// The node that `v` names.
    pub fn node(&self, v: Value) -> (node: Node<S>)
        requires
            self@.holds(v),
        ensures
            node == self@.nodes[v.id as int],
    {
        self.nodes[v.id]
    }

    /// Discards every node from position `len` on: the nodes of a forward
    /// pass that is done with. Handles on the discarded nodes no longer name
    /// anything, and the identifiers of the discarded nodes are given out
    /// again to the nodes made next.
    pub fn truncate(&mut self, len: usize)
        requires
            old(self).wf(),
            len <= old(self)@.len(),
        ensures
            final(self).wf(),
            final(self)@ == old(self)@.truncated(len as int),
    {
        self.nodes.truncate(len);
    }

    /// Performs the calculation `c`.
    pub fn eval(&self, c: Calc<S>) -> (r: S)
        requires
            self.wf(),
        ensures
            r == self@.value(c),
    {
        (self.calc)(c)
    }

    /// Whether `a` is strictly greater than `b`.
    pub fn above(&self, a: S, b: S) -> (r: bool)
        requires
            self.wf(),
        ensures
            r == self@.above(a, b),
    {
        (self.exceeds)(a, b)
    }

    /// Appends `node` and returns its handle.
    pub(crate) fn push(&mut self, node: Node<S>) -> (v: Value)
        requires
            old(self).wf(),
            Graph::<S>::earlier(node.provenance, old(self)@.len()),
        ensures
            final(self).wf(),
            final(self)@ == old(self)@.with_node(node),
            v == old(self)@.next(),
    {
        self.nodes.push(node);
        Value { id: self.nodes.len() - 1 }
    }

    /// Replaces the gradient of the node `v`.
    pub(crate) fn set_grad(&mut self, v: Value, grad: S)
        requires
            old(self).wf(),
            old(self)@.holds(v),
        ensures
            final(self).wf(),
            final(self)@ == old(self)@.with_grad(v, grad),
    {
        let node = self.nodes[v.id];
        self.nodes[v.id] = Node { data: node.data, grad, provenance: node.provenance };
    }

    /// Replaces the value of the node `v`.
    pub(crate) fn set_data(&mut self, v: Value, data: S)
        requires
            old(self).wf(),
            old(self)@.holds(v),
        ensures
            final(self).wf(),
            final(self)@ == old(self)@.with_data(v, data),
    {
        let node = self.nodes[v.id];
        self.nodes[v.id] = Node { data, grad: node.grad, provenance: node.provenance };
    }
}

} // verus!
