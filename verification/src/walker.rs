//! The topological walker: which nodes a root depends on, and the order in
//! which the backward pass has to visit them.
//!
//! Identifiers grow from producers to consumers. Read from the highest
//! identifier down, the nodes that the root depends on therefore come out
//! with every consumer before its producers.

use vstd::prelude::*;
use crate::graph::{Graph, Provenance, Value};
use crate::numbers::Calc;
use crate::tape::Tape;

verus! {

impl<S> Graph<S> {
    /// `from` depends on `to`: they are the same node, or an operand of
    /// `from` depends on `to`.
    pub open spec fn reaches(self, from: Value, to: Value) -> bool
        decreases from.id,
    {
        from == to || (self.holds(from) && match self.provenance(from) {
            Provenance::Leaf => false,
            Provenance::Unary { operand, .. } => operand.id < from.id && self.reaches(operand, to),
            Provenance::Binary { left, right, .. } => {
                ||| left.id < from.id && self.reaches(left, to)
                ||| right.id < from.id && self.reaches(right, to)
            },
        })
    }

    /// `o` is an operand of the node `v`.
    pub open spec fn feeds(self, o: Value, v: Value) -> bool {
        self.holds(v) && match self.provenance(v) {
            Provenance::Leaf => false,
            Provenance::Unary { operand, .. } => operand == o,
            Provenance::Binary { left, right, .. } => left == o || right == o,
        }
    }

    /// The nodes at positions `0 ..= top` that `root` depends on, from the
    /// highest position down.
    pub open spec fn trail(self, root: Value, top: int) -> Seq<Value>
        decreases top + 1,
    {
        if top < 0 {
            Seq::empty()
        } else {
            let v = Value { id: top as usize };
            let rest = self.trail(root, top - 1);
            if self.reaches(root, v) {
                seq![v] + rest
            } else {
                rest
            }
        }
    }

    /// The order of the backward pass from `root`: every node that `root`
    /// depends on, once, from the highest identifier down.
    pub open spec fn order(self, root: Value) -> Seq<Value> {
        self.trail(root, root.id as int)
    }
}

/// A node only depends on itself and on earlier nodes.
pub proof fn lemma_reaches_below<S>(
    g: Graph<S>,
    from: Value,
    to: Value,
)
    requires
        g.reaches(from, to),
    ensures
        to.id <= from.id,
    decreases from.id,
{
    if from != to {
        match g.provenance(from) {
            Provenance::Leaf => {},
            Provenance::Unary { operand, .. } => {
                lemma_reaches_below(g, operand, to);
            },
            Provenance::Binary { left, right, .. } => {
                if left.id < from.id && g.reaches(left, to) {
                    lemma_reaches_below(g, left, to);
                } else {
                    lemma_reaches_below(g, right, to);
                }
            },
        }
    }
}

/// What `from` depends on, it depends on the operands of, too.
pub proof fn lemma_reaches_operand<S>(
    g: Graph<S>,
    from: Value,
    v: Value,
    o: Value,
)
    requires
        g.acyclic(),
        g.reaches(from, v),
        g.feeds(o, v),
    ensures
        g.reaches(from, o),
    decreases from.id,
{
    if from == v {
        assert(Graph::<S>::earlier(g.nodes[v.id as int].provenance, v.id as int));
        assert(g.reaches(o, o));
    } else {
        match g.provenance(from) {
            Provenance::Leaf => {},
            Provenance::Unary { operand, .. } => {
                lemma_reaches_operand(g, operand, v, o);
            },
            Provenance::Binary { left, right, .. } => {
                if left.id < from.id && g.reaches(left, v) {
                    lemma_reaches_operand(g, left, v, o);
                } else {
                    lemma_reaches_operand(g, right, v, o);
                }
            },
        }
    }
}

/// What the trail holds: exactly the nodes up to `top` that `root` depends
/// on, in strictly falling order of identifier.
pub proof fn lemma_trail<S>(
    g: Graph<S>,
    root: Value,
    top: int,
)
    requires
        top <= usize::MAX,
    ensures
        forall|i: int| 0 <= i < g.trail(root, top).len() ==> {
            &&& (#[trigger] g.trail(root, top)[i]).id <= top
            &&& g.reaches(root, g.trail(root, top)[i])
        },
        forall|i: int, j: int| 0 <= i < j < g.trail(root, top).len() ==> 
            (#[trigger] g.trail(root, top)[i]).id > (#[trigger] g.trail(root, top)[j]).id,
        forall|v: Value| v.id <= top && g.reaches(root, v) ==> g.trail(root, top).contains(v),
    decreases top + 1,
{
    if top >= 0 {
        lemma_trail(g, root, top - 1);
        let v = Value { id: top as usize };
        let rest = g.trail(root, top - 1);
        let whole = g.trail(root, top);
        if g.reaches(root, v) {
            assert(whole == seq![v] + rest);
            assert(whole[0] == v);
            assert forall|i: int| 1 <= i < whole.len() implies #[trigger] whole[i] == rest[i - 1] by {}
            assert forall|w: Value| w.id <= top && g.reaches(root, w) implies whole.contains(w) by {
                if w.id == top {
                    assert(whole[0] == w);
                } else {
                    assert(rest.contains(w));
                    let k = choose|k: int| 0 <= k < rest.len() && rest[k] == w;
                    assert(whole[k + 1] == w);
                }
            }
        } else {
            assert forall|w: Value| w.id <= top && g.reaches(root, w) implies whole.contains(w) by {
                if w.id == top {
                    assert(w == v);
                }
            }
        }
    }
}

/// How many positions of `visited` are still unmarked.
pub open spec fn unseen(visited: Seq<bool>) -> nat
    decreases visited.len(),
{
    if visited.len() == 0 {
        0
    } else {
        unseen(visited.drop_last()) + if visited.last() {
            0nat
        } else {
            1nat
        }
    }
}

proof fn lemma_mark_one(visited: Seq<bool>, k: int)
    requires
        0 <= k < visited.len(),
        !visited[k],
    ensures
        unseen(visited.update(k, true)) + 1 == unseen(visited),
    decreases visited.len(),
{
    let marked = visited.update(k, true);
    if k == visited.len() - 1 {
        assert(marked.drop_last() =~= visited.drop_last());
    } else {
        lemma_mark_one(visited.drop_last(), k);
        assert(marked.drop_last() =~= visited.drop_last().update(k, true));
    }
}

/// The handle `o` was visited or waits on the stack.
pub open spec fn seen(o: Value, visited: Seq<bool>, stack: Seq<Value>) -> bool {
    (o.id < visited.len() && visited[o.id as int]) || stack.contains(o)
}

/// Every operand of the node `v` was visited or waits on the stack.
pub open spec fn operands_seen<S>(
    g: Graph<S>,
    v: Value,
    visited: Seq<bool>,
    stack: Seq<Value>,
) -> bool {
    forall|o: Value| g.feeds(o, v) ==> seen(o, visited, stack)
}

/// A set of visited nodes that holds the operands of each of its members
/// holds everything that its members depend on.
proof fn lemma_closed_covers<S>(
    g: Graph<S>,
    visited: Seq<bool>,
    from: Value,
    to: Value,
)
    requires
        visited.len() == g.len(),
        g.holds(from),
        visited[from.id as int],
        forall|k: int| 0 <= k < visited.len() && visited[k] ==> operands_seen(
            g,
            Value { id: k as usize },
            visited,
            Seq::empty(),
        ),
        g.reaches(from, to),
    ensures
        g.holds(to),
        visited[to.id as int],
    decreases from.id,
{
    if from != to {
        assert(operands_seen(g, Value { id: from.id as int as usize }, visited, Seq::empty()));
        assert(Value { id: from.id as int as usize } == from);
        match g.provenance(from) {
            Provenance::Leaf => {},
            Provenance::Unary { operand, .. } => {
                assert(g.feeds(operand, from));
                assert(seen(operand, visited, Seq::empty()));
                lemma_closed_covers(g, visited, operand, to);
            },
            Provenance::Binary { left, right, .. } => {
                assert(g.feeds(left, from));
                assert(g.feeds(right, from));
                assert(seen(left, visited, Seq::empty()));
                assert(seen(right, visited, Seq::empty()));
                if left.id < from.id && g.reaches(left, to) {
                    lemma_closed_covers(g, visited, left, to);
                } else {
                    lemma_closed_covers(g, visited, right, to);
                }
            },
        }
    }
}

impl Value {
    /// Walks the graph from this node and returns every node it depends on,
    /// itself included, each one once, in the order of the backward pass:
    /// no node comes before a node that depends on it.
    ///
    /// A depth-first traversal over an explicit stack finds the nodes; a set
    /// of visited identifiers makes a node that is reached along two paths
    /// count once.
    pub fn walk<S: Copy, A: Fn(Calc<S>) -> S, C: Fn(S, S) -> bool>(
        &self,
        tape: &Tape<S, A, C>,
    ) -> (order: Vec<Value>)
        requires
            tape.wf(),
            tape@.holds(*self),
        ensures
            order@ == tape@.order(*self),
            forall|v: Value| order@.contains(v) <==> tape@.reaches(*self, v),
            forall|i: int, j: int| 0 <= i < j < order@.len() ==> 
                (#[trigger] order@[i]).id > (#[trigger] order@[j]).id,
            forall|i: int, j: int| 0 <= i < j < order@.len() ==> 
                !tape@.reaches(#[trigger] order@[j], #[trigger] order@[i]),
    {
        let n = tape.len();
        let mut visited: Vec<bool> = Vec::new();
        while visited.len() < n
            invariant
                visited.len() <= n,
                forall|k: int| 0 <= k < visited.len() ==> !visited[k],
            decreases n - visited.len(),
        {
            visited.push(false);
        }
        let mut stack: Vec<Value> = Vec::new();
        stack.push(*self);
        assert(stack@[0] == *self);
        while stack.len() > 0
            invariant
                tape.wf(),
                tape@.holds(*self),
                n == tape@.len(),
                visited.len() == n,
                forall|j: int| 0 <= j < stack.len() ==> tape@.reaches(*self, #[trigger] stack[j]),
                forall|k: int| 0 <= k < n && visited[k] ==> tape@.reaches(*self, Value { id: k as usize }),
                seen(*self, visited@, stack@),
                forall|k: int| 0 <= k < n && visited[k] ==> operands_seen(
                    tape@,
                    Value { id: k as usize },
                    visited@,
                    stack@,
                ),
            decreases unseen(visited@), stack.len(),
        {
            let ghost before = stack@;
            let ghost marks = visited@;
            let v = stack.pop().unwrap();
            proof {
                lemma_reaches_below(tape@, *self, v);
                assert forall|o: Value| seen(o, marks, before) && o != v implies seen(
                    o,
                    marks,
                    stack@,
                ) by {
                    if before.contains(o) {
                        let j = choose|j: int| 0 <= j < before.len() && before[j] == o;
                        assert(stack@[j] == o);
                    }
                }
            }
            if !visited[v.id] {
                visited[v.id] = true;
                let node = tape.node(v);
                let ghost popped = stack@;
                match node.provenance {
                    Provenance::Leaf => {},
                    Provenance::Unary { operand, .. } => {
                        proof {
                            lemma_reaches_operand(tape@, *self, v, operand);
                        }
                        stack.push(operand);
                        assert(stack@[stack@.len() - 1] == operand);
                    },
                    Provenance::Binary { left, right, .. } => {
                        proof {
                            lemma_reaches_operand(tape@, *self, v, left);
                            lemma_reaches_operand(tape@, *self, v, right);
                        }
                        stack.push(left);
                        stack.push(right);
                        assert(stack@[stack@.len() - 2] == left);
                        assert(stack@[stack@.len() - 1] == right);
                    },
                }
                proof {
                    lemma_mark_one(marks, v.id as int);
                    assert forall|o: Value| seen(o, marks, popped) || o == v implies seen(
                        o,
                        visited@,
                        stack@,
                    ) by {
                        if o != v && !(o.id < marks.len() && marks[o.id as int]) {
                            let j = choose|j: int| 0 <= j < popped.len() && popped[j] == o;
                            assert(stack@[j] == o);
                        }
                    }
                    assert forall|k: int| 0 <= k < n && visited[k] implies operands_seen(
                        tape@,
                        Value { id: k as usize },
                        visited@,
                        stack@,
                    ) by {
                        let w = Value { id: k as usize };
                        if k == v.id {
                            assert(w == v);
                            assert forall|o: Value| tape@.feeds(o, w) implies seen(o, visited@, stack@) by {
                                assert(stack@.contains(o));
                            }
                        } else {
                            assert(operands_seen(tape@, w, marks, before));
                            assert forall|o: Value| tape@.feeds(o, w) implies seen(o, visited@, stack@) by {
                                assert(seen(o, marks, before));
                                if o != v {
                                    assert(seen(o, marks, popped));
                                }
                            }
                        }
                    }
                }
            } else {
                proof {
                    assert forall|k: int| 0 <= k < n && visited[k] implies operands_seen(
                        tape@,
                        Value { id: k as usize },
                        visited@,
                        stack@,
                    ) by {
                        let w = Value { id: k as usize };
                        assert(operands_seen(tape@, w, marks, before));
                        assert forall|o: Value| tape@.feeds(o, w) implies seen(o, visited@, stack@) by {
                            assert(seen(o, marks, before));
                        }
                    }
                }
            }
        }
        proof {
            assert(stack@ =~= Seq::empty());
            assert forall|k: int| 0 <= k < n implies (visited[k] <==> tape@.reaches(
                *self,
                Value { id: k as usize },
            )) by {
                if tape@.reaches(*self, Value { id: k as usize }) {
                    lemma_closed_covers(tape@, visited@, *self, Value { id: k as usize });
                }
            }
        }
        let mut order: Vec<Value> = Vec::new();
        let mut k = self.id + 1;
        while k > 0
            invariant
                0 <= k <= self.id + 1 <= n,
                visited.len() == n,
                n == tape@.len(),
                forall|k: int| 0 <= k < n ==> (visited[k] <==> tape@.reaches(*self, Value { id: k as usize })),
                tape@.order(*self) == order@ + tape@.trail(*self, k - 1),
            decreases k,
        {
            k -= 1;
            if visited[k] {
                let ghost sofar = order@;
                order.push(Value { id: k });
                assert(order@ + tape@.trail(*self, k - 1) =~= sofar + tape@.trail(*self, k as int));
            }
        }
        proof {
            assert(order@ =~= tape@.order(*self));
            lemma_trail(tape@, *self, self.id as int);
            assert forall|v: Value| order@.contains(v) implies tape@.reaches(*self, v) by {}
            assert forall|v: Value| tape@.reaches(*self, v) implies order@.contains(v) by {
                lemma_reaches_below(tape@, *self, v);
            }
            assert forall|i: int, j: int| 0 <= i < j < order@.len() implies !tape@.reaches(
                #[trigger] order@[j],
                #[trigger] order@[i],
            ) by {
                if tape@.reaches(order@[j], order@[i]) {
                    lemma_reaches_below(tape@, order@[j], order@[i]);
                }
            }
        }
        order
    }
}

} // verus!
