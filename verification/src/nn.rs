//! Neurons, layers and networks: feed-forward expressions composed from the
//! scalar engine, and the list of their trainable leaves.

use vstd::prelude::*;
use vstd::slice::slice_subrange;
use crate::graph::{BinaryOp, Graph, Value};
use crate::numbers::Calc;
use crate::tape::Tape;

verus! {

/// What a neuron consists of: its weights in order, its bias, and whether
/// its output passes through the rectifier.
pub struct NeuronModel {
    pub weights: Seq<Value>,
    pub bias: Value,
    pub nonlin: bool,
}

impl NeuronModel {
    /// Every handle of the neuron names a node of `g`.
    pub open spec fn within<S>(
        self,
        g: Graph<S>,
    ) -> bool {
        g.holds_all(self.weights) && g.holds(self.bias)
    }

    /// The neuron's trainable leaves: the bias, then the weights.
    pub open spec fn parameters(self) -> Seq<Value> {
        seq![self.bias] + self.weights
    }
}

/// Every neuron of `layer` lies within `g`.
pub open spec fn layer_within<S>(
    layer: Seq<NeuronModel>,
    g: Graph<S>,
) -> bool {
    forall|j: int| 0 <= j < layer.len() ==> (#[trigger] layer[j]).within(g)
}

/// Every layer of `layers` lies within `g`.
pub open spec fn network_within<S>(
    layers: Seq<Seq<NeuronModel>>,
    g: Graph<S>,
) -> bool {
    forall|l: int| 0 <= l < layers.len() ==> layer_within(#[trigger] layers[l], g)
}

/// The trainable leaves of the first `n` neurons of `layer`.
pub open spec fn layer_parameters_of(layer: Seq<NeuronModel>, n: int) -> Seq<Value>
    decreases n,
{
    if n <= 0 {
        Seq::empty()
    } else {
        layer_parameters_of(layer, n - 1) + layer[n - 1].parameters()
    }
}

/// The trainable leaves of `layer`, neuron by neuron.
pub open spec fn layer_parameters(layer: Seq<NeuronModel>) -> Seq<Value> {
    layer_parameters_of(layer, layer.len() as int)
}

/// The trainable leaves of the first `n` layers of `layers`.
pub open spec fn network_parameters_of(layers: Seq<Seq<NeuronModel>>, n: int) -> Seq<Value>
    decreases n,
{
    if n <= 0 {
        Seq::empty()
    } else {
        network_parameters_of(layers, n - 1) + layer_parameters(layers[n - 1])
    }
}

/// The trainable leaves of a network: layer by layer, within a layer neuron
/// by neuron, and for each neuron its bias followed by its weights.
pub open spec fn network_parameters(layers: Seq<Seq<NeuronModel>>) -> Seq<Value> {
    network_parameters_of(layers, layers.len() as int)
}

/// The number of weights in the first `n` layers of a network of the widths
/// `dims`.
pub open spec fn weights_before(dims: Seq<usize>, n: int) -> int
    decreases n,
{
    if n <= 0 {
        0
    } else {
        weights_before(dims, n - 1) + dims[n - 1] * dims[n]
    }
}

/// The number of weights in a network of the widths `dims`.
pub open spec fn weights_in(dims: Seq<usize>) -> int {
    weights_before(dims, dims.len() - 1)
}

impl<S> Graph<S> {
    /// The graph with a new leaf for each of the first `n` of `values`.
    pub open spec fn leaves_of(self, values: Seq<S>, n: int) -> Self
        decreases n,
    {
        if n <= 0 {
            self
        } else {
            self.leaves_of(values, n - 1).leaf(values[n - 1])
        }
    }

    /// The graph with a new leaf for each of `values`.
    pub open spec fn leaves(self, values: Seq<S>) -> Self {
        self.leaves_of(values, values.len() as int)
    }

    /// The neuron that is made next in this graph: `input_size` weights at
    /// the next positions, and the bias after them.
    pub open spec fn newborn(self, input_size: int, nonlin: bool) -> NeuronModel {
        NeuronModel {
            weights: Seq::new(input_size as nat, |i: int| Value { id: (self.len() + i) as usize }),
            bias: Value { id: (self.len() + input_size) as usize },
            nonlin,
        }
    }

    /// The graph after a neuron with the initial weights `init` was made:
    /// a leaf for each weight, then a leaf zero for the bias.
    pub open spec fn with_neuron(self, init: Seq<S>) -> Self {
        self.leaves(init).leaf(self.zero())
    }

    /// The graph after the first `n` neurons of a layer were made. The
    /// neuron at position `j` takes its `input_size` weights from `init` at
    /// `j * input_size`.
    pub open spec fn with_layer_of(self, input_size: int, init: Seq<S>, n: int) -> Self
        decreases n,
    {
        if n <= 0 {
            self
        } else {
            self.with_layer_of(input_size, init, n - 1).with_neuron(
                init.subrange((n - 1) * input_size, n * input_size),
            )
        }
    }

    /// The first `n` neurons of the layer that is made next in this graph.
    pub open spec fn newborn_layer(
        self,
        input_size: int,
        n: int,
        nonlin: bool,
        init: Seq<S>,
    ) -> Seq<NeuronModel> {
        Seq::new(
            n as nat,
            |j: int| self.with_layer_of(input_size, init, j).newborn(input_size, nonlin),
        )
    }

    /// The weights in `init` that belong to layer `l` of a network of the
    /// widths `dims`.
    pub open spec fn layer_share(dims: Seq<usize>, init: Seq<S>, l: int) -> Seq<S> {
        init.subrange(weights_before(dims, l), weights_before(dims, l + 1))
    }

    /// The graph after the first `n` layers of a network of the widths
    /// `dims` were made.
    pub open spec fn with_network_of(self, dims: Seq<usize>, init: Seq<S>, n: int) -> Self
        decreases n,
    {
        if n <= 0 {
            self
        } else {
            self.with_network_of(dims, init, n - 1).with_layer_of(
                dims[n - 1] as int,
                Self::layer_share(dims, init, n - 1),
                dims[n] as int,
            )
        }
    }

    /// The first `n` layers of the network that is made next in this graph.
    /// Every layer but the last of the whole network is rectified.
    pub open spec fn newborn_network(self, dims: Seq<usize>, init: Seq<S>, n: int) -> Seq<
        Seq<NeuronModel>,
    > {
        Seq::new(
            n as nat,
            |l: int|
                self.with_network_of(dims, init, l).newborn_layer(
                    dims[l] as int,
                    dims[l + 1] as int,
                    l != dims.len() - 2,
                    Self::layer_share(dims, init, l),
                ),
        )
    }

    /// The graph after the first `n` products of a dot product were added
    /// up: a leaf zero, then for each pair the product and its sum with the
    /// running total.
    pub open spec fn dot_of(self, weights: Seq<Value>, input: Seq<Value>, n: int) -> Self
        decreases n,
    {
        if n <= 0 {
            self.leaf(self.zero())
        } else {
            let before = self.dot_of(weights, input, n - 1);
            before.binary(BinaryOp::Mul, weights[n - 1], input[n - 1]).binary(
                BinaryOp::Add,
                before.top(),
                before.next(),
            )
        }
    }

    /// The number of pairs that a neuron multiplies: the shorter of its
    /// weights and its input decides.
    pub open spec fn pairs(weights: Seq<Value>, input: Seq<Value>) -> int {
        if weights.len() <= input.len() {
            weights.len() as int
        } else {
            input.len() as int
        }
    }

    /// The graph after `neuron` was applied to `input`: the dot product of
    /// weights and input, plus the bias, rectified where the neuron asks for
    /// it. The neuron's output is the node added last.
    pub open spec fn neuron(self, neuron: NeuronModel, input: Seq<Value>) -> Self {
        let dotted = self.dot_of(neuron.weights, input, Self::pairs(neuron.weights, input));
        let biased = dotted.binary(BinaryOp::Add, dotted.top(), neuron.bias);
        if neuron.nonlin {
            biased.relu(biased.top())
        } else {
            biased
        }
    }

    /// The graph after the first `n` neurons of `layer` were applied to
    /// `input`.
    pub open spec fn layer_of(self, layer: Seq<NeuronModel>, input: Seq<Value>, n: int) -> Self
        decreases n,
    {
        if n <= 0 {
            self
        } else {
            self.layer_of(layer, input, n - 1).neuron(layer[n - 1], input)
        }
    }

    /// The graph after `layer` was applied to `input`.
    pub open spec fn layer(self, layer: Seq<NeuronModel>, input: Seq<Value>) -> Self {
        self.layer_of(layer, input, layer.len() as int)
    }

    /// The outputs of the first `n` neurons of `layer` applied to `input`.
    pub open spec fn layer_outputs_of(
        self,
        layer: Seq<NeuronModel>,
        input: Seq<Value>,
        n: int,
    ) -> Seq<Value> {
        Seq::new(n as nat, |j: int| self.layer_of(layer, input, j + 1).top())
    }

    /// The outputs of `layer` applied to `input`, one for each neuron.
    pub open spec fn layer_outputs(self, layer: Seq<NeuronModel>, input: Seq<Value>) -> Seq<Value> {
        self.layer_outputs_of(layer, input, layer.len() as int)
    }

    /// The graph after `input` was threaded through the first `n` of
    /// `layers`.
    pub open spec fn network_of(
        self,
        layers: Seq<Seq<NeuronModel>>,
        input: Seq<Value>,
        n: int,
    ) -> Self
        decreases n, 1nat,
    {
        if n <= 0 {
            self
        } else {
            self.network_of(layers, input, n - 1).layer(
                layers[n - 1],
                self.network_outputs_of(layers, input, n - 1),
            )
        }
    }

    /// What comes out of the first `n` of `layers` when `input` goes in.
    pub open spec fn network_outputs_of(
        self,
        layers: Seq<Seq<NeuronModel>>,
        input: Seq<Value>,
        n: int,
    ) -> Seq<Value>
        decreases n, 0nat,
    {
        if n <= 0 {
            input
        } else {
            self.network_of(layers, input, n - 1).layer_outputs(
                layers[n - 1],
                self.network_outputs_of(layers, input, n - 1),
            )
        }
    }

    /// The graph after `input` was threaded through `layers`.
    pub open spec fn network(self, layers: Seq<Seq<NeuronModel>>, input: Seq<Value>) -> Self {
        self.network_of(layers, input, layers.len() as int)
    }

    /// What comes out of `layers` when `input` goes in.
    pub open spec fn network_outputs(
        self,
        layers: Seq<Seq<NeuronModel>>,
        input: Seq<Value>,
    ) -> Seq<Value> {
        self.network_outputs_of(layers, input, layers.len() as int)
    }
}

/// New leaves keep the graph they are added to.
pub proof fn lemma_leaves_of_extends<S>(
    g: Graph<S>,
    values: Seq<S>,
    n: int,
)
    requires
        0 <= n,
    ensures
        g.leaves_of(values, n).len() == g.len() + n,
        g.leaves_of(values, n).extends(g),
        g.acyclic() ==> g.leaves_of(values, n).acyclic(),
    decreases n,
{
    if n > 0 {
        lemma_leaves_of_extends(g, values, n - 1);
    }
}

/// A dot product keeps the graph it is added to, and adds two nodes for each
/// pair after its leaf zero.
pub proof fn lemma_dot_of_extends<S>(
    g: Graph<S>,
    weights: Seq<Value>,
    input: Seq<Value>,
    n: int,
)
    requires
        0 <= n,
    ensures
        g.dot_of(weights, input, n).len() == g.len() + 2 * n + 1,
        g.dot_of(weights, input, n).extends(g),
    decreases n,
{
    if n > 0 {
        lemma_dot_of_extends(g, weights, input, n - 1);
    }
}

/// Applying a neuron keeps the graph it is applied in.
pub proof fn lemma_neuron_extends<S>(
    g: Graph<S>,
    neuron: NeuronModel,
    input: Seq<Value>,
)
    ensures
        g.neuron(neuron, input).len() > g.len(),
        g.neuron(neuron, input).extends(g),
{
    lemma_dot_of_extends(g, neuron.weights, input, Graph::<S>::pairs(neuron.weights, input));
}

/// The neuron as it stands in memory.
#[derive(Debug)]
pub struct Neuron {
    weights: Vec<Value>,
    bias: Value,
    nonlin: bool,
}

impl View for Neuron {
    type V = NeuronModel;

    closed spec fn view(&self) -> NeuronModel {
        NeuronModel { weights: self.weights@, bias: self.bias, nonlin: self.nonlin }
    }
}

impl Neuron {
    /// A neuron of `input_size` weights whose initial values are `init`, in
    /// order, and a bias of zero. The weights become leaves first, the bias
    /// after them.
    pub fn new<S: Copy, A: Fn(Calc<S>) -> S, C: Fn(S, S) -> bool>(
        input_size: usize,
        nonlin: bool,
        init: &[S],
        tape: &mut Tape<S, A, C>,
    ) -> (neuron: Neuron)
        requires
            old(tape).wf(),
            init@.len() == input_size,
        ensures
            final(tape).wf(),
            final(tape)@ == old(tape)@.with_neuron(init@),
            final(tape)@.extends(old(tape)@),
            neuron@ == old(tape)@.newborn(input_size as int, nonlin),
            neuron@.within(final(tape)@),
    {
        let mut weights: Vec<Value> = Vec::new();
        let mut i: usize = 0;
        while i < input_size
            invariant
                0 <= i <= input_size,
                init@.len() == input_size,
                tape.wf(),
                tape@ == old(tape)@.leaves_of(init@, i as int),
                weights@ == old(tape)@.newborn(i as int, nonlin).weights,
            decreases input_size - i,
        {
            proof {
                lemma_leaves_of_extends(old(tape)@, init@, i as int);
            }
            let weight = Value::new(init[i], tape);
            weights.push(weight);
            i += 1;
            assert(weights@ =~= old(tape)@.newborn(i as int, nonlin).weights);
        }
        proof {
            lemma_leaves_of_extends(old(tape)@, init@, input_size as int);
        }
        let zero = tape.eval(Calc::Zero);
        let bias = Value::new(zero, tape);
        Neuron { weights, bias, nonlin }
    }

    /// The neuron's weights, in order.
    pub fn weights(&self) -> (weights: &Vec<Value>)
        ensures
            weights@ == self@.weights,
    {
        &self.weights
    }

    /// The neuron's bias.
    pub fn bias(&self) -> (bias: &Value)
        ensures
            *bias == self@.bias,
    {
        &self.bias
    }

    /// Applies the neuron to `input`: the sum of the products of weights and
    /// inputs, pair by pair, plus the bias; rectified where the neuron was
    /// made so. Where weights and input differ in length, the pairs end with
    /// the shorter.
    pub fn forward<S: Copy, A: Fn(Calc<S>) -> S, C: Fn(S, S) -> bool>(
        &self,
        input: &[Value],
        tape: &mut Tape<S, A, C>,
    ) -> (out: Value)
        requires
            old(tape).wf(),
            self@.within(old(tape)@),
            old(tape)@.holds_all(input@),
        ensures
            final(tape).wf(),
            final(tape)@ == old(tape)@.neuron(self@, input@),
            final(tape)@.extends(old(tape)@),
            out == final(tape)@.top(),
    {
        let pairs = if self.weights.len() <= input.len() {
            self.weights.len()
        } else {
            input.len()
        };
        let zero = tape.eval(Calc::Zero);
        let mut total = Value::new(zero, tape);
        let mut i: usize = 0;
        while i < pairs
            invariant
                0 <= i <= pairs,
                pairs == Graph::<S>::pairs(self@.weights, input@),
                tape.wf(),
                self@.within(old(tape)@),
                old(tape)@.holds_all(input@),
                tape@ == old(tape)@.dot_of(self@.weights, input@, i as int),
                total == tape@.top(),
            decreases pairs - i,
        {
            proof {
                lemma_dot_of_extends(old(tape)@, self@.weights, input@, i as int);
                assert(old(tape)@.holds(self@.weights[i as int]));
                assert(old(tape)@.holds(input@[i as int]));
            }
            let product = self.weights[i].mul(&input[i], tape);
            total = total.add(&product, tape);
            i += 1;
        }
        proof {
            lemma_dot_of_extends(old(tape)@, self@.weights, input@, pairs as int);
            lemma_neuron_extends(old(tape)@, self@, input@);
        }
        let biased = total.add(&self.bias, tape);
        if self.nonlin {
            biased.relu(tape)
        } else {
            biased
        }
    }
}

/// Handles that name nodes of a graph name nodes of every graph that
/// extends it.
pub proof fn lemma_within_extended<S>(
    base: Graph<S>,
    longer: Graph<S>,
)
    requires
        longer.extends(base),
    ensures
        forall|vs: Seq<Value>| base.holds_all(vs) ==> longer.holds_all(vs),
        forall|neuron: NeuronModel| neuron.within(base) ==> neuron.within(longer),
        forall|layer: Seq<NeuronModel>| layer_within(layer, base) ==> layer_within(layer, longer),
        forall|layers: Seq<Seq<NeuronModel>>|
            network_within(layers, base) ==> network_within(layers, longer),
{
    assert forall|vs: Seq<Value>| base.holds_all(vs) implies longer.holds_all(vs) by {
        assert forall|i: int| 0 <= i < vs.len() implies longer.holds(#[trigger] vs[i]) by {
            assert(base.holds(vs[i]));
        }
    }
    assert forall|layer: Seq<NeuronModel>| layer_within(layer, base) implies layer_within(
        layer,
        longer,
    ) by {
        assert forall|j: int| 0 <= j < layer.len() implies (#[trigger] layer[j]).within(longer) by {
            assert(layer[j].within(base));
        }
    }
    assert forall|layers: Seq<Seq<NeuronModel>>| network_within(layers, base) implies network_within(
        layers,
        longer,
    ) by {
        assert forall|l: int| 0 <= l < layers.len() implies layer_within(
            #[trigger] layers[l],
            longer,
        ) by {
            assert(layer_within(layers[l], base));
        }
    }
}

/// Making the neurons of a layer keeps the graph they are made in.
pub proof fn lemma_with_layer_of_extends<S>(
    g: Graph<S>,
    input_size: int,
    init: Seq<S>,
    n: int,
)
    requires
        0 <= n,
    ensures
        g.with_layer_of(input_size, init, n).extends(g),
    decreases n,
{
    if n > 0 {
        lemma_with_layer_of_extends(g, input_size, init, n - 1);
        let before = g.with_layer_of(input_size, init, n - 1);
        let share = init.subrange((n - 1) * input_size, n * input_size);
        lemma_leaves_of_extends(before, share, share.len() as int);
    }
}

/// Applying the neurons of a layer keeps the graph they are applied in.
pub proof fn lemma_layer_of_extends<S>(
    g: Graph<S>,
    layer: Seq<NeuronModel>,
    input: Seq<Value>,
    n: int,
)
    requires
        0 <= n,
    ensures
        g.layer_of(layer, input, n).extends(g),
        n > 0 ==> g.layer_of(layer, input, n).len() > g.len(),
    decreases n,
{
    if n > 0 {
        lemma_layer_of_extends(g, layer, input, n - 1);
        lemma_neuron_extends(g.layer_of(layer, input, n - 1), layer[n - 1], input);
    }
}

/// A layer: neurons that take the same input.
#[derive(Debug)]
pub struct Layer {
    neurons: Vec<Neuron>,
}

impl View for Layer {
    type V = Seq<NeuronModel>;

    closed spec fn view(&self) -> Seq<NeuronModel> {
        Seq::new(self.neurons@.len(), |j: int| self.neurons@[j]@)
    }
}

impl Layer {
    /// A layer of `output_size` neurons of `input_size` weights each. The
    /// neuron at position `j` takes its initial weights from `init` at
    /// `j * input_size`; `init` holds exactly the weights of the layer.
    pub fn new<S: Copy, A: Fn(Calc<S>) -> S, C: Fn(S, S) -> bool>(
        input_size: usize,
        output_size: usize,
        nonlin: bool,
        init: &[S],
        tape: &mut Tape<S, A, C>,
    ) -> (layer: Layer)
        requires
            old(tape).wf(),
            init@.len() == input_size * output_size,
        ensures
            final(tape).wf(),
            final(tape)@ == old(tape)@.with_layer_of(input_size as int, init@, output_size as int),
            final(tape)@.extends(old(tape)@),
            layer@ == old(tape)@.newborn_layer(
                input_size as int,
                output_size as int,
                nonlin,
                init@,
            ),
            layer_within(layer@, final(tape)@),
    {
        let mut neurons: Vec<Neuron> = Vec::new();
        let count = init.len();
        let mut offset: usize = 0;
        let mut j: usize = 0;
        while j < output_size
            invariant
                0 <= j <= output_size,
                count == input_size * output_size,
                init@.len() == count,
                offset == j * input_size,
                tape.wf(),
                tape@ == old(tape)@.with_layer_of(input_size as int, init@, j as int),
                neurons@.len() == j,
                forall|k: int|
                    0 <= k < j ==> (#[trigger] neurons@[k])@ == old(tape)@.with_layer_of(
                        input_size as int,
                        init@,
                        k,
                    ).newborn(input_size as int, nonlin),
                forall|k: int| 0 <= k < j ==> (#[trigger] neurons@[k])@.within(tape@),
            decreases output_size - j,
        {
            assert((j + 1) * input_size <= input_size * output_size) by (nonlinear_arith)
                requires
                    j + 1 <= output_size,
            ;
            assert((j + 1) * input_size == j * input_size + input_size) by (nonlinear_arith);
            let share = slice_subrange(init, offset, offset + input_size);
            let ghost before = tape@;
            let neuron = Neuron::new(input_size, nonlin, share, tape);
            proof {
                lemma_within_extended(before, tape@);
                assert forall|k: int| 0 <= k < j implies (#[trigger] neurons@[k])@.within(tape@) by {
                    assert(neurons@[k]@.within(before));
                }
            }
            neurons.push(neuron);
            offset = offset + input_size;
            j += 1;
        }
        proof {
            lemma_with_layer_of_extends(old(tape)@, input_size as int, init@, output_size as int);
        }
        let layer = Layer { neurons };
        assert(layer@ =~= old(tape)@.newborn_layer(
            input_size as int,
            output_size as int,
            nonlin,
            init@,
        ));
        layer
    }

    /// The layer's neurons, in order.
    pub fn neurons(&self) -> (neurons: &Vec<Neuron>)
        ensures
            neurons@.len() == self@.len(),
            forall|j: int| 0 <= j < self@.len() ==> (#[trigger] neurons@[j])@ == self@[j],
    {
        &self.neurons
    }

    /// Applies every neuron of the layer to `input`, in order, and returns
    /// their outputs in that order.
    pub fn forward<S: Copy, A: Fn(Calc<S>) -> S, C: Fn(S, S) -> bool>(
        &self,
        input: Vec<Value>,
        tape: &mut Tape<S, A, C>,
    ) -> (outputs: Vec<Value>)
        requires
            old(tape).wf(),
            layer_within(self@, old(tape)@),
            old(tape)@.holds_all(input@),
        ensures
            final(tape).wf(),
            final(tape)@ == old(tape)@.layer(self@, input@),
            final(tape)@.extends(old(tape)@),
            outputs@ == old(tape)@.layer_outputs(self@, input@),
            final(tape)@.holds_all(outputs@),
    {
        let mut outputs: Vec<Value> = Vec::new();
        let mut j: usize = 0;
        while j < self.neurons.len()
            invariant
                0 <= j <= self.neurons.len(),
                self.neurons@.len() == self@.len(),
                tape.wf(),
                layer_within(self@, old(tape)@),
                old(tape)@.holds_all(input@),
                tape@ == old(tape)@.layer_of(self@, input@, j as int),
                outputs@ == old(tape)@.layer_outputs_of(self@, input@, j as int),
                tape@.holds_all(outputs@),
            decreases self.neurons.len() - j,
        {
            let ghost before = tape@;
            proof {
                lemma_layer_of_extends(old(tape)@, self@, input@, j as int);
                lemma_within_extended(old(tape)@, before);
                assert(self@[j as int].within(old(tape)@));
                assert(self.neurons@[j as int]@ == self@[j as int]);
            }
            let out = self.neurons[j].forward(input.as_slice(), tape);
            proof {
                lemma_within_extended(before, tape@);
            }
            outputs.push(out);
            j += 1;
            assert(outputs@ =~= old(tape)@.layer_outputs_of(self@, input@, j as int));
            assert forall|k: int| 0 <= k < outputs@.len() implies tape@.holds(
                #[trigger] outputs@[k],
            ) by {
                if k < j - 1 {
                    assert(before.holds_all(outputs@.take(j - 1)));
                    assert(outputs@.take(j - 1)[k] == outputs@[k]);
                }
            }
        }
        proof {
            lemma_layer_of_extends(old(tape)@, self@, input@, self@.len() as int);
        }
        outputs
    }
}

/// The count of weights grows with the number of layers counted.
pub proof fn lemma_weights_before_grows(dims: Seq<usize>, a: int, b: int)
    requires
        a <= b,
    ensures
        0 <= weights_before(dims, a) <= weights_before(dims, b),
    decreases b,
{
    if b > 0 {
        assert(0 <= dims[b - 1] * dims[b]) by (nonlinear_arith)
            requires
                0 <= dims[b - 1],
                0 <= dims[b],
        ;
        if a < b {
            lemma_weights_before_grows(dims, a, b - 1);
        } else {
            lemma_weights_before_grows(dims, a - 1, b - 1);
        }
    }
}

/// The number of initial weights that a network of the widths `layer_dims`
/// asks for: for each layer its inputs times its neurons. `None` where
/// there is no width at all, and where the number does not fit.
pub fn weight_count(layer_dims: &[usize]) -> (count: Option<usize>)
    ensures
        count is Some <==> layer_dims@.len() >= 1 && weights_in(layer_dims@) <= usize::MAX,
        count is Some ==> count->0 == weights_in(layer_dims@),
{
    if layer_dims.len() == 0 {
        return None;
    }
    let depth = layer_dims.len() - 1;
    let mut count: usize = 0;
    let mut l: usize = 0;
    while l < depth
        invariant
            0 <= l <= depth,
            depth == layer_dims@.len() - 1,
            count == weights_before(layer_dims@, l as int),
        decreases depth - l,
    {
        proof {
            lemma_weights_before_grows(layer_dims@, l + 1, depth as int);
        }
        match layer_dims[l].checked_mul(layer_dims[l + 1]) {
            Some(layer) => match count.checked_add(layer) {
                Some(more) => {
                    count = more;
                },
                None => {
                    return None;
                },
            },
            None => {
                proof {
                    lemma_weights_before_grows(layer_dims@, 0, l as int);
                }
                return None;
            },
        }
        l += 1;
    }
    Some(count)
}

/// Making the layers of a network keeps the graph they are made in.
pub proof fn lemma_with_network_of_extends<S>(
    g: Graph<S>,
    dims: Seq<usize>,
    init: Seq<S>,
    n: int,
)
    requires
        0 <= n,
    ensures
        g.with_network_of(dims, init, n).extends(g),
    decreases n,
{
    if n > 0 {
        lemma_with_network_of_extends(g, dims, init, n - 1);
        lemma_with_layer_of_extends(
            g.with_network_of(dims, init, n - 1),
            dims[n - 1] as int,
            Graph::<S>::layer_share(dims, init, n - 1),
            dims[n] as int,
        );
    }
}

/// Threading an input through layers keeps the graph, and what comes out
/// names nodes of the graph that results.
pub proof fn lemma_network_of_extends<S>(
    g: Graph<S>,
    layers: Seq<Seq<NeuronModel>>,
    input: Seq<Value>,
    n: int,
)
    requires
        0 <= n,
        g.holds_all(input),
    ensures
        g.network_of(layers, input, n).extends(g),
        g.network_of(layers, input, n).holds_all(g.network_outputs_of(layers, input, n)),
    decreases n,
{
    if n > 0 {
        lemma_network_of_extends(g, layers, input, n - 1);
        let before = g.network_of(layers, input, n - 1);
        let xs = g.network_outputs_of(layers, input, n - 1);
        let layer = layers[n - 1];
        lemma_layer_of_extends(before, layer, xs, layer.len() as int);
        let after = g.network_of(layers, input, n);
        let outs = g.network_outputs_of(layers, input, n);
        assert forall|j: int| 0 <= j < outs.len() implies after.holds(#[trigger] outs[j]) by {
            lemma_layer_of_extends(before, layer, xs, j + 1);
            lemma_layer_of_extends(before.layer_of(layer, xs, j + 1), layer, xs, 0);
            lemma_layer_reaches(before, layer, xs, j + 1, layer.len() as int);
        }
    }
}

/// The neurons of a layer are applied one after the other: the graph after
/// more of them extends the graph after fewer.
pub proof fn lemma_layer_reaches<S>(
    g: Graph<S>,
    layer: Seq<NeuronModel>,
    input: Seq<Value>,
    fewer: int,
    more: int,
)
    requires
        0 <= fewer <= more,
    ensures
        g.layer_of(layer, input, more).extends(g.layer_of(layer, input, fewer)),
    decreases more,
{
    if fewer < more {
        lemma_layer_reaches(g, layer, input, fewer, more - 1);
        lemma_neuron_extends(g.layer_of(layer, input, more - 1), layer[more - 1], input);
    }
}

/// The trainable leaves of layers that lie within a graph name nodes of it.
pub proof fn lemma_parameters_within<S>(
    g: Graph<S>,
    layers: Seq<Seq<NeuronModel>>,
    n: int,
)
    requires
        0 <= n <= layers.len(),
        network_within(layers, g),
    ensures
        g.holds_all(network_parameters_of(layers, n)),
    decreases n,
{
    if n > 0 {
        lemma_parameters_within(g, layers, n - 1);
        assert(layer_within(layers[n - 1], g));
        lemma_layer_parameters_within(g, layers[n - 1], layers[n - 1].len() as int);
    }
}

/// The trainable leaves of neurons that lie within a graph name nodes of it.
pub proof fn lemma_layer_parameters_within<S>(
    g: Graph<S>,
    layer: Seq<NeuronModel>,
    n: int,
)
    requires
        0 <= n <= layer.len(),
        layer_within(layer, g),
    ensures
        g.holds_all(layer_parameters_of(layer, n)),
    decreases n,
{
    if n > 0 {
        lemma_layer_parameters_within(g, layer, n - 1);
        assert(layer[n - 1].within(g));
    }
}

/// A network: layers applied one after the other.
#[derive(Debug)]
pub struct MLP {
    layers: Vec<Layer>,
}

impl View for MLP {
    type V = Seq<Seq<NeuronModel>>;

    closed spec fn view(&self) -> Seq<Seq<NeuronModel>> {
        Seq::new(self.layers@.len(), |l: int| self.layers@[l]@)
    }
}

impl MLP {
    /// A network of the widths `layer_dims`: layer `l` has `layer_dims[l]`
    /// inputs and `layer_dims[l + 1]` neurons. Every layer but the last is
    /// rectified. `init` holds the initial weights of the whole network,
    /// layer by layer and neuron by neuron; every bias starts at zero.
    pub fn new<S: Copy, A: Fn(Calc<S>) -> S, C: Fn(S, S) -> bool>(
        layer_dims: &[usize],
        init: &[S],
        tape: &mut Tape<S, A, C>,
    ) -> (mlp: MLP)
        requires
            old(tape).wf(),
            layer_dims@.len() >= 1,
            init@.len() == weights_in(layer_dims@),
        ensures
            final(tape).wf(),
            final(tape)@ == old(tape)@.with_network_of(
                layer_dims@,
                init@,
                layer_dims@.len() - 1,
            ),
            final(tape)@.extends(old(tape)@),
            mlp@ == old(tape)@.newborn_network(layer_dims@, init@, layer_dims@.len() - 1),
            network_within(mlp@, final(tape)@),
    {
        let depth = layer_dims.len() - 1;
        let total = init.len();
        let mut layers: Vec<Layer> = Vec::new();
        let mut offset: usize = 0;
        let mut l: usize = 0;
        while l < depth
            invariant
                0 <= l <= depth,
                depth == layer_dims@.len() - 1,
                total == init@.len(),
                total == weights_in(layer_dims@),
                offset == weights_before(layer_dims@, l as int),
                tape.wf(),
                tape@ == old(tape)@.with_network_of(layer_dims@, init@, l as int),
                layers@.len() == l,
                forall|k: int|
                    0 <= k < l ==> (#[trigger] layers@[k])@ == old(tape)@.with_network_of(
                        layer_dims@,
                        init@,
                        k,
                    ).newborn_layer(
                        layer_dims@[k] as int,
                        layer_dims@[k + 1] as int,
                        k != layer_dims@.len() - 2,
                        Graph::<S>::layer_share(layer_dims@, init@, k),
                    ),
                forall|k: int| 0 <= k < l ==> layer_within((#[trigger] layers@[k])@, tape@),
            decreases depth - l,
        {
            proof {
                lemma_weights_before_grows(layer_dims@, l + 1, depth as int);
                lemma_weights_before_grows(layer_dims@, l as int, l + 1);
            }
            let count = layer_dims[l] * layer_dims[l + 1];
            let share = slice_subrange(init, offset, offset + count);
            let ghost before = tape@;
            let layer = Layer::new(layer_dims[l], layer_dims[l + 1], l + 2 != layer_dims.len(), share, tape);
            proof {
                lemma_within_extended(before, tape@);
                assert forall|k: int| 0 <= k < l implies layer_within(
                    (#[trigger] layers@[k])@,
                    tape@,
                ) by {
                    assert(layer_within(layers@[k]@, before));
                }
            }
            layers.push(layer);
            offset = offset + count;
            l += 1;
        }
        proof {
            lemma_with_network_of_extends(old(tape)@, layer_dims@, init@, depth as int);
        }
        let mlp = MLP { layers };
        assert(mlp@ =~= old(tape)@.newborn_network(layer_dims@, init@, layer_dims@.len() - 1));
        mlp
    }

    /// The network's layers, in order.
    pub fn layers(&self) -> (layers: &Vec<Layer>)
        ensures
            layers@.len() == self@.len(),
            forall|l: int| 0 <= l < self@.len() ==> (#[trigger] layers@[l])@ == self@[l],
    {
        &self.layers
    }

    /// Threads `input` through the layers: what comes out of one layer goes
    /// into the next. Returns what comes out of the last; for a network
    /// without layers that is `input` itself.
    pub fn forward<S: Copy, A: Fn(Calc<S>) -> S, C: Fn(S, S) -> bool>(
        &self,
        input: Vec<Value>,
        tape: &mut Tape<S, A, C>,
    ) -> (outputs: Vec<Value>)
        requires
            old(tape).wf(),
            network_within(self@, old(tape)@),
            old(tape)@.holds_all(input@),
        ensures
            final(tape).wf(),
            final(tape)@ == old(tape)@.network(self@, input@),
            final(tape)@.extends(old(tape)@),
            outputs@ == old(tape)@.network_outputs(self@, input@),
            final(tape)@.holds_all(outputs@),
    {
        let ghost given = input@;
        let mut xs = input;
        let mut l: usize = 0;
        while l < self.layers.len()
            invariant
                0 <= l <= self.layers.len(),
                self.layers@.len() == self@.len(),
                tape.wf(),
                network_within(self@, old(tape)@),
                old(tape)@.holds_all(given),
                tape@ == old(tape)@.network_of(self@, given, l as int),
                xs@ == old(tape)@.network_outputs_of(self@, given, l as int),
            decreases self.layers.len() - l,
        {
            proof {
                lemma_network_of_extends(old(tape)@, self@, given, l as int);
                lemma_within_extended(old(tape)@, tape@);
                assert(layer_within(self@[l as int], old(tape)@));
                assert(self.layers@[l as int]@ == self@[l as int]);
            }
            xs = self.layers[l].forward(xs, tape);
            l += 1;
        }
        proof {
            lemma_network_of_extends(old(tape)@, self@, given, self@.len() as int);
        }
        xs
    }

    /// Every trainable leaf of the network: layer by layer, within a layer
    /// neuron by neuron, and for each neuron its bias followed by its
    /// weights.
    pub fn parameters(&self) -> (params: Vec<Value>)
        ensures
            params@ == network_parameters(self@),
    {
        let mut params: Vec<Value> = Vec::new();
        let mut l: usize = 0;
        while l < self.layers.len()
            invariant
                0 <= l <= self.layers.len(),
                self.layers@.len() == self@.len(),
                params@ == network_parameters_of(self@, l as int),
            decreases self.layers.len() - l,
        {
            let layer = &self.layers[l];
            let ghost sofar = params@;
            assert(layer@ == self@[l as int]);
            let mut j: usize = 0;
            while j < layer.neurons.len()
                invariant
                    0 <= j <= layer.neurons.len(),
                    layer.neurons@.len() == layer@.len(),
                    params@ == sofar + layer_parameters_of(layer@, j as int),
                decreases layer.neurons.len() - j,
            {
                let neuron = &layer.neurons[j];
                assert(neuron@ == layer@[j as int]);
                let ghost within = params@;
                params.push(neuron.bias);
                let mut i: usize = 0;
                while i < neuron.weights.len()
                    invariant
                        0 <= i <= neuron.weights.len(),
                        neuron.weights@ == neuron@.weights,
                        params@ == within + seq![neuron@.bias] + neuron@.weights.take(i as int),
                    decreases neuron.weights.len() - i,
                {
                    params.push(neuron.weights[i]);
                    i += 1;
                    assert(neuron@.weights.take(i as int) =~= neuron@.weights.take(i - 1).push(
                        neuron@.weights[i - 1],
                    ));
                }
                assert(neuron@.weights.take(i as int) =~= neuron@.weights);
                j += 1;
                assert(params@ =~= sofar + layer_parameters_of(layer@, j as int));
            }
            l += 1;
            assert(params@ =~= network_parameters_of(self@, l as int));
        }
        params
    }

    /// Sets the gradient of every trainable leaf to zero. Nothing else
    /// changes: values stay, and so does the gradient of every node that is
    /// no trainable leaf of this network.
    pub fn zero_grad<S: Copy, A: Fn(Calc<S>) -> S, C: Fn(S, S) -> bool>(
        &self,
        tape: &mut Tape<S, A, C>,
    )
        requires
            old(tape).wf(),
            network_within(self@, old(tape)@),
        ensures
            final(tape).wf(),
            final(tape)@ == old(tape)@.cleared(network_parameters(self@)),
            final(tape)@.same_shape(old(tape)@),
            forall|w: Value| old(tape)@.holds(w) ==> final(tape)@.data(w) == old(tape)@.data(w),
            forall|w: Value|
                old(tape)@.holds(w) ==> final(tape)@.grad(w) == if network_parameters(
                    self@,
                ).contains(w) {
                    old(tape)@.zero()
                } else {
                    old(tape)@.grad(w)
                },
    {
        let params = self.parameters();
        proof {
            lemma_parameters_within(old(tape)@, self@, self@.len() as int);
            assert(old(tape)@.cleared(params@.take(0)).nodes =~= old(tape)@.nodes);
        }
        let mut i: usize = 0;
        while i < params.len()
            invariant
                0 <= i <= params.len(),
                tape.wf(),
                old(tape)@.holds_all(params@),
                tape@ == old(tape)@.cleared(params@.take(i as int)),
            decreases params.len() - i,
        {
            let ghost before = tape@;
            let ghost done = params@.take(i as int);
            assert(old(tape)@.holds(params@[i as int]));
            params[i].zero_grad(tape);
            i += 1;
            proof {
                let next = params@.take(i as int);
                let p = params@[i - 1];
                assert(next[i - 1] == p);
                assert forall|w: Value| next.contains(w) <==> (done.contains(w) || w == p) by {
                    if next.contains(w) {
                        let k = choose|k: int| 0 <= k < next.len() && next[k] == w;
                        if k < i - 1 {
                            assert(done[k] == w);
                        }
                    }
                    if done.contains(w) {
                        let k = choose|k: int| 0 <= k < done.len() && done[k] == w;
                        assert(next[k] == w);
                    }
                }
                assert forall|k: int| 0 <= k < tape@.nodes.len() implies tape@.nodes[k] == old(
                    tape,
                )@.cleared(next).nodes[k] by {
                    let w = Value { id: k as usize };
                    assert(next.contains(w) <==> (done.contains(w) || w == p));
                    assert(before.nodes[k] == old(tape)@.cleared(done).nodes[k]);
                }
                assert(tape@.nodes =~= old(tape)@.cleared(next).nodes);
            }
        }
        proof {
            assert(params@.take(i as int) =~= params@);
            assert forall|w: Value| old(tape)@.holds(w) implies tape@.grad(w) == if params@.contains(
                w,
            ) {
                old(tape)@.zero()
            } else {
                old(tape)@.grad(w)
            } by {
                assert(Value { id: w.id as int as usize } == w);
            }
        }
    }
}

/// Clearing gradients twice is clearing them once.
pub proof fn law_zero_grad_idempotent<S>(
    g: Graph<S>,
    params: Seq<Value>,
)
    ensures
        g.cleared(params).cleared(params) == g.cleared(params),
{
    assert(g.cleared(params).cleared(params).nodes =~= g.cleared(params).nodes);
}

} // verus!
