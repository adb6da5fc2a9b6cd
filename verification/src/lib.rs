//! Feed-forward (multilayer perceptron) neural network engine: the layered
//! weight model, its topology mutations, and its persistence format.
//!
//! Scalar values (weights, induced fields, activated outputs, error terms and
//! hyper-parameters) are carried as 64-bit patterns in `u64`.  Everything the
//! engine decides about *structure* — layer sizes, weight-row widths, neuron
//! binding and unbinding, activation selection, and the byte and text
//! encodings used to persist a network — is stated and proved here.  The
//! numeric passes that combine the scalars are floating-point and live with
//! the embedding application, which reads and writes the state held by this
//! crate.

pub mod activators;
pub mod data;
pub mod estimators;
pub mod io;
pub mod network;

use vstd::prelude::*;

use crate::activators::Type;

verus! {

/// Bit pattern of the learning rate a freshly built network starts with:
/// one tenth, as an IEEE-754 double.
pub const DEFAULT_LEARNING_RATE_BITS: u64 = 0x3FB9_9999_9999_999A;

/// Bit pattern of the momentum a freshly built network starts with: one
/// tenth, as an IEEE-754 double.
pub const DEFAULT_MOMENTUM_BITS: u64 = 0x3FB9_9999_9999_999A;

/// A single fully connected layer.
///
/// For `N` neurons fed by `M` inputs the layer owns four scratch vectors of
/// length `N` (`v`: induced field, `y`: activated output, `delta`: error
/// term, `prev_delta`: error term of the previous training step) and a weight
/// matrix `w` of `N` rows, each of width `M + 1` — column 0 is the bias
/// weight.
pub struct Layer {
    pub v: Vec<u64>,
    pub y: Vec<u64>,
    pub delta: Vec<u64>,
    pub prev_delta: Vec<u64>,
    pub w: Vec<Vec<u64>>,
}

impl Layer {
    /// Number of neurons in the layer.
    pub open spec fn spec_neurons(self) -> nat {
        self.v@.len()
    }

    /// Number of inputs the layer is wired for, read off its first weight
    /// row (one bias weight plus one weight per input).
    pub open spec fn spec_inputs(self) -> nat {
        (self.w@[0]@.len() - 1) as nat
    }

    /// Shape invariant for a layer fed by `inputs` values: the four scratch
    /// vectors and the weight matrix agree on the neuron count, and every
    /// weight row holds one bias weight plus one weight per input.
    pub open spec fn wf(self, inputs: nat) -> bool {
        &&& self.v@.len() >= 1
        &&& self.y@.len() == self.v@.len()
        &&& self.delta@.len() == self.v@.len()
        &&& self.prev_delta@.len() == self.v@.len()
        &&& self.w@.len() == self.v@.len()
        &&& forall|i: int|
            0 <= i < self.w@.len() ==> (#[trigger] self.w@[i])@.len() == inputs + 1
    }

    /// Builds a layer of `amount` neurons fed by `input` values: scratch
    /// vectors are zeroed and the weight rows are taken from `rows`.
    pub fn new(amount: usize, input: usize, rows: Vec<Vec<u64>>) -> (r: Layer)
        requires
            amount >= 1,
            input + 1 <= usize::MAX,
            rows@.len() == amount,
            forall|i: int| 0 <= i < rows@.len() ==> (#[trigger] rows@[i])@.len() == input + 1,
        ensures
            r.wf(input as nat),
            r.spec_neurons() == amount,
            r.spec_inputs() == input,
            r.v@ == Seq::new(amount as nat, |i: int| 0u64),
            r.y@ == Seq::new(amount as nat, |i: int| 0u64),
            r.delta@ == Seq::new(amount as nat, |i: int| 0u64),
            r.prev_delta@ == Seq::new(amount as nat, |i: int| 0u64),
            r.w@ == rows@,
    {
        Layer {
            v: zeros(amount),
            y: zeros(amount),
            delta: zeros(amount),
            prev_delta: zeros(amount),
            w: rows,
        }
    }

    /// Inserts a neuron at `index`: zero induced field, activated output and
    /// error term, and the supplied weight row.  The previous-step error
    /// vector is left alone; the next backward pass rewrites it whole.
    pub fn bind(&mut self, index: usize, row: Vec<u64>)
        requires
            index <= old(self).v@.len(),
            index <= old(self).y@.len(),
            index <= old(self).delta@.len(),
            index <= old(self).w@.len(),
        ensures
            final(self).v@ == old(self).v@.insert(index as int, 0u64),
            final(self).y@ == old(self).y@.insert(index as int, 0u64),
            final(self).delta@ == old(self).delta@.insert(index as int, 0u64),
            final(self).w@ == old(self).w@.insert(index as int, row),
            final(self).prev_delta == old(self).prev_delta,
    {
        self.v.insert(index, 0);
        self.y.insert(index, 0);
        self.delta.insert(index, 0);
        self.w.insert(index, row);
    }

    /// Removes the neuron at `index` together with its weight row.  As in
    /// `bind`, the previous-step error vector is left alone.
    pub fn unbind(&mut self, index: usize)
        requires
            index < old(self).v@.len(),
            index < old(self).y@.len(),
            index < old(self).delta@.len(),
            index < old(self).w@.len(),
        ensures
            final(self).v@ == old(self).v@.remove(index as int),
            final(self).y@ == old(self).y@.remove(index as int),
            final(self).delta@ == old(self).delta@.remove(index as int),
            final(self).w@ == old(self).w@.remove(index as int),
            final(self).prev_delta == old(self).prev_delta,
    {
        self.v.remove(index);
        self.y.remove(index);
        self.delta.remove(index);
        self.w.remove(index);
    }
}

/// Binding a neuron at `index` and then unbinding at the same `index`
/// restores every vector `bind` touched: inserting any element into a
/// sequence and removing it again at the same position is the identity.
/// Together with the contracts of `Layer::bind` and `Layer::unbind` this
/// says the pair of calls leaves a layer exactly as it was.
pub proof fn lemma_bind_then_unbind_restores<A>(s: Seq<A>, index: int, x: A)
    requires
        0 <= index <= s.len(),
    ensures
        s.insert(index, x).remove(index) == s,
{
    assert(s.insert(index, x).remove(index) =~= s);
}

/// Feed-forward (multilayer perceptron) neural network state.
///
/// `layers` runs from the first hidden layer to the output layer; the input
/// layer is implicit — it has no `Layer` of its own, only a width that the
/// first layer's weight rows are wired for.  The learning rate, momentum and
/// last total error are scalar bit patterns; `act_type` tags the activation
/// pair the embedding application applies in its numeric passes.
pub struct FeedForward {
    pub layers: Vec<Layer>,
    pub learn_rate: u64,
    pub momentum: u64,
    pub error: u64,
    pub act_type: Type,
}

impl FeedForward {
    /// Width of the input fed to layer `j`: the implicit input layer's width
    /// for the first layer, the previous layer's neuron count otherwise.
    pub open spec fn spec_inputs_of(self, j: int) -> nat {
        if j == 0 {
            self.layers@[0].spec_inputs()
        } else {
            self.layers@[j - 1].spec_neurons()
        }
    }

    /// Shape invariant: at least one layer fed by at least one input, each
    /// layer internally consistent, and consecutive layers wired to one
    /// another.
    pub open spec fn wf(self) -> bool {
        &&& self.layers@.len() >= 1
        &&& self.layers@[0].spec_inputs() >= 1
        &&& forall|j: int|
            0 <= j < self.layers@.len() ==> (#[trigger] self.layers@[j]).wf(
                self.spec_inputs_of(j),
            )
    }

    /// The architecture the shape of the network spells out: entry 0 is the
    /// input width, entry `j + 1` the neuron count of layer `j`.
    pub open spec fn spec_arch(self) -> Seq<nat> {
        Seq::new(
            self.layers@.len() + 1,
            |j: int|
                if j == 0 {
                    self.spec_inputs_of(0)
                } else {
                    self.layers@[j - 1].spec_neurons()
                },
        )
    }

    /// Number of values the network takes as input.
    pub open spec fn spec_input_len(self) -> nat {
        self.spec_inputs_of(0)
    }

    /// Number of values the network produces: the output layer's neuron
    /// count, the last entry of the architecture.
    pub open spec fn spec_output_len(self) -> nat {
        self.layers@[self.layers@.len() - 1].spec_neurons()
    }

    /// Builds a network for `architecture` from the given initial weight
    /// rows: layer `j` holds `architecture[j + 1]` neurons, each with
    /// `architecture[j] + 1` weights (bias first), and zeroed scratch
    /// vectors.  Learning rate and momentum start at one tenth and the
    /// activation tag at `Tanh`.
    pub fn new(architecture: &Vec<usize>, weights: Vec<Vec<Vec<u64>>>) -> (r: FeedForward)
        requires
            architecture@.len() >= 2,
            forall|i: int| 0 <= i < architecture@.len() ==> 1 <= #[trigger] architecture@[i],
            forall|i: int| 0 <= i < architecture@.len() ==> #[trigger] architecture@[i] < usize::MAX,
            weights@.len() == architecture@.len() - 1,
            forall|j: int|
                0 <= j < weights@.len() ==> (#[trigger] weights@[j])@.len() == architecture@[j + 1],
            forall|j: int, i: int|
                #![trigger (weights@[j])@[i]]
                0 <= j < weights@.len() && 0 <= i < (weights@[j])@.len() ==> ((
                weights@[j])@[i])@.len() == architecture@[j] + 1,
        ensures
            r.wf(),
            r.layers@.len() == architecture@.len() - 1,
            r.spec_arch() == architecture@.map_values(|a: usize| a as nat),
            forall|j: int|
                0 <= j < r.layers@.len() ==> (#[trigger] r.layers@[j]).w@ == (weights@[j])@,
            forall|j: int|
                0 <= j < r.layers@.len() ==> (#[trigger] r.layers@[j]).v@ == Seq::new(
                    architecture@[j + 1] as nat,
                    |i: int| 0u64,
                ) && r.layers@[j].y@ == r.layers@[j].v@ && r.layers@[j].delta@ == r.layers@[j].v@
                    && r.layers@[j].prev_delta@ == r.layers@[j].v@,
            r.learn_rate == DEFAULT_LEARNING_RATE_BITS,
            r.momentum == DEFAULT_MOMENTUM_BITS,
            r.error == 0u64,
            r.act_type == Type::Tanh,
    {
        let ghost all_weights = weights@;
        let mut weights = weights;
        let mut layers: Vec<Layer> = Vec::new();
        let mut i: usize = 1;
        while i < architecture.len()
            invariant
                1 <= i <= architecture.len(),
                architecture@.len() >= 2,
                forall|k: int| 0 <= k < architecture@.len() ==> 1 <= #[trigger] architecture@[k],
                forall|k: int|
                    0 <= k < architecture@.len() ==> #[trigger] architecture@[k] < usize::MAX,
                all_weights.len() == architecture@.len() - 1,
                forall|j: int|
                    0 <= j < all_weights.len() ==> (#[trigger] all_weights[j])@.len()
                        == architecture@[j + 1],
                forall|j: int, k: int|
                    #![trigger (all_weights[j])@[k]]
                    0 <= j < all_weights.len() && 0 <= k < (all_weights[j])@.len() ==> ((
                    all_weights[j])@[k])@.len() == architecture@[j] + 1,
                weights@ == all_weights.skip(i - 1),
                layers@.len() == i - 1,
                forall|j: int|
                    0 <= j < layers@.len() ==> (#[trigger] layers@[j]).w@ == (all_weights[j])@,
                forall|j: int|
                    0 <= j < layers@.len() ==> (#[trigger] layers@[j]).v@ == Seq::new(
                        architecture@[j + 1] as nat,
                        |k: int| 0u64,
                    ) && layers@[j].y@ == layers@[j].v@ && layers@[j].delta@ == layers@[j].v@
                        && layers@[j].prev_delta@ == layers@[j].v@,
            decreases architecture.len() - i,
        {
            assert(weights@[0] == all_weights[i - 1]);
            let rows = weights.remove(0);
            let layer = Layer::new(architecture[i], architecture[i - 1], rows);
            layers.push(layer);
            i = i + 1;
            proof {
                assert(weights@ =~= all_weights.skip(i - 1));
            }
        }
        let r = FeedForward {
            layers,
            learn_rate: DEFAULT_LEARNING_RATE_BITS,
            momentum: DEFAULT_MOMENTUM_BITS,
            error: 0,
            act_type: Type::Tanh,
        };
        proof {
            assert forall|j: int| 0 <= j < r.layers@.len() implies (#[trigger] r.layers@[j]).wf(
                r.spec_inputs_of(j),
            ) by {
                assert(r.layers@[j].w@ == (all_weights[j])@);
                assert((all_weights[j])@.len() == architecture@[j + 1]);
                assert(((all_weights[j])@[0])@.len() == architecture@[j] + 1);
                if j > 0 {
                    assert(r.layers@[j - 1].spec_neurons() == architecture@[j]);
                }
            }
            assert(r.spec_arch() =~= architecture@.map_values(|a: usize| a as nat));
        }
        r
    }

    /// Inserts a neuron into layer `layer` (1-based, matching the
    /// architecture's hidden and output layers) at position `neuron`, wired
    /// with the supplied weight row.  Neighbouring layers are not rewired:
    /// until the matching `unbind`, the network's shape invariant is
    /// suspended, as the weight rows of layer `layer + 1` are one column
    /// short.
    pub fn bind(&mut self, layer: usize, neuron: usize, row: Vec<u64>)
        requires
            1 <= layer <= old(self).layers@.len(),
            neuron <= old(self).layers@[layer - 1].v@.len(),
            neuron <= old(self).layers@[layer - 1].y@.len(),
            neuron <= old(self).layers@[layer - 1].delta@.len(),
            neuron <= old(self).layers@[layer - 1].w@.len(),
        ensures
            final(self).layers@.len() == old(self).layers@.len(),
            final(self).layers@[layer - 1].v@ == old(self).layers@[layer - 1].v@.insert(
                neuron as int,
                0u64,
            ),
            final(self).layers@[layer - 1].y@ == old(self).layers@[layer - 1].y@.insert(
                neuron as int,
                0u64,
            ),
            final(self).layers@[layer - 1].delta@ == old(self).layers@[layer - 1].delta@.insert(
                neuron as int,
                0u64,
            ),
            final(self).layers@[layer - 1].w@ == old(self).layers@[layer - 1].w@.insert(
                neuron as int,
                row,
            ),
            final(self).layers@[layer - 1].prev_delta == old(self).layers@[layer - 1].prev_delta,
            forall|j: int|
                0 <= j < old(self).layers@.len() && j != layer - 1 ==> final(self).layers@[j]
                    == old(self).layers@[j],
            final(self).learn_rate == old(self).learn_rate,
            final(self).momentum == old(self).momentum,
            final(self).error == old(self).error,
            final(self).act_type == old(self).act_type,
    {
        let l = &mut self.layers[layer - 1];
        l.bind(neuron, row);
    }

    /// Removes neuron `neuron` from layer `layer` (1-based) together with
    /// its weight row; the inverse of `bind` at the same position.
    pub fn unbind(&mut self, layer: usize, neuron: usize)
        requires
            1 <= layer <= old(self).layers@.len(),
            neuron < old(self).layers@[layer - 1].v@.len(),
            neuron < old(self).layers@[layer - 1].y@.len(),
            neuron < old(self).layers@[layer - 1].delta@.len(),
            neuron < old(self).layers@[layer - 1].w@.len(),
        ensures
            final(self).layers@.len() == old(self).layers@.len(),
            final(self).layers@[layer - 1].v@ == old(self).layers@[layer - 1].v@.remove(
                neuron as int,
            ),
            final(self).layers@[layer - 1].y@ == old(self).layers@[layer - 1].y@.remove(
                neuron as int,
            ),
            final(self).layers@[layer - 1].delta@ == old(self).layers@[layer - 1].delta@.remove(
                neuron as int,
            ),
            final(self).layers@[layer - 1].w@ == old(self).layers@[layer - 1].w@.remove(
                neuron as int,
            ),
            final(self).layers@[layer - 1].prev_delta == old(self).layers@[layer - 1].prev_delta,
            forall|j: int|
                0 <= j < old(self).layers@.len() && j != layer - 1 ==> final(self).layers@[j]
                    == old(self).layers@[j],
            final(self).learn_rate == old(self).learn_rate,
            final(self).momentum == old(self).momentum,
            final(self).error == old(self).error,
            final(self).act_type == old(self).act_type,
    {
        let l = &mut self.layers[layer - 1];
        l.unbind(neuron);
    }

    /// Selects an activation pair by tag.  Selecting `Custom` here falls
    /// back to `Tanh`: a custom pair enters only through
    /// `custom_activation`, which supplies the functions alongside the tag.
    pub fn activation(&mut self, func: Type)
        ensures
            final(self).act_type == crate::activators::spec_selected(func),
            final(self).layers == old(self).layers,
            final(self).learn_rate == old(self).learn_rate,
            final(self).momentum == old(self).momentum,
            final(self).error == old(self).error,
    {
        self.act_type = crate::activators::selected(func);
    }

    /// Marks the network as running on a caller-supplied activation pair.
    /// The pair itself is numeric state of the embedding application; the
    /// engine records only the tag.
    pub fn custom_activation(&mut self)
        ensures
            final(self).act_type == Type::Custom,
            final(self).layers == old(self).layers,
            final(self).learn_rate == old(self).learn_rate,
            final(self).momentum == old(self).momentum,
            final(self).error == old(self).error,
    {
        self.act_type = Type::Custom;
    }

    /// Sets the learning rate, given as a scalar bit pattern.
    pub fn learning_rate(&mut self, learning_rate: u64)
        ensures
            final(self).learn_rate == learning_rate,
            final(self).layers == old(self).layers,
            final(self).momentum == old(self).momentum,
            final(self).error == old(self).error,
            final(self).act_type == old(self).act_type,
    {
        self.learn_rate = learning_rate;
    }

    /// Sets the momentum, given as a scalar bit pattern.
    pub fn momentum(&mut self, momentum: u64)
        ensures
            final(self).momentum == momentum,
            final(self).layers == old(self).layers,
            final(self).learn_rate == old(self).learn_rate,
            final(self).error == old(self).error,
            final(self).act_type == old(self).act_type,
    {
        self.momentum = momentum;
    }

    /// The total error recorded by the most recent backward pass, as a
    /// scalar bit pattern; the zero pattern if none has run.
    pub fn get_error(&self) -> (r: u64)
        ensures
            r == self.error,
    {
        self.error
    }

    /// Checks the shape invariant at run time, for callers outside the
    /// proof: true exactly when the network is well formed.
    pub fn well_formed(&self) -> (r: bool)
        ensures
            r == self.wf(),
    {
        if self.layers.len() == 0 {
            return false;
        }
        let mut j: usize = 0;
        while j < self.layers.len()
            invariant
                j <= self.layers@.len(),
                self.layers@.len() >= 1,
                j >= 1 ==> self.layers@[0].spec_inputs() >= 1,
                forall|k: int|
                    0 <= k < j ==> (#[trigger] self.layers@[k]).wf(self.spec_inputs_of(k)),
            decreases self.layers@.len() - j,
        {
            let l = &self.layers[j];
            let n = l.v.len();
            if n == 0 || l.y.len() != n || l.delta.len() != n || l.prev_delta.len() != n
                || l.w.len() != n {
                return false;
            }
            if j == 0 && l.w[0].len() < 2 {
                return false;
            }
            let expected_inputs = if j == 0 {
                l.w[0].len() - 1
            } else {
                self.layers[j - 1].v.len()
            };
            let mut i: usize = 0;
            while i < l.w.len()
                invariant
                    i <= l.w@.len(),
                    j < self.layers@.len(),
                    *l == self.layers@[j as int],
                    j == 0 ==> expected_inputs + 1 == (l.w@[0])@.len() && (l.w@[0])@.len() >= 2,
                    j > 0 ==> expected_inputs == self.layers@[j - 1].v@.len(),
                    forall|t: int|
                        0 <= t < i ==> (#[trigger] l.w@[t])@.len() == expected_inputs + 1,
                decreases l.w@.len() - i,
            {
                if l.w[i].len() == 0 || l.w[i].len() - 1 != expected_inputs {
                    proof {
                        assert((l.w@[i as int])@.len() != expected_inputs + 1);
                        if self.wf() {
                            assert(self.layers@[j as int].wf(self.spec_inputs_of(j as int)));
                            assert((l.w@[i as int])@.len() == self.spec_inputs_of(j as int) + 1);
                            assert((l.w@[0])@.len() == self.spec_inputs_of(j as int) + 1);
                            if j > 0 {
                                assert(self.spec_inputs_of(j as int) == self.layers@[j - 1].spec_neurons());
                            }
                            assert(false);
                        }
                    }
                    return false;
                }
                i = i + 1;
            }
            j = j + 1;
        }
        true
    }

    /// Number of values the network takes as input.
    pub fn input_len(&self) -> (r: usize)
        requires
            self.wf(),
        ensures
            r == self.spec_input_len(),
    {
        self.layers[0].w[0].len() - 1
    }

    /// Number of values the network produces; for architecture
    /// `[n0, ..., nk]` this is `nk`, the length of every output the forward
    /// pass yields.
    pub fn output_len(&self) -> (r: usize)
        requires
            self.wf(),
        ensures
            r == self.spec_output_len(),
    {
        self.layers[self.layers.len() - 1].v.len()
    }
}

/// A vector of `n` zero bit patterns.
fn zeros(n: usize) -> (r: Vec<u64>)
    ensures
        r@ == Seq::new(n as nat, |i: int| 0u64),
{
    let mut r: Vec<u64> = Vec::new();
    let mut k: usize = 0;
    while k < n
        invariant
            k <= n,
            r@ == Seq::new(k as nat, |i: int| 0u64),
        decreases n - k,
    {
        r.push(0);
        k = k + 1;
        proof {
            assert(r@ =~= Seq::new(k as nat, |i: int| 0u64));
        }
    }
    r
}

/// For architecture `[n0, ..., nk]` a well-formed network produces outputs
/// of width `nk`: the output layer's neuron count is the architecture's
/// last entry, whatever input the forward pass is handed.
pub proof fn lemma_output_is_arch_last(n: FeedForward)
    requires
        n.wf(),
    ensures
        n.spec_output_len() == n.spec_arch().last(),
{
}

} // verus!
