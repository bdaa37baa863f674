//! A feed-forward network: an input marker followed by dense layers, run
//! forward and trained by backpropagation.

use vstd::prelude::*;
use crate::activations::{accepts_all, activate, slopes, Activation};
use crate::error::{is_shape_mismatch, TensorError};
use crate::loss::{activated_gradient, MSE};
use crate::scalar::{arith_exact, ring_total, count_of, Scalar};
use crate::shape::{lemma_div_mod_pair, lemma_product_two, lemma_row_major_bound};
use crate::tensor::{broadcast_fits, broadcast_partner, matrix_product, product_fits, row_col_sum, transposed, Tensor};
use vstd::pervasive::unreached;
use vstd::std_specs::ops::{AddSpec, MulSpec, SubSpec};

verus! {

/// One layer of the network.
pub enum Layer<T, A> {
    /// The first layer: declares how many features an input has.
    InputLayer { size: usize },
    /// A dense layer. `weights` has shape `[size, fan_in]`, `biases` shape
    /// `[size]`, added to every column, and the cached `result` of the last
    /// forward pass shape `[size, 1]`.
    TensorLayer { weights: Tensor<T>, biases: Tensor<T>, activations: A, result: Tensor<T> },
}

/// Number of outputs of a layer.
pub open spec fn layer_width<T, A>(l: Layer<T, A>) -> nat {
    match l {
        Layer::InputLayer { size } => size as nat,
        Layer::TensorLayer { biases, .. } => biases.dims()[0] as nat,
    }
}

/// `l` is a dense layer with consistent shapes that takes `fan_in` inputs.
pub open spec fn dense_fits<T, A>(l: Layer<T, A>, fan_in: nat) -> bool {
    match l {
        Layer::InputLayer { .. } => false,
        Layer::TensorLayer { weights, biases, result, .. } => {
            &&& weights.wf()
            &&& biases.wf()
            &&& result.wf()
            &&& weights.dims().len() == 2
            &&& weights.dims()[1] == fan_in
            &&& biases.dims() == seq![weights.dims()[0]]
            &&& result.dims() == column(weights.dims()[0] as nat)
        },
    }
}

/// The two layers hold the same parameters and activation.
pub open spec fn same_parameters<T, A>(a: Layer<T, A>, b: Layer<T, A>) -> bool {
    match (a, b) {
        (Layer::InputLayer { size: x }, Layer::InputLayer { size: y }) => x == y,
        (
            Layer::TensorLayer { weights: w1, biases: b1, activations: f1, .. },
            Layer::TensorLayer { weights: w2, biases: b2, activations: f2, .. },
        ) => w1.dims() == w2.dims() && w1.elems() == w2.elems() && b1.dims() == b2.dims()
            && b1.elems() == b2.elems() && f1 == f2,
        _ => false,
    }
}

/// `l` is a dense layer whose cached output is `t`.
pub open spec fn holds_result<T, A>(l: Layer<T, A>, t: Tensor<T>) -> bool {
    match l {
        Layer::TensorLayer { result, .. } => result.dims() == t.dims() && result.elems() == t.elems(),
        Layer::InputLayer { .. } => false,
    }
}

/// `l` is a dense layer with `wn` weights and `bn` biases.
pub open spec fn parameter_counts<T, A>(l: Layer<T, A>, wn: nat, bn: nat) -> bool {
    match l {
        Layer::TensorLayer { weights, biases, .. } => weights.elems().len() == wn
            && biases.elems().len() == bn,
        Layer::InputLayer { .. } => false,
    }
}

/// `l` is a dense layer whose weights and biases, in row-major order, are
/// `w` and `b`.
pub open spec fn holds_parameters<T, A>(l: Layer<T, A>, w: Seq<T>, b: Seq<T>) -> bool {
    match l {
        Layer::TensorLayer { weights, biases, .. } => weights.elems() == w && biases.elems() == b,
        Layer::InputLayer { .. } => false,
    }
}

/// `l2` is `l1` with possibly other weight and bias values: same shapes, same
/// activation.
pub open spec fn same_form<T, A>(l1: Layer<T, A>, l2: Layer<T, A>) -> bool {
    match (l1, l2) {
        (Layer::InputLayer { size: x }, Layer::InputLayer { size: y }) => x == y,
        (
            Layer::TensorLayer { weights: w1, biases: b1, activations: f1, result: r1 },
            Layer::TensorLayer { weights: w2, biases: b2, activations: f2, result: r2 },
        ) => w1.dims() == w2.dims() && b1.dims() == b2.dims() && f1 == f2 && r1.dims()
            == r2.dims(),
        _ => false,
    }
}

/// The cached output of dense layer `l`.
pub open spec fn cached_output<T, A>(l: Layer<T, A>) -> Seq<T> {
    match l {
        Layer::TensorLayer { result, .. } => result.elems(),
        Layer::InputLayer { .. } => Seq::empty(),
    }
}

/// What dense layer `i` of `ls` received in the last forward pass of
/// `input`: the input itself for the first dense layer, else the previous
/// layer's cached output.
pub open spec fn layer_input<T, A>(ls: Seq<Layer<T, A>>, input: Seq<T>, i: int) -> Seq<T> {
    if i == 1 {
        input
    } else {
        cached_output(ls[i - 1])
    }
}

/// Dense layer `l`'s cached output is what it makes of `x`: the weights
/// times `x`, plus the biases, through the activation function, element by
/// element.
pub open spec fn layer_maps<T: Scalar, F: Fn(T) -> T, D: Fn(T) -> T>(
    l: Layer<T, Activation<F, D>>,
    x: Seq<T>,
) -> bool {
    computes(l, x, cached_output(l))
}

/// Dense layer `l`'s weights, biases and activation make `out` of `x`: the
/// weights times `x`, plus the biases, through the activation function,
/// element by element.
pub open spec fn computes<T: Scalar, F: Fn(T) -> T, D: Fn(T) -> T>(
    l: Layer<T, Activation<F, D>>,
    x: Seq<T>,
    out: Seq<T>,
) -> bool {
    match l {
        Layer::TensorLayer { weights, biases, activations, .. } => {
            let z = matrix_product(
                weights.elems(),
                x,
                weights.dims()[0] as int,
                weights.dims()[1] as int,
                1,
            );
            &&& out.len() == weights.dims()[0]
            &&& forall|k: int|
                0 <= k < out.len() ==> activations.function.ensures(
                    (z[k].add_spec(biases.elems()[k]),),
                    #[trigger] out[k],
                )
        },
        Layer::InputLayer { .. } => false,
    }
}

/// A dense layer's activation accepts every element; an input marker has
/// none.
pub open spec fn layer_accepts_all<T, F: Fn(T) -> T, D: Fn(T) -> T>(
    l: Layer<T, Activation<F, D>>,
) -> bool {
    match l {
        Layer::TensorLayer { activations, .. } => accepts_all(activations),
        Layer::InputLayer { .. } => true,
    }
}

/// Every dense layer's activation accepts every element.
pub open spec fn activations_total<T, F: Fn(T) -> T, D: Fn(T) -> T>(
    ls: Seq<Layer<T, Activation<F, D>>>,
) -> bool {
    forall|i: int| 0 <= i < ls.len() ==> layer_accepts_all(#[trigger] ls[i])
}

proof fn lemma_same_form_total<T, F: Fn(T) -> T, D: Fn(T) -> T>(
    a: Seq<Layer<T, Activation<F, D>>>,
    b: Seq<Layer<T, Activation<F, D>>>,
)
    requires
        a.len() == b.len(),
        activations_total(a),
        forall|j: int| 0 <= j < a.len() ==> same_form(#[trigger] a[j], b[j]),
    ensures
        activations_total(b),
{
    assert forall|j: int| 0 <= j < b.len() implies layer_accepts_all(#[trigger] b[j]) by {
        assert(same_form(a[j], b[j]));
        assert(layer_accepts_all(a[j]));
    }
}

proof fn lemma_same_parameters_total<T, F: Fn(T) -> T, D: Fn(T) -> T>(
    a: Seq<Layer<T, Activation<F, D>>>,
    b: Seq<Layer<T, Activation<F, D>>>,
)
    requires
        a.len() == b.len(),
        activations_total(a),
        forall|j: int| 0 <= j < a.len() ==> same_parameters(#[trigger] a[j], b[j]),
    ensures
        activations_total(b),
{
    assert forall|j: int| 0 <= j < b.len() implies layer_accepts_all(#[trigger] b[j]) by {
        assert(same_parameters(a[j], b[j]));
        assert(layer_accepts_all(a[j]));
    }
}

/// Weights of dense layer `l` in row-major order.
pub open spec fn weights_of<T, A>(l: Layer<T, A>) -> Seq<T> {
    match l {
        Layer::TensorLayer { weights, .. } => weights.elems(),
        Layer::InputLayer { .. } => Seq::empty(),
    }
}

/// Biases of dense layer `l`.
pub open spec fn biases_of<T, A>(l: Layer<T, A>) -> Seq<T> {
    match l {
        Layer::TensorLayer { biases, .. } => biases.elems(),
        Layer::InputLayer { .. } => Seq::empty(),
    }
}

/// Number of inputs of dense layer `l`.
pub open spec fn fan_in_of<T, A>(l: Layer<T, A>) -> int {
    match l {
        Layer::TensorLayer { weights, .. } => weights.dims()[1] as int,
        Layer::InputLayer { .. } => 0,
    }
}

/// Activation of dense layer `l`.
pub open spec fn activation_of<T, A>(l: Layer<T, A>) -> A {
    match l {
        Layer::TensorLayer { activations, .. } => activations,
        Layer::InputLayer { .. } => arbitrary(),
    }
}

/// One gradient-descent step on a dense layer with `fan_in` inputs, input
/// `x` and gradient `delta` (one element per output): bias `i` loses
/// `delta[i] * lr`, weight `[i, j]` loses `x[j] * delta[i] * lr`.
pub open spec fn descended<T: Scalar>(
    w_old: Seq<T>,
    b_old: Seq<T>,
    w_new: Seq<T>,
    b_new: Seq<T>,
    x: Seq<T>,
    delta: Seq<T>,
    lr: T,
    fan_in: int,
) -> bool {
    &&& w_new.len() == w_old.len()
    &&& b_new.len() == b_old.len()
    &&& forall|i: int|
        0 <= i < b_new.len() ==> #[trigger] b_new[i] == b_old[i].sub_spec(delta[i].mul_spec(lr))
    &&& forall|q: int|
        0 <= q < w_new.len() ==> #[trigger] w_new[q] == w_old[q].sub_spec(
            x[q % fan_in].mul_spec(delta[q / fan_in]).mul_spec(lr),
        )
}

/// `back` is the gradient handed from a dense layer (weights `w`, shape
/// `[fan_out, fan_in]`, gradient `delta`) to the layer below, whose output
/// was `x` and whose activation is `act`: the transposed weights times
/// `delta`, times the activation's derivative at `x`, element by element.
pub open spec fn propagated<T: Scalar, F: Fn(T) -> T, D: Fn(T) -> T>(
    act: Activation<F, D>,
    w: Seq<T>,
    fan_out: int,
    fan_in: int,
    delta: Seq<T>,
    x: Seq<T>,
    back: Seq<T>,
) -> bool {
    &&& back.len() == fan_in
    &&& forall|j: int|
        0 <= j < fan_in ==> scaled_by_slope(
            act,
            x[j],
            row_col_sum(transposed(w, fan_out, fan_in), delta, fan_out, 1, j, 0, fan_out),
            #[trigger] back[j],
        )
}

/// `out` is `base` times the derivative of `act` at `y`.
pub open spec fn scaled_by_slope<T: Scalar, F: Fn(T) -> T, D: Fn(T) -> T>(
    act: Activation<F, D>,
    y: T,
    base: T,
    out: T,
) -> bool {
    exists|s: T| act.derivative.ensures((y,), s) && out == base.mul_spec(s)
}

/// `after` is `before` after one step of gradient descent on the example
/// (`input`, `target`) with learning rate `lr`, where `deltas[j]` is the
/// gradient at dense layer `j`: at the last layer the loss gradient of its
/// output, below it the gradient handed down by the layer above. The cached
/// outputs in `after` are those of the forward pass of `input` through the
/// layers of `before`.
pub open spec fn trained_by<T: Scalar, F: Fn(T) -> T, D: Fn(T) -> T>(
    before: Seq<Layer<T, Activation<F, D>>>,
    after: Seq<Layer<T, Activation<F, D>>>,
    input: Seq<T>,
    target: Seq<T>,
    lr: T,
    deltas: Seq<Seq<T>>,
) -> bool {
    let n = before.len() as int;
    &&& after.len() == n
    &&& forall|j: int| 0 <= j < n ==> same_form(#[trigger] before[j], after[j])
    &&& forall|j: int|
        1 <= j < n ==> computes(
            #[trigger] before[j],
            layer_input(after, input, j),
            cached_output(after[j]),
        )
    &&& deltas.len() == n
    &&& deltas[n - 1].len() == cached_output(after[n - 1]).len()
    &&& forall|k: int|
        0 <= k < deltas[n - 1].len() ==> activated_gradient(
            activation_of(before[n - 1]),
            cached_output(after[n - 1])[k],
            target[k],
            #[trigger] deltas[n - 1][k],
        )
    &&& forall|j: int|
        1 <= j < n ==> descended(
            weights_of(before[j]),
            biases_of(before[j]),
            weights_of(after[j]),
            biases_of(after[j]),
            layer_input(after, input, j),
            #[trigger] deltas[j],
            lr,
            fan_in_of(before[j]),
        )
    &&& forall|j: int|
        2 <= j < n ==> propagated(
            activation_of(before[j - 1]),
            weights_of(after[j]),
            layer_width(before[j]) as int,
            fan_in_of(before[j]),
            #[trigger] deltas[j],
            layer_input(after, input, j),
            deltas[j - 1],
        )
}

/// `after` is `before` after one step of gradient descent on the example
/// (`input`, `target`) with learning rate `lr`, for some gradients.
pub open spec fn descent_step<T: Scalar, F: Fn(T) -> T, D: Fn(T) -> T>(
    before: Seq<Layer<T, Activation<F, D>>>,
    after: Seq<Layer<T, Activation<F, D>>>,
    input: Seq<T>,
    target: Seq<T>,
    lr: T,
) -> bool {
    exists|deltas: Seq<Seq<T>>| trained_by(before, after, input, target, lr, deltas)
}

/// `states` runs from `first` to `last` by steps of gradient descent on the
/// same example.
pub open spec fn descent_run<T: Scalar, F: Fn(T) -> T, D: Fn(T) -> T>(
    states: Seq<Seq<Layer<T, Activation<F, D>>>>,
    first: Seq<Layer<T, Activation<F, D>>>,
    last: Seq<Layer<T, Activation<F, D>>>,
    input: Seq<T>,
    target: Seq<T>,
    lr: T,
) -> bool {
    &&& states.len() >= 1
    &&& states[0] == first
    &&& states.last() == last
    &&& forall|e: int|
        0 <= e < states.len() - 1 ==> descent_step(
            #[trigger] states[e],
            states[e + 1],
            input,
            target,
            lr,
        )
}

/// A column vector of `n` rows.
pub open spec fn column(n: nat) -> Seq<usize> {
    seq![n as usize, 1usize]
}

/// A linear stack of layers: an input marker, then dense layers.
pub struct CPUTensorNetwork<T, A> {
    layers: Vec<Layer<T, A>>,
}

impl<T, A> CPUTensorNetwork<T, A> {
    /// The layers, input marker first.
    pub closed spec fn layer_seq(&self) -> Seq<Layer<T, A>> {
        self.layers@
    }

    /// The first layer is an input marker of positive size and every later
    /// layer is a dense layer taking the previous layer's outputs.
    pub open spec fn wf(&self) -> bool {
        let ls = self.layer_seq();
        &&& ls.len() >= 1
        &&& ls[0] is InputLayer
        &&& layer_width(ls[0]) > 0
        &&& forall|i: int| 1 <= i < ls.len() ==> dense_fits(#[trigger] ls[i], layer_width(ls[i - 1]))
    }

    /// Number of outputs of each layer; the first is the input size.
    pub open spec fn sizes(&self) -> Seq<nat> {
        Seq::new(self.layer_seq().len(), |i: int| layer_width(self.layer_seq()[i]))
    }

    /// The layers, input marker first.
    pub fn layers(&self) -> (r: &Vec<Layer<T, A>>)
        ensures
            r@ == self.layer_seq(),
    {
        &self.layers
    }

    /// A network with only an input marker for `input_size` features.
    pub fn new(input_size: usize) -> (r: CPUTensorNetwork<T, A>)
        requires
            input_size > 0,
        ensures
            r.wf(),
            r.sizes() == seq![input_size as nat],
    {
        let mut layers: Vec<Layer<T, A>> = Vec::new();
        layers.push(Layer::InputLayer { size: input_size });
        let r = CPUTensorNetwork { layers };
        assert(r.sizes() =~= seq![input_size as nat]);
        r
    }

    /// Number of outputs of the last layer.
    pub fn output_size(&self) -> (r: usize)
        requires
            self.wf(),
        ensures
            r == self.sizes().last(),
    {
        let n = self.layers.len();
        match &self.layers[n - 1] {
            Layer::InputLayer { size } => *size,
            Layer::TensorLayer { biases, .. } => biases.shape()[0],
        }
    }

    /// Number of features an input has.
    pub fn input_size(&self) -> (r: usize)
        requires
            self.wf(),
        ensures
            r == self.sizes()[0],
    {
        match &self.layers[0] {
            Layer::InputLayer { size } => *size,
            Layer::TensorLayer { biases, .. } => biases.shape()[0],
        }
    }
}

impl<T: Scalar, F: Fn(T) -> T, D: Fn(T) -> T> CPUTensorNetwork<T, Activation<F, D>> {
    /// Appends a dense layer of `amount` outputs taking the previous layer's
    /// outputs, with weights of shape `[amount, fan_in]` and biases of shape
    /// `[amount]`, all zero until set.
    pub fn add_tensor_layer(&mut self, amount: usize, act: Activation<F, D>)
        requires
            old(self).wf(),
            amount > 0,
            amount * old(self).sizes().last() <= usize::MAX,
        ensures
            final(self).wf(),
            final(self).sizes() == old(self).sizes().push(amount as nat),
            final(self).layer_seq().drop_last() == old(self).layer_seq(),
            activations_total(old(self).layer_seq()) && accepts_all(act) ==> activations_total(
                final(self).layer_seq(),
            ),
            final(self).layer_seq().last() matches Layer::TensorLayer { weights, biases, activations, .. }
                && activations == act && (arith_exact::<T>() ==> (forall|k: int|
                0 <= k < weights.elems().len() ==> #[trigger] weights.elems()[k] == count_of::<T>(
                    0,
                )) && (forall|k: int|
                0 <= k < biases.elems().len() ==> #[trigger] biases.elems()[k] == count_of::<T>(
                    0,
                ))),
    {
        let fan_in = self.output_size();
        let mut wshape: Vec<usize> = Vec::new();
        wshape.push(amount);
        wshape.push(fan_in);
        let mut bshape: Vec<usize> = Vec::new();
        bshape.push(amount);
        let mut rshape: Vec<usize> = Vec::new();
        rshape.push(amount);
        rshape.push(1);
        proof {
            assert(wshape@ =~= seq![amount, fan_in]);
            assert(bshape@ =~= seq![amount]);
            assert(rshape@ =~= seq![amount, 1usize]);
            lemma_product_two(amount, fan_in);
            lemma_product_two(amount, 1);
            crate::shape::lemma_product_one(amount);
        }
        let weights = Tensor::new(wshape);
        let biases = Tensor::new(bshape);
        let result = Tensor::new(rshape);
        let ghost before = self.layers@;
        self.layers.push(Layer::TensorLayer { weights, biases, activations: act, result });
        proof {
            assert(self.layers@.drop_last() =~= before);
            assert(self.sizes() =~= old(self).sizes().push(amount as nat));
            assert forall|i: int| 0 <= i < before.len() implies #[trigger] self.layers@[i] == before[i] by {}
        }
    }

    /// Replaces the weights and biases of dense layer `index` (the input
    /// marker is layer 0). Fails with a topology mismatch, changing nothing,
    /// when there is no such dense layer or the new shapes differ from the
    /// layer's.
    pub fn set_layer_parameters(&mut self, index: usize, weights: Tensor<T>, biases: Tensor<T>) -> (r:
        Result<(), TensorError>)
        requires
            old(self).wf(),
            weights.wf(),
            biases.wf(),
        ensures
            final(self).wf(),
            final(self).sizes() == old(self).sizes(),
            activations_total(old(self).layer_seq()) ==> activations_total(final(self).layer_seq()),
            match r {
                Ok(_) => 1 <= index < old(self).layer_seq().len() && (old(self).layer_seq()[index as int] matches Layer::TensorLayer { weights: w, biases: b, .. }
                    && w.dims() == weights.dims() && b.dims() == biases.dims()) && (final(self).layer_seq()[index as int] matches Layer::TensorLayer { weights: w, biases: b, .. }
                    && w.dims() == weights.dims() && w.elems() == weights.elems() && b.dims()
                    == biases.dims() && b.elems() == biases.elems()) && forall|j: int|
                    0 <= j < old(self).layer_seq().len() && j != index ==> #[trigger] final(self).layer_seq()[j]
                        == old(self).layer_seq()[j],
                Err(e) => e == TensorError::TopologyMismatch && final(self).layer_seq() == old(
                    self,
                ).layer_seq() && !(1 <= index < old(self).layer_seq().len() && (old(self).layer_seq()[index as int] matches Layer::TensorLayer { weights: w, biases: b, .. }
                    && w.dims() == weights.dims() && b.dims() == biases.dims())),
            },
    {
        if index == 0 || index >= self.layers.len() {
            return Err(TensorError::TopologyMismatch);
        }
        let fits = match &self.layers[index] {
            Layer::TensorLayer { weights: w, biases: b, .. } => crate::tensor::same_shape(
                w.shape(),
                weights.shape(),
            ) && crate::tensor::same_shape(b.shape(), biases.shape()),
            Layer::InputLayer { .. } => false,
        };
        if !fits {
            return Err(TensorError::TopologyMismatch);
        }
        let ghost before = self.layers@;
        let mut tmp = Layer::InputLayer { size: 0 };
        self.layers.set_and_swap(index, &mut tmp);
        let updated = match tmp {
            Layer::TensorLayer { activations, result, .. } => Layer::TensorLayer {
                weights,
                biases,
                activations,
                result,
            },
            Layer::InputLayer { .. } => unreached(),
        };
        self.layers.set(index, updated);
        proof {
            assert(self.layers@ =~= before.update(index as int, updated));
            assert forall|i: int| 1 <= i < self.layers@.len() implies dense_fits(
                #[trigger] self.layers@[i],
                layer_width(self.layers@[i - 1]),
            ) by {
                assert(dense_fits(before[i], layer_width(before[i - 1])));
            }
            assert(self.sizes() =~= old(self).sizes());
            if activations_total(old(self).layer_seq()) {
                assert forall|i: int| 0 <= i < self.layers@.len() implies layer_accepts_all(
                    #[trigger] self.layers@[i],
                ) by {
                    assert(layer_accepts_all(before[i]));
                }
            }
        }
        Ok(())
    }

    /// One dense layer's output for `x`: weights times `x`, plus biases,
    /// through the activation function.
    fn layer_forward(
        weights: &Tensor<T>,
        biases: &Tensor<T>,
        act: &Activation<F, D>,
        x: &Tensor<T>,
    ) -> (r: Tensor<T>)
        requires
            weights.wf(),
            biases.wf(),
            x.wf(),
            weights.dims().len() == 2,
            x.dims() == column(weights.dims()[1] as nat),
            biases.dims() == seq![weights.dims()[0]],
            accepts_all(*act),
            ring_total::<T>(),
        ensures
            r.wf(),
            r.dims() == column(weights.dims()[0] as nat),
            r.elems().len() == weights.dims()[0],
            arith_exact::<T>() ==> forall|k: int|
                0 <= k < r.elems().len() ==> act.function.ensures(
                    (matrix_product(
                        weights.elems(),
                        x.elems(),
                        weights.dims()[0] as int,
                        weights.dims()[1] as int,
                        1,
                    )[k].add_spec(biases.elems()[k]),),
                    #[trigger] r.elems()[k],
                ),
    {
        proof {
            assert(x.dims()[1] == 1);
            assert((weights.dims()[0] as int) * (x.dims()[1] as int) == weights.dims()[0] as int);
            assert(product_fits(weights.dims(), x.dims()));
        }
        let z = match weights.multiply(x) {
            Ok(z) => z,
            Err(_) => unreached(),
        };
        let mut z = z;
        proof {
            assert(broadcast_fits(z.dims(), biases.dims()));
        }
        match z.add(biases) {
            Ok(_) => {},
            Err(_) => unreached(),
        }
        proof {
            assert forall|k: int| 0 <= k < z.elems().len() implies broadcast_partner(
                z.dims(),
                biases.dims(),
                k,
            ) == k by {
                assert(z.dims() != biases.dims());
                assert(k / 1 == k);
            }
            assert(z.dims() =~= seq![weights.dims()[0], 1usize]);
            lemma_product_two(weights.dims()[0], 1);
        }
        activate(&z, act)
    }

    /// Gradient-descent step on one dense layer's weights and biases.
    fn descend(
        weights: &mut Tensor<T>,
        biases: &mut Tensor<T>,
        x: &Tensor<T>,
        delta: &Tensor<T>,
        lr: T,
    )
        requires
            old(weights).wf(),
            old(biases).wf(),
            x.wf(),
            delta.wf(),
            old(weights).dims().len() == 2,
            x.dims() == column(old(weights).dims()[1] as nat),
            delta.dims() == column(old(weights).dims()[0] as nat),
            old(biases).dims() == seq![old(weights).dims()[0]],
            ring_total::<T>(),
        ensures
            final(weights).wf(),
            final(biases).wf(),
            final(weights).dims() == old(weights).dims(),
            final(biases).dims() == old(biases).dims(),
            arith_exact::<T>() ==> descended(
                old(weights).elems(),
                old(biases).elems(),
                final(weights).elems(),
                final(biases).elems(),
                x.elems(),
                delta.elems(),
                lr,
                old(weights).dims()[1] as int,
            ),
    {
        let ghost w0 = weights.elems();
        let fan_out = delta.shape()[0];
        let fan_in = x.shape()[0];
        let wsize = weights.size();
        proof {
            assert(biases.dims() =~= seq![fan_out]);
            crate::shape::lemma_product_one(fan_out);
            assert(delta.dims() =~= seq![fan_out, 1usize]);
            lemma_product_two(fan_out, 1);
        }
        let scaled_delta = delta.multiply_scalar(lr);
        let step = biases.with_data(scaled_delta.return_vector());
        match biases.substract(&step) {
            Ok(_) => {},
            Err(_) => unreached(),
        }
        let delta_row = match delta.transpose() {
            Ok(t) => t,
            Err(_) => unreached(),
        };
        proof {
            assert(weights.dims() =~= seq![fan_out, fan_in]);
            crate::shape::lemma_product_two(fan_out, fan_in);
            assert(fan_in * fan_out == fan_out * fan_in) by (nonlinear_arith);
            assert(delta_row.dims() =~= seq![1usize, fan_out]);
        }
        let outer = match x.multiply(&delta_row) {
            Ok(t) => t,
            Err(_) => unreached(),
        };
        let grad = match outer.transpose() {
            Ok(t) => t,
            Err(_) => unreached(),
        };
        let scaled = grad.multiply_scalar(lr);
        match weights.substract(&scaled) {
            Ok(_) => {},
            Err(_) => unreached(),
        }
        proof {
            if arith_exact::<T>() {
                let d = delta.elems();
                let xs = x.elems();
                let fo = fan_out as int;
                let fi = fan_in as int;
                assert forall|q: int| 0 <= q < fo implies #[trigger] delta_row.elems()[q] == d[q] by {
                    lemma_div_mod_pair(0, fo, q);
                }
                assert forall|q: int| 0 <= q < weights.elems().len() implies #[trigger] weights.elems()[q]
                    == w0[q].sub_spec(xs[q % fi].mul_spec(d[q / fi]).mul_spec(lr)) by {
                    let i = q / fi;
                    let j = q % fi;
                    vstd::arithmetic::div_mod::lemma_fundamental_div_mod(q, fi);
                    assert(0 <= j < fi);
                    assert(0 <= i < fo) by {
                        vstd::arithmetic::div_mod::lemma_div_pos_is_pos(q, fi);
                        assert(q < fo * fi);
                        if i >= fo {
                            assert(fi * i >= fi * fo) by (nonlinear_arith)
                                requires
                                    i >= fo,
                                    fi > 0,
                            ;
                        }
                    }
                    let m = j * fo + i;
                    lemma_row_major_bound(j, fi, i, fo);
                    lemma_div_mod_pair(j, fo, i);
                    assert(grad.elems()[q] == outer.elems()[m]);
                    assert(outer.elems()[m] == row_col_sum(xs, delta_row.elems(), 1, fo, j, i, 1));
                    assert(outer.elems()[m] == xs[j].mul_spec(d[i]));
                }
            }
        }
    }

    /// The gradient handed down from a dense layer with updated weights to
    /// the layer below, whose output was `x` and whose activation is `act`.
    fn propagate(weights: &Tensor<T>, delta: &Tensor<T>, x: &Tensor<T>, act: &Activation<F, D>) -> (r:
        Tensor<T>)
        requires
            weights.wf(),
            x.wf(),
            delta.wf(),
            weights.dims().len() == 2,
            x.dims() == column(weights.dims()[1] as nat),
            delta.dims() == column(weights.dims()[0] as nat),
            accepts_all(*act),
            ring_total::<T>(),
        ensures
            r.wf(),
            r.dims() == x.dims(),
            arith_exact::<T>() ==> propagated(
                *act,
                weights.elems(),
                weights.dims()[0] as int,
                weights.dims()[1] as int,
                delta.elems(),
                x.elems(),
                r.elems(),
            ),
    {
        let fan_out = delta.shape()[0];
        let fan_in = x.shape()[0];
        let wt = match weights.transpose() {
            Ok(t) => t,
            Err(_) => unreached(),
        };
        proof {
            assert(wt.dims() =~= seq![fan_in, fan_out]);
            assert(product_fits(wt.dims(), delta.dims()));
        }
        let back = match wt.multiply(delta) {
            Ok(t) => t,
            Err(_) => unreached(),
        };
        let slope = slopes(x, act);
        let r = match back.dot(&slope) {
            Ok(t) => t,
            Err(_) => unreached(),
        };
        proof {
            if arith_exact::<T>() {
                let fo = fan_out as int;
                let fi = fan_in as int;
                assert forall|j: int| 0 <= j < fi implies scaled_by_slope(
                    *act,
                    x.elems()[j],
                    row_col_sum(transposed(weights.elems(), fo, fi), delta.elems(), fo, 1, j, 0, fo),
                    #[trigger] r.elems()[j],
                ) by {
                    lemma_div_mod_pair(j, 1, 0);
                    assert(back.elems()[j] == row_col_sum(
                        wt.elems(),
                        delta.elems(),
                        fo,
                        1,
                        j,
                        0,
                        fo,
                    ));
                    assert(act.derivative.ensures((x.elems()[j],), slope.elems()[j]));
                    assert(r.elems()[j] == back.elems()[j].mul_spec(slope.elems()[j]));
                }
            }
        }
        r
    }

    /// Runs `input`, a column of one value per input feature, through every
    /// dense layer: multiply by the weights, add the biases, apply the
    /// activation. Each layer keeps its output; the last one is returned.
    /// Fails with a shape mismatch, changing nothing, when `input` is not a
    /// column of the input size. Weights, biases and activations stay as
    /// they are.
    #[verifier::rlimit(40)]
    pub fn feed_forward(&mut self, input: Tensor<T>) -> (r: Result<Tensor<T>, TensorError>)
        requires
            old(self).wf(),
            input.wf(),
            ring_total::<T>(),
            activations_total(old(self).layer_seq()),
        ensures
            final(self).wf(),
            final(self).sizes() == old(self).sizes(),
            activations_total(final(self).layer_seq()),
            forall|i: int|
                0 <= i < old(self).layer_seq().len() ==> same_parameters(
                    #[trigger] old(self).layer_seq()[i],
                    final(self).layer_seq()[i],
                ),
            match r {
                Ok(out) => input.dims() == column(old(self).sizes()[0]) && out.wf() && out.dims()
                    == column(old(self).sizes().last()) && (old(self).sizes().len() == 1
                    ==> out.elems() == input.elems()) && (old(self).sizes().len() > 1
                    ==> holds_result(final(self).layer_seq().last(), out)) && (arith_exact::<T>()
                    ==> forall|i: int|
                    1 <= i < final(self).layer_seq().len() ==> layer_maps(
                        #[trigger] final(self).layer_seq()[i],
                        layer_input(final(self).layer_seq(), input.elems(), i),
                    )),
                Err(e) => input.dims() != column(old(self).sizes()[0]) && is_shape_mismatch(
                    e,
                    input.dims(),
                    column(old(self).sizes()[0]),
                ) && final(self).layer_seq() == old(self).layer_seq(),
            },
            old(self).sizes().len() == 1 ==> final(self).layer_seq() == old(self).layer_seq(),
    {
        let n_in = self.input_size();
        let mut expected: Vec<usize> = Vec::new();
        expected.push(n_in);
        expected.push(1);
        proof {
            assert(expected@ =~= column(self.sizes()[0]));
        }
        if !crate::tensor::same_shape(input.shape(), &expected) {
            return Err(TensorError::ShapeMismatch { left: input.duplicate_shape(), right: expected });
        }
        let ghost ls0 = self.layers@;
        let ghost in_elems = input.elems();
        let n = self.layers.len();
        let mut current = input;
        let mut i: usize = 1;
        while i < n
            invariant
                n == self.layers@.len(),
                n == ls0.len(),
                ls0 == old(self).layers@,
                old(self).wf(),
                ring_total::<T>(),
                1 <= i <= n,
                self.layers@[0] == ls0[0],
                forall|j: int| 0 <= j < n ==> same_parameters(#[trigger] ls0[j], self.layers@[j]),
                forall|j: int| i <= j < n ==> #[trigger] self.layers@[j] == ls0[j],
                forall|j: int|
                    1 <= j < n ==> dense_fits(#[trigger] self.layers@[j], layer_width(ls0[j - 1])),
                forall|j: int| 0 <= j < n ==> #[trigger] layer_width(self.layers@[j]) == layer_width(ls0[j]),
                current.wf(),
                current.dims() == column(layer_width(ls0[i - 1])),
                i == 1 ==> current.elems() == in_elems,
                i > 1 ==> holds_result(self.layers@[i - 1], current),
                activations_total(ls0),
                arith_exact::<T>() ==> forall|j: int|
                    1 <= j < i ==> layer_maps(
                        #[trigger] self.layers@[j],
                        layer_input(self.layers@, in_elems, j),
                    ),
            decreases n - i,
        {
            let ghost before = self.layers@;
            let ghost x = current.elems();
            proof {
                assert(dense_fits(ls0[i as int], layer_width(ls0[i - 1])));
                assert(x == layer_input(before, in_elems, i as int));
                assert(layer_accepts_all(ls0[i as int]));
            }
            let mut tmp = Layer::InputLayer { size: 0 };
            self.layers.set_and_swap(i, &mut tmp);
            let updated = match tmp {
                Layer::TensorLayer { weights, biases, activations, result } => {
                    let out = Self::layer_forward(&weights, &biases, &activations, &current);
                    current = out.duplicate();
                    Layer::TensorLayer { weights, biases, activations, result: out }
                },
                Layer::InputLayer { .. } => unreached(),
            };
            self.layers.set(i, updated);
            proof {
                assert(self.layers@ =~= before.update(i as int, updated));
                if arith_exact::<T>() {
                    assert(layer_maps(updated, x));
                }
                if arith_exact::<T>() {
                    assert forall|j: int| 1 <= j < i + 1 implies layer_maps(
                        #[trigger] self.layers@[j],
                        layer_input(self.layers@, in_elems, j),
                    ) by {
                        if j < i {
                            assert(self.layers@[j] == before[j]);
                            assert(layer_input(self.layers@, in_elems, j) == layer_input(before, in_elems, j));
                        }
                    }
                }
            }
            i += 1;
        }
        proof {
            assert forall|j: int| 1 <= j < n implies dense_fits(
                #[trigger] self.layers@[j],
                layer_width(self.layers@[j - 1]),
            ) by {
                assert(layer_width(self.layers@[j - 1]) == layer_width(ls0[j - 1]));
            }
            assert(self.sizes() =~= old(self).sizes());
            lemma_same_parameters_total(ls0, self.layers@);
            if n == 1 {
                assert(self.layers@ =~= ls0);
            }
        }
        Ok(current)
    }

    /// One step of gradient descent on one example: a forward pass on
    /// `input`, the loss gradient at the output against `targets`, then from
    /// the last dense layer to the first: subtract `learning_rate` times the
    /// gradient from the biases and `learning_rate` times the gradient's
    /// outer product with the layer's input from the weights, and carry the
    /// gradient back through the updated weights and the previous layer's
    /// activation slope. Fails with a shape mismatch when `input` is not a
    /// column of the input size, with an invalid network state when there is
    /// no dense layer, and with a shape mismatch when `targets` is not shaped
    /// as the output.
    #[verifier::rlimit(80)]
    pub fn back_propogate(&mut self, input: &Tensor<T>, targets: Tensor<T>, learning_rate: T) -> (r:
        Result<(), TensorError>)
        requires
            old(self).wf(),
            input.wf(),
            targets.wf(),
            ring_total::<T>(),
            activations_total(old(self).layer_seq()),
        ensures
            final(self).wf(),
            final(self).sizes() == old(self).sizes(),
            activations_total(final(self).layer_seq()),
            forall|j: int|
                0 <= j < old(self).layer_seq().len() ==> same_form(
                    #[trigger] old(self).layer_seq()[j],
                    final(self).layer_seq()[j],
                ),
            r is Err ==> forall|j: int|
                0 <= j < old(self).layer_seq().len() ==> same_parameters(
                    #[trigger] old(self).layer_seq()[j],
                    final(self).layer_seq()[j],
                ),
            match r {
                Ok(_) => input.dims() == column(old(self).sizes()[0]) && old(self).sizes().len()
                    > 1 && targets.dims() == column(old(self).sizes().last()) && (arith_exact::<T>()
                    ==> descent_step(
                    old(self).layer_seq(),
                    final(self).layer_seq(),
                    input.elems(),
                    targets.elems(),
                    learning_rate,
                )),
                Err(e) => if input.dims() != column(old(self).sizes()[0]) {
                    is_shape_mismatch(e, input.dims(), column(old(self).sizes()[0]))
                } else if old(self).sizes().len() <= 1 {
                    e == TensorError::InvalidNetworkState && final(self).layer_seq() == old(
                        self,
                    ).layer_seq()
                } else {
                    targets.dims() != column(old(self).sizes().last()) && is_shape_mismatch(
                        e,
                        column(old(self).sizes().last()),
                        targets.dims(),
                    )
                },
            },
    {
        let outputs = self.feed_forward(input.duplicate())?;
        let n = self.layers.len();
        if n < 2 {
            return Err(TensorError::InvalidNetworkState);
        }
        let ghost mid = self.layers@;
        let ghost in_elems = input.elems();
        proof {
            assert(layer_accepts_all(mid[n - 1]));
        }
        let mut delta = match &self.layers[n - 1] {
            Layer::TensorLayer { activations, .. } => MSE.derivative(
                &outputs,
                &targets,
                activations,
            )?,
            Layer::InputLayer { .. } => unreached(),
        };
        let ghost mut deltas: Seq<Seq<T>> = Seq::new(n as nat, |i: int| Seq::<T>::empty()).update(
            n - 1,
            delta.elems(),
        );
        let mut l: usize = n - 1;
        while l > 0
            invariant
                n == self.layers@.len(),
                n == mid.len(),
                n >= 2,
                ring_total::<T>(),
                input.wf(),
                input.elems() == in_elems,
                input.dims() == column(layer_width(mid[0])),
                mid[0] is InputLayer,
                layer_width(mid[0]) > 0,
                forall|j: int| 1 <= j < n ==> dense_fits(#[trigger] mid[j], layer_width(mid[j - 1])),
                l < n,
                forall|j: int| 0 <= j <= l ==> #[trigger] self.layers@[j] == mid[j],
                forall|j: int|
                    l < j < n ==> dense_fits(#[trigger] self.layers@[j], layer_width(mid[j - 1]))
                        && layer_width(self.layers@[j]) == layer_width(mid[j]) && same_form(
                        mid[j],
                        self.layers@[j],
                    ) && cached_output(self.layers@[j]) == cached_output(mid[j]),
                activations_total(mid),
                l > 0 ==> delta.wf() && delta.dims() == column(layer_width(mid[l as int])),
                deltas.len() == n,
                l > 0 ==> deltas[l as int] == delta.elems(),
                arith_exact::<T>() ==> forall|k: int|
                    0 <= k < deltas[n - 1].len() ==> activated_gradient(
                        activation_of(mid[n - 1]),
                        outputs.elems()[k],
                        targets.elems()[k],
                        #[trigger] deltas[n - 1][k],
                    ),
                deltas[n - 1].len() == outputs.elems().len(),
                arith_exact::<T>() ==> forall|j: int|
                    l < j < n ==> descended(
                        weights_of(mid[j]),
                        biases_of(mid[j]),
                        weights_of(self.layers@[j]),
                        biases_of(self.layers@[j]),
                        layer_input(mid, in_elems, j),
                        #[trigger] deltas[j],
                        learning_rate,
                        fan_in_of(mid[j]),
                    ),
                arith_exact::<T>() ==> forall|j: int|
                    l < j < n && j >= 2 ==> propagated(
                        activation_of(mid[j - 1]),
                        weights_of(self.layers@[j]),
                        layer_width(mid[j]) as int,
                        fan_in_of(mid[j]),
                        #[trigger] deltas[j],
                        layer_input(mid, in_elems, j),
                        deltas[j - 1],
                    ),
            decreases l,
        {
            let ghost before = self.layers@;
            let ghost deltas0 = deltas;
            proof {
                assert(dense_fits(mid[l as int], layer_width(mid[l - 1])));
                if l > 1 {
                    assert(dense_fits(mid[l - 1], layer_width(mid[l - 2])));
                    assert(layer_accepts_all(mid[l - 1]));
                }
            }
            let prev_out = if l == 1 {
                input.duplicate()
            } else {
                match &self.layers[l - 1] {
                    Layer::TensorLayer { result, .. } => result.duplicate(),
                    Layer::InputLayer { .. } => unreached(),
                }
            };
            proof {
                assert(prev_out.elems() == layer_input(mid, in_elems, l as int));
            }
            let mut tmp = Layer::InputLayer { size: 0 };
            self.layers.set_and_swap(l, &mut tmp);
            let updated = match tmp {
                Layer::TensorLayer { weights, biases, activations, result } => {
                    let mut weights = weights;
                    let mut biases = biases;
                    Self::descend(&mut weights, &mut biases, &prev_out, &delta, learning_rate);
                    if l > 1 {
                        let next = match &self.layers[l - 1] {
                            Layer::TensorLayer { activations: prev_act, .. } => Self::propagate(
                                &weights,
                                &delta,
                                &prev_out,
                                prev_act,
                            ),
                            Layer::InputLayer { .. } => unreached(),
                        };
                        proof {
                            deltas = deltas.update(l - 1, next.elems());
                        }
                        delta = next;
                    }
                    Layer::TensorLayer { weights, biases, activations, result }
                },
                Layer::InputLayer { .. } => unreached(),
            };
            self.layers.set(l, updated);
            proof {
                assert(self.layers@ =~= before.update(l as int, updated));
                assert(deltas[l as int] == deltas0[l as int]);
                assert(forall|j: int| l <= j < n ==> #[trigger] deltas[j] == deltas0[j]);
            }
            l -= 1;
        }
        proof {
            assert forall|j: int| 1 <= j < n implies dense_fits(
                #[trigger] self.layers@[j],
                layer_width(self.layers@[j - 1]),
            ) by {
                if j - 1 > 0 {
                    assert(layer_width(self.layers@[j - 1]) == layer_width(mid[j - 1]));
                }
            }
            assert(self.sizes() =~= old(self).sizes());
            assert(same_form(mid[0], self.layers@[0]));
            lemma_same_form_total(mid, self.layers@);
            if arith_exact::<T>() {
                lemma_trained(old(self).layers@, mid, self.layers@, in_elems, outputs, targets.elems(), learning_rate, deltas);
            }
        }
        Ok(())
    }

    /// Runs `epoch` steps of `back_propogate` on the same example, stopping
    /// at the first failure. On success the layers went through `epoch`
    /// steps of gradient descent.
    pub fn train(&mut self, input: Tensor<T>, targets: Tensor<T>, epoch: usize, learning_rate: T) -> (r:
        Result<(), TensorError>)
        requires
            old(self).wf(),
            input.wf(),
            targets.wf(),
            ring_total::<T>(),
            activations_total(old(self).layer_seq()),
        ensures
            final(self).wf(),
            final(self).sizes() == old(self).sizes(),
            activations_total(final(self).layer_seq()),
            epoch > 0 ==> (r is Ok <==> (input.dims() == column(old(self).sizes()[0]) && old(
                self,
            ).sizes().len() > 1 && targets.dims() == column(old(self).sizes().last()))),
            epoch == 0 ==> r is Ok && final(self).layer_seq() == old(self).layer_seq(),
            r is Ok && arith_exact::<T>() ==> exists|states: Seq<Seq<Layer<T, Activation<F, D>>>>|
                states.len() == epoch + 1 && descent_run(
                    states,
                    old(self).layer_seq(),
                    final(self).layer_seq(),
                    input.elems(),
                    targets.elems(),
                    learning_rate,
                ),
    {
        let ghost mut states: Seq<Seq<Layer<T, Activation<F, D>>>> = seq![self.layers@];
        let mut i: usize = 0;
        while i < epoch
            invariant
                self.wf(),
                self.sizes() == old(self).sizes(),
                input.wf(),
                targets.wf(),
                ring_total::<T>(),
                activations_total(self.layer_seq()),
                i <= epoch,
                i > 0 ==> (input.dims() == column(old(self).sizes()[0]) && old(self).sizes().len()
                    > 1 && targets.dims() == column(old(self).sizes().last())),
                i == 0 ==> self.layer_seq() == old(self).layer_seq(),
                states.len() == i + 1,
                arith_exact::<T>() ==> descent_run(
                    states,
                    old(self).layer_seq(),
                    self.layer_seq(),
                    input.elems(),
                    targets.elems(),
                    learning_rate,
                ),
            decreases epoch - i,
        {
            let ghost prev = states;
            self.back_propogate(&input, targets.duplicate(), learning_rate)?;
            proof {
                states = states.push(self.layers@);
                if arith_exact::<T>() {
                    assert forall|e: int| 0 <= e < states.len() - 1 implies descent_step(
                        #[trigger] states[e],
                        states[e + 1],
                        input.elems(),
                        targets.elems(),
                        learning_rate,
                    ) by {
                        if e < prev.len() - 1 {
                            assert(states[e] == prev[e]);
                            assert(states[e + 1] == prev[e + 1]);
                        }
                    }
                }
            }
            i += 1;
        }
        proof {
            if arith_exact::<T>() {
                assert(states.len() == epoch + 1);
            }
        }
        Ok(())
    }

    /// The weights and the biases of every dense layer, in layer order, each
    /// in row-major order.
    pub fn parameters(&self) -> (r: (Vec<Vec<T>>, Vec<Vec<T>>))
        requires
            self.wf(),
        ensures
            r.0@.len() == self.layer_seq().len() - 1,
            r.1@.len() == self.layer_seq().len() - 1,
            forall|i: int|
                0 <= i < r.0@.len() ==> holds_parameters(
                    #[trigger] self.layer_seq()[i + 1],
                    r.0@[i]@,
                    r.1@[i]@,
                ),
    {
        let mut ws: Vec<Vec<T>> = Vec::new();
        let mut bs: Vec<Vec<T>> = Vec::new();
        let mut i: usize = 1;
        while i < self.layers.len()
            invariant
                self.wf(),
                1 <= i <= self.layers@.len(),
                ws@.len() == i - 1,
                bs@.len() == i - 1,
                forall|j: int|
                    0 <= j < ws@.len() ==> holds_parameters(
                        #[trigger] self.layers@[j + 1],
                        ws@[j]@,
                        bs@[j]@,
                    ),
            decreases self.layers@.len() - i,
        {
            proof {
                assert(dense_fits(self.layers@[i as int], layer_width(self.layers@[i - 1])));
            }
            match &self.layers[i] {
                Layer::TensorLayer { weights, biases, .. } => {
                    ws.push(weights.return_vector());
                    bs.push(biases.return_vector());
                },
                Layer::InputLayer { .. } => unreached(),
            }
            i += 1;
        }
        (ws, bs)
    }

    /// Replaces the weights and biases of every dense layer, in layer order,
    /// each given in row-major order; the shapes stay the layers' own. Fails
    /// with a topology mismatch, changing nothing, when the number of layers
    /// or any layer's number of weights or biases differs from the network's.
    #[verifier::rlimit(60)]
    pub fn load_parameters(&mut self, weights: Vec<Vec<T>>, biases: Vec<Vec<T>>) -> (r: Result<
        (),
        TensorError,
    >)
        requires
            old(self).wf(),
        ensures
            activations_total(old(self).layer_seq()) ==> activations_total(final(self).layer_seq()),
            final(self).wf(),
            final(self).sizes() == old(self).sizes(),
            final(self).layer_seq().len() == old(self).layer_seq().len(),
            match r {
                Ok(_) => weights@.len() == old(self).layer_seq().len() - 1 && biases@.len()
                    == weights@.len() && (forall|i: int|
                    0 <= i < weights@.len() ==> parameter_counts(
                        #[trigger] old(self).layer_seq()[i + 1],
                        weights@[i]@.len(),
                        biases@[i]@.len(),
                    )) && final(self).layer_seq()[0] == old(self).layer_seq()[0] && (forall|i: int|
                    0 <= i < weights@.len() ==> holds_parameters(
                        #[trigger] final(self).layer_seq()[i + 1],
                        weights@[i]@,
                        biases@[i]@,
                    ) && same_form(old(self).layer_seq()[i + 1], final(self).layer_seq()[i + 1])),
                Err(e) => e == TensorError::TopologyMismatch && final(self).layer_seq() == old(
                    self,
                ).layer_seq() && !(weights@.len() == old(self).layer_seq().len() - 1
                    && biases@.len() == weights@.len() && (forall|i: int|
                    0 <= i < weights@.len() ==> parameter_counts(
                        #[trigger] old(self).layer_seq()[i + 1],
                        weights@[i]@.len(),
                        biases@[i]@.len(),
                    ))),
            },
    {
        let n = self.layers.len();
        if weights.len() != n - 1 || biases.len() != n - 1 {
            return Err(TensorError::TopologyMismatch);
        }
        let mut i: usize = 1;
        while i < n
            invariant
                self.wf(),
                n == self.layers@.len(),
                weights@.len() == n - 1,
                biases@.len() == n - 1,
                1 <= i <= n,
                forall|j: int|
                    0 <= j < i - 1 ==> parameter_counts(
                        #[trigger] self.layers@[j + 1],
                        weights@[j]@.len(),
                        biases@[j]@.len(),
                    ),
            decreases n - i,
        {
            proof {
                assert(dense_fits(self.layers@[i as int], layer_width(self.layers@[i - 1])));
            }
            let fits = match &self.layers[i] {
                Layer::TensorLayer { weights: w, biases: b, .. } => w.size() == weights[i - 1].len()
                    && b.size() == biases[i - 1].len(),
                Layer::InputLayer { .. } => false,
            };
            if !fits {
                assert(!parameter_counts(
                    self.layers@[(i - 1) + 1],
                    weights@[i - 1]@.len(),
                    biases@[i - 1]@.len(),
                ));
                return Err(TensorError::TopologyMismatch);
            }
            i += 1;
        }
        let ghost ls0 = self.layers@;
        let ghost w0 = weights@;
        let ghost b0 = biases@;
        let mut weights = weights;
        let mut biases = biases;
        let mut k: usize = n - 1;
        while k > 0
            invariant
                n == self.layers@.len(),
                n == ls0.len(),
                w0.len() == n - 1,
                b0.len() == n - 1,
                ls0[0] is InputLayer,
                layer_width(ls0[0]) > 0,
                forall|j: int| 1 <= j < n ==> dense_fits(#[trigger] ls0[j], layer_width(ls0[j - 1])),
                forall|j: int|
                    0 <= j < n - 1 ==> parameter_counts(
                        #[trigger] ls0[j + 1],
                        w0[j]@.len(),
                        b0[j]@.len(),
                    ),
                k < n,
                weights@ == w0.take(k as int),
                biases@ == b0.take(k as int),
                forall|j: int| 0 <= j <= k ==> #[trigger] self.layers@[j] == ls0[j],
                forall|j: int|
                    k < j < n ==> same_form(ls0[j], #[trigger] self.layers@[j]) && holds_parameters(
                        self.layers@[j],
                        w0[j - 1]@,
                        b0[j - 1]@,
                    ) && dense_fits(self.layers@[j], layer_width(ls0[j - 1])) && layer_width(
                        self.layers@[j],
                    ) == layer_width(ls0[j]),
            decreases k,
        {
            let ghost before = self.layers@;
            let wdata = match weights.pop() {
                Some(v) => v,
                None => unreached(),
            };
            let bdata = match biases.pop() {
                Some(v) => v,
                None => unreached(),
            };
            proof {
                assert(weights@ =~= w0.take(k - 1));
                assert(biases@ =~= b0.take(k - 1));
                assert(dense_fits(ls0[k as int], layer_width(ls0[k - 1])));
                assert(parameter_counts(ls0[(k - 1) + 1], w0[k - 1]@.len(), b0[k - 1]@.len()));
            }
            let mut tmp = Layer::InputLayer { size: 0 };
            self.layers.set_and_swap(k, &mut tmp);
            let updated = match tmp {
                Layer::TensorLayer { weights: w, biases: b, activations, result } => {
                    Layer::TensorLayer {
                        weights: w.with_data(wdata),
                        biases: b.with_data(bdata),
                        activations,
                        result,
                    }
                },
                Layer::InputLayer { .. } => unreached(),
            };
            self.layers.set(k, updated);
            proof {
                assert(self.layers@ =~= before.update(k as int, updated));
            }
            k -= 1;
        }
        proof {
            assert forall|j: int| 1 <= j < n implies dense_fits(
                #[trigger] self.layers@[j],
                layer_width(self.layers@[j - 1]),
            ) by {
                assert(dense_fits(self.layers@[j], layer_width(ls0[j - 1])));
                if j - 1 > 0 {
                    assert(layer_width(self.layers@[j - 1]) == layer_width(ls0[j - 1]));
                }
            }
            assert(self.sizes() =~= old(self).sizes());
            if activations_total(ls0) {
                assert(same_form(ls0[0], self.layers@[0]));
                lemma_same_form_total(ls0, self.layers@);
            }
            assert forall|i: int| 0 <= i < w0.len() implies holds_parameters(
                #[trigger] self.layers@[i + 1],
                w0[i]@,
                b0[i]@,
            ) && same_form(ls0[i + 1], self.layers@[i + 1]) by {
                assert(0 < i + 1 < n);
            }
        }
        Ok(())
    }
}

proof fn lemma_trained<T: Scalar, F: Fn(T) -> T, D: Fn(T) -> T>(
    before: Seq<Layer<T, Activation<F, D>>>,
    mid: Seq<Layer<T, Activation<F, D>>>,
    after: Seq<Layer<T, Activation<F, D>>>,
    input: Seq<T>,
    outputs: Tensor<T>,
    target: Seq<T>,
    lr: T,
    deltas: Seq<Seq<T>>,
)
    requires
        before.len() == mid.len(),
        mid.len() == after.len(),
        mid.len() >= 2,
        forall|j: int| 0 <= j < mid.len() ==> same_parameters(#[trigger] before[j], mid[j]),
        forall|j: int| 1 <= j < mid.len() ==> mid[j] is TensorLayer,
        forall|j: int| 1 <= j < mid.len() ==> cached_output(#[trigger] after[j]) == cached_output(mid[j]),
        holds_result(mid[mid.len() - 1], outputs),
        forall|j: int| 0 <= j < mid.len() ==> same_form(#[trigger] before[j], after[j]),
        forall|j: int| 1 <= j < mid.len() ==> layer_maps(#[trigger] mid[j], layer_input(mid, input, j)),
        deltas.len() == mid.len(),
        deltas[mid.len() - 1].len() == outputs.elems().len(),
        forall|k: int|
            0 <= k < deltas[mid.len() - 1].len() ==> activated_gradient(
                activation_of(mid[mid.len() - 1]),
                outputs.elems()[k],
                target[k],
                #[trigger] deltas[mid.len() - 1][k],
            ),
        forall|j: int|
            0 < j < mid.len() ==> descended(
                weights_of(mid[j]),
                biases_of(mid[j]),
                weights_of(after[j]),
                biases_of(after[j]),
                layer_input(mid, input, j),
                #[trigger] deltas[j],
                lr,
                fan_in_of(mid[j]),
            ),
        forall|j: int|
            0 < j < mid.len() && j >= 2 ==> propagated(
                activation_of(mid[j - 1]),
                weights_of(after[j]),
                layer_width(mid[j]) as int,
                fan_in_of(mid[j]),
                #[trigger] deltas[j],
                layer_input(mid, input, j),
                deltas[j - 1],
            ),
    ensures
        trained_by(before, after, input, target, lr, deltas),
{
    let n = mid.len() as int;
    assert forall|j: int| 1 <= j < n implies #[trigger] layer_input(after, input, j) == layer_input(
        mid,
        input,
        j,
    ) by {
        if j > 1 {
            assert(cached_output(after[j - 1]) == cached_output(mid[j - 1]));
        }
    }
    assert forall|j: int| 1 <= j < n implies weights_of(#[trigger] before[j]) == weights_of(mid[j])
        && biases_of(before[j]) == biases_of(mid[j]) && fan_in_of(before[j]) == fan_in_of(mid[j])
        && layer_width(before[j]) == layer_width(mid[j]) && activation_of(before[j])
        == activation_of(mid[j]) by {
        assert(same_parameters(before[j], mid[j]));
    }
    assert(cached_output(after[n - 1]) == outputs.elems());
    assert forall|j: int| 1 <= j < n implies computes(
        #[trigger] before[j],
        layer_input(after, input, j),
        cached_output(after[j]),
    ) by {
        assert(same_parameters(before[j], mid[j]));
        assert(layer_maps(mid[j], layer_input(mid, input, j)));
        assert(layer_input(after, input, j) == layer_input(mid, input, j));
    }
    assert forall|j: int| 1 <= j < n implies descended(
        weights_of(before[j]),
        biases_of(before[j]),
        weights_of(after[j]),
        biases_of(after[j]),
        layer_input(after, input, j),
        #[trigger] deltas[j],
        lr,
        fan_in_of(before[j]),
    ) by {
        assert(weights_of(before[j]) == weights_of(mid[j]));
        assert(layer_input(after, input, j) == layer_input(mid, input, j));
    }
    assert forall|j: int| 2 <= j < n implies propagated(
        activation_of(before[j - 1]),
        weights_of(after[j]),
        layer_width(before[j]) as int,
        fan_in_of(before[j]),
        #[trigger] deltas[j],
        layer_input(after, input, j),
        deltas[j - 1],
    ) by {
        assert(weights_of(before[j]) == weights_of(mid[j]));
        assert(activation_of(before[j - 1]) == activation_of(mid[j - 1]));
        assert(layer_input(after, input, j) == layer_input(mid, input, j));
    }
}

/// One step of gradient descent is determined by the layers and the
/// example: any two results of a step from the same layers on the same input,
/// target and learning rate hold the same weights, biases and cached outputs.
pub proof fn lemma_descent_step_unique<T: Scalar, F: Fn(T) -> T, D: Fn(T) -> T>(
    before: Seq<Layer<T, Activation<F, D>>>,
    a1: Seq<Layer<T, Activation<F, D>>>,
    a2: Seq<Layer<T, Activation<F, D>>>,
    input: Seq<T>,
    target: Seq<T>,
    lr: T,
)
    requires
        before.len() >= 2,
        a1.len() == before.len(),
        a2.len() == before.len(),
        forall|j: int| 1 <= j < before.len() ==> #[trigger] before[j] is TensorLayer,
        activations_total(before),
        descent_step(before, a1, input, target, lr),
        descent_step(before, a2, input, target, lr),
    ensures
        forall|j: int|
            1 <= j < before.len() ==> weights_of(#[trigger] a1[j]) == weights_of(a2[j])
                && biases_of(a1[j]) == biases_of(a2[j]) && cached_output(a1[j]) == cached_output(
                a2[j],
            ),
{
    let n = before.len() as int;
    let d1 = choose|d: Seq<Seq<T>>| trained_by(before, a1, input, target, lr, d);
    let d2 = choose|d: Seq<Seq<T>>| trained_by(before, a2, input, target, lr, d);
    lemma_caches_agree(before, a1, a2, input, target, lr, d1, d2, n - 1);
    let act = activation_of(before[n - 1]);
    assert(layer_accepts_all(before[n - 1]));
    assert forall|k: int| 0 <= k < d1[n - 1].len() implies #[trigger] d1[n - 1][k] == d2[n - 1][k] by {
        let p = cached_output(a1[n - 1])[k];
        assert(cached_output(a1[n - 1]) == cached_output(a2[n - 1]));
        assert(activated_gradient(act, p, target[k], d1[n - 1][k]));
        assert(activated_gradient(act, p, target[k], d2[n - 1][k]));
        let s1 = choose|s: T|
            act.derivative.ensures((p,), s) && d1[n - 1][k] == crate::loss::squared_error_gradient(
                p,
                target[k],
                s,
            );
        let s2 = choose|s: T|
            act.derivative.ensures((p,), s) && d2[n - 1][k] == crate::loss::squared_error_gradient(
                p,
                target[k],
                s,
            );
        assert(s1 == s2);
    }
    assert(d1[n - 1] =~= d2[n - 1]);
    lemma_deltas_agree(before, a1, a2, input, target, lr, d1, d2, n - 1);
}

#[verifier::rlimit(40)]
proof fn lemma_caches_agree<T: Scalar, F: Fn(T) -> T, D: Fn(T) -> T>(
    before: Seq<Layer<T, Activation<F, D>>>,
    a1: Seq<Layer<T, Activation<F, D>>>,
    a2: Seq<Layer<T, Activation<F, D>>>,
    input: Seq<T>,
    target: Seq<T>,
    lr: T,
    d1: Seq<Seq<T>>,
    d2: Seq<Seq<T>>,
    k: int,
)
    requires
        1 <= k < before.len(),
        forall|j: int| 1 <= j < before.len() ==> #[trigger] before[j] is TensorLayer,
        activations_total(before),
        trained_by(before, a1, input, target, lr, d1),
        trained_by(before, a2, input, target, lr, d2),
    ensures
        forall|j: int| 1 <= j <= k ==> cached_output(#[trigger] a1[j]) == cached_output(a2[j]),
    decreases k,
{
    if k > 1 {
        lemma_caches_agree(before, a1, a2, input, target, lr, d1, d2, k - 1);
    }
    let x = layer_input(a1, input, k);
    assert(x == layer_input(a2, input, k));
    let c1 = cached_output(a1[k]);
    let c2 = cached_output(a2[k]);
    assert(computes(before[k], x, c1));
    assert(computes(before[k], x, c2));
    assert(layer_accepts_all(before[k]));
    assert(c1 =~= c2);
}

#[verifier::rlimit(40)]
proof fn lemma_deltas_agree<T: Scalar, F: Fn(T) -> T, D: Fn(T) -> T>(
    before: Seq<Layer<T, Activation<F, D>>>,
    a1: Seq<Layer<T, Activation<F, D>>>,
    a2: Seq<Layer<T, Activation<F, D>>>,
    input: Seq<T>,
    target: Seq<T>,
    lr: T,
    d1: Seq<Seq<T>>,
    d2: Seq<Seq<T>>,
    k: int,
)
    requires
        1 <= k < before.len(),
        forall|j: int| 1 <= j < before.len() ==> #[trigger] before[j] is TensorLayer,
        activations_total(before),
        trained_by(before, a1, input, target, lr, d1),
        trained_by(before, a2, input, target, lr, d2),
        forall|j: int| 1 <= j < before.len() ==> cached_output(#[trigger] a1[j]) == cached_output(a2[j]),
        d1[k] == d2[k],
    ensures
        forall|j: int|
            1 <= j <= k ==> weights_of(#[trigger] a1[j]) == weights_of(a2[j]) && biases_of(a1[j])
                == biases_of(a2[j]),
    decreases k,
{
    let x = layer_input(a1, input, k);
    assert(x == layer_input(a2, input, k));
    assert(descended(
        weights_of(before[k]),
        biases_of(before[k]),
        weights_of(a1[k]),
        biases_of(a1[k]),
        x,
        d1[k],
        lr,
        fan_in_of(before[k]),
    ));
    assert(descended(
        weights_of(before[k]),
        biases_of(before[k]),
        weights_of(a2[k]),
        biases_of(a2[k]),
        x,
        d2[k],
        lr,
        fan_in_of(before[k]),
    ));
    assert(weights_of(a1[k]) =~= weights_of(a2[k]));
    assert(biases_of(a1[k]) =~= biases_of(a2[k]));
    if k > 1 {
        let act = activation_of(before[k - 1]);
        assert(layer_accepts_all(before[k - 1]));
        let w = weights_of(a1[k]);
        let fo = layer_width(before[k]) as int;
        let fi = fan_in_of(before[k]);
        assert(propagated(act, w, fo, fi, d1[k], x, d1[k - 1]));
        assert(propagated(act, w, fo, fi, d2[k], x, d2[k - 1]));
        assert forall|i: int| 0 <= i < fi implies #[trigger] d1[k - 1][i] == d2[k - 1][i] by {
            let base = row_col_sum(transposed(w, fo, fi), d1[k], fo, 1, i, 0, fo);
            assert(scaled_by_slope(act, x[i], base, d1[k - 1][i]));
            assert(scaled_by_slope(act, x[i], base, d2[k - 1][i]));
            let s1 = choose|s: T| act.derivative.ensures((x[i],), s) && d1[k - 1][i] == base.mul_spec(s);
            let s2 = choose|s: T| act.derivative.ensures((x[i],), s) && d2[k - 1][i] == base.mul_spec(s);
            assert(s1 == s2);
        }
        assert(d1[k - 1] =~= d2[k - 1]);
        lemma_deltas_agree(before, a1, a2, input, target, lr, d1, d2, k - 1);
    }
}

/// Two layer sequences hold the same layers: same shapes, activations,
/// weights, biases and cached outputs.
pub open spec fn same_layers<T, A>(a: Seq<Layer<T, A>>, b: Seq<Layer<T, A>>) -> bool {
    &&& a.len() == b.len()
    &&& forall|j: int|
        0 <= j < a.len() ==> same_form(#[trigger] a[j], b[j]) && weights_of(a[j]) == weights_of(b[j])
            && biases_of(a[j]) == biases_of(b[j]) && cached_output(a[j]) == cached_output(b[j])
}

/// The layers are a network's: an input marker, then dense layers whose
/// activations accept every element and give one result for each.
pub open spec fn trainable<T, F: Fn(T) -> T, D: Fn(T) -> T>(ls: Seq<Layer<T, Activation<F, D>>>) -> bool {
    &&& ls.len() >= 2
    &&& ls[0] is InputLayer
    &&& forall|j: int| 1 <= j < ls.len() ==> #[trigger] ls[j] is TensorLayer
    &&& activations_total(ls)
}

proof fn lemma_same_layers_trainable<T, F: Fn(T) -> T, D: Fn(T) -> T>(
    a: Seq<Layer<T, Activation<F, D>>>,
    b: Seq<Layer<T, Activation<F, D>>>,
)
    requires
        trainable(a),
        a.len() == b.len(),
        forall|j: int| 0 <= j < a.len() ==> same_form(#[trigger] a[j], b[j]),
    ensures
        trainable(b),
{
    assert forall|j: int| 1 <= j < b.len() implies #[trigger] b[j] is TensorLayer by {
        assert(same_form(a[j], b[j]));
        assert(a[j] is TensorLayer);
    }
    assert(same_form(a[0], b[0]));
    lemma_same_form_total(a, b);
}

#[verifier::rlimit(60)]
proof fn lemma_step_same_start<T: Scalar, F: Fn(T) -> T, D: Fn(T) -> T>(
    b: Seq<Layer<T, Activation<F, D>>>,
    b2: Seq<Layer<T, Activation<F, D>>>,
    a: Seq<Layer<T, Activation<F, D>>>,
    input: Seq<T>,
    target: Seq<T>,
    lr: T,
)
    requires
        trainable(b),
        same_layers(b, b2),
        descent_step(b, a, input, target, lr),
    ensures
        descent_step(b2, a, input, target, lr),
{
    let n = b.len() as int;
    let d = choose|d: Seq<Seq<T>>| trained_by(b, a, input, target, lr, d);
    assert forall|j: int| 0 <= j < n implies same_form(#[trigger] b2[j], a[j]) by {
        assert(same_form(b[j], a[j]));
        assert(same_form(b[j], b2[j]));
    }
    assert forall|j: int| 1 <= j < n implies computes(
        #[trigger] b2[j],
        layer_input(a, input, j),
        cached_output(a[j]),
    ) by {
        assert(b[j] is TensorLayer);
        assert(same_form(b[j], b2[j]));
        assert(computes(b[j], layer_input(a, input, j), cached_output(a[j])));
    }
    assert forall|j: int| 1 <= j < n implies weights_of(#[trigger] b2[j]) == weights_of(b[j])
        && biases_of(b2[j]) == biases_of(b[j]) && fan_in_of(b2[j]) == fan_in_of(b[j])
        && layer_width(b2[j]) == layer_width(b[j]) && activation_of(b2[j]) == activation_of(b[j]) by {
        assert(b[j] is TensorLayer);
        assert(same_form(b[j], b2[j]));
    }
    assert(trained_by(b2, a, input, target, lr, d));
}

/// Runs of gradient descent of the same length on the same example, from
/// the same layers, end in the same layers: training is determined by its
/// start, the example, the learning rate and the number of steps.
pub proof fn lemma_descent_run_unique<T: Scalar, F: Fn(T) -> T, D: Fn(T) -> T>(
    s1: Seq<Seq<Layer<T, Activation<F, D>>>>,
    s2: Seq<Seq<Layer<T, Activation<F, D>>>>,
    first1: Seq<Layer<T, Activation<F, D>>>,
    first2: Seq<Layer<T, Activation<F, D>>>,
    last1: Seq<Layer<T, Activation<F, D>>>,
    last2: Seq<Layer<T, Activation<F, D>>>,
    input: Seq<T>,
    target: Seq<T>,
    lr: T,
)
    requires
        trainable(first1),
        same_layers(first1, first2),
        s1.len() == s2.len(),
        descent_run(s1, first1, last1, input, target, lr),
        descent_run(s2, first2, last2, input, target, lr),
    ensures
        same_layers(last1, last2),
    decreases s1.len(),
{
    if s1.len() == 1 {
        assert(last1 == first1);
        assert(last2 == first2);
    } else {
        let n1 = s1[1];
        let n2 = s2[1];
        assert(descent_step(s1[0], s1[1], input, target, lr));
        assert(descent_step(s2[0], s2[1], input, target, lr));
        lemma_same_layers_trainable(first1, first2);
        assert forall|j: int| 0 <= j < first2.len() implies same_form(#[trigger] first2[j], first1[j])
            && weights_of(first2[j]) == weights_of(first1[j]) && biases_of(first2[j]) == biases_of(
            first1[j],
        ) && cached_output(first2[j]) == cached_output(first1[j]) by {
            assert(same_form(first1[j], first2[j]));
        }
        assert(same_layers(first2, first1));
        lemma_step_same_start(first2, first1, n2, input, target, lr);
        let d1 = choose|d: Seq<Seq<T>>| trained_by(first1, n1, input, target, lr, d);
        let d2 = choose|d: Seq<Seq<T>>| trained_by(first1, n2, input, target, lr, d);
        lemma_descent_step_unique(first1, n1, n2, input, target, lr);
        assert forall|j: int| 0 <= j < n1.len() implies same_form(#[trigger] n1[j], n2[j]) && weights_of(n1[j])
            == weights_of(n2[j]) && biases_of(n1[j]) == biases_of(n2[j]) && cached_output(n1[j])
            == cached_output(n2[j]) by {
            assert(same_form(first1[j], n1[j]));
            assert(same_form(first1[j], n2[j]));
            if j == 0 {
                assert(first1[0] is InputLayer);
                assert(weights_of(n1[0]) == Seq::<T>::empty());
                assert(weights_of(n2[0]) == Seq::<T>::empty());
            }
        }
        lemma_same_layers_trainable(first1, n1);
        let t1 = s1.drop_first();
        let t2 = s2.drop_first();
        assert forall|e: int| 0 <= e < t1.len() - 1 implies descent_step(
            #[trigger] t1[e],
            t1[e + 1],
            input,
            target,
            lr,
        ) by {
            assert(descent_step(s1[e + 1], s1[e + 2], input, target, lr));
        }
        assert forall|e: int| 0 <= e < t2.len() - 1 implies descent_step(
            #[trigger] t2[e],
            t2[e + 1],
            input,
            target,
            lr,
        ) by {
            assert(descent_step(s2[e + 1], s2[e + 2], input, target, lr));
        }
        lemma_descent_run_unique(t1, t2, n1, n2, last1, last2, input, target, lr);
    }
}

/// Training for `e1` epochs and then for `e2` more ends in the same layers
/// as training for `e1 + e2` epochs from the same start on the same example.
pub proof fn lemma_epochs_add<T: Scalar, F: Fn(T) -> T, D: Fn(T) -> T>(
    r1: Seq<Seq<Layer<T, Activation<F, D>>>>,
    r2: Seq<Seq<Layer<T, Activation<F, D>>>>,
    r3: Seq<Seq<Layer<T, Activation<F, D>>>>,
    start: Seq<Layer<T, Activation<F, D>>>,
    mid: Seq<Layer<T, Activation<F, D>>>,
    end: Seq<Layer<T, Activation<F, D>>>,
    end3: Seq<Layer<T, Activation<F, D>>>,
    input: Seq<T>,
    target: Seq<T>,
    lr: T,
)
    requires
        trainable(start),
        descent_run(r1, start, mid, input, target, lr),
        descent_run(r2, mid, end, input, target, lr),
        descent_run(r3, start, end3, input, target, lr),
        r3.len() == r1.len() + r2.len() - 1,
    ensures
        same_layers(end, end3),
{
    let r = r1 + r2.drop_first();
    assert(r[0] == start);
    if r2.len() == 1 {
        assert(r =~= r1);
        assert(end == mid);
    } else {
        assert(r.last() == r2.last());
    }
    assert forall|e: int| 0 <= e < r.len() - 1 implies descent_step(
        #[trigger] r[e],
        r[e + 1],
        input,
        target,
        lr,
    ) by {
        if e < r1.len() - 1 {
            assert(descent_step(r1[e], r1[e + 1], input, target, lr));
        } else {
            let f = e - (r1.len() - 1);
            assert(descent_step(r2[f], r2[f + 1], input, target, lr));
            if f == 0 {
                assert(r[e] == r1.last());
            }
        }
    }
    assert(descent_run(r, start, end, input, target, lr));
    assert forall|j: int| 0 <= j < start.len() implies same_form(#[trigger] start[j], start[j]) by {}
    lemma_descent_run_unique(r, r3, start, start, end, end3, input, target, lr);
}

/// A forward pass is determined: two layer sequences with the same
/// parameters and activations that both hold the forward pass of `input`
/// hold the same cached outputs up to layer `k`, the returned output among
/// them.
pub proof fn lemma_forward_unique<T: Scalar, F: Fn(T) -> T, D: Fn(T) -> T>(
    a: Seq<Layer<T, Activation<F, D>>>,
    b: Seq<Layer<T, Activation<F, D>>>,
    input: Seq<T>,
    k: int,
)
    requires
        trainable(a),
        a.len() == b.len(),
        1 <= k < a.len(),
        forall|j: int| 0 <= j < a.len() ==> same_parameters(#[trigger] a[j], b[j]),
        forall|j: int| 1 <= j < a.len() ==> layer_maps(#[trigger] a[j], layer_input(a, input, j)),
        forall|j: int| 1 <= j < a.len() ==> layer_maps(#[trigger] b[j], layer_input(b, input, j)),
    ensures
        forall|j: int| 1 <= j <= k ==> cached_output(#[trigger] a[j]) == cached_output(b[j]),
    decreases k,
{
    if k > 1 {
        lemma_forward_unique(a, b, input, k - 1);
    }
    let x = layer_input(a, input, k);
    assert(x == layer_input(b, input, k));
    assert(a[k] is TensorLayer);
    assert(same_parameters(a[k], b[k]));
    assert(layer_accepts_all(a[k]));
    let ca = cached_output(a[k]);
    let cb = cached_output(b[k]);
    assert(layer_maps(a[k], x));
    assert(layer_maps(b[k], x));
    assert(computes(a[k], x, cb));
    assert(ca =~= cb);
}

} // verus!
