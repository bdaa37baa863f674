//! Loss functions: how far a prediction is from its target, and the gradient
//! that starts backpropagation.

use vstd::prelude::*;
use crate::activations::{accepts_all, slopes, Activation};
use crate::error::{is_shape_mismatch, TensorError};
use crate::scalar::{arith_exact, arith_total, count_of, mul_total, sub_total, Scalar};
use crate::tensor::Tensor;
use vstd::std_specs::ops::{AddSpec, DivSpec, MulSpec, SubSpec};

verus! {

/// The available loss functions.
#[derive(Clone, Copy, Debug, PartialEq, Eq)]
pub enum LossFunction {
    /// Mean of the squared differences between target and prediction.
    MeanSquaredError,
}

/// The mean squared error under its usual short name.
pub const MSE: LossFunction = LossFunction::MeanSquaredError;

/// Sum, in order, of the first `k` squared differences `actual - predicted`,
/// starting from zero.
pub open spec fn squared_error_sum<T: Scalar>(predicted: Seq<T>, actual: Seq<T>, k: int) -> T
    decreases k,
{
    if k <= 0 {
        count_of::<T>(0)
    } else {
        let d = actual[k - 1].sub_spec(predicted[k - 1]);
        squared_error_sum(predicted, actual, k - 1).add_spec(d.mul_spec(d))
    }
}

/// Mean of the squared differences over all elements.
pub open spec fn mean_squared_error<T: Scalar>(predicted: Seq<T>, actual: Seq<T>) -> T {
    squared_error_sum(predicted, actual, predicted.len() as int).div_spec(
        count_of::<T>(predicted.len() as u32),
    )
}

/// Gradient of the mean squared error at one element: the activation's
/// slope there, times `predicted - actual`, times two.
pub open spec fn squared_error_gradient<T: Scalar>(predicted: T, actual: T, slope: T) -> T {
    slope.mul_spec(predicted.sub_spec(actual)).mul_spec(count_of::<T>(2))
}

/// `g` is the gradient at one element whose prediction `p` came from
/// `act`, for target `a`: the activation's derivative at `p` times
/// `p - a` times two.
pub open spec fn activated_gradient<T: Scalar, F: Fn(T) -> T, D: Fn(T) -> T>(
    act: Activation<F, D>,
    p: T,
    a: T,
    g: T,
) -> bool {
    exists|s: T| act.derivative.ensures((p,), s) && g == squared_error_gradient(p, a, s)
}

impl LossFunction {
    /// The loss function's name.
    pub fn name(&self) -> (r: &'static str)
        ensures
            r@ == "Mean Squared Error"@,
    {
        match self {
            LossFunction::MeanSquaredError => "Mean Squared Error",
        }
    }

    /// The loss of `predicted` against `actual`; fails with a shape mismatch
    /// when their shapes differ.
    pub fn value<T: Scalar>(&self, predicted: &Tensor<T>, actual: &Tensor<T>) -> (r: Result<
        T,
        TensorError,
    >)
        requires
            predicted.wf(),
            actual.wf(),
            arith_total::<T>(),
            predicted.elems().len() <= u32::MAX,
        ensures
            match r {
                Ok(v) => predicted.dims() == actual.dims() && (arith_exact::<T>() ==> v
                    == mean_squared_error(predicted.elems(), actual.elems())),
                Err(e) => predicted.dims() != actual.dims() && is_shape_mismatch(
                    e,
                    predicted.dims(),
                    actual.dims(),
                ),
            },
    {
        if !crate::tensor::same_shape(predicted.shape(), actual.shape()) {
            return Err(
                TensorError::ShapeMismatch {
                    left: predicted.duplicate_shape(),
                    right: actual.duplicate_shape(),
                },
            );
        }
        let p = predicted.return_vector();
        let a = actual.return_vector();
        let mut sum = T::from(0u32);
        let mut k: usize = 0;
        while k < p.len()
            invariant
                p@ == predicted.elems(),
                a@ == actual.elems(),
                p.len() == a.len(),
                k <= p.len(),
                arith_total::<T>(),
                arith_exact::<T>() ==> sum == squared_error_sum(p@, a@, k as int),
            decreases p.len() - k,
        {
            let d = a[k] - p[k];
            sum = sum + d * d;
            k += 1;
        }
        let n = T::from(p.len() as u32);
        Ok(sum / n)
    }

    /// The gradient of the loss with respect to the prediction, for a layer
    /// whose output `predicted` came from `activation`: shaped as `predicted`,
    /// with the activation's derivative taken at each predicted element.
    /// Fails with a shape mismatch when the shapes differ.
    pub fn derivative<T: Scalar, F: Fn(T) -> T, D: Fn(T) -> T>(
        &self,
        predicted: &Tensor<T>,
        actual: &Tensor<T>,
        activation: &Activation<F, D>,
    ) -> (r: Result<Tensor<T>, TensorError>)
        requires
            predicted.wf(),
            actual.wf(),
            sub_total::<T>() && mul_total::<T>(),
            accepts_all(*activation),
        ensures
            match r {
                Ok(g) => predicted.dims() == actual.dims() && g.wf() && g.dims()
                    == predicted.dims() && (arith_exact::<T>() ==> forall|k: int|
                    0 <= k < g.elems().len() ==> activated_gradient(
                        *activation,
                        predicted.elems()[k],
                        actual.elems()[k],
                        #[trigger] g.elems()[k],
                    )),
                Err(e) => predicted.dims() != actual.dims() && is_shape_mismatch(
                    e,
                    predicted.dims(),
                    actual.dims(),
                ),
            },
    {
        let s = slopes(predicted, activation);
        let r = self.gradient_from_slopes(predicted, actual, &s);
        proof {
            if r is Ok && arith_exact::<T>() {
                let g = r->Ok_0;
                assert forall|k: int| 0 <= k < g.elems().len() implies activated_gradient(
                    *activation,
                    predicted.elems()[k],
                    actual.elems()[k],
                    #[trigger] g.elems()[k],
                ) by {
                    assert(activation.derivative.ensures((predicted.elems()[k],), s.elems()[k]));
                    assert(g.elems()[k] == squared_error_gradient(
                        predicted.elems()[k],
                        actual.elems()[k],
                        s.elems()[k],
                    ));
                }
            }
        }
        r
    }

    /// The gradient given the activation's slope at each predicted element:
    /// slope times `predicted - actual` times two, element by element. Fails
    /// with a shape mismatch when `predicted` and `actual` differ in shape.
    pub fn gradient_from_slopes<T: Scalar>(
        &self,
        predicted: &Tensor<T>,
        actual: &Tensor<T>,
        slope: &Tensor<T>,
    ) -> (r: Result<Tensor<T>, TensorError>)
        requires
            predicted.wf(),
            actual.wf(),
            slope.wf(),
            slope.dims() == predicted.dims(),
            sub_total::<T>() && mul_total::<T>(),
        ensures
            match r {
                Ok(g) => predicted.dims() == actual.dims() && g.wf() && g.dims()
                    == predicted.dims() && (arith_exact::<T>() ==> forall|k: int|
                    0 <= k < g.elems().len() ==> #[trigger] g.elems()[k]
                        == squared_error_gradient(
                        predicted.elems()[k],
                        actual.elems()[k],
                        slope.elems()[k],
                    )),
                Err(e) => predicted.dims() != actual.dims() && is_shape_mismatch(
                    e,
                    predicted.dims(),
                    actual.dims(),
                ),
            },
    {
        if !crate::tensor::same_shape(predicted.shape(), actual.shape()) {
            return Err(
                TensorError::ShapeMismatch {
                    left: predicted.duplicate_shape(),
                    right: actual.duplicate_shape(),
                },
            );
        }
        let p = predicted.return_vector();
        let a = actual.return_vector();
        let s = slope.return_vector();
        let two = T::from(2u32);
        let mut out: Vec<T> = Vec::new();
        let mut k: usize = 0;
        while k < p.len()
            invariant
                p@ == predicted.elems(),
                a@ == actual.elems(),
                s@ == slope.elems(),
                p.len() == a.len(),
                p.len() == s.len(),
                k <= p.len(),
                out@.len() == k,
                sub_total::<T>() && mul_total::<T>(),
                arith_exact::<T>() ==> two == count_of::<T>(2),
                arith_exact::<T>() ==> forall|i: int|
                    0 <= i < k ==> #[trigger] out@[i] == squared_error_gradient(p@[i], a@[i], s@[i]),
            decreases p.len() - k,
        {
            out.push(s[k] * (p[k] - a[k]) * two);
            k += 1;
        }
        Ok(predicted.with_data(out))
    }
}

} // verus!
