//! Pooling over windows of a tensor: output shapes.

use vstd::prelude::*;
use crate::error::{is_shape_mismatch, TensorError};
use crate::scalar::{arith_exact, count_of, Scalar};
use crate::shape::{dims_positive, dims_product, shape_size};
use crate::tensor::Tensor;

verus! {

/// How a window is reduced to one value.
#[derive(Clone, Copy, Debug, PartialEq, Eq)]
pub enum PoolingType {
    Max,
    Average,
}

/// A pooling step: a window shape slid over the input by `stride`.
pub struct Pooling<T> {
    pooling_type: PoolingType,
    window_size: Tensor<T>,
    stride: usize,
}

/// Number of window positions along a dimension of size `dim` for a window
/// of size `w` moved by `stride`.
pub open spec fn pooled_dim(dim: usize, w: usize, stride: usize) -> int {
    (dim - w) / (stride as int) + 1
}

/// The window fits inside an input of shape `input`: same rank, no window
/// dimension larger than the input's.
pub open spec fn window_fits(input: Seq<usize>, window: Seq<usize>) -> bool {
    input.len() == window.len() && forall|i: int| 0 <= i < input.len() ==> window[i] <= input[i]
}

impl<T> Pooling<T> {
    /// The window shape.
    pub closed spec fn window(&self) -> Seq<usize> {
        self.window_size.dims()
    }

    /// The distance between window positions.
    pub closed spec fn step(&self) -> usize {
        self.stride
    }

    /// The kind of pooling.
    pub closed spec fn kind(&self) -> PoolingType {
        self.pooling_type
    }

    /// A pooling step of the given kind, window and positive stride.
    pub fn new(pooling_type: PoolingType, window_size: Tensor<T>, stride: usize) -> (r: Self)
        requires
            stride > 0,
        ensures
            r.kind() == pooling_type,
            r.window() == window_size.dims(),
            r.step() == stride,
    {
        Pooling { pooling_type, window_size, stride }
    }
}

impl<T: Scalar> Pooling<T> {
    /// A zero tensor with one element per window position: along each
    /// dimension `(dim - window) / stride + 1` positions. Fails with a shape
    /// mismatch when the window has another rank than the input or is larger
    /// than it along some dimension.
    pub fn apply(self, input: Tensor<T>) -> (r: Result<Tensor<T>, TensorError>)
        requires
            input.wf(),
            self.step() > 0,
            dims_positive(self.window()),
        ensures
            match r {
                Ok(t) => window_fits(input.dims(), self.window()) && t.wf() && t.dims().len()
                    == input.dims().len() && (forall|i: int|
                    0 <= i < t.dims().len() ==> #[trigger] t.dims()[i] == pooled_dim(
                        input.dims()[i],
                        self.window()[i],
                        self.step(),
                    )) && (arith_exact::<T>() ==> forall|k: int|
                    0 <= k < t.elems().len() ==> #[trigger] t.elems()[k] == count_of::<T>(0)),
                Err(e) => !window_fits(input.dims(), self.window()) && is_shape_mismatch(
                    e,
                    input.dims(),
                    self.window(),
                ),
            },
    {
        let dims = input.shape();
        let window = self.window_size.shape();
        let mismatch = TensorError::ShapeMismatch {
            left: input.duplicate_shape(),
            right: self.window_size.duplicate_shape(),
        };
        if dims.len() != window.len() {
            return Err(mismatch);
        }
        let mut out: Vec<usize> = Vec::new();
        let mut k: usize = 0;
        while k < dims.len()
            invariant
                dims@ == input.dims(),
                window@ == self.window(),
                dims.len() == window.len(),
                self.stride > 0,
                dims_positive(window@),
                is_shape_mismatch(mismatch, input.dims(), self.window()),
                k <= dims.len(),
                out@.len() == k,
                forall|i: int| 0 <= i < k ==> window@[i] <= dims@[i],
                forall|i: int|
                    0 <= i < k ==> #[trigger] out@[i] == pooled_dim(dims@[i], window@[i], self.stride)
                        && 0 < out@[i] <= dims@[i],
            decreases dims.len() - k,
        {
            if window[k] > dims[k] {
                assert(self.window()[k as int] > input.dims()[k as int]);
                return Err(mismatch);
            }
            proof {
                assert((dims[k as int] - window[k as int]) / (self.stride as int) <= dims[k as int]
                    - window[k as int]) by {
                    vstd::arithmetic::div_mod::lemma_div_is_ordered_by_denominator(
                        (dims[k as int] - window[k as int]) as int,
                        1,
                        self.stride as int,
                    );
                }
                assert(window[k as int] > 0);
            }
            let d = (dims[k] - window[k]) / self.stride + 1;
            out.push(d);
            k += 1;
        }
        let total = input.size();
        proof {
            lemma_pooled_size(out@, dims@);
            assert(dims_positive(out@));
            assert(shape_size(out@) <= total);
        }
        Ok(Tensor::new(out))
    }
}

/// A shape no larger than another along every dimension holds no more
/// elements.
proof fn lemma_pooled_size(small: Seq<usize>, big: Seq<usize>)
    requires
        small.len() == big.len(),
        forall|i: int| 0 <= i < small.len() ==> 0 < #[trigger] small[i] <= big[i],
    ensures
        dims_product(small) <= dims_product(big),
    decreases small.len(),
{
    if small.len() > 0 {
        lemma_pooled_size(small.drop_last(), big.drop_last());
        let a = dims_product(small.drop_last());
        let b = dims_product(big.drop_last());
        let x = small.last() as nat;
        let y = big.last() as nat;
        assert(a * x <= b * y) by (nonlinear_arith)
            requires
                a <= b,
                x <= y,
        ;
    }
}

} // verus!
