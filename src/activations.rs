//! Activation functions applied element by element after each dense layer.

use vstd::prelude::*;
use crate::scalar::Scalar;
use crate::tensor::Tensor;

verus! {

/// A named scalar function and its derivative. The derivative takes the
/// function's output, not its input: for the logistic sigmoid
/// `y = 1 / (1 + e^-x)` it is `y * (1 - y)`.
#[derive(Clone, Copy, Debug)]
pub struct Activation<F, D> {
    pub function: F,
    pub derivative: D,
    pub name: &'static str,
}

/// Both functions of `act` accept every element and give one result for
/// each.
pub open spec fn accepts_all<T, F: Fn(T) -> T, D: Fn(T) -> T>(act: Activation<F, D>) -> bool {
    &&& forall|x: T| #[trigger] act.function.requires((x,))
    &&& forall|y: T| #[trigger] act.derivative.requires((y,))
    &&& forall|x: T, a: T, b: T|
        #[trigger] act.function.ensures((x,), a) && #[trigger] act.function.ensures((x,), b) ==> a
            == b
    &&& forall|y: T, a: T, b: T|
        #[trigger] act.derivative.ensures((y,), a) && #[trigger] act.derivative.ensures((y,), b)
            ==> a == b
}

/// A new tensor of the same shape with the activation applied to every
/// element.
pub fn activate<T: Scalar, F: Fn(T) -> T, D: Fn(T) -> T>(t: &Tensor<T>, act: &Activation<F, D>) -> (r:
    Tensor<T>)
    requires
        t.wf(),
        accepts_all(*act),
    ensures
        r.wf(),
        r.dims() == t.dims(),
        forall|k: int|
            0 <= k < r.elems().len() ==> act.function.ensures((t.elems()[k],), #[trigger] r.elems()[k]),
{
    let values = t.return_vector();
    let mut out: Vec<T> = Vec::new();
    let mut k: usize = 0;
    while k < values.len()
        invariant
            k <= values.len(),
            values@ == t.elems(),
            out@.len() == k,
            accepts_all(*act),
            forall|i: int| 0 <= i < k ==> act.function.ensures((values@[i],), #[trigger] out@[i]),
        decreases values.len() - k,
    {
        out.push((act.function)(values[k]));
        k += 1;
    }
    t.with_data(out)
}

/// A new tensor of the same shape holding the activation's derivative at
/// every element, each element taken as the function's output.
pub fn slopes<T: Scalar, F: Fn(T) -> T, D: Fn(T) -> T>(t: &Tensor<T>, act: &Activation<F, D>) -> (r:
    Tensor<T>)
    requires
        t.wf(),
        accepts_all(*act),
    ensures
        r.wf(),
        r.dims() == t.dims(),
        forall|k: int|
            0 <= k < r.elems().len() ==> act.derivative.ensures((t.elems()[k],), #[trigger] r.elems()[k]),
{
    let values = t.return_vector();
    let mut out: Vec<T> = Vec::new();
    let mut k: usize = 0;
    while k < values.len()
        invariant
            k <= values.len(),
            values@ == t.elems(),
            out@.len() == k,
            accepts_all(*act),
            forall|i: int| 0 <= i < k ==> act.derivative.ensures((values@[i],), #[trigger] out@[i]),
        decreases values.len() - k,
    {
        out.push((act.derivative)(values[k]));
        k += 1;
    }
    t.with_data(out)
}

} // verus!
