//! The element types a tensor can hold.

use vstd::prelude::*;
use vstd::std_specs::convert::FromSpec;
use vstd::std_specs::ops::{AddSpec, DivSpec, MulSpec, SubSpec};

verus! {

/// A numeric element: copyable, with the four arithmetic operators and a
/// conversion from small counts (which also gives zero).
pub trait Scalar: Copy + core::ops::Add<Output = Self> + core::ops::Sub<
    Output = Self,
> + core::ops::Mul<Output = Self> + core::ops::Div<Output = Self> + core::convert::From<u32> {

}

impl<
    T: Copy + core::ops::Add<Output = T> + core::ops::Sub<
        Output = T,
    > + core::ops::Mul<Output = T> + core::ops::Div<Output = T> + core::convert::From<u32>,
> Scalar for T {

}

/// The element type's addition never fails.
pub open spec fn add_total<T: Scalar>() -> bool {
    forall|x: T, y: T| #[trigger] x.add_req(y)
}

/// The element type's subtraction never fails.
pub open spec fn sub_total<T: Scalar>() -> bool {
    forall|x: T, y: T| #[trigger] x.sub_req(y)
}

/// The element type's multiplication never fails.
pub open spec fn mul_total<T: Scalar>() -> bool {
    forall|x: T, y: T| #[trigger] x.mul_req(y)
}

/// The element type's division never fails.
pub open spec fn div_total<T: Scalar>() -> bool {
    forall|x: T, y: T| #[trigger] x.div_req(y)
}

/// Addition, subtraction and multiplication never fail.
pub open spec fn ring_total<T: Scalar>() -> bool {
    add_total::<T>() && sub_total::<T>() && mul_total::<T>()
}

/// The element type's operators never fail on any pair of operands.
pub open spec fn arith_total<T: Scalar>() -> bool {
    ring_total::<T>() && div_total::<T>()
}

/// The element type's operators compute exactly what their specifications say.
pub open spec fn arith_exact<T: Scalar>() -> bool {
    &&& T::obeys_add_spec()
    &&& T::obeys_sub_spec()
    &&& T::obeys_mul_spec()
    &&& T::obeys_div_spec()
    &&& <T as FromSpec<u32>>::obeys_from_spec()
}

/// The element with the value of count `n`.
pub open spec fn count_of<T: Scalar>(n: u32) -> T {
    T::from_spec(n)
}

} // verus!
