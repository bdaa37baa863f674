//! N-dimensional tensors with row-major storage.

use vstd::prelude::*;
use crate::error::{is_shape_mismatch, TensorError};
use crate::scalar::{add_total, arith_exact, count_of, mul_total, sub_total, Scalar};
use crate::shape::{
    dims_positive, dims_product, flat_offset, index_in_bounds, lemma_offset_prefix,
    lemma_product_prefix, lemma_product_prefix_le, shape_size, lemma_div_mod_pair,
    lemma_row_major_bound, lemma_product_two, lemma_product_one, lemma_product_concat,
    lemma_product_positive,
};
use vstd::std_specs::ops::{AddSpec, MulSpec, SubSpec};

verus! {

/// An N-dimensional array: a shape of positive dimension sizes and the
/// elements in row-major order (the last dimension varies fastest).
#[derive(Clone, Debug)]
pub struct Tensor<T> {
    shape: Vec<usize>,
    data: Vec<T>,
}

impl<T> Tensor<T> {
    /// The dimension sizes.
    pub closed spec fn dims(&self) -> Seq<usize> {
        self.shape@
    }

    /// The elements in row-major order.
    pub closed spec fn elems(&self) -> Seq<T> {
        self.data@
    }

    /// Dimension sizes are positive and the element count is their product.
    pub open spec fn wf(&self) -> bool {
        &&& dims_positive(self.dims())
        &&& self.elems().len() == shape_size(self.dims())
    }

    /// The element at coordinates `idx`.
    pub open spec fn at(&self, idx: Seq<usize>) -> T {
        self.elems()[flat_offset(self.dims(), idx)]
    }

    /// The dimension sizes.
    pub fn shape(&self) -> (r: &Vec<usize>)
        ensures
            r@ == self.dims(),
    {
        &self.shape
    }

    /// A copy of the elements in row-major order.
    pub fn return_vector(&self) -> (r: Vec<T>)
        where
            T: Copy,
        ensures
            r@ == self.elems(),
    {
        let mut r: Vec<T> = Vec::new();
        let mut k: usize = 0;
        while k < self.data.len()
            invariant
                k <= self.data.len(),
                r@ == self.data@.take(k as int),
            decreases self.data.len() - k,
        {
            r.push(self.data[k]);
            k += 1;
            assert(r@ =~= self.data@.take(k as int));
        }
        assert(self.data@.take(k as int) =~= self.data@);
        r
    }

    /// A tensor of the given shape holding `data` in row-major order. Fails
    /// with a shape mismatch when a dimension is zero or `data` does not hold
    /// exactly as many elements as the shape asks for.
    pub fn from(shape: Vec<usize>, data: Vec<T>) -> (r: Result<Tensor<T>, TensorError>)
        ensures
            match r {
                Ok(t) => dims_positive(shape@) && data@.len() == shape_size(shape@) && t.dims()
                    == shape@ && t.elems() == data@,
                Err(e) => !(dims_positive(shape@) && data@.len() == shape_size(shape@))
                    && is_shape_mismatch(e, shape@, seq![data@.len() as usize]),
            },
            r is Ok ==> r->Ok_0.wf(),
    {
        let n = data.len();
        match checked_size(&shape) {
            Some(size) => {
                if size == n {
                    Ok(Tensor { shape, data })
                } else {
                    Err(TensorError::ShapeMismatch { left: shape, right: single(n) })
                }
            },
            None => Err(TensorError::ShapeMismatch { left: shape, right: single(n) }),
        }
    }

    /// Flat position of coordinates `index`, or IndexOutOfBounds.
    fn offset_of(&self, index: &Vec<usize>) -> (r: Result<usize, TensorError>)
        requires
            self.wf(),
        ensures
            match r {
                Ok(o) => index_in_bounds(self.dims(), index@) && o == flat_offset(
                    self.dims(),
                    index@,
                ),
                Err(e) => !index_in_bounds(self.dims(), index@) && e == TensorError::IndexOutOfBounds,
            },
            r is Ok ==> r->Ok_0 < self.elems().len(),
    {
        let n = self.shape.len();
        if n == 0 || index.len() != n {
            return Err(TensorError::IndexOutOfBounds);
        }
        let total = self.data.len();
        let mut off: usize = 0;
        let mut k: usize = 0;
        while k < n
            invariant
                total == self.data.len(),
                n == self.shape.len(),
                index.len() == n,
                0 < n,
                self.wf(),
                k <= n,
                forall|i: int| 0 <= i < k ==> index[i] < self.shape[i],
                off == flat_offset(self.shape@.take(k as int), index@.take(k as int)),
                off < dims_product(self.shape@.take(k as int)),
            decreases n - k,
        {
            if index[k] >= self.shape[k] {
                return Err(TensorError::IndexOutOfBounds);
            }
            proof {
                lemma_offset_prefix(self.shape@, index@, k as int);
                lemma_product_prefix(self.shape@, k as int);
                lemma_product_prefix_le(self.shape@, k as int + 1);
                let p = dims_product(self.shape@.take(k as int)) as int;
                let d = self.shape[k as int] as int;
                let x = index[k as int] as int;
                assert(0 <= off * d + x < p * d) by (nonlinear_arith)
                    requires
                        0 <= off < p,
                        0 <= x < d,
                ;
                assert(off * d + x < total);
            }
            off = off * self.shape[k] + index[k];
            k += 1;
        }
        assert(self.shape@.take(n as int) =~= self.shape@);
        assert(index@.take(n as int) =~= index@);
        Ok(off)
    }

    /// The element at coordinates `index`. Fails with IndexOutOfBounds when
    /// the tensor has no dimensions, `index` does not have one coordinate per
    /// dimension, or a coordinate is not below its dimension's size.
    pub fn get(&self, index: Vec<usize>) -> (r: Result<T, TensorError>)
        where
            T: Copy,
        requires
            self.wf(),
        ensures
            match r {
                Ok(v) => index_in_bounds(self.dims(), index@) && v == self.at(index@),
                Err(e) => !index_in_bounds(self.dims(), index@) && e == TensorError::IndexOutOfBounds,
            },
    {
        let o = self.offset_of(&index)?;
        Ok(self.data[o])
    }

    /// Replaces the element at coordinates `index`; fails as `get` does and
    /// then leaves the tensor unchanged.
    pub fn set(&mut self, index: Vec<usize>, value: T) -> (r: Result<(), TensorError>)
        requires
            old(self).wf(),
        ensures
            final(self).wf(),
            final(self).dims() == old(self).dims(),
            match r {
                Ok(_) => index_in_bounds(old(self).dims(), index@) && final(self).elems()
                    == old(self).elems().update(flat_offset(old(self).dims(), index@), value),
                Err(e) => !index_in_bounds(old(self).dims(), index@) && e
                    == TensorError::IndexOutOfBounds && final(self).elems() == old(self).elems(),
            },
    {
        let o = self.offset_of(&index)?;
        self.data.set(o, value);
        Ok(())
    }

    /// Appends `amt` dimensions of size one; the elements stay as they are.
    pub fn increase_dim(&mut self, amt: usize)
        requires
            old(self).wf(),
            old(self).dims().len() > 0,
        ensures
            final(self).wf(),
            final(self).dims() == old(self).dims() + Seq::new(amt as nat, |i: int| 1usize),
            final(self).elems() == old(self).elems(),
    {
        let ghost s0 = self.shape@;
        let mut k: usize = 0;
        while k < amt
            invariant
                k <= amt,
                self.shape@ == s0 + Seq::new(k as nat, |i: int| 1usize),
                dims_positive(self.shape@),
                self.data@.len() == old(self).data@.len(),
                self.data@ == old(self).data@,
                dims_positive(s0),
                s0 == old(self).shape@,
                self.data@.len() == shape_size(s0),
                s0.len() > 0 ==> dims_product(self.shape@) == dims_product(s0),
            decreases amt - k,
        {
            let ghost before = self.shape@;
            self.shape.push(1);
            k += 1;
            assert(self.shape@.drop_last() =~= before);
            assert(dims_product(self.shape@) == dims_product(before) * 1);
            assert(self.shape@ =~= s0 + Seq::new(k as nat, |i: int| 1usize));
        }
    }
}

/// `other` may be added to or subtracted from a tensor of shape `s`: the
/// shapes are equal, or `s` has two dimensions and `other` is a vector with
/// one element per row of `s`.
pub open spec fn broadcast_fits(s: Seq<usize>, other: Seq<usize>) -> bool {
    s == other || (s.len() == 2 && other.len() == 1 && other[0] == s[0])
}

/// Position in the other operand that meets position `k` of a tensor of shape
/// `s`: the same position for equal shapes, else the row of `k`.
pub open spec fn broadcast_partner(s: Seq<usize>, other: Seq<usize>, k: int) -> int {
    if s == other {
        k
    } else {
        k / (s[1] as int)
    }
}

/// Row-major elements of the transpose of a `rows` x `cols` matrix.
pub open spec fn transposed<T>(d: Seq<T>, rows: int, cols: int) -> Seq<T> {
    Seq::new((rows * cols) as nat, |q: int| d[(q % rows) * cols + q / rows])
}

impl<T: Scalar> Tensor<T> {
    /// A tensor of the given shape with every element zero.
    pub fn new(shape: Vec<usize>) -> (r: Tensor<T>)
        requires
            dims_positive(shape@),
            shape_size(shape@) <= usize::MAX,
        ensures
            r.wf(),
            r.dims() == shape@,
            arith_exact::<T>() ==> forall|k: int|
                0 <= k < r.elems().len() ==> #[trigger] r.elems()[k] == count_of::<T>(0),
    {
        let n = match checked_size(&shape) {
            Some(n) => n,
            None => 0,
        };
        let z = T::from(0u32);
        let mut data: Vec<T> = Vec::new();
        let mut k: usize = 0;
        while k < n
            invariant
                k <= n,
                data@.len() == k,
                forall|i: int| 0 <= i < k ==> data@[i] == z,
                arith_exact::<T>() ==> z == count_of::<T>(0),
            decreases n - k,
        {
            data.push(z);
            k += 1;
        }
        Tensor { shape, data }
    }

    /// A tensor of this shape holding `data` in row-major order.
    pub fn with_data(&self, data: Vec<T>) -> (r: Tensor<T>)
        requires
            self.wf(),
            data@.len() == self.elems().len(),
        ensures
            r.wf(),
            r.dims() == self.dims(),
            r.elems() == data@,
    {
        let t = self.duplicate();
        Tensor { shape: t.shape, data }
    }

    /// A copy of the dimension sizes.
    pub fn duplicate_shape(&self) -> (r: Vec<usize>)
        ensures
            r@ == self.dims(),
    {
        self.duplicate().shape
    }

    /// Number of elements.
    pub fn size(&self) -> (r: usize)
        ensures
            r == self.elems().len(),
    {
        self.data.len()
    }

    /// An element-for-element copy.
    pub fn duplicate(&self) -> (r: Tensor<T>)
        ensures
            r.dims() == self.dims(),
            r.elems() == self.elems(),
    {
        let mut shape: Vec<usize> = Vec::new();
        let mut k: usize = 0;
        while k < self.shape.len()
            invariant
                k <= self.shape.len(),
                shape@ == self.shape@.take(k as int),
            decreases self.shape.len() - k,
        {
            shape.push(self.shape[k]);
            k += 1;
            assert(shape@ =~= self.shape@.take(k as int));
        }
        assert(self.shape@.take(k as int) =~= self.shape@);
        Tensor { shape, data: self.return_vector() }
    }

    /// A new tensor of the same shape with `f` applied to every element.
    pub fn map<F: Fn(T) -> T>(&self, f: F) -> (r: Tensor<T>)
        requires
            self.wf(),
            forall|x: T| f.requires((x,)),
        ensures
            r.wf(),
            r.dims() == self.dims(),
            r.elems().len() == self.elems().len(),
            forall|k: int| 0 <= k < r.elems().len() ==> f.ensures((self.elems()[k],), #[trigger] r.elems()[k]),
    {
        let mut data: Vec<T> = Vec::new();
        let mut k: usize = 0;
        while k < self.data.len()
            invariant
                k <= self.data.len(),
                data@.len() == k,
                forall|x: T| f.requires((x,)),
                forall|i: int| 0 <= i < k ==> f.ensures((self.data@[i],), #[trigger] data@[i]),
            decreases self.data.len() - k,
        {
            let v = f(self.data[k]);
            data.push(v);
            k += 1;
        }
        let t = self.duplicate();
        Tensor { shape: t.shape, data }
    }

    /// A new tensor with every element multiplied by `scalar`.
    pub fn multiply_scalar(&self, scalar: T) -> (r: Tensor<T>)
        requires
            self.wf(),
            mul_total::<T>(),
        ensures
            r.wf(),
            r.dims() == self.dims(),
            r.elems().len() == self.elems().len(),
            arith_exact::<T>() ==> forall|k: int|
                0 <= k < r.elems().len() ==> #[trigger] r.elems()[k] == self.elems()[k].mul_spec(
                    scalar,
                ),
    {
        let mut data: Vec<T> = Vec::new();
        let mut k: usize = 0;
        while k < self.data.len()
            invariant
                k <= self.data.len(),
                data@.len() == k,
                mul_total::<T>(),
                arith_exact::<T>() ==> forall|i: int|
                    0 <= i < k ==> #[trigger] data@[i] == self.data@[i].mul_spec(scalar),
            decreases self.data.len() - k,
        {
            let v = self.data[k] * scalar;
            data.push(v);
            k += 1;
        }
        let t = self.duplicate();
        Tensor { shape: t.shape, data }
    }

    /// Element-wise product of two tensors of equal shape; fails with a shape
    /// mismatch otherwise.
    pub fn dot(&self, other: &Tensor<T>) -> (r: Result<Tensor<T>, TensorError>)
        requires
            self.wf(),
            other.wf(),
            mul_total::<T>(),
        ensures
            match r {
                Ok(t) => self.dims() == other.dims() && t.wf() && t.dims() == self.dims() && (
                arith_exact::<T>() ==> forall|k: int|
                    0 <= k < t.elems().len() ==> #[trigger] t.elems()[k] == self.elems()[k].mul_spec(
                        other.elems()[k],
                    )),
                Err(e) => self.dims() != other.dims() && is_shape_mismatch(
                    e,
                    self.dims(),
                    other.dims(),
                ),
            },
    {
        if !same_shape(&self.shape, &other.shape) {
            return Err(
                TensorError::ShapeMismatch {
                    left: self.duplicate().shape,
                    right: other.duplicate().shape,
                },
            );
        }
        let mut data: Vec<T> = Vec::new();
        let mut k: usize = 0;
        while k < self.data.len()
            invariant
                k <= self.data.len(),
                self.data.len() == other.data.len(),
                data@.len() == k,
                mul_total::<T>(),
                arith_exact::<T>() ==> forall|i: int|
                    0 <= i < k ==> #[trigger] data@[i] == self.data@[i].mul_spec(other.data@[i]),
            decreases self.data.len() - k,
        {
            let v = self.data[k] * other.data[k];
            data.push(v);
            k += 1;
        }
        let t = self.duplicate();
        Ok(Tensor { shape: t.shape, data })
    }

    /// Adds `other` in place: element by element for equal shapes, or a vector
    /// added to every column of a matrix with one vector element per row.
    /// Fails with a shape mismatch, leaving the tensor unchanged, for any
    /// other pair of shapes.
    pub fn add(&mut self, other: &Tensor<T>) -> (r: Result<(), TensorError>)
        requires
            old(self).wf(),
            other.wf(),
            add_total::<T>(),
        ensures
            final(self).wf(),
            final(self).dims() == old(self).dims(),
            final(self).elems().len() == old(self).elems().len(),
            match r {
                Ok(_) => broadcast_fits(old(self).dims(), other.dims()) && (arith_exact::<T>()
                    ==> forall|k: int|
                    0 <= k < final(self).elems().len() ==> #[trigger] final(self).elems()[k]
                        == old(self).elems()[k].add_spec(
                        other.elems()[broadcast_partner(old(self).dims(), other.dims(), k)],
                    )),
                Err(e) => !broadcast_fits(old(self).dims(), other.dims()) && is_shape_mismatch(
                    e,
                    old(self).dims(),
                    other.dims(),
                ) && final(self).elems() == old(self).elems(),
            },
    {
        self.combine(other, false)
    }

    /// Subtracts `other` in place, with the same shapes and failures as `add`.
    pub fn substract(&mut self, other: &Tensor<T>) -> (r: Result<(), TensorError>)
        requires
            old(self).wf(),
            other.wf(),
            sub_total::<T>(),
        ensures
            final(self).wf(),
            final(self).dims() == old(self).dims(),
            final(self).elems().len() == old(self).elems().len(),
            match r {
                Ok(_) => broadcast_fits(old(self).dims(), other.dims()) && (arith_exact::<T>()
                    ==> forall|k: int|
                    0 <= k < final(self).elems().len() ==> #[trigger] final(self).elems()[k]
                        == old(self).elems()[k].sub_spec(
                        other.elems()[broadcast_partner(old(self).dims(), other.dims(), k)],
                    )),
                Err(e) => !broadcast_fits(old(self).dims(), other.dims()) && is_shape_mismatch(
                    e,
                    old(self).dims(),
                    other.dims(),
                ) && final(self).elems() == old(self).elems(),
            },
    {
        self.combine(other, true)
    }

    fn combine(&mut self, other: &Tensor<T>, subtract: bool) -> (r: Result<(), TensorError>)
        requires
            old(self).wf(),
            other.wf(),
            (subtract ==> sub_total::<T>()) && (!subtract ==> add_total::<T>()),
        ensures
            final(self).wf(),
            final(self).dims() == old(self).dims(),
            final(self).elems().len() == old(self).elems().len(),
            match r {
                Ok(_) => broadcast_fits(old(self).dims(), other.dims()) && (arith_exact::<T>()
                    ==> forall|k: int|
                    0 <= k < final(self).elems().len() ==> #[trigger] final(self).elems()[k] == (
                    if subtract {
                        old(self).elems()[k].sub_spec(
                            other.elems()[broadcast_partner(old(self).dims(), other.dims(), k)],
                        )
                    } else {
                        old(self).elems()[k].add_spec(
                            other.elems()[broadcast_partner(old(self).dims(), other.dims(), k)],
                        )
                    })),
                Err(e) => !broadcast_fits(old(self).dims(), other.dims()) && is_shape_mismatch(
                    e,
                    old(self).dims(),
                    other.dims(),
                ) && final(self).elems() == old(self).elems(),
            },
    {
        let equal = same_shape(&self.shape, &other.shape);
        let by_rows = !equal && self.shape.len() == 2 && other.shape.len() == 1 && other.shape[0]
            == self.shape[0];
        if !equal && !by_rows {
            return Err(
                TensorError::ShapeMismatch {
                    left: self.duplicate().shape,
                    right: other.duplicate().shape,
                },
            );
        }
        let cols: usize = if by_rows {
            self.shape[1]
        } else {
            1
        };
        proof {
            if by_rows {
                assert(self.shape@ =~= seq![self.shape@[0], self.shape@[1]]);
                lemma_product_two(self.shape@[0], self.shape@[1]);
                assert(other.shape@ =~= seq![other.shape@[0]]);
                lemma_product_one(other.shape@[0]);
            }
        }
        let ghost s0 = self.data@;
        let n = self.data.len();
        let mut k: usize = 0;
        while k < n
            invariant
                n == self.data.len(),
                n == s0.len(),
                k <= n,
                (subtract ==> sub_total::<T>()) && (!subtract ==> add_total::<T>()),
                self.shape == old(self).shape,
                s0 == old(self).data@,
                cols > 0,
                equal ==> self.shape@ == other.shape@ && other.data@.len() == n,
                by_rows ==> self.shape@.len() == 2 && cols == self.shape@[1] && n == (
                self.shape@[0] as int) * (cols as int) && other.data@.len() == self.shape@[0],
                equal || by_rows,
                !(equal && by_rows),
                forall|i: int| k <= i < n ==> self.data@[i] == s0[i],
                arith_exact::<T>() ==> forall|i: int|
                    0 <= i < k ==> #[trigger] self.data@[i] == (if subtract {
                        s0[i].sub_spec(other.data@[if equal { i } else { i / (cols as int) }])
                    } else {
                        s0[i].add_spec(other.data@[if equal { i } else { i / (cols as int) }])
                    }),
            decreases n - k,
        {
            let p: usize = if equal {
                k
            } else {
                proof {
                    vstd::arithmetic::div_mod::lemma_div_is_ordered(k as int, n as int, cols as int);
                    lemma_div_mod_pair(self.shape@[0] as int, cols as int, 0);
                    if k as int / (cols as int) >= self.shape@[0] {
                        vstd::arithmetic::div_mod::lemma_fundamental_div_mod(k as int, cols as int);
                        assert(k as int >= (self.shape@[0] as int) * (cols as int)) by (nonlinear_arith)
                            requires
                                k as int == (cols as int) * (k as int / (cols as int)) + (k as int % (cols as int)),
                                k as int % (cols as int) >= 0,
                                k as int / (cols as int) >= self.shape@[0],
                                cols > 0,
                        ;
                    }
                }
                k / cols
            };
            let v = if subtract {
                self.data[k] - other.data[p]
            } else {
                self.data[k] + other.data[p]
            };
            self.data.set(k, v);
            k += 1;
        }
        Ok(())
    }

    /// The transpose of a two-dimensional tensor: shape `[cols, rows]` with
    /// element `[j, i]` taken from `[i, j]`. Fails with a shape mismatch
    /// (naming the tensor's shape and an empty one) for any other rank.
    pub fn transpose(&self) -> (r: Result<Tensor<T>, TensorError>)
        requires
            self.wf(),
        ensures
            match r {
                Ok(t) => self.dims().len() == 2 && t.wf() && t.dims() == seq![
                    self.dims()[1],
                    self.dims()[0],
                ] && t.elems() == transposed(
                    self.elems(),
                    self.dims()[0] as int,
                    self.dims()[1] as int,
                ),
                Err(e) => self.dims().len() != 2 && is_shape_mismatch(e, self.dims(), Seq::empty()),
            },
    {
        if self.shape.len() != 2 {
            let none: Vec<usize> = Vec::new();
            assert(none@ =~= Seq::<usize>::empty());
            return Err(TensorError::ShapeMismatch { left: self.duplicate().shape, right: none });
        }
        let rows = self.shape[0];
        let cols = self.shape[1];
        proof {
            assert(self.shape@ =~= seq![rows, cols]);
            lemma_product_two(rows, cols);
        }
        let total = self.data.len();
        let ghost d = self.data@;
        let mut data: Vec<T> = Vec::new();
        let mut j: usize = 0;
        while j < cols
            invariant
                d == self.data@,
                d.len() == rows * cols,
                total == d.len(),
                total == self.data.len(),
                rows > 0,
                cols > 0,
                j <= cols,
                data@.len() == j * rows,
                forall|q: int|
                    0 <= q < data@.len() ==> #[trigger] data@[q] == d[(q % (rows as int)) * (
                    cols as int) + q / (rows as int)],
            decreases cols - j,
        {
            let mut i: usize = 0;
            while i < rows
                invariant
                    d == self.data@,
                    d.len() == rows * cols,
                    total == d.len(),
                    total == self.data.len(),
                    rows > 0,
                    cols > 0,
                    j < cols,
                    i <= rows,
                    data@.len() == j * rows + i,
                    forall|q: int|
                        0 <= q < data@.len() ==> #[trigger] data@[q] == d[(q % (rows as int)) * (
                        cols as int) + q / (rows as int)],
                decreases rows - i,
            {
                proof {
                    lemma_row_major_bound(i as int, rows as int, j as int, cols as int);
                    lemma_div_mod_pair(j as int, rows as int, i as int);
                    assert((j as int) * (rows as int) + (i as int) == data@.len());
                }
                data.push(self.data[i * cols + j]);
                i += 1;
            }
            proof {
                assert((j + 1) * rows == j * rows + rows) by (nonlinear_arith);
            }
            j += 1;
        }
        let mut shape: Vec<usize> = Vec::new();
        shape.push(cols);
        shape.push(rows);
        proof {
            lemma_product_two(cols, rows);
            assert(cols * rows == rows * cols) by (nonlinear_arith);
            assert(data@ =~= transposed(d, rows as int, cols as int));
            assert(shape@ =~= seq![cols, rows]);
        }
        Ok(Tensor { shape, data })
    }
}

/// The sum, in order, of the first `k` products of row `i` of `a` (with `n`
/// columns) and column `j` of `b` (with `p` columns); the sum of one product
/// is that product.
pub open spec fn row_col_sum<T: Scalar>(
    a: Seq<T>,
    b: Seq<T>,
    n: int,
    p: int,
    i: int,
    j: int,
    k: int,
) -> T
    decreases k,
{
    if k <= 1 {
        a[i * n].mul_spec(b[j])
    } else {
        row_col_sum(a, b, n, p, i, j, k - 1).add_spec(a[i * n + k - 1].mul_spec(b[(k - 1) * p + j]))
    }
}

/// Row-major elements of the textbook product of an `m` x `n` matrix `a` and
/// an `n` x `p` matrix `b`.
pub open spec fn matrix_product<T: Scalar>(a: Seq<T>, b: Seq<T>, m: int, n: int, p: int) -> Seq<T> {
    Seq::new((m * p) as nat, |q: int| row_col_sum(a, b, n, p, q / p, q % p, n))
}

/// The 2 x 2 product written out in full, as the fast path computes it.
pub open spec fn product_2x2<T: Scalar>(a: Seq<T>, b: Seq<T>) -> Seq<T> {
    seq![
        a[0].mul_spec(b[0]).add_spec(a[1].mul_spec(b[2])),
        a[0].mul_spec(b[1]).add_spec(a[1].mul_spec(b[3])),
        a[2].mul_spec(b[0]).add_spec(a[3].mul_spec(b[2])),
        a[2].mul_spec(b[1]).add_spec(a[3].mul_spec(b[3])),
    ]
}

/// Row-major elements of the outer product: each element of `a` times each
/// element of `b`, the coordinates of `a` first.
pub open spec fn outer_product<T: Scalar>(a: Seq<T>, b: Seq<T>) -> Seq<T> {
    Seq::new(a.len() * b.len(), |q: int| a[q / (b.len() as int)].mul_spec(b[q % (b.len() as int)]))
}

/// Both shapes are matrices and the columns of the first match the rows of
/// the second.
pub open spec fn is_matrix_pair(a: Seq<usize>, b: Seq<usize>) -> bool {
    a.len() == 2 && b.len() == 2 && a[1] == b[0]
}

/// Both shapes are the same 2 x 2 square: the fast path applies.
pub open spec fn is_fast_pair(a: Seq<usize>, b: Seq<usize>) -> bool {
    a.len() == 2 && b.len() == 2 && a == b && a[0] == 2 && a[1] == 2
}

/// Neither shape is a vector or empty, and they are not conformable
/// matrices: the outer product applies.
pub open spec fn is_outer_pair(a: Seq<usize>, b: Seq<usize>) -> bool {
    a.len() >= 2 && b.len() >= 2 && !is_matrix_pair(a, b)
}

/// The product of tensors of shapes `a` and `b` has a size that fits in
/// memory.
pub open spec fn product_fits(a: Seq<usize>, b: Seq<usize>) -> bool {
    &&& is_matrix_pair(a, b) ==> (a[0] as int) * (b[1] as int) <= usize::MAX
    &&& is_outer_pair(a, b) ==> shape_size(a) * shape_size(b) <= usize::MAX
}

impl<T: Scalar> Tensor<T> {
    /// The product of two tensors. Matrices whose inner dimensions agree give
    /// their matrix product (the same 2 x 2 square shape takes a written-out
    /// fast path with the same result). Any other two tensors of rank two or
    /// more, matrices whose inner dimensions differ included, give their outer
    /// product, whose shape is the two shapes joined. A vector or empty
    /// operand fails with a shape mismatch.
    pub fn multiply(&self, other: &Tensor<T>) -> (r: Result<Tensor<T>, TensorError>)
        requires
            self.wf(),
            other.wf(),
            add_total::<T>() && mul_total::<T>(),
            product_fits(self.dims(), other.dims()),
        ensures
            match r {
                Ok(t) => t.wf() && if is_matrix_pair(self.dims(), other.dims()) {
                    t.dims() == seq![self.dims()[0], other.dims()[1]] && (arith_exact::<T>()
                        ==> t.elems() == matrix_product(
                        self.elems(),
                        other.elems(),
                        self.dims()[0] as int,
                        self.dims()[1] as int,
                        other.dims()[1] as int,
                    ))
                } else {
                    is_outer_pair(self.dims(), other.dims()) && t.dims() == self.dims()
                        + other.dims() && (arith_exact::<T>() ==> t.elems() == outer_product(
                        self.elems(),
                        other.elems(),
                    ))
                },
                Err(e) => (self.dims().len() < 2 || other.dims().len() < 2) && is_shape_mismatch(
                    e,
                    self.dims(),
                    other.dims(),
                ),
            },
    {
        let ra = self.shape.len();
        let rb = other.shape.len();
        if ra < 2 || rb < 2 {
            return Err(
                TensorError::ShapeMismatch {
                    left: self.duplicate().shape,
                    right: other.duplicate().shape,
                },
            );
        }
        if ra == 2 && rb == 2 && self.shape[1] == other.shape[0] {
            if self.shape[0] == 2 && self.shape[1] == 2 && other.shape[1] == 2 {
                proof {
                    assert(self.shape@ =~= other.shape@);
                }
                let t = self.multiply_2x2(other);
                proof {
                    lemma_fast_path_agrees(self.elems(), other.elems());
                }
                return Ok(t);
            }
            return Ok(self.matrix_multiply(other));
        }
        Ok(self.outer_multiply(other))
    }

    /// General matrix product by three nested loops.
    fn matrix_multiply(&self, other: &Tensor<T>) -> (r: Tensor<T>)
        requires
            self.wf(),
            other.wf(),
            add_total::<T>() && mul_total::<T>(),
            is_matrix_pair(self.dims(), other.dims()),
            (self.dims()[0] as int) * (other.dims()[1] as int) <= usize::MAX,
        ensures
            r.wf(),
            r.dims() == seq![self.dims()[0], other.dims()[1]],
            arith_exact::<T>() ==> r.elems() == matrix_product(
                self.elems(),
                other.elems(),
                self.dims()[0] as int,
                self.dims()[1] as int,
                other.dims()[1] as int,
            ),
    {
        let m = self.shape[0];
        let n = self.shape[1];
        let p = other.shape[1];
        proof {
            assert(self.shape@ =~= seq![m, n]);
            assert(other.shape@ =~= seq![n, p]);
            lemma_product_two(m, n);
            lemma_product_two(n, p);
        }
        let ghost a = self.data@;
        let ghost b = other.data@;
        let alen = self.data.len();
        let blen = other.data.len();
        let mut data: Vec<T> = Vec::new();
        let mut i: usize = 0;
        while i < m
            invariant
                a == self.data@,
                b == other.data@,
                alen == a.len(),
                blen == b.len(),
                alen == m * n,
                blen == n * p,
                m > 0,
                n > 0,
                p > 0,
                m * p <= usize::MAX,
                add_total::<T>() && mul_total::<T>(),
                i <= m,
                data@.len() == i * p,
                arith_exact::<T>() ==> forall|q: int|
                    0 <= q < data@.len() ==> #[trigger] data@[q] == row_col_sum(
                        a,
                        b,
                        n as int,
                        p as int,
                        q / (p as int),
                        q % (p as int),
                        n as int,
                    ),
            decreases m - i,
        {
            let mut j: usize = 0;
            while j < p
                invariant
                    a == self.data@,
                    b == other.data@,
                    alen == a.len(),
                    blen == b.len(),
                    alen == m * n,
                    blen == n * p,
                    m > 0,
                    n > 0,
                    p > 0,
                    m * p <= usize::MAX,
                    add_total::<T>() && mul_total::<T>(),
                    i < m,
                    j <= p,
                    data@.len() == i * p + j,
                    arith_exact::<T>() ==> forall|q: int|
                        0 <= q < data@.len() ==> #[trigger] data@[q] == row_col_sum(
                            a,
                            b,
                            n as int,
                            p as int,
                            q / (p as int),
                            q % (p as int),
                            n as int,
                        ),
                decreases p - j,
            {
                proof {
                    lemma_row_major_bound(i as int, m as int, 0, n as int);
                    lemma_row_major_bound(0, n as int, j as int, p as int);
                }
                let mut sum = self.data[i * n] * other.data[j];
                let mut k: usize = 1;
                while k < n
                    invariant
                        a == self.data@,
                        b == other.data@,
                        alen == a.len(),
                        blen == b.len(),
                        alen == m * n,
                        blen == n * p,
                        i < m,
                        j < p,
                        1 <= k <= n,
                        add_total::<T>() && mul_total::<T>(),
                        arith_exact::<T>() ==> sum == row_col_sum(
                            a,
                            b,
                            n as int,
                            p as int,
                            i as int,
                            j as int,
                            k as int,
                        ),
                    decreases n - k,
                {
                    proof {
                        lemma_row_major_bound(i as int, m as int, k as int, n as int);
                        lemma_row_major_bound(k as int, n as int, j as int, p as int);
                    }
                    let prod = self.data[i * n + k] * other.data[k * p + j];
                    sum = sum + prod;
                    k += 1;
                }
                proof {
                    lemma_row_major_bound(i as int, m as int, j as int, p as int);
                    lemma_div_mod_pair(i as int, p as int, j as int);
                }
                data.push(sum);
                j += 1;
            }
            proof {
                assert((i + 1) * p == i * p + p) by (nonlinear_arith);
            }
            i += 1;
        }
        let mut shape: Vec<usize> = Vec::new();
        shape.push(m);
        shape.push(p);
        proof {
            lemma_product_two(m, p);
            assert(shape@ =~= seq![m, p]);
            if arith_exact::<T>() {
                assert(data@ =~= matrix_product(a, b, m as int, n as int, p as int));
            }
        }
        Tensor { shape, data }
    }

    /// The fast path for two 2 x 2 matrices, each entry written out.
    fn multiply_2x2(&self, other: &Tensor<T>) -> (r: Tensor<T>)
        requires
            self.wf(),
            other.wf(),
            add_total::<T>() && mul_total::<T>(),
            is_fast_pair(self.dims(), other.dims()),
        ensures
            r.wf(),
            r.dims() == seq![2usize, 2usize],
            arith_exact::<T>() ==> r.elems() == product_2x2(self.elems(), other.elems()),
    {
        proof {
            assert(self.shape@ =~= seq![2usize, 2usize]);
            lemma_product_two(2, 2);
        }
        let a = &self.data;
        let b = &other.data;
        let mut data: Vec<T> = Vec::new();
        data.push(a[0] * b[0] + a[1] * b[2]);
        data.push(a[0] * b[1] + a[1] * b[3]);
        data.push(a[2] * b[0] + a[3] * b[2]);
        data.push(a[2] * b[1] + a[3] * b[3]);
        let mut shape: Vec<usize> = Vec::new();
        shape.push(2);
        shape.push(2);
        proof {
            assert(shape@ =~= seq![2usize, 2usize]);
            if arith_exact::<T>() {
                assert(data@ =~= product_2x2(self.data@, other.data@));
            }
        }
        Tensor { shape, data }
    }

    /// Outer product: shape `self.shape ++ other.shape`, element `(x, y)` the
    /// product of `self[x]` and `other[y]`.
    fn outer_multiply(&self, other: &Tensor<T>) -> (r: Tensor<T>)
        requires
            self.wf(),
            other.wf(),
            mul_total::<T>(),
            self.dims().len() > 0,
            other.dims().len() > 0,
            shape_size(self.dims()) * shape_size(other.dims()) <= usize::MAX,
        ensures
            r.wf(),
            r.dims() == self.dims() + other.dims(),
            arith_exact::<T>() ==> r.elems() == outer_product(self.elems(), other.elems()),
    {
        let ghost a = self.data@;
        let ghost b = other.data@;
        let na = self.data.len();
        let nb = other.data.len();
        proof {
            lemma_product_positive(self.shape@);
            lemma_product_positive(other.shape@);
        }
        let mut data: Vec<T> = Vec::new();
        let mut i: usize = 0;
        while i < na
            invariant
                a == self.data@,
                b == other.data@,
                na == a.len(),
                nb == b.len(),
                nb > 0,
                na * nb <= usize::MAX,
                mul_total::<T>(),
                i <= na,
                data@.len() == i * nb,
                arith_exact::<T>() ==> forall|q: int|
                    0 <= q < data@.len() ==> #[trigger] data@[q] == a[q / (nb as int)].mul_spec(
                        b[q % (nb as int)],
                    ),
            decreases na - i,
        {
            let mut j: usize = 0;
            while j < nb
                invariant
                    a == self.data@,
                    b == other.data@,
                    na == a.len(),
                    nb == b.len(),
                    nb > 0,
                    na * nb <= usize::MAX,
                    mul_total::<T>(),
                    i < na,
                    j <= nb,
                    data@.len() == i * nb + j,
                    arith_exact::<T>() ==> forall|q: int|
                        0 <= q < data@.len() ==> #[trigger] data@[q] == a[q / (nb as int)].mul_spec(
                            b[q % (nb as int)],
                        ),
                decreases nb - j,
            {
                proof {
                    lemma_row_major_bound(i as int, na as int, j as int, nb as int);
                    lemma_div_mod_pair(i as int, nb as int, j as int);
                }
                data.push(self.data[i] * other.data[j]);
                j += 1;
            }
            proof {
                assert((i + 1) * nb == i * nb + nb) by (nonlinear_arith);
            }
            i += 1;
        }
        let mut shape = self.duplicate().shape;
        let mut rest = other.duplicate().shape;
        shape.append(&mut rest);
        proof {
            lemma_product_concat(self.dims(), other.dims());
            lemma_product_positive(shape@);
            if arith_exact::<T>() {
                assert(data@ =~= outer_product(a, b));
            }
        }
        Tensor { shape, data }
    }
}

/// The written-out 2 x 2 product equals the textbook product: the fast path
/// and the general branch of multiplication agree on every 2 x 2 input.
pub proof fn lemma_fast_path_agrees<T: Scalar>(a: Seq<T>, b: Seq<T>)
    ensures
        product_2x2(a, b) == matrix_product(a, b, 2, 2, 2),
{
    let m = matrix_product(a, b, 2, 2, 2);
    assert forall|q: int| 0 <= q < 4 implies #[trigger] m[q] == product_2x2(a, b)[q] by {
        assert(row_col_sum(a, b, 2, 2, q / 2, q % 2, 1) == a[(q / 2) * 2].mul_spec(b[q % 2]));
    }
    assert(product_2x2(a, b) =~= m);
}

/// Transposing a `rows` x `cols` matrix twice gives it back.
pub proof fn lemma_transpose_involution<T>(d: Seq<T>, rows: int, cols: int)
    requires
        rows > 0,
        cols > 0,
        d.len() == rows * cols,
    ensures
        transposed(transposed(d, rows, cols), cols, rows) == d,
{
    let t = transposed(d, rows, cols);
    let u = transposed(t, cols, rows);
    assert(cols * rows == rows * cols) by (nonlinear_arith);
    assert forall|q: int| 0 <= q < d.len() implies #[trigger] u[q] == d[q] by {
        let x = q / cols;
        let y = q % cols;
        vstd::arithmetic::div_mod::lemma_fundamental_div_mod(q, cols);
        assert(0 <= y < cols);
        assert(0 <= x < rows) by {
            vstd::arithmetic::div_mod::lemma_div_pos_is_pos(q, cols);
            vstd::arithmetic::div_mod::lemma_div_is_ordered(q, rows * cols - 1, cols);
            lemma_div_mod_pair(rows - 1, cols, cols - 1);
            assert(rows * cols - 1 == (rows - 1) * cols + (cols - 1)) by (nonlinear_arith);
        }
        let m = y * rows + x;
        lemma_row_major_bound(y, cols, x, rows);
        lemma_div_mod_pair(y, rows, x);
        assert(u[q] == t[m]);
        assert(t[m] == d[x * cols + y]);
        assert(x * cols + y == q) by (nonlinear_arith)
            requires
                q == cols * x + y,
        ;
    }
    assert(u =~= d);
}

/// Adding a vector of one element per row to a matrix adds element `i` of
/// the vector at every coordinate `[i, j]`.
pub proof fn lemma_broadcast_rows(s: Seq<usize>, other: Seq<usize>, i: int, j: int)
    requires
        s.len() == 2,
        other == seq![s[0]],
        0 <= i < s[0],
        0 <= j < s[1],
    ensures
        broadcast_fits(s, other),
        broadcast_partner(s, other, i * (s[1] as int) + j) == i,
        0 <= i * (s[1] as int) + j < (s[0] as int) * (s[1] as int),
{
    assert(s != other) by {
        assert(s.len() != other.len());
    }
    lemma_div_mod_pair(i, s[1] as int, j);
    lemma_row_major_bound(i, s[0] as int, j, s[1] as int);
}

/// Whether two shapes are equal.
pub fn same_shape(a: &Vec<usize>, b: &Vec<usize>) -> (r: bool)
    ensures
        r == (a@ == b@),
{
    if a.len() != b.len() {
        return false;
    }
    let mut k: usize = 0;
    while k < a.len()
        invariant
            a.len() == b.len(),
            k <= a.len(),
            forall|i: int| 0 <= i < k ==> a@[i] == b@[i],
        decreases a.len() - k,
    {
        if a[k] != b[k] {
            return false;
        }
        k += 1;
    }
    assert(a@ =~= b@);
    true
}

/// A one-element vector.
fn single(n: usize) -> (r: Vec<usize>)
    ensures
        r@ == seq![n],
{
    let mut r: Vec<usize> = Vec::new();
    r.push(n);
    assert(r@ =~= seq![n]);
    r
}

/// Element count of `shape`, or None when a dimension is zero or the count
/// does not fit in `usize`.
pub fn checked_size(shape: &Vec<usize>) -> (r: Option<usize>)
    ensures
        match r {
            Some(n) => dims_positive(shape@) && n == shape_size(shape@),
            None => !dims_positive(shape@) || shape_size(shape@) > usize::MAX,
        },
{
    if shape.len() == 0 {
        return Some(0);
    }
    let mut p: usize = 1;
    let mut k: usize = 0;
    while k < shape.len()
        invariant
            k <= shape.len(),
            forall|i: int| 0 <= i < k ==> shape[i] > 0,
            p == dims_product(shape@.take(k as int)),
        decreases shape.len() - k,
    {
        proof {
            lemma_product_prefix(shape@, k as int);
        }
        if shape[k] == 0 {
            return None;
        }
        match p.checked_mul(shape[k]) {
            Some(q) => {
                p = q;
            },
            None => {
                proof {
                    if dims_positive(shape@) {
                        lemma_product_prefix_le(shape@, k as int + 1);
                    }
                }
                return None;
            },
        }
        k += 1;
    }
    assert(shape@.take(k as int) =~= shape@);
    Some(p)
}

} // verus!
