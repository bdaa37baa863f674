//! Shapes of tensors: element counts and row-major offsets.

use vstd::prelude::*;

verus! {

/// Product of all dimension sizes (1 for no dimensions).
pub open spec fn dims_product(s: Seq<usize>) -> nat
    decreases s.len(),
{
    if s.len() == 0 {
        1
    } else {
        dims_product(s.drop_last()) * (s.last() as nat)
    }
}

/// Number of elements a tensor of this shape holds: an empty shape holds none.
pub open spec fn shape_size(s: Seq<usize>) -> nat {
    if s.len() == 0 {
        0
    } else {
        dims_product(s)
    }
}

/// Every dimension size is positive.
pub open spec fn dims_positive(s: Seq<usize>) -> bool {
    forall|i: int| 0 <= i < s.len() ==> s[i] > 0
}

/// `idx` names an element of a non-empty tensor of shape `s`.
pub open spec fn index_in_bounds(s: Seq<usize>, idx: Seq<usize>) -> bool {
    &&& s.len() > 0
    &&& idx.len() == s.len()
    &&& forall|i: int| 0 <= i < s.len() ==> idx[i] < s[i]
}

/// Row-major offset of coordinates `idx` in shape `s`: the last dimension
/// varies fastest.
pub open spec fn flat_offset(s: Seq<usize>, idx: Seq<usize>) -> int
    decreases s.len(),
{
    if s.len() == 0 || idx.len() == 0 {
        0
    } else {
        flat_offset(s.drop_last(), idx.drop_last()) * (s.last() as int) + (idx.last() as int)
    }
}

pub proof fn lemma_product_prefix(s: Seq<usize>, k: int)
    requires
        0 <= k < s.len(),
    ensures
        dims_product(s.take(k + 1)) == dims_product(s.take(k)) * (s[k] as nat),
{
    assert(s.take(k + 1).drop_last() =~= s.take(k));
}

pub proof fn lemma_offset_prefix(s: Seq<usize>, idx: Seq<usize>, k: int)
    requires
        0 <= k < s.len(),
        idx.len() == s.len(),
    ensures
        flat_offset(s.take(k + 1), idx.take(k + 1)) == flat_offset(s.take(k), idx.take(k)) * (
        s[k] as int) + (idx[k] as int),
{
    assert(s.take(k + 1).drop_last() =~= s.take(k));
    assert(idx.take(k + 1).drop_last() =~= idx.take(k));
}

/// A prefix of a shape with positive dimensions holds no more elements than
/// the whole shape.
pub proof fn lemma_product_prefix_le(s: Seq<usize>, k: int)
    requires
        0 <= k <= s.len(),
        dims_positive(s),
    ensures
        dims_product(s.take(k)) <= dims_product(s),
        dims_product(s.take(k)) >= 1,
    decreases s.len() - k,
{
    if k == s.len() {
        assert(s.take(k) =~= s);
        lemma_product_positive(s);
    } else {
        lemma_product_prefix_le(s, k + 1);
        lemma_product_prefix(s, k);
        let p = dims_product(s.take(k));
        assert(p * (s[k] as nat) >= p) by (nonlinear_arith)
            requires
                s[k] > 0,
        ;
        assert(p >= 1) by (nonlinear_arith)
            requires
                p * (s[k] as nat) >= 1,
        ;
    }
}

pub proof fn lemma_product_positive(s: Seq<usize>)
    requires
        dims_positive(s),
    ensures
        dims_product(s) >= 1,
    decreases s.len(),
{
    if s.len() > 0 {
        lemma_product_positive(s.drop_last());
        let p = dims_product(s.drop_last());
        assert(p * (s.last() as nat) >= 1) by (nonlinear_arith)
            requires
                p >= 1,
                s.last() > 0,
        ;
    }
}

/// Product of the sizes of two concatenated shapes.
pub proof fn lemma_product_concat(a: Seq<usize>, b: Seq<usize>)
    ensures
        dims_product(a + b) == dims_product(a) * dims_product(b),
    decreases b.len(),
{
    if b.len() == 0 {
        assert(a + b =~= a);
        assert(dims_product(b) == 1);
    } else {
        assert((a + b).drop_last() =~= a + b.drop_last());
        assert((a + b).last() == b.last());
        lemma_product_concat(a, b.drop_last());
        let pa = dims_product(a);
        let pb = dims_product(b.drop_last());
        let d = b.last() as nat;
        assert(dims_product(a + b) == dims_product(a + b.drop_last()) * d);
        assert(dims_product(b) == pb * d);
        assert(pa * pb * d == pa * (pb * d)) by (nonlinear_arith);
    }
}

/// Size of a shape with two dimensions.
pub proof fn lemma_product_two(a: usize, b: usize)
    ensures
        dims_product(seq![a, b]) == (a as nat) * (b as nat),
{
    let s1 = seq![a];
    let s2 = seq![a, b];
    assert(s2.drop_last() =~= s1);
    assert(s1.drop_last() =~= Seq::<usize>::empty());
    assert(dims_product(s1.drop_last()) == 1);
    assert(dims_product(s1) == dims_product(s1.drop_last()) * (s1.last() as nat));
    assert(dims_product(s2) == dims_product(s2.drop_last()) * (s2.last() as nat));
}

/// Size of a shape with one dimension.
pub proof fn lemma_product_one(a: usize)
    ensures
        dims_product(seq![a]) == a as nat,
{
    let s1 = seq![a];
    assert(s1.drop_last() =~= Seq::<usize>::empty());
    assert(dims_product(s1.drop_last()) == 1);
    assert(dims_product(s1) == dims_product(s1.drop_last()) * (s1.last() as nat));
}

/// Quotient and remainder of `q * d + r` by `d`.
pub proof fn lemma_div_mod_pair(q: int, d: int, r: int)
    requires
        0 < d,
        0 <= r < d,
    ensures
        (q * d + r) / d == q,
        (q * d + r) % d == r,
{
    vstd::arithmetic::div_mod::lemma_fundamental_div_mod_converse(q * d + r, d, q, r);
}

/// `i * n + k` stays below `m * n` for `i < m` and `k < n`.
pub proof fn lemma_row_major_bound(i: int, m: int, k: int, n: int)
    requires
        0 <= i < m,
        0 <= k < n,
    ensures
        0 <= i * n + k < m * n,
{
    assert(0 <= i * n + k < m * n) by (nonlinear_arith)
        requires
            0 <= i < m,
            0 <= k < n,
    ;
}

} // verus!
