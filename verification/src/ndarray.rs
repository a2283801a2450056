//! Arrays: a shape paired with a flat, contiguous, row-major buffer that the
//! array owns exclusively.

use vstd::prelude::*;
use vstd::pervasive::VecAdditionalExecFns;
use crate::shape::{Shape, lemma_prod_prefix_le, lemma_prod_take_step, lemma_same_shape_props,
    prod, same_shape};

verus! {

/// The error surface of the library: every failure is returned as a value.
#[derive(Debug)]
pub enum NdArrayError {
    /// Operand inner dimensions, batch counts, or declared-vs-actual buffer
    /// lengths disagree.
    DimensionMismatch { expected: usize, actual: usize },
    /// Matrix multiplication was attempted with a scalar operand.
    BinaryOpNotSupported { shape_a: Shape, shape_b: Shape },
}

/// An N-dimensional array over `i64` elements: one shape, one row-major
/// buffer, and the invariant that the buffer holds exactly `shape.span()`
/// elements.
pub struct NdArray {
    pub shape: Shape,
    pub values: Vec<i64>,
}

/// The dimension list of a shape, as one sequence (empty for a scalar).
pub open spec fn dims_of(s: &Shape) -> Seq<usize> {
    match s {
        Shape::Scalar => Seq::empty(),
        Shape::Vector(n) => seq![*n],
        Shape::Matrix(n, m) => seq![*n, *m],
        Shape::Tensor(d) => d@,
    }
}

/// A multi-index addresses one element: one coordinate per dimension, each
/// within its dimension.
pub open spec fn valid_index(s: &Shape, idx: Seq<usize>) -> bool {
    &&& idx.len() == dims_of(s).len()
    &&& forall|i: int| 0 <= i < idx.len() ==> idx[i] < dims_of(s)[i]
}

/// Row-major flat offset of a multi-index: the last coordinate varies
/// fastest.
pub open spec fn flat_offset(dims: Seq<usize>, idx: Seq<usize>) -> int
    decreases idx.len(),
{
    if idx.len() == 0 {
        0
    } else {
        flat_offset(dims.drop_last(), idx.drop_last()) * (dims.last() as int) + idx.last()
    }
}

/// A valid multi-index lands inside the array: its flat offset is below the
/// span.
pub proof fn lemma_flat_offset_bound(dims: Seq<usize>, idx: Seq<usize>)
    requires
        idx.len() == dims.len(),
        forall|i: int| 0 <= i < idx.len() ==> idx[i] < dims[i],
    ensures
        0 <= flat_offset(dims, idx) < prod(dims),
    decreases idx.len(),
{
    if idx.len() == 0 {
        assert(prod(dims) == 1);
    } else {
        let df = dims.drop_last();
        let xf = idx.drop_last();
        lemma_flat_offset_bound(df, xf);
        lemma_prod_take_step(dims, dims.len() - 1);
        assert(dims.take(dims.len() as int) =~= dims);
        assert(dims.take(dims.len() - 1) =~= df);
        assert(flat_offset(df, xf) * (dims.last() as int) + (idx.last() as int) < prod(df) * (
        dims.last() as nat)) by (nonlinear_arith)
            requires
                0 <= flat_offset(df, xf),
                flat_offset(df, xf) < prod(df),
                0 <= idx.last(),
                (idx.last() as int) < (dims.last() as int),
        ;
    }
}

/// A vector of `n` zeroes.
pub fn zero_vec(n: usize) -> (r: Vec<i64>)
    ensures
        r@.len() == n,
        forall|i: int| 0 <= i < n ==> r@[i] == 0i64,
{
    let mut v: Vec<i64> = Vec::new();
    while v.len() < n
        invariant
            v@.len() <= n,
            forall|i: int| 0 <= i < v@.len() ==> v@[i] == 0i64,
        decreases n - v@.len(),
    {
        v.push(0);
    }
    v
}

impl NdArray {
    /// The array invariant: a valid shape whose span is exactly the buffer
    /// length.
    pub open spec fn wf(&self) -> bool {
        &&& self.shape.wf()
        &&& self.values@.len() == self.shape.spec_span()
    }

    /// Element count of the array.
    pub fn len(&self) -> (r: usize)
        ensures
            r == self.values@.len(),
    {
        self.values.len()
    }

    /// The shape of the array.
    pub fn shape(&self) -> (r: &Shape)
        ensures
            r == &self.shape,
    {
        &self.shape
    }

    /// The flat row-major buffer of the array.
    pub fn as_slice(&self) -> (r: &[i64])
        ensures
            r@ == self.values@,
    {
        self.values.as_slice()
    }

    /// Default-filled array of the given shape: every element is zero.
    pub fn new(shape: Shape) -> (r: NdArray)
        requires
            shape.wf(),
            shape.spec_span() <= usize::MAX,
        ensures
            r.wf(),
            r.shape == shape,
            r.values@.len() == shape.spec_span(),
            forall|i: int| 0 <= i < r.values@.len() ==> r.values@[i] == 0i64,
    {
        let n = shape.span();
        NdArray { shape, values: zero_vec(n) }
    }

    /// Array with the given contents; fails with `DimensionMismatch` if and
    /// only if the buffer length does not equal the shape's span.
    pub fn new_with_values(shape: Shape, data: Vec<i64>) -> (r: Result<NdArray, NdArrayError>)
        requires
            shape.wf(),
            shape.spec_span() <= usize::MAX,
        ensures
            data@.len() == shape.spec_span() ==> (r matches Ok(a) && a.shape == shape && a.values
                == data && a.wf()),
            data@.len() != shape.spec_span() ==> r == Err::<NdArray, NdArrayError>(
                NdArrayError::DimensionMismatch {
                    expected: shape.spec_span() as usize,
                    actual: data@.len() as usize,
                }),
    {
        let n = shape.span();
        if data.len() != n {
            return Err(NdArrayError::DimensionMismatch { expected: n, actual: data.len() });
        }
        Ok(NdArray { shape, values: data })
    }

    /// Scalar-shaped array holding one value.
    pub fn new_scalar(v: i64) -> (r: NdArray)
        ensures
            r.wf(),
            r.shape is Scalar,
            r.values@ == seq![v],
    {
        let mut values: Vec<i64> = Vec::new();
        values.push(v);
        proof {
            assert(values@ =~= seq![v]);
        }
        NdArray { shape: Shape::Scalar, values }
    }

    /// Replaces the shape in place; the new shape must account for exactly
    /// the elements already in the buffer.
    pub fn reshape(&mut self, new_shape: Shape)
        requires
            new_shape.wf(),
            new_shape.spec_span() == old(self).values@.len(),
        ensures
            final(self).shape == new_shape,
            final(self).values == old(self).values,
            final(self).wf(),
    {
        self.shape = new_shape;
    }

    /// Flat offset of a multi-index, or `None` when the index does not
    /// address an element.
    fn offset_of(&self, indices: &Vec<usize>) -> (r: Option<usize>)
        requires
            self.wf(),
        ensures
            valid_index(&self.shape, indices@) ==> (r matches Some(o) && o as int == flat_offset(
                dims_of(&self.shape),
                indices@,
            ) && o < self.values@.len()),
            !valid_index(&self.shape, indices@) ==> r is None,
    {
        let total = self.values.len();
        proof {
            if valid_index(&self.shape, indices@) {
                lemma_flat_offset_bound(dims_of(&self.shape), indices@);
                assert(prod(Seq::<usize>::empty()) == 1);
                match &self.shape {
                    Shape::Scalar => {},
                    Shape::Vector(n) => {
                        let dd = dims_of(&self.shape);
                        assert(dd =~= seq![*n]);
                        assert(dd.drop_first() =~= Seq::<usize>::empty());
                        assert(prod(dd) == (*n as nat) * prod(dd.drop_first()));
                    },
                    Shape::Matrix(n, m) => {
                        let dd = dims_of(&self.shape);
                        assert(dd =~= seq![*n, *m]);
                        assert(dd.drop_first() =~= seq![*m]);
                        assert(dd.drop_first().drop_first() =~= Seq::<usize>::empty());
                        assert(prod(dd.drop_first()) == (*m as nat) * prod(
                            dd.drop_first().drop_first()));
                        assert(prod(dd) == (*n as nat) * prod(dd.drop_first()));
                    },
                    Shape::Tensor(_) => {},
                }
            }
        }
        match &self.shape {
            Shape::Scalar => {
                if indices.len() == 0 {
                    Some(0)
                } else {
                    None
                }
            },
            Shape::Vector(n) => {
                if indices.len() == 1 && indices[0] < *n {
                    proof {
                        let dd = dims_of(&self.shape);
                        assert(indices@.drop_last() =~= Seq::<usize>::empty());
                        assert(dd.drop_last() =~= Seq::<usize>::empty());
                        assert(flat_offset(Seq::<usize>::empty(), Seq::<usize>::empty()) == 0);
                        assert(flat_offset(dd, indices@) == 0 * (*n as int) + indices@[0]);
                    }
                    Some(indices[0])
                } else {
                    None
                }
            },
            Shape::Matrix(n, m) => {
                if indices.len() == 2 && indices[0] < *n && indices[1] < *m {
                    proof {
                        let dd = dims_of(&self.shape);
                        let ii = indices@;
                        assert(ii.drop_last().drop_last() =~= Seq::<usize>::empty());
                        assert(dd.drop_last().drop_last() =~= Seq::<usize>::empty());
                        assert(dd.drop_last() =~= seq![*n]);
                        assert(ii.drop_last() =~= seq![ii[0]]);
                        assert(flat_offset(Seq::<usize>::empty(), Seq::<usize>::empty()) == 0);
                        assert(flat_offset(dd.drop_last(), ii.drop_last()) == 0 * (*n as int)
                            + ii[0]);
                        assert(flat_offset(dd, ii) == (ii[0] as int) * (*m as int) + ii[1]);
                        assert((indices@[0] as int) * (*m as int) + indices@[1] < (*n as int) * (*m
                        as int)) by (nonlinear_arith)
                            requires
                                0 <= indices@[0] < (*n as int),
                                0 <= indices@[1] < (*m as int),
                        ;
                    }
                    Some(indices[0] * *m + indices[1])
                } else {
                    None
                }
            },
            Shape::Tensor(d) => {
                if indices.len() != d.len() {
                    return None;
                }
                let mut off: usize = 0;
                let mut k: usize = 0;
                proof {
                    assert(d@.take(0) =~= Seq::<usize>::empty());
                    assert(indices@.take(0) =~= Seq::<usize>::empty());
                }
                while k < d.len()
                    invariant
                        0 <= k <= d@.len(),
                        dims_of(&self.shape) == d@,
                        indices@.len() == d@.len(),
                        forall|j: int| 0 <= j < d@.len() ==> d@[j] >= 1,
                        prod(d@) <= usize::MAX,
                        forall|j: int| 0 <= j < k ==> indices@[j] < d@[j],
                        off == flat_offset(d@.take(k as int), indices@.take(k as int)),
                        off < prod(d@.take(k as int)),
                    decreases d@.len() - k,
                {
                    if indices[k] >= d[k] {
                        proof {
                            assert(!valid_index(&self.shape, indices@));
                        }
                        return None;
                    }
                    proof {
                        let ki = k as int;
                        lemma_prod_take_step(d@, ki);
                        lemma_prod_prefix_le(d@, ki + 1);
                        assert(d@.take(ki + 1).drop_last() =~= d@.take(ki));
                        assert(indices@.take(ki + 1).drop_last() =~= indices@.take(ki));
                        assert(off * (d@[ki] as int) + (indices@[ki] as int) < prod(d@.take(ki))
                            * (d@[ki] as nat)) by (nonlinear_arith)
                            requires
                                0 <= off < prod(d@.take(ki)),
                                0 <= indices@[ki],
                                (indices@[ki] as int) < (d@[ki] as int),
                        ;
                    }
                    off = off * d[k] + indices[k];
                    k = k + 1;
                }
                proof {
                    assert(d@.take(d@.len() as int) =~= d@);
                    assert(indices@.take(indices@.len() as int) =~= indices@);
                }
                Some(off)
            },
        }
    }

    /// Row-major element read; `None` when an index is out of range or the
    /// index has the wrong rank.
    pub fn get(&self, indices: &Vec<usize>) -> (r: Option<i64>)
        requires
            self.wf(),
        ensures
            valid_index(&self.shape, indices@) ==> r == Some(
                self.values@[flat_offset(dims_of(&self.shape), indices@)],
            ),
            !valid_index(&self.shape, indices@) ==> r is None,
    {
        match self.offset_of(indices) {
            Some(off) => Some(self.values[off]),
            None => None,
        }
    }

    /// Row-major element write; returns whether the index was in range, and
    /// leaves the array unchanged when it was not.
    pub fn set(&mut self, indices: &Vec<usize>, v: i64) -> (r: bool)
        requires
            old(self).wf(),
        ensures
            final(self).wf(),
            final(self).shape == old(self).shape,
            r == valid_index(&old(self).shape, indices@),
            valid_index(&old(self).shape, indices@) ==> final(self).values@ == old(
                self,
            ).values@.update(flat_offset(dims_of(&old(self).shape), indices@), v),
            !valid_index(&old(self).shape, indices@) ==> final(self).values@ == old(self).values@,
    {
        match self.offset_of(indices) {
            Some(off) => {
                self.values.set(off, v);
                true
            },
            None => false,
        }
    }

    /// The `i`-th trailing-dimension column of the array: a borrowed window
    /// of the buffer, not a copy.
    pub fn get_column(&self, i: usize) -> (r: &[i64])
        requires
            self.wf(),
            (i + 1) * self.shape.spec_last_dim() <= self.values@.len(),
        ensures
            r@ == self.values@.subrange(
                (i as int) * (self.shape.spec_last_dim() as int),
                (i as int) * (self.shape.spec_last_dim() as int) + (
                self.shape.spec_last_dim() as int),
            ),
    {
        let _total = self.values.len();
        proof {
            let li = self.shape.spec_last_dim() as int;
            assert((i as int) * li >= 0 && (i as int) * li + li == ((i as int) + 1) * li)
                by (nonlinear_arith)
                requires
                    i >= 0,
                    li >= 0,
            ;
        }
        let l = self.shape.last_dim();
        vstd::slice::slice_subrange(self.values.as_slice(), i * l, i * l + l)
    }

    /// Elementwise transform: a new array of the same shape whose `i`-th
    /// element is a result the transform may return for the `i`-th input
    /// element.
    pub fn map<F: Fn(i64) -> i64>(&self, f: F) -> (r: NdArray)
        requires
            self.wf(),
            forall|x: i64| #[trigger] call_requires(f, (x,)),
        ensures
            r.wf(),
            same_shape(&r.shape, &self.shape),
            r.values@.len() == self.values@.len(),
            forall|i: int|
                0 <= i < r.values@.len() ==> call_ensures(f, (self.values@[i],), #[trigger] r.values@[i]),
    {
        let out_shape = self.shape.clone();
        proof {
            lemma_same_shape_props(&out_shape, &self.shape);
        }
        let n = self.values.len();
        let mut values: Vec<i64> = Vec::new();
        let mut i: usize = 0;
        while i < n
            invariant
                0 <= i <= n,
                n == self.values@.len(),
                values@.len() == i,
                forall|x: i64| #[trigger] call_requires(f, (x,)),
                forall|j: int|
                    0 <= j < i ==> call_ensures(f, (self.values@[j],), #[trigger] values@[j]),
            decreases n - i,
        {
            let v = f(self.values[i]);
            values.push(v);
            i = i + 1;
        }
        NdArray { shape: out_shape, values }
    }

    /// Elementwise subtraction; a scalar operand broadcasts against any
    /// shape; mismatched non-scalar shapes fail with `DimensionMismatch`.
    pub fn sub(&self, other: &NdArray) -> (r: Result<NdArray, NdArrayError>)
        requires
            self.wf(),
            other.wf(),
            sub_fits(self, other),
        ensures
            same_shape(&self.shape, &other.shape) ==> (r matches Ok(c) && c.wf() && same_shape(
                &c.shape,
                &self.shape,
            ) && c.values@.len() == self.values@.len() && forall|i: int|
                0 <= i < c.values@.len() ==> c.values@[i] == self.values@[i] - other.values@[i]),
            !same_shape(&self.shape, &other.shape) && other.shape is Scalar ==> (r matches Ok(c)
                && c.wf() && same_shape(&c.shape, &self.shape) && c.values@.len()
                == self.values@.len() && forall|i: int|
                0 <= i < c.values@.len() ==> c.values@[i] == self.values@[i] - other.values@[0]),
            !same_shape(&self.shape, &other.shape) && self.shape is Scalar && !(other.shape
                is Scalar) ==> (r matches Ok(c) && c.wf() && same_shape(&c.shape, &other.shape)
                && c.values@.len() == other.values@.len() && forall|i: int|
                0 <= i < c.values@.len() ==> c.values@[i] == self.values@[0] - other.values@[i]),
            !same_shape(&self.shape, &other.shape) && !(self.shape is Scalar) && !(other.shape
                is Scalar) ==> r == Err::<NdArray, NdArrayError>(NdArrayError::DimensionMismatch {
                expected: self.values@.len() as usize,
                actual: other.values@.len() as usize,
            }),
    {
        let same = self.shape.shape_eq(&other.shape);
        let other_scalar = matches!(&other.shape, Shape::Scalar);
        let self_scalar = matches!(&self.shape, Shape::Scalar);
        if !same && !other_scalar && !self_scalar {
            return Err(NdArrayError::DimensionMismatch {
                expected: self.values.len(),
                actual: other.values.len(),
            });
        }
        let (base, out_shape): (&NdArray, Shape) = if !same && self_scalar {
            (other, other.shape.clone())
        } else {
            (self, self.shape.clone())
        };
        proof {
            lemma_same_shape_props(&out_shape, &base.shape);
            if same {
                lemma_same_shape_props(&self.shape, &other.shape);
            }
        }
        let n = base.values.len();
        let mut values: Vec<i64> = Vec::new();
        let mut i: usize = 0;
        while i < n
            invariant
                0 <= i <= n,
                values@.len() == i,
                self.wf(),
                other.wf(),
                sub_fits(self, other),
                n == base.values@.len(),
                same == same_shape(&self.shape, &other.shape),
                other_scalar == (other.shape is Scalar),
                self_scalar == (self.shape is Scalar),
                same || other_scalar || self_scalar,
                same ==> self.values@.len() == other.values@.len(),
                base == if !same && self_scalar {
                    other
                } else {
                    self
                },
                forall|j: int|
                    0 <= j < i ==> values@[j] == (if same {
                        self.values@[j] - other.values@[j]
                    } else if other_scalar {
                        self.values@[j] - other.values@[0]
                    } else {
                        self.values@[0] - other.values@[j]
                    }),
            decreases n - i,
        {
            let v = if same {
                self.values[i] - other.values[i]
            } else if other_scalar {
                self.values[i] - other.values[0]
            } else {
                self.values[0] - other.values[i]
            };
            values.push(v);
            i = i + 1;
        }
        Ok(NdArray { shape: out_shape, values })
    }

    /// Elementwise multiplication; a scalar operand broadcasts against any
    /// shape; mismatched non-scalar shapes fail with `DimensionMismatch`.
    pub fn mul(&self, other: &NdArray) -> (r: Result<NdArray, NdArrayError>)
        requires
            self.wf(),
            other.wf(),
            mul_fits(self, other),
        ensures
            same_shape(&self.shape, &other.shape) ==> (r matches Ok(c) && c.wf() && same_shape(
                &c.shape,
                &self.shape,
            ) && c.values@.len() == self.values@.len() && forall|i: int|
                0 <= i < c.values@.len() ==> c.values@[i] == self.values@[i] * other.values@[i]),
            !same_shape(&self.shape, &other.shape) && other.shape is Scalar ==> (r matches Ok(c)
                && c.wf() && same_shape(&c.shape, &self.shape) && c.values@.len()
                == self.values@.len() && forall|i: int|
                0 <= i < c.values@.len() ==> c.values@[i] == self.values@[i] * other.values@[0]),
            !same_shape(&self.shape, &other.shape) && self.shape is Scalar && !(other.shape
                is Scalar) ==> (r matches Ok(c) && c.wf() && same_shape(&c.shape, &other.shape)
                && c.values@.len() == other.values@.len() && forall|i: int|
                0 <= i < c.values@.len() ==> c.values@[i] == self.values@[0] * other.values@[i]),
            !same_shape(&self.shape, &other.shape) && !(self.shape is Scalar) && !(other.shape
                is Scalar) ==> r == Err::<NdArray, NdArrayError>(NdArrayError::DimensionMismatch {
                expected: self.values@.len() as usize,
                actual: other.values@.len() as usize,
            }),
    {
        let same = self.shape.shape_eq(&other.shape);
        let other_scalar = matches!(&other.shape, Shape::Scalar);
        let self_scalar = matches!(&self.shape, Shape::Scalar);
        if !same && !other_scalar && !self_scalar {
            return Err(NdArrayError::DimensionMismatch {
                expected: self.values.len(),
                actual: other.values.len(),
            });
        }
        let (base, out_shape): (&NdArray, Shape) = if !same && self_scalar {
            (other, other.shape.clone())
        } else {
            (self, self.shape.clone())
        };
        proof {
            lemma_same_shape_props(&out_shape, &base.shape);
            if same {
                lemma_same_shape_props(&self.shape, &other.shape);
            }
        }
        let n = base.values.len();
        let mut values: Vec<i64> = Vec::new();
        let mut i: usize = 0;
        while i < n
            invariant
                0 <= i <= n,
                values@.len() == i,
                self.wf(),
                other.wf(),
                mul_fits(self, other),
                n == base.values@.len(),
                same == same_shape(&self.shape, &other.shape),
                other_scalar == (other.shape is Scalar),
                self_scalar == (self.shape is Scalar),
                same || other_scalar || self_scalar,
                same ==> self.values@.len() == other.values@.len(),
                base == if !same && self_scalar {
                    other
                } else {
                    self
                },
                forall|j: int|
                    0 <= j < i ==> values@[j] == (if same {
                        self.values@[j] * other.values@[j]
                    } else if other_scalar {
                        self.values@[j] * other.values@[0]
                    } else {
                        self.values@[0] * other.values@[j]
                    }),
            decreases n - i,
        {
            let v = if same {
                self.values[i] * other.values[i]
            } else if other_scalar {
                self.values[i] * other.values[0]
            } else {
                self.values[0] * other.values[i]
            };
            values.push(v);
            i = i + 1;
        }
        Ok(NdArray { shape: out_shape, values })
    }
}

/// A column view: an index-and-stride cursor that partitions a buffer of
/// `total` elements into consecutive windows of `col_len` elements, in order.
/// It carries no reference, so read-side and write-side walks over the same
/// buffer get the identical partitioning.
pub struct ColumnChunks {
    pub total: usize,
    pub col_len: usize,
    pub pos: usize,
}

impl ColumnChunks {
    /// Cursor over a buffer of `total` elements in columns of `col_len`.
    pub fn new(total: usize, col_len: usize) -> (r: ColumnChunks)
        requires
            col_len >= 1,
        ensures
            r.total == total,
            r.col_len == col_len,
            r.pos == 0,
    {
        ColumnChunks { total, col_len, pos: 0 }
    }

    /// Whether a column is still left.
    pub fn has_more(&self) -> (r: bool)
        ensures
            r == (self.pos < self.total),
    {
        self.pos < self.total
    }

    /// The next column as its half-open index range `[start, end)`: `col_len`
    /// elements, or what remains of the buffer if less.
    pub fn next(&mut self) -> (r: Option<(usize, usize)>)
        requires
            old(self).col_len >= 1,
            old(self).pos <= old(self).total,
        ensures
            final(self).total == old(self).total,
            final(self).col_len == old(self).col_len,
            old(self).pos >= old(self).total ==> r is None && final(self).pos == old(self).pos,
            old(self).pos < old(self).total ==> (r matches Some(se) && se.0 == old(self).pos
                && se.1 as int == (if old(self).pos + old(self).col_len <= old(self).total {
                old(self).pos + old(self).col_len
            } else {
                old(self).total as int
            }) && final(self).pos == se.1 && se.0 < se.1 <= final(self).total),
    {
        if self.pos >= self.total {
            return None;
        }
        let start = self.pos;
        let end = if self.total - self.pos > self.col_len {
            self.pos + self.col_len
        } else {
            self.total
        };
        self.pos = end;
        Some((start, end))
    }
}

/// Every subtraction the broadcast rules of `sub` would perform stays within
/// `i64`.
pub open spec fn sub_fits(a: &NdArray, b: &NdArray) -> bool {
    if same_shape(&a.shape, &b.shape) {
        forall|i: int|
            0 <= i < a.values@.len() ==> i64::MIN <= #[trigger] (a.values@[i] - b.values@[i])
                <= i64::MAX
    } else if b.shape is Scalar {
        forall|i: int|
            0 <= i < a.values@.len() ==> i64::MIN <= #[trigger] (a.values@[i] - b.values@[0])
                <= i64::MAX
    } else if a.shape is Scalar {
        forall|i: int|
            0 <= i < b.values@.len() ==> i64::MIN <= #[trigger] (a.values@[0] - b.values@[i])
                <= i64::MAX
    } else {
        true
    }
}

/// Every product the broadcast rules of `mul` would perform stays within
/// `i64`.
pub open spec fn mul_fits(a: &NdArray, b: &NdArray) -> bool {
    if same_shape(&a.shape, &b.shape) {
        forall|i: int|
            0 <= i < a.values@.len() ==> i64::MIN <= #[trigger] (a.values@[i] * b.values@[i])
                <= i64::MAX
    } else if b.shape is Scalar {
        forall|i: int|
            0 <= i < a.values@.len() ==> i64::MIN <= #[trigger] (a.values@[i] * b.values@[0])
                <= i64::MAX
    } else if a.shape is Scalar {
        forall|i: int|
            0 <= i < b.values@.len() ==> i64::MIN <= #[trigger] (a.values@[0] * b.values@[i])
                <= i64::MAX
    } else {
        true
    }
}

} // verus!
