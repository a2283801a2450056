//! Shapes: the dimensionality descriptor of an array, with its derived
//! quantities (span, trailing two dimensions).

use vstd::prelude::*;

verus! {

/// Dimensionality descriptor of an array: a scalar, a vector of `n` elements,
/// an `n x m` matrix, or a tensor of at least three dimensions whose trailing
/// two dimensions describe matrices and whose leading dimensions index a
/// batch of such matrices.
#[derive(Debug)]
pub enum Shape {
    Scalar,
    Vector(usize),
    Matrix(usize, usize),
    Tensor(Vec<usize>),
}

/// Product of a sequence of dimensions; the empty product is 1.
pub open spec fn prod(dims: Seq<usize>) -> nat
    decreases dims.len(),
{
    if dims.len() == 0 {
        1
    } else {
        (dims[0] as nat) * prod(dims.drop_first())
    }
}

/// A product of positive dimensions is positive.
pub proof fn lemma_prod_pos(dims: Seq<usize>)
    requires
        forall|i: int| 0 <= i < dims.len() ==> dims[i] >= 1,
    ensures
        prod(dims) >= 1,
    decreases dims.len(),
{
    if dims.len() > 0 {
        lemma_prod_pos(dims.drop_first());
        assert((dims[0] as nat) * prod(dims.drop_first()) >= 1) by (nonlinear_arith)
            requires
                dims[0] >= 1,
                prod(dims.drop_first()) >= 1,
        ;
    }
}

/// Splitting a product at position `k`: the whole product is the product of
/// the first `k` dimensions times the product of the rest.
pub proof fn lemma_prod_split_at(dims: Seq<usize>, k: int)
    requires
        0 <= k <= dims.len(),
    ensures
        prod(dims) == prod(dims.take(k)) * prod(dims.skip(k)),
    decreases k,
{
    if k == 0 {
        assert(dims.take(0) =~= Seq::<usize>::empty());
        assert(dims.skip(0) =~= dims);
    } else {
        let tail = dims.drop_first();
        lemma_prod_split_at(tail, k - 1);
        assert(dims.take(k).drop_first() =~= tail.take(k - 1));
        assert(dims.skip(k) =~= tail.skip(k - 1));
        assert((dims[0] as nat) * (prod(tail.take(k - 1)) * prod(tail.skip(k - 1))) == ((
        dims[0] as nat) * prod(tail.take(k - 1))) * prod(tail.skip(k - 1)))
            by (nonlinear_arith);
    }
}

/// Extending a prefix product by one dimension.
pub proof fn lemma_prod_take_step(dims: Seq<usize>, k: int)
    requires
        0 <= k < dims.len(),
    ensures
        prod(dims.take(k + 1)) == prod(dims.take(k)) * (dims[k] as nat),
{
    lemma_prod_split_at(dims.take(k + 1), k);
    assert(dims.take(k + 1).take(k) =~= dims.take(k));
    assert(dims.take(k + 1).skip(k) =~= seq![dims[k]]);
    assert(seq![dims[k]].drop_first() =~= Seq::<usize>::empty());
    assert(prod(Seq::<usize>::empty()) == 1);
    assert(prod(seq![dims[k]]) == (dims[k] as nat) * prod(seq![dims[k]].drop_first()));
}

/// With positive dimensions, every prefix product is bounded by the whole
/// product.
pub proof fn lemma_prod_prefix_le(dims: Seq<usize>, k: int)
    requires
        0 <= k <= dims.len(),
        forall|i: int| 0 <= i < dims.len() ==> dims[i] >= 1,
    ensures
        prod(dims.take(k)) <= prod(dims),
{
    lemma_prod_split_at(dims, k);
    assert(forall|i: int|
        0 <= i < dims.skip(k).len() ==> #[trigger] dims.skip(k)[i] >= 1);
    lemma_prod_pos(dims.skip(k));
    assert(prod(dims.take(k)) * prod(dims.skip(k)) >= prod(dims.take(k)) * 1) by (nonlinear_arith)
        requires
            prod(dims.skip(k)) >= 1,
    ;
}

/// Two shapes are the same when they have the same variant and the same
/// dimensions.
pub open spec fn same_shape(a: &Shape, b: &Shape) -> bool {
    match (a, b) {
        (Shape::Scalar, Shape::Scalar) => true,
        (Shape::Vector(x), Shape::Vector(y)) => x == y,
        (Shape::Matrix(x0, x1), Shape::Matrix(y0, y1)) => x0 == y0 && x1 == y1,
        (Shape::Tensor(p), Shape::Tensor(q)) => p@ == q@,
        _ => false,
    }
}

/// Shapes that are the same have the same derived quantities.
pub proof fn lemma_same_shape_props(a: &Shape, b: &Shape)
    requires
        same_shape(a, b),
    ensures
        a.wf() == b.wf(),
        a.spec_span() == b.spec_span(),
        a.spec_last_two() == b.spec_last_two(),
        a.spec_last_dim() == b.spec_last_dim(),
        a.spec_batch() == b.spec_batch(),
        (a is Scalar) == (b is Scalar),
        (a is Vector) == (b is Vector),
        (a is Matrix) == (b is Matrix),
        (a is Tensor) == (b is Tensor),
{
    match (a, b) {
        (Shape::Tensor(p), Shape::Tensor(q)) => {
            assert(p@ == q@);
        },
        _ => {},
    }
}

impl Shape {
    /// Validity of a shape: every dimension is at least 1, and a tensor has at
    /// least three dimensions (its trailing two are the matrix dimensions).
    pub open spec fn wf(&self) -> bool {
        match self {
            Shape::Scalar => true,
            Shape::Vector(n) => *n >= 1,
            Shape::Matrix(n, m) => *n >= 1 && *m >= 1,
            Shape::Tensor(d) => d@.len() >= 3 && (forall|i: int|
                0 <= i < d@.len() ==> d@[i] >= 1),
        }
    }

    /// Total element count implied by the shape (1 for a scalar).
    pub open spec fn spec_span(&self) -> nat {
        match self {
            Shape::Scalar => 1,
            Shape::Vector(n) => *n as nat,
            Shape::Matrix(n, m) => (*n as nat) * (*m as nat),
            Shape::Tensor(d) => prod(d@),
        }
    }

    /// The trailing `[rows, cols]` pair; absent for scalars and vectors.
    pub open spec fn spec_last_two(&self) -> Option<(usize, usize)> {
        match self {
            Shape::Scalar => None,
            Shape::Vector(_) => None,
            Shape::Matrix(n, m) => Some((*n, *m)),
            Shape::Tensor(d) => Some((d@[d@.len() - 2], d@[d@.len() - 1])),
        }
    }

    /// Length of one trailing-dimension column of an array of this shape.
    pub open spec fn spec_last_dim(&self) -> usize {
        match self {
            Shape::Scalar => 1,
            Shape::Vector(n) => *n,
            Shape::Matrix(_, m) => *m,
            Shape::Tensor(d) => d@[d@.len() - 1],
        }
    }

    /// Number of batched matrices a tensor holds: the product of its leading
    /// (non-matrix) dimensions. 1 for the other variants.
    pub open spec fn spec_batch(&self) -> nat {
        match self {
            Shape::Tensor(d) => prod(d@.take(d@.len() - 2)),
            _ => 1,
        }
    }

    /// For a valid tensor, span = batch * rows * cols.
    pub proof fn lemma_tensor_split(&self)
        requires
            self is Tensor,
            self.wf(),
        ensures
            self.spec_span() == self.spec_batch() * ((self.spec_last_two().unwrap().0 as nat)
                * (self.spec_last_two().unwrap().1 as nat)),
            self.spec_batch() >= 1,
    {
        match self {
            Shape::Tensor(d) => {
                let n = d@.len() as int;
                lemma_prod_split_at(d@, n - 2);
                let tail = d@.skip(n - 2);
                assert(tail =~= seq![d@[n - 2], d@[n - 1]]);
                assert(tail.drop_first() =~= seq![d@[n - 1]]);
                assert(tail.drop_first().drop_first() =~= Seq::<usize>::empty());
                assert(prod(Seq::<usize>::empty()) == 1);
                assert(prod(tail.drop_first()) == (d@[n - 1] as nat) * prod(
                    tail.drop_first().drop_first()));
                assert(prod(tail) == (d@[n - 2] as nat) * prod(tail.drop_first()));
                assert(prod(tail) == (d@[n - 2] as nat) * ((d@[n - 1] as nat) * 1));
                assert(forall|i: int|
                    0 <= i < d@.take(n - 2).len() ==> #[trigger] d@.take(n - 2)[i] >= 1);
                lemma_prod_pos(d@.take(n - 2));
                assert((d@[n - 2] as nat) * ((d@[n - 1] as nat) * 1) == (d@[n - 2] as nat) * (
                d@[n - 1] as nat)) by (nonlinear_arith);
            },
            _ => {},
        }
    }

    /// Element count of the shape.
    pub fn span(&self) -> (r: usize)
        requires
            self.wf(),
            self.spec_span() <= usize::MAX,
        ensures
            r == self.spec_span(),
    {
        match self {
            Shape::Scalar => 1,
            Shape::Vector(n) => *n,
            Shape::Matrix(n, m) => *n * *m,
            Shape::Tensor(d) => {
                let mut acc: usize = 1;
                let mut i: usize = 0;
                proof {
                    assert(d@.take(0) =~= Seq::<usize>::empty());
                }
                while i < d.len()
                    invariant
                        0 <= i <= d@.len(),
                        acc == prod(d@.take(i as int)),
                        prod(d@) <= usize::MAX,
                        forall|j: int| 0 <= j < d@.len() ==> d@[j] >= 1,
                    decreases d@.len() - i,
                {
                    proof {
                        lemma_prod_take_step(d@, i as int);
                        lemma_prod_prefix_le(d@, i as int + 1);
                    }
                    acc = acc * d[i];
                    i = i + 1;
                }
                proof {
                    assert(d@.take(d@.len() as int) =~= d@);
                }
                acc
            },
        }
    }

    /// The trailing `[rows, cols]` pair, when the shape has one.
    pub fn last_two(&self) -> (r: Option<(usize, usize)>)
        requires
            self.wf(),
        ensures
            r == self.spec_last_two(),
    {
        match self {
            Shape::Scalar => None,
            Shape::Vector(_) => None,
            Shape::Matrix(n, m) => Some((*n, *m)),
            Shape::Tensor(d) => Some((d[d.len() - 2], d[d.len() - 1])),
        }
    }

    /// Length of one trailing-dimension column.
    pub fn last_dim(&self) -> (r: usize)
        requires
            self.wf(),
        ensures
            r == self.spec_last_dim(),
    {
        match self {
            Shape::Scalar => 1,
            Shape::Vector(n) => *n,
            Shape::Matrix(_, m) => *m,
            Shape::Tensor(d) => d[d.len() - 1],
        }
    }

    /// Structural equality of shapes, for broadcast compatibility checks.
    pub fn shape_eq(&self, other: &Shape) -> (r: bool)
        ensures
            r == same_shape(self, other),
    {
        match (self, other) {
            (Shape::Scalar, Shape::Scalar) => true,
            (Shape::Vector(x), Shape::Vector(y)) => x == y,
            (Shape::Matrix(x0, x1), Shape::Matrix(y0, y1)) => x0 == y0 && x1 == y1,
            (Shape::Tensor(p), Shape::Tensor(q)) => {
                if p.len() != q.len() {
                    return false;
                }
                let mut i: usize = 0;
                while i < p.len()
                    invariant
                        0 <= i <= p@.len(),
                        p@.len() == q@.len(),
                        same_shape(self, other) == (p@ == q@),
                        forall|j: int| 0 <= j < i ==> p@[j] == q@[j],
                    decreases p@.len() - i,
                {
                    if p[i] != q[i] {
                        proof {
                            assert(p@ != q@) by {
                                assert(p@[i as int] != q@[i as int]);
                            }
                        }
                        return false;
                    }
                    i = i + 1;
                }
                proof {
                    assert(p@ =~= q@);
                }
                true
            },
            _ => false,
        }
    }
}

impl Clone for Shape {
    /// Duplicates the shape; the copy has the same variant and dimensions.
    fn clone(&self) -> (r: Self)
        ensures
            same_shape(&r, self),
    {
        match self {
            Shape::Scalar => Shape::Scalar,
            Shape::Vector(n) => Shape::Vector(*n),
            Shape::Matrix(n, m) => Shape::Matrix(*n, *m),
            Shape::Tensor(d) => {
                let mut nd: Vec<usize> = Vec::new();
                let mut i: usize = 0;
                proof {
                    assert(nd@ =~= d@.take(0));
                }
                while i < d.len()
                    invariant
                        0 <= i <= d@.len(),
                        nd@ == d@.take(i as int),
                    decreases d@.len() - i,
                {
                    nd.push(d[i]);
                    proof {
                        assert(nd@ =~= d@.take(i as int + 1));
                    }
                    i = i + 1;
                }
                proof {
                    assert(d@.take(d@.len() as int) =~= d@);
                }
                Shape::Tensor(nd)
            },
        }
    }
}

} // verus!
