//! Differentiable activation passes built on the array type and the dense
//! kernel: relu and its gradient, the softmax Jacobian backward pass, and the
//! sigmoid gradient. (The forward softmax and sigmoid transforms need
//! transcendental real arithmetic and live outside this library.)

use vstd::prelude::*;
use vstd::arithmetic::div_mod::{lemma_fundamental_div_mod, lemma_mod_bound};
use vstd::pervasive::VecAdditionalExecFns;
use crate::matrix::{DIM_LIMIT, ELEM_LIMIT, elems_bounded, kernel_at, mix, mm_cell,
    mm_cell_partial};
use crate::ndarray::{ColumnChunks, NdArray, NdArrayError, zero_vec};
use crate::shape::{Shape, lemma_same_shape_props, same_shape};

verus! {

/// Largest magnitude the softmax backward pass accepts for forward outputs;
/// keeps every Jacobian entry within `ELEM_LIMIT`.
pub const JAC_INPUT_LIMIT: i64 = 1000;

/// Rectified linear unit of one element: `max(x, 0)`.
pub open spec fn relu_val(x: i64) -> i64 {
    if x > 0 {
        x
    } else {
        0
    }
}

/// Entry `(i, k)` of the softmax Jacobian `diag(o) - outer(o, o)` of a
/// forward-output column `o`.
pub open spec fn jac_entry(o: Seq<i64>, i: int, k: int) -> int {
    if i == k {
        o[i] - o[i] * o[k]
    } else {
        0 - o[i] * o[k]
    }
}

/// First `t` terms of row `i` of the softmax Jacobian of column `o`
/// multiplied into the gradient column `d`.
pub open spec fn dsoftmax_cell_partial(o: Seq<i64>, d: Seq<i64>, i: int, t: int) -> int
    decreases t,
{
    if t <= 0 {
        0
    } else {
        dsoftmax_cell_partial(o, d, i, t - 1) + jac_entry(o, i, t - 1) * d[t - 1]
    }
}

/// Row `i` of the softmax Jacobian of column `o` times gradient column `d`.
pub open spec fn dsoftmax_cell(o: Seq<i64>, d: Seq<i64>, i: int) -> int {
    dsoftmax_cell_partial(o, d, i, o.len() as int)
}

/// Every element of the sequence is within `JAC_INPUT_LIMIT` in magnitude.
pub open spec fn jac_input_bounded(s: Seq<i64>) -> bool {
    forall|i: int| 0 <= i < s.len() ==> -JAC_INPUT_LIMIT <= #[trigger] s[i] <= JAC_INPUT_LIMIT
}

/// Elementwise `max(x, 0)`: a pure forward transform producing a new array of
/// the same shape.
pub fn relu(inp: &NdArray) -> (r: NdArray)
    requires
        inp.wf(),
    ensures
        r.wf(),
        same_shape(&r.shape, &inp.shape),
        r.values@.len() == inp.values@.len(),
        forall|i: int| 0 <= i < r.values@.len() ==> r.values@[i] == relu_val(inp.values@[i]),
{
    let out_shape = inp.shape.clone();
    proof {
        lemma_same_shape_props(&out_shape, &inp.shape);
    }
    let n = inp.values.len();
    let mut values: Vec<i64> = Vec::new();
    let mut i: usize = 0;
    while i < n
        invariant
            0 <= i <= n,
            n == inp.values@.len(),
            values@.len() == i,
            forall|j: int| 0 <= j < i ==> values@[j] == relu_val(inp.values@[j]),
        decreases n - i,
    {
        let v = inp.values[i];
        values.push(if v > 0 {
            v
        } else {
            0
        });
        i = i + 1;
    }
    NdArray { shape: out_shape, values }
}

/// Gradient of relu: copies `dvalues` and zeroes every element whose
/// matching `inputs` element is `<= 0`. The two arrays must have the same
/// element count and column length; the result takes the shape of `dvalues`.
pub fn drelu_dz(inputs: &NdArray, dvalues: &NdArray) -> (r: NdArray)
    requires
        inputs.wf(),
        dvalues.wf(),
        inputs.values@.len() == dvalues.values@.len(),
        inputs.shape.spec_last_dim() == dvalues.shape.spec_last_dim(),
    ensures
        r.wf(),
        same_shape(&r.shape, &dvalues.shape),
        r.values@.len() == dvalues.values@.len(),
        forall|i: int|
            0 <= i < r.values@.len() ==> r.values@[i] == (if inputs.values@[i] <= 0 {
                0i64
            } else {
                dvalues.values@[i]
            }),
{
    let out_shape = dvalues.shape.clone();
    proof {
        lemma_same_shape_props(&out_shape, &dvalues.shape);
        match &dvalues.shape {
            Shape::Tensor(d) => {
                assert(d@[d@.len() - 1] >= 1);
            },
            _ => {},
        }
    }
    let n = dvalues.values.len();
    let cl = dvalues.shape.last_dim();
    let mut values = zero_vec(n);
    let mut it = ColumnChunks::new(n, cl);
    while it.has_more()
        invariant
            it.total == n,
            it.col_len == cl,
            cl >= 1,
            it.pos <= n,
            n == dvalues.values@.len(),
            n == inputs.values@.len(),
            values@.len() == n,
            forall|j: int|
                0 <= j < it.pos ==> values@[j] == (if inputs.values@[j] <= 0 {
                    0i64
                } else {
                    dvalues.values@[j]
                }),
        decreases n - it.pos,
    {
        let (start, end) = match it.next() {
            Some(se) => se,
            None => {
                proof {
                    assert(false);
                }
                (0, 0)
            },
        };
        let mut k = start;
        while k < end
            invariant
                start <= k <= end,
                end <= n,
                n == dvalues.values@.len(),
                n == inputs.values@.len(),
                values@.len() == n,
                forall|j: int|
                    0 <= j < k ==> values@[j] == (if inputs.values@[j] <= 0 {
                        0i64
                    } else {
                        dvalues.values@[j]
                    }),
            decreases end - k,
        {
            if inputs.values[k] <= 0 {
                values.set(k, 0);
            } else {
                values.set(k, dvalues.values[k]);
            }
            k = k + 1;
        }
        proof {
            assert(it.pos == end);
        }
    }
    NdArray { shape: out_shape, values }
}

/// Standard logistic derivative: `dvalues * (1 - output) * output`
/// elementwise, with a scalar operand broadcasting against the other shape;
/// mismatched non-scalar shapes fail with `DimensionMismatch`.
pub fn dsigmoid(output: &NdArray, dvalues: &NdArray) -> (r: Result<NdArray, NdArrayError>)
    requires
        output.wf(),
        dvalues.wf(),
        elems_bounded(output.values@),
        elems_bounded(dvalues.values@),
    ensures
        same_shape(&output.shape, &dvalues.shape) ==> (r matches Ok(c) && c.wf() && same_shape(
            &c.shape,
            &dvalues.shape,
        ) && c.values@.len() == dvalues.values@.len() && forall|i: int|
            0 <= i < c.values@.len() ==> c.values@[i] as int == dvalues.values@[i] * (1
                - output.values@[i]) * output.values@[i]),
        !same_shape(&output.shape, &dvalues.shape) && output.shape is Scalar ==> (r matches Ok(c)
            && c.wf() && same_shape(&c.shape, &dvalues.shape) && c.values@.len()
            == dvalues.values@.len() && forall|i: int|
            0 <= i < c.values@.len() ==> c.values@[i] as int == dvalues.values@[i] * (1
                - output.values@[0]) * output.values@[0]),
        !same_shape(&output.shape, &dvalues.shape) && dvalues.shape is Scalar && !(output.shape
            is Scalar) ==> (r matches Ok(c) && c.wf() && same_shape(&c.shape, &output.shape)
            && c.values@.len() == output.values@.len() && forall|i: int|
            0 <= i < c.values@.len() ==> c.values@[i] as int == dvalues.values@[0] * (1
                - output.values@[i]) * output.values@[i]),
        !same_shape(&output.shape, &dvalues.shape) && !(output.shape is Scalar) && !(dvalues.shape
            is Scalar) ==> r == Err::<NdArray, NdArrayError>(
            NdArrayError::DimensionMismatch {
                expected: dvalues.values@.len() as usize,
                actual: output.values@.len() as usize,
            },
        ),
{
    let same = output.shape.shape_eq(&dvalues.shape);
    let out_scalar = matches!(&output.shape, Shape::Scalar);
    let dv_scalar = matches!(&dvalues.shape, Shape::Scalar);
    if !same && !out_scalar && !dv_scalar {
        return Err(NdArrayError::DimensionMismatch {
            expected: dvalues.values.len(),
            actual: output.values.len(),
        });
    }
    let (base, out_shape): (&NdArray, Shape) = if !same && dv_scalar {
        (output, output.shape.clone())
    } else {
        (dvalues, dvalues.shape.clone())
    };
    proof {
        lemma_same_shape_props(&out_shape, &base.shape);
        if same {
            lemma_same_shape_props(&output.shape, &dvalues.shape);
        }
    }
    let n = base.values.len();
    let mut values: Vec<i64> = Vec::new();
    let mut i: usize = 0;
    while i < n
        invariant
            0 <= i <= n,
            values@.len() == i,
            output.wf(),
            dvalues.wf(),
            elems_bounded(output.values@),
            elems_bounded(dvalues.values@),
            n == base.values@.len(),
            same == same_shape(&output.shape, &dvalues.shape),
            out_scalar == (output.shape is Scalar),
            dv_scalar == (dvalues.shape is Scalar),
            same || out_scalar || dv_scalar,
            same ==> output.values@.len() == dvalues.values@.len(),
            base == if !same && dv_scalar {
                output
            } else {
                dvalues
            },
            forall|j: int|
                0 <= j < i ==> values@[j] as int == (if same {
                    dvalues.values@[j] * (1 - output.values@[j]) * output.values@[j]
                } else if out_scalar {
                    dvalues.values@[j] * (1 - output.values@[0]) * output.values@[0]
                } else {
                    dvalues.values@[0] * (1 - output.values@[j]) * output.values@[j]
                }),
        decreases n - i,
    {
        let d = if !same && dv_scalar {
            dvalues.values[0]
        } else {
            dvalues.values[i]
        };
        let o = if !same && out_scalar {
            output.values[0]
        } else {
            output.values[i]
        };
        proof {
            assert(i64::MIN <= (d as int) * (1 - o as int) && (d as int) * (1 - o as int)
                <= i64::MAX && i64::MIN <= (d as int) * (1 - o as int) * (o as int) && (d as int)
                * (1 - o as int) * (o as int) <= i64::MAX) by (nonlinear_arith)
                requires
                    -ELEM_LIMIT <= d <= ELEM_LIMIT,
                    -ELEM_LIMIT <= o <= ELEM_LIMIT,
                    ELEM_LIMIT == 1048576,
            ;
        }
        let v = d * (1 - o) * o;
        values.push(v);
        i = i + 1;
    }
    Ok(NdArray { shape: out_shape, values })
}

/// Bridges the dense kernel's dot product over an explicit Jacobian buffer to
/// the closed-form softmax gradient cell.
proof fn lemma_dsoftmax_from_jac(jac: Seq<i64>, o: Seq<i64>, d: Seq<i64>, l: int, i: int, t: int)
    requires
        0 <= t <= l,
        0 <= i < l,
        o.len() == l,
        d.len() == l,
        jac.len() == l * l,
        forall|k: int| 0 <= k < l ==> jac[#[trigger] mix(i, l, k)] as int == jac_entry(o, i, k),
    ensures
        mm_cell_partial(jac, d, l, 1, i, 0, t) == dsoftmax_cell_partial(o, d, i, t),
    decreases t,
{
    if t > 0 {
        lemma_dsoftmax_from_jac(jac, o, d, l, i, t - 1);
        assert(mix(t - 1, 1, 0) == t - 1);
        assert(jac[mix(i, l, t - 1)] as int == jac_entry(o, i, t - 1));
    }
}

/// Softmax backward pass: for each column `c`, multiplies the Jacobian
/// `diag(output_c) - outer(output_c, output_c)` into the matching `dvalues`
/// column via the dense kernel, writing the result into the corresponding
/// output column. The result takes the shape of `dvalues`.
#[verifier::loop_isolation(false)]
pub fn dsoftmax(output: &NdArray, dvalues: &NdArray) -> (r: Result<NdArray, NdArrayError>)
    requires
        output.wf(),
        dvalues.wf(),
        jac_input_bounded(output.values@),
        elems_bounded(dvalues.values@),
        output.values@.len() == dvalues.values@.len(),
        output.shape.spec_last_dim() == dvalues.shape.spec_last_dim(),
        output.shape.spec_last_dim() <= DIM_LIMIT,
    ensures
        r matches Ok(c) && c.wf() && same_shape(&c.shape, &dvalues.shape) && c.values@.len()
            == dvalues.values@.len() && (forall|t: int, i: int|
            0 <= t < dvalues.values@.len() as int / (dvalues.shape.spec_last_dim() as int) && 0 <= i
                < dvalues.shape.spec_last_dim() as int ==> c.values@[#[trigger] mix(
                t,
                dvalues.shape.spec_last_dim() as int,
                i,
            )] as int == dsoftmax_cell(
                crate::matrix::chunk(
                    output.values@,
                    dvalues.shape.spec_last_dim() as int,
                    t,
                ),
                crate::matrix::chunk(
                    dvalues.values@,
                    dvalues.shape.spec_last_dim() as int,
                    t,
                ),
                i,
            )),
{
    let out_shape = dvalues.shape.clone();
    proof {
        lemma_same_shape_props(&out_shape, &dvalues.shape);
        match &dvalues.shape {
            Shape::Tensor(dd) => {
                assert(dd@[dd@.len() - 1] >= 1);
            },
            _ => {},
        }
    }
    let n = dvalues.values.len();
    let l = dvalues.shape.last_dim();
    let cols = n / l;
    proof {
        lemma_fundamental_div_mod(n as int, l as int);
        lemma_mod_bound(n as int, l as int);
    }
    let ghost lint = l as int;
    let mut res = zero_vec(n);
    let mut t: usize = 0;
    while t < cols
        invariant
            0 <= t <= cols,
            res@.len() == n,
            forall|t2: int, i2: int|
                0 <= t2 < t && 0 <= i2 < lint ==> res@[#[trigger] mix(t2, lint, i2)] as int
                    == dsoftmax_cell(
                    crate::matrix::chunk(output.values@, lint, t2),
                    crate::matrix::chunk(dvalues.values@, lint, t2),
                    i2,
                ),
            forall|k: int| (t as int) * lint <= k < n ==> res@[k] == 0i64,
        decreases cols - t,
    {
        proof {
            assert((t as int) * lint + lint <= (cols as int) * lint && (cols as int) * lint <= n
                && (t as int) * lint >= 0) by (nonlinear_arith)
                requires
                    0 <= t < cols,
                    lint >= 1,
                    (cols as int) * lint + (n as int) % lint == n,
                    (n as int) % lint >= 0,
            ;
            assert((l * l) as int <= (DIM_LIMIT as int) * (DIM_LIMIT as int) && (DIM_LIMIT as int)
                * (DIM_LIMIT as int) <= usize::MAX) by (nonlinear_arith)
                requires
                    0 <= l <= DIM_LIMIT,
                    DIM_LIMIT == 32768,
                    usize::MAX >= 0xffffffff,
            ;
        }
        let base = t * l;
        let mut jac = zero_vec(l * l);
        let ghost ocol = crate::matrix::chunk(output.values@, lint, t as int);
        let ghost dcol = crate::matrix::chunk(dvalues.values@, lint, t as int);
        let mut i: usize = 0;
        while i < l
            invariant
                0 <= i <= l,
                jac@.len() == l * l,
                base == (t as int) * lint,
                base + lint <= n,
                ocol == crate::matrix::chunk(output.values@, lint, t as int),
                dcol == crate::matrix::chunk(dvalues.values@, lint, t as int),
                forall|i2: int, k2: int|
                    0 <= i2 < i && 0 <= k2 < lint ==> jac@[#[trigger] mix(i2, lint, k2)] as int
                        == jac_entry(ocol, i2, k2),
                elems_bounded(jac@),
            decreases l - i,
        {
            let oi = output.values[base + i];
            let mut k: usize = 0;
            while k < l
                invariant
                    0 <= i < l,
                    0 <= k <= l,
                    jac@.len() == l * l,
                    base == (t as int) * lint,
                    base + lint <= n,
                    oi == output.values@[base + i],
                    ocol == crate::matrix::chunk(output.values@, lint, t as int),
                    dcol == crate::matrix::chunk(dvalues.values@, lint, t as int),
                    forall|i2: int, k2: int|
                        0 <= i2 < i && 0 <= k2 < lint ==> jac@[#[trigger] mix(i2, lint, k2)] as int
                            == jac_entry(ocol, i2, k2),
                    forall|k2: int|
                        0 <= k2 < k ==> jac@[#[trigger] mix(i as int, lint, k2)] as int
                            == jac_entry(ocol, i as int, k2),
                    elems_bounded(jac@),
                decreases l - k,
            {
                let ok = output.values[base + k];
                proof {
                    assert(-1048576 <= (oi as int) * (ok as int) <= 1048576 && -ELEM_LIMIT <= oi
                        - (oi as int) * (ok as int) <= ELEM_LIMIT && -ELEM_LIMIT <= 0 - (oi as int)
                        * (ok as int) <= ELEM_LIMIT) by (nonlinear_arith)
                        requires
                            -JAC_INPUT_LIMIT <= oi <= JAC_INPUT_LIMIT,
                            -JAC_INPUT_LIMIT <= ok <= JAC_INPUT_LIMIT,
                            JAC_INPUT_LIMIT == 1000,
                            ELEM_LIMIT == 1048576,
                    ;
                    assert(0 <= mix(i as int, lint, k as int) && mix(i as int, lint, k as int) < (l
                        * l) as int) by (nonlinear_arith)
                        requires
                            0 <= i < l,
                            0 <= k < l,
                            lint == l as int,
                    ;
                    assert(ocol[i as int] == output.values@[base + i]);
                    assert(ocol[k as int] == output.values@[base + k]);
                    assert forall|i2: int, k2: int|
                        0 <= i2 < lint && 0 <= k2 < lint && !(i2 == i as int && k2 == k as int)
                        implies mix(i2, lint, k2) != mix(i as int, lint, k as int) by {
                        vstd::arithmetic::div_mod::lemma_fundamental_div_mod_converse(
                            mix(i2, lint, k2),
                            lint,
                            i2,
                            k2,
                        );
                        vstd::arithmetic::div_mod::lemma_fundamental_div_mod_converse(
                            mix(i as int, lint, k as int),
                            lint,
                            i as int,
                            k as int,
                        );
                    }
                }
                let prodv = oi * ok;
                let entry = if i == k {
                    oi - prodv
                } else {
                    0 - prodv
                };
                jac.set(i * l + k, entry);
                proof {
                    assert(jac@[mix(i as int, lint, k as int)] as int == jac_entry(
                        ocol,
                        i as int,
                        k as int,
                    ));
                    assert forall|i2: int, k2: int|
                        0 <= i2 < i && 0 <= k2 < lint implies jac@[#[trigger] mix(
                        i2,
                        lint,
                        k2,
                    )] as int == jac_entry(ocol, i2, k2) by {
                        assert(0 <= mix(i2, lint, k2) && mix(i2, lint, k2) < (l * l) as int)
                            by (nonlinear_arith)
                            requires
                                0 <= i2 < l,
                                0 <= k2 < l,
                                lint == l as int,
                        ;
                        assert(mix(i2, lint, k2) != mix(i as int, lint, k as int));
                    }
                    assert forall|k2: int|
                        0 <= k2 < k implies jac@[#[trigger] mix(i as int, lint, k2)] as int
                        == jac_entry(ocol, i as int, k2) by {
                        assert(0 <= mix(i as int, lint, k2) && mix(i as int, lint, k2) < (l
                            * l) as int) by (nonlinear_arith)
                            requires
                                0 <= i < l,
                                0 <= k2 < l,
                                lint == l as int,
                        ;
                        assert(mix(i as int, lint, k2) != mix(i as int, lint, k as int));
                    }
                }
                k = k + 1;
            }
            i = i + 1;
        }
        let ghost res_prev = res@;
        kernel_at(l, l, 1, &jac, 0, &dvalues.values, base, &mut res, base);
        proof {
            let jsub = jac@.subrange(0, (l * l) as int);
            assert(jsub =~= jac@);
            let dsub = dvalues.values@.subrange(base as int, base + l * 1);
            assert(dsub =~= dcol);
            let osub = res@.subrange(base as int, base + l * 1);
            assert forall|i2: int| 0 <= i2 < lint implies res@[#[trigger] mix(
                t as int,
                lint,
                i2,
            )] as int == dsoftmax_cell(ocol, dcol, i2) by {
                assert(mix(t as int, lint, i2) == base + i2);
                assert(mix(i2, 1, 0) == i2);
                assert(osub[mix(i2, 1, 0)] as int == mm_cell(jsub, dsub, lint, 1, i2, 0));
                assert(osub[i2] == res@[base + i2]);
                lemma_dsoftmax_from_jac(jac@, ocol, dcol, lint, i2, lint);
                assert(ocol.len() == lint);
            }
            assert forall|t2: int, i2: int|
                0 <= t2 < t && 0 <= i2 < lint implies res@[#[trigger] mix(t2, lint, i2)] as int
                == dsoftmax_cell(
                crate::matrix::chunk(output.values@, lint, t2),
                crate::matrix::chunk(dvalues.values@, lint, t2),
                i2,
            ) by {
                assert(0 <= mix(t2, lint, i2) && mix(t2, lint, i2) + 1 <= (t as int) * lint)
                    by (nonlinear_arith)
                    requires
                        0 <= t2 < t,
                        0 <= i2 < lint,
                        lint >= 1,
                ;
                assert(res@[mix(t2, lint, i2)] == res_prev[mix(t2, lint, i2)]);
            }
            assert forall|k2: int| (t as int + 1) * lint <= k2 < n implies res@[k2] == 0i64 by {
                assert((t as int) * lint + lint == (t as int + 1) * lint) by (nonlinear_arith);
            }
        }
        t = t + 1;
    }
    proof {
        assert(cols as int == dvalues.values@.len() as int / (
        dvalues.shape.spec_last_dim() as int));
    }
    Ok(NdArray { shape: out_shape, values: res })
}

} // verus!
