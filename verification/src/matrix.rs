//! The dense matrix-multiplication kernel over flat row-major buffers, the
//! broadcasting dispatcher that resolves matmul for every shape pair, and
//! matrix transposition.

use vstd::prelude::*;
use vstd::arithmetic::div_mod::{lemma_div_by_multiple, lemma_fundamental_div_mod,
    lemma_fundamental_div_mod_converse, lemma_mod_bound};
use vstd::pervasive::VecAdditionalExecFns;
use crate::ndarray::{NdArray, NdArrayError, zero_vec};
use crate::shape::{Shape, prod, same_shape};

verus! {

/// Largest inner dimension the kernel accepts; together with `ELEM_LIMIT` it
/// keeps every dot-product accumulation inside `i64`.
pub const DIM_LIMIT: usize = 32768;

/// Largest element magnitude the kernel accepts (see `DIM_LIMIT`).
pub const ELEM_LIMIT: i64 = 1048576;

/// Every element of the sequence is within `ELEM_LIMIT` in magnitude.
pub open spec fn elems_bounded(s: Seq<i64>) -> bool {
    forall|i: int| 0 <= i < s.len() ==> -ELEM_LIMIT <= #[trigger] s[i] <= ELEM_LIMIT
}

/// Row-major index of cell `(i, j)` in a matrix of row width `w`.
pub open spec fn mix(i: int, w: int, j: int) -> int {
    i * w + j
}

/// The first `t` terms of the dot product of row `i` of the `n x m` matrix
/// `a` with column `j` of the `m x p` matrix `b`.
pub open spec fn mm_cell_partial(
    a: Seq<i64>,
    b: Seq<i64>,
    m: int,
    p: int,
    i: int,
    j: int,
    t: int,
) -> int
    decreases t,
{
    if t <= 0 {
        0
    } else {
        mm_cell_partial(a, b, m, p, i, j, t - 1) + a[mix(i, m, t - 1)] * b[mix(t - 1, p, j)]
    }
}

/// Cell `(i, j)` of the matrix product: the full dot product over `m` terms.
pub open spec fn mm_cell(a: Seq<i64>, b: Seq<i64>, m: int, p: int, i: int, j: int) -> int {
    mm_cell_partial(a, b, m, p, i, j, m)
}

/// `out` is exactly the `n x p` product of `a` (`n x m`) and `b` (`m x p`).
pub open spec fn seq_is_mm(
    out: Seq<i64>,
    a: Seq<i64>,
    b: Seq<i64>,
    n: int,
    m: int,
    p: int,
) -> bool {
    &&& out.len() == n * p
    &&& forall|i: int, j: int|
        0 <= i < n && 0 <= j < p ==> out[mix(i, p, j)] as int == #[trigger] mm_cell(
            a,
            b,
            m,
            p,
            i,
            j,
        )
}

/// The `t`-th consecutive piece of size `size` of a flat buffer.
pub open spec fn chunk(s: Seq<i64>, size: int, t: int) -> Seq<i64> {
    s.subrange(t * size, t * size + size)
}

/// Chunk `t` of `out` is the product of the `t`-th operand slices (a step of
/// 0 broadcasts one fixed operand against every slice of the other).
pub open spec fn mm_chunk_ok(
    out: Seq<i64>,
    a: Seq<i64>,
    b: Seq<i64>,
    n: int,
    m: int,
    p: int,
    a_step: int,
    b_step: int,
    t: int,
) -> bool {
    seq_is_mm(
        chunk(out, n * p, t),
        a.subrange(t * a_step, t * a_step + n * m),
        b.subrange(t * b_step, t * b_step + m * p),
        n,
        m,
        p,
    )
}

/// `out` holds `batch` consecutive `n x p` products, one per operand slice
/// pair.
pub open spec fn mm_batched(
    out: Seq<i64>,
    a: Seq<i64>,
    b: Seq<i64>,
    n: int,
    m: int,
    p: int,
    batch: int,
    a_step: int,
    b_step: int,
) -> bool {
    &&& out.len() == batch * (n * p)
    &&& forall|t: int|
        0 <= t < batch ==> #[trigger] mm_chunk_ok(out, a, b, n, m, p, a_step, b_step, t)
}

/// Broadcast law: when one fixed operand is broadcast against a batch
/// (step 0), every result slice is exactly the kernel product of that whole
/// fixed operand and the matching slice of the other operand, each slice on
/// its own.
pub proof fn lemma_broadcast_slicewise(
    out: Seq<i64>,
    a: Seq<i64>,
    b: Seq<i64>,
    n: int,
    m: int,
    p: int,
    batch: int,
    b_step: int,
    t: int,
)
    requires
        mm_batched(out, a, b, n, m, p, batch, 0, b_step),
        0 <= t < batch,
        a.len() == n * m,
    ensures
        seq_is_mm(chunk(out, n * p, t), a, b.subrange(t * b_step, t * b_step + m * p), n, m, p),
{
    assert(mm_chunk_ok(out, a, b, n, m, p, 0, b_step, t));
    assert(t * 0 == 0) by (nonlinear_arith);
    assert(a.subrange(0, n * m) =~= a);
}

/// A partial dot product of bounded elements is bounded by `t` times the
/// largest product of two elements.
proof fn lemma_cell_partial_bound(a: Seq<i64>, b: Seq<i64>, m: int, p: int, i: int, j: int, t: int)
    requires
        elems_bounded(a),
        elems_bounded(b),
        0 <= t <= m,
        0 <= i,
        0 <= j < p,
        (i + 1) * m <= a.len(),
        m * p <= b.len(),
    ensures
        -(t * (ELEM_LIMIT as int) * (ELEM_LIMIT as int)) <= mm_cell_partial(a, b, m, p, i, j, t)
            <= t * (ELEM_LIMIT as int) * (ELEM_LIMIT as int),
    decreases t,
{
    if t > 0 {
        lemma_cell_partial_bound(a, b, m, p, i, j, t - 1);
        assert(0 <= mix(i, m, t - 1) < a.len()) by (nonlinear_arith)
            requires
                0 <= i,
                0 < t <= m,
                (i + 1) * m <= a.len(),
        ;
        assert(0 <= mix(t - 1, p, j) < b.len()) by (nonlinear_arith)
            requires
                0 < t <= m,
                0 <= j < p,
                m * p <= b.len(),
        ;
        let av = a[mix(i, m, t - 1)];
        let bv = b[mix(t - 1, p, j)];
        assert(-((ELEM_LIMIT as int) * (ELEM_LIMIT as int)) <= (av as int) * (bv as int) <= (
        ELEM_LIMIT as int) * (ELEM_LIMIT as int)) by (nonlinear_arith)
            requires
                -ELEM_LIMIT <= av <= ELEM_LIMIT,
                -ELEM_LIMIT <= bv <= ELEM_LIMIT,
        ;
        assert(t * (ELEM_LIMIT as int) * (ELEM_LIMIT as int) == (t - 1) * (ELEM_LIMIT as int) * (
        ELEM_LIMIT as int) + (ELEM_LIMIT as int) * (ELEM_LIMIT as int)) by (nonlinear_arith);
    }
}

/// The raw dense kernel at offsets: writes the `n x p` product of the `n x m`
/// block of `a` at `a_off` and the `m x p` block of `b` at `b_off` into `out`
/// at `out_off`, overwriting every output cell and touching nothing else.
#[verifier::loop_isolation(false)]
pub(crate) fn kernel_at(
    n: usize,
    m: usize,
    p: usize,
    a: &Vec<i64>,
    a_off: usize,
    b: &Vec<i64>,
    b_off: usize,
    out: &mut Vec<i64>,
    out_off: usize,
)
    requires
        m <= DIM_LIMIT,
        elems_bounded(a@),
        elems_bounded(b@),
        a_off + n * m <= a@.len(),
        b_off + m * p <= b@.len(),
        out_off + n * p <= old(out)@.len(),
    ensures
        final(out)@.len() == old(out)@.len(),
        seq_is_mm(
            final(out)@.subrange(out_off as int, out_off + n * p),
            a@.subrange(a_off as int, a_off + n * m),
            b@.subrange(b_off as int, b_off + m * p),
            n as int,
            m as int,
            p as int,
        ),
        forall|k: int|
            0 <= k < old(out)@.len() && !(out_off <= k < out_off + n * p) ==> final(out)@[k] == old(
                out,
            )@[k],
{
    let _alen = a.len();
    let _blen = b.len();
    let _olen = out.len();
    let ghost asub = a@.subrange(a_off as int, a_off + n * m);
    let ghost bsub = b@.subrange(b_off as int, b_off + m * p);
    proof {
        assert forall|x: int| 0 <= x < asub.len() implies -ELEM_LIMIT <= #[trigger] asub[x]
            <= ELEM_LIMIT by {
            assert(asub[x] == a@[a_off + x]);
        }
        assert forall|x: int| 0 <= x < bsub.len() implies -ELEM_LIMIT <= #[trigger] bsub[x]
            <= ELEM_LIMIT by {
            assert(bsub[x] == b@[b_off + x]);
        }
    }
    let mut i: usize = 0;
    while i < n
        invariant
            0 <= i <= n,
            out@.len() == old(out)@.len(),
            forall|i2: int, j2: int|
                0 <= i2 < i && 0 <= j2 < p ==> out@[out_off + mix(i2, p as int, j2)] as int
                    == #[trigger] mm_cell(asub, bsub, m as int, p as int, i2, j2),
            forall|k: int|
                0 <= k < old(out)@.len() && !(out_off <= k < out_off + n * p) ==> out@[k] == old(
                    out,
                )@[k],
        decreases n - i,
    {
        let mut j: usize = 0;
        while j < p
            invariant
                0 <= i < n,
                0 <= j <= p,
                out@.len() == old(out)@.len(),
                forall|i2: int, j2: int|
                    0 <= i2 < i && 0 <= j2 < p ==> out@[out_off + mix(i2, p as int, j2)] as int
                        == #[trigger] mm_cell(asub, bsub, m as int, p as int, i2, j2),
                forall|j2: int|
                    0 <= j2 < j ==> out@[out_off + mix(i as int, p as int, j2)] as int
                        == #[trigger] mm_cell(asub, bsub, m as int, p as int, i as int, j2),
                forall|k: int|
                    0 <= k < old(out)@.len() && !(out_off <= k < out_off + n * p) ==> out@[k]
                        == old(out)@[k],
            decreases p - j,
        {
            let mut acc: i64 = 0;
            let mut k: usize = 0;
            while k < m
                invariant
                    0 <= i < n,
                    0 <= j < p,
                    0 <= k <= m,
                    acc as int == mm_cell_partial(
                        asub,
                        bsub,
                        m as int,
                        p as int,
                        i as int,
                        j as int,
                        k as int,
                    ),
                    -((k as int) * (ELEM_LIMIT as int) * (ELEM_LIMIT as int)) <= acc as int <= (
                    k as int) * (ELEM_LIMIT as int) * (ELEM_LIMIT as int),
                decreases m - k,
            {
                proof {
                    assert(0 <= mix(i as int, m as int, k as int) && (mix(
                        i as int,
                        m as int,
                        k as int,
                    ) < n * m)) by (nonlinear_arith)
                        requires
                            0 <= i < n,
                            0 <= k < m,
                    ;
                    assert(0 <= mix(k as int, p as int, j as int) && (mix(
                        k as int,
                        p as int,
                        j as int,
                    ) < m * p)) by (nonlinear_arith)
                        requires
                            0 <= k < m,
                            0 <= j < p,
                    ;
                    assert(asub[mix(i as int, m as int, k as int)] == a@[a_off + mix(
                        i as int,
                        m as int,
                        k as int,
                    )]);
                    assert(bsub[mix(k as int, p as int, j as int)] == b@[b_off + mix(
                        k as int,
                        p as int,
                        j as int,
                    )]);
                    assert((i as int + 1) * (m as int) <= (n as int) * (m as int))
                        by (nonlinear_arith)
                        requires
                            0 <= i < n,
                            m >= 0,
                    ;
                    lemma_cell_partial_bound(
                        asub,
                        bsub,
                        m as int,
                        p as int,
                        i as int,
                        j as int,
                        k as int + 1,
                    );
                    assert((k as int + 1) * (ELEM_LIMIT as int) * (ELEM_LIMIT as int) <= (
                    DIM_LIMIT as int) * (ELEM_LIMIT as int) * (ELEM_LIMIT as int))
                        by (nonlinear_arith)
                        requires
                            0 <= k as int + 1 <= DIM_LIMIT as int,
                    ;
                }
                let av = a[a_off + i * m + k];
                let bv = b[b_off + k * p + j];
                proof {
                    assert(-((ELEM_LIMIT as int) * (ELEM_LIMIT as int)) <= (av as int) * (bv as int)
                        <= (ELEM_LIMIT as int) * (ELEM_LIMIT as int)) by (nonlinear_arith)
                        requires
                            -ELEM_LIMIT <= av <= ELEM_LIMIT,
                            -ELEM_LIMIT <= bv <= ELEM_LIMIT,
                    ;
                    assert((k as int + 1) * (ELEM_LIMIT as int) * (ELEM_LIMIT as int) == (k as int)
                        * (ELEM_LIMIT as int) * (ELEM_LIMIT as int) + (ELEM_LIMIT as int) * (
                    ELEM_LIMIT as int)) by (nonlinear_arith);
                }
                acc = acc + av * bv;
                k = k + 1;
            }
            proof {
                assert(0 <= mix(i as int, p as int, j as int) && mix(i as int, p as int, j as int)
                    < n * p) by (nonlinear_arith)
                    requires
                        0 <= i < n,
                        0 <= j < p,
                ;
                assert forall|i2: int, j2: int|
                    0 <= i2 < i && 0 <= j2 < p implies mix(i2, p as int, j2) != mix(
                    i as int,
                    p as int,
                    j as int,
                ) by {
                    lemma_fundamental_div_mod_converse(mix(i2, p as int, j2), p as int, i2, j2);
                    lemma_fundamental_div_mod_converse(
                        mix(i as int, p as int, j as int),
                        p as int,
                        i as int,
                        j as int,
                    );
                }
            }
            out.set(out_off + i * p + j, acc);
            proof {
                assert(out@[out_off + mix(i as int, p as int, j as int)] == acc);
                assert(acc as int == mm_cell(asub, bsub, m as int, p as int, i as int, j as int));
                assert forall|i2: int, j2: int|
                    0 <= i2 < i && 0 <= j2 < p implies out@[out_off + mix(i2, p as int, j2)] as int
                    == #[trigger] mm_cell(asub, bsub, m as int, p as int, i2, j2) by {
                    assert(0 <= mix(i2, p as int, j2) && mix(i2, p as int, j2) < n * p)
                        by (nonlinear_arith)
                        requires
                            0 <= i2 < n,
                            0 <= j2 < p,
                    ;
                    assert(mix(i2, p as int, j2) != mix(i as int, p as int, j as int));
                }
                assert forall|j2: int|
                    0 <= j2 < j implies out@[out_off + mix(i as int, p as int, j2)] as int
                    == #[trigger] mm_cell(asub, bsub, m as int, p as int, i as int, j2) by {
                    assert(0 <= mix(i as int, p as int, j2) && mix(i as int, p as int, j2) < n * p)
                        by (nonlinear_arith)
                        requires
                            0 <= i < n,
                            0 <= j2 < p,
                    ;
                }
            }
            j = j + 1;
        }
        i = i + 1;
    }
    proof {
        let osub = out@.subrange(out_off as int, out_off + n * p);
        assert forall|i2: int, j2: int|
            0 <= i2 < n && 0 <= j2 < p implies osub[mix(i2, p as int, j2)] as int
            == #[trigger] mm_cell(asub, bsub, m as int, p as int, i2, j2) by {
            assert(0 <= mix(i2, p as int, j2) < n * p) by (nonlinear_arith)
                requires
                    0 <= i2 < n,
                    0 <= j2 < p,
            ;
            assert(osub[mix(i2, p as int, j2)] == out@[out_off + mix(i2, p as int, j2)]);
        }
    }
}

/// Raw dense matrix multiplication: multiplies the `n x m` buffer `a` by the
/// `m1 x p` buffer `b` into `out`, overwriting every output cell; fails with
/// `DimensionMismatch` exactly when the inner dimensions disagree, leaving
/// `out` untouched.
pub fn matmul_impl(
    n: usize,
    m: usize,
    a: &Vec<i64>,
    m1: usize,
    p: usize,
    b: &Vec<i64>,
    out: &mut Vec<i64>,
) -> (r: Result<(), NdArrayError>)
    requires
        m <= DIM_LIMIT,
        elems_bounded(a@),
        elems_bounded(b@),
        n * m == a@.len(),
        m1 * p == b@.len(),
        n * p == old(out)@.len(),
    ensures
        m == m1 ==> r is Ok && seq_is_mm(final(out)@, a@, b@, n as int, m as int, p as int),
        m != m1 ==> r == Err::<(), NdArrayError>(
            NdArrayError::DimensionMismatch { expected: m, actual: m1 },
        ) && final(out)@ == old(out)@,
{
    if m != m1 {
        return Err(NdArrayError::DimensionMismatch { expected: m, actual: m1 });
    }
    kernel_at(n, m, p, a, 0, b, 0, out, 0);
    proof {
        assert(a@.subrange(0, (n * m) as int) =~= a@);
        assert(b@.subrange(0, (m * p) as int) =~= b@);
        assert(out@.subrange(0, (n * p) as int) =~= out@);
    }
    Ok(())
}

/// Runs the kernel once per batch slice: slice `t` of `out` receives the
/// product of the operand slices at `t * a_step` and `t * b_step` (a step of
/// 0 holds that operand fixed across the batch).
#[verifier::loop_isolation(false)]
pub(crate) fn mm_broadcast(
    n: usize,
    m: usize,
    p: usize,
    batch: usize,
    a: &Vec<i64>,
    a_step: usize,
    b: &Vec<i64>,
    b_step: usize,
    out: &mut Vec<i64>,
)
    requires
        batch >= 1,
        m <= DIM_LIMIT,
        elems_bounded(a@),
        elems_bounded(b@),
        (batch - 1) * a_step + n * m <= a@.len(),
        (batch - 1) * b_step + m * p <= b@.len(),
        old(out)@.len() == batch * (n * p),
    ensures
        final(out)@.len() == old(out)@.len(),
        mm_batched(
            final(out)@,
            a@,
            b@,
            n as int,
            m as int,
            p as int,
            batch as int,
            a_step as int,
            b_step as int,
        ),
{
    let _alen = a.len();
    let _blen = b.len();
    let _olen = out.len();
    proof {
        assert(n * p <= batch * (n * p)) by (nonlinear_arith)
            requires
                batch >= 1,
                n * p >= 0,
        ;
    }
    let csize = n * p;
    let mut t: usize = 0;
    while t < batch
        invariant
            0 <= t <= batch,
            out@.len() == old(out)@.len(),
            forall|t2: int|
                0 <= t2 < t ==> #[trigger] mm_chunk_ok(
                    out@,
                    a@,
                    b@,
                    n as int,
                    m as int,
                    p as int,
                    a_step as int,
                    b_step as int,
                    t2,
                ),
        decreases batch - t,
    {
        proof {
            assert((t as int) * (a_step as int) <= ((batch - 1) as int) * (a_step as int) && (
            t as int) * (b_step as int) <= ((batch - 1) as int) * (b_step as int) && (t as int) * (
            csize as int) + csize <= (batch as int) * (csize as int)) by (nonlinear_arith)
                requires
                    0 <= t < batch,
                    a_step >= 0,
                    b_step >= 0,
                    csize >= 0,
            ;
        }
        let ghost prev = out@;
        kernel_at(n, m, p, a, t * a_step, b, t * b_step, out, t * csize);
        proof {
            assert(mm_chunk_ok(
                out@,
                a@,
                b@,
                n as int,
                m as int,
                p as int,
                a_step as int,
                b_step as int,
                t as int,
            ));
            assert forall|t2: int| 0 <= t2 < t implies #[trigger] mm_chunk_ok(
                out@,
                a@,
                b@,
                n as int,
                m as int,
                p as int,
                a_step as int,
                b_step as int,
                t2,
            ) by {
                assert((t2 + 1) * (csize as int) <= (t as int) * (csize as int))
                    by (nonlinear_arith)
                    requires
                        0 <= t2 < t,
                        csize >= 0,
                ;
                assert(t2 * (csize as int) >= 0 && t2 * (csize as int) + csize <= (t as int) * (
                csize as int)) by (nonlinear_arith)
                    requires
                        0 <= t2 < t,
                        csize >= 0,
                ;
                let lo = t2 * (csize as int);
                assert forall|k2: int| lo <= k2 < lo + csize implies #[trigger] out@[k2]
                    == prev[k2] by {
                    assert(k2 < (t as int) * (csize as int));
                }
                assert(chunk(out@, (n * p) as int, t2) =~= chunk(prev, (n * p) as int, t2));
                assert(mm_chunk_ok(
                    prev,
                    a@,
                    b@,
                    n as int,
                    m as int,
                    p as int,
                    a_step as int,
                    b_step as int,
                    t2,
                ));
            }
        }
        t = t + 1;
    }
}

/// `dst` is the transpose of the `n x m` row-major matrix `src`: reading the
/// `m x n` result at flat position `k` yields `src[(k % n) * m + k / n]`.
pub open spec fn is_transpose(src: Seq<i64>, dst: Seq<i64>, n: int, m: int) -> bool {
    &&& src.len() == n * m
    &&& dst.len() == n * m
    &&& forall|k: int| 0 <= k < n * m ==> #[trigger] dst[k] == src[mix(k % n, m, k / n)]
}

/// Transposes the `n x m` row-major matrix `inp` into `out` (which then reads
/// as an `m x n` matrix).
#[verifier::loop_isolation(false)]
pub fn transpose_mat(n: usize, m: usize, inp: &Vec<i64>, out: &mut Vec<i64>)
    requires
        n >= 1,
        m >= 1,
        n * m == inp@.len(),
        old(out)@.len() == n * m,
    ensures
        final(out)@.len() == n * m,
        is_transpose(inp@, final(out)@, n as int, m as int),
{
    let _ilen = inp.len();
    let _olen = out.len();
    let mut i: usize = 0;
    while i < n
        invariant
            0 <= i <= n,
            out@.len() == n * m,
            forall|i2: int, j2: int|
                0 <= i2 < i && 0 <= j2 < m ==> out@[#[trigger] mix(j2, n as int, i2)] == inp@[mix(
                    i2,
                    m as int,
                    j2,
                )],
        decreases n - i,
    {
        let mut j: usize = 0;
        while j < m
            invariant
                0 <= i < n,
                0 <= j <= m,
                out@.len() == n * m,
                forall|i2: int, j2: int|
                    0 <= i2 < i && 0 <= j2 < m ==> out@[#[trigger] mix(j2, n as int, i2)]
                        == inp@[mix(i2, m as int, j2)],
                forall|j2: int|
                    0 <= j2 < j ==> out@[#[trigger] mix(j2, n as int, i as int)] == inp@[mix(
                        i as int,
                        m as int,
                        j2,
                    )],
            decreases m - j,
        {
            proof {
                assert(0 <= mix(i as int, m as int, j as int) && mix(i as int, m as int, j as int)
                    < n * m) by (nonlinear_arith)
                    requires
                        0 <= i < n,
                        0 <= j < m,
                ;
                assert(0 <= mix(j as int, n as int, i as int) && mix(j as int, n as int, i as int)
                    < n * m) by (nonlinear_arith)
                    requires
                        0 <= i < n,
                        0 <= j < m,
                ;
                assert forall|i2: int, j2: int|
                    0 <= i2 < n && 0 <= j2 < m && !(i2 == i && j2 == j) implies mix(
                    j2,
                    n as int,
                    i2,
                ) != mix(j as int, n as int, i as int) by {
                    lemma_fundamental_div_mod_converse(mix(j2, n as int, i2), n as int, j2, i2);
                    lemma_fundamental_div_mod_converse(
                        mix(j as int, n as int, i as int),
                        n as int,
                        j as int,
                        i as int,
                    );
                }
            }
            out.set(j * n + i, inp[i * m + j]);
            proof {
                assert(out@[mix(j as int, n as int, i as int)] == inp@[mix(
                    i as int,
                    m as int,
                    j as int,
                )]);
                assert forall|i2: int, j2: int|
                    0 <= i2 < i && 0 <= j2 < m implies out@[#[trigger] mix(j2, n as int, i2)]
                    == inp@[mix(i2, m as int, j2)] by {
                    assert(0 <= mix(j2, n as int, i2) && mix(j2, n as int, i2) < n * m)
                        by (nonlinear_arith)
                        requires
                            0 <= i2 < n,
                            0 <= j2 < m,
                    ;
                    assert(mix(j2, n as int, i2) != mix(j as int, n as int, i as int));
                }
                assert forall|j2: int|
                    0 <= j2 < j implies out@[#[trigger] mix(j2, n as int, i as int)] == inp@[mix(
                    i as int,
                    m as int,
                    j2,
                )] by {
                    assert(0 <= mix(j2, n as int, i as int) && mix(j2, n as int, i as int) < n * m)
                        by (nonlinear_arith)
                        requires
                            0 <= i < n,
                            0 <= j2 < m,
                    ;
                    assert(mix(j2, n as int, i as int) != mix(j as int, n as int, i as int));
                }
            }
            j = j + 1;
        }
        i = i + 1;
    }
    proof {
        assert forall|k: int| 0 <= k < n * m implies #[trigger] out@[k] == inp@[mix(
            k % (n as int),
            m as int,
            k / (n as int),
        )] by {
            let ni = n as int;
            let i2 = k % ni;
            let j2 = k / ni;
            lemma_fundamental_div_mod(k, ni);
            lemma_mod_bound(k, ni);
            assert(k == ni * j2 + i2);
            assert(0 <= j2 < m) by (nonlinear_arith)
                requires
                    k == ni * j2 + i2,
                    0 <= k < ni * m,
                    0 <= i2 < ni,
            ;
            assert(mix(j2, ni, i2) == k) by (nonlinear_arith)
                requires
                    k == ni * j2 + i2,
            ;
        }
    }
}

/// Round-trip law: transposing an `n x m` matrix and transposing the result
/// again gives back the original matrix.
pub proof fn lemma_transpose_involution(a: Seq<i64>, b: Seq<i64>, c: Seq<i64>, n: int, m: int)
    requires
        n >= 1,
        m >= 1,
        is_transpose(a, b, n, m),
        is_transpose(b, c, m, n),
    ensures
        c == a,
{
    assert(m * n == n * m) by (nonlinear_arith);
    assert forall|k: int| 0 <= k < n * m implies c[k] == a[k] by {
        let j = k % m;
        let i = k / m;
        lemma_fundamental_div_mod(k, m);
        lemma_mod_bound(k, m);
        assert(k == m * i + j);
        assert(0 <= i < n) by (nonlinear_arith)
            requires
                k == m * i + j,
                0 <= k < n * m,
                0 <= j < m,
        ;
        // c reads b at x = j * n + i
        let x = mix(j, n, i);
        assert(c[k] == b[x]);
        assert(0 <= x < n * m) by (nonlinear_arith)
            requires
                x == j * n + i,
                0 <= j < m,
                0 <= i < n,
        ;
        // b at x reads a at (x % n) * m + x / n, and x = j * n + i has
        // quotient j and remainder i when divided by n
        lemma_fundamental_div_mod_converse(x, n, j, i);
        assert(b[x] == a[mix(x % n, m, x / n)]);
        assert(mix(i, m, j) == k) by (nonlinear_arith)
            requires
                k == m * i + j,
        ;
    }
    assert(c =~= a);
}

/// Rows of the trailing matrix dimensions (matrices and tensors).
pub open spec fn rows_of(s: &Shape) -> usize {
    match s {
        Shape::Matrix(n, _) => *n,
        Shape::Tensor(d) => d@[d@.len() - 2],
        _ => 0,
    }
}

/// Columns of the trailing matrix dimensions (matrices and tensors).
pub open spec fn cols_of(s: &Shape) -> usize {
    match s {
        Shape::Matrix(_, m) => *m,
        Shape::Tensor(d) => d@[d@.len() - 1],
        _ => 0,
    }
}

/// The shape is a vector of length `n`.
pub open spec fn is_vector(s: &Shape, n: nat) -> bool {
    match s {
        Shape::Vector(x) => *x as nat == n,
        _ => false,
    }
}

/// The shape is an `r x c` matrix.
pub open spec fn is_matrix(s: &Shape, r: nat, c: nat) -> bool {
    match s {
        Shape::Matrix(x, y) => *x as nat == r && *y as nat == c,
        _ => false,
    }
}

/// The shape is a three-dimensional tensor `[b, r, c]`.
pub open spec fn is_tensor3(s: &Shape, b: nat, r: nat, c: nat) -> bool {
    match s {
        Shape::Tensor(d) => d@.len() == 3 && d@[0] as nat == b && d@[1] as nat == r && d@[2] as nat
            == c,
        _ => false,
    }
}

/// The shape pair is accepted by the broadcasting matmul dispatcher.
pub open spec fn mm_ok(a: &Shape, b: &Shape) -> bool {
    match (a, b) {
        (Shape::Scalar, _) => false,
        (_, Shape::Scalar) => false,
        (Shape::Vector(l), Shape::Vector(l2)) => l == l2,
        (Shape::Vector(l), Shape::Matrix(n2, _)) => l == n2,
        (Shape::Matrix(_, m1), Shape::Vector(l)) => m1 == l,
        (Shape::Matrix(_, m1), Shape::Matrix(n2, _)) => m1 == n2,
        (Shape::Vector(l), Shape::Tensor(_)) => cols_of(b) == *l && rows_of(b) == *l,
        (Shape::Tensor(_), Shape::Vector(l)) => rows_of(a) == *l && cols_of(a) == *l,
        (Shape::Matrix(_, m1), Shape::Tensor(_)) => rows_of(b) == *m1,
        (Shape::Tensor(_), Shape::Matrix(n2, _)) => cols_of(a) == *n2,
        (Shape::Tensor(_), Shape::Tensor(_)) => a.spec_batch() == b.spec_batch() && cols_of(a)
            == rows_of(b),
    }
}

/// The `(expected, actual)` pair a failing non-scalar matmul reports.
pub open spec fn mm_mismatch(a: &Shape, b: &Shape) -> (usize, usize) {
    match (a, b) {
        (Shape::Vector(l), Shape::Vector(l2)) => (*l, *l2),
        (Shape::Vector(l), Shape::Matrix(n2, _)) => (*l, *n2),
        (Shape::Matrix(_, m1), Shape::Vector(l)) => (*m1, *l),
        (Shape::Matrix(_, m1), Shape::Matrix(n2, _)) => (*m1, *n2),
        (Shape::Vector(l), Shape::Tensor(_)) => if cols_of(b) != *l {
            (*l, cols_of(b))
        } else {
            (*l, rows_of(b))
        },
        (Shape::Tensor(_), Shape::Vector(l)) => if rows_of(a) != *l {
            (rows_of(a), *l)
        } else {
            (*l, cols_of(a))
        },
        (Shape::Matrix(_, m1), Shape::Tensor(_)) => (*m1, rows_of(b)),
        (Shape::Tensor(_), Shape::Matrix(n2, _)) => (cols_of(a), *n2),
        (Shape::Tensor(_), Shape::Tensor(_)) => if a.spec_batch() != b.spec_batch() {
            (a.spec_batch() as usize, b.spec_batch() as usize)
        } else {
            (cols_of(a), rows_of(b))
        },
        _ => (0, 0),
    }
}

/// The inner dimension the kernel contracts over for this shape pair.
pub open spec fn mm_inner(a: &Shape, b: &Shape) -> usize {
    match (a, b) {
        (Shape::Vector(l), _) => *l,
        (Shape::Matrix(_, m1), _) => *m1,
        (Shape::Tensor(_), Shape::Vector(l)) => *l,
        (Shape::Tensor(_), _) => cols_of(a),
        _ => 0,
    }
}

/// Element count of the result of a successful matmul.
pub open spec fn mm_out_span(a: &Shape, b: &Shape) -> nat {
    match (a, b) {
        (Shape::Vector(_), Shape::Vector(_)) => 1,
        (Shape::Vector(_), Shape::Matrix(_, m2)) => *m2 as nat,
        (Shape::Matrix(n1, _), Shape::Vector(_)) => *n1 as nat,
        (Shape::Matrix(n1, _), Shape::Matrix(_, m2)) => (*n1 as nat) * (*m2 as nat),
        (Shape::Vector(l), Shape::Tensor(_)) => b.spec_batch() * (*l as nat),
        (Shape::Tensor(_), Shape::Vector(l)) => a.spec_batch() * (*l as nat),
        (Shape::Matrix(n1, _), Shape::Tensor(_)) => b.spec_batch() * ((*n1 as nat) * (cols_of(
            b,
        ) as nat)),
        (Shape::Tensor(_), Shape::Matrix(_, m2)) => a.spec_batch() * ((rows_of(a) as nat) * (
        *m2 as nat)),
        (Shape::Tensor(_), Shape::Tensor(_)) => a.spec_batch() * ((rows_of(a) as nat) * (cols_of(
            b,
        ) as nat)),
        _ => 0,
    }
}

/// The result shape of a successful matmul, per the broadcasting table.
pub open spec fn mm_shape_ok(a: &Shape, b: &Shape, s: &Shape) -> bool {
    match (a, b) {
        (Shape::Vector(_), Shape::Vector(_)) => s is Scalar,
        (Shape::Vector(_), Shape::Matrix(_, m2)) => is_vector(s, *m2 as nat),
        (Shape::Matrix(n1, _), Shape::Vector(_)) => is_vector(s, *n1 as nat),
        (Shape::Matrix(n1, _), Shape::Matrix(_, m2)) => is_matrix(s, *n1 as nat, *m2 as nat),
        (Shape::Vector(l), Shape::Tensor(_)) => is_matrix(s, b.spec_batch(), *l as nat),
        (Shape::Tensor(_), Shape::Vector(l)) => is_matrix(s, a.spec_batch(), *l as nat),
        (Shape::Matrix(n1, _), Shape::Tensor(_)) => is_tensor3(
            s,
            b.spec_batch(),
            *n1 as nat,
            cols_of(b) as nat,
        ),
        (Shape::Tensor(_), Shape::Matrix(_, m2)) => is_tensor3(
            s,
            a.spec_batch(),
            rows_of(a) as nat,
            *m2 as nat,
        ),
        (Shape::Tensor(_), Shape::Tensor(_)) => is_tensor3(
            s,
            a.spec_batch(),
            rows_of(a) as nat,
            cols_of(b) as nat,
        ),
        _ => false,
    }
}

/// The contents of a successful matmul: for every shape pair, the output
/// buffer holds the per-slice kernel products the broadcasting table calls
/// for.
pub open spec fn mm_values_ok(x: &NdArray, y: &NdArray, o: &NdArray) -> bool {
    match (&x.shape, &y.shape) {
        (Shape::Vector(l), Shape::Vector(_)) => seq_is_mm(
            o.values@,
            x.values@,
            y.values@,
            1,
            *l as int,
            1,
        ),
        (Shape::Vector(l), Shape::Matrix(_, m2)) => seq_is_mm(
            o.values@,
            x.values@,
            y.values@,
            1,
            *l as int,
            *m2 as int,
        ),
        (Shape::Matrix(n1, m1), Shape::Vector(_)) => seq_is_mm(
            o.values@,
            x.values@,
            y.values@,
            *n1 as int,
            *m1 as int,
            1,
        ),
        (Shape::Matrix(n1, m1), Shape::Matrix(_, m2)) => seq_is_mm(
            o.values@,
            x.values@,
            y.values@,
            *n1 as int,
            *m1 as int,
            *m2 as int,
        ),
        (Shape::Vector(l), Shape::Tensor(_)) => mm_batched(
            o.values@,
            x.values@,
            y.values@,
            1,
            *l as int,
            *l as int,
            y.shape.spec_batch() as int,
            0,
            (*l as int) * (*l as int),
        ),
        (Shape::Tensor(_), Shape::Vector(l)) => mm_batched(
            o.values@,
            x.values@,
            y.values@,
            *l as int,
            *l as int,
            1,
            x.shape.spec_batch() as int,
            (*l as int) * (*l as int),
            0,
        ),
        (Shape::Matrix(n1, m1), Shape::Tensor(_)) => mm_batched(
            o.values@,
            x.values@,
            y.values@,
            *n1 as int,
            *m1 as int,
            cols_of(&y.shape) as int,
            y.shape.spec_batch() as int,
            0,
            (rows_of(&y.shape) as int) * (cols_of(&y.shape) as int),
        ),
        (Shape::Tensor(_), Shape::Matrix(_, m2)) => mm_batched(
            o.values@,
            x.values@,
            y.values@,
            rows_of(&x.shape) as int,
            cols_of(&x.shape) as int,
            *m2 as int,
            x.shape.spec_batch() as int,
            (rows_of(&x.shape) as int) * (cols_of(&x.shape) as int),
            0,
        ),
        (Shape::Tensor(_), Shape::Tensor(_)) => mm_batched(
            o.values@,
            x.values@,
            y.values@,
            rows_of(&x.shape) as int,
            cols_of(&x.shape) as int,
            cols_of(&y.shape) as int,
            x.shape.spec_batch() as int,
            (rows_of(&x.shape) as int) * (cols_of(&x.shape) as int),
            (rows_of(&y.shape) as int) * (cols_of(&y.shape) as int),
        ),
        _ => false,
    }
}

/// The error a failing matmul reports: `BinaryOpNotSupported` carrying both
/// shapes when an operand is a scalar, `DimensionMismatch` with the
/// documented pair otherwise.
pub open spec fn mm_err_ok(a: &Shape, b: &Shape, e: &NdArrayError) -> bool {
    if (a is Scalar) || (b is Scalar) {
        match e {
            NdArrayError::BinaryOpNotSupported { shape_a, shape_b } => same_shape(shape_a, a)
                && same_shape(shape_b, b),
            _ => false,
        }
    } else {
        match e {
            NdArrayError::DimensionMismatch { expected, actual } => (*expected, *actual)
                == mm_mismatch(a, b),
            _ => false,
        }
    }
}

/// The product of a three-dimensional shape, unfolded.
proof fn lemma_prod3(d: Seq<usize>)
    requires
        d.len() == 3,
    ensures
        prod(d) == (d[0] as nat) * ((d[1] as nat) * (d[2] as nat)),
{
    let d1 = d.drop_first();
    let d2 = d1.drop_first();
    let d3 = d2.drop_first();
    assert(d3 =~= Seq::<usize>::empty());
    assert(prod(d3) == 1);
    assert(prod(d2) == (d2[0] as nat) * prod(d3));
    assert(prod(d1) == (d1[0] as nat) * prod(d2));
    assert(prod(d) == (d[0] as nat) * prod(d1));
    assert((d[2] as nat) * 1 == d[2] as nat);
}

/// Layout facts of a valid tensor whose buffer holds `len` elements: the
/// batch count is positive and `len` is batch times slice size.
proof fn lemma_tensor_layout(s: &Shape, len: int)
    requires
        s is Tensor,
        s.wf(),
        len == s.spec_span(),
    ensures
        s.spec_batch() >= 1,
        rows_of(s) >= 1,
        cols_of(s) >= 1,
        len == (s.spec_batch() as int) * ((rows_of(s) as int) * (cols_of(s) as int)),
        1 <= (rows_of(s) as int) * (cols_of(s) as int) <= len,
{
    s.lemma_tensor_split();
    match s {
        Shape::Tensor(d) => {
            assert(d@[d@.len() - 2] >= 1 && d@[d@.len() - 1] >= 1);
            assert(s.spec_last_two() == Some((d@[d@.len() - 2], d@[d@.len() - 1])));
        },
        _ => {},
    }
    let bt = s.spec_batch() as int;
    let r = rows_of(s) as int;
    let c = cols_of(s) as int;
    assert(1 <= r * c && r * c <= bt * (r * c)) by (nonlinear_arith)
        requires
            r >= 1,
            c >= 1,
            bt >= 1,
    ;
}

impl NdArray {
    /// Broadcasting matrix multiplication: resolves the shape pair of the two
    /// operands into kernel invocations per the broadcasting table, writing
    /// the result (shape and contents) into `out`. Scalars are rejected with
    /// `BinaryOpNotSupported`; inner-dimension and batch-count mismatches
    /// with `DimensionMismatch`; a failing call leaves `out` untouched.
    pub fn matmul(&self, other: &NdArray, out: &mut NdArray) -> (r: Result<(), NdArrayError>)
        requires
            self.wf(),
            other.wf(),
            mm_ok(&self.shape, &other.shape) ==> elems_bounded(self.values@) && elems_bounded(
                other.values@,
            ),
            mm_ok(&self.shape, &other.shape) ==> mm_inner(&self.shape, &other.shape) <= DIM_LIMIT,
            mm_ok(&self.shape, &other.shape) ==> mm_out_span(&self.shape, &other.shape)
                <= usize::MAX,
        ensures
            r is Ok <==> mm_ok(&self.shape, &other.shape),
            r is Ok ==> final(out).wf() && mm_shape_ok(&self.shape, &other.shape, &final(out).shape)
                && mm_values_ok(self, other, final(out)),
            r is Err ==> *final(out) == *old(out),
            r matches Err(e) ==> mm_err_ok(&self.shape, &other.shape, &e),
    {
        let _slen = self.values.len();
        let _olen = other.values.len();
        match (&self.shape, &other.shape) {
            (Shape::Scalar, _) | (_, Shape::Scalar) => Err(
                NdArrayError::BinaryOpNotSupported {
                    shape_a: self.shape.clone(),
                    shape_b: other.shape.clone(),
                },
            ),
            (Shape::Vector(l), Shape::Vector(l2)) => {
                if *l != *l2 {
                    return Err(NdArrayError::DimensionMismatch { expected: *l, actual: *l2 });
                }
                let mut buf = zero_vec(1);
                kernel_at(1, *l, 1, &self.values, 0, &other.values, 0, &mut buf, 0);
                proof {
                    assert(self.values@.subrange(0, (1 * *l) as int) =~= self.values@);
                    assert(other.values@.subrange(0, (*l * 1) as int) =~= other.values@);
                    assert(buf@.subrange(0, (1 * 1) as int) =~= buf@);
                }
                out.shape = Shape::Scalar;
                out.values = buf;
                Ok(())
            },
            (Shape::Vector(l), Shape::Matrix(n2, m2)) => {
                if *l != *n2 {
                    return Err(NdArrayError::DimensionMismatch { expected: *l, actual: *n2 });
                }
                let mut buf = zero_vec(*m2);
                kernel_at(1, *l, *m2, &self.values, 0, &other.values, 0, &mut buf, 0);
                proof {
                    assert(self.values@.subrange(0, (1 * *l) as int) =~= self.values@);
                    assert(other.values@.subrange(0, (*l * *m2) as int) =~= other.values@);
                    assert(buf@.subrange(0, (1 * *m2) as int) =~= buf@);
                }
                out.shape = Shape::Vector(*m2);
                out.values = buf;
                Ok(())
            },
            (Shape::Matrix(n1, m1), Shape::Vector(l)) => {
                if *m1 != *l {
                    return Err(NdArrayError::DimensionMismatch { expected: *m1, actual: *l });
                }
                let mut buf = zero_vec(*n1);
                kernel_at(*n1, *m1, 1, &self.values, 0, &other.values, 0, &mut buf, 0);
                proof {
                    assert(self.values@.subrange(0, (*n1 * *m1) as int) =~= self.values@);
                    assert(other.values@.subrange(0, (*m1 * 1) as int) =~= other.values@);
                    assert(buf@.subrange(0, (*n1 * 1) as int) =~= buf@);
                }
                out.shape = Shape::Vector(*n1);
                out.values = buf;
                Ok(())
            },
            (Shape::Matrix(n1, m1), Shape::Matrix(n2, m2)) => {
                if *m1 != *n2 {
                    return Err(NdArrayError::DimensionMismatch { expected: *m1, actual: *n2 });
                }
                let total = *n1 * *m2;
                let mut buf = zero_vec(total);
                kernel_at(*n1, *m1, *m2, &self.values, 0, &other.values, 0, &mut buf, 0);
                proof {
                    assert(self.values@.subrange(0, (*n1 * *m1) as int) =~= self.values@);
                    assert(other.values@.subrange(0, (*m1 * *m2) as int) =~= other.values@);
                    assert(buf@.subrange(0, (*n1 * *m2) as int) =~= buf@);
                }
                out.shape = Shape::Matrix(*n1, *m2);
                out.values = buf;
                Ok(())
            },
            (Shape::Vector(l), Shape::Tensor(_)) => {
                proof {
                    lemma_tensor_layout(&other.shape, other.values@.len() as int);
                }
                let (rows, cols) = match other.shape.last_two() {
                    Some(rc) => rc,
                    None => {
                        proof {
                            assert(false);
                        }
                        (0, 0)
                    },
                };
                if cols != *l {
                    return Err(NdArrayError::DimensionMismatch { expected: *l, actual: cols });
                }
                if rows != *l {
                    return Err(NdArrayError::DimensionMismatch { expected: *l, actual: rows });
                }
                let slice = rows * cols;
                let batch = other.values.len() / slice;
                proof {
                    lemma_div_by_multiple(other.shape.spec_batch() as int, slice as int);
                    assert(batch == other.shape.spec_batch());
                    assert(((batch - 1) as int) * (slice as int) + (slice as int) == (batch as int)
                        * (slice as int)) by (nonlinear_arith)
                        requires
                            batch >= 1,
                    ;
                }
                let total = batch * *l;
                let mut buf = zero_vec(total);
                proof {
                    assert((batch as int) * ((1 * *l) as int) == total) by (nonlinear_arith)
                        requires
                            total == (batch as int) * (*l as int),
                    ;
                }
                mm_broadcast(1, *l, *l, batch, &self.values, 0, &other.values, slice, &mut buf);
                out.shape = Shape::Matrix(batch, *l);
                out.values = buf;
                Ok(())
            },
            (Shape::Tensor(_), Shape::Vector(l)) => {
                proof {
                    lemma_tensor_layout(&self.shape, self.values@.len() as int);
                }
                let (rows, cols) = match self.shape.last_two() {
                    Some(rc) => rc,
                    None => {
                        proof {
                            assert(false);
                        }
                        (0, 0)
                    },
                };
                if rows != *l {
                    return Err(NdArrayError::DimensionMismatch { expected: rows, actual: *l });
                }
                if cols != *l {
                    return Err(NdArrayError::DimensionMismatch { expected: *l, actual: cols });
                }
                let slice = rows * cols;
                let batch = self.values.len() / slice;
                proof {
                    lemma_div_by_multiple(self.shape.spec_batch() as int, slice as int);
                    assert(batch == self.shape.spec_batch());
                    assert(((batch - 1) as int) * (slice as int) + (slice as int) == (batch as int)
                        * (slice as int)) by (nonlinear_arith)
                        requires
                            batch >= 1,
                    ;
                }
                let total = batch * *l;
                let mut buf = zero_vec(total);
                proof {
                    assert((batch as int) * ((*l * 1) as int) == total) by (nonlinear_arith)
                        requires
                            total == (batch as int) * (*l as int),
                    ;
                }
                mm_broadcast(*l, *l, 1, batch, &self.values, slice, &other.values, 0, &mut buf);
                out.shape = Shape::Matrix(batch, *l);
                out.values = buf;
                Ok(())
            },
            (Shape::Matrix(n1, m1), Shape::Tensor(_)) => {
                proof {
                    lemma_tensor_layout(&other.shape, other.values@.len() as int);
                }
                let (rows, cols) = match other.shape.last_two() {
                    Some(rc) => rc,
                    None => {
                        proof {
                            assert(false);
                        }
                        (0, 0)
                    },
                };
                if *m1 != rows {
                    return Err(NdArrayError::DimensionMismatch { expected: *m1, actual: rows });
                }
                let slice = rows * cols;
                let batch = other.values.len() / slice;
                proof {
                    lemma_div_by_multiple(other.shape.spec_batch() as int, slice as int);
                    assert(batch == other.shape.spec_batch());
                    assert((*n1 as int) * (cols as int) <= (batch as int) * ((*n1 as int) * (
                    cols as int)) && ((batch - 1) as int) * (slice as int) + (*m1 as int) * (
                    cols as int) == (batch as int) * (slice as int)) by (nonlinear_arith)
                        requires
                            batch >= 1,
                            *n1 >= 0,
                            cols >= 0,
                            *m1 == rows,
                            slice == (rows as int) * (cols as int),
                    ;
                }
                let osz = *n1 * cols;
                let total = batch * osz;
                let mut buf = zero_vec(total);
                mm_broadcast(
                    *n1,
                    *m1,
                    cols,
                    batch,
                    &self.values,
                    0,
                    &other.values,
                    slice,
                    &mut buf,
                );
                let mut dv: Vec<usize> = Vec::new();
                dv.push(batch);
                dv.push(*n1);
                dv.push(cols);
                proof {
                    assert(dv@ =~= seq![batch, *n1, cols]);
                    lemma_prod3(dv@);
                }
                out.shape = Shape::Tensor(dv);
                out.values = buf;
                Ok(())
            },
            (Shape::Tensor(_), Shape::Matrix(n2, m2)) => {
                proof {
                    lemma_tensor_layout(&self.shape, self.values@.len() as int);
                }
                let (rows, cols) = match self.shape.last_two() {
                    Some(rc) => rc,
                    None => {
                        proof {
                            assert(false);
                        }
                        (0, 0)
                    },
                };
                if cols != *n2 {
                    return Err(NdArrayError::DimensionMismatch { expected: cols, actual: *n2 });
                }
                let slice = rows * cols;
                let batch = self.values.len() / slice;
                proof {
                    lemma_div_by_multiple(self.shape.spec_batch() as int, slice as int);
                    assert(batch == self.shape.spec_batch());
                    assert((rows as int) * (*m2 as int) <= (batch as int) * ((rows as int) * (
                    *m2 as int)) && ((batch - 1) as int) * (slice as int) + (rows as int) * (
                    cols as int) == (batch as int) * (slice as int) && (cols as int) * (*m2 as int)
                        <= (*n2 as int) * (*m2 as int)) by (nonlinear_arith)
                        requires
                            batch >= 1,
                            rows >= 0,
                            *m2 >= 0,
                            cols == *n2,
                            slice == (rows as int) * (cols as int),
                    ;
                }
                let osz = rows * *m2;
                let total = batch * osz;
                let mut buf = zero_vec(total);
                mm_broadcast(
                    rows,
                    cols,
                    *m2,
                    batch,
                    &self.values,
                    slice,
                    &other.values,
                    0,
                    &mut buf,
                );
                let mut dv: Vec<usize> = Vec::new();
                dv.push(batch);
                dv.push(rows);
                dv.push(*m2);
                proof {
                    assert(dv@ =~= seq![batch, rows, *m2]);
                    lemma_prod3(dv@);
                }
                out.shape = Shape::Tensor(dv);
                out.values = buf;
                Ok(())
            },
            (Shape::Tensor(_), Shape::Tensor(_)) => {
                proof {
                    lemma_tensor_layout(&self.shape, self.values@.len() as int);
                    lemma_tensor_layout(&other.shape, other.values@.len() as int);
                }
                let (rows1, cols1) = match self.shape.last_two() {
                    Some(rc) => rc,
                    None => {
                        proof {
                            assert(false);
                        }
                        (0, 0)
                    },
                };
                let (rows2, cols2) = match other.shape.last_two() {
                    Some(rc) => rc,
                    None => {
                        proof {
                            assert(false);
                        }
                        (0, 0)
                    },
                };
                let s1 = rows1 * cols1;
                let s2 = rows2 * cols2;
                let batch1 = self.values.len() / s1;
                let batch2 = other.values.len() / s2;
                proof {
                    lemma_div_by_multiple(self.shape.spec_batch() as int, s1 as int);
                    lemma_div_by_multiple(other.shape.spec_batch() as int, s2 as int);
                    assert(batch1 == self.shape.spec_batch());
                    assert(batch2 == other.shape.spec_batch());
                }
                if batch1 != batch2 {
                    return Err(
                        NdArrayError::DimensionMismatch { expected: batch1, actual: batch2 },
                    );
                }
                if cols1 != rows2 {
                    return Err(NdArrayError::DimensionMismatch { expected: cols1, actual: rows2 });
                }
                proof {
                    assert((rows1 as int) * (cols2 as int) <= (batch1 as int) * ((rows1 as int) * (
                    cols2 as int)) && ((batch1 - 1) as int) * (s1 as int) + (rows1 as int) * (
                    cols1 as int) == (batch1 as int) * (s1 as int) && ((batch1 - 1) as int) * (
                    s2 as int) + (cols1 as int) * (cols2 as int) == (batch1 as int) * (s2 as int))
                        by (nonlinear_arith)
                        requires
                            batch1 >= 1,
                            rows1 >= 0,
                            cols2 >= 0,
                            s1 == (rows1 as int) * (cols1 as int),
                            s2 == (rows2 as int) * (cols2 as int),
                            cols1 == rows2,
                    ;
                }
                let osz = rows1 * cols2;
                let total = batch1 * osz;
                let mut buf = zero_vec(total);
                mm_broadcast(
                    rows1,
                    cols1,
                    cols2,
                    batch1,
                    &self.values,
                    s1,
                    &other.values,
                    s2,
                    &mut buf,
                );
                let mut dv: Vec<usize> = Vec::new();
                dv.push(batch1);
                dv.push(rows1);
                dv.push(cols2);
                proof {
                    assert(dv@ =~= seq![batch1, rows1, cols2]);
                    lemma_prod3(dv@);
                }
                out.shape = Shape::Tensor(dv);
                out.values = buf;
                Ok(())
            },
        }
    }
}

} // verus!
