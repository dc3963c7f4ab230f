//! The general properties of the library, stated and proved over the
//! mathematical models.
//!
//! Sparse-to-dense exactness holds for every scalar.  The algebraic laws
//! about factorization and substitution cannot hold exactly of rounding
//! arithmetic, so each one assumes, as explicit hypotheses, the identities
//! of exact arithmetic that it rests on; for rounding scalars the same
//! statements hold only approximately and are exercised by tests instead.

use crate::dense::{dot, gm_matmul, gm_transpose, lemma_matmul_props, lemma_transpose_props};
use crate::model::{lemma_cells_eq, GMat};
use crate::norms::{en_fold, mn_fold, sp_euclidean_norm, sp_max_norm};
use crate::scalar::Scalar;
use crate::sparse::{csr_cell, csr_cell_upto, gm_of_csr, lemma_of_csr_props, lemma_row_ptr_mono,
    CsrModel};
use crate::triangular::{bs_cell, bs_sum, chol_cell, chol_diag, chol_sum, fs_cell, fs_sum,
    gm_backward, gm_chol, gm_forward, lemma_backward_props, lemma_chol_props,
    lemma_forward_props};
use vstd::prelude::*;

verus! {

/// Applying the first `k` stored entries of a row leaves a cell zero when
/// none of them names its column.
proof fn lemma_csr_upto_zero<T: Scalar>(c: CsrModel<T>, r: int, col: int, k: int)
    requires
        forall|idx: int|
            c.row_ptr[r] <= idx < c.row_ptr[r] + k ==> #[trigger] c.col_indices[idx] != col,
    ensures
        csr_cell_upto(c, r, col, k) == T::sp_zero(),
    decreases k,
{
    if k > 0 {
        lemma_csr_upto_zero(c, r, col, k - 1);
    }
}

/// Applying the first `k` stored entries of a row gives a cell the value of
/// its unique entry once that entry is among them.
proof fn lemma_csr_upto_hit<T: Scalar>(c: CsrModel<T>, r: int, hit: int, k: int)
    requires
        c.row_ptr[r] <= hit < c.row_ptr[r] + k,
        forall|idx: int|
            c.row_ptr[r] <= idx < c.row_ptr[r] + k && idx != hit ==> #[trigger] c.col_indices[idx]
                != c.col_indices[hit],
    ensures
        csr_cell_upto(c, r, c.col_indices[hit], k) == c.values[hit],
    decreases k,
{
    if c.row_ptr[r] + k - 1 > hit {
        lemma_csr_upto_hit(c, r, hit, k - 1);
    }
}

/// Sparse-to-dense exactness, absent entries: a cell of the dense form is
/// zero when no stored entry of its row names its column.
pub proof fn lemma_to_dense_unlisted<T: Scalar>(c: CsrModel<T>, r: int, col: int)
    requires
        c.wf(),
        0 <= r < c.rows,
        0 <= col < c.cols,
        forall|idx: int|
            c.row_ptr[r] <= idx < c.row_ptr[r + 1] ==> #[trigger] c.col_indices[idx] != col,
    ensures
        gm_of_csr(c).cell(r, col) == T::sp_zero(),
{
    lemma_of_csr_props(c);
    let k = c.row_ptr[r + 1] - c.row_ptr[r];
    assert forall|idx: int|
        c.row_ptr[r] <= idx < c.row_ptr[r] + k implies #[trigger] c.col_indices[idx] != col by {}
    lemma_csr_upto_zero(c, r, col, k);
    assert(csr_cell(c, r, col) == csr_cell_upto(c, r, col, k));
    assert(gm_of_csr(c).cell(r, col) == csr_cell(c, r, col));
}

/// Sparse-to-dense exactness, present entries: a cell of the dense form is
/// exactly the value stored for it, when exactly one entry of its row names
/// its column.
pub proof fn lemma_to_dense_listed<T: Scalar>(c: CsrModel<T>, r: int, hit: int)
    requires
        c.wf(),
        0 <= r < c.rows,
        c.row_ptr[r] <= hit < c.row_ptr[r + 1],
        forall|idx: int|
            c.row_ptr[r] <= idx < c.row_ptr[r + 1] && idx != hit ==> #[trigger] c.col_indices[idx]
                != c.col_indices[hit],
    ensures
        gm_of_csr(c).cell(r, c.col_indices[hit]) == c.values[hit],
{
    lemma_of_csr_props(c);
    lemma_row_ptr_mono(c, 0, r);
    lemma_row_ptr_mono(c, r + 1, c.rows);
    let k = c.row_ptr[r + 1] - c.row_ptr[r];
    let col = c.col_indices[hit];
    assert(0 <= hit < c.nnz);
    assert(0 <= col < c.cols);
    assert forall|idx: int|
        c.row_ptr[r] <= idx < c.row_ptr[r] + k && idx != hit implies #[trigger] c.col_indices[idx]
        != col by {}
    lemma_csr_upto_hit(c, r, hit, k);
    assert(csr_cell(c, r, col) == csr_cell_upto(c, r, col, k));
    assert(gm_of_csr(c).cell(r, col) == csr_cell(c, r, col));
}

/// The identities of a scalar whose zero behaves as an exact additive
/// identity under difference, absolute value, product and square root.
pub open spec fn zero_identities<T: Scalar>() -> bool {
    &&& forall|x: T| #[trigger] x.sp_sub(x) == T::sp_zero()
    &&& T::sp_zero().sp_abs() == T::sp_zero()
    &&& T::sp_zero().sp_mul(T::sp_zero()) == T::sp_zero()
    &&& T::sp_zero().sp_add(T::sp_zero()) == T::sp_zero()
    &&& T::sp_zero().sp_sqrt() == T::sp_zero()
}

proof fn lemma_mn_fold_self<T: Scalar>(a: GMat<T>, k: int)
    requires
        zero_identities::<T>(),
    ensures
        mn_fold(a, a, k) == T::sp_zero(),
    decreases k,
{
    if k > 0 {
        lemma_mn_fold_self(a, k - 1);
    }
}

proof fn lemma_en_fold_self<T: Scalar>(a: GMat<T>, k: int)
    requires
        zero_identities::<T>(),
    ensures
        en_fold(a, a, k) == T::sp_zero(),
    decreases k,
{
    if k > 0 {
        lemma_en_fold_self(a, k - 1);
    }
}

/// Both norms of a zero difference are exactly zero: measuring a matrix
/// against itself gives zero, for any scalar whose zero obeys
/// `zero_identities`.
pub proof fn lemma_norms_of_zero_difference<T: Scalar>(a: GMat<T>)
    requires
        zero_identities::<T>(),
    ensures
        sp_max_norm(a, a) == T::sp_zero(),
        sp_euclidean_norm(a, a) == T::sp_zero(),
{
    lemma_mn_fold_self(a, a.cells.len() as int);
    lemma_en_fold_self(a, a.cells.len() as int);
}

/// The machine-integer scalar satisfies the zero identities, so its norms
/// of a zero difference are exactly zero.
pub proof fn lemma_norms_of_zero_difference_i64(a: GMat<i64>)
    ensures
        sp_max_norm(a, a) == 0i64,
        sp_euclidean_norm(a, a) == 0i64,
{
    assert(zero_identities::<i64>());
    lemma_norms_of_zero_difference(a);
}

/// The identities of exact field arithmetic that the substitution laws rest
/// on: multiplying back a quotient, adding back a difference, and the
/// behaviour of zero in sums and products.
pub open spec fn exact_solve_identities<T: Scalar>() -> bool {
    &&& forall|v: T, d: T|
        !d.sp_is_zero() ==> #[trigger] d.sp_mul(v.sp_div(d)) == v
    &&& forall|x: T, s: T| #[trigger] s.sp_add(x.sp_sub(s)) == x
    &&& forall|x: T, s: T| #[trigger] x.sp_sub(s).sp_add(s) == x
    &&& forall|v: T| #[trigger] T::sp_zero().sp_mul(v) == T::sp_zero()
    &&& forall|v: T| #[trigger] v.sp_mul(T::sp_zero()) == T::sp_zero()
    &&& forall|x: T| #[trigger] x.sp_add(T::sp_zero()) == x
    &&& forall|x: T| #[trigger] T::sp_zero().sp_add(x) == x
    &&& forall|x: T, y: T, z: T| #[trigger] x.sp_add(y).sp_add(z) == x.sp_add(y.sp_add(z))
}

proof fn lemma_fwd_dot_head<T: Scalar>(l: GMat<T>, b: GMat<T>, x: GMat<T>, i: int, k: int)
    requires
        l.wf(),
        l.rows == l.cols,
        x.rows == l.rows,
        x.cols == 1,
        0 <= i < l.rows,
        0 <= k <= i,
        forall|q: int| 0 <= q < l.rows ==> #[trigger] x.cell(q, 0) == fs_cell(l, b, q),
    ensures
        dot(l, x, i, 0, k) == fs_sum(l, b, i, k),
    decreases k,
{
    if k > 0 {
        lemma_fwd_dot_head(l, b, x, i, k - 1);
    }
}

proof fn lemma_fwd_dot_tail<T: Scalar>(l: GMat<T>, b: GMat<T>, x: GMat<T>, i: int, k: int)
    requires
        exact_solve_identities::<T>(),
        l.wf(),
        l.rows == l.cols,
        x.rows == l.rows,
        x.cols == 1,
        0 <= i < l.rows,
        i + 1 <= k <= l.rows,
        !l.cell(i, i).sp_is_zero(),
        forall|p: int, q: int| 0 <= p < q < l.rows ==> #[trigger] l.cell(p, q) == T::sp_zero(),
        forall|q: int| 0 <= q < l.rows ==> #[trigger] x.cell(q, 0) == fs_cell(l, b, q),
    ensures
        dot(l, x, i, 0, k) == b.cell(i, 0),
    decreases k,
{
    if k == i + 1 {
        lemma_fwd_dot_head(l, b, x, i, i);
        assert(x.cell(i, 0) == fs_cell(l, b, i));
        assert(l.cell(i, i).sp_mul(
            b.cell(i, 0).sp_sub(fs_sum(l, b, i, i)).sp_div(l.cell(i, i)),
        ) == b.cell(i, 0).sp_sub(fs_sum(l, b, i, i)));
    } else {
        lemma_fwd_dot_tail(l, b, x, i, k - 1);
        assert(l.cell(i, k - 1) == T::sp_zero());
    }
}

/// Forward substitution solves its system: under exact arithmetic, for any
/// lower triangular `L` with no zero diagonal entry and any matching column
/// `b`, the computed solution `x` satisfies `L x == b` exactly.
pub proof fn lemma_forward_substitution_solves<T: Scalar>(l: GMat<T>, b: GMat<T>)
    requires
        exact_solve_identities::<T>(),
        l.wf(),
        b.wf(),
        l.rows == l.cols,
        b.rows == l.rows,
        b.cols == 1,
        forall|p: int, q: int| 0 <= p < q < l.rows ==> #[trigger] l.cell(p, q) == T::sp_zero(),
        forall|q: int| 0 <= q < l.rows ==> !(#[trigger] l.cell(q, q)).sp_is_zero(),
    ensures
        gm_matmul(l, gm_forward(l, b)) == b,
{
    let x = gm_forward(l, b);
    lemma_forward_props(l, b);
    lemma_matmul_props(l, x);
    let p = gm_matmul(l, x);
    assert forall|i: int, j: int|
        0 <= i < b.rows && 0 <= j < 1 implies p.cell(i, j) == b.cell(i, j) by {
        lemma_fwd_dot_tail(l, b, x, i, l.rows);
    }
    lemma_cells_eq(p, b);
}

proof fn lemma_bwd_dot_zero<T: Scalar>(u: GMat<T>, x: GMat<T>, i: int, k: int)
    requires
        exact_solve_identities::<T>(),
        u.wf(),
        u.rows == u.cols,
        x.rows == u.rows,
        x.cols == 1,
        0 <= i < u.rows,
        0 <= k <= i,
        forall|p: int, q: int| 0 <= q < p < u.rows ==> #[trigger] u.cell(p, q) == T::sp_zero(),
    ensures
        dot(u, x, i, 0, k) == T::sp_zero(),
    decreases k,
{
    if k > 0 {
        lemma_bwd_dot_zero(u, x, i, k - 1);
        assert(u.cell(i, k - 1) == T::sp_zero());
    }
}

proof fn lemma_bwd_dot_tail<T: Scalar>(u: GMat<T>, b: GMat<T>, x: GMat<T>, i: int, k: int)
    requires
        exact_solve_identities::<T>(),
        u.wf(),
        u.rows == u.cols,
        x.rows == u.rows,
        x.cols == 1,
        0 <= i < u.rows,
        i + 1 <= k <= u.rows,
        !u.cell(i, i).sp_is_zero(),
        forall|p: int, q: int| 0 <= q < p < u.rows ==> #[trigger] u.cell(p, q) == T::sp_zero(),
        forall|q: int| 0 <= q < u.rows ==> #[trigger] x.cell(q, 0) == bs_cell(u, b, q),
    ensures
        dot(u, x, i, 0, k) == b.cell(i, 0).sp_sub(bs_sum(u, b, i, u.rows)).sp_add(
            bs_sum(u, b, i, k),
        ),
    decreases k,
{
    let top = bs_sum(u, b, i, u.rows);
    if k == i + 1 {
        lemma_bwd_dot_zero(u, x, i, i);
        assert(x.cell(i, 0) == bs_cell(u, b, i));
        assert(u.cell(i, i).sp_mul(b.cell(i, 0).sp_sub(top).sp_div(u.cell(i, i))) == b.cell(
            i,
            0,
        ).sp_sub(top));
        assert(bs_sum(u, b, i, i + 1) == T::sp_zero());
    } else {
        lemma_bwd_dot_tail(u, b, x, i, k - 1);
        assert(x.cell(k - 1, 0) == bs_cell(u, b, k - 1));
        let t = u.cell(i, k - 1).sp_mul(bs_cell(u, b, k - 1));
        assert(bs_sum(u, b, i, k) == bs_sum(u, b, i, k - 1).sp_add(t));
        assert(b.cell(i, 0).sp_sub(top).sp_add(bs_sum(u, b, i, k - 1)).sp_add(t) == b.cell(
            i,
            0,
        ).sp_sub(top).sp_add(bs_sum(u, b, i, k - 1).sp_add(t)));
    }
}

/// Backward substitution solves its system: under exact arithmetic, for
/// any upper triangular `U` with no zero diagonal entry and any matching
/// column `b`, the computed solution `x` satisfies `U x == b` exactly.
pub proof fn lemma_backward_substitution_solves<T: Scalar>(u: GMat<T>, b: GMat<T>)
    requires
        exact_solve_identities::<T>(),
        u.wf(),
        b.wf(),
        u.rows == u.cols,
        b.rows == u.rows,
        b.cols == 1,
        forall|p: int, q: int| 0 <= q < p < u.rows ==> #[trigger] u.cell(p, q) == T::sp_zero(),
        forall|q: int| 0 <= q < u.rows ==> !(#[trigger] u.cell(q, q)).sp_is_zero(),
    ensures
        gm_matmul(u, gm_backward(u, b)) == b,
{
    let x = gm_backward(u, b);
    lemma_backward_props(u, b);
    lemma_matmul_props(u, x);
    let p = gm_matmul(u, x);
    assert forall|i: int, j: int|
        0 <= i < b.rows && 0 <= j < 1 implies p.cell(i, j) == b.cell(i, j) by {
        lemma_bwd_dot_tail(u, b, x, i, u.rows);
        assert(b.cell(i, 0).sp_sub(bs_sum(u, b, i, u.rows)).sp_add(bs_sum(u, b, i, u.rows))
            == b.cell(i, 0));
    }
    lemma_cells_eq(p, b);
}

/// The identities of exact arithmetic that the factorization law rests on:
/// multiplying back a quotient, squaring a square root of a positive value,
/// adding back a difference, commutativity of the product, and the
/// behaviour of zero.
pub open spec fn exact_factor_identities<T: Scalar>() -> bool {
    &&& forall|v: T, d: T|
        !d.sp_is_zero() ==> #[trigger] v.sp_div(d).sp_mul(d) == v
    &&& forall|v: T|
        v.sp_is_pos() ==> #[trigger] v.sp_sqrt().sp_mul(v.sp_sqrt()) == v
    &&& forall|v: T| v.sp_is_pos() ==> !(#[trigger] v.sp_sqrt()).sp_is_zero()
    &&& forall|x: T, s: T| #[trigger] s.sp_add(x.sp_sub(s)) == x
    &&& forall|v: T| #[trigger] v.sp_mul(T::sp_zero()) == T::sp_zero()
    &&& forall|x: T| #[trigger] x.sp_add(T::sp_zero()) == x
    &&& forall|x: T, y: T| #[trigger] x.sp_mul(y) == y.sp_mul(x)
}

proof fn lemma_chol_dot_head<T: Scalar>(b: GMat<T>, l: GMat<T>, lt: GMat<T>, i: int, j: int, k: int)
    requires
        b.wf(),
        b.rows == b.cols,
        l == gm_chol(b),
        lt == gm_transpose(l),
        0 <= j <= i < b.rows,
        0 <= k <= j,
    ensures
        dot(l, lt, i, j, k) == chol_sum(b, i, j, k),
    decreases k,
{
    lemma_chol_props(b);
    lemma_transpose_props(l);
    if k > 0 {
        lemma_chol_dot_head(b, l, lt, i, j, k - 1);
        assert(l.cell(i, k - 1) == chol_cell(b, i, k - 1));
        assert(lt.cell(k - 1, j) == l.cell(j, k - 1));
        assert(l.cell(j, k - 1) == chol_cell(b, j, k - 1));
    }
}

proof fn lemma_chol_dot_tail<T: Scalar>(b: GMat<T>, l: GMat<T>, lt: GMat<T>, i: int, j: int, k: int)
    requires
        exact_factor_identities::<T>(),
        b.wf(),
        b.rows == b.cols,
        l == gm_chol(b),
        lt == gm_transpose(l),
        0 <= j <= i < b.rows,
        j + 1 <= k <= b.rows,
        forall|q: int| 0 <= q < b.rows ==> (#[trigger] chol_diag(b, q)).sp_is_pos(),
    ensures
        dot(l, lt, i, j, k) == b.cell(i, j),
    decreases k,
{
    lemma_chol_props(b);
    lemma_transpose_props(l);
    if k == j + 1 {
        lemma_chol_dot_head(b, l, lt, i, j, j);
        let s = chol_sum(b, i, j, j);
        let d = chol_diag(b, j);
        assert(lt.cell(j, j) == l.cell(j, j));
        assert(l.cell(j, j) == chol_cell(b, j, j));
        assert(chol_cell(b, j, j) == d.sp_sqrt());
        assert(!d.sp_sqrt().sp_is_zero());
        if j == i {
            assert(l.cell(i, j).sp_mul(lt.cell(j, j)) == d.sp_sqrt().sp_mul(d.sp_sqrt()));
            assert(d.sp_sqrt().sp_mul(d.sp_sqrt()) == d);
            assert(s.sp_add(b.cell(i, i).sp_sub(s)) == b.cell(i, i));
        } else {
            assert(l.cell(i, j) == chol_cell(b, i, j));
            assert(chol_cell(b, i, j) == b.cell(i, j).sp_sub(s).sp_div(chol_cell(b, j, j)));
            assert(b.cell(i, j).sp_sub(s).sp_div(d.sp_sqrt()).sp_mul(d.sp_sqrt()) == b.cell(
                i,
                j,
            ).sp_sub(s));
            assert(s.sp_add(b.cell(i, j).sp_sub(s)) == b.cell(i, j));
        }
    } else {
        lemma_chol_dot_tail(b, l, lt, i, j, k - 1);
        assert(lt.cell(k - 1, j) == l.cell(j, k - 1));
        assert(l.cell(j, k - 1) == chol_cell(b, j, k - 1));
        assert(chol_cell(b, j, k - 1) == T::sp_zero());
        assert(l.cell(i, k - 1).sp_mul(T::sp_zero()) == T::sp_zero());
    }
}

proof fn lemma_chol_dot_comm<T: Scalar>(l: GMat<T>, lt: GMat<T>, i: int, j: int, k: int)
    requires
        exact_factor_identities::<T>(),
        l.wf(),
        l.rows == l.cols,
        lt == gm_transpose(l),
        0 <= i < l.rows,
        0 <= j < l.rows,
        0 <= k <= l.rows,
    ensures
        dot(l, lt, i, j, k) == dot(l, lt, j, i, k),
    decreases k,
{
    lemma_transpose_props(l);
    if k > 0 {
        lemma_chol_dot_comm(l, lt, i, j, k - 1);
        assert(lt.cell(k - 1, j) == l.cell(j, k - 1));
        assert(lt.cell(k - 1, i) == l.cell(i, k - 1));
        assert(l.cell(i, k - 1).sp_mul(l.cell(j, k - 1)) == l.cell(j, k - 1).sp_mul(
            l.cell(i, k - 1),
        ));
    }
}

/// Cholesky factors its input: under exact arithmetic, for any symmetric
/// square `B` whose diagonal remainders are all strictly positive, the
/// computed factor satisfies `L * transpose(L) == B` exactly.
pub proof fn lemma_cholesky_factors<T: Scalar>(b: GMat<T>)
    requires
        exact_factor_identities::<T>(),
        b.wf(),
        b.rows == b.cols,
        forall|i: int, j: int|
            0 <= i < b.rows && 0 <= j < b.rows ==> #[trigger] b.cell(i, j) == b.cell(j, i),
        forall|q: int| 0 <= q < b.rows ==> (#[trigger] chol_diag(b, q)).sp_is_pos(),
    ensures
        gm_matmul(gm_chol(b), gm_transpose(gm_chol(b))) == b,
{
    let l = gm_chol(b);
    let lt = gm_transpose(l);
    lemma_chol_props(b);
    lemma_transpose_props(l);
    lemma_matmul_props(l, lt);
    let p = gm_matmul(l, lt);
    assert forall|i: int, j: int|
        0 <= i < b.rows && 0 <= j < b.rows implies p.cell(i, j) == b.cell(i, j) by {
        if j <= i {
            lemma_chol_dot_tail(b, l, lt, i, j, b.rows);
        } else {
            lemma_chol_dot_comm(l, lt, i, j, l.rows);
            lemma_chol_dot_tail(b, l, lt, j, i, b.rows);
            assert(b.cell(j, i) == b.cell(i, j));
        }
    }
    lemma_cells_eq(p, b);
}

} // verus!
