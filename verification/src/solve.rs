//! The solve pipeline: from a sparse matrix `A` and a fill value, form
//! `B = A * transpose(A)`, factor `B = L * transpose(L)`, solve
//! `B x = b` by two triangular substitutions for the right-hand side `b`
//! filled with the given value, and report the maximum and Euclidean norms
//! of the residual `A x - b`.

use crate::dense::{gm_fill, gm_matmul, gm_subtract, gm_transpose, DenseMatrix};
use crate::errors::LinAlgError;
use crate::model::{lemma_cells_eq, GMat};
use crate::norms::{sp_euclidean_norm, sp_max_norm};
use crate::scalar::Scalar;
use crate::sparse::{gm_of_csr, CsrModel, Matrix};
use crate::triangular::{
    first_bad_diag, first_zero_diag, gm_chol, gm_backward, gm_forward, last_zero_diag, npd_at,
    singular_at,
};
use vstd::prelude::*;

verus! {

/// The dense form of the input.
pub open spec fn sv_dense<T: Scalar>(a: CsrModel<T>) -> GMat<T> {
    gm_of_csr(a)
}

/// The normal-equations matrix `B = A * transpose(A)`.
pub open spec fn sv_bb<T: Scalar>(a: CsrModel<T>) -> GMat<T> {
    gm_matmul(sv_dense(a), gm_transpose(sv_dense(a)))
}

/// The Cholesky factor of `B`.
pub open spec fn sv_l<T: Scalar>(a: CsrModel<T>) -> GMat<T> {
    gm_chol(sv_bb(a))
}

/// The right-hand side: a column of the fill value.
pub open spec fn sv_b<T: Scalar>(a: CsrModel<T>, fill: T) -> GMat<T> {
    gm_fill(a.rows, 1, fill)
}

/// The intermediate solution of `L y = b`.
pub open spec fn sv_y<T: Scalar>(a: CsrModel<T>, fill: T) -> GMat<T> {
    gm_forward(sv_l(a), sv_b(a, fill))
}

/// The solution of `transpose(L) x = y`.
pub open spec fn sv_x<T: Scalar>(a: CsrModel<T>, fill: T) -> GMat<T> {
    gm_backward(gm_transpose(sv_l(a)), sv_y(a, fill))
}

/// The residual `A x - b`.
pub open spec fn sv_resid<T: Scalar>(a: CsrModel<T>, fill: T) -> GMat<T> {
    gm_subtract(gm_matmul(sv_dense(a), sv_x(a, fill)), sv_b(a, fill))
}

/// The zero column against which the residual is measured.
pub open spec fn sv_zero<T: Scalar>(a: CsrModel<T>) -> GMat<T> {
    gm_fill(a.rows, 1, T::sp_zero())
}

/// Runs the whole pipeline on a well-formed sparse matrix.  On success the
/// two results are the maximum and Euclidean norms of the residual; each
/// failure names the first stage that refuses, in pipeline order.
#[verifier::loop_isolation(false)]
pub fn solve<T: Scalar>(a: &Matrix<T>, fill: T) -> (r: Result<(T, T), LinAlgError>)
    requires
        a@.wf(),
        a.rows * a.columns <= usize::MAX,
        a.rows * a.rows <= usize::MAX,
    ensures
        match r {
            Ok((mn, en)) => {
                &&& first_bad_diag(sv_bb(a@), 0) == a@.rows
                &&& first_zero_diag(sv_l(a@), 0) == a@.rows
                &&& last_zero_diag(gm_transpose(sv_l(a@)), a@.rows - 1) == -1
                &&& a.rows == a.columns
                &&& mn == sp_max_norm(sv_resid(a@, fill), sv_zero(a@))
                &&& en == sp_euclidean_norm(sv_resid(a@, fill), sv_zero(a@))
            },
            Err(e) => {
                ||| first_bad_diag(sv_bb(a@), 0) < a@.rows && e == npd_at(
                    first_bad_diag(sv_bb(a@), 0),
                )
                ||| first_bad_diag(sv_bb(a@), 0) == a@.rows && first_zero_diag(sv_l(a@), 0)
                    < a@.rows && e == singular_at(first_zero_diag(sv_l(a@), 0))
                ||| first_bad_diag(sv_bb(a@), 0) == a@.rows && first_zero_diag(sv_l(a@), 0)
                    == a@.rows && last_zero_diag(gm_transpose(sv_l(a@)), a@.rows - 1) >= 0 && e
                    == singular_at(last_zero_diag(gm_transpose(sv_l(a@)), a@.rows - 1))
                ||| first_bad_diag(sv_bb(a@), 0) == a@.rows && first_zero_diag(sv_l(a@), 0)
                    == a@.rows && last_zero_diag(gm_transpose(sv_l(a@)), a@.rows - 1) == -1
                    && a.rows != a.columns && e == LinAlgError::DimensionMismatch
            },
        },
{
    let n = a.rows;
    let dense = a.to_dense();
    let bt = dense.transpose_conjugate();
    let bb = match dense.matmul(&bt) {
        Ok(m) => m,
        Err(e) => {
            proof {
                assert(false);
            }
            return Err(e);
        },
    };
    let l = match bb.cholesky() {
        Ok(l) => l,
        Err(e) => {
            return Err(e);
        },
    };
    let lt = l.transpose_conjugate();
    let mut bdata: Vec<T> = Vec::new();
    let mut i: usize = 0;
    while i < n
        invariant
            i <= n,
            bdata.len() == i,
            forall|q: int| 0 <= q < i as int ==> bdata@[q] == fill,
        decreases n - i,
    {
        bdata.push(fill);
        i = i + 1;
    }
    let bvec = DenseMatrix { rows: n, columns: 1, data: bdata };
    proof {
        crate::dense::lemma_fill_props(n as int, 1, fill);
        assert(bvec@.cells.len() == n as int * 1) by (nonlinear_arith)
            requires
                bvec@.cells.len() == n as int,
        ;
        assert forall|p: int, q: int|
            0 <= p < n as int && 0 <= q < 1 implies bvec@.cell(p, q) == gm_fill(
            n as int,
            1,
            fill,
        ).cell(p, q) by {
            assert(bvec@.cell(p, 0) == bvec@.cells[p * 1 + 0]);
            assert(p * 1 + 0 == p) by (nonlinear_arith);
        }
        lemma_cells_eq(bvec@, gm_fill(n as int, 1, fill));
    }
    let y = match l.forward_substitution(&bvec) {
        Ok(y) => y,
        Err(e) => {
            return Err(e);
        },
    };
    let x = match lt.backward_substitution(&y) {
        Ok(x) => x,
        Err(e) => {
            return Err(e);
        },
    };
    proof {
        assert(dense.rows as int * x.columns as int <= usize::MAX) by (nonlinear_arith)
            requires
                dense.rows == n,
                x.columns == 1,
                n <= usize::MAX,
        ;
    }
    let ax = match dense.matmul(&x) {
        Ok(m) => m,
        Err(e) => {
            return Err(e);
        },
    };
    let resid = match ax.subtract(&bvec) {
        Ok(m) => m,
        Err(e) => {
            proof {
                assert(false);
            }
            return Err(e);
        },
    };
    proof {
        assert(n as int * 1 <= usize::MAX) by (nonlinear_arith)
            requires
                n <= usize::MAX,
        ;
    }
    let zeros: DenseMatrix<T> = DenseMatrix::new(n, 1);
    let mn = match resid.max_norm(&zeros) {
        Ok(v) => v,
        Err(e) => {
            proof {
                assert(false);
            }
            return Err(e);
        },
    };
    let en = match resid.euclidean_norm(&zeros) {
        Ok(v) => v,
        Err(e) => {
            proof {
                assert(false);
            }
            return Err(e);
        },
    };
    Ok((mn, en))
}

} // verus!
