//! Cholesky factorization and triangular substitution.
//!
//! The specification functions here define, cell by cell, the lower
//! triangular factor of a square matrix and the solution vectors of
//! triangular systems; the executable methods are proved to produce exactly
//! those cells, and to fail exactly on the first non-positive diagonal
//! remainder (Cholesky) or the first zero pivot met in iteration order
//! (substitution).

use crate::dense::DenseMatrix;
use crate::errors::LinAlgError;
use crate::model::{gmat, lemma_cells_eq, lemma_gmat_cell, lemma_upd_cell, GMat};
use crate::scalar::Scalar;
use vstd::prelude::*;

verus! {

/// The first `k` terms of `sum_{t < j} L[i,t] * L[j,t]` for the factor `L`
/// of `b`, accumulated left to right from zero.
pub open spec fn chol_sum<T: Scalar>(b: GMat<T>, i: int, j: int, k: int) -> T
    decreases i, j, 0int, k,
{
    if k <= 0 || j < 0 || k > j || j > i {
        T::sp_zero()
    } else {
        chol_sum(b, i, j, k - 1).sp_add(chol_cell(b, i, k - 1).sp_mul(chol_cell(b, j, k - 1)))
    }
}

/// The cell in row `i` and column `j` of the lower triangular Cholesky
/// factor of `b`.
pub open spec fn chol_cell<T: Scalar>(b: GMat<T>, i: int, j: int) -> T
    decreases i, j, 1int, 0int,
{
    if i < 0 || j < 0 || j > i {
        T::sp_zero()
    } else if j == i {
        b.cell(i, i).sp_sub(chol_sum(b, i, i, i)).sp_sqrt()
    } else {
        b.cell(i, j).sp_sub(chol_sum(b, i, j, j)).sp_div(chol_cell(b, j, j))
    }
}

/// The diagonal remainder checked at row `i`: `b[i,i] - sum_{t<i} L[i,t]^2`.
pub open spec fn chol_diag<T: Scalar>(b: GMat<T>, i: int) -> T {
    b.cell(i, i).sp_sub(chol_sum(b, i, i, i))
}

/// The Cholesky factor of `b` as a matrix.
pub open spec fn gm_chol<T: Scalar>(b: GMat<T>) -> GMat<T> {
    gmat(b.rows, b.rows, |i: int, j: int| chol_cell(b, i, j))
}

/// The least row at or after `i` whose diagonal remainder is not strictly
/// positive, or `b.rows` when there is none.
pub open spec fn first_bad_diag<T: Scalar>(b: GMat<T>, i: int) -> int
    decreases b.rows - i,
{
    if i < 0 || i >= b.rows {
        b.rows
    } else if !chol_diag(b, i).sp_is_pos() {
        i
    } else {
        first_bad_diag(b, i + 1)
    }
}

/// The `NotPositiveDefinite` failure at diagonal position `i`.
pub open spec fn npd_at(i: int) -> LinAlgError {
    LinAlgError::NotPositiveDefinite(i as usize, i as usize)
}

/// The `SingularSystem` failure at row `i`.
pub open spec fn singular_at(i: int) -> LinAlgError {
    LinAlgError::SingularSystem(i as usize)
}

/// The first `k` terms of `sum_{t < i} L[i,t] * x[t]` for the forward
/// solution `x` of `L x = b`.
pub open spec fn fs_sum<T: Scalar>(l: GMat<T>, b: GMat<T>, i: int, k: int) -> T
    decreases i, 0int, k,
{
    if k <= 0 || i < 0 || k > i {
        T::sp_zero()
    } else {
        fs_sum(l, b, i, k - 1).sp_add(l.cell(i, k - 1).sp_mul(fs_cell(l, b, k - 1)))
    }
}

/// Entry `i` of the forward-substitution solution of `L x = b`.
pub open spec fn fs_cell<T: Scalar>(l: GMat<T>, b: GMat<T>, i: int) -> T
    decreases i, 1int, 0int,
{
    if i < 0 {
        T::sp_zero()
    } else {
        b.cell(i, 0).sp_sub(fs_sum(l, b, i, i)).sp_div(l.cell(i, i))
    }
}

/// The forward-substitution solution as a column vector.
pub open spec fn gm_forward<T: Scalar>(l: GMat<T>, b: GMat<T>) -> GMat<T> {
    gmat(l.rows, 1, |i: int, j: int| fs_cell(l, b, i))
}

/// The least row at or after `i` with a zero diagonal entry, or `m.rows`
/// when there is none.
pub open spec fn first_zero_diag<T: Scalar>(m: GMat<T>, i: int) -> int
    decreases m.rows - i,
{
    if i < 0 || i >= m.rows {
        m.rows
    } else if m.cell(i, i).sp_is_zero() {
        i
    } else {
        first_zero_diag(m, i + 1)
    }
}

/// The greatest row at or below `i` with a zero diagonal entry, or `-1`
/// when there is none.
pub open spec fn last_zero_diag<T: Scalar>(m: GMat<T>, i: int) -> int
    decreases i + 1,
{
    if i < 0 {
        -1
    } else if m.cell(i, i).sp_is_zero() {
        i
    } else {
        last_zero_diag(m, i - 1)
    }
}

/// The terms of `sum_{i < t < k} U[i,t] * x[t]` for the backward solution
/// `x` of `U x = b`, accumulated left to right from zero.
pub open spec fn bs_sum<T: Scalar>(u: GMat<T>, b: GMat<T>, i: int, k: int) -> T
    decreases u.rows - i, 0int, k,
{
    if k <= i + 1 || i < 0 || k > u.rows {
        T::sp_zero()
    } else {
        bs_sum(u, b, i, k - 1).sp_add(u.cell(i, k - 1).sp_mul(bs_cell(u, b, k - 1)))
    }
}

/// Entry `i` of the backward-substitution solution of `U x = b`.
pub open spec fn bs_cell<T: Scalar>(u: GMat<T>, b: GMat<T>, i: int) -> T
    decreases u.rows - i, 1int, 0int,
{
    if i < 0 || i >= u.rows {
        T::sp_zero()
    } else {
        b.cell(i, 0).sp_sub(bs_sum(u, b, i, u.rows)).sp_div(u.cell(i, i))
    }
}

/// The backward-substitution solution as a column vector.
pub open spec fn gm_backward<T: Scalar>(u: GMat<T>, b: GMat<T>) -> GMat<T> {
    gmat(u.rows, 1, |i: int, j: int| bs_cell(u, b, i))
}

/// Where the scan for a non-positive diagonal remainder stops.
pub proof fn lemma_first_bad_diag<T: Scalar>(b: GMat<T>, i: int)
    requires
        0 <= i <= b.rows,
    ensures
        i <= first_bad_diag(b, i) <= b.rows,
        forall|q: int| i <= q < first_bad_diag(b, i) ==> chol_diag(b, q).sp_is_pos(),
        first_bad_diag(b, i) < b.rows ==> !chol_diag(b, first_bad_diag(b, i)).sp_is_pos(),
    decreases b.rows - i,
{
    if i < b.rows && chol_diag(b, i).sp_is_pos() {
        lemma_first_bad_diag(b, i + 1);
    }
}

/// Where the ascending scan for a zero diagonal entry stops.
pub proof fn lemma_first_zero_diag<T: Scalar>(m: GMat<T>, i: int)
    requires
        0 <= i <= m.rows,
    ensures
        i <= first_zero_diag(m, i) <= m.rows,
        forall|q: int| i <= q < first_zero_diag(m, i) ==> !m.cell(q, q).sp_is_zero(),
        first_zero_diag(m, i) < m.rows ==> m.cell(
            first_zero_diag(m, i),
            first_zero_diag(m, i),
        ).sp_is_zero(),
    decreases m.rows - i,
{
    if i < m.rows && !m.cell(i, i).sp_is_zero() {
        lemma_first_zero_diag(m, i + 1);
    }
}

/// Where the descending scan for a zero diagonal entry stops.
pub proof fn lemma_last_zero_diag<T: Scalar>(m: GMat<T>, i: int)
    requires
        -1 <= i < m.rows,
    ensures
        -1 <= last_zero_diag(m, i) <= i,
        forall|q: int| last_zero_diag(m, i) < q <= i ==> !m.cell(q, q).sp_is_zero(),
        last_zero_diag(m, i) >= 0 ==> m.cell(
            last_zero_diag(m, i),
            last_zero_diag(m, i),
        ).sp_is_zero(),
    decreases i + 1,
{
    if i >= 0 && !m.cell(i, i).sp_is_zero() {
        lemma_last_zero_diag(m, i - 1);
    }
}

/// Shape and cells of `gm_chol`.
pub proof fn lemma_chol_props<T: Scalar>(b: GMat<T>)
    requires
        b.rows >= 0,
    ensures
        gm_chol(b).wf(),
        gm_chol(b).rows == b.rows,
        gm_chol(b).cols == b.rows,
        forall|i: int, j: int|
            0 <= i < b.rows && 0 <= j < b.rows ==> gm_chol(b).cell(i, j) == chol_cell(b, i, j),
{
    let f = |i: int, j: int| chol_cell(b, i, j);
    assert forall|i: int, j: int| 0 <= i < b.rows && 0 <= j < b.rows implies gm_chol(b).cell(i, j)
        == chol_cell(b, i, j) by {
        lemma_gmat_cell(b.rows, b.rows, f, i, j);
    }
}

/// Shape and cells of `gm_forward`.
pub proof fn lemma_forward_props<T: Scalar>(l: GMat<T>, b: GMat<T>)
    requires
        l.rows >= 0,
    ensures
        gm_forward(l, b).wf(),
        gm_forward(l, b).rows == l.rows,
        gm_forward(l, b).cols == 1,
        forall|i: int|
            0 <= i < l.rows ==> gm_forward(l, b).cell(i, 0) == fs_cell(l, b, i),
{
    let f = |i: int, j: int| fs_cell(l, b, i);
    assert forall|i: int| 0 <= i < l.rows implies gm_forward(l, b).cell(i, 0) == fs_cell(
        l,
        b,
        i,
    ) by {
        lemma_gmat_cell(l.rows, 1, f, i, 0);
    }
}

/// Shape and cells of `gm_backward`.
pub proof fn lemma_backward_props<T: Scalar>(u: GMat<T>, b: GMat<T>)
    requires
        u.rows >= 0,
    ensures
        gm_backward(u, b).wf(),
        gm_backward(u, b).rows == u.rows,
        gm_backward(u, b).cols == 1,
        forall|i: int|
            0 <= i < u.rows ==> gm_backward(u, b).cell(i, 0) == bs_cell(u, b, i),
{
    let f = |i: int, j: int| bs_cell(u, b, i);
    assert forall|i: int| 0 <= i < u.rows implies gm_backward(u, b).cell(i, 0) == bs_cell(
        u,
        b,
        i,
    ) by {
        lemma_gmat_cell(u.rows, 1, f, i, 0);
    }
}

impl<T: Scalar> DenseMatrix<T> {
    /// Cholesky factorization: returns the lower triangular `L` with
    /// `L * transpose(L) == B` under exact arithmetic.  Fails on a matrix
    /// that is not square, and on the first diagonal remainder that is not
    /// strictly positive.
    #[verifier::loop_isolation(false)]
    pub fn cholesky(&self) -> (r: Result<Self, LinAlgError>)
        requires
            self@.wf(),
        ensures
            match r {
                Ok(l) => self.rows == self.columns && first_bad_diag(self@, 0) == self@.rows
                    && l.rows == self.rows && l.columns == self.rows && l@ == gm_chol(self@),
                Err(e) => if self.rows != self.columns {
                    e == LinAlgError::DimensionMismatch
                } else {
                    first_bad_diag(self@, 0) < self@.rows && e == npd_at(first_bad_diag(self@, 0))
                },
            },
    {
        if self.rows != self.columns {
            return Err(LinAlgError::DimensionMismatch);
        }
        let n = self.rows;
        proof {
            assert(self.data.len() == self.data@.len());
        }
        let mut l: DenseMatrix<T> = DenseMatrix::new(n, n);
        proof {
            crate::dense::lemma_fill_props(n as int, n as int, T::sp_zero());
        }
        let mut i: usize = 0;
        while i < n
            invariant
                i <= n,
                l.rows == n,
                l.columns == n,
                l@.wf(),
                forall|p: int, q: int|
                    0 <= p < i as int && 0 <= q < n as int ==> l@.cell(p, q) == chol_cell(
                        self@,
                        p,
                        q,
                    ),
                forall|p: int, q: int|
                    (i as int) <= p < (n as int) && 0 <= q < n as int ==> l@.cell(p, q)
                        == T::sp_zero(),
                forall|q: int| 0 <= q < i as int ==> chol_diag(self@, q).sp_is_pos(),
            decreases n - i,
        {
            let mut j: usize = 0;
            while j <= i
                invariant
                    i < n,
                    j <= i + 1,
                    l.rows == n,
                    l.columns == n,
                    l@.wf(),
                    forall|p: int, q: int|
                        0 <= p < i as int && 0 <= q < n as int ==> l@.cell(p, q) == chol_cell(
                            self@,
                            p,
                            q,
                        ),
                    forall|q: int|
                        0 <= q < j as int ==> l@.cell(i as int, q) == chol_cell(self@, i as int, q),
                    forall|q: int|
                        (j as int) <= q < (n as int) ==> l@.cell(i as int, q) == T::sp_zero(),
                    forall|p: int, q: int|
                        (i as int) < p < (n as int) && 0 <= q < n as int ==> l@.cell(p, q)
                            == T::sp_zero(),
                    j as int == i as int + 1 ==> chol_diag(self@, i as int).sp_is_pos(),
                decreases i + 1 - j,
            {
                let mut acc = T::zero();
                let mut k: usize = 0;
                while k < j
                    invariant
                        j <= i < n,
                        k <= j,
                        acc == chol_sum(self@, i as int, j as int, k as int),
                    decreases j - k,
                {
                    acc = acc.plus(l.get(i, k).times(*l.get(j, k)));
                    k = k + 1;
                }
                if i == j {
                    let value = self.get(i, i).minus(acc);
                    if !value.is_positive() {
                        proof {
                            assert(value == chol_diag(self@, i as int));
                            lemma_first_bad_diag(self@, 0);
                            let fb = first_bad_diag(self@, 0);
                            if fb < i as int {
                                assert(chol_diag(self@, fb).sp_is_pos());
                                assert(false);
                            }
                            if fb > i as int {
                                assert(chol_diag(self@, i as int).sp_is_pos());
                                assert(false);
                            }
                        }
                        return Err(LinAlgError::NotPositiveDefinite(i, i));
                    }
                    proof {
                        lemma_upd_cell(l@, i as int, j as int, value.sp_sqrt());
                    }
                    let ghost snap = l@;
                    l.set(i, j, value.sqrt());
                    proof {
                        lemma_chol_row_step(self@, l@, snap, i as int, j as int);
                    }
                } else {
                    let value = self.get(i, j).minus(acc).divide(*l.get(j, j));
                    proof {
                        lemma_upd_cell(l@, i as int, j as int, value);
                    }
                    let ghost snap = l@;
                    l.set(i, j, value);
                    proof {
                        lemma_chol_row_step(self@, l@, snap, i as int, j as int);
                    }
                }
                j = j + 1;
            }
            i = i + 1;
        }
        proof {
            lemma_chol_props(self@);
            lemma_first_bad_diag(self@, 0);
            lemma_cells_eq(l@, gm_chol(self@));
        }
        Ok(l)
    }

    /// Solves `L x = b` for lower triangular `L` by forward substitution.
    /// Fails on incompatible shapes, and on the first zero pivot.
    #[verifier::loop_isolation(false)]
    pub fn forward_substitution(&self, b: &Self) -> (r: Result<Self, LinAlgError>)
        requires
            self@.wf(),
            b@.wf(),
        ensures
            match r {
                Ok(x) => self.rows == self.columns && b.columns == 1 && b.rows == self.rows
                    && first_zero_diag(self@, 0) == self@.rows && x.rows == self.rows
                    && x.columns == 1 && x@ == gm_forward(self@, b@),
                Err(e) => if !(self.rows == self.columns && b.columns == 1 && b.rows
                    == self.rows) {
                    e == LinAlgError::DimensionMismatch
                } else {
                    first_zero_diag(self@, 0) < self@.rows && e == singular_at(
                        first_zero_diag(self@, 0),
                    )
                },
            },
    {
        if self.rows != self.columns || b.columns != 1 || b.rows != self.rows {
            return Err(LinAlgError::DimensionMismatch);
        }
        let n = self.rows;
        proof {
            assert(n as int * 1 == n as int) by (nonlinear_arith);
        }
        let mut x: DenseMatrix<T> = DenseMatrix::new(n, 1);
        proof {
            crate::dense::lemma_fill_props(n as int, 1, T::sp_zero());
        }
        let mut i: usize = 0;
        while i < n
            invariant
                i <= n,
                x.rows == n,
                x.columns == 1,
                x@.wf(),
                forall|q: int| 0 <= q < i as int ==> x@.cell(q, 0) == fs_cell(self@, b@, q),
                forall|q: int| 0 <= q < i as int ==> !self@.cell(q, q).sp_is_zero(),
            decreases n - i,
        {
            let d = *self.get(i, i);
            if d.is_zero() {
                proof {
                    lemma_first_zero_diag(self@, 0);
                    assert(first_zero_diag(self@, 0) == i as int);
                }
                return Err(LinAlgError::SingularSystem(i));
            }
            let mut acc = T::zero();
            let mut k: usize = 0;
            while k < i
                invariant
                    i < n,
                    k <= i,
                    acc == fs_sum(self@, b@, i as int, k as int),
                decreases i - k,
            {
                acc = acc.plus(self.get(i, k).times(*x.get(k, 0)));
                k = k + 1;
            }
            let value = b.get(i, 0).minus(acc).divide(d);
            proof {
                lemma_upd_cell(x@, i as int, 0, value);
            }
            let ghost snap = x@;
            x.set(i, 0, value);
            proof {
                assert forall|q: int|
                    0 <= q < i as int + 1 implies x@.cell(q, 0) == fs_cell(self@, b@, q) by {
                    if q < i as int {
                        assert(x@.cell(q, 0) == snap.cell(q, 0));
                    }
                }
            }
            i = i + 1;
        }
        proof {
            lemma_first_zero_diag(self@, 0);
            lemma_forward_props(self@, b@);
            lemma_cells_eq(x@, gm_forward(self@, b@));
        }
        Ok(x)
    }

    /// Solves `U x = b` for upper triangular `U` by backward substitution.
    /// Fails on incompatible shapes, and on the first zero pivot met while
    /// iterating from the last row upward.
    #[verifier::loop_isolation(false)]
    pub fn backward_substitution(&self, b: &Self) -> (r: Result<Self, LinAlgError>)
        requires
            self@.wf(),
            b@.wf(),
        ensures
            match r {
                Ok(x) => self.rows == self.columns && b.columns == 1 && b.rows == self.rows
                    && last_zero_diag(self@, self@.rows - 1) == -1 && x.rows == self.rows
                    && x.columns == 1 && x@ == gm_backward(self@, b@),
                Err(e) => if !(self.rows == self.columns && b.columns == 1 && b.rows
                    == self.rows) {
                    e == LinAlgError::DimensionMismatch
                } else {
                    last_zero_diag(self@, self@.rows - 1) >= 0 && e == singular_at(
                        last_zero_diag(self@, self@.rows - 1),
                    )
                },
            },
    {
        if self.rows != self.columns || b.columns != 1 || b.rows != self.rows {
            return Err(LinAlgError::DimensionMismatch);
        }
        let n = self.rows;
        proof {
            assert(n as int * 1 == n as int) by (nonlinear_arith);
        }
        let mut x: DenseMatrix<T> = DenseMatrix::new(n, 1);
        proof {
            crate::dense::lemma_fill_props(n as int, 1, T::sp_zero());
        }
        let mut ii: usize = n;
        while ii > 0
            invariant
                ii <= n,
                x.rows == n,
                x.columns == 1,
                x@.wf(),
                forall|q: int| (ii as int) <= q < (n as int) ==> x@.cell(q, 0) == bs_cell(self@, b@, q),
                forall|q: int| (ii as int) <= q < (n as int) ==> !self@.cell(q, q).sp_is_zero(),
            decreases ii,
        {
            let i = ii - 1;
            let d = *self.get(i, i);
            if d.is_zero() {
                proof {
                    lemma_last_zero_diag(self@, n as int - 1);
                    assert(last_zero_diag(self@, n as int - 1) == i as int);
                }
                return Err(LinAlgError::SingularSystem(i));
            }
            let mut acc = T::zero();
            let mut k: usize = i + 1;
            while k < n
                invariant
                    ii == i + 1,
                    i < n,
                    i + 1 <= k <= n,
                    acc == bs_sum(self@, b@, i as int, k as int),
                decreases n - k,
            {
                acc = acc.plus(self.get(i, k).times(*x.get(k, 0)));
                k = k + 1;
            }
            let value = b.get(i, 0).minus(acc).divide(d);
            proof {
                lemma_upd_cell(x@, i as int, 0, value);
            }
            let ghost snap = x@;
            x.set(i, 0, value);
            proof {
                assert forall|q: int|
                    (i as int) <= q < (n as int) implies x@.cell(q, 0) == bs_cell(self@, b@, q) by {
                    if q > i as int {
                        assert(x@.cell(q, 0) == snap.cell(q, 0));
                    }
                }
            }
            ii = i;
        }
        proof {
            lemma_last_zero_diag(self@, n as int - 1);
            lemma_backward_props(self@, b@);
            lemma_cells_eq(x@, gm_backward(self@, b@));
        }
        Ok(x)
    }
}

/// One write step of the Cholesky row loop: writing the specified cell at
/// `(i, j)` keeps every already-correct cell correct and every untouched
/// cell zero.
proof fn lemma_chol_row_step<T: Scalar>(b: GMat<T>, m: GMat<T>, snap: GMat<T>, i: int, j: int)
    requires
        snap.wf(),
        0 <= j <= i < snap.rows,
        snap.cols == snap.rows,
        m == snap.upd(i, j, chol_cell(b, i, j)),
        forall|p: int, q: int|
            0 <= p < i && 0 <= q < snap.cols ==> snap.cell(p, q) == chol_cell(b, p, q),
        forall|q: int| 0 <= q < j ==> snap.cell(i, q) == chol_cell(b, i, q),
        forall|q: int| j <= q < snap.cols ==> snap.cell(i, q) == T::sp_zero(),
        forall|p: int, q: int|
            i < p < snap.rows && 0 <= q < snap.cols ==> snap.cell(p, q) == T::sp_zero(),
    ensures
        m.wf(),
        m.rows == snap.rows,
        m.cols == snap.cols,
        forall|p: int, q: int|
            0 <= p < i && 0 <= q < snap.cols ==> m.cell(p, q) == chol_cell(b, p, q),
        forall|q: int| 0 <= q < j + 1 ==> m.cell(i, q) == chol_cell(b, i, q),
        forall|q: int| j + 1 <= q < snap.cols ==> m.cell(i, q) == T::sp_zero(),
        forall|p: int, q: int|
            i < p < snap.rows && 0 <= q < snap.cols ==> m.cell(p, q) == T::sp_zero(),
{
    lemma_upd_cell(snap, i, j, chol_cell(b, i, j));
    assert forall|p: int, q: int|
        0 <= p < i && 0 <= q < snap.cols implies m.cell(p, q) == chol_cell(b, p, q) by {
        assert(m.cell(p, q) == snap.cell(p, q));
    }
    assert forall|q: int| 0 <= q < j + 1 implies m.cell(i, q) == chol_cell(b, i, q) by {
        if q < j {
            assert(m.cell(i, q) == snap.cell(i, q));
        }
    }
    assert forall|q: int| j + 1 <= q < snap.cols implies m.cell(i, q) == T::sp_zero() by {
        assert(m.cell(i, q) == snap.cell(i, q));
    }
    assert forall|p: int, q: int|
        i < p < snap.rows && 0 <= q < snap.cols implies m.cell(p, q) == T::sp_zero() by {
        assert(m.cell(p, q) == snap.cell(p, q));
    }
}

} // verus!
