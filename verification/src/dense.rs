//! The dense row-major matrix and its basic algebra: creation, indexed
//! access, transpose, element-wise subtraction and matrix multiplication.
//! Every operation allocates a fresh result and never mutates an input.

use crate::errors::LinAlgError;
use crate::model::{gmat, lemma_cells_eq, lemma_gmat_cell, lemma_rm_index, lemma_upd_cell, GMat};
use crate::scalar::Scalar;
use vstd::prelude::*;

verus! {

pub struct DenseMatrix<T> {
    pub rows: usize,
    pub columns: usize,
    pub data: Vec<T>,
}

impl<T> View for DenseMatrix<T> {
    type V = GMat<T>;

    open spec fn view(&self) -> GMat<T> {
        GMat { rows: self.rows as int, cols: self.columns as int, cells: self.data@ }
    }
}

/// The matrix of the given shape with `v` in every cell.
pub open spec fn gm_fill<T>(rows: int, cols: int, v: T) -> GMat<T> {
    gmat(rows, cols, |i: int, j: int| v)
}

/// The transpose of `a`.
pub open spec fn gm_transpose<T>(a: GMat<T>) -> GMat<T> {
    gmat(a.cols, a.rows, |i: int, j: int| a.cell(j, i))
}

/// The element-wise difference of `a` and `b`.
pub open spec fn gm_subtract<T: Scalar>(a: GMat<T>, b: GMat<T>) -> GMat<T> {
    gmat(a.rows, a.cols, |i: int, j: int| a.cell(i, j).sp_sub(b.cell(i, j)))
}

/// The first `k` terms of the inner product of row `i` of `a` with column
/// `j` of `b`, accumulated left to right from zero.
pub open spec fn dot<T: Scalar>(a: GMat<T>, b: GMat<T>, i: int, j: int, k: int) -> T
    decreases k,
{
    if k <= 0 {
        T::sp_zero()
    } else {
        dot(a, b, i, j, k - 1).sp_add(a.cell(i, k - 1).sp_mul(b.cell(k - 1, j)))
    }
}

/// The product of `a` and `b`, for `a.cols == b.rows`.
pub open spec fn gm_matmul<T: Scalar>(a: GMat<T>, b: GMat<T>) -> GMat<T> {
    gmat(a.rows, b.cols, |i: int, j: int| dot(a, b, i, j, a.cols))
}

/// Shape and cells of `gm_fill`.
pub proof fn lemma_fill_props<T>(rows: int, cols: int, v: T)
    requires
        rows >= 0,
        cols >= 0,
    ensures
        gm_fill(rows, cols, v).wf(),
        gm_fill(rows, cols, v).rows == rows,
        gm_fill(rows, cols, v).cols == cols,
        forall|i: int, j: int|
            0 <= i < rows && 0 <= j < cols ==> gm_fill(rows, cols, v).cell(i, j) == v,
{
    assert forall|i: int, j: int| 0 <= i < rows && 0 <= j < cols implies gm_fill(
        rows,
        cols,
        v,
    ).cell(i, j) == v by {
        lemma_gmat_cell(rows, cols, |i2: int, j2: int| v, i, j);
    }
    if rows * cols == 0 {
        assert(gm_fill(rows, cols, v).wf());
    } else {
        lemma_gmat_cell(rows, cols, |i2: int, j2: int| v, 0, 0);
    }
}

/// Shape and cells of `gm_transpose`.
pub proof fn lemma_transpose_props<T>(a: GMat<T>)
    requires
        a.rows >= 0,
        a.cols >= 0,
    ensures
        gm_transpose(a).wf(),
        gm_transpose(a).rows == a.cols,
        gm_transpose(a).cols == a.rows,
        forall|i: int, j: int|
            0 <= i < a.cols && 0 <= j < a.rows ==> gm_transpose(a).cell(i, j) == a.cell(j, i),
{
    let f = |i: int, j: int| a.cell(j, i);
    assert forall|i: int, j: int| 0 <= i < a.cols && 0 <= j < a.rows implies gm_transpose(
        a,
    ).cell(i, j) == a.cell(j, i) by {
        lemma_gmat_cell(a.cols, a.rows, f, i, j);
    }
    assert(gm_transpose(a).cells.len() == (a.cols * a.rows) as nat);
    assert(a.cols * a.rows == gm_transpose(a).rows * gm_transpose(a).cols);
}

/// Shape and cells of `gm_subtract`.
pub proof fn lemma_subtract_props<T: Scalar>(a: GMat<T>, b: GMat<T>)
    requires
        a.rows >= 0,
        a.cols >= 0,
    ensures
        gm_subtract(a, b).wf(),
        gm_subtract(a, b).rows == a.rows,
        gm_subtract(a, b).cols == a.cols,
        forall|i: int, j: int|
            0 <= i < a.rows && 0 <= j < a.cols ==> gm_subtract(a, b).cell(i, j) == a.cell(
                i,
                j,
            ).sp_sub(b.cell(i, j)),
{
    let f = |i: int, j: int| a.cell(i, j).sp_sub(b.cell(i, j));
    assert forall|i: int, j: int| 0 <= i < a.rows && 0 <= j < a.cols implies gm_subtract(
        a,
        b,
    ).cell(i, j) == a.cell(i, j).sp_sub(b.cell(i, j)) by {
        lemma_gmat_cell(a.rows, a.cols, f, i, j);
    }
}

/// Shape and cells of `gm_matmul`.
pub proof fn lemma_matmul_props<T: Scalar>(a: GMat<T>, b: GMat<T>)
    requires
        a.rows >= 0,
        b.cols >= 0,
    ensures
        gm_matmul(a, b).wf(),
        gm_matmul(a, b).rows == a.rows,
        gm_matmul(a, b).cols == b.cols,
        forall|i: int, j: int|
            0 <= i < a.rows && 0 <= j < b.cols ==> gm_matmul(a, b).cell(i, j) == dot(
                a,
                b,
                i,
                j,
                a.cols,
            ),
{
    let f = |i: int, j: int| dot(a, b, i, j, a.cols);
    assert forall|i: int, j: int| 0 <= i < a.rows && 0 <= j < b.cols implies gm_matmul(
        a,
        b,
    ).cell(i, j) == dot(a, b, i, j, a.cols) by {
        lemma_gmat_cell(a.rows, b.cols, f, i, j);
    }
}

impl<T: Scalar> DenseMatrix<T> {
    /// Creates a matrix of the given shape with every cell zero.
    #[verifier::loop_isolation(false)]
    pub fn new(rows: usize, columns: usize) -> (r: Self)
        requires
            rows * columns <= usize::MAX,
        ensures
            r.rows == rows,
            r.columns == columns,
            r@.wf(),
            r@ == gm_fill(rows as int, columns as int, T::sp_zero()),
    {
        let total: usize = rows * columns;
        let mut data: Vec<T> = Vec::new();
        let mut k: usize = 0;
        while k < total
            invariant
                k <= total,
                data.len() == k,
                forall|q: int| 0 <= q < k ==> data@[q] == T::sp_zero(),
            decreases total - k,
        {
            data.push(T::zero());
            k = k + 1;
        }
        let r = DenseMatrix { rows, columns, data };
        proof {
            let g = gm_fill(rows as int, columns as int, T::sp_zero());
            lemma_fill_props(rows as int, columns as int, T::sp_zero());
            assert forall|i: int, j: int|
                0 <= i < rows as int && 0 <= j < columns as int implies r@.cell(i, j) == g.cell(
                i,
                j,
            ) by {
                lemma_rm_index(rows as int, columns as int, i, j);
            }
            lemma_cells_eq(r@, g);
        }
        r
    }

    /// Writes `value` at the `(row, col)` position.
    pub fn set(&mut self, row: usize, col: usize, value: T)
        requires
            old(self)@.wf(),
            row < old(self).rows,
            col < old(self).columns,
        ensures
            final(self)@ == old(self)@.upd(row as int, col as int, value),
            final(self).rows == old(self).rows,
            final(self).columns == old(self).columns,
            final(self)@.wf(),
    {
        proof {
            assert(self.data.len() == self.data@.len());
            lemma_rm_index(self.rows as int, self.columns as int, row as int, col as int);
            lemma_upd_cell(self@, row as int, col as int, value);
        }
        let k: usize = row * self.columns + col;
        self.data[k] = value;
    }

    /// Reads the value at the `(row, col)` position.
    pub fn get(&self, row: usize, col: usize) -> (r: &T)
        requires
            self@.wf(),
            row < self.rows,
            col < self.columns,
        ensures
            *r == self@.cell(row as int, col as int),
    {
        proof {
            assert(self.data.len() == self.data@.len());
            lemma_rm_index(self.rows as int, self.columns as int, row as int, col as int);
        }
        let k: usize = row * self.columns + col;
        &self.data[k]
    }

    /// Returns the transpose of the matrix; over real scalars the conjugate
    /// transpose is the plain transpose.
    #[verifier::loop_isolation(false)]
    pub fn transpose_conjugate(&self) -> (r: Self)
        requires
            self@.wf(),
        ensures
            r@ == gm_transpose(self@),
            r.rows == self.columns,
            r.columns == self.rows,
            r@.wf(),
    {
        proof {
            assert(self.data.len() == self.data@.len());
            assert(self.columns as int * self.rows as int == self.rows as int
                * self.columns as int) by (nonlinear_arith);
        }
        let mut result = DenseMatrix::new(self.columns, self.rows);
        proof {
            lemma_transpose_props(self@);
            lemma_fill_props(self.columns as int, self.rows as int, T::sp_zero());
        }
        let mut row: usize = 0;
        while row < self.rows
            invariant
                row <= self.rows,
                self@.wf(),
                result.rows == self.columns,
                result.columns == self.rows,
                result@.wf(),
                forall|i: int, j: int|
                    0 <= i < self.columns as int && 0 <= j < row as int ==> result@.cell(i, j)
                        == self@.cell(j, i),
            decreases self.rows - row,
        {
            let mut col: usize = 0;
            while col < self.columns
                invariant
                    row < self.rows,
                    col <= self.columns,
                    self@.wf(),
                    result.rows == self.columns,
                    result.columns == self.rows,
                    result@.wf(),
                    forall|i: int, j: int|
                        0 <= i < self.columns as int && 0 <= j < row as int ==> result@.cell(i, j)
                            == self@.cell(j, i),
                    forall|i: int|
                        0 <= i < col as int ==> result@.cell(i, row as int) == self@.cell(
                            row as int,
                            i,
                        ),
                decreases self.columns - col,
            {
                let v = *self.get(row, col);
                proof {
                    lemma_upd_cell(result@, col as int, row as int, v);
                }
                result.set(col, row, v);
                col = col + 1;
            }
            row = row + 1;
        }
        proof {
            lemma_cells_eq(result@, gm_transpose(self@));
        }
        result
    }

    /// Element-wise difference of two matrices of the same shape.
    #[verifier::loop_isolation(false)]
    pub fn subtract(&self, other: &Self) -> (r: Result<Self, LinAlgError>)
        requires
            self@.wf(),
            other@.wf(),
        ensures
            match r {
                Ok(c) => self@.same_shape(other@) && c@ == gm_subtract(self@, other@)
                    && c.rows == self.rows && c.columns == self.columns,
                Err(e) => !self@.same_shape(other@) && e == LinAlgError::DimensionMismatch,
            },
    {
        if self.rows != other.rows || self.columns != other.columns {
            return Err(LinAlgError::DimensionMismatch);
        }
        proof {
            assert(self.data.len() == self.data@.len());
        }
        let mut result = DenseMatrix::new(self.rows, self.columns);
        proof {
            lemma_subtract_props(self@, other@);
            lemma_fill_props(self.rows as int, self.columns as int, T::sp_zero());
        }
        let mut row: usize = 0;
        while row < self.rows
            invariant
                row <= self.rows,
                self@.wf(),
                other@.wf(),
                other.rows == self.rows,
                other.columns == self.columns,
                result.rows == self.rows,
                result.columns == self.columns,
                result@.wf(),
                forall|i: int, j: int|
                    0 <= i < row as int && 0 <= j < self.columns as int ==> result@.cell(i, j)
                        == self@.cell(i, j).sp_sub(other@.cell(i, j)),
            decreases self.rows - row,
        {
            let mut col: usize = 0;
            while col < self.columns
                invariant
                    row < self.rows,
                    col <= self.columns,
                    self@.wf(),
                    other@.wf(),
                    other.rows == self.rows,
                    other.columns == self.columns,
                    result.rows == self.rows,
                    result.columns == self.columns,
                    result@.wf(),
                    forall|i: int, j: int|
                        0 <= i < row as int && 0 <= j < self.columns as int ==> result@.cell(i, j)
                            == self@.cell(i, j).sp_sub(other@.cell(i, j)),
                    forall|j: int|
                        0 <= j < col as int ==> result@.cell(row as int, j) == self@.cell(
                            row as int,
                            j,
                        ).sp_sub(other@.cell(row as int, j)),
                decreases self.columns - col,
            {
                let v = self.get(row, col).minus(*other.get(row, col));
                proof {
                    lemma_upd_cell(result@, row as int, col as int, v);
                }
                let ghost snap = result@;
                result.set(row, col, v);
                proof {
                    assert forall|i2: int, j2: int|
                        0 <= i2 < row as int + 1 && 0 <= j2 < self.columns as int && (i2
                            < row as int || j2 < col as int + 1) implies result@.cell(i2, j2)
                        == self@.cell(i2, j2).sp_sub(other@.cell(i2, j2)) by {
                        if !(i2 == row as int && j2 == col as int) {
                            assert(result@.cell(i2, j2) == snap.cell(i2, j2));
                        }
                    }
                }
                col = col + 1;
            }
            row = row + 1;
        }
        proof {
            lemma_cells_eq(result@, gm_subtract(self@, other@));
        }
        Ok(result)
    }

    /// Multiplies `self` by `other` with the standard triple loop.
    #[verifier::loop_isolation(false)]
    pub fn matmul(&self, other: &Self) -> (r: Result<Self, LinAlgError>)
        requires
            self@.wf(),
            other@.wf(),
            self.rows * other.columns <= usize::MAX,
        ensures
            match r {
                Ok(c) => self.columns == other.rows && c@ == gm_matmul(self@, other@)
                    && c.rows == self.rows && c.columns == other.columns,
                Err(e) => self.columns != other.rows && e == LinAlgError::DimensionMismatch,
            },
    {
        if self.columns != other.rows {
            return Err(LinAlgError::DimensionMismatch);
        }
        let mut result = DenseMatrix::new(self.rows, other.columns);
        proof {
            lemma_matmul_props(self@, other@);
            lemma_fill_props(self.rows as int, other.columns as int, T::sp_zero());
        }
        let mut row: usize = 0;
        while row < self.rows
            invariant
                row <= self.rows,
                self@.wf(),
                other@.wf(),
                other.rows == self.columns,
                result.rows == self.rows,
                result.columns == other.columns,
                result@.wf(),
                forall|i: int, j: int|
                    0 <= i < row as int && 0 <= j < other.columns as int ==> result@.cell(i, j)
                        == dot(self@, other@, i, j, self.columns as int),
            decreases self.rows - row,
        {
            let mut col: usize = 0;
            while col < other.columns
                invariant
                    row < self.rows,
                    col <= other.columns,
                    self@.wf(),
                    other@.wf(),
                    other.rows == self.columns,
                    result.rows == self.rows,
                    result.columns == other.columns,
                    result@.wf(),
                    forall|i: int, j: int|
                        0 <= i < row as int && 0 <= j < other.columns as int ==> result@.cell(i, j)
                            == dot(self@, other@, i, j, self.columns as int),
                    forall|j: int|
                        0 <= j < col as int ==> result@.cell(row as int, j) == dot(
                            self@,
                            other@,
                            row as int,
                            j,
                            self.columns as int,
                        ),
                decreases other.columns - col,
            {
                let mut acc = T::zero();
                let mut k: usize = 0;
                while k < self.columns
                    invariant
                        row < self.rows,
                        col < other.columns,
                        k <= self.columns,
                        self@.wf(),
                        other@.wf(),
                        other.rows == self.columns,
                        acc == dot(self@, other@, row as int, col as int, k as int),
                    decreases self.columns - k,
                {
                    acc = acc.plus(self.get(row, k).times(*other.get(k, col)));
                    k = k + 1;
                }
                proof {
                    lemma_upd_cell(result@, row as int, col as int, acc);
                }
                let ghost snap = result@;
                result.set(row, col, acc);
                proof {
                    assert forall|i2: int, j2: int|
                        0 <= i2 < row as int + 1 && 0 <= j2 < other.columns as int && (i2
                            < row as int || j2 < col as int + 1) implies result@.cell(i2, j2)
                        == dot(self@, other@, i2, j2, self.columns as int) by {
                        if !(i2 == row as int && j2 == col as int) {
                            assert(result@.cell(i2, j2) == snap.cell(i2, j2));
                        }
                    }
                }
                col = col + 1;
            }
            row = row + 1;
        }
        proof {
            lemma_cells_eq(result@, gm_matmul(self@, other@));
        }
        Ok(result)
    }
}

} // verus!
