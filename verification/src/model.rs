//! The mathematical model of a dense matrix: dimensions and a row-major
//! sequence of cells.  Every kernel contract is stated over this model, and
//! the helper lemmas here relate a flat row-major index to its coordinates.

use vstd::arithmetic::div_mod::{lemma_fundamental_div_mod, lemma_fundamental_div_mod_converse};
use vstd::prelude::*;

verus! {

#[verifier::ext_equal]
pub ghost struct GMat<T> {
    pub rows: int,
    pub cols: int,
    pub cells: Seq<T>,
}

impl<T> GMat<T> {
    /// The cell sequence has exactly one entry for each coordinate pair.
    pub open spec fn wf(self) -> bool {
        self.rows >= 0 && self.cols >= 0 && self.cells.len() == self.rows * self.cols
    }

    /// The cell in row `i` and column `j`.
    pub open spec fn cell(self, i: int, j: int) -> T {
        self.cells[i * self.cols + j]
    }

    pub open spec fn same_shape(self, other: Self) -> bool {
        self.rows == other.rows && self.cols == other.cols
    }

    /// This matrix with the cell in row `i` and column `j` replaced by `v`.
    pub open spec fn upd(self, i: int, j: int, v: T) -> Self {
        GMat { rows: self.rows, cols: self.cols, cells: self.cells.update(i * self.cols + j, v) }
    }
}

/// The matrix of the given shape whose cell in row `i` and column `j` is
/// `f(i, j)`.
pub open spec fn gmat<T>(rows: int, cols: int, f: spec_fn(int, int) -> T) -> GMat<T> {
    GMat {
        rows: rows,
        cols: cols,
        cells: Seq::new((rows * cols) as nat, |k: int| f(k / cols, k % cols)),
    }
}

/// In-range coordinates map to an in-range flat index, and back.
pub proof fn lemma_rm_index(rows: int, cols: int, i: int, j: int)
    requires
        0 <= i < rows,
        0 <= j < cols,
    ensures
        0 <= i * cols + j < rows * cols,
        (i * cols + j) / cols == i,
        (i * cols + j) % cols == j,
{
    assert(0 <= i * cols + j && i * cols + j < rows * cols) by (nonlinear_arith)
        requires
            0 <= i < rows,
            0 <= j < cols,
    ;
    lemma_fundamental_div_mod_converse(i * cols + j, cols, i, j);
}

/// An in-range flat index maps to in-range coordinates, and back.
pub proof fn lemma_rm_unindex(rows: int, cols: int, k: int)
    requires
        rows >= 0,
        cols >= 0,
        0 <= k < rows * cols,
    ensures
        0 <= k / cols < rows,
        0 <= k % cols < cols,
        (k / cols) * cols + k % cols == k,
{
    assert(cols > 0 && rows > 0) by (nonlinear_arith)
        requires
            rows >= 0,
            cols >= 0,
            0 <= k < rows * cols,
    ;
    lemma_fundamental_div_mod(k, cols);
    assert(0 <= k % cols < cols);
    let q = k / cols;
    assert(q * cols == cols * q) by (nonlinear_arith);
    assert(k == q * cols + k % cols);
    assert(0 <= q < rows) by (nonlinear_arith)
        requires
            k == q * cols + (k % cols),
            0 <= k % cols < cols,
            0 <= k < rows * cols,
            cols > 0,
    ;
}

/// Two well-shaped matrices of the same shape whose in-range cells agree are
/// equal.
pub proof fn lemma_cells_eq<T>(m: GMat<T>, g: GMat<T>)
    requires
        g.wf(),
        m.rows == g.rows,
        m.cols == g.cols,
        m.cells.len() == g.cells.len(),
        forall|i: int, j: int|
            0 <= i < g.rows && 0 <= j < g.cols ==> m.cell(i, j) == g.cell(i, j),
    ensures
        m == g,
{
    assert forall|k: int| 0 <= k < m.cells.len() implies m.cells[k] == g.cells[k] by {
        lemma_rm_unindex(g.rows, g.cols, k);
        let i = k / g.cols;
        let j = k % g.cols;
        assert(m.cell(i, j) == g.cell(i, j));
    }
    assert(m =~= g);
}

/// What one cell update does to every cell of a well-formed matrix.
pub proof fn lemma_upd_cell<T>(m: GMat<T>, i: int, j: int, v: T)
    requires
        m.wf(),
        0 <= i < m.rows,
        0 <= j < m.cols,
    ensures
        m.upd(i, j, v).wf(),
        m.upd(i, j, v).rows == m.rows,
        m.upd(i, j, v).cols == m.cols,
        m.upd(i, j, v).cell(i, j) == v,
        forall|i2: int, j2: int|
            0 <= i2 < m.rows && 0 <= j2 < m.cols && !(i2 == i && j2 == j) ==> m.upd(
                i,
                j,
                v,
            ).cell(i2, j2) == m.cell(i2, j2),
{
    lemma_rm_index(m.rows, m.cols, i, j);
    assert forall|i2: int, j2: int|
        0 <= i2 < m.rows && 0 <= j2 < m.cols && !(i2 == i && j2 == j) implies m.upd(
        i,
        j,
        v,
    ).cell(i2, j2) == m.cell(i2, j2) by {
        lemma_rm_index(m.rows, m.cols, i2, j2);
        assert(i2 * m.cols + j2 != i * m.cols + j);
    }
}

/// Every in-range cell of `gmat(rows, cols, f)` is `f` at those coordinates.
pub proof fn lemma_gmat_cell<T>(rows: int, cols: int, f: spec_fn(int, int) -> T, i: int, j: int)
    requires
        rows >= 0,
        cols >= 0,
        0 <= i < rows,
        0 <= j < cols,
    ensures
        gmat(rows, cols, f).wf(),
        gmat(rows, cols, f).cell(i, j) == f(i, j),
{
    lemma_rm_index(rows, cols, i, j);
}

} // verus!
