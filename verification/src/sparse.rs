//! The compressed-sparse-row matrix: its invariant, its mathematical model,
//! conversion to a dense matrix, and construction from the lines of a
//! coordinate-format text file.

use crate::dense::DenseMatrix;
use crate::errors::LinAlgError;
use crate::model::{gmat, lemma_cells_eq, lemma_gmat_cell, lemma_upd_cell, GMat};
use crate::scalar::Scalar;
use crate::text::{sp_parse_usize, tokenize, toks, parse_usize_token};
use vstd::prelude::*;

verus! {

pub struct Matrix<T> {
    pub rows: usize,
    pub columns: usize,
    pub nnz: usize,
    pub values: Vec<T>,
    pub col_indices: Vec<usize>,
    pub row_ptr: Vec<usize>,
}

/// The mathematical model of a compressed-sparse-row matrix.
#[verifier::ext_equal]
pub ghost struct CsrModel<T> {
    pub rows: int,
    pub cols: int,
    pub nnz: int,
    pub values: Seq<T>,
    pub col_indices: Seq<int>,
    pub row_ptr: Seq<int>,
}

impl<T> View for Matrix<T> {
    type V = CsrModel<T>;

    open spec fn view(&self) -> CsrModel<T> {
        CsrModel {
            rows: self.rows as int,
            cols: self.columns as int,
            nnz: self.nnz as int,
            values: self.values@,
            col_indices: Seq::new(self.col_indices@.len(), |i: int| self.col_indices@[i] as int),
            row_ptr: Seq::new(self.row_ptr@.len(), |i: int| self.row_ptr@[i] as int),
        }
    }
}

impl<T> CsrModel<T> {
    /// The compressed-sparse-row invariant: a row-pointer table of the right
    /// length that starts at zero, never decreases, and ends at the number
    /// of stored values, with every column index in bounds.
    pub open spec fn wf(self) -> bool {
        &&& self.rows >= 0
        &&& self.cols >= 0
        &&& self.nnz >= 0
        &&& self.row_ptr.len() == self.rows + 1
        &&& self.row_ptr[0] == 0
        &&& forall|r: int| 0 <= r < self.rows ==> #[trigger] self.row_ptr[r] <= self.row_ptr[r + 1]
        &&& self.row_ptr[self.rows] == self.nnz
        &&& self.values.len() == self.nnz
        &&& self.col_indices.len() == self.nnz
        &&& forall|i: int| 0 <= i < self.nnz ==> 0 <= #[trigger] self.col_indices[i] < self.cols
    }
}

/// The row pointers of a well-formed model never decrease between any two
/// positions.
pub proof fn lemma_row_ptr_mono<T>(c: CsrModel<T>, a: int, b: int)
    requires
        c.wf(),
        0 <= a <= b <= c.rows,
    ensures
        c.row_ptr[a] <= c.row_ptr[b],
    decreases b - a,
{
    if a < b {
        lemma_row_ptr_mono(c, a + 1, b);
    }
}

/// The cell in row `r` and column `col` after the first `k` stored entries
/// of row `r` are applied in order; a later entry overwrites an earlier one
/// at the same column.
pub open spec fn csr_cell_upto<T: Scalar>(c: CsrModel<T>, r: int, col: int, k: int) -> T
    decreases k,
{
    if k <= 0 {
        T::sp_zero()
    } else {
        let idx = c.row_ptr[r] + k - 1;
        if c.col_indices[idx] == col {
            c.values[idx]
        } else {
            csr_cell_upto(c, r, col, k - 1)
        }
    }
}

/// The cell in row `r` and column `col` of the dense form of `c`.
pub open spec fn csr_cell<T: Scalar>(c: CsrModel<T>, r: int, col: int) -> T {
    csr_cell_upto(c, r, col, c.row_ptr[r + 1] - c.row_ptr[r])
}

/// The dense form of `c`.
pub open spec fn gm_of_csr<T: Scalar>(c: CsrModel<T>) -> GMat<T> {
    gmat(c.rows, c.cols, |i: int, j: int| csr_cell(c, i, j))
}

/// Shape and cells of `gm_of_csr`.
pub proof fn lemma_of_csr_props<T: Scalar>(c: CsrModel<T>)
    requires
        c.rows >= 0,
        c.cols >= 0,
    ensures
        gm_of_csr(c).wf(),
        gm_of_csr(c).rows == c.rows,
        gm_of_csr(c).cols == c.cols,
        forall|i: int, j: int|
            0 <= i < c.rows && 0 <= j < c.cols ==> gm_of_csr(c).cell(i, j) == csr_cell(c, i, j),
{
    let f = |i: int, j: int| csr_cell(c, i, j);
    assert forall|i: int, j: int| 0 <= i < c.rows && 0 <= j < c.cols implies gm_of_csr(c).cell(
        i,
        j,
    ) == csr_cell(c, i, j) by {
        lemma_gmat_cell(c.rows, c.cols, f, i, j);
    }
}

impl<T: Scalar> Matrix<T> {
    /// Materializes the sparse matrix as a dense matrix: every cell is zero
    /// except where a stored entry names it, and the last stored entry for a
    /// cell wins.
    #[verifier::loop_isolation(false)]
    pub fn to_dense(&self) -> (r: DenseMatrix<T>)
        requires
            self@.wf(),
            self.rows * self.columns <= usize::MAX,
        ensures
            r.rows == self.rows,
            r.columns == self.columns,
            r@ == gm_of_csr(self@),
    {
        let mut dense: DenseMatrix<T> = DenseMatrix::new(self.rows, self.columns);
        proof {
            crate::dense::lemma_fill_props(self.rows as int, self.columns as int, T::sp_zero());
            lemma_of_csr_props(self@);
            assert(self.row_ptr.len() == self.row_ptr@.len());
            assert(self.values.len() == self.values@.len());
            assert(self.col_indices.len() == self.col_indices@.len());
        }
        let mut row: usize = 0;
        while row < self.rows
            invariant
                row <= self.rows,
                dense.rows == self.rows,
                dense.columns == self.columns,
                dense@.wf(),
                forall|p: int, q: int|
                    0 <= p < row as int && 0 <= q < self.columns as int ==> dense@.cell(p, q)
                        == csr_cell(self@, p, q),
                forall|p: int, q: int|
                    row as int <= p < self.rows as int && 0 <= q < self.columns as int
                        ==> dense@.cell(p, q) == T::sp_zero(),
            decreases self.rows - row,
        {
            let lo = self.row_ptr[row];
            let hi = self.row_ptr[row + 1];
            proof {
                lemma_row_ptr_mono(self@, 0, row as int);
                lemma_row_ptr_mono(self@, row as int, row as int + 1);
                lemma_row_ptr_mono(self@, row as int + 1, self.rows as int);
            }
            let mut idx = lo;
            while idx < hi
                invariant
                    lo <= idx <= hi,
                    dense.rows == self.rows,
                    dense.columns == self.columns,
                    dense@.wf(),
                    forall|p: int, q: int|
                        0 <= p < row as int && 0 <= q < self.columns as int ==> dense@.cell(p, q)
                            == csr_cell(self@, p, q),
                    forall|q: int|
                        0 <= q < self.columns as int ==> dense@.cell(row as int, q)
                            == csr_cell_upto(self@, row as int, q, idx - lo),
                    forall|p: int, q: int|
                        (row as int) < p < self.rows as int && 0 <= q < self.columns as int
                            ==> dense@.cell(p, q) == T::sp_zero(),
                decreases hi - idx,
            {
                proof {
                    assert(self@.col_indices[idx as int] == self.col_indices@[idx as int] as int);
                    assert(0 <= self@.col_indices[idx as int] < self@.cols);
                }
                let col = self.col_indices[idx];
                let value = self.values[idx];
                proof {
                    lemma_upd_cell(dense@, row as int, col as int, value);
                }
                let ghost snap = dense@;
                dense.set(row, col, value);
                proof {
                    assert forall|q: int|
                        0 <= q < self.columns as int implies dense@.cell(row as int, q)
                        == csr_cell_upto(self@, row as int, q, idx - lo + 1) by {
                        if q != col as int {
                            assert(dense@.cell(row as int, q) == snap.cell(row as int, q));
                        }
                    }
                    assert forall|p: int, q: int|
                        0 <= p < self.rows as int && 0 <= q < self.columns as int && p
                            != row as int implies dense@.cell(p, q) == snap.cell(p, q) by {}
                    assert forall|p: int, q: int|
                        (row as int) < p < self.rows as int && 0 <= q
                            < self.columns as int implies dense@.cell(p, q) == T::sp_zero() by {
                        assert(dense@.cell(p, q) == snap.cell(p, q));
                        assert(snap.cell(p, q) == T::sp_zero());
                    }
                }
                idx = idx + 1;
            }
            row = row + 1;
        }
        proof {
            lemma_cells_eq(dense@, gm_of_csr(self@));
        }
        dense
    }
}

/// The header triple declared by the first line: rows, columns, stored
/// entries.
pub open spec fn hdr(lines: Seq<Seq<char>>) -> (int, int, int) {
    let ts = toks(lines[0]);
    (sp_parse_usize(ts[0])->0, sp_parse_usize(ts[1])->0, sp_parse_usize(ts[2])->0)
}

/// Whether the first line is a valid header: at least three tokens, every
/// token an unsigned index, and a row count that leaves room for the
/// row-pointer table.
pub open spec fn header_ok(lines: Seq<Seq<char>>) -> bool {
    &&& lines.len() > 0
    &&& toks(lines[0]).len() >= 3
    &&& forall|q: int|
        0 <= q < toks(lines[0]).len() ==> (#[trigger] sp_parse_usize(toks(lines[0])[q])) is Some
    &&& hdr(lines).0 < usize::MAX
}

/// What one coordinate line contributes under the declared bounds: a
/// zero-based `(row, column, value)` triple, or the failure the line
/// provokes, in the order the checks are made.
pub open spec fn line_entry<T: Scalar>(line: Seq<char>, rows: int, cols: int) -> Result<
    (int, int, T),
    LinAlgError,
> {
    let ts = toks(line);
    if ts.len() < 2 || sp_parse_usize(ts[0]) is None || sp_parse_usize(ts[1]) is None {
        Err(LinAlgError::ParseError)
    } else {
        let r = sp_parse_usize(ts[0])->0;
        let c = sp_parse_usize(ts[1])->0;
        if r < 1 || c < 1 {
            Err(LinAlgError::IndexOutOfRange)
        } else if r > rows || c > cols {
            Err(LinAlgError::IndexOutOfRange)
        } else if ts.len() < 3 || T::sp_from_text(ts[2]) is None {
            Err(LinAlgError::ParseError)
        } else {
            Ok((r - 1, c - 1, T::sp_from_text(ts[2])->0))
        }
    }
}

/// Whether every coordinate line contributes an entry.
pub open spec fn entries_ok<T: Scalar>(lines: Seq<Seq<char>>, rows: int, cols: int) -> bool {
    forall|k: int|
        1 <= k < lines.len() ==> (#[trigger] line_entry::<T>(lines[k], rows, cols)) is Ok
}

/// The entries of the coordinate lines, in input order.
pub open spec fn entry_seq<T: Scalar>(lines: Seq<Seq<char>>, rows: int, cols: int) -> Seq<
    (int, int, T),
> {
    Seq::new((lines.len() - 1) as nat, |k: int| line_entry::<T>(lines[k + 1], rows, cols)->Ok_0)
}

/// The entries of row `r`, in input order.
pub open spec fn grp<T>(es: Seq<(int, int, T)>, r: int) -> Seq<(int, int, T)>
    decreases es.len(),
{
    if es.len() == 0 {
        Seq::empty()
    } else if es.last().0 == r {
        grp(es.drop_last(), r).push(es.last())
    } else {
        grp(es.drop_last(), r)
    }
}

/// The number of entries whose row is below `r`.
pub open spec fn cnt_below<T>(es: Seq<(int, int, T)>, r: int) -> int
    decreases es.len(),
{
    if es.len() == 0 {
        0
    } else if es.last().0 < r {
        cnt_below(es.drop_last(), r) + 1
    } else {
        cnt_below(es.drop_last(), r)
    }
}

/// The values of the entries of rows below `r`, grouped by row.
pub open spec fn cat_vals<T>(es: Seq<(int, int, T)>, r: int) -> Seq<T>
    decreases r,
{
    if r <= 0 {
        Seq::empty()
    } else {
        cat_vals(es, r - 1) + grp(es, r - 1).map_values(|e: (int, int, T)| e.2)
    }
}

/// The column indices of the entries of rows below `r`, grouped by row.
pub open spec fn cat_cols<T>(es: Seq<(int, int, T)>, r: int) -> Seq<int>
    decreases r,
{
    if r <= 0 {
        Seq::empty()
    } else {
        cat_cols(es, r - 1) + grp(es, r - 1).map_values(|e: (int, int, T)| e.1)
    }
}

/// The compressed-sparse-row matrix that a valid coordinate file describes.
pub open spec fn csr_of<T: Scalar>(lines: Seq<Seq<char>>) -> CsrModel<T> {
    let rows = hdr(lines).0;
    let cols = hdr(lines).1;
    let nnz = hdr(lines).2;
    let es = entry_seq::<T>(lines, rows, cols);
    CsrModel {
        rows: rows,
        cols: cols,
        nnz: nnz,
        values: cat_vals(es, rows),
        col_indices: cat_cols(es, rows),
        row_ptr: Seq::new((rows + 1) as nat, |i: int| cnt_below(es, i)),
    }
}

/// Taking one more entry extends at most the group of its row, at the end.
pub proof fn lemma_grp_take_step<T>(es: Seq<(int, int, T)>, q: int, r: int)
    requires
        0 <= q < es.len(),
    ensures
        es[q].0 == r ==> grp(es.take(q + 1), r) == grp(es.take(q), r).push(es[q]),
        es[q].0 != r ==> grp(es.take(q + 1), r) == grp(es.take(q), r),
        cnt_below(es.take(q + 1), r) == cnt_below(es.take(q), r) + if es[q].0 < r {
            1int
        } else {
            0int
        },
{
    assert(es.take(q + 1).drop_last() =~= es.take(q));
    assert(es.take(q + 1).last() == es[q]);
}

/// A row group is never longer than the entry sequence.
pub proof fn lemma_grp_len_le<T>(es: Seq<(int, int, T)>, r: int)
    ensures
        grp(es, r).len() <= es.len(),
    decreases es.len(),
{
    if es.len() > 0 {
        lemma_grp_len_le(es.drop_last(), r);
    }
}

/// The below-`r` count lies between zero and the number of entries.
pub proof fn lemma_cnt_bounds<T>(es: Seq<(int, int, T)>, r: int)
    ensures
        0 <= cnt_below(es, r) <= es.len(),
    decreases es.len(),
{
    if es.len() > 0 {
        lemma_cnt_bounds(es.drop_last(), r);
    }
}

/// Counting below `r + 1` adds exactly the group of row `r`.
pub proof fn lemma_cnt_grp<T>(es: Seq<(int, int, T)>, r: int)
    ensures
        cnt_below(es, r + 1) == cnt_below(es, r) + grp(es, r).len(),
    decreases es.len(),
{
    if es.len() > 0 {
        lemma_cnt_grp(es.drop_last(), r);
    }
}

/// With no negative row, nothing counts below row zero.
pub proof fn lemma_cnt_zero<T>(es: Seq<(int, int, T)>)
    requires
        forall|q: int| 0 <= q < es.len() ==> (#[trigger] es[q]).0 >= 0,
    ensures
        cnt_below(es, 0) == 0,
    decreases es.len(),
{
    if es.len() > 0 {
        assert(forall|q: int|
            0 <= q < es.drop_last().len() ==> (#[trigger] es.drop_last()[q]).0 >= 0);
        lemma_cnt_zero(es.drop_last());
    }
}

/// The below-`r` count never decreases as `r` grows.
pub proof fn lemma_cnt_mono<T>(es: Seq<(int, int, T)>, a: int, b: int)
    requires
        a <= b,
    ensures
        cnt_below(es, a) <= cnt_below(es, b),
    decreases b - a,
{
    if a < b {
        lemma_cnt_grp(es, b - 1);
        lemma_grp_len_le(es, b - 1);
        lemma_cnt_mono(es, a, b - 1);
        assert(grp(es, b - 1).len() >= 0);
    }
}

/// With every row below `r`, everything counts.
pub proof fn lemma_cnt_all<T>(es: Seq<(int, int, T)>, r: int)
    requires
        forall|q: int| 0 <= q < es.len() ==> (#[trigger] es[q]).0 < r,
    ensures
        cnt_below(es, r) == es.len(),
    decreases es.len(),
{
    if es.len() > 0 {
        assert(forall|q: int|
            0 <= q < es.drop_last().len() ==> (#[trigger] es.drop_last()[q]).0 < r);
        lemma_cnt_all(es.drop_last(), r);
    }
}

/// The group of a prefix is a prefix of the group.
pub proof fn lemma_grp_prefix<T>(es: Seq<(int, int, T)>, q: int, r: int)
    requires
        0 <= q <= es.len(),
    ensures
        grp(es.take(q), r).len() <= grp(es, r).len(),
        forall|t: int|
            0 <= t < grp(es.take(q), r).len() ==> #[trigger] grp(es.take(q), r)[t] == grp(
                es,
                r,
            )[t],
    decreases es.len() - q,
{
    if q == es.len() {
        assert(es.take(q) =~= es);
    } else {
        lemma_grp_prefix(es, q + 1, r);
        lemma_grp_take_step(es, q, r);
        assert forall|t: int|
            0 <= t < grp(es.take(q), r).len() implies #[trigger] grp(es.take(q), r)[t] == grp(
            es,
            r,
        )[t] by {
            assert(grp(es.take(q), r)[t] == grp(es.take(q + 1), r)[t]);
            assert(grp(es.take(q + 1), r)[t] == grp(es, r)[t]);
        }
    }
}

/// Every element of a row group is an element of the entry sequence with
/// that row.
pub proof fn lemma_grp_elems<T>(es: Seq<(int, int, T)>, r: int)
    ensures
        forall|t: int|
            0 <= t < grp(es, r).len() ==> exists|q: int|
                0 <= q < es.len() && #[trigger] grp(es, r)[t] == es[q],
    decreases es.len(),
{
    if es.len() > 0 {
        lemma_grp_elems(es.drop_last(), r);
        assert forall|t: int| 0 <= t < grp(es, r).len() implies exists|q: int|
            0 <= q < es.len() && #[trigger] grp(es, r)[t] == es[q] by {
            if es.last().0 == r && t == grp(es, r).len() - 1 {
                assert(grp(es, r)[t] == es[es.len() - 1]);
            } else {
                assert(grp(es, r)[t] == grp(es.drop_last(), r)[t]);
                let q = choose|q: int|
                    0 <= q < es.drop_last().len() && grp(es.drop_last(), r)[t] == es.drop_last()[q];
                assert(grp(es, r)[t] == es[q]);
            }
        }
    }
}

/// A vector whose row segments hold the grouped values is their
/// concatenation.
pub proof fn lemma_cat_vals_assemble<T>(es: Seq<(int, int, T)>, vs: Seq<T>, r: int)
    requires
        r >= 0,
        forall|q: int| 0 <= q < es.len() ==> (#[trigger] es[q]).0 >= 0,
        cnt_below(es, r) <= vs.len(),
        forall|rr: int, t: int|
            0 <= rr < r && 0 <= t < grp(es, rr).len() ==> vs[cnt_below(es, rr) + t]
                == (#[trigger] grp(es, rr)[t]).2,
    ensures
        vs.take(cnt_below(es, r)) == cat_vals(es, r),
    decreases r,
{
    lemma_cnt_bounds(es, r);
    if r == 0 {
        lemma_cnt_zero(es);
        assert(vs.take(0) =~= cat_vals(es, 0));
    } else {
        lemma_cnt_grp(es, r - 1);
        lemma_grp_len_le(es, r - 1);
        lemma_cnt_bounds(es, r - 1);
        lemma_cnt_mono(es, r - 1, r);
        lemma_cat_vals_assemble(es, vs, r - 1);
        let prev = cat_vals(es, r - 1);
        let g = grp(es, r - 1);
        let c0 = cnt_below(es, r - 1);
        let c1 = cnt_below(es, r);
        assert(prev.len() == c0);
        assert forall|i: int| 0 <= i < c1 implies vs.take(c1)[i] == cat_vals(es, r)[i] by {
            if i < c0 {
                assert(cat_vals(es, r)[i] == prev[i]);
                assert(prev[i] == vs.take(c0)[i]);
            } else {
                let t = i - c0;
                assert(cat_vals(es, r)[i] == g[t].2);
                assert(vs[c0 + t] == g[t].2);
            }
        }
        assert(vs.take(c1) =~= cat_vals(es, r));
    }
}

/// Grouped column indices stay within the declared bound.
pub proof fn lemma_cat_cols_bounds<T>(es: Seq<(int, int, T)>, r: int, cols: int)
    requires
        forall|q: int| 0 <= q < es.len() ==> 0 <= (#[trigger] es[q]).1 < cols,
    ensures
        forall|i: int| 0 <= i < cat_cols(es, r).len() ==> 0 <= #[trigger] cat_cols(es, r)[i] < cols,
    decreases r,
{
    if r > 0 {
        lemma_cat_cols_bounds(es, r - 1, cols);
        lemma_grp_elems(es, r - 1);
        let prev = cat_cols(es, r - 1);
        let g = grp(es, r - 1);
        assert forall|i: int| 0 <= i < cat_cols(es, r).len() implies 0 <= #[trigger] cat_cols(
            es,
            r,
        )[i] < cols by {
            if i < prev.len() {
                assert(cat_cols(es, r)[i] == prev[i]);
            } else {
                let t = i - prev.len();
                assert(cat_cols(es, r)[i] == g[t].1);
                let q = choose|q: int| 0 <= q < es.len() && g[t] == es[q];
                assert(0 <= es[q].1 < cols);
            }
        }
    }
}

/// A vector whose row segments hold the grouped column indices is their
/// concatenation.
pub proof fn lemma_cat_cols_assemble<T>(es: Seq<(int, int, T)>, cs: Seq<int>, r: int)
    requires
        r >= 0,
        forall|q: int| 0 <= q < es.len() ==> (#[trigger] es[q]).0 >= 0,
        cnt_below(es, r) <= cs.len(),
        forall|rr: int, t: int|
            0 <= rr < r && 0 <= t < grp(es, rr).len() ==> cs[cnt_below(es, rr) + t]
                == (#[trigger] grp(es, rr)[t]).1,
    ensures
        cs.take(cnt_below(es, r)) == cat_cols(es, r),
    decreases r,
{
    lemma_cnt_bounds(es, r);
    if r == 0 {
        lemma_cnt_zero(es);
        assert(cs.take(0) =~= cat_cols(es, 0));
    } else {
        lemma_cnt_grp(es, r - 1);
        lemma_grp_len_le(es, r - 1);
        lemma_cnt_bounds(es, r - 1);
        lemma_cnt_mono(es, r - 1, r);
        lemma_cat_cols_assemble(es, cs, r - 1);
        let prev = cat_cols(es, r - 1);
        let g = grp(es, r - 1);
        let c0 = cnt_below(es, r - 1);
        let c1 = cnt_below(es, r);
        assert(prev.len() == c0);
        assert forall|i: int| 0 <= i < c1 implies cs.take(c1)[i] == cat_cols(es, r)[i] by {
            if i < c0 {
                assert(cat_cols(es, r)[i] == prev[i]);
                assert(prev[i] == cs.take(c0)[i]);
            } else {
                let t = i - c0;
                assert(cat_cols(es, r)[i] == g[t].1);
                assert(cs[c0 + t] == g[t].1);
            }
        }
        assert(cs.take(c1) =~= cat_cols(es, r));
    }
}

/// Whether the whole file is a valid description: a good header, an entry
/// from every line, and exactly the declared number of entries.
pub open spec fn convert_ok<T: Scalar>(l: Seq<Seq<char>>) -> bool {
    header_ok(l) && entries_ok::<T>(l, hdr(l).0, hdr(l).1) && l.len() - 1 == hdr(l).2
}

/// Whether `k` is the first coordinate line to provoke a failure, and `e`
/// that failure.
pub open spec fn convert_err_at<T: Scalar>(l: Seq<Seq<char>>, k: int, e: LinAlgError) -> bool {
    &&& 1 <= k < l.len()
    &&& line_entry::<T>(l[k], hdr(l).0, hdr(l).1) == Err::<(int, int, T), LinAlgError>(e)
    &&& forall|q: int|
        1 <= q < k ==> (#[trigger] line_entry::<T>(l[q], hdr(l).0, hdr(l).1)) is Ok
}

/// Builds a compressed-sparse-row matrix from the lines of a coordinate
/// file: a header `rows columns nnz`, then one-based `row column value`
/// triples, one per line, in any row order.  Entries are grouped by row in
/// input order.  Fails on the header when it is missing, short, or not made
/// of machine-sized numbers; on the first bad coordinate line; and when the
/// entry count does not match the declared `nnz`.
#[verifier::loop_isolation(false)]
#[verifier::rlimit(100)]
pub fn convert_file_csr<T: Scalar>(lines: Vec<String>) -> (r: Result<Matrix<T>, LinAlgError>)
    ensures
        ({
            let l = lines.deep_view();
            match r {
                Ok(m) => convert_ok::<T>(l) && m@.wf() && m@ == csr_of::<T>(l),
                Err(e) => {
                    ||| !header_ok(l) && e == LinAlgError::ParseError
                    ||| header_ok(l) && exists|k: int| #[trigger] convert_err_at::<T>(l, k, e)
                    ||| header_ok(l) && entries_ok::<T>(l, hdr(l).0, hdr(l).1) && l.len() - 1
                        != hdr(l).2 && e == LinAlgError::ParseError
                },
            }
        }),
{
    let ghost l = lines.deep_view();
    if lines.len() == 0 {
        return Err(LinAlgError::ParseError);
    }
    let first: &String = &lines[0];
    proof {
        assert(l[0] == lines@[0]@);
    }
    let hts = tokenize(first.as_str());
    if hts.len() < 3 {
        return Err(LinAlgError::ParseError);
    }
    let mut rows: usize = 0;
    let mut columns: usize = 0;
    let mut nnz: usize = 0;
    let nh = hts.len();
    let mut q: usize = 0;
    while q < nh
        invariant
            q <= nh,
            forall|t: int|
                0 <= t < q as int ==> (#[trigger] sp_parse_usize(toks(l[0])[t])) is Some,
            q > 0 ==> rows as int == sp_parse_usize(toks(l[0])[0])->0,
            q > 1 ==> columns as int == sp_parse_usize(toks(l[0])[1])->0,
            q > 2 ==> nnz as int == sp_parse_usize(toks(l[0])[2])->0,
        decreases nh - q,
    {
        let tok = &hts[q];
        proof {
            assert(tok@ == toks(l[0])[q as int]);
        }
        match parse_usize_token(tok.as_slice()) {
            None => {
                proof {
                    assert(sp_parse_usize(toks(l[0])[q as int]) is None);
                    assert(!header_ok(l));
                }
                return Err(LinAlgError::ParseError);
            },
            Some(v) => {
                if q == 0 {
                    rows = v;
                } else if q == 1 {
                    columns = v;
                } else if q == 2 {
                    nnz = v;
                }
            },
        }
        q = q + 1;
    }
    if rows == usize::MAX {
        proof {
            assert(hdr(l).0 == usize::MAX as int);
        }
        return Err(LinAlgError::ParseError);
    }
    let ghost hr = rows as int;
    let ghost hc = columns as int;
    let ghost hn = nnz as int;
    proof {
        assert(hdr(l) == (hr, hc, hn));
        assert(header_ok(l));
    }
    let ghost es = entry_seq::<T>(l, hr, hc);

    // First pass: parse and validate every coordinate line, keep the
    // entries in input order, and count the entries of each row.
    let mut e_rows: Vec<usize> = Vec::new();
    let mut e_cols: Vec<usize> = Vec::new();
    let mut e_vals: Vec<T> = Vec::new();
    let mut counts: Vec<usize> = Vec::new();
    let mut t0: usize = 0;
    while t0 < rows
        invariant
            t0 <= rows,
            counts@.len() == t0 as int,
            forall|rr: int| 0 <= rr < t0 as int ==> counts@[rr] == 0,
        decreases rows - t0,
    {
        counts.push(0);
        t0 = t0 + 1;
    }
    let nlines = lines.len();
    proof {
        assert(es.len() == l.len() - 1);
        assert forall|rr: int| 0 <= rr < hr implies counts@[rr] as int == grp(
            es.take(0),
            rr,
        ).len() by {
            assert(es.take(0) =~= Seq::<(int, int, T)>::empty());
        }
    }
    let mut k: usize = 1;
    #[verifier::loop_isolation(true)]
    while k < nlines
        invariant
            1 <= k <= nlines,
            nlines as int == l.len(),
            l == lines.deep_view(),
            hr == rows as int,
            hc == columns as int,
            hn == nnz as int,
            hdr(l) == (hr, hc, hn),
            header_ok(l),
            es == entry_seq::<T>(l, hr, hc),
            es.len() == l.len() - 1,
            forall|t: int|
                1 <= t < k as int ==> (#[trigger] line_entry::<T>(l[t], hr, hc)) is Ok,
            e_rows@.len() == k as int - 1,
            e_cols@.len() == k as int - 1,
            e_vals@.len() == k as int - 1,
            forall|t: int|
                0 <= t < k as int - 1 ==> (#[trigger] es[t]).0 == e_rows@[t] as int && es[t].1
                    == e_cols@[t] as int && es[t].2 == e_vals@[t],
            forall|t: int|
                0 <= t < k as int - 1 ==> 0 <= (#[trigger] es[t]).0 < hr && 0 <= es[t].1 < hc,
            counts@.len() == hr,
            forall|rr: int|
                0 <= rr < hr ==> counts@[rr] as int == grp(es.take(k as int - 1), rr).len(),
        decreases nlines - k,
    {
        let line: &String = &lines[k];
        proof {
            assert(l[k as int] == lines@[k as int]@);
        }
        let ts = tokenize(line.as_str());
        if ts.len() < 2 {
            proof {
                assert(convert_err_at::<T>(l, k as int, LinAlgError::ParseError));
            }
            return Err(LinAlgError::ParseError);
        }
        let tok0 = &ts[0];
        proof {
            assert(tok0@ == toks(l[k as int])[0]);
        }
        let r0 = match parse_usize_token(tok0.as_slice()) {
            None => {
                proof {
                    assert(convert_err_at::<T>(l, k as int, LinAlgError::ParseError));
                }
                return Err(LinAlgError::ParseError);
            },
            Some(v) => v,
        };
        let tok1 = &ts[1];
        proof {
            assert(tok1@ == toks(l[k as int])[1]);
        }
        let c0 = match parse_usize_token(tok1.as_slice()) {
            None => {
                proof {
                    assert(convert_err_at::<T>(l, k as int, LinAlgError::ParseError));
                }
                return Err(LinAlgError::ParseError);
            },
            Some(v) => v,
        };
        if r0 < 1 || c0 < 1 {
            proof {
                assert(convert_err_at::<T>(l, k as int, LinAlgError::IndexOutOfRange));
            }
            return Err(LinAlgError::IndexOutOfRange);
        }
        if r0 > rows || c0 > columns {
            proof {
                assert(convert_err_at::<T>(l, k as int, LinAlgError::IndexOutOfRange));
            }
            return Err(LinAlgError::IndexOutOfRange);
        }
        if ts.len() < 3 {
            proof {
                assert(convert_err_at::<T>(l, k as int, LinAlgError::ParseError));
            }
            return Err(LinAlgError::ParseError);
        }
        let tok2 = &ts[2];
        proof {
            assert(tok2@ == toks(l[k as int])[2]);
        }
        let value = match T::from_text(tok2.as_slice()) {
            None => {
                proof {
                    assert(convert_err_at::<T>(l, k as int, LinAlgError::ParseError));
                }
                return Err(LinAlgError::ParseError);
            },
            Some(v) => v,
        };
        proof {
            assert(line_entry::<T>(l[k as int], hr, hc) == Ok::<(int, int, T), LinAlgError>(
                ((r0 - 1) as int, (c0 - 1) as int, value),
            ));
            assert(es[k as int - 1] == ((r0 - 1) as int, (c0 - 1) as int, value));
            lemma_grp_len_le(es.take(k as int - 1), r0 as int - 1);
        }
        e_rows.push(r0 - 1);
        e_cols.push(c0 - 1);
        e_vals.push(value);
        let cprev = counts[r0 - 1];
        counts[r0 - 1] = cprev + 1;
        proof {
            assert forall|rr: int| 0 <= rr < hr implies counts@[rr] as int == grp(
                es.take(k as int),
                rr,
            ).len() by {
                lemma_grp_take_step(es, k as int - 1, rr);
            }
        }
        k = k + 1;
    }
    proof {
        assert(es.take(nlines as int - 1) =~= es);
        assert(entries_ok::<T>(l, hr, hc));
    }

    // Second pass: prefix-sum the per-row counts into row pointers.
    let mut rp: Vec<usize> = Vec::new();
    rp.push(0);
    proof {
        assert forall|t: int| 0 <= t < es.len() implies (#[trigger] es[t]).0 >= 0 by {}
        lemma_cnt_zero(es);
    }
    let mut i2: usize = 1;
    while i2 <= rows
        invariant
            1 <= i2 <= rows + 1,
            rp@.len() == i2 as int,
            forall|t: int| 0 <= t < i2 as int ==> rp@[t] as int == cnt_below(es, t),
        decreases rows + 1 - i2,
    {
        proof {
            lemma_cnt_grp(es, i2 as int - 1);
            lemma_cnt_bounds(es, i2 as int);
        }
        let step = rp[i2 - 1] + counts[i2 - 1];
        rp.push(step);
        i2 = i2 + 1;
    }
    if rp[rows] != nnz {
        proof {
            lemma_cnt_all(es, hr);
        }
        return Err(LinAlgError::ParseError);
    }
    proof {
        lemma_cnt_all(es, hr);
        assert(hn == es.len());
    }

    // Third pass: scatter the entries into their rows, in input order.
    let total = nnz;
    let mut vals: Vec<T> = Vec::new();
    let mut cols_v: Vec<usize> = Vec::new();
    let mut t1: usize = 0;
    while t1 < total
        invariant
            t1 <= total,
            vals@.len() == t1 as int,
            cols_v@.len() == t1 as int,
        decreases total - t1,
    {
        vals.push(T::zero());
        cols_v.push(0);
        t1 = t1 + 1;
    }
    let mut next: Vec<usize> = Vec::new();
    let mut t2: usize = 0;
    while t2 < rows
        invariant
            t2 <= rows,
            next@.len() == t2 as int,
            forall|rr: int| 0 <= rr < t2 as int ==> next@[rr] == rp@[rr],
        decreases rows - t2,
    {
        next.push(rp[t2]);
        t2 = t2 + 1;
    }
    let ecount = e_rows.len();
    proof {
        assert(ecount as int == es.len());
        assert forall|rr: int| 0 <= rr < hr implies next@[rr] as int == cnt_below(es, rr) + grp(
            es.take(0),
            rr,
        ).len() by {
            assert(es.take(0) =~= Seq::<(int, int, T)>::empty());
        }
    }
    let mut q2: usize = 0;
    #[verifier::loop_isolation(true)]
    while q2 < ecount
        invariant
            q2 <= ecount,
            hr == rows as int,
            hn == nnz as int,
            es.len() == hn,
            cnt_below(es, hr) == hn,
            ecount as int == es.len(),
            e_rows@.len() == es.len(),
            e_cols@.len() == es.len(),
            e_vals@.len() == es.len(),
            forall|t: int|
                0 <= t < es.len() ==> (#[trigger] es[t]).0 == e_rows@[t] as int && es[t].1
                    == e_cols@[t] as int && es[t].2 == e_vals@[t],
            forall|t: int|
                0 <= t < es.len() ==> 0 <= (#[trigger] es[t]).0 < hr && 0 <= es[t].1 < hc,
            vals@.len() == hn,
            cols_v@.len() == hn,
            next@.len() == hr,
            forall|rr: int|
                0 <= rr < hr ==> next@[rr] as int == cnt_below(es, rr) + grp(
                    es.take(q2 as int),
                    rr,
                ).len(),
            forall|rr: int, t: int|
                0 <= rr < hr && 0 <= t < grp(es.take(q2 as int), rr).len() ==> vals@[cnt_below(
                    es,
                    rr,
                ) + t] == (#[trigger] grp(es.take(q2 as int), rr)[t]).2 && cols_v@[cnt_below(
                    es,
                    rr,
                ) + t] as int == grp(es.take(q2 as int), rr)[t].1,
        decreases ecount - q2,
    {
        let rr = e_rows[q2];
        let cc = e_cols[q2];
        let vv = e_vals[q2];
        proof {
            assert(es[q2 as int] == (rr as int, cc as int, vv));
            lemma_grp_take_step(es, q2 as int, rr as int);
            lemma_grp_prefix(es, q2 as int + 1, rr as int);
            lemma_cnt_grp(es, rr as int);
            lemma_cnt_mono(es, rr as int + 1, hr);
            lemma_cnt_bounds(es, rr as int);
        }
        let pos = next[rr];
        proof {
            assert((pos as int) < cnt_below(es, rr as int + 1));
            assert((pos as int) < hn);
        }
        let ghost vsnap = vals@;
        let ghost csnap = cols_v@;
        vals[pos] = vv;
        cols_v[pos] = cc;
        let np = pos + 1;
        next[rr] = np;
        proof {
            assert(vals@ == vsnap.update(pos as int, vv));
            assert(cols_v@ == csnap.update(pos as int, cc));
            assert forall|rr2: int| 0 <= rr2 < hr implies next@[rr2] as int == cnt_below(es, rr2)
                + grp(es.take(q2 as int + 1), rr2).len() by {
                lemma_grp_take_step(es, q2 as int, rr2);
            }
            assert forall|rr2: int, t: int|
                0 <= rr2 < hr && 0 <= t < grp(es.take(q2 as int + 1), rr2).len() implies vals@[
            cnt_below(es, rr2) + t] == (#[trigger] grp(es.take(q2 as int + 1), rr2)[t]).2
                && cols_v@[cnt_below(es, rr2) + t] as int == grp(
                es.take(q2 as int + 1),
                rr2,
            )[t].1 by {
                lemma_grp_take_step(es, q2 as int, rr2);
                lemma_grp_len_le(es.take(q2 as int), rr2);
                lemma_grp_prefix(es, q2 as int, rr2);
                lemma_grp_prefix(es, q2 as int + 1, rr2);
                lemma_cnt_grp(es, rr2);
                lemma_cnt_bounds(es, rr2);
                lemma_cnt_mono(es, rr2 + 1, hr);
                let idx = cnt_below(es, rr2) + t;
                assert(0 <= idx < hn);
                if rr2 == rr as int && t == grp(es.take(q2 as int + 1), rr2).len() - 1 {
                    assert(idx == pos as int);
                    assert(grp(es.take(q2 as int + 1), rr2)[t] == es[q2 as int]);
                    assert(vals@[idx] == vv);
                    assert(cols_v@[idx] == cc);
                } else {
                    assert(grp(es.take(q2 as int + 1), rr2)[t] == grp(es.take(q2 as int), rr2)[t]);
                    if rr2 < rr as int {
                        lemma_cnt_mono(es, rr2 + 1, rr as int);
                        assert(idx < pos as int);
                    } else if rr2 > rr as int {
                        lemma_cnt_mono(es, rr as int + 1, rr2);
                        assert(idx > pos as int);
                    } else {
                        assert(idx < pos as int);
                    }
                    assert(vals@[idx] == vsnap[idx]);
                    assert(cols_v@[idx] == csnap[idx]);
                    assert(vsnap[idx] == (grp(es.take(q2 as int), rr2)[t]).2);
                    assert(csnap[idx] as int == (grp(es.take(q2 as int), rr2)[t]).1);
                }
            }
        }
        q2 = q2 + 1;
    }
    proof {
        assert(es.take(ecount as int) =~= es);
    }
    let m = Matrix {
        rows,
        columns,
        nnz,
        values: vals,
        col_indices: cols_v,
        row_ptr: rp,
    };
    proof {
        let c = m@;
        lemma_cnt_all(es, hr);
        lemma_cat_vals_assemble(es, vals@, hr);
        assert(vals@.take(cnt_below(es, hr)) =~= vals@);
        let cs = c.col_indices;
        assert(cs.len() == hn);
        assert forall|rr: int, t: int|
            0 <= rr < hr && 0 <= t < grp(es, rr).len() implies cs[cnt_below(es, rr) + t]
            == (#[trigger] grp(es, rr)[t]).1 by {
            lemma_cnt_grp(es, rr);
            lemma_cnt_bounds(es, rr);
            lemma_cnt_mono(es, rr + 1, hr);
            assert(cols_v@[cnt_below(es, rr) + t] as int == grp(es, rr)[t].1);
        }
        lemma_cat_cols_assemble(es, cs, hr);
        assert(cs.take(cnt_below(es, hr)) =~= cs);
        assert(c.row_ptr =~= Seq::new((hr + 1) as nat, |i: int| cnt_below(es, i)));
        assert(c =~= csr_of::<T>(l));
        assert forall|rr: int| 0 <= rr < hr implies #[trigger] c.row_ptr[rr] <= c.row_ptr[rr
            + 1] by {
            lemma_cnt_grp(es, rr);
            lemma_grp_len_le(es, rr);
        }
        assert forall|t: int| 0 <= t < es.len() implies 0 <= (#[trigger] es[t]).1 < hc by {}
        lemma_cat_cols_bounds(es, hr, hc);
        assert(c.wf());
    }
    Ok(m)
}

} // verus!
