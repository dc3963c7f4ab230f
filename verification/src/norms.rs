//! Residual norms: the maximum norm and the Euclidean norm of the
//! element-wise difference of two matrices of the same shape.

use crate::dense::DenseMatrix;
use crate::errors::LinAlgError;
use crate::model::GMat;
use crate::scalar::Scalar;
use vstd::prelude::*;

verus! {

/// The maximum of the absolute differences of the first `k` cells,
/// starting from zero.
pub open spec fn mn_fold<T: Scalar>(a: GMat<T>, b: GMat<T>, k: int) -> T
    decreases k,
{
    if k <= 0 {
        T::sp_zero()
    } else {
        let m = mn_fold(a, b, k - 1);
        let d = a.cells[k - 1].sp_sub(b.cells[k - 1]).sp_abs();
        if m.sp_lt(d) {
            d
        } else {
            m
        }
    }
}

/// The maximum norm of `a - b`: `max_k |a_k - b_k|`, zero for an empty
/// matrix.
pub open spec fn sp_max_norm<T: Scalar>(a: GMat<T>, b: GMat<T>) -> T {
    mn_fold(a, b, a.cells.len() as int)
}

/// The sum of the squared differences of the first `k` cells, accumulated
/// left to right from zero.
pub open spec fn en_fold<T: Scalar>(a: GMat<T>, b: GMat<T>, k: int) -> T
    decreases k,
{
    if k <= 0 {
        T::sp_zero()
    } else {
        let d = a.cells[k - 1].sp_sub(b.cells[k - 1]);
        en_fold(a, b, k - 1).sp_add(d.sp_mul(d))
    }
}

/// The Euclidean norm of `a - b`: `sqrt(sum_k (a_k - b_k)^2)`.
pub open spec fn sp_euclidean_norm<T: Scalar>(a: GMat<T>, b: GMat<T>) -> T {
    en_fold(a, b, a.cells.len() as int).sp_sqrt()
}

impl<T: Scalar> DenseMatrix<T> {
    /// The maximum norm of the element-wise difference of two matrices of
    /// the same shape.
    #[verifier::loop_isolation(false)]
    pub fn max_norm(&self, other: &Self) -> (r: Result<T, LinAlgError>)
        requires
            self@.wf(),
            other@.wf(),
        ensures
            match r {
                Ok(m) => self@.same_shape(other@) && m == sp_max_norm(self@, other@),
                Err(e) => !self@.same_shape(other@) && e == LinAlgError::DimensionMismatch,
            },
    {
        if self.rows != other.rows || self.columns != other.columns {
            return Err(LinAlgError::DimensionMismatch);
        }
        proof {
            assert(self.data.len() == self.data@.len());
            assert(other.data.len() == other.data@.len());
        }
        let len = self.data.len();
        let mut best = T::zero();
        let mut k: usize = 0;
        while k < len
            invariant
                k <= len,
                best == mn_fold(self@, other@, k as int),
            decreases len - k,
        {
            let d = self.data[k].minus(other.data[k]).abs();
            if best.lt(d) {
                best = d;
            }
            k = k + 1;
        }
        Ok(best)
    }

    /// The Euclidean norm of the element-wise difference of two matrices of
    /// the same shape.
    #[verifier::loop_isolation(false)]
    pub fn euclidean_norm(&self, other: &Self) -> (r: Result<T, LinAlgError>)
        requires
            self@.wf(),
            other@.wf(),
        ensures
            match r {
                Ok(m) => self@.same_shape(other@) && m == sp_euclidean_norm(self@, other@),
                Err(e) => !self@.same_shape(other@) && e == LinAlgError::DimensionMismatch,
            },
    {
        if self.rows != other.rows || self.columns != other.columns {
            return Err(LinAlgError::DimensionMismatch);
        }
        proof {
            assert(self.data.len() == self.data@.len());
            assert(other.data.len() == other.data@.len());
        }
        let len = self.data.len();
        let mut acc = T::zero();
        let mut k: usize = 0;
        while k < len
            invariant
                k <= len,
                acc == en_fold(self@, other@, k as int),
            decreases len - k,
        {
            let d = self.data[k].minus(other.data[k]);
            acc = acc.plus(d.times(d));
            k = k + 1;
        }
        Ok(acc.sqrt())
    }
}

} // verus!
