//! The scalar capability interface that every matrix kernel is generic over.
//!
//! A scalar must offer addition, subtraction, multiplication, division,
//! square root, absolute value, an ordering test, a zero element, sign and
//! zero tests, and parsing from text.  Each implementation fixes the meaning
//! of the operations through its own specification functions; the kernels'
//! contracts are stated in terms of those, so they pin the result of every
//! computation for every implementation that meets this interface.

use vstd::prelude::*;

verus! {

/// The numeric capability interface.  Each specification function defaults
/// to an unspecified value: an implementation that does not define it
/// promises nothing through it, while an implementation inside this library
/// defines them all and is verified against them.
pub trait Scalar: Sized + Copy {
    /// The additive identity of this scalar type.
    open spec fn sp_zero() -> Self {
        vstd::pervasive::arbitrary()
    }

    /// The value that `plus` returns.
    open spec fn sp_add(self, other: Self) -> Self {
        vstd::pervasive::arbitrary()
    }

    /// The value that `minus` returns.
    open spec fn sp_sub(self, other: Self) -> Self {
        vstd::pervasive::arbitrary()
    }

    /// The value that `times` returns.
    open spec fn sp_mul(self, other: Self) -> Self {
        vstd::pervasive::arbitrary()
    }

    /// The value that `divide` returns.
    open spec fn sp_div(self, other: Self) -> Self {
        vstd::pervasive::arbitrary()
    }

    /// The value that `sqrt` returns.
    open spec fn sp_sqrt(self) -> Self {
        vstd::pervasive::arbitrary()
    }

    /// The value that `abs` returns.
    open spec fn sp_abs(self) -> Self {
        vstd::pervasive::arbitrary()
    }

    /// Whether this value orders strictly below `other`.
    open spec fn sp_lt(self, other: Self) -> bool {
        vstd::pervasive::arbitrary()
    }

    /// Whether this value is the zero of the type.
    open spec fn sp_is_zero(self) -> bool {
        vstd::pervasive::arbitrary()
    }

    /// Whether this value is strictly positive.
    open spec fn sp_is_pos(self) -> bool {
        vstd::pervasive::arbitrary()
    }

    /// The value that `from_text` returns: `None` when the characters do not
    /// spell a number of this type.
    open spec fn sp_from_text(t: Seq<char>) -> Option<Self> {
        vstd::pervasive::arbitrary()
    }

    fn zero() -> (r: Self)
        ensures
            r == Self::sp_zero(),
    ;

    fn plus(self, other: Self) -> (r: Self)
        ensures
            r == self.sp_add(other),
    ;

    fn minus(self, other: Self) -> (r: Self)
        ensures
            r == self.sp_sub(other),
    ;

    fn times(self, other: Self) -> (r: Self)
        ensures
            r == self.sp_mul(other),
    ;

    fn divide(self, other: Self) -> (r: Self)
        ensures
            r == self.sp_div(other),
    ;

    fn sqrt(self) -> (r: Self)
        ensures
            r == self.sp_sqrt(),
    ;

    fn abs(self) -> (r: Self)
        ensures
            r == self.sp_abs(),
    ;

    fn lt(self, other: Self) -> (r: bool)
        ensures
            r == self.sp_lt(other),
    ;

    fn is_zero(self) -> (r: bool)
        ensures
            r == self.sp_is_zero(),
    ;

    fn is_positive(self) -> (r: bool)
        ensures
            r == self.sp_is_pos(),
    ;

    fn from_text(t: &[char]) -> (r: Option<Self>)
        ensures
            r == Self::sp_from_text(t@),
    ;
}

} // verus!
