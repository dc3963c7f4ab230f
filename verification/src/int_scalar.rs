//! A machine-integer scalar: `i64` with saturating arithmetic, truncating
//! division, floor square root, and signed decimal parsing.  It gives the
//! generic kernels one implementation that is itself verified against the
//! scalar interface, and exact on whole numbers.

use crate::scalar::Scalar;
use crate::text::{all_digits, dec_val, digit_val, is_digit, lemma_dec_val_extend,
    lemma_dec_val_prefix_le};
use vstd::arithmetic::div_mod::lemma_fundamental_div_mod;
use vstd::prelude::*;

verus! {

/// The nearest representable `i64` to an unbounded integer.
pub open spec fn clamp64(x: int) -> i64 {
    if x > i64::MAX {
        i64::MAX
    } else if x < i64::MIN {
        i64::MIN
    } else {
        x as i64
    }
}

/// The floor square root of a non-negative integer, defined by counting up.
pub open spec fn isqrt(n: int) -> int
    decreases n,
{
    if n <= 0 {
        0
    } else {
        let r = isqrt(n - 1);
        if (r + 1) * (r + 1) <= n {
            r + 1
        } else {
            r
        }
    }
}

/// The floor square root brackets its argument between consecutive squares.
pub proof fn lemma_isqrt_props(n: int)
    requires
        n >= 0,
    ensures
        0 <= isqrt(n),
        isqrt(n) * isqrt(n) <= n,
        (isqrt(n) + 1) * (isqrt(n) + 1) > n,
    decreases n,
{
    if n > 0 {
        lemma_isqrt_props(n - 1);
        let r = isqrt(n - 1);
        if (r + 1) * (r + 1) <= n {
            assert((r + 2) * (r + 2) > n) by (nonlinear_arith)
                requires
                    r >= 0,
                    (r + 1) * (r + 1) > n - 1,
                    (r + 1) * (r + 1) <= n,
            ;
        }
    }
}

/// Any value bracketing `n` between consecutive squares is its floor square
/// root.
pub proof fn lemma_isqrt_unique(n: int, r: int)
    requires
        n >= 0,
        r >= 0,
        r * r <= n,
        (r + 1) * (r + 1) > n,
    ensures
        r == isqrt(n),
{
    lemma_isqrt_props(n);
    let s = isqrt(n);
    assert(r == s) by (nonlinear_arith)
        requires
            r >= 0,
            s >= 0,
            r * r <= n,
            (r + 1) * (r + 1) > n,
            s * s <= n,
            (s + 1) * (s + 1) > n,
    ;
}

/// What parsing a token as a signed decimal number yields: an optional
/// leading minus sign, then a non-empty run of digits whose value fits.
pub open spec fn sp_parse_i64(t: Seq<char>) -> Option<i64> {
    if t.len() > 0 && t[0] == '-' {
        let d = t.skip(1);
        if d.len() > 0 && all_digits(d) && dec_val(d) <= i64::MAX {
            Some((-dec_val(d)) as i64)
        } else {
            None
        }
    } else {
        if t.len() > 0 && all_digits(t) && dec_val(t) <= i64::MAX {
            Some(dec_val(t) as i64)
        } else {
            None
        }
    }
}

/// Parses the digit run `t[from..]` as a value bounded by `i64::MAX`.
#[verifier::loop_isolation(false)]
fn parse_digits_bounded(t: &[char], from: usize) -> (r: Option<i64>)
    requires
        from as int <= t@.len(),
    ensures
        ({
            let d = t@.skip(from as int);
            match r {
                Some(v) => d.len() > 0 && all_digits(d) && dec_val(d) == v as int && 0 <= v,
                None => !(d.len() > 0 && all_digits(d) && dec_val(d) <= i64::MAX),
            }
        }),
{
    let ghost d = t@.skip(from as int);
    if t.len() == from {
        return None;
    }
    let mut acc: i64 = 0;
    let mut i: usize = from;
    while i < t.len()
        invariant
            from <= i <= t@.len(),
            forall|q: int| 0 <= q < i as int - from as int ==> is_digit(d[q]),
            0 <= acc,
            acc as int == dec_val(d.take(i as int - from as int)),
        decreases t@.len() - i,
    {
        let c = t[i];
        if c < '0' || c > '9' {
            proof {
                assert(d[i as int - from as int] == t@[i as int]);
                assert(!all_digits(d));
            }
            return None;
        }
        let dv: i64 = (c as u32 - 48) as i64;
        proof {
            assert(d[i as int - from as int] == t@[i as int]);
            lemma_dec_val_extend(d, i as int - from as int);
            assert(digit_val(d[i as int - from as int]) == dv as int);
            lemma_fundamental_div_mod((i64::MAX - dv) as int, 10);
        }
        if acc > (i64::MAX - dv) / 10 {
            proof {
                assert(dec_val(d.take(i as int - from as int + 1)) > i64::MAX);
                if all_digits(d) {
                    lemma_dec_val_prefix_le(d, i as int - from as int + 1);
                }
            }
            return None;
        }
        acc = acc * 10 + dv;
        i = i + 1;
    }
    proof {
        assert(d.take(t@.len() - from as int) =~= d);
    }
    Some(acc)
}

impl Scalar for i64 {
    open spec fn sp_zero() -> i64 {
        0
    }

    open spec fn sp_add(self, other: i64) -> i64 {
        clamp64(self as int + other as int)
    }

    open spec fn sp_sub(self, other: i64) -> i64 {
        clamp64(self as int - other as int)
    }

    open spec fn sp_mul(self, other: i64) -> i64 {
        clamp64(self as int * other as int)
    }

    open spec fn sp_div(self, other: i64) -> i64 {
        if other == 0 {
            0
        } else {
            let q = abs_of(self as int) / abs_of(other as int);
            if (self < 0) != (other < 0) {
                clamp64(-q)
            } else {
                clamp64(q)
            }
        }
    }

    open spec fn sp_sqrt(self) -> i64 {
        if self <= 0 {
            0
        } else {
            isqrt(self as int) as i64
        }
    }

    open spec fn sp_abs(self) -> i64 {
        clamp64(abs_of(self as int))
    }

    open spec fn sp_lt(self, other: i64) -> bool {
        self < other
    }

    open spec fn sp_is_zero(self) -> bool {
        self == 0
    }

    open spec fn sp_is_pos(self) -> bool {
        self > 0
    }

    open spec fn sp_from_text(t: Seq<char>) -> Option<i64> {
        sp_parse_i64(t)
    }

    fn zero() -> (r: i64) {
        0
    }

    fn plus(self, other: i64) -> (r: i64) {
        clamp_i128(self as i128 + other as i128)
    }

    fn minus(self, other: i64) -> (r: i64) {
        clamp_i128(self as i128 - other as i128)
    }

    fn times(self, other: i64) -> (r: i64) {
        let a = self as i128;
        let b = other as i128;
        proof {
            assert(i128::MIN <= a * b <= i128::MAX) by (nonlinear_arith)
                requires
                    i64::MIN <= a <= i64::MAX,
                    i64::MIN <= b <= i64::MAX,
            ;
        }
        clamp_i128(a * b)
    }

    fn divide(self, other: i64) -> (r: i64) {
        if other == 0 {
            0
        } else {
            let ua = unsigned_abs64(self);
            let ub = unsigned_abs64(other);
            let q = ua / ub;
            if (self < 0) != (other < 0) {
                if q > i64::MAX as u64 {
                    i64::MIN
                } else {
                    -(q as i64)
                }
            } else {
                if q > i64::MAX as u64 {
                    i64::MAX
                } else {
                    q as i64
                }
            }
        }
    }

    #[verifier::loop_isolation(false)]
    fn sqrt(self) -> (r: i64) {
        if self <= 0 {
            return 0;
        }
        let mut lo: i64 = 0;
        let mut hi: i64 = 3037000499;
        if self < hi {
            hi = self;
        }
        proof {
            assert((hi as int + 1) * (hi as int + 1) > self as int) by (nonlinear_arith)
                requires
                    1 <= self as int <= i64::MAX,
                    hi as int == (if (self as int) < 3037000499 {
                        self as int
                    } else {
                        3037000499int
                    }),
                    i64::MAX < 3037000500int * 3037000500int,
            ;
        }
        // Binary search for the greatest root whose square does not exceed
        // the argument.
        while lo < hi
            invariant
                0 <= lo <= hi <= 3037000499,
                lo * lo <= self as int,
                (hi + 1) * (hi + 1) > self as int,
            decreases hi - lo,
        {
            let mid = lo + (hi - lo + 1) / 2;
            let quo = (self as u64) / (mid as u64);
            proof {
                assert(lo < mid <= hi);
                assert(quo as int == (self as int) / (mid as int));
            }
            if (mid as u64) <= quo {
                proof {
                    assert(mid as int * mid as int <= self as int) by (nonlinear_arith)
                        requires
                            mid as int >= 1,
                            mid as int <= (self as int) / (mid as int),
                            self as int >= 1,
                    ;
                }
                lo = mid;
            } else {
                proof {
                    assert(mid as int * mid as int > self as int) by (nonlinear_arith)
                        requires
                            mid as int >= 1,
                            mid as int > (self as int) / (mid as int),
                            self as int >= 1,
                    ;
                }
                hi = mid - 1;
            }
        }
        proof {
            lemma_isqrt_unique(self as int, lo as int);
        }
        lo
    }

    fn abs(self) -> (r: i64) {
        if self == i64::MIN {
            i64::MAX
        } else if self < 0 {
            -self
        } else {
            self
        }
    }

    fn lt(self, other: i64) -> (r: bool) {
        self < other
    }

    fn is_zero(self) -> (r: bool) {
        self == 0
    }

    fn is_positive(self) -> (r: bool) {
        self > 0
    }

    fn from_text(t: &[char]) -> (r: Option<i64>) {
        proof {
            assert(t@.skip(0) =~= t@);
        }
        if t.len() > 0 && t[0] == '-' {
            match parse_digits_bounded(t, 1) {
                None => None,
                Some(v) => Some(-v),
            }
        } else {
            parse_digits_bounded(t, 0)
        }
    }
}

/// The nearest representable `i64` to a 128-bit value.
fn clamp_i128(x: i128) -> (r: i64)
    ensures
        r == clamp64(x as int),
{
    if x > i64::MAX as i128 {
        i64::MAX
    } else if x < i64::MIN as i128 {
        i64::MIN
    } else {
        x as i64
    }
}

/// The absolute value of an unbounded integer.
pub open spec fn abs_of(x: int) -> int {
    if x < 0 {
        -x
    } else {
        x
    }
}

/// The magnitude of an `i64`, exact also at the minimum.
fn unsigned_abs64(x: i64) -> (r: u64)
    ensures
        r as int == abs_of(x as int),
{
    if x >= 0 {
        x as u64
    } else {
        let w: i128 = -(x as i128);
        w as u64
    }
}

} // verus!
