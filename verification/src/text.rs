//! Text handling for the coordinate file format: splitting a line into
//! whitespace-separated tokens and parsing unsigned decimal indices.

use vstd::arithmetic::div_mod::lemma_fundamental_div_mod;
use vstd::prelude::*;

verus! {

/// The whitespace characters that separate tokens.
pub open spec fn is_ws(c: char) -> bool {
    c == ' ' || c == '\t' || c == '\r' || c == '\n'
}

/// A decimal digit.
pub open spec fn is_digit(c: char) -> bool {
    '0' <= c && c <= '9'
}

/// The length of the maximal non-whitespace prefix of `s`.
pub open spec fn tok_len(s: Seq<char>) -> nat
    decreases s.len(),
{
    if s.len() == 0 || is_ws(s[0]) {
        0
    } else {
        1 + tok_len(s.skip(1))
    }
}

pub proof fn lemma_tok_len_le(s: Seq<char>)
    ensures
        tok_len(s) <= s.len(),
    decreases s.len(),
{
    if s.len() != 0 && !is_ws(s[0]) {
        lemma_tok_len_le(s.skip(1));
    }
}

/// `tok_len` is the length of the run of non-whitespace characters at the
/// front.
pub proof fn lemma_tok_len_run(s: Seq<char>, m: int)
    requires
        0 <= m <= s.len(),
        forall|q: int| 0 <= q < m ==> !is_ws(s[q]),
        m == s.len() || is_ws(s[m]),
    ensures
        tok_len(s) == m,
    decreases m,
{
    if m == 0 {
    } else {
        lemma_tok_len_run(s.skip(1), m - 1);
    }
}

/// The whitespace-separated tokens of `s`, in order.
pub open spec fn toks(s: Seq<char>) -> Seq<Seq<char>>
    decreases s.len(),
    via toks_decreases
{
    if s.len() == 0 {
        Seq::empty()
    } else if is_ws(s[0]) {
        toks(s.skip(1))
    } else {
        seq![s.take(tok_len(s) as int)] + toks(s.skip(tok_len(s) as int))
    }
}

#[via_fn]
proof fn toks_decreases(s: Seq<char>) {
    if s.len() != 0 && !is_ws(s[0]) {
        lemma_tok_len_le(s);
    }
}

/// The numeric value of a digit character.
pub open spec fn digit_val(c: char) -> int {
    c as int - '0' as int
}

/// Whether every character of `t` is a decimal digit.
pub open spec fn all_digits(t: Seq<char>) -> bool {
    forall|i: int| 0 <= i < t.len() ==> is_digit(t[i])
}

/// The value of `t` read as a decimal numeral.
pub open spec fn dec_val(t: Seq<char>) -> int
    decreases t.len(),
{
    if t.len() == 0 {
        0
    } else {
        dec_val(t.drop_last()) * 10 + digit_val(t.last())
    }
}

/// What parsing a token as an unsigned machine index yields: the decimal
/// value when the token is a non-empty run of digits whose value fits,
/// nothing otherwise.
pub open spec fn sp_parse_usize(t: Seq<char>) -> Option<int> {
    if t.len() > 0 && all_digits(t) && dec_val(t) <= usize::MAX {
        Some(dec_val(t))
    } else {
        None
    }
}

pub proof fn lemma_dec_val_nonneg(t: Seq<char>)
    requires
        all_digits(t),
    ensures
        dec_val(t) >= 0,
    decreases t.len(),
{
    if t.len() > 0 {
        assert(all_digits(t.drop_last()));
        lemma_dec_val_nonneg(t.drop_last());
    }
}

/// Reading one more digit multiplies the prefix value by ten and adds the
/// digit.
pub proof fn lemma_dec_val_extend(t: Seq<char>, i: int)
    requires
        0 <= i < t.len(),
    ensures
        dec_val(t.take(i + 1)) == dec_val(t.take(i)) * 10 + digit_val(t[i]),
{
    assert(t.take(i + 1).drop_last() =~= t.take(i));
    assert(t.take(i + 1).last() == t[i]);
}

/// For a digit run, the value of a prefix never exceeds the value of the
/// whole.
pub proof fn lemma_dec_val_prefix_le(t: Seq<char>, i: int)
    requires
        all_digits(t),
        0 <= i <= t.len(),
    ensures
        dec_val(t) >= dec_val(t.take(i)),
    decreases t.len() - i,
{
    if i == t.len() {
        assert(t.take(i) =~= t);
    } else {
        lemma_dec_val_prefix_le(t, i + 1);
        lemma_dec_val_extend(t, i);
        assert(all_digits(t.take(i)));
        lemma_dec_val_nonneg(t.take(i));
    }
}

/// Whether `c` separates tokens.
pub fn ws_char(c: char) -> (r: bool)
    ensures
        r == is_ws(c),
{
    c == ' ' || c == '\t' || c == '\r' || c == '\n'
}

/// The views of the elements of a vector of character vectors.
pub open spec fn views_of(vs: Seq<Vec<char>>) -> Seq<Seq<char>> {
    Seq::new(vs.len(), |i: int| vs[i]@)
}

/// Splits a line into its whitespace-separated tokens.
#[verifier::loop_isolation(false)]
pub fn tokenize(line: &str) -> (r: Vec<Vec<char>>)
    ensures
        r@.len() == toks(line@).len(),
        forall|i: int| 0 <= i < r@.len() ==> r@[i]@ == toks(line@)[i],
{
    let n = line.unicode_len();
    let mut out: Vec<Vec<char>> = Vec::new();
    let mut i: usize = 0;
    proof {
        assert(line@.skip(0) =~= line@);
        assert(views_of(out@) + toks(line@) =~= toks(line@));
    }
    while i < n
        invariant
            i <= n,
            views_of(out@) + toks(line@.skip(i as int)) =~= toks(line@),
        decreases n - i,
    {
        let c = line.get_char(i);
        if ws_char(c) {
            proof {
                assert(line@.skip(i as int).skip(1) =~= line@.skip(i as int + 1));
                assert(toks(line@.skip(i as int)) == toks(line@.skip(i as int + 1)));
            }
            i = i + 1;
        } else {
            let ghost start = i as int;
            let mut cur: Vec<char> = Vec::new();
            while i < n && !ws_char(line.get_char(i))
                invariant
                    start <= i as int <= n,
                    cur@ =~= line@.subrange(start, i as int),
                    forall|q: int| start <= q < i as int ==> !is_ws(line@[q]),
                decreases n - i,
            {
                cur.push(line.get_char(i));
                i = i + 1;
            }
            proof {
                let rest = line@.skip(start);
                let m = i as int - start;
                assert forall|q: int| 0 <= q < m implies !is_ws(rest[q]) by {
                    assert(rest[q] == line@[start + q]);
                }
                lemma_tok_len_run(rest, m);
                assert(rest.take(m) =~= cur@);
                assert(rest.skip(m) =~= line@.skip(i as int));
                assert(toks(rest) == seq![cur@] + toks(line@.skip(i as int)));
            }
            let ghost before = out@;
            out.push(cur);
            proof {
                assert(views_of(out@) =~= views_of(before).push(cur@));
                assert(views_of(before).push(cur@) + toks(line@.skip(i as int)) =~= views_of(
                    before,
                ) + (seq![cur@] + toks(line@.skip(i as int))));
            }
        }
    }
    proof {
        assert(toks(line@.skip(n as int)).len() == 0);
        assert(views_of(out@) + toks(line@.skip(n as int)) =~= views_of(out@));
    }
    out
}

/// Parses a token as an unsigned decimal index, rejecting any non-digit
/// character and any value that does not fit the machine word.
#[verifier::loop_isolation(false)]
pub fn parse_usize_token(t: &[char]) -> (r: Option<usize>)
    ensures
        match r {
            Some(v) => sp_parse_usize(t@) == Some(v as int),
            None => sp_parse_usize(t@) is None,
        },
{
    if t.len() == 0 {
        return None;
    }
    let mut acc: usize = 0;
    let mut i: usize = 0;
    while i < t.len()
        invariant
            i <= t@.len(),
            forall|q: int| 0 <= q < i as int ==> is_digit(t@[q]),
            acc == dec_val(t@.take(i as int)),
        decreases t@.len() - i,
    {
        let c = t[i];
        if c < '0' || c > '9' {
            return None;
        }
        let d: usize = (c as u32 - 48) as usize;
        proof {
            lemma_dec_val_extend(t@, i as int);
            assert(digit_val(t@[i as int]) == d as int);
            lemma_fundamental_div_mod((usize::MAX - d) as int, 10);
        }
        if acc > (usize::MAX - d) / 10 {
            proof {
                assert(dec_val(t@.take(i as int + 1)) > usize::MAX);
                if all_digits(t@) {
                    lemma_dec_val_prefix_le(t@, i as int + 1);
                }
            }
            return None;
        }
        acc = acc * 10 + d;
        i = i + 1;
    }
    proof {
        assert(t@.take(t@.len() as int) =~= t@);
    }
    Some(acc)
}

} // verus!
