//! Character-level grammar of the export format: trimming a line of
//! surrounding whitespace, splitting it into space-separated tokens, and
//! reading a token as an unsigned decimal integer.
//!
//! The specification functions here are the vocabulary the record decoders'
//! contracts are written in; the executable functions compute them.

use vstd::arithmetic::div_mod::{lemma_fundamental_div_mod, lemma_mod_bound};
use vstd::prelude::*;

verus! {

/// Whitespace a line is trimmed of before classification.
pub open spec fn is_space_char(c: char) -> bool {
    c == ' ' || c == '\t' || c == '\r' || c == '\n'
}

pub open spec fn trim_start_spec(s: Seq<char>) -> Seq<char>
    decreases s.len(),
{
    if s.len() > 0 && is_space_char(s[0]) {
        trim_start_spec(s.drop_first())
    } else {
        s
    }
}

pub open spec fn trim_end_spec(s: Seq<char>) -> Seq<char>
    decreases s.len(),
{
    if s.len() > 0 && is_space_char(s.last()) {
        trim_end_spec(s.drop_last())
    } else {
        s
    }
}

/// A line with leading and trailing whitespace removed.
pub open spec fn trim_spec(s: Seq<char>) -> Seq<char> {
    trim_end_spec(trim_start_spec(s))
}

/// Index of the first space in `s`, or `s.len()` if there is none.
pub open spec fn first_space(s: Seq<char>) -> int
    decreases s.len(),
{
    if s.len() == 0 {
        0
    } else if s[0] == ' ' {
        0
    } else {
        1 + first_space(s.drop_first())
    }
}

/// The tokens of `s`, split on single spaces. Adjacent spaces yield empty
/// tokens, and the empty sequence yields one empty token, exactly as
/// splitting on a one-character separator does.
pub open spec fn split_spaces(s: Seq<char>) -> Seq<Seq<char>>
    decreases s.len(),
{
    let k = first_space(s);
    if 0 <= k < s.len() {
        seq![s.take(k)] + split_spaces(s.skip(k + 1))
    } else {
        seq![s]
    }
}

pub open spec fn is_digit_char(c: char) -> bool {
    48 <= c as u32 <= 57
}

pub open spec fn digit_val(c: char) -> int {
    c as u32 - 48
}

/// The value of a sequence of decimal digit characters, most significant
/// first.
pub open spec fn digits_val(s: Seq<char>) -> int
    decreases s.len(),
{
    if s.len() == 0 {
        0
    } else {
        digits_val(s.drop_last()) * 10 + digit_val(s.last())
    }
}

/// The digits of a token, after an optional leading plus sign.
pub open spec fn token_digits(s: Seq<char>) -> Seq<char> {
    if s.len() > 0 && s[0] == '+' {
        s.drop_first()
    } else {
        s
    }
}

/// Whether a token is an unsigned decimal integer: an optional leading plus
/// sign followed by at least one digit.
pub open spec fn token_numeric(s: Seq<char>) -> bool {
    &&& token_digits(s).len() >= 1
    &&& forall|i: int| 0 <= i < token_digits(s).len() ==> is_digit_char(#[trigger] token_digits(s)[i])
}

/// The numeric value of a token; meaningful when `token_numeric` holds.
pub open spec fn token_value(s: Seq<char>) -> int {
    digits_val(token_digits(s))
}

/// The characters of a string, as a vector.
pub fn line_chars(s: &str) -> (v: Vec<char>)
    ensures
        v@ == s@,
{
    let n = s.unicode_len();
    let mut v: Vec<char> = Vec::new();
    let mut i: usize = 0;
    while i < n
        invariant
            i <= n,
            n == s@.len(),
            v@ == s@.take(i as int),
        decreases n - i,
    {
        let c = s.get_char(i);
        v.push(c);
        proof {
            assert(v@ =~= s@.take(i + 1));
        }
        i = i + 1;
    }
    proof {
        assert(v@ =~= s@);
    }
    v
}

/// Whether two strings hold the same characters.
pub fn str_eq(a: &str, b: &str) -> (r: bool)
    ensures
        r == (a@ == b@),
{
    let na = a.unicode_len();
    let nb = b.unicode_len();
    if na != nb {
        return false;
    }
    let mut i: usize = 0;
    while i < na
        invariant
            i <= na,
            na == a@.len(),
            na == b@.len(),
            forall|j: int| 0 <= j < i ==> a@[j] == b@[j],
        decreases na - i,
    {
        if a.get_char(i) != b.get_char(i) {
            return false;
        }
        i = i + 1;
    }
    proof {
        assert(a@ =~= b@);
    }
    true
}

fn is_space_exec(c: char) -> (r: bool)
    ensures
        r == is_space_char(c),
{
    c == ' ' || c == '\t' || c == '\r' || c == '\n'
}

/// Copies `v[from..to]` into a fresh vector.
fn copy_range(v: &Vec<char>, from: usize, to: usize) -> (r: Vec<char>)
    requires
        from <= to <= v@.len(),
    ensures
        r@ == v@.subrange(from as int, to as int),
{
    let mut r: Vec<char> = Vec::new();
    let mut i: usize = from;
    while i < to
        invariant
            from <= i <= to <= v@.len(),
            r@ == v@.subrange(from as int, i as int),
        decreases to - i,
    {
        r.push(v[i]);
        proof {
            assert(r@ =~= v@.subrange(from as int, i + 1));
        }
        i = i + 1;
    }
    r
}

/// Copies all characters after the first into a fresh vector.
pub(crate) fn copy_tail(v: &Vec<char>) -> (r: Vec<char>)
    requires
        v@.len() >= 1,
    ensures
        r@ == v@.drop_first(),
{
    let r = copy_range(v, 1, v.len());
    proof {
        assert(v@.subrange(1, v@.len() as int) =~= v@.drop_first());
    }
    r
}

/// Removes leading and trailing whitespace.
pub fn trimmed_chars(v: &Vec<char>) -> (t: Vec<char>)
    ensures
        t@ == trim_spec(v@),
{
    let n = v.len();
    let mut lo: usize = 0;
    proof {
        assert(v@.skip(0) =~= v@);
    }
    while lo < n && is_space_exec(v[lo])
        invariant
            lo <= n,
            n == v@.len(),
            trim_start_spec(v@) == trim_start_spec(v@.skip(lo as int)),
        decreases n - lo,
    {
        proof {
            assert(v@.skip(lo as int).drop_first() =~= v@.skip(lo + 1));
        }
        lo = lo + 1;
    }
    proof {
        assert(trim_start_spec(v@) == v@.skip(lo as int));
    }
    let ghost t0 = v@.skip(lo as int);
    let mut hi: usize = n;
    proof {
        assert(t0.take(n - lo) =~= t0);
    }
    while hi > lo && is_space_exec(v[hi - 1])
        invariant
            lo <= hi <= n,
            n == v@.len(),
            t0 == v@.skip(lo as int),
            trim_end_spec(t0) == trim_end_spec(t0.take(hi - lo)),
        decreases hi,
    {
        proof {
            assert(t0.take(hi - lo).drop_last() =~= t0.take(hi - 1 - lo));
        }
        hi = hi - 1;
    }
    proof {
        assert(trim_end_spec(t0.take(hi - lo)) == t0.take(hi - lo));
        assert(v@.subrange(lo as int, hi as int) =~= t0.take(hi - lo));
    }
    copy_range(v, lo, hi)
}

/// `first_space` is where the scan for a space stops.
proof fn lemma_first_space_at(s: Seq<char>, k: int)
    requires
        0 <= k <= s.len(),
        forall|i: int| 0 <= i < k ==> s[i] != ' ',
        k < s.len() ==> s[k] == ' ',
    ensures
        first_space(s) == k,
    decreases s.len(),
{
    if k > 0 {
        lemma_first_space_at(s.drop_first(), k - 1);
    }
}

/// Splits a trimmed line into its space-separated tokens.
pub fn split_tokens(t: &Vec<char>) -> (toks: Vec<Vec<char>>)
    ensures
        toks@.len() == split_spaces(t@).len(),
        forall|i: int| 0 <= i < toks@.len() ==> toks@[i]@ == split_spaces(t@)[i],
{
    let n = t.len();
    let mut toks: Vec<Vec<char>> = Vec::new();
    let ghost mut done: Seq<Seq<char>> = Seq::empty();
    let mut p: usize = 0;
    proof {
        assert(t@.skip(0) =~= t@);
        assert(done + split_spaces(t@) =~= split_spaces(t@));
    }
    loop
        invariant
            p <= n,
            n == t@.len(),
            split_spaces(t@) == done + split_spaces(t@.skip(p as int)),
            toks@.len() == done.len(),
            forall|i: int| 0 <= i < done.len() ==> toks@[i]@ == done[i],
        ensures
            toks@.len() == split_spaces(t@).len(),
            forall|i: int| 0 <= i < toks@.len() ==> toks@[i]@ == split_spaces(t@)[i],
        decreases n - p,
    {
        let mut q: usize = p;
        while q < n && t[q] != ' '
            invariant
                p <= q <= n,
                n == t@.len(),
                forall|i: int| p <= i < q ==> t@[i] != ' ',
            decreases n - q,
        {
            q = q + 1;
        }
        proof {
            lemma_first_space_at(t@.skip(p as int), q - p);
        }
        let tok = copy_range(t, p, q);
        toks.push(tok);
        if q == n {
            proof {
                assert(t@.skip(p as int).take(q - p) =~= t@.skip(p as int));
                assert(split_spaces(t@.skip(p as int)) == seq![t@.skip(p as int)]);
                assert(done.push(t@.subrange(p as int, q as int)) =~= done + split_spaces(
                    t@.skip(p as int),
                ));
                assert(t@.subrange(p as int, q as int) =~= t@.skip(p as int));
                done = done.push(t@.subrange(p as int, q as int));
            }
            return toks;
        }
        proof {
            let rest = t@.skip(p as int);
            assert(rest.take(q - p) =~= t@.subrange(p as int, q as int));
            assert(rest.skip(q - p + 1) =~= t@.skip(q + 1));
            assert(split_spaces(rest) == seq![rest.take(q - p)] + split_spaces(
                rest.skip(q - p + 1),
            ));
            done = done.push(t@.subrange(p as int, q as int));
            assert(done + split_spaces(t@.skip(q + 1)) =~= split_spaces(t@));
        }
        p = q + 1;
    }
}

/// The value of an all-digit sequence is nonnegative and no smaller than the
/// value of any of its prefixes.
proof fn lemma_digits_val_monotone(s: Seq<char>, k: int)
    requires
        0 <= k <= s.len(),
        forall|i: int| 0 <= i < s.len() ==> is_digit_char(#[trigger] s[i]),
    ensures
        digits_val(s) >= digits_val(s.take(k)),
        digits_val(s) >= 0,
    decreases s.len(),
{
    if s.len() == 0 {
    } else if k == s.len() {
        assert(s.take(k) =~= s);
        lemma_digits_val_monotone(s.drop_last(), s.len() - 1);
    } else {
        lemma_digits_val_monotone(s.drop_last(), k);
        assert(s.drop_last().take(k) =~= s.take(k));
    }
}

/// Reads a token as a `u64`: `Some` exactly when the token is an unsigned
/// decimal integer whose value fits.
pub fn parse_u64_token(tok: &Vec<char>) -> (r: Option<u64>)
    ensures
        r is Some <==> token_numeric(tok@) && token_value(tok@) <= u64::MAX,
        r is Some ==> r->Some_0 == token_value(tok@),
{
    let n = tok.len();
    let start: usize = if n > 0 && tok[0] == '+' {
        1
    } else {
        0
    };
    let ghost dig = token_digits(tok@);
    proof {
        assert(dig =~= tok@.skip(start as int));
    }
    if n == start {
        return None;
    }
    let mut acc: u64 = 0;
    let mut i: usize = start;
    while i < n
        invariant
            start <= i <= n,
            n == tok@.len(),
            dig == token_digits(tok@),
            dig == tok@.skip(start as int),
            dig.len() == n - start,
            forall|j: int| 0 <= j < i - start ==> is_digit_char(#[trigger] dig[j]),
            acc == digits_val(dig.take(i - start)),
        decreases n - i,
    {
        let c = tok[i];
        let cv = c as u32;
        if cv < 48 || cv > 57 {
            proof {
                assert(!is_digit_char(token_digits(tok@)[i - start]));
            }
            return None;
        }
        let dv = (cv - 48) as u64;
        if acc > (u64::MAX - dv) / 10 {
            proof {
                lemma_fundamental_div_mod((u64::MAX - dv) as int, 10);
                lemma_mod_bound((u64::MAX - dv) as int, 10);
                assert(10 * acc + dv > u64::MAX);
                assert(dig.take(i + 1 - start).drop_last() =~= dig.take(i - start));
                assert(digits_val(dig.take(i + 1 - start)) == 10 * acc + dv);
                if token_numeric(tok@) {
                    lemma_digits_val_monotone(token_digits(tok@), i + 1 - start);
                }
            }
            return None;
        }
        proof {
            lemma_fundamental_div_mod((u64::MAX - dv) as int, 10);
            lemma_mod_bound((u64::MAX - dv) as int, 10);
            assert(10 * acc + dv <= u64::MAX);
            assert(dig.take(i + 1 - start).drop_last() =~= dig.take(i - start));
        }
        acc = acc * 10 + dv;
        i = i + 1;
    }
    proof {
        assert(dig.take(n - start) =~= dig);
    }
    Some(acc)
}

} // verus!
