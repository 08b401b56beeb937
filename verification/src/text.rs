//! Verified lexical helpers for the line-oriented model format:
//! whitespace splitting, decimal integers, and the shape of floating
//! point tokens.

use vstd::prelude::*;

verus! {

/// ASCII whitespace, as `char::is_ascii_whitespace` defines it.
pub open spec fn is_ws(c: char) -> bool {
    c == ' ' || c == '\t' || c == '\n' || c == '\u{c}' || c == '\r'
}

/// Exec mirror of `is_ws`.
pub fn ws_char(c: char) -> (r: bool)
    ensures
        r == is_ws(c),
{
    c == ' ' || c == '\t' || c == '\n' || c == '\u{c}' || c == '\r'
}

/// First position at or after `i` holding a non-whitespace character,
/// or the length of `s`.
pub open spec fn next_non_ws(s: Seq<char>, i: int) -> int
    recommends
        0 <= i <= s.len(),
    decreases s.len() - i,
    when 0 <= i <= s.len()
{
    if i >= s.len() {
        i
    } else if !is_ws(s[i]) {
        i
    } else {
        next_non_ws(s, i + 1)
    }
}

/// First position at or after `i` holding a whitespace character, or the
/// length of `s`.
pub open spec fn next_ws(s: Seq<char>, i: int) -> int
    recommends
        0 <= i <= s.len(),
    decreases s.len() - i,
    when 0 <= i <= s.len()
{
    if i >= s.len() {
        i
    } else if is_ws(s[i]) {
        i
    } else {
        next_ws(s, i + 1)
    }
}

pub proof fn lemma_next_non_ws(s: Seq<char>, i: int)
    requires
        0 <= i <= s.len(),
    ensures
        i <= next_non_ws(s, i) <= s.len(),
        next_non_ws(s, i) < s.len() ==> !is_ws(s[next_non_ws(s, i)]),
    decreases s.len() - i,
{
    if i < s.len() && is_ws(s[i]) {
        lemma_next_non_ws(s, i + 1);
    }
}

pub proof fn lemma_next_ws(s: Seq<char>, i: int)
    requires
        0 <= i <= s.len(),
    ensures
        i <= next_ws(s, i) <= s.len(),
        i < s.len() && !is_ws(s[i]) ==> next_ws(s, i) > i,
    decreases s.len() - i,
{
    if i < s.len() && !is_ws(s[i]) {
        lemma_next_ws(s, i + 1);
    }
}

/// The whitespace-separated tokens of `s` from position `i` on.
pub open spec fn split_from(s: Seq<char>, i: int) -> Seq<Seq<char>>
    recommends
        0 <= i <= s.len(),
    decreases s.len() - i,
    when 0 <= i <= s.len()
    via split_from_decreases
{
    let a = next_non_ws(s, i);
    if a >= s.len() {
        seq![]
    } else {
        let b = next_ws(s, a);
        seq![s.subrange(a, b)] + split_from(s, b)
    }
}

#[via_fn]
proof fn split_from_decreases(s: Seq<char>, i: int) {
    lemma_next_non_ws(s, i);
    let a = next_non_ws(s, i);
    if a < s.len() {
        lemma_next_ws(s, a);
    }
}

/// The whitespace-separated tokens of a whole string.
pub open spec fn spec_tokens(s: Seq<char>) -> Seq<Seq<char>> {
    split_from(s, 0)
}

/// Exec mirror of `next_non_ws`.
pub fn scan_non_ws(s: &str, from: usize) -> (r: usize)
    requires
        from <= s@.len(),
    ensures
        r == next_non_ws(s@, from as int),
        from <= r <= s@.len(),
{
    let n: usize = s.unicode_len();
    let mut i: usize = from;
    while i < n
        invariant
            from <= i <= n,
            n == s@.len(),
            next_non_ws(s@, from as int) == next_non_ws(s@, i as int),
        decreases n - i,
    {
        if !ws_char(s.get_char(i)) {
            return i;
        }
        i += 1;
    }
    i
}

/// Exec mirror of `next_ws`.
pub fn scan_ws(s: &str, from: usize) -> (r: usize)
    requires
        from <= s@.len(),
    ensures
        r == next_ws(s@, from as int),
        from <= r <= s@.len(),
{
    let n: usize = s.unicode_len();
    let mut i: usize = from;
    while i < n
        invariant
            from <= i <= n,
            n == s@.len(),
            next_ws(s@, from as int) == next_ws(s@, i as int),
        decreases n - i,
    {
        if ws_char(s.get_char(i)) {
            return i;
        }
        i += 1;
    }
    i
}

/// Splits `s` at ASCII whitespace into its maximal non-blank tokens.
pub fn split_ascii_ws(s: &str) -> (r: Vec<String>)
    ensures
        r.deep_view() == spec_tokens(s@),
{
    let n: usize = s.unicode_len();
    let mut out: Vec<String> = Vec::new();
    let mut i: usize = 0;
    while i < n
        invariant
            0 <= i <= n,
            n == s@.len(),
            out.deep_view() + split_from(s@, i as int) =~~= spec_tokens(s@),
        decreases n - i,
    {
        let a = scan_non_ws(s, i);
        if a >= n {
            i = a;
        } else {
            let b = scan_ws(s, a);
            proof {
                lemma_next_ws(s@, a as int);
                lemma_next_non_ws(s@, i as int);
            }
            let tok: String = s.substring_char(a, b).to_owned();
            let ghost prev = out.deep_view();
            out.push(tok);
            proof {
                assert(out.deep_view() =~~= prev + seq![s@.subrange(a as int, b as int)]);
            }
            i = b;
        }
    }
    assert(out.deep_view() =~~= spec_tokens(s@));
    out
}

} // verus!

verus! {

/// An ASCII decimal digit.
pub open spec fn is_digit(c: char) -> bool {
    48 <= c as int <= 57
}

/// Exec mirror of `is_digit`.
pub fn digit_char(c: char) -> (r: bool)
    ensures
        r == is_digit(c),
{
    let v: u32 = c as u32;
    48 <= v && v <= 57
}

pub open spec fn all_digits(s: Seq<char>) -> bool {
    forall|i: int| 0 <= i < s.len() ==> is_digit(#[trigger] s[i])
}

/// The value of a digit string, most significant digit first.
pub open spec fn digits_val(s: Seq<char>) -> int
    decreases s.len(),
{
    if s.len() == 0 {
        0
    } else {
        digits_val(s.drop_last()) * 10 + (s.last() as int - 48)
    }
}

/// A longer digit string never has a smaller value.
pub proof fn lemma_digits_val_grows(s: Seq<char>, i: int)
    requires
        0 <= i <= s.len(),
        all_digits(s),
    ensures
        digits_val(s.take(i)) <= digits_val(s),
        digits_val(s.take(i)) >= 0,
    decreases s.len() - i,
{
    if i == s.len() {
        assert(s.take(i) =~= s);
        lemma_digits_val_nonneg(s);
    } else {
        lemma_digits_val_grows(s, i + 1);
        assert(s.take(i + 1).drop_last() =~= s.take(i));
        lemma_digits_val_nonneg(s.take(i));
    }
}

pub proof fn lemma_digits_val_nonneg(s: Seq<char>)
    requires
        all_digits(s),
    ensures
        digits_val(s) >= 0,
    decreases s.len(),
{
    if s.len() > 0 {
        assert(all_digits(s.drop_last()));
        lemma_digits_val_nonneg(s.drop_last());
    }
}

/// An optional single leading plus sign, as integer parsing accepts it.
pub open spec fn strip_plus(s: Seq<char>) -> Seq<char> {
    if s.len() > 0 && s[0] == '+' {
        s.skip(1)
    } else {
        s
    }
}

/// The shape of a string that parses as an unsigned machine integer.
pub open spec fn is_usize_token(s: Seq<char>) -> bool {
    let t = strip_plus(s);
    &&& t.len() >= 1
    &&& all_digits(t)
    &&& digits_val(t) <= usize::MAX as int
}

/// Parses a decimal unsigned integer exactly as the standard library
/// does: an optional `+`, then one or more digits, rejecting overflow.
pub fn parse_usize_token(s: &str) -> (r: Option<usize>)
    ensures
        is_usize_token(s@) ==> r == Some(digits_val(strip_plus(s@)) as usize),
        !is_usize_token(s@) ==> r is None,
{
    let n: usize = s.unicode_len();
    let mut i: usize = 0;
    if n > 0 && s.get_char(0) == '+' {
        i = 1;
    }
    let ghost t = strip_plus(s@);
    assert(t =~= s@.skip(i as int));
    if i >= n {
        return None;
    }
    let mut acc: usize = 0;
    while i < n
        invariant
            0 <= i <= n,
            n == s@.len(),
            t == strip_plus(s@),
            t =~= s@.skip(n - t.len()),
            i >= n - t.len(),
            all_digits(t.take(i - (n - t.len()))),
            acc == digits_val(t.take(i - (n - t.len()))),
        decreases n - i,
    {
        let ghost off = n - t.len();
        let c = s.get_char(i);
        proof {
            assert(t[i - off] == s@[i as int]);
        }
        if !digit_char(c) {
            assert(!all_digits(t)) by {
                assert(t[i - off] == s@[i as int]);
            }
            return None;
        }
        let d: usize = (c as u32 as usize) - 48;
        let ghost prev = t.take(i - off);
        let ghost x = t.take(i + 1 - off);
        proof {
            assert(x.drop_last() =~= prev);
            assert(x.last() == t[i - off]);
            assert(digits_val(x) == digits_val(prev) * 10 + (x.last() as int - 48));
            assert(digits_val(x) == acc * 10 + d);
        }
        let step: Option<usize> = match acc.checked_mul(10) {
            Some(v) => v.checked_add(d),
            None => None,
        };
        match step {
            Some(v) => {
                acc = v;
                proof {
                    assert(all_digits(x));
                }
            },
            None => {
                proof {
                    assert(digits_val(x) > usize::MAX as int);
                    if all_digits(t) {
                        lemma_digits_val_grows(t, i + 1 - off);
                        assert(digits_val(t) >= digits_val(x));
                    }
                }
                return None;
            },
        }
        i += 1;
    }
    assert(t.take(i - (n - t.len())) =~= t);
    Some(acc)
}

} // verus!

verus! {

/// The code point of `c` with an ASCII upper case letter folded to
/// lower case.
pub open spec fn lc(c: char) -> int {
    if 65 <= c as int <= 90 {
        c as int + 32
    } else {
        c as int
    }
}

/// Exec mirror of `lc`.
pub fn lc_char(c: char) -> (r: u32)
    ensures
        r == lc(c),
{
    let v: u32 = c as u32;
    if 65 <= v && v <= 90 {
        v + 32
    } else {
        v
    }
}

/// First position at or after `i` holding a dot, or the length of `s`.
pub open spec fn first_dot(s: Seq<char>, i: int) -> int
    recommends
        0 <= i <= s.len(),
    decreases s.len() - i,
    when 0 <= i <= s.len()
{
    if i >= s.len() {
        i
    } else if s[i] == '.' {
        i
    } else {
        first_dot(s, i + 1)
    }
}

/// First position at or after `i` holding `e` or `E`, or the length of
/// `s`.
pub open spec fn first_e(s: Seq<char>, i: int) -> int
    recommends
        0 <= i <= s.len(),
    decreases s.len() - i,
    when 0 <= i <= s.len()
{
    if i >= s.len() {
        i
    } else if lc(s[i]) == 101 {
        i
    } else {
        first_e(s, i + 1)
    }
}

pub proof fn lemma_first_e(s: Seq<char>, i: int)
    requires
        0 <= i <= s.len(),
    ensures
        i <= first_e(s, i) <= s.len(),
    decreases s.len() - i,
{
    if i < s.len() && lc(s[i]) != 101 {
        lemma_first_e(s, i + 1);
    }
}

/// An optional single leading sign, plus or minus.
pub open spec fn strip_sign(s: Seq<char>) -> Seq<char> {
    if s.len() > 0 && (s[0] == '+' || s[0] == '-') {
        s.skip(1)
    } else {
        s
    }
}

/// The word `inf`, in any case.
pub open spec fn is_inf_word(t: Seq<char>) -> bool {
    t.len() == 3 && lc(t[0]) == 105 && lc(t[1]) == 110 && lc(t[2]) == 102
}

/// The word `infinity`, in any case.
pub open spec fn is_infinity_word(t: Seq<char>) -> bool {
    &&& t.len() == 8
    &&& lc(t[0]) == 105
    &&& lc(t[1]) == 110
    &&& lc(t[2]) == 102
    &&& lc(t[3]) == 105
    &&& lc(t[4]) == 110
    &&& lc(t[5]) == 105
    &&& lc(t[6]) == 116
    &&& lc(t[7]) == 121
}

/// The word `nan`, in any case.
pub open spec fn is_nan_word(t: Seq<char>) -> bool {
    t.len() == 3 && lc(t[0]) == 110 && lc(t[1]) == 97 && lc(t[2]) == 110
}

/// Digits with at most one dot, and at least one digit somewhere.
pub open spec fn is_mantissa(m: Seq<char>) -> bool {
    let d = first_dot(m, 0);
    &&& all_digits(m.subrange(0, d))
    &&& (d == m.len() || all_digits(m.subrange(d + 1, m.len() as int)))
    &&& (d > 0 || (d < m.len() && m.len() > d + 1))
}

/// An exponent part: an optional sign, then at least one digit.
pub open spec fn is_exp_part(x: Seq<char>) -> bool {
    let y = strip_sign(x);
    y.len() >= 1 && all_digits(y)
}

/// A plain number: a mantissa, optionally followed by `e`/`E` and an
/// exponent.
pub open spec fn is_number(t: Seq<char>) -> bool {
    let e = first_e(t, 0);
    &&& is_mantissa(t.subrange(0, e))
    &&& (e == t.len() || is_exp_part(t.subrange(e + 1, t.len() as int)))
}

/// The exact shape of a string the standard library parses as a float:
/// an optional sign, then `inf`, `infinity`, `nan` (any case) or a
/// decimal number with an optional exponent.
pub open spec fn is_float_token(s: Seq<char>) -> bool {
    let t = strip_sign(s);
    ||| is_inf_word(t)
    ||| is_infinity_word(t)
    ||| is_nan_word(t)
    ||| is_number(t)
}

/// Exec check that every character of `s` is a digit.
pub fn all_digits_str(s: &str) -> (r: bool)
    ensures
        r == all_digits(s@),
{
    let n: usize = s.unicode_len();
    let mut i: usize = 0;
    while i < n
        invariant
            0 <= i <= n,
            n == s@.len(),
            forall|m: int| 0 <= m < i ==> is_digit(#[trigger] s@[m]),
        decreases n - i,
    {
        if !digit_char(s.get_char(i)) {
            return false;
        }
        i += 1;
    }
    true
}

/// Exec mirror of `first_dot`.
pub fn scan_dot(s: &str, from: usize) -> (r: usize)
    requires
        from <= s@.len(),
    ensures
        r == first_dot(s@, from as int),
        from <= r <= s@.len(),
{
    let n: usize = s.unicode_len();
    let mut i: usize = from;
    while i < n
        invariant
            from <= i <= n,
            n == s@.len(),
            first_dot(s@, from as int) == first_dot(s@, i as int),
        decreases n - i,
    {
        if s.get_char(i) == '.' {
            return i;
        }
        i += 1;
    }
    i
}

/// Exec mirror of `first_e`.
pub fn scan_e(s: &str, from: usize) -> (r: usize)
    requires
        from <= s@.len(),
    ensures
        r == first_e(s@, from as int),
        from <= r <= s@.len(),
{
    let n: usize = s.unicode_len();
    let mut i: usize = from;
    while i < n
        invariant
            from <= i <= n,
            n == s@.len(),
            first_e(s@, from as int) == first_e(s@, i as int),
        decreases n - i,
    {
        if lc_char(s.get_char(i)) == 101 {
            return i;
        }
        i += 1;
    }
    i
}

/// Exec mirror of `is_mantissa`.
fn mantissa_str(m: &str) -> (r: bool)
    ensures
        r == is_mantissa(m@),
{
    let n: usize = m.unicode_len();
    let d = scan_dot(m, 0);
    let before = m.substring_char(0, d);
    if !all_digits_str(before) {
        return false;
    }
    let after_ok: bool = if d == n {
        true
    } else {
        all_digits_str(m.substring_char(d + 1, n))
    };
    if !after_ok {
        return false;
    }
    d > 0 || (d < n && n > d + 1)
}

/// Exec mirror of `is_exp_part`.
fn exp_part_str(x: &str) -> (r: bool)
    ensures
        r == is_exp_part(x@),
{
    let n: usize = x.unicode_len();
    let mut i: usize = 0;
    if n > 0 {
        let c = x.get_char(0);
        if c == '+' || c == '-' {
            i = 1;
        }
    }
    let ghost y = strip_sign(x@);
    assert(y =~= x@.subrange(i as int, n as int));
    let rest = x.substring_char(i, n);
    n - i >= 1 && all_digits_str(rest)
}

/// Decides whether `s` has the exact shape of a float token.
pub fn float_token(s: &str) -> (r: bool)
    ensures
        r == is_float_token(s@),
{
    let n: usize = s.unicode_len();
    let mut i: usize = 0;
    if n > 0 {
        let c = s.get_char(0);
        if c == '+' || c == '-' {
            i = 1;
        }
    }
    let ghost tg = strip_sign(s@);
    assert(tg =~= s@.subrange(i as int, n as int));
    let t = s.substring_char(i, n);
    let m: usize = t.unicode_len();
    if m == 3 {
        let a = lc_char(t.get_char(0));
        let b = lc_char(t.get_char(1));
        let c = lc_char(t.get_char(2));
        if (a == 105 && b == 110 && c == 102) || (a == 110 && b == 97 && c == 110) {
            return true;
        }
    }
    if m == 8 {
        if lc_char(t.get_char(0)) == 105 && lc_char(t.get_char(1)) == 110 && lc_char(
            t.get_char(2),
        ) == 102 && lc_char(t.get_char(3)) == 105 && lc_char(t.get_char(4)) == 110 && lc_char(
            t.get_char(5),
        ) == 105 && lc_char(t.get_char(6)) == 116 && lc_char(t.get_char(7)) == 121 {
            return true;
        }
    }
    let e = scan_e(t, 0);
    let mant = t.substring_char(0, e);
    let ok_m = mantissa_str(mant);
    let ok_e: bool = if e == m {
        true
    } else {
        exp_part_str(t.substring_char(e + 1, m))
    };
    ok_m && ok_e
}

} // verus!
