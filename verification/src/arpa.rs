//! The ARPA text model format: a strict, line-oriented parser that turns
//! a count header and per-order n-gram sections into structured records.

use vstd::prelude::*;

use crate::counts::{Counts, InvalidCounts, NGramCardinality, valid_count_set};
use crate::mapping::Mappings;
use crate::ngram::{NGram, NGramRep, ProbBackoff, ProbBackoffNgram, ProbNgram};
use crate::text::{
    digits_val, float_token, is_float_token, is_usize_token, next_non_ws, parse_usize_token,
    scan_non_ws, split_ascii_ws, spec_tokens, strip_plus,
};

verus! {

/// Everything that can go wrong while reading an ARPA file; every error
/// is terminal for that parse.
#[derive(Debug, PartialEq, Eq)]
pub enum ArpaReadError {
    /// The data section marker is missing.
    DataHeaderMissing,
    /// A count line could not be parsed.
    NgramCountsBroken,
    /// The data section holds no count line at all.
    NgramCountsMissing,
    /// An n-gram line of a backoff section is malformed.
    BackOffSectionError,
    /// An n-gram section header line is missing.
    NGramSectionHeaderMissing,
    /// An n-gram section header differs from the expected one: got,
    /// expected.
    NGramSectionHeaderMismatch(String, String),
    /// A section holds fewer rows than its declared cardinality.
    NgramCountsMismatch,
    /// The collected count set is invalid.
    CountHeaderError(InvalidCounts),
    /// The blank boundary line after a section is missing.
    SectionBoundaryMissing,
    /// An n-gram line of the highest order section is malformed.
    NoBackoffSectionError,
    /// The caller's reader failed; the text holds its report.
    IoError(String),
    /// A section read was attempted out of order.
    InvalidReaderState,
}

/// A line whose characters are all whitespace.
pub open spec fn is_blank(l: Seq<char>) -> bool {
    next_non_ws(l, 0) == l.len()
}

/// The literal data section marker.
pub open spec fn is_data_header(l: Seq<char>) -> bool {
    l =~= seq!['\\', 'd', 'a', 't', 'a', '\\']
}

/// The first line at or after `i` that is not blank, or the line count.
pub open spec fn first_non_blank(lines: Seq<Seq<char>>, i: int) -> int
    recommends
        0 <= i <= lines.len(),
    decreases lines.len() - i,
    when 0 <= i <= lines.len()
{
    if i >= lines.len() {
        i
    } else if !is_blank(lines[i]) {
        i
    } else {
        first_non_blank(lines, i + 1)
    }
}

pub proof fn lemma_first_non_blank(lines: Seq<Seq<char>>, i: int)
    requires
        0 <= i <= lines.len(),
    ensures
        i <= first_non_blank(lines, i) <= lines.len(),
    decreases lines.len() - i,
{
    if i < lines.len() && is_blank(lines[i]) {
        lemma_first_non_blank(lines, i + 1);
    }
}

/// First position at or after `i` holding `=`, or the length of `s`.
pub open spec fn first_eq(s: Seq<char>, i: int) -> int
    recommends
        0 <= i <= s.len(),
    decreases s.len() - i,
    when 0 <= i <= s.len()
{
    if i >= s.len() {
        i
    } else if s[i] == '=' {
        i
    } else {
        first_eq(s, i + 1)
    }
}

/// Exec mirror of `first_eq`.
fn scan_eq(s: &str, from: usize) -> (r: usize)
    requires
        from <= s@.len(),
    ensures
        r == first_eq(s@, from as int),
        from <= r <= s@.len(),
{
    let n: usize = s.unicode_len();
    let mut i: usize = from;
    while i < n
        invariant
            from <= i <= n,
            n == s@.len(),
            first_eq(s@, from as int) == first_eq(s@, i as int),
        decreases n - i,
    {
        if s.get_char(i) == '=' {
            return i;
        }
        i += 1;
    }
    i
}

/// The count line suffix grammar: `<order>=<cardinality>`, both decimal
/// integers, a positive order, anything after a second `=` ignored.
pub open spec fn spec_suffix_counts(s: Seq<char>) -> Result<NGramCardinality, ArpaReadError> {
    let e1 = first_eq(s, 0);
    if e1 == s.len() {
        Err(ArpaReadError::NgramCountsBroken)
    } else {
        let p0 = s.subrange(0, e1);
        let e2 = first_eq(s, e1 + 1);
        let p1 = s.subrange(e1 + 1, e2);
        if !is_usize_token(p0) || !is_usize_token(p1) {
            Err(ArpaReadError::NgramCountsBroken)
        } else if digits_val(strip_plus(p0)) == 0 {
            Err(ArpaReadError::NgramCountsBroken)
        } else {
            Ok(
                NGramCardinality {
                    order: digits_val(strip_plus(p0)) as usize,
                    cardinality: digits_val(strip_plus(p1)) as usize,
                },
            )
        }
    }
}

impl NGramCardinality {
    /// Parses the suffix of a count line, `<order>=<cardinality>`.
    pub fn try_from_ngram_line_suffix(suffix: &str) -> (r: Result<Self, ArpaReadError>)
        ensures
            r == spec_suffix_counts(suffix@),
    {
        let n: usize = suffix.unicode_len();
        let e1 = scan_eq(suffix, 0);
        if e1 == n {
            return Err(ArpaReadError::NgramCountsBroken);
        }
        let p0 = suffix.substring_char(0, e1);
        let e2 = scan_eq(suffix, e1 + 1);
        let p1 = suffix.substring_char(e1 + 1, e2);
        let order = match parse_usize_token(p0) {
            Some(v) => v,
            None => {
                return Err(ArpaReadError::NgramCountsBroken);
            },
        };
        let cardinality = match parse_usize_token(p1) {
            Some(v) => v,
            None => {
                return Err(ArpaReadError::NgramCountsBroken);
            },
        };
        proof {
            crate::text::lemma_digits_val_nonneg(strip_plus(p0@));
            crate::text::lemma_digits_val_nonneg(strip_plus(p1@));
        }
        if order == 0 {
            return Err(ArpaReadError::NgramCountsBroken);
        }
        Ok(NGramCardinality { order, cardinality })
    }
}

/// The count line prefix: the word `ngram` and one space.
pub open spec fn has_ngram_prefix(l: Seq<char>) -> bool {
    &&& l.len() >= 6
    &&& l[0] == 'n'
    &&& l[1] == 'g'
    &&& l[2] == 'r'
    &&& l[3] == 'a'
    &&& l[4] == 'm'
    &&& l[5] == ' '
}

/// Gathers the count lines after the data header until a blank line or
/// the end of input; lines without the count prefix are passed over.
pub open spec fn collect_counts(lines: Seq<Seq<char>>, i: int) -> Result<
    (Seq<NGramCardinality>, int),
    ArpaReadError,
>
    recommends
        0 <= i <= lines.len(),
    decreases lines.len() - i,
    when 0 <= i <= lines.len()
{
    if i >= lines.len() {
        Ok((Seq::empty(), i))
    } else if is_blank(lines[i]) {
        Ok((Seq::empty(), i + 1))
    } else if has_ngram_prefix(lines[i]) {
        match spec_suffix_counts(lines[i].skip(6)) {
            Err(e) => Err(e),
            Ok(c) => match collect_counts(lines, i + 1) {
                Err(e) => Err(e),
                Ok((rest, next)) => Ok((seq![c] + rest, next)),
            },
        }
    } else {
        match collect_counts(lines, i + 1) {
            Err(e) => Err(e),
            Ok((rest, next)) => Ok((rest, next)),
        }
    }
}

/// The whole count header: the first non-blank line must be the data
/// marker, then count lines until a blank line; the collected set must
/// be non-empty and valid.
pub open spec fn spec_count_header(lines: Seq<Seq<char>>) -> Result<
    (Seq<NGramCardinality>, int),
    ArpaReadError,
> {
    let h = first_non_blank(lines, 0);
    if h >= lines.len() || !is_data_header(lines[h]) {
        Err(ArpaReadError::DataHeaderMissing)
    } else {
        match collect_counts(lines, h + 1) {
            Err(e) => Err(e),
            Ok((cs, next)) => if cs.len() == 0 {
                Err(ArpaReadError::NgramCountsMissing)
            } else if !valid_count_set(cs) {
                Err(ArpaReadError::CountHeaderError(InvalidCounts))
            } else {
                Ok((cs, next))
            },
        }
    }
}

/// Exec check that a line is entirely whitespace.
fn blank_line(l: &String) -> (r: bool)
    ensures
        r == is_blank(l@),
{
    let n: usize = l.as_str().unicode_len();
    let e = scan_non_ws(l.as_str(), 0);
    e == n
}

/// Exec check for the literal data marker.
fn data_header_line(l: &String) -> (r: bool)
    ensures
        r == is_data_header(l@),
{
    let n: usize = l.as_str().unicode_len();
    if n != 6 {
        proof {
            assert(!is_data_header(l@));
        }
        return false;
    }
    let s = l.as_str();
    let r = s.get_char(0) == '\\' && s.get_char(1) == 'd' && s.get_char(2) == 'a' && s.get_char(3)
        == 't' && s.get_char(4) == 'a' && s.get_char(5) == '\\';
    proof {
        if r {
            assert(l@ =~= seq!['\\', 'd', 'a', 't', 'a', '\\']);
        }
    }
    r
}

/// Exec check for the count line prefix.
fn ngram_prefix_line(l: &String) -> (r: bool)
    ensures
        r == has_ngram_prefix(l@),
{
    let n: usize = l.as_str().unicode_len();
    if n < 6 {
        return false;
    }
    let s = l.as_str();
    s.get_char(0) == 'n' && s.get_char(1) == 'g' && s.get_char(2) == 'r' && s.get_char(3) == 'a'
        && s.get_char(4) == 'm' && s.get_char(5) == ' '
}

/// Reads the count header from `lines`, starting at the top; on success
/// returns the validated counts and the position of the first section
/// line.
pub fn read_count_header(lines: &Vec<String>) -> (r: Result<
    (Counts, usize),
    ArpaReadError,
>)
    ensures
        match spec_count_header(lines.deep_view()) {
            Err(e) => r == Err::<(Counts, usize), ArpaReadError>(e),
            Ok((cs, next)) => {
                &&& r matches Ok((c, p))
                &&& p == next
                &&& c.wf()
                &&& c.spec_counts().len() == cs.len()
                &&& forall|i: int| 0 <= i < cs.len() ==> cs.contains(#[trigger] c.spec_counts()[i])
                &&& c.spec_counts() == crate::counts::canon_counts(cs)
            },
        },
{
    let ghost ls = lines.deep_view();
    let n: usize = lines.len();
    let mut h: usize = 0;
    while h < n
        invariant_except_break
            0 <= h <= n,
            n == ls.len(),
            ls == lines.deep_view(),
            first_non_blank(ls, 0) == first_non_blank(ls, h as int),
        ensures
            0 <= h <= n,
            first_non_blank(ls, 0) == h,
        decreases n - h,
    {
        if !blank_line(&lines[h]) {
            break ;
        }
        h += 1;
    }
    if h >= n || !data_header_line(&lines[h]) {
        return Err(ArpaReadError::DataHeaderMissing);
    }
    let mut collected: Vec<NGramCardinality> = Vec::new();
    let mut i: usize = h + 1;
    let ghost target = collect_counts(ls, h + 1);
    loop
        invariant_except_break
            h + 1 <= i <= n,
            n == ls.len(),
            ls == lines.deep_view(),
            h < n,
            first_non_blank(ls, 0) == h,
            is_data_header(ls[h as int]),
            target == collect_counts(ls, h + 1),
            (match collect_counts(ls, i as int) {
                Err(e) => target matches Err(e2) && e2 == e,
                Ok((rest, next)) => target matches Ok((all, next2)) && all
                    =~= collected@ + rest && next2 == next,
            }),
        ensures
            h + 1 <= i <= n,
            (target matches Ok((all, next)) && all =~= collected@ && next == i),
        decreases n - i,
    {
        if i >= n {
            assert(collect_counts(ls, i as int) matches Ok((rest, next)) && rest =~= Seq::empty()
                && next == i);
            assert(collected@ + Seq::<NGramCardinality>::empty() =~= collected@);
            break ;
        }
        if blank_line(&lines[i]) {
            assert(collect_counts(ls, i as int) matches Ok((rest, next)) && rest =~= Seq::empty()
                && next == i + 1);
            assert(collected@ + Seq::<NGramCardinality>::empty() =~= collected@);
            i += 1;
            break ;
        }
        if ngram_prefix_line(&lines[i]) {
            let m: usize = lines[i].as_str().unicode_len();
            let suffix = lines[i].as_str().substring_char(6, m);
            assert(suffix@ =~= ls[i as int].skip(6));
            match NGramCardinality::try_from_ngram_line_suffix(suffix) {
                Ok(c) => {
                    let ghost prevc = collected@;
                    collected.push(c);
                    proof {
                        if let Ok((rest, next)) = collect_counts(ls, i + 1) {
                            assert(prevc + (seq![c] + rest) =~= collected@ + rest);
                        }
                    }
                },
                Err(e) => {
                    return Err(e);
                },
            }
        }
        i += 1;
    }
    if collected.len() == 0 {
        return Err(ArpaReadError::NgramCountsMissing);
    }
    match Counts::from_count_vec(collected) {
        Ok(c) => Ok((c, i)),
        Err(inv) => Err(ArpaReadError::CountHeaderError(inv)),
    }
}

} // verus!

verus! {

/// Ten to the power `p` (1 for non-positive `p`).
pub open spec fn pow10(p: int) -> int
    decreases p,
{
    if p <= 0 {
        1
    } else {
        10 * pow10(p - 1)
    }
}

/// The number of decimal digits of a non-negative number.
pub open spec fn ndigits(n: int) -> int
    decreases n,
{
    if n < 10 {
        1
    } else {
        1 + ndigits(n / 10)
    }
}

/// The decimal digit of `n` at power position `p` (0 = least
/// significant).
pub open spec fn digit_at(n: int, p: int) -> int {
    (n / pow10(p)) % 10
}

/// The exact shape of an n-gram section header line for `ord`:
/// a backslash, the decimal digits of the order, then `-grams:`.
pub open spec fn is_section_header(l: Seq<char>, ord: int) -> bool {
    let k = ndigits(ord);
    &&& l.len() == k + 8
    &&& l[0] == '\\'
    &&& forall|i: int| 0 <= i < k ==> (#[trigger] l[1 + i]) as int == 48 + digit_at(ord, k - 1 - i)
    &&& l[k + 1] == '-'
    &&& l[k + 2] == 'g'
    &&& l[k + 3] == 'r'
    &&& l[k + 4] == 'a'
    &&& l[k + 5] == 'm'
    &&& l[k + 6] == 's'
    &&& l[k + 7] == ':'
}

proof fn lemma_pow10_pos(p: int)
    ensures
        pow10(p) >= 1,
    decreases p,
{
    if p > 0 {
        lemma_pow10_pos(p - 1);
    }
}

/// Extracts the decimal digits of `n`, least significant first.
fn dec_digits(n: usize) -> (r: Vec<u8>)
    ensures
        r@.len() == ndigits(n as int),
        forall|j: int| 0 <= j < r@.len() ==> #[trigger] r@[j] as int == digit_at(n as int, j),
{
    let mut out: Vec<u8> = Vec::new();
    let mut t: usize = n;
    loop
        invariant_except_break
            out@.len() >= 0,
            t == n as int / pow10(out@.len() as int),
            forall|j: int| 0 <= j < out@.len() ==> #[trigger] out@[j] as int == digit_at(n as int, j),
            ndigits(n as int) == if t >= 10 {
                out@.len() as int + ndigits(t as int)
            } else {
                out@.len() as int + 1
            },
        ensures
            out@.len() == ndigits(n as int),
            forall|j: int| 0 <= j < out@.len() ==> #[trigger] out@[j] as int == digit_at(n as int, j),
        decreases t,
    {
        proof {
            lemma_pow10_pos(out@.len() as int);
            vstd::arithmetic::div_mod::lemma_div_denominator(
                n as int,
                pow10(out@.len() as int),
                10,
            );
        }
        let ghost t0 = t as int;
        let d: u8 = (t % 10) as u8;
        out.push(d);
        t = t / 10;
        proof {
            if t != 0 {
                assert(t0 >= 10) by {
                    if t0 < 10 {
                        assert(t0 / 10 == 0);
                    }
                }
                assert(ndigits(t0) == 1 + ndigits(t0 / 10));
            }
        }
        if t == 0 {
            break ;
        }
    }
    out
}

/// Exec check of the section header shape.
fn header_shape_ok(line: &str, order: usize, digits: &Vec<u8>) -> (r: bool)
    requires
        digits@.len() == ndigits(order as int),
        forall|j: int| 0 <= j < digits@.len() ==> #[trigger] digits@[j] as int == digit_at(
            order as int,
            j,
        ),
    ensures
        r == is_section_header(line@, order as int),
{
    let k: usize = digits.len();
    let n: usize = line.unicode_len();
    if n < 8 || n - 8 != k {
        return false;
    }
    if line.get_char(0) != '\\' {
        return false;
    }
    let mut i: usize = 0;
    while i < k
        invariant_except_break
            0 <= i <= k,
            k == ndigits(order as int),
            n == line@.len(),
            n == k + 8,
            digits@.len() == k,
            forall|j: int| 0 <= j < k ==> #[trigger] digits@[j] as int == digit_at(order as int, j),
            forall|j: int|
                0 <= j < i ==> (#[trigger] line@[1 + j]) as int == 48 + digit_at(
                    order as int,
                    k - 1 - j,
                ),
        ensures
            i <= k,
            i < k ==> (line@[1 + i]) as int != 48 + digit_at(order as int, k - 1 - i),
            i == k ==> forall|j: int|
                0 <= j < k ==> (#[trigger] line@[1 + j]) as int == 48 + digit_at(
                    order as int,
                    k - 1 - j,
                ),
        decreases k - i,
    {
        let c: u32 = line.get_char(1 + i) as u32;
        let expect: u32 = 48 + (digits[k - 1 - i] as u32);
        if c != expect {
            break ;
        }
        i += 1;
    }
    if i < k {
        return false;
    }
    line.get_char(k + 1) == '-' && line.get_char(k + 2) == 'g' && line.get_char(k + 3) == 'r'
        && line.get_char(k + 4) == 'a' && line.get_char(k + 5) == 'm' && line.get_char(k + 6)
        == 's' && line.get_char(k + 7) == ':'
}

/// Checks a section header line against the expected order; the error
/// reports the line and the header that was expected.
pub fn matches_ngram_section_header(line: &str, order: usize) -> (r: Result<(), ArpaReadError>)
    requires
        order >= 1,
    ensures
        r is Ok <==> is_section_header(line@, order as int),
        r is Err ==> (r matches Err(e) && e matches ArpaReadError::NGramSectionHeaderMismatch(_, _)),
{
    let digits = dec_digits(order);
    if header_shape_ok(line, order, &digits) {
        Ok(())
    } else {
        let expected: String = String::from_str("\\").concat(order.to_string().as_str()).concat(
            "-grams:",
        );
        Err(ArpaReadError::NGramSectionHeaderMismatch(line.to_owned(), expected))
    }
}

} // verus!

verus! {

/// Joins the tokens after the first one, each preceded by one space.
pub open spec fn join_rest(ps: Seq<Seq<char>>) -> Seq<char>
    decreases ps.len(),
{
    if ps.len() == 0 {
        Seq::empty()
    } else {
        seq![' '] + ps.first() + join_rest(ps.drop_first())
    }
}

/// Joins tokens with one space between each pair.
pub open spec fn join_tokens(ps: Seq<Seq<char>>) -> Seq<char> {
    if ps.len() == 0 {
        Seq::empty()
    } else {
        ps.first() + join_rest(ps.drop_first())
    }
}

proof fn lemma_join_rest_snoc(ps: Seq<Seq<char>>, i: int)
    requires
        0 <= i < ps.len(),
    ensures
        join_rest(ps.take(i + 1)) =~= join_rest(ps.take(i)) + seq![' '] + ps[i],
    decreases i,
{
    if i == 0 {
        assert(ps.take(1) =~= seq![ps[0]]);
        assert(seq![ps[0]].drop_first() =~= Seq::<Seq<char>>::empty());
        assert(join_rest(seq![ps[0]]) =~= seq![' '] + ps[0] + join_rest(
            Seq::<Seq<char>>::empty(),
        ));
        assert(ps.take(0) =~= Seq::<Seq<char>>::empty());
    } else {
        lemma_join_rest_snoc(ps.drop_first(), i - 1);
        assert(ps.take(i + 1).drop_first() =~= ps.drop_first().take(i));
        assert(ps.take(i).drop_first() =~= ps.drop_first().take(i - 1));
        assert(ps.take(i + 1).first() == ps[0]);
        assert(ps.take(i).first() == ps[0]);
        assert(ps.drop_first()[i - 1] == ps[i]);
        assert(join_rest(ps.take(i + 1)) =~= seq![' '] + ps[0] + join_rest(
            ps.drop_first().take(i),
        ));
        assert(join_rest(ps.take(i)) =~= seq![' '] + ps[0] + join_rest(
            ps.drop_first().take(i - 1),
        ));
    }
}

/// Joining one more token appends one space and the token.
pub proof fn lemma_join_snoc(ps: Seq<Seq<char>>, i: int)
    requires
        0 <= i < ps.len(),
    ensures
        i == 0 ==> join_tokens(ps.take(1)) =~= ps[0],
        i > 0 ==> join_tokens(ps.take(i + 1)) =~= join_tokens(ps.take(i)) + seq![' '] + ps[i],
{
    if i == 0 {
        assert(ps.take(1) =~= seq![ps[0]]);
        assert(seq![ps[0]].drop_first() =~= Seq::<Seq<char>>::empty());
        assert(join_tokens(seq![ps[0]]) =~= ps[0] + join_rest(Seq::<Seq<char>>::empty()));
    } else {
        lemma_join_rest_snoc(ps.drop_first(), i - 1);
        assert(ps.take(i + 1).drop_first() =~= ps.drop_first().take(i));
        assert(ps.take(i).drop_first() =~= ps.drop_first().take(i - 1));
        assert(ps.take(i + 1).first() == ps[0]);
        assert(ps.take(i).first() == ps[0]);
        assert(ps.drop_first()[i - 1] == ps[i]);
    }
}

/// What one line's n-gram tokens do to a processor and what the
/// processor hands back for them.
pub trait NGramProcessor: Sized {
    type Output: NGramRep + View;

    /// Relates the processor before and after one line to the tokens it
    /// was handed and the view of the value it returned.
    spec fn process_spec(
        pre: Self,
        post: Self,
        pieces: Seq<Seq<char>>,
        out: <Self::Output as View>::V,
    ) -> bool;

    /// The vocabulary this processor hands over when parsing ends.
    spec fn spec_mapping(self) -> Mappings;

    fn process_ngram(&mut self, pieces: Vec<String>) -> (r: Self::Output)
        ensures
            Self::process_spec(*old(self), *final(self), pieces.deep_view(), r@),
    ;

    fn into_mapping(self) -> (r: Mappings)
        ensures
            r == self.spec_mapping(),
    ;
}

/// Keeps each n-gram as its text, tokens joined by single spaces; no
/// vocabulary is built.
pub struct StringProcessor;

impl NGramProcessor for StringProcessor {
    type Output = String;

    open spec fn process_spec(
        pre: Self,
        post: Self,
        pieces: Seq<Seq<char>>,
        out: Seq<char>,
    ) -> bool {
        out == join_tokens(pieces)
    }

    open spec fn spec_mapping(self) -> Mappings {
        Mappings::NoOp
    }

    fn process_ngram(&mut self, pieces: Vec<String>) -> (r: String)
        ensures
            Self::process_spec(*old(self), *final(self), pieces.deep_view(), r@),
    {
        let ghost ps = pieces.deep_view();
        let mut out: String = String::new();
        let mut i: usize = 0;
        while i < pieces.len()
            invariant
                0 <= i <= pieces@.len(),
                ps == pieces.deep_view(),
                out@ =~= join_tokens(ps.take(i as int)),
            decreases pieces@.len() - i,
        {
            proof {
                reveal_strlit(" ");
            }
            if i > 0 {
                out.append(" ");
            }
            out.append(pieces[i].as_str());
            proof {
                assert(ps[i as int] == pieces@[i as int]@);
                lemma_join_snoc(ps, i as int);
                if i == 0 {
                    assert(out@ =~= ps[0]);
                } else {
                    assert(" "@ =~= seq![' ']);
                }
            }
            i += 1;
        }
        proof {
            assert(ps.take(ps.len() as int) =~= ps);
        }
        out
    }

    fn into_mapping(self) -> (r: Mappings)
        ensures
            r == self.spec_mapping(),
    {
        Mappings::NoOp
    }
}

/// One step of vocabulary growth: a known token keeps its id, a new one
/// is appended while id space remains.
pub open spec fn vocab_step(m: Seq<Seq<char>>, p: Seq<char>) -> Seq<Seq<char>> {
    if crate::mapping::toks_contains(m, p) {
        m
    } else if m.len() < u32::MAX {
        m.push(p)
    } else {
        m
    }
}

/// The id a token receives at one step of vocabulary growth.
pub open spec fn id_step(m: Seq<Seq<char>>, p: Seq<char>) -> u32 {
    if crate::mapping::toks_contains(m, p) {
        crate::mapping::toks_index(m, p) as u32
    } else if m.len() < u32::MAX {
        m.len() as u32
    } else {
        u32::MAX
    }
}

/// The vocabulary after absorbing the tokens of one line, left to right.
pub open spec fn vocab_after(m: Seq<Seq<char>>, ps: Seq<Seq<char>>) -> Seq<Seq<char>>
    decreases ps.len(),
{
    if ps.len() == 0 {
        m
    } else {
        vocab_after(vocab_step(m, ps.first()), ps.drop_first())
    }
}

/// The ids the tokens of one line receive, left to right.
pub open spec fn ids_of(m: Seq<Seq<char>>, ps: Seq<Seq<char>>) -> Seq<u32>
    decreases ps.len(),
{
    if ps.len() == 0 {
        Seq::empty()
    } else {
        seq![id_step(m, ps.first())] + ids_of(vocab_step(m, ps.first()), ps.drop_first())
    }
}

/// Converts each n-gram token to its vocabulary id, growing the
/// vocabulary as tokens are first seen.
pub struct IntVocabProcessor(pub Mappings);

impl NGramProcessor for IntVocabProcessor {
    type Output = Vec<u32>;

    open spec fn process_spec(
        pre: Self,
        post: Self,
        pieces: Seq<Seq<char>>,
        out: Seq<u32>,
    ) -> bool {
        &&& out.len() == pieces.len()
        &&& (pre.0 is NoOp ==> post.0 is NoOp && out =~= Seq::new(pieces.len(), |i: int| 0u32))
        &&& (pre.0 matches Mappings::HashVecMap(h) ==> (post.0 matches Mappings::HashVecMap(h2)
            && (h.wf() ==> {
            &&& h2.tokens() == vocab_after(h.tokens(), pieces)
            &&& h2.wf()
            &&& out == ids_of(h.tokens(), pieces)
        })))
    }

    open spec fn spec_mapping(self) -> Mappings {
        self.0
    }

    fn process_ngram(&mut self, pieces: Vec<String>) -> (r: Vec<u32>)
        ensures
            Self::process_spec(*old(self), *final(self), pieces.deep_view(), r@),
    {
        let ghost ps = pieces.deep_view();
        let ghost m0 = self.0.tokens();
        proof {
            assert(ps.skip(0) =~= ps);
        }
        let mut out: Vec<u32> = Vec::new();
        let mut i: usize = 0;
        while i < pieces.len()
            invariant
                0 <= i <= pieces@.len(),
                ps == pieces.deep_view(),
                out@.len() == i,
                old(self).0 is NoOp ==> self.0 is NoOp && out@ =~= Seq::new(i as nat, |k: int| 0u32),
                old(self).0 matches Mappings::HashVecMap(h) ==> (self.0 matches
                    Mappings::HashVecMap(hc) && (h.wf() ==> {
                    &&& hc.wf()
                    &&& vocab_after(h.tokens(), ps) == vocab_after(hc.tokens(), ps.skip(i as int))
                    &&& ids_of(h.tokens(), ps) =~= out@ + ids_of(hc.tokens(), ps.skip(i as int))
                })),
            decreases pieces@.len() - i,
        {
            let piece: String = pieces[i].clone();
            let ghost cur = self.0.tokens();
            assert(piece@ == ps[i as int]);
            let id = self.0.insert_or_get_index(piece);
            proof {
                assert(ps.skip(i as int).first() == ps[i as int]);
                assert(ps.skip(i as int).drop_first() =~= ps.skip(i + 1));
            }
            out.push(id);
            i += 1;
        }
        proof {
            assert(ps.skip(ps.len() as int) =~= Seq::<Seq<char>>::empty());
            assert(ps.take(ps.len() as int) =~= ps);
            match &old(self).0 {
                Mappings::HashVecMap(h) => {
                    match &self.0 {
                        Mappings::HashVecMap(hc) => {
                            if h.wf() {
                                assert(out@ + ids_of(hc.tokens(), ps.skip(ps.len() as int))
                                    =~= out@);
                            }
                        },
                        _ => {},
                    }
                },
                _ => {},
            }
        }
        out
    }

    fn into_mapping(self) -> (r: Mappings)
        ensures
            r == self.spec_mapping(),
    {
        self.0
    }
}

/// Discards every n-gram; only the file structure is checked.
pub struct NoOpProc;

impl NGramProcessor for NoOpProc {
    type Output = ();

    open spec fn process_spec(pre: Self, post: Self, pieces: Seq<Seq<char>>, out: ()) -> bool {
        true
    }

    open spec fn spec_mapping(self) -> Mappings {
        Mappings::NoOp
    }

    fn process_ngram(&mut self, pieces: Vec<String>) -> (r: ())
        ensures
            Self::process_spec(*old(self), *final(self), pieces.deep_view(), r@),
    {
        ()
    }

    fn into_mapping(self) -> (r: Mappings)
        ensures
            r == self.spec_mapping(),
    {
        Mappings::NoOp
    }
}

} // verus!

verus! {

/// A lower order section row: a float, at least one token, a float.
pub open spec fn backoff_row_ok(l: Seq<char>) -> bool {
    let ts = spec_tokens(l);
    &&& ts.len() >= 3
    &&& is_float_token(ts[0])
    &&& is_float_token(ts.last())
}

/// The n-gram tokens of a backoff row: everything between the leading
/// log probability and the trailing backoff.
pub open spec fn backoff_row_pieces(l: Seq<char>) -> Seq<Seq<char>> {
    spec_tokens(l).subrange(1, spec_tokens(l).len() - 1)
}

/// A highest order section row: a float, then at least one token.
pub open spec fn nobackoff_row_ok(l: Seq<char>) -> bool {
    let ts = spec_tokens(l);
    &&& ts.len() >= 2
    &&& is_float_token(ts[0])
}

/// The n-gram tokens of a highest order row: everything after the log
/// probability.
pub open spec fn nobackoff_row_pieces(l: Seq<char>) -> Seq<Seq<char>> {
    spec_tokens(l).drop_first()
}

/// Whether row `p + k` has the shape its section asks for.
pub open spec fn row_shape_ok(lines: Seq<Seq<char>>, p: int, backoff: bool) -> bool {
    if backoff {
        backoff_row_ok(lines[p])
    } else {
        nobackoff_row_ok(lines[p])
    }
}

/// The first of `m` rows from `p` on that is malformed, or `m`.
pub open spec fn first_bad_row(lines: Seq<Seq<char>>, p: int, m: int, backoff: bool) -> int
    decreases m,
    when m >= 0
{
    if m <= 0 {
        0
    } else if !row_shape_ok(lines, p, backoff) {
        0
    } else {
        1 + first_bad_row(lines, p + 1, m - 1, backoff)
    }
}

pub proof fn lemma_first_bad_row_range(lines: Seq<Seq<char>>, p: int, m: int, backoff: bool)
    requires
        m >= 0,
    ensures
        0 <= first_bad_row(lines, p, m, backoff) <= m,
    decreases m,
{
    if m > 0 && row_shape_ok(lines, p, backoff) {
        lemma_first_bad_row_range(lines, p + 1, m - 1, backoff);
    }
}

proof fn lemma_first_bad_row_val(lines: Seq<Seq<char>>, p: int, m: int, j: int, backoff: bool)
    requires
        0 <= j <= m,
        forall|i: int| 0 <= i < j ==> #[trigger] row_shape_ok(lines, p + i, backoff),
        j < m ==> !row_shape_ok(lines, p + j, backoff),
    ensures
        first_bad_row(lines, p, m, backoff) == j,
    decreases j,
{
    if j > 0 {
        assert(row_shape_ok(lines, p + 0, backoff));
        assert forall|i: int| 0 <= i < j - 1 implies #[trigger] row_shape_ok(lines, p + 1 + i, backoff) by {
            assert(row_shape_ok(lines, p + (i + 1), backoff));
        }
        lemma_first_bad_row_val(lines, p + 1, m - 1, j - 1, backoff);
    }
}

/// A processor run over a list of lines' tokens, relating its first and
/// last state to the values handed back, one per line.
pub open spec fn chain_outputs<T: NGramProcessor>(
    t0: T,
    t1: T,
    pss: Seq<Seq<Seq<char>>>,
    outs: Seq<<T::Output as View>::V>,
) -> bool
    decreases pss.len(),
{
    if pss.len() == 0 {
        t1 == t0 && outs.len() == 0
    } else {
        &&& outs.len() == pss.len()
        &&& exists|tm: T|
            #[trigger] T::process_spec(t0, tm, pss.first(), outs.first()) && chain_outputs(
                tm,
                t1,
                pss.drop_first(),
                outs.drop_first(),
            )
    }
}

/// Extending a processor run by one line extends the chain.
pub proof fn lemma_chain_snoc<T: NGramProcessor>(
    t0: T,
    t1: T,
    t2: T,
    pss: Seq<Seq<Seq<char>>>,
    outs: Seq<<T::Output as View>::V>,
    ps: Seq<Seq<char>>,
    o: <T::Output as View>::V,
)
    requires
        chain_outputs(t0, t1, pss, outs),
        T::process_spec(t1, t2, ps, o),
    ensures
        chain_outputs(t0, t2, pss.push(ps), outs.push(o)),
    decreases pss.len(),
{
    if pss.len() == 0 {
        assert(pss.push(ps).drop_first() =~= pss);
        assert(outs.push(o).drop_first() =~= outs);
        assert(pss.push(ps).first() == ps);
        assert(outs.push(o).first() == o);
        assert(T::process_spec(t0, t2, pss.push(ps).first(), outs.push(o).first()));
        assert(chain_outputs(t2, t2, pss.push(ps).drop_first(), outs.push(o).drop_first()));
    } else {
        let tm = choose|tm: T|
            #[trigger] T::process_spec(t0, tm, pss.first(), outs.first()) && chain_outputs(
                tm,
                t1,
                pss.drop_first(),
                outs.drop_first(),
            );
        lemma_chain_snoc(tm, t1, t2, pss.drop_first(), outs.drop_first(), ps, o);
        assert(pss.push(ps).drop_first() =~= pss.drop_first().push(ps));
        assert(outs.push(o).drop_first() =~= outs.drop_first().push(o));
        assert(pss.push(ps).first() == pss.first());
        assert(outs.push(o).first() == outs.first());
        assert(T::process_spec(t0, tm, pss.push(ps).first(), outs.push(o).first()));
    }
}

/// The n-gram sections of a file parse successfully from `pos` on,
/// section `ord` first: each section opens with its header line, holds
/// exactly its declared number of well shaped rows, and ends with a
/// blank boundary line unless the input ends there.
pub open spec fn sections_parse_ok(
    lines: Seq<Seq<char>>,
    pos: int,
    counts: Seq<NGramCardinality>,
    ord: int,
) -> bool
    recommends
        1 <= ord <= counts.len(),
    decreases counts.len() - ord,
    when 1 <= ord <= counts.len()
{
    let card = counts[ord - 1].cardinality as int;
    let is_top = ord == counts.len();
    &&& pos < lines.len()
    &&& is_section_header(lines[pos], ord)
    &&& card <= lines.len() - pos - 1
    &&& first_bad_row(lines, pos + 1, card, !is_top) == card
    &&& (pos + 1 + card >= lines.len() || is_blank(lines[pos + 1 + card]))
    &&& (is_top || sections_parse_ok(
        lines,
        pos + 1 + card + (if pos + 1 + card < lines.len() {
            1int
        } else {
            0int
        }),
        counts,
        ord + 1,
    ))
}

/// The structured content of one parsed model file.
pub struct ArpaModel<R: NGramRep> {
    pub vocab: Mappings,
    pub sections: ArpaFileSections<R>,
}

/// The parsed sections of a model file: the count header, one backoff
/// section per order below the highest, and the highest order section.
pub struct ArpaFileSections<R: NGramRep> {
    pub counts: Counts,
    pub backoffs: Vec<Vec<ProbBackoffNgram<R>>>,
    pub no_backoff: Vec<ProbNgram<R>>,
}

/// A strict reader over the lines of an ARPA file; constructing it
/// parses and validates the count header, and the section readers then
/// consume the n-gram sections in ascending order.
pub struct ArpaReader<T> {
    lines: Vec<String>,
    pos: usize,
    counts: Counts,
    cur_section: usize,
    ngram_processor: T,
}

proof fn lemma_collect_counts_pos(lines: Seq<Seq<char>>, i: int)
    requires
        0 <= i <= lines.len(),
    ensures
        collect_counts(lines, i) matches Ok((cs, next)) ==> i <= next <= lines.len(),
    decreases lines.len() - i,
{
    if i < lines.len() && !is_blank(lines[i]) {
        lemma_collect_counts_pos(lines, i + 1);
    }
}

impl<T: NGramProcessor> ArpaReader<T> {
    pub closed spec fn spec_lines(self) -> Seq<Seq<char>> {
        self.lines.deep_view()
    }

    pub closed spec fn spec_pos(self) -> int {
        self.pos as int
    }

    /// The validated count header.
    pub closed spec fn spec_header(self) -> Counts {
        self.counts
    }

    pub closed spec fn spec_cur(self) -> int {
        self.cur_section as int
    }

    pub closed spec fn spec_proc(self) -> T {
        self.ngram_processor
    }

    pub open spec fn wf(self) -> bool {
        &&& self.spec_header().wf()
        &&& 0 <= self.spec_pos() <= self.spec_lines().len()
        &&& 1 <= self.spec_cur() <= self.spec_header().spec_order() + 1
    }

    /// Everything but the processor is unchanged between two states.
    pub open spec fn eq_mod_proc(a: Self, b: Self) -> bool {
        &&& a.spec_lines() == b.spec_lines()
        &&& a.spec_pos() == b.spec_pos()
        &&& a.spec_header() == b.spec_header()
        &&& a.spec_cur() == b.spec_cur()
    }

    /// Builds the reader by parsing and validating the count header.
    pub fn new(lines: Vec<String>, ngram_processor: T) -> (r: Result<Self, ArpaReadError>)
        ensures
            match spec_count_header(lines.deep_view()) {
                Err(e) => r == Err::<Self, ArpaReadError>(e),
                Ok((cs, next)) => {
                    &&& r matches Ok(rd)
                    &&& rd.wf()
                    &&& rd.spec_lines() == lines.deep_view()
                    &&& rd.spec_pos() == next
                    &&& rd.spec_cur() == 1
                    &&& rd.spec_proc() == ngram_processor
                    &&& rd.spec_header().spec_counts().len() == cs.len()
                    &&& forall|i: int|
                        0 <= i < cs.len() ==> cs.contains(#[trigger] rd.spec_header().spec_counts()[i])
                    &&& rd.spec_header().spec_counts() == crate::counts::canon_counts(cs)
                },
            },
    {
        let (counts, pos) = match read_count_header(&lines) {
            Ok(cp) => cp,
            Err(e) => {
                return Err(e);
            },
        };
        proof {
            let ls = lines.deep_view();
            let h = first_non_blank(ls, 0);
            lemma_first_non_blank(ls, 0);
            lemma_collect_counts_pos(ls, h + 1);
        }
        Ok(
            ArpaReader {
                lines,
                pos,
                counts,
                cur_section: 1,
                ngram_processor,
            },
        )
    }

    /// The order of the model described by the file.
    pub fn order(&self) -> (r: usize)
        requires
            self.wf(),
        ensures
            r == self.spec_header().spec_order(),
    {
        self.counts.order()
    }

    /// The validated count header of the file.
    pub fn counts(&self) -> (r: &Counts)
        ensures
            *r == self.spec_header(),
    {
        &self.counts
    }
}

} // verus!

verus! {

impl<T: NGramProcessor> ArpaReader<T> {
    /// Parses one backoff section row: leading log probability, n-gram
    /// tokens, trailing backoff.
    fn try_back_off_from_arpa_line(&mut self, line: &String) -> (r: Result<
        ProbBackoffNgram<T::Output>,
        ArpaReadError,
    >)
        ensures
            Self::eq_mod_proc(*old(self), *final(self)),
            match r {
                Ok(pb) => {
                    &&& backoff_row_ok(line@)
                    &&& pb.prob_backoff.log_prob@ == spec_tokens(line@)[0]
                    &&& pb.prob_backoff.backoff@ == spec_tokens(line@).last()
                    &&& T::process_spec(
                        old(self).spec_proc(),
                        final(self).spec_proc(),
                        backoff_row_pieces(line@),
                        pb.ngram.0@,
                    )
                },
                Err(e) => {
                    &&& !backoff_row_ok(line@)
                    &&& e == ArpaReadError::BackOffSectionError
                    &&& *final(self) == *old(self)
                },
            },
    {
        let toks: Vec<String> = split_ascii_ws(line.as_str());
        let n: usize = toks.len();
        if n < 3 {
            return Err(ArpaReadError::BackOffSectionError);
        }
        assert(toks.deep_view()[0] == toks@[0]@);
        assert(toks.deep_view()[n - 1] == toks@[n - 1]@);
        if !float_token(toks[0].as_str()) {
            return Err(ArpaReadError::BackOffSectionError);
        }
        if !float_token(toks[n - 1].as_str()) {
            return Err(ArpaReadError::BackOffSectionError);
        }
        let mut pieces: Vec<String> = Vec::new();
        let mut i: usize = 1;
        while i < n - 1
            invariant
                1 <= i <= n - 1,
                3 <= n == toks@.len(),
                pieces.deep_view() =~~= toks.deep_view().subrange(1, i as int),
            decreases n - 1 - i,
        {
            let ghost prev = pieces.deep_view();
            pieces.push(toks[i].clone());
            proof {
                assert(toks@[i as int]@ == toks.deep_view()[i as int]);
                assert(pieces.deep_view() =~~= prev.push(toks.deep_view()[i as int]));
                assert(pieces.deep_view() =~~= toks.deep_view().subrange(1, i + 1));
            }
            i += 1;
        }
        proof {
            assert(pieces.deep_view() =~~= backoff_row_pieces(line@));
        }
        let out = self.ngram_processor.process_ngram(pieces);
        let log_prob: String = toks[0].clone();
        let backoff: String = toks[n - 1].clone();
        assert(log_prob@ == spec_tokens(line@)[0]);
        assert(backoff@ == spec_tokens(line@).last());
        Ok(ProbBackoffNgram { ngram: NGram(out), prob_backoff: ProbBackoff { log_prob, backoff } })
    }

    /// Parses one highest order row: leading log probability, n-gram
    /// tokens.
    fn try_no_backoff_from_arpa_line(&mut self, line: &String) -> (r: Result<
        ProbNgram<T::Output>,
        ArpaReadError,
    >)
        ensures
            Self::eq_mod_proc(*old(self), *final(self)),
            match r {
                Ok(pn) => {
                    &&& nobackoff_row_ok(line@)
                    &&& pn.prob@ == spec_tokens(line@)[0]
                    &&& T::process_spec(
                        old(self).spec_proc(),
                        final(self).spec_proc(),
                        nobackoff_row_pieces(line@),
                        pn.ngram.0@,
                    )
                },
                Err(e) => {
                    &&& !nobackoff_row_ok(line@)
                    &&& e == ArpaReadError::NoBackoffSectionError
                    &&& *final(self) == *old(self)
                },
            },
    {
        let toks: Vec<String> = split_ascii_ws(line.as_str());
        let n: usize = toks.len();
        if n < 2 {
            return Err(ArpaReadError::NoBackoffSectionError);
        }
        assert(toks.deep_view()[0] == toks@[0]@);
        if !float_token(toks[0].as_str()) {
            return Err(ArpaReadError::NoBackoffSectionError);
        }
        let mut pieces: Vec<String> = Vec::new();
        let mut i: usize = 1;
        while i < n
            invariant
                1 <= i <= n,
                2 <= n == toks@.len(),
                pieces.deep_view() =~~= toks.deep_view().subrange(1, i as int),
            decreases n - i,
        {
            let ghost prev = pieces.deep_view();
            pieces.push(toks[i].clone());
            proof {
                assert(toks@[i as int]@ == toks.deep_view()[i as int]);
                assert(pieces.deep_view() =~~= prev.push(toks.deep_view()[i as int]));
                assert(pieces.deep_view() =~~= toks.deep_view().subrange(1, i + 1));
            }
            i += 1;
        }
        proof {
            assert(pieces.deep_view() =~~= nobackoff_row_pieces(line@));
        }
        let out = self.ngram_processor.process_ngram(pieces);
        let prob: String = toks[0].clone();
        assert(prob@ == spec_tokens(line@)[0]);
        Ok(ProbNgram { ngram: NGram(out), prob })
    }
}

} // verus!

verus! {

impl<T: NGramProcessor> ArpaReader<T> {
    /// Reads the next backoff section, or answers `None` once only the
    /// highest order section remains.
    pub fn next_backoff_section(&mut self) -> (r: Result<
        Option<Vec<ProbBackoffNgram<T::Output>>>,
        ArpaReadError,
    >)
        requires
            old(self).wf(),
        ensures
            final(self).wf(),
            final(self).spec_lines() == old(self).spec_lines(),
            final(self).spec_header() == old(self).spec_header(),
            old(self).spec_cur() >= old(self).spec_header().spec_order() ==> r == Ok::<
                Option<Vec<ProbBackoffNgram<T::Output>>>,
                ArpaReadError,
            >(None) && *final(self) == *old(self),
            r is Err ==> final(self).spec_cur() == old(self).spec_cur(),
            old(self).spec_cur() < old(self).spec_header().spec_order() ==> {
                let ls = old(self).spec_lines();
                let p0 = old(self).spec_pos();
                let ord = old(self).spec_cur();
                let card = old(self).spec_header().spec_counts()[ord - 1].cardinality as int;
                &&& (p0 >= ls.len() ==> r == Err::<
                    Option<Vec<ProbBackoffNgram<T::Output>>>,
                    ArpaReadError,
                >(ArpaReadError::NGramSectionHeaderMissing) && *final(self) == *old(self))
                &&& (p0 < ls.len() && !is_section_header(ls[p0], ord) ==> ((r matches Err(e)
                    && e matches ArpaReadError::NGramSectionHeaderMismatch(_, _)) && *final(self)
                    == *old(self)))
                &&& (p0 < ls.len() && is_section_header(ls[p0], ord) ==> {
                    let avail = if card <= ls.len() - p0 - 1 {
                        card
                    } else {
                        ls.len() - p0 - 1
                    };
                    let fb = first_bad_row(ls, p0 + 1, avail, true);
                    &&& (fb < avail ==> r == Err::<
                        Option<Vec<ProbBackoffNgram<T::Output>>>,
                        ArpaReadError,
                    >(ArpaReadError::BackOffSectionError))
                    &&& (fb == avail && avail < card ==> r == Err::<
                        Option<Vec<ProbBackoffNgram<T::Output>>>,
                        ArpaReadError,
                    >(ArpaReadError::NgramCountsMismatch))
                    &&& (fb == avail && avail == card && p0 + 1 + card < ls.len() && !is_blank(
                        ls[p0 + 1 + card],
                    ) ==> r == Err::<
                        Option<Vec<ProbBackoffNgram<T::Output>>>,
                        ArpaReadError,
                    >(ArpaReadError::SectionBoundaryMissing))
                    &&& (fb == avail && avail == card && (p0 + 1 + card >= ls.len() || is_blank(
                        ls[p0 + 1 + card],
                    )) ==> (r matches Ok(Some(recs)) && {
                        &&& recs@.len() == card
                        &&& forall|k: int|
                            0 <= k < card ==> {
                                &&& backoff_row_ok(ls[p0 + 1 + k])
                                &&& (#[trigger] recs@[k]).prob_backoff.log_prob@ == spec_tokens(
                                    ls[p0 + 1 + k],
                                )[0]
                                &&& recs@[k].prob_backoff.backoff@ == spec_tokens(
                                    ls[p0 + 1 + k],
                                ).last()
                            }
                        &&& chain_outputs(
                            old(self).spec_proc(),
                            final(self).spec_proc(),
                            Seq::new(card as nat, |k: int| backoff_row_pieces(ls[p0 + 1 + k])),
                            recs@.map_values(|pb: ProbBackoffNgram<T::Output>| pb.ngram.0@),
                        )
                        &&& final(self).spec_pos() == p0 + 1 + card + (if p0 + 1 + card
                            < ls.len() {
                            1int
                        } else {
                            0int
                        })
                        &&& final(self).spec_cur() == ord + 1
                    }))
                })
            },
    {
        let ord = self.cur_section;
        if ord >= self.counts.order() {
            return Ok(None);
        }
        let cnt = match self.counts.get(ord) {
            Some(c) => c,
            None => {
                return Ok(None);
            },
        };
        if self.pos >= self.lines.len() {
            return Err(ArpaReadError::NGramSectionHeaderMissing);
        }
        assert(self.lines@[self.pos as int]@ == self.spec_lines()[self.pos as int]);
        match matches_ngram_section_header(self.lines[self.pos].as_str(), cnt.order) {
            Ok(()) => {},
            Err(e) => {
                return Err(e);
            },
        }
        let ghost ls = self.spec_lines();
        let ghost p0 = self.spec_pos();
        let ghost t0 = self.spec_proc();
        let ghost counts0 = self.spec_header();
        self.pos += 1;
        let card = cnt.cardinality;
        let mut recs: Vec<ProbBackoffNgram<T::Output>> = Vec::new();
        let mut k: usize = 0;
        while k < card && self.pos < self.lines.len()
            invariant
                self.wf(),
                self.spec_lines() == ls,
                self.spec_header() == counts0,
                self.spec_cur() == ord,
                ord == old(self).spec_cur(),
                1 <= ord < counts0.spec_order(),
                counts0 == old(self).spec_header(),
                ls == old(self).spec_lines(),
                p0 == old(self).spec_pos(),
                t0 == old(self).spec_proc(),
                card == counts0.spec_counts()[ord - 1].cardinality,
                0 <= k <= card,
                recs@.len() == k,
                self.spec_pos() == p0 + 1 + k,
                p0 + 1 + k <= ls.len(),
                p0 < ls.len(),
                is_section_header(ls[p0], ord as int),
                forall|i: int| 0 <= i < k ==> #[trigger] row_shape_ok(ls, p0 + 1 + i, true),
                forall|i: int|
                    0 <= i < k ==> {
                        &&& (#[trigger] recs@[i]).prob_backoff.log_prob@ == spec_tokens(
                            ls[p0 + 1 + i],
                        )[0]
                        &&& recs@[i].prob_backoff.backoff@ == spec_tokens(ls[p0 + 1 + i]).last()
                    },
                chain_outputs(
                    t0,
                    self.spec_proc(),
                    Seq::new(k as nat, |i: int| backoff_row_pieces(ls[p0 + 1 + i])),
                    recs@.map_values(|pb: ProbBackoffNgram<T::Output>| pb.ngram.0@),
                ),
            decreases card - k,
        {
            let line: String = self.lines[self.pos].clone();
            assert(line@ == ls[p0 + 1 + k]);
            let ghost t_before = self.spec_proc();
            let ghost pss_k = Seq::new(k as nat, |i: int| backoff_row_pieces(ls[p0 + 1 + i]));
            let ghost outs_k = recs@.map_values(|pb: ProbBackoffNgram<T::Output>| pb.ngram.0@);
            match self.try_back_off_from_arpa_line(&line) {
                Ok(pb) => {
                    proof {
                        lemma_chain_snoc(
                            t0,
                            t_before,
                            self.spec_proc(),
                            pss_k,
                            outs_k,
                            backoff_row_pieces(ls[p0 + 1 + k]),
                            pb.ngram.0@,
                        );
                    }
                    recs.push(pb);
                    proof {
                        assert(Seq::new((k + 1) as nat, |i: int| backoff_row_pieces(ls[p0 + 1 + i]))
                            =~= pss_k.push(backoff_row_pieces(ls[p0 + 1 + k])));
                        assert(recs@.map_values(|pb2: ProbBackoffNgram<T::Output>| pb2.ngram.0@)
                            =~= outs_k.push(recs@.last().ngram.0@));
                    }
                },
                Err(e) => {
                    proof {
                        let avail = if card as int <= ls.len() - p0 - 1 {
                            card as int
                        } else {
                            ls.len() - p0 - 1
                        };
                        assert(!row_shape_ok(ls, p0 + 1 + k, true));
                        lemma_first_bad_row_val(ls, p0 + 1, avail, k as int, true);
                    }
                    return Err(e);
                },
            }
            self.pos += 1;
            k += 1;
        }
        if k < card {
            proof {
                let avail = ls.len() - p0 - 1;
                lemma_first_bad_row_val(ls, p0 + 1, avail, avail, true);
            }
            return Err(ArpaReadError::NgramCountsMismatch);
        }
        proof {
            let avail = if card as int <= ls.len() - p0 - 1 {
                card as int
            } else {
                ls.len() - p0 - 1
            };
            lemma_first_bad_row_val(ls, p0 + 1, avail, avail, true);
        }
        if self.pos < self.lines.len() {
            assert(self.lines@[self.pos as int]@ == ls[p0 + 1 + card]);
            if !blank_line(&self.lines[self.pos]) {
                return Err(ArpaReadError::SectionBoundaryMissing);
            }
            self.pos += 1;
        }
        proof {
            assert forall|k2: int| 0 <= k2 < card as int implies #[trigger] backoff_row_ok(
                ls[p0 + 1 + k2],
            ) by {
                assert(row_shape_ok(ls, p0 + 1 + k2, true));
            }
        }
        self.cur_section = self.cur_section + 1;
        Ok(Some(recs))
    }
}

} // verus!

verus! {

impl<T: NGramProcessor> ArpaReader<T> {
    /// Reads the highest order section, whose rows carry no backoff; it
    /// may be read only after every backoff section.
    pub fn read_no_backoff_section(&mut self) -> (r: Result<
        Vec<ProbNgram<T::Output>>,
        ArpaReadError,
    >)
        requires
            old(self).wf(),
        ensures
            final(self).wf(),
            final(self).spec_lines() == old(self).spec_lines(),
            final(self).spec_header() == old(self).spec_header(),
            old(self).spec_cur() != old(self).spec_header().spec_order() ==> r == Err::<
                Vec<ProbNgram<T::Output>>,
                ArpaReadError,
            >(ArpaReadError::InvalidReaderState) && *final(self) == *old(self),
            r is Err ==> final(self).spec_cur() == old(self).spec_cur(),
            old(self).spec_cur() == old(self).spec_header().spec_order() ==> {
                let ls = old(self).spec_lines();
                let p0 = old(self).spec_pos();
                let ord = old(self).spec_cur();
                let card = old(self).spec_header().spec_counts().last().cardinality as int;
                &&& (p0 >= ls.len() ==> r == Err::<
                    Vec<ProbNgram<T::Output>>,
                    ArpaReadError,
                >(ArpaReadError::NGramSectionHeaderMissing) && *final(self) == *old(self))
                &&& (p0 < ls.len() && !is_section_header(ls[p0], ord) ==> ((r matches Err(e)
                    && e matches ArpaReadError::NGramSectionHeaderMismatch(_, _)) && *final(self)
                    == *old(self)))
                &&& (p0 < ls.len() && is_section_header(ls[p0], ord) ==> {
                    let avail = if card <= ls.len() - p0 - 1 {
                        card
                    } else {
                        ls.len() - p0 - 1
                    };
                    let fb = first_bad_row(ls, p0 + 1, avail, false);
                    &&& (fb < avail ==> r == Err::<
                        Vec<ProbNgram<T::Output>>,
                        ArpaReadError,
                    >(ArpaReadError::NoBackoffSectionError))
                    &&& (fb == avail && avail < card ==> r == Err::<
                        Vec<ProbNgram<T::Output>>,
                        ArpaReadError,
                    >(ArpaReadError::NgramCountsMismatch))
                    &&& (fb == avail && avail == card && p0 + 1 + card < ls.len() && !is_blank(
                        ls[p0 + 1 + card],
                    ) ==> r == Err::<
                        Vec<ProbNgram<T::Output>>,
                        ArpaReadError,
                    >(ArpaReadError::SectionBoundaryMissing))
                    &&& (fb == avail && avail == card && (p0 + 1 + card >= ls.len() || is_blank(
                        ls[p0 + 1 + card],
                    )) ==> (r matches Ok(recs) && {
                        &&& recs@.len() == card
                        &&& forall|k: int|
                            0 <= k < card ==> {
                                &&& nobackoff_row_ok(ls[p0 + 1 + k])
                                &&& (#[trigger] recs@[k]).prob@ == spec_tokens(ls[p0 + 1 + k])[0]
                            }
                        &&& chain_outputs(
                            old(self).spec_proc(),
                            final(self).spec_proc(),
                            Seq::new(card as nat, |k: int| nobackoff_row_pieces(ls[p0 + 1 + k])),
                            recs@.map_values(|pn: ProbNgram<T::Output>| pn.ngram.0@),
                        )
                        &&& final(self).spec_pos() == p0 + 1 + card + (if p0 + 1 + card
                            < ls.len() {
                            1int
                        } else {
                            0int
                        })
                        &&& final(self).spec_cur() == (if ord + 1 <= usize::MAX {
                            ord + 1
                        } else {
                            ord
                        })
                    }))
                })
            },
    {
        let ord = self.cur_section;
        if ord != self.counts.order() {
            return Err(ArpaReadError::InvalidReaderState);
        }
        let cnt = self.counts.highest_order_count();
        if self.pos >= self.lines.len() {
            return Err(ArpaReadError::NGramSectionHeaderMissing);
        }
        assert(self.lines@[self.pos as int]@ == self.spec_lines()[self.pos as int]);
        match matches_ngram_section_header(self.lines[self.pos].as_str(), cnt.order) {
            Ok(()) => {},
            Err(e) => {
                return Err(e);
            },
        }
        let ghost ls = self.spec_lines();
        let ghost p0 = self.spec_pos();
        let ghost t0 = self.spec_proc();
        let ghost counts0 = self.spec_header();
        self.pos += 1;
        let card = cnt.cardinality;
        let mut recs: Vec<ProbNgram<T::Output>> = Vec::new();
        let mut k: usize = 0;
        while k < card && self.pos < self.lines.len()
            invariant
                self.wf(),
                self.spec_lines() == ls,
                self.spec_header() == counts0,
                self.spec_cur() == ord,
                ord == old(self).spec_cur(),
                ord == counts0.spec_order(),
                counts0 == old(self).spec_header(),
                ls == old(self).spec_lines(),
                p0 == old(self).spec_pos(),
                t0 == old(self).spec_proc(),
                card == counts0.spec_counts().last().cardinality,
                0 <= k <= card,
                recs@.len() == k,
                self.spec_pos() == p0 + 1 + k,
                p0 + 1 + k <= ls.len(),
                p0 < ls.len(),
                is_section_header(ls[p0], ord as int),
                forall|i: int| 0 <= i < k ==> #[trigger] row_shape_ok(ls, p0 + 1 + i, false),
                forall|i: int|
                    0 <= i < k ==> (#[trigger] recs@[i]).prob@ == spec_tokens(ls[p0 + 1 + i])[0],
                chain_outputs(
                    t0,
                    self.spec_proc(),
                    Seq::new(k as nat, |i: int| nobackoff_row_pieces(ls[p0 + 1 + i])),
                    recs@.map_values(|pn: ProbNgram<T::Output>| pn.ngram.0@),
                ),
            decreases card - k,
        {
            let line: String = self.lines[self.pos].clone();
            assert(line@ == ls[p0 + 1 + k]);
            let ghost t_before = self.spec_proc();
            let ghost pss_k = Seq::new(k as nat, |i: int| nobackoff_row_pieces(ls[p0 + 1 + i]));
            let ghost outs_k = recs@.map_values(|pn: ProbNgram<T::Output>| pn.ngram.0@);
            match self.try_no_backoff_from_arpa_line(&line) {
                Ok(pn) => {
                    proof {
                        lemma_chain_snoc(
                            t0,
                            t_before,
                            self.spec_proc(),
                            pss_k,
                            outs_k,
                            nobackoff_row_pieces(ls[p0 + 1 + k]),
                            pn.ngram.0@,
                        );
                    }
                    recs.push(pn);
                    proof {
                        assert(Seq::new(
                            (k + 1) as nat,
                            |i: int| nobackoff_row_pieces(ls[p0 + 1 + i]),
                        ) =~= pss_k.push(nobackoff_row_pieces(ls[p0 + 1 + k])));
                        assert(recs@.map_values(|pn2: ProbNgram<T::Output>| pn2.ngram.0@)
                            =~= outs_k.push(recs@.last().ngram.0@));
                    }
                },
                Err(e) => {
                    proof {
                        let avail = if card as int <= ls.len() - p0 - 1 {
                            card as int
                        } else {
                            ls.len() - p0 - 1
                        };
                        assert(!row_shape_ok(ls, p0 + 1 + k, false));
                        lemma_first_bad_row_val(ls, p0 + 1, avail, k as int, false);
                    }
                    return Err(e);
                },
            }
            self.pos += 1;
            k += 1;
        }
        if k < card {
            proof {
                let avail = ls.len() - p0 - 1;
                lemma_first_bad_row_val(ls, p0 + 1, avail, avail, false);
            }
            return Err(ArpaReadError::NgramCountsMismatch);
        }
        proof {
            let avail = if card as int <= ls.len() - p0 - 1 {
                card as int
            } else {
                ls.len() - p0 - 1
            };
            lemma_first_bad_row_val(ls, p0 + 1, avail, avail, false);
        }
        if self.pos < self.lines.len() {
            assert(self.lines@[self.pos as int]@ == ls[p0 + 1 + card]);
            if !blank_line(&self.lines[self.pos]) {
                return Err(ArpaReadError::SectionBoundaryMissing);
            }
            self.pos += 1;
        }
        proof {
            assert forall|k2: int| 0 <= k2 < card as int implies #[trigger] nobackoff_row_ok(
                ls[p0 + 1 + k2],
            ) by {
                assert(row_shape_ok(ls, p0 + 1 + k2, false));
            }
        }
        self.cur_section = self.cur_section.saturating_add(1);
        Ok(recs)
    }
}

} // verus!

verus! {

impl<T: NGramProcessor> ArpaReader<T> {
    /// Consumes the reader and parses every n-gram section; it succeeds
    /// exactly when every section parses, and then the number of rows of
    /// each section equals the cardinality its count header declared and
    /// every stored probability and backoff is a well formed float
    /// token.
    pub fn into_arpa_model(self) -> (r: Result<ArpaModel<T::Output>, ArpaReadError>)
        requires
            self.wf(),
            self.spec_cur() == 1,
        ensures
            r is Ok <==> sections_parse_ok(
                self.spec_lines(),
                self.spec_pos(),
                self.spec_header().spec_counts(),
                1,
            ),
            r matches Err(e) ==> {
                ||| e is NGramSectionHeaderMissing
                ||| e matches ArpaReadError::NGramSectionHeaderMismatch(_, _)
                ||| e is BackOffSectionError
                ||| e is NoBackoffSectionError
                ||| e is NgramCountsMismatch
                ||| e is SectionBoundaryMissing
            },
            match r {
                Ok(m) => {
                    &&& m.sections.counts == self.spec_header()
                    &&& m.sections.counts.wf()
                    &&& m.sections.backoffs@.len() == self.spec_header().spec_order() - 1
                    &&& forall|s: int|
                        0 <= s < m.sections.backoffs@.len() ==> (#[trigger] m.sections.backoffs@[s])@.len()
                            == self.spec_header().spec_counts()[s].cardinality
                    &&& m.sections.no_backoff@.len() == self.spec_header().spec_counts().last().cardinality
                    &&& forall|s: int, k: int|
                        0 <= s < m.sections.backoffs@.len() && 0 <= k
                            < m.sections.backoffs@[s]@.len() ==> {
                            &&& is_float_token(
                                (#[trigger] m.sections.backoffs@[s]@[k]).prob_backoff.log_prob@,
                            )
                            &&& is_float_token(m.sections.backoffs@[s]@[k].prob_backoff.backoff@)
                        }
                    &&& forall|k: int|
                        0 <= k < m.sections.no_backoff@.len() ==> is_float_token(
                            (#[trigger] m.sections.no_backoff@[k]).prob@,
                        )
                },
                Err(_) => true,
            },
    {
        let ghost counts0 = self.spec_header();
        let ghost ls0 = self.spec_lines();
        let ghost pos0 = self.spec_pos();
        let mut rd = self;
        let mut backoffs: Vec<Vec<ProbBackoffNgram<T::Output>>> = Vec::new();
        loop
            invariant_except_break
                rd.wf(),
                counts0 == self.spec_header(),
                ls0 == self.spec_lines(),
                pos0 == self.spec_pos(),
                rd.spec_header() == counts0,
                rd.spec_lines() == ls0,
                (sections_parse_ok(ls0, pos0, counts0.spec_counts(), 1) <==> sections_parse_ok(
                    ls0,
                    rd.spec_pos(),
                    counts0.spec_counts(),
                    rd.spec_cur(),
                )),
                rd.spec_cur() == backoffs@.len() + 1,
                backoffs@.len() <= counts0.spec_order() - 1,
                forall|s: int|
                    0 <= s < backoffs@.len() ==> (#[trigger] backoffs@[s])@.len()
                        == counts0.spec_counts()[s].cardinality,
                forall|s: int, k: int|
                    0 <= s < backoffs@.len() && 0 <= k < backoffs@[s]@.len() ==> {
                        &&& is_float_token((#[trigger] backoffs@[s]@[k]).prob_backoff.log_prob@)
                        &&& is_float_token(backoffs@[s]@[k].prob_backoff.backoff@)
                    },
            ensures
                rd.wf(),
                rd.spec_header() == counts0,
                rd.spec_lines() == ls0,
                (sections_parse_ok(ls0, pos0, counts0.spec_counts(), 1) <==> sections_parse_ok(
                    ls0,
                    rd.spec_pos(),
                    counts0.spec_counts(),
                    rd.spec_cur(),
                )),
                rd.spec_cur() == counts0.spec_order(),
                backoffs@.len() == counts0.spec_order() - 1,
                forall|s: int|
                    0 <= s < backoffs@.len() ==> (#[trigger] backoffs@[s])@.len()
                        == counts0.spec_counts()[s].cardinality,
                forall|s: int, k: int|
                    0 <= s < backoffs@.len() && 0 <= k < backoffs@[s]@.len() ==> {
                        &&& is_float_token((#[trigger] backoffs@[s]@[k]).prob_backoff.log_prob@)
                        &&& is_float_token(backoffs@[s]@[k].prob_backoff.backoff@)
                    },
            decreases counts0.spec_order() - backoffs@.len(),
        {
            let ghost ls = rd.spec_lines();
            let ghost p0 = rd.spec_pos();
            let ghost ord = rd.spec_cur();
            match rd.next_backoff_section() {
                Ok(Some(b)) => {
                    proof {
                        assert(ord < counts0.spec_order());
                        let card = counts0.spec_counts()[ord - 1].cardinality as int;
                        let avail = if card <= ls.len() - p0 - 1 {
                            card
                        } else {
                            ls.len() - p0 - 1
                        };
                        lemma_first_bad_row_range(ls, p0 + 1, avail, true);
                        assert(b@.len() == counts0.spec_counts()[ord - 1].cardinality);
                        assert(avail == card);
                        assert(first_bad_row(ls, p0 + 1, card, true) == card);
                        assert(sections_parse_ok(ls, p0, counts0.spec_counts(), ord)
                            <==> sections_parse_ok(
                            ls,
                            rd.spec_pos(),
                            counts0.spec_counts(),
                            ord + 1,
                        ));
                        assert forall|k: int| 0 <= k < b@.len() implies is_float_token(
                            (#[trigger] b@[k]).prob_backoff.log_prob@,
                        ) && is_float_token(b@[k].prob_backoff.backoff@) by {
                            assert(b@[k].prob_backoff.log_prob@ == spec_tokens(ls[p0 + 1 + k])[0]);
                            assert(backoff_row_ok(ls[p0 + 1 + k]));
                            assert(b@[k].prob_backoff.backoff@ == spec_tokens(
                                ls[p0 + 1 + k],
                            ).last());
                        }
                    }
                    backoffs.push(b);
                },
                Ok(None) => {
                    proof {
                        if ord < counts0.spec_order() {
                            let card = counts0.spec_counts()[ord - 1].cardinality as int;
                            if p0 < ls.len() && is_section_header(ls[p0], ord) {
                                let avail = if card <= ls.len() - p0 - 1 {
                                    card
                                } else {
                                    ls.len() - p0 - 1
                                };
                                lemma_first_bad_row_range(ls, p0 + 1, avail, true);
                            }
                            assert(false);
                        }
                    }
                    break ;
                },
                Err(e) => {
                    proof {
                        assert(ord < counts0.spec_order());
                        assert(ls == ls0);
                        let card0 = counts0.spec_counts()[ord - 1].cardinality as int;
                        if p0 >= ls.len() {
                            assert(e is NGramSectionHeaderMissing);
                        } else if !is_section_header(ls[p0], ord) {
                            assert(e matches ArpaReadError::NGramSectionHeaderMismatch(_, _));
                        } else {
                            let avail0 = if card0 <= ls.len() - p0 - 1 {
                                card0
                            } else {
                                ls.len() - p0 - 1
                            };
                            lemma_first_bad_row_range(ls, p0 + 1, avail0, true);
                            let fb0 = first_bad_row(ls, p0 + 1, avail0, true);
                            if fb0 < avail0 {
                                assert(e is BackOffSectionError);
                            } else if avail0 < card0 {
                                assert(e is NgramCountsMismatch);
                            } else {
                                assert(e is SectionBoundaryMissing);
                            }
                        }
                        if sections_parse_ok(ls, p0, counts0.spec_counts(), ord) {
                            assert(p0 < ls.len());
                            assert(is_section_header(ls[p0], ord));
                            let card = counts0.spec_counts()[ord - 1].cardinality as int;
                            let avail = if card <= ls.len() - p0 - 1 {
                                card
                            } else {
                                ls.len() - p0 - 1
                            };
                            assert(avail == card);
                            assert(first_bad_row(ls, p0 + 1, avail, true) == avail);
                            assert(p0 + 1 + card >= ls.len() || is_blank(ls[p0 + 1 + card]));
                            assert(false);
                        }
                        assert(!sections_parse_ok(ls0, pos0, counts0.spec_counts(), 1));
                    }
                    return Err(e);
                },
            }
        }
        let ghost ls2 = rd.spec_lines();
        let ghost p02 = rd.spec_pos();
        let ghost ord2 = rd.spec_cur();
        let no_backoff = match rd.read_no_backoff_section() {
            Ok(nb) => nb,
            Err(e) => {
                proof {
                    let card0 = counts0.spec_counts()[ord2 - 1].cardinality as int;
                    if p02 >= ls2.len() {
                        assert(e is NGramSectionHeaderMissing);
                    } else if !is_section_header(ls2[p02], ord2) {
                        assert(e matches ArpaReadError::NGramSectionHeaderMismatch(_, _));
                    } else {
                        let avail0 = if card0 <= ls2.len() - p02 - 1 {
                            card0
                        } else {
                            ls2.len() - p02 - 1
                        };
                        lemma_first_bad_row_range(ls2, p02 + 1, avail0, false);
                        let fb0 = first_bad_row(ls2, p02 + 1, avail0, false);
                        if fb0 < avail0 {
                            assert(e is NoBackoffSectionError);
                        } else if avail0 < card0 {
                            assert(e is NgramCountsMismatch);
                        } else {
                            assert(e is SectionBoundaryMissing);
                        }
                    }
                    if sections_parse_ok(ls2, p02, counts0.spec_counts(), ord2) {
                        let avail = if card0 <= ls2.len() - p02 - 1 {
                            card0
                        } else {
                            ls2.len() - p02 - 1
                        };
                        assert(avail == card0);
                        assert(first_bad_row(ls2, p02 + 1, avail, false) == avail);
                        assert(false);
                    }
                }
                return Err(e);
            },
        };
        proof {
            let card = counts0.spec_counts().last().cardinality as int;
            let avail = if card <= ls2.len() - p02 - 1 {
                card
            } else {
                ls2.len() - p02 - 1
            };
            if p02 < ls2.len() && is_section_header(ls2[p02], ord2) {
                lemma_first_bad_row_range(ls2, p02 + 1, avail, false);
            }
            assert(no_backoff@.len() == counts0.spec_counts().last().cardinality);
            assert(avail == card);
            assert(first_bad_row(ls2, p02 + 1, card, false) == card);
            assert(sections_parse_ok(ls2, p02, counts0.spec_counts(), ord2));
        }
        let ArpaReader { counts, ngram_processor, .. } = rd;
        let vocab = ngram_processor.into_mapping();
        Ok(ArpaModel { vocab, sections: ArpaFileSections { counts, backoffs, no_backoff } })
    }
}

/// Parses a whole ARPA file from its lines: the count header, every
/// backoff section, and the highest order section; it succeeds exactly
/// when the header and every section are well formed.
pub fn read_arpa<T: NGramProcessor>(lines: Vec<String>, ngram_processor: T) -> (r: Result<
    ArpaModel<T::Output>,
    ArpaReadError,
>)
    ensures
        spec_count_header(lines.deep_view()) matches Err(e) ==> r == Err::<
            ArpaModel<T::Output>,
            ArpaReadError,
        >(e),
        r is Ok <==> (spec_count_header(lines.deep_view()) matches Ok((cs, next))
            && sections_parse_ok(
            lines.deep_view(),
            next,
            crate::counts::canon_counts(cs),
            1,
        )),
        spec_count_header(lines.deep_view()) is Ok ==> (r matches Err(e) ==> {
            ||| e is NGramSectionHeaderMissing
            ||| e matches ArpaReadError::NGramSectionHeaderMismatch(_, _)
            ||| e is BackOffSectionError
            ||| e is NoBackoffSectionError
            ||| e is NgramCountsMismatch
            ||| e is SectionBoundaryMissing
        }),
        match r {
            Ok(m) => {
                &&& (spec_count_header(lines.deep_view()) matches Ok((cs, _)) && {
                    &&& m.sections.counts.wf()
                    &&& m.sections.counts.spec_counts().len() == cs.len()
                    &&& forall|i: int|
                        0 <= i < cs.len() ==> cs.contains(
                            #[trigger] m.sections.counts.spec_counts()[i],
                        )
                })
                &&& m.sections.backoffs@.len() == m.sections.counts.spec_order() - 1
                &&& forall|s: int|
                    0 <= s < m.sections.backoffs@.len() ==> (#[trigger] m.sections.backoffs@[s])@.len()
                        == m.sections.counts.spec_counts()[s].cardinality
                &&& m.sections.no_backoff@.len()
                    == m.sections.counts.spec_counts().last().cardinality
            },
            Err(_) => true,
        },
{
    let reader = match ArpaReader::new(lines, ngram_processor) {
        Ok(rd) => rd,
        Err(e) => {
            return Err(e);
        },
    };
    reader.into_arpa_model()
}

} // verus!
