//! String handling for the quiz core: trimming surrounding whitespace,
//! reading a question number, and the case-insensitive answer comparison.
use vstd::prelude::*;
use vstd::string::*;

verus! {

/// True of a character that `str::trim` strips: the Unicode `White_Space`
/// code points.
pub open spec fn is_quiz_whitespace(c: char) -> bool {
    c == ' ' || c == '\t' || c == '\n' || c == '\r' || c == '\u{b}' || c == '\u{c}'
        || c == '\u{85}' || c == '\u{a0}' || c == '\u{1680}' || c == '\u{2000}'
        || c == '\u{2001}' || c == '\u{2002}' || c == '\u{2003}' || c == '\u{2004}'
        || c == '\u{2005}' || c == '\u{2006}' || c == '\u{2007}' || c == '\u{2008}'
        || c == '\u{2009}' || c == '\u{200a}' || c == '\u{2028}' || c == '\u{2029}'
        || c == '\u{202f}' || c == '\u{205f}' || c == '\u{3000}'
}

/// The characters of `s` with the leading whitespace removed.
pub open spec fn ltrim_spec(s: Seq<char>) -> Seq<char>
    decreases s.len(),
{
    if s.len() > 0 && is_quiz_whitespace(s[0]) {
        ltrim_spec(s.drop_first())
    } else {
        s
    }
}

/// The characters of `s` with the trailing whitespace removed.
pub open spec fn rtrim_spec(s: Seq<char>) -> Seq<char>
    decreases s.len(),
{
    if s.len() > 0 && is_quiz_whitespace(s.last()) {
        rtrim_spec(s.drop_last())
    } else {
        s
    }
}

/// The characters of `s` with surrounding whitespace removed: what
/// `str::trim` returns.
pub open spec fn trim_spec(s: Seq<char>) -> Seq<char> {
    rtrim_spec(ltrim_spec(s))
}

pub proof fn lemma_ltrim_at(s: Seq<char>, i: int)
    requires
        0 <= i <= s.len(),
        forall|k: int| 0 <= k < i ==> is_quiz_whitespace(s[k]),
        i == s.len() || !is_quiz_whitespace(s[i]),
    ensures
        ltrim_spec(s) == s.subrange(i, s.len() as int),
    decreases i,
{
    if i == 0 {
        assert(s.subrange(0, s.len() as int) =~= s);
    } else {
        let t = s.drop_first();
        assert(is_quiz_whitespace(s[0]));
        assert forall|k: int| 0 <= k < i - 1 implies is_quiz_whitespace(t[k]) by {
            assert(t[k] == s[k + 1]);
        }
        lemma_ltrim_at(t, i - 1);
        assert(t.subrange(i - 1, t.len() as int) =~= s.subrange(i, s.len() as int));
    }
}

pub proof fn lemma_rtrim_at(s: Seq<char>, j: int)
    requires
        0 <= j <= s.len(),
        forall|k: int| j <= k < s.len() ==> is_quiz_whitespace(s[k]),
        j == 0 || !is_quiz_whitespace(s[j - 1]),
    ensures
        rtrim_spec(s) == s.subrange(0, j),
    decreases s.len(),
{
    if j == s.len() {
        assert(s.subrange(0, s.len() as int) =~= s);
    } else {
        let t = s.drop_last();
        assert(is_quiz_whitespace(s.last()));
        lemma_rtrim_at(t, j);
        assert(t.subrange(0, j) =~= s.subrange(0, j));
    }
}

/// Whether `str::trim` strips `c`.
pub fn is_whitespace_char(c: char) -> (r: bool)
    ensures
        r == is_quiz_whitespace(c),
{
    c == ' ' || c == '\t' || c == '\n' || c == '\r' || c == '\u{b}' || c == '\u{c}'
        || c == '\u{85}' || c == '\u{a0}' || c == '\u{1680}' || c == '\u{2000}'
        || c == '\u{2001}' || c == '\u{2002}' || c == '\u{2003}' || c == '\u{2004}'
        || c == '\u{2005}' || c == '\u{2006}' || c == '\u{2007}' || c == '\u{2008}'
        || c == '\u{2009}' || c == '\u{200a}' || c == '\u{2028}' || c == '\u{2029}'
        || c == '\u{202f}' || c == '\u{205f}' || c == '\u{3000}'
}

/// A copy of `s` with surrounding whitespace removed.
pub fn trim_str(s: &str) -> (r: String)
    ensures
        r@ == trim_spec(s@),
{
    let n = s.unicode_len();
    let mut start: usize = 0;
    while start < n && is_whitespace_char(s.get_char(start))
        invariant
            0 <= start <= n,
            n == s@.len(),
            forall|k: int| 0 <= k < start ==> is_quiz_whitespace(s@[k]),
        decreases n - start,
    {
        start = start + 1;
    }
    let mut end: usize = n;
    while end > start && is_whitespace_char(s.get_char(end - 1))
        invariant
            start <= end <= n,
            n == s@.len(),
            forall|k: int| end <= k < n ==> is_quiz_whitespace(s@[k]),
        decreases end,
    {
        end = end - 1;
    }
    proof {
        lemma_ltrim_at(s@, start as int);
        let mid = s@.subrange(start as int, n as int);
        assert forall|k: int| (end - start) <= k < mid.len() implies is_quiz_whitespace(
            mid[k],
        ) by {
            assert(mid[k] == s@[k + start]);
        }
        if end > start {
            assert(mid[end - start - 1] == s@[end - 1]);
        }
        lemma_rtrim_at(mid, end - start);
        assert(mid.subrange(0, end - start) =~= s@.subrange(start as int, end as int));
    }
    let t = s.substring_char(start, end);
    t.to_owned()
}

/// True of an ASCII decimal digit.
pub open spec fn is_digit_char(c: char) -> bool {
    48 <= c as int && c as int <= 57
}

/// The value of an ASCII decimal digit.
pub open spec fn digit_of(c: char) -> int {
    c as int - 48
}

pub open spec fn all_digits(s: Seq<char>) -> bool {
    forall|i: int| 0 <= i < s.len() ==> is_digit_char(#[trigger] s[i])
}

/// The number written by a sequence of decimal digits, most significant first.
pub open spec fn digits_val(s: Seq<char>) -> int
    decreases s.len(),
{
    if s.len() == 0 {
        0
    } else {
        digits_val(s.drop_last()) * 10 + digit_of(s.last())
    }
}

/// The digits of a number as `u32::from_str` reads them: an optional leading
/// `'+'` is allowed and skipped.
pub open spec fn number_digits(s: Seq<char>) -> Seq<char> {
    if s.len() > 0 && s[0] == '+' {
        s.drop_first()
    } else {
        s
    }
}

/// What `str::parse::<u32>` returns: the digits' value if there is at least
/// one digit, every character after the optional sign is a digit, and the
/// value fits in a `u32`; otherwise nothing.
pub open spec fn parse_u32_spec(s: Seq<char>) -> Option<u32> {
    let d = number_digits(s);
    if d.len() > 0 && all_digits(d) && digits_val(d) <= u32::MAX as int {
        Some(digits_val(d) as u32)
    } else {
        None
    }
}

pub proof fn lemma_digits_val_nonneg(s: Seq<char>)
    requires
        all_digits(s),
    ensures
        digits_val(s) >= 0,
    decreases s.len(),
{
    if s.len() > 0 {
        assert forall|i: int| 0 <= i < s.drop_last().len() implies is_digit_char(
            #[trigger] s.drop_last()[i],
        ) by {
            assert(s.drop_last()[i] == s[i]);
        }
        lemma_digits_val_nonneg(s.drop_last());
    }
}

/// A prefix of a digit string never writes a larger number than the whole.
pub proof fn lemma_digits_prefix_le(s: Seq<char>, i: int)
    requires
        all_digits(s),
        0 <= i <= s.len(),
    ensures
        digits_val(s.take(i)) <= digits_val(s),
    decreases s.len() - i,
{
    if i == s.len() {
        assert(s.take(i) =~= s);
    } else {
        assert forall|k: int| 0 <= k < s.take(i).len() implies is_digit_char(
            #[trigger] s.take(i)[k],
        ) by {
            assert(s.take(i)[k] == s[k]);
        }
        lemma_digits_val_nonneg(s.take(i));
        assert(s.take(i + 1).drop_last() =~= s.take(i));
        assert(s.take(i + 1).last() == s[i]);
        lemma_digits_prefix_le(s, i + 1);
    }
}

/// What `str::parse::<u32>` computes, without the call: the number written
/// by the string, or nothing where the string is not a `u32` numeral.
pub fn parse_u32(s: &str) -> (r: Option<u32>)
    ensures
        r == parse_u32_spec(s@),
{
    let n = s.unicode_len();
    let start: usize = if n > 0 && s.get_char(0) == '+' {
        1
    } else {
        0
    };
    let ghost d = number_digits(s@);
    proof {
        if start == 1 {
            assert(d =~= s@.subrange(1, n as int));
        }
        assert(d.len() == n - start);
    }
    if n == start {
        return None;
    }
    let mut val: u64 = 0;
    let mut i: usize = start;
    while i < n
        invariant
            start <= i <= n,
            n == s@.len(),
            d == number_digits(s@),
            d.len() == n - start,
            forall|k: int| 0 <= k < i - start ==> is_digit_char(#[trigger] d[k]),
            val == digits_val(d.take(i - start)),
            val <= u32::MAX as u64,
        decreases n - i,
    {
        let c = s.get_char(i);
        proof {
            assert(d[i - start] == s@[i as int]);
        }
        let cv = c as u32;
        if cv < 48 || cv > 57 {
            return None;
        }
        let digit = (cv - 48) as u64;
        let next = val * 10 + digit;
        proof {
            assert(d.take(i - start + 1).drop_last() =~= d.take(i - start));
            assert(d.take(i - start + 1).last() == d[i - start]);
        }
        if next > u32::MAX as u64 {
            proof {
                if all_digits(d) && digits_val(d) <= u32::MAX as int {
                    lemma_digits_prefix_le(d, i - start + 1);
                }
            }
            return None;
        }
        val = next;
        i = i + 1;
    }
    proof {
        assert(d.take(n - start) =~= d);
    }
    Some(val as u32)
}

/// What `str::to_lowercase` returns; the result depends on the characters
/// alone.
pub uninterp spec fn lower_of(s: Seq<char>) -> Seq<char>;

/// Relies on `str::to_lowercase`: Unicode lowercasing, a function of the
/// characters alone.
#[verifier::external_body]
fn to_lowercase_string(s: &str) -> (r: String)
    ensures
        r@ == lower_of(s@),
{
    s.to_lowercase()
}

/// The scoring rule: two answers agree when they are equal after trimming
/// surrounding whitespace and lowercasing both.
pub open spec fn answers_match(user: Seq<char>, correct: Seq<char>) -> bool {
    lower_of(trim_spec(user)) == lower_of(trim_spec(correct))
}

/// Whether a recorded answer agrees with the reference answer under the
/// trimmed, case-insensitive comparison.
pub fn check_answer(user: &str, correct: &str) -> (r: bool)
    ensures
        r == answers_match(user@, correct@),
{
    let ut = trim_str(user);
    let ct = trim_str(correct);
    let ul = to_lowercase_string(ut.as_str());
    let cl = to_lowercase_string(ct.as_str());
    ul == cl
}

} // verus!
