//! Character classes and small string helpers shared by the parser and the evaluator.

use vstd::prelude::*;

verus! {

/// The characters that separate the arguments of an expression.
pub open spec fn is_separator(c: char) -> bool {
    c == '\t' || c == '\n' || c == ' ' || c == '\r'
}

/// The characters that trimming removes: those with the Unicode property White_Space.
pub open spec fn is_blank(c: char) -> bool {
    ||| '\t' <= c <= '\r'
    ||| c == ' '
    ||| c == '\u{85}'
    ||| c == '\u{A0}'
    ||| c == '\u{1680}'
    ||| '\u{2000}' <= c <= '\u{200A}'
    ||| c == '\u{2028}'
    ||| c == '\u{2029}'
    ||| c == '\u{202F}'
    ||| c == '\u{205F}'
    ||| c == '\u{3000}'
}

/// `s` without its leading blanks.
pub open spec fn trim_start_spec(s: Seq<char>) -> Seq<char>
    decreases s.len(),
{
    if s.len() > 0 && is_blank(s[0]) {
        trim_start_spec(s.drop_first())
    } else {
        s
    }
}

/// `s` without its trailing blanks.
pub open spec fn trim_end_spec(s: Seq<char>) -> Seq<char>
    decreases s.len(),
{
    if s.len() > 0 && is_blank(s.last()) {
        trim_end_spec(s.drop_last())
    } else {
        s
    }
}

/// `s` without its leading and trailing blanks.
pub open spec fn trimmed(s: Seq<char>) -> Seq<char> {
    trim_end_spec(trim_start_spec(s))
}

proof fn lemma_trim_start(s: Seq<char>)
    ensures
        trim_start_spec(s).len() <= s.len(),
        vstd::utf8::is_ascii_chars(s) ==> vstd::utf8::is_ascii_chars(trim_start_spec(s)),
    decreases s.len(),
{
    if s.len() > 0 && is_blank(s[0]) {
        lemma_trim_start(s.drop_first());
        if vstd::utf8::is_ascii_chars(s) {
            let d = s.drop_first();
            assert forall|j: int| 0 <= j < d.len() implies '\0' <= #[trigger] d[j] <= '\u{7f}' by {
                assert(d[j] == s[j + 1]);
            }
        }
    }
}

proof fn lemma_trim_end(s: Seq<char>)
    ensures
        trim_end_spec(s).len() <= s.len(),
        vstd::utf8::is_ascii_chars(s) ==> vstd::utf8::is_ascii_chars(trim_end_spec(s)),
    decreases s.len(),
{
    if s.len() > 0 && is_blank(s.last()) {
        lemma_trim_end(s.drop_last());
        if vstd::utf8::is_ascii_chars(s) {
            let d = s.drop_last();
            assert forall|j: int| 0 <= j < d.len() implies '\0' <= #[trigger] d[j] <= '\u{7f}' by {
                assert(d[j] == s[j]);
            }
        }
    }
}

/// Trimming does not lengthen a string, and keeps it ASCII.
pub proof fn lemma_trimmed(s: Seq<char>)
    ensures
        trimmed(s).len() <= s.len(),
        vstd::utf8::is_ascii_chars(s) ==> vstd::utf8::is_ascii_chars(trimmed(s)),
{
    lemma_trim_start(s);
    lemma_trim_end(trim_start_spec(s));
}

/// How many blanks trimming removes from the start of `s`.
proof fn lemma_trim_start_offset(s: Seq<char>) -> (i: int)
    ensures
        0 <= i <= s.len(),
        trim_start_spec(s) == s.subrange(i, s.len() as int),
        forall|k: int| 0 <= k < i ==> is_blank(#[trigger] s[k]),
        i < s.len() ==> !is_blank(s[i]),
    decreases s.len(),
{
    if s.len() > 0 && is_blank(s[0]) {
        let d = s.drop_first();
        let i0 = lemma_trim_start_offset(d);
        assert forall|k: int| 0 <= k < i0 + 1 implies is_blank(#[trigger] s[k]) by {
            if k > 0 {
                assert(s[k] == d[k - 1]);
            }
        }
        assert(d.subrange(i0, d.len() as int) =~= s.subrange(i0 + 1, s.len() as int));
        if i0 + 1 < s.len() {
            assert(s[i0 + 1] == d[i0]);
        }
        i0 + 1
    } else {
        assert(s.subrange(0, s.len() as int) =~= s);
        0
    }
}

/// How many characters trimming keeps at the start of `s`, removing blanks from its end.
proof fn lemma_trim_end_length(s: Seq<char>) -> (j: int)
    ensures
        0 <= j <= s.len(),
        trim_end_spec(s) == s.subrange(0, j),
        forall|k: int| j <= k < s.len() ==> is_blank(#[trigger] s[k]),
        j > 0 ==> !is_blank(s[j - 1]),
    decreases s.len(),
{
    if s.len() > 0 && is_blank(s.last()) {
        let d = s.drop_last();
        let j0 = lemma_trim_end_length(d);
        assert forall|k: int| j0 <= k < s.len() implies is_blank(#[trigger] s[k]) by {
            if k < s.len() - 1 {
                assert(s[k] == d[k]);
            }
        }
        assert(d.subrange(0, j0) =~= s.subrange(0, j0));
        if j0 > 0 {
            assert(s[j0 - 1] == d[j0 - 1]);
        }
        j0
    } else {
        assert(s.subrange(0, s.len() as int) =~= s);
        s.len() as int
    }
}

/// Law: trimming removes blanks from both ends of a string and nothing else: what is left
/// is a contiguous part of the string, everything before and after it is blank, and it
/// neither starts nor ends with a blank.
pub proof fn law_trim_removes_end_blanks(s: Seq<char>)
    ensures
        exists|i: int, j: int|
            0 <= i <= j <= s.len() && trimmed(s) == #[trigger] s.subrange(i, j) && (forall|k: int|
                0 <= k < i ==> is_blank(#[trigger] s[k])) && (forall|k: int|
                j <= k < s.len() ==> is_blank(#[trigger] s[k])) && (i < j ==> !is_blank(s[i])
                && !is_blank(s[j - 1])),
{
    let i = lemma_trim_start_offset(s);
    let t = s.subrange(i, s.len() as int);
    let j0 = lemma_trim_end_length(t);
    let j = i + j0;
    assert(t.subrange(0, j0) =~= s.subrange(i, j));
    assert forall|k: int| j <= k < s.len() implies is_blank(#[trigger] s[k]) by {
        assert(s[k] == t[k - i]);
    }
    if i < j {
        assert(s[i] == t[0]);
        assert(s[j - 1] == t[j0 - 1]);
        assert(!is_blank(t[0])) by {
            assert(i < s.len());
        }
    }
    assert(trimmed(s) == s.subrange(i, j));
}

pub fn is_separator_char(c: char) -> (r: bool)
    ensures
        r == is_separator(c),
{
    c == '\t' || c == '\n' || c == ' ' || c == '\r'
}

pub fn is_blank_char(c: char) -> (r: bool)
    ensures
        r == is_blank(c),
{
    ('\t' <= c && c <= '\r') || c == ' ' || c == '\u{85}' || c == '\u{A0}' || c == '\u{1680}'
        || ('\u{2000}' <= c && c <= '\u{200A}') || c == '\u{2028}' || c == '\u{2029}'
        || c == '\u{202F}' || c == '\u{205F}' || c == '\u{3000}'
}

/// Whether two strings hold the same characters.
pub fn same(a: &str, b: &str) -> (r: bool)
    ensures
        r == (a@ == b@),
{
    let n = a.unicode_len();
    let m = b.unicode_len();
    if n != m {
        return false;
    }
    let mut i: usize = 0;
    while i < n
        invariant
            n == a@.len(),
            m == b@.len(),
            n == m,
            i <= n,
            forall|j: int| 0 <= j < i ==> a@[j] == b@[j],
        decreases n - i,
    {
        if a.get_char(i) != b.get_char(i) {
            return false;
        }
        i += 1;
    }
    assert(a@ =~= b@);
    true
}

/// A copy of `s` without its leading and trailing blanks.
pub fn trim(s: &str) -> (r: String)
    ensures
        r@ == trimmed(s@),
{
    let n = s.unicode_len();
    let mut i: usize = 0;
    assert(s@.subrange(0, n as int) =~= s@);
    while i < n && is_blank_char(s.get_char(i))
        invariant
            n == s@.len(),
            i <= n,
            trim_start_spec(s@) == trim_start_spec(s@.subrange(i as int, n as int)),
        decreases n - i,
    {
        assert(s@.subrange(i as int + 1, n as int) =~= s@.subrange(i as int, n as int).drop_first());
        i += 1;
    }
    assert(trim_start_spec(s@) == s@.subrange(i as int, n as int));
    let mut j: usize = n;
    while j > i && is_blank_char(s.get_char(j - 1))
        invariant
            n == s@.len(),
            i <= j <= n,
            trim_end_spec(s@.subrange(i as int, n as int)) == trim_end_spec(
                s@.subrange(i as int, j as int),
            ),
        decreases j,
    {
        assert(s@.subrange(i as int, j - 1) =~= s@.subrange(i as int, j as int).drop_last());
        j -= 1;
    }
    assert(trim_end_spec(s@.subrange(i as int, j as int)) == s@.subrange(i as int, j as int));
    String::from_str(s.substring_char(i, j))
}

pub open spec fn is_digit(c: char) -> bool {
    '0' <= c <= '9'
}

pub open spec fn is_sign(c: char) -> bool {
    c == '+' || c == '-'
}

pub open spec fn is_exp_marker(c: char) -> bool {
    c == 'e' || c == 'E'
}

/// `s` without a leading sign.
pub open spec fn unsigned_part(s: Seq<char>) -> Seq<char> {
    if s.len() > 0 && is_sign(s[0]) {
        s.drop_first()
    } else {
        s
    }
}

/// `s` spells the word whose lower-case letters are `lower` and upper-case letters are
/// `upper`, each letter in either case.
pub open spec fn matches_word(s: Seq<char>, lower: Seq<char>, upper: Seq<char>) -> bool {
    &&& s.len() == lower.len()
    &&& s.len() == upper.len()
    &&& forall|i: int| 0 <= i < s.len() ==> s[i] == lower[i] || s[i] == upper[i]
}

/// Digits with at most one decimal point, and at least one digit.
pub open spec fn is_mantissa(m: Seq<char>) -> bool {
    &&& forall|i: int| 0 <= i < m.len() ==> is_digit(#[trigger] m[i]) || m[i] == '.'
    &&& forall|i: int, j: int|
        #![trigger m[i], m[j]]
        0 <= i < j < m.len() && m[i] == '.' ==> m[j] != '.'
    &&& exists|i: int| 0 <= i < m.len() && is_digit(#[trigger] m[i])
}

/// An optional sign followed by at least one digit.
pub open spec fn is_exponent(x: Seq<char>) -> bool {
    let d = unsigned_part(x);
    &&& d.len() > 0
    &&& forall|i: int| 0 <= i < d.len() ==> is_digit(#[trigger] d[i])
}

/// A mantissa, optionally followed by `e` or `E` and an exponent.
pub open spec fn is_decimal(b: Seq<char>) -> bool {
    exists|i: int|
        0 <= i <= b.len() && #[trigger] is_mantissa(b.subrange(0, i)) && (i == b.len() || (
        is_exp_marker(b[i]) && is_exponent(b.subrange(i + 1, b.len() as int))))
}

/// The strings that std's parsing of a floating-point number accepts: an optional sign,
/// then `inf`, `infinity` or `nan` in any case, or a decimal number.
pub open spec fn is_float_literal(s: Seq<char>) -> bool {
    let b = unsigned_part(s);
    ||| matches_word(b, "inf"@, "INF"@)
    ||| matches_word(b, "infinity"@, "INFINITY"@)
    ||| matches_word(b, "nan"@, "NAN"@)
    ||| is_decimal(b)
}

/// The strings that std's parsing of a `bool` accepts.
pub open spec fn is_bool_literal(s: Seq<char>) -> bool {
    s == "true"@ || s == "false"@
}

fn is_digit_char(c: char) -> (r: bool)
    ensures
        r == is_digit(c),
{
    '0' <= c && c <= '9'
}

fn is_sign_char(c: char) -> (r: bool)
    ensures
        r == is_sign(c),
{
    c == '+' || c == '-'
}

fn word_matches(s: &str, lower: &str, upper: &str) -> (r: bool)
    ensures
        r == matches_word(s@, lower@, upper@),
{
    let n = s.unicode_len();
    if n != lower.unicode_len() || n != upper.unicode_len() {
        return false;
    }
    let mut i: usize = 0;
    while i < n
        invariant
            n == s@.len(),
            n == lower@.len(),
            n == upper@.len(),
            i <= n,
            forall|j: int| 0 <= j < i ==> s@[j] == lower@[j] || s@[j] == upper@[j],
        decreases n - i,
    {
        let c = s.get_char(i);
        if c != lower.get_char(i) && c != upper.get_char(i) {
            return false;
        }
        i += 1;
    }
    true
}

/// Whether `x` is an optional sign followed by at least one digit.
fn exponent_ok(x: &str) -> (r: bool)
    ensures
        r == is_exponent(x@),
{
    let n = x.unicode_len();
    let start: usize = if n > 0 && is_sign_char(x.get_char(0)) {
        1
    } else {
        0
    };
    let ghost d = unsigned_part(x@);
    assert(d =~= x@.subrange(start as int, n as int));
    if start >= n {
        return false;
    }
    let mut i = start;
    while i < n
        invariant
            n == x@.len(),
            start <= i <= n,
            d == x@.subrange(start as int, n as int),
            d == unsigned_part(x@),
            forall|j: int| 0 <= j < i - start ==> is_digit(#[trigger] d[j]),
        decreases n - i,
    {
        if !is_digit_char(x.get_char(i)) {
            assert(d[i - start] == x@[i as int]);
            assert(!is_digit(d[i - start]));
            return false;
        }
        i += 1;
    }
    true
}

/// Whether `s` is a number that std's parsing of a floating-point number accepts.
pub fn parses_as_float(s: &str) -> (r: bool)
    ensures
        r == is_float_literal(s@),
{
    let n = s.unicode_len();
    let start: usize = if n > 0 && is_sign_char(s.get_char(0)) {
        1
    } else {
        0
    };
    let b = s.substring_char(start, n);
    assert(b@ =~= unsigned_part(s@));
    if word_matches(b, "inf", "INF") || word_matches(b, "infinity", "INFINITY") || word_matches(
        b,
        "nan",
        "NAN",
    ) {
        return true;
    }
    let m = b.unicode_len();
    let ghost bs = b@;
    // the longest prefix made of digits and decimal points
    let mut i: usize = 0;
    let mut dots: usize = 0;
    let mut digits = false;
    while i < m && (is_digit_char(b.get_char(i)) || b.get_char(i) == '.')
        invariant
            bs == b@,
            m == bs.len(),
            i <= m,
            forall|j: int| 0 <= j < i ==> is_digit(#[trigger] bs[j]) || bs[j] == '.',
            dots <= i,
            dots == 0 ==> forall|j: int| 0 <= j < i ==> #[trigger] bs[j] != '.',
            dots == 1 ==> exists|j: int| 0 <= j < i && #[trigger] bs[j] == '.',
            dots == 1 ==> forall|j: int, k: int|
                #![trigger bs[j], bs[k]]
                0 <= j < k < i && bs[j] == '.' ==> bs[k] != '.',
            dots >= 2 ==> exists|j: int, k: int|
                #![trigger bs[j], bs[k]]
                0 <= j < k < i && bs[j] == '.' && bs[k] == '.',
            digits <==> exists|j: int| 0 <= j < i && is_digit(#[trigger] bs[j]),
        decreases m - i,
    {
        let c = b.get_char(i);
        if c == '.' {
            if dots == 1 {
                let ghost k = i as int;
                let ghost j = choose|j: int| 0 <= j < i && bs[j] == '.';
                assert(bs[k] == '.');
            }
            if dots < 2 {
                dots += 1;
            }
        } else {
            digits = true;
            assert(is_digit(bs[i as int]));
        }
        i += 1;
    }
    let ghost pre = bs.subrange(0, i as int);
    assert forall|j: int| 0 <= j < i implies pre[j] == bs[j] by {}
    let mantissa = dots <= 1 && digits;
    assert(mantissa == is_mantissa(pre)) by {
        if dots >= 2 {
            let (j, k) = choose|j: int, k: int| 0 <= j < k < i && bs[j] == '.' && bs[k] == '.';
            assert(pre[j] == '.' && pre[k] == '.');
        }
        if !digits {
            assert forall|j: int| 0 <= j < pre.len() implies !is_digit(#[trigger] pre[j]) by {
                assert(pre[j] == bs[j]);
            }
        }
        if digits {
            let j = choose|j: int| 0 <= j < i && is_digit(bs[j]);
            assert(is_digit(pre[j]));
        }
    }
    // any prefix that is a mantissa ends exactly at `i`
    assert forall|k: int| 0 <= k <= bs.len() && k != i && #[trigger] is_mantissa(
        bs.subrange(0, k),
    ) implies !(k == bs.len() || (is_exp_marker(bs[k]) && is_exponent(
        bs.subrange(k + 1, bs.len() as int),
    ))) by {
        if k < i {
            assert(is_digit(bs[k]) || bs[k] == '.');
        } else {
            let q = bs.subrange(0, k);
            assert(q[i as int] == bs[i as int]);
            assert(!(is_digit(bs[i as int]) || bs[i as int] == '.'));
        }
    }
    if !mantissa {
        return false;
    }
    if i == m {
        assert(pre =~= bs.subrange(0, m as int));
        return true;
    }
    let c = b.get_char(i);
    if c != 'e' && c != 'E' {
        return false;
    }
    let rest = b.substring_char(i + 1, m);
    exponent_ok(rest)
}

/// Whether `s` is `true` or `false`.
pub fn parses_as_bool(s: &str) -> (r: bool)
    ensures
        r == is_bool_literal(s@),
{
    same(s, "true") || same(s, "false")
}

} // verus!
