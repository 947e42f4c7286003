//! Character classes and small text utilities shared by the parsers.

use vstd::prelude::*;

verus! {

/// The values of a list of strings.
pub open spec fn views(v: Seq<String>) -> Seq<Seq<char>> {
    v.map_values(|s: String| s@)
}

/// ASCII decimal digit.
pub open spec fn is_digit(c: char) -> bool {
    '0' <= c && c <= '9'
}

/// ASCII lowercase letter.
pub open spec fn is_lower(c: char) -> bool {
    'a' <= c && c <= 'z'
}

/// ASCII uppercase letter.
pub open spec fn is_upper(c: char) -> bool {
    'A' <= c && c <= 'Z'
}

/// ASCII letter.
pub open spec fn is_alpha(c: char) -> bool {
    is_lower(c) || is_upper(c)
}

/// ASCII letter or digit.
pub open spec fn is_alnum(c: char) -> bool {
    is_alpha(c) || is_digit(c)
}

/// Classes of characters used when scanning runs.
#[derive(Debug)]
pub enum CharClass {
    /// Anything that is not an ASCII letter or digit.
    Separator,
    /// ASCII digits.
    Digit,
    /// ASCII letters.
    Alpha,
    /// ASCII letters and digits: the first character of USE flags.
    Alnum,
    /// Letters, digits and `_`: the first character of most names.
    NameStart,
    /// Letters, digits, `+`, `_`, `.` and `-`: categories, licenses and slots.
    CategoryChar,
    /// Letters, digits, `_`, `.` and `-`: eclass names.
    EclassChar,
    /// Letters, digits, `+`, `_`, `@` and `-`: USE flags.
    UseFlagChar,
    /// Letters, digits, `_` and `-`: keyword arches.
    KeywordChar,
    /// Letters, digits, `+` and `_`: package names apart from hyphens.
    PackageChar,
}

pub open spec fn in_class(c: char, k: CharClass) -> bool {
    match k {
        CharClass::Separator => !is_alnum(c),
        CharClass::Digit => is_digit(c),
        CharClass::Alpha => is_alpha(c),
        CharClass::Alnum => is_alnum(c),
        CharClass::NameStart => is_alnum(c) || c == '_',
        CharClass::CategoryChar => is_alnum(c) || c == '+' || c == '_' || c == '.' || c == '-',
        CharClass::EclassChar => is_alnum(c) || c == '_' || c == '.' || c == '-',
        CharClass::UseFlagChar => is_alnum(c) || c == '+' || c == '_' || c == '@' || c == '-',
        CharClass::KeywordChar => is_alnum(c) || c == '_' || c == '-',
        CharClass::PackageChar => is_alnum(c) || c == '+' || c == '_',
    }
}

/// Every character of `s` belongs to class `k`.
pub open spec fn all_in_class(s: Seq<char>, k: CharClass) -> bool {
    forall|i: int| 0 <= i < s.len() ==> in_class(#[trigger] s[i], k)
}

pub proof fn lemma_full_run(s: Seq<char>, k: CharClass)
    ensures
        (prefix_run(s, k) == s.len()) == all_in_class(s, k),
{
    lemma_prefix_run_bounds(s, k);
}

/// Length of the longest prefix of `s` whose characters all belong to class `k`.
pub open spec fn prefix_run(s: Seq<char>, k: CharClass) -> nat
    decreases s.len(),
{
    if s.len() > 0 && in_class(s[0], k) {
        1 + prefix_run(s.drop_first(), k)
    } else {
        0
    }
}

pub proof fn lemma_prefix_run_bounds(s: Seq<char>, k: CharClass)
    ensures
        prefix_run(s, k) <= s.len(),
        forall|i: int| 0 <= i < prefix_run(s, k) ==> in_class(#[trigger] s[i], k),
        prefix_run(s, k) < s.len() ==> !in_class(s[prefix_run(s, k) as int], k),
    decreases s.len(),
{
    if s.len() > 0 && in_class(s[0], k) {
        lemma_prefix_run_bounds(s.drop_first(), k);
        assert forall|i: int| 0 <= i < prefix_run(s, k) implies in_class(#[trigger] s[i], k) by {
            if i > 0 {
                assert(s[i] == s.drop_first()[i - 1]);
            }
        }
    }
}

/// A prefix length that covers only class members and stops at a non-member
/// (or the end) is the run length.
pub proof fn lemma_prefix_run_char(s: Seq<char>, k: CharClass, n: int)
    requires
        0 <= n <= s.len(),
        forall|i: int| 0 <= i < n ==> in_class(#[trigger] s[i], k),
        n < s.len() ==> !in_class(s[n], k),
    ensures
        prefix_run(s, k) == n,
    decreases s.len(),
{
    if n > 0 {
        let t = s.drop_first();
        assert forall|i: int| 0 <= i < n - 1 implies in_class(#[trigger] t[i], k) by {
            assert(t[i] == s[i + 1]);
        }
        if n - 1 < t.len() {
            assert(t[n - 1] == s[n]);
        }
        lemma_prefix_run_char(t, k, n - 1);
    }
}

/// Whether a character is an ASCII letter or digit.
pub fn alnum(c: char) -> (r: bool)
    ensures
        r == is_alnum(c),
{
    ('a' <= c && c <= 'z') || ('A' <= c && c <= 'Z') || ('0' <= c && c <= '9')
}

pub fn char_in_class(c: char, k: &CharClass) -> (r: bool)
    ensures
        r == in_class(c, *k),
{
    match k {
        CharClass::Separator => !(('a' <= c && c <= 'z') || ('A' <= c && c <= 'Z') || (
        '0' <= c && c <= '9')),
        CharClass::Digit => '0' <= c && c <= '9',
        CharClass::Alpha => ('a' <= c && c <= 'z') || ('A' <= c && c <= 'Z'),
        CharClass::Alnum => alnum(c),
        CharClass::NameStart => alnum(c) || c == '_',
        CharClass::CategoryChar => alnum(c) || c == '+' || c == '_' || c == '.' || c == '-',
        CharClass::EclassChar => alnum(c) || c == '_' || c == '.' || c == '-',
        CharClass::UseFlagChar => alnum(c) || c == '+' || c == '_' || c == '@' || c == '-',
        CharClass::KeywordChar => alnum(c) || c == '_' || c == '-',
        CharClass::PackageChar => alnum(c) || c == '+' || c == '_',
    }
}

/// Scan forward from `start` over characters of class `k`, returning the end of the run.
pub fn scan_run(s: &Vec<char>, start: usize, k: &CharClass) -> (end: usize)
    requires
        start <= s@.len(),
    ensures
        start <= end <= s@.len(),
        end == start + prefix_run(s@.skip(start as int), *k),
{
    let mut end = start;
    while end < s.len()
        invariant
            start <= end <= s@.len(),
            forall|i: int| start <= i < end ==> in_class(#[trigger] s@[i], *k),
        ensures
            start <= end <= s@.len(),
            forall|i: int| start <= i < end ==> in_class(#[trigger] s@[i], *k),
            end < s@.len() ==> !in_class(s@[end as int], *k),
        decreases s@.len() - end,
    {
        if !char_in_class(s[end], k) {
            break;
        }
        end = end + 1;
    }
    proof {
        let t = s@.skip(start as int);
        assert forall|i: int| 0 <= i < end - start implies in_class(#[trigger] t[i], *k) by {
            assert(t[i] == s@[start + i]);
        }
        if end - start < t.len() {
            assert(t[end - start] == s@[end as int]);
        }
        lemma_prefix_run_char(t, *k, end - start);
    }
    end
}

/// Append a character to a string.
#[verifier::external_body]
pub(crate) fn push_char(s: &mut String, c: char)
    ensures
        final(s)@ == old(s)@.push(c),
{
    s.push(c);
}

/// Collect the characters of a string slice.
pub fn chars_of(s: &str) -> (r: Vec<char>)
    ensures
        r@ == s@,
{
    let n = s.unicode_len();
    let mut v: Vec<char> = Vec::new();
    let mut i: usize = 0;
    while i < n
        invariant
            i <= n,
            n == s@.len(),
            v@ == s@.take(i as int),
        decreases n - i,
    {
        v.push(s.get_char(i));
        i = i + 1;
        assert(v@ =~= s@.take(i as int));
    }
    assert(v@ =~= s@);
    v
}

/// Build a string from a range of characters.
pub fn string_from(s: &Vec<char>, start: usize, end: usize) -> (r: String)
    requires
        start <= end <= s@.len(),
    ensures
        r@ == s@.subrange(start as int, end as int),
{
    let mut out = String::new();
    let mut i = start;
    while i < end
        invariant
            start <= i <= end,
            end <= s@.len(),
            out@ == s@.subrange(start as int, i as int),
        decreases end - i,
    {
        push_char(&mut out, s[i]);
        i = i + 1;
        assert(out@ =~= s@.subrange(start as int, i as int));
    }
    out
}

/// Whether two character sequences are equal.
pub fn chars_eq(a: &Vec<char>, b: &Vec<char>) -> (r: bool)
    ensures
        r == (a@ == b@),
{
    if a.len() != b.len() {
        return false;
    }
    let mut i: usize = 0;
    while i < a.len()
        invariant
            i <= a@.len(),
            a@.len() == b@.len(),
            forall|j: int| 0 <= j < i ==> a@[j] == b@[j],
        decreases a@.len() - i,
    {
        if a[i] != b[i] {
            return false;
        }
        i = i + 1;
    }
    assert(a@ =~= b@);
    true
}

/// The character of a decimal digit.
pub open spec fn digit_char(d: nat) -> char {
    if d == 0 {
        '0'
    } else if d == 1 {
        '1'
    } else if d == 2 {
        '2'
    } else if d == 3 {
        '3'
    } else if d == 4 {
        '4'
    } else if d == 5 {
        '5'
    } else if d == 6 {
        '6'
    } else if d == 7 {
        '7'
    } else if d == 8 {
        '8'
    } else {
        '9'
    }
}

/// A number written in decimal, without leading zeros.
pub open spec fn decimal_text(n: nat) -> Seq<char>
    decreases n,
{
    if n < 10 {
        seq![digit_char(n)]
    } else {
        decimal_text(n / 10).push(digit_char(n % 10))
    }
}

fn digit_char_exec(d: usize) -> (r: char)
    requires
        d < 10,
    ensures
        r == digit_char(d as nat),
{
    if d == 0 {
        '0'
    } else if d == 1 {
        '1'
    } else if d == 2 {
        '2'
    } else if d == 3 {
        '3'
    } else if d == 4 {
        '4'
    } else if d == 5 {
        '5'
    } else if d == 6 {
        '6'
    } else if d == 7 {
        '7'
    } else if d == 8 {
        '8'
    } else {
        '9'
    }
}

/// Append a number written in decimal.
pub fn push_decimal(out: &mut String, n: usize)
    ensures
        final(out)@ == old(out)@ + decimal_text(n as nat),
    decreases n,
{
    if n >= 10 {
        push_decimal(out, n / 10);
    }
    push_char(out, digit_char_exec(n % 10));
    proof {
        if n < 10 {
            assert(n % 10 == n);
        }
    }
    assert(old(out)@ + decimal_text(n as nat) =~= out@) by {
        if n >= 10 {
            assert(decimal_text(n as nat) =~= decimal_text((n / 10) as nat).push(digit_char((n % 10) as nat)));
        }
    }
}

/// Append a string slice.
pub fn push_text(out: &mut String, t: &str)
    ensures
        final(out)@ == old(out)@ + t@,
{
    out.append(t);
}

} // verus!
