//! The package version grammar: `1.2.3b_alpha4-r1` and friends.
//!
//! A version is one or more dot-separated numbers, an optional lowercase
//! letter, any number of `_alpha`/`_beta`/`_pre`/`_rc`/`_p` suffixes each with
//! an optional number, and an optional `-rN` revision. Numbers must fit in a
//! `u64`. The functions here follow the grammar as a greedy, committed
//! (PEG-style) matcher over positions of a character sequence.

use vstd::prelude::*;
use crate::chars::{CharClass, is_digit, is_lower, prefix_run, lemma_prefix_run_bounds, scan_run};
use crate::ver_cut::{decimal_value, all_digits};

verus! {

/// End of the run of digits starting at `i`.
pub open spec fn digits_end(s: Seq<char>, i: int) -> int {
    i + prefix_run(s.skip(i), CharClass::Digit)
}

/// A number: one or more digits whose value fits in a `u64`.
pub open spec fn number_end(s: Seq<char>, i: int) -> Option<int> {
    let j = digits_end(s, i);
    if j > i && decimal_value(s.subrange(i, j)) <= u64::MAX {
        Some(j)
    } else {
        None
    }
}

pub proof fn lemma_digits_end(s: Seq<char>, i: int)
    requires
        0 <= i <= s.len(),
    ensures
        i <= digits_end(s, i) <= s.len(),
        all_digits(s.subrange(i, digits_end(s, i))),
        digits_end(s, i) < s.len() ==> !is_digit(s[digits_end(s, i)]),
        number_end(s, i) matches Some(j) ==> i < j <= s.len(),
{
    let t = s.skip(i);
    lemma_prefix_run_bounds(t, CharClass::Digit);
    let j = digits_end(s, i);
    assert forall|k: int| 0 <= k < j - i implies is_digit(#[trigger] s.subrange(i, j)[k]) by {
        assert(s.subrange(i, j)[k] == t[k]);
    }
    if j < s.len() {
        assert(t[j - i] == s[j]);
    }
}

/// Further `.N` numbers after the first one.
pub open spec fn more_numbers_end(s: Seq<char>, i: int) -> int
    decreases s.len() - i,
{
    if 0 <= i < s.len() && s[i] == '.' && number_end(s, i + 1) is Some {
        let j = number_end(s, i + 1).unwrap();
        proof {
            lemma_digits_end(s, i + 1);
        }
        more_numbers_end(s, j)
    } else {
        i
    }
}

/// An optional lowercase letter.
pub open spec fn letter_end(s: Seq<char>, i: int) -> int {
    if 0 <= i < s.len() && is_lower(s[i]) {
        i + 1
    } else {
        i
    }
}

/// Whether `lit` occurs in `s` at position `i`.
pub open spec fn has_at(s: Seq<char>, i: int, lit: Seq<char>) -> bool {
    0 <= i && i + lit.len() <= s.len() && s.subrange(i, i + lit.len()) == lit
}

/// Suffix kinds, tried in this order.
#[derive(Debug)]
pub enum SuffixKind {
    Alpha,
    Beta,
    Pre,
    Rc,
    P,
}

pub open spec fn suffix_word(k: SuffixKind) -> Seq<char> {
    match k {
        SuffixKind::Alpha => seq!['a', 'l', 'p', 'h', 'a'],
        SuffixKind::Beta => seq!['b', 'e', 't', 'a'],
        SuffixKind::Pre => seq!['p', 'r', 'e'],
        SuffixKind::Rc => seq!['r', 'c'],
        SuffixKind::P => seq!['p'],
    }
}

/// The suffix kind word at `i`, if any, with the first matching kind winning.
pub open spec fn suffix_kind_at(s: Seq<char>, i: int) -> Option<SuffixKind> {
    if has_at(s, i, suffix_word(SuffixKind::Alpha)) {
        Some(SuffixKind::Alpha)
    } else if has_at(s, i, suffix_word(SuffixKind::Beta)) {
        Some(SuffixKind::Beta)
    } else if has_at(s, i, suffix_word(SuffixKind::Pre)) {
        Some(SuffixKind::Pre)
    } else if has_at(s, i, suffix_word(SuffixKind::Rc)) {
        Some(SuffixKind::Rc)
    } else if has_at(s, i, suffix_word(SuffixKind::P)) {
        Some(SuffixKind::P)
    } else {
        None
    }
}

/// One `_kind[N]` suffix starting at `i`.
pub open spec fn suffix_end(s: Seq<char>, i: int) -> Option<int> {
    if 0 <= i < s.len() && s[i] == '_' && suffix_kind_at(s, i + 1) is Some {
        let k = i + 1 + suffix_word(suffix_kind_at(s, i + 1).unwrap()).len();
        match number_end(s, k) {
            Some(e) => Some(e),
            None => Some(k),
        }
    } else {
        None
    }
}

pub proof fn lemma_suffix_end(s: Seq<char>, i: int)
    requires
        0 <= i <= s.len(),
    ensures
        suffix_end(s, i) matches Some(e) ==> i < e <= s.len(),
{
    if 0 <= i < s.len() && s[i] == '_' && suffix_kind_at(s, i + 1) is Some {
        let k = i + 1 + suffix_word(suffix_kind_at(s, i + 1).unwrap()).len();
        lemma_digits_end(s, k);
    }
}

/// Any number of suffixes.
pub open spec fn suffixes_end(s: Seq<char>, i: int) -> int
    decreases s.len() - i,
{
    if 0 <= i <= s.len() && suffix_end(s, i) is Some {
        proof {
            lemma_suffix_end(s, i);
        }
        suffixes_end(s, suffix_end(s, i).unwrap())
    } else {
        i
    }
}

/// An optional `-rN` revision.
pub open spec fn revision_end(s: Seq<char>, i: int) -> int {
    if 0 <= i && i + 1 < s.len() && s[i] == '-' && s[i + 1] == 'r' && number_end(s, i + 2) is Some {
        number_end(s, i + 2).unwrap()
    } else {
        i
    }
}

/// The end of the version text before any revision, when a version starts at `i`.
pub open spec fn version_base_end(s: Seq<char>, i: int) -> Option<int> {
    match number_end(s, i) {
        None => None,
        Some(j) => Some(suffixes_end(s, letter_end(s, more_numbers_end(s, j)))),
    }
}

/// The end of the version that starts at `i`, if one does.
pub open spec fn version_end(s: Seq<char>, i: int) -> Option<int> {
    match version_base_end(s, i) {
        None => None,
        Some(b) => Some(revision_end(s, b)),
    }
}

pub proof fn lemma_version_end_bounds(s: Seq<char>, i: int)
    requires
        0 <= i <= s.len(),
    ensures
        version_base_end(s, i) matches Some(b) ==> i < b <= s.len() && version_end(s, i) == Some(
            revision_end(s, b),
        ) && b <= revision_end(s, b) <= s.len(),
{
    lemma_digits_end(s, i);
    if let Some(j) = number_end(s, i) {
        lemma_more_numbers_end(s, j);
        let m = more_numbers_end(s, j);
        let l = letter_end(s, m);
        lemma_suffixes_end(s, l);
        let b = suffixes_end(s, l);
        if 0 <= b && b + 1 < s.len() && s[b] == '-' && s[b + 1] == 'r' {
            lemma_digits_end(s, b + 2);
        }
    }
}

pub proof fn lemma_more_numbers_end(s: Seq<char>, i: int)
    requires
        0 <= i <= s.len(),
    ensures
        i <= more_numbers_end(s, i) <= s.len(),
    decreases s.len() - i,
{
    if 0 <= i < s.len() && s[i] == '.' && number_end(s, i + 1) is Some {
        lemma_digits_end(s, i + 1);
        lemma_more_numbers_end(s, number_end(s, i + 1).unwrap());
    }
}

pub proof fn lemma_suffixes_end(s: Seq<char>, i: int)
    requires
        0 <= i <= s.len(),
    ensures
        i <= suffixes_end(s, i) <= s.len(),
    decreases s.len() - i,
{
    if suffix_end(s, i) is Some {
        lemma_suffix_end(s, i);
        lemma_suffixes_end(s, suffix_end(s, i).unwrap());
    }
}

// ---------------------------------------------------------------------------
// matching inside a suffix of the input gives the same positions, shifted

pub open spec fn shift(o: Option<int>, k: int) -> Option<int> {
    match o {
        Some(e) => Some(e - k),
        None => None,
    }
}

proof fn lemma_number_shift(s: Seq<char>, k: int, i: int)
    requires
        0 <= k <= i <= s.len(),
    ensures
        digits_end(s.skip(k), i - k) == digits_end(s, i) - k,
        number_end(s.skip(k), i - k) == shift(number_end(s, i), k),
{
    let t = s.skip(k);
    assert(t.skip(i - k) =~= s.skip(i));
    lemma_digits_end(s, i);
    let j = digits_end(s, i);
    assert(t.subrange(i - k, j - k) =~= s.subrange(i, j));
}

proof fn lemma_more_numbers_shift(s: Seq<char>, k: int, i: int)
    requires
        0 <= k <= i <= s.len(),
    ensures
        more_numbers_end(s.skip(k), i - k) == more_numbers_end(s, i) - k,
    decreases s.len() - i,
{
    let t = s.skip(k);
    if i < s.len() {
        lemma_number_shift(s, k, i + 1);
    }
    if 0 <= i < s.len() && s[i] == '.' && number_end(s, i + 1) is Some {
        assert(t[i - k] == s[i]);
        lemma_digits_end(s, i + 1);
        lemma_more_numbers_shift(s, k, number_end(s, i + 1).unwrap());
    } else if i < s.len() {
        assert(t[i - k] == s[i]);
    }
}

proof fn lemma_has_at_shift(s: Seq<char>, k: int, i: int, lit: Seq<char>)
    requires
        0 <= k <= i <= s.len(),
    ensures
        has_at(s.skip(k), i - k, lit) == has_at(s, i, lit),
{
    if i + lit.len() <= s.len() {
        assert(s.skip(k).subrange(i - k, i - k + lit.len()) =~= s.subrange(i, i + lit.len()));
    }
}

proof fn lemma_suffix_shift(s: Seq<char>, k: int, i: int)
    requires
        0 <= k <= i <= s.len(),
    ensures
        suffix_end(s.skip(k), i - k) == shift(suffix_end(s, i), k),
{
    let t = s.skip(k);
    if i < s.len() {
        assert(t[i - k] == s[i]);
        lemma_has_at_shift(s, k, i + 1, suffix_word(SuffixKind::Alpha));
        lemma_has_at_shift(s, k, i + 1, suffix_word(SuffixKind::Beta));
        lemma_has_at_shift(s, k, i + 1, suffix_word(SuffixKind::Pre));
        lemma_has_at_shift(s, k, i + 1, suffix_word(SuffixKind::Rc));
        lemma_has_at_shift(s, k, i + 1, suffix_word(SuffixKind::P));
        if s[i] == '_' && suffix_kind_at(s, i + 1) is Some {
            let e = i + 1 + suffix_word(suffix_kind_at(s, i + 1).unwrap()).len();
            if e <= s.len() {
                lemma_number_shift(s, k, e);
            }
        }
    }
}

proof fn lemma_suffixes_shift(s: Seq<char>, k: int, i: int)
    requires
        0 <= k <= i <= s.len(),
    ensures
        suffixes_end(s.skip(k), i - k) == suffixes_end(s, i) - k,
    decreases s.len() - i,
{
    lemma_suffix_shift(s, k, i);
    if suffix_end(s, i) is Some {
        lemma_suffix_end(s, i);
        lemma_suffixes_shift(s, k, suffix_end(s, i).unwrap());
    }
}

proof fn lemma_revision_shift(s: Seq<char>, k: int, i: int)
    requires
        0 <= k <= i <= s.len(),
    ensures
        revision_end(s.skip(k), i - k) == revision_end(s, i) - k,
{
    let t = s.skip(k);
    if i + 1 < s.len() {
        assert(t[i - k] == s[i]);
        assert(t[i - k + 1] == s[i + 1]);
        lemma_number_shift(s, k, i + 2);
    }
}

/// Matching a version inside a suffix of the input gives the same positions, shifted.
pub proof fn lemma_version_shift(s: Seq<char>, k: int)
    requires
        0 <= k <= s.len(),
    ensures
        version_base_end(s.skip(k), 0) == shift(version_base_end(s, k), k),
        version_end(s.skip(k), 0) == shift(version_end(s, k), k),
{
    let t = s.skip(k);
    lemma_number_shift(s, k, k);
    lemma_version_end_bounds(s, k);
    if let Some(j) = number_end(s, k) {
        lemma_digits_end(s, k);
        lemma_more_numbers_shift(s, k, j);
        lemma_more_numbers_end(s, j);
        let m = more_numbers_end(s, j);
        if m < s.len() {
            assert(t[m - k] == s[m]);
        }
        let l = letter_end(s, m);
        lemma_suffixes_shift(s, k, l);
        lemma_suffixes_end(s, l);
        let b = suffixes_end(s, l);
        lemma_revision_shift(s, k, b);
    }
}

// ---------------------------------------------------------------------------
// executable matchers

/// Match a number at `i`.
pub fn match_number(s: &Vec<char>, i: usize) -> (r: Option<usize>)
    requires
        i <= s@.len(),
    ensures
        r matches Some(e) ==> number_end(s@, i as int) == Some(e as int),
        r is None ==> number_end(s@, i as int) is None,
{
    let j = scan_run(s, i, &CharClass::Digit);
    proof {
        lemma_digits_end(s@, i as int);
    }
    if j == i {
        return None;
    }
    if digits_fit_u64(s, i, j) {
        Some(j)
    } else {
        None
    }
}

/// Whether the digits `s[i..j]` denote a value that fits in a `u64`.
fn digits_fit_u64(s: &Vec<char>, i: usize, j: usize) -> (r: bool)
    requires
        i <= j <= s@.len(),
        all_digits(s@.subrange(i as int, j as int)),
    ensures
        r == (decimal_value(s@.subrange(i as int, j as int)) <= u64::MAX),
{
    let mut value: u64 = 0;
    let mut k = i;
    while k < j
        invariant
            i <= k <= j <= s@.len(),
            all_digits(s@.subrange(i as int, j as int)),
            value == decimal_value(s@.subrange(i as int, k as int)),
        decreases j - k,
    {
        let c = s[k];
        assert(s@.subrange(i as int, j as int)[k - i] == c);
        let d = (c as u32 - '0' as u32) as u64;
        assert(s@.subrange(i as int, k + 1).drop_last() =~= s@.subrange(i as int, k as int));
        let next = match value.checked_mul(10) {
            Some(m) => m.checked_add(d),
            None => None,
        };
        match next {
            Some(v) => {
                value = v;
                k = k + 1;
            },
            None => {
                proof {
                    lemma_decimal_prefix_le(s@.subrange(i as int, j as int), k + 1 - i);
                    assert(s@.subrange(i as int, j as int).take(k + 1 - i) =~= s@.subrange(
                        i as int,
                        k + 1,
                    ));
                }
                return false;
            },
        }
    }
    true
}

pub proof fn lemma_decimal_prefix_le(d: Seq<char>, k: int)
    requires
        0 <= k <= d.len(),
    ensures
        decimal_value(d.take(k)) <= decimal_value(d),
    decreases d.len() - k,
{
    if k < d.len() {
        lemma_decimal_prefix_le(d, k + 1);
        assert(d.take(k + 1).drop_last() =~= d.take(k));
    } else {
        assert(d.take(k) =~= d);
    }
}

fn match_more_numbers(s: &Vec<char>, i: usize) -> (r: usize)
    requires
        i <= s@.len(),
    ensures
        r == more_numbers_end(s@, i as int),
{
    let mut p = i;
    while p < s.len() && s[p] == '.'
        invariant
            i <= p <= s@.len(),
            more_numbers_end(s@, i as int) == more_numbers_end(s@, p as int),
        decreases s@.len() - p,
    {
        match match_number(s, p + 1) {
            Some(e) => {
                proof {
                    lemma_digits_end(s@, p + 1);
                }
                p = e;
            },
            None => {
                return p;
            },
        }
    }
    p
}

fn has_lit(s: &Vec<char>, i: usize, lit: &[char]) -> (r: bool)
    requires
        i <= s@.len(),
    ensures
        r == has_at(s@, i as int, lit@),
{
    let n = s.len();
    if lit.len() > n - i {
        return false;
    }
    let mut k: usize = 0;
    while k < lit.len()
        invariant
            n == s@.len(),
            k <= lit@.len(),
            i <= s@.len(),
            i + lit@.len() <= s@.len(),
            forall|m: int| 0 <= m < k ==> s@[i + m] == lit@[m],
        decreases lit@.len() - k,
    {
        if s[i + k] != lit[k] {
            assert(s@.subrange(i as int, i + lit@.len())[k as int] == s@[i + k]);
            return false;
        }
        k = k + 1;
    }
    assert(s@.subrange(i as int, i + lit@.len()) =~= lit@);
    true
}

fn match_suffix_kind(s: &Vec<char>, i: usize) -> (r: Option<SuffixKind>)
    requires
        i <= s@.len(),
    ensures
        r == suffix_kind_at(s@, i as int),
{
    let alpha = ['a', 'l', 'p', 'h', 'a'];
    let beta = ['b', 'e', 't', 'a'];
    let pre = ['p', 'r', 'e'];
    let rc = ['r', 'c'];
    let p = ['p'];
    assert(alpha@ =~= suffix_word(SuffixKind::Alpha));
    assert(beta@ =~= suffix_word(SuffixKind::Beta));
    assert(pre@ =~= suffix_word(SuffixKind::Pre));
    assert(rc@ =~= suffix_word(SuffixKind::Rc));
    assert(p@ =~= suffix_word(SuffixKind::P));
    if has_lit(s, i, &alpha) {
        Some(SuffixKind::Alpha)
    } else if has_lit(s, i, &beta) {
        Some(SuffixKind::Beta)
    } else if has_lit(s, i, &pre) {
        Some(SuffixKind::Pre)
    } else if has_lit(s, i, &rc) {
        Some(SuffixKind::Rc)
    } else if has_lit(s, i, &p) {
        Some(SuffixKind::P)
    } else {
        None
    }
}

fn suffix_word_len(k: &SuffixKind) -> (r: usize)
    ensures
        r == suffix_word(*k).len(),
{
    match k {
        SuffixKind::Alpha => 5,
        SuffixKind::Beta => 4,
        SuffixKind::Pre => 3,
        SuffixKind::Rc => 2,
        SuffixKind::P => 1,
    }
}

fn match_suffix(s: &Vec<char>, i: usize) -> (r: Option<usize>)
    requires
        i <= s@.len(),
    ensures
        r matches Some(e) ==> suffix_end(s@, i as int) == Some(e as int),
        r is None ==> suffix_end(s@, i as int) is None,
{
    if i < s.len() && s[i] == '_' {
        match match_suffix_kind(s, i + 1) {
            Some(kind) => {
                let k = i + 1 + suffix_word_len(&kind);
                match match_number(s, k) {
                    Some(e) => Some(e),
                    None => Some(k),
                }
            },
            None => None,
        }
    } else {
        None
    }
}

fn match_suffixes(s: &Vec<char>, i: usize) -> (r: usize)
    requires
        i <= s@.len(),
    ensures
        r == suffixes_end(s@, i as int),
{
    let mut p = i;
    loop
        invariant
            i <= p <= s@.len(),
            suffixes_end(s@, i as int) == suffixes_end(s@, p as int),
        decreases s@.len() - p,
    {
        match match_suffix(s, p) {
            Some(e) => {
                proof {
                    lemma_suffix_end(s@, p as int);
                }
                p = e;
            },
            None => {
                return p;
            },
        }
    }
}

fn match_revision(s: &Vec<char>, i: usize) -> (r: usize)
    requires
        i <= s@.len(),
    ensures
        r == revision_end(s@, i as int),
{
    if i < s.len() && s.len() - i > 1 && s[i] == '-' && s[i + 1] == 'r' {
        match match_number(s, i + 2) {
            Some(e) => e,
            None => i,
        }
    } else {
        i
    }
}

/// Match a version starting at `i`, returning the end of its text before the
/// revision and the end of the whole version.
pub fn match_version(s: &Vec<char>, i: usize) -> (r: Option<(usize, usize)>)
    requires
        i <= s@.len(),
    ensures
        r matches Some((b, e)) ==> version_base_end(s@, i as int) == Some(b as int) && version_end(
            s@,
            i as int,
        ) == Some(e as int) && i < b <= e <= s@.len(),
        r is None ==> version_base_end(s@, i as int) is None && version_end(s@, i as int) is None,
{
    proof {
        lemma_version_end_bounds(s@, i as int);
    }
    match match_number(s, i) {
        None => None,
        Some(j) => {
            proof {
                lemma_digits_end(s@, i as int);
            }
            let m = match_more_numbers(s, j);
            proof {
                lemma_more_numbers_end(s@, j as int);
            }
            let l = if m < s.len() && 'a' <= s[m] && s[m] <= 'z' {
                m + 1
            } else {
                m
            };
            let b = match_suffixes(s, l);
            proof {
                lemma_suffixes_end(s@, l as int);
            }
            let e = match_revision(s, b);
            proof {
                if b + 1 < s@.len() && s@[b as int] == '-' && s@[b + 1] == 'r' {
                    lemma_digits_end(s@, b + 2);
                }
            }
            Some((b, e))
        },
    }
}

// ---------------------------------------------------------------------------
// version components

/// A version suffix: its kind and optional number.
pub struct SuffixView {
    pub kind: SuffixKind,
    pub number: Option<Seq<char>>,
}

/// The parts of a version.
pub struct VersionView {
    /// The whole version text.
    pub text: Seq<char>,
    /// Length of the text before any revision.
    pub base_len: nat,
    /// The dot-separated numbers, as written.
    pub numbers: Seq<Seq<char>>,
    pub letter: Option<char>,
    pub suffixes: Seq<SuffixView>,
    /// The revision digits, when `-rN` is present.
    pub revision: Option<Seq<char>>,
}

/// The numbers of further `.N` components starting at `i`.
pub open spec fn numbers_after(s: Seq<char>, i: int) -> Seq<Seq<char>>
    decreases s.len() - i,
{
    if 0 <= i < s.len() && s[i] == '.' && number_end(s, i + 1) is Some {
        let j = number_end(s, i + 1).unwrap();
        proof {
            lemma_digits_end(s, i + 1);
        }
        seq![s.subrange(i + 1, j)] + numbers_after(s, j)
    } else {
        Seq::empty()
    }
}

/// The suffix at `i`, when one is there.
pub open spec fn suffix_view_at(s: Seq<char>, i: int) -> SuffixView {
    let kind = suffix_kind_at(s, i + 1).unwrap();
    let k = i + 1 + suffix_word(kind).len();
    SuffixView {
        kind,
        number: match number_end(s, k) {
            Some(e) => Some(s.subrange(k, e)),
            None => None,
        },
    }
}

/// The suffixes starting at `i`.
pub open spec fn suffixes_after(s: Seq<char>, i: int) -> Seq<SuffixView>
    decreases s.len() - i,
{
    if 0 <= i <= s.len() && suffix_end(s, i) is Some {
        proof {
            lemma_suffix_end(s, i);
        }
        seq![suffix_view_at(s, i)] + suffixes_after(s, suffix_end(s, i).unwrap())
    } else {
        Seq::empty()
    }
}

/// The version starting at `i`, split into its parts.
pub open spec fn version_view_at(s: Seq<char>, i: int) -> Option<VersionView> {
    match number_end(s, i) {
        None => None,
        Some(j) => {
            let m = more_numbers_end(s, j);
            let l = letter_end(s, m);
            let b = suffixes_end(s, l);
            let e = revision_end(s, b);
            Some(
                VersionView {
                    text: s.subrange(i, e),
                    base_len: (b - i) as nat,
                    numbers: seq![s.subrange(i, j)] + numbers_after(s, j),
                    letter: if l > m {
                        Some(s[m])
                    } else {
                        None
                    },
                    suffixes: suffixes_after(s, l),
                    revision: if e > b {
                        Some(s.subrange(b + 2, e))
                    } else {
                        None
                    },
                },
            )
        },
    }
}

/// A version suffix.
#[derive(Debug)]
pub struct Suffix {
    pub kind: SuffixKind,
    pub number: Option<String>,
}

impl View for Suffix {
    type V = SuffixView;

    open spec fn view(&self) -> SuffixView {
        SuffixView {
            kind: self.kind,
            number: match &self.number {
                Some(n) => Some(n@),
                None => None,
            },
        }
    }
}

/// A parsed version.
#[derive(Debug)]
pub struct Version {
    pub text: String,
    pub base_len: usize,
    pub numbers: Vec<String>,
    pub letter: Option<char>,
    pub suffixes: Vec<Suffix>,
    pub revision: Option<String>,
}

impl View for Version {
    type V = VersionView;

    open spec fn view(&self) -> VersionView {
        VersionView {
            text: self.text@,
            base_len: self.base_len as nat,
            numbers: crate::chars::views(self.numbers@),
            letter: self.letter,
            suffixes: self.suffixes@.map_values(|x: Suffix| x@),
            revision: match &self.revision {
                Some(r) => Some(r@),
                None => None,
            },
        }
    }
}

impl Version {
    /// A copy of this version.
    pub fn duplicate(&self) -> (r: Version)
        ensures
            r@ == self@,
    {
        let mut numbers: Vec<String> = Vec::new();
        let mut i: usize = 0;
        while i < self.numbers.len()
            invariant
                i <= self.numbers@.len(),
                numbers@.len() == i,
                forall|k: int| 0 <= k < i ==> numbers@[k]@ == #[trigger] self.numbers@[k]@,
            decreases self.numbers@.len() - i,
        {
            numbers.push(self.numbers[i].clone());
            i = i + 1;
        }
        assert(crate::chars::views(numbers@) =~= crate::chars::views(self.numbers@));
        let mut suffixes: Vec<Suffix> = Vec::new();
        let mut j: usize = 0;
        while j < self.suffixes.len()
            invariant
                j <= self.suffixes@.len(),
                suffixes@.len() == j,
                forall|k: int| 0 <= k < j ==> suffixes@[k]@ == #[trigger] self.suffixes@[k]@,
            decreases self.suffixes@.len() - j,
        {
            let number = match &self.suffixes[j].number {
                Some(n) => Some(n.clone()),
                None => None,
            };
            suffixes.push(Suffix { kind: copy_kind(&self.suffixes[j].kind), number });
            j = j + 1;
        }
        assert(suffixes@.map_values(|x: Suffix| x@) =~= self.suffixes@.map_values(|x: Suffix| x@));
        let revision = match &self.revision {
            Some(r) => Some(r.clone()),
            None => None,
        };
        Version {
            text: self.text.clone(),
            base_len: self.base_len,
            numbers,
            letter: self.letter,
            suffixes,
            revision,
        }
    }
}

/// Whether two strings hold the same text.
fn same_text(a: &String, b: &String) -> (r: bool)
    ensures
        r == (a@ == b@),
{
    let x = crate::chars::chars_of(a.as_str());
    let y = crate::chars::chars_of(b.as_str());
    crate::chars::chars_eq(&x, &y)
}

/// Whether two optional strings hold the same text.
pub(crate) fn same_opt_text(a: &Option<String>, b: &Option<String>) -> (r: bool)
    ensures
        r == (match a {
            Some(x) => Some(x@),
            None => None,
        } == match b {
            Some(x) => Some(x@),
            None => None,
        }),
{
    match (a, b) {
        (Some(x), Some(y)) => same_text(x, y),
        (None, None) => true,
        _ => false,
    }
}

fn same_kind(a: &SuffixKind, b: &SuffixKind) -> (r: bool)
    ensures
        r == (*a == *b),
{
    match (a, b) {
        (SuffixKind::Alpha, SuffixKind::Alpha) => true,
        (SuffixKind::Beta, SuffixKind::Beta) => true,
        (SuffixKind::Pre, SuffixKind::Pre) => true,
        (SuffixKind::Rc, SuffixKind::Rc) => true,
        (SuffixKind::P, SuffixKind::P) => true,
        _ => false,
    }
}

impl Version {
    /// Whether two versions have the same parts, text included.
    pub fn same(&self, other: &Version) -> (r: bool)
        ensures
            r == (self@ == other@),
    {
        if !same_text(&self.text, &other.text) || self.base_len != other.base_len {
            return false;
        }
        if self.numbers.len() != other.numbers.len() {
            assert(self@.numbers.len() != other@.numbers.len());
            return false;
        }
        let mut i: usize = 0;
        while i < self.numbers.len()
            invariant
                i <= self.numbers@.len(),
                self.numbers@.len() == other.numbers@.len(),
                forall|k: int| 0 <= k < i ==> self.numbers@[k]@ == #[trigger] other.numbers@[k]@,
            decreases self.numbers@.len() - i,
        {
            if !same_text(&self.numbers[i], &other.numbers[i]) {
                assert(self@.numbers[i as int] != other@.numbers[i as int]);
                return false;
            }
            i = i + 1;
        }
        assert(self@.numbers =~= other@.numbers);
        let same_letter = match (self.letter, other.letter) {
            (Some(a), Some(b)) => a == b,
            (None, None) => true,
            _ => false,
        };
        if !same_letter {
            return false;
        }
        if self.suffixes.len() != other.suffixes.len() {
            assert(self@.suffixes.len() != other@.suffixes.len());
            return false;
        }
        let mut j: usize = 0;
        while j < self.suffixes.len()
            invariant
                j <= self.suffixes@.len(),
                self.suffixes@.len() == other.suffixes@.len(),
                forall|k: int| 0 <= k < j ==> self.suffixes@[k]@ == #[trigger] other.suffixes@[k]@,
            decreases self.suffixes@.len() - j,
        {
            let a = &self.suffixes[j];
            let b = &other.suffixes[j];
            if !same_kind(&a.kind, &b.kind) || !same_opt_text(&a.number, &b.number) {
                assert(self@.suffixes[j as int] != other@.suffixes[j as int]);
                return false;
            }
            j = j + 1;
        }
        assert(self@.suffixes =~= other@.suffixes);
        same_opt_text(&self.revision, &other.revision)
    }
}

fn copy_kind(k: &SuffixKind) -> (r: SuffixKind)
    ensures
        r == *k,
{
    match k {
        SuffixKind::Alpha => SuffixKind::Alpha,
        SuffixKind::Beta => SuffixKind::Beta,
        SuffixKind::Pre => SuffixKind::Pre,
        SuffixKind::Rc => SuffixKind::Rc,
        SuffixKind::P => SuffixKind::P,
    }
}

/// Parse the version starting at `i` into its parts, with the position where it ends.
pub fn parse_version_at(s: &Vec<char>, i: usize) -> (r: Option<(Version, usize)>)
    requires
        i <= s@.len(),
    ensures
        r matches Some((v, e)) ==> version_view_at(s@, i as int) == Some(v@) && version_end(
            s@,
            i as int,
        ) == Some(e as int) && i < e <= s@.len(),
        r is None ==> version_view_at(s@, i as int) is None && version_end(s@, i as int) is None,
{
    proof {
        lemma_version_end_bounds(s@, i as int);
        lemma_digits_end(s@, i as int);
    }
    let j = match match_number(s, i) {
        None => return None,
        Some(j) => j,
    };
    let mut numbers: Vec<String> = Vec::new();
    numbers.push(crate::chars::string_from(s, i, j));
    let ghost first = s@.subrange(i as int, j as int);
    assert(crate::chars::views(numbers@) =~= seq![first]);
    let mut p = j;
    loop
        invariant
            j <= p <= s@.len(),
            more_numbers_end(s@, j as int) == more_numbers_end(s@, p as int),
            seq![first] + numbers_after(s@, j as int) == crate::chars::views(numbers@)
                + numbers_after(s@, p as int),
        ensures
            j <= p <= s@.len(),
            more_numbers_end(s@, j as int) == p,
            seq![first] + numbers_after(s@, j as int) == crate::chars::views(numbers@)
                + numbers_after(s@, p as int),
            numbers_after(s@, p as int) == Seq::<Seq<char>>::empty(),
        decreases s@.len() - p,
    {
        if !(p < s.len() && s[p] == '.') {
            break;
        }
        match match_number(s, p + 1) {
            Some(e) => {
                proof {
                    lemma_digits_end(s@, p + 1);
                }
                let ghost before = crate::chars::views(numbers@);
                numbers.push(crate::chars::string_from(s, p + 1, e));
                proof {
                    assert(crate::chars::views(numbers@) =~= before.push(s@.subrange(p + 1, e as int)));
                    assert(numbers_after(s@, p as int) == seq![s@.subrange(p + 1, e as int)]
                        + numbers_after(s@, e as int));
                    assert(before + numbers_after(s@, p as int) =~= crate::chars::views(numbers@)
                        + numbers_after(s@, e as int));
                }
                p = e;
            },
            None => {
                break;
            },
        }
    }
    proof {
        assert(crate::chars::views(numbers@) + Seq::<Seq<char>>::empty() =~= crate::chars::views(numbers@));
    }
    let m = p;
    let letter = if m < s.len() && 'a' <= s[m] && s[m] <= 'z' {
        Some(s[m])
    } else {
        None
    };
    let l = if letter.is_some() {
        m + 1
    } else {
        m
    };
    let mut suffixes: Vec<Suffix> = Vec::new();
    let mut q = l;
    assert(suffixes@.map_values(|x: Suffix| x@) =~= Seq::<SuffixView>::empty());
    loop
        invariant
            l <= q <= s@.len(),
            suffixes_end(s@, l as int) == suffixes_end(s@, q as int),
            suffixes_after(s@, l as int) == suffixes@.map_values(|x: Suffix| x@) + suffixes_after(
                s@,
                q as int,
            ),
        ensures
            l <= q <= s@.len(),
            suffixes_end(s@, l as int) == q,
            suffixes_after(s@, l as int) == suffixes@.map_values(|x: Suffix| x@) + suffixes_after(
                s@,
                q as int,
            ),
            suffixes_after(s@, q as int) == Seq::<SuffixView>::empty(),
        decreases s@.len() - q,
    {
        if q < s.len() && s[q] == '_' {
            match match_suffix_kind(s, q + 1) {
                Some(kind) => {
                    let k = q + 1 + suffix_word_len(&kind);
                    proof {
                        lemma_digits_end(s@, k as int);
                    }
                    let (number, e) = match match_number(s, k) {
                        Some(e) => (Some(crate::chars::string_from(s, k, e)), e),
                        None => (None, k),
                    };
                    proof {
                        lemma_suffix_end(s@, q as int);
                        lemma_digits_end(s@, k as int);
                    }
                    let ghost before = suffixes@.map_values(|x: Suffix| x@);
                    let sfx = Suffix { kind: copy_kind(&kind), number };
                    assert(sfx@ == suffix_view_at(s@, q as int));
                    suffixes.push(sfx);
                    proof {
                        assert(suffixes@.map_values(|x: Suffix| x@) =~= before.push(
                            suffix_view_at(s@, q as int),
                        ));
                        assert(suffixes_after(s@, q as int) == seq![suffix_view_at(s@, q as int)]
                            + suffixes_after(s@, e as int));
                        assert(before + suffixes_after(s@, q as int) =~= suffixes@.map_values(
                            |x: Suffix| x@,
                        ) + suffixes_after(s@, e as int));
                    }
                    q = e;
                },
                None => {
                    break;
                },
            }
        } else {
            break;
        }
    }
    proof {
        assert(suffixes@.map_values(|x: Suffix| x@) + Seq::<SuffixView>::empty() =~= suffixes@.map_values(
            |x: Suffix| x@,
        ));
    }
    let b = q;
    let e = match_revision(s, b);
    proof {
        if b + 1 < s@.len() && s@[b as int] == '-' && s@[b + 1] == 'r' {
            lemma_digits_end(s@, b + 2);
        }
    }
    let revision = if e > b {
        Some(crate::chars::string_from(s, b + 2, e))
    } else {
        None
    };
    let text = crate::chars::string_from(s, i, e);
    let v = Version { text, base_len: b - i, numbers, letter, suffixes, revision };
    Some((v, e))
}

/// Digits that denote a number fitting in a `u64`.
pub open spec fn valid_number(d: Seq<char>) -> bool {
    d.len() > 0 && all_digits(d) && decimal_value(d) <= u64::MAX
}

/// A number that is absent or valid.
pub open spec fn opt_valid(n: Option<Seq<char>>) -> bool {
    match n {
        Some(d) => valid_number(d),
        None => true,
    }
}

/// What every parsed version satisfies.
pub open spec fn version_wf(v: VersionView) -> bool {
    &&& v.numbers.len() > 0
    &&& forall|i: int| 0 <= i < v.numbers.len() ==> valid_number(#[trigger] v.numbers[i])
    &&& forall|i: int| 0 <= i < v.suffixes.len() ==> opt_valid((#[trigger] v.suffixes[i]).number)
    &&& opt_valid(v.revision)
    &&& v.base_len <= v.text.len()
}

proof fn lemma_number_valid(s: Seq<char>, i: int)
    requires
        0 <= i <= s.len(),
        number_end(s, i) is Some,
    ensures
        valid_number(s.subrange(i, number_end(s, i).unwrap())),
{
    lemma_digits_end(s, i);
}

proof fn lemma_numbers_after_valid(s: Seq<char>, i: int)
    requires
        0 <= i <= s.len(),
    ensures
        forall|k: int| 0 <= k < numbers_after(s, i).len() ==> valid_number(#[trigger] numbers_after(s, i)[k]),
    decreases s.len() - i,
{
    if 0 <= i < s.len() && s[i] == '.' && number_end(s, i + 1) is Some {
        let j = number_end(s, i + 1).unwrap();
        lemma_digits_end(s, i + 1);
        lemma_number_valid(s, i + 1);
        lemma_numbers_after_valid(s, j);
        let v = numbers_after(s, i);
        assert forall|k: int| 0 <= k < v.len() implies valid_number(#[trigger] v[k]) by {
            if k > 0 {
                assert(v[k] == numbers_after(s, j)[k - 1]);
            }
        }
    }
}

proof fn lemma_suffixes_after_valid(s: Seq<char>, i: int)
    requires
        0 <= i <= s.len(),
    ensures
        forall|k: int|
            0 <= k < suffixes_after(s, i).len() ==> opt_valid((#[trigger] suffixes_after(s, i)[k]).number),
    decreases s.len() - i,
{
    if suffix_end(s, i) is Some {
        lemma_suffix_end(s, i);
        let e = suffix_end(s, i).unwrap();
        lemma_suffixes_after_valid(s, e);
        let kind = suffix_kind_at(s, i + 1).unwrap();
        let k0 = i + 1 + suffix_word(kind).len();
        if number_end(s, k0) is Some {
            lemma_number_valid(s, k0);
        }
        let v = suffixes_after(s, i);
        assert forall|k: int| 0 <= k < v.len() implies opt_valid((#[trigger] v[k]).number) by {
            if k > 0 {
                assert(v[k] == suffixes_after(s, e)[k - 1]);
            }
        }
    }
}

/// Every version found by the grammar is well formed.
pub proof fn lemma_version_view_wf(s: Seq<char>, i: int)
    requires
        0 <= i <= s.len(),
        version_view_at(s, i) is Some,
    ensures
        version_wf(version_view_at(s, i).unwrap()),
{
    let v = version_view_at(s, i).unwrap();
    lemma_version_end_bounds(s, i);
    lemma_number_valid(s, i);
    lemma_digits_end(s, i);
    let j = number_end(s, i).unwrap();
    lemma_more_numbers_end(s, j);
    lemma_numbers_after_valid(s, j);
    assert forall|k: int| 0 <= k < v.numbers.len() implies valid_number(#[trigger] v.numbers[k]) by {
        if k > 0 {
            assert(v.numbers[k] == numbers_after(s, j)[k - 1]);
        }
    }
    let m = more_numbers_end(s, j);
    let l = letter_end(s, m);
    lemma_suffixes_end(s, l);
    lemma_suffixes_after_valid(s, l);
    let b = suffixes_end(s, l);
    if b + 1 < s.len() && s[b] == '-' && s[b + 1] == 'r' && number_end(s, b + 2) is Some {
        lemma_number_valid(s, b + 2);
    }
}

} // verus!
