//! Names used in package atoms and metadata: categories, packages, licenses,
//! eclasses, slots, USE flags, repos and keywords.

use vstd::prelude::*;
use crate::chars::{
    CharClass, in_class, all_in_class, is_alnum, prefix_run, lemma_prefix_run_bounds,
    lemma_full_run, scan_run, chars_of,
};
use crate::version::{version_end, match_version, lemma_version_end_bounds, version_base_end};

verus! {

/// Errors from the atom and metadata grammars, naming what was invalid.
#[derive(Debug)]
pub enum ParseError {
    Category,
    Package,
    License,
    Eclass,
    /// Eclasses cannot be named `default`.
    EclassDefault,
    Slot,
    UseFlag,
    Repo,
    Keyword,
    Iuse,
    Version,
    Cpv,
    Dep,
}

/// A name whose first character is in `first` and the rest in `rest`.
pub open spec fn is_name(s: Seq<char>, first: CharClass, rest: CharClass) -> bool {
    s.len() > 0 && in_class(s[0], first) && all_in_class(s.drop_first(), rest)
}

/// Category names must not begin with a hyphen, dot, or plus sign.
pub open spec fn valid_category(s: Seq<char>) -> bool {
    is_name(s, CharClass::NameStart, CharClass::CategoryChar)
}

/// License names must not begin with a hyphen, dot, or plus sign.
pub open spec fn valid_license_name(s: Seq<char>) -> bool {
    is_name(s, CharClass::NameStart, CharClass::CategoryChar)
}

/// Slot names must not begin with a hyphen, dot, or plus sign.
pub open spec fn valid_slot_name(s: Seq<char>) -> bool {
    is_name(s, CharClass::NameStart, CharClass::CategoryChar)
}

/// The word `default`.
pub open spec fn default_word() -> Seq<char> {
    seq!['d', 'e', 'f', 'a', 'u', 'l', 't']
}

/// Eclass names must not begin with a hyphen or dot.
pub open spec fn eclass_name_syntax(s: Seq<char>) -> bool {
    is_name(s, CharClass::NameStart, CharClass::EclassChar)
}

/// USE flags must begin with a letter or digit.
pub open spec fn valid_use_flag(s: Seq<char>) -> bool {
    is_name(s, CharClass::NameStart, CharClass::UseFlagChar) && is_alnum(s[0])
}

/// Keyword arches must not begin with a hyphen.
pub open spec fn valid_keyword_name(s: Seq<char>) -> bool {
    is_name(s, CharClass::NameStart, CharClass::KeywordChar)
}

/// A slot: a slot name optionally followed by `/` and a subslot name.
pub open spec fn valid_slot(s: Seq<char>) -> bool {
    valid_slot_name(s) || exists|k: int|
        0 < k < s.len() && s[k] == '/' && valid_slot_name(#[trigger] s.take(k)) && valid_slot_name(
            s.skip(k + 1),
        )
}

/// Characters that may follow a version at the end of a package name.
pub open spec fn is_version_follower(c: char) -> bool {
    c == ' ' || c == '\n' || c == '\t' || c == '*' || c == ':' || c == '['
}

/// Whether a hyphen at `q - 1` starts a version suffix that must end the
/// package name: a version (optionally followed by `-` and another version)
/// at `q` that is followed by whitespace, `*`, `:`, `[` or the end.
pub open spec fn hyphen_starts_version(s: Seq<char>, q: int) -> bool {
    match version_end(s, q) {
        None => false,
        Some(v) => {
            let w = if 0 <= v < s.len() && s[v] == '-' && version_end(s, v + 1) is Some {
                version_end(s, v + 1).unwrap()
            } else {
                v
            };
            w == s.len() || (0 <= w < s.len() && is_version_follower(s[w]))
        },
    }
}

/// End of the rest of a package name starting at `p`.
pub open spec fn package_rest_end(s: Seq<char>, p: int) -> int
    decreases s.len() - p,
{
    if 0 <= p < s.len() && (in_class(s[p], CharClass::PackageChar) || (s[p] == '-'
        && !hyphen_starts_version(s, p + 1))) {
        package_rest_end(s, p + 1)
    } else {
        p
    }
}

/// A package name starting at `i`: it must not begin with a hyphen or plus
/// sign and must not end in a hyphen followed by anything matching a version.
pub open spec fn package_end(s: Seq<char>, i: int) -> Option<int> {
    if 0 <= i < s.len() && in_class(s[i], CharClass::NameStart) {
        Some(package_rest_end(s, i + 1))
    } else {
        None
    }
}

pub open spec fn valid_package(s: Seq<char>) -> bool {
    package_end(s, 0) == Some(s.len() as int)
}

/// End of the rest of a repo name starting at `p`: a hyphen may not be
/// followed by a version.
pub open spec fn repo_rest_end(s: Seq<char>, p: int) -> int
    decreases s.len() - p,
{
    if 0 <= p < s.len() && (in_class(s[p], CharClass::NameStart) || (s[p] == '-' && version_end(
        s,
        p + 1,
    ) is None)) {
        repo_rest_end(s, p + 1)
    } else {
        p
    }
}

/// A repo name: must not begin with a hyphen and must also be a valid package name.
pub open spec fn repo_end(s: Seq<char>, i: int) -> Option<int> {
    if 0 <= i < s.len() && in_class(s[i], CharClass::NameStart) {
        Some(repo_rest_end(s, i + 1))
    } else {
        None
    }
}

pub open spec fn valid_repo(s: Seq<char>) -> bool {
    repo_end(s, 0) == Some(s.len() as int)
}

pub proof fn lemma_package_rest_end(s: Seq<char>, p: int)
    requires
        0 <= p <= s.len(),
    ensures
        p <= package_rest_end(s, p) <= s.len(),
    decreases s.len() - p,
{
    if 0 <= p < s.len() && (in_class(s[p], CharClass::PackageChar) || (s[p] == '-'
        && !hyphen_starts_version(s, p + 1))) {
        lemma_package_rest_end(s, p + 1);
    }
}

pub proof fn lemma_repo_rest_end(s: Seq<char>, p: int)
    requires
        0 <= p <= s.len(),
    ensures
        p <= repo_rest_end(s, p) <= s.len(),
    decreases s.len() - p,
{
    if 0 <= p < s.len() && (in_class(s[p], CharClass::NameStart) || (s[p] == '-' && version_end(
        s,
        p + 1,
    ) is None)) {
        lemma_repo_rest_end(s, p + 1);
    }
}

// ---------------------------------------------------------------------------
// executable matchers

/// Whether the characters `s[from..]` form a name of classes `first`, `rest`.
fn check_name(s: &Vec<char>, first: CharClass, rest: CharClass) -> (r: bool)
    ensures
        r == is_name(s@, first, rest),
{
    if s.len() == 0 {
        return false;
    }
    if !crate::chars::char_in_class(s[0], &first) {
        return false;
    }
    let e = scan_run(s, 1, &rest);
    proof {
        assert(s@.skip(1) =~= s@.drop_first());
        lemma_full_run(s@.drop_first(), rest);
    }
    e == s.len()
}

fn hyphen_check(s: &Vec<char>, q: usize) -> (r: bool)
    requires
        q <= s@.len(),
    ensures
        r == hyphen_starts_version(s@, q as int),
{
    match match_version(s, q) {
        None => false,
        Some((_, v)) => {
            let w = if v < s.len() && s[v] == '-' {
                match match_version(s, v + 1) {
                    Some((_, v2)) => v2,
                    None => v,
                }
            } else {
                v
            };
            w == s.len() || (w < s.len() && (s[w] == ' ' || s[w] == '\n' || s[w] == '\t' || s[w]
                == '*' || s[w] == ':' || s[w] == '['))
        },
    }
}

/// Match a package name starting at `i`.
pub fn match_package(s: &Vec<char>, i: usize) -> (r: Option<usize>)
    requires
        i <= s@.len(),
    ensures
        r matches Some(e) ==> package_end(s@, i as int) == Some(e as int) && i < e <= s@.len(),
        r is None ==> package_end(s@, i as int) is None,
{
    if i >= s.len() || !crate::chars::char_in_class(s[i], &CharClass::NameStart) {
        return None;
    }
    let mut p = i + 1;
    while p < s.len()
        invariant
            i < p <= s@.len(),
            package_rest_end(s@, i + 1) == package_rest_end(s@, p as int),
        ensures
            i < p <= s@.len(),
            package_rest_end(s@, i + 1) == p,
        decreases s@.len() - p,
    {
        if crate::chars::char_in_class(s[p], &CharClass::PackageChar) || (s[p] == '-'
            && !hyphen_check(s, p + 1)) {
            p = p + 1;
        } else {
            break;
        }
    }
    Some(p)
}

/// Match a repo name starting at `i`.
pub fn match_repo(s: &Vec<char>, i: usize) -> (r: Option<usize>)
    requires
        i <= s@.len(),
    ensures
        r matches Some(e) ==> repo_end(s@, i as int) == Some(e as int) && i < e <= s@.len(),
        r is None ==> repo_end(s@, i as int) is None,
{
    if i >= s.len() || !crate::chars::char_in_class(s[i], &CharClass::NameStart) {
        return None;
    }
    let mut p = i + 1;
    while p < s.len()
        invariant
            i < p <= s@.len(),
            repo_rest_end(s@, i + 1) == repo_rest_end(s@, p as int),
        ensures
            i < p <= s@.len(),
            repo_rest_end(s@, i + 1) == p,
        decreases s@.len() - p,
    {
        if crate::chars::char_in_class(s[p], &CharClass::NameStart) || (s[p] == '-' && match_version(
            s,
            p + 1,
        ).is_none()) {
            p = p + 1;
        } else {
            break;
        }
    }
    Some(p)
}

/// Match a category name starting at `i` (the category grammar is greedy).
pub fn match_category(s: &Vec<char>, i: usize) -> (r: Option<usize>)
    requires
        i <= s@.len(),
    ensures
        r matches Some(e) ==> i < e <= s@.len() && valid_category(s@.subrange(i as int, e as int))
            && (e < s@.len() ==> !in_class(s@[e as int], CharClass::CategoryChar)),
        r is None ==> !(i < s@.len() && in_class(s@[i as int], CharClass::NameStart)),
{
    if i >= s.len() || !crate::chars::char_in_class(s[i], &CharClass::NameStart) {
        return None;
    }
    let e = scan_run(s, i + 1, &CharClass::CategoryChar);
    proof {
        let t = s@.skip(i + 1);
        lemma_prefix_run_bounds(t, CharClass::CategoryChar);
        let name = s@.subrange(i as int, e as int);
        assert forall|k: int| 0 <= k < name.drop_first().len() implies in_class(
            #[trigger] name.drop_first()[k],
            CharClass::CategoryChar,
        ) by {
            assert(name.drop_first()[k] == t[k]);
        }
        if e < s@.len() {
            assert(t[e - i - 1] == s@[e as int]);
        }
    }
    Some(e)
}

// ---------------------------------------------------------------------------
// public parsers

/// Parse a category name.
pub fn category(s: &str) -> (r: Result<&str, ParseError>)
    ensures
        r matches Ok(v) ==> v@ == s@ && valid_category(s@),
        r is Err ==> r == Err::<&str, ParseError>(ParseError::Category) && !valid_category(s@),
{
    let cs = chars_of(s);
    if check_name(&cs, CharClass::NameStart, CharClass::CategoryChar) {
        Ok(s)
    } else {
        Err(ParseError::Category)
    }
}

/// Parse a package name.
pub fn package(s: &str) -> (r: Result<&str, ParseError>)
    ensures
        r matches Ok(v) ==> v@ == s@ && valid_package(s@),
        r is Err ==> r == Err::<&str, ParseError>(ParseError::Package) && !valid_package(s@),
{
    let cs = chars_of(s);
    match match_package(&cs, 0) {
        Some(e) if e == cs.len() => Ok(s),
        _ => Err(ParseError::Package),
    }
}

/// Parse a license name.
pub fn license_name(s: &str) -> (r: Result<&str, ParseError>)
    ensures
        r matches Ok(v) ==> v@ == s@ && valid_license_name(s@),
        r is Err ==> r == Err::<&str, ParseError>(ParseError::License) && !valid_license_name(s@),
{
    let cs = chars_of(s);
    if check_name(&cs, CharClass::NameStart, CharClass::CategoryChar) {
        Ok(s)
    } else {
        Err(ParseError::License)
    }
}

/// Parse an eclass name; the name `default` is rejected.
pub fn eclass_name(s: &str) -> (r: Result<&str, ParseError>)
    ensures
        r matches Ok(v) ==> v@ == s@ && eclass_name_syntax(s@) && s@ != default_word(),
        r == Err::<&str, ParseError>(ParseError::Eclass) <==> !eclass_name_syntax(s@),
        r == Err::<&str, ParseError>(ParseError::EclassDefault) <==> s@ == default_word(),
        r is Ok || r == Err::<&str, ParseError>(ParseError::Eclass) || r == Err::<&str, ParseError>(
            ParseError::EclassDefault,
        ),
{
    let cs = chars_of(s);
    if !check_name(&cs, CharClass::NameStart, CharClass::EclassChar) {
        proof {
            if s@ == default_word() {
                assert(eclass_name_syntax(s@));
            }
        }
        return Err(ParseError::Eclass);
    }
    let dv = vec!['d', 'e', 'f', 'a', 'u', 'l', 't'];
    assert(dv@ =~= default_word());
    if crate::chars::chars_eq(&cs, &dv) {
        Err(ParseError::EclassDefault)
    } else {
        Ok(s)
    }
}

/// Parse a slot: a slot name, optionally followed by `/` and a subslot name.
pub fn slot(s: &str) -> (r: Result<&str, ParseError>)
    ensures
        r matches Ok(v) ==> v@ == s@ && valid_slot(s@),
        r is Err ==> r == Err::<&str, ParseError>(ParseError::Slot) && !valid_slot(s@),
{
    let cs = chars_of(s);
    let ghost t = s@;
    if cs.len() == 0 || !crate::chars::char_in_class(cs[0], &CharClass::NameStart) {
        proof {
            assert forall|k: int| 0 < k < t.len() && t[k] == '/' implies !valid_slot_name(
                #[trigger] t.take(k),
            ) by {
                assert(t.take(k)[0] == t[0]);
            }
        }
        return Err(ParseError::Slot);
    }
    let e1 = scan_run(&cs, 1, &CharClass::CategoryChar);
    proof {
        lemma_prefix_run_bounds(t.skip(1), CharClass::CategoryChar);
    }
    if e1 == cs.len() {
        proof {
            assert(t.skip(1) =~= t.drop_first());
            lemma_full_run(t.drop_first(), CharClass::CategoryChar);
        }
        return Ok(s);
    }
    assert(!in_class(t[e1 as int], CharClass::CategoryChar)) by {
        assert(t.skip(1)[e1 - 1] == t[e1 as int]);
    }
    proof {
        assert(!all_in_class(t.drop_first(), CharClass::CategoryChar)) by {
            assert(t.drop_first()[e1 - 1] == t[e1 as int]);
        }
        assert forall|k: int| 0 < k < t.len() && k != e1 && t[k] == '/' implies !valid_slot_name(
            #[trigger] t.take(k),
        ) by {
            if k < e1 {
                assert(t.skip(1)[k - 1] == t[k]);
            } else {
                assert(t.take(k).drop_first()[e1 - 1] == t[e1 as int]);
            }
        }
    }
    if cs[e1] != '/' {
        return Err(ParseError::Slot);
    }
    let tail_start = e1 + 1;
    if tail_start < cs.len() && crate::chars::char_in_class(cs[tail_start], &CharClass::NameStart) {
        let e2 = scan_run(&cs, tail_start + 1, &CharClass::CategoryChar);
        proof {
            let head = t.take(e1 as int);
            assert forall|i: int| 0 <= i < head.drop_first().len() implies in_class(
                #[trigger] head.drop_first()[i],
                CharClass::CategoryChar,
            ) by {
                assert(t.skip(1)[i] == head.drop_first()[i]);
            }
            assert(valid_slot_name(head));
            let tail = t.skip(e1 + 1);
            assert(t.skip(tail_start + 1) =~= tail.drop_first());
            lemma_full_run(tail.drop_first(), CharClass::CategoryChar);
            lemma_prefix_run_bounds(tail.drop_first(), CharClass::CategoryChar);
        }
        if e2 == cs.len() {
            return Ok(s);
        }
        return Err(ParseError::Slot);
    }
    Err(ParseError::Slot)
}

/// Parse a USE flag name.
pub fn use_flag(s: &str) -> (r: Result<&str, ParseError>)
    ensures
        r matches Ok(v) ==> v@ == s@ && valid_use_flag(s@),
        r is Err ==> r == Err::<&str, ParseError>(ParseError::UseFlag) && !valid_use_flag(s@),
{
    let cs = chars_of(s);
    if cs.len() > 0 && crate::chars::alnum(cs[0]) && check_name(
        &cs,
        CharClass::NameStart,
        CharClass::UseFlagChar,
    ) {
        Ok(s)
    } else {
        Err(ParseError::UseFlag)
    }
}

/// Parse a repo name.
pub fn repo(s: &str) -> (r: Result<&str, ParseError>)
    ensures
        r matches Ok(v) ==> v@ == s@ && valid_repo(s@),
        r is Err ==> r == Err::<&str, ParseError>(ParseError::Repo) && !valid_repo(s@),
{
    let cs = chars_of(s);
    match match_repo(&cs, 0) {
        Some(e) if e == cs.len() => Ok(s),
        _ => Err(ParseError::Repo),
    }
}

} // verus!
