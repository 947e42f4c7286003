//! Versions, versioned packages (`cat/pkg-1.2`) and unversioned packages (`cat/pkg`).

use vstd::prelude::*;
use crate::chars::{CharClass, in_class, prefix_run, chars_of, string_from};
use crate::names::{ParseError, package_end, match_package, match_category, valid_category};
use crate::version::{version_end, version_view_at, parse_version_at, Version};

verus! {

/// A whole string is a version.
pub open spec fn valid_version(s: Seq<char>) -> bool {
    version_end(s, 0) == Some(s.len() as int)
}

/// Parse a version string.
pub fn version(s: &str) -> (r: Result<Version, ParseError>)
    ensures
        r matches Ok(v) ==> valid_version(s@) && version_view_at(s@, 0) == Some(v@) && v@.text
            == s@,
        r is Err ==> r == Err::<Version, ParseError>(ParseError::Version) && !valid_version(s@),
{
    let cs = chars_of(s);
    match parse_version_at(&cs, 0) {
        Some((v, e)) if e == cs.len() => {
            assert(cs@.subrange(0, e as int) =~= cs@);
            Ok(v)
        },
        _ => Err(ParseError::Version),
    }
}

/// End of the category that begins a string.
pub open spec fn category_end(s: Seq<char>) -> int {
    (1 + prefix_run(s.drop_first(), CharClass::CategoryChar)) as int
}

/// The positions of the `/` and of the `-` before the version when `s` is a
/// versioned package `category/package-version`.
pub open spec fn cpv_split(s: Seq<char>) -> Option<(int, int)> {
    let c = category_end(s);
    if s.len() > 0 && in_class(s[0], CharClass::NameStart) && c < s.len() && s[c] == '/' {
        match package_end(s, c + 1) {
            Some(p) => if p < s.len() && s[p] == '-' && version_end(s, p + 1) == Some(
                s.len() as int,
            ) {
                Some((c, p))
            } else {
                None
            },
            None => None,
        }
    } else {
        None
    }
}

/// The position of the `/` when `s` is an unversioned package `category/package`.
pub open spec fn cpn_split(s: Seq<char>) -> Option<int> {
    let c = category_end(s);
    if s.len() > 0 && in_class(s[0], CharClass::NameStart) && c < s.len() && s[c] == '/'
        && package_end(s, c + 1) == Some(s.len() as int) {
        Some(c)
    } else {
        None
    }
}

/// A versioned package.
#[derive(Debug)]
pub struct Cpv {
    pub category: String,
    pub package: String,
    pub version: Version,
}

/// An unversioned package.
#[derive(Debug)]
pub struct Cpn {
    pub category: String,
    pub package: String,
}

/// The category end found by the executable scanner matches the spec.
fn scan_category(cs: &Vec<char>) -> (r: Option<usize>)
    ensures
        r matches Some(c) ==> cs@.len() > 0 && in_class(cs@[0], CharClass::NameStart) && c
            == category_end(cs@) && c <= cs@.len(),
        r is None ==> !(cs@.len() > 0 && in_class(cs@[0], CharClass::NameStart)),
{
    let r = match_category(cs, 0);
    proof {
        if let Some(c) = r {
            let name = cs@.subrange(0, c as int);
            crate::chars::lemma_prefix_run_bounds(cs@.drop_first(), CharClass::CategoryChar);
            assert forall|k: int| 0 <= k < c - 1 implies in_class(
                #[trigger] cs@.drop_first()[k],
                CharClass::CategoryChar,
            ) by {
                assert(name.drop_first()[k] == cs@.drop_first()[k]);
            }
            if c < cs@.len() {
                assert(cs@.drop_first()[c - 1] == cs@[c as int]);
            }
            crate::chars::lemma_prefix_run_char(cs@.drop_first(), CharClass::CategoryChar, c - 1);
        }
    }
    r
}

/// Parse a versioned package `category/package-version`.
pub fn cpv(s: &str) -> (r: Result<Cpv, ParseError>)
    ensures
        r matches Ok(v) ==> cpv_split(s@) matches Some((c, p)) && v.category@ == s@.take(c)
            && v.package@ == s@.subrange(c + 1, p) && version_view_at(s@, p + 1) == Some(
            v.version@,
        ) && v.version@.text == s@.skip(p + 1) && crate::version::version_wf(v.version@),
        r is Err ==> r == Err::<Cpv, ParseError>(ParseError::Cpv) && cpv_split(s@) is None,
{
    let cs = chars_of(s);
    let n = cs.len();
    let c = match scan_category(&cs) {
        Some(c) => c,
        None => return Err(ParseError::Cpv),
    };
    if c >= n || cs[c] != '/' {
        return Err(ParseError::Cpv);
    }
    let p = match match_package(&cs, c + 1) {
        Some(p) => p,
        None => return Err(ParseError::Cpv),
    };
    if p >= n || cs[p] != '-' {
        return Err(ParseError::Cpv);
    }
    match parse_version_at(&cs, p + 1) {
        Some((version, e)) if e == n => {
            let category = string_from(&cs, 0, c);
            let package = string_from(&cs, c + 1, p);
            proof {
                assert(cs@.subrange(0, c as int) =~= cs@.take(c as int));
                assert(cs@.subrange(p + 1, n as int) =~= cs@.skip(p + 1));
                crate::version::lemma_version_view_wf(cs@, p + 1);
            }
            Ok(Cpv { category, package, version })
        },
        _ => Err(ParseError::Cpv),
    }
}

/// Parse an unversioned package `category/package`.
pub fn cpn(s: &str) -> (r: Result<Cpn, ParseError>)
    ensures
        r matches Ok(v) ==> cpn_split(s@) matches Some(c) && v.category@ == s@.take(c)
            && v.package@ == s@.skip(c + 1),
        r is Err ==> r == Err::<Cpn, ParseError>(ParseError::Dep) && cpn_split(s@) is None,
{
    let cs = chars_of(s);
    let n = cs.len();
    let c = match scan_category(&cs) {
        Some(c) => c,
        None => return Err(ParseError::Dep),
    };
    if c >= n || cs[c] != '/' {
        return Err(ParseError::Dep);
    }
    match match_package(&cs, c + 1) {
        Some(p) if p == n => {
            let category = string_from(&cs, 0, c);
            let package = string_from(&cs, c + 1, n);
            assert(cs@.subrange(0, c as int) =~= cs@.take(c as int));
            assert(cs@.subrange(c + 1, n as int) =~= cs@.skip(c + 1));
            Ok(Cpn { category, package })
        },
        _ => Err(ParseError::Dep),
    }
}

} // verus!
