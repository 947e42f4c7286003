//! Ebuild repository logic: resolving masters, mapping ebuild paths to
//! packages, listing packages and versions, and turning paths into
//! restrictions. Directory listings and other filesystem facts are gathered by
//! the caller and handed in as plain values.

use vstd::prelude::*;
use indexmap::IndexSet;
use crate::chars::{views, chars_of, string_from};
use crate::builtins::contains_str;
use crate::cpv::{Cpv, Cpn, cpv, cpv_split};
use crate::names::{valid_package, package};
use crate::order::{
    Order, version_order, compare_versions, flip, lemma_version_order_flip, chain, seq_order,
    lemma_version_equal_trans,
    lemma_seq_order_flip, lemma_chain_flip, string_order, chain_exec,
};
use crate::ordered_set::{added, set_items, sorted_items, set_new, set_insert, set_sort};
use crate::shell::str_eq;
use crate::pk::{split_whitespace, words, cpv_order, compare_cpvs};
use crate::version::{Version, VersionView, version_view_at, version_wf, lemma_version_view_wf};

verus! {

/// Strings joined by a separator.
pub open spec fn join(v: Seq<Seq<char>>, sep: Seq<char>) -> Seq<char>
    decreases v.len(),
{
    if v.len() == 0 {
        Seq::empty()
    } else if v.len() == 1 {
        v[0]
    } else {
        v[0] + sep + join(v.drop_first(), sep)
    }
}

proof fn lemma_join_push(v: Seq<Seq<char>>, sep: Seq<char>, x: Seq<char>)
    ensures
        join(v.push(x), sep) == if v.len() == 0 {
            x
        } else {
            join(v, sep) + sep + x
        },
    decreases v.len(),
{
    if v.len() == 0 {
        assert(v.push(x) =~= seq![x]);
    } else if v.len() == 1 {
        assert(v.push(x).drop_first() =~= seq![x]);
        assert(join(seq![x], sep) == x);
        assert(v.push(x)[0] == v[0]);
        assert(join(v, sep) == v[0]);
    } else {
        assert(v.push(x).drop_first() =~= v.drop_first().push(x));
        lemma_join_push(v.drop_first(), sep, x);
        assert(v.push(x)[0] == v[0]);
        assert(join(v.push(x), sep) == v[0] + sep + join(v.drop_first().push(x), sep));
        assert(join(v.push(x), sep) =~= v[0] + sep + join(v.drop_first(), sep) + sep + x);
    }
}

/// Join strings with a separator.
pub fn join_strings(v: &Vec<String>, sep: &str) -> (r: String)
    ensures
        r@ == join(views(v@), sep@),
{
    let mut out = String::new();
    let mut i: usize = 0;
    while i < v.len()
        invariant
            i <= v@.len(),
            out@ == join(views(v@).take(i as int), sep@),
        decreases v@.len() - i,
    {
        proof {
            lemma_join_push(views(v@).take(i as int), sep@, v@[i as int]@);
            assert(views(v@).take(i + 1) =~= views(v@).take(i as int).push(v@[i as int]@));
        }
        if i > 0 {
            out.append(sep);
        }
        out.append(v[i].as_str());
        i = i + 1;
    }
    assert(views(v@).take(v@.len() as int) =~= views(v@));
    out
}

/// Errors from the repository logic.
#[derive(Debug)]
pub enum RepoError {
    /// Masters that name no configured ebuild repo, joined by `, `.
    NonexistentMasters(String),
}

/// The masters that name no known repo, in order.
pub open spec fn missing_masters(masters: Seq<Seq<char>>, repos: Seq<Seq<char>>) -> Seq<Seq<char>> {
    masters.filter(|m: Seq<char>| !repos.contains(m))
}

/// Resolve a repo's masters against the ids of the configured ebuild repos:
/// the position of each master among them, or all the missing ones.
pub fn resolve_masters(masters: &Vec<String>, repos: &Vec<String>) -> (r: Result<Vec<usize>, RepoError>)
    ensures
        match r {
            Ok(idx) => missing_masters(views(masters@), views(repos@)).len() == 0 && idx@.len()
                == masters@.len() && forall|i: int|
                0 <= i < idx@.len() ==> #[trigger] idx@[i] < repos@.len() && repos@[idx@[i] as int]@
                    == masters@[i]@,
            Err(RepoError::NonexistentMasters(msg)) => missing_masters(views(masters@), views(repos@)).len()
                > 0 && msg@ == "nonexistent masters: "@ + join(
                missing_masters(views(masters@), views(repos@)),
                ", "@,
            ),
        },
{
    let ghost pred = |m: Seq<char>| !views(repos@).contains(m);
    let mut found: Vec<usize> = Vec::new();
    let mut missing: Vec<String> = Vec::new();
    let mut i: usize = 0;
    proof {
        reveal(Seq::filter);
        assert(views(masters@).take(0).filter(pred) =~= Seq::<Seq<char>>::empty());
        assert(views(missing@) =~= Seq::<Seq<char>>::empty());
    }
    while i < masters.len()
        invariant
            i <= masters@.len(),
            pred == (|m: Seq<char>| !views(repos@).contains(m)),
            views(missing@) == views(masters@).take(i as int).filter(pred),
            views(missing@).len() == 0 ==> found@.len() == i,
            views(missing@).len() == 0 ==> forall|k: int|
                0 <= k < found@.len() ==> #[trigger] found@[k] < repos@.len() && repos@[found@[k] as int]@
                    == masters@[k]@,
        decreases masters@.len() - i,
    {
        proof {
            reveal(Seq::filter);
            assert(views(masters@).take(i + 1).drop_last() =~= views(masters@).take(i as int));
            assert(views(masters@).take(i + 1).last() == masters@[i as int]@);
        }
        let mut j: usize = 0;
        let mut hit: Option<usize> = None;
        while j < repos.len()
            invariant
                j <= repos@.len(),
                i < masters@.len(),
                hit matches Some(h) ==> h < repos@.len() && repos@[h as int]@ == masters@[i as int]@,
                hit is None ==> forall|k: int| 0 <= k < j ==> repos@[k]@ != masters@[i as int]@,
            decreases repos@.len() - j,
        {
            if hit.is_none() && str_eq(repos[j].as_str(), masters[i].as_str()) {
                hit = Some(j);
            }
            j = j + 1;
        }
        let ghost before = views(missing@);
        match hit {
            Some(h) => {
                assert(views(repos@)[h as int] == masters@[i as int]@);
                found.push(h);
            },
            None => {
                proof {
                    if views(repos@).contains(masters@[i as int]@) {
                        let k = choose|k: int|
                            0 <= k < views(repos@).len() && views(repos@)[k] == masters@[i as int]@;
                        assert(repos@[k]@ == masters@[i as int]@);
                    }
                }
                missing.push(masters[i].clone());
                assert(views(missing@) =~= before.push(masters@[i as int]@));
            },
        }
        i = i + 1;
    }
    assert(views(masters@).take(masters@.len() as int) =~= views(masters@));
    if missing.len() > 0 {
        let list = join_strings(&missing, ", ");
        let mut msg = String::from_str("nonexistent masters: ");
        msg.append(list.as_str());
        return Err(RepoError::NonexistentMasters(msg));
    }
    Ok(found)
}

/// What a repo knows of its masters: nothing until it is finalized, then the
/// positions of its masters among the configured repos, set once.
pub struct RepoMasters {
    masters: Option<Vec<usize>>,
}

impl RepoMasters {
    /// The masters' positions, once finalized.
    pub closed spec fn resolved(&self) -> Option<Seq<usize>> {
        match self.masters {
            Some(v) => Some(v@),
            None => None,
        }
    }

    /// A repo not yet finalized.
    pub fn new() -> (r: RepoMasters)
        ensures
            r.resolved() is None,
    {
        RepoMasters { masters: None }
    }

    /// Finalize the repo: resolve its masters against the ids of the
    /// configured ebuild repos.
    /// A repo already finalized stays as it is and the call succeeds. Else,
    /// when some master names no configured repo, the error names the
    /// missing ones and the repo stays unfinalized; otherwise the masters'
    /// positions are kept.
    pub fn finalize(&mut self, masters: &Vec<String>, repos: &Vec<String>) -> (r: Result<(), RepoError>)
        ensures
            old(self).resolved() is Some ==> r is Ok && final(self).resolved() == old(self).resolved(),
            old(self).resolved() is None ==> match r {
                Ok(()) => missing_masters(views(masters@), views(repos@)).len() == 0 && (final(self).resolved() matches Some(idx) && idx.len() == masters@.len() && forall|i: int|
                    0 <= i < idx.len() ==> #[trigger] idx[i] < repos@.len() && repos@[idx[i] as int]@
                        == masters@[i]@),
                Err(RepoError::NonexistentMasters(msg)) => final(self).resolved() is None
                    && missing_masters(views(masters@), views(repos@)).len() > 0 && msg@
                    == "nonexistent masters: "@ + join(
                    missing_masters(views(masters@), views(repos@)),
                    ", "@,
                ),
            },
    {
        if self.masters.is_some() {
            return Ok(());
        }
        match resolve_masters(masters, repos) {
            Ok(idx) => {
                self.masters = Some(idx);
                Ok(())
            },
            Err(e) => Err(e),
        }
    }

    /// The masters' positions, in order: none before the repo is finalized.
    pub fn masters(&self) -> (r: Vec<usize>)
        ensures
            r@ == match self.resolved() {
                Some(v) => v,
                None => Seq::<usize>::empty(),
            },
    {
        match &self.masters {
            Some(v) => v.clone(),
            None => Vec::new(),
        }
    }

    /// The repo's inheritance, in order: its masters, then the repo itself at
    /// position `own`.
    pub fn trees(&self, own: usize) -> (r: Vec<usize>)
        ensures
            r@ == match self.resolved() {
                Some(v) => v,
                None => Seq::<usize>::empty(),
            }.push(own),
    {
        let mut r = self.masters();
        r.push(own);
        r
    }
}

// ---------------------------------------------------------------------------
// paths

/// What `camino::Utf8Path::strip_prefix` gives for a path and a base: the
/// rest of the path when the base's components begin it.
pub uninterp spec fn stripped_path(path: Seq<char>, base: Seq<char>) -> Option<Seq<char>>;

/// The components `camino::Utf8Path::components` finds in a path, as text.
pub uninterp spec fn path_components(path: Seq<char>) -> Seq<Seq<char>>;

/// Calls `camino::Utf8Path::strip_prefix`. Claimed: the outcome depends on
/// the path and the base alone.
#[verifier::external_body]
pub(crate) fn strip_path_prefix(path: &str, base: &str) -> (r: Option<String>)
    ensures
        opt_str_view(r) == stripped_path(path@, base@),
{
    camino::Utf8Path::new(path).strip_prefix(base).ok().map(|p| p.as_str().to_string())
}

/// Calls `camino::Utf8Path::components`, keeping each component's text.
/// Claimed: the components depend on the path alone.
#[verifier::external_body]
pub(crate) fn components_of(path: &str) -> (r: Vec<String>)
    ensures
        views(r@) == path_components(path@),
{
    camino::Utf8Path::new(path).components().map(|c| c.as_str().to_string()).collect()
}

pub open spec fn opt_str_view(o: Option<String>) -> Option<Seq<char>> {
    match o {
        Some(s) => Some(s@),
        None => None,
    }
}

/// A path relative to the repo: the path with the repo path removed, or the
/// path itself when it lies elsewhere.
pub open spec fn repo_relpath(repo_path: Seq<char>, path: Seq<char>) -> Seq<char> {
    match stripped_path(path, repo_path) {
        Some(rel) => rel,
        None => path,
    }
}

/// Why an ebuild path names no package.
#[derive(Clone, Copy, PartialEq, Eq, Structural, Debug)]
pub enum EbuildPathError {
    /// Not `category/package/file`.
    MismatchedComponents,
    /// The file doesn't end in `.ebuild`.
    MissingExt,
    /// `category/file-stem` is not a versioned package.
    InvalidCpv,
    /// The package directory differs from the package name.
    MismatchedPackageDir,
}

/// The suffix `.ebuild`.
pub open spec fn ebuild_suffix() -> Seq<char> {
    seq!['.', 'e', 'b', 'u', 'i', 'l', 'd']
}

/// Whether a string ends with `.ebuild`.
pub open spec fn ends_with_ebuild(s: Seq<char>) -> bool {
    s.len() >= 7 && s.skip(s.len() - 7) == ebuild_suffix()
}

fn has_ebuild_suffix(s: &Vec<char>) -> (r: bool)
    ensures
        r == ends_with_ebuild(s@),
{
    let n = s.len();
    if n < 7 {
        return false;
    }
    let k = n - 7;
    let r = s[k] == '.' && s[k + 1] == 'e' && s[k + 2] == 'b' && s[k + 3] == 'u' && s[k + 4] == 'i'
        && s[k + 5] == 'l' && s[k + 6] == 'd';
    proof {
        if r {
            assert(s@.skip(k as int) =~= ebuild_suffix());
        } else {
            if s@.skip(k as int) == ebuild_suffix() {
                assert(s@.skip(k as int)[0] == s@[k as int]);
                assert(s@.skip(k as int)[1] == s@[k + 1]);
                assert(s@.skip(k as int)[2] == s@[k + 2]);
                assert(s@.skip(k as int)[3] == s@[k + 3]);
                assert(s@.skip(k as int)[4] == s@[k + 4]);
                assert(s@.skip(k as int)[5] == s@[k + 5]);
                assert(s@.skip(k as int)[6] == s@[k + 6]);
            }
        }
    }
    r
}

/// The outcome of reading an ebuild file name `file` found in the package
/// directory `pkg` of category `cat`: its category, package and version, read
/// from `cat/stem`.
pub open spec fn ebuild_outcome(cat: Seq<char>, pkg: Seq<char>, file: Seq<char>) -> Result<
    (Seq<char>, Seq<char>, VersionView),
    EbuildPathError,
> {
    if !ends_with_ebuild(file) {
        Err(EbuildPathError::MissingExt)
    } else {
        let s = cat + seq!['/'] + file.take(file.len() - 7);
        match cpv_split(s) {
            None => Err(EbuildPathError::InvalidCpv),
            Some((c, p)) => if s.subrange(c + 1, p) != pkg {
                Err(EbuildPathError::MismatchedPackageDir)
            } else {
                Ok((s.take(c), s.subrange(c + 1, p), version_view_at(s, p + 1).unwrap()))
            },
        }
    }
}

/// The outcome of mapping an ebuild path to a versioned package.
pub open spec fn cpv_path_outcome(repo_path: Seq<char>, path: Seq<char>) -> Result<
    (Seq<char>, Seq<char>, VersionView),
    EbuildPathError,
> {
    let comps = path_components(repo_relpath(repo_path, path));
    if comps.len() != 3 {
        Err(EbuildPathError::MismatchedComponents)
    } else {
        ebuild_outcome(comps[0], comps[1], comps[2])
    }
}

/// Read the versioned package an ebuild file name holds, given its category
/// and package directory.
pub fn ebuild_cpv(cat: &str, pkg: &str, file: &str) -> (r: Result<Cpv, EbuildPathError>)
    ensures
        match r {
            Ok(c) => ebuild_outcome(cat@, pkg@, file@) == Ok::<
                (Seq<char>, Seq<char>, VersionView),
                EbuildPathError,
            >((c.category@, c.package@, c.version@)) && version_wf(c.version@),
            Err(e) => ebuild_outcome(cat@, pkg@, file@) == Err::<
                (Seq<char>, Seq<char>, VersionView),
                EbuildPathError,
            >(e),
        },
{
    let fc = chars_of(file);
    if !has_ebuild_suffix(&fc) {
        return Err(EbuildPathError::MissingExt);
    }
    let stem = string_from(&fc, 0, fc.len() - 7);
    let mut s = String::from_str(cat);
    s.append("/");
    s.append(stem.as_str());
    proof {
        reveal_strlit("/");
        assert("/"@ =~= seq!['/']);
        assert(fc@.subrange(0, fc@.len() - 7) =~= fc@.take(fc@.len() - 7));
    }
    let c = match cpv(s.as_str()) {
        Ok(c) => c,
        Err(_) => return Err(EbuildPathError::InvalidCpv),
    };
    if !str_eq(c.package.as_str(), pkg) {
        return Err(EbuildPathError::MismatchedPackageDir);
    }
    Ok(c)
}

/// Convert an ebuild file path into the versioned package it holds.
pub fn cpv_from_path(repo_path: &str, path: &str) -> (r: Result<Cpv, EbuildPathError>)
    ensures
        match r {
            Ok(c) => cpv_path_outcome(repo_path@, path@) == Ok::<
                (Seq<char>, Seq<char>, VersionView),
                EbuildPathError,
            >((c.category@, c.package@, c.version@)) && version_wf(c.version@),
            Err(e) => cpv_path_outcome(repo_path@, path@) == Err::<
                (Seq<char>, Seq<char>, VersionView),
                EbuildPathError,
            >(e),
        },
{
    let rel = match strip_path_prefix(path, repo_path) {
        Some(rel) => rel,
        None => String::from_str(path),
    };
    let comps = components_of(rel.as_str());
    if comps.len() != 3 {
        return Err(EbuildPathError::MismatchedComponents);
    }
    assert(views(comps@)[0] == comps@[0]@ && views(comps@)[1] == comps@[1]@ && views(comps@)[2]
        == comps@[2]@);
    ebuild_cpv(comps[0].as_str(), comps[1].as_str(), comps[2].as_str())
}

// ---------------------------------------------------------------------------
// directory entries

/// Hidden entries begin with a dot.
pub open spec fn hidden(name: Seq<char>) -> bool {
    name.len() > 0 && name[0] == '.'
}

/// Whether a directory entry is hidden.
pub fn is_hidden(name: &str) -> (r: bool)
    ensures
        r == hidden(name@),
{
    let cs = chars_of(name);
    cs.len() > 0 && cs[0] == '.'
}

/// The position of the last dot in a name, when there is one.
pub open spec fn last_dot(name: Seq<char>) -> Option<int>
    decreases name.len(),
{
    if name.len() == 0 {
        None
    } else if name.last() == '.' {
        Some(name.len() - 1)
    } else {
        last_dot(name.drop_last())
    }
}

proof fn lemma_last_dot(name: Seq<char>)
    ensures
        last_dot(name) matches Some(k) ==> 0 <= k < name.len() && name[k] == '.' && forall|j: int|
            k < j < name.len() ==> name[j] != '.',
        last_dot(name) is None ==> forall|j: int| 0 <= j < name.len() ==> name[j] != '.',
    decreases name.len(),
{
    if name.len() > 0 && name.last() != '.' {
        lemma_last_dot(name.drop_last());
        assert forall|j: int| 0 <= j < name.len() - 1 implies name[j] == name.drop_last()[j] by {}
    }
}

/// The extension of a directory entry's name: what follows its last dot,
/// unless that dot begins the name.
pub open spec fn extension(name: Seq<char>) -> Option<Seq<char>> {
    match last_dot(name) {
        Some(k) => if k > 0 {
            Some(name.skip(k + 1))
        } else {
            None
        },
        None => None,
    }
}

/// The stem of a directory entry's name: what precedes its last dot, unless
/// that dot begins the name.
pub open spec fn file_stem(name: Seq<char>) -> Seq<char> {
    match last_dot(name) {
        Some(k) => if k > 0 {
            name.take(k)
        } else {
            name
        },
        None => name,
    }
}

/// The position of the last dot, found by scanning.
fn find_last_dot(cs: &Vec<char>) -> (r: Option<usize>)
    ensures
        match r {
            Some(k) => last_dot(cs@) == Some(k as int),
            None => last_dot(cs@) is None,
        },
{
    let mut n = cs.len();
    assert(cs@.take(n as int) =~= cs@);
    while n > 0
        invariant
            n <= cs@.len(),
            last_dot(cs@) == last_dot(cs@.take(n as int)),
            forall|j: int| n <= j < cs@.len() ==> cs@[j] != '.',
        decreases n,
    {
        let ghost t = cs@.take(n as int);
        assert(t.last() == cs@[n - 1]);
        assert(t.drop_last() =~= cs@.take(n - 1));
        if cs[n - 1] == '.' {
            return Some(n - 1);
        }
        n = n - 1;
    }
    None
}

/// Whether an entry's extension is `ebuild`.
pub open spec fn ebuild_file(name: Seq<char>) -> bool {
    extension(name) == Some(seq!['e', 'b', 'u', 'i', 'l', 'd'])
}

/// The versions a package directory's entries hold: each entry is a name and
/// whether it is a file.
pub open spec fn candidate(entry: (Seq<char>, bool)) -> bool {
    entry.1 && !hidden(entry.0) && ebuild_file(entry.0)
}

/// The version text of a candidate for package `pn`: the stem after
/// `pn` and one more character, when the stem begins with `pn`.
pub open spec fn version_text(pn: Seq<char>, name: Seq<char>) -> Option<Seq<char>> {
    let pf = file_stem(name);
    if pf.take(pn.len() as int) == pn {
        Some(pf.skip(pn.len() as int + 1))
    } else {
        None
    }
}

/// A candidate whose stem would be cut out of range: shorter than the
/// package name, or equal to it.
pub open spec fn cut_out_of_range(pn: Seq<char>, name: Seq<char>) -> bool {
    let pf = file_stem(name);
    pf.len() < pn.len() || (pf.take(pn.len() as int) == pn && pf.len() == pn.len())
}

/// The versions found among entries: the valid version texts of candidates.
pub open spec fn found_version(pn: Seq<char>, entry: (Seq<char>, bool), v: VersionView) -> bool {
    &&& candidate(entry)
    &&& version_text(pn, entry.0) matches Some(t)
    &&& version_view_at(t, 0) == Some(v)
    &&& v.text == t
}

/// An entry as a name and whether it is a file.
pub open spec fn entry_view(entries: Seq<(String, bool)>, j: int) -> (Seq<char>, bool) {
    (entries[j].0@, entries[j].1)
}

/// Version `a` sorts before version `b`.
#[verifier::opaque]
pub open spec fn precedes(a: VersionView, b: VersionView) -> bool {
    version_order(a, b) == Order::Less
}

/// Versions `a` and `b` compare equal.
#[verifier::opaque]
pub open spec fn same_version(a: VersionView, b: VersionView) -> bool {
    version_order(a, b) == Order::Equal
}

/// A well-formed version value.
#[verifier::opaque]
pub open spec fn well_formed(v: VersionView) -> bool {
    version_wf(v)
}

/// Versions in strictly increasing order.
pub open spec fn ascending(v: Seq<VersionView>) -> bool {
    forall|i: int| 0 <= i < v.len() - 1 ==> precedes(#[trigger] v[i], v[i + 1])
}

/// The values of a list of versions.
pub open spec fn vviews(v: Seq<Version>) -> Seq<VersionView> {
    v.map_values(|x: Version| x@)
}

/// Every version of a list is well formed.
pub open spec fn all_wf(v: Seq<VersionView>) -> bool {
    forall|i: int| 0 <= i < v.len() ==> well_formed(#[trigger] v[i])
}

/// Some version of a list equals `x`.
pub open spec fn has_equal(v: Seq<VersionView>, x: VersionView) -> bool {
    exists|i: int| 0 <= i < v.len() && same_version(#[trigger] v[i], x)
}

/// Where a version belongs in a strictly increasing list: the index of the
/// first entry it does not exceed, and whether that entry equals it.
fn insert_position(out: &Vec<Version>, v: &Version) -> (r: (usize, bool))
    requires
        all_wf(vviews(out@)),
        version_wf(v@),
    ensures
        r.0 <= out@.len(),
        r.0 > 0 ==> precedes(vviews(out@)[r.0 - 1], v@),
        r.1 ==> r.0 < out@.len() && same_version(vviews(out@)[r.0 as int], v@),
        !r.1 && r.0 < out@.len() ==> precedes(v@, vviews(out@)[r.0 as int]),
{
    let ghost s = vviews(out@);
    let mut j: usize = 0;
    while j < out.len()
        invariant
            j <= out@.len(),
            s == vviews(out@),
            all_wf(s),
            version_wf(v@),
            j > 0 ==> precedes(s[j - 1], v@),
        decreases out@.len() - j,
    {
        assert(s[j as int] == out@[j as int]@);
        assert(well_formed(s[j as int]));
        assert(version_wf(s[j as int])) by {
            reveal(well_formed);
        }
        let c = compare_versions(v, &out[j]);
        proof {
            lemma_version_order_flip(v@, s[j as int]);
        }
        match c {
            Order::Greater => {
                assert(precedes(s[j as int], v@)) by {
                    reveal(precedes);
                }
                j = j + 1;
            },
            Order::Equal => {
                assert(same_version(s[j as int], v@)) by {
                    reveal(same_version);
                }
                return (j, true);
            },
            Order::Less => {
                assert(precedes(v@, s[j as int])) by {
                    reveal(precedes);
                }
                return (j, false);
            },
        }
    }
    (j, false)
}

/// Insert a version into a strictly increasing list unless an equal one is
/// there.
fn insert_version(out: &mut Vec<Version>, v: Version)
    requires
        ascending(vviews(old(out)@)),
        all_wf(vviews(old(out)@)),
        version_wf(v@),
    ensures
        ascending(vviews(final(out)@)),
        all_wf(vviews(final(out)@)),
        has_equal(vviews(final(out)@), v@),
        vviews(final(out)@) == vviews(old(out)@) || exists|k: int|
            0 <= k <= old(out)@.len() && vviews(final(out)@) == vviews(old(out)@).insert(k, v@),
{
    let ghost before = vviews(out@);
    let (j, equal) = insert_position(out, &v);
    if equal {
        assert(same_version(before[j as int], v@));
        return;
    }
    let ghost vv = v@;
    assert(same_version(vv, vv) && well_formed(vv)) by {
        reveal(same_version);
        reveal(well_formed);
        lemma_version_order_flip(vv, vv);
    }
    out.insert(j, v);
    proof {
        let now = vviews(out@);
        assert(now =~= before.insert(j as int, vv));
        lemma_insert_ascending(before, j as int, vv);
    }
}

/// Inserting a version between its neighbours keeps a list increasing and
/// well formed.
proof fn lemma_insert_ascending(before: Seq<VersionView>, j: int, vv: VersionView)
    requires
        0 <= j <= before.len(),
        ascending(before),
        all_wf(before),
        well_formed(vv),
        j > 0 ==> precedes(before[j - 1], vv),
        j < before.len() ==> precedes(vv, before[j]),
        same_version(vv, vv),
    ensures
        ascending(before.insert(j, vv)),
        all_wf(before.insert(j, vv)),
        has_equal(before.insert(j, vv), vv),
{
    let now = before.insert(j, vv);
    assert forall|i: int| 0 <= i < now.len() - 1 implies precedes(#[trigger] now[i], now[i + 1]) by {
        if i + 1 < j {
            assert(now[i] == before[i] && now[i + 1] == before[i + 1]);
        } else if i + 1 == j {
            assert(now[i] == before[i]);
        } else if i == j {
            assert(now[i + 1] == before[i]);
        } else {
            assert(now[i] == before[i - 1] && now[i + 1] == before[i]);
        }
    }
    assert forall|i: int| 0 <= i < now.len() implies well_formed(#[trigger] now[i]) by {
        if i < j {
            assert(now[i] == before[i]);
        } else if i > j {
            assert(now[i] == before[i - 1]);
        }
    }
    assert(now[j] == vv);
}

/// The version a directory entry holds for package `pn`, if any.
fn entry_version(pnc: &Vec<char>, name: &String, is_file: bool) -> (r: Option<Version>)
    requires
        candidate((name@, is_file)) ==> !cut_out_of_range(pnc@, name@),
    ensures
        match r {
            Some(v) => found_version(pnc@, (name@, is_file), v@) && version_wf(v@),
            None => forall|v: VersionView| !found_version(pnc@, (name@, is_file), v),
        },
{
    let cs = chars_of(name.as_str());
    let dot = find_last_dot(&cs);
    proof {
        lemma_last_dot(cs@);
    }
    if !(is_file && !(cs.len() > 0 && cs[0] == '.')) {
        return None;
    }
    let k = match dot {
        Some(k) => k,
        None => return None,
    };
    if !(k > 0 && cs.len() - k == 7 && cs[k + 1] == 'e' && cs[k + 2] == 'b' && cs[k + 3] == 'u'
        && cs[k + 4] == 'i' && cs[k + 5] == 'l' && cs[k + 6] == 'd') {
        proof {
            if k > 0 && cs@.skip(k + 1) == seq!['e', 'b', 'u', 'i', 'l', 'd'] {
                assert(cs@.skip(k + 1).len() == 6);
                assert(cs@.skip(k + 1)[0] == cs@[k + 1]);
                assert(cs@.skip(k + 1)[1] == cs@[k + 2]);
                assert(cs@.skip(k + 1)[2] == cs@[k + 3]);
                assert(cs@.skip(k + 1)[3] == cs@[k + 4]);
                assert(cs@.skip(k + 1)[4] == cs@[k + 5]);
                assert(cs@.skip(k + 1)[5] == cs@[k + 6]);
            }
        }
        return None;
    }
    assert(cs@.skip(k + 1) =~= seq!['e', 'b', 'u', 'i', 'l', 'd']);
    assert(candidate((name@, is_file)));
    let pf = string_from(&cs, 0, k);
    let pfc = chars_of(pf.as_str());
    assert(pfc@ =~= file_stem(name@));
    let n = pnc.len();
    let mut m: usize = 0;
    while m < n && pfc[m] == pnc[m]
        invariant
            m <= n,
            n == pnc@.len(),
            n <= pfc@.len(),
            forall|q: int| 0 <= q < m ==> pfc@[q] == pnc@[q],
        decreases n - m,
    {
        m = m + 1;
    }
    if m < n {
        assert(pfc@.take(n as int)[m as int] != pnc@[m as int]);
        return None;
    }
    assert(pfc@.take(n as int) =~= pnc@);
    let t = string_from(&pfc, n + 1, pfc.len());
    assert(t@ =~= pfc@.skip(n + 1));
    let tc = chars_of(t.as_str());
    match crate::version::parse_version_at(&tc, 0) {
        Some((v, end)) => {
            if end == tc.len() {
                proof {
                    lemma_version_view_wf(tc@, 0);
                    assert(tc@.subrange(0, end as int) =~= tc@);
                }
                Some(v)
            } else {
                None
            }
        },
        None => None,
    }
}

/// Whether some version of a list equals `v`.
fn has_equal_exec(out: &Vec<Version>, v: &Version) -> (r: bool)
    requires
        all_wf(vviews(out@)),
        version_wf(v@),
    ensures
        r == has_equal(vviews(out@), v@),
{
    let ghost s = vviews(out@);
    let mut i: usize = 0;
    while i < out.len()
        invariant
            i <= out@.len(),
            s == vviews(out@),
            all_wf(s),
            version_wf(v@),
            forall|k: int| 0 <= k < i ==> !same_version(#[trigger] s[k], v@),
        decreases out@.len() - i,
    {
        assert(s[i as int] == out@[i as int]@);
        assert(version_wf(s[i as int])) by {
            assert(well_formed(s[i as int]));
            reveal(well_formed);
        }
        if compare_versions(&out[i], v) == Order::Equal {
            assert(same_version(s[i as int], v@)) by {
                reveal(same_version);
            }
            return true;
        }
        assert(!same_version(s[i as int], v@)) by {
            reveal(same_version);
        }
        i = i + 1;
    }
    false
}

/// Entry `j` holds version `x`, and no earlier entry holds a version equal
/// to it: it is the first entry with that version.
pub open spec fn first_holder(pn: Seq<char>, entries: Seq<(String, bool)>, j: int, x: VersionView) -> bool {
    &&& 0 <= j < entries.len()
    &&& found_version(pn, entry_view(entries, j), x)
    &&& forall|k: int, w: VersionView|
        0 <= k < j && #[trigger] found_version(pn, entry_view(entries, k), w) ==> !same_version(w, x)
}

/// A version found in an entry is well formed.
proof fn lemma_found_wf(pn: Seq<char>, entry: (Seq<char>, bool), v: VersionView)
    requires
        found_version(pn, entry, v),
    ensures
        version_wf(v),
{
    let t = version_text(pn, entry.0).unwrap();
    lemma_version_view_wf(t, 0);
}

/// The versions in a package directory, given its entries as names and
/// whether each is a file: the files named `<pn>?<version>.ebuild` that are
/// not hidden and hold a valid version, in increasing order, each version
/// once (equal versions such as `1.0` and `1.00` count once, as the version
/// of the first entry that holds one of them).
pub fn versions(pn: &str, entries: &Vec<(String, bool)>) -> (r: Vec<Version>)
    requires
        forall|i: int|
            0 <= i < entries@.len() && candidate(#[trigger] entry_view(entries@, i)) ==> !cut_out_of_range(
                pn@,
                entries@[i].0@,
            ),
    ensures
        ascending(vviews(r@)),
        forall|x: VersionView|
            vviews(r@).contains(x) ==> exists|j: int|
                0 <= j < entries@.len() && #[trigger] found_version(pn@, entry_view(entries@, j), x),
        forall|j: int, v: VersionView|
            0 <= j < entries@.len() && #[trigger] found_version(pn@, entry_view(entries@, j), v) ==> has_equal(
                vviews(r@),
                v,
            ),
        forall|x: VersionView|
            vviews(r@).contains(x) ==> exists|j: int| #[trigger] first_holder(pn@, entries@, j, x),
{
    let pnc = chars_of(pn);
    let mut out: Vec<Version> = Vec::new();
    let mut e: usize = 0;
    assert(vviews(out@) =~= Seq::<VersionView>::empty());
    while e < entries.len()
        invariant
            e <= entries@.len(),
            pnc@ == pn@,
            forall|i: int|
                0 <= i < entries@.len() && candidate(#[trigger] entry_view(entries@, i)) ==> !cut_out_of_range(
                    pn@,
                    entries@[i].0@,
                ),
            ascending(vviews(out@)),
            all_wf(vviews(out@)),
            forall|x: VersionView|
                vviews(out@).contains(x) ==> exists|j: int|
                    0 <= j < entries@.len() && #[trigger] found_version(pn@, entry_view(entries@, j), x),
            forall|j: int, v: VersionView|
                0 <= j < e && #[trigger] found_version(pn@, entry_view(entries@, j), v) ==> has_equal(
                    vviews(out@),
                    v,
                ),
            forall|x: VersionView|
                vviews(out@).contains(x) ==> exists|j: int| j < e && #[trigger] first_holder(pn@, entries@, j, x),
        decreases entries@.len() - e,
    {
        assert(entry_view(entries@, e as int) == (entries@[e as int].0@, entries@[e as int].1));
        let parsed = entry_version(&pnc, &entries[e].0, entries[e].1);
        let ghost before = vviews(out@);
        match parsed {
            Some(v) => {
                let ghost vv = v@;
                if has_equal_exec(&out, &v) {
                    proof {
                        assert forall|j: int, w: VersionView|
                            0 <= j < e + 1 && #[trigger] found_version(pn@, entry_view(entries@, j), w) implies has_equal(
                            before,
                            w,
                        ) by {
                            if j == e {
                                lemma_found_unique(pn@, entry_view(entries@, j), vv, w);
                            }
                        }
                        assert forall|x: VersionView| before.contains(x) implies exists|j: int|
                            j < e + 1 && #[trigger] first_holder(pn@, entries@, j, x) by {
                            let j = choose|j: int| j < e && #[trigger] first_holder(pn@, entries@, j, x);
                        }
                    }
                    e = e + 1;
                    continue;
                }
                proof {
                    assert forall|k: int, w: VersionView|
                        0 <= k < e && #[trigger] found_version(pn@, entry_view(entries@, k), w) implies !same_version(
                        w,
                        vv,
                    ) by {
                        if same_version(w, vv) {
                            assert(has_equal(before, w));
                            let i = choose|i: int| 0 <= i < before.len() && same_version(before[i], w);
                            lemma_found_wf(pn@, entry_view(entries@, k), w);
                            assert(well_formed(before[i]));
                            assert(version_wf(before[i])) by {
                                reveal(well_formed);
                            }
                            assert(same_version(before[i], vv)) by {
                                reveal(same_version);
                                lemma_version_order_flip(w, vv);
                                lemma_version_equal_trans(before[i], w, vv);
                            }
                            assert(has_equal(before, vv));
                        }
                    }
                    assert(first_holder(pn@, entries@, e as int, vv));
                }
                insert_version(&mut out, v);
                proof {
                    let now = vviews(out@);
                    assert forall|x: VersionView| now.contains(x) implies exists|j: int|
                        j < e + 1 && #[trigger] first_holder(pn@, entries@, j, x) by {
                        if x == vv {
                            assert(first_holder(pn@, entries@, e as int, vv));
                        } else if now != before {
                            let k = choose|k: int|
                                0 <= k <= before.len() && now == before.insert(k, vv);
                            let i = choose|i: int| 0 <= i < now.len() && now[i] == x;
                            if i < k {
                                assert(before[i] == x);
                            } else {
                                assert(before[i - 1] == x);
                            }
                            assert(before.contains(x));
                            let j = choose|j: int| j < e && #[trigger] first_holder(pn@, entries@, j, x);
                        } else {
                            let j = choose|j: int| j < e && #[trigger] first_holder(pn@, entries@, j, x);
                        }
                    }
                }
                proof {
                    let now = vviews(out@);
                    assert forall|x: VersionView| now.contains(x) implies exists|j: int|
                        0 <= j < entries@.len() && #[trigger] found_version(pn@, entry_view(entries@, j), x) by {
                        if x == vv {
                            assert(found_version(pn@, entry_view(entries@, e as int), x));
                        } else if now != before {
                            let k = choose|k: int|
                                0 <= k <= before.len() && now == before.insert(k, vv);
                            let i = choose|i: int| 0 <= i < now.len() && now[i] == x;
                            if i < k {
                                assert(before[i] == x);
                            } else {
                                assert(before[i - 1] == x);
                            }
                            assert(before.contains(x));
                        }
                    }
                    assert forall|j: int, w: VersionView|
                        0 <= j < e + 1 && #[trigger] found_version(pn@, entry_view(entries@, j), w) implies has_equal(
                        now,
                        w,
                    ) by {
                        if j == e {
                            assert(found_version(pn@, entry_view(entries@, j), vv));
                            lemma_found_unique(pn@, entry_view(entries@, j), vv, w);
                        } else {
                            assert(has_equal(before, w));
                            let i = choose|i: int| 0 <= i < before.len() && same_version(before[i], w);
                            if now != before {
                                let k = choose|k: int|
                                    0 <= k <= before.len() && now == before.insert(k, vv);
                                if i < k {
                                    assert(now[i] == before[i]);
                                } else {
                                    assert(now[i + 1] == before[i]);
                                }
                            }
                        }
                    }
                }
            },
            None => {
                proof {
                    assert forall|j: int, w: VersionView|
                        0 <= j < e + 1 && #[trigger] found_version(pn@, entry_view(entries@, j), w) implies has_equal(
                        before,
                        w,
                    ) by {
                        if j == e {
                            assert(!found_version(pn@, entry_view(entries@, j), w));
                        }
                    }
                    assert forall|x: VersionView| before.contains(x) implies exists|j: int|
                        j < e + 1 && #[trigger] first_holder(pn@, entries@, j, x) by {
                        let j = choose|j: int| j < e && #[trigger] first_holder(pn@, entries@, j, x);
                    }
                }
            },
        }
        e = e + 1;
    }
    out
}

/// An entry holds at most one version.
proof fn lemma_found_unique(pn: Seq<char>, entry: (Seq<char>, bool), a: VersionView, b: VersionView)
    requires
        found_version(pn, entry, a),
        found_version(pn, entry, b),
    ensures
        a == b,
{
}

// ---------------------------------------------------------------------------
// versioned packages of a package or category directory

/// The parts of a versioned package.
pub open spec fn cpv_view(c: Cpv) -> (Seq<char>, Seq<char>, VersionView) {
    (c.category@, c.package@, c.version@)
}

/// The parts of a list of versioned packages.
pub open spec fn cpv_views(v: Seq<Cpv>) -> Seq<(Seq<char>, Seq<char>, VersionView)> {
    v.map_values(|c: Cpv| cpv_view(c))
}

/// Versioned package `a` sorts before `b`.
#[verifier::opaque]
pub open spec fn cpv_precedes(
    a: (Seq<char>, Seq<char>, VersionView),
    b: (Seq<char>, Seq<char>, VersionView),
) -> bool {
    cpv_order(a, b) == Order::Less
}

/// Versioned packages `a` and `b` compare equal.
#[verifier::opaque]
pub open spec fn same_cpv(
    a: (Seq<char>, Seq<char>, VersionView),
    b: (Seq<char>, Seq<char>, VersionView),
) -> bool {
    cpv_order(a, b) == Order::Equal
}

/// A versioned package with a well-formed version.
#[verifier::opaque]
pub open spec fn cpv_wf(a: (Seq<char>, Seq<char>, VersionView)) -> bool {
    version_wf(a.2)
}

/// Versioned packages in strictly increasing order.
pub open spec fn cpvs_ascending(v: Seq<(Seq<char>, Seq<char>, VersionView)>) -> bool {
    forall|i: int| 0 <= i < v.len() - 1 ==> cpv_precedes(#[trigger] v[i], v[i + 1])
}

/// Every versioned package of a list has a well-formed version.
pub open spec fn cpvs_wf(v: Seq<(Seq<char>, Seq<char>, VersionView)>) -> bool {
    forall|i: int| 0 <= i < v.len() ==> cpv_wf(#[trigger] v[i])
}

/// Some versioned package of a list equals `x`.
pub open spec fn has_same_cpv(
    v: Seq<(Seq<char>, Seq<char>, VersionView)>,
    x: (Seq<char>, Seq<char>, VersionView),
) -> bool {
    exists|i: int| 0 <= i < v.len() && same_cpv(#[trigger] v[i], x)
}

/// The order of versioned packages is antisymmetric and reflexive.
pub(crate) proof fn lemma_cpv_order_flip(
    a: (Seq<char>, Seq<char>, VersionView),
    b: (Seq<char>, Seq<char>, VersionView),
)
    ensures
        cpv_order(a, b) == flip(cpv_order(b, a)),
        cpv_order(a, a) == Order::Equal,
{
    lemma_seq_order_flip(a.0, b.0);
    lemma_seq_order_flip(a.1, b.1);
    lemma_seq_order_flip(a.0, a.0);
    lemma_seq_order_flip(a.1, a.1);
    lemma_version_order_flip(a.2, b.2);
    lemma_version_order_flip(a.2, a.2);
    lemma_chain_flip(
        seq_order(a.1, b.1),
        version_order(a.2, b.2),
        seq_order(b.1, a.1),
        version_order(b.2, a.2),
    );
    lemma_chain_flip(
        seq_order(a.0, b.0),
        chain(seq_order(a.1, b.1), version_order(a.2, b.2)),
        seq_order(b.0, a.0),
        chain(seq_order(b.1, a.1), version_order(b.2, a.2)),
    );
}

/// Where a versioned package belongs in a strictly increasing list: the
/// index of the first entry it does not exceed, and whether that entry equals
/// it.
fn cpv_position(out: &Vec<Cpv>, c: &Cpv) -> (r: (usize, bool))
    requires
        cpvs_wf(cpv_views(out@)),
        version_wf(c.version@),
    ensures
        r.0 <= out@.len(),
        r.0 > 0 ==> cpv_precedes(cpv_views(out@)[r.0 - 1], cpv_view(*c)),
        r.1 ==> r.0 < out@.len() && same_cpv(cpv_views(out@)[r.0 as int], cpv_view(*c)),
        !r.1 && r.0 < out@.len() ==> cpv_precedes(cpv_view(*c), cpv_views(out@)[r.0 as int]),
{
    let ghost s = cpv_views(out@);
    let ghost x = cpv_view(*c);
    let mut j: usize = 0;
    while j < out.len()
        invariant
            j <= out@.len(),
            s == cpv_views(out@),
            x == cpv_view(*c),
            cpvs_wf(s),
            version_wf(c.version@),
            j > 0 ==> cpv_precedes(s[j - 1], x),
        decreases out@.len() - j,
    {
        assert(s[j as int] == cpv_view(out@[j as int]));
        assert(cpv_wf(s[j as int]));
        assert(version_wf(out@[j as int].version@)) by {
            reveal(cpv_wf);
        }
        let o = compare_cpvs(c, &out[j]);
        proof {
            lemma_cpv_order_flip(x, s[j as int]);
        }
        match o {
            Order::Greater => {
                assert(cpv_precedes(s[j as int], x)) by {
                    reveal(cpv_precedes);
                }
                j = j + 1;
            },
            Order::Equal => {
                assert(same_cpv(s[j as int], x)) by {
                    reveal(same_cpv);
                }
                return (j, true);
            },
            Order::Less => {
                assert(cpv_precedes(x, s[j as int])) by {
                    reveal(cpv_precedes);
                }
                return (j, false);
            },
        }
    }
    (j, false)
}

/// Insert a versioned package into a strictly increasing list unless an
/// equal one is there.
fn insert_cpv(out: &mut Vec<Cpv>, c: Cpv)
    requires
        cpvs_ascending(cpv_views(old(out)@)),
        cpvs_wf(cpv_views(old(out)@)),
        version_wf(c.version@),
    ensures
        cpvs_ascending(cpv_views(final(out)@)),
        cpvs_wf(cpv_views(final(out)@)),
        has_same_cpv(cpv_views(final(out)@), cpv_view(c)),
        cpv_views(final(out)@) == cpv_views(old(out)@) || exists|k: int|
            0 <= k <= old(out)@.len() && cpv_views(final(out)@) == cpv_views(old(out)@).insert(
                k,
                cpv_view(c),
            ),
{
    let ghost before = cpv_views(out@);
    let ghost x = cpv_view(c);
    let (j, equal) = cpv_position(out, &c);
    if equal {
        assert(same_cpv(before[j as int], x));
        return;
    }
    assert(same_cpv(x, x) && cpv_wf(x)) by {
        reveal(same_cpv);
        reveal(cpv_wf);
        lemma_cpv_order_flip(x, x);
    }
    out.insert(j, c);
    proof {
        let now = cpv_views(out@);
        assert(now =~= before.insert(j as int, x));
        assert forall|i: int| 0 <= i < now.len() - 1 implies cpv_precedes(
            #[trigger] now[i],
            now[i + 1],
        ) by {
            if i + 1 < j {
                assert(now[i] == before[i] && now[i + 1] == before[i + 1]);
            } else if i + 1 == j {
                assert(now[i] == before[i]);
            } else if i == j {
                assert(now[i + 1] == before[i]);
            } else {
                assert(now[i] == before[i - 1] && now[i + 1] == before[i]);
            }
        }
        assert forall|i: int| 0 <= i < now.len() implies cpv_wf(#[trigger] now[i]) by {
            if i < j {
                assert(now[i] == before[i]);
            } else if i > j {
                assert(now[i] == before[i - 1]);
            }
        }
        assert(now[j as int] == x);
    }
}

/// The versioned package an ebuild path holds, if any.
pub open spec fn path_cpv(
    repo_path: Seq<char>,
    path: Seq<char>,
    x: (Seq<char>, Seq<char>, VersionView),
) -> bool {
    cpv_path_outcome(repo_path, path) == Ok::<(Seq<char>, Seq<char>, VersionView), EbuildPathError>(
        x,
    )
}

/// Insert the versioned packages that a list of ebuild paths holds.
fn insert_path_cpvs(out: &mut Vec<Cpv>, repo_path: &str, paths: &Vec<String>)
    requires
        cpvs_ascending(cpv_views(old(out)@)),
        cpvs_wf(cpv_views(old(out)@)),
    ensures
        cpvs_ascending(cpv_views(final(out)@)),
        cpvs_wf(cpv_views(final(out)@)),
        forall|x: (Seq<char>, Seq<char>, VersionView)|
            cpv_views(final(out)@).contains(x) ==> cpv_views(old(out)@).contains(x) || exists|j: int|
                0 <= j < paths@.len() && #[trigger] path_cpv(repo_path@, paths@[j]@, x),
        forall|x: (Seq<char>, Seq<char>, VersionView)|
            has_same_cpv(cpv_views(old(out)@), x) ==> has_same_cpv(cpv_views(final(out)@), x),
        forall|j: int, x: (Seq<char>, Seq<char>, VersionView)|
            0 <= j < paths@.len() && #[trigger] path_cpv(repo_path@, paths@[j]@, x) ==> has_same_cpv(
                cpv_views(final(out)@),
                x,
            ),
{
    let ghost start = cpv_views(out@);
    let mut e: usize = 0;
    while e < paths.len()
        invariant
            e <= paths@.len(),
            cpvs_ascending(cpv_views(out@)),
            cpvs_wf(cpv_views(out@)),
            forall|x: (Seq<char>, Seq<char>, VersionView)|
                cpv_views(out@).contains(x) ==> start.contains(x) || exists|j: int|
                    0 <= j < paths@.len() && #[trigger] path_cpv(repo_path@, paths@[j]@, x),
            forall|x: (Seq<char>, Seq<char>, VersionView)|
                has_same_cpv(start, x) ==> has_same_cpv(cpv_views(out@), x),
            forall|j: int, x: (Seq<char>, Seq<char>, VersionView)|
                0 <= j < e && #[trigger] path_cpv(repo_path@, paths@[j]@, x) ==> has_same_cpv(
                    cpv_views(out@),
                    x,
                ),
        decreases paths@.len() - e,
    {
        let ghost before = cpv_views(out@);
        match cpv_from_path(repo_path, paths[e].as_str()) {
            Ok(c) => {
                let ghost x = cpv_view(c);
                assert(path_cpv(repo_path@, paths@[e as int]@, x));
                insert_cpv(out, c);
                proof {
                    let now = cpv_views(out@);
                    lemma_insert_keeps(before, now, x);
                    assert forall|y: (Seq<char>, Seq<char>, VersionView)| now.contains(y) implies start.contains(y)
                        || exists|j: int|
                        0 <= j < paths@.len() && #[trigger] path_cpv(repo_path@, paths@[j]@, y) by {
                        if y != x {
                            assert(before.contains(y));
                        }
                    }
                    assert forall|j: int, y: (Seq<char>, Seq<char>, VersionView)|
                        0 <= j < e + 1 && #[trigger] path_cpv(repo_path@, paths@[j]@, y) implies has_same_cpv(
                        now,
                        y,
                    ) by {
                        if j == e {
                            assert(y == x);
                        } else {
                            assert(has_same_cpv(before, y));
                        }
                    }
                }
            },
            Err(_) => {
                assert forall|j: int, y: (Seq<char>, Seq<char>, VersionView)|
                    0 <= j < e + 1 && #[trigger] path_cpv(repo_path@, paths@[j]@, y) implies has_same_cpv(
                    before,
                    y,
                ) by {
                    if j == e {
                        assert(!path_cpv(repo_path@, paths@[j]@, y));
                    }
                }
            },
        }
        e = e + 1;
    }
}

/// Inserting into a list, or leaving it as it is, keeps what it held.
proof fn lemma_insert_keeps(
    before: Seq<(Seq<char>, Seq<char>, VersionView)>,
    now: Seq<(Seq<char>, Seq<char>, VersionView)>,
    x: (Seq<char>, Seq<char>, VersionView),
)
    requires
        now == before || exists|k: int| 0 <= k <= before.len() && now == before.insert(k, x),
    ensures
        forall|y: (Seq<char>, Seq<char>, VersionView)| now.contains(y) ==> y == x || before.contains(y),
        forall|y: (Seq<char>, Seq<char>, VersionView)| has_same_cpv(before, y) ==> has_same_cpv(now, y),
{
    if now != before {
        let k = choose|k: int| 0 <= k <= before.len() && now == before.insert(k, x);
        assert forall|y: (Seq<char>, Seq<char>, VersionView)| now.contains(y) implies y == x
            || before.contains(y) by {
            let i = choose|i: int| 0 <= i < now.len() && now[i] == y;
            if i < k {
                assert(before[i] == y);
            } else if i > k {
                assert(before[i - 1] == y);
            }
        }
        assert forall|y: (Seq<char>, Seq<char>, VersionView)| has_same_cpv(before, y) implies has_same_cpv(
            now,
            y,
        ) by {
            let i = choose|i: int| 0 <= i < before.len() && same_cpv(before[i], y);
            if i < k {
                assert(now[i] == before[i]);
            } else {
                assert(now[i + 1] == before[i]);
            }
        }
    }
}

/// The versioned packages of a package directory, given the paths of its
/// entries: those whose path maps to a versioned package, in increasing
/// order, each once (equal versions such as `1.0` and `1.00` count once).
pub fn cpvs_from_package(repo_path: &str, paths: &Vec<String>) -> (r: Vec<Cpv>)
    ensures
        cpvs_ascending(cpv_views(r@)),
        forall|x: (Seq<char>, Seq<char>, VersionView)|
            cpv_views(r@).contains(x) ==> exists|j: int|
                0 <= j < paths@.len() && #[trigger] path_cpv(repo_path@, paths@[j]@, x),
        forall|j: int, x: (Seq<char>, Seq<char>, VersionView)|
            0 <= j < paths@.len() && #[trigger] path_cpv(repo_path@, paths@[j]@, x) ==> has_same_cpv(
                cpv_views(r@),
                x,
            ),
{
    let mut out: Vec<Cpv> = Vec::new();
    assert(cpv_views(out@) =~= Seq::<(Seq<char>, Seq<char>, VersionView)>::empty());
    insert_path_cpvs(&mut out, repo_path, paths);
    out
}

/// The versioned packages of a category directory, given the entry paths of
/// each of its package directories: all of them, in increasing order, each
/// once.
pub fn cpvs_from_category(repo_path: &str, packages: &Vec<Vec<String>>) -> (r: Vec<Cpv>)
    ensures
        cpvs_ascending(cpv_views(r@)),
        forall|x: (Seq<char>, Seq<char>, VersionView)|
            cpv_views(r@).contains(x) ==> exists|p: int, j: int|
                0 <= p < packages@.len() && 0 <= j < packages@[p]@.len() && #[trigger] path_cpv(
                    repo_path@,
                    packages@[p]@[j]@,
                    x,
                ),
        forall|p: int, j: int, x: (Seq<char>, Seq<char>, VersionView)|
            0 <= p < packages@.len() && 0 <= j < packages@[p]@.len() && #[trigger] path_cpv(
                repo_path@,
                packages@[p]@[j]@,
                x,
            ) ==> has_same_cpv(cpv_views(r@), x),
{
    let mut out: Vec<Cpv> = Vec::new();
    assert(cpv_views(out@) =~= Seq::<(Seq<char>, Seq<char>, VersionView)>::empty());
    let mut p: usize = 0;
    while p < packages.len()
        invariant
            p <= packages@.len(),
            cpvs_ascending(cpv_views(out@)),
            cpvs_wf(cpv_views(out@)),
            forall|x: (Seq<char>, Seq<char>, VersionView)|
                cpv_views(out@).contains(x) ==> exists|q: int, j: int|
                    0 <= q < packages@.len() && 0 <= j < packages@[q]@.len() && #[trigger] path_cpv(
                        repo_path@,
                        packages@[q]@[j]@,
                        x,
                    ),
            forall|q: int, j: int, x: (Seq<char>, Seq<char>, VersionView)|
                0 <= q < p && 0 <= j < packages@[q]@.len() && #[trigger] path_cpv(
                    repo_path@,
                    packages@[q]@[j]@,
                    x,
                ) ==> has_same_cpv(cpv_views(out@), x),
        decreases packages@.len() - p,
    {
        let ghost before = cpv_views(out@);
        let ghost pp = p as int;
        insert_path_cpvs(&mut out, repo_path, &packages[p]);
        proof {
            let now = cpv_views(out@);
            assert forall|x: (Seq<char>, Seq<char>, VersionView)| now.contains(x) implies exists|
                q: int,
                j: int,
            |
                0 <= q < packages@.len() && 0 <= j < packages@[q]@.len() && #[trigger] path_cpv(
                    repo_path@,
                    packages@[q]@[j]@,
                    x,
                ) by {
                if !before.contains(x) {
                    let j = choose|j: int|
                        0 <= j < packages@[pp]@.len() && #[trigger] path_cpv(
                            repo_path@,
                            packages@[pp]@[j]@,
                            x,
                        );
                    assert(path_cpv(repo_path@, packages@[pp]@[j]@, x));
                }
            }
        }
        p = p + 1;
    }
    out
}

// ---------------------------------------------------------------------------
// walking a whole repo

/// The category and package of each unversioned package of a repo, given its
/// categories and, for each, its packages: category by category, each
/// category's packages in turn.
pub open spec fn cpn_pairs(cats: Seq<Seq<char>>, pkgs: Seq<Seq<Seq<char>>>) -> Seq<(Seq<char>, Seq<char>)>
    decreases cats.len(),
{
    if cats.len() == 0 {
        Seq::empty()
    } else {
        cpn_pairs(cats.drop_last(), pkgs.drop_last()) + pkgs[cats.len() - 1].map_values(
            |p: Seq<char>| (cats.last(), p),
        )
    }
}

/// The category and package of each of a list of unversioned packages.
pub open spec fn cpn_views(v: Seq<Cpn>) -> Seq<(Seq<char>, Seq<char>)> {
    v.map_values(|c: Cpn| (c.category@, c.package@))
}

/// The package names of each category, as plain sequences.
pub open spec fn name_lists(v: Seq<Vec<String>>) -> Seq<Seq<Seq<char>>> {
    v.map_values(|l: Vec<String>| views(l@))
}

/// The order of unversioned packages: by category, then by package.
pub open spec fn cpn_order(a: (Seq<char>, Seq<char>), b: (Seq<char>, Seq<char>)) -> Order {
    chain(seq_order(a.0, b.0), seq_order(a.1, b.1))
}

/// Unversioned package `a` sorts before `b`.
#[verifier::opaque]
pub open spec fn cpn_precedes(a: (Seq<char>, Seq<char>), b: (Seq<char>, Seq<char>)) -> bool {
    cpn_order(a, b) == Order::Less
}

/// Unversioned packages in strictly increasing order.
pub open spec fn cpns_ascending(v: Seq<(Seq<char>, Seq<char>)>) -> bool {
    forall|i: int| 0 <= i < v.len() - 1 ==> cpn_precedes(#[trigger] v[i], v[i + 1])
}

proof fn lemma_cpn_order(a: (Seq<char>, Seq<char>), b: (Seq<char>, Seq<char>))
    ensures
        cpn_order(a, b) == flip(cpn_order(b, a)),
        cpn_order(a, b) == Order::Equal ==> a == b,
{
    lemma_seq_order_flip(a.0, b.0);
    lemma_seq_order_flip(a.1, b.1);
    lemma_chain_flip(seq_order(a.0, b.0), seq_order(a.1, b.1), seq_order(b.0, a.0), seq_order(b.1, a.1));
}

/// Insert an unversioned package into a strictly increasing list unless it
/// is there.
fn insert_cpn(out: &mut Vec<Cpn>, c: Cpn)
    requires
        cpns_ascending(cpn_views(old(out)@)),
    ensures
        cpns_ascending(cpn_views(final(out)@)),
        forall|x: (Seq<char>, Seq<char>)|
            cpn_views(final(out)@).contains(x) <==> (cpn_views(old(out)@).contains(x) || x == (
                c.category@,
                c.package@,
            )),
{
    let ghost before = cpn_views(out@);
    let ghost x = (c.category@, c.package@);
    let mut j: usize = 0;
    while j < out.len()
        invariant
            j <= out@.len(),
            before == cpn_views(out@),
            cpns_ascending(before),
            x == (c.category@, c.package@),
            j > 0 ==> cpn_precedes(before[j - 1], x),
        ensures
            j <= out@.len(),
            before == cpn_views(out@),
            cpns_ascending(before),
            j > 0 ==> cpn_precedes(before[j - 1], x),
            j < out@.len() ==> cpn_precedes(x, before[j as int]),
        decreases out@.len() - j,
    {
        assert(before[j as int] == (out@[j as int].category@, out@[j as int].package@));
        let o = chain_exec(
            string_order(&c.category, &out[j].category),
            string_order(&c.package, &out[j].package),
        );
        proof {
            lemma_cpn_order(x, before[j as int]);
        }
        match o {
            Order::Greater => {
                assert(cpn_precedes(before[j as int], x)) by {
                    reveal(cpn_precedes);
                }
                j = j + 1;
            },
            Order::Equal => {
                assert(before.contains(x)) by {
                    assert(before[j as int] == x);
                }
                return;
            },
            Order::Less => {
                assert(cpn_precedes(x, before[j as int])) by {
                    reveal(cpn_precedes);
                }
                break;
            },
        }
    }
    let ghost stop = j as int;
    out.insert(j, c);
    proof {
        let now = cpn_views(out@);
        assert(now =~= before.insert(stop, x));
        assert forall|i: int| 0 <= i < now.len() - 1 implies cpn_precedes(#[trigger] now[i], now[i + 1]) by {
            if i + 1 < stop {
                assert(now[i] == before[i] && now[i + 1] == before[i + 1]);
            } else if i + 1 == stop {
                assert(now[i] == before[i]);
            } else if i == stop {
                assert(now[i + 1] == before[i]);
            } else {
                assert(now[i] == before[i - 1] && now[i + 1] == before[i]);
            }
        }
        assert forall|y: (Seq<char>, Seq<char>)| now.contains(y) <==> (before.contains(y) || y == x) by {
            if now.contains(y) {
                let i = choose|i: int| 0 <= i < now.len() && now[i] == y;
                if i < stop {
                    assert(before[i] == y);
                } else if i > stop {
                    assert(before[i - 1] == y);
                }
            }
            if before.contains(y) {
                let i = choose|i: int| 0 <= i < before.len() && before[i] == y;
                if i < stop {
                    assert(now[i] == y);
                } else {
                    assert(now[i + 1] == y);
                }
            }
            if y == x {
                assert(now[stop] == x);
            }
        }
    }
}

/// The unversioned packages of a repo, given its categories and each
/// category's packages (as `categories` and `packages` give them): every
/// category/package pair, each once, sorted by category and then package.
pub fn cpn_walk(categories: &Vec<String>, packages: &Vec<Vec<String>>) -> (r: Vec<Cpn>)
    requires
        categories@.len() == packages@.len(),
    ensures
        cpns_ascending(cpn_views(r@)),
        forall|x: (Seq<char>, Seq<char>)|
            cpn_views(r@).contains(x) <==> cpn_pairs(views(categories@), name_lists(packages@)).contains(x),
{
    let ghost cats = views(categories@);
    let ghost pkgs = name_lists(packages@);
    let mut out: Vec<Cpn> = Vec::new();
    let mut c: usize = 0;
    assert(cpn_views(out@) =~= cpn_pairs(cats.take(0), pkgs.take(0)));
    while c < categories.len()
        invariant
            c <= categories@.len(),
            categories@.len() == packages@.len(),
            cats == views(categories@),
            pkgs == name_lists(packages@),
            cpns_ascending(cpn_views(out@)),
            forall|x: (Seq<char>, Seq<char>)|
                cpn_views(out@).contains(x) <==> cpn_pairs(cats.take(c as int), pkgs.take(c as int)).contains(x),
        decreases categories@.len() - c,
    {
        let list = &packages[c];
        let ghost start = cpn_pairs(cats.take(c as int), pkgs.take(c as int));
        let ghost block = pkgs[c as int].map_values(|p: Seq<char>| (cats[c as int], p));
        let mut i: usize = 0;
        while i < list.len()
            invariant
                c < categories@.len(),
                categories@.len() == packages@.len(),
                cats == views(categories@),
                pkgs == name_lists(packages@),
                list == &packages@[c as int],
                i <= list@.len(),
                block == pkgs[c as int].map_values(|p: Seq<char>| (cats[c as int], p)),
                cpns_ascending(cpn_views(out@)),
                forall|x: (Seq<char>, Seq<char>)|
                    cpn_views(out@).contains(x) <==> (start + block.take(i as int)).contains(x),
            decreases list@.len() - i,
        {
            let ghost before = cpn_views(out@);
            insert_cpn(&mut out, Cpn { category: categories[c].clone(), package: list[i].clone() });
            proof {
                assert(pkgs[c as int] == views(list@));
                assert(block[i as int] == (cats[c as int], list@[i as int]@));
                let t0 = start + block.take(i as int);
                let t1 = start + block.take(i + 1);
                assert(t1 =~= t0.push(block[i as int]));
                assert forall|y: (Seq<char>, Seq<char>)| cpn_views(out@).contains(y) <==> t1.contains(y) by {
                    if t1.contains(y) {
                        let k = choose|k: int| 0 <= k < t1.len() && t1[k] == y;
                        if k < t0.len() {
                            assert(t0[k] == y);
                        }
                    }
                    if t0.contains(y) {
                        let k = choose|k: int| 0 <= k < t0.len() && t0[k] == y;
                        assert(t1[k] == y);
                    }
                    assert(t1[t0.len() as int] == block[i as int]);
                }
            }
            i = i + 1;
        }
        proof {
            assert(pkgs[c as int] == views(list@));
            assert(block.take(list@.len() as int) =~= block);
            let ct = cats.take(c + 1);
            let pt = pkgs.take(c + 1);
            assert(ct.drop_last() =~= cats.take(c as int));
            assert(pt.drop_last() =~= pkgs.take(c as int));
            assert(ct.last() == cats[c as int]);
            assert(pt[c as int] == pkgs[c as int]);
            assert(cpn_pairs(ct, pt) =~= start + block);
        }
        c = c + 1;
    }
    assert(cats.take(categories@.len() as int) =~= cats);
    assert(pkgs.take(categories@.len() as int) =~= pkgs);
    out
}

/// Every versioned package of a repo, given, for each category, the entry
/// paths of each of its package directories: each once, in increasing order.
pub fn cpv_walk(repo_path: &str, categories: &Vec<Vec<Vec<String>>>) -> (r: Vec<Cpv>)
    ensures
        cpvs_ascending(cpv_views(r@)),
        forall|x: (Seq<char>, Seq<char>, VersionView)|
            cpv_views(r@).contains(x) ==> exists|c: int, p: int, j: int|
                0 <= c < categories@.len() && 0 <= p < categories@[c]@.len() && 0 <= j
                    < categories@[c]@[p]@.len() && #[trigger] path_cpv(
                    repo_path@,
                    categories@[c]@[p]@[j]@,
                    x,
                ),
        forall|c: int, p: int, j: int, x: (Seq<char>, Seq<char>, VersionView)|
            0 <= c < categories@.len() && 0 <= p < categories@[c]@.len() && 0 <= j
                < categories@[c]@[p]@.len() && #[trigger] path_cpv(
                repo_path@,
                categories@[c]@[p]@[j]@,
                x,
            ) ==> has_same_cpv(cpv_views(r@), x),
{
    let mut out: Vec<Cpv> = Vec::new();
    assert(cpv_views(out@) =~= Seq::<(Seq<char>, Seq<char>, VersionView)>::empty());
    let mut c: usize = 0;
    while c < categories.len()
        invariant
            c <= categories@.len(),
            cpvs_ascending(cpv_views(out@)),
            cpvs_wf(cpv_views(out@)),
            forall|x: (Seq<char>, Seq<char>, VersionView)|
                cpv_views(out@).contains(x) ==> exists|c2: int, p: int, j: int|
                    0 <= c2 < categories@.len() && 0 <= p < categories@[c2]@.len() && 0 <= j
                        < categories@[c2]@[p]@.len() && #[trigger] path_cpv(
                        repo_path@,
                        categories@[c2]@[p]@[j]@,
                        x,
                    ),
            forall|c2: int, p: int, j: int, x: (Seq<char>, Seq<char>, VersionView)|
                0 <= c2 < c && 0 <= p < categories@[c2]@.len() && 0 <= j
                    < categories@[c2]@[p]@.len() && #[trigger] path_cpv(
                    repo_path@,
                    categories@[c2]@[p]@[j]@,
                    x,
                ) ==> has_same_cpv(cpv_views(out@), x),
        decreases categories@.len() - c,
    {
        let packages = &categories[c];
        let ghost cc = c as int;
        let mut p: usize = 0;
        while p < packages.len()
            invariant
                c < categories@.len(),
                packages == &categories@[cc],
                cc == c,
                p <= packages@.len(),
                cpvs_ascending(cpv_views(out@)),
                cpvs_wf(cpv_views(out@)),
                forall|x: (Seq<char>, Seq<char>, VersionView)|
                    cpv_views(out@).contains(x) ==> exists|c2: int, p2: int, j: int|
                        0 <= c2 < categories@.len() && 0 <= p2 < categories@[c2]@.len() && 0 <= j
                            < categories@[c2]@[p2]@.len() && #[trigger] path_cpv(
                            repo_path@,
                            categories@[c2]@[p2]@[j]@,
                            x,
                        ),
                forall|c2: int, p2: int, j: int, x: (Seq<char>, Seq<char>, VersionView)|
                    ((0 <= c2 < c) || (c2 == c && 0 <= p2 < p)) && 0 <= p2 < categories@[c2]@.len() && 0 <= j
                        < categories@[c2]@[p2]@.len() && #[trigger] path_cpv(
                        repo_path@,
                        categories@[c2]@[p2]@[j]@,
                        x,
                    ) ==> has_same_cpv(cpv_views(out@), x),
            decreases packages@.len() - p,
        {
            let ghost before = cpv_views(out@);
            let ghost pp = p as int;
            insert_path_cpvs(&mut out, repo_path, &packages[p]);
            proof {
                let now = cpv_views(out@);
                assert forall|x: (Seq<char>, Seq<char>, VersionView)| now.contains(x) implies exists|
                    c2: int,
                    p2: int,
                    j: int,
                |
                    0 <= c2 < categories@.len() && 0 <= p2 < categories@[c2]@.len() && 0 <= j
                        < categories@[c2]@[p2]@.len() && #[trigger] path_cpv(
                        repo_path@,
                        categories@[c2]@[p2]@[j]@,
                        x,
                    ) by {
                    if !before.contains(x) {
                        let j = choose|j: int|
                            0 <= j < packages@[pp]@.len() && #[trigger] path_cpv(
                                repo_path@,
                                packages@[pp]@[j]@,
                                x,
                            );
                        assert(path_cpv(repo_path@, categories@[cc]@[pp]@[j]@, x));
                    }
                }
            }
            p = p + 1;
        }
        c = c + 1;
    }
    out
}

// ---------------------------------------------------------------------------
// categories and packages

/// The names of the entries that are package directories: directories, not
/// hidden, named as packages may be, in order.
pub open spec fn package_dirs(entries: Seq<(String, bool)>) -> Seq<Seq<char>>
    decreases entries.len(),
{
    if entries.len() == 0 {
        Seq::empty()
    } else {
        let rest = package_dirs(entries.drop_last());
        let (name, is_dir) = entries.last();
        if is_dir && !hidden(name@) && valid_package(name@) {
            rest.push(name@)
        } else {
            rest
        }
    }
}

/// The packages of a category, given the entries of its directory as names
/// and whether each is a directory: the package directories, each once,
/// sorted by name.
pub fn packages(entries: &Vec<(String, bool)>) -> (r: IndexSet<String>)
    ensures
        set_items(r).to_multiset() == added(Seq::empty(), package_dirs(entries@)).to_multiset(),
        set_items(r).no_duplicates(),
        sorted_items(set_items(r)),
{
    let mut set = set_new();
    let mut i: usize = 0;
    while i < entries.len()
        invariant
            i <= entries@.len(),
            set_items(set) == added(Seq::empty(), package_dirs(entries@.take(i as int))),
        decreases entries@.len() - i,
    {
        assert(entries@.take(i + 1).drop_last() =~= entries@.take(i as int));
        assert(entries@.take(i + 1).last() == entries@[i as int]);
        let name = &entries[i].0;
        let keep = entries[i].1 && !is_hidden(name.as_str()) && package(name.as_str()).is_ok();
        proof {
            let p0 = package_dirs(entries@.take(i as int));
            assert(p0.push(name@).drop_last() =~= p0);
        }
        if keep {
            set_insert(&mut set, name.clone());
        }
        i = i + 1;
    }
    assert(entries@.take(entries@.len() as int) =~= entries@);
    set_sort(&mut set);
    set
}

/// The names of the entries that are directories, in order.
pub open spec fn dir_names(entries: Seq<(String, bool)>) -> Seq<Seq<char>>
    decreases entries.len(),
{
    if entries.len() == 0 {
        Seq::empty()
    } else {
        let rest = dir_names(entries.drop_last());
        if entries.last().1 {
            rest.push(entries.last().0@)
        } else {
            rest
        }
    }
}

/// The entries of a list of lists, as plain sequences.
pub open spec fn nested<T>(lists: Seq<Vec<T>>) -> Seq<Seq<T>> {
    lists.map_values(|v: Vec<T>| v@)
}

/// Add each directory among the entries to a set, in order.
fn insert_dirs(set: &mut IndexSet<String>, entries: &Vec<(String, bool)>)
    ensures
        set_items(*final(set)) == added(set_items(*old(set)), dir_names(entries@)),
{
    let ghost start = set_items(*set);
    let mut i: usize = 0;
    while i < entries.len()
        invariant
            i <= entries@.len(),
            set_items(*set) == added(start, dir_names(entries@.take(i as int))),
        decreases entries@.len() - i,
    {
        assert(entries@.take(i + 1).drop_last() =~= entries@.take(i as int));
        assert(entries@.take(i + 1).last() == entries@[i as int]);
        proof {
            let d0 = dir_names(entries@.take(i as int));
            assert(d0.push(entries@[i as int].0@).drop_last() =~= d0);
        }
        if entries[i].1 {
            set_insert(set, entries[i].0.clone());
        }
        i = i + 1;
    }
    assert(entries@.take(entries@.len() as int) =~= entries@);
}

/// Adding the lists one after another adds their concatenation.
proof fn lemma_added_concat(start: Seq<Seq<char>>, a: Seq<Seq<char>>, b: Seq<Seq<char>>)
    ensures
        added(added(start, a), b) == added(start, a + b),
    decreases b.len(),
{
    if b.len() == 0 {
        assert(a + b =~= a);
    } else {
        lemma_added_concat(start, a, b.drop_last());
        assert((a + b).drop_last() =~= a + b.drop_last());
        assert((a + b).last() == b.last());
    }
}

/// The names of the directory entries of all the lists, in order.
pub open spec fn all_dir_names(lists: Seq<Seq<(String, bool)>>) -> Seq<Seq<char>>
    decreases lists.len(),
{
    if lists.len() == 0 {
        Seq::empty()
    } else {
        all_dir_names(lists.drop_last()) + dir_names(lists.last())
    }
}

/// The repo's categories, given the categories each tree of its inheritance
/// lists, in order, with whether the repo holds a directory for each: those
/// with a directory, each once, sorted by name.
pub fn categories(per_tree: &Vec<Vec<(String, bool)>>) -> (r: IndexSet<String>)
    ensures
        set_items(r).to_multiset() == added(Seq::empty(), all_dir_names(nested(per_tree@))).to_multiset(),
        set_items(r).no_duplicates(),
        sorted_items(set_items(r)),
{
    let mut set = set_new();
    let mut t: usize = 0;
    while t < per_tree.len()
        invariant
            t <= per_tree@.len(),
            set_items(set) == added(Seq::empty(), all_dir_names(nested(per_tree@.take(t as int)))),
        decreases per_tree@.len() - t,
    {
        insert_dirs(&mut set, &per_tree[t]);
        proof {
            let n0 = nested(per_tree@.take(t as int));
            let n1 = nested(per_tree@.take(t + 1));
            assert(n1.drop_last() =~= n0);
            assert(n1.last() == per_tree@[t as int]@);
            lemma_added_concat(Seq::empty(), all_dir_names(n0), dir_names(per_tree@[t as int]@));
        }
        t = t + 1;
    }
    assert(per_tree@.take(per_tree@.len() as int) =~= per_tree@);
    set_sort(&mut set);
    set
}

/// The names of all the lists, each once, in order.
pub open spec fn all_names(lists: Seq<Seq<String>>) -> Seq<Seq<char>>
    decreases lists.len(),
{
    if lists.len() == 0 {
        Seq::empty()
    } else {
        all_names(lists.drop_last()) + views(lists.last())
    }
}

/// The names gathered from the trees of a repo's inheritance (licenses,
/// arches and the like), each once, sorted by name.
pub fn merged_names(lists: &Vec<Vec<String>>) -> (r: IndexSet<String>)
    ensures
        set_items(r).to_multiset() == added(Seq::empty(), all_names(nested(lists@))).to_multiset(),
        set_items(r).no_duplicates(),
        sorted_items(set_items(r)),
{
    let mut set = set_new();
    let mut t: usize = 0;
    while t < lists.len()
        invariant
            t <= lists@.len(),
            set_items(set) == added(Seq::empty(), all_names(nested(lists@.take(t as int)))),
        decreases lists@.len() - t,
    {
        let ghost before = set_items(set);
        let list = &lists[t];
        let mut i: usize = 0;
        while i < list.len()
            invariant
                t < lists@.len(),
                list == &lists@[t as int],
                i <= list@.len(),
                set_items(set) == added(before, views(list@.take(i as int))),
            decreases list@.len() - i,
        {
            assert(views(list@.take(i + 1)).drop_last() =~= views(list@.take(i as int)));
            assert(views(list@.take(i + 1)).last() == list@[i as int]@);
            set_insert(&mut set, list[i].clone());
            i = i + 1;
        }
        proof {
            assert(list@.take(list@.len() as int) =~= list@);
            let n0 = nested(lists@.take(t as int));
            let n1 = nested(lists@.take(t + 1));
            assert(n1.drop_last() =~= n0);
            assert(n1.last() == lists@[t as int]@);
            lemma_added_concat(Seq::empty(), all_names(n0), views(lists@[t as int]@));
        }
        t = t + 1;
    }
    assert(lists@.take(lists@.len() as int) =~= lists@);
    set_sort(&mut set);
    set
}

// ---------------------------------------------------------------------------
// category descriptions

/// A child element of a category's `metadata.xml` root: its tag name, its
/// `lang` attribute and its text, where it has them.
pub struct XmlChild {
    pub tag: String,
    pub lang: Option<String>,
    pub text: Option<String>,
}

/// The description a child gives: its text with whitespace runs collapsed
/// to single spaces, when it is an English (the default language)
/// `longdescription` with text.
pub open spec fn child_description(c: XmlChild) -> Option<Seq<char>> {
    let lang = match c.lang {
        Some(l) => l@,
        None => seq!['e', 'n'],
    };
    if c.tag@ == seq!['l', 'o', 'n', 'g', 'd', 'e', 's', 'c', 'r', 'i', 'p', 't', 'i', 'o', 'n']
        && lang == seq!['e', 'n'] && c.text is Some {
        Some(join(words(c.text.unwrap()@), seq![' ']))
    } else {
        None
    }
}

/// The first description among the children.
pub open spec fn first_description(children: Seq<XmlChild>) -> Option<Seq<char>>
    decreases children.len(),
{
    if children.len() == 0 {
        None
    } else {
        match child_description(children[0]) {
            Some(d) => Some(d),
            None => first_description(children.drop_first()),
        }
    }
}

/// The description of a category from the children of its `metadata.xml`
/// root element.
pub fn category_description(children: &Vec<XmlChild>) -> (r: Option<String>)
    ensures
        opt_str_view(r) == first_description(children@),
{
    let mut i: usize = 0;
    assert(children@.skip(0) =~= children@);
    while i < children.len()
        invariant
            i <= children@.len(),
            first_description(children@) == first_description(children@.skip(i as int)),
        decreases children@.len() - i,
    {
        proof {
            reveal_strlit("longdescription");
            reveal_strlit("en");
            reveal_strlit(" ");
            assert("longdescription"@ =~= seq![
                'l', 'o', 'n', 'g', 'd', 'e', 's', 'c', 'r', 'i', 'p', 't', 'i', 'o', 'n',
            ]);
            assert("en"@ =~= seq!['e', 'n']);
            assert(" "@ =~= seq![' ']);
        }
        assert(children@.skip(i as int)[0] == children@[i as int]);
        assert(children@.skip(i as int).drop_first() =~= children@.skip(i + 1));
        let c = &children[i];
        let english = match &c.lang {
            Some(l) => str_eq(l.as_str(), "en"),
            None => true,
        };
        if str_eq(c.tag.as_str(), "longdescription") && english {
            match &c.text {
                Some(t) => {
                    let words = split_whitespace(t.as_str());
                    let d = join_strings(&words, " ");
                    return Some(d);
                },
                None => {},
            }
        }
        i = i + 1;
    }
    None
}

} // verus!
