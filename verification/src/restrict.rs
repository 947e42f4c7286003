//! How a restriction narrows a walk over a repo's packages, and the
//! restriction a path inside a repo stands for.
use vstd::prelude::*;

use crate::chars::views;
use crate::cpv::Cpv;
use crate::dep::Operator;
use crate::builtins::contains_str;
use crate::repo::{components_of, ebuild_cpv, ebuild_outcome, path_components, stripped_path, strip_path_prefix};
use crate::version::{Version, VersionView};

verus! {

/// A restriction on a name: an exact match, or any other kind of match
/// (globs, regexes and the like) that only a full scan can apply.
#[derive(Debug)]
pub enum StrMatch {
    Equal(String),
    Other,
}

/// The value of a [`StrMatch`].
pub enum MatchView {
    Equal(Seq<char>),
    Other,
}

impl View for StrMatch {
    type V = MatchView;

    open spec fn view(&self) -> MatchView {
        match self {
            StrMatch::Equal(s) => MatchView::Equal(s@),
            StrMatch::Other => MatchView::Other,
        }
    }
}

/// One conjunct of a restriction, as far as a walk over the repo reads it.
pub enum Part {
    /// A restriction on the category.
    Category(StrMatch),
    /// A restriction on the package name.
    Package(StrMatch),
    /// A restriction on the version: none, or a version with its operator.
    Version(Option<(Option<Operator>, Version)>),
    /// Anything else.
    Other,
}

/// The category restrictions among the conjuncts, in order.
pub open spec fn category_matches(parts: Seq<Part>) -> Seq<MatchView>
    decreases parts.len(),
{
    if parts.len() == 0 {
        Seq::empty()
    } else {
        let rest = category_matches(parts.drop_last());
        match parts.last() {
            Part::Category(m) => rest.push(m@),
            _ => rest,
        }
    }
}

/// The package restrictions among the conjuncts, in order.
pub open spec fn package_matches(parts: Seq<Part>) -> Seq<MatchView>
    decreases parts.len(),
{
    if parts.len() == 0 {
        Seq::empty()
    } else {
        let rest = package_matches(parts.drop_last());
        match parts.last() {
            Part::Package(m) => rest.push(m@),
            _ => rest,
        }
    }
}

/// A version restriction's value.
pub open spec fn version_part_view(v: Option<(Option<Operator>, Version)>) -> Option<
    (Option<Operator>, VersionView),
> {
    match v {
        Some((op, ver)) => Some((op, ver@)),
        None => None,
    }
}

/// The version restrictions among the conjuncts, in order.
pub open spec fn version_matches(parts: Seq<Part>) -> Seq<Option<(Option<Operator>, VersionView)>>
    decreases parts.len(),
{
    if parts.len() == 0 {
        Seq::empty()
    } else {
        let rest = version_matches(parts.drop_last());
        match parts.last() {
            Part::Version(v) => rest.push(version_part_view(v)),
            _ => rest,
        }
    }
}

/// How to walk a repo's unversioned packages.
#[derive(Debug)]
pub enum CpnPlan {
    /// Every package of every category, sorted.
    All,
    /// The one package, if the repo holds it.
    One(String, String),
    /// The packages of one category, filtered by the package restrictions.
    InCategory(String),
    /// The categories, filtered by the category restrictions, that hold a
    /// package of this name.
    NamedPackage(String),
    /// Every category and package, each filtered by its restrictions.
    Filtered,
}

/// The value of a [`CpnPlan`].
pub enum CpnPlanView {
    All,
    One(Seq<char>, Seq<char>),
    InCategory(Seq<char>),
    NamedPackage(Seq<char>),
    Filtered,
}

impl View for CpnPlan {
    type V = CpnPlanView;

    open spec fn view(&self) -> CpnPlanView {
        match self {
            CpnPlan::All => CpnPlanView::All,
            CpnPlan::One(c, p) => CpnPlanView::One(c@, p@),
            CpnPlan::InCategory(c) => CpnPlanView::InCategory(c@),
            CpnPlan::NamedPackage(p) => CpnPlanView::NamedPackage(p@),
            CpnPlan::Filtered => CpnPlanView::Filtered,
        }
    }
}

/// The walk for the given category and package restrictions.
pub open spec fn cpn_plan_for(cats: Seq<MatchView>, pkgs: Seq<MatchView>) -> CpnPlanView {
    if cats.len() == 0 && pkgs.len() == 0 {
        CpnPlanView::All
    } else if cats.len() == 1 && pkgs.len() == 1 && cats[0] is Equal && pkgs[0] is Equal {
        CpnPlanView::One(cats[0]->Equal_0, pkgs[0]->Equal_0)
    } else if cats.len() == 1 && cats[0] is Equal {
        CpnPlanView::InCategory(cats[0]->Equal_0)
    } else if pkgs.len() == 1 && pkgs[0] is Equal {
        CpnPlanView::NamedPackage(pkgs[0]->Equal_0)
    } else {
        CpnPlanView::Filtered
    }
}

/// How to walk a repo's versioned packages.
#[derive(Debug)]
pub enum CpvPlan {
    /// Every version of every package, sorted.
    All,
    /// The one versioned package, if the repo holds it.
    One(Cpv),
    /// The versions of one package, filtered by the version restrictions.
    InPackage(String, String),
    /// The versions of the packages of this name in every category, filtered
    /// by the version restrictions.
    NamedPackage(String),
    /// Every versioned package, filtered by all the restrictions.
    Filtered,
}

/// The value of a [`CpvPlan`].
pub enum CpvPlanView {
    All,
    One(Seq<char>, Seq<char>, VersionView),
    InPackage(Seq<char>, Seq<char>),
    NamedPackage(Seq<char>),
    Filtered,
}

impl View for CpvPlan {
    type V = CpvPlanView;

    open spec fn view(&self) -> CpvPlanView {
        match self {
            CpvPlan::All => CpvPlanView::All,
            CpvPlan::One(c) => CpvPlanView::One(c.category@, c.package@, c.version@),
            CpvPlan::InPackage(c, p) => CpvPlanView::InPackage(c@, p@),
            CpvPlan::NamedPackage(p) => CpvPlanView::NamedPackage(p@),
            CpvPlan::Filtered => CpvPlanView::Filtered,
        }
    }
}

/// A version restriction that names exactly one version: no operator, or `=`.
pub open spec fn exact_version(v: Option<(Option<Operator>, VersionView)>) -> bool {
    match v {
        Some((op, _)) => op is None || op == Some(Operator::Equal),
        None => false,
    }
}

/// The walk for the given category, package and version restrictions.
pub open spec fn cpv_plan_for(
    cats: Seq<MatchView>,
    pkgs: Seq<MatchView>,
    vers: Seq<Option<(Option<Operator>, VersionView)>>,
) -> CpvPlanView {
    if cats.len() == 0 && pkgs.len() == 0 && vers.len() == 0 {
        CpvPlanView::All
    } else if cats.len() == 1 && pkgs.len() == 1 && cats[0] is Equal && pkgs[0] is Equal
        && vers.len() == 1 && exact_version(vers[0]) {
        CpvPlanView::One(cats[0]->Equal_0, pkgs[0]->Equal_0, vers[0].unwrap().1)
    } else if cats.len() == 1 && pkgs.len() == 1 && cats[0] is Equal && pkgs[0] is Equal {
        CpvPlanView::InPackage(cats[0]->Equal_0, pkgs[0]->Equal_0)
    } else if cats.len() == 0 && pkgs.len() == 1 && pkgs[0] is Equal {
        CpvPlanView::NamedPackage(pkgs[0]->Equal_0)
    } else {
        CpvPlanView::Filtered
    }
}

fn gather_categories<'a>(parts: &'a Vec<Part>) -> (r: (usize, Option<&'a StrMatch>))
    ensures
        r.0 == category_matches(parts@).len(),
        r.0 > 0 ==> r.1 is Some && r.1.unwrap()@ == category_matches(parts@)[0],
{
    let mut n: usize = 0;
    let mut first: Option<&StrMatch> = None;
    let mut i: usize = 0;
    while i < parts.len()
        invariant
            i <= parts@.len(),
            n == category_matches(parts@.take(i as int)).len(),
            n <= i,
            n > 0 ==> first is Some && first.unwrap()@ == category_matches(parts@.take(i as int))[0],
        decreases parts@.len() - i,
    {
        assert(parts@.take(i + 1).drop_last() =~= parts@.take(i as int));
        match &parts[i] {
            Part::Category(m) => {
                if n == 0 {
                    first = Some(m);
                }
                n = n + 1;
            },
            _ => {},
        }
        i = i + 1;
    }
    assert(parts@.take(parts@.len() as int) =~= parts@);
    (n, first)
}

fn gather_packages<'a>(parts: &'a Vec<Part>) -> (r: (usize, Option<&'a StrMatch>))
    ensures
        r.0 == package_matches(parts@).len(),
        r.0 > 0 ==> r.1 is Some && r.1.unwrap()@ == package_matches(parts@)[0],
{
    let mut n: usize = 0;
    let mut first: Option<&StrMatch> = None;
    let mut i: usize = 0;
    while i < parts.len()
        invariant
            i <= parts@.len(),
            n == package_matches(parts@.take(i as int)).len(),
            n <= i,
            n > 0 ==> first is Some && first.unwrap()@ == package_matches(parts@.take(i as int))[0],
        decreases parts@.len() - i,
    {
        assert(parts@.take(i + 1).drop_last() =~= parts@.take(i as int));
        match &parts[i] {
            Part::Package(m) => {
                if n == 0 {
                    first = Some(m);
                }
                n = n + 1;
            },
            _ => {},
        }
        i = i + 1;
    }
    assert(parts@.take(parts@.len() as int) =~= parts@);
    (n, first)
}

fn gather_versions<'a>(parts: &'a Vec<Part>) -> (r: (
    usize,
    Option<&'a Option<(Option<Operator>, Version)>>,
))
    ensures
        r.0 == version_matches(parts@).len(),
        r.0 > 0 ==> r.1 is Some && version_part_view(*r.1.unwrap()) == version_matches(parts@)[0],
{
    let mut n: usize = 0;
    let mut first: Option<&Option<(Option<Operator>, Version)>> = None;
    let mut i: usize = 0;
    while i < parts.len()
        invariant
            i <= parts@.len(),
            n == version_matches(parts@.take(i as int)).len(),
            n <= i,
            n > 0 ==> first is Some && version_part_view(*first.unwrap()) == version_matches(
                parts@.take(i as int),
            )[0],
        decreases parts@.len() - i,
    {
        assert(parts@.take(i + 1).drop_last() =~= parts@.take(i as int));
        match &parts[i] {
            Part::Version(m) => {
                if n == 0 {
                    first = Some(m);
                }
                n = n + 1;
            },
            _ => {},
        }
        i = i + 1;
    }
    assert(parts@.take(parts@.len() as int) =~= parts@);
    (n, first)
}

/// The exact name a restriction asks for, if it asks for one.
fn exact_name(m: Option<&StrMatch>) -> (r: Option<String>)
    ensures
        match m {
            Some(StrMatch::Equal(s)) => r matches Some(t) && t@ == s@,
            _ => r is None,
        },
{
    match m {
        Some(StrMatch::Equal(s)) => Some(s.clone()),
        _ => None,
    }
}

/// Choose how to walk a repo's unversioned packages for a restriction given
/// as its conjuncts (a restriction that is no conjunction is one conjunct;
/// no restriction is none).
pub fn cpn_plan(parts: &Vec<Part>) -> (r: CpnPlan)
    ensures
        r@ == cpn_plan_for(category_matches(parts@), package_matches(parts@)),
{
    let (nc, fc) = gather_categories(parts);
    let (np, fp) = gather_packages(parts);
    let cat = if nc == 1 {
        exact_name(fc)
    } else {
        None
    };
    let pkg = if np == 1 {
        exact_name(fp)
    } else {
        None
    };
    if nc == 0 && np == 0 {
        return CpnPlan::All;
    }
    match (cat, pkg) {
        (Some(c), Some(p)) => CpnPlan::One(c, p),
        (Some(c), None) => CpnPlan::InCategory(c),
        (None, Some(p)) => CpnPlan::NamedPackage(p),
        (None, None) => CpnPlan::Filtered,
    }
}

/// Choose how to walk a repo's versioned packages for a restriction given as
/// its conjuncts.
pub fn cpv_plan(parts: &Vec<Part>) -> (r: CpvPlan)
    ensures
        r@ == cpv_plan_for(category_matches(parts@), package_matches(parts@), version_matches(parts@)),
{
    let (nc, fc) = gather_categories(parts);
    let (np, fp) = gather_packages(parts);
    let (nv, fv) = gather_versions(parts);
    if nc == 0 && np == 0 && nv == 0 {
        return CpvPlan::All;
    }
    let cat = if nc == 1 {
        exact_name(fc)
    } else {
        None
    };
    let pkg = if np == 1 {
        exact_name(fp)
    } else {
        None
    };
    match (cat, pkg) {
        (Some(c), Some(p)) => {
            if nv == 1 {
                match fv {
                    Some(Some((op, ver))) => {
                        let exact = match op {
                            None => true,
                            Some(Operator::Equal) => true,
                            _ => false,
                        };
                        if exact {
                            return CpvPlan::One(
                                Cpv { category: c, package: p, version: ver.duplicate() },
                            );
                        }
                    },
                    _ => {},
                }
            }
            CpvPlan::InPackage(c, p)
        },
        (None, Some(p)) => {
            if nc == 0 {
                CpvPlan::NamedPackage(p)
            } else {
                CpvPlan::Filtered
            }
        },
        _ => CpvPlan::Filtered,
    }
}

/// The restriction a path inside a repo stands for.
#[derive(Debug)]
pub enum PathRestrict {
    /// A package path: a category directory, a package directory in it, or
    /// an ebuild file in that.
    Package { category: String, package: Option<String>, version: Option<Version> },
    /// The repo itself: every package.
    Root,
    /// A path in the repo that holds no package: nothing.
    NoPackage,
}

/// The value of a [`PathRestrict`].
pub enum PathRestrictView {
    Package { category: Seq<char>, package: Option<Seq<char>>, version: Option<VersionView> },
    Root,
    NoPackage,
}

impl View for PathRestrict {
    type V = PathRestrictView;

    open spec fn view(&self) -> PathRestrictView {
        match self {
            PathRestrict::Package { category, package, version } => PathRestrictView::Package {
                category: category@,
                package: match package {
                    Some(p) => Some(p@),
                    None => None,
                },
                version: match version {
                    Some(v) => Some(v@),
                    None => None,
                },
            },
            PathRestrict::Root => PathRestrictView::Root,
            PathRestrict::NoPackage => PathRestrictView::NoPackage,
        }
    }
}

/// The restriction for the components of a path relative to the repo, given
/// the repo's categories and the packages of the category the path begins
/// with: the category, its package and the version of an ebuild in it, as
/// far as the path goes, when each names an existing one; the repo root
/// itself; or nothing.
pub open spec fn path_restrict_for(
    comps: Seq<Seq<char>>,
    cats: Seq<Seq<char>>,
    pkgs: Seq<Seq<char>>,
) -> PathRestrictView {
    let n = comps.len();
    if n == 0 {
        PathRestrictView::Root
    } else if !cats.contains(comps[0]) {
        PathRestrictView::NoPackage
    } else if n == 1 {
        PathRestrictView::Package { category: comps[0], package: None, version: None }
    } else if !pkgs.contains(comps[1]) {
        PathRestrictView::NoPackage
    } else if n == 2 {
        PathRestrictView::Package { category: comps[0], package: Some(comps[1]), version: None }
    } else if n == 3 && ebuild_outcome(comps[0], comps[1], comps[2]) is Ok {
        PathRestrictView::Package {
            category: comps[0],
            package: Some(comps[1]),
            version: Some(ebuild_outcome(comps[0], comps[1], comps[2])->Ok_0.2),
        }
    } else {
        PathRestrictView::NoPackage
    }
}

/// A path's restriction names what the path names: the repo root stands
/// for every package; a path into a known category restricts to that
/// category; the restriction names a package exactly when the path goes on
/// into a known package of the category, and that package; a version exactly
/// when the path goes on to an ebuild of that package; any other path
/// restricts to nothing.
pub proof fn lemma_path_restrict_parts(comps: Seq<Seq<char>>, cats: Seq<Seq<char>>, pkgs: Seq<Seq<char>>)
    ensures
        (path_restrict_for(comps, cats, pkgs) is Root) <==> (comps.len() == 0),
        comps.len() == 1 && cats.contains(comps[0]) ==> (path_restrict_for(comps, cats, pkgs)
            == (PathRestrictView::Package { category: comps[0], package: None, version: None })),
        comps.len() == 2 && cats.contains(comps[0]) && pkgs.contains(comps[1]) ==> (path_restrict_for(
            comps,
            cats,
            pkgs,
        ) == (PathRestrictView::Package { category: comps[0], package: Some(comps[1]), version: None })),
        comps.len() >= 1 && !cats.contains(comps[0]) ==> (path_restrict_for(comps, cats, pkgs) is NoPackage),
        comps.len() >= 2 && !pkgs.contains(comps[1]) ==> (path_restrict_for(comps, cats, pkgs) is NoPackage),
        comps.len() > 3 ==> (path_restrict_for(comps, cats, pkgs) is NoPackage),
        (match path_restrict_for(comps, cats, pkgs) {
            PathRestrictView::Package { category, package, version } => {
                &&& 1 <= comps.len() <= 3
                &&& category == comps[0]
                &&& cats.contains(category)
                &&& (package is Some <==> comps.len() >= 2)
                &&& (package matches Some(p) ==> p == comps[1] && pkgs.contains(p))
                &&& (version is Some <==> comps.len() == 3)
                &&& (version matches Some(v) ==> (ebuild_outcome(comps[0], comps[1], comps[2]) matches Ok(e)
                    && e.2 == v))
            },
            _ => true,
        }),
{
}

/// The components of a path relative to a repo, or `None` for a path
/// outside it.
pub open spec fn repo_components(repo_path: Seq<char>, path: Seq<char>) -> Option<Seq<Seq<char>>> {
    match stripped_path(path, repo_path) {
        Some(rel) => Some(path_components(rel)),
        None => None,
    }
}

/// Split a path into its components relative to a repo; `None` when the path
/// lies outside the repo.
pub fn relative_components(repo_path: &str, path: &str) -> (r: Option<Vec<String>>)
    ensures
        match r {
            Some(c) => repo_components(repo_path@, path@) == Some(views(c@)),
            None => repo_components(repo_path@, path@) is None,
        },
{
    match strip_path_prefix(path, repo_path) {
        Some(rel) => Some(components_of(rel.as_str())),
        None => None,
    }
}

/// The restriction a path inside a repo stands for, given the path's
/// components relative to the repo, the repo's categories and the packages
/// of the category the path begins with.
pub fn restrict_from_components(
    comps: &Vec<String>,
    categories: &Vec<String>,
    packages: &Vec<String>,
) -> (r: PathRestrict)
    ensures
        r@ == path_restrict_for(views(comps@), views(categories@), views(packages@)),
{
    let n = comps.len();
    if n == 0 {
        return PathRestrict::Root;
    }
    assert(views(comps@)[0] == comps@[0]@);
    assert(views(categories@).skip(0) =~= views(categories@));
    if !contains_str(categories, 0, &comps[0]) {
        return PathRestrict::NoPackage;
    }
    if n == 1 {
        return PathRestrict::Package { category: comps[0].clone(), package: None, version: None };
    }
    assert(views(comps@)[1] == comps@[1]@);
    assert(views(packages@).skip(0) =~= views(packages@));
    if !contains_str(packages, 0, &comps[1]) {
        return PathRestrict::NoPackage;
    }
    if n == 2 {
        return PathRestrict::Package {
            category: comps[0].clone(),
            package: Some(comps[1].clone()),
            version: None,
        };
    }
    if n > 3 {
        return PathRestrict::NoPackage;
    }
    assert(views(comps@)[2] == comps@[2]@);
    match ebuild_cpv(comps[0].as_str(), comps[1].as_str(), comps[2].as_str()) {
        Ok(c) => PathRestrict::Package {
            category: comps[0].clone(),
            package: Some(comps[1].clone()),
            version: Some(c.version),
        },
        Err(_) => PathRestrict::NoPackage,
    }
}

} // verus!
