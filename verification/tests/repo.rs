use pkgcraft::eclass_usage::{eclass_packages, eclass_usage, usage_counts, EclassError};
use pkgcraft::reorder::{in_order, Reorder};
use pkgcraft::ordered_map::{group_values, merged_groups, merged_use_expand, use_expand_values};
use pkgcraft::cpv::version;
use pkgcraft::ordered_set::set_values;
use pkgcraft::repo::{
    category_description, cpv_from_path, cpvs_from_category, cpvs_from_package, ebuild_cpv, is_hidden, join_strings, merged_names,
    resolve_masters, EbuildPathError, RepoError, XmlChild,
};
use pkgcraft::restrict::{
    cpn_plan, cpv_plan, relative_components, restrict_from_components, CpnPlan, CpvPlan, Part, PathRestrict, StrMatch,
};

fn strings(v: &[&str]) -> Vec<String> {
    v.iter().map(|s| s.to_string()).collect()
}

fn files(v: &[&str]) -> Vec<(String, bool)> {
    v.iter().map(|s| (s.to_string(), true)).collect()
}

fn version_texts(pn: &str, entries: &[(String, bool)]) -> Vec<String> {
    pkgcraft::repo::versions(pn, &entries.to_vec())
        .into_iter()
        .map(|v| v.text)
        .collect()
}

#[test]
fn masters() {
    // none
    assert_eq!(resolve_masters(&vec![], &strings(&["a"])).unwrap(), Vec::<usize>::new());

    // nonexistent
    let r = resolve_masters(&strings(&["nonexistent1", "nonexistent2"]), &strings(&["a", "test"]));
    match r {
        Err(RepoError::NonexistentMasters(msg)) => {
            assert_eq!(msg, "nonexistent masters: nonexistent1, nonexistent2")
        }
        Ok(v) => panic!("unexpected masters: {v:?}"),
    }

    // single
    assert_eq!(resolve_masters(&strings(&["a"]), &strings(&["a", "b"])).unwrap(), vec![0]);
}

#[test]
fn categories() {
    assert!(set_values(&pkgcraft::repo::categories(&vec![])).is_empty());
    let listed = vec![vec![
        ("cat".to_string(), true),
        ("a-cat".to_string(), true),
        ("z-cat".to_string(), true),
    ]];
    assert_eq!(set_values(&pkgcraft::repo::categories(&listed)), strings(&["a-cat", "cat", "z-cat"]));
}

#[test]
fn categories_need_directories() {
    let listed = vec![
        vec![("b".to_string(), true), ("gone".to_string(), false)],
        vec![("a".to_string(), true), ("b".to_string(), true)],
    ];
    assert_eq!(set_values(&pkgcraft::repo::categories(&listed)), strings(&["a", "b"]));
}

#[test]
fn packages() {
    assert!(set_values(&pkgcraft::repo::packages(&vec![])).is_empty());
    let dirs = vec![("pkg".to_string(), true)];
    assert_eq!(set_values(&pkgcraft::repo::packages(&dirs)), strings(&["pkg"]));
    let dirs = vec![("pkg-a".to_string(), true), ("pkg-z".to_string(), true)];
    assert_eq!(set_values(&pkgcraft::repo::packages(&dirs)), strings(&["pkg-a", "pkg-z"]));
}

#[test]
fn packages_skip_files_hidden_and_invalid() {
    let entries = vec![
        ("Manifest".to_string(), false),
        (".git".to_string(), true),
        ("pkg".to_string(), true),
        ("-bad".to_string(), true),
    ];
    assert_eq!(set_values(&pkgcraft::repo::packages(&entries)), strings(&["pkg"]));
}

#[test]
fn versions() {
    assert!(version_texts("pkg", &[]).is_empty());
    let mut entries = files(&["pkg-1.ebuild"]);
    assert_eq!(version_texts("pkg", &entries), strings(&["1"]));

    // unmatching ebuilds are ignored
    entries.push(("foo-2.ebuild".to_string(), true));
    assert_eq!(version_texts("pkg", &entries), strings(&["1"]));

    // wrongly named files are ignored
    entries.extend(files(&["pkg-2.txt", "pkg-2..ebuild", "pkg-2ebuild"]));
    assert_eq!(version_texts("pkg", &entries), strings(&["1"]));

    entries.push(("pkg-2.ebuild".to_string(), true));
    assert_eq!(version_texts("pkg", &entries), strings(&["1", "2"]));

    assert_eq!(version_texts("pkg10a", &files(&["pkg10a-0-r0.ebuild"])), strings(&["0-r0"]));
}

#[test]
fn versions_sorted_and_unique() {
    let entries = files(&["pkg-10.ebuild", "pkg-2.ebuild", "pkg-1.0.ebuild", "pkg-1.00.ebuild"]);
    assert_eq!(version_texts("pkg", &entries), strings(&["1.0", "2", "10"]));
    // hidden files and directories hold no versions
    let entries = vec![
        (".pkg-3.ebuild".to_string(), true),
        ("pkg-4.ebuild".to_string(), false),
        ("pkg-5.ebuild".to_string(), true),
    ];
    assert_eq!(version_texts("pkg", &entries), strings(&["5"]));
}

#[test]
fn ebuild_paths() {
    let c = cpv_from_path("/repo", "/repo/cat/pkg/pkg-1.2.ebuild").unwrap();
    assert_eq!((c.category.as_str(), c.package.as_str(), c.version.text.as_str()), ("cat", "pkg", "1.2"));
    let c = cpv_from_path("/repo", "cat/pkg/pkg-1.ebuild").unwrap();
    assert_eq!(c.version.text, "1");
    assert_eq!(cpv_from_path("/repo", "/repo/cat/pkg").unwrap_err(), EbuildPathError::MismatchedComponents);
    assert_eq!(cpv_from_path("/repo", "/repo/cat/pkg/pkg-1.txt").unwrap_err(), EbuildPathError::MissingExt);
    assert_eq!(cpv_from_path("/repo", "/repo/cat/pkg/pkg.ebuild").unwrap_err(), EbuildPathError::InvalidCpv);
    assert_eq!(
        cpv_from_path("/repo", "/repo/cat/pkg/other-1.ebuild").unwrap_err(),
        EbuildPathError::MismatchedPackageDir
    );
    assert!(ebuild_cpv("cat", "pkg", "pkg-1-r2.ebuild").is_ok());
}

#[test]
fn hidden_names() {
    assert!(is_hidden(".git"));
    assert!(!is_hidden("git"));
    assert!(!is_hidden(""));
}

#[test]
fn joined_strings() {
    assert_eq!(join_strings(&strings(&["a", "b", "c"]), ", "), "a, b, c");
    assert_eq!(join_strings(&strings(&[]), ", "), "");
}

#[test]
fn merged_names_sorted() {
    let lists = vec![strings(&["b", "a"]), strings(&["c", "a"])];
    assert_eq!(set_values(&merged_names(&lists)), strings(&["a", "b", "c"]));
}

#[test]
fn category_descriptions() {
    let child = |tag: &str, lang: Option<&str>, text: Option<&str>| XmlChild {
        tag: tag.to_string(),
        lang: lang.map(|s| s.to_string()),
        text: text.map(|s| s.to_string()),
    };
    let children = vec![
        child("longdescription", Some("de"), Some("Deutsch")),
        child("longdescription", None, None),
        child("longdescription", Some("en"), Some("  A  category\n  of packages ")),
    ];
    assert_eq!(category_description(&children).unwrap(), "A category of packages");
    assert!(category_description(&vec![child("maintainer", None, Some("x"))]).is_none());
}

#[test]
fn cpn_plans() {
    let eq = |s: &str| StrMatch::Equal(s.to_string());
    assert!(matches!(cpn_plan(&vec![]), CpnPlan::All));
    match cpn_plan(&vec![Part::Category(eq("cat1")), Part::Package(eq("pkga"))]) {
        CpnPlan::One(c, p) => assert_eq!((c.as_str(), p.as_str()), ("cat1", "pkga")),
        other => panic!("{other:?}"),
    }
    match cpn_plan(&vec![Part::Package(eq("pkgb"))]) {
        CpnPlan::NamedPackage(p) => assert_eq!(p, "pkgb"),
        other => panic!("{other:?}"),
    }
    match cpn_plan(&vec![Part::Category(eq("cat1")), Part::Package(StrMatch::Other)]) {
        CpnPlan::InCategory(c) => assert_eq!(c, "cat1"),
        other => panic!("{other:?}"),
    }
    let two = vec![Part::Category(eq("a")), Part::Category(eq("b"))];
    assert!(matches!(cpn_plan(&two), CpnPlan::Filtered));
    // conjuncts the walk cannot use leave it whole
    assert!(matches!(cpn_plan(&vec![Part::Other]), CpnPlan::All));
}

#[test]
fn cpv_plans() {
    let eq = |s: &str| StrMatch::Equal(s.to_string());
    let ver = || version("1").unwrap();
    assert!(matches!(cpv_plan(&vec![]), CpvPlan::All));
    let exact = vec![
        Part::Category(eq("cat")),
        Part::Package(eq("pkg")),
        Part::Version(Some((None, ver()))),
    ];
    match cpv_plan(&exact) {
        CpvPlan::One(c) => assert_eq!(c.version.text, "1"),
        other => panic!("{other:?}"),
    }
    let ranged = vec![
        Part::Category(eq("cat")),
        Part::Package(eq("pkg")),
        Part::Version(Some((Some(pkgcraft::dep::Operator::Greater), ver()))),
    ];
    assert!(matches!(cpv_plan(&ranged), CpvPlan::InPackage(_, _)));
    assert!(matches!(cpv_plan(&vec![Part::Package(eq("pkg"))]), CpvPlan::NamedPackage(_)));
    let other = vec![Part::Category(StrMatch::Other), Part::Package(eq("pkg"))];
    assert!(matches!(cpv_plan(&other), CpvPlan::Filtered));
}

#[test]
fn path_restricts() {
    let cats = strings(&["optional", "cat"]);
    let pkgs = strings(&["none"]);
    assert!(matches!(restrict_from_components(&vec![], &cats, &pkgs), PathRestrict::Root));
    assert!(matches!(
        restrict_from_components(&strings(&["profiles"]), &cats, &pkgs),
        PathRestrict::NoPackage
    ));
    match restrict_from_components(&strings(&["optional"]), &cats, &pkgs) {
        PathRestrict::Package { category, package, version } => {
            assert_eq!(category, "optional");
            assert!(package.is_none() && version.is_none());
        }
        other => panic!("{other:?}"),
    }
    match restrict_from_components(&strings(&["optional", "none", "none-8.ebuild"]), &cats, &pkgs) {
        PathRestrict::Package { package, version, .. } => {
            assert_eq!(package.as_deref(), Some("none"));
            assert_eq!(version.unwrap().text, "8");
        }
        other => panic!("{other:?}"),
    }
    for comps in [
        strings(&["optional", "other"]),
        strings(&["optional", "none", "metadata.xml"]),
        strings(&["optional", "none", "other-8.ebuild"]),
        strings(&["optional", "none", "none-8.ebuild", "x"]),
    ] {
        assert!(matches!(restrict_from_components(&comps, &cats, &pkgs), PathRestrict::NoPackage));
    }
}

#[test]
fn relative_paths() {
    assert_eq!(relative_components("/repo", "/repo/cat/pkg").unwrap(), strings(&["cat", "pkg"]));
    assert_eq!(relative_components("/repo", "/repo").unwrap(), Vec::<String>::new());
    assert!(relative_components("/repo", "/elsewhere/cat").is_none());
}

fn cpv_texts(v: &[pkgcraft::cpv::Cpv]) -> Vec<String> {
    v.iter().map(|c| format!("{}/{}-{}", c.category, c.package, c.version.text)).collect()
}

#[test]
fn package_cpvs() {
    let paths = strings(&[
        "/repo/cat/pkg/pkg-2.ebuild",
        "/repo/cat/pkg/pkg-1.ebuild",
        "/repo/cat/pkg/metadata.xml",
        "/repo/cat/pkg/pkg-1.0.ebuild",
        "/repo/cat/pkg/other-3.ebuild",
        "/repo/cat/pkg/pkg-10.ebuild",
        "/repo/cat/pkg/pkg-1.00.ebuild",
    ]);
    let cpvs = cpvs_from_package("/repo", &paths);
    // 1.0 and 1.00 are equal versions and count once
    assert_eq!(cpv_texts(&cpvs), strings(&["cat/pkg-1", "cat/pkg-1.0", "cat/pkg-2", "cat/pkg-10"]));
    assert!(cpvs_from_package("/repo", &Vec::new()).is_empty());
}

#[test]
fn category_cpvs() {
    let packages = vec![
        strings(&["/repo/cat/b/b-2.ebuild", "/repo/cat/b/b-1.ebuild"]),
        strings(&["/repo/cat/a/a-3.ebuild", "/repo/cat/a/Manifest"]),
        Vec::new(),
    ];
    let cpvs = cpvs_from_category("/repo", &packages);
    assert_eq!(cpv_texts(&cpvs), strings(&["cat/a-3", "cat/b-1", "cat/b-2"]));
}

fn name_set(v: &[&str]) -> indexmap::IndexSet<String> {
    v.iter().map(|s| s.to_string()).collect()
}

#[test]
fn merged_license_groups() {
    let lists = vec![
        vec![
            ("OSI-APPROVED".to_string(), name_set(&["GPL-2", "MIT"])),
            ("EULA".to_string(), name_set(&["foo"])),
        ],
        vec![
            ("OSI-APPROVED".to_string(), name_set(&["BSD"])),
            ("BINARY".to_string(), name_set(&["bar", "baz"])),
        ],
    ];
    let merged = group_values(&merged_groups(&lists));
    assert_eq!(
        merged,
        vec![
            ("BINARY".to_string(), strings(&["bar", "baz"])),
            ("EULA".to_string(), strings(&["foo"])),
            ("OSI-APPROVED".to_string(), strings(&["BSD"])),
        ]
    );
    assert!(group_values(&merged_groups(&Vec::new())).is_empty());
}

#[test]
fn results_in_order() {
    let mut buf: Reorder<&str> = Reorder::new();
    assert_eq!(buf.take_ready(), None);
    buf.accept(2, "c");
    buf.accept(1, "b");
    assert_eq!(buf.take_ready(), None);
    buf.accept(0, "a");
    assert_eq!(buf.take_ready(), Some("a"));
    assert_eq!(buf.take_ready(), Some("b"));
    assert_eq!(buf.take_ready(), Some("c"));
    assert_eq!(buf.take_ready(), None);
    buf.accept(3, "d");
    assert_eq!(buf.take_ready(), Some("d"));
}

#[test]
fn stream_in_order() {
    let arrivals = vec![(2, "c"), (0, "a"), (4, "e"), (1, "b"), (3, "d")];
    assert_eq!(in_order(arrivals), vec!["a", "b", "c", "d", "e"]);
    let sent = vec![(0, 10), (1, 11), (2, 12)];
    assert_eq!(in_order(sent), vec![10, 11, 12]);
    let backwards = vec![(2, 'z'), (1, 'y'), (0, 'x')];
    assert_eq!(in_order(backwards), vec!['x', 'y', 'z']);
    assert!(in_order::<u8>(Vec::new()).is_empty());
}

fn flags(v: &[(&str, &str)]) -> indexmap::IndexMap<String, String> {
    v.iter().map(|(k, d)| (k.to_string(), d.to_string())).collect()
}

#[test]
fn merged_use_expand_flags() {
    let lists = vec![
        vec![
            ("python_targets".to_string(), flags(&[("python3_12", "Build for 3.12")])),
            ("video_cards".to_string(), flags(&[("amdgpu", "AMD"), ("intel", "Intel")])),
        ],
        vec![("python_targets".to_string(), flags(&[("python3_13", "Build for 3.13")]))],
    ];
    let merged = use_expand_values(&merged_use_expand(&lists));
    let pair = |k: &str, d: &str| (k.to_string(), d.to_string());
    assert_eq!(
        merged,
        vec![
            ("python_targets".to_string(), vec![pair("python3_13", "Build for 3.13")]),
            ("video_cards".to_string(), vec![pair("amdgpu", "AMD"), pair("intel", "Intel")]),
        ]
    );
}

fn eclass_pkgs() -> Vec<(pkgcraft::cpv::Cpv, Vec<String>)> {
    vec![
        (pkgcraft::cpv::cpv("cat/c-2").unwrap(), strings(&["y", "z"])),
        (pkgcraft::cpv::cpv("cat/a-1").unwrap(), strings(&["x", "y"])),
        (pkgcraft::cpv::cpv("cat/b-1").unwrap(), strings(&["y"])),
        (pkgcraft::cpv::cpv("cat/c-1").unwrap(), strings(&["x"])),
        (pkgcraft::cpv::cpv("cat/d-1").unwrap(), strings(&["w"])),
    ]
}

#[test]
fn eclass_usage_counts() {
    let counts = usage_counts(&eclass_usage(&eclass_pkgs()));
    let expected: Vec<(String, usize)> =
        vec![("z".to_string(), 1), ("w".to_string(), 1), ("x".to_string(), 2), ("y".to_string(), 3)];
    assert_eq!(counts, expected);
    assert!(usage_counts(&eclass_usage(&Vec::new())).is_empty());
}

#[test]
fn eclass_selected_packages() {
    let known = name_set(&["v", "w", "x", "y", "z"]);
    let pkgs = eclass_pkgs();
    let x = eclass_packages(&pkgs, &known, "x").unwrap();
    assert_eq!(cpv_texts(&x), strings(&["cat/a-1", "cat/c-1"]));
    let y = eclass_packages(&pkgs, &known, "y").unwrap();
    assert_eq!(cpv_texts(&y), strings(&["cat/a-1", "cat/b-1", "cat/c-2"]));
    assert!(eclass_packages(&pkgs, &known, "v").unwrap().is_empty());
    match eclass_packages(&pkgs, &known, "q") {
        Err(EclassError::Unknown(s)) => assert_eq!(s, "q"),
        Ok(_) => panic!("unknown eclass accepted"),
    }
}

#[test]
fn versions_first_kept() {
    let entries = files(&["pkg-1.00.ebuild", "pkg-1.0.ebuild", "pkg-3.ebuild"]);
    assert_eq!(version_texts("pkg", &entries), strings(&["1.00", "3"]));
}
