use pkgcraft::cache::{regen_decisions, RegenOptions};
use pkgcraft::manifest::{manifest_writes, PkgAction};
use pkgcraft::ordered_map::{flag_values, merged_eclasses};
use pkgcraft::pk::{compare_cpv_exprs, CompareError};
use pkgcraft::repo::{cpn_walk, cpv_walk};
use pkgcraft::timing::{duration_fits_text, run_failed, source_report, Bound, Sampling};

fn strings(v: &[&str]) -> Vec<String> {
    v.iter().map(|s| s.to_string()).collect()
}

#[test]
fn bound_digits_limit() {
    assert_eq!(Bound::parse("<99999999999ns").unwrap(), Bound::Less(99999999999));
    assert_eq!(Bound::parse(">=1h 30min 15s").unwrap(), Bound::GreaterOrEqual(5415_000_000_000));
    assert_eq!(Bound::parse("100000000000ns").unwrap(), Bound::GreaterOrEqual(100000000000));
}

#[test]
fn bound_texts_admitted() {
    // a number without a unit is rejected by humantime, however long
    assert!(duration_fits_text("1234567890123"));
    assert!(Bound::parse("1234567890123").is_err());
    assert!(duration_fits_text("<=5s 1234567890123"));
    assert!(Bound::parse("<=5s 1234567890123").is_err());
    // the limit: 584542046090 years fit, one more does not
    assert!(duration_fits_text("584542046089y"));
    assert!(!duration_fits_text("584542046090y"));
    assert!(!duration_fits_text("18446744073709551615s 1000000000ns"));
    assert!(duration_fits_text(""));
    assert!(Bound::parse("").is_err());
    assert!(Bound::parse(">").is_err());
    assert!(Bound::parse("abc").is_err());
    assert_eq!(Bound::parse("0").unwrap(), Bound::GreaterOrEqual(0));
    assert_eq!(Bound::parse("1.5s").unwrap(), Bound::GreaterOrEqual(1_500_000_000));
}

#[test]
fn source_run_reports() {
    let bounds = vec![Bound::parse(">=2ms").unwrap()];
    let results = vec![Some(1_000_000u128), None, Some(3_000_000), Some(2_000_000)];
    let (failed, lines) = source_report(&results, &bounds);
    assert!(failed);
    assert_eq!(lines, vec![2, 3]);
    let (failed, lines) = source_report(&vec![Some(5u128), Some(7)], &Vec::new());
    assert!(!failed);
    assert_eq!(lines, vec![0, 1]);
    assert!(!run_failed::<u64>(&Vec::new()));
}

#[test]
fn benchmark_sampling() {
    let duration: u128 = 2_500_000;
    let mut st = Sampling::new();
    let mut taken = 0;
    while st.sample_again(duration) {
        st.record(1000);
        taken += 1;
    }
    assert_eq!(taken, 3);
    assert_eq!(st.samples, vec![1000, 1000, 1000]);
    assert_eq!(st.elapsed, 3_000_000);
    // a zero duration takes no sample
    assert!(!Sampling::new().sample_again(0));
}

#[test]
fn regen_package_decisions() {
    let valid = vec![true, false, false];
    let generated = vec![true, true, false];
    let opts = RegenOptions::new(4);
    let r = regen_decisions(&opts, true, &valid, &generated);
    assert_eq!(r.processed, vec![false, true, true]);
    assert_eq!(r.written, vec![false, true, false]);
    assert_eq!(r.errors, 1);
    let r = regen_decisions(&RegenOptions::new(4).force(true), true, &valid, &generated);
    assert_eq!(r.processed, vec![true, true, true]);
    assert_eq!(r.written, vec![true, true, false]);
    let r = regen_decisions(&RegenOptions::new(4).verify(true), true, &valid, &generated);
    assert_eq!(r.written, vec![false, false, false]);
    assert_eq!(r.errors, 1);
}

#[test]
fn manifest_write_gate() {
    let actions = vec![
        PkgAction::Regenerate { thick: true, fetch: vec![0] },
        PkgAction::Unchanged,
        PkgAction::SkipRestricted,
    ];
    assert_eq!(manifest_writes(&vec![true, true], &actions), vec![true, false, false]);
    assert_eq!(manifest_writes(&vec![true, false], &actions), vec![false, false, false]);
}

#[test]
fn cpv_compare_exprs() {
    let exprs = strings(&["cat/pkg-1 < cat/pkg-2", "cat/pkg-1 == cat/pkg-1.0"]);
    assert_eq!(compare_cpv_exprs(&exprs).unwrap(), false);
    assert_eq!(compare_cpv_exprs(&strings(&["cat/a-1 < cat/b-1"])).unwrap(), true);
    let bad = strings(&["cat/pkg-1 < cat/pkg-2", "cat/pkg-1 <> cat/pkg-2", "nope"]);
    assert!(matches!(compare_cpv_exprs(&bad), Err(CompareError::InvalidOperator(s)) if s == "<>"));
}

#[test]
fn repo_walks() {
    let cats = strings(&["cat1", "cat2"]);
    let pkgs = vec![strings(&["a", "b"]), strings(&["a"])];
    let cpns: Vec<String> =
        cpn_walk(&cats, &pkgs).iter().map(|c| format!("{}/{}", c.category, c.package)).collect();
    assert_eq!(cpns, strings(&["cat1/a", "cat1/b", "cat2/a"]));
    let layout = vec![
        vec![strings(&["/r/cat2/pkg/pkg-1.ebuild"])],
        vec![strings(&["/r/cat1/pkg/pkg-2.ebuild", "/r/cat1/pkg/pkg-1.ebuild"]), strings(&["/r/cat1/a/a-3.ebuild"])],
    ];
    let cpvs: Vec<String> = cpv_walk("/r", &layout)
        .iter()
        .map(|c| format!("{}/{}-{}", c.category, c.package, c.version.text))
        .collect();
    assert_eq!(cpvs, strings(&["cat1/a-3", "cat1/pkg-1", "cat1/pkg-2", "cat2/pkg-1"]));
}

#[test]
fn eclasses_repo_wins() {
    let pair = |n: &str, p: &str| (n.to_string(), p.to_string());
    let trees = vec![
        vec![pair("c", "/primary/eclass/c.eclass"), pair("a", "/primary/eclass/a.eclass")],
        vec![pair("c", "/secondary/eclass/c.eclass"), pair("b", "/secondary/eclass/b.eclass")],
    ];
    let merged = flag_values(&merged_eclasses(&trees));
    assert_eq!(
        merged,
        vec![
            pair("a", "/primary/eclass/a.eclass"),
            pair("b", "/secondary/eclass/b.eclass"),
            pair("c", "/secondary/eclass/c.eclass"),
        ]
    );
}

use pkgcraft::cache::CacheRemoval;
use pkgcraft::dep::Dep;
use pkgcraft::names::{category, eclass_name, license_name, package, repo, use_flag, ParseError};
use pkgcraft::pk::Key;
use pkgcraft::repo::{RepoError, RepoMasters};

#[test]
fn repo_masters_finalize() {
    let repos = strings(&["gentoo", "overlay", "secondary"]);
    let mut m = RepoMasters::new();
    assert!(m.masters().is_empty());
    assert_eq!(m.trees(2), vec![2]);
    // unknown masters: an error naming them, and nothing kept
    match m.finalize(&strings(&["nope", "gentoo", "missing"]), &repos) {
        Err(RepoError::NonexistentMasters(msg)) => assert_eq!(msg, "nonexistent masters: nope, missing"),
        Ok(()) => panic!("unknown masters accepted"),
    }
    assert!(m.masters().is_empty());
    // known masters are kept in order
    m.finalize(&strings(&["overlay", "gentoo"]), &repos).ok().unwrap();
    assert_eq!(m.masters(), vec![1, 0]);
    assert_eq!(m.trees(2), vec![1, 0, 2]);
    // a second call succeeds and changes nothing
    assert!(m.finalize(&strings(&["nope"]), &repos).is_ok());
    assert_eq!(m.masters(), vec![1, 0]);
}

#[test]
fn external_cache_message() {
    assert_eq!(
        CacheRemoval::External.message("/var/cache/md5-dict"),
        Some("removal unsupported for external cache: /var/cache/md5-dict".to_string())
    );
    assert_eq!(CacheRemoval::Remove.message("/repo/metadata/md5-cache"), None);
    assert_eq!(CacheRemoval::Missing.message("/repo/metadata/md5-cache"), None);
}

#[test]
fn name_parsers() {
    for s in ["cat", "cat-1", "Cat_2+x", "_c.a"] {
        assert_eq!(category(s).unwrap(), s);
    }
    for s in ["", "-cat", ".cat", "+cat", "c/at", "c at"] {
        assert!(matches!(category(s), Err(ParseError::Category)), "{s:?} passed");
    }
    for s in ["pkg", "pkg-a", "p_k+g", "pkg-a1"] {
        assert_eq!(package(s).unwrap(), s);
    }
    for s in ["", "-pkg", "+pkg", "pkg-1", "pkg-1-r2", "pkg-1a", "p/k"] {
        assert!(matches!(package(s), Err(ParseError::Package)), "{s:?} passed");
    }
    for s in ["gentoo", "my-repo", "repo_2"] {
        assert_eq!(repo(s).unwrap(), s);
    }
    for s in ["", "-repo", "repo-1", "re po"] {
        assert!(matches!(repo(s), Err(ParseError::Repo)), "{s:?} passed");
    }
    assert_eq!(license_name("GPL-2+").unwrap(), "GPL-2+");
    assert!(license_name("-GPL").is_err());
    assert_eq!(eclass_name("toolchain-funcs").unwrap(), "toolchain-funcs");
    assert!(matches!(eclass_name("default"), Err(ParseError::EclassDefault)));
    assert_eq!(use_flag("python_targets_python3_12").unwrap(), "python_targets_python3_12");
    assert!(use_flag("_flag").is_err());
}

#[test]
fn key_values() {
    let d = Dep::parse("!!>=cat/pkg-1.2-r3:4/5=::repo[a,-b]", true).unwrap();
    let value = |k: &str| Key::from_name(k).unwrap().value(&d);
    assert_eq!(value("BLOCKER"), "!!");
    assert_eq!(value("CATEGORY"), "cat");
    assert_eq!(value("P"), "pkg-1.2");
    assert_eq!(value("PF"), "pkg-1.2-r3");
    assert_eq!(value("PN"), "pkg");
    assert_eq!(value("PR"), "r3");
    assert_eq!(value("PV"), "1.2");
    assert_eq!(value("PVR"), "1.2-r3");
    assert_eq!(value("CPN"), "cat/pkg");
    assert_eq!(value("CPV"), "cat/pkg-1.2-r3");
    assert_eq!(value("OP"), ">=");
    assert_eq!(value("SLOT"), "4");
    assert_eq!(value("SUBSLOT"), "5");
    assert_eq!(value("SLOT_OP"), "=");
    assert_eq!(value("REPO"), "repo");
    assert_eq!(value("USE"), "a,-b");
    assert_eq!(value("DEP"), "!!>=cat/pkg-1.2-r3:4/5=::repo[a,-b]");
    let plain = Dep::parse("cat/pkg", false).unwrap();
    for k in ["BLOCKER", "P", "PV", "PR", "OP", "SLOT", "SUBSLOT", "SLOT_OP", "REPO", "USE"] {
        let v = Key::from_name(k).unwrap().value(&plain);
        if k == "P" {
            assert_eq!(v, "pkg");
        } else {
            assert_eq!(v, "", "{k}");
        }
    }
}
