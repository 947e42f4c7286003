use pkgcraft::names::{slot, ParseError};
use pkgcraft::dep::{Blocker, Dep, SlotOperator, UseDepDefault, UseDepKind};
use pkgcraft::pk::{compare_cpv_expr, compare_dep_expr, compare_dep_exprs, split_whitespace, CompareError};

fn dep(s: &str) -> Dep {
    match Dep::parse(s, false) {
        Ok(d) => d,
        Err(e) => panic!("{s:?} failed: {e:?}"),
    }
}

#[test]
fn slots() {
    for slot in ["0", "a", "_", "_a", "99", "aBc", "a+b_c.d-e"] {
        let s = format!("cat/pkg:{slot}");
        let d = dep(&s);
        assert_eq!(d.slot.as_deref(), Some(slot));
        assert_eq!(d.to_string(), s);
    }
}

#[test]
fn blockers() {
    let d = dep("cat/pkg");
    assert!(d.blocker.is_none());

    for (s, blocker) in [
        ("!cat/pkg", Some(Blocker::Weak)),
        ("!cat/pkg:0", Some(Blocker::Weak)),
        ("!!cat/pkg", Some(Blocker::Strong)),
        ("!!<cat/pkg-1", Some(Blocker::Strong)),
    ] {
        let d = dep(s);
        assert_eq!(d.blocker, blocker);
        assert_eq!(d.to_string(), s);
    }
}

#[test]
fn use_deps() {
    for use_deps in ["a", "!a?", "a,b", "-a,-b", "a?,b?", "a,b=,!c=,d?,!e?,-f"] {
        let s = format!("cat/pkg[{use_deps}]");
        let d = dep(&s);
        let flags: Vec<String> = d.use_deps.as_ref().unwrap().iter().map(|u| u.flag.clone()).collect();
        let expected: Vec<String> = use_deps
            .split(',')
            .map(|u| u.trim_start_matches(['!', '-']).trim_end_matches(['=', '?']).to_string())
            .collect();
        assert_eq!(flags, expected);
        assert_eq!(d.to_string(), s);
    }
    let d = dep("cat/pkg[a,b=,!c=,d?,!e?,-f]");
    let kinds: Vec<UseDepKind> = d.use_deps.unwrap().iter().map(|u| u.kind).collect();
    assert_eq!(
        kinds,
        vec![
            UseDepKind::Enabled,
            UseDepKind::Equal,
            UseDepKind::NotEqual,
            UseDepKind::EnabledConditional,
            UseDepKind::DisabledConditional,
            UseDepKind::Disabled,
        ]
    );
}

#[test]
fn use_dep_defaults() {
    for use_deps in ["a(+)", "-a(-)", "a(+)?,!b(-)?", "a(-)=,!b(+)="] {
        let s = format!("cat/pkg[{use_deps}]");
        let d = dep(&s);
        assert_eq!(d.to_string(), s);
    }
    let d = dep("cat/pkg[a(+)?,!b(-)?]");
    let u = d.use_deps.unwrap();
    assert_eq!(u[0].default, Some(UseDepDefault::Enabled));
    assert_eq!(u[1].default, Some(UseDepDefault::Disabled));
    assert_eq!(u[1].kind, UseDepKind::DisabledConditional);
}

#[test]
fn subslots() {
    for (slot_str, slot, subslot) in [
        ("0/1", Some("0"), Some("1")),
        ("a/b", Some("a"), Some("b")),
        ("A/B", Some("A"), Some("B")),
        ("_/_", Some("_"), Some("_")),
        ("0/a.b+c-d_e", Some("0"), Some("a.b+c-d_e")),
    ] {
        let s = format!("cat/pkg:{slot_str}");
        let d = dep(&s);
        assert_eq!(d.slot.as_deref(), slot);
        assert_eq!(d.subslot.as_deref(), subslot);
        assert_eq!(d.slot_op, None);
        assert_eq!(d.to_string(), s);
    }
}

#[test]
fn slot_ops() {
    for (slot_str, slot, subslot, slot_op) in [
        ("*", None, None, Some(SlotOperator::Star)),
        ("=", None, None, Some(SlotOperator::Equal)),
        ("0=", Some("0"), None, Some(SlotOperator::Equal)),
        ("a=", Some("a"), None, Some(SlotOperator::Equal)),
        ("0/1=", Some("0"), Some("1"), Some(SlotOperator::Equal)),
        ("a/b=", Some("a"), Some("b"), Some(SlotOperator::Equal)),
    ] {
        let s = format!("cat/pkg:{slot_str}");
        let d = dep(&s);
        assert_eq!(d.slot.as_deref(), slot);
        assert_eq!(d.subslot.as_deref(), subslot);
        assert_eq!(d.slot_op, slot_op);
        assert_eq!(d.to_string(), s);
    }
}

#[test]
fn repos() {
    for repo in ["_", "a", "repo", "repo_a", "repo-a"] {
        let s = format!("cat/pkg::{repo}");

        // repo ids aren't supported in official EAPIs
        assert!(Dep::parse(&s, false).is_err(), "{s:?} didn't fail");

        let d = Dep::parse(&s, true).unwrap();
        assert_eq!(d.repo.as_deref(), Some(repo));
        assert_eq!(d.to_string(), s);
    }
}

#[test]
fn invalid_deps() {
    for s in [
        "", "cat", "cat/", "/pkg", "cat/pkg-1", "=cat/pkg", "cat/pkg:", "cat/pkg[]", "cat/pkg[a,]",
        "~cat/pkg-1-r1", "cat/pkg*", "<cat/pkg-1*", "!!!cat/pkg", "cat/pkg[!a]", "-cat/pkg",
    ] {
        assert!(Dep::parse(s, true).is_err(), "{s:?} didn't fail");
    }
}

#[test]
fn versioned_deps() {
    let d = dep("=cat/pkg-1.2.3b_alpha4-r1*");
    assert_eq!(d.category, "cat");
    assert_eq!(d.package, "pkg");
    let v = d.version.as_ref().unwrap();
    assert_eq!(v.text, "1.2.3b_alpha4-r1");
    assert_eq!(v.numbers, vec!["1", "2", "3"]);
    assert_eq!(v.letter, Some('b'));
    assert_eq!(v.revision.as_deref(), Some("1"));
    assert_eq!(d.to_string(), "=cat/pkg-1.2.3b_alpha4-r1*");
    assert_eq!(dep("~cat/pkg-1").to_string(), "~cat/pkg-1");
    assert_eq!(dep(">=cat/pkg-1_p:2/3=[a]").to_string(), ">=cat/pkg-1_p:2/3=[a]");
}

#[test]
fn words() {
    assert_eq!(split_whitespace("  a\tb \n c  "), vec!["a", "b", "c"]);
    assert!(split_whitespace(" \t ").is_empty());
}

#[test]
fn args() {
    // invalid expression
    match compare_dep_expr("cat/pkg<cat/pkg", true) {
        Err(CompareError::InvalidFormat(s)) => assert_eq!(s, "cat/pkg<cat/pkg"),
        r => panic!("unexpected {r:?}"),
    }

    // invalid operator
    for op in ["~=", "=", "+="] {
        match compare_dep_expr(&format!("cat/pkg {op} cat/pkg"), true) {
            Err(CompareError::InvalidOperator(s)) => assert_eq!(s, op),
            r => panic!("unexpected {r:?}"),
        }
    }

    // invalid dep
    match compare_dep_expr("=cat/pkg-1 >= cat/pkg-1", true) {
        Err(CompareError::InvalidDep(s)) => assert_eq!(s, "cat/pkg-1"),
        r => panic!("unexpected {r:?}"),
    }

    // false expression
    assert!(!compare_dep_expr("cat/pkg > cat/pkg", true).unwrap());

    // true expression
    assert!(compare_dep_expr("cat/pkg == cat/pkg", true).unwrap());
}

#[test]
fn stdin() {
    let exprs: Vec<String> = [
        "cat/pkg == cat/pkg",
        "cat/pkg < cat/pkg2",
        "=cat/pkg-1 > cat/pkg",
        "=cat/pkg-1 != =cat/pkg-2",
    ]
    .iter()
    .map(|s| s.to_string())
    .collect();
    assert!(compare_dep_exprs(&exprs, true).unwrap());

    let versions = [
        ("1", "<", "2"),
        ("1.0", "==", "1.00"),
        ("1.0", "<", "1.0.0"),
        ("1.01", "<", "1.1"),
        ("1.010", "==", "1.01"),
        ("1.1", ">", "1.01"),
        ("1.2", "<", "1.10"),
        ("1a", ">", "1"),
        ("1a", "<", "1b"),
        ("1_alpha", "<", "1_beta"),
        ("1_beta", "<", "1_pre"),
        ("1_pre", "<", "1_rc"),
        ("1_rc", "<", "1"),
        ("1", "<", "1_p"),
        ("1_p", "==", "1_p0"),
        ("1_p1", "<", "1_p2"),
        ("1_alpha_p", ">", "1_alpha"),
        ("1_alpha", ">", "1_alpha_beta"),
        ("1-r1", ">", "1"),
        ("1-r0", "==", "1"),
        ("1-r2", ">=", "1-r1"),
        ("2", ">", "1.99"),
        ("1.2.3-r1", "<=", "1.2.3-r2"),
    ];
    let exprs: Vec<String> = versions
        .iter()
        .map(|(s1, op, s2)| format!("=cat/pkg-{s1} {op} =cat/pkg-{s2}"))
        .collect();
    assert!(compare_dep_exprs(&exprs, true).unwrap());

    // a false expression makes the whole run fail, an invalid one is an error
    let exprs: Vec<String> = vec!["cat/pkg == cat/pkg".into(), "cat/pkg > cat/pkg".into()];
    assert!(!compare_dep_exprs(&exprs, true).unwrap());
    let exprs: Vec<String> = vec!["cat/pkg > cat/pkg".into(), "cat/pkg".into()];
    assert!(matches!(compare_dep_exprs(&exprs, true), Err(CompareError::InvalidFormat(_))));
}

#[test]
fn cpv_compare() {
    assert!(compare_cpv_expr("cat/pkg-1.2.3-r1 <= cat/pkg-1.2.3-r2").unwrap());
    assert!(!compare_cpv_expr("cat/pkg-2 < cat/pkg-1").unwrap());
    assert!(compare_cpv_expr("a/pkg-2 < b/pkg-1").unwrap());
    match compare_cpv_expr("cat/pkg <= cat/pkg-1") {
        Err(CompareError::InvalidCpv(s)) => assert_eq!(s, "cat/pkg"),
        r => panic!("unexpected {r:?}"),
    }
}

#[test]
fn slot_names() {
    for s in ["0", "a", "_", "_a", "99", "aBc", "a+b_c.d-e", "0/1", "a/b.c"] {
        assert_eq!(slot(s).unwrap(), s);
    }
    for s in ["", "-a", "+", ".a", "a/", "/a", "a/b/c", "a:b", "0/-1", "a b"] {
        assert!(matches!(slot(s), Err(ParseError::Slot)), "{s:?} passed");
    }
}
