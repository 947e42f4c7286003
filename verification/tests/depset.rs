use pkgcraft::dep::{Dep, UseDep, UseDepKind};
use pkgcraft::depset::{
    license_dependency, license_dependency_set, package_dependency_set, properties_dependency_set,
    required_use_dependency_set, restrict_dependency_set, src_uri_dependency_set, package_dependency, properties_dependency, required_use_dependency,
    restrict_dependency, src_uri_dependency, DependencySet,
};

fn ru_set(s: &str) -> DependencySet {
    DependencySet::required_use(s).unwrap()
}

fn package_set(s: &str) -> DependencySet {
    DependencySet::package(s, true).unwrap()
}

fn flatten(set: &DependencySet) -> Vec<String> {
    set.iter_flatten()
}

#[test]
fn dep_set_variants() {
    DependencySet::package("a/b c/d", true).unwrap();
    DependencySet::license("a b").unwrap();
    DependencySet::properties("a b").unwrap();
    DependencySet::required_use("a b").unwrap();
    DependencySet::restrict("a b").unwrap();
    DependencySet::src_uri("https://uri1 https://uri2").unwrap();
}

#[test]
fn dep_set_contains() {
    let d = Dep::parse("a/b", true).unwrap();
    let target_dep = package_dependency("c/d", true).unwrap();
    let dep_set = package_set("a/b !u? ( c/d )");
    let copy = dep_set.duplicate();
    for set in [&dep_set, &copy] {
        // Dependency objects
        assert!(set.contains(&target_dep), "{} doesn't contain {}", set.to_string(), target_dep.to_string());
        // contains string types
        assert!(set.contains_text("c/d"));
        assert!(set.contains_text(&"c/d".to_string()));
        // Dep objects
        assert!(set.contains_dep(&d));
        // UseDep objects
        let use_dep = UseDep { kind: UseDepKind::DisabledConditional, flag: "u".to_string(), default: None };
        assert!(set.contains_conditional(&use_dep));
    }

    // string-based DependencySet
    let dep_set = ru_set("a !u? ( b )");
    let copy = dep_set.duplicate();
    for set in [&dep_set, &copy] {
        assert!(set.contains_text("b"));
        assert!(set.contains_text(&"b".to_string()));
    }
}

#[test]
fn dep_set_to_ref_and_into_owned() {
    for (s, len) in [
        ("", 0),
        ("a b", 2),
        ("!a b", 2),
        ("( a b ) c", 2),
        ("( a !b ) c", 2),
        ("|| ( a b ) c", 2),
        ("^^ ( a b ) c", 2),
        ("?? ( a b ) c", 2),
        ("u? ( a b ) c", 2),
        ("!u? ( a b ) c", 2),
    ] {
        let dep_set = ru_set(s);
        assert_eq!(dep_set.is_empty(), s.is_empty());
        assert_eq!(dep_set.len(), len);
        let copy = dep_set.duplicate();
        assert!(dep_set.same(&copy));
        assert!(copy.same(&dep_set));
        let owned = copy.duplicate();
        assert!(dep_set.same(&owned));
    }
}

#[test]
fn dep_set_iter() {
    for (s, expected) in [
        ("( a ) b", vec!["( a )", "b"]),
        ("a", vec!["a"]),
        ("!a", vec!["!a"]),
        ("( a b ) c", vec!["( a b )", "c"]),
        ("( a !b ) c", vec!["( a !b )", "c"]),
        ("|| ( a b ) c", vec!["|| ( a b )", "c"]),
        ("^^ ( a b ) c", vec!["^^ ( a b )", "c"]),
        ("?? ( a b ) c", vec!["?? ( a b )", "c"]),
        ("u? ( a b ) c", vec!["u? ( a b )", "c"]),
        ("u1? ( a !u2? ( b ) ) c", vec!["u1? ( a !u2? ( b ) )", "c"]),
    ] {
        let dep_set = ru_set(s);
        let items: Vec<String> = dep_set.iter().into_iter().map(|x| x.to_string()).collect();
        assert_eq!(items, expected, "{s}");
        let reversed: Vec<String> = dep_set.iter().into_iter().rev().map(|x| x.to_string()).collect();
        let expected_rev: Vec<&str> = expected.iter().rev().copied().collect();
        assert_eq!(reversed, expected_rev, "{s}");
    }
}

#[test]
fn dep_set_iter_flatten() {
    for (s, expected) in [
        ("( a ) b", vec!["a", "b"]),
        ("a", vec!["a"]),
        ("!a", vec!["a"]),
        ("( a b ) c", vec!["a", "b", "c"]),
        ("( a !b ) c", vec!["a", "b", "c"]),
        ("|| ( a b ) c", vec!["a", "b", "c"]),
        ("^^ ( a b ) c", vec!["a", "b", "c"]),
        ("?? ( a b ) c", vec!["a", "b", "c"]),
        ("u? ( a b ) c", vec!["a", "b", "c"]),
        ("u1? ( a !u2? ( b ) ) c", vec!["a", "b", "c"]),
    ] {
        let dep_set = ru_set(s);
        assert_eq!(flatten(&dep_set), expected, "{s}");
        let reversed: Vec<String> = flatten(&dep_set).into_iter().rev().collect();
        let expected_rev: Vec<&str> = expected.iter().rev().copied().collect();
        assert_eq!(reversed, expected_rev, "{s}");
    }
}

#[test]
fn dep_set_iter_recursive() {
    for (s, expected) in [
        ("( a ) b", vec!["( a )", "a", "b"]),
        ("a", vec!["a"]),
        ("!a", vec!["!a"]),
        ("( a b ) c", vec!["( a b )", "a", "b", "c"]),
        ("( a !b ) c", vec!["( a !b )", "a", "!b", "c"]),
        ("|| ( a b ) c", vec!["|| ( a b )", "a", "b", "c"]),
        ("^^ ( a b ) c", vec!["^^ ( a b )", "a", "b", "c"]),
        ("?? ( a b ) c", vec!["?? ( a b )", "a", "b", "c"]),
        ("u? ( a b ) c", vec!["u? ( a b )", "a", "b", "c"]),
        ("u1? ( a !u2? ( b ) ) c", vec!["u1? ( a !u2? ( b ) )", "a", "!u2? ( b )", "b", "c"]),
    ] {
        let dep_set = ru_set(s);
        let items: Vec<String> = dep_set.iter_recursive().into_iter().map(|x| x.to_string()).collect();
        assert_eq!(items, expected, "{s}");
    }
}

#[test]
fn dep_set_iter_conditionals() {
    for (s, expected) in [
        ("u? ( a ) b", vec!["u?"]),
        ("a", vec![]),
        ("!a", vec![]),
        ("( a b ) c", vec![]),
        ("( a !b ) c", vec![]),
        ("|| ( a b ) c", vec![]),
        ("^^ ( a b ) c", vec![]),
        ("?? ( a b ) c", vec![]),
        ("u? ( a b ) c", vec!["u?"]),
        ("u1? ( a !u2? ( b ) ) c", vec!["u1?", "!u2?"]),
    ] {
        let dep_set = ru_set(s);
        let conds: Vec<String> = dep_set.iter_conditionals().iter().map(|x| x.to_string()).collect();
        assert_eq!(conds, expected, "{s}");
    }
}

#[test]
fn dep_iter_conditional_flatten() {
    for (s, expected) in [
        ("u? ( a ) b", vec![(vec!["u?"], "a"), (vec![], "b")]),
        ("a", vec![(vec![], "a")]),
        ("!a", vec![(vec![], "a")]),
        ("( a b ) c", vec![(vec![], "a"), (vec![], "b"), (vec![], "c")]),
        ("( a !b ) c", vec![(vec![], "a"), (vec![], "b"), (vec![], "c")]),
        ("|| ( a b ) c", vec![(vec![], "a"), (vec![], "b"), (vec![], "c")]),
        ("^^ ( a b ) c", vec![(vec![], "a"), (vec![], "b"), (vec![], "c")]),
        ("?? ( a b ) c", vec![(vec![], "a"), (vec![], "b"), (vec![], "c")]),
        ("u? ( a b ) c", vec![(vec!["u?"], "a"), (vec!["u?"], "b"), (vec![], "c")]),
        (
            "u1? ( a !u2? ( b ) ) c",
            vec![(vec!["u1?"], "a"), (vec!["u1?", "!u2?"], "b"), (vec![], "c")],
        ),
    ] {
        let dep_set = ru_set(s);
        let test = dep_set.iter_conditional_flatten();
        assert_eq!(test.len(), expected.len(), "{s}");
        for ((test_use, test_dep), (expected_use, expected_dep)) in test.iter().zip(expected.iter()) {
            let uses: Vec<String> = test_use.iter().map(|x| x.to_string()).collect();
            assert_eq!(uses, *expected_use, "{s}");
            assert_eq!(test_dep, expected_dep, "{s}");
        }
    }
}

#[test]
fn dep_set_sort() {
    // dependencies
    for (s, expected) in [
        ("c/d a/b", "a/b c/d"),
        ("( c/d a/b ) z/z", "z/z ( c/d a/b )"),
        ("|| ( c/d a/b ) z/z", "z/z || ( c/d a/b )"),
        ("u? ( c/d a/b ) z/z", "z/z u? ( c/d a/b )"),
        ("!u? ( c/d a/b ) z/z", "z/z !u? ( c/d a/b )"),
    ] {
        let mut set = package_set(s);
        set.sort();
        assert_eq!(set.to_string(), expected);
    }

    // REQUIRED_USE
    for (s, expected) in [
        ("b a", "a b"),
        ("b !a", "b !a"),
        ("( b a ) z", "z ( b a )"),
        ("( b !a ) z", "z ( b !a )"),
        ("|| ( b a ) z", "z || ( b a )"),
        ("^^ ( b a ) z", "z ^^ ( b a )"),
        ("?? ( b a ) z", "z ?? ( b a )"),
        ("u? ( b a ) z", "z u? ( b a )"),
        ("!u? ( b a ) z", "z !u? ( b a )"),
    ] {
        let mut set = ru_set(s);
        set.sort();
        assert_eq!(set.to_string(), expected);
    }
}

#[test]
fn dep_set_sort_recursive() {
    // dependencies
    for (s, expected) in [
        ("c/d a/b", "a/b c/d"),
        ("( c/d a/b ) z/z", "z/z ( a/b c/d )"),
        ("|| ( c/d a/b ) z/z", "z/z || ( c/d a/b )"),
        ("u? ( c/d a/b ) z/z", "z/z u? ( a/b c/d )"),
        ("!u? ( c/d a/b ) z/z", "z/z !u? ( a/b c/d )"),
    ] {
        let mut set = package_set(s);
        set.sort_recursive();
        assert_eq!(set.to_string(), expected);
    }

    // REQUIRED_USE
    for (s, expected) in [
        ("b a", "a b"),
        ("b !a", "b !a"),
        ("( b a ) z", "z ( a b )"),
        ("( b !a ) z", "z ( b !a )"),
        ("|| ( b a ) z", "z || ( b a )"),
        ("^^ ( b a ) z", "z ^^ ( b a )"),
        ("?? ( b a ) z", "z ?? ( b a )"),
        ("u? ( b a ) z", "z u? ( a b )"),
        ("!u? ( b a ) z", "z !u? ( a b )"),
    ] {
        let mut set = ru_set(s);
        set.sort_recursive();
        assert_eq!(set.to_string(), expected);
    }
}

#[test]
fn dep_set_sort_recursive_merges() {
    // groups that sorting within makes equal are kept once
    let mut set = ru_set("( b a ) z ( a b )");
    assert_eq!(set.len(), 3);
    set.sort_recursive();
    assert_eq!(set.to_string(), "z ( a b )");
    assert_eq!(set.len(), 2);
}

#[test]
fn license() {
    // invalid
    for s in ["(", ")", "( )", "( l1)", "| ( l1 )", "!use ( l1 )"] {
        assert!(DependencySet::license(s).is_err(), "{s:?} didn't fail");
        assert!(license_dependency(s).is_err(), "{s:?} didn't fail");
    }

    // empty set
    assert!(DependencySet::license("").unwrap().is_empty());

    // valid
    for (s, expected_flatten) in [
        ("v", vec!["v"]),
        ("v1 v2", vec!["v1", "v2"]),
        ("( v )", vec!["v"]),
        ("( v1 v2 )", vec!["v1", "v2"]),
        ("( v1 ( v2 ) )", vec!["v1", "v2"]),
        ("( ( v ) )", vec!["v"]),
        ("|| ( v )", vec!["v"]),
        ("|| ( v1 v2 )", vec!["v1", "v2"]),
        ("u? ( v )", vec!["v"]),
        ("u? ( v1 v2 )", vec!["v1", "v2"]),
        ("v1 u? ( v2 )", vec!["v1", "v2"]),
        ("!u? ( || ( v1 v2 ) )", vec!["v1", "v2"]),
    ] {
        let depset = DependencySet::license(s).unwrap();
        assert_eq!(depset.to_string(), s);
        assert_eq!(flatten(&depset), expected_flatten);
    }
}

#[test]
fn src_uri() {
    // invalid
    for s in ["http://", "https://a/uri/with/no/filename/"] {
        assert!(DependencySet::src_uri(s).is_err(), "{s:?} didn't fail");
        assert!(src_uri_dependency(s).is_err(), "{s:?} didn't fail");
    }

    // empty set
    assert!(DependencySet::src_uri("").unwrap().is_empty());

    // valid
    for (s, expected_flatten) in [
        ("uri", vec!["uri"]),
        ("http://uri", vec!["http://uri"]),
        ("uri1 uri2", vec!["uri1", "uri2"]),
        ("( http://uri1 http://uri2 )", vec!["http://uri1", "http://uri2"]),
        ("u1? ( http://uri1 !u2? ( http://uri2 ) )", vec!["http://uri1", "http://uri2"]),
    ] {
        let depset = DependencySet::src_uri(s).unwrap();
        assert_eq!(depset.to_string(), s);
        assert_eq!(flatten(&depset), expected_flatten);
    }

    // renames
    for (s, expected_flatten) in [
        ("http://uri -> file", vec!["http://uri -> file"]),
        ("u? ( http://uri -> file )", vec!["http://uri -> file"]),
    ] {
        let depset = DependencySet::src_uri(s).unwrap();
        assert_eq!(depset.to_string(), s);
        assert_eq!(flatten(&depset), expected_flatten);
    }
}

#[test]
fn required_use() {
    // invalid
    for s in ["(", ")", "( )", "( u)", "| ( u )", "|| ( )", "^^ ( )", "?? ( )"] {
        assert!(DependencySet::required_use(s).is_err(), "{s:?} didn't fail");
        assert!(required_use_dependency(s).is_err(), "{s:?} didn't fail");
    }

    // empty set
    assert!(DependencySet::required_use("").unwrap().is_empty());

    // valid
    for (s, expected_flatten) in [
        ("u", vec!["u"]),
        ("!u", vec!["u"]),
        ("u1 !u2", vec!["u1", "u2"]),
        ("( u )", vec!["u"]),
        ("( u1 u2 )", vec!["u1", "u2"]),
        ("|| ( u )", vec!["u"]),
        ("|| ( !u1 u2 )", vec!["u1", "u2"]),
        ("^^ ( u1 !u2 )", vec!["u1", "u2"]),
        ("u1? ( u2 )", vec!["u2"]),
        ("u1? ( u2 !u3 )", vec!["u2", "u3"]),
        ("!u1? ( || ( u2 u3 ) )", vec!["u2", "u3"]),
    ] {
        let depset = DependencySet::required_use(s).unwrap();
        assert_eq!(depset.to_string(), s);
        assert_eq!(flatten(&depset), expected_flatten);
    }

    // ?? operator
    for (s, expected_flatten) in [("?? ( u1 u2 )", vec!["u1", "u2"])] {
        let depset = DependencySet::required_use(s).unwrap();
        assert_eq!(depset.to_string(), s);
        assert_eq!(flatten(&depset), expected_flatten);
    }
}

#[test]
fn package() {
    // invalid
    for s in ["(", ")", "( )", "|| ( )", "( a/b)", "| ( a/b )", "use ( a/b )", "!use ( a/b )"] {
        assert!(DependencySet::package(s, false).is_err(), "{s:?} didn't fail");
        assert!(package_dependency(s, false).is_err(), "{s:?} didn't fail");
    }

    // empty set
    assert!(DependencySet::package("", false).unwrap().is_empty());

    // valid
    for (s, expected_flatten) in [
        ("a/b", vec!["a/b"]),
        ("a/b c/d", vec!["a/b", "c/d"]),
        ("( a/b c/d )", vec!["a/b", "c/d"]),
        ("u? ( a/b c/d )", vec!["a/b", "c/d"]),
        ("!u? ( a/b c/d )", vec!["a/b", "c/d"]),
        ("u1? ( a/b !u2? ( c/d ) )", vec!["a/b", "c/d"]),
    ] {
        let depset = DependencySet::package(s, false).unwrap();
        assert_eq!(depset.to_string(), s);
        assert_eq!(flatten(&depset), expected_flatten);
    }
}

#[test]
fn properties() {
    // invalid
    for s in ["(", ")", "( )", "( v)", "| ( v )", "!use ( v )", "|| ( v )", "|| ( v1 v2 )"] {
        assert!(DependencySet::properties(s).is_err(), "{s:?} didn't fail");
        assert!(properties_dependency(s).is_err(), "{s:?} didn't fail");
    }

    // empty set
    assert!(DependencySet::properties("").unwrap().is_empty());

    // valid
    for (s, expected_flatten) in [
        ("v", vec!["v"]),
        ("v1 v2", vec!["v1", "v2"]),
        ("( v )", vec!["v"]),
        ("( v1 v2 )", vec!["v1", "v2"]),
        ("( v1 ( v2 ) )", vec!["v1", "v2"]),
        ("( ( v ) )", vec!["v"]),
        ("u? ( v )", vec!["v"]),
        ("u? ( v1 v2 )", vec!["v1", "v2"]),
        ("!u? ( v1 v2 )", vec!["v1", "v2"]),
        ("v1 u? ( v2 )", vec!["v1", "v2"]),
    ] {
        let depset = DependencySet::properties(s).unwrap();
        assert_eq!(depset.to_string(), s);
        assert_eq!(flatten(&depset), expected_flatten);
    }
}

#[test]
fn restrict() {
    // invalid
    for s in ["(", ")", "( )", "( v)", "| ( v )", "!use ( v )", "|| ( v )", "|| ( v1 v2 )"] {
        assert!(DependencySet::restrict(s).is_err(), "{s:?} didn't fail");
        assert!(restrict_dependency(s).is_err(), "{s:?} didn't fail");
    }

    // empty set
    assert!(DependencySet::restrict("").unwrap().is_empty());

    // valid
    for (s, expected_flatten) in [
        ("v", vec!["v"]),
        ("v1 v2", vec!["v1", "v2"]),
        ("( v )", vec!["v"]),
        ("( v1 v2 )", vec!["v1", "v2"]),
        ("( v1 ( v2 ) )", vec!["v1", "v2"]),
        ("( ( v ) )", vec!["v"]),
        ("u? ( v )", vec!["v"]),
        ("u? ( v1 v2 )", vec!["v1", "v2"]),
        ("!u? ( v1 v2 )", vec!["v1", "v2"]),
        ("v1 u? ( v2 )", vec!["v1", "v2"]),
    ] {
        let depset = DependencySet::restrict(s).unwrap();
        assert_eq!(depset.to_string(), s);
        assert_eq!(flatten(&depset), expected_flatten);
    }
}

#[test]
fn dep_set_text_edges() {
    // separators at either end are refused; runs of separators between
    // items are accepted and written back as single spaces
    assert!(DependencySet::license(" a").is_err());
    assert!(DependencySet::license("a ").is_err());
    assert_eq!(DependencySet::license("a \n\tb").unwrap().to_string(), "a b");
    // a repeated item is kept once
    assert_eq!(DependencySet::license("a b a").unwrap().to_string(), "a b");
    // repo dependencies only where allowed
    assert!(DependencySet::package("a/b::repo", true).is_ok());
    assert!(DependencySet::package("a/b::repo", false).is_err());
}

#[test]
fn dep_set_operations() {
    let a = ru_set("a b c");
    let b = ru_set("c d");
    assert_eq!(a.bitand(&b).to_string(), "c");
    assert_eq!(a.bitor(&b).to_string(), "a b c d");
    assert_eq!(a.bitxor(&b).to_string(), "a b d");
    assert_eq!(a.sub(&b).to_string(), "a b");
    let mut c = a.duplicate();
    c.bitand_assign(&b);
    assert_eq!(c.to_string(), "c");
    let mut c = a.duplicate();
    c.bitor_assign(&b);
    assert_eq!(c.to_string(), "a b c d");
    let mut c = a.duplicate();
    c.bitxor_assign(&b);
    assert_eq!(c.to_string(), "a b d");
    let mut c = a.duplicate();
    c.sub_assign(&b);
    assert_eq!(c.to_string(), "a b");
}

#[test]
fn dep_set_replace() {
    let tree = |s: &str| required_use_dependency(s).unwrap();

    // a new tree takes the place of the one replaced
    let mut set = ru_set("a b c");
    let old = set.shift_replace_index(1, tree("d")).unwrap();
    assert_eq!(old.to_string(), "b");
    assert_eq!(set.to_string(), "a d c");

    // a tree already present elsewhere stays there; the replaced one goes
    let old = set.shift_replace_index(0, tree("c")).unwrap();
    assert_eq!(old.to_string(), "a");
    assert_eq!(set.to_string(), "d c");

    // nothing past the end, nothing for a tree already in place
    assert!(set.shift_replace_index(5, tree("x")).is_none());
    assert!(set.shift_replace_index(1, tree("c")).is_none());
    assert_eq!(set.to_string(), "d c");

    // swapping moves the last tree into the gap
    let mut set = ru_set("a b c d");
    let old = set.swap_replace_index(0, tree("c")).unwrap();
    assert_eq!(old.to_string(), "a");
    assert_eq!(set.to_string(), "d b c");

    // by key
    let mut set = ru_set("a b c");
    let old = set.shift_replace(&tree("b"), tree("e")).unwrap();
    assert_eq!(old.to_string(), "b");
    assert_eq!(set.to_string(), "a e c");
    assert!(set.swap_replace(&tree("z"), tree("y")).is_none());
    let old = set.swap_replace(&tree("a"), tree("c")).unwrap();
    assert_eq!(old.to_string(), "a");
    assert_eq!(set.to_string(), "c e");
}

#[test]
fn dependency_set_parsers() {
    let set = license_dependency_set("a b a").unwrap();
    assert_eq!(set.to_string(), "a b");
    assert!(license_dependency_set("(").is_err());
    assert_eq!(properties_dependency_set("live").unwrap().to_string(), "live");
    assert!(properties_dependency_set("|| ( live )").is_err());
    assert_eq!(required_use_dependency_set("^^ ( a b )").unwrap().to_string(), "^^ ( a b )");
    assert_eq!(restrict_dependency_set("!test? ( test )").unwrap().to_string(), "!test? ( test )");
    assert_eq!(
        src_uri_dependency_set("https://a.com/b -> c").unwrap().to_string(),
        "https://a.com/b -> c"
    );
    assert_eq!(package_dependency_set("cat/pkg::repo", true).unwrap().to_string(), "cat/pkg::repo");
    assert!(package_dependency_set("cat/pkg::repo", false).is_err());
    assert!(package_dependency_set("", true).unwrap().is_empty());
}
