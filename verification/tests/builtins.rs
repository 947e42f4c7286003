use pkgcraft::builtins::{
    debug_print_section, default_phase, dolib_so_args, dostrip, has, into, usev, ArgCount,
    BuiltinError, ExecStatus, StripSets,
};
use pkgcraft::shell::PhaseKind;

fn numbered(n: u32) -> Vec<String> {
    (0..n).map(|n| n.to_string()).collect()
}

fn args(v: &[&str]) -> Vec<String> {
    v.iter().map(|s| s.to_string()).collect()
}

fn got(e: &BuiltinError) -> usize {
    match e {
        BuiltinError::Args { got, .. } => *got,
        other => panic!("not an argument error: {other:?}"),
    }
}

#[test]
fn into_invalid_args() {
    for n in [0] {
        let e = into(&numbered(n)).unwrap_err();
        assert_eq!(got(&e), n as usize);
    }
}

#[test]
fn into_paths() {
    assert_eq!(into(&args(&["/test/path"])).unwrap(), "/test/path");
    assert_eq!(into(&args(&["/"])).unwrap(), "");
    assert!(into(&args(&["a", "b"])).is_err());
}

#[test]
fn default_invalid_args() {
    for n in [1] {
        let e = default_phase(n, Some(PhaseKind::SrcPrepare)).unwrap_err();
        assert_eq!(got(&e), n);
        assert_eq!(e.message(), format!("takes no args, got {n}"));
    }
}

#[test]
fn default_phases() {
    assert!(matches!(default_phase(0, None), Err(BuiltinError::NotInPhase)));
    assert_eq!(default_phase(0, Some(PhaseKind::SrcPrepare)).unwrap(), PhaseKind::SrcPrepare);
}

#[test]
fn dolib_so_invalid_args() {
    for n in [0] {
        let e = dolib_so_args(&numbered(n)).unwrap_err();
        assert_eq!(got(&e), n as usize);
    }
    assert!(dolib_so_args(&args(&["nonexistent"])).is_ok());
}

#[test]
fn has_invalid_args() {
    for n in [0] {
        let e = has(&numbered(n)).unwrap_err();
        assert_eq!(got(&e), n as usize);
    }
}

#[test]
fn has_contains() {
    // no haystack
    assert_eq!(has(&args(&["1"])).unwrap(), ExecStatus::Failure(1));
    // single element
    assert_eq!(has(&args(&["1", "1"])).unwrap(), ExecStatus::Success);
    // multiple elements
    assert_eq!(has(&args(&["5", "1", "2", "3", "4", "5"])).unwrap(), ExecStatus::Success);
    assert_eq!(has(&args(&["6", "1", "2", "3", "4", "5"])).unwrap(), ExecStatus::Failure(1));
    // no needle
    assert_eq!(has(&args(&[])).unwrap_err().message(), "requires 1 or more args, got 0");
}

#[test]
fn debug_print_section_invalid_args() {
    for n in [0] {
        let e = debug_print_section(&numbered(n)).unwrap_err();
        assert_eq!(got(&e), n as usize);
    }
    let out = debug_print_section(&args(&["a", "b"])).unwrap();
    assert_eq!(out, args(&["now in section", "a", "b"]));
}

#[test]
fn usev_invalid_args() {
    for n in [0, 3] {
        for two_args in [false, true] {
            let e = usev(&numbered(n), two_args).unwrap_err();
            assert_eq!(got(&e), n as usize);
        }
    }
    // EAPIs without two-argument usev
    let e = usev(&numbered(2), false).unwrap_err();
    assert!(matches!(e, BuiltinError::Args { requires: ArgCount::ExactlyOne, got: 2 }));
    assert_eq!(e.message(), "requires 1 arg, got 2");
    assert_eq!(usev(&numbered(3), true).unwrap_err().message(), "requires 1 or 2 args, got 3");
}

#[test]
fn usev_values() {
    assert_eq!(usev(&args(&["use"]), false).unwrap(), ("use".to_string(), "use".to_string()));
    assert_eq!(usev(&args(&["!use"]), false).unwrap(), ("!use".to_string(), "use".to_string()));
    assert_eq!(usev(&args(&["use", "val"]), true).unwrap(), ("use".to_string(), "val".to_string()));
}

#[test]
fn dostrip_builtin_invalid_args() {
    let mut sets = StripSets { included: vec![], excluded: vec![] };
    for n in [0] {
        let e = dostrip(&mut sets, &numbered(n)).unwrap_err();
        assert_eq!(got(&e), n as usize);
    }
    // missing args
    let e = dostrip(&mut sets, &args(&["-x"])).unwrap_err();
    assert!(matches!(e, BuiltinError::Args { requires: ArgCount::AtLeastOne, got: 0 }));
    assert!(e.message().starts_with("requires 1 or more args, got 0"));
}

#[test]
fn test_include() {
    let mut sets = StripSets { included: vec![], excluded: vec![] };
    dostrip(&mut sets, &args(&["/test/path"])).unwrap();
    assert!(sets.included.iter().any(|x| x == "/test/path"));
}

#[test]
fn test_exclude() {
    let mut sets = StripSets { included: vec![], excluded: vec![] };
    dostrip(&mut sets, &args(&["-x", "/test/path"])).unwrap();
    assert!(sets.excluded.iter().any(|x| x == "/test/path"));
}
