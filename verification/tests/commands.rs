use pkgcraft::builtins::{ExecStatus, StripSets};
use pkgcraft::cli::ArgError;
use pkgcraft::commands::{
    doc_dest, doc_install_plan, docinto, dodoc_args, dostrip_command, export_functions,
    ver_cut_command, CommandError, EclassPhases,
};
use pkgcraft::shell::PhaseKind;
use pkgcraft::ver_cut::VersionCmdError;

fn args(v: &[&str]) -> Vec<String> {
    v.iter().map(|s| s.to_string()).collect()
}

fn numbered(n: u32) -> Vec<String> {
    (0..n).map(|n| n.to_string()).collect()
}

#[test]
fn docinto_invalid_args() {
    for n in [0, 2] {
        assert!(docinto(&numbered(n)).is_err());
    }
}

#[test]
fn docinto_paths() {
    assert_eq!(docinto(&args(&["examples"])).ok().unwrap(), "examples");
    assert_eq!(docinto(&args(&["/"])).ok().unwrap(), "/");
    assert_eq!(docinto(&args(&["-"])).ok().unwrap(), "-");
    assert_eq!(docinto(&args(&["-dir"])).ok().unwrap(), "-dir");
    assert!(matches!(docinto(&args(&["--help"])), Err(CommandError::Args(ArgError::Help))));
    assert!(matches!(docinto(&args(&[])), Err(CommandError::Args(ArgError::Missing))));
    assert!(matches!(docinto(&args(&["a", "b"])), Err(CommandError::Args(ArgError::TooMany(1)))));
}

#[test]
fn doc_destinations() {
    assert_eq!(doc_dest("pkg-1", "examples"), "/usr/share/doc/pkg-1/examples");
    assert_eq!(doc_dest("pkg-1", "/"), "/usr/share/doc/pkg-1/");
    assert_eq!(doc_dest("pkg-1", "-"), "/usr/share/doc/pkg-1/-");
    assert_eq!(doc_dest("pkg-1", "//newdir"), "/usr/share/doc/pkg-1/newdir");
}

#[test]
fn dostrip_invalid_args() {
    let mut sets = StripSets { included: vec![], excluded: vec![] };
    assert!(dostrip_command(&mut sets, &numbered(0)).is_err());

    // missing args
    assert!(dostrip_command(&mut sets, &args(&["-x"])).is_err());
}

#[test]
fn dostrip_paths_included() {
    let mut sets = StripSets { included: vec![], excluded: vec![] };
    dostrip_command(&mut sets, &args(&["/test/path"])).ok().unwrap();
    assert!(sets.included.iter().any(|x| x == "/test/path"));
    assert!(sets.excluded.is_empty());
}

#[test]
fn exclude() {
    let mut sets = StripSets { included: vec![], excluded: vec![] };
    let r = dostrip_command(&mut sets, &args(&["-x", "/test/path"]));
    assert!(matches!(r, Ok(ExecStatus::Success)));
    assert!(sets.excluded.iter().any(|x| x == "/test/path"));
    assert!(sets.included.is_empty());
}

#[test]
fn dostrip_flag_errors() {
    let mut sets = StripSets { included: vec![], excluded: vec![] };
    let r = dostrip_command(&mut sets, &args(&["-x", "a", "-x"]));
    assert!(matches!(r, Err(CommandError::Args(ArgError::Repeated(2)))));
    let r = dostrip_command(&mut sets, &args(&["-y", "a"]));
    assert!(matches!(r, Err(CommandError::Args(ArgError::Unexpected(0)))));
    let r = dostrip_command(&mut sets, &args(&["-h"]));
    assert!(matches!(r, Err(CommandError::Args(ArgError::Help))));
    // paths after `--` may begin with a hyphen
    dostrip_command(&mut sets, &args(&["--", "-x"])).ok().unwrap();
    assert_eq!(sets.included, vec!["-x".to_string()]);
    assert!(sets.excluded.is_empty());
}

#[test]
fn export_functions_invalid_args() {
    let mut table = EclassPhases::new();
    let phases = vec![PhaseKind::SrcCompile];
    let eclass = "e1".to_string();
    assert!(export_functions(&numbered(0), &phases, &eclass, &mut table).is_err());
}

#[test]
fn export_functions_table() {
    let mut table = EclassPhases::new();
    let eapi = vec![PhaseKind::SrcCompile, PhaseKind::SrcConfigure, PhaseKind::SrcInstall];
    let e1 = "e1".to_string();
    let e2 = "e2".to_string();
    let r = export_functions(&args(&["src_compile"]), &eapi, &e1, &mut table);
    assert!(matches!(r, Ok(ExecStatus::Success)));
    assert_eq!(table.get(PhaseKind::SrcCompile), Some("e1".to_string()));

    // a later eclass overrides
    export_functions(&args(&["src_compile"]), &eapi, &e2, &mut table).ok().unwrap();
    assert_eq!(table.get(PhaseKind::SrcCompile), Some("e2".to_string()));

    // unknown phase name
    let r = export_functions(&args(&["src_configure", "invalid_phase"]), &eapi, &e1, &mut table);
    assert!(matches!(r, Err(CommandError::Args(ArgError::InvalidValue(1)))));
    assert_eq!(table.get(PhaseKind::SrcConfigure), None);

    // phases before an undefined one stay exported
    let r = export_functions(&args(&["src_install", "pkg_setup", "src_configure"]), &eapi, &e1, &mut table);
    assert!(matches!(r, Err(CommandError::UndefinedPhase(PhaseKind::PkgSetup))));
    assert_eq!(table.get(PhaseKind::SrcInstall), Some("e1".to_string()));
    assert_eq!(table.get(PhaseKind::SrcConfigure), None);
}

#[test]
fn dodoc_invalid_args() {
    assert!(dodoc_args(&numbered(0)).is_err());
    // missing args
    assert!(dodoc_args(&args(&["-r"])).is_err());

    let paths = args(&["dir"]);
    let r = doc_install_plan(false, &paths, &vec![true]);
    match r {
        Err(CommandError::DirectoryWithoutRecursive(d)) => assert_eq!(d, "dir"),
        _ => panic!("expected an error"),
    }
}

#[test]
fn dodoc_plan() {
    let (rec, paths) = dodoc_args(&args(&["-r", "doc", "file", "README"])).ok().unwrap();
    assert!(rec);
    assert_eq!(paths, args(&["doc", "file", "README"]));
    let (dirs, files) = doc_install_plan(rec, &paths, &vec![true, false, false]).ok().unwrap();
    assert_eq!(dirs, args(&["doc"]));
    assert_eq!(files, args(&["file", "README"]));
    let (dirs, files) = doc_install_plan(false, &args(&["a", "b"]), &vec![false, false]).ok().unwrap();
    assert!(dirs.is_empty());
    assert_eq!(files, args(&["a", "b"]));
}

#[test]
fn ver_cut_invalid_args() {
    for n in [0, 3] {
        assert!(ver_cut_command(&numbered(n), "1").is_err());
    }
}

#[test]
fn invalid_range() {
    for rng in ["-", "-2"] {
        let r = ver_cut_command(&args(&[rng, "2"]), "1");
        match r {
            Err(CommandError::Version(e)) => {
                assert!(matches!(e, VersionCmdError::InvalidRange));
                assert!(e.message().contains("invalid range"));
            }
            _ => panic!("{rng:?} didn't fail"),
        }
    }
    let r = ver_cut_command(&args(&["3-2", "1.2.3"]), "1");
    match r {
        Err(CommandError::Version(e)) => {
            assert!(matches!(e, VersionCmdError::StartAfterEnd { start: 3, end: 2 }));
            assert!(e.message().contains(" is greater than end "));
            assert_eq!(e.message(), "start of range (3) is greater than end (2)");
        }
        _ => panic!("3-2 didn't fail"),
    }
}

#[test]
fn output() {
    // invalid PV
    for (rng, ver, expected) in [
        ("1-2", ".1.2.3", "1.2"),
        ("0-2", ".1.2.3", ".1.2"),
        ("2-3", "1.2.3.", "2.3"),
        ("2-", "1.2.3.", "2.3."),
        ("2-4", "1.2.3.", "2.3."),
    ] {
        let r = ver_cut_command(&args(&[rng, ver]), "1.2.3").ok().unwrap();
        assert_eq!(r, expected);
    }

    // valid PV
    for (rng, ver, expected) in [
        ("1", "1.2.3", "1"),
        ("1-1", "1.2.3", "1"),
        ("1-2", "1.2.3", "1.2"),
        ("2-", "1.2.3", "2.3"),
        ("1-", "1.2.3", "1.2.3"),
        ("3-4", "1.2.3b_alpha4", "3b"),
        ("5", "1.2.3b_alpha4", "alpha"),
        ("0-2", "1.2.3", "1.2"),
        ("2-5", "1.2.3", "2.3"),
        ("4", "1.2.3", ""),
        ("0", "1.2.3", ""),
        ("4-", "1.2.3", ""),
    ] {
        let r = ver_cut_command(&args(&[rng, ver]), ver).ok().unwrap();
        assert_eq!(r, expected);

        // version taken from the package
        let r = ver_cut_command(&args(&[rng]), ver).ok().unwrap();
        assert_eq!(r, expected);
    }
}
