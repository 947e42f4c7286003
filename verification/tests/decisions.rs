use pkgcraft::cache::{
    cache_removal, regen_message, regen_outcome, regen_plan, CacheFormat, CacheRemoval, RegenError,
    RegenOptions,
};
use pkgcraft::files::{group, group_from_lookup, parse_mode, user, user_from_lookup, FileError, Lookup};
use pkgcraft::manifest::{
    bounded_jobs, exit_status, manifest_output, manifest_thick, pkg_action, progress_hidden,
    regen_entry, regen_manifest, show_global_progress, ManifestOutput, ManifestRun, ManifestState,
    PkgAction, PkgManifestInfo,
};
use pkgcraft::ordered_set::set_values;
use pkgcraft::phases::{eapply_args, nofetch_message, pretend_report, pretend_runs, test_target, trim};

fn strings(v: &[&str]) -> Vec<String> {
    v.iter().map(|s| s.to_string()).collect()
}

fn manifest(thick: bool, entries: &[(&str, &[&str])]) -> ManifestState {
    ManifestState {
        thick,
        entries: entries.iter().map(|(n, h)| (n.to_string(), strings(h))).collect(),
    }
}

#[test]
fn manifest_types() {
    assert!(manifest_thick(Some(true), true));
    assert!(!manifest_thick(Some(false), false));
    assert!(manifest_thick(None, false));
    assert!(!manifest_thick(None, true));
}

#[test]
fn manifest_entries() {
    let hashes = strings(&["BLAKE2B", "SHA512"]);
    let m = manifest(false, &[("a.tar.gz", &["BLAKE2B", "SHA512"]), ("b.tar.gz", &["SHA512"])]);
    assert!(!regen_entry(&m, "a.tar.gz", false, &hashes));
    // different hashes
    assert!(regen_entry(&m, "b.tar.gz", false, &hashes));
    // hash order matters
    assert!(regen_entry(&m, "a.tar.gz", false, &strings(&["SHA512", "BLAKE2B"])));
    // missing entry
    assert!(regen_entry(&m, "c.tar.gz", false, &hashes));
    // type mismatch
    assert!(regen_entry(&m, "a.tar.gz", true, &hashes));

    assert!(!regen_manifest(&m, false, &hashes));
    assert!(regen_manifest(&m, true, &hashes));
    assert!(regen_manifest(&m, false, &strings(&["BLAKE2B"])));
}

#[test]
fn manifest_pkg_actions() {
    let info = |restricted: bool, distfiles: &[&str]| PkgManifestInfo {
        fetch_restricted: restricted,
        thin_manifests: true,
        repo_hashes: strings(&["BLAKE2B"]),
        distfiles: strings(distfiles),
        manifest: manifest(false, &[("a", &["BLAKE2B"])]),
    };
    let run = ManifestRun { force: false, restrict: false, thick: None };
    assert!(matches!(pkg_action(&run, &info(true, &["a"])), PkgAction::SkipRestricted));
    assert!(matches!(pkg_action(&run, &info(false, &["a"])), PkgAction::Unchanged));
    match pkg_action(&run, &info(false, &["a", "b"])) {
        PkgAction::Regenerate { thick, fetch } => {
            assert!(!thick);
            assert_eq!(fetch, vec![1]);
        }
        other => panic!("{other:?}"),
    }
    let forced = ManifestRun { force: true, restrict: true, thick: Some(true) };
    match pkg_action(&forced, &info(true, &["a", "b"])) {
        PkgAction::Regenerate { thick, fetch } => {
            assert!(thick);
            assert_eq!(fetch, vec![0, 1]);
        }
        other => panic!("{other:?}"),
    }
}

#[test]
fn manifest_run_outputs() {
    assert!(show_global_progress(4, 3));
    assert!(!show_global_progress(3, 3));
    assert!(progress_hidden(false, false));
    assert!(progress_hidden(true, true));
    assert!(!progress_hidden(true, false));
    assert_eq!(manifest_output(true, true, true), ManifestOutput::Print);
    assert_eq!(manifest_output(false, false, false), ManifestOutput::Write);
    assert_eq!(manifest_output(false, true, true), ManifestOutput::Remove);
    assert_eq!(manifest_output(false, true, false), ManifestOutput::Keep);
    assert_eq!(exit_status(false, false), 0);
    assert_eq!(exit_status(true, false), 1);
    assert_eq!(exit_status(false, true), 1);
}

#[test]
fn job_bounds() {
    assert_eq!(bounded_jobs(2, 4), 2);
    assert_eq!(bounded_jobs(0, 4), 4);
    assert_eq!(bounded_jobs(8, 4), 4);
    assert_eq!(bounded_jobs(4, 4), 4);
}

#[test]
fn cache_formats() {
    assert_eq!(CacheFormat::default_format().name(), "md5-dict");
    assert_eq!(CacheFormat::from_name("md5-dict"), Some(CacheFormat::Md5Dict));
    assert_eq!(CacheFormat::from_name("md5_dict"), None);
    assert_eq!(CacheFormat::from_name("Md5Dict"), None);
}

#[test]
fn regen_settings() {
    let o = RegenOptions::new(8).jobs(3, 8).force(true).progress(true).output(true).verify(true);
    assert_eq!(o.jobs, 3);
    assert!(o.force && o.progress && o.output && o.verify && !o.targeted);
    let o = RegenOptions::new(8).jobs(0, 8);
    assert_eq!(o.jobs, 8);
    let o = RegenOptions::new(2)
        .targets(strings(&["cat/pkg-1", "cat/pkg-2", "cat/pkg-1"]))
        .targets(strings(&["cat/pkg-2", "cat/pkg-3"]));
    assert!(o.targeted);
    assert_eq!(set_values(&o.targets), strings(&["cat/pkg-1", "cat/pkg-2", "cat/pkg-3"]));
}

#[test]
fn regen_plans() {
    let o = RegenOptions::new(1);
    let p = regen_plan(&o, true);
    assert!(p.prune && p.validate);
    let p = regen_plan(&o, false);
    assert!(!p.prune && !p.validate);
    let o = RegenOptions::new(1).force(true).verify(true);
    let p = regen_plan(&o, true);
    assert!(!p.prune && !p.validate);
    let o = RegenOptions::new(1).targets(strings(&["cat/pkg-1"]));
    assert!(!regen_plan(&o, true).prune);
    assert_eq!(regen_message(true), "verifying metadata:");
    assert_eq!(regen_message(false), "generating metadata:");
    assert_eq!(regen_outcome(0), Ok(()));
    assert_eq!(regen_outcome(3), Err(RegenError::MetadataFailures));
}

#[test]
fn cache_removals() {
    assert_eq!(cache_removal("/elsewhere/cache", "/repo", true), CacheRemoval::External);
    assert_eq!(cache_removal("/repo-other/cache", "/repo", true), CacheRemoval::External);
    assert_eq!(cache_removal("/repo/metadata/md5-cache", "/repo", false), CacheRemoval::Missing);
    assert_eq!(cache_removal("/repo/metadata/md5-cache", "/repo", true), CacheRemoval::Remove);
}

#[test]
fn modes() {
    assert_eq!(parse_mode("0755").unwrap(), 0o755);
    assert_eq!(parse_mode("0o644").unwrap(), 0o644);
    assert_eq!(parse_mode("0o0o644").unwrap(), 0o644);
    assert_eq!(parse_mode("+755").unwrap(), 0o755);
    assert_eq!(parse_mode("7777").unwrap(), 0o7777);
    for s in ["", "0o", "8", "-755", "0x755", "10000", " 755", "99999999999999"] {
        match parse_mode(s) {
            Err(FileError::InvalidMode(t)) => assert_eq!(t, s),
            other => panic!("{s:?}: {other:?}"),
        }
    }
}

#[test]
fn owners() {
    assert_eq!(group_from_lookup("wheel", Lookup::Found(10)).unwrap(), 10);
    assert!(matches!(group_from_lookup("nobody", Lookup::Missing), Err(FileError::UnknownGroup(g)) if g == "nobody"));
    assert!(matches!(group_from_lookup("x", Lookup::Failed), Err(FileError::InvalidGroup(g)) if g == "x"));
    assert_eq!(user_from_lookup("root", Lookup::Found(0)).unwrap(), 0);
    assert!(matches!(user_from_lookup("x", Lookup::Missing), Err(FileError::UnknownUser(u)) if u == "x"));
    assert!(matches!(user_from_lookup("x", Lookup::Failed), Err(FileError::InvalidUser(u)) if u == "x"));
    // a name no system has
    assert!(matches!(
        pkgcraft::files::group("no-such-group-exists-here"),
        Err(FileError::UnknownGroup(_)) | Err(FileError::InvalidGroup(_))
    ));
    assert!(pkgcraft::files::user("root").is_ok());
}

#[test]
fn trimming() {
    assert_eq!(trim("  a b \n"), "a b");
    assert_eq!(trim("\t\n "), "");
    assert_eq!(trim("x"), "x");
    assert_eq!(trim(&trim(" y ")), "y");
}

#[test]
fn pretend() {
    let phases = strings(&["prepare", "pretend"]);
    assert!(pretend_runs(true, &phases));
    assert!(!pretend_runs(false, &phases));
    assert!(!pretend_runs(true, &strings(&["prepare"])));

    // success
    assert_eq!(pretend_report("cat/pkg-1", None, ""), Ok(None));
    // success with output
    assert_eq!(pretend_report("cat/pkg-1", None, " output\n"), Ok(Some("cat/pkg-1\noutput".to_string())));
    // failure
    assert_eq!(pretend_report("cat/pkg-1", Some("failed"), "\n"), Err("cat/pkg-1: failed".to_string()));
    // failure with output
    assert_eq!(
        pretend_report("cat/pkg-1", Some("failed"), "output\n"),
        Err("cat/pkg-1: failed\noutput".to_string())
    );
}

#[test]
fn nofetch_messages() {
    assert_eq!(nofetch_message("cat/pkg-1", &vec![]), "");
    assert_eq!(
        nofetch_message("cat/pkg-1", &strings(&["https://a/a.tar.gz", "https://b/b.tar.gz"])),
        "The following files must be manually downloaded for cat/pkg-1:\nhttps://a/a.tar.gz\nhttps://b/b.tar.gz\n"
    );
}

#[test]
fn test_src_prepare() {
    // PATCHES empty
    assert!(eapply_args(&vec![]).is_none());
    // no options in PATCHES: they're passed as files after `--`
    assert_eq!(eapply_args(&strings(&["-p1", "1.patch"])).unwrap(), strings(&["--", "-p1", "1.patch"]));
}

#[test]
fn test_targets() {
    assert_eq!(test_target(true, true), Some("check"));
    assert_eq!(test_target(false, true), Some("test"));
    assert_eq!(test_target(false, false), None);
}

#[test]
fn nul_names_unknown() {
    match group("wheel\0x") {
        Err(FileError::UnknownGroup(s)) => assert_eq!(s, "wheel\0x"),
        r => panic!("unexpected {r:?}"),
    }
    match user("root\0x") {
        Err(FileError::UnknownUser(s)) => assert_eq!(s, "root\0x"),
        r => panic!("unexpected {r:?}"),
    }
}
