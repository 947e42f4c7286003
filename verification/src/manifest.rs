//! The decisions behind regenerating package manifests: which packages and
//! distfiles need fetching, how progress is shown and what becomes of each
//! manifest file.
use vstd::prelude::*;

use crate::builtins::contains_str;
use crate::chars::views;
use crate::shell::str_eq;

verus! {

/// Whether a manifest is thick: the requested type, else the repo's own
/// setting (thick unless the repo uses thin manifests).
pub open spec fn thick_spec(requested: Option<bool>, thin_manifests: bool) -> bool {
    match requested {
        Some(b) => b,
        None => !thin_manifests,
    }
}

/// The manifest type to use for a package.
pub fn manifest_thick(requested: Option<bool>, thin_manifests: bool) -> (r: bool)
    ensures
        r == thick_spec(requested, thin_manifests),
{
    match requested {
        Some(b) => b,
        None => !thin_manifests,
    }
}

/// A manifest as far as regeneration reads it: whether it is thick, and its
/// entries as file names with the names of their hashes in order.
pub struct ManifestState {
    pub thick: bool,
    pub entries: Vec<(String, Vec<String>)>,
}

/// The hash names of the first entry for `name`, if there is one.
pub open spec fn entry_hashes(entries: Seq<(String, Vec<String>)>, name: Seq<char>) -> Option<
    Seq<Seq<char>>,
>
    decreases entries.len(),
{
    if entries.len() == 0 {
        None
    } else if entries[0].0@ == name {
        Some(views(entries[0].1@))
    } else {
        entry_hashes(entries.drop_first(), name)
    }
}

/// A file's entry is regenerated when the manifest type differs from the
/// one wanted, when its hashes differ from the repo's (in order), or when
/// the manifest has no entry for it.
pub open spec fn regen_entry_spec(
    m: ManifestState,
    name: Seq<char>,
    thick: bool,
    repo_hashes: Seq<Seq<char>>,
) -> bool {
    match entry_hashes(m.entries@, name) {
        Some(h) => m.thick != thick || h != repo_hashes,
        None => true,
    }
}

/// A manifest is regenerated when its type differs from the one wanted or
/// some entry uses a hash the repo doesn't.
pub open spec fn regen_manifest_spec(m: ManifestState, thick: bool, repo_hashes: Seq<Seq<char>>) -> bool {
    m.thick != thick || exists|i: int, j: int|
        0 <= i < m.entries@.len() && 0 <= j < m.entries@[i].1@.len() && !repo_hashes.contains(
            #[trigger] m.entries@[i].1@[j]@,
        )
}

/// Whether two lists of names are equal, element by element.
fn names_equal(a: &Vec<String>, b: &Vec<String>) -> (r: bool)
    ensures
        r == (views(a@) == views(b@)),
{
    if a.len() != b.len() {
        proof {
            assert(views(a@).len() != views(b@).len());
        }
        return false;
    }
    let mut i: usize = 0;
    while i < a.len()
        invariant
            i <= a@.len(),
            a@.len() == b@.len(),
            forall|k: int| 0 <= k < i ==> a@[k]@ == b@[k]@,
        decreases a@.len() - i,
    {
        if !str_eq(a[i].as_str(), b[i].as_str()) {
            proof {
                assert(views(a@)[i as int] != views(b@)[i as int]);
            }
            return false;
        }
        i = i + 1;
    }
    assert(views(a@) =~= views(b@));
    true
}

/// Find the hash names of the first entry for a file.
fn find_entry<'a>(entries: &'a Vec<(String, Vec<String>)>, name: &str) -> (r: Option<&'a Vec<String>>)
    ensures
        match r {
            Some(h) => entry_hashes(entries@, name@) == Some(views(h@)),
            None => entry_hashes(entries@, name@) is None,
        },
{
    let mut i: usize = 0;
    assert(entries@.skip(0) =~= entries@);
    while i < entries.len()
        invariant
            i <= entries@.len(),
            entry_hashes(entries@, name@) == entry_hashes(entries@.skip(i as int), name@),
        decreases entries@.len() - i,
    {
        assert(entries@.skip(i as int)[0] == entries@[i as int]);
        assert(entries@.skip(i as int).drop_first() =~= entries@.skip(i + 1));
        if str_eq(entries[i].0.as_str(), name) {
            return Some(&entries[i].1);
        }
        i = i + 1;
    }
    None
}

/// Whether a file's manifest entry must be regenerated.
pub fn regen_entry(m: &ManifestState, name: &str, thick: bool, repo_hashes: &Vec<String>) -> (r: bool)
    ensures
        r == regen_entry_spec(*m, name@, thick, views(repo_hashes@)),
{
    match find_entry(&m.entries, name) {
        Some(h) => m.thick != thick || !names_equal(h, repo_hashes),
        None => true,
    }
}

/// Whether a whole manifest must be regenerated.
pub fn regen_manifest(m: &ManifestState, thick: bool, repo_hashes: &Vec<String>) -> (r: bool)
    ensures
        r == regen_manifest_spec(*m, thick, views(repo_hashes@)),
{
    if m.thick != thick {
        return true;
    }
    let mut i: usize = 0;
    while i < m.entries.len()
        invariant
            i <= m.entries@.len(),
            forall|a: int, b: int|
                0 <= a < i && 0 <= b < m.entries@[a].1@.len() ==> views(repo_hashes@).contains(
                    #[trigger] m.entries@[a].1@[b]@,
                ),
        decreases m.entries@.len() - i,
    {
        let hashes = &m.entries[i].1;
        let mut j: usize = 0;
        while j < hashes.len()
            invariant
                i < m.entries@.len(),
                hashes == &m.entries@[i as int].1,
                j <= hashes@.len(),
                forall|a: int, b: int|
                    0 <= a < i && 0 <= b < m.entries@[a].1@.len() ==> views(repo_hashes@).contains(
                        #[trigger] m.entries@[a].1@[b]@,
                    ),
                forall|b: int| 0 <= b < j ==> views(repo_hashes@).contains(#[trigger] hashes@[b]@),
            decreases hashes@.len() - j,
        {
            assert(views(repo_hashes@).skip(0) =~= views(repo_hashes@));
            if !contains_str(repo_hashes, 0, &hashes[j]) {
                assert(!views(repo_hashes@).contains(m.entries@[i as int].1@[j as int]@));
                return true;
            }
            j = j + 1;
        }
        i = i + 1;
    }
    false
}

/// What becomes of a package when manifests are regenerated.
#[derive(Debug)]
pub enum PkgAction {
    /// Fetch-restricted and not asked for: skipped.
    SkipRestricted,
    /// Its manifest is up to date.
    Unchanged,
    /// Its manifest is rebuilt with the given type, after fetching the
    /// distfiles at these indices.
    Regenerate { thick: bool, fetch: Vec<usize> },
}

/// The indices of the distfiles whose entries need regenerating (all of
/// them when forced), in order.
pub open spec fn stale_files(
    m: ManifestState,
    files: Seq<Seq<char>>,
    force: bool,
    thick: bool,
    repo_hashes: Seq<Seq<char>>,
) -> Seq<int>
    decreases files.len(),
{
    if files.len() == 0 {
        Seq::empty()
    } else {
        let rest = stale_files(m, files.drop_last(), force, thick, repo_hashes);
        if force || regen_entry_spec(m, files.last(), thick, repo_hashes) {
            rest.push(files.len() - 1)
        } else {
            rest
        }
    }
}

/// The settings of a manifest run that bear on each package.
pub struct ManifestRun {
    /// Remanifest whatever the manifest holds.
    pub force: bool,
    /// Process fetch-restricted packages too.
    pub restrict: bool,
    /// The manifest type asked for, if any.
    pub thick: Option<bool>,
}

/// A package as a manifest run sees it.
pub struct PkgManifestInfo {
    /// The package restricts fetching.
    pub fetch_restricted: bool,
    /// Its repo uses thin manifests.
    pub thin_manifests: bool,
    /// The names of the hashes its repo uses, in order.
    pub repo_hashes: Vec<String>,
    /// The file names of its distfiles.
    pub distfiles: Vec<String>,
    /// Its current manifest.
    pub manifest: ManifestState,
}

/// The action for a package: skipped when fetch-restricted (unless asked
/// for); else regenerated, fetching its stale distfiles, when any is stale,
/// when forced or when the manifest needs it; else unchanged.
pub open spec fn pkg_action_spec(run: ManifestRun, p: PkgManifestInfo) -> (bool, bool, bool, Seq<int>) {
    let thick = thick_spec(run.thick, p.thin_manifests);
    let hashes = views(p.repo_hashes@);
    let stale = stale_files(p.manifest, views(p.distfiles@), run.force, thick, hashes);
    let skip = !(run.restrict || !p.fetch_restricted);
    let regen = !skip && (stale.len() > 0 || run.force || regen_manifest_spec(p.manifest, thick, hashes));
    (skip, regen, thick, stale)
}

/// Decide what a manifest run does with a package.
pub fn pkg_action(run: &ManifestRun, p: &PkgManifestInfo) -> (r: PkgAction)
    ensures
        ({
            let (skip, regen, thick, stale) = pkg_action_spec(*run, *p);
            match r {
                PkgAction::SkipRestricted => skip,
                PkgAction::Unchanged => !skip && !regen,
                PkgAction::Regenerate { thick: t, fetch } => regen && t == thick && fetch@.map_values(
                    |i: usize| i as int,
                ) == stale,
            }
        }),
{
    if !(run.restrict || !p.fetch_restricted) {
        return PkgAction::SkipRestricted;
    }
    let thick = manifest_thick(run.thick, p.thin_manifests);
    let ghost hashes = views(p.repo_hashes@);
    let ghost files = views(p.distfiles@);
    let mut fetch: Vec<usize> = Vec::new();
    let mut i: usize = 0;
    while i < p.distfiles.len()
        invariant
            i <= p.distfiles@.len(),
            files == views(p.distfiles@),
            hashes == views(p.repo_hashes@),
            fetch@.map_values(|k: usize| k as int) == stale_files(
                p.manifest,
                files.take(i as int),
                run.force,
                thick,
                hashes,
            ),
        decreases p.distfiles@.len() - i,
    {
        assert(files.take(i + 1).drop_last() =~= files.take(i as int));
        assert(files.take(i + 1).last() == p.distfiles@[i as int]@);
        let stale = run.force || regen_entry(&p.manifest, p.distfiles[i].as_str(), thick, &p.repo_hashes);
        if stale {
            fetch.push(i);
            assert(fetch@.map_values(|k: usize| k as int) =~= stale_files(
                p.manifest,
                files.take(i as int),
                run.force,
                thick,
                hashes,
            ).push(i as int));
        }
        i = i + 1;
    }
    assert(files.take(files.len() as int) =~= files);
    if fetch.len() > 0 || run.force || regen_manifest(&p.manifest, thick, &p.repo_hashes) {
        PkgAction::Regenerate { thick, fetch }
    } else {
        PkgAction::Unchanged
    }
}

/// Which packages get their Manifest file created, updated or removed, given
/// whether each fetch and hash check of the run succeeded and each package's
/// action: the packages to regenerate, and none at all once any fetch or hash
/// check failed.
pub fn manifest_writes(checks: &Vec<bool>, actions: &Vec<PkgAction>) -> (r: Vec<bool>)
    ensures
        r@.len() == actions@.len(),
        forall|i: int|
            0 <= i < actions@.len() ==> #[trigger] r@[i] == ((forall|k: int|
                0 <= k < checks@.len() ==> #[trigger] checks@[k]) && actions@[i] is Regenerate),
        (exists|k: int| 0 <= k < checks@.len() && !#[trigger] checks@[k]) ==> forall|i: int|
            0 <= i < actions@.len() ==> !#[trigger] r@[i],
{
    let mut ok = true;
    let mut k: usize = 0;
    while k < checks.len()
        invariant
            k <= checks@.len(),
            ok == forall|j: int| 0 <= j < k ==> #[trigger] checks@[j],
        decreases checks@.len() - k,
    {
        ok = ok && checks[k];
        k = k + 1;
    }
    let mut out: Vec<bool> = Vec::new();
    let mut i: usize = 0;
    while i < actions.len()
        invariant
            i <= actions@.len(),
            ok == forall|j: int| 0 <= j < checks@.len() ==> #[trigger] checks@[j],
            out@.len() == i,
            forall|j: int| 0 <= j < i ==> #[trigger] out@[j] == (ok && actions@[j] is Regenerate),
        decreases actions@.len() - i,
    {
        let regen = match &actions[i] {
            PkgAction::Regenerate { .. } => true,
            _ => false,
        };
        out.push(ok && regen);
        i = i + 1;
    }
    out
}

/// A global progress bar is shown when there are more downloads than
/// concurrent slots.
pub fn show_global_progress(downloads: usize, concurrent: usize) -> (r: bool)
    ensures
        r == (downloads > concurrent),
{
    downloads > concurrent
}

/// Progress output is hidden when stdout is no terminal or it was turned
/// off.
pub fn progress_hidden(stdout_is_terminal: bool, no_progress: bool) -> (r: bool)
    ensures
        r == (!stdout_is_terminal || no_progress),
{
    !stdout_is_terminal || no_progress
}

/// What becomes of a package's manifest file once it was rebuilt.
#[derive(Clone, Copy, PartialEq, Eq, Structural, Debug)]
pub enum ManifestOutput {
    /// Printed to stdout.
    Print,
    /// Written to the package's `Manifest`.
    Write,
    /// The existing `Manifest` removed, as nothing is left in it.
    Remove,
    /// Nothing to write and nothing to remove.
    Keep,
}

/// Where a rebuilt manifest goes: stdout when asked; else written when it
/// has entries; else an existing file is removed.
pub fn manifest_output(to_stdout: bool, is_empty: bool, file_exists: bool) -> (r: ManifestOutput)
    ensures
        r == (if to_stdout {
            ManifestOutput::Print
        } else if !is_empty {
            ManifestOutput::Write
        } else if file_exists {
            ManifestOutput::Remove
        } else {
            ManifestOutput::Keep
        }),
{
    if to_stdout {
        ManifestOutput::Print
    } else if !is_empty {
        ManifestOutput::Write
    } else if file_exists {
        ManifestOutput::Remove
    } else {
        ManifestOutput::Keep
    }
}

/// The exit status of a manifest run: 1 when anything failed, else 0.
pub fn exit_status(iteration_failed: bool, fetch_failed: bool) -> (r: u8)
    ensures
        r == (if iteration_failed || fetch_failed {
            1u8
        } else {
            0u8
        }),
{
    if iteration_failed || fetch_failed {
        1
    } else {
        0
    }
}

/// The number of parallel jobs to run: the number asked for when it is
/// positive and no more than the logical CPUs, else the number of CPUs.
pub fn bounded_jobs(jobs: usize, cpus: usize) -> (r: usize)
    ensures
        r == (if 0 < jobs <= cpus {
            jobs
        } else {
            cpus
        }),
{
    if jobs > 0 && jobs <= cpus {
        jobs
    } else {
        cpus
    }
}

/// When forced, every distfile is fetched, in order.
pub proof fn lemma_forced_fetches_all(
    m: ManifestState,
    files: Seq<Seq<char>>,
    thick: bool,
    repo_hashes: Seq<Seq<char>>,
)
    ensures
        stale_files(m, files, true, thick, repo_hashes) == Seq::new(files.len(), |i: int| i),
    decreases files.len(),
{
    if files.len() > 0 {
        lemma_forced_fetches_all(m, files.drop_last(), thick, repo_hashes);
        assert(Seq::new(files.drop_last().len(), |i: int| i).push(files.len() - 1) =~= Seq::new(
            files.len(),
            |i: int| i,
        ));
    } else {
        assert(Seq::<int>::empty() =~= Seq::new(0, |i: int| i));
    }
}

} // verus!
