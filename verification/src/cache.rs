//! Metadata cache settings and the decisions of a cache regeneration run.
use vstd::prelude::*;

use indexmap::IndexSet;

use crate::manifest::bounded_jobs;
use crate::ordered_set::{added, set_insert, set_items, set_new};
use crate::shell::str_eq;

verus! {

/// Metadata cache formats.
#[derive(Clone, Copy, PartialEq, Eq, Structural, Debug)]
pub enum CacheFormat {
    Md5Dict,
}

/// The name of a cache format.
pub open spec fn format_name(f: CacheFormat) -> Seq<char> {
    match f {
        CacheFormat::Md5Dict => seq!['m', 'd', '5', '-', 'd', 'i', 'c', 't'],
    }
}

/// The format a name stands for.
pub open spec fn format_named(s: Seq<char>) -> Option<CacheFormat> {
    if s == format_name(CacheFormat::Md5Dict) {
        Some(CacheFormat::Md5Dict)
    } else {
        None
    }
}

impl CacheFormat {
    /// The format used when none is given.
    pub fn default_format() -> (r: CacheFormat)
        ensures
            r == CacheFormat::Md5Dict,
    {
        CacheFormat::Md5Dict
    }

    /// The format's name.
    pub fn name(&self) -> (r: &'static str)
        ensures
            r@ == format_name(*self),
    {
        proof {
            reveal_strlit("md5-dict");
        }
        match self {
            CacheFormat::Md5Dict => "md5-dict",
        }
    }

    /// The format with the given name, if any.
    pub fn from_name(s: &str) -> (r: Option<CacheFormat>)
        ensures
            r == format_named(s@),
    {
        proof {
            reveal_strlit("md5-dict");
            assert("md5-dict"@ =~= format_name(CacheFormat::Md5Dict));
        }
        if str_eq(s, "md5-dict") {
            Some(CacheFormat::Md5Dict)
        } else {
            None
        }
    }
}

/// A format's name leads back to it.
pub proof fn lemma_format_name_roundtrip(f: CacheFormat)
    ensures
        format_named(format_name(f)) == Some(f),
{
}

/// The settings of a cache regeneration run.
pub struct RegenOptions {
    /// Parallel jobs.
    pub jobs: usize,
    /// Regenerate every package, valid entries too.
    pub force: bool,
    /// Show a progress bar.
    pub progress: bool,
    /// Let packages write to stdout and stderr.
    pub output: bool,
    /// Check metadata without writing the cache.
    pub verify: bool,
    /// Only the packages in `targets`.
    pub targeted: bool,
    /// The targeted packages, each once, in the order first given.
    pub targets: IndexSet<String>,
}

impl RegenOptions {
    /// The default settings on a machine with `cpus` logical CPUs: a job per
    /// CPU, nothing forced, no progress or output, every package.
    pub fn new(cpus: usize) -> (r: RegenOptions)
        ensures
            r.jobs == cpus,
            !r.force && !r.progress && !r.output && !r.verify && !r.targeted,
            set_items(r.targets) == Seq::<Seq<char>>::empty(),
    {
        RegenOptions {
            jobs: cpus,
            force: false,
            progress: false,
            output: false,
            verify: false,
            targeted: false,
            targets: set_new(),
        }
    }

    /// Set the number of parallel jobs, bounded by the logical CPUs.
    pub fn jobs(self, jobs: usize, cpus: usize) -> (r: RegenOptions)
        ensures
            r.jobs == (if 0 < jobs <= cpus {
                jobs
            } else {
                cpus
            }),
            r.force == self.force && r.progress == self.progress && r.output == self.output,
            r.verify == self.verify && r.targeted == self.targeted && r.targets == self.targets,
    {
        RegenOptions { jobs: bounded_jobs(jobs, cpus), ..self }
    }

    /// Force regeneration of every package.
    pub fn force(self, value: bool) -> (r: RegenOptions)
        ensures
            r.force == value,
            r.jobs == self.jobs && r.progress == self.progress && r.output == self.output,
            r.verify == self.verify && r.targeted == self.targeted && r.targets == self.targets,
    {
        RegenOptions { force: value, ..self }
    }

    /// Show a progress bar.
    pub fn progress(self, value: bool) -> (r: RegenOptions)
        ensures
            r.progress == value,
            r.jobs == self.jobs && r.force == self.force && r.output == self.output,
            r.verify == self.verify && r.targeted == self.targeted && r.targets == self.targets,
    {
        RegenOptions { progress: value, ..self }
    }

    /// Allow output from packages.
    pub fn output(self, value: bool) -> (r: RegenOptions)
        ensures
            r.output == value,
            r.jobs == self.jobs && r.force == self.force && r.progress == self.progress,
            r.verify == self.verify && r.targeted == self.targeted && r.targets == self.targets,
    {
        RegenOptions { output: value, ..self }
    }

    /// Verify metadata without writing it.
    pub fn verify(self, value: bool) -> (r: RegenOptions)
        ensures
            r.verify == value,
            r.jobs == self.jobs && r.force == self.force && r.progress == self.progress,
            r.output == self.output && r.targeted == self.targeted && r.targets == self.targets,
    {
        RegenOptions { verify: value, ..self }
    }

    /// Target packages: the run covers the targets alone, which gain each
    /// given package not yet among them, in order.
    pub fn targets(self, values: Vec<String>) -> (r: RegenOptions)
        ensures
            r.targeted,
            set_items(r.targets) == added(set_items(self.targets), crate::chars::views(values@)),
            r.jobs == self.jobs && r.force == self.force && r.progress == self.progress,
            r.output == self.output && r.verify == self.verify,
    {
        let mut targets = self.targets;
        let ghost vs = crate::chars::views(values@);
        let ghost start = set_items(targets);
        let mut i: usize = 0;
        while i < values.len()
            invariant
                i <= values@.len(),
                vs == crate::chars::views(values@),
                set_items(targets) == added(start, vs.take(i as int)),
            decreases values@.len() - i,
        {
            proof {
                assert(vs.take(i + 1).drop_last() =~= vs.take(i as int));
                assert(vs.take(i + 1).last() == values@[i as int]@);
            }
            set_insert(&mut targets, values[i].clone());
            i = i + 1;
        }
        assert(vs.take(vs.len() as int) =~= vs);
        RegenOptions {
            jobs: self.jobs,
            force: self.force,
            progress: self.progress,
            output: self.output,
            verify: self.verify,
            targeted: true,
            targets,
        }
    }
}

/// The steps of a regeneration run once its packages are known.
pub struct RegenPlan {
    /// Drop cache entries of packages the repo no longer has.
    pub prune: bool,
    /// Skip packages whose cache entries are valid.
    pub validate: bool,
}

/// Plan a run: with an existing cache, a full run that writes prunes it,
/// and a run that isn't forced regenerates only invalid entries.
pub fn regen_plan(options: &RegenOptions, cache_exists: bool) -> (r: RegenPlan)
    ensures
        r.prune == (cache_exists && !options.targeted && !options.verify),
        r.validate == (cache_exists && !options.force),
{
    RegenPlan {
        prune: cache_exists && !options.targeted && !options.verify,
        validate: cache_exists && !options.force,
    }
}

/// The progress message while packages are processed.
pub fn regen_message(verify: bool) -> (r: &'static str)
    ensures
        verify ==> r@ == "verifying metadata:"@,
        !verify ==> r@ == "generating metadata:"@,
{
    if verify {
        "verifying metadata:"
    } else {
        "generating metadata:"
    }
}

/// A regeneration run in which packages failed.
#[derive(Clone, Copy, PartialEq, Eq, Structural, Debug)]
pub enum RegenError {
    /// Metadata failures occurred; the log holds the details.
    MetadataFailures,
}

/// The outcome of a run with the given number of failed packages.
pub fn regen_outcome(errors: usize) -> (r: Result<(), RegenError>)
    ensures
        r is Ok <==> errors == 0,
        r is Err ==> r == Err::<(), RegenError>(RegenError::MetadataFailures),
{
    if errors > 0 {
        Err(RegenError::MetadataFailures)
    } else {
        Ok(())
    }
}

/// What a run does with each of its packages, given whether each package's
/// cache entry validates and whether generating its metadata succeeded.
pub struct RegenReport {
    /// The package's metadata is generated (or verified).
    pub processed: Vec<bool>,
    /// The package's cache entry is written.
    pub written: Vec<bool>,
    /// The number of packages whose generation failed.
    pub errors: usize,
}

/// A package is processed unless validation is on and its entry validates.
pub open spec fn processed_spec(validate: bool, valid: bool) -> bool {
    !(validate && valid)
}

/// The number of processed packages whose generation failed.
pub open spec fn failures(validate: bool, valid: Seq<bool>, generated: Seq<bool>) -> nat
    decreases valid.len(),
{
    if valid.len() == 0 {
        0
    } else {
        failures(validate, valid.drop_last(), generated.drop_last()) + if processed_spec(
            validate,
            valid.last(),
        ) && !generated.last() {
            1nat
        } else {
            0nat
        }
    }
}

/// Decide what a run does with each package: a package is processed unless
/// the plan validates and its entry is valid; a processed package's entry is
/// written when its generation succeeded and the run is no verify run; each
/// processed package whose generation failed counts as an error.
pub fn regen_decisions(options: &RegenOptions, cache_exists: bool, valid: &Vec<bool>, generated: &Vec<bool>) -> (r: RegenReport)
    requires
        valid@.len() == generated@.len(),
    ensures
        r.processed@.len() == valid@.len(),
        r.written@.len() == valid@.len(),
        forall|i: int|
            0 <= i < valid@.len() ==> #[trigger] r.processed@[i] == processed_spec(
                cache_exists && !options.force,
                valid@[i],
            ),
        forall|i: int|
            0 <= i < valid@.len() ==> #[trigger] r.written@[i] == (r.processed@[i] && generated@[i]
                && !options.verify),
        r.errors == failures(cache_exists && !options.force, valid@, generated@),
        options.verify ==> forall|i: int| 0 <= i < valid@.len() ==> !#[trigger] r.written@[i],
        options.force ==> forall|i: int| 0 <= i < valid@.len() ==> #[trigger] r.processed@[i],
        forall|i: int| 0 <= i < valid@.len() && !generated@[i] ==> !#[trigger] r.written@[i],
{
    let plan = regen_plan(options, cache_exists);
    let mut processed: Vec<bool> = Vec::new();
    let mut written: Vec<bool> = Vec::new();
    let mut errors: usize = 0;
    let mut i: usize = 0;
    while i < valid.len()
        invariant
            i <= valid@.len(),
            valid@.len() == generated@.len(),
            plan.validate == (cache_exists && !options.force),
            processed@.len() == i,
            written@.len() == i,
            forall|j: int| 0 <= j < i ==> #[trigger] processed@[j] == processed_spec(plan.validate, valid@[j]),
            forall|j: int| 0 <= j < i ==> #[trigger] written@[j] == (processed@[j] && generated@[j] && !options.verify),
            errors == failures(plan.validate, valid@.take(i as int), generated@.take(i as int)),
            errors <= i,
        decreases valid@.len() - i,
    {
        assert(valid@.take(i + 1).drop_last() =~= valid@.take(i as int));
        assert(generated@.take(i + 1).drop_last() =~= generated@.take(i as int));
        let p = !(plan.validate && valid[i]);
        processed.push(p);
        written.push(p && generated[i] && !options.verify);
        if p && !generated[i] {
            errors = errors + 1;
        }
        i = i + 1;
    }
    assert(valid@.take(valid@.len() as int) =~= valid@);
    assert(generated@.take(generated@.len() as int) =~= generated@);
    RegenReport { processed, written, errors }
}

/// What `camino::Utf8Path::starts_with` says of a path and a base.
pub uninterp spec fn path_starts_with(path: Seq<char>, base: Seq<char>) -> bool;

/// Calls `camino::Utf8Path::starts_with`: whether the base's components
/// begin the path's. Claimed: the answer depends on the two paths alone.
#[verifier::external_body]
fn starts_with(path: &str, base: &str) -> (r: bool)
    ensures
        r == path_starts_with(path@, base@),
{
    camino::Utf8Path::new(path).starts_with(base)
}

/// What removing a cache does.
#[derive(Clone, Copy, PartialEq, Eq, Structural, Debug)]
pub enum CacheRemoval {
    /// The cache lies outside the repo and is left alone: an error.
    External,
    /// There is no cache: nothing to do.
    Missing,
    /// The cache is removed.
    Remove,
}

impl CacheRemoval {
    /// The error a removal reports for the cache at `path`: for an external
    /// cache, `removal unsupported for external cache: <path>`; none
    /// otherwise.
    pub fn message(&self, path: &str) -> (r: Option<String>)
        ensures
            *self == CacheRemoval::External ==> (r matches Some(m) && m@
                == "removal unsupported for external cache: "@ + path@),
            *self != CacheRemoval::External ==> r is None,
    {
        match self {
            CacheRemoval::External => {
                let mut out = String::from_str("removal unsupported for external cache: ");
                out.append(path);
                Some(out)
            },
            _ => None,
        }
    }
}

/// Decide how to remove a cache at `path` of the repo at `repo_path`.
pub fn cache_removal(path: &str, repo_path: &str, exists: bool) -> (r: CacheRemoval)
    ensures
        r == (if !path_starts_with(path@, repo_path@) {
            CacheRemoval::External
        } else if !exists {
            CacheRemoval::Missing
        } else {
            CacheRemoval::Remove
        }),
{
    if !starts_with(path, repo_path) {
        CacheRemoval::External
    } else if !exists {
        CacheRemoval::Missing
    } else {
        CacheRemoval::Remove
    }
}

} // verus!
