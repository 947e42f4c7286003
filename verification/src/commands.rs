//! The ebuild shell commands that take declared command-line interfaces:
//! `docinto`, `dostrip`, `dodoc`, `EXPORT_FUNCTIONS` and `ver_cut`.

use vstd::prelude::*;
use crate::chars::views;
use crate::builtins::{ExecStatus, StripSets, extend_unique};
use crate::cli::{ArgError, CliSpec, parse_spec, parse_args, cli_run};
use crate::shell::{PhaseKind, phase_from_name};
use crate::ver_cut::{VersionCmdError, cut_outcome, ver_cut};

verus! {

/// Errors from the commands.
#[derive(Debug)]
pub enum CommandError {
    /// The command line was rejected.
    Args(ArgError),
    /// The EAPI doesn't define the phase.
    UndefinedPhase(PhaseKind),
    /// A directory was passed to `dodoc` without `-r`.
    DirectoryWithoutRecursive(String),
    /// The `ver_cut` range was rejected.
    Version(VersionCmdError),
}

/// A successful parse leaves between `min_pos` and `max_pos` positional values.
pub proof fn lemma_cli_run_bounds(
    spec: CliSpec,
    args: Seq<Seq<char>>,
    i: int,
    escaped: bool,
    flag: bool,
    pos: Seq<Seq<char>>,
)
    requires
        pos.len() <= spec.max_pos,
    ensures
        cli_run(spec, args, i, escaped, flag, pos) matches Ok((_, v)) ==> spec.min_pos <= v.len()
            <= spec.max_pos,
    decreases args.len() - i,
{
    if 0 <= i < args.len() {
        lemma_cli_run_bounds(spec, args, i + 1, true, flag, pos);
        lemma_cli_run_bounds(spec, args, i + 1, escaped, true, pos);
        if pos.len() < spec.max_pos {
            lemma_cli_run_bounds(spec, args, i + 1, escaped, flag, pos.push(args[i]));
        }
    }
}

/// `docinto path`: exactly one path, which may begin with a hyphen.
pub open spec fn docinto_spec() -> CliSpec {
    CliSpec { flag: None, help_short: false, hyphen_first: 1, min_pos: 1, max_pos: 1 }
}

/// `dostrip [-x] path...`.
pub open spec fn dostrip_spec() -> CliSpec {
    CliSpec { flag: Some('x'), help_short: true, hyphen_first: 0, min_pos: 1, max_pos: usize::MAX }
}

/// `dodoc [-r] path...`.
pub open spec fn dodoc_spec() -> CliSpec {
    CliSpec { flag: Some('r'), help_short: true, hyphen_first: 0, min_pos: 1, max_pos: usize::MAX }
}

/// `EXPORT_FUNCTIONS phase...`: phase names, which may begin with a hyphen.
pub open spec fn export_functions_spec() -> CliSpec {
    CliSpec {
        flag: None,
        help_short: false,
        hyphen_first: usize::MAX,
        min_pos: 1,
        max_pos: usize::MAX,
    }
}

/// `ver_cut range [version]`: the range may begin with a hyphen.
pub open spec fn ver_cut_spec() -> CliSpec {
    CliSpec { flag: None, help_short: false, hyphen_first: 1, min_pos: 1, max_pos: 2 }
}

fn docinto_interface() -> (r: CliSpec)
    ensures
        r == docinto_spec(),
{
    CliSpec { flag: None, help_short: false, hyphen_first: 1, min_pos: 1, max_pos: 1 }
}

fn dostrip_interface() -> (r: CliSpec)
    ensures
        r == dostrip_spec(),
{
    CliSpec { flag: Some('x'), help_short: true, hyphen_first: 0, min_pos: 1, max_pos: usize::MAX }
}

fn dodoc_interface() -> (r: CliSpec)
    ensures
        r == dodoc_spec(),
{
    CliSpec { flag: Some('r'), help_short: true, hyphen_first: 0, min_pos: 1, max_pos: usize::MAX }
}

fn export_functions_interface() -> (r: CliSpec)
    ensures
        r == export_functions_spec(),
{
    CliSpec {
        flag: None,
        help_short: false,
        hyphen_first: usize::MAX,
        min_pos: 1,
        max_pos: usize::MAX,
    }
}

fn ver_cut_interface() -> (r: CliSpec)
    ensures
        r == ver_cut_spec(),
{
    CliSpec { flag: None, help_short: false, hyphen_first: 1, min_pos: 1, max_pos: 2 }
}

/// `docinto path`: the new doc install subdirectory, as given.
pub fn docinto(args: &Vec<String>) -> (r: Result<String, CommandError>)
    ensures
        match parse_spec(docinto_spec(), views(args@)) {
            Ok((_, v)) => r matches Ok(p) && v.len() == 1 && p@ == v[0],
            Err(e) => r matches Err(CommandError::Args(x)) && x == e,
        },
{
    let spec = docinto_interface();
    proof {
        lemma_cli_run_bounds(spec, views(args@), 0, false, false, Seq::empty());
    }
    match parse_args(&spec, args) {
        Ok(p) => {
            assert(views(p.values@).len() == p.values@.len());
            let path = p.values[0].clone();
            Ok(path)
        },
        Err(e) => Err(CommandError::Args(e)),
    }
}

/// The install directory of documentation: `/usr/share/doc/<pf>/<dest>` with
/// leading slashes of `dest` removed.
pub open spec fn doc_dest_spec(pf: Seq<char>, dest: Seq<char>) -> Seq<char> {
    "/usr/share/doc/"@ + pf + "/"@ + dest.skip(leading_slashes(dest) as int)
}

/// The number of slashes that begin a string.
pub open spec fn leading_slashes(s: Seq<char>) -> nat
    decreases s.len(),
{
    if s.len() > 0 && s[0] == '/' {
        1 + leading_slashes(s.drop_first())
    } else {
        0
    }
}

proof fn lemma_leading_slashes(s: Seq<char>, k: int)
    requires
        0 <= k <= s.len(),
        forall|j: int| 0 <= j < k ==> s[j] == '/',
    ensures
        leading_slashes(s) == k + leading_slashes(s.skip(k)),
    decreases k,
{
    if k > 0 {
        assert(s.drop_first().skip(k - 1) =~= s.skip(k));
        lemma_leading_slashes(s.drop_first(), k - 1);
    } else {
        assert(s.skip(0) =~= s);
    }
}

/// Where `dodoc` installs for a package `pf` and a `docinto` path.
pub fn doc_dest(pf: &str, dest: &str) -> (r: String)
    ensures
        r@ == doc_dest_spec(pf@, dest@),
{
    let cs = crate::chars::chars_of(dest);
    let mut k: usize = 0;
    while k < cs.len() && cs[k] == '/'
        invariant
            k <= cs@.len(),
            cs@ == dest@,
            forall|j: int| 0 <= j < k ==> cs@[j] == '/',
        decreases cs@.len() - k,
    {
        k = k + 1;
    }
    proof {
        lemma_leading_slashes(cs@, k as int);
        if k < cs@.len() {
            assert(cs@.skip(k as int)[0] == cs@[k as int]);
        }
        assert(leading_slashes(cs@.skip(k as int)) == 0);
    }
    let rest = crate::chars::string_from(&cs, k, cs.len());
    assert(cs@.subrange(k as int, cs@.len() as int) =~= cs@.skip(k as int));
    let mut out = String::from_str("/usr/share/doc/");
    out.append(pf);
    out.append("/");
    out.append(rest.as_str());
    out
}

/// The paths whose flag is `want`, in order.
pub open spec fn select(paths: Seq<Seq<char>>, is_dir: Seq<bool>, want: bool) -> Seq<Seq<char>>
    decreases paths.len(),
{
    if paths.len() == 0 || is_dir.len() == 0 {
        Seq::empty()
    } else {
        let rest = select(paths.drop_last(), is_dir.drop_last(), want);
        if is_dir.last() == want {
            rest.push(paths.last())
        } else {
            rest
        }
    }
}

/// `dodoc` splits its paths into directories and files; directories need `-r`.
/// Gives the directories and files to install, or the first directory when
/// `-r` is missing.
pub fn doc_install_plan(recursive: bool, paths: &Vec<String>, is_dir: &Vec<bool>) -> (r: Result<
    (Vec<String>, Vec<String>),
    CommandError,
>)
    requires
        paths@.len() == is_dir@.len(),
    ensures
        ({
            let dirs = select(views(paths@), is_dir@, true);
            let files = select(views(paths@), is_dir@, false);
            if dirs.len() > 0 && !recursive {
                r matches Err(CommandError::DirectoryWithoutRecursive(d)) && d@ == dirs[0]
            } else {
                r matches Ok((ds, fs)) && views(ds@) == dirs && views(fs@) == files
            }
        }),
{
    let mut dirs: Vec<String> = Vec::new();
    let mut files: Vec<String> = Vec::new();
    let mut i: usize = 0;
    while i < paths.len()
        invariant
            i <= paths@.len(),
            paths@.len() == is_dir@.len(),
            views(dirs@) == select(views(paths@).take(i as int), is_dir@.take(i as int), true),
            views(files@) == select(views(paths@).take(i as int), is_dir@.take(i as int), false),
        decreases paths@.len() - i,
    {
        proof {
            assert(views(paths@).take(i + 1).drop_last() =~= views(paths@).take(i as int));
            assert(is_dir@.take(i + 1).drop_last() =~= is_dir@.take(i as int));
        }
        let ghost d0 = views(dirs@);
        let ghost f0 = views(files@);
        if is_dir[i] {
            dirs.push(paths[i].clone());
            assert(views(dirs@) =~= d0.push(paths@[i as int]@));
        } else {
            files.push(paths[i].clone());
            assert(views(files@) =~= f0.push(paths@[i as int]@));
        }
        i = i + 1;
    }
    assert(views(paths@).take(paths@.len() as int) =~= views(paths@));
    assert(is_dir@.take(is_dir@.len() as int) =~= is_dir@);
    if dirs.len() > 0 && !recursive {
        let first = dirs[0].clone();
        return Err(CommandError::DirectoryWithoutRecursive(first));
    }
    Ok((dirs, files))
}

/// `dodoc [-r] path...`: whether `-r` was given and the paths.
pub fn dodoc_args(args: &Vec<String>) -> (r: Result<(bool, Vec<String>), CommandError>)
    ensures
        match parse_spec(dodoc_spec(), views(args@)) {
            Ok((rec, v)) => r matches Ok((b, ps)) && b == rec && views(ps@) == v && v.len() >= 1,
            Err(e) => r matches Err(CommandError::Args(x)) && x == e,
        },
{
    let spec = dodoc_interface();
    proof {
        lemma_cli_run_bounds(spec, views(args@), 0, false, false, Seq::empty());
    }
    match parse_args(&spec, args) {
        Ok(p) => Ok((p.flag, p.values)),
        Err(e) => Err(CommandError::Args(e)),
    }
}

/// `dostrip [-x] path...`: include, or with `-x` exclude, paths for symbol
/// stripping.
pub fn dostrip_command(sets: &mut StripSets, args: &Vec<String>) -> (r: Result<
    ExecStatus,
    CommandError,
>)
    requires
        old(sets).wf(),
    ensures
        final(sets).wf(),
        match parse_spec(dostrip_spec(), views(args@)) {
            Err(e) => (r matches Err(CommandError::Args(x)) && x == e) && final(sets)@ == old(
                sets,
            )@,
            Ok((exclude, paths)) => r == Ok::<ExecStatus, CommandError>(ExecStatus::Success) && (
            if exclude {
                final(sets)@.0 == old(sets)@.0 && final(sets)@.1.to_set() == old(sets)@.1.to_set()
                    + paths.to_set()
            } else {
                final(sets)@.1 == old(sets)@.1 && final(sets)@.0.to_set() == old(sets)@.0.to_set()
                    + paths.to_set()
            }),
        },
{
    let spec = dostrip_interface();
    match parse_args(&spec, args) {
        Ok(p) => {
            assert(views(p.values@).skip(0) =~= views(p.values@));
            if p.flag {
                extend_unique(&mut sets.excluded, &p.values, 0);
            } else {
                extend_unique(&mut sets.included, &p.values, 0);
            }
            Ok(ExecStatus::Success)
        },
        Err(e) => Err(CommandError::Args(e)),
    }
}

/// The position of a phase in the table of exported phases.
pub open spec fn phase_index(k: PhaseKind) -> nat {
    match k {
        PhaseKind::PkgConfig => 0,
        PhaseKind::PkgInfo => 1,
        PhaseKind::PkgNofetch => 2,
        PhaseKind::PkgPostinst => 3,
        PhaseKind::PkgPostrm => 4,
        PhaseKind::PkgPreinst => 5,
        PhaseKind::PkgPrerm => 6,
        PhaseKind::PkgPretend => 7,
        PhaseKind::PkgSetup => 8,
        PhaseKind::SrcCompile => 9,
        PhaseKind::SrcConfigure => 10,
        PhaseKind::SrcInstall => 11,
        PhaseKind::SrcPrepare => 12,
        PhaseKind::SrcTest => 13,
        PhaseKind::SrcUnpack => 14,
    }
}

fn phase_slot(k: PhaseKind) -> (r: usize)
    ensures
        r == phase_index(k),
{
    match k {
        PhaseKind::PkgConfig => 0,
        PhaseKind::PkgInfo => 1,
        PhaseKind::PkgNofetch => 2,
        PhaseKind::PkgPostinst => 3,
        PhaseKind::PkgPostrm => 4,
        PhaseKind::PkgPreinst => 5,
        PhaseKind::PkgPrerm => 6,
        PhaseKind::PkgPretend => 7,
        PhaseKind::PkgSetup => 8,
        PhaseKind::SrcCompile => 9,
        PhaseKind::SrcConfigure => 10,
        PhaseKind::SrcInstall => 11,
        PhaseKind::SrcPrepare => 12,
        PhaseKind::SrcTest => 13,
        PhaseKind::SrcUnpack => 14,
    }
}

/// The eclass each exported phase function comes from.
#[derive(Debug)]
pub struct EclassPhases {
    slots: Vec<Option<String>>,
}

impl View for EclassPhases {
    type V = Map<PhaseKind, Seq<char>>;

    closed spec fn view(&self) -> Map<PhaseKind, Seq<char>> {
        Map::new(
            |k: PhaseKind| phase_index(k) < self.slots@.len() && self.slots@[phase_index(k) as int] is Some,
            |k: PhaseKind| self.slots@[phase_index(k) as int].unwrap()@,
        )
    }
}

impl EclassPhases {
    pub closed spec fn wf(&self) -> bool {
        self.slots@.len() == 15
    }

    /// No phase exported.
    pub fn new() -> (r: EclassPhases)
        ensures
            r.wf(),
            r@ == Map::<PhaseKind, Seq<char>>::empty(),
    {
        let mut slots: Vec<Option<String>> = Vec::new();
        while slots.len() < 15
            invariant
                slots@.len() <= 15,
                forall|j: int| 0 <= j < slots@.len() ==> slots@[j] is None,
            decreases 15 - slots@.len(),
        {
            slots.push(None);
        }
        let r = EclassPhases { slots };
        assert(r@ =~= Map::<PhaseKind, Seq<char>>::empty());
        r
    }

    /// The eclass a phase is exported from.
    pub fn get(&self, k: PhaseKind) -> (r: Option<String>)
        requires
            self.wf(),
        ensures
            match r {
                Some(e) => self@.contains_key(k) && self@[k] == e@,
                None => !self@.contains_key(k),
            },
    {
        let i = phase_slot(k);
        match &self.slots[i] {
            Some(e) => Some(e.clone()),
            None => None,
        }
    }

    /// Export a phase from an eclass, replacing any earlier export.
    pub fn insert(&mut self, k: PhaseKind, eclass: String)
        requires
            old(self).wf(),
        ensures
            final(self).wf(),
            final(self)@ == old(self)@.insert(k, eclass@),
    {
        let i = phase_slot(k);
        let ghost e = eclass@;
        self.slots.set(i, Some(eclass));
        proof {
            assert forall|a: PhaseKind, b: PhaseKind| phase_index(a) == phase_index(b) implies a
                == b by {
                match a {
                    PhaseKind::PkgConfig => {},
                    _ => {},
                }
            }
            assert(self@ =~= old(self)@.insert(k, e));
        }
    }
}

/// Parse phase names, failing at the position of the first unknown name.
fn phases_from(values: &Vec<String>) -> (r: Result<Vec<PhaseKind>, usize>)
    ensures
        match r {
            Ok(ps) => ps@.len() == values@.len() && forall|j: int|
                0 <= j < values@.len() ==> phase_from_name(values@[j]@) == Some(#[trigger] ps@[j]),
            Err(j) => j < values@.len() && phase_from_name(values@[j as int]@) is None && forall|
                m: int,
            |
                0 <= m < j ==> phase_from_name(#[trigger] values@[m]@) is Some,
        },
{
    let mut out: Vec<PhaseKind> = Vec::new();
    let mut i: usize = 0;
    while i < values.len()
        invariant
            i <= values@.len(),
            out@.len() == i,
            forall|j: int| 0 <= j < i ==> phase_from_name(values@[j]@) == Some(#[trigger] out@[j]),
        decreases values@.len() - i,
    {
        match PhaseKind::from_name(values[i].as_str()) {
            Some(k) => {
                out.push(k);
            },
            None => {
                assert forall|m: int| 0 <= m < i implies phase_from_name(
                    #[trigger] values@[m]@,
                ) is Some by {
                    assert(phase_from_name(values@[m]@) == Some(out@[m]));
                }
                return Err(i);
            },
        }
        i = i + 1;
    }
    Ok(out)
}

/// The exported phases after inserting each of `phases` for `eclass`.
pub open spec fn export_all(
    m: Map<PhaseKind, Seq<char>>,
    phases: Seq<PhaseKind>,
    eclass: Seq<char>,
) -> Map<PhaseKind, Seq<char>>
    decreases phases.len(),
{
    if phases.len() == 0 {
        m
    } else {
        export_all(m, phases.drop_last(), eclass).insert(phases.last(), eclass)
    }
}

/// The number of leading phases the EAPI defines.
pub open spec fn defined_prefix(phases: Seq<PhaseKind>, eapi_phases: Seq<PhaseKind>) -> nat
    decreases phases.len(),
{
    if phases.len() == 0 || !eapi_phases.contains(phases[0]) {
        0
    } else {
        1 + defined_prefix(phases.drop_first(), eapi_phases)
    }
}

/// The phases named by the values, when all names are known.
pub open spec fn phases_named(values: Seq<Seq<char>>) -> Option<Seq<PhaseKind>> {
    if forall|j: int| 0 <= j < values.len() ==> phase_from_name(#[trigger] values[j]) is Some {
        Some(values.map_values(|v: Seq<char>| phase_from_name(v).unwrap()))
    } else {
        None
    }
}

/// The first value that names no phase.
pub open spec fn first_unknown_phase(values: Seq<Seq<char>>, j: int) -> bool {
    0 <= j < values.len() && phase_from_name(values[j]) is None && forall|m: int|
        0 <= m < j ==> phase_from_name(#[trigger] values[m]) is Some
}

proof fn lemma_defined_prefix(phases: Seq<PhaseKind>, eapi_phases: Seq<PhaseKind>, i: int)
    requires
        0 <= i <= phases.len(),
        forall|j: int| 0 <= j < i ==> eapi_phases.contains(#[trigger] phases[j]),
    ensures
        defined_prefix(phases, eapi_phases) >= i,
        i < phases.len() && !eapi_phases.contains(phases[i]) ==> defined_prefix(
            phases,
            eapi_phases,
        ) == i,
        defined_prefix(phases, eapi_phases) <= phases.len(),
    decreases i,
{
    lemma_defined_prefix_le(phases, eapi_phases);
    if i > 0 {
        assert forall|j: int| 0 <= j < i - 1 implies eapi_phases.contains(
            #[trigger] phases.drop_first()[j],
        ) by {
            assert(phases.drop_first()[j] == phases[j + 1]);
        }
        lemma_defined_prefix(phases.drop_first(), eapi_phases, i - 1);
        if i < phases.len() {
            assert(phases.drop_first()[i - 1] == phases[i]);
        }
    }
}

proof fn lemma_defined_prefix_le(phases: Seq<PhaseKind>, eapi_phases: Seq<PhaseKind>)
    ensures
        defined_prefix(phases, eapi_phases) <= phases.len(),
    decreases phases.len(),
{
    if phases.len() > 0 {
        lemma_defined_prefix_le(phases.drop_first(), eapi_phases);
    }
}

fn phase_listed(eapi_phases: &Vec<PhaseKind>, k: PhaseKind) -> (r: bool)
    ensures
        r == eapi_phases@.contains(k),
{
    let mut i: usize = 0;
    while i < eapi_phases.len()
        invariant
            i <= eapi_phases@.len(),
            forall|j: int| 0 <= j < i ==> eapi_phases@[j] != k,
        decreases eapi_phases@.len() - i,
    {
        if eapi_phases[i] == k {
            return true;
        }
        i = i + 1;
    }
    false
}

/// `EXPORT_FUNCTIONS phase...`: export the current eclass's phase functions.
/// Phases are exported in order, stopping with an error at the first one the
/// EAPI doesn't define; the ones before it stay exported.
pub fn export_functions(
    args: &Vec<String>,
    eapi_phases: &Vec<PhaseKind>,
    eclass: &String,
    exported: &mut EclassPhases,
) -> (r: Result<ExecStatus, CommandError>)
    requires
        old(exported).wf(),
    ensures
        final(exported).wf(),
        match parse_spec(export_functions_spec(), views(args@)) {
            Err(e) => (r matches Err(CommandError::Args(x)) && x == e) && final(exported)@ == old(
                exported,
            )@,
            Ok((_, values)) => match phases_named(values) {
                None => (r matches Err(CommandError::Args(ArgError::InvalidValue(j)))
                    && first_unknown_phase(values, j as int)) && final(exported)@ == old(
                    exported,
                )@,
                Some(phases) => {
                    let n = defined_prefix(phases, eapi_phases@);
                    &&& final(exported)@ == export_all(old(exported)@, phases.take(n as int), eclass@)
                    &&& if n == phases.len() {
                        r == Ok::<ExecStatus, CommandError>(ExecStatus::Success)
                    } else {
                        r matches Err(CommandError::UndefinedPhase(k)) && k == phases[n as int]
                    }
                },
            },
        },
{
    let spec = export_functions_interface();
    let p = match parse_args(&spec, args) {
        Ok(p) => p,
        Err(e) => return Err(CommandError::Args(e)),
    };
    let ghost values = views(p.values@);
    let phases = match phases_from(&p.values) {
        Ok(ps) => ps,
        Err(j) => {
            proof {
                assert(!(forall|m: int|
                    0 <= m < values.len() ==> phase_from_name(#[trigger] values[m]) is Some)) by {
                    assert(phase_from_name(values[j as int]) is None);
                }
                assert forall|m: int| 0 <= m < j implies phase_from_name(
                    #[trigger] values[m],
                ) is Some by {
                    assert(values[m] == p.values@[m]@);
                }
            }
            return Err(CommandError::Args(ArgError::InvalidValue(j)));
        },
    };
    proof {
        assert forall|m: int| 0 <= m < values.len() implies phase_from_name(
            #[trigger] values[m],
        ) is Some by {
            assert(values[m] == p.values@[m]@);
            assert(phase_from_name(p.values@[m]@) == Some(phases@[m]));
        }
        assert forall|m: int| 0 <= m < values.len() implies #[trigger] phases@[m] == phase_from_name(
            values[m],
        ).unwrap() by {
            assert(values[m] == p.values@[m]@);
            assert(phase_from_name(p.values@[m]@) == Some(phases@[m]));
        }
        assert(values.map_values(|v: Seq<char>| phase_from_name(v).unwrap()) =~= phases@);
        assert(phases_named(values) == Some(phases@));
    }
    let mut i: usize = 0;
    while i < phases.len()
        invariant
            i <= phases@.len(),
            exported.wf(),
            phases_named(values) == Some(phases@),
            parse_spec(export_functions_spec(), views(args@)) == Ok::<
                (bool, Seq<Seq<char>>),
                ArgError,
            >((p.flag, values)),
            forall|j: int| 0 <= j < i ==> eapi_phases@.contains(#[trigger] phases@[j]),
            exported@ == export_all(old(exported)@, phases@.take(i as int), eclass@),
        decreases phases@.len() - i,
    {
        if !phase_listed(eapi_phases, phases[i]) {
            proof {
                lemma_defined_prefix(phases@, eapi_phases@, i as int);
                assert(defined_prefix(phases@, eapi_phases@) == i);
            }
            return Err(CommandError::UndefinedPhase(phases[i]));
        }
        exported.insert(phases[i], eclass.clone());
        proof {
            assert(phases@.take(i + 1).drop_last() =~= phases@.take(i as int));
        }
        i = i + 1;
    }
    proof {
        lemma_defined_prefix(phases@, eapi_phases@, i as int);
        lemma_defined_prefix_le(phases@, eapi_phases@);
    }
    Ok(ExecStatus::Success)
}

/// `ver_cut range [version]`: the version defaults to the package's `pv`.
pub fn ver_cut_command(args: &Vec<String>, pv: &str) -> (r: Result<String, CommandError>)
    ensures
        match parse_spec(ver_cut_spec(), views(args@)) {
            Err(e) => r matches Err(CommandError::Args(x)) && x == e,
            Ok((_, v)) => {
                let version = if v.len() == 2 {
                    v[1]
                } else {
                    pv@
                };
                match cut_outcome(v[0], version) {
                    Ok(out) => r matches Ok(o) && o@ == out,
                    Err(e) => r matches Err(CommandError::Version(x)) && x == e,
                }
            },
        },
{
    let spec = ver_cut_interface();
    proof {
        lemma_cli_run_bounds(spec, views(args@), 0, false, false, Seq::empty());
    }
    let p = match parse_args(&spec, args) {
        Ok(p) => p,
        Err(e) => return Err(CommandError::Args(e)),
    };
    assert(views(p.values@).len() == p.values@.len());
    let result = if p.values.len() == 2 {
        ver_cut(p.values[0].as_str(), p.values[1].as_str())
    } else {
        ver_cut(p.values[0].as_str(), pv)
    };
    match result {
        Ok(out) => Ok(out),
        Err(e) => Err(CommandError::Version(e)),
    }
}

} // verus!
