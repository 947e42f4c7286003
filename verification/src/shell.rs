//! Ebuild shell state: phase kinds, command scopes and command dispatch.

use vstd::prelude::*;
use crate::chars::{chars_of, chars_eq};

verus! {

/// Whether two strings are equal.
pub fn str_eq(a: &str, b: &str) -> (r: bool)
    ensures
        r == (a@ == b@),
{
    let x = chars_of(a);
    let y = chars_of(b);
    chars_eq(&x, &y)
}

/// Ebuild phase functions.
#[derive(Clone, Copy, PartialEq, Eq, Structural, Debug)]
pub enum PhaseKind {
    PkgConfig,
    PkgInfo,
    PkgNofetch,
    PkgPostinst,
    PkgPostrm,
    PkgPreinst,
    PkgPrerm,
    PkgPretend,
    PkgSetup,
    SrcCompile,
    SrcConfigure,
    SrcInstall,
    SrcPrepare,
    SrcTest,
    SrcUnpack,
}

/// The function name of a phase.
pub open spec fn phase_name(k: PhaseKind) -> Seq<char> {
    match k {
        PhaseKind::PkgConfig => "pkg_config"@,
        PhaseKind::PkgInfo => "pkg_info"@,
        PhaseKind::PkgNofetch => "pkg_nofetch"@,
        PhaseKind::PkgPostinst => "pkg_postinst"@,
        PhaseKind::PkgPostrm => "pkg_postrm"@,
        PhaseKind::PkgPreinst => "pkg_preinst"@,
        PhaseKind::PkgPrerm => "pkg_prerm"@,
        PhaseKind::PkgPretend => "pkg_pretend"@,
        PhaseKind::PkgSetup => "pkg_setup"@,
        PhaseKind::SrcCompile => "src_compile"@,
        PhaseKind::SrcConfigure => "src_configure"@,
        PhaseKind::SrcInstall => "src_install"@,
        PhaseKind::SrcPrepare => "src_prepare"@,
        PhaseKind::SrcTest => "src_test"@,
        PhaseKind::SrcUnpack => "src_unpack"@,
    }
}

/// The phase with a given function name, if any.
pub open spec fn phase_from_name(s: Seq<char>) -> Option<PhaseKind> {
    if s == "pkg_config"@ {
        Some(PhaseKind::PkgConfig)
    } else if s == "pkg_info"@ {
        Some(PhaseKind::PkgInfo)
    } else if s == "pkg_nofetch"@ {
        Some(PhaseKind::PkgNofetch)
    } else if s == "pkg_postinst"@ {
        Some(PhaseKind::PkgPostinst)
    } else if s == "pkg_postrm"@ {
        Some(PhaseKind::PkgPostrm)
    } else if s == "pkg_preinst"@ {
        Some(PhaseKind::PkgPreinst)
    } else if s == "pkg_prerm"@ {
        Some(PhaseKind::PkgPrerm)
    } else if s == "pkg_pretend"@ {
        Some(PhaseKind::PkgPretend)
    } else if s == "pkg_setup"@ {
        Some(PhaseKind::PkgSetup)
    } else if s == "src_compile"@ {
        Some(PhaseKind::SrcCompile)
    } else if s == "src_configure"@ {
        Some(PhaseKind::SrcConfigure)
    } else if s == "src_install"@ {
        Some(PhaseKind::SrcInstall)
    } else if s == "src_prepare"@ {
        Some(PhaseKind::SrcPrepare)
    } else if s == "src_test"@ {
        Some(PhaseKind::SrcTest)
    } else if s == "src_unpack"@ {
        Some(PhaseKind::SrcUnpack)
    } else {
        None
    }
}

impl PhaseKind {
    /// The phase's function name.
    pub fn name(&self) -> (r: &'static str)
        ensures
            r@ == phase_name(*self),
    {
        match self {
            PhaseKind::PkgConfig => "pkg_config",
            PhaseKind::PkgInfo => "pkg_info",
            PhaseKind::PkgNofetch => "pkg_nofetch",
            PhaseKind::PkgPostinst => "pkg_postinst",
            PhaseKind::PkgPostrm => "pkg_postrm",
            PhaseKind::PkgPreinst => "pkg_preinst",
            PhaseKind::PkgPrerm => "pkg_prerm",
            PhaseKind::PkgPretend => "pkg_pretend",
            PhaseKind::PkgSetup => "pkg_setup",
            PhaseKind::SrcCompile => "src_compile",
            PhaseKind::SrcConfigure => "src_configure",
            PhaseKind::SrcInstall => "src_install",
            PhaseKind::SrcPrepare => "src_prepare",
            PhaseKind::SrcTest => "src_test",
            PhaseKind::SrcUnpack => "src_unpack",
        }
    }

    /// Parse a phase from its function name.
    pub fn from_name(s: &str) -> (r: Option<PhaseKind>)
        ensures
            r == phase_from_name(s@),
    {
        if str_eq(s, "pkg_config") {
            Some(PhaseKind::PkgConfig)
        } else if str_eq(s, "pkg_info") {
            Some(PhaseKind::PkgInfo)
        } else if str_eq(s, "pkg_nofetch") {
            Some(PhaseKind::PkgNofetch)
        } else if str_eq(s, "pkg_postinst") {
            Some(PhaseKind::PkgPostinst)
        } else if str_eq(s, "pkg_postrm") {
            Some(PhaseKind::PkgPostrm)
        } else if str_eq(s, "pkg_preinst") {
            Some(PhaseKind::PkgPreinst)
        } else if str_eq(s, "pkg_prerm") {
            Some(PhaseKind::PkgPrerm)
        } else if str_eq(s, "pkg_pretend") {
            Some(PhaseKind::PkgPretend)
        } else if str_eq(s, "pkg_setup") {
            Some(PhaseKind::PkgSetup)
        } else if str_eq(s, "src_compile") {
            Some(PhaseKind::SrcCompile)
        } else if str_eq(s, "src_configure") {
            Some(PhaseKind::SrcConfigure)
        } else if str_eq(s, "src_install") {
            Some(PhaseKind::SrcInstall)
        } else if str_eq(s, "src_prepare") {
            Some(PhaseKind::SrcPrepare)
        } else if str_eq(s, "src_test") {
            Some(PhaseKind::SrcTest)
        } else if str_eq(s, "src_unpack") {
            Some(PhaseKind::SrcUnpack)
        } else {
            None
        }
    }
}

/// A phase's name parses back to the phase.
pub proof fn lemma_phase_name_roundtrip(k: PhaseKind)
    ensures
        phase_from_name(phase_name(k)) == Some(k),
{
    reveal_strlit("pkg_config");
    reveal_strlit("pkg_info");
    reveal_strlit("pkg_nofetch");
    reveal_strlit("pkg_postinst");
    reveal_strlit("pkg_postrm");
    reveal_strlit("pkg_preinst");
    reveal_strlit("pkg_prerm");
    reveal_strlit("pkg_pretend");
    reveal_strlit("pkg_setup");
    reveal_strlit("src_compile");
    reveal_strlit("src_configure");
    reveal_strlit("src_install");
    reveal_strlit("src_prepare");
    reveal_strlit("src_test");
    reveal_strlit("src_unpack");
    assert("pkg_info"@[4] != "pkg_config"@[4]);
    assert("pkg_nofetch"@[4] != "pkg_config"@[4]);
    assert("pkg_nofetch"@[4] != "pkg_info"@[4]);
    assert("pkg_postinst"@[4] != "pkg_config"@[4]);
    assert("pkg_postinst"@[4] != "pkg_info"@[4]);
    assert("pkg_postinst"@[4] != "pkg_nofetch"@[4]);
    assert("pkg_postrm"@[4] != "pkg_config"@[4]);
    assert("pkg_postrm"@[4] != "pkg_info"@[4]);
    assert("pkg_postrm"@[4] != "pkg_nofetch"@[4]);
    assert("pkg_postrm"@[8] != "pkg_postinst"@[8]);
    assert("pkg_preinst"@[4] != "pkg_config"@[4]);
    assert("pkg_preinst"@[4] != "pkg_info"@[4]);
    assert("pkg_preinst"@[4] != "pkg_nofetch"@[4]);
    assert("pkg_preinst"@[5] != "pkg_postinst"@[5]);
    assert("pkg_preinst"@[5] != "pkg_postrm"@[5]);
    assert("pkg_prerm"@[4] != "pkg_config"@[4]);
    assert("pkg_prerm"@[4] != "pkg_info"@[4]);
    assert("pkg_prerm"@[4] != "pkg_nofetch"@[4]);
    assert("pkg_prerm"@[5] != "pkg_postinst"@[5]);
    assert("pkg_prerm"@[5] != "pkg_postrm"@[5]);
    assert("pkg_prerm"@[7] != "pkg_preinst"@[7]);
    assert("pkg_pretend"@[4] != "pkg_config"@[4]);
    assert("pkg_pretend"@[4] != "pkg_info"@[4]);
    assert("pkg_pretend"@[4] != "pkg_nofetch"@[4]);
    assert("pkg_pretend"@[5] != "pkg_postinst"@[5]);
    assert("pkg_pretend"@[5] != "pkg_postrm"@[5]);
    assert("pkg_pretend"@[7] != "pkg_preinst"@[7]);
    assert("pkg_pretend"@[7] != "pkg_prerm"@[7]);
    assert("pkg_setup"@[4] != "pkg_config"@[4]);
    assert("pkg_setup"@[4] != "pkg_info"@[4]);
    assert("pkg_setup"@[4] != "pkg_nofetch"@[4]);
    assert("pkg_setup"@[4] != "pkg_postinst"@[4]);
    assert("pkg_setup"@[4] != "pkg_postrm"@[4]);
    assert("pkg_setup"@[4] != "pkg_preinst"@[4]);
    assert("pkg_setup"@[4] != "pkg_prerm"@[4]);
    assert("pkg_setup"@[4] != "pkg_pretend"@[4]);
    assert("src_compile"@[0] != "pkg_config"@[0]);
    assert("src_compile"@[0] != "pkg_info"@[0]);
    assert("src_compile"@[0] != "pkg_nofetch"@[0]);
    assert("src_compile"@[0] != "pkg_postinst"@[0]);
    assert("src_compile"@[0] != "pkg_postrm"@[0]);
    assert("src_compile"@[0] != "pkg_preinst"@[0]);
    assert("src_compile"@[0] != "pkg_prerm"@[0]);
    assert("src_compile"@[0] != "pkg_pretend"@[0]);
    assert("src_compile"@[0] != "pkg_setup"@[0]);
    assert("src_configure"@[0] != "pkg_config"@[0]);
    assert("src_configure"@[0] != "pkg_info"@[0]);
    assert("src_configure"@[0] != "pkg_nofetch"@[0]);
    assert("src_configure"@[0] != "pkg_postinst"@[0]);
    assert("src_configure"@[0] != "pkg_postrm"@[0]);
    assert("src_configure"@[0] != "pkg_preinst"@[0]);
    assert("src_configure"@[0] != "pkg_prerm"@[0]);
    assert("src_configure"@[0] != "pkg_pretend"@[0]);
    assert("src_configure"@[0] != "pkg_setup"@[0]);
    assert("src_configure"@[6] != "src_compile"@[6]);
    assert("src_install"@[0] != "pkg_config"@[0]);
    assert("src_install"@[0] != "pkg_info"@[0]);
    assert("src_install"@[0] != "pkg_nofetch"@[0]);
    assert("src_install"@[0] != "pkg_postinst"@[0]);
    assert("src_install"@[0] != "pkg_postrm"@[0]);
    assert("src_install"@[0] != "pkg_preinst"@[0]);
    assert("src_install"@[0] != "pkg_prerm"@[0]);
    assert("src_install"@[0] != "pkg_pretend"@[0]);
    assert("src_install"@[0] != "pkg_setup"@[0]);
    assert("src_install"@[4] != "src_compile"@[4]);
    assert("src_install"@[4] != "src_configure"@[4]);
    assert("src_prepare"@[0] != "pkg_config"@[0]);
    assert("src_prepare"@[0] != "pkg_info"@[0]);
    assert("src_prepare"@[0] != "pkg_nofetch"@[0]);
    assert("src_prepare"@[0] != "pkg_postinst"@[0]);
    assert("src_prepare"@[0] != "pkg_postrm"@[0]);
    assert("src_prepare"@[0] != "pkg_preinst"@[0]);
    assert("src_prepare"@[0] != "pkg_prerm"@[0]);
    assert("src_prepare"@[0] != "pkg_pretend"@[0]);
    assert("src_prepare"@[0] != "pkg_setup"@[0]);
    assert("src_prepare"@[4] != "src_compile"@[4]);
    assert("src_prepare"@[4] != "src_configure"@[4]);
    assert("src_prepare"@[4] != "src_install"@[4]);
    assert("src_test"@[0] != "pkg_config"@[0]);
    assert("src_test"@[0] != "pkg_info"@[0]);
    assert("src_test"@[0] != "pkg_nofetch"@[0]);
    assert("src_test"@[0] != "pkg_postinst"@[0]);
    assert("src_test"@[0] != "pkg_postrm"@[0]);
    assert("src_test"@[0] != "pkg_preinst"@[0]);
    assert("src_test"@[0] != "pkg_prerm"@[0]);
    assert("src_test"@[0] != "pkg_pretend"@[0]);
    assert("src_test"@[0] != "pkg_setup"@[0]);
    assert("src_test"@[4] != "src_compile"@[4]);
    assert("src_test"@[4] != "src_configure"@[4]);
    assert("src_test"@[4] != "src_install"@[4]);
    assert("src_test"@[4] != "src_prepare"@[4]);
    assert("src_unpack"@[0] != "pkg_config"@[0]);
    assert("src_unpack"@[0] != "pkg_info"@[0]);
    assert("src_unpack"@[0] != "pkg_nofetch"@[0]);
    assert("src_unpack"@[0] != "pkg_postinst"@[0]);
    assert("src_unpack"@[0] != "pkg_postrm"@[0]);
    assert("src_unpack"@[0] != "pkg_preinst"@[0]);
    assert("src_unpack"@[0] != "pkg_prerm"@[0]);
    assert("src_unpack"@[0] != "pkg_pretend"@[0]);
    assert("src_unpack"@[0] != "pkg_setup"@[0]);
    assert("src_unpack"@[4] != "src_compile"@[4]);
    assert("src_unpack"@[4] != "src_configure"@[4]);
    assert("src_unpack"@[4] != "src_install"@[4]);
    assert("src_unpack"@[4] != "src_prepare"@[4]);
    assert("src_unpack"@[4] != "src_test"@[4]);
}

/// Where shell code runs: the global ebuild scope, an eclass (optionally a
/// named one), or a phase function.
#[derive(Debug)]
pub enum Scope {
    Global,
    Eclass(Option<String>),
    Phase(PhaseKind),
}

/// The value of a scope, with eclass names as character sequences.
pub enum ScopeView {
    Global,
    Eclass(Option<Seq<char>>),
    Phase(PhaseKind),
}

impl View for Scope {
    type V = ScopeView;

    open spec fn view(&self) -> ScopeView {
        match self {
            Scope::Global => ScopeView::Global,
            Scope::Eclass(None) => ScopeView::Eclass(None),
            Scope::Eclass(Some(name)) => ScopeView::Eclass(Some(name@)),
            Scope::Phase(k) => ScopeView::Phase(*k),
        }
    }
}

/// Whether two scopes are the same.
pub fn scope_eq(a: &Scope, b: &Scope) -> (r: bool)
    ensures
        r == (a@ == b@),
{
    match (a, b) {
        (Scope::Global, Scope::Global) => true,
        (Scope::Eclass(None), Scope::Eclass(None)) => true,
        (Scope::Eclass(Some(x)), Scope::Eclass(Some(y))) => str_eq(x.as_str(), y.as_str()),
        (Scope::Phase(x), Scope::Phase(y)) => *x == *y,
        _ => false,
    }
}

/// A shell command and the scopes it is enabled in.
#[derive(Debug)]
pub struct Command {
    pub name: String,
    pub scopes: Vec<Scope>,
}

impl Command {
    /// The scopes of the command as values.
    pub open spec fn scopes_view(&self) -> Seq<ScopeView> {
        self.scopes@.map_values(|s: Scope| s@)
    }

    /// A command is allowed in a scope it lists, and in any eclass scope when
    /// it lists the unnamed eclass scope.
    pub open spec fn allowed(&self, scope: ScopeView) -> bool {
        self.scopes_view().contains(scope) || (scope is Eclass && self.scopes_view().contains(
            ScopeView::Eclass(None),
        ))
    }

    fn lists(&self, scope: &Scope) -> (r: bool)
        ensures
            r == self.scopes_view().contains(scope@),
    {
        let mut i: usize = 0;
        while i < self.scopes.len()
            invariant
                i <= self.scopes@.len(),
                forall|j: int| 0 <= j < i ==> self.scopes@[j]@ != scope@,
            decreases self.scopes@.len() - i,
        {
            if scope_eq(&self.scopes[i], scope) {
                assert(self.scopes_view()[i as int] == scope@);
                return true;
            }
            i = i + 1;
        }
        proof {
            if self.scopes_view().contains(scope@) {
                let j = choose|j: int| 0 <= j < self.scopes_view().len() && self.scopes_view()[j]
                    == scope@;
                assert(self.scopes@[j]@ == scope@);
            }
        }
        false
    }

    /// Determine if the command is allowed in a given scope.
    pub fn is_allowed(&self, scope: &Scope) -> (r: bool)
        ensures
            r == self.allowed(scope@),
    {
        if self.lists(scope) {
            return true;
        }
        match scope {
            Scope::Eclass(_) => self.lists(&Scope::Eclass(None)),
            _ => false,
        }
    }

    /// Determine if the command is a phase stub.
    pub fn is_phase(&self) -> (r: bool)
        ensures
            r == (phase_from_name(self.name@) is Some),
    {
        PhaseKind::from_name(self.name.as_str()).is_some()
    }
}

/// What to do with a command invoked from the shell.
#[derive(Debug)]
pub enum Dispatch {
    /// Run the command with its arguments.
    Run,
    /// The command exists in the EAPI but isn't allowed in the current scope.
    DisabledInScope,
    /// The command doesn't exist in the EAPI.
    DisabledInEapi,
}

/// Decide whether a command found (or not) in the EAPI's command set runs in a scope.
pub fn dispatch(cmd: Option<&Command>, scope: &Scope) -> (r: Dispatch)
    ensures
        match cmd {
            Some(c) => if c.allowed(scope@) {
                r is Run
            } else {
                r is DisabledInScope
            },
            None => r is DisabledInEapi,
        },
{
    match cmd {
        Some(c) => if c.is_allowed(scope) {
            Dispatch::Run
        } else {
            Dispatch::DisabledInScope
        },
        None => Dispatch::DisabledInEapi,
    }
}

/// How a command failure is reported to the shell.
#[derive(Debug)]
pub enum Failure {
    /// Abort the build.
    Bail(String),
    /// Report the error and continue.
    Report(String),
}

/// Ordinary command errors abort the build unless running under `nonfatal`;
/// other errors are only reported.
pub fn escalate(message: String, ordinary: bool, nonfatal: bool) -> (r: Failure)
    ensures
        match r {
            Failure::Bail(m) => m == message && ordinary && !nonfatal,
            Failure::Report(m) => m == message && !(ordinary && !nonfatal),
        },
{
    if ordinary && !nonfatal {
        Failure::Bail(message)
    } else {
        Failure::Report(message)
    }
}

} // verus!
