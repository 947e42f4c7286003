//! Argument handling and decisions of the ebuild shell builtins and commands.

use vstd::prelude::*;
use crate::shell::{PhaseKind, str_eq, phase_name};
use crate::chars::{views, decimal_text, push_decimal, push_text};

verus! {

/// Exit status of a builtin.
#[derive(Clone, Copy, PartialEq, Eq, Structural, Debug)]
pub enum ExecStatus {
    Success,
    Failure(i32),
}

/// Success for `true`, failure with status 1 for `false`.
pub open spec fn status_of(b: bool) -> ExecStatus {
    if b {
        ExecStatus::Success
    } else {
        ExecStatus::Failure(1)
    }
}

/// How many arguments a builtin takes.
#[derive(Clone, Copy, PartialEq, Eq, Structural, Debug)]
pub enum ArgCount {
    NoArgs,
    ExactlyOne,
    AtLeastOne,
    OneOrTwo,
}

/// Errors from the builtins.
#[derive(Debug)]
pub enum BuiltinError {
    /// Wrong number of arguments.
    Args { requires: ArgCount, got: usize },
    /// `default` was called outside a phase function.
    NotInPhase,
    /// The current phase has no default implementation.
    NoDefault(PhaseKind),
}

/// What an argument count asks for, in a message.
pub open spec fn requirement_text(c: ArgCount) -> Seq<char> {
    match c {
        ArgCount::NoArgs => "takes no args"@,
        ArgCount::ExactlyOne => "requires 1 arg"@,
        ArgCount::AtLeastOne => "requires 1 or more args"@,
        ArgCount::OneOrTwo => "requires 1 or 2 args"@,
    }
}

/// The text of a builtin error, such as `requires 1 or more args, got 0` or
/// `src_compile phase has no default`.
pub open spec fn builtin_error_text(e: BuiltinError) -> Seq<char> {
    match e {
        BuiltinError::Args { requires: c, got } => requirement_text(c) + ", got "@ + decimal_text(
            got as nat,
        ),
        BuiltinError::NotInPhase => "not running a phase function"@,
        BuiltinError::NoDefault(k) => phase_name(k) + " phase has no default"@,
    }
}

impl BuiltinError {
    /// The error's message.
    pub fn message(&self) -> (r: String)
        ensures
            r@ == builtin_error_text(*self),
    {
        match self {
            BuiltinError::Args { requires: c, got } => {
                let mut out = String::from_str(
                    match c {
                        ArgCount::NoArgs => "takes no args",
                        ArgCount::ExactlyOne => "requires 1 arg",
                        ArgCount::AtLeastOne => "requires 1 or more args",
                        ArgCount::OneOrTwo => "requires 1 or 2 args",
                    },
                );
                push_text(&mut out, ", got ");
                push_decimal(&mut out, *got);
                out
            },
            BuiltinError::NotInPhase => String::from_str("not running a phase function"),
            BuiltinError::NoDefault(k) => {
                let mut out = String::from_str(k.name());
                push_text(&mut out, " phase has no default");
                out
            },
        }
    }
}

/// Whether a string occurs in a list of strings, by value.
pub fn contains_str(v: &Vec<String>, from: usize, s: &String) -> (r: bool)
    requires
        from <= v@.len(),
    ensures
        r == views(v@).skip(from as int).contains(s@),
{
    let mut i = from;
    while i < v.len()
        invariant
            from <= i <= v@.len(),
            forall|j: int| from <= j < i ==> v@[j]@ != s@,
        decreases v@.len() - i,
    {
        if str_eq(v[i].as_str(), s.as_str()) {
            assert(views(v@).skip(from as int)[i - from] == s@);
            return true;
        }
        i = i + 1;
    }
    proof {
        if views(v@).skip(from as int).contains(s@) {
            let j = choose|j: int|
                0 <= j < views(v@).skip(from as int).len() && views(v@).skip(from as int)[j] == s@;
            assert(v@[from + j]@ == s@);
        }
    }
    false
}

/// `has needle haystack...`: succeeds if the first argument is among the rest.
pub fn has(args: &Vec<String>) -> (r: Result<ExecStatus, BuiltinError>)
    ensures
        args@.len() == 0 ==> (r matches Err(BuiltinError::Args { requires: ArgCount::AtLeastOne, got: 0 })),
        args@.len() > 0 ==> r == Ok::<ExecStatus, BuiltinError>(
            status_of(views(args@).skip(1).contains(args@[0]@)),
        ),
{
    if args.len() == 0 {
        return Err(BuiltinError::Args { requires: ArgCount::AtLeastOne, got: 0 });
    }
    let found = contains_str(args, 1, &args[0]);
    Ok(if found {
        ExecStatus::Success
    } else {
        ExecStatus::Failure(1)
    })
}

/// Paths recorded for symbol stripping.
#[derive(Debug)]
pub struct StripSets {
    pub included: Vec<String>,
    pub excluded: Vec<String>,
}

/// The values of a list of strings as a set.
pub open spec fn value_set(v: Seq<String>) -> Set<Seq<char>> {
    views(v).to_set()
}

/// Add strings to a list that holds each value once, skipping values already present.
pub fn extend_unique(set: &mut Vec<String>, items: &Vec<String>, from: usize)
    requires
        from <= items@.len(),
        views(old(set)@).no_duplicates(),
    ensures
        views(final(set)@).no_duplicates(),
        value_set(final(set)@) == value_set(old(set)@) + views(items@).skip(from as int).to_set(),
        views(final(set)@).take(old(set)@.len() as int) == views(old(set)@),
{
    let mut i = from;
    let ghost start = views(set@);
    while i < items.len()
        invariant
            from <= i <= items@.len(),
            views(set@).no_duplicates(),
            value_set(set@) == start.to_set() + views(items@).subrange(from as int, i as int).to_set(),
            views(set@).take(start.len() as int) == start,
            start.len() <= set@.len(),
        decreases items@.len() - i,
    {
        let ghost before = views(set@);
        if !contains_str(set, 0, &items[i]) {
            set.push(items[i].clone());
            proof {
                assert(views(set@) =~= before.push(items@[i as int]@));
                assert(views(set@).take(start.len() as int) =~= before.take(start.len() as int));
                assert(before.skip(0) =~= before);
                assert(!before.contains(items@[i as int]@));
                assert forall|a: int, b: int|
                    0 <= a < views(set@).len() && 0 <= b < views(set@).len() && a != b implies views(
                    set@,
                )[a] != views(set@)[b] by {
                    if a == before.len() as int {
                        assert(views(set@)[b] == before[b]);
                    } else if b == before.len() as int {
                        assert(views(set@)[a] == before[a]);
                    } else {
                        assert(views(set@)[a] == before[a]);
                        assert(views(set@)[b] == before[b]);
                    }
                }
            }
        } else {
            proof {
                assert(before.skip(0) =~= before);
            }
        }
        proof {
            assert(views(items@).subrange(from as int, i + 1) =~= views(items@).subrange(
                from as int,
                i as int,
            ).push(items@[i as int]@));
            views(items@).subrange(from as int, i as int).lemma_push_to_set_commute(items@[i as int]@);
            before.lemma_push_to_set_commute(items@[i as int]@);
        }
        i = i + 1;
        proof {
            assert(value_set(set@) =~= start.to_set() + views(items@).subrange(
                from as int,
                i as int,
            ).to_set());
        }
    }
    assert(views(items@).subrange(from as int, items@.len() as int) =~= views(items@).skip(
        from as int,
    ));
}

impl View for StripSets {
    type V = (Seq<Seq<char>>, Seq<Seq<char>>);

    open spec fn view(&self) -> (Seq<Seq<char>>, Seq<Seq<char>>) {
        (views(self.included@), views(self.excluded@))
    }
}

impl StripSets {
    /// Each path is recorded once per set.
    pub open spec fn wf(&self) -> bool {
        self@.0.no_duplicates() && self@.1.no_duplicates()
    }
}

/// Whether the first argument is the `-x` exclusion switch.
pub open spec fn excludes(args: Seq<Seq<char>>) -> bool {
    args.len() > 0 && args[0] == "-x"@
}

/// The paths given to `dostrip`.
pub open spec fn strip_paths(args: Seq<Seq<char>>) -> Seq<Seq<char>> {
    if excludes(args) {
        args.skip(1)
    } else {
        args
    }
}

/// `dostrip [-x] path...`: include (or with `-x`, exclude) paths for symbol stripping.
pub fn dostrip(sets: &mut StripSets, args: &Vec<String>) -> (r: Result<ExecStatus, BuiltinError>)
    requires
        old(sets).wf(),
    ensures
        final(sets).wf(),
        strip_paths(views(args@)).len() == 0 ==> (r matches Err(
            BuiltinError::Args { requires: ArgCount::AtLeastOne, got: 0 },
        ) && final(sets)@ == old(sets)@),
        strip_paths(views(args@)).len() > 0 ==> r == Ok::<ExecStatus, BuiltinError>(
            ExecStatus::Success,
        ) && if excludes(views(args@)) {
            final(sets)@.0 == old(sets)@.0 && final(sets)@.1.to_set() == old(sets)@.1.to_set()
                + strip_paths(views(args@)).to_set()
        } else {
            final(sets)@.1 == old(sets)@.1 && final(sets)@.0.to_set() == old(sets)@.0.to_set()
                + strip_paths(views(args@)).to_set()
        },
{
    let exclude = args.len() > 0 && str_eq(args[0].as_str(), "-x");
    let from: usize = if exclude {
        1
    } else {
        0
    };
    assert(views(args@).skip(0) =~= views(args@));
    assert(views(args@).skip(from as int).len() == args@.len() - from);
    if args.len() == from {
        return Err(BuiltinError::Args { requires: ArgCount::AtLeastOne, got: 0 });
    }
    if exclude {
        extend_unique(&mut sets.excluded, args, from);
    } else {
        extend_unique(&mut sets.included, args, from);
    }
    Ok(ExecStatus::Success)
}

/// `into path`: the new install tree, with `/` meaning the root (an empty prefix).
pub fn into(args: &Vec<String>) -> (r: Result<String, BuiltinError>)
    ensures
        args@.len() != 1 ==> (r matches Err(BuiltinError::Args { requires: ArgCount::ExactlyOne, got })
            && got == args@.len()),
        args@.len() == 1 ==> (r matches Ok(p) && p@ == (if args@[0]@ == "/"@ {
            Seq::empty()
        } else {
            args@[0]@
        })),
{
    if args.len() != 1 {
        return Err(BuiltinError::Args { requires: ArgCount::ExactlyOne, got: args.len() });
    }
    if str_eq(args[0].as_str(), "/") {
        Ok(String::new())
    } else {
        Ok(args[0].clone())
    }
}

/// Phases that have a default implementation callable through `default`.
pub open spec fn has_default(k: PhaseKind) -> bool {
    match k {
        PhaseKind::PkgNofetch | PhaseKind::SrcCompile | PhaseKind::SrcConfigure
        | PhaseKind::SrcInstall | PhaseKind::SrcPrepare | PhaseKind::SrcTest
        | PhaseKind::SrcUnpack => true,
        _ => false,
    }
}

/// `default`: the phase whose `default_*` function to run for the current phase.
pub fn default_phase(nargs: usize, phase: Option<PhaseKind>) -> (r: Result<PhaseKind, BuiltinError>)
    ensures
        nargs != 0 ==> (r matches Err(BuiltinError::Args { requires: ArgCount::NoArgs, got })
            && got == nargs),
        nargs == 0 && phase is None ==> (r matches Err(BuiltinError::NotInPhase)),
        nargs == 0 ==> (phase matches Some(k) ==> if has_default(k) {
            r matches Ok(d) && d == k
        } else {
            r matches Err(BuiltinError::NoDefault(d)) && d == k
        }),
{
    if nargs != 0 {
        return Err(BuiltinError::Args { requires: ArgCount::NoArgs, got: nargs });
    }
    match phase {
        None => Err(BuiltinError::NotInPhase),
        Some(k) => match k {
            PhaseKind::PkgNofetch | PhaseKind::SrcCompile | PhaseKind::SrcConfigure
            | PhaseKind::SrcInstall | PhaseKind::SrcPrepare | PhaseKind::SrcTest
            | PhaseKind::SrcUnpack => Ok(k),
            _ => Err(BuiltinError::NoDefault(k)),
        },
    }
}

/// `debug-print-section args...`: the arguments passed on to `debug-print`.
pub fn debug_print_section(args: &Vec<String>) -> (r: Result<Vec<String>, BuiltinError>)
    ensures
        args@.len() == 0 ==> (r matches Err(BuiltinError::Args { requires: ArgCount::AtLeastOne, got: 0 })),
        args@.len() > 0 ==> (r matches Ok(v) && views(v@) == seq!["now in section"@] + views(args@)),
{
    if args.len() == 0 {
        return Err(BuiltinError::Args { requires: ArgCount::AtLeastOne, got: 0 });
    }
    let mut out: Vec<String> = Vec::new();
    out.push(String::from_str("now in section"));
    let mut i: usize = 0;
    while i < args.len()
        invariant
            i <= args@.len(),
            views(out@) == seq!["now in section"@] + views(args@).take(i as int),
        decreases args@.len() - i,
    {
        let ghost before = views(out@);
        let item = args[i].clone();
        out.push(item);
        proof {
            assert(views(out@) =~= before.push(args@[i as int]@));
            assert(views(args@).take(i + 1) =~= views(args@).take(i as int).push(args@[i as int]@));
        }
        i = i + 1;
    }
    assert(views(args@).take(args@.len() as int) =~= views(args@));
    Ok(out)
}

/// `dolib.so path...` requires at least one library.
pub fn dolib_so_args(args: &Vec<String>) -> (r: Result<(), BuiltinError>)
    ensures
        args@.len() == 0 <==> (r matches Err(
            BuiltinError::Args { requires: ArgCount::AtLeastOne, got: 0 },
        )),
        r is Err ==> args@.len() == 0,
{
    if args.len() == 0 {
        Err(BuiltinError::Args { requires: ArgCount::AtLeastOne, got: 0 })
    } else {
        Ok(())
    }
}

/// A flag without one leading `!`.
pub open spec fn strip_bang(s: Seq<char>) -> Seq<char> {
    if s.len() > 0 && s[0] == '!' {
        s.drop_first()
    } else {
        s
    }
}

/// `usev flag [value]`: the flag to test and the text printed when the test
/// succeeds. The value defaults to the flag without `!`; the two-argument form
/// needs EAPI support.
pub fn usev(args: &Vec<String>, two_args: bool) -> (r: Result<(String, String), BuiltinError>)
    ensures
        args@.len() == 1 ==> (r matches Ok((f, v)) && f@ == args@[0]@ && v@ == strip_bang(args@[0]@)),
        args@.len() == 2 && two_args ==> (r matches Ok((f, v)) && f@ == args@[0]@ && v@
            == args@[1]@),
        args@.len() == 2 && !two_args ==> (r matches Err(
            BuiltinError::Args { requires: ArgCount::ExactlyOne, got: 2 },
        )),
        args@.len() != 1 && args@.len() != 2 ==> (r matches Err(
            BuiltinError::Args { requires: ArgCount::OneOrTwo, got },
        ) && got == args@.len()),
{
    if args.len() == 1 {
        let flag = args[0].clone();
        let cs = crate::chars::chars_of(args[0].as_str());
        let value = if cs.len() > 0 && cs[0] == '!' {
            crate::chars::string_from(&cs, 1, cs.len())
        } else {
            crate::chars::string_from(&cs, 0, cs.len())
        };
        assert(cs@.subrange(1, cs@.len() as int) =~= cs@.drop_first());
        assert(cs@.subrange(0, cs@.len() as int) =~= cs@);
        Ok((flag, value))
    } else if args.len() == 2 && two_args {
        Ok((args[0].clone(), args[1].clone()))
    } else if args.len() == 2 {
        Err(BuiltinError::Args { requires: ArgCount::ExactlyOne, got: 2 })
    } else {
        Err(BuiltinError::Args { requires: ArgCount::OneOrTwo, got: args.len() })
    }
}

} // verus!
