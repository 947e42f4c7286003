//! Package dependencies:
//! `[!|!!][op]category/package[-version][*][:slot[/subslot][=]][::repo][[use,...]]`.
//!
//! The grammar is matched greedily from the left with committed choices, as a
//! PEG would: a blocker, then either an unversioned `category/package` or an
//! operator with a versioned package, then optional slot, repo and USE parts,
//! and the whole string must be consumed.

use vstd::prelude::*;
use crate::chars::{
    CharClass, in_class, prefix_run, scan_run, chars_of, string_from, char_in_class,
    lemma_prefix_run_bounds,
};
use crate::names::{ParseError, package_end, repo_end, match_package, match_repo};
use crate::version::{
    version_end, version_base_end, version_view_at, parse_version_at, lemma_version_end_bounds,
    Version, VersionView,
};

verus! {

/// Blockers: `!` is weak, `!!` is strong.
#[derive(Clone, Copy, PartialEq, Eq, Structural, Debug)]
pub enum Blocker {
    Strong,
    Weak,
}

/// Version operators.
#[derive(Clone, Copy, PartialEq, Eq, Structural, Debug)]
pub enum Operator {
    Less,
    LessOrEqual,
    Equal,
    EqualGlob,
    Approximate,
    GreaterOrEqual,
    Greater,
}

/// Slot operators: `:=` and `:*`.
#[derive(Clone, Copy, PartialEq, Eq, Structural, Debug)]
pub enum SlotOperator {
    Equal,
    Star,
}

/// The forms of a USE dependency.
#[derive(Clone, Copy, PartialEq, Eq, Structural, Debug)]
pub enum UseDepKind {
    /// `flag`
    Enabled,
    /// `-flag`
    Disabled,
    /// `flag=`
    Equal,
    /// `!flag=`
    NotEqual,
    /// `flag?`
    EnabledConditional,
    /// `!flag?`
    DisabledConditional,
}

/// USE dependency defaults: `(+)` and `(-)`.
#[derive(Clone, Copy, PartialEq, Eq, Structural, Debug)]
pub enum UseDepDefault {
    Enabled,
    Disabled,
}

/// The value of a USE dependency.
pub struct UseDepView {
    pub kind: UseDepKind,
    pub flag: Seq<char>,
    pub default: Option<UseDepDefault>,
}

/// The value of a dependency.
pub struct DepView {
    pub blocker: Option<Blocker>,
    pub op: Option<Operator>,
    pub category: Seq<char>,
    pub package: Seq<char>,
    pub version: Option<VersionView>,
    pub slot: Option<Seq<char>>,
    pub subslot: Option<Seq<char>>,
    pub slot_op: Option<SlotOperator>,
    pub repo: Option<Seq<char>>,
    pub use_deps: Option<Seq<UseDepView>>,
}

// ---------------------------------------------------------------------------
// the grammar, by positions

/// A name starting at `i` whose first character is in `first` and the rest in `rest`.
pub open spec fn name_end(s: Seq<char>, i: int, first: CharClass, rest: CharClass) -> Option<int> {
    if 0 <= i < s.len() && in_class(s[i], first) {
        Some(i + 1 + prefix_run(s.skip(i + 1), rest))
    } else {
        None
    }
}

pub proof fn lemma_name_end(s: Seq<char>, i: int, first: CharClass, rest: CharClass)
    requires
        0 <= i <= s.len(),
    ensures
        name_end(s, i, first, rest) matches Some(e) ==> i < e <= s.len(),
{
    if 0 <= i < s.len() {
        lemma_prefix_run_bounds(s.skip(i + 1), rest);
    }
}

/// The blocker that begins a dependency, and where it ends.
pub open spec fn blocker_at(s: Seq<char>) -> (Option<Blocker>, int) {
    if s.len() >= 2 && s[0] == '!' && s[1] == '!' {
        (Some(Blocker::Strong), 2)
    } else if s.len() >= 1 && s[0] == '!' {
        (Some(Blocker::Weak), 1)
    } else {
        (None, 0)
    }
}

/// The version operator at `i`, and where it ends.
pub open spec fn op_at(s: Seq<char>, i: int) -> Option<(Operator, int)> {
    if !(0 <= i < s.len()) {
        None
    } else if s[i] == '<' {
        if i + 1 < s.len() && s[i + 1] == '=' {
            Some((Operator::LessOrEqual, i + 2))
        } else {
            Some((Operator::Less, i + 1))
        }
    } else if s[i] == '>' {
        if i + 1 < s.len() && s[i + 1] == '=' {
            Some((Operator::GreaterOrEqual, i + 2))
        } else {
            Some((Operator::Greater, i + 1))
        }
    } else if s[i] == '=' {
        Some((Operator::Equal, i + 1))
    } else if s[i] == '~' {
        Some((Operator::Approximate, i + 1))
    } else {
        None
    }
}

/// `category/package-version` at `o`: the positions of the `/`, of the `-`,
/// of the end of the version before any revision, and of the version's end.
pub open spec fn cpv_at(s: Seq<char>, o: int) -> Option<(int, int, int, int)> {
    match name_end(s, o, CharClass::NameStart, CharClass::CategoryChar) {
        None => None,
        Some(c) => if c < s.len() && s[c] == '/' {
            match package_end(s, c + 1) {
                None => None,
                Some(p) => if p < s.len() && s[p] == '-' {
                    match (version_base_end(s, p + 1), version_end(s, p + 1)) {
                        (Some(vb), Some(ve)) => Some((c, p, vb, ve)),
                        _ => None,
                    }
                } else {
                    None
                },
            }
        } else {
            None
        },
    }
}

/// Where the package part of a dependency lies.
pub struct PkgPos {
    pub op: Option<Operator>,
    /// Start of the category.
    pub start: int,
    /// The `/` between category and package.
    pub slash: int,
    /// End of the package name.
    pub pkg_end: int,
    /// Start and end of the version, when there is one.
    pub version: Option<(int, int)>,
    /// End of the package part, after any `*`.
    pub end: int,
}

/// The package part at `i`: `category/package`, or an operator and
/// `category/package-version` (with a trailing `*` after `=`). The `~`
/// operator takes no revision.
pub open spec fn pkg_at(s: Seq<char>, i: int) -> Option<PkgPos> {
    let cpn = match name_end(s, i, CharClass::NameStart, CharClass::CategoryChar) {
        Some(c) => if c < s.len() && s[c] == '/' {
            match package_end(s, c + 1) {
                Some(p) => Some(PkgPos { op: None, start: i, slash: c, pkg_end: p, version: None, end: p }),
                None => None,
            }
        } else {
            None
        },
        None => None,
    };
    if cpn is Some {
        cpn
    } else {
        match op_at(s, i) {
            None => None,
            Some((op, o)) => match cpv_at(s, o) {
                None => None,
                Some((c, p, vb, ve)) => if op == Operator::Approximate && vb != ve {
                    None
                } else if op == Operator::Equal && ve < s.len() && s[ve] == '*' {
                    Some(
                        PkgPos {
                            op: Some(Operator::EqualGlob),
                            start: o,
                            slash: c,
                            pkg_end: p,
                            version: Some((p + 1, ve)),
                            end: ve + 1,
                        },
                    )
                } else {
                    Some(
                        PkgPos {
                            op: Some(op),
                            start: o,
                            slash: c,
                            pkg_end: p,
                            version: Some((p + 1, ve)),
                            end: ve,
                        },
                    )
                },
            },
        }
    }
}

/// Where the slot part of a dependency lies.
pub struct SlotPos {
    pub slot: Option<(int, int)>,
    pub subslot: Option<(int, int)>,
    pub op: Option<SlotOperator>,
    pub end: int,
}

/// A slot name at `i`.
pub open spec fn slot_name_end(s: Seq<char>, i: int) -> Option<int> {
    name_end(s, i, CharClass::NameStart, CharClass::CategoryChar)
}

/// The slot part at `q`: `:=`, `:*`, or `:slot[/subslot][=]`.
pub open spec fn slot_at(s: Seq<char>, q: int) -> Option<SlotPos> {
    if !(0 <= q < s.len() && s[q] == ':') {
        None
    } else if q + 1 < s.len() && s[q + 1] == '=' {
        Some(SlotPos { slot: None, subslot: None, op: Some(SlotOperator::Equal), end: q + 2 })
    } else if q + 1 < s.len() && s[q + 1] == '*' {
        Some(SlotPos { slot: None, subslot: None, op: Some(SlotOperator::Star), end: q + 2 })
    } else {
        match slot_name_end(s, q + 1) {
            None => None,
            Some(e1) => {
                let sub = if e1 < s.len() && s[e1] == '/' && slot_name_end(s, e1 + 1) is Some {
                    Some((e1 + 1, slot_name_end(s, e1 + 1).unwrap()))
                } else {
                    None
                };
                let e2 = match sub {
                    Some((_, e)) => e,
                    None => e1,
                };
                if e2 < s.len() && s[e2] == '=' {
                    Some(
                        SlotPos {
                            slot: Some((q + 1, e1)),
                            subslot: sub,
                            op: Some(SlotOperator::Equal),
                            end: e2 + 1,
                        },
                    )
                } else {
                    Some(SlotPos { slot: Some((q + 1, e1)), subslot: sub, op: None, end: e2 })
                }
            },
        }
    }
}

/// The repo part at `q`, `::repo`, where the EAPI allows repo ids.
pub open spec fn repo_at(s: Seq<char>, q: int, repo_ids: bool) -> Option<(int, int)> {
    if repo_ids && 0 <= q && q + 1 < s.len() && s[q] == ':' && s[q + 1] == ':' && repo_end(
        s,
        q + 2,
    ) is Some {
        Some((q + 2, repo_end(s, q + 2).unwrap()))
    } else {
        None
    }
}

/// A USE flag name at `i`.
pub open spec fn use_flag_end(s: Seq<char>, i: int) -> Option<int> {
    name_end(s, i, CharClass::Alnum, CharClass::UseFlagChar)
}

/// An optional `(+)` or `(-)` default at `e`.
pub open spec fn default_at(s: Seq<char>, e: int) -> (Option<UseDepDefault>, int) {
    if 0 <= e && e + 2 < s.len() && s[e] == '(' && s[e + 2] == ')' && (s[e + 1] == '+' || s[e + 1]
        == '-') {
        (
            Some(
                if s[e + 1] == '+' {
                    UseDepDefault::Enabled
                } else {
                    UseDepDefault::Disabled
                },
            ),
            e + 3,
        )
    } else {
        (None, e)
    }
}

/// One USE dependency at `u`.
pub open spec fn use_dep_at(s: Seq<char>, u: int) -> Option<(UseDepView, int)> {
    if 0 <= u < s.len() && s[u] == '-' {
        match use_flag_end(s, u + 1) {
            None => None,
            Some(e) => {
                let (d, e2) = default_at(s, e);
                Some((UseDepView { kind: UseDepKind::Disabled, flag: s.subrange(u + 1, e), default: d }, e2))
            },
        }
    } else if 0 <= u < s.len() && s[u] == '!' {
        match use_flag_end(s, u + 1) {
            None => None,
            Some(e) => {
                let (d, e2) = default_at(s, e);
                if e2 < s.len() && s[e2] == '=' {
                    Some((UseDepView { kind: UseDepKind::NotEqual, flag: s.subrange(u + 1, e), default: d }, e2 + 1))
                } else if e2 < s.len() && s[e2] == '?' {
                    Some(
                        (
                            UseDepView {
                                kind: UseDepKind::DisabledConditional,
                                flag: s.subrange(u + 1, e),
                                default: d,
                            },
                            e2 + 1,
                        ),
                    )
                } else {
                    None
                }
            },
        }
    } else {
        match use_flag_end(s, u) {
            None => None,
            Some(e) => {
                let (d, e2) = default_at(s, e);
                if e2 < s.len() && s[e2] == '=' {
                    Some((UseDepView { kind: UseDepKind::Equal, flag: s.subrange(u, e), default: d }, e2 + 1))
                } else if e2 < s.len() && s[e2] == '?' {
                    Some(
                        (
                            UseDepView {
                                kind: UseDepKind::EnabledConditional,
                                flag: s.subrange(u, e),
                                default: d,
                            },
                            e2 + 1,
                        ),
                    )
                } else {
                    Some((UseDepView { kind: UseDepKind::Enabled, flag: s.subrange(u, e), default: d }, e2))
                }
            },
        }
    }
}

pub proof fn lemma_use_dep_at(s: Seq<char>, u: int)
    requires
        0 <= u <= s.len(),
    ensures
        use_dep_at(s, u) matches Some((_, e)) ==> u < e <= s.len(),
{
    if u < s.len() {
        lemma_name_end(s, u, CharClass::Alnum, CharClass::UseFlagChar);
        lemma_name_end(s, u + 1, CharClass::Alnum, CharClass::UseFlagChar);
    }
}

/// A comma-separated list of USE dependencies at `u`, as long as it goes.
pub open spec fn use_list(s: Seq<char>, u: int) -> Option<(Seq<UseDepView>, int)>
    decreases s.len() - u,
{
    if !(0 <= u <= s.len()) {
        None
    } else {
        match use_dep_at(s, u) {
            None => None,
            Some((d, e)) => {
                proof {
                    lemma_use_dep_at(s, u);
                }
                if e < s.len() && s[e] == ',' && use_list(s, e + 1) is Some {
                    let (rest, e2) = use_list(s, e + 1).unwrap();
                    Some((seq![d] + rest, e2))
                } else {
                    Some((seq![d], e))
                }
            },
        }
    }
}

pub proof fn lemma_use_list(s: Seq<char>, u: int)
    requires
        0 <= u <= s.len(),
    ensures
        use_list(s, u) matches Some((v, e)) ==> u < e <= s.len() && v.len() > 0,
    decreases s.len() - u,
{
    lemma_use_dep_at(s, u);
    if let Some((d, e)) = use_dep_at(s, u) {
        if e < s.len() && s[e] == ',' {
            lemma_use_list(s, e + 1);
        }
    }
}

/// The USE part at `q`: `[dep,dep,...]`.
pub open spec fn use_deps_at(s: Seq<char>, q: int) -> Option<(Seq<UseDepView>, int)> {
    if 0 <= q < s.len() && s[q] == '[' && use_list(s, q + 1) is Some {
        let (v, e) = use_list(s, q + 1).unwrap();
        if e < s.len() && s[e] == ']' {
            Some((v, e + 1))
        } else {
            None
        }
    } else {
        None
    }
}

/// The dependency made of the parts found in `s`.
#[verifier::opaque]
pub open spec fn dep_assemble(
    s: Seq<char>,
    blocker: Option<Blocker>,
    pp: PkgPos,
    slot: Option<SlotPos>,
    repo: Option<(int, int)>,
    uses: Option<(Seq<UseDepView>, int)>,
) -> DepView {
    DepView {
        blocker,
        op: pp.op,
        category: s.subrange(pp.start, pp.slash),
        package: s.subrange(pp.slash + 1, pp.pkg_end),
        version: match pp.version {
            Some((a, _)) => version_view_at(s, a),
            None => None,
        },
        slot: match slot {
            Some(sp) => match sp.slot {
                Some((a, e)) => Some(s.subrange(a, e)),
                None => None,
            },
            None => None,
        },
        subslot: match slot {
            Some(sp) => match sp.subslot {
                Some((a, e)) => Some(s.subrange(a, e)),
                None => None,
            },
            None => None,
        },
        slot_op: match slot {
            Some(sp) => sp.op,
            None => None,
        },
        repo: match repo {
            Some((a, e)) => Some(s.subrange(a, e)),
            None => None,
        },
        use_deps: match uses {
            Some((v, _)) => Some(v),
            None => None,
        },
    }
}

/// Parse a dependency. Repo parts are accepted only when `repo_ids` is set.
pub open spec fn dep_parse(s: Seq<char>, repo_ids: bool) -> Option<DepView> {
    let (blocker, b) = blocker_at(s);
    match pkg_at(s, b) {
        None => None,
        Some(pp) => {
            let slot = slot_at(s, pp.end);
            let q1 = match slot {
                Some(sp) => sp.end,
                None => pp.end,
            };
            let repo = repo_at(s, q1, repo_ids);
            let q2 = match repo {
                Some((_, e)) => e,
                None => q1,
            };
            let uses = use_deps_at(s, q2);
            let q3 = match uses {
                Some((_, e)) => e,
                None => q2,
            };
            if q3 == s.len() {
                Some(dep_assemble(s, blocker, pp, slot, repo, uses))
            } else {
                None
            }
        },
    }
}

// ---------------------------------------------------------------------------
// executable matchers

fn match_name(s: &Vec<char>, i: usize, first: CharClass, rest: CharClass) -> (r: Option<usize>)
    requires
        i <= s@.len(),
    ensures
        r matches Some(e) ==> name_end(s@, i as int, first, rest) == Some(e as int) && i < e
            <= s@.len(),
        r is None ==> name_end(s@, i as int, first, rest) is None,
{
    if i >= s.len() || !char_in_class(s[i], &first) {
        return None;
    }
    let e = scan_run(s, i + 1, &rest);
    Some(e)
}

fn match_op(s: &Vec<char>, i: usize) -> (r: Option<(Operator, usize)>)
    requires
        i <= s@.len(),
    ensures
        match r {
            Some((op, e)) => op_at(s@, i as int) == Some((op, e as int)) && i < e <= s@.len(),
            None => op_at(s@, i as int) is None,
        },
{
    if i >= s.len() {
        return None;
    }
    let c = s[i];
    let next_eq = i + 1 < s.len() && s[i + 1] == '=';
    if c == '<' {
        if next_eq {
            Some((Operator::LessOrEqual, i + 2))
        } else {
            Some((Operator::Less, i + 1))
        }
    } else if c == '>' {
        if next_eq {
            Some((Operator::GreaterOrEqual, i + 2))
        } else {
            Some((Operator::Greater, i + 1))
        }
    } else if c == '=' {
        Some((Operator::Equal, i + 1))
    } else if c == '~' {
        Some((Operator::Approximate, i + 1))
    } else {
        None
    }
}

/// Where the package part lies, found by the executable matcher.
struct PkgSpan {
    op: Option<Operator>,
    start: usize,
    slash: usize,
    pkg_end: usize,
    version: Option<(Version, usize, usize)>,
    end: usize,
}

impl PkgSpan {
    spec fn pos(&self) -> PkgPos {
        PkgPos {
            op: self.op,
            start: self.start as int,
            slash: self.slash as int,
            pkg_end: self.pkg_end as int,
            version: match self.version {
                Some((_, a, e)) => Some((a as int, e as int)),
                None => None,
            },
            end: self.end as int,
        }
    }
}

fn match_pkg(s: &Vec<char>, i: usize) -> (r: Option<PkgSpan>)
    requires
        i <= s@.len(),
    ensures
        match r {
            Some(sp) => pkg_at(s@, i as int) == Some(sp.pos()) && sp.end <= s@.len() && sp.start
                < sp.slash < sp.pkg_end <= sp.end && (match sp.version {
                Some((v, a, e)) => a == sp.pkg_end + 1 && a < e <= sp.end && version_view_at(
                    s@,
                    a as int,
                ) == Some(v@),
                None => sp.end == sp.pkg_end,
            }),
            None => pkg_at(s@, i as int) is None,
        },
{
    proof {
        lemma_name_end(s@, i as int, CharClass::NameStart, CharClass::CategoryChar);
    }
    if let Some(c) = match_name(s, i, CharClass::NameStart, CharClass::CategoryChar) {
        if c < s.len() && s[c] == '/' {
            if let Some(p) = match_package(s, c + 1) {
                return Some(PkgSpan { op: None, start: i, slash: c, pkg_end: p, version: None, end: p });
            }
        }
    }
    let (op, o) = match match_op(s, i) {
        None => return None,
        Some(x) => x,
    };
    proof {
        lemma_name_end(s@, o as int, CharClass::NameStart, CharClass::CategoryChar);
    }
    let c = match match_name(s, o, CharClass::NameStart, CharClass::CategoryChar) {
        None => return None,
        Some(c) => c,
    };
    if !(c < s.len() && s[c] == '/') {
        return None;
    }
    let p = match match_package(s, c + 1) {
        None => return None,
        Some(p) => p,
    };
    if !(p < s.len() && s[p] == '-') {
        return None;
    }
    proof {
        lemma_version_end_bounds(s@, p + 1);
    }
    let (v, ve) = match parse_version_at(s, p + 1) {
        None => return None,
        Some(x) => x,
    };
    let vb = p + 1 + v.base_len;
    assert(version_base_end(s@, p + 1) == Some(vb as int));
    if op == Operator::Approximate && vb != ve {
        return None;
    }
    if op == Operator::Equal && ve < s.len() && s[ve] == '*' {
        Some(
            PkgSpan {
                op: Some(Operator::EqualGlob),
                start: o,
                slash: c,
                pkg_end: p,
                version: Some((v, p + 1, ve)),
                end: ve + 1,
            },
        )
    } else {
        Some(PkgSpan { op: Some(op), start: o, slash: c, pkg_end: p, version: Some((v, p + 1, ve)), end: ve })
    }
}

/// Where the slot part lies, found by the executable matcher.
struct SlotSpan {
    slot: Option<(usize, usize)>,
    subslot: Option<(usize, usize)>,
    op: Option<SlotOperator>,
    end: usize,
}

spec fn span_pos(o: Option<(usize, usize)>) -> Option<(int, int)> {
    match o {
        Some((a, e)) => Some((a as int, e as int)),
        None => None,
    }
}

spec fn span_ok(o: Option<(usize, usize)>, n: nat) -> bool {
    o matches Some((a, e)) ==> a <= e <= n
}

impl SlotSpan {
    spec fn pos(&self) -> SlotPos {
        SlotPos {
            slot: span_pos(self.slot),
            subslot: span_pos(self.subslot),
            op: self.op,
            end: self.end as int,
        }
    }
}

fn match_slot(s: &Vec<char>, q: usize) -> (r: Option<SlotSpan>)
    requires
        q <= s@.len(),
    ensures
        match r {
            Some(sp) => slot_at(s@, q as int) == Some(sp.pos()) && q < sp.end <= s@.len() && span_ok(
                sp.slot,
                s@.len(),
            ) && span_ok(sp.subslot, s@.len()),
            None => slot_at(s@, q as int) is None,
        },
{
    if !(q < s.len() && s[q] == ':') {
        return None;
    }
    if q + 1 < s.len() && s[q + 1] == '=' {
        return Some(SlotSpan { slot: None, subslot: None, op: Some(SlotOperator::Equal), end: q + 2 });
    }
    if q + 1 < s.len() && s[q + 1] == '*' {
        return Some(SlotSpan { slot: None, subslot: None, op: Some(SlotOperator::Star), end: q + 2 });
    }
    let e1 = match match_name(s, q + 1, CharClass::NameStart, CharClass::CategoryChar) {
        None => return None,
        Some(e) => e,
    };
    let sub = if e1 < s.len() && s[e1] == '/' {
        match match_name(s, e1 + 1, CharClass::NameStart, CharClass::CategoryChar) {
            Some(e) => Some((e1 + 1, e)),
            None => None,
        }
    } else {
        None
    };
    let e2 = match sub {
        Some((_, e)) => e,
        None => e1,
    };
    if e2 < s.len() && s[e2] == '=' {
        Some(SlotSpan { slot: Some((q + 1, e1)), subslot: sub, op: Some(SlotOperator::Equal), end: e2 + 1 })
    } else {
        Some(SlotSpan { slot: Some((q + 1, e1)), subslot: sub, op: None, end: e2 })
    }
}

fn match_repo_part(s: &Vec<char>, q: usize, repo_ids: bool) -> (r: Option<(usize, usize)>)
    requires
        q <= s@.len(),
    ensures
        span_pos(r) == repo_at(s@, q as int, repo_ids),
        r matches Some((a, e)) ==> q < a < e <= s@.len(),
{
    if repo_ids && q < s.len() && s.len() - q > 1 && s[q] == ':' && s[q + 1] == ':' {
        match match_repo(s, q + 2) {
            Some(e) => Some((q + 2, e)),
            None => None,
        }
    } else {
        None
    }
}

/// A USE dependency.
#[derive(Debug)]
pub struct UseDep {
    pub kind: UseDepKind,
    pub flag: String,
    pub default: Option<UseDepDefault>,
}

impl View for UseDep {
    type V = UseDepView;

    open spec fn view(&self) -> UseDepView {
        UseDepView { kind: self.kind, flag: self.flag@, default: self.default }
    }
}

fn match_default(s: &Vec<char>, e: usize) -> (r: (Option<UseDepDefault>, usize))
    requires
        e <= s@.len(),
    ensures
        default_at(s@, e as int) == (r.0, r.1 as int),
        e <= r.1 <= s@.len(),
{
    if e < s.len() && s.len() - e > 2 && s[e] == '(' && s[e + 2] == ')' && (s[e + 1] == '+' || s[e + 1] == '-') {
        let d = if s[e + 1] == '+' {
            UseDepDefault::Enabled
        } else {
            UseDepDefault::Disabled
        };
        (Some(d), e + 3)
    } else {
        (None, e)
    }
}

fn match_use_dep(s: &Vec<char>, u: usize) -> (r: Option<(UseDep, usize)>)
    requires
        u <= s@.len(),
    ensures
        match r {
            Some((d, e)) => use_dep_at(s@, u as int) == Some((d@, e as int)) && u < e <= s@.len(),
            None => use_dep_at(s@, u as int) is None,
        },
{
    if u < s.len() && (s[u] == '-' || s[u] == '!') {
        let bang = s[u] == '!';
        let e = match match_name(s, u + 1, CharClass::Alnum, CharClass::UseFlagChar) {
            None => return None,
            Some(e) => e,
        };
        let flag = string_from(s, u + 1, e);
        let (d, e2) = match_default(s, e);
        if !bang {
            return Some((UseDep { kind: UseDepKind::Disabled, flag, default: d }, e2));
        }
        if e2 < s.len() && s[e2] == '=' {
            Some((UseDep { kind: UseDepKind::NotEqual, flag, default: d }, e2 + 1))
        } else if e2 < s.len() && s[e2] == '?' {
            Some((UseDep { kind: UseDepKind::DisabledConditional, flag, default: d }, e2 + 1))
        } else {
            None
        }
    } else {
        let e = match match_name(s, u, CharClass::Alnum, CharClass::UseFlagChar) {
            None => return None,
            Some(e) => e,
        };
        let flag = string_from(s, u, e);
        let (d, e2) = match_default(s, e);
        if e2 < s.len() && s[e2] == '=' {
            Some((UseDep { kind: UseDepKind::Equal, flag, default: d }, e2 + 1))
        } else if e2 < s.len() && s[e2] == '?' {
            Some((UseDep { kind: UseDepKind::EnabledConditional, flag, default: d }, e2 + 1))
        } else {
            Some((UseDep { kind: UseDepKind::Enabled, flag, default: d }, e2))
        }
    }
}

/// What follows a USE dependency ending at `e`: further dependencies after a
/// comma, and where the list ends.
pub open spec fn list_after(s: Seq<char>, e: int) -> (Seq<UseDepView>, int) {
    if 0 <= e < s.len() && s[e] == ',' && use_list(s, e + 1) is Some {
        use_list(s, e + 1).unwrap()
    } else {
        (Seq::empty(), e)
    }
}

spec fn use_views(v: Seq<UseDep>) -> Seq<UseDepView> {
    v.map_values(|d: UseDep| d@)
}

fn match_use_list(s: &Vec<char>, u: usize) -> (r: Option<(Vec<UseDep>, usize)>)
    requires
        u <= s@.len(),
    ensures
        match r {
            Some((v, e)) => use_list(s@, u as int) == Some((use_views(v@), e as int)) && u < e
                <= s@.len(),
            None => use_list(s@, u as int) is None,
        },
{
    let (d0, e0) = match match_use_dep(s, u) {
        None => return None,
        Some(x) => x,
    };
    let mut out: Vec<UseDep> = Vec::new();
    out.push(d0);
    let mut end = e0;
    proof {
        assert(use_views(out@) =~= seq![out@[0]@]);
    }
    loop
        invariant
            u < end <= s@.len(),
            use_list(s@, u as int) == Some(
                (use_views(out@) + list_after(s@, end as int).0, list_after(s@, end as int).1),
            ),
        ensures
            u < end <= s@.len(),
            use_list(s@, u as int) == Some((use_views(out@), end as int)),
        decreases s@.len() - end,
    {
        if !(end < s.len() && s[end] == ',') {
            proof {
                assert(use_views(out@) + Seq::<UseDepView>::empty() =~= use_views(out@));
            }
            break;
        }
        match match_use_dep(s, end + 1) {
            None => {
                proof {
                    assert(use_list(s@, end + 1) is None);
                    assert(use_views(out@) + Seq::<UseDepView>::empty() =~= use_views(out@));
                }
                break;
            },
            Some((d, e)) => {
                let ghost before = use_views(out@);
                proof {
                    lemma_use_list(s@, end + 1);
                    assert(use_list(s@, end + 1) == Some(
                        (seq![d@] + list_after(s@, e as int).0, list_after(s@, e as int).1),
                    ));
                }
                out.push(d);
                proof {
                    assert(use_views(out@) =~= before.push(d@));
                    assert(before + (seq![d@] + list_after(s@, e as int).0) =~= use_views(out@)
                        + list_after(s@, e as int).0);
                }
                end = e;
            },
        }
    }
    Some((out, end))
}

fn match_use_deps(s: &Vec<char>, q: usize) -> (r: Option<(Vec<UseDep>, usize)>)
    requires
        q <= s@.len(),
    ensures
        match r {
            Some((v, e)) => use_deps_at(s@, q as int) == Some((use_views(v@), e as int)) && q < e
                <= s@.len(),
            None => use_deps_at(s@, q as int) is None,
        },
{
    if !(q < s.len() && s[q] == '[') {
        return None;
    }
    match match_use_list(s, q + 1) {
        None => None,
        Some((v, e)) => if e < s.len() && s[e] == ']' {
            Some((v, e + 1))
        } else {
            None
        },
    }
}

/// A package dependency.
#[derive(Debug)]
pub struct Dep {
    pub blocker: Option<Blocker>,
    pub op: Option<Operator>,
    pub category: String,
    pub package: String,
    pub version: Option<Version>,
    pub slot: Option<String>,
    pub subslot: Option<String>,
    pub slot_op: Option<SlotOperator>,
    pub repo: Option<String>,
    pub use_deps: Option<Vec<UseDep>>,
}

/// The value of an optional string.
pub open spec fn opt_view(o: Option<String>) -> Option<Seq<char>> {
    match o {
        Some(x) => Some(x@),
        None => None,
    }
}

impl View for Dep {
    type V = DepView;

    open spec fn view(&self) -> DepView {
        DepView {
            blocker: self.blocker,
            op: self.op,
            category: self.category@,
            package: self.package@,
            version: match &self.version {
                Some(v) => Some(v@),
                None => None,
            },
            slot: opt_view(self.slot),
            subslot: opt_view(self.subslot),
            slot_op: self.slot_op,
            repo: opt_view(self.repo),
            use_deps: match &self.use_deps {
                Some(v) => Some(v@.map_values(|d: UseDep| d@)),
                None => None,
            },
        }
    }
}

fn sub_string(s: &Vec<char>, o: Option<(usize, usize)>) -> (r: Option<String>)
    requires
        span_ok(o, s@.len()),
    ensures
        opt_view(r) == match span_pos(o) {
            Some((a, e)) => Some(s@.subrange(a, e)),
            None => None,
        },
{
    match o {
        Some((a, e)) => Some(string_from(s, a, e)),
        None => None,
    }
}

impl Dep {
    /// Parse a dependency; `repo_ids` tells whether the EAPI allows `::repo`.
    pub fn parse(s: &str, repo_ids: bool) -> (r: Result<Dep, ParseError>)
        ensures
            match r {
                Ok(d) => dep_parse(s@, repo_ids) == Some(d@) && dep_wf(d@),
                Err(e) => e is Dep && dep_parse(s@, repo_ids) is None,
            },
    {
        reveal(dep_assemble);
        let cs = chars_of(s);
        let n = cs.len();
        let (blocker, b) = if n >= 2 && cs[0] == '!' && cs[1] == '!' {
            (Some(Blocker::Strong), 2)
        } else if n >= 1 && cs[0] == '!' {
            (Some(Blocker::Weak), 1)
        } else {
            (None, 0)
        };
        let pp = match match_pkg(&cs, b) {
            None => return Err(ParseError::Dep),
            Some(pp) => pp,
        };
        let slot = match_slot(&cs, pp.end);
        let q1 = match &slot {
            Some(sp) => sp.end,
            None => pp.end,
        };
        let repo = match_repo_part(&cs, q1, repo_ids);
        let q2 = match repo {
            Some((_, e)) => e,
            None => q1,
        };
        let uses = match_use_deps(&cs, q2);
        let q3 = match &uses {
            Some((_, e)) => *e,
            None => q2,
        };
        if q3 != n {
            return Err(ParseError::Dep);
        }
        let category = string_from(&cs, pp.start, pp.slash);
        let package = string_from(&cs, pp.slash + 1, pp.pkg_end);
        let version = match pp.version {
            Some((v, _, _)) => Some(v),
            None => None,
        };
        let (slot_name, subslot, slot_op) = match slot {
            Some(sp) => (sub_string(&cs, sp.slot), sub_string(&cs, sp.subslot), sp.op),
            None => (None, None, None),
        };
        let repo = sub_string(&cs, repo);
        let use_deps = match uses {
            Some((v, _)) => Some(v),
            None => None,
        };
        proof {
            lemma_dep_parse_wf(s@, repo_ids);
        }
        Ok(
            Dep {
                blocker,
                op: pp.op,
                category,
                package,
                version,
                slot: slot_name,
                subslot,
                slot_op,
                repo,
                use_deps,
            },
        )
    }
}

// ---------------------------------------------------------------------------
// display

pub open spec fn blocker_str(b: Option<Blocker>) -> Seq<char> {
    match b {
        None => Seq::empty(),
        Some(Blocker::Weak) => seq!['!'],
        Some(Blocker::Strong) => seq!['!', '!'],
    }
}

pub open spec fn op_str(op: Option<Operator>) -> Seq<char> {
    match op {
        None => Seq::empty(),
        Some(Operator::Less) => seq!['<'],
        Some(Operator::LessOrEqual) => seq!['<', '='],
        Some(Operator::Equal) => seq!['='],
        Some(Operator::EqualGlob) => seq!['='],
        Some(Operator::Approximate) => seq!['~'],
        Some(Operator::GreaterOrEqual) => seq!['>', '='],
        Some(Operator::Greater) => seq!['>'],
    }
}

pub open spec fn default_str(d: Option<UseDepDefault>) -> Seq<char> {
    match d {
        None => Seq::empty(),
        Some(UseDepDefault::Enabled) => seq!['(', '+', ')'],
        Some(UseDepDefault::Disabled) => seq!['(', '-', ')'],
    }
}

pub open spec fn use_dep_str(u: UseDepView) -> Seq<char> {
    let d = default_str(u.default);
    match u.kind {
        UseDepKind::Enabled => u.flag + d,
        UseDepKind::Disabled => seq!['-'] + u.flag + d,
        UseDepKind::Equal => u.flag + d + seq!['='],
        UseDepKind::NotEqual => seq!['!'] + u.flag + d + seq!['='],
        UseDepKind::EnabledConditional => u.flag + d + seq!['?'],
        UseDepKind::DisabledConditional => seq!['!'] + u.flag + d + seq!['?'],
    }
}

/// USE dependencies joined by commas.
pub open spec fn use_join(v: Seq<UseDepView>) -> Seq<char>
    decreases v.len(),
{
    if v.len() == 0 {
        Seq::empty()
    } else if v.len() == 1 {
        use_dep_str(v[0])
    } else {
        use_dep_str(v[0]) + seq![','] + use_join(v.drop_first())
    }
}

pub open spec fn opt_seq(o: Option<Seq<char>>) -> Seq<char> {
    match o {
        Some(x) => x,
        None => Seq::empty(),
    }
}

pub open spec fn slot_str(slot: Option<Seq<char>>, subslot: Option<Seq<char>>, op: Option<SlotOperator>) -> Seq<
    char,
> {
    if slot is None && op is None {
        Seq::empty()
    } else {
        seq![':'] + opt_seq(slot) + (match subslot {
            Some(x) => seq!['/'] + x,
            None => Seq::empty(),
        }) + (match op {
            Some(SlotOperator::Equal) => seq!['='],
            Some(SlotOperator::Star) => seq!['*'],
            None => Seq::empty(),
        })
    }
}

/// The text of the package part: operator, `category/package`, version and glob.
pub open spec fn pkg_text(
    op: Option<Operator>,
    category: Seq<char>,
    package: Seq<char>,
    version: Option<VersionView>,
) -> Seq<char> {
    op_str(op) + category + seq!['/'] + package + (match version {
        Some(v) => seq!['-'] + v.text,
        None => Seq::empty(),
    }) + (if op == Some(Operator::EqualGlob) {
        seq!['*']
    } else {
        Seq::empty()
    })
}

pub open spec fn repo_part_str(r: Option<Seq<char>>) -> Seq<char> {
    match r {
        Some(r) => seq![':', ':'] + r,
        None => Seq::empty(),
    }
}

pub open spec fn use_part_str(u: Option<Seq<UseDepView>>) -> Seq<char> {
    match u {
        Some(v) => seq!['['] + use_join(v) + seq![']'],
        None => Seq::empty(),
    }
}

/// The text of a dependency.
pub open spec fn dep_string(d: DepView) -> Seq<char> {
    blocker_str(d.blocker) + pkg_text(d.op, d.category, d.package, d.version) + slot_str(
        d.slot,
        d.subslot,
        d.slot_op,
    ) + repo_part_str(d.repo) + use_part_str(d.use_deps)
}

proof fn lemma_default_str(s: Seq<char>, e: int)
    requires
        0 <= e <= s.len(),
    ensures
        e <= default_at(s, e).1 <= s.len(),
        default_str(default_at(s, e).0) == s.subrange(e, default_at(s, e).1),
{
    if 0 <= e && e + 2 < s.len() && s[e] == '(' && s[e + 2] == ')' && (s[e + 1] == '+' || s[e + 1]
        == '-') {
        assert(default_str(default_at(s, e).0) =~= s.subrange(e, e + 3));
    } else {
        assert(s.subrange(e, e) =~= Seq::<char>::empty());
    }
}

proof fn lemma_use_dep_str(s: Seq<char>, u: int)
    requires
        0 <= u <= s.len(),
        use_dep_at(s, u) is Some,
    ensures
        use_dep_str(use_dep_at(s, u).unwrap().0) == s.subrange(u, use_dep_at(s, u).unwrap().1),
{
    lemma_name_end(s, u, CharClass::Alnum, CharClass::UseFlagChar);
    lemma_name_end(s, u + 1, CharClass::Alnum, CharClass::UseFlagChar);
    let (d, e2) = use_dep_at(s, u).unwrap();
    if s[u] == '-' || s[u] == '!' {
        let e = use_flag_end(s, u + 1).unwrap();
        lemma_default_str(s, e);
        let de = default_at(s, e).1;
        if s[u] == '-' {
            assert(use_dep_str(d) =~= s.subrange(u, e2));
        } else {
            assert(use_dep_str(d) =~= s.subrange(u, e2));
        }
    } else {
        let e = use_flag_end(s, u).unwrap();
        lemma_default_str(s, e);
        assert(use_dep_str(d) =~= s.subrange(u, e2));
    }
}

proof fn lemma_use_list_str(s: Seq<char>, u: int)
    requires
        0 <= u <= s.len(),
        use_list(s, u) is Some,
    ensures
        use_join(use_list(s, u).unwrap().0) == s.subrange(u, use_list(s, u).unwrap().1),
    decreases s.len() - u,
{
    lemma_use_dep_at(s, u);
    lemma_use_dep_str(s, u);
    let (d, e) = use_dep_at(s, u).unwrap();
    if e < s.len() && s[e] == ',' && use_list(s, e + 1) is Some {
        lemma_use_list_str(s, e + 1);
        lemma_use_list(s, e + 1);
        let (rest, e2) = use_list(s, e + 1).unwrap();
        let v = seq![d] + rest;
        assert(v.drop_first() =~= rest);
        assert(use_join(v) == use_dep_str(d) + seq![','] + use_join(rest));
        assert(s.subrange(u, e2) =~= s.subrange(u, e) + seq![','] + s.subrange(e + 1, e2));
    }
}

proof fn lemma_slot_str(s: Seq<char>, q: int)
    requires
        0 <= q <= s.len(),
        slot_at(s, q) is Some,
    ensures
        ({
            let sp = slot_at(s, q).unwrap();
            &&& q < sp.end <= s.len()
            &&& slot_str(
                match sp.slot {
                    Some((a, e)) => Some(s.subrange(a, e)),
                    None => None,
                },
                match sp.subslot {
                    Some((a, e)) => Some(s.subrange(a, e)),
                    None => None,
                },
                sp.op,
            ) == s.subrange(q, sp.end)
        }),
{
    let sp = slot_at(s, q).unwrap();
    lemma_name_end(s, q + 1, CharClass::NameStart, CharClass::CategoryChar);
    if q + 1 < s.len() && (s[q + 1] == '=' || s[q + 1] == '*') {
        assert(slot_str(None, None, sp.op) =~= s.subrange(q, q + 2));
    } else {
        let e1 = slot_name_end(s, q + 1).unwrap();
        if e1 < s.len() {
            lemma_name_end(s, e1 + 1, CharClass::NameStart, CharClass::CategoryChar);
        }
        let slot = Some(s.subrange(q + 1, e1));
        let sub = match sp.subslot {
            Some((a, e)) => Some(s.subrange(a, e)),
            None => None,
        };
        assert(slot_str(slot, sub, sp.op) =~= s.subrange(q, sp.end));
    }
}

proof fn lemma_cpn_str(s: Seq<char>, b: int, c: int, p: int)
    requires
        0 <= b < c < s.len(),
        s[c] == '/',
        name_end(s, b, CharClass::NameStart, CharClass::CategoryChar) == Some(c),
        package_end(s, c + 1) == Some(p),
    ensures
        c + 1 < p <= s.len(),
        pkg_text(None, s.subrange(b, c), s.subrange(c + 1, p), None) == s.subrange(b, p),
{
    crate::names::lemma_package_rest_end(s, c + 2);
    assert(pkg_text(None, s.subrange(b, c), s.subrange(c + 1, p), None) =~= s.subrange(b, p));
}

proof fn lemma_cpv_str(s: Seq<char>, b: int, op: Operator, o: int)
    requires
        0 <= b <= s.len(),
        op_at(s, b) == Some((op, o)),
        cpv_at(s, o) is Some,
        pkg_at(s, b) is Some,
        pkg_at(s, b).unwrap().version is Some,
    ensures
        ({
            let pp = pkg_at(s, b).unwrap();
            &&& b <= pp.start < pp.slash < pp.pkg_end <= pp.end <= s.len()
            &&& pkg_text(
                pp.op,
                s.subrange(pp.start, pp.slash),
                s.subrange(pp.slash + 1, pp.pkg_end),
                version_view_at(s, pp.pkg_end + 1),
            ) == s.subrange(b, pp.end)
        }),
{
    let pp = pkg_at(s, b).unwrap();
    lemma_name_end(s, o, CharClass::NameStart, CharClass::CategoryChar);
    let (c, p, vb, ve) = cpv_at(s, o).unwrap();
    crate::names::lemma_package_rest_end(s, c + 2);
    lemma_version_end_bounds(s, p + 1);
    crate::version::lemma_digits_end(s, p + 1);
    let v = version_view_at(s, p + 1).unwrap();
    assert(v.text == s.subrange(p + 1, ve));
    assert(op_str(pp.op) =~= s.subrange(b, o));
    let glob = if pp.op == Some(Operator::EqualGlob) {
        seq!['*']
    } else {
        Seq::<char>::empty()
    };
    assert(glob =~= s.subrange(ve, pp.end));
    assert(pkg_text(pp.op, s.subrange(pp.start, pp.slash), s.subrange(pp.slash + 1, pp.pkg_end), Some(v))
        =~= s.subrange(b, pp.end));
}

proof fn lemma_pkg_str(s: Seq<char>, b: int)
    requires
        0 <= b <= s.len(),
        pkg_at(s, b) is Some,
    ensures
        ({
            let pp = pkg_at(s, b).unwrap();
            let version = match pp.version {
                Some((a, _)) => version_view_at(s, a),
                None => None,
            };
            &&& b <= pp.start < pp.slash < pp.pkg_end <= pp.end <= s.len()
            &&& pkg_text(
                pp.op,
                s.subrange(pp.start, pp.slash),
                s.subrange(pp.slash + 1, pp.pkg_end),
                version,
            ) == s.subrange(b, pp.end)
        }),
{
    lemma_name_end(s, b, CharClass::NameStart, CharClass::CategoryChar);
    let cpn_hit = match name_end(s, b, CharClass::NameStart, CharClass::CategoryChar) {
        Some(c) => c < s.len() && s[c] == '/' && package_end(s, c + 1) is Some,
        None => false,
    };
    if cpn_hit {
        let c = name_end(s, b, CharClass::NameStart, CharClass::CategoryChar).unwrap();
        lemma_cpn_str(s, b, c, package_end(s, c + 1).unwrap());
    } else {
        let (op, o) = op_at(s, b).unwrap();
        lemma_cpv_str(s, b, op, o);
    }
}

proof fn lemma_tail_str(s: Seq<char>, q1: int, repo_ids: bool)
    requires
        0 <= q1 <= s.len(),
        ({
            let q2 = match repo_at(s, q1, repo_ids) {
                Some((_, e)) => e,
                None => q1,
            };
            let q3 = match use_deps_at(s, q2) {
                Some((_, e)) => e,
                None => q2,
            };
            q3 == s.len()
        }),
    ensures
        repo_part_str(
            match repo_at(s, q1, repo_ids) {
                Some((a, e)) => Some(s.subrange(a, e)),
                None => None,
            },
        ) + use_part_str(
            match use_deps_at(
                s,
                match repo_at(s, q1, repo_ids) {
                    Some((_, e)) => e,
                    None => q1,
                },
            ) {
                Some((v, _)) => Some(v),
                None => None,
            },
        ) == s.subrange(q1, s.len() as int),
{
    let repo = repo_at(s, q1, repo_ids);
    let q2 = match repo {
        Some((_, e)) => e,
        None => q1,
    };
    let rv = match repo {
        Some((a, e)) => Some(s.subrange(a, e)),
        None => None,
    };
    if repo is Some {
        crate::names::lemma_repo_rest_end(s, q1 + 3);
    }
    assert(repo_part_str(rv) =~= s.subrange(q1, q2));
    let uses = use_deps_at(s, q2);
    let uv = match uses {
        Some((v, _)) => Some(v),
        None => None,
    };
    if uses is Some {
        lemma_use_list_str(s, q2 + 1);
        lemma_use_list(s, q2 + 1);
    }
    assert(use_part_str(uv) =~= s.subrange(q2, s.len() as int));
    assert(s.subrange(q1, q2) + s.subrange(q2, s.len() as int) =~= s.subrange(q1, s.len() as int));
}

#[verifier::rlimit(40)]
proof fn lemma_assemble_str(
    s: Seq<char>,
    blocker: Option<Blocker>,
    b: int,
    pp: PkgPos,
    slot: Option<SlotPos>,
    q1: int,
    repo: Option<(int, int)>,
    uses: Option<(Seq<UseDepView>, int)>,
)
    requires
        0 <= b <= pp.end <= q1 <= s.len(),
        blocker_str(blocker) == s.subrange(0, b),
        pkg_text(
            pp.op,
            s.subrange(pp.start, pp.slash),
            s.subrange(pp.slash + 1, pp.pkg_end),
            match pp.version {
                Some((a, _)) => version_view_at(s, a),
                None => None,
            },
        ) == s.subrange(b, pp.end),
        slot_str(
            match slot {
                Some(sp) => match sp.slot {
                    Some((a, e)) => Some(s.subrange(a, e)),
                    None => None,
                },
                None => None,
            },
            match slot {
                Some(sp) => match sp.subslot {
                    Some((a, e)) => Some(s.subrange(a, e)),
                    None => None,
                },
                None => None,
            },
            match slot {
                Some(sp) => sp.op,
                None => None,
            },
        ) == s.subrange(pp.end, q1),
        repo_part_str(
            match repo {
                Some((a, e)) => Some(s.subrange(a, e)),
                None => None,
            },
        ) + use_part_str(
            match uses {
                Some((v, _)) => Some(v),
                None => None,
            },
        ) == s.subrange(q1, s.len() as int),
    ensures
        dep_string(dep_assemble(s, blocker, pp, slot, repo, uses)) == s,
{
    reveal(dep_assemble);
    let d = dep_assemble(s, blocker, pp, slot, repo, uses);
    let a1 = blocker_str(d.blocker);
    let a2 = pkg_text(d.op, d.category, d.package, d.version);
    let a3 = slot_str(d.slot, d.subslot, d.slot_op);
    let a4 = repo_part_str(d.repo);
    let a5 = use_part_str(d.use_deps);
    assert(a1 == s.subrange(0, b));
    assert(a2 == s.subrange(b, pp.end));
    assert(a3 == s.subrange(pp.end, q1));
    assert(a4 + a5 == s.subrange(q1, s.len() as int));
    assert(dep_string(d) == a1 + a2 + a3 + a4 + a5);
    assert(a1 + a2 + a3 + a4 + a5 =~= a1 + a2 + a3 + (a4 + a5));
    assert(s.subrange(0, b) + s.subrange(b, pp.end) + s.subrange(pp.end, q1) + s.subrange(
        q1,
        s.len() as int,
    ) =~= s);
}

/// Printing a parsed dependency gives back the text it was parsed from.
pub proof fn lemma_dep_roundtrip(s: Seq<char>, repo_ids: bool)
    requires
        dep_parse(s, repo_ids) is Some,
    ensures
        dep_string(dep_parse(s, repo_ids).unwrap()) == s,
{
    let (blocker, b) = blocker_at(s);
    assert(blocker_str(blocker) =~= s.subrange(0, b));
    lemma_pkg_str(s, b);
    let pp = pkg_at(s, b).unwrap();
    let slot = slot_at(s, pp.end);
    let q1 = match slot {
        Some(sp) => sp.end,
        None => pp.end,
    };
    if slot is Some {
        lemma_slot_str(s, pp.end);
    } else {
        assert(slot_str(None, None, None) =~= s.subrange(pp.end, q1));
    }
    lemma_tail_str(s, q1, repo_ids);
    let repo = repo_at(s, q1, repo_ids);
    let q2 = match repo {
        Some((_, e)) => e,
        None => q1,
    };
    lemma_assemble_str(s, blocker, b, pp, slot, q1, repo, use_deps_at(s, q2));
}

/// What every parsed dependency satisfies: its version is well formed.
pub open spec fn dep_wf(d: DepView) -> bool {
    match d.version {
        Some(v) => crate::version::version_wf(v),
        None => true,
    }
}

/// Every parsed dependency is well formed.
pub proof fn lemma_dep_parse_wf(s: Seq<char>, repo_ids: bool)
    requires
        dep_parse(s, repo_ids) is Some,
    ensures
        dep_wf(dep_parse(s, repo_ids).unwrap()),
{
    reveal(dep_assemble);
    let (blocker, b) = blocker_at(s);
    let pp = pkg_at(s, b).unwrap();
    if let Some((a, _)) = pp.version {
        let (op, o) = op_at(s, b).unwrap();
        lemma_name_end(s, o, CharClass::NameStart, CharClass::CategoryChar);
        let (c, p, vb, ve) = cpv_at(s, o).unwrap();
        crate::names::lemma_package_rest_end(s, c + 2);
        crate::version::lemma_version_view_wf(s, p + 1);
    }
}

fn push_opt(out: &mut String, o: &Option<String>)
    ensures
        final(out)@ == old(out)@ + opt_seq(opt_view(*o)),
{
    match o {
        Some(x) => out.append(x.as_str()),
        None => {
            assert(old(out)@ + Seq::<char>::empty() =~= old(out)@);
        },
    }
}

fn push_default(out: &mut String, d: Option<UseDepDefault>)
    ensures
        final(out)@ == old(out)@ + default_str(d),
{
    match d {
        None => {
            assert(old(out)@ + Seq::<char>::empty() =~= old(out)@);
        },
        Some(UseDepDefault::Enabled) => {
            out.append("(+)");
            proof {
                reveal_strlit("(+)");
                assert("(+)"@ =~= seq!['(', '+', ')']);
            }
        },
        Some(UseDepDefault::Disabled) => {
            out.append("(-)");
            proof {
                reveal_strlit("(-)");
                assert("(-)"@ =~= seq!['(', '-', ')']);
            }
        },
    }
}

fn push_use_dep(out: &mut String, u: &UseDep)
    ensures
        final(out)@ == old(out)@ + use_dep_str(u@),
{
    let ghost start = out@;
    proof {
        reveal_strlit("-");
        reveal_strlit("!");
        reveal_strlit("=");
        reveal_strlit("?");
        assert("-"@ =~= seq!['-']);
        assert("!"@ =~= seq!['!']);
        assert("="@ =~= seq!['=']);
        assert("?"@ =~= seq!['?']);
    }
    match u.kind {
        UseDepKind::Disabled => out.append("-"),
        UseDepKind::NotEqual | UseDepKind::DisabledConditional => out.append("!"),
        _ => {},
    }
    out.append(u.flag.as_str());
    push_default(out, u.default);
    match u.kind {
        UseDepKind::Equal | UseDepKind::NotEqual => out.append("="),
        UseDepKind::EnabledConditional | UseDepKind::DisabledConditional => out.append("?"),
        _ => {},
    }
    assert(out@ =~= start + use_dep_str(u@));
}

fn push_use_deps(out: &mut String, v: &Vec<UseDep>)
    ensures
        final(out)@ == old(out)@ + use_join(use_views(v@)),
{
    let ghost start = out@;
    let ghost all = use_views(v@);
    let mut i: usize = 0;
    proof {
        reveal_strlit(",");
        assert(","@ =~= seq![',']);
        assert(all.skip(0) =~= all);
    }
    while i < v.len()
        invariant
            i <= v@.len(),
            all == use_views(v@),
            out@ + use_join(all.skip(i as int)) == start + use_join(all),
        decreases v@.len() - i,
    {
        let ghost tail = all.skip(i as int);
        assert(tail[0] == v@[i as int]@);
        assert(tail.drop_first() =~= all.skip(i + 1));
        let ghost before = out@;
        push_use_dep(out, &v[i]);
        let ghost mid = out@;
        assert(mid == before + use_dep_str(tail[0]));
        if i + 1 < v.len() {
            out.append(",");
            proof {
                reveal_strlit(",");
                assert(","@ =~= seq![',']);
            }
            assert(out@ == mid + seq![',']);
            assert(tail.len() >= 2);
            assert(use_join(tail) == use_dep_str(tail[0]) + seq![','] + use_join(tail.drop_first()));
            assert(out@ + use_join(all.skip(i + 1)) =~= before + use_join(tail));
        } else {
            assert(all.skip(i + 1).len() == 0);
            assert(use_join(tail) == use_dep_str(tail[0]));
            assert(out@ + use_join(all.skip(i + 1)) =~= before + use_join(tail));
        }
        i = i + 1;
    }
    assert(all.skip(0) =~= all);
    assert(out@ + use_join(all.skip(i as int)) =~= out@);
}

fn push_blocker(out: &mut String, b: Option<Blocker>)
    ensures
        final(out)@ == old(out)@ + blocker_str(b),
{
    proof {
        reveal_strlit("!");
        reveal_strlit("!!");
        assert("!"@ =~= seq!['!']);
        assert("!!"@ =~= seq!['!', '!']);
    }
    match b {
        None => {
            assert(old(out)@ + Seq::<char>::empty() =~= old(out)@);
        },
        Some(Blocker::Weak) => out.append("!"),
        Some(Blocker::Strong) => out.append("!!"),
    }
}

fn push_op(out: &mut String, op: Option<Operator>)
    ensures
        final(out)@ == old(out)@ + op_str(op),
{
    proof {
        reveal_strlit("<");
        reveal_strlit("<=");
        reveal_strlit("=");
        reveal_strlit("~");
        reveal_strlit(">=");
        reveal_strlit(">");
        assert("<"@ =~= seq!['<']);
        assert("<="@ =~= seq!['<', '=']);
        assert("="@ =~= seq!['=']);
        assert("~"@ =~= seq!['~']);
        assert(">="@ =~= seq!['>', '=']);
        assert(">"@ =~= seq!['>']);
    }
    match op {
        None => {
            assert(old(out)@ + Seq::<char>::empty() =~= old(out)@);
        },
        Some(Operator::Less) => out.append("<"),
        Some(Operator::LessOrEqual) => out.append("<="),
        Some(Operator::Equal) => out.append("="),
        Some(Operator::EqualGlob) => out.append("="),
        Some(Operator::Approximate) => out.append("~"),
        Some(Operator::GreaterOrEqual) => out.append(">="),
        Some(Operator::Greater) => out.append(">"),
    }
}

fn push_pkg_text(out: &mut String, d: &Dep)
    ensures
        final(out)@ == old(out)@ + blocker_str(d.blocker) + pkg_text(d.op, d.category@, d.package@, d@.version),
{
    proof {
        reveal_strlit("/");
        reveal_strlit("-");
        reveal_strlit("*");
        assert("/"@ =~= seq!['/']);
        assert("-"@ =~= seq!['-']);
        assert("*"@ =~= seq!['*']);
    }
    let ghost start = out@;
    push_blocker(out, d.blocker);
    let ghost b_text = out@;
    push_op(out, d.op);
    let ghost o_text = out@;
    assert(o_text =~= b_text + op_str(d.op));
    out.append(d.category.as_str());
    out.append("/");
    out.append(d.package.as_str());
    let ghost n_text = out@;
    assert(n_text =~= o_text + d.category@ + seq!['/'] + d.package@);
    match &d.version {
        Some(v) => {
            out.append("-");
            out.append(v.text.as_str());
        },
        None => {},
    }
    let ghost v_text = out@;
    assert(v_text =~= n_text + (match d@.version {
        Some(v) => seq!['-'] + v.text,
        None => Seq::empty(),
    }));
    match d.op {
        Some(Operator::EqualGlob) => out.append("*"),
        _ => {},
    }
    assert(out@ =~= v_text + (if d.op == Some(Operator::EqualGlob) {
        seq!['*']
    } else {
        Seq::empty()
    }));
    assert(out@ =~= start + blocker_str(d.blocker) + pkg_text(d.op, d.category@, d.package@, d@.version));
}

fn push_slot(out: &mut String, d: &Dep)
    ensures
        final(out)@ == old(out)@ + slot_str(d@.slot, d@.subslot, d@.slot_op),
{
    proof {
        reveal_strlit(":");
        reveal_strlit("/");
        reveal_strlit("=");
        reveal_strlit("*");
        assert(":"@ =~= seq![':']);
        assert("/"@ =~= seq!['/']);
        assert("="@ =~= seq!['=']);
        assert("*"@ =~= seq!['*']);
    }
    let ghost start = out@;
    if d.slot.is_some() || d.slot_op.is_some() {
        out.append(":");
        push_opt(out, &d.slot);
        let ghost a = out@;
        match &d.subslot {
            Some(x) => {
                out.append("/");
                out.append(x.as_str());
            },
            None => {},
        }
        let ghost b = out@;
        assert(b =~= a + (match d@.subslot {
            Some(x) => seq!['/'] + x,
            None => Seq::empty(),
        }));
        match d.slot_op {
            Some(SlotOperator::Equal) => out.append("="),
            Some(SlotOperator::Star) => out.append("*"),
            None => {},
        }
        assert(out@ =~= b + (match d.slot_op {
            Some(SlotOperator::Equal) => seq!['='],
            Some(SlotOperator::Star) => seq!['*'],
            None => Seq::empty(),
        }));
        assert(out@ =~= start + slot_str(d@.slot, d@.subslot, d@.slot_op));
    } else {
        assert(out@ =~= start + slot_str(d@.slot, d@.subslot, d@.slot_op));
    }
}

fn push_tail(out: &mut String, d: &Dep)
    ensures
        final(out)@ == old(out)@ + repo_part_str(d@.repo) + use_part_str(d@.use_deps),
{
    proof {
        reveal_strlit("::");
        reveal_strlit("[");
        reveal_strlit("]");
        assert("::"@ =~= seq![':', ':']);
        assert("["@ =~= seq!['[']);
        assert("]"@ =~= seq![']']);
    }
    let ghost start = out@;
    match &d.repo {
        Some(r) => {
            out.append("::");
            out.append(r.as_str());
        },
        None => {},
    }
    let ghost r_text = out@;
    assert(r_text =~= start + repo_part_str(d@.repo));
    match &d.use_deps {
        Some(v) => {
            out.append("[");
            push_use_deps(out, v);
            out.append("]");
        },
        None => {},
    }
    assert(out@ =~= r_text + use_part_str(d@.use_deps));
}

/// USE dependencies joined by commas.
pub fn use_deps_string(v: &Vec<UseDep>) -> (r: String)
    ensures
        r@ == use_join(v@.map_values(|d: UseDep| d@)),
{
    let mut out = String::new();
    push_use_deps(&mut out, v);
    assert(out@ =~= use_join(use_views(v@)));
    out
}

impl Dep {
    /// The dependency as text.
    pub fn to_string(&self) -> (r: String)
        ensures
            r@ == dep_string(self@),
    {
        let mut out = String::new();
        push_pkg_text(&mut out, self);
        push_slot(&mut out, self);
        push_tail(&mut out, self);
        assert(out@ =~= dep_string(self@));
        out
    }
}

impl UseDep {
    /// The USE dependency's text.
    pub fn to_string(&self) -> (r: String)
        ensures
            r@ == use_dep_str(self@),
    {
        let mut out = String::new();
        push_use_dep(&mut out, self);
        assert(out@ =~= use_dep_str(self@));
        out
    }

    /// Whether two USE dependencies are the same.
    pub fn same(&self, other: &UseDep) -> (r: bool)
        ensures
            r == (self@ == other@),
    {
        self.kind == other.kind && self.default == other.default && crate::shell::str_eq(
            self.flag.as_str(),
            other.flag.as_str(),
        )
    }
}

/// The values of an optional USE dependency list.
pub open spec fn use_deps_opt_view(u: &Option<Vec<UseDep>>) -> Option<Seq<UseDepView>> {
    match u {
        Some(v) => Some(v@.map_values(|d: UseDep| d@)),
        None => None,
    }
}

/// Whether two optional USE dependency lists are the same.
fn same_use_deps(a: &Option<Vec<UseDep>>, b: &Option<Vec<UseDep>>) -> (r: bool)
    ensures
        r == (use_deps_opt_view(a) == use_deps_opt_view(b)),
{
    match (a, b) {
        (Some(x), Some(y)) => {
            if x.len() != y.len() {
                assert(use_deps_opt_view(a)->Some_0.len() != use_deps_opt_view(b)->Some_0.len());
                return false;
            }
            let mut i: usize = 0;
            while i < x.len()
                invariant
                    i <= x@.len(),
                    x@.len() == y@.len(),
                    use_deps_opt_view(a) == Some(x@.map_values(|d: UseDep| d@)),
                    use_deps_opt_view(b) == Some(y@.map_values(|d: UseDep| d@)),
                    forall|k: int| 0 <= k < i ==> x@[k]@ == #[trigger] y@[k]@,
                decreases x@.len() - i,
            {
                if !x[i].same(&y[i]) {
                    assert(use_deps_opt_view(a)->Some_0[i as int] != use_deps_opt_view(b)->Some_0[i as int]);
                    return false;
                }
                i = i + 1;
            }
            assert(use_deps_opt_view(a)->Some_0 =~= use_deps_opt_view(b)->Some_0);
            true
        },
        (None, None) => true,
        _ => false,
    }
}

/// A copy of an optional string.
fn copy_opt(o: &Option<String>) -> (r: Option<String>)
    ensures
        opt_view(r) == opt_view(*o),
{
    match o {
        Some(s) => Some(s.clone()),
        None => None,
    }
}

impl Dep {
    /// A copy of this dependency.
    pub fn duplicate(&self) -> (r: Dep)
        ensures
            r@ == self@,
    {
        let version = match &self.version {
            Some(v) => Some(v.duplicate()),
            None => None,
        };
        let use_deps = match &self.use_deps {
            Some(v) => {
                let mut out: Vec<UseDep> = Vec::new();
                let mut i: usize = 0;
                while i < v.len()
                    invariant
                        i <= v@.len(),
                        out@.len() == i,
                        forall|k: int| 0 <= k < i ==> #[trigger] out@[k]@ == v@[k]@,
                    decreases v@.len() - i,
                {
                    out.push(UseDep { kind: v[i].kind, flag: v[i].flag.clone(), default: v[i].default });
                    i = i + 1;
                }
                assert(out@.map_values(|d: UseDep| d@) =~= v@.map_values(|d: UseDep| d@));
                Some(out)
            },
            None => None,
        };
        Dep {
            blocker: self.blocker,
            op: self.op,
            category: self.category.clone(),
            package: self.package.clone(),
            version,
            slot: copy_opt(&self.slot),
            subslot: copy_opt(&self.subslot),
            slot_op: self.slot_op,
            repo: copy_opt(&self.repo),
            use_deps,
        }
    }

    /// Whether two dependencies are the same in every part.
    pub fn same(&self, other: &Dep) -> (r: bool)
        ensures
            r == (self@ == other@),
    {
        if self.blocker != other.blocker || self.op != other.op || self.slot_op != other.slot_op {
            return false;
        }
        if !crate::shell::str_eq(self.category.as_str(), other.category.as_str())
            || !crate::shell::str_eq(self.package.as_str(), other.package.as_str()) {
            return false;
        }
        let same_version = match (&self.version, &other.version) {
            (Some(a), Some(b)) => a.same(b),
            (None, None) => true,
            _ => false,
        };
        if !same_version {
            return false;
        }
        crate::version::same_opt_text(&self.slot, &other.slot) && crate::version::same_opt_text(
            &self.subslot,
            &other.subslot,
        ) && crate::version::same_opt_text(&self.repo, &other.repo) && same_use_deps(
            &self.use_deps,
            &other.use_deps,
        )
    }
}

} // verus!
