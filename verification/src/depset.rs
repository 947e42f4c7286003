//! Dependency specifications: the nested, whitespace-separated expressions of
//! LICENSE, PROPERTIES, RESTRICT, REQUIRED_USE, SRC_URI and package
//! dependencies, parsed into trees and sets of trees.
use vstd::prelude::*;

use crate::chars::{chars_of, string_from, views};
use crate::dep::{dep_parse, dep_string, dep_wf, Dep, DepView, UseDep, UseDepKind, UseDepView};
use crate::order::{
    chain, chain_exec, compare_deps, dep_order, flip, int_order, lemma_chain_flip, lemma_dep_order_flip,
    lemma_seq_order_flip, opt_seq_order, opt_string_order, rank_order, seq_order, string_order, Order,
};
use crate::names::{license_name, use_flag, valid_license_name, valid_use_flag};
use crate::pk::{is_blank, pieces, split_on, Blanks};
use crate::sets::{member, SetOp};

verus! {

/// A leaf of a dependency tree.
#[derive(Debug)]
pub enum Leaf {
    /// A license, property, restriction or USE flag name.
    Name(String),
    /// A package dependency.
    Package(Dep),
    /// A source URI, possibly renamed.
    Uri { uri: String, rename: Option<String> },
}

/// The value of a [`Leaf`].
pub enum LeafV {
    Name(Seq<char>),
    Package(DepView),
    Uri(Seq<char>, Option<Seq<char>>),
}

/// A dependency tree.
#[derive(Debug)]
pub enum Dependency {
    /// A leaf that must hold.
    Enabled(Leaf),
    /// A USE flag that must be off.
    Disabled(String),
    /// `( ... )`: all of the group.
    AllOf(Vec<Dependency>),
    /// `|| ( ... )`: any of the group.
    AnyOf(Vec<Dependency>),
    /// `^^ ( ... )`: exactly one of the group.
    ExactlyOneOf(Vec<Dependency>),
    /// `?? ( ... )`: at most one of the group.
    AtMostOneOf(Vec<Dependency>),
    /// `flag? ( ... )` or `!flag? ( ... )`: the group, when the flag is on
    /// (off when negated).
    Conditional(bool, String, Vec<Dependency>),
}

/// The value of a [`Dependency`].
pub enum DepV {
    Enabled(LeafV),
    Disabled(Seq<char>),
    AllOf(Seq<DepV>),
    AnyOf(Seq<DepV>),
    ExactlyOneOf(Seq<DepV>),
    AtMostOneOf(Seq<DepV>),
    Conditional(bool, Seq<char>, Seq<DepV>),
}

pub open spec fn leaf_view(l: Leaf) -> LeafV {
    match l {
        Leaf::Name(s) => LeafV::Name(s@),
        Leaf::Package(d) => LeafV::Package(d@),
        Leaf::Uri { uri, rename } => LeafV::Uri(
            uri@,
            match rename {
                Some(r) => Some(r@),
                None => None,
            },
        ),
    }
}

/// The value of a tree.
pub open spec fn dep_view(d: Dependency) -> DepV
    decreases d,
{
    match d {
        Dependency::Enabled(l) => DepV::Enabled(leaf_view(l)),
        Dependency::Disabled(s) => DepV::Disabled(s@),
        Dependency::AllOf(vs) => DepV::AllOf(deps_view(vs@)),
        Dependency::AnyOf(vs) => DepV::AnyOf(deps_view(vs@)),
        Dependency::ExactlyOneOf(vs) => DepV::ExactlyOneOf(deps_view(vs@)),
        Dependency::AtMostOneOf(vs) => DepV::AtMostOneOf(deps_view(vs@)),
        Dependency::Conditional(n, f, vs) => DepV::Conditional(n, f@, deps_view(vs@)),
    }
}

/// The values of a list of trees.
pub open spec fn deps_view(s: Seq<Dependency>) -> Seq<DepV>
    decreases s,
{
    if s.len() == 0 {
        Seq::empty()
    } else {
        deps_view(s.drop_last()).push(dep_view(s.last()))
    }
}

/// The kinds of dependency specification, each with its own grammar.
#[derive(Clone, Copy, PartialEq, Eq, Structural, Debug)]
pub enum SetKind {
    License,
    Properties,
    Restrict,
    RequiredUse,
    SrcUri,
    /// Package dependencies; the flag allows repo dependencies (`::repo`).
    Package(bool),
}

/// The kinds that allow `|| ( ... )`.
pub open spec fn allows_any_of(k: SetKind) -> bool {
    k is License || k is RequiredUse || k is Package
}

/// A USE conditional token, `flag?` or `!flag?`: whether it is negated and
/// its flag.
pub open spec fn cond_token(tok: Seq<char>) -> Option<(bool, Seq<char>)> {
    if tok.len() >= 2 && tok.last() == '?' {
        let body = tok.drop_last();
        if body[0] == '!' && valid_use_flag(body.drop_first()) {
            Some((true, body.drop_first()))
        } else if valid_use_flag(body) {
            Some((false, body))
        } else {
            None
        }
    } else {
        None
    }
}

/// The text after the last `/` of a URI, or all of it.
pub open spec fn last_segment(u: Seq<char>) -> Seq<char>
    decreases u.len(),
{
    if u.len() == 0 {
        u
    } else if u.last() == '/' {
        Seq::empty()
    } else {
        last_segment(u.drop_last()).push(u.last())
    }
}

/// A URI names a file: its rename, or the text after its last `/`, is not
/// empty.
pub open spec fn uri_ok(uri: Seq<char>, rename: Option<Seq<char>>) -> bool {
    match rename {
        Some(r) => r.len() > 0,
        None => last_segment(uri).len() > 0,
    }
}

/// The leaf at token `i`, and the token after it.
pub open spec fn parse_leaf(k: SetKind, t: Seq<Seq<char>>, i: int) -> Option<(DepV, int)> {
    let tok = t[i];
    match k {
        SetKind::RequiredUse => if tok.len() > 0 && tok[0] == '!' && valid_use_flag(tok.drop_first()) {
            Some((DepV::Disabled(tok.drop_first()), i + 1))
        } else if valid_use_flag(tok) {
            Some((DepV::Enabled(LeafV::Name(tok)), i + 1))
        } else {
            None
        },
        SetKind::Package(r) => match dep_parse(tok, r) {
            Some(v) => Some((DepV::Enabled(LeafV::Package(v)), i + 1)),
            None => None,
        },
        SetKind::SrcUri => if tok.len() > 0 && tok[0] != ')' {
            if i + 2 < t.len() && t[i + 1] == seq!['-', '>'] {
                if uri_ok(tok, Some(t[i + 2])) {
                    Some((DepV::Enabled(LeafV::Uri(tok, Some(t[i + 2]))), i + 3))
                } else {
                    None
                }
            } else if uri_ok(tok, None) {
                Some((DepV::Enabled(LeafV::Uri(tok, None)), i + 1))
            } else {
                None
            }
        } else {
            None
        },
        _ => if valid_license_name(tok) {
            Some((DepV::Enabled(LeafV::Name(tok)), i + 1))
        } else {
            None
        },
    }
}

/// The group a token opens, if it opens one for this kind: `(`, `||`, `^^`,
/// `??` or a USE conditional. The group's parentheses begin at the token
/// itself for `(` and after it otherwise.
pub enum Opener {
    AllOf,
    AnyOf,
    ExactlyOneOf,
    AtMostOneOf,
    Conditional(bool, Seq<char>),
}

pub open spec fn opener(k: SetKind, tok: Seq<char>) -> Option<Opener> {
    if tok == seq!['('] {
        Some(Opener::AllOf)
    } else if allows_any_of(k) && tok == seq!['|', '|'] {
        Some(Opener::AnyOf)
    } else if k is RequiredUse && tok == seq!['^', '^'] {
        Some(Opener::ExactlyOneOf)
    } else if k is RequiredUse && tok == seq!['?', '?'] {
        Some(Opener::AtMostOneOf)
    } else {
        match cond_token(tok) {
            Some((n, f)) => Some(Opener::Conditional(n, f)),
            None => None,
        }
    }
}

/// The group an opener makes of its contents.
pub open spec fn make_group(o: Opener, vs: Seq<DepV>) -> DepV {
    match o {
        Opener::AllOf => DepV::AllOf(vs),
        Opener::AnyOf => DepV::AnyOf(vs),
        Opener::ExactlyOneOf => DepV::ExactlyOneOf(vs),
        Opener::AtMostOneOf => DepV::AtMostOneOf(vs),
        Opener::Conditional(n, f) => DepV::Conditional(n, f, vs),
    }
}

/// The dependency at token `i` and the token after it: a group when the
/// token opens one whose parentheses close, else a leaf.
pub open spec fn parse_item(k: SetKind, t: Seq<Seq<char>>, i: int) -> Option<(DepV, int)>
    decreases t.len() - i, 1int,
{
    if i < 0 || i >= t.len() {
        None
    } else {
        let grouped = match opener(k, t[i]) {
            Some(o) => {
                let start = if o is AllOf {
                    i
                } else {
                    i + 1
                };
                match parse_parens(k, t, start) {
                    Some((vs, j)) => Some((make_group(o, vs), j)),
                    None => None,
                }
            },
            None => None,
        };
        match grouped {
            Some(r) => Some(r),
            None => parse_leaf(k, t, i),
        }
    }
}

/// `( d1 d2 ... )` at token `i`: one or more dependencies between
/// parentheses, and the token after them.
pub open spec fn parse_parens(k: SetKind, t: Seq<Seq<char>>, i: int) -> Option<(Seq<DepV>, int)>
    decreases t.len() - i, 0int,
{
    if 0 <= i < t.len() && t[i] == seq!['('] {
        match parse_item(k, t, i + 1) {
            Some((d, j)) => if i + 1 < j <= t.len() {
                let (rest, e) = parse_more(k, t, j);
                if 0 <= e < t.len() && t[e] == seq![')'] {
                    Some((seq![d] + rest, e + 1))
                } else {
                    None
                }
            } else {
                None
            },
            None => None,
        }
    } else {
        None
    }
}

/// As many dependencies as follow one another from token `i`, and the token
/// where they stop.
pub open spec fn parse_more(k: SetKind, t: Seq<Seq<char>>, i: int) -> (Seq<DepV>, int)
    decreases t.len() - i, 2int,
{
    if i < 0 || i > t.len() {
        (Seq::empty(), i)
    } else {
        match parse_item(k, t, i) {
            Some((d, j)) => if i < j <= t.len() {
                let (rest, e) = parse_more(k, t, j);
                (seq![d] + rest, e)
            } else {
                (Seq::empty(), i)
            },
            None => (Seq::empty(), i),
        }
    }
}

/// A specification's text has no separator at either end.
pub open spec fn trimmed_spec(s: Seq<char>) -> bool {
    s.len() == 0 || (!is_blank(Blanks::Spec, s[0]) && !is_blank(Blanks::Spec, s.last()))
}

/// The dependencies a specification lists, when the whole of it parses.
pub open spec fn parse_list(k: SetKind, s: Seq<char>) -> Option<Seq<DepV>> {
    let t = pieces(Blanks::Spec, s);
    if !trimmed_spec(s) {
        None
    } else {
        let (vs, e) = parse_more(k, t, 0);
        if e == t.len() {
            Some(vs)
        } else {
            None
        }
    }
}

/// The one dependency a specification holds, when the whole of it parses.
pub open spec fn parse_one(k: SetKind, s: Seq<char>) -> Option<DepV> {
    let t = pieces(Blanks::Spec, s);
    if !trimmed_spec(s) {
        None
    } else {
        match parse_item(k, t, 0) {
            Some((d, j)) => if j == t.len() {
                Some(d)
            } else {
                None
            },
            None => None,
        }
    }
}

// ---------------------------------------------------------------------------
// executable parser

/// Whether a token is the one character `c`.
fn is_one(tok: &String, c: char) -> (r: bool)
    ensures
        r == (tok@ == seq![c]),
{
    let cs = chars_of(tok.as_str());
    let r = cs.len() == 1 && cs[0] == c;
    proof {
        if r {
            assert(cs@ =~= seq![c]);
        }
    }
    r
}

/// Whether a token is the two characters `a` and `b`.
fn is_two(tok: &String, a: char, b: char) -> (r: bool)
    ensures
        r == (tok@ == seq![a, b]),
{
    let cs = chars_of(tok.as_str());
    let r = cs.len() == 2 && cs[0] == a && cs[1] == b;
    proof {
        if r {
            assert(cs@ =~= seq![a, b]);
        }
    }
    r
}

/// Read a USE conditional token.
fn read_cond(tok: &String) -> (r: Option<(bool, String)>)
    ensures
        match r {
            Some((n, f)) => cond_token(tok@) == Some((n, f@)),
            None => cond_token(tok@) is None,
        },
{
    let cs = chars_of(tok.as_str());
    let n = cs.len();
    if n < 2 || cs[n - 1] != '?' {
        return None;
    }
    let ghost body = cs@.drop_last();
    assert(body[0] == cs@[0]);
    if cs[0] == '!' {
        let flag = string_from(&cs, 1, n - 1);
        assert(flag@ =~= body.drop_first());
        if use_flag(flag.as_str()).is_ok() {
            return Some((true, flag));
        }
    }
    let flag = string_from(&cs, 0, n - 1);
    assert(flag@ =~= body);
    if use_flag(flag.as_str()).is_ok() {
        proof {
            if cs[0] == '!' {
                assert(!crate::chars::is_alnum(flag@[0]));
            }
        }
        Some((false, flag))
    } else {
        None
    }
}

/// The text after the last `/` is empty exactly when the text ends in `/`
/// or is empty.
proof fn lemma_last_segment_empty(u: Seq<char>)
    ensures
        (last_segment(u).len() == 0) <==> (u.len() == 0 || u.last() == '/'),
    decreases u.len(),
{
}

/// Read the leaf at token `i`.
fn read_leaf(k: SetKind, t: &Vec<String>, i: usize) -> (r: Option<(Dependency, usize)>)
    requires
        i < t@.len(),
    ensures
        match r {
            Some((d, j)) => parse_leaf(k, views(t@), i as int) == Some((dep_view(d), j as int))
                && tree_wf(dep_view(d)),
            None => parse_leaf(k, views(t@), i as int) is None,
        },
{
    let ghost tv = views(t@);
    assert(tv[i as int] == t@[i as int]@);
    let _len = t.len();
    let tok = &t[i];
    match k {
        SetKind::RequiredUse => {
            let cs = chars_of(tok.as_str());
            if cs.len() > 0 && cs[0] == '!' {
                let flag = string_from(&cs, 1, cs.len());
                assert(flag@ =~= tok@.drop_first());
                if use_flag(flag.as_str()).is_ok() {
                    return Some((Dependency::Disabled(flag), i + 1));
                }
            }
            if use_flag(tok.as_str()).is_ok() {
                Some((Dependency::Enabled(Leaf::Name(tok.clone())), i + 1))
            } else {
                None
            }
        },
        SetKind::Package(repo) => match Dep::parse(tok.as_str(), repo) {
            Ok(d) => {
                proof {
                    crate::dep::lemma_dep_parse_wf(tok@, repo);
                }
                Some((Dependency::Enabled(Leaf::Package(d)), i + 1))
            },
            Err(_) => None,
        },
        SetKind::SrcUri => {
            let cs = chars_of(tok.as_str());
            if cs.len() == 0 || cs[0] == ')' {
                return None;
            }
            if t.len() - i > 2 && is_two(&t[i + 1], '-', '>') {
                assert(tv[i + 1] == t@[i + 1]@ && tv[i + 2] == t@[i + 2]@);
                let rename = &t[i + 2];
                if rename.unicode_len() > 0 {
                    Some((
                        Dependency::Enabled(Leaf::Uri { uri: tok.clone(), rename: Some(rename.clone()) }),
                        i + 3,
                    ))
                } else {
                    None
                }
            } else {
                proof {
                    lemma_last_segment_empty(cs@);
                }
                if cs[cs.len() - 1] != '/' {
                    Some((Dependency::Enabled(Leaf::Uri { uri: tok.clone(), rename: None }), i + 1))
                } else {
                    None
                }
            }
        },
        _ => {
            if license_name(tok.as_str()).is_ok() {
                Some((Dependency::Enabled(Leaf::Name(tok.clone())), i + 1))
            } else {
                None
            }
        },
    }
}

/// The group kinds, as the parser builds them.
enum Group {
    AllOf,
    AnyOf,
    ExactlyOneOf,
    AtMostOneOf,
    Conditional(bool, String),
}

spec fn group_opener(g: Group) -> Opener {
    match g {
        Group::AllOf => Opener::AllOf,
        Group::AnyOf => Opener::AnyOf,
        Group::ExactlyOneOf => Opener::ExactlyOneOf,
        Group::AtMostOneOf => Opener::AtMostOneOf,
        Group::Conditional(n, f) => Opener::Conditional(n, f@),
    }
}

/// Read the group a token opens.
fn read_opener(k: SetKind, tok: &String) -> (r: Option<Group>)
    ensures
        match r {
            Some(g) => opener(k, tok@) == Some(group_opener(g)),
            None => opener(k, tok@) is None,
        },
{
    if is_one(tok, '(') {
        return Some(Group::AllOf);
    }
    let any_of = match k {
        SetKind::License | SetKind::RequiredUse | SetKind::Package(_) => true,
        _ => false,
    };
    if any_of && is_two(tok, '|', '|') {
        return Some(Group::AnyOf);
    }
    let required_use = match k {
        SetKind::RequiredUse => true,
        _ => false,
    };
    if required_use && is_two(tok, '^', '^') {
        return Some(Group::ExactlyOneOf);
    }
    if required_use && is_two(tok, '?', '?') {
        return Some(Group::AtMostOneOf);
    }
    match read_cond(tok) {
        Some((n, f)) => Some(Group::Conditional(n, f)),
        None => None,
    }
}

/// A list's values grow by one value as the list grows by one tree.
proof fn lemma_deps_view_push(s: Seq<Dependency>, d: Dependency)
    ensures
        deps_view(s.push(d)) == deps_view(s).push(dep_view(d)),
{
    assert(s.push(d).drop_last() =~= s);
}

/// A list's values are as many as its trees.
proof fn lemma_deps_view_len(s: Seq<Dependency>)
    ensures
        deps_view(s).len() == s.len(),
        forall|i: int| 0 <= i < s.len() ==> #[trigger] deps_view(s)[i] == dep_view(s[i]),
    decreases s.len(),
{
    if s.len() > 0 {
        lemma_deps_view_len(s.drop_last());
        assert forall|i: int| 0 <= i < s.len() implies #[trigger] deps_view(s)[i] == dep_view(s[i]) by {
            if i < s.len() - 1 {
                assert(s.drop_last()[i] == s[i]);
            }
        }
    }
}

/// Build the group a token opened from its contents.
fn build_group(g: Group, vs: Vec<Dependency>) -> (r: Dependency)
    ensures
        dep_view(r) == make_group(group_opener(g), deps_view(vs@)),
        list_wf(deps_view(vs@)) ==> tree_wf(dep_view(r)),
{
    match g {
        Group::AllOf => Dependency::AllOf(vs),
        Group::AnyOf => Dependency::AnyOf(vs),
        Group::ExactlyOneOf => Dependency::ExactlyOneOf(vs),
        Group::AtMostOneOf => Dependency::AtMostOneOf(vs),
        Group::Conditional(n, f) => Dependency::Conditional(n, f, vs),
    }
}

/// Read the dependency at token `i`.
fn read_item(k: SetKind, t: &Vec<String>, i: usize) -> (r: Option<(Dependency, usize)>)
    requires
        i <= t@.len(),
    ensures
        match r {
            Some((d, j)) => parse_item(k, views(t@), i as int) == Some((dep_view(d), j as int)) && i
                < j <= t@.len() && tree_wf(dep_view(d)),
            None => parse_item(k, views(t@), i as int) is None,
        },
    decreases t@.len() - i, 1int,
{
    let ghost tv = views(t@);
    if i >= t.len() {
        return None;
    }
    assert(tv[i as int] == t@[i as int]@);
    match read_opener(k, &t[i]) {
        Some(g) => {
            let all_of = match g {
                Group::AllOf => true,
                _ => false,
            };
            let start = if all_of {
                i
            } else {
                i + 1
            };
            let ghost o = group_opener(g);
            assert(o is AllOf <==> all_of);
            match read_parens(k, t, start) {
                Some((vs, j)) => {
                    let d = build_group(g, vs);
                    return Some((d, j));
                },
                None => {},
            }
        },
        None => {},
    }
    let leaf = read_leaf(k, t, i);
    match leaf {
        Some((d, j)) => {
            assert(j == i + 1 || j == i + 3);
            Some((d, j))
        },
        None => None,
    }
}

/// Read `( d1 d2 ... )` at token `i`.
fn read_parens(k: SetKind, t: &Vec<String>, i: usize) -> (r: Option<(Vec<Dependency>, usize)>)
    requires
        i <= t@.len(),
    ensures
        match r {
            Some((vs, j)) => parse_parens(k, views(t@), i as int) == Some((deps_view(vs@), j as int))
                && i < j <= t@.len() && list_wf(deps_view(vs@)),
            None => parse_parens(k, views(t@), i as int) is None,
        },
    decreases t@.len() - i, 0int,
{
    let ghost tv = views(t@);
    if i >= t.len() {
        return None;
    }
    assert(tv[i as int] == t@[i as int]@);
    if !is_one(&t[i], '(') {
        return None;
    }
    let (d, j) = match read_item(k, t, i + 1) {
        Some(x) => x,
        None => return None,
    };
    let mut first: Vec<Dependency> = Vec::new();
    let ghost dv = dep_view(d);
    first.push(d);
    proof {
        lemma_deps_view_push(Seq::empty(), first@[0]);
        assert(Seq::<Dependency>::empty().push(first@[0]) =~= first@);
        assert(deps_view(Seq::<Dependency>::empty()) =~= Seq::<DepV>::empty());
        assert(deps_view(first@) =~= seq![dv]);
        assert(seq![dv].drop_last() =~= Seq::<DepV>::empty());
        assert(seq![dv].last() == dv);
        assert(tree_wf(dv));
        assert(list_wf(Seq::<DepV>::empty()));
        assert(list_wf(seq![dv]));
        assert(list_wf(deps_view(first@)));
    }
    let (vs, e) = read_more(k, t, j, first);
    if e < t.len() && is_one(&t[e], ')') {
        assert(tv[e as int] == t@[e as int]@);
        assert(deps_view(vs@) =~= seq![dv] + parse_more(k, tv, j as int).0);
        Some((vs, e + 1))
    } else {
        proof {
            if e < t.len() {
                assert(tv[e as int] == t@[e as int]@);
            }
        }
        None
    }
}

/// Read as many dependencies as follow one another from token `i`, after
/// those already read.
fn read_more(k: SetKind, t: &Vec<String>, i: usize, acc: Vec<Dependency>) -> (r: (
    Vec<Dependency>,
    usize,
))
    requires
        i <= t@.len(),
        list_wf(deps_view(acc@)),
    ensures
        deps_view(r.0@) == deps_view(acc@) + parse_more(k, views(t@), i as int).0,
        list_wf(deps_view(r.0@)),
        r.1 == parse_more(k, views(t@), i as int).1,
        i <= r.1 <= t@.len(),
    decreases t@.len() - i, 2int,
{
    let ghost tv = views(t@);
    let mut out = acc;
    let mut cur = i;
    loop
        invariant
            i <= cur <= t@.len(),
            tv == views(t@),
            list_wf(deps_view(out@)),
            deps_view(out@) + parse_more(k, tv, cur as int).0 == deps_view(acc@) + parse_more(
                k,
                tv,
                i as int,
            ).0,
            parse_more(k, tv, cur as int).1 == parse_more(k, tv, i as int).1,
        ensures
            i <= cur <= t@.len(),
            list_wf(deps_view(out@)),
            parse_more(k, tv, cur as int).0 == Seq::<DepV>::empty(),
            parse_more(k, tv, cur as int).1 == cur,
            deps_view(out@) + parse_more(k, tv, cur as int).0 == deps_view(acc@) + parse_more(
                k,
                tv,
                i as int,
            ).0,
            parse_more(k, tv, cur as int).1 == parse_more(k, tv, i as int).1,
        decreases t@.len() - cur,
    {
        match read_item(k, t, cur) {
            Some((d, j)) => {
                let ghost before = deps_view(out@);
                let ghost dv = dep_view(d);
                proof {
                    lemma_deps_view_push(out@, d);
                }
                out.push(d);
                assert(deps_view(out@) == before.push(dv));
                assert(before.push(dv).drop_last() =~= before);
                assert(parse_more(k, tv, cur as int).0 == seq![dv] + parse_more(k, tv, j as int).0);
                assert(before.push(dv) + parse_more(k, tv, j as int).0 =~= before + (seq![dv]
                    + parse_more(k, tv, j as int).0));
                cur = j;
            },
            None => {
                break;
            },
        }
    }
    assert(deps_view(out@) + Seq::<DepV>::empty() =~= deps_view(out@));
    (out, cur)
}

// ---------------------------------------------------------------------------
// equality

/// Whether two leaves are the same.
fn same_leaf(a: &Leaf, b: &Leaf) -> (r: bool)
    ensures
        r == (leaf_view(*a) == leaf_view(*b)),
{
    match (a, b) {
        (Leaf::Name(x), Leaf::Name(y)) => crate::shell::str_eq(x.as_str(), y.as_str()),
        (Leaf::Package(x), Leaf::Package(y)) => x.same(y),
        (Leaf::Uri { uri: u1, rename: r1 }, Leaf::Uri { uri: u2, rename: r2 }) => {
            crate::shell::str_eq(u1.as_str(), u2.as_str()) && crate::version::same_opt_text(r1, r2)
        },
        _ => false,
    }
}

/// Whether two trees are the same.
pub fn same_dep(a: &Dependency, b: &Dependency) -> (r: bool)
    ensures
        r == (dep_view(*a) == dep_view(*b)),
    decreases a,
{
    match (a, b) {
        (Dependency::Enabled(x), Dependency::Enabled(y)) => same_leaf(x, y),
        (Dependency::Disabled(x), Dependency::Disabled(y)) => crate::shell::str_eq(x.as_str(), y.as_str()),
        (Dependency::AllOf(x), Dependency::AllOf(y)) => same_deps(x, y),
        (Dependency::AnyOf(x), Dependency::AnyOf(y)) => same_deps(x, y),
        (Dependency::ExactlyOneOf(x), Dependency::ExactlyOneOf(y)) => same_deps(x, y),
        (Dependency::AtMostOneOf(x), Dependency::AtMostOneOf(y)) => same_deps(x, y),
        (Dependency::Conditional(n1, f1, x), Dependency::Conditional(n2, f2, y)) => {
            *n1 == *n2 && crate::shell::str_eq(f1.as_str(), f2.as_str()) && same_deps(x, y)
        },
        _ => false,
    }
}

/// Whether two lists of trees are the same.
fn same_deps(a: &Vec<Dependency>, b: &Vec<Dependency>) -> (r: bool)
    ensures
        r == (deps_view(a@) == deps_view(b@)),
    decreases a,
{
    proof {
        lemma_deps_view_len(a@);
        lemma_deps_view_len(b@);
    }
    if a.len() != b.len() {
        return false;
    }
    let mut i: usize = 0;
    while i < a.len()
        invariant
            i <= a@.len(),
            a@.len() == b@.len(),
            deps_view(a@).len() == a@.len(),
            deps_view(b@).len() == b@.len(),
            forall|k: int| 0 <= k < a@.len() ==> #[trigger] deps_view(a@)[k] == dep_view(a@[k]),
            forall|k: int| 0 <= k < b@.len() ==> #[trigger] deps_view(b@)[k] == dep_view(b@[k]),
            forall|k: int| 0 <= k < i ==> deps_view(a@)[k] == #[trigger] deps_view(b@)[k],
        decreases a@.len() - i,
    {
        assert(decreases_to!(a => a@[i as int]));
        if !same_dep(&a[i], &b[i]) {
            assert(deps_view(a@)[i as int] != deps_view(b@)[i as int]);
            return false;
        }
        i = i + 1;
    }
    assert(deps_view(a@) =~= deps_view(b@));
    true
}

// ---------------------------------------------------------------------------
// sets

/// The values of a list in order, each kept at its first occurrence.
pub open spec fn first_occurrences<T>(s: Seq<T>) -> Seq<T>
    decreases s.len(),
{
    if s.len() == 0 {
        s
    } else {
        let before = first_occurrences(s.drop_last());
        if before.contains(s.last()) {
            before
        } else {
            before.push(s.last())
        }
    }
}

/// Why a specification does not parse.
#[derive(Clone, Copy, PartialEq, Eq, Structural, Debug)]
pub enum DepSetError {
    /// Not a valid specification of its kind.
    Invalid(SetKind),
}

/// A set of dependency trees: each tree once, in the order first given.
#[derive(Debug)]
pub struct DependencySet {
    items: Vec<Dependency>,
}

impl DependencySet {
    /// The values of the set's trees, in order.
    pub closed spec fn values(&self) -> Seq<DepV> {
        deps_view(self.items@)
    }

    /// No tree occurs twice in a set.
    #[verifier::type_invariant]
    spec fn each_once(self) -> bool {
        self.values().no_duplicates()
    }

    /// An empty set.
    pub fn new() -> (r: DependencySet)
        ensures
            r.values() == Seq::<DepV>::empty(),
    {
        assert(deps_view(Seq::<Dependency>::empty()) =~= Seq::<DepV>::empty());
        DependencySet { items: Vec::new() }
    }

    /// The number of trees.
    pub fn len(&self) -> (r: usize)
        ensures
            r == self.values().len(),
    {
        proof {
            lemma_deps_view_len(self.items@);
        }
        self.items.len()
    }

    /// Whether the set holds no tree.
    pub fn is_empty(&self) -> (r: bool)
        ensures
            r == (self.values().len() == 0),
    {
        proof {
            lemma_deps_view_len(self.items@);
        }
        self.items.len() == 0
    }

    /// Parse a specification of the given kind into its set of trees.
    pub fn parse(kind: SetKind, s: &str) -> (r: Result<DependencySet, DepSetError>)
        ensures
            match r {
                Ok(set) => parse_list(kind, s@) is Some && set.values() == first_occurrences(
                    parse_list(kind, s@).unwrap(),
                ) && set.wf(),
                Err(e) => parse_list(kind, s@) is None && e == DepSetError::Invalid(kind),
            },
    {
        let tokens = split_on(s, Blanks::Spec);
        if !trimmed_text(s) {
            return Err(DepSetError::Invalid(kind));
        }
        let start: Vec<Dependency> = Vec::new();
        assert(deps_view(start@) =~= Seq::<DepV>::empty());
        let (vs, e) = read_more(kind, &tokens, 0, start);
        assert(deps_view(Seq::<Dependency>::empty()) =~= Seq::<DepV>::empty());
        assert(Seq::<DepV>::empty() + parse_more(kind, views(tokens@), 0).0 =~= parse_more(
            kind,
            views(tokens@),
            0,
        ).0);
        if e != tokens.len() {
            return Err(DepSetError::Invalid(kind));
        }
        proof {
            lemma_first_occurrences(deps_view(vs@));
        }
        Ok(DependencySet { items: dedup(vs) })
    }

    /// A LICENSE specification.
    pub fn license(s: &str) -> (r: Result<DependencySet, DepSetError>)
        ensures
            match r {
                Ok(set) => parse_list(SetKind::License, s@) is Some && set.values()
                    == first_occurrences(parse_list(SetKind::License, s@).unwrap()) && set.wf(),
                Err(e) => parse_list(SetKind::License, s@) is None,
            },
    {
        DependencySet::parse(SetKind::License, s)
    }

    /// A PROPERTIES specification.
    pub fn properties(s: &str) -> (r: Result<DependencySet, DepSetError>)
        ensures
            match r {
                Ok(set) => parse_list(SetKind::Properties, s@) is Some && set.values()
                    == first_occurrences(parse_list(SetKind::Properties, s@).unwrap()) && set.wf(),
                Err(e) => parse_list(SetKind::Properties, s@) is None,
            },
    {
        DependencySet::parse(SetKind::Properties, s)
    }

    /// A REQUIRED_USE specification.
    pub fn required_use(s: &str) -> (r: Result<DependencySet, DepSetError>)
        ensures
            match r {
                Ok(set) => parse_list(SetKind::RequiredUse, s@) is Some && set.values()
                    == first_occurrences(parse_list(SetKind::RequiredUse, s@).unwrap()) && set.wf(),
                Err(e) => parse_list(SetKind::RequiredUse, s@) is None,
            },
    {
        DependencySet::parse(SetKind::RequiredUse, s)
    }

    /// A RESTRICT specification.
    pub fn restrict(s: &str) -> (r: Result<DependencySet, DepSetError>)
        ensures
            match r {
                Ok(set) => parse_list(SetKind::Restrict, s@) is Some && set.values()
                    == first_occurrences(parse_list(SetKind::Restrict, s@).unwrap()) && set.wf(),
                Err(e) => parse_list(SetKind::Restrict, s@) is None,
            },
    {
        DependencySet::parse(SetKind::Restrict, s)
    }

    /// A SRC_URI specification.
    pub fn src_uri(s: &str) -> (r: Result<DependencySet, DepSetError>)
        ensures
            match r {
                Ok(set) => parse_list(SetKind::SrcUri, s@) is Some && set.values()
                    == first_occurrences(parse_list(SetKind::SrcUri, s@).unwrap()) && set.wf(),
                Err(e) => parse_list(SetKind::SrcUri, s@) is None,
            },
    {
        DependencySet::parse(SetKind::SrcUri, s)
    }

    /// A package dependency specification; `repo_deps` allows `::repo`.
    pub fn package(s: &str, repo_deps: bool) -> (r: Result<DependencySet, DepSetError>)
        ensures
            match r {
                Ok(set) => parse_list(SetKind::Package(repo_deps), s@) is Some && set.values()
                    == first_occurrences(parse_list(SetKind::Package(repo_deps), s@).unwrap()) && set.wf(),
                Err(e) => parse_list(SetKind::Package(repo_deps), s@) is None,
            },
    {
        DependencySet::parse(SetKind::Package(repo_deps), s)
    }
}

/// Whether a text has no separator at either end.
fn trimmed_text(s: &str) -> (r: bool)
    ensures
        r == trimmed_spec(s@),
{
    let cs = chars_of(s);
    let n = cs.len();
    if n == 0 {
        return true;
    }
    let a = cs[0];
    let b = cs[n - 1];
    !(a == ' ' || a == '\n' || a == '\t') && !(b == ' ' || b == '\n' || b == '\t')
}

/// Whether a list holds a tree the same as `d`.
fn holds_tree(v: &Vec<Dependency>, d: &Dependency) -> (r: bool)
    ensures
        r == deps_view(v@).contains(dep_view(*d)),
{
    proof {
        lemma_deps_view_len(v@);
    }
    let mut k: usize = 0;
    while k < v.len()
        invariant
            k <= v@.len(),
            deps_view(v@).len() == v@.len(),
            forall|q: int| 0 <= q < v@.len() ==> #[trigger] deps_view(v@)[q] == dep_view(v@[q]),
            forall|q: int| 0 <= q < k ==> deps_view(v@)[q] != dep_view(*d),
        decreases v@.len() - k,
    {
        if same_dep(&v[k], d) {
            assert(deps_view(v@)[k as int] == dep_view(*d));
            return true;
        }
        k = k + 1;
    }
    false
}

/// Keep each tree at its first occurrence.
fn dedup(vs: Vec<Dependency>) -> (r: Vec<Dependency>)
    requires
        list_wf(deps_view(vs@)),
    ensures
        deps_view(r@) == first_occurrences(deps_view(vs@)),
        list_wf(deps_view(r@)),
{
    let ghost all = deps_view(vs@);
    proof {
        lemma_deps_view_len(vs@);
        lemma_all_wf_list(all);
    }
    let mut out: Vec<Dependency> = Vec::new();
    let mut rest = vs;
    let mut i: usize = 0;
    let n = rest.len();
    assert(all.take(0) =~= Seq::<DepV>::empty());
    assert(deps_view(out@) =~= Seq::<DepV>::empty());
    // take trees from the front, one at a time
    while rest.len() > 0
        invariant
            i + rest@.len() == n,
            n == all.len(),
            n == vs@.len(),
            rest@ == vs@.skip(i as int),
            all == deps_view(vs@),
            forall|k: int| 0 <= k < vs@.len() ==> #[trigger] all[k] == dep_view(vs@[k]),
            deps_view(out@) == first_occurrences(all.take(i as int)),
            all_wf(all),
            all_wf(deps_view(out@)),
        decreases rest@.len(),
    {
        assert(rest@[0] == vs@[i as int]);
        let d = rest.remove(0);
        assert(rest@ =~= vs@.skip(i + 1));
        assert(dep_view(d) == all[i as int]);
        let seen = holds_tree(&out, &d);
        proof {
            assert(all.take(i + 1).drop_last() =~= all.take(i as int));
            assert(all.take(i + 1).last() == dep_view(d));
        }
        if !seen {
            let ghost before = deps_view(out@);
            proof {
                lemma_deps_view_push(out@, d);
            }
            out.push(d);
            assert forall|q: int| 0 <= q < deps_view(out@).len() implies tree_wf(#[trigger] deps_view(out@)[q]) by {
                if q < before.len() {
                    assert(deps_view(out@)[q] == before[q]);
                } else {
                    assert(deps_view(out@)[q] == all[i as int]);
                }
            }
        }
        i = i + 1;
    }
    assert(all.take(n as int) =~= all);
    proof {
        lemma_all_wf_list(deps_view(out@));
    }
    out
}

// ---------------------------------------------------------------------------
// display

/// A leaf's text: a name, a package dependency, or a URI with its rename
/// after ` -> `.
pub open spec fn leaf_text(l: LeafV) -> Seq<char> {
    match l {
        LeafV::Name(s) => s,
        LeafV::Package(v) => dep_string(v),
        LeafV::Uri(u, r) => match r {
            Some(r) => u + seq![' ', '-', '>', ' '] + r,
            None => u,
        },
    }
}

/// A group's text: its head, then its contents between `( ` and ` )`.
pub open spec fn group_text(head: Seq<char>, inner: Seq<char>) -> Seq<char> {
    head + seq!['(', ' '] + inner + seq![' ', ')']
}

/// A tree's text.
pub open spec fn dep_text(d: DepV) -> Seq<char>
    decreases d,
{
    match d {
        DepV::Enabled(l) => leaf_text(l),
        DepV::Disabled(f) => seq!['!'] + f,
        DepV::AllOf(vs) => group_text(Seq::empty(), list_text(vs)),
        DepV::AnyOf(vs) => group_text(seq!['|', '|', ' '], list_text(vs)),
        DepV::ExactlyOneOf(vs) => group_text(seq!['^', '^', ' '], list_text(vs)),
        DepV::AtMostOneOf(vs) => group_text(seq!['?', '?', ' '], list_text(vs)),
        DepV::Conditional(n, f, vs) => group_text(
            (if n {
                seq!['!']
            } else {
                Seq::empty()
            }) + f + seq!['?', ' '],
            list_text(vs),
        ),
    }
}

/// The texts of trees, separated by single spaces.
pub open spec fn list_text(vs: Seq<DepV>) -> Seq<char>
    decreases vs,
{
    if vs.len() == 0 {
        Seq::empty()
    } else if vs.len() == 1 {
        dep_text(vs[0])
    } else {
        list_text(vs.drop_last()) + seq![' '] + dep_text(vs.last())
    }
}

/// Write a leaf's text.
fn write_leaf(out: &mut String, l: &Leaf)
    ensures
        final(out)@ == old(out)@ + leaf_text(leaf_view(*l)),
{
    match l {
        Leaf::Name(s) => out.append(s.as_str()),
        Leaf::Package(d) => {
            let t = d.to_string();
            out.append(t.as_str());
        },
        Leaf::Uri { uri, rename } => {
            out.append(uri.as_str());
            match rename {
                Some(r) => {
                    out.append(" -> ");
                    out.append(r.as_str());
                    proof {
                        reveal_strlit(" -> ");
                        assert(" -> "@ =~= seq![' ', '-', '>', ' ']);
                    }
                },
                None => {},
            }
        },
    }
    assert(out@ =~= old(out)@ + leaf_text(leaf_view(*l)));
}

/// Write a group's text around its contents.
fn write_group(out: &mut String, head: &str, vs: &Vec<Dependency>)
    ensures
        final(out)@ == old(out)@ + group_text(head@, list_text(deps_view(vs@))),
    decreases vs, 1int,
{
    out.append(head);
    out.append("( ");
    write_list(out, vs);
    out.append(" )");
    proof {
        reveal_strlit("( ");
        reveal_strlit(" )");
        assert("( "@ =~= seq!['(', ' ']);
        assert(" )"@ =~= seq![' ', ')']);
    }
    assert(out@ =~= old(out)@ + group_text(head@, list_text(deps_view(vs@))));
}

/// Write a tree's text.
fn write_dep(out: &mut String, d: &Dependency)
    ensures
        final(out)@ == old(out)@ + dep_text(dep_view(*d)),
    decreases d, 2int,
{
    proof {
        reveal_strlit("");
        reveal_strlit("|| ");
        reveal_strlit("^^ ");
        reveal_strlit("?? ");
        reveal_strlit("!");
        assert(""@ =~= Seq::<char>::empty());
        assert("|| "@ =~= seq!['|', '|', ' ']);
        assert("^^ "@ =~= seq!['^', '^', ' ']);
        assert("?? "@ =~= seq!['?', '?', ' ']);
        assert("!"@ =~= seq!['!']);
    }
    match d {
        Dependency::Enabled(l) => write_leaf(out, l),
        Dependency::Disabled(f) => {
            out.append("!");
            out.append(f.as_str());
        },
        Dependency::AllOf(vs) => write_group(out, "", vs),
        Dependency::AnyOf(vs) => write_group(out, "|| ", vs),
        Dependency::ExactlyOneOf(vs) => write_group(out, "^^ ", vs),
        Dependency::AtMostOneOf(vs) => write_group(out, "?? ", vs),
        Dependency::Conditional(n, f, vs) => {
            let mut head = String::new();
            if *n {
                head.append("!");
            }
            head.append(f.as_str());
            head.append("? ");
            proof {
                reveal_strlit("? ");
                assert("? "@ =~= seq!['?', ' ']);
                assert(head@ =~= (if *n {
                    seq!['!']
                } else {
                    Seq::empty()
                }) + f@ + seq!['?', ' ']);
            }
            write_group(out, head.as_str(), vs);
        },
    }
    assert(out@ =~= old(out)@ + dep_text(dep_view(*d)));
}

/// Write the texts of trees separated by single spaces.
fn write_list(out: &mut String, vs: &Vec<Dependency>)
    ensures
        final(out)@ == old(out)@ + list_text(deps_view(vs@)),
    decreases vs, 0int,
{
    proof {
        lemma_deps_view_len(vs@);
    }
    let ghost start = out@;
    let mut i: usize = 0;
    assert(deps_view(vs@).take(0) =~= Seq::<DepV>::empty());
    while i < vs.len()
        invariant
            i <= vs@.len(),
            deps_view(vs@).len() == vs@.len(),
            forall|k: int| 0 <= k < vs@.len() ==> #[trigger] deps_view(vs@)[k] == dep_view(vs@[k]),
            out@ == start + list_text(deps_view(vs@).take(i as int)),
        decreases vs@.len() - i,
    {
        let ghost dv = deps_view(vs@);
        proof {
            assert(dv.take(i + 1).drop_last() =~= dv.take(i as int));
            assert(dv.take(i + 1).last() == dep_view(vs@[i as int]));
            if i == 0 {
                assert(dv.take(1)[0] == dep_view(vs@[0]));
            }
        }
        if i > 0 {
            out.append(" ");
            proof {
                reveal_strlit(" ");
                assert(" "@ =~= seq![' ']);
            }
        }
        assert(decreases_to!(vs => vs@[i as int]));
        write_dep(out, &vs[i]);
        proof {
            if i == 0 {
                assert(out@ =~= start + list_text(dv.take(1)));
            } else {
                assert(out@ =~= start + list_text(dv.take(i + 1)));
            }
        }
        i = i + 1;
    }
    assert(deps_view(vs@).take(vs@.len() as int) =~= deps_view(vs@));
}

impl Dependency {
    /// The tree's text.
    pub fn to_string(&self) -> (r: String)
        ensures
            r@ == dep_text(dep_view(*self)),
    {
        let mut out = String::new();
        write_dep(&mut out, self);
        assert(out@ =~= dep_text(dep_view(*self)));
        out
    }
}

impl DependencySet {
    /// The set's text: its trees' texts separated by single spaces.
    pub fn to_string(&self) -> (r: String)
        ensures
            r@ == list_text(self.values()),
    {
        let mut out = String::new();
        write_list(&mut out, &self.items);
        assert(out@ =~= list_text(self.values()));
        out
    }
}

// ---------------------------------------------------------------------------
// a specification's text survives parsing

/// Tokens separated by single spaces.
pub open spec fn spaced(t: Seq<Seq<char>>) -> Seq<char>
    decreases t.len(),
{
    if t.len() == 0 {
        Seq::empty()
    } else if t.len() == 1 {
        t[0]
    } else {
        spaced(t.drop_last()) + seq![' '] + t.last()
    }
}

/// Text with its tokens separated by single spaces only: no separator at
/// either end, no tab or newline, and no two spaces in a row.
pub open spec fn single_spaced(s: Seq<char>) -> bool {
    &&& trimmed_spec(s)
    &&& forall|i: int| 0 <= i < s.len() ==> s[i] != '\n' && s[i] != '\t'
    &&& forall|i: int| 0 <= i < s.len() - 1 ==> !(s[i] == ' ' && #[trigger] s[i + 1] == ' ')
}

proof fn lemma_spaced_concat(a: Seq<Seq<char>>, b: Seq<Seq<char>>)
    requires
        a.len() > 0,
        b.len() > 0,
    ensures
        spaced(a + b) == spaced(a) + seq![' '] + spaced(b),
    decreases b.len(),
{
    if b.len() == 1 {
        assert((a + b).drop_last() =~= a);
        assert((a + b).last() == b[0]);
    } else {
        lemma_spaced_concat(a, b.drop_last());
        assert((a + b).drop_last() =~= a + b.drop_last());
        assert((a + b).last() == b.last());
        assert(spaced(a + b) =~= spaced(a) + seq![' '] + spaced(b));
    }
}

proof fn lemma_spaced_one(x: Seq<char>, b: Seq<Seq<char>>)
    requires
        b.len() > 0,
    ensures
        spaced(seq![x] + b) == x + seq![' '] + spaced(b),
{
    lemma_spaced_concat(seq![x], b);
}

/// Single-spaced text is its pieces joined by single spaces.
proof fn lemma_single_spaced_pieces(s: Seq<char>)
    requires
        single_spaced(s),
    ensures
        spaced(pieces(Blanks::Spec, s)) == s,
        s.len() > 0 ==> pieces(Blanks::Spec, s).len() > 0,
    decreases s.len(),
{
    if s.len() > 0 {
        crate::pk::lemma_piece_len(Blanks::Spec, s);
        let n = crate::pk::piece_len(Blanks::Spec, s) as int;
        let w = s.take(n);
        let rest = s.skip(n);
        assert(pieces(Blanks::Spec, s) == seq![w] + pieces(Blanks::Spec, rest));
        if n == s.len() {
            assert(rest.len() == 0);
            assert(pieces(Blanks::Spec, rest) =~= Seq::<Seq<char>>::empty());
            assert(seq![w] + Seq::<Seq<char>>::empty() =~= seq![w]);
            assert(w =~= s);
        } else {
            // the piece ends at a single space, followed by more single-spaced text
            assert(s[n] == ' ');
            let more = s.skip(n + 1);
            assert(rest.drop_first() =~= more);
            assert(n + 1 < s.len()) by {
                if n + 1 == s.len() {
                    assert(s.last() == ' ');
                }
            }
            assert(more[0] == s[n + 1]);
            assert(s[n + 1] != ' ') by {
                assert(!(s[n] == ' ' && s[n + 1] == ' '));
            }
            assert(single_spaced(more)) by {
                assert forall|i: int| 0 <= i < more.len() - 1 implies !(more[i] == ' ' && #[trigger] more[i
                    + 1] == ' ') by {
                    assert(more[i] == s[n + 1 + i] && more[i + 1] == s[n + 1 + i + 1]);
                }
                assert(more.last() == s.last());
            }
            assert(pieces(Blanks::Spec, rest) == pieces(Blanks::Spec, more));
            lemma_single_spaced_pieces(more);
            lemma_spaced_one(w, pieces(Blanks::Spec, more));
            assert(w + seq![' '] + more =~= s);
        }
    }
}

/// The token a conditional's head comes from.
pub open spec fn cond_head(n: bool, f: Seq<char>) -> Seq<char> {
    (if n {
        seq!['!']
    } else {
        Seq::empty()
    }) + f + seq!['?']
}

proof fn lemma_cond_token_text(tok: Seq<char>)
    requires
        cond_token(tok) is Some,
    ensures
        cond_head(cond_token(tok).unwrap().0, cond_token(tok).unwrap().1) == tok,
{
    let body = tok.drop_last();
    if body[0] == '!' && valid_use_flag(body.drop_first()) {
        assert(seq!['!'] + body.drop_first() + seq!['?'] =~= tok);
    } else {
        assert(Seq::<char>::empty() + body + seq!['?'] =~= tok);
    }
}

/// Where parsing stops lies within the tokens.
proof fn lemma_more_bounds(k: SetKind, t: Seq<Seq<char>>, i: int)
    requires
        0 <= i <= t.len(),
    ensures
        i <= parse_more(k, t, i).1 <= t.len(),
        parse_more(k, t, i).1 == i ==> parse_more(k, t, i).0.len() == 0,
    decreases t.len() - i,
{
    match parse_item(k, t, i) {
        Some((d, j)) => if i < j <= t.len() {
            lemma_more_bounds(k, t, j);
        },
        None => {},
    }
}

/// A parsed dependency's text is its tokens joined by single spaces.
proof fn lemma_item_text(k: SetKind, t: Seq<Seq<char>>, i: int)
    requires
        parse_item(k, t, i) is Some,
    ensures
        i < parse_item(k, t, i).unwrap().1 <= t.len(),
        dep_text(parse_item(k, t, i).unwrap().0) == spaced(t.subrange(i, parse_item(k, t, i).unwrap().1)),
    decreases t.len() - i, 2int,
{
    let grouped = match opener(k, t[i]) {
        Some(o) => {
            let start = if o is AllOf {
                i
            } else {
                i + 1
            };
            match parse_parens(k, t, start) {
                Some((vs, j)) => Some((make_group(o, vs), j)),
                None => None,
            }
        },
        None => None,
    };
    if grouped is Some {
        lemma_group_text(k, t, i);
    } else {
        lemma_leaf_text(k, t, i);
    }
}

/// The text of a group that parses at token `i` is its tokens joined by
/// single spaces.
#[verifier::rlimit(50)]
proof fn lemma_group_text(k: SetKind, t: Seq<Seq<char>>, i: int)
    requires
        0 <= i < t.len(),
        opener(k, t[i]) is Some,
        parse_parens(
            k,
            t,
            if opener(k, t[i]).unwrap() is AllOf {
                i
            } else {
                i + 1
            },
        ) is Some,
    ensures
        ({
            let o = opener(k, t[i]).unwrap();
            let start = if o is AllOf {
                i
            } else {
                i + 1
            };
            let (vs, j) = parse_parens(k, t, start).unwrap();
            i < j <= t.len() && dep_text(make_group(o, vs)) == spaced(t.subrange(i, j))
        }),
    decreases t.len() - i, 1int,
{
    let o = opener(k, t[i]).unwrap();
    if o is AllOf {
        lemma_parens_text(k, t, i);
        let (vs, j) = parse_parens(k, t, i).unwrap();
        assert(group_text(Seq::empty(), list_text(vs)) =~= seq!['(', ' '] + list_text(vs) + seq![' ', ')']);
    } else {
        lemma_headed_text(k, t, i);
        let (vs, j) = parse_parens(k, t, i + 1).unwrap();
        let body = seq!['(', ' '] + list_text(vs) + seq![' ', ')'];
        assert(dep_text(make_group(o, vs)) == t[i] + seq![' '] + body) by {
            match o {
                Opener::Conditional(n, f) => {
                    lemma_cond_token_text(t[i]);
                    let head = (if n {
                        seq!['!']
                    } else {
                        Seq::empty()
                    }) + f;
                    assert(cond_head(n, f) =~= head + seq!['?']);
                    assert(group_text(head + seq!['?', ' '], list_text(vs)) =~= cond_head(n, f) + seq![' '] + body);
                },
                _ => {
                    assert(group_text(t[i] + seq![' '], list_text(vs)) =~= t[i] + seq![' '] + body);
                },
            }
        }
    }
}

/// A head token followed by a parenthesised group: its tokens joined by
/// single spaces are the head, a space and the group's text.
proof fn lemma_headed_text(k: SetKind, t: Seq<Seq<char>>, i: int)
    requires
        0 <= i < t.len(),
        parse_parens(k, t, i + 1) is Some,
    ensures
        ({
            let (vs, j) = parse_parens(k, t, i + 1).unwrap();
            i + 1 < j <= t.len() && spaced(t.subrange(i, j)) == t[i] + seq![' '] + (seq!['(', ' ']
                + list_text(vs) + seq![' ', ')'])
        }),
    decreases t.len() - i, 0int,
{
    lemma_parens_text(k, t, i + 1);
    let (vs, j) = parse_parens(k, t, i + 1).unwrap();
    let inner = t.subrange(i + 1, j);
    assert(t.subrange(i, j) =~= seq![t[i]] + inner);
    lemma_spaced_one(t[i], inner);
}

/// A leaf's text is its tokens joined by single spaces.
proof fn lemma_leaf_text(k: SetKind, t: Seq<Seq<char>>, i: int)
    requires
        0 <= i < t.len(),
        parse_leaf(k, t, i) is Some,
    ensures
        i < parse_leaf(k, t, i).unwrap().1 <= t.len(),
        dep_text(parse_leaf(k, t, i).unwrap().0) == spaced(t.subrange(i, parse_leaf(k, t, i).unwrap().1)),
{
    match k {
        SetKind::SrcUri => lemma_uri_text(t, i),
        SetKind::Package(r) => lemma_package_text(r, t, i),
        _ => lemma_name_text(k, t, i),
    }
}

proof fn lemma_name_text(k: SetKind, t: Seq<Seq<char>>, i: int)
    requires
        0 <= i < t.len(),
        !(k is SrcUri),
        !(k is Package),
        parse_leaf(k, t, i) is Some,
    ensures
        parse_leaf(k, t, i).unwrap().1 == i + 1,
        dep_text(parse_leaf(k, t, i).unwrap().0) == spaced(t.subrange(i, i + 1)),
{
    if k is RequiredUse && t[i].len() > 0 && t[i][0] == '!' && valid_use_flag(t[i].drop_first()) {
        assert(seq!['!'] + t[i].drop_first() =~= t[i]);
    }
    assert(t.subrange(i, i + 1) =~= seq![t[i]]);
}

proof fn lemma_package_text(r: bool, t: Seq<Seq<char>>, i: int)
    requires
        0 <= i < t.len(),
        parse_leaf(SetKind::Package(r), t, i) is Some,
    ensures
        parse_leaf(SetKind::Package(r), t, i).unwrap().1 == i + 1,
        dep_text(parse_leaf(SetKind::Package(r), t, i).unwrap().0) == spaced(t.subrange(i, i + 1)),
{
    crate::dep::lemma_dep_roundtrip(t[i], r);
    assert(t.subrange(i, i + 1) =~= seq![t[i]]);
}

proof fn lemma_uri_text(t: Seq<Seq<char>>, i: int)
    requires
        0 <= i < t.len(),
        parse_leaf(SetKind::SrcUri, t, i) is Some,
    ensures
        i < parse_leaf(SetKind::SrcUri, t, i).unwrap().1 <= t.len(),
        dep_text(parse_leaf(SetKind::SrcUri, t, i).unwrap().0) == spaced(
            t.subrange(i, parse_leaf(SetKind::SrcUri, t, i).unwrap().1),
        ),
{
    let j = parse_leaf(SetKind::SrcUri, t, i).unwrap().1;
    if j == i + 3 {
        let a = t[i];
        let b = t[i + 1];
        let c = t[i + 2];
        let three = seq![a, b, c];
        assert(t.subrange(i, j) =~= three);
        assert(three.drop_last() =~= seq![a, b]);
        assert(seq![a, b].drop_last() =~= seq![a]);
        assert(spaced(seq![a]) == a);
        assert(spaced(seq![a, b]) == a + seq![' '] + b);
        assert(spaced(three) == spaced(seq![a, b]) + seq![' '] + c);
        assert(b == seq!['-', '>']);
        assert(a + seq![' ', '-', '>', ' '] + c =~= a + seq![' '] + b + seq![' '] + c);
    } else {
        assert(t.subrange(i, j) =~= seq![t[i]]);
    }
}

/// The text of a parenthesised group's contents, with its parentheses, is
/// its tokens joined by single spaces.
#[verifier::rlimit(40)]
proof fn lemma_parens_text(k: SetKind, t: Seq<Seq<char>>, i: int)
    requires
        parse_parens(k, t, i) is Some,
    ensures
        i < parse_parens(k, t, i).unwrap().1 <= t.len(),
        seq!['(', ' '] + list_text(parse_parens(k, t, i).unwrap().0) + seq![' ', ')'] == spaced(
            t.subrange(i, parse_parens(k, t, i).unwrap().1),
        ),
        parse_parens(k, t, i).unwrap().0.len() > 0,
    decreases t.len() - i, 0int,
{
    let (d, j) = parse_item(k, t, i + 1).unwrap();
    lemma_item_text(k, t, i + 1);
    let (rest, e) = parse_more(k, t, j);
    lemma_more_text(k, t, j);
    lemma_more_bounds(k, t, j);
    let vs = seq![d] + rest;
    // the contents' text
    assert(list_text(vs) == spaced(t.subrange(i + 1, e))) by {
        if rest.len() == 0 {
            assert(vs =~= seq![d]);
            assert(t.subrange(i + 1, e) =~= t.subrange(i + 1, j));
        } else {
            lemma_list_text_concat(seq![d], rest);
            assert(t.subrange(i + 1, e) =~= t.subrange(i + 1, j) + t.subrange(j, e));
            lemma_spaced_concat(t.subrange(i + 1, j), t.subrange(j, e));
        }
    }
    assert(t.subrange(i, e + 1) =~= seq![t[i]] + (t.subrange(i + 1, e) + seq![t[e]]));
    lemma_spaced_concat(t.subrange(i + 1, e), seq![t[e]]);
    lemma_spaced_one(t[i], t.subrange(i + 1, e) + seq![t[e]]);
    assert(seq!['(', ' '] + list_text(vs) + seq![' ', ')'] =~= t[i] + seq![' '] + (spaced(t.subrange(i + 1, e)) + seq![' '] + t[e]));
}

/// The text of the dependencies that follow one another from token `i` is
/// their tokens joined by single spaces.
proof fn lemma_more_text(k: SetKind, t: Seq<Seq<char>>, i: int)
    requires
        0 <= i <= t.len(),
    ensures
        list_text(parse_more(k, t, i).0) == spaced(t.subrange(i, parse_more(k, t, i).1)),
    decreases t.len() - i, 3int,
{
    lemma_more_bounds(k, t, i);
    match parse_item(k, t, i) {
        Some((d, j)) => if i < j <= t.len() {
            lemma_item_text(k, t, i);
            lemma_more_text(k, t, j);
            lemma_more_bounds(k, t, j);
            let (rest, e) = parse_more(k, t, j);
            if rest.len() == 0 {
                assert(seq![d] + rest =~= seq![d]);
                assert(t.subrange(i, e) =~= t.subrange(i, j));
            } else {
                lemma_list_text_concat(seq![d], rest);
                assert(t.subrange(i, e) =~= t.subrange(i, j) + t.subrange(j, e));
                lemma_spaced_concat(t.subrange(i, j), t.subrange(j, e));
            }
        } else {
            assert(t.subrange(i, i) =~= Seq::<Seq<char>>::empty());
        },
        None => {
            assert(t.subrange(i, i) =~= Seq::<Seq<char>>::empty());
        },
    }
}

proof fn lemma_list_text_concat(a: Seq<DepV>, b: Seq<DepV>)
    requires
        a.len() > 0,
        b.len() > 0,
    ensures
        list_text(a + b) == list_text(a) + seq![' '] + list_text(b),
    decreases b.len(),
{
    if b.len() == 1 {
        assert((a + b).drop_last() =~= a);
        assert((a + b).last() == b[0]);
    } else {
        lemma_list_text_concat(a, b.drop_last());
        assert((a + b).drop_last() =~= a + b.drop_last());
        assert((a + b).last() == b.last());
        assert(list_text(a + b) =~= list_text(a) + seq![' '] + list_text(b));
    }
}

/// Parsing a single-spaced specification and writing out what it lists
/// gives back the same text.
pub proof fn lemma_list_roundtrip(k: SetKind, s: Seq<char>)
    requires
        single_spaced(s),
        parse_list(k, s) is Some,
    ensures
        list_text(parse_list(k, s).unwrap()) == s,
{
    let t = pieces(Blanks::Spec, s);
    lemma_single_spaced_pieces(s);
    lemma_more_text(k, t, 0);
    assert(t.subrange(0, t.len() as int) =~= t);
}

/// A set written out gives back its single-spaced specification when no
/// tree is repeated in it.
pub proof fn lemma_set_roundtrip(k: SetKind, s: Seq<char>)
    requires
        single_spaced(s),
        parse_list(k, s) is Some,
        first_occurrences(parse_list(k, s).unwrap()) == parse_list(k, s).unwrap(),
    ensures
        list_text(first_occurrences(parse_list(k, s).unwrap())) == s,
{
    lemma_list_roundtrip(k, s);
}

// ---------------------------------------------------------------------------
// single dependencies

/// Parse a specification holding exactly one dependency of the given kind.
pub fn parse_dependency(kind: SetKind, s: &str) -> (r: Result<Dependency, DepSetError>)
    ensures
        match r {
            Ok(d) => parse_one(kind, s@) == Some(dep_view(d)),
            Err(e) => parse_one(kind, s@) is None && e == DepSetError::Invalid(kind),
        },
{
    let tokens = split_on(s, Blanks::Spec);
    if !trimmed_text(s) {
        return Err(DepSetError::Invalid(kind));
    }
    match read_item(kind, &tokens, 0) {
        Some((d, j)) => if j == tokens.len() {
            Ok(d)
        } else {
            Err(DepSetError::Invalid(kind))
        },
        None => Err(DepSetError::Invalid(kind)),
    }
}

/// One LICENSE dependency.
pub fn license_dependency(s: &str) -> (r: Result<Dependency, DepSetError>)
    ensures
        match r {
            Ok(d) => parse_one(SetKind::License, s@) == Some(dep_view(d)),
            Err(_) => parse_one(SetKind::License, s@) is None,
        },
{
    parse_dependency(SetKind::License, s)
}

/// One PROPERTIES dependency.
pub fn properties_dependency(s: &str) -> (r: Result<Dependency, DepSetError>)
    ensures
        match r {
            Ok(d) => parse_one(SetKind::Properties, s@) == Some(dep_view(d)),
            Err(_) => parse_one(SetKind::Properties, s@) is None,
        },
{
    parse_dependency(SetKind::Properties, s)
}

/// One REQUIRED_USE dependency.
pub fn required_use_dependency(s: &str) -> (r: Result<Dependency, DepSetError>)
    ensures
        match r {
            Ok(d) => parse_one(SetKind::RequiredUse, s@) == Some(dep_view(d)),
            Err(_) => parse_one(SetKind::RequiredUse, s@) is None,
        },
{
    parse_dependency(SetKind::RequiredUse, s)
}

/// One RESTRICT dependency.
pub fn restrict_dependency(s: &str) -> (r: Result<Dependency, DepSetError>)
    ensures
        match r {
            Ok(d) => parse_one(SetKind::Restrict, s@) == Some(dep_view(d)),
            Err(_) => parse_one(SetKind::Restrict, s@) is None,
        },
{
    parse_dependency(SetKind::Restrict, s)
}

/// One SRC_URI dependency.
pub fn src_uri_dependency(s: &str) -> (r: Result<Dependency, DepSetError>)
    ensures
        match r {
            Ok(d) => parse_one(SetKind::SrcUri, s@) == Some(dep_view(d)),
            Err(_) => parse_one(SetKind::SrcUri, s@) is None,
        },
{
    parse_dependency(SetKind::SrcUri, s)
}

/// One package dependency; `repo_deps` allows `::repo`.
pub fn package_dependency(s: &str, repo_deps: bool) -> (r: Result<Dependency, DepSetError>)
    ensures
        match r {
            Ok(d) => parse_one(SetKind::Package(repo_deps), s@) == Some(dep_view(d)),
            Err(_) => parse_one(SetKind::Package(repo_deps), s@) is None,
        },
{
    parse_dependency(SetKind::Package(repo_deps), s)
}

/// A whole LICENSE specification.
pub fn license_dependency_set(s: &str) -> (r: Result<DependencySet, DepSetError>)
    ensures
        match r {
            Ok(set) => parse_list(SetKind::License, s@) is Some && set.values() == first_occurrences(
                parse_list(SetKind::License, s@).unwrap(),
            ) && set.wf(),
            Err(e) => parse_list(SetKind::License, s@) is None && e == DepSetError::Invalid(
                SetKind::License,
            ),
        },
{
    DependencySet::parse(SetKind::License, s)
}

/// A whole PROPERTIES specification.
pub fn properties_dependency_set(s: &str) -> (r: Result<DependencySet, DepSetError>)
    ensures
        match r {
            Ok(set) => parse_list(SetKind::Properties, s@) is Some && set.values() == first_occurrences(
                parse_list(SetKind::Properties, s@).unwrap(),
            ) && set.wf(),
            Err(e) => parse_list(SetKind::Properties, s@) is None && e == DepSetError::Invalid(
                SetKind::Properties,
            ),
        },
{
    DependencySet::parse(SetKind::Properties, s)
}

/// A whole REQUIRED_USE specification.
pub fn required_use_dependency_set(s: &str) -> (r: Result<DependencySet, DepSetError>)
    ensures
        match r {
            Ok(set) => parse_list(SetKind::RequiredUse, s@) is Some && set.values() == first_occurrences(
                parse_list(SetKind::RequiredUse, s@).unwrap(),
            ) && set.wf(),
            Err(e) => parse_list(SetKind::RequiredUse, s@) is None && e == DepSetError::Invalid(
                SetKind::RequiredUse,
            ),
        },
{
    DependencySet::parse(SetKind::RequiredUse, s)
}

/// A whole RESTRICT specification.
pub fn restrict_dependency_set(s: &str) -> (r: Result<DependencySet, DepSetError>)
    ensures
        match r {
            Ok(set) => parse_list(SetKind::Restrict, s@) is Some && set.values() == first_occurrences(
                parse_list(SetKind::Restrict, s@).unwrap(),
            ) && set.wf(),
            Err(e) => parse_list(SetKind::Restrict, s@) is None && e == DepSetError::Invalid(
                SetKind::Restrict,
            ),
        },
{
    DependencySet::parse(SetKind::Restrict, s)
}

/// A whole SRC_URI specification.
pub fn src_uri_dependency_set(s: &str) -> (r: Result<DependencySet, DepSetError>)
    ensures
        match r {
            Ok(set) => parse_list(SetKind::SrcUri, s@) is Some && set.values() == first_occurrences(
                parse_list(SetKind::SrcUri, s@).unwrap(),
            ) && set.wf(),
            Err(e) => parse_list(SetKind::SrcUri, s@) is None && e == DepSetError::Invalid(
                SetKind::SrcUri,
            ),
        },
{
    DependencySet::parse(SetKind::SrcUri, s)
}

/// A whole package dependency specification; `repo_deps` allows `::repo`.
pub fn package_dependency_set(s: &str, repo_deps: bool) -> (r: Result<DependencySet, DepSetError>)
    ensures
        match r {
            Ok(set) => parse_list(SetKind::Package(repo_deps), s@) is Some && set.values() == first_occurrences(
                parse_list(SetKind::Package(repo_deps), s@).unwrap(),
            ) && set.wf(),
            Err(e) => parse_list(SetKind::Package(repo_deps), s@) is None && e == DepSetError::Invalid(
                SetKind::Package(repo_deps),
            ),
        },
{
    DependencySet::parse(SetKind::Package(repo_deps), s)
}

// ---------------------------------------------------------------------------
// walking trees

/// The leaves of a tree, as text, in order: a disabled flag counts as its
/// flag.
pub open spec fn flat_text(d: DepV) -> Seq<Seq<char>>
    decreases d,
{
    match d {
        DepV::Enabled(l) => seq![leaf_text(l)],
        DepV::Disabled(f) => seq![f],
        DepV::AllOf(vs) => flat_list(vs),
        DepV::AnyOf(vs) => flat_list(vs),
        DepV::ExactlyOneOf(vs) => flat_list(vs),
        DepV::AtMostOneOf(vs) => flat_list(vs),
        DepV::Conditional(_, _, vs) => flat_list(vs),
    }
}

/// The leaves of trees, in order.
pub open spec fn flat_list(vs: Seq<DepV>) -> Seq<Seq<char>>
    decreases vs,
{
    if vs.len() == 0 {
        Seq::empty()
    } else {
        flat_list(vs.drop_last()) + flat_text(vs.last())
    }
}

/// The trees within a tree, itself first, in pre-order.
pub open spec fn subtrees(d: DepV) -> Seq<DepV>
    decreases d,
{
    seq![d] + match d {
        DepV::AllOf(vs) => subtree_list(vs),
        DepV::AnyOf(vs) => subtree_list(vs),
        DepV::ExactlyOneOf(vs) => subtree_list(vs),
        DepV::AtMostOneOf(vs) => subtree_list(vs),
        DepV::Conditional(_, _, vs) => subtree_list(vs),
        _ => Seq::empty(),
    }
}

/// The trees within trees, in pre-order.
pub open spec fn subtree_list(vs: Seq<DepV>) -> Seq<DepV>
    decreases vs,
{
    if vs.len() == 0 {
        Seq::empty()
    } else {
        subtree_list(vs.drop_last()) + subtrees(vs.last())
    }
}

/// The USE dependency a conditional stands on: `flag?` or `!flag?`.
pub open spec fn cond_use(n: bool, f: Seq<char>) -> UseDepView {
    UseDepView {
        kind: if n {
            UseDepKind::DisabledConditional
        } else {
            UseDepKind::EnabledConditional
        },
        flag: f,
        default: None,
    }
}

/// The conditionals of a tree, in pre-order.
pub open spec fn conditionals(d: DepV) -> Seq<UseDepView>
    decreases d,
{
    match d {
        DepV::Conditional(n, f, vs) => seq![cond_use(n, f)] + conditional_list(vs),
        DepV::AllOf(vs) => conditional_list(vs),
        DepV::AnyOf(vs) => conditional_list(vs),
        DepV::ExactlyOneOf(vs) => conditional_list(vs),
        DepV::AtMostOneOf(vs) => conditional_list(vs),
        _ => Seq::empty(),
    }
}

/// The conditionals of trees, in pre-order.
pub open spec fn conditional_list(vs: Seq<DepV>) -> Seq<UseDepView>
    decreases vs,
{
    if vs.len() == 0 {
        Seq::empty()
    } else {
        conditional_list(vs.drop_last()) + conditionals(vs.last())
    }
}

/// The leaves of a tree with the conditionals they sit under, outermost
/// first, after those of the tree's own context.
pub open spec fn guarded_leaves(d: DepV, ctx: Seq<UseDepView>) -> Seq<(Seq<UseDepView>, Seq<char>)>
    decreases d,
{
    match d {
        DepV::Enabled(l) => seq![(ctx, leaf_text(l))],
        DepV::Disabled(f) => seq![(ctx, f)],
        DepV::AllOf(vs) => guarded_list(vs, ctx),
        DepV::AnyOf(vs) => guarded_list(vs, ctx),
        DepV::ExactlyOneOf(vs) => guarded_list(vs, ctx),
        DepV::AtMostOneOf(vs) => guarded_list(vs, ctx),
        DepV::Conditional(n, f, vs) => guarded_list(vs, ctx.push(cond_use(n, f))),
    }
}

/// The guarded leaves of trees, in order.
pub open spec fn guarded_list(vs: Seq<DepV>, ctx: Seq<UseDepView>) -> Seq<(Seq<UseDepView>, Seq<char>)>
    decreases vs,
{
    if vs.len() == 0 {
        Seq::empty()
    } else {
        guarded_list(vs.drop_last(), ctx) + guarded_leaves(vs.last(), ctx)
    }
}

/// Add a tree's leaves, as text, to a list.
fn push_leaves(out: &mut Vec<String>, d: &Dependency)
    ensures
        views(final(out)@) == views(old(out)@) + flat_text(dep_view(*d)),
    decreases d, 1int,
{
    match d {
        Dependency::Enabled(l) => {
            let mut t = String::new();
            write_leaf(&mut t, l);
            assert(t@ =~= leaf_text(leaf_view(*l)));
            out.push(t);
            assert(views(out@) =~= views(old(out)@) + flat_text(dep_view(*d)));
        },
        Dependency::Disabled(f) => {
            out.push(f.clone());
            assert(views(out@) =~= views(old(out)@) + flat_text(dep_view(*d)));
        },
        Dependency::AllOf(vs) => push_leaves_list(out, vs),
        Dependency::AnyOf(vs) => push_leaves_list(out, vs),
        Dependency::ExactlyOneOf(vs) => push_leaves_list(out, vs),
        Dependency::AtMostOneOf(vs) => push_leaves_list(out, vs),
        Dependency::Conditional(_, _, vs) => push_leaves_list(out, vs),
    }
}

/// Add the leaves of trees, as text, to a list.
fn push_leaves_list(out: &mut Vec<String>, vs: &Vec<Dependency>)
    ensures
        views(final(out)@) == views(old(out)@) + flat_list(deps_view(vs@)),
    decreases vs, 0int,
{
    proof {
        lemma_deps_view_len(vs@);
    }
    let ghost start = views(out@);
    let mut i: usize = 0;
    assert(deps_view(vs@).take(0) =~= Seq::<DepV>::empty());
    assert(start + Seq::<Seq<char>>::empty() =~= start);
    while i < vs.len()
        invariant
            i <= vs@.len(),
            deps_view(vs@).len() == vs@.len(),
            forall|k: int| 0 <= k < vs@.len() ==> #[trigger] deps_view(vs@)[k] == dep_view(vs@[k]),
            views(out@) == start + flat_list(deps_view(vs@).take(i as int)),
        decreases vs@.len() - i,
    {
        let ghost dv = deps_view(vs@);
        assert(dv.take(i + 1).drop_last() =~= dv.take(i as int));
        assert(dv.take(i + 1).last() == dep_view(vs@[i as int]));
        assert(decreases_to!(vs => vs@[i as int]));
        push_leaves(out, &vs[i]);
        assert(views(out@) =~= start + flat_list(dv.take(i + 1)));
        i = i + 1;
    }
    assert(deps_view(vs@).take(vs@.len() as int) =~= deps_view(vs@));
}

/// Add the conditionals of a tree to a list.
fn push_conditionals(out: &mut Vec<UseDep>, d: &Dependency)
    ensures
        final(out)@.map_values(|u: UseDep| u@) == old(out)@.map_values(|u: UseDep| u@) + conditionals(
            dep_view(*d),
        ),
    decreases d, 1int,
{
    match d {
        Dependency::Conditional(n, f, vs) => {
            let kind = if *n {
                UseDepKind::DisabledConditional
            } else {
                UseDepKind::EnabledConditional
            };
            let ghost before = out@.map_values(|u: UseDep| u@);
            out.push(UseDep { kind, flag: f.clone(), default: None });
            assert(out@.map_values(|u: UseDep| u@) =~= before.push(cond_use(*n, f@)));
            push_conditionals_list(out, vs);
            assert(out@.map_values(|u: UseDep| u@) =~= before + conditionals(dep_view(*d)));
        },
        Dependency::AllOf(vs) => push_conditionals_list(out, vs),
        Dependency::AnyOf(vs) => push_conditionals_list(out, vs),
        Dependency::ExactlyOneOf(vs) => push_conditionals_list(out, vs),
        Dependency::AtMostOneOf(vs) => push_conditionals_list(out, vs),
        _ => {
            assert(out@.map_values(|u: UseDep| u@) =~= old(out)@.map_values(|u: UseDep| u@)
                + conditionals(dep_view(*d)));
        },
    }
}

/// Add the conditionals of trees to a list.
fn push_conditionals_list(out: &mut Vec<UseDep>, vs: &Vec<Dependency>)
    ensures
        final(out)@.map_values(|u: UseDep| u@) == old(out)@.map_values(|u: UseDep| u@)
            + conditional_list(deps_view(vs@)),
    decreases vs, 0int,
{
    proof {
        lemma_deps_view_len(vs@);
    }
    let ghost start = out@.map_values(|u: UseDep| u@);
    let mut i: usize = 0;
    assert(deps_view(vs@).take(0) =~= Seq::<DepV>::empty());
    assert(start + Seq::<UseDepView>::empty() =~= start);
    while i < vs.len()
        invariant
            i <= vs@.len(),
            deps_view(vs@).len() == vs@.len(),
            forall|k: int| 0 <= k < vs@.len() ==> #[trigger] deps_view(vs@)[k] == dep_view(vs@[k]),
            out@.map_values(|u: UseDep| u@) == start + conditional_list(deps_view(vs@).take(i as int)),
        decreases vs@.len() - i,
    {
        let ghost dv = deps_view(vs@);
        assert(dv.take(i + 1).drop_last() =~= dv.take(i as int));
        assert(dv.take(i + 1).last() == dep_view(vs@[i as int]));
        assert(decreases_to!(vs => vs@[i as int]));
        push_conditionals(out, &vs[i]);
        assert(out@.map_values(|u: UseDep| u@) =~= start + conditional_list(dv.take(i + 1)));
        i = i + 1;
    }
    assert(deps_view(vs@).take(vs@.len() as int) =~= deps_view(vs@));
}

impl DependencySet {
    /// The leaves of the set's trees, as text, in order.
    pub fn iter_flatten(&self) -> (r: Vec<String>)
        ensures
            views(r@) == flat_list(self.values()),
    {
        let mut out: Vec<String> = Vec::new();
        assert(views(out@) =~= Seq::<Seq<char>>::empty());
        push_leaves_list(&mut out, &self.items);
        assert(views(out@) =~= flat_list(self.values()));
        out
    }

    /// The conditionals of the set's trees, in pre-order.
    pub fn iter_conditionals(&self) -> (r: Vec<UseDep>)
        ensures
            r@.map_values(|u: UseDep| u@) == conditional_list(self.values()),
    {
        let mut out: Vec<UseDep> = Vec::new();
        assert(out@.map_values(|u: UseDep| u@) =~= Seq::<UseDepView>::empty());
        push_conditionals_list(&mut out, &self.items);
        assert(out@.map_values(|u: UseDep| u@) =~= conditional_list(self.values()));
        out
    }

    /// Whether a leaf of the set has the given text.
    pub fn contains_text(&self, s: &str) -> (r: bool)
        ensures
            r == flat_list(self.values()).contains(s@),
    {
        let leaves = self.iter_flatten();
        let target = String::from_str(s);
        assert(views(leaves@).skip(0) =~= views(leaves@));
        crate::builtins::contains_str(&leaves, 0, &target)
    }

    /// Whether the set holds the conditional `u` anywhere.
    pub fn contains_conditional(&self, u: &UseDep) -> (r: bool)
        ensures
            r == conditional_list(self.values()).contains(u@),
    {
        let conds = self.iter_conditionals();
        let mut i: usize = 0;
        while i < conds.len()
            invariant
                i <= conds@.len(),
                conds@.map_values(|x: UseDep| x@) == conditional_list(self.values()),
                forall|k: int| 0 <= k < i ==> conds@[k]@ != u@,
            decreases conds@.len() - i,
        {
            if conds[i].same(u) {
                assert(conds@.map_values(|x: UseDep| x@)[i as int] == u@);
                return true;
            }
            i = i + 1;
        }
        proof {
            if conditional_list(self.values()).contains(u@) {
                let k = choose|k: int| 0 <= k < conditional_list(self.values()).len() && conditional_list(self.values())[k] == u@;
                assert(conds@.map_values(|x: UseDep| x@)[k] == conds@[k]@);
            }
        }
        false
    }
}

/// The values of a list of tree references.
pub open spec fn ref_views<'a>(v: Seq<&'a Dependency>) -> Seq<DepV> {
    v.map_values(|x: &'a Dependency| dep_view(*x))
}

/// Add a tree and the trees within it, in pre-order.
fn push_subtrees<'a>(out: &mut Vec<&'a Dependency>, d: &'a Dependency)
    ensures
        ref_views(final(out)@) == ref_views(old(out)@) + subtrees(dep_view(*d)),
    decreases d, 1int,
{
    let ghost before = ref_views(out@);
    out.push(d);
    assert(ref_views(out@) =~= before.push(dep_view(*d)));
    match d {
        Dependency::AllOf(vs) => push_subtree_list(out, vs),
        Dependency::AnyOf(vs) => push_subtree_list(out, vs),
        Dependency::ExactlyOneOf(vs) => push_subtree_list(out, vs),
        Dependency::AtMostOneOf(vs) => push_subtree_list(out, vs),
        Dependency::Conditional(_, _, vs) => push_subtree_list(out, vs),
        _ => {},
    }
    assert(ref_views(out@) =~= before + subtrees(dep_view(*d)));
}

/// Add the trees within trees, in pre-order.
fn push_subtree_list<'a>(out: &mut Vec<&'a Dependency>, vs: &'a Vec<Dependency>)
    ensures
        ref_views(final(out)@) == ref_views(old(out)@) + subtree_list(deps_view(vs@)),
    decreases vs, 0int,
{
    proof {
        lemma_deps_view_len(vs@);
    }
    let ghost start = ref_views(out@);
    let mut i: usize = 0;
    assert(deps_view(vs@).take(0) =~= Seq::<DepV>::empty());
    assert(start + Seq::<DepV>::empty() =~= start);
    while i < vs.len()
        invariant
            i <= vs@.len(),
            deps_view(vs@).len() == vs@.len(),
            forall|k: int| 0 <= k < vs@.len() ==> #[trigger] deps_view(vs@)[k] == dep_view(vs@[k]),
            ref_views(out@) == start + subtree_list(deps_view(vs@).take(i as int)),
        decreases vs@.len() - i,
    {
        let ghost dv = deps_view(vs@);
        assert(dv.take(i + 1).drop_last() =~= dv.take(i as int));
        assert(dv.take(i + 1).last() == dep_view(vs@[i as int]));
        assert(decreases_to!(vs => vs@[i as int]));
        push_subtrees(out, &vs[i]);
        assert(ref_views(out@) =~= start + subtree_list(dv.take(i + 1)));
        i = i + 1;
    }
    assert(deps_view(vs@).take(vs@.len() as int) =~= deps_view(vs@));
}

/// A copy of a list of USE dependencies.
fn copy_uses(v: &Vec<UseDep>) -> (r: Vec<UseDep>)
    ensures
        r@.map_values(|u: UseDep| u@) == v@.map_values(|u: UseDep| u@),
{
    let mut out: Vec<UseDep> = Vec::new();
    let mut i: usize = 0;
    while i < v.len()
        invariant
            i <= v@.len(),
            out@.len() == i,
            forall|k: int| 0 <= k < i ==> #[trigger] out@[k]@ == v@[k]@,
        decreases v@.len() - i,
    {
        out.push(UseDep { kind: v[i].kind, flag: v[i].flag.clone(), default: v[i].default });
        i = i + 1;
    }
    assert(out@.map_values(|u: UseDep| u@) =~= v@.map_values(|u: UseDep| u@));
    out
}

/// The values of guarded leaves.
pub open spec fn guarded_views(v: Seq<(Vec<UseDep>, String)>) -> Seq<(Seq<UseDepView>, Seq<char>)> {
    v.map_values(|x: (Vec<UseDep>, String)| (x.0@.map_values(|u: UseDep| u@), x.1@))
}

/// Add a tree's leaves with the conditionals they sit under.
fn push_guarded(out: &mut Vec<(Vec<UseDep>, String)>, d: &Dependency, ctx: &Vec<UseDep>)
    ensures
        guarded_views(final(out)@) == guarded_views(old(out)@) + guarded_leaves(
            dep_view(*d),
            ctx@.map_values(|u: UseDep| u@),
        ),
    decreases d, 1int,
{
    let ghost c = ctx@.map_values(|u: UseDep| u@);
    let ghost before = guarded_views(out@);
    match d {
        Dependency::Enabled(l) => {
            let mut t = String::new();
            write_leaf(&mut t, l);
            assert(t@ =~= leaf_text(leaf_view(*l)));
            out.push((copy_uses(ctx), t));
            assert(guarded_views(out@) =~= before + guarded_leaves(dep_view(*d), c));
        },
        Dependency::Disabled(f) => {
            out.push((copy_uses(ctx), f.clone()));
            assert(guarded_views(out@) =~= before + guarded_leaves(dep_view(*d), c));
        },
        Dependency::AllOf(vs) => push_guarded_list(out, vs, ctx),
        Dependency::AnyOf(vs) => push_guarded_list(out, vs, ctx),
        Dependency::ExactlyOneOf(vs) => push_guarded_list(out, vs, ctx),
        Dependency::AtMostOneOf(vs) => push_guarded_list(out, vs, ctx),
        Dependency::Conditional(n, f, vs) => {
            let mut inner = copy_uses(ctx);
            let kind = if *n {
                UseDepKind::DisabledConditional
            } else {
                UseDepKind::EnabledConditional
            };
            inner.push(UseDep { kind, flag: f.clone(), default: None });
            assert(inner@.map_values(|u: UseDep| u@) =~= c.push(cond_use(*n, f@)));
            push_guarded_list(out, vs, &inner);
        },
    }
}

/// Add the leaves of trees with the conditionals they sit under.
fn push_guarded_list(out: &mut Vec<(Vec<UseDep>, String)>, vs: &Vec<Dependency>, ctx: &Vec<UseDep>)
    ensures
        guarded_views(final(out)@) == guarded_views(old(out)@) + guarded_list(
            deps_view(vs@),
            ctx@.map_values(|u: UseDep| u@),
        ),
    decreases vs, 0int,
{
    proof {
        lemma_deps_view_len(vs@);
    }
    let ghost c = ctx@.map_values(|u: UseDep| u@);
    let ghost start = guarded_views(out@);
    let mut i: usize = 0;
    assert(deps_view(vs@).take(0) =~= Seq::<DepV>::empty());
    assert(start + Seq::<(Seq<UseDepView>, Seq<char>)>::empty() =~= start);
    while i < vs.len()
        invariant
            i <= vs@.len(),
            c == ctx@.map_values(|u: UseDep| u@),
            deps_view(vs@).len() == vs@.len(),
            forall|k: int| 0 <= k < vs@.len() ==> #[trigger] deps_view(vs@)[k] == dep_view(vs@[k]),
            guarded_views(out@) == start + guarded_list(deps_view(vs@).take(i as int), c),
        decreases vs@.len() - i,
    {
        let ghost dv = deps_view(vs@);
        assert(dv.take(i + 1).drop_last() =~= dv.take(i as int));
        assert(dv.take(i + 1).last() == dep_view(vs@[i as int]));
        assert(decreases_to!(vs => vs@[i as int]));
        push_guarded(out, &vs[i], ctx);
        assert(guarded_views(out@) =~= start + guarded_list(dv.take(i + 1), c));
        i = i + 1;
    }
    assert(deps_view(vs@).take(vs@.len() as int) =~= deps_view(vs@));
}

impl DependencySet {
    /// The set's trees, in order.
    pub fn iter(&self) -> (r: Vec<&Dependency>)
        ensures
            ref_views(r@) == self.values(),
    {
        proof {
            lemma_deps_view_len(self.items@);
        }
        let mut out: Vec<&Dependency> = Vec::new();
        let mut i: usize = 0;
        while i < self.items.len()
            invariant
                i <= self.items@.len(),
                deps_view(self.items@).len() == self.items@.len(),
                forall|k: int| 0 <= k < self.items@.len() ==> #[trigger] deps_view(self.items@)[k]
                    == dep_view(self.items@[k]),
                ref_views(out@) == deps_view(self.items@).take(i as int),
            decreases self.items@.len() - i,
        {
            let ghost before = ref_views(out@);
            let item = &self.items[i];
            out.push(item);
            assert(ref_views(out@) =~= before.push(dep_view(*item)));
            assert(deps_view(self.items@).take(i + 1) =~= deps_view(self.items@).take(i as int).push(
                deps_view(self.items@)[i as int],
            ));
            i = i + 1;
        }
        assert(deps_view(self.items@).take(self.items@.len() as int) =~= deps_view(self.items@));
        out
    }

    /// The set's trees and the trees within them, in pre-order.
    pub fn iter_recursive(&self) -> (r: Vec<&Dependency>)
        ensures
            ref_views(r@) == subtree_list(self.values()),
    {
        let mut out: Vec<&Dependency> = Vec::new();
        assert(ref_views(out@) =~= Seq::<DepV>::empty());
        push_subtree_list(&mut out, &self.items);
        assert(ref_views(out@) =~= subtree_list(self.values()));
        out
    }

    /// The leaves of the set's trees, as text, each with the conditionals
    /// it sits under, outermost first.
    pub fn iter_conditional_flatten(&self) -> (r: Vec<(Vec<UseDep>, String)>)
        ensures
            guarded_views(r@) == guarded_list(self.values(), Seq::empty()),
    {
        let mut out: Vec<(Vec<UseDep>, String)> = Vec::new();
        let ctx: Vec<UseDep> = Vec::new();
        assert(guarded_views(out@) =~= Seq::<(Seq<UseDepView>, Seq<char>)>::empty());
        assert(ctx@.map_values(|u: UseDep| u@) =~= Seq::<UseDepView>::empty());
        push_guarded_list(&mut out, &self.items, &ctx);
        assert(guarded_views(out@) =~= guarded_list(self.values(), Seq::empty()));
        out
    }

    /// Whether the set holds a tree the same as `d`, at any depth.
    pub fn contains(&self, d: &Dependency) -> (r: bool)
        ensures
            r == subtree_list(self.values()).contains(dep_view(*d)),
    {
        let all = self.iter_recursive();
        let mut i: usize = 0;
        while i < all.len()
            invariant
                i <= all@.len(),
                ref_views(all@) == subtree_list(self.values()),
                forall|k: int| 0 <= k < i ==> dep_view(*all@[k]) != dep_view(*d),
            decreases all@.len() - i,
        {
            if same_dep(all[i], d) {
                assert(ref_views(all@)[i as int] == dep_view(*d));
                return true;
            }
            i = i + 1;
        }
        proof {
            if subtree_list(self.values()).contains(dep_view(*d)) {
                let k = choose|k: int| 0 <= k < ref_views(all@).len() && ref_views(all@)[k] == dep_view(*d);
                assert(ref_views(all@)[k] == dep_view(*all@[k]));
            }
        }
        false
    }
}

// ---------------------------------------------------------------------------
// order

/// Leaves sort by kind, then names by text, packages by dependency order and
/// URIs by text and rename.
pub open spec fn leaf_rank(l: LeafV) -> int {
    match l {
        LeafV::Name(_) => 0,
        LeafV::Package(_) => 1,
        LeafV::Uri(_, _) => 2,
    }
}

pub open spec fn leaf_order(a: LeafV, b: LeafV) -> Order {
    match (a, b) {
        (LeafV::Name(x), LeafV::Name(y)) => seq_order(x, y),
        (LeafV::Package(x), LeafV::Package(y)) => dep_order(x, y),
        (LeafV::Uri(u1, r1), LeafV::Uri(u2, r2)) => chain(seq_order(u1, u2), opt_seq_order(r1, r2)),
        _ => int_order(leaf_rank(a), leaf_rank(b)),
    }
}

/// Trees sort by kind: leaves, disabled flags, then `( )`, `|| ( )`,
/// `^^ ( )`, `?? ( )` and conditionals.
pub open spec fn dep_rank(d: DepV) -> int {
    match d {
        DepV::Enabled(_) => 0,
        DepV::Disabled(_) => 1,
        DepV::AllOf(_) => 2,
        DepV::AnyOf(_) => 3,
        DepV::ExactlyOneOf(_) => 4,
        DepV::AtMostOneOf(_) => 5,
        DepV::Conditional(_, _, _) => 6,
    }
}

/// The order of trees: by kind, then leaves by their order, groups by their
/// contents element by element, conditionals by negation, flag and
/// contents.
pub open spec fn tree_order(a: DepV, b: DepV) -> Order
    decreases a,
{
    match (a, b) {
        (DepV::Enabled(x), DepV::Enabled(y)) => leaf_order(x, y),
        (DepV::Disabled(x), DepV::Disabled(y)) => seq_order(x, y),
        (DepV::AllOf(x), DepV::AllOf(y)) => trees_order(x, y),
        (DepV::AnyOf(x), DepV::AnyOf(y)) => trees_order(x, y),
        (DepV::ExactlyOneOf(x), DepV::ExactlyOneOf(y)) => trees_order(x, y),
        (DepV::AtMostOneOf(x), DepV::AtMostOneOf(y)) => trees_order(x, y),
        (DepV::Conditional(n1, f1, x), DepV::Conditional(n2, f2, y)) => chain(
            int_order(
                if n1 {
                    1
                } else {
                    0
                },
                if n2 {
                    1
                } else {
                    0
                },
            ),
            chain(seq_order(f1, f2), trees_order(x, y)),
        ),
        _ => int_order(dep_rank(a), dep_rank(b)),
    }
}

/// Lists of trees in lexicographic order.
pub open spec fn trees_order(a: Seq<DepV>, b: Seq<DepV>) -> Order
    decreases a,
{
    if a.len() == 0 && b.len() == 0 {
        Order::Equal
    } else if a.len() == 0 {
        Order::Less
    } else if b.len() == 0 {
        Order::Greater
    } else {
        chain(tree_order(a[0], b[0]), trees_order(a.drop_first(), b.drop_first()))
    }
}

/// Comparing two trees the other way round gives the opposite outcome.
pub proof fn lemma_tree_order_flip(a: DepV, b: DepV)
    ensures
        tree_order(a, b) == flip(tree_order(b, a)),
    decreases a,
{
    match (a, b) {
        (DepV::Enabled(x), DepV::Enabled(y)) => match (x, y) {
            (LeafV::Name(p), LeafV::Name(q)) => lemma_seq_order_flip(p, q),
            (LeafV::Package(p), LeafV::Package(q)) => lemma_dep_order_flip(p, q),
            (LeafV::Uri(u1, r1), LeafV::Uri(u2, r2)) => {
                lemma_seq_order_flip(u1, u2);
                match (r1, r2) {
                    (Some(p), Some(q)) => lemma_seq_order_flip(p, q),
                    _ => {},
                }
                lemma_chain_flip(
                    seq_order(u1, u2),
                    opt_seq_order(r1, r2),
                    seq_order(u2, u1),
                    opt_seq_order(r2, r1),
                );
            },
            _ => {},
        },
        (DepV::Disabled(x), DepV::Disabled(y)) => lemma_seq_order_flip(x, y),
        (DepV::AllOf(x), DepV::AllOf(y)) => lemma_trees_order_flip(x, y),
        (DepV::AnyOf(x), DepV::AnyOf(y)) => lemma_trees_order_flip(x, y),
        (DepV::ExactlyOneOf(x), DepV::ExactlyOneOf(y)) => lemma_trees_order_flip(x, y),
        (DepV::AtMostOneOf(x), DepV::AtMostOneOf(y)) => lemma_trees_order_flip(x, y),
        (DepV::Conditional(n1, f1, x), DepV::Conditional(n2, f2, y)) => {
            lemma_seq_order_flip(f1, f2);
            lemma_trees_order_flip(x, y);
            lemma_chain_flip(seq_order(f1, f2), trees_order(x, y), seq_order(f2, f1), trees_order(y, x));
            let i1: int = if n1 {
                1
            } else {
                0
            };
            let i2: int = if n2 {
                1
            } else {
                0
            };
            lemma_chain_flip(
                int_order(i1, i2),
                chain(seq_order(f1, f2), trees_order(x, y)),
                int_order(i2, i1),
                chain(seq_order(f2, f1), trees_order(y, x)),
            );
        },
        _ => {},
    }
}

/// Comparing two lists of trees the other way round gives the opposite
/// outcome.
pub proof fn lemma_trees_order_flip(a: Seq<DepV>, b: Seq<DepV>)
    ensures
        trees_order(a, b) == flip(trees_order(b, a)),
    decreases a,
{
    if a.len() > 0 && b.len() > 0 {
        lemma_tree_order_flip(a[0], b[0]);
        lemma_trees_order_flip(a.drop_first(), b.drop_first());
        lemma_chain_flip(
            tree_order(a[0], b[0]),
            trees_order(a.drop_first(), b.drop_first()),
            tree_order(b[0], a[0]),
            trees_order(b.drop_first(), a.drop_first()),
        );
    }
}

/// Package leaves hold well-formed dependencies.
pub open spec fn tree_wf(d: DepV) -> bool
    decreases d,
{
    match d {
        DepV::Enabled(LeafV::Package(v)) => dep_wf(v),
        DepV::AllOf(vs) => list_wf(vs),
        DepV::AnyOf(vs) => list_wf(vs),
        DepV::ExactlyOneOf(vs) => list_wf(vs),
        DepV::AtMostOneOf(vs) => list_wf(vs),
        DepV::Conditional(_, _, vs) => list_wf(vs),
        _ => true,
    }
}

/// Every tree of a list is well formed.
pub open spec fn list_wf(vs: Seq<DepV>) -> bool
    decreases vs,
{
    if vs.len() == 0 {
        true
    } else {
        list_wf(vs.drop_last()) && tree_wf(vs.last())
    }
}

proof fn lemma_list_wf_index(vs: Seq<DepV>, i: int)
    requires
        list_wf(vs),
        0 <= i < vs.len(),
    ensures
        tree_wf(vs[i]),
    decreases vs.len(),
{
    if i < vs.len() - 1 {
        lemma_list_wf_index(vs.drop_last(), i);
    }
}

proof fn lemma_list_wf_all(vs: Seq<DepV>)
    requires
        forall|i: int| 0 <= i < vs.len() ==> tree_wf(#[trigger] vs[i]),
    ensures
        list_wf(vs),
    decreases vs.len(),
{
    if vs.len() > 0 {
        assert forall|i: int| 0 <= i < vs.len() - 1 implies tree_wf(#[trigger] vs.drop_last()[i]) by {
            assert(vs.drop_last()[i] == vs[i]);
        }
        lemma_list_wf_all(vs.drop_last());
    }
}

/// Compare two leaves.
fn compare_leaf(a: &Leaf, b: &Leaf) -> (r: Order)
    requires
        tree_wf(DepV::Enabled(leaf_view(*a))),
        tree_wf(DepV::Enabled(leaf_view(*b))),
    ensures
        r == leaf_order(leaf_view(*a), leaf_view(*b)),
{
    match (a, b) {
        (Leaf::Name(x), Leaf::Name(y)) => string_order(x, y),
        (Leaf::Package(x), Leaf::Package(y)) => compare_deps(x, y),
        (Leaf::Uri { uri: u1, rename: r1 }, Leaf::Uri { uri: u2, rename: r2 }) => {
            let c = string_order(u1, u2);
            let d = opt_string_order(r1, r2);
            chain_exec(c, d)
        },
        _ => {
            let ra: u64 = match a {
                Leaf::Name(_) => 0,
                Leaf::Package(_) => 1,
                Leaf::Uri { .. } => 2,
            };
            let rb: u64 = match b {
                Leaf::Name(_) => 0,
                Leaf::Package(_) => 1,
                Leaf::Uri { .. } => 2,
            };
            rank_order(ra, rb)
        },
    }
}

fn dep_rank_exec(d: &Dependency) -> (r: u64)
    ensures
        r == dep_rank(dep_view(*d)),
{
    match d {
        Dependency::Enabled(_) => 0,
        Dependency::Disabled(_) => 1,
        Dependency::AllOf(_) => 2,
        Dependency::AnyOf(_) => 3,
        Dependency::ExactlyOneOf(_) => 4,
        Dependency::AtMostOneOf(_) => 5,
        Dependency::Conditional(_, _, _) => 6,
    }
}

/// Compare two trees.
pub fn compare_dep(a: &Dependency, b: &Dependency) -> (r: Order)
    requires
        tree_wf(dep_view(*a)),
        tree_wf(dep_view(*b)),
    ensures
        r == tree_order(dep_view(*a), dep_view(*b)),
    decreases a,
{
    match (a, b) {
        (Dependency::Enabled(x), Dependency::Enabled(y)) => compare_leaf(x, y),
        (Dependency::Disabled(x), Dependency::Disabled(y)) => string_order(x, y),
        (Dependency::AllOf(x), Dependency::AllOf(y)) => compare_list(x, y),
        (Dependency::AnyOf(x), Dependency::AnyOf(y)) => compare_list(x, y),
        (Dependency::ExactlyOneOf(x), Dependency::ExactlyOneOf(y)) => compare_list(x, y),
        (Dependency::AtMostOneOf(x), Dependency::AtMostOneOf(y)) => compare_list(x, y),
        (Dependency::Conditional(n1, f1, x), Dependency::Conditional(n2, f2, y)) => {
            let c1 = rank_order(
                if *n1 {
                    1
                } else {
                    0
                },
                if *n2 {
                    1
                } else {
                    0
                },
            );
            let c2 = string_order(f1, f2);
            let c3 = compare_list(x, y);
            chain_exec(c1, chain_exec(c2, c3))
        },
        _ => rank_order(dep_rank_exec(a), dep_rank_exec(b)),
    }
}

/// Compare two lists of trees.
fn compare_list(a: &Vec<Dependency>, b: &Vec<Dependency>) -> (r: Order)
    requires
        list_wf(deps_view(a@)),
        list_wf(deps_view(b@)),
    ensures
        r == trees_order(deps_view(a@), deps_view(b@)),
    decreases a,
{
    proof {
        lemma_deps_view_len(a@);
        lemma_deps_view_len(b@);
    }
    let ghost av = deps_view(a@);
    let ghost bv = deps_view(b@);
    let mut i: usize = 0;
    assert(av.skip(0) =~= av && bv.skip(0) =~= bv);
    // the outcome so far decides unless it is Equal
    while i < a.len() && i < b.len()
        invariant
            i <= a@.len(),
            i <= b@.len(),
            av == deps_view(a@),
            bv == deps_view(b@),
            av.len() == a@.len(),
            bv.len() == b@.len(),
            list_wf(av),
            list_wf(bv),
            forall|k: int| 0 <= k < a@.len() ==> #[trigger] av[k] == dep_view(a@[k]),
            forall|k: int| 0 <= k < b@.len() ==> #[trigger] bv[k] == dep_view(b@[k]),
            trees_order(av, bv) == trees_order(av.skip(i as int), bv.skip(i as int)),
        decreases a@.len() - i,
    {
        proof {
            lemma_list_wf_index(av, i as int);
            lemma_list_wf_index(bv, i as int);
            assert(av.skip(i as int)[0] == av[i as int]);
            assert(bv.skip(i as int)[0] == bv[i as int]);
            assert(av.skip(i as int).drop_first() =~= av.skip(i + 1));
            assert(bv.skip(i as int).drop_first() =~= bv.skip(i + 1));
        }
        assert(decreases_to!(a => a@[i as int]));
        let c = compare_dep(&a[i], &b[i]);
        match c {
            Order::Equal => {
                i = i + 1;
            },
            _ => {
                return c;
            },
        }
    }
    if i < a.len() {
        Order::Greater
    } else if i < b.len() {
        Order::Less
    } else {
        Order::Equal
    }
}

// ---------------------------------------------------------------------------
// sorting

/// Tree `a` sorts strictly before tree `b`.
#[verifier::opaque]
pub open spec fn tree_less(a: DepV, b: DepV) -> bool {
    tree_order(a, b) == Order::Less
}

/// A sorted list with `x` added after the last tree not greater than it.
pub open spec fn insert_sorted(s: Seq<DepV>, x: DepV) -> Seq<DepV>
    decreases s.len(),
{
    if s.len() == 0 {
        seq![x]
    } else if tree_less(x, s.last()) {
        insert_sorted(s.drop_last(), x).push(s.last())
    } else {
        s.push(x)
    }
}

/// Trees sorted stably: each added in turn after the last tree not greater
/// than it.
pub open spec fn sort_seq(s: Seq<DepV>) -> Seq<DepV>
    decreases s.len(),
{
    if s.len() == 0 {
        s
    } else {
        insert_sorted(sort_seq(s.drop_last()), s.last())
    }
}

/// Trees in non-decreasing order: no tree sorts before the one ahead of it.
pub open spec fn sorted(s: Seq<DepV>) -> bool {
    forall|i: int| 0 <= i < s.len() - 1 ==> !tree_less(#[trigger] s[i + 1], s[i])
}

proof fn lemma_insert_sorted_order(s: Seq<DepV>, x: DepV)
    requires
        sorted(s),
    ensures
        sorted(insert_sorted(s, x)),
        insert_sorted(s, x).len() == s.len() + 1,
        s.len() > 0 ==> (insert_sorted(s, x).last() == s.last() || insert_sorted(s, x).last() == x),
        s.len() == 0 ==> insert_sorted(s, x).last() == x,
    decreases s.len(),
{
    if s.len() > 0 {
        if tree_less(x, s.last()) {
            let p = s.drop_last();
            assert(sorted(p)) by {
                assert forall|i: int| 0 <= i < p.len() - 1 implies !tree_less(#[trigger] p[i + 1], p[i]) by {
                    assert(p[i] == s[i] && p[i + 1] == s[i + 1]);
                }
            }
            lemma_insert_sorted_order(p, x);
            let q = insert_sorted(p, x);
            let r = q.push(s.last());
            assert(!tree_less(s.last(), x)) by {
                reveal(tree_less);
                lemma_tree_order_flip(x, s.last());
            }
            assert forall|i: int| 0 <= i < r.len() - 1 implies !tree_less(#[trigger] r[i + 1], r[i]) by {
                if i < r.len() - 2 {
                    assert(r[i] == q[i] && r[i + 1] == q[i + 1]);
                } else {
                    assert(r[i] == q.last() && r[i + 1] == s.last());
                    if p.len() > 0 && q.last() == p.last() {
                        assert(p.last() == s[s.len() - 2]);
                        assert(s.last() == s[s.len() - 2 + 1]);
                        assert(!tree_less(s[s.len() - 2 + 1], s[s.len() - 2]));
                    }
                }
            }
        } else {
            let r = s.push(x);
            assert forall|i: int| 0 <= i < r.len() - 1 implies !tree_less(#[trigger] r[i + 1], r[i]) by {
                if i < r.len() - 2 {
                    assert(r[i] == s[i] && r[i + 1] == s[i + 1]);
                } else {
                    assert(r[i] == s.last() && r[i + 1] == x);
                }
            }
        }
    }
}

proof fn lemma_insert_sorted_items(s: Seq<DepV>, x: DepV)
    ensures
        insert_sorted(s, x).to_multiset() == s.to_multiset().insert(x),
    decreases s.len(),
{
    broadcast use vstd::seq_lib::group_to_multiset_ensures;

    if s.len() == 0 {
        assert(seq![x] =~= Seq::<DepV>::empty().push(x));
    } else if tree_less(x, s.last()) {
        let p = s.drop_last();
        lemma_insert_sorted_items(p, x);
        assert(s =~= p.push(s.last()));
    }
}

/// Sorting puts trees in non-decreasing order and keeps each of them.
pub proof fn lemma_sort_seq(s: Seq<DepV>)
    ensures
        sorted(sort_seq(s)),
        sort_seq(s).to_multiset() == s.to_multiset(),
        sort_seq(s).len() == s.len(),
    decreases s.len(),
{
    if s.len() > 0 {
        lemma_sort_seq(s.drop_last());
        lemma_insert_sorted_order(sort_seq(s.drop_last()), s.last());
        lemma_insert_sorted_items(sort_seq(s.drop_last()), s.last());
        assert(s =~= s.drop_last().push(s.last()));
        assert(s.to_multiset() =~= s.drop_last().to_multiset().insert(s.last())) by {
            broadcast use vstd::seq_lib::group_to_multiset_ensures;
        }
    } else {
        assert(sorted(s));
    }
}

/// Every tree of a list is well formed, by position.
pub open spec fn all_wf(s: Seq<DepV>) -> bool {
    forall|i: int| 0 <= i < s.len() ==> tree_wf(#[trigger] s[i])
}

proof fn lemma_all_wf_list(s: Seq<DepV>)
    ensures
        all_wf(s) <==> list_wf(s),
{
    if list_wf(s) {
        assert forall|i: int| 0 <= i < s.len() implies tree_wf(#[trigger] s[i]) by {
            lemma_list_wf_index(s, i);
        }
    }
    if all_wf(s) {
        lemma_list_wf_all(s);
    }
}

/// Inserting at the first place from the back where the tree before is not
/// greater is what `insert_sorted` does.
proof fn lemma_insert_at(s: Seq<DepV>, x: DepV, k: int)
    requires
        0 <= k <= s.len(),
        forall|m: int| k <= m < s.len() ==> tree_less(x, #[trigger] s[m]),
        k > 0 ==> !tree_less(x, s[k - 1]),
    ensures
        insert_sorted(s, x) == s.insert(k, x),
    decreases s.len(),
{
    if k == s.len() {
        if s.len() == 0 {
            assert(seq![x] =~= s.insert(0, x));
        } else {
            assert(s.last() == s[k - 1]);
            assert(s.push(x) =~= s.insert(k, x));
        }
    } else {
        assert(tree_less(x, s[s.len() - 1]));
        let p = s.drop_last();
        assert forall|m: int| k <= m < p.len() implies tree_less(x, #[trigger] p[m]) by {
            assert(p[m] == s[m]);
        }
        if k > 0 {
            assert(p[k - 1] == s[k - 1]);
        }
        lemma_insert_at(p, x, k);
        assert(p.insert(k, x).push(s.last()) =~= s.insert(k, x));
    }
}

/// Insert a tree into a sorted list after the last tree not greater than it.
fn insert_tree(out: &mut Vec<Dependency>, x: Dependency)
    requires
        all_wf(deps_view(old(out)@)),
        tree_wf(dep_view(x)),
    ensures
        deps_view(final(out)@) == insert_sorted(deps_view(old(out)@), dep_view(x)),
        all_wf(deps_view(final(out)@)),
{
    proof {
        lemma_deps_view_len(out@);
    }
    let ghost s = deps_view(out@);
    let ghost dx = dep_view(x);
    let mut k = out.len();
    loop
        invariant
            k <= out@.len(),
            s == deps_view(out@),
            s.len() == out@.len(),
            all_wf(s),
            tree_wf(dx),
            dx == dep_view(x),
            forall|q: int| 0 <= q < out@.len() ==> #[trigger] s[q] == dep_view(out@[q]),
            forall|m: int| k <= m < s.len() ==> tree_less(dx, #[trigger] s[m]),
        ensures
            k <= out@.len(),
            forall|m: int| k <= m < s.len() ==> tree_less(dx, #[trigger] s[m]),
            k > 0 ==> !tree_less(dx, s[k - 1]),
        decreases k,
    {
        if k == 0 {
            break;
        }
        assert(tree_wf(s[k - 1]));
        let c = compare_dep(&x, &out[k - 1]);
        let less = match c {
            Order::Less => true,
            _ => false,
        };
        assert(less == tree_less(dx, s[k - 1])) by {
            reveal(tree_less);
        }
        if less {
            k = k - 1;
        } else {
            break;
        }
    }
    proof {
        lemma_insert_at(s, dx, k as int);
    }
    out.insert(k, x);
    proof {
        lemma_deps_view_len(out@);
        assert(deps_view(out@) =~= s.insert(k as int, dx)) by {
            assert forall|q: int| 0 <= q < out@.len() implies #[trigger] deps_view(out@)[q] == s.insert(k as int, dx)[q] by {
                if q < k {
                    assert(out@[q] == old(out)@[q]);
                } else if q > k {
                    assert(out@[q] == old(out)@[q - 1]);
                }
            }
        }
        assert forall|i: int| 0 <= i < deps_view(out@).len() implies tree_wf(#[trigger] deps_view(out@)[i]) by {
            if i < k {
                assert(deps_view(out@)[i] == s[i]);
            } else if i > k {
                assert(deps_view(out@)[i] == s[i - 1]);
            }
        }
    }
}

/// Sort trees stably by their order.
fn sort_trees_vec(v: Vec<Dependency>) -> (r: Vec<Dependency>)
    requires
        all_wf(deps_view(v@)),
    ensures
        deps_view(r@) == sort_seq(deps_view(v@)),
        all_wf(deps_view(r@)),
{
    proof {
        lemma_deps_view_len(v@);
    }
    let ghost all = deps_view(v@);
    let n = v.len();
    let mut rest = v;
    let mut out: Vec<Dependency> = Vec::new();
    let mut i: usize = 0;
    assert(all.take(0) =~= Seq::<DepV>::empty());
    assert(deps_view(out@) =~= Seq::<DepV>::empty());
    while rest.len() > 0
        invariant
            i + rest@.len() == n,
            n == all.len(),
            forall|k: int| 0 <= k < rest@.len() ==> #[trigger] dep_view(rest@[k]) == all[i + k],
            all_wf(all),
            all_wf(deps_view(out@)),
            deps_view(out@) == sort_seq(all.take(i as int)),
        decreases rest@.len(),
    {
        let x = rest.remove(0);
        assert(dep_view(x) == all[i as int]);
        assert forall|k: int| 0 <= k < rest@.len() implies #[trigger] dep_view(rest@[k]) == all[i + 1 + k] by {
            assert(dep_view(rest@[k]) == all[i + (k + 1)]);
        }
        insert_tree(&mut out, x);
        assert(all.take(i + 1).drop_last() =~= all.take(i as int));
        assert(all.take(i + 1).last() == all[i as int]);
        i = i + 1;
    }
    assert(all.take(n as int) =~= all);
    out
}

/// A tree with the contents of its `( )` groups and conditionals sorted,
/// at every depth; the order within `||`, `^^` and `??` groups is kept.
pub open spec fn sort_tree(d: DepV) -> DepV
    decreases d,
{
    match d {
        DepV::AllOf(vs) => DepV::AllOf(sort_seq(sort_trees(vs))),
        DepV::Conditional(n, f, vs) => DepV::Conditional(n, f, sort_seq(sort_trees(vs))),
        DepV::AnyOf(vs) => DepV::AnyOf(sort_trees(vs)),
        DepV::ExactlyOneOf(vs) => DepV::ExactlyOneOf(sort_trees(vs)),
        DepV::AtMostOneOf(vs) => DepV::AtMostOneOf(sort_trees(vs)),
        _ => d,
    }
}

/// Each tree of a list sorted within.
pub open spec fn sort_trees(vs: Seq<DepV>) -> Seq<DepV>
    decreases vs,
{
    if vs.len() == 0 {
        vs
    } else {
        sort_trees(vs.drop_last()).push(sort_tree(vs.last()))
    }
}

/// Sort a tree within.
fn sort_within(d: Dependency) -> (r: Dependency)
    requires
        tree_wf(dep_view(d)),
    ensures
        dep_view(r) == sort_tree(dep_view(d)),
        tree_wf(dep_view(r)),
    decreases d, 1int,
{
    let ghost dv = dep_view(d);
    match d {
        Dependency::AllOf(vs) => {
            let inner = sort_each(vs);
            let sorted = sort_trees_vec(inner);
            proof {
                lemma_all_wf_list(deps_view(sorted@));
            }
            Dependency::AllOf(sorted)
        },
        Dependency::Conditional(n, f, vs) => {
            let inner = sort_each(vs);
            let sorted = sort_trees_vec(inner);
            proof {
                lemma_all_wf_list(deps_view(sorted@));
            }
            Dependency::Conditional(n, f, sorted)
        },
        Dependency::AnyOf(vs) => {
            let inner = sort_each(vs);
            proof {
                lemma_all_wf_list(deps_view(inner@));
            }
            Dependency::AnyOf(inner)
        },
        Dependency::ExactlyOneOf(vs) => {
            let inner = sort_each(vs);
            proof {
                lemma_all_wf_list(deps_view(inner@));
            }
            Dependency::ExactlyOneOf(inner)
        },
        Dependency::AtMostOneOf(vs) => {
            let inner = sort_each(vs);
            proof {
                lemma_all_wf_list(deps_view(inner@));
            }
            Dependency::AtMostOneOf(inner)
        },
        other => other,
    }
}

/// Sort each tree of a list within.
fn sort_each(vs: Vec<Dependency>) -> (r: Vec<Dependency>)
    requires
        list_wf(deps_view(vs@)),
    ensures
        deps_view(r@) == sort_trees(deps_view(vs@)),
        all_wf(deps_view(r@)),
    decreases vs, 0int,
{
    proof {
        lemma_deps_view_len(vs@);
        lemma_all_wf_list(deps_view(vs@));
    }
    let ghost all = deps_view(vs@);
    let ghost orig = vs@;
    let ghost whole = vs;
    let n = vs.len();
    let mut rest = vs;
    let mut out: Vec<Dependency> = Vec::new();
    let mut i: usize = 0;
    assert(all.take(0) =~= Seq::<DepV>::empty());
    assert(deps_view(out@) =~= Seq::<DepV>::empty());
    while rest.len() > 0
        invariant
            i + rest@.len() == n,
            n == all.len(),
            n == orig.len(),
            all == deps_view(orig),
            rest@ == orig.skip(i as int),
            orig == whole@,
            whole == vs,
            forall|k: int| 0 <= k < orig.len() ==> #[trigger] all[k] == dep_view(orig[k]),
            all_wf(all),
            all_wf(deps_view(out@)),
            deps_view(out@) == sort_trees(all.take(i as int)),
        decreases rest@.len(),
    {
        assert(rest@[0] == orig[i as int]);
        let x = rest.remove(0);
        assert(rest@ =~= orig.skip(i + 1));
        assert(tree_wf(dep_view(x))) by {
            assert(all[i as int] == dep_view(x));
        }
        assert(decreases_to!(whole => x)) by {
            assert(decreases_to!(whole => whole@));
            assert(decreases_to!(whole@ => whole@[i as int]));
        }
        let y = sort_within(x);
        let ghost before = deps_view(out@);
        proof {
            lemma_deps_view_push(out@, y);
        }
        out.push(y);
        proof {
            assert(all.take(i + 1).drop_last() =~= all.take(i as int));
            assert(all.take(i + 1).last() == all[i as int]);
            assert(deps_view(out@) == before.push(dep_view(y)));
            assert forall|q: int| 0 <= q < deps_view(out@).len() implies tree_wf(#[trigger] deps_view(out@)[q]) by {
                if q < before.len() {
                    assert(deps_view(out@)[q] == before[q]);
                }
            }
        }
        i = i + 1;
    }
    assert(all.take(n as int) =~= all);
    out
}

/// Sorting each tree within keeps the number of trees and sorts each in turn.
proof fn lemma_sort_trees_index(vs: Seq<DepV>)
    ensures
        sort_trees(vs).len() == vs.len(),
        forall|i: int| 0 <= i < vs.len() ==> #[trigger] sort_trees(vs)[i] == sort_tree(vs[i]),
    decreases vs.len(),
{
    if vs.len() > 0 {
        lemma_sort_trees_index(vs.drop_last());
        assert forall|i: int| 0 <= i < vs.len() implies #[trigger] sort_trees(vs)[i] == sort_tree(vs[i]) by {
            if i < vs.len() - 1 {
                assert(vs.drop_last()[i] == vs[i]);
            }
        }
    }
}

/// A list of trees each unchanged by sorting within is unchanged by it.
proof fn lemma_sort_trees_fixed(vs: Seq<DepV>)
    requires
        forall|i: int| 0 <= i < vs.len() ==> sort_tree(#[trigger] vs[i]) == vs[i],
    ensures
        sort_trees(vs) == vs,
{
    lemma_sort_trees_index(vs);
    assert(sort_trees(vs) =~= vs);
}

/// Sorting a sorted list keeps it as it is.
proof fn lemma_sort_seq_sorted(s: Seq<DepV>)
    requires
        sorted(s),
    ensures
        sort_seq(s) == s,
    decreases s.len(),
{
    if s.len() > 0 {
        let init = s.drop_last();
        assert(sorted(init)) by {
            assert forall|i: int| 0 <= i < init.len() - 1 implies !tree_less(#[trigger] init[i + 1], init[i]) by {
                assert(init[i + 1] == s[i + 1] && init[i] == s[i]);
            }
        }
        lemma_sort_seq_sorted(init);
        if init.len() > 0 {
            assert(!tree_less(s[s.len() - 1], s[s.len() - 2]));
            assert(init.last() == s[s.len() - 2]);
        }
        assert(init.push(s.last()) =~= s);
    }
}

/// Every tree of a sorted list is one of the list's trees.
proof fn lemma_sort_seq_members(s: Seq<DepV>, x: DepV)
    ensures
        sort_seq(s).contains(x) ==> s.contains(x),
{
    broadcast use vstd::seq_lib::group_to_multiset_ensures;

    lemma_sort_seq(s);
    if sort_seq(s).contains(x) {
        assert(sort_seq(s).to_multiset().count(x) > 0);
        assert(s.to_multiset().count(x) > 0);
    }
}

/// Sorting a tree within a second time changes nothing.
proof fn lemma_sort_tree_idempotent(d: DepV)
    ensures
        sort_tree(sort_tree(d)) == sort_tree(d),
    decreases d, 0int,
{
    match d {
        DepV::AllOf(vs) => lemma_sorted_group_fixed(vs),
        DepV::Conditional(_, _, vs) => lemma_sorted_group_fixed(vs),
        DepV::AnyOf(vs) => {
            lemma_sort_trees_idempotent(vs);
            lemma_sort_trees_fixed(sort_trees(vs));
        },
        DepV::ExactlyOneOf(vs) => {
            lemma_sort_trees_idempotent(vs);
            lemma_sort_trees_fixed(sort_trees(vs));
        },
        DepV::AtMostOneOf(vs) => {
            lemma_sort_trees_idempotent(vs);
            lemma_sort_trees_fixed(sort_trees(vs));
        },
        _ => {},
    }
}

/// Each tree of a list sorted within is unchanged by sorting it again.
proof fn lemma_sort_trees_idempotent(vs: Seq<DepV>)
    ensures
        forall|i: int|
            0 <= i < sort_trees(vs).len() ==> sort_tree(#[trigger] sort_trees(vs)[i]) == sort_trees(vs)[i],
    decreases vs, 0int,
{
    if vs.len() > 0 {
        lemma_sort_trees_idempotent(vs.drop_last());
        lemma_sort_tree_idempotent(vs.last());
        let a = sort_trees(vs.drop_last());
        assert forall|i: int| 0 <= i < sort_trees(vs).len() implies sort_tree(#[trigger] sort_trees(vs)[i])
            == sort_trees(vs)[i] by {
            if i < a.len() {
                assert(sort_trees(vs)[i] == a[i]);
            }
        }
    }
}

/// A group sorted within and then ordered is unchanged by doing so again.
proof fn lemma_sorted_group_fixed(vs: Seq<DepV>)
    ensures
        sort_seq(sort_trees(sort_seq(sort_trees(vs)))) == sort_seq(sort_trees(vs)),
    decreases vs, 1int,
{
    let x = sort_trees(vs);
    let y = sort_seq(x);
    lemma_sort_trees_idempotent(vs);
    assert forall|i: int| 0 <= i < y.len() implies sort_tree(#[trigger] y[i]) == y[i] by {
        assert(y.contains(y[i]));
        lemma_sort_seq_members(x, y[i]);
        let j = choose|j: int| 0 <= j < x.len() && x[j] == y[i];
        assert(sort_tree(x[j]) == x[j]);
    }
    lemma_sort_trees_fixed(y);
    lemma_sort_seq(x);
    lemma_sort_seq_sorted(y);
}

/// Adding a tree to a sorted list adds its leaves.
proof fn lemma_insert_sorted_flat(s: Seq<DepV>, x: DepV)
    ensures
        flat_list(insert_sorted(s, x)).to_multiset() == flat_list(s).to_multiset().add(
            flat_text(x).to_multiset(),
        ),
    decreases s.len(),
{
    broadcast use vstd::seq_lib::lemma_multiset_commutative;

    if s.len() == 0 {
        assert(seq![x].drop_last() =~= Seq::<DepV>::empty());
        assert(flat_list(Seq::<DepV>::empty()) =~= Seq::<Seq<char>>::empty());
        assert(Seq::<Seq<char>>::empty() + flat_text(x) =~= flat_text(x));
        vstd::seq_lib::lemma_multiset_commutative(Seq::<Seq<char>>::empty(), flat_text(x));
    } else if tree_less(x, s.last()) {
        lemma_insert_sorted_flat(s.drop_last(), x);
        let t = insert_sorted(s.drop_last(), x);
        assert(t.push(s.last()).drop_last() =~= t);
        assert(s.drop_last().push(s.last()) =~= s);
    } else {
        assert(s.push(x).drop_last() =~= s);
    }
}

/// Sorting a list keeps its leaves.
proof fn lemma_sort_seq_flat(s: Seq<DepV>)
    ensures
        flat_list(sort_seq(s)).to_multiset() == flat_list(s).to_multiset(),
    decreases s.len(),
{
    broadcast use vstd::seq_lib::lemma_multiset_commutative;

    if s.len() > 0 {
        lemma_sort_seq_flat(s.drop_last());
        lemma_insert_sorted_flat(sort_seq(s.drop_last()), s.last());
    }
}

/// Sorting a tree within keeps its leaves.
proof fn lemma_sort_tree_flat(d: DepV)
    ensures
        flat_text(sort_tree(d)).to_multiset() == flat_text(d).to_multiset(),
    decreases d,
{
    match d {
        DepV::AllOf(vs) => {
            lemma_sort_trees_flat(vs);
            lemma_sort_seq_flat(sort_trees(vs));
        },
        DepV::Conditional(_, _, vs) => {
            lemma_sort_trees_flat(vs);
            lemma_sort_seq_flat(sort_trees(vs));
        },
        DepV::AnyOf(vs) => lemma_sort_trees_flat(vs),
        DepV::ExactlyOneOf(vs) => lemma_sort_trees_flat(vs),
        DepV::AtMostOneOf(vs) => lemma_sort_trees_flat(vs),
        _ => {},
    }
}

/// Sorting each tree of a list within keeps the list's leaves.
proof fn lemma_sort_trees_flat(vs: Seq<DepV>)
    ensures
        flat_list(sort_trees(vs)).to_multiset() == flat_list(vs).to_multiset(),
    decreases vs,
{
    broadcast use vstd::seq_lib::lemma_multiset_commutative;

    if vs.len() > 0 {
        lemma_sort_trees_flat(vs.drop_last());
        lemma_sort_tree_flat(vs.last());
        let a = sort_trees(vs.drop_last());
        assert(a.push(sort_tree(vs.last())).drop_last() =~= a);
    }
}

/// Keeping first occurrences leaves no repeats and the same trees.
proof fn lemma_first_occurrences<T>(s: Seq<T>)
    ensures
        first_occurrences(s).no_duplicates(),
        forall|x: T| first_occurrences(s).contains(x) <==> s.contains(x),
        s.no_duplicates() ==> first_occurrences(s) == s,
    decreases s.len(),
{
    if s.len() > 0 {
        let init = s.drop_last();
        lemma_first_occurrences(init);
        let b = first_occurrences(init);
        assert forall|x: T| s.contains(x) <==> (init.contains(x) || x == s.last()) by {
            if s.contains(x) {
                let i = choose|i: int| 0 <= i < s.len() && s[i] == x;
                if i < s.len() - 1 {
                    assert(init[i] == x);
                }
            }
            if init.contains(x) {
                let i = choose|i: int| 0 <= i < init.len() && init[i] == x;
                assert(s[i] == x);
            }
            assert(s[s.len() - 1] == s.last());
        }
        if !b.contains(s.last()) {
            let r = b.push(s.last());
            assert forall|x: T| r.contains(x) <==> (b.contains(x) || x == s.last()) by {
                if r.contains(x) {
                    let i = choose|i: int| 0 <= i < r.len() && r[i] == x;
                    if i < b.len() {
                        assert(b[i] == x);
                    }
                }
                if b.contains(x) {
                    let i = choose|i: int| 0 <= i < b.len() && b[i] == x;
                    assert(r[i] == x);
                }
                assert(r[b.len() as int] == s.last());
            }
            assert forall|i: int, j: int| 0 <= i < r.len() && 0 <= j < r.len() && i != j implies r[i] != r[j] by {
                if i < b.len() && j < b.len() {
                    assert(r[i] == b[i] && r[j] == b[j]);
                } else if i < b.len() {
                    assert(r[i] == b[i]);
                    assert(b.contains(b[i]));
                } else {
                    assert(r[j] == b[j]);
                    assert(b.contains(b[j]));
                }
            }
        }
        if s.no_duplicates() {
            assert(init.no_duplicates()) by {
                assert forall|i: int, j: int| 0 <= i < init.len() && 0 <= j < init.len() && i != j implies init[i]
                    != init[j] by {
                    assert(init[i] == s[i] && init[j] == s[j]);
                }
            }
            assert(!init.contains(s.last())) by {
                if init.contains(s.last()) {
                    let i = choose|i: int| 0 <= i < init.len() && init[i] == s.last();
                    assert(s[i] == s[s.len() - 1]);
                }
            }
            assert(init.push(s.last()) =~= s);
        }
    }
}

/// Sorting keeps a list free of repeats.
proof fn lemma_sort_seq_no_duplicates(s: Seq<DepV>)
    requires
        s.no_duplicates(),
    ensures
        sort_seq(s).no_duplicates(),
{
    broadcast use vstd::seq_lib::group_to_multiset_ensures;

    lemma_sort_seq(s);
    s.lemma_multiset_has_no_duplicates();
    let t = sort_seq(s);
    assert forall|x: DepV| t.to_multiset().contains(x) implies t.to_multiset().count(x) == 1 by {}
    t.lemma_multiset_has_no_duplicates_conv();
}

/// Sorting a set recursively puts its trees in order, and a second sort
/// changes nothing.
pub proof fn lemma_sort_recursive_idempotent(vs: Seq<DepV>)
    ensures
        sorted(sort_seq(first_occurrences(sort_trees(vs)))),
        sort_seq(first_occurrences(sort_trees(sort_seq(first_occurrences(sort_trees(vs))))))
            == sort_seq(first_occurrences(sort_trees(vs))),
{
    let x = sort_trees(vs);
    let u = first_occurrences(x);
    let y = sort_seq(u);
    lemma_sort_trees_idempotent(vs);
    lemma_first_occurrences(x);
    lemma_sort_seq(u);
    lemma_sort_seq_no_duplicates(u);
    assert forall|i: int| 0 <= i < y.len() implies sort_tree(#[trigger] y[i]) == y[i] by {
        assert(y.contains(y[i]));
        lemma_sort_seq_members(u, y[i]);
        assert(u.contains(y[i]));
        assert(x.contains(y[i]));
        let j = choose|j: int| 0 <= j < x.len() && x[j] == y[i];
        assert(x[j] == sort_trees(vs)[j]);
        assert(sort_tree(x[j]) == x[j]);
    }
    lemma_sort_trees_fixed(y);
    lemma_first_occurrences(y);
    lemma_sort_seq_sorted(y);
}

/// When sorting within makes no two trees equal, sorting a set recursively
/// keeps its number of trees and its leaves.
pub proof fn lemma_sort_recursive_keeps(vs: Seq<DepV>)
    requires
        sort_trees(vs).no_duplicates(),
    ensures
        sort_seq(first_occurrences(sort_trees(vs))).len() == vs.len(),
        flat_list(sort_seq(first_occurrences(sort_trees(vs)))).to_multiset() == flat_list(vs).to_multiset(),
{
    lemma_sort_trees_index(vs);
    lemma_first_occurrences(sort_trees(vs));
    lemma_sort_seq(sort_trees(vs));
    lemma_sort_trees_flat(vs);
    lemma_sort_seq_flat(sort_trees(vs));
}

impl DependencySet {
    /// The set's trees are well formed.
    pub open spec fn wf(&self) -> bool {
        list_wf(self.values())
    }

    /// Sort the set's trees by their order, keeping the first of equal ones
    /// first.
    pub fn sort(&mut self)
        requires
            old(self).wf(),
        ensures
            final(self).values() == sort_seq(old(self).values()),
            final(self).wf(),
    {
        proof {
            use_type_invariant(&*self);
        }
        let mut items: Vec<Dependency> = Vec::new();
        assert(deps_view(Seq::<Dependency>::empty()) =~= Seq::<DepV>::empty());
        std::mem::swap(&mut items, &mut self.items);
        proof {
            lemma_all_wf_list(deps_view(items@));
        }
        let sorted = sort_trees_vec(items);
        proof {
            lemma_all_wf_list(deps_view(sorted@));
            lemma_sort_seq_no_duplicates(old(self).values());
        }
        self.items = sorted;
    }

    /// Sort the set's trees, and the contents of their `( )` groups and
    /// conditionals at every depth; trees that sorting within makes equal
    /// are kept once, as a set holds each tree once.
    pub fn sort_recursive(&mut self)
        requires
            old(self).wf(),
        ensures
            final(self).values() == sort_seq(first_occurrences(sort_trees(old(self).values()))),
            final(self).wf(),
    {
        let mut items: Vec<Dependency> = Vec::new();
        assert(deps_view(Seq::<Dependency>::empty()) =~= Seq::<DepV>::empty());
        std::mem::swap(&mut items, &mut self.items);
        let inner = sort_each(items);
        proof {
            lemma_all_wf_list(deps_view(inner@));
        }
        proof {
            lemma_first_occurrences(deps_view(inner@));
        }
        let unique = dedup(inner);
        proof {
            lemma_all_wf_list(deps_view(unique@));
            lemma_sort_seq_no_duplicates(deps_view(unique@));
        }
        let sorted = sort_trees_vec(unique);
        proof {
            lemma_all_wf_list(deps_view(sorted@));
        }
        self.items = sorted;
    }
}

// ---------------------------------------------------------------------------
// set operations

/// A copy of a leaf.
fn copy_leaf(l: &Leaf) -> (r: Leaf)
    ensures
        leaf_view(r) == leaf_view(*l),
{
    match l {
        Leaf::Name(s) => Leaf::Name(s.clone()),
        Leaf::Package(d) => Leaf::Package(d.duplicate()),
        Leaf::Uri { uri, rename } => Leaf::Uri {
            uri: uri.clone(),
            rename: match rename {
                Some(r) => Some(r.clone()),
                None => None,
            },
        },
    }
}

/// A copy of a tree.
pub fn copy_tree(d: &Dependency) -> (r: Dependency)
    ensures
        dep_view(r) == dep_view(*d),
    decreases d, 1int,
{
    match d {
        Dependency::Enabled(l) => Dependency::Enabled(copy_leaf(l)),
        Dependency::Disabled(f) => Dependency::Disabled(f.clone()),
        Dependency::AllOf(vs) => Dependency::AllOf(copy_trees(vs)),
        Dependency::AnyOf(vs) => Dependency::AnyOf(copy_trees(vs)),
        Dependency::ExactlyOneOf(vs) => Dependency::ExactlyOneOf(copy_trees(vs)),
        Dependency::AtMostOneOf(vs) => Dependency::AtMostOneOf(copy_trees(vs)),
        Dependency::Conditional(n, f, vs) => Dependency::Conditional(*n, f.clone(), copy_trees(vs)),
    }
}

/// A copy of a list of trees.
fn copy_trees(vs: &Vec<Dependency>) -> (r: Vec<Dependency>)
    ensures
        deps_view(r@) == deps_view(vs@),
    decreases vs, 0int,
{
    proof {
        lemma_deps_view_len(vs@);
    }
    let mut out: Vec<Dependency> = Vec::new();
    let mut i: usize = 0;
    assert(deps_view(vs@).take(0) =~= Seq::<DepV>::empty());
    assert(deps_view(out@) =~= Seq::<DepV>::empty());
    while i < vs.len()
        invariant
            i <= vs@.len(),
            deps_view(vs@).len() == vs@.len(),
            forall|k: int| 0 <= k < vs@.len() ==> #[trigger] deps_view(vs@)[k] == dep_view(vs@[k]),
            deps_view(out@) == deps_view(vs@).take(i as int),
        decreases vs@.len() - i,
    {
        assert(decreases_to!(vs => vs@[i as int]));
        let c = copy_tree(&vs[i]);
        proof {
            lemma_deps_view_push(out@, c);
        }
        out.push(c);
        assert(deps_view(vs@).take(i + 1) =~= deps_view(vs@).take(i as int).push(deps_view(vs@)[i as int]));
        i = i + 1;
    }
    assert(deps_view(vs@).take(vs@.len() as int) =~= deps_view(vs@));
    out
}

/// The trees of `a` whose presence in `b` is `want`, in order.
pub open spec fn keep_trees(a: Seq<DepV>, b: Seq<DepV>, want: bool) -> Seq<DepV>
    decreases a.len(),
{
    if a.len() == 0 {
        a
    } else {
        let rest = keep_trees(a.drop_last(), b, want);
        if b.contains(a.last()) == want {
            rest.push(a.last())
        } else {
            rest
        }
    }
}

/// The trees a set operation gives: for intersection and difference those
/// of the left set kept by their presence in the right one; for union the
/// left set followed by the right set's other trees; for symmetric
/// difference each set's trees missing from the other, left ones first.
pub open spec fn tree_set_op(op: SetOp, a: Seq<DepV>, b: Seq<DepV>) -> Seq<DepV> {
    match op {
        SetOp::And => keep_trees(a, b, true),
        SetOp::Or => a + keep_trees(b, a, false),
        SetOp::Xor => keep_trees(a, b, false) + keep_trees(b, a, false),
        SetOp::Sub => keep_trees(a, b, false),
    }
}

/// Copy the trees of `a` whose presence in `b` is `want`.
fn keep_exec(a: &Vec<Dependency>, b: &Vec<Dependency>, want: bool) -> (r: Vec<Dependency>)
    ensures
        deps_view(r@) == keep_trees(deps_view(a@), deps_view(b@), want),
{
    proof {
        lemma_deps_view_len(a@);
    }
    let ghost av = deps_view(a@);
    let ghost bv = deps_view(b@);
    let mut out: Vec<Dependency> = Vec::new();
    let mut i: usize = 0;
    assert(av.take(0) =~= Seq::<DepV>::empty());
    assert(deps_view(out@) =~= Seq::<DepV>::empty());
    while i < a.len()
        invariant
            i <= a@.len(),
            av == deps_view(a@),
            bv == deps_view(b@),
            av.len() == a@.len(),
            forall|k: int| 0 <= k < a@.len() ==> #[trigger] av[k] == dep_view(a@[k]),
            deps_view(out@) == keep_trees(av.take(i as int), bv, want),
        decreases a@.len() - i,
    {
        assert(av.take(i + 1).drop_last() =~= av.take(i as int));
        assert(av.take(i + 1).last() == av[i as int]);
        if holds_tree(b, &a[i]) == want {
            let c = copy_tree(&a[i]);
            proof {
                lemma_deps_view_push(out@, c);
            }
            out.push(c);
        }
        i = i + 1;
    }
    assert(av.take(a@.len() as int) =~= av);
    out
}

proof fn lemma_keep_trees_contains(a: Seq<DepV>, b: Seq<DepV>, want: bool, x: DepV)
    ensures
        keep_trees(a, b, want).contains(x) <==> (a.contains(x) && b.contains(x) == want),
    decreases a.len(),
{
    if a.len() > 0 {
        let p = a.drop_last();
        lemma_keep_trees_contains(p, b, want, x);
        let rest = keep_trees(p, b, want);
        if a.contains(x) {
            let i = choose|i: int| 0 <= i < a.len() && a[i] == x;
            if i < a.len() - 1 {
                assert(p[i] == x);
            }
        }
        if p.contains(x) {
            let i = choose|i: int| 0 <= i < p.len() && p[i] == x;
            assert(a[i] == x);
        }
        if b.contains(a.last()) == want {
            if rest.push(a.last()).contains(x) {
                let i = choose|i: int| 0 <= i < rest.len() + 1 && rest.push(a.last())[i] == x;
                if i < rest.len() {
                    assert(rest[i] == x);
                }
            }
            if rest.contains(x) {
                let i = choose|i: int| 0 <= i < rest.len() && rest[i] == x;
                assert(rest.push(a.last())[i] == x);
            }
            assert(rest.push(a.last())[rest.len() as int] == a.last());
        }
        assert(a[a.len() - 1] == a.last());
    }
}

/// A tree belongs to the result of a set operation exactly when its
/// membership in the two sets says so.
pub proof fn lemma_tree_set_op_member(op: SetOp, a: Seq<DepV>, b: Seq<DepV>, x: DepV)
    ensures
        tree_set_op(op, a, b).contains(x) <==> member(op, a.contains(x), b.contains(x)),
{
    lemma_keep_trees_contains(a, b, true, x);
    lemma_keep_trees_contains(a, b, false, x);
    lemma_keep_trees_contains(b, a, false, x);
    match op {
        SetOp::Or => {
            let k = keep_trees(b, a, false);
            if (a + k).contains(x) {
                let i = choose|i: int| 0 <= i < (a + k).len() && (a + k)[i] == x;
                if i < a.len() {
                    assert(a[i] == x);
                } else {
                    assert(k[i - a.len()] == x);
                }
            }
            if a.contains(x) {
                let i = choose|i: int| 0 <= i < a.len() && a[i] == x;
                assert((a + k)[i] == x);
            }
            if k.contains(x) {
                let i = choose|i: int| 0 <= i < k.len() && k[i] == x;
                assert((a + k)[a.len() + i] == x);
            }
        },
        SetOp::Xor => {
            let k1 = keep_trees(a, b, false);
            let k2 = keep_trees(b, a, false);
            if (k1 + k2).contains(x) {
                let i = choose|i: int| 0 <= i < (k1 + k2).len() && (k1 + k2)[i] == x;
                if i < k1.len() {
                    assert(k1[i] == x);
                } else {
                    assert(k2[i - k1.len()] == x);
                }
            }
            if k1.contains(x) {
                let i = choose|i: int| 0 <= i < k1.len() && k1[i] == x;
                assert((k1 + k2)[i] == x);
            }
            if k2.contains(x) {
                let i = choose|i: int| 0 <= i < k2.len() && k2[i] == x;
                assert((k1 + k2)[k1.len() + i] == x);
            }
        },
        _ => {},
    }
}

/// Two lists free of repeats with no tree in common join into a list free
/// of repeats.
proof fn lemma_join_no_duplicates(x: Seq<DepV>, y: Seq<DepV>)
    requires
        x.no_duplicates(),
        y.no_duplicates(),
        forall|z: DepV| x.contains(z) ==> !y.contains(z),
    ensures
        (x + y).no_duplicates(),
{
    let s = x + y;
    assert forall|i: int, j: int| 0 <= i < s.len() && 0 <= j < s.len() && i != j implies s[i] != s[j] by {
        if i < x.len() && j < x.len() {
            assert(s[i] == x[i] && s[j] == x[j]);
        } else if i >= x.len() && j >= x.len() {
            assert(s[i] == y[i - x.len()] && s[j] == y[j - x.len()]);
        } else if i < x.len() {
            assert(s[i] == x[i] && s[j] == y[j - x.len()]);
            assert(x.contains(x[i]));
            assert(y.contains(y[j - x.len()]));
        } else {
            assert(s[j] == x[j] && s[i] == y[i - x.len()]);
            assert(x.contains(x[j]));
            assert(y.contains(y[i - x.len()]));
        }
    }
}

/// Keeping some trees of a list free of repeats leaves it free of repeats.
proof fn lemma_keep_trees_no_duplicates(a: Seq<DepV>, b: Seq<DepV>, want: bool)
    requires
        a.no_duplicates(),
    ensures
        keep_trees(a, b, want).no_duplicates(),
    decreases a.len(),
{
    if a.len() > 0 {
        let p = a.drop_last();
        assert(p.no_duplicates()) by {
            assert forall|i: int, j: int| 0 <= i < p.len() && 0 <= j < p.len() && i != j implies p[i] != p[j] by {
                assert(p[i] == a[i] && p[j] == a[j]);
            }
        }
        lemma_keep_trees_no_duplicates(p, b, want);
        let rest = keep_trees(p, b, want);
        if b.contains(a.last()) == want {
            lemma_keep_trees_contains(p, b, want, a.last());
            assert(!p.contains(a.last())) by {
                if p.contains(a.last()) {
                    let i = choose|i: int| 0 <= i < p.len() && p[i] == a.last();
                    assert(a[i] == a[a.len() - 1]);
                }
            }
            let r = rest.push(a.last());
            assert forall|i: int, j: int| 0 <= i < r.len() && 0 <= j < r.len() && i != j implies r[i] != r[j] by {
                if i < rest.len() && j < rest.len() {
                    assert(r[i] == rest[i] && r[j] == rest[j]);
                } else if i < rest.len() {
                    assert(r[i] == rest[i]);
                    assert(rest.contains(rest[i]));
                } else {
                    assert(r[j] == rest[j]);
                    assert(rest.contains(rest[j]));
                }
            }
        }
    }
}

/// A set operation on two lists free of repeats gives a list free of
/// repeats.
pub proof fn lemma_tree_set_op_no_duplicates(op: SetOp, a: Seq<DepV>, b: Seq<DepV>)
    requires
        a.no_duplicates(),
        b.no_duplicates(),
    ensures
        tree_set_op(op, a, b).no_duplicates(),
{
    lemma_keep_trees_no_duplicates(a, b, true);
    lemma_keep_trees_no_duplicates(a, b, false);
    lemma_keep_trees_no_duplicates(b, a, false);
    let k1 = keep_trees(a, b, false);
    let k2 = keep_trees(b, a, false);
    match op {
        SetOp::Or => {
            assert forall|z: DepV| a.contains(z) implies !k2.contains(z) by {
                lemma_keep_trees_contains(b, a, false, z);
            }
            lemma_join_no_duplicates(a, k2);
        },
        SetOp::Xor => {
            assert forall|z: DepV| k1.contains(z) implies !k2.contains(z) by {
                lemma_keep_trees_contains(a, b, false, z);
                lemma_keep_trees_contains(b, a, false, z);
            }
            lemma_join_no_duplicates(k1, k2);
        },
        _ => {},
    }
}

impl DependencySet {
    /// Combine two sets by a set operation.
    pub fn apply(&self, op: SetOp, other: &DependencySet) -> (r: DependencySet)
        ensures
            r.values() == tree_set_op(op, self.values(), other.values()),
    {
        proof {
            use_type_invariant(self);
            use_type_invariant(other);
            lemma_tree_set_op_no_duplicates(op, self.values(), other.values());
        }
        match op {
            SetOp::And => DependencySet { items: keep_exec(&self.items, &other.items, true) },
            SetOp::Sub => DependencySet { items: keep_exec(&self.items, &other.items, false) },
            SetOp::Or => {
                let mut items = copy_trees(&self.items);
                let extra = keep_exec(&other.items, &self.items, false);
                append_trees(&mut items, extra);
                DependencySet { items }
            },
            SetOp::Xor => {
                let mut items = keep_exec(&self.items, &other.items, false);
                let extra = keep_exec(&other.items, &self.items, false);
                append_trees(&mut items, extra);
                DependencySet { items }
            },
        }
    }

    /// The trees in both sets.
    pub fn bitand(&self, other: &DependencySet) -> (r: DependencySet)
        ensures
            r.values() == tree_set_op(SetOp::And, self.values(), other.values()),
    {
        self.apply(SetOp::And, other)
    }

    /// The trees in either set.
    pub fn bitor(&self, other: &DependencySet) -> (r: DependencySet)
        ensures
            r.values() == tree_set_op(SetOp::Or, self.values(), other.values()),
    {
        self.apply(SetOp::Or, other)
    }

    /// The trees in exactly one of the sets.
    pub fn bitxor(&self, other: &DependencySet) -> (r: DependencySet)
        ensures
            r.values() == tree_set_op(SetOp::Xor, self.values(), other.values()),
    {
        self.apply(SetOp::Xor, other)
    }

    /// The trees of this set missing from the other.
    pub fn sub(&self, other: &DependencySet) -> (r: DependencySet)
        ensures
            r.values() == tree_set_op(SetOp::Sub, self.values(), other.values()),
    {
        self.apply(SetOp::Sub, other)
    }

    /// Keep the trees also in the other set.
    pub fn bitand_assign(&mut self, other: &DependencySet)
        ensures
            final(self).values() == tree_set_op(SetOp::And, old(self).values(), other.values()),
    {
        *self = self.apply(SetOp::And, other);
    }

    /// Add the other set's trees.
    pub fn bitor_assign(&mut self, other: &DependencySet)
        ensures
            final(self).values() == tree_set_op(SetOp::Or, old(self).values(), other.values()),
    {
        *self = self.apply(SetOp::Or, other);
    }

    /// Keep the trees in exactly one of the sets.
    pub fn bitxor_assign(&mut self, other: &DependencySet)
        ensures
            final(self).values() == tree_set_op(SetOp::Xor, old(self).values(), other.values()),
    {
        *self = self.apply(SetOp::Xor, other);
    }

    /// Drop the trees in the other set.
    pub fn sub_assign(&mut self, other: &DependencySet)
        ensures
            final(self).values() == tree_set_op(SetOp::Sub, old(self).values(), other.values()),
    {
        *self = self.apply(SetOp::Sub, other);
    }
}

/// Move the trees of `extra` to the end of `items`.
fn append_trees(items: &mut Vec<Dependency>, extra: Vec<Dependency>)
    ensures
        deps_view(final(items)@) == deps_view(old(items)@) + deps_view(extra@),
{
    proof {
        lemma_deps_view_len(extra@);
    }
    let ghost start = deps_view(items@);
    let ghost ev = deps_view(extra@);
    let ghost orig = extra@;
    let mut rest = extra;
    let ghost mut i: int = 0;
    assert(ev.take(0) =~= Seq::<DepV>::empty());
    assert(start + Seq::<DepV>::empty() =~= start);
    while rest.len() > 0
        invariant
            0 <= i,
            i + rest@.len() == orig.len(),
            rest@ == orig.skip(i as int),
            ev == deps_view(orig),
            ev.len() == orig.len(),
            forall|k: int| 0 <= k < orig.len() ==> #[trigger] ev[k] == dep_view(orig[k]),
            deps_view(items@) == start + ev.take(i as int),
        decreases rest@.len(),
    {
        assert(rest@[0] == orig[i as int]);
        let d = rest.remove(0);
        assert(rest@ =~= orig.skip(i + 1));
        proof {
            lemma_deps_view_push(items@, d);
        }
        items.push(d);
        assert(ev.take(i + 1) =~= ev.take(i as int).push(ev[i as int]));
        proof {
            i = i + 1;
        }
    }
    assert(ev.take(orig.len() as int) =~= ev);
}

impl DependencySet {
    /// A copy of the set.
    pub fn duplicate(&self) -> (r: DependencySet)
        ensures
            r.values() == self.values(),
    {
        proof {
            use_type_invariant(self);
        }
        DependencySet { items: copy_trees(&self.items) }
    }

    /// Whether two sets hold the same trees, in any order.
    pub fn same(&self, other: &DependencySet) -> (r: bool)
        ensures
            r == (forall|x: DepV| self.values().contains(x) <==> other.values().contains(x)),
    {
        let a = self.apply(SetOp::Sub, other);
        let b = other.apply(SetOp::Sub, self);
        let r = a.items.len() == 0 && b.items.len() == 0;
        proof {
            lemma_deps_view_len(a.items@);
            lemma_deps_view_len(b.items@);
            if r {
                assert forall|x: DepV| self.values().contains(x) <==> other.values().contains(x) by {
                    lemma_tree_set_op_member(SetOp::Sub, self.values(), other.values(), x);
                    lemma_tree_set_op_member(SetOp::Sub, other.values(), self.values(), x);
                }
            } else {
                if a.items.len() > 0 {
                    let x = a.values()[0];
                    assert(a.values().contains(x));
                    lemma_tree_set_op_member(SetOp::Sub, self.values(), other.values(), x);
                } else {
                    let x = b.values()[0];
                    assert(b.values().contains(x));
                    lemma_tree_set_op_member(SetOp::Sub, other.values(), self.values(), x);
                }
            }
        }
        r
    }

    /// Whether a package leaf of the set is the dependency `d`.
    pub fn contains_dep(&self, d: &Dep) -> (r: bool)
        ensures
            r == subtree_list(self.values()).contains(DepV::Enabled(LeafV::Package(d@))),
    {
        let leaf = Dependency::Enabled(Leaf::Package(d.duplicate()));
        self.contains(&leaf)
    }
}

// ---------------------------------------------------------------------------
// replacing trees

/// The first position of `x` in `s`, or `s.len()` when it is missing.
pub open spec fn position(s: Seq<DepV>, x: DepV) -> int
    decreases s.len(),
{
    if s.len() == 0 {
        0
    } else if s[0] == x {
        0
    } else {
        1 + position(s.drop_first(), x)
    }
}

proof fn lemma_position(s: Seq<DepV>, x: DepV)
    ensures
        0 <= position(s, x) <= s.len(),
        position(s, x) < s.len() <==> s.contains(x),
        position(s, x) < s.len() ==> s[position(s, x)] == x,
        forall|k: int| 0 <= k < position(s, x) ==> s[k] != x,
    decreases s.len(),
{
    if s.len() > 0 && s[0] != x {
        lemma_position(s.drop_first(), x);
        assert forall|k: int| 0 <= k < position(s, x) implies s[k] != x by {
            if k > 0 {
                assert(s[k] == s.drop_first()[k - 1]);
            }
        }
        if s.contains(x) {
            let k = choose|k: int| 0 <= k < s.len() && s[k] == x;
            assert(s.drop_first()[k - 1] == x);
        }
        if position(s, x) < s.len() {
            assert(s[position(s, x)] == s.drop_first()[position(s.drop_first(), x)]);
        }
    }
}

/// Replacing the tree at `i` by `x` so that later trees keep their order:
/// a new `x` takes its place; an `x` found elsewhere stays there and the
/// tree at `i` is removed, the trees after it moving up. The replaced tree
/// comes back, or nothing when `i` is past the end or `x` is already at `i`.
pub open spec fn shift_replace_spec(s: Seq<DepV>, i: int, x: DepV) -> (Seq<DepV>, Option<DepV>) {
    if i < 0 || i >= s.len() {
        (s, None)
    } else if !s.contains(x) {
        (s.update(i, x), Some(s[i]))
    } else if position(s, x) != i {
        (s.remove(i), Some(s[i]))
    } else {
        (s, None)
    }
}

/// Replacing the tree at `i` by `x`, moving the last tree into the gap: a
/// new `x` takes its place; an `x` found elsewhere stays there and the tree
/// at `i` is replaced by the last tree. The replaced tree comes back, or
/// nothing when `i` is past the end or `x` is already at `i`.
pub open spec fn swap_replace_spec(s: Seq<DepV>, i: int, x: DepV) -> (Seq<DepV>, Option<DepV>) {
    if i < 0 || i >= s.len() {
        (s, None)
    } else if !s.contains(x) {
        (s.update(i, x), Some(s[i]))
    } else if position(s, x) != i {
        (s.update(i, s.last()).drop_last(), Some(s[i]))
    } else {
        (s, None)
    }
}

/// The first position of a tree in a list, or the list's length.
fn position_exec(v: &Vec<Dependency>, d: &Dependency) -> (r: usize)
    ensures
        r == position(deps_view(v@), dep_view(*d)),
{
    proof {
        lemma_deps_view_len(v@);
        lemma_position(deps_view(v@), dep_view(*d));
    }
    let ghost s = deps_view(v@);
    let mut k: usize = 0;
    while k < v.len()
        invariant
            k <= v@.len(),
            s == deps_view(v@),
            s.len() == v@.len(),
            forall|q: int| 0 <= q < v@.len() ==> #[trigger] s[q] == dep_view(v@[q]),
            forall|q: int| 0 <= q < k ==> s[q] != dep_view(*d),
            0 <= position(s, dep_view(*d)) <= s.len(),
            position(s, dep_view(*d)) < s.len() ==> s[position(s, dep_view(*d))] == dep_view(*d),
            forall|q: int| 0 <= q < position(s, dep_view(*d)) ==> s[q] != dep_view(*d),
        decreases v@.len() - k,
    {
        if same_dep(&v[k], d) {
            assert(s[k as int] == dep_view(*d));
            proof {
                let p = position(s, dep_view(*d));
                if p < k {
                    assert(s[p] == dep_view(*d));
                }
            }
            return k;
        }
        k = k + 1;
    }
    proof {
        let p = position(s, dep_view(*d));
        if p < k {
            assert(s[p] == dep_view(*d));
        }
    }
    k
}

/// The values of an optional tree.
pub open spec fn opt_tree_view(o: Option<Dependency>) -> Option<DepV> {
    match o {
        Some(d) => Some(dep_view(d)),
        None => None,
    }
}

proof fn lemma_deps_view_update(v: Seq<Dependency>, i: int, d: Dependency)
    requires
        0 <= i < v.len(),
    ensures
        deps_view(v.update(i, d)) == deps_view(v).update(i, dep_view(d)),
{
    lemma_deps_view_len(v);
    lemma_deps_view_len(v.update(i, d));
    assert(deps_view(v.update(i, d)) =~= deps_view(v).update(i, dep_view(d)));
}

/// Replacing a tree, either way, keeps a list free of repeats.
proof fn lemma_replace_no_duplicates(s: Seq<DepV>, i: int, x: DepV)
    requires
        s.no_duplicates(),
    ensures
        shift_replace_spec(s, i, x).0.no_duplicates(),
        swap_replace_spec(s, i, x).0.no_duplicates(),
{
    if 0 <= i < s.len() {
        if !s.contains(x) {
            let r = s.update(i, x);
            assert forall|j: int, k: int| 0 <= j < r.len() && 0 <= k < r.len() && j != k implies r[j] != r[k] by {
                if j == i {
                    assert(s.contains(s[k]));
                } else if k == i {
                    assert(s.contains(s[j]));
                }
            }
        } else {
            let r = s.remove(i);
            assert forall|j: int, k: int| 0 <= j < r.len() && 0 <= k < r.len() && j != k implies r[j] != r[k] by {
                let j2 = if j < i { j } else { j + 1 };
                let k2 = if k < i { k } else { k + 1 };
                assert(r[j] == s[j2] && r[k] == s[k2]);
            }
            let t = s.update(i, s.last()).drop_last();
            assert forall|j: int, k: int| 0 <= j < t.len() && 0 <= k < t.len() && j != k implies t[j] != t[k] by {
                let j2 = if j == i { s.len() - 1 } else { j };
                let k2 = if k == i { s.len() - 1 } else { k };
                assert(t[j] == s[j2] && t[k] == s[k2]);
            }
        }
    }
}

/// What a replacement does to the trees of a set, by either kind: after
/// replacing the tree at a valid index by `x`, the set holds `x` and every
/// tree it held but the replaced one; the replaced tree comes back unless it
/// was `x` itself; and the set keeps its size unless `x` was already
/// elsewhere in it, when it loses one tree.
pub proof fn lemma_replace_members(s: Seq<DepV>, i: int, x: DepV)
    requires
        s.no_duplicates(),
        0 <= i < s.len(),
    ensures
        forall|y: DepV| #[trigger] shift_replace_spec(s, i, x).0.contains(y) <==> (y == x || (s.contains(y) && y != s[i])),
        forall|y: DepV| #[trigger] swap_replace_spec(s, i, x).0.contains(y) <==> (y == x || (s.contains(y) && y != s[i])),
        shift_replace_spec(s, i, x).1 == (if s[i] == x { None } else { Some(s[i]) }),
        swap_replace_spec(s, i, x).1 == (if s[i] == x { None } else { Some(s[i]) }),
        shift_replace_spec(s, i, x).0.len() == (if s.contains(x) && s[i] != x { s.len() - 1 } else { s.len() as int }),
        swap_replace_spec(s, i, x).0.len() == (if s.contains(x) && s[i] != x { s.len() - 1 } else { s.len() as int }),
{
    lemma_position(s, x);
    let n = s.len();
    if !s.contains(x) {
        let r = s.update(i, x);
        assert(s[i] != x) by {
            assert(s.contains(s[i]));
        }
        assert forall|y: DepV| r.contains(y) <==> (y == x || (s.contains(y) && y != s[i])) by {
            if r.contains(y) {
                let j = choose|j: int| 0 <= j < r.len() && r[j] == y;
                if j != i {
                    assert(s[j] == y);
                }
            }
            if y == x {
                assert(r[i] == x);
            } else if s.contains(y) && y != s[i] {
                let j = choose|j: int| 0 <= j < n && s[j] == y;
                assert(r[j] == y);
            }
        }
    } else if position(s, x) != i {
        let p = position(s, x);
        assert(s[i] != x) by {
            if s[i] == x {
                assert(s[p] == s[i]);
            }
        }
        let r = s.remove(i);
        assert forall|y: DepV| r.contains(y) <==> (y == x || (s.contains(y) && y != s[i])) by {
            if r.contains(y) {
                let j = choose|j: int| 0 <= j < r.len() && r[j] == y;
                let k = if j < i { j } else { j + 1 };
                assert(s[k] == y);
                assert(k != i);
            }
            if y == x || (s.contains(y) && y != s[i]) {
                let k = if y == x { p } else { choose|j: int| 0 <= j < n && s[j] == y };
                assert(s[k] == y && k != i);
                if k < i {
                    assert(r[k] == y);
                } else {
                    assert(r[k - 1] == y);
                }
            }
        }
        let t = s.update(i, s.last()).drop_last();
        assert forall|y: DepV| t.contains(y) <==> (y == x || (s.contains(y) && y != s[i])) by {
            if t.contains(y) {
                let j = choose|j: int| 0 <= j < t.len() && t[j] == y;
                let k = if j == i { n - 1 } else { j };
                assert(s[k] == y);
                assert(k != i);
            }
            if y == x || (s.contains(y) && y != s[i]) {
                let k = if y == x { p } else { choose|j: int| 0 <= j < n && s[j] == y };
                assert(s[k] == y && k != i);
                if k == n - 1 {
                    assert(t[i] == y);
                } else {
                    assert(t[k] == y);
                }
            }
        }
    } else {
        assert(s[i] == x);
    }
}

/// Replacing the tree at a valid index by a tree the set lacks puts that
/// tree at the index, leaves every other tree where it was, and gives back
/// the tree that was there, by either kind of replacement.
pub proof fn lemma_replace_new_tree(s: Seq<DepV>, i: int, x: DepV)
    requires
        0 <= i < s.len(),
        !s.contains(x),
    ensures
        shift_replace_spec(s, i, x).0.len() == s.len(),
        swap_replace_spec(s, i, x).0.len() == s.len(),
        shift_replace_spec(s, i, x).0[i] == x,
        swap_replace_spec(s, i, x).0[i] == x,
        forall|j: int| 0 <= j < s.len() && j != i ==> #[trigger] shift_replace_spec(s, i, x).0[j] == s[j],
        forall|j: int| 0 <= j < s.len() && j != i ==> #[trigger] swap_replace_spec(s, i, x).0[j] == s[j],
        shift_replace_spec(s, i, x).1 == Some(s[i]),
        swap_replace_spec(s, i, x).1 == Some(s[i]),
{
}

/// Replacing the tree at a valid index by a tree found elsewhere in the set
/// drops the tree at the index and gives it back: a shifting replacement
/// moves the trees after it up one place, a swapping one moves the last
/// tree into the gap.
pub proof fn lemma_replace_present_tree(s: Seq<DepV>, i: int, x: DepV)
    requires
        0 <= i < s.len(),
        s.contains(x),
        s[i] != x,
        s.no_duplicates(),
    ensures
        shift_replace_spec(s, i, x).0.len() == s.len() - 1,
        forall|j: int| 0 <= j < i ==> #[trigger] shift_replace_spec(s, i, x).0[j] == s[j],
        forall|j: int| i <= j < s.len() - 1 ==> #[trigger] shift_replace_spec(s, i, x).0[j] == s[j + 1],
        swap_replace_spec(s, i, x).0.len() == s.len() - 1,
        forall|j: int| 0 <= j < s.len() - 1 && j != i ==> #[trigger] swap_replace_spec(s, i, x).0[j] == s[j],
        i < s.len() - 1 ==> swap_replace_spec(s, i, x).0[i] == s[s.len() - 1],
        shift_replace_spec(s, i, x).1 == Some(s[i]),
        swap_replace_spec(s, i, x).1 == Some(s[i]),
{
    lemma_position(s, x);
    assert(position(s, x) != i);
}

/// Replacing the tree at an index by the tree already there, or at an index
/// past the end, changes nothing and gives nothing back.
pub proof fn lemma_replace_no_change(s: Seq<DepV>, i: int, x: DepV)
    requires
        (0 <= i < s.len() && s[i] == x && s.no_duplicates()) || i < 0 || i >= s.len(),
    ensures
        shift_replace_spec(s, i, x) == (s, None::<DepV>),
        swap_replace_spec(s, i, x) == (s, None::<DepV>),
{
    lemma_position(s, x);
    if 0 <= i < s.len() && s[i] == x {
        assert(s.contains(x));
        let p = position(s, x);
        if p != i {
            assert(s[p] == s[i]);
        }
    }
}

impl DependencySet {
    /// Replace the tree at `index` by `value`, keeping the order of the
    /// trees after it.
    pub fn shift_replace_index(&mut self, index: usize, value: Dependency) -> (r: Option<Dependency>)
        ensures
            final(self).values() == shift_replace_spec(old(self).values(), index as int, dep_view(value)).0,
            opt_tree_view(r) == shift_replace_spec(old(self).values(), index as int, dep_view(value)).1,
    {
        proof {
            use_type_invariant(&*self);
            lemma_deps_view_len(self.items@);
            lemma_position(self.values(), dep_view(value));
            lemma_replace_no_duplicates(self.values(), index as int, dep_view(value));
        }
        let ghost s = self.values();
        let ghost start = self.items@;
        if index >= self.items.len() {
            return None;
        }
        let j = position_exec(&self.items, &value);
        if j == self.items.len() {
            let mut items: Vec<Dependency> = Vec::new();
            assert(deps_view(Seq::<Dependency>::empty()) =~= Seq::<DepV>::empty());
            std::mem::swap(&mut items, &mut self.items);
            let mut v = value;
            std::mem::swap(&mut v, &mut items[index]);
            proof {
                lemma_deps_view_update(start, index as int, value);
                assert(items@ == start.update(index as int, value));
                assert(dep_view(v) == s[index as int]);
            }
            self.items = items;
            Some(v)
        } else if j != index {
            let mut items: Vec<Dependency> = Vec::new();
            assert(deps_view(Seq::<Dependency>::empty()) =~= Seq::<DepV>::empty());
            std::mem::swap(&mut items, &mut self.items);
            let removed = items.remove(index);
            proof {
                lemma_deps_view_len(items@);
                assert(deps_view(items@) =~= s.remove(index as int)) by {
                    assert forall|q: int| 0 <= q < items@.len() implies #[trigger] deps_view(items@)[q] == s.remove(
                        index as int,
                    )[q] by {
                        if q < index {
                            assert(items@[q] == start[q]);
                        } else {
                            assert(items@[q] == start[q + 1]);
                        }
                    }
                }
            }
            self.items = items;
            Some(removed)
        } else {
            None
        }
    }

    /// Replace the tree at `index` by `value`, moving the last tree into the
    /// gap when `value` is already elsewhere.
    pub fn swap_replace_index(&mut self, index: usize, value: Dependency) -> (r: Option<Dependency>)
        ensures
            final(self).values() == swap_replace_spec(old(self).values(), index as int, dep_view(value)).0,
            opt_tree_view(r) == swap_replace_spec(old(self).values(), index as int, dep_view(value)).1,
    {
        proof {
            use_type_invariant(&*self);
            lemma_deps_view_len(self.items@);
            lemma_position(self.values(), dep_view(value));
            lemma_replace_no_duplicates(self.values(), index as int, dep_view(value));
        }
        let ghost s = self.values();
        let ghost start = self.items@;
        if index >= self.items.len() {
            return None;
        }
        let j = position_exec(&self.items, &value);
        if j == self.items.len() {
            let mut items: Vec<Dependency> = Vec::new();
            assert(deps_view(Seq::<Dependency>::empty()) =~= Seq::<DepV>::empty());
            std::mem::swap(&mut items, &mut self.items);
            let mut v = value;
            std::mem::swap(&mut v, &mut items[index]);
            proof {
                lemma_deps_view_update(start, index as int, value);
                assert(items@ == start.update(index as int, value));
                assert(dep_view(v) == s[index as int]);
            }
            self.items = items;
            Some(v)
        } else if j != index {
            let mut items: Vec<Dependency> = Vec::new();
            assert(deps_view(Seq::<Dependency>::empty()) =~= Seq::<DepV>::empty());
            std::mem::swap(&mut items, &mut self.items);
            let removed = items.swap_remove(index);
            proof {
                lemma_deps_view_len(items@);
                let t = s.update(index as int, s.last()).drop_last();
                assert(deps_view(items@) =~= t) by {
                    assert forall|q: int| 0 <= q < items@.len() implies #[trigger] deps_view(items@)[q] == t[q] by {
                        if q == index {
                            assert(items@[q] == start.last());
                            assert(s.last() == s[s.len() - 1]);
                        } else {
                            assert(items@[q] == start[q]);
                        }
                    }
                }
            }
            self.items = items;
            Some(removed)
        } else {
            None
        }
    }

    /// Replace the tree `key` by `value`, keeping the order of the trees
    /// after it; nothing happens when `key` is missing.
    pub fn shift_replace(&mut self, key: &Dependency, value: Dependency) -> (r: Option<Dependency>)
        ensures
            final(self).values() == shift_replace_spec(
                old(self).values(),
                position(old(self).values(), dep_view(*key)),
                dep_view(value),
            ).0,
            opt_tree_view(r) == shift_replace_spec(
                old(self).values(),
                position(old(self).values(), dep_view(*key)),
                dep_view(value),
            ).1,
    {
        let i = position_exec(&self.items, key);
        self.shift_replace_index(i, value)
    }

    /// Replace the tree `key` by `value`, moving the last tree into the gap
    /// when `value` is already elsewhere; nothing happens when `key` is
    /// missing.
    pub fn swap_replace(&mut self, key: &Dependency, value: Dependency) -> (r: Option<Dependency>)
        ensures
            final(self).values() == swap_replace_spec(
                old(self).values(),
                position(old(self).values(), dep_view(*key)),
                dep_view(value),
            ).0,
            opt_tree_view(r) == swap_replace_spec(
                old(self).values(),
                position(old(self).values(), dep_view(*key)),
                dep_view(value),
            ).1,
    {
        let i = position_exec(&self.items, key);
        self.swap_replace_index(i, value)
    }
}

} // verus!
