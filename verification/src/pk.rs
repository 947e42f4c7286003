//! Logic of the `pk` command-line tool: comparison expressions for
//! dependencies and versioned packages, dependency format keys, and the tool's
//! subcommand and set operation names.

use vstd::prelude::*;
use crate::chars::{chars_of, string_from, views};
use crate::cpv::{Cpv, cpv, cpv_split};
use crate::dep::{
    Dep, DepView, dep_parse, dep_wf, lemma_dep_parse_wf, blocker_str, opt_seq, opt_view, use_join,
    dep_string, Operator, SlotOperator,
};
use crate::order::{Order, dep_order, compare_deps, seq_order, version_order, compare_versions, chain};
use crate::shell::str_eq;
use crate::version::{version_wf, version_view_at, VersionView};

verus! {

/// Unicode whitespace.
pub open spec fn is_ws(c: char) -> bool {
    ('\u{9}' <= c && c <= '\u{d}') || c == ' ' || c == '\u{85}' || c == '\u{a0}' || c == '\u{1680}'
        || ('\u{2000}' <= c && c <= '\u{200a}') || c == '\u{2028}' || c == '\u{2029}' || c
        == '\u{202f}' || c == '\u{205f}' || c == '\u{3000}'
}

pub(crate) fn ws(c: char) -> (r: bool)
    ensures
        r == is_ws(c),
{
    ('\u{9}' <= c && c <= '\u{d}') || c == ' ' || c == '\u{85}' || c == '\u{a0}' || c == '\u{1680}'
        || ('\u{2000}' <= c && c <= '\u{200a}') || c == '\u{2028}' || c == '\u{2029}' || c
        == '\u{202f}' || c == '\u{205f}' || c == '\u{3000}'
}

/// Which characters separate the pieces of a string.
#[derive(Clone, Copy, PartialEq, Eq, Structural, Debug)]
pub enum Blanks {
    /// Unicode whitespace.
    Unicode,
    /// Spaces, tabs and newlines, as dependency specifications use.
    Spec,
}

/// A separating character.
pub open spec fn is_blank(b: Blanks, c: char) -> bool {
    match b {
        Blanks::Unicode => is_ws(c),
        Blanks::Spec => c == ' ' || c == '\n' || c == '\t',
    }
}

fn blank(b: Blanks, c: char) -> (r: bool)
    ensures
        r == is_blank(b, c),
{
    match b {
        Blanks::Unicode => ws(c),
        Blanks::Spec => c == ' ' || c == '\n' || c == '\t',
    }
}

/// The length of the run of non-separating characters that begins `s`.
pub open spec fn piece_len(b: Blanks, s: Seq<char>) -> nat
    decreases s.len(),
{
    if s.len() > 0 && !is_blank(b, s[0]) {
        1 + piece_len(b, s.drop_first())
    } else {
        0
    }
}

pub proof fn lemma_piece_len(b: Blanks, s: Seq<char>)
    ensures
        piece_len(b, s) <= s.len(),
        s.len() > 0 && !is_blank(b, s[0]) ==> piece_len(b, s) >= 1,
        forall|k: int| 0 <= k < piece_len(b, s) ==> !is_blank(b, #[trigger] s[k]),
        piece_len(b, s) < s.len() ==> is_blank(b, s[piece_len(b, s) as int]),
    decreases s.len(),
{
    if s.len() > 0 && !is_blank(b, s[0]) {
        lemma_piece_len(b, s.drop_first());
        assert forall|k: int| 0 <= k < piece_len(b, s) implies !is_blank(b, #[trigger] s[k]) by {
            if k > 0 {
                assert(s[k] == s.drop_first()[k - 1]);
            }
        }
    }
}

/// The pieces of a string between runs of separating characters.
pub open spec fn pieces(b: Blanks, s: Seq<char>) -> Seq<Seq<char>>
    decreases s.len(),
{
    if s.len() == 0 {
        Seq::empty()
    } else if is_blank(b, s[0]) {
        pieces(b, s.drop_first())
    } else {
        proof {
            lemma_piece_len(b, s);
        }
        seq![s.take(piece_len(b, s) as int)] + pieces(b, s.skip(piece_len(b, s) as int))
    }
}

/// The whitespace-separated words of a string.
pub open spec fn words(s: Seq<char>) -> Seq<Seq<char>> {
    pieces(Blanks::Unicode, s)
}

proof fn lemma_piece_len_run(b: Blanks, s: Seq<char>, n: int)
    requires
        0 <= n <= s.len(),
        forall|k: int| 0 <= k < n ==> !is_blank(b, #[trigger] s[k]),
        n < s.len() ==> is_blank(b, s[n]),
    ensures
        piece_len(b, s) == n,
    decreases n,
{
    if n > 0 {
        assert forall|k: int| 0 <= k < n - 1 implies !is_blank(b, #[trigger] s.drop_first()[k]) by {
            assert(s.drop_first()[k] == s[k + 1]);
        }
        if n - 1 < s.drop_first().len() {
            assert(s.drop_first()[n - 1] == s[n]);
        }
        lemma_piece_len_run(b, s.drop_first(), n - 1);
    }
}

/// Split a string into its pieces between runs of separating characters.
pub fn split_on(s: &str, b: Blanks) -> (r: Vec<String>)
    ensures
        views(r@) == pieces(b, s@),
{
    let cs = chars_of(s);
    let n = cs.len();
    let mut out: Vec<String> = Vec::new();
    let mut i: usize = 0;
    assert(cs@.skip(0) =~= cs@);
    assert(views(out@) =~= Seq::<Seq<char>>::empty());
    while i < n
        invariant
            i <= n,
            n == cs@.len(),
            cs@ == s@,
            pieces(b, s@) == views(out@) + pieces(b, cs@.skip(i as int)),
        decreases n - i,
    {
        let ghost t = cs@.skip(i as int);
        assert(t[0] == cs@[i as int]);
        if blank(b, cs[i]) {
            assert(t.drop_first() =~= cs@.skip(i + 1));
            i = i + 1;
        } else {
            let mut e = i;
            while e < n && !blank(b, cs[e])
                invariant
                    i <= e <= n,
                    n == cs@.len(),
                    forall|k: int| i <= k < e ==> !is_blank(b, #[trigger] cs@[k]),
                decreases n - e,
            {
                e = e + 1;
            }
            proof {
                assert forall|k: int| 0 <= k < e - i implies !is_blank(b, #[trigger] t[k]) by {
                    assert(t[k] == cs@[i + k]);
                }
                if e < n {
                    assert(t[e - i] == cs@[e as int]);
                }
                lemma_piece_len_run(b, t, e - i);
                assert(t.take(e - i) =~= cs@.subrange(i as int, e as int));
                assert(t.skip(e - i) =~= cs@.skip(e as int));
            }
            let ghost before = views(out@);
            out.push(string_from(&cs, i, e));
            proof {
                assert(views(out@) =~= before.push(cs@.subrange(i as int, e as int)));
                assert(pieces(b, t) == seq![cs@.subrange(i as int, e as int)] + pieces(
                    b,
                    cs@.skip(e as int),
                ));
                assert(before + pieces(b, t) =~= views(out@) + pieces(b, cs@.skip(e as int)));
            }
            i = e;
        }
    }
    assert(cs@.skip(n as int) =~= Seq::<char>::empty());
    assert(views(out@) + Seq::<Seq<char>>::empty() =~= views(out@));
    out
}

/// Split a string into its whitespace-separated words.
pub fn split_whitespace(s: &str) -> (r: Vec<String>)
    ensures
        views(r@) == words(s@),
{
    split_on(s, Blanks::Unicode)
}

/// Comparison operators of comparison expressions.
#[derive(Clone, Copy, PartialEq, Eq, Structural, Debug)]
pub enum Relation {
    Less,
    LessOrEqual,
    Equal,
    NotEqual,
    GreaterOrEqual,
    Greater,
}

/// The operator named by `<`, `<=`, `==`, `!=`, `>=` or `>`.
pub open spec fn relation_named(s: Seq<char>) -> Option<Relation> {
    if s == "<"@ {
        Some(Relation::Less)
    } else if s == "<="@ {
        Some(Relation::LessOrEqual)
    } else if s == "=="@ {
        Some(Relation::Equal)
    } else if s == "!="@ {
        Some(Relation::NotEqual)
    } else if s == ">="@ {
        Some(Relation::GreaterOrEqual)
    } else if s == ">"@ {
        Some(Relation::Greater)
    } else {
        None
    }
}

fn relation_from(s: &String) -> (r: Option<Relation>)
    ensures
        r == relation_named(s@),
{
    if str_eq(s.as_str(), "<") {
        Some(Relation::Less)
    } else if str_eq(s.as_str(), "<=") {
        Some(Relation::LessOrEqual)
    } else if str_eq(s.as_str(), "==") {
        Some(Relation::Equal)
    } else if str_eq(s.as_str(), "!=") {
        Some(Relation::NotEqual)
    } else if str_eq(s.as_str(), ">=") {
        Some(Relation::GreaterOrEqual)
    } else if str_eq(s.as_str(), ">") {
        Some(Relation::Greater)
    } else {
        None
    }
}

/// Whether an outcome of comparison satisfies an operator.
pub open spec fn holds(rel: Relation, o: Order) -> bool {
    match rel {
        Relation::Less => o == Order::Less,
        Relation::LessOrEqual => o != Order::Greater,
        Relation::Equal => o == Order::Equal,
        Relation::NotEqual => o != Order::Equal,
        Relation::GreaterOrEqual => o != Order::Less,
        Relation::Greater => o == Order::Greater,
    }
}

fn holds_exec(rel: Relation, o: Order) -> (r: bool)
    ensures
        r == holds(rel, o),
{
    match rel {
        Relation::Less => o == Order::Less,
        Relation::LessOrEqual => !(o == Order::Greater),
        Relation::Equal => o == Order::Equal,
        Relation::NotEqual => !(o == Order::Equal),
        Relation::GreaterOrEqual => !(o == Order::Less),
        Relation::Greater => o == Order::Greater,
    }
}

/// The operator that says of `b` and `a` what this one says of `a` and `b`.
pub open spec fn mirrored(rel: Relation) -> Relation {
    match rel {
        Relation::Less => Relation::Greater,
        Relation::LessOrEqual => Relation::GreaterOrEqual,
        Relation::Equal => Relation::Equal,
        Relation::NotEqual => Relation::NotEqual,
        Relation::GreaterOrEqual => Relation::LessOrEqual,
        Relation::Greater => Relation::Less,
    }
}

/// The operators mean what their symbols say: `<`, `==` and `>` each hold
/// of their own outcome and exactly one of them holds of any outcome; `<=`
/// is `<` or `==`, `>=` is `>` or `==`, and `!=` is not `==`.
pub proof fn lemma_relations(o: Order)
    ensures
        holds(Relation::Less, Order::Less),
        holds(Relation::Equal, Order::Equal),
        holds(Relation::Greater, Order::Greater),
        (holds(Relation::Less, o) && !holds(Relation::Equal, o) && !holds(Relation::Greater, o)) || (!holds(
            Relation::Less,
            o,
        ) && holds(Relation::Equal, o) && !holds(Relation::Greater, o)) || (!holds(Relation::Less, o)
            && !holds(Relation::Equal, o) && holds(Relation::Greater, o)),
        holds(Relation::LessOrEqual, o) == (holds(Relation::Less, o) || holds(Relation::Equal, o)),
        holds(Relation::GreaterOrEqual, o) == (holds(Relation::Greater, o) || holds(Relation::Equal, o)),
        holds(Relation::NotEqual, o) == !holds(Relation::Equal, o),
{
}

/// Whether an operator holds between equal operands: `<=`, `==` and `>=`
/// do, `<`, `!=` and `>` do not.
pub open spec fn reflexive(rel: Relation) -> bool {
    rel == Relation::LessOrEqual || rel == Relation::Equal || rel == Relation::GreaterOrEqual
}

/// A versioned package compared with itself: `cat/pkg-1 >= cat/pkg-1`,
/// `cat/pkg-1 <= cat/pkg-1` and `cat/pkg-1 == cat/pkg-1` hold, `<`, `>` and
/// `!=` do not.
pub proof fn lemma_cpv_expr_same_operand(s: Seq<char>)
    requires
        words(s).len() == 3,
        words(s)[0] == words(s)[2],
        cpv_parts(words(s)[0]) is Some,
        relation_named(words(s)[1]) is Some,
    ensures
        cpv_expr_outcome(s) == Ok::<bool, (nat, Seq<char>)>(reflexive(relation_named(words(s)[1]).unwrap())),
{
    let p = cpv_parts(words(s)[0]).unwrap();
    crate::order::lemma_seq_order_flip(p.0, p.0);
    crate::order::lemma_seq_order_flip(p.1, p.1);
    crate::order::lemma_version_order_flip(p.2, p.2);
}

/// Swapping the operands of a versioned package comparison and mirroring
/// its operator gives the same answer: `a >= b` is `b <= a`, `a < b` is
/// `b > a`.
pub proof fn lemma_cpv_expr_mirrored(s: Seq<char>, t: Seq<char>)
    requires
        words(s).len() == 3,
        words(t).len() == 3,
        words(t)[0] == words(s)[2],
        words(t)[2] == words(s)[0],
        cpv_parts(words(s)[0]) is Some,
        cpv_parts(words(s)[2]) is Some,
        relation_named(words(s)[1]) is Some,
        relation_named(words(t)[1]) == Some(mirrored(relation_named(words(s)[1]).unwrap())),
    ensures
        cpv_expr_outcome(s) == cpv_expr_outcome(t),
{
    let p = cpv_parts(words(s)[0]).unwrap();
    let q = cpv_parts(words(s)[2]).unwrap();
    crate::order::lemma_seq_order_flip(p.0, q.0);
    crate::order::lemma_seq_order_flip(p.1, q.1);
    crate::order::lemma_version_order_flip(p.2, q.2);
}

/// Versioned packages compare by category first, then by package name,
/// and only when both are the same by version.
pub proof fn lemma_cpv_order_parts(
    a: (Seq<char>, Seq<char>, VersionView),
    b: (Seq<char>, Seq<char>, VersionView),
)
    ensures
        a.0 != b.0 ==> cpv_order(a, b) == seq_order(a.0, b.0) && cpv_order(a, b) != Order::Equal,
        a.0 == b.0 && a.1 != b.1 ==> cpv_order(a, b) == seq_order(a.1, b.1) && cpv_order(a, b) != Order::Equal,
        a.0 == b.0 && a.1 == b.1 ==> cpv_order(a, b) == version_order(a.2, b.2),
{
    crate::order::lemma_seq_order_flip(a.0, b.0);
    crate::order::lemma_seq_order_flip(a.1, b.1);
}

/// A dependency compared with itself: `=cat/pkg-1 >= =cat/pkg-1` holds, as
/// do `<=` and `==`; `<`, `>` and `!=` do not.
pub proof fn lemma_dep_expr_same_operand(s: Seq<char>, repo_ids: bool)
    requires
        words(s).len() == 3,
        words(s)[0] == words(s)[2],
        dep_parse(words(s)[0], repo_ids) is Some,
        relation_named(words(s)[1]) is Some,
    ensures
        dep_expr_outcome(s, repo_ids) == Ok::<bool, (nat, Seq<char>)>(
            reflexive(relation_named(words(s)[1]).unwrap()),
        ),
{
    let d = dep_parse(words(s)[0], repo_ids).unwrap();
    crate::order::lemma_dep_order_flip(d, d);
}

/// Swapping the operands of a dependency comparison and mirroring its
/// operator gives the same answer.
pub proof fn lemma_dep_expr_mirrored(s: Seq<char>, t: Seq<char>, repo_ids: bool)
    requires
        words(s).len() == 3,
        words(t).len() == 3,
        words(t)[0] == words(s)[2],
        words(t)[2] == words(s)[0],
        dep_parse(words(s)[0], repo_ids) is Some,
        dep_parse(words(s)[2], repo_ids) is Some,
        relation_named(words(s)[1]) is Some,
        relation_named(words(t)[1]) == Some(mirrored(relation_named(words(s)[1]).unwrap())),
    ensures
        dep_expr_outcome(s, repo_ids) == dep_expr_outcome(t, repo_ids),
{
    crate::order::lemma_dep_order_flip(
        dep_parse(words(s)[0], repo_ids).unwrap(),
        dep_parse(words(s)[2], repo_ids).unwrap(),
    );
}

/// Why a comparison expression was rejected, with the offending text.
#[derive(Debug)]
pub enum CompareError {
    /// Not exactly three whitespace-separated words.
    InvalidFormat(String),
    /// An operand that is not a valid dependency.
    InvalidDep(String),
    /// An operand that is not a valid versioned package.
    InvalidCpv(String),
    /// An operator other than `<`, `<=`, `==`, `!=`, `>=` and `>`.
    InvalidOperator(String),
}

/// The value of a comparison error: its kind and its text.
pub open spec fn error_view(e: CompareError) -> (nat, Seq<char>) {
    match e {
        CompareError::InvalidFormat(s) => (0, s@),
        CompareError::InvalidDep(s) => (1, s@),
        CompareError::InvalidCpv(s) => (2, s@),
        CompareError::InvalidOperator(s) => (3, s@),
    }
}

/// The outcome of a dependency comparison expression `lhs op rhs`.
pub open spec fn dep_expr_outcome(s: Seq<char>, repo_ids: bool) -> Result<bool, (nat, Seq<char>)> {
    let w = words(s);
    if w.len() != 3 {
        Err((0, s))
    } else if dep_parse(w[0], repo_ids) is None {
        Err((1, w[0]))
    } else if dep_parse(w[2], repo_ids) is None {
        Err((1, w[2]))
    } else if relation_named(w[1]) is None {
        Err((3, w[1]))
    } else {
        Ok(
            holds(
                relation_named(w[1]).unwrap(),
                dep_order(dep_parse(w[0], repo_ids).unwrap(), dep_parse(w[2], repo_ids).unwrap()),
            ),
        )
    }
}

/// Evaluate a dependency comparison expression such as `cat/pkg <= =cat/pkg-1`.
pub fn compare_dep_expr(s: &str, repo_ids: bool) -> (r: Result<bool, CompareError>)
    ensures
        match r {
            Ok(b) => dep_expr_outcome(s@, repo_ids) == Ok::<bool, (nat, Seq<char>)>(b),
            Err(e) => dep_expr_outcome(s@, repo_ids) == Err::<bool, (nat, Seq<char>)>(error_view(e)),
        },
{
    let w = split_whitespace(s);
    if w.len() != 3 {
        return Err(CompareError::InvalidFormat(String::from_str(s)));
    }
    assert(views(w@)[0] == w@[0]@ && views(w@)[1] == w@[1]@ && views(w@)[2] == w@[2]@);
    let lhs = match Dep::parse(w[0].as_str(), repo_ids) {
        Ok(d) => d,
        Err(_) => return Err(CompareError::InvalidDep(w[0].clone())),
    };
    let rhs = match Dep::parse(w[2].as_str(), repo_ids) {
        Ok(d) => d,
        Err(_) => return Err(CompareError::InvalidDep(w[2].clone())),
    };
    let rel = match relation_from(&w[1]) {
        Some(rel) => rel,
        None => return Err(CompareError::InvalidOperator(w[1].clone())),
    };
    proof {
        lemma_dep_parse_wf(w@[0]@, repo_ids);
        lemma_dep_parse_wf(w@[2]@, repo_ids);
    }
    let o = compare_deps(&lhs, &rhs);
    Ok(holds_exec(rel, o))
}

/// The outcome of a list of expressions: the first error, or whether all hold.
pub open spec fn all_outcome(outcomes: Seq<Result<bool, (nat, Seq<char>)>>) -> Result<
    bool,
    (nat, Seq<char>),
>
    decreases outcomes.len(),
{
    if outcomes.len() == 0 {
        Ok(true)
    } else {
        match outcomes[0] {
            Err(e) => Err(e),
            Ok(b) => match all_outcome(outcomes.drop_first()) {
                Err(e) => Err(e),
                Ok(rest) => Ok(b && rest),
            },
        }
    }
}

proof fn lemma_all_outcome_split(o: Seq<Result<bool, (nat, Seq<char>)>>, i: int, acc: bool, b: bool)
    requires
        0 <= i < o.len(),
        o[i] == Ok::<bool, (nat, Seq<char>)>(b),
    ensures
        (match all_outcome(o.skip(i)) {
            Err(e) => Err::<bool, (nat, Seq<char>)>(e),
            Ok(rest) => Ok(acc && rest),
        }) == (match all_outcome(o.skip(i + 1)) {
            Err(e) => Err::<bool, (nat, Seq<char>)>(e),
            Ok(rest) => Ok(acc && b && rest),
        }),
{
    assert(o.skip(i)[0] == o[i]);
    assert(o.skip(i).drop_first() =~= o.skip(i + 1));
}

/// The outcomes of dependency expressions.
pub open spec fn dep_outcomes(exprs: Seq<Seq<char>>, repo_ids: bool) -> Seq<
    Result<bool, (nat, Seq<char>)>,
> {
    exprs.map_values(|e: Seq<char>| dep_expr_outcome(e, repo_ids))
}

/// `pk dep compare`: evaluate each expression in turn, stopping at the first
/// invalid one; the result tells whether all of them hold.
pub fn compare_dep_exprs(exprs: &Vec<String>, repo_ids: bool) -> (r: Result<bool, CompareError>)
    ensures
        match r {
            Ok(b) => all_outcome(dep_outcomes(views(exprs@), repo_ids)) == Ok::<
                bool,
                (nat, Seq<char>),
            >(b),
            Err(e) => all_outcome(dep_outcomes(views(exprs@), repo_ids)) == Err::<
                bool,
                (nat, Seq<char>),
            >(error_view(e)),
        },
{
    let ghost o = dep_outcomes(views(exprs@), repo_ids);
    let mut acc = true;
    let mut i: usize = 0;
    assert(o.skip(0) =~= o);
    while i < exprs.len()
        invariant
            i <= exprs@.len(),
            o == dep_outcomes(views(exprs@), repo_ids),
            o.len() == exprs@.len(),
            all_outcome(o) == (match all_outcome(o.skip(i as int)) {
                Err(e) => Err::<bool, (nat, Seq<char>)>(e),
                Ok(rest) => Ok(acc && rest),
            }),
        decreases exprs@.len() - i,
    {
        assert(o[i as int] == dep_expr_outcome(exprs@[i as int]@, repo_ids));
        match compare_dep_expr(exprs[i].as_str(), repo_ids) {
            Err(e) => {
                assert(o.skip(i as int)[0] == o[i as int]);
                return Err(e);
            },
            Ok(b) => {
                proof {
                    lemma_all_outcome_split(o, i as int, acc, b);
                }
                acc = acc && b;
            },
        }
        i = i + 1;
    }
    assert(o.skip(i as int).len() == 0);
    Ok(acc)
}

/// The order of two versioned packages: by category, package and version.
pub open spec fn cpv_order(
    a: (Seq<char>, Seq<char>, VersionView),
    b: (Seq<char>, Seq<char>, VersionView),
) -> Order {
    chain(seq_order(a.0, b.0), chain(seq_order(a.1, b.1), version_order(a.2, b.2)))
}

/// The parts of a versioned package string.
pub open spec fn cpv_parts(s: Seq<char>) -> Option<(Seq<char>, Seq<char>, VersionView)> {
    match cpv_split(s) {
        Some((c, p)) => Some((s.take(c), s.subrange(c + 1, p), version_view_at(s, p + 1).unwrap())),
        None => None,
    }
}

/// The outcome of a versioned package comparison expression `lhs op rhs`.
pub open spec fn cpv_expr_outcome(s: Seq<char>) -> Result<bool, (nat, Seq<char>)> {
    let w = words(s);
    if w.len() != 3 {
        Err((0, s))
    } else if cpv_parts(w[0]) is None {
        Err((2, w[0]))
    } else if cpv_parts(w[2]) is None {
        Err((2, w[2]))
    } else if relation_named(w[1]) is None {
        Err((3, w[1]))
    } else {
        Ok(holds(relation_named(w[1]).unwrap(), cpv_order(cpv_parts(w[0]).unwrap(), cpv_parts(w[2]).unwrap())))
    }
}

pub(crate) fn compare_cpvs(a: &Cpv, b: &Cpv) -> (r: Order)
    requires
        version_wf(a.version@),
        version_wf(b.version@),
    ensures
        r == cpv_order((a.category@, a.package@, a.version@), (b.category@, b.package@, b.version@)),
{
    let x = crate::order::string_order(&a.category, &b.category);
    let y = crate::order::string_order(&a.package, &b.package);
    let z = compare_versions(&a.version, &b.version);
    match x {
        Order::Equal => match y {
            Order::Equal => z,
            _ => y,
        },
        _ => x,
    }
}

/// Evaluate a versioned package comparison expression such as
/// `cat/pkg-1.2.3-r1 <= cat/pkg-1.2.3-r2`.
pub fn compare_cpv_expr(s: &str) -> (r: Result<bool, CompareError>)
    ensures
        match r {
            Ok(b) => cpv_expr_outcome(s@) == Ok::<bool, (nat, Seq<char>)>(b),
            Err(e) => cpv_expr_outcome(s@) == Err::<bool, (nat, Seq<char>)>(error_view(e)),
        },
{
    let w = split_whitespace(s);
    if w.len() != 3 {
        return Err(CompareError::InvalidFormat(String::from_str(s)));
    }
    assert(views(w@)[0] == w@[0]@ && views(w@)[1] == w@[1]@ && views(w@)[2] == w@[2]@);
    let lhs = match cpv(w[0].as_str()) {
        Ok(c) => c,
        Err(_) => return Err(CompareError::InvalidCpv(w[0].clone())),
    };
    let rhs = match cpv(w[2].as_str()) {
        Ok(c) => c,
        Err(_) => return Err(CompareError::InvalidCpv(w[2].clone())),
    };
    let rel = match relation_from(&w[1]) {
        Some(rel) => rel,
        None => return Err(CompareError::InvalidOperator(w[1].clone())),
    };
    let o = compare_cpvs(&lhs, &rhs);
    Ok(holds_exec(rel, o))
}

/// The outcomes of versioned package comparison expressions.
pub open spec fn cpv_outcomes(exprs: Seq<Seq<char>>) -> Seq<Result<bool, (nat, Seq<char>)>> {
    exprs.map_values(|e: Seq<char>| cpv_expr_outcome(e))
}

/// `pk cpv compare`: evaluate each expression in turn, stopping at the first
/// invalid one; the result tells whether all of them hold.
pub fn compare_cpv_exprs(exprs: &Vec<String>) -> (r: Result<bool, CompareError>)
    ensures
        match r {
            Ok(b) => all_outcome(cpv_outcomes(views(exprs@))) == Ok::<bool, (nat, Seq<char>)>(b),
            Err(e) => all_outcome(cpv_outcomes(views(exprs@))) == Err::<bool, (nat, Seq<char>)>(
                error_view(e),
            ),
        },
{
    let ghost o = cpv_outcomes(views(exprs@));
    let mut acc = true;
    let mut i: usize = 0;
    assert(o.skip(0) =~= o);
    while i < exprs.len()
        invariant
            i <= exprs@.len(),
            o == cpv_outcomes(views(exprs@)),
            o.len() == exprs@.len(),
            all_outcome(o) == (match all_outcome(o.skip(i as int)) {
                Err(e) => Err::<bool, (nat, Seq<char>)>(e),
                Ok(rest) => Ok(acc && rest),
            }),
        decreases exprs@.len() - i,
    {
        assert(o[i as int] == cpv_expr_outcome(exprs@[i as int]@));
        match compare_cpv_expr(exprs[i].as_str()) {
            Err(e) => {
                assert(o.skip(i as int)[0] == o[i as int]);
                return Err(e);
            },
            Ok(b) => {
                proof {
                    lemma_all_outcome_split(o, i as int, acc, b);
                }
                acc = acc && b;
            },
        }
        i = i + 1;
    }
    assert(o.skip(i as int).len() == 0);
    Ok(acc)
}

// ---------------------------------------------------------------------------
// format keys of `pk dep parse`

/// The fields of a dependency that `pk dep parse --format` can print.
#[allow(non_camel_case_types)]
#[derive(Clone, Copy, PartialEq, Eq, Structural, Debug)]
pub enum Key {
    BLOCKER,
    CATEGORY,
    P,
    PF,
    PN,
    PR,
    PV,
    PVR,
    CPN,
    CPV,
    OP,
    SLOT,
    SUBSLOT,
    SLOT_OP,
    REPO,
    USE,
    DEP,
}

/// The name of a key.
pub open spec fn key_name(k: Key) -> Seq<char> {
    match k {
        Key::BLOCKER => "BLOCKER"@,
        Key::CATEGORY => "CATEGORY"@,
        Key::P => "P"@,
        Key::PF => "PF"@,
        Key::PN => "PN"@,
        Key::PR => "PR"@,
        Key::PV => "PV"@,
        Key::PVR => "PVR"@,
        Key::CPN => "CPN"@,
        Key::CPV => "CPV"@,
        Key::OP => "OP"@,
        Key::SLOT => "SLOT"@,
        Key::SUBSLOT => "SUBSLOT"@,
        Key::SLOT_OP => "SLOT_OP"@,
        Key::REPO => "REPO"@,
        Key::USE => "USE"@,
        Key::DEP => "DEP"@,
    }
}

/// The key with a given name.
pub open spec fn key_named(s: Seq<char>) -> Option<Key> {
    if s == "BLOCKER"@ {
        Some(Key::BLOCKER)
    } else if s == "CATEGORY"@ {
        Some(Key::CATEGORY)
    } else if s == "P"@ {
        Some(Key::P)
    } else if s == "PF"@ {
        Some(Key::PF)
    } else if s == "PN"@ {
        Some(Key::PN)
    } else if s == "PR"@ {
        Some(Key::PR)
    } else if s == "PV"@ {
        Some(Key::PV)
    } else if s == "PVR"@ {
        Some(Key::PVR)
    } else if s == "CPN"@ {
        Some(Key::CPN)
    } else if s == "CPV"@ {
        Some(Key::CPV)
    } else if s == "OP"@ {
        Some(Key::OP)
    } else if s == "SLOT"@ {
        Some(Key::SLOT)
    } else if s == "SUBSLOT"@ {
        Some(Key::SUBSLOT)
    } else if s == "SLOT_OP"@ {
        Some(Key::SLOT_OP)
    } else if s == "REPO"@ {
        Some(Key::REPO)
    } else if s == "USE"@ {
        Some(Key::USE)
    } else if s == "DEP"@ {
        Some(Key::DEP)
    } else {
        None
    }
}

/// The version without its revision.
pub open spec fn pv_of(v: VersionView) -> Seq<char> {
    v.text.take(v.base_len as int)
}

/// The revision as `rN`, `r0` when there is none.
pub open spec fn pr_of(v: VersionView) -> Seq<char> {
    seq!['r'] + match v.revision {
        Some(r) => r,
        None => seq!['0'],
    }
}

/// The package name with the version text produced by `f` appended after a hyphen.
pub open spec fn with_version(package: Seq<char>, v: Option<VersionView>, full: bool) -> Seq<char> {
    match v {
        Some(v) => package + seq!['-'] + if full {
            v.text
        } else {
            pv_of(v)
        },
        None => package,
    }
}

/// How a version operator prints on its own.
pub open spec fn op_name(op: Option<Operator>) -> Seq<char> {
    match op {
        None => Seq::empty(),
        Some(Operator::Less) => seq!['<'],
        Some(Operator::LessOrEqual) => seq!['<', '='],
        Some(Operator::Equal) => seq!['='],
        Some(Operator::EqualGlob) => seq!['=', '*'],
        Some(Operator::Approximate) => seq!['~'],
        Some(Operator::GreaterOrEqual) => seq!['>', '='],
        Some(Operator::Greater) => seq!['>'],
    }
}

/// The value a key prints for a dependency.
pub open spec fn key_value(k: Key, d: DepView) -> Seq<char> {
    match k {
        Key::BLOCKER => blocker_str(d.blocker),
        Key::CATEGORY => d.category,
        Key::P => with_version(d.package, d.version, false),
        Key::PF => with_version(d.package, d.version, true),
        Key::PN => d.package,
        Key::PR => match d.version {
            Some(v) => pr_of(v),
            None => Seq::empty(),
        },
        Key::PV => match d.version {
            Some(v) => pv_of(v),
            None => Seq::empty(),
        },
        Key::PVR => match d.version {
            Some(v) => v.text,
            None => Seq::empty(),
        },
        Key::CPN => d.category + seq!['/'] + d.package,
        Key::CPV => d.category + seq!['/'] + with_version(d.package, d.version, true),
        Key::OP => op_name(d.op),
        Key::SLOT => opt_seq(d.slot),
        Key::SUBSLOT => opt_seq(d.subslot),
        Key::SLOT_OP => match d.slot_op {
            Some(SlotOperator::Equal) => seq!['='],
            Some(SlotOperator::Star) => seq!['*'],
            None => Seq::empty(),
        },
        Key::REPO => opt_seq(d.repo),
        Key::USE => match d.use_deps {
            Some(v) => use_join(v),
            None => Seq::empty(),
        },
        Key::DEP => dep_string(d),
    }
}

fn push_version(out: &mut String, d: &Dep, full: bool)
    requires
        dep_wf(d@),
    ensures
        final(out)@ == old(out)@ + with_version(seq![], d@.version, full),
{
    match &d.version {
        Some(v) => {
            proof {
                reveal_strlit("-");
                assert("-"@ =~= seq!['-']);
            }
            out.append("-");
            if full {
                out.append(v.text.as_str());
            } else {
                let cs = chars_of(v.text.as_str());
                let base = string_from(&cs, 0, v.base_len);
                assert(cs@.subrange(0, v.base_len as int) =~= pv_of(v@));
                out.append(base.as_str());
            }
            assert(final_seq_eq(out@, old(out)@, with_version(seq![], d@.version, full)));
        },
        None => {
            assert(out@ =~= old(out)@ + with_version(seq![], d@.version, full));
        },
    }
}

spec fn final_seq_eq(a: Seq<char>, b: Seq<char>, c: Seq<char>) -> bool {
    a =~= b + c
}

proof fn lemma_with_version(package: Seq<char>, v: Option<VersionView>, full: bool)
    ensures
        with_version(package, v, full) == package + with_version(seq![], v, full),
{
    match v {
        Some(x) => {
            assert(with_version(package, v, full) =~= package + with_version(seq![], v, full));
        },
        None => {
            assert(with_version(package, v, full) =~= package + with_version(seq![], v, full));
        },
    }
}

impl Key {
    /// The key's name.
    pub fn name(&self) -> (r: &'static str)
        ensures
            r@ == key_name(*self),
    {
        match self {
            Key::BLOCKER => "BLOCKER",
            Key::CATEGORY => "CATEGORY",
            Key::P => "P",
            Key::PF => "PF",
            Key::PN => "PN",
            Key::PR => "PR",
            Key::PV => "PV",
            Key::PVR => "PVR",
            Key::CPN => "CPN",
            Key::CPV => "CPV",
            Key::OP => "OP",
            Key::SLOT => "SLOT",
            Key::SUBSLOT => "SUBSLOT",
            Key::SLOT_OP => "SLOT_OP",
            Key::REPO => "REPO",
            Key::USE => "USE",
            Key::DEP => "DEP",
        }
    }

    /// The key with a given name.
    pub fn from_name(s: &str) -> (r: Option<Key>)
        ensures
            r == key_named(s@),
    {
        if str_eq(s, "BLOCKER") {
            Some(Key::BLOCKER)
        } else if str_eq(s, "CATEGORY") {
            Some(Key::CATEGORY)
        } else if str_eq(s, "P") {
            Some(Key::P)
        } else if str_eq(s, "PF") {
            Some(Key::PF)
        } else if str_eq(s, "PN") {
            Some(Key::PN)
        } else if str_eq(s, "PR") {
            Some(Key::PR)
        } else if str_eq(s, "PV") {
            Some(Key::PV)
        } else if str_eq(s, "PVR") {
            Some(Key::PVR)
        } else if str_eq(s, "CPN") {
            Some(Key::CPN)
        } else if str_eq(s, "CPV") {
            Some(Key::CPV)
        } else if str_eq(s, "OP") {
            Some(Key::OP)
        } else if str_eq(s, "SLOT") {
            Some(Key::SLOT)
        } else if str_eq(s, "SUBSLOT") {
            Some(Key::SUBSLOT)
        } else if str_eq(s, "SLOT_OP") {
            Some(Key::SLOT_OP)
        } else if str_eq(s, "REPO") {
            Some(Key::REPO)
        } else if str_eq(s, "USE") {
            Some(Key::USE)
        } else if str_eq(s, "DEP") {
            Some(Key::DEP)
        } else {
            None
        }
    }

    /// The value the key prints for a dependency.
    pub fn value(&self, obj: &Dep) -> (r: String)
        requires
            dep_wf(obj@),
        ensures
            r@ == key_value(*self, obj@),
    {
        proof {
            reveal_strlit("/");
            reveal_strlit("r");
            reveal_strlit("0");
            reveal_strlit("<");
            reveal_strlit("<=");
            reveal_strlit("=");
            reveal_strlit("=*");
            reveal_strlit("~");
            reveal_strlit(">=");
            reveal_strlit(">");
            reveal_strlit("*");
            assert("/"@ =~= seq!['/']);
            assert("r"@ =~= seq!['r']);
            assert("0"@ =~= seq!['0']);
            assert("<"@ =~= seq!['<']);
            assert("<="@ =~= seq!['<', '=']);
            assert("="@ =~= seq!['=']);
            assert("=*"@ =~= seq!['=', '*']);
            assert("~"@ =~= seq!['~']);
            assert(">="@ =~= seq!['>', '=']);
            assert(">"@ =~= seq!['>']);
            assert("*"@ =~= seq!['*']);
        }
        let mut out = String::new();
        match self {
            Key::BLOCKER => {
                match obj.blocker {
                    None => {},
                    Some(crate::dep::Blocker::Weak) => {
                        proof {
                            reveal_strlit("!");
                            assert("!"@ =~= seq!['!']);
                        }
                        out.append("!");
                    },
                    Some(crate::dep::Blocker::Strong) => {
                        proof {
                            reveal_strlit("!!");
                            assert("!!"@ =~= seq!['!', '!']);
                        }
                        out.append("!!");
                    },
                }
            },
            Key::CATEGORY => out.append(obj.category.as_str()),
            Key::P | Key::PF => {
                out.append(obj.package.as_str());
                push_version(&mut out, obj, *self == Key::PF);
                proof {
                    lemma_with_version(obj.package@, obj@.version, *self == Key::PF);
                }
            },
            Key::PN => out.append(obj.package.as_str()),
            Key::PR => {
                match &obj.version {
                    Some(v) => {
                        out.append("r");
                        match &v.revision {
                            Some(r) => out.append(r.as_str()),
                            None => out.append("0"),
                        }
                    },
                    None => {},
                }
            },
            Key::PV | Key::PVR => {
                push_version(&mut out, obj, *self == Key::PVR);
                let cs = chars_of(out.as_str());
                if cs.len() > 0 {
                    out = string_from(&cs, 1, cs.len());
                }
                proof {
                    match obj@.version {
                        Some(v) => {
                            assert(cs@.subrange(1, cs@.len() as int) =~= key_value(*self, obj@));
                        },
                        None => {
                            assert(out@ =~= key_value(*self, obj@));
                        },
                    }
                }
            },
            Key::CPN => {
                out.append(obj.category.as_str());
                out.append("/");
                out.append(obj.package.as_str());
            },
            Key::CPV => {
                out.append(obj.category.as_str());
                out.append("/");
                out.append(obj.package.as_str());
                push_version(&mut out, obj, true);
                proof {
                    lemma_with_version(obj.package@, obj@.version, true);
                }
            },
            Key::OP => {
                match obj.op {
                    None => {},
                    Some(Operator::Less) => out.append("<"),
                    Some(Operator::LessOrEqual) => out.append("<="),
                    Some(Operator::Equal) => out.append("="),
                    Some(Operator::EqualGlob) => out.append("=*"),
                    Some(Operator::Approximate) => out.append("~"),
                    Some(Operator::GreaterOrEqual) => out.append(">="),
                    Some(Operator::Greater) => out.append(">"),
                }
            },
            Key::SLOT => push_opt_str(&mut out, &obj.slot),
            Key::SUBSLOT => push_opt_str(&mut out, &obj.subslot),
            Key::SLOT_OP => {
                match obj.slot_op {
                    Some(SlotOperator::Equal) => out.append("="),
                    Some(SlotOperator::Star) => out.append("*"),
                    None => {},
                }
            },
            Key::REPO => push_opt_str(&mut out, &obj.repo),
            Key::USE => {
                match &obj.use_deps {
                    Some(v) => {
                        out = crate::dep::use_deps_string(v);
                    },
                    None => {},
                }
            },
            Key::DEP => {
                out = obj.to_string();
            },
        }
        assert(out@ =~= key_value(*self, obj@));
        out
    }
}

fn push_opt_str(out: &mut String, o: &Option<String>)
    ensures
        final(out)@ == old(out)@ + opt_seq(opt_view(*o)),
{
    match o {
        Some(x) => out.append(x.as_str()),
        None => {
            assert(old(out)@ + Seq::<char>::empty() =~= old(out)@);
        },
    }
}


/// The BLOCKER key of a parsed dependency is the run of `!` that begins
/// its text: `!` for `!cat/pkg`, `!!` for `!!cat/pkg`, nothing for
/// `cat/pkg`.
pub proof fn lemma_blocker_key(s: Seq<char>, repo_ids: bool)
    requires
        dep_parse(s, repo_ids) is Some,
    ensures
        ({
            let v = key_value(Key::BLOCKER, dep_parse(s, repo_ids).unwrap());
            &&& v.len() < s.len()
            &&& s.take(v.len() as int) == v
            &&& forall|i: int| 0 <= i < v.len() ==> v[i] == '!'
            &&& s[v.len() as int] != '!'
        }),
{
    reveal(crate::dep::dep_assemble);
    let (blocker, b) = crate::dep::blocker_at(s);
    let pp = crate::dep::pkg_at(s, b).unwrap();
    let d = dep_parse(s, repo_ids).unwrap();
    assert(d.blocker == blocker);
    let v = key_value(Key::BLOCKER, d);
    assert(v.len() == b);
    assert(b < s.len() && s[b] != '!') by {
        match crate::dep::name_end(s, b, crate::chars::CharClass::NameStart, crate::chars::CharClass::CategoryChar) {
            Some(_) => {},
            None => {
                assert(crate::dep::op_at(s, b) is Some);
            },
        }
    }
    assert(s.take(v.len() as int) =~= v);
}

/// The `*` that follows the version of an `=*` dependency.
pub open spec fn glob_mark(d: DepView) -> Seq<char> {
    if d.op == Some(Operator::EqualGlob) {
        seq!['*']
    } else {
        Seq::empty()
    }
}

/// A dependency's text put together from its key values: BLOCKER, the
/// operator, CPV, the `*` of `=*`, then `:` SLOT, `/` SUBSLOT and SLOT_OP
/// when there is a slot part, `::` REPO when there is a repo, and `[` USE
/// `]` when there are USE dependencies.
pub open spec fn text_from_keys(d: DepView) -> Seq<char> {
    key_value(Key::BLOCKER, d) + crate::dep::op_str(d.op) + key_value(Key::CPV, d) + glob_mark(d) + (if d.slot
        is None && d.slot_op is None {
        Seq::empty()
    } else {
        seq![':'] + key_value(Key::SLOT, d) + (if d.subslot is Some {
            seq!['/'] + key_value(Key::SUBSLOT, d)
        } else {
            Seq::empty()
        }) + key_value(Key::SLOT_OP, d)
    }) + (if d.repo is Some {
        seq![':', ':'] + key_value(Key::REPO, d)
    } else {
        Seq::empty()
    }) + (if d.use_deps is Some {
        seq!['['] + key_value(Key::USE, d) + seq![']']
    } else {
        Seq::empty()
    })
}

/// A dependency's package text is its operator, its CPV key and, for `=*`,
/// a `*`.
proof fn lemma_pkg_text_cpv(d: DepView)
    ensures
        crate::dep::pkg_text(d.op, d.category, d.package, d.version) == crate::dep::op_str(d.op) + key_value(
            Key::CPV,
            d,
        ) + glob_mark(d),
{
    match d.version {
        Some(v) => {
            assert(crate::dep::pkg_text(d.op, d.category, d.package, d.version) =~= crate::dep::op_str(d.op)
                + key_value(Key::CPV, d) + glob_mark(d));
        },
        None => {
            assert(crate::dep::pkg_text(d.op, d.category, d.package, d.version) =~= crate::dep::op_str(d.op)
                + key_value(Key::CPV, d) + glob_mark(d));
        },
    }
}

/// A text made of a head and a rest begins with the head.
proof fn lemma_take_head(a: Seq<char>, b: Seq<char>, c: Seq<char>, rest: Seq<char>)
    ensures
        (a + b + c + rest).take((a + b + c).len() as int) == a + b + c,
{
    assert((a + b + c + rest).take((a + b + c).len() as int) =~= a + b + c);
}

/// A dependency's slot part made of its SLOT, SUBSLOT and SLOT_OP keys.
proof fn lemma_slot_keys(d: DepView)
    ensures
        crate::dep::slot_str(d.slot, d.subslot, d.slot_op) == (if d.slot is None && d.slot_op is None {
            Seq::<char>::empty()
        } else {
            seq![':'] + key_value(Key::SLOT, d) + (if d.subslot is Some {
                seq!['/'] + key_value(Key::SUBSLOT, d)
            } else {
                Seq::<char>::empty()
            }) + key_value(Key::SLOT_OP, d)
        }),
{
    if !(d.slot is None && d.slot_op is None) {
        assert(crate::dep::slot_str(d.slot, d.subslot, d.slot_op) =~= seq![':'] + key_value(Key::SLOT, d) + (
        if d.subslot is Some {
            seq!['/'] + key_value(Key::SUBSLOT, d)
        } else {
            Seq::<char>::empty()
        }) + key_value(Key::SLOT_OP, d));
    }
}

/// A dependency's text is the one its key values put together.
proof fn lemma_text_from_keys(d: DepView)
    ensures
        dep_string(d) == text_from_keys(d),
{
    let b = blocker_str(d.blocker);
    let o = crate::dep::op_str(d.op);
    let cpv = key_value(Key::CPV, d);
    lemma_pkg_text_cpv(d);
    lemma_slot_keys(d);
    let rp = crate::dep::repo_part_str(d.repo);
    let up = crate::dep::use_part_str(d.use_deps);
    assert(rp == (if d.repo is Some {
        seq![':', ':'] + key_value(Key::REPO, d)
    } else {
        Seq::<char>::empty()
    }));
    assert(up == (if d.use_deps is Some {
        seq!['['] + key_value(Key::USE, d) + seq![']']
    } else {
        Seq::<char>::empty()
    }));
    assert(dep_string(d) =~= text_from_keys(d));
}

/// How the keys of a dependency build on one another.
proof fn lemma_key_parts(d: DepView)
    ensures
        key_value(Key::OP, d) == crate::dep::op_str(d.op) + glob_mark(d),
        key_value(Key::CPV, d) == key_value(Key::CATEGORY, d) + seq!['/'] + key_value(Key::PF, d),
        key_value(Key::PF, d) == (if d.version is Some {
            key_value(Key::PN, d) + seq!['-'] + key_value(Key::PVR, d)
        } else {
            key_value(Key::PN, d)
        }),
        key_value(Key::P, d) == (if d.version is Some {
            key_value(Key::PN, d) + seq!['-'] + key_value(Key::PV, d)
        } else {
            key_value(Key::PN, d)
        }),
{
    assert(key_value(Key::OP, d) =~= crate::dep::op_str(d.op) + glob_mark(d));
    assert(key_value(Key::CPV, d) =~= key_value(Key::CATEGORY, d) + seq!['/'] + key_value(Key::PF, d));
    if d.version is Some {
        assert(key_value(Key::PF, d) =~= key_value(Key::PN, d) + seq!['-'] + key_value(Key::PVR, d));
        assert(key_value(Key::P, d) =~= key_value(Key::PN, d) + seq!['-'] + key_value(Key::PV, d));
    }
}

/// The key values of a dependency laid out in its text.
proof fn lemma_keys_in_text(d: DepView)
    ensures
        ({
            let t = dep_string(d);
            let head = key_value(Key::BLOCKER, d) + crate::dep::op_str(d.op) + key_value(Key::CPV, d);
            &&& key_value(Key::DEP, d) == t
            &&& t == text_from_keys(d)
            &&& head.len() <= t.len()
            &&& t.take(head.len() as int) == head
        }),
{
    let b = blocker_str(d.blocker);
    let o = crate::dep::op_str(d.op);
    let cpv = key_value(Key::CPV, d);
    lemma_text_from_keys(d);
    let rest = text_from_keys(d).skip((b + o + cpv).len() as int);
    assert(text_from_keys(d) =~= b + o + cpv + rest);
    lemma_take_head(b, o, cpv, rest);
}

/// The DEP key of a parsed dependency is its text, and the text is put
/// together from its key values (see `text_from_keys`); so it begins with
/// the BLOCKER key, then the operator, then the CPV key. The OP key is the
/// operator with the `*` of `=*`; the CPV key is the CATEGORY key, `/` and
/// the PF key; the PF and P keys are the PN key followed, when there is a
/// version, by `-` and the PVR or PV key.
pub proof fn lemma_dep_keys(s: Seq<char>, repo_ids: bool)
    requires
        dep_parse(s, repo_ids) is Some,
    ensures
        ({
            let d = dep_parse(s, repo_ids).unwrap();
            let head = key_value(Key::BLOCKER, d) + crate::dep::op_str(d.op) + key_value(Key::CPV, d);
            &&& key_value(Key::DEP, d) == s
            &&& text_from_keys(d) == s
            &&& head.len() <= s.len()
            &&& s.take(head.len() as int) == head
            &&& key_value(Key::OP, d) == crate::dep::op_str(d.op) + glob_mark(d)
            &&& key_value(Key::CPV, d) == key_value(Key::CATEGORY, d) + seq!['/'] + key_value(Key::PF, d)
            &&& key_value(Key::PF, d) == (if d.version is Some {
                key_value(Key::PN, d) + seq!['-'] + key_value(Key::PVR, d)
            } else {
                key_value(Key::PN, d)
            })
            &&& key_value(Key::P, d) == (if d.version is Some {
                key_value(Key::PN, d) + seq!['-'] + key_value(Key::PV, d)
            } else {
                key_value(Key::PN, d)
            })
        }),
{
    crate::dep::lemma_dep_roundtrip(s, repo_ids);
    lemma_keys_in_text(dep_parse(s, repo_ids).unwrap());
    lemma_key_parts(dep_parse(s, repo_ids).unwrap());
}

/// A key's name parses back to the key.
pub proof fn lemma_key_name_roundtrip(k: Key)
    ensures
        key_named(key_name(k)) == Some(k),
{
    reveal_strlit("BLOCKER");
    reveal_strlit("CATEGORY");
    reveal_strlit("P");
    reveal_strlit("PF");
    reveal_strlit("PN");
    reveal_strlit("PR");
    reveal_strlit("PV");
    reveal_strlit("PVR");
    reveal_strlit("CPN");
    reveal_strlit("CPV");
    reveal_strlit("OP");
    reveal_strlit("SLOT");
    reveal_strlit("SUBSLOT");
    reveal_strlit("SLOT_OP");
    reveal_strlit("REPO");
    reveal_strlit("USE");
    reveal_strlit("DEP");
    assert("CATEGORY"@.len() != "BLOCKER"@.len());
    assert("P"@.len() != "BLOCKER"@.len());
    assert("P"@.len() != "CATEGORY"@.len());
    assert("PF"@.len() != "BLOCKER"@.len());
    assert("PF"@.len() != "CATEGORY"@.len());
    assert("PF"@.len() != "P"@.len());
    assert("PN"@.len() != "BLOCKER"@.len());
    assert("PN"@.len() != "CATEGORY"@.len());
    assert("PN"@.len() != "P"@.len());
    assert("PN"@[1] != "PF"@[1]);
    assert("PR"@.len() != "BLOCKER"@.len());
    assert("PR"@.len() != "CATEGORY"@.len());
    assert("PR"@.len() != "P"@.len());
    assert("PR"@[1] != "PF"@[1]);
    assert("PR"@[1] != "PN"@[1]);
    assert("PV"@.len() != "BLOCKER"@.len());
    assert("PV"@.len() != "CATEGORY"@.len());
    assert("PV"@.len() != "P"@.len());
    assert("PV"@[1] != "PF"@[1]);
    assert("PV"@[1] != "PN"@[1]);
    assert("PV"@[1] != "PR"@[1]);
    assert("PVR"@.len() != "BLOCKER"@.len());
    assert("PVR"@.len() != "CATEGORY"@.len());
    assert("PVR"@.len() != "P"@.len());
    assert("PVR"@.len() != "PF"@.len());
    assert("PVR"@.len() != "PN"@.len());
    assert("PVR"@.len() != "PR"@.len());
    assert("PVR"@.len() != "PV"@.len());
    assert("CPN"@.len() != "BLOCKER"@.len());
    assert("CPN"@.len() != "CATEGORY"@.len());
    assert("CPN"@.len() != "P"@.len());
    assert("CPN"@.len() != "PF"@.len());
    assert("CPN"@.len() != "PN"@.len());
    assert("CPN"@.len() != "PR"@.len());
    assert("CPN"@.len() != "PV"@.len());
    assert("CPN"@[0] != "PVR"@[0]);
    assert("CPV"@.len() != "BLOCKER"@.len());
    assert("CPV"@.len() != "CATEGORY"@.len());
    assert("CPV"@.len() != "P"@.len());
    assert("CPV"@.len() != "PF"@.len());
    assert("CPV"@.len() != "PN"@.len());
    assert("CPV"@.len() != "PR"@.len());
    assert("CPV"@.len() != "PV"@.len());
    assert("CPV"@[0] != "PVR"@[0]);
    assert("CPV"@[2] != "CPN"@[2]);
    assert("OP"@.len() != "BLOCKER"@.len());
    assert("OP"@.len() != "CATEGORY"@.len());
    assert("OP"@.len() != "P"@.len());
    assert("OP"@[0] != "PF"@[0]);
    assert("OP"@[0] != "PN"@[0]);
    assert("OP"@[0] != "PR"@[0]);
    assert("OP"@[0] != "PV"@[0]);
    assert("OP"@.len() != "PVR"@.len());
    assert("OP"@.len() != "CPN"@.len());
    assert("OP"@.len() != "CPV"@.len());
    assert("SLOT"@.len() != "BLOCKER"@.len());
    assert("SLOT"@.len() != "CATEGORY"@.len());
    assert("SLOT"@.len() != "P"@.len());
    assert("SLOT"@.len() != "PF"@.len());
    assert("SLOT"@.len() != "PN"@.len());
    assert("SLOT"@.len() != "PR"@.len());
    assert("SLOT"@.len() != "PV"@.len());
    assert("SLOT"@.len() != "PVR"@.len());
    assert("SLOT"@.len() != "CPN"@.len());
    assert("SLOT"@.len() != "CPV"@.len());
    assert("SLOT"@.len() != "OP"@.len());
    assert("SUBSLOT"@[0] != "BLOCKER"@[0]);
    assert("SUBSLOT"@.len() != "CATEGORY"@.len());
    assert("SUBSLOT"@.len() != "P"@.len());
    assert("SUBSLOT"@.len() != "PF"@.len());
    assert("SUBSLOT"@.len() != "PN"@.len());
    assert("SUBSLOT"@.len() != "PR"@.len());
    assert("SUBSLOT"@.len() != "PV"@.len());
    assert("SUBSLOT"@.len() != "PVR"@.len());
    assert("SUBSLOT"@.len() != "CPN"@.len());
    assert("SUBSLOT"@.len() != "CPV"@.len());
    assert("SUBSLOT"@.len() != "OP"@.len());
    assert("SUBSLOT"@.len() != "SLOT"@.len());
    assert("SLOT_OP"@[0] != "BLOCKER"@[0]);
    assert("SLOT_OP"@.len() != "CATEGORY"@.len());
    assert("SLOT_OP"@.len() != "P"@.len());
    assert("SLOT_OP"@.len() != "PF"@.len());
    assert("SLOT_OP"@.len() != "PN"@.len());
    assert("SLOT_OP"@.len() != "PR"@.len());
    assert("SLOT_OP"@.len() != "PV"@.len());
    assert("SLOT_OP"@.len() != "PVR"@.len());
    assert("SLOT_OP"@.len() != "CPN"@.len());
    assert("SLOT_OP"@.len() != "CPV"@.len());
    assert("SLOT_OP"@.len() != "OP"@.len());
    assert("SLOT_OP"@.len() != "SLOT"@.len());
    assert("SLOT_OP"@[1] != "SUBSLOT"@[1]);
    assert("REPO"@.len() != "BLOCKER"@.len());
    assert("REPO"@.len() != "CATEGORY"@.len());
    assert("REPO"@.len() != "P"@.len());
    assert("REPO"@.len() != "PF"@.len());
    assert("REPO"@.len() != "PN"@.len());
    assert("REPO"@.len() != "PR"@.len());
    assert("REPO"@.len() != "PV"@.len());
    assert("REPO"@.len() != "PVR"@.len());
    assert("REPO"@.len() != "CPN"@.len());
    assert("REPO"@.len() != "CPV"@.len());
    assert("REPO"@.len() != "OP"@.len());
    assert("REPO"@[0] != "SLOT"@[0]);
    assert("REPO"@.len() != "SUBSLOT"@.len());
    assert("REPO"@.len() != "SLOT_OP"@.len());
    assert("USE"@.len() != "BLOCKER"@.len());
    assert("USE"@.len() != "CATEGORY"@.len());
    assert("USE"@.len() != "P"@.len());
    assert("USE"@.len() != "PF"@.len());
    assert("USE"@.len() != "PN"@.len());
    assert("USE"@.len() != "PR"@.len());
    assert("USE"@.len() != "PV"@.len());
    assert("USE"@[0] != "PVR"@[0]);
    assert("USE"@[0] != "CPN"@[0]);
    assert("USE"@[0] != "CPV"@[0]);
    assert("USE"@.len() != "OP"@.len());
    assert("USE"@.len() != "SLOT"@.len());
    assert("USE"@.len() != "SUBSLOT"@.len());
    assert("USE"@.len() != "SLOT_OP"@.len());
    assert("USE"@.len() != "REPO"@.len());
    assert("DEP"@.len() != "BLOCKER"@.len());
    assert("DEP"@.len() != "CATEGORY"@.len());
    assert("DEP"@.len() != "P"@.len());
    assert("DEP"@.len() != "PF"@.len());
    assert("DEP"@.len() != "PN"@.len());
    assert("DEP"@.len() != "PR"@.len());
    assert("DEP"@.len() != "PV"@.len());
    assert("DEP"@[0] != "PVR"@[0]);
    assert("DEP"@[0] != "CPN"@[0]);
    assert("DEP"@[0] != "CPV"@[0]);
    assert("DEP"@.len() != "OP"@.len());
    assert("DEP"@.len() != "SLOT"@.len());
    assert("DEP"@.len() != "SUBSLOT"@.len());
    assert("DEP"@.len() != "SLOT_OP"@.len());
    assert("DEP"@.len() != "REPO"@.len());
    assert("DEP"@[0] != "USE"@[0]);
}

// ---------------------------------------------------------------------------
// `pk dep` subcommands

/// The subcommands of `pk dep`.
#[derive(Clone, Copy, PartialEq, Eq, Structural, Debug)]
pub enum Subcommand {
    /// Compare two deps.
    Compare,
    /// Determine if two deps intersect.
    Intersect,
    /// Parse a dep and optionally print formatted output.
    Parse,
    /// Collapse input into a set of deps.
    Collapse,
    /// Sort deps.
    Sort,
}

/// The command-line name of a subcommand.
pub open spec fn subcommand_name(c: Subcommand) -> Seq<char> {
    match c {
        Subcommand::Compare => "compare"@,
        Subcommand::Intersect => "intersect"@,
        Subcommand::Parse => "parse"@,
        Subcommand::Collapse => "set"@,
        Subcommand::Sort => "sort"@,
    }
}

/// The subcommand with a given command-line name.
pub open spec fn subcommand_named(s: Seq<char>) -> Option<Subcommand> {
    if s == "compare"@ {
        Some(Subcommand::Compare)
    } else if s == "intersect"@ {
        Some(Subcommand::Intersect)
    } else if s == "parse"@ {
        Some(Subcommand::Parse)
    } else if s == "set"@ {
        Some(Subcommand::Collapse)
    } else if s == "sort"@ {
        Some(Subcommand::Sort)
    } else {
        None
    }
}

impl Subcommand {
    /// The subcommand's command-line name.
    pub fn name(&self) -> (r: &'static str)
        ensures
            r@ == subcommand_name(*self),
    {
        match self {
            Subcommand::Compare => "compare",
            Subcommand::Intersect => "intersect",
            Subcommand::Parse => "parse",
            Subcommand::Collapse => "set",
            Subcommand::Sort => "sort",
        }
    }

    /// The subcommand with a given command-line name.
    pub fn from_name(s: &str) -> (r: Option<Subcommand>)
        ensures
            r == subcommand_named(s@),
    {
        if str_eq(s, "compare") {
            Some(Subcommand::Compare)
        } else if str_eq(s, "intersect") {
            Some(Subcommand::Intersect)
        } else if str_eq(s, "parse") {
            Some(Subcommand::Parse)
        } else if str_eq(s, "set") {
            Some(Subcommand::Collapse)
        } else if str_eq(s, "sort") {
            Some(Subcommand::Sort)
        } else {
            None
        }
    }
}

/// A subcommand's name parses back to the subcommand.
pub proof fn lemma_subcommand_name_roundtrip(c: Subcommand)
    ensures
        subcommand_named(subcommand_name(c)) == Some(c),
{
    reveal_strlit("compare");
    reveal_strlit("intersect");
    reveal_strlit("parse");
    reveal_strlit("set");
    reveal_strlit("sort");
    assert("intersect"@.len() != "compare"@.len());
    assert("parse"@.len() != "compare"@.len());
    assert("parse"@.len() != "intersect"@.len());
    assert("set"@.len() != "compare"@.len());
    assert("set"@.len() != "intersect"@.len());
    assert("set"@.len() != "parse"@.len());
    assert("sort"@.len() != "compare"@.len());
    assert("sort"@.len() != "intersect"@.len());
    assert("sort"@.len() != "parse"@.len());
    assert("sort"@.len() != "set"@.len());
}

/// The dependencies the words stand for, when every word is one.
pub open spec fn parsed_words(words: Seq<Seq<char>>, repo_ids: bool) -> Option<Seq<DepView>>
    decreases words.len(),
{
    if words.len() == 0 {
        Some(Seq::empty())
    } else {
        match (parsed_words(words.drop_last(), repo_ids), dep_parse(words.last(), repo_ids)) {
            (Some(v), Some(d)) => Some(v.push(d)),
            _ => None,
        }
    }
}

/// Collapse words into the distinct dependencies they stand for, in the
/// order first given; the first word that is no dependency is an error.
pub fn collapse_deps(words: &Vec<String>, repo_ids: bool) -> (r: Result<Vec<Dep>, CompareError>)
    ensures
        match r {
            Ok(v) => parsed_words(views(words@), repo_ids) is Some && v@.map_values(|d: Dep| d@)
                == crate::depset::first_occurrences(parsed_words(views(words@), repo_ids).unwrap()),
            Err(e) => parsed_words(views(words@), repo_ids) is None && e is InvalidDep,
        },
{
    let ghost ws = views(words@);
    let mut out: Vec<Dep> = Vec::new();
    let ghost mut all: Seq<DepView> = Seq::empty();
    let mut i: usize = 0;
    assert(ws.take(0) =~= Seq::<Seq<char>>::empty());
    assert(out@.map_values(|d: Dep| d@) =~= Seq::<DepView>::empty());
    while i < words.len()
        invariant
            i <= words@.len(),
            ws == views(words@),
            parsed_words(ws.take(i as int), repo_ids) == Some(all),
            out@.map_values(|d: Dep| d@) == crate::depset::first_occurrences(all),
        decreases words@.len() - i,
    {
        assert(ws.take(i + 1).drop_last() =~= ws.take(i as int));
        assert(ws.take(i + 1).last() == words@[i as int]@);
        let d = match Dep::parse(words[i].as_str(), repo_ids) {
            Ok(d) => d,
            Err(_) => {
                proof {
                    lemma_parsed_words_prefix(ws, repo_ids, i as int + 1);
                }
                return Err(CompareError::InvalidDep(words[i].clone()));
            },
        };
        let seen = holds_dep(&out, &d);
        proof {
            assert(all.push(d@).drop_last() =~= all);
            all = all.push(d@);
        }
        if !seen {
            let ghost before = out@.map_values(|x: Dep| x@);
            out.push(d);
            assert(out@.map_values(|x: Dep| x@) =~= before.push(all.last()));
        }
        i = i + 1;
    }
    assert(ws.take(words@.len() as int) =~= ws);
    Ok(out)
}

/// Whether a list holds a dependency the same as `d`.
fn holds_dep(v: &Vec<Dep>, d: &Dep) -> (r: bool)
    ensures
        r == v@.map_values(|x: Dep| x@).contains(d@),
{
    let mut k: usize = 0;
    while k < v.len()
        invariant
            k <= v@.len(),
            forall|q: int| 0 <= q < k ==> v@[q]@ != d@,
        decreases v@.len() - k,
    {
        if v[k].same(d) {
            assert(v@.map_values(|x: Dep| x@)[k as int] == d@);
            return true;
        }
        k = k + 1;
    }
    proof {
        let m = v@.map_values(|x: Dep| x@);
        if m.contains(d@) {
            let q = choose|q: int| 0 <= q < m.len() && m[q] == d@;
            assert(m[q] == v@[q]@);
        }
    }
    false
}

/// When some word is no dependency, none of the longer lists parse.
proof fn lemma_parsed_words_prefix(ws: Seq<Seq<char>>, repo_ids: bool, n: int)
    requires
        0 < n <= ws.len(),
        dep_parse(ws[n - 1], repo_ids) is None,
    ensures
        parsed_words(ws, repo_ids) is None,
    decreases ws.len(),
{
    if ws.len() > n {
        assert(ws.drop_last()[n - 1] == ws[n - 1]);
        lemma_parsed_words_prefix(ws.drop_last(), repo_ids, n);
    } else {
        assert(ws.last() == ws[n - 1]);
    }
}

} // verus!
