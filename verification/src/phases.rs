//! Decisions of the default build phases and of `pkg_pretend`: what the
//! phases hand to the commands they run and what a pretend run reports.
use vstd::prelude::*;

use crate::builtins::contains_str;
use crate::chars::{chars_of, push_char, string_from, views};
use crate::pk::{is_ws, ws};

verus! {

/// A string without its leading whitespace.
pub open spec fn trim_start(s: Seq<char>) -> Seq<char>
    decreases s.len(),
{
    if s.len() > 0 && is_ws(s[0]) {
        trim_start(s.drop_first())
    } else {
        s
    }
}

/// A string without its trailing whitespace.
pub open spec fn trim_end(s: Seq<char>) -> Seq<char>
    decreases s.len(),
{
    if s.len() > 0 && is_ws(s.last()) {
        trim_end(s.drop_last())
    } else {
        s
    }
}

/// A string without leading and trailing whitespace.
pub open spec fn trimmed(s: Seq<char>) -> Seq<char> {
    trim_end(trim_start(s))
}

/// Remove leading and trailing whitespace.
pub fn trim(s: &str) -> (r: String)
    ensures
        r@ == trimmed(s@),
{
    let cs = chars_of(s);
    let n = cs.len();
    let mut i: usize = 0;
    assert(cs@.skip(0) =~= cs@);
    while i < n && ws(cs[i])
        invariant
            i <= n,
            n == cs@.len(),
            trim_start(cs@) == trim_start(cs@.skip(i as int)),
        decreases n - i,
    {
        assert(cs@.skip(i as int)[0] == cs@[i as int]);
        assert(cs@.skip(i as int).drop_first() =~= cs@.skip(i + 1));
        i = i + 1;
    }
    if i < n {
        assert(cs@.skip(i as int)[0] == cs@[i as int]);
    }
    let ghost t = cs@.skip(i as int);
    assert(trim_start(cs@) == t);
    let mut j: usize = n;
    assert(t.take(t.len() as int) =~= t);
    while j > i && ws(cs[j - 1])
        invariant
            i <= j <= n,
            n == cs@.len(),
            t == cs@.skip(i as int),
            trim_end(t) == trim_end(t.take(j - i)),
        decreases j,
    {
        assert(t.take(j - i).last() == cs@[j - 1]);
        assert(t.take(j - i).drop_last() =~= t.take(j - 1 - i));
        j = j - 1;
    }
    if j > i {
        assert(t.take(j - i).last() == cs@[j - 1]);
    }
    assert(cs@.subrange(i as int, j as int) =~= t.take(j - i));
    string_from(&cs, i, j)
}

/// `pkg_pretend` runs for a package when its EAPI has the phase and the
/// package defines it.
pub fn pretend_runs(eapi_has_pretend: bool, defined_phases: &Vec<String>) -> (r: bool)
    ensures
        r == (eapi_has_pretend && views(defined_phases@).contains("pretend"@)),
{
    if !eapi_has_pretend {
        return false;
    }
    let name = String::from_str("pretend");
    assert(views(defined_phases@).skip(0) =~= views(defined_phases@));
    contains_str(defined_phases, 0, &name)
}

/// Append a string's characters.
fn append(out: &mut String, s: &str)
    ensures
        final(out)@ == old(out)@ + s@,
{
    let cs = chars_of(s);
    let ghost start = out@;
    let mut i: usize = 0;
    while i < cs.len()
        invariant
            i <= cs@.len(),
            cs@ == s@,
            out@ == start + cs@.take(i as int),
        decreases cs@.len() - i,
    {
        push_char(out, cs[i]);
        assert(cs@.take(i + 1) =~= cs@.take(i as int).push(cs@[i as int]));
        i = i + 1;
    }
    assert(cs@.take(cs@.len() as int) =~= cs@);
}

/// The report of a pretend run of package `pkg`: on failure `pkg: error`,
/// followed on a new line by the trimmed output when there is any; on
/// success the package and its trimmed output on the next line, or nothing
/// when there is no output.
pub open spec fn pretend_spec(pkg: Seq<char>, error: Option<Seq<char>>, output: Seq<char>) -> Result<
    Option<Seq<char>>,
    Seq<char>,
> {
    let out = trimmed(output);
    match error {
        Some(e) => if out.len() == 0 {
            Err(pkg + seq![':', ' '] + e)
        } else {
            Err(pkg + seq![':', ' '] + e + seq!['\n'] + out)
        },
        None => if out.len() != 0 {
            Ok(Some(pkg + seq!['\n'] + out))
        } else {
            Ok(None)
        },
    }
}

/// The values of a pretend report.
pub open spec fn report_view(r: Result<Option<String>, String>) -> Result<Option<Seq<char>>, Seq<char>> {
    match r {
        Ok(Some(s)) => Ok(Some(s@)),
        Ok(None) => Ok(None),
        Err(s) => Err(s@),
    }
}

/// Build the report of a pretend run from the package, the phase's error
/// if it failed, and what it wrote.
pub fn pretend_report(pkg: &str, error: Option<&str>, output: &str) -> (r: Result<
    Option<String>,
    String,
>)
    ensures
        report_view(r) == pretend_spec(pkg@, match error {
            Some(e) => Some(e@),
            None => None,
        }, output@),
{
    let out = trim(output);
    let empty = out.unicode_len() == 0;
    match error {
        Some(e) => {
            let mut msg = String::from_str(pkg);
            push_char(&mut msg, ':');
            push_char(&mut msg, ' ');
            append(&mut msg, e);
            if !empty {
                push_char(&mut msg, '\n');
                append(&mut msg, out.as_str());
            }
            proof {
                assert(msg@ =~= if out@.len() == 0 {
                    pkg@ + seq![':', ' '] + e@
                } else {
                    pkg@ + seq![':', ' '] + e@ + seq!['\n'] + out@
                });
            }
            Err(msg)
        },
        None => {
            if !empty {
                let mut msg = String::from_str(pkg);
                push_char(&mut msg, '\n');
                append(&mut msg, out.as_str());
                assert(msg@ =~= pkg@ + seq!['\n'] + out@);
                Ok(Some(msg))
            } else {
                Ok(None)
            }
        },
    }
}

/// What `pkg_nofetch` writes: for a package with distfiles, a line naming
/// the package followed by each distfile's URL on a line of its own;
/// nothing otherwise.
pub open spec fn nofetch_spec(pkg: Seq<char>, urls: Seq<Seq<char>>) -> Seq<char> {
    if urls.len() == 0 {
        Seq::empty()
    } else {
        "The following files must be manually downloaded for "@ + pkg + seq![':', '\n'] + lines(urls)
    }
}

/// Each string followed by a newline.
pub open spec fn lines(v: Seq<Seq<char>>) -> Seq<char>
    decreases v.len(),
{
    if v.len() == 0 {
        Seq::empty()
    } else {
        lines(v.drop_last()) + v.last() + seq!['\n']
    }
}

/// The message `pkg_nofetch` writes for a package and its distfile URLs.
pub fn nofetch_message(pkg: &str, urls: &Vec<String>) -> (r: String)
    ensures
        r@ == nofetch_spec(pkg@, views(urls@)),
{
    let mut msg = String::new();
    if urls.len() == 0 {
        return msg;
    }
    append(&mut msg, "The following files must be manually downloaded for ");
    append(&mut msg, pkg);
    push_char(&mut msg, ':');
    push_char(&mut msg, '\n');
    let ghost head = msg@;
    let mut i: usize = 0;
    assert(lines(views(urls@).take(0)) =~= Seq::<char>::empty());
    assert(msg@ =~= head + lines(views(urls@).take(0)));
    while i < urls.len()
        invariant
            i <= urls@.len(),
            msg@ == head + lines(views(urls@).take(i as int)),
        decreases urls@.len() - i,
    {
        append(&mut msg, urls[i].as_str());
        push_char(&mut msg, '\n');
        proof {
            let v = views(urls@);
            assert(v.take(i + 1).drop_last() =~= v.take(i as int));
            assert(v.take(i + 1).last() == urls@[i as int]@);
            assert(msg@ =~= head + lines(v.take(i + 1)));
        }
        i = i + 1;
    }
    assert(views(urls@).take(urls@.len() as int) =~= views(urls@));
    msg
}

/// The arguments `src_prepare` hands to `eapply`: `--` followed by the
/// patches, when there are any.
pub fn eapply_args(patches: &Vec<String>) -> (r: Option<Vec<String>>)
    ensures
        patches@.len() == 0 ==> r is None,
        patches@.len() > 0 ==> r is Some && views(r->Some_0@) == seq![seq!['-', '-']] + views(patches@),
{
    if patches.len() == 0 {
        return None;
    }
    let mut args: Vec<String> = Vec::new();
    let mut dashes = String::new();
    push_char(&mut dashes, '-');
    push_char(&mut dashes, '-');
    assert(dashes@ =~= seq!['-', '-']);
    args.push(dashes);
    let mut i: usize = 0;
    assert(views(args@) =~= seq![seq!['-', '-']] + views(patches@).take(0));
    while i < patches.len()
        invariant
            i <= patches@.len(),
            views(args@) == seq![seq!['-', '-']] + views(patches@).take(i as int),
        decreases patches@.len() - i,
    {
        let ghost before = views(args@);
        args.push(patches[i].clone());
        assert(views(args@) =~= before.push(patches@[i as int]@));
        assert(views(patches@).take(i + 1) =~= views(patches@).take(i as int).push(patches@[i as int]@));
        assert(views(args@) =~= seq![seq!['-', '-']] + views(patches@).take(i + 1));
        i = i + 1;
    }
    assert(views(patches@).take(patches@.len() as int) =~= views(patches@));
    Some(args)
}

/// The make target `src_test` runs: the first of `check` and `test` whose
/// dry run succeeds, if either does.
pub fn test_target(check_dry_run_ok: bool, test_dry_run_ok: bool) -> (r: Option<&'static str>)
    ensures
        check_dry_run_ok ==> r is Some && r->Some_0@ == "check"@,
        !check_dry_run_ok && test_dry_run_ok ==> r is Some && r->Some_0@ == "test"@,
        !check_dry_run_ok && !test_dry_run_ok ==> r is None,
{
    if check_dry_run_ok {
        Some("check")
    } else if test_dry_run_ok {
        Some("test")
    } else {
        None
    }
}

/// A string without leading whitespace begins with no whitespace.
proof fn lemma_trim_start_clean(s: Seq<char>)
    ensures
        trim_start(s).len() > 0 ==> !is_ws(trim_start(s)[0]),
        trim_start(trim_start(s)) == trim_start(s),
    decreases s.len(),
{
    if s.len() > 0 && is_ws(s[0]) {
        lemma_trim_start_clean(s.drop_first());
    }
}

/// Trimming the end of a string that begins with no whitespace keeps that so.
proof fn lemma_trim_end_keeps_start(s: Seq<char>)
    requires
        s.len() > 0 ==> !is_ws(s[0]),
    ensures
        trim_end(s).len() > 0 ==> !is_ws(trim_end(s)[0]),
        trim_end(s).len() > 0 ==> !is_ws(trim_end(s).last()),
        trim_end(trim_end(s)) == trim_end(s),
        trim_end(s).len() == 0 || trim_end(s)[0] == s[0],
    decreases s.len(),
{
    if s.len() > 0 && is_ws(s.last()) {
        let t = s.drop_last();
        if t.len() > 0 {
            assert(t[0] == s[0]);
        }
        lemma_trim_end_keeps_start(t);
    }
}

/// Trimming twice is trimming once.
pub proof fn lemma_trim_idempotent(s: Seq<char>)
    ensures
        trimmed(trimmed(s)) == trimmed(s),
{
    let a = trim_start(s);
    lemma_trim_start_clean(s);
    lemma_trim_end_keeps_start(a);
    let b = trim_end(a);
    // `b` begins with no whitespace, so trimming its start leaves it
    assert(trim_start(b) == b);
}

} // verus!
