//! Version string splitting and range selection used by `ver_cut` and `ver_rs`.

use vstd::prelude::*;
use crate::chars::{
    CharClass, lemma_prefix_run_char, push_char, in_class, is_alpha, is_digit, is_alnum, prefix_run, lemma_prefix_run_bounds,
    scan_run, string_from, chars_of, decimal_text, push_decimal, push_text,
};

verus! {

/// Length of the component that follows a separator run: a maximal run of
/// digits or of letters, or nothing.
pub open spec fn component_run(s: Seq<char>) -> nat {
    if s.len() > 0 && is_digit(s[0]) {
        prefix_run(s, CharClass::Digit)
    } else if s.len() > 0 && is_alpha(s[0]) {
        prefix_run(s, CharClass::Alpha)
    } else {
        0
    }
}

/// The split of a version string into alternating separators and components:
/// `[sep0, comp0, sep1, comp1, ...]`, where each separator is a maximal run of
/// non-alphanumeric characters (possibly empty) and each component a maximal
/// run of digits or of letters (possibly empty only at the end).
pub open spec fn version_parts(s: Seq<char>) -> Seq<Seq<char>>
    decreases s.len(),
{
    if s.len() == 0 {
        Seq::empty()
    } else {
        let a = prefix_run(s, CharClass::Separator);
        let rest = s.skip(a as int);
        let b = component_run(rest);
        proof {
            lemma_prefix_run_bounds(s, CharClass::Separator);
            lemma_component_run_bounds(rest);
            if a == 0 {
                assert(!in_class(s[0], CharClass::Separator));
                assert(rest[0] == s[0]);
                lemma_prefix_run_bounds(rest, CharClass::Digit);
                lemma_prefix_run_bounds(rest, CharClass::Alpha);
            }
        }
        seq![s.take(a as int), rest.take(b as int)] + version_parts(rest.skip(b as int))
    }
}

pub proof fn lemma_component_run_bounds(s: Seq<char>)
    ensures
        component_run(s) <= s.len(),
        s.len() > 0 && is_alnum(s[0]) ==> component_run(s) > 0,
{
    lemma_prefix_run_bounds(s, CharClass::Digit);
    lemma_prefix_run_bounds(s, CharClass::Alpha);
}

/// Exec counterpart of `component_run` starting at an index.
fn scan_component(s: &Vec<char>, start: usize) -> (end: usize)
    requires
        start <= s@.len(),
    ensures
        start <= end <= s@.len(),
        end == start + component_run(s@.skip(start as int)),
{
    proof {
        lemma_component_run_bounds(s@.skip(start as int));
    }
    if start < s.len() && '0' <= s[start] && s[start] <= '9' {
        assert(s@.skip(start as int)[0] == s@[start as int]);
        scan_run(s, start, &CharClass::Digit)
    } else if start < s.len() && (('a' <= s[start] && s[start] <= 'z') || ('A' <= s[start]
        && s[start] <= 'Z')) {
        assert(s@.skip(start as int)[0] == s@[start as int]);
        scan_run(s, start, &CharClass::Alpha)
    } else {
        if start < s.len() {
            assert(s@.skip(start as int)[0] == s@[start as int]);
        }
        start
    }
}

/// Errors from parsing command arguments of the version commands.
#[derive(Debug)]
pub enum VersionCmdError {
    /// The range argument doesn't match `N`, `N-` or `N-M`, or a bound overflows.
    InvalidRange,
    /// The range start is larger than its end.
    StartAfterEnd { start: usize, end: usize },
}

/// The text of a range error: `invalid range`, or that the start is
/// greater than the end.
pub open spec fn version_error_text(e: VersionCmdError) -> Seq<char> {
    match e {
        VersionCmdError::InvalidRange => "invalid range"@,
        VersionCmdError::StartAfterEnd { start, end } => "start of range ("@ + decimal_text(start as nat)
            + ") is greater than end ("@ + decimal_text(end as nat) + ")"@,
    }
}

impl VersionCmdError {
    /// The error's message.
    pub fn message(&self) -> (r: String)
        ensures
            r@ == version_error_text(*self),
    {
        match self {
            VersionCmdError::InvalidRange => String::from_str("invalid range"),
            VersionCmdError::StartAfterEnd { start, end } => {
                let mut out = String::from_str("start of range (");
                push_decimal(&mut out, *start);
                push_text(&mut out, ") is greater than end (");
                push_decimal(&mut out, *end);
                push_text(&mut out, ")");
                out
            },
        }
    }
}

/// Split a version string into alternating separator and component strings.
///
/// Every string splits, so the result is always `Ok`.
pub fn version_split(s: &str) -> (r: Result<Vec<String>, VersionCmdError>)
    ensures
        r is Ok,
        r matches Ok(parts) ==> parts@.map_values(|p: String| p@) == version_parts(s@),
{
    let chars = chars_of(s);
    let n = chars.len();
    let mut parts: Vec<String> = Vec::new();
    let mut i: usize = 0;
    assert(chars@.skip(0) =~= chars@);
    while i < n
        invariant
            i <= n,
            n == chars@.len(),
            chars@ == s@,
            version_parts(s@) == parts@.map_values(|p: String| p@) + version_parts(
                chars@.skip(i as int),
            ),
        decreases n - i,
    {
        let ghost t = chars@.skip(i as int);
        let a = scan_run(&chars, i, &CharClass::Separator);
        let b = scan_component(&chars, a);
        proof {
            assert(t.skip(a - i) =~= chars@.skip(a as int));
            assert(chars@.skip(a as int).skip(b - a) =~= chars@.skip(b as int));
            assert(t.take(a - i) =~= chars@.subrange(i as int, a as int));
            assert(chars@.skip(a as int).take(b - a) =~= chars@.subrange(a as int, b as int));
            assert(version_parts(t) == seq![
                chars@.subrange(i as int, a as int),
                chars@.subrange(a as int, b as int),
            ] + version_parts(chars@.skip(b as int)));
        }
        let sep = string_from(&chars, i, a);
        let comp = string_from(&chars, a, b);
        let ghost before = parts@.map_values(|p: String| p@);
        parts.push(sep);
        parts.push(comp);
        proof {
            assert(parts@.map_values(|p: String| p@) =~= before + seq![
                chars@.subrange(i as int, a as int),
                chars@.subrange(a as int, b as int),
            ]);
            lemma_prefix_run_bounds(t, CharClass::Separator);
            lemma_component_run_bounds(t.skip(a - i));
            if a == i {
                assert(t[0] == chars@[i as int]);
                assert(t.skip(0)[0] == t[0]);
            }
        }
        i = b;
    }
    assert(chars@.skip(n as int) =~= Seq::<char>::empty());
    assert(parts@.map_values(|p: String| p@) + Seq::<Seq<char>>::empty() =~= parts@.map_values(
        |p: String| p@,
    ));
    Ok(parts)
}


/// Numeric value of an ASCII digit.
pub open spec fn digit_value(c: char) -> nat {
    (c as int - '0' as int) as nat
}

/// Decimal value of a sequence of digits.
pub open spec fn decimal_value(d: Seq<char>) -> nat
    decreases d.len(),
{
    if d.len() == 0 {
        0
    } else {
        decimal_value(d.drop_last()) * 10 + digit_value(d.last())
    }
}

pub open spec fn all_digits(d: Seq<char>) -> bool {
    forall|i: int| 0 <= i < d.len() ==> is_digit(#[trigger] d[i])
}

/// The range grammar `N-M`, `N-` or `N` against the maximum component count
/// `max`: `N-` extends to `max` when `N <= max`, otherwise collapses to `N`.
/// Bounds that don't fit in `usize` are rejected.
pub open spec fn range_grammar(s: Seq<char>, max: nat) -> Option<(nat, nat)> {
    let k = prefix_run(s, CharClass::Digit);
    let start = decimal_value(s.take(k as int));
    let rest = s.skip(k as int);
    if k == 0 || start > usize::MAX {
        None
    } else if rest.len() == 0 {
        Some((start, start))
    } else if rest[0] != '-' {
        None
    } else if rest.len() == 1 {
        if start <= max {
            Some((start, max))
        } else {
            Some((start, start))
        }
    } else {
        let tail = rest.drop_first();
        if all_digits(tail) && decimal_value(tail) <= usize::MAX {
            Some((start, decimal_value(tail)))
        } else {
            None
        }
    }
}

/// A range text of the form `N`, `N-` or `N-M`: decimal numbers `N` and `M`
/// that fit in `usize`, joined by one hyphen.
pub open spec fn range_form(s: Seq<char>) -> bool {
    exists|k: int|
        1 <= k <= s.len() && all_digits(#[trigger] s.take(k)) && decimal_value(s.take(k)) <= usize::MAX
            && (k == s.len() || (s[k] == '-' && (k + 1 == s.len() || (all_digits(s.skip(k + 1))
            && decimal_value(s.skip(k + 1)) <= usize::MAX))))
}

/// A range is accepted exactly in the forms `N`, `N-` and `N-M` with bounds
/// that fit in `usize`; any other text (`1-2x`, ` 1`, `1--2`, the empty
/// text, a bound too large) is rejected.
pub proof fn lemma_range_forms(s: Seq<char>, max: nat)
    ensures
        range_grammar(s, max) is Some <==> range_form(s),
{
    let k = prefix_run(s, CharClass::Digit) as int;
    lemma_prefix_run_bounds(s, CharClass::Digit);
    let rest = s.skip(k);
    assert(all_digits(s.take(k))) by {
        assert forall|i: int| 0 <= i < s.take(k).len() implies is_digit(#[trigger] s.take(k)[i]) by {
            assert(in_class(s[i], CharClass::Digit));
        }
    }
    if k < s.len() {
        assert(rest[0] == s[k]);
        assert(rest.drop_first() =~= s.skip(k + 1));
    }
    if range_grammar(s, max) is Some {
        assert(all_digits(s.take(k)));
    }
    if range_form(s) {
        let j = choose|j: int|
            1 <= j <= s.len() && all_digits(#[trigger] s.take(j)) && decimal_value(s.take(j))
                <= usize::MAX && (j == s.len() || (s[j] == '-' && (j + 1 == s.len() || (all_digits(
                s.skip(j + 1),
            ) && decimal_value(s.skip(j + 1)) <= usize::MAX))));
        assert forall|i: int| 0 <= i < j implies in_class(#[trigger] s[i], CharClass::Digit) by {
            assert(s.take(j)[i] == s[i]);
        }
        lemma_prefix_run_char(s, CharClass::Digit, j);
        assert(k == j);
        if j + 1 < s.len() {
            assert(s.skip(j).drop_first() =~= s.skip(j + 1));
        }
    }
}

proof fn lemma_decimal_value_prefix_grows(d: Seq<char>, k: int)
    requires
        0 <= k <= d.len(),
    ensures
        decimal_value(d.take(k)) <= decimal_value(d),
    decreases d.len() - k,
{
    if k < d.len() {
        lemma_decimal_value_prefix_grows(d, k + 1);
        assert(d.take(k + 1).drop_last() =~= d.take(k));
    } else {
        assert(d.take(k) =~= d);
    }
}

/// Parse the digits `s[start..end]` as a `usize`, `None` on overflow.
fn parse_decimal(s: &Vec<char>, start: usize, end: usize) -> (r: Option<usize>)
    requires
        start <= end <= s@.len(),
        all_digits(s@.subrange(start as int, end as int)),
    ensures
        match r {
            Some(v) => v == decimal_value(s@.subrange(start as int, end as int)),
            None => decimal_value(s@.subrange(start as int, end as int)) > usize::MAX,
        },
{
    let mut value: usize = 0;
    let mut i = start;
    while i < end
        invariant
            start <= i <= end <= s@.len(),
            all_digits(s@.subrange(start as int, end as int)),
            value == decimal_value(s@.subrange(start as int, i as int)),
        decreases end - i,
    {
        let c = s[i];
        assert(s@.subrange(start as int, end as int)[i - start] == c);
        let d = (c as u32 - '0' as u32) as usize;
        assert(s@.subrange(start as int, i + 1).drop_last() =~= s@.subrange(start as int, i as int));
        let next = match value.checked_mul(10) {
            Some(m) => m.checked_add(d),
            None => None,
        };
        match next {
            Some(v) => {
                value = v;
                i = i + 1;
            },
            None => {
                proof {
                    assert(s@.subrange(start as int, end as int).take(i + 1 - start) =~= s@.subrange(
                        start as int,
                        i + 1,
                    ));
                    lemma_decimal_value_prefix_grows(s@.subrange(start as int, end as int), i + 1 - start);
                }
                return None;
            },
        }
    }
    Some(value)
}

/// Parse a `ver_cut`/`ver_rs` range against the number of version components.
pub fn range(s: &str, max: usize) -> (r: Result<(usize, usize), VersionCmdError>)
    ensures
        match r {
            Ok((a, b)) => range_grammar(s@, max as nat) == Some((a as nat, b as nat)) && a <= b,
            Err(VersionCmdError::InvalidRange) => range_grammar(s@, max as nat) is None,
            Err(VersionCmdError::StartAfterEnd { start, end }) => range_grammar(s@, max as nat)
                == Some((start as nat, end as nat)) && end < start,
        },
{
    let chars = chars_of(s);
    let n = chars.len();
    let k = scan_run(&chars, 0, &CharClass::Digit);
    assert(chars@.skip(0) =~= chars@);
    proof {
        lemma_prefix_run_bounds(chars@, CharClass::Digit);
        assert(chars@.subrange(0, k as int) =~= chars@.take(k as int));
        assert(chars@.skip(k as int) =~= chars@.subrange(k as int, n as int));
    }
    if k == 0 {
        return Err(VersionCmdError::InvalidRange);
    }
    let start = match parse_decimal(&chars, 0, k) {
        Some(v) => v,
        None => return Err(VersionCmdError::InvalidRange),
    };
    let (a, b) = if k == n {
        (start, start)
    } else if chars[k] != '-' {
        return Err(VersionCmdError::InvalidRange);
    } else if k + 1 == n {
        if start <= max {
            (start, max)
        } else {
            (start, start)
        }
    } else {
        let e = scan_run(&chars, k + 1, &CharClass::Digit);
        proof {
            let tail = chars@.skip(k as int).drop_first();
            assert(tail =~= chars@.skip(k + 1));
            lemma_prefix_run_bounds(tail, CharClass::Digit);
            assert(tail.subrange(0, e - k - 1) =~= chars@.subrange(k + 1, e as int));
        }
        if e != n {
            proof {
                let tail = chars@.skip(k + 1);
                assert(tail[e - k - 1] == chars@[e as int]);
            }
            return Err(VersionCmdError::InvalidRange);
        }
        proof {
            assert(chars@.skip(k as int).drop_first() =~= chars@.subrange(k + 1, n as int));
        }
        match parse_decimal(&chars, k + 1, n) {
            Some(v) => (start, v),
            None => return Err(VersionCmdError::InvalidRange),
        }
    };
    if b < a {
        return Err(VersionCmdError::StartAfterEnd { start: a, end: b });
    }
    Ok((a, b))
}

/// Remap component range bounds onto positions in the separator/component split.
pub open spec fn cut_bounds(len: nat, start: nat, end: nat) -> (nat, nat) {
    let a = if start != 0 {
        if 2 * start - 1 <= len {
            (2 * start - 1) as nat
        } else {
            len
        }
    } else {
        0
    };
    let b = if 2 * end <= len {
        2 * end
    } else {
        len
    };
    (a, b)
}

/// The text `ver_cut` outputs for a range selecting components `start..=end`.
pub open spec fn cut_text(parts: Seq<Seq<char>>, start: nat, end: nat) -> Seq<char> {
    let (a, b) = cut_bounds(parts.len(), start, end);
    parts.subrange(a as int, b as int).flatten()
}

fn append_string(out: &mut String, p: &String)
    ensures
        final(out)@ == old(out)@ + p@,
{
    let cs = chars_of(p.as_str());
    let mut i: usize = 0;
    while i < cs.len()
        invariant
            i <= cs@.len(),
            cs@ == p@,
            out@ == old(out)@ + cs@.take(i as int),
        decreases cs@.len() - i,
    {
        push_char(out, cs[i]);
        i = i + 1;
        assert(out@ =~= old(out)@ + cs@.take(i as int));
    }
    assert(cs@.take(cs@.len() as int) =~= cs@);
}

/// What `ver_cut` gives for a range argument and a version: the selected
/// text, or why the range is rejected.
pub open spec fn cut_outcome(range_arg: Seq<char>, version: Seq<char>) -> Result<
    Seq<char>,
    VersionCmdError,
> {
    match range_grammar(range_arg, version_parts(version).len() / 2) {
        None => Err(VersionCmdError::InvalidRange),
        Some((a, b)) => if b < a {
            Err(VersionCmdError::StartAfterEnd { start: a as usize, end: b as usize })
        } else {
            Ok(cut_text(version_parts(version), a, b))
        },
    }
}

/// Output the substring of `version` selected by the component range `range`.
pub fn ver_cut(range_arg: &str, version: &str) -> (r: Result<String, VersionCmdError>)
    ensures
        match r {
            Ok(out) => cut_outcome(range_arg@, version@) == Ok::<Seq<char>, VersionCmdError>(out@),
            Err(e) => cut_outcome(range_arg@, version@) == Err::<Seq<char>, VersionCmdError>(e),
        },
{
    let parts = match version_split(version) {
        Ok(parts) => parts,
        Err(e) => return Err(e),
    };
    let ghost pv = parts@.map_values(|p: String| p@);
    let len = parts.len();
    let (start, end) = match range(range_arg, len / 2) {
        Ok(bounds) => bounds,
        Err(e) => return Err(e),
    };
    let lo = if start != 0 {
        if start <= len && start - 1 <= len - start {
            start + (start - 1)
        } else {
            len
        }
    } else {
        0
    };
    let hi = if end <= len / 2 {
        end * 2
    } else {
        len
    };
    assert(cut_bounds(len as nat, start as nat, end as nat) == (lo as nat, hi as nat));
    let mut out = String::new();
    let mut i = lo;
    while i < hi
        invariant
            lo <= i <= hi <= len,
            len == parts@.len(),
            pv == parts@.map_values(|p: String| p@),
            out@ == pv.subrange(lo as int, i as int).flatten(),
        decreases hi - i,
    {
        append_string(&mut out, &parts[i]);
        proof {
            let prev = pv.subrange(lo as int, i as int);
            assert(pv.subrange(lo as int, i + 1) =~= prev.push(pv[i as int]));
            prev.lemma_flatten_push(pv[i as int]);
        }
        i = i + 1;
    }
    Ok(out)
}

/// Joining the parts of a version split gives back the version string.
pub proof fn lemma_version_parts_join(s: Seq<char>)
    ensures
        version_parts(s).flatten() == s,
    decreases s.len(),
{
    if s.len() > 0 {
        let a = prefix_run(s, CharClass::Separator);
        let rest = s.skip(a as int);
        let b = component_run(rest);
        lemma_prefix_run_bounds(s, CharClass::Separator);
        lemma_component_run_bounds(rest);
        if a == 0 {
            assert(rest[0] == s[0]);
        }
        lemma_version_parts_join(rest.skip(b as int));
        let head = seq![s.take(a as int), rest.take(b as int)];
        vstd::seq_lib::lemma_flatten_concat(head, version_parts(rest.skip(b as int)));
        assert(head.drop_first().drop_first() =~= Seq::<Seq<char>>::empty());
        reveal_with_fuel(Seq::<_>::flatten, 3);
        assert(head.drop_first().flatten() =~= rest.take(b as int));
        assert(head.flatten() =~= s.take(a as int) + rest.take(b as int));
        assert(s.take(a as int) + rest.take(b as int) + rest.skip(b as int) =~= s);
    }
}

pub open spec fn separator_only(p: Seq<char>) -> bool {
    forall|j: int| 0 <= j < p.len() ==> !is_alnum(#[trigger] p[j])
}

pub open spec fn component_only(p: Seq<char>) -> bool {
    all_digits(p) || forall|j: int| 0 <= j < p.len() ==> is_alpha(#[trigger] p[j])
}

/// The split alternates separators and components: it has even length,
/// every separator part holds only non-alphanumeric characters, every
/// component part is all digits or all letters, a component is empty only
/// as the last part, and no separator and its component are both empty.
pub proof fn lemma_version_parts_shape(s: Seq<char>)
    ensures
        version_parts(s).len() % 2 == 0,
        forall|i: int|
            0 <= i < version_parts(s).len() && i % 2 == 1 && (#[trigger] version_parts(s)[i]).len()
                == 0 ==> i == version_parts(s).len() - 1,
        forall|i: int|
            0 <= i < version_parts(s).len() && i % 2 == 0 ==> (#[trigger] version_parts(s)[i]).len()
                > 0 || version_parts(s)[i + 1].len() > 0,
        forall|i: int|
            0 <= i < version_parts(s).len() && i % 2 == 0 ==> separator_only(
                #[trigger] version_parts(s)[i],
            ),
        forall|i: int|
            0 <= i < version_parts(s).len() && i % 2 == 1 ==> component_only(
                #[trigger] version_parts(s)[i],
            ),
    decreases s.len(),
{
    if s.len() > 0 {
        let a = prefix_run(s, CharClass::Separator);
        let rest = s.skip(a as int);
        let b = component_run(rest);
        lemma_prefix_run_bounds(s, CharClass::Separator);
        lemma_component_run_bounds(rest);
        lemma_prefix_run_bounds(rest, CharClass::Digit);
        lemma_prefix_run_bounds(rest, CharClass::Alpha);
        if a == 0 {
            assert(rest[0] == s[0]);
        }
        lemma_version_parts_shape(rest.skip(b as int));
        let tail = version_parts(rest.skip(b as int));
        let all = version_parts(s);
        assert(all == seq![s.take(a as int), rest.take(b as int)] + tail);
        assert forall|i: int| 0 <= i < all.len() && i % 2 == 0 implies separator_only(
            #[trigger] all[i],
        ) by {
            if i >= 2 {
                assert(all[i] == tail[i - 2]);
            } else {
                assert forall|j: int| 0 <= j < all[i].len() implies !is_alnum(#[trigger] all[i][j]) by {
                    assert(all[i][j] == s[j]);
                    assert(in_class(s[j], CharClass::Separator));
                }
            }
        }
        if a < s.len() {
            assert(rest[0] == s[a as int]);
            assert(!in_class(s[a as int], CharClass::Separator));
        }
        assert forall|i: int|
            0 <= i < all.len() && i % 2 == 1 && (#[trigger] all[i]).len() == 0 implies i == all.len()
            - 1 by {
            if i >= 2 {
                assert(all[i] == tail[i - 2]);
            } else {
                assert(rest.len() == 0);
                assert(rest.skip(b as int).len() == 0);
            }
        }
        assert forall|i: int| 0 <= i < all.len() && i % 2 == 0 implies (#[trigger] all[i]).len() > 0
            || all[i + 1].len() > 0 by {
            if i >= 2 {
                assert(all[i] == tail[i - 2]);
                assert(all[i + 1] == tail[i - 1]);
            }
        }
        assert forall|i: int| 0 <= i < all.len() && i % 2 == 1 implies component_only(
            #[trigger] all[i],
        ) by {
            if i >= 2 {
                assert(all[i] == tail[i - 2]);
            } else {
                if rest.len() > 0 && is_digit(rest[0]) {
                    assert forall|j: int| 0 <= j < all[i].len() implies is_digit(#[trigger] all[i][j]) by {
                        assert(all[i][j] == rest[j]);
                        assert(in_class(rest[j], CharClass::Digit));
                    }
                } else if rest.len() > 0 && is_alpha(rest[0]) {
                    assert forall|j: int| 0 <= j < all[i].len() implies is_alpha(#[trigger] all[i][j]) by {
                        assert(all[i][j] == rest[j]);
                        assert(in_class(rest[j], CharClass::Alpha));
                    }
                } else {
                    assert(all[i].len() == 0);
                }
            }
        }
    }
}

} // verus!
