//! Version ordering.
//!
//! Versions compare by their first number as an integer, followed by each
//! further number in turn, as an integer unless either begins with `0`, in
//! which case both are compared as strings with trailing zeros removed; a
//! version with more numbers is greater when the shared ones are equal. Next
//! come the letter (none sorts first), the suffixes in turn (`_alpha` <
//! `_beta` < `_pre` < `_rc` < `_p`, and by number within a kind, a missing
//! number being 0; a version with an extra suffix is greater only when that
//! suffix is `_p`), and last the revision as an integer, a missing revision
//! being 0.

use vstd::prelude::*;
use crate::chars::{chars_of, is_digit, views};
use crate::ver_cut::{decimal_value, all_digits};
use crate::dep::{Blocker, Operator, SlotOperator, UseDepKind, UseDepDefault, UseDepView, DepView, Dep, UseDep, dep_wf, opt_view};
use crate::version::{
    SuffixKind, SuffixView, VersionView, Version, Suffix, valid_number, opt_valid, version_wf,
    lemma_decimal_prefix_le,
};

verus! {

/// The outcome of comparing two values.
#[derive(Clone, Copy, PartialEq, Eq, Structural, Debug)]
pub enum Order {
    Less,
    Equal,
    Greater,
}

/// The opposite outcome.
pub open spec fn flip(o: Order) -> Order {
    match o {
        Order::Less => Order::Greater,
        Order::Equal => Order::Equal,
        Order::Greater => Order::Less,
    }
}

/// The first outcome unless it is `Equal`, else the second.
pub open spec fn chain(a: Order, b: Order) -> Order {
    if a is Equal {
        b
    } else {
        a
    }
}

pub open spec fn int_order(a: int, b: int) -> Order {
    if a < b {
        Order::Less
    } else if a == b {
        Order::Equal
    } else {
        Order::Greater
    }
}

/// Lexicographic order of character sequences.
pub open spec fn seq_order(a: Seq<char>, b: Seq<char>) -> Order
    decreases a.len(),
{
    if a.len() == 0 && b.len() == 0 {
        Order::Equal
    } else if a.len() == 0 {
        Order::Less
    } else if b.len() == 0 {
        Order::Greater
    } else if a[0] != b[0] {
        int_order(a[0] as int, b[0] as int)
    } else {
        seq_order(a.drop_first(), b.drop_first())
    }
}

/// Digits without trailing zeros.
pub open spec fn strip_zeros(s: Seq<char>) -> Seq<char>
    decreases s.len(),
{
    if s.len() > 0 && s.last() == '0' {
        strip_zeros(s.drop_last())
    } else {
        s
    }
}

/// Compare numbers after the first one.
pub open spec fn later_number_order(a: Seq<char>, b: Seq<char>) -> Order {
    if (a.len() > 0 && a[0] == '0') || (b.len() > 0 && b[0] == '0') {
        seq_order(strip_zeros(a), strip_zeros(b))
    } else {
        int_order(decimal_value(a) as int, decimal_value(b) as int)
    }
}

/// Compare number lists from index `i` on.
pub open spec fn numbers_order(a: Seq<Seq<char>>, b: Seq<Seq<char>>, i: int) -> Order
    decreases a.len() - i,
{
    if i < 0 || (i >= a.len() && i >= b.len()) {
        Order::Equal
    } else if i >= a.len() {
        Order::Less
    } else if i >= b.len() {
        Order::Greater
    } else {
        chain(later_number_order(a[i], b[i]), numbers_order(a, b, i + 1))
    }
}

pub open spec fn letter_order(a: Option<char>, b: Option<char>) -> Order {
    match (a, b) {
        (None, None) => Order::Equal,
        (None, Some(_)) => Order::Less,
        (Some(_), None) => Order::Greater,
        (Some(x), Some(y)) => int_order(x as int, y as int),
    }
}

pub open spec fn suffix_rank(k: SuffixKind) -> int {
    match k {
        SuffixKind::Alpha => 0,
        SuffixKind::Beta => 1,
        SuffixKind::Pre => 2,
        SuffixKind::Rc => 3,
        SuffixKind::P => 4,
    }
}

/// A missing number counts as 0.
pub open spec fn opt_number(n: Option<Seq<char>>) -> int {
    match n {
        Some(d) => decimal_value(d) as int,
        None => 0,
    }
}

/// Compare suffix lists from index `i` on.
pub open spec fn suffixes_order(a: Seq<SuffixView>, b: Seq<SuffixView>, i: int) -> Order
    decreases a.len() - i,
{
    if i < 0 || (i >= a.len() && i >= b.len()) {
        Order::Equal
    } else if i >= a.len() {
        if b[i].kind == SuffixKind::P {
            Order::Less
        } else {
            Order::Greater
        }
    } else if i >= b.len() {
        if a[i].kind == SuffixKind::P {
            Order::Greater
        } else {
            Order::Less
        }
    } else {
        chain(
            chain(
                int_order(suffix_rank(a[i].kind), suffix_rank(b[i].kind)),
                int_order(opt_number(a[i].number), opt_number(b[i].number)),
            ),
            suffixes_order(a, b, i + 1),
        )
    }
}

/// The order of two versions.
pub open spec fn version_order(a: VersionView, b: VersionView) -> Order {
    chain(
        int_order(decimal_value(a.numbers[0]) as int, decimal_value(b.numbers[0]) as int),
        chain(
            numbers_order(a.numbers, b.numbers, 1),
            chain(
                letter_order(a.letter, b.letter),
                chain(
                    suffixes_order(a.suffixes, b.suffixes, 0),
                    int_order(opt_number(a.revision), opt_number(b.revision)),
                ),
            ),
        ),
    )
}

// ---------------------------------------------------------------------------
// laws

pub proof fn lemma_seq_order_flip(a: Seq<char>, b: Seq<char>)
    ensures
        seq_order(a, b) == flip(seq_order(b, a)),
        seq_order(a, a) == Order::Equal,
        seq_order(a, b) == Order::Equal ==> a == b,
    decreases a.len(),
{
    if a.len() > 0 && b.len() > 0 && a[0] == b[0] {
        lemma_seq_order_flip(a.drop_first(), b.drop_first());
        if seq_order(a, b) == Order::Equal {
            assert(a =~= seq![a[0]] + a.drop_first());
            assert(b =~= seq![b[0]] + b.drop_first());
        }
    }
    if a.len() > 0 {
        lemma_seq_order_flip(a.drop_first(), a.drop_first());
    }
}

proof fn lemma_numbers_order_flip(a: Seq<Seq<char>>, b: Seq<Seq<char>>, i: int)
    ensures
        numbers_order(a, b, i) == flip(numbers_order(b, a, i)),
        numbers_order(a, a, i) == Order::Equal,
    decreases a.len() - i,
{
    if !(i < 0 || (i >= a.len() && i >= b.len())) && i < a.len() && i < b.len() {
        lemma_seq_order_flip(strip_zeros(a[i]), strip_zeros(b[i]));
        lemma_numbers_order_flip(a, b, i + 1);
    }
    if 0 <= i < a.len() {
        lemma_seq_order_flip(strip_zeros(a[i]), strip_zeros(a[i]));
        lemma_numbers_order_flip(a, a, i + 1);
    }
}

proof fn lemma_suffixes_order_flip(a: Seq<SuffixView>, b: Seq<SuffixView>, i: int)
    ensures
        suffixes_order(a, b, i) == flip(suffixes_order(b, a, i)),
        suffixes_order(a, a, i) == Order::Equal,
    decreases a.len() - i,
{
    if 0 <= i < a.len() && i < b.len() {
        lemma_suffixes_order_flip(a, b, i + 1);
    }
    if 0 <= i < a.len() {
        lemma_suffixes_order_flip(a, a, i + 1);
    }
}

/// Comparing two versions the other way round gives the opposite
/// outcome, and every version equals itself.
pub proof fn lemma_version_order_flip(a: VersionView, b: VersionView)
    ensures
        version_order(a, b) == flip(version_order(b, a)),
        version_order(a, a) == Order::Equal,
{
    lemma_numbers_order_flip(a.numbers, b.numbers, 1);
    lemma_suffixes_order_flip(a.suffixes, b.suffixes, 0);
}

/// The suffix kinds from the lowest to the highest: `_alpha`, `_beta`,
/// `_pre`, `_rc`, `_p`.
pub open spec fn suffix_kinds() -> Seq<SuffixKind> {
    seq![SuffixKind::Alpha, SuffixKind::Beta, SuffixKind::Pre, SuffixKind::Rc, SuffixKind::P]
}

proof fn lemma_suffix_kinds_rank(x: int)
    requires
        0 <= x < 5,
    ensures
        suffix_rank(suffix_kinds()[x]) == x,
{
}

/// Suffix lists that agree from `k` up to `i` compare as they do from `i`.
proof fn lemma_suffixes_same_prefix(a: Seq<SuffixView>, b: Seq<SuffixView>, k: int, i: int)
    requires
        0 <= k <= i,
        i <= a.len(),
        i <= b.len(),
        forall|j: int| k <= j < i ==> a[j] == b[j],
    ensures
        suffixes_order(a, b, k) == suffixes_order(a, b, i),
    decreases i - k,
{
    if k < i {
        assert(a[k] == b[k]);
        lemma_suffixes_same_prefix(a, b, k + 1, i);
    }
}

/// Versions with the same numbers and letter compare by their suffixes and
/// then by their revisions.
proof fn lemma_version_same_base(a: VersionView, b: VersionView)
    requires
        a.numbers == b.numbers,
        a.letter == b.letter,
    ensures
        version_order(a, b) == chain(
            suffixes_order(a.suffixes, b.suffixes, 0),
            int_order(opt_number(a.revision), opt_number(b.revision)),
        ),
{
    lemma_numbers_order_flip(a.numbers, a.numbers, 1);
}

/// Between versions with the same numbers and letter whose suffixes agree
/// up to position `i`, where their kinds differ, the one whose suffix kind
/// comes first among `_alpha`, `_beta`, `_pre`, `_rc`, `_p` is the lesser,
/// whatever the suffix numbers, later suffixes and revisions: so
/// `1_alpha2 < 1_beta1`.
pub proof fn lemma_version_suffix_kind_decides(a: VersionView, b: VersionView, i: int, x: int, y: int)
    requires
        a.numbers == b.numbers,
        a.letter == b.letter,
        0 <= i < a.suffixes.len(),
        i < b.suffixes.len(),
        forall|j: int| 0 <= j < i ==> a.suffixes[j] == b.suffixes[j],
        0 <= x < y < 5,
        a.suffixes[i].kind == suffix_kinds()[x],
        b.suffixes[i].kind == suffix_kinds()[y],
    ensures
        version_order(a, b) == Order::Less,
        version_order(b, a) == Order::Greater,
{
    lemma_version_same_base(a, b);
    lemma_suffixes_same_prefix(a.suffixes, b.suffixes, 0, i);
    lemma_suffix_kinds_rank(x);
    lemma_suffix_kinds_rank(y);
    lemma_version_order_flip(a, b);
}

/// Between versions with the same numbers and letter whose suffixes agree
/// up to position `i`, where they have the same kind, the smaller suffix
/// number (a missing one being 0) makes the lesser version, whatever follows.
pub proof fn lemma_version_suffix_number_decides(a: VersionView, b: VersionView, i: int)
    requires
        a.numbers == b.numbers,
        a.letter == b.letter,
        0 <= i < a.suffixes.len(),
        i < b.suffixes.len(),
        forall|j: int| 0 <= j < i ==> a.suffixes[j] == b.suffixes[j],
        a.suffixes[i].kind == b.suffixes[i].kind,
        match (a.suffixes[i].number, b.suffixes[i].number) {
            (None, Some(d)) => decimal_value(d) > 0,
            (Some(c), Some(d)) => decimal_value(c) < decimal_value(d),
            _ => false,
        },
    ensures
        version_order(a, b) == Order::Less,
        version_order(b, a) == Order::Greater,
{
    lemma_version_same_base(a, b);
    lemma_suffixes_same_prefix(a.suffixes, b.suffixes, 0, i);
    lemma_version_order_flip(a, b);
}

/// A version that adds one suffix to another with the same numbers and
/// letter is greater when that suffix is a `_p`, and lesser otherwise,
/// whatever the revisions: `1_p1 > 1`, `1_rc1 < 1`.
pub proof fn lemma_version_extra_suffix(a: VersionView, b: VersionView, s: SuffixView)
    requires
        a.numbers == b.numbers,
        a.letter == b.letter,
        a.suffixes == b.suffixes.push(s),
    ensures
        version_order(a, b) == (if s.kind == SuffixKind::P {
            Order::Greater
        } else {
            Order::Less
        }),
{
    lemma_version_same_base(a, b);
    lemma_suffixes_same_prefix(a.suffixes, b.suffixes, 0, b.suffixes.len() as int);
    assert(a.suffixes[b.suffixes.len() as int] == s);
}

/// Versions alike but for their revisions compare by revision, a missing
/// revision counting as `r0`: `1-r1 < 1-r2`, `1 == 1-r0`, `1 < 1-r1`.
pub proof fn lemma_version_revision_decides(a: VersionView, b: VersionView)
    requires
        a.numbers == b.numbers,
        a.letter == b.letter,
        a.suffixes == b.suffixes,
    ensures
        (a.revision matches Some(r) && b.revision matches Some(q) && decimal_value(r) < decimal_value(q))
            ==> version_order(a, b) == Order::Less,
        (a.revision is None && (b.revision matches Some(q) && decimal_value(q) > 0)) ==> version_order(a, b)
            == Order::Less,
        (a.revision is None && (b.revision matches Some(q) && decimal_value(q) == 0)) ==> version_order(a, b)
            == Order::Equal,
        a.revision == b.revision ==> version_order(a, b) == Order::Equal,
{
    lemma_version_same_base(a, b);
    lemma_suffixes_order_flip(a.suffixes, a.suffixes, 0);
}

/// Versions with the same numbers compare first by letter, no letter coming
/// first: `1 < 1a < 1b`, whatever follows.
pub proof fn lemma_version_letter_decides(a: VersionView, b: VersionView)
    requires
        a.numbers == b.numbers,
        a.letter != b.letter,
    ensures
        a.letter is None ==> version_order(a, b) == Order::Less,
        (a.letter matches Some(x) && b.letter matches Some(y) && (x as int) < (y as int)) ==> version_order(a, b)
            == Order::Less,
{
    lemma_numbers_order_flip(a.numbers, a.numbers, 1);
}

/// The first number decides as an integer when it differs: `2 < 10`.
pub proof fn lemma_version_first_number_decides(a: VersionView, b: VersionView)
    requires
        decimal_value(a.numbers[0]) < decimal_value(b.numbers[0]),
    ensures
        version_order(a, b) == Order::Less,
        version_order(b, a) == Order::Greater,
{
}

/// Number lists that agree from `k` up to `i` compare as they do from `i`.
proof fn lemma_numbers_same_prefix(a: Seq<Seq<char>>, b: Seq<Seq<char>>, k: int, i: int)
    requires
        0 <= k <= i,
        i <= a.len(),
        i <= b.len(),
        forall|j: int| k <= j < i ==> a[j] == b[j],
    ensures
        numbers_order(a, b, k) == numbers_order(a, b, i),
    decreases i - k,
{
    if k < i {
        assert(a[k] == b[k]);
        lemma_seq_order_flip(strip_zeros(a[k]), strip_zeros(a[k]));
        lemma_numbers_same_prefix(a, b, k + 1, i);
    }
}

/// A version whose numbers begin another's and are fewer is the lesser:
/// `1.2 < 1.2.0`, `1 < 1.1`.
pub proof fn lemma_version_more_numbers(a: VersionView, b: VersionView)
    requires
        1 <= a.numbers.len() < b.numbers.len(),
        b.numbers.take(a.numbers.len() as int) == a.numbers,
    ensures
        version_order(a, b) == Order::Less,
        version_order(b, a) == Order::Greater,
{
    assert(a.numbers[0] == b.numbers.take(a.numbers.len() as int)[0]);
    assert forall|j: int| 1 <= j < a.numbers.len() implies a.numbers[j] == b.numbers[j] by {
        assert(a.numbers[j] == b.numbers.take(a.numbers.len() as int)[j]);
    }
    lemma_numbers_same_prefix(a.numbers, b.numbers, 1, a.numbers.len() as int);
    lemma_version_order_flip(a, b);
}

/// After equal leading numbers, a later number without leading zeros
/// compares as an integer on both sides: `1.9 < 1.10`.
pub proof fn lemma_version_later_number_decides(a: VersionView, b: VersionView, i: int)
    requires
        1 <= i < a.numbers.len(),
        i < b.numbers.len(),
        forall|j: int| 0 <= j < i ==> a.numbers[j] == b.numbers[j],
        a.numbers[i].len() > 0 && a.numbers[i][0] != '0',
        b.numbers[i].len() > 0 && b.numbers[i][0] != '0',
        decimal_value(a.numbers[i]) < decimal_value(b.numbers[i]),
    ensures
        version_order(a, b) == Order::Less,
        version_order(b, a) == Order::Greater,
{
    lemma_numbers_same_prefix(a.numbers, b.numbers, 1, i);
    lemma_version_order_flip(a, b);
}

/// After equal leading numbers, a later number with a leading zero is less
/// than one that begins with another digit: `1.01 < 1.1`.
pub proof fn lemma_version_leading_zero_decides(a: VersionView, b: VersionView, i: int)
    requires
        1 <= i < a.numbers.len(),
        i < b.numbers.len(),
        forall|j: int| 0 <= j < i ==> a.numbers[j] == b.numbers[j],
        a.numbers[i].len() > 0 && a.numbers[i][0] == '0',
        b.numbers[i].len() > 0 && '1' <= b.numbers[i][0] <= '9',
    ensures
        version_order(a, b) == Order::Less,
        version_order(b, a) == Order::Greater,
{
    lemma_numbers_same_prefix(a.numbers, b.numbers, 1, i);
    let x = strip_zeros(a.numbers[i]);
    let y = strip_zeros(b.numbers[i]);
    lemma_strip_zeros_prefix(a.numbers[i]);
    lemma_strip_zeros_prefix(b.numbers[i]);
    if y.len() == 0 {
        lemma_strip_zeros_empty(b.numbers[i]);
    }
    assert(y[0] == b.numbers[i][0]);
    if x.len() > 0 {
        assert(x[0] == a.numbers[i][0]);
    }
    assert(seq_order(x, y) == Order::Less);
    lemma_version_order_flip(a, b);
}

/// After equal leading numbers, a later number with a leading zero ignores
/// trailing zeros: `1.010 == 1.01` when nothing else differs.
pub proof fn lemma_version_trailing_zero(a: VersionView, b: VersionView, i: int)
    requires
        1 <= i < a.numbers.len(),
        a.numbers.len() == b.numbers.len(),
        forall|j: int| 0 <= j < a.numbers.len() && j != i ==> a.numbers[j] == b.numbers[j],
        b.numbers[i].len() > 0 && b.numbers[i][0] == '0',
        a.numbers[i] == b.numbers[i].push('0'),
        a.letter == b.letter,
        a.suffixes == b.suffixes,
        a.revision == b.revision,
    ensures
        version_order(a, b) == Order::Equal,
{
    let n = a.numbers.len() as int;
    lemma_numbers_same_prefix(a.numbers, b.numbers, 1, i);
    lemma_numbers_same_prefix(a.numbers, b.numbers, i + 1, n);
    assert(a.numbers[i].drop_last() =~= b.numbers[i]);
    assert(strip_zeros(a.numbers[i]) == strip_zeros(b.numbers[i]));
    assert(a.numbers[i][0] == '0');
    lemma_seq_order_flip(strip_zeros(b.numbers[i]), strip_zeros(b.numbers[i]));
    assert(a.numbers[0] == b.numbers[0]);
    lemma_suffixes_order_flip(a.suffixes, a.suffixes, 0);
}

/// A text whose trailing zeros strip to nothing begins with a zero.
proof fn lemma_strip_zeros_empty(s: Seq<char>)
    requires
        s.len() > 0,
        strip_zeros(s).len() == 0,
    ensures
        s[0] == '0',
    decreases s.len(),
{
    if s.last() == '0' {
        if s.len() > 1 {
            lemma_strip_zeros_empty(s.drop_last());
            assert(s.drop_last()[0] == s[0]);
        }
    }
}

/// Stripping trailing zeros keeps a prefix.
proof fn lemma_strip_zeros_prefix(s: Seq<char>)
    ensures
        strip_zeros(s).len() <= s.len(),
        forall|i: int| 0 <= i < strip_zeros(s).len() ==> #[trigger] strip_zeros(s)[i] == s[i],
    decreases s.len(),
{
    if s.len() > 0 && s.last() == '0' {
        lemma_strip_zeros_prefix(s.drop_last());
    }
}

/// Two nonempty numbers that compare equal either both begin with a zero or
/// neither does.
proof fn lemma_later_number_zero(a: Seq<char>, b: Seq<char>)
    requires
        a.len() > 0,
        b.len() > 0,
        later_number_order(a, b) == Order::Equal,
    ensures
        (a[0] == '0') == (b[0] == '0'),
{
    if a[0] == '0' || b[0] == '0' {
        lemma_seq_order_flip(strip_zeros(a), strip_zeros(b));
        lemma_strip_zeros_prefix(a);
        lemma_strip_zeros_prefix(b);
        if strip_zeros(a).len() == 0 {
            lemma_strip_zeros_empty(a);
            lemma_strip_zeros_empty(b);
        } else {
            assert(strip_zeros(a)[0] == a[0]);
            assert(strip_zeros(b)[0] == b[0]);
        }
    }
}

/// Equality of later numbers is transitive.
proof fn lemma_later_number_equal_trans(a: Seq<char>, b: Seq<char>, c: Seq<char>)
    requires
        a.len() > 0,
        b.len() > 0,
        c.len() > 0,
        later_number_order(a, b) == Order::Equal,
        later_number_order(b, c) == Order::Equal,
    ensures
        later_number_order(a, c) == Order::Equal,
{
    lemma_later_number_zero(a, b);
    lemma_later_number_zero(b, c);
    lemma_seq_order_flip(strip_zeros(a), strip_zeros(b));
    lemma_seq_order_flip(strip_zeros(b), strip_zeros(c));
    lemma_seq_order_flip(strip_zeros(a), strip_zeros(c));
}

proof fn lemma_numbers_equal_trans(a: Seq<Seq<char>>, b: Seq<Seq<char>>, c: Seq<Seq<char>>, i: int)
    requires
        0 <= i,
        forall|k: int| 0 <= k < a.len() ==> (#[trigger] a[k]).len() > 0,
        forall|k: int| 0 <= k < b.len() ==> (#[trigger] b[k]).len() > 0,
        forall|k: int| 0 <= k < c.len() ==> (#[trigger] c[k]).len() > 0,
        numbers_order(a, b, i) == Order::Equal,
        numbers_order(b, c, i) == Order::Equal,
    ensures
        numbers_order(a, c, i) == Order::Equal,
    decreases a.len() - i,
{
    if i < a.len() && i < b.len() && i < c.len() {
        lemma_later_number_equal_trans(a[i], b[i], c[i]);
        lemma_numbers_equal_trans(a, b, c, i + 1);
    }
}

proof fn lemma_suffixes_equal_trans(a: Seq<SuffixView>, b: Seq<SuffixView>, c: Seq<SuffixView>, i: int)
    requires
        0 <= i,
        suffixes_order(a, b, i) == Order::Equal,
        suffixes_order(b, c, i) == Order::Equal,
    ensures
        suffixes_order(a, c, i) == Order::Equal,
    decreases a.len() - i,
{
    if i < a.len() && i < b.len() && i < c.len() {
        lemma_suffixes_equal_trans(a, b, c, i + 1);
    }
}

/// Versions that compare equal to a common version compare equal to each
/// other.
pub proof fn lemma_version_equal_trans(a: VersionView, b: VersionView, c: VersionView)
    requires
        version_wf(a),
        version_wf(b),
        version_wf(c),
        version_order(a, b) == Order::Equal,
        version_order(b, c) == Order::Equal,
    ensures
        version_order(a, c) == Order::Equal,
{
    assert forall|k: int| 0 <= k < a.numbers.len() implies (#[trigger] a.numbers[k]).len() > 0 by {
        assert(valid_number(a.numbers[k]));
    }
    assert forall|k: int| 0 <= k < b.numbers.len() implies (#[trigger] b.numbers[k]).len() > 0 by {
        assert(valid_number(b.numbers[k]));
    }
    assert forall|k: int| 0 <= k < c.numbers.len() implies (#[trigger] c.numbers[k]).len() > 0 by {
        assert(valid_number(c.numbers[k]));
    }
    lemma_numbers_equal_trans(a.numbers, b.numbers, c.numbers, 1);
    lemma_suffixes_equal_trans(a.suffixes, b.suffixes, c.suffixes, 0);
}

// ---------------------------------------------------------------------------
// executable comparison

fn int_order_exec(a: u64, b: u64) -> (r: Order)
    ensures
        r == int_order(a as int, b as int),
{
    if a < b {
        Order::Less
    } else if a == b {
        Order::Equal
    } else {
        Order::Greater
    }
}

pub(crate) fn chain_exec(a: Order, b: Order) -> (r: Order)
    ensures
        r == chain(a, b),
{
    match a {
        Order::Equal => b,
        _ => a,
    }
}

/// The value of digits that fit in a `u64`.
fn number_value(d: &String) -> (r: u64)
    requires
        valid_number(d@),
    ensures
        r == decimal_value(d@),
{
    let cs = chars_of(d.as_str());
    let mut value: u64 = 0;
    let mut k: usize = 0;
    while k < cs.len()
        invariant
            k <= cs@.len(),
            cs@ == d@,
            valid_number(d@),
            value == decimal_value(cs@.take(k as int)),
        decreases cs@.len() - k,
    {
        proof {
            assert(cs@.take(k + 1).drop_last() =~= cs@.take(k as int));
            assert(cs@.take(k + 1).last() == cs@[k as int]);
            lemma_decimal_prefix_le(cs@, k + 1);
            assert(is_digit(cs@[k as int]));
        }
        let digit = (cs[k] as u32 - '0' as u32) as u64;
        value = value * 10 + digit;
        k = k + 1;
    }
    assert(cs@.take(cs@.len() as int) =~= cs@);
    value
}

proof fn lemma_strip_zeros_take(s: Seq<char>, n: int)
    requires
        0 <= n < s.len(),
        s[n] == '0',
    ensures
        strip_zeros(s.take(n + 1)) == strip_zeros(s.take(n)),
{
    assert(s.take(n + 1).drop_last() =~= s.take(n));
}

/// The length of the digits without trailing zeros.
fn stripped_len(cs: &Vec<char>) -> (r: usize)
    ensures
        r <= cs@.len(),
        cs@.take(r as int) == strip_zeros(cs@),
{
    let mut n = cs.len();
    assert(cs@.take(n as int) =~= cs@);
    while n > 0 && cs[n - 1] == '0'
        invariant
            n <= cs@.len(),
            strip_zeros(cs@) == strip_zeros(cs@.take(n as int)),
        decreases n,
    {
        proof {
            lemma_strip_zeros_take(cs@, n - 1);
        }
        n = n - 1;
    }
    n
}

proof fn lemma_seq_order_step(a: Seq<char>, b: Seq<char>, i: int)
    requires
        0 <= i < a.len(),
        i < b.len(),
        a[i] == b[i],
    ensures
        seq_order(a.skip(i), b.skip(i)) == seq_order(a.skip(i + 1), b.skip(i + 1)),
{
    assert(a.skip(i).drop_first() =~= a.skip(i + 1));
    assert(b.skip(i).drop_first() =~= b.skip(i + 1));
}

/// Lexicographic order of the first `an` characters of `a` and `bn` of `b`.
fn seq_order_exec(a: &Vec<char>, an: usize, b: &Vec<char>, bn: usize) -> (r: Order)
    requires
        an <= a@.len(),
        bn <= b@.len(),
    ensures
        r == seq_order(a@.take(an as int), b@.take(bn as int)),
{
    let ghost x = a@.take(an as int);
    let ghost y = b@.take(bn as int);
    let mut i: usize = 0;
    assert(x.skip(0) =~= x);
    assert(y.skip(0) =~= y);
    while i < an && i < bn && a[i] == b[i]
        invariant
            i <= an <= a@.len(),
            i <= bn <= b@.len(),
            x == a@.take(an as int),
            y == b@.take(bn as int),
            seq_order(x, y) == seq_order(x.skip(i as int), y.skip(i as int)),
        decreases an - i,
    {
        proof {
            lemma_seq_order_step(x, y, i as int);
        }
        i = i + 1;
    }
    if i == an && i == bn {
        assert(x.skip(i as int).len() == 0 && y.skip(i as int).len() == 0);
        Order::Equal
    } else if i == an {
        Order::Less
    } else if i == bn {
        Order::Greater
    } else {
        assert(x.skip(i as int)[0] == a@[i as int]);
        assert(y.skip(i as int)[0] == b@[i as int]);
        if a[i] < b[i] {
            Order::Less
        } else {
            Order::Greater
        }
    }
}

fn later_number_order_exec(a: &String, b: &String) -> (r: Order)
    requires
        valid_number(a@),
        valid_number(b@),
    ensures
        r == later_number_order(a@, b@),
{
    let x = chars_of(a.as_str());
    let y = chars_of(b.as_str());
    if x[0] == '0' || y[0] == '0' {
        let xn = stripped_len(&x);
        let yn = stripped_len(&y);
        seq_order_exec(&x, xn, &y, yn)
    } else {
        int_order_exec(number_value(a), number_value(b))
    }
}

fn opt_number_exec(n: &Option<String>) -> (r: u64)
    requires
        opt_valid(match n {
            Some(d) => Some(d@),
            None => None,
        }),
    ensures
        r == opt_number(match n {
            Some(d) => Some(d@),
            None => None,
        }),
{
    match n {
        Some(d) => number_value(d),
        None => 0,
    }
}

fn suffix_rank_exec(k: &SuffixKind) -> (r: u64)
    ensures
        r == suffix_rank(*k),
{
    match k {
        SuffixKind::Alpha => 0,
        SuffixKind::Beta => 1,
        SuffixKind::Pre => 2,
        SuffixKind::Rc => 3,
        SuffixKind::P => 4,
    }
}

fn is_p(k: &SuffixKind) -> (r: bool)
    ensures
        r == (*k == SuffixKind::P),
{
    match k {
        SuffixKind::P => true,
        _ => false,
    }
}

/// Compare two versions.
pub fn compare_versions(a: &Version, b: &Version) -> (r: Order)
    requires
        version_wf(a@),
        version_wf(b@),
    ensures
        r == version_order(a@, b@),
{
    let ghost an = a@.numbers;
    let ghost bn = b@.numbers;
    assert(an[0] == a.numbers@[0]@ && bn[0] == b.numbers@[0]@);
    let first = int_order_exec(number_value(&a.numbers[0]), number_value(&b.numbers[0]));
    // further numbers
    let mut i: usize = 1;
    let mut rest = Order::Equal;
    let mut done = false;
    while !done
        invariant
            1 <= i,
            i <= a.numbers@.len(),
            i <= b.numbers@.len(),
            an == a@.numbers,
            bn == b@.numbers,
            version_wf(a@),
            version_wf(b@),
            !done ==> rest is Equal,
            numbers_order(an, bn, 1) == (if done {
                rest
            } else {
                numbers_order(an, bn, i as int)
            }),
        decreases a.numbers@.len() - i + (if done {
            0int
        } else {
            1int
        }),
    {
        if i >= a.numbers.len() && i >= b.numbers.len() {
            done = true;
        } else if i >= a.numbers.len() {
            rest = Order::Less;
            done = true;
        } else if i >= b.numbers.len() {
            rest = Order::Greater;
            done = true;
        } else {
            assert(an[i as int] == a.numbers@[i as int]@);
            assert(bn[i as int] == b.numbers@[i as int]@);
            let o = later_number_order_exec(&a.numbers[i], &b.numbers[i]);
            if !(o == Order::Equal) {
                rest = o;
                done = true;
            } else {
                i = i + 1;
            }
        }
    }
    let letter = match (a.letter, b.letter) {
        (None, None) => Order::Equal,
        (None, Some(_)) => Order::Less,
        (Some(_), None) => Order::Greater,
        (Some(x), Some(y)) => if x < y {
            Order::Less
        } else if x == y {
            Order::Equal
        } else {
            Order::Greater
        },
    };
    // suffixes
    let ghost asx = a@.suffixes;
    let ghost bsx = b@.suffixes;
    let mut j: usize = 0;
    let mut sfx = Order::Equal;
    let mut done = false;
    while !done
        invariant
            asx == a@.suffixes,
            bsx == b@.suffixes,
            version_wf(a@),
            version_wf(b@),
            j <= a.suffixes@.len(),
            j <= b.suffixes@.len(),
            !done ==> sfx is Equal,
            suffixes_order(asx, bsx, 0) == (if done {
                sfx
            } else {
                suffixes_order(asx, bsx, j as int)
            }),
        decreases a.suffixes@.len() - j + (if done { 0int } else { 1int }),
    {
        if j >= a.suffixes.len() && j >= b.suffixes.len() {
            done = true;
        } else if j >= a.suffixes.len() {
            assert(bsx[j as int] == b.suffixes@[j as int]@);
            sfx = if is_p(&b.suffixes[j].kind) {
                Order::Less
            } else {
                Order::Greater
            };
            done = true;
        } else if j >= b.suffixes.len() {
            assert(asx[j as int] == a.suffixes@[j as int]@);
            sfx = if is_p(&a.suffixes[j].kind) {
                Order::Greater
            } else {
                Order::Less
            };
            done = true;
        } else {
            assert(asx[j as int] == a.suffixes@[j as int]@);
            assert(bsx[j as int] == b.suffixes@[j as int]@);
            let x = &a.suffixes[j];
            let y = &b.suffixes[j];
            let o = chain_exec(
                int_order_exec(suffix_rank_exec(&x.kind), suffix_rank_exec(&y.kind)),
                int_order_exec(opt_number_exec(&x.number), opt_number_exec(&y.number)),
            );
            if !(o == Order::Equal) {
                sfx = o;
                done = true;
            } else {
                j = j + 1;
            }
        }
    }
    let rev = int_order_exec(opt_number_exec(&a.revision), opt_number_exec(&b.revision));
    chain_exec(first, chain_exec(rest, chain_exec(letter, chain_exec(sfx, rev))))
}

// ---------------------------------------------------------------------------
// dependency ordering

/// Absent sorts before present.
pub open spec fn opt_seq_order(a: Option<Seq<char>>, b: Option<Seq<char>>) -> Order {
    match (a, b) {
        (None, None) => Order::Equal,
        (None, Some(_)) => Order::Less,
        (Some(_), None) => Order::Greater,
        (Some(x), Some(y)) => seq_order(x, y),
    }
}

pub open spec fn opt_version_order(a: Option<VersionView>, b: Option<VersionView>) -> Order {
    match (a, b) {
        (None, None) => Order::Equal,
        (None, Some(_)) => Order::Less,
        (Some(_), None) => Order::Greater,
        (Some(x), Some(y)) => version_order(x, y),
    }
}

pub open spec fn op_rank(o: Option<Operator>) -> int {
    match o {
        None => 0,
        Some(Operator::Less) => 1,
        Some(Operator::LessOrEqual) => 2,
        Some(Operator::Equal) => 3,
        Some(Operator::EqualGlob) => 4,
        Some(Operator::Approximate) => 5,
        Some(Operator::GreaterOrEqual) => 6,
        Some(Operator::Greater) => 7,
    }
}

pub open spec fn blocker_rank(b: Option<Blocker>) -> int {
    match b {
        None => 0,
        Some(Blocker::Strong) => 1,
        Some(Blocker::Weak) => 2,
    }
}

pub open spec fn slot_op_rank(o: Option<SlotOperator>) -> int {
    match o {
        None => 0,
        Some(SlotOperator::Equal) => 1,
        Some(SlotOperator::Star) => 2,
    }
}

pub open spec fn use_kind_rank(k: UseDepKind) -> int {
    match k {
        UseDepKind::Enabled => 0,
        UseDepKind::Disabled => 1,
        UseDepKind::Equal => 2,
        UseDepKind::NotEqual => 3,
        UseDepKind::EnabledConditional => 4,
        UseDepKind::DisabledConditional => 5,
    }
}

pub open spec fn default_rank(d: Option<UseDepDefault>) -> int {
    match d {
        None => 0,
        Some(UseDepDefault::Enabled) => 1,
        Some(UseDepDefault::Disabled) => 2,
    }
}

pub open spec fn use_dep_order(a: UseDepView, b: UseDepView) -> Order {
    chain(
        int_order(use_kind_rank(a.kind), use_kind_rank(b.kind)),
        chain(seq_order(a.flag, b.flag), int_order(default_rank(a.default), default_rank(b.default))),
    )
}

/// Lexicographic order of USE dependency lists from index `i` on.
pub open spec fn use_list_order(a: Seq<UseDepView>, b: Seq<UseDepView>, i: int) -> Order
    decreases a.len() - i,
{
    if i < 0 || (i >= a.len() && i >= b.len()) {
        Order::Equal
    } else if i >= a.len() {
        Order::Less
    } else if i >= b.len() {
        Order::Greater
    } else {
        chain(use_dep_order(a[i], b[i]), use_list_order(a, b, i + 1))
    }
}

pub open spec fn opt_use_order(a: Option<Seq<UseDepView>>, b: Option<Seq<UseDepView>>) -> Order {
    match (a, b) {
        (None, None) => Order::Equal,
        (None, Some(_)) => Order::Less,
        (Some(_), None) => Order::Greater,
        (Some(x), Some(y)) => use_list_order(x, y, 0),
    }
}

/// The order of two dependencies: by category, package, version, version
/// operator, blocker, slot, subslot, slot operator, USE dependencies and repo.
pub open spec fn dep_order(a: DepView, b: DepView) -> Order {
    chain(
        seq_order(a.category, b.category),
        chain(
            seq_order(a.package, b.package),
            chain(
                opt_version_order(a.version, b.version),
                chain(
                    int_order(op_rank(a.op), op_rank(b.op)),
                    chain(
                        int_order(blocker_rank(a.blocker), blocker_rank(b.blocker)),
                        chain(
                            opt_seq_order(a.slot, b.slot),
                            chain(
                                opt_seq_order(a.subslot, b.subslot),
                                chain(
                                    int_order(slot_op_rank(a.slot_op), slot_op_rank(b.slot_op)),
                                    chain(
                                        opt_use_order(a.use_deps, b.use_deps),
                                        opt_seq_order(a.repo, b.repo),
                                    ),
                                ),
                            ),
                        ),
                    ),
                ),
            ),
        ),
    )
}

proof fn lemma_use_list_order_flip(a: Seq<UseDepView>, b: Seq<UseDepView>, i: int)
    ensures
        use_list_order(a, b, i) == flip(use_list_order(b, a, i)),
        use_list_order(a, a, i) == Order::Equal,
    decreases a.len() - i,
{
    if 0 <= i < a.len() && i < b.len() {
        lemma_seq_order_flip(a[i].flag, b[i].flag);
        lemma_use_list_order_flip(a, b, i + 1);
    }
    if 0 <= i < a.len() {
        lemma_seq_order_flip(a[i].flag, a[i].flag);
        lemma_use_list_order_flip(a, a, i + 1);
    }
}

pub(crate) proof fn lemma_chain_flip(a1: Order, b1: Order, a2: Order, b2: Order)
    requires
        a1 == flip(a2),
        b1 == flip(b2),
    ensures
        chain(a1, b1) == flip(chain(a2, b2)),
{
}

/// Comparing two dependencies the other way round gives the opposite
/// outcome, and every dependency equals itself.
pub proof fn lemma_dep_order_flip(a: DepView, b: DepView)
    ensures
        dep_order(a, b) == flip(dep_order(b, a)),
        dep_order(a, a) == Order::Equal,
{
    lemma_seq_order_flip(a.category, b.category);
    lemma_seq_order_flip(a.package, b.package);
    lemma_seq_order_flip(a.category, a.category);
    lemma_seq_order_flip(a.package, a.package);
    match (a.version, b.version) {
        (Some(x), Some(y)) => lemma_version_order_flip(x, y),
        _ => {},
    }
    match a.version {
        Some(x) => lemma_version_order_flip(x, x),
        None => {},
    }
    match (a.slot, b.slot) {
        (Some(x), Some(y)) => lemma_seq_order_flip(x, y),
        _ => {},
    }
    match a.slot {
        Some(x) => lemma_seq_order_flip(x, x),
        None => {},
    }
    match (a.subslot, b.subslot) {
        (Some(x), Some(y)) => lemma_seq_order_flip(x, y),
        _ => {},
    }
    match a.subslot {
        Some(x) => lemma_seq_order_flip(x, x),
        None => {},
    }
    match (a.repo, b.repo) {
        (Some(x), Some(y)) => lemma_seq_order_flip(x, y),
        _ => {},
    }
    match a.repo {
        Some(x) => lemma_seq_order_flip(x, x),
        None => {},
    }
    match (a.use_deps, b.use_deps) {
        (Some(x), Some(y)) => lemma_use_list_order_flip(x, y, 0),
        _ => {},
    }
    match a.use_deps {
        Some(x) => lemma_use_list_order_flip(x, x, 0),
        None => {},
    }
}

pub(crate) fn string_order(a: &String, b: &String) -> (r: Order)
    ensures
        r == seq_order(a@, b@),
{
    let x = chars_of(a.as_str());
    let y = chars_of(b.as_str());
    assert(x@.take(x@.len() as int) =~= x@);
    assert(y@.take(y@.len() as int) =~= y@);
    seq_order_exec(&x, x.len(), &y, y.len())
}

pub(crate) fn opt_string_order(a: &Option<String>, b: &Option<String>) -> (r: Order)
    ensures
        r == opt_seq_order(opt_view(*a), opt_view(*b)),
{
    match (a, b) {
        (None, None) => Order::Equal,
        (None, Some(_)) => Order::Less,
        (Some(_), None) => Order::Greater,
        (Some(x), Some(y)) => string_order(x, y),
    }
}

pub(crate) fn rank_order(a: u64, b: u64) -> (r: Order)
    ensures
        r == int_order(a as int, b as int),
{
    int_order_exec(a, b)
}

fn op_rank_exec(o: Option<Operator>) -> (r: u64)
    ensures
        r == op_rank(o),
{
    match o {
        None => 0,
        Some(Operator::Less) => 1,
        Some(Operator::LessOrEqual) => 2,
        Some(Operator::Equal) => 3,
        Some(Operator::EqualGlob) => 4,
        Some(Operator::Approximate) => 5,
        Some(Operator::GreaterOrEqual) => 6,
        Some(Operator::Greater) => 7,
    }
}

fn blocker_rank_exec(b: Option<Blocker>) -> (r: u64)
    ensures
        r == blocker_rank(b),
{
    match b {
        None => 0,
        Some(Blocker::Strong) => 1,
        Some(Blocker::Weak) => 2,
    }
}

fn slot_op_rank_exec(o: Option<SlotOperator>) -> (r: u64)
    ensures
        r == slot_op_rank(o),
{
    match o {
        None => 0,
        Some(SlotOperator::Equal) => 1,
        Some(SlotOperator::Star) => 2,
    }
}

fn use_kind_rank_exec(k: UseDepKind) -> (r: u64)
    ensures
        r == use_kind_rank(k),
{
    match k {
        UseDepKind::Enabled => 0,
        UseDepKind::Disabled => 1,
        UseDepKind::Equal => 2,
        UseDepKind::NotEqual => 3,
        UseDepKind::EnabledConditional => 4,
        UseDepKind::DisabledConditional => 5,
    }
}

fn default_rank_exec(d: Option<UseDepDefault>) -> (r: u64)
    ensures
        r == default_rank(d),
{
    match d {
        None => 0,
        Some(UseDepDefault::Enabled) => 1,
        Some(UseDepDefault::Disabled) => 2,
    }
}

fn use_list_order_exec(a: &Vec<UseDep>, b: &Vec<UseDep>) -> (r: Order)
    ensures
        r == use_list_order(a@.map_values(|d: UseDep| d@), b@.map_values(|d: UseDep| d@), 0),
{
    let ghost x = a@.map_values(|d: UseDep| d@);
    let ghost y = b@.map_values(|d: UseDep| d@);
    let mut i: usize = 0;
    let mut out = Order::Equal;
    let mut done = false;
    while !done
        invariant
            x == a@.map_values(|d: UseDep| d@),
            y == b@.map_values(|d: UseDep| d@),
            i <= a@.len(),
            i <= b@.len(),
            use_list_order(x, y, 0) == (if done {
                out
            } else {
                use_list_order(x, y, i as int)
            }),
        decreases a@.len() - i + (if done {
            0int
        } else {
            1int
        }),
    {
        if i >= a.len() && i >= b.len() {
            out = Order::Equal;
            done = true;
        } else if i >= a.len() {
            out = Order::Less;
            done = true;
        } else if i >= b.len() {
            out = Order::Greater;
            done = true;
        } else {
            let p = &a[i];
            let q = &b[i];
            assert(x[i as int] == p@ && y[i as int] == q@);
            let o = chain_exec(
                rank_order(use_kind_rank_exec(p.kind), use_kind_rank_exec(q.kind)),
                chain_exec(
                    string_order(&p.flag, &q.flag),
                    rank_order(default_rank_exec(p.default), default_rank_exec(q.default)),
                ),
            );
            if !(o == Order::Equal) {
                out = o;
                done = true;
            } else {
                i = i + 1;
            }
        }
    }
    out
}

/// Compare two dependencies.
pub fn compare_deps(a: &Dep, b: &Dep) -> (r: Order)
    requires
        dep_wf(a@),
        dep_wf(b@),
    ensures
        r == dep_order(a@, b@),
{
    let c1 = string_order(&a.category, &b.category);
    let c2 = string_order(&a.package, &b.package);
    let c3 = match (&a.version, &b.version) {
        (None, None) => Order::Equal,
        (None, Some(_)) => Order::Less,
        (Some(_), None) => Order::Greater,
        (Some(x), Some(y)) => compare_versions(x, y),
    };
    let c4 = rank_order(op_rank_exec(a.op), op_rank_exec(b.op));
    let c5 = rank_order(blocker_rank_exec(a.blocker), blocker_rank_exec(b.blocker));
    let c6 = opt_string_order(&a.slot, &b.slot);
    let c7 = opt_string_order(&a.subslot, &b.subslot);
    let c8 = rank_order(slot_op_rank_exec(a.slot_op), slot_op_rank_exec(b.slot_op));
    let c9 = match (&a.use_deps, &b.use_deps) {
        (None, None) => Order::Equal,
        (None, Some(_)) => Order::Less,
        (Some(_), None) => Order::Greater,
        (Some(x), Some(y)) => use_list_order_exec(x, y),
    };
    let c10 = opt_string_order(&a.repo, &b.repo);
    chain_exec(
        c1,
        chain_exec(
            c2,
            chain_exec(
                c3,
                chain_exec(
                    c4,
                    chain_exec(c5, chain_exec(c6, chain_exec(c7, chain_exec(c8, chain_exec(c9, c10))))),
                ),
            ),
        ),
    )
}

} // verus!
