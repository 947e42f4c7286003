//! Insertion-ordered sets of strings, held in `indexmap::IndexSet`.

use vstd::prelude::*;
use indexmap::IndexSet;
use crate::order::{Order, seq_order};

verus! {

#[verifier::external_type_specification]
#[verifier::external_body]
#[verifier::reject_recursive_types(T)]
#[verifier::reject_recursive_types(S)]
pub struct ExIndexSet<T, S>(indexmap::IndexSet<T, S>);

/// The values of an insertion-ordered set of strings, in order.
pub uninterp spec fn set_items(s: IndexSet<String>) -> Seq<Seq<char>>;

/// Values in order without repeats.
pub open spec fn sorted_items(v: Seq<Seq<char>>) -> bool {
    forall|i: int, j: int| 0 <= i < j < v.len() ==> seq_order(v[i], v[j]) == Order::Less
}

/// A set's values after adding each of `values` not yet present, in order.
pub open spec fn added(start: Seq<Seq<char>>, values: Seq<Seq<char>>) -> Seq<Seq<char>>
    decreases values.len(),
{
    if values.len() == 0 {
        start
    } else {
        let before = added(start, values.drop_last());
        if before.contains(values.last()) {
            before
        } else {
            before.push(values.last())
        }
    }
}

/// `IndexSet::new`: an empty set.
#[verifier::external_body]
pub(crate) fn set_new() -> (r: IndexSet<String>)
    ensures
        set_items(r) == Seq::<Seq<char>>::empty(),
{
    IndexSet::new()
}

/// `IndexSet::insert`: a value not yet present is added at the end and `true`
/// returned; otherwise the set is left as it was and `false` returned.
#[verifier::external_body]
pub(crate) fn set_insert(set: &mut IndexSet<String>, value: String) -> (r: bool)
    ensures
        r == !set_items(*old(set)).contains(value@),
        r ==> set_items(*final(set)) == set_items(*old(set)).push(value@),
        !r ==> set_items(*final(set)) == set_items(*old(set)),
{
    set.insert(value)
}

/// `IndexSet::contains`: whether a value is in the set.
#[verifier::external_body]
pub(crate) fn set_contains(set: &IndexSet<String>, value: &str) -> (r: bool)
    ensures
        r == set_items(*set).contains(value@),
{
    set.contains(value)
}

/// `IndexSet::len`: the number of values.
#[verifier::external_body]
pub(crate) fn set_len(set: &IndexSet<String>) -> (r: usize)
    ensures
        r == set_items(*set).len(),
{
    set.len()
}

/// `IndexSet::get_index`: the value at a position, when there is one.
#[verifier::external_body]
pub(crate) fn set_get(set: &IndexSet<String>, index: usize) -> (r: Option<String>)
    ensures
        index < set_items(*set).len() ==> r is Some && r->Some_0@ == set_items(*set)[index as int],
        index >= set_items(*set).len() ==> r is None,
{
    set.get_index(index).cloned()
}

/// `IndexSet::sort`: the same values, sorted by the strings' ordering, which
/// orders them character by character. A set holds no value twice.
#[verifier::external_body]
pub(crate) fn set_sort(set: &mut IndexSet<String>)
    ensures
        set_items(*final(set)).to_multiset() == set_items(*old(set)).to_multiset(),
        set_items(*final(set)).no_duplicates(),
        sorted_items(set_items(*final(set))),
{
    set.sort()
}

/// The values of a set as a list, in order.
pub fn set_values(set: &IndexSet<String>) -> (r: Vec<String>)
    ensures
        crate::chars::views(r@) == set_items(*set),
{
    let n = set_len(set);
    let mut out: Vec<String> = Vec::new();
    let mut i: usize = 0;
    assert(crate::chars::views(out@) =~= set_items(*set).take(0));
    while i < n
        invariant
            i <= n,
            n == set_items(*set).len(),
            crate::chars::views(out@) == set_items(*set).take(i as int),
        decreases n - i,
    {
        let ghost before = crate::chars::views(out@);
        match set_get(set, i) {
            Some(v) => {
                let ghost vv = v@;
                out.push(v);
                assert(crate::chars::views(out@) =~= before.push(vv));
                assert(set_items(*set).take(i + 1) =~= set_items(*set).take(i as int).push(vv));
            },
            None => {
                assert(false);
            },
        }
        i = i + 1;
    }
    assert(set_items(*set).take(n as int) =~= set_items(*set));
    out
}

/// Values already added are not added again.
proof fn lemma_added_contains(start: Seq<Seq<char>>, values: Seq<Seq<char>>, x: Seq<char>)
    ensures
        added(start, values).contains(x) <==> (start.contains(x) || values.contains(x)),
    decreases values.len(),
{
    if values.len() > 0 {
        lemma_added_contains(start, values.drop_last(), x);
        let before = added(start, values.drop_last());
        if x == values.last() {
            assert(values.contains(x)) by {
                assert(values[values.len() - 1] == x);
            }
            if !before.contains(x) {
                assert(before.push(x)[before.len() as int] == x);
            }
        } else {
            if values.drop_last().contains(x) {
                let i = choose|i: int| 0 <= i < values.drop_last().len() && values.drop_last()[i] == x;
                assert(values[i] == x);
            }
            if values.contains(x) {
                let i = choose|i: int| 0 <= i < values.len() && values[i] == x;
                assert(values.drop_last()[i] == x);
            }
            if !before.contains(values.last()) {
                if before.push(values.last()).contains(x) {
                    let i = choose|i: int| 0 <= i < before.len() + 1 && before.push(values.last())[i] == x;
                    assert(before[i] == x);
                }
                if before.contains(x) {
                    let i = choose|i: int| 0 <= i < before.len() && before[i] == x;
                    assert(before.push(values.last())[i] == x);
                }
            }
        }
    }
}

/// Adding values that are all present already changes nothing.
proof fn lemma_added_present(start: Seq<Seq<char>>, values: Seq<Seq<char>>)
    requires
        forall|i: int| 0 <= i < values.len() ==> start.contains(#[trigger] values[i]),
    ensures
        added(start, values) == start,
    decreases values.len(),
{
    if values.len() > 0 {
        lemma_added_present(start, values.drop_last());
        assert(start.contains(values[values.len() - 1]));
    }
}

/// Adding the same values a second time changes nothing: a set holds each
/// value once.
pub proof fn lemma_added_idempotent(start: Seq<Seq<char>>, values: Seq<Seq<char>>)
    ensures
        added(added(start, values), values) == added(start, values),
{
    assert forall|i: int| 0 <= i < values.len() implies added(start, values).contains(
        #[trigger] values[i],
    ) by {
        lemma_added_contains(start, values, values[i]);
    }
    lemma_added_present(added(start, values), values);
}

} // verus!
