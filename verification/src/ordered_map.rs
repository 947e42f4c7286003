//! Insertion-ordered maps held in `indexmap::IndexMap`: the license groups
//! and mirrors (names to sets of names) and the USE_EXPAND flags (names to
//! flag descriptions) that a repo and its masters define, merged so that a
//! later definition of a name replaces an earlier one.

use vstd::prelude::*;
use indexmap::{IndexMap, IndexSet};
use crate::order::{Order, seq_order};
use crate::ordered_set::set_items;

verus! {

#[verifier::external_type_specification]
#[verifier::external_body]
#[verifier::reject_recursive_types(K)]
#[verifier::reject_recursive_types(V)]
#[verifier::reject_recursive_types(S)]
pub struct ExIndexMap<K, V, S>(indexmap::IndexMap<K, V, S>);

/// The entries of a map from names to sets of names, in order: each name
/// with the values of its set.
pub uninterp spec fn group_entries(m: IndexMap<String, IndexSet<String>>) -> Seq<(Seq<char>, Seq<Seq<char>>)>;

/// The position of the entry for `key`, if there is one.
pub open spec fn key_position<V>(entries: Seq<(Seq<char>, V)>, key: Seq<char>) -> Option<int>
    decreases entries.len(),
{
    if entries.len() == 0 {
        None
    } else {
        match key_position(entries.drop_last(), key) {
            Some(i) => Some(i),
            None => if entries.last().0 == key {
                Some(entries.len() - 1)
            } else {
                None
            },
        }
    }
}

/// The entries after putting `value` under `key`: an entry for the key keeps
/// its place and takes the new value; otherwise a new entry goes last.
pub open spec fn put<V>(entries: Seq<(Seq<char>, V)>, key: Seq<char>, value: V) -> Seq<(Seq<char>, V)> {
    match key_position(entries, key) {
        Some(i) => entries.update(i, (key, value)),
        None => entries.push((key, value)),
    }
}

/// The entries after putting each of `items` in turn.
pub open spec fn put_all<V>(start: Seq<(Seq<char>, V)>, items: Seq<(Seq<char>, V)>) -> Seq<(Seq<char>, V)>
    decreases items.len(),
{
    if items.len() == 0 {
        start
    } else {
        let before = put_all(start, items.drop_last());
        put(before, items.last().0, items.last().1)
    }
}

/// No name has two entries.
pub open spec fn keys_unique<V>(entries: Seq<(Seq<char>, V)>) -> bool {
    forall|i: int, j: int| 0 <= i < j < entries.len() ==> entries[i].0 != entries[j].0
}

/// Entries in increasing order of their names.
pub open spec fn keys_sorted<V>(entries: Seq<(Seq<char>, V)>) -> bool {
    forall|i: int, j: int|
        0 <= i < j < entries.len() ==> seq_order(entries[i].0, entries[j].0) == Order::Less
}

/// `IndexMap::new`: an empty map.
#[verifier::external_body]
fn group_map_new() -> (r: IndexMap<String, IndexSet<String>>)
    ensures
        group_entries(r) == Seq::<(Seq<char>, Seq<Seq<char>>)>::empty(),
{
    IndexMap::new()
}

/// `IndexMap::insert`: an entry for an equal key keeps its place and takes the
/// new value, and the old value is handed back; otherwise the pair is added
/// last and nothing is handed back.
#[verifier::external_body]
fn group_map_insert(
    m: &mut IndexMap<String, IndexSet<String>>,
    key: String,
    value: IndexSet<String>,
) -> (r: Option<IndexSet<String>>)
    ensures
        group_entries(*final(m)) == put(group_entries(*old(m)), key@, set_items(value)),
        r is Some <==> key_position(group_entries(*old(m)), key@) is Some,
        r matches Some(v) ==> set_items(v) == group_entries(*old(m))[key_position(
            group_entries(*old(m)),
            key@,
        ).unwrap()].1,
{
    m.insert(key, value)
}

/// `IndexMap::sort_keys`: the same entries, ordered by their names, which
/// strings order character by character.
#[verifier::external_body]
fn group_map_sort_keys(m: &mut IndexMap<String, IndexSet<String>>)
    ensures
        group_entries(*final(m)).to_multiset() == group_entries(*old(m)).to_multiset(),
        keys_unique(group_entries(*old(m))) ==> keys_sorted(group_entries(*final(m))),
{
    m.sort_keys()
}

/// `IndexMap::len`: the number of entries.
#[verifier::external_body]
fn group_map_len(m: &IndexMap<String, IndexSet<String>>) -> (r: usize)
    ensures
        r == group_entries(*m).len(),
{
    m.len()
}

/// `IndexMap::get_index`: the entry at a position, when there is one.
#[verifier::external_body]
fn group_map_get(m: &IndexMap<String, IndexSet<String>>, index: usize) -> (r: Option<(String, IndexSet<String>)>)
    ensures
        index < group_entries(*m).len() ==> r is Some && r->Some_0.0@ == group_entries(*m)[index as int].0,
        index < group_entries(*m).len() ==> r is Some && set_items(r->Some_0.1) == group_entries(*m)[index as int].1,
        index >= group_entries(*m).len() ==> r is None,
{
    m.get_index(index).map(|(k, v)| (k.clone(), v.clone()))
}

/// `IndexSet::clone`: a set with the same values in the same order.
#[verifier::external_body]
pub(crate) fn set_copy(s: &IndexSet<String>) -> (r: IndexSet<String>)
    ensures
        set_items(r) == set_items(*s),
{
    s.clone()
}

/// The named sets of a list of lists, one list after another.
pub open spec fn group_items(lists: Seq<Vec<(String, IndexSet<String>)>>) -> Seq<
    (Seq<char>, Seq<Seq<char>>),
>
    decreases lists.len(),
{
    if lists.len() == 0 {
        Seq::empty()
    } else {
        group_items(lists.drop_last()) + lists.last()@.map_values(
            |e: (String, IndexSet<String>)| (e.0@, set_items(e.1)),
        )
    }
}

/// Putting entries keeps names unique.
pub(crate) proof fn lemma_put_unique<V>(entries: Seq<(Seq<char>, V)>, key: Seq<char>, value: V)
    requires
        keys_unique(entries),
    ensures
        keys_unique(put(entries, key, value)),
{
    lemma_key_position(entries, key);
    let r = put(entries, key, value);
    match key_position(entries, key) {
        Some(p) => {
            assert forall|i: int, j: int| 0 <= i < j < r.len() implies r[i].0 != r[j].0 by {
                if i != p && j != p {
                    assert(r[i] == entries[i] && r[j] == entries[j]);
                } else if i == p {
                    assert(r[j] == entries[j]);
                    assert(entries[i].0 == key);
                } else {
                    assert(r[i] == entries[i]);
                    assert(entries[j].0 == key);
                }
            }
        },
        None => {
            assert forall|i: int, j: int| 0 <= i < j < r.len() implies r[i].0 != r[j].0 by {
                if j < entries.len() {
                    assert(r[i] == entries[i] && r[j] == entries[j]);
                } else {
                    assert(r[i] == entries[i]);
                    assert(r[j].0 == key);
                }
            }
        },
    }
}

/// Where the entry for a key is, and that no entry for it is elsewhere.
proof fn lemma_key_position<V>(entries: Seq<(Seq<char>, V)>, key: Seq<char>)
    ensures
        key_position(entries, key) matches Some(p) ==> 0 <= p < entries.len() && entries[p].0
            == key && forall|i: int| 0 <= i < p ==> #[trigger] entries[i].0 != key,
        key_position(entries, key) is None ==> forall|i: int|
            0 <= i < entries.len() ==> #[trigger] entries[i].0 != key,
    decreases entries.len(),
{
    if entries.len() > 0 {
        let init = entries.drop_last();
        lemma_key_position(init, key);
        match key_position(init, key) {
            Some(p) => {
                assert forall|i: int| 0 <= i < p implies #[trigger] entries[i].0 != key by {
                    assert(init[i] == entries[i]);
                }
                assert(init[p] == entries[p]);
            },
            None => {
                assert forall|i: int| 0 <= i < init.len() implies #[trigger] entries[i].0 != key by {
                    assert(init[i] == entries[i]);
                }
            },
        }
    }
}

/// The key position is the only one with that key, given each key once; and
/// a key position is a function of the keys alone.
proof fn lemma_key_position_same_keys<V>(a: Seq<(Seq<char>, V)>, b: Seq<(Seq<char>, V)>, key: Seq<char>)
    requires
        a.len() == b.len(),
        forall|i: int| 0 <= i < a.len() ==> (a[i].0 == key) == (#[trigger] b[i].0 == key),
    ensures
        key_position(a, key) == key_position(b, key),
    decreases a.len(),
{
    if a.len() > 0 {
        assert forall|i: int| 0 <= i < a.len() - 1 implies (a.drop_last()[i].0 == key) == (
        #[trigger] b.drop_last()[i].0 == key) by {
            assert(a.drop_last()[i] == a[i] && b.drop_last()[i] == b[i]);
            assert((a[i].0 == key) == (b[i].0 == key));
        }
        lemma_key_position_same_keys(a.drop_last(), b.drop_last(), key);
        assert((a[a.len() - 1].0 == key) == (b[b.len() - 1].0 == key));
    }
}

/// The value filed under a key, if any.
pub open spec fn value_of<V>(entries: Seq<(Seq<char>, V)>, key: Seq<char>) -> Option<V> {
    match key_position(entries, key) {
        Some(p) => Some(entries[p].1),
        None => None,
    }
}

/// The value of the last item with a given key, if any.
pub open spec fn last_value<V>(items: Seq<(Seq<char>, V)>, key: Seq<char>) -> Option<V>
    decreases items.len(),
{
    if items.len() == 0 {
        None
    } else if items.last().0 == key {
        Some(items.last().1)
    } else {
        last_value(items.drop_last(), key)
    }
}

/// Putting a value under `k` files it there and leaves every other key's
/// value as it was.
pub(crate) proof fn lemma_put_value<V>(entries: Seq<(Seq<char>, V)>, k: Seq<char>, v: V, key: Seq<char>)
    ensures
        value_of(put(entries, k, v), key) == if k == key {
            Some(v)
        } else {
            value_of(entries, key)
        },
{
    let r = put(entries, k, v);
    lemma_key_position(entries, k);
    lemma_key_position(entries, key);
    lemma_key_position(r, key);
    match key_position(entries, k) {
        Some(p) => {
            if k == key {
                assert(r[p] == (k, v));
                assert forall|i: int| 0 <= i < p implies #[trigger] r[i].0 != key by {
                    assert(r[i] == entries[i]);
                }
                match key_position(r, key) {
                    Some(q) => {
                        if q < p {
                            assert(r[q].0 != key);
                        }
                        if q > p {
                            assert(r[p].0 == key);
                        }
                    },
                    None => {
                        assert(r[p].0 != key);
                    },
                }
            } else {
                lemma_key_position_same_keys(entries, r, key);
                if let Some(q) = key_position(entries, key) {
                    assert(q != p);
                    assert(r[q] == entries[q]);
                }
            }
        },
        None => {
            let n = entries.len() as int;
            assert(r.drop_last() =~= entries);
            if k == key {
                assert(r.last() == (k, v));
            } else {
                assert(r.last().0 != key);
                if let Some(q) = key_position(entries, key) {
                    assert(r[q] == entries[q]);
                }
            }
        },
    }
}

/// Merge the named sets that the trees of a repo's inheritance define, a
/// later definition of a name replacing an earlier one in place, and sort the
/// result by name.
pub fn merged_groups(lists: &Vec<Vec<(String, IndexSet<String>)>>) -> (r: IndexMap<String, IndexSet<String>>)
    ensures
        group_entries(r).to_multiset() == put_all(Seq::empty(), group_items(lists@)).to_multiset(),
        keys_sorted(group_entries(r)),
{
    let mut m = group_map_new();
    let mut t: usize = 0;
    while t < lists.len()
        invariant
            t <= lists@.len(),
            group_entries(m) == put_all(Seq::empty(), group_items(lists@.take(t as int))),
            keys_unique(group_entries(m)),
        decreases lists@.len() - t,
    {
        let list = &lists[t];
        let ghost done = group_items(lists@.take(t as int));
        let ghost here = list@.map_values(|e: (String, IndexSet<String>)| (e.0@, set_items(e.1)));
        let mut i: usize = 0;
        while i < list.len()
            invariant
                t < lists@.len(),
                list == &lists@[t as int],
                i <= list@.len(),
                here == list@.map_values(|e: (String, IndexSet<String>)| (e.0@, set_items(e.1))),
                group_entries(m) == put_all(Seq::empty(), done + here.take(i as int)),
                keys_unique(group_entries(m)),
            decreases list@.len() - i,
        {
            let ghost before = group_entries(m);
            let value = set_copy(&list[i].1);
            let _ = group_map_insert(&mut m, list[i].0.clone(), value);
            proof {
                lemma_put_unique(before, list@[i as int].0@, set_items(list@[i as int].1));
                let items = done + here.take(i + 1);
                assert(items.drop_last() =~= done + here.take(i as int));
                assert(items.last() == here[i as int]);
            }
            i = i + 1;
        }
        proof {
            let n = lists@.take(t + 1);
            assert(n.drop_last() =~= lists@.take(t as int));
            assert(here.take(list@.len() as int) =~= here);
        }
        t = t + 1;
    }
    assert(lists@.take(lists@.len() as int) =~= lists@);
    group_map_sort_keys(&mut m);
    m
}

/// The entries of a map as a list of names and their sets' values, in order.
pub fn group_values(m: &IndexMap<String, IndexSet<String>>) -> (r: Vec<(String, Vec<String>)>)
    ensures
        r@.len() == group_entries(*m).len(),
        forall|i: int|
            0 <= i < r@.len() ==> (#[trigger] r@[i]).0@ == group_entries(*m)[i].0
                && crate::chars::views(r@[i].1@) == group_entries(*m)[i].1,
{
    let n = group_map_len(m);
    let mut out: Vec<(String, Vec<String>)> = Vec::new();
    let mut i: usize = 0;
    while i < n
        invariant
            i <= n,
            n == group_entries(*m).len(),
            out@.len() == i,
            forall|j: int|
                0 <= j < i ==> (#[trigger] out@[j]).0@ == group_entries(*m)[j].0
                    && crate::chars::views(out@[j].1@) == group_entries(*m)[j].1,
        decreases n - i,
    {
        match group_map_get(m, i) {
            Some((k, v)) => {
                let values = crate::ordered_set::set_values(&v);
                out.push((k, values));
            },
            None => {
                assert(false);
            },
        }
        i = i + 1;
    }
    out
}

// ---------------------------------------------------------------------------
// maps from names to flag descriptions

/// The entries of a map from flags to their descriptions, in order.
pub uninterp spec fn flag_entries(m: IndexMap<String, String>) -> Seq<(Seq<char>, Seq<char>)>;

/// The entries of a map from names to flag maps, in order: each name with the
/// entries of its flag map.
pub uninterp spec fn expand_entries(m: IndexMap<String, IndexMap<String, String>>) -> Seq<(Seq<char>, Seq<(Seq<char>, Seq<char>)>)>;

/// `IndexMap::new`: an empty map.
#[verifier::external_body]
fn expand_map_new() -> (r: IndexMap<String, IndexMap<String, String>>)
    ensures
        expand_entries(r) == Seq::<(Seq<char>, Seq<(Seq<char>, Seq<char>)>)>::empty(),
{
    IndexMap::new()
}

/// `IndexMap::insert`: an entry for an equal key keeps its place and takes the
/// new value, and the old value is handed back; otherwise the pair is added
/// last and nothing is handed back.
#[verifier::external_body]
fn expand_map_insert(
    m: &mut IndexMap<String, IndexMap<String, String>>,
    key: String,
    value: IndexMap<String, String>,
) -> (r: Option<IndexMap<String, String>>)
    ensures
        expand_entries(*final(m)) == put(expand_entries(*old(m)), key@, flag_entries(value)),
        r is Some <==> key_position(expand_entries(*old(m)), key@) is Some,
        r is Some ==> flag_entries(r->Some_0) == expand_entries(*old(m))[key_position(
            expand_entries(*old(m)),
            key@,
        ).unwrap()].1,
{
    m.insert(key, value)
}

/// `IndexMap::sort_keys`: the same entries, ordered by their names, which
/// strings order character by character.
#[verifier::external_body]
fn expand_map_sort_keys(m: &mut IndexMap<String, IndexMap<String, String>>)
    ensures
        expand_entries(*final(m)).to_multiset() == expand_entries(*old(m)).to_multiset(),
        keys_unique(expand_entries(*old(m))) ==> keys_sorted(expand_entries(*final(m))),
{
    m.sort_keys()
}

/// `IndexMap::len`: the number of entries.
#[verifier::external_body]
fn expand_map_len(m: &IndexMap<String, IndexMap<String, String>>) -> (r: usize)
    ensures
        r == expand_entries(*m).len(),
{
    m.len()
}

/// `IndexMap::get_index`: the entry at a position, when there is one.
#[verifier::external_body]
fn expand_map_get(m: &IndexMap<String, IndexMap<String, String>>, index: usize) -> (r: Option<(String, IndexMap<String, String>)>)
    ensures
        index < expand_entries(*m).len() ==> r is Some && r->Some_0.0@ == expand_entries(*m)[index as int].0,
        index < expand_entries(*m).len() ==> r is Some && flag_entries(r->Some_0.1) == expand_entries(*m)[index as int].1,
        index >= expand_entries(*m).len() ==> r is None,
{
    m.get_index(index).map(|(k, v)| (k.clone(), v.clone()))
}

/// `IndexMap::clone`: a map with the same entries in the same order.
#[verifier::external_body]
fn flags_copy(m: &IndexMap<String, String>) -> (r: IndexMap<String, String>)
    ensures
        flag_entries(r) == flag_entries(*m),
{
    m.clone()
}

/// `IndexMap::len`: the number of entries.
#[verifier::external_body]
fn flags_len(m: &IndexMap<String, String>) -> (r: usize)
    ensures
        r == flag_entries(*m).len(),
{
    m.len()
}

/// `IndexMap::get_index`: the entry at a position, when there is one.
#[verifier::external_body]
fn flags_get(m: &IndexMap<String, String>, index: usize) -> (r: Option<(String, String)>)
    ensures
        index < flag_entries(*m).len() ==> r is Some && r->Some_0.0@ == flag_entries(*m)[index as int].0,
        index < flag_entries(*m).len() ==> r is Some && r->Some_0.1@ == flag_entries(*m)[index as int].1,
        index >= flag_entries(*m).len() ==> r is None,
{
    m.get_index(index).map(|(k, v)| (k.clone(), v.clone()))
}

/// `IndexMap::new`: an empty map.
#[verifier::external_body]
fn flags_new() -> (r: IndexMap<String, String>)
    ensures
        flag_entries(r) == Seq::<(Seq<char>, Seq<char>)>::empty(),
{
    IndexMap::new()
}

/// `IndexMap::insert`: an entry for an equal key keeps its place and takes the
/// new value; otherwise the pair is added last.
#[verifier::external_body]
fn flags_insert(m: &mut IndexMap<String, String>, key: String, value: String)
    ensures
        flag_entries(*final(m)) == put(flag_entries(*old(m)), key@, value@),
{
    m.insert(key, value);
}

/// `IndexMap::sort_keys`: the same entries, ordered by their keys, which
/// strings order character by character.
#[verifier::external_body]
fn flags_sort_keys(m: &mut IndexMap<String, String>)
    ensures
        flag_entries(*final(m)).to_multiset() == flag_entries(*old(m)).to_multiset(),
        keys_unique(flag_entries(*old(m))) ==> keys_sorted(flag_entries(*final(m))),
{
    m.sort_keys()
}

/// The named paths of a list of lists, one list after another.
pub open spec fn pair_items(lists: Seq<Vec<(String, String)>>) -> Seq<(Seq<char>, Seq<char>)>
    decreases lists.len(),
{
    if lists.len() == 0 {
        Seq::empty()
    } else {
        pair_items(lists.drop_last()) + lists.last()@.map_values(|e: (String, String)| (e.0@, e.1@))
    }
}

/// Merge the eclasses (name and path) of the trees of a repo's inheritance,
/// given in inheritance order (its masters first, the repo itself last): an
/// eclass of a later tree replaces one of the same name from an earlier tree,
/// so the repo's own eclasses win over its masters'. The result is sorted by
/// name.
pub fn merged_eclasses(trees: &Vec<Vec<(String, String)>>) -> (r: IndexMap<String, String>)
    ensures
        flag_entries(r).to_multiset() == put_all(Seq::empty(), pair_items(trees@)).to_multiset(),
        keys_sorted(flag_entries(r)),
{
    let mut m = flags_new();
    let mut t: usize = 0;
    while t < trees.len()
        invariant
            t <= trees@.len(),
            flag_entries(m) == put_all(Seq::empty(), pair_items(trees@.take(t as int))),
            keys_unique(flag_entries(m)),
        decreases trees@.len() - t,
    {
        let list = &trees[t];
        let ghost done = pair_items(trees@.take(t as int));
        let ghost here = list@.map_values(|e: (String, String)| (e.0@, e.1@));
        let mut i: usize = 0;
        while i < list.len()
            invariant
                t < trees@.len(),
                list == &trees@[t as int],
                i <= list@.len(),
                here == list@.map_values(|e: (String, String)| (e.0@, e.1@)),
                flag_entries(m) == put_all(Seq::empty(), done + here.take(i as int)),
                keys_unique(flag_entries(m)),
            decreases list@.len() - i,
        {
            let ghost before = flag_entries(m);
            flags_insert(&mut m, list[i].0.clone(), list[i].1.clone());
            proof {
                lemma_put_unique(before, list@[i as int].0@, list@[i as int].1@);
                let items = done + here.take(i + 1);
                assert(items.drop_last() =~= done + here.take(i as int));
                assert(items.last() == here[i as int]);
            }
            i = i + 1;
        }
        proof {
            let n = trees@.take(t + 1);
            assert(n.drop_last() =~= trees@.take(t as int));
            assert(here.take(list@.len() as int) =~= here);
        }
        t = t + 1;
    }
    assert(trees@.take(trees@.len() as int) =~= trees@);
    flags_sort_keys(&mut m);
    m
}

/// The named flag maps of a list of lists, one list after another.
pub open spec fn expand_items(lists: Seq<Vec<(String, IndexMap<String, String>)>>) -> Seq<
    (Seq<char>, Seq<(Seq<char>, Seq<char>)>),
>
    decreases lists.len(),
{
    if lists.len() == 0 {
        Seq::empty()
    } else {
        expand_items(lists.drop_last()) + lists.last()@.map_values(
            |e: (String, IndexMap<String, String>)| (e.0@, flag_entries(e.1)),
        )
    }
}

/// Merge the USE_EXPAND flag maps that the trees of a repo's inheritance
/// define, a later definition of a name replacing an earlier one in place,
/// and sort the result by name.
pub fn merged_use_expand(lists: &Vec<Vec<(String, IndexMap<String, String>)>>) -> (r: IndexMap<String, IndexMap<String, String>>)
    ensures
        expand_entries(r).to_multiset() == put_all(Seq::empty(), expand_items(lists@)).to_multiset(),
        keys_sorted(expand_entries(r)),
{
    let mut m = expand_map_new();
    let mut t: usize = 0;
    while t < lists.len()
        invariant
            t <= lists@.len(),
            expand_entries(m) == put_all(Seq::empty(), expand_items(lists@.take(t as int))),
            keys_unique(expand_entries(m)),
        decreases lists@.len() - t,
    {
        let list = &lists[t];
        let ghost done = expand_items(lists@.take(t as int));
        let ghost here = list@.map_values(
            |e: (String, IndexMap<String, String>)| (e.0@, flag_entries(e.1)),
        );
        let mut i: usize = 0;
        while i < list.len()
            invariant
                t < lists@.len(),
                list == &lists@[t as int],
                i <= list@.len(),
                here == list@.map_values(
                    |e: (String, IndexMap<String, String>)| (e.0@, flag_entries(e.1)),
                ),
                expand_entries(m) == put_all(Seq::empty(), done + here.take(i as int)),
                keys_unique(expand_entries(m)),
            decreases list@.len() - i,
        {
            let ghost before = expand_entries(m);
            let value = flags_copy(&list[i].1);
            let _ = expand_map_insert(&mut m, list[i].0.clone(), value);
            proof {
                lemma_put_unique(before, list@[i as int].0@, flag_entries(list@[i as int].1));
                let items = done + here.take(i + 1);
                assert(items.drop_last() =~= done + here.take(i as int));
                assert(items.last() == here[i as int]);
            }
            i = i + 1;
        }
        proof {
            let n = lists@.take(t + 1);
            assert(n.drop_last() =~= lists@.take(t as int));
            assert(here.take(list@.len() as int) =~= here);
        }
        t = t + 1;
    }
    assert(lists@.take(lists@.len() as int) =~= lists@);
    expand_map_sort_keys(&mut m);
    m
}

/// The entries of a flag map as a list of flags and descriptions, in order.
pub fn flag_values(m: &IndexMap<String, String>) -> (r: Vec<(String, String)>)
    ensures
        r@.len() == flag_entries(*m).len(),
        forall|i: int|
            0 <= i < r@.len() ==> (#[trigger] r@[i]).0@ == flag_entries(*m)[i].0 && r@[i].1@
                == flag_entries(*m)[i].1,
{
    let n = flags_len(m);
    let mut out: Vec<(String, String)> = Vec::new();
    let mut i: usize = 0;
    while i < n
        invariant
            i <= n,
            n == flag_entries(*m).len(),
            out@.len() == i,
            forall|j: int|
                0 <= j < i ==> (#[trigger] out@[j]).0@ == flag_entries(*m)[j].0 && out@[j].1@
                    == flag_entries(*m)[j].1,
        decreases n - i,
    {
        match flags_get(m, i) {
            Some(entry) => {
                out.push(entry);
            },
            None => {
                assert(false);
            },
        }
        i = i + 1;
    }
    out
}

/// The entries of a merged USE_EXPAND map as names with their flags and
/// descriptions, in order.
pub fn use_expand_values(m: &IndexMap<String, IndexMap<String, String>>) -> (r: Vec<(String, Vec<(String, String)>)>)
    ensures
        r@.len() == expand_entries(*m).len(),
        forall|i: int|
            0 <= i < r@.len() ==> (#[trigger] r@[i]).0@ == expand_entries(*m)[i].0 && r@[i].1@.len()
                == expand_entries(*m)[i].1.len() && forall|j: int|
                0 <= j < r@[i].1@.len() ==> (#[trigger] r@[i].1@[j]).0@ == expand_entries(*m)[i].1[j].0
                    && r@[i].1@[j].1@ == expand_entries(*m)[i].1[j].1,
{
    let n = expand_map_len(m);
    let mut out: Vec<(String, Vec<(String, String)>)> = Vec::new();
    let mut i: usize = 0;
    while i < n
        invariant
            i <= n,
            n == expand_entries(*m).len(),
            out@.len() == i,
            forall|k: int|
                0 <= k < i ==> (#[trigger] out@[k]).0@ == expand_entries(*m)[k].0 && out@[k].1@.len()
                    == expand_entries(*m)[k].1.len() && forall|j: int|
                    0 <= j < out@[k].1@.len() ==> (#[trigger] out@[k].1@[j]).0@ == expand_entries(
                        *m,
                    )[k].1[j].0 && out@[k].1@[j].1@ == expand_entries(*m)[k].1[j].1,
        decreases n - i,
    {
        match expand_map_get(m, i) {
            Some((k, v)) => {
                let flags = flag_values(&v);
                out.push((k, flags));
            },
            None => {
                assert(false);
            },
        }
        i = i + 1;
    }
    out
}

/// Merging named sets files under each name the set of the last item that
/// defines it, and nothing under a name that no item defines: a later
/// definition replaces every earlier one.
pub proof fn lemma_last_definition_wins<V>(items: Seq<(Seq<char>, V)>, key: Seq<char>)
    ensures
        value_of(put_all(Seq::empty(), items), key) == last_value(items, key),
    decreases items.len(),
{
    if items.len() > 0 {
        let init = items.drop_last();
        lemma_last_definition_wins(init, key);
        lemma_put_value(put_all(Seq::empty(), init), items.last().0, items.last().1, key);
    }
}

} // verus!
