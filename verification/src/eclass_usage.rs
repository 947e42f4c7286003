//! Which packages of a repo inherit which eclasses: the packages grouped by
//! eclass, the eclasses ordered by how many packages use them, and the
//! packages using one eclass in package order.

use vstd::prelude::*;
use indexmap::{IndexMap, IndexSet};
use crate::chars::views;
use crate::cpv::Cpv;
use crate::order::Order;
use crate::ordered_map::{key_position, put, value_of, keys_unique, lemma_put_value, lemma_put_unique};
use crate::ordered_set::{set_contains, set_items};
use crate::pk::{cpv_order, compare_cpvs};
use crate::repo::{cpv_view, cpv_views, lemma_cpv_order_flip};
use crate::version::version_wf;

verus! {

/// The entries of a map from eclass names to the positions of the packages
/// that inherit them, in order.
pub uninterp spec fn user_entries(m: IndexMap<String, Vec<usize>>) -> Seq<(Seq<char>, Seq<usize>)>;

/// Entries ordered by how many packages each lists, fewest first.
pub open spec fn counts_sorted(entries: Seq<(Seq<char>, Seq<usize>)>) -> bool {
    forall|i: int, j: int| 0 <= i < j < entries.len() ==> entries[i].1.len() <= entries[j].1.len()
}

/// Entries listing the same number of packages keep the order they had in
/// `before`.
pub open spec fn ties_kept(
    before: Seq<(Seq<char>, Seq<usize>)>,
    after: Seq<(Seq<char>, Seq<usize>)>,
) -> bool {
    forall|i: int, j: int|
        0 <= i < j < after.len() && after[i].1.len() == after[j].1.len() ==> key_position(
            before,
            after[i].0,
        ).unwrap() < key_position(before, after[j].0).unwrap()
}

/// `IndexMap::new`: an empty map.
#[verifier::external_body]
fn users_new() -> (r: IndexMap<String, Vec<usize>>)
    ensures
        user_entries(r) == Seq::<(Seq<char>, Seq<usize>)>::empty(),
{
    IndexMap::new()
}

/// `IndexMap::get`, copying the value found: the value filed under a key, if
/// any.
#[verifier::external_body]
fn users_get(m: &IndexMap<String, Vec<usize>>, key: &str) -> (r: Option<Vec<usize>>)
    ensures
        r matches Some(v) ==> value_of(user_entries(*m), key@) == Some(v@),
        r is None ==> value_of(user_entries(*m), key@) is None,
{
    m.get(key).cloned()
}

/// `IndexMap::insert`: an entry for an equal key keeps its place and takes the
/// new value; otherwise the pair is added last.
#[verifier::external_body]
fn users_insert(m: &mut IndexMap<String, Vec<usize>>, key: String, value: Vec<usize>)
    ensures
        user_entries(*final(m)) == put(user_entries(*old(m)), key@, value@),
{
    m.insert(key, value);
}

/// `IndexMap::sort_by`, a stable sort, ordering entries by how many packages
/// they list: the same entries, fewest packages first, entries listing as
/// many keeping their order.
#[verifier::external_body]
fn users_sort_by_count(m: &mut IndexMap<String, Vec<usize>>)
    ensures
        user_entries(*final(m)).to_multiset() == user_entries(*old(m)).to_multiset(),
        counts_sorted(user_entries(*final(m))),
        keys_unique(user_entries(*old(m))) ==> ties_kept(user_entries(*old(m)), user_entries(*final(m))),
{
    m.sort_by(|_, a, _, b| by_package_count(a, b));
}

/// `IndexMap::len`: the number of entries.
#[verifier::external_body]
fn users_len(m: &IndexMap<String, Vec<usize>>) -> (r: usize)
    ensures
        r == user_entries(*m).len(),
{
    m.len()
}

/// `IndexMap::get_index`: the entry at a position, when there is one.
#[verifier::external_body]
fn users_get_index(m: &IndexMap<String, Vec<usize>>, index: usize) -> (r: Option<(String, usize)>)
    ensures
        index < user_entries(*m).len() ==> r is Some && r->Some_0.0@ == user_entries(*m)[index as int].0,
        index < user_entries(*m).len() ==> r is Some && r->Some_0.1 == user_entries(*m)[index as int].1.len(),
        index >= user_entries(*m).len() ==> r is None,
{
    m.get_index(index).map(|(k, v)| (k.clone(), v.len()))
}

/// Orders lists of packages by their length.
fn by_package_count(a: &Vec<usize>, b: &Vec<usize>) -> (r: std::cmp::Ordering)
    ensures
        r == (if a@.len() < b@.len() {
            std::cmp::Ordering::Less
        } else if a@.len() == b@.len() {
            std::cmp::Ordering::Equal
        } else {
            std::cmp::Ordering::Greater
        }),
{
    if a.len() < b.len() {
        std::cmp::Ordering::Less
    } else if a.len() == b.len() {
        std::cmp::Ordering::Equal
    } else {
        std::cmp::Ordering::Greater
    }
}

/// The eclass names each package inherits.
pub open spec fn inherited_names(pkgs: Seq<(Cpv, Vec<String>)>) -> Seq<Seq<Seq<char>>> {
    pkgs.map_values(|p: (Cpv, Vec<String>)| views(p.1@))
}

/// The entries after package `p` records that it inherits each of `names`:
/// its position is added to the list of each name, a new name going last.
pub open spec fn record(entries: Seq<(Seq<char>, Seq<usize>)>, names: Seq<Seq<char>>, p: usize) -> Seq<
    (Seq<char>, Seq<usize>),
>
    decreases names.len(),
{
    if names.len() == 0 {
        entries
    } else {
        let e = record(entries, names.drop_last(), p);
        let k = names.last();
        put(
            e,
            k,
            match value_of(e, k) {
                Some(v) => v.push(p),
                None => seq![p],
            },
        )
    }
}

/// The entries after each package, in order, records what it inherits.
pub open spec fn record_all(lists: Seq<Seq<Seq<char>>>) -> Seq<(Seq<char>, Seq<usize>)>
    decreases lists.len(),
{
    if lists.len() == 0 {
        Seq::empty()
    } else {
        record(record_all(lists.drop_last()), lists.last(), (lists.len() - 1) as usize)
    }
}

/// How often a name occurs in a list.
pub open spec fn occurrences(names: Seq<Seq<char>>, name: Seq<char>) -> nat
    decreases names.len(),
{
    if names.len() == 0 {
        0
    } else {
        occurrences(names.drop_last(), name) + if names.last() == name {
            1nat
        } else {
            0nat
        }
    }
}

/// `p` repeated `n` times.
pub open spec fn repeat(p: usize, n: nat) -> Seq<usize> {
    Seq::new(n, |i: int| p)
}

/// The positions of the packages that inherit `name`, in order, a position
/// repeated as often as its package lists the name.
pub open spec fn uses_of(lists: Seq<Seq<Seq<char>>>, name: Seq<char>) -> Seq<usize>
    decreases lists.len(),
{
    if lists.len() == 0 {
        Seq::empty()
    } else {
        uses_of(lists.drop_last(), name) + repeat(
            (lists.len() - 1) as usize,
            occurrences(lists.last(), name),
        )
    }
}

/// A list extended by `n` copies of `p`, where a missing list counts as
/// empty and stays missing if nothing is added.
pub open spec fn extend(v: Option<Seq<usize>>, p: usize, n: nat) -> Option<Seq<usize>> {
    match v {
        Some(s) => Some(s + repeat(p, n)),
        None => if n == 0 {
            None
        } else {
            Some(repeat(p, n))
        },
    }
}

proof fn lemma_record(entries: Seq<(Seq<char>, Seq<usize>)>, names: Seq<Seq<char>>, p: usize, name: Seq<char>)
    ensures
        value_of(record(entries, names, p), name) == extend(value_of(entries, name), p, occurrences(names, name)),
        keys_unique(entries) ==> keys_unique(record(entries, names, p)),
    decreases names.len(),
{
    if names.len() > 0 {
        let init = names.drop_last();
        let e = record(entries, init, p);
        let k = names.last();
        lemma_record(entries, init, p, name);
        lemma_record(entries, init, p, k);
        let nv = match value_of(e, k) {
            Some(v) => v.push(p),
            None => seq![p],
        };
        lemma_put_value(e, k, nv, name);
        if keys_unique(entries) {
            lemma_put_unique(e, k, nv);
        }
        let n = occurrences(init, name);
        if k == name {
            match value_of(entries, name) {
                Some(s) => {
                    assert((s + repeat(p, n)).push(p) =~= s + repeat(p, n + 1));
                },
                None => {
                    if n == 0 {
                        assert(seq![p] =~= repeat(p, 1));
                    } else {
                        assert(repeat(p, n).push(p) =~= repeat(p, n + 1));
                    }
                },
            }
        } else {
            if let Some(s) = value_of(entries, name) {
                assert(s + repeat(p, n) =~= s + repeat(p, n + 0));
            }
        }
    }
}

/// Grouping packages by eclass lists, under each eclass, the positions of
/// exactly the packages that inherit it, in package order; eclasses no
/// package inherits get no entry.
pub proof fn lemma_users_of_eclass(lists: Seq<Seq<Seq<char>>>, name: Seq<char>)
    requires
        lists.len() <= usize::MAX + 1,
    ensures
        value_of(record_all(lists), name) == if uses_of(lists, name).len() > 0 {
            Some(uses_of(lists, name))
        } else {
            None
        },
    decreases lists.len(),
{
    if lists.len() > 0 {
        let init = lists.drop_last();
        let p = (lists.len() - 1) as usize;
        lemma_users_of_eclass(init, name);
        lemma_record(record_all(init), lists.last(), p, name);
        let n = occurrences(lists.last(), name);
        let u = uses_of(init, name);
        if u.len() == 0 {
            assert(u + repeat(p, n) =~= repeat(p, n));
        }
    }
}

/// The positions listed are positions of packages.
proof fn lemma_uses_bounds(lists: Seq<Seq<Seq<char>>>, name: Seq<char>)
    requires
        lists.len() <= usize::MAX + 1,
    ensures
        forall|k: int| 0 <= k < uses_of(lists, name).len() ==> #[trigger] uses_of(lists, name)[k] < lists.len(),
    decreases lists.len(),
{
    if lists.len() > 0 {
        let init = lists.drop_last();
        lemma_uses_bounds(init, name);
        let u = uses_of(init, name);
        let rep = repeat((lists.len() - 1) as usize, occurrences(lists.last(), name));
        assert forall|k: int| 0 <= k < uses_of(lists, name).len() implies #[trigger] uses_of(lists, name)[k]
            < lists.len() by {
            if k < u.len() {
                assert(uses_of(lists, name)[k] == u[k]);
            } else {
                assert(uses_of(lists, name)[k] == rep[k - u.len()]);
            }
        }
    }
}

/// Keys of the grouping stay unique.
proof fn lemma_record_all_unique(lists: Seq<Seq<Seq<char>>>)
    ensures
        keys_unique(record_all(lists)),
    decreases lists.len(),
{
    if lists.len() > 0 {
        lemma_record_all_unique(lists.drop_last());
        lemma_record(record_all(lists.drop_last()), lists.last(), (lists.len() - 1) as usize, seq![]);
    }
}

/// Group packages by the eclasses they inherit: under each eclass, in the
/// order eclasses are first met, the positions of the packages inheriting it.
pub fn eclass_users(pkgs: &Vec<(Cpv, Vec<String>)>) -> (r: IndexMap<String, Vec<usize>>)
    ensures
        user_entries(r) == record_all(inherited_names(pkgs@)),
{
    let ghost lists = inherited_names(pkgs@);
    let mut m = users_new();
    let mut p: usize = 0;
    while p < pkgs.len()
        invariant
            p <= pkgs@.len(),
            lists == inherited_names(pkgs@),
            user_entries(m) == record_all(lists.take(p as int)),
        decreases pkgs@.len() - p,
    {
        let names = &pkgs[p].1;
        let ghost start = user_entries(m);
        let mut i: usize = 0;
        while i < names.len()
            invariant
                p < pkgs@.len(),
                names == &pkgs@[p as int].1,
                i <= names@.len(),
                user_entries(m) == record(start, views(names@).take(i as int), p),
            decreases names@.len() - i,
        {
            let ghost before = user_entries(m);
            let ghost k = names@[i as int]@;
            let ghost expected = match value_of(before, k) {
                Some(s) => s.push(p),
                None => seq![p],
            };
            let v = match users_get(&m, names[i].as_str()) {
                Some(v) => {
                    let mut v = v;
                    v.push(p);
                    v
                },
                None => {
                    let v = vec![p];
                    assert(v@ =~= seq![p]);
                    v
                },
            };
            assert(v@ == expected);
            users_insert(&mut m, names[i].clone(), v);
            proof {
                let t = views(names@).take(i + 1);
                assert(t.drop_last() =~= views(names@).take(i as int));
                assert(t.last() == k);
            }
            i = i + 1;
        }
        proof {
            let t = lists.take(p + 1);
            assert(t.drop_last() =~= lists.take(p as int));
            assert(t.last() == views(names@));
            assert(views(names@).take(names@.len() as int) =~= views(names@));
        }
        p = p + 1;
    }
    assert(lists.take(pkgs@.len() as int) =~= lists);
    m
}

/// The eclasses the packages inherit, ordered by how many packages use each,
/// fewest first; eclasses used as often stay in the order they were first
/// met.
pub fn eclass_usage(pkgs: &Vec<(Cpv, Vec<String>)>) -> (r: IndexMap<String, Vec<usize>>)
    ensures
        user_entries(r).to_multiset() == record_all(inherited_names(pkgs@)).to_multiset(),
        counts_sorted(user_entries(r)),
        ties_kept(record_all(inherited_names(pkgs@)), user_entries(r)),
{
    let mut m = eclass_users(pkgs);
    proof {
        lemma_record_all_unique(inherited_names(pkgs@));
    }
    users_sort_by_count(&mut m);
    m
}

/// Each eclass of a grouping with the number of packages listed under it.
pub fn usage_counts(m: &IndexMap<String, Vec<usize>>) -> (r: Vec<(String, usize)>)
    ensures
        r@.len() == user_entries(*m).len(),
        forall|i: int|
            0 <= i < r@.len() ==> (#[trigger] r@[i]).0@ == user_entries(*m)[i].0 && r@[i].1
                == user_entries(*m)[i].1.len(),
{
    let n = users_len(m);
    let mut out: Vec<(String, usize)> = Vec::new();
    let mut i: usize = 0;
    while i < n
        invariant
            i <= n,
            n == user_entries(*m).len(),
            out@.len() == i,
            forall|j: int|
                0 <= j < i ==> (#[trigger] out@[j]).0@ == user_entries(*m)[j].0 && out@[j].1
                    == user_entries(*m)[j].1.len(),
        decreases n - i,
    {
        match users_get_index(m, i) {
            Some(entry) => {
                out.push(entry);
            },
            None => {
                assert(false);
            },
        }
        i = i + 1;
    }
    out
}

/// Versioned package `a` does not sort after `b`.
#[verifier::opaque]
pub open spec fn cpv_le(
    a: (Seq<char>, Seq<char>, crate::version::VersionView),
    b: (Seq<char>, Seq<char>, crate::version::VersionView),
) -> bool {
    cpv_order(a, b) != Order::Greater
}

/// Versioned packages in order, equal ones side by side.
pub open spec fn cpvs_nondecreasing(v: Seq<(Seq<char>, Seq<char>, crate::version::VersionView)>) -> bool {
    forall|i: int| 0 <= i < v.len() - 1 ==> cpv_le(#[trigger] v[i], v[i + 1])
}

/// Every versioned package of a list has a well-formed version.
pub open spec fn cpvs_all_wf(v: Seq<Cpv>) -> bool {
    forall|i: int| 0 <= i < v.len() ==> version_wf(#[trigger] v[i].version@)
}

/// A copy of a versioned package.
fn cpv_copy(c: &Cpv) -> (r: Cpv)
    ensures
        cpv_view(r) == cpv_view(*c),
{
    Cpv { category: c.category.clone(), package: c.package.clone(), version: c.version.duplicate() }
}

/// Insert a versioned package after every one it does not sort before.
fn insert_in_order(out: &mut Vec<Cpv>, c: Cpv)
    requires
        cpvs_nondecreasing(cpv_views(old(out)@)),
        cpvs_all_wf(old(out)@),
        version_wf(c.version@),
    ensures
        cpvs_nondecreasing(cpv_views(final(out)@)),
        cpvs_all_wf(final(out)@),
        cpv_views(final(out)@).to_multiset() == cpv_views(old(out)@).to_multiset().insert(cpv_view(c)),
{
    let ghost before = cpv_views(out@);
    let ghost x = cpv_view(c);
    let mut j: usize = 0;
    while j < out.len()
        invariant
            j <= out@.len(),
            before == cpv_views(out@),
            x == cpv_view(c),
            cpvs_all_wf(out@),
            version_wf(c.version@),
            j > 0 ==> cpv_le(before[j - 1], x),
        ensures
            j <= out@.len(),
            j > 0 ==> cpv_le(before[j - 1], x),
            j < out@.len() ==> cpv_le(x, before[j as int]),
        decreases out@.len() - j,
    {
        assert(before[j as int] == cpv_view(out@[j as int]));
        let o = compare_cpvs(&c, &out[j]);
        if o == Order::Less {
            assert(cpv_le(x, before[j as int])) by {
                reveal(cpv_le);
            }
            break;
        }
        proof {
            lemma_cpv_order_flip(x, before[j as int]);
            reveal(cpv_le);
        }
        j = j + 1;
    }
    let ghost stop = j;
    out.insert(j, c);
    proof {
        assert(cpv_views(out@) =~= before.insert(stop as int, x));
        lemma_insert_in_order(before, stop as int, x);
        vstd::seq_lib::to_multiset_insert(before, stop as int, x);
        assert forall|i: int| 0 <= i < out@.len() implies version_wf(#[trigger] out@[i].version@) by {
            if i < stop {
                assert(out@[i] == old(out)@[i]);
            } else if i > stop {
                assert(out@[i] == old(out)@[i - 1]);
            }
        }
    }
}

/// Inserting a versioned package after all it does not sort before, and
/// before the first it sorts before, keeps a list in order.
proof fn lemma_insert_in_order(
    before: Seq<(Seq<char>, Seq<char>, crate::version::VersionView)>,
    stop: int,
    x: (Seq<char>, Seq<char>, crate::version::VersionView),
)
    requires
        0 <= stop <= before.len(),
        cpvs_nondecreasing(before),
        stop > 0 ==> cpv_le(before[stop - 1], x),
        stop < before.len() ==> cpv_le(x, before[stop]),
    ensures
        cpvs_nondecreasing(before.insert(stop, x)),
{
    let now = before.insert(stop, x);
    assert forall|i: int| 0 <= i < now.len() - 1 implies cpv_le(#[trigger] now[i], now[i + 1]) by {
        if i + 1 < stop {
            assert(now[i] == before[i] && now[i + 1] == before[i + 1]);
        } else if i + 1 == stop {
            assert(now[i] == before[i]);
        } else if i == stop {
            assert(now[i + 1] == before[i]);
        } else {
            assert(now[i] == before[i - 1] && now[i + 1] == before[i]);
        }
    }
}

/// What went wrong selecting an eclass.
#[derive(Debug)]
pub enum EclassError {
    /// The repo defines no eclass of that name.
    Unknown(String),
}

/// The versioned packages at the given positions.
pub open spec fn cpvs_at(pkgs: Seq<(Cpv, Vec<String>)>, positions: Seq<usize>) -> Seq<
    (Seq<char>, Seq<char>, crate::version::VersionView),
> {
    positions.map_values(|p: usize| cpv_view(pkgs[p as int].0))
}

/// The packages that inherit a selected eclass, in package order. The eclass
/// must be one of those the repo defines; a known eclass that no package
/// inherits gives no packages.
pub fn eclass_packages(pkgs: &Vec<(Cpv, Vec<String>)>, known: &IndexSet<String>, name: &str) -> (r: Result<Vec<Cpv>, EclassError>)
    requires
        forall|i: int| 0 <= i < pkgs@.len() ==> version_wf(#[trigger] pkgs@[i].0.version@),
    ensures
        r is Err <==> !set_items(*known).contains(name@),
        r matches Err(EclassError::Unknown(s)) ==> s@ == name@,
        r matches Ok(v) ==> cpvs_nondecreasing(cpv_views(v@)) && cpv_views(v@).to_multiset() == cpvs_at(
            pkgs@,
            uses_of(inherited_names(pkgs@), name@),
        ).to_multiset(),
{
    if !set_contains(known, name) {
        return Err(EclassError::Unknown(String::from_str(name)));
    }
    let m = eclass_users(pkgs);
    let n = pkgs.len();
    assert(inherited_names(pkgs@).len() == n);
    proof {
        lemma_users_of_eclass(inherited_names(pkgs@), name@);
    }
    let positions = match users_get(&m, name) {
        Some(v) => v,
        None => Vec::new(),
    };
    let ghost ps = uses_of(inherited_names(pkgs@), name@);
    assert(positions@ == ps);
    proof {
        lemma_uses_bounds(inherited_names(pkgs@), name@);
    }
    let mut out: Vec<Cpv> = Vec::new();
    let mut i: usize = 0;
    proof {
        let e = Seq::<(Seq<char>, Seq<char>, crate::version::VersionView)>::empty();
        assert(cpv_views(out@) =~= e);
        assert(cpvs_at(pkgs@, ps.take(0)) =~= e);
    }
    while i < positions.len()
        invariant
            i <= positions@.len(),
            positions@ == ps,
            forall|k: int| 0 <= k < pkgs@.len() ==> version_wf(#[trigger] pkgs@[k].0.version@),
            forall|k: int| 0 <= k < ps.len() ==> #[trigger] ps[k] < pkgs@.len(),
            cpvs_nondecreasing(cpv_views(out@)),
            cpvs_all_wf(out@),
            cpv_views(out@).to_multiset() == cpvs_at(pkgs@, ps.take(i as int)).to_multiset(),
        decreases positions@.len() - i,
    {
        let p = positions[i];
        let c = cpv_copy(&pkgs[p].0);
        insert_in_order(&mut out, c);
        proof {
            broadcast use vstd::seq_lib::group_to_multiset_ensures;

            assert(cpvs_at(pkgs@, ps.take(i + 1)) =~= cpvs_at(pkgs@, ps.take(i as int)).push(
                cpv_view(pkgs@[p as int].0),
            ));
        }
        i = i + 1;
    }
    assert(ps.take(ps.len() as int) =~= ps);
    Ok(out)
}

} // verus!
