//! Sets of names that compare by their sorted values: two sets holding the
//! same names are equal whatever order the names were added in, and sets are
//! ordered by their sorted names, element by element.

use vstd::prelude::*;
use indexmap::IndexSet;
use crate::chars::views;
use crate::order::{Order, seq_order, lemma_seq_order_flip, flip};
use crate::ordered_map::set_copy;
use crate::ordered_set::{added, set_items, sorted_items, set_new, set_insert, set_len, set_sort, set_values};

verus! {

/// A set of names, kept in the order they were added, that compares by its
/// sorted names.
pub struct SortedSet {
    set: IndexSet<String>,
}

/// Lists of names in lexicographic order, name by name; a list that is a
/// proper prefix of another sorts first.
pub open spec fn names_order(a: Seq<Seq<char>>, b: Seq<Seq<char>>) -> Order
    decreases a.len(),
{
    if a.len() == 0 && b.len() == 0 {
        Order::Equal
    } else if a.len() == 0 {
        Order::Less
    } else if b.len() == 0 {
        Order::Greater
    } else if seq_order(a[0], b[0]) != Order::Equal {
        seq_order(a[0], b[0])
    } else {
        names_order(a.drop_first(), b.drop_first())
    }
}

/// `x` is the sorted list of the names of `s`.
pub open spec fn sorted_of(x: Seq<Seq<char>>, s: Seq<Seq<char>>) -> bool {
    sorted_items(x) && x.to_multiset() == s.to_multiset()
}

/// Two sorted lists with the same names are the same list.
pub proof fn lemma_sorted_unique(x: Seq<Seq<char>>, y: Seq<Seq<char>>)
    requires
        sorted_items(x),
        sorted_items(y),
        x.to_multiset() == y.to_multiset(),
    ensures
        x == y,
    decreases x.len(),
{
    broadcast use vstd::seq_lib::group_to_multiset_ensures;

    if x.len() == 0 {
        assert(y.to_multiset().len() == 0);
        assert(y.len() == 0);
        assert(x =~= y);
    } else {
        assert(x.to_multiset().len() == x.len());
        assert(y.to_multiset().len() == y.len());
        assert(y.len() == x.len());
        let a = x[0];
        let b = y[0];
        assert(x.contains(a));
        assert(y.to_multiset().count(a) > 0);
        assert(y.contains(a));
        assert(x.to_multiset().count(b) > 0);
        let i = choose|i: int| 0 <= i < y.len() && y[i] == a;
        let j = choose|j: int| 0 <= j < x.len() && x[j] == b;
        lemma_seq_order_flip(a, b);
        if a != b {
            assert(i > 0 && j > 0);
            assert(seq_order(b, a) == Order::Less);
            assert(seq_order(a, b) == Order::Less);
            assert(false);
        }
        assert(x.remove(0) =~= x.drop_first());
        assert(y.remove(0) =~= y.drop_first());
        assert(sorted_items(x.drop_first())) by {
            assert forall|p: int, q: int| 0 <= p < q < x.drop_first().len() implies seq_order(
                x.drop_first()[p],
                x.drop_first()[q],
            ) == Order::Less by {
                assert(x.drop_first()[p] == x[p + 1] && x.drop_first()[q] == x[q + 1]);
            }
        }
        assert(sorted_items(y.drop_first())) by {
            assert forall|p: int, q: int| 0 <= p < q < y.drop_first().len() implies seq_order(
                y.drop_first()[p],
                y.drop_first()[q],
            ) == Order::Less by {
                assert(y.drop_first()[p] == y[p + 1] && y.drop_first()[q] == y[q + 1]);
            }
        }
        lemma_sorted_unique(x.drop_first(), y.drop_first());
        assert(x =~= y) by {
            assert forall|k: int| 0 <= k < x.len() implies x[k] == y[k] by {
                if k > 0 {
                    assert(x[k] == x.drop_first()[k - 1] && y[k] == y.drop_first()[k - 1]);
                }
            }
        }
    }
}

/// Lists compare equal exactly when they are the same list.
proof fn lemma_names_order_equal(a: Seq<Seq<char>>, b: Seq<Seq<char>>)
    ensures
        (names_order(a, b) == Order::Equal) == (a == b),
    decreases a.len(),
{
    if a.len() > 0 && b.len() > 0 {
        lemma_seq_order_flip(a[0], b[0]);
        lemma_names_order_equal(a.drop_first(), b.drop_first());
        if a.drop_first() == b.drop_first() && a[0] == b[0] {
            assert(a =~= b) by {
                assert forall|k: int| 0 <= k < a.len() implies a[k] == b[k] by {
                    if k > 0 {
                        assert(a[k] == a.drop_first()[k - 1] && b[k] == b.drop_first()[k - 1]);
                    }
                }
            }
        }
        if a == b {
            assert(a.drop_first() == b.drop_first());
        }
    } else if a.len() == 0 && b.len() == 0 {
        assert(a =~= b);
    }
}

/// Comparing two lists the other way round gives the opposite outcome.
pub proof fn lemma_names_order_flip(a: Seq<Seq<char>>, b: Seq<Seq<char>>)
    ensures
        names_order(a, b) == flip(names_order(b, a)),
    decreases a.len(),
{
    if a.len() > 0 && b.len() > 0 {
        lemma_seq_order_flip(a[0], b[0]);
        lemma_names_order_flip(a.drop_first(), b.drop_first());
    }
}

/// Lexicographic order of two lists of names.
fn names_order_exec(a: &Vec<String>, b: &Vec<String>) -> (r: Order)
    ensures
        r == names_order(views(a@), views(b@)),
{
    let ghost x = views(a@);
    let ghost y = views(b@);
    let mut i: usize = 0;
    assert(x.skip(0) =~= x);
    assert(y.skip(0) =~= y);
    while i < a.len() && i < b.len()
        invariant
            i <= a@.len(),
            i <= b@.len(),
            x == views(a@),
            y == views(b@),
            names_order(x, y) == names_order(x.skip(i as int), y.skip(i as int)),
        decreases a@.len() - i,
    {
        let o = crate::order::string_order(&a[i], &b[i]);
        assert(x.skip(i as int)[0] == a@[i as int]@);
        assert(y.skip(i as int)[0] == b@[i as int]@);
        if o != Order::Equal {
            return o;
        }
        assert(x.skip(i as int).drop_first() =~= x.skip(i + 1));
        assert(y.skip(i as int).drop_first() =~= y.skip(i + 1));
        i = i + 1;
    }
    if i == a.len() && i == b.len() {
        Order::Equal
    } else if i == a.len() {
        Order::Less
    } else {
        Order::Greater
    }
}

impl SortedSet {
    /// The names of the set, in the order they were added.
    pub closed spec fn items(&self) -> Seq<Seq<char>> {
        set_items(self.set)
    }

    /// An empty set.
    pub fn new() -> (r: SortedSet)
        ensures
            r.items() == Seq::<Seq<char>>::empty(),
    {
        SortedSet { set: set_new() }
    }

    /// A set of the given names, each once, in the order first given.
    pub fn from_values(values: &Vec<String>) -> (r: SortedSet)
        ensures
            r.items() == added(Seq::empty(), views(values@)),
    {
        let mut set = set_new();
        let mut i: usize = 0;
        while i < values.len()
            invariant
                i <= values@.len(),
                set_items(set) == added(Seq::empty(), views(values@).take(i as int)),
            decreases values@.len() - i,
        {
            assert(views(values@).take(i + 1).drop_last() =~= views(values@).take(i as int));
            assert(views(values@).take(i + 1).last() == values@[i as int]@);
            set_insert(&mut set, values[i].clone());
            i = i + 1;
        }
        assert(views(values@).take(values@.len() as int) =~= views(values@));
        SortedSet { set }
    }

    /// Add a name not yet present, at the end; `false` when it was present.
    pub fn insert(&mut self, value: String) -> (r: bool)
        ensures
            r == !old(self).items().contains(value@),
            r ==> final(self).items() == old(self).items().push(value@),
            !r ==> final(self).items() == old(self).items(),
    {
        set_insert(&mut self.set, value)
    }

    /// The number of names.
    pub fn len(&self) -> (r: usize)
        ensures
            r == self.items().len(),
    {
        set_len(&self.set)
    }

    /// The names in the order they were added.
    pub fn values(&self) -> (r: Vec<String>)
        ensures
            views(r@) == self.items(),
    {
        set_values(&self.set)
    }

    /// The names, sorted.
    pub fn sorted_values(&self) -> (r: Vec<String>)
        ensures
            sorted_of(views(r@), self.items()),
    {
        let mut copy = set_copy(&self.set);
        set_sort(&mut copy);
        set_values(&copy)
    }

    /// Compare two sets by their sorted names, name by name; a set whose
    /// sorted names begin the other's sorts first.
    pub fn compare(&self, other: &SortedSet) -> (r: Order)
        ensures
            forall|x: Seq<Seq<char>>, y: Seq<Seq<char>>|
                sorted_of(x, self.items()) && sorted_of(y, other.items()) ==> r == names_order(x, y),
    {
        let a = self.sorted_values();
        let b = other.sorted_values();
        let r = names_order_exec(&a, &b);
        proof {
            assert forall|x: Seq<Seq<char>>, y: Seq<Seq<char>>|
                sorted_of(x, self.items()) && sorted_of(y, other.items()) implies r == names_order(x, y) by {
                lemma_sorted_unique(x, views(a@));
                lemma_sorted_unique(y, views(b@));
            }
        }
        r
    }

    /// Two sets are equal when they hold the same names, in whatever order
    /// they were added.
    pub fn same(&self, other: &SortedSet) -> (r: bool)
        ensures
            r == (self.items().to_multiset() == other.items().to_multiset()),
    {
        let a = self.sorted_values();
        let b = other.sorted_values();
        let r = names_order_exec(&a, &b);
        proof {
            lemma_names_order_equal(views(a@), views(b@));
            if self.items().to_multiset() == other.items().to_multiset() {
                lemma_sorted_unique(views(a@), views(b@));
            }
        }
        r == Order::Equal
    }
}

} // verus!
