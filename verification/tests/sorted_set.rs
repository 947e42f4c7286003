use std::collections::hash_map::DefaultHasher;
use std::collections::HashSet;
use std::hash::{Hash, Hasher};

use pkgcraft::order::Order;
use pkgcraft::sorted_set::SortedSet;

// The hash of a set, over its sorted names.
fn hash_of(s: &SortedSet) -> u64 {
    let mut h = DefaultHasher::new();
    for v in s.sorted_values() {
        v.hash(&mut h);
    }
    h.finish()
}

fn set(v: &[&str]) -> SortedSet {
    SortedSet::from_values(&v.iter().map(|s| s.to_string()).collect())
}

// The number of distinct sets among `sets`, keyed by their sorted names as
// a hash set does; sets holding the same names count once.
fn distinct(sets: &[SortedSet]) -> usize {
    sets.iter().map(|s| s.sorted_values()).collect::<HashSet<_>>().len()
}

#[test]
fn hash() {
    // different elements
    let s1 = set(&["a"]);
    let s2 = set(&["b"]);
    assert!(!s1.same(&s2));
    assert_ne!(hash_of(&s1), hash_of(&s2));
    assert_ne!(distinct(&[s1, s2]), 1);

    // different ordering
    let s1 = set(&["a", "b"]);
    let s2 = set(&["b", "a"]);
    assert!(s1.same(&s2));
    assert_eq!(hash_of(&s1), hash_of(&s2));
    assert_eq!(distinct(&[s1, s2]), 1);

    // similar ordering
    let s1 = set(&["a", "b"]);
    let s2 = set(&["a", "b"]);
    assert!(s1.same(&s2));
    assert_eq!(distinct(&[s1, s2]), 1);

    // matching elements
    let s1 = set(&["a", "b", "a"]);
    let s2 = set(&["a", "b", "b"]);
    assert!(s1.same(&s2));
    assert_eq!(distinct(&[s1, s2]), 1);
}

#[test]
fn sorted_set_order() {
    assert_eq!(set(&["b", "a"]).compare(&set(&["a", "b"])), Order::Equal);
    assert_eq!(set(&["a"]).compare(&set(&["a", "b"])), Order::Less);
    assert_eq!(set(&["c"]).compare(&set(&["b", "a"])), Order::Greater);
    assert_eq!(set(&["b", "a"]).values(), vec!["b".to_string(), "a".to_string()]);
    assert_eq!(set(&["b", "a"]).sorted_values(), vec!["a".to_string(), "b".to_string()]);
    let mut s = SortedSet::new();
    assert!(s.insert("x".to_string()));
    assert!(!s.insert("x".to_string()));
    assert_eq!(s.len(), 1);
}
