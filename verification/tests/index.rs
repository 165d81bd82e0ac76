use std::collections::HashSet;

use cinnabar::counter::Counter;
use cinnabar::index::{Index, Unique};
use cinnabar::utils::UnorderedPair;

#[test]
fn unordered_pairs_are_equal() {
    let straight = UnorderedPair(1, 2);
    let swapped = UnorderedPair(2, 1);
    assert_eq!(straight, swapped);
    assert_eq!(swapped, straight);
}

#[test]
fn unordered_pairs_differ_in_a_third_item() {
    for x in 0..4usize {
        for y in 0..4usize {
            for z in 0..4usize {
                if z != x && z != y {
                    assert_ne!(UnorderedPair(x, y), UnorderedPair(x, z));
                    assert!(!UnorderedPair(x, y).same(UnorderedPair(x, z)));
                }
            }
            assert_eq!(UnorderedPair(x, y), UnorderedPair(y, x));
            assert!(UnorderedPair(x, y).same(UnorderedPair(y, x)));
        }
    }
}

#[test]
fn pairs_convert_from_and_to_tuples() {
    let pair: UnorderedPair<usize> = (3, 5).into();
    assert_eq!((pair.0, pair.1), (3, 5));
    let tuple: (usize, usize) = pair.into();
    assert_eq!(tuple, (3, 5));
}

#[test]
fn items_are_told_apart() {
    assert!(4usize.same(4));
    assert!(!4usize.same(5));
    assert!(4u64.same(4));
    assert!(!4u32.same(9));
    assert!((1usize, 2usize).same((1, 2)));
    assert!(!(1usize, 2usize).same((2, 1)));
}

#[test]
fn a_series_issues_no_identifier_twice() {
    let mut source = Counter::first();
    let mut seen = HashSet::new();
    for _ in 0..1000 {
        assert!(source.has_room(1));
        let id = source.generate();
        assert!(seen.insert(id));
    }
    assert_eq!(seen.len(), 1000);
}

#[test]
fn identifiers_of_a_series_are_told_apart() {
    let mut source = Counter::first();
    let a = source.generate();
    let b = source.generate();
    assert!(a.same(a));
    assert!(!a.same(b));
    assert_ne!(a, b);
}

#[test]
fn many_identifiers_are_pairwise_distinct() {
    let mut source = Counter::first();
    let before = cinnabar::index::generate_many(&mut source, 3);
    let ids = cinnabar::index::generate_many(&mut source, 500);
    assert_eq!(ids.len(), 500);
    let seen: HashSet<Counter> = ids.iter().copied().collect();
    assert_eq!(seen.len(), 500);
    for id in before {
        assert!(!seen.contains(&id));
    }
    assert!(cinnabar::index::generate_many(&mut source, 0).is_empty());
}
