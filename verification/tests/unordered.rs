use std::collections::hash_map::DefaultHasher;
use std::collections::HashSet;
use std::hash::{BuildHasher, Hash, Hasher};

use cinnabar::utils::unordered_hasher::UnorderedBuildHasher;
use cinnabar::utils::{UnorderedHasher, UnorderedPair};

#[test]
fn unordered_pairs_have_same_hash() {
    let straight = UnorderedPair(1, 2);
    let swapped = UnorderedPair(2, 1);
    let build_hasher = UnorderedBuildHasher::default();
    let mut set = HashSet::with_hasher(build_hasher);
    set.insert(straight);
    assert!(set.contains(&swapped));
}

#[test]
fn swapped_pairs_hash_identically() {
    let build_hasher = UnorderedBuildHasher::default();
    for x in 0..20u64 {
        for y in 0..20u64 {
            let straight = build_hasher.hash_one(UnorderedPair(x, y));
            let swapped = build_hasher.hash_one(UnorderedPair(y, x));
            assert_eq!(straight, swapped);
        }
    }
}

#[test]
fn the_order_of_writes_does_not_change_the_hash() {
    let mut forward: UnorderedHasher<DefaultHasher> = UnorderedHasher::new();
    forward.write(b"left");
    forward.write(b"right");
    forward.write(b"middle");
    let mut backward: UnorderedHasher<DefaultHasher> = UnorderedHasher::new();
    backward.write(b"middle");
    backward.write(b"right");
    backward.write(b"left");
    backward.write(b"right");
    assert_eq!(forward.finish(), backward.finish());
    let mut other: UnorderedHasher<DefaultHasher> = UnorderedHasher::new();
    other.write(b"left");
    other.write(b"right");
    assert_ne!(forward.finish(), other.finish());
}

#[test]
fn recorded_hashes_are_fed_in_rising_order() {
    let mut one: UnorderedHasher<DefaultHasher> = UnorderedHasher::new();
    one.record(7);
    one.record(3);
    one.record(7);
    one.record(5);
    let mut plain = DefaultHasher::default();
    3u64.hash(&mut plain);
    5u64.hash(&mut plain);
    7u64.hash(&mut plain);
    assert_eq!(one.finish(), plain.finish());
}

#[test]
fn a_write_records_the_hash_of_its_bytes() {
    let mut hasher: UnorderedHasher<DefaultHasher> = UnorderedHasher::new();
    hasher.write(&[1, 2, 3]);
    let mut piece = DefaultHasher::default();
    [1u8, 2, 3][..].hash(&mut piece);
    let mut last = DefaultHasher::default();
    piece.finish().hash(&mut last);
    assert_eq!(hasher.finish(), last.finish());
    let empty: UnorderedHasher<DefaultHasher> = UnorderedHasher::default();
    assert_eq!(empty.finish(), DefaultHasher::default().finish());
}

#[test]
fn a_set_of_unordered_pairs_holds_each_edge_once() {
    let mut set = HashSet::with_hasher(UnorderedBuildHasher::default());
    for (a, b) in [(1usize, 2usize), (2, 1), (1, 3), (3, 1), (3, 4), (4, 3)] {
        set.insert(UnorderedPair(a, b));
    }
    assert_eq!(set.len(), 3);
}
