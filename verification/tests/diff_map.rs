use leaderboard::diff_map::DiffMap;
use std::collections::HashMap;

#[test]
fn without_a_snapshot_writes_go_to_the_base() {
    let mut map: DiffMap<u32> = DiffMap::new();
    assert_eq!(map.get(&1), None);
    assert!(!map.contains_key(&1));
    assert_eq!(map.insert(1, 10), None);
    assert_eq!(map.insert(1, 11), Some(10));
    assert_eq!(map.get(&1), Some(11));
    assert!(map.contains_key(&1));
    assert_eq!(map.base_map().get(&1), Some(&11));
    assert_eq!(map.remove(&1), Some(11));
    assert_eq!(map.remove(&1), None);
    assert_eq!(map.base_map().len(), 0);
    assert!(!map.is_borrowed());
    map.insert(2, 20);
    map.clear();
    assert_eq!(map.get(&2), None);
    assert_eq!(map.base_map().len(), 0);
}

#[test]
fn with_a_snapshot_the_overlay_decides() {
    let mut base = HashMap::new();
    base.insert(1i64, 10u32);
    base.insert(2i64, 20u32);
    let mut map = DiffMap::from_map(base);
    let first = map.snapshot_borrow();
    assert_eq!(first.ticket(), 1);
    assert!(map.is_borrowed());
    assert_eq!(map.borrow_count(), 1);

    // a value in the overlay is returned
    assert_eq!(map.insert(3, 30), None);
    assert_eq!(map.get(&3), Some(30));
    assert_eq!(map.insert(1, 11), Some(10));
    assert_eq!(map.get(&1), Some(11));
    // a tombstone reads as absent
    assert_eq!(map.remove(&2), Some(20));
    assert_eq!(map.get(&2), None);
    assert!(!map.contains_key(&2));
    assert_eq!(map.remove(&2), None);
    // the base is as the snapshot found it
    let mut pairs = map.snapshot_pairs();
    pairs.sort();
    assert_eq!(pairs, vec![(1, 10), (2, 20)]);

    // a second snapshot, a clear, and writes after it
    let second = map.snapshot_borrow();
    assert_eq!(second.ticket(), 2);
    map.clear();
    assert_eq!(map.get(&1), None);
    assert_eq!(map.get(&3), None);
    assert_eq!(map.insert(4, 40), None);
    assert_eq!(map.get(&4), Some(40));
    assert_eq!(map.base_map().len(), 2);
    map.shrink_to_fit();
    assert_eq!(map.base_map().len(), 2);

    // giving back one of two snapshots folds nothing
    map.release(second);
    assert_eq!(map.borrow_count(), 1);
    assert_eq!(map.base_map().len(), 2);
    assert_eq!(map.get(&4), Some(40));
    // giving back the last one folds the overlay into the base
    map.release(first);
    assert!(!map.is_borrowed());
    let mut pairs = map.snapshot_pairs();
    pairs.sort();
    assert_eq!(pairs, vec![(4, 40)]);
    assert_eq!(map.get(&4), Some(40));
    assert_eq!(map.get(&1), None);
}

#[test]
fn folding_applies_values_and_tombstones() {
    let mut map: DiffMap<u32> = DiffMap::with_capacity(8);
    map.insert(1, 10);
    map.insert(2, 20);
    let receipt = map.snapshot_borrow();
    map.insert(1, 11);
    map.remove(&2);
    map.insert(3, 30);
    map.release(receipt);
    let mut pairs = map.snapshot_pairs();
    pairs.sort();
    assert_eq!(pairs, vec![(1, 11), (3, 30)]);
    // with nothing outstanding, giving back changes nothing
    let mut other: DiffMap<u32> = DiffMap::new();
    let stray = other.snapshot_borrow();
    map.release(stray);
    assert_eq!(map.borrow_count(), 0);
    assert_eq!(map.get(&1), Some(11));
}
