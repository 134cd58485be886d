use leaderboard::board::Board;
use leaderboard::board::BoardError;
use leaderboard::clock::stamp_of;
use leaderboard::entry::Entry;
use rand::distr::Distribution;
use rand::distr::Uniform;

#[test]
fn test_massive() {
    let mut board: Board = Board::new();

    let size = 100000;
    let usize_size: usize = 100000;

    println!("Capping entries...");
    board.set_size_cap(usize_size);

    println!("Populating with dummy entries...");
    for i in 0..size {
        let _ = board.update_entry(i, i);
    }

    println!("Performing update test...");
    let mut num_writes = 0;
    let mut rng = rand::rng();
    let id_range = Uniform::try_from(i64::MIN..=i64::MAX).unwrap();
    let val_range = Uniform::try_from(0..size).unwrap();

    loop {
        if num_writes >= 100000 {
            break;
        }

        let target_id = id_range.sample(&mut rng);
        let target_value = val_range.sample(&mut rng);
        let _ = board.update_entry(target_id, target_value);

        num_writes += 1;
    }

    println!("Made {num_writes} update operations.",);

    println!("Preparing...");

    let ids: Vec<i64> = board.get_ids();
    let ind_range = Uniform::try_from(0..ids.len()).unwrap();

    println!("Performing retrieval around test...");

    let mut num_reads = 0;
    loop {
        if num_reads >= 100000 {
            break;
        }

        let target_id = ids.get(ind_range.sample(&mut rng)).unwrap();

        board.get_around(target_id, 25, 25);

        num_reads += 1;
    }

    println!("Made {num_reads} retrieval around operations.");

    println!("Performing rank retrieval test...");

    let mut num_ranks = 0;

    loop {
        if num_ranks >= 100000 {
            break;
        }

        let target_id = ids.get(ind_range.sample(&mut rng)).unwrap();

        board.get_rank(target_id);

        num_ranks += 1;
    }

    println!("Made {num_ranks} rank retrieval operations.");

    println!("Getting top 50 entries...");
    board.get_top(50, true, 0);

    println!("Getting bottom 50 entries...");

    board.get_bottom(50, true, 0);

    println!("Preparing to write to file...");

    let tree = board.get_tree_copy();
    assert!(tree.validate());
    assert_eq!(tree.len(), board.get_size());
    assert!(board.get_size() <= usize_size);
}

fn keys_of(list: &Vec<(usize, Entry)>) -> Vec<i64> {
    list.iter().map(|p| p.1.key).collect()
}

fn ranks_of(list: &Vec<(usize, Entry)>) -> Vec<usize> {
    list.iter().map(|p| p.0).collect()
}

#[test]
fn scenario_admission() {
    let mut board = Board::new();
    assert_eq!(board.update_entry_at(1, 10, 7), Ok(true));
    assert_eq!(board.get_rank(&1), Some(1));
    assert_eq!(board.get_size(), 1);
    assert_eq!(board.get_entry(&1).unwrap().points, 10);
    assert_eq!(board.get_entry(&1).unwrap().timestamp, 7);
    assert_eq!(board.get_entry(&2), None);
}

#[test]
fn scenario_tiebreaker() {
    let mut board = Board::new();
    assert_eq!(board.add_entry(Entry::new(1, 5, 100)), Ok(true));
    assert_eq!(board.add_entry(Entry::new(2, 5, 200)), Ok(true));
    let top = board.get_top_cacheless(2);
    assert_eq!(ranks_of(&top), vec![1, 2]);
    assert_eq!(keys_of(&top), vec![1, 2]);
}

#[test]
fn scenario_cap_eviction() {
    let mut board = Board::new();
    board.set_size_cap(3);
    for s in [10i64, 20, 30, 40] {
        assert_eq!(board.update_entry_at(s, s, 1), Ok(true));
    }
    assert_eq!(board.get_size(), 3);
    assert_eq!(keys_of(&board.get_top_cacheless(3)), vec![40, 30, 20]);
    assert_eq!(board.get_entry(&10), None);
}

#[test]
fn scenario_cap_rejection() {
    let mut board = Board::new();
    board.set_size_cap(3);
    for s in [30i64, 20, 10] {
        assert_eq!(board.update_entry_at(s, s, 1), Ok(true));
    }
    assert_eq!(board.update_entry_at(99, 5, 2), Err(BoardError::CapReject));
    assert_eq!(board.get_size(), 3);
    assert_eq!(keys_of(&board.get_top_cacheless(10)), vec![30, 20, 10]);
    assert_eq!(board.get_entry(&99), None);
    assert_eq!(BoardError::CapReject.message(), "Too low rank to fall into the size cap.");
}

#[test]
fn scenario_around_window() {
    let mut board = Board::new();
    for k in 1..=100i64 {
        assert_eq!(board.update_entry_at(k, k, 1), Ok(true));
    }
    let window = board.get_around(&50, 2, 2).unwrap();
    assert_eq!(ranks_of(&window), vec![49, 50, 51, 52, 53]);
    assert_eq!(keys_of(&window), vec![52, 51, 50, 49, 48]);
    assert!(board.get_around(&1000, 2, 2).is_none());
    // at the edges the window is cut short
    let first = board.get_around(&100, 3, 1).unwrap();
    assert_eq!(ranks_of(&first), vec![1, 2]);
    let last = board.get_around(&1, 1, 3).unwrap();
    assert_eq!(ranks_of(&last), vec![99, 100]);
}

#[test]
fn update_moves_and_keeps_timestamps_of_equal_scores() {
    let mut board = Board::new();
    board.update_entry_at(1, 10, 100).unwrap();
    board.update_entry_at(2, 20, 100).unwrap();
    // same points: nothing changes, the timestamp stays
    assert_eq!(board.update_entry_at(1, 10, 500), Ok(false));
    assert_eq!(board.get_entry(&1).unwrap().timestamp, 100);
    // other points: the entry moves and is stamped anew
    assert_eq!(board.update_entry_at(1, 30, 600), Ok(false));
    assert_eq!(board.get_entry(&1), Some(Entry::new(1, 30, 600)));
    assert_eq!(board.get_rank(&1), Some(1));
    assert_eq!(board.get_rank(&2), Some(2));
    assert_eq!(board.get_size(), 2);
    assert_eq!(board.get_entry_and_rank(&2), Some((2, Entry::new(2, 20, 100))));
}

#[test]
fn rank_and_entry_are_inverse() {
    let mut board = Board::new();
    for k in 0..50i64 {
        board.update_entry_at(k, (k * 7) % 11, k as u64).unwrap();
    }
    for rank in 1..=board.get_size() {
        let e = board.at_rank(rank).unwrap();
        assert_eq!(board.get_rank(&e.key), Some(rank));
    }
    assert_eq!(board.at_rank(0), None);
    assert_eq!(board.at_rank(51), None);
}

#[test]
fn add_then_remove_leaves_the_board_as_it_was() {
    let mut board = Board::new();
    for k in 0..10i64 {
        board.update_entry_at(k, k, 1).unwrap();
    }
    let before = board.get_ids();
    assert_eq!(board.add_entry(Entry::new(77, 4, 9)), Ok(true));
    assert_eq!(board.remove_entry(&77), Some(Entry::new(77, 4, 9)));
    assert_eq!(board.get_entry(&77), None);
    assert_eq!(board.get_size(), 10);
    assert_eq!(board.get_ids(), before);
    assert_eq!(board.remove_entry(&77), None);
    // a key that is present is not added again
    assert_eq!(board.add_entry(Entry::new(3, 100, 9)), Ok(false));
    assert_eq!(board.get_entry(&3), Some(Entry::new(3, 3, 1)));
}

#[test]
fn set_cap_then_trim() {
    let mut board = Board::new();
    for k in 0..10i64 {
        board.update_entry_at(k, k, 1).unwrap();
    }
    board.set_size_cap(4);
    assert_eq!(board.get_size_cap(), Some(4));
    assert!(board.is_at_size_cap());
    assert!(board.is_past_size_cap());
    assert_eq!(board.get_size(), 10);
    board.trim_after_cap();
    assert_eq!(board.get_size(), 4);
    assert!(board.is_at_size_cap());
    assert!(!board.is_past_size_cap());
    assert_eq!(keys_of(&board.get_top_cacheless(10)), vec![9, 8, 7, 6]);
    assert_eq!(board.get_entry(&5), None);
    board.remove_size_cap();
    assert_eq!(board.get_size_cap(), None);
    board.trim_after_cap();
    assert_eq!(board.get_size(), 4);
    assert_eq!(board.get_min(), Some(6));
}

#[test]
fn windows_and_ranges() {
    let mut board = Board::new();
    for k in 1..=10i64 {
        board.update_entry_at(k, k, 1).unwrap();
    }
    let after = board.get_after(&5, 3).unwrap();
    assert_eq!(ranks_of(&after), vec![7, 8, 9]);
    assert_eq!(keys_of(&after), vec![4, 3, 2]);
    let before = board.get_before(&5, 3).unwrap();
    assert_eq!(ranks_of(&before), vec![5, 4, 3]);
    assert_eq!(keys_of(&before), vec![6, 7, 8]);
    assert_eq!(board.get_after(&1, 3).unwrap().len(), 0);
    assert_eq!(board.get_before(&10, 3).unwrap().len(), 0);
    assert!(board.get_after(&11, 3).is_none());
    assert!(board.get_before(&11, 3).is_none());
    let range = board.get_range(2, 4);
    assert_eq!(ranks_of(&range), vec![2, 3, 4]);
    assert_eq!(keys_of(&range), vec![9, 8, 7]);
    assert_eq!(board.get_range(9, 20).len(), 2);
    assert_eq!(board.get_range(4, 2).len(), 0);
    assert_eq!(board.get_range(11, 12).len(), 0);
    assert_eq!(board.get_range(0, 2).len(), 0);
    let bottom = board.get_bottom_cacheless(2);
    assert_eq!(ranks_of(&bottom), vec![10, 9]);
    assert_eq!(keys_of(&bottom), vec![1, 2]);
    assert_eq!(board.get_ids(), vec![1, 2, 3, 4, 5, 6, 7, 8, 9, 10]);
    board.clear();
    assert_eq!(board.get_size(), 0);
    assert_eq!(board.get_min(), None);
    assert_eq!(board.get_top_cacheless(3).len(), 0);
}

#[test]
fn edge_cache_serves_and_expires() {
    let mut board = Board::new();
    for k in 1..=5i64 {
        board.update_entry_at(k, k, 1).unwrap();
    }
    // a bypassing caller leaves memory alone
    assert_eq!(keys_of(&board.get_top_at(2, true, 10, 100)), vec![5, 4]);
    assert!(board.is_top_cache_expired_at(10, 100));
    // a caching caller fills it
    assert_eq!(keys_of(&board.get_top_at(3, false, 10, 100)), vec![5, 4, 3]);
    assert!(!board.is_top_cache_expired_at(10, 105));
    assert!(!board.is_top_cache_expired_at(10, 110));
    assert!(board.is_top_cache_expired_at(10, 111));
    assert!(board.is_top_cache_expired_at(10, 99));
    assert_eq!(keys_of(&board.get_top_at(2, false, 10, 105)), vec![5, 4]);
    // a change forgets it; the next answer is the fresh one
    board.update_entry_at(9, 9, 2).unwrap();
    assert_eq!(keys_of(&board.get_top_at(2, false, 10, 106)), vec![9, 5]);
    assert_eq!(keys_of(&board.get_bottom_at(2, false, 10, 106)), vec![1, 2]);
    assert!(!board.is_bottom_cache_expired_at(10, 106));
    board.remove_entry(&1);
    assert_eq!(keys_of(&board.get_bottom_at(2, false, 10, 107)), vec![2, 3]);
    assert_eq!(keys_of(&board.get_top(1, false, 1000)), vec![9]);
    assert_eq!(keys_of(&board.get_bottom(1, true, 1000)), vec![2]);
}

#[test]
fn snapshot_reads_the_board_as_it_was() {
    let mut board = Board::new();
    for k in 1..=3i64 {
        board.update_entry_at(k, k, 1).unwrap();
    }
    assert!(!board.is_map_snapshotted());
    let receipt = board.get_map_snapshot();
    assert!(board.is_map_snapshotted());
    board.update_entry_at(4, 4, 2).unwrap();
    board.update_entry_at(1, 10, 2).unwrap();
    board.remove_entry(&2);
    let mut seen: Vec<Entry> = board.snapshot_entries();
    seen.sort_by_key(|e| e.key);
    assert_eq!(seen, vec![Entry::new(1, 1, 1), Entry::new(2, 2, 1), Entry::new(3, 3, 1)]);
    // readers see the changes all along
    assert_eq!(board.get_entry(&1), Some(Entry::new(1, 10, 2)));
    assert_eq!(board.get_entry(&2), None);
    assert_eq!(board.get_size(), 3);
    board.release_map_snapshot(receipt);
    assert!(!board.is_map_snapshotted());
    let mut now: Vec<Entry> = board.snapshot_entries();
    now.sort_by_key(|e| e.key);
    assert_eq!(now, vec![Entry::new(1, 10, 2), Entry::new(3, 3, 1), Entry::new(4, 4, 2)]);
    assert_eq!(board.get_entry(&4), Some(Entry::new(4, 4, 2)));
}

#[test]
fn boards_from_entries_and_trees() {
    let entries = vec![Entry::new(1, 5, 1), Entry::new(2, 7, 1), Entry::new(1, 9, 2)];
    let board = Board::from_entries(&entries);
    assert_eq!(board.get_size(), 2);
    assert_eq!(board.get_entry(&1), Some(Entry::new(1, 9, 2)));
    assert_eq!(keys_of(&board.get_top_cacheless(2)), vec![1, 2]);
    let tree = board.get_tree_copy();
    let again = Board::from_tree(tree);
    assert_eq!(again.get_ids(), board.get_ids());
    let mut clash = leaderboard::tree::Tree::<Entry>::new();
    clash.insert(Entry::new(1, 5, 1));
    clash.insert(Entry::new(1, 6, 1));
    assert!(Board::try_from_tree(clash).is_none());
}

#[test]
fn boards_from_maps() {
    let mut map = std::collections::HashMap::new();
    map.insert(1i64, Entry::new(1, 5, 1));
    map.insert(2i64, Entry::new(2, 9, 1));
    map.insert(3i64, Entry::new(3, 7, 1));
    let board = Board::from_map(map);
    assert_eq!(board.get_size(), 3);
    assert_eq!(keys_of(&board.get_top_cacheless(3)), vec![2, 3, 1]);
    assert_eq!(board.get_entry(&3), Some(Entry::new(3, 7, 1)));
    assert_eq!(board.map_snapshot_count(), 0);
}

#[test]
fn update_entry_stamps_with_the_wall_clock() {
    let mut board = Board::new();
    assert_eq!(board.update_entry(1, 10), Ok(true));
    let first = board.get_entry(&1).unwrap();
    assert_eq!(first.points, 10);
    // later than the first of January 2020, in milliseconds
    assert!(first.timestamp > 1_577_836_800_000);
    assert_eq!(board.update_entry(1, 10), Ok(false));
    assert_eq!(board.get_entry(&1), Some(first));
    assert_eq!(board.update_entry(1, 11), Ok(false));
    assert!(board.get_entry(&1).unwrap().timestamp >= first.timestamp);
    assert!(!board.is_top_cache_expired(u64::MAX) || board.is_top_cache_expired(0));
    assert!(board.is_bottom_cache_expired(0));
}

#[test]
fn boards_from_maps_report_progress() {
    let mut map = std::collections::HashMap::new();
    for k in 0..7i64 {
        map.insert(k, Entry::new(k, k, 1));
    }
    let seen = std::cell::Cell::new(0usize);
    let board = Board::from_map_prog(map, |n| seen.set(seen.get() + n));
    assert_eq!(seen.get(), 7);
    assert_eq!(board.get_size(), 7);
}

#[test]
fn clock_readings_become_timestamps() {
    assert_eq!(stamp_of(None), 0);
    assert_eq!(stamp_of(Some(0)), 0);
    assert_eq!(stamp_of(Some(1_577_836_800_000)), 1_577_836_800_000);
    assert_eq!(stamp_of(Some(u64::MAX as u128)), u64::MAX);
    assert_eq!(stamp_of(Some(u64::MAX as u128 + 1)), u64::MAX);
    assert_eq!(stamp_of(Some(u128::MAX)), u64::MAX);
}
