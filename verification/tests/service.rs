use leaderboard::backend::execute_action;
use leaderboard::backend::execute_at_rank;
use leaderboard::backend::execute_board;
use leaderboard::backend::execute_get;
use leaderboard::backend::execute_info;
use leaderboard::backend::execute_remove;
use leaderboard::backend::execute_update;
use leaderboard::backend::ActionType;
use leaderboard::backend::ApiKeyError;
use leaderboard::backend::Denial;
use leaderboard::backend::Outcome;
use leaderboard::backend::Refusal;
use leaderboard::backend::Reply;
use leaderboard::backend::Request;
use leaderboard::board::Board;
use leaderboard::codec::decode_entries;
use leaderboard::entry::Entry;
use leaderboard::registry::AppState;
use leaderboard::registry::Config;
use leaderboard::registry::ConfigBoard;
use leaderboard::registry::ConfigUser;
use leaderboard::saver::board_file_name;
use leaderboard::saver::part_file_name;
use leaderboard::saver::recovery_plan;
use leaderboard::saver::save_goes_on;
use leaderboard::saver::Recovery;
use leaderboard::saver::SaveFault;

fn fresh() -> AppState {
    AppState::new(Config { port: 8000, save_interval: 60 })
}

#[test]
fn registry_boards_and_keys() {
    let mut state = fresh();
    assert_eq!(state.port(), 8000);
    assert_eq!(state.save_interval(), 60);
    assert!(state.create_board("a".to_string()));
    assert!(!state.create_board("a".to_string()));
    assert!(state.create_board("b".to_string()));
    assert_eq!(state.board_names(), vec!["a".to_string(), "b".to_string()]);
    assert_eq!(state.find_board(&"b".to_string()), Some(1));
    assert_eq!(state.find_board(&"c".to_string()), None);

    assert!(state.create_key("k1".to_string(), "a".to_string(), true));
    assert!(state.create_key("k2".to_string(), "b".to_string(), false));
    assert!(!state.create_key("k1".to_string(), "b".to_string(), false));
    let user = state.find_user(&"k1".to_string()).unwrap();
    assert_eq!(user.board, "a");
    assert!(user.write);
    assert!(state.find_user(&"nobody".to_string()).is_none());

    assert!(state.set_key_write_perms(&"k1".to_string(), false));
    assert!(!state.find_user(&"k1".to_string()).unwrap().write);
    assert!(!state.set_key_write_perms(&"nobody".to_string(), true));

    assert!(state.set_board_cap(&"a".to_string(), 5));
    assert!(!state.set_board_cap(&"c".to_string(), 5));
    assert_eq!(state.board_ref(0).get_size_cap(), Some(5));
    assert!(state.rem_board_cap(&"a".to_string()));
    assert!(!state.rem_board_cap(&"c".to_string()));
    assert_eq!(state.board_ref(0).get_size_cap(), None);

    assert!(state.delete_key(&"k2".to_string()));
    assert!(!state.delete_key(&"k2".to_string()));
    assert!(state.create_key("k3".to_string(), "a".to_string(), true));
    assert!(state.delete_board(&"a".to_string()));
    assert!(!state.delete_board(&"a".to_string()));
    assert_eq!(state.board_names(), vec!["b".to_string()]);
    // the keys of the board went with it
    assert!(state.find_user(&"k1".to_string()).is_none());
    assert!(state.find_user(&"k3".to_string()).is_none());
}

fn lines(journal: &Vec<(String, ConfigBoard)>) -> Vec<(String, Option<usize>, Vec<(String, bool)>)> {
    journal
        .iter()
        .map(|l| (l.0.clone(), l.1.cap, l.1.keys.iter().map(|k| (k.0.clone(), k.1.write)).collect()))
        .collect()
}

#[test]
fn registry_journal_lists_boards_then_stray_names() {
    let mut state = fresh();
    state.create_board("a".to_string());
    state.create_board("b".to_string());
    state.set_board_cap(&"b".to_string(), 3);
    state.create_key("k1".to_string(), "a".to_string(), true);
    state.create_key("k2".to_string(), "ghost".to_string(), false);
    state.create_key("k3".to_string(), "a".to_string(), false);
    state.create_key("k4".to_string(), "ghost".to_string(), true);
    assert_eq!(
        lines(&state.journal()),
        vec![
            ("a".to_string(), None, vec![("k1".to_string(), true), ("k3".to_string(), false)]),
            ("b".to_string(), Some(3), vec![]),
            ("ghost".to_string(), None, vec![("k2".to_string(), false), ("k4".to_string(), true)]),
        ]
    );
}

#[test]
fn registry_opens_from_a_journal() {
    let journal = vec![
        (
            "a".to_string(),
            ConfigBoard { keys: vec![("k1".to_string(), ConfigUser { write: true })], cap: Some(2) },
        ),
        (
            "b".to_string(),
            ConfigBoard {
                keys: vec![
                    ("k2".to_string(), ConfigUser { write: false }),
                    ("k1".to_string(), ConfigUser { write: false }),
                ],
                cap: None,
            },
        ),
        ("a".to_string(), ConfigBoard { keys: vec![], cap: Some(9) }),
    ];
    let state = AppState::from_journal(Config { port: 1, save_interval: 2 }, &journal);
    assert_eq!(state.port(), 1);
    assert_eq!(state.save_interval(), 2);
    assert_eq!(state.board_names(), vec!["a".to_string(), "b".to_string()]);
    assert_eq!(state.board_ref(0).get_size_cap(), Some(2));
    assert_eq!(state.board_ref(0).get_size(), 0);
    assert_eq!(state.board_ref(1).get_size_cap(), None);
    // a key that is taken stays with its first board
    let k1 = state.find_user(&"k1".to_string()).unwrap();
    assert_eq!(k1.board, "a");
    assert!(k1.write);
    assert_eq!(state.find_user(&"k2".to_string()).unwrap().board, "b");
    assert_eq!(
        lines(&state.journal()),
        vec![
            ("a".to_string(), Some(2), vec![("k1".to_string(), true)]),
            ("b".to_string(), None, vec![("k2".to_string(), false)]),
        ]
    );
}

#[test]
fn requests_are_answered_with_codes() {
    let mut board = Board::new();
    let added = execute_update(&mut board, true, 1, 10, 5).unwrap();
    assert_eq!((added.code, added.outcome), (1, Outcome::Added));
    let updated = execute_update(&mut board, true, 1, 11, 6).unwrap();
    assert_eq!((updated.code, updated.outcome), (0, Outcome::Updated));
    assert_eq!(execute_update(&mut board, false, 1, 12, 7).err(), Some(Refusal::Forbidden));
    assert_eq!(board.get_entry(&1), Some(Entry::new(1, 11, 6)));

    board.set_size_cap(1);
    let rejected = execute_update(&mut board, true, 2, 5, 8).unwrap();
    assert_eq!((rejected.code, rejected.outcome), (1, Outcome::Rejected));

    let found = execute_get(&board, 1);
    assert_eq!((found.code, found.outcome, found.entry), (0, Outcome::Found, Some(Entry::new(1, 11, 6))));
    let missing = execute_get(&board, 2);
    assert_eq!((missing.code, missing.outcome, missing.entry), (-1, Outcome::NotFound, None));

    let info = execute_info(&board, 1);
    assert_eq!((info.code, info.rank), (0, Some(1)));
    assert_eq!(execute_info(&board, 2).code, -1);

    let summary = execute_board(&board);
    assert_eq!((summary.cap, summary.size, summary.min), (Some(1), 1, Some(11)));

    assert_eq!(execute_at_rank(&board, 0).err(), Some(Refusal::BadRequest));
    let at = execute_at_rank(&board, 1).unwrap();
    assert_eq!((at.code, at.entry, at.rank), (0, Some(Entry::new(1, 11, 6)), Some(1)));
    let beyond = execute_at_rank(&board, 2).unwrap();
    assert_eq!((beyond.code, beyond.entry, beyond.rank), (-1, None, Some(2)));

    assert_eq!(execute_remove(&mut board, false, 1).err(), Some(Refusal::Forbidden));
    let removed = execute_remove(&mut board, true, 1).unwrap();
    assert_eq!((removed.code, removed.outcome, removed.entry), (0, Outcome::Removed, Some(Entry::new(1, 11, 6))));
    let absent = execute_remove(&mut board, true, 1).unwrap();
    assert_eq!((absent.code, absent.outcome), (1, Outcome::AlreadyAbsent));
}

#[test]
fn actions_must_fit_their_requests() {
    let mut board = Board::new();
    for k in 1..=5i64 {
        board.update_entry_at(k, k, 1).unwrap();
    }
    let bad = execute_action(ActionType::Get, &mut board, true, &Request::Remove { id: 1 }, 0, 0);
    assert_eq!(bad.err(), Some(Refusal::BadRequest));
    assert_eq!(board.get_size(), 5);
    assert!(ActionType::Update.writes());
    assert!(ActionType::Remove.writes());
    assert!(!ActionType::Around.writes());
    assert_eq!(Request::Board.action(), ActionType::Board);

    let around = execute_action(
        ActionType::Around,
        &mut board,
        false,
        &Request::Around { id: 3, before: 1, after: 1 },
        0,
        0,
    );
    match around {
        Ok(Reply::Single(a)) => {
            let ranks: Vec<usize> = a.entries.unwrap().iter().map(|p| p.0).collect();
            assert_eq!(ranks, vec![2, 3, 4]);
        }
        _ => panic!("an answer about one key was expected"),
    }
    let top = execute_action(ActionType::Top, &mut board, false, &Request::Top { count: 2, no_cache: false }, 9, 1);
    match top {
        Ok(Reply::Listing(v)) => assert_eq!(v.len(), 2),
        _ => panic!("a listing was expected"),
    }
    let range = execute_action(ActionType::Range, &mut board, false, &Request::Range { start: 4, end: 9 }, 9, 1);
    match range {
        Ok(Reply::Listing(v)) => assert_eq!(v.len(), 2),
        _ => panic!("a listing was expected"),
    }
    let forbidden = execute_action(ActionType::Update, &mut board, false, &Request::Update { id: 9, value: 9 }, 0, 0);
    assert_eq!(forbidden.err(), Some(Refusal::Forbidden));
}

#[test]
fn the_registry_serves_by_key() {
    let mut state = fresh();
    state.create_board("a".to_string());
    state.create_key("rw".to_string(), "a".to_string(), true);
    state.create_key("ro".to_string(), "a".to_string(), false);
    state.create_key("lost".to_string(), "ghost".to_string(), true);
    let update = Request::Update { id: 1, value: 10 };

    let none = state.serve(None, ActionType::Update, &update, 0, 1);
    assert_eq!(none.err(), Some(Denial::Key(ApiKeyError::Missing)));
    let unknown = state.serve(Some(&"nobody".to_string()), ActionType::Update, &update, 0, 1);
    assert_eq!(unknown.err(), Some(Denial::Key(ApiKeyError::Invalid)));
    let read_only = state.serve(Some(&"ro".to_string()), ActionType::Update, &update, 0, 1);
    assert_eq!(read_only.err(), Some(Denial::Refused(Refusal::Forbidden)));
    let dangling = state.serve(Some(&"lost".to_string()), ActionType::Update, &update, 0, 1);
    assert_eq!(dangling.err(), Some(Denial::Internal));
    assert_eq!(state.board_ref(0).get_size(), 0);

    assert!(state.serve(Some(&"rw".to_string()), ActionType::Update, &update, 0, 1).is_ok());
    assert_eq!(state.board_ref(0).get_entry(&1), Some(Entry::new(1, 10, 1)));
    let get = state.serve(Some(&"ro".to_string()), ActionType::Get, &Request::Get { id: 1 }, 0, 2);
    match get {
        Ok(Reply::Single(a)) => assert_eq!(a.entry, Some(Entry::new(1, 10, 1))),
        _ => panic!("an answer about one key was expected"),
    }
}

#[test]
fn saving_and_loading_keep_the_board() {
    let mut state = fresh();
    state.create_board("a".to_string());
    state.set_board_cap(&"a".to_string(), 100);
    state.create_key("rw".to_string(), "a".to_string(), true);
    for k in 0..20i64 {
        let update = Request::Update { id: k, value: (k * 3) % 7 };
        state.serve(Some(&"rw".to_string()), ActionType::Update, &update, 0, k as u64).unwrap();
    }
    assert!(state.save_image(7).is_none());
    let bytes = state.save_image(0).unwrap();
    assert!(!state.board_ref(0).is_map_snapshotted());
    let entries = decode_entries(&bytes).unwrap();
    assert_eq!(entries.len(), 20);

    let mut other = fresh();
    other.create_board("a".to_string());
    other.set_board_cap(&"a".to_string(), 100);
    other.install_entries(0, &entries);
    assert_eq!(other.board_ref(0).get_size_cap(), Some(100));
    assert_eq!(other.board_ref(0).get_ids(), state.board_ref(0).get_ids());
    assert_eq!(other.board_ref(0).get_top_cacheless(20), state.board_ref(0).get_top_cacheless(20));
}

#[test]
fn scenario_crash_recovery() {
    // the save was cut short after the part file was written
    assert_eq!(recovery_plan(false, true), Recovery::Adopt);
    assert_eq!(recovery_plan(true, true), Recovery::LoadAndSweep);
    assert_eq!(recovery_plan(true, false), Recovery::Load);
    assert_eq!(recovery_plan(false, false), Recovery::Fresh);
    assert_eq!(board_file_name("X"), "X.board");
    assert_eq!(part_file_name("X"), "X_saving.part");
    assert!(save_goes_on(SaveFault::Open));
    assert!(save_goes_on(SaveFault::Write));
    assert!(!save_goes_on(SaveFault::Rename));

    // what the part file held is what the board holds after adoption
    let mut saved = Board::new();
    for k in 0..5i64 {
        saved.update_entry_at(k, k * 2, 1).unwrap();
    }
    let part = leaderboard::codec::encode_entries(&saved.snapshot_entries());
    let loaded = Board::from_entries(&decode_entries(&part).unwrap());
    assert_eq!(loaded.get_ids(), saved.get_ids());
    assert_eq!(loaded.get_top_cacheless(5), saved.get_top_cacheless(5));
}

#[test]
fn a_save_in_steps_reads_the_board_as_it_was() {
    let mut state = fresh();
    state.create_board("a".to_string());
    state.create_key("rw".to_string(), "a".to_string(), true);
    for k in 0..3i64 {
        let update = Request::Update { id: k, value: k };
        state.serve(Some(&"rw".to_string()), ActionType::Update, &update, 0, 1).unwrap();
    }
    assert!(state.begin_save(5).is_none());
    assert!(state.saved_bytes(5).is_none());
    let receipt = state.begin_save(0).unwrap();
    assert!(state.board_ref(0).is_map_snapshotted());
    // writers go on while the save is under way
    let update = Request::Update { id: 7, value: 70 };
    state.serve(Some(&"rw".to_string()), ActionType::Update, &update, 0, 2).unwrap();
    state.serve(Some(&"rw".to_string()), ActionType::Remove, &Request::Remove { id: 0 }, 0, 2).unwrap();
    let mut saved = decode_entries(&state.saved_bytes(0).unwrap()).unwrap();
    saved.sort_by_key(|e| e.key);
    assert_eq!(saved, vec![Entry::new(0, 0, 1), Entry::new(1, 1, 1), Entry::new(2, 2, 1)]);
    assert!(state.end_save(0, receipt));
    assert!(!state.board_ref(0).is_map_snapshotted());
    let mut now = decode_entries(&state.saved_bytes(0).unwrap()).unwrap();
    now.sort_by_key(|e| e.key);
    assert_eq!(now, vec![Entry::new(1, 1, 1), Entry::new(2, 2, 1), Entry::new(7, 70, 2)]);
    assert_eq!(state.board_ref(0).get_ids(), vec![1, 2, 7]);
}
