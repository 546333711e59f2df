use rusqlite::OpenFlags;
use rust_tutor_mcp::store::TutorStore;
use rust_tutor_mcp::time::Timestamp;
use rust_tutor_mcp::watcher::{ChangeOutcome, WatcherState};

fn now() -> Timestamp {
    Timestamp { secs: 1_700_000_000, nanos: 5 }
}

fn memory_store() -> TutorStore {
    TutorStore::with_connection(rusqlite::Connection::open_in_memory().unwrap()).unwrap()
}

fn shared_memory(name: &str) -> rusqlite::Connection {
    rusqlite::Connection::open_with_flags(
        format!("file:{name}?mode=memory&cache=shared"),
        OpenFlags::SQLITE_OPEN_READ_WRITE | OpenFlags::SQLITE_OPEN_CREATE | OpenFlags::SQLITE_OPEN_URI,
    )
    .unwrap()
}

fn ten_lines() -> String {
    (1..=10).map(|i| format!("line {i}\n")).collect()
}

#[test]
fn first_sight_records_whole_file() {
    let store = memory_store();
    let mut state = WatcherState::new(store.clone());
    match state.process_event("src/a.rs", "x\ny\n".to_string(), now()) {
        ChangeOutcome::Recorded { change_id, records } => {
            assert_eq!(change_id.len(), 36);
            assert_eq!(records.len(), 1);
            let r = &records[0];
            assert_eq!((r.old_start, r.old_count, r.new_start, r.new_count), (1, 0, 1, 2));
            assert_eq!(r.after_lines, "x\ny");
            assert_eq!(r.file_path, "src/a.rs");
            assert_eq!(r.changed_at, now());
            assert!(r.id > 0);
            let stored = store.get_changes_for_change_id(&change_id).unwrap();
            assert_eq!(stored.len(), 1);
            assert_eq!(stored[0].after_lines, "x\ny");
        }
        other => panic!("unexpected outcome {other:?}"),
    }
}

#[test]
fn touch_without_change_records_nothing() {
    let store = memory_store();
    let mut state = WatcherState::new(store.clone());
    state.remember("a.rs".to_string(), "same\n".to_string());
    assert!(matches!(state.process_event("a.rs", "same\n".to_string(), now()), ChangeOutcome::Unchanged));
    assert!(matches!(state.process_event("new.rs", String::new(), now()), ChangeOutcome::Unchanged));
    assert!(store.list_recent_change_ids(5).unwrap().is_empty());
}

#[test]
fn snapshot_moves_on_after_commit() {
    let store = memory_store();
    let mut state = WatcherState::new(store.clone());
    state.remember("a.rs".to_string(), "a\nb\nc\n".to_string());
    match state.process_event("a.rs", "a\nx\nc\n".to_string(), now()) {
        ChangeOutcome::Recorded { records, .. } => {
            assert_eq!(records.len(), 1);
            assert_eq!((records[0].old_start, records[0].old_count), (2, 1));
            assert_eq!(records[0].before_lines, "b");
            assert_eq!(records[0].after_lines, "x");
        }
        other => panic!("unexpected outcome {other:?}"),
    }
    assert!(matches!(state.process_event("a.rs", "a\nx\nc\n".to_string(), now()), ChangeOutcome::Unchanged));
}

#[test]
fn one_save_with_two_edits_is_one_group() {
    let store = memory_store();
    let mut state = WatcherState::new(store.clone());
    let old = ten_lines();
    state.remember("a.rs".to_string(), old.clone());
    let new = old.replace("line 2\n", "two\n").replace("line 9\n", "nine\n");
    let id = match state.process_event("a.rs", new, now()) {
        ChangeOutcome::Recorded { change_id, records } => {
            assert_eq!(records.len(), 2);
            assert_eq!((records[0].hunk_idx, records[1].hunk_idx), (0, 1));
            assert!(records.iter().all(|r| r.change_id == change_id));
            change_id
        }
        other => panic!("unexpected outcome {other:?}"),
    };
    let groups = store.list_recent_change_ids(5).unwrap();
    assert_eq!(groups.len(), 1);
    assert_eq!(groups[0].change_id, id);
    assert_eq!(groups[0].hunk_count, 2);
}

#[test]
fn separate_saves_mint_separate_groups() {
    let store = memory_store();
    let mut state = WatcherState::new(store.clone());
    state.process_event("a.rs", "1\n".to_string(), now());
    state.process_event("a.rs", "1\n2\n".to_string(), now());
    state.process_event("b.rs", "b\n".to_string(), now());
    assert_eq!(store.list_recent_change_ids(5).unwrap().len(), 3);
}

#[test]
fn line_break_only_moves_snapshot() {
    let store = memory_store();
    let mut state = WatcherState::new(store.clone());
    state.remember("a.rs".to_string(), "a".to_string());
    assert!(matches!(state.process_event("a.rs", "a\n".to_string(), now()), ChangeOutcome::NoLineChange));
    assert!(matches!(state.process_event("a.rs", "a\n".to_string(), now()), ChangeOutcome::Unchanged));
    assert!(store.list_recent_change_ids(5).unwrap().is_empty());
}

#[test]
fn deleted_file_starts_over_from_empty() {
    let store = memory_store();
    let mut state = WatcherState::new(store.clone());
    state.remember("a.rs".to_string(), "a\n".to_string());
    state.forget("a.rs");
    match state.process_event("a.rs", "a\n".to_string(), now()) {
        ChangeOutcome::Recorded { records, .. } => {
            assert_eq!(records.len(), 1);
            assert_eq!(records[0].old_count, 0);
            assert_eq!(records[0].after_lines, "a");
        }
        other => panic!("unexpected outcome {other:?}"),
    }
}

#[test]
fn failed_write_keeps_baseline_and_next_cycle_repeats_hunks() {
    let keeper = shared_memory("tracker_failure");
    let store = TutorStore::with_connection(shared_memory("tracker_failure")).unwrap();
    let mut state = WatcherState::new(store.clone());
    state.remember("a.rs".to_string(), "a\nb\nc\n".to_string());
    keeper.execute_batch("DROP TABLE file_changes").unwrap();
    match state.process_event("a.rs", "a\nx\nc\n".to_string(), now()) {
        ChangeOutcome::PersistFailed { saved, .. } => assert_eq!(saved, 0),
        other => panic!("unexpected outcome {other:?}"),
    }
    let again = TutorStore::with_connection(shared_memory("tracker_failure")).unwrap();
    match state.process_event("a.rs", "a\nx\nc\n".to_string(), now()) {
        ChangeOutcome::Recorded { change_id, records } => {
            assert_eq!(records.len(), 1);
            assert_eq!((records[0].old_start, records[0].old_count, records[0].new_start, records[0].new_count), (2, 1, 2, 1));
            assert_eq!(records[0].before_lines, "b");
            assert_eq!(records[0].after_lines, "x");
            assert_eq!(again.get_changes_for_change_id(&change_id).unwrap().len(), 1);
        }
        other => panic!("unexpected outcome {other:?}"),
    }
}
