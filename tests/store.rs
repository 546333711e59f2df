use rust_tutor_mcp::store::{
    contains_pattern, order_by_hunk_index, pick_project_slug, select_for_group, select_for_path,
    summarize_groups, ChangeStamp, FileChangeRecord, TutorStore,
};
use rust_tutor_mcp::time::Timestamp;

fn at(secs: i64) -> Timestamp {
    Timestamp { secs, nanos: 0 }
}

fn record(path: &str, change_id: &str, hunk_idx: i64, secs: i64) -> FileChangeRecord {
    FileChangeRecord {
        id: 0,
        file_path: path.to_string(),
        hunk_idx,
        change_id: change_id.to_string(),
        old_start: hunk_idx * 10 + 1,
        old_count: 1,
        new_start: hunk_idx * 10 + 1,
        new_count: 1,
        before_lines: format!("old {hunk_idx}"),
        after_lines: format!("new {hunk_idx}"),
        changed_at: at(secs),
    }
}

fn memory_store() -> TutorStore {
    TutorStore::with_connection(rusqlite::Connection::open_in_memory().unwrap()).unwrap()
}

fn stamp(change_id: &str, path: &str, secs: i64) -> ChangeStamp {
    ChangeStamp { change_id: change_id.to_string(), file_path: path.to_string(), changed_at: at(secs) }
}

#[test]
fn unknown_file_has_no_changes() {
    let store = memory_store();
    let changes = store.get_changes_for_file("src/nowhere.rs", 5).unwrap();
    assert!(changes.is_empty());
    assert!(store.get_changes_for_change_id("no-such-group").unwrap().is_empty());
    assert!(store.list_recent_change_ids(5).unwrap().is_empty());
}

#[test]
fn one_save_event_is_one_group_row() {
    let store = memory_store();
    for k in 0..3 {
        store.save_file_change(&record("src/lib.rs", "group-1", k, 100)).unwrap();
    }
    let groups = store.list_recent_change_ids(5).unwrap();
    assert_eq!(groups.len(), 1);
    assert_eq!(groups[0].change_id, "group-1");
    assert_eq!(groups[0].file_path, "src/lib.rs");
    assert_eq!(groups[0].hunk_count, 3);
    assert_eq!(groups[0].changed_at, at(100));
}

#[test]
fn groups_are_listed_latest_first_and_limited() {
    let store = memory_store();
    store.save_file_change(&record("a.rs", "g-old", 0, 100)).unwrap();
    store.save_file_change(&record("b.rs", "g-new", 0, 200)).unwrap();
    store.save_file_change(&record("b.rs", "g-new", 1, 200)).unwrap();
    store.save_file_change(&record("c.rs", "g-mid", 0, 150)).unwrap();
    let groups = store.list_recent_change_ids(5).unwrap();
    let ids: Vec<&str> = groups.iter().map(|g| g.change_id.as_str()).collect();
    assert_eq!(ids, vec!["g-new", "g-mid", "g-old"]);
    assert_eq!(groups[0].hunk_count, 2);
    assert_eq!(store.list_recent_change_ids(2).unwrap().len(), 2);
    assert_eq!(store.list_recent_change_ids(-1).unwrap().len(), 3);
}

#[test]
fn ids_increase_with_each_append() {
    let store = memory_store();
    let first = store.save_file_change(&record("a.rs", "g", 0, 1)).unwrap();
    let second = store.save_file_change(&record("a.rs", "g", 1, 1)).unwrap();
    assert!(second > first);
}

#[test]
fn file_changes_newest_first_and_limited() {
    let store = memory_store();
    store.save_file_change(&record("a.rs", "g1", 0, 100)).unwrap();
    store.save_file_change(&record("b.rs", "g2", 0, 150)).unwrap();
    store.save_file_change(&record("a.rs", "g3", 0, 200)).unwrap();
    store.save_file_change(&record("a.rs", "g4", 0, 300)).unwrap();
    let changes = store.get_changes_for_file("a.rs", 2).unwrap();
    assert_eq!(changes.len(), 2);
    assert_eq!(changes[0].change_id, "g4");
    assert_eq!(changes[1].change_id, "g3");
    assert!(changes.iter().all(|c| c.file_path == "a.rs"));
    let all = store.get_changes_for_file("a.rs", -1).unwrap();
    assert_eq!(all.len(), 3);
}

#[test]
fn group_comes_back_in_hunk_order() {
    let store = memory_store();
    store.save_file_change(&record("a.rs", "g", 2, 10)).unwrap();
    store.save_file_change(&record("a.rs", "g", 0, 10)).unwrap();
    store.save_file_change(&record("a.rs", "other", 0, 10)).unwrap();
    store.save_file_change(&record("a.rs", "g", 1, 10)).unwrap();
    let group = store.get_changes_for_change_id("g").unwrap();
    let order: Vec<i64> = group.iter().map(|r| r.hunk_idx).collect();
    assert_eq!(order, vec![0, 1, 2]);
    assert_eq!(group[1].before_lines, "old 1");
    assert_eq!(group[1].after_lines, "new 1");
    assert_eq!(group[1].old_start, 11);
    assert!(group.iter().all(|r| r.change_id == "g" && r.id > 0));
}

#[test]
fn stored_time_comes_back_exactly() {
    let store = memory_store();
    let mut rec = record("a.rs", "g", 0, 1_700_000_000);
    rec.changed_at = Timestamp { secs: 1_700_000_000, nanos: 123_456_789 };
    store.save_file_change(&rec).unwrap();
    let back = store.get_changes_for_change_id("g").unwrap();
    assert_eq!(back[0].changed_at, rec.changed_at);
}

#[test]
fn schema_creation_can_repeat() {
    let conn = rusqlite::Connection::open_in_memory().unwrap();
    conn.execute_batch("CREATE TABLE IF NOT EXISTS file_changes (id INTEGER PRIMARY KEY, file_path TEXT NOT NULL, hunk_idx INTEGER NOT NULL, change_id TEXT NOT NULL, old_start INTEGER NOT NULL, old_count INTEGER NOT NULL, new_start INTEGER NOT NULL, new_count INTEGER NOT NULL, before_lines TEXT NOT NULL, after_lines TEXT NOT NULL, changed_at TEXT NOT NULL)").unwrap();
    assert!(TutorStore::with_connection(conn).is_ok());
}

#[test]
fn selecting_keeps_order_and_limit() {
    let rows = vec![record("a", "1", 0, 5), record("b", "2", 0, 4), record("a", "3", 0, 3), record("a", "4", 0, 2)];
    let kept = select_for_path(rows, "a", 2);
    let ids: Vec<&str> = kept.iter().map(|r| r.change_id.as_str()).collect();
    assert_eq!(ids, vec!["1", "3"]);
    let rows = vec![record("a", "1", 0, 5), record("b", "2", 0, 4)];
    assert_eq!(select_for_path(rows, "a", -1).len(), 1);
    let rows = vec![record("a", "x", 0, 5), record("b", "y", 0, 4), record("c", "x", 1, 3)];
    let kept = select_for_group(rows, "x");
    assert_eq!(kept.len(), 2);
    assert_eq!(kept[1].file_path, "c");
}

#[test]
fn ordering_by_hunk_index() {
    let rows = vec![record("a", "g", 3, 0), record("a", "g", 1, 0), record("a", "g", 2, 0), record("a", "g", 0, 0)];
    let sorted = order_by_hunk_index(rows);
    let order: Vec<i64> = sorted.iter().map(|r| r.hunk_idx).collect();
    assert_eq!(order, vec![0, 1, 2, 3]);
    assert!(order_by_hunk_index(Vec::new()).is_empty());
}

#[test]
fn summaries_count_and_keep_first_stamp() {
    let rows = vec![
        stamp("g1", "a.rs", 30),
        stamp("g2", "b.rs", 20),
        stamp("g1", "a.rs", 10),
        stamp("g1", "a.rs", 5),
    ];
    let sums = summarize_groups(&rows, 5);
    assert_eq!(sums.len(), 2);
    assert_eq!((sums[0].change_id.as_str(), sums[0].hunk_count, sums[0].changed_at), ("g1", 3, at(30)));
    assert_eq!((sums[1].change_id.as_str(), sums[1].hunk_count), ("g2", 1));
    assert_eq!(summarize_groups(&rows, 1).len(), 1);
    assert_eq!(summarize_groups(&rows, 0).len(), 0);
}

#[test]
fn scaffolds_round_trip() {
    let store = memory_store();
    let id = store.save_scaffold("a cli tool", "step 1", at(10)).unwrap();
    store.save_scaffold("a web server", "step A", at(20)).unwrap();
    let found = store.search_scaffolds("cli").unwrap();
    assert_eq!(found.len(), 1);
    assert_eq!(found[0].content, "step 1");
    let one = store.get_scaffold_by_id(id).unwrap().unwrap();
    assert_eq!(one.description, "a cli tool");
    assert!(store.get_scaffold_by_id(id + 100).unwrap().is_none());
    let recent = store.list_recent_scaffolds(5).unwrap();
    assert_eq!(recent[0].description, "a web server");
    assert_eq!(store.list_recent_scaffolds(1).unwrap().len(), 1);
}

#[test]
fn like_pattern_wraps_query() {
    assert_eq!(contains_pattern("cli"), "%cli%");
    assert_eq!(contains_pattern(""), "%%");
}

#[test]
fn project_slug_fallbacks() {
    assert_eq!(pick_project_slug(Some("repo".to_string()), Some("cwd".to_string())), "repo");
    assert_eq!(pick_project_slug(None, Some("cwd".to_string())), "cwd");
    assert_eq!(pick_project_slug(None, None), "default");
}
