use rust_tutor_mcp::report::{decimal, join_or_empty};
use rust_tutor_mcp::store::{FileChangeRecord, SaveEventSummary, ScaffoldRecord};
use rust_tutor_mcp::time::Timestamp;
use rust_tutor_mcp::tools::{limit_or_default, DEFAULT_LIST_LIMIT};

fn epoch() -> Timestamp {
    Timestamp { secs: 0, nanos: 0 }
}

#[test]
fn decimals() {
    assert_eq!(decimal(0), "0");
    assert_eq!(decimal(7), "7");
    assert_eq!(decimal(1234), "1234");
    assert_eq!(decimal(-56), "-56");
    assert_eq!(decimal(i64::MAX), i64::MAX.to_string());
    assert_eq!(decimal(i64::MIN), i64::MIN.to_string());
}

#[test]
fn scaffold_detail_shows_time() {
    let rec = ScaffoldRecord {
        id: 3,
        description: "cli".into(),
        content: "plan".into(),
        created_at: Timestamp { secs: 1431648000, nanos: 0 },
    };
    assert_eq!(rec.format_detail(), "**ID 3** (2015-05-15 00:00:00 UTC): cli\nplan");
}

#[test]
fn validity_of_instants() {
    assert!(epoch().is_valid());
    assert!(!Timestamp { secs: 0, nanos: 1_000_000_000 }.is_valid());
    assert!(!Timestamp { secs: i64::MAX, nanos: 0 }.is_valid());
}

#[test]
fn summary_text_counts_hunks() {
    let one = SaveEventSummary { change_id: "g".into(), file_path: "a.rs".into(), changed_at: epoch(), hunk_count: 1 };
    assert_eq!(one.format_summary(), "**ID g** `a.rs` (1970-01-01 00:00:00 UTC):\n\n1 hunk");
    let three = SaveEventSummary { hunk_count: 3, ..one };
    assert_eq!(three.format_summary(), "**ID g** `a.rs` (1970-01-01 00:00:00 UTC):\n\n3 hunks");
}

#[test]
fn change_text() {
    let rec = FileChangeRecord {
        id: 4,
        file_path: "a.rs".into(),
        hunk_idx: 0,
        change_id: "g".into(),
        old_start: 2,
        old_count: 1,
        new_start: 2,
        new_count: 1,
        before_lines: "b".into(),
        after_lines: "x".into(),
        changed_at: epoch(),
    };
    assert_eq!(
        rec.format_changes(),
        "**ID 4** `a.rs` (1970-01-01 00:00:00 UTC):\n\n@@ -2,1 +2,1 @@\n\nBefore:\n```\nb\n```\n\nAfter:\n```\nx\n```"
    );
}

#[test]
fn scaffold_text() {
    let rec = ScaffoldRecord { id: 12, description: "cli".into(), content: "plan".into(), created_at: epoch() };
    assert_eq!(rec.format_changes(), "**ID 12**: cli\nplan");
}

#[test]
fn joining_items() {
    let none: Vec<i64> = Vec::new();
    assert_eq!(join_or_empty(&none, "nothing", |n| decimal(*n)), "nothing");
    assert_eq!(join_or_empty(&[1i64], "nothing", |n| decimal(*n)), "1");
    assert_eq!(join_or_empty(&[1i64, 2, 3], "nothing", |n| decimal(*n)), "1\n\n---\n\n2\n\n---\n\n3");
}

#[test]
fn default_limit() {
    assert_eq!(limit_or_default(None), DEFAULT_LIST_LIMIT);
    assert_eq!(limit_or_default(Some(9)), 9);
    assert_eq!(DEFAULT_LIST_LIMIT, 5);
}
