use rust_tutor_mcp::diff::{extract_hunks, hunks_from_ops, DiffOp, HunkData};
use rust_tutor_mcp::text::text_lines;

fn lines(text: &str) -> Vec<Vec<char>> {
    text_lines(text)
}

fn ten_lines() -> String {
    let mut s = String::new();
    for i in 1..=10 {
        s.push_str(&format!("line {i}\n"));
    }
    s
}

#[test]
fn scenario_single_replaced_line() {
    let hunks = extract_hunks("a\nb\nc\n", "a\nx\nc\n");
    assert_eq!(hunks.len(), 1);
    let h = &hunks[0];
    assert_eq!(h.idx, 0);
    assert_eq!((h.old_start, h.old_count, h.new_start, h.new_count), (2, 1, 2, 1));
    assert_eq!(h.before_lines, "b");
    assert_eq!(h.after_lines, "x");
}

#[test]
fn scenario_insert_into_empty_file() {
    let hunks = extract_hunks("", "hello\n");
    assert_eq!(hunks.len(), 1);
    let h = &hunks[0];
    assert_eq!(h.old_count, 0);
    assert_eq!(h.old_start, 1);
    assert_eq!(h.new_start, 1);
    assert_eq!(h.new_count, 1);
    assert_eq!(h.before_lines, "");
    assert_eq!(h.after_lines, "hello");
}

#[test]
fn scenario_two_separate_edits() {
    let old = ten_lines();
    let new = old.replace("line 2\n", "line two\n").replace("line 8\n", "line eight\n");
    let hunks = extract_hunks(&old, &new);
    assert_eq!(hunks.len(), 2);
    assert_eq!((hunks[0].idx, hunks[1].idx), (0, 1));
    assert_eq!((hunks[0].old_start, hunks[0].old_count), (2, 1));
    assert_eq!((hunks[1].old_start, hunks[1].old_count), (8, 1));
    assert!(hunks[0].old_start + hunks[0].old_count < hunks[1].old_start);
    assert!(hunks[0].new_start + hunks[0].new_count < hunks[1].new_start);
    assert_eq!(hunks[0].before_lines, "line 2");
    assert_eq!(hunks[1].after_lines, "line eight");
}

#[test]
fn identical_texts_give_no_hunk() {
    assert!(extract_hunks("", "").is_empty());
    let t = ten_lines();
    assert!(extract_hunks(&t, &t).is_empty());
}

#[test]
fn final_newline_alone_changes_no_line() {
    assert!(extract_hunks("a\nb", "a\nb\n").is_empty());
}

#[test]
fn fully_replaced_file_is_one_hunk() {
    let hunks = extract_hunks("a\nb\nc\n", "x\ny\n");
    assert_eq!(hunks.len(), 1);
    let h = &hunks[0];
    assert_eq!((h.old_start, h.old_count, h.new_start, h.new_count), (1, 3, 1, 2));
    assert_eq!(h.before_lines, "a\nb\nc");
    assert_eq!(h.after_lines, "x\ny");
}

#[test]
fn pure_deletion_at_end() {
    let hunks = extract_hunks("a\nb\nc\n", "a\n");
    assert_eq!(hunks.len(), 1);
    let h = &hunks[0];
    assert_eq!((h.old_start, h.old_count, h.new_start, h.new_count), (2, 2, 2, 0));
    assert_eq!(h.before_lines, "b\nc");
    assert_eq!(h.after_lines, "");
}

fn span<'a>(text: &'a [&'a str], start: usize, count: usize) -> &'a [&'a str] {
    &text[start - 1..start - 1 + count]
}

/// Hunks read back against both texts, and the texts rebuilt from each other.
fn check_round_trip(old: &str, new: &str) {
    let hunks = extract_hunks(old, new);
    let a: Vec<&str> = old.lines().collect();
    let b: Vec<&str> = new.lines().collect();
    let mut rebuilt_new: Vec<&str> = Vec::new();
    let mut rebuilt_old: Vec<&str> = Vec::new();
    let (mut pa, mut pb) = (0usize, 0usize);
    for (k, h) in hunks.iter().enumerate() {
        assert_eq!(h.idx, k);
        assert_eq!(h.before_lines, span(&a, h.old_start, h.old_count).join("\n"));
        assert_eq!(h.after_lines, span(&b, h.new_start, h.new_count).join("\n"));
        assert_eq!(a[pa..h.old_start - 1], b[pb..h.new_start - 1]);
        rebuilt_new.extend_from_slice(&a[pa..h.old_start - 1]);
        rebuilt_new.extend_from_slice(span(&b, h.new_start, h.new_count));
        rebuilt_old.extend_from_slice(&b[pb..h.new_start - 1]);
        rebuilt_old.extend_from_slice(span(&a, h.old_start, h.old_count));
        pa = h.old_start - 1 + h.old_count;
        pb = h.new_start - 1 + h.new_count;
    }
    rebuilt_new.extend_from_slice(&a[pa..]);
    rebuilt_old.extend_from_slice(&b[pb..]);
    assert_eq!(rebuilt_new, b);
    assert_eq!(rebuilt_old, a);
}

#[test]
fn hunks_rebuild_both_texts() {
    check_round_trip("a\nb\nc\n", "a\nx\nc\n");
    check_round_trip("", "hello\n");
    check_round_trip("one\ntwo\nthree\nfour\nfive\n", "zero\none\nthree\nfour\n4.5\nfive\nsix\n");
    let old = ten_lines();
    check_round_trip(&old, &old.replace("line 3\n", "").replace("line 9\n", "nine\nnine!\n"));
}

#[test]
fn old_starts_strictly_increase() {
    let old = ten_lines();
    let new = old.replace("line 1\n", "first\n").replace("line 5\n", "").replace("line 10\n", "last\n");
    let hunks = extract_hunks(&old, &new);
    assert_eq!(hunks.len(), 3);
    for w in hunks.windows(2) {
        assert!(w[0].old_start < w[1].old_start);
        assert!(w[0].new_start < w[1].new_start);
        assert_eq!(w[0].idx + 1, w[1].idx);
    }
}

#[test]
fn runs_are_grouped_between_shared_lines() {
    let a = lines("a\nb\nc\nd\n");
    let b = lines("a\nx\ny\nd\nz\n");
    let ops = vec![
        DiffOp::Equal { len: 1 },
        DiffOp::Delete { old_len: 1 },
        DiffOp::Replace { old_len: 1, new_len: 2 },
        DiffOp::Equal { len: 1 },
        DiffOp::Insert { new_len: 1 },
    ];
    let hunks: Vec<HunkData> = hunks_from_ops(&a, &b, &ops);
    assert_eq!(hunks.len(), 2);
    assert_eq!((hunks[0].old_start, hunks[0].old_count, hunks[0].new_start, hunks[0].new_count), (2, 2, 2, 2));
    assert_eq!(hunks[0].before_lines, "b\nc");
    assert_eq!(hunks[0].after_lines, "x\ny");
    assert_eq!((hunks[1].old_start, hunks[1].old_count, hunks[1].new_start, hunks[1].new_count), (5, 0, 5, 1));
    assert_eq!(hunks[1].after_lines, "z");
}

#[test]
fn empty_runs_do_not_split_hunks() {
    let a = lines("a\nb\n");
    let b = lines("x\ny\n");
    let ops = vec![
        DiffOp::Delete { old_len: 1 },
        DiffOp::Equal { len: 0 },
        DiffOp::Insert { new_len: 0 },
        DiffOp::Replace { old_len: 1, new_len: 2 },
    ];
    let hunks = hunks_from_ops(&a, &b, &ops);
    assert_eq!(hunks.len(), 1);
    assert_eq!((hunks[0].old_start, hunks[0].old_count, hunks[0].new_start, hunks[0].new_count), (1, 2, 1, 2));
}

#[test]
fn only_equal_runs_give_no_hunk() {
    let a = lines("a\nb\n");
    assert!(hunks_from_ops(&a, &a, &vec![DiffOp::Equal { len: 2 }]).is_empty());
}

#[test]
fn lines_drop_terminators() {
    let l = lines("a\n\nb");
    let as_strings: Vec<String> = l.iter().map(|x| x.iter().collect()).collect();
    assert_eq!(as_strings, vec!["a", "", "b"]);
    assert!(lines("").is_empty());
    assert_eq!(lines("x\n").len(), 1);
    assert_eq!(lines("héllo"), vec![vec!['h', 'é', 'l', 'l', 'o']]);
}
