use todo_md::calendar::Date;
use todo_md::calendar::Timestamp;
use todo_md::diff::ChangeKind;
use todo_md::diff::line_diff_summary;
use todo_md::diff::semantic_changes;
use todo_md::storage::ParsedTodoFile;
use todo_md::types::Todo;

fn now() -> Timestamp {
    Timestamp { date: Date { year: 2026, month: 2, day: 23 }, hour: 18, minute: 0, second: 0 }
}

fn decode(line: &str) -> Todo {
    Todo::from_str(line, &now(), 0).expect("line should decode")
}

fn snapshot(lines: &[&str]) -> ParsedTodoFile {
    let mut todos = Vec::new();
    for line in lines {
        todos.push(decode(line));
    }
    ParsedTodoFile { content: "".to_string(), todos_by_id: todos }
}

#[test]
fn classifies_added_updated_and_deleted() {
    let old = snapshot(&[
        "- [_] A (id: 123e4567-e89b-12d3-a456-426614174000)",
        "- [_] B (id: 123e4567-e89b-12d3-a456-426614174001)",
    ]);
    let new = snapshot(&[
        "- [_] A changed (id: 123e4567-e89b-12d3-a456-426614174000)",
        "- [_] C (id: 123e4567-e89b-12d3-a456-426614174002)",
    ]);
    let changes = semantic_changes(&old, &new, 0);
    assert_eq!(changes.added, 1);
    assert_eq!(changes.updated, 1);
    assert_eq!(changes.deleted, 1);
    assert_eq!(changes.completed, 0);
}

#[test]
fn classifies_rollover_as_completion() {
    let old = snapshot(&[
        "- [_] Water plants (due: 2026-02-23T14:00:00Z) (reccurence: weekly on monday, thursday) (id: 123e4567-e89b-12d3-a456-426614174000)",
    ]);
    let new = snapshot(&[
        "- [_] Water plants (due: 2026-02-26T14:00:00Z) (reccurence: weekly on monday, thursday) (id: 123e4567-e89b-12d3-a456-426614174000)",
    ]);
    let changes = semantic_changes(&old, &new, 0);
    assert_eq!(changes.completed, 1);
    assert_eq!(changes.updated, 0);
}

#[test]
fn deleted_task_yields_exactly_one_deleted_entry() {
    let old = snapshot(&[
        "- [_] A (id: 123e4567-e89b-12d3-a456-426614174000)",
        "- [_] B (id: 123e4567-e89b-12d3-a456-426614174001)",
    ]);
    let new = snapshot(&["- [_] B (id: 123e4567-e89b-12d3-a456-426614174001)"]);
    let changes = semantic_changes(&old, &new, 0);
    assert_eq!(changes.deleted, 1);
    assert_eq!(changes.added, 0);
    assert_eq!(changes.updated, 0);
    assert_eq!(changes.completed, 0);
    let mut seen = 0;
    for ch in &changes.changes {
        if ch.id == 0x123e4567e89b12d3a456426614174000u128 {
            seen += 1;
            assert!(matches!(ch.kind, ChangeKind::Deleted));
        }
    }
    assert_eq!(seen, 1);
}

#[test]
fn done_flag_switch_counts_as_completion() {
    let old = snapshot(&["- [_] Read (id: 123e4567-e89b-12d3-a456-426614174000)"]);
    let new = snapshot(&["- [x] Read (id: 123e4567-e89b-12d3-a456-426614174000)"]);
    let changes = semantic_changes(&old, &new, 0);
    assert_eq!(changes.completed, 1);
    assert_eq!(changes.updated, 0);
}

#[test]
fn edited_due_date_without_rollover_is_an_update() {
    let old = snapshot(&[
        "- [_] Water plants (due: 2026-02-23T14:00:00Z) (reccurence: weekly on monday, thursday) (id: 123e4567-e89b-12d3-a456-426614174000)",
    ]);
    let new = snapshot(&[
        "- [_] Water plants (due: 2026-02-27T14:00:00Z) (reccurence: weekly on monday, thursday) (id: 123e4567-e89b-12d3-a456-426614174000)",
    ]);
    let changes = semantic_changes(&old, &new, 0);
    assert_eq!(changes.completed, 0);
    assert_eq!(changes.updated, 1);
}

#[test]
fn identical_snapshots_yield_no_changes() {
    let old = snapshot(&["- [_] A (id: 123e4567-e89b-12d3-a456-426614174000)"]);
    let new = snapshot(&["- [_] A (id: 123e4567-e89b-12d3-a456-426614174000)"]);
    let changes = semantic_changes(&old, &new, 0);
    assert!(changes.is_empty());
    assert_eq!(changes.changes.len(), 0);
}

#[test]
fn line_diff_counts_insertions_and_removals() {
    let summary = line_diff_summary("a\nb\nc\n", "a\nx\nc\ny\n");
    assert_eq!(summary, "line diff (+2/-1)");
}

#[test]
fn line_diff_of_identical_text_is_empty() {
    let summary = line_diff_summary("a\nb\n", "a\nb\n");
    assert_eq!(summary, "line diff (+0/-0)");
}
