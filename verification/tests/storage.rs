use todo_md::calendar::Date;
use todo_md::calendar::Timestamp;
use todo_md::storage::parse_todo_content;

fn now() -> Timestamp {
    Timestamp { date: Date { year: 2026, month: 2, day: 23 }, hour: 18, minute: 0, second: 0 }
}

#[test]
fn parses_task_lines_and_skips_prose() {
    let content = "# My list\n\n- [_] A (id: 123e4567-e89b-12d3-a456-426614174000)\nplain text\n- [_] B (id: 123e4567-e89b-12d3-a456-426614174001)\n";
    let parsed = parse_todo_content(content, &now(), 0);
    assert_eq!(parsed.content, content);
    assert_eq!(parsed.todos_by_id.len(), 2);
}

#[test]
fn later_duplicate_identity_replaces_the_earlier_record() {
    let content = "- [_] Old name (id: 123e4567-e89b-12d3-a456-426614174000)\n- [_] New name (id: 123e4567-e89b-12d3-a456-426614174000)\n";
    let parsed = parse_todo_content(content, &now(), 0);
    assert_eq!(parsed.todos_by_id.len(), 1);
    assert_eq!(parsed.todos_by_id[0].name(), "New name");
}

#[test]
fn unparseable_checkbox_lines_are_skipped() {
    let content = "- [?] broken\n- [_] Good (id: 123e4567-e89b-12d3-a456-426614174000)\n";
    let parsed = parse_todo_content(content, &now(), 0);
    assert_eq!(parsed.todos_by_id.len(), 1);
}

use todo_md::storage::format_todo_content;
use todo_md::storage::validate_todo_content;

#[test]
fn validates_missing_id_and_conflicts() {
    let input = "<<<<<<< HEAD\n- [_] Task without id\n";
    let issues = validate_todo_content(input, &now(), 0);
    assert_eq!(issues.len(), 2);
    assert!(issues.iter().any(|m| m.contains("conflict marker")));
    assert!(issues.iter().any(|m| m.contains("missing required id")));
}

#[test]
fn formats_parsable_todo_lines() {
    let input =
        "- [_] Pay rent (reccurence: monthly on the 1st) (id: 123e4567-e89b-12d3-a456-426614174000)\n";
    let (formatted, issues) = format_todo_content(input, &now(), 0);
    assert!(issues.is_empty());
    assert_eq!(
        formatted,
        "- [_] Pay rent (reccurence: monthly on 1st) (id: 123e4567-e89b-12d3-a456-426614174000)\n"
    );
}

#[test]
fn reports_duplicate_identities_with_first_line() {
    let input = "- [_] A (id: 123e4567-e89b-12d3-a456-426614174000)\n- [_] B (id: 123e4567-e89b-12d3-a456-426614174000)\n";
    let issues = validate_todo_content(input, &now(), 0);
    assert_eq!(issues.len(), 1);
    assert_eq!(
        issues[0],
        "line 2: duplicate id 123e4567-e89b-12d3-a456-426614174000 (first seen on line 1)"
    );
}

#[test]
fn format_keeps_prose_and_trims_line_ends() {
    let input = "# Heading   \nplain\n- [_] A (due: 2026-02-23T14:00:00Z) (id: 123e4567-e89b-12d3-a456-426614174000)";
    let (formatted, issues) = format_todo_content(input, &now(), 0);
    assert!(issues.is_empty());
    assert_eq!(
        formatted,
        "# Heading\nplain\n- [_] A (due: 2026-02-23T14:00:00+00:00) (id: 123e4567-e89b-12d3-a456-426614174000)"
    );
}

use todo_md::storage::hydrate_todo_ids;

#[test]
fn hydrates_identity_less_task_lines() {
    let input = "# notes\n- [_] New task  \n- [_] Kept (id: 123e4567-e89b-12d3-a456-426614174000)\n";
    let (next, count, issues) = hydrate_todo_ids(input, &now(), 0);
    assert_eq!(count, 1);
    assert!(issues.is_empty());
    let lines: Vec<&str> = next.lines().collect();
    assert_eq!(lines.len(), 3);
    assert_eq!(lines[0], "# notes");
    assert!(lines[1].starts_with("- [_] New task (id: "));
    assert!(lines[1].ends_with(")"));
    assert_eq!(lines[2], "- [_] Kept (id: 123e4567-e89b-12d3-a456-426614174000)");
    assert!(next.ends_with('\n'));
}

#[test]
fn hydration_reports_unreadable_task_lines() {
    let input = "- [?] broken\n";
    let (next, count, issues) = hydrate_todo_ids(input, &now(), 0);
    assert_eq!(count, 0);
    assert_eq!(issues, vec!["line 1: todo line could not be parsed".to_string()]);
    assert_eq!(next, input);
}
