use todo_md::calendar::Date;
use todo_md::calendar::Timestamp;
use todo_md::timefmt::format_rfc3339_utc;
use todo_md::types::DaysOfWeek;
use todo_md::types::Reccurence;
use todo_md::types::Todo;
use todo_md::types::ordinal_day;

fn ts(year: i32, month: u8, day: u8, hour: u8, minute: u8, second: u8) -> Timestamp {
    Timestamp { date: Date { year, month, day }, hour, minute, second }
}

fn now() -> Timestamp {
    ts(2026, 2, 23, 18, 0, 0)
}

fn decode(line: &str) -> Todo {
    Todo::from_str(line, &now(), 0).expect("line should decode")
}

#[test]
fn parses_weekly_reccurence_with_days() {
    let todo = decode(
        "- [_] Team sync (reccurence: weekly on tuesday, thursday, friday) (id: 123e4567-e89b-12d3-a456-426614174000)",
    );
    assert_eq!(
        todo.recurence(),
        Some(&Reccurence::Weekly(vec![
            DaysOfWeek::Tuesday,
            DaysOfWeek::Thursday,
            DaysOfWeek::Friday
        ]))
    );
}

#[test]
fn serializes_weekly_reccurence_with_days() {
    let todo = decode(
        "- [_] Gym (reccurence: weekly on tue, thurs) (id: 123e4567-e89b-12d3-a456-426614174000)",
    );
    let line = todo.to_line();
    assert!(line.contains("(reccurence: weekly on tuesday, thursday)"));
}

#[test]
fn parses_weekly_range_reccurence() {
    let todo = decode(
        "- [_] Build feature (reccurence: weekly on mon-fri) (id: 123e4567-e89b-12d3-a456-426614174000)",
    );
    assert_eq!(
        todo.recurence(),
        Some(&Reccurence::Weekly(vec![
            DaysOfWeek::Monday,
            DaysOfWeek::Tuesday,
            DaysOfWeek::Wednesday,
            DaysOfWeek::Thursday,
            DaysOfWeek::Friday,
        ]))
    );
}

#[test]
fn completed_recurring_item_rolls_due_date_forward() {
    let todo = decode(
        "- [x] Water plants (due: 2026-02-23T14:00:00Z) (reccurence: weekly on monday, thursday) (id: 123e4567-e89b-12d3-a456-426614174000)",
    );
    assert!(!todo.done());
    assert_eq!(
        format_rfc3339_utc(&todo.due_date().expect("due date")),
        "2026-02-26T14:00:00+00:00"
    );
}

#[test]
fn complete_marks_non_recurring_item_done() {
    let mut todo = Todo::new("Write docs".to_string(), &now());
    todo.complete(&now(), 0);
    assert!(todo.done());
}

#[test]
fn complete_rolls_recurring_item_forward() {
    let mut todo = decode(
        "- [_] Water plants (due: 2026-02-23T14:00:00Z) (reccurence: weekly on monday, thursday) (id: 123e4567-e89b-12d3-a456-426614174000)",
    );
    todo.complete(&now(), 0);
    assert!(!todo.done());
    assert_eq!(
        format_rfc3339_utc(&todo.due_date().expect("due date")),
        "2026-02-26T14:00:00+00:00"
    );
}

#[test]
fn parses_monthly_on_specific_day() {
    let todo = decode(
        "- [_] Pay rent (reccurence: monthly on the 1st) (id: 123e4567-e89b-12d3-a456-426614174000)",
    );
    assert_eq!(todo.recurence(), Some(&Reccurence::Monthly(Some(1))));
    assert!(todo.to_line().contains("(reccurence: monthly on 1st)"));
}

#[test]
fn encode_decode_round_trip_keeps_every_field() {
    let line = "- [_] Water plants (due: 2026-02-23T14:00:00Z) (reccurence: weekly on monday, thursday) (id: 123e4567-e89b-12d3-a456-426614174000)";
    let first = decode(line);
    let encoded = first.to_line();
    let second = Todo::from_str(encoded.as_str(), &now(), 0).expect("round trip");
    assert_eq!(first.id(), second.id());
    assert_eq!(first.done(), second.done());
    assert_eq!(first.name(), second.name());
    assert_eq!(first.due_date(), second.due_date());
    assert_eq!(first.recurence(), second.recurence());
    assert_eq!(encoded, second.to_line());
}

#[test]
fn decode_keeps_explicit_identity() {
    let todo = decode("- [_] A (id: 123e4567-e89b-12d3-a456-426614174000)");
    assert!(todo.to_line().ends_with("(id: 123e4567-e89b-12d3-a456-426614174000)"));
}

#[test]
fn decode_mints_identity_when_missing() {
    let a = decode("- [_] A");
    let b = decode("- [_] A");
    assert_ne!(a.id(), b.id());
}

#[test]
fn decode_tolerates_trailing_period() {
    let todo = decode("- [x] Ship it (id: 123e4567-e89b-12d3-a456-426614174000).");
    assert!(todo.done());
    assert_eq!(todo.name(), "Ship it");
}

#[test]
fn decode_rejects_malformed_lines() {
    assert!(Todo::from_str("- [y] Bad mark", &now(), 0).is_none());
    assert!(Todo::from_str("not a todo line", &now(), 0).is_none());
    assert!(Todo::from_str("- [] ", &now(), 0).is_none());
}

#[test]
fn unreadable_due_text_leaves_due_absent() {
    let todo = decode("- [_] A (due: ...) (id: 123e4567-e89b-12d3-a456-426614174000)");
    assert!(todo.due_date().is_none());
    assert_eq!(todo.name(), "A");
}

#[test]
fn ordinal_days_carry_their_suffixes() {
    assert_eq!(ordinal_day(1), "1st");
    assert_eq!(ordinal_day(2), "2nd");
    assert_eq!(ordinal_day(3), "3rd");
    assert_eq!(ordinal_day(4), "4th");
    assert_eq!(ordinal_day(11), "11th");
    assert_eq!(ordinal_day(12), "12th");
    assert_eq!(ordinal_day(13), "13th");
    assert_eq!(ordinal_day(21), "21st");
    assert_eq!(ordinal_day(22), "22nd");
    assert_eq!(ordinal_day(23), "23rd");
    assert_eq!(ordinal_day(31), "31st");
}

#[test]
fn seven_day_weekly_renders_as_bare_weekly() {
    let todo = decode(
        "- [_] Stretch (reccurence: weekly on mon-sun) (id: 123e4567-e89b-12d3-a456-426614174000)",
    );
    assert!(todo.to_line().contains("(reccurence: weekly)"));
}
