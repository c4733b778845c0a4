use todo_md::calendar::Date;
use todo_md::calendar::Timestamp;
use todo_md::recurrence_parser::next_due_date_utc;
use todo_md::recurrence_parser::parse_reccurence;
use todo_md::timefmt::format_rfc3339_utc;
use todo_md::types::DaysOfWeek;
use todo_md::types::Reccurence;

fn ts(year: i32, month: u8, day: u8, hour: u8, minute: u8, second: u8) -> Timestamp {
    Timestamp { date: Date { year, month, day }, hour, minute, second }
}

fn fixed_local() -> Timestamp {
    ts(2026, 2, 23, 12, 0, 0)
}

#[test]
fn parses_weekly_range() {
    let parsed = parse_reccurence("weekly on mon-fri", &fixed_local()).expect("valid parse");
    assert_eq!(
        parsed,
        Reccurence::Weekly(vec![
            DaysOfWeek::Monday,
            DaysOfWeek::Tuesday,
            DaysOfWeek::Wednesday,
            DaysOfWeek::Thursday,
            DaysOfWeek::Friday
        ])
    );
}

#[test]
fn parses_wrapping_weekly_range() {
    let parsed = parse_reccurence("weekly on fri-mon", &fixed_local()).expect("valid parse");
    assert_eq!(
        parsed,
        Reccurence::Weekly(vec![
            DaysOfWeek::Friday,
            DaysOfWeek::Saturday,
            DaysOfWeek::Sunday,
            DaysOfWeek::Monday
        ])
    );
}

#[test]
fn defaults_plain_weekly_to_local_today() {
    let monday_noon = ts(2026, 2, 23, 12, 0, 0);
    let parsed = parse_reccurence("weekly", &monday_noon).expect("valid parse");
    assert_eq!(parsed, Reccurence::Weekly(vec![DaysOfWeek::Monday]));
}

#[test]
fn parses_monthly_with_ordinal_day() {
    let parsed = parse_reccurence("monthly on the 18th", &fixed_local()).expect("valid parse");
    assert_eq!(parsed, Reccurence::Monthly(Some(18)));
}

#[test]
fn parses_monthly_with_short_ordinal_day() {
    let parsed = parse_reccurence("monthly on 1st", &fixed_local()).expect("valid parse");
    assert_eq!(parsed, Reccurence::Monthly(Some(1)));
}

#[test]
fn advances_weekly_due_to_next_selected_day() {
    let due = ts(2026, 2, 23, 14, 0, 0);
    let recurrence = Reccurence::Weekly(vec![DaysOfWeek::Monday, DaysOfWeek::Thursday]);
    let next = next_due_date_utc(&due, &recurrence, 0).expect("next due");
    assert_eq!(format_rfc3339_utc(&next), "2026-02-26T14:00:00+00:00");
}

#[test]
fn advances_monthly_with_month_end_clamp() {
    let due = ts(2026, 1, 31, 10, 30, 0);
    let next = next_due_date_utc(&due, &Reccurence::Monthly(None), 0).expect("next due");
    assert_eq!(format_rfc3339_utc(&next), "2026-02-28T10:30:00+00:00");
}

#[test]
fn advances_monthly_specific_day_with_clamp() {
    let due = ts(2026, 1, 18, 10, 30, 0);
    let next = next_due_date_utc(&due, &Reccurence::Monthly(Some(31)), 0).expect("next due");
    assert_eq!(format_rfc3339_utc(&next), "2026-02-28T10:30:00+00:00");
}

#[test]
fn advances_daily_by_one_day() {
    let due = ts(2026, 12, 31, 8, 15, 0);
    let next = next_due_date_utc(&due, &Reccurence::Daily, 0).expect("next due");
    assert_eq!(format_rfc3339_utc(&next), "2027-01-01T08:15:00+00:00");
}

#[test]
fn advances_yearly_with_leap_day_clamp() {
    let due = ts(2028, 2, 29, 6, 0, 0);
    let next = next_due_date_utc(&due, &Reccurence::Yearly, 0).expect("next due");
    assert_eq!(format_rfc3339_utc(&next), "2029-02-28T06:00:00+00:00");
}

#[test]
fn next_occurrence_strictly_advances() {
    let due = ts(2026, 2, 23, 14, 0, 0);
    let patterns = vec![
        Reccurence::Daily,
        Reccurence::Weekly(vec![DaysOfWeek::Monday]),
        Reccurence::Monthly(None),
        Reccurence::Monthly(Some(23)),
        Reccurence::Yearly,
    ];
    for p in &patterns {
        let next = next_due_date_utc(&due, p, 0).expect("next due");
        assert!(format_rfc3339_utc(&next) > format_rfc3339_utc(&due));
    }
}

#[test]
fn rejects_unknown_phrases() {
    assert!(parse_reccurence("fortnightly", &fixed_local()).is_none());
    assert!(parse_reccurence("weekly on ", &fixed_local()).is_none());
    assert!(parse_reccurence("monthly on 32nd", &fixed_local()).is_none());
    assert!(parse_reccurence("monthly on 0th", &fixed_local()).is_none());
    assert!(parse_reccurence("weekly on qqq", &fixed_local()).is_none());
}

#[test]
fn weekly_list_tolerates_and_separators_and_duplicates() {
    let parsed = parse_reccurence("weekly on mon and thu, mon", &fixed_local()).expect("parse");
    assert_eq!(parsed, Reccurence::Weekly(vec![DaysOfWeek::Monday, DaysOfWeek::Thursday]));
}

#[test]
fn weekday_alias_typo_parses_like_full_name() {
    let a = parse_reccurence("weekly on thurdsay", &fixed_local()).expect("typo");
    let b = parse_reccurence("weekly on thursday", &fixed_local()).expect("canonical");
    assert_eq!(a, b);
}
