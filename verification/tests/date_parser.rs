use todo_md::calendar::Date;
use todo_md::calendar::Timestamp;
use todo_md::date_parser::parse_human_datetime;
use todo_md::date_parser::parse_human_datetime_with_tz;
use todo_md::timefmt::format_rfc3339_utc;

fn ts(year: i32, month: u8, day: u8, hour: u8, minute: u8, second: u8) -> Timestamp {
    Timestamp { date: Date { year, month, day }, hour, minute, second }
}

fn now_utc() -> Timestamp {
    ts(2026, 2, 23, 18, 0, 0)
}

fn et() -> i32 {
    -5 * 3600
}

#[test]
fn parses_today_keyword() {
    let dt = parse_human_datetime_with_tz("today", &now_utc(), et()).expect("parse today");
    assert_eq!(format_rfc3339_utc(&dt), "2026-02-24T04:59:00+00:00");
}

#[test]
fn parses_tomorrow_typo() {
    let dt = parse_human_datetime_with_tz("tomorow", &now_utc(), et()).expect("parse tomorrow");
    assert_eq!(format_rfc3339_utc(&dt), "2026-02-25T04:59:00+00:00");
}

#[test]
fn parses_weekday_typo() {
    let dt = parse_human_datetime_with_tz("tuesdy", &now_utc(), et()).expect("parse weekday");
    assert_eq!(format_rfc3339_utc(&dt), "2026-02-25T04:59:00+00:00");
}

#[test]
fn parses_time_with_spacing_variants() {
    let a = parse_human_datetime_with_tz("9:00PM", &now_utc(), et()).expect("parse A");
    let b = parse_human_datetime_with_tz("9:00 pm", &now_utc(), et()).expect("parse B");
    let c = parse_human_datetime_with_tz("9:00pm", &now_utc(), et()).expect("parse C");
    assert_eq!(a, b);
    assert_eq!(b, c);
    assert_eq!(format_rfc3339_utc(&a), "2026-02-24T02:00:00+00:00");
}

#[test]
fn parses_time_with_utc_suffix() {
    let dt = parse_human_datetime_with_tz("9:00PM UTC", &now_utc(), et()).expect("parse UTC");
    assert_eq!(format_rfc3339_utc(&dt), "2026-02-23T21:00:00+00:00");
}

#[test]
fn typo_resolves_like_canonical_spelling() {
    let canonical = parse_human_datetime_with_tz("saturday", &now_utc(), et()).expect("canonical");
    let typo = parse_human_datetime_with_tz("saturady", &now_utc(), et()).expect("typo");
    assert_eq!(canonical, typo);
    assert_eq!(format_rfc3339_utc(&canonical), "2026-03-01T04:59:00+00:00");
}

#[test]
fn word_far_from_every_keyword_keeps_the_base_date() {
    let dt = parse_human_datetime_with_tz("xyzzy", &now_utc(), et()).expect("no keyword");
    assert_eq!(format_rfc3339_utc(&dt), "2026-02-24T04:59:00+00:00");
}

#[test]
fn machine_timestamp_wins_over_phrases() {
    let dt = parse_human_datetime("2026-07-04T09:30:00Z", &now_utc(), et()).expect("strict parse");
    assert_eq!(format_rfc3339_utc(&dt), "2026-07-04T09:30:00+00:00");
    let dt2 = parse_human_datetime("2026-07-04T09:30:00+02:00", &now_utc(), et()).expect("offset");
    assert_eq!(format_rfc3339_utc(&dt2), "2026-07-04T07:30:00+00:00");
}

#[test]
fn numeric_offset_suffix_applies() {
    let dt = parse_human_datetime_with_tz("9:00pm +02:00", &now_utc(), et()).expect("offset");
    assert_eq!(format_rfc3339_utc(&dt), "2026-02-23T19:00:00+00:00");
}

#[test]
fn twenty_four_hour_time_applies() {
    let dt = parse_human_datetime_with_tz("tomorrow 14:30", &now_utc(), et()).expect("24h");
    assert_eq!(format_rfc3339_utc(&dt), "2026-02-24T19:30:00+00:00");
}

#[test]
fn invalid_time_falls_back_to_end_of_day() {
    // an hour past twelve with a meridiem is not a time
    let dt = parse_human_datetime_with_tz("13pm", &now_utc(), et()).expect("fallback");
    assert_eq!(format_rfc3339_utc(&dt), "2026-02-24T04:59:00+00:00");
}

#[test]
fn empty_phrase_resolves_to_nothing() {
    assert!(parse_human_datetime_with_tz("   ", &now_utc(), et()).is_none());
}
