use vstd::prelude::*;

use crate::calendar::Timestamp;
use crate::calendar::add_days;
use crate::calendar::add_days_s;
use crate::calendar::add_one_month;
use crate::calendar::add_one_month_s;
use crate::calendar::add_one_year;
use crate::calendar::add_one_year_s;
use crate::calendar::lemma_add_days_s;
use crate::calendar::lemma_add_one_month_s;
use crate::calendar::lemma_add_one_year_s;
use crate::calendar::lemma_shift_s;
use crate::calendar::shift_by_seconds;
use crate::calendar::shift_s;
use crate::calendar::timestamp_index;
use crate::calendar::valid_timestamp;
use crate::calendar::weekday_index;
use crate::calendar::weekday_of;
use crate::calendar::Date;
use crate::types::day_num;
use crate::types::DaysOfWeek;
use crate::types::Reccurence;

verus! {

// ---------------------------------------------------------------------------
// Next occurrence
// ---------------------------------------------------------------------------
/// Days from weekday number `cur` (1..7, Monday first) forward to the given
/// weekday, in 1..7: a zero delta is pushed a full week ahead.
pub open spec fn day_delta(cur: int, d: DaysOfWeek) -> int {
    let x = (day_num(d) + 7 - cur) % 7;
    if x == 0 {
        7
    } else {
        x
    }
}

/// The least advance, in days, from weekday number `cur` to any day of the
/// list; 7 when the list is empty.
pub open spec fn weekly_delta(cur: int, ds: Seq<DaysOfWeek>) -> int
    decreases ds.len(),
{
    if ds.len() == 0 {
        7
    } else {
        let d0 = day_delta(cur, ds[0]);
        let rest = weekly_delta(cur, ds.drop_first());
        if d0 < rest {
            d0
        } else {
            rest
        }
    }
}

pub proof fn lemma_weekly_delta_range(cur: int, ds: Seq<DaysOfWeek>)
    requires
        1 <= cur <= 7,
    ensures
        1 <= weekly_delta(cur, ds) <= 7,
    decreases ds.len(),
{
    if ds.len() > 0 {
        lemma_weekly_delta_range(cur, ds.drop_first());
    }
}

/// A date step combined with the unchanged time of day.
pub open spec fn with_time(od: Option<Date>, t: Timestamp) -> Option<Timestamp> {
    match od {
        Some(d) => Some(Timestamp { date: d, hour: t.hour, minute: t.minute, second: t.second }),
        None => None,
    }
}

/// The next occurrence of a recurrence rule after a local wall-clock due
/// time: a day ahead for daily rules, the nearest listed weekday (always
/// strictly ahead) for weekly ones, the next month with the day-of-month
/// clamped to the month's length for monthly ones, and the next year with
/// the same clamping for yearly ones.
pub open spec fn next_due_naive_s(due: Timestamp, rec: Reccurence) -> Option<Timestamp> {
    match rec {
        Reccurence::Daily => with_time(add_days_s(due.date, 1), due),
        Reccurence::Weekly(days) => with_time(
            add_days_s(due.date, weekly_delta(weekday_index(due.date) + 1, days@)),
            due,
        ),
        Reccurence::Monthly(Some(day)) => if day == 0 {
            None
        } else {
            with_time(add_one_month_s(due.date, day as int), due)
        },
        Reccurence::Monthly(None) => with_time(add_one_month_s(due.date, due.date.day as int), due),
        Reccurence::Yearly => with_time(add_one_year_s(due.date), due),
    }
}

/// The next occurrence strictly advances the due time, and stays valid.
pub proof fn lemma_next_due_naive_advances(due: Timestamp, rec: Reccurence)
    requires
        valid_timestamp(due),
    ensures
        next_due_naive_s(due, rec) is Some ==> {
            let n = next_due_naive_s(due, rec).unwrap();
            &&& valid_timestamp(n)
            &&& timestamp_index(n) > timestamp_index(due)
        },
{
    match rec {
        Reccurence::Daily => {
            lemma_add_days_s(due.date, 1);
        },
        Reccurence::Weekly(days) => {
            lemma_weekly_delta_range(weekday_index(due.date) + 1, days@);
            lemma_add_days_s(due.date, weekly_delta(weekday_index(due.date) + 1, days@));
        },
        Reccurence::Monthly(Some(day)) => {
            if day != 0 {
                if day <= 31 {
                    lemma_add_one_month_s(due.date, day as int);
                } else {
                    lemma_add_one_month_clamp(due.date, day as int);
                    lemma_add_one_month_s(due.date, 31);
                }
            }
        },
        Reccurence::Monthly(None) => {
            lemma_add_one_month_s(due.date, due.date.day as int);
        },
        Reccurence::Yearly => {
            lemma_add_one_year_s(due.date);
        },
    }
}

/// A preferred day past 31 clamps exactly as 31 does.
proof fn lemma_add_one_month_clamp(d: Date, day_pref: int)
    requires
        day_pref > 31,
    ensures
        add_one_month_s(d, day_pref) == add_one_month_s(d, 31),
{
}

/// The next occurrence after a local due time, computed in executable code.
pub fn next_due_naive(due: &Timestamp, rec: &Reccurence) -> (r: Option<Timestamp>)
    requires
        valid_timestamp(*due),
    ensures
        r == next_due_naive_s(*due, *rec),
{
    match rec {
        Reccurence::Daily => {
            match add_days(&due.date, 1) {
                Some(d) => Some(
                    Timestamp { date: d, hour: due.hour, minute: due.minute, second: due.second },
                ),
                None => None,
            }
        },
        Reccurence::Weekly(days) => {
            let cur: u8 = weekday_of(&due.date) + 1;
            let n = days.len();
            let mut delta: u8 = 7;
            let mut i: usize = n;
            while i > 0
                invariant
                    i <= n,
                    n == days@.len(),
                    1 <= cur <= 7,
                    cur as int == weekday_index(due.date) + 1,
                    1 <= delta <= 7,
                    delta as int == weekly_delta(cur as int, days@.skip(i as int)),
                decreases i,
            {
                i = i - 1;
                let dn: u8 = days[i].index0() + 1;
                let x: u8 = (dn + 7 - cur) % 7;
                let dd: u8 = if x == 0 {
                    7
                } else {
                    x
                };
                proof {
                    assert(days@.skip(i as int).drop_first() =~= days@.skip(i as int + 1));
                    assert(days@.skip(i as int)[0] == days@[i as int]);
                    assert(dd as int == day_delta(cur as int, days@[i as int]));
                }
                if dd < delta {
                    delta = dd;
                }
            }
            proof {
                assert(days@.skip(0) =~= days@);
            }
            match add_days(&due.date, delta) {
                Some(d) => Some(
                    Timestamp { date: d, hour: due.hour, minute: due.minute, second: due.second },
                ),
                None => None,
            }
        },
        Reccurence::Monthly(Some(day)) => {
            let day = *day;
            if day == 0 {
                return None;
            }
            let pref: u8 = if day > 31 {
                31
            } else {
                day as u8
            };
            proof {
                if day > 31 {
                    lemma_add_one_month_clamp(due.date, day as int);
                }
            }
            match add_one_month(&due.date, pref) {
                Some(d) => Some(
                    Timestamp { date: d, hour: due.hour, minute: due.minute, second: due.second },
                ),
                None => None,
            }
        },
        Reccurence::Monthly(None) => {
            match add_one_month(&due.date, due.date.day) {
                Some(d) => Some(
                    Timestamp { date: d, hour: due.hour, minute: due.minute, second: due.second },
                ),
                None => None,
            }
        },
        Reccurence::Yearly => {
            match add_one_year(&due.date) {
                Some(d) => Some(
                    Timestamp { date: d, hour: due.hour, minute: due.minute, second: due.second },
                ),
                None => None,
            }
        },
    }
}

/// The next occurrence after a UTC due instant: the instant is taken to the
/// caller's wall clock, advanced by the rule, and taken back to UTC.
pub open spec fn next_due_utc_s(due: Timestamp, rec: Reccurence, off: int) -> Option<Timestamp> {
    match shift_s(due, off) {
        None => None,
        Some(loc) => match next_due_naive_s(loc, rec) {
            None => None,
            Some(nl) => shift_s(nl, -off),
        },
    }
}

/// Next occurrence of a recurrence rule after a UTC due instant, in the
/// wall clock of the given offset (seconds east of UTC). `None` only when
/// a step leaves the representable range or the rule's day-of-month is 0.
pub fn next_due_date_utc(due: &Timestamp, rec: &Reccurence, offset_seconds: i32) -> (r: Option<
    Timestamp,
>)
    requires
        valid_timestamp(*due),
        -86400 < offset_seconds < 86400,
    ensures
        r == next_due_utc_s(*due, *rec, offset_seconds as int),
        r is Some ==> valid_timestamp(r.unwrap()) && timestamp_index(r.unwrap())
            > timestamp_index(*due),
{
    proof {
        lemma_next_occurrence_strictly_advances(*due, *rec, offset_seconds as int);
    }
    let loc = match shift_by_seconds(due, offset_seconds) {
        Some(l) => l,
        None => {
            return None;
        },
    };
    let nl = match next_due_naive(&loc, rec) {
        Some(n) => n,
        None => {
            proof {
                lemma_shift_s(*due, offset_seconds as int);
            }
            return None;
        },
    };
    proof {
        lemma_shift_s(*due, offset_seconds as int);
        lemma_next_due_naive_advances(loc, *rec);
    }
    shift_by_seconds(&nl, -offset_seconds)
}

/// The law that the next occurrence strictly advances: whenever a next
/// occurrence exists, it lies strictly after the due instant, both in the
/// local calendar and on the UTC timeline.
pub proof fn lemma_next_occurrence_strictly_advances(due: Timestamp, rec: Reccurence, off: int)
    requires
        valid_timestamp(due),
        -86400 < off < 86400,
    ensures
        next_due_utc_s(due, rec, off) is Some ==> {
            let n = next_due_utc_s(due, rec, off).unwrap();
            &&& valid_timestamp(n)
            &&& timestamp_index(n) > timestamp_index(due)
        },
{
    lemma_shift_s(due, off);
    match shift_s(due, off) {
        Some(loc) => {
            lemma_next_due_naive_advances(loc, rec);
            match next_due_naive_s(loc, rec) {
                Some(nl) => {
                    lemma_shift_s(nl, -off);
                },
                None => {
                },
            }
        },
        None => {
        },
    }
}

/// Does moving the due instant from `previous_due` to `current_due` follow
/// the rule exactly, i.e. is the new instant the computed next occurrence?
pub fn is_rollover_due_date(
    previous_due: &Timestamp,
    current_due: &Timestamp,
    recurrence: &Reccurence,
    offset_seconds: i32,
) -> (r: bool)
    requires
        valid_timestamp(*previous_due),
        -86400 < offset_seconds < 86400,
    ensures
        r == (next_due_utc_s(*previous_due, *recurrence, offset_seconds as int) == Some(
            *current_due,
        )),
{
    match next_due_date_utc(previous_due, recurrence, offset_seconds) {
        Some(n) => n == *current_due,
        None => false,
    }
}

} // verus!

verus! {

// ---------------------------------------------------------------------------
// Parsing recurrence phrases
// ---------------------------------------------------------------------------
/// The weekday vocabulary: full names and common abbreviations, in the
/// fixed order the fuzzy matcher enumerates.
pub open spec fn alias_names() -> Seq<Seq<char>> {
    seq![
        "monday"@,
        "mon"@,
        "tuesday"@,
        "tue"@,
        "tues"@,
        "wednesday"@,
        "wed"@,
        "thursday"@,
        "thu"@,
        "thur"@,
        "thurs"@,
        "friday"@,
        "fri"@,
        "saturday"@,
        "sat"@,
        "sunday"@,
        "sun"@,
    ]
}

/// The weekday each vocabulary entry stands for.
pub open spec fn alias_day(i: int) -> DaysOfWeek {
    if i <= 1 {
        DaysOfWeek::Monday
    } else if i <= 4 {
        DaysOfWeek::Tuesday
    } else if i <= 6 {
        DaysOfWeek::Wednesday
    } else if i <= 10 {
        DaysOfWeek::Thursday
    } else if i <= 12 {
        DaysOfWeek::Friday
    } else if i <= 14 {
        DaysOfWeek::Saturday
    } else {
        DaysOfWeek::Sunday
    }
}

/// The weekday a single token names, fuzzily.
pub open spec fn parse_day_spec(tok: Seq<char>) -> Option<DaysOfWeek> {
    match crate::fuzzy::fuzzy_spec(tok, alias_names()) {
        Some(i) => Some(alias_day(i)),
        None => None,
    }
}

/// Parse one weekday token: exact alias first, then the fuzzy vocabulary.
pub fn parse_day_of_week(tok: &Vec<char>) -> (r: Option<DaysOfWeek>)
    ensures
        r == parse_day_spec(tok@),
{
    let mut names: Vec<&str> = Vec::new();
    names.push("monday");
    names.push("mon");
    names.push("tuesday");
    names.push("tue");
    names.push("tues");
    names.push("wednesday");
    names.push("wed");
    names.push("thursday");
    names.push("thu");
    names.push("thur");
    names.push("thurs");
    names.push("friday");
    names.push("fri");
    names.push("saturday");
    names.push("sat");
    names.push("sunday");
    names.push("sun");
    proof {
        assert(names.deep_view() =~= alias_names()) by {
            assert(forall|i: int|
                0 <= i < names@.len() ==> names.deep_view()[i] == #[trigger] names@[i]@);
        }
    }
    proof {
        crate::fuzzy::lemma_fuzzy_spec_range(tok@, alias_names());
    }
    match crate::fuzzy::fuzzy_match(tok, &names) {
        Some(i) => {
            let d: DaysOfWeek = if i <= 1 {
                DaysOfWeek::Monday
            } else if i <= 4 {
                DaysOfWeek::Tuesday
            } else if i <= 6 {
                DaysOfWeek::Wednesday
            } else if i <= 10 {
                DaysOfWeek::Thursday
            } else if i <= 12 {
                DaysOfWeek::Friday
            } else if i <= 14 {
                DaysOfWeek::Saturday
            } else {
                DaysOfWeek::Sunday
            };
            Some(d)
        },
        None => None,
    }
}

/// The weekdays from `i` forward to `e` inclusive, wrapping past Sunday.
pub open spec fn expand_range_s(i: int, e: int) -> Seq<DaysOfWeek>
    decreases (e - i + 7) % 7 when 0 <= i < 7 && 0 <= e < 7
{
    if i == e {
        seq![crate::types::day_of_idx(i)]
    } else {
        seq![crate::types::day_of_idx(i)] + expand_range_s((i + 1) % 7, e)
    }
}

/// Expand a weekday range, wrapping across the week boundary.
pub fn expand_day_range(start: DaysOfWeek, end: DaysOfWeek) -> (r: Vec<DaysOfWeek>)
    ensures
        r@ == expand_range_s(crate::types::day_idx(start), crate::types::day_idx(end)),
{
    let e: u8 = end.index0();
    let mut idx: u8 = start.index0();
    let mut days: Vec<DaysOfWeek> = Vec::new();
    days.push(DaysOfWeek::from_index0(idx));
    let ghost s0 = crate::types::day_idx(start);
    while idx != e
        invariant
            idx < 7,
            e < 7,
            e as int == crate::types::day_idx(end),
            0 <= s0 < 7,
            idx == e ==> days@ == expand_range_s(s0, e as int),
            idx != e ==> expand_range_s(s0, e as int) == days@ + expand_range_s(
                (idx + 1) as int % 7,
                e as int,
            ),
        decreases (e - idx + 7) % 7,
    {
        idx = (idx + 1) % 7;
        days.push(DaysOfWeek::from_index0(idx));
        proof {
            if idx as int != e as int {
                assert(expand_range_s(idx as int, e as int) == seq![
                    crate::types::day_of_idx(idx as int),
                ] + expand_range_s((idx + 1) as int % 7, e as int));
                assert(days@ + expand_range_s((idx + 1) as int % 7, e as int) =~= expand_range_s(
                    s0,
                    e as int,
                ));
            } else {
                assert(expand_range_s(idx as int, e as int) == seq![
                    crate::types::day_of_idx(idx as int),
                ]);
                assert(days@ =~= expand_range_s(s0, e as int));
            }
        }
    }
    days
}

/// Position of the first `-` at or after `i`.
pub open spec fn first_dash(s: Seq<char>, i: int) -> int
    decreases s.len() - i when 0 <= i <= s.len()
{
    if i < s.len() && s[i] != '-' {
        first_dash(s, i + 1)
    } else {
        i
    }
}

proof fn lemma_first_dash_bounds(s: Seq<char>, i: int)
    requires
        0 <= i <= s.len(),
    ensures
        i <= first_dash(s, i) <= s.len(),
        first_dash(s, i) < s.len() ==> s[first_dash(s, i)] == '-',
        forall|j: int| i <= j < first_dash(s, i) ==> s[j] != '-',
    decreases s.len() - i,
{
    if i < s.len() && s[i] != '-' {
        lemma_first_dash_bounds(s, i + 1);
    }
}

proof fn lemma_first_dash_stable(s: Seq<char>, start: int, k: int)
    requires
        0 <= start <= k <= s.len(),
        forall|j: int| start <= j < k ==> s[j] != '-',
        k < s.len() ==> s[k] == '-',
    ensures
        first_dash(s, start) == k,
    decreases k - start,
{
    if start < k {
        lemma_first_dash_stable(s, start + 1, k);
    }
}

/// The weekdays one comma-separated token names: a single weekday, or a
/// range `a-b` expanded inclusively with wrap-around.
pub open spec fn day_group_spec(tok: Seq<char>) -> Option<Seq<DaysOfWeek>> {
    let fd = first_dash(tok, 0);
    if fd < tok.len() {
        match parse_day_spec(tok.take(fd)) {
            Some(a) => match parse_day_spec(tok.skip(fd + 1)) {
                Some(b) => Some(expand_range_s(crate::types::day_idx(a), crate::types::day_idx(b))),
                None => None,
            },
            None => None,
        }
    } else {
        match parse_day_spec(tok) {
            Some(d) => Some(seq![d]),
            None => None,
        }
    }
}

/// Parse one comma-separated token of a weekly day list.
pub fn parse_day_group(tok: &Vec<char>) -> (r: Option<Vec<DaysOfWeek>>)
    ensures
        match r {
            Some(v) => day_group_spec(tok@) == Some(v@),
            None => day_group_spec(tok@) is None,
        },
{
    let n = tok.len();
    let mut fd: usize = 0;
    while fd < n && tok[fd] != '-'
        invariant
            fd <= n,
            n == tok@.len(),
            forall|j: int| 0 <= j < fd ==> tok@[j] != '-',
        decreases n - fd,
    {
        fd = fd + 1;
    }
    proof {
        lemma_first_dash_stable(tok@, 0, fd as int);
    }
    if fd < n {
        let left = crate::text::subvec(tok, 0, fd);
        let right = crate::text::subvec(tok, fd + 1, n);
        proof {
            assert(left@ =~= tok@.take(fd as int));
            assert(right@ =~= tok@.skip(fd as int + 1));
        }
        let a = match parse_day_of_week(&left) {
            Some(a) => a,
            None => {
                return None;
            },
        };
        let b = match parse_day_of_week(&right) {
            Some(b) => b,
            None => {
                return None;
            },
        };
        Some(expand_day_range(a, b))
    } else {
        match parse_day_of_week(tok) {
            Some(d) => {
                let mut v: Vec<DaysOfWeek> = Vec::new();
                v.push(d);
                proof {
                    assert(v@ =~= seq![d]);
                }
                Some(v)
            },
            None => None,
        }
    }
}

} // verus!

verus! {

/// The list text with every ` and ` separator turned into a comma.
pub open spec fn replace_and_s(s: Seq<char>) -> Seq<char>
    decreases s.len(),
{
    if s.len() >= 5 && s.take(5) == " and "@ {
        ","@ + replace_and_s(s.skip(5))
    } else if s.len() == 0 {
        s
    } else {
        seq![s[0]] + replace_and_s(s.drop_first())
    }
}

/// Replace every ` and ` separator by a comma.
pub fn replace_and(v: &Vec<char>) -> (r: Vec<char>)
    ensures
        r@ == replace_and_s(v@),
{
    let n = v.len();
    let mut out: Vec<char> = Vec::new();
    let mut i: usize = 0;
    proof {
        assert(v@.skip(0) =~= v@);
        assert(Seq::<char>::empty() + replace_and_s(v@) =~= replace_and_s(v@));
    }
    while i < n
        invariant
            i <= n,
            n == v@.len(),
            replace_and_s(v@) == out@ + replace_and_s(v@.skip(i as int)),
        decreases n - i,
    {
        let ghost rest = v@.skip(i as int);
        let ghost pre = out@;
        if n - i >= 5 && crate::text::range_eq_str(v, i, i + 5, " and ") {
            proof {
                assert(rest.take(5) =~= v@.subrange(i as int, i as int + 5));
            }
            out.push(',');
            i = i + 5;
            proof {
                reveal_strlit(",");
                assert(rest.skip(5) =~= v@.skip(i as int));
                assert(replace_and_s(rest) == ","@ + replace_and_s(v@.skip(i as int)));
                assert(pre + replace_and_s(rest) =~= out@ + replace_and_s(v@.skip(i as int)));
            }
        } else {
            proof {
                if rest.len() >= 5 {
                    assert(rest.take(5) =~= v@.subrange(i as int, i as int + 5));
                }
                assert(rest[0] == v@[i as int]);
            }
            out.push(v[i]);
            i = i + 1;
            proof {
                assert(rest.drop_first() =~= v@.skip(i as int));
                assert(replace_and_s(rest) == seq![rest[0]] + replace_and_s(v@.skip(i as int)));
                assert(pre + replace_and_s(rest) =~= out@ + replace_and_s(v@.skip(i as int)));
            }
        }
    }
    proof {
        assert(v@.skip(n as int).len() == 0);
        assert(out@ + replace_and_s(v@.skip(n as int)) =~= out@);
    }
    out
}

/// Position of the first comma at or after `i`.
pub open spec fn next_comma(s: Seq<char>, i: int) -> int
    decreases s.len() - i when 0 <= i <= s.len()
{
    if i < s.len() && s[i] != ',' {
        next_comma(s, i + 1)
    } else {
        i
    }
}

proof fn lemma_next_comma_bounds(s: Seq<char>, i: int)
    requires
        0 <= i <= s.len(),
    ensures
        i <= next_comma(s, i) <= s.len(),
    decreases s.len() - i,
{
    if i < s.len() && s[i] != ',' {
        lemma_next_comma_bounds(s, i + 1);
    }
}

proof fn lemma_next_comma_stable(s: Seq<char>, start: int, k: int)
    requires
        0 <= start <= k <= s.len(),
        forall|j: int| start <= j < k ==> s[j] != ',',
        k < s.len() ==> s[k] == ',',
    ensures
        next_comma(s, start) == k,
    decreases k - start,
{
    if start < k {
        lemma_next_comma_stable(s, start + 1, k);
    }
}

/// The comma-separated pieces of `s`, scanning from `i`: one piece per gap,
/// empty pieces included.
pub open spec fn comma_items_from(s: Seq<char>, i: int) -> Seq<Seq<char>>
    decreases s.len() - i when 0 <= i <= s.len() via comma_items_decreases
{
    let j = next_comma(s, i);
    if j >= s.len() {
        seq![s.subrange(i, s.len() as int)]
    } else {
        seq![s.subrange(i, j)] + comma_items_from(s, j + 1)
    }
}

#[via_fn]
proof fn comma_items_decreases(s: Seq<char>, i: int) {
    lemma_next_comma_bounds(s, i);
}

/// Fold the day groups of the comma-separated tokens into one list,
/// skipping empty tokens, keeping first-appearance order and dropping
/// duplicates; any unparseable token fails the whole list.
pub open spec fn collect_days(items: Seq<Seq<char>>, acc: Seq<DaysOfWeek>) -> Option<
    Seq<DaysOfWeek>,
>
    decreases items.len(),
{
    if items.len() == 0 {
        Some(acc)
    } else {
        let tok = crate::text::trim_spec(items[0]);
        if tok.len() == 0 {
            collect_days(items.drop_first(), acc)
        } else {
            match day_group_spec(tok) {
                None => None,
                Some(g) => collect_days(items.drop_first(), append_dedup(acc, g)),
            }
        }
    }
}

/// Append the new days to the accumulated list, dropping ones already seen.
pub open spec fn append_dedup(acc: Seq<DaysOfWeek>, g: Seq<DaysOfWeek>) -> Seq<DaysOfWeek>
    decreases g.len(),
{
    if g.len() == 0 {
        acc
    } else {
        append_dedup(
            if acc.contains(g[0]) {
                acc
            } else {
                acc.push(g[0])
            },
            g.drop_first(),
        )
    }
}

/// The de-duplicated weekday list a `weekly on <list>` suffix names; `None`
/// when a token fails to parse or the list comes out empty.
pub open spec fn weekly_days_spec(s: Seq<char>) -> Option<Seq<DaysOfWeek>> {
    match collect_days(comma_items_from(replace_and_s(s), 0), Seq::empty()) {
        Some(ds) => if ds.len() > 0 {
            Some(ds)
        } else {
            None
        },
        None => None,
    }
}

/// Is the day already in the list?
fn contains_day(days: &Vec<DaysOfWeek>, d: DaysOfWeek) -> (r: bool)
    ensures
        r == days@.contains(d),
{
    let n = days.len();
    let mut i: usize = 0;
    while i < n
        invariant
            i <= n,
            n == days@.len(),
            forall|j: int| 0 <= j < i ==> days@[j] != d,
        decreases n - i,
    {
        if days[i] == d {
            return true;
        }
        i = i + 1;
    }
    proof {
        assert(!days@.contains(d)) by {
            if days@.contains(d) {
                let k = choose|k: int| 0 <= k < days@.len() && days@[k] == d;
            }
        }
    }
    false
}

/// Parse the day list of a `weekly on <list>` phrase.
pub fn parse_weekly_days(raw: &Vec<char>) -> (r: Option<Vec<DaysOfWeek>>)
    ensures
        match r {
            Some(v) => weekly_days_spec(raw@) == Some(v@),
            None => weekly_days_spec(raw@) is None,
        },
{
    let rep = replace_and(raw);
    let n = rep.len();
    let mut days: Vec<DaysOfWeek> = Vec::new();
    let mut i: usize = 0;
    let mut done: bool = false;
    let ghost all_items = comma_items_from(rep@, 0);
    while !done
        invariant
            n == rep@.len(),
            rep@ == replace_and_s(raw@),
            all_items == comma_items_from(rep@, 0),
            !done ==> i <= n && collect_days(all_items, Seq::empty()) == collect_days(
                comma_items_from(rep@, i as int),
                days@,
            ),
            done ==> collect_days(all_items, Seq::empty()) == Some(days@),
        decreases n - i + (if done {
            0int
        } else {
            1int
        }),
    {
        // scan to the next comma
        let mut j: usize = i;
        while j < n && rep[j] != ','
            invariant
                i <= j <= n,
                n == rep@.len(),
                forall|k: int| i <= k < j ==> rep@[k] != ',',
            decreases n - j,
        {
            j = j + 1;
        }
        proof {
            lemma_next_comma_stable(rep@, i as int, j as int);
        }
        let piece = crate::text::subvec(&rep, i, j);
        let tok = crate::text::trimmed(&piece);
        let ghost items_here = comma_items_from(rep@, i as int);
        proof {
            if j < n {
                assert(items_here == seq![rep@.subrange(i as int, j as int)] + comma_items_from(
                    rep@,
                    j as int + 1,
                ));
                assert(items_here.drop_first() =~= comma_items_from(rep@, j as int + 1));
            } else {
                assert(items_here == seq![rep@.subrange(i as int, n as int)]);
                assert(items_here.drop_first() =~= Seq::<Seq<char>>::empty());
            }
            assert(items_here[0] == rep@.subrange(i as int, j as int));
        }
        if tok.len() > 0 {
            let group = match parse_day_group(&tok) {
                Some(g) => g,
                None => {
                    return None;
                },
            };
            // merge, skipping days already present
            let m = group.len();
            let mut k: usize = 0;
            let ghost days0 = days@;
            proof {
                assert(group@.skip(0) =~= group@);
            }
            while k < m
                invariant
                    k <= m,
                    m == group@.len(),
                    append_dedup(days0, group@) == append_dedup(days@, group@.skip(k as int)),
                decreases m - k,
            {
                proof {
                    assert(group@.skip(k as int).drop_first() =~= group@.skip(k as int + 1));
                    assert(group@.skip(k as int)[0] == group@[k as int]);
                }
                let d = group[k];
                if !contains_day(&days, d) {
                    days.push(d);
                }
                k = k + 1;
            }
            proof {
                assert(group@.skip(m as int).len() == 0);
                assert(append_dedup(days@, group@.skip(m as int)) == days@);
            }
        }
        if j < n {
            i = j + 1;
        } else {
            done = true;
            proof {
                assert(collect_days(items_here.drop_first(), days@) == Some(days@));
            }
        }
    }
    if days.len() == 0 {
        None
    } else {
        Some(days)
    }
}

} // verus!

verus! {

/// The text with every leading `the ` stripped.
pub open spec fn strip_the(s: Seq<char>) -> Seq<char>
    decreases s.len(),
{
    if s.len() >= 4 && s.take(4) == "the "@ {
        strip_the(s.skip(4))
    } else {
        s
    }
}

/// The day-of-month an ordinal token names: one or two digits, an optional
/// `st`/`nd`/`rd`/`th` suffix, nothing else; only 1 through 31 accepted.
pub open spec fn monthly_day_spec(s: Seq<char>) -> Option<int> {
    let u = strip_the(crate::text::trim_spec(s));
    let k = crate::text::next_nondigit(u, 0);
    if k < 1 || k > 2 {
        None
    } else {
        let rest = u.skip(k);
        if rest.len() == 0 || rest == "st"@ || rest == "nd"@ || rest == "rd"@ || rest == "th"@ {
            let d = crate::text::dec_val(u.take(k));
            if 1 <= d <= 31 {
                Some(d)
            } else {
                None
            }
        } else {
            None
        }
    }
}

/// Parse the day of a `monthly on <ordinal>` phrase.
pub fn parse_monthly_day(raw: &Vec<char>) -> (r: Option<u32>)
    ensures
        match r {
            Some(d) => monthly_day_spec(raw@) == Some(d as int),
            None => monthly_day_spec(raw@) is None,
        },
{
    let t = crate::text::trimmed(raw);
    let n = t.len();
    let mut i: usize = 0;
    proof {
        assert(t@.skip(0) =~= t@);
    }
    while n - i >= 4 && crate::text::range_eq_str(&t, i, i + 4, "the ")
        invariant
            i <= n,
            n == t@.len(),
            strip_the(t@) == strip_the(t@.skip(i as int)),
        decreases n - i,
    {
        proof {
            let rest = t@.skip(i as int);
            assert(rest.take(4) =~= t@.subrange(i as int, i as int + 4));
            assert(rest.skip(4) =~= t@.skip(i as int + 4));
        }
        i = i + 4;
    }
    proof {
        let rest = t@.skip(i as int);
        if rest.len() >= 4 {
            assert(rest.take(4) =~= t@.subrange(i as int, i as int + 4));
        }
        assert(strip_the(t@) == t@.skip(i as int));
    }
    let u = crate::text::subvec(&t, i, n);
    let m = u.len();
    let k = crate::text::scan_digits(&u, 0);
    proof {
        crate::text::lemma_next_nondigit_bounds(u@, 0);
    }
    if k < 1 || k > 2 {
        return None;
    }
    let suffix_ok: bool = if m == k {
        true
    } else {
        crate::text::range_eq_str(&u, k, m, "st") || crate::text::range_eq_str(&u, k, m, "nd")
            || crate::text::range_eq_str(&u, k, m, "rd") || crate::text::range_eq_str(
            &u,
            k,
            m,
            "th",
        )
    };
    proof {
        assert(u@.skip(k as int) =~= u@.subrange(k as int, m as int));
        assert(u@.skip(k as int).len() == 0 <==> m == k);
    }
    if !suffix_ok {
        return None;
    }
    let d = crate::text::parse_dec_range(&u, 0, k);
    proof {
        assert(u@.take(k as int) =~= u@.subrange(0, k as int));
        crate::text::lemma_dec_val_bound(u@.subrange(0, k as int));
        assert(crate::text::pow10(2) == 100) by {
            reveal_with_fuel(crate::text::pow10, 3);
        }
    }
    if 1 <= d && d <= 31 {
        Some(d)
    } else {
        None
    }
}

/// How a parsed recurrence relates to its phrase: bare keywords exactly;
/// `weekly on <list>` by the de-duplicated day list; `monthly on <ordinal>`
/// by the ordinal's value; everything else fails.
pub open spec fn parse_rec_rel(s: Seq<char>, today: DaysOfWeek, r: Option<Reccurence>) -> bool {
    let t = crate::fuzzy::fm_norm(s);
    &&& (t == "daily"@ ==> r matches Some(Reccurence::Daily))
    &&& (t == "monthly"@ ==> r matches Some(Reccurence::Monthly(None)))
    &&& (t == "yearly"@ ==> r matches Some(Reccurence::Yearly))
    &&& (t == "weekly"@ ==> (r matches Some(Reccurence::Weekly(d)) && d@ == seq![today]))
    &&& ((t != "daily"@ && t != "monthly"@ && t != "yearly"@ && t != "weekly"@) ==> {
        if crate::text::has_prefix(t, "weekly on "@) {
            match weekly_days_spec(t.skip(10)) {
                Some(ds) => r matches Some(Reccurence::Weekly(d)) && d@ == ds,
                None => r is None,
            }
        } else if crate::text::has_prefix(t, "monthly on "@) {
            match monthly_day_spec(t.skip(11)) {
                Some(d) => r matches Some(Reccurence::Monthly(Some(dd))) && dd as int == d,
                None => r is None,
            }
        } else {
            r is None
        }
    })
}

/// Parse a recurrence phrase: bare `daily`, `weekly`, `monthly`, `yearly`;
/// `weekly on <list>` with fuzzy weekday names and ranges; `monthly on
/// <ordinal>`. A bare `weekly` recurs on the weekday of the supplied local
/// time.
pub fn parse_reccurence(raw: &str, now_local: &Timestamp) -> (r: Option<Reccurence>)
    requires
        valid_timestamp(*now_local),
    ensures
        parse_rec_rel(raw@, crate::types::day_of_idx(weekday_index(now_local.date)), r),
{
    proof {
        reveal_strlit("daily");
        reveal_strlit("monthly");
        reveal_strlit("yearly");
        reveal_strlit("weekly");
        reveal_strlit("weekly on ");
        reveal_strlit("monthly on ");
        assert("yearly"@ != "weekly"@) by {
            assert("yearly"@[0] == 'y');
            assert("weekly"@[0] == 'w');
        }
    }
    let v = crate::text::chars_of(raw);
    let t = crate::fuzzy::normalize_token(&v);
    let n = t.len();
    if crate::text::chars_eq_str(&t, "daily") {
        return Some(Reccurence::Daily);
    }
    if crate::text::chars_eq_str(&t, "monthly") {
        return Some(Reccurence::Monthly(None));
    }
    if crate::text::chars_eq_str(&t, "yearly") {
        return Some(Reccurence::Yearly);
    }
    if crate::text::chars_eq_str(&t, "weekly") {
        let today = crate::types::DaysOfWeek::from_index0(weekday_of(&now_local.date));
        let mut days: Vec<DaysOfWeek> = Vec::new();
        days.push(today);
        proof {
            assert(days@ =~= seq![crate::types::day_of_idx(weekday_index(now_local.date))]);
        }
        return Some(Reccurence::Weekly(days));
    }
    if n >= 10 && crate::text::range_eq_str(&t, 0, 10, "weekly on ") {
        proof {
            assert(t@.take(10) =~= t@.subrange(0, 10));
            assert(t@.skip(10) =~= t@.subrange(10, n as int));
        }
        let sub = crate::text::subvec(&t, 10, n);
        return match parse_weekly_days(&sub) {
            Some(days) => Some(Reccurence::Weekly(days)),
            None => None,
        };
    }
    proof {
        if t@.len() >= 10 {
            assert(t@.take(10) =~= t@.subrange(0, 10));
        }
    }
    if n >= 11 && crate::text::range_eq_str(&t, 0, 11, "monthly on ") {
        proof {
            assert(t@.take(11) =~= t@.subrange(0, 11));
            assert(t@.skip(11) =~= t@.subrange(11, n as int));
        }
        let sub = crate::text::subvec(&t, 11, n);
        return match parse_monthly_day(&sub) {
            Some(d) => Some(Reccurence::Monthly(Some(d))),
            None => None,
        };
    }
    proof {
        if t@.len() >= 11 {
            assert(t@.take(11) =~= t@.subrange(0, 11));
        }
    }
    None
}

} // verus!

verus! {

// ---------------------------------------------------------------------------
// Round trip: a rendered recurrence phrase parses back to the same rule
// ---------------------------------------------------------------------------
/// A full weekday name parses to its weekday.
pub proof fn lemma_day_name_parses(d: DaysOfWeek)
    ensures
        parse_day_spec(crate::types::day_name(d)) == Some(d),
{
    reveal_strlit("monday");
    reveal_strlit("mon");
    reveal_strlit("tuesday");
    reveal_strlit("tue");
    reveal_strlit("tues");
    reveal_strlit("wednesday");
    reveal_strlit("wed");
    reveal_strlit("thursday");
    reveal_strlit("thu");
    reveal_strlit("thur");
    reveal_strlit("thurs");
    reveal_strlit("friday");
    reveal_strlit("fri");
    reveal_strlit("saturday");
    reveal_strlit("sat");
    reveal_strlit("sunday");
    reveal_strlit("sun");
    let nm = crate::types::day_name(d);
    crate::types::lemma_day_name_chars(d);
    crate::text::lemma_fm_norm_id(nm);
    let vocab = alias_names();
    let k: int = match d {
        DaysOfWeek::Monday => 0,
        DaysOfWeek::Tuesday => 2,
        DaysOfWeek::Wednesday => 5,
        DaysOfWeek::Thursday => 7,
        DaysOfWeek::Friday => 11,
        DaysOfWeek::Saturday => 13,
        DaysOfWeek::Sunday => 15,
    };
    assert(vocab[k] == nm);
    match d {
        DaysOfWeek::Friday => {
            assert("friday"@[0] != "monday"@[0]);
        },
        DaysOfWeek::Saturday => {
            assert("saturday"@[0] != "thursday"@[0]);
        },
        DaysOfWeek::Sunday => {
            assert("sunday"@[0] != "monday"@[0]);
            assert("sunday"@[0] != "friday"@[0]);
        },
        _ => {},
    }
    assert(forall|j: int| 0 <= j < k ==> vocab[j] != nm);
    crate::fuzzy::lemma_exact_accepted(nm, vocab, k);
}

/// Replacing ` and ` leaves a text unchanged when the text nowhere holds
/// a ` and ` separator.
proof fn lemma_replace_and_id(x: Seq<char>)
    requires
        forall|i: int|
            0 <= i && i + 5 <= x.len() ==> #[trigger] x.subrange(i, i + 5) != " and "@,
    ensures
        replace_and_s(x) == x,
    decreases x.len(),
{
    if x.len() >= 5 && x.take(5) == " and "@ {
        assert(x.subrange(0int, 0int + 5) != " and "@);
        assert(x.subrange(0int, 0int + 5) =~= x.take(5));
        assert(false);
    }
    if x.len() > 0 {
        assert(forall|i: int|
            0 <= i && i + 5 <= x.drop_first().len() ==> #[trigger] x.drop_first().subrange(
                i,
                i + 5,
            ) != " and "@) by {
            assert forall|i: int|
                0 <= i && i + 5 <= x.drop_first().len() implies #[trigger] x.drop_first().subrange(
                i,
                i + 5,
            ) != " and "@ by {
                assert(x.subrange(i + 1, i + 1 + 5) != " and "@);
                assert(x.drop_first().subrange(i, i + 5) =~= x.subrange(i + 1, i + 1 + 5));
            }
        }
        lemma_replace_and_id(x.drop_first());
        assert(seq![x[0]] + x.drop_first() =~= x);
    }
}

/// Folding the rendered list of days into an accumulator appends exactly
/// those days, when none is already present and they are distinct.
#[verifier::rlimit(100)]
proof fn lemma_collect_of_list(ds: Seq<DaysOfWeek>, acc: Seq<DaysOfWeek>, padded: bool)
    requires
        ds.len() >= 1,
        forall|a: int, b: int|
            0 <= a < b < ds.len() ==> #[trigger] ds[a] != #[trigger] ds[b],
        forall|a: int| 0 <= a < ds.len() ==> !acc.contains(#[trigger] ds[a]),
    ensures
        collect_days(
            comma_items_from(
                (if padded {
                    seq![' ']
                } else {
                    Seq::<char>::empty()
                }) + crate::types::day_list_seq(ds),
                0,
            ),
            acc,
        ) == Some(acc + ds),
    decreases ds.len(),
{
    let pad: Seq<char> = if padded {
        seq![' ']
    } else {
        Seq::empty()
    };
    let nm = crate::types::day_name(ds[0]);
    let l = pad + crate::types::day_list_seq(ds);
    crate::types::lemma_day_name_chars(ds[0]);
    crate::types::lemma_day_list_shape(ds);
    let item0 = pad + nm;
    if ds.len() == 1 {
        assert(l =~= item0);
        // no comma anywhere in the single item
        lemma_next_comma_stable(l, 0, l.len() as int);
        assert(comma_items_from(l, 0) == seq![l.subrange(0, l.len() as int)]);
        assert(l.subrange(0, l.len() as int) =~= item0);
        lemma_item_is_day(item0, pad, ds[0]);
        assert(collect_days(seq![item0], acc) == collect_days(
            seq![item0].drop_first(),
            append_dedup(acc, seq![ds[0]]),
        ));
        assert(seq![item0].drop_first() =~= Seq::<Seq<char>>::empty());
        lemma_append_one(acc, ds[0]);
        assert(acc.push(ds[0]) =~= acc + ds);
    } else {
        crate::types::lemma_day_list_step(ds);
        let rest = crate::types::day_list_seq(ds.drop_first());
        assert(l =~= item0 + ", "@ + rest);
        reveal_strlit(", ");
        // the first comma sits right after the first name
        let cpos = item0.len() as int;
        assert(l[cpos] == ',');
        assert(forall|j: int| 0 <= j < item0.len() ==> l[j] == #[trigger] item0[j]);
        assert(forall|j: int| 0 <= j < cpos ==> l[j] != ',') by {
            assert(forall|j: int|
                0 <= j < nm.len() ==> item0[pad.len() + j] == #[trigger] nm[j]);
            if padded {
                assert(item0[0] == ' ');
            }
        }
        lemma_next_comma_stable(l, 0, cpos);
        assert(comma_items_from(l, 0) == seq![l.subrange(0, cpos)] + comma_items_from(
            l,
            cpos + 1,
        ));
        assert(l.subrange(0, cpos) =~= item0);
        // the remainder after the comma is the padded rest of the list
        assert(l.skip(cpos + 1) =~= seq![' '] + rest);
        lemma_comma_items_shift(l, cpos + 1);
        lemma_item_is_day(item0, pad, ds[0]);
        lemma_append_one(acc, ds[0]);
        assert(forall|a: int, b: int|
            0 <= a < b < ds.drop_first().len() ==> #[trigger] ds.drop_first()[a]
                != #[trigger] ds.drop_first()[b]) by {
            assert(forall|a: int|
                0 <= a < ds.len() - 1 ==> ds.drop_first()[a] == #[trigger] ds[a + 1]);
        }
        assert(forall|a: int|
            0 <= a < ds.drop_first().len() ==> !acc.push(ds[0]).contains(
                #[trigger] ds.drop_first()[a],
            )) by {
            assert forall|a: int|
                0 <= a < ds.drop_first().len() implies !acc.push(ds[0]).contains(
                #[trigger] ds.drop_first()[a],
            ) by {
                assert(ds.drop_first()[a] == ds[a + 1]);
                if acc.push(ds[0]).contains(ds[a + 1]) {
                    let w = choose|w: int|
                        0 <= w < acc.push(ds[0]).len() && acc.push(ds[0])[w] == ds[a + 1];
                    if w < acc.len() {
                        assert(acc.contains(ds[a + 1]));
                    } else {
                        assert(ds[0] == ds[a + 1]);
                    }
                }
            }
        }
        lemma_collect_of_list(ds.drop_first(), acc.push(ds[0]), true);
        let items = comma_items_from(l, 0);
        assert(items.drop_first() =~= comma_items_from(l, cpos + 1));
        assert(items[0] == item0);
        assert(collect_days(items, acc) == collect_days(
            items.drop_first(),
            append_dedup(acc, seq![ds[0]]),
        ));
        assert(acc.push(ds[0]) + ds.drop_first() =~= acc + ds);
    }
}

/// The comma scan of a suffix equals the scan of the shifted text.
proof fn lemma_comma_items_shift(l: Seq<char>, p: int)
    requires
        0 <= p <= l.len(),
    ensures
        comma_items_from(l, p) == comma_items_from_of(l.skip(p)),
{
    lemma_comma_items_shift_gen(l, p, p);
}

/// Alias to keep the statement readable.
pub open spec fn comma_items_from_of(s: Seq<char>) -> Seq<Seq<char>> {
    comma_items_from(s, 0)
}

proof fn lemma_comma_items_shift_gen(l: Seq<char>, p: int, i: int)
    requires
        0 <= p <= i <= l.len(),
    ensures
        comma_items_from(l, i) == comma_items_from(l.skip(p), i - p),
    decreases l.len() - i,
{
    let t = l.skip(p);
    lemma_next_comma_bounds(l, i);
    lemma_next_comma_shift(l, p, i);
    let j = next_comma(l, i);
    if j >= l.len() {
        assert(t.subrange(i - p, t.len() as int) =~= l.subrange(i, l.len() as int));
    } else {
        assert(t.subrange(i - p, j - p) =~= l.subrange(i, j));
        lemma_comma_items_shift_gen(l, p, j + 1);
        assert(comma_items_from(l, i) == seq![l.subrange(i, j)] + comma_items_from(l, j + 1));
        assert(comma_items_from(t, i - p) == seq![t.subrange(i - p, j - p)] + comma_items_from(
            t,
            j - p + 1,
        ));
    }
}

proof fn lemma_next_comma_shift(l: Seq<char>, p: int, i: int)
    requires
        0 <= p <= i <= l.len(),
    ensures
        next_comma(l.skip(p), i - p) == next_comma(l, i) - p,
    decreases l.len() - i,
{
    let t = l.skip(p);
    if i < l.len() && l[i] != ',' {
        assert(t[i - p] == l[i]);
        lemma_next_comma_shift(l, p, i + 1);
    } else {
        if i < l.len() {
            assert(t[i - p] == l[i]);
        }
    }
}

/// A padded name token is one parseable day group.
proof fn lemma_item_is_day(item: Seq<char>, pad: Seq<char>, d: DaysOfWeek)
    requires
        item == pad + crate::types::day_name(d),
        pad == Seq::<char>::empty() || pad == seq![' '],
    ensures
        crate::text::trim_spec(item) == crate::types::day_name(d),
        crate::text::trim_spec(item).len() > 0,
        day_group_spec(crate::text::trim_spec(item)) == Some(seq![d]),
{
    let nm = crate::types::day_name(d);
    crate::types::lemma_day_name_chars(d);
    // trimming strips just the pad
    if pad.len() == 0 {
        assert(item =~= nm);
        assert(crate::text::trim_front(item) == item);
        assert(crate::text::trim_back(item) == item) by {
            assert(!crate::text::is_space(item.last()));
        }
    } else {
        assert(item[0] == ' ');
        assert(item.drop_first() =~= nm);
        assert(crate::text::trim_front(item) == crate::text::trim_front(nm));
        assert(crate::text::trim_front(nm) == nm);
        assert(crate::text::trim_back(nm) == nm) by {
            assert(!crate::text::is_space(nm.last()));
        }
    }
    // a name holds no dash, so the token is a single day
    assert(forall|j: int| 0 <= j < nm.len() ==> nm[j] != '-');
    lemma_first_dash_stable(nm, 0, nm.len() as int);
    lemma_day_name_parses(d);
}

/// Appending one new day to the accumulator.
proof fn lemma_append_one(acc: Seq<DaysOfWeek>, d: DaysOfWeek)
    requires
        !acc.contains(d),
    ensures
        append_dedup(acc, seq![d]) == acc.push(d),
{
    assert(seq![d].drop_first() =~= Seq::<DaysOfWeek>::empty());
    assert(append_dedup(acc.push(d), Seq::<DaysOfWeek>::empty()) == acc.push(d));
}

/// The rendered day list parses back to exactly those days.
pub proof fn lemma_weekly_list_round_trip(ds: Seq<DaysOfWeek>)
    requires
        ds.len() >= 1,
        forall|a: int, b: int|
            0 <= a < b < ds.len() ==> #[trigger] ds[a] != #[trigger] ds[b],
    ensures
        weekly_days_spec(crate::types::day_list_seq(ds)) == Some(ds),
{
    let l = crate::types::day_list_seq(ds);
    crate::types::lemma_day_list_shape(ds);
    assert(forall|i: int|
        0 <= i && i + 5 <= l.len() ==> #[trigger] l.subrange(i, i + 5) != " and "@) by {
        reveal_strlit(" and ");
        assert forall|i: int|
            0 <= i && i + 5 <= l.len() implies #[trigger] l.subrange(i, i + 5) != " and "@ by {
            if l.subrange(i, i + 5) == " and "@ {
                assert(l[i + 4] == l.subrange(i, i + 5)[4]);
                assert(l[i + 3] == l.subrange(i, i + 5)[3]);
                assert(l[i + 4] == ' ' && l[i + 3] == 'd');
            }
        }
    }
    lemma_replace_and_id(l);
    assert(Seq::<char>::empty() + l =~= l);
    lemma_collect_of_list(ds, Seq::empty(), false);
    assert(Seq::<DaysOfWeek>::empty() + ds =~= ds);
}

} // verus!

verus! {

/// A rendered ordinal day parses back to its value.
pub proof fn lemma_ordinal_round_trip(d: int)
    requires
        1 <= d <= 31,
    ensures
        monthly_day_spec(crate::types::ordinal_seq(d)) == Some(d),
{
    let u = crate::types::ordinal_seq(d);
    let digits = crate::text::dec_seq(d);
    let suf = crate::types::ordinal_suffix(d);
    crate::text::lemma_dec_seq_val(d);
    reveal_strlit("st");
    reveal_strlit("nd");
    reveal_strlit("rd");
    reveal_strlit("th");
    reveal_strlit("the ");
    assert(suf.len() == 2);
    assert(!crate::text::is_digit(suf[0]));
    // the token is already trimmed: digits then letters
    assert(forall|j: int| 0 <= j < digits.len() ==> u[j] == #[trigger] digits[j]);
    assert(forall|j: int| 0 <= j < 2 ==> u[digits.len() + j] == #[trigger] suf[j]);
    assert(!crate::text::is_space(u[0]));
    assert(!crate::text::is_space(u.last()));
    assert(crate::text::trim_front(u) == u);
    assert(crate::text::trim_back(u) == u);
    // no leading `the `
    assert(u.len() >= 4 ==> u.take(4) != "the "@) by {
        if u.len() >= 4 {
            assert(u.take(4)[0] == u[0]);
            assert(crate::text::is_digit(u[0]));
        }
    }
    assert(strip_the(crate::text::trim_spec(u)) == u);
    // the digit run is exactly the rendered digits
    crate::text::lemma_next_nondigit_stable(u, 0, digits.len() as int);
    let k = digits.len() as int;
    assert(1 <= k <= 2);
    assert(u.skip(k) =~= suf);
    assert(u.take(k) =~= digits);
    assert(suf == "st"@ || suf == "nd"@ || suf == "rd"@ || suf == "th"@);
}

/// Is a rule expressible in the grammar such that it reads back equal? A
/// weekly list must be non-empty, free of duplicates and shorter than the
/// full week (a seven-day list renders as bare `weekly`, which reads back
/// as the single current weekday); a monthly day must lie in 1..=31.
pub open spec fn rec_representable(r: Reccurence) -> bool {
    match r {
        Reccurence::Daily => true,
        Reccurence::Yearly => true,
        Reccurence::Monthly(None) => true,
        Reccurence::Monthly(Some(d)) => 1 <= d <= 31,
        Reccurence::Weekly(days) => 1 <= days@.len() < 7 && (forall|a: int, b: int|
            0 <= a < b < days@.len() ==> #[trigger] days@[a] != #[trigger] days@[b]),
    }
}

/// The law of recurrence canonicalization: any parse result of a rendered
/// representable rule holds exactly the pattern that was rendered.
pub proof fn lemma_rec_round_trip(rec: Reccurence, today: DaysOfWeek, r: Option<Reccurence>)
    requires
        rec_representable(rec),
        parse_rec_rel(crate::types::rec_seq(rec), today, r),
    ensures
        r matches Some(x) && crate::types::rec_eq_spec(x, rec),
{
    reveal_strlit("daily");
    reveal_strlit("monthly");
    reveal_strlit("yearly");
    reveal_strlit("weekly");
    reveal_strlit("weekly on ");
    reveal_strlit("monthly on ");
    let s = crate::types::rec_seq(rec);
    match rec {
        Reccurence::Daily => {
            lemma_keyword_norm("daily");
            assert(crate::fuzzy::fm_norm(s) == "daily"@);
        },
        Reccurence::Yearly => {
            lemma_keyword_norm("yearly");
            assert("yearly"@ != "daily"@);
            assert("yearly"@ != "monthly"@);
            assert("yearly"@ != "weekly"@) by {
                assert("yearly"@[0] == 'y' && "weekly"@[0] == 'w');
            }
        },
        Reccurence::Monthly(None) => {
            lemma_keyword_norm("monthly");
            assert("monthly"@ != "daily"@);
            assert("monthly"@ != "yearly"@);
            assert("monthly"@ != "weekly"@);
        },
        Reccurence::Monthly(Some(day)) => {
            let ord = crate::types::ordinal_seq(day as int);
            crate::text::lemma_dec_seq_val(day as int);
            reveal_strlit("st");
            reveal_strlit("nd");
            reveal_strlit("rd");
            reveal_strlit("th");
            assert(s =~= "monthly on "@ + ord);
            lemma_monthly_phrase_norm(day as int);
            let t = crate::fuzzy::fm_norm(s);
            assert(t == s);
            assert(t.len() >= 12);
            assert(t != "daily"@ && t != "monthly"@ && t != "yearly"@ && t != "weekly"@);
            assert(!crate::text::has_prefix(t, "weekly on "@)) by {
                if crate::text::has_prefix(t, "weekly on "@) {
                    assert(t.take(10)[0] == t[0]);
                    assert(t[0] == 'm');
                }
            }
            assert(crate::text::has_prefix(t, "monthly on "@)) by {
                assert(t.take(11) =~= "monthly on "@);
            }
            assert(t.skip(11) =~= ord);
            lemma_ordinal_round_trip(day as int);
        },
        Reccurence::Weekly(days) => {
            let l = crate::types::day_list_seq(days@);
            crate::types::lemma_day_list_shape(days@);
            assert(s =~= "weekly on "@ + l);
            lemma_weekly_phrase_norm(days@);
            let t = crate::fuzzy::fm_norm(s);
            assert(t == s);
            assert(t.len() >= 13);
            assert(t != "daily"@ && t != "monthly"@ && t != "yearly"@ && t != "weekly"@);
            assert(crate::text::has_prefix(t, "weekly on "@)) by {
                assert(t.take(10) =~= "weekly on "@);
            }
            assert(t.skip(10) =~= l);
            lemma_weekly_list_round_trip(days@);
        },
    }
}

/// A bare keyword phrase normalizes to itself.
proof fn lemma_keyword_norm(lit: &str)
    requires
        forall|i: int|
            0 <= i < lit@.len() ==> crate::text::is_lower_alpha(#[trigger] lit@[i]),
        lit@.len() > 0,
    ensures
        crate::fuzzy::fm_norm(lit@) == lit@,
{
    crate::text::lemma_fm_norm_id(lit@);
}

/// A `monthly on <ordinal>` phrase normalizes to itself.
proof fn lemma_monthly_phrase_norm(d: int)
    requires
        1 <= d <= 31,
    ensures
        crate::fuzzy::fm_norm("monthly on "@ + crate::types::ordinal_seq(d)) == "monthly on "@
            + crate::types::ordinal_seq(d),
{
    reveal_strlit("monthly on ");
    reveal_strlit("st");
    reveal_strlit("nd");
    reveal_strlit("rd");
    reveal_strlit("th");
    let ord = crate::types::ordinal_seq(d);
    let s = "monthly on "@ + ord;
    crate::text::lemma_dec_seq_val(d);
    crate::text::lemma_digit_lower();
    assert(forall|i: int|
        0 <= i < s.len() ==> crate::text::lower_char(#[trigger] s[i]) == s[i]) by {
        assert forall|i: int|
            0 <= i < s.len() implies crate::text::lower_char(#[trigger] s[i]) == s[i] by {
            if i < 11 {
                assert(s[i] == "monthly on "@[i]);
            } else if i < 11 + crate::text::dec_seq(d).len() {
                assert(s[i] == crate::text::dec_seq(d)[i - 11]);
                assert(crate::text::is_digit(s[i]));
            } else {
                assert(s[i] == crate::types::ordinal_suffix(d)[i - 11 - crate::text::dec_seq(
                    d,
                ).len()]);
            }
        }
    }
    assert(!crate::text::is_space(s[0]));
    assert(!crate::text::is_space(s.last()));
    crate::text::lemma_fm_norm_id(s);
}

/// A `weekly on <list>` phrase normalizes to itself.
proof fn lemma_weekly_phrase_norm(ds: Seq<DaysOfWeek>)
    requires
        ds.len() >= 1,
    ensures
        crate::fuzzy::fm_norm("weekly on "@ + crate::types::day_list_seq(ds)) == "weekly on "@
            + crate::types::day_list_seq(ds),
{
    reveal_strlit("weekly on ");
    let l = crate::types::day_list_seq(ds);
    let s = "weekly on "@ + l;
    crate::types::lemma_day_list_shape(ds);
    assert(forall|i: int|
        0 <= i < s.len() ==> crate::text::lower_char(#[trigger] s[i]) == s[i]) by {
        assert forall|i: int|
            0 <= i < s.len() implies crate::text::lower_char(#[trigger] s[i]) == s[i] by {
            if i < 10 {
                assert(s[i] == "weekly on "@[i]);
            } else {
                assert(s[i] == l[i - 10]);
            }
        }
    }
    assert(!crate::text::is_space(s[0]));
    assert(s.last() == l.last());
    assert(!crate::text::is_space(s.last()));
    crate::text::lemma_fm_norm_id(s);
}

} // verus!

verus! {

/// The law of typo tolerance in weekday parsing: any token the fuzzy
/// matcher accepts as a weekday alias parses to exactly the weekday its
/// canonical full name parses to.
pub proof fn lemma_typo_names_same_day(tok: Seq<char>, i: int)
    requires
        crate::fuzzy::fuzzy_spec(tok, alias_names()) == Some(i),
    ensures
        0 <= i < alias_names().len(),
        parse_day_spec(tok) is Some,
        parse_day_spec(tok) == parse_day_spec(crate::types::day_name(alias_day(i))),
{
    crate::fuzzy::lemma_fuzzy_spec_range(tok, alias_names());
    lemma_day_name_parses(alias_day(i));
}

} // verus!

verus! {

/// A `weekly on ` phrase around one all-letter token normalizes to itself.
proof fn lemma_weekly_on_tok_norm(tok: Seq<char>)
    requires
        tok.len() >= 1,
        forall|j: int| 0 <= j < tok.len() ==> crate::text::is_lower_alpha(#[trigger] tok[j]),
    ensures
        crate::fuzzy::fm_norm("weekly on "@ + tok) == "weekly on "@ + tok,
{
    reveal_strlit("weekly on ");
    let s = "weekly on "@ + tok;
    assert(forall|i: int|
        0 <= i < s.len() ==> crate::text::lower_char(#[trigger] s[i]) == s[i]) by {
        assert forall|i: int|
            0 <= i < s.len() implies crate::text::lower_char(#[trigger] s[i]) == s[i] by {
            if i < 10 {
                assert(s[i] == "weekly on "@[i]);
            } else {
                assert(s[i] == tok[i - 10]);
            }
        }
    }
    assert(!crate::text::is_space(s[0]));
    assert(s.last() == tok.last());
    assert(!crate::text::is_space(s.last()));
    crate::text::lemma_fm_norm_id(s);
}

/// A `weekly on ` phrase around one parseable all-letter token names exactly
/// the weekday that token names.
proof fn lemma_weekly_on_token(tok: Seq<char>, d: DaysOfWeek, today: DaysOfWeek, r: Option<
    Reccurence,
>)
    requires
        tok.len() >= 1,
        forall|j: int| 0 <= j < tok.len() ==> crate::text::is_lower_alpha(#[trigger] tok[j]),
        parse_day_spec(tok) == Some(d),
        parse_rec_rel("weekly on "@ + tok, today, r),
    ensures
        r matches Some(x) && (x matches Reccurence::Weekly(days) && days@ == seq![d]),
{
    reveal_strlit("daily");
    reveal_strlit("monthly");
    reveal_strlit("yearly");
    reveal_strlit("weekly");
    reveal_strlit("weekly on ");
    let s = "weekly on "@ + tok;
    lemma_weekly_on_tok_norm(tok);
    let t = crate::fuzzy::fm_norm(s);
    assert(t == s);
    assert(t.len() >= 11);
    assert(t != "daily"@ && t != "monthly"@ && t != "yearly"@ && t != "weekly"@);
    assert(crate::text::has_prefix(t, "weekly on "@)) by {
        assert(t.take(10) =~= "weekly on "@);
    }
    assert(t.skip(10) =~= tok);
    // the single token is the whole day list
    assert(weekly_days_spec(tok) == Some(seq![d])) by {
        assert(forall|i: int|
            0 <= i && i + 5 <= tok.len() ==> #[trigger] tok.subrange(i, i + 5) != " and "@) by {
            reveal_strlit(" and ");
            assert forall|i: int|
                0 <= i && i + 5 <= tok.len() implies #[trigger] tok.subrange(i, i + 5)
                != " and "@ by {
                if tok.subrange(i, i + 5) == " and "@ {
                    assert(tok[i] == tok.subrange(i, i + 5)[0]);
                    assert(crate::text::is_lower_alpha(tok[i]) && tok[i] == ' ');
                }
            }
        }
        lemma_replace_and_id(tok);
        lemma_next_comma_stable(tok, 0, tok.len() as int);
        assert(comma_items_from(tok, 0) == seq![tok.subrange(0, tok.len() as int)]);
        assert(tok.subrange(0, tok.len() as int) =~= tok);
        // the token is already trimmed and holds no range dash
        assert(crate::text::trim_spec(tok) == tok) by {
            assert(!crate::text::is_space(tok[0]));
            assert(!crate::text::is_space(tok.last()));
        }
        assert(day_group_spec(tok) == Some(seq![d])) by {
            assert(forall|j: int| 0 <= j < tok.len() ==> #[trigger] tok[j] != '-');
            lemma_first_dash_stable(tok, 0, tok.len() as int);
        }
        lemma_append_one(Seq::empty(), d);
        assert(collect_days(seq![tok], Seq::empty()) == collect_days(
            seq![tok].drop_first(),
            Seq::empty().push(d),
        ));
        assert(seq![tok].drop_first() =~= Seq::<Seq<char>>::empty());
        assert(Seq::<DaysOfWeek>::empty().push(d) =~= seq![d]);
    }
}

/// The phrase-level law of weekly typo tolerance: a `weekly on <token>`
/// phrase with a misspelled weekday the matcher accepts parses to exactly
/// the rule the canonical full name gives — the misspelling is accepted
/// identically to the canonical spelling.
pub proof fn lemma_weekly_phrase_typo(
    w: Seq<char>,
    i: int,
    today: DaysOfWeek,
    r1: Option<Reccurence>,
    r2: Option<Reccurence>,
)
    requires
        w.len() >= 1,
        forall|j: int| 0 <= j < w.len() ==> crate::text::is_lower_alpha(#[trigger] w[j]),
        crate::fuzzy::fuzzy_spec(w, alias_names()) == Some(i),
        parse_rec_rel("weekly on "@ + w, today, r1),
        parse_rec_rel("weekly on "@ + crate::types::day_name(alias_day(i)), today, r2),
    ensures
        r1 is Some && r2 is Some,
        crate::types::rec_eq_spec(r1.unwrap(), r2.unwrap()),
{
    let d = alias_day(i);
    lemma_weekly_on_token(w, d, today, r1);
    crate::types::lemma_day_name_chars(d);
    lemma_day_name_parses(d);
    lemma_weekly_on_token(crate::types::day_name(d), d, today, r2);
}

} // verus!
