use vstd::prelude::*;

verus! {

/// A calendar date in the proleptic Gregorian calendar, years 1 through 9999.
#[derive(Clone, Copy, Debug, PartialEq, Eq, Structural)]
pub struct Date {
    pub year: i32,
    pub month: u8,
    pub day: u8,
}

/// A civil date with a time of day, at second precision. The same structure
/// serves for instants in UTC and for wall-clock datetimes in a fixed offset;
/// which one is meant follows from context.
#[derive(Clone, Copy, Debug, PartialEq, Eq, Structural)]
pub struct Timestamp {
    pub date: Date,
    pub hour: u8,
    pub minute: u8,
    pub second: u8,
}

pub open spec fn is_leap_year(y: int) -> bool {
    (y % 4 == 0 && y % 100 != 0) || y % 400 == 0
}

pub open spec fn days_in_month_of(y: int, m: int) -> int {
    if m == 2 {
        if is_leap_year(y) {
            29
        } else {
            28
        }
    } else if m == 4 || m == 6 || m == 9 || m == 11 {
        30
    } else {
        31
    }
}

pub open spec fn year_days(y: int) -> int {
    if is_leap_year(y) {
        366
    } else {
        365
    }
}

/// Days in all years strictly before year `y`, counted from year 1.
pub open spec fn days_before_year(y: int) -> int
    decreases y,
{
    if y <= 1 {
        0
    } else {
        days_before_year(y - 1) + year_days(y - 1)
    }
}

/// Days in the months of year `y` strictly before month `m`.
pub open spec fn days_before_month(y: int, m: int) -> int
    decreases m,
{
    if m <= 1 {
        0
    } else {
        days_before_month(y, m - 1) + days_in_month_of(y, m - 1)
    }
}

pub open spec fn valid_date(d: Date) -> bool {
    1 <= d.year <= 9999 && 1 <= d.month <= 12 && 1 <= d.day <= days_in_month_of(
        d.year as int,
        d.month as int,
    )
}

pub open spec fn valid_timestamp(t: Timestamp) -> bool {
    valid_date(t.date) && t.hour < 24 && t.minute < 60 && t.second < 60
}

/// Index of a date on the timeline: the number of days since 0001-01-01.
pub open spec fn date_index(d: Date) -> int {
    days_before_year(d.year as int) + days_before_month(d.year as int, d.month as int) + d.day - 1
}

/// Seconds into the day.
pub open spec fn seconds_of_day(t: Timestamp) -> int {
    t.hour * 3600 + t.minute * 60 + t.second
}

/// Index of a timestamp on the timeline: seconds since 0001-01-01T00:00:00.
pub open spec fn timestamp_index(t: Timestamp) -> int {
    date_index(t.date) * 86400 + seconds_of_day(t)
}

/// Day of the week as 0 = Monday .. 6 = Sunday (0001-01-01 was a Monday).
pub open spec fn weekday_index(d: Date) -> int {
    date_index(d) % 7
}

pub fn leap_year(y: i32) -> (r: bool)
    requires
        y >= 0,
    ensures
        r == is_leap_year(y as int),
{
    (y % 4 == 0 && y % 100 != 0) || y % 400 == 0
}

pub fn days_in_month(y: i32, m: u8) -> (r: u8)
    requires
        y >= 0,
    ensures
        r as int == days_in_month_of(y as int, m as int),
{
    if m == 2 {
        if leap_year(y) {
            29
        } else {
            28
        }
    } else if m == 4 || m == 6 || m == 9 || m == 11 {
        30
    } else {
        31
    }
}

/// Days-before-year bound used to rule out overflow in day counting.
proof fn lemma_days_before_year_bound(y: int)
    requires
        y >= 1,
    ensures
        0 <= days_before_year(y) <= 366 * (y - 1),
    decreases y,
{
    if y > 1 {
        lemma_days_before_year_bound(y - 1);
    }
}

/// Days-before-month bound.
proof fn lemma_days_before_month_bound(y: int, m: int)
    requires
        m >= 1,
    ensures
        0 <= days_before_month(y, m) <= 31 * (m - 1),
    decreases m,
{
    if m > 1 {
        lemma_days_before_month_bound(y, m - 1);
    }
}

/// Day of the week of a valid date, 0 = Monday .. 6 = Sunday.
pub fn weekday_of(d: &Date) -> (r: u8)
    requires
        valid_date(*d),
    ensures
        r as int == weekday_index(*d),
        r < 7,
{
    let mut acc: u32 = 0;
    let mut y: i32 = 1;
    while y < d.year
        invariant
            1 <= y <= d.year <= 9999,
            acc as int == days_before_year(y as int),
        decreases d.year - y,
    {
        proof {
            lemma_days_before_year_bound(y as int + 1);
        }
        if leap_year(y) {
            acc = acc + 366;
        } else {
            acc = acc + 365;
        }
        y = y + 1;
    }
    let mut m: u8 = 1;
    while m < d.month
        invariant
            1 <= m <= d.month <= 12,
            1 <= d.year <= 9999,
            acc as int == days_before_year(d.year as int) + days_before_month(
                d.year as int,
                m as int,
            ),
        decreases d.month - m,
    {
        proof {
            lemma_days_before_year_bound(d.year as int);
            lemma_days_before_month_bound(d.year as int, m as int + 1);
        }
        acc = acc + days_in_month(d.year, m) as u32;
        m = m + 1;
    }
    proof {
        lemma_days_before_year_bound(d.year as int);
        lemma_days_before_month_bound(d.year as int, d.month as int);
    }
    let total: u32 = acc + (d.day - 1) as u32;
    (total % 7) as u8
}

} // verus!

verus! {

/// The last representable date.
pub open spec fn max_date() -> Date {
    Date { year: 9999, month: 12, day: 31 }
}

/// The last representable instant.
pub open spec fn max_timestamp_index() -> int {
    date_index(max_date()) * 86400 + 86399
}

/// Cumulative days before month `m` in a non-leap year.
pub open spec fn month_offset(m: int) -> int {
    if m <= 1 {
        0
    } else if m == 2 {
        31
    } else if m == 3 {
        59
    } else if m == 4 {
        90
    } else if m == 5 {
        120
    } else if m == 6 {
        151
    } else if m == 7 {
        181
    } else if m == 8 {
        212
    } else if m == 9 {
        243
    } else if m == 10 {
        273
    } else if m == 11 {
        304
    } else if m == 12 {
        334
    } else {
        365
    }
}

pub proof fn lemma_days_before_month_closed(y: int, m: int)
    requires
        1 <= m <= 13,
    ensures
        days_before_month(y, m) == month_offset(m) + if m > 2 && is_leap_year(y) {
            1int
        } else {
            0int
        },
{
    reveal_with_fuel(days_before_month, 14);
}

/// The day after `d`; `None` only past the end of the representable range.
pub fn next_day(d: &Date) -> (r: Option<Date>)
    requires
        valid_date(*d),
    ensures
        r == next_day_s(*d),
        r is Some <==> *d != max_date(),
        r is Some ==> valid_date(r.unwrap()) && date_index(r.unwrap()) == date_index(*d) + 1,
{
    proof {
        lemma_next_day_s(*d);
    }
    let dim = days_in_month(d.year, d.month);
    if d.day < dim {
        Some(Date { year: d.year, month: d.month, day: d.day + 1 })
    } else if d.month < 12 {
        let r = Date { year: d.year, month: d.month + 1, day: 1 };
        proof {
            assert(days_before_month(d.year as int, d.month as int + 1) == days_before_month(
                d.year as int,
                d.month as int,
            ) + days_in_month_of(d.year as int, d.month as int));
        }
        Some(r)
    } else if d.year < 9999 {
        let r = Date { year: d.year + 1, month: 1, day: 1 };
        proof {
            lemma_days_before_month_closed(d.year as int, 12);
            assert(days_before_year(d.year as int + 1) == days_before_year(d.year as int)
                + year_days(d.year as int));
        }
        Some(r)
    } else {
        None
    }
}

/// The day before `d`; `None` only before the start of the representable range.
pub fn prev_day(d: &Date) -> (r: Option<Date>)
    requires
        valid_date(*d),
    ensures
        r == prev_day_s(*d),
        r is Some <==> !(d.year == 1 && d.month == 1 && d.day == 1),
        r is Some ==> valid_date(r.unwrap()) && date_index(r.unwrap()) == date_index(*d) - 1,
{
    proof {
        lemma_prev_day_s(*d);
    }
    if d.day > 1 {
        Some(Date { year: d.year, month: d.month, day: d.day - 1 })
    } else if d.month > 1 {
        let dim = days_in_month(d.year, d.month - 1);
        let r = Date { year: d.year, month: d.month - 1, day: dim };
        proof {
            assert(days_before_month(d.year as int, d.month as int) == days_before_month(
                d.year as int,
                d.month as int - 1,
            ) + days_in_month_of(d.year as int, d.month as int - 1));
        }
        Some(r)
    } else if d.year > 1 {
        let r = Date { year: d.year - 1, month: 12, day: 31 };
        proof {
            lemma_days_before_month_closed(d.year as int - 1, 12);
            assert(days_before_year(d.year as int) == days_before_year(d.year as int - 1)
                + year_days(d.year as int - 1));
        }
        Some(r)
    } else {
        None
    }
}

/// `d` advanced by `n` days; `None` only past the end of the range.
pub fn add_days(d: &Date, n: u8) -> (r: Option<Date>)
    requires
        valid_date(*d),
    ensures
        r == add_days_s(*d, n as int),
        r is Some ==> valid_date(r.unwrap()) && date_index(r.unwrap()) == date_index(*d) + n,
        r is None ==> date_index(*d) + n > date_index(max_date()),
{
    proof {
        lemma_add_days_s(*d, n as int);
    }
    let mut cur = *d;
    let mut i: u8 = 0;
    while i < n
        invariant
            i <= n,
            valid_date(*d),
            valid_date(cur),
            date_index(cur) == date_index(*d) + i,
            add_days_s(*d, n as int) == add_days_s(cur, (n - i) as int),
        decreases n - i,
    {
        match next_day(&cur) {
            Some(nd) => {
                cur = nd;
            },
            None => {
                proof {
                    lemma_date_index_le_max(cur);
                    lemma_add_days_s(*d, n as int);
                }
                return None;
            },
        }
        i = i + 1;
    }
    proof {
        lemma_add_days_s(*d, n as int);
    }
    Some(cur)
}

/// Every valid date lies at or before the last representable date.
pub proof fn lemma_date_index_le_max(d: Date)
    requires
        valid_date(d),
    ensures
        date_index(d) <= date_index(max_date()),
        date_index(d) >= 0,
{
    let y = d.year as int;
    let m = d.month as int;
    lemma_days_before_month_closed(y, m);
    lemma_days_before_month_closed(9999, 12);
    lemma_days_before_year_bound_low(y);
    lemma_days_before_month_bound_low(y, m);
    assert(!is_leap_year(9999));
    assert(month_offset(m) <= 334);
    if y < 9999 {
        lemma_days_before_year_mono(y + 1, 9999);
        assert(days_before_year(y + 1) == days_before_year(y) + year_days(y));
    }
}

proof fn lemma_days_before_year_mono(a: int, b: int)
    requires
        a <= b,
    ensures
        days_before_year(a) <= days_before_year(b),
    decreases b - a,
{
    if a < b {
        lemma_days_before_year_mono(a, b - 1);
    }
}

proof fn lemma_days_before_year_bound_low(y: int)
    ensures
        days_before_year(y) >= 0,
    decreases (if y >= 1 { y } else { 1 }),
{
    if y > 1 {
        lemma_days_before_year_bound_low(y - 1);
    }
}

proof fn lemma_days_before_month_bound_low(y: int, m: int)
    ensures
        days_before_month(y, m) >= 0,
    decreases (if m >= 1 { m } else { 1 }),
{
    if m > 1 {
        lemma_days_before_month_bound_low(y, m - 1);
    }
}

/// `t` shifted by `delta` seconds; `None` only outside the representable range.
pub fn shift_by_seconds(t: &Timestamp, delta: i32) -> (r: Option<Timestamp>)
    requires
        valid_timestamp(*t),
        -86400 < delta < 86400,
    ensures
        r == shift_s(*t, delta as int),
        r is Some ==> valid_timestamp(r.unwrap()) && timestamp_index(r.unwrap())
            == timestamp_index(*t) + delta,
        r is None ==> timestamp_index(*t) + delta < 0 || timestamp_index(*t) + delta
            > max_timestamp_index(),
{
    proof {
        lemma_shift_s(*t, delta as int);
    }
    let tod: i32 = (t.hour as i32) * 3600 + (t.minute as i32) * 60 + (t.second as i32);
    let total: i32 = tod + delta;
    let (date2, tod2): (Date, i32) = if total < 0 {
        match prev_day(&t.date) {
            Some(p) => (p, total + 86400),
            None => {
                proof {
                    lemma_date_index_zero(t.date);
                }
                return None;
            },
        }
    } else if total >= 86400 {
        match next_day(&t.date) {
            Some(nx) => (nx, total - 86400),
            None => {
                proof {
                    lemma_date_index_le_max(t.date);
                }
                return None;
            },
        }
    } else {
        (t.date, total)
    };
    let r = Timestamp {
        date: date2,
        hour: (tod2 / 3600) as u8,
        minute: ((tod2 / 60) % 60) as u8,
        second: (tod2 % 60) as u8,
    };
    proof {
        assert(0 <= tod2 < 86400);
        assert(r.hour as int == tod2 / 3600);
        assert(seconds_of_day(r) == tod2) by {
            assert((tod2 / 3600) * 3600 + ((tod2 / 60) % 60) * 60 + tod2 % 60 == tod2)
                by (nonlinear_arith)
                requires
                    0 <= tod2 < 86400,
            ;
        }
        lemma_date_index_le_max(r.date);
    }
    Some(r)
}

proof fn lemma_date_index_zero(d: Date)
    requires
        valid_date(d),
        d.year == 1 && d.month == 1 && d.day == 1,
    ensures
        date_index(d) == 0,
{
}

/// A positive-valued index is at least 0 for every valid date.
pub proof fn lemma_timestamp_index_nonneg(t: Timestamp)
    requires
        valid_timestamp(t),
    ensures
        0 <= timestamp_index(t) <= max_timestamp_index(),
{
    lemma_date_index_le_max(t.date);
}

/// First day of the following month, with the day clamped to that month's
/// length: day becomes `min(day_pref, length of target month)`.
pub fn add_one_month(d: &Date, day_pref: u8) -> (r: Option<Date>)
    requires
        valid_date(*d),
        1 <= day_pref <= 31,
    ensures
        r == add_one_month_s(*d, day_pref as int),
        r is Some <==> !(d.year == 9999 && d.month == 12),
        r is Some ==> valid_date(r.unwrap()) && date_index(r.unwrap()) > date_index(*d),
{
    proof {
        lemma_add_one_month_s(*d, day_pref as int);
    }
    let (ty, tm): (i32, u8) = if d.month == 12 {
        if d.year == 9999 {
            return None;
        }
        (d.year + 1, 1)
    } else {
        (d.year, d.month + 1)
    };
    let dim = days_in_month(ty, tm);
    let day = if day_pref <= dim {
        day_pref
    } else {
        dim
    };
    let n = Date { year: ty, month: tm, day };
    proof {
        if d.month == 12 {
            lemma_days_before_month_closed(d.year as int, 12);
            assert(days_before_year(d.year as int + 1) == days_before_year(d.year as int)
                + year_days(d.year as int));
        } else {
            assert(days_before_month(d.year as int, d.month as int + 1) == days_before_month(
                d.year as int,
                d.month as int,
            ) + days_in_month_of(d.year as int, d.month as int));
        }
    }
    Some(n)
}

/// Same month next year, with the day clamped to that month's length.
pub fn add_one_year(d: &Date) -> (r: Option<Date>)
    requires
        valid_date(*d),
    ensures
        r == add_one_year_s(*d),
        r is Some <==> d.year < 9999,
        r is Some ==> valid_date(r.unwrap()) && date_index(r.unwrap()) > date_index(*d),
{
    proof {
        lemma_add_one_year_s(*d);
    }
    if d.year >= 9999 {
        return None;
    }
    let dim = days_in_month(d.year + 1, d.month);
    let day = if d.day <= dim {
        d.day
    } else {
        dim
    };
    let n = Date { year: d.year + 1, month: d.month, day };
    proof {
        lemma_days_before_month_closed(d.year as int, d.month as int);
        lemma_days_before_month_closed(d.year as int + 1, d.month as int);
        assert(days_before_year(d.year as int + 1) == days_before_year(d.year as int)
            + year_days(d.year as int));
    }
    Some(n)
}

} // verus!

verus! {

// ---------------------------------------------------------------------------
// Functional forms of the calendar steps, used by contracts downstream
// ---------------------------------------------------------------------------
/// The day after `d`.
pub open spec fn next_day_s(d: Date) -> Option<Date> {
    if d.day < days_in_month_of(d.year as int, d.month as int) {
        Some(Date { year: d.year, month: d.month, day: (d.day + 1) as u8 })
    } else if d.month < 12 {
        Some(Date { year: d.year, month: (d.month + 1) as u8, day: 1 })
    } else if d.year < 9999 {
        Some(Date { year: (d.year + 1) as i32, month: 1, day: 1 })
    } else {
        None
    }
}

/// The day before `d`.
pub open spec fn prev_day_s(d: Date) -> Option<Date> {
    if d.day > 1 {
        Some(Date { year: d.year, month: d.month, day: (d.day - 1) as u8 })
    } else if d.month > 1 {
        Some(
            Date {
                year: d.year,
                month: (d.month - 1) as u8,
                day: days_in_month_of(d.year as int, d.month as int - 1) as u8,
            },
        )
    } else if d.year > 1 {
        Some(Date { year: (d.year - 1) as i32, month: 12, day: 31 })
    } else {
        None
    }
}

/// `d` advanced by `n` days.
pub open spec fn add_days_s(d: Date, n: int) -> Option<Date>
    decreases n,
{
    if n <= 0 {
        Some(d)
    } else {
        match next_day_s(d) {
            Some(x) => add_days_s(x, n - 1),
            None => None,
        }
    }
}

/// `t` shifted by `delta` seconds (for -86400 < delta < 86400).
pub open spec fn shift_s(t: Timestamp, delta: int) -> Option<Timestamp> {
    let total = seconds_of_day(t) + delta;
    let step = if total < 0 {
        prev_day_s(t.date)
    } else if total >= 86400 {
        next_day_s(t.date)
    } else {
        Some(t.date)
    };
    let tod = if total < 0 {
        total + 86400
    } else if total >= 86400 {
        total - 86400
    } else {
        total
    };
    match step {
        Some(d2) => Some(
            Timestamp {
                date: d2,
                hour: (tod / 3600) as u8,
                minute: ((tod / 60) % 60) as u8,
                second: (tod % 60) as u8,
            },
        ),
        None => None,
    }
}

/// First day-of-month clamp for the month after `d`.
pub open spec fn add_one_month_s(d: Date, day_pref: int) -> Option<Date> {
    if d.month == 12 && d.year == 9999 {
        None
    } else {
        let ty: int = if d.month == 12 {
            d.year + 1
        } else {
            d.year as int
        };
        let tm: int = if d.month == 12 {
            1
        } else {
            d.month + 1
        };
        let dim = days_in_month_of(ty, tm);
        Some(
            Date {
                year: ty as i32,
                month: tm as u8,
                day: (if day_pref <= dim {
                    day_pref
                } else {
                    dim
                }) as u8,
            },
        )
    }
}

/// Same month next year, day clamped to the month's length.
pub open spec fn add_one_year_s(d: Date) -> Option<Date> {
    if d.year >= 9999 {
        None
    } else {
        let dim = days_in_month_of(d.year + 1, d.month as int);
        Some(
            Date {
                year: (d.year + 1) as i32,
                month: d.month,
                day: (if d.day <= dim {
                    d.day as int
                } else {
                    dim
                }) as u8,
            },
        )
    }
}

// ---------------------------------------------------------------------------
// Properties of the functional forms
// ---------------------------------------------------------------------------
pub proof fn lemma_next_day_s(d: Date)
    requires
        valid_date(d),
    ensures
        next_day_s(d) is Some <==> d != max_date(),
        next_day_s(d) is Some ==> valid_date(next_day_s(d).unwrap()) && date_index(
            next_day_s(d).unwrap(),
        ) == date_index(d) + 1,
{
    if d.day < days_in_month_of(d.year as int, d.month as int) {
    } else if d.month < 12 {
        assert(days_before_month(d.year as int, d.month as int + 1) == days_before_month(
            d.year as int,
            d.month as int,
        ) + days_in_month_of(d.year as int, d.month as int));
    } else if d.year < 9999 {
        lemma_days_before_month_closed(d.year as int, 12);
        assert(days_before_year(d.year as int + 1) == days_before_year(d.year as int) + year_days(
            d.year as int,
        ));
    }
}

pub proof fn lemma_prev_day_s(d: Date)
    requires
        valid_date(d),
    ensures
        prev_day_s(d) is Some <==> !(d.year == 1 && d.month == 1 && d.day == 1),
        prev_day_s(d) is Some ==> valid_date(prev_day_s(d).unwrap()) && date_index(
            prev_day_s(d).unwrap(),
        ) == date_index(d) - 1,
{
    if d.day > 1 {
    } else if d.month > 1 {
        assert(days_before_month(d.year as int, d.month as int) == days_before_month(
            d.year as int,
            d.month as int - 1,
        ) + days_in_month_of(d.year as int, d.month as int - 1));
    } else if d.year > 1 {
        lemma_days_before_month_closed(d.year as int - 1, 12);
        assert(days_before_year(d.year as int) == days_before_year(d.year as int - 1) + year_days(
            d.year as int - 1,
        ));
    }
}

pub proof fn lemma_add_days_s(d: Date, n: int)
    requires
        valid_date(d),
        n >= 0,
    ensures
        add_days_s(d, n) is Some ==> valid_date(add_days_s(d, n).unwrap()) && date_index(
            add_days_s(d, n).unwrap(),
        ) == date_index(d) + n,
        add_days_s(d, n) is None ==> date_index(d) + n > date_index(max_date()),
    decreases n,
{
    if n > 0 {
        lemma_next_day_s(d);
        match next_day_s(d) {
            Some(x) => {
                lemma_add_days_s(x, n - 1);
            },
            None => {
            },
        }
    }
}

pub proof fn lemma_shift_s(t: Timestamp, delta: int)
    requires
        valid_timestamp(t),
        -86400 < delta < 86400,
    ensures
        shift_s(t, delta) is Some ==> valid_timestamp(shift_s(t, delta).unwrap())
            && timestamp_index(shift_s(t, delta).unwrap()) == timestamp_index(t) + delta,
        shift_s(t, delta) is None ==> timestamp_index(t) + delta < 0 || timestamp_index(t) + delta
            > max_timestamp_index(),
{
    let total = seconds_of_day(t) + delta;
    lemma_next_day_s(t.date);
    lemma_prev_day_s(t.date);
    lemma_date_index_le_max(t.date);
    match shift_s(t, delta) {
        Some(r) => {
            let tod = if total < 0 {
                total + 86400
            } else if total >= 86400 {
                total - 86400
            } else {
                total
            };
            assert(0 <= tod < 86400);
            assert(seconds_of_day(r) == tod) by {
                assert((tod / 3600) * 3600 + ((tod / 60) % 60) * 60 + tod % 60 == tod)
                    by (nonlinear_arith)
                    requires
                        0 <= tod < 86400,
                ;
            }
            assert(r.hour < 24 && r.minute < 60 && r.second < 60);
        },
        None => {
            if total < 0 {
                assert(t.date.year == 1 && t.date.month == 1 && t.date.day == 1);
            } else {
                assert(t.date == max_date());
            }
        },
    }
}

pub proof fn lemma_add_one_month_s(d: Date, day_pref: int)
    requires
        valid_date(d),
        1 <= day_pref <= 31,
    ensures
        add_one_month_s(d, day_pref) is Some <==> !(d.year == 9999 && d.month == 12),
        add_one_month_s(d, day_pref) is Some ==> {
            let n = add_one_month_s(d, day_pref).unwrap();
            &&& valid_date(n)
            &&& date_index(n) > date_index(d)
        },
{
    match add_one_month_s(d, day_pref) {
        Some(n) => {
            if d.month == 12 {
                lemma_days_before_month_closed(d.year as int, 12);
                assert(days_before_year(d.year as int + 1) == days_before_year(d.year as int)
                    + year_days(d.year as int));
            } else {
                assert(days_before_month(d.year as int, d.month as int + 1) == days_before_month(
                    d.year as int,
                    d.month as int,
                ) + days_in_month_of(d.year as int, d.month as int));
            }
        },
        None => {
        },
    }
}

pub proof fn lemma_add_one_year_s(d: Date)
    requires
        valid_date(d),
    ensures
        add_one_year_s(d) is Some <==> d.year < 9999,
        add_one_year_s(d) is Some ==> {
            let n = add_one_year_s(d).unwrap();
            &&& valid_date(n)
            &&& date_index(n) > date_index(d)
        },
{
    if d.year < 9999 {
        lemma_days_before_month_closed(d.year as int, d.month as int);
        lemma_days_before_month_closed(d.year as int + 1, d.month as int);
        assert(days_before_year(d.year as int + 1) == days_before_year(d.year as int) + year_days(
            d.year as int,
        ));
    }
}

} // verus!

verus! {

/// Shifting by zero seconds is the identity.
pub proof fn lemma_shift_zero(t: Timestamp)
    requires
        valid_timestamp(t),
    ensures
        shift_s(t, 0) == Some(t),
{
    let tod = seconds_of_day(t);
    assert(0 <= tod < 86400);
    assert((tod / 3600) as u8 == t.hour && ((tod / 60) % 60) as u8 == t.minute && (tod % 60) as u8
        == t.second) by {
        assert(tod / 3600 == t.hour as int && (tod / 60) % 60 == t.minute as int && tod % 60
            == t.second as int) by (nonlinear_arith)
            requires
                tod == t.hour * 3600 + t.minute * 60 + t.second,
                t.hour < 24,
                t.minute < 60,
                t.second < 60,
        ;
    }
}

} // verus!
