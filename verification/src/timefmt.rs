use vstd::prelude::*;

use crate::calendar::Date;
use crate::calendar::Timestamp;
use crate::calendar::days_in_month_of;
use crate::calendar::days_in_month;
use crate::calendar::valid_timestamp;
use crate::text::all_digits;
use crate::text::dec2;
use crate::text::dec4;
use crate::text::dec_val;
use crate::text::is_digit;
use crate::text::lemma_dec_val_bound;
use crate::text::lemma_dec_val_dec2;
use crate::text::lemma_dec_val_dec4;
use crate::text::lemma_next_nondigit_bounds;
use crate::text::next_nondigit;
use crate::text::parse_dec_range;
use crate::text::push_dec2;
use crate::text::push_dec4;
use crate::text::scan_digits;
use crate::text::string_from_chars;

verus! {

/// The canonical machine form of a UTC instant: RFC 3339 with a `+00:00`
/// suffix, e.g. `2026-02-23T14:00:00+00:00`.
pub open spec fn rfc3339_utc_seq(t: Timestamp) -> Seq<char> {
    dec4(t.date.year as int) + seq!['-'] + dec2(t.date.month as int) + seq!['-'] + dec2(
        t.date.day as int,
    ) + seq!['T'] + dec2(t.hour as int) + seq![':'] + dec2(t.minute as int) + seq![':'] + dec2(
        t.second as int,
    ) + seq!['+', '0', '0', ':', '0', '0']
}

/// Render a UTC timestamp in its canonical machine form.
pub fn format_rfc3339_utc(t: &Timestamp) -> (r: String)
    requires
        valid_timestamp(*t),
    ensures
        r@ == rfc3339_utc_seq(*t),
{
    let mut out: Vec<char> = Vec::new();
    push_dec4(&mut out, t.date.year as u32);
    out.push('-');
    push_dec2(&mut out, t.date.month as u32);
    out.push('-');
    push_dec2(&mut out, t.date.day as u32);
    out.push('T');
    push_dec2(&mut out, t.hour as u32);
    out.push(':');
    push_dec2(&mut out, t.minute as u32);
    out.push(':');
    push_dec2(&mut out, t.second as u32);
    out.push('+');
    out.push('0');
    out.push('0');
    out.push(':');
    out.push('0');
    out.push('0');
    proof {
        assert(out@ =~= rfc3339_utc_seq(*t));
    }
    string_from_chars(&out)
}

/// Wall-clock fields and offset read from a strict machine timestamp.
/// The result is the civil timestamp as written, together with the
/// offset (seconds east of UTC) it was written in. Fractional seconds
/// are accepted and ignored.
pub open spec fn parse_rfc3339_spec(s: Seq<char>) -> Option<(Timestamp, int)> {
    if s.len() < 20 {
        None
    } else if !(all_digits(s.subrange(0, 4)) && s[4] == '-' && all_digits(s.subrange(5, 7)) && s[7]
        == '-' && all_digits(s.subrange(8, 10)) && (s[10] == 'T' || s[10] == 't') && all_digits(
        s.subrange(11, 13),
    ) && s[13] == ':' && all_digits(s.subrange(14, 16)) && s[16] == ':' && all_digits(
        s.subrange(17, 19),
    )) {
        None
    } else {
        let y = dec_val(s.subrange(0, 4));
        let mo = dec_val(s.subrange(5, 7));
        let d = dec_val(s.subrange(8, 10));
        let h = dec_val(s.subrange(11, 13));
        let mi = dec_val(s.subrange(14, 16));
        let sec = dec_val(s.subrange(17, 19));
        let pos = if s[19] == '.' {
            next_nondigit(s, 20)
        } else {
            19
        };
        if s[19] == '.' && pos == 20 {
            None
        } else if pos < s.len() && (s[pos] == 'Z' || s[pos] == 'z') && pos + 1 == s.len() {
            parse_rfc3339_fields(y, mo, d, h, mi, sec, 0)
        } else if pos + 6 == s.len() && (s[pos] == '+' || s[pos] == '-') && all_digits(
            s.subrange(pos + 1, pos + 3),
        ) && s[pos + 3] == ':' && all_digits(s.subrange(pos + 4, pos + 6)) {
            let oh = dec_val(s.subrange(pos + 1, pos + 3));
            let om = dec_val(s.subrange(pos + 4, pos + 6));
            if oh > 23 || om > 59 {
                None
            } else {
                let off = if s[pos] == '+' {
                    oh * 3600 + om * 60
                } else {
                    -(oh * 3600 + om * 60)
                };
                parse_rfc3339_fields(y, mo, d, h, mi, sec, off)
            }
        } else {
            None
        }
    }
}

/// Field validation shared by both offset forms.
pub open spec fn parse_rfc3339_fields(
    y: int,
    mo: int,
    d: int,
    h: int,
    mi: int,
    sec: int,
    off: int,
) -> Option<(Timestamp, int)> {
    if 1 <= y <= 9999 && 1 <= mo <= 12 && 1 <= d <= days_in_month_of(y, mo) && h < 24 && mi < 60
        && sec < 60 {
        Some(
            (
                Timestamp {
                    date: Date { year: y as i32, month: mo as u8, day: d as u8 },
                    hour: h as u8,
                    minute: mi as u8,
                    second: sec as u8,
                },
                off,
            ),
        )
    } else {
        None
    }
}

/// Parse a strict machine timestamp, as written: wall-clock fields plus the
/// offset they are expressed in.
pub fn parse_rfc3339(v: &Vec<char>) -> (r: Option<(Timestamp, i32)>)
    ensures
        match r {
            Some((t, off)) => {
                &&& parse_rfc3339_spec(v@) == Some((t, off as int))
                &&& valid_timestamp(t)
                &&& -86400 < off < 86400
            },
            None => parse_rfc3339_spec(v@) is None,
        },
{
    let n = v.len();
    if n < 20 {
        return None;
    }
    // fixed positions of the date and time fields
    let e0 = scan_digits(v, 0);
    if e0 < 4 {
        proof {
            lemma_next_nondigit_bounds(v@, 0);
            assert(!all_digits(v@.subrange(0, 4))) by {
                let k = next_nondigit(v@, 0);
                assert(!is_digit(v@.subrange(0, 4)[k]));
            }
        }
        return None;
    }
    proof {
        lemma_next_nondigit_bounds(v@, 0);
    }
    if v[4] != '-' || v[7] != '-' || (v[10] != 'T' && v[10] != 't') || v[13] != ':' || v[16] != ':'
    {
        proof {
            if all_digits(v@.subrange(0, 4)) {
            }
        }
        return None;
    }
    if !check_digits(v, 5, 7) || !check_digits(v, 8, 10) || !check_digits(v, 11, 13)
        || !check_digits(v, 14, 16) || !check_digits(v, 17, 19) {
        return None;
    }
    proof {
        assert(all_digits(v@.subrange(0, 4))) by {
            let s4 = v@.subrange(0, 4);
            assert(forall|j: int| 0 <= j < 4 ==> is_digit(#[trigger] s4[j]));
        }
    }
    let y = parse_dec_range(v, 0, 4);
    let mo = parse_dec_range(v, 5, 7);
    let d = parse_dec_range(v, 8, 10);
    let h = parse_dec_range(v, 11, 13);
    let mi = parse_dec_range(v, 14, 16);
    let sec = parse_dec_range(v, 17, 19);
    let pos: usize = if v[19] == '.' {
        scan_digits(v, 20)
    } else {
        19
    };
    if v[19] == '.' && pos == 20 {
        return None;
    }
    proof {
        lemma_next_nondigit_bounds(v@, 20);
    }
    let off: i32 = if pos < n && (v[pos] == 'Z' || v[pos] == 'z') && pos + 1 == n {
        0
    } else if pos <= n - 6 && pos + 6 == n && (v[pos] == '+' || v[pos] == '-') && check_digits(
        v,
        pos + 1,
        pos + 3,
    ) && v[pos + 3] == ':' && check_digits(v, pos + 4, pos + 6) {
        let oh = parse_dec_range(v, pos + 1, pos + 3);
        let om = parse_dec_range(v, pos + 4, pos + 6);
        proof {
            lemma_dec_val_bound(v@.subrange(pos as int + 1, pos as int + 3));
            lemma_dec_val_bound(v@.subrange(pos as int + 4, pos as int + 6));
            assert(crate::text::pow10(2) == 100) by {
                reveal_with_fuel(crate::text::pow10, 3);
            }
        }
        if oh > 23 || om > 59 {
            return None;
        }
        if v[pos] == '+' {
            (oh * 3600 + om * 60) as i32
        } else {
            -((oh * 3600 + om * 60) as i32)
        }
    } else {
        return None;
    };
    // validate the fields
    proof {
        lemma_dec_val_bound(v@.subrange(0, 4));
        lemma_dec_val_bound(v@.subrange(5, 7));
        lemma_dec_val_bound(v@.subrange(8, 10));
        lemma_dec_val_bound(v@.subrange(11, 13));
        lemma_dec_val_bound(v@.subrange(14, 16));
        lemma_dec_val_bound(v@.subrange(17, 19));
        assert(crate::text::pow10(4) == 10000) by {
            reveal_with_fuel(crate::text::pow10, 5);
        }
        assert(crate::text::pow10(2) == 100) by {
            reveal_with_fuel(crate::text::pow10, 3);
        }
    }
    if y < 1 || mo < 1 || mo > 12 {
        return None;
    }
    let dim = days_in_month(y as i32, mo as u8);
    if d < 1 || d > dim as u32 || h > 23 || mi > 59 || sec > 59 {
        return None;
    }
    let t = Timestamp {
        date: Date { year: y as i32, month: mo as u8, day: d as u8 },
        hour: h as u8,
        minute: mi as u8,
        second: sec as u8,
    };
    Some((t, off))
}

/// Are all of `v[from..to]` decimal digits?
fn check_digits(v: &Vec<char>, from: usize, to: usize) -> (r: bool)
    requires
        from <= to <= v@.len(),
    ensures
        r == all_digits(v@.subrange(from as int, to as int)),
{
    let mut i = from;
    while i < to
        invariant
            from <= i <= to <= v@.len(),
            forall|j: int| from <= j < i ==> is_digit(#[trigger] v@[j]),
        decreases to - i,
    {
        if !crate::text::char_is_digit(v[i]) {
            proof {
                assert(!is_digit(v@.subrange(from as int, to as int)[i - from]));
            }
            return false;
        }
        i = i + 1;
    }
    proof {
        assert(forall|j: int|
            0 <= j < to - from ==> is_digit(#[trigger] v@.subrange(from as int, to as int)[j]));
    }
    true
}

/// Formatting and parsing are inverse: the canonical machine form of a valid
/// UTC timestamp reads back as the same wall-clock fields with offset zero.
pub proof fn lemma_rfc3339_round_trip(t: Timestamp)
    requires
        valid_timestamp(t),
    ensures
        parse_rfc3339_spec(rfc3339_utc_seq(t)) == Some((t, 0int)),
{
    let s = rfc3339_utc_seq(t);
    lemma_dec_val_dec4(t.date.year as int);
    lemma_dec_val_dec2(t.date.month as int);
    lemma_dec_val_dec2(t.date.day as int);
    lemma_dec_val_dec2(t.hour as int);
    lemma_dec_val_dec2(t.minute as int);
    lemma_dec_val_dec2(t.second as int);
    assert(s.len() == 25);
    assert(s.subrange(0, 4) =~= dec4(t.date.year as int));
    assert(s.subrange(5, 7) =~= dec2(t.date.month as int));
    assert(s.subrange(8, 10) =~= dec2(t.date.day as int));
    assert(s.subrange(11, 13) =~= dec2(t.hour as int));
    assert(s.subrange(14, 16) =~= dec2(t.minute as int));
    assert(s.subrange(17, 19) =~= dec2(t.second as int));
    assert(s[4] == '-' && s[7] == '-' && s[10] == 'T' && s[13] == ':' && s[16] == ':');
    assert(s[19] == '+');
    assert(crate::text::digit_char(0) == '0');
    assert(s.subrange(20, 22) =~= dec2(0));
    assert(s.subrange(23, 25) =~= dec2(0));
    assert(s[22] == ':');
    lemma_dec_val_dec2(0);
    assert(parse_rfc3339_spec(s) == parse_rfc3339_fields(
        t.date.year as int,
        t.date.month as int,
        t.date.day as int,
        t.hour as int,
        t.minute as int,
        t.second as int,
        0,
    ));
}

} // verus!

verus! {

/// The characters of the canonical machine form: digits and the five
/// separators, never whitespace, a parenthesis or a line break.
pub proof fn lemma_rfc3339_chars(t: Timestamp)
    requires
        valid_timestamp(t),
    ensures
        rfc3339_utc_seq(t).len() == 25,
        forall|j: int|
            0 <= j < 25 ==> (crate::text::is_digit(#[trigger] rfc3339_utc_seq(t)[j])
                || rfc3339_utc_seq(t)[j] == '-' || rfc3339_utc_seq(t)[j] == 'T'
                || rfc3339_utc_seq(t)[j] == ':' || rfc3339_utc_seq(t)[j] == '+'),
{
    let s = rfc3339_utc_seq(t);
    lemma_dec_val_dec4(t.date.year as int);
    lemma_dec_val_dec2(t.date.month as int);
    lemma_dec_val_dec2(t.date.day as int);
    lemma_dec_val_dec2(t.hour as int);
    lemma_dec_val_dec2(t.minute as int);
    lemma_dec_val_dec2(t.second as int);
    assert(s.len() == 25);
    assert(s.subrange(0, 4) =~= dec4(t.date.year as int));
    assert(s.subrange(5, 7) =~= dec2(t.date.month as int));
    assert(s.subrange(8, 10) =~= dec2(t.date.day as int));
    assert(s.subrange(11, 13) =~= dec2(t.hour as int));
    assert(s.subrange(14, 16) =~= dec2(t.minute as int));
    assert(s.subrange(17, 19) =~= dec2(t.second as int));
    assert(crate::text::digit_char(0) == '0');
    assert(s[19] == '+' && s[20] == '0' && s[21] == '0' && s[22] == ':' && s[23] == '0' && s[24]
        == '0');
    assert(s[4] == '-' && s[7] == '-' && s[10] == 'T' && s[13] == ':' && s[16] == ':');
    assert forall|j: int|
        0 <= j < 25 implies (crate::text::is_digit(#[trigger] s[j]) || s[j] == '-' || s[j] == 'T'
        || s[j] == ':' || s[j] == '+') by {
        if 0 <= j < 4 {
            assert(s[j] == s.subrange(0, 4)[j]);
        } else if 5 <= j < 7 {
            assert(s[j] == s.subrange(5, 7)[j - 5]);
        } else if 8 <= j < 10 {
            assert(s[j] == s.subrange(8, 10)[j - 8]);
        } else if 11 <= j < 13 {
            assert(s[j] == s.subrange(11, 13)[j - 11]);
        } else if 14 <= j < 16 {
            assert(s[j] == s.subrange(14, 16)[j - 14]);
        } else if 17 <= j < 19 {
            assert(s[j] == s.subrange(17, 19)[j - 17]);
        }
    }
}

} // verus!
