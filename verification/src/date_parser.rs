use vstd::prelude::*;

use crate::calendar::Date;
use crate::calendar::Timestamp;
use crate::calendar::add_days;
use crate::calendar::add_days_s;
use crate::calendar::seconds_of_day;
use crate::calendar::shift_by_seconds;
use crate::calendar::shift_s;
use crate::calendar::valid_timestamp;
use crate::calendar::weekday_index;
use crate::calendar::weekday_of;
use crate::fuzzy::fuzzy_match;
use crate::fuzzy::fuzzy_spec;
use crate::text::all_digits;
use crate::text::dec_val;
use crate::text::is_digit;
use crate::text::is_lower_alpha;
use crate::text::is_space;
use crate::text::is_word_char;
use crate::text::normalize_spec;
use crate::text::normalized;
use crate::text::chars_of;
use crate::text::trim_spec;
use crate::text::trimmed;
use crate::timefmt::parse_rfc3339;
use crate::timefmt::parse_rfc3339_spec;

verus! {

// ---------------------------------------------------------------------------
// Timezone suffix
// ---------------------------------------------------------------------------
/// The shape of a numeric offset token: sign, two digits, optional colon,
/// two digits.
pub open spec fn offset_shape(w: Seq<char>) -> bool {
    &&& (w.len() == 5 || w.len() == 6)
    &&& (w[0] == '+' || w[0] == '-')
    &&& is_digit(w[1])
    &&& is_digit(w[2])
    &&& (w.len() == 6 ==> w[3] == ':' && is_digit(w[4]) && is_digit(w[5]))
    &&& (w.len() == 5 ==> is_digit(w[3]) && is_digit(w[4]))
}

/// The offset seconds east of UTC named by an offset token.
pub open spec fn offset_value(w: Seq<char>) -> int {
    let h = dec_val(w.subrange(1, 3));
    let m = dec_val(w.subrange(w.len() - 2, w.len() as int));
    let mag = h * 3600 + m * 60;
    if w[0] == '+' {
        mag
    } else {
        -mag
    }
}

/// Is the offset token within range (hours to 23, minutes to 59)?
pub open spec fn offset_in_range(w: Seq<char>) -> bool {
    dec_val(w.subrange(1, 3)) <= 23 && dec_val(w.subrange(w.len() - 2, w.len() as int)) <= 59
}

/// The vocabulary of UTC-meaning timezone words.
pub open spec fn utc_names() -> Seq<Seq<char>> {
    seq!["utc"@, "gmt"@, "z"@]
}

/// The offset a timezone token names: a fuzzy UTC word gives zero; a numeric
/// token in range gives its value; anything else names no offset.
pub open spec fn parse_tz_spec(w: Seq<char>) -> Option<int> {
    if fuzzy_spec(w, utc_names()) is Some {
        Some(0)
    } else if offset_shape(w) {
        if offset_in_range(w) {
            Some(offset_value(w))
        } else {
            None
        }
    } else {
        None
    }
}

/// Parse a timezone token into seconds east of UTC.
pub fn parse_timezone_token(w: &Vec<char>) -> (r: Option<i32>)
    ensures
        match r {
            Some(off) => parse_tz_spec(w@) == Some(off as int) && -86400 < off < 86400,
            None => parse_tz_spec(w@) is None,
        },
{
    let mut names: Vec<&str> = Vec::new();
    names.push("utc");
    names.push("gmt");
    names.push("z");
    proof {
        assert(names.deep_view() =~= utc_names()) by {
            assert(forall|i: int|
                0 <= i < names@.len() ==> names.deep_view()[i] == #[trigger] names@[i]@);
        }
    }
    if fuzzy_match(w, &names).is_some() {
        return Some(0);
    }
    let n = w.len();
    if n != 5 && n != 6 {
        return None;
    }
    if w[0] != '+' && w[0] != '-' {
        return None;
    }
    if !crate::text::char_is_digit(w[1]) || !crate::text::char_is_digit(w[2]) {
        return None;
    }
    if n == 6 {
        if w[3] != ':' || !crate::text::char_is_digit(w[4]) || !crate::text::char_is_digit(w[5]) {
            return None;
        }
    } else {
        if !crate::text::char_is_digit(w[3]) || !crate::text::char_is_digit(w[4]) {
            return None;
        }
    }
    proof {
        assert(all_digits(w@.subrange(1, 3))) by {
            assert(w@.subrange(1, 3)[0] == w@[1]);
            assert(w@.subrange(1, 3)[1] == w@[2]);
        }
        assert(all_digits(w@.subrange(n as int - 2, n as int))) by {
            assert(w@.subrange(n as int - 2, n as int)[0] == w@[n as int - 2]);
            assert(w@.subrange(n as int - 2, n as int)[1] == w@[n as int - 1]);
        }
        crate::text::lemma_dec_val_bound(w@.subrange(1, 3));
        crate::text::lemma_dec_val_bound(w@.subrange(n as int - 2, n as int));
        assert(crate::text::pow10(2) == 100) by {
            reveal_with_fuel(crate::text::pow10, 3);
        }
    }
    let h = crate::text::parse_dec_range(w, 1, 3);
    let m = crate::text::parse_dec_range(w, n - 2, n);
    if h > 23 || m > 59 {
        return None;
    }
    let mag: i32 = (h as i32) * 3600 + (m as i32) * 60;
    if w[0] == '+' {
        Some(mag)
    } else {
        Some(-mag)
    }
}

/// Could this word be a timezone token at all (one of the alternatives the
/// suffix grammar admits)?
pub open spec fn tz_candidate(w: Seq<char>) -> bool {
    ||| w == "utc"@
    ||| w == "gmt"@
    ||| w == "z"@
    ||| offset_shape(w)
    ||| (2 <= w.len() <= 8 && forall|i: int| 0 <= i < w.len() ==> is_lower_alpha(#[trigger] w[i]))
}

/// Position of the last space in `s`, or -1.
pub open spec fn last_space(s: Seq<char>) -> int
    decreases s.len(),
{
    if s.len() == 0 {
        -1
    } else if is_space(s.last()) {
        s.len() - 1
    } else {
        last_space(s.drop_last())
    }
}

pub proof fn lemma_last_space(s: Seq<char>)
    ensures
        -1 <= last_space(s) < s.len(),
        last_space(s) >= 0 ==> is_space(s[last_space(s)]),
        forall|j: int| last_space(s) < j < s.len() ==> !is_space(#[trigger] s[j]),
    decreases s.len(),
{
    if s.len() > 0 && !is_space(s.last()) {
        lemma_last_space(s.drop_last());
        assert(forall|j: int|
            0 <= j < s.len() - 1 ==> s.drop_last()[j] == #[trigger] s[j]);
    }
}

/// Split a normalized phrase into its text and an optional trailing
/// timezone: the last word, when it has the shape of a timezone token and
/// names an offset, is stripped and its offset returned; otherwise the
/// phrase is unchanged and no offset is found.
pub open spec fn split_tz_spec(s: Seq<char>) -> (Seq<char>, Option<int>) {
    let ls = last_space(s);
    if ls < 0 {
        (s, None)
    } else {
        let w = s.skip(ls + 1);
        if tz_candidate(w) {
            match parse_tz_spec(w) {
                Some(off) => (s.take(ls), Some(off)),
                None => (s, None),
            }
        } else {
            (s, None)
        }
    }
}

/// Detect and strip a trailing timezone token from a normalized phrase.
pub fn split_timezone_suffix(v: &Vec<char>) -> (r: (Vec<char>, Option<i32>))
    ensures
        ({
            let (spec_rest, spec_off) = split_tz_spec(v@);
            &&& r.0@ == spec_rest
            &&& match r.1 {
                Some(off) => spec_off == Some(off as int) && -86400 < off < 86400,
                None => spec_off is None,
            }
        }),
{
    proof {
        lemma_last_space(v@);
    }
    let n = v.len();
    // find the last space
    let mut ls: usize = n;
    let mut k: usize = n;
    while k > 0 && ls == n
        invariant
            k <= n,
            ls <= n,
            n == v@.len(),
            ls == n ==> forall|j: int| k <= j < n ==> !is_space(#[trigger] v@[j]),
            ls < n ==> ls as int == last_space(v@),
        decreases k,
    {
        k = k - 1;
        if crate::text::char_is_space(v[k]) {
            proof {
                lemma_last_space_stable(v@, k as int);
            }
            ls = k;
        }
    }
    proof {
        if ls == n {
            assert(forall|j: int| 0 <= j < n ==> !is_space(#[trigger] v@[j]));
            lemma_last_space_none(v@);
        }
    }
    if ls == n {
        // no space at all
        let rest = crate::text::subvec(v, 0, n);
        proof {
            assert(rest@ =~= v@);
        }
        return (rest, None);
    }
    let w = crate::text::subvec(v, ls + 1, n);
    proof {
        assert(w@ =~= v@.skip(ls as int + 1));
    }
    // is the last word shaped like a timezone token?
    let wn = w.len();
    let mut shaped: bool = false;
    if crate::text::chars_eq_str(&w, "utc") || crate::text::chars_eq_str(&w, "gmt")
        || crate::text::chars_eq_str(&w, "z") {
        shaped = true;
    }
    if !shaped && (wn == 5 || wn == 6) && (w[0] == '+' || w[0] == '-') {
        let digits_ok: bool = if wn == 6 {
            crate::text::char_is_digit(w[1]) && crate::text::char_is_digit(w[2]) && w[3] == ':'
                && crate::text::char_is_digit(w[4]) && crate::text::char_is_digit(w[5])
        } else {
            crate::text::char_is_digit(w[1]) && crate::text::char_is_digit(w[2])
                && crate::text::char_is_digit(w[3]) && crate::text::char_is_digit(w[4])
        };
        if digits_ok {
            shaped = true;
        }
    }
    if !shaped && 2 <= wn && wn <= 8 {
        let mut all_alpha: bool = true;
        let mut i: usize = 0;
        while i < wn
            invariant
                i <= wn,
                wn == w@.len(),
                all_alpha == (forall|j: int| 0 <= j < i ==> is_lower_alpha(#[trigger] w@[j])),
            decreases wn - i,
        {
            if !crate::text::char_is_lower_alpha(w[i]) {
                all_alpha = false;
            }
            i = i + 1;
        }
        if all_alpha {
            shaped = true;
        }
    }
    proof {
        assert(shaped == tz_candidate(w@));
    }
    if !shaped {
        let rest = crate::text::subvec(v, 0, n);
        proof {
            assert(rest@ =~= v@);
        }
        return (rest, None);
    }
    match parse_timezone_token(&w) {
        Some(off) => {
            let rest = crate::text::subvec(v, 0, ls);
            proof {
                assert(rest@ =~= v@.take(ls as int));
            }
            (rest, Some(off))
        },
        None => {
            let rest = crate::text::subvec(v, 0, n);
            proof {
                assert(rest@ =~= v@);
            }
            (rest, None)
        },
    }
}

proof fn lemma_last_space_stable(s: Seq<char>, k: int)
    requires
        0 <= k < s.len(),
        is_space(s[k]),
        forall|j: int| k < j < s.len() ==> !is_space(#[trigger] s[j]),
    ensures
        last_space(s) == k,
    decreases s.len(),
{
    if k == s.len() - 1 {
    } else {
        assert(!is_space(s.last()));
        lemma_last_space_stable(s.drop_last(), k);
        assert(forall|j: int|
            0 <= j < s.len() - 1 ==> s.drop_last()[j] == #[trigger] s[j]);
    }
}

proof fn lemma_last_space_none(s: Seq<char>)
    requires
        forall|j: int| 0 <= j < s.len() ==> !is_space(#[trigger] s[j]),
    ensures
        last_space(s) == -1,
    decreases s.len(),
{
    if s.len() > 0 {
        lemma_last_space_none(s.drop_last());
        assert(forall|j: int|
            0 <= j < s.len() - 1 ==> s.drop_last()[j] == #[trigger] s[j]);
    }
}

} // verus!

verus! {

// ---------------------------------------------------------------------------
// Time of day
// ---------------------------------------------------------------------------
/// One attempt of the 12-hour form at position `i`: `hl` hour digits, an
/// optional `:mm` group, spaces, then `am` or `pm` ending at a word boundary.
/// The result is the raw hour, the minutes and whether it is `pm`.
pub open spec fn try_meridiem(s: Seq<char>, i: int, hl: int, colon: bool) -> Option<
    (int, int, bool),
> {
    let after = i + hl + if colon {
        3int
    } else {
        0int
    };
    if i + hl <= s.len() && all_digits(s.subrange(i, i + hl)) && (colon ==> i + hl + 3 <= s.len()
        && s[i + hl] == ':' && is_digit(s[i + hl + 1]) && is_digit(s[i + hl + 2])) {
        let j = crate::text::next_nonspace(s, after);
        if j + 2 <= s.len() && (s[j] == 'a' || s[j] == 'p') && s[j + 1] == 'm' && (j + 2 == s.len()
            || !is_word_char(s[j + 2])) {
            let h = dec_val(s.subrange(i, i + hl));
            let m = if colon {
                dec_val(s.subrange(i + hl + 1, i + hl + 3))
            } else {
                0int
            };
            Some((h, m, s[j] == 'p'))
        } else {
            None
        }
    } else {
        None
    }
}

/// The 12-hour form matched at position `i`, trying longer hours and the
/// minutes group first, as the search does.
pub open spec fn meridiem_at(s: Seq<char>, i: int) -> Option<(int, int, bool)> {
    if 0 <= i < s.len() && is_digit(s[i]) && (i == 0 || !is_word_char(s[i - 1])) {
        if try_meridiem(s, i, 2, true) is Some {
            try_meridiem(s, i, 2, true)
        } else if try_meridiem(s, i, 2, false) is Some {
            try_meridiem(s, i, 2, false)
        } else if try_meridiem(s, i, 1, true) is Some {
            try_meridiem(s, i, 1, true)
        } else {
            try_meridiem(s, i, 1, false)
        }
    } else {
        None
    }
}

/// The first 12-hour match at or after position `i`.
pub open spec fn find_meridiem(s: Seq<char>, i: int) -> Option<(int, int, bool)>
    decreases s.len() - i when 0 <= i <= s.len()
{
    if i >= s.len() {
        None
    } else if meridiem_at(s, i) is Some {
        meridiem_at(s, i)
    } else {
        find_meridiem(s, i + 1)
    }
}

/// One attempt of the 24-hour form at position `i`: `hl` hour digits, a
/// colon, two minute digits, then a word boundary.
pub open spec fn try_24h(s: Seq<char>, i: int, hl: int) -> Option<(int, int)> {
    if i + hl + 3 <= s.len() && all_digits(s.subrange(i, i + hl)) && s[i + hl] == ':' && is_digit(
        s[i + hl + 1],
    ) && is_digit(s[i + hl + 2]) && (i + hl + 3 == s.len() || !is_word_char(s[i + hl + 3])) {
        Some((dec_val(s.subrange(i, i + hl)), dec_val(s.subrange(i + hl + 1, i + hl + 3))))
    } else {
        None
    }
}

/// The 24-hour form matched at position `i`.
pub open spec fn twentyfour_at(s: Seq<char>, i: int) -> Option<(int, int)> {
    if 0 <= i < s.len() && is_digit(s[i]) && (i == 0 || !is_word_char(s[i - 1])) {
        if try_24h(s, i, 2) is Some {
            try_24h(s, i, 2)
        } else {
            try_24h(s, i, 1)
        }
    } else {
        None
    }
}

/// The first 24-hour match at or after position `i`.
pub open spec fn find_24h(s: Seq<char>, i: int) -> Option<(int, int)>
    decreases s.len() - i when 0 <= i <= s.len()
{
    if i >= s.len() {
        None
    } else if twentyfour_at(s, i) is Some {
        twentyfour_at(s, i)
    } else {
        find_24h(s, i + 1)
    }
}

/// The time of day a phrase names: the first 12-hour form if any (12am is
/// midnight, 12pm is noon, other pm hours gain twelve), else the first
/// 24-hour form; out-of-range fields leave the phrase without a time.
pub open spec fn parse_time_spec(s: Seq<char>) -> Option<(int, int)> {
    match find_meridiem(s, 0) {
        Some((h, m, pm)) => if h == 0 || h > 12 || m > 59 {
            None
        } else {
            let hh = if pm {
                if h != 12 {
                    h + 12
                } else {
                    h
                }
            } else {
                if h == 12 {
                    0int
                } else {
                    h
                }
            };
            Some((hh, m))
        },
        None => match find_24h(s, 0) {
            Some((h, m)) => if h > 23 || m > 59 {
                None
            } else {
                Some((h, m))
            },
            None => None,
        },
    }
}

/// One exec attempt of the 12-hour form.
fn try_meridiem_exec(v: &Vec<char>, i: usize, hl: usize, colon: bool) -> (r: Option<
    (u32, u32, bool),
>)
    requires
        i <= v@.len(),
        hl == 1 || hl == 2,
    ensures
        match r {
            Some((h, m, pm)) => try_meridiem(v@, i as int, hl as int, colon) == Some(
                (h as int, m as int, pm),
            ) && h < 100 && m < 100,
            None => try_meridiem(v@, i as int, hl as int, colon) is None,
        },
{
    let n = v.len();
    if n - i < hl {
        return None;
    }
    if !crate::text::check_digits_range(v, i, i + hl) {
        return None;
    }
    if colon {
        if n - (i + hl) < 3 {
            return None;
        }
        if v[i + hl] != ':' || !crate::text::char_is_digit(v[i + hl + 1])
            || !crate::text::char_is_digit(v[i + hl + 2]) {
            return None;
        }
    }
    let after: usize = i + hl + if colon {
        3
    } else {
        0
    };
    // skip spaces
    let mut j: usize = after;
    while j < n && crate::text::char_is_space(v[j])
        invariant
            after <= j <= n,
            n == v@.len(),
            forall|k: int| after <= k < j ==> is_space(#[trigger] v@[k]),
        decreases n - j,
    {
        j = j + 1;
    }
    proof {
        crate::text::lemma_next_nonspace_stable(v@, after as int, j as int);
    }
    if n - j < 2 {
        return None;
    }
    if (v[j] != 'a' && v[j] != 'p') || v[j + 1] != 'm' {
        return None;
    }
    if j + 2 < n && crate::text::char_is_word(v[j + 2]) {
        return None;
    }
    proof {
        crate::text::lemma_dec_val_bound(v@.subrange(i as int, i as int + hl));
        assert(crate::text::pow10(2) == 100) by {
            reveal_with_fuel(crate::text::pow10, 3);
        }
    }
    let h = crate::text::parse_dec_range(v, i, i + hl);
    let m: u32 = if colon {
        proof {
            assert(all_digits(v@.subrange(i as int + hl + 1, i as int + hl + 3))) by {
                assert(v@.subrange(i as int + hl + 1, i as int + hl + 3)[0] == v@[i + hl + 1]);
                assert(v@.subrange(i as int + hl + 1, i as int + hl + 3)[1] == v@[i + hl + 2]);
            }
            crate::text::lemma_dec_val_bound(v@.subrange(i as int + hl + 1, i as int + hl + 3));
        }
        crate::text::parse_dec_range(v, i + hl + 1, i + hl + 3)
    } else {
        0
    };
    Some((h, m, v[j] == 'p'))
}

/// One exec attempt of the 24-hour form.
fn try_24h_exec(v: &Vec<char>, i: usize, hl: usize) -> (r: Option<(u32, u32)>)
    requires
        i <= v@.len(),
        hl == 1 || hl == 2,
    ensures
        match r {
            Some((h, m)) => try_24h(v@, i as int, hl as int) == Some((h as int, m as int)) && h
                < 100 && m < 100,
            None => try_24h(v@, i as int, hl as int) is None,
        },
{
    let n = v.len();
    if n - i < hl + 3 {
        return None;
    }
    if !crate::text::check_digits_range(v, i, i + hl) {
        return None;
    }
    if v[i + hl] != ':' || !crate::text::char_is_digit(v[i + hl + 1])
        || !crate::text::char_is_digit(v[i + hl + 2]) {
        return None;
    }
    if i + hl + 3 < n && crate::text::char_is_word(v[i + hl + 3]) {
        return None;
    }
    proof {
        crate::text::lemma_dec_val_bound(v@.subrange(i as int, i as int + hl));
        assert(all_digits(v@.subrange(i as int + hl + 1, i as int + hl + 3))) by {
            assert(v@.subrange(i as int + hl + 1, i as int + hl + 3)[0] == v@[i + hl + 1]);
            assert(v@.subrange(i as int + hl + 1, i as int + hl + 3)[1] == v@[i + hl + 2]);
        }
        crate::text::lemma_dec_val_bound(v@.subrange(i as int + hl + 1, i as int + hl + 3));
        assert(crate::text::pow10(2) == 100) by {
            reveal_with_fuel(crate::text::pow10, 3);
        }
    }
    let h = crate::text::parse_dec_range(v, i, i + hl);
    let m = crate::text::parse_dec_range(v, i + hl + 1, i + hl + 3);
    Some((h, m))
}

/// Extract the time of day of a normalized phrase, if one is written in it.
pub fn parse_time(v: &Vec<char>) -> (r: Option<(u32, u32)>)
    ensures
        match r {
            Some((h, m)) => parse_time_spec(v@) == Some((h as int, m as int)) && h < 24 && m < 60,
            None => parse_time_spec(v@) is None,
        },
{
    let n = v.len();
    // search for a 12-hour form
    let mut i: usize = 0;
    let mut found: Option<(u32, u32, bool)> = None;
    while i < n && found.is_none()
        invariant
            i <= n,
            n == v@.len(),
            found is None ==> find_meridiem(v@, 0) == find_meridiem(v@, i as int),
            match found {
                Some((h, m, pm)) => find_meridiem(v@, 0) == Some((h as int, m as int, pm)) && h
                    < 100 && m < 100,
                None => true,
            },
        decreases n - i + (if found is None {
            1int
        } else {
            0int
        }),
    {
        let at: Option<(u32, u32, bool)> = if crate::text::char_is_digit(v[i]) && (i == 0
            || !crate::text::char_is_word(v[i - 1])) {
            if let Some(x) = try_meridiem_exec(v, i, 2, true) {
                Some(x)
            } else if let Some(x) = try_meridiem_exec(v, i, 2, false) {
                Some(x)
            } else if let Some(x) = try_meridiem_exec(v, i, 1, true) {
                Some(x)
            } else if let Some(x) = try_meridiem_exec(v, i, 1, false) {
                Some(x)
            } else {
                None
            }
        } else {
            None
        };
        proof {
            match at {
                Some((h, m, pm)) => {
                    assert(meridiem_at(v@, i as int) == Some((h as int, m as int, pm)));
                },
                None => {
                    assert(meridiem_at(v@, i as int) is None);
                },
            }
        }
        if at.is_some() {
            found = at;
        } else {
            i = i + 1;
        }
    }
    if let Some((h, m, pm)) = found {
        if h == 0 || h > 12 || m > 59 {
            return None;
        }
        let hh: u32 = if pm {
            if h != 12 {
                h + 12
            } else {
                h
            }
        } else {
            if h == 12 {
                0
            } else {
                h
            }
        };
        return Some((hh, m));
    }
    proof {
        if find_meridiem(v@, 0) is Some {
            assert(false);
        }
    }
    // search for a 24-hour form
    let mut i: usize = 0;
    let mut found24: Option<(u32, u32)> = None;
    while i < n && found24.is_none()
        invariant
            i <= n,
            n == v@.len(),
            find_meridiem(v@, 0) is None,
            found24 is None ==> find_24h(v@, 0) == find_24h(v@, i as int),
            match found24 {
                Some((h, m)) => find_24h(v@, 0) == Some((h as int, m as int)) && h < 100 && m
                    < 100,
                None => true,
            },
        decreases n - i + (if found24 is None {
            1int
        } else {
            0int
        }),
    {
        let at: Option<(u32, u32)> = if crate::text::char_is_digit(v[i]) && (i == 0
            || !crate::text::char_is_word(v[i - 1])) {
            if let Some(x) = try_24h_exec(v, i, 2) {
                Some(x)
            } else if let Some(x) = try_24h_exec(v, i, 1) {
                Some(x)
            } else {
                None
            }
        } else {
            None
        };
        proof {
            match at {
                Some((h, m)) => {
                    assert(twentyfour_at(v@, i as int) == Some((h as int, m as int)));
                },
                None => {
                    assert(twentyfour_at(v@, i as int) is None);
                },
            }
        }
        if at.is_some() {
            found24 = at;
        } else {
            i = i + 1;
        }
    }
    if let Some((h, m)) = found24 {
        if h > 23 || m > 59 {
            return None;
        }
        return Some((h, m));
    }
    None
}

} // verus!

verus! {

// ---------------------------------------------------------------------------
// Calendar-date resolution
// ---------------------------------------------------------------------------
/// Position of the first ASCII letter at or after `i`.
pub open spec fn next_alpha(s: Seq<char>, i: int) -> int
    decreases s.len() - i when 0 <= i <= s.len()
{
    if i < s.len() && !is_lower_alpha(s[i]) {
        next_alpha(s, i + 1)
    } else {
        i
    }
}

/// Position of the first non-letter at or after `i`.
pub open spec fn next_nonalpha(s: Seq<char>, i: int) -> int
    decreases s.len() - i when 0 <= i <= s.len()
{
    if i < s.len() && is_lower_alpha(s[i]) {
        next_nonalpha(s, i + 1)
    } else {
        i
    }
}

pub proof fn lemma_next_alpha_bounds(s: Seq<char>, i: int)
    requires
        0 <= i <= s.len(),
    ensures
        i <= next_alpha(s, i) <= s.len(),
        next_alpha(s, i) < s.len() ==> is_lower_alpha(s[next_alpha(s, i)]),
    decreases s.len() - i,
{
    if i < s.len() && !is_lower_alpha(s[i]) {
        lemma_next_alpha_bounds(s, i + 1);
    }
}

pub proof fn lemma_next_nonalpha_bounds(s: Seq<char>, i: int)
    requires
        0 <= i <= s.len(),
    ensures
        i <= next_nonalpha(s, i) <= s.len(),
    decreases s.len() - i,
{
    if i < s.len() && is_lower_alpha(s[i]) {
        lemma_next_nonalpha_bounds(s, i + 1);
    }
}

proof fn lemma_next_alpha_stable(s: Seq<char>, start: int, k: int)
    requires
        0 <= start <= k <= s.len(),
        forall|j: int| start <= j < k ==> !is_lower_alpha(#[trigger] s[j]),
        k < s.len() ==> is_lower_alpha(s[k]),
    ensures
        next_alpha(s, start) == k,
    decreases k - start,
{
    if start < k {
        lemma_next_alpha_stable(s, start + 1, k);
    }
}

proof fn lemma_next_nonalpha_stable(s: Seq<char>, start: int, k: int)
    requires
        0 <= start <= k <= s.len(),
        forall|j: int| start <= j < k ==> is_lower_alpha(#[trigger] s[j]),
        k < s.len() ==> !is_lower_alpha(s[k]),
    ensures
        next_nonalpha(s, start) == k,
    decreases k - start,
{
    if start < k {
        lemma_next_nonalpha_stable(s, start + 1, k);
    }
}

/// The date keywords, in the fixed enumeration order of the matcher.
pub open spec fn date_vocab() -> Seq<Seq<char>> {
    seq![
        "today"@,
        "tomorrow"@,
        "monday"@,
        "tuesday"@,
        "wednesday"@,
        "thursday"@,
        "friday"@,
        "saturday"@,
        "sunday"@,
    ]
}

/// The first word token (a run of letters), scanning from `i`, that the
/// fuzzy matcher accepts as a date keyword; the keyword's index.
pub open spec fn keyword_from(s: Seq<char>, i: int) -> Option<int>
    decreases s.len() - i when 0 <= i <= s.len() via keyword_from_decreases
{
    let a = next_alpha(s, i);
    if a >= s.len() {
        None
    } else {
        let b = next_nonalpha(s, a);
        match fuzzy_spec(s.subrange(a, b), date_vocab()) {
            Some(k) => Some(k),
            None => keyword_from(s, b),
        }
    }
}

#[via_fn]
proof fn keyword_from_decreases(s: Seq<char>, i: int) {
    lemma_next_alpha_bounds(s, i);
    let a = next_alpha(s, i);
    if a < s.len() {
        lemma_next_nonalpha_bounds(s, a + 1);
        assert(next_nonalpha(s, a) == next_nonalpha(s, a + 1));
    }
}

pub proof fn lemma_keyword_from_range(s: Seq<char>, i: int)
    requires
        0 <= i <= s.len(),
    ensures
        keyword_from(s, i) matches Some(k) ==> 0 <= k < date_vocab().len(),
    decreases s.len() - i,
{
    lemma_next_alpha_bounds(s, i);
    let a = next_alpha(s, i);
    if a < s.len() {
        lemma_next_nonalpha_bounds(s, a + 1);
        let b = next_nonalpha(s, a);
        assert(b == next_nonalpha(s, a + 1));
        crate::fuzzy::lemma_fuzzy_spec_range(s.subrange(a, b), date_vocab());
        if fuzzy_spec(s.subrange(a, b), date_vocab()) is None {
            lemma_keyword_from_range(s, b);
        }
    }
}

/// The calendar date a phrase names, relative to the local date `base` and
/// the local time of day `now_sod` (in seconds): `today` and `tomorrow`
/// directly; a weekday name advances to that weekday, a whole week ahead
/// when it would land on `base` itself unless an explicit time later today
/// was given; no keyword keeps `base`, rolling one day forward when an
/// explicit time has already passed.
pub open spec fn resolve_date_spec(
    value: Seq<char>,
    base: Date,
    now_sod: int,
    has_time: bool,
    h: int,
    mi: int,
) -> Option<Date> {
    let req = h * 3600 + mi * 60;
    match keyword_from(value, 0) {
        Some(k) => if k == 0 {
            Some(base)
        } else if k == 1 {
            add_days_s(base, 1)
        } else {
            let target = k - 1;
            let cur = weekday_index(base) + 1;
            let d0 = (target - cur + 7) % 7;
            let delta = if d0 == 0 && (!has_time || req <= now_sod) {
                7int
            } else {
                d0
            };
            add_days_s(base, delta)
        },
        None => if has_time && req <= now_sod {
            add_days_s(base, 1)
        } else {
            Some(base)
        },
    }
}

/// Resolve the calendar date of a normalized phrase.
pub fn resolve_date(
    v: &Vec<char>,
    base: &Date,
    now_sod: u32,
    has_time: bool,
    h: u32,
    mi: u32,
) -> (r: Option<Date>)
    requires
        crate::calendar::valid_date(*base),
        h < 24,
        mi < 60,
    ensures
        r == resolve_date_spec(v@, *base, now_sod as int, has_time, h as int, mi as int),
        r is Some ==> crate::calendar::valid_date(r.unwrap()),
{
    proof {
        lemma_keyword_from_range(v@, 0);
    }
    let n = v.len();
    let mut vocab: Vec<&str> = Vec::new();
    vocab.push("today");
    vocab.push("tomorrow");
    vocab.push("monday");
    vocab.push("tuesday");
    vocab.push("wednesday");
    vocab.push("thursday");
    vocab.push("friday");
    vocab.push("saturday");
    vocab.push("sunday");
    proof {
        assert(vocab.deep_view() =~= date_vocab()) by {
            assert(forall|i: int|
                0 <= i < vocab@.len() ==> vocab.deep_view()[i] == #[trigger] vocab@[i]@);
        }
    }
    let mut i: usize = 0;
    let mut kw: Option<usize> = None;
    let mut searching: bool = true;
    while searching
        invariant
            i <= n,
            n == v@.len(),
            vocab.deep_view() == date_vocab(),
            searching ==> kw is None && keyword_from(v@, 0) == keyword_from(v@, i as int),
            !searching ==> match kw {
                Some(k) => keyword_from(v@, 0) == Some(k as int),
                None => keyword_from(v@, 0) is None,
            },
        decreases n - i + (if searching {
            1int
        } else {
            0int
        }),
    {
        // skip to the next letter
        let mut a: usize = i;
        while a < n && !crate::text::char_is_lower_alpha(v[a])
            invariant
                i <= a <= n,
                n == v@.len(),
                forall|j: int| i <= j < a ==> !is_lower_alpha(#[trigger] v@[j]),
            decreases n - a,
        {
            a = a + 1;
        }
        proof {
            lemma_next_alpha_stable(v@, i as int, a as int);
        }
        if a >= n {
            searching = false;
            kw = None;
        } else {
            // scan the token
            let mut b: usize = a;
            while b < n && crate::text::char_is_lower_alpha(v[b])
                invariant
                    a <= b <= n,
                    n == v@.len(),
                    forall|j: int| a <= j < b ==> is_lower_alpha(#[trigger] v@[j]),
                decreases n - b,
            {
                b = b + 1;
            }
            proof {
                lemma_next_nonalpha_stable(v@, a as int, b as int);
            }
            let tok = crate::text::subvec(v, a, b);
            proof {
                crate::fuzzy::lemma_fuzzy_spec_range(tok@, date_vocab());
            }
            match fuzzy_match(&tok, &vocab) {
                Some(k) => {
                    kw = Some(k);
                    searching = false;
                },
                None => {
                    proof {
                        lemma_next_alpha_bounds(v@, i as int);
                        lemma_next_nonalpha_bounds(v@, a as int);
                        assert(b > a);
                    }
                    i = b;
                },
            }
        }
    }
    let req: u32 = h * 3600 + mi * 60;
    match kw {
        Some(k) => {
            if k == 0 {
                Some(*base)
            } else if k == 1 {
                add_days(base, 1)
            } else {
                let target: u8 = (k - 1) as u8;
                let cur: u8 = weekday_of(base) + 1;
                let d0: u8 = (target + 7 - cur) % 7;
                let delta: u8 = if d0 == 0 && (!has_time || req <= now_sod) {
                    7
                } else {
                    d0
                };
                proof {
                    assert((target as int - cur as int + 7) % 7 == (target + 7 - cur) as int % 7);
                }
                add_days(base, delta)
            }
        },
        None => {
            if has_time && req <= now_sod {
                add_days(base, 1)
            } else {
                Some(*base)
            }
        },
    }
}

// ---------------------------------------------------------------------------
// Whole-phrase resolution
// ---------------------------------------------------------------------------
/// The UTC instant a free-form phrase names, given the current UTC instant
/// and a wall-clock offset (seconds east of UTC): the phrase is normalized,
/// a trailing timezone token overrides the offset, an explicit time of day
/// is extracted (else end-of-day 23:59), and the date is resolved against
/// the local calendar; the combined local time is converted back to UTC.
pub open spec fn resolve_phrase_spec(input: Seq<char>, now: Timestamp, home_off: int) -> Option<
    Timestamp,
> {
    let norm = normalize_spec(input);
    if norm.len() == 0 {
        None
    } else {
        let (value, otz) = split_tz_spec(norm);
        let off = match otz {
            Some(o) => o,
            None => home_off,
        };
        match shift_s(now, off) {
            None => None,
            Some(now_local) => {
                let t = parse_time_spec(value);
                let has_time = t is Some;
                let hm = match t {
                    Some(hm) => hm,
                    None => (23int, 59int),
                };
                match resolve_date_spec(
                    value,
                    now_local.date,
                    seconds_of_day(now_local),
                    has_time,
                    hm.0,
                    hm.1,
                ) {
                    None => None,
                    Some(date) => shift_s(
                        Timestamp {
                            date,
                            hour: hm.0 as u8,
                            minute: hm.1 as u8,
                            second: 0,
                        },
                        -off,
                    ),
                }
            },
        }
    }
}

/// Resolve a free-form date/time phrase against the given wall-clock offset.
pub fn parse_human_datetime_with_tz(input: &str, now_utc: &Timestamp, home_tz: i32) -> (r: Option<
    Timestamp,
>)
    requires
        valid_timestamp(*now_utc),
        -86400 < home_tz < 86400,
    ensures
        r == resolve_phrase_spec(input@, *now_utc, home_tz as int),
        r is Some ==> valid_timestamp(r.unwrap()),
{
    let raw = chars_of(input);
    let norm = normalized(&raw);
    if norm.len() == 0 {
        return None;
    }
    let (value, otz) = split_timezone_suffix(&norm);
    let off: i32 = match otz {
        Some(o) => o,
        None => home_tz,
    };
    let now_local = match shift_by_seconds(now_utc, off) {
        Some(l) => l,
        None => {
            return None;
        },
    };
    let t = parse_time(&value);
    let has_time = t.is_some();
    let (h, mi): (u32, u32) = match t {
        Some(hm) => hm,
        None => (23, 59),
    };
    let now_sod: u32 = (now_local.hour as u32) * 3600 + (now_local.minute as u32) * 60
        + (now_local.second as u32);
    let date = match resolve_date(&value, &now_local.date, now_sod, has_time, h, mi) {
        Some(d) => d,
        None => {
            return None;
        },
    };
    let loc = Timestamp { date, hour: h as u8, minute: mi as u8, second: 0 };
    shift_by_seconds(&loc, -off)
}

/// The UTC instant a due-date text names: a strict machine timestamp is
/// taken directly; anything else is resolved as a free-form phrase.
pub open spec fn parse_human_spec(input: Seq<char>, now: Timestamp, home_off: int) -> Option<
    Timestamp,
> {
    match parse_rfc3339_spec(trim_spec(input)) {
        Some((t, toff)) => shift_s(t, -toff),
        None => resolve_phrase_spec(input, now, home_off),
    }
}

/// Parse a due-date text: a strict machine-formatted timestamp wins; loose
/// phrases fall back to the natural-language resolver.
pub fn parse_human_datetime(input: &str, now_utc: &Timestamp, home_offset: i32) -> (r: Option<
    Timestamp,
>)
    requires
        valid_timestamp(*now_utc),
        -86400 < home_offset < 86400,
    ensures
        r == parse_human_spec(input@, *now_utc, home_offset as int),
        r is Some ==> valid_timestamp(r.unwrap()),
{
    let raw = chars_of(input);
    let t = trimmed(&raw);
    match parse_rfc3339(&t) {
        Some((ts, toff)) => {
            let r = shift_by_seconds(&ts, -toff);
            proof {
                crate::calendar::lemma_shift_s(ts, -toff as int);
            }
            r
        },
        None => parse_human_datetime_with_tz(input, now_utc, home_offset),
    }
}

} // verus!

verus! {

/// A canonical machine timestamp resolves to exactly its instant, whatever
/// the current time and offset.
pub proof fn lemma_machine_timestamp_round_trip(d: Timestamp, now: Timestamp, off: int)
    requires
        valid_timestamp(d),
    ensures
        parse_human_spec(crate::timefmt::rfc3339_utc_seq(d), now, off) == Some(d),
{
    let s = crate::timefmt::rfc3339_utc_seq(d);
    crate::timefmt::lemma_rfc3339_chars(d);
    assert(trim_spec(s) == s) by {
        assert(!is_space(s[0]));
        assert(!is_space(s.last()));
        assert(crate::text::trim_front(s) == s);
        assert(crate::text::trim_back(s) == s);
    }
    crate::timefmt::lemma_rfc3339_round_trip(d);
    crate::calendar::lemma_shift_zero(d);
    assert(-0int == 0int);
}

} // verus!

verus! {

/// Every date keyword is lower-case letters only.
proof fn lemma_date_vocab_alpha(k: int)
    requires
        0 <= k < date_vocab().len(),
    ensures
        date_vocab()[k].len() >= 1,
        forall|i: int|
            0 <= i < date_vocab()[k].len() ==> is_lower_alpha(#[trigger] date_vocab()[k][i]),
{
    reveal_strlit("today");
    reveal_strlit("tomorrow");
    reveal_strlit("monday");
    reveal_strlit("tuesday");
    reveal_strlit("wednesday");
    reveal_strlit("thursday");
    reveal_strlit("friday");
    reveal_strlit("saturday");
    reveal_strlit("sunday");
    let w = date_vocab()[k];
    assert forall|i: int| 0 <= i < w.len() implies is_lower_alpha(#[trigger] w[i]) by {
        if k == 0 {
            assert(is_lower_alpha("today"@[i]));
        } else if k == 1 {
            assert(is_lower_alpha("tomorrow"@[i]));
        } else if k == 2 {
            assert(is_lower_alpha("monday"@[i]));
        } else if k == 3 {
            assert(is_lower_alpha("tuesday"@[i]));
        } else if k == 4 {
            assert(is_lower_alpha("wednesday"@[i]));
        } else if k == 5 {
            assert(is_lower_alpha("thursday"@[i]));
        } else if k == 6 {
            assert(is_lower_alpha("friday"@[i]));
        } else if k == 7 {
            assert(is_lower_alpha("saturday"@[i]));
        } else {
            assert(is_lower_alpha("sunday"@[i]));
        }
    }
}

/// A single all-letter token names the keyword the matcher accepts it as.
proof fn lemma_token_keyword(tok: Seq<char>, k: int)
    requires
        tok.len() >= 1,
        forall|i: int| 0 <= i < tok.len() ==> is_lower_alpha(#[trigger] tok[i]),
        fuzzy_spec(tok, date_vocab()) == Some(k),
    ensures
        keyword_from(tok, 0) == Some(k),
{
    assert(next_alpha(tok, 0) == 0);
    lemma_next_nonalpha_stable(tok, 0, tok.len() as int);
    assert(tok.subrange(0, tok.len() as int) =~= tok);
}

/// The law of typo tolerance in date resolution: any all-letter token the
/// fuzzy matcher accepts as a date keyword resolves, as a whole phrase, to
/// exactly the date the canonical spelling of that keyword resolves to —
/// whatever the base date, the current time of day and the time fields.
pub proof fn lemma_typo_resolves_like_canonical(
    tok: Seq<char>,
    k: int,
    base: Date,
    now_sod: int,
    has_time: bool,
    h: int,
    mi: int,
)
    requires
        tok.len() >= 1,
        forall|i: int| 0 <= i < tok.len() ==> is_lower_alpha(#[trigger] tok[i]),
        fuzzy_spec(tok, date_vocab()) == Some(k),
    ensures
        0 <= k < date_vocab().len(),
        fuzzy_spec(date_vocab()[k], date_vocab()) == Some(k),
        resolve_date_spec(tok, base, now_sod, has_time, h, mi) == resolve_date_spec(
            date_vocab()[k],
            base,
            now_sod,
            has_time,
            h,
            mi,
        ),
{
    crate::fuzzy::lemma_fuzzy_spec_range(tok, date_vocab());
    lemma_token_keyword(tok, k);
    // the canonical spelling is accepted exactly, at its own index
    reveal_strlit("today");
    reveal_strlit("tomorrow");
    reveal_strlit("monday");
    reveal_strlit("tuesday");
    reveal_strlit("wednesday");
    reveal_strlit("thursday");
    reveal_strlit("friday");
    reveal_strlit("saturday");
    reveal_strlit("sunday");
    let c = date_vocab()[k];
    lemma_date_vocab_alpha(k);
    crate::text::lemma_fm_norm_id(c);
    assert(forall|j: int| 0 <= j < k ==> date_vocab()[j] != c) by {
        assert("tomorrow"@[1] != "thursday"@[1]);
        assert("saturday"@[0] != "tomorrow"@[0]);
        assert("friday"@[0] != "monday"@[0]);
        assert("sunday"@[0] != "monday"@[0]);
        assert("sunday"@[0] != "friday"@[0]);
    }
    crate::fuzzy::lemma_exact_accepted(c, date_vocab(), k);
    lemma_token_keyword(c, k);
}

} // verus!

verus! {

/// A phrase of letters alone carries no time of day.
proof fn lemma_no_time_in_alpha(s: Seq<char>, i: int)
    requires
        0 <= i <= s.len(),
        forall|j: int| 0 <= j < s.len() ==> is_lower_alpha(#[trigger] s[j]),
    ensures
        find_meridiem(s, i) is None,
        find_24h(s, i) is None,
    decreases s.len() - i,
{
    if i < s.len() {
        assert(!is_digit(s[i]));
        assert(meridiem_at(s, i) is None);
        assert(twentyfour_at(s, i) is None);
        lemma_no_time_in_alpha(s, i + 1);
    }
}

/// The phrase-level law of date typo tolerance: a one-word phrase the fuzzy
/// matcher accepts as a date keyword resolves to exactly the instant the
/// canonical spelling of that keyword resolves to, whatever the current
/// instant and the wall-clock offset.
pub proof fn lemma_typo_phrase_resolves_like_canonical(
    w: Seq<char>,
    k: int,
    now: Timestamp,
    home_off: int,
)
    requires
        valid_timestamp(now),
        -86400 < home_off < 86400,
        w.len() >= 1,
        forall|j: int| 0 <= j < w.len() ==> is_lower_alpha(#[trigger] w[j]),
        fuzzy_spec(w, date_vocab()) == Some(k),
    ensures
        0 <= k < date_vocab().len(),
        resolve_phrase_spec(w, now, home_off) == resolve_phrase_spec(
            date_vocab()[k],
            now,
            home_off,
        ),
{
    crate::fuzzy::lemma_fuzzy_spec_range(w, date_vocab());
    let c = date_vocab()[k];
    lemma_date_vocab_alpha(k);
    lemma_token_phrase_parts(w);
    lemma_token_phrase_parts(c);
    lemma_typo_resolves_like_canonical(
        w,
        k,
        shift_s(now, home_off).unwrap().date,
        seconds_of_day(shift_s(now, home_off).unwrap()),
        false,
        23,
        59,
    );
}

/// For a one-word phrase of letters, the resolution pipeline reduces to the
/// date-keyword step: normalization is the identity, no timezone token is
/// split off, and no time of day is found.
proof fn lemma_token_phrase_parts(w: Seq<char>)
    requires
        w.len() >= 1,
        forall|j: int| 0 <= j < w.len() ==> is_lower_alpha(#[trigger] w[j]),
    ensures
        normalize_spec(w) == w,
        split_tz_spec(w) == (w, None::<int>),
        parse_time_spec(w) is None,
{
    crate::text::lemma_normalize_token_id(w);
    lemma_last_space_none(w);
    lemma_no_time_in_alpha(w, 0);
}

} // verus!
