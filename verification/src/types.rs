use vstd::prelude::*;

use crate::text::dec_seq;
use crate::text::push_dec_u32;
use crate::text::push_str_chars;
use crate::text::string_from_chars;

verus! {

/// The seven weekdays, ordered Monday through Sunday.
#[derive(Clone, Copy, Debug, PartialEq, Eq, Structural)]
pub enum DaysOfWeek {
    Monday,
    Tuesday,
    Wednesday,
    Thursday,
    Friday,
    Saturday,
    Sunday,
}

/// A recurrence rule for a task.
#[derive(Clone, Debug, PartialEq, Eq)]
pub enum Reccurence {
    Daily,
    Weekly(Vec<DaysOfWeek>),
    Monthly(Option<u32>),
    Yearly,
}

/// Position of a weekday in the Monday-first week, 0 through 6.
pub open spec fn day_idx(d: DaysOfWeek) -> int {
    match d {
        DaysOfWeek::Monday => 0,
        DaysOfWeek::Tuesday => 1,
        DaysOfWeek::Wednesday => 2,
        DaysOfWeek::Thursday => 3,
        DaysOfWeek::Friday => 4,
        DaysOfWeek::Saturday => 5,
        DaysOfWeek::Sunday => 6,
    }
}

/// Weekday number counted from Monday, 1 through 7.
pub open spec fn day_num(d: DaysOfWeek) -> int {
    day_idx(d) + 1
}

/// The full lower-case name of a weekday.
pub open spec fn day_name(d: DaysOfWeek) -> Seq<char> {
    match d {
        DaysOfWeek::Monday => "monday"@,
        DaysOfWeek::Tuesday => "tuesday"@,
        DaysOfWeek::Wednesday => "wednesday"@,
        DaysOfWeek::Thursday => "thursday"@,
        DaysOfWeek::Friday => "friday"@,
        DaysOfWeek::Saturday => "saturday"@,
        DaysOfWeek::Sunday => "sunday"@,
    }
}

/// The weekday at a given Monday-first position.
pub open spec fn day_of_idx(i: int) -> DaysOfWeek {
    if i == 0 {
        DaysOfWeek::Monday
    } else if i == 1 {
        DaysOfWeek::Tuesday
    } else if i == 2 {
        DaysOfWeek::Wednesday
    } else if i == 3 {
        DaysOfWeek::Thursday
    } else if i == 4 {
        DaysOfWeek::Friday
    } else if i == 5 {
        DaysOfWeek::Saturday
    } else {
        DaysOfWeek::Sunday
    }
}

impl DaysOfWeek {
    /// The full lower-case name of the weekday.
    pub fn as_str(&self) -> (r: &'static str)
        ensures
            r@ == day_name(*self),
    {
        match self {
            DaysOfWeek::Monday => "monday",
            DaysOfWeek::Tuesday => "tuesday",
            DaysOfWeek::Wednesday => "wednesday",
            DaysOfWeek::Thursday => "thursday",
            DaysOfWeek::Friday => "friday",
            DaysOfWeek::Saturday => "saturday",
            DaysOfWeek::Sunday => "sunday",
        }
    }

    /// Position in the Monday-first week, 0 through 6.
    pub fn index0(&self) -> (r: u8)
        ensures
            r as int == day_idx(*self),
    {
        match self {
            DaysOfWeek::Monday => 0,
            DaysOfWeek::Tuesday => 1,
            DaysOfWeek::Wednesday => 2,
            DaysOfWeek::Thursday => 3,
            DaysOfWeek::Friday => 4,
            DaysOfWeek::Saturday => 5,
            DaysOfWeek::Sunday => 6,
        }
    }

    /// The weekday at a Monday-first position (positions past 6 give Sunday).
    pub fn from_index0(i: u8) -> (r: DaysOfWeek)
        ensures
            r == day_of_idx(i as int),
    {
        if i == 0 {
            DaysOfWeek::Monday
        } else if i == 1 {
            DaysOfWeek::Tuesday
        } else if i == 2 {
            DaysOfWeek::Wednesday
        } else if i == 3 {
            DaysOfWeek::Thursday
        } else if i == 4 {
            DaysOfWeek::Friday
        } else if i == 5 {
            DaysOfWeek::Saturday
        } else {
            DaysOfWeek::Sunday
        }
    }
}

/// The ordinal suffix of a day number: `st`, `nd`, `rd` or `th`.
pub open spec fn ordinal_suffix(day: int) -> Seq<char> {
    if 11 <= day % 100 <= 13 {
        "th"@
    } else if day % 10 == 1 {
        "st"@
    } else if day % 10 == 2 {
        "nd"@
    } else if day % 10 == 3 {
        "rd"@
    } else {
        "th"@
    }
}

/// A day number with its ordinal suffix, e.g. `1st` or `18th`.
pub open spec fn ordinal_seq(day: int) -> Seq<char> {
    dec_seq(day) + ordinal_suffix(day)
}

/// Render a day-of-month as an ordinal.
pub fn ordinal_day(day: u32) -> (r: String)
    ensures
        r@ == ordinal_seq(day as int),
{
    let mut out: Vec<char> = Vec::new();
    push_dec_u32(&mut out, day);
    let rem100 = day % 100;
    let rem10 = day % 10;
    if 11 <= rem100 && rem100 <= 13 {
        push_str_chars(&mut out, "th");
    } else if rem10 == 1 {
        push_str_chars(&mut out, "st");
    } else if rem10 == 2 {
        push_str_chars(&mut out, "nd");
    } else if rem10 == 3 {
        push_str_chars(&mut out, "rd");
    } else {
        push_str_chars(&mut out, "th");
    }
    string_from_chars(&out)
}

/// The names of the listed weekdays joined with `, `.
pub open spec fn day_list_seq(ds: Seq<DaysOfWeek>) -> Seq<char> {
    if ds.len() == 0 {
        Seq::empty()
    } else {
        day_name(ds[0]) + day_list_more(ds.drop_first())
    }
}

pub open spec fn day_list_more(ds: Seq<DaysOfWeek>) -> Seq<char>
    decreases ds.len(),
{
    if ds.len() == 0 {
        Seq::empty()
    } else {
        ", "@ + day_name(ds[0]) + day_list_more(ds.drop_first())
    }
}

/// The canonical phrase of a recurrence rule: abbreviations expanded, a
/// seven-day weekly rule rendered as bare `weekly`, ordinal days suffixed.
pub open spec fn rec_seq(r: Reccurence) -> Seq<char> {
    match r {
        Reccurence::Daily => "daily"@,
        Reccurence::Weekly(days) => if days@.len() == 7 {
            "weekly"@
        } else {
            "weekly on "@ + day_list_seq(days@)
        },
        Reccurence::Monthly(Some(day)) => "monthly on "@ + ordinal_seq(day as int),
        Reccurence::Monthly(None) => "monthly"@,
        Reccurence::Yearly => "yearly"@,
    }
}

/// Do two recurrence rules hold the same pattern?
pub open spec fn rec_eq_spec(a: Reccurence, b: Reccurence) -> bool {
    match (a, b) {
        (Reccurence::Daily, Reccurence::Daily) => true,
        (Reccurence::Weekly(x), Reccurence::Weekly(y)) => x@ == y@,
        (Reccurence::Monthly(p), Reccurence::Monthly(q)) => p == q,
        (Reccurence::Yearly, Reccurence::Yearly) => true,
        _ => false,
    }
}

impl Reccurence {
    /// The canonical phrase of the rule.
    pub fn as_str(&self) -> (r: String)
        ensures
            r@ == rec_seq(*self),
    {
        match self {
            Reccurence::Daily => {
                let mut out: Vec<char> = Vec::new();
                push_str_chars(&mut out, "daily");
                string_from_chars(&out)
            },
            Reccurence::Weekly(days) => {
                if days.len() == 7 {
                    let mut out: Vec<char> = Vec::new();
                    push_str_chars(&mut out, "weekly");
                    string_from_chars(&out)
                } else {
                    let mut out: Vec<char> = Vec::new();
                    push_str_chars(&mut out, "weekly on ");
                    let n = days.len();
                    let mut i: usize = 0;
                    while i < n
                        invariant
                            i <= n,
                            n == days@.len(),
                            i == 0 ==> out@ == "weekly on "@,
                            i >= 1 ==> "weekly on "@ + day_list_seq(days@) == out@ + day_list_more(
                                days@.skip(i as int),
                            ),
                        decreases n - i,
                    {
                        let ghost pre = out@;
                        if i > 0 {
                            push_str_chars(&mut out, ", ");
                        }
                        push_str_chars(&mut out, days[i].as_str());
                        proof {
                            if i == 0 {
                                assert(days@.drop_first() =~= days@.skip(1));
                                assert(out@ =~= "weekly on "@ + day_name(days@[0]));
                                assert(day_list_seq(days@) == day_name(days@[0]) + day_list_more(
                                    days@.skip(1),
                                ));
                                assert("weekly on "@ + day_list_seq(days@) =~= out@ + day_list_more(
                                    days@.skip(1),
                                ));
                            } else {
                                let rest = days@.skip(i as int);
                                assert(rest.drop_first() =~= days@.skip(i as int + 1));
                                assert(rest[0] == days@[i as int]);
                                assert(day_list_more(rest) == ", "@ + day_name(days@[i as int])
                                    + day_list_more(days@.skip(i as int + 1)));
                                assert(out@ =~= pre + (", "@ + day_name(days@[i as int])));
                                assert(pre + day_list_more(rest) =~= out@ + day_list_more(
                                    days@.skip(i as int + 1),
                                ));
                            }
                        }
                        i = i + 1;
                    }
                    proof {
                        if n == 0 {
                            assert(day_list_seq(days@) =~= Seq::<char>::empty());
                            assert(out@ =~= "weekly on "@ + day_list_seq(days@));
                        } else {
                            assert(days@.skip(n as int).len() == 0);
                            assert(day_list_more(days@.skip(n as int)) =~= Seq::<char>::empty());
                            assert(out@ =~= "weekly on "@ + day_list_seq(days@));
                        }
                    }
                    string_from_chars(&out)
                }
            },
            Reccurence::Monthly(Some(day)) => {
                let mut out: Vec<char> = Vec::new();
                push_str_chars(&mut out, "monthly on ");
                let ord = ordinal_day(*day);
                push_str_chars(&mut out, ord.as_str());
                string_from_chars(&out)
            },
            Reccurence::Monthly(None) => {
                let mut out: Vec<char> = Vec::new();
                push_str_chars(&mut out, "monthly");
                string_from_chars(&out)
            },
            Reccurence::Yearly => {
                let mut out: Vec<char> = Vec::new();
                push_str_chars(&mut out, "yearly");
                string_from_chars(&out)
            },
        }
    }

    /// Do two rules hold the same pattern?
    pub fn same_as(&self, other: &Reccurence) -> (r: bool)
        ensures
            r == rec_eq_spec(*self, *other),
    {
        match (self, other) {
            (Reccurence::Daily, Reccurence::Daily) => true,
            (Reccurence::Weekly(x), Reccurence::Weekly(y)) => {
                if x.len() != y.len() {
                    return false;
                }
                let n = x.len();
                let mut i: usize = 0;
                while i < n
                    invariant
                        i <= n,
                        n == x@.len() == y@.len(),
                        rec_eq_spec(*self, *other) == (x@ == y@),
                        forall|j: int| 0 <= j < i ==> x@[j] == y@[j],
                    decreases n - i,
                {
                    if x[i] != y[i] {
                        return false;
                    }
                    i = i + 1;
                }
                proof {
                    assert(x@ =~= y@);
                }
                true
            },
            (Reccurence::Monthly(Some(p)), Reccurence::Monthly(Some(q))) => p == q,
            (Reccurence::Monthly(None), Reccurence::Monthly(None)) => true,
            (Reccurence::Yearly, Reccurence::Yearly) => true,
            _ => false,
        }
    }
}

} // verus!

verus! {

// ---------------------------------------------------------------------------
// Task records and the line codec
// ---------------------------------------------------------------------------
/// One task: identity, completion flag, display name, optional due instant
/// (always UTC), optional recurrence rule, and informational timestamps.
pub struct Todo {
    id: u128,
    done: bool,
    due_date: Option<crate::calendar::Timestamp>,
    recurence: Option<Reccurence>,
    created_at: crate::calendar::Timestamp,
    updated_at: crate::calendar::Timestamp,
    name: String,
}

impl Todo {
    /// Well-formedness: every timestamp held is a valid instant.
    pub open spec fn wf(self) -> bool {
        &&& match self.spec_due() {
            Some(d) => crate::calendar::valid_timestamp(d),
            None => true,
        }
        &&& crate::calendar::valid_timestamp(self.spec_created())
        &&& crate::calendar::valid_timestamp(self.spec_updated())
    }

    pub closed spec fn spec_id(self) -> u128 {
        self.id
    }

    pub closed spec fn spec_done(self) -> bool {
        self.done
    }

    pub closed spec fn spec_due(self) -> Option<crate::calendar::Timestamp> {
        self.due_date
    }

    pub closed spec fn spec_rec(self) -> Option<Reccurence> {
        self.recurence
    }

    pub closed spec fn spec_name(self) -> Seq<char> {
        self.name@
    }

    pub closed spec fn spec_created(self) -> crate::calendar::Timestamp {
        self.created_at
    }

    pub closed spec fn spec_updated(self) -> crate::calendar::Timestamp {
        self.updated_at
    }

    /// A fresh, not-done, empty record carrying the given name, stamped
    /// with the supplied current instant and a newly minted identity.
    pub fn new(name: String, now: &crate::calendar::Timestamp) -> (r: Todo)
        requires
            crate::calendar::valid_timestamp(*now),
        ensures
            r.wf(),
            !r.spec_done(),
            r.spec_due() is None,
            r.spec_rec() is None,
            r.spec_name() == name@,
            r.spec_created() == *now,
            r.spec_updated() == *now,
    {
        Todo {
            id: crate::ident::fresh_id(),
            done: false,
            due_date: None,
            recurence: None,
            created_at: *now,
            updated_at: *now,
            name,
        }
    }

    pub fn id(&self) -> (r: u128)
        ensures
            r == self.spec_id(),
    {
        self.id
    }

    pub fn done(&self) -> (r: bool)
        ensures
            r == self.spec_done(),
    {
        self.done
    }

    pub fn due_date(&self) -> (r: Option<crate::calendar::Timestamp>)
        ensures
            r == self.spec_due(),
    {
        self.due_date
    }

    pub fn recurence(&self) -> (r: Option<&Reccurence>)
        ensures
            match r {
                Some(rec) => self.spec_rec() == Some(*rec),
                None => self.spec_rec() is None,
            },
    {
        self.recurence.as_ref()
    }

    pub fn created_at(&self) -> (r: crate::calendar::Timestamp)
        ensures
            r == self.spec_created(),
    {
        self.created_at
    }

    pub fn updated_at(&self) -> (r: crate::calendar::Timestamp)
        ensures
            r == self.spec_updated(),
    {
        self.updated_at
    }

    pub fn name(&self) -> (r: String)
        ensures
            r@ == self.spec_name(),
    {
        let mut out: Vec<char> = Vec::new();
        push_str_chars(&mut out, self.name.as_str());
        string_from_chars(&out)
    }

    /// Complete the task as of `now`: a recurring task with a due date rolls
    /// its due date to the next occurrence and stays not-done; anything else
    /// is marked done. The identity, name and rule never change.
    pub fn complete(&mut self, now: &crate::calendar::Timestamp, offset_seconds: i32)
        requires
            old(self).wf(),
            crate::calendar::valid_timestamp(*now),
            -86400 < offset_seconds < 86400,
        ensures
            final(self).wf(),
            final(self).spec_id() == old(self).spec_id(),
            final(self).spec_name() == old(self).spec_name(),
            final(self).spec_rec() == old(self).spec_rec(),
            final(self).spec_created() == old(self).spec_created(),
            final(self).spec_updated() == *now,
            complete_rel(*old(self), offset_seconds as int, *now, *final(self)),
    {
        let next: Option<crate::calendar::Timestamp> = match (&self.recurence, &self.due_date) {
            (Some(rec), Some(due)) => crate::recurrence_parser::next_due_date_utc(
                due,
                rec,
                offset_seconds,
            ),
            _ => None,
        };
        match next {
            Some(n) => {
                self.due_date = Some(n);
                self.done = false;
            },
            None => {
                self.done = true;
            },
        }
        self.updated_at = *now;
    }
}

/// How completing relates the new record to the old one: with a rule and a
/// due date whose next occurrence exists, the due date advances to it and
/// the task stays open; otherwise the task is simply marked done.
pub open spec fn complete_rel(
    old_t: Todo,
    off: int,
    now: crate::calendar::Timestamp,
    new_t: Todo,
) -> bool {
    match (old_t.spec_rec(), old_t.spec_due()) {
        (Some(rec), Some(due)) => match crate::recurrence_parser::next_due_utc_s(due, rec, off) {
            Some(n) => new_t.spec_due() == Some(n) && !new_t.spec_done(),
            None => new_t.spec_done() && new_t.spec_due() == old_t.spec_due(),
        },
        _ => new_t.spec_done() && new_t.spec_due() == old_t.spec_due(),
    }
}

} // verus!

verus! {

// ---------------------------------------------------------------------------
// The canonical line grammar
// ---------------------------------------------------------------------------
/// The canonical text of a record: checkbox, name, then the optional due,
/// recurrence and identity fields in fixed order.
pub open spec fn line_seq(t: Todo) -> Seq<char> {
    "- ["@ + (if t.spec_done() {
        "x"@
    } else {
        "_"@
    }) + "] "@ + t.spec_name() + (match t.spec_due() {
        Some(d) => " (due: "@ + crate::timefmt::rfc3339_utc_seq(d) + ")"@,
        None => Seq::empty(),
    }) + (match t.spec_rec() {
        Some(r) => " (reccurence: "@ + rec_seq(r) + ")"@,
        None => Seq::empty(),
    }) + " (id: "@ + crate::ident::id_seq(t.spec_id() as int) + ")"@
}

/// Position of the first `)` at or after `i`.
pub open spec fn next_rparen(s: Seq<char>, i: int) -> int
    decreases s.len() - i when 0 <= i <= s.len()
{
    if i < s.len() && s[i] != ')' {
        next_rparen(s, i + 1)
    } else {
        i
    }
}

pub proof fn lemma_next_rparen_bounds(s: Seq<char>, i: int)
    requires
        0 <= i <= s.len(),
    ensures
        i <= next_rparen(s, i) <= s.len(),
        next_rparen(s, i) < s.len() ==> s[next_rparen(s, i)] == ')',
        forall|j: int| i <= j < next_rparen(s, i) ==> s[j] != ')',
    decreases s.len() - i,
{
    if i < s.len() && s[i] != ')' {
        lemma_next_rparen_bounds(s, i + 1);
    }
}

pub proof fn lemma_next_rparen_stable(s: Seq<char>, start: int, k: int)
    requires
        0 <= start <= k <= s.len(),
        forall|j: int| start <= j < k ==> s[j] != ')',
        k < s.len() ==> s[k] == ')',
    ensures
        next_rparen(s, start) == k,
    decreases k - start,
{
    if start < k {
        lemma_next_rparen_stable(s, start + 1, k);
    }
}

/// A parenthesized field at position `i`: the marker, a non-empty run of
/// characters other than `)`, then the closing `)`. The result is the field
/// text and the position after the `)`.
pub open spec fn field_at(c: Seq<char>, i: int, m: Seq<char>) -> Option<(Seq<char>, int)> {
    if 0 <= i && i + m.len() <= c.len() && c.subrange(i, i + m.len()) == m {
        let st = i + m.len();
        let e = next_rparen(c, st);
        if e < c.len() && e > st {
            Some((c.subrange(st, e), e + 1))
        } else {
            None
        }
    } else {
        None
    }
}

/// A character that may appear in an identity token.
pub open spec fn is_id_char(ch: char) -> bool {
    crate::text::is_hex_digit(ch) || ch == '-'
}

/// The identity field at position `i`: the marker, exactly 36 hex-or-dash
/// characters, then the closing `)`.
pub open spec fn id_field_at(c: Seq<char>, i: int) -> Option<(Seq<char>, int)> {
    if 0 <= i && i + 43 <= c.len() && c.subrange(i, i + 6) == " (id: "@ && (forall|j: int|
        i + 6 <= j < i + 42 ==> is_id_char(#[trigger] c[j])) && c[i + 42] == ')' {
        Some((c.subrange(i + 6, i + 42), i + 43))
    } else {
        None
    }
}

/// The end of a line: nothing more, or one tolerated trailing period.
pub open spec fn match_tail(c: Seq<char>, i: int) -> bool {
    i == c.len() || (i + 1 == c.len() && c[i] == '.')
}

/// The optional identity field followed by the end of the line.
pub open spec fn match_id_opt(c: Seq<char>, i: int) -> Option<Option<Seq<char>>> {
    if id_field_at(c, i) is Some && match_tail(c, id_field_at(c, i).unwrap().1) {
        Some(Some(id_field_at(c, i).unwrap().0))
    } else if match_tail(c, i) {
        Some(None)
    } else {
        None
    }
}

/// The optional recurrence field followed by the rest of the suffix.
pub open spec fn match_rec_opt(c: Seq<char>, i: int) -> Option<(Option<Seq<char>>, Option<Seq<char>>)> {
    let f = field_at(c, i, " (reccurence: "@);
    if f is Some && match_id_opt(c, f.unwrap().1) is Some {
        Some((Some(f.unwrap().0), match_id_opt(c, f.unwrap().1).unwrap()))
    } else {
        match match_id_opt(c, i) {
            Some(z) => Some((None, z)),
            None => None,
        }
    }
}

/// The optional due field followed by the rest of the suffix.
pub open spec fn match_due_opt(c: Seq<char>, i: int) -> Option<
    (Option<Seq<char>>, Option<Seq<char>>, Option<Seq<char>>),
> {
    let f = field_at(c, i, " (due: "@);
    if f is Some && match_rec_opt(c, f.unwrap().1) is Some {
        let rest = match_rec_opt(c, f.unwrap().1).unwrap();
        Some((Some(f.unwrap().0), rest.0, rest.1))
    } else {
        match match_rec_opt(c, i) {
            Some(rest) => Some((None, rest.0, rest.1)),
            None => None,
        }
    }
}

/// The shortest name (at least one character, never a line break) whose
/// remainder parses as the field suffix — the non-greedy name match.
pub open spec fn name_end_from(c: Seq<char>, i: int) -> Option<int>
    decreases c.len() - i when 1 <= i <= c.len()
{
    if match_due_opt(c, i) is Some {
        Some(i)
    } else if i < c.len() && c[i] != '\n' {
        name_end_from(c, i + 1)
    } else {
        None
    }
}

/// Parse one line of the canonical grammar into its raw parts: the
/// completion mark, the trimmed name, and the texts of the optional due,
/// recurrence and identity fields.
pub open spec fn parse_line_spec(s: Seq<char>) -> Option<
    (bool, Seq<char>, Option<Seq<char>>, Option<Seq<char>>, Option<Seq<char>>),
> {
    if s.len() >= 7 && s.subrange(0, 3) == "- ["@ && (s[3] == 'x' || s[3] == '_') && s.subrange(
        4,
        6,
    ) == "] "@ && s[6] != '\n' {
        let c = s.skip(6);
        match name_end_from(c, 1) {
            Some(i) => {
                let f = match_due_opt(c, i).unwrap();
                Some((s[3] == 'x', crate::text::trim_spec(c.take(i)), f.0, f.1, f.2))
            },
            None => None,
        }
    } else {
        None
    }
}

impl Todo {
    /// Render the record as its canonical line.
    pub fn to_line(&self) -> (r: String)
        requires
            self.wf(),
        ensures
            r@ == line_seq(*self),
    {
        let mut out: Vec<char> = Vec::new();
        push_str_chars(&mut out, "- [");
        if self.done {
            push_str_chars(&mut out, "x");
        } else {
            push_str_chars(&mut out, "_");
        }
        push_str_chars(&mut out, "] ");
        push_str_chars(&mut out, self.name.as_str());
        match &self.due_date {
            Some(d) => {
                push_str_chars(&mut out, " (due: ");
                let ts = crate::timefmt::format_rfc3339_utc(d);
                push_str_chars(&mut out, ts.as_str());
                push_str_chars(&mut out, ")");
            },
            None => {},
        }
        match &self.recurence {
            Some(rec) => {
                push_str_chars(&mut out, " (reccurence: ");
                let rs = rec.as_str();
                push_str_chars(&mut out, rs.as_str());
                push_str_chars(&mut out, ")");
            },
            None => {},
        }
        push_str_chars(&mut out, " (id: ");
        let ids = crate::ident::format_id(self.id);
        push_str_chars(&mut out, ids.as_str());
        push_str_chars(&mut out, ")");
        proof {
            assert(out@ =~= line_seq(*self));
        }
        string_from_chars(&out)
    }
}

} // verus!

verus! {

/// Exec scan for the next `)`.
fn scan_rparen(v: &Vec<char>, from: usize) -> (r: usize)
    requires
        from <= v@.len(),
    ensures
        r as int == next_rparen(v@, from as int),
        from <= r <= v@.len(),
{
    let n = v.len();
    let mut k = from;
    while k < n && v[k] != ')'
        invariant
            from <= k <= n,
            n == v@.len(),
            forall|j: int| from <= j < k ==> v@[j] != ')',
        decreases n - k,
    {
        k = k + 1;
    }
    proof {
        lemma_next_rparen_stable(v@, from as int, k as int);
    }
    k
}

/// Exec form of `field_at`.
fn field_at_exec(v: &Vec<char>, i: usize, marker: &str) -> (r: Option<(Vec<char>, usize)>)
    requires
        i <= v@.len(),
    ensures
        match r {
            Some((f, j)) => field_at(v@, i as int, marker@) == Some((f@, j as int)) && i < j
                <= v@.len(),
            None => field_at(v@, i as int, marker@) is None,
        },
{
    let n = v.len();
    let ml = marker.unicode_len();
    if n - i < ml {
        return None;
    }
    if !crate::text::range_eq_str(v, i, i + ml, marker) {
        return None;
    }
    let st = i + ml;
    let e = scan_rparen(v, st);
    if e < n && e > st {
        Some((crate::text::subvec(v, st, e), e + 1))
    } else {
        None
    }
}

/// Exec form of `id_field_at`.
fn id_field_at_exec(v: &Vec<char>, i: usize) -> (r: Option<(Vec<char>, usize)>)
    requires
        i <= v@.len(),
    ensures
        match r {
            Some((f, j)) => id_field_at(v@, i as int) == Some((f@, j as int)) && i < j <= v@.len(),
            None => id_field_at(v@, i as int) is None,
        },
{
    let n = v.len();
    if n - i < 43 {
        return None;
    }
    if !crate::text::range_eq_str(v, i, i + 6, " (id: ") {
        return None;
    }
    let mut k: usize = i + 6;
    while k < i + 42
        invariant
            i + 6 <= k <= i + 42,
            i + 43 <= n == v@.len(),
            forall|j: int| i + 6 <= j < k ==> is_id_char(#[trigger] v@[j]),
        decreases i + 42 - k,
    {
        if !crate::text::char_is_hex_digit(v[k]) && v[k] != '-' {
            return None;
        }
        k = k + 1;
    }
    if v[i + 42] != ')' {
        return None;
    }
    Some((crate::text::subvec(v, i + 6, i + 42), i + 43))
}

/// Exec form of `match_tail`.
fn tail_ok(v: &Vec<char>, i: usize) -> (r: bool)
    requires
        i <= v@.len(),
    ensures
        r == match_tail(v@, i as int),
{
    let n = v.len();
    i == n || (i + 1 == n && v[i] == '.')
}

/// Exec form of `match_id_opt`.
fn match_id_opt_exec(v: &Vec<char>, i: usize) -> (r: Option<Option<Vec<char>>>)
    requires
        i <= v@.len(),
    ensures
        match r {
            Some(Some(z)) => match_id_opt(v@, i as int) == Some(Some(z@)),
            Some(None) => match_id_opt(v@, i as int) == Some(None::<Seq<char>>),
            None => match_id_opt(v@, i as int) is None,
        },
{
    match id_field_at_exec(v, i) {
        Some((z, j)) => {
            if tail_ok(v, j) {
                return Some(Some(z));
            }
            if tail_ok(v, i) {
                Some(None)
            } else {
                None
            }
        },
        None => {
            if tail_ok(v, i) {
                Some(None)
            } else {
                None
            }
        },
    }
}

/// Exec form of `match_rec_opt`.
fn match_rec_opt_exec(v: &Vec<char>, i: usize) -> (r: Option<(Option<Vec<char>>, Option<Vec<char>>)>)
    requires
        i <= v@.len(),
    ensures
        match r {
            Some(parts) => match_rec_opt(v@, i as int) matches Some(sp) && opt_view(parts.0)
                == sp.0 && opt_view(parts.1) == sp.1,
            None => match_rec_opt(v@, i as int) is None,
        },
{
    match field_at_exec(v, i, " (reccurence: ") {
        Some((y, j)) => {
            match match_id_opt_exec(v, j) {
                Some(z) => {
                    return Some((Some(y), z));
                },
                None => {},
            }
            match match_id_opt_exec(v, i) {
                Some(z) => Some((None, z)),
                None => None,
            }
        },
        None => {
            match match_id_opt_exec(v, i) {
                Some(z) => Some((None, z)),
                None => None,
            }
        },
    }
}

/// The view of an optional character vector.
pub open spec fn opt_view(o: Option<Vec<char>>) -> Option<Seq<char>> {
    match o {
        Some(v) => Some(v@),
        None => None,
    }
}

/// Exec form of `match_due_opt`.
fn match_due_opt_exec(v: &Vec<char>, i: usize) -> (r: Option<
    (Option<Vec<char>>, Option<Vec<char>>, Option<Vec<char>>),
>)
    requires
        i <= v@.len(),
    ensures
        match r {
            Some(parts) => match_due_opt(v@, i as int) matches Some(sp) && opt_view(parts.0)
                == sp.0 && opt_view(parts.1) == sp.1 && opt_view(parts.2) == sp.2,
            None => match_due_opt(v@, i as int) is None,
        },
{
    match field_at_exec(v, i, " (due: ") {
        Some((d, j)) => {
            match match_rec_opt_exec(v, j) {
                Some((y, z)) => {
                    return Some((Some(d), y, z));
                },
                None => {},
            }
            match match_rec_opt_exec(v, i) {
                Some((y, z)) => Some((None, y, z)),
                None => None,
            }
        },
        None => {
            match match_rec_opt_exec(v, i) {
                Some((y, z)) => Some((None, y, z)),
                None => None,
            }
        },
    }
}

/// The raw parts of one parsed line.
struct RawLine {
    done: bool,
    name: Vec<char>,
    due: Option<Vec<char>>,
    rec: Option<Vec<char>>,
    id: Option<Vec<char>>,
}

/// Parse one line of the canonical grammar into raw parts.
fn parse_line(v: &Vec<char>) -> (r: Option<RawLine>)
    ensures
        match r {
            Some(raw) => parse_line_spec(v@) matches Some(sp) && sp.0 == raw.done && sp.1
                == raw.name@ && sp.2 == opt_view(raw.due) && sp.3 == opt_view(raw.rec) && sp.4
                == opt_view(raw.id),
            None => parse_line_spec(v@) is None,
        },
{
    let n = v.len();
    if n < 7 {
        return None;
    }
    if !crate::text::range_eq_str(v, 0, 3, "- [") {
        return None;
    }
    if v[3] != 'x' && v[3] != '_' {
        return None;
    }
    if !crate::text::range_eq_str(v, 4, 6, "] ") {
        return None;
    }
    if v[6] == '\n' {
        return None;
    }
    let c = crate::text::subvec(v, 6, n);
    proof {
        assert(c@ =~= v@.skip(6));
    }
    let m = c.len();
    let mut i: usize = 1;
    let mut stop: bool = false;
    let mut fields: Option<(Option<Vec<char>>, Option<Vec<char>>, Option<Vec<char>>)> = None;
    while !stop
        invariant
            1 <= i <= m,
            m == c@.len() >= 1,
            !stop ==> fields is None && name_end_from(c@, 1) == name_end_from(c@, i as int),
            stop ==> match fields {
                Some(parts) => name_end_from(c@, 1) == Some(i as int) && (match_due_opt(
                    c@,
                    i as int,
                ) matches Some(sp) && opt_view(parts.0) == sp.0 && opt_view(parts.1) == sp.1
                    && opt_view(parts.2) == sp.2),
                None => name_end_from(c@, 1) is None,
            },
        decreases m - i + (if stop {
            0int
        } else {
            1int
        }),
    {
        match match_due_opt_exec(&c, i) {
            Some(parts) => {
                fields = Some(parts);
                stop = true;
            },
            None => {
                if i < m && c[i] != '\n' {
                    i = i + 1;
                } else {
                    fields = None;
                    stop = true;
                }
            },
        }
    }
    match fields {
        Some((due, rec, id)) => {
            let name_raw = crate::text::subvec(&c, 0, i);
            let name = crate::text::trimmed(&name_raw);
            proof {
                assert(name_raw@ =~= c@.take(i as int));
            }
            Some(RawLine { done: v[3] == 'x', name, due, rec, id })
        },
        None => None,
    }
}

} // verus!

verus! {

/// How a decoded record relates to its line, the current instant and the
/// caller's wall-clock offset. The name is the trimmed capture; both
/// informational stamps are `now`; the identity is the field's value when
/// it parses strictly (and fresh otherwise); the due instant is whatever
/// the resolver makes of the field; the recurrence is whatever the phrase
/// parser makes of it against the local clock; a line marked done with a
/// recurring rule and a due date rolls forward instead of staying done.
pub open spec fn decode_rel(
    s: Seq<char>,
    now: crate::calendar::Timestamp,
    off: int,
    t: Todo,
) -> bool {
    &&& parse_line_spec(s) matches Some(sp) ==> {
        let (mark, name, due_t, rec_t, id_t) = sp;
        let due0 = match due_t {
            Some(dt) => crate::date_parser::parse_human_spec(dt, now, off),
            None => None,
        };
        &&& t.spec_name() == name
        &&& t.spec_created() == now
        &&& t.spec_updated() == now
        &&& (match id_t {
            Some(z) => match crate::ident::parse_id_spec(z) {
                Some(u) => t.spec_id() == u,
                None => true,
            },
            None => true,
        })
        &&& crate::calendar::shift_s(now, off) matches Some(now_local)
            ==> (match rec_t {
            Some(rt) => crate::recurrence_parser::parse_rec_rel(
                rt,
                day_of_idx(crate::calendar::weekday_index(now_local.date)),
                t.spec_rec(),
            ),
            None => t.spec_rec() is None,
        })
        &&& (if !mark {
            !t.spec_done() && t.spec_due() == due0
        } else {
            match (t.spec_rec(), due0) {
                (Some(rec), Some(d0)) => match crate::recurrence_parser::next_due_utc_s(
                    d0,
                    rec,
                    off,
                ) {
                    Some(n) => !t.spec_done() && t.spec_due() == Some(n),
                    None => t.spec_done() && t.spec_due() == due0,
                },
                _ => t.spec_done() && t.spec_due() == due0,
            }
        })
    }
    &&& parse_line_spec(s) is Some
    &&& crate::calendar::shift_s(now, off) is Some
}

impl Todo {
    /// Decode one line of the canonical grammar into a record, as of the
    /// given current instant and wall-clock offset. `None` when the line
    /// does not match the grammar (or the current instant cannot be taken
    /// to the wall clock). A missing or malformed identity mints a fresh
    /// one; an unreadable due or recurrence field is simply left absent; a
    /// done mark on a recurring task with a due date rolls the task forward.
    pub fn from_str(line: &str, now_utc: &crate::calendar::Timestamp, home_offset: i32) -> (r:
        Option<Todo>)
        requires
            crate::calendar::valid_timestamp(*now_utc),
            -86400 < home_offset < 86400,
        ensures
            match r {
                Some(t) => decode_rel(line@, *now_utc, home_offset as int, t) && t.wf(),
                None => parse_line_spec(line@) is None || crate::calendar::shift_s(
                    *now_utc,
                    home_offset as int,
                ) is None,
            },
            r is Some <==> parse_line_spec(line@) is Some && crate::calendar::shift_s(
                *now_utc,
                home_offset as int,
            ) is Some,
    {
        let v = crate::text::chars_of(line);
        let raw = match parse_line(&v) {
            Some(raw) => raw,
            None => {
                return None;
            },
        };
        let now_local = match crate::calendar::shift_by_seconds(now_utc, home_offset) {
            Some(l) => l,
            None => {
                return None;
            },
        };
        let due: Option<crate::calendar::Timestamp> = match &raw.due {
            Some(dt) => {
                let dts = string_from_chars(dt);
                crate::date_parser::parse_human_datetime(dts.as_str(), now_utc, home_offset)
            },
            None => None,
        };
        let rec: Option<Reccurence> = match &raw.rec {
            Some(rt) => {
                let rts = string_from_chars(rt);
                crate::recurrence_parser::parse_reccurence(rts.as_str(), &now_local)
            },
            None => None,
        };
        let id: u128 = match &raw.id {
            Some(z) => {
                match crate::ident::parse_id(z) {
                    Some(u) => u,
                    None => crate::ident::fresh_id(),
                }
            },
            None => crate::ident::fresh_id(),
        };
        let mut todo = Todo {
            id,
            done: raw.done,
            due_date: due,
            recurence: rec,
            created_at: *now_utc,
            updated_at: *now_utc,
            name: string_from_chars(&raw.name),
        };
        if todo.done {
            todo.complete(now_utc, home_offset);
        }
        Some(todo)
    }
}

} // verus!

verus! {

/// Every character of a weekday name is a lower-case letter.
pub proof fn lemma_day_name_chars(d: DaysOfWeek)
    ensures
        day_name(d).len() >= 3,
        forall|i: int|
            0 <= i < day_name(d).len() ==> crate::text::is_lower_alpha(#[trigger] day_name(d)[i]),
        crate::text::is_lower_alpha(day_name(d)[0]),
        day_name(d)[0] != 'a',
{
    reveal_strlit("monday");
    reveal_strlit("tuesday");
    reveal_strlit("wednesday");
    reveal_strlit("thursday");
    reveal_strlit("friday");
    reveal_strlit("saturday");
    reveal_strlit("sunday");
    match d {
        DaysOfWeek::Monday => {
            assert forall|i: int| 0 <= i < day_name(d).len() implies crate::text::is_lower_alpha(
                #[trigger] day_name(d)[i],
            ) by {
                assert(crate::text::is_lower_alpha("monday"@[i]));
            }
        },
        DaysOfWeek::Tuesday => {
            assert forall|i: int| 0 <= i < day_name(d).len() implies crate::text::is_lower_alpha(
                #[trigger] day_name(d)[i],
            ) by {
                assert(crate::text::is_lower_alpha("tuesday"@[i]));
            }
        },
        DaysOfWeek::Wednesday => {
            assert forall|i: int| 0 <= i < day_name(d).len() implies crate::text::is_lower_alpha(
                #[trigger] day_name(d)[i],
            ) by {
                assert(crate::text::is_lower_alpha("wednesday"@[i]));
            }
        },
        DaysOfWeek::Thursday => {
            assert forall|i: int| 0 <= i < day_name(d).len() implies crate::text::is_lower_alpha(
                #[trigger] day_name(d)[i],
            ) by {
                assert(crate::text::is_lower_alpha("thursday"@[i]));
            }
        },
        DaysOfWeek::Friday => {
            assert forall|i: int| 0 <= i < day_name(d).len() implies crate::text::is_lower_alpha(
                #[trigger] day_name(d)[i],
            ) by {
                assert(crate::text::is_lower_alpha("friday"@[i]));
            }
        },
        DaysOfWeek::Saturday => {
            assert forall|i: int| 0 <= i < day_name(d).len() implies crate::text::is_lower_alpha(
                #[trigger] day_name(d)[i],
            ) by {
                assert(crate::text::is_lower_alpha("saturday"@[i]));
            }
        },
        DaysOfWeek::Sunday => {
            assert forall|i: int| 0 <= i < day_name(d).len() implies crate::text::is_lower_alpha(
                #[trigger] day_name(d)[i],
            ) by {
                assert(crate::text::is_lower_alpha("sunday"@[i]));
            }
        },
    }
}

/// For two or more days the rendered list is the first name, a comma-space,
/// then the rendered list of the rest.
pub proof fn lemma_day_list_step(ds: Seq<DaysOfWeek>)
    requires
        ds.len() >= 2,
    ensures
        day_list_seq(ds) == day_name(ds[0]) + ", "@ + day_list_seq(ds.drop_first()),
{
    let rest = ds.drop_first();
    assert(day_list_more(rest) == ", "@ + day_name(rest[0]) + day_list_more(rest.drop_first()));
    assert(day_list_seq(rest) == day_name(rest[0]) + day_list_more(rest.drop_first()));
    assert(day_name(ds[0]) + ", "@ + day_list_seq(rest) =~= day_name(ds[0]) + day_list_more(
        rest,
    ));
}

/// The shape of a rendered weekday list: letters, commas and spaces only;
/// it begins and ends with a letter; every space directly follows a comma.
pub proof fn lemma_day_list_shape(ds: Seq<DaysOfWeek>)
    requires
        ds.len() >= 1,
    ensures
        day_list_seq(ds).len() >= 3,
        crate::text::is_lower_alpha(day_list_seq(ds)[0]),
        crate::text::is_lower_alpha(day_list_seq(ds).last()),
        forall|j: int|
            0 <= j < day_list_seq(ds).len() ==> crate::text::is_lower_alpha(
                #[trigger] day_list_seq(ds)[j],
            ) || day_list_seq(ds)[j] == ',' || day_list_seq(ds)[j] == ' ',
        forall|j: int|
            0 <= j < day_list_seq(ds).len() && #[trigger] day_list_seq(ds)[j] == ' ' ==> j >= 1
                && day_list_seq(ds)[j - 1] == ',' && j + 1 < day_list_seq(ds).len()
                && day_list_seq(ds)[j + 1] != 'a',
    decreases ds.len(),
{
    let l = day_list_seq(ds);
    lemma_day_name_chars(ds[0]);
    let n0 = day_name(ds[0]);
    if ds.len() == 1 {
        assert(day_list_more(ds.drop_first()) =~= Seq::<char>::empty());
        assert(l =~= n0);
    } else {
        lemma_day_list_step(ds);
        lemma_day_list_shape(ds.drop_first());
        let rest = day_list_seq(ds.drop_first());
        lemma_day_name_chars(ds.drop_first()[0]);
        assert(rest[0] == day_name(ds.drop_first()[0])[0]);
        assert(l =~= n0 + ", "@ + rest);
        reveal_strlit(", ");
        assert(forall|j: int| 0 <= j < n0.len() ==> l[j] == #[trigger] n0[j]);
        assert(l[n0.len() as int] == ',');
        assert(l[n0.len() as int + 1] == ' ');
        assert(forall|j: int|
            0 <= j < rest.len() ==> l[n0.len() as int + 2 + j] == #[trigger] rest[j]);
        assert(l.last() == rest.last());
    }
}

} // verus!

verus! {

/// The rendered recurrence phrase never holds a parenthesis or line break.
pub proof fn lemma_rec_seq_chars(rec: Reccurence)
    ensures
        rec_seq(rec).len() >= 1,
        forall|j: int|
            0 <= j < rec_seq(rec).len() ==> #[trigger] rec_seq(rec)[j] != ')' && rec_seq(rec)[j]
                != '\n',
{
    reveal_strlit("daily");
    reveal_strlit("monthly");
    reveal_strlit("yearly");
    reveal_strlit("weekly");
    reveal_strlit("weekly on ");
    reveal_strlit("monthly on ");
    reveal_strlit("st");
    reveal_strlit("nd");
    reveal_strlit("rd");
    reveal_strlit("th");
    let s = rec_seq(rec);
    match rec {
        Reccurence::Daily => {},
        Reccurence::Yearly => {},
        Reccurence::Monthly(None) => {},
        Reccurence::Monthly(Some(day)) => {
            let ord = ordinal_seq(day as int);
            let digits = crate::text::dec_seq(day as int);
            crate::text::lemma_dec_seq_val(day as int);
            assert forall|j: int| 0 <= j < s.len() implies #[trigger] s[j] != ')' && s[j] != '\n'
            by {
                if j < 11 {
                    assert(s[j] == "monthly on "@[j]);
                } else {
                    assert(s[j] == ord[j - 11]);
                    let oj = j - 11;
                    if oj < digits.len() {
                        assert(ord[oj] == digits[oj]);
                        assert(crate::text::is_digit(digits[oj]));
                    } else {
                        assert(ord[oj] == ordinal_suffix(day as int)[oj - digits.len()]);
                    }
                }
            }
        },
        Reccurence::Weekly(days) => {
            if days@.len() == 7 {
            } else {
                // a weekly rule always lists at least the current weekday;
                // an empty list still renders harmlessly
                if days@.len() == 0 {
                    assert(day_list_seq(days@) =~= Seq::<char>::empty());
                    assert(s =~= "weekly on "@);
                } else {
                    lemma_day_list_shape(days@);
                    assert forall|j: int|
                        0 <= j < s.len() implies #[trigger] s[j] != ')' && s[j] != '\n' by {
                        if j < 10 {
                            assert(s[j] == "weekly on "@[j]);
                        } else {
                            assert(s[j] == day_list_seq(days@)[j - 10]);
                        }
                    }
                }
            }
        },
    }
}

} // verus!

verus! {

/// A name the grammar can carry losslessly: non-empty, surrounded by no
/// whitespace, free of line breaks and of anything that reads as the start
/// of a field.
pub open spec fn name_representable(name: Seq<char>) -> bool {
    &&& name.len() >= 1
    &&& crate::text::trim_spec(name) == name
    &&& forall|j: int| 0 <= j < name.len() ==> #[trigger] name[j] != '\n'
    &&& !crate::text::contains_sub(name, " (due:"@)
    &&& !crate::text::contains_sub(name, " (reccurence:"@)
    &&& !crate::text::contains_sub(name, " (id:"@)
}

/// A field marker cannot begin inside the name region.
proof fn lemma_marker_not_at(name: Seq<char>, rest: Seq<char>, m: Seq<char>, i: int)
    requires
        m.len() >= 2,
        m[0] == ' ',
        m.last() == ' ',
        forall|j: int| 1 <= j < m.len() - 1 ==> #[trigger] m[j] != ' ',
        !crate::text::contains_sub(name, m.drop_last()),
        rest.len() >= 1,
        rest[0] == ' ',
        1 <= i < name.len(),
        i + m.len() <= name.len() + rest.len(),
    ensures
        (name + rest).subrange(i, i + m.len()) != m,
{
    let c = name + rest;
    let nl = name.len() as int;
    if c.subrange(i, i + m.len()) == m {
        assert(forall|j: int|
            0 <= j < m.len() ==> #[trigger] c.subrange(i, i + m.len())[j] == c[i + j]);
        if i + m.len() - 1 <= nl {
            // the marker head sits wholly inside the name
            assert(name.subrange(i, i + m.drop_last().len() as int) =~= m.drop_last()) by {
                assert(forall|j: int|
                    0 <= j < m.len() - 1 ==> name[i + j] == c[i + j] && c[i + j]
                        == #[trigger] m.index(j));
            }
            assert(crate::text::contains_sub(name, m.drop_last()));
        } else {
            // the marker straddles the boundary
            let k = nl - i;
            assert(1 <= k < m.len() - 1);
            assert(c[nl] == rest[0]);
            assert(m[k] == c[i + k]);
            assert(m[k] == ' ');
        }
    }
}

/// No suffix field can be read starting inside the name region.
proof fn lemma_no_match_in_name(name: Seq<char>, rest: Seq<char>, i: int)
    requires
        name_representable(name),
        rest.len() >= 43,
        rest[0] == ' ',
        1 <= i < name.len(),
    ensures
        match_due_opt(name + rest, i) is None,
{
    let c = name + rest;
    proof_marker_facts();
    reveal_strlit(" (due: ");
    reveal_strlit(" (due:");
    reveal_strlit(" (reccurence: ");
    reveal_strlit(" (reccurence:");
    reveal_strlit(" (id: ");
    reveal_strlit(" (id:");
    assert(" (due: "@.drop_last() =~= " (due:"@);
    assert(" (reccurence: "@.drop_last() =~= " (reccurence:"@);
    assert(" (id: "@.drop_last() =~= " (id:"@);
    if i + 7 <= c.len() {
        lemma_marker_not_at(name, rest, " (due: "@, i);
    }
    if i + 14 <= c.len() {
        lemma_marker_not_at(name, rest, " (reccurence: "@, i);
    }
    if i + 6 <= c.len() {
        lemma_marker_not_at(name, rest, " (id: "@, i);
    }
    assert(c.len() - i >= 44);
    assert(!match_tail(c, i));
    assert(field_at(c, i, " (due: "@) is None);
    assert(field_at(c, i, " (reccurence: "@) is None);
    assert(id_field_at(c, i) is None);
    assert(match_id_opt(c, i) is None);
    assert(match_rec_opt(c, i) is None);
}

/// Shapes of the three field markers.
proof fn proof_marker_facts()
    ensures
        " (due: "@.len() == 7 && " (due: "@[0] == ' ' && " (due: "@.last() == ' ' && (forall|
            j: int,
        |
            1 <= j < 6 ==> #[trigger] " (due: "@[j] != ' ') && " (due: "@[2] == 'd',
        " (reccurence: "@.len() == 14 && " (reccurence: "@[0] == ' ' && " (reccurence: "@.last()
            == ' ' && (forall|j: int| 1 <= j < 13 ==> #[trigger] " (reccurence: "@[j] != ' ')
            && " (reccurence: "@[2] == 'r',
        " (id: "@.len() == 6 && " (id: "@[0] == ' ' && " (id: "@.last() == ' ' && (forall|j: int|
            1 <= j < 5 ==> #[trigger] " (id: "@[j] != ' ') && " (id: "@[2] == 'i',
{
    reveal_strlit(" (due: ");
    reveal_strlit(" (reccurence: ");
    reveal_strlit(" (id: ");
}

/// The identity field of the rendered suffix parses as written.
proof fn lemma_id_part(c: Seq<char>, p: int, idv: Seq<char>)
    requires
        0 <= p <= c.len(),
        c.skip(p) =~= " (id: "@ + idv + ")"@,
        idv.len() == 36,
        forall|j: int| 0 <= j < 36 ==> is_id_char(#[trigger] idv[j]),
    ensures
        match_id_opt(c, p) == Some(Some(idv)),
{
    reveal_strlit(" (id: ");
    reveal_strlit(")");
    let t = c.skip(p);
    let id_f = " (id: "@ + idv + ")"@;
    assert(t.len() == 43);
    assert(c.len() == p + 43);
    assert(forall|j: int| 0 <= j < 43 ==> c[p + j] == #[trigger] t[j]);
    assert(forall|j: int| 0 <= j < 43 ==> #[trigger] t[j] == id_f[j]);
    assert(c.subrange(p, p + 6) =~= " (id: "@) by {
        assert forall|j: int| 0 <= j < 6 implies c.subrange(p, p + 6)[j] == " (id: "@[j] by {
            assert(c[p + j] == t[j] && t[j] == id_f[j]);
            assert(id_f[j] == " (id: "@[j]);
        }
    }
    assert forall|j: int| p + 6 <= j < p + 42 implies is_id_char(#[trigger] c[j]) by {
        let q = j - p;
        assert(c[p + q] == t[q] && t[q] == id_f[q]);
        assert(id_f[q] == idv[q - 6]);
    }
    assert(c[p + 42] == ')') by {
        assert(c[p + 42] == t[42] && t[42] == id_f[42]);
        assert(id_f[42] == ')');
    }
    assert(id_field_at(c, p) == Some((c.subrange(p + 6, p + 42), p + 43)));
    assert(c.subrange(p + 6, p + 42) =~= idv) by {
        assert forall|j: int| 0 <= j < 36 implies c.subrange(p + 6, p + 42)[j] == idv[j] by {
            assert(c[p + 6 + j] == t[6 + j] && t[6 + j] == id_f[6 + j]);
            assert(id_f[6 + j] == idv[j]);
        }
    }
    assert(match_tail(c, p + 43));
}

/// The recurrence and identity fields of the rendered suffix parse as
/// written.
proof fn lemma_rec_part(c: Seq<char>, p: int, rec_txt: Option<Seq<char>>, idv: Seq<char>)
    requires
        0 <= p <= c.len(),
        ({
            let rec_f: Seq<char> = match rec_txt {
                Some(rt) => " (reccurence: "@ + rt + ")"@,
                None => Seq::empty(),
            };
            c.skip(p) =~= rec_f + (" (id: "@ + idv + ")"@)
        }),
        rec_txt matches Some(rt) ==> rt.len() >= 1 && forall|j: int|
            0 <= j < rt.len() ==> #[trigger] rt[j] != ')',
        idv.len() == 36,
        forall|j: int| 0 <= j < 36 ==> is_id_char(#[trigger] idv[j]),
    ensures
        match_rec_opt(c, p) == Some((rec_txt, Some(idv))),
{
    reveal_strlit(" (reccurence: ");
    reveal_strlit(" (id: ");
    reveal_strlit(")");
    let id_f = " (id: "@ + idv + ")"@;
    match rec_txt {
        Some(rt) => {
            let t = c.skip(p);
            let rec_f = " (reccurence: "@ + rt + ")"@;
            let whole = rec_f + id_f;
            let flen = 14 + rt.len() as int + 1;
            assert(t.len() == flen + 43);
            assert(c.len() == p + flen + 43);
            assert(forall|j: int| 0 <= j < t.len() ==> c[p + j] == #[trigger] t[j]);
            assert(forall|j: int| 0 <= j < t.len() ==> #[trigger] t[j] == whole[j]);
            assert(forall|j: int| 0 <= j < flen ==> #[trigger] whole[j] == rec_f[j]);
            assert(c.subrange(p, p + 14) =~= " (reccurence: "@) by {
                assert forall|j: int|
                    0 <= j < 14 implies c.subrange(p, p + 14)[j] == " (reccurence: "@[j] by {
                    assert(c[p + j] == t[j] && t[j] == whole[j] && whole[j] == rec_f[j]);
                    assert(rec_f[j] == " (reccurence: "@[j]);
                }
            }
            assert forall|j: int| 0 <= j < rt.len() implies #[trigger] c[p + 14 + j] == rt[j] by {
                assert(c[p + 14 + j] == t[14 + j] && t[14 + j] == whole[14 + j] && whole[14 + j]
                    == rec_f[14 + j]);
                assert(rec_f[14 + j] == rt[j]);
            }
            assert(c[p + 14 + rt.len()] == ')') by {
                let q = 14 + rt.len() as int;
                assert(c[p + q] == t[q] && t[q] == whole[q] && whole[q] == rec_f[q]);
                assert(rec_f[q] == ')');
            }
            assert forall|j: int| p + 14 <= j < p + 14 + rt.len() implies #[trigger] c[j]
                != ')' by {
                let q = j - (p + 14);
                assert(c[p + 14 + q] == rt[q]);
                assert(rt[q] != ')');
            }
            lemma_next_rparen_stable(c, p + 14, p + 14 + rt.len() as int);
            assert(field_at(c, p, " (reccurence: "@) == Some(
                (c.subrange(p + 14, p + 14 + rt.len() as int), p + flen),
            ));
            assert(c.subrange(p + 14, p + 14 + rt.len() as int) =~= rt) by {
                assert forall|j: int|
                    0 <= j < rt.len() implies c.subrange(p + 14, p + 14 + rt.len() as int)[j]
                    == rt[j] by {
                    assert(c[p + 14 + j] == rt[j]);
                }
            }
            assert(c.skip(p + flen) =~= id_f) by {
                assert forall|j: int| 0 <= j < 43 implies c.skip(p + flen)[j] == id_f[j] by {
                    assert(c[p + flen + j] == t[flen + j] && t[flen + j] == whole[flen + j]);
                    assert(whole[flen + j] == id_f[j]);
                }
            }
            lemma_id_part(c, p + flen, idv);
        },
        None => {
            let t = c.skip(p);
            assert(t.len() == 43);
            assert(forall|j: int| 0 <= j < 43 ==> c[p + j] == #[trigger] t[j]);
            assert(forall|j: int| 0 <= j < 43 ==> #[trigger] t[j] == id_f[j]);
            // the id marker is not the recurrence marker
            assert(field_at(c, p, " (reccurence: "@) is None) by {
                if p + 14 <= c.len() && c.subrange(p, p + 14) == " (reccurence: "@ {
                    assert(c.subrange(p, p + 14)[2] == c[p + 2]);
                    assert(c[p + 2] == t[2] && t[2] == id_f[2]);
                    assert(id_f[2] == " (id: "@[2]);
                }
            }
            lemma_id_part(c, p, idv);
        },
    }
}

/// The whole rendered suffix parses as written.
proof fn lemma_due_part(
    c: Seq<char>,
    p: int,
    due_txt: Option<Seq<char>>,
    rec_txt: Option<Seq<char>>,
    idv: Seq<char>,
)
    requires
        0 <= p <= c.len(),
        ({
            let due_f: Seq<char> = match due_txt {
                Some(dt) => " (due: "@ + dt + ")"@,
                None => Seq::empty(),
            };
            let rec_f: Seq<char> = match rec_txt {
                Some(rt) => " (reccurence: "@ + rt + ")"@,
                None => Seq::empty(),
            };
            c.skip(p) =~= due_f + rec_f + (" (id: "@ + idv + ")"@)
        }),
        due_txt matches Some(dt) ==> dt.len() >= 1 && forall|j: int|
            0 <= j < dt.len() ==> #[trigger] dt[j] != ')',
        rec_txt matches Some(rt) ==> rt.len() >= 1 && forall|j: int|
            0 <= j < rt.len() ==> #[trigger] rt[j] != ')',
        idv.len() == 36,
        forall|j: int| 0 <= j < 36 ==> is_id_char(#[trigger] idv[j]),
    ensures
        match_due_opt(c, p) == Some((due_txt, rec_txt, Some(idv))),
{
    reveal_strlit(" (due: ");
    reveal_strlit(" (reccurence: ");
    reveal_strlit(" (id: ");
    reveal_strlit(")");
    let id_f = " (id: "@ + idv + ")"@;
    let rec_f: Seq<char> = match rec_txt {
        Some(rt) => " (reccurence: "@ + rt + ")"@,
        None => Seq::empty(),
    };
    match due_txt {
        Some(dt) => {
            let t = c.skip(p);
            let due_f = " (due: "@ + dt + ")"@;
            let whole = due_f + (rec_f + id_f);
            let flen = 7 + dt.len() as int + 1;
            assert(whole =~= due_f + rec_f + id_f);
            assert(t.len() == flen + rec_f.len() + 43);
            assert(c.len() == p + t.len());
            assert(forall|j: int| 0 <= j < t.len() ==> c[p + j] == #[trigger] t[j]);
            assert(forall|j: int| 0 <= j < t.len() ==> #[trigger] t[j] == whole[j]);
            assert(forall|j: int| 0 <= j < flen ==> #[trigger] whole[j] == due_f[j]);
            assert(c.subrange(p, p + 7) =~= " (due: "@) by {
                assert forall|j: int|
                    0 <= j < 7 implies c.subrange(p, p + 7)[j] == " (due: "@[j] by {
                    assert(c[p + j] == t[j] && t[j] == whole[j] && whole[j] == due_f[j]);
                    assert(due_f[j] == " (due: "@[j]);
                }
            }
            assert forall|j: int| 0 <= j < dt.len() implies #[trigger] c[p + 7 + j] == dt[j] by {
                assert(c[p + 7 + j] == t[7 + j] && t[7 + j] == whole[7 + j] && whole[7 + j]
                    == due_f[7 + j]);
                assert(due_f[7 + j] == dt[j]);
            }
            assert(c[p + 7 + dt.len()] == ')') by {
                let q = 7 + dt.len() as int;
                assert(c[p + q] == t[q] && t[q] == whole[q] && whole[q] == due_f[q]);
                assert(due_f[q] == ')');
            }
            assert forall|j: int| p + 7 <= j < p + 7 + dt.len() implies #[trigger] c[j]
                != ')' by {
                let q = j - (p + 7);
                assert(c[p + 7 + q] == dt[q]);
                assert(dt[q] != ')');
            }
            lemma_next_rparen_stable(c, p + 7, p + 7 + dt.len() as int);
            assert(field_at(c, p, " (due: "@) == Some(
                (c.subrange(p + 7, p + 7 + dt.len() as int), p + flen),
            ));
            assert(c.subrange(p + 7, p + 7 + dt.len() as int) =~= dt) by {
                assert forall|j: int|
                    0 <= j < dt.len() implies c.subrange(p + 7, p + 7 + dt.len() as int)[j]
                    == dt[j] by {
                    assert(c[p + 7 + j] == dt[j]);
                }
            }
            assert(c.skip(p + flen) =~= rec_f + id_f) by {
                assert forall|j: int|
                    0 <= j < rec_f.len() + 43 implies c.skip(p + flen)[j] == (rec_f + id_f)[j] by {
                    assert(c[p + flen + j] == t[flen + j] && t[flen + j] == whole[flen + j]);
                    assert(whole[flen + j] == (rec_f + id_f)[j]);
                }
            }
            lemma_rec_part(c, p + flen, rec_txt, idv);
        },
        None => {
            let t = c.skip(p);
            let whole = rec_f + id_f;
            assert(t =~= whole);
            assert(forall|j: int| 0 <= j < t.len() ==> c[p + j] == #[trigger] t[j]);
            assert(field_at(c, p, " (due: "@) is None) by {
                if p + 7 <= c.len() && c.subrange(p, p + 7) == " (due: "@ {
                    assert(c.subrange(p, p + 7)[2] == c[p + 2]);
                    assert(c[p + 2] == t[2]);
                    assert(t[2] == whole[2]);
                    match rec_txt {
                        Some(rt) => {
                            assert(whole[2] == (" (reccurence: "@ + rt + ")"@)[2]);
                            assert((" (reccurence: "@ + rt + ")"@)[2] == " (reccurence: "@[2]);
                        },
                        None => {
                            assert(whole[2] == id_f[2]);
                            assert(id_f[2] == " (id: "@[2]);
                        },
                    }
                }
            }
            lemma_rec_part(c, p, rec_txt, idv);
        },
    }
}

/// The non-greedy name scan stops exactly at the true end of the name.
proof fn lemma_name_end_stable(c: Seq<char>, i: int, target: int)
    requires
        1 <= i <= target <= c.len(),
        forall|j: int| i <= j < target ==> match_due_opt(c, j) is None,
        forall|j: int| i <= j < target ==> #[trigger] c[j] != '\n',
        match_due_opt(c, target) is Some,
    ensures
        name_end_from(c, i) == Some(target),
    decreases target - i,
{
    if i < target {
        lemma_name_end_stable(c, i + 1, target);
    }
}

} // verus!

verus! {

/// A record the line grammar can carry losslessly: a representable name, a
/// representable recurrence rule, and not the done-with-recurring-due shape
/// (which decodes by rolling the task forward rather than staying done).
pub open spec fn todo_representable(t: Todo) -> bool {
    &&& t.wf()
    &&& name_representable(t.spec_name())
    &&& (t.spec_rec() matches Some(r) ==> crate::recurrence_parser::rec_representable(r))
    &&& !(t.spec_done() && t.spec_due() is Some && t.spec_rec() is Some)
}

/// The name scan and field suffix of a rendered representable line parse
/// back as written.
#[verifier::rlimit(100)]
proof fn lemma_encode_fields(t: Todo)
    requires
        todo_representable(t),
    ensures
        ({
            let c = line_seq(t).skip(6);
            let nl = t.spec_name().len() as int;
            &&& c.len() >= nl + 43
            &&& line_seq(t).subrange(0, 3) == "- ["@
            &&& line_seq(t)[3] == (if t.spec_done() {
                'x'
            } else {
                '_'
            })
            &&& line_seq(t).subrange(4, 6) == "] "@
            &&& line_seq(t)[6] == t.spec_name()[0]
            &&& name_end_from(c, 1) == Some(nl)
            &&& c.take(nl) == t.spec_name()
            &&& match_due_opt(c, nl) == Some(
                (
                    match t.spec_due() {
                        Some(d) => Some(crate::timefmt::rfc3339_utc_seq(d)),
                        None => None::<Seq<char>>,
                    },
                    match t.spec_rec() {
                        Some(r) => Some(rec_seq(r)),
                        None => None::<Seq<char>>,
                    },
                    Some(crate::ident::id_seq(t.spec_id() as int)),
                ),
            )
        }),
{
    reveal_strlit("- [");
    reveal_strlit("x");
    reveal_strlit("_");
    reveal_strlit("] ");
    let s = line_seq(t);
    let name = t.spec_name();
    let nl = name.len() as int;
    let mark: Seq<char> = if t.spec_done() {
        "x"@
    } else {
        "_"@
    };
    let due_txt: Option<Seq<char>> = match t.spec_due() {
        Some(d) => Some(crate::timefmt::rfc3339_utc_seq(d)),
        None => None,
    };
    let rec_txt: Option<Seq<char>> = match t.spec_rec() {
        Some(r) => Some(rec_seq(r)),
        None => None,
    };
    let idv = crate::ident::id_seq(t.spec_id() as int);
    let due_f: Seq<char> = match due_txt {
        Some(dt) => " (due: "@ + dt + ")"@,
        None => Seq::empty(),
    };
    let rec_f: Seq<char> = match rec_txt {
        Some(rt) => " (reccurence: "@ + rt + ")"@,
        None => Seq::empty(),
    };
    let id_f = " (id: "@ + idv + ")"@;
    crate::ident::lemma_u128_in_range(t.spec_id());
    crate::ident::lemma_id_seq_shape(t.spec_id() as int);
    let rest = due_f + rec_f + id_f;
    let c = name + rest;
    assert(s =~= "- ["@ + mark + "] "@ + name + due_f + rec_f + id_f);
    assert(s.skip(6) =~= c);
    assert(c.take(nl) =~= name);
    assert(s.subrange(0, 3) =~= "- ["@);
    assert(s[3] == mark[0]);
    assert(s.subrange(4, 6) =~= "] "@);
    assert(s[6] == c[0] && c[0] == name[0]);
    if t.spec_done() {
        assert(s[3] == 'x');
    } else {
        assert(s[3] == '_');
    }
    // field texts hold no closing parenthesis
    match t.spec_due() {
        Some(d) => {
            crate::timefmt::lemma_rfc3339_chars(d);
            assert(forall|j: int|
                0 <= j < due_txt.unwrap().len() ==> #[trigger] due_txt.unwrap()[j] != ')');
        },
        None => {},
    }
    match t.spec_rec() {
        Some(r) => {
            lemma_rec_seq_chars(r);
        },
        None => {},
    }
    assert(forall|j: int| 0 <= j < 36 ==> is_id_char(#[trigger] idv[j])) by {
        assert(crate::ident::is_id_shape(idv));
        assert forall|j: int| 0 <= j < 36 implies is_id_char(#[trigger] idv[j]) by {
            if j != 8 && j != 13 && j != 18 && j != 23 {
                assert(crate::text::is_hex_digit(idv[j]));
            } else {
                assert(idv[j] == '-');
            }
        }
    }
    // the suffix parses as written at the end of the name
    assert(c.skip(nl) =~= rest);
    lemma_due_part(c, nl, due_txt, rec_txt, idv);
    // no earlier split succeeds
    assert(rest[0] == ' ') by {
        match due_txt {
            Some(dt) => {
                assert(rest[0] == due_f[0]);
                reveal_strlit(" (due: ");
            },
            None => {
                match rec_txt {
                    Some(rt) => {
                        assert(rest[0] == rec_f[0]);
                        reveal_strlit(" (reccurence: ");
                    },
                    None => {
                        assert(rest[0] == id_f[0]);
                        reveal_strlit(" (id: ");
                    },
                }
            },
        }
    }
    assert forall|j: int| 1 <= j < nl implies match_due_opt(c, j) is None by {
        lemma_no_match_in_name(name, rest, j);
    }
    assert(forall|j: int| 1 <= j < nl ==> #[trigger] c[j] != '\n');
    lemma_name_end_stable(c, 1, nl);
}

/// The rendered line of a representable record parses back into exactly its
/// parts: the completion mark, the name, and the rendered field texts.
pub proof fn lemma_parse_line_of_encode(t: Todo)
    requires
        todo_representable(t),
    ensures
        parse_line_spec(line_seq(t)) matches Some(sp) && sp.0 == t.spec_done() && sp.1
            == t.spec_name() && (sp.2 == match t.spec_due() {
            Some(d) => Some(crate::timefmt::rfc3339_utc_seq(d)),
            None => None::<Seq<char>>,
        }) && (sp.3 == match t.spec_rec() {
            Some(r) => Some(rec_seq(r)),
            None => None::<Seq<char>>,
        }) && sp.4 == Some(crate::ident::id_seq(t.spec_id() as int)),
{
    reveal_strlit("- [");
    reveal_strlit("x");
    reveal_strlit("_");
    reveal_strlit("] ");
    let s = line_seq(t);
    let name = t.spec_name();
    let nl = name.len() as int;
    let mark: Seq<char> = if t.spec_done() {
        "x"@
    } else {
        "_"@
    };
    lemma_encode_fields(t);
    let c = s.skip(6);
    assert(s.len() >= 6 + nl + 43);
    assert(s[6] == name[0]);
    assert(name[0] != '\n');
    assert(s[3] != 'x' ==> !t.spec_done());
    assert(crate::text::trim_spec(c.take(nl)) == name);
}

/// The round-trip law of the codec: decoding the rendered line of a
/// representable record gives back a record with the same identity,
/// completion flag, name, due instant and recurrence pattern. The decode
/// relation holds only when the current instant's wall-clock form stays in
/// the representable year range (decoding returns nothing at that edge), so
/// the law is stated under that side condition on `now` and `off`.
pub proof fn lemma_codec_round_trip(
    t: Todo,
    u: Todo,
    now: crate::calendar::Timestamp,
    off: int,
)
    requires
        todo_representable(t),
        decode_rel(line_seq(t), now, off, u),
    ensures
        u.spec_id() == t.spec_id(),
        u.spec_done() == t.spec_done(),
        u.spec_name() == t.spec_name(),
        u.spec_due() == t.spec_due(),
        match (u.spec_rec(), t.spec_rec()) {
            (Some(x), Some(y)) => rec_eq_spec(x, y),
            (None, None) => true,
            _ => false,
        },
{
    lemma_parse_line_of_encode(t);
    let sp = parse_line_spec(line_seq(t)).unwrap();
    // the identity reads back
    crate::ident::lemma_u128_in_range(t.spec_id());
    crate::ident::lemma_id_round_trip(t.spec_id() as int);
    // the due instant reads back
    match t.spec_due() {
        Some(d) => {
            crate::date_parser::lemma_machine_timestamp_round_trip(d, now, off);
        },
        None => {},
    }
    // the recurrence pattern reads back
    let now_local = crate::calendar::shift_s(now, off).unwrap();
    match t.spec_rec() {
        Some(r) => {
            crate::recurrence_parser::lemma_rec_round_trip(
                r,
                day_of_idx(crate::calendar::weekday_index(now_local.date)),
                u.spec_rec(),
            );
        },
        None => {},
    }
}

} // verus!
