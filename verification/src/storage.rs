use vstd::prelude::*;

use crate::calendar::Timestamp;
use crate::calendar::shift_s;
use crate::calendar::valid_timestamp;
use crate::text::dec_seq;
use crate::text::has_prefix;
use crate::text::is_space;
use crate::text::push_str_chars;
use crate::text::string_from_chars;
use crate::text::subvec;
use crate::text::trim_front;
use crate::types::Todo;
use crate::types::decode_rel;
use crate::types::parse_line_spec;

verus! {

// ---------------------------------------------------------------------------
// Splitting text into lines
// ---------------------------------------------------------------------------
/// Position of the first line break at or after `i`.
pub open spec fn next_newline(s: Seq<char>, i: int) -> int
    decreases s.len() - i when 0 <= i <= s.len()
{
    if i < s.len() && s[i] != '\n' {
        next_newline(s, i + 1)
    } else {
        i
    }
}

pub proof fn lemma_next_newline_bounds(s: Seq<char>, i: int)
    requires
        0 <= i <= s.len(),
    ensures
        i <= next_newline(s, i) <= s.len(),
    decreases s.len() - i,
{
    if i < s.len() && s[i] != '\n' {
        lemma_next_newline_bounds(s, i + 1);
    }
}

pub proof fn lemma_next_newline_stable(s: Seq<char>, start: int, k: int)
    requires
        0 <= start <= k <= s.len(),
        forall|j: int| start <= j < k ==> s[j] != '\n',
        k < s.len() ==> s[k] == '\n',
    ensures
        next_newline(s, start) == k,
    decreases k - start,
{
    if start < k {
        lemma_next_newline_stable(s, start + 1, k);
    }
}

/// A line with a trailing carriage return removed.
pub open spec fn strip_cr(l: Seq<char>) -> Seq<char> {
    if l.len() > 0 && l.last() == '\r' {
        l.drop_last()
    } else {
        l
    }
}

/// The lines of `s` from position `i` on, split at line breaks, each with a
/// trailing carriage return removed; no empty final line.
pub open spec fn lines_from(s: Seq<char>, i: int) -> Seq<Seq<char>>
    decreases s.len() - i when 0 <= i <= s.len() via lines_from_decreases
{
    if i >= s.len() {
        Seq::empty()
    } else {
        let j = next_newline(s, i);
        if j >= s.len() {
            seq![strip_cr(s.subrange(i, s.len() as int))]
        } else {
            seq![strip_cr(s.subrange(i, j))] + lines_from(s, j + 1)
        }
    }
}

#[via_fn]
proof fn lines_from_decreases(s: Seq<char>, i: int) {
    lemma_next_newline_bounds(s, i);
}

/// The lines of a document.
pub open spec fn lines_spec(s: Seq<char>) -> Seq<Seq<char>> {
    lines_from(s, 0)
}

/// Split a document into lines.
pub fn split_lines(v: &Vec<char>) -> (r: Vec<Vec<char>>)
    ensures
        r.deep_view() == lines_spec(v@),
{
    let n = v.len();
    let mut out: Vec<Vec<char>> = Vec::new();
    let mut i: usize = 0;
    let mut done: bool = false;
    while !done
        invariant
            i <= n,
            n == v@.len(),
            !done ==> lines_spec(v@) == out.deep_view() + lines_from(v@, i as int),
            done ==> lines_spec(v@) == out.deep_view(),
        decreases n - i + (if done {
            0int
        } else {
            1int
        }),
    {
        if i >= n {
            proof {
                assert(lines_from(v@, i as int) =~= Seq::<Seq<char>>::empty());
                assert(out.deep_view() + lines_from(v@, i as int) =~= out.deep_view());
            }
            done = true;
        } else {
            let ghost pre = out.deep_view();
            let mut j: usize = i;
            while j < n && v[j] != '\n'
                invariant
                    i <= j <= n,
                    n == v@.len(),
                    forall|k: int| i <= k < j ==> v@[k] != '\n',
                decreases n - j,
            {
                j = j + 1;
            }
            proof {
                lemma_next_newline_stable(v@, i as int, j as int);
            }
            let mut line = subvec(v, i, j);
            if line.len() > 0 && line[line.len() - 1] == '\r' {
                let ghost lpre = line@;
                line.pop();
                proof {
                    assert(line@ =~= lpre.drop_last());
                }
            }
            proof {
                assert(line@ == strip_cr(v@.subrange(i as int, j as int)));
            }
            out.push(line);
            proof {
                assert(out.deep_view() =~= pre.push(line@)) by {
                    assert(forall|k: int|
                        0 <= k < pre.len() ==> out.deep_view()[k] == #[trigger] pre[k]);
                    assert(out.deep_view()[pre.len() as int] == line@);
                }
                if j < n {
                    assert(lines_from(v@, i as int) == seq![
                        strip_cr(v@.subrange(i as int, j as int)),
                    ] + lines_from(v@, j as int + 1));
                    assert(pre + lines_from(v@, i as int) =~= out.deep_view() + lines_from(
                        v@,
                        j as int + 1,
                    ));
                } else {
                    assert(lines_from(v@, i as int) == seq![
                        strip_cr(v@.subrange(i as int, n as int)),
                    ]);
                    assert(pre + lines_from(v@, i as int) =~= out.deep_view());
                }
            }
            if j < n {
                i = j + 1;
            } else {
                i = n;
                done = true;
            }
        }
    }
    out
}

// ---------------------------------------------------------------------------
// Snapshots
// ---------------------------------------------------------------------------
/// A parsed document: the raw text and the records of its task lines,
/// keyed by identity (identities are unique within a snapshot).
pub struct ParsedTodoFile {
    pub content: String,
    pub todos_by_id: Vec<Todo>,
}

/// No two records share an identity.
pub open spec fn ids_unique(ts: Seq<Todo>) -> bool {
    forall|i: int, j: int|
        0 <= i < j < ts.len() ==> (#[trigger] ts[i]).spec_id() != (#[trigger] ts[j]).spec_id()
}

/// Every record is well-formed.
pub open spec fn all_wf(ts: Seq<Todo>) -> bool {
    forall|i: int| 0 <= i < ts.len() ==> (#[trigger] ts[i]).wf()
}

impl ParsedTodoFile {
    pub open spec fn wf(self) -> bool {
        ids_unique(self.todos_by_id@) && all_wf(self.todos_by_id@)
    }
}

/// Does the line carry the checkbox prefix (after leading whitespace)?
pub open spec fn is_checkbox_line(l: Seq<char>) -> bool {
    has_prefix(trim_front(l), "- ["@)
}

/// Exec form of `is_checkbox_line`.
pub fn checkbox_line(l: &Vec<char>) -> (r: bool)
    ensures
        r == is_checkbox_line(l@),
{
    let n = l.len();
    let mut i: usize = 0;
    proof {
        assert(l@.skip(0) =~= l@);
    }
    while i < n && crate::text::char_is_space(l[i])
        invariant
            i <= n,
            n == l@.len(),
            trim_front(l@) == trim_front(l@.skip(i as int)),
            forall|j: int| 0 <= j < i ==> is_space(#[trigger] l@[j]),
        decreases n - i,
    {
        proof {
            assert(l@.skip(i as int).drop_first() =~= l@.skip(i as int + 1));
        }
        i = i + 1;
    }
    proof {
        assert(trim_front(l@) == l@.skip(i as int));
    }
    if n - i < 3 {
        proof {
            reveal_strlit("- [");
        }
        return false;
    }
    let r = crate::text::range_eq_str(l, i, i + 3, "- [");
    proof {
        assert(l@.skip(i as int).take(3) =~= l@.subrange(i as int, i as int + 3));
        reveal_strlit("- [");
    }
    r
}

/// A decoded record stands for a checkbox line of the document.
pub open spec fn decodes_some_line(
    ls: Seq<Seq<char>>,
    now: Timestamp,
    off: int,
    t: Todo,
) -> bool {
    exists|ln: int|
        0 <= ln < ls.len() && is_checkbox_line(#[trigger] ls[ln]) && decode_rel(ls[ln], now, off, t)
}

/// Index of the record with the given identity, or -1.
pub open spec fn find_id(ts: Seq<Todo>, id: u128) -> int
    decreases ts.len(),
{
    if ts.len() == 0 {
        -1
    } else if ts[0].spec_id() == id {
        0
    } else {
        let r = find_id(ts.drop_first(), id);
        if r < 0 {
            -1
        } else {
            r + 1
        }
    }
}

pub proof fn lemma_find_id(ts: Seq<Todo>, id: u128)
    ensures
        find_id(ts, id) == -1 ==> forall|i: int|
            0 <= i < ts.len() ==> (#[trigger] ts[i]).spec_id() != id,
        find_id(ts, id) >= 0 ==> find_id(ts, id) < ts.len() && ts[find_id(ts, id)].spec_id() == id
            && forall|i: int| 0 <= i < find_id(ts, id) ==> (#[trigger] ts[i]).spec_id() != id,
    decreases ts.len(),
{
    if ts.len() > 0 && ts[0].spec_id() != id {
        lemma_find_id(ts.drop_first(), id);
        assert(forall|i: int|
            1 <= i < ts.len() ==> ts.drop_first()[i - 1] == #[trigger] ts[i]);
    }
}

/// Exec lookup of a record index by identity.
pub fn lookup_id(ts: &Vec<Todo>, id: u128) -> (r: Option<usize>)
    ensures
        match r {
            Some(k) => find_id(ts@, id) == k as int && k < ts@.len() && ts@[k as int].spec_id()
                == id,
            None => find_id(ts@, id) == -1,
        },
{
    proof {
        lemma_find_id(ts@, id);
    }
    let n = ts.len();
    let mut i: usize = 0;
    while i < n
        invariant
            i <= n,
            n == ts@.len(),
            forall|j: int| 0 <= j < i ==> (#[trigger] ts@[j]).spec_id() != id,
        decreases n - i,
    {
        if ts[i].id() == id {
            proof {
                lemma_find_id_stable(ts@, id, i as int);
            }
            return Some(i);
        }
        i = i + 1;
    }
    proof {
        lemma_find_id(ts@, id);
        if find_id(ts@, id) >= 0 {
            assert(false);
        }
    }
    None
}

proof fn lemma_find_id_stable(ts: Seq<Todo>, id: u128, k: int)
    requires
        0 <= k < ts.len(),
        ts[k].spec_id() == id,
        forall|j: int| 0 <= j < k ==> (#[trigger] ts[j]).spec_id() != id,
    ensures
        find_id(ts, id) == k,
    decreases ts.len(),
{
    if k > 0 {
        lemma_find_id_stable(ts.drop_first(), id, k - 1);
        assert(forall|i: int|
            1 <= i < ts.len() ==> ts.drop_first()[i - 1] == #[trigger] ts[i]);
    }
}

/// One record folded into a snapshot: it replaces the record that already
/// carries its identity, or joins the end of the list.
pub open spec fn upsert_s(acc: Seq<Todo>, t: Todo) -> Seq<Todo> {
    let k = find_id(acc, t.spec_id());
    if k >= 0 {
        acc.update(k, t)
    } else {
        acc.push(t)
    }
}

/// The snapshot the task lines from `idx` on fold an accumulator into:
/// every checkbox line that decodes contributes exactly its decoded record
/// (a later record of an already-seen identity replacing the earlier one),
/// and no other line contributes anything.
pub open spec fn snapshot_fold(
    ls: Seq<Seq<char>>,
    idx: int,
    now: Timestamp,
    off: int,
    acc: Seq<Todo>,
    result: Seq<Todo>,
) -> bool
    decreases ls.len() - idx when 0 <= idx <= ls.len()
{
    if idx >= ls.len() {
        result == acc
    } else {
        let l = ls[idx];
        if is_checkbox_line(l) && parse_line_spec(l) is Some && shift_s(now, off) is Some {
            exists|t: Todo|
                #[trigger] decode_rel(l, now, off, t) && t.wf() && snapshot_fold(
                    ls,
                    idx + 1,
                    now,
                    off,
                    upsert_s(acc, t),
                    result,
                )
        } else {
            snapshot_fold(ls, idx + 1, now, off, acc, result)
        }
    }
}

/// Collect the records of a document's task lines: each checkbox line that
/// decodes contributes its record, a later record with an already-seen
/// identity replacing the earlier one, and nothing else enters the list.
pub fn parse_todos_from_content(content: &str, now_utc: &Timestamp, home_offset: i32) -> (r: Vec<
    Todo,
>)
    requires
        valid_timestamp(*now_utc),
        -86400 < home_offset < 86400,
    ensures
        ids_unique(r@),
        all_wf(r@),
        snapshot_fold(lines_spec(content@), 0, *now_utc, home_offset as int, Seq::empty(), r@),
        forall|k: int|
            0 <= k < r@.len() ==> decodes_some_line(
                lines_spec(content@),
                *now_utc,
                home_offset as int,
                #[trigger] r@[k],
            ),
{
    let v = crate::text::chars_of(content);
    let ls = split_lines(&v);
    let ghost lsv = lines_spec(content@);
    let mut todos: Vec<Todo> = Vec::new();
    let n = ls.len();
    let mut i: usize = 0;
    while i < n
        invariant
            i <= n,
            n == ls@.len(),
            ls.deep_view() == lsv,
            lsv == lines_spec(content@),
            valid_timestamp(*now_utc),
            -86400 < home_offset < 86400,
            ids_unique(todos@),
            all_wf(todos@),
            forall|result: Seq<Todo>|
                snapshot_fold(lsv, i as int, *now_utc, home_offset as int, todos@, result)
                    ==> #[trigger] snapshot_fold(
                    lsv,
                    0,
                    *now_utc,
                    home_offset as int,
                    Seq::empty(),
                    result,
                ),
            forall|k: int|
                0 <= k < todos@.len() ==> decodes_some_line(
                    lsv,
                    *now_utc,
                    home_offset as int,
                    #[trigger] todos@[k],
                ),
        decreases n - i,
    {
        let line = &ls[i];
        proof {
            assert(ls.deep_view()[i as int] == ls@[i as int]@);
        }
        let ghost pre = todos@;
        if checkbox_line(line) {
            let lstr = string_from_chars(line);
            match Todo::from_str(lstr.as_str(), now_utc, home_offset) {
                Some(t) => {
                    proof {
                        assert(is_checkbox_line(lsv[i as int]));
                        assert(decode_rel(lsv[i as int], *now_utc, home_offset as int, t));
                    }
                    match lookup_id(&todos, t.id()) {
                        Some(k) => {
                            todos.set(k, t);
                            proof {
                                lemma_find_id(pre, t.spec_id());
                                assert(todos@ =~= upsert_s(pre, t));
                                assert(ids_unique(todos@)) by {
                                    assert(forall|a: int|
                                        0 <= a < todos@.len() && a != k ==> #[trigger] todos@[a]
                                            == pre[a]);
                                }
                            }
                        },
                        None => {
                            todos.push(t);
                            proof {
                                lemma_find_id(pre, t.spec_id());
                                assert(todos@ =~= upsert_s(pre, t));
                                assert(forall|a: int|
                                    0 <= a < pre.len() ==> #[trigger] todos@[a] == pre[a]);
                            }
                        },
                    }
                    proof {
                        assert forall|result: Seq<Todo>|
                            snapshot_fold(lsv, i + 1, *now_utc, home_offset as int, todos@, result)
                                implies #[trigger] snapshot_fold(
                            lsv,
                            0,
                            *now_utc,
                            home_offset as int,
                            Seq::empty(),
                            result,
                        ) by {
                            assert(decode_rel(lsv[i as int], *now_utc, home_offset as int, t));
                            assert(snapshot_fold(
                                lsv,
                                i as int,
                                *now_utc,
                                home_offset as int,
                                pre,
                                result,
                            ));
                        }
                    }
                },
                None => {},
            }
        }
        i = i + 1;
    }
    proof {
        assert(snapshot_fold(
            lsv,
            n as int,
            *now_utc,
            home_offset as int,
            todos@,
            todos@,
        ));
    }
    todos
}

/// Parse a document into a snapshot.
pub fn parse_todo_content(content: &str, now_utc: &Timestamp, home_offset: i32) -> (r:
    ParsedTodoFile)
    requires
        valid_timestamp(*now_utc),
        -86400 < home_offset < 86400,
    ensures
        r.content@ == content@,
        r.wf(),
        snapshot_fold(
            lines_spec(content@),
            0,
            *now_utc,
            home_offset as int,
            Seq::empty(),
            r.todos_by_id@,
        ),
        forall|k: int|
            0 <= k < r.todos_by_id@.len() ==> decodes_some_line(
                lines_spec(content@),
                *now_utc,
                home_offset as int,
                #[trigger] r.todos_by_id@[k],
            ),
{
    let v = crate::text::chars_of(content);
    ParsedTodoFile {
        content: string_from_chars(&v),
        todos_by_id: parse_todos_from_content(content, now_utc, home_offset),
    }
}

} // verus!

verus! {

// ---------------------------------------------------------------------------
// Validation
// ---------------------------------------------------------------------------
pub open spec fn msg_conflict(n: int) -> Seq<char> {
    "line "@ + dec_seq(n) + ": unresolved git conflict marker"@
}

pub open spec fn msg_missing_id(n: int) -> Seq<char> {
    "line "@ + dec_seq(n) + ": todo line is missing required id"@
}

pub open spec fn msg_unparsed(n: int) -> Seq<char> {
    "line "@ + dec_seq(n) + ": todo line could not be parsed"@
}

pub open spec fn msg_duplicate(n: int, id: int, prev: int) -> Seq<char> {
    "line "@ + dec_seq(n) + ": duplicate id "@ + crate::ident::id_seq(id) + " (first seen on line "@
        + dec_seq(prev) + ")"@
}

pub open spec fn msg_mismatch(n: int) -> Seq<char> {
    "line "@ + dec_seq(n) + ": parsed id mismatch, this line may be malformed"@
}

/// Does the line start (after leading whitespace) with a git conflict marker?
pub open spec fn conflict_line(l: Seq<char>) -> bool {
    has_prefix(trim_front(l), "<<<<<<<"@) || has_prefix(trim_front(l), "======="@) || has_prefix(
        trim_front(l),
        ">>>>>>>"@,
    )
}

/// An identity annotation at position `p`: `(id:`, optional spaces, then
/// exactly 36 hex-or-dash characters and a closing parenthesis.
pub open spec fn id_pat_at(l: Seq<char>, p: int) -> Option<Seq<char>> {
    if 0 <= p && p + 4 <= l.len() && l.subrange(p, p + 4) == "(id:"@ {
        let j = crate::text::next_nonspace(l, p + 4);
        if j + 37 <= l.len() && (forall|k: int|
            j <= k < j + 36 ==> crate::types::is_id_char(#[trigger] l[k])) && l[j + 36] == ')' {
            Some(l.subrange(j, j + 36))
        } else {
            None
        }
    } else {
        None
    }
}

/// The first identity annotation of the line, scanning left to right.
pub open spec fn find_id_pat(l: Seq<char>, p: int) -> Option<Seq<char>>
    decreases l.len() - p when 0 <= p <= l.len()
{
    if id_pat_at(l, p) is Some {
        id_pat_at(l, p)
    } else if p < l.len() {
        find_id_pat(l, p + 1)
    } else {
        None
    }
}

/// First line number recorded for an identity, or -1.
pub open spec fn assoc_find(seen: Seq<(u128, usize)>, id: u128) -> int
    decreases seen.len(),
{
    if seen.len() == 0 {
        -1
    } else if seen[0].0 == id {
        seen[0].1 as int
    } else {
        assoc_find(seen.drop_first(), id)
    }
}

/// Record the line number of an identity, replacing an earlier record.
pub open spec fn assoc_put(seen: Seq<(u128, usize)>, id: u128, n: usize) -> Seq<(u128, usize)>
    decreases seen.len(),
{
    if seen.len() == 0 {
        seq![(id, n)]
    } else if seen[0].0 == id {
        seq![(id, n)] + seen.drop_first()
    } else {
        seq![seen[0]] + assoc_put(seen.drop_first(), id, n)
    }
}

/// The issues reported for the lines from `idx` on, given what identities
/// were already seen: conflict markers and id-less or unreadable task lines
/// are flagged; a readable task line with a well-formed identity annotation
/// is checked for duplicates and for disagreement with the decoded record.
pub open spec fn validate_fold(
    ls: Seq<Seq<char>>,
    idx: int,
    now: Timestamp,
    off: int,
    seen: Seq<(u128, usize)>,
    issues: Seq<Seq<char>>,
) -> bool
    decreases ls.len() - idx when 0 <= idx <= ls.len()
{
    if idx >= ls.len() {
        issues.len() == 0
    } else {
        let l = ls[idx];
        let n = idx + 1;
        if conflict_line(l) {
            issues.len() >= 1 && issues[0] == msg_conflict(n) && validate_fold(
                ls,
                idx + 1,
                now,
                off,
                seen,
                issues.drop_first(),
            )
        } else if !is_checkbox_line(l) {
            validate_fold(ls, idx + 1, now, off, seen, issues)
        } else if !crate::text::contains_sub(l, "(id:"@) {
            issues.len() >= 1 && issues[0] == msg_missing_id(n) && validate_fold(
                ls,
                idx + 1,
                now,
                off,
                seen,
                issues.drop_first(),
            )
        } else if !(parse_line_spec(l) is Some && shift_s(now, off) is Some) {
            issues.len() >= 1 && issues[0] == msg_unparsed(n) && validate_fold(
                ls,
                idx + 1,
                now,
                off,
                seen,
                issues.drop_first(),
            )
        } else {
            exists|t: Todo|
                #[trigger] decode_rel(l, now, off, t) && match find_id_pat(l, 0) {
                    Some(z) => match crate::ident::parse_id_spec(z) {
                        Some(u) => {
                            let prev = assoc_find(seen, u as u128);
                            let dup: Seq<Seq<char>> = if prev >= 0 {
                                seq![msg_duplicate(n, u, prev)]
                            } else {
                                Seq::empty()
                            };
                            let mism: Seq<Seq<char>> = if u != t.spec_id() as int {
                                seq![msg_mismatch(n)]
                            } else {
                                Seq::empty()
                            };
                            &&& issues.len() >= dup.len() + mism.len()
                            &&& issues.take(dup.len() as int + mism.len() as int) == dup + mism
                            &&& validate_fold(
                                ls,
                                idx + 1,
                                now,
                                off,
                                assoc_put(seen, u as u128, n as usize),
                                issues.skip(dup.len() as int + mism.len() as int),
                            )
                        },
                        None => validate_fold(ls, idx + 1, now, off, seen, issues),
                    },
                    None => validate_fold(ls, idx + 1, now, off, seen, issues),
                }
        }
    }
}

} // verus!

verus! {

/// Exec form of `conflict_line`.
fn conflict_marker(l: &Vec<char>) -> (r: bool)
    ensures
        r == conflict_line(l@),
{
    let n = l.len();
    let mut i: usize = 0;
    proof {
        assert(l@.skip(0) =~= l@);
    }
    while i < n && crate::text::char_is_space(l[i])
        invariant
            i <= n,
            n == l@.len(),
            trim_front(l@) == trim_front(l@.skip(i as int)),
            forall|j: int| 0 <= j < i ==> is_space(#[trigger] l@[j]),
        decreases n - i,
    {
        proof {
            assert(l@.skip(i as int).drop_first() =~= l@.skip(i as int + 1));
        }
        i = i + 1;
    }
    proof {
        assert(trim_front(l@) == l@.skip(i as int));
        reveal_strlit("<<<<<<<");
        reveal_strlit("=======");
        reveal_strlit(">>>>>>>");
        if l@.len() - i >= 7 {
            assert(l@.skip(i as int).take(7) =~= l@.subrange(i as int, i as int + 7));
        }
    }
    if n - i < 7 {
        return false;
    }
    crate::text::range_eq_str(l, i, i + 7, "<<<<<<<") || crate::text::range_eq_str(
        l,
        i,
        i + 7,
        "=======",
    ) || crate::text::range_eq_str(l, i, i + 7, ">>>>>>>")
}

/// Exec scan for the first identity annotation.
fn find_id_pat_exec(l: &Vec<char>) -> (r: Option<Vec<char>>)
    ensures
        match r {
            Some(z) => find_id_pat(l@, 0) == Some(z@),
            None => find_id_pat(l@, 0) is None,
        },
{
    let n = l.len();
    let mut p: usize = 0;
    let mut found: Option<Vec<char>> = None;
    while p < n && found.is_none()
        invariant
            p <= n,
            n == l@.len(),
            found is None ==> find_id_pat(l@, 0) == find_id_pat(l@, p as int),
            match found {
                Some(ref z) => find_id_pat(l@, 0) == Some(z@),
                None => true,
            },
        decreases n - p + (if found is None {
            1int
        } else {
            0int
        }),
    {
        let at: Option<Vec<char>> = id_pat_at_exec(l, p);
        proof {
            match at {
                Some(ref z) => {
                    assert(id_pat_at(l@, p as int) == Some(z@));
                },
                None => {
                    assert(id_pat_at(l@, p as int) is None);
                },
            }
        }
        if at.is_some() {
            found = at;
        } else {
            p = p + 1;
        }
    }
    proof {
        if found is None && find_id_pat(l@, 0) is Some {
            assert(p == n);
            assert(id_pat_at(l@, n as int) is None);
        }
    }
    found
}

/// Exec form of `id_pat_at`.
fn id_pat_at_exec(l: &Vec<char>, p: usize) -> (r: Option<Vec<char>>)
    requires
        p <= l@.len(),
    ensures
        match r {
            Some(z) => id_pat_at(l@, p as int) == Some(z@),
            None => id_pat_at(l@, p as int) is None,
        },
{
    let n = l.len();
    if n - p < 4 {
        return None;
    }
    if !crate::text::range_eq_str(l, p, p + 4, "(id:") {
        return None;
    }
    let mut j: usize = p + 4;
    while j < n && crate::text::char_is_space(l[j])
        invariant
            p + 4 <= j <= n,
            n == l@.len(),
            forall|k: int| p + 4 <= k < j ==> is_space(#[trigger] l@[k]),
        decreases n - j,
    {
        j = j + 1;
    }
    proof {
        crate::text::lemma_next_nonspace_stable(l@, p as int + 4, j as int);
    }
    if n - j < 37 {
        return None;
    }
    let mut k: usize = j;
    while k < j + 36
        invariant
            j <= k <= j + 36,
            p + 4 <= j,
            p + 4 <= n,
            j + 37 <= n == l@.len(),
            l@.subrange(p as int, p as int + 4) == "(id:"@,
            j as int == crate::text::next_nonspace(l@, p as int + 4),
            forall|q: int| j <= q < k ==> crate::types::is_id_char(#[trigger] l@[q]),
        decreases j + 36 - k,
    {
        if !crate::text::char_is_hex_digit(l[k]) && l[k] != '-' {
            return None;
        }
        k = k + 1;
    }
    if l[j + 36] != ')' {
        return None;
    }
    Some(subvec(l, j, j + 36))
}

fn build_msg(n: usize, tail: &str) -> (r: String)
    ensures
        r@ == "line "@ + dec_seq(n as int) + tail@,
{
    let mut out: Vec<char> = Vec::new();
    push_str_chars(&mut out, "line ");
    crate::text::push_dec_usize(&mut out, n);
    push_str_chars(&mut out, tail);
    string_from_chars(&out)
}

fn build_msg_duplicate(n: usize, id: u128, prev: usize) -> (r: String)
    ensures
        r@ == msg_duplicate(n as int, id as int, prev as int),
{
    let mut out: Vec<char> = Vec::new();
    push_str_chars(&mut out, "line ");
    crate::text::push_dec_usize(&mut out, n);
    push_str_chars(&mut out, ": duplicate id ");
    let ids = crate::ident::format_id(id);
    push_str_chars(&mut out, ids.as_str());
    push_str_chars(&mut out, " (first seen on line ");
    crate::text::push_dec_usize(&mut out, prev);
    push_str_chars(&mut out, ")");
    proof {
        assert(out@ =~= msg_duplicate(n as int, id as int, prev as int));
    }
    string_from_chars(&out)
}

/// Exec lookup in the seen-identities list.
fn assoc_find_exec(seen: &Vec<(u128, usize)>, id: u128) -> (r: Option<usize>)
    ensures
        match r {
            Some(k) => k < seen@.len() && seen@[k as int].0 == id && assoc_find(seen@, id)
                == seen@[k as int].1 as int && (forall|q: int|
                0 <= q < k ==> (#[trigger] seen@[q]).0 != id),
            None => assoc_find(seen@, id) == -1 && (forall|q: int|
                0 <= q < seen@.len() ==> (#[trigger] seen@[q]).0 != id),
        },
{
    let n = seen.len();
    let mut k: usize = 0;
    while k < n
        invariant
            k <= n,
            n == seen@.len(),
            forall|q: int| 0 <= q < k ==> (#[trigger] seen@[q]).0 != id,
        decreases n - k,
    {
        if seen[k].0 == id {
            proof {
                lemma_assoc_find_at(seen@, id, k as int);
            }
            return Some(k);
        }
        k = k + 1;
    }
    proof {
        lemma_assoc_find_none(seen@, id);
    }
    None
}

proof fn lemma_assoc_find_at(seen: Seq<(u128, usize)>, id: u128, k: int)
    requires
        0 <= k < seen.len(),
        seen[k].0 == id,
        forall|q: int| 0 <= q < k ==> (#[trigger] seen[q]).0 != id,
    ensures
        assoc_find(seen, id) == seen[k].1 as int,
    decreases seen.len(),
{
    if k > 0 {
        assert(forall|q: int|
            0 <= q < seen.len() - 1 ==> seen.drop_first()[q] == #[trigger] seen[q + 1]);
        lemma_assoc_find_at(seen.drop_first(), id, k - 1);
    }
}

proof fn lemma_assoc_find_none(seen: Seq<(u128, usize)>, id: u128)
    requires
        forall|q: int| 0 <= q < seen.len() ==> (#[trigger] seen[q]).0 != id,
    ensures
        assoc_find(seen, id) == -1,
    decreases seen.len(),
{
    if seen.len() > 0 {
        assert(forall|q: int|
            0 <= q < seen.len() - 1 ==> seen.drop_first()[q] == #[trigger] seen[q + 1]);
        lemma_assoc_find_none(seen.drop_first(), id);
    }
}

proof fn lemma_assoc_put_update(seen: Seq<(u128, usize)>, id: u128, n: usize, k: int)
    requires
        0 <= k < seen.len(),
        seen[k].0 == id,
        forall|q: int| 0 <= q < k ==> (#[trigger] seen[q]).0 != id,
    ensures
        assoc_put(seen, id, n) == seen.update(k, (id, n)),
    decreases seen.len(),
{
    if k == 0 {
        assert(seq![(id, n)] + seen.drop_first() =~= seen.update(0, (id, n)));
    } else {
        assert(forall|q: int|
            0 <= q < seen.len() - 1 ==> seen.drop_first()[q] == #[trigger] seen[q + 1]);
        lemma_assoc_put_update(seen.drop_first(), id, n, k - 1);
        assert(seq![seen[0]] + seen.drop_first().update(k - 1, (id, n)) =~= seen.update(
            k,
            (id, n),
        ));
    }
}

proof fn lemma_assoc_put_push(seen: Seq<(u128, usize)>, id: u128, n: usize)
    requires
        forall|q: int| 0 <= q < seen.len() ==> (#[trigger] seen[q]).0 != id,
    ensures
        assoc_put(seen, id, n) == seen.push((id, n)),
    decreases seen.len(),
{
    if seen.len() == 0 {
        assert(seq![(id, n)] =~= seen.push((id, n)));
    } else {
        assert(forall|q: int|
            0 <= q < seen.len() - 1 ==> seen.drop_first()[q] == #[trigger] seen[q + 1]);
        lemma_assoc_put_push(seen.drop_first(), id, n);
        assert(seq![seen[0]] + seen.drop_first().push((id, n)) =~= seen.push((id, n)));
    }
}

} // verus!

verus! {

/// Check a document for sync-unsafe content: unresolved conflict markers,
/// task lines without an identity, unreadable task lines, duplicated
/// identities, and identity annotations that disagree with the decoded
/// record. One line-tagged message is reported per finding; other lines
/// are passed over, so whole-document work continues past bad lines.
#[verifier::rlimit(100)]
pub fn validate_todo_content(content: &str, now_utc: &Timestamp, home_offset: i32) -> (r: Vec<
    String,
>)
    requires
        valid_timestamp(*now_utc),
        -86400 < home_offset < 86400,
    ensures
        validate_fold(
            lines_spec(content@),
            0,
            *now_utc,
            home_offset as int,
            Seq::empty(),
            r.deep_view(),
        ),
{
    let v = crate::text::chars_of(content);
    let ls = split_lines(&v);
    let ghost lsv = lines_spec(content@);
    let nl = ls.len();
    let mut issues: Vec<String> = Vec::new();
    let mut seen: Vec<(u128, usize)> = Vec::new();
    let mut i: usize = 0;
    while i < nl
        invariant
            i <= nl,
            nl == ls@.len(),
            ls.deep_view() == lsv,
            lsv == lines_spec(content@),
            valid_timestamp(*now_utc),
            -86400 < home_offset < 86400,
            forall|rest: Seq<Seq<char>>|
                validate_fold(lsv, i as int, *now_utc, home_offset as int, seen@, rest)
                    ==> #[trigger] validate_fold(
                    lsv,
                    0,
                    *now_utc,
                    home_offset as int,
                    Seq::empty(),
                    issues.deep_view() + rest,
                ),
        decreases nl - i,
    {
        let line = &ls[i];
        let n: usize = i + 1;
        proof {
            assert(ls.deep_view()[i as int] == ls@[i as int]@);
        }
        let ghost pre_issues = issues.deep_view();
        let ghost pre_seen = seen@;
        if conflict_marker(line) {
            issues.push(build_msg(n, ": unresolved git conflict marker"));
            proof {
                assert(issues.deep_view() =~= pre_issues.push(msg_conflict(n as int))) by {
                    assert(forall|q: int|
                        0 <= q < pre_issues.len() ==> issues.deep_view()[q] == #[trigger] pre_issues[q]);
                }
                assert forall|rest: Seq<Seq<char>>|
                    validate_fold(lsv, i + 1, *now_utc, home_offset as int, seen@, rest)
                        implies #[trigger] validate_fold(
                    lsv,
                    0,
                    *now_utc,
                    home_offset as int,
                    Seq::empty(),
                    issues.deep_view() + rest,
                ) by {
                    let one = seq![msg_conflict(i + 1)] + rest;
                    assert(one.drop_first() =~= rest);
                    assert(validate_fold(lsv, i as int, *now_utc, home_offset as int, seen@, one));
                    assert(pre_issues + one =~= issues.deep_view() + rest);
                }
            }
        } else if !checkbox_line(line) {
        } else if !crate::text::has_sub(line, "(id:") {
            issues.push(build_msg(n, ": todo line is missing required id"));
            proof {
                assert(issues.deep_view() =~= pre_issues.push(msg_missing_id(n as int))) by {
                    assert(forall|q: int|
                        0 <= q < pre_issues.len() ==> issues.deep_view()[q] == #[trigger] pre_issues[q]);
                }
                assert forall|rest: Seq<Seq<char>>|
                    validate_fold(lsv, i + 1, *now_utc, home_offset as int, seen@, rest)
                        implies #[trigger] validate_fold(
                    lsv,
                    0,
                    *now_utc,
                    home_offset as int,
                    Seq::empty(),
                    issues.deep_view() + rest,
                ) by {
                    let one = seq![msg_missing_id(i + 1)] + rest;
                    assert(one.drop_first() =~= rest);
                    assert(validate_fold(lsv, i as int, *now_utc, home_offset as int, seen@, one));
                    assert(pre_issues + one =~= issues.deep_view() + rest);
                }
            }
        } else {
            let lstr = string_from_chars(line);
            match Todo::from_str(lstr.as_str(), now_utc, home_offset) {
                None => {
                    issues.push(build_msg(n, ": todo line could not be parsed"));
                    proof {
                        assert(issues.deep_view() =~= pre_issues.push(msg_unparsed(n as int))) by {
                            assert(forall|q: int|
                                0 <= q < pre_issues.len() ==> issues.deep_view()[q]
                                    == #[trigger] pre_issues[q]);
                        }
                        assert forall|rest: Seq<Seq<char>>|
                            validate_fold(lsv, i + 1, *now_utc, home_offset as int, seen@, rest)
                                implies #[trigger] validate_fold(
                            lsv,
                            0,
                            *now_utc,
                            home_offset as int,
                            Seq::empty(),
                            issues.deep_view() + rest,
                        ) by {
                            let one = seq![msg_unparsed(i + 1)] + rest;
                            assert(one.drop_first() =~= rest);
                            assert(validate_fold(
                                lsv,
                                i as int,
                                *now_utc,
                                home_offset as int,
                                seen@,
                                one,
                            ));
                            assert(pre_issues + one =~= issues.deep_view() + rest);
                        }
                    }
                },
                Some(todo) => {
                    let ghost tw = todo;
                    match find_id_pat_exec(line) {
                        Some(z) => {
                            match crate::ident::parse_id(&z) {
                                Some(u) => {
                                    let mut pushed: usize = 0;
                                    let prev_at = assoc_find_exec(&seen, u);
                                    match prev_at {
                                        Some(k) => {
                                            let prev_line = seen[k].1;
                                            issues.push(build_msg_duplicate(n, u, prev_line));
                                            seen.set(k, (u, n));
                                            proof {
                                                lemma_assoc_put_update(pre_seen, u, n, k as int);
                                            }
                                            pushed = 1;
                                        },
                                        None => {
                                            seen.push((u, n));
                                            proof {
                                                lemma_assoc_put_push(pre_seen, u, n);
                                            }
                                        },
                                    }
                                    let mismatched = u != todo.id();
                                    if mismatched {
                                        issues.push(
                                            build_msg(
                                                n,
                                                ": parsed id mismatch, this line may be malformed",
                                            ),
                                        );
                                    }
                                    proof {
                                        let dup: Seq<Seq<char>> = if prev_at is Some {
                                            seq![
                                                msg_duplicate(
                                                    i + 1,
                                                    u as int,
                                                    assoc_find(pre_seen, u),
                                                ),
                                            ]
                                        } else {
                                            Seq::empty()
                                        };
                                        let mism: Seq<Seq<char>> = if mismatched {
                                            seq![msg_mismatch(i + 1)]
                                        } else {
                                            Seq::empty()
                                        };
                                        assert(issues.deep_view() =~= pre_issues + dup + mism) by {
                                            assert(forall|q: int|
                                                0 <= q < pre_issues.len()
                                                    ==> issues.deep_view()[q]
                                                    == #[trigger] pre_issues[q]);
                                        }
                                        assert(seen@ == assoc_put(pre_seen, u, n));
                                        assert forall|rest: Seq<Seq<char>>|
                                            validate_fold(
                                                lsv,
                                                i + 1,
                                                *now_utc,
                                                home_offset as int,
                                                seen@,
                                                rest,
                                            ) implies #[trigger] validate_fold(
                                            lsv,
                                            0,
                                            *now_utc,
                                            home_offset as int,
                                            Seq::empty(),
                                            issues.deep_view() + rest,
                                        ) by {
                                            let whole = dup + mism + rest;
                                            assert((dup + mism + rest).take(
                                                dup.len() as int + mism.len() as int,
                                            ) =~= dup + mism);
                                            assert((dup + mism + rest).skip(
                                                dup.len() as int + mism.len() as int,
                                            ) =~= rest);
                                            assert(decode_rel(
                                                lsv[i as int],
                                                *now_utc,
                                                home_offset as int,
                                                tw,
                                            ));
                                            assert(validate_fold(
                                                lsv,
                                                i as int,
                                                *now_utc,
                                                home_offset as int,
                                                pre_seen,
                                                whole,
                                            ));
                                            assert(pre_issues + whole =~= issues.deep_view()
                                                + rest);
                                        }
                                    }
                                },
                                None => {
                                    proof {
                                        lemma_fold_passthrough(
                                            lsv,
                                            i as int,
                                            *now_utc,
                                            home_offset as int,
                                            pre_seen,
                                            tw,
                                        );
                                    }
                                },
                            }
                        },
                        None => {
                            proof {
                                lemma_fold_passthrough(
                                    lsv,
                                    i as int,
                                    *now_utc,
                                    home_offset as int,
                                    pre_seen,
                                    tw,
                                );
                            }
                        },
                    }
                },
            }
        }
        i = i + 1;
    }
    proof {
        assert(validate_fold(
            lsv,
            nl as int,
            *now_utc,
            home_offset as int,
            seen@,
            Seq::<Seq<char>>::empty(),
        ));
        assert(issues.deep_view() + Seq::<Seq<char>>::empty() =~= issues.deep_view());
    }
    issues
}

/// A readable task line whose identity annotation is absent or unreadable
/// contributes no issue and leaves the seen set unchanged.
proof fn lemma_fold_passthrough(
    lsv: Seq<Seq<char>>,
    i: int,
    now: Timestamp,
    off: int,
    seen: Seq<(u128, usize)>,
    t: Todo,
)
    requires
        0 <= i < lsv.len(),
        decode_rel(lsv[i], now, off, t),
        !conflict_line(lsv[i]),
        is_checkbox_line(lsv[i]),
        crate::text::contains_sub(lsv[i], "(id:"@),
        parse_line_spec(lsv[i]) is Some,
        shift_s(now, off) is Some,
        match find_id_pat(lsv[i], 0) {
            Some(z) => crate::ident::parse_id_spec(z) is None,
            None => true,
        },
    ensures
        forall|rest: Seq<Seq<char>>|
            validate_fold(lsv, i + 1, now, off, seen, rest) ==> #[trigger] validate_fold(
                lsv,
                i,
                now,
                off,
                seen,
                rest,
            ),
{
    assert forall|rest: Seq<Seq<char>>|
        validate_fold(lsv, i + 1, now, off, seen, rest) implies #[trigger] validate_fold(
        lsv,
        i,
        now,
        off,
        seen,
        rest,
    ) by {
        assert(decode_rel(lsv[i], now, off, t));
    }
}

} // verus!

verus! {

pub open spec fn msg_cannot_format(n: int) -> Seq<char> {
    "line "@ + dec_seq(n) + ": cannot format todo without id"@
}

/// Does the text end with a line break?
pub open spec fn ends_nl(s: Seq<char>) -> bool {
    s.len() > 0 && s.last() == '\n'
}

/// The formatted lines and issues for the lines from `idx` on: prose lines
/// keep their text (trailing whitespace dropped), task lines are re-rendered
/// canonically, and task lines without an identity or beyond the grammar
/// are flagged and kept as they stand.
pub open spec fn format_fold(
    ls: Seq<Seq<char>>,
    idx: int,
    now: Timestamp,
    off: int,
    outs: Seq<Seq<char>>,
    issues: Seq<Seq<char>>,
) -> bool
    decreases ls.len() - idx when 0 <= idx <= ls.len()
{
    if idx >= ls.len() {
        outs.len() == 0 && issues.len() == 0
    } else {
        let l = ls[idx];
        let n = idx + 1;
        if !is_checkbox_line(l) {
            outs.len() >= 1 && outs[0] == crate::text::trim_back(l) && format_fold(
                ls,
                idx + 1,
                now,
                off,
                outs.drop_first(),
                issues,
            )
        } else if !crate::text::contains_sub(l, "(id:"@) {
            outs.len() >= 1 && issues.len() >= 1 && outs[0] == crate::text::trim_back(l)
                && issues[0] == msg_cannot_format(n) && format_fold(
                ls,
                idx + 1,
                now,
                off,
                outs.drop_first(),
                issues.drop_first(),
            )
        } else if !(parse_line_spec(l) is Some && shift_s(now, off) is Some) {
            outs.len() >= 1 && issues.len() >= 1 && outs[0] == crate::text::trim_back(l)
                && issues[0] == msg_unparsed(n) && format_fold(
                ls,
                idx + 1,
                now,
                off,
                outs.drop_first(),
                issues.drop_first(),
            )
        } else {
            exists|t: Todo|
                #[trigger] decode_rel(l, now, off, t) && outs.len() >= 1 && outs[0]
                    == crate::types::line_seq(t) && format_fold(
                    ls,
                    idx + 1,
                    now,
                    off,
                    outs.drop_first(),
                    issues,
                )
        }
    }
}

/// The characters of `v` with trailing whitespace removed.
fn trim_end_vec(v: &Vec<char>) -> (r: Vec<char>)
    ensures
        r@ == crate::text::trim_back(v@),
{
    let n = v.len();
    let mut hi: usize = n;
    proof {
        assert(v@.subrange(0, n as int) =~= v@);
    }
    while hi > 0 && crate::text::char_is_space(v[hi - 1])
        invariant
            hi <= n,
            n == v@.len(),
            crate::text::trim_back(v@) == crate::text::trim_back(v@.subrange(0, hi as int)),
        decreases hi,
    {
        proof {
            assert(v@.subrange(0, hi as int).drop_last() =~= v@.subrange(0, hi as int - 1));
        }
        hi = hi - 1;
    }
    proof {
        assert(crate::text::trim_back(v@.subrange(0, hi as int)) == v@.subrange(0, hi as int));
    }
    subvec(v, 0, hi)
}

/// How a formatted document relates to its source: some sequence of
/// formatted lines satisfies the per-line fold, and the document is their
/// join, keeping the source's final line break.
pub open spec fn format_rel(
    content: Seq<char>,
    now: Timestamp,
    off: int,
    out: Seq<char>,
    issues: Seq<Seq<char>>,
) -> bool {
    exists|outs: Seq<Seq<char>>|
        #[trigger] format_fold(lines_spec(content), 0, now, off, outs, issues) && out == (
        if ends_nl(content) {
            crate::sync::join_nl(outs) + "\n"@
        } else {
            crate::sync::join_nl(outs)
        })
}

/// Canonicalize a document: re-render every readable task line, keep every
/// other line (trailing whitespace dropped), flag task lines that cannot be
/// formatted, and keep the final line break if the document had one.
#[verifier::rlimit(100)]
pub fn format_todo_content(content: &str, now_utc: &Timestamp, home_offset: i32) -> (r: (
    String,
    Vec<String>,
))
    requires
        valid_timestamp(*now_utc),
        -86400 < home_offset < 86400,
    ensures
        format_rel(content@, *now_utc, home_offset as int, r.0@, r.1.deep_view()),
{
    let v = crate::text::chars_of(content);
    let ls = split_lines(&v);
    let ghost lsv = lines_spec(content@);
    let nl = ls.len();
    let mut outs: Vec<Vec<char>> = Vec::new();
    let mut issues: Vec<String> = Vec::new();
    let mut i: usize = 0;
    while i < nl
        invariant
            i <= nl,
            nl == ls@.len(),
            ls.deep_view() == lsv,
            lsv == lines_spec(content@),
            valid_timestamp(*now_utc),
            -86400 < home_offset < 86400,
            forall|orest: Seq<Seq<char>>, irest: Seq<Seq<char>>|
                format_fold(lsv, i as int, *now_utc, home_offset as int, orest, irest)
                    ==> #[trigger] format_fold(
                    lsv,
                    0,
                    *now_utc,
                    home_offset as int,
                    outs.deep_view() + orest,
                    issues.deep_view() + irest,
                ),
        decreases nl - i,
    {
        let line = &ls[i];
        let n: usize = i + 1;
        proof {
            assert(ls.deep_view()[i as int] == ls@[i as int]@);
        }
        let ghost pre_outs = outs.deep_view();
        let ghost pre_issues = issues.deep_view();
        if !checkbox_line(line) {
            outs.push(trim_end_vec(line));
            proof {
                assert(outs.deep_view() =~= pre_outs.push(crate::text::trim_back(lsv[i as int])))
                    by {
                    assert(forall|q: int|
                        0 <= q < pre_outs.len() ==> outs.deep_view()[q] == #[trigger] pre_outs[q]);
                    assert(outs.deep_view()[pre_outs.len() as int] == crate::text::trim_back(
                        lsv[i as int],
                    ));
                }
                assert forall|orest: Seq<Seq<char>>, irest: Seq<Seq<char>>|
                    format_fold(lsv, i + 1, *now_utc, home_offset as int, orest, irest)
                        implies #[trigger] format_fold(
                    lsv,
                    0,
                    *now_utc,
                    home_offset as int,
                    outs.deep_view() + orest,
                    issues.deep_view() + irest,
                ) by {
                    let o1 = seq![crate::text::trim_back(lsv[i as int])] + orest;
                    assert(o1.drop_first() =~= orest);
                    assert(format_fold(lsv, i as int, *now_utc, home_offset as int, o1, irest));
                    assert(pre_outs + o1 =~= outs.deep_view() + orest);
                }
            }
        } else if !crate::text::has_sub(line, "(id:") {
            outs.push(trim_end_vec(line));
            issues.push(build_msg(n, ": cannot format todo without id"));
            proof {
                assert(outs.deep_view() =~= pre_outs.push(crate::text::trim_back(lsv[i as int])))
                    by {
                    assert(forall|q: int|
                        0 <= q < pre_outs.len() ==> outs.deep_view()[q] == #[trigger] pre_outs[q]);
                    assert(outs.deep_view()[pre_outs.len() as int] == crate::text::trim_back(
                        lsv[i as int],
                    ));
                }
                assert(issues.deep_view() =~= pre_issues.push(msg_cannot_format(i + 1))) by {
                    assert(forall|q: int|
                        0 <= q < pre_issues.len() ==> issues.deep_view()[q]
                            == #[trigger] pre_issues[q]);
                }
                assert forall|orest: Seq<Seq<char>>, irest: Seq<Seq<char>>|
                    format_fold(lsv, i + 1, *now_utc, home_offset as int, orest, irest)
                        implies #[trigger] format_fold(
                    lsv,
                    0,
                    *now_utc,
                    home_offset as int,
                    outs.deep_view() + orest,
                    issues.deep_view() + irest,
                ) by {
                    let o1 = seq![crate::text::trim_back(lsv[i as int])] + orest;
                    let i1 = seq![msg_cannot_format(i + 1)] + irest;
                    assert(o1.drop_first() =~= orest);
                    assert(i1.drop_first() =~= irest);
                    assert(format_fold(lsv, i as int, *now_utc, home_offset as int, o1, i1));
                    assert(pre_outs + o1 =~= outs.deep_view() + orest);
                    assert(pre_issues + i1 =~= issues.deep_view() + irest);
                }
            }
        } else {
            let lstr = string_from_chars(line);
            match Todo::from_str(lstr.as_str(), now_utc, home_offset) {
                None => {
                    outs.push(trim_end_vec(line));
                    issues.push(build_msg(n, ": todo line could not be parsed"));
                    proof {
                        assert(outs.deep_view() =~= pre_outs.push(
                            crate::text::trim_back(lsv[i as int]),
                        )) by {
                            assert(forall|q: int|
                                0 <= q < pre_outs.len() ==> outs.deep_view()[q]
                                    == #[trigger] pre_outs[q]);
                            assert(outs.deep_view()[pre_outs.len() as int]
                                == crate::text::trim_back(lsv[i as int]));
                        }
                        assert(issues.deep_view() =~= pre_issues.push(msg_unparsed(i + 1))) by {
                            assert(forall|q: int|
                                0 <= q < pre_issues.len() ==> issues.deep_view()[q]
                                    == #[trigger] pre_issues[q]);
                        }
                        assert forall|orest: Seq<Seq<char>>, irest: Seq<Seq<char>>|
                            format_fold(lsv, i + 1, *now_utc, home_offset as int, orest, irest)
                                implies #[trigger] format_fold(
                            lsv,
                            0,
                            *now_utc,
                            home_offset as int,
                            outs.deep_view() + orest,
                            issues.deep_view() + irest,
                        ) by {
                            let o1 = seq![crate::text::trim_back(lsv[i as int])] + orest;
                            let i1 = seq![msg_unparsed(i + 1)] + irest;
                            assert(o1.drop_first() =~= orest);
                            assert(i1.drop_first() =~= irest);
                            assert(format_fold(
                                lsv,
                                i as int,
                                *now_utc,
                                home_offset as int,
                                o1,
                                i1,
                            ));
                            assert(pre_outs + o1 =~= outs.deep_view() + orest);
                            assert(pre_issues + i1 =~= issues.deep_view() + irest);
                        }
                    }
                },
                Some(todo) => {
                    let ghost tw = todo;
                    let rendered = todo.to_line();
                    let rv = crate::text::chars_of(rendered.as_str());
                    outs.push(rv);
                    proof {
                        assert(outs.deep_view() =~= pre_outs.push(crate::types::line_seq(tw)))
                            by {
                            assert(forall|q: int|
                                0 <= q < pre_outs.len() ==> outs.deep_view()[q]
                                    == #[trigger] pre_outs[q]);
                            assert(outs.deep_view()[pre_outs.len() as int]
                                == crate::types::line_seq(tw));
                        }
                        assert forall|orest: Seq<Seq<char>>, irest: Seq<Seq<char>>|
                            format_fold(lsv, i + 1, *now_utc, home_offset as int, orest, irest)
                                implies #[trigger] format_fold(
                            lsv,
                            0,
                            *now_utc,
                            home_offset as int,
                            outs.deep_view() + orest,
                            issues.deep_view() + irest,
                        ) by {
                            let o1 = seq![crate::types::line_seq(tw)] + orest;
                            assert(o1.drop_first() =~= orest);
                            assert(decode_rel(
                                lsv[i as int],
                                *now_utc,
                                home_offset as int,
                                tw,
                            ));
                            assert(format_fold(
                                lsv,
                                i as int,
                                *now_utc,
                                home_offset as int,
                                o1,
                                irest,
                            ));
                            assert(pre_outs + o1 =~= outs.deep_view() + orest);
                        }
                    }
                },
            }
        }
        i = i + 1;
    }
    proof {
        assert(format_fold(
            lsv,
            nl as int,
            *now_utc,
            home_offset as int,
            Seq::<Seq<char>>::empty(),
            Seq::<Seq<char>>::empty(),
        ));
        assert(format_fold(
            lsv,
            0,
            *now_utc,
            home_offset as int,
            outs.deep_view() + Seq::<Seq<char>>::empty(),
            issues.deep_view() + Seq::<Seq<char>>::empty(),
        ));
        assert(outs.deep_view() + Seq::<Seq<char>>::empty() =~= outs.deep_view());
        assert(issues.deep_view() + Seq::<Seq<char>>::empty() =~= issues.deep_view());
        assert(format_fold(lsv, 0, *now_utc, home_offset as int, outs.deep_view(), issues.deep_view()));
    }
    // join the lines, keeping the document's final break
    let ghost outv = outs.deep_view();
    let m = outs.len();
    let mut out: Vec<char> = Vec::new();
    let mut j: usize = 0;
    while j < m
        invariant
            j <= m,
            m == outs@.len(),
            outs.deep_view() == outv,
            j == 0 ==> out@.len() == 0,
            j >= 1 ==> crate::sync::join_nl(outv) == out@ + crate::sync::join_tail(
                outv.skip(j as int),
            ),
        decreases m - j,
    {
        let ghost pre = out@;
        if j > 0 {
            out.push('\n');
        }
        crate::text::push_sub(&mut out, &outs[j], 0, outs[j].len());
        proof {
            reveal_strlit("\n");
            assert(outs[j as int]@.subrange(0, outs[j as int]@.len() as int) =~= outv[j as int]);
            crate::sync::lemma_join_parts(outv, j as int);
            if j == 0 {
                assert(out@ =~= outv[0]);
            } else {
                assert(out@ =~= pre + ("\n"@ + outv[j as int]));
                assert(pre + ("\n"@ + outv[j as int]) + crate::sync::join_tail(outv.skip(j + 1))
                    =~= pre + crate::sync::join_tail(outv.skip(j as int)));
            }
        }
        j = j + 1;
    }
    proof {
        if m == 0 {
            assert(crate::sync::join_nl(outv) =~= Seq::<char>::empty());
        } else {
            assert(outv.skip(m as int).len() == 0);
            assert(crate::sync::join_tail(outv.skip(m as int)) =~= Seq::<char>::empty());
            assert(out@ + crate::sync::join_tail(outv.skip(m as int)) =~= out@);
        }
    }
    let trailing = v.len() > 0 && v[v.len() - 1] == '\n';
    proof {
        assert(v@ == content@);
        assert(trailing == ends_nl(content@));
        if !trailing {
            assert(out@ == crate::sync::join_nl(outv));
        }
    }
    if trailing {
        out.push('\n');
        proof {
            reveal_strlit("\n");
            assert(out@ =~= crate::sync::join_nl(outv) + "\n"@);
        }
    }
    let res = string_from_chars(&out);
    proof {
        assert(format_fold(
            lines_spec(content@),
            0,
            *now_utc,
            home_offset as int,
            outv,
            issues.deep_view(),
        ));
        assert(res@ == (if ends_nl(content@) {
            crate::sync::join_nl(outv) + "\n"@
        } else {
            crate::sync::join_nl(outv)
        }));
        assert(format_rel(content@, *now_utc, home_offset as int, res@, issues.deep_view()));
    }
    (res, issues)
}


} // verus!

verus! {

/// The hydrated lines, count and issues for the lines from `idx` on: a task
/// line without an identity annotation that decodes gains ` (id: …)` with
/// its freshly minted identity (trailing whitespace dropped first) and is
/// counted; an unreadable one is flagged and kept; every other line is kept
/// exactly as it stands.
pub open spec fn hydrate_fold(
    ls: Seq<Seq<char>>,
    idx: int,
    now: Timestamp,
    off: int,
    outs: Seq<Seq<char>>,
    count: int,
    issues: Seq<Seq<char>>,
) -> bool
    decreases ls.len() - idx when 0 <= idx <= ls.len()
{
    if idx >= ls.len() {
        outs.len() == 0 && count == 0 && issues.len() == 0
    } else {
        let l = ls[idx];
        let n = idx + 1;
        if !is_checkbox_line(l) || crate::text::contains_sub(l, "(id:"@) {
            outs.len() >= 1 && outs[0] == l && hydrate_fold(
                ls,
                idx + 1,
                now,
                off,
                outs.drop_first(),
                count,
                issues,
            )
        } else if !(parse_line_spec(l) is Some && shift_s(now, off) is Some) {
            outs.len() >= 1 && issues.len() >= 1 && outs[0] == l && issues[0] == msg_unparsed(n)
                && hydrate_fold(ls, idx + 1, now, off, outs.drop_first(), count, issues.drop_first())
        } else {
            exists|t: Todo|
                #[trigger] decode_rel(l, now, off, t) && outs.len() >= 1 && outs[0]
                    == crate::text::trim_back(l) + " (id: "@ + crate::ident::id_seq(
                    t.spec_id() as int,
                ) + ")"@ && hydrate_fold(
                    ls,
                    idx + 1,
                    now,
                    off,
                    outs.drop_first(),
                    count - 1,
                    issues,
                )
        }
    }
}

/// How a hydrated document relates to its source: some sequence of output
/// lines satisfies the per-line fold with the returned count and issues,
/// and the document is their join, keeping the source's final line break.
pub open spec fn hydrate_rel(
    content: Seq<char>,
    now: Timestamp,
    off: int,
    out: Seq<char>,
    count: int,
    issues: Seq<Seq<char>>,
) -> bool {
    exists|outs: Seq<Seq<char>>|
        #[trigger] hydrate_fold(lines_spec(content), 0, now, off, outs, count, issues) && out == (
        if ends_nl(content) {
            crate::sync::join_nl(outs) + "\n"@
        } else {
            crate::sync::join_nl(outs)
        })
}

/// Give identity-less task lines a freshly minted identity, appended as an
/// ` (id: …)` annotation; unreadable task lines are flagged and kept. The
/// count says how many lines gained an identity.
#[verifier::rlimit(100)]
pub fn hydrate_todo_ids(content: &str, now_utc: &Timestamp, home_offset: i32) -> (r: (
    String,
    usize,
    Vec<String>,
))
    requires
        valid_timestamp(*now_utc),
        -86400 < home_offset < 86400,
    ensures
        hydrate_rel(content@, *now_utc, home_offset as int, r.0@, r.1 as int, r.2.deep_view()),
{
    let v = crate::text::chars_of(content);
    let ls = split_lines(&v);
    let ghost lsv = lines_spec(content@);
    let nl = ls.len();
    let mut outs: Vec<Vec<char>> = Vec::new();
    let mut issues: Vec<String> = Vec::new();
    let mut count: usize = 0;
    let mut i: usize = 0;
    while i < nl
        invariant
            i <= nl,
            nl == ls@.len(),
            count <= i,
            ls.deep_view() == lsv,
            lsv == lines_spec(content@),
            valid_timestamp(*now_utc),
            -86400 < home_offset < 86400,
            forall|orest: Seq<Seq<char>>, crest: int, irest: Seq<Seq<char>>|
                hydrate_fold(lsv, i as int, *now_utc, home_offset as int, orest, crest, irest)
                    ==> #[trigger] hydrate_fold(
                    lsv,
                    0,
                    *now_utc,
                    home_offset as int,
                    outs.deep_view() + orest,
                    count + crest,
                    issues.deep_view() + irest,
                ),
        decreases nl - i,
    {
        let line = &ls[i];
        let n: usize = i + 1;
        proof {
            assert(ls.deep_view()[i as int] == ls@[i as int]@);
        }
        let ghost pre_outs = outs.deep_view();
        let ghost pre_issues = issues.deep_view();
        let ghost pre_count = count as int;
        if !checkbox_line(line) || crate::text::has_sub(line, "(id:") {
            outs.push(subvec(line, 0, line.len()));
            proof {
                assert(outs.deep_view() =~= pre_outs.push(lsv[i as int])) by {
                    assert(forall|q: int|
                        0 <= q < pre_outs.len() ==> outs.deep_view()[q] == #[trigger] pre_outs[q]);
                    assert(outs.deep_view()[pre_outs.len() as int] =~= lsv[i as int]);
                }
                assert forall|orest: Seq<Seq<char>>, crest: int, irest: Seq<Seq<char>>|
                    hydrate_fold(lsv, i + 1, *now_utc, home_offset as int, orest, crest, irest)
                        implies #[trigger] hydrate_fold(
                    lsv,
                    0,
                    *now_utc,
                    home_offset as int,
                    outs.deep_view() + orest,
                    count + crest,
                    issues.deep_view() + irest,
                ) by {
                    let o1 = seq![lsv[i as int]] + orest;
                    assert(o1.drop_first() =~= orest);
                    assert(hydrate_fold(
                        lsv,
                        i as int,
                        *now_utc,
                        home_offset as int,
                        o1,
                        crest,
                        irest,
                    ));
                    assert(pre_outs + o1 =~= outs.deep_view() + orest);
                }
            }
        } else {
            let lstr = string_from_chars(line);
            match Todo::from_str(lstr.as_str(), now_utc, home_offset) {
                None => {
                    outs.push(subvec(line, 0, line.len()));
                    issues.push(build_msg(n, ": todo line could not be parsed"));
                    proof {
                        assert(outs.deep_view() =~= pre_outs.push(lsv[i as int])) by {
                            assert(forall|q: int|
                                0 <= q < pre_outs.len() ==> outs.deep_view()[q]
                                    == #[trigger] pre_outs[q]);
                            assert(outs.deep_view()[pre_outs.len() as int] =~= lsv[i as int]);
                        }
                        assert(issues.deep_view() =~= pre_issues.push(msg_unparsed(i + 1))) by {
                            assert(forall|q: int|
                                0 <= q < pre_issues.len() ==> issues.deep_view()[q]
                                    == #[trigger] pre_issues[q]);
                        }
                        assert forall|orest: Seq<Seq<char>>, crest: int, irest: Seq<Seq<char>>|
                            hydrate_fold(
                                lsv,
                                i + 1,
                                *now_utc,
                                home_offset as int,
                                orest,
                                crest,
                                irest,
                            ) implies #[trigger] hydrate_fold(
                            lsv,
                            0,
                            *now_utc,
                            home_offset as int,
                            outs.deep_view() + orest,
                            count + crest,
                            issues.deep_view() + irest,
                        ) by {
                            let o1 = seq![lsv[i as int]] + orest;
                            let i1 = seq![msg_unparsed(i + 1)] + irest;
                            assert(o1.drop_first() =~= orest);
                            assert(i1.drop_first() =~= irest);
                            assert(hydrate_fold(
                                lsv,
                                i as int,
                                *now_utc,
                                home_offset as int,
                                o1,
                                crest,
                                i1,
                            ));
                            assert(pre_outs + o1 =~= outs.deep_view() + orest);
                            assert(pre_issues + i1 =~= issues.deep_view() + irest);
                        }
                    }
                },
                Some(todo) => {
                    let ghost tw = todo;
                    let mut a = trim_end_vec(line);
                    crate::text::push_str_chars(&mut a, " (id: ");
                    let ids = crate::ident::format_id(todo.id());
                    crate::text::push_str_chars(&mut a, ids.as_str());
                    crate::text::push_str_chars(&mut a, ")");
                    let ghost rendered = crate::text::trim_back(lsv[i as int]) + " (id: "@
                        + crate::ident::id_seq(tw.spec_id() as int) + ")"@;
                    proof {
                        assert(a@ =~= rendered);
                    }
                    outs.push(a);
                    count = count + 1;
                    proof {
                        assert(outs.deep_view() =~= pre_outs.push(rendered)) by {
                            assert(forall|q: int|
                                0 <= q < pre_outs.len() ==> outs.deep_view()[q]
                                    == #[trigger] pre_outs[q]);
                            assert(outs.deep_view()[pre_outs.len() as int] =~= rendered);
                        }
                        assert forall|orest: Seq<Seq<char>>, crest: int, irest: Seq<Seq<char>>|
                            hydrate_fold(
                                lsv,
                                i + 1,
                                *now_utc,
                                home_offset as int,
                                orest,
                                crest,
                                irest,
                            ) implies #[trigger] hydrate_fold(
                            lsv,
                            0,
                            *now_utc,
                            home_offset as int,
                            outs.deep_view() + orest,
                            count + crest,
                            issues.deep_view() + irest,
                        ) by {
                            let o1 = seq![rendered] + orest;
                            assert(o1.drop_first() =~= orest);
                            assert(decode_rel(lsv[i as int], *now_utc, home_offset as int, tw));
                            assert(hydrate_fold(
                                lsv,
                                i as int,
                                *now_utc,
                                home_offset as int,
                                o1,
                                crest + 1,
                                irest,
                            ));
                            assert(pre_outs + o1 =~= outs.deep_view() + orest);
                            assert(pre_count + (crest + 1) == count + crest);
                        }
                    }
                },
            }
        }
        i = i + 1;
    }
    proof {
        assert(hydrate_fold(
            lsv,
            nl as int,
            *now_utc,
            home_offset as int,
            Seq::<Seq<char>>::empty(),
            0,
            Seq::<Seq<char>>::empty(),
        ));
        assert(hydrate_fold(
            lsv,
            0,
            *now_utc,
            home_offset as int,
            outs.deep_view() + Seq::<Seq<char>>::empty(),
            count as int + 0,
            issues.deep_view() + Seq::<Seq<char>>::empty(),
        ));
        assert(outs.deep_view() + Seq::<Seq<char>>::empty() =~= outs.deep_view());
        assert(issues.deep_view() + Seq::<Seq<char>>::empty() =~= issues.deep_view());
        assert(hydrate_fold(
            lsv,
            0,
            *now_utc,
            home_offset as int,
            outs.deep_view(),
            count as int,
            issues.deep_view(),
        ));
    }
    // join the lines, keeping the document's final break
    let ghost outv = outs.deep_view();
    let m = outs.len();
    let mut out: Vec<char> = Vec::new();
    let mut j: usize = 0;
    while j < m
        invariant
            j <= m,
            m == outs@.len(),
            outs.deep_view() == outv,
            j == 0 ==> out@.len() == 0,
            j >= 1 ==> crate::sync::join_nl(outv) == out@ + crate::sync::join_tail(
                outv.skip(j as int),
            ),
        decreases m - j,
    {
        let ghost pre = out@;
        if j > 0 {
            out.push('\n');
        }
        crate::text::push_sub(&mut out, &outs[j], 0, outs[j].len());
        proof {
            reveal_strlit("\n");
            assert(outs[j as int]@.subrange(0, outs[j as int]@.len() as int) =~= outv[j as int]);
            crate::sync::lemma_join_parts(outv, j as int);
            if j == 0 {
                assert(out@ =~= outv[0]);
            } else {
                assert(out@ =~= pre + ("\n"@ + outv[j as int]));
                assert(pre + ("\n"@ + outv[j as int]) + crate::sync::join_tail(outv.skip(j + 1))
                    =~= pre + crate::sync::join_tail(outv.skip(j as int)));
            }
        }
        j = j + 1;
    }
    proof {
        if m == 0 {
            assert(crate::sync::join_nl(outv) =~= Seq::<char>::empty());
        } else {
            assert(outv.skip(m as int).len() == 0);
            assert(crate::sync::join_tail(outv.skip(m as int)) =~= Seq::<char>::empty());
            assert(out@ + crate::sync::join_tail(outv.skip(m as int)) =~= out@);
        }
    }
    let trailing = v.len() > 0 && v[v.len() - 1] == '\n';
    proof {
        assert(v@ == content@);
        assert(trailing == ends_nl(content@));
        if !trailing {
            assert(out@ == crate::sync::join_nl(outv));
        }
    }
    if trailing {
        out.push('\n');
        proof {
            reveal_strlit("\n");
            assert(out@ =~= crate::sync::join_nl(outv) + "\n"@);
        }
    }
    let res = string_from_chars(&out);
    proof {
        assert(res@ == (if ends_nl(content@) {
            crate::sync::join_nl(outv) + "\n"@
        } else {
            crate::sync::join_nl(outv)
        }));
        assert(hydrate_rel(
            content@,
            *now_utc,
            home_offset as int,
            res@,
            count as int,
            issues.deep_view(),
        ));
    }
    (res, count, issues)
}

} // verus!
