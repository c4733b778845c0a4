use vstd::prelude::*;

use crate::recurrence_parser::next_due_utc_s;
use crate::storage::ParsedTodoFile;
use crate::storage::find_id;
use crate::storage::ids_unique;
use crate::storage::lemma_find_id;
use crate::storage::lookup_id;
use crate::text::push_dec_usize;
use crate::text::push_str_chars;
use crate::text::string_from_chars;
use crate::types::Reccurence;
use crate::types::Todo;
use crate::types::rec_eq_spec;

verus! {

/// What happened to one task between two snapshots.
#[derive(Clone, Copy, Debug, PartialEq, Eq, Structural)]
pub enum ChangeKind {
    Added,
    Updated,
    Deleted,
    Completed,
}

/// One classified change, by task identity.
#[derive(Clone, Copy, Debug, PartialEq, Eq, Structural)]
pub struct TodoChange {
    pub id: u128,
    pub kind: ChangeKind,
}

/// The classified difference between two snapshots: per-kind tallies and
/// the change list itself.
#[derive(Clone, Debug)]
pub struct ChangeSet {
    pub added: usize,
    pub updated: usize,
    pub deleted: usize,
    pub completed: usize,
    pub changes: Vec<TodoChange>,
}

impl ChangeSet {
    pub fn is_empty(&self) -> (r: bool)
        ensures
            r == (self.added == 0 && self.updated == 0 && self.deleted == 0 && self.completed
                == 0),
    {
        self.added == 0 && self.updated == 0 && self.deleted == 0 && self.completed == 0
    }
}

/// Equality of optional recurrence rules.
pub open spec fn rec_opt_eq(a: Option<Reccurence>, b: Option<Reccurence>) -> bool {
    match (a, b) {
        (Some(x), Some(y)) => rec_eq_spec(x, y),
        (None, None) => true,
        _ => false,
    }
}

/// Do two records differ in any of the observable fields the differ
/// compares: completion, due instant, recurrence rule, name?
pub open spec fn todos_differ_spec(a: Todo, b: Todo) -> bool {
    ||| a.spec_done() != b.spec_done()
    ||| a.spec_due() != b.spec_due()
    ||| !rec_opt_eq(a.spec_rec(), b.spec_rec())
    ||| a.spec_name() != b.spec_name()
}

fn todos_differ(previous: &Todo, current: &Todo) -> (r: bool)
    ensures
        r == todos_differ_spec(*previous, *current),
{
    if previous.done() != current.done() {
        return true;
    }
    let due_eq: bool = match (previous.due_date(), current.due_date()) {
        (Some(a), Some(b)) => a == b,
        (None, None) => true,
        _ => false,
    };
    if !due_eq {
        return true;
    }
    let rec_eq: bool = match (previous.recurence(), current.recurence()) {
        (Some(a), Some(b)) => a.same_as(b),
        (None, None) => true,
        _ => false,
    };
    if !rec_eq {
        return true;
    }
    let pn = previous.name();
    let cn = current.name();
    let pv = crate::text::chars_of(pn.as_str());
    !crate::text::chars_eq_str(&pv, cn.as_str())
}

/// Is the step from `previous` to `current` a completion: either the done
/// flag was switched on, or a recurring task's due date rolled forward to
/// exactly its next occurrence while staying open?
pub open spec fn completion_transition_spec(a: Todo, b: Todo, off: int) -> bool {
    ||| (!a.spec_done() && b.spec_done())
    ||| (match (a.spec_rec(), a.spec_due(), b.spec_due()) {
        (Some(rec), Some(pd), Some(cd)) => !b.spec_done() && next_due_utc_s(pd, rec, off) == Some(
            cd,
        ),
        _ => false,
    })
}

fn is_completion_transition(previous: &Todo, current: &Todo, offset_seconds: i32) -> (r: bool)
    requires
        previous.wf(),
        -86400 < offset_seconds < 86400,
    ensures
        r == completion_transition_spec(*previous, *current, offset_seconds as int),
{
    if !previous.done() && current.done() {
        return true;
    }
    match (previous.recurence(), previous.due_date(), current.due_date()) {
        (Some(rec), Some(pd), Some(cd)) => {
            if current.done() {
                return false;
            }
            crate::recurrence_parser::is_rollover_due_date(&pd, &cd, rec, offset_seconds)
        },
        _ => false,
    }
}

/// The change kind for a task present in both snapshots (when it differs).
pub open spec fn common_kind(p: Todo, c: Todo, off: int) -> ChangeKind {
    if completion_transition_spec(p, c, off) {
        ChangeKind::Completed
    } else {
        ChangeKind::Updated
    }
}

/// The Added entries: tasks of the current snapshot absent from the previous.
pub open spec fn adds(cs: Seq<Todo>, ps: Seq<Todo>) -> Seq<TodoChange>
    decreases cs.len(),
{
    if cs.len() == 0 {
        Seq::empty()
    } else {
        (if find_id(ps, cs[0].spec_id()) == -1 {
            seq![TodoChange { id: cs[0].spec_id(), kind: ChangeKind::Added }]
        } else {
            Seq::empty()
        }) + adds(cs.drop_first(), ps)
    }
}

/// The Deleted entries: tasks of the previous snapshot absent from the current.
pub open spec fn dels(ps: Seq<Todo>, cs: Seq<Todo>) -> Seq<TodoChange>
    decreases ps.len(),
{
    if ps.len() == 0 {
        Seq::empty()
    } else {
        (if find_id(cs, ps[0].spec_id()) == -1 {
            seq![TodoChange { id: ps[0].spec_id(), kind: ChangeKind::Deleted }]
        } else {
            Seq::empty()
        }) + dels(ps.drop_first(), cs)
    }
}

/// The Updated/Completed entries: tasks present in both snapshots whose
/// observable fields differ, classified by the completion test.
pub open spec fn mods(ps: Seq<Todo>, cs: Seq<Todo>, off: int) -> Seq<TodoChange>
    decreases ps.len(),
{
    if ps.len() == 0 {
        Seq::empty()
    } else {
        let head: Seq<TodoChange> = {
            let k = find_id(cs, ps[0].spec_id());
            if k >= 0 && todos_differ_spec(ps[0], cs[k]) {
                seq![TodoChange { id: ps[0].spec_id(), kind: common_kind(ps[0], cs[k], off) }]
            } else {
                Seq::empty()
            }
        };
        head + mods(ps.drop_first(), cs, off)
    }
}

/// The whole classified change list of two snapshots.
pub open spec fn changes_spec(ps: Seq<Todo>, cs: Seq<Todo>, off: int) -> Seq<TodoChange> {
    adds(cs, ps) + dels(ps, cs) + mods(ps, cs, off)
}

/// How many entries of the list carry this kind.
pub open spec fn count_kind(chs: Seq<TodoChange>, k: ChangeKind) -> int
    decreases chs.len(),
{
    if chs.len() == 0 {
        0
    } else {
        (if chs[0].kind == k {
            1int
        } else {
            0int
        }) + count_kind(chs.drop_first(), k)
    }
}

/// Classify what changed between two snapshots, keyed by task identity:
/// tasks only in `current` are Added, tasks only in `previous` are Deleted,
/// and tasks in both that differ are Completed when the step matches the
/// completion test and Updated otherwise. The tallies count the list.
pub fn semantic_changes(
    previous: &ParsedTodoFile,
    current: &ParsedTodoFile,
    home_offset: i32,
) -> (r: ChangeSet)
    requires
        previous.wf(),
        current.wf(),
        -86400 < home_offset < 86400,
    ensures
        r.changes@ == changes_spec(
            previous.todos_by_id@,
            current.todos_by_id@,
            home_offset as int,
        ),
        r.added as int == count_kind(r.changes@, ChangeKind::Added),
        r.updated as int == count_kind(r.changes@, ChangeKind::Updated),
        r.deleted as int == count_kind(r.changes@, ChangeKind::Deleted),
        r.completed as int == count_kind(r.changes@, ChangeKind::Completed),
{
    let ps = &previous.todos_by_id;
    let cs = &current.todos_by_id;
    let mut changes: Vec<TodoChange> = Vec::new();
    // Added
    let nc = cs.len();
    let mut i: usize = 0;
    proof {
        assert(cs@.skip(0) =~= cs@);
        assert(changes@ + adds(cs@, ps@) =~= adds(cs@, ps@));
    }
    while i < nc
        invariant
            i <= nc,
            nc == cs@.len(),
            changes@ + adds(cs@.skip(i as int), ps@) == adds(cs@, ps@),
        decreases nc - i,
    {
        proof {
            assert(cs@.skip(i as int).drop_first() =~= cs@.skip(i as int + 1));
            assert(cs@.skip(i as int)[0] == cs@[i as int]);
        }
        let t = &cs[i];
        match lookup_id(ps, t.id()) {
            None => {
                changes.push(TodoChange { id: t.id(), kind: ChangeKind::Added });
                proof {
                    assert(changes@ + adds(cs@.skip(i as int + 1), ps@) =~= adds(cs@, ps@));
                }
            },
            Some(_) => {},
        }
        i = i + 1;
    }
    proof {
        assert(cs@.skip(nc as int).len() == 0);
        assert(changes@ + adds(cs@.skip(nc as int), ps@) =~= changes@);
        assert(changes@ == adds(cs@, ps@));
    }
    // Deleted
    let np = ps.len();
    let mut i: usize = 0;
    proof {
        assert(ps@.skip(0) =~= ps@);
        assert(changes@ + dels(ps@, cs@) =~= adds(cs@, ps@) + dels(ps@, cs@));
    }
    while i < np
        invariant
            i <= np,
            np == ps@.len(),
            changes@ + dels(ps@.skip(i as int), cs@) == adds(cs@, ps@) + dels(ps@, cs@),
        decreases np - i,
    {
        proof {
            assert(ps@.skip(i as int).drop_first() =~= ps@.skip(i as int + 1));
            assert(ps@.skip(i as int)[0] == ps@[i as int]);
        }
        let t = &ps[i];
        match lookup_id(cs, t.id()) {
            None => {
                changes.push(TodoChange { id: t.id(), kind: ChangeKind::Deleted });
                proof {
                    assert(changes@ + dels(ps@.skip(i as int + 1), cs@) =~= adds(cs@, ps@) + dels(
                        ps@,
                        cs@,
                    ));
                }
            },
            Some(_) => {},
        }
        i = i + 1;
    }
    proof {
        assert(ps@.skip(np as int).len() == 0);
        assert(changes@ + dels(ps@.skip(np as int), cs@) =~= changes@);
    }
    // Updated / Completed
    let mut i: usize = 0;
    proof {
        assert(ps@.skip(0) =~= ps@);
        assert(changes@ + mods(ps@, cs@, home_offset as int) =~= changes_spec(
            ps@,
            cs@,
            home_offset as int,
        ));
    }
    while i < np
        invariant
            i <= np,
            np == ps@.len(),
            previous.wf(),
            current.wf(),
            -86400 < home_offset < 86400,
            ps@ == previous.todos_by_id@,
            cs@ == current.todos_by_id@,
            changes@ + mods(ps@.skip(i as int), cs@, home_offset as int) == changes_spec(
                ps@,
                cs@,
                home_offset as int,
            ),
        decreases np - i,
    {
        proof {
            assert(ps@.skip(i as int).drop_first() =~= ps@.skip(i as int + 1));
            assert(ps@.skip(i as int)[0] == ps@[i as int]);
        }
        let t = &ps[i];
        match lookup_id(cs, t.id()) {
            Some(k) => {
                let c = &cs[k];
                if todos_differ(t, c) {
                    let kind = if is_completion_transition(t, c, home_offset) {
                        ChangeKind::Completed
                    } else {
                        ChangeKind::Updated
                    };
                    changes.push(TodoChange { id: t.id(), kind });
                    proof {
                        assert(changes@ + mods(ps@.skip(i as int + 1), cs@, home_offset as int)
                            =~= changes_spec(ps@, cs@, home_offset as int));
                    }
                }
            },
            None => {},
        }
        i = i + 1;
    }
    proof {
        assert(ps@.skip(np as int).len() == 0);
        assert(changes@ + mods(ps@.skip(np as int), cs@, home_offset as int) =~= changes@);
    }
    // tallies
    let n = changes.len();
    let mut added: usize = 0;
    let mut updated: usize = 0;
    let mut deleted: usize = 0;
    let mut completed: usize = 0;
    let mut i: usize = 0;
    while i < n
        invariant
            i <= n,
            n == changes@.len(),
            added as int == count_kind(changes@.take(i as int), ChangeKind::Added),
            updated as int == count_kind(changes@.take(i as int), ChangeKind::Updated),
            deleted as int == count_kind(changes@.take(i as int), ChangeKind::Deleted),
            completed as int == count_kind(changes@.take(i as int), ChangeKind::Completed),
            added + updated + deleted + completed <= i,
        decreases n - i,
    {
        proof {
            lemma_count_kind_take(changes@, i as int, ChangeKind::Added);
            lemma_count_kind_take(changes@, i as int, ChangeKind::Updated);
            lemma_count_kind_take(changes@, i as int, ChangeKind::Deleted);
            lemma_count_kind_take(changes@, i as int, ChangeKind::Completed);
        }
        match changes[i].kind {
            ChangeKind::Added => {
                added = added + 1;
            },
            ChangeKind::Updated => {
                updated = updated + 1;
            },
            ChangeKind::Deleted => {
                deleted = deleted + 1;
            },
            ChangeKind::Completed => {
                completed = completed + 1;
            },
        }
        i = i + 1;
    }
    proof {
        assert(changes@.take(n as int) =~= changes@);
    }
    ChangeSet { added, updated, deleted, completed, changes }
}

/// Appending one entry extends the count by its kind.
proof fn lemma_count_kind_take(chs: Seq<TodoChange>, i: int, k: ChangeKind)
    requires
        0 <= i < chs.len(),
    ensures
        count_kind(chs.take(i + 1), k) == count_kind(chs.take(i), k) + (if chs[i].kind == k {
            1int
        } else {
            0int
        }),
    decreases i,
{
    lemma_count_kind_snoc(chs.take(i + 1), k);
    assert(chs.take(i + 1).drop_last() =~= chs.take(i));
}

/// Counting from the back.
proof fn lemma_count_kind_snoc(chs: Seq<TodoChange>, k: ChangeKind)
    requires
        chs.len() > 0,
    ensures
        count_kind(chs, k) == count_kind(chs.drop_last(), k) + (if chs.last().kind == k {
            1int
        } else {
            0int
        }),
    decreases chs.len(),
{
    if chs.len() == 1 {
        assert(chs.drop_last() =~= Seq::<TodoChange>::empty());
        assert(chs.drop_first() =~= Seq::<TodoChange>::empty());
    } else {
        lemma_count_kind_snoc(chs.drop_first(), k);
        assert(chs.drop_first().drop_last() =~= chs.drop_last().drop_first());
        assert(chs.drop_first().last() == chs.last());
        assert(chs.drop_last()[0] == chs[0]);
    }
}

} // verus!

verus! {

// ---------------------------------------------------------------------------
// Line-level diff summary
// ---------------------------------------------------------------------------
/// The tag sequence of the Myers line diff of two texts: one tag per diffed
/// line, 0 for an inserted line, 1 for a deleted one, 2 for an equal one.
pub uninterp spec fn myers_line_tags(before: Seq<char>, after: Seq<char>) -> Seq<u8>;

/// Relies on similar's TextDiff with the Myers algorithm over lines: each
/// change of the diff is reported with its tag, and the tag sequence is a
/// function of the two texts alone.
#[verifier::external_body]
fn line_change_tags(before: &str, after: &str) -> (r: Vec<u8>)
    ensures
        r@ == myers_line_tags(before@, after@),
        forall|i: int| 0 <= i < r@.len() ==> #[trigger] r@[i] <= 2,
{
    let diff = similar::TextDiff::configure().algorithm(similar::Algorithm::Myers).diff_lines(
        before,
        after,
    );
    diff.iter_all_changes().map(|c| match c.tag() {
        similar::ChangeTag::Insert => 0,
        similar::ChangeTag::Delete => 1,
        similar::ChangeTag::Equal => 2,
    }).collect()
}

/// How many entries of the tag list equal `t`.
pub open spec fn count_tag(tags: Seq<u8>, t: u8) -> int
    decreases tags.len(),
{
    if tags.len() == 0 {
        0
    } else {
        (if tags[0] == t {
            1int
        } else {
            0int
        }) + count_tag(tags.drop_first(), t)
    }
}

/// The one-line summary of a tag list: inserted and deleted line counts.
pub open spec fn summary_seq(tags: Seq<u8>) -> Seq<char> {
    "line diff (+"@ + crate::text::dec_seq(count_tag(tags, 0)) + "/-"@ + crate::text::dec_seq(
        count_tag(tags, 1),
    ) + ")"@
}

proof fn lemma_count_tag_take(tags: Seq<u8>, i: int, t: u8)
    requires
        0 <= i < tags.len(),
    ensures
        count_tag(tags.take(i + 1), t) == count_tag(tags.take(i), t) + (if tags[i] == t {
            1int
        } else {
            0int
        }),
{
    lemma_count_tag_snoc(tags.take(i + 1), t);
    assert(tags.take(i + 1).drop_last() =~= tags.take(i));
}

proof fn lemma_count_tag_snoc(tags: Seq<u8>, t: u8)
    requires
        tags.len() > 0,
    ensures
        count_tag(tags, t) == count_tag(tags.drop_last(), t) + (if tags.last() == t {
            1int
        } else {
            0int
        }),
    decreases tags.len(),
{
    if tags.len() == 1 {
        assert(tags.drop_last() =~= Seq::<u8>::empty());
        assert(tags.drop_first() =~= Seq::<u8>::empty());
    } else {
        lemma_count_tag_snoc(tags.drop_first(), t);
        assert(tags.drop_first().drop_last() =~= tags.drop_last().drop_first());
        assert(tags.drop_first().last() == tags.last());
        assert(tags.drop_last()[0] == tags[0]);
    }
}

proof fn lemma_count_tag_bound(tags: Seq<u8>, t: u8)
    ensures
        0 <= count_tag(tags, t) <= tags.len(),
    decreases tags.len(),
{
    if tags.len() > 0 {
        lemma_count_tag_bound(tags.drop_first(), t);
    }
}

/// Render the insert/delete tallies of a diff tag list.
pub fn summarize_line_tags(tags: &Vec<u8>) -> (r: String)
    ensures
        r@ == summary_seq(tags@),
{
    let n = tags.len();
    let mut ins: usize = 0;
    let mut del: usize = 0;
    let mut i: usize = 0;
    while i < n
        invariant
            i <= n,
            n == tags@.len(),
            ins as int == count_tag(tags@.take(i as int), 0),
            del as int == count_tag(tags@.take(i as int), 1),
            ins <= i && del <= i,
        decreases n - i,
    {
        proof {
            lemma_count_tag_take(tags@, i as int, 0);
            lemma_count_tag_take(tags@, i as int, 1);
            lemma_count_tag_bound(tags@.take(i as int), 0);
            lemma_count_tag_bound(tags@.take(i as int), 1);
        }
        if tags[i] == 0 {
            ins = ins + 1;
        } else if tags[i] == 1 {
            del = del + 1;
        }
        i = i + 1;
    }
    proof {
        assert(tags@.take(n as int) =~= tags@);
    }
    let mut out: Vec<char> = Vec::new();
    push_str_chars(&mut out, "line diff (+");
    push_dec_usize(&mut out, ins);
    push_str_chars(&mut out, "/-");
    push_dec_usize(&mut out, del);
    push_str_chars(&mut out, ")");
    proof {
        assert(out@ =~= summary_seq(tags@));
    }
    string_from_chars(&out)
}

/// Summarize the Myers line diff of two texts as `line diff (+a/-r)`.
pub fn line_diff_summary(before: &str, after: &str) -> (r: String)
    ensures
        r@ == summary_seq(myers_line_tags(before@, after@)),
{
    let tags = line_change_tags(before, after);
    summarize_line_tags(&tags)
}

// ---------------------------------------------------------------------------
// Laws of the classification
// ---------------------------------------------------------------------------
/// How many entries of the list carry this identity.
pub open spec fn count_id(chs: Seq<TodoChange>, id: u128) -> int
    decreases chs.len(),
{
    if chs.len() == 0 {
        0
    } else {
        (if chs[0].id == id {
            1int
        } else {
            0int
        }) + count_id(chs.drop_first(), id)
    }
}

proof fn lemma_count_id_single(c: TodoChange, id: u128)
    ensures
        count_id(seq![c], id) == if c.id == id {
            1int
        } else {
            0int
        },
{
    assert(seq![c].drop_first() =~= Seq::<TodoChange>::empty());
    assert(count_id(Seq::<TodoChange>::empty(), id) == 0);
    assert(seq![c][0] == c);
}

proof fn lemma_count_id_concat(a: Seq<TodoChange>, b: Seq<TodoChange>, id: u128)
    ensures
        count_id(a + b, id) == count_id(a, id) + count_id(b, id),
    decreases a.len(),
{
    if a.len() == 0 {
        assert(a + b =~= b);
    } else {
        lemma_count_id_concat(a.drop_first(), b, id);
        assert((a + b).drop_first() =~= a.drop_first() + b);
        assert((a + b)[0] == a[0]);
    }
}

proof fn lemma_adds_no_prev_id(cs: Seq<Todo>, ps: Seq<Todo>, id: u128)
    requires
        find_id(ps, id) >= 0,
    ensures
        count_id(adds(cs, ps), id) == 0,
    decreases cs.len(),
{
    if cs.len() > 0 {
        lemma_adds_no_prev_id(cs.drop_first(), ps, id);
        let head: Seq<TodoChange> = if find_id(ps, cs[0].spec_id()) == -1 {
            seq![TodoChange { id: cs[0].spec_id(), kind: ChangeKind::Added }]
        } else {
            Seq::empty()
        };
        lemma_count_id_concat(head, adds(cs.drop_first(), ps), id);
        if find_id(ps, cs[0].spec_id()) == -1 && cs[0].spec_id() == id {
            assert(false);
        }
        assert(count_id(head, id) == 0) by {
            if head.len() > 0 {
                lemma_count_id_single(head[0], id);
                assert(head =~= seq![head[0]]);
            }
        }
    }
}

proof fn lemma_mods_only_curr_ids(ps: Seq<Todo>, cs: Seq<Todo>, off: int, id: u128)
    requires
        find_id(cs, id) == -1,
    ensures
        count_id(mods(ps, cs, off), id) == 0,
    decreases ps.len(),
{
    if ps.len() > 0 {
        lemma_mods_only_curr_ids(ps.drop_first(), cs, off, id);
        let k = find_id(cs, ps[0].spec_id());
        let head: Seq<TodoChange> = if k >= 0 && todos_differ_spec(ps[0], cs[k]) {
            seq![TodoChange { id: ps[0].spec_id(), kind: common_kind(ps[0], cs[k], off) }]
        } else {
            Seq::empty()
        };
        lemma_count_id_concat(head, mods(ps.drop_first(), cs, off), id);
        assert(count_id(head, id) == 0) by {
            if head.len() > 0 {
                if ps[0].spec_id() == id {
                    assert(false);
                }
                lemma_count_id_single(head[0], id);
                assert(head =~= seq![head[0]]);
            }
        }
    }
}

proof fn lemma_dels_exactly_once(ps: Seq<Todo>, cs: Seq<Todo>, id: u128)
    requires
        ids_unique(ps),
        find_id(ps, id) >= 0,
        find_id(cs, id) == -1,
    ensures
        count_id(dels(ps, cs), id) == 1,
        forall|j: int|
            0 <= j < dels(ps, cs).len() && (#[trigger] dels(ps, cs)[j]).id == id ==> dels(
                ps,
                cs,
            )[j].kind == ChangeKind::Deleted,
    decreases ps.len(),
{
    reveal_with_fuel(count_id, 3);
    lemma_find_id(ps, id);
    let head: Seq<TodoChange> = if find_id(cs, ps[0].spec_id()) == -1 {
        seq![TodoChange { id: ps[0].spec_id(), kind: ChangeKind::Deleted }]
    } else {
        Seq::empty()
    };
    let rest = dels(ps.drop_first(), cs);
    lemma_count_id_concat(head, rest, id);
    assert(forall|i: int| 1 <= i < ps.len() ==> ps.drop_first()[i - 1] == #[trigger] ps[i]);
    if ps[0].spec_id() == id {
        // the head contributes the single Deleted entry; the identity is
        // unique, so the tail holds none
        assert(head.len() == 1 && head[0].id == id && head[0].kind == ChangeKind::Deleted) by {
            assert(find_id(cs, id) == -1);
        }
        assert(head.drop_first() =~= Seq::<TodoChange>::empty());
        assert(count_id(head, id) == 1);
        assert(find_id(ps.drop_first(), id) == -1) by {
            lemma_find_id(ps.drop_first(), id);
            if find_id(ps.drop_first(), id) >= 0 {
                let k = find_id(ps.drop_first(), id);
                assert(ps[k + 1].spec_id() == id);
                assert(ps[0].spec_id() != ps[k + 1].spec_id());
            }
        }
        lemma_dels_no_id(ps.drop_first(), cs, id);
        lemma_count_id_positional(rest, id);
        assert(forall|j: int|
            0 <= j < rest.len() ==> dels(ps, cs)[head.len() + j] == #[trigger] rest[j]);
        assert(dels(ps, cs)[0] == head[0]);
    } else {
        assert(ids_unique(ps.drop_first())) by {
            assert(forall|a: int, b: int|
                0 <= a < b < ps.len() - 1 ==> (#[trigger] ps.drop_first()[a]).spec_id() != (
                #[trigger] ps.drop_first()[b]).spec_id()) by {
                assert(forall|a: int|
                    0 <= a < ps.len() - 1 ==> ps.drop_first()[a] == #[trigger] ps[a + 1]);
            }
        }
        lemma_find_id(ps.drop_first(), id);
        assert(find_id(ps.drop_first(), id) >= 0) by {
            lemma_find_id(ps, id);
            let k = find_id(ps, id);
            lemma_find_id_witness(ps.drop_first(), id, k - 1);
        }
        lemma_dels_exactly_once(ps.drop_first(), cs, id);
        assert(count_id(head, id) == 0) by {
            if head.len() > 0 {
                lemma_count_id_single(head[0], id);
                assert(head =~= seq![head[0]]);
                assert(head[0].id == ps[0].spec_id());
            }
        }
        assert(forall|j: int|
            0 <= j < rest.len() && (#[trigger] rest[j]).id == id ==> rest[j].kind
                == ChangeKind::Deleted);
        assert(forall|j: int|
            0 <= j < rest.len() ==> dels(ps, cs)[head.len() + j] == #[trigger] rest[j]);
        if head.len() > 0 {
            assert(dels(ps, cs)[0] == head[0]);
        }
    }
}

/// A sequence with the identity present somewhere has a nonnegative find.
proof fn lemma_find_id_witness(ts: Seq<Todo>, id: u128, k: int)
    requires
        0 <= k < ts.len(),
        ts[k].spec_id() == id,
    ensures
        find_id(ts, id) >= 0,
    decreases ts.len(),
{
    if ts[0].spec_id() != id {
        lemma_find_id_witness(ts.drop_first(), id, k - 1);
    }
}

proof fn lemma_dels_no_id(ps: Seq<Todo>, cs: Seq<Todo>, id: u128)
    requires
        find_id(ps, id) == -1,
    ensures
        count_id(dels(ps, cs), id) == 0,
    decreases ps.len(),
{
    lemma_find_id(ps, id);
    if ps.len() > 0 {
        assert(forall|i: int| 1 <= i < ps.len() ==> ps.drop_first()[i - 1] == #[trigger] ps[i]);
        lemma_find_id(ps.drop_first(), id);
        if find_id(ps.drop_first(), id) >= 0 {
            assert(false);
        }
        lemma_dels_no_id(ps.drop_first(), cs, id);
        let head: Seq<TodoChange> = if find_id(cs, ps[0].spec_id()) == -1 {
            seq![TodoChange { id: ps[0].spec_id(), kind: ChangeKind::Deleted }]
        } else {
            Seq::empty()
        };
        lemma_count_id_concat(head, dels(ps.drop_first(), cs), id);
        assert(count_id(head, id) == 0) by {
            if head.len() > 0 {
                lemma_count_id_single(head[0], id);
                assert(head =~= seq![head[0]]);
            }
        }
    }
}

/// The law of deletions: a task present in the previous snapshot and absent
/// from the current one yields exactly one change entry for its identity,
/// and that entry is Deleted.
pub proof fn lemma_deleted_exactly_once(ps: Seq<Todo>, cs: Seq<Todo>, off: int, id: u128)
    requires
        ids_unique(ps),
        find_id(ps, id) >= 0,
        find_id(cs, id) == -1,
    ensures
        count_id(changes_spec(ps, cs, off), id) == 1,
        forall|j: int|
            0 <= j < changes_spec(ps, cs, off).len() && (#[trigger] changes_spec(ps, cs, off)[j]).id
                == id ==> changes_spec(ps, cs, off)[j].kind == ChangeKind::Deleted,
{
    let a = adds(cs, ps);
    let d = dels(ps, cs);
    let m = mods(ps, cs, off);
    lemma_adds_no_prev_id(cs, ps, id);
    lemma_dels_exactly_once(ps, cs, id);
    lemma_mods_only_curr_ids(ps, cs, off, id);
    lemma_count_id_concat(a, d, id);
    lemma_count_id_concat(a + d, m, id);
    assert(changes_spec(ps, cs, off) =~= (a + d) + m);
    assert(forall|j: int|
        0 <= j < changes_spec(ps, cs, off).len() && (#[trigger] changes_spec(ps, cs, off)[j]).id
            == id ==> changes_spec(ps, cs, off)[j].kind == ChangeKind::Deleted) by {
        lemma_count_id_positional(a, id);
        lemma_count_id_positional(d, id);
        lemma_count_id_positional(m, id);
        assert(forall|j: int| 0 <= j < a.len() ==> changes_spec(ps, cs, off)[j] == #[trigger] a[j]);
        assert(forall|j: int|
            0 <= j < d.len() ==> changes_spec(ps, cs, off)[a.len() + j] == #[trigger] d[j]);
        assert(forall|j: int|
            0 <= j < m.len() ==> changes_spec(ps, cs, off)[a.len() + d.len() + j] == #[trigger] m[j]);
    }
}

/// A list with no entries of an identity has no entry of it at any position.
proof fn lemma_count_id_positional(chs: Seq<TodoChange>, id: u128)
    ensures
        count_id(chs, id) == 0 ==> forall|j: int|
            0 <= j < chs.len() ==> (#[trigger] chs[j]).id != id,
    decreases chs.len(),
{
    if chs.len() > 0 {
        lemma_count_id_positional(chs.drop_first(), id);
        lemma_count_id_nonneg(chs.drop_first(), id);
        assert(forall|j: int|
            1 <= j < chs.len() ==> chs.drop_first()[j - 1] == #[trigger] chs[j]);
    }
}

proof fn lemma_count_id_nonneg(chs: Seq<TodoChange>, id: u128)
    ensures
        count_id(chs, id) >= 0,
    decreases chs.len(),
{
    if chs.len() > 0 {
        lemma_count_id_nonneg(chs.drop_first(), id);
    }
}

} // verus!

verus! {

proof fn lemma_mods_exactly_once(ps: Seq<Todo>, cs: Seq<Todo>, off: int, id: u128)
    requires
        ids_unique(ps),
        find_id(ps, id) >= 0,
        find_id(cs, id) >= 0,
        todos_differ_spec(ps[find_id(ps, id)], cs[find_id(cs, id)]),
    ensures
        count_id(mods(ps, cs, off), id) == 1,
        forall|j: int|
            0 <= j < mods(ps, cs, off).len() && (#[trigger] mods(ps, cs, off)[j]).id == id
                ==> mods(ps, cs, off)[j].kind == common_kind(
                ps[find_id(ps, id)],
                cs[find_id(cs, id)],
                off,
            ),
    decreases ps.len(),
{
    reveal_with_fuel(count_id, 3);
    lemma_find_id(ps, id);
    lemma_find_id(cs, id);
    let k = find_id(cs, ps[0].spec_id());
    let head: Seq<TodoChange> = if k >= 0 && todos_differ_spec(ps[0], cs[k]) {
        seq![TodoChange { id: ps[0].spec_id(), kind: common_kind(ps[0], cs[k], off) }]
    } else {
        Seq::empty()
    };
    let rest = mods(ps.drop_first(), cs, off);
    lemma_count_id_concat(head, rest, id);
    assert(forall|i: int| 1 <= i < ps.len() ==> ps.drop_first()[i - 1] == #[trigger] ps[i]);
    if ps[0].spec_id() == id {
        assert(find_id(ps, id) == 0);
        assert(k == find_id(cs, id));
        assert(head.len() == 1 && head[0].id == id && head[0].kind == common_kind(
            ps[0],
            cs[find_id(cs, id)],
            off,
        ));
        assert(count_id(head, id) == 1) by {
            lemma_count_id_single(head[0], id);
            assert(head =~= seq![head[0]]);
        }
        assert(find_id(ps.drop_first(), id) == -1) by {
            lemma_find_id(ps.drop_first(), id);
            if find_id(ps.drop_first(), id) >= 0 {
                let w = find_id(ps.drop_first(), id);
                assert(ps[w + 1].spec_id() == id);
                assert(ps[0].spec_id() != ps[w + 1].spec_id());
            }
        }
        lemma_mods_only_prev_ids(ps.drop_first(), cs, off, id);
        lemma_count_id_positional(rest, id);
        assert(forall|j: int|
            0 <= j < rest.len() ==> mods(ps, cs, off)[head.len() + j] == #[trigger] rest[j]);
        assert(mods(ps, cs, off)[0] == head[0]);
    } else {
        assert(ids_unique(ps.drop_first())) by {
            assert(forall|a: int, b: int|
                0 <= a < b < ps.len() - 1 ==> (#[trigger] ps.drop_first()[a]).spec_id() != (
                #[trigger] ps.drop_first()[b]).spec_id()) by {
                assert(forall|a: int|
                    0 <= a < ps.len() - 1 ==> ps.drop_first()[a] == #[trigger] ps[a + 1]);
            }
        }
        assert(find_id(ps.drop_first(), id) >= 0) by {
            let w = find_id(ps, id);
            lemma_find_id_witness(ps.drop_first(), id, w - 1);
        }
        assert(ps.drop_first()[find_id(ps.drop_first(), id)] == ps[find_id(ps, id)]) by {
            lemma_find_id(ps.drop_first(), id);
            let w1 = find_id(ps.drop_first(), id);
            let w0 = find_id(ps, id);
            assert(ps[w1 + 1].spec_id() == id);
            if w1 + 1 != w0 {
                assert(ps[w0].spec_id() == ps[w1 + 1].spec_id());
            }
        }
        lemma_mods_exactly_once(ps.drop_first(), cs, off, id);
        assert(count_id(head, id) == 0) by {
            if head.len() > 0 {
                lemma_count_id_single(head[0], id);
                assert(head =~= seq![head[0]]);
            }
        }
        assert(forall|j: int|
            0 <= j < rest.len() ==> mods(ps, cs, off)[head.len() + j] == #[trigger] rest[j]);
        if head.len() > 0 {
            assert(mods(ps, cs, off)[0] == head[0]);
        }
    }
}

proof fn lemma_mods_only_prev_ids(ps: Seq<Todo>, cs: Seq<Todo>, off: int, id: u128)
    requires
        find_id(ps, id) == -1,
    ensures
        count_id(mods(ps, cs, off), id) == 0,
    decreases ps.len(),
{
    lemma_find_id(ps, id);
    if ps.len() > 0 {
        assert(forall|i: int| 1 <= i < ps.len() ==> ps.drop_first()[i - 1] == #[trigger] ps[i]);
        lemma_find_id(ps.drop_first(), id);
        if find_id(ps.drop_first(), id) >= 0 {
            assert(false);
        }
        lemma_mods_only_prev_ids(ps.drop_first(), cs, off, id);
        let k = find_id(cs, ps[0].spec_id());
        let head: Seq<TodoChange> = if k >= 0 && todos_differ_spec(ps[0], cs[k]) {
            seq![TodoChange { id: ps[0].spec_id(), kind: common_kind(ps[0], cs[k], off) }]
        } else {
            Seq::empty()
        };
        lemma_count_id_concat(head, mods(ps.drop_first(), cs, off), id);
        assert(count_id(head, id) == 0) by {
            if head.len() > 0 {
                lemma_count_id_single(head[0], id);
                assert(head =~= seq![head[0]]);
            }
        }
    }
}

proof fn lemma_dels_none_when_present(ps: Seq<Todo>, cs: Seq<Todo>, id: u128)
    requires
        find_id(cs, id) >= 0,
    ensures
        count_id(dels(ps, cs), id) == 0,
    decreases ps.len(),
{
    if ps.len() > 0 {
        lemma_dels_none_when_present(ps.drop_first(), cs, id);
        let head: Seq<TodoChange> = if find_id(cs, ps[0].spec_id()) == -1 {
            seq![TodoChange { id: ps[0].spec_id(), kind: ChangeKind::Deleted }]
        } else {
            Seq::empty()
        };
        lemma_count_id_concat(head, dels(ps.drop_first(), cs), id);
        assert(count_id(head, id) == 0) by {
            if head.len() > 0 {
                lemma_count_id_single(head[0], id);
                assert(head =~= seq![head[0]]);
                if ps[0].spec_id() == id {
                    assert(false);
                }
            }
        }
    }
}

/// The law of rollover classification: a task present in both snapshots
/// whose fields differ yields exactly one change entry, and that entry is
/// Completed exactly when the step passes the completion test (a done flag
/// switched on, or an open recurring task whose due date moved to its
/// computed next occurrence) — otherwise Updated.
pub proof fn lemma_common_task_classified(ps: Seq<Todo>, cs: Seq<Todo>, off: int, id: u128)
    requires
        ids_unique(ps),
        find_id(ps, id) >= 0,
        find_id(cs, id) >= 0,
        todos_differ_spec(ps[find_id(ps, id)], cs[find_id(cs, id)]),
    ensures
        count_id(changes_spec(ps, cs, off), id) == 1,
        forall|j: int|
            0 <= j < changes_spec(ps, cs, off).len() && (#[trigger] changes_spec(ps, cs, off)[j]).id
                == id ==> changes_spec(ps, cs, off)[j].kind == (
            if completion_transition_spec(ps[find_id(ps, id)], cs[find_id(cs, id)], off) {
                ChangeKind::Completed
            } else {
                ChangeKind::Updated
            }),
{
    let a = adds(cs, ps);
    let d = dels(ps, cs);
    let m = mods(ps, cs, off);
    lemma_adds_no_prev_id(cs, ps, id);
    lemma_dels_none_when_present(ps, cs, id);
    lemma_mods_exactly_once(ps, cs, off, id);
    lemma_count_id_concat(a, d, id);
    lemma_count_id_concat(a + d, m, id);
    assert(changes_spec(ps, cs, off) =~= (a + d) + m);
    assert(forall|j: int|
        0 <= j < changes_spec(ps, cs, off).len() && (#[trigger] changes_spec(ps, cs, off)[j]).id
            == id ==> changes_spec(ps, cs, off)[j].kind == common_kind(
            ps[find_id(ps, id)],
            cs[find_id(cs, id)],
            off,
        )) by {
        lemma_count_id_positional(a, id);
        lemma_count_id_positional(d, id);
        assert(forall|j: int| 0 <= j < a.len() ==> changes_spec(ps, cs, off)[j] == #[trigger] a[j]);
        assert(forall|j: int|
            0 <= j < d.len() ==> changes_spec(ps, cs, off)[a.len() + j] == #[trigger] d[j]);
        assert(forall|j: int|
            0 <= j < m.len() ==> changes_spec(ps, cs, off)[a.len() + d.len() + j] == #[trigger] m[j]);
    }
}

} // verus!
