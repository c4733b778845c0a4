use vstd::prelude::*;

use crate::diff::ChangeSet;
use crate::storage::lines_spec;
use crate::storage::split_lines;
use crate::text::chars_of;
use crate::text::contains_sub;
use crate::text::has_prefix;
use crate::text::has_sub;
use crate::text::lower_char;
use crate::text::push_dec_usize;
use crate::text::push_str_chars;
use crate::text::push_sub;
use crate::text::string_from_chars;
use crate::text::subvec;
use crate::text::trim_front;
use crate::text::trim_spec;
use crate::text::trimmed;

verus! {

// ---------------------------------------------------------------------------
// GitHub remotes
// ---------------------------------------------------------------------------
/// Position of the first `/` at or after `i`.
pub open spec fn first_slash(s: Seq<char>, i: int) -> int
    decreases s.len() - i when 0 <= i <= s.len()
{
    if i < s.len() && s[i] != '/' {
        first_slash(s, i + 1)
    } else {
        i
    }
}

proof fn lemma_first_slash_stable(s: Seq<char>, start: int, k: int)
    requires
        0 <= start <= k <= s.len(),
        forall|j: int| start <= j < k ==> s[j] != '/',
        k < s.len() ==> s[k] == '/',
    ensures
        first_slash(s, start) == k,
    decreases k - start,
{
    if start < k {
        lemma_first_slash_stable(s, start + 1, k);
    }
}

/// The text with every trailing `.git` removed.
pub open spec fn strip_git_suffix(s: Seq<char>) -> Seq<char>
    decreases s.len(),
{
    if s.len() >= 4 && s.subrange(s.len() - 4, s.len() as int) == ".git"@ {
        strip_git_suffix(s.take(s.len() - 4))
    } else {
        s
    }
}

/// The text with slashes trimmed from both ends.
pub open spec fn trim_slash_front(s: Seq<char>) -> Seq<char>
    decreases s.len(),
{
    if s.len() > 0 && s[0] == '/' {
        trim_slash_front(s.drop_first())
    } else {
        s
    }
}

pub open spec fn trim_slash_back(s: Seq<char>) -> Seq<char>
    decreases s.len(),
{
    if s.len() > 0 && s.last() == '/' {
        trim_slash_back(s.drop_last())
    } else {
        s
    }
}

pub open spec fn trim_slashes(s: Seq<char>) -> Seq<char> {
    trim_slash_back(trim_slash_front(s))
}

/// The owner/repo slug left after stripping any `.git` suffix and outer
/// slashes: accepted only when exactly two non-empty segments remain.
pub open spec fn clean_slug_spec(raw: Seq<char>) -> Option<Seq<char>> {
    let w = trim_slashes(strip_git_suffix(raw));
    let f1 = first_slash(w, 0);
    if f1 >= w.len() || f1 == 0 {
        None
    } else {
        let f2 = first_slash(w, f1 + 1);
        if f2 < w.len() || f2 == f1 + 1 {
            None
        } else {
            Some(w)
        }
    }
}

/// The `owner/repo` slug of a GitHub remote URL in any of the four common
/// shapes, or nothing for other URLs.
pub open spec fn slug_spec(url: Seq<char>) -> Option<Seq<char>> {
    let t = trim_spec(url);
    if t.len() == 0 {
        None
    } else if has_prefix(t, "git@github.com:"@) {
        clean_slug_spec(t.skip(15))
    } else if has_prefix(t, "https://github.com/"@) {
        clean_slug_spec(t.skip(19))
    } else if has_prefix(t, "http://github.com/"@) {
        clean_slug_spec(t.skip(18))
    } else if has_prefix(t, "ssh://git@github.com/"@) {
        clean_slug_spec(t.skip(21))
    } else {
        None
    }
}

/// Extract the two-segment slug from a remote path.
pub fn clean_slug(raw: &str) -> (r: Option<String>)
    ensures
        match r {
            Some(s) => clean_slug_spec(raw@) == Some(s@),
            None => clean_slug_spec(raw@) is None,
        },
{
    let v = chars_of(raw);
    // strip repeated ".git" suffixes
    let mut hi = v.len();
    proof {
        assert(v@.take(hi as int) =~= v@);
    }
    while hi >= 4 && crate::text::range_eq_str(&v, hi - 4, hi, ".git")
        invariant
            hi <= v@.len(),
            strip_git_suffix(v@) == strip_git_suffix(v@.take(hi as int)),
        decreases hi,
    {
        proof {
            let w = v@.take(hi as int);
            assert(w.subrange(w.len() - 4, w.len() as int) =~= v@.subrange(
                hi as int - 4,
                hi as int,
            ));
            assert(w.take(w.len() - 4) =~= v@.take(hi as int - 4));
        }
        hi = hi - 4;
    }
    proof {
        let w = v@.take(hi as int);
        if w.len() >= 4 {
            assert(w.subrange(w.len() - 4, w.len() as int) =~= v@.subrange(
                hi as int - 4,
                hi as int,
            ));
        }
        assert(strip_git_suffix(v@) == v@.take(hi as int));
    }
    let g = subvec(&v, 0, hi);
    proof {
        assert(g@ =~= v@.take(hi as int));
    }
    // trim slashes on both ends
    let n = g.len();
    let mut lo: usize = 0;
    proof {
        assert(g@.skip(0) =~= g@);
    }
    while lo < n && g[lo] == '/'
        invariant
            lo <= n,
            n == g@.len(),
            trim_slash_front(g@) == trim_slash_front(g@.skip(lo as int)),
        decreases n - lo,
    {
        proof {
            assert(g@.skip(lo as int).drop_first() =~= g@.skip(lo as int + 1));
        }
        lo = lo + 1;
    }
    proof {
        assert(trim_slash_front(g@) == g@.skip(lo as int));
    }
    let mut hi2: usize = n;
    proof {
        assert(g@.skip(lo as int).take(hi2 - lo as int) =~= g@.subrange(lo as int, hi2 as int));
    }
    while hi2 > lo && g[hi2 - 1] == '/'
        invariant
            lo <= hi2 <= n,
            n == g@.len(),
            trim_slash_front(g@) == g@.skip(lo as int),
            trim_slash_back(g@.skip(lo as int)) == trim_slash_back(
                g@.subrange(lo as int, hi2 as int),
            ),
        decreases hi2,
    {
        proof {
            let w = g@.subrange(lo as int, hi2 as int);
            assert(w.drop_last() =~= g@.subrange(lo as int, hi2 as int - 1));
        }
        hi2 = hi2 - 1;
    }
    proof {
        let w = g@.subrange(lo as int, hi2 as int);
        assert(trim_slash_back(g@.skip(lo as int)) == w);
        assert(trim_slashes(strip_git_suffix(raw@)) == w);
    }
    let w = subvec(&g, lo, hi2);
    let m = w.len();
    // exactly two non-empty segments
    let mut f1: usize = 0;
    while f1 < m && w[f1] != '/'
        invariant
            f1 <= m,
            m == w@.len(),
            forall|j: int| 0 <= j < f1 ==> w@[j] != '/',
        decreases m - f1,
    {
        f1 = f1 + 1;
    }
    proof {
        lemma_first_slash_stable(w@, 0, f1 as int);
    }
    if f1 >= m || f1 == 0 {
        return None;
    }
    let mut f2: usize = f1 + 1;
    while f2 < m && w[f2] != '/'
        invariant
            f1 + 1 <= f2 <= m,
            m == w@.len(),
            forall|j: int| f1 + 1 <= j < f2 ==> w@[j] != '/',
        decreases m - f2,
    {
        f2 = f2 + 1;
    }
    proof {
        lemma_first_slash_stable(w@, f1 as int + 1, f2 as int);
    }
    if f2 < m || f2 == f1 + 1 {
        return None;
    }
    Some(string_from_chars(&w))
}

/// Parse the `owner/repo` slug of a GitHub remote URL.
pub fn github_repo_slug(remote_url: &str) -> (r: Option<String>)
    ensures
        match r {
            Some(s) => slug_spec(remote_url@) == Some(s@),
            None => slug_spec(remote_url@) is None,
        },
{
    let v = chars_of(remote_url);
    let t = trimmed(&v);
    let n = t.len();
    if n == 0 {
        return None;
    }
    proof {
        reveal_strlit("git@github.com:");
        reveal_strlit("https://github.com/");
        reveal_strlit("http://github.com/");
        reveal_strlit("ssh://git@github.com/");
        if t@.len() >= 15 {
            assert(t@.take(15) =~= t@.subrange(0, 15));
        }
        if t@.len() >= 19 {
            assert(t@.take(19) =~= t@.subrange(0, 19));
        }
        if t@.len() >= 18 {
            assert(t@.take(18) =~= t@.subrange(0, 18));
        }
        if t@.len() >= 21 {
            assert(t@.take(21) =~= t@.subrange(0, 21));
        }
    }
    if n >= 15 && crate::text::range_eq_str(&t, 0, 15, "git@github.com:") {
        let rest = subvec(&t, 15, n);
        proof {
            assert(rest@ =~= t@.skip(15));
        }
        let rs = string_from_chars(&rest);
        return clean_slug(rs.as_str());
    }
    if n >= 19 && crate::text::range_eq_str(&t, 0, 19, "https://github.com/") {
        let rest = subvec(&t, 19, n);
        proof {
            assert(rest@ =~= t@.skip(19));
        }
        let rs = string_from_chars(&rest);
        return clean_slug(rs.as_str());
    }
    if n >= 18 && crate::text::range_eq_str(&t, 0, 18, "http://github.com/") {
        let rest = subvec(&t, 18, n);
        proof {
            assert(rest@ =~= t@.skip(18));
        }
        let rs = string_from_chars(&rest);
        return clean_slug(rs.as_str());
    }
    if n >= 21 && crate::text::range_eq_str(&t, 0, 21, "ssh://git@github.com/") {
        let rest = subvec(&t, 21, n);
        proof {
            assert(rest@ =~= t@.skip(21));
        }
        let rs = string_from_chars(&rest);
        return clean_slug(rs.as_str());
    }
    None
}

// ---------------------------------------------------------------------------
// Commit messages and environment files
// ---------------------------------------------------------------------------
/// The sync commit message: the four tallies and the line-diff summary.
pub open spec fn commit_message_seq(
    added: int,
    updated: int,
    deleted: int,
    completed: int,
    line_summary: Seq<char>,
) -> Seq<char> {
    "sync todos: +"@ + crate::text::dec_seq(added) + " ~"@ + crate::text::dec_seq(updated) + " -"@
        + crate::text::dec_seq(deleted) + " done "@ + crate::text::dec_seq(completed) + " ("@
        + line_summary + ")"@
}

/// Render the commit message for a change set.
pub fn commit_message(change_set: &ChangeSet, line_summary: &str) -> (r: String)
    ensures
        r@ == commit_message_seq(
            change_set.added as int,
            change_set.updated as int,
            change_set.deleted as int,
            change_set.completed as int,
            line_summary@,
        ),
{
    let mut out: Vec<char> = Vec::new();
    push_str_chars(&mut out, "sync todos: +");
    push_dec_usize(&mut out, change_set.added);
    push_str_chars(&mut out, " ~");
    push_dec_usize(&mut out, change_set.updated);
    push_str_chars(&mut out, " -");
    push_dec_usize(&mut out, change_set.deleted);
    push_str_chars(&mut out, " done ");
    push_dec_usize(&mut out, change_set.completed);
    push_str_chars(&mut out, " (");
    push_str_chars(&mut out, line_summary);
    push_str_chars(&mut out, ")");
    proof {
        assert(out@ =~= commit_message_seq(
            change_set.added as int,
            change_set.updated as int,
            change_set.deleted as int,
            change_set.completed as int,
            line_summary@,
        ));
    }
    string_from_chars(&out)
}

/// Does the tool output indicate that the repository does not exist?
pub open spec fn repo_missing_spec(stdout: Seq<char>, stderr: Seq<char>) -> bool {
    let so = stdout.map_values(|c: char| lower_char(c));
    let se = stderr.map_values(|c: char| lower_char(c));
    contains_sub(se, "could not resolve to a repository"@) || contains_sub(se, "not found"@)
        || contains_sub(so, "not found"@)
}

/// Decide from the tool's output whether the repository is missing (as
/// opposed to some other failure).
pub fn repo_view_missing(stdout: &str, stderr: &str) -> (r: bool)
    ensures
        r == repo_missing_spec(stdout@, stderr@),
{
    let so = lower_vec(stdout);
    let se = lower_vec(stderr);
    has_sub(&se, "could not resolve to a repository") || has_sub(&se, "not found") || has_sub(
        &so,
        "not found",
    )
}

/// Lower-cased characters of a string.
fn lower_vec(s: &str) -> (r: Vec<char>)
    ensures
        r@ == s@.map_values(|c: char| lower_char(c)),
{
    let v = chars_of(s);
    let n = v.len();
    let mut out: Vec<char> = Vec::new();
    let mut i: usize = 0;
    while i < n
        invariant
            i <= n,
            n == v@.len(),
            v@ == s@,
            out@ == s@.subrange(0, i as int).map_values(|c: char| lower_char(c)),
        decreases n - i,
    {
        out.push(crate::text::char_to_lower(v[i]));
        proof {
            assert(out@ =~= s@.subrange(0, i as int + 1).map_values(|c: char| lower_char(c)));
        }
        i = i + 1;
    }
    proof {
        assert(s@.subrange(0, n as int) =~= s@);
    }
    out
}

} // verus!

verus! {

// ---------------------------------------------------------------------------
// Environment files
// ---------------------------------------------------------------------------
/// Position of the first `=` at or after `i`.
pub open spec fn first_eq_pos(s: Seq<char>, i: int) -> int
    decreases s.len() - i when 0 <= i <= s.len()
{
    if i < s.len() && s[i] != '=' {
        first_eq_pos(s, i + 1)
    } else {
        i
    }
}

proof fn lemma_first_eq_pos_stable(s: Seq<char>, start: int, k: int)
    requires
        0 <= start <= k <= s.len(),
        forall|j: int| start <= j < k ==> s[j] != '=',
        k < s.len() ==> s[k] == '=',
    ensures
        first_eq_pos(s, start) == k,
    decreases k - start,
{
    if start < k {
        lemma_first_eq_pos_stable(s, start + 1, k);
    }
}

/// The assignment line for a key and value.
pub open spec fn env_assign(key: Seq<char>, value: Seq<char>) -> Seq<char> {
    key + "="@ + value
}

/// Does the line assign to this key (not a comment, has `=`, left side
/// trims to the key)?
pub open spec fn env_line_matches(l: Seq<char>, key: Seq<char>) -> bool {
    &&& !has_prefix(trim_front(l), "#"@)
    &&& first_eq_pos(l, 0) < l.len()
    &&& trim_spec(l.take(first_eq_pos(l, 0))) == key
}

/// One line of the rewritten file: comments and other keys kept, every
/// assignment to the key replaced.
pub open spec fn env_line_out(l: Seq<char>, key: Seq<char>, value: Seq<char>) -> Seq<char> {
    if env_line_matches(l, key) {
        env_assign(key, value)
    } else {
        l
    }
}

pub open spec fn env_map(ls: Seq<Seq<char>>, key: Seq<char>, value: Seq<char>) -> Seq<Seq<char>> {
    ls.map_values(|l: Seq<char>| env_line_out(l, key, value))
}

pub open spec fn env_any_match(ls: Seq<Seq<char>>, key: Seq<char>) -> bool {
    exists|i: int| 0 <= i < ls.len() && env_line_matches(#[trigger] ls[i], key)
}

/// Lines joined by line breaks.
pub open spec fn join_nl(ls: Seq<Seq<char>>) -> Seq<char>
    decreases ls.len(),
{
    if ls.len() == 0 {
        Seq::empty()
    } else if ls.len() == 1 {
        ls[0]
    } else {
        ls[0] + "\n"@ + join_nl(ls.drop_first())
    }
}

/// The rewritten environment file: every assignment to the key replaced,
/// the assignment appended when no line carried it, and a final line break
/// unless the result is empty.
pub open spec fn upsert_env_spec(existing: Seq<char>, key: Seq<char>, value: Seq<char>) -> Seq<
    char,
> {
    let ls = lines_spec(existing);
    let mapped = env_map(ls, key, value);
    let out = if env_any_match(ls, key) {
        mapped
    } else {
        mapped.push(env_assign(key, value))
    };
    let j = join_nl(out);
    if j.len() == 0 {
        j
    } else {
        j + "\n"@
    }
}

/// Set `key=value` in the text of an environment file, replacing existing
/// assignments of the key and keeping everything else as it stands.
pub fn upsert_env_line(existing: &str, key: &str, value: &str) -> (r: String)
    ensures
        r@ == upsert_env_spec(existing@, key@, value@),
{
    let v = chars_of(existing);
    let ls = split_lines(&v);
    let ghost lsv = lines_spec(existing@);
    let n = ls.len();
    let mut out_lines: Vec<Vec<char>> = Vec::new();
    let mut found: bool = false;
    let mut i: usize = 0;
    while i < n
        invariant
            i <= n,
            n == ls@.len(),
            ls.deep_view() == lsv,
            out_lines.deep_view() == env_map(lsv.take(i as int), key@, value@),
            found == env_any_match(lsv.take(i as int), key@),
        decreases n - i,
    {
        let line = &ls[i];
        proof {
            assert(ls.deep_view()[i as int] == ls@[i as int]@);
        }
        let matches_key = env_line_is_key(line, key);
        let out_line: Vec<char> = if matches_key {
            let mut a: Vec<char> = Vec::new();
            crate::text::push_str_chars(&mut a, key);
            crate::text::push_str_chars(&mut a, "=");
            crate::text::push_str_chars(&mut a, value);
            proof {
                assert(a@ =~= env_assign(key@, value@));
            }
            found = true;
            a
        } else {
            subvec(line, 0, line.len())
        };
        proof {
            if !matches_key {
                assert(out_line@ =~= lsv[i as int]);
            }
            assert(out_line@ == env_line_out(lsv[i as int], key@, value@));
        }
        let ghost pre = out_lines.deep_view();
        out_lines.push(out_line);
        proof {
            assert(out_lines.deep_view() =~= pre.push(out_line@)) by {
                assert(forall|q: int|
                    0 <= q < pre.len() ==> out_lines.deep_view()[q] == #[trigger] pre[q]);
                assert(out_lines.deep_view()[pre.len() as int] == out_line@);
            }
            assert(lsv.take(i as int).push(lsv[i as int]) =~= lsv.take(i + 1));
            assert(env_map(lsv.take(i + 1), key@, value@) =~= env_map(
                lsv.take(i as int),
                key@,
                value@,
            ).push(env_line_out(lsv[i as int], key@, value@)));
            assert(env_any_match(lsv.take(i + 1), key@) == (env_any_match(lsv.take(i as int), key@)
                || env_line_matches(lsv[i as int], key@))) by {
                if env_any_match(lsv.take(i as int), key@) {
                    let w = choose|w: int|
                        0 <= w < i && env_line_matches(#[trigger] lsv.take(i as int)[w], key@);
                    assert(env_line_matches(lsv.take(i + 1)[w], key@));
                }
                if env_line_matches(lsv[i as int], key@) {
                    assert(env_line_matches(lsv.take(i + 1)[i as int], key@));
                }
                if env_any_match(lsv.take(i + 1), key@) {
                    let w = choose|w: int|
                        0 <= w < i + 1 && env_line_matches(#[trigger] lsv.take(i + 1)[w], key@);
                    if w < i {
                        assert(env_line_matches(lsv.take(i as int)[w], key@));
                    }
                }
            }
        }
        i = i + 1;
    }
    proof {
        assert(lsv.take(n as int) =~= lsv);
    }
    if !found {
        let mut a: Vec<char> = Vec::new();
        crate::text::push_str_chars(&mut a, key);
        crate::text::push_str_chars(&mut a, "=");
        crate::text::push_str_chars(&mut a, value);
        proof {
            assert(a@ =~= env_assign(key@, value@));
        }
        let ghost pre = out_lines.deep_view();
        out_lines.push(a);
        proof {
            assert(out_lines.deep_view() =~= pre.push(env_assign(key@, value@))) by {
                assert(forall|q: int|
                    0 <= q < pre.len() ==> out_lines.deep_view()[q] == #[trigger] pre[q]);
                assert(out_lines.deep_view()[pre.len() as int] == a@);
            }
        }
    }
    // join the lines
    let m = out_lines.len();
    let ghost outv = out_lines.deep_view();
    let mut out: Vec<char> = Vec::new();
    let mut i: usize = 0;
    while i < m
        invariant
            i <= m,
            m == out_lines@.len(),
            out_lines.deep_view() == outv,
            i == 0 ==> out@.len() == 0,
            i >= 1 ==> join_nl(outv) == out@ + join_tail(outv.skip(i as int)),
        decreases m - i,
    {
        let ghost pre = out@;
        if i > 0 {
            out.push('\n');
        }
        crate::text::push_sub(&mut out, &out_lines[i], 0, out_lines[i].len());
        proof {
            reveal_strlit("\n");
            assert(out_lines[i as int]@.subrange(0, out_lines[i as int]@.len() as int)
                =~= outv[i as int]);
            lemma_join_step(outv, i as int);
            if i == 0 {
                assert(out@ =~= outv[0]);
                assert(join_nl(outv) == outv[0] + join_tail(outv.skip(1)));
            } else {
                assert(out@ =~= pre + ("\n"@ + outv[i as int]));
                assert(join_tail(outv.skip(i as int)) == "\n"@ + outv[i as int] + join_tail(
                    outv.skip(i + 1),
                ));
                assert(pre + ("\n"@ + outv[i as int]) + join_tail(outv.skip(i + 1)) =~= pre
                    + join_tail(outv.skip(i as int)));
            }
        }
        i = i + 1;
    }
    proof {
        if m == 0 {
            assert(join_nl(outv) =~= Seq::<char>::empty());
        } else {
            assert(outv.skip(m as int).len() == 0);
            assert(join_tail(outv.skip(m as int)) =~= Seq::<char>::empty());
            assert(out@ + join_tail(outv.skip(m as int)) =~= out@);
        }
    }
    if out.len() == 0 {
        string_from_chars(&out)
    } else {
        out.push('\n');
        proof {
            reveal_strlit("\n");
            assert(out@ =~= join_nl(outv) + "\n"@);
        }
        string_from_chars(&out)
    }
}

/// The joined remainder, each line preceded by a break.
pub open spec fn join_tail(ls: Seq<Seq<char>>) -> Seq<char>
    decreases ls.len(),
{
    if ls.len() == 0 {
        Seq::empty()
    } else {
        "\n"@ + ls[0] + join_tail(ls.drop_first())
    }
}

/// The two join forms agree step by step.
pub proof fn lemma_join_parts(ls: Seq<Seq<char>>, i: int)
    requires
        0 <= i < ls.len(),
    ensures
        i == 0 ==> join_nl(ls) == ls[0] + join_tail(ls.skip(1)),
        i >= 1 ==> join_tail(ls.skip(i)) == "\n"@ + ls[i] + join_tail(ls.skip(i + 1)),
{
    lemma_join_step(ls, i);
}

proof fn lemma_join_step(ls: Seq<Seq<char>>, i: int)
    requires
        0 <= i < ls.len(),
    ensures
        i == 0 ==> join_nl(ls) == ls[0] + join_tail(ls.skip(1)),
        i >= 1 ==> join_tail(ls.skip(i)) == "\n"@ + ls[i] + join_tail(ls.skip(i + 1)),
    decreases ls.len() + i,
{
    if i == 0 {
        lemma_join_nl_tail(ls);
    } else {
        assert(ls.skip(i).drop_first() =~= ls.skip(i + 1));
        assert(ls.skip(i)[0] == ls[i]);
    }
}

proof fn lemma_join_nl_tail(ls: Seq<Seq<char>>)
    requires
        ls.len() >= 1,
    ensures
        join_nl(ls) == ls[0] + join_tail(ls.skip(1)),
    decreases ls.len(),
{
    if ls.len() == 1 {
        assert(ls.skip(1).len() == 0);
        assert(ls[0] + join_tail(ls.skip(1)) =~= ls[0]);
    } else {
        assert(ls.drop_first() =~= ls.skip(1));
        lemma_join_nl_tail(ls.skip(1));
        assert(ls.skip(1).skip(1) =~= ls.skip(2));
        assert(ls[0] + "\n"@ + join_nl(ls.skip(1)) =~= ls[0] + ("\n"@ + (ls.skip(1)[0] + join_tail(
            ls.skip(1).skip(1),
        ))));
        assert(ls[0] + join_tail(ls.skip(1)) =~= ls[0] + ("\n"@ + (ls.skip(1)[0] + join_tail(
            ls.skip(2),
        ))));
    }
}

/// Does the line assign to the key?
fn env_line_is_key(l: &Vec<char>, key: &str) -> (r: bool)
    ensures
        r == env_line_matches(l@, key@),
{
    let n = l.len();
    // a comment line never matches
    let mut i: usize = 0;
    proof {
        assert(l@.skip(0) =~= l@);
    }
    while i < n && crate::text::char_is_space(l[i])
        invariant
            i <= n,
            n == l@.len(),
            trim_front(l@) == trim_front(l@.skip(i as int)),
        decreases n - i,
    {
        proof {
            assert(l@.skip(i as int).drop_first() =~= l@.skip(i as int + 1));
        }
        i = i + 1;
    }
    proof {
        assert(trim_front(l@) == l@.skip(i as int));
        reveal_strlit("#");
    }
    if i < n && l[i] == '#' {
        proof {
            assert(trim_front(l@).take(1) =~= seq![l@[i as int]]);
            assert(seq![l@[i as int]] =~= "#"@);
        }
        return false;
    }
    proof {
        if trim_front(l@).len() >= 1 {
            assert(trim_front(l@).take(1) =~= seq![l@[i as int]]);
            if has_prefix(trim_front(l@), "#"@) {
                assert(l@[i as int] == "#"@[0]);
            }
        }
    }
    // find the first `=`
    let mut e: usize = 0;
    while e < n && l[e] != '='
        invariant
            e <= n,
            n == l@.len(),
            forall|j: int| 0 <= j < e ==> l@[j] != '=',
        decreases n - e,
    {
        e = e + 1;
    }
    proof {
        lemma_first_eq_pos_stable(l@, 0, e as int);
    }
    if e >= n {
        return false;
    }
    let lhs = subvec(l, 0, e);
    let lhs_trimmed = trimmed(&lhs);
    proof {
        assert(lhs@ =~= l@.take(e as int));
    }
    crate::text::chars_eq_str(&lhs_trimmed, key)
}

} // verus!
