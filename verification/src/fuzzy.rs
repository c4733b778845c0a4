use vstd::prelude::*;

use crate::text::chars_eq_str;
use crate::text::char_to_lower;
use crate::text::lower_char;
use crate::text::string_from_chars;
use crate::text::trim_spec;
use crate::text::trimmed;

verus! {

/// Levenshtein edit distance between two character sequences: the least
/// number of single-character insertions, deletions and substitutions
/// that turn one into the other.
pub open spec fn lev(a: Seq<char>, b: Seq<char>) -> nat
    decreases a.len() + b.len(),
{
    if a.len() == 0 {
        b.len()
    } else if b.len() == 0 {
        a.len()
    } else {
        let del = lev(a.drop_last(), b) + 1;
        let ins = lev(a, b.drop_last()) + 1;
        let sub = lev(a.drop_last(), b.drop_last()) + if a.last() == b.last() {
            0nat
        } else {
            1nat
        };
        if del <= ins && del <= sub {
            del
        } else if ins <= sub {
            ins
        } else {
            sub
        }
    }
}

/// Relies on strsim::levenshtein: it returns the Levenshtein edit distance
/// between the two strings, computed over their characters.
pub assume_specification [ strsim::levenshtein ](a: &str, b: &str) -> (r: usize)
    ensures
        r == lev(a@, b@),
;

/// The denominator of the normalized similarity score.
pub open spec fn max_len(a: Seq<char>, b: Seq<char>) -> int {
    if a.len() >= b.len() {
        a.len() as int
    } else {
        b.len() as int
    }
}

/// Does the candidate score at least the acceptance threshold of 0.72?
/// The score is `1 - distance / max_len`, so this says
/// `distance / max_len <= 7/25`.
pub open spec fn meets_threshold(t: Seq<char>, c: Seq<char>) -> bool {
    25 * lev(t, c) <= 7 * max_len(t, c)
}

/// Does candidate `i` score strictly better than the best seen so far
/// (`bi`, or -1 when none has scored above zero yet)?
pub open spec fn pick_better(t: Seq<char>, vocab: Seq<Seq<char>>, i: int, bi: int) -> bool {
    if bi < 0 {
        lev(t, vocab[i]) < max_len(t, vocab[i])
    } else {
        lev(t, vocab[i]) * max_len(t, vocab[bi]) < lev(t, vocab[bi]) * max_len(t, vocab[i])
    }
}

/// Index of the best-scoring candidate, ties resolved to the first maximum
/// in enumeration order; -1 when no candidate scores above zero.
pub open spec fn fuzzy_pick(t: Seq<char>, vocab: Seq<Seq<char>>, i: int, bi: int) -> int
    decreases vocab.len() - i when 0 <= i <= vocab.len()
{
    if i >= vocab.len() {
        bi
    } else if pick_better(t, vocab, i, bi) {
        fuzzy_pick(t, vocab, i + 1, i)
    } else {
        fuzzy_pick(t, vocab, i + 1, bi)
    }
}

/// Index of the first candidate equal to `t`; -1 when none is.
pub open spec fn first_eq(t: Seq<char>, vocab: Seq<Seq<char>>, i: int) -> int
    decreases vocab.len() - i when 0 <= i <= vocab.len()
{
    if i >= vocab.len() {
        -1
    } else if vocab[i] == t {
        i
    } else {
        first_eq(t, vocab, i + 1)
    }
}

/// The normalization the matcher applies to its input token.
pub open spec fn fm_norm(s: Seq<char>) -> Seq<char> {
    trim_spec(s.map_values(|c: char| lower_char(c)))
}

/// The vocabulary entry the matcher accepts for input `raw`, if any:
/// an exact match wins outright; otherwise the best-scoring entry is
/// accepted when its similarity reaches the threshold, ties resolving
/// to the first maximum in enumeration order.
pub open spec fn fuzzy_spec(raw: Seq<char>, vocab: Seq<Seq<char>>) -> Option<int> {
    let t = fm_norm(raw);
    if t.len() == 0 {
        None
    } else if first_eq(t, vocab, 0) >= 0 {
        Some(first_eq(t, vocab, 0))
    } else {
        let bi = fuzzy_pick(t, vocab, 0, -1);
        if bi >= 0 && meets_threshold(t, vocab[bi]) {
            Some(bi)
        } else {
            None
        }
    }
}

pub proof fn lemma_fuzzy_pick_range(t: Seq<char>, vocab: Seq<Seq<char>>, i: int, bi: int)
    requires
        0 <= i <= vocab.len(),
        -1 <= bi < vocab.len(),
    ensures
        -1 <= fuzzy_pick(t, vocab, i, bi) < vocab.len(),
        bi >= 0 ==> fuzzy_pick(t, vocab, i, bi) >= 0,
    decreases vocab.len() - i,
{
    if i < vocab.len() {
        if pick_better(t, vocab, i, bi) {
            lemma_fuzzy_pick_range(t, vocab, i + 1, i);
        } else {
            lemma_fuzzy_pick_range(t, vocab, i + 1, bi);
        }
    }
}

/// A fuzzy-match result is an index into the vocabulary.
pub proof fn lemma_fuzzy_spec_range(raw: Seq<char>, vocab: Seq<Seq<char>>)
    ensures
        fuzzy_spec(raw, vocab) matches Some(i) ==> 0 <= i < vocab.len(),
{
    let t = fm_norm(raw);
    lemma_first_eq_range(t, vocab, 0);
    if vocab.len() > 0 {
        lemma_fuzzy_pick_range(t, vocab, 0, -1);
    }
}

proof fn lemma_first_eq_range(t: Seq<char>, vocab: Seq<Seq<char>>, i: int)
    requires
        0 <= i <= vocab.len(),
    ensures
        first_eq(t, vocab, i) == -1 || i <= first_eq(t, vocab, i) < vocab.len(),
        first_eq(t, vocab, i) >= 0 ==> vocab[first_eq(t, vocab, i)] == t,
    decreases vocab.len() - i,
{
    if i < vocab.len() && vocab[i] != t {
        lemma_first_eq_range(t, vocab, i + 1);
    }
}

/// Overflow-free comparison of the products `a * b` and `c * d`.
fn mul_lt(a: usize, b: usize, c: usize, d: usize) -> (r: bool)
    ensures
        r == (a * b < c * d),
{
    proof {
        vstd::arithmetic::mul::lemma_mul_upper_bound(
            a as int,
            0xffffffffffffffffint,
            b as int,
            0xffffffffffffffffint,
        );
        vstd::arithmetic::mul::lemma_mul_upper_bound(
            c as int,
            0xffffffffffffffffint,
            d as int,
            0xffffffffffffffffint,
        );
    }
    (a as u128) * (b as u128) < (c as u128) * (d as u128)
}

/// Fuzzy-match a token against an ordered vocabulary: exact match first,
/// then the best candidate by normalized Levenshtein similarity, accepted
/// only at or above the 0.72 threshold, first maximum winning ties. The
/// result is the index of the accepted vocabulary entry.
pub fn fuzzy_match(input: &Vec<char>, choices: &Vec<&str>) -> (r: Option<usize>)
    ensures
        match fuzzy_spec(input@, choices.deep_view()) {
            Some(i) => r == Some(i as usize),
            None => r is None,
        },
{
    let ghost vocab = choices.deep_view();
    proof {
        assert(vocab.len() == choices@.len());
        assert(forall|i: int| 0 <= i < vocab.len() ==> vocab[i] == #[trigger] choices@[i]@);
    }
    // normalize: trim and lower-case
    let mut low: Vec<char> = Vec::new();
    let mut i: usize = 0;
    let n = input.len();
    while i < n
        invariant
            i <= n,
            n == input@.len(),
            low@ == input@.subrange(0, i as int).map_values(|c: char| lower_char(c)),
        decreases n - i,
    {
        low.push(char_to_lower(input[i]));
        proof {
            assert(low@ =~= input@.subrange(0, i as int + 1).map_values(
                |c: char| lower_char(c),
            ));
        }
        i = i + 1;
    }
    proof {
        assert(input@.subrange(0, n as int) =~= input@);
    }
    let t = trimmed(&low);
    if t.len() == 0 {
        return None;
    }
    // exact match wins outright
    let m = choices.len();
    let mut j: usize = 0;
    while j < m
        invariant
            j <= m,
            m == vocab.len(),
            t@ == fm_norm(input@),
            t@.len() != 0,
            forall|k: int| 0 <= k < j ==> vocab[k] != t@,
            vocab =~= choices.deep_view(),
            forall|i: int| 0 <= i < vocab.len() ==> vocab[i] == #[trigger] choices@[i]@,
            first_eq(t@, vocab, 0) == first_eq(t@, vocab, j as int),
        decreases m - j,
    {
        if chars_eq_str(&t, choices[j]) {
            proof {
                assert(vocab[j as int] == t@);
                assert(first_eq(t@, vocab, j as int) == j as int);
                assert(fuzzy_spec(input@, vocab) == Some(j as int));
            }
            return Some(j);
        }
        j = j + 1;
    }
    // best score above the threshold
    let ts = string_from_chars(&t);
    let mut best: Option<usize> = None;
    let mut best_d: usize = 0;
    let mut best_m: usize = 0;
    let mut k: usize = 0;
    while k < m
        invariant
            k <= m,
            m == vocab.len(),
            t@ == fm_norm(input@),
            t@.len() != 0,
            first_eq(t@, vocab, 0) == -1,
            ts@ == t@,
            vocab =~= choices.deep_view(),
            forall|i: int| 0 <= i < vocab.len() ==> vocab[i] == #[trigger] choices@[i]@,
            match best {
                Some(b) => b < k && best_d == lev(t@, vocab[b as int]) && best_m as int == max_len(
                    t@,
                    vocab[b as int],
                ) && fuzzy_pick(t@, vocab, 0, -1) == fuzzy_pick(t@, vocab, k as int, b as int),
                None => fuzzy_pick(t@, vocab, 0, -1) == fuzzy_pick(t@, vocab, k as int, -1),
            },
        decreases m - k,
    {
        let c: &str = choices[k];
        let d = strsim::levenshtein(ts.as_str(), c);
        let cl = c.unicode_len();
        let ml = if t.len() >= cl {
            t.len()
        } else {
            cl
        };
        let is_better: bool = match best {
            None => d < ml,
            Some(_) => mul_lt(d, best_m, best_d, ml),
        };
        proof {
            let bi: int = match best {
                Some(b) => b as int,
                None => -1,
            };
            assert(is_better == pick_better(t@, vocab, k as int, bi));
        }
        if is_better {
            best = Some(k);
            best_d = d;
            best_m = ml;
        }
        k = k + 1;
    }
    match best {
        Some(b) => {
            proof {
                lemma_fuzzy_pick_range(t@, vocab, 0, -1);
            }
            // threshold: 25 * distance <= 7 * max_len
            if !mul_lt(7, best_m, 25, best_d) {
                Some(b)
            } else {
                None
            }
        },
        None => None,
    }
}

} // verus!

verus! {

/// Trim and lower-case a token, as the matcher does internally.
pub fn normalize_token(input: &Vec<char>) -> (r: Vec<char>)
    ensures
        r@ == fm_norm(input@),
{
    let mut low: Vec<char> = Vec::new();
    let mut i: usize = 0;
    let n = input.len();
    while i < n
        invariant
            i <= n,
            n == input@.len(),
            low@ == input@.subrange(0, i as int).map_values(|c: char| lower_char(c)),
        decreases n - i,
    {
        low.push(char_to_lower(input[i]));
        proof {
            assert(low@ =~= input@.subrange(0, i as int + 1).map_values(|c: char| lower_char(c)));
        }
        i = i + 1;
    }
    proof {
        assert(input@.subrange(0, n as int) =~= input@);
    }
    trimmed(&low)
}

} // verus!

verus! {

/// The first equal entry is found at its index.
pub proof fn lemma_first_eq_stable(t: Seq<char>, vocab: Seq<Seq<char>>, k: int)
    requires
        0 <= k < vocab.len(),
        vocab[k] == t,
        forall|j: int| 0 <= j < k ==> vocab[j] != t,
    ensures
        first_eq(t, vocab, 0) == k,
{
    lemma_first_eq_stable_from(t, vocab, 0, k);
}

proof fn lemma_first_eq_stable_from(t: Seq<char>, vocab: Seq<Seq<char>>, i: int, k: int)
    requires
        0 <= i <= k < vocab.len(),
        vocab[k] == t,
        forall|j: int| i <= j < k ==> vocab[j] != t,
    ensures
        first_eq(t, vocab, i) == k,
    decreases k - i,
{
    if i < k {
        lemma_first_eq_stable_from(t, vocab, i + 1, k);
    }
}

/// An exact vocabulary entry is always accepted, at its first index.
pub proof fn lemma_exact_accepted(t: Seq<char>, vocab: Seq<Seq<char>>, k: int)
    requires
        0 <= k < vocab.len(),
        vocab[k] == fm_norm(t),
        fm_norm(t).len() > 0,
        forall|j: int| 0 <= j < k ==> vocab[j] != fm_norm(t),
    ensures
        fuzzy_spec(t, vocab) == Some(k),
{
    lemma_first_eq_stable(fm_norm(t), vocab, k);
}

} // verus!
