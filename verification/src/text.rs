use vstd::prelude::*;

verus! {

// ---------------------------------------------------------------------------
// Character classes
// ---------------------------------------------------------------------------
/// Whitespace as the tokenizer understands it: the Unicode characters with
/// the White_Space property, the set `char::is_whitespace` recognizes.
pub open spec fn is_space(c: char) -> bool {
    ||| c == ' '
    ||| c == '\t'
    ||| c == '\n'
    ||| c == '\r'
    ||| c == '\u{b}'
    ||| c == '\u{c}'
    ||| c == '\u{85}'
    ||| c == '\u{a0}'
    ||| c == '\u{1680}'
    ||| ('\u{2000}' <= c && c <= '\u{200a}')
    ||| c == '\u{2028}'
    ||| c == '\u{2029}'
    ||| c == '\u{202f}'
    ||| c == '\u{205f}'
    ||| c == '\u{3000}'
}

pub fn char_is_space(c: char) -> (r: bool)
    ensures
        r == is_space(c),
{
    c == ' ' || c == '\t' || c == '\n' || c == '\r' || c == '\u{b}' || c == '\u{c}' || c
        == '\u{85}' || c == '\u{a0}' || c == '\u{1680}' || ('\u{2000}' <= c && c <= '\u{200a}')
        || c == '\u{2028}' || c == '\u{2029}' || c == '\u{202f}' || c == '\u{205f}' || c
        == '\u{3000}'
}

pub open spec fn is_digit(c: char) -> bool {
    '0' <= c && c <= '9'
}

pub fn char_is_digit(c: char) -> (r: bool)
    ensures
        r == is_digit(c),
{
    '0' <= c && c <= '9'
}

pub open spec fn digit_val(c: char) -> int {
    c as int - '0' as int
}

/// Lower-case ASCII letter.
pub open spec fn is_lower_alpha(c: char) -> bool {
    'a' <= c && c <= 'z'
}

pub fn char_is_lower_alpha(c: char) -> (r: bool)
    ensures
        r == is_lower_alpha(c),
{
    'a' <= c && c <= 'z'
}

/// A word character: ASCII letter, digit or underscore.
pub open spec fn is_word_char(c: char) -> bool {
    is_digit(c) || is_lower_alpha(c) || ('A' <= c && c <= 'Z') || c == '_'
}

pub fn char_is_word(c: char) -> (r: bool)
    ensures
        r == is_word_char(c),
{
    char_is_digit(c) || char_is_lower_alpha(c) || ('A' <= c && c <= 'Z') || c == '_'
}

pub open spec fn is_hex_digit(c: char) -> bool {
    is_digit(c) || ('a' <= c && c <= 'f') || ('A' <= c && c <= 'F')
}

pub fn char_is_hex_digit(c: char) -> (r: bool)
    ensures
        r == is_hex_digit(c),
{
    char_is_digit(c) || ('a' <= c && c <= 'f') || ('A' <= c && c <= 'F')
}

pub open spec fn hex_val(c: char) -> int {
    if is_digit(c) {
        c as int - '0' as int
    } else if 'a' <= c && c <= 'f' {
        c as int - 'a' as int + 10
    } else {
        c as int - 'A' as int + 10
    }
}

pub fn char_hex_val(c: char) -> (r: u8)
    requires
        is_hex_digit(c),
    ensures
        r as int == hex_val(c),
        r < 16,
{
    if char_is_digit(c) {
        (c as u8) - ('0' as u8)
    } else if 'a' <= c && c <= 'f' {
        (c as u8) - ('a' as u8) + 10
    } else {
        (c as u8) - ('A' as u8) + 10
    }
}

/// ASCII lower-casing of one character; everything but 'A'..'Z' is unchanged.
pub open spec fn lower_char(c: char) -> char {
    if 'A' <= c && c <= 'Z' {
        (c as int + 32) as char
    } else {
        c
    }
}

pub fn char_to_lower(c: char) -> (r: char)
    ensures
        r == lower_char(c),
{
    if 'A' <= c && c <= 'Z' {
        ((c as u8) + 32) as char
    } else {
        c
    }
}

// ---------------------------------------------------------------------------
// String <-> character vector
// ---------------------------------------------------------------------------
/// The characters of a string slice, in order.
pub fn chars_of(s: &str) -> (r: Vec<char>)
    ensures
        r@ == s@,
{
    let n = s.unicode_len();
    let mut v: Vec<char> = Vec::new();
    let mut i: usize = 0;
    while i < n
        invariant
            i <= n,
            n == s@.len(),
            v@ == s@.subrange(0, i as int),
        decreases n - i,
    {
        v.push(s.get_char(i));
        proof {
            assert(v@ =~= s@.subrange(0, i as int + 1));
        }
        i = i + 1;
    }
    proof {
        assert(v@ =~= s@);
    }
    v
}

/// Relies on `String`'s `FromIterator<char>` impl: collecting the characters
/// of the vector yields the string with exactly those characters.
#[verifier::external_body]
pub fn string_from_chars(v: &Vec<char>) -> (r: String)
    ensures
        r@ == v@,
{
    v.iter().collect()
}

/// Append the characters of a literal to an output buffer.
pub fn push_str_chars(out: &mut Vec<char>, lit: &str)
    ensures
        final(out)@ == old(out)@ + lit@,
{
    let n = lit.unicode_len();
    let mut i: usize = 0;
    while i < n
        invariant
            i <= n,
            n == lit@.len(),
            out@ == old(out)@ + lit@.subrange(0, i as int),
        decreases n - i,
    {
        out.push(lit.get_char(i));
        proof {
            assert(out@ =~= old(out)@ + lit@.subrange(0, i as int + 1));
        }
        i = i + 1;
    }
    proof {
        assert(out@ =~= old(out)@ + lit@);
    }
}

/// Do the characters `v[from..to]` spell exactly the literal `lit`?
pub fn range_eq_str(v: &Vec<char>, from: usize, to: usize, lit: &str) -> (r: bool)
    requires
        from <= to <= v@.len(),
    ensures
        r == (v@.subrange(from as int, to as int) == lit@),
{
    let n = lit.unicode_len();
    if to - from != n {
        proof {
            assert(v@.subrange(from as int, to as int).len() != lit@.len());
        }
        return false;
    }
    let mut i: usize = 0;
    while i < n
        invariant
            i <= n,
            n == lit@.len(),
            from <= to <= v@.len(),
            to - from == n,
            forall|j: int| 0 <= j < i ==> v@[from + j] == lit@[j],
        decreases n - i,
    {
        if v[from + i] != lit.get_char(i) {
            proof {
                assert(v@.subrange(from as int, to as int)[i as int] != lit@[i as int]);
            }
            return false;
        }
        i = i + 1;
    }
    proof {
        assert(v@.subrange(from as int, to as int) =~= lit@);
    }
    true
}

/// Does the character sequence of `v` equal the literal?
pub fn chars_eq_str(v: &Vec<char>, lit: &str) -> (r: bool)
    ensures
        r == (v@ == lit@),
{
    proof {
        assert(v@.subrange(0, v@.len() as int) =~= v@);
    }
    range_eq_str(v, 0, v.len(), lit)
}

// ---------------------------------------------------------------------------
// Trimming
// ---------------------------------------------------------------------------
/// Leading whitespace removed.
pub open spec fn trim_front(s: Seq<char>) -> Seq<char>
    decreases s.len(),
{
    if s.len() > 0 && is_space(s[0]) {
        trim_front(s.drop_first())
    } else {
        s
    }
}

/// Trailing whitespace removed.
pub open spec fn trim_back(s: Seq<char>) -> Seq<char>
    decreases s.len(),
{
    if s.len() > 0 && is_space(s.last()) {
        trim_back(s.drop_last())
    } else {
        s
    }
}

/// Whitespace removed on both ends.
pub open spec fn trim_spec(s: Seq<char>) -> Seq<char> {
    trim_back(trim_front(s))
}

proof fn lemma_trim_front_subrange(s: Seq<char>, lo: int)
    requires
        0 <= lo < s.len(),
        is_space(s[lo]),
        forall|j: int| 0 <= j < lo ==> is_space(s[j]),
    ensures
        trim_front(s) == trim_front(s.subrange(lo + 1, s.len() as int)),
    decreases lo,
{
    if lo == 0 {
        assert(s.drop_first() =~= s.subrange(1, s.len() as int));
    } else {
        assert(s.drop_first() =~= s.subrange(1, s.len() as int));
        let t = s.subrange(1, s.len() as int);
        lemma_trim_front_subrange(t, lo - 1);
        assert(t.subrange(lo, t.len() as int) =~= s.subrange(lo + 1, s.len() as int));
    }
}

proof fn lemma_trim_back_subrange(s: Seq<char>, hi: int)
    requires
        0 <= hi < s.len(),
        is_space(s[hi]),
        forall|j: int| hi < j < s.len() ==> is_space(s[j]),
    ensures
        trim_back(s) == trim_back(s.subrange(0, hi)),
    decreases s.len() - hi,
{
    if hi == s.len() - 1 {
        assert(s.drop_last() =~= s.subrange(0, hi));
    } else {
        assert(s.drop_last() =~= s.subrange(0, s.len() - 1));
        let t = s.subrange(0, s.len() - 1);
        lemma_trim_back_subrange(t, hi);
        assert(t.subrange(0, hi) =~= s.subrange(0, hi));
    }
}

/// The characters of `v` with whitespace trimmed from both ends.
pub fn trimmed(v: &Vec<char>) -> (r: Vec<char>)
    ensures
        r@ == trim_spec(v@),
{
    let n = v.len();
    proof {
        assert(v@.subrange(0, n as int) =~= v@);
    }
    let mut lo: usize = 0;
    while lo < n && char_is_space(v[lo])
        invariant
            lo <= n,
            n == v@.len(),
            forall|j: int| 0 <= j < lo ==> is_space(v@[j]),
            trim_front(v@) == trim_front(v@.subrange(lo as int, n as int)),
        decreases n - lo,
    {
        proof {
            lemma_trim_front_subrange(v@.subrange(lo as int, n as int), 0);
            assert(v@.subrange(lo as int, n as int).subrange(1, (n - lo) as int) =~= v@.subrange(
                lo as int + 1,
                n as int,
            ));
        }
        lo = lo + 1;
    }
    let mut hi: usize = n;
    while hi > lo && char_is_space(v[hi - 1])
        invariant
            lo <= hi <= n,
            n == v@.len(),
            lo < n ==> !is_space(v@[lo as int]),
            lo == n ==> hi == lo,
            trim_front(v@) == trim_front(v@.subrange(lo as int, n as int)),
            trim_back(v@.subrange(lo as int, n as int)) == trim_back(
                v@.subrange(lo as int, hi as int),
            ),
        decreases hi,
    {
        proof {
            lemma_trim_back_subrange(v@.subrange(lo as int, hi as int), hi - lo - 1);
            assert(v@.subrange(lo as int, hi as int).subrange(0, (hi - lo - 1) as int)
                =~= v@.subrange(lo as int, hi as int - 1));
        }
        hi = hi - 1;
    }
    let mut r: Vec<char> = Vec::new();
    let mut i: usize = lo;
    while i < hi
        invariant
            lo <= i <= hi <= n,
            n == v@.len(),
            r@ == v@.subrange(lo as int, i as int),
        decreases hi - i,
    {
        r.push(v[i]);
        proof {
            assert(r@ =~= v@.subrange(lo as int, i as int + 1));
        }
        i = i + 1;
    }
    proof {
        // the remaining middle part neither starts nor ends with a space
        let mid = v@.subrange(lo as int, hi as int);
        if mid.len() > 0 {
            assert(!is_space(mid[0]));
            assert(!is_space(mid.last()));
        }
        assert(trim_front(v@.subrange(lo as int, n as int)) == v@.subrange(lo as int, n as int))
            by {
            if lo < n {
                assert(!is_space(v@.subrange(lo as int, n as int)[0]));
            }
        }
        assert(trim_back(mid) == mid);
        assert(trim_spec(v@) == trim_back(v@.subrange(lo as int, n as int)));
    }
    r
}

} // verus!

verus! {

// ---------------------------------------------------------------------------
// Decimal numbers
// ---------------------------------------------------------------------------
pub open spec fn digit_char(n: int) -> char {
    ('0' as int + n) as char
}

/// Decimal digits of `n`, without leading zeros (a single zero for 0).
pub open spec fn dec_seq(n: int) -> Seq<char>
    decreases n,
{
    if n < 10 {
        seq![digit_char(n)]
    } else {
        dec_seq(n / 10).push(digit_char(n % 10))
    }
}

/// `n` as exactly two decimal digits (for 0 <= n < 100).
pub open spec fn dec2(n: int) -> Seq<char> {
    seq![digit_char(n / 10), digit_char(n % 10)]
}

/// `n` as exactly four decimal digits (for 0 <= n < 10000).
pub open spec fn dec4(n: int) -> Seq<char> {
    seq![
        digit_char(n / 1000),
        digit_char((n / 100) % 10),
        digit_char((n / 10) % 10),
        digit_char(n % 10),
    ]
}

/// Numeric value of a digit string, most significant digit first.
pub open spec fn dec_val(s: Seq<char>) -> int
    decreases s.len(),
{
    if s.len() == 0 {
        0
    } else {
        dec_val(s.drop_last()) * 10 + digit_val(s.last())
    }
}

pub open spec fn all_digits(s: Seq<char>) -> bool {
    forall|i: int| 0 <= i < s.len() ==> is_digit(#[trigger] s[i])
}

pub fn push_digit(out: &mut Vec<char>, d: u32)
    requires
        d < 10,
    ensures
        final(out)@ == old(out)@.push(digit_char(d as int)),
{
    let c: char = ((d as u8) + 48) as char;
    proof {
        assert(c == digit_char(d as int));
    }
    out.push(c);
}

pub fn push_dec_u32(out: &mut Vec<char>, n: u32)
    ensures
        final(out)@ == old(out)@ + dec_seq(n as int),
    decreases n,
{
    if n < 10 {
        push_digit(out, n);
        proof {
            assert(old(out)@.push(digit_char(n as int)) =~= old(out)@ + dec_seq(n as int));
        }
    } else {
        push_dec_u32(out, n / 10);
        push_digit(out, n % 10);
        proof {
            assert((old(out)@ + dec_seq(n as int / 10)).push(digit_char(n as int % 10))
                =~= old(out)@ + dec_seq(n as int));
        }
    }
}

pub fn push_dec2(out: &mut Vec<char>, n: u32)
    requires
        n < 100,
    ensures
        final(out)@ == old(out)@ + dec2(n as int),
{
    push_digit(out, n / 10);
    push_digit(out, n % 10);
    proof {
        assert(old(out)@.push(digit_char(n as int / 10)).push(digit_char(n as int % 10))
            =~= old(out)@ + dec2(n as int));
    }
}

pub fn push_dec4(out: &mut Vec<char>, n: u32)
    requires
        n < 10000,
    ensures
        final(out)@ == old(out)@ + dec4(n as int),
{
    push_digit(out, n / 1000);
    push_digit(out, (n / 100) % 10);
    push_digit(out, (n / 10) % 10);
    push_digit(out, n % 10);
    proof {
        assert(old(out)@.push(digit_char(n as int / 1000)).push(
            digit_char((n as int / 100) % 10),
        ).push(digit_char((n as int / 10) % 10)).push(digit_char(n as int % 10)) =~= old(out)@
            + dec4(n as int));
    }
}

pub proof fn lemma_digit_char_val(k: int)
    requires
        0 <= k <= 9,
    ensures
        is_digit(digit_char(k)),
        digit_val(digit_char(k)) == k,
{
}

pub proof fn lemma_dec_val_dec2(n: int)
    requires
        0 <= n < 100,
    ensures
        dec_val(dec2(n)) == n,
        all_digits(dec2(n)),
        dec2(n).len() == 2,
{
    reveal_with_fuel(dec_val, 3);
    lemma_digit_char_val(n / 10);
    lemma_digit_char_val(n % 10);
    let s = dec2(n);
    assert(s.drop_last() =~= seq![digit_char(n / 10)]);
    assert(seq![digit_char(n / 10)].drop_last() =~= Seq::<char>::empty());
    assert(dec_val(seq![digit_char(n / 10)]) == n / 10);
    assert(dec_val(s) == (n / 10) * 10 + n % 10);
    assert(forall|i: int| 0 <= i < 2 ==> is_digit(#[trigger] s[i]));
}

pub proof fn lemma_dec_val_dec4(n: int)
    requires
        0 <= n < 10000,
    ensures
        dec_val(dec4(n)) == n,
        all_digits(dec4(n)),
        dec4(n).len() == 4,
{
    reveal_with_fuel(dec_val, 5);
    lemma_digit_char_val(n / 1000);
    lemma_digit_char_val((n / 100) % 10);
    lemma_digit_char_val((n / 10) % 10);
    lemma_digit_char_val(n % 10);
    let s = dec4(n);
    let s3 = seq![digit_char(n / 1000), digit_char((n / 100) % 10), digit_char((n / 10) % 10)];
    let s2 = seq![digit_char(n / 1000), digit_char((n / 100) % 10)];
    let s1 = seq![digit_char(n / 1000)];
    assert(s.drop_last() =~= s3);
    assert(s3.drop_last() =~= s2);
    assert(s2.drop_last() =~= s1);
    assert(s1.drop_last() =~= Seq::<char>::empty());
    assert(dec_val(s1) == n / 1000);
    assert(dec_val(s2) == (n / 1000) * 10 + (n / 100) % 10);
    assert(dec_val(s3) == dec_val(s2) * 10 + (n / 10) % 10);
    assert(dec_val(s) == dec_val(s3) * 10 + n % 10);
    assert(((n / 1000) * 10 + (n / 100) % 10) * 100 + ((n / 10) % 10) * 10 + n % 10 == n) by (nonlinear_arith)
        requires 0 <= n < 10000;
    assert(forall|i: int| 0 <= i < 4 ==> is_digit(#[trigger] s[i]));
}

pub open spec fn pow10(k: int) -> int
    decreases k,
{
    if k <= 0 {
        1
    } else {
        10 * pow10(k - 1)
    }
}

pub proof fn lemma_dec_val_bound(s: Seq<char>)
    requires
        all_digits(s),
    ensures
        0 <= dec_val(s) < pow10(s.len() as int),
    decreases s.len(),
{
    if s.len() > 0 {
        assert(all_digits(s.drop_last())) by {
            assert(forall|i: int|
                0 <= i < s.len() - 1 ==> is_digit(#[trigger] s.drop_last()[i]) == is_digit(s[i]));
        }
        lemma_dec_val_bound(s.drop_last());
        assert(is_digit(s.last()));
    }
}

/// Numeric value of the decimal digits `v[from..to]`.
pub fn parse_dec_range(v: &Vec<char>, from: usize, to: usize) -> (r: u32)
    requires
        from <= to <= v@.len(),
        to - from <= 9,
        all_digits(v@.subrange(from as int, to as int)),
    ensures
        r as int == dec_val(v@.subrange(from as int, to as int)),
{
    proof {
        lemma_dec_val_bound(v@.subrange(from as int, to as int));
    }
    let mut acc: u32 = 0;
    let mut i: usize = from;
    while i < to
        invariant
            from <= i <= to <= v@.len(),
            to - from <= 9,
            all_digits(v@.subrange(from as int, to as int)),
            acc as int == dec_val(v@.subrange(from as int, i as int)),
        decreases to - i,
    {
        proof {
            lemma_dec_val_bound(v@.subrange(from as int, i as int));
            assert(all_digits(v@.subrange(from as int, i as int))) by {
                assert(forall|j: int|
                    0 <= j < i - from ==> v@.subrange(from as int, i as int)[j]
                        == v@.subrange(from as int, to as int)[j]);
            }
            assert(pow10((i - from) as int) <= pow10(8)) by {
                lemma_pow10_mono((i - from) as int, 8);
            }
            assert(pow10(8) == 100000000) by {
                reveal_with_fuel(pow10, 9);
            }
            assert(is_digit(v@[i as int])) by {
                assert(v@.subrange(from as int, to as int)[i - from] == v@[i as int]);
            }
        }
        let c = v[i];
        acc = acc * 10 + ((c as u8) - 48) as u32;
        proof {
            assert(v@.subrange(from as int, i as int + 1).drop_last() =~= v@.subrange(
                from as int,
                i as int,
            ));
            assert(v@.subrange(from as int, i as int + 1).last() == v@[i as int]);
        }
        i = i + 1;
    }
    proof {
        assert(all_digits(v@.subrange(from as int, i as int)));
    }
    acc
}

pub proof fn lemma_pow10_mono(a: int, b: int)
    requires
        a <= b,
    ensures
        pow10(a) <= pow10(b),
        pow10(a) >= 1,
    decreases b - a,
{
    if a < b {
        lemma_pow10_mono(a, b - 1);
    } else {
        lemma_pow10_pos(a);
    }
}

pub proof fn lemma_pow10_pos(a: int)
    ensures
        pow10(a) >= 1,
    decreases (if a >= 0 { a } else { 0 }),
{
    if a > 0 {
        lemma_pow10_pos(a - 1);
    }
}

} // verus!

verus! {

// ---------------------------------------------------------------------------
// Phrase normalization: lower-case, strip periods, collapse whitespace
// ---------------------------------------------------------------------------
/// Lower-cased characters with periods removed.
pub open spec fn canon_chars(s: Seq<char>) -> Seq<char>
    decreases s.len(),
{
    if s.len() == 0 {
        Seq::empty()
    } else if s.last() == '.' {
        canon_chars(s.drop_last())
    } else {
        canon_chars(s.drop_last()).push(lower_char(s.last()))
    }
}

/// Position of the first non-space character at or after `i`.
pub open spec fn next_nonspace(s: Seq<char>, i: int) -> int
    decreases s.len() - i when 0 <= i <= s.len()
{
    if i < s.len() && is_space(s[i]) {
        next_nonspace(s, i + 1)
    } else {
        i
    }
}

/// Position of the first space character at or after `i`.
pub open spec fn next_space(s: Seq<char>, i: int) -> int
    decreases s.len() - i when 0 <= i <= s.len()
{
    if i < s.len() && !is_space(s[i]) {
        next_space(s, i + 1)
    } else {
        i
    }
}

pub proof fn lemma_next_nonspace_bounds(s: Seq<char>, i: int)
    requires
        0 <= i <= s.len(),
    ensures
        i <= next_nonspace(s, i) <= s.len(),
        next_nonspace(s, i) < s.len() ==> !is_space(s[next_nonspace(s, i)]),
        forall|j: int| i <= j < next_nonspace(s, i) ==> is_space(#[trigger] s[j]),
    decreases s.len() - i,
{
    if i < s.len() && is_space(s[i]) {
        lemma_next_nonspace_bounds(s, i + 1);
    }
}

pub proof fn lemma_next_space_bounds(s: Seq<char>, i: int)
    requires
        0 <= i <= s.len(),
    ensures
        i <= next_space(s, i) <= s.len(),
        next_space(s, i) < s.len() ==> is_space(s[next_space(s, i)]),
        forall|j: int| i <= j < next_space(s, i) ==> !is_space(#[trigger] s[j]),
    decreases s.len() - i,
{
    if i < s.len() && !is_space(s[i]) {
        lemma_next_space_bounds(s, i + 1);
    }
}

/// The whitespace-separated words of `s`, starting the scan at `i`.
pub open spec fn words_from(s: Seq<char>, i: int) -> Seq<Seq<char>>
    decreases s.len() - i when 0 <= i <= s.len() via words_from_decreases
{
    if next_nonspace(s, i) >= s.len() {
        Seq::empty()
    } else {
        let j = next_nonspace(s, i);
        let k = next_space(s, j);
        seq![s.subrange(j, k)] + words_from(s, k)
    }
}

#[via_fn]
proof fn words_from_decreases(s: Seq<char>, i: int) {
    lemma_next_nonspace_bounds(s, i);
    let j = next_nonspace(s, i);
    if j < s.len() {
        lemma_next_space_bounds(s, j);
    }
}

/// The whitespace-separated words of `s`.
pub open spec fn words(s: Seq<char>) -> Seq<Seq<char>> {
    words_from(s, 0)
}

/// Concatenation of words, each preceded by a single space.
pub open spec fn join_more(ws: Seq<Seq<char>>) -> Seq<char>
    decreases ws.len(),
{
    if ws.len() == 0 {
        Seq::empty()
    } else {
        seq![' '] + ws[0] + join_more(ws.drop_first())
    }
}

/// Words joined with single spaces.
pub open spec fn join_words(ws: Seq<Seq<char>>) -> Seq<char> {
    if ws.len() == 0 {
        Seq::empty()
    } else {
        ws[0] + join_more(ws.drop_first())
    }
}

/// Trim, lower-case, strip periods and collapse internal whitespace.
pub open spec fn normalize_spec(s: Seq<char>) -> Seq<char> {
    join_words(words(canon_chars(s)))
}

proof fn lemma_words_from_skip_space(s: Seq<char>, i: int)
    requires
        0 <= i < s.len(),
        is_space(s[i]),
    ensures
        words_from(s, i) == words_from(s, i + 1),
{
}

/// Normalized form of the characters in `v`.
pub fn normalized(v: &Vec<char>) -> (r: Vec<char>)
    ensures
        r@ == normalize_spec(v@),
{
    // lower-case and strip periods
    let mut f: Vec<char> = Vec::new();
    let mut i: usize = 0;
    let n = v.len();
    while i < n
        invariant
            i <= n,
            n == v@.len(),
            f@ == canon_chars(v@.subrange(0, i as int)),
        decreases n - i,
    {
        let c = v[i];
        proof {
            assert(v@.subrange(0, i as int + 1).drop_last() =~= v@.subrange(0, i as int));
            assert(v@.subrange(0, i as int + 1).last() == v@[i as int]);
        }
        if c != '.' {
            f.push(char_to_lower(c));
        }
        i = i + 1;
    }
    proof {
        assert(v@.subrange(0, n as int) =~= v@);
    }
    // split into words and re-join with single spaces
    let m = f.len();
    let mut out: Vec<char> = Vec::new();
    let mut first: bool = true;
    let mut i: usize = 0;
    proof {
        lemma_next_nonspace_bounds(f@, 0);
    }
    while i < m
        invariant
            i <= m,
            m == f@.len(),
            f@ == canon_chars(v@),
            first ==> out@.len() == 0 && join_words(words(f@)) == join_words(words_from(f@, i as int)),
            !first ==> join_words(words(f@)) == out@ + join_more(words_from(f@, i as int)),
        decreases m - i,
    {
        if char_is_space(f[i]) {
            proof {
                lemma_words_from_skip_space(f@, i as int);
            }
            i = i + 1;
        } else {
            // scan the word
            let start = i;
            let mut k = i;
            while k < m && !char_is_space(f[k])
                invariant
                    start <= k <= m,
                    m == f@.len(),
                    forall|j: int| start <= j < k ==> !is_space(#[trigger] f@[j]),
                decreases m - k,
            {
                k = k + 1;
            }
            proof {
                lemma_next_space_stable(f@, start as int, k as int);
                assert(next_nonspace(f@, start as int) == start as int);
                lemma_next_space_bounds(f@, start as int);
                assert(words_from(f@, start as int) =~= seq![
                    f@.subrange(start as int, k as int),
                ] + words_from(f@, k as int));
            }
            let ghost pre_out = out@;
            if !first {
                out.push(' ');
            }
            let mut j = start;
            while j < k
                invariant
                    start <= j <= k <= m,
                    m == f@.len(),
                    !first ==> out@ == pre_out + seq![' '] + f@.subrange(start as int, j as int),
                    first ==> out@ == f@.subrange(start as int, j as int) && pre_out.len() == 0,
                decreases k - j,
            {
                out.push(f[j]);
                proof {
                    if first {
                        assert(out@ =~= f@.subrange(start as int, j as int + 1));
                    } else {
                        assert(out@ =~= pre_out + seq![' '] + f@.subrange(
                            start as int,
                            j as int + 1,
                        ));
                    }
                }
                j = j + 1;
            }
            proof {
                let ws = words_from(f@, start as int);
                let w = f@.subrange(start as int, k as int);
                assert(ws[0] == w);
                assert(ws.drop_first() =~= words_from(f@, k as int));
                if first {
                    // join_words(ws) == w + join_more(rest)
                    assert(join_words(ws) == w + join_more(words_from(f@, k as int)));
                    assert(out@ =~= Seq::<char>::empty() + w);
                } else {
                    assert(join_more(ws) == seq![' '] + w + join_more(words_from(f@, k as int)));
                    assert(out@ =~= pre_out + (seq![' '] + w));
                }
            }
            first = false;
            i = k;
        }
    }
    proof {
        assert(next_nonspace(f@, m as int) == m as int);
        assert(words_from(f@, m as int) =~= Seq::<Seq<char>>::empty());
        if first {
            assert(join_words(words(f@)) =~= out@);
        } else {
            assert(join_more(words_from(f@, i as int)) =~= Seq::<char>::empty());
            assert(join_words(words(f@)) =~= out@ + Seq::<char>::empty());
            assert(out@ + Seq::<char>::empty() =~= out@);
        }
    }
    out
}

proof fn lemma_next_space_stable(s: Seq<char>, start: int, k: int)
    requires
        0 <= start <= k <= s.len(),
        forall|j: int| start <= j < k ==> !is_space(#[trigger] s[j]),
        k < s.len() ==> is_space(s[k]),
    ensures
        next_space(s, start) == k,
    decreases k - start,
{
    if start < k {
        lemma_next_space_stable(s, start + 1, k);
    }
}

} // verus!

verus! {

/// Position of the first non-digit character at or after `i`.
pub open spec fn next_nondigit(s: Seq<char>, i: int) -> int
    decreases s.len() - i when 0 <= i <= s.len()
{
    if i < s.len() && is_digit(s[i]) {
        next_nondigit(s, i + 1)
    } else {
        i
    }
}

pub proof fn lemma_next_nondigit_bounds(s: Seq<char>, i: int)
    requires
        0 <= i <= s.len(),
    ensures
        i <= next_nondigit(s, i) <= s.len(),
        next_nondigit(s, i) < s.len() ==> !is_digit(s[next_nondigit(s, i)]),
        forall|j: int| i <= j < next_nondigit(s, i) ==> is_digit(#[trigger] s[j]),
    decreases s.len() - i,
{
    if i < s.len() && is_digit(s[i]) {
        lemma_next_nondigit_bounds(s, i + 1);
    }
}

pub proof fn lemma_next_nondigit_stable(s: Seq<char>, start: int, k: int)
    requires
        0 <= start <= k <= s.len(),
        forall|j: int| start <= j < k ==> is_digit(#[trigger] s[j]),
        k < s.len() ==> !is_digit(s[k]),
    ensures
        next_nondigit(s, start) == k,
    decreases k - start,
{
    if start < k {
        lemma_next_nondigit_stable(s, start + 1, k);
    }
}

/// Exec scan for the end of a digit run.
pub fn scan_digits(v: &Vec<char>, from: usize) -> (r: usize)
    requires
        from <= v@.len(),
    ensures
        r as int == next_nondigit(v@, from as int),
        from <= r <= v@.len(),
{
    let mut k = from;
    let n = v.len();
    while k < n && char_is_digit(v[k])
        invariant
            from <= k <= n,
            n == v@.len(),
            forall|j: int| from <= j < k ==> is_digit(#[trigger] v@[j]),
        decreases n - k,
    {
        k = k + 1;
    }
    proof {
        lemma_next_nondigit_stable(v@, from as int, k as int);
    }
    k
}

} // verus!

verus! {

/// Copy of the characters `v[from..to]`.
pub fn subvec(v: &Vec<char>, from: usize, to: usize) -> (r: Vec<char>)
    requires
        from <= to <= v@.len(),
    ensures
        r@ == v@.subrange(from as int, to as int),
{
    let mut r: Vec<char> = Vec::new();
    let mut i = from;
    while i < to
        invariant
            from <= i <= to <= v@.len(),
            r@ == v@.subrange(from as int, i as int),
        decreases to - i,
    {
        r.push(v[i]);
        proof {
            assert(r@ =~= v@.subrange(from as int, i as int + 1));
        }
        i = i + 1;
    }
    r
}

} // verus!

verus! {

/// Does `s` start with `p`?
pub open spec fn has_prefix(s: Seq<char>, p: Seq<char>) -> bool {
    p.len() <= s.len() && s.take(p.len() as int) == p
}

} // verus!

verus! {

pub proof fn lemma_next_nonspace_stable(s: Seq<char>, start: int, k: int)
    requires
        0 <= start <= k <= s.len(),
        forall|j: int| start <= j < k ==> is_space(#[trigger] s[j]),
        k < s.len() ==> !is_space(s[k]),
    ensures
        next_nonspace(s, start) == k,
    decreases k - start,
{
    if start < k {
        lemma_next_nonspace_stable(s, start + 1, k);
    }
}

/// Are all of `v[from..to]` decimal digits? (Exec form of `all_digits`.)
pub fn check_digits_range(v: &Vec<char>, from: usize, to: usize) -> (r: bool)
    requires
        from <= to <= v@.len(),
    ensures
        r == all_digits(v@.subrange(from as int, to as int)),
{
    let mut i = from;
    while i < to
        invariant
            from <= i <= to <= v@.len(),
            forall|j: int| from <= j < i ==> is_digit(#[trigger] v@[j]),
        decreases to - i,
    {
        if !char_is_digit(v[i]) {
            proof {
                assert(!is_digit(v@.subrange(from as int, to as int)[i - from]));
            }
            return false;
        }
        i = i + 1;
    }
    proof {
        assert(forall|j: int|
            0 <= j < to - from ==> is_digit(#[trigger] v@.subrange(from as int, to as int)[j]));
    }
    true
}

} // verus!

verus! {

/// Append the characters `v[from..to]` to an output buffer.
pub fn push_sub(out: &mut Vec<char>, v: &Vec<char>, from: usize, to: usize)
    requires
        from <= to <= v@.len(),
    ensures
        final(out)@ == old(out)@ + v@.subrange(from as int, to as int),
{
    let mut i = from;
    while i < to
        invariant
            from <= i <= to <= v@.len(),
            out@ == old(out)@ + v@.subrange(from as int, i as int),
        decreases to - i,
    {
        out.push(v[i]);
        proof {
            assert(out@ =~= old(out)@ + v@.subrange(from as int, i as int + 1));
        }
        i = i + 1;
    }
}

} // verus!

verus! {

pub fn push_dec_usize(out: &mut Vec<char>, n: usize)
    ensures
        final(out)@ == old(out)@ + dec_seq(n as int),
    decreases n,
{
    if n < 10 {
        let c: char = (((n as u8) + 48) as char);
        proof {
            assert(c == digit_char(n as int));
            assert(old(out)@.push(digit_char(n as int)) =~= old(out)@ + dec_seq(n as int));
        }
        out.push(c);
    } else {
        push_dec_usize(out, n / 10);
        let c: char = ((((n % 10) as u8) + 48) as char);
        proof {
            assert(c == digit_char(n as int % 10));
            assert((old(out)@ + dec_seq(n as int / 10)).push(digit_char(n as int % 10)) =~= old(
                out,
            )@ + dec_seq(n as int));
        }
        out.push(c);
    }
}

} // verus!

verus! {

/// Does `s` contain `pat` as a substring?
pub open spec fn contains_sub(s: Seq<char>, pat: Seq<char>) -> bool {
    exists|i: int|
        0 <= i && i + pat.len() <= s.len() && #[trigger] s.subrange(i, i + pat.len()) == pat
}

/// Scan for a substring.
pub fn has_sub(v: &Vec<char>, pat: &str) -> (r: bool)
    ensures
        r == contains_sub(v@, pat@),
{
    let n = v.len();
    let m = pat.unicode_len();
    if m == 0 {
        proof {
            assert(v@.subrange(0, 0 + pat@.len() as int) =~= pat@);
        }
        return true;
    }
    if m > n {
        proof {
            assert(!contains_sub(v@, pat@)) by {
                if contains_sub(v@, pat@) {
                    let i = choose|i: int|
                        0 <= i && i + pat@.len() <= v@.len() && #[trigger] v@.subrange(
                            i,
                            i + pat@.len(),
                        ) == pat@;
                }
            }
        }
        return false;
    }
    let mut i: usize = 0;
    while i <= n - m
        invariant
            1 <= m <= n == v@.len(),
            m == pat@.len(),
            i <= n - m + 1,
            forall|j: int| 0 <= j < i ==> #[trigger] v@.subrange(j, j + pat@.len()) != pat@,
        decreases n + 1 - i,
    {
        if range_eq_str(v, i, i + m, pat) {
            return true;
        }
        i = i + 1;
    }
    proof {
        assert(!contains_sub(v@, pat@)) by {
            if contains_sub(v@, pat@) {
                let j = choose|j: int|
                    0 <= j && j + pat@.len() <= v@.len() && #[trigger] v@.subrange(
                        j,
                        j + pat@.len(),
                    ) == pat@;
                assert(j < i);
            }
        }
    }
    false
}

} // verus!

verus! {

pub proof fn lemma_dec_seq_val(n: int)
    requires
        n >= 0,
    ensures
        dec_val(dec_seq(n)) == n,
        all_digits(dec_seq(n)),
        dec_seq(n).len() >= 1,
        n < 10 ==> dec_seq(n).len() == 1,
        10 <= n < 100 ==> dec_seq(n).len() == 2,
    decreases n,
{
    reveal_with_fuel(dec_val, 3);
    if n < 10 {
        assert(dec_seq(n) =~= seq![digit_char(n)]);
        assert(seq![digit_char(n)].drop_last() =~= Seq::<char>::empty());
        lemma_digit_char_val(n);
    } else {
        lemma_dec_seq_val(n / 10);
        lemma_digit_char_val(n % 10);
        assert(dec_seq(n).drop_last() =~= dec_seq(n / 10));
        assert(dec_seq(n).last() == digit_char(n % 10));
        assert(all_digits(dec_seq(n))) by {
            assert(forall|i: int|
                0 <= i < dec_seq(n / 10).len() ==> dec_seq(n)[i] == #[trigger] dec_seq(n / 10)[i]);
            assert(forall|i: int|
                0 <= i < dec_seq(n).len() - 1 ==> is_digit(#[trigger] dec_seq(n)[i]));
            assert(is_digit(dec_seq(n)[dec_seq(n).len() - 1]));
        }
    }
}

/// Normalizing changes nothing when the text is already lower-case with no
/// whitespace at either end.
pub proof fn lemma_fm_norm_id(s: Seq<char>)
    requires
        forall|i: int| 0 <= i < s.len() ==> lower_char(#[trigger] s[i]) == s[i],
        s.len() > 0 ==> !is_space(s[0]) && !is_space(s.last()),
    ensures
        crate::fuzzy::fm_norm(s) == s,
{
    let m = s.map_values(|c: char| lower_char(c));
    assert(m =~= s);
    assert(trim_front(s) == s);
    assert(trim_back(s) == s);
}

} // verus!

verus! {

/// Digits and punctuation are fixed points of lower-casing.
pub proof fn lemma_digit_lower()
    ensures
        forall|c: char| is_digit(c) ==> #[trigger] lower_char(c) == c,
{
}

} // verus!

verus! {

/// Normalization is the identity on one plain word: no upper-case letters,
/// no periods, no whitespace.
pub proof fn lemma_normalize_token_id(s: Seq<char>)
    requires
        s.len() >= 1,
        forall|i: int|
            0 <= i < s.len() ==> lower_char(#[trigger] s[i]) == s[i] && s[i] != '.' && !is_space(
                s[i],
            ),
    ensures
        normalize_spec(s) == s,
{
    lemma_canon_id(s);
    assert(next_nonspace(s, 0) == 0);
    lemma_next_space_stable(s, 0, s.len() as int);
    assert(words_from(s, 0) == seq![s.take(s.len() as int)] + words_from(s, s.len() as int));
    assert(words_from(s, s.len() as int) =~= Seq::<Seq<char>>::empty());
    assert(s.take(s.len() as int) =~= s);
    let ws = words(s);
    assert(ws =~= seq![s]);
    assert(ws.drop_first() =~= Seq::<Seq<char>>::empty());
    assert(join_more(ws.drop_first()) =~= Seq::<char>::empty());
    assert(join_words(ws) =~= s);
}

proof fn lemma_canon_id(s: Seq<char>)
    requires
        forall|i: int|
            0 <= i < s.len() ==> lower_char(#[trigger] s[i]) == s[i] && s[i] != '.',
    ensures
        canon_chars(s) == s,
    decreases s.len(),
{
    if s.len() > 0 {
        assert(forall|i: int|
            0 <= i < s.len() - 1 ==> s.drop_last()[i] == #[trigger] s[i]);
        lemma_canon_id(s.drop_last());
        assert(canon_chars(s) == canon_chars(s.drop_last()).push(lower_char(s.last())));
        assert(s.drop_last().push(s.last()) =~= s);
    }
}

} // verus!
