use vstd::prelude::*;

use crate::text::digit_char;
use crate::text::hex_val;
use crate::text::is_hex_digit;
use crate::text::push_sub;
use crate::text::string_from_chars;

verus! {

// ---------------------------------------------------------------------------
// Task identities: opaque 128-bit values and their canonical hex text
// ---------------------------------------------------------------------------
pub open spec fn pow16(k: int) -> int
    decreases k,
{
    if k <= 0 {
        1
    } else {
        16 * pow16(k - 1)
    }
}

/// The lower-case hex digit of a nibble value.
pub open spec fn hex_char(n: int) -> char {
    if n < 10 {
        digit_char(n)
    } else {
        ('a' as int + n - 10) as char
    }
}

/// The low `k` nibbles of `n` as lower-case hex, most significant first.
pub open spec fn hex_seq(n: int, k: int) -> Seq<char>
    decreases k,
{
    if k <= 0 {
        Seq::empty()
    } else {
        hex_seq(n / 16, k - 1).push(hex_char(n % 16))
    }
}

/// The canonical text of an identity: 32 lower-case hex digits in the
/// familiar 8-4-4-4-12 grouping.
pub open spec fn id_seq(n: int) -> Seq<char> {
    let h = hex_seq(n, 32);
    h.subrange(0, 8) + seq!['-'] + h.subrange(8, 12) + seq!['-'] + h.subrange(12, 16) + seq!['-']
        + h.subrange(16, 20) + seq!['-'] + h.subrange(20, 32)
}

/// Numeric value of a hex digit string, most significant first.
pub open spec fn hex_fold(s: Seq<char>) -> int
    decreases s.len(),
{
    if s.len() == 0 {
        0
    } else {
        hex_fold(s.drop_last()) * 16 + hex_val(s.last())
    }
}

/// The 36-character hyphenated shape: dashes at the group breaks, hex
/// digits everywhere else.
pub open spec fn is_id_shape(s: Seq<char>) -> bool {
    &&& s.len() == 36
    &&& s[8] == '-' && s[13] == '-' && s[18] == '-' && s[23] == '-'
    &&& forall|i: int|
        0 <= i < 36 && i != 8 && i != 13 && i != 18 && i != 23 ==> is_hex_digit(#[trigger] s[i])
}

/// The 32 hex digits of a hyphenated identity, dashes removed.
pub open spec fn id_strip(s: Seq<char>) -> Seq<char> {
    s.subrange(0, 8) + s.subrange(9, 13) + s.subrange(14, 18) + s.subrange(19, 23) + s.subrange(
        24,
        36,
    )
}

/// The identity a hyphenated hex string names, if it has the right shape.
pub open spec fn parse_id_spec(s: Seq<char>) -> Option<int> {
    if is_id_shape(s) {
        Some(hex_fold(id_strip(s)))
    } else {
        None
    }
}

proof fn lemma_hex_seq_len(n: int, k: int)
    requires
        k >= 0,
    ensures
        hex_seq(n, k).len() == k,
    decreases k,
{
    if k > 0 {
        lemma_hex_seq_len(n / 16, k - 1);
    }
}

proof fn lemma_hex_char_val(m: int)
    requires
        0 <= m < 16,
    ensures
        is_hex_digit(hex_char(m)),
        hex_val(hex_char(m)) == m,
{
}

proof fn lemma_hex_seq_digits(n: int, k: int)
    requires
        k >= 0,
        n >= 0,
    ensures
        forall|i: int| 0 <= i < k ==> is_hex_digit(#[trigger] hex_seq(n, k)[i]),
    decreases k,
{
    lemma_hex_seq_len(n, k);
    if k > 0 {
        lemma_hex_seq_digits(n / 16, k - 1);
        lemma_hex_char_val(n % 16);
        lemma_hex_seq_len(n / 16, k - 1);
        assert(forall|i: int|
            0 <= i < k - 1 ==> hex_seq(n, k)[i] == #[trigger] hex_seq(n / 16, k - 1)[i]);
        assert(hex_seq(n, k)[k - 1] == hex_char(n % 16));
    }
}

proof fn lemma_hex_fold_of_seq(n: int, k: int)
    requires
        k >= 0,
        0 <= n < pow16(k),
    ensures
        hex_fold(hex_seq(n, k)) == n,
    decreases k,
{
    if k == 0 {
    } else {
        lemma_pow16_pos(k - 1);
        vstd::arithmetic::div_mod::lemma_multiply_divide_lt(n, pow16(k - 1), 16);
        lemma_hex_fold_of_seq(n / 16, k - 1);
        lemma_hex_char_val(n % 16);
        lemma_hex_seq_len(n / 16, k - 1);
        assert(hex_seq(n, k).drop_last() =~= hex_seq(n / 16, k - 1));
        assert(hex_seq(n, k).last() == hex_char(n % 16));
    }
}

proof fn lemma_pow16_pos(k: int)
    ensures
        pow16(k) >= 1,
    decreases (if k >= 0 {
        k
    } else {
        0
    }),
{
    if k > 0 {
        lemma_pow16_pos(k - 1);
    }
}

proof fn lemma_hex_fold_bound(s: Seq<char>)
    requires
        forall|i: int| 0 <= i < s.len() ==> is_hex_digit(#[trigger] s[i]),
    ensures
        0 <= hex_fold(s) < pow16(s.len() as int),
        hex_fold(s) * 16 + 15 < pow16(s.len() as int + 1),
    decreases s.len(),
{
    lemma_pow16_pos(s.len() as int);
    if s.len() > 0 {
        assert(forall|i: int|
            0 <= i < s.len() - 1 ==> s.drop_last()[i] == #[trigger] s[i]);
        lemma_hex_fold_bound(s.drop_last());
        assert(is_hex_digit(s.last()));
        assert(0 <= hex_val(s.last()) < 16);
    }
}

/// Formatting and parsing identities are inverse.
pub proof fn lemma_id_round_trip(n: int)
    requires
        0 <= n < pow16(32),
    ensures
        parse_id_spec(id_seq(n)) == Some(n),
{
    let h = hex_seq(n, 32);
    let s = id_seq(n);
    lemma_hex_seq_len(n, 32);
    lemma_hex_seq_digits(n, 32);
    assert(s.len() == 36);
    assert(s[8] == '-' && s[13] == '-' && s[18] == '-' && s[23] == '-');
    assert(is_id_shape(s)) by {
        assert(forall|i: int| 0 <= i < 8 ==> s[i] == h[i]);
        assert(forall|i: int| 9 <= i < 13 ==> s[i] == h[i - 1]);
        assert(forall|i: int| 14 <= i < 18 ==> s[i] == h[i - 2]);
        assert(forall|i: int| 19 <= i < 23 ==> s[i] == h[i - 3]);
        assert(forall|i: int| 24 <= i < 36 ==> s[i] == h[i - 4]);
    }
    assert(id_strip(s) =~= h);
    lemma_hex_fold_of_seq(n, 32);
}

/// Render an identity as its canonical hyphenated lower-case hex text.
pub fn format_id(id: u128) -> (r: String)
    ensures
        r@ == id_seq(id as int),
{
    let mut h: Vec<char> = Vec::new();
    push_hex(&mut h, id, 32);
    proof {
        lemma_hex_seq_len(id as int, 32);
    }
    let mut out: Vec<char> = Vec::new();
    push_sub(&mut out, &h, 0, 8);
    out.push('-');
    push_sub(&mut out, &h, 8, 12);
    out.push('-');
    push_sub(&mut out, &h, 12, 16);
    out.push('-');
    push_sub(&mut out, &h, 16, 20);
    out.push('-');
    push_sub(&mut out, &h, 20, 32);
    proof {
        assert(out@ =~= id_seq(id as int));
    }
    string_from_chars(&out)
}

/// Append the low `k` nibbles of `n` as lower-case hex.
fn push_hex(out: &mut Vec<char>, n: u128, k: usize)
    ensures
        final(out)@ == old(out)@ + hex_seq(n as int, k as int),
    decreases k,
{
    if k == 0 {
        proof {
            assert(old(out)@ + hex_seq(n as int, 0) =~= old(out)@);
        }
        return ;
    }
    push_hex(out, n / 16, k - 1);
    let nib: u8 = (n % 16) as u8;
    let c: char = if nib < 10 {
        ((nib + 48) as char)
    } else {
        ((nib - 10 + 97) as char)
    };
    proof {
        assert(c == hex_char(n as int % 16));
        assert((old(out)@ + hex_seq(n as int / 16, k as int - 1)).push(hex_char(n as int % 16))
            =~= old(out)@ + hex_seq(n as int, k as int));
    }
    out.push(c);
}

/// Parse a hyphenated lower- or upper-case hex identity.
pub fn parse_id(v: &Vec<char>) -> (r: Option<u128>)
    ensures
        match r {
            Some(id) => parse_id_spec(v@) == Some(id as int),
            None => parse_id_spec(v@) is None,
        },
{
    let n = v.len();
    if n != 36 {
        return None;
    }
    if v[8] != '-' || v[13] != '-' || v[18] != '-' || v[23] != '-' {
        return None;
    }
    let mut i: usize = 0;
    while i < 36
        invariant
            i <= 36,
            v@.len() == 36,
            forall|j: int|
                0 <= j < i && j != 8 && j != 13 && j != 18 && j != 23 ==> is_hex_digit(
                    #[trigger] v@[j],
                ),
        decreases 36 - i,
    {
        if i != 8 && i != 13 && i != 18 && i != 23 {
            if !crate::text::char_is_hex_digit(v[i]) {
                return None;
            }
        }
        i = i + 1;
    }
    // fold the 32 hex digits
    let mut hv: Vec<char> = Vec::new();
    push_sub(&mut hv, v, 0, 8);
    push_sub(&mut hv, v, 9, 13);
    push_sub(&mut hv, v, 14, 18);
    push_sub(&mut hv, v, 19, 23);
    push_sub(&mut hv, v, 24, 36);
    proof {
        assert(hv@ =~= id_strip(v@));
        assert(forall|j: int| 0 <= j < 32 ==> is_hex_digit(#[trigger] hv@[j])) by {
            assert(forall|j: int| 0 <= j < 8 ==> hv@[j] == v@[j]);
            assert(forall|j: int| 8 <= j < 12 ==> hv@[j] == v@[j + 1]);
            assert(forall|j: int| 12 <= j < 16 ==> hv@[j] == v@[j + 2]);
            assert(forall|j: int| 16 <= j < 20 ==> hv@[j] == v@[j + 3]);
            assert(forall|j: int| 20 <= j < 32 ==> hv@[j] == v@[j + 4]);
        }
    }
    let mut acc: u128 = 0;
    let mut i: usize = 0;
    while i < 32
        invariant
            i <= 32,
            hv@.len() == 32,
            forall|j: int| 0 <= j < 32 ==> is_hex_digit(#[trigger] hv@[j]),
            acc as int == hex_fold(hv@.subrange(0, i as int)),
        decreases 32 - i,
    {
        proof {
            lemma_hex_fold_bound(hv@.subrange(0, i as int));
            assert(pow16(32) == 0x100000000000000000000000000000000) by {
                reveal_with_fuel(pow16, 33);
            }
            lemma_pow16_mono(i as int, 31);
            assert(hv@.subrange(0, i as int + 1).drop_last() =~= hv@.subrange(0, i as int));
            assert(hv@.subrange(0, i as int + 1).last() == hv@[i as int]);
        }
        let d = crate::text::char_hex_val(hv[i]);
        acc = acc * 16 + (d as u128);
        i = i + 1;
    }
    proof {
        assert(hv@.subrange(0, 32) =~= hv@);
    }
    Some(acc)
}

proof fn lemma_pow16_mono(a: int, b: int)
    requires
        a <= b,
    ensures
        pow16(a) <= pow16(b),
    decreases b - a,
{
    lemma_pow16_pos(a);
    if a < b {
        lemma_pow16_mono(a, b - 1);
        lemma_pow16_pos(b - 1);
    }
}

/// Relies on uuid::Uuid::new_v4 and Uuid::as_u128: a freshly generated
/// random identity, returned as its 128-bit value. Nothing is assumed of
/// which value comes back.
#[verifier::external_body]
pub fn fresh_id() -> u128 {
    uuid::Uuid::new_v4().as_u128()
}

} // verus!

verus! {

/// The canonical identity text has the hyphenated shape.
pub proof fn lemma_id_seq_shape(n: int)
    requires
        0 <= n < pow16(32),
    ensures
        id_seq(n).len() == 36,
        is_id_shape(id_seq(n)),
{
    let h = hex_seq(n, 32);
    let s = id_seq(n);
    lemma_hex_seq_len(n, 32);
    lemma_hex_seq_digits(n, 32);
    assert(s.len() == 36);
    assert(s[8] == '-' && s[13] == '-' && s[18] == '-' && s[23] == '-');
    assert(is_id_shape(s)) by {
        assert(forall|i: int| 0 <= i < 8 ==> s[i] == h[i]);
        assert(forall|i: int| 9 <= i < 13 ==> s[i] == h[i - 1]);
        assert(forall|i: int| 14 <= i < 18 ==> s[i] == h[i - 2]);
        assert(forall|i: int| 19 <= i < 23 ==> s[i] == h[i - 3]);
        assert(forall|i: int| 24 <= i < 36 ==> s[i] == h[i - 4]);
    }
}

/// Every unsigned 128-bit value lies below 16^32.
pub proof fn lemma_u128_in_range(n: u128)
    ensures
        0 <= n < pow16(32),
{
    assert(pow16(32) == 0x100000000000000000000000000000000) by {
        reveal_with_fuel(pow16, 33);
    }
}

} // verus!
