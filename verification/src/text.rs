//! Byte-level helpers shared by the decoder and the formatter: searching for
//! a delimiter, reading and writing decimal fields, and moving between raw
//! bytes and UTF-8 text.

use vstd::prelude::*;
use vstd::utf8::{
    decode_utf8, is_char_boundary_iff_not_is_continuation_byte, is_leading_byte_width_1,
    length_of_first_scalar, partial_valid_utf8_extend_ascii_block, pop_first_scalar,
    valid_first_scalar, valid_utf8, valid_utf8_split,
};

verus! {

/// The first index of `x` in `s` at or after `from`, or `s.len()` when `x`
/// does not occur there.
pub open spec fn idx_from<T>(s: Seq<T>, from: int, x: T) -> int
    decreases s.len() - from,
{
    if from < 0 || from >= s.len() {
        s.len() as int
    } else if s[from] == x {
        from
    } else {
        idx_from(s, from + 1, x)
    }
}

pub proof fn lemma_idx_from<T>(s: Seq<T>, from: int, x: T)
    requires
        0 <= from <= s.len(),
    ensures
        from <= idx_from(s, from, x) <= s.len(),
        idx_from(s, from, x) < s.len() ==> s[idx_from(s, from, x)] == x,
        forall|k: int| from <= k < idx_from(s, from, x) ==> s[k] != x,
    decreases s.len() - from,
{
    if from < s.len() && s[from] != x {
        lemma_idx_from(s, from + 1, x);
    }
}

/// `idx_from` is pinned down by its characteristic properties.
pub proof fn lemma_idx_from_is<T>(s: Seq<T>, from: int, x: T, i: int)
    requires
        0 <= from <= i <= s.len(),
        i < s.len() ==> s[i] == x,
        forall|k: int| from <= k < i ==> s[k] != x,
    ensures
        idx_from(s, from, x) == i,
{
    lemma_idx_from(s, from, x);
    let j = idx_from(s, from, x);
    if j < i {
        assert(s[j] != x);
    }
    if i < j {
        assert(s[i] != x);
    }
}

/// First occurrence of the byte `x` in `s` at or after `from`, or `s.len()`.
pub fn find_byte(s: &[u8], from: usize, x: u8) -> (i: usize)
    requires
        from <= s@.len(),
    ensures
        i as int == idx_from(s@, from as int, x),
{
    let n = s.len();
    let mut i = from;
    while i < n
        invariant
            from <= i <= n,
            n == s@.len(),
            forall|k: int| from <= k < i ==> s@[k] != x,
        decreases n - i,
    {
        if *vstd::slice::slice_index_get(s, i) == x {
            proof {
                lemma_idx_from_is(s@, from as int, x, i as int);
            }
            return i;
        }
        i = i + 1;
    }
    proof {
        lemma_idx_from_is(s@, from as int, x, n as int);
    }
    n
}

/// ASCII decimal digit.
pub open spec fn is_digit(b: u8) -> bool {
    48 <= b <= 57
}

pub open spec fn all_digits(s: Seq<u8>) -> bool {
    forall|i: int| 0 <= i < s.len() ==> is_digit(#[trigger] s[i])
}

/// Value of a sequence of ASCII decimal digits, most significant first.
pub open spec fn digits_val(s: Seq<u8>) -> nat
    decreases s.len(),
{
    if s.len() == 0 {
        0
    } else {
        (digits_val(s.drop_last()) * 10 + (s.last() - 48)) as nat
    }
}

/// What a decimal integer field decodes to: defined exactly when the field is
/// a non-empty run of digits whose value fits in 32 bits.
pub open spec fn int_field(s: Seq<u8>) -> Option<u32> {
    if s.len() > 0 && all_digits(s) && digits_val(s) <= u32::MAX {
        Some(digits_val(s) as u32)
    } else {
        None
    }
}

pub proof fn lemma_digits_val_prefix(s: Seq<u8>, k: int)
    requires
        0 <= k <= s.len(),
        all_digits(s),
    ensures
        digits_val(s.subrange(0, k)) <= digits_val(s),
    decreases s.len() - k,
{
    if k < s.len() {
        lemma_digits_val_prefix(s, k + 1);
        let t = s.subrange(0, k + 1);
        assert(t.drop_last() =~= s.subrange(0, k));
        assert(is_digit(s[k]));
        assert(digits_val(s.subrange(0, k)) * 10 >= digits_val(s.subrange(0, k)));
    } else {
        assert(s.subrange(0, k) =~= s);
    }
}

/// Reads `s[a..b]` as a decimal integer field.
pub fn parse_uint(s: &[u8], a: usize, b: usize) -> (r: Option<u32>)
    requires
        a <= b <= s@.len(),
    ensures
        r == int_field(s@.subrange(a as int, b as int)),
{
    let ghost f = s@.subrange(a as int, b as int);
    if a == b {
        return None;
    }
    let mut acc: u64 = 0;
    let mut i = a;
    while i < b
        invariant
            a <= i <= b <= s@.len(),
            a < b,
            f == s@.subrange(a as int, b as int),
            forall|k: int| 0 <= k < i - a ==> is_digit(#[trigger] f[k]),
            acc == digits_val(f.subrange(0, i - a)),
            acc <= u32::MAX,
        decreases b - i,
    {
        let c = *vstd::slice::slice_index_get(s, i);
        proof {
            assert(f[i - a] == s@[i as int]);
        }
        if c < 48 || c > 57 {
            proof {
                assert(!is_digit(f[i - a]));
            }
            return None;
        }
        acc = acc * 10 + ((c - 48) as u64);
        proof {
            let t = f.subrange(0, i - a + 1);
            assert(t.drop_last() =~= f.subrange(0, i - a));
            assert(t.last() == f[i - a]);
        }
        if acc > 0xFFFF_FFFF {
            proof {
                if all_digits(f) {
                    lemma_digits_val_prefix(f, i - a + 1);
                }
            }
            return None;
        }
        i = i + 1;
    }
    proof {
        assert(f.subrange(0, (b - a) as int) =~= f);
    }
    Some(acc as u32)
}

/// The canonical decimal digits of `n`, most significant first and without
/// leading zeros.
pub open spec fn dec_digits(n: nat) -> Seq<u8>
    decreases n,
{
    if n < 10 {
        seq![(48 + n) as u8]
    } else {
        dec_digits(n / 10) + seq![(48 + n % 10) as u8]
    }
}

pub proof fn lemma_dec_digits(n: nat)
    ensures
        dec_digits(n).len() >= 1,
        all_digits(dec_digits(n)),
        digits_val(dec_digits(n)) == n,
    decreases n,
{
    if n < 10 {
        let s = dec_digits(n);
        assert(s.drop_last() =~= Seq::<u8>::empty());
        assert(digits_val(s) == digits_val(s.drop_last()) * 10 + (s.last() - 48));
    } else {
        lemma_dec_digits(n / 10);
        let a = dec_digits(n / 10);
        let d = (48 + n % 10) as u8;
        let s = a + seq![d];
        assert(s =~= dec_digits(n));
        assert(s.drop_last() =~= a);
        assert(s.last() == d);
        assert(n == 10 * (n as int / 10) + n as int % 10) by {
            vstd::arithmetic::div_mod::lemma_fundamental_div_mod(n as int, 10);
        }
        assert(digits_val(s) == digits_val(a) * 10 + (d - 48));
        assert(forall|i: int| 0 <= i < s.len() ==> is_digit(#[trigger] s[i]));
    }
}

/// Appends the decimal digits of `n` to `out`.
pub fn with_decimal(out: Vec<u8>, n: u32) -> (r: Vec<u8>)
    ensures
        r@ == out@ + dec_digits(n as nat),
    decreases n,
{
    let ghost start = out@;
    if n < 10 {
        let mut v = out;
        v.push(48 + (n as u8));
        proof {
            assert(v@ =~= start + dec_digits(n as nat));
        }
        v
    } else {
        let mut v = with_decimal(out, n / 10);
        v.push(48 + ((n % 10) as u8));
        proof {
            assert(v@ =~= start + dec_digits(n as nat));
        }
        v
    }
}

/// Turns bytes into owned text, telling valid UTF-8 apart from invalid.
///
/// Relies on `std::str::from_utf8`: it returns `Ok` exactly when the bytes
/// are a valid UTF-8 encoding, and the string it returns is their decoding.
#[verifier::external_body]
pub(crate) fn utf8_decode(bytes: &[u8]) -> (r: Option<String>)
    ensures
        r is Some <==> valid_utf8(bytes@),
        r matches Some(s) ==> s@ == decode_utf8(bytes@),
{
    match std::str::from_utf8(bytes) {
        Ok(s) => Some(s.to_owned()),
        Err(_) => None,
    }
}

/// A sequence of ASCII bytes is valid UTF-8.
pub proof fn lemma_ascii_valid(s: Seq<u8>)
    requires
        forall|i: int| 0 <= i < s.len() ==> #[trigger] s[i] < 128,
    ensures
        valid_utf8(s),
{
    assert(valid_utf8(s.subrange(0, 0)));
    assert(forall|i: int| 0 <= i < s.len() ==> is_leading_byte_width_1(#[trigger] s[i]));
    partial_valid_utf8_extend_ascii_block(s, 0, s.len() as int);
    assert(s.subrange(0, s.len() as int) =~= s);
}

/// Cutting a valid UTF-8 sequence right after an ASCII byte and right before
/// an ASCII byte (or at either end) yields a valid UTF-8 sequence.
pub proof fn lemma_field_valid(s: Seq<u8>, a: int, b: int)
    requires
        valid_utf8(s),
        0 <= a <= b <= s.len(),
        a == 0 || s[a - 1] < 128,
        b == s.len() || s[b] < 128,
    ensures
        valid_utf8(s.subrange(a, b)),
{
    let n = s.len() as int;
    let t = s.subrange(a, n);
    if a == 0 {
        assert(t =~= s);
    } else {
        is_char_boundary_iff_not_is_continuation_byte(s, a - 1);
        valid_utf8_split(s, a - 1);
        let t0 = s.subrange(a - 1, n);
        assert(valid_utf8(t0));
        assert(is_leading_byte_width_1(t0[0]));
        assert(valid_first_scalar(t0));
        assert(length_of_first_scalar(t0) == 1);
        assert(pop_first_scalar(t0) =~= t);
        assert(valid_utf8(t));
    }
    if b == n {
        assert(s.subrange(a, b) =~= t);
    } else if b == a {
        assert(s.subrange(a, b) =~= Seq::<u8>::empty());
        assert(valid_utf8(s.subrange(a, b)));
    } else {
        assert(t[b - a] == s[b]);
        is_char_boundary_iff_not_is_continuation_byte(t, b - a);
        valid_utf8_split(t, b - a);
        assert(s.subrange(a, b) =~= t.subrange(0, b - a));
    }
}

} // verus!
