//! The textual wire format.
//!
//! Identifiers travel as decimal strings (never as numbers, so that decoders
//! limited to 53-bit integers cannot lose precision). Message frames are
//! UTF-8 text carrying one object per message, with string fields escaped.
//! Everything here works on bytes; [`string_from_utf8`] is the one bridge
//! back to `String`.

use vstd::prelude::*;

verus! {

use vstd::string::StringSliceAdditionalSpecFns;
use vstd::utf8::{
    valid_utf8,
    decode_utf8,
    encode_utf8,
    is_leading_byte_width_1,
    partial_valid_utf8,
    partial_valid_utf8_extend_ascii_block,
    decode_utf8_encode_utf8,
};

// ---------------------------------------------------------------------------
// Decimal representation of identifiers and tokens.
// ---------------------------------------------------------------------------
/// The decimal digits of `n`, most significant first, as ASCII bytes.
pub open spec fn dec_bytes(n: nat) -> Seq<u8>
    decreases n,
{
    if n < 10 {
        seq![(0x30 + n) as u8]
    } else {
        dec_bytes(n / 10).push((0x30 + n % 10) as u8)
    }
}

/// The decimal form of a signed value: a minus sign in front of the digits
/// of the magnitude when negative.
pub open spec fn dec_bytes_i64(n: int) -> Seq<u8> {
    if n < 0 {
        seq![0x2du8] + dec_bytes((-n) as nat)
    } else {
        dec_bytes(n as nat)
    }
}

pub open spec fn is_dec_digit(b: u8) -> bool {
    0x30 <= b <= 0x39
}

pub open spec fn all_dec_digits(s: Seq<u8>) -> bool {
    forall|i: int| 0 <= i < s.len() ==> is_dec_digit(#[trigger] s[i])
}

/// The value of a sequence of decimal digit bytes.
pub open spec fn dec_val(s: Seq<u8>) -> int
    decreases s.len(),
{
    if s.len() == 0 {
        0
    } else {
        dec_val(s.drop_last()) * 10 + (s.last() - 0x30)
    }
}

/// The digits of `n` are digits, there is at least one, and they read back
/// as `n`.
pub proof fn lemma_dec_bytes_val(n: nat)
    ensures
        dec_bytes(n).len() > 0,
        all_dec_digits(dec_bytes(n)),
        dec_val(dec_bytes(n)) == n,
    decreases n,
{
    if n < 10 {
        let s = dec_bytes(n);
        assert(s =~= seq![(0x30 + n) as u8]);
        assert(s.last() == (0x30 + n) as u8);
        assert((0x30 + n) as u8 == 0x30 + n);
        assert(s.drop_last() =~= Seq::<u8>::empty());
        assert(dec_val(Seq::<u8>::empty()) == 0);
        assert(dec_val(s.drop_last()) == 0);
        assert(dec_val(s) == dec_val(s.drop_last()) * 10 + (s.last() - 0x30));
        assert(dec_val(s) == n);
    } else {
        lemma_dec_bytes_val(n / 10);
        let s = dec_bytes(n);
        assert(s.drop_last() =~= dec_bytes(n / 10));
        assert(dec_val(s) == (n / 10) * 10 + n % 10);
        assert((n / 10) * 10 + n % 10 == n) by {
            vstd::arithmetic::div_mod::lemma_fundamental_div_mod(n as int, 10);
        }
    }
}

/// Reading a longer digit prefix never yields a smaller value.
proof fn lemma_dec_val_prefix_le(s: Seq<u8>, i: int, j: int)
    requires
        all_dec_digits(s),
        0 <= i <= j <= s.len(),
    ensures
        dec_val(s.subrange(0, i)) <= dec_val(s.subrange(0, j)),
        dec_val(s.subrange(0, i)) >= 0,
    decreases j - i,
{
    if i == j {
        lemma_dec_val_nonneg(s.subrange(0, i));
    } else {
        lemma_dec_val_prefix_le(s, i, j - 1);
        let p = s.subrange(0, j);
        assert(p.drop_last() =~= s.subrange(0, j - 1));
        assert(dec_val(p) == dec_val(s.subrange(0, j - 1)) * 10 + (s[j - 1] - 0x30));
    }
}

proof fn lemma_dec_val_nonneg(s: Seq<u8>)
    requires
        all_dec_digits(s),
    ensures
        dec_val(s) >= 0,
    decreases s.len(),
{
    if s.len() > 0 {
        assert(all_dec_digits(s.drop_last()));
        lemma_dec_val_nonneg(s.drop_last());
    }
}

/// Writes `n` in decimal, most significant digit first.
pub fn u64_to_dec(n: u64) -> (r: Vec<u8>)
    ensures
        r@ == dec_bytes(n as nat),
    decreases n,
{
    if n < 10 {
        let mut v: Vec<u8> = Vec::new();
        v.push(0x30 + n as u8);
        proof {
            assert(v@ =~= dec_bytes(n as nat));
        }
        v
    } else {
        let mut v = u64_to_dec(n / 10);
        v.push(0x30 + (n % 10) as u8);
        proof {
            assert(v@ =~= dec_bytes(n as nat));
        }
        v
    }
}

/// Writes a signed value in decimal, with a minus sign when negative.
pub fn i64_to_dec(n: i64) -> (r: Vec<u8>)
    ensures
        r@ == dec_bytes_i64(n as int),
{
    if n >= 0 {
        u64_to_dec(n as u64)
    } else {
        let m: u64 = (-(n as i128)) as u64;
        let mut v: Vec<u8> = Vec::new();
        v.push(0x2d);
        let mut digits = u64_to_dec(m);
        v.append(&mut digits);
        proof {
            assert(v@ =~= dec_bytes_i64(n as int));
        }
        v
    }
}

/// Reads an unsigned decimal number. Returns `Some` exactly when the whole
/// slice is one or more decimal digits whose value fits in a `u64`.
pub fn parse_u64_dec(s: &[u8]) -> (r: Option<u64>)
    ensures
        r is Some <==> (s@.len() > 0 && all_dec_digits(s@) && dec_val(s@) <= u64::MAX),
        r is Some ==> r->0 == dec_val(s@),
{
    if s.len() == 0 {
        return None;
    }
    let mut acc: u64 = 0;
    let mut i: usize = 0;
    proof {
        assert(s@.subrange(0, 0) =~= Seq::<u8>::empty());
    }
    while i < s.len()
        invariant
            0 <= i <= s@.len(),
            all_dec_digits(s@.subrange(0, i as int)),
            acc == dec_val(s@.subrange(0, i as int)),
        decreases s@.len() - i,
    {
        let b = s[i];
        if b < 0x30 || b > 0x39 {
            proof {
                assert(!is_dec_digit(s@[i as int]));
            }
            return None;
        }
        let d = (b - 0x30) as u64;
        if acc > 0xFFFFFFFFFFFFFFFFu64 / 10 || (acc == 0xFFFFFFFFFFFFFFFFu64 / 10 && d > 5) {
            proof {
                let p = s@.subrange(0, i as int + 1);
                assert(p.drop_last() =~= s@.subrange(0, i as int));
                assert(dec_val(p) == acc * 10 + d);
                if all_dec_digits(s@) {
                    lemma_dec_val_prefix_le(s@, i as int + 1, s@.len() as int);
                    assert(s@.subrange(0, s@.len() as int) =~= s@);
                }
            }
            return None;
        }
        acc = acc * 10 + d;
        i = i + 1;
        proof {
            let p = s@.subrange(0, i as int);
            assert(p.drop_last() =~= s@.subrange(0, i as int - 1));
            assert(p.last() == s@[i as int - 1]);
        }
    }
    proof {
        assert(s@.subrange(0, s@.len() as int) =~= s@);
    }
    Some(acc)
}

/// What [`parse_i64_dec`] reads from a byte sequence: an optional minus sign
/// followed by digits, rejecting values outside the `i64` range.
pub open spec fn parsed_i64(s: Seq<u8>) -> Option<i64> {
    if s.len() > 0 && s[0] == 0x2d {
        let t = s.subrange(1, s.len() as int);
        if t.len() > 0 && all_dec_digits(t) && dec_val(t) <= 0x8000000000000000 {
            Some((-dec_val(t)) as i64)
        } else {
            None
        }
    } else {
        if s.len() > 0 && all_dec_digits(s) && dec_val(s) <= i64::MAX {
            Some(dec_val(s) as i64)
        } else {
            None
        }
    }
}

/// Reads a signed decimal number; `Some` exactly on the strings
/// [`parsed_i64`] accepts.
pub fn parse_i64_dec(s: &[u8]) -> (r: Option<i64>)
    ensures
        r == parsed_i64(s@),
{
    if s.len() == 0 {
        return None;
    }
    if s[0] == 0x2d {
        let (_, tail) = s.split_at(1);
        proof {
            assert(tail@ =~= s@.subrange(1, s@.len() as int));
        }
        match parse_u64_dec(tail) {
            Some(m) => {
                if m > 0x8000000000000000u64 {
                    None
                } else {
                    Some((-(m as i128)) as i64)
                }
            },
            None => None,
        }
    } else {
        match parse_u64_dec(s) {
            Some(m) => {
                if m > i64::MAX as u64 {
                    None
                } else {
                    Some(m as i64)
                }
            },
            None => None,
        }
    }
}

/// LAW (decimal round trip): writing any `i64` in decimal and reading it
/// back yields the same value.
pub proof fn lemma_dec_i64_roundtrip(n: i64)
    ensures
        parsed_i64(dec_bytes_i64(n as int)) == Some(n),
{
    if n >= 0 {
        lemma_dec_bytes_val(n as nat);
        let s = dec_bytes_i64(n as int);
        assert(s[0] != 0x2d) by {
            lemma_dec_first_digit(n as nat);
        }
    } else {
        lemma_dec_bytes_val((-(n as int)) as nat);
        let s = dec_bytes_i64(n as int);
        assert(s.subrange(1, s.len() as int) =~= dec_bytes((-(n as int)) as nat));
    }
}

/// The first byte written for a non-negative number is a digit.
proof fn lemma_dec_first_digit(n: nat)
    ensures
        is_dec_digit(dec_bytes(n)[0]),
    decreases n,
{
    if n >= 10 {
        lemma_dec_first_digit(n / 10);
        lemma_dec_bytes_val(n / 10);
    }
}

/// String equality, decided on the UTF-8 bytes.
pub fn str_eq(a: &str, b: &str) -> (r: bool)
    ensures
        r == (a@ == b@),
{
    let ab = a.as_bytes();
    let bb = b.as_bytes();
    if ab.len() != bb.len() {
        proof {
            if a@ == b@ {
                assert(a.spec_bytes() == b.spec_bytes());
            }
        }
        return false;
    }
    let mut i: usize = 0;
    while i < ab.len()
        invariant
            ab@ == a.spec_bytes(),
            bb@ == b.spec_bytes(),
            ab@.len() == bb@.len(),
            0 <= i <= ab@.len(),
            forall|j: int| 0 <= j < i ==> ab@[j] == #[trigger] bb@[j],
        decreases ab@.len() - i,
    {
        if ab[i] != bb[i] {
            proof {
                if a@ == b@ {
                    assert(ab@ == bb@);
                }
            }
            return false;
        }
        i = i + 1;
    }
    proof {
        assert(ab@ =~= bb@);
        assert(encode_utf8(a@) == encode_utf8(b@));
        vstd::utf8::encode_utf8_decode_utf8(a@);
        vstd::utf8::encode_utf8_decode_utf8(b@);
    }
    true
}

// ---------------------------------------------------------------------------
// Bytes back to strings.
// ---------------------------------------------------------------------------
/// Relies on String::from_utf8: it succeeds exactly on valid UTF-8 input and
/// the resulting string holds exactly the given bytes.
#[verifier::external_body]
pub fn string_from_utf8(v: Vec<u8>) -> (r: Option<String>)
    ensures
        r is Some <==> valid_utf8(v@),
        r is Some ==> r->0@ == decode_utf8(v@),
{
    String::from_utf8(v).ok()
}

/// Writes a signed value as a decimal `String`.
pub fn i64_to_string(n: i64) -> (r: String)
    ensures
        encode_utf8(r@) == dec_bytes_i64(n as int),
{
    let v = i64_to_dec(n);
    proof {
        lemma_dec_bytes_ascii(n as int);
        lemma_ascii_valid_utf8(v@);
    }
    match string_from_utf8(v) {
        Some(s) => {
            proof {
                decode_utf8_encode_utf8(dec_bytes_i64(n as int));
            }
            s
        },
        None => {
            proof {
                assert(false);
            }
            String::new()
        },
    }
}

/// A sequence of ASCII bytes is valid UTF-8.
pub proof fn lemma_ascii_valid_utf8(s: Seq<u8>)
    requires
        forall|i: int| 0 <= i < s.len() ==> #[trigger] s[i] < 0x80,
    ensures
        valid_utf8(s),
{
    assert(s.subrange(0, 0) =~= Seq::<u8>::empty());
    assert(partial_valid_utf8(s, 0));
    assert forall|i: int| 0 <= 0 <= i < s.len() <= s.len() implies #[trigger] is_leading_byte_width_1(
        s[i],
    ) by {}
    partial_valid_utf8_extend_ascii_block(s, 0, s.len() as int);
    assert(s.subrange(0, s.len() as int) =~= s);
}

/// Digit bytes and the minus sign are ASCII.
pub proof fn lemma_dec_bytes_ascii(n: int)
    ensures
        forall|i: int|
            0 <= i < dec_bytes_i64(n).len() ==> #[trigger] dec_bytes_i64(n)[i] < 0x80,
{
    lemma_dec_bytes_ascii_nat(if n < 0 {
        (-n) as nat
    } else {
        n as nat
    });
}

proof fn lemma_dec_bytes_ascii_nat(n: nat)
    ensures
        forall|i: int| 0 <= i < dec_bytes(n).len() ==> #[trigger] dec_bytes(n)[i] < 0x80,
    decreases n,
{
    if n < 10 {
        assert(dec_bytes(n)[0] == (0x30 + n) as u8);
        assert(((0x30 + n) as u8) < 0x80);
    } else {
        lemma_dec_bytes_ascii_nat(n / 10);
        assert forall|i: int| 0 <= i < dec_bytes(n).len() implies #[trigger] dec_bytes(n)[i]
            < 0x80 by {
            if i < dec_bytes(n).len() - 1 {
                assert(dec_bytes(n)[i] == dec_bytes(n / 10)[i]);
            } else {
                assert(dec_bytes(n)[i] == (0x30 + n % 10) as u8);
                assert(((0x30 + n % 10) as u8) < 0x80);
            }
        }
    }
}

// ---------------------------------------------------------------------------
// String escaping inside text frames.
// ---------------------------------------------------------------------------
/// The escape of one byte of UTF-8 text: quotes and backslashes get a
/// backslash, control bytes become `\u00xy`, everything else (including the
/// bytes of multi-byte characters) passes through.
pub open spec fn esc_byte(b: u8) -> Seq<u8> {
    if b == 0x22 {
        seq![0x5cu8, 0x22u8]
    } else if b == 0x5c {
        seq![0x5cu8, 0x5cu8]
    } else if b < 0x20 {
        seq![0x5cu8, 0x75u8, 0x30u8, 0x30u8, hex_digit(b / 16), hex_digit(b % 16)]
    } else {
        seq![b]
    }
}

/// The lowercase hexadecimal digit for a value below 16.
pub open spec fn hex_digit(d: u8) -> u8 {
    if d < 10 {
        (0x30 + d) as u8
    } else {
        (0x57 + d) as u8
    }
}

pub open spec fn is_hex_digit(b: u8) -> bool {
    (0x30 <= b <= 0x39) || (0x61 <= b <= 0x66)
}

/// The value of a lowercase hexadecimal digit.
pub open spec fn hex_val(b: u8) -> u8 {
    if 0x30 <= b <= 0x39 {
        (b - 0x30) as u8
    } else {
        (b - 0x57) as u8
    }
}

/// The escaped form of a byte sequence.
pub open spec fn esc_bytes(s: Seq<u8>) -> Seq<u8>
    decreases s.len(),
{
    if s.len() == 0 {
        Seq::empty()
    } else {
        esc_byte(s[0]) + esc_bytes(s.drop_first())
    }
}

/// Escaping distributes over concatenation.
pub proof fn lemma_esc_distributes(a: Seq<u8>, b: Seq<u8>)
    ensures
        esc_bytes(a + b) == esc_bytes(a) + esc_bytes(b),
    decreases a.len(),
{
    if a.len() == 0 {
        assert(a + b =~= b);
        assert(esc_bytes(a) =~= Seq::<u8>::empty());
        assert(esc_bytes(a) + esc_bytes(b) =~= esc_bytes(b));
    } else {
        assert((a + b).drop_first() =~= a.drop_first() + b);
        lemma_esc_distributes(a.drop_first(), b);
        assert(esc_bytes(a + b) =~= esc_byte(a[0]) + (esc_bytes(a.drop_first()) + esc_bytes(b)));
        assert(esc_byte(a[0]) + (esc_bytes(a.drop_first()) + esc_bytes(b)) =~= (esc_byte(a[0])
            + esc_bytes(a.drop_first())) + esc_bytes(b));
    }
}

/// Escapes the bytes of a text field.
pub fn escape_bytes(s: &[u8]) -> (r: Vec<u8>)
    ensures
        r@ == esc_bytes(s@),
{
    let mut r: Vec<u8> = Vec::new();
    let mut i: usize = 0;
    proof {
        assert(s@.subrange(0, 0) =~= Seq::<u8>::empty());
        assert(esc_bytes(Seq::<u8>::empty()) =~= Seq::<u8>::empty());
    }
    while i < s.len()
        invariant
            0 <= i <= s@.len(),
            r@ == esc_bytes(s@.subrange(0, i as int)),
        decreases s@.len() - i,
    {
        let b = s[i];
        let ghost pre = r@;
        if b == 0x22 {
            r.push(0x5c);
            r.push(0x22);
        } else if b == 0x5c {
            r.push(0x5c);
            r.push(0x5c);
        } else if b < 0x20 {
            r.push(0x5c);
            r.push(0x75);
            r.push(0x30);
            r.push(0x30);
            let hi = b / 16;
            let lo = b % 16;
            r.push(if hi < 10 { 0x30 + hi } else { 0x57 + hi });
            r.push(if lo < 10 { 0x30 + lo } else { 0x57 + lo });
        } else {
            r.push(b);
        }
        proof {
            assert(s@.subrange(0, i as int + 1) =~= s@.subrange(0, i as int) + seq![b]);
            lemma_esc_distributes(s@.subrange(0, i as int), seq![b]);
            assert(seq![b].drop_first() =~= Seq::<u8>::empty());
            assert(esc_bytes(seq![b]) =~= esc_byte(b) + esc_bytes(Seq::<u8>::empty()));
            assert(esc_bytes(seq![b]) =~= esc_byte(b));
            assert(r@ =~= pre + esc_byte(b));
        }
        i = i + 1;
    }
    proof {
        assert(s@.subrange(0, s@.len() as int) =~= s@);
    }
    r
}

/// What scanning a quoted field decodes: the bytes up to the next
/// unescaped quote, unescaped, and the input that follows the quote.
/// Accepts exactly the escapes [`esc_byte`] produces; a bare control byte,
/// a lone backslash or a missing quote is a refusal.
pub open spec fn unesc_spec(s: Seq<u8>) -> Option<(Seq<u8>, Seq<u8>)>
    decreases s.len(),
{
    if s.len() == 0 {
        None
    } else if s[0] == 0x22 {
        Some((Seq::empty(), s.drop_first()))
    } else if s[0] == 0x5c {
        if s.len() >= 2 && (s[1] == 0x22 || s[1] == 0x5c) {
            unesc_cons(s[1], unesc_spec(s.skip(2)))
        } else if s.len() >= 6 && s[1] == 0x75 && s[2] == 0x30 && s[3] == 0x30 && is_hex_digit(
            s[4],
        ) && is_hex_digit(s[5]) && hex_val(s[4]) * 16 + hex_val(s[5]) < 0x20 {
            unesc_cons((hex_val(s[4]) * 16 + hex_val(s[5])) as u8, unesc_spec(s.skip(6)))
        } else {
            None
        }
    } else if s[0] < 0x20 {
        None
    } else {
        unesc_cons(s[0], unesc_spec(s.skip(1)))
    }
}

pub open spec fn unesc_cons(b: u8, r: Option<(Seq<u8>, Seq<u8>)>) -> Option<(Seq<u8>, Seq<u8>)> {
    match r {
        Some(p) => Some((seq![b] + p.0, p.1)),
        None => None,
    }
}

/// LAW (escape round trip): an escaped field followed by its closing quote
/// scans back to exactly the original bytes, whatever follows the quote.
pub proof fn lemma_unesc_round(b: Seq<u8>, rest: Seq<u8>)
    ensures
        unesc_spec(esc_bytes(b) + seq![0x22u8] + rest) == Some((b, rest)),
    decreases b.len(),
{
    let s = esc_bytes(b) + seq![0x22u8] + rest;
    if b.len() == 0 {
        assert(esc_bytes(b) =~= Seq::<u8>::empty());
        assert(s =~= seq![0x22u8] + rest);
        assert(s[0] == 0x22);
        assert(s.drop_first() =~= rest);
        assert(unesc_spec(s) == Some((Seq::<u8>::empty(), rest)));
        assert(b =~= Seq::<u8>::empty());
    } else {
        let e0 = esc_byte(b[0]);
        let tail = b.drop_first();
        assert(esc_bytes(b) == e0 + esc_bytes(tail));
        let srest = esc_bytes(tail) + seq![0x22u8] + rest;
        assert(s =~= e0 + srest);
        lemma_unesc_round(tail, rest);
        let h = b[0];
        if h == 0x22 {
            assert(s[0] == 0x5c && s[1] == 0x22);
            assert(s.skip(2) =~= srest);
            assert(unesc_spec(s) == unesc_cons(0x22, Some((tail, rest))));
            assert(seq![h] + tail =~= b);
        } else if h == 0x5c {
            assert(s[0] == 0x5c && s[1] == 0x5c);
            assert(s.skip(2) =~= srest);
            assert(seq![h] + tail =~= b);
        } else if h < 0x20 {
            assert(s[0] == 0x5c && s[1] == 0x75 && s[2] == 0x30 && s[3] == 0x30);
            assert(s[4] == hex_digit(h / 16) && s[5] == hex_digit(h % 16));
            assert(is_hex_digit(hex_digit(h / 16)) && hex_val(hex_digit(h / 16)) == h / 16);
            assert(is_hex_digit(hex_digit(h % 16)) && hex_val(hex_digit(h % 16)) == h % 16);
            assert((h / 16) * 16 + h % 16 == h) by {
                vstd::arithmetic::div_mod::lemma_fundamental_div_mod(h as int, 16);
            }
            assert(s.skip(6) =~= srest);
            assert(seq![h] + tail =~= b);
        } else {
            assert(s[0] == h);
            assert(s[0] != 0x22 && s[0] != 0x5c && !(s[0] < 0x20));
            assert(s.skip(1) =~= srest);
            assert(seq![h] + tail =~= b);
        }
    }
}

/// Plain bytes (no quote, no backslash, no control byte) escape to
/// themselves; decimal digits are such bytes.
pub proof fn lemma_esc_plain_identity(s: Seq<u8>)
    requires
        forall|i: int|
            0 <= i < s.len() ==> (0x20 <= #[trigger] s[i] && s[i] != 0x22 && s[i] != 0x5c),
    ensures
        esc_bytes(s) == s,
    decreases s.len(),
{
    if s.len() == 0 {
        assert(esc_bytes(s) =~= s);
    } else {
        assert(0x20 <= s[0]);
        lemma_esc_plain_identity(s.drop_first());
        assert(esc_bytes(s) =~= seq![s[0]] + s.drop_first());
        assert(seq![s[0]] + s.drop_first() =~= s);
    }
}

/// Scans a quoted field starting at `from`: the decoded bytes and the
/// position just past the closing quote, exactly as [`unesc_spec`]
/// describes on the remaining input.
pub fn unescape_from(s: &[u8], from: usize) -> (r: Option<(Vec<u8>, usize)>)
    requires
        from <= s@.len(),
    ensures
        match unesc_spec(s@.subrange(from as int, s@.len() as int)) {
            Some(p) => ({
                let q = r->0;
                &&& r is Some
                &&& q.0@ == p.0
                &&& q.1 == s@.len() - p.1.len()
                &&& from <= q.1 <= s@.len()
            }),
            None => r is None,
        },
{
    let n = s.len();
    let mut out: Vec<u8> = Vec::new();
    let mut i = from;
    while i < n
        invariant
            from <= i <= n == s@.len(),
            unesc_spec(s@.subrange(from as int, n as int)) == unesc_cons_seq(
                out@,
                unesc_spec(s@.subrange(i as int, n as int)),
            ),
        decreases n - i,
    {
        let ghost cur = s@.subrange(i as int, n as int);
        let b = s[i];
        proof {
            assert(cur[0] == b);
        }
        if b == 0x22 {
            proof {
                assert(unesc_spec(cur) == Some((Seq::<u8>::empty(), cur.drop_first())));
                assert(out@ + Seq::<u8>::empty() =~= out@);
                assert(cur.drop_first() =~= s@.subrange(i as int + 1, n as int));
            }
            return Some((out, i + 1));
        } else if b == 0x5c {
            if i + 1 < n && (s[i + 1] == 0x22 || s[i + 1] == 0x5c) {
                proof {
                    assert(cur[1] == s@[i as int + 1]);
                    assert(cur.skip(2) =~= s@.subrange(i as int + 2, n as int));
                }
                let ghost preout = out@;
                out.push(s[i + 1]);
                proof {
                    assert(out@ =~= preout + seq![cur[1]]);
                    lemma_unesc_cons_assoc(preout, cur[1], unesc_spec(cur.skip(2)));
                }
                i = i + 2;
            } else if n - i > 5 && s[i + 1] == 0x75 && s[i + 2] == 0x30 && s[i + 3] == 0x30 && (
            (0x30 <= s[i + 4] && s[i + 4] <= 0x39) || (0x61 <= s[i + 4] && s[i + 4] <= 0x66)) && (
            (0x30 <= s[i + 5] && s[i + 5] <= 0x39) || (0x61 <= s[i + 5] && s[i + 5] <= 0x66)) && {
                let hi = if s[i + 4] <= 0x39 {
                    s[i + 4] - 0x30
                } else {
                    s[i + 4] - 0x57
                };
                let lo = if s[i + 5] <= 0x39 {
                    s[i + 5] - 0x30
                } else {
                    s[i + 5] - 0x57
                };
                hi * 16 + lo < 0x20
            } {
                let hi = if s[i + 4] <= 0x39 {
                    s[i + 4] - 0x30
                } else {
                    s[i + 4] - 0x57
                };
                let lo = if s[i + 5] <= 0x39 {
                    s[i + 5] - 0x30
                } else {
                    s[i + 5] - 0x57
                };
                let v = hi * 16 + lo;
                proof {
                    assert(cur[1] == s@[i as int + 1]);
                    assert(cur[2] == s@[i as int + 2]);
                    assert(cur[3] == s@[i as int + 3]);
                    assert(cur[4] == s@[i as int + 4]);
                    assert(cur[5] == s@[i as int + 5]);
                    assert(is_hex_digit(cur[4]) && is_hex_digit(cur[5]));
                    assert(hex_val(cur[4]) == hi && hex_val(cur[5]) == lo);
                    assert(cur.skip(6) =~= s@.subrange(i as int + 6, n as int));
                }
                let ghost preout = out@;
                out.push(v);
                proof {
                    assert(out@ =~= preout + seq![v]);
                    lemma_unesc_cons_assoc(preout, v, unesc_spec(cur.skip(6)));
                }
                i = i + 6;
            } else {
                proof {
                    assert(unesc_spec(cur) is None) by {
                        if cur.len() >= 2 {
                            assert(cur[1] == s@[i as int + 1]);
                        }
                        if cur.len() >= 6 {
                            assert(cur[2] == s@[i as int + 2]);
                            assert(cur[3] == s@[i as int + 3]);
                            assert(cur[4] == s@[i as int + 4]);
                            assert(cur[5] == s@[i as int + 5]);
                        }
                    }
                }
                return None;
            }
        } else if b < 0x20 {
            return None;
        } else {
            proof {
                assert(cur.skip(1) =~= s@.subrange(i as int + 1, n as int));
            }
            let ghost preout = out@;
            out.push(b);
            proof {
                assert(out@ =~= preout + seq![b]);
                lemma_unesc_cons_assoc(preout, b, unesc_spec(cur.skip(1)));
            }
            i = i + 1;
        }
    }
    proof {
        assert(s@.subrange(i as int, n as int).len() == 0);
    }
    None
}

/// Prefixing decoded bytes onto a scan result.
pub open spec fn unesc_cons_seq(pre: Seq<u8>, r: Option<(Seq<u8>, Seq<u8>)>) -> Option<
    (Seq<u8>, Seq<u8>),
> {
    match r {
        Some(p) => Some((pre + p.0, p.1)),
        None => None,
    }
}

proof fn lemma_unesc_cons_assoc(pre: Seq<u8>, b: u8, r: Option<(Seq<u8>, Seq<u8>)>)
    ensures
        unesc_cons_seq(pre, unesc_cons(b, r)) == unesc_cons_seq(pre + seq![b], r),
{
    match r {
        Some(p) => {
            assert(pre + (seq![b] + p.0) =~= (pre + seq![b]) + p.0);
        },
        None => {},
    }
}

// ---------------------------------------------------------------------------
// The message frame.
// ---------------------------------------------------------------------------
use crate::snowflake::Snowflake;
use crate::store::Message;

/// A message fit for the wire: all three identifiers are valid.
pub open spec fn msg_wf(m: Message) -> bool {
    m.id.valid() && m.author.valid() && m.parent.valid()
}

pub open spec fn lit_id() -> Seq<u8> {
    ("{\"id\":\"").spec_bytes()
}

pub open spec fn lit_author() -> Seq<u8> {
    (",\"author\":\"").spec_bytes()
}

pub open spec fn lit_author_name() -> Seq<u8> {
    (",\"author_name\":\"").spec_bytes()
}

pub open spec fn lit_parent() -> Seq<u8> {
    (",\"parent\":\"").spec_bytes()
}

pub open spec fn lit_content() -> Seq<u8> {
    (",\"content\":\"").spec_bytes()
}

pub open spec fn frame_tail_author(m: Message) -> Seq<u8> {
    lit_author() + dec_bytes(m.author.id as nat) + seq![0x22u8] + frame_tail_author_name(m)
}

pub open spec fn frame_tail_author_name(m: Message) -> Seq<u8> {
    lit_author_name() + esc_bytes(encode_utf8(m.author_name@)) + seq![0x22u8] + frame_tail_parent(
        m,
    )
}

pub open spec fn frame_tail_parent(m: Message) -> Seq<u8> {
    lit_parent() + dec_bytes(m.parent.id as nat) + seq![0x22u8] + frame_tail_content(m)
}

pub open spec fn frame_tail_content(m: Message) -> Seq<u8> {
    lit_content() + esc_bytes(encode_utf8(m.content@)) + seq![0x22u8] + seq![0x7du8]
}

/// The wire frame of one message: one object whose identifier fields are
/// decimal strings and whose text fields are escaped strings.
pub open spec fn msg_frame_bytes(m: Message) -> Seq<u8> {
    lit_id() + dec_bytes(m.id.id as nat) + seq![0x22u8] + frame_tail_author(m)
}

/// Digit bytes pass through escaping unchanged.
proof fn lemma_dec_bytes_plain(n: nat)
    ensures
        esc_bytes(dec_bytes(n)) == dec_bytes(n),
{
    lemma_dec_bytes_val(n);
    assert forall|i: int|
        0 <= i < dec_bytes(n).len() implies (0x20 <= #[trigger] dec_bytes(n)[i] && dec_bytes(n)[i]
        != 0x22 && dec_bytes(n)[i] != 0x5c) by {
        assert(is_dec_digit(dec_bytes(n)[i]));
    }
    lemma_esc_plain_identity(dec_bytes(n));
}

/// How a frame decomposes under the parser: every literal sits where the
/// parser looks for it, and every quoted field scans back to its bytes with
/// the rest of the frame following.
#[verifier::rlimit(100)]
proof fn lemma_frame_facts(m: Message, s: Seq<u8>)
    requires
        msg_wf(m),
        s == msg_frame_bytes(m),
    ensures
        ({
            let d1 = dec_bytes(m.id.id as nat);
            let d2 = dec_bytes(m.author.id as nat);
            let d3 = dec_bytes(m.parent.id as nat);
            let e1 = esc_bytes(encode_utf8(m.author_name@));
            let e2 = esc_bytes(encode_utf8(m.content@));
            let p1 = lit_id().len() as int;
            let p2 = s.len() - frame_tail_author(m).len() as int;
            let p2b = p2 + lit_author().len() as int;
            let p3 = s.len() - frame_tail_author_name(m).len() as int;
            let p3b = p3 + lit_author_name().len() as int;
            let p4 = s.len() - frame_tail_parent(m).len() as int;
            let p4b = p4 + lit_parent().len() as int;
            let p5 = s.len() - frame_tail_content(m).len() as int;
            let p5b = p5 + lit_content().len() as int;
            &&& 0 <= p1 <= p2 <= p2b <= p3 <= p3b <= p4 <= p4b <= p5 <= p5b < s.len()
            &&& s.subrange(0, p1) == lit_id()
            &&& unesc_spec(s.subrange(p1, s.len() as int)) == Some((d1, frame_tail_author(m)))
            &&& s.subrange(p2, p2b) == lit_author()
            &&& unesc_spec(s.subrange(p2b, s.len() as int)) == Some(
                (d2, frame_tail_author_name(m)),
            )
            &&& s.subrange(p3, p3b) == lit_author_name()
            &&& unesc_spec(s.subrange(p3b, s.len() as int)) == Some(
                (encode_utf8(m.author_name@), frame_tail_parent(m)),
            )
            &&& s.subrange(p4, p4b) == lit_parent()
            &&& unesc_spec(s.subrange(p4b, s.len() as int)) == Some((d3, frame_tail_content(m)))
            &&& s.subrange(p5, p5b) == lit_content()
            &&& unesc_spec(s.subrange(p5b, s.len() as int)) == Some(
                (encode_utf8(m.content@), seq![0x7du8]),
            )
            &&& s.len() - 1 == s.len() - seq![0x7du8].len()
            &&& s[s.len() - 1] == 0x7d
        }),
{
    let d1 = dec_bytes(m.id.id as nat);
    let d2 = dec_bytes(m.author.id as nat);
    let d3 = dec_bytes(m.parent.id as nat);
    let e1 = esc_bytes(encode_utf8(m.author_name@));
    let e2 = esc_bytes(encode_utf8(m.content@));
    let q = seq![0x22u8];
    let t1 = frame_tail_author(m);
    let t2 = frame_tail_author_name(m);
    let t3 = frame_tail_parent(m);
    let t4 = frame_tail_content(m);
    let p1 = lit_id().len() as int;
    lemma_dec_bytes_val(m.id.id as nat);
    lemma_dec_bytes_val(m.author.id as nat);
    lemma_dec_bytes_val(m.parent.id as nat);
    assert(s.subrange(0, p1) =~= lit_id());
    assert(s.subrange(p1, s.len() as int) =~= d1 + q + t1);
    lemma_dec_bytes_plain(m.id.id as nat);
    lemma_unesc_round(d1, t1);
    let p2 = s.len() - t1.len() as int;
    assert(s.subrange(p2, s.len() as int) =~= t1);
    let p2b = p2 + lit_author().len() as int;
    assert(s.subrange(p2, p2b) =~= t1.subrange(0, lit_author().len() as int));
    assert(t1.subrange(0, lit_author().len() as int) =~= lit_author());
    assert(s.subrange(p2b, s.len() as int) =~= d2 + q + t2);
    lemma_dec_bytes_plain(m.author.id as nat);
    lemma_unesc_round(d2, t2);
    let p3 = s.len() - t2.len() as int;
    assert(s.subrange(p3, s.len() as int) =~= t2);
    let p3b = p3 + lit_author_name().len() as int;
    assert(s.subrange(p3, p3b) =~= t2.subrange(0, lit_author_name().len() as int));
    assert(t2.subrange(0, lit_author_name().len() as int) =~= lit_author_name());
    assert(s.subrange(p3b, s.len() as int) =~= e1 + q + t3);
    lemma_unesc_round(encode_utf8(m.author_name@), t3);
    let p4 = s.len() - t3.len() as int;
    assert(s.subrange(p4, s.len() as int) =~= t3);
    let p4b = p4 + lit_parent().len() as int;
    assert(s.subrange(p4, p4b) =~= t3.subrange(0, lit_parent().len() as int));
    assert(t3.subrange(0, lit_parent().len() as int) =~= lit_parent());
    assert(s.subrange(p4b, s.len() as int) =~= d3 + q + t4);
    lemma_dec_bytes_plain(m.parent.id as nat);
    lemma_unesc_round(d3, t4);
    let p5 = s.len() - t4.len() as int;
    assert(s.subrange(p5, s.len() as int) =~= t4);
    let p5b = p5 + lit_content().len() as int;
    assert(s.subrange(p5, p5b) =~= t4.subrange(0, lit_content().len() as int));
    assert(t4.subrange(0, lit_content().len() as int) =~= lit_content());
    assert(s.subrange(p5b, s.len() as int) =~= e2 + q + seq![0x7du8]);
    lemma_unesc_round(encode_utf8(m.content@), seq![0x7du8]);
    assert(s[s.len() - 1] == 0x7d);
}

/// Writes one message in its wire frame.
pub fn serialize_message(m: &Message) -> (r: Vec<u8>)
    requires
        msg_wf(*m),
    ensures
        r@ == msg_frame_bytes(*m),
{
    let mut v: Vec<u8> = Vec::new();
    v.extend_from_slice("{\"id\":\"".as_bytes());
    let mut d1 = u64_to_dec(m.id.id as u64);
    v.append(&mut d1);
    v.push(0x22);
    v.extend_from_slice(",\"author\":\"".as_bytes());
    let mut d2 = u64_to_dec(m.author.id as u64);
    v.append(&mut d2);
    v.push(0x22);
    v.extend_from_slice(",\"author_name\":\"".as_bytes());
    let mut e1 = escape_bytes(m.author_name.as_str().as_bytes());
    v.append(&mut e1);
    v.push(0x22);
    v.extend_from_slice(",\"parent\":\"".as_bytes());
    let mut d3 = u64_to_dec(m.parent.id as u64);
    v.append(&mut d3);
    v.push(0x22);
    v.extend_from_slice(",\"content\":\"".as_bytes());
    let mut e2 = escape_bytes(m.content.as_str().as_bytes());
    v.append(&mut e2);
    v.push(0x22);
    v.push(0x7d);
    proof {
        assert(m.id.id as u64 as nat == m.id.id as nat);
        assert(m.author.id as u64 as nat == m.author.id as nat);
        assert(m.parent.id as u64 as nat == m.parent.id as nat);
        assert(v@ =~= msg_frame_bytes(*m));
    }
    v
}

/// Consumes an exact literal: the position after it when the input carries
/// it at `from`, nothing otherwise.
fn expect_lit(s: &[u8], from: usize, lit: &str) -> (r: Option<usize>)
    requires
        from <= s@.len(),
    ensures
        ({
            let lb = lit.spec_bytes();
            if from + lb.len() <= s@.len() && s@.subrange(from as int, from + lb.len() as int)
                == lb {
                r is Some && r->0 == from + lb.len() && r->0 <= s@.len()
            } else {
                r is None
            }
        }),
{
    let lb = lit.as_bytes();
    let n = s.len();
    if n - from < lb.len() {
        return None;
    }
    let mut k: usize = 0;
    while k < lb.len()
        invariant
            0 <= k <= lb@.len(),
            n == s@.len(),
            from + lb@.len() <= n,
            lb@ == lit.spec_bytes(),
            forall|j: int| 0 <= j < k ==> s@[from + j] == #[trigger] lb@[j],
        decreases lb@.len() - k,
    {
        if s[from + k] != lb[k] {
            proof {
                let sub = s@.subrange(from as int, from + lb@.len() as int);
                assert(sub[k as int] == s@[from + k]);
                assert(sub != lb@);
            }
            return None;
        }
        k = k + 1;
    }
    proof {
        assert(s@.subrange(from as int, from + lb@.len() as int) =~= lb@);
    }
    Some(from + lb.len())
}

/// Reads a quoted decimal identifier field starting at `from`.
fn parse_id_field(s: &[u8], from: usize) -> (r: Option<(Snowflake, usize)>)
    requires
        from <= s@.len(),
    ensures
        ({
            let u = unesc_spec(s@.subrange(from as int, s@.len() as int));
            match u {
                Some(p) => {
                    if p.0.len() > 0 && all_dec_digits(p.0) && dec_val(p.0) <= i64::MAX {
                        ({
                            let q = r->0;
                            &&& r is Some
                            &&& q.0.id == dec_val(p.0)
                            &&& q.0.valid()
                            &&& q.1 == s@.len() - p.1.len()
                            &&& from <= q.1 <= s@.len()
                        })
                    } else {
                        r is None
                    }
                },
                None => r is None,
            }
        }),
{
    let (digits, next) = match unescape_from(s, from) {
        Some(p) => p,
        None => {
            return None;
        },
    };
    let v = match parse_u64_dec(digits.as_slice()) {
        Some(v) => v,
        None => {
            return None;
        },
    };
    if v > 0x7FFFFFFFFFFFFFFFu64 {
        return None;
    }
    Some((Snowflake { id: v as i64 }, next))
}

/// Reads one message back from its wire frame. On the frame of any
/// well-formed message this reconstructs that message: the identifier, the
/// author, the parent, and both text fields come back exactly.
pub fn parse_message(s: &[u8]) -> (r: Option<Message>)
    ensures
        forall|m: Message|
            (msg_wf(m) && s@ == #[trigger] msg_frame_bytes(m)) ==> ({
                let out = r->0;
                &&& r is Some
                &&& out.id == m.id
                &&& out.author == m.author
                &&& out.parent == m.parent
                &&& out.author_name@ == m.author_name@
                &&& out.content@ == m.content@
            }),
{
    let n = s.len();
    let i1 = match expect_lit(s, 0, "{\"id\":\"") {
        Some(i) => i,
        None => {
            proof {
                assert forall|m: Message| !(msg_wf(m) && s@ == #[trigger] msg_frame_bytes(m)) by {
                    if msg_wf(m) && s@ == msg_frame_bytes(m) {
                        lemma_frame_facts(m, s@);
                    }
                }
            }
            return None;
        },
    };
    let (id, i2) = match parse_id_field(s, i1) {
        Some(p) => p,
        None => {
            proof {
                assert forall|m: Message| !(msg_wf(m) && s@ == #[trigger] msg_frame_bytes(m)) by {
                    if msg_wf(m) && s@ == msg_frame_bytes(m) {
                        lemma_frame_facts(m, s@);
                        lemma_dec_bytes_val(m.id.id as nat);
                    }
                }
            }
            return None;
        },
    };
    let i2b = match expect_lit(s, i2, ",\"author\":\"") {
        Some(i) => i,
        None => {
            proof {
                assert forall|m: Message| !(msg_wf(m) && s@ == #[trigger] msg_frame_bytes(m)) by {
                    if msg_wf(m) && s@ == msg_frame_bytes(m) {
                        lemma_frame_facts(m, s@);
                        lemma_dec_bytes_val(m.id.id as nat);
                    }
                }
            }
            return None;
        },
    };
    let (author, i3) = match parse_id_field(s, i2b) {
        Some(p) => p,
        None => {
            proof {
                assert forall|m: Message| !(msg_wf(m) && s@ == #[trigger] msg_frame_bytes(m)) by {
                    if msg_wf(m) && s@ == msg_frame_bytes(m) {
                        lemma_frame_facts(m, s@);
                        lemma_dec_bytes_val(m.id.id as nat);
                        lemma_dec_bytes_val(m.author.id as nat);
                    }
                }
            }
            return None;
        },
    };
    let i3b = match expect_lit(s, i3, ",\"author_name\":\"") {
        Some(i) => i,
        None => {
            proof {
                assert forall|m: Message| !(msg_wf(m) && s@ == #[trigger] msg_frame_bytes(m)) by {
                    if msg_wf(m) && s@ == msg_frame_bytes(m) {
                        lemma_frame_facts(m, s@);
                        lemma_dec_bytes_val(m.id.id as nat);
                        lemma_dec_bytes_val(m.author.id as nat);
                    }
                }
            }
            return None;
        },
    };
    let (name_bytes, i4) = match unescape_from(s, i3b) {
        Some(p) => p,
        None => {
            proof {
                assert forall|m: Message| !(msg_wf(m) && s@ == #[trigger] msg_frame_bytes(m)) by {
                    if msg_wf(m) && s@ == msg_frame_bytes(m) {
                        lemma_frame_facts(m, s@);
                        lemma_dec_bytes_val(m.id.id as nat);
                        lemma_dec_bytes_val(m.author.id as nat);
                    }
                }
            }
            return None;
        },
    };
    let author_name = match string_from_utf8(name_bytes) {
        Some(t) => t,
        None => {
            proof {
                assert forall|m: Message| !(msg_wf(m) && s@ == #[trigger] msg_frame_bytes(m)) by {
                    if msg_wf(m) && s@ == msg_frame_bytes(m) {
                        lemma_frame_facts(m, s@);
                        lemma_dec_bytes_val(m.id.id as nat);
                        lemma_dec_bytes_val(m.author.id as nat);
                        vstd::utf8::encode_utf8_valid_utf8(m.author_name@);
                    }
                }
            }
            return None;
        },
    };
    let i4b = match expect_lit(s, i4, ",\"parent\":\"") {
        Some(i) => i,
        None => {
            proof {
                assert forall|m: Message| !(msg_wf(m) && s@ == #[trigger] msg_frame_bytes(m)) by {
                    if msg_wf(m) && s@ == msg_frame_bytes(m) {
                        lemma_frame_facts(m, s@);
                        lemma_dec_bytes_val(m.id.id as nat);
                        lemma_dec_bytes_val(m.author.id as nat);
                        vstd::utf8::encode_utf8_valid_utf8(m.author_name@);
                    }
                }
            }
            return None;
        },
    };
    let (parent, i5) = match parse_id_field(s, i4b) {
        Some(p) => p,
        None => {
            proof {
                assert forall|m: Message| !(msg_wf(m) && s@ == #[trigger] msg_frame_bytes(m)) by {
                    if msg_wf(m) && s@ == msg_frame_bytes(m) {
                        lemma_frame_facts(m, s@);
                        lemma_dec_bytes_val(m.id.id as nat);
                        lemma_dec_bytes_val(m.author.id as nat);
                        lemma_dec_bytes_val(m.parent.id as nat);
                        vstd::utf8::encode_utf8_valid_utf8(m.author_name@);
                    }
                }
            }
            return None;
        },
    };
    let i5b = match expect_lit(s, i5, ",\"content\":\"") {
        Some(i) => i,
        None => {
            proof {
                assert forall|m: Message| !(msg_wf(m) && s@ == #[trigger] msg_frame_bytes(m)) by {
                    if msg_wf(m) && s@ == msg_frame_bytes(m) {
                        lemma_frame_facts(m, s@);
                        lemma_dec_bytes_val(m.id.id as nat);
                        lemma_dec_bytes_val(m.author.id as nat);
                        lemma_dec_bytes_val(m.parent.id as nat);
                        vstd::utf8::encode_utf8_valid_utf8(m.author_name@);
                    }
                }
            }
            return None;
        },
    };
    let (content_bytes, i6) = match unescape_from(s, i5b) {
        Some(p) => p,
        None => {
            proof {
                assert forall|m: Message| !(msg_wf(m) && s@ == #[trigger] msg_frame_bytes(m)) by {
                    if msg_wf(m) && s@ == msg_frame_bytes(m) {
                        lemma_frame_facts(m, s@);
                        lemma_dec_bytes_val(m.id.id as nat);
                        lemma_dec_bytes_val(m.author.id as nat);
                        lemma_dec_bytes_val(m.parent.id as nat);
                        vstd::utf8::encode_utf8_valid_utf8(m.author_name@);
                    }
                }
            }
            return None;
        },
    };
    let content = match string_from_utf8(content_bytes) {
        Some(t) => t,
        None => {
            proof {
                assert forall|m: Message| !(msg_wf(m) && s@ == #[trigger] msg_frame_bytes(m)) by {
                    if msg_wf(m) && s@ == msg_frame_bytes(m) {
                        lemma_frame_facts(m, s@);
                        lemma_dec_bytes_val(m.id.id as nat);
                        lemma_dec_bytes_val(m.author.id as nat);
                        lemma_dec_bytes_val(m.parent.id as nat);
                        vstd::utf8::encode_utf8_valid_utf8(m.author_name@);
                        vstd::utf8::encode_utf8_valid_utf8(m.content@);
                    }
                }
            }
            return None;
        },
    };
    if !(i6 < n && s[i6] == 0x7d && i6 + 1 == n) {
        proof {
            assert forall|m: Message| !(msg_wf(m) && s@ == #[trigger] msg_frame_bytes(m)) by {
                if msg_wf(m) && s@ == msg_frame_bytes(m) {
                    lemma_frame_facts(m, s@);
                    lemma_dec_bytes_val(m.id.id as nat);
                    lemma_dec_bytes_val(m.author.id as nat);
                    lemma_dec_bytes_val(m.parent.id as nat);
                    vstd::utf8::encode_utf8_valid_utf8(m.author_name@);
                    vstd::utf8::encode_utf8_valid_utf8(m.content@);
                }
            }
        }
        return None;
    }
    let out = Message { id, author, author_name, parent, content };
    proof {
        assert forall|m: Message|
            (msg_wf(m) && s@ == #[trigger] msg_frame_bytes(m)) implies ({
            &&& out.id == m.id
            &&& out.author == m.author
            &&& out.parent == m.parent
            &&& out.author_name@ == m.author_name@
            &&& out.content@ == m.content@
        }) by {
            lemma_frame_facts(m, s@);
            lemma_dec_bytes_val(m.id.id as nat);
            lemma_dec_bytes_val(m.author.id as nat);
            lemma_dec_bytes_val(m.parent.id as nat);
            vstd::utf8::encode_utf8_valid_utf8(m.author_name@);
            vstd::utf8::encode_utf8_valid_utf8(m.content@);
            vstd::utf8::encode_utf8_decode_utf8(m.author_name@);
            vstd::utf8::encode_utf8_decode_utf8(m.content@);
        }
    }
    Some(out)
}

} // verus!
