use vstd::prelude::*;

use crate::felt::bytes_all_zero;
use crate::felt::div_small;
use crate::felt::lemma_pow256_small;
use crate::felt::lt_prime;
use crate::felt::mul_small_add;
use crate::felt::zero_vec32;
use crate::felt::Felt;
use crate::field_prime;
use crate::num::be_val;
use crate::num::lemma_be_val_zero;
use crate::num::lemma_prefix_extend;
use crate::num::pow256;

verus! {

broadcast use vstd::arithmetic::mul::lemma_mul_nonnegative;


/// ASCII code points used by the textual formats.
pub const ASCII_0: u8 = 48;

pub const ASCII_9: u8 = 57;

pub const ASCII_LA: u8 = 97;

pub const ASCII_LF: u8 = 102;

pub const ASCII_UA: u8 = 65;

pub const ASCII_UF: u8 = 70;

pub const ASCII_LX: u8 = 120;

pub const ASCII_UX: u8 = 88;

/// How a textual field-element form can be rejected.
#[derive(Clone, Copy, Debug, PartialEq, Eq, Structural)]
pub enum FeltParseError {
    /// A character outside the expected alphabet.
    InvalidFormat,
    /// A value at or above the field prime, or wider than the target domain.
    OutOfRange,
}

// ---------------------------------------------------------------------------
// Digit alphabets
// ---------------------------------------------------------------------------

pub open spec fn is_hex_digit(b: u8) -> bool {
    (ASCII_0 <= b && b <= ASCII_9) || (ASCII_LA <= b && b <= ASCII_LF) || (ASCII_UA <= b && b <= ASCII_UF)
}

pub open spec fn is_lower_hex_digit(b: u8) -> bool {
    (ASCII_0 <= b && b <= ASCII_9) || (ASCII_LA <= b && b <= ASCII_LF)
}

pub open spec fn hex_digit_val(b: u8) -> nat {
    if ASCII_0 <= b && b <= ASCII_9 {
        (b - ASCII_0) as nat
    } else if ASCII_LA <= b && b <= ASCII_LF {
        (b - ASCII_LA + 10) as nat
    } else if ASCII_UA <= b && b <= ASCII_UF {
        (b - ASCII_UA + 10) as nat
    } else {
        0
    }
}

pub open spec fn is_dec_digit(b: u8) -> bool {
    ASCII_0 <= b && b <= ASCII_9
}

pub open spec fn dec_digit_val(b: u8) -> nat {
    if is_dec_digit(b) {
        (b - ASCII_0) as nat
    } else {
        0
    }
}

pub open spec fn all_hex_digits(s: Seq<u8>) -> bool {
    forall|i: int| 0 <= i < s.len() ==> is_hex_digit(s[i])
}

pub open spec fn all_dec_digits(s: Seq<u8>) -> bool {
    forall|i: int| 0 <= i < s.len() ==> is_dec_digit(s[i])
}

/// The value of a string of hexadecimal digits.
pub open spec fn hex_val(s: Seq<u8>) -> nat
    decreases s.len(),
{
    if s.len() == 0 {
        0
    } else {
        (hex_val(s.drop_last()) * 16 + hex_digit_val(s.last())) as nat
    }
}

/// The value of a string of decimal digits.
pub open spec fn dec_val(s: Seq<u8>) -> nat
    decreases s.len(),
{
    if s.len() == 0 {
        0
    } else {
        (dec_val(s.drop_last()) * 10 + dec_digit_val(s.last())) as nat
    }
}

// ---------------------------------------------------------------------------
// Token shapes
// ---------------------------------------------------------------------------

/// An optional, case-insensitive `0x` marker.
pub open spec fn has_hex_prefix(s: Seq<u8>) -> bool {
    s.len() >= 2 && s[0] == ASCII_0 && (s[1] == ASCII_LX || s[1] == ASCII_UX)
}

pub open spec fn hex_digits_of(s: Seq<u8>) -> Seq<u8> {
    if has_hex_prefix(s) {
        s.skip(2)
    } else {
        s
    }
}

pub open spec fn hex_shape_ok(s: Seq<u8>) -> bool {
    hex_digits_of(s).len() >= 1 && all_hex_digits(hex_digits_of(s))
}

pub open spec fn dec_shape_ok(s: Seq<u8>) -> bool {
    s.len() >= 1 && all_dec_digits(s)
}

/// Whether a token is acceptable as a felt literal: hex when `0x`-prefixed,
/// decimal otherwise.
pub open spec fn token_ok(s: Seq<u8>) -> bool {
    if has_hex_prefix(s) {
        hex_shape_ok(s)
    } else {
        dec_shape_ok(s)
    }
}

/// The numeric value of a felt literal token.
pub open spec fn token_val(s: Seq<u8>) -> nat {
    if has_hex_prefix(s) {
        hex_val(s.skip(2))
    } else {
        dec_val(s)
    }
}

// ---------------------------------------------------------------------------
// Canonical output forms
// ---------------------------------------------------------------------------

/// A lowercase `0x`-prefixed hex string with no leading zero digit.
pub open spec fn canonical_hex(s: Seq<u8>) -> bool {
    &&& s.len() >= 3
    &&& s[0] == ASCII_0
    &&& s[1] == ASCII_LX
    &&& forall|i: int| 2 <= i < s.len() ==> is_lower_hex_digit(s[i])
    &&& s.len() > 3 ==> s[2] != ASCII_0
}

/// A decimal digit string with no leading zero.
pub open spec fn canonical_dec(s: Seq<u8>) -> bool {
    &&& s.len() >= 1
    &&& all_dec_digits(s)
    &&& s.len() > 1 ==> s[0] != ASCII_0
}

// ---------------------------------------------------------------------------
// Digit helpers
// ---------------------------------------------------------------------------

pub(crate) fn hex_digit_value(b: u8) -> (r: Option<u8>)
    ensures
        match r {
            Some(d) => is_hex_digit(b) && d == hex_digit_val(b) && d < 16,
            None => !is_hex_digit(b),
        },
{
    if b >= ASCII_0 && b <= ASCII_9 {
        Some(b - ASCII_0)
    } else if b >= ASCII_LA && b <= ASCII_LF {
        Some(b - ASCII_LA + 10)
    } else if b >= ASCII_UA && b <= ASCII_UF {
        Some(b - ASCII_UA + 10)
    } else {
        None
    }
}

fn dec_digit_value(b: u8) -> (r: Option<u8>)
    ensures
        match r {
            Some(d) => is_dec_digit(b) && d == dec_digit_val(b) && d < 10,
            None => !is_dec_digit(b),
        },
{
    if b >= ASCII_0 && b <= ASCII_9 {
        Some(b - ASCII_0)
    } else {
        None
    }
}

fn hex_char_of(n: u8) -> (r: u8)
    requires
        n < 16,
    ensures
        is_lower_hex_digit(r),
        hex_digit_val(r) == n,
        r == ASCII_0 <==> n == 0,
{
    if n < 10 {
        ASCII_0 + n
    } else {
        ASCII_LA + (n - 10)
    }
}

// ---------------------------------------------------------------------------
// Value lemmas
// ---------------------------------------------------------------------------

pub proof fn lemma_hex_val_push(s: Seq<u8>, c: u8)
    ensures
        hex_val(s.push(c)) == hex_val(s) * 16 + hex_digit_val(c),
{
    assert(s.push(c).drop_last() =~= s);
    assert(s.push(c).last() == c);
}

pub proof fn lemma_dec_val_push(s: Seq<u8>, c: u8)
    ensures
        dec_val(s.push(c)) == dec_val(s) * 10 + dec_digit_val(c),
{
    assert(s.push(c).drop_last() =~= s);
    assert(s.push(c).last() == c);
}

/// A prefix of a digit string never exceeds the whole string in value.
pub proof fn lemma_hex_val_prefix_le(d: Seq<u8>, k: int)
    requires
        0 <= k <= d.len(),
    ensures
        hex_val(d.subrange(0, k)) <= hex_val(d),
    decreases d.len() - k,
{
    if k == d.len() {
        assert(d.subrange(0, k) =~= d);
    } else {
        assert(d.subrange(0, k + 1).drop_last() =~= d.subrange(0, k));
        assert(d.subrange(0, k + 1).last() == d[k]);
        assert(hex_val(d.subrange(0, k)) <= hex_val(d.subrange(0, k)) * 16
            + hex_digit_val(d[k]));
        lemma_hex_val_prefix_le(d, k + 1);
    }
}

pub proof fn lemma_dec_val_prefix_le(d: Seq<u8>, k: int)
    requires
        0 <= k <= d.len(),
    ensures
        dec_val(d.subrange(0, k)) <= dec_val(d),
    decreases d.len() - k,
{
    if k == d.len() {
        assert(d.subrange(0, k) =~= d);
    } else {
        assert(d.subrange(0, k + 1).drop_last() =~= d.subrange(0, k));
        assert(d.subrange(0, k + 1).last() == d[k]);
        assert(dec_val(d.subrange(0, k)) <= dec_val(d.subrange(0, k)) * 10
            + dec_digit_val(d[k]));
        lemma_dec_val_prefix_le(d, k + 1);
    }
}

// ---------------------------------------------------------------------------
// Parsing
// ---------------------------------------------------------------------------

/// Parses a hexadecimal felt literal with an optional case-insensitive `0x`
/// prefix, rejecting non-hex characters and values at or above the prime.
#[verifier::loop_isolation(false)]
pub fn parse_hex(s: &[u8]) -> (r: Result<Felt, FeltParseError>)
    ensures
        match r {
            Ok(f) => f.wf() && hex_shape_ok(s@) && hex_val(hex_digits_of(s@)) < field_prime()
                && f.val() == hex_val(hex_digits_of(s@)),
            Err(FeltParseError::InvalidFormat) => !hex_shape_ok(s@),
            Err(FeltParseError::OutOfRange) => hex_shape_ok(s@)
                && hex_val(hex_digits_of(s@)) >= field_prime(),
        },
{
    let n = s.len();
    let has_pref = n >= 2 && s[0] == ASCII_0 && (s[1] == ASCII_LX || s[1] == ASCII_UX);
    let start: usize = if has_pref { 2 } else { 0 };
    proof {
        assert(has_pref == has_hex_prefix(s@));
        assert(hex_digits_of(s@) =~= s@.subrange(start as int, n as int));
    }
    if start == n {
        return Err(FeltParseError::InvalidFormat);
    }
    let ghost d = hex_digits_of(s@);
    let mut i: usize = start;
    while i < n
        invariant
            start <= i <= n,
            forall|j: int| start <= j < i ==> is_hex_digit(s@[j]),
        decreases n - i,
    {
        if hex_digit_value(s[i]).is_none() {
            proof {
                assert(!is_hex_digit(d[i - start as int]));
            }
            return Err(FeltParseError::InvalidFormat);
        }
        i = i + 1;
    }
    proof {
        assert(all_hex_digits(d));
        lemma_pow256_small();
    }
    let mut acc = zero_vec32();
    let mut i2: usize = start;
    proof {
        assert(s@.subrange(start as int, start as int) =~= Seq::<u8>::empty());
    }
    while i2 < n
        invariant
            start <= i2 <= n,
            acc@.len() == 32,
            be_val(acc@) == hex_val(s@.subrange(start as int, i2 as int)),
            be_val(acc@) < field_prime(),
        decreases n - i2,
    {
        let dv = match hex_digit_value(s[i2]) {
            Some(v) => v,
            None => {
                proof {
                    assert(is_hex_digit(s@[i2 as int]));
                    assert(false);
                }
                return Err(FeltParseError::InvalidFormat);
            },
        };
        proof {
            assert(be_val(acc@) * 16 + dv < pow256(32)) by (nonlinear_arith)
                requires
                    be_val(acc@) < field_prime(),
                    dv < 16,
                    field_prime() * 16 + 16 <= pow256(32);
        }
        mul_small_add(&mut acc, 16, dv);
        proof {
            assert(s@.subrange(start as int, i2 as int + 1).drop_last()
                =~= s@.subrange(start as int, i2 as int));
            assert(s@.subrange(start as int, i2 as int + 1).last() == s@[i2 as int]);
            assert(be_val(acc@) == hex_val(s@.subrange(start as int, i2 as int + 1)));
        }
        if !lt_prime(&acc) {
            proof {
                assert(s@.subrange(start as int, i2 as int + 1)
                    =~= d.subrange(0, i2 as int + 1 - start));
                lemma_hex_val_prefix_le(d, i2 as int + 1 - start);
            }
            return Err(FeltParseError::OutOfRange);
        }
        i2 = i2 + 1;
    }
    proof {
        assert(s@.subrange(start as int, n as int) =~= d);
    }
    Ok(Felt::from_bytes_vec(acc))
}

/// Parses a decimal felt literal, rejecting non-digit characters and values
/// at or above the prime.
#[verifier::loop_isolation(false)]
pub fn parse_decimal(s: &[u8]) -> (r: Result<Felt, FeltParseError>)
    ensures
        match r {
            Ok(f) => f.wf() && dec_shape_ok(s@) && dec_val(s@) < field_prime()
                && f.val() == dec_val(s@),
            Err(FeltParseError::InvalidFormat) => !dec_shape_ok(s@),
            Err(FeltParseError::OutOfRange) => dec_shape_ok(s@)
                && dec_val(s@) >= field_prime(),
        },
{
    let n = s.len();
    if n == 0 {
        return Err(FeltParseError::InvalidFormat);
    }
    let mut i: usize = 0;
    while i < n
        invariant
            0 <= i <= n,
            forall|j: int| 0 <= j < i ==> is_dec_digit(s@[j]),
        decreases n - i,
    {
        if dec_digit_value(s[i]).is_none() {
            return Err(FeltParseError::InvalidFormat);
        }
        i = i + 1;
    }
    proof {
        lemma_pow256_small();
    }
    let mut acc = zero_vec32();
    let mut i2: usize = 0;
    proof {
        assert(s@.subrange(0, 0) =~= Seq::<u8>::empty());
    }
    while i2 < n
        invariant
            0 <= i2 <= n,
            acc@.len() == 32,
            be_val(acc@) == dec_val(s@.subrange(0, i2 as int)),
            be_val(acc@) < field_prime(),
        decreases n - i2,
    {
        let dv = match dec_digit_value(s[i2]) {
            Some(v) => v,
            None => {
                proof {
                    assert(is_dec_digit(s@[i2 as int]));
                    assert(false);
                }
                return Err(FeltParseError::InvalidFormat);
            },
        };
        proof {
            assert(be_val(acc@) * 10 + dv < pow256(32)) by (nonlinear_arith)
                requires
                    be_val(acc@) < field_prime(),
                    dv < 10,
                    field_prime() * 10 + 10 <= pow256(32);
        }
        mul_small_add(&mut acc, 10, dv);
        proof {
            assert(s@.subrange(0, i2 as int + 1).drop_last() =~= s@.subrange(0, i2 as int));
            assert(s@.subrange(0, i2 as int + 1).last() == s@[i2 as int]);
            assert(be_val(acc@) == dec_val(s@.subrange(0, i2 as int + 1)));
        }
        if !lt_prime(&acc) {
            proof {
                lemma_dec_val_prefix_le(s@, i2 as int + 1);
            }
            return Err(FeltParseError::OutOfRange);
        }
        i2 = i2 + 1;
    }
    proof {
        assert(s@.subrange(0, n as int) =~= s@);
    }
    Ok(Felt::from_bytes_vec(acc))
}

/// Parses a felt literal: hexadecimal when `0x`-prefixed, decimal otherwise.
pub fn parse_felt(s: &[u8]) -> (r: Result<Felt, FeltParseError>)
    ensures
        match r {
            Ok(f) => f.wf() && token_ok(s@) && token_val(s@) < field_prime()
                && f.val() == token_val(s@),
            Err(FeltParseError::InvalidFormat) => !token_ok(s@),
            Err(FeltParseError::OutOfRange) => token_ok(s@)
                && token_val(s@) >= field_prime(),
        },
{
    let n = s.len();
    if n >= 2 && s[0] == ASCII_0 && (s[1] == ASCII_LX || s[1] == ASCII_UX) {
        parse_hex(s)
    } else {
        parse_decimal(s)
    }
}

// ---------------------------------------------------------------------------
// Formatting
// ---------------------------------------------------------------------------

/// Formats a 32-byte big-endian number as canonical lowercase `0x` hex.
#[verifier::loop_isolation(false)]
pub fn format_hex_bytes(b: &[u8]) -> (r: Vec<u8>)
    requires
        b@.len() == 32,
    ensures
        canonical_hex(r@),
        hex_val(r@.skip(2)) == be_val(b@),
{
    let mut out: Vec<u8> = Vec::new();
    out.push(ASCII_0);
    out.push(ASCII_LX);
    let mut k: usize = 0;
    while k < 32 && b[k] == 0
        invariant
            0 <= k <= 32,
            forall|j: int| 0 <= j < k ==> b@[j] == 0,
        decreases 32 - k,
    {
        k = k + 1;
    }
    if k == 32 {
        out.push(ASCII_0);
        proof {
            lemma_be_val_zero(b@);
            assert(out@.skip(2) =~= Seq::<u8>::empty().push(ASCII_0));
            lemma_hex_val_push(Seq::<u8>::empty(), ASCII_0);
            assert(hex_val(Seq::<u8>::empty()) == 0);
            assert(hex_digit_val(ASCII_0) == 0);
            assert(0 * 16 == 0);
        }
        return out;
    }
    let first = b[k];
    let hi = first >> 4;
    let lo = first & 0xf;
    proof {
        assert(first >> 4 < 16 && (first & 0xf) < 16
            && first == (first >> 4) * 16 + (first & 0xf)) by (bit_vector);
        lemma_be_val_zero(b@.subrange(0, k as int));
        lemma_prefix_extend(b@, k as int);
        assert(be_val(b@.subrange(0, k as int + 1)) == first);
    }
    if hi != 0 {
        let c1 = hex_char_of(hi);
        let c2 = hex_char_of(lo);
        out.push(c1);
        out.push(c2);
        proof {
            assert(out@.skip(2) =~= Seq::<u8>::empty().push(c1).push(c2));
            lemma_hex_val_push(Seq::<u8>::empty(), c1);
            lemma_hex_val_push(Seq::<u8>::empty().push(c1), c2);
            assert(hex_val(Seq::<u8>::empty()) == 0);
            assert(0 * 16 == 0);
            assert(hex_val(Seq::<u8>::empty().push(c1)) == hi);
            assert(hex_val(out@.skip(2)) == hi * 16 + lo);
        }
    } else {
        let c2 = hex_char_of(lo);
        out.push(c2);
        proof {
            assert(out@.skip(2) =~= Seq::<u8>::empty().push(c2));
            lemma_hex_val_push(Seq::<u8>::empty(), c2);
            assert(hex_val(Seq::<u8>::empty()) == 0);
            assert(0 * 16 == 0);
            assert(hex_val(out@.skip(2)) == lo);
            assert(first == lo);
        }
    }
    let mut i: usize = k + 1;
    while i < 32
        invariant
            k + 1 <= i <= 32,
            out@.len() >= 3,
            out@[0] == ASCII_0,
            out@[1] == ASCII_LX,
            out@[2] != ASCII_0,
            forall|j: int| 2 <= j < out@.len() ==> is_lower_hex_digit(out@[j]),
            hex_val(out@.skip(2)) == be_val(b@.subrange(0, i as int)),
        decreases 32 - i,
    {
        let byte = b[i];
        let h = byte >> 4;
        let l = byte & 0xf;
        proof {
            assert(byte >> 4 < 16 && (byte & 0xf) < 16
                && byte == (byte >> 4) * 16 + (byte & 0xf)) by (bit_vector);
        }
        let ghost digits0 = out@.skip(2);
        let c1 = hex_char_of(h);
        let c2 = hex_char_of(l);
        out.push(c1);
        out.push(c2);
        proof {
            assert(out@.skip(2) =~= digits0.push(c1).push(c2));
            lemma_hex_val_push(digits0, c1);
            lemma_hex_val_push(digits0.push(c1), c2);
            let v: nat = hex_val(digits0);
            assert((v * 16 + h) * 16 + l == v * 256 + (h * 16 + l)) by (nonlinear_arith);
            lemma_prefix_extend(b@, i as int);
        }
        i = i + 1;
    }
    proof {
        assert(b@.subrange(0, 32) =~= b@);
    }
    out
}

/// Formats a field element as canonical lowercase `0x` hex.
pub fn format_hex(f: &Felt) -> (r: Vec<u8>)
    requires
        f.wf(),
    ensures
        canonical_hex(r@),
        hex_val(r@.skip(2)) == f.val(),
{
    format_hex_bytes(f.as_bytes_slice())
}

/// 10 raised to the power `k`.
pub open spec fn pow10(k: nat) -> nat
    decreases k,
{
    if k == 0 {
        1
    } else {
        10 * pow10((k - 1) as nat)
    }
}

/// The value of decimal digits listed least-significant first.
pub open spec fn lsd_dec_val(s: Seq<u8>) -> nat
    decreases s.len(),
{
    if s.len() == 0 {
        0
    } else {
        (dec_digit_val(s[0]) + 10 * lsd_dec_val(s.drop_first())) as nat
    }
}

proof fn lemma_lsd_push(s: Seq<u8>, c: u8)
    ensures
        lsd_dec_val(s.push(c)) == lsd_dec_val(s) + dec_digit_val(c) * pow10(s.len()),
    decreases s.len(),
{
    if s.len() == 0 {
        assert(s.push(c)[0] == c);
        assert(s.push(c).drop_first() =~= Seq::<u8>::empty());
        assert(lsd_dec_val(Seq::<u8>::empty()) == 0);
        assert(pow10(0) == 1);
        assert(dec_digit_val(c) * 1 == dec_digit_val(c)) by (nonlinear_arith);
        assert(lsd_dec_val(s.push(c))
            == dec_digit_val(c) + 10 * lsd_dec_val(s.push(c).drop_first()));
    } else {
        assert(s.push(c).drop_first() =~= s.drop_first().push(c));
        lemma_lsd_push(s.drop_first(), c);
        let dv: nat = dec_digit_val(c);
        let p: nat = pow10((s.len() - 1) as nat);
        assert(10 * (lsd_dec_val(s.drop_first()) + dv * p)
            == 10 * lsd_dec_val(s.drop_first()) + dv * (10 * p)) by (nonlinear_arith);
        assert(pow10(s.len()) == 10 * p);
        assert(lsd_dec_val(s.push(c))
            == dec_digit_val(s[0]) + 10 * lsd_dec_val(s.drop_first().push(c)));
        assert(lsd_dec_val(s) == dec_digit_val(s[0]) + 10 * lsd_dec_val(s.drop_first()));
    }
}

/// Reading a least-significant-first digit list in reverse gives the plain
/// decimal value.
proof fn lemma_lsd_reversed(s: Seq<u8>, t: Seq<u8>)
    requires
        s.len() == t.len(),
        forall|k: int| 0 <= k < s.len() ==> t[k] == s[s.len() - 1 - k],
    ensures
        dec_val(t) == lsd_dec_val(s),
    decreases s.len(),
{
    if s.len() > 0 {
        assert(t.drop_last().len() == s.drop_first().len());
        assert(forall|k: int| 0 <= k < s.len() - 1
            ==> t.drop_last()[k] == s.drop_first()[s.drop_first().len() - 1 - k]);
        lemma_lsd_reversed(s.drop_first(), t.drop_last());
        assert(t.last() == s[0]);
    }
}

/// Formats a field element as its canonical decimal digit string.
#[verifier::loop_isolation(false)]
pub fn format_decimal(f: &Felt) -> (r: Vec<u8>)
    requires
        f.wf(),
    ensures
        canonical_dec(r@),
        dec_val(r@) == f.val(),
{
    let mut tmp = f.to_bytes_vec();
    if bytes_all_zero(&tmp) {
        let mut out: Vec<u8> = Vec::new();
        out.push(ASCII_0);
        proof {
            assert(out@ =~= Seq::<u8>::empty().push(ASCII_0));
            lemma_dec_val_push(Seq::<u8>::empty(), ASCII_0);
            assert(dec_val(Seq::<u8>::empty()) == 0);
            assert(dec_digit_val(ASCII_0) == 0);
            assert(0 * 10 == 0);
            assert(is_dec_digit(ASCII_0));
        }
        return out;
    }
    let mut digits: Vec<u8> = Vec::new();
    proof {
        assert(pow10(0) == 1);
        let ghost v0: nat = be_val(tmp@);
        assert(v0 * 1 == v0) by (nonlinear_arith);
    }
    while !bytes_all_zero(&tmp)
        invariant
            tmp@.len() == 32,
            all_dec_digits(digits@),
            lsd_dec_val(digits@) + be_val(tmp@) * pow10(digits@.len()) == f.val(),
            digits@.len() > 0 && be_val(tmp@) == 0 ==> digits@.last() != ASCII_0,
        decreases be_val(tmp@),
    {
        let ghost oldv: nat = be_val(tmp@);
        let ghost olddigits = digits@;
        let rem = div_small(&mut tmp, 10);
        let c = ASCII_0 + rem;
        digits.push(c);
        proof {
            let ghost newv: nat = be_val(tmp@);
            assert(newv * 10 + rem == oldv);
            assert(newv < oldv && (newv == 0 ==> rem == oldv)) by (nonlinear_arith)
                requires
                    newv * 10 + rem == oldv,
                    oldv > 0,
                    rem < 10;
            assert(is_dec_digit(c) && dec_digit_val(c) == rem);
            lemma_lsd_push(olddigits, c);
            let p: nat = pow10(olddigits.len());
            assert(pow10(olddigits.len() + 1) == 10 * p);
            assert((newv * 10 + rem) * p == newv * (10 * p) + rem * p) by (nonlinear_arith);
            assert(lsd_dec_val(digits@) + newv * pow10(digits@.len()) == f.val());
            if newv == 0 {
                assert(digits@.last() == c);
                assert(rem != 0);
                assert(c != ASCII_0);
            }
        }
    }
    proof {
        let ghost z: nat = pow10(digits@.len());
        assert(0 * z == 0) by (nonlinear_arith);
        assert(lsd_dec_val(digits@) == f.val());
        assert(digits@.len() > 0);
    }
    let m = digits.len();
    let mut out: Vec<u8> = Vec::new();
    let mut j: usize = m;
    while j > 0
        invariant
            0 <= j <= m,
            m == digits@.len(),
            out@.len() == m - j,
            forall|t: int| 0 <= t < out@.len() ==> out@[t] == digits@[m - 1 - t],
        decreases j,
    {
        j = j - 1;
        out.push(digits[j]);
    }
    proof {
        lemma_lsd_reversed(digits@, out@);
        assert(out@[0] == digits@.last());
    }
    out
}

// ---------------------------------------------------------------------------
// Hex width bounds
// ---------------------------------------------------------------------------

/// 16 raised to the power `k`: the weight of a hex digit.
pub open spec fn pow16(k: nat) -> nat
    decreases k,
{
    if k == 0 {
        1
    } else {
        16 * pow16((k - 1) as nat)
    }
}

pub proof fn lemma_pow16_pos(k: nat)
    ensures
        pow16(k) >= 1,
    decreases k,
{
    if k > 0 {
        lemma_pow16_pos((k - 1) as nat);
    }
}

pub proof fn lemma_pow16_adds(a: nat, b: nat)
    ensures
        pow16(a + b) == pow16(a) * pow16(b),
    decreases a,
{
    if a == 0 {
        assert(pow16(0) == 1);
        assert(1 * pow16(b) == pow16(b));
    } else {
        lemma_pow16_adds((a - 1) as nat, b);
        assert(16 * (pow16((a - 1) as nat) * pow16(b))
            == (16 * pow16((a - 1) as nat)) * pow16(b)) by (nonlinear_arith);
        assert(pow16(a + b) == 16 * pow16((a + b - 1) as nat));
        assert(pow16(a + b) == 16 * (pow16((a - 1) as nat) * pow16(b)));
        assert(pow16(a) == 16 * pow16((a - 1) as nat));
    }
}

/// A string of `k` hex digits denotes a value below 16^k.
pub proof fn lemma_hex_val_bound(s: Seq<u8>)
    ensures
        hex_val(s) < pow16(s.len()),
    decreases s.len(),
{
    if s.len() == 0 {
    } else {
        lemma_hex_val_bound(s.drop_last());
        let p: nat = pow16((s.len() - 1) as nat);
        assert(hex_digit_val(s.last()) < 16);
        assert(hex_val(s.drop_last()) * 16 + 16 <= p * 16) by (nonlinear_arith)
            requires
                hex_val(s.drop_last()) < p;
        assert(p * 16 == 16 * p);
        assert(pow16(s.len()) == 16 * p);
    }
}

/// 64 hex digits cover exactly the 32-byte range.
pub proof fn lemma_pow16_64()
    ensures
        pow16(64) == pow256(32),
        forall|k: nat| k <= 64 ==> #[trigger] pow16(k) <= pow16(64),
{
    reveal_with_fuel(pow16, 65);
    reveal_with_fuel(pow256, 33);
    assert(pow16(64)
        == 0x10000000000000000000000000000000000000000000000000000000000000000);
    assert forall|k: nat| k <= 64 implies #[trigger] pow16(k) <= pow16(64) by {
        lemma_pow16_adds((64 - k) as nat, k);
        lemma_pow16_pos((64 - k) as nat);
        lemma_pow16_pos(k);
        assert(pow16((64 - k) as nat) * pow16(k) >= 1 * pow16(k)) by (nonlinear_arith)
            requires
                pow16((64 - k) as nat) >= 1,
                pow16(k) >= 1;
        assert(1 * pow16(k) == pow16(k));
    }
}

// ---------------------------------------------------------------------------
// Round-trip laws
// ---------------------------------------------------------------------------

/// Round trip, hex side: a canonically formatted hex string of any value
/// below the prime is accepted by the parser and denotes that same value.
/// Together with the contracts of `format_hex` and `parse_hex` this gives
/// `parse_hex(format_hex(f)) == f` for every field element `f`.
pub proof fn lemma_hex_round_trip(s: Seq<u8>, v: nat)
    requires
        canonical_hex(s),
        hex_val(s.skip(2)) == v,
        v < field_prime(),
    ensures
        has_hex_prefix(s),
        hex_shape_ok(s),
        token_ok(s),
        token_val(s) == v,
        hex_digits_of(s) == s.skip(2),
{
    assert(forall|i: int| 0 <= i < s.skip(2).len() ==> is_lower_hex_digit(#[trigger] s.skip(2)[i]));
    assert(all_hex_digits(s.skip(2)));
}

/// Round trip, decimal side: a canonically formatted decimal string of any
/// value below the prime is accepted by the parser and denotes that same
/// value. Together with the contracts of `format_decimal` and
/// `parse_decimal` this gives `parse_decimal(format_decimal(f)) == f`.
pub proof fn lemma_dec_round_trip(s: Seq<u8>, v: nat)
    requires
        canonical_dec(s),
        dec_val(s) == v,
        v < field_prime(),
    ensures
        !has_hex_prefix(s),
        dec_shape_ok(s),
        token_ok(s),
        token_val(s) == v,
{
    if s.len() >= 2 {
        assert(is_dec_digit(s[1]));
        assert(s[1] != ASCII_LX && s[1] != ASCII_UX);
    }
}

} // verus!
