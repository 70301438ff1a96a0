use vstd::prelude::*;

use crate::codec::all_hex_digits;
use crate::codec::canonical_hex;
use crate::codec::format_hex_bytes;
use crate::codec::hex_digit_value;
use crate::codec::hex_digits_of;
use crate::codec::hex_val;
use crate::codec::lemma_hex_val_bound;
use crate::codec::lemma_pow16_64;
use crate::codec::pow16;
use crate::codec::FeltParseError;
use crate::felt::lemma_pow256_small;
use crate::felt::mul_small_add;
use crate::felt::zero_vec32;
use crate::felt::Felt;
use crate::field_prime;
use crate::num::be_suffix_val;
use crate::num::be_val;
use crate::num::lemma_be_val_concat;
use crate::num::lemma_be_val_of_suffix;
use crate::num::lemma_be_val_split;
use crate::num::lemma_be_val_zero;
use crate::num::lemma_be_val_zero_extend;
use crate::num::lemma_suffix_bound;
use crate::num::pow256;

verus! {

broadcast use vstd::arithmetic::mul::lemma_mul_nonnegative;

/// The hex digits of a 256-bit literal: an optional `0x` marker stripped.
pub open spec fn u256_digits_of(s: Seq<u8>) -> Seq<u8> {
    hex_digits_of(s)
}

/// Splits a hex string of at most 64 digits into the felt pair
/// `(high, low)` with `value == high * 2^128 + low`. A wider string is
/// out of range; length is checked before the digit alphabet, as the
/// textual form's width decides representability.
#[verifier::loop_isolation(false)]
pub fn split(s: &[u8]) -> (r: Result<(Felt, Felt), FeltParseError>)
    ensures
        match r {
            Ok(p) => {
                &&& u256_digits_of(s@).len() <= 64
                &&& all_hex_digits(u256_digits_of(s@))
                &&& p.0.wf() && p.1.wf()
                &&& p.0.val() == hex_val(u256_digits_of(s@)) / pow256(16)
                &&& p.1.val() == hex_val(u256_digits_of(s@)) % pow256(16)
            },
            Err(FeltParseError::OutOfRange) => u256_digits_of(s@).len() > 64,
            Err(FeltParseError::InvalidFormat) => u256_digits_of(s@).len() <= 64
                && !all_hex_digits(u256_digits_of(s@)),
        },
{
    let n = s.len();
    let has_pref = n >= 2 && s[0] == crate::codec::ASCII_0 && (s[1] == crate::codec::ASCII_LX
        || s[1] == crate::codec::ASCII_UX);
    let start: usize = if has_pref { 2 } else { 0 };
    let ghost d = u256_digits_of(s@);
    proof {
        assert(d =~= s@.subrange(start as int, n as int));
    }
    if n - start > 64 {
        return Err(FeltParseError::OutOfRange);
    }
    let mut i: usize = start;
    while i < n
        invariant
            start <= i <= n,
            forall|j: int| start <= j < i ==> crate::codec::is_hex_digit(s@[j]),
        decreases n - i,
    {
        if hex_digit_value(s[i]).is_none() {
            proof {
                assert(!crate::codec::is_hex_digit(d[i - start as int]));
            }
            return Err(FeltParseError::InvalidFormat);
        }
        i = i + 1;
    }
    proof {
        assert(all_hex_digits(d));
        lemma_pow16_64();
        lemma_pow256_small();
    }
    let mut acc = zero_vec32();
    let mut i2: usize = start;
    proof {
        assert(s@.subrange(start as int, start as int) =~= Seq::<u8>::empty());
    }
    while i2 < n
        invariant
            start <= i2 <= n,
            n - start <= 64,
            acc@.len() == 32,
            be_val(acc@) == hex_val(s@.subrange(start as int, i2 as int)),
        decreases n - i2,
    {
        let dv = match hex_digit_value(s[i2]) {
            Some(v) => v,
            None => {
                proof {
                    assert(crate::codec::is_hex_digit(s@[i2 as int]));
                    assert(false);
                }
                return Err(FeltParseError::InvalidFormat);
            },
        };
        proof {
            let pre = s@.subrange(start as int, i2 as int);
            lemma_hex_val_bound(pre);
            assert(pow16((i2 - start) as nat + 1) == 16 * pow16((i2 - start) as nat));
            assert(hex_val(pre) * 16 + dv < pow16((i2 - start) as nat + 1))
                by (nonlinear_arith)
                requires
                    hex_val(pre) < pow16((i2 - start) as nat),
                    dv < 16,
                    pow16((i2 - start) as nat + 1) == 16 * pow16((i2 - start) as nat);
            assert(pow16((i2 - start) as nat + 1) <= pow16(64));
        }
        mul_small_add(&mut acc, 16, dv);
        proof {
            assert(s@.subrange(start as int, i2 as int + 1).drop_last()
                =~= s@.subrange(start as int, i2 as int));
            assert(s@.subrange(start as int, i2 as int + 1).last() == s@[i2 as int]);
            assert(be_val(acc@) == hex_val(s@.subrange(start as int, i2 as int + 1)));
        }
        i2 = i2 + 1;
    }
    proof {
        assert(s@.subrange(start as int, n as int) =~= d);
    }
    let high_bytes = half_padded(&acc, 0);
    let low_bytes = half_padded(&acc, 16);
    proof {
        lemma_be_val_split(acc@, 16);
        lemma_suffix_bound(acc@, 16);
        crate::num::lemma_be_val_bound(acc@.subrange(0, 16));
        lemma_be_val_of_suffix(acc@, 16);
        vstd::arithmetic::div_mod::lemma_fundamental_div_mod_converse(
            be_val(acc@) as int,
            pow256(16) as int,
            be_val(acc@.subrange(0, 16)) as int,
            be_suffix_val(acc@, 16) as int,
        );
    }
    let high = Felt::from_bytes_vec(high_bytes);
    let low = Felt::from_bytes_vec(low_bytes);
    Ok((high, low))
}

/// Copies 16 bytes starting at `from` behind 16 zero bytes, so that the
/// result is the 32-byte image of that half's value.
#[verifier::loop_isolation(false)]
fn half_padded(acc: &Vec<u8>, from: usize) -> (r: Vec<u8>)
    requires
        acc@.len() == 32,
        from + 16 <= 32,
    ensures
        r@.len() == 32,
        be_val(r@) == be_val(acc@.subrange(from as int, from as int + 16)),
        be_val(r@) < pow256(16),
{
    let mut out: Vec<u8> = Vec::new();
    let mut j: usize = 0;
    while j < 16
        invariant
            0 <= j <= 16,
            out@ =~= Seq::new(j as nat, |t: int| 0u8),
        decreases 16 - j,
    {
        out.push(0);
        proof {
            assert(out@ =~= Seq::new(j as nat + 1, |t: int| 0u8));
        }
        j = j + 1;
    }
    let mut t: usize = 0;
    while t < 16
        invariant
            0 <= t <= 16,
            out@ =~= Seq::new(16nat, |q: int| 0u8) + acc@.subrange(
                from as int,
                from as int + t,
            ),
        decreases 16 - t,
    {
        out.push(acc[from + t]);
        proof {
            assert(out@ =~= Seq::new(16nat, |q: int| 0u8) + acc@.subrange(
                from as int,
                from as int + t + 1,
            ));
        }
        t = t + 1;
    }
    proof {
        let z = Seq::new(16nat, |q: int| 0u8);
        let seg = acc@.subrange(from as int, from as int + 16);
        lemma_be_val_zero_extend(z, seg);
        crate::num::lemma_be_val_bound(seg);
    }
    out
}

/// Whether a field element fits in the low 128 bits.
#[verifier::loop_isolation(false)]
pub fn fits_u128(f: &Felt) -> (r: bool)
    requires
        f.wf(),
    ensures
        r == (f.val() < pow256(16)),
{
    let s = f.as_bytes_slice();
    let mut i: usize = 0;
    proof {
        lemma_be_val_split(f.repr(), 16);
        lemma_suffix_bound(f.repr(), 16);
    }
    while i < 16
        invariant
            0 <= i <= 16,
            s@.len() == 32,
            s@ == f.repr(),
            forall|j: int| 0 <= j < i ==> s@[j] == 0,
        decreases 16 - i,
    {
        let b = s[i];
        if b != 0 {
            proof {
                let pre = f.repr().subrange(0, 16);
                assert(pre[i as int] != 0);
                lemma_be_val_zero(pre);
                assert(be_val(pre) >= 1);
                assert(be_val(pre) * pow256(16) >= pow256(16)) by (nonlinear_arith)
                    requires
                        be_val(pre) >= 1,
                        pow256(16) >= 0;
            }
            return false;
        }
        i = i + 1;
    }
    proof {
        let pre = f.repr().subrange(0, 16);
        lemma_be_val_zero(pre);
        assert(0 * pow256(16) == 0) by (nonlinear_arith);
    }
    true
}

/// Joins two felts that each fit in 128 bits into the canonical hex form of
/// `high * 2^128 + low`; rejects halves at or above `2^128` as out of range.
pub fn join(low: &Felt, high: &Felt) -> (r: Result<Vec<u8>, FeltParseError>)
    requires
        low.wf(),
        high.wf(),
    ensures
        match r {
            Ok(out) => {
                &&& low.val() < pow256(16)
                &&& high.val() < pow256(16)
                &&& canonical_hex(out@)
                &&& hex_val(out@.skip(2)) == high.val() * pow256(16) + low.val()
            },
            Err(FeltParseError::OutOfRange) => !(low.val() < pow256(16) && high.val()
                < pow256(16)),
            Err(FeltParseError::InvalidFormat) => false,
        },
{
    if !fits_u128(low) || !fits_u128(high) {
        return Err(FeltParseError::OutOfRange);
    }
    let hs = high.as_bytes_slice();
    let ls = low.as_bytes_slice();
    let mut comb: Vec<u8> = Vec::new();
    let mut i: usize = 0;
    while i < 16
        invariant
            0 <= i <= 16,
            hs@.len() == 32,
            hs@ == high.repr(),
            comb@ =~= high.repr().subrange(16, 16 + i as int),
        decreases 16 - i,
    {
        comb.push(hs[16 + i]);
        proof {
            assert(comb@ =~= high.repr().subrange(16, 16 + i as int + 1));
        }
        i = i + 1;
    }
    let mut j: usize = 0;
    while j < 16
        invariant
            0 <= j <= 16,
            ls@.len() == 32,
            ls@ == low.repr(),
            comb@ =~= high.repr().subrange(16, 32) + low.repr().subrange(16, 16 + j as int),
        decreases 16 - j,
    {
        comb.push(ls[16 + j]);
        proof {
            assert(comb@ =~= high.repr().subrange(16, 32) + low.repr().subrange(
                16,
                16 + j as int + 1,
            ));
        }
        j = j + 1;
    }
    proof {
        let hseg = high.repr().subrange(16, 32);
        let lseg = low.repr().subrange(16, 32);
        assert(comb@ =~= hseg + lseg);
        lemma_be_val_concat(hseg, lseg);
        // each half's value is the value of its low 16 bytes
        lemma_half_value(high.repr());
        lemma_half_value(low.repr());
    }
    Ok(format_hex_bytes(comb.as_slice()))
}

/// For a 32-byte image whose value is below 2^128, the low 16 bytes carry
/// the whole value.
proof fn lemma_half_value(s: Seq<u8>)
    requires
        s.len() == 32,
        be_val(s) < pow256(16),
    ensures
        be_val(s.subrange(16, 32)) == be_val(s),
{
    lemma_be_val_split(s, 16);
    lemma_be_val_of_suffix(s, 16);
    let pv = be_val(s.subrange(0, 16));
    if pv >= 1 {
        assert(pv * pow256(16) >= pow256(16)) by (nonlinear_arith)
            requires
                pv >= 1,
                pow256(16) >= 0;
    }
    assert(pv == 0);
    assert(0 * pow256(16) == 0) by (nonlinear_arith);
}

/// Round trip at the digit level: for any hex string of at most 64 digits,
/// the halves that `split` returns are field elements below 2^128, and
/// `join` of them is owed success and restores the split value. Together
/// with the contracts of `split` and `join` this gives
/// `join(split(v)) == v` for every 256-bit `v`.
pub proof fn lemma_split_round_trip(d: Seq<u8>)
    requires
        d.len() <= 64,
    ensures
        hex_val(d) < pow256(32),
        hex_val(d) / pow256(16) < pow256(16),
        hex_val(d) % pow256(16) < pow256(16),
        hex_val(d) / pow256(16) < field_prime(),
        hex_val(d) % pow256(16) < field_prime(),
        (hex_val(d) / pow256(16)) * pow256(16) + hex_val(d) % pow256(16) == hex_val(d),
{
    lemma_hex_val_bound(d);
    lemma_pow16_64();
    lemma_pow256_small();
    lemma_u256_split_join(hex_val(d));
}

/// Round trip: splitting any 256-bit value into high and low 128-bit
/// halves and rejoining them restores the value. Together with the
/// contracts of `split` and `join` this gives `join(split(v)) == v` for
/// every 256-bit `v`.
pub proof fn lemma_u256_split_join(v: nat)
    requires
        v < pow256(32),
    ensures
        v / pow256(16) < pow256(16),
        v % pow256(16) < pow256(16),
        (v / pow256(16)) * pow256(16) + v % pow256(16) == v,
{
    lemma_pow256_small();
    vstd::arithmetic::div_mod::lemma_fundamental_div_mod(v as int, pow256(16) as int);
    assert(v / pow256(16) < pow256(16)) by (nonlinear_arith)
        requires
            v < pow256(16) * pow256(16),
            pow256(16) * (v as int / pow256(16) as int) + v as int % pow256(16) as int
                == v,
            0 <= v as int % pow256(16) as int,
            pow256(16) > 0;
}

} // verus!
