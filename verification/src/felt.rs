use vstd::prelude::*;

use crate::field_prime;
use crate::num::be_suffix_val;
use crate::num::be_val;
use crate::num::lemma_be_val_concat;
use crate::num::lemma_be_val_eq_suffix;
use crate::num::lemma_be_val_lex_lt;
use crate::num::lemma_be_val_zero;
use crate::num::lemma_suffix_congruent;
use crate::num::pow256;

verus! {

broadcast use vstd::arithmetic::mul::lemma_mul_nonnegative;

/// A StarkNet field element: an unsigned integer below the field prime,
/// held as its unique 32-byte big-endian representation.
#[derive(Debug)]
pub struct Felt {
    bytes: Vec<u8>,
}

impl Felt {
    /// The big-endian 32-byte representation.
    pub closed spec fn repr(&self) -> Seq<u8> {
        self.bytes@
    }

    pub open spec fn wf(&self) -> bool {
        self.repr().len() == 32 && be_val(self.repr()) < field_prime()
    }

    /// The numeric value of this field element.
    pub open spec fn val(&self) -> nat {
        be_val(self.repr())
    }

    /// The all-zero representation: the value 0.
    pub fn zero() -> (r: Felt)
        ensures
            r.wf(),
            r.val() == 0,
    {
        let bytes = zero_vec32();
        proof {
            lemma_be_val_zero(bytes@);
        }
        Felt { bytes }
    }

    /// Builds the field element with value `n`.
    #[verifier::loop_isolation(false)]
    pub fn from_u64(n: u64) -> (r: Felt)
        ensures
            r.wf(),
            r.val() == n,
    {
        let mut b = zero_vec32();
        let mut m: u64 = n;
        let mut i: usize = 32;
        proof {
            lemma_pow256_small();
            assert(be_suffix_val(b@, 32) == 0);
            assert(pow256(0) == 1);
            assert(m * 1 == m) by (nonlinear_arith);
            assert(m * pow256((32 - 32) as nat) == m);
        }
        while i > 24
            invariant
                24 <= i <= 32,
                b@.len() == 32,
                forall|j: int| 0 <= j < i ==> b@[j] == 0,
                m < pow256((i - 24) as nat),
                be_suffix_val(b@, i as int) + m * pow256((32 - i) as nat) == n,
            decreases i,
        {
            i = i - 1;
            let ghost prev = b@;
            let ghost m0 = m;
            let lo: u8 = (m & 0xff) as u8;
            b.set(i, lo);
            m = m >> 8;
            proof {
                assert(m0 == (m0 >> 8) * 256 + (m0 & 0xff) && (m0 & 0xff) < 256) by (bit_vector);
                let p: nat = pow256((31 - i) as nat);
                assert(pow256((32 - i) as nat) == 256 * p);
                // the suffix from i + 1 is unchanged by the write at i
                lemma_suffix_congruent(b@, prev, i as int + 1);
                assert(be_suffix_val(b@, i as int) == lo * p + be_suffix_val(prev, i as int + 1));
                // m0 < 256 * pow256(i - 24) bounds the shifted remainder
                assert(pow256((i + 1 - 24) as nat) == 256 * pow256((i - 24) as nat));
                assert((m0 >> 8) == m0 / 256) by (bit_vector);
                assert(m0 / 256 < pow256((i - 24) as nat)) by (nonlinear_arith)
                    requires
                        m0 < 256 * pow256((i - 24) as nat),
                        (m0 >> 8) == m0 / 256;
                // value accounting
                assert(lo * p + ((m0 >> 8) * 256) * p == (lo + (m0 >> 8) * 256) * p)
                    by (nonlinear_arith);
                assert((m0 >> 8) * (256 * p) == ((m0 >> 8) * 256) * p) by (nonlinear_arith);
                assert(be_suffix_val(b@, i as int) + (m0 >> 8) * (256 * p)
                    == m0 * p + be_suffix_val(prev, i as int + 1)) by (nonlinear_arith)
                    requires
                        be_suffix_val(b@, i as int) == lo * p + be_suffix_val(prev, i as int + 1),
                        m0 == (m0 >> 8) * 256 + (m0 & 0xff),
                        lo == m0 & 0xff;
            }
        }
        proof {
            assert(pow256((24 - 24) as nat) == 1);
            assert(m == 0);
            let ghost w: nat = pow256((32 - 24) as nat);
            assert(0 * w == 0) by (nonlinear_arith);
            assert(m * w == 0);
            assert(be_suffix_val(b@, 24) == n);
            crate::num::lemma_suffix_zeros(b@, 0, 24);
            lemma_be_val_eq_suffix(b@);
            lemma_pow256_small();
        }
        Felt { bytes: b }
    }

    /// A fresh field element with the same value.
    #[verifier::loop_isolation(false)]
    pub fn duplicate(&self) -> (r: Felt)
        ensures
            r.repr() == self.repr(),
            r.wf() == self.wf(),
            r.val() == self.val(),
    {
        let mut out: Vec<u8> = Vec::new();
        let mut i: usize = 0;
        let n = self.bytes.len();
        while i < n
            invariant
                0 <= i <= n,
                n == self.bytes@.len(),
                out@ =~= self.bytes@.subrange(0, i as int),
            decreases n - i,
        {
            out.push(self.bytes[i]);
            i = i + 1;
        }
        proof {
            assert(out@ =~= self.bytes@);
        }
        Felt { bytes: out }
    }

    /// A fresh copy of the 32-byte representation.
    #[verifier::loop_isolation(false)]
    pub(crate) fn to_bytes_vec(&self) -> (r: Vec<u8>)
        ensures
            r@ == self.repr(),
    {
        let mut out: Vec<u8> = Vec::new();
        let mut i: usize = 0;
        let n = self.bytes.len();
        while i < n
            invariant
                0 <= i <= n,
                n == self.bytes@.len(),
                out@ =~= self.bytes@.subrange(0, i as int),
            decreases n - i,
        {
            out.push(self.bytes[i]);
            i = i + 1;
        }
        proof {
            assert(out@ =~= self.bytes@);
        }
        out
    }

    /// Wraps an already-valid 32-byte representation.
    pub(crate) fn from_bytes_vec(bytes: Vec<u8>) -> (r: Felt)
        requires
            bytes@.len() == 32,
            be_val(bytes@) < field_prime(),
        ensures
            r.wf(),
            r.repr() == bytes@,
    {
        Felt { bytes }
    }

    /// The representation as a byte slice.
    pub(crate) fn as_bytes_slice(&self) -> (r: &[u8])
        ensures
            r@ == self.repr(),
    {
        self.bytes.as_slice()
    }
}

/// The largest field element: the field prime less one.
pub fn felt_max() -> (r: Felt)
    ensures
        r.wf(),
        r.val() == field_prime() - 1,
{
    let mut b = zero_vec32();
    b.set(0, 8);
    b.set(7, 0x11);
    proof {
        let m = Seq::new(
            32,
            |i: int|
                if i == 0 {
                    8u8
                } else if i == 7 {
                    0x11u8
                } else {
                    0u8
                },
        );
        assert(b@ =~= m);
        lemma_prime_bytes_val();
        // the prime's image is this one with a trailing one
        assert(prime_bytes().drop_last() =~= m.drop_last());
        assert(be_val(prime_bytes()) == be_val(prime_bytes().drop_last()) * 256 + 1);
        assert(prime_bytes().last() == 1);
        assert(m.last() == 0);
        assert(be_val(m) == be_val(m.drop_last()) * 256 + 0);
    }
    Felt { bytes: b }
}

/// The big-endian byte image of the field prime.
pub open spec fn prime_bytes() -> Seq<u8> {
    Seq::new(
        32,
        |i: int|
            if i == 0 {
                8u8
            } else if i == 7 {
                0x11u8
            } else if i == 31 {
                1u8
            } else {
                0u8
            },
    )
}

pub proof fn lemma_prime_bytes_val()
    ensures
        prime_bytes().len() == 32,
        be_val(prime_bytes()) == field_prime(),
{
    let a = seq![8u8];
    let z6 = Seq::new(6nat, |i: int| 0u8);
    let b = seq![0x11u8];
    let z23 = Seq::new(23nat, |i: int| 0u8);
    let c = seq![1u8];
    let s1 = a + z6;
    let s2 = s1 + b;
    let s3 = s2 + z23;
    let s4 = s3 + c;
    assert(s4 =~= prime_bytes());
    assert(a.drop_last() =~= Seq::<u8>::empty());
    assert(be_val(Seq::<u8>::empty()) == 0);
    assert(be_val(a) == be_val(a.drop_last()) * 256 + a.last());
    assert(a.last() == 8u8);
    assert(0 * 256 == 0);
    assert(be_val(a) == 8);
    assert(b.drop_last() =~= Seq::<u8>::empty());
    assert(be_val(b) == be_val(b.drop_last()) * 256 + b.last());
    assert(be_val(b) == 0x11);
    assert(c.drop_last() =~= Seq::<u8>::empty());
    assert(be_val(c) == be_val(c.drop_last()) * 256 + c.last());
    assert(be_val(c) == 1);
    lemma_be_val_zero(z6);
    lemma_be_val_zero(z23);
    lemma_be_val_concat(a, z6);
    lemma_be_val_concat(s1, b);
    lemma_be_val_concat(s2, z23);
    lemma_be_val_concat(s3, c);
    reveal_with_fuel(pow256, 33);
    assert(pow256(1) == 256);
    assert(pow256(6) == 0x1000000000000);
    assert(pow256(23) == 0x10000000000000000000000000000000000000000000000);
    assert(be_val(s1) == 8 * pow256(6) + 0);
    assert(be_val(s1) == 0x8000000000000);
    assert(be_val(s2) == be_val(s1) * pow256(1) + 0x11);
    assert(be_val(s1) * 256 == 0x800000000000000) by (nonlinear_arith)
        requires
            be_val(s1) == 0x8000000000000;
    assert(be_val(s2) == 0x800000000000011);
    assert(be_val(s3) == be_val(s2) * pow256(23));
    assert(be_val(s2) * 0x10000000000000000000000000000000000000000000000
        == 0x8000000000000110000000000000000000000000000000000000000000000)
        by (nonlinear_arith)
        requires
            be_val(s2) == 0x800000000000011;
    assert(be_val(s4) == be_val(s3) * pow256(1) + 1);
    assert(be_val(s3) * 256 == 0x800000000000011000000000000000000000000000000000000000000000000)
        by (nonlinear_arith)
        requires
            be_val(s3) == 0x8000000000000110000000000000000000000000000000000000000000000;
}

/// Facts about small powers used for range reasoning.
pub proof fn lemma_pow256_small()
    ensures
        pow256(8) == 0x10000000000000000,
        pow256(16) == 0x100000000000000000000000000000000,
        pow256(31) == 0x100000000000000000000000000000000000000000000000000000000000000,
        pow256(32) == 0x10000000000000000000000000000000000000000000000000000000000000000,
        pow256(8) < field_prime(),
        field_prime() * 16 + 16 <= pow256(32),
        field_prime() * 10 + 10 <= pow256(32),
        pow256(16) * pow256(16) == pow256(32),
{
    reveal_with_fuel(pow256, 33);
    crate::num::lemma_pow256_adds(16, 16);
}

/// A 32-byte vector of zeros.
#[verifier::loop_isolation(false)]
pub(crate) fn zero_vec32() -> (r: Vec<u8>)
    ensures
        r@.len() == 32,
        forall|j: int| 0 <= j < 32 ==> r@[j] == 0,
        be_val(r@) == 0,
{
    let mut v: Vec<u8> = Vec::new();
    let mut i: usize = 0;
    while i < 32
        invariant
            0 <= i <= 32,
            v@.len() == i,
            forall|j: int| 0 <= j < i ==> v@[j] == 0,
        decreases 32 - i,
    {
        v.push(0);
        i = i + 1;
    }
    proof {
        lemma_be_val_zero(v@);
    }
    v
}

/// Multiplies a 32-byte big-endian number in place by a small factor and adds a digit.
#[verifier::loop_isolation(false)]
pub(crate) fn mul_small_add(b: &mut Vec<u8>, c: u8, d: u8)
    requires
        old(b)@.len() == 32,
        2 <= c,
        d < c,
        be_val(old(b)@) * c + d < pow256(32),
    ensures
        final(b)@.len() == 32,
        be_val(final(b)@) == be_val(old(b)@) * c + d,
{
    let mut carry: u16 = d as u16;
    let mut i: usize = 32;
    proof {
        assert(pow256(0) == 1);
        let ghost sv32: nat = be_suffix_val(old(b)@, 32);
        assert(sv32 == 0);
        assert(sv32 * c == 0 && carry * 1 == carry) by (nonlinear_arith)
            requires
                sv32 == 0;
        assert(carry * pow256((32 - 32) as nat) == carry);
        assert(be_suffix_val(old(b)@, 32) * c == 0);
    }
    while i > 0
        invariant
            0 <= i <= 32,
            b@.len() == 32,
            2 <= c,
            carry <= 255,
            forall|j: int| 0 <= j < i ==> b@[j] == old(b)@[j],
            be_suffix_val(b@, i as int) + carry * pow256((32 - i) as nat)
                == be_suffix_val(old(b)@, i as int) * c + d,
        decreases i,
    {
        i = i - 1;
        let ghost prev = b@;
        let ghost carry0 = carry;
        let bi: u8 = b[i];
        proof {
            assert((bi as int) * (c as int) + carry <= 65280) by (nonlinear_arith)
                requires
                    bi <= 255,
                    c <= 255,
                    carry <= 255;
        }
        let t: u16 = (bi as u16) * (c as u16) + carry;
        b.set(i, (t & 0xff) as u8);
        carry = t >> 8;
        proof {
            assert(t == (t >> 8) * 256 + (t & 0xff) && (t & 0xff) < 256 && (t >> 8) <= 255)
                by (bit_vector);
            let p: nat = pow256((31 - i) as nat);
            assert(pow256((32 - i) as nat) == 256 * p);
            lemma_suffix_congruent(b@, prev, i as int + 1);
            assert(b@[i as int] == (t & 0xff));
            assert(be_suffix_val(b@, i as int)
                == (t & 0xff) * p + be_suffix_val(prev, i as int + 1));
            assert(prev[i as int] == old(b)@[i as int]);
            assert(be_suffix_val(old(b)@, i as int)
                == old(b)@[i as int] * p + be_suffix_val(old(b)@, i as int + 1));
            // invariant at i + 1: sv(prev, i+1) + carry0 * p == sv(old, i+1) * c + d
            assert(be_suffix_val(prev, i as int + 1) + carry0 * p
                == be_suffix_val(old(b)@, i as int + 1) * c + d);
            assert((t >> 8) * (256 * p) == ((t >> 8) * 256) * p) by (nonlinear_arith);
            assert((t & 0xff) * p + ((t >> 8) * 256) * p == t * p) by (nonlinear_arith)
                requires
                    t == (t >> 8) * 256 + (t & 0xff);
            assert(t * p == bi * (c * p) + carry0 * p) by (nonlinear_arith)
                requires
                    t == (bi as int) * (c as int) + carry0;
            let svo: nat = be_suffix_val(old(b)@, i as int + 1);
            assert(bi * (c * p) + svo * c == (bi * p + svo) * c) by (nonlinear_arith);
            assert(be_suffix_val(b@, i as int) + carry * pow256((32 - i) as nat)
                == be_suffix_val(old(b)@, i as int) * c + d);
        }
    }
    proof {
        lemma_be_val_eq_suffix(b@);
        lemma_be_val_eq_suffix(old(b)@);
        if carry > 0 {
            assert(carry * pow256(32) >= pow256(32)) by (nonlinear_arith)
                requires
                    carry >= 1,
                    pow256(32) >= 0;
        }
        assert(carry == 0);
        assert(carry * pow256(32) == 0) by (nonlinear_arith)
            requires
                carry == 0;
    }
}

/// Divides a 32-byte big-endian number in place by a small divisor, returning the remainder.
#[verifier::loop_isolation(false)]
pub(crate) fn div_small(b: &mut Vec<u8>, c: u8) -> (rem: u8)
    requires
        old(b)@.len() == 32,
        2 <= c,
    ensures
        final(b)@.len() == 32,
        rem < c,
        be_val(final(b)@) * c + rem == be_val(old(b)@),
{
    let mut rem: u16 = 0;
    let mut i: usize = 0;
    proof {
        assert(old(b)@.subrange(0, 0) =~= Seq::<u8>::empty());
        assert(b@.subrange(0, 0) =~= Seq::<u8>::empty());
        let ghost e: nat = be_val(b@.subrange(0, 0));
        assert(e == 0);
        assert(e * c == 0) by (nonlinear_arith)
            requires
                e == 0;
    }
    while i < 32
        invariant
            0 <= i <= 32,
            b@.len() == 32,
            2 <= c,
            rem < c,
            forall|j: int| i <= j < 32 ==> b@[j] == old(b)@[j],
            be_val(b@.subrange(0, i as int)) * c + rem
                == be_val(old(b)@.subrange(0, i as int)),
        decreases 32 - i,
    {
        let ghost prev = b@;
        let ghost rem0 = rem;
        let bi: u8 = b[i];
        let t: u16 = rem * 256 + (bi as u16);
        let q: u16 = t / (c as u16);
        rem = t % (c as u16);
        proof {
            assert(t < 256 * (c as int)) by (nonlinear_arith)
                requires
                    t == rem0 * 256 + bi,
                    rem0 < c,
                    bi <= 255;
            assert(q < 256 && (c as int) * (q as int) + (t % (c as u16)) == t
                && (t % (c as u16)) < c) by (nonlinear_arith)
                requires
                    q == t / (c as u16),
                    t < 256 * (c as int),
                    2 <= c;
        }
        b.set(i, q as u8);
        i = i + 1;
        proof {
            let k = i as int - 1;
            assert(b@.subrange(0, k) =~= prev.subrange(0, k));
            assert(b@.subrange(0, k + 1).drop_last() =~= b@.subrange(0, k));
            assert(b@.subrange(0, k + 1).last() == q as u8);
            assert(be_val(b@.subrange(0, k + 1)) == be_val(prev.subrange(0, k)) * 256 + q);
            assert(old(b)@.subrange(0, k + 1).drop_last() =~= old(b)@.subrange(0, k));
            assert(old(b)@.subrange(0, k + 1).last() == old(b)@[k]);
            assert(old(b)@[k] == bi);
            let pv: nat = be_val(prev.subrange(0, k));
            assert((pv * 256 + q) * c + (t % (c as u16))
                == (pv * c + rem0) * 256 + bi) by (nonlinear_arith)
                requires
                    (c as int) * (q as int) + (t % (c as u16)) == t,
                    t == rem0 * 256 + bi;
            assert(pv * c + rem0 == be_val(old(b)@.subrange(0, k)));
        }
    }
    proof {
        assert(b@.subrange(0, 32) =~= b@);
        assert(old(b)@.subrange(0, 32) =~= old(b)@);
    }
    rem as u8
}

/// Decides whether a 32-byte big-endian number is below the field prime.
#[verifier::loop_isolation(false)]
pub(crate) fn lt_prime(b: &Vec<u8>) -> (r: bool)
    requires
        b@.len() == 32,
    ensures
        r == (be_val(b@) < field_prime()),
{
    let mut i: usize = 0;
    proof {
        lemma_prime_bytes_val();
    }
    while i < 32
        invariant
            0 <= i <= 32,
            b@.len() == 32,
            b@.subrange(0, i as int) =~= prime_bytes().subrange(0, i as int),
        decreases 32 - i,
    {
        let pb: u8 = if i == 0 {
            8
        } else if i == 7 {
            0x11
        } else if i == 31 {
            1
        } else {
            0
        };
        proof {
            assert(pb == prime_bytes()[i as int]);
        }
        let bi: u8 = b[i];
        if bi < pb {
            proof {
                lemma_be_val_lex_lt(b@, prime_bytes(), i as int);
            }
            return true;
        }
        if bi > pb {
            proof {
                lemma_be_val_lex_lt(prime_bytes(), b@, i as int);
            }
            return false;
        }
        i = i + 1;
        proof {
            assert(b@.subrange(0, i as int) =~= prime_bytes().subrange(0, i as int));
        }
    }
    proof {
        assert(b@ =~= b@.subrange(0, 32));
        assert(prime_bytes() =~= prime_bytes().subrange(0, 32));
        assert(b@ =~= prime_bytes());
    }
    false
}

/// Decides whether a byte vector holds only zeros, that is, has value zero.
#[verifier::loop_isolation(false)]
pub(crate) fn bytes_all_zero(v: &Vec<u8>) -> (r: bool)
    ensures
        r == (be_val(v@) == 0),
{
    let n = v.len();
    let mut i: usize = 0;
    while i < n
        invariant
            0 <= i <= n,
            n == v@.len(),
            forall|j: int| 0 <= j < i ==> v@[j] == 0,
        decreases n - i,
    {
        if v[i] != 0 {
            proof {
                lemma_be_val_zero(v@);
            }
            return false;
        }
        i = i + 1;
    }
    proof {
        lemma_be_val_zero(v@);
    }
    true
}

/// Decides whether a field element is zero.
#[verifier::loop_isolation(false)]
pub fn felt_is_zero(f: &Felt) -> (r: bool)
    requires
        f.wf(),
    ensures
        r == (f.val() == 0),
{
    let s = f.as_bytes_slice();
    let mut i: usize = 0;
    while i < 32
        invariant
            0 <= i <= 32,
            s@.len() == 32,
            s@ == f.repr(),
            forall|j: int| 0 <= j < i ==> s@[j] == 0,
        decreases 32 - i,
    {
        if *slice_index(s, i) != 0 {
            proof {
                lemma_be_val_zero(f.repr());
            }
            return false;
        }
        i = i + 1;
    }
    proof {
        lemma_be_val_zero(f.repr());
    }
    true
}

/// Reads one byte of a slice.
fn slice_index(s: &[u8], i: usize) -> (r: &u8)
    requires
        0 <= i < s@.len(),
    ensures
        *r == s@[i as int],
{
    &s[i]
}

} // verus!
