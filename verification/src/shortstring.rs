use vstd::prelude::*;

use crate::felt::lemma_pow256_small;
use crate::felt::Felt;
use crate::field_prime;
use crate::num::be_val;
use crate::num::lemma_be_val_bound;
use crate::num::lemma_be_val_zero_extend;
use crate::num::lemma_pow256_adds;
use crate::num::lemma_pow256_pos;
use crate::num::pow256;

verus! {

broadcast use vstd::arithmetic::mul::lemma_mul_nonnegative;

/// How a short-string form can be rejected.
#[derive(Clone, Copy, Debug, PartialEq, Eq, Structural)]
pub enum ShortStringError {
    /// Too long, an embedded zero byte, or a byte outside the 7-bit range.
    InvalidAscii,
}

/// A valid short string: at most 31 bytes, each a nonzero 7-bit code.
/// The encoding stays within 7-bit ASCII; bytes of 128 and above are
/// rejected on both sides.
pub open spec fn short_string_ok(s: Seq<u8>) -> bool {
    s.len() <= 31 && forall|i: int| 0 <= i < s.len() ==> 1 <= s[i] && s[i] <= 127
}

/// The byte string with its leading zero bytes removed.
pub open spec fn strip_zeros(s: Seq<u8>) -> Seq<u8>
    decreases s.len(),
{
    if s.len() == 0 {
        s
    } else if s[0] != 0 {
        s
    } else {
        strip_zeros(s.drop_first())
    }
}

/// Stripping a string whose first `k` bytes are zero, and whose byte at `k`
/// (if any) is not, leaves exactly the bytes from `k` on.
pub proof fn lemma_strip_zeros_skip(s: Seq<u8>, k: int)
    requires
        0 <= k <= s.len(),
        forall|j: int| 0 <= j < k ==> s[j] == 0,
        k == s.len() || s[k] != 0,
    ensures
        strip_zeros(s) == s.subrange(k, s.len() as int),
    decreases k,
{
    if k == 0 {
        assert(s.subrange(0, s.len() as int) =~= s);
    } else {
        let t = s.drop_first();
        assert(forall|j: int| 0 <= j < k - 1 ==> t[j] == 0);
        lemma_strip_zeros_skip(t, k - 1);
        assert(t.subrange(k - 1, t.len() as int) =~= s.subrange(k, s.len() as int));
    }
}

/// Packs at most 31 nonzero 7-bit bytes big-endian into a field element.
#[verifier::loop_isolation(false)]
pub fn encode(s: &[u8]) -> (r: Result<Felt, ShortStringError>)
    ensures
        match r {
            Ok(f) => short_string_ok(s@) && f.wf() && f.val() == be_val(s@) && f.repr()
                == Seq::new((32 - s@.len()) as nat, |i: int| 0u8) + s@,
            Err(ShortStringError::InvalidAscii) => !short_string_ok(s@),
        },
{
    let n = s.len();
    if n > 31 {
        return Err(ShortStringError::InvalidAscii);
    }
    let mut i: usize = 0;
    while i < n
        invariant
            0 <= i <= n,
            forall|j: int| 0 <= j < i ==> 1 <= s@[j] && s@[j] <= 127,
        decreases n - i,
    {
        let b = s[i];
        if b == 0 || b > 127 {
            return Err(ShortStringError::InvalidAscii);
        }
        i = i + 1;
    }
    let pad = 32 - n;
    let mut out: Vec<u8> = Vec::new();
    let mut j: usize = 0;
    while j < pad
        invariant
            0 <= j <= pad,
            out@ =~= Seq::new(j as nat, |t: int| 0u8),
        decreases pad - j,
    {
        out.push(0);
        proof {
            assert(out@ =~= Seq::new(j as nat + 1, |t: int| 0u8));
        }
        j = j + 1;
    }
    let mut t: usize = 0;
    while t < n
        invariant
            0 <= t <= n,
            out@ =~= Seq::new(pad as nat, |q: int| 0u8) + s@.subrange(0, t as int),
        decreases n - t,
    {
        out.push(s[t]);
        proof {
            assert(out@ =~= Seq::new(pad as nat, |q: int| 0u8) + s@.subrange(0, t as int + 1));
        }
        t = t + 1;
    }
    proof {
        let z = Seq::new(pad as nat, |q: int| 0u8);
        assert(s@.subrange(0, n as int) =~= s@);
        assert(out@ =~= z + s@);
        lemma_be_val_zero_extend(z, s@);
        lemma_be_val_bound(s@);
        lemma_pow256_adds((31 - n) as nat, n as nat);
        lemma_pow256_pos((31 - n) as nat);
        assert(pow256((31 - n) as nat) * pow256(n as nat) >= pow256(n as nat))
            by (nonlinear_arith)
            requires
                pow256((31 - n) as nat) >= 1,
                pow256(n as nat) >= 0;
        lemma_pow256_small();
        assert(pow256(31) < field_prime());
    }
    Ok(Felt::from_bytes_vec(out))
}

/// Unpacks a field element into its short-string bytes: the 32-byte
/// representation with leading zeros stripped, each remaining byte a
/// nonzero 7-bit code.
#[verifier::loop_isolation(false)]
pub fn decode(f: &Felt) -> (r: Result<Vec<u8>, ShortStringError>)
    requires
        f.wf(),
    ensures
        match r {
            Ok(bytes) => short_string_ok(strip_zeros(f.repr())) && bytes@ == strip_zeros(
                f.repr(),
            ),
            Err(ShortStringError::InvalidAscii) => !short_string_ok(strip_zeros(f.repr())),
        },
{
    let s = f.as_bytes_slice();
    let mut k: usize = 0;
    while k < 32 && s[k] == 0
        invariant
            0 <= k <= 32,
            s@.len() == 32,
            s@ == f.repr(),
            forall|j: int| 0 <= j < k ==> s@[j] == 0,
        decreases 32 - k,
    {
        k = k + 1;
    }
    proof {
        lemma_strip_zeros_skip(f.repr(), k as int);
    }
    if k == 0 {
        // all 32 bytes remain, one more than a short string can hold
        proof {
            assert(strip_zeros(f.repr()).len() == 32);
        }
        return Err(ShortStringError::InvalidAscii);
    }
    let mut out: Vec<u8> = Vec::new();
    let mut i: usize = k;
    while i < 32
        invariant
            k <= i <= 32,
            s@.len() == 32,
            s@ == f.repr(),
            out@ =~= s@.subrange(k as int, i as int),
            forall|j: int| k <= j < i ==> 1 <= s@[j] && s@[j] <= 127,
        decreases 32 - i,
    {
        let b = *slice_at(s, i);
        if b == 0 || b > 127 {
            proof {
                let stripped = strip_zeros(f.repr());
                assert(stripped[i - k as int] == s@[i as int]);
            }
            return Err(ShortStringError::InvalidAscii);
        }
        out.push(b);
        proof {
            assert(out@ =~= s@.subrange(k as int, i as int + 1));
        }
        i = i + 1;
    }
    Ok(out)
}

/// Reads one byte of a slice.
fn slice_at(s: &[u8], i: usize) -> (r: &u8)
    requires
        0 <= i < s@.len(),
    ensures
        *r == s@[i as int],
{
    &s[i]
}

/// Round trip: encoding a valid short string and stripping the padded
/// representation gives the original bytes back. Together with the
/// contracts of `encode` and `decode` this gives `decode(encode(s)) == s`
/// for every valid short string `s`.
pub proof fn lemma_short_string_round_trip(s: Seq<u8>)
    requires
        short_string_ok(s),
    ensures
        strip_zeros(Seq::new((32 - s.len()) as nat, |i: int| 0u8) + s) == s,
{
    let z = Seq::new((32 - s.len()) as nat, |i: int| 0u8);
    let padded = z + s;
    let k = z.len() as int;
    assert(forall|j: int| 0 <= j < k ==> padded[j] == 0);
    if s.len() > 0 {
        assert(padded[k] == s[0]);
        assert(s[0] != 0);
    }
    lemma_strip_zeros_skip(padded, k);
    assert(padded.subrange(k, padded.len() as int) =~= s);
}

} // verus!
