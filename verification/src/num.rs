use vstd::prelude::*;

verus! {

broadcast use vstd::arithmetic::mul::lemma_mul_nonnegative;

/// 256 raised to the power `k`: the weight of a byte `k` positions from the
/// least significant end of a big-endian byte string.
pub open spec fn pow256(k: nat) -> nat
    decreases k,
{
    if k == 0 {
        1
    } else {
        256 * pow256((k - 1) as nat)
    }
}

/// The unsigned integer value of a big-endian byte sequence.
pub open spec fn be_val(s: Seq<u8>) -> nat
    decreases s.len(),
{
    if s.len() == 0 {
        0
    } else {
        (be_val(s.drop_last()) * 256 + s.last()) as nat
    }
}

/// The unsigned integer value of the suffix `s[i..]`, in big-endian order.
pub open spec fn be_suffix_val(s: Seq<u8>, i: int) -> nat
    decreases s.len() - i,
{
    if i < 0 || i >= s.len() {
        0
    } else {
        (s[i] * pow256((s.len() - 1 - i) as nat) + be_suffix_val(s, i + 1)) as nat
    }
}

pub proof fn lemma_pow256_pos(k: nat)
    ensures
        pow256(k) >= 1,
    decreases k,
{
    if k > 0 {
        lemma_pow256_pos((k - 1) as nat);
    }
}

pub proof fn lemma_pow256_adds(a: nat, b: nat)
    ensures
        pow256(a + b) == pow256(a) * pow256(b),
    decreases a,
{
    if a == 0 {
        assert(pow256(0) == 1);
        assert(1 * pow256(b) == pow256(b));
    } else {
        lemma_pow256_adds((a - 1) as nat, b);
        assert(256 * (pow256((a - 1) as nat) * pow256(b))
            == (256 * pow256((a - 1) as nat)) * pow256(b)) by (nonlinear_arith);
        assert(pow256(a + b) == 256 * pow256((a + b - 1) as nat));
        assert(pow256(a + b) == 256 * (pow256((a - 1) as nat) * pow256(b)));
        assert(pow256(a) == 256 * pow256((a - 1) as nat));
    }
}

/// Concatenation: the left part is shifted by the length of the right part.
pub proof fn lemma_be_val_concat(a: Seq<u8>, b: Seq<u8>)
    ensures
        be_val(a + b) == be_val(a) * pow256(b.len()) + be_val(b),
    decreases b.len(),
{
    if b.len() == 0 {
        assert(a + b =~= a);
        assert(pow256(0) == 1);
        assert(be_val(a) * 1 == be_val(a));
        assert(be_val(b) == 0);
    } else {
        assert((a + b).drop_last() =~= a + b.drop_last());
        assert((a + b).last() == b.last());
        lemma_be_val_concat(a, b.drop_last());
        let p: nat = pow256((b.len() - 1) as nat);
        assert((be_val(a) * p + be_val(b.drop_last())) * 256
            == be_val(a) * (256 * p) + be_val(b.drop_last()) * 256) by (nonlinear_arith);
        assert(be_val(a + b) == be_val(a + b.drop_last()) * 256 + b.last());
        assert(be_val(a + b.drop_last()) == be_val(a) * p + be_val(b.drop_last()));
        assert(pow256(b.len()) == 256 * p);
        assert(be_val(a) * (256 * p) == be_val(a) * pow256(b.len()));
        assert(be_val(b) == be_val(b.drop_last()) * 256 + b.last());
    }
}

/// Splitting at index `i`: prefix value shifted by the suffix length, plus suffix value.
pub proof fn lemma_be_val_split(s: Seq<u8>, i: int)
    requires
        0 <= i <= s.len(),
    ensures
        be_val(s) == be_val(s.subrange(0, i)) * pow256((s.len() - i) as nat)
            + be_suffix_val(s, i),
    decreases s.len() - i,
{
    let n = s.len() as int;
    if i == n {
        assert(s.subrange(0, i) =~= s);
        assert(pow256(0) == 1);
        assert(be_val(s) * 1 == be_val(s));
        assert(be_suffix_val(s, i) == 0);
    } else {
        lemma_be_val_split(s, i + 1);
        assert(s.subrange(0, i + 1).drop_last() =~= s.subrange(0, i));
        assert(s.subrange(0, i + 1).last() == s[i]);
        let pv: nat = be_val(s.subrange(0, i));
        let b: u8 = s[i];
        let p: nat = pow256((n - 1 - i) as nat);
        assert((pv * 256 + b) * p == pv * (256 * p) + b * p) by (nonlinear_arith);
        assert(be_val(s.subrange(0, i + 1)) == pv * 256 + b);
        assert(be_val(s) == be_val(s.subrange(0, i + 1)) * p + be_suffix_val(s, i + 1));
        assert(be_val(s) == (pv * 256 + b) * p + be_suffix_val(s, i + 1));
        assert(pow256((n - i) as nat) == 256 * p);
        assert(pv * (256 * p) == pv * pow256((n - i) as nat));
        assert(be_suffix_val(s, i) == b * p + be_suffix_val(s, i + 1));
    }
}

pub proof fn lemma_be_val_eq_suffix(s: Seq<u8>)
    ensures
        be_val(s) == be_suffix_val(s, 0),
{
    lemma_be_val_split(s, 0);
    assert(s.subrange(0, 0) =~= Seq::<u8>::empty());
    assert(be_val(s.subrange(0, 0)) == 0);
    assert(0 * pow256(s.len()) == 0) by (nonlinear_arith);
}

/// The suffix value depends only on the entries from `i` on.
pub proof fn lemma_suffix_congruent(s1: Seq<u8>, s2: Seq<u8>, i: int)
    requires
        s1.len() == s2.len(),
        forall|j: int| i <= j < s1.len() ==> s1[j] == s2[j],
    ensures
        be_suffix_val(s1, i) == be_suffix_val(s2, i),
    decreases s1.len() - i,
{
    if 0 <= i && i < s1.len() {
        lemma_suffix_congruent(s1, s2, i + 1);
    }
}

pub proof fn lemma_suffix_bound(s: Seq<u8>, i: int)
    requires
        0 <= i <= s.len(),
    ensures
        be_suffix_val(s, i) < pow256((s.len() - i) as nat),
    decreases s.len() - i,
{
    let n = s.len() as int;
    if i == n {
    } else {
        lemma_suffix_bound(s, i + 1);
        let p: nat = pow256((n - 1 - i) as nat);
        assert(pow256((n - i) as nat) == 256 * p);
        assert(s[i] * p + p <= 256 * p) by (nonlinear_arith)
            requires s[i] <= 255 && p >= 0;
    }
}

pub proof fn lemma_be_val_bound(s: Seq<u8>)
    ensures
        be_val(s) < pow256(s.len()),
{
    lemma_be_val_eq_suffix(s);
    lemma_suffix_bound(s, 0);
}

/// A byte string of zeros has value zero, and conversely.
pub proof fn lemma_be_val_zero(s: Seq<u8>)
    ensures
        be_val(s) == 0 <==> (forall|j: int| 0 <= j < s.len() ==> s[j] == 0),
    decreases s.len(),
{
    if s.len() > 0 {
        lemma_be_val_zero(s.drop_last());
        if be_val(s) == 0 {
            assert(forall|j: int| 0 <= j < s.len() - 1 ==> s[j] == s.drop_last()[j]);
        } else {
            if forall|j: int| 0 <= j < s.len() ==> s[j] == 0 {
                assert(forall|j: int| 0 <= j < s.len() - 1 ==> s.drop_last()[j] == 0);
                assert(be_val(s.drop_last()) == 0);
                assert(s.last() == 0);
            }
        }
    }
}

/// Lexicographic comparison of equal-length big-endian strings decides value order.
pub proof fn lemma_be_val_lex_lt(s1: Seq<u8>, s2: Seq<u8>, k: int)
    requires
        s1.len() == s2.len(),
        0 <= k < s1.len(),
        s1.subrange(0, k) =~= s2.subrange(0, k),
        s1[k] < s2[k],
    ensures
        be_val(s1) < be_val(s2),
{
    let n = s1.len() as int;
    lemma_be_val_split(s1, k);
    lemma_be_val_split(s2, k);
    let pv: nat = be_val(s1.subrange(0, k));
    let shift: nat = pow256((n - k) as nat);
    let p: nat = pow256((n - 1 - k) as nat);
    lemma_suffix_bound(s1, k + 1);
    assert(be_suffix_val(s1, k) == s1[k] * p + be_suffix_val(s1, k + 1));
    assert(be_suffix_val(s2, k) == s2[k] * p + be_suffix_val(s2, k + 1));
    lemma_pow256_pos((n - 1 - k) as nat);
    assert(s1[k] * p + be_suffix_val(s1, k + 1) < s2[k] * p) by (nonlinear_arith)
        requires
            s1[k] < s2[k],
            p >= 1,
            be_suffix_val(s1, k + 1) < p;
}

/// Prepending zero bytes does not change the value.
pub proof fn lemma_be_val_zero_extend(z: Seq<u8>, s: Seq<u8>)
    requires
        forall|j: int| 0 <= j < z.len() ==> z[j] == 0,
    ensures
        be_val(z + s) == be_val(s),
{
    lemma_be_val_concat(z, s);
    lemma_be_val_zero(z);
}

/// Extending a prefix by one byte multiplies its value by the base and adds the byte.
pub proof fn lemma_prefix_extend(s: Seq<u8>, i: int)
    requires
        0 <= i < s.len(),
    ensures
        be_val(s.subrange(0, i + 1)) == be_val(s.subrange(0, i)) * 256 + s[i],
{
    assert(s.subrange(0, i + 1).drop_last() =~= s.subrange(0, i));
    assert(s.subrange(0, i + 1).last() == s[i]);
}

/// Zero bytes in front of position `i` contribute nothing to a suffix value.
pub proof fn lemma_suffix_zeros(s: Seq<u8>, k: int, i: int)
    requires
        0 <= k <= i <= s.len(),
        forall|j: int| k <= j < i ==> s[j] == 0,
    ensures
        be_suffix_val(s, k) == be_suffix_val(s, i),
    decreases i - k,
{
    if k < i {
        assert(0 * pow256((s.len() - 1 - k) as nat) == 0) by (nonlinear_arith);
        lemma_suffix_zeros(s, k + 1, i);
    }
}

/// A suffix value can be read off the corresponding subrange.
pub proof fn lemma_suffix_of_subrange(s: Seq<u8>, i: int, j: int)
    requires
        0 <= i <= s.len(),
        0 <= j <= s.len() - i,
    ensures
        be_suffix_val(s.subrange(i, s.len() as int), j) == be_suffix_val(s, i + j),
    decreases s.len() - i - j,
{
    let t = s.subrange(i, s.len() as int);
    if i + j < s.len() {
        assert(t[j] == s[i + j]);
        lemma_suffix_of_subrange(s, i, j + 1);
    }
}

/// The value of the bytes from `i` on equals the suffix value at `i`.
pub proof fn lemma_be_val_of_suffix(s: Seq<u8>, i: int)
    requires
        0 <= i <= s.len(),
    ensures
        be_val(s.subrange(i, s.len() as int)) == be_suffix_val(s, i),
{
    lemma_be_val_eq_suffix(s.subrange(i, s.len() as int));
    lemma_suffix_of_subrange(s, i, 0);
}

/// Big-endian values of equal-length strings are equal only for equal
/// strings: a value below the range bound has one image of each length.
pub proof fn lemma_be_val_injective(s1: Seq<u8>, s2: Seq<u8>)
    requires
        s1.len() == s2.len(),
        be_val(s1) == be_val(s2),
    ensures
        s1 =~= s2,
    decreases s1.len(),
{
    if s1.len() > 0 {
        assert(be_val(s1.drop_last()) * 256 + s1.last()
            == be_val(s2.drop_last()) * 256 + s2.last());
        assert(be_val(s1.drop_last()) == be_val(s2.drop_last()) && s1.last() == s2.last())
            by (nonlinear_arith)
            requires
                be_val(s1.drop_last()) * 256 + s1.last()
                    == be_val(s2.drop_last()) * 256 + s2.last(),
                s1.last() < 256,
                s2.last() < 256;
        lemma_be_val_injective(s1.drop_last(), s2.drop_last());
        assert(s1 =~= s1.drop_last().push(s1.last()));
        assert(s2 =~= s2.drop_last().push(s2.last()));
    }
}

} // verus!
