use vstd::prelude::*;

use crate::codec::parse_felt;
use crate::codec::token_ok;
use crate::codec::token_val;
use crate::codec::FeltParseError;
use crate::felt::Felt;
use crate::field_prime;
use crate::hashing::ascii_only;
use crate::hashing::selector_from_bytes;
use crate::hashing::selector_hash;

verus! {

/// The space that separates tokens within one call description; the other
/// ASCII whitespace bytes count the same.
pub const ASCII_SPACE: u8 = 32;

/// The hyphen that separates call descriptions.
pub const ASCII_HYPHEN: u8 = 45;

/// The comma that separates the felt literals of a calldata list.
pub const ASCII_COMMA: u8 = 44;

/// ASCII whitespace: horizontal tab through carriage return, or the space.
pub open spec fn is_blank(b: u8) -> bool {
    b == ASCII_SPACE || (9 <= b && b <= 13)
}

/// The byte string with every whitespace byte written as a space.
pub open spec fn blanks_normal(s: Seq<u8>) -> Seq<u8> {
    s.map_values(|b: u8| if is_blank(b) { ASCII_SPACE } else { b })
}

/// The token a multicall description lacked.
#[derive(Clone, Copy, Debug, PartialEq, Eq, Structural)]
pub enum CallField {
    To,
    Selector,
}

/// How a multicall description can be rejected. Call indices are 1-based.
#[derive(Clone, Copy, Debug, PartialEq, Eq, Structural)]
pub enum MulticallError {
    /// A required token is absent from the call at this index.
    MissingField(CallField, usize),
    /// The target address or a calldata token of the call at this index
    /// failed felt parsing, for the wrapped reason.
    InvalidCalldata(usize, FeltParseError),
    /// The function name of the call at this index cannot be hashed.
    SelectorError(usize),
}

/// One contract invocation: target, entry-point selector, and arguments.
pub struct Call {
    pub to: Felt,
    pub selector: Felt,
    pub calldata: Vec<Felt>,
}

impl Call {
    pub open spec fn wf(&self) -> bool {
        &&& self.to.wf()
        &&& self.selector.wf()
        &&& forall|i: int| 0 <= i < self.calldata@.len() ==> self.calldata@[i].wf()
    }

    /// The numeric content of the call.
    pub open spec fn vals(&self) -> (nat, nat, Seq<nat>) {
        (self.to.val(), self.selector.val(), felt_vals(self.calldata@))
    }
}

pub open spec fn felt_vals(s: Seq<Felt>) -> Seq<nat> {
    s.map_values(|f: Felt| f.val())
}

pub open spec fn call_vals_seq(s: Seq<Call>) -> Seq<(nat, nat, Seq<nat>)> {
    s.map_values(|c: Call| c.vals())
}

// ---------------------------------------------------------------------------
// Splitting the textual description
// ---------------------------------------------------------------------------

/// The position of the first separator, or the length if there is none.
pub open spec fn find_first(s: Seq<u8>, sep: u8) -> nat
    decreases s.len(),
{
    if s.len() == 0 {
        0
    } else if s[0] == sep {
        0
    } else {
        1 + find_first(s.drop_first(), sep)
    }
}

pub proof fn lemma_find_first_at(s: Seq<u8>, sep: u8, k: int)
    requires
        0 <= k <= s.len(),
        forall|j: int| 0 <= j < k ==> s[j] != sep,
        k == s.len() || s[k] == sep,
    ensures
        find_first(s, sep) == k,
    decreases k,
{
    if k == 0 {
    } else {
        let t = s.drop_first();
        assert(forall|j: int| 0 <= j < k - 1 ==> t[j] != sep);
        lemma_find_first_at(t, sep, k - 1);
    }
}

/// The segments of `s` between occurrences of `sep`: always at least one
/// segment, and empty segments are kept.
pub open spec fn split_seq(s: Seq<u8>, sep: u8) -> Seq<Seq<u8>>
    decreases s.len(),
{
    let i = find_first(s, sep);
    if i >= s.len() {
        seq![s]
    } else {
        seq![s.take(i as int)] + split_seq(s.skip(i as int + 1), sep)
    }
}

/// The whitespace-separated tokens of one call description: the non-empty
/// pieces between whitespace bytes, so that leading and trailing blanks
/// fall away.
pub open spec fn tokens_of(s: Seq<u8>) -> Seq<Seq<u8>> {
    split_seq(blanks_normal(s), ASCII_SPACE).filter(|t: Seq<u8>| t.len() > 0)
}

pub open spec fn seqs_of(r: Seq<Vec<u8>>) -> Seq<Seq<u8>> {
    r.map_values(|v: Vec<u8>| v@)
}

/// Splits a byte string at every separator, keeping empty segments.
#[verifier::loop_isolation(false)]
fn split_bytes(s: &[u8], sep: u8) -> (r: Vec<Vec<u8>>)
    ensures
        seqs_of(r@) == split_seq(s@, sep),
        r@.len() >= 1,
{
    let n = s.len();
    let mut res: Vec<Vec<u8>> = Vec::new();
    let mut seg: Vec<u8> = Vec::new();
    let mut i: usize = 0;
    proof {
        assert(s@.skip(0) =~= s@);
    }
    while i < n
        invariant
            0 <= i <= n,
            n == s@.len(),
            seg@.len() <= i,
            seg@ =~= s@.subrange(i - seg@.len(), i as int),
            forall|j: int| i - seg@.len() <= j < i ==> s@[j] != sep,
            split_seq(s@, sep) == seqs_of(res@) + split_seq(s@.skip(i - seg@.len()), sep),
        decreases n - i,
    {
        let ghost st = i - seg@.len();
        let b = s[i];
        if b == sep {
            let ghost oldres = res@;
            let ghost oldseg = seg@;
            res.push(seg);
            seg = Vec::new();
            proof {
                let tail = s@.skip(st);
                assert(forall|j: int| 0 <= j < i - st ==> tail[j] != sep);
                assert(tail[i - st] == sep);
                lemma_find_first_at(tail, sep, i - st);
                assert(tail.take(i - st) =~= oldseg);
                assert(tail.skip(i - st + 1) =~= s@.skip(i as int + 1));
                assert(split_seq(tail, sep) == seq![oldseg] + split_seq(
                    s@.skip(i as int + 1),
                    sep,
                ));
                assert(seqs_of(res@) =~= seqs_of(oldres).push(oldseg));
                assert(seqs_of(res@) + split_seq(s@.skip(i as int + 1), sep)
                    =~= seqs_of(oldres) + (seq![oldseg] + split_seq(
                    s@.skip(i as int + 1),
                    sep,
                )));
                assert(seg@ =~= s@.subrange(i as int + 1, i as int + 1));
            }
        } else {
            seg.push(b);
        }
        i = i + 1;
    }
    let ghost st = n - seg@.len();
    let ghost oldres = res@;
    let ghost oldseg = seg@;
    res.push(seg);
    proof {
        let tail = s@.skip(st);
        assert(forall|j: int| 0 <= j < n - st ==> tail[j] != sep);
        lemma_find_first_at(tail, sep, n - st);
        assert(tail =~= oldseg);
        assert(split_seq(tail, sep) == seq![tail]);
        assert(seqs_of(res@) =~= seqs_of(oldres).push(oldseg));
        assert(seqs_of(oldres) + seq![oldseg] =~= seqs_of(res@));
    }
    res
}

/// Copies a byte vector.
#[verifier::loop_isolation(false)]
fn copy_bytes(v: &Vec<u8>) -> (r: Vec<u8>)
    ensures
        r@ == v@,
{
    let mut out: Vec<u8> = Vec::new();
    let mut i: usize = 0;
    let n = v.len();
    while i < n
        invariant
            0 <= i <= n,
            n == v@.len(),
            out@ =~= v@.subrange(0, i as int),
        decreases n - i,
    {
        out.push(v[i]);
        i = i + 1;
    }
    proof {
        assert(out@ =~= v@);
    }
    out
}

/// Writes every whitespace byte as a space, leaving the rest alone.
#[verifier::loop_isolation(false)]
fn normalize_blanks(seg: &[u8]) -> (r: Vec<u8>)
    ensures
        r@ == blanks_normal(seg@),
{
    let n = seg.len();
    let mut out: Vec<u8> = Vec::new();
    let mut i: usize = 0;
    while i < n
        invariant
            0 <= i <= n,
            n == seg@.len(),
            out@ =~= blanks_normal(seg@).subrange(0, i as int),
        decreases n - i,
    {
        let b = seg[i];
        if b == ASCII_SPACE || (b >= 9 && b <= 13) {
            out.push(ASCII_SPACE);
        } else {
            out.push(b);
        }
        proof {
            assert(blanks_normal(seg@)[i as int] == if is_blank(seg@[i as int]) {
                ASCII_SPACE
            } else {
                seg@[i as int]
            });
            assert(out@ =~= blanks_normal(seg@).subrange(0, i as int + 1));
        }
        i = i + 1;
    }
    proof {
        assert(out@ =~= blanks_normal(seg@));
    }
    out
}

/// Splits one call description into its whitespace-separated tokens.
#[verifier::loop_isolation(false)]
fn tokenize(seg: &[u8]) -> (r: Vec<Vec<u8>>)
    ensures
        seqs_of(r@) == tokens_of(seg@),
{
    let normal = normalize_blanks(seg);
    let parts = split_bytes(normal.as_slice(), ASCII_SPACE);
    let mut out: Vec<Vec<u8>> = Vec::new();
    let mut i: usize = 0;
    let n = parts.len();
    let ghost pred = |t: Seq<u8>| t.len() > 0;
    proof {
        reveal(Seq::filter);
        assert(seqs_of(parts@).subrange(0, 0) =~= Seq::<Seq<u8>>::empty());
        assert(Seq::<Seq<u8>>::empty().filter(pred) =~= Seq::<Seq<u8>>::empty());
        assert(seqs_of(out@) =~= Seq::<Seq<u8>>::empty());
    }
    while i < n
        invariant
            0 <= i <= n,
            n == parts@.len(),
            seqs_of(out@) == seqs_of(parts@).subrange(0, i as int).filter(pred),
        decreases n - i,
    {
        let ghost oldout = out@;
        let ghost pre = seqs_of(parts@).subrange(0, i as int);
        if parts[i].len() > 0 {
            out.push(copy_bytes(&parts[i]));
        }
        proof {
            reveal(Seq::filter);
            let x = parts@[i as int]@;
            let ext = seqs_of(parts@).subrange(0, i as int + 1);
            assert(ext.len() == i + 1);
            assert(ext.drop_last() =~= pre);
            assert(ext.last() == x);
            assert(pred(x) == (x.len() > 0));
            assert(ext.filter(pred) == if pred(ext.last()) {
                ext.drop_last().filter(pred).push(ext.last())
            } else {
                ext.drop_last().filter(pred)
            });
            if x.len() > 0 {
                assert(seqs_of(out@) =~= seqs_of(oldout).push(x));
                assert(ext.filter(pred) == pre.filter(pred).push(x));
            } else {
                assert(ext.filter(pred) == pre.filter(pred));
            }
        }
        i = i + 1;
    }
    proof {
        assert(seqs_of(parts@).subrange(0, n as int) =~= seqs_of(parts@));
    }
    out
}

// ---------------------------------------------------------------------------
// The call grammar
// ---------------------------------------------------------------------------

/// The parse error that a felt token yields: a bad alphabet before a value
/// out of range.
pub open spec fn token_err(t: Seq<u8>) -> FeltParseError {
    if !token_ok(t) {
        FeltParseError::InvalidFormat
    } else {
        FeltParseError::OutOfRange
    }
}

/// Whether a felt token parses to a value below the prime.
pub open spec fn felt_token_good(t: Seq<u8>) -> bool {
    token_ok(t) && token_val(t) < field_prime()
}

/// The comma-separated felt literals of one calldata token. A lone literal
/// is the one-piece list, so both forms pass through the same door.
pub open spec fn calldata_pieces(t: Seq<u8>) -> Seq<Seq<u8>> {
    split_seq(t, ASCII_COMMA)
}

/// Whether every piece of a calldata token parses to a value below the
/// prime.
pub open spec fn token_list_good(t: Seq<u8>) -> bool {
    forall|p: int| 0 <= p < calldata_pieces(t).len() ==> felt_token_good(
        #[trigger] calldata_pieces(t)[p],
    )
}

/// The values of a calldata token's pieces, in order.
pub open spec fn token_list_vals(t: Seq<u8>) -> Seq<nat> {
    calldata_pieces(t).map_values(|piece: Seq<u8>| token_val(piece))
}

/// The calldata values of the first `k` tokens, the third token on,
/// flattened in order.
pub open spec fn seg_calldata_vals(toks: Seq<Seq<u8>>, k: int) -> Seq<nat>
    decreases k,
{
    if k <= 2 {
        Seq::empty()
    } else {
        seg_calldata_vals(toks, k - 1) + token_list_vals(toks[k - 1])
    }
}

/// Whether one call description is well-formed: a parsable target, an ASCII
/// function name, and calldata tokens whose every piece parses.
pub open spec fn call_seg_ok(seg: Seq<u8>) -> bool {
    let toks = tokens_of(seg);
    &&& toks.len() >= 2
    &&& felt_token_good(toks[0])
    &&& ascii_only(toks[1])
    &&& forall|j: int| 2 <= j < toks.len() ==> token_list_good(#[trigger] toks[j])
}

/// The numeric content of one well-formed call description.
pub open spec fn seg_call_vals(seg: Seq<u8>) -> (nat, nat, Seq<nat>) {
    let toks = tokens_of(seg);
    (
        token_val(toks[0]),
        selector_hash(toks[1]),
        seg_calldata_vals(toks, toks.len() as int),
    )
}

// ---------------------------------------------------------------------------
// Parsing
// ---------------------------------------------------------------------------

/// Parses a multicall description: call descriptions separated by hyphens,
/// each holding a target token, a function-name token, and calldata tokens
/// separated by whitespace. A calldata token is a felt literal or a
/// comma-separated list of felt literals; both forms are accepted
/// transparently, the listed values flattened in order. Calls are checked
/// in order; the first offending call decides the error, and within a call
/// the target is checked before the name, the name before the calldata. An
/// empty description, or an empty piece between two hyphens, is a call with
/// no tokens at all, and is reported as a missing target: emptiness is not
/// silently accepted.
#[verifier::loop_isolation(false)]
pub fn parse_multicall(args: &[u8]) -> (r: Result<Vec<Call>, MulticallError>)
    ensures
        ({
            let segs = split_seq(args@, ASCII_HYPHEN);
            match r {
                Ok(calls) => {
                    &&& calls@.len() == segs.len()
                    &&& forall|k: int| 0 <= k < segs.len() ==> call_seg_ok(#[trigger] segs[k])
                    &&& forall|k: int| 0 <= k < calls@.len() ==> (#[trigger] calls@[k]).wf()
                    &&& call_vals_seq(calls@) == segs.map_values(|g: Seq<u8>| seg_call_vals(g))
                },
                Err(e) => parse_multicall_err(args@, e),
            }
        }),
{
    let segs = split_bytes(args, ASCII_HYPHEN);
    let ghost gsegs = split_seq(args@, ASCII_HYPHEN);
    let n = segs.len();
    let mut calls: Vec<Call> = Vec::new();
    let mut idx: usize = 0;
    proof {
        assert(call_vals_seq(calls@) =~= gsegs.subrange(0, 0).map_values(
            |g: Seq<u8>| seg_call_vals(g),
        ));
    }
    while idx < n
        invariant
            0 <= idx <= n,
            n == gsegs.len(),
            seqs_of(segs@) == gsegs,
            calls@.len() == idx,
            forall|k: int| 0 <= k < idx ==> call_seg_ok(#[trigger] gsegs[k]),
            forall|k: int| 0 <= k < calls@.len() ==> (#[trigger] calls@[k]).wf(),
            call_vals_seq(calls@) == gsegs.subrange(0, idx as int).map_values(
                |g: Seq<u8>| seg_call_vals(g),
            ),
        decreases n - idx,
    {
        let toks = tokenize(segs[idx].as_slice());
        let ghost gtoks = tokens_of(gsegs[idx as int]);
        let m = toks.len();
        proof {
            assert(seqs_of(segs@)[idx as int] == segs@[idx as int]@);
            assert(gtoks == seqs_of(toks@));
            assert forall|k: int| 0 <= k < toks@.len() implies gtoks[k] == (#[trigger] toks@[k])@ by {
                assert(seqs_of(toks@)[k] == toks@[k]@);
            }
        }
        if m == 0 {
            return Err(MulticallError::MissingField(CallField::To, idx + 1));
        }
        if m == 1 {
            return Err(MulticallError::MissingField(CallField::Selector, idx + 1));
        }
        let to = match parse_felt(toks[0].as_slice()) {
            Ok(f) => f,
            Err(e) => {
                return Err(MulticallError::InvalidCalldata(idx + 1, e));
            },
        };
        let selector = match selector_from_bytes(toks[1].as_slice()) {
            Some(f) => f,
            None => {
                return Err(MulticallError::SelectorError(idx + 1));
            },
        };
        let mut calldata: Vec<Felt> = Vec::new();
        let mut j: usize = 2;
        proof {
            assert(felt_vals(calldata@) =~= seg_calldata_vals(gtoks, 2));
        }
        while j < m
            invariant
                2 <= j <= m,
                m == gtoks.len(),
                seqs_of(toks@) == gtoks,
                forall|j2: int| 2 <= j2 < j ==> token_list_good(#[trigger] gtoks[j2]),
                forall|k: int| 0 <= k < calldata@.len() ==> (#[trigger] calldata@[k]).wf(),
                felt_vals(calldata@) == seg_calldata_vals(gtoks, j as int),
            decreases m - j,
        {
            let pieces = split_bytes(toks[j].as_slice(), ASCII_COMMA);
            let ghost gpieces = calldata_pieces(gtoks[j as int]);
            let pn = pieces.len();
            proof {
                assert(gpieces == seqs_of(pieces@));
                assert forall|q: int| 0 <= q < pieces@.len() implies gpieces[q] == (
                #[trigger] pieces@[q])@ by {
                    assert(seqs_of(pieces@)[q] == pieces@[q]@);
                }
                assert(gpieces.subrange(0, 0).map_values(|piece: Seq<u8>| token_val(piece))
                    =~= Seq::<nat>::empty());
            }
            let mut q: usize = 0;
            while q < pn
                invariant
                    0 <= q <= pn,
                    pn == gpieces.len(),
                    seqs_of(pieces@) == gpieces,
                    2 <= j < m,
                    gpieces == calldata_pieces(gtoks[j as int]),
                    forall|q2: int| 0 <= q2 < q ==> felt_token_good(#[trigger] gpieces[q2]),
                    forall|k: int| 0 <= k < calldata@.len() ==> (#[trigger] calldata@[k]).wf(),
                    felt_vals(calldata@) == seg_calldata_vals(gtoks, j as int)
                        + gpieces.subrange(0, q as int).map_values(
                        |piece: Seq<u8>| token_val(piece),
                    ),
                decreases pn - q,
            {
                let f = match parse_felt(pieces[q].as_slice()) {
                    Ok(f) => f,
                    Err(e) => {
                        return Err(MulticallError::InvalidCalldata(idx + 1, e));
                    },
                };
                let ghost oldcd = calldata@;
                calldata.push(f);
                proof {
                    assert(felt_vals(calldata@) =~= felt_vals(oldcd).push(f.val()));
                    assert(gpieces.subrange(0, q as int + 1).drop_last() =~= gpieces.subrange(
                        0,
                        q as int,
                    ));
                    assert(gpieces.subrange(0, q as int + 1).map_values(
                        |piece: Seq<u8>| token_val(piece),
                    ) =~= gpieces.subrange(0, q as int).map_values(
                        |piece: Seq<u8>| token_val(piece),
                    ).push(token_val(gpieces[q as int])));
                    assert(felt_vals(calldata@) =~= seg_calldata_vals(gtoks, j as int)
                        + gpieces.subrange(0, q as int + 1).map_values(
                        |piece: Seq<u8>| token_val(piece),
                    ));
                }
                q = q + 1;
            }
            proof {
                assert(gpieces.subrange(0, pn as int) =~= gpieces);
                assert(token_list_good(gtoks[j as int]));
                assert(token_list_vals(gtoks[j as int]) == gpieces.map_values(
                    |piece: Seq<u8>| token_val(piece),
                ));
                assert(seg_calldata_vals(gtoks, j as int + 1) == seg_calldata_vals(
                    gtoks,
                    j as int,
                ) + token_list_vals(gtoks[j as int]));
            }
            j = j + 1;
        }
        let ghost oldcalls = calls@;
        let c = Call { to, selector, calldata };
        proof {
            assert(call_seg_ok(gsegs[idx as int]));
            assert(c.vals() == seg_call_vals(gsegs[idx as int]));
        }
        calls.push(c);
        proof {
            assert(call_vals_seq(calls@) =~= call_vals_seq(oldcalls).push(c.vals()));
            assert(gsegs.subrange(0, idx as int + 1).drop_last() =~= gsegs.subrange(
                0,
                idx as int,
            ));
            assert(gsegs.subrange(0, idx as int + 1).map_values(|g: Seq<u8>| seg_call_vals(g))
                =~= gsegs.subrange(0, idx as int).map_values(
                |g: Seq<u8>| seg_call_vals(g),
            ).push(seg_call_vals(gsegs[idx as int])));
        }
        idx = idx + 1;
    }
    proof {
        assert(gsegs.subrange(0, n as int) =~= gsegs);
    }
    Ok(calls)
}

// ---------------------------------------------------------------------------
// Encoding
// ---------------------------------------------------------------------------

/// The total calldata length of the first `k` calls.
pub open spec fn data_len_prefix(cs: Seq<(nat, nat, Seq<nat>)>, k: int) -> nat
    decreases k,
{
    if k <= 0 {
        0
    } else {
        data_len_prefix(cs, k - 1) + cs[k - 1].2.len()
    }
}

/// The four header entries of each of the first `k` calls: target,
/// selector, running data offset, and data length.
pub open spec fn header_prefix(cs: Seq<(nat, nat, Seq<nat>)>, k: int) -> Seq<nat>
    decreases k,
{
    if k <= 0 {
        Seq::empty()
    } else {
        header_prefix(cs, k - 1) + seq![
            cs[k - 1].0,
            cs[k - 1].1,
            data_len_prefix(cs, k - 1),
            cs[k - 1].2.len() as nat,
        ]
    }
}

/// The calldata of the first `k` calls, in call order.
pub open spec fn concat_prefix(cs: Seq<(nat, nat, Seq<nat>)>, k: int) -> Seq<nat>
    decreases k,
{
    if k <= 0 {
        Seq::empty()
    } else {
        concat_prefix(cs, k - 1) + cs[k - 1].2
    }
}

/// The flat execute-calldata layout: the call count, four header entries
/// per call, the total calldata length, then every call's calldata in
/// order.
pub open spec fn multicall_vals(cs: Seq<(nat, nat, Seq<nat>)>) -> Seq<nat> {
    seq![cs.len() as nat] + header_prefix(cs, cs.len() as int) + seq![
        data_len_prefix(cs, cs.len() as int),
    ] + concat_prefix(cs, cs.len() as int)
}

/// Flattens a batch of calls into the execute-calldata array.
#[verifier::loop_isolation(false)]
pub fn generate_calldata_for_multicall_account(calls: &Vec<Call>) -> (r: Vec<Felt>)
    requires
        forall|k: int| 0 <= k < calls@.len() ==> (#[trigger] calls@[k]).wf(),
    ensures
        forall|k: int| 0 <= k < r@.len() ==> (#[trigger] r@[k]).wf(),
        felt_vals(r@) == multicall_vals(call_vals_seq(calls@)),
{
    let ghost cs = call_vals_seq(calls@);
    let n = calls.len();
    let mut header: Vec<Felt> = Vec::new();
    let mut concat: Vec<Felt> = Vec::new();
    header.push(Felt::from_u64(n as u64));
    proof {
        assert(felt_vals(header@) =~= seq![cs.len() as nat] + header_prefix(cs, 0));
        assert(felt_vals(concat@) =~= concat_prefix(cs, 0));
    }
    let mut idx: usize = 0;
    while idx < n
        invariant
            0 <= idx <= n,
            n == calls@.len(),
            cs == call_vals_seq(calls@),
            forall|k: int| 0 <= k < header@.len() ==> (#[trigger] header@[k]).wf(),
            forall|k: int| 0 <= k < concat@.len() ==> (#[trigger] concat@[k]).wf(),
            felt_vals(header@) == seq![cs.len() as nat] + header_prefix(cs, idx as int),
            felt_vals(concat@) == concat_prefix(cs, idx as int),
            concat@.len() == data_len_prefix(cs, idx as int),
        decreases n - idx,
    {
        let c = &calls[idx];
        let ghost oldh = header@;
        header.push(c.to.duplicate());
        header.push(c.selector.duplicate());
        header.push(Felt::from_u64(concat.len() as u64));
        header.push(Felt::from_u64(c.calldata.len() as u64));
        proof {
            assert(felt_vals(header@) =~= felt_vals(oldh) + seq![
                cs[idx as int].0,
                cs[idx as int].1,
                data_len_prefix(cs, idx as int),
                cs[idx as int].2.len() as nat,
            ]);
            assert(felt_vals(header@) =~= seq![cs.len() as nat] + header_prefix(
                cs,
                idx as int + 1,
            ));
        }
        let mut j: usize = 0;
        let m = c.calldata.len();
        proof {
            assert(cs[idx as int].2 =~= felt_vals(c.calldata@));
            assert(felt_vals(c.calldata@).subrange(0, 0) =~= Seq::<nat>::empty());
            assert(felt_vals(concat@) =~= concat_prefix(cs, idx as int) + felt_vals(
                c.calldata@,
            ).subrange(0, 0));
        }
        while j < m
            invariant
                0 <= j <= m,
                0 <= idx < n,
                n == calls@.len(),
                cs == call_vals_seq(calls@),
                c == &calls@[idx as int],
                m == c.calldata@.len(),
                forall|k: int| 0 <= k < concat@.len() ==> (#[trigger] concat@[k]).wf(),
                felt_vals(concat@) == concat_prefix(cs, idx as int) + felt_vals(
                    c.calldata@,
                ).subrange(0, j as int),
            decreases m - j,
        {
            let ghost oldc = concat@;
            concat.push(c.calldata[j].duplicate());
            proof {
                assert(felt_vals(concat@) =~= felt_vals(oldc).push(c.calldata@[j as int].val()));
                assert(felt_vals(c.calldata@).subrange(0, j as int + 1) =~= felt_vals(
                    c.calldata@,
                ).subrange(0, j as int).push(c.calldata@[j as int].val()));
                assert(felt_vals(concat@) =~= concat_prefix(cs, idx as int) + felt_vals(
                    c.calldata@,
                ).subrange(0, j as int + 1));
            }
            j = j + 1;
        }
        proof {
            assert(felt_vals(c.calldata@).subrange(0, m as int) =~= felt_vals(c.calldata@));
            assert(felt_vals(concat@) =~= concat_prefix(cs, idx as int + 1));
        }
        idx = idx + 1;
    }
    let ghost hfinal = header@;
    header.push(Felt::from_u64(concat.len() as u64));
    proof {
        assert(felt_vals(header@) =~= felt_vals(hfinal).push(data_len_prefix(cs, n as int)));
    }
    let mut t: usize = 0;
    let cl = concat.len();
    let ghost hdr2 = felt_vals(header@);
    while t < cl
        invariant
            0 <= t <= cl,
            cl == concat@.len(),
            forall|k: int| 0 <= k < concat@.len() ==> (#[trigger] concat@[k]).wf(),
            forall|k: int| 0 <= k < header@.len() ==> (#[trigger] header@[k]).wf(),
            felt_vals(header@) == hdr2 + felt_vals(concat@).subrange(0, t as int),
        decreases cl - t,
    {
        let ghost oldh2 = header@;
        header.push(concat[t].duplicate());
        proof {
            assert(felt_vals(header@) =~= felt_vals(oldh2).push(concat@[t as int].val()));
            assert(felt_vals(concat@).subrange(0, t as int + 1) =~= felt_vals(
                concat@,
            ).subrange(0, t as int).push(concat@[t as int].val()));
        }
        t = t + 1;
    }
    proof {
        assert(felt_vals(concat@).subrange(0, cl as int) =~= felt_vals(concat@));
        assert(felt_vals(header@) =~= multicall_vals(cs));
    }
    header
}

/// Parses a multicall description and flattens it into execute calldata.
pub fn generate_multicall_calldata(args: &[u8]) -> (r: Result<Vec<Felt>, MulticallError>)
    ensures
        ({
            let segs = split_seq(args@, ASCII_HYPHEN);
            match r {
                Ok(out) => {
                    &&& forall|k: int| 0 <= k < segs.len() ==> call_seg_ok(#[trigger] segs[k])
                    &&& forall|k: int| 0 <= k < out@.len() ==> (#[trigger] out@[k]).wf()
                    &&& felt_vals(out@) == multicall_vals(
                        segs.map_values(|g: Seq<u8>| seg_call_vals(g)),
                    )
                },
                Err(e) => parse_multicall_err(args@, e),
            }
        }),
{
    let calls = match parse_multicall(args) {
        Ok(c) => c,
        Err(e) => {
            return Err(e);
        },
    };
    Ok(generate_calldata_for_multicall_account(&calls))
}

/// The error cases of `parse_multicall`, named so that callers can restate
/// them.
pub open spec fn parse_multicall_err(args: Seq<u8>, e: MulticallError) -> bool {
    let segs = split_seq(args, ASCII_HYPHEN);
    match e {
        MulticallError::MissingField(CallField::To, i) => {
            &&& 1 <= i <= segs.len()
            &&& tokens_of(segs[i - 1]).len() == 0
            &&& forall|k: int| 0 <= k < i - 1 ==> call_seg_ok(#[trigger] segs[k])
        },
        MulticallError::MissingField(CallField::Selector, i) => {
            &&& 1 <= i <= segs.len()
            &&& tokens_of(segs[i - 1]).len() == 1
            &&& forall|k: int| 0 <= k < i - 1 ==> call_seg_ok(#[trigger] segs[k])
        },
        MulticallError::InvalidCalldata(i, pe) => {
            let toks = tokens_of(segs[i - 1]);
            &&& 1 <= i <= segs.len()
            &&& forall|k: int| 0 <= k < i - 1 ==> call_seg_ok(#[trigger] segs[k])
            &&& toks.len() >= 2
            &&& {
                ||| (!felt_token_good(toks[0]) && pe == token_err(toks[0]))
                ||| (felt_token_good(toks[0]) && ascii_only(toks[1]) && exists|j: int, q: int|
                    2 <= j < toks.len() && 0 <= q < calldata_pieces(toks[j]).len()
                        && !felt_token_good(#[trigger] calldata_pieces(toks[j])[q]) && pe
                        == token_err(calldata_pieces(toks[j])[q]) && (forall|j2: int|
                        2 <= j2 < j ==> token_list_good(#[trigger] toks[j2])) && (forall|q2: int|
                        0 <= q2 < q ==> felt_token_good(
                            #[trigger] calldata_pieces(toks[j])[q2],
                        )))
            }
        },
        MulticallError::SelectorError(i) => {
            let toks = tokens_of(segs[i - 1]);
            &&& 1 <= i <= segs.len()
            &&& forall|k: int| 0 <= k < i - 1 ==> call_seg_ok(#[trigger] segs[k])
            &&& toks.len() >= 2
            &&& felt_token_good(toks[0])
            &&& !ascii_only(toks[1])
        },
    }
}

} // verus!
