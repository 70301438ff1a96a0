use vstd::prelude::*;
use vstd::string::StringSliceAdditionalSpecFns;
use vstd::utf8::is_ascii_chars;

use crate::codec::all_hex_digits;
use crate::codec::canonical_dec;
use crate::codec::canonical_hex;
use crate::codec::dec_val;
use crate::codec::format_decimal;
use crate::codec::format_hex;
use crate::codec::dec_shape_ok;
use crate::codec::has_hex_prefix;
use crate::codec::hex_digits_of;
use crate::codec::hex_digit_val;
use crate::codec::hex_digit_value;
use crate::codec::hex_shape_ok;
use crate::codec::hex_val;
use crate::codec::is_dec_digit;
use crate::codec::is_lower_hex_digit;
use crate::codec::parse_hex;
use crate::codec::FeltParseError;
use crate::codec::ASCII_0;
use crate::codec::ASCII_LX;
use crate::felt::div_small;
use crate::felt::felt_max;
use crate::felt::Felt;
use crate::field_prime;
use crate::hashing::ascii_only;
use crate::hashing::keccak_call;
use crate::hashing::keccak_hash;
use crate::hashing::pedersen_call;
use crate::hashing::pedersen_hash_of;
use crate::multicall::felt_vals;
use crate::multicall::multicall_vals;
use crate::multicall::parse_multicall_err;
use crate::multicall::seg_call_vals;
use crate::multicall::call_seg_ok;
use crate::multicall::split_seq;
use crate::multicall::MulticallError;
use crate::multicall::ASCII_HYPHEN;
use crate::num::be_val;
use crate::shortstring::decode;
use crate::shortstring::encode;
use crate::shortstring::short_string_ok;
use crate::shortstring::strip_zeros;
use crate::shortstring::ShortStringError;
use crate::u256::join;
use crate::u256::split;
use crate::u256::u256_digits_of;

verus! {

/// Raw wallet credentials handed in from the command layer.
pub struct WalletOptions {
    pub private_key: Option<String>,
    pub account_address: Option<String>,
}

/// The byte content of ASCII text.
pub open spec fn bytes_of(s: Seq<char>) -> Seq<u8> {
    s.map_values(|c: char| c as u8)
}

/// Relies on `String::from_utf8`: ASCII bytes decode to exactly those
/// characters, one ASCII character per byte.
#[verifier::external_body]
fn ascii_to_string(b: Vec<u8>) -> (r: String)
    requires
        ascii_only(b@),
    ensures
        r@.len() == b@.len(),
        forall|i: int| 0 <= i < r@.len() ==> (#[trigger] r@[i]) as u8 == b@[i],
        is_ascii_chars(r@),
{
    String::from_utf8(b).unwrap()
}

/// Packages ASCII bytes as a string whose byte content is those bytes.
fn ascii_string(b: Vec<u8>) -> (r: String)
    requires
        ascii_only(b@),
    ensures
        bytes_of(r@) == b@,
        is_ascii_chars(r@),
{
    let r = ascii_to_string(b);
    proof {
        assert(bytes_of(r@) =~= b@);
    }
    r
}

/// Hex output bytes are ASCII.
proof fn lemma_canonical_hex_ascii(s: Seq<u8>)
    requires
        canonical_hex(s),
    ensures
        ascii_only(s),
{
    assert forall|i: int| 0 <= i < s.len() implies s[i] < 128 by {
        if i >= 2 {
            assert(is_lower_hex_digit(s[i]));
        }
    }
}

/// Decimal output bytes are ASCII.
proof fn lemma_canonical_dec_ascii(s: Seq<u8>)
    requires
        canonical_dec(s),
    ensures
        ascii_only(s),
{
    assert forall|i: int| 0 <= i < s.len() implies s[i] < 128 by {
        assert(is_dec_digit(s[i]));
    }
}

/// The stateless conversion commands.
pub struct SimpleProbe;

impl SimpleProbe {
    /// The canonical lowercase hex form of a field element.
    pub fn to_hex(dec: &Felt) -> (r: String)
        requires
            dec.wf(),
        ensures
            is_ascii_chars(r@),
            canonical_hex(bytes_of(r@)),
            hex_val(bytes_of(r@).skip(2)) == dec.val(),
    {
        let bytes = format_hex(dec);
        proof {
            lemma_canonical_hex_ascii(bytes@);
        }
        ascii_string(bytes)
    }

    /// The canonical decimal form of a field element.
    pub fn to_dec(hex: &Felt) -> (r: String)
        requires
            hex.wf(),
        ensures
            is_ascii_chars(r@),
            canonical_dec(bytes_of(r@)),
            dec_val(bytes_of(r@)) == hex.val(),
    {
        let bytes = format_decimal(hex);
        proof {
            lemma_canonical_dec_ascii(bytes@);
        }
        ascii_string(bytes)
    }

    /// The largest field element, in decimal.
    pub fn max_felt() -> (r: String)
        ensures
            is_ascii_chars(r@),
            canonical_dec(bytes_of(r@)),
            dec_val(bytes_of(r@)) == field_prime() - 1,
    {
        let m = felt_max();
        Self::to_dec(&m)
    }

    /// The largest signed field element, in decimal: half the prime,
    /// rounded down.
    pub fn max_signed_felt() -> (r: String)
        ensures
            is_ascii_chars(r@),
            canonical_dec(bytes_of(r@)),
            dec_val(bytes_of(r@)) == (field_prime() - 1) / 2,
    {
        let digits = half_prime_digits();
        proof {
            lemma_canonical_dec_ascii(digits@);
        }
        ascii_string(digits)
    }

    /// The smallest signed field element, in decimal: the negated half of
    /// the prime, written with a leading minus sign.
    pub fn min_signed_felt() -> (r: String)
        ensures
            is_ascii_chars(r@),
            bytes_of(r@).len() >= 2,
            bytes_of(r@)[0] == ASCII_HYPHEN,
            canonical_dec(bytes_of(r@).skip(1)),
            dec_val(bytes_of(r@).skip(1)) == (field_prime() - 1) / 2,
    {
        let db = half_prime_digits();
        let mut out: Vec<u8> = Vec::new();
        out.push(ASCII_HYPHEN);
        let mut i: usize = 0;
        let n = db.len();
        while i < n
            invariant
                0 <= i <= n,
                n == db@.len(),
                out@ =~= seq![ASCII_HYPHEN] + db@.subrange(0, i as int),
            decreases n - i,
        {
            out.push(db[i]);
            proof {
                assert(out@ =~= seq![ASCII_HYPHEN] + db@.subrange(0, i as int + 1));
            }
            i = i + 1;
        }
        proof {
            assert(out@ =~= seq![ASCII_HYPHEN] + db@);
            assert(ascii_only(out@)) by {
                lemma_canonical_dec_ascii(db@);
                assert(forall|j: int| 0 <= j < out@.len() ==> out@[j] < 128);
            }
        }
        let r = ascii_string(out);
        proof {
            assert(bytes_of(r@).skip(1) =~= db@);
        }
        r
    }

    /// Packs a short ASCII string into a felt, shown as canonical hex.
    pub fn str_to_felt(short_str: &str) -> (r: Result<String, ShortStringError>)
        ensures
            match r {
                Ok(out) => short_string_ok(short_str.spec_bytes()) && is_ascii_chars(out@)
                    && canonical_hex(bytes_of(out@)) && hex_val(bytes_of(out@).skip(2))
                    == be_val(short_str.spec_bytes()),
                Err(ShortStringError::InvalidAscii) => !short_string_ok(
                    short_str.spec_bytes(),
                ),
            },
    {
        let f = match encode(short_str.as_bytes()) {
            Ok(f) => f,
            Err(e) => {
                return Err(e);
            },
        };
        Ok(Self::to_hex(&f))
    }

    /// Unpacks a felt into the short ASCII string it encodes.
    pub fn from_utf8(felt: &Felt) -> (r: Result<String, ShortStringError>)
        requires
            felt.wf(),
        ensures
            match r {
                Ok(out) => short_string_ok(strip_zeros(felt.repr())) && is_ascii_chars(out@)
                    && bytes_of(out@) == strip_zeros(felt.repr()),
                Err(ShortStringError::InvalidAscii) => !short_string_ok(
                    strip_zeros(felt.repr()),
                ),
            },
    {
        let bytes = match decode(felt) {
            Ok(b) => b,
            Err(e) => {
                return Err(e);
            },
        };
        proof {
            assert(ascii_only(bytes@));
        }
        Ok(ascii_string(bytes))
    }

    /// Hashes either raw text or `0x`-prefixed hex data with the StarkNet
    /// Keccak, showing the digest as canonical hex.
    pub fn keccak(data: &str) -> (r: Result<String, FeltParseError>)
        ensures
            ({
                let d = data.spec_bytes();
                match r {
                    Ok(out) => {
                        &&& is_ascii_chars(out@)
                        &&& canonical_hex(bytes_of(out@))
                        &&& if has_keccak_hex_prefix(d) {
                            hex_pairs_ok(d.skip(2)) && hex_val(bytes_of(out@).skip(2))
                                == keccak_hash(hex_decoded(d.skip(2)))
                        } else {
                            hex_val(bytes_of(out@).skip(2)) == keccak_hash(d)
                        }
                    },
                    Err(FeltParseError::InvalidFormat) => has_keccak_hex_prefix(d)
                        && !hex_pairs_ok(d.skip(2)),
                    Err(FeltParseError::OutOfRange) => false,
                }
            }),
    {
        let b = data.as_bytes();
        let n = b.len();
        let h: Felt;
        if n >= 2 && b[0] == ASCII_0 && b[1] == ASCII_LX {
            let digits = vstd::slice::slice_subrange(b, 2, n);
            proof {
                assert(b@.subrange(2, n as int) =~= b@.skip(2));
            }
            let raw = match hex_decode(digits) {
                Ok(v) => v,
                Err(e) => {
                    return Err(e);
                },
            };
            h = keccak_call(raw.as_slice());
        } else {
            h = keccak_call(b);
        }
        let out = format_hex(&h);
        proof {
            lemma_canonical_hex_ascii(out@);
        }
        Ok(ascii_string(out))
    }

    /// Pedersen-hashes two arguments, each given as `0x` hex or as a short
    /// string, showing the result as canonical hex.
    pub fn pedersen(x: &str, y: &str) -> (r: Result<String, HashArgError>)
        ensures
            ({
                let xb = x.spec_bytes();
                let yb = y.spec_bytes();
                match r {
                    Ok(out) => {
                        &&& hash_arg_ok(xb) && hash_arg_ok(yb)
                        &&& is_ascii_chars(out@)
                        &&& canonical_hex(bytes_of(out@))
                        &&& hex_val(bytes_of(out@).skip(2)) == pedersen_hash_of(
                            hash_arg_val(xb),
                            hash_arg_val(yb),
                        )
                    },
                    Err(e) => {
                        ||| (!hash_arg_ok(xb) && e == hash_arg_err(xb))
                        ||| (hash_arg_ok(xb) && !hash_arg_ok(yb) && e == hash_arg_err(yb))
                    },
                }
            }),
    {
        let fx = match felt_from_hex_or_str(x.as_bytes()) {
            Ok(f) => f,
            Err(e) => {
                return Err(e);
            },
        };
        let fy = match felt_from_hex_or_str(y.as_bytes()) {
            Ok(f) => f,
            Err(e) => {
                return Err(e);
            },
        };
        let h = pedersen_call(&fx, &fy);
        let out = format_hex(&h);
        proof {
            lemma_canonical_hex_ascii(out@);
        }
        Ok(ascii_string(out))
    }

    /// Splits a 256-bit hex value into the canonical hex forms of its high
    /// and low 128-bit halves.
    pub fn split_u256(hex: &str) -> (r: Result<(String, String), FeltParseError>)
        ensures
            ({
                let d = u256_digits_of(hex.spec_bytes());
                match r {
                    Ok(p) => {
                        &&& d.len() <= 64 && all_hex_digits(d)
                        &&& is_ascii_chars(p.0@) && is_ascii_chars(p.1@)
                        &&& canonical_hex(bytes_of(p.0@)) && canonical_hex(bytes_of(p.1@))
                        &&& hex_val(bytes_of(p.0@).skip(2)) == hex_val(d) / crate::num::pow256(
                            16,
                        )
                        &&& hex_val(bytes_of(p.1@).skip(2)) == hex_val(d) % crate::num::pow256(
                            16,
                        )
                    },
                    Err(FeltParseError::OutOfRange) => d.len() > 64,
                    Err(FeltParseError::InvalidFormat) => d.len() <= 64 && !all_hex_digits(d),
                }
            }),
    {
        let halves = match split(hex.as_bytes()) {
            Ok(p) => p,
            Err(e) => {
                return Err(e);
            },
        };
        let high_s = Self::to_hex(&halves.0);
        let low_s = Self::to_hex(&halves.1);
        Ok((high_s, low_s))
    }

    /// Rejoins the low and high felt halves of a 256-bit value into its
    /// canonical hex form.
    pub fn join_u256(low: &Felt, high: &Felt) -> (r: Result<String, FeltParseError>)
        requires
            low.wf(),
            high.wf(),
        ensures
            match r {
                Ok(out) => {
                    &&& low.val() < crate::num::pow256(16)
                    &&& high.val() < crate::num::pow256(16)
                    &&& is_ascii_chars(out@)
                    &&& canonical_hex(bytes_of(out@))
                    &&& hex_val(bytes_of(out@).skip(2)) == high.val() * crate::num::pow256(16)
                        + low.val()
                },
                Err(FeltParseError::OutOfRange) => !(low.val() < crate::num::pow256(16)
                    && high.val() < crate::num::pow256(16)),
                Err(FeltParseError::InvalidFormat) => false,
            },
    {
        let bytes = match join(low, high) {
            Ok(b) => b,
            Err(e) => {
                return Err(e);
            },
        };
        proof {
            lemma_canonical_hex_ascii(bytes@);
        }
        Ok(ascii_string(bytes))
    }

    /// The standard storage slot address of a contract variable under the
    /// given keys.
    pub fn get_storage_index(var_name: &str, keys: &Vec<Felt>) -> (r: Result<
        Felt,
        crate::hashing::NameError,
    >)
        requires
            forall|i: int| 0 <= i < keys@.len() ==> (#[trigger] keys@[i]).wf(),
        ensures
            match r {
                Ok(f) => f.wf() && ascii_only(var_name.spec_bytes()) && f.val()
                    == crate::hashing::storage_address_of(
                    var_name.spec_bytes(),
                    felt_vals(keys@),
                ),
                Err(crate::hashing::NameError::NonAscii) => !ascii_only(
                    var_name.spec_bytes(),
                ),
            },
    {
        match crate::hashing::storage_address_call(var_name.as_bytes(), keys) {
            Some(f) => Ok(f),
            None => Err(crate::hashing::NameError::NonAscii),
        }
    }

    /// The target address of a native contract deployment, in canonical
    /// hex.
    pub fn compute_contract_address(
        caller_address: &Felt,
        salt: &Felt,
        class_hash: &Felt,
        calldata: &Vec<Felt>,
    ) -> (r: String)
        requires
            caller_address.wf(),
            salt.wf(),
            class_hash.wf(),
            forall|i: int| 0 <= i < calldata@.len() ==> (#[trigger] calldata@[i]).wf(),
        ensures
            canonical_hex(bytes_of(r@)),
            hex_val(bytes_of(r@).skip(2)) == crate::hashing::contract_address_of(
                salt.val(),
                class_hash.val(),
                felt_vals(calldata@),
                caller_address.val(),
            ),
    {
        let a = crate::hashing::contract_address_call(salt, class_hash, calldata, caller_address);
        Self::to_hex(&a)
    }

    /// Parses a multicall description and flattens it into the execute
    /// calldata array.
    pub fn generate_multicall_calldata(args: &str) -> (r: Result<Vec<Felt>, MulticallError>)
        ensures
            ({
                let segs = split_seq(args.spec_bytes(), ASCII_HYPHEN);
                match r {
                    Ok(out) => {
                        &&& forall|k: int| 0 <= k < segs.len() ==> call_seg_ok(
                            #[trigger] segs[k],
                        )
                        &&& forall|k: int| 0 <= k < out@.len() ==> (#[trigger] out@[k]).wf()
                        &&& felt_vals(out@) == multicall_vals(
                            segs.map_values(|g: Seq<u8>| seg_call_vals(g)),
                        )
                    },
                    Err(e) => parse_multicall_err(args.spec_bytes(), e),
                }
            }),
    {
        crate::multicall::generate_multicall_calldata(args.as_bytes())
    }

    /// Flattens an already-parsed batch of calls into the execute calldata
    /// array.
    pub fn generate_calldata_for_multicall_account(calls: &Vec<crate::multicall::Call>) -> (r:
        Vec<Felt>)
        requires
            forall|k: int| 0 <= k < calls@.len() ==> (#[trigger] calls@[k]).wf(),
        ensures
            forall|k: int| 0 <= k < r@.len() ==> (#[trigger] r@[k]).wf(),
            felt_vals(r@) == multicall_vals(crate::multicall::call_vals_seq(calls@)),
    {
        crate::multicall::generate_calldata_for_multicall_account(calls)
    }
}

/// The decimal digits of half the prime, rounded down.
fn half_prime_digits() -> (r: Vec<u8>)
    ensures
        canonical_dec(r@),
        dec_val(r@) == (field_prime() - 1) / 2,
{
    let m = felt_max();
    let mut half = m.to_bytes_vec();
    let rem = div_small(&mut half, 2);
    proof {
        vstd::arithmetic::div_mod::lemma_fundamental_div_mod_converse(
            (field_prime() - 1) as int,
            2,
            be_val(half@) as int,
            rem as int,
        );
        crate::felt::lemma_pow256_small();
        assert(be_val(half@) <= field_prime() - 1);
    }
    let h = Felt::from_bytes_vec(half);
    format_decimal(&h)
}

/// How a hash argument can be rejected: as a felt literal, or as a short
/// string.
#[derive(Clone, Copy, Debug, PartialEq, Eq, Structural)]
pub enum HashArgError {
    Parse(FeltParseError),
    Ascii(ShortStringError),
}

/// Whether a hash argument is acceptable: hex when `0x`-prefixed, a short
/// string otherwise.
pub open spec fn hash_arg_ok(s: Seq<u8>) -> bool {
    if has_hex_prefix(s) {
        hex_shape_ok(s) && hex_val(s.skip(2)) < field_prime()
    } else {
        short_string_ok(s)
    }
}

/// The felt value of a hash argument.
pub open spec fn hash_arg_val(s: Seq<u8>) -> nat {
    if has_hex_prefix(s) {
        hex_val(s.skip(2))
    } else {
        be_val(s)
    }
}

/// The error a bad hash argument yields.
pub open spec fn hash_arg_err(s: Seq<u8>) -> HashArgError {
    if has_hex_prefix(s) {
        if !hex_shape_ok(s) {
            HashArgError::Parse(FeltParseError::InvalidFormat)
        } else {
            HashArgError::Parse(FeltParseError::OutOfRange)
        }
    } else {
        HashArgError::Ascii(ShortStringError::InvalidAscii)
    }
}

/// Reads a hash argument: `0x`-prefixed hex parses as a felt, anything else
/// packs as a short string.
fn felt_from_hex_or_str(s: &[u8]) -> (r: Result<Felt, HashArgError>)
    ensures
        match r {
            Ok(f) => f.wf() && hash_arg_ok(s@) && f.val() == hash_arg_val(s@),
            Err(e) => !hash_arg_ok(s@) && e == hash_arg_err(s@),
        },
{
    let n = s.len();
    if n >= 2 && s[0] == ASCII_0 && (s[1] == ASCII_LX || s[1] == crate::codec::ASCII_UX) {
        match parse_hex(s) {
            Ok(f) => Ok(f),
            Err(e) => Err(HashArgError::Parse(e)),
        }
    } else {
        match encode(s) {
            Ok(f) => Ok(f),
            Err(e) => Err(HashArgError::Ascii(e)),
        }
    }
}

/// Whether keccak input names hex data: the exact lowercase `0x` marker.
pub open spec fn has_keccak_hex_prefix(s: Seq<u8>) -> bool {
    s.len() >= 2 && s[0] == ASCII_0 && s[1] == ASCII_LX
}

/// Whether a digit string decodes to whole bytes: even length, hex only.
pub open spec fn hex_pairs_ok(d: Seq<u8>) -> bool {
    d.len() % 2 == 0 && all_hex_digits(d)
}

/// The bytes a hex digit string denotes, two digits each.
pub open spec fn hex_decoded(d: Seq<u8>) -> Seq<u8> {
    Seq::new(
        (d.len() / 2) as nat,
        |i: int| (hex_digit_val(d[2 * i]) * 16 + hex_digit_val(d[2 * i + 1])) as u8,
    )
}


/// Decodes a hex digit string into bytes, two digits per byte.
#[verifier::loop_isolation(false)]
fn hex_decode(d: &[u8]) -> (r: Result<Vec<u8>, FeltParseError>)
    ensures
        match r {
            Ok(out) => hex_pairs_ok(d@) && out@ == hex_decoded(d@),
            Err(FeltParseError::InvalidFormat) => !hex_pairs_ok(d@),
            Err(FeltParseError::OutOfRange) => false,
        },
{
    let n = d.len();
    if n % 2 != 0 {
        return Err(FeltParseError::InvalidFormat);
    }
    let mut out: Vec<u8> = Vec::new();
    let mut i: usize = 0;
    while i < n
        invariant
            0 <= i <= n,
            i % 2 == 0,
            n == d@.len(),
            n % 2 == 0,
            forall|j: int| 0 <= j < i ==> crate::codec::is_hex_digit(d@[j]),
            out@ =~= hex_decoded(d@).subrange(0, i as int / 2),
        decreases n - i,
    {
        let hi = match hex_digit_value(d[i]) {
            Some(v) => v,
            None => {
                return Err(FeltParseError::InvalidFormat);
            },
        };
        let lo = match hex_digit_value(d[i + 1]) {
            Some(v) => v,
            None => {
                return Err(FeltParseError::InvalidFormat);
            },
        };
        out.push(hi * 16 + lo);
        proof {
            assert(out@ =~= hex_decoded(d@).subrange(0, i as int / 2 + 1));
        }
        i = i + 2;
    }
    proof {
        assert(out@ =~= hex_decoded(d@));
    }
    Ok(out)
}

/// For ASCII text, the UTF-8 byte view and the character-by-character byte
/// content agree.
pub proof fn lemma_ascii_spec_bytes(s: &str)
    requires
        is_ascii_chars(s@),
    ensures
        s.spec_bytes() == bytes_of(s@),
{
    vstd::utf8::is_ascii_chars_encode_utf8(s@);
    assert(s.spec_bytes() =~= bytes_of(s@));
}

/// Round trip at the string boundary, hex side: the string `to_hex` returns
/// (its ensures are this lemma's premises) is accepted by `parse_hex` and
/// `parse_felt` on its UTF-8 bytes and denotes the value it was formatted
/// from. With the parsers' contracts this gives
/// `parse_hex(to_hex(f)) == f` for every field element `f`.
pub proof fn lemma_to_hex_round_trip(v: nat, r: &str)
    requires
        v < field_prime(),
        is_ascii_chars(r@),
        canonical_hex(bytes_of(r@)),
        hex_val(bytes_of(r@).skip(2)) == v,
    ensures
        hex_shape_ok(r.spec_bytes()),
        hex_val(hex_digits_of(r.spec_bytes())) == v,
        crate::codec::token_ok(r.spec_bytes()),
        crate::codec::token_val(r.spec_bytes()) == v,
{
    lemma_ascii_spec_bytes(r);
    crate::codec::lemma_hex_round_trip(bytes_of(r@), v);
}

/// Round trip at the string boundary, decimal side: the string `to_dec`
/// returns is accepted by `parse_decimal` and `parse_felt` on its UTF-8
/// bytes and denotes the value it was formatted from. With the parsers'
/// contracts this gives `parse_decimal(to_dec(f)) == f` for every field
/// element `f`.
pub proof fn lemma_to_dec_round_trip(v: nat, r: &str)
    requires
        v < field_prime(),
        is_ascii_chars(r@),
        canonical_dec(bytes_of(r@)),
        dec_val(bytes_of(r@)) == v,
    ensures
        dec_shape_ok(r.spec_bytes()),
        dec_val(r.spec_bytes()) == v,
        !has_hex_prefix(r.spec_bytes()),
        crate::codec::token_ok(r.spec_bytes()),
        crate::codec::token_val(r.spec_bytes()) == v,
{
    lemma_ascii_spec_bytes(r);
    crate::codec::lemma_dec_round_trip(bytes_of(r@), v);
}

/// Round trip at the string boundary, short-string side: any felt whose
/// value is the packing of a valid short string (for instance one parsed
/// back from the hex that `str_to_felt` printed) is owed decoding by
/// `from_utf8`, and back to the same text. With the contracts of
/// `str_to_felt`, `parse_hex` and `from_utf8` this gives
/// `from_utf8(encode(s)) == s` for every valid short string `s`.
pub proof fn lemma_str_to_felt_round_trip(s: &str, f: Felt)
    requires
        short_string_ok(s.spec_bytes()),
        f.wf(),
        f.val() == be_val(s.spec_bytes()),
    ensures
        short_string_ok(strip_zeros(f.repr())),
        strip_zeros(f.repr()) == s.spec_bytes(),
{
    let sb = s.spec_bytes();
    let z = Seq::new((32 - sb.len()) as nat, |i: int| 0u8);
    crate::num::lemma_be_val_zero_extend(z, sb);
    crate::shortstring::lemma_short_string_round_trip(sb);
    assert((z + sb).len() == 32);
    crate::num::lemma_be_val_injective(f.repr(), z + sb);
}

} // verus!
