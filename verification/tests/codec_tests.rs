use probe::codec::{parse_decimal, parse_felt, parse_hex, FeltParseError};
use probe::felt::{felt_max, Felt};
use probe::shortstring::{decode, encode, ShortStringError};
use probe::u256::split;
use probe::SimpleProbe;


const PRIME_DEC: &str =
    "3618502788666131213697322783095070105623107215331596699973092056135872020481";
const PRIME_MINUS_ONE_DEC: &str =
    "3618502788666131213697322783095070105623107215331596699973092056135872020480";
const HALF_PRIME_DEC: &str =
    "1809251394333065606848661391547535052811553607665798349986546028067936010240";

#[test]
fn to_hex_and_to_dec_exact() {
    let f = Felt::from_u64(255);
    assert_eq!(SimpleProbe::to_hex(&f), "0xff");
    assert_eq!(SimpleProbe::to_dec(&f), "255");

    let z = Felt::zero();
    assert_eq!(SimpleProbe::to_hex(&z), "0x0");
    assert_eq!(SimpleProbe::to_dec(&z), "0");

    let big = Felt::from_u64(0x123456789abcdef0);
    assert_eq!(SimpleProbe::to_hex(&big), "0x123456789abcdef0");
    assert_eq!(SimpleProbe::to_dec(&big), "1311768467463790320");
}

#[test]
fn hex_round_trip() {
    for s in ["0x0", "0x1", "0xff", "0x123456789", "0x7fffffffffffffff"] {
        let f = parse_hex(s.as_bytes()).unwrap();
        assert_eq!(SimpleProbe::to_hex(&f), s);
    }
    // uppercase digits and prefix parse, and reformat in lowercase
    let f = parse_hex("0XABCDEF".as_bytes()).unwrap();
    assert_eq!(SimpleProbe::to_hex(&f), "0xabcdef");
}

#[test]
fn dec_round_trip() {
    for s in ["0", "1", "255", "123456789", PRIME_MINUS_ONE_DEC] {
        let f = parse_decimal(s.as_bytes()).unwrap();
        assert_eq!(SimpleProbe::to_dec(&f), s);
    }
}

#[test]
fn parse_rejections() {
    // value at or above the prime is out of range
    let wide = format!("0x{}", "f".repeat(64));
    assert_eq!(
        parse_hex(wide.as_bytes()).unwrap_err(),
        FeltParseError::OutOfRange
    );
    assert_eq!(
        parse_decimal(PRIME_DEC.as_bytes()).unwrap_err(),
        FeltParseError::OutOfRange
    );
    // the largest value parses
    assert!(parse_decimal(PRIME_MINUS_ONE_DEC.as_bytes()).is_ok());
    // bad alphabets
    assert_eq!(
        parse_hex("0xgg".as_bytes()).unwrap_err(),
        FeltParseError::InvalidFormat
    );
    assert_eq!(
        parse_decimal("12a".as_bytes()).unwrap_err(),
        FeltParseError::InvalidFormat
    );
    assert_eq!(
        parse_hex("".as_bytes()).unwrap_err(),
        FeltParseError::InvalidFormat
    );
    assert_eq!(
        parse_hex("0x".as_bytes()).unwrap_err(),
        FeltParseError::InvalidFormat
    );
    // a bare decimal token routes through the decimal parser
    let ten = parse_felt("10".as_bytes()).unwrap();
    assert_eq!(SimpleProbe::to_dec(&ten), "10");
    let sixteen = parse_felt("0x10".as_bytes()).unwrap();
    assert_eq!(SimpleProbe::to_dec(&sixteen), "16");
}

#[test]
fn felt_constants() {
    assert_eq!(SimpleProbe::max_felt(), PRIME_MINUS_ONE_DEC);
    assert_eq!(SimpleProbe::max_signed_felt(), HALF_PRIME_DEC);
    assert_eq!(SimpleProbe::min_signed_felt(), format!("-{HALF_PRIME_DEC}"));
    let m = felt_max();
    assert_eq!(
        SimpleProbe::to_hex(&m),
        "0x800000000000011000000000000000000000000000000000000000000000000"
    );
}

#[test]
fn short_string_round_trip() {
    for s in ["a", "hello", "Hello world!", "0123456789012345678901234567890"] {
        let f = encode(s.as_bytes()).unwrap();
        let back = decode(&f).unwrap();
        assert_eq!(back, s.as_bytes());
        assert_eq!(SimpleProbe::from_utf8(&f).unwrap(), s);
    }
}

#[test]
fn short_string_matches_starknet() {
    // the packing must agree with the outside library's own encoder
    for s in ["hello", "probe", "a"] {
        let ours = SimpleProbe::str_to_felt(s).unwrap();
        let theirs = starknet::core::utils::cairo_short_string_to_felt(s).unwrap();
        assert_eq!(ours, format!("{theirs:#x}"));
    }
    assert_eq!(SimpleProbe::str_to_felt("").unwrap(), "0x0");
}

#[test]
fn short_string_rejections() {
    // 32 bytes is one too many
    let long = "01234567890123456789012345678901";
    assert_eq!(
        encode(long.as_bytes()).unwrap_err(),
        ShortStringError::InvalidAscii
    );
    // an embedded zero byte is refused
    assert_eq!(
        encode(b"a\0b").unwrap_err(),
        ShortStringError::InvalidAscii
    );
    // a byte beyond the 7-bit range is refused
    assert_eq!(
        SimpleProbe::str_to_felt("caf\u{e9}").unwrap_err(),
        ShortStringError::InvalidAscii
    );
    // decoding a felt with a nonzero top byte fails
    let top = parse_hex(
        "0x800000000000011000000000000000000000000000000000000000000000000".as_bytes(),
    )
    .unwrap();
    assert_eq!(
        SimpleProbe::from_utf8(&top).unwrap_err(),
        ShortStringError::InvalidAscii
    );
}

#[test]
fn split_u256_exact() {
    let v = format!(
        "0x{}{}",
        "0000000000000000000000000000000a",
        "000000000000000000000000000000ff"
    );
    let (high, low) = SimpleProbe::split_u256(&v).unwrap();
    assert_eq!(high, "0xa");
    assert_eq!(low, "0xff");

    // a short value sits entirely in the low half
    let (high, low) = SimpleProbe::split_u256("0xff").unwrap();
    assert_eq!(high, "0x0");
    assert_eq!(low, "0xff");

    // without the prefix
    let (high, low) = SimpleProbe::split_u256("ff").unwrap();
    assert_eq!(high, "0x0");
    assert_eq!(low, "0xff");
}

#[test]
fn split_u256_round_trip() {
    let v = "0xdeadbeefcafebabe1234567890abcdef00112233445566778899aabbccddeeff";
    let (high_s, low_s) = SimpleProbe::split_u256(v).unwrap();
    let high = parse_hex(high_s.as_bytes()).unwrap();
    let low = parse_hex(low_s.as_bytes()).unwrap();
    let joined = SimpleProbe::join_u256(&low, &high).unwrap();
    assert_eq!(joined, v);
}

#[test]
fn split_u256_rejections() {
    // 65 hex digits need more than 256 bits
    let wide = format!("0x{}", "1".repeat(65));
    let err = split(wide.as_bytes()).unwrap_err();
    assert_eq!(err, FeltParseError::OutOfRange);
    // a bad digit is a format error
    assert_eq!(
        split("0x12zz".as_bytes()).unwrap_err(),
        FeltParseError::InvalidFormat
    );
}

#[test]
fn join_u256_rejections() {
    let high = Felt::from_u64(1);
    let too_big = parse_hex(
        "0x100000000000000000000000000000000".as_bytes(),
    )
    .unwrap();
    assert_eq!(
        SimpleProbe::join_u256(&too_big, &high).unwrap_err(),
        FeltParseError::OutOfRange
    );
}

#[test]
fn keccak_matches_starknet() {
    // raw text input
    let ours = SimpleProbe::keccak("hello").unwrap();
    let theirs = starknet::core::utils::starknet_keccak(b"hello");
    assert_eq!(ours, format!("{theirs:#x}"));

    // hex data input
    let ours = SimpleProbe::keccak("0xdead").unwrap();
    let theirs = starknet::core::utils::starknet_keccak(&[0xde, 0xad]);
    assert_eq!(ours, format!("{theirs:#x}"));

    // odd digit count cannot form bytes
    assert_eq!(
        SimpleProbe::keccak("0xde1").unwrap_err(),
        FeltParseError::InvalidFormat
    );
}

#[test]
fn pedersen_matches_starknet() {
    let ours = SimpleProbe::pedersen("0x1", "0x2").unwrap();
    let theirs = starknet::core::crypto::pedersen_hash(
        &starknet::core::types::Felt::ONE,
        &starknet::core::types::Felt::TWO,
    );
    assert_eq!(ours, format!("{theirs:#x}"));

    // a short-string argument packs before hashing
    let ours = SimpleProbe::pedersen("hello", "0x2").unwrap();
    let packed = starknet::core::utils::cairo_short_string_to_felt("hello").unwrap();
    let theirs = starknet::core::crypto::pedersen_hash(&packed, &starknet::core::types::Felt::TWO);
    assert_eq!(ours, format!("{theirs:#x}"));
}

#[test]
fn pedersen_rejections() {
    // a bad hex argument is a parse error
    let err = SimpleProbe::pedersen("0xzz", "0x2").unwrap_err();
    assert_eq!(
        err,
        probe::probe::HashArgError::Parse(FeltParseError::InvalidFormat)
    );
    // an unprefixed argument too long for a short string
    let err = SimpleProbe::pedersen("0x1", "01234567890123456789012345678901").unwrap_err();
    assert_eq!(
        err,
        probe::probe::HashArgError::Ascii(ShortStringError::InvalidAscii)
    );
}

#[test]
fn keccak_prefix_is_case_sensitive() {
    // only the exact lowercase marker names hex data; anything else is text
    let ours = SimpleProbe::keccak("0Xdead").unwrap();
    let theirs = starknet::core::utils::starknet_keccak(b"0Xdead");
    assert_eq!(ours, format!("{theirs:#x}"));
}

#[test]
fn format_then_parse_round_trip() {
    for n in [0u64, 1, 255, 0x123456789abcdef0] {
        let f = Felt::from_u64(n);
        let h = SimpleProbe::to_hex(&f);
        let d = SimpleProbe::to_dec(&f);
        let fh = parse_hex(h.as_bytes()).unwrap();
        let fd = parse_decimal(d.as_bytes()).unwrap();
        assert_eq!(SimpleProbe::to_dec(&fh), d);
        assert_eq!(SimpleProbe::to_hex(&fd), h);
    }
}

#[test]
fn str_to_felt_then_from_utf8() {
    let hex = SimpleProbe::str_to_felt("hello").unwrap();
    let f = parse_hex(hex.as_bytes()).unwrap();
    assert_eq!(SimpleProbe::from_utf8(&f).unwrap(), "hello");
}
