use probe::codec::FeltParseError;
use probe::felt::Felt;
use probe::multicall::{Call, CallField, MulticallError};
use probe::SimpleProbe;

fn hex_of(calls: &[Felt]) -> Vec<String> {
    calls.iter().map(SimpleProbe::to_hex).collect()
}

#[test]
fn parse_multicall_str() {
    let arg = "0x123456789 balanceOf 0x987654321 - 0xabc298498723 get_the_owner_of_something 0x1abdf988 0x9872349 0x19831".to_string();
    let calls = SimpleProbe::generate_multicall_calldata(&arg).unwrap();

    let expected: Vec<starknet::core::types::Felt> = vec![
        starknet::core::types::Felt::from_dec_str("2").unwrap(),
        starknet::core::types::Felt::from_hex("0x123456789").unwrap(),
        starknet::core::utils::get_selector_from_name("balanceOf").unwrap(),
        starknet::core::types::Felt::ZERO,
        starknet::core::types::Felt::ONE,
        starknet::core::types::Felt::from_hex("0xabc298498723").unwrap(),
        starknet::core::utils::get_selector_from_name("get_the_owner_of_something").unwrap(),
        starknet::core::types::Felt::ONE,
        starknet::core::types::Felt::THREE,
        starknet::core::types::Felt::from_dec_str("4").unwrap(),
        starknet::core::types::Felt::from_hex("0x987654321").unwrap(),
        starknet::core::types::Felt::from_hex("0x1abdf988").unwrap(),
        starknet::core::types::Felt::from_hex("0x9872349").unwrap(),
        starknet::core::types::Felt::from_hex("0x19831").unwrap(),
    ];

    let expected_hex: Vec<String> = expected.iter().map(|f| format!("{f:#x}")).collect();
    assert_eq!(hex_of(&calls), expected_hex);
}

#[test]
fn encode_layout_exact() {
    // one call with two arguments: count, header, total, then the data
    let calls = vec![Call {
        to: Felt::from_u64(7),
        selector: Felt::from_u64(9),
        calldata: vec![Felt::from_u64(21), Felt::from_u64(22)],
    }];
    let out = SimpleProbe::generate_calldata_for_multicall_account(&calls);
    assert_eq!(
        hex_of(&out),
        vec!["0x1", "0x7", "0x9", "0x0", "0x2", "0x2", "0x15", "0x16"]
    );
}

#[test]
fn encode_empty_batch() {
    // an empty batch encodes as a zero count and a zero total length
    let calls: Vec<Call> = vec![];
    let out = SimpleProbe::generate_calldata_for_multicall_account(&calls);
    assert_eq!(hex_of(&out), vec!["0x0", "0x0"]);
}

#[test]
fn missing_selector() {
    let err = SimpleProbe::generate_multicall_calldata("0x1 - 0x2 foo").unwrap_err();
    assert_eq!(err, MulticallError::MissingField(CallField::Selector, 1));
}

#[test]
fn missing_target() {
    // an empty call description lacks its target token
    let err = SimpleProbe::generate_multicall_calldata("").unwrap_err();
    assert_eq!(err, MulticallError::MissingField(CallField::To, 1));

    let err = SimpleProbe::generate_multicall_calldata("0x1 foo - ").unwrap_err();
    assert_eq!(err, MulticallError::MissingField(CallField::To, 2));
}

#[test]
fn invalid_target() {
    let err = SimpleProbe::generate_multicall_calldata("zz* foo").unwrap_err();
    assert_eq!(
        err,
        MulticallError::InvalidCalldata(1, FeltParseError::InvalidFormat)
    );

    let wide = format!("0x{} foo", "f".repeat(64));
    let err = SimpleProbe::generate_multicall_calldata(&wide).unwrap_err();
    assert_eq!(
        err,
        MulticallError::InvalidCalldata(1, FeltParseError::OutOfRange)
    );
}

#[test]
fn invalid_calldata_token() {
    let err = SimpleProbe::generate_multicall_calldata("0x1 foo 0x2 nope").unwrap_err();
    assert_eq!(
        err,
        MulticallError::InvalidCalldata(1, FeltParseError::InvalidFormat)
    );
}

#[test]
fn selector_not_ascii() {
    let err = SimpleProbe::generate_multicall_calldata("0x1 caf\u{e9} 0x2").unwrap_err();
    assert_eq!(err, MulticallError::SelectorError(1));
}

#[test]
fn error_names_later_call() {
    let err =
        SimpleProbe::generate_multicall_calldata("0x1 foo 0x2 - 0x3 bar xx").unwrap_err();
    assert_eq!(
        err,
        MulticallError::InvalidCalldata(2, FeltParseError::InvalidFormat)
    );
}

#[test]
fn extra_whitespace_is_tolerated() {
    let a = SimpleProbe::generate_multicall_calldata("0x1 foo 0x2 - 0x3 bar").unwrap();
    let b = SimpleProbe::generate_multicall_calldata("  0x1  foo  0x2  -  0x3  bar ")
        .unwrap();
    assert_eq!(hex_of(&a), hex_of(&b));
}

#[test]
fn selector_matches_starknet() {
    // the selector in the output is the outside library's hash, not an echo
    let calls = SimpleProbe::generate_multicall_calldata("0x1 transfer").unwrap();
    let expected = starknet::core::utils::get_selector_from_name("transfer").unwrap();
    assert_eq!(SimpleProbe::to_hex(&calls[2]), format!("{expected:#x}"));
    assert_ne!(SimpleProbe::to_hex(&calls[2]), "0x7472616e73666572");
}

#[test]
fn wallet_options_carry_values() {
    let w = probe::WalletOptions {
        private_key: Some("0x42".to_string()),
        account_address: Some("0x123".to_string()),
    };
    assert_eq!(w.account_address.as_deref(), Some("0x123"));
    assert!(w.private_key.is_some());
}

#[test]
fn storage_index_matches_starknet() {
    let keys = vec![Felt::from_u64(5)];
    let ours = SimpleProbe::get_storage_index("balances", &keys).unwrap();
    let theirs = starknet::core::utils::get_storage_var_address(
        "balances",
        &[starknet::core::types::Felt::from(5u64)],
    )
    .unwrap();
    assert_eq!(SimpleProbe::to_hex(&ours), format!("{theirs:#x}"));

    let err = SimpleProbe::get_storage_index("caf\u{e9}", &keys).unwrap_err();
    assert_eq!(err, probe::hashing::NameError::NonAscii);
}

#[test]
fn contract_address_matches_starknet() {
    let caller = Felt::from_u64(0);
    let salt = Felt::from_u64(1);
    let class_hash = Felt::from_u64(2);
    let calldata = vec![Felt::from_u64(3), Felt::from_u64(4)];
    let ours = SimpleProbe::compute_contract_address(&caller, &salt, &class_hash, &calldata);
    let theirs = starknet::core::utils::get_contract_address(
        starknet::core::types::Felt::ONE,
        starknet::core::types::Felt::TWO,
        &[
            starknet::core::types::Felt::THREE,
            starknet::core::types::Felt::from(4u64),
        ],
        starknet::core::types::Felt::ZERO,
    );
    assert_eq!(ours, format!("{theirs:#x}"));
}

#[test]
fn comma_lists_flatten() {
    // a calldata token may be a comma-separated list of felt literals
    let out = SimpleProbe::generate_multicall_calldata("0x1 foo 0x2,0x3").unwrap();
    let sel = starknet::core::utils::get_selector_from_name("foo").unwrap();
    assert_eq!(
        hex_of(&out),
        vec![
            "0x1".to_string(),
            "0x1".to_string(),
            format!("{sel:#x}"),
            "0x0".to_string(),
            "0x2".to_string(),
            "0x2".to_string(),
            "0x2".to_string(),
            "0x3".to_string(),
        ]
    );

    // both forms mix transparently, values flattened in order
    let a = SimpleProbe::generate_multicall_calldata("0x1 foo 0x2,0x3 0x4").unwrap();
    let b = SimpleProbe::generate_multicall_calldata("0x1 foo 0x2 0x3 0x4").unwrap();
    assert_eq!(hex_of(&a), hex_of(&b));
}

#[test]
fn comma_list_rejections() {
    // an empty piece is not a felt literal
    let err = SimpleProbe::generate_multicall_calldata("0x1 foo 0x2,").unwrap_err();
    assert_eq!(
        err,
        MulticallError::InvalidCalldata(1, FeltParseError::InvalidFormat)
    );
    let err = SimpleProbe::generate_multicall_calldata("0x1 foo 0x2,,0x3").unwrap_err();
    assert_eq!(
        err,
        MulticallError::InvalidCalldata(1, FeltParseError::InvalidFormat)
    );
}

#[test]
fn any_whitespace_separates_tokens() {
    let a = SimpleProbe::generate_multicall_calldata("0x1 foo 0x2 - 0x3 bar").unwrap();
    let b = SimpleProbe::generate_multicall_calldata("\t0x1\tfoo\n0x2 -\r\n0x3 bar\t")
        .unwrap();
    assert_eq!(hex_of(&a), hex_of(&b));
}
