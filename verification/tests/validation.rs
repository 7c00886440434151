use block_fees::block::{lower_hex, BlockIdentifier, BLOCK_ID_LEN, LEADING_ZEROS};
use block_fees::error::{AppError, ErrorKind};

const BLOCK: &str = "000000000000000001a4f543e574f6e9d6e6e7c4ea2b84a5c1d5193a0a295995";

fn rejected(raw: &str) -> AppError {
    match BlockIdentifier::parse(raw) {
        Ok(_) => panic!("accepted {raw:?}"),
        Err(err) => err,
    }
}

#[test]
fn a_mainnet_block_hash_is_accepted() {
    assert_eq!(BLOCK.len(), BLOCK_ID_LEN);
    let block = BlockIdentifier::parse(BLOCK).expect("a valid identifier");
    assert_eq!(block.as_str(), BLOCK);
}

#[test]
fn the_smallest_and_largest_identifiers_are_accepted() {
    let zeros = "0".repeat(64);
    assert_eq!(BlockIdentifier::parse(&zeros).unwrap().as_str(), zeros);
    let high = format!("{}{}", "0".repeat(LEADING_ZEROS), "f".repeat(56));
    assert_eq!(BlockIdentifier::parse(&high).unwrap().as_str(), high);
}

#[test]
fn the_empty_text_is_invalid_input() {
    assert_eq!(rejected("").kind(), ErrorKind::InvalidInput);
}

#[test]
fn a_wrong_length_is_invalid_input() {
    assert_eq!(rejected(&BLOCK[..63]).kind(), ErrorKind::InvalidInput);
    assert_eq!(rejected(&format!("{BLOCK}0")).kind(), ErrorKind::InvalidInput);
    assert_eq!(rejected("00000000").kind(), ErrorKind::InvalidInput);
}

#[test]
fn a_missing_prefix_is_invalid_input() {
    let short_prefix = format!("{}1{}", "0".repeat(7), "a".repeat(56));
    assert_eq!(short_prefix.len(), 64);
    assert_eq!(rejected(&short_prefix).kind(), ErrorKind::InvalidInput);
    let no_prefix = "a".repeat(64);
    assert_eq!(rejected(&no_prefix).kind(), ErrorKind::InvalidInput);
}

#[test]
fn upper_case_digits_are_invalid_input() {
    let upper = BLOCK.to_uppercase();
    assert_eq!(rejected(&upper).kind(), ErrorKind::InvalidInput);
    let one_upper = format!("{}A{}", "0".repeat(8), "a".repeat(55));
    assert_eq!(rejected(&one_upper).kind(), ErrorKind::InvalidInput);
}

#[test]
fn characters_outside_hexadecimal_are_invalid_input() {
    for bad in ['g', 'z', ' ', '/', '-', ':', '`', '\n', '\u{e9}', '\u{ff10}'] {
        let raw = format!("{}{}{}", "0".repeat(8), bad, "a".repeat(55));
        assert_eq!(raw.chars().count(), 64);
        assert_eq!(rejected(&raw).kind(), ErrorKind::InvalidInput);
    }
}

#[test]
fn a_trailing_slash_is_invalid_input() {
    let raw = format!("{}/", &BLOCK[..63]);
    assert_eq!(raw.len(), 64);
    assert_eq!(rejected(&raw).kind(), ErrorKind::InvalidInput);
}

#[test]
fn the_rejection_names_the_problem() {
    let err = rejected("xyz");
    assert_eq!(err.message(), "Invalid hash. Please provide a Bitcoin mainnet block hash.");
    assert!(err.precedes_network());
}

#[test]
fn lower_hex_digits_are_recognised() {
    for c in "0123456789abcdef".chars() {
        assert!(lower_hex(c));
    }
    for c in "ABCDEFg/: `{".chars() {
        assert!(!lower_hex(c));
    }
}

#[test]
fn errors_keep_kind_and_text() {
    let err = AppError::new(ErrorKind::DecodeError, "missing field `fee`");
    assert_eq!(err.kind(), ErrorKind::DecodeError);
    assert_eq!(err.message(), "missing field `fee`");
    assert!(!err.precedes_network());
    let copy = err.clone();
    assert_eq!(copy.kind(), ErrorKind::DecodeError);
    assert_eq!(copy.message(), err.message());
}

#[test]
fn transport_failures_are_told_apart() {
    let decode = AppError::transport(true, "expected value at line 1 column 1");
    assert_eq!(decode.kind(), ErrorKind::DecodeError);
    assert_eq!(decode.message(), "expected value at line 1 column 1");
    let network = AppError::transport(false, "connection refused");
    assert_eq!(network.kind(), ErrorKind::NetworkError);
    assert_eq!(network.message(), "connection refused");
    assert!(!network.precedes_network());
}
