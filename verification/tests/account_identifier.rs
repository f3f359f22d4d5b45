//! The hex/checksum canonical form of account identifiers.

use nft_ledger::account_id::{AccountIdentifierStruct, Subaccount};

#[test]
fn check_round_trip() {
    let ai = AccountIdentifierStruct { hash: [7; 28] };
    let res = ai.to_hex();
    assert_eq!(
        res.parse(),
        Ok(ai),
        "The account identifier doesn't change after going back and forth between a string"
    )
}

#[test]
fn checksum_prefix_matches_known_crc32() {
    let ai = AccountIdentifierStruct { hash: [7; 28] };
    assert_eq!(
        ai.to_hex(),
        "edc42ea807070707070707070707070707070707070707070707070707070707"
    );
    assert_eq!(ai.generate_checksum(), [0xed, 0xc4, 0x2e, 0xa8]);
}

#[test]
fn hex_form_is_sixtyfour_lowercase_digits() {
    let ai = AccountIdentifierStruct { hash: [0xab; 28] };
    let res = ai.to_hex();
    assert_eq!(res.len(), 64);
    assert!(res.chars().all(|c| c.is_ascii_hexdigit() && !c.is_ascii_uppercase()));
    assert!(res.ends_with("abababab"));
}

#[test]
fn corrupted_checksum_is_rejected() {
    let ai = AccountIdentifierStruct { hash: [7; 28] };
    let mut bytes = ai.to_vec();
    bytes[0] = bytes[0].wrapping_add(1);
    assert!(AccountIdentifierStruct::from_slice(&bytes).is_err());
    let short = vec![1, 2, 3];
    assert!(AccountIdentifierStruct::from_slice(&short).is_err());
    assert!(AccountIdentifierStruct::from_hex("zz").is_err());
}

#[test]
fn subaccount_bytes_round_trip() {
    let sub = Subaccount([5; 32]);
    assert_eq!(sub.to_vec(), vec![5u8; 32]);
}
