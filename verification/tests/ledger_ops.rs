//! Scenario tests for the six mutating operations and the read accessors.

use nft_ledger::api::{approve, burn, mint, set_approval_for_all, transfer, transfer_from};
use nft_ledger::errors::NftError;
use nft_ledger::ledger::Ledger;
use nft_ledger::principal::Principal;
use nft_ledger::types::InitArgs;
use nft_ledger::values::GenericValue;

fn alice() -> Principal {
    Principal::from_bytes(vec![1, 1, 1])
}

fn bob() -> Principal {
    Principal::from_bytes(vec![2, 2, 2])
}

fn carol() -> Principal {
    Principal::from_bytes(vec![3, 3, 3])
}

fn john() -> Principal {
    Principal::from_bytes(vec![4, 4, 4])
}

#[test]
fn mint_one_token_to_alice() {
    let mut ledger = Ledger::new();
    let n = mint(&mut ledger, &alice(), 10, &alice(), 0, vec![]).unwrap();
    assert_eq!(n, 1);
    assert_eq!(ledger.owner_of(0).unwrap(), Some(alice()));
    assert_eq!(ledger.total_supply(), 1);
    assert_eq!(ledger.balance_of(&alice()).unwrap(), 1);
}

#[test]
fn transfer_moves_ownership_and_clears_operator() {
    let mut ledger = Ledger::new();
    mint(&mut ledger, &alice(), 10, &alice(), 0, vec![]).unwrap();
    mint(&mut ledger, &alice(), 11, &alice(), 1, vec![]).unwrap();
    transfer(&mut ledger, &alice(), 12, &bob(), 0).unwrap();
    assert_eq!(ledger.owner_of(0).unwrap(), Some(bob()));
    assert_eq!(ledger.balance_of(&alice()).unwrap(), 1);
    assert_eq!(ledger.balance_of(&bob()).unwrap(), 1);
    assert_eq!(ledger.operator_of(0).unwrap(), None);
}

#[test]
fn operator_can_transfer_once() {
    let mut ledger = Ledger::new();
    mint(&mut ledger, &alice(), 10, &alice(), 0, vec![]).unwrap();
    approve(&mut ledger, &alice(), 11, &bob(), 0).unwrap();
    assert_eq!(ledger.operator_of(0).unwrap(), Some(bob()));
    transfer_from(&mut ledger, &bob(), 12, &alice(), &carol(), 0).unwrap();
    assert_eq!(ledger.owner_of(0).unwrap(), Some(carol()));
    assert_eq!(ledger.operator_of(0).unwrap(), None);
    let again = transfer_from(&mut ledger, &bob(), 13, &alice(), &carol(), 0);
    assert_eq!(again, Err(NftError::UnauthorizedOwner));
}

#[test]
fn burn_is_terminal() {
    let mut ledger = Ledger::new();
    mint(&mut ledger, &alice(), 10, &alice(), 5, vec![]).unwrap();
    burn(&mut ledger, &alice(), 11, 5).unwrap();
    assert_eq!(ledger.owner_of(5).unwrap(), None);
    // the owner index entry is removed once empty
    assert_eq!(ledger.balance_of(&alice()), Err(NftError::OwnerNotFound));
    // burned tokens still count toward supply
    assert_eq!(ledger.total_supply(), 1);
    // no operation can resurrect the token: the owner check fails first
    assert_eq!(burn(&mut ledger, &alice(), 12, 5), Err(NftError::UnauthorizedOwner));
    assert_eq!(
        transfer(&mut ledger, &alice(), 13, &bob(), 5),
        Err(NftError::UnauthorizedOwner)
    );
    assert_eq!(
        approve(&mut ledger, &alice(), 14, &bob(), 5),
        Err(NftError::UnauthorizedOwner)
    );
}

#[test]
fn self_operations_are_rejected_without_side_effect() {
    let mut ledger = Ledger::new();
    mint(&mut ledger, &alice(), 10, &alice(), 0, vec![]).unwrap();
    let before = ledger.total_transactions();
    assert_eq!(
        transfer(&mut ledger, &alice(), 11, &alice(), 0),
        Err(NftError::SelfTransfer)
    );
    assert_eq!(
        approve(&mut ledger, &alice(), 11, &alice(), 0),
        Err(NftError::SelfApprove)
    );
    assert_eq!(
        set_approval_for_all(&mut ledger, &alice(), 11, &alice(), true),
        Err(NftError::SelfApprove)
    );
    assert_eq!(ledger.total_transactions(), before);
}

#[test]
fn transaction_numbers_start_at_one_and_have_no_gaps() {
    let mut ledger = Ledger::new();
    let n1 = mint(&mut ledger, &alice(), 10, &alice(), 0, vec![]).unwrap();
    let n2 = mint(&mut ledger, &alice(), 11, &alice(), 1, vec![]).unwrap();
    let n3 = transfer(&mut ledger, &alice(), 12, &bob(), 0).unwrap();
    assert_eq!((n1, n2, n3), (1, 2, 3));
    assert_eq!(ledger.total_transactions(), 3);
}

#[test]
fn transaction_lookup_is_one_based() {
    let mut ledger = Ledger::new();
    assert_eq!(ledger.transaction(0).map(|_| ()), Err(NftError::TxNotFound));
    assert_eq!(ledger.transaction(1).map(|_| ()), Err(NftError::TxNotFound));
    mint(&mut ledger, &alice(), 10, &alice(), 0, vec![]).unwrap();
    let ev = ledger.transaction(1).unwrap();
    assert_eq!(ev.operation, "mint");
    assert_eq!(ev.caller, alice());
    assert_eq!(ev.time, 10);
    assert_eq!(ledger.transaction(2).map(|_| ()), Err(NftError::TxNotFound));
}

#[test]
fn set_approval_for_all_covers_every_owned_token() {
    let mut ledger = Ledger::new();
    mint(&mut ledger, &alice(), 10, &alice(), 0, vec![]).unwrap();
    mint(&mut ledger, &alice(), 11, &alice(), 1, vec![]).unwrap();
    mint(&mut ledger, &alice(), 12, &bob(), 2, vec![]).unwrap();
    set_approval_for_all(&mut ledger, &alice(), 13, &john(), true).unwrap();
    assert_eq!(ledger.operator_of(0).unwrap(), Some(john()));
    assert_eq!(ledger.operator_of(1).unwrap(), Some(john()));
    assert_eq!(ledger.operator_of(2).unwrap(), None);
    assert_eq!(ledger.is_approved_for_all(&alice(), &john()).unwrap(), true);
    set_approval_for_all(&mut ledger, &alice(), 14, &john(), false).unwrap();
    assert_eq!(ledger.operator_of(0).unwrap(), None);
    assert_eq!(ledger.is_approved_for_all(&alice(), &john()).unwrap(), false);
}

#[test]
fn mint_collision_and_missing_tokens_fail() {
    let mut ledger = Ledger::new();
    mint(&mut ledger, &alice(), 10, &alice(), 0, vec![]).unwrap();
    assert_eq!(
        mint(&mut ledger, &alice(), 11, &bob(), 0, vec![]),
        Err(NftError::ExistedNFT)
    );
    assert_eq!(
        transfer(&mut ledger, &alice(), 12, &bob(), 42),
        Err(NftError::TokenNotFound)
    );
    assert_eq!(ledger.owner_of(42), Err(NftError::TokenNotFound));
    assert_eq!(
        ledger.operator_token_identifiers(&bob()).map(|_| ()),
        Err(NftError::OperatorNotFound)
    );
}

#[test]
fn properties_are_stored_untouched() {
    let mut ledger = Ledger::new();
    let props = vec![
        ("color".to_string(), GenericValue::TextContent("red".to_string())),
        ("height".to_string(), GenericValue::Nat64Content(37)),
        ("weight".to_string(), GenericValue::Int64Content(-4)),
        ("raw".to_string(), GenericValue::BlobContent(vec![1, 2, 3])),
        ("owner_ref".to_string(), GenericValue::Principal(alice())),
        ("flag".to_string(), GenericValue::BoolContent(true)),
    ];
    mint(&mut ledger, &alice(), 10, &alice(), 0, props).unwrap();
    let record = ledger.token_metadata(0).unwrap();
    assert_eq!(record.properties.len(), 6);
    assert_eq!(record.properties[0].0, "color");
    assert!(matches!(&record.properties[1].1, GenericValue::Nat64Content(37)));
    assert!(matches!(&record.properties[2].1, GenericValue::Int64Content(-4)));
    assert_eq!(record.minted_at, 10);
    assert_eq!(record.minted_by, alice());
}

#[test]
fn metadata_fields_and_custodians() {
    let mut ledger = Ledger::new();
    ledger.set_name("Gallery".to_string());
    ledger.set_logo("logo-url".to_string());
    ledger.set_symbol("GAL".to_string());
    ledger.set_custodians(vec![alice(), bob()]);
    assert_eq!(ledger.name().as_ref().unwrap().as_str(), "Gallery");
    assert_eq!(ledger.logo().as_ref().unwrap().as_str(), "logo-url");
    assert_eq!(ledger.symbol().as_ref().unwrap().as_str(), "GAL");
    assert!(ledger.is_canister_custodian(&alice()));
    assert!(ledger.is_canister_custodian(&bob()));
    assert!(!ledger.is_canister_custodian(&carol()));
    assert_eq!(ledger.total_unique_holders(), 0);
}

#[test]
fn init_metadata_applies_arguments_and_timestamps() {
    let mut ledger = Ledger::new();
    let args = InitArgs {
        name: Some("Gallery".to_string()),
        logo: None,
        symbol: Some("GAL".to_string()),
        custodians: Some(vec![bob(), bob()]),
        cap: None,
    };
    ledger.init_metadata(alice(), Some(args), 77);
    assert_eq!(ledger.name().as_ref().unwrap().as_str(), "Gallery");
    assert!(ledger.logo().is_none());
    assert_eq!(ledger.symbol().as_ref().unwrap().as_str(), "GAL");
    assert!(ledger.is_canister_custodian(&alice()));
    assert!(ledger.is_canister_custodian(&bob()));
    // duplicates are not inserted twice
    assert_eq!(ledger.custodians().len(), 2);
    assert_eq!(ledger.metadata().created_at, 77);
    assert_eq!(ledger.metadata().upgraded_at, 77);
}

#[test]
fn index_contents_mirror_the_token_store() {
    let mut ledger = Ledger::new();
    mint(&mut ledger, &alice(), 10, &alice(), 0, vec![]).unwrap();
    mint(&mut ledger, &alice(), 11, &alice(), 1, vec![]).unwrap();
    transfer(&mut ledger, &alice(), 12, &bob(), 0).unwrap();
    approve(&mut ledger, &alice(), 13, &carol(), 1).unwrap();
    // each identifier is owned by exactly one principal
    assert_eq!(ledger.owner_token_identifiers(&alice()).unwrap(), &vec![1]);
    assert_eq!(ledger.owner_token_identifiers(&bob()).unwrap(), &vec![0]);
    // the operator index holds an id exactly when the record names that operator
    assert_eq!(ledger.operator_token_identifiers(&carol()).unwrap(), &vec![1]);
    let records = ledger.owner_token_metadata(&alice()).unwrap();
    assert_eq!(records.len(), 1);
    assert_eq!(records[0].token_identifier, 1);
    let operated = ledger.operator_token_metadata(&carol()).unwrap();
    assert_eq!(operated.len(), 1);
    assert_eq!(operated[0].token_identifier, 1);
    // no index key maps to an empty set: clearing the approval removes the key
    approve(&mut ledger, &alice(), 14, &john(), 1).unwrap();
    assert_eq!(
        ledger.operator_token_identifiers(&carol()).map(|_| ()),
        Err(NftError::OperatorNotFound)
    );
    assert_eq!(ledger.operator_token_identifiers(&john()).unwrap(), &vec![1]);
    assert_eq!(ledger.total_unique_holders(), 2);
    assert_eq!(ledger.stats(500).total_supply, 2);
    assert_eq!(ledger.stats(500).cycles, 500);
}

#[test]
fn basic_interface() {
    let mut ledger = Ledger::new();
    mint(&mut ledger, &alice(), 10, &alice(), 0, vec![
        ("location".to_string(), GenericValue::TextContent("mycanister1".to_string())),
    ])
    .unwrap();
    mint(&mut ledger, &alice(), 11, &alice(), 1, vec![
        ("location".to_string(), GenericValue::TextContent("mycanister2".to_string())),
    ])
    .unwrap();
    mint(&mut ledger, &alice(), 12, &bob(), 2, vec![
        ("location".to_string(), GenericValue::TextContent("mycanister3".to_string())),
    ])
    .unwrap();

    assert_eq!(ledger.owner_of(0).unwrap(), Some(alice()));
    assert_eq!(ledger.owner_of(2).unwrap(), Some(bob()));

    assert_eq!(ledger.total_supply(), 3);
    assert_eq!(ledger.balance_of(&alice()).unwrap(), 2);
    assert_eq!(ledger.balance_of(&bob()).unwrap(), 1);
    assert_eq!(ledger.balance_of(&john()), Err(NftError::OwnerNotFound));

    assert_eq!(ledger.owner_token_metadata(&alice()).unwrap().len(), 2);
    assert_eq!(ledger.token_metadata(0).unwrap().properties.len(), 1);

    transfer(&mut ledger, &alice(), 13, &bob(), 0).unwrap();
    assert_eq!(ledger.owner_of(0).unwrap(), Some(bob()));
}

#[test]
fn approval() {
    let mut ledger = Ledger::new();
    mint(&mut ledger, &alice(), 10, &alice(), 0, vec![]).unwrap();
    mint(&mut ledger, &alice(), 11, &alice(), 1, vec![]).unwrap();

    set_approval_for_all(&mut ledger, &alice(), 12, &bob(), true).unwrap();
    assert_eq!(ledger.is_approved_for_all(&alice(), &bob()).unwrap(), true);

    set_approval_for_all(&mut ledger, &alice(), 13, &bob(), false).unwrap();
    assert_eq!(ledger.is_approved_for_all(&alice(), &bob()).unwrap(), false);
}

#[test]
fn test_ownership() {
    let mut ledger = Ledger::new();
    mint(&mut ledger, &alice(), 10, &alice(), 0, vec![]).unwrap();
    assert_eq!(ledger.owner_of(0).unwrap(), Some(alice()));
}
