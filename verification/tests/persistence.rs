//! Round-trip serialization and legacy migration.

use nft_ledger::api::{approve, mint, transfer};
use nft_ledger::codec::{deserialize, serialize};
use nft_ledger::ledger::Ledger;
use nft_ledger::migration::{
    migrate_legacy, LegacyLedger, LegacyTokenLevelMetadata, LegacyTokenMetadata, MetadataKeyVal,
    MetadataPart, MetadataPurpose, MetadataVal,
};
use nft_ledger::principal::Principal;
use nft_ledger::values::GenericValue;

fn alice() -> Principal {
    Principal::from_bytes(vec![1, 1, 1])
}

fn bob() -> Principal {
    Principal::from_bytes(vec![2, 2, 2])
}

fn populated_ledger() -> Ledger {
    let mut ledger = Ledger::new();
    ledger.set_name("Gallery".to_string());
    ledger.set_symbol("GAL".to_string());
    ledger.set_custodians(vec![alice()]);
    let props = vec![
        ("color".to_string(), GenericValue::TextContent("red".to_string())),
        ("height".to_string(), GenericValue::Nat64Content(37)),
        ("delta".to_string(), GenericValue::Int64Content(-42)),
        ("raw".to_string(), GenericValue::BlobContent(vec![0, 255, 7])),
        ("ref".to_string(), GenericValue::Principal(bob())),
        ("flag".to_string(), GenericValue::BoolContent(false)),
    ];
    mint(&mut ledger, &alice(), 10, &alice(), 0, props).unwrap();
    mint(&mut ledger, &alice(), 11, &alice(), 1, vec![]).unwrap();
    approve(&mut ledger, &alice(), 12, &bob(), 1).unwrap();
    transfer(&mut ledger, &alice(), 13, &bob(), 0).unwrap();
    ledger
}

#[test]
fn serialize_then_deserialize_restores_the_ledger() {
    let ledger = populated_ledger();
    let bytes = serialize(&ledger);
    let restored = deserialize(&bytes).expect("a serialized ledger deserializes");
    // structurally equal: every query answers the same, and re-serializing
    // yields the identical byte sequence
    assert_eq!(serialize(&restored), bytes);
    assert_eq!(restored.owner_of(0).unwrap(), Some(bob()));
    assert_eq!(restored.owner_of(1).unwrap(), Some(alice()));
    assert_eq!(restored.operator_of(1).unwrap(), Some(bob()));
    assert_eq!(restored.total_transactions(), 4);
    assert_eq!(restored.total_supply(), 2);
    assert_eq!(restored.balance_of(&alice()).unwrap(), 1);
    assert_eq!(restored.name().as_ref().unwrap().as_str(), "Gallery");
    let ev = restored.transaction(4).unwrap();
    assert_eq!(ev.operation, "transfer");
}

#[test]
fn deserialize_rejects_truncated_bytes() {
    let ledger = populated_ledger();
    let mut bytes = serialize(&ledger);
    bytes.pop();
    assert!(deserialize(&bytes).is_none());
}

#[test]
fn rebuilding_indexes_reproduces_incremental_maintenance() {
    let mut ledger = populated_ledger();
    let owner0 = ledger.owner_of(0).unwrap();
    let owner1 = ledger.owner_of(1).unwrap();
    let balance_a = ledger.balance_of(&alice()).unwrap();
    let balance_b = ledger.balance_of(&bob()).unwrap();
    let mut ids_b_before = ledger.owner_token_identifiers(&bob()).unwrap().clone();
    ledger.rebuild_indexes();
    assert_eq!(ledger.owner_of(0).unwrap(), owner0);
    assert_eq!(ledger.owner_of(1).unwrap(), owner1);
    assert_eq!(ledger.balance_of(&alice()).unwrap(), balance_a);
    assert_eq!(ledger.balance_of(&bob()).unwrap(), balance_b);
    let mut ids_b_after = ledger.owner_token_identifiers(&bob()).unwrap().clone();
    ids_b_before.sort();
    ids_b_after.sort();
    assert_eq!(ids_b_before, ids_b_after);
    assert_eq!(ledger.operator_of(1).unwrap(), Some(bob()));
}

#[test]
fn migration_rebuilds_the_current_layout() {
    let metadata_store = LegacyTokenLevelMetadata {
        owner: Some(alice()),
        symbol: "OLD".to_string(),
        name: "Old Gallery".to_string(),
        history: None,
    };
    let parts = vec![MetadataPart {
        purpose: MetadataPurpose::Rendered,
        key_val_data: vec![MetadataKeyVal {
            key: "location".to_string(),
            val: MetadataVal::TextContent("mycanister1".to_string()),
        }],
        data: vec![],
    }];
    let ledger_store = LegacyLedger {
        tokens: vec![
            (
                0,
                LegacyTokenMetadata {
                    account_identifier: String::new(),
                    token_identifier: "0".to_string(),
                    principal: alice(),
                    metadata_desc: parts,
                },
            ),
            (
                1,
                LegacyTokenMetadata {
                    account_identifier: String::new(),
                    token_identifier: "1".to_string(),
                    principal: bob(),
                    metadata_desc: vec![],
                },
            ),
        ],
        user_tokens: vec![],
        token_approvals: vec![],
        operator_approvals: vec![(alice(), vec![bob()])],
    };
    let ledger = migrate_legacy(metadata_store, ledger_store, 99);
    assert_eq!(ledger.name().as_ref().unwrap().as_str(), "Old Gallery");
    assert_eq!(ledger.symbol().as_ref().unwrap().as_str(), "OLD");
    assert!(ledger.is_canister_custodian(&alice()));
    assert_eq!(ledger.total_supply(), 2);
    assert_eq!(ledger.owner_of(0).unwrap(), Some(alice()));
    assert_eq!(ledger.owner_of(1).unwrap(), Some(bob()));
    // operators were reset for safety
    assert_eq!(ledger.operator_of(0).unwrap(), None);
    assert_eq!(ledger.operator_of(1).unwrap(), None);
    assert_eq!(ledger.total_transactions(), 0);
    let record = ledger.token_metadata(0).unwrap();
    assert_eq!(record.properties.len(), 1);
    assert_eq!(record.properties[0].0, "location");
    assert!(matches!(
        &record.properties[0].1,
        GenericValue::TextContent(s) if s == "mycanister1"
    ));
}
