//! The ledger's record types and their mathematical models.

use vstd::prelude::*;
use crate::principal::Principal;
use crate::values::{GenericValue, GenericValueV, props_view};

verus! {

/// One record per token identifier: ownership, delegation, burn status,
/// opaque properties and provenance timestamps.
#[derive(Debug)]
pub struct TokenMetadata {
    pub token_identifier: u64,
    pub owner: Option<Principal>,
    pub operator: Option<Principal>,
    pub is_burned: bool,
    pub properties: Vec<(String, GenericValue)>,
    pub minted_at: u64,
    pub minted_by: Principal,
    pub transferred_at: Option<u64>,
    pub transferred_by: Option<Principal>,
    pub approved_at: Option<u64>,
    pub approved_by: Option<Principal>,
    pub burned_at: Option<u64>,
    pub burned_by: Option<Principal>,
}

/// The model of a token record.
#[verifier::ext_equal]
pub ghost struct TokenMetadataV {
    pub token_identifier: u64,
    pub owner: Option<Seq<u8>>,
    pub operator: Option<Seq<u8>>,
    pub is_burned: bool,
    pub properties: Seq<(Seq<char>, GenericValueV)>,
    pub minted_at: u64,
    pub minted_by: Seq<u8>,
    pub transferred_at: Option<u64>,
    pub transferred_by: Option<Seq<u8>>,
    pub approved_at: Option<u64>,
    pub approved_by: Option<Seq<u8>>,
    pub burned_at: Option<u64>,
    pub burned_by: Option<Seq<u8>>,
}

/// The model of an optional principal.
pub open spec fn opt_principal_view(p: Option<Principal>) -> Option<Seq<u8>> {
    match p {
        Some(q) => Some(q@),
        None => None,
    }
}

impl View for TokenMetadata {
    type V = TokenMetadataV;

    open spec fn view(&self) -> TokenMetadataV {
        TokenMetadataV {
            token_identifier: self.token_identifier,
            owner: opt_principal_view(self.owner),
            operator: opt_principal_view(self.operator),
            is_burned: self.is_burned,
            properties: props_view(self.properties@),
            minted_at: self.minted_at,
            minted_by: self.minted_by@,
            transferred_at: self.transferred_at,
            transferred_by: opt_principal_view(self.transferred_by),
            approved_at: self.approved_at,
            approved_by: opt_principal_view(self.approved_by),
            burned_at: self.burned_at,
            burned_by: opt_principal_view(self.burned_by),
        }
    }
}

/// One transaction event, immutable once appended to the log.
#[derive(Debug)]
pub struct TxEvent {
    pub time: u64,
    pub caller: Principal,
    pub operation: String,
    pub details: Vec<(String, GenericValue)>,
}

/// The model of a transaction event.
#[verifier::ext_equal]
pub ghost struct TxEventV {
    pub time: u64,
    pub caller: Seq<u8>,
    pub operation: Seq<char>,
    pub details: Seq<(Seq<char>, GenericValueV)>,
}

impl View for TxEvent {
    type V = TxEventV;

    open spec fn view(&self) -> TxEventV {
        TxEventV {
            time: self.time,
            caller: self.caller@,
            operation: self.operation@,
            details: props_view(self.details@),
        }
    }
}

/// Ledger-wide key-value configuration: display fields, the custodian set
/// and the creation/upgrade timestamps.
#[derive(Debug)]
pub struct Metadata {
    pub name: Option<String>,
    pub logo: Option<String>,
    pub symbol: Option<String>,
    pub custodians: Vec<Principal>,
    pub created_at: u64,
    pub upgraded_at: u64,
}

/// The model of the ledger-wide configuration.
#[verifier::ext_equal]
pub ghost struct MetadataV {
    pub name: Option<Seq<char>>,
    pub logo: Option<Seq<char>>,
    pub symbol: Option<Seq<char>>,
    pub custodians: Seq<Seq<u8>>,
    pub created_at: u64,
    pub upgraded_at: u64,
}

/// The model of an optional string.
pub open spec fn opt_string_view(s: Option<String>) -> Option<Seq<char>> {
    match s {
        Some(t) => Some(t@),
        None => None,
    }
}

impl View for Metadata {
    type V = MetadataV;

    open spec fn view(&self) -> MetadataV {
        MetadataV {
            name: opt_string_view(self.name),
            logo: opt_string_view(self.logo),
            symbol: opt_string_view(self.symbol),
            custodians: self.custodians@.map(|i: int, p: Principal| p@),
            created_at: self.created_at,
            upgraded_at: self.upgraded_at,
        }
    }
}

/// Configuration supplied when the ledger is first created.
#[derive(Debug)]
pub struct InitArgs {
    pub name: Option<String>,
    pub logo: Option<String>,
    pub symbol: Option<String>,
    pub custodians: Option<Vec<Principal>>,
    pub cap: Option<Principal>,
}

/// The model of the initial configuration.
#[verifier::ext_equal]
pub ghost struct InitArgsV {
    pub name: Option<Seq<char>>,
    pub logo: Option<Seq<char>>,
    pub symbol: Option<Seq<char>>,
    pub custodians: Option<Seq<Seq<u8>>>,
    pub cap: Option<Seq<u8>>,
}

impl View for InitArgs {
    type V = InitArgsV;

    open spec fn view(&self) -> InitArgsV {
        InitArgsV {
            name: opt_string_view(self.name),
            logo: opt_string_view(self.logo),
            symbol: opt_string_view(self.symbol),
            custodians: match self.custodians {
                Some(cs) => Some(cs@.map(|i: int, p: Principal| p@)),
                None => None,
            },
            cap: opt_principal_view(self.cap),
        }
    }
}

/// Aggregate counters over the ledger.
#[derive(Clone, Copy, Debug, PartialEq, Eq, Structural)]
pub struct Stats {
    pub total_transactions: u64,
    pub total_supply: u64,
    pub cycles: u64,
    pub total_unique_holders: u64,
}

} // verus!
