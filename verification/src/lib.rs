//! A verified ledger for a registry of uniquely identified tokens.
//!
//! The ledger tracks, for a fixed universe of token identifiers, who owns
//! each token, which single delegate (operator) may move it on the owner's
//! behalf, and an append-only log of every successful mutating operation.
//! Owner and operator reverse-indexes are caches derived from the token
//! store; their consistency is part of the ledger's well-formedness
//! invariant and is re-established by every operation.

pub mod account_id;
pub mod api;
pub mod audit;
pub mod codec;
pub mod errors;
pub mod laws;
pub mod ledger;
pub mod migration;
pub mod principal;
pub mod types;
pub mod values;
