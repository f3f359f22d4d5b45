//! Typed property values.
//!
//! Token properties and transaction details are ordered sequences of
//! (name, typed value) pairs. The ledger never interprets them; it only
//! stores them and hands them back.

use vstd::prelude::*;
use crate::principal::Principal;

verus! {

/// A typed property or transaction-detail value, never interpreted by the
/// ledger.
#[derive(Debug, Clone)]
pub enum GenericValue {
    BoolContent(bool),
    TextContent(String),
    BlobContent(Vec<u8>),
    Principal(Principal),
    Nat64Content(u64),
    Int64Content(i64),
}

/// The mathematical model of a [`GenericValue`].
pub ghost enum GenericValueV {
    Bool(bool),
    Text(Seq<char>),
    Blob(Seq<u8>),
    Principal(Seq<u8>),
    Nat64(u64),
    Int64(i64),
}

impl View for GenericValue {
    type V = GenericValueV;

    open spec fn view(&self) -> GenericValueV {
        match self {
            GenericValue::BoolContent(b) => GenericValueV::Bool(*b),
            GenericValue::TextContent(s) => GenericValueV::Text(s@),
            GenericValue::BlobContent(b) => GenericValueV::Blob(b@),
            GenericValue::Principal(p) => GenericValueV::Principal(p@),
            GenericValue::Nat64Content(n) => GenericValueV::Nat64(*n),
            GenericValue::Int64Content(n) => GenericValueV::Int64(*n),
        }
    }
}

/// The model of an ordered (name, value) property list.
pub open spec fn props_view(props: Seq<(String, GenericValue)>) -> Seq<(Seq<char>, GenericValueV)> {
    props.map(|i: int, p: (String, GenericValue)| (p.0@, p.1@))
}

} // verus!
