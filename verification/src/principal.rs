//! Principals: opaque caller/account identities.
//!
//! The ledger never looks inside a principal; it only compares principals
//! for equality and uses them as index keys. A principal is therefore held
//! as its raw byte string, and its mathematical model is that byte sequence.

use vstd::prelude::*;

verus! {

use vstd::std_specs::cmp::PartialEqSpec;

/// An opaque unique identifier for a caller or account.
#[derive(Debug, Clone)]
pub struct Principal {
    bytes: Vec<u8>,
}

impl View for Principal {
    type V = Seq<u8>;

    closed spec fn view(&self) -> Seq<u8> {
        self.bytes@
    }
}

impl Principal {
    /// Builds a principal from its raw byte representation.
    pub fn from_bytes(bytes: Vec<u8>) -> (r: Principal)
        ensures
            r@ == bytes@,
    {
        Principal { bytes }
    }

    /// The raw byte representation.
    pub fn as_bytes(&self) -> (r: &Vec<u8>)
        ensures
            r@ == self@,
    {
        &self.bytes
    }

    /// An owned copy of this principal, equal to it as a value.
    pub fn dup(&self) -> (r: Principal)
        ensures
            r@ == self@,
    {
        let bytes = self.bytes.clone();
        proof {
            assert(bytes@ =~= self.bytes@);
        }
        Principal { bytes }
    }
}

impl PartialEq for Principal {
    fn eq(&self, other: &Principal) -> (r: bool) {
        let r = self.bytes == other.bytes;
        proof {
            if self.bytes@ == other.bytes@ {
                assert(self.bytes.eq_spec(&other.bytes));
            }
            if self.bytes.eq_spec(&other.bytes) {
                assert(self.bytes@ =~= other.bytes@);
            }
        }
        r
    }
}

impl vstd::std_specs::cmp::PartialEqSpecImpl for Principal {
    open spec fn obeys_eq_spec() -> bool {
        true
    }

    open spec fn eq_spec(&self, other: &Principal) -> bool {
        self@ == other@
    }
}

} // verus!
