//! Account identifiers: a 28-byte hash, canonically shown as 64 hex
//! characters whose first 8 encode a big-endian CRC-32 checksum of the
//! remaining 56.

use vstd::prelude::*;

verus! {

use vstd::array::ArrayAdditionalExecFns;

/// The CRC-32 (IEEE) checksum of a byte sequence, as `crc32fast` computes
/// it; the result depends on the bytes alone.
pub uninterp spec fn crc32_of(data: Seq<u8>) -> u32;

/// Relies on `crc32fast::hash`: the CRC-32 checksum of the input bytes.
#[verifier::external_body]
fn crc32_hash(data: &Vec<u8>) -> (r: u32)
    ensures
        r == crc32_of(data@),
{
    crc32fast::hash(data)
}

/// A 32-bit integer as four big-endian bytes.
pub open spec fn be32(x: u32) -> Seq<u8> {
    seq![
        ((x >> 24) & 0xff) as u8,
        ((x >> 16) & 0xff) as u8,
        ((x >> 8) & 0xff) as u8,
        (x & 0xff) as u8,
    ]
}

/// The lowercase hex digit of a value below 16.
pub open spec fn hex_digit(n: u8) -> char {
    if n < 10 {
        (48 + n) as char
    } else {
        (87 + n) as char
    }
}

/// The lowercase hex spelling of a byte sequence, two digits per byte.
pub open spec fn hex_of(bytes: Seq<u8>) -> Seq<char>
    decreases bytes.len(),
{
    if bytes.len() == 0 {
        Seq::<char>::empty()
    } else {
        seq![hex_digit(bytes[0] / 16), hex_digit(bytes[0] % 16)] + hex_of(bytes.drop_first())
    }
}

/// Relies on `hex::encode`: lowercase hex, two digits per byte.
#[verifier::external_body]
fn hex_encode_bytes(b: &Vec<u8>) -> (r: String)
    ensures
        r@ == hex_of(b@),
{
    hex::encode(b)
}

/// Relies on `hex::decode`: decoding the hex spelling of a byte sequence
/// yields exactly that sequence.
#[verifier::external_body]
fn hex_decode_str(s: &str) -> (r: Option<Vec<u8>>)
    ensures
        (exists|bs: Seq<u8>| s@ == #[trigger] hex_of(bs)) ==> r is Some,
        r matches Some(v) ==> (forall|bs: Seq<u8>| s@ == #[trigger] hex_of(bs) ==> v@ == bs),
{
    hex::decode(s).ok()
}

/// The canonical byte form of an account identifier: a big-endian CRC-32
/// checksum of the hash, then the hash.
pub open spec fn account_bytes(h: Seq<u8>) -> Seq<u8> {
    be32(crc32_of(h)) + h
}

/// A 28-byte account hash. Its canonical representation is a hex string
/// of length 64: 8 checksum characters, then 56 hash characters.
#[derive(Clone, Copy, Hash, Debug, PartialEq, Eq, PartialOrd, Ord)]
pub struct AccountIdentifierStruct {
    pub hash: [u8; 28],
}

impl AccountIdentifierStruct {
    /// The big-endian CRC-32 checksum of the hash.
    pub fn generate_checksum(&self) -> (r: [u8; 4])
        ensures
            r@ == be32(crc32_of(self.hash@)),
    {
        let mut data: Vec<u8> = Vec::new();
        let mut i: usize = 0;
        while i < 28
            invariant
                i <= 28,
                data@ == self.hash@.subrange(0, i as int),
            decreases 28 - i,
        {
            data.push(self.hash[i]);
            proof {
                assert(data@ =~= self.hash@.subrange(0, i + 1));
            }
            i += 1;
        }
        proof {
            assert(data@ =~= self.hash@);
        }
        let c = crc32_hash(&data);
        let r = [((c >> 24) & 0xff) as u8, ((c >> 16) & 0xff) as u8, ((c >> 8) & 0xff) as u8, (c
            & 0xff) as u8];
        proof {
            assert(r@ =~= be32(crc32_of(self.hash@)));
        }
        r
    }

    /// The canonical byte form: checksum, then hash.
    pub fn to_vec(&self) -> (r: Vec<u8>)
        ensures
            r@ == account_bytes(self.hash@),
    {
        let checksum = self.generate_checksum();
        let mut r: Vec<u8> = Vec::new();
        let mut i: usize = 0;
        while i < 4
            invariant
                i <= 4,
                checksum@ == be32(crc32_of(self.hash@)),
                r@ == checksum@.subrange(0, i as int),
            decreases 4 - i,
        {
            r.push(checksum[i]);
            proof {
                assert(r@ =~= checksum@.subrange(0, i + 1));
            }
            i += 1;
        }
        proof {
            assert(checksum@.subrange(0, 4) =~= checksum@);
        }
        let mut j: usize = 0;
        while j < 28
            invariant
                j <= 28,
                checksum@ == be32(crc32_of(self.hash@)),
                r@ == checksum@ + self.hash@.subrange(0, j as int),
            decreases 28 - j,
        {
            r.push(self.hash[j]);
            proof {
                assert(r@ =~= checksum@ + self.hash@.subrange(0, j + 1));
            }
            j += 1;
        }
        proof {
            assert(r@ =~= account_bytes(self.hash@));
        }
        r
    }

    /// The canonical hex representation.
    pub fn to_hex(&self) -> (r: String)
        ensures
            r@ == hex_of(account_bytes(self.hash@)),
    {
        hex_encode_bytes(&self.to_vec())
    }

    /// Reads the canonical byte form back, verifying the checksum.
    pub fn from_slice(v: &Vec<u8>) -> (r: Result<AccountIdentifierStruct, String>)
        ensures
            v@.len() != 32 ==> r is Err,
            v@.len() == 32 ==> {
                &&& (r is Ok <==> v@.subrange(0, 4) == be32(crc32_of(v@.subrange(4, 32))))
                &&& (r matches Ok(a) ==> a.hash@ == v@.subrange(4, 32))
            },
    {
        if v.len() != 32 {
            return Err("expected 32 bytes of checksum and hash".to_owned());
        }
        check_sum(v)
    }

    /// Reads the canonical hex representation back.
    pub fn from_hex(hex_str: &str) -> (r: Result<AccountIdentifierStruct, String>)
        ensures
            forall|h: Seq<u8>|
                h.len() == 28 && hex_str@ == hex_of(#[trigger] account_bytes(h)) ==> (r matches
                    Ok(a) && a.hash@ == h),
    {
        let bytes = match hex_decode_str(hex_str) {
            Some(b) => b,
            None => {
                proof {
                    assert forall|h: Seq<u8>|
                        h.len() == 28 && hex_str@ == hex_of(#[trigger] account_bytes(h))
                            implies false by {
                        assert(account_bytes(h).len() == 32);
                    }
                }
                return Err("invalid hexadecimal".to_owned());
            }
        };
        let r = Self::from_slice(&bytes);
        proof {
            assert forall|h: Seq<u8>|
                h.len() == 28 && hex_str@ == hex_of(#[trigger] account_bytes(h)) implies (
            r matches Ok(a) && a.hash@ == h) by {
                assert(bytes@ == account_bytes(h));
                assert(bytes@.len() == 32);
                assert(bytes@.subrange(0, 4) =~= be32(crc32_of(h)));
                assert(bytes@.subrange(4, 32) =~= h);
            }
        }
        r
    }
}

/// Splits the canonical byte form, recomputes the checksum and accepts
/// the identifier only when the stored checksum matches.
pub fn check_sum(v: &Vec<u8>) -> (r: Result<AccountIdentifierStruct, String>)
    requires
        v@.len() == 32,
    ensures
        r is Ok <==> v@.subrange(0, 4) == be32(crc32_of(v@.subrange(4, 32))),
        r matches Ok(a) ==> a.hash@ == v@.subrange(4, 32),
{
    let mut hash = [0u8; 28];
    let mut i: usize = 0;
    while i < 28
        invariant
            i <= 28,
            v@.len() == 32,
            forall|j: int| 0 <= j < i ==> hash@[j] == v@[4 + j],
        decreases 28 - i,
    {
        hash.set(i, v[4 + i]);
        i += 1;
    }
    proof {
        assert(hash@ =~= v@.subrange(4, 32));
    }
    let account_id = AccountIdentifierStruct { hash };
    let expected = account_id.generate_checksum();
    let matches_stored = expected[0] == v[0] && expected[1] == v[1] && expected[2] == v[2]
        && expected[3] == v[3];
    proof {
        if matches_stored {
            assert(v@.subrange(0, 4) =~= expected@);
        }
        if v@.subrange(0, 4) == be32(crc32_of(v@.subrange(4, 32))) {
            assert(v@[0] == expected@[0] && v@[1] == expected@[1] && v@[2] == expected@[2] && v@[3]
                == expected@[3]);
        }
    }
    if matches_stored {
        Ok(account_id)
    } else {
        Err("checksum mismatch".to_owned())
    }
}

impl core::str::FromStr for AccountIdentifierStruct {
    type Err = String;

    fn from_str(s: &str) -> Result<AccountIdentifierStruct, String> {
        AccountIdentifierStruct::from_hex(s)
    }
}

/// An arbitrary 32-byte subaccount value.
#[derive(Clone, Copy, Hash, Debug, PartialEq, Eq)]
pub struct Subaccount(pub [u8; 32]);

impl Subaccount {
    /// The raw bytes.
    pub fn to_vec(&self) -> (r: Vec<u8>)
        ensures
            r@ == self.0@,
    {
        let mut r: Vec<u8> = Vec::new();
        let mut i: usize = 0;
        while i < 32
            invariant
                i <= 32,
                r@ == self.0@.subrange(0, i as int),
            decreases 32 - i,
        {
            r.push(self.0[i]);
            proof {
                assert(r@ =~= self.0@.subrange(0, i + 1));
            }
            i += 1;
        }
        proof {
            assert(r@ =~= self.0@);
        }
        r
    }
}

} // verus!
