//! A byte codec for the whole ledger.
//!
//! [`serialize`] lays the ledger out as one byte sequence, and
//! [`deserialize`] reads it back; the decoder contracts state that decoding
//! any buffer that starts with the encoding of a value yields exactly that
//! value, so a serialize/deserialize round trip restores the ledger
//! structurally, index contents included.
//!
//! All integers are little-endian, 8 bytes; byte strings, text and lists
//! carry a length prefix; options and typed values carry a one-byte tag.

use vstd::prelude::*;
use crate::principal::Principal;
use crate::values::{GenericValue, GenericValueV, props_view};
use crate::types::{Metadata, MetadataV, TokenMetadata, TokenMetadataV, TxEvent, TxEventV};
use crate::ledger::{Ledger, LedgerV};

verus! {

// ---------------------------------------------------------------------------
// Encodings, as spec functions
// ---------------------------------------------------------------------------

/// The 8-byte little-endian encoding of an integer.
pub open spec fn enc_u64(x: u64) -> Seq<u8> {
    seq![
        (x & 0xff) as u8,
        ((x >> 8) & 0xff) as u8,
        ((x >> 16) & 0xff) as u8,
        ((x >> 24) & 0xff) as u8,
        ((x >> 32) & 0xff) as u8,
        ((x >> 40) & 0xff) as u8,
        ((x >> 48) & 0xff) as u8,
        ((x >> 56) & 0xff) as u8,
    ]
}

/// One tag byte.
pub open spec fn enc_bool(b: bool) -> Seq<u8> {
    seq![if b { 1u8 } else { 0u8 }]
}

/// Length prefix, then the raw bytes.
pub open spec fn enc_bytes(b: Seq<u8>) -> Seq<u8> {
    enc_u64(b.len() as u64) + b
}

/// Text as its UTF-8 bytes, length-prefixed.
pub open spec fn enc_str(s: Seq<char>) -> Seq<u8> {
    enc_bytes(vstd::utf8::encode_utf8(s))
}

/// A principal as its raw bytes, length-prefixed.
pub open spec fn enc_principal(p: Seq<u8>) -> Seq<u8> {
    enc_bytes(p)
}

/// An optional integer: absent tag, or present tag and the value.
pub open spec fn enc_opt_u64(o: Option<u64>) -> Seq<u8> {
    match o {
        None => seq![0u8],
        Some(x) => seq![1u8] + enc_u64(x),
    }
}

/// An optional principal.
pub open spec fn enc_opt_principal(o: Option<Seq<u8>>) -> Seq<u8> {
    match o {
        None => seq![0u8],
        Some(p) => seq![1u8] + enc_principal(p),
    }
}

/// An optional string.
pub open spec fn enc_opt_str(o: Option<Seq<char>>) -> Seq<u8> {
    match o {
        None => seq![0u8],
        Some(s) => seq![1u8] + enc_str(s),
    }
}

// ---------------------------------------------------------------------------
// Integer byte-level lemmas
// ---------------------------------------------------------------------------

proof fn lemma_u64_le_roundtrip(x: u64, b0: u8, b1: u8, b2: u8, b3: u8, b4: u8, b5: u8, b6: u8, b7: u8)
    requires
        b0 == (x & 0xff) as u8,
        b1 == ((x >> 8) & 0xff) as u8,
        b2 == ((x >> 16) & 0xff) as u8,
        b3 == ((x >> 24) & 0xff) as u8,
        b4 == ((x >> 32) & 0xff) as u8,
        b5 == ((x >> 40) & 0xff) as u8,
        b6 == ((x >> 48) & 0xff) as u8,
        b7 == ((x >> 56) & 0xff) as u8,
    ensures
        (b0 as u64) | ((b1 as u64) << 8) | ((b2 as u64) << 16) | ((b3 as u64) << 24) | ((b4
            as u64) << 32) | ((b5 as u64) << 40) | ((b6 as u64) << 48) | ((b7 as u64) << 56) == x,
{
    assert((b0 as u64) | ((b1 as u64) << 8) | ((b2 as u64) << 16) | ((b3 as u64) << 24) | ((b4
        as u64) << 32) | ((b5 as u64) << 40) | ((b6 as u64) << 48) | ((b7 as u64) << 56) == x)
        by (bit_vector)
        requires
            b0 == (x & 0xff) as u8,
            b1 == ((x >> 8) & 0xff) as u8,
            b2 == ((x >> 16) & 0xff) as u8,
            b3 == ((x >> 24) & 0xff) as u8,
            b4 == ((x >> 32) & 0xff) as u8,
            b5 == ((x >> 40) & 0xff) as u8,
            b6 == ((x >> 48) & 0xff) as u8,
            b7 == ((x >> 56) & 0xff) as u8,
    ;
}


/// Consuming a leading encoding advances the unread suffix.
pub proof fn lemma_suffix_split(buf: Seq<u8>, pos: int, a: Seq<u8>, b: Seq<u8>)
    requires
        0 <= pos <= buf.len(),
        suffix(buf, pos) == a + b,
    ensures
        pos + a.len() <= buf.len(),
        suffix(buf, pos + a.len()) == b,
{
    let s = suffix(buf, pos);
    assert(s.len() == buf.len() - pos);
    assert(s.len() == a.len() + b.len());
    assert forall|ii: int| 0 <= ii < b.len() implies suffix(buf, pos + a.len())[ii] == b[ii] by {
        assert(suffix(buf, pos + a.len())[ii] == buf[pos + a.len() + ii]);
        assert(s[a.len() + ii] == buf[pos + a.len() + ii]);
        assert(s[a.len() + ii] == (a + b)[a.len() + ii]);
    }
    assert(suffix(buf, pos + a.len()) =~= b);
}

// ---------------------------------------------------------------------------
// Encoders
// ---------------------------------------------------------------------------

/// Appends the 8-byte encoding of an integer.
pub fn put_u64(out: &mut Vec<u8>, x: u64)
    ensures
        final(out)@ == old(out)@ + enc_u64(x),
{
    out.push((x & 0xff) as u8);
    out.push(((x >> 8) & 0xff) as u8);
    out.push(((x >> 16) & 0xff) as u8);
    out.push(((x >> 24) & 0xff) as u8);
    out.push(((x >> 32) & 0xff) as u8);
    out.push(((x >> 40) & 0xff) as u8);
    out.push(((x >> 48) & 0xff) as u8);
    out.push(((x >> 56) & 0xff) as u8);
    proof {
        assert(out@ =~= old(out)@ + enc_u64(x));
    }
}

/// Appends a tag byte.
pub fn put_bool(out: &mut Vec<u8>, b: bool)
    ensures
        final(out)@ == old(out)@ + enc_bool(b),
{
    out.push(if b { 1u8 } else { 0u8 });
    proof {
        assert(out@ =~= old(out)@ + enc_bool(b));
    }
}

/// Appends a length-prefixed byte string.
pub fn put_bytes(out: &mut Vec<u8>, b: &Vec<u8>)
    ensures
        final(out)@ == old(out)@ + enc_bytes(b@),
        b@.len() <= u64::MAX,
{
    proof {
        vstd::std_specs::vec::axiom_spec_len(b);
    }
    put_u64(out, b.len() as u64);
    let ghost mid = out@;
    let mut i: usize = 0;
    while i < b.len()
        invariant
            i <= b@.len(),
            out@ == mid + b@.subrange(0, i as int),
        decreases b@.len() - i,
    {
        out.push(b[i]);
        proof {
            assert(out@ =~= mid + b@.subrange(0, i + 1));
        }
        i += 1;
    }
    proof {
        assert(b@.subrange(0, b@.len() as int) =~= b@);
        assert(out@ =~= old(out)@ + enc_bytes(b@));
    }
}

/// Appends a length-prefixed text string as UTF-8.
pub fn put_string(out: &mut Vec<u8>, s: &String)
    ensures
        final(out)@ == old(out)@ + enc_str(s@),
        vstd::utf8::encode_utf8(s@).len() <= u64::MAX,
{
    let bytes = s.as_str().as_bytes_vec();
    put_bytes(out, &bytes);
}

/// Appends a principal's raw bytes, length-prefixed.
pub fn put_principal(out: &mut Vec<u8>, p: &Principal)
    ensures
        final(out)@ == old(out)@ + enc_principal(p@),
        p@.len() <= u64::MAX,
{
    put_bytes(out, p.as_bytes());
}

/// Appends an optional integer.
pub fn put_opt_u64(out: &mut Vec<u8>, o: &Option<u64>)
    ensures
        final(out)@ == old(out)@ + enc_opt_u64(*o),
{
    match o {
        None => {
            out.push(0u8);
            proof {
                assert(out@ =~= old(out)@ + enc_opt_u64(*o));
            }
        }
        Some(x) => {
            out.push(1u8);
            put_u64(out, *x);
            proof {
                assert(out@ =~= old(out)@ + enc_opt_u64(*o));
            }
        }
    }
}

/// Appends an optional principal.
pub fn put_opt_principal(out: &mut Vec<u8>, o: &Option<Principal>)
    ensures
        final(out)@ == old(out)@ + enc_opt_principal(crate::types::opt_principal_view(*o)),
        crate::types::opt_principal_view(*o) matches Some(y) ==> y.len() <= u64::MAX,
{
    match o {
        None => {
            out.push(0u8);
            proof {
                assert(out@ =~= old(out)@ + enc_opt_principal(
                    crate::types::opt_principal_view(*o),
                ));
            }
        }
        Some(p) => {
            out.push(1u8);
            put_principal(out, p);
            proof {
                assert(out@ =~= old(out)@ + enc_opt_principal(
                    crate::types::opt_principal_view(*o),
                ));
            }
        }
    }
}

/// Appends an optional string.
pub fn put_opt_string(out: &mut Vec<u8>, o: &Option<String>)
    ensures
        final(out)@ == old(out)@ + enc_opt_str(crate::types::opt_string_view(*o)),
        crate::types::opt_string_view(*o) matches Some(y) ==> vstd::utf8::encode_utf8(
            y,
        ).len() <= u64::MAX,
{
    match o {
        None => {
            out.push(0u8);
            proof {
                assert(out@ =~= old(out)@ + enc_opt_str(crate::types::opt_string_view(*o)));
            }
        }
        Some(s) => {
            out.push(1u8);
            put_string(out, s);
            proof {
                assert(out@ =~= old(out)@ + enc_opt_str(crate::types::opt_string_view(*o)));
            }
        }
    }
}

// ---------------------------------------------------------------------------
// Decoders
// ---------------------------------------------------------------------------

/// The still-unread part of the buffer.
pub open spec fn suffix(buf: Seq<u8>, pos: int) -> Seq<u8> {
    buf.subrange(pos, buf.len() as int)
}

/// Reads an 8-byte integer.
pub fn get_u64(buf: &Vec<u8>, pos: usize) -> (r: Option<(u64, usize)>)
    ensures
        forall|xv: u64, tail: Seq<u8>|
            pos <= buf@.len() && suffix(buf@, pos as int) == #[trigger] (enc_u64(xv) + tail)
                ==> (r matches Some(p) && p.0 == xv && p.1 == pos + 8),
{
    if buf.len() < 8 || pos > buf.len() - 8 {
        proof {
            assert forall|xv: u64, tail: Seq<u8>|
                pos <= buf@.len() && suffix(buf@, pos as int) == #[trigger] (enc_u64(xv) + tail)
                    implies false by {
                assert(suffix(buf@, pos as int).len() == buf@.len() - pos);
                assert((enc_u64(xv) + tail).len() >= 8);
            }
        }
        return None;
    }
    let b0 = buf[pos];
    let b1 = buf[pos + 1];
    let b2 = buf[pos + 2];
    let b3 = buf[pos + 3];
    let b4 = buf[pos + 4];
    let b5 = buf[pos + 5];
    let b6 = buf[pos + 6];
    let b7 = buf[pos + 7];
    let x = (b0 as u64) | ((b1 as u64) << 8) | ((b2 as u64) << 16) | ((b3 as u64) << 24) | ((b4
        as u64) << 32) | ((b5 as u64) << 40) | ((b6 as u64) << 48) | ((b7 as u64) << 56);
    proof {
        assert forall|xv: u64, tail: Seq<u8>|
            pos <= buf@.len() && suffix(buf@, pos as int) == #[trigger] (enc_u64(xv) + tail)
                implies x == xv by {
            let s = suffix(buf@, pos as int);
            assert(s[0] == (xv & 0xff) as u8);
            assert(s[1] == ((xv >> 8) & 0xff) as u8);
            assert(s[2] == ((xv >> 16) & 0xff) as u8);
            assert(s[3] == ((xv >> 24) & 0xff) as u8);
            assert(s[4] == ((xv >> 32) & 0xff) as u8);
            assert(s[5] == ((xv >> 40) & 0xff) as u8);
            assert(s[6] == ((xv >> 48) & 0xff) as u8);
            assert(s[7] == ((xv >> 56) & 0xff) as u8);
            assert(b0 == s[0] && b1 == s[1] && b2 == s[2] && b3 == s[3] && b4 == s[4] && b5 == s[5]
                && b6 == s[6] && b7 == s[7]);
            lemma_u64_le_roundtrip(xv, b0, b1, b2, b3, b4, b5, b6, b7);
        }
    }
    Some((x, pos + 8))
}

/// Reads a tag byte as a boolean.
pub fn get_bool(buf: &Vec<u8>, pos: usize) -> (r: Option<(bool, usize)>)
    ensures
        forall|xv: bool, tail: Seq<u8>|
            pos <= buf@.len() && suffix(buf@, pos as int) == #[trigger] (enc_bool(xv) + tail)
                ==> (r matches Some(p) && p.0 == xv && p.1 == pos + 1),
{
    if pos >= buf.len() {
        proof {
            assert forall|xv: bool, tail: Seq<u8>|
                pos <= buf@.len() && suffix(buf@, pos as int) == #[trigger] (enc_bool(xv) + tail)
                    implies false by {
                assert(suffix(buf@, pos as int).len() == buf@.len() - pos);
                assert((enc_bool(xv) + tail).len() >= 1);
            }
        }
        return None;
    }
    let b = buf[pos];
    proof {
        assert forall|xv: bool, tail: Seq<u8>|
            pos <= buf@.len() && suffix(buf@, pos as int) == #[trigger] (enc_bool(xv) + tail)
                implies (b == 1) == xv && b <= 1 by {
            let s = suffix(buf@, pos as int);
            assert(s[0] == if xv { 1u8 } else { 0u8 });
            assert(b == s[0]);
        }
    }
    if b == 0 {
        Some((false, pos + 1))
    } else if b == 1 {
        Some((true, pos + 1))
    } else {
        proof {
            assert forall|xv: bool, tail: Seq<u8>|
                pos <= buf@.len() && suffix(buf@, pos as int) == #[trigger] (enc_bool(xv) + tail)
                    implies false by {
                let s = suffix(buf@, pos as int);
                assert(s[0] == if xv { 1u8 } else { 0u8 });
            }
        }
        None
    }
}

/// Reads a length-prefixed byte string.
pub fn get_bytes(buf: &Vec<u8>, pos: usize) -> (r: Option<(Vec<u8>, usize)>)
    ensures
        forall|xv: Seq<u8>, tail: Seq<u8>|
            xv.len() <= u64::MAX && pos <= buf@.len() && suffix(buf@, pos as int) == #[trigger] (
            enc_bytes(xv) + tail) ==> (r matches Some(p) && p.0@ == xv && p.1 == pos + enc_bytes(
                xv,
            ).len()),
{
    let (n, pos1) = match get_u64(buf, pos) {
        Some(p) => p,
        None => {
            proof {
                assert forall|xv: Seq<u8>, tail: Seq<u8>|
                    xv.len() <= u64::MAX && pos <= buf@.len() && suffix(buf@, pos as int)
                        == #[trigger] (enc_bytes(xv) + tail) implies false by {
                    assert(suffix(buf@, pos as int) =~= enc_u64(xv.len() as u64) + (xv + tail));
                }
            }
            return None;
        }
    };
    proof {
        assert forall|xv: Seq<u8>, tail: Seq<u8>|
            xv.len() <= u64::MAX && pos <= buf@.len() && suffix(buf@, pos as int) == #[trigger] (
            enc_bytes(xv) + tail) implies n == xv.len() && pos1 == pos + 8 by {
            assert(suffix(buf@, pos as int) =~= enc_u64(xv.len() as u64) + (xv + tail));
        }
    }
    if n > buf.len() as u64 || pos1 as u64 > buf.len() as u64 - n {
        proof {
            assert forall|xv: Seq<u8>, tail: Seq<u8>|
                xv.len() <= u64::MAX && pos <= buf@.len() && suffix(buf@, pos as int)
                    == #[trigger] (enc_bytes(xv) + tail) implies false by {
                assert(suffix(buf@, pos as int).len() == buf@.len() - pos);
                assert((enc_bytes(xv) + tail).len() == 8 + xv.len() + tail.len());
            }
        }
        return None;
    }
    let count = n as usize;
    proof {
        vstd::std_specs::vec::axiom_spec_len(buf);
    }
    let mut v: Vec<u8> = Vec::new();
    let mut i: usize = 0;
    while i < count
        invariant
            i <= count,
            pos1 + count <= buf@.len(),
            buf@.len() <= usize::MAX,
            v@ == buf@.subrange(pos1 as int, pos1 + i),
        decreases count - i,
    {
        v.push(buf[pos1 + i]);
        proof {
            assert(v@ =~= buf@.subrange(pos1 as int, pos1 + i + 1));
        }
        i += 1;
    }
    proof {
        assert forall|xv: Seq<u8>, tail: Seq<u8>|
            xv.len() <= u64::MAX && pos <= buf@.len() && suffix(buf@, pos as int) == #[trigger] (
            enc_bytes(xv) + tail) implies v@ == xv by {
            assert(suffix(buf@, pos as int) =~= enc_u64(xv.len() as u64) + (xv + tail));
            assert forall|j: int| 0 <= j < xv.len() implies v@[j] == xv[j] by {
                assert(v@[j] == buf@[pos1 + j]);
                assert(buf@[pos1 + j] == suffix(buf@, pos as int)[8 + j]);
                assert((enc_u64(xv.len() as u64) + (xv + tail))[8 + j] == xv[j]);
            }
            assert(v@ =~= xv);
        }
    }
    Some((v, pos1 + count))
}

/// Builds text from UTF-8 bytes. Relies on `String::from_utf8`: it
/// succeeds exactly on valid UTF-8 and the result's UTF-8 bytes are the
/// input.
#[verifier::external_body]
fn bytes_to_string(v: Vec<u8>) -> (r: Option<String>)
    ensures
        vstd::utf8::valid_utf8(v@) ==> r is Some,
        r matches Some(s) ==> vstd::utf8::encode_utf8(s@) == v@,
{
    String::from_utf8(v).ok()
}

/// Reads a length-prefixed text string.
pub fn get_string(buf: &Vec<u8>, pos: usize) -> (r: Option<(String, usize)>)
    ensures
        forall|xv: Seq<char>, tail: Seq<u8>|
            vstd::utf8::encode_utf8(xv).len() <= u64::MAX && pos <= buf@.len() && suffix(
                buf@,
                pos as int,
            ) == #[trigger] (enc_str(xv) + tail) ==> (r matches Some(p) && p.0@ == xv && p.1 == pos
                + enc_str(xv).len()),
{
    let (bytes, pos1) = match get_bytes(buf, pos) {
        Some(p) => p,
        None => {
            proof {
                assert forall|xv: Seq<char>, tail: Seq<u8>|
                    vstd::utf8::encode_utf8(xv).len() <= u64::MAX && pos <= buf@.len() && suffix(
                        buf@,
                        pos as int,
                    ) == #[trigger] (enc_str(xv) + tail) implies false by {
                    assert(suffix(buf@, pos as int) =~= enc_bytes(
                        vstd::utf8::encode_utf8(xv),
                    ) + tail);
                }
            }
            return None;
        }
    };
    let ghost bv = bytes@;
    let s = match bytes_to_string(bytes) {
        Some(s) => s,
        None => {
            proof {
                assert forall|xv: Seq<char>, tail: Seq<u8>|
                    vstd::utf8::encode_utf8(xv).len() <= u64::MAX && pos <= buf@.len() && suffix(
                        buf@,
                        pos as int,
                    ) == #[trigger] (enc_str(xv) + tail) implies false by {
                    assert(suffix(buf@, pos as int) =~= enc_bytes(
                        vstd::utf8::encode_utf8(xv),
                    ) + tail);
                    assert(bv == vstd::utf8::encode_utf8(xv));
                    vstd::utf8::encode_utf8_valid_utf8(xv);
                }
            }
            return None;
        }
    };
    proof {
        assert forall|xv: Seq<char>, tail: Seq<u8>|
            vstd::utf8::encode_utf8(xv).len() <= u64::MAX && pos <= buf@.len() && suffix(
                buf@,
                pos as int,
            ) == #[trigger] (enc_str(xv) + tail) implies s@ == xv && pos1 == pos + enc_str(
                xv,
            ).len() by {
            assert(suffix(buf@, pos as int) =~= enc_bytes(vstd::utf8::encode_utf8(xv)) + tail);
            assert(bv == vstd::utf8::encode_utf8(xv));
            assert(vstd::utf8::encode_utf8(s@) == vstd::utf8::encode_utf8(xv));
            vstd::utf8::encode_utf8_decode_utf8(s@);
            vstd::utf8::encode_utf8_decode_utf8(xv);
            assert(s@ =~= xv);
        }
    }
    Some((s, pos1))
}

/// Reads an optional integer.
pub fn get_opt_u64(buf: &Vec<u8>, pos: usize) -> (r: Option<(Option<u64>, usize)>)
    ensures
        forall|xv: Option<u64>, tail: Seq<u8>|
            pos <= buf@.len() && suffix(buf@, pos as int) == #[trigger] (enc_opt_u64(xv) + tail)
                ==> (r matches Some(p) && p.0 == xv && p.1 == pos + enc_opt_u64(xv).len()),
{
    if pos >= buf.len() {
        proof {
            assert forall|xv: Option<u64>, tail: Seq<u8>|
                pos <= buf@.len() && suffix(buf@, pos as int) == #[trigger] (enc_opt_u64(xv)
                    + tail) implies false by {
                assert(suffix(buf@, pos as int).len() == buf@.len() - pos);
                assert((enc_opt_u64(xv) + tail).len() >= 1);
            }
        }
        return None;
    }
    let b = buf[pos];
    proof {
        assert forall|xv: Option<u64>, tail: Seq<u8>|
            pos <= buf@.len() && suffix(buf@, pos as int) == #[trigger] (enc_opt_u64(xv) + tail)
                implies b == (match xv {
                None => 0u8,
                Some(_) => 1u8,
            }) by {
            let s = suffix(buf@, pos as int);
            assert(b == s[0]);
            match xv {
                None => {
                    assert(s[0] == 0u8);
                }
                Some(x) => {
                    assert(s[0] == (seq![1u8] + enc_u64(x))[0]);
                }
            }
        }
    }
    if b == 0 {
        return Some((None, pos + 1));
    }
    if b != 1 {
        return None;
    }
    match get_u64(buf, pos + 1) {
        Some((x, pos2)) => {
            proof {
                assert forall|xv: Option<u64>, tail: Seq<u8>|
                    pos <= buf@.len() && suffix(buf@, pos as int) == #[trigger] (enc_opt_u64(xv)
                        + tail) implies (xv matches Some(y) && x == y && pos2 == pos + 1 + 8) by {
                    match xv {
                        None => {
                            assert(false);
                        }
                        Some(y) => {
                            assert(suffix(buf@, pos as int) =~= seq![1u8] + (enc_u64(y) + tail));
                            lemma_suffix_split(buf@, pos as int, seq![1u8], enc_u64(y) + tail);
                            assert(suffix(buf@, pos + 1) == enc_u64(y) + tail);
                        }
                    }
                }
            }
            Some((Some(x), pos2))
        }
        None => {
            proof {
                assert forall|xv: Option<u64>, tail: Seq<u8>|
                    pos <= buf@.len() && suffix(buf@, pos as int) == #[trigger] (enc_opt_u64(xv)
                        + tail) implies false by {
                    match xv {
                        None => {}
                        Some(y) => {
                            assert(suffix(buf@, pos as int) =~= seq![1u8] + (enc_u64(y) + tail));
                            lemma_suffix_split(buf@, pos as int, seq![1u8], enc_u64(y) + tail);
                            assert(suffix(buf@, pos + 1) == enc_u64(y) + tail);
                        }
                    }
                }
            }
            None
        }
    }
}

/// Reads a length-prefixed principal.
pub fn get_principal(buf: &Vec<u8>, pos: usize) -> (r: Option<(Principal, usize)>)
    ensures
        forall|xv: Seq<u8>, tail: Seq<u8>|
            xv.len() <= u64::MAX && pos <= buf@.len() && suffix(buf@, pos as int) == #[trigger] (
            enc_principal(xv) + tail) ==> (r matches Some(p) && p.0@ == xv && p.1 == pos
                + enc_principal(xv).len()),
{
    match get_bytes(buf, pos) {
        Some((bytes, pos1)) => Some((Principal::from_bytes(bytes), pos1)),
        None => None,
    }
}


// ---------------------------------------------------------------------------
// Typed values
// ---------------------------------------------------------------------------

/// The tag byte of a typed value.
pub open spec fn tag_of(v: GenericValueV) -> u8 {
    match v {
        GenericValueV::Bool(_) => 0u8,
        GenericValueV::Text(_) => 1u8,
        GenericValueV::Blob(_) => 2u8,
        GenericValueV::Principal(_) => 3u8,
        GenericValueV::Nat64(_) => 4u8,
        GenericValueV::Int64(_) => 5u8,
    }
}

/// The payload that follows a typed value's tag.
pub open spec fn enc_payload(v: GenericValueV) -> Seq<u8> {
    match v {
        GenericValueV::Bool(b) => enc_bool(b),
        GenericValueV::Text(s) => enc_str(s),
        GenericValueV::Blob(b) => enc_bytes(b),
        GenericValueV::Principal(p) => enc_principal(p),
        GenericValueV::Nat64(x) => enc_u64(x),
        GenericValueV::Int64(x) => enc_u64(x as u64),
    }
}

/// A typed value: tag, then payload.
pub open spec fn enc_value(v: GenericValueV) -> Seq<u8> {
    seq![tag_of(v)] + enc_payload(v)
}

/// The value's variable-length parts fit a length prefix.
pub open spec fn value_fits(v: GenericValueV) -> bool {
    match v {
        GenericValueV::Text(s) => vstd::utf8::encode_utf8(s).len() <= u64::MAX,
        GenericValueV::Blob(b) => b.len() <= u64::MAX,
        GenericValueV::Principal(p) => p.len() <= u64::MAX,
        _ => true,
    }
}

/// Appends a typed value.
pub fn put_value(out: &mut Vec<u8>, v: &GenericValue)
    ensures
        final(out)@ == old(out)@ + enc_value(v@),
        value_fits(v@),
{
    match v {
        GenericValue::BoolContent(b) => {
            out.push(0u8);
            put_bool(out, *b);
        }
        GenericValue::TextContent(s) => {
            out.push(1u8);
            put_string(out, s);
        }
        GenericValue::BlobContent(b) => {
            out.push(2u8);
            put_bytes(out, b);
        }
        GenericValue::Principal(p) => {
            out.push(3u8);
            put_principal(out, p);
        }
        GenericValue::Nat64Content(x) => {
            out.push(4u8);
            put_u64(out, *x);
        }
        GenericValue::Int64Content(x) => {
            out.push(5u8);
            put_u64(out, #[verifier::truncate] (*x as u64));
        }
    }
    proof {
        assert(out@ =~= old(out)@ + enc_value(v@));
    }
}

/// Reads a typed value.
pub fn get_value(buf: &Vec<u8>, pos: usize) -> (r: Option<(GenericValue, usize)>)
    ensures
        forall|xv: GenericValueV, tail: Seq<u8>|
            value_fits(xv) && pos <= buf@.len() && suffix(buf@, pos as int) == #[trigger] (
            enc_value(xv) + tail) ==> (r matches Some(p) && p.0@ == xv && p.1 == pos + enc_value(
                xv,
            ).len()),
{
    if pos >= buf.len() {
        proof {
            assert forall|xv: GenericValueV, tail: Seq<u8>|
                value_fits(xv) && pos <= buf@.len() && suffix(buf@, pos as int) == #[trigger] (
                enc_value(xv) + tail) implies false by {
                assert(suffix(buf@, pos as int).len() == buf@.len() - pos);
                assert((enc_value(xv) + tail).len() >= 1);
            }
        }
        return None;
    }
    let tag = buf[pos];
    proof {
        assert forall|xv: GenericValueV, tail: Seq<u8>|
            value_fits(xv) && pos <= buf@.len() && suffix(buf@, pos as int) == #[trigger] (
            enc_value(xv) + tail) implies tag == tag_of(xv) && suffix(buf@, pos + 1)
            == enc_payload(xv) + tail by {
            assert(suffix(buf@, pos as int)[0] == (enc_value(xv) + tail)[0]);
            assert(suffix(buf@, pos as int) =~= seq![tag_of(xv)] + (enc_payload(xv) + tail));
            lemma_suffix_split(buf@, pos as int, seq![tag_of(xv)], enc_payload(xv) + tail);
        }
    }
    if tag == 0 {
        match get_bool(buf, pos + 1) {
            Some((b, pos2)) => Some((GenericValue::BoolContent(b), pos2)),
            None => None,
        }
    } else if tag == 1 {
        match get_string(buf, pos + 1) {
            Some((sv, pos2)) => Some((GenericValue::TextContent(sv), pos2)),
            None => None,
        }
    } else if tag == 2 {
        match get_bytes(buf, pos + 1) {
            Some((bv, pos2)) => Some((GenericValue::BlobContent(bv), pos2)),
            None => None,
        }
    } else if tag == 3 {
        match get_principal(buf, pos + 1) {
            Some((pv, pos2)) => Some((GenericValue::Principal(pv), pos2)),
            None => None,
        }
    } else if tag == 4 {
        match get_u64(buf, pos + 1) {
            Some((x, pos2)) => Some((GenericValue::Nat64Content(x), pos2)),
            None => None,
        }
    } else if tag == 5 {
        match get_u64(buf, pos + 1) {
            Some((x, pos2)) => {
                let y = #[verifier::truncate] (x as i64);
                proof {
                    assert forall|xv: GenericValueV, tail: Seq<u8>|
                        value_fits(xv) && pos <= buf@.len() && suffix(buf@, pos as int)
                            == #[trigger] (enc_value(xv) + tail) implies (xv matches
                        GenericValueV::Int64(z) && y == z) by {
                        if let GenericValueV::Int64(z) = xv {
                            assert(x == (z as u64));
                            assert(y == z) by (bit_vector)
                                requires
                                    x == (z as u64),
                                    y == (x as i64),
                            ;
                        }
                    }
                }
                Some((GenericValue::Int64Content(y), pos2))
            }
            None => None,
        }
    } else {
        proof {
            assert forall|xv: GenericValueV, tail: Seq<u8>|
                value_fits(xv) && pos <= buf@.len() && suffix(buf@, pos as int) == #[trigger] (
                enc_value(xv) + tail) implies false by {
                assert(tag == tag_of(xv));
            }
        }
        None
    }
}

// ---------------------------------------------------------------------------
// Lists
// ---------------------------------------------------------------------------

/// The concatenation of the encodings of a list's items.
pub open spec fn enc_list<T>(s: Seq<T>, f: spec_fn(T) -> Seq<u8>) -> Seq<u8>
    decreases s.len(),
{
    if s.len() == 0 {
        Seq::<u8>::empty()
    } else {
        f(s[0]) + enc_list(s.drop_first(), f)
    }
}

/// Extending the encoded prefix by one item.
pub proof fn lemma_enc_list_take_snoc<T>(s: Seq<T>, f: spec_fn(T) -> Seq<u8>, j: int)
    requires
        0 <= j < s.len(),
    ensures
        enc_list(s.take(j + 1), f) == enc_list(s.take(j), f) + f(s[j]),
    decreases j,
{
    if j == 0 {
        assert(enc_list(Seq::<T>::empty(), f) == Seq::<u8>::empty());
        assert(s.take(1) =~= seq![s[0]]);
        assert(s.take(1).drop_first() =~= Seq::<T>::empty());
        assert(enc_list(s.take(1), f) == f(s.take(1)[0]) + enc_list(s.take(1).drop_first(), f));
        assert(enc_list(s.take(1), f) =~= f(s[0]));
        assert(s.take(0) =~= Seq::<T>::empty());
        assert(enc_list(s.take(0), f) + f(s[j]) =~= f(s[0]));
    } else {
        let d = s.drop_first();
        lemma_enc_list_take_snoc(d, f, j - 1);
        assert(s.take(j + 1).drop_first() =~= d.take(j));
        assert(s.take(j).drop_first() =~= d.take(j - 1));
        assert(s.take(j + 1)[0] == s[0]);
        assert(s.take(j)[0] == s[0]);
        assert(enc_list(s.take(j + 1), f) == f(s[0]) + enc_list(d.take(j), f));
        assert(enc_list(s.take(j), f) == f(s[0]) + enc_list(d.take(j - 1), f));
        assert(d[j - 1] == s[j]);
        assert(f(s[0]) + (enc_list(d.take(j - 1), f) + f(s[j])) =~= (f(s[0]) + enc_list(
            d.take(j - 1),
            f,
        )) + f(s[j]));
    }
}

/// Peeling the next item off the unencoded remainder.
pub proof fn lemma_enc_list_skip_unfold<T>(s: Seq<T>, f: spec_fn(T) -> Seq<u8>, j: int)
    requires
        0 <= j < s.len(),
    ensures
        enc_list(s.skip(j), f) == f(s[j]) + enc_list(s.skip(j + 1), f),
{
    assert(s.skip(j).len() == s.len() - j);
    assert(s.skip(j)[0] == s[j]);
    assert(s.skip(j).drop_first() =~= s.skip(j + 1));
}

/// An encoded list splits at any point into prefix and remainder.
pub proof fn lemma_enc_list_split<T>(s: Seq<T>, f: spec_fn(T) -> Seq<u8>, j: int)
    requires
        0 <= j <= s.len(),
    ensures
        enc_list(s, f) == enc_list(s.take(j), f) + enc_list(s.skip(j), f),
    decreases j,
{
    if j == 0 {
        assert(enc_list(Seq::<T>::empty(), f) == Seq::<u8>::empty());
        assert(s.take(0) =~= Seq::<T>::empty());
        assert(s.skip(0) =~= s);
        assert(enc_list(s.take(0), f) + enc_list(s.skip(0), f) =~= enc_list(s, f));
    } else {
        lemma_enc_list_split(s, f, j - 1);
        lemma_enc_list_skip_unfold(s, f, j - 1);
        lemma_enc_list_take_snoc(s, f, j - 1);
        assert(enc_list(s.take(j - 1), f) + (f(s[j - 1]) + enc_list(s.skip(j), f)) =~= (enc_list(
            s.take(j - 1),
            f,
        ) + f(s[j - 1])) + enc_list(s.skip(j), f));
    }
}


/// Reads an optional value.
pub fn get_opt_principal(buf: &Vec<u8>, pos: usize) -> (r: Option<(Option<Principal>, usize)>)
    ensures
        forall|xv: Option<Seq<u8>>, tail: Seq<u8>|
            (xv matches Some(y) ==> y.len() <= u64::MAX) && pos <= buf@.len() && suffix(buf@, pos as int) == #[trigger] (enc_opt_principal(xv)
                + tail) ==> (r matches Some(p) && crate::types::opt_principal_view(p.0) == xv && p.1 == pos + enc_opt_principal(
                xv,
            ).len()),
{
    if pos >= buf.len() {
        proof {
            assert forall|xv: Option<Seq<u8>>, tail: Seq<u8>|
                (xv matches Some(y) ==> y.len() <= u64::MAX) && pos <= buf@.len() && suffix(buf@, pos as int) == #[trigger] (enc_opt_principal(
                xv) + tail) implies false by {
                assert(suffix(buf@, pos as int).len() == buf@.len() - pos);
                assert((enc_opt_principal(xv) + tail).len() >= 1);
            }
        }
        return None;
    }
    let b = buf[pos];
    proof {
        assert forall|xv: Option<Seq<u8>>, tail: Seq<u8>|
            (xv matches Some(y) ==> y.len() <= u64::MAX) && pos <= buf@.len() && suffix(buf@, pos as int) == #[trigger] (enc_opt_principal(xv)
                + tail) implies b == (match xv {
                None => 0u8,
                Some(_) => 1u8,
            }) && (xv matches Some(y) ==> suffix(buf@, pos + 1) == enc_principal(y) + tail) by {
            let se = suffix(buf@, pos as int);
            assert(b == se[0]);
            match xv {
                None => {
                    assert(se[0] == 0u8);
                }
                Some(y) => {
                    assert(se =~= seq![1u8] + (enc_principal(y) + tail));
                    lemma_suffix_split(buf@, pos as int, seq![1u8], enc_principal(y) + tail);
                }
            }
        }
    }
    if b == 0 {
        return Some((None, pos + 1));
    }
    if b != 1 {
        return None;
    }
    match get_principal(buf, pos + 1) {
        Some((x, pos2)) => Some((Some(x), pos2)),
        None => None,
    }
}

/// Reads an optional value.
pub fn get_opt_string(buf: &Vec<u8>, pos: usize) -> (r: Option<(Option<String>, usize)>)
    ensures
        forall|xv: Option<Seq<char>>, tail: Seq<u8>|
            (xv matches Some(y) ==> vstd::utf8::encode_utf8(y).len() <= u64::MAX) && pos <= buf@.len() && suffix(buf@, pos as int) == #[trigger] (enc_opt_str(xv)
                + tail) ==> (r matches Some(p) && crate::types::opt_string_view(p.0) == xv && p.1 == pos + enc_opt_str(
                xv,
            ).len()),
{
    if pos >= buf.len() {
        proof {
            assert forall|xv: Option<Seq<char>>, tail: Seq<u8>|
                (xv matches Some(y) ==> vstd::utf8::encode_utf8(y).len() <= u64::MAX) && pos <= buf@.len() && suffix(buf@, pos as int) == #[trigger] (enc_opt_str(
                xv) + tail) implies false by {
                assert(suffix(buf@, pos as int).len() == buf@.len() - pos);
                assert((enc_opt_str(xv) + tail).len() >= 1);
            }
        }
        return None;
    }
    let b = buf[pos];
    proof {
        assert forall|xv: Option<Seq<char>>, tail: Seq<u8>|
            (xv matches Some(y) ==> vstd::utf8::encode_utf8(y).len() <= u64::MAX) && pos <= buf@.len() && suffix(buf@, pos as int) == #[trigger] (enc_opt_str(xv)
                + tail) implies b == (match xv {
                None => 0u8,
                Some(_) => 1u8,
            }) && (xv matches Some(y) ==> suffix(buf@, pos + 1) == enc_str(y) + tail) by {
            let se = suffix(buf@, pos as int);
            assert(b == se[0]);
            match xv {
                None => {
                    assert(se[0] == 0u8);
                }
                Some(y) => {
                    assert(se =~= seq![1u8] + (enc_str(y) + tail));
                    lemma_suffix_split(buf@, pos as int, seq![1u8], enc_str(y) + tail);
                }
            }
        }
    }
    if b == 0 {
        return Some((None, pos + 1));
    }
    if b != 1 {
        return None;
    }
    match get_string(buf, pos + 1) {
        Some((x, pos2)) => Some((Some(x), pos2)),
        None => None,
    }
}

// ---------------------------------------------------------------------------
// Property pairs
// ---------------------------------------------------------------------------

/// A (name, typed value) pair.
pub open spec fn enc_pair(p: (Seq<char>, GenericValueV)) -> Seq<u8> {
    enc_str(p.0) + enc_value(p.1)
}

/// The pair's variable-length parts fit their length prefixes.
pub open spec fn pair_fits(p: (Seq<char>, GenericValueV)) -> bool {
    vstd::utf8::encode_utf8(p.0).len() <= u64::MAX && value_fits(p.1)
}

/// Appends one (name, typed value) pair.
pub fn put_pair(out: &mut Vec<u8>, p: &(String, GenericValue))
    ensures
        final(out)@ == old(out)@ + enc_pair((p.0@, p.1@)),
        pair_fits((p.0@, p.1@)),
{
    put_string(out, &p.0);
    put_value(out, &p.1);
    proof {
        assert(out@ =~= old(out)@ + enc_pair((p.0@, p.1@)));
    }
}

/// Reads one (name, typed value) pair.
pub fn get_pair(buf: &Vec<u8>, pos: usize) -> (r: Option<((String, GenericValue), usize)>)
    ensures
        forall|xv: (Seq<char>, GenericValueV), tail: Seq<u8>|
            pair_fits(xv) && pos <= buf@.len() && suffix(buf@, pos as int) == #[trigger] (
            enc_pair(xv) + tail) ==> (r matches Some(p) && (p.0.0@, p.0.1@) == xv && p.1 == pos
                + enc_pair(xv).len()),
{
    proof {
        assert forall|xv: (Seq<char>, GenericValueV), tail: Seq<u8>|
            pair_fits(xv) && pos <= buf@.len() && suffix(buf@, pos as int) == #[trigger] (
            enc_pair(xv) + tail) implies suffix(buf@, pos as int) == enc_str(xv.0) + (enc_value(
            xv.1) + tail) by {
            assert(suffix(buf@, pos as int) =~= enc_str(xv.0) + (enc_value(xv.1) + tail));
        }
    }
    let (name, pos1) = match get_string(buf, pos) {
        Some(p) => p,
        None => {
            proof {
                assert forall|xv: (Seq<char>, GenericValueV), tail: Seq<u8>|
                    pair_fits(xv) && pos <= buf@.len() && suffix(buf@, pos as int) == #[trigger] (
                    enc_pair(xv) + tail) implies false by {
                    assert(suffix(buf@, pos as int) =~= enc_str(xv.0) + (enc_value(xv.1) + tail));
                }
            }
            return None;
        }
    };
    proof {
        assert forall|xv: (Seq<char>, GenericValueV), tail: Seq<u8>|
            pair_fits(xv) && pos <= buf@.len() && suffix(buf@, pos as int) == #[trigger] (
            enc_pair(xv) + tail) implies name@ == xv.0 && pos1 == pos + enc_str(xv.0).len()
            && suffix(buf@, pos1 as int) == enc_value(xv.1) + tail by {
            lemma_suffix_split(buf@, pos as int, enc_str(xv.0), enc_value(xv.1) + tail);
        }
    }
    let (value, pos2) = match get_value(buf, pos1) {
        Some(p) => p,
        None => {
            proof {
                assert forall|xv: (Seq<char>, GenericValueV), tail: Seq<u8>|
                    pair_fits(xv) && pos <= buf@.len() && suffix(buf@, pos as int) == #[trigger] (
                    enc_pair(xv) + tail) implies false by {
                    assert(suffix(buf@, pos as int) =~= enc_str(xv.0) + (enc_value(xv.1) + tail));
                    lemma_suffix_split(buf@, pos as int, enc_str(xv.0), enc_value(xv.1) + tail);
                }
            }
            return None;
        }
    };
    proof {
        assert forall|xv: (Seq<char>, GenericValueV), tail: Seq<u8>|
            pair_fits(xv) && pos <= buf@.len() && suffix(buf@, pos as int) == #[trigger] (
            enc_pair(xv) + tail) implies (name@, value@) == xv && pos2 == pos + enc_pair(
            xv,
        ).len() by {
            assert(suffix(buf@, pos as int) =~= enc_str(xv.0) + (enc_value(xv.1) + tail));
            lemma_suffix_split(buf@, pos as int, enc_str(xv.0), enc_value(xv.1) + tail);
            assert(name@ == xv.0);
            assert(value@ == xv.1);
        }
    }
    Some(((name, value), pos2))
}


// ---------------------------------------------------------------------------
// Identifier lists
// ---------------------------------------------------------------------------

/// An identifier list: length prefix, then 8-byte identifiers.
pub open spec fn enc_ids(s: Seq<u64>) -> Seq<u8> {
    enc_u64(s.len() as u64) + enc_list(s, |x: u64| enc_u64(x))
}

/// The list fits its length prefix.
pub open spec fn ids_fit(s: Seq<u64>) -> bool {
    s.len() <= u64::MAX
}

/// Appends an identifier list.
pub fn put_ids(out: &mut Vec<u8>, v: &Vec<u64>)
    ensures
        final(out)@ == old(out)@ + enc_ids(v@),
        ids_fit(v@),
{
    proof {
        vstd::std_specs::vec::axiom_spec_len(v);
    }
    put_u64(out, v.len() as u64);
    let ghost start = out@;
    let mut i: usize = 0;
    while i < v.len()
        invariant
            i <= v@.len(),
            out@ == start + enc_list(v@.take(i as int), |x: u64| enc_u64(x)),
        decreases v@.len() - i,
    {
        put_u64(out, v[i]);
        proof {
            lemma_enc_list_take_snoc(v@, |x: u64| enc_u64(x), i as int);
            assert(out@ =~= start + enc_list(v@.take(i + 1), |x: u64| enc_u64(x)));
        }
        i += 1;
    }
    proof {
        assert(v@.take(v@.len() as int) =~= v@);
        assert(out@ =~= old(out)@ + enc_ids(v@));
    }
}

/// Reads an identifier list.
pub fn get_ids(buf: &Vec<u8>, pos: usize) -> (r: Option<(Vec<u64>, usize)>)
    ensures
        forall|xv: Seq<u64>, tail: Seq<u8>|
            ids_fit(xv) && pos <= buf@.len() && suffix(buf@, pos as int) == #[trigger] (enc_ids(
            xv) + tail) ==> (r matches Some(p) && p.0@ == xv && p.1 == pos + enc_ids(xv).len()),
{
    proof {
        assert forall|xv: Seq<u64>, tail: Seq<u8>|
            ids_fit(xv) && pos <= buf@.len() && suffix(buf@, pos as int) == #[trigger] (enc_ids(
            xv) + tail) implies suffix(buf@, pos as int) == enc_u64(xv.len() as u64) + (enc_list(
            xv,
            |x: u64| enc_u64(x),
        ) + tail) by {
            assert(suffix(buf@, pos as int) =~= enc_u64(xv.len() as u64) + (enc_list(
                xv,
                |x: u64| enc_u64(x),
            ) + tail));
        }
    }
    let (n, pos1) = match get_u64(buf, pos) {
        Some(p) => p,
        None => {
            return None;
        }
    };
    let mut v: Vec<u64> = Vec::new();
    let mut c: u64 = 0;
    let mut posc = pos1;
    proof {
        assert forall|xv: Seq<u64>, tail: Seq<u8>|
            ids_fit(xv) && pos <= buf@.len() && suffix(buf@, pos as int) == #[trigger] (enc_ids(
            xv) + tail) implies {
                &&& n == xv.len()
                &&& pos1 == pos + 8
                &&& v@ == xv.take(0)
                &&& posc == pos1 + enc_list(xv.take(0), |x: u64| enc_u64(x)).len()
                &&& posc <= buf@.len()
            } by {
            let f = |x: u64| enc_u64(x);
            assert(suffix(buf@, pos as int) =~= enc_u64(xv.len() as u64) + (enc_list(xv, f)
                + tail));
            lemma_suffix_split(buf@, pos as int, enc_u64(xv.len() as u64), enc_list(xv, f) + tail);
            assert(xv.take(0) =~= Seq::<u64>::empty());
            assert(enc_list(Seq::<u64>::empty(), f) == Seq::<u8>::empty());
            assert(v@ =~= xv.take(0));
        }
    }
    while c < n
        invariant
            c <= n,
            v@.len() == c,
            forall|xv: Seq<u64>, tail: Seq<u8>|
                ids_fit(xv) && pos <= buf@.len() && suffix(buf@, pos as int) == #[trigger] (
                enc_ids(xv) + tail) ==> {
                    &&& n == xv.len()
                    &&& c <= xv.len()
                    &&& pos1 == pos + 8
                    &&& v@ == xv.take(c as int)
                    &&& posc == pos1 + enc_list(xv.take(c as int), |x: u64| enc_u64(x)).len()
                    &&& posc <= buf@.len()
                },
        decreases n - c,
    {
        match get_u64(buf, posc) {
            Some((x, p2)) => {
                proof {
                    assert forall|xv: Seq<u64>, tail: Seq<u8>|
                        ids_fit(xv) && pos <= buf@.len() && suffix(buf@, pos as int)
                            == #[trigger] (enc_ids(xv) + tail) implies {
                            &&& x == xv[c as int]
                            &&& p2 == posc + 8
                            &&& v@.push(x) == xv.take(c + 1)
                            &&& p2 == pos1 + enc_list(xv.take(c + 1), |x: u64| enc_u64(x)).len()
                            &&& p2 <= buf@.len()
                        } by {
                        let f = |x: u64| enc_u64(x);
                        assert(suffix(buf@, pos as int) =~= enc_u64(xv.len() as u64) + (enc_list(
                            xv,
                            f,
                        ) + tail));
                        lemma_suffix_split(
                            buf@,
                            pos as int,
                            enc_u64(xv.len() as u64),
                            enc_list(xv, f) + tail,
                        );
                        lemma_enc_list_split(xv, f, c as int);
                        assert(suffix(buf@, pos1 as int) =~= enc_list(xv.take(c as int), f) + (
                        enc_list(xv.skip(c as int), f) + tail));
                        lemma_suffix_split(
                            buf@,
                            pos1 as int,
                            enc_list(xv.take(c as int), f),
                            enc_list(xv.skip(c as int), f) + tail,
                        );
                        lemma_enc_list_skip_unfold(xv, f, c as int);
                        assert(suffix(buf@, posc as int) =~= enc_u64(xv[c as int]) + (enc_list(
                            xv.skip(c as int + 1),
                            f,
                        ) + tail));
                        lemma_enc_list_take_snoc(xv, f, c as int);
                        assert(v@.push(x) =~= xv.take(c as int).push(xv[c as int]));
                        assert(xv.take(c as int).push(xv[c as int]) =~= xv.take(c + 1));
                        assert(suffix(buf@, posc as int).len() == buf@.len() - posc);
                    }
                }
                v.push(x);
                posc = p2;
                c += 1;
            }
            None => {
                proof {
                    assert forall|xv: Seq<u64>, tail: Seq<u8>|
                        ids_fit(xv) && pos <= buf@.len() && suffix(buf@, pos as int)
                            == #[trigger] (enc_ids(xv) + tail) implies false by {
                        let f = |x: u64| enc_u64(x);
                        assert(suffix(buf@, pos as int) =~= enc_u64(xv.len() as u64) + (enc_list(
                            xv,
                            f,
                        ) + tail));
                        lemma_suffix_split(
                            buf@,
                            pos as int,
                            enc_u64(xv.len() as u64),
                            enc_list(xv, f) + tail,
                        );
                        lemma_enc_list_split(xv, f, c as int);
                        assert(suffix(buf@, pos1 as int) =~= enc_list(xv.take(c as int), f) + (
                        enc_list(xv.skip(c as int), f) + tail));
                        lemma_suffix_split(
                            buf@,
                            pos1 as int,
                            enc_list(xv.take(c as int), f),
                            enc_list(xv.skip(c as int), f) + tail,
                        );
                        lemma_enc_list_skip_unfold(xv, f, c as int);
                        assert(suffix(buf@, posc as int) =~= enc_u64(xv[c as int]) + (enc_list(
                            xv.skip(c as int + 1),
                            f,
                        ) + tail));
                    }
                }
                return None;
            }
        }
    }
    proof {
        assert forall|xv: Seq<u64>, tail: Seq<u8>|
            ids_fit(xv) && pos <= buf@.len() && suffix(buf@, pos as int) == #[trigger] (enc_ids(
            xv) + tail) implies v@ == xv && posc == pos + enc_ids(xv).len() by {
            assert(xv.take(xv.len() as int) =~= xv);
        }
    }
    Some((v, posc))
}


// ---------------------------------------------------------------------------
// Property lists
// ---------------------------------------------------------------------------

/// Length prefix, then the encoded items.
pub open spec fn enc_props(s: Seq<(Seq<char>, GenericValueV)>) -> Seq<u8> {
    enc_u64(s.len() as u64) + enc_list(s, |x: (Seq<char>, GenericValueV)| enc_pair(x))
}

/// The list and each item fit their length prefixes.
pub open spec fn props_fit(s: Seq<(Seq<char>, GenericValueV)>) -> bool {
    s.len() <= u64::MAX && (forall|j: int| 0 <= j < s.len() ==> pair_fits(#[trigger] s[j]))
}

/// Appends the list.
pub fn put_props(out: &mut Vec<u8>, v: &Vec<(String, GenericValue)>)
    ensures
        final(out)@ == old(out)@ + enc_props(props_view(v@)),
        props_fit(props_view(v@)),
{
    proof {
        vstd::std_specs::vec::axiom_spec_len(v);
    }
    put_u64(out, v.len() as u64);
    let ghost start = out@;
    let ghost xs = props_view(v@);
    let mut i: usize = 0;
    while i < v.len()
        invariant
            i <= v@.len(),
            xs == props_view(v@),
            xs.len() == v@.len(),
            out@ == start + enc_list(xs.take(i as int), |x: (Seq<char>, GenericValueV)| enc_pair(x)),
            forall|j: int| 0 <= j < i ==> pair_fits(#[trigger] xs[j]),
        decreases v@.len() - i,
    {
        put_pair(out, &v[i]);
        proof {
            lemma_enc_list_take_snoc(xs, |x: (Seq<char>, GenericValueV)| enc_pair(x), i as int);
            assert(out@ =~= start + enc_list(xs.take(i + 1), |x: (Seq<char>, GenericValueV)| enc_pair(x)));
        }
        i += 1;
    }
    proof {
        assert(xs.take(xs.len() as int) =~= xs);
        assert(out@ =~= old(out)@ + enc_props(xs));
    }
}

/// Reads the list.
pub fn get_props(buf: &Vec<u8>, pos: usize) -> (r: Option<(Vec<(String, GenericValue)>, usize)>)
    ensures
        forall|xv: Seq<(Seq<char>, GenericValueV)>, tail: Seq<u8>|
            props_fit(xv) && pos <= buf@.len() && suffix(buf@, pos as int) == #[trigger] (
            enc_props(xv) + tail) ==> (r matches Some(p) && props_view(p.0@) == xv && p.1 == pos
                + enc_props(xv).len()),
{
    proof {
        assert forall|xv: Seq<(Seq<char>, GenericValueV)>, tail: Seq<u8>|
            props_fit(xv) && pos <= buf@.len() && suffix(buf@, pos as int) == #[trigger] (
            enc_props(xv) + tail) implies suffix(buf@, pos as int) == enc_u64(xv.len() as u64) + (
        enc_list(xv, |x: (Seq<char>, GenericValueV)| enc_pair(x)) + tail) by {
            assert(suffix(buf@, pos as int) =~= enc_u64(xv.len() as u64) + (enc_list(xv, |x: (Seq<char>, GenericValueV)| enc_pair(x))
                + tail));
        }
    }
    let (n, pos1) = match get_u64(buf, pos) {
        Some(p) => p,
        None => {
            return None;
        }
    };
    let mut v: Vec<(String, GenericValue)> = Vec::new();
    let mut c: u64 = 0;
    let mut posc = pos1;
    proof {
        assert forall|xv: Seq<(Seq<char>, GenericValueV)>, tail: Seq<u8>|
            props_fit(xv) && pos <= buf@.len() && suffix(buf@, pos as int) == #[trigger] (
            enc_props(xv) + tail) implies {
                &&& n == xv.len()
                &&& pos1 == pos + 8
                &&& props_view(v@) == xv.take(0)
                &&& posc == pos1 + enc_list(xv.take(0), |x: (Seq<char>, GenericValueV)| enc_pair(x)).len()
                &&& posc <= buf@.len()
            } by {
            let f = |x: (Seq<char>, GenericValueV)| enc_pair(x);
            assert(suffix(buf@, pos as int) =~= enc_u64(xv.len() as u64) + (enc_list(xv, f)
                + tail));
            lemma_suffix_split(buf@, pos as int, enc_u64(xv.len() as u64), enc_list(xv, f) + tail);
            assert(xv.take(0) =~= Seq::<(Seq<char>, GenericValueV)>::empty());
            assert(enc_list(Seq::<(Seq<char>, GenericValueV)>::empty(), f) == Seq::<u8>::empty());
            assert(props_view(v@) =~= xv.take(0));
        }
    }
    while c < n
        invariant
            c <= n,
            v@.len() == c,
            forall|xv: Seq<(Seq<char>, GenericValueV)>, tail: Seq<u8>|
                props_fit(xv) && pos <= buf@.len() && suffix(buf@, pos as int) == #[trigger] (
                enc_props(xv) + tail) ==> {
                    &&& n == xv.len()
                    &&& c <= xv.len()
                    &&& pos1 == pos + 8
                    &&& props_view(v@) == xv.take(c as int)
                    &&& posc == pos1 + enc_list(xv.take(c as int), |x: (Seq<char>, GenericValueV)| enc_pair(x)).len()
                    &&& posc <= buf@.len()
                },
        decreases n - c,
    {
        match get_pair(buf, posc) {
            Some((x, p2)) => {
                proof {
                    assert forall|xv: Seq<(Seq<char>, GenericValueV)>, tail: Seq<u8>|
                        props_fit(xv) && pos <= buf@.len() && suffix(buf@, pos as int)
                            == #[trigger] (enc_props(xv) + tail) implies {
                            &&& (x.0@, x.1@) == xv[c as int]
                            &&& props_view(v@.push(x)) == xv.take(c + 1)
                            &&& p2 == pos1 + enc_list(xv.take(c + 1), |x: (Seq<char>, GenericValueV)| enc_pair(x)).len()
                            &&& p2 <= buf@.len()
                        } by {
                        let f = |x: (Seq<char>, GenericValueV)| enc_pair(x);
                        assert(suffix(buf@, pos as int) =~= enc_u64(xv.len() as u64) + (enc_list(
                            xv,
                            f,
                        ) + tail));
                        lemma_suffix_split(
                            buf@,
                            pos as int,
                            enc_u64(xv.len() as u64),
                            enc_list(xv, f) + tail,
                        );
                        lemma_enc_list_split(xv, f, c as int);
                        assert(suffix(buf@, pos1 as int) =~= enc_list(xv.take(c as int), f) + (
                        enc_list(xv.skip(c as int), f) + tail));
                        lemma_suffix_split(
                            buf@,
                            pos1 as int,
                            enc_list(xv.take(c as int), f),
                            enc_list(xv.skip(c as int), f) + tail,
                        );
                        lemma_enc_list_skip_unfold(xv, f, c as int);
                        assert(suffix(buf@, posc as int) =~= f(xv[c as int]) + (enc_list(
                            xv.skip(c as int + 1),
                            f,
                        ) + tail));
                        lemma_enc_list_take_snoc(xv, f, c as int);
                        assert(props_view(v@.push(x)) =~= props_view(v@).push((x.0@, x.1@)));
                        assert(props_view(v@).push(xv[c as int]) =~= xv.take(c + 1));
                        assert(suffix(buf@, posc as int).len() == buf@.len() - posc);
                    }
                }
                v.push(x);
                posc = p2;
                c += 1;
            }
            None => {
                proof {
                    assert forall|xv: Seq<(Seq<char>, GenericValueV)>, tail: Seq<u8>|
                        props_fit(xv) && pos <= buf@.len() && suffix(buf@, pos as int)
                            == #[trigger] (enc_props(xv) + tail) implies false by {
                        let f = |x: (Seq<char>, GenericValueV)| enc_pair(x);
                        assert(suffix(buf@, pos as int) =~= enc_u64(xv.len() as u64) + (enc_list(
                            xv,
                            f,
                        ) + tail));
                        lemma_suffix_split(
                            buf@,
                            pos as int,
                            enc_u64(xv.len() as u64),
                            enc_list(xv, f) + tail,
                        );
                        lemma_enc_list_split(xv, f, c as int);
                        assert(suffix(buf@, pos1 as int) =~= enc_list(xv.take(c as int), f) + (
                        enc_list(xv.skip(c as int), f) + tail));
                        lemma_suffix_split(
                            buf@,
                            pos1 as int,
                            enc_list(xv.take(c as int), f),
                            enc_list(xv.skip(c as int), f) + tail,
                        );
                        lemma_enc_list_skip_unfold(xv, f, c as int);
                        assert(suffix(buf@, posc as int) =~= f(xv[c as int]) + (enc_list(
                            xv.skip(c as int + 1),
                            f,
                        ) + tail));
                    }
                }
                return None;
            }
        }
    }
    proof {
        assert forall|xv: Seq<(Seq<char>, GenericValueV)>, tail: Seq<u8>|
            props_fit(xv) && pos <= buf@.len() && suffix(buf@, pos as int) == #[trigger] (
            enc_props(xv) + tail) implies props_view(v@) == xv && posc == pos + enc_props(
            xv,
        ).len() by {
            assert(xv.take(xv.len() as int) =~= xv);
        }
    }
    Some((v, posc))
}

// ---------------------------------------------------------------------------
// Principal lists
// ---------------------------------------------------------------------------

/// The model of a list of principals.
pub open spec fn plist_view(s: Seq<Principal>) -> Seq<Seq<u8>> {
    s.map(|i: int, p: Principal| p@)
}

/// Length prefix, then the encoded items.
pub open spec fn enc_plist(s: Seq<Seq<u8>>) -> Seq<u8> {
    enc_u64(s.len() as u64) + enc_list(s, |x: Seq<u8>| enc_principal(x))
}

/// The list and each item fit their length prefixes.
pub open spec fn plist_fits(s: Seq<Seq<u8>>) -> bool {
    s.len() <= u64::MAX && (forall|j: int| 0 <= j < s.len() ==> (#[trigger] s[j]).len() <= u64::MAX)
}

/// Appends the list.
pub fn put_plist(out: &mut Vec<u8>, v: &Vec<Principal>)
    ensures
        final(out)@ == old(out)@ + enc_plist(plist_view(v@)),
        plist_fits(plist_view(v@)),
{
    proof {
        vstd::std_specs::vec::axiom_spec_len(v);
    }
    put_u64(out, v.len() as u64);
    let ghost start = out@;
    let ghost xs = plist_view(v@);
    let mut i: usize = 0;
    while i < v.len()
        invariant
            i <= v@.len(),
            xs == plist_view(v@),
            xs.len() == v@.len(),
            out@ == start + enc_list(xs.take(i as int), |x: Seq<u8>| enc_principal(x)),
            forall|j: int| 0 <= j < i ==> (#[trigger] xs[j]).len() <= u64::MAX,
        decreases v@.len() - i,
    {
        put_principal(out, &v[i]);
        proof {
            lemma_enc_list_take_snoc(xs, |x: Seq<u8>| enc_principal(x), i as int);
            assert(out@ =~= start + enc_list(xs.take(i + 1), |x: Seq<u8>| enc_principal(x)));
        }
        i += 1;
    }
    proof {
        assert(xs.take(xs.len() as int) =~= xs);
        assert(out@ =~= old(out)@ + enc_plist(xs));
    }
}

/// Reads the list.
pub fn get_plist(buf: &Vec<u8>, pos: usize) -> (r: Option<(Vec<Principal>, usize)>)
    ensures
        forall|xv: Seq<Seq<u8>>, tail: Seq<u8>|
            plist_fits(xv) && pos <= buf@.len() && suffix(buf@, pos as int) == #[trigger] (
            enc_plist(xv) + tail) ==> (r matches Some(p) && plist_view(p.0@) == xv && p.1 == pos
                + enc_plist(xv).len()),
{
    proof {
        assert forall|xv: Seq<Seq<u8>>, tail: Seq<u8>|
            plist_fits(xv) && pos <= buf@.len() && suffix(buf@, pos as int) == #[trigger] (
            enc_plist(xv) + tail) implies suffix(buf@, pos as int) == enc_u64(xv.len() as u64) + (
        enc_list(xv, |x: Seq<u8>| enc_principal(x)) + tail) by {
            assert(suffix(buf@, pos as int) =~= enc_u64(xv.len() as u64) + (enc_list(xv, |x: Seq<u8>| enc_principal(x))
                + tail));
        }
    }
    let (n, pos1) = match get_u64(buf, pos) {
        Some(p) => p,
        None => {
            return None;
        }
    };
    let mut v: Vec<Principal> = Vec::new();
    let mut c: u64 = 0;
    let mut posc = pos1;
    proof {
        assert forall|xv: Seq<Seq<u8>>, tail: Seq<u8>|
            plist_fits(xv) && pos <= buf@.len() && suffix(buf@, pos as int) == #[trigger] (
            enc_plist(xv) + tail) implies {
                &&& n == xv.len()
                &&& pos1 == pos + 8
                &&& plist_view(v@) == xv.take(0)
                &&& posc == pos1 + enc_list(xv.take(0), |x: Seq<u8>| enc_principal(x)).len()
                &&& posc <= buf@.len()
            } by {
            let f = |x: Seq<u8>| enc_principal(x);
            assert(suffix(buf@, pos as int) =~= enc_u64(xv.len() as u64) + (enc_list(xv, f)
                + tail));
            lemma_suffix_split(buf@, pos as int, enc_u64(xv.len() as u64), enc_list(xv, f) + tail);
            assert(xv.take(0) =~= Seq::<Seq<u8>>::empty());
            assert(enc_list(Seq::<Seq<u8>>::empty(), f) == Seq::<u8>::empty());
            assert(plist_view(v@) =~= xv.take(0));
        }
    }
    while c < n
        invariant
            c <= n,
            v@.len() == c,
            forall|xv: Seq<Seq<u8>>, tail: Seq<u8>|
                plist_fits(xv) && pos <= buf@.len() && suffix(buf@, pos as int) == #[trigger] (
                enc_plist(xv) + tail) ==> {
                    &&& n == xv.len()
                    &&& c <= xv.len()
                    &&& pos1 == pos + 8
                    &&& plist_view(v@) == xv.take(c as int)
                    &&& posc == pos1 + enc_list(xv.take(c as int), |x: Seq<u8>| enc_principal(x)).len()
                    &&& posc <= buf@.len()
                },
        decreases n - c,
    {
        match get_principal(buf, posc) {
            Some((x, p2)) => {
                proof {
                    assert forall|xv: Seq<Seq<u8>>, tail: Seq<u8>|
                        plist_fits(xv) && pos <= buf@.len() && suffix(buf@, pos as int)
                            == #[trigger] (enc_plist(xv) + tail) implies {
                            &&& x@ == xv[c as int]
                            &&& plist_view(v@.push(x)) == xv.take(c + 1)
                            &&& p2 == pos1 + enc_list(xv.take(c + 1), |x: Seq<u8>| enc_principal(x)).len()
                            &&& p2 <= buf@.len()
                        } by {
                        let f = |x: Seq<u8>| enc_principal(x);
                        assert(suffix(buf@, pos as int) =~= enc_u64(xv.len() as u64) + (enc_list(
                            xv,
                            f,
                        ) + tail));
                        lemma_suffix_split(
                            buf@,
                            pos as int,
                            enc_u64(xv.len() as u64),
                            enc_list(xv, f) + tail,
                        );
                        lemma_enc_list_split(xv, f, c as int);
                        assert(suffix(buf@, pos1 as int) =~= enc_list(xv.take(c as int), f) + (
                        enc_list(xv.skip(c as int), f) + tail));
                        lemma_suffix_split(
                            buf@,
                            pos1 as int,
                            enc_list(xv.take(c as int), f),
                            enc_list(xv.skip(c as int), f) + tail,
                        );
                        lemma_enc_list_skip_unfold(xv, f, c as int);
                        assert(suffix(buf@, posc as int) =~= f(xv[c as int]) + (enc_list(
                            xv.skip(c as int + 1),
                            f,
                        ) + tail));
                        lemma_enc_list_take_snoc(xv, f, c as int);
                        assert(plist_view(v@.push(x)) =~= plist_view(v@).push(x@));
                        assert(plist_view(v@).push(xv[c as int]) =~= xv.take(c + 1));
                        assert(suffix(buf@, posc as int).len() == buf@.len() - posc);
                    }
                }
                v.push(x);
                posc = p2;
                c += 1;
            }
            None => {
                proof {
                    assert forall|xv: Seq<Seq<u8>>, tail: Seq<u8>|
                        plist_fits(xv) && pos <= buf@.len() && suffix(buf@, pos as int)
                            == #[trigger] (enc_plist(xv) + tail) implies false by {
                        let f = |x: Seq<u8>| enc_principal(x);
                        assert(suffix(buf@, pos as int) =~= enc_u64(xv.len() as u64) + (enc_list(
                            xv,
                            f,
                        ) + tail));
                        lemma_suffix_split(
                            buf@,
                            pos as int,
                            enc_u64(xv.len() as u64),
                            enc_list(xv, f) + tail,
                        );
                        lemma_enc_list_split(xv, f, c as int);
                        assert(suffix(buf@, pos1 as int) =~= enc_list(xv.take(c as int), f) + (
                        enc_list(xv.skip(c as int), f) + tail));
                        lemma_suffix_split(
                            buf@,
                            pos1 as int,
                            enc_list(xv.take(c as int), f),
                            enc_list(xv.skip(c as int), f) + tail,
                        );
                        lemma_enc_list_skip_unfold(xv, f, c as int);
                        assert(suffix(buf@, posc as int) =~= f(xv[c as int]) + (enc_list(
                            xv.skip(c as int + 1),
                            f,
                        ) + tail));
                    }
                }
                return None;
            }
        }
    }
    proof {
        assert forall|xv: Seq<Seq<u8>>, tail: Seq<u8>|
            plist_fits(xv) && pos <= buf@.len() && suffix(buf@, pos as int) == #[trigger] (
            enc_plist(xv) + tail) implies plist_view(v@) == xv && posc == pos + enc_plist(
            xv,
        ).len() by {
            assert(xv.take(xv.len() as int) =~= xv);
        }
    }
    Some((v, posc))
}




// ---------------------------------------------------------------------------
// Token records: identity, ownership, properties
// ---------------------------------------------------------------------------
/// This half's byte layout.
pub open spec fn enc_token_a(xv: TokenMetadataV) -> Seq<u8> {
    enc_u64(xv.token_identifier) + enc_opt_principal(xv.owner) + enc_opt_principal(xv.operator) + enc_bool(xv.is_burned) + enc_props(xv.properties) + enc_u64(xv.minted_at) + enc_principal(xv.minted_by)
}

/// This half's variable-length parts fit their length prefixes.
pub open spec fn token_fits_a(xv: TokenMetadataV) -> bool {
    &&& (xv.owner matches Some(y) ==> y.len() <= u64::MAX)
    &&& (xv.operator matches Some(y) ==> y.len() <= u64::MAX)
    &&& props_fit(xv.properties)
    &&& xv.minted_by.len() <= u64::MAX
}

/// Appends this half of a token record.
#[verifier::rlimit(100)]
pub fn put_token_a(out: &mut Vec<u8>, x: &TokenMetadata)
    ensures
        final(out)@ == old(out)@ + enc_token_a(x@),
        token_fits_a(x@),
{
    put_u64(out, x.token_identifier);
    put_opt_principal(out, &x.owner);
    put_opt_principal(out, &x.operator);
    put_bool(out, x.is_burned);
    put_props(out, &x.properties);
    put_u64(out, x.minted_at);
    put_principal(out, &x.minted_by);
    proof {
        assert(out@ =~= old(out)@ + enc_token_a(x@));
    }
}

/// Reads this half of a token record.
#[verifier::rlimit(100)]
pub fn get_token_a(buf: &Vec<u8>, pos: usize) -> (r: Option<((u64, Option<Principal>, Option<Principal>, bool, Vec<(String, GenericValue)>, u64, Principal), usize)>)
    ensures
        forall|xv: TokenMetadataV, tail: Seq<u8>|
            token_fits_a(xv) && pos <= buf@.len() && suffix(buf@, pos as int) == #[trigger] (enc_token_a(xv) + tail) ==> (r matches Some(p) && (p.0.0 == xv.token_identifier && crate::types::opt_principal_view(p.0.1) == xv.owner && crate::types::opt_principal_view(p.0.2) == xv.operator && p.0.3 == xv.is_burned && props_view(p.0.4@) == xv.properties && p.0.5 == xv.minted_at && p.0.6@ == xv.minted_by) && p.1 == pos + enc_token_a(xv).len()),
{
    proof {
        assert forall|xv: TokenMetadataV, tail: Seq<u8>| token_fits_a(xv) && pos <= buf@.len() && suffix(buf@, pos as int) == #[trigger] (enc_token_a(xv) + tail) implies suffix(buf@, pos as int)
            == enc_u64(xv.token_identifier) + (enc_opt_principal(xv.owner) + (enc_opt_principal(xv.operator) + (enc_bool(xv.is_burned) + (enc_props(xv.properties) + (enc_u64(xv.minted_at) + (enc_principal(xv.minted_by) + (tail))))))) by {
            assert(suffix(buf@, pos as int) =~= enc_u64(xv.token_identifier) + (enc_opt_principal(xv.owner) + (enc_opt_principal(xv.operator) + (enc_bool(xv.is_burned) + (enc_props(xv.properties) + (enc_u64(xv.minted_at) + (enc_principal(xv.minted_by) + (tail))))))));
        }
    }
    let (f_id, pos1) = match get_u64(buf, pos) {
        Some(p) => p,
        None => {
            proof {
                assert forall|xv: TokenMetadataV, tail: Seq<u8>| token_fits_a(xv) && pos <= buf@.len() && suffix(buf@, pos as int) == #[trigger] (enc_token_a(xv) + tail) implies false by {
                    assert(pos <= buf@.len());
                    assert(suffix(buf@, pos as int) == enc_u64(xv.token_identifier) + (enc_opt_principal(xv.owner) + (enc_opt_principal(xv.operator) + (enc_bool(xv.is_burned) + (enc_props(xv.properties) + (enc_u64(xv.minted_at) + (enc_principal(xv.minted_by) + (tail))))))));
                }
            }
            return None;
        }
    };
    proof {
        assert forall|xv: TokenMetadataV, tail: Seq<u8>| token_fits_a(xv) && pos <= buf@.len() && suffix(buf@, pos as int) == #[trigger] (enc_token_a(xv) + tail) implies f_id == xv.token_identifier && pos1 == pos
            + (enc_u64(xv.token_identifier)).len() && pos1 <= buf@.len() && suffix(buf@, pos1 as int)
            == enc_opt_principal(xv.owner) + (enc_opt_principal(xv.operator) + (enc_bool(xv.is_burned) + (enc_props(xv.properties) + (enc_u64(xv.minted_at) + (enc_principal(xv.minted_by) + (tail)))))) by {
            lemma_suffix_split(buf@, pos as int, enc_u64(xv.token_identifier), enc_opt_principal(xv.owner) + (enc_opt_principal(xv.operator) + (enc_bool(xv.is_burned) + (enc_props(xv.properties) + (enc_u64(xv.minted_at) + (enc_principal(xv.minted_by) + (tail)))))));
            assert(enc_opt_principal(xv.owner) + (enc_opt_principal(xv.operator) + (enc_bool(xv.is_burned) + (enc_props(xv.properties) + (enc_u64(xv.minted_at) + (enc_principal(xv.minted_by) + (tail)))))) =~= enc_opt_principal(xv.owner) + (enc_opt_principal(xv.operator) + (enc_bool(xv.is_burned) + (enc_props(xv.properties) + (enc_u64(xv.minted_at) + (enc_principal(xv.minted_by) + (tail)))))));
        }
    }
    let (f_owner, pos2) = match get_opt_principal(buf, pos1) {
        Some(p) => p,
        None => {
            proof {
                assert forall|xv: TokenMetadataV, tail: Seq<u8>| token_fits_a(xv) && pos <= buf@.len() && suffix(buf@, pos as int) == #[trigger] (enc_token_a(xv) + tail) implies false by {
                    assert(pos1 <= buf@.len());
                    assert(suffix(buf@, pos1 as int) == enc_opt_principal(xv.owner) + (enc_opt_principal(xv.operator) + (enc_bool(xv.is_burned) + (enc_props(xv.properties) + (enc_u64(xv.minted_at) + (enc_principal(xv.minted_by) + (tail)))))));
                }
            }
            return None;
        }
    };
    proof {
        assert forall|xv: TokenMetadataV, tail: Seq<u8>| token_fits_a(xv) && pos <= buf@.len() && suffix(buf@, pos as int) == #[trigger] (enc_token_a(xv) + tail) implies crate::types::opt_principal_view(f_owner) == xv.owner && pos2 == pos1
            + (enc_opt_principal(xv.owner)).len() && pos2 <= buf@.len() && suffix(buf@, pos2 as int)
            == enc_opt_principal(xv.operator) + (enc_bool(xv.is_burned) + (enc_props(xv.properties) + (enc_u64(xv.minted_at) + (enc_principal(xv.minted_by) + (tail))))) by {
            lemma_suffix_split(buf@, pos1 as int, enc_opt_principal(xv.owner), enc_opt_principal(xv.operator) + (enc_bool(xv.is_burned) + (enc_props(xv.properties) + (enc_u64(xv.minted_at) + (enc_principal(xv.minted_by) + (tail))))));
            assert(enc_opt_principal(xv.operator) + (enc_bool(xv.is_burned) + (enc_props(xv.properties) + (enc_u64(xv.minted_at) + (enc_principal(xv.minted_by) + (tail))))) =~= enc_opt_principal(xv.operator) + (enc_bool(xv.is_burned) + (enc_props(xv.properties) + (enc_u64(xv.minted_at) + (enc_principal(xv.minted_by) + (tail))))));
        }
    }
    let (f_operator, pos3) = match get_opt_principal(buf, pos2) {
        Some(p) => p,
        None => {
            proof {
                assert forall|xv: TokenMetadataV, tail: Seq<u8>| token_fits_a(xv) && pos <= buf@.len() && suffix(buf@, pos as int) == #[trigger] (enc_token_a(xv) + tail) implies false by {
                    assert(pos2 <= buf@.len());
                    assert(suffix(buf@, pos2 as int) == enc_opt_principal(xv.operator) + (enc_bool(xv.is_burned) + (enc_props(xv.properties) + (enc_u64(xv.minted_at) + (enc_principal(xv.minted_by) + (tail))))));
                }
            }
            return None;
        }
    };
    proof {
        assert forall|xv: TokenMetadataV, tail: Seq<u8>| token_fits_a(xv) && pos <= buf@.len() && suffix(buf@, pos as int) == #[trigger] (enc_token_a(xv) + tail) implies crate::types::opt_principal_view(f_operator) == xv.operator && pos3 == pos2
            + (enc_opt_principal(xv.operator)).len() && pos3 <= buf@.len() && suffix(buf@, pos3 as int)
            == enc_bool(xv.is_burned) + (enc_props(xv.properties) + (enc_u64(xv.minted_at) + (enc_principal(xv.minted_by) + (tail)))) by {
            lemma_suffix_split(buf@, pos2 as int, enc_opt_principal(xv.operator), enc_bool(xv.is_burned) + (enc_props(xv.properties) + (enc_u64(xv.minted_at) + (enc_principal(xv.minted_by) + (tail)))));
            assert(enc_bool(xv.is_burned) + (enc_props(xv.properties) + (enc_u64(xv.minted_at) + (enc_principal(xv.minted_by) + (tail)))) =~= enc_bool(xv.is_burned) + (enc_props(xv.properties) + (enc_u64(xv.minted_at) + (enc_principal(xv.minted_by) + (tail)))));
        }
    }
    let (f_burned, pos4) = match get_bool(buf, pos3) {
        Some(p) => p,
        None => {
            proof {
                assert forall|xv: TokenMetadataV, tail: Seq<u8>| token_fits_a(xv) && pos <= buf@.len() && suffix(buf@, pos as int) == #[trigger] (enc_token_a(xv) + tail) implies false by {
                    assert(pos3 <= buf@.len());
                    assert(suffix(buf@, pos3 as int) == enc_bool(xv.is_burned) + (enc_props(xv.properties) + (enc_u64(xv.minted_at) + (enc_principal(xv.minted_by) + (tail)))));
                }
            }
            return None;
        }
    };
    proof {
        assert forall|xv: TokenMetadataV, tail: Seq<u8>| token_fits_a(xv) && pos <= buf@.len() && suffix(buf@, pos as int) == #[trigger] (enc_token_a(xv) + tail) implies f_burned == xv.is_burned && pos4 == pos3
            + (enc_bool(xv.is_burned)).len() && pos4 <= buf@.len() && suffix(buf@, pos4 as int)
            == enc_props(xv.properties) + (enc_u64(xv.minted_at) + (enc_principal(xv.minted_by) + (tail))) by {
            lemma_suffix_split(buf@, pos3 as int, enc_bool(xv.is_burned), enc_props(xv.properties) + (enc_u64(xv.minted_at) + (enc_principal(xv.minted_by) + (tail))));
            assert(enc_props(xv.properties) + (enc_u64(xv.minted_at) + (enc_principal(xv.minted_by) + (tail))) =~= enc_props(xv.properties) + (enc_u64(xv.minted_at) + (enc_principal(xv.minted_by) + (tail))));
        }
    }
    let (f_props, pos5) = match get_props(buf, pos4) {
        Some(p) => p,
        None => {
            proof {
                assert forall|xv: TokenMetadataV, tail: Seq<u8>| token_fits_a(xv) && pos <= buf@.len() && suffix(buf@, pos as int) == #[trigger] (enc_token_a(xv) + tail) implies false by {
                    assert(pos4 <= buf@.len());
                    assert(suffix(buf@, pos4 as int) == enc_props(xv.properties) + (enc_u64(xv.minted_at) + (enc_principal(xv.minted_by) + (tail))));
                }
            }
            return None;
        }
    };
    proof {
        assert forall|xv: TokenMetadataV, tail: Seq<u8>| token_fits_a(xv) && pos <= buf@.len() && suffix(buf@, pos as int) == #[trigger] (enc_token_a(xv) + tail) implies props_view(f_props@) == xv.properties && pos5 == pos4
            + (enc_props(xv.properties)).len() && pos5 <= buf@.len() && suffix(buf@, pos5 as int)
            == enc_u64(xv.minted_at) + (enc_principal(xv.minted_by) + (tail)) by {
            lemma_suffix_split(buf@, pos4 as int, enc_props(xv.properties), enc_u64(xv.minted_at) + (enc_principal(xv.minted_by) + (tail)));
            assert(enc_u64(xv.minted_at) + (enc_principal(xv.minted_by) + (tail)) =~= enc_u64(xv.minted_at) + (enc_principal(xv.minted_by) + (tail)));
        }
    }
    let (f_minted_at, pos6) = match get_u64(buf, pos5) {
        Some(p) => p,
        None => {
            proof {
                assert forall|xv: TokenMetadataV, tail: Seq<u8>| token_fits_a(xv) && pos <= buf@.len() && suffix(buf@, pos as int) == #[trigger] (enc_token_a(xv) + tail) implies false by {
                    assert(pos5 <= buf@.len());
                    assert(suffix(buf@, pos5 as int) == enc_u64(xv.minted_at) + (enc_principal(xv.minted_by) + (tail)));
                }
            }
            return None;
        }
    };
    proof {
        assert forall|xv: TokenMetadataV, tail: Seq<u8>| token_fits_a(xv) && pos <= buf@.len() && suffix(buf@, pos as int) == #[trigger] (enc_token_a(xv) + tail) implies f_minted_at == xv.minted_at && pos6 == pos5
            + (enc_u64(xv.minted_at)).len() && pos6 <= buf@.len() && suffix(buf@, pos6 as int)
            == enc_principal(xv.minted_by) + (tail) by {
            lemma_suffix_split(buf@, pos5 as int, enc_u64(xv.minted_at), enc_principal(xv.minted_by) + (tail));
            assert(enc_principal(xv.minted_by) + (tail) =~= enc_principal(xv.minted_by) + (tail));
        }
    }
    let (f_minted_by, pos7) = match get_principal(buf, pos6) {
        Some(p) => p,
        None => {
            proof {
                assert forall|xv: TokenMetadataV, tail: Seq<u8>| token_fits_a(xv) && pos <= buf@.len() && suffix(buf@, pos as int) == #[trigger] (enc_token_a(xv) + tail) implies false by {
                    assert(pos6 <= buf@.len());
                    assert(suffix(buf@, pos6 as int) == enc_principal(xv.minted_by) + (tail));
                }
            }
            return None;
        }
    };
    proof {
        assert forall|xv: TokenMetadataV, tail: Seq<u8>| token_fits_a(xv) && pos <= buf@.len() && suffix(buf@, pos as int) == #[trigger] (enc_token_a(xv) + tail) implies f_minted_by@ == xv.minted_by && pos7 == pos6
            + (enc_principal(xv.minted_by)).len() by {
            lemma_suffix_split(buf@, pos6 as int, enc_principal(xv.minted_by), tail);
        }
    }
    Some(((f_id, f_owner, f_operator, f_burned, f_props, f_minted_at, f_minted_by), pos7))
}

// ---------------------------------------------------------------------------
// Provenance stamps
// ---------------------------------------------------------------------------

/// One provenance stamp: an optional time and an optional principal.
pub open spec fn enc_prov(at: Option<u64>, by: Option<Seq<u8>>) -> Seq<u8> {
    enc_opt_u64(at) + enc_opt_principal(by)
}

/// The stamp's principal fits its length prefix.
pub open spec fn prov_fits(by: Option<Seq<u8>>) -> bool {
    by matches Some(y) ==> y.len() <= u64::MAX
}

/// Appends one provenance stamp.
pub fn put_prov(out: &mut Vec<u8>, at: &Option<u64>, by: &Option<Principal>)
    ensures
        final(out)@ == old(out)@ + enc_prov(*at, crate::types::opt_principal_view(*by)),
        prov_fits(crate::types::opt_principal_view(*by)),
{
    put_opt_u64(out, at);
    put_opt_principal(out, by);
    proof {
        assert(out@ =~= old(out)@ + enc_prov(*at, crate::types::opt_principal_view(*by)));
    }
}

/// Reads one provenance stamp.
pub fn get_prov(buf: &Vec<u8>, pos: usize) -> (r: Option<((Option<u64>, Option<Principal>), usize)>)
    ensures
        forall|at: Option<u64>, by: Option<Seq<u8>>, tail: Seq<u8>|
            prov_fits(by) && pos <= buf@.len() && suffix(buf@, pos as int) == #[trigger] (
            enc_prov(at, by) + tail) ==> (r matches Some(p) && p.0.0 == at
                && crate::types::opt_principal_view(p.0.1) == by && p.1 == pos + enc_prov(
                at,
                by,
            ).len()),
{
    proof {
        assert forall|at: Option<u64>, by: Option<Seq<u8>>, tail: Seq<u8>|
            prov_fits(by) && pos <= buf@.len() && suffix(buf@, pos as int) == #[trigger] (
            enc_prov(at, by) + tail) implies suffix(buf@, pos as int) == enc_opt_u64(at) + (
        enc_opt_principal(by) + tail) by {
            assert(suffix(buf@, pos as int) =~= enc_opt_u64(at) + (enc_opt_principal(by) + tail));
        }
    }
    let (f_at, pos1) = match get_opt_u64(buf, pos) {
        Some(p) => p,
        None => {
            proof {
                assert forall|at: Option<u64>, by: Option<Seq<u8>>, tail: Seq<u8>|
                    prov_fits(by) && pos <= buf@.len() && suffix(buf@, pos as int)
                        == #[trigger] (enc_prov(at, by) + tail) implies false by {
                    assert(suffix(buf@, pos as int) == enc_opt_u64(at) + (enc_opt_principal(by)
                        + tail));
                }
            }
            return None;
        }
    };
    proof {
        assert forall|at: Option<u64>, by: Option<Seq<u8>>, tail: Seq<u8>|
            prov_fits(by) && pos <= buf@.len() && suffix(buf@, pos as int) == #[trigger] (
            enc_prov(at, by) + tail) implies f_at == at && pos1 == pos + enc_opt_u64(at).len()
            && pos1 <= buf@.len() && suffix(buf@, pos1 as int) == enc_opt_principal(by)
            + tail by {
            lemma_suffix_split(buf@, pos as int, enc_opt_u64(at), enc_opt_principal(by) + tail);
        }
    }
    let (f_by, pos2) = match get_opt_principal(buf, pos1) {
        Some(p) => p,
        None => {
            proof {
                assert forall|at: Option<u64>, by: Option<Seq<u8>>, tail: Seq<u8>|
                    prov_fits(by) && pos <= buf@.len() && suffix(buf@, pos as int)
                        == #[trigger] (enc_prov(at, by) + tail) implies false by {
                    assert(pos1 <= buf@.len());
                    assert(suffix(buf@, pos1 as int) == enc_opt_principal(by) + tail);
                }
            }
            return None;
        }
    };
    proof {
        assert forall|at: Option<u64>, by: Option<Seq<u8>>, tail: Seq<u8>|
            prov_fits(by) && pos <= buf@.len() && suffix(buf@, pos as int) == #[trigger] (
            enc_prov(at, by) + tail) implies crate::types::opt_principal_view(f_by) == by && pos2
            == pos + enc_prov(at, by).len() by {
            lemma_suffix_split(buf@, pos1 as int, enc_opt_principal(by), tail);
        }
    }
    Some(((f_at, f_by), pos2))
}

// ---------------------------------------------------------------------------
// Token records: provenance
// ---------------------------------------------------------------------------

/// The provenance half of a token record: transfer, approval, burn stamps.
pub open spec fn enc_token_b(xv: TokenMetadataV) -> Seq<u8> {
    enc_prov(xv.transferred_at, xv.transferred_by) + enc_prov(xv.approved_at, xv.approved_by)
        + enc_prov(xv.burned_at, xv.burned_by)
}

/// This half's principals fit their length prefixes.
pub open spec fn token_fits_b(xv: TokenMetadataV) -> bool {
    &&& prov_fits(xv.transferred_by)
    &&& prov_fits(xv.approved_by)
    &&& prov_fits(xv.burned_by)
}

/// Appends the provenance half of a token record.
pub fn put_token_b(out: &mut Vec<u8>, x: &TokenMetadata)
    ensures
        final(out)@ == old(out)@ + enc_token_b(x@),
        token_fits_b(x@),
{
    put_prov(out, &x.transferred_at, &x.transferred_by);
    put_prov(out, &x.approved_at, &x.approved_by);
    put_prov(out, &x.burned_at, &x.burned_by);
    proof {
        assert(out@ =~= old(out)@ + enc_token_b(x@));
    }
}

/// Reads the provenance half of a token record.
#[verifier::rlimit(100)]
pub fn get_token_b(buf: &Vec<u8>, pos: usize) -> (r: Option<(
    (Option<u64>, Option<Principal>, Option<u64>, Option<Principal>, Option<u64>, Option<Principal>),
    usize,
)>)
    ensures
        forall|xv: TokenMetadataV, tail: Seq<u8>|
            token_fits_b(xv) && pos <= buf@.len() && suffix(buf@, pos as int) == #[trigger] (
            enc_token_b(xv) + tail) ==> (r matches Some(p) && p.0.0 == xv.transferred_at
                && crate::types::opt_principal_view(p.0.1) == xv.transferred_by && p.0.2
                == xv.approved_at && crate::types::opt_principal_view(p.0.3) == xv.approved_by
                && p.0.4 == xv.burned_at && crate::types::opt_principal_view(p.0.5)
                == xv.burned_by && p.1 == pos + enc_token_b(xv).len()),
{
    proof {
        assert forall|xv: TokenMetadataV, tail: Seq<u8>|
            token_fits_b(xv) && pos <= buf@.len() && suffix(buf@, pos as int) == #[trigger] (
            enc_token_b(xv) + tail) implies suffix(buf@, pos as int) == enc_prov(
            xv.transferred_at,
            xv.transferred_by,
        ) + (enc_prov(xv.approved_at, xv.approved_by) + (enc_prov(xv.burned_at, xv.burned_by)
            + tail)) by {
            assert(suffix(buf@, pos as int) =~= enc_prov(xv.transferred_at, xv.transferred_by) + (
            enc_prov(xv.approved_at, xv.approved_by) + (enc_prov(xv.burned_at, xv.burned_by)
                + tail)));
        }
    }
    let (t, pos1) = match get_prov(buf, pos) {
        Some(p) => p,
        None => {
            proof {
                assert forall|xv: TokenMetadataV, tail: Seq<u8>|
                    token_fits_b(xv) && pos <= buf@.len() && suffix(buf@, pos as int)
                        == #[trigger] (enc_token_b(xv) + tail) implies false by {
                    assert(suffix(buf@, pos as int) == enc_prov(xv.transferred_at, xv.transferred_by)
                        + (enc_prov(xv.approved_at, xv.approved_by) + (enc_prov(
                        xv.burned_at,
                        xv.burned_by,
                    ) + tail)));
                }
            }
            return None;
        }
    };
    proof {
        assert forall|xv: TokenMetadataV, tail: Seq<u8>|
            token_fits_b(xv) && pos <= buf@.len() && suffix(buf@, pos as int) == #[trigger] (
            enc_token_b(xv) + tail) implies t.0 == xv.transferred_at
            && crate::types::opt_principal_view(t.1) == xv.transferred_by && pos1 == pos
            + enc_prov(xv.transferred_at, xv.transferred_by).len() && pos1 <= buf@.len()
            && suffix(buf@, pos1 as int) == enc_prov(xv.approved_at, xv.approved_by) + (enc_prov(
            xv.burned_at,
            xv.burned_by,
        ) + tail) by {
            lemma_suffix_split(
                buf@,
                pos as int,
                enc_prov(xv.transferred_at, xv.transferred_by),
                enc_prov(xv.approved_at, xv.approved_by) + (enc_prov(xv.burned_at, xv.burned_by)
                    + tail),
            );
        }
    }
    let (a, pos2) = match get_prov(buf, pos1) {
        Some(p) => p,
        None => {
            proof {
                assert forall|xv: TokenMetadataV, tail: Seq<u8>|
                    token_fits_b(xv) && pos <= buf@.len() && suffix(buf@, pos as int)
                        == #[trigger] (enc_token_b(xv) + tail) implies false by {
                    assert(pos1 <= buf@.len());
                    assert(suffix(buf@, pos1 as int) == enc_prov(xv.approved_at, xv.approved_by)
                        + (enc_prov(xv.burned_at, xv.burned_by) + tail));
                }
            }
            return None;
        }
    };
    proof {
        assert forall|xv: TokenMetadataV, tail: Seq<u8>|
            token_fits_b(xv) && pos <= buf@.len() && suffix(buf@, pos as int) == #[trigger] (
            enc_token_b(xv) + tail) implies a.0 == xv.approved_at
            && crate::types::opt_principal_view(a.1) == xv.approved_by && pos2 == pos1 + enc_prov(
            xv.approved_at,
            xv.approved_by,
        ).len() && pos2 <= buf@.len() && suffix(buf@, pos2 as int) == enc_prov(
            xv.burned_at,
            xv.burned_by,
        ) + tail by {
            lemma_suffix_split(
                buf@,
                pos1 as int,
                enc_prov(xv.approved_at, xv.approved_by),
                enc_prov(xv.burned_at, xv.burned_by) + tail,
            );
        }
    }
    let (b, pos3) = match get_prov(buf, pos2) {
        Some(p) => p,
        None => {
            proof {
                assert forall|xv: TokenMetadataV, tail: Seq<u8>|
                    token_fits_b(xv) && pos <= buf@.len() && suffix(buf@, pos as int)
                        == #[trigger] (enc_token_b(xv) + tail) implies false by {
                    assert(pos2 <= buf@.len());
                    assert(suffix(buf@, pos2 as int) == enc_prov(xv.burned_at, xv.burned_by)
                        + tail);
                }
            }
            return None;
        }
    };
    proof {
        assert forall|xv: TokenMetadataV, tail: Seq<u8>|
            token_fits_b(xv) && pos <= buf@.len() && suffix(buf@, pos as int) == #[trigger] (
            enc_token_b(xv) + tail) implies b.0 == xv.burned_at
            && crate::types::opt_principal_view(b.1) == xv.burned_by && pos3 == pos + enc_token_b(
            xv,
        ).len() by {
            lemma_suffix_split(buf@, pos2 as int, enc_prov(xv.burned_at, xv.burned_by), tail);
        }
    }
    Some(((t.0, t.1, a.0, a.1, b.0, b.1), pos3))
}

// ---------------------------------------------------------------------------
// Token records
// ---------------------------------------------------------------------------

/// A token record: both halves in order.
pub open spec fn enc_token(xv: TokenMetadataV) -> Seq<u8> {
    enc_token_a(xv) + enc_token_b(xv)
}

/// Every variable-length part fits its length prefix.
pub open spec fn token_fits(xv: TokenMetadataV) -> bool {
    token_fits_a(xv) && token_fits_b(xv)
}

/// Appends one token record.
pub fn put_token(out: &mut Vec<u8>, x: &TokenMetadata)
    ensures
        final(out)@ == old(out)@ + enc_token(x@),
        token_fits(x@),
{
    put_token_a(out, x);
    put_token_b(out, x);
    proof {
        assert(out@ =~= old(out)@ + enc_token(x@));
    }
}

/// Reads one token record.
#[verifier::rlimit(100)]
pub fn get_token(buf: &Vec<u8>, pos: usize) -> (r: Option<(TokenMetadata, usize)>)
    ensures
        forall|xv: TokenMetadataV, tail: Seq<u8>|
            token_fits(xv) && pos <= buf@.len() && suffix(buf@, pos as int) == #[trigger] (
            enc_token(xv) + tail) ==> (r matches Some(p) && p.0@ == xv && p.1 == pos + enc_token(
                xv,
            ).len()),
{
    proof {
        assert forall|xv: TokenMetadataV, tail: Seq<u8>|
            token_fits(xv) && pos <= buf@.len() && suffix(buf@, pos as int) == #[trigger] (
            enc_token(xv) + tail) implies suffix(buf@, pos as int) == enc_token_a(xv) + (
        enc_token_b(xv) + tail) by {
            assert(suffix(buf@, pos as int) =~= enc_token_a(xv) + (enc_token_b(xv) + tail));
        }
    }
    let (a, pos1) = match get_token_a(buf, pos) {
        Some(p) => p,
        None => {
            proof {
                assert forall|xv: TokenMetadataV, tail: Seq<u8>|
                    token_fits(xv) && pos <= buf@.len() && suffix(buf@, pos as int)
                        == #[trigger] (enc_token(xv) + tail) implies false by {
                    assert(suffix(buf@, pos as int) == enc_token_a(xv) + (enc_token_b(xv)
                        + tail));
                }
            }
            return None;
        }
    };
    proof {
        assert forall|xv: TokenMetadataV, tail: Seq<u8>|
            token_fits(xv) && pos <= buf@.len() && suffix(buf@, pos as int) == #[trigger] (
            enc_token(xv) + tail) implies pos1 == pos + enc_token_a(xv).len() && pos1
            <= buf@.len() && suffix(buf@, pos1 as int) == enc_token_b(xv) + tail by {
            lemma_suffix_split(buf@, pos as int, enc_token_a(xv), enc_token_b(xv) + tail);
        }
    }
    let (b, pos2) = match get_token_b(buf, pos1) {
        Some(p) => p,
        None => {
            proof {
                assert forall|xv: TokenMetadataV, tail: Seq<u8>|
                    token_fits(xv) && pos <= buf@.len() && suffix(buf@, pos as int)
                        == #[trigger] (enc_token(xv) + tail) implies false by {
                    assert(pos1 <= buf@.len());
                    assert(suffix(buf@, pos1 as int) == enc_token_b(xv) + tail);
                }
            }
            return None;
        }
    };
    let result = TokenMetadata {
        token_identifier: a.0,
        owner: a.1,
        operator: a.2,
        is_burned: a.3,
        properties: a.4,
        minted_at: a.5,
        minted_by: a.6,
        transferred_at: b.0,
        transferred_by: b.1,
        approved_at: b.2,
        approved_by: b.3,
        burned_at: b.4,
        burned_by: b.5,
    };
    proof {
        assert forall|xv: TokenMetadataV, tail: Seq<u8>|
            token_fits(xv) && pos <= buf@.len() && suffix(buf@, pos as int) == #[trigger] (
            enc_token(xv) + tail) implies result@ =~= xv && pos2 == pos + enc_token(
            xv,
        ).len() by {
            assert(props_view(a.4@) == xv.properties);
        }
    }
    Some((result, pos2))
}

// ---------------------------------------------------------------------------
// Transaction events
// ---------------------------------------------------------------------------

/// The record's byte layout: its fields in order.
pub open spec fn enc_event(xv: TxEventV) -> Seq<u8> {
    enc_u64(xv.time) + enc_principal(xv.caller) + enc_str(xv.operation) + enc_props(xv.details)
}

/// Every variable-length part fits its length prefix.
pub open spec fn event_fits(xv: TxEventV) -> bool {
    &&& xv.caller.len() <= u64::MAX
    &&& vstd::utf8::encode_utf8(xv.operation).len() <= u64::MAX
    &&& props_fit(xv.details)
}

/// Appends one encoded record.
#[verifier::rlimit(80)]
pub fn put_event(out: &mut Vec<u8>, x: &TxEvent)
    ensures
        final(out)@ == old(out)@ + enc_event(x@),
        event_fits(x@),
{
    put_u64(out, x.time);
    put_principal(out, &x.caller);
    put_string(out, &x.operation);
    put_props(out, &x.details);
    proof {
        assert(out@ =~= old(out)@ + enc_event(x@));
    }
}

/// Reads one encoded record.
#[verifier::rlimit(80)]
pub fn get_event(buf: &Vec<u8>, pos: usize) -> (r: Option<(TxEvent, usize)>)
    ensures
        forall|xv: TxEventV, tail: Seq<u8>|
            event_fits(xv) && pos <= buf@.len() && suffix(buf@, pos as int) == #[trigger] (enc_event(xv) + tail) ==> (r matches Some(p) && p.0@ == xv && p.1 == pos + enc_event(xv).len()),
{
    proof {
        assert forall|xv: TxEventV, tail: Seq<u8>| event_fits(xv) && pos <= buf@.len() && suffix(buf@, pos as int) == #[trigger] (enc_event(xv) + tail) implies suffix(buf@, pos as int)
            == enc_u64(xv.time) + (enc_principal(xv.caller) + (enc_str(xv.operation) + (enc_props(xv.details) + (tail)))) by {
            assert(suffix(buf@, pos as int) =~= enc_u64(xv.time) + (enc_principal(xv.caller) + (enc_str(xv.operation) + (enc_props(xv.details) + (tail)))));
        }
    }
    let (f_time, pos1) = match get_u64(buf, pos) {
        Some(p) => p,
        None => {
            proof {
                assert forall|xv: TxEventV, tail: Seq<u8>| event_fits(xv) && pos <= buf@.len() && suffix(buf@, pos as int) == #[trigger] (enc_event(xv) + tail) implies false by {
                    assert(pos <= buf@.len());
                    assert(suffix(buf@, pos as int) == enc_u64(xv.time) + (enc_principal(xv.caller) + (enc_str(xv.operation) + (enc_props(xv.details) + (tail)))));
                }
            }
            return None;
        }
    };
    proof {
        assert forall|xv: TxEventV, tail: Seq<u8>| event_fits(xv) && pos <= buf@.len() && suffix(buf@, pos as int) == #[trigger] (enc_event(xv) + tail) implies f_time == xv.time && pos1 == pos
            + (enc_u64(xv.time)).len() && pos1 <= buf@.len() && suffix(buf@, pos1 as int)
            == enc_principal(xv.caller) + (enc_str(xv.operation) + (enc_props(xv.details) + (tail))) by {
            lemma_suffix_split(buf@, pos as int, enc_u64(xv.time), enc_principal(xv.caller) + (enc_str(xv.operation) + (enc_props(xv.details) + (tail))));
            assert(enc_principal(xv.caller) + (enc_str(xv.operation) + (enc_props(xv.details) + (tail))) =~= enc_principal(xv.caller) + (enc_str(xv.operation) + (enc_props(xv.details) + (tail))));
        }
    }
    let (f_caller, pos2) = match get_principal(buf, pos1) {
        Some(p) => p,
        None => {
            proof {
                assert forall|xv: TxEventV, tail: Seq<u8>| event_fits(xv) && pos <= buf@.len() && suffix(buf@, pos as int) == #[trigger] (enc_event(xv) + tail) implies false by {
                    assert(pos1 <= buf@.len());
                    assert(suffix(buf@, pos1 as int) == enc_principal(xv.caller) + (enc_str(xv.operation) + (enc_props(xv.details) + (tail))));
                }
            }
            return None;
        }
    };
    proof {
        assert forall|xv: TxEventV, tail: Seq<u8>| event_fits(xv) && pos <= buf@.len() && suffix(buf@, pos as int) == #[trigger] (enc_event(xv) + tail) implies f_caller@ == xv.caller && pos2 == pos1
            + (enc_principal(xv.caller)).len() && pos2 <= buf@.len() && suffix(buf@, pos2 as int)
            == enc_str(xv.operation) + (enc_props(xv.details) + (tail)) by {
            lemma_suffix_split(buf@, pos1 as int, enc_principal(xv.caller), enc_str(xv.operation) + (enc_props(xv.details) + (tail)));
            assert(enc_str(xv.operation) + (enc_props(xv.details) + (tail)) =~= enc_str(xv.operation) + (enc_props(xv.details) + (tail)));
        }
    }
    let (f_op, pos3) = match get_string(buf, pos2) {
        Some(p) => p,
        None => {
            proof {
                assert forall|xv: TxEventV, tail: Seq<u8>| event_fits(xv) && pos <= buf@.len() && suffix(buf@, pos as int) == #[trigger] (enc_event(xv) + tail) implies false by {
                    assert(pos2 <= buf@.len());
                    assert(suffix(buf@, pos2 as int) == enc_str(xv.operation) + (enc_props(xv.details) + (tail)));
                }
            }
            return None;
        }
    };
    proof {
        assert forall|xv: TxEventV, tail: Seq<u8>| event_fits(xv) && pos <= buf@.len() && suffix(buf@, pos as int) == #[trigger] (enc_event(xv) + tail) implies f_op@ == xv.operation && pos3 == pos2
            + (enc_str(xv.operation)).len() && pos3 <= buf@.len() && suffix(buf@, pos3 as int)
            == enc_props(xv.details) + (tail) by {
            lemma_suffix_split(buf@, pos2 as int, enc_str(xv.operation), enc_props(xv.details) + (tail));
            assert(enc_props(xv.details) + (tail) =~= enc_props(xv.details) + (tail));
        }
    }
    let (f_details, pos4) = match get_props(buf, pos3) {
        Some(p) => p,
        None => {
            proof {
                assert forall|xv: TxEventV, tail: Seq<u8>| event_fits(xv) && pos <= buf@.len() && suffix(buf@, pos as int) == #[trigger] (enc_event(xv) + tail) implies false by {
                    assert(pos3 <= buf@.len());
                    assert(suffix(buf@, pos3 as int) == enc_props(xv.details) + (tail));
                }
            }
            return None;
        }
    };
    proof {
        assert forall|xv: TxEventV, tail: Seq<u8>| event_fits(xv) && pos <= buf@.len() && suffix(buf@, pos as int) == #[trigger] (enc_event(xv) + tail) implies props_view(f_details@) == xv.details && pos4 == pos3
            + (enc_props(xv.details)).len() by {
            lemma_suffix_split(buf@, pos3 as int, enc_props(xv.details), tail);
        }
    }
    let result = TxEvent { time: f_time, caller: f_caller, operation: f_op, details: f_details };
    proof {
        assert forall|xv: TxEventV, tail: Seq<u8>| event_fits(xv) && pos <= buf@.len() && suffix(buf@, pos as int) == #[trigger] (enc_event(xv) + tail) implies result@ =~= xv && pos4
            == pos + enc_event(xv).len() by {
            assert(f_time == xv.time && f_caller@ == xv.caller && f_op@ == xv.operation && props_view(f_details@) == xv.details);
        }
    }
    Some((result, pos4))
}

// ---------------------------------------------------------------------------
// Index entries
// ---------------------------------------------------------------------------

/// The record's byte layout: its fields in order.
pub open spec fn enc_entry(xv: (Seq<u8>, Seq<u64>)) -> Seq<u8> {
    enc_principal(xv.0) + enc_ids(xv.1)
}

/// Every variable-length part fits its length prefix.
pub open spec fn entry_fits(xv: (Seq<u8>, Seq<u64>)) -> bool {
    &&& xv.0.len() <= u64::MAX
    &&& ids_fit(xv.1)
}

/// Appends one encoded record.
#[verifier::rlimit(80)]
pub fn put_entry(out: &mut Vec<u8>, x: &(Principal, Vec<u64>))
    ensures
        final(out)@ == old(out)@ + enc_entry((x.0@, x.1@)),
        entry_fits((x.0@, x.1@)),
{
    put_principal(out, &x.0);
    put_ids(out, &x.1);
    proof {
        assert(out@ =~= old(out)@ + enc_entry((x.0@, x.1@)));
    }
}

/// Reads one encoded record.
#[verifier::rlimit(80)]
pub fn get_entry(buf: &Vec<u8>, pos: usize) -> (r: Option<((Principal, Vec<u64>), usize)>)
    ensures
        forall|xv: (Seq<u8>, Seq<u64>), tail: Seq<u8>|
            entry_fits(xv) && pos <= buf@.len() && suffix(buf@, pos as int) == #[trigger] (enc_entry(xv) + tail) ==> (r matches Some(p) && (p.0.0@, p.0.1@) == xv && p.1 == pos + enc_entry(xv).len()),
{
    proof {
        assert forall|xv: (Seq<u8>, Seq<u64>), tail: Seq<u8>| entry_fits(xv) && pos <= buf@.len() && suffix(buf@, pos as int) == #[trigger] (enc_entry(xv) + tail) implies suffix(buf@, pos as int)
            == enc_principal(xv.0) + (enc_ids(xv.1) + (tail)) by {
            assert(suffix(buf@, pos as int) =~= enc_principal(xv.0) + (enc_ids(xv.1) + (tail)));
        }
    }
    let (f_p, pos1) = match get_principal(buf, pos) {
        Some(p) => p,
        None => {
            proof {
                assert forall|xv: (Seq<u8>, Seq<u64>), tail: Seq<u8>| entry_fits(xv) && pos <= buf@.len() && suffix(buf@, pos as int) == #[trigger] (enc_entry(xv) + tail) implies false by {
                    assert(pos <= buf@.len());
                    assert(suffix(buf@, pos as int) == enc_principal(xv.0) + (enc_ids(xv.1) + (tail)));
                }
            }
            return None;
        }
    };
    proof {
        assert forall|xv: (Seq<u8>, Seq<u64>), tail: Seq<u8>| entry_fits(xv) && pos <= buf@.len() && suffix(buf@, pos as int) == #[trigger] (enc_entry(xv) + tail) implies f_p@ == xv.0 && pos1 == pos
            + (enc_principal(xv.0)).len() && pos1 <= buf@.len() && suffix(buf@, pos1 as int)
            == enc_ids(xv.1) + (tail) by {
            lemma_suffix_split(buf@, pos as int, enc_principal(xv.0), enc_ids(xv.1) + (tail));
            assert(enc_ids(xv.1) + (tail) =~= enc_ids(xv.1) + (tail));
        }
    }
    let (f_ids, pos2) = match get_ids(buf, pos1) {
        Some(p) => p,
        None => {
            proof {
                assert forall|xv: (Seq<u8>, Seq<u64>), tail: Seq<u8>| entry_fits(xv) && pos <= buf@.len() && suffix(buf@, pos as int) == #[trigger] (enc_entry(xv) + tail) implies false by {
                    assert(pos1 <= buf@.len());
                    assert(suffix(buf@, pos1 as int) == enc_ids(xv.1) + (tail));
                }
            }
            return None;
        }
    };
    proof {
        assert forall|xv: (Seq<u8>, Seq<u64>), tail: Seq<u8>| entry_fits(xv) && pos <= buf@.len() && suffix(buf@, pos as int) == #[trigger] (enc_entry(xv) + tail) implies f_ids@ == xv.1 && pos2 == pos1
            + (enc_ids(xv.1)).len() by {
            lemma_suffix_split(buf@, pos1 as int, enc_ids(xv.1), tail);
        }
    }
    let result = (f_p, f_ids);
    proof {
        assert forall|xv: (Seq<u8>, Seq<u64>), tail: Seq<u8>| entry_fits(xv) && pos <= buf@.len() && suffix(buf@, pos as int) == #[trigger] (enc_entry(xv) + tail) implies (result.0@, result.1@) == xv && pos2
            == pos + enc_entry(xv).len() by {
            assert(f_p@ == xv.0 && f_ids@ == xv.1);
        }
    }
    Some((result, pos2))
}

// ---------------------------------------------------------------------------
// Ledger-wide configuration
// ---------------------------------------------------------------------------

/// The record's byte layout: its fields in order.
pub open spec fn enc_metadata(xv: MetadataV) -> Seq<u8> {
    enc_opt_str(xv.name) + enc_opt_str(xv.logo) + enc_opt_str(xv.symbol) + enc_plist(xv.custodians) + enc_u64(xv.created_at) + enc_u64(xv.upgraded_at)
}

/// Every variable-length part fits its length prefix.
pub open spec fn metadata_fits(xv: MetadataV) -> bool {
    &&& (xv.name matches Some(y) ==> vstd::utf8::encode_utf8(y).len() <= u64::MAX)
    &&& (xv.logo matches Some(y) ==> vstd::utf8::encode_utf8(y).len() <= u64::MAX)
    &&& (xv.symbol matches Some(y) ==> vstd::utf8::encode_utf8(y).len() <= u64::MAX)
    &&& plist_fits(xv.custodians)
}

/// Appends one encoded record.
#[verifier::rlimit(80)]
pub fn put_metadata(out: &mut Vec<u8>, x: &Metadata)
    ensures
        final(out)@ == old(out)@ + enc_metadata(x@),
        metadata_fits(x@),
{
    put_opt_string(out, &x.name);
    put_opt_string(out, &x.logo);
    put_opt_string(out, &x.symbol);
    put_plist(out, &x.custodians);
    put_u64(out, x.created_at);
    put_u64(out, x.upgraded_at);
    proof {
        assert(plist_view(x.custodians@) =~= x@.custodians);
        assert(out@ =~= old(out)@ + enc_metadata(x@));
    }
}

/// Reads one encoded record.
#[verifier::rlimit(100)]
pub fn get_metadata(buf: &Vec<u8>, pos: usize) -> (r: Option<(Metadata, usize)>)
    ensures
        forall|xv: MetadataV, tail: Seq<u8>|
            metadata_fits(xv) && pos <= buf@.len() && suffix(buf@, pos as int) == #[trigger] (enc_metadata(xv) + tail) ==> (r matches Some(p) && p.0@ == xv && p.1 == pos + enc_metadata(xv).len()),
{
    proof {
        assert forall|xv: MetadataV, tail: Seq<u8>| metadata_fits(xv) && pos <= buf@.len() && suffix(buf@, pos as int) == #[trigger] (enc_metadata(xv) + tail) implies suffix(buf@, pos as int)
            == enc_opt_str(xv.name) + (enc_opt_str(xv.logo) + (enc_opt_str(xv.symbol) + (enc_plist(xv.custodians) + (enc_u64(xv.created_at) + (enc_u64(xv.upgraded_at) + (tail)))))) by {
            assert(suffix(buf@, pos as int) =~= enc_opt_str(xv.name) + (enc_opt_str(xv.logo) + (enc_opt_str(xv.symbol) + (enc_plist(xv.custodians) + (enc_u64(xv.created_at) + (enc_u64(xv.upgraded_at) + (tail)))))));
        }
    }
    let (f_name, pos1) = match get_opt_string(buf, pos) {
        Some(p) => p,
        None => {
            proof {
                assert forall|xv: MetadataV, tail: Seq<u8>| metadata_fits(xv) && pos <= buf@.len() && suffix(buf@, pos as int) == #[trigger] (enc_metadata(xv) + tail) implies false by {
                    assert(pos <= buf@.len());
                    assert(suffix(buf@, pos as int) == enc_opt_str(xv.name) + (enc_opt_str(xv.logo) + (enc_opt_str(xv.symbol) + (enc_plist(xv.custodians) + (enc_u64(xv.created_at) + (enc_u64(xv.upgraded_at) + (tail)))))));
                }
            }
            return None;
        }
    };
    proof {
        assert forall|xv: MetadataV, tail: Seq<u8>| metadata_fits(xv) && pos <= buf@.len() && suffix(buf@, pos as int) == #[trigger] (enc_metadata(xv) + tail) implies crate::types::opt_string_view(f_name) == xv.name && pos1 == pos
            + (enc_opt_str(xv.name)).len() && pos1 <= buf@.len() && suffix(buf@, pos1 as int)
            == enc_opt_str(xv.logo) + (enc_opt_str(xv.symbol) + (enc_plist(xv.custodians) + (enc_u64(xv.created_at) + (enc_u64(xv.upgraded_at) + (tail))))) by {
            lemma_suffix_split(buf@, pos as int, enc_opt_str(xv.name), enc_opt_str(xv.logo) + (enc_opt_str(xv.symbol) + (enc_plist(xv.custodians) + (enc_u64(xv.created_at) + (enc_u64(xv.upgraded_at) + (tail))))));
            assert(enc_opt_str(xv.logo) + (enc_opt_str(xv.symbol) + (enc_plist(xv.custodians) + (enc_u64(xv.created_at) + (enc_u64(xv.upgraded_at) + (tail))))) =~= enc_opt_str(xv.logo) + (enc_opt_str(xv.symbol) + (enc_plist(xv.custodians) + (enc_u64(xv.created_at) + (enc_u64(xv.upgraded_at) + (tail))))));
        }
    }
    let (f_logo, pos2) = match get_opt_string(buf, pos1) {
        Some(p) => p,
        None => {
            proof {
                assert forall|xv: MetadataV, tail: Seq<u8>| metadata_fits(xv) && pos <= buf@.len() && suffix(buf@, pos as int) == #[trigger] (enc_metadata(xv) + tail) implies false by {
                    assert(pos1 <= buf@.len());
                    assert(suffix(buf@, pos1 as int) == enc_opt_str(xv.logo) + (enc_opt_str(xv.symbol) + (enc_plist(xv.custodians) + (enc_u64(xv.created_at) + (enc_u64(xv.upgraded_at) + (tail))))));
                }
            }
            return None;
        }
    };
    proof {
        assert forall|xv: MetadataV, tail: Seq<u8>| metadata_fits(xv) && pos <= buf@.len() && suffix(buf@, pos as int) == #[trigger] (enc_metadata(xv) + tail) implies crate::types::opt_string_view(f_logo) == xv.logo && pos2 == pos1
            + (enc_opt_str(xv.logo)).len() && pos2 <= buf@.len() && suffix(buf@, pos2 as int)
            == enc_opt_str(xv.symbol) + (enc_plist(xv.custodians) + (enc_u64(xv.created_at) + (enc_u64(xv.upgraded_at) + (tail)))) by {
            lemma_suffix_split(buf@, pos1 as int, enc_opt_str(xv.logo), enc_opt_str(xv.symbol) + (enc_plist(xv.custodians) + (enc_u64(xv.created_at) + (enc_u64(xv.upgraded_at) + (tail)))));
            assert(enc_opt_str(xv.symbol) + (enc_plist(xv.custodians) + (enc_u64(xv.created_at) + (enc_u64(xv.upgraded_at) + (tail)))) =~= enc_opt_str(xv.symbol) + (enc_plist(xv.custodians) + (enc_u64(xv.created_at) + (enc_u64(xv.upgraded_at) + (tail)))));
        }
    }
    let (f_symbol, pos3) = match get_opt_string(buf, pos2) {
        Some(p) => p,
        None => {
            proof {
                assert forall|xv: MetadataV, tail: Seq<u8>| metadata_fits(xv) && pos <= buf@.len() && suffix(buf@, pos as int) == #[trigger] (enc_metadata(xv) + tail) implies false by {
                    assert(pos2 <= buf@.len());
                    assert(suffix(buf@, pos2 as int) == enc_opt_str(xv.symbol) + (enc_plist(xv.custodians) + (enc_u64(xv.created_at) + (enc_u64(xv.upgraded_at) + (tail)))));
                }
            }
            return None;
        }
    };
    proof {
        assert forall|xv: MetadataV, tail: Seq<u8>| metadata_fits(xv) && pos <= buf@.len() && suffix(buf@, pos as int) == #[trigger] (enc_metadata(xv) + tail) implies crate::types::opt_string_view(f_symbol) == xv.symbol && pos3 == pos2
            + (enc_opt_str(xv.symbol)).len() && pos3 <= buf@.len() && suffix(buf@, pos3 as int)
            == enc_plist(xv.custodians) + (enc_u64(xv.created_at) + (enc_u64(xv.upgraded_at) + (tail))) by {
            lemma_suffix_split(buf@, pos2 as int, enc_opt_str(xv.symbol), enc_plist(xv.custodians) + (enc_u64(xv.created_at) + (enc_u64(xv.upgraded_at) + (tail))));
            assert(enc_plist(xv.custodians) + (enc_u64(xv.created_at) + (enc_u64(xv.upgraded_at) + (tail))) =~= enc_plist(xv.custodians) + (enc_u64(xv.created_at) + (enc_u64(xv.upgraded_at) + (tail))));
        }
    }
    let (f_cust, pos4) = match get_plist(buf, pos3) {
        Some(p) => p,
        None => {
            proof {
                assert forall|xv: MetadataV, tail: Seq<u8>| metadata_fits(xv) && pos <= buf@.len() && suffix(buf@, pos as int) == #[trigger] (enc_metadata(xv) + tail) implies false by {
                    assert(pos3 <= buf@.len());
                    assert(suffix(buf@, pos3 as int) == enc_plist(xv.custodians) + (enc_u64(xv.created_at) + (enc_u64(xv.upgraded_at) + (tail))));
                }
            }
            return None;
        }
    };
    proof {
        assert forall|xv: MetadataV, tail: Seq<u8>| metadata_fits(xv) && pos <= buf@.len() && suffix(buf@, pos as int) == #[trigger] (enc_metadata(xv) + tail) implies plist_view(f_cust@) == xv.custodians && pos4 == pos3
            + (enc_plist(xv.custodians)).len() && pos4 <= buf@.len() && suffix(buf@, pos4 as int)
            == enc_u64(xv.created_at) + (enc_u64(xv.upgraded_at) + (tail)) by {
            lemma_suffix_split(buf@, pos3 as int, enc_plist(xv.custodians), enc_u64(xv.created_at) + (enc_u64(xv.upgraded_at) + (tail)));
            assert(enc_u64(xv.created_at) + (enc_u64(xv.upgraded_at) + (tail)) =~= enc_u64(xv.created_at) + (enc_u64(xv.upgraded_at) + (tail)));
        }
    }
    let (f_cat, pos5) = match get_u64(buf, pos4) {
        Some(p) => p,
        None => {
            proof {
                assert forall|xv: MetadataV, tail: Seq<u8>| metadata_fits(xv) && pos <= buf@.len() && suffix(buf@, pos as int) == #[trigger] (enc_metadata(xv) + tail) implies false by {
                    assert(pos4 <= buf@.len());
                    assert(suffix(buf@, pos4 as int) == enc_u64(xv.created_at) + (enc_u64(xv.upgraded_at) + (tail)));
                }
            }
            return None;
        }
    };
    proof {
        assert forall|xv: MetadataV, tail: Seq<u8>| metadata_fits(xv) && pos <= buf@.len() && suffix(buf@, pos as int) == #[trigger] (enc_metadata(xv) + tail) implies f_cat == xv.created_at && pos5 == pos4
            + (enc_u64(xv.created_at)).len() && pos5 <= buf@.len() && suffix(buf@, pos5 as int)
            == enc_u64(xv.upgraded_at) + (tail) by {
            lemma_suffix_split(buf@, pos4 as int, enc_u64(xv.created_at), enc_u64(xv.upgraded_at) + (tail));
            assert(enc_u64(xv.upgraded_at) + (tail) =~= enc_u64(xv.upgraded_at) + (tail));
        }
    }
    let (f_uat, pos6) = match get_u64(buf, pos5) {
        Some(p) => p,
        None => {
            proof {
                assert forall|xv: MetadataV, tail: Seq<u8>| metadata_fits(xv) && pos <= buf@.len() && suffix(buf@, pos as int) == #[trigger] (enc_metadata(xv) + tail) implies false by {
                    assert(pos5 <= buf@.len());
                    assert(suffix(buf@, pos5 as int) == enc_u64(xv.upgraded_at) + (tail));
                }
            }
            return None;
        }
    };
    proof {
        assert forall|xv: MetadataV, tail: Seq<u8>| metadata_fits(xv) && pos <= buf@.len() && suffix(buf@, pos as int) == #[trigger] (enc_metadata(xv) + tail) implies f_uat == xv.upgraded_at && pos6 == pos5
            + (enc_u64(xv.upgraded_at)).len() by {
            lemma_suffix_split(buf@, pos5 as int, enc_u64(xv.upgraded_at), tail);
        }
    }
    let result = Metadata {
        name: f_name,
        logo: f_logo,
        symbol: f_symbol,
        custodians: f_cust,
        created_at: f_cat,
        upgraded_at: f_uat,
    };
    proof {
        assert forall|xv: MetadataV, tail: Seq<u8>| metadata_fits(xv) && pos <= buf@.len() && suffix(buf@, pos as int) == #[trigger] (enc_metadata(xv) + tail) implies result@ =~= xv && pos6
            == pos + enc_metadata(xv).len() by {
            assert(crate::types::opt_string_view(f_name) == xv.name && crate::types::opt_string_view(f_logo) == xv.logo && crate::types::opt_string_view(f_symbol) == xv.symbol && plist_view(f_cust@) == xv.custodians && f_cat == xv.created_at && f_uat == xv.upgraded_at);
            assert(plist_view(f_cust@) =~= result@.custodians);
        }
    }
    Some((result, pos6))
}



/// One decoding step through an encoded list: where the next item starts,
/// what follows it, and how the consumed prefix grows.
pub proof fn lemma_list_step<T>(
    buf: Seq<u8>,
    pos: int,
    pos1: int,
    posc: int,
    c: int,
    xv: Seq<T>,
    tail: Seq<u8>,
    f: spec_fn(T) -> Seq<u8>,
)
    requires
        0 <= pos <= buf.len(),
        xv.len() <= u64::MAX,
        suffix(buf, pos) == enc_u64(xv.len() as u64) + (enc_list(xv, f) + tail),
        pos1 == pos + 8,
        0 <= c < xv.len(),
        posc == pos1 + enc_list(xv.take(c), f).len(),
    ensures
        posc <= buf.len(),
        suffix(buf, posc) == f(xv[c]) + (enc_list(xv.skip(c + 1), f) + tail),
        enc_list(xv.take(c + 1), f) == enc_list(xv.take(c), f) + f(xv[c]),
        posc + f(xv[c]).len() <= buf.len(),
{
    lemma_suffix_split(buf, pos, enc_u64(xv.len() as u64), enc_list(xv, f) + tail);
    lemma_enc_list_split(xv, f, c);
    assert(suffix(buf, pos1) =~= enc_list(xv.take(c), f) + (enc_list(xv.skip(c), f) + tail));
    lemma_suffix_split(buf, pos1, enc_list(xv.take(c), f), enc_list(xv.skip(c), f) + tail);
    lemma_enc_list_skip_unfold(xv, f, c);
    assert(suffix(buf, posc) =~= f(xv[c]) + (enc_list(xv.skip(c + 1), f) + tail));
    lemma_enc_list_take_snoc(xv, f, c);
    assert(suffix(buf, posc).len() == buf.len() - posc);
}

// ---------------------------------------------------------------------------
// Token lists
// ---------------------------------------------------------------------------

/// The model of a list of token records.
pub open spec fn toks_view(s: Seq<TokenMetadata>) -> Seq<TokenMetadataV> {
    s.map(|i: int, t: TokenMetadata| t@)
}

/// Length prefix, then the encoded items.
pub open spec fn enc_toks(s: Seq<TokenMetadataV>) -> Seq<u8> {
    enc_u64(s.len() as u64) + enc_list(s, |x: TokenMetadataV| enc_token(x))
}

/// The list and each item fit their length prefixes.
pub open spec fn toks_fit(s: Seq<TokenMetadataV>) -> bool {
    s.len() <= u64::MAX && (forall|j: int| 0 <= j < s.len() ==> token_fits(#[trigger] s[j]))
}

/// Appends the list.
#[verifier::rlimit(100)]
pub fn put_toks(out: &mut Vec<u8>, v: &Vec<TokenMetadata>)
    ensures
        final(out)@ == old(out)@ + enc_toks(toks_view(v@)),
        toks_fit(toks_view(v@)),
{
    proof {
        vstd::std_specs::vec::axiom_spec_len(v);
    }
    put_u64(out, v.len() as u64);
    let ghost start = out@;
    let ghost xs = toks_view(v@);
    let mut i: usize = 0;
    while i < v.len()
        invariant
            i <= v@.len(),
            xs == toks_view(v@),
            xs.len() == v@.len(),
            out@ == start + enc_list(xs.take(i as int), |x: TokenMetadataV| enc_token(x)),
            forall|j: int| 0 <= j < i ==> token_fits(#[trigger] xs[j]),
        decreases v@.len() - i,
    {
        put_token(out, &v[i]);
        proof {
            lemma_enc_list_take_snoc(xs, |x: TokenMetadataV| enc_token(x), i as int);
            assert(out@ =~= start + enc_list(xs.take(i + 1), |x: TokenMetadataV| enc_token(x)));
        }
        i += 1;
    }
    proof {
        assert(xs.take(xs.len() as int) =~= xs);
        assert(out@ =~= old(out)@ + enc_toks(xs));
    }
}

/// Reads the list.
#[verifier::rlimit(100)]
pub fn get_toks(buf: &Vec<u8>, pos: usize) -> (r: Option<(Vec<TokenMetadata>, usize)>)
    ensures
        forall|xv: Seq<TokenMetadataV>, tail: Seq<u8>|
            toks_fit(xv) && pos <= buf@.len() && suffix(buf@, pos as int) == #[trigger] (
            enc_toks(xv) + tail) ==> (r matches Some(p) && toks_view(p.0@) == xv && p.1 == pos
                + enc_toks(xv).len()),
{
    proof {
        assert forall|xv: Seq<TokenMetadataV>, tail: Seq<u8>|
            toks_fit(xv) && pos <= buf@.len() && suffix(buf@, pos as int) == #[trigger] (
            enc_toks(xv) + tail) implies suffix(buf@, pos as int) == enc_u64(xv.len() as u64) + (
        enc_list(xv, |x: TokenMetadataV| enc_token(x)) + tail) by {
            assert(suffix(buf@, pos as int) =~= enc_u64(xv.len() as u64) + (enc_list(xv, |x: TokenMetadataV| enc_token(x))
                + tail));
        }
    }
    let (n, pos1) = match get_u64(buf, pos) {
        Some(p) => p,
        None => {
            return None;
        }
    };
    let mut v: Vec<TokenMetadata> = Vec::new();
    let mut c: u64 = 0;
    let mut posc = pos1;
    proof {
        assert forall|xv: Seq<TokenMetadataV>, tail: Seq<u8>|
            toks_fit(xv) && pos <= buf@.len() && suffix(buf@, pos as int) == #[trigger] (
            enc_toks(xv) + tail) implies {
                &&& n == xv.len()
                &&& pos1 == pos + 8
                &&& toks_view(v@) == xv.take(0)
                &&& posc == pos1 + enc_list(xv.take(0), |x: TokenMetadataV| enc_token(x)).len()
                &&& posc <= buf@.len()
            } by {
            let f = |x: TokenMetadataV| enc_token(x);
            assert(suffix(buf@, pos as int) =~= enc_u64(xv.len() as u64) + (enc_list(xv, f)
                + tail));
            lemma_suffix_split(buf@, pos as int, enc_u64(xv.len() as u64), enc_list(xv, f) + tail);
            assert(xv.take(0) =~= Seq::<TokenMetadataV>::empty());
            assert(enc_list(Seq::<TokenMetadataV>::empty(), f) == Seq::<u8>::empty());
            assert(toks_view(v@) =~= xv.take(0));
        }
    }
    while c < n
        invariant
            c <= n,
            v@.len() == c,
            forall|xv: Seq<TokenMetadataV>, tail: Seq<u8>|
                toks_fit(xv) && pos <= buf@.len() && suffix(buf@, pos as int) == #[trigger] (
                enc_toks(xv) + tail) ==> {
                    &&& n == xv.len()
                    &&& c <= xv.len()
                    &&& pos1 == pos + 8
                    &&& toks_view(v@) == xv.take(c as int)
                    &&& posc == pos1 + enc_list(xv.take(c as int), |x: TokenMetadataV| enc_token(x)).len()
                    &&& posc <= buf@.len()
                },
        decreases n - c,
    {
        match get_token(buf, posc) {
            Some((x, p2)) => {
                proof {
                    assert forall|xv: Seq<TokenMetadataV>, tail: Seq<u8>|
                        toks_fit(xv) && pos <= buf@.len() && suffix(buf@, pos as int)
                            == #[trigger] (enc_toks(xv) + tail) implies {
                            &&& x@ == xv[c as int]
                            &&& toks_view(v@.push(x)) == xv.take(c + 1)
                            &&& p2 == pos1 + enc_list(xv.take(c + 1), |x: TokenMetadataV| enc_token(x)).len()
                            &&& p2 <= buf@.len()
                        } by {
                        let f = |x: TokenMetadataV| enc_token(x);
                        assert(suffix(buf@, pos as int) =~= enc_u64(xv.len() as u64) + (enc_list(
                            xv,
                            f,
                        ) + tail));
                        lemma_list_step(
                            buf@,
                            pos as int,
                            pos1 as int,
                            posc as int,
                            c as int,
                            xv,
                            tail,
                            f,
                        );
                        assert(f(xv[c as int]) == enc_token(xv[c as int]));
                        assert(suffix(buf@, posc as int) == enc_token(xv[c as int]) + (enc_list(
                            xv.skip(c as int + 1),
                            f,
                        ) + tail));
                        assert(toks_view(v@.push(x)) =~= toks_view(v@).push(x@));
                        assert(toks_view(v@).push(xv[c as int]) =~= xv.take(c + 1));
                    }
                }
                v.push(x);
                posc = p2;
                c += 1;
            }
            None => {
                proof {
                    assert forall|xv: Seq<TokenMetadataV>, tail: Seq<u8>|
                        toks_fit(xv) && pos <= buf@.len() && suffix(buf@, pos as int)
                            == #[trigger] (enc_toks(xv) + tail) implies false by {
                        let f = |x: TokenMetadataV| enc_token(x);
                        assert(suffix(buf@, pos as int) =~= enc_u64(xv.len() as u64) + (enc_list(
                            xv,
                            f,
                        ) + tail));
                        lemma_list_step(
                            buf@,
                            pos as int,
                            pos1 as int,
                            posc as int,
                            c as int,
                            xv,
                            tail,
                            f,
                        );
                        assert(f(xv[c as int]) == enc_token(xv[c as int]));
                        assert(suffix(buf@, posc as int) == enc_token(xv[c as int]) + (enc_list(
                            xv.skip(c as int + 1),
                            f,
                        ) + tail));
                    }
                }
                return None;
            }
        }
    }
    proof {
        assert forall|xv: Seq<TokenMetadataV>, tail: Seq<u8>|
            toks_fit(xv) && pos <= buf@.len() && suffix(buf@, pos as int) == #[trigger] (
            enc_toks(xv) + tail) implies toks_view(v@) == xv && posc == pos + enc_toks(
            xv,
        ).len() by {
            assert(xv.take(xv.len() as int) =~= xv);
        }
    }
    Some((v, posc))
}

// ---------------------------------------------------------------------------
// Index entry lists
// ---------------------------------------------------------------------------

/// Length prefix, then the encoded items.
pub open spec fn enc_index(s: Seq<(Seq<u8>, Seq<u64>)>) -> Seq<u8> {
    enc_u64(s.len() as u64) + enc_list(s, |x: (Seq<u8>, Seq<u64>)| enc_entry(x))
}

/// The list and each item fit their length prefixes.
pub open spec fn index_fits(s: Seq<(Seq<u8>, Seq<u64>)>) -> bool {
    s.len() <= u64::MAX && (forall|j: int| 0 <= j < s.len() ==> entry_fits(#[trigger] s[j]))
}

/// Appends the list.
#[verifier::rlimit(100)]
pub fn put_index(out: &mut Vec<u8>, v: &Vec<(Principal, Vec<u64>)>)
    ensures
        final(out)@ == old(out)@ + enc_index(crate::ledger::index_view(v@)),
        index_fits(crate::ledger::index_view(v@)),
{
    proof {
        vstd::std_specs::vec::axiom_spec_len(v);
    }
    put_u64(out, v.len() as u64);
    let ghost start = out@;
    let ghost xs = crate::ledger::index_view(v@);
    let mut i: usize = 0;
    while i < v.len()
        invariant
            i <= v@.len(),
            xs == crate::ledger::index_view(v@),
            xs.len() == v@.len(),
            out@ == start + enc_list(xs.take(i as int), |x: (Seq<u8>, Seq<u64>)| enc_entry(x)),
            forall|j: int| 0 <= j < i ==> entry_fits(#[trigger] xs[j]),
        decreases v@.len() - i,
    {
        put_entry(out, &v[i]);
        proof {
            lemma_enc_list_take_snoc(xs, |x: (Seq<u8>, Seq<u64>)| enc_entry(x), i as int);
            assert(out@ =~= start + enc_list(xs.take(i + 1), |x: (Seq<u8>, Seq<u64>)| enc_entry(x)));
        }
        i += 1;
    }
    proof {
        assert(xs.take(xs.len() as int) =~= xs);
        assert(out@ =~= old(out)@ + enc_index(xs));
    }
}

/// Reads the list.
#[verifier::rlimit(100)]
pub fn get_index(buf: &Vec<u8>, pos: usize) -> (r: Option<(Vec<(Principal, Vec<u64>)>, usize)>)
    ensures
        forall|xv: Seq<(Seq<u8>, Seq<u64>)>, tail: Seq<u8>|
            index_fits(xv) && pos <= buf@.len() && suffix(buf@, pos as int) == #[trigger] (
            enc_index(xv) + tail) ==> (r matches Some(p) && crate::ledger::index_view(p.0@) == xv && p.1 == pos
                + enc_index(xv).len()),
{
    proof {
        assert forall|xv: Seq<(Seq<u8>, Seq<u64>)>, tail: Seq<u8>|
            index_fits(xv) && pos <= buf@.len() && suffix(buf@, pos as int) == #[trigger] (
            enc_index(xv) + tail) implies suffix(buf@, pos as int) == enc_u64(xv.len() as u64) + (
        enc_list(xv, |x: (Seq<u8>, Seq<u64>)| enc_entry(x)) + tail) by {
            assert(suffix(buf@, pos as int) =~= enc_u64(xv.len() as u64) + (enc_list(xv, |x: (Seq<u8>, Seq<u64>)| enc_entry(x))
                + tail));
        }
    }
    let (n, pos1) = match get_u64(buf, pos) {
        Some(p) => p,
        None => {
            return None;
        }
    };
    let mut v: Vec<(Principal, Vec<u64>)> = Vec::new();
    let mut c: u64 = 0;
    let mut posc = pos1;
    proof {
        assert forall|xv: Seq<(Seq<u8>, Seq<u64>)>, tail: Seq<u8>|
            index_fits(xv) && pos <= buf@.len() && suffix(buf@, pos as int) == #[trigger] (
            enc_index(xv) + tail) implies {
                &&& n == xv.len()
                &&& pos1 == pos + 8
                &&& crate::ledger::index_view(v@) == xv.take(0)
                &&& posc == pos1 + enc_list(xv.take(0), |x: (Seq<u8>, Seq<u64>)| enc_entry(x)).len()
                &&& posc <= buf@.len()
            } by {
            let f = |x: (Seq<u8>, Seq<u64>)| enc_entry(x);
            assert(suffix(buf@, pos as int) =~= enc_u64(xv.len() as u64) + (enc_list(xv, f)
                + tail));
            lemma_suffix_split(buf@, pos as int, enc_u64(xv.len() as u64), enc_list(xv, f) + tail);
            assert(xv.take(0) =~= Seq::<(Seq<u8>, Seq<u64>)>::empty());
            assert(enc_list(Seq::<(Seq<u8>, Seq<u64>)>::empty(), f) == Seq::<u8>::empty());
            assert(crate::ledger::index_view(v@) =~= xv.take(0));
        }
    }
    while c < n
        invariant
            c <= n,
            v@.len() == c,
            forall|xv: Seq<(Seq<u8>, Seq<u64>)>, tail: Seq<u8>|
                index_fits(xv) && pos <= buf@.len() && suffix(buf@, pos as int) == #[trigger] (
                enc_index(xv) + tail) ==> {
                    &&& n == xv.len()
                    &&& c <= xv.len()
                    &&& pos1 == pos + 8
                    &&& crate::ledger::index_view(v@) == xv.take(c as int)
                    &&& posc == pos1 + enc_list(xv.take(c as int), |x: (Seq<u8>, Seq<u64>)| enc_entry(x)).len()
                    &&& posc <= buf@.len()
                },
        decreases n - c,
    {
        match get_entry(buf, posc) {
            Some((x, p2)) => {
                proof {
                    assert forall|xv: Seq<(Seq<u8>, Seq<u64>)>, tail: Seq<u8>|
                        index_fits(xv) && pos <= buf@.len() && suffix(buf@, pos as int)
                            == #[trigger] (enc_index(xv) + tail) implies {
                            &&& (x.0@, x.1@) == xv[c as int]
                            &&& crate::ledger::index_view(v@.push(x)) == xv.take(c + 1)
                            &&& p2 == pos1 + enc_list(xv.take(c + 1), |x: (Seq<u8>, Seq<u64>)| enc_entry(x)).len()
                            &&& p2 <= buf@.len()
                        } by {
                        let f = |x: (Seq<u8>, Seq<u64>)| enc_entry(x);
                        assert(suffix(buf@, pos as int) =~= enc_u64(xv.len() as u64) + (enc_list(
                            xv,
                            f,
                        ) + tail));
                        lemma_list_step(
                            buf@,
                            pos as int,
                            pos1 as int,
                            posc as int,
                            c as int,
                            xv,
                            tail,
                            f,
                        );
                        assert(f(xv[c as int]) == enc_entry(xv[c as int]));
                        assert(suffix(buf@, posc as int) == enc_entry(xv[c as int]) + (enc_list(
                            xv.skip(c as int + 1),
                            f,
                        ) + tail));
                        assert(crate::ledger::index_view(v@.push(x)) =~= crate::ledger::index_view(v@).push((x.0@, x.1@)));
                        assert(crate::ledger::index_view(v@).push(xv[c as int]) =~= xv.take(c + 1));
                    }
                }
                v.push(x);
                posc = p2;
                c += 1;
            }
            None => {
                proof {
                    assert forall|xv: Seq<(Seq<u8>, Seq<u64>)>, tail: Seq<u8>|
                        index_fits(xv) && pos <= buf@.len() && suffix(buf@, pos as int)
                            == #[trigger] (enc_index(xv) + tail) implies false by {
                        let f = |x: (Seq<u8>, Seq<u64>)| enc_entry(x);
                        assert(suffix(buf@, pos as int) =~= enc_u64(xv.len() as u64) + (enc_list(
                            xv,
                            f,
                        ) + tail));
                        lemma_list_step(
                            buf@,
                            pos as int,
                            pos1 as int,
                            posc as int,
                            c as int,
                            xv,
                            tail,
                            f,
                        );
                        assert(f(xv[c as int]) == enc_entry(xv[c as int]));
                        assert(suffix(buf@, posc as int) == enc_entry(xv[c as int]) + (enc_list(
                            xv.skip(c as int + 1),
                            f,
                        ) + tail));
                    }
                }
                return None;
            }
        }
    }
    proof {
        assert forall|xv: Seq<(Seq<u8>, Seq<u64>)>, tail: Seq<u8>|
            index_fits(xv) && pos <= buf@.len() && suffix(buf@, pos as int) == #[trigger] (
            enc_index(xv) + tail) implies crate::ledger::index_view(v@) == xv && posc == pos + enc_index(
            xv,
        ).len() by {
            assert(xv.take(xv.len() as int) =~= xv);
        }
    }
    Some((v, posc))
}

// ---------------------------------------------------------------------------
// Transaction logs
// ---------------------------------------------------------------------------

/// The model of a transaction log.
pub open spec fn txs_view(s: Seq<TxEvent>) -> Seq<TxEventV> {
    s.map(|i: int, e: TxEvent| e@)
}

/// Length prefix, then the encoded items.
pub open spec fn enc_txs(s: Seq<TxEventV>) -> Seq<u8> {
    enc_u64(s.len() as u64) + enc_list(s, |x: TxEventV| enc_event(x))
}

/// The list and each item fit their length prefixes.
pub open spec fn txs_fit(s: Seq<TxEventV>) -> bool {
    s.len() <= u64::MAX && (forall|j: int| 0 <= j < s.len() ==> event_fits(#[trigger] s[j]))
}

/// Appends the list.
#[verifier::rlimit(100)]
pub fn put_txs(out: &mut Vec<u8>, v: &Vec<TxEvent>)
    ensures
        final(out)@ == old(out)@ + enc_txs(txs_view(v@)),
        txs_fit(txs_view(v@)),
{
    proof {
        vstd::std_specs::vec::axiom_spec_len(v);
    }
    put_u64(out, v.len() as u64);
    let ghost start = out@;
    let ghost xs = txs_view(v@);
    let mut i: usize = 0;
    while i < v.len()
        invariant
            i <= v@.len(),
            xs == txs_view(v@),
            xs.len() == v@.len(),
            out@ == start + enc_list(xs.take(i as int), |x: TxEventV| enc_event(x)),
            forall|j: int| 0 <= j < i ==> event_fits(#[trigger] xs[j]),
        decreases v@.len() - i,
    {
        put_event(out, &v[i]);
        proof {
            lemma_enc_list_take_snoc(xs, |x: TxEventV| enc_event(x), i as int);
            assert(out@ =~= start + enc_list(xs.take(i + 1), |x: TxEventV| enc_event(x)));
        }
        i += 1;
    }
    proof {
        assert(xs.take(xs.len() as int) =~= xs);
        assert(out@ =~= old(out)@ + enc_txs(xs));
    }
}

/// Reads the list.
#[verifier::rlimit(100)]
pub fn get_txs(buf: &Vec<u8>, pos: usize) -> (r: Option<(Vec<TxEvent>, usize)>)
    ensures
        forall|xv: Seq<TxEventV>, tail: Seq<u8>|
            txs_fit(xv) && pos <= buf@.len() && suffix(buf@, pos as int) == #[trigger] (
            enc_txs(xv) + tail) ==> (r matches Some(p) && txs_view(p.0@) == xv && p.1 == pos
                + enc_txs(xv).len()),
{
    proof {
        assert forall|xv: Seq<TxEventV>, tail: Seq<u8>|
            txs_fit(xv) && pos <= buf@.len() && suffix(buf@, pos as int) == #[trigger] (
            enc_txs(xv) + tail) implies suffix(buf@, pos as int) == enc_u64(xv.len() as u64) + (
        enc_list(xv, |x: TxEventV| enc_event(x)) + tail) by {
            assert(suffix(buf@, pos as int) =~= enc_u64(xv.len() as u64) + (enc_list(xv, |x: TxEventV| enc_event(x))
                + tail));
        }
    }
    let (n, pos1) = match get_u64(buf, pos) {
        Some(p) => p,
        None => {
            return None;
        }
    };
    let mut v: Vec<TxEvent> = Vec::new();
    let mut c: u64 = 0;
    let mut posc = pos1;
    proof {
        assert forall|xv: Seq<TxEventV>, tail: Seq<u8>|
            txs_fit(xv) && pos <= buf@.len() && suffix(buf@, pos as int) == #[trigger] (
            enc_txs(xv) + tail) implies {
                &&& n == xv.len()
                &&& pos1 == pos + 8
                &&& txs_view(v@) == xv.take(0)
                &&& posc == pos1 + enc_list(xv.take(0), |x: TxEventV| enc_event(x)).len()
                &&& posc <= buf@.len()
            } by {
            let f = |x: TxEventV| enc_event(x);
            assert(suffix(buf@, pos as int) =~= enc_u64(xv.len() as u64) + (enc_list(xv, f)
                + tail));
            lemma_suffix_split(buf@, pos as int, enc_u64(xv.len() as u64), enc_list(xv, f) + tail);
            assert(xv.take(0) =~= Seq::<TxEventV>::empty());
            assert(enc_list(Seq::<TxEventV>::empty(), f) == Seq::<u8>::empty());
            assert(txs_view(v@) =~= xv.take(0));
        }
    }
    while c < n
        invariant
            c <= n,
            v@.len() == c,
            forall|xv: Seq<TxEventV>, tail: Seq<u8>|
                txs_fit(xv) && pos <= buf@.len() && suffix(buf@, pos as int) == #[trigger] (
                enc_txs(xv) + tail) ==> {
                    &&& n == xv.len()
                    &&& c <= xv.len()
                    &&& pos1 == pos + 8
                    &&& txs_view(v@) == xv.take(c as int)
                    &&& posc == pos1 + enc_list(xv.take(c as int), |x: TxEventV| enc_event(x)).len()
                    &&& posc <= buf@.len()
                },
        decreases n - c,
    {
        match get_event(buf, posc) {
            Some((x, p2)) => {
                proof {
                    assert forall|xv: Seq<TxEventV>, tail: Seq<u8>|
                        txs_fit(xv) && pos <= buf@.len() && suffix(buf@, pos as int)
                            == #[trigger] (enc_txs(xv) + tail) implies {
                            &&& x@ == xv[c as int]
                            &&& txs_view(v@.push(x)) == xv.take(c + 1)
                            &&& p2 == pos1 + enc_list(xv.take(c + 1), |x: TxEventV| enc_event(x)).len()
                            &&& p2 <= buf@.len()
                        } by {
                        let f = |x: TxEventV| enc_event(x);
                        assert(suffix(buf@, pos as int) =~= enc_u64(xv.len() as u64) + (enc_list(
                            xv,
                            f,
                        ) + tail));
                        lemma_list_step(
                            buf@,
                            pos as int,
                            pos1 as int,
                            posc as int,
                            c as int,
                            xv,
                            tail,
                            f,
                        );
                        assert(f(xv[c as int]) == enc_event(xv[c as int]));
                        assert(suffix(buf@, posc as int) == enc_event(xv[c as int]) + (enc_list(
                            xv.skip(c as int + 1),
                            f,
                        ) + tail));
                        assert(txs_view(v@.push(x)) =~= txs_view(v@).push(x@));
                        assert(txs_view(v@).push(xv[c as int]) =~= xv.take(c + 1));
                    }
                }
                v.push(x);
                posc = p2;
                c += 1;
            }
            None => {
                proof {
                    assert forall|xv: Seq<TxEventV>, tail: Seq<u8>|
                        txs_fit(xv) && pos <= buf@.len() && suffix(buf@, pos as int)
                            == #[trigger] (enc_txs(xv) + tail) implies false by {
                        let f = |x: TxEventV| enc_event(x);
                        assert(suffix(buf@, pos as int) =~= enc_u64(xv.len() as u64) + (enc_list(
                            xv,
                            f,
                        ) + tail));
                        lemma_list_step(
                            buf@,
                            pos as int,
                            pos1 as int,
                            posc as int,
                            c as int,
                            xv,
                            tail,
                            f,
                        );
                        assert(f(xv[c as int]) == enc_event(xv[c as int]));
                        assert(suffix(buf@, posc as int) == enc_event(xv[c as int]) + (enc_list(
                            xv.skip(c as int + 1),
                            f,
                        ) + tail));
                    }
                }
                return None;
            }
        }
    }
    proof {
        assert forall|xv: Seq<TxEventV>, tail: Seq<u8>|
            txs_fit(xv) && pos <= buf@.len() && suffix(buf@, pos as int) == #[trigger] (
            enc_txs(xv) + tail) implies txs_view(v@) == xv && posc == pos + enc_txs(
            xv,
        ).len() by {
            assert(xv.take(xv.len() as int) =~= xv);
        }
    }
    Some((v, posc))
}


// ---------------------------------------------------------------------------
// The whole ledger
// ---------------------------------------------------------------------------

/// The ledger's byte layout: configuration, token store, owner index,
/// operator index, transaction log.
pub open spec fn enc_ledger(lv: LedgerV) -> Seq<u8> {
    enc_metadata(lv.metadata) + enc_toks(lv.tokens) + enc_index(lv.owners) + enc_index(
        lv.operators,
    ) + enc_txs(lv.tx_records)
}

/// Every variable-length part of the ledger fits its length prefix. This
/// holds of every ledger value held in memory.
pub open spec fn ledger_fits(lv: LedgerV) -> bool {
    &&& metadata_fits(lv.metadata)
    &&& toks_fit(lv.tokens)
    &&& index_fits(lv.owners)
    &&& index_fits(lv.operators)
    &&& txs_fit(lv.tx_records)
}

/// Lays the whole ledger out as one byte sequence.
pub fn serialize(l: &Ledger) -> (r: Vec<u8>)
    ensures
        r@ == enc_ledger(l@),
        ledger_fits(l@),
{
    let mut out: Vec<u8> = Vec::new();
    put_metadata(&mut out, &l.metadata);
    put_toks(&mut out, &l.tokens);
    put_index(&mut out, &l.owners);
    put_index(&mut out, &l.operators);
    put_txs(&mut out, &l.tx_records);
    proof {
        assert(toks_view(l.tokens@) =~= l@.tokens);
        assert(txs_view(l.tx_records@) =~= l@.tx_records);
        assert(out@ =~= enc_ledger(l@));
    }
    out
}

/// Reads a ledger back from its byte layout: decoding the serialization
/// of a ledger restores that ledger, index contents included.
#[verifier::rlimit(100)]
pub fn deserialize(bytes: &Vec<u8>) -> (r: Option<Ledger>)
    ensures
        forall|lv: LedgerV|
            ledger_fits(lv) && bytes@ == #[trigger] enc_ledger(lv) ==> (r matches Some(l) && l@
                == lv),
{
    proof {
        vstd::std_specs::vec::axiom_spec_len(bytes);
        assert forall|lv: LedgerV|
            ledger_fits(lv) && bytes@ == #[trigger] enc_ledger(lv) implies suffix(bytes@, 0) == enc_metadata(lv.metadata) + (enc_toks(lv.tokens) + (enc_index(lv.owners) + (
        enc_index(lv.operators) + (enc_txs(lv.tx_records) + Seq::<u8>::empty())))) by {
            assert(suffix(bytes@, 0) =~= enc_metadata(lv.metadata) + (enc_toks(lv.tokens) + (
            enc_index(lv.owners) + (enc_index(lv.operators) + (enc_txs(lv.tx_records)
                + Seq::<u8>::empty())))));
        }
    }
    let (f_meta, pos1) = match get_metadata(bytes, 0) {
        Some(p) => p,
        None => {
            proof {
                assert forall|lv: LedgerV|
                    ledger_fits(lv) && bytes@ == #[trigger] enc_ledger(lv) implies false by {
                    assert(suffix(bytes@, 0) == enc_metadata(lv.metadata) + (enc_toks(lv.tokens)
                        + (enc_index(lv.owners) + (enc_index(lv.operators) + (enc_txs(
                        lv.tx_records,
                    ) + Seq::<u8>::empty())))));
                }
            }
            return None;
        }
    };
    proof {
        assert forall|lv: LedgerV|
            ledger_fits(lv) && bytes@ == #[trigger] enc_ledger(lv) implies f_meta@ == lv.metadata
            && pos1 <= bytes@.len() && suffix(bytes@, pos1 as int) == enc_toks(lv.tokens) + (
        enc_index(lv.owners) + (enc_index(lv.operators) + (enc_txs(lv.tx_records)
            + Seq::<u8>::empty()))) by {
            lemma_suffix_split(
                bytes@,
                0,
                enc_metadata(lv.metadata),
                enc_toks(lv.tokens) + (enc_index(lv.owners) + (enc_index(lv.operators) + (
                enc_txs(lv.tx_records) + Seq::<u8>::empty()))),
            );
        }
    }
    let (f_toks, pos2) = match get_toks(bytes, pos1) {
        Some(p) => p,
        None => {
            proof {
                assert forall|lv: LedgerV|
                    ledger_fits(lv) && bytes@ == #[trigger] enc_ledger(lv) implies false by {
                    assert(pos1 <= bytes@.len());
                    assert(suffix(bytes@, pos1 as int) == enc_toks(lv.tokens) + (enc_index(
                        lv.owners,
                    ) + (enc_index(lv.operators) + (enc_txs(lv.tx_records)
                        + Seq::<u8>::empty()))));
                }
            }
            return None;
        }
    };
    proof {
        assert forall|lv: LedgerV|
            ledger_fits(lv) && bytes@ == #[trigger] enc_ledger(lv) implies toks_view(f_toks@)
            == lv.tokens && pos2 <= bytes@.len() && suffix(bytes@, pos2 as int) == enc_index(
            lv.owners,
        ) + (enc_index(lv.operators) + (enc_txs(lv.tx_records) + Seq::<u8>::empty())) by {
            lemma_suffix_split(
                bytes@,
                pos1 as int,
                enc_toks(lv.tokens),
                enc_index(lv.owners) + (enc_index(lv.operators) + (enc_txs(lv.tx_records)
                    + Seq::<u8>::empty())),
            );
        }
    }
    let (f_owners, pos3) = match get_index(bytes, pos2) {
        Some(p) => p,
        None => {
            proof {
                assert forall|lv: LedgerV|
                    ledger_fits(lv) && bytes@ == #[trigger] enc_ledger(lv) implies false by {
                    assert(pos2 <= bytes@.len());
                    assert(suffix(bytes@, pos2 as int) == enc_index(lv.owners) + (enc_index(
                        lv.operators,
                    ) + (enc_txs(lv.tx_records) + Seq::<u8>::empty())));
                }
            }
            return None;
        }
    };
    proof {
        assert forall|lv: LedgerV|
            ledger_fits(lv) && bytes@ == #[trigger] enc_ledger(lv) implies
            crate::ledger::index_view(f_owners@) == lv.owners && pos3 <= bytes@.len() && suffix(
            bytes@,
            pos3 as int,
        ) == enc_index(lv.operators) + (enc_txs(lv.tx_records) + Seq::<u8>::empty()) by {
            lemma_suffix_split(
                bytes@,
                pos2 as int,
                enc_index(lv.owners),
                enc_index(lv.operators) + (enc_txs(lv.tx_records) + Seq::<u8>::empty()),
            );
        }
    }
    let (f_operators, pos4) = match get_index(bytes, pos3) {
        Some(p) => p,
        None => {
            proof {
                assert forall|lv: LedgerV|
                    ledger_fits(lv) && bytes@ == #[trigger] enc_ledger(lv) implies false by {
                    assert(pos3 <= bytes@.len());
                    assert(suffix(bytes@, pos3 as int) == enc_index(lv.operators) + (enc_txs(
                        lv.tx_records,
                    ) + Seq::<u8>::empty()));
                }
            }
            return None;
        }
    };
    proof {
        assert forall|lv: LedgerV|
            ledger_fits(lv) && bytes@ == #[trigger] enc_ledger(lv) implies
            crate::ledger::index_view(f_operators@) == lv.operators && pos4 <= bytes@.len()
            && suffix(bytes@, pos4 as int) == enc_txs(lv.tx_records) + Seq::<u8>::empty() by {
            lemma_suffix_split(
                bytes@,
                pos3 as int,
                enc_index(lv.operators),
                enc_txs(lv.tx_records) + Seq::<u8>::empty(),
            );
        }
    }
    let (f_txs, pos5) = match get_txs(bytes, pos4) {
        Some(p) => p,
        None => {
            proof {
                assert forall|lv: LedgerV|
                    ledger_fits(lv) && bytes@ == #[trigger] enc_ledger(lv) implies false by {
                    assert(pos4 <= bytes@.len());
                    assert(suffix(bytes@, pos4 as int) == enc_txs(lv.tx_records)
                        + Seq::<u8>::empty());
                }
            }
            return None;
        }
    };
    if pos5 != bytes.len() {
        proof {
            assert forall|lv: LedgerV|
                ledger_fits(lv) && bytes@ == #[trigger] enc_ledger(lv) implies false by {
                lemma_suffix_split(
                    bytes@,
                    pos4 as int,
                    enc_txs(lv.tx_records),
                    Seq::<u8>::empty(),
                );
            }
        }
        return None;
    }
    let result = Ledger {
        metadata: f_meta,
        tokens: f_toks,
        owners: f_owners,
        operators: f_operators,
        tx_records: f_txs,
    };
    proof {
        assert forall|lv: LedgerV|
            ledger_fits(lv) && bytes@ == #[trigger] enc_ledger(lv) implies result@ =~= lv by {
            lemma_suffix_split(bytes@, pos4 as int, enc_txs(lv.tx_records), Seq::<u8>::empty());
            assert(txs_view(f_txs@) == lv.tx_records);
            assert(result@.tokens =~= toks_view(f_toks@));
            assert(result@.tx_records =~= txs_view(f_txs@));
        }
    }
    Some(result)
}

} // verus!
