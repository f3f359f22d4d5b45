//! The ledger state: token store, owner/operator indexes, transaction log.
//!
//! The token store is authoritative. The two indexes are caches derived
//! from it: a principal maps to the identifiers of the tokens it currently
//! owns (or operates). The well-formedness predicate [`Ledger::wf`] pins the
//! caches to the store exactly, and every operation preserves it.

use vstd::prelude::*;
use crate::errors::NftError;
use crate::principal::Principal;
use crate::types::{
    InitArgs, Metadata, MetadataV, TokenMetadata, TokenMetadataV, TxEvent, TxEventV,
    opt_principal_view, opt_string_view,
};
use crate::values::{GenericValue, props_view};

verus! {

/// The ledger: authoritative token store, two derived reverse-indexes, the
/// append-only transaction log, and ledger-wide configuration.
#[derive(Debug)]
pub struct Ledger {
    pub metadata: Metadata,
    pub tokens: Vec<TokenMetadata>,
    pub owners: Vec<(Principal, Vec<u64>)>,
    pub operators: Vec<(Principal, Vec<u64>)>,
    pub tx_records: Vec<TxEvent>,
}

/// The mathematical model of the ledger.
#[verifier::ext_equal]
pub ghost struct LedgerV {
    pub metadata: MetadataV,
    pub tokens: Seq<TokenMetadataV>,
    pub owners: Seq<(Seq<u8>, Seq<u64>)>,
    pub operators: Seq<(Seq<u8>, Seq<u64>)>,
    pub tx_records: Seq<TxEventV>,
}

/// The model of a reverse-index: each entry pairs a principal with the
/// identifiers indexed under it.
pub open spec fn index_view(s: Seq<(Principal, Vec<u64>)>) -> Seq<(Seq<u8>, Seq<u64>)> {
    s.map(|i: int, e: (Principal, Vec<u64>)| (e.0@, e.1@))
}

impl View for Ledger {
    type V = LedgerV;

    open spec fn view(&self) -> LedgerV {
        LedgerV {
            metadata: self.metadata@,
            tokens: self.tokens@.map(|i: int, t: TokenMetadata| t@),
            owners: index_view(self.owners@),
            operators: index_view(self.operators@),
            tx_records: self.tx_records@.map(|i: int, e: TxEvent| e@),
        }
    }
}

// ---------------------------------------------------------------------------
// Spec-level lookups in the token store
// ---------------------------------------------------------------------------

/// Is there a record with this identifier?
pub open spec fn has_tok(toks: Seq<TokenMetadataV>, id: u64) -> bool {
    exists|i: int| 0 <= i < toks.len() && toks[i].token_identifier == id
}

/// The position of the record with this identifier (meaningful when
/// identifiers are unique and the record exists).
pub open spec fn tok_idx(toks: Seq<TokenMetadataV>, id: u64) -> int {
    choose|i: int| 0 <= i < toks.len() && toks[i].token_identifier == id
}

/// The record with this identifier.
pub open spec fn tok(toks: Seq<TokenMetadataV>, id: u64) -> TokenMetadataV {
    toks[tok_idx(toks, id)]
}

/// No two records share an identifier.
pub open spec fn toks_unique(toks: Seq<TokenMetadataV>) -> bool {
    forall|i: int, j: int|
        0 <= i < j < toks.len() ==> toks[i].token_identifier != toks[j].token_identifier
}

/// The token store as a map from identifier to record.
pub open spec fn tokens_map(toks: Seq<TokenMetadataV>) -> Map<u64, TokenMetadataV> {
    Map::new(|id: u64| has_tok(toks, id), |id: u64| tok(toks, id))
}

/// A burned record has no owner and no operator; an unburned record has an
/// owner.
pub open spec fn record_inv(t: TokenMetadataV) -> bool {
    &&& (t.owner is None <==> t.is_burned)
    &&& (t.is_burned ==> t.operator is None)
}

// ---------------------------------------------------------------------------
// Spec-level lookups in a reverse-index
// ---------------------------------------------------------------------------

/// Does the index have an entry for this principal?
pub open spec fn idx_has(ix: Seq<(Seq<u8>, Seq<u64>)>, p: Seq<u8>) -> bool {
    exists|k: int| 0 <= k < ix.len() && ix[k].0 == p
}

/// The position of this principal's entry (meaningful when keys are unique
/// and the entry exists).
pub open spec fn idx_pos(ix: Seq<(Seq<u8>, Seq<u64>)>, p: Seq<u8>) -> int {
    choose|k: int| 0 <= k < ix.len() && ix[k].0 == p
}

/// The identifiers indexed under this principal.
pub open spec fn ids_of(ix: Seq<(Seq<u8>, Seq<u64>)>, p: Seq<u8>) -> Seq<u64> {
    ix[idx_pos(ix, p)].1
}

/// Is this identifier indexed under this principal?
pub open spec fn idx_contains(ix: Seq<(Seq<u8>, Seq<u64>)>, p: Seq<u8>, id: u64) -> bool {
    idx_has(ix, p) && ids_of(ix, p).contains(id)
}

/// An index entry is never empty and lists each identifier once.
pub open spec fn entry_wf(e: (Seq<u8>, Seq<u64>)) -> bool {
    &&& e.1.len() > 0
    &&& forall|a: int, b: int| 0 <= a < b < e.1.len() ==> e.1[a] != e.1[b]
}

/// Structural well-formedness of an index: unique keys, well-formed entries.
pub open spec fn index_wf(ix: Seq<(Seq<u8>, Seq<u64>)>) -> bool {
    &&& forall|k1: int, k2: int| 0 <= k1 < k2 < ix.len() ==> ix[k1].0 != ix[k2].0
    &&& forall|k: int| 0 <= k < ix.len() ==> entry_wf(#[trigger] ix[k])
}

/// The index as a map from principal to the set of indexed identifiers.
pub open spec fn index_map(ix: Seq<(Seq<u8>, Seq<u64>)>) -> Map<Seq<u8>, Set<u64>> {
    Map::new(|p: Seq<u8>| idx_has(ix, p), |p: Seq<u8>| ids_of(ix, p).to_set())
}

/// The owner index lists exactly the tokens each principal owns.
pub open spec fn owners_synced(ix: Seq<(Seq<u8>, Seq<u64>)>, toks: Seq<TokenMetadataV>) -> bool {
    &&& forall|k: int, a: int|
        0 <= k < ix.len() && 0 <= a < ix[k].1.len() ==> {
            &&& has_tok(toks, #[trigger] ix[k].1[a])
            &&& tok(toks, ix[k].1[a]).owner == Some(ix[k].0)
        }
    &&& forall|i: int|
        0 <= i < toks.len() && (#[trigger] toks[i].owner) is Some ==>
            idx_contains(ix, toks[i].owner->0, toks[i].token_identifier)
}

/// The operator index lists exactly the tokens each principal operates.
pub open spec fn operators_synced(ix: Seq<(Seq<u8>, Seq<u64>)>, toks: Seq<TokenMetadataV>) -> bool {
    &&& forall|k: int, a: int|
        0 <= k < ix.len() && 0 <= a < ix[k].1.len() ==> {
            &&& has_tok(toks, #[trigger] ix[k].1[a])
            &&& tok(toks, ix[k].1[a]).operator == Some(ix[k].0)
        }
    &&& forall|i: int|
        0 <= i < toks.len() && (#[trigger] toks[i].operator) is Some ==>
            idx_contains(ix, toks[i].operator->0, toks[i].token_identifier)
}

// ---------------------------------------------------------------------------
// Choice lemmas
// ---------------------------------------------------------------------------

/// With unique identifiers, the record found at a position is the record
/// the spec-level lookup denotes.
pub proof fn lemma_tok_at(toks: Seq<TokenMetadataV>, i: int)
    requires
        toks_unique(toks),
        0 <= i < toks.len(),
    ensures
        has_tok(toks, toks[i].token_identifier),
        tok_idx(toks, toks[i].token_identifier) == i,
        tok(toks, toks[i].token_identifier) == toks[i],
{
    assert(has_tok(toks, toks[i].token_identifier));
    let j = tok_idx(toks, toks[i].token_identifier);
    assert(0 <= j < toks.len() && toks[j].token_identifier == toks[i].token_identifier);
}

/// With unique keys, the entry found at a position is the entry the
/// spec-level lookup denotes.
pub proof fn lemma_idx_at(ix: Seq<(Seq<u8>, Seq<u64>)>, k: int)
    requires
        index_wf(ix),
        0 <= k < ix.len(),
    ensures
        idx_has(ix, ix[k].0),
        idx_pos(ix, ix[k].0) == k,
        ids_of(ix, ix[k].0) == ix[k].1,
{
    assert(idx_has(ix, ix[k].0));
    let j = idx_pos(ix, ix[k].0);
    assert(0 <= j < ix.len() && ix[j].0 == ix[k].0);
}

// ---------------------------------------------------------------------------
// Structural lemmas about index edits
// ---------------------------------------------------------------------------

/// Removing a whole entry removes exactly that principal's identifiers.
pub proof fn lemma_remove_entry(ix: Seq<(Seq<u8>, Seq<u64>)>, k: int)
    requires
        index_wf(ix),
        0 <= k < ix.len(),
    ensures
        index_wf(ix.remove(k)),
        forall|q: Seq<u8>| #[trigger] idx_has(ix.remove(k), q) <==> idx_has(ix, q) && q != ix[k].0,
        forall|q: Seq<u8>| q != ix[k].0 && idx_has(ix, q) ==> #[trigger] ids_of(ix.remove(k), q) == ids_of(ix, q),
{
    let ix2 = ix.remove(k);
    assert forall|q: Seq<u8>| #[trigger] idx_has(ix2, q) implies idx_has(ix, q) && q != ix[k].0 by {
        let j = idx_pos(ix2, q);
        assert(0 <= j < ix2.len() && ix2[j].0 == q);
        if j < k {
            assert(ix[j].0 == q);
        } else {
            assert(ix[j + 1].0 == q);
        }
    }
    assert forall|q: Seq<u8>| idx_has(ix, q) && q != ix[k].0 implies #[trigger] idx_has(ix2, q) by {
        let j = idx_pos(ix, q);
        assert(0 <= j < ix.len() && ix[j].0 == q);
        assert(j != k);
        if j < k {
            assert(ix2[j].0 == q);
        } else {
            assert(ix2[j - 1].0 == q);
        }
    }
    assert forall|q: Seq<u8>| q != ix[k].0 && idx_has(ix, q) implies #[trigger] ids_of(ix2, q) == ids_of(ix, q) by {
        let j = idx_pos(ix, q);
        assert(0 <= j < ix.len() && ix[j].0 == q);
        assert(j != k);
        if j < k {
            assert(ix2[j].0 == q);
        } else {
            assert(ix2[j - 1].0 == q);
        }
        assert(idx_has(ix2, q));
        let j2 = idx_pos(ix2, q);
        assert(0 <= j2 < ix2.len() && ix2[j2].0 == q);
        let j2up = if j2 < k { j2 } else { j2 + 1 };
        assert(ix[j2up].0 == q);
        assert(j2up == j);
    }
}

/// Replacing an entry's identifier list keeps every other entry unchanged.
pub proof fn lemma_set_entry(ix: Seq<(Seq<u8>, Seq<u64>)>, k: int, ids2: Seq<u64>)
    requires
        index_wf(ix),
        0 <= k < ix.len(),
        ids2.len() > 0,
        forall|a: int, b: int| 0 <= a < b < ids2.len() ==> ids2[a] != ids2[b],
    ensures
        index_wf(ix.update(k, (ix[k].0, ids2))),
        forall|q: Seq<u8>| #[trigger] idx_has(ix.update(k, (ix[k].0, ids2)), q) <==> idx_has(ix, q),
        forall|q: Seq<u8>| q != ix[k].0 && idx_has(ix, q) ==>
            #[trigger] ids_of(ix.update(k, (ix[k].0, ids2)), q) == ids_of(ix, q),
        ids_of(ix.update(k, (ix[k].0, ids2)), ix[k].0) == ids2,
{
    let ix2 = ix.update(k, (ix[k].0, ids2));
    assert forall|q: Seq<u8>| #[trigger] idx_has(ix2, q) implies idx_has(ix, q) by {
        let j = idx_pos(ix2, q);
        assert(0 <= j < ix.len() && ix[j].0 == q);
    }
    assert forall|q: Seq<u8>| idx_has(ix, q) implies #[trigger] idx_has(ix2, q) by {
        let j = idx_pos(ix, q);
        assert(ix2[j].0 == q);
    }
    assert forall|q: Seq<u8>| q != ix[k].0 && idx_has(ix, q) implies
        #[trigger] ids_of(ix2, q) == ids_of(ix, q) by {
        let j = idx_pos(ix, q);
        assert(0 <= j < ix.len() && ix[j].0 == q && j != k);
        assert(ix2[j].0 == q);
        assert(idx_has(ix2, q));
        let j2 = idx_pos(ix2, q);
        assert(0 <= j2 < ix2.len() && ix2[j2].0 == q);
        assert(ix[j2].0 == q);
        assert(j2 == j);
    }
    let j2 = idx_pos(ix2, ix[k].0);
    assert(ix2[k].0 == ix[k].0);
    assert(idx_has(ix2, ix[k].0));
    assert(0 <= j2 < ix2.len() && ix2[j2].0 == ix[k].0);
    if j2 != k {
        let jup = j2;
        assert(ix[jup].0 == ix[k].0);
        assert(false);
    }
}

/// Appending a fresh entry leaves every existing entry unchanged.
pub proof fn lemma_push_entry(ix: Seq<(Seq<u8>, Seq<u64>)>, p: Seq<u8>, ids: Seq<u64>)
    requires
        index_wf(ix),
        !idx_has(ix, p),
        ids.len() > 0,
        forall|a: int, b: int| 0 <= a < b < ids.len() ==> ids[a] != ids[b],
    ensures
        index_wf(ix.push((p, ids))),
        forall|q: Seq<u8>| #[trigger] idx_has(ix.push((p, ids)), q) <==> idx_has(ix, q) || q == p,
        forall|q: Seq<u8>| q != p && idx_has(ix, q) ==> #[trigger] ids_of(ix.push((p, ids)), q) == ids_of(ix, q),
        ids_of(ix.push((p, ids)), p) == ids,
{
    let ix2 = ix.push((p, ids));
    assert(ix2[ix.len() as int].0 == p);
    assert forall|q: Seq<u8>| #[trigger] idx_has(ix2, q) implies idx_has(ix, q) || q == p by {
        let j = idx_pos(ix2, q);
        assert(0 <= j < ix2.len() && ix2[j].0 == q);
        if j < ix.len() {
            assert(ix[j].0 == q);
        }
    }
    assert forall|q: Seq<u8>| idx_has(ix, q) implies #[trigger] idx_has(ix2, q) by {
        let j = idx_pos(ix, q);
        assert(ix2[j].0 == q);
    }
    assert(index_wf(ix2)) by {
        assert forall|k1: int, k2: int| 0 <= k1 < k2 < ix2.len() implies ix2[k1].0 != ix2[k2].0 by {
            if k2 == ix.len() {
                if ix2[k1].0 == p {
                    assert(idx_has(ix, p));
                }
            }
        }
    }
    assert forall|q: Seq<u8>| q != p && idx_has(ix, q) implies
        #[trigger] ids_of(ix2, q) == ids_of(ix, q) by {
        let j = idx_pos(ix, q);
        assert(0 <= j < ix.len() && ix[j].0 == q);
        assert(ix2[j].0 == q);
        assert(idx_has(ix2, q));
        let j2 = idx_pos(ix2, q);
        assert(0 <= j2 < ix2.len() && ix2[j2].0 == q);
        assert(j2 != ix.len());
        assert(ix[j2].0 == q);
        assert(j2 == j);
    }
    let j2 = idx_pos(ix2, p);
    assert(idx_has(ix2, p));
    assert(0 <= j2 < ix2.len() && ix2[j2].0 == p);
    if j2 != ix.len() {
        assert(ix[j2].0 == p);
        assert(idx_has(ix, p));
        assert(false);
    }
}

// ---------------------------------------------------------------------------
// Exec lookup helpers
// ---------------------------------------------------------------------------

/// The position of a principal's entry in a reverse-index, if present.
fn index_position(ix: &Vec<(Principal, Vec<u64>)>, p: &Principal) -> (r: Option<usize>)
    ensures
        match r {
            Some(k) => k < ix@.len() && index_view(ix@)[k as int].0 == p@,
            None => !idx_has(index_view(ix@), p@),
        },
{
    let mut k: usize = 0;
    while k < ix.len()
        invariant
            k <= ix@.len(),
            forall|j: int| 0 <= j < k ==> index_view(ix@)[j].0 != p@,
        decreases ix@.len() - k,
    {
        if &ix[k].0 == p {
            return Some(k);
        }
        k += 1;
    }
    None
}

/// The position of an identifier in an entry's list, if present.
fn id_position(ids: &Vec<u64>, id: u64) -> (r: Option<usize>)
    ensures
        match r {
            Some(a) => a < ids@.len() && ids@[a as int] == id,
            None => !ids@.contains(id),
        },
{
    let mut a: usize = 0;
    while a < ids.len()
        invariant
            a <= ids@.len(),
            forall|j: int| 0 <= j < a ==> ids@[j] != id,
        decreases ids@.len() - a,
    {
        if ids[a] == id {
            return Some(a);
        }
        a += 1;
    }
    None
}

// ---------------------------------------------------------------------------
// Structural lemmas about token-store edits
// ---------------------------------------------------------------------------

/// Overwriting one record (keeping its identifier) leaves every other
/// record's lookup unchanged.
pub proof fn lemma_update_tok(toks: Seq<TokenMetadataV>, i: int, r: TokenMetadataV)
    requires
        toks_unique(toks),
        0 <= i < toks.len(),
        r.token_identifier == toks[i].token_identifier,
    ensures
        toks_unique(toks.update(i, r)),
        forall|id2: u64| has_tok(toks.update(i, r), id2) <==> has_tok(toks, id2),
        has_tok(toks.update(i, r), r.token_identifier),
        tok(toks.update(i, r), r.token_identifier) == r,
        tok_idx(toks.update(i, r), r.token_identifier) == i,
        forall|id2: u64|
            id2 != r.token_identifier && has_tok(toks, id2) ==> tok(toks.update(i, r), id2)
                == tok(toks, id2),
{
    let toks2 = toks.update(i, r);
    assert forall|id2: u64| has_tok(toks2, id2) implies has_tok(toks, id2) by {
        let j = tok_idx(toks2, id2);
        assert(0 <= j < toks2.len() && toks2[j].token_identifier == id2);
        if j == i {
            assert(toks[i].token_identifier == id2);
        } else {
            assert(toks[j].token_identifier == id2);
        }
    }
    assert forall|id2: u64| has_tok(toks, id2) implies has_tok(toks2, id2) by {
        let j = tok_idx(toks, id2);
        assert(0 <= j < toks.len() && toks[j].token_identifier == id2);
        assert(toks2[j].token_identifier == id2);
    }
    assert(toks2[i].token_identifier == r.token_identifier);
    assert(has_tok(toks2, r.token_identifier));
    let j = tok_idx(toks2, r.token_identifier);
    assert(0 <= j < toks2.len() && toks2[j].token_identifier == r.token_identifier);
    if j != i {
        assert(toks[j].token_identifier == toks[i].token_identifier);
        assert(false);
    }
    assert forall|id2: u64|
        id2 != r.token_identifier && has_tok(toks, id2) implies tok(toks2, id2) == tok(
        toks,
        id2,
    ) by {
        let ja = tok_idx(toks, id2);
        assert(0 <= ja < toks.len() && toks[ja].token_identifier == id2);
        assert(ja != i);
        assert(toks2[ja].token_identifier == id2);
        assert(has_tok(toks2, id2));
        let jb = tok_idx(toks2, id2);
        assert(0 <= jb < toks2.len() && toks2[jb].token_identifier == id2);
        if jb == i {
            assert(false);
        }
        assert(toks[jb].token_identifier == id2);
        assert(jb == ja);
    }
}

/// Appending a record with a fresh identifier leaves every existing
/// record's lookup unchanged.
pub proof fn lemma_push_tok(toks: Seq<TokenMetadataV>, r: TokenMetadataV)
    requires
        toks_unique(toks),
        !has_tok(toks, r.token_identifier),
    ensures
        toks_unique(toks.push(r)),
        forall|id2: u64|
            has_tok(toks.push(r), id2) <==> has_tok(toks, id2) || id2 == r.token_identifier,
        has_tok(toks.push(r), r.token_identifier),
        tok(toks.push(r), r.token_identifier) == r,
        forall|id2: u64|
            id2 != r.token_identifier && has_tok(toks, id2) ==> tok(toks.push(r), id2) == tok(
                toks,
                id2,
            ),
{
    let toks2 = toks.push(r);
    assert(toks2[toks.len() as int] == r);
    assert forall|id2: u64| has_tok(toks2, id2) implies has_tok(toks, id2) || id2
        == r.token_identifier by {
        let j = tok_idx(toks2, id2);
        assert(0 <= j < toks2.len() && toks2[j].token_identifier == id2);
        if j < toks.len() {
            assert(toks[j].token_identifier == id2);
        }
    }
    assert forall|id2: u64| has_tok(toks, id2) implies has_tok(toks2, id2) by {
        let j = tok_idx(toks, id2);
        assert(toks2[j].token_identifier == id2);
    }
    assert(toks_unique(toks2)) by {
        assert forall|x: int, y: int| 0 <= x < y < toks2.len() implies toks2[x].token_identifier
            != toks2[y].token_identifier by {
            if y == toks.len() {
                if toks2[x].token_identifier == r.token_identifier {
                    assert(has_tok(toks, r.token_identifier));
                }
            }
        }
    }
    assert(has_tok(toks2, r.token_identifier));
    let j = tok_idx(toks2, r.token_identifier);
    assert(0 <= j < toks2.len() && toks2[j].token_identifier == r.token_identifier);
    if j != toks.len() {
        assert(toks[j].token_identifier == r.token_identifier);
        assert(has_tok(toks, r.token_identifier));
        assert(false);
    }
    assert forall|id2: u64|
        id2 != r.token_identifier && has_tok(toks, id2) implies tok(toks2, id2) == tok(
        toks,
        id2,
    ) by {
        let ja = tok_idx(toks, id2);
        assert(0 <= ja < toks.len() && toks[ja].token_identifier == id2);
        assert(toks2[ja].token_identifier == id2);
        let jb = tok_idx(toks2, id2);
        assert(0 <= jb < toks2.len() && toks2[jb].token_identifier == id2);
        if jb == toks.len() {
            assert(false);
        }
        assert(toks[jb].token_identifier == id2);
        assert(jb == ja);
    }
}

// ---------------------------------------------------------------------------
// Re-establishing index/store sync after one edit
// ---------------------------------------------------------------------------

/// After editing one token's owner and refiling that one identifier in the
/// owner index, the index is synced again.
pub proof fn lemma_owners_resync(
    oldix: Seq<(Seq<u8>, Seq<u64>)>,
    newix: Seq<(Seq<u8>, Seq<u64>)>,
    oldtoks: Seq<TokenMetadataV>,
    newtoks: Seq<TokenMetadataV>,
    id: u64,
    no: Option<Seq<u8>>,
)
    requires
        toks_unique(oldtoks),
        toks_unique(newtoks),
        owners_synced(oldix, oldtoks),
        index_wf(newix),
        has_tok(newtoks, id),
        forall|id2: u64| has_tok(newtoks, id2) <==> has_tok(oldtoks, id2) || id2 == id,
        forall|id2: u64|
            id2 != id && has_tok(oldtoks, id2) ==> tok(newtoks, id2) == tok(oldtoks, id2),
        tok(newtoks, id).owner == no,
        forall|q: Seq<u8>, id2: u64|
            id2 != id ==> (idx_contains(newix, q, id2) <==> idx_contains(oldix, q, id2)),
        forall|q: Seq<u8>|
            #[trigger] idx_contains(newix, q, id) <==> (no matches Some(p) && q == p),
    ensures
        owners_synced(newix, newtoks),
{
    assert forall|k: int, a: int|
        0 <= k < newix.len() && 0 <= a < newix[k].1.len() implies {
            &&& has_tok(newtoks, #[trigger] newix[k].1[a])
            &&& tok(newtoks, newix[k].1[a]).owner == Some(newix[k].0)
        } by {
        let id2 = newix[k].1[a];
        lemma_idx_at(newix, k);
        assert(ids_of(newix, newix[k].0)[a] == id2);
        assert(idx_contains(newix, newix[k].0, id2));
        if id2 == id {
            assert(no matches Some(p) && newix[k].0 == p);
        } else {
            assert(idx_contains(oldix, newix[k].0, id2));
            let ja = idx_pos(oldix, newix[k].0);
            assert(0 <= ja < oldix.len() && oldix[ja].0 == newix[k].0);
            let aa = choose|aa: int|
                0 <= aa < oldix[ja].1.len() && oldix[ja].1[aa] == id2;
            assert(has_tok(oldtoks, oldix[ja].1[aa]));
            assert(tok(oldtoks, id2).owner == Some(newix[k].0));
        }
    }
    assert forall|i: int|
        0 <= i < newtoks.len() && (#[trigger] newtoks[i].owner) is Some implies idx_contains(
        newix,
        newtoks[i].owner->0,
        newtoks[i].token_identifier,
    ) by {
        let tid = newtoks[i].token_identifier;
        lemma_tok_at(newtoks, i);
        if tid == id {
            assert(tok(newtoks, id) == newtoks[i]);
            assert(no == Some(newtoks[i].owner->0));
        } else {
            assert(has_tok(oldtoks, tid));
            let jo = tok_idx(oldtoks, tid);
            assert(0 <= jo < oldtoks.len() && oldtoks[jo].token_identifier == tid);
            lemma_tok_at(oldtoks, jo);
            assert(tok(newtoks, tid) == tok(oldtoks, tid));
            assert(oldtoks[jo] == newtoks[i]);
            assert(oldtoks[jo].owner is Some);
            assert(idx_contains(oldix, oldtoks[jo].owner->0, tid));
            assert(idx_contains(newix, newtoks[i].owner->0, tid));
        }
    }
}

/// The operator-index counterpart of [`lemma_owners_resync`].
pub proof fn lemma_operators_resync(
    oldix: Seq<(Seq<u8>, Seq<u64>)>,
    newix: Seq<(Seq<u8>, Seq<u64>)>,
    oldtoks: Seq<TokenMetadataV>,
    newtoks: Seq<TokenMetadataV>,
    id: u64,
    no: Option<Seq<u8>>,
)
    requires
        toks_unique(oldtoks),
        toks_unique(newtoks),
        operators_synced(oldix, oldtoks),
        index_wf(newix),
        has_tok(newtoks, id),
        forall|id2: u64| has_tok(newtoks, id2) <==> has_tok(oldtoks, id2) || id2 == id,
        forall|id2: u64|
            id2 != id && has_tok(oldtoks, id2) ==> tok(newtoks, id2) == tok(oldtoks, id2),
        tok(newtoks, id).operator == no,
        forall|q: Seq<u8>, id2: u64|
            id2 != id ==> (idx_contains(newix, q, id2) <==> idx_contains(oldix, q, id2)),
        forall|q: Seq<u8>|
            #[trigger] idx_contains(newix, q, id) <==> (no matches Some(p) && q == p),
    ensures
        operators_synced(newix, newtoks),
{
    assert forall|k: int, a: int|
        0 <= k < newix.len() && 0 <= a < newix[k].1.len() implies {
            &&& has_tok(newtoks, #[trigger] newix[k].1[a])
            &&& tok(newtoks, newix[k].1[a]).operator == Some(newix[k].0)
        } by {
        let id2 = newix[k].1[a];
        lemma_idx_at(newix, k);
        assert(ids_of(newix, newix[k].0)[a] == id2);
        assert(idx_contains(newix, newix[k].0, id2));
        if id2 == id {
            assert(no matches Some(p) && newix[k].0 == p);
        } else {
            assert(idx_contains(oldix, newix[k].0, id2));
            let ja = idx_pos(oldix, newix[k].0);
            assert(0 <= ja < oldix.len() && oldix[ja].0 == newix[k].0);
            let aa = choose|aa: int|
                0 <= aa < oldix[ja].1.len() && oldix[ja].1[aa] == id2;
            assert(has_tok(oldtoks, oldix[ja].1[aa]));
            assert(tok(oldtoks, id2).operator == Some(newix[k].0));
        }
    }
    assert forall|i: int|
        0 <= i < newtoks.len() && (#[trigger] newtoks[i].operator) is Some implies idx_contains(
        newix,
        newtoks[i].operator->0,
        newtoks[i].token_identifier,
    ) by {
        let tid = newtoks[i].token_identifier;
        lemma_tok_at(newtoks, i);
        if tid == id {
            assert(tok(newtoks, id) == newtoks[i]);
            assert(no == Some(newtoks[i].operator->0));
        } else {
            assert(has_tok(oldtoks, tid));
            let jo = tok_idx(oldtoks, tid);
            assert(0 <= jo < oldtoks.len() && oldtoks[jo].token_identifier == tid);
            lemma_tok_at(oldtoks, jo);
            assert(tok(newtoks, tid) == tok(oldtoks, tid));
            assert(oldtoks[jo] == newtoks[i]);
            assert(oldtoks[jo].operator is Some);
            assert(idx_contains(oldix, oldtoks[jo].operator->0, tid));
            assert(idx_contains(newix, newtoks[i].operator->0, tid));
        }
    }
}

// ---------------------------------------------------------------------------
// The index maintenance primitive
// ---------------------------------------------------------------------------

/// In a synced index an identifier can only be filed under the principal
/// the token store names for it.
pub proof fn lemma_indexed_under_owner(
    ix: Seq<(Seq<u8>, Seq<u64>)>,
    toks: Seq<TokenMetadataV>,
    id: u64,
)
    requires
        owners_synced(ix, toks),
    ensures
        forall|k: int|
            0 <= k < ix.len() && #[trigger] ix[k].1.contains(id) ==> has_tok(toks, id)
                && tok(toks, id).owner == Some(ix[k].0),
{
    assert forall|k: int|
        0 <= k < ix.len() && #[trigger] ix[k].1.contains(id) implies has_tok(toks, id)
            && tok(toks, id).owner == Some(ix[k].0) by {
        let a = choose|a: int| 0 <= a < ix[k].1.len() && ix[k].1[a] == id;
        assert(has_tok(toks, ix[k].1[a]) && tok(toks, ix[k].1[a]).owner == Some(ix[k].0));
    }
}

/// The operator-index counterpart of [`lemma_indexed_under_owner`].
pub proof fn lemma_indexed_under_operator(
    ix: Seq<(Seq<u8>, Seq<u64>)>,
    toks: Seq<TokenMetadataV>,
    id: u64,
)
    requires
        operators_synced(ix, toks),
    ensures
        forall|k: int|
            0 <= k < ix.len() && #[trigger] ix[k].1.contains(id) ==> has_tok(toks, id)
                && tok(toks, id).operator == Some(ix[k].0),
{
    assert forall|k: int|
        0 <= k < ix.len() && #[trigger] ix[k].1.contains(id) implies has_tok(toks, id)
            && tok(toks, id).operator == Some(ix[k].0) by {
        let a = choose|a: int| 0 <= a < ix[k].1.len() && ix[k].1[a] == id;
        assert(has_tok(toks, ix[k].1[a]) && tok(toks, ix[k].1[a]).operator == Some(ix[k].0));
    }
}

/// The one primitive through which a reverse-index is ever edited: file
/// `token_identifier` under `new_principal` instead of `old_principal`.
///
/// Removes the identifier from the old principal's entry (dropping the
/// entry when it empties), then inserts it into the new principal's entry
/// (creating the entry when absent). The old principal must be read from
/// the token record *before* that record is overwritten.
pub fn update_index(
    ix: &mut Vec<(Principal, Vec<u64>)>,
    token_identifier: u64,
    old_principal: Option<&Principal>,
    new_principal: Option<&Principal>,
)
    requires
        index_wf(index_view(old(ix)@)),
        match old_principal {
            Some(p) => idx_contains(index_view(old(ix)@), p@, token_identifier),
            None => true,
        },
        forall|k: int|
            0 <= k < old(ix)@.len() && (match old_principal {
                Some(p) => index_view(old(ix)@)[k].0 != p@,
                None => true,
            }) ==> !(#[trigger] index_view(old(ix)@)[k].1).contains(token_identifier),
    ensures
        index_wf(index_view(final(ix)@)),
        forall|q: Seq<u8>, id2: u64|
            id2 != token_identifier ==> (idx_contains(index_view(final(ix)@), q, id2)
                <==> idx_contains(index_view(old(ix)@), q, id2)),
        forall|q: Seq<u8>|
            #[trigger] idx_contains(index_view(final(ix)@), q, token_identifier) <==> (match new_principal {
                Some(p) => q == p@,
                None => false,
            }),
{
    let ghost ix0 = index_view(old(ix)@);
    // Phase 1: remove the identifier from the old principal's entry.
    if let Some(p) = old_principal {
        let k = match index_position(ix, p) {
            Some(k) => k,
            None => {
                proof {
                    assert(idx_has(ix0, p@));
                }
                unreached()
            }
        };
        proof {
            lemma_idx_at(ix0, k as int);
        }
        let mut entry = ix.remove(k);
        let a = match id_position(&entry.1, token_identifier) {
            Some(a) => a,
            None => {
                proof {
                    assert(ids_of(ix0, p@).contains(token_identifier));
                }
                unreached()
            }
        };
        entry.1.remove(a);
        let ghost ids2 = entry.1@;
        proof {
            assert(entry_wf(ix0[k as int]));
            assert(ids2 == ix0[k as int].1.remove(a as int));
            assert forall|x: int, y: int| 0 <= x < y < ids2.len() implies ids2[x] != ids2[y] by {
                let xs = if x < a { x } else { x + 1 };
                let ys = if y < a { y } else { y + 1 };
                assert(ix0[k as int].1[xs] == ids2[x] && ix0[k as int].1[ys] == ids2[y]);
            }
            assert(!ids2.contains(token_identifier)) by {
                if ids2.contains(token_identifier) {
                    let x = choose|x: int| 0 <= x < ids2.len() && ids2[x] == token_identifier;
                    let xs = if x < a { x } else { x + 1 };
                    assert(ix0[k as int].1[xs] == token_identifier);
                    assert(ix0[k as int].1[a as int] == token_identifier);
                }
            }
            assert forall|id2: u64| id2 != token_identifier implies
                (ids2.contains(id2) <==> ix0[k as int].1.contains(id2)) by {
                if ids2.contains(id2) {
                    let x = choose|x: int| 0 <= x < ids2.len() && ids2[x] == id2;
                    let xs = if x < a { x } else { x + 1 };
                    assert(ix0[k as int].1[xs] == id2);
                }
                if ix0[k as int].1.contains(id2) {
                    let x = choose|x: int| 0 <= x < ix0[k as int].1.len() && ix0[k as int].1[x] == id2;
                    assert(x != a);
                    let xd = if x < a { x } else { x - 1 };
                    assert(ids2[xd] == id2);
                }
            }
        }
        if entry.1.len() > 0 {
            ix.insert(k, entry);
            proof {
                let ix1 = index_view(ix@);
                assert(ix1 =~= ix0.update(k as int, (p@, ids2)));
                lemma_set_entry(ix0, k as int, ids2);
            }
        } else {
            proof {
                let ix1 = index_view(ix@);
                assert(ix1 =~= ix0.remove(k as int));
                lemma_remove_entry(ix0, k as int);
                // the dropped entry held only `token_identifier`
                assert forall|id2: u64| id2 != token_identifier implies
                    !ix0[k as int].1.contains(id2) by {
                    if ix0[k as int].1.contains(id2) {
                        let x = choose|x: int| 0 <= x < ix0[k as int].1.len()
                            && ix0[k as int].1[x] == id2;
                        let xd = if x < a { x } else { x - 1 };
                        assert(ids2[xd] == id2);
                    }
                }
            }
        }
    }
    let ghost ix1 = index_view(ix@);
    proof {
        // after phase 1: wf, nothing holds the identifier, and other
        // identifiers are where they were
        assert(index_wf(ix1));
        assert(forall|q: Seq<u8>| !idx_contains(ix1, q, token_identifier));
        assert(forall|q: Seq<u8>, id2: u64|
            id2 != token_identifier ==> (idx_contains(ix1, q, id2) <==> idx_contains(
                ix0,
                q,
                id2,
            )));
    }
    // Phase 2: insert the identifier into the new principal's entry.
    if let Some(q) = new_principal {
        match index_position(ix, q) {
            Some(k2) => {
                proof {
                    lemma_idx_at(ix1, k2 as int);
                }
                let mut entry = ix.remove(k2);
                proof {
                    assert(!entry.1@.contains(token_identifier)) by {
                        if entry.1@.contains(token_identifier) {
                            assert(idx_contains(ix1, q@, token_identifier));
                        }
                    }
                }
                entry.1.push(token_identifier);
                let ghost ids2 = entry.1@;
                ix.insert(k2, entry);
                proof {
                    let ix2 = index_view(ix@);
                    assert(ix2 =~= ix1.update(k2 as int, (q@, ids2)));
                    assert(ids2 == ix1[k2 as int].1.push(token_identifier));
                    assert forall|x: int, y: int| 0 <= x < y < ids2.len() implies ids2[x] != ids2[y] by {
                        if y == ids2.len() - 1 {
                            assert(ids2[y] == token_identifier);
                            if ids2[x] == token_identifier {
                                assert(ix1[k2 as int].1.contains(token_identifier));
                                assert(idx_contains(ix1, q@, token_identifier));
                            }
                        }
                    }
                    lemma_set_entry(ix1, k2 as int, ids2);
                    assert forall|id2: u64| #[trigger] ids2.contains(id2) implies
                        id2 == token_identifier || ix1[k2 as int].1.contains(id2) by {
                        let x = choose|x: int| 0 <= x < ids2.len() && ids2[x] == id2;
                        if x < ids2.len() - 1 {
                            assert(ix1[k2 as int].1[x] == id2);
                        }
                    }
                    assert(ids2.contains(token_identifier)) by {
                        assert(ids2[ids2.len() - 1] == token_identifier);
                    }
                    assert forall|id2: u64| ix1[k2 as int].1.contains(id2) implies
                        ids2.contains(id2) by {
                        let x = choose|x: int| 0 <= x < ix1[k2 as int].1.len()
                            && ix1[k2 as int].1[x] == id2;
                        assert(ids2[x] == id2);
                    }
                }
            }
            None => {
                let mut ids: Vec<u64> = Vec::new();
                ids.push(token_identifier);
                let entry = (q.dup(), ids);
                ix.push(entry);
                proof {
                    let ix2 = index_view(ix@);
                    assert(ix2 =~= ix1.push((q@, seq![token_identifier])));
                    lemma_push_entry(ix1, q@, seq![token_identifier]);
                    assert(ids_of(ix2, q@).contains(token_identifier)) by {
                        assert(ids_of(ix2, q@)[0] == token_identifier);
                    }
                }
            }
        }
    }
    proof {
        let ixf = index_view(ix@);
        assert forall|q: Seq<u8>| #[trigger] idx_contains(ixf, q, token_identifier) implies
            (match new_principal {
                Some(p) => q == p@,
                None => false,
            }) by {
            if idx_contains(ixf, q, token_identifier) {
                match new_principal {
                    Some(p) => {
                        if q != p@ {
                            assert(idx_contains(ix1, q, token_identifier));
                        }
                    }
                    None => {
                        assert(idx_contains(ix1, q, token_identifier));
                    }
                }
            }
        }
    }
}

// ---------------------------------------------------------------------------
// The ledger itself
// ---------------------------------------------------------------------------

impl Ledger {
    /// Well-formedness: unique identifiers, the per-record burn invariant,
    /// and both indexes structurally sound and exactly derived from the
    /// token store.
    pub open spec fn wf(&self) -> bool {
        &&& toks_unique(self@.tokens)
        &&& forall|i: int| 0 <= i < self@.tokens.len() ==> record_inv(#[trigger] self@.tokens[i])
        &&& index_wf(self@.owners)
        &&& index_wf(self@.operators)
        &&& owners_synced(self@.owners, self@.tokens)
        &&& operators_synced(self@.operators, self@.tokens)
    }

    /// An empty ledger.
    pub fn new() -> (r: Ledger)
        ensures
            r.wf(),
            r@.tokens.len() == 0,
            r@.owners.len() == 0,
            r@.operators.len() == 0,
            r@.tx_records.len() == 0,
            r@.metadata.name is None,
            r@.metadata.logo is None,
            r@.metadata.symbol is None,
            r@.metadata.custodians.len() == 0,
            r@.metadata.created_at == 0,
            r@.metadata.upgraded_at == 0,
    {
        Ledger {
            metadata: Metadata {
                name: None,
                logo: None,
                symbol: None,
                custodians: Vec::new(),
                created_at: 0,
                upgraded_at: 0,
            },
            tokens: Vec::new(),
            owners: Vec::new(),
            operators: Vec::new(),
            tx_records: Vec::new(),
        }
    }

    /// The position of a token record in the store, if present.
    pub fn token_position(&self, token_identifier: u64) -> (r: Option<usize>)
        ensures
            match r {
                Some(i) => i < self@.tokens.len()
                    && self@.tokens[i as int].token_identifier == token_identifier,
                None => !has_tok(self@.tokens, token_identifier),
            },
    {
        let mut i: usize = 0;
        while i < self.tokens.len()
            invariant
                i <= self.tokens.len(),
                forall|j: int| 0 <= j < i ==> self@.tokens[j].token_identifier != token_identifier,
            decreases self.tokens.len() - i,
        {
            if self.tokens[i].token_identifier == token_identifier {
                return Some(i);
            }
            i += 1;
        }
        None
    }

    /// Count of all records ever minted, burned ones included.
    pub fn tokens_count(&self) -> (r: usize)
        ensures
            r == self@.tokens.len(),
    {
        self.tokens.len()
    }

    /// Count of transactions in the log.
    pub fn tx_count(&self) -> (r: u64)
        ensures
            r == self@.tx_records.len(),
    {
        self.tx_records.len() as u64
    }

    /// Count of principals that currently own at least one token.
    pub fn owners_count(&self) -> (r: usize)
        ensures
            r == self@.owners.len(),
    {
        self.owners.len()
    }

    /// Is this identifier in the token store?
    pub fn is_token_existed(&self, token_identifier: u64) -> (r: bool)
        ensures
            r == has_tok(self@.tokens, token_identifier),
    {
        self.token_position(token_identifier).is_some()
    }

    /// The record of a token, or `TokenNotFound`.
    pub fn token_metadata(&self, token_identifier: u64) -> (r: Result<&TokenMetadata, NftError>)
        requires
            self.wf(),
        ensures
            match r {
                Ok(t) => has_tok(self@.tokens, token_identifier)
                    && t@ == tok(self@.tokens, token_identifier)
                    && t@.token_identifier == token_identifier,
                Err(e) => e == NftError::TokenNotFound && !has_tok(self@.tokens, token_identifier),
            },
            r is Ok <==> has_tok(self@.tokens, token_identifier),
    {
        match self.token_position(token_identifier) {
            Some(i) => {
                proof {
                    lemma_tok_at(self@.tokens, i as int);
                }
                Ok(&self.tokens[i])
            }
            None => Err(NftError::TokenNotFound),
        }
    }

    /// The owner of a token (`None` means the token is burned), or
    /// `TokenNotFound`.
    pub fn owner_of(&self, token_identifier: u64) -> (r: Result<Option<Principal>, NftError>)
        requires
            self.wf(),
        ensures
            match r {
                Ok(o) => has_tok(self@.tokens, token_identifier)
                    && opt_principal_view(o) == tok(self@.tokens, token_identifier).owner,
                Err(e) => e == NftError::TokenNotFound && !has_tok(self@.tokens, token_identifier),
            },
            r is Ok <==> has_tok(self@.tokens, token_identifier),
    {
        match self.token_metadata(token_identifier) {
            Ok(t) => match &t.owner {
                Some(p) => Ok(Some(p.dup())),
                None => Ok(None),
            },
            Err(e) => Err(e),
        }
    }

    /// Files a token under a new owner in the owner index.
    pub fn update_owner_cache(
        &mut self,
        token_identifier: u64,
        old_owner: Option<&Principal>,
        new_owner: Option<&Principal>,
    )
        requires
            index_wf(old(self)@.owners),
            match old_owner {
                Some(p) => idx_contains(old(self)@.owners, p@, token_identifier),
                None => true,
            },
            forall|k: int|
                0 <= k < old(self)@.owners.len() && (match old_owner {
                    Some(p) => old(self)@.owners[k].0 != p@,
                    None => true,
                }) ==> !(#[trigger] old(self)@.owners[k].1).contains(token_identifier),
        ensures
            index_wf(final(self)@.owners),
            forall|q: Seq<u8>, id2: u64|
                id2 != token_identifier ==> (idx_contains(final(self)@.owners, q, id2)
                    <==> idx_contains(old(self)@.owners, q, id2)),
            forall|q: Seq<u8>|
                #[trigger] idx_contains(final(self)@.owners, q, token_identifier) <==> (match new_owner {
                    Some(p) => q == p@,
                    None => false,
                }),
            final(self)@.tokens == old(self)@.tokens,
            final(self)@.operators == old(self)@.operators,
            final(self)@.tx_records == old(self)@.tx_records,
            final(self)@.metadata == old(self)@.metadata,
    {
        update_index(&mut self.owners, token_identifier, old_owner, new_owner);
    }

    /// Files a token under a new operator in the operator index.
    pub fn update_operator_cache(
        &mut self,
        token_identifier: u64,
        old_operator: Option<&Principal>,
        new_operator: Option<&Principal>,
    )
        requires
            index_wf(old(self)@.operators),
            match old_operator {
                Some(p) => idx_contains(old(self)@.operators, p@, token_identifier),
                None => true,
            },
            forall|k: int|
                0 <= k < old(self)@.operators.len() && (match old_operator {
                    Some(p) => old(self)@.operators[k].0 != p@,
                    None => true,
                }) ==> !(#[trigger] old(self)@.operators[k].1).contains(token_identifier),
        ensures
            index_wf(final(self)@.operators),
            forall|q: Seq<u8>, id2: u64|
                id2 != token_identifier ==> (idx_contains(final(self)@.operators, q, id2)
                    <==> idx_contains(old(self)@.operators, q, id2)),
            forall|q: Seq<u8>|
                #[trigger] idx_contains(final(self)@.operators, q, token_identifier) <==> (match new_operator {
                    Some(p) => q == p@,
                    None => false,
                }),
            final(self)@.tokens == old(self)@.tokens,
            final(self)@.owners == old(self)@.owners,
            final(self)@.tx_records == old(self)@.tx_records,
            final(self)@.metadata == old(self)@.metadata,
    {
        update_index(&mut self.operators, token_identifier, old_operator, new_operator);
    }

    /// Appends a freshly minted record to the token store.
    pub fn add_token_metadata(&mut self, token_metadata: TokenMetadata)
        ensures
            final(self)@.tokens == old(self)@.tokens.push(token_metadata@),
            final(self)@.owners == old(self)@.owners,
            final(self)@.operators == old(self)@.operators,
            final(self)@.tx_records == old(self)@.tx_records,
            final(self)@.metadata == old(self)@.metadata,
    {
        self.tokens.push(token_metadata);
        proof {
            assert(self@.tokens =~= old(self)@.tokens.push(self.tokens@[self.tokens@.len() - 1]@));
        }
    }

    /// Overwrites a record's operator and approval provenance.
    pub fn approve(
        &mut self,
        approved_by: Principal,
        token_identifier: u64,
        new_operator: Option<Principal>,
        now: u64,
    )
        requires
            toks_unique(old(self)@.tokens),
            has_tok(old(self)@.tokens, token_identifier),
        ensures
            final(self)@.tokens == old(self)@.tokens.update(
                tok_idx(old(self)@.tokens, token_identifier),
                TokenMetadataV {
                    operator: opt_principal_view(new_operator),
                    approved_by: Some(approved_by@),
                    approved_at: Some(now),
                    ..tok(old(self)@.tokens, token_identifier)
                },
            ),
            final(self)@.owners == old(self)@.owners,
            final(self)@.operators == old(self)@.operators,
            final(self)@.tx_records == old(self)@.tx_records,
            final(self)@.metadata == old(self)@.metadata,
    {
        let i = match self.token_position(token_identifier) {
            Some(i) => i,
            None => unreached(),
        };
        proof {
            lemma_tok_at(old(self)@.tokens, i as int);
        }
        let mut t = self.tokens.remove(i);
        t.operator = new_operator;
        t.approved_by = Some(approved_by);
        t.approved_at = Some(now);
        self.tokens.insert(i, t);
        proof {
            assert(self@.tokens =~= old(self)@.tokens.update(
                i as int,
                TokenMetadataV {
                    operator: opt_principal_view(new_operator),
                    approved_by: Some(approved_by@),
                    approved_at: Some(now),
                    ..tok(old(self)@.tokens, token_identifier)
                },
            ));
        }
    }

    /// Overwrites a record's owner and transfer provenance, clearing the
    /// operator.
    pub fn transfer(
        &mut self,
        transferred_by: Principal,
        token_identifier: u64,
        new_owner: Option<Principal>,
        now: u64,
    )
        requires
            toks_unique(old(self)@.tokens),
            has_tok(old(self)@.tokens, token_identifier),
        ensures
            final(self)@.tokens == old(self)@.tokens.update(
                tok_idx(old(self)@.tokens, token_identifier),
                TokenMetadataV {
                    owner: opt_principal_view(new_owner),
                    operator: None,
                    transferred_by: Some(transferred_by@),
                    transferred_at: Some(now),
                    ..tok(old(self)@.tokens, token_identifier)
                },
            ),
            final(self)@.owners == old(self)@.owners,
            final(self)@.operators == old(self)@.operators,
            final(self)@.tx_records == old(self)@.tx_records,
            final(self)@.metadata == old(self)@.metadata,
    {
        let i = match self.token_position(token_identifier) {
            Some(i) => i,
            None => unreached(),
        };
        proof {
            lemma_tok_at(old(self)@.tokens, i as int);
        }
        let mut t = self.tokens.remove(i);
        t.owner = new_owner;
        t.operator = None;
        t.transferred_by = Some(transferred_by);
        t.transferred_at = Some(now);
        self.tokens.insert(i, t);
        proof {
            assert(self@.tokens =~= old(self)@.tokens.update(
                i as int,
                TokenMetadataV {
                    owner: opt_principal_view(new_owner),
                    operator: None,
                    transferred_by: Some(transferred_by@),
                    transferred_at: Some(now),
                    ..tok(old(self)@.tokens, token_identifier)
                },
            ));
        }
    }

    /// Marks a record burned: no owner, no operator, terminal flag set.
    pub fn burn(&mut self, burned_by: Principal, token_identifier: u64, now: u64)
        requires
            toks_unique(old(self)@.tokens),
            has_tok(old(self)@.tokens, token_identifier),
        ensures
            final(self)@.tokens == old(self)@.tokens.update(
                tok_idx(old(self)@.tokens, token_identifier),
                TokenMetadataV {
                    owner: None,
                    operator: None,
                    is_burned: true,
                    burned_by: Some(burned_by@),
                    burned_at: Some(now),
                    ..tok(old(self)@.tokens, token_identifier)
                },
            ),
            final(self)@.owners == old(self)@.owners,
            final(self)@.operators == old(self)@.operators,
            final(self)@.tx_records == old(self)@.tx_records,
            final(self)@.metadata == old(self)@.metadata,
    {
        let i = match self.token_position(token_identifier) {
            Some(i) => i,
            None => unreached(),
        };
        proof {
            lemma_tok_at(old(self)@.tokens, i as int);
        }
        let mut t = self.tokens.remove(i);
        t.owner = None;
        t.operator = None;
        t.is_burned = true;
        t.burned_by = Some(burned_by);
        t.burned_at = Some(now);
        self.tokens.insert(i, t);
        proof {
            assert(self@.tokens =~= old(self)@.tokens.update(
                i as int,
                TokenMetadataV {
                    owner: None,
                    operator: None,
                    is_burned: true,
                    burned_by: Some(burned_by@),
                    burned_at: Some(now),
                    ..tok(old(self)@.tokens, token_identifier)
                },
            ));
        }
    }

    /// Appends one event to the transaction log and returns its 1-based
    /// sequence number.
    pub fn add_tx(
        &mut self,
        caller: Principal,
        operation: String,
        details: Vec<(String, GenericValue)>,
        now: u64,
    ) -> (r: u64)
        requires
            old(self)@.tx_records.len() < u64::MAX,
        ensures
            final(self)@.tx_records == old(self)@.tx_records.push(
                TxEventV {
                    time: now,
                    caller: caller@,
                    operation: operation@,
                    details: props_view(details@),
                },
            ),
            r == final(self)@.tx_records.len(),
            r == old(self)@.tx_records.len() + 1,
            final(self)@.tokens == old(self)@.tokens,
            final(self)@.owners == old(self)@.owners,
            final(self)@.operators == old(self)@.operators,
            final(self)@.metadata == old(self)@.metadata,
    {
        self.tx_records.push(TxEvent { time: now, caller, operation, details });
        proof {
            assert(self@.tx_records =~= old(self)@.tx_records.push(
                self.tx_records@[self.tx_records@.len() - 1]@,
            ));
        }
        self.tx_records.len() as u64
    }

    /// The operator of a token, or `TokenNotFound`.
    pub fn operator_of(&self, token_identifier: u64) -> (r: Result<Option<Principal>, NftError>)
        requires
            self.wf(),
        ensures
            match r {
                Ok(o) => has_tok(self@.tokens, token_identifier)
                    && opt_principal_view(o) == tok(self@.tokens, token_identifier).operator,
                Err(e) => e == NftError::TokenNotFound && !has_tok(self@.tokens, token_identifier),
            },
            r is Ok <==> has_tok(self@.tokens, token_identifier),
    {
        match self.token_metadata(token_identifier) {
            Ok(t) => match &t.operator {
                Some(p) => Ok(Some(p.dup())),
                None => Ok(None),
            },
            Err(e) => Err(e),
        }
    }
    /// The identifiers a principal currently owns, or `OwnerNotFound`.
    pub fn owner_token_identifiers(&self, owner: &Principal) -> (r: Result<&Vec<u64>, NftError>)
        requires
            self.wf(),
        ensures
            match r {
                Ok(ids) => idx_has(self@.owners, owner@) && ids@ == ids_of(self@.owners, owner@),
                Err(e) => e == NftError::OwnerNotFound && !idx_has(self@.owners, owner@),
            },
            r is Ok <==> idx_has(self@.owners, owner@),
    {
        match index_position(&self.owners, owner) {
            Some(k) => {
                proof {
                    lemma_idx_at(self@.owners, k as int);
                }
                Ok(&self.owners[k].1)
            }
            None => Err(NftError::OwnerNotFound),
        }
    }

    /// The identifiers a principal currently operates, or `OperatorNotFound`.
    pub fn operator_token_identifiers(
        &self,
        operator: &Principal,
    ) -> (r: Result<&Vec<u64>, NftError>)
        requires
            self.wf(),
        ensures
            match r {
                Ok(ids) => idx_has(self@.operators, operator@)
                    && ids@ == ids_of(self@.operators, operator@),
                Err(e) => e == NftError::OperatorNotFound && !idx_has(self@.operators, operator@),
            },
            r is Ok <==> idx_has(self@.operators, operator@),
    {
        match index_position(&self.operators, operator) {
            Some(k) => {
                proof {
                    lemma_idx_at(self@.operators, k as int);
                }
                Ok(&self.operators[k].1)
            }
            None => Err(NftError::OperatorNotFound),
        }
    }

    /// How many tokens a principal owns, or `OwnerNotFound` for a principal
    /// that owns none.
    pub fn balance_of(&self, owner: &Principal) -> (r: Result<u64, NftError>)
        requires
            self.wf(),
        ensures
            match r {
                Ok(n) => idx_has(self@.owners, owner@) && n == ids_of(self@.owners, owner@).len(),
                Err(e) => e == NftError::OwnerNotFound && !idx_has(self@.owners, owner@),
            },
            r is Ok <==> idx_has(self@.owners, owner@),
    {
        match self.owner_token_identifiers(owner) {
            Ok(ids) => Ok(ids.len() as u64),
            Err(e) => Err(e),
        }
    }

    /// The records of the tokens a principal owns, in index order.
    pub fn owner_token_metadata(&self, owner: &Principal) -> (r: Result<
        Vec<&TokenMetadata>,
        NftError,
    >)
        requires
            self.wf(),
        ensures
            match r {
                Ok(v) => {
                    &&& idx_has(self@.owners, owner@)
                    &&& v@.len() == ids_of(self@.owners, owner@).len()
                    &&& forall|j: int|
                        0 <= j < v@.len() ==> (#[trigger] v@[j])@ == tok(
                            self@.tokens,
                            ids_of(self@.owners, owner@)[j],
                        )
                },
                Err(e) => e == NftError::OwnerNotFound && !idx_has(self@.owners, owner@),
            },
            r is Ok <==> idx_has(self@.owners, owner@),
    {
        let k = match index_position(&self.owners, owner) {
            Some(k) => k,
            None => {
                return Err(NftError::OwnerNotFound);
            }
        };
        proof {
            lemma_idx_at(self@.owners, k as int);
        }
        let ids = &self.owners[k].1;
        let mut v: Vec<&TokenMetadata> = Vec::new();
        let mut a: usize = 0;
        while a < ids.len()
            invariant
                self.wf(),
                a <= ids@.len(),
                k < self@.owners.len(),
                ids@ == ids_of(self@.owners, owner@),
                ids@ == self@.owners[k as int].1,
                idx_has(self@.owners, owner@),
                idx_pos(self@.owners, owner@) == k,
                v@.len() == a,
                forall|j: int|
                    0 <= j < a ==> (#[trigger] v@[j])@ == tok(self@.tokens, ids@[j]),
            decreases ids@.len() - a,
        {
            let id = ids[a];
            proof {
                let ix = self@.owners;
                assert(ix[k as int].1[a as int] == ids@[a as int]);
                assert(has_tok(self@.tokens, ix[k as int].1[a as int]));
            }
            match self.token_metadata(id) {
                Ok(t) => {
                    v.push(t);
                }
                Err(_) => {
                    proof {
                        assert(has_tok(self@.tokens, ids@[a as int]));
                    }
                    unreached()
                }
            }
            a += 1;
        }
        Ok(v)
    }

    /// The records of the tokens a principal operates, in index order.
    pub fn operator_token_metadata(&self, operator: &Principal) -> (r: Result<
        Vec<&TokenMetadata>,
        NftError,
    >)
        requires
            self.wf(),
        ensures
            match r {
                Ok(v) => {
                    &&& idx_has(self@.operators, operator@)
                    &&& v@.len() == ids_of(self@.operators, operator@).len()
                    &&& forall|j: int|
                        0 <= j < v@.len() ==> (#[trigger] v@[j])@ == tok(
                            self@.tokens,
                            ids_of(self@.operators, operator@)[j],
                        )
                },
                Err(e) => e == NftError::OperatorNotFound && !idx_has(self@.operators, operator@),
            },
            r is Ok <==> idx_has(self@.operators, operator@),
    {
        let k = match index_position(&self.operators, operator) {
            Some(k) => k,
            None => {
                return Err(NftError::OperatorNotFound);
            }
        };
        proof {
            lemma_idx_at(self@.operators, k as int);
        }
        let ids = &self.operators[k].1;
        let mut v: Vec<&TokenMetadata> = Vec::new();
        let mut a: usize = 0;
        while a < ids.len()
            invariant
                self.wf(),
                a <= ids@.len(),
                k < self@.operators.len(),
                ids@ == ids_of(self@.operators, operator@),
                ids@ == self@.operators[k as int].1,
                idx_has(self@.operators, operator@),
                idx_pos(self@.operators, operator@) == k,
                v@.len() == a,
                forall|j: int|
                    0 <= j < a ==> (#[trigger] v@[j])@ == tok(self@.tokens, ids@[j]),
            decreases ids@.len() - a,
        {
            let id = ids[a];
            proof {
                let ix = self@.operators;
                assert(ix[k as int].1[a as int] == ids@[a as int]);
                assert(has_tok(self@.tokens, ix[k as int].1[a as int]));
            }
            match self.token_metadata(id) {
                Ok(t) => {
                    v.push(t);
                }
                Err(_) => {
                    proof {
                        assert(has_tok(self@.tokens, ids@[a as int]));
                    }
                    unreached()
                }
            }
            a += 1;
        }
        Ok(v)
    }

    /// Does one operator hold approval on every token the owner owns?
    /// `OwnerNotFound` for a principal that owns nothing.
    pub fn is_approved_for_all(&self, owner: &Principal, operator: &Principal) -> (r: Result<
        bool,
        NftError,
    >)
        requires
            self.wf(),
        ensures
            match r {
                Ok(b) => {
                    &&& idx_has(self@.owners, owner@)
                    &&& b <==> (forall|j: int|
                        0 <= j < ids_of(self@.owners, owner@).len() ==> tok(
                            self@.tokens,
                            #[trigger] ids_of(self@.owners, owner@)[j],
                        ).operator == Some(operator@))
                },
                Err(e) => e == NftError::OwnerNotFound && !idx_has(self@.owners, owner@),
            },
            r is Ok <==> idx_has(self@.owners, owner@),
    {
        let k = match index_position(&self.owners, owner) {
            Some(k) => k,
            None => {
                return Err(NftError::OwnerNotFound);
            }
        };
        proof {
            lemma_idx_at(self@.owners, k as int);
        }
        let ids = &self.owners[k].1;
        let mut a: usize = 0;
        while a < ids.len()
            invariant
                self.wf(),
                a <= ids@.len(),
                k < self@.owners.len(),
                ids@ == ids_of(self@.owners, owner@),
                ids@ == self@.owners[k as int].1,
                idx_has(self@.owners, owner@),
                idx_pos(self@.owners, owner@) == k,
                forall|j: int|
                    0 <= j < a ==> tok(self@.tokens, #[trigger] ids@[j]).operator == Some(
                        operator@,
                    ),
            decreases ids@.len() - a,
        {
            let id = ids[a];
            proof {
                let ix = self@.owners;
                assert(ix[k as int].1[a as int] == ids@[a as int]);
                assert(has_tok(self@.tokens, ix[k as int].1[a as int]));
            }
            match self.token_metadata(id) {
                Ok(t) => {
                    let same = match &t.operator {
                        Some(p) => p == operator,
                        None => false,
                    };
                    if !same {
                        return Ok(false);
                    }
                }
                Err(_) => {
                    proof {
                        assert(has_tok(self@.tokens, ids@[a as int]));
                    }
                    unreached()
                }
            }
            a += 1;
        }
        Ok(true)
    }

    /// The event with a 1-based sequence number, or `TxNotFound` when the
    /// number is zero or beyond the log.
    pub fn transaction(&self, tx_id: u64) -> (r: Result<&TxEvent, NftError>)
        ensures
            match r {
                Ok(ev) => 1 <= tx_id <= self@.tx_records.len() && ev@ == self@.tx_records[
                    tx_id - 1
                ],
                Err(e) => e == NftError::TxNotFound && (tx_id == 0 || tx_id > self@.tx_records.len()),
            },
            r is Ok <==> 1 <= tx_id <= self@.tx_records.len(),
    {
        if tx_id == 0 || tx_id > self.tx_records.len() as u64 {
            Err(NftError::TxNotFound)
        } else {
            Ok(&self.tx_records[(tx_id - 1) as usize])
        }
    }

    /// Total supply: every record ever minted, burned ones included.
    pub fn total_supply(&self) -> (r: u64)
        ensures
            r == self@.tokens.len(),
    {
        self.tokens.len() as u64
    }

    /// Count of transactions in the log.
    pub fn total_transactions(&self) -> (r: u64)
        ensures
            r == self@.tx_records.len(),
    {
        self.tx_records.len() as u64
    }

    /// Count of principals that currently own at least one token.
    pub fn total_unique_holders(&self) -> (r: u64)
        ensures
            r == self@.owners.len(),
    {
        self.owners.len() as u64
    }

    /// Aggregate counters, with the host-supplied cycle balance.
    pub fn stats(&self, cycles: u64) -> (r: crate::types::Stats)
        ensures
            r.total_transactions == self@.tx_records.len(),
            r.total_supply == self@.tokens.len(),
            r.cycles == cycles,
            r.total_unique_holders == self@.owners.len(),
    {
        crate::types::Stats {
            total_transactions: self.total_transactions(),
            total_supply: self.total_supply(),
            cycles,
            total_unique_holders: self.total_unique_holders(),
        }
    }

    /// The ledger-wide configuration.
    pub fn metadata(&self) -> (r: &Metadata)
        ensures
            r@ == self@.metadata,
    {
        &self.metadata
    }

    /// Mutable access to the ledger-wide configuration.
    pub fn metadata_mut(&mut self) -> (r: &mut Metadata)
        ensures
            (*r)@ == old(self)@.metadata,
            final(self)@.metadata == (*final(r))@,
            final(self)@.tokens == old(self)@.tokens,
            final(self)@.owners == old(self)@.owners,
            final(self)@.operators == old(self)@.operators,
            final(self)@.tx_records == old(self)@.tx_records,
            old(self).wf() ==> final(self).wf(),
    {
        &mut self.metadata
    }

    /// The configured display name.
    pub fn name(&self) -> (r: &Option<String>)
        ensures
            opt_string_view(*r) == self@.metadata.name,
    {
        &self.metadata.name
    }

    /// The configured logo.
    pub fn logo(&self) -> (r: &Option<String>)
        ensures
            opt_string_view(*r) == self@.metadata.logo,
    {
        &self.metadata.logo
    }

    /// The configured symbol.
    pub fn symbol(&self) -> (r: &Option<String>)
        ensures
            opt_string_view(*r) == self@.metadata.symbol,
    {
        &self.metadata.symbol
    }

    /// The custodian set.
    pub fn custodians(&self) -> (r: &Vec<Principal>)
        ensures
            r@.map(|i: int, p: Principal| p@) == self@.metadata.custodians,
    {
        &self.metadata.custodians
    }

    /// Sets the display name.
    pub fn set_name(&mut self, name: String)
        ensures
            final(self)@.metadata == (MetadataV { name: Some(name@), ..old(self)@.metadata }),
            final(self)@.tokens == old(self)@.tokens,
            final(self)@.owners == old(self)@.owners,
            final(self)@.operators == old(self)@.operators,
            final(self)@.tx_records == old(self)@.tx_records,
            old(self).wf() ==> final(self).wf(),
    {
        self.metadata.name = Some(name);
    }

    /// Sets the logo.
    pub fn set_logo(&mut self, logo: String)
        ensures
            final(self)@.metadata == (MetadataV { logo: Some(logo@), ..old(self)@.metadata }),
            final(self)@.tokens == old(self)@.tokens,
            final(self)@.owners == old(self)@.owners,
            final(self)@.operators == old(self)@.operators,
            final(self)@.tx_records == old(self)@.tx_records,
            old(self).wf() ==> final(self).wf(),
    {
        self.metadata.logo = Some(logo);
    }

    /// Sets the symbol.
    pub fn set_symbol(&mut self, symbol: String)
        ensures
            final(self)@.metadata == (MetadataV { symbol: Some(symbol@), ..old(self)@.metadata }),
            final(self)@.tokens == old(self)@.tokens,
            final(self)@.owners == old(self)@.owners,
            final(self)@.operators == old(self)@.operators,
            final(self)@.tx_records == old(self)@.tx_records,
            old(self).wf() ==> final(self).wf(),
    {
        self.metadata.symbol = Some(symbol);
    }

    /// Replaces the custodian set.
    pub fn set_custodians(&mut self, custodians: Vec<Principal>)
        ensures
            final(self)@.metadata == (MetadataV {
                custodians: custodians@.map(|i: int, p: Principal| p@),
                ..old(self)@.metadata
            }),
            final(self)@.tokens == old(self)@.tokens,
            final(self)@.owners == old(self)@.owners,
            final(self)@.operators == old(self)@.operators,
            final(self)@.tx_records == old(self)@.tx_records,
            old(self).wf() ==> final(self).wf(),
    {
        self.metadata.custodians = custodians;
    }

    /// Is the caller one of the custodians?
    pub fn is_canister_custodian(&self, caller: &Principal) -> (r: bool)
        ensures
            r == self@.metadata.custodians.contains(caller@),
    {
        let mut k: usize = 0;
        while k < self.metadata.custodians.len()
            invariant
                k <= self.metadata.custodians@.len(),
                forall|j: int| 0 <= j < k ==> self@.metadata.custodians[j] != caller@,
            decreases self.metadata.custodians@.len() - k,
        {
            if &self.metadata.custodians[k] == caller {
                proof {
                    assert(self@.metadata.custodians[k as int] == caller@);
                }
                return true;
            }
            k += 1;
        }
        proof {
            assert(!self@.metadata.custodians.contains(caller@)) by {
                if self@.metadata.custodians.contains(caller@) {
                    let j = choose|j: int|
                        0 <= j < self@.metadata.custodians.len() && self@.metadata.custodians[j]
                            == caller@;
                }
            }
        }
        false
    }

    /// Applies the initial configuration: the deploying principal becomes a
    /// custodian, optional display fields and extra custodians are taken
    /// from the arguments, and both timestamps are set to `now`.
    pub fn init_metadata(&mut self, default_custodian: Principal, args: Option<InitArgs>, now: u64)
        ensures
            final(self)@.metadata.created_at == now,
            final(self)@.metadata.upgraded_at == now,
            final(self)@.metadata.name == (match args {
                Some(a) => a@.name,
                None => old(self)@.metadata.name,
            }),
            final(self)@.metadata.logo == (match args {
                Some(a) => a@.logo,
                None => old(self)@.metadata.logo,
            }),
            final(self)@.metadata.symbol == (match args {
                Some(a) => a@.symbol,
                None => old(self)@.metadata.symbol,
            }),
            forall|q: Seq<u8>|
                #[trigger] final(self)@.metadata.custodians.contains(q) <==> {
                    ||| old(self)@.metadata.custodians.contains(q)
                    ||| q == default_custodian@
                    ||| (match args {
                        Some(a) => a@.custodians matches Some(cs) && cs.contains(q),
                        None => false,
                    })
                },
            final(self)@.tokens == old(self)@.tokens,
            final(self)@.owners == old(self)@.owners,
            final(self)@.operators == old(self)@.operators,
            final(self)@.tx_records == old(self)@.tx_records,
            old(self).wf() ==> final(self).wf(),
    {
        self.metadata.created_at = now;
        self.metadata.upgraded_at = now;
        self.insert_custodian(default_custodian);
        let ghost mid = self@;
        proof {
            assert(forall|q: Seq<u8>|
                #[trigger] mid.metadata.custodians.contains(q) <==> (old(
                    self,
                )@.metadata.custodians.contains(q) || q == default_custodian@));
        }
        match args {
            Some(a) => {
                let ghost av = a@;
                self.metadata.name = a.name;
                self.metadata.logo = a.logo;
                self.metadata.symbol = a.symbol;
                proof {
                    assert(self@.metadata.custodians == mid.metadata.custodians);
                    assert(forall|q: Seq<u8>|
                        #[trigger] self@.metadata.custodians.contains(q) <==> (old(
                            self,
                        )@.metadata.custodians.contains(q) || q == default_custodian@));
                }
                match a.custodians {
                    Some(cs) => {
                        let ghost csv = cs@.map(|i: int, p: Principal| p@);
                        let ghost snap = self@;
                        let mut c: usize = 0;
                        while c < cs.len()
                            invariant
                                c <= cs@.len(),
                                csv == cs@.map(|i: int, p: Principal| p@),
                                forall|q: Seq<u8>|
                                    #[trigger] snap.metadata.custodians.contains(q) <==> (old(
                                        self,
                                    )@.metadata.custodians.contains(q) || q
                                        == default_custodian@),
                                snap.metadata.name == av.name,
                                snap.metadata.logo == av.logo,
                                snap.metadata.symbol == av.symbol,
                                snap.metadata.created_at == now,
                                snap.metadata.upgraded_at == now,
                                snap.tokens == old(self)@.tokens,
                                snap.owners == old(self)@.owners,
                                snap.operators == old(self)@.operators,
                                snap.tx_records == old(self)@.tx_records,
                                forall|q: Seq<u8>|
                                    #[trigger] self@.metadata.custodians.contains(q) <==> (
                                    snap.metadata.custodians.contains(q) || exists|j: int|
                                        0 <= j < c && csv[j] == q),
                                self@.metadata.name == snap.metadata.name,
                                self@.metadata.logo == snap.metadata.logo,
                                self@.metadata.symbol == snap.metadata.symbol,
                                self@.metadata.created_at == snap.metadata.created_at,
                                self@.metadata.upgraded_at == snap.metadata.upgraded_at,
                                self@.tokens == snap.tokens,
                                self@.owners == snap.owners,
                                self@.operators == snap.operators,
                                self@.tx_records == snap.tx_records,
                            decreases cs@.len() - c,
                        {
                            let p = cs[c].dup();
                            proof {
                                assert(p@ == csv[c as int]);
                            }
                            self.insert_custodian(p);
                            c += 1;
                        }
                        proof {
                            assert forall|q: Seq<u8>|
                                #[trigger] self@.metadata.custodians.contains(q) <==> (old(
                                    self,
                                )@.metadata.custodians.contains(q) || q == default_custodian@
                                || csv.contains(q)) by {
                                if csv.contains(q) {
                                    let j = choose|j: int| 0 <= j < csv.len() && csv[j] == q;
                                    assert(exists|j: int| 0 <= j < c && csv[j] == q);
                                }
                                if self@.metadata.custodians.contains(q) {
                                    if !snap.metadata.custodians.contains(q) {
                                        let j = choose|j: int| 0 <= j < c && csv[j] == q;
                                        assert(csv.contains(q));
                                    }
                                }
                            }
                        }
                    }
                    None => {}
                }
            }
            None => {}
        }
    }

    /// Throws both index caches away and rebuilds them from the token
    /// store alone: the canonical recovery procedure after a restore or a
    /// layout migration.
    pub fn rebuild_indexes(&mut self)
        requires
            toks_unique(old(self)@.tokens),
            forall|i: int|
                0 <= i < old(self)@.tokens.len() ==> record_inv(#[trigger] old(self)@.tokens[i]),
        ensures
            final(self).wf(),
            final(self)@.tokens == old(self)@.tokens,
            final(self)@.tx_records == old(self)@.tx_records,
            final(self)@.metadata == old(self)@.metadata,
    {
        self.owners = Vec::new();
        self.operators = Vec::new();
        proof {
            assert(index_view(self.owners@) =~= Seq::<(Seq<u8>, Seq<u64>)>::empty());
            assert(index_view(self.operators@) =~= Seq::<(Seq<u8>, Seq<u64>)>::empty());
        }
        let mut i: usize = 0;
        while i < self.tokens.len()
            invariant
                i <= self@.tokens.len(),
                toks_unique(self@.tokens),
                forall|j: int|
                    0 <= j < self@.tokens.len() ==> record_inv(#[trigger] self@.tokens[j]),
                self@.tokens == old(self)@.tokens,
                self@.tx_records == old(self)@.tx_records,
                self@.metadata == old(self)@.metadata,
                index_wf(self@.owners),
                index_wf(self@.operators),
                forall|q: Seq<u8>, id: u64|
                    #[trigger] idx_contains(self@.owners, q, id) <==> (exists|j: int|
                        0 <= j < i && (#[trigger] self@.tokens[j]).token_identifier == id
                            && self@.tokens[j].owner == Some(q)),
                forall|q: Seq<u8>, id: u64|
                    #[trigger] idx_contains(self@.operators, q, id) <==> (exists|j: int|
                        0 <= j < i && (#[trigger] self@.tokens[j]).token_identifier == id
                            && self@.tokens[j].operator == Some(q)),
            decreases self@.tokens.len() - i,
        {
            let id = self.tokens[i].token_identifier;
            let owner_opt: Option<Principal> = match &self.tokens[i].owner {
                Some(p) => Some(p.dup()),
                None => None,
            };
            let operator_opt: Option<Principal> = match &self.tokens[i].operator {
                Some(p) => Some(p.dup()),
                None => None,
            };
            proof {
                assert forall|k: int|
                    0 <= k < self@.owners.len() implies !(#[trigger] self@.owners[k].1).contains(
                    id,
                ) by {
                    if self@.owners[k].1.contains(id) {
                        lemma_idx_at(self@.owners, k);
                        assert(idx_contains(self@.owners, self@.owners[k].0, id));
                        let j = choose|j: int|
                            0 <= j < i && (#[trigger] self@.tokens[j]).token_identifier == id
                                && self@.tokens[j].owner == Some(self@.owners[k].0);
                        assert(self@.tokens[j].token_identifier
                            == self@.tokens[i as int].token_identifier);
                    }
                }
                assert forall|k: int|
                    0 <= k < self@.operators.len() implies !(
                    #[trigger] self@.operators[k].1).contains(id) by {
                    if self@.operators[k].1.contains(id) {
                        lemma_idx_at(self@.operators, k);
                        assert(idx_contains(self@.operators, self@.operators[k].0, id));
                        let j = choose|j: int|
                            0 <= j < i && (#[trigger] self@.tokens[j]).token_identifier == id
                                && self@.tokens[j].operator == Some(self@.operators[k].0);
                        assert(self@.tokens[j].token_identifier
                            == self@.tokens[i as int].token_identifier);
                    }
                }
            }
            self.update_owner_cache(
                id,
                None,
                match &owner_opt {
                    Some(p) => Some(p),
                    None => None,
                },
            );
            self.update_operator_cache(
                id,
                None,
                match &operator_opt {
                    Some(p) => Some(p),
                    None => None,
                },
            );
            proof {
                assert forall|q: Seq<u8>, id2: u64|
                    #[trigger] idx_contains(self@.owners, q, id2) <==> (exists|j: int|
                        0 <= j < i + 1 && (#[trigger] self@.tokens[j]).token_identifier == id2
                            && self@.tokens[j].owner == Some(q)) by {
                    if id2 == id {
                        if idx_contains(self@.owners, q, id2) {
                            assert(self@.tokens[i as int].owner == Some(q));
                        }
                        if exists|j: int|
                            0 <= j < i + 1 && (#[trigger] self@.tokens[j]).token_identifier == id2
                                && self@.tokens[j].owner == Some(q) {
                            let j = choose|j: int|
                                0 <= j < i + 1 && (#[trigger] self@.tokens[j]).token_identifier
                                    == id2 && self@.tokens[j].owner == Some(q);
                            assert(j == i);
                        }
                    } else {
                        if exists|j: int|
                            0 <= j < i + 1 && (#[trigger] self@.tokens[j]).token_identifier == id2
                                && self@.tokens[j].owner == Some(q) {
                            let j = choose|j: int|
                                0 <= j < i + 1 && (#[trigger] self@.tokens[j]).token_identifier
                                    == id2 && self@.tokens[j].owner == Some(q);
                            assert(j != i);
                            assert(exists|j2: int|
                                0 <= j2 < i && (#[trigger] self@.tokens[j2]).token_identifier
                                    == id2 && self@.tokens[j2].owner == Some(q));
                        }
                    }
                }
                assert forall|q: Seq<u8>, id2: u64|
                    #[trigger] idx_contains(self@.operators, q, id2) <==> (exists|j: int|
                        0 <= j < i + 1 && (#[trigger] self@.tokens[j]).token_identifier == id2
                            && self@.tokens[j].operator == Some(q)) by {
                    if id2 == id {
                        if idx_contains(self@.operators, q, id2) {
                            assert(self@.tokens[i as int].operator == Some(q));
                        }
                        if exists|j: int|
                            0 <= j < i + 1 && (#[trigger] self@.tokens[j]).token_identifier == id2
                                && self@.tokens[j].operator == Some(q) {
                            let j = choose|j: int|
                                0 <= j < i + 1 && (#[trigger] self@.tokens[j]).token_identifier
                                    == id2 && self@.tokens[j].operator == Some(q);
                            assert(j == i);
                        }
                    } else {
                        if exists|j: int|
                            0 <= j < i + 1 && (#[trigger] self@.tokens[j]).token_identifier == id2
                                && self@.tokens[j].operator == Some(q) {
                            let j = choose|j: int|
                                0 <= j < i + 1 && (#[trigger] self@.tokens[j]).token_identifier
                                    == id2 && self@.tokens[j].operator == Some(q);
                            assert(j != i);
                            assert(exists|j2: int|
                                0 <= j2 < i && (#[trigger] self@.tokens[j2]).token_identifier
                                    == id2 && self@.tokens[j2].operator == Some(q));
                        }
                    }
                }
            }
            i += 1;
        }
        proof {
            assert forall|k: int, a: int|
                0 <= k < self@.owners.len() && 0 <= a < self@.owners[k].1.len() implies {
                    &&& has_tok(self@.tokens, #[trigger] self@.owners[k].1[a])
                    &&& tok(self@.tokens, self@.owners[k].1[a]).owner == Some(self@.owners[k].0)
                } by {
                let id2 = self@.owners[k].1[a];
                lemma_idx_at(self@.owners, k);
                assert(ids_of(self@.owners, self@.owners[k].0).contains(id2));
                assert(idx_contains(self@.owners, self@.owners[k].0, id2));
                let j = choose|j: int|
                    0 <= j < i && (#[trigger] self@.tokens[j]).token_identifier == id2
                        && self@.tokens[j].owner == Some(self@.owners[k].0);
                lemma_tok_at(self@.tokens, j);
            }
            assert forall|j: int|
                0 <= j < self@.tokens.len() && (#[trigger] self@.tokens[j].owner) is Some
                    implies idx_contains(
                self@.owners,
                self@.tokens[j].owner->0,
                self@.tokens[j].token_identifier,
            ) by {
                assert(exists|j2: int|
                    0 <= j2 < i && (#[trigger] self@.tokens[j2]).token_identifier
                        == self@.tokens[j].token_identifier && self@.tokens[j2].owner
                        == self@.tokens[j].owner);
            }
            assert forall|k: int, a: int|
                0 <= k < self@.operators.len() && 0 <= a < self@.operators[k].1.len() implies {
                    &&& has_tok(self@.tokens, #[trigger] self@.operators[k].1[a])
                    &&& tok(self@.tokens, self@.operators[k].1[a]).operator == Some(
                        self@.operators[k].0,
                    )
                } by {
                let id2 = self@.operators[k].1[a];
                lemma_idx_at(self@.operators, k);
                assert(ids_of(self@.operators, self@.operators[k].0).contains(id2));
                assert(idx_contains(self@.operators, self@.operators[k].0, id2));
                let j = choose|j: int|
                    0 <= j < i && (#[trigger] self@.tokens[j]).token_identifier == id2
                        && self@.tokens[j].operator == Some(self@.operators[k].0);
                lemma_tok_at(self@.tokens, j);
            }
            assert forall|j: int|
                0 <= j < self@.tokens.len() && (#[trigger] self@.tokens[j].operator) is Some
                    implies idx_contains(
                self@.operators,
                self@.tokens[j].operator->0,
                self@.tokens[j].token_identifier,
            ) by {
                assert(exists|j2: int|
                    0 <= j2 < i && (#[trigger] self@.tokens[j2]).token_identifier
                        == self@.tokens[j].token_identifier && self@.tokens[j2].operator
                        == self@.tokens[j].operator);
            }
        }
    }

    /// Adds one custodian if absent.
    fn insert_custodian(&mut self, custodian: Principal)
        ensures
            forall|q: Seq<u8>|
                #[trigger] final(self)@.metadata.custodians.contains(q) <==> (old(
                    self,
                )@.metadata.custodians.contains(q) || q == custodian@),
            final(self)@.metadata.name == old(self)@.metadata.name,
            final(self)@.metadata.logo == old(self)@.metadata.logo,
            final(self)@.metadata.symbol == old(self)@.metadata.symbol,
            final(self)@.metadata.created_at == old(self)@.metadata.created_at,
            final(self)@.metadata.upgraded_at == old(self)@.metadata.upgraded_at,
            final(self)@.tokens == old(self)@.tokens,
            final(self)@.owners == old(self)@.owners,
            final(self)@.operators == old(self)@.operators,
            final(self)@.tx_records == old(self)@.tx_records,
    {
        if !self.is_canister_custodian(&custodian) {
            let ghost before = self@.metadata.custodians;
            self.metadata.custodians.push(custodian);
            proof {
                assert forall|q: Seq<u8>|
                    #[trigger] self@.metadata.custodians.contains(q) <==> (before.contains(q) || q
                        == custodian@) by {
                    let cs = self@.metadata.custodians;
                    if cs.contains(q) {
                        let j = choose|j: int| 0 <= j < cs.len() && cs[j] == q;
                        if j < cs.len() - 1 {
                            assert(before[j] == q);
                        }
                    }
                    if before.contains(q) {
                        let j = choose|j: int| 0 <= j < before.len() && before[j] == q;
                        assert(cs[j] == q);
                    }
                    assert(cs[cs.len() - 1] == custodian@);
                }
            }
        }
    }
}

} // verus!
