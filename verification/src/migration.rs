//! Migration from the older serialized layout.
//!
//! The older layout kept one owner list per token, string identifiers
//! parsed from indexes, and a separate metadata record. Migration turns it
//! into the current id-to-record token store and rebuilds both reverse
//! indexes from the store alone — the canonical recovery procedure. All
//! operators are reset and the transaction log starts empty.

use vstd::prelude::*;
use crate::ledger::Ledger;
use crate::principal::Principal;
use crate::types::{Metadata, TokenMetadata};
use crate::values::{GenericValue, GenericValueV};

verus! {

/// The older layout's ledger-wide record.
#[derive(Debug)]
pub struct LegacyTokenLevelMetadata {
    pub owner: Option<Principal>,
    pub symbol: String,
    pub name: String,
    pub history: Option<Principal>,
}

/// The older layout's per-token record.
#[derive(Debug)]
pub struct LegacyTokenMetadata {
    pub account_identifier: String,
    pub token_identifier: String,
    pub principal: Principal,
    pub metadata_desc: Vec<MetadataPart>,
}

/// One metadata part of the older layout.
#[derive(Debug)]
pub struct MetadataPart {
    pub purpose: MetadataPurpose,
    pub key_val_data: Vec<MetadataKeyVal>,
    pub data: Vec<u8>,
}

/// What a metadata part was for.
#[derive(Clone, Copy, Debug, PartialEq, Eq, Structural)]
pub enum MetadataPurpose {
    Preview,
    Rendered,
}

/// One key-value pair of the older layout.
#[derive(Debug)]
pub struct MetadataKeyVal {
    pub key: String,
    pub val: MetadataVal,
}

/// A typed value of the older layout.
#[derive(Debug)]
pub enum MetadataVal {
    TextContent(String),
    BlobContent(Vec<u8>),
    Nat64Content(u64),
}

/// The older layout's ledger.
#[derive(Debug)]
pub struct LegacyLedger {
    pub tokens: Vec<(u64, LegacyTokenMetadata)>,
    pub user_tokens: Vec<(Principal, Vec<u64>)>,
    pub token_approvals: Vec<(u64, Principal)>,
    pub operator_approvals: Vec<(Principal, Vec<Principal>)>,
}

/// The current-layout value of an older typed value.
pub open spec fn val_view(v: MetadataVal) -> GenericValueV {
    match v {
        MetadataVal::TextContent(s) => GenericValueV::Text(s@),
        MetadataVal::BlobContent(b) => GenericValueV::Blob(b@),
        MetadataVal::Nat64Content(n) => GenericValueV::Nat64(n),
    }
}

/// The property pairs carried by one metadata part.
pub open spec fn part_pairs(p: MetadataPart) -> Seq<(Seq<char>, GenericValueV)> {
    p.key_val_data@.map(|i: int, kv: MetadataKeyVal| (kv.key@, val_view(kv.val)))
}

/// All property pairs of a legacy record, parts flattened in order.
pub open spec fn flat_pairs(parts: Seq<MetadataPart>) -> Seq<(Seq<char>, GenericValueV)>
    decreases parts.len(),
{
    if parts.len() == 0 {
        Seq::empty()
    } else {
        part_pairs(parts[0]) + flat_pairs(parts.drop_first())
    }
}

/// Flattening one more part appends its pairs.
proof fn lemma_flat_snoc(parts: Seq<MetadataPart>, j: int)
    requires
        0 <= j < parts.len(),
    ensures
        flat_pairs(parts.take(j + 1)) == flat_pairs(parts.take(j)) + part_pairs(parts[j]),
    decreases j,
{
    if j == 0 {
        assert(flat_pairs(Seq::<MetadataPart>::empty()) == Seq::<
            (Seq<char>, GenericValueV),
        >::empty());
        assert(parts.take(1) =~= seq![parts[0]]);
        assert(parts.take(1).drop_first() =~= Seq::<MetadataPart>::empty());
        assert(flat_pairs(parts.take(1)) == part_pairs(parts.take(1)[0]) + flat_pairs(
            parts.take(1).drop_first(),
        ));
        assert(parts.take(0) =~= Seq::<MetadataPart>::empty());
        assert(flat_pairs(parts.take(1)) =~= flat_pairs(parts.take(0)) + part_pairs(parts[0]));
    } else {
        let d = parts.drop_first();
        lemma_flat_snoc(d, j - 1);
        assert(parts.take(j + 1).drop_first() =~= d.take(j));
        assert(parts.take(j).drop_first() =~= d.take(j - 1));
        assert(parts.take(j + 1)[0] == parts[0]);
        assert(parts.take(j)[0] == parts[0]);
        assert(d[j - 1] == parts[j]);
        assert(part_pairs(parts[0]) + (flat_pairs(d.take(j - 1)) + part_pairs(parts[j])) =~= (
        part_pairs(parts[0]) + flat_pairs(d.take(j - 1))) + part_pairs(parts[j]));
    }
}

/// Converts one older typed value.
fn convert_val(v: MetadataVal) -> (r: GenericValue)
    ensures
        r@ == val_view(v),
{
    match v {
        MetadataVal::TextContent(s) => GenericValue::TextContent(s),
        MetadataVal::BlobContent(b) => GenericValue::BlobContent(b),
        MetadataVal::Nat64Content(n) => GenericValue::Nat64Content(n),
    }
}

/// Flattens a legacy record's metadata parts into current-layout
/// properties.
fn convert_properties(parts: Vec<MetadataPart>) -> (r: Vec<(String, GenericValue)>)
    ensures
        crate::values::props_view(r@) == flat_pairs(parts@),
{
    let mut r: Vec<(String, GenericValue)> = Vec::new();
    let n = parts.len();
    let ghost partsv = parts@;
    let mut rest = parts;
    let mut i: usize = 0;
    // consume the parts from the front, keeping the processed prefix's
    // pairs in `r`
    while i < n
        invariant
            i <= n,
            n == partsv.len(),
            rest@ == partsv.skip(i as int),
            crate::values::props_view(r@) == flat_pairs(partsv.take(i as int)),
        decreases n - i,
    {
        let part = rest.remove(0);
        proof {
            assert(partsv.skip(i as int)[0] == partsv[i as int]);
            assert(part == partsv[i as int]);
            assert(rest@ =~= partsv.skip(i as int + 1));
        }
        let ghost rsnap = r@;
        let mut kvs = part.key_val_data;
        let ghost kvsv = kvs@;
        let m = kvs.len();
        let mut j: usize = 0;
        proof {
            assert(part_pairs_prefix(kvsv, 0) =~= Seq::<(Seq<char>, GenericValueV)>::empty());
            assert(crate::values::props_view(r@) =~= crate::values::props_view(rsnap)
                + part_pairs_prefix(kvsv, 0));
        }
        while j < m
            invariant
                j <= m,
                m == kvsv.len(),
                kvs@ == kvsv.skip(j as int),
                crate::values::props_view(r@) == crate::values::props_view(rsnap) + part_pairs_prefix(
                    kvsv,
                    j as int,
                ),
            decreases m - j,
        {
            let kv = kvs.remove(0);
            proof {
                assert(kvsv.skip(j as int)[0] == kvsv[j as int]);
                assert(kv == kvsv[j as int]);
                assert(kvs@ =~= kvsv.skip(j as int + 1));
            }
            let value = convert_val(kv.val);
            let ghost rprev = r@;
            r.push((kv.key, value));
            proof {
                assert(part_pairs_prefix(kvsv, j as int + 1) =~= part_pairs_prefix(
                    kvsv,
                    j as int,
                ).push((kvsv[j as int].key@, val_view(kvsv[j as int].val))));
                assert(crate::values::props_view(r@) =~= crate::values::props_view(rprev).push(
                    (kv.key@, value@),
                ));
                assert(crate::values::props_view(r@) =~= crate::values::props_view(rsnap)
                    + part_pairs_prefix(kvsv, j as int + 1));
            }
            j += 1;
        }
        proof {
            assert(part_pairs_prefix(kvsv, m as int) =~= partsv[i as int].key_val_data@.map(
                |k: int, kv: MetadataKeyVal| (kv.key@, val_view(kv.val)),
            ));
            lemma_flat_snoc(partsv, i as int);
            assert(crate::values::props_view(r@) =~= flat_pairs(partsv.take(i as int + 1)));
        }
        i += 1;
    }
    proof {
        assert(partsv.take(partsv.len() as int) =~= partsv);
    }
    r
}

/// The first `j` pairs of a part's key-value list.
pub open spec fn part_pairs_prefix(kvs: Seq<MetadataKeyVal>, j: int) -> Seq<
    (Seq<char>, GenericValueV),
> {
    kvs.take(j).map(|i: int, kv: MetadataKeyVal| (kv.key@, val_view(kv.val)))
}

/// Rebuilds a current-layout ledger from the older one: name and symbol
/// carry over, the owner becomes the only custodian, every token is owned
/// by its legacy principal with operators reset, both indexes are rebuilt
/// from the token store alone, and the transaction log starts empty.
pub fn migrate_legacy(
    metadata_store: LegacyTokenLevelMetadata,
    ledger_store: LegacyLedger,
    now: u64,
) -> (r: Ledger)
    requires
        forall|i: int, j: int|
            0 <= i < j < ledger_store.tokens@.len() ==> ledger_store.tokens@[i].0
                != ledger_store.tokens@[j].0,
    ensures
        r.wf(),
        r@.metadata.name == Some(metadata_store.name@),
        r@.metadata.logo is None,
        r@.metadata.symbol == Some(metadata_store.symbol@),
        r@.metadata.custodians == (match metadata_store.owner {
            Some(p) => seq![p@],
            None => Seq::<Seq<u8>>::empty(),
        }),
        r@.metadata.created_at == now,
        r@.metadata.upgraded_at == now,
        r@.tokens.len() == ledger_store.tokens@.len(),
        forall|i: int|
            0 <= i < ledger_store.tokens@.len() ==> {
                let t = #[trigger] r@.tokens[i];
                &&& t.token_identifier == ledger_store.tokens@[i].0
                &&& t.owner == Some(ledger_store.tokens@[i].1.principal@)
                &&& t.operator is None
                &&& !t.is_burned
                &&& t.properties == flat_pairs(ledger_store.tokens@[i].1.metadata_desc@)
                &&& t.minted_at == now
                &&& t.minted_by == ledger_store.tokens@[i].1.principal@
            },
        r@.operators.len() == 0,
        r@.tx_records.len() == 0,
{
    let custodians: Vec<Principal> = match metadata_store.owner {
        Some(p) => {
            let mut v: Vec<Principal> = Vec::new();
            v.push(p);
            v
        }
        None => Vec::new(),
    };
    let metadata = Metadata {
        name: Some(metadata_store.name),
        logo: None,
        symbol: Some(metadata_store.symbol),
        custodians,
        created_at: now,
        upgraded_at: now,
    };
    let ghost legacyv = ledger_store.tokens@;
    let mut tokens: Vec<TokenMetadata> = Vec::new();
    let mut rest = ledger_store.tokens;
    let n = rest.len();
    let mut i: usize = 0;
    while i < n
        invariant
            i <= n,
            n == legacyv.len(),
            rest@ == legacyv.skip(i as int),
            tokens@.len() == i,
            forall|k: int, j: int|
                0 <= k < j < legacyv.len() ==> legacyv[k].0 != legacyv[j].0,
            forall|k: int|
                0 <= k < i ==> {
                    let t = (#[trigger] tokens@[k])@;
                    &&& t.token_identifier == legacyv[k].0
                    &&& t.owner == Some(legacyv[k].1.principal@)
                    &&& t.operator is None
                    &&& !t.is_burned
                    &&& t.properties == flat_pairs(legacyv[k].1.metadata_desc@)
                    &&& t.minted_at == now
                    &&& t.minted_by == legacyv[k].1.principal@
                    &&& t.transferred_at is None
                    &&& t.transferred_by is None
                    &&& t.approved_at is None
                    &&& t.approved_by is None
                    &&& t.burned_at is None
                    &&& t.burned_by is None
                },
        decreases n - i,
    {
        let (k, legacy_token) = rest.remove(0);
        proof {
            assert(legacyv.skip(i as int)[0] == legacyv[i as int]);
            assert((k, legacy_token) == legacyv[i as int]);
            assert(rest@ =~= legacyv.skip(i as int + 1));
        }
        let properties = convert_properties(legacy_token.metadata_desc);
        let record = TokenMetadata {
            token_identifier: k,
            owner: Some(legacy_token.principal.dup()),
            operator: None,
            is_burned: false,
            properties,
            minted_at: now,
            minted_by: legacy_token.principal,
            transferred_at: None,
            transferred_by: None,
            approved_at: None,
            approved_by: None,
            burned_at: None,
            burned_by: None,
        };
        tokens.push(record);
        i += 1;
    }
    let ghost tv = tokens@;
    let mut ledger = Ledger {
        metadata,
        tokens,
        owners: Vec::new(),
        operators: Vec::new(),
        tx_records: Vec::new(),
    };
    proof {
        assert forall|a: int, b: int|
            0 <= a < b < ledger@.tokens.len() implies ledger@.tokens[a].token_identifier
            != ledger@.tokens[b].token_identifier by {
            assert(ledger@.tokens[a] == (tv[a])@ && ledger@.tokens[b] == (tv[b])@);
        }
        assert forall|a: int| 0 <= a < ledger@.tokens.len() implies crate::ledger::record_inv(
            #[trigger] ledger@.tokens[a],
        ) by {
            assert(ledger@.tokens[a].owner is Some);
        }
    }
    ledger.rebuild_indexes();
    proof {
        assert(ledger@.operators.len() == 0) by {
            if ledger@.operators.len() > 0 {
                let e = ledger@.operators[0];
                assert(crate::ledger::entry_wf(e));
                assert(crate::ledger::has_tok(ledger@.tokens, e.1[0]) && crate::ledger::tok(
                    ledger@.tokens,
                    e.1[0],
                ).operator == Some(e.0));
            }
        }
        assert(ledger@.metadata.custodians =~= (match metadata_store.owner {
            Some(p) => seq![p@],
            None => Seq::<Seq<u8>>::empty(),
        }));
    }
    ledger
}

} // verus!
