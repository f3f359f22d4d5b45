//! The ledger's global laws, stated and proved once over any well-formed
//! state.
//!
//! Together with the operation contracts in [`crate::api`] these pin down
//! the cache semantics: the owner and operator indexes carry exactly the
//! information of the token store, no entry dangles, ownership is unique,
//! and a burned token is inert.

use vstd::prelude::*;
use crate::ledger::{
    Ledger, has_tok, idx_contains, idx_has, ids_of, index_map, tok, tok_idx,
    lemma_idx_at, lemma_tok_at,
};
use crate::types::TokenMetadataV;

verus! {

/// The identifiers of the tokens a principal owns, read off the token
/// store alone.
pub open spec fn owned_ids(toks: Seq<TokenMetadataV>, p: Seq<u8>) -> Set<u64> {
    Set::new(|id: u64| has_tok(toks, id) && tok(toks, id).owner == Some(p))
}

/// The owner index that the token store alone dictates.
pub open spec fn derived_owner_map(toks: Seq<TokenMetadataV>) -> Map<Seq<u8>, Set<u64>> {
    Map::new(
        |p: Seq<u8>| exists|id: u64| #[trigger] owned_ids(toks, p).contains(id),
        |p: Seq<u8>| owned_ids(toks, p),
    )
}

/// The identifiers of the tokens a principal operates, read off the token
/// store alone.
pub open spec fn operated_ids(toks: Seq<TokenMetadataV>, p: Seq<u8>) -> Set<u64> {
    Set::new(|id: u64| has_tok(toks, id) && tok(toks, id).operator == Some(p))
}

/// The operator index that the token store alone dictates.
pub open spec fn derived_operator_map(toks: Seq<TokenMetadataV>) -> Map<Seq<u8>, Set<u64>> {
    Map::new(
        |p: Seq<u8>| exists|id: u64| #[trigger] operated_ids(toks, p).contains(id),
        |p: Seq<u8>| operated_ids(toks, p),
    )
}

/// The owner index holds an identifier under a principal exactly when the
/// token store says that principal owns the token.
pub proof fn lemma_owner_index_exact(l: Ledger)
    requires
        l.wf(),
    ensures
        forall|p: Seq<u8>, id: u64|
            #[trigger] idx_contains(l@.owners, p, id) <==> (has_tok(l@.tokens, id) && tok(
                l@.tokens,
                id,
            ).owner == Some(p)),
{
    assert forall|p: Seq<u8>, id: u64|
        #[trigger] idx_contains(l@.owners, p, id) <==> (has_tok(l@.tokens, id) && tok(
            l@.tokens,
            id,
        ).owner == Some(p)) by {
        if idx_contains(l@.owners, p, id) {
            let k = crate::ledger::idx_pos(l@.owners, p);
            assert(0 <= k < l@.owners.len() && l@.owners[k].0 == p);
            let a = choose|a: int| 0 <= a < l@.owners[k].1.len() && l@.owners[k].1[a] == id;
            assert(has_tok(l@.tokens, l@.owners[k].1[a]));
            assert(tok(l@.tokens, l@.owners[k].1[a]).owner == Some(l@.owners[k].0));
        }
        if has_tok(l@.tokens, id) && tok(l@.tokens, id).owner == Some(p) {
            let i = tok_idx(l@.tokens, id);
            assert(0 <= i < l@.tokens.len() && l@.tokens[i].token_identifier == id);
            assert(l@.tokens[i].owner is Some);
            assert(idx_contains(l@.owners, l@.tokens[i].owner->0, l@.tokens[i].token_identifier));
        }
    }
}

/// The operator index holds an identifier under a principal exactly when
/// the token store says that principal operates the token.
pub proof fn lemma_operator_index_exact(l: Ledger)
    requires
        l.wf(),
    ensures
        forall|p: Seq<u8>, id: u64|
            #[trigger] idx_contains(l@.operators, p, id) <==> (has_tok(l@.tokens, id) && tok(
                l@.tokens,
                id,
            ).operator == Some(p)),
{
    assert forall|p: Seq<u8>, id: u64|
        #[trigger] idx_contains(l@.operators, p, id) <==> (has_tok(l@.tokens, id) && tok(
            l@.tokens,
            id,
        ).operator == Some(p)) by {
        if idx_contains(l@.operators, p, id) {
            let k = crate::ledger::idx_pos(l@.operators, p);
            assert(0 <= k < l@.operators.len() && l@.operators[k].0 == p);
            let a = choose|a: int| 0 <= a < l@.operators[k].1.len() && l@.operators[k].1[a] == id;
            assert(has_tok(l@.tokens, l@.operators[k].1[a]));
            assert(tok(l@.tokens, l@.operators[k].1[a]).operator == Some(l@.operators[k].0));
        }
        if has_tok(l@.tokens, id) && tok(l@.tokens, id).operator == Some(p) {
            let i = tok_idx(l@.tokens, id);
            assert(0 <= i < l@.tokens.len() && l@.tokens[i].token_identifier == id);
            assert(l@.tokens[i].operator is Some);
            assert(idx_contains(
                l@.operators,
                l@.tokens[i].operator->0,
                l@.tokens[i].token_identifier,
            ));
        }
    }
}

/// At most one principal appears as owner of any identifier across the
/// owner index.
pub proof fn lemma_ownership_unique(l: Ledger)
    requires
        l.wf(),
    ensures
        forall|p1: Seq<u8>, p2: Seq<u8>, id: u64|
            idx_contains(l@.owners, p1, id) && idx_contains(l@.owners, p2, id) ==> p1 == p2,
{
    lemma_owner_index_exact(l);
}

/// No index key maps to an empty identifier set.
pub proof fn lemma_no_dangling_entries(l: Ledger)
    requires
        l.wf(),
    ensures
        forall|p: Seq<u8>| #[trigger] idx_has(l@.owners, p) ==> ids_of(l@.owners, p).len() > 0,
        forall|p: Seq<u8>|
            #[trigger] idx_has(l@.operators, p) ==> ids_of(l@.operators, p).len() > 0,
{
    assert forall|p: Seq<u8>| #[trigger] idx_has(l@.owners, p) implies ids_of(
        l@.owners,
        p,
    ).len() > 0 by {
        let k = crate::ledger::idx_pos(l@.owners, p);
        assert(0 <= k < l@.owners.len() && l@.owners[k].0 == p);
        assert(crate::ledger::entry_wf(l@.owners[k]));
        lemma_idx_at(l@.owners, k);
    }
    assert forall|p: Seq<u8>| #[trigger] idx_has(l@.operators, p) implies ids_of(
        l@.operators,
        p,
    ).len() > 0 by {
        let k = crate::ledger::idx_pos(l@.operators, p);
        assert(0 <= k < l@.operators.len() && l@.operators[k].0 == p);
        assert(crate::ledger::entry_wf(l@.operators[k]));
        lemma_idx_at(l@.operators, k);
    }
}

/// A burned token has no owner, no operator, and appears in neither index.
pub proof fn lemma_burned_is_inert(l: Ledger, id: u64)
    requires
        l.wf(),
        has_tok(l@.tokens, id),
        tok(l@.tokens, id).is_burned,
    ensures
        tok(l@.tokens, id).owner is None,
        tok(l@.tokens, id).operator is None,
        forall|p: Seq<u8>| !idx_contains(l@.owners, p, id),
        forall|p: Seq<u8>| !idx_contains(l@.operators, p, id),
{
    let i = tok_idx(l@.tokens, id);
    assert(0 <= i < l@.tokens.len() && l@.tokens[i].token_identifier == id);
    assert(crate::ledger::record_inv(l@.tokens[i]));
    lemma_owner_index_exact(l);
    lemma_operator_index_exact(l);
}

/// The index caches are exactly what rebuilding them from the token store
/// alone produces: as maps from principal to identifier set, a well-formed
/// ledger's indexes equal the derived ones.
pub proof fn lemma_indexes_are_derived(l: Ledger)
    requires
        l.wf(),
    ensures
        index_map(l@.owners) == derived_owner_map(l@.tokens),
        index_map(l@.operators) == derived_operator_map(l@.tokens),
{
    lemma_owner_index_exact(l);
    lemma_operator_index_exact(l);
    lemma_no_dangling_entries(l);
    assert forall|p: Seq<u8>| #[trigger] idx_has(l@.owners, p) implies (exists|id: u64|
        #[trigger] owned_ids(l@.tokens, p).contains(id)) by {
        let id = ids_of(l@.owners, p)[0];
        assert(ids_of(l@.owners, p).contains(id));
        assert(idx_contains(l@.owners, p, id));
        assert(owned_ids(l@.tokens, p).contains(id));
    }
    assert forall|p: Seq<u8>| (exists|id: u64| #[trigger] owned_ids(l@.tokens, p).contains(id))
        implies idx_has(l@.owners, p) by {
        let id = choose|id: u64| #[trigger] owned_ids(l@.tokens, p).contains(id);
        assert(idx_contains(l@.owners, p, id));
    }
    assert forall|p: Seq<u8>| #[trigger] idx_has(l@.owners, p) implies ids_of(
        l@.owners,
        p,
    ).to_set() =~= owned_ids(l@.tokens, p) by {
        assert forall|id: u64| #[trigger] ids_of(l@.owners, p).to_set().contains(id) implies
            owned_ids(l@.tokens, p).contains(id) by {
            assert(ids_of(l@.owners, p).contains(id));
            assert(idx_contains(l@.owners, p, id));
        }
        assert forall|id: u64| #[trigger] owned_ids(l@.tokens, p).contains(id) implies ids_of(
            l@.owners,
            p,
        ).to_set().contains(id) by {
            assert(idx_contains(l@.owners, p, id));
            assert(ids_of(l@.owners, p).contains(id));
        }
    }
    assert(index_map(l@.owners) =~= derived_owner_map(l@.tokens));
    assert forall|p: Seq<u8>| #[trigger] idx_has(l@.operators, p) implies (exists|id: u64|
        #[trigger] operated_ids(l@.tokens, p).contains(id)) by {
        let id = ids_of(l@.operators, p)[0];
        assert(ids_of(l@.operators, p).contains(id));
        assert(idx_contains(l@.operators, p, id));
        assert(operated_ids(l@.tokens, p).contains(id));
    }
    assert forall|p: Seq<u8>| (exists|id: u64| #[trigger] operated_ids(l@.tokens, p).contains(id))
        implies idx_has(l@.operators, p) by {
        let id = choose|id: u64| #[trigger] operated_ids(l@.tokens, p).contains(id);
        assert(idx_contains(l@.operators, p, id));
    }
    assert forall|p: Seq<u8>| #[trigger] idx_has(l@.operators, p) implies ids_of(
        l@.operators,
        p,
    ).to_set() =~= operated_ids(l@.tokens, p) by {
        assert forall|id: u64| #[trigger] ids_of(l@.operators, p).to_set().contains(id) implies
            operated_ids(l@.tokens, p).contains(id) by {
            assert(ids_of(l@.operators, p).contains(id));
            assert(idx_contains(l@.operators, p, id));
        }
        assert forall|id: u64| #[trigger] operated_ids(l@.tokens, p).contains(id) implies ids_of(
            l@.operators,
            p,
        ).to_set().contains(id) by {
            assert(idx_contains(l@.operators, p, id));
            assert(ids_of(l@.operators, p).contains(id));
        }
    }
    assert(index_map(l@.operators) =~= derived_operator_map(l@.tokens));
}

/// Rebuilding the indexes from the token store reproduces exactly the
/// indexes that incremental maintenance produced: any two well-formed
/// ledgers over the same token store carry the same index maps.
pub proof fn lemma_index_rebuild_idempotent(l1: Ledger, l2: Ledger)
    requires
        l1.wf(),
        l2.wf(),
        l1@.tokens == l2@.tokens,
    ensures
        index_map(l1@.owners) == index_map(l2@.owners),
        index_map(l1@.operators) == index_map(l2@.operators),
{
    lemma_indexes_are_derived(l1);
    lemma_indexes_are_derived(l2);
}

} // verus!
