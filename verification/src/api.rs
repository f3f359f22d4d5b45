//! The six mutating ledger operations.
//!
//! Each operation runs as one atomic step: validate, mutate the token
//! store, refile the affected identifier in the owner/operator caches,
//! append one transaction event, and return the event's 1-based sequence
//! number — or fail with a typed error and no side effect at all.
//!
//! The caller identity and the current time are supplied by the host
//! context; the custodian capability check for mint is the host's duty.

use vstd::prelude::*;
use crate::errors::NftError;
use crate::ledger::{
    Ledger, has_tok, idx_contains, idx_has, ids_of, tok, tok_idx,
    lemma_indexed_under_owner, lemma_indexed_under_operator, lemma_owners_resync,
    lemma_operators_resync, lemma_update_tok, lemma_push_tok,
};
use crate::principal::Principal;
use crate::types::{TokenMetadata, TokenMetadataV, TxEventV};
use crate::values::{GenericValue, GenericValueV, props_view};

verus! {

/// The record left by a transfer: new owner, cleared operator, transfer
/// provenance.
pub open spec fn transferred_record(
    old_rec: TokenMetadataV,
    to: Seq<u8>,
    by: Seq<u8>,
    now: u64,
) -> TokenMetadataV {
    TokenMetadataV {
        owner: Some(to),
        operator: None,
        transferred_by: Some(by),
        transferred_at: Some(now),
        ..old_rec
    }
}

/// The event appended by a transfer.
pub open spec fn transfer_event(
    operation: Seq<char>,
    owner: Seq<u8>,
    caller: Seq<u8>,
    to: Seq<u8>,
    token_identifier: u64,
    now: u64,
) -> TxEventV {
    TxEventV {
        time: now,
        caller: caller,
        operation: operation,
        details: seq![
            ("owner"@, GenericValueV::Principal(owner)),
            ("to"@, GenericValueV::Principal(to)),
            ("token_identifier"@, GenericValueV::Nat64(token_identifier)),
        ],
    }
}

/// Burned records are never touched by an operation.
pub open spec fn burned_preserved(oldtoks: Seq<TokenMetadataV>, newtoks: Seq<TokenMetadataV>) -> bool {
    forall|id2: u64|
        has_tok(oldtoks, id2) && (#[trigger] tok(oldtoks, id2)).is_burned ==> has_tok(
            newtoks,
            id2,
        ) && tok(newtoks, id2) == tok(oldtoks, id2)
}

/// Transfers a token the caller owns to another principal, clearing any
/// operator approval on it.
pub fn transfer(
    ledger: &mut Ledger,
    caller: &Principal,
    now: u64,
    to: &Principal,
    token_identifier: u64,
) -> (r: Result<u64, NftError>)
    requires
        old(ledger).wf(),
        old(ledger)@.tx_records.len() < u64::MAX,
    ensures
        final(ledger).wf(),
        r == Err::<u64, NftError>(NftError::SelfTransfer) <==> to@ == caller@,
        r == Err::<u64, NftError>(NftError::TokenNotFound) <==> (to@ != caller@ && !has_tok(
            old(ledger)@.tokens,
            token_identifier,
        )),
        r == Err::<u64, NftError>(NftError::UnauthorizedOwner) <==> (to@ != caller@ && has_tok(
            old(ledger)@.tokens,
            token_identifier,
        ) && tok(old(ledger)@.tokens, token_identifier).owner != Some(caller@)),
        r is Ok <==> (to@ != caller@ && has_tok(old(ledger)@.tokens, token_identifier) && tok(
            old(ledger)@.tokens,
            token_identifier,
        ).owner == Some(caller@)),
        r is Err ==> final(ledger)@ == old(ledger)@,
        r matches Ok(n) ==> {
            &&& n == old(ledger)@.tx_records.len() + 1
            &&& final(ledger)@.tokens == old(ledger)@.tokens.update(
                tok_idx(old(ledger)@.tokens, token_identifier),
                transferred_record(
                    tok(old(ledger)@.tokens, token_identifier),
                    to@,
                    caller@,
                    now,
                ),
            )
            &&& final(ledger)@.tx_records == old(ledger)@.tx_records.push(
                transfer_event("transfer"@, caller@, caller@, to@, token_identifier, now),
            )
            &&& final(ledger)@.metadata == old(ledger)@.metadata
        },
        burned_preserved(old(ledger)@.tokens, final(ledger)@.tokens),
{
    if to == caller {
        return Err(NftError::SelfTransfer);
    }
    let old_owner = match ledger.owner_of(token_identifier) {
        Ok(o) => o,
        Err(e) => {
            return Err(e);
        }
    };
    let old_operator = match ledger.operator_of(token_identifier) {
        Ok(o) => o,
        Err(_) => unreached(),
    };
    let owner_is_caller = match &old_owner {
        Some(p) => p == caller,
        None => false,
    };
    if !owner_is_caller {
        return Err(NftError::UnauthorizedOwner);
    }
    let ghost ot = old(ledger)@.tokens;
    let ghost oo = old(ledger)@.owners;
    let ghost op = old(ledger)@.operators;
    let ghost i = tok_idx(ot, token_identifier);
    proof {
        lemma_indexed_under_owner(oo, ot, token_identifier);
        lemma_indexed_under_operator(op, ot, token_identifier);
        assert(0 <= i < ot.len() && ot[i].token_identifier == token_identifier);
        assert(ot[i] == tok(ot, token_identifier));
        assert(idx_contains(oo, caller@, token_identifier));
        if tok(ot, token_identifier).operator is Some {
            assert(idx_contains(op, tok(ot, token_identifier).operator->0, token_identifier));
        }
    }
    ledger.update_owner_cache(
        token_identifier,
        match &old_owner {
            Some(p) => Some(p),
            None => None,
        },
        Some(to),
    );
    ledger.update_operator_cache(
        token_identifier,
        match &old_operator {
            Some(p) => Some(p),
            None => None,
        },
        None,
    );
    ledger.transfer(caller.dup(), token_identifier, Some(to.dup()), now);
    let mut details: Vec<(String, GenericValue)> = Vec::new();
    details.push(("owner".to_owned(), GenericValue::Principal(caller.dup())));
    details.push(("to".to_owned(), GenericValue::Principal(to.dup())));
    details.push(("token_identifier".to_owned(), GenericValue::Nat64Content(token_identifier)));
    proof {
        assert(props_view(details@) =~= seq![
            ("owner"@, GenericValueV::Principal(caller@)),
            ("to"@, GenericValueV::Principal(to@)),
            ("token_identifier"@, GenericValueV::Nat64(token_identifier)),
        ]);
    }
    let n = ledger.add_tx(caller.dup(), "transfer".to_owned(), details, now);
    proof {
        let rec2 = transferred_record(tok(ot, token_identifier), to@, caller@, now);
        let newtoks = ledger@.tokens;
        assert(newtoks == ot.update(i, rec2));
        lemma_update_tok(ot, i, rec2);
        assert forall|j: int| 0 <= j < newtoks.len() implies crate::ledger::record_inv(
            #[trigger] newtoks[j],
        ) by {
            if j != i {
                assert(newtoks[j] == ot[j]);
            }
        }
        lemma_owners_resync(oo, ledger@.owners, ot, newtoks, token_identifier, Some(to@));
        lemma_operators_resync(op, ledger@.operators, ot, newtoks, token_identifier, None);
        assert(burned_preserved(ot, newtoks)) by {
            assert forall|id2: u64|
                has_tok(ot, id2) && (#[trigger] tok(ot, id2)).is_burned implies has_tok(
                newtoks,
                id2,
            ) && tok(newtoks, id2) == tok(ot, id2) by {
                assert(id2 != token_identifier);
            }
        }
        assert(final(ledger)@.tx_records == old(ledger)@.tx_records.push(
            transfer_event("transfer"@, caller@, caller@, to@, token_identifier, now),
        ));
    }
    Ok(n)
}

/// Grants one operator approval on a token the caller owns.
pub fn approve(
    ledger: &mut Ledger,
    caller: &Principal,
    now: u64,
    operator: &Principal,
    token_identifier: u64,
) -> (r: Result<u64, NftError>)
    requires
        old(ledger).wf(),
        old(ledger)@.tx_records.len() < u64::MAX,
    ensures
        final(ledger).wf(),
        r == Err::<u64, NftError>(NftError::SelfApprove) <==> operator@ == caller@,
        r == Err::<u64, NftError>(NftError::TokenNotFound) <==> (operator@ != caller@ && !has_tok(
            old(ledger)@.tokens,
            token_identifier,
        )),
        r == Err::<u64, NftError>(NftError::UnauthorizedOwner) <==> (operator@ != caller@
            && has_tok(old(ledger)@.tokens, token_identifier) && tok(
            old(ledger)@.tokens,
            token_identifier,
        ).owner != Some(caller@)),
        r is Ok <==> (operator@ != caller@ && has_tok(old(ledger)@.tokens, token_identifier)
            && tok(old(ledger)@.tokens, token_identifier).owner == Some(caller@)),
        r is Err ==> final(ledger)@ == old(ledger)@,
        r matches Ok(n) ==> {
            &&& n == old(ledger)@.tx_records.len() + 1
            &&& final(ledger)@.tokens == old(ledger)@.tokens.update(
                tok_idx(old(ledger)@.tokens, token_identifier),
                TokenMetadataV {
                    operator: Some(operator@),
                    approved_by: Some(caller@),
                    approved_at: Some(now),
                    ..tok(old(ledger)@.tokens, token_identifier)
                },
            )
            &&& final(ledger)@.tx_records == old(ledger)@.tx_records.push(
                TxEventV {
                    time: now,
                    caller: caller@,
                    operation: "approve"@,
                    details: seq![
                        ("operator"@, GenericValueV::Principal(operator@)),
                        ("token_identifier"@, GenericValueV::Nat64(token_identifier)),
                    ],
                },
            )
            &&& final(ledger)@.metadata == old(ledger)@.metadata
            &&& final(ledger)@.owners == old(ledger)@.owners
        },
        burned_preserved(old(ledger)@.tokens, final(ledger)@.tokens),
{
    if operator == caller {
        return Err(NftError::SelfApprove);
    }
    let old_owner = match ledger.owner_of(token_identifier) {
        Ok(o) => o,
        Err(e) => {
            return Err(e);
        }
    };
    let old_operator = match ledger.operator_of(token_identifier) {
        Ok(o) => o,
        Err(_) => unreached(),
    };
    let owner_is_caller = match &old_owner {
        Some(p) => p == caller,
        None => false,
    };
    if !owner_is_caller {
        return Err(NftError::UnauthorizedOwner);
    }
    let ghost ot = old(ledger)@.tokens;
    let ghost oo = old(ledger)@.owners;
    let ghost op = old(ledger)@.operators;
    let ghost i = tok_idx(ot, token_identifier);
    proof {
        lemma_indexed_under_owner(oo, ot, token_identifier);
        lemma_indexed_under_operator(op, ot, token_identifier);
        assert(0 <= i < ot.len() && ot[i].token_identifier == token_identifier);
        assert(ot[i] == tok(ot, token_identifier));
        assert(idx_contains(oo, caller@, token_identifier));
        if tok(ot, token_identifier).operator is Some {
            assert(idx_contains(op, tok(ot, token_identifier).operator->0, token_identifier));
        }
    }
    ledger.update_operator_cache(
        token_identifier,
        match &old_operator {
            Some(p) => Some(p),
            None => None,
        },
        Some(operator),
    );
    ledger.approve(caller.dup(), token_identifier, Some(operator.dup()), now);
    let mut details: Vec<(String, GenericValue)> = Vec::new();
    details.push(("operator".to_owned(), GenericValue::Principal(operator.dup())));
    details.push(("token_identifier".to_owned(), GenericValue::Nat64Content(token_identifier)));
    proof {
        assert(props_view(details@) =~= seq![
            ("operator"@, GenericValueV::Principal(operator@)),
            ("token_identifier"@, GenericValueV::Nat64(token_identifier)),
        ]);
    }
    let n = ledger.add_tx(caller.dup(), "approve".to_owned(), details, now);
    proof {
        let rec2 = TokenMetadataV {
            operator: Some(operator@),
            approved_by: Some(caller@),
            approved_at: Some(now),
            ..tok(ot, token_identifier)
        };
        let newtoks = ledger@.tokens;
        assert(newtoks == ot.update(i, rec2));
        lemma_update_tok(ot, i, rec2);
        assert forall|j: int| 0 <= j < newtoks.len() implies crate::ledger::record_inv(
            #[trigger] newtoks[j],
        ) by {
            if j != i {
                assert(newtoks[j] == ot[j]);
            }
        }
        assert forall|q: Seq<u8>|
            #[trigger] idx_contains(ledger@.owners, q, token_identifier) <==> (rec2.owner matches
                Some(p) && q == p) by {
            assert(ledger@.owners == oo);
            assert(rec2.owner == Some(caller@));
            if idx_contains(oo, q, token_identifier) {
                let k = crate::ledger::idx_pos(oo, q);
                assert(oo[k].1.contains(token_identifier));
            }
        }
        lemma_owners_resync(oo, ledger@.owners, ot, newtoks, token_identifier, rec2.owner);
        lemma_operators_resync(
            op,
            ledger@.operators,
            ot,
            newtoks,
            token_identifier,
            Some(operator@),
        );
        assert(burned_preserved(ot, newtoks)) by {
            assert forall|id2: u64|
                has_tok(ot, id2) && (#[trigger] tok(ot, id2)).is_burned implies has_tok(
                newtoks,
                id2,
            ) && tok(newtoks, id2) == tok(ot, id2) by {
                assert(id2 != token_identifier);
            }
        }
    }
    Ok(n)
}

/// Burns a token the caller owns: removes it from active ownership for
/// good while keeping its record queryable.
pub fn burn(ledger: &mut Ledger, caller: &Principal, now: u64, token_identifier: u64) -> (r:
    Result<u64, NftError>)
    requires
        old(ledger).wf(),
        old(ledger)@.tx_records.len() < u64::MAX,
    ensures
        final(ledger).wf(),
        r == Err::<u64, NftError>(NftError::TokenNotFound) <==> !has_tok(
            old(ledger)@.tokens,
            token_identifier,
        ),
        r == Err::<u64, NftError>(NftError::UnauthorizedOwner) <==> (has_tok(
            old(ledger)@.tokens,
            token_identifier,
        ) && tok(old(ledger)@.tokens, token_identifier).owner != Some(caller@)),
        r is Ok <==> (has_tok(old(ledger)@.tokens, token_identifier) && tok(
            old(ledger)@.tokens,
            token_identifier,
        ).owner == Some(caller@)),
        r is Err ==> final(ledger)@ == old(ledger)@,
        r matches Ok(n) ==> {
            &&& n == old(ledger)@.tx_records.len() + 1
            &&& final(ledger)@.tokens == old(ledger)@.tokens.update(
                tok_idx(old(ledger)@.tokens, token_identifier),
                TokenMetadataV {
                    owner: None,
                    operator: None,
                    is_burned: true,
                    burned_by: Some(caller@),
                    burned_at: Some(now),
                    ..tok(old(ledger)@.tokens, token_identifier)
                },
            )
            &&& final(ledger)@.tx_records == old(ledger)@.tx_records.push(
                TxEventV {
                    time: now,
                    caller: caller@,
                    operation: "burn"@,
                    details: seq![("token_identifier"@, GenericValueV::Nat64(token_identifier))],
                },
            )
            &&& final(ledger)@.metadata == old(ledger)@.metadata
        },
        burned_preserved(old(ledger)@.tokens, final(ledger)@.tokens),
{
    let old_owner = match ledger.owner_of(token_identifier) {
        Ok(o) => o,
        Err(e) => {
            return Err(e);
        }
    };
    let owner_is_caller = match &old_owner {
        Some(p) => p == caller,
        None => false,
    };
    if !owner_is_caller {
        return Err(NftError::UnauthorizedOwner);
    }
    let old_operator = match ledger.operator_of(token_identifier) {
        Ok(o) => o,
        Err(_) => unreached(),
    };
    let ghost ot = old(ledger)@.tokens;
    let ghost oo = old(ledger)@.owners;
    let ghost op = old(ledger)@.operators;
    let ghost i = tok_idx(ot, token_identifier);
    proof {
        lemma_indexed_under_owner(oo, ot, token_identifier);
        lemma_indexed_under_operator(op, ot, token_identifier);
        assert(0 <= i < ot.len() && ot[i].token_identifier == token_identifier);
        assert(ot[i] == tok(ot, token_identifier));
        assert(idx_contains(oo, caller@, token_identifier));
        if tok(ot, token_identifier).operator is Some {
            assert(idx_contains(op, tok(ot, token_identifier).operator->0, token_identifier));
        }
    }
    ledger.update_owner_cache(
        token_identifier,
        match &old_owner {
            Some(p) => Some(p),
            None => None,
        },
        None,
    );
    ledger.update_operator_cache(
        token_identifier,
        match &old_operator {
            Some(p) => Some(p),
            None => None,
        },
        None,
    );
    ledger.burn(caller.dup(), token_identifier, now);
    let mut details: Vec<(String, GenericValue)> = Vec::new();
    details.push(("token_identifier".to_owned(), GenericValue::Nat64Content(token_identifier)));
    proof {
        assert(props_view(details@) =~= seq![
            ("token_identifier"@, GenericValueV::Nat64(token_identifier)),
        ]);
    }
    let n = ledger.add_tx(caller.dup(), "burn".to_owned(), details, now);
    proof {
        let rec2 = TokenMetadataV {
            owner: None,
            operator: None,
            is_burned: true,
            burned_by: Some(caller@),
            burned_at: Some(now),
            ..tok(ot, token_identifier)
        };
        let newtoks = ledger@.tokens;
        assert(newtoks == ot.update(i, rec2));
        lemma_update_tok(ot, i, rec2);
        assert forall|j: int| 0 <= j < newtoks.len() implies crate::ledger::record_inv(
            #[trigger] newtoks[j],
        ) by {
            if j != i {
                assert(newtoks[j] == ot[j]);
            }
        }
        lemma_owners_resync(oo, ledger@.owners, ot, newtoks, token_identifier, None);
        lemma_operators_resync(op, ledger@.operators, ot, newtoks, token_identifier, None);
        assert(burned_preserved(ot, newtoks)) by {
            assert forall|id2: u64|
                has_tok(ot, id2) && (#[trigger] tok(ot, id2)).is_burned implies has_tok(
                newtoks,
                id2,
            ) && tok(newtoks, id2) == tok(ot, id2) by {
                assert(id2 != token_identifier);
            }
        }
    }
    Ok(n)
}

/// The record left by an approval: new operator, approval provenance.
pub open spec fn approved_record(
    old_rec: TokenMetadataV,
    op: Option<Seq<u8>>,
    by: Seq<u8>,
    now: u64,
) -> TokenMetadataV {
    TokenMetadataV { operator: op, approved_by: Some(by), approved_at: Some(now), ..old_rec }
}

/// An owned copy of an identifier list.
fn copy_ids(v: &Vec<u64>) -> (r: Vec<u64>)
    ensures
        r@ == v@,
{
    let mut r: Vec<u64> = Vec::new();
    let mut i: usize = 0;
    while i < v.len()
        invariant
            i <= v@.len(),
            r@ == v@.subrange(0, i as int),
        decreases v@.len() - i,
    {
        r.push(v[i]);
        proof {
            assert(r@ =~= v@.subrange(0, i + 1));
        }
        i += 1;
    }
    proof {
        assert(r@ =~= v@);
    }
    r
}

/// Sets or clears the operator on every token the caller owns. Since one
/// operator is kept per token, clearing ignores which operator was set.
pub fn set_approval_for_all(
    ledger: &mut Ledger,
    caller: &Principal,
    now: u64,
    operator: &Principal,
    is_approved: bool,
) -> (r: Result<u64, NftError>)
    requires
        old(ledger).wf(),
        old(ledger)@.tx_records.len() < u64::MAX,
    ensures
        final(ledger).wf(),
        r == Err::<u64, NftError>(NftError::SelfApprove) <==> operator@ == caller@,
        r == Err::<u64, NftError>(NftError::OwnerNotFound) <==> (operator@ != caller@ && !idx_has(
            old(ledger)@.owners,
            caller@,
        )),
        r is Ok <==> (operator@ != caller@ && idx_has(old(ledger)@.owners, caller@)),
        r is Err ==> final(ledger)@ == old(ledger)@,
        r matches Ok(n) ==> {
            &&& n == old(ledger)@.tx_records.len() + 1
            &&& final(ledger)@.owners == old(ledger)@.owners
            &&& final(ledger)@.metadata == old(ledger)@.metadata
            &&& final(ledger)@.tx_records == old(ledger)@.tx_records.push(
                TxEventV {
                    time: now,
                    caller: caller@,
                    operation: "setApprovalForAll"@,
                    details: seq![
                        ("operator"@, GenericValueV::Principal(operator@)),
                        ("is_approved"@, GenericValueV::Bool(is_approved)),
                    ],
                },
            )
            &&& forall|id2: u64|
                has_tok(final(ledger)@.tokens, id2) <==> has_tok(old(ledger)@.tokens, id2)
            &&& forall|id2: u64|
                has_tok(old(ledger)@.tokens, id2) && idx_contains(
                    old(ledger)@.owners,
                    caller@,
                    id2,
                ) ==> tok(final(ledger)@.tokens, id2) == approved_record(
                    tok(old(ledger)@.tokens, id2),
                    if is_approved {
                        Some(operator@)
                    } else {
                        None
                    },
                    caller@,
                    now,
                )
            &&& forall|id2: u64|
                has_tok(old(ledger)@.tokens, id2) && !idx_contains(
                    old(ledger)@.owners,
                    caller@,
                    id2,
                ) ==> tok(final(ledger)@.tokens, id2) == tok(old(ledger)@.tokens, id2)
        },
        burned_preserved(old(ledger)@.tokens, final(ledger)@.tokens),
{
    if operator == caller {
        return Err(NftError::SelfApprove);
    }
    let ids = match ledger.owner_token_identifiers(caller) {
        Ok(v) => copy_ids(v),
        Err(e) => {
            return Err(e);
        }
    };
    let ghost snap = ledger@;
    let ghost newopv: Option<Seq<u8>> = if is_approved {
        Some(operator@)
    } else {
        None
    };
    proof {
        let kk = crate::ledger::idx_pos(snap.owners, caller@);
        assert(0 <= kk < snap.owners.len() && snap.owners[kk].0 == caller@);
        assert(crate::ledger::entry_wf(snap.owners[kk]));
    }
    let mut c: usize = 0;
    while c < ids.len()
        invariant
            ledger.wf(),
            operator@ != caller@,
            c <= ids@.len(),
            idx_has(snap.owners, caller@),
            ids@ == ids_of(snap.owners, caller@),
            forall|a: int, b: int| 0 <= a < b < ids@.len() ==> ids@[a] != ids@[b],
            snap == old(ledger)@,
            old(ledger).wf(),
            newopv == (if is_approved {
                Some(operator@)
            } else {
                None
            }),
            ledger@.owners == snap.owners,
            ledger@.tx_records == snap.tx_records,
            ledger@.metadata == snap.metadata,
            forall|id2: u64| has_tok(ledger@.tokens, id2) <==> has_tok(snap.tokens, id2),
            forall|id2: u64|
                has_tok(snap.tokens, id2) && (exists|j: int| 0 <= j < c && ids@[j] == id2)
                    ==> tok(ledger@.tokens, id2) == approved_record(
                    tok(snap.tokens, id2),
                    newopv,
                    caller@,
                    now,
                ),
            forall|id2: u64|
                has_tok(snap.tokens, id2) && !(exists|j: int| 0 <= j < c && ids@[j] == id2)
                    ==> tok(ledger@.tokens, id2) == tok(snap.tokens, id2),
        decreases ids@.len() - c,
    {
        let id = ids[c];
        proof {
            let kk = crate::ledger::idx_pos(snap.owners, caller@);
            assert(0 <= kk < snap.owners.len() && snap.owners[kk].0 == caller@);
            assert(snap.owners[kk].1[c as int] == id);
            assert(has_tok(snap.tokens, snap.owners[kk].1[c as int]));
            assert(tok(snap.tokens, snap.owners[kk].1[c as int]).owner == Some(caller@));
            assert(!(exists|j: int| 0 <= j < c && ids@[j] == id)) by {
                if exists|j: int| 0 <= j < c && ids@[j] == id {
                    let j = choose|j: int| 0 <= j < c && ids@[j] == id;
                    assert(ids@[j] == ids@[c as int]);
                }
            }
            assert(tok(ledger@.tokens, id) == tok(snap.tokens, id));
            assert(has_tok(ledger@.tokens, id));
        }
        let old_operator = match ledger.operator_of(id) {
            Ok(o) => o,
            Err(_) => unreached(),
        };
        let ghost ct = ledger@.tokens;
        let ghost cop = ledger@.operators;
        let ghost i = tok_idx(ct, id);
        proof {
            lemma_indexed_under_owner(ledger@.owners, ct, id);
            lemma_indexed_under_operator(cop, ct, id);
            assert(0 <= i < ct.len() && ct[i].token_identifier == id);
            assert(ct[i] == tok(ct, id));
            if tok(ct, id).operator is Some {
                assert(idx_contains(cop, tok(ct, id).operator->0, id));
            }
        }
        ledger.update_operator_cache(
            id,
            match &old_operator {
                Some(p) => Some(p),
                None => None,
            },
            if is_approved {
                Some(operator)
            } else {
                None
            },
        );
        ledger.approve(
            caller.dup(),
            id,
            if is_approved {
                Some(operator.dup())
            } else {
                None
            },
            now,
        );
        proof {
            let rec2 = approved_record(tok(ct, id), newopv, caller@, now);
            let newtoks = ledger@.tokens;
            assert(newtoks == ct.update(i, rec2));
            lemma_update_tok(ct, i, rec2);
            assert forall|j: int| 0 <= j < newtoks.len() implies crate::ledger::record_inv(
                #[trigger] newtoks[j],
            ) by {
                if j != i {
                    assert(newtoks[j] == ct[j]);
                }
            }
            assert forall|q: Seq<u8>|
                #[trigger] idx_contains(ledger@.owners, q, id) <==> (rec2.owner matches Some(p)
                    && q == p) by {
                assert(rec2.owner == tok(ct, id).owner);
                assert(tok(ct, id).owner == Some(caller@));
                if idx_contains(ledger@.owners, q, id) {
                    let k = crate::ledger::idx_pos(ledger@.owners, q);
                    assert(ledger@.owners[k].1.contains(id));
                }
                let kk = crate::ledger::idx_pos(snap.owners, caller@);
                assert(snap.owners[kk].1[c as int] == id);
                assert(ids_of(snap.owners, caller@).contains(id));
                assert(idx_contains(ledger@.owners, caller@, id));
            }
            lemma_owners_resync(snap.owners, ledger@.owners, ct, newtoks, id, rec2.owner);
            lemma_operators_resync(cop, ledger@.operators, ct, newtoks, id, newopv);
            assert forall|id2: u64|
                has_tok(snap.tokens, id2) && (exists|j: int| 0 <= j < c + 1 && ids@[j] == id2)
                    implies tok(ledger@.tokens, id2) == approved_record(
                tok(snap.tokens, id2),
                newopv,
                caller@,
                now,
            ) by {
                if id2 == id {
                    assert(tok(newtoks, id) == rec2);
                } else {
                    let j = choose|j: int| 0 <= j < c + 1 && ids@[j] == id2;
                    assert(j < c);
                    assert(tok(newtoks, id2) == tok(ct, id2));
                }
            }
            assert forall|id2: u64|
                has_tok(snap.tokens, id2) && !(exists|j: int| 0 <= j < c + 1 && ids@[j] == id2)
                    implies tok(ledger@.tokens, id2) == tok(snap.tokens, id2) by {
                assert(id2 != id);
                assert(tok(newtoks, id2) == tok(ct, id2));
            }
        }
        c += 1;
    }
    let mut details: Vec<(String, GenericValue)> = Vec::new();
    details.push(("operator".to_owned(), GenericValue::Principal(operator.dup())));
    details.push(("is_approved".to_owned(), GenericValue::BoolContent(is_approved)));
    proof {
        assert(props_view(details@) =~= seq![
            ("operator"@, GenericValueV::Principal(operator@)),
            ("is_approved"@, GenericValueV::Bool(is_approved)),
        ]);
    }
    let n = ledger.add_tx(caller.dup(), "setApprovalForAll".to_owned(), details, now);
    proof {
        assert forall|id2: u64|
            has_tok(snap.tokens, id2) && idx_contains(snap.owners, caller@, id2) implies tok(
            final(ledger)@.tokens,
            id2,
        ) == approved_record(tok(snap.tokens, id2), newopv, caller@, now) by {
            let j = choose|j: int|
                0 <= j < ids_of(snap.owners, caller@).len() && ids_of(snap.owners, caller@)[j]
                    == id2;
            assert(ids@[j] == id2);
        }
        assert forall|id2: u64|
            has_tok(snap.tokens, id2) && !idx_contains(snap.owners, caller@, id2) implies tok(
            final(ledger)@.tokens,
            id2,
        ) == tok(snap.tokens, id2) by {
            assert(!(exists|j: int| 0 <= j < ids@.len() && ids@[j] == id2)) by {
                if exists|j: int| 0 <= j < ids@.len() && ids@[j] == id2 {
                    let j = choose|j: int| 0 <= j < ids@.len() && ids@[j] == id2;
                    assert(ids_of(snap.owners, caller@)[j] == id2);
                    assert(ids_of(snap.owners, caller@).contains(id2));
                }
            }
        }
        assert(burned_preserved(snap.tokens, final(ledger)@.tokens)) by {
            assert forall|id2: u64|
                has_tok(snap.tokens, id2) && (#[trigger] tok(snap.tokens, id2)).is_burned
                    implies has_tok(final(ledger)@.tokens, id2) && tok(final(ledger)@.tokens, id2)
                == tok(snap.tokens, id2) by {
                let jt = tok_idx(snap.tokens, id2);
                assert(0 <= jt < snap.tokens.len() && snap.tokens[jt].token_identifier == id2);
                assert(crate::ledger::record_inv(snap.tokens[jt]));
                assert(tok(snap.tokens, id2).owner is None);
                assert(!idx_contains(snap.owners, caller@, id2)) by {
                    if idx_contains(snap.owners, caller@, id2) {
                        let kk = crate::ledger::idx_pos(snap.owners, caller@);
                        let aa = choose|aa: int|
                            0 <= aa < snap.owners[kk].1.len() && snap.owners[kk].1[aa] == id2;
                        assert(tok(snap.tokens, snap.owners[kk].1[aa]).owner == Some(
                            snap.owners[kk].0,
                        ));
                    }
                }
            }
        }
    }
    Ok(n)
}

/// Mints a fresh token to a receiver. The custodian capability check is
/// the host's duty and happens before this call.
pub fn mint(
    ledger: &mut Ledger,
    caller: &Principal,
    now: u64,
    to: &Principal,
    token_identifier: u64,
    properties: Vec<(String, GenericValue)>,
) -> (r: Result<u64, NftError>)
    requires
        old(ledger).wf(),
        old(ledger)@.tx_records.len() < u64::MAX,
    ensures
        final(ledger).wf(),
        r == Err::<u64, NftError>(NftError::ExistedNFT) <==> has_tok(
            old(ledger)@.tokens,
            token_identifier,
        ),
        r is Ok <==> !has_tok(old(ledger)@.tokens, token_identifier),
        r is Err ==> final(ledger)@ == old(ledger)@,
        r matches Ok(n) ==> {
            &&& n == old(ledger)@.tx_records.len() + 1
            &&& final(ledger)@.tokens == old(ledger)@.tokens.push(
                TokenMetadataV {
                    token_identifier: token_identifier,
                    owner: Some(to@),
                    operator: None,
                    is_burned: false,
                    properties: props_view(properties@),
                    minted_at: now,
                    minted_by: caller@,
                    transferred_at: None,
                    transferred_by: None,
                    approved_at: None,
                    approved_by: None,
                    burned_at: None,
                    burned_by: None,
                },
            )
            &&& final(ledger)@.tx_records == old(ledger)@.tx_records.push(
                TxEventV {
                    time: now,
                    caller: caller@,
                    operation: "mint"@,
                    details: seq![
                        ("to"@, GenericValueV::Principal(to@)),
                        ("token_identifier"@, GenericValueV::Nat64(token_identifier)),
                    ],
                },
            )
            &&& final(ledger)@.metadata == old(ledger)@.metadata
        },
        burned_preserved(old(ledger)@.tokens, final(ledger)@.tokens),
{
    if ledger.is_token_existed(token_identifier) {
        return Err(NftError::ExistedNFT);
    }
    let ghost ot = old(ledger)@.tokens;
    let ghost oo = old(ledger)@.owners;
    let ghost op = old(ledger)@.operators;
    let record = TokenMetadata {
        token_identifier: token_identifier,
        owner: Some(to.dup()),
        operator: None,
        is_burned: false,
        properties: properties,
        minted_at: now,
        minted_by: caller.dup(),
        transferred_at: None,
        transferred_by: None,
        approved_at: None,
        approved_by: None,
        burned_at: None,
        burned_by: None,
    };
    let ghost recv = record@;
    ledger.add_token_metadata(record);
    proof {
        lemma_indexed_under_owner(oo, ot, token_identifier);
        lemma_indexed_under_operator(op, ot, token_identifier);
        assert forall|k: int|
            0 <= k < ledger@.owners.len() implies !(#[trigger] ledger@.owners[k].1).contains(
            token_identifier,
        ) by {
            if ledger@.owners[k].1.contains(token_identifier) {
                assert(has_tok(ot, token_identifier));
            }
        }
    }
    ledger.update_owner_cache(token_identifier, None, Some(to));
    let mut details: Vec<(String, GenericValue)> = Vec::new();
    details.push(("to".to_owned(), GenericValue::Principal(to.dup())));
    details.push(("token_identifier".to_owned(), GenericValue::Nat64Content(token_identifier)));
    proof {
        assert(props_view(details@) =~= seq![
            ("to"@, GenericValueV::Principal(to@)),
            ("token_identifier"@, GenericValueV::Nat64(token_identifier)),
        ]);
    }
    let n = ledger.add_tx(caller.dup(), "mint".to_owned(), details, now);
    proof {
        let newtoks = ledger@.tokens;
        assert(newtoks == ot.push(recv));
        lemma_push_tok(ot, recv);
        assert forall|j: int| 0 <= j < newtoks.len() implies crate::ledger::record_inv(
            #[trigger] newtoks[j],
        ) by {
            if j < ot.len() {
                assert(newtoks[j] == ot[j]);
            }
        }
        lemma_owners_resync(oo, ledger@.owners, ot, newtoks, token_identifier, Some(to@));
        assert forall|q: Seq<u8>|
            #[trigger] idx_contains(ledger@.operators, q, token_identifier) <==> false by {
            if idx_contains(op, q, token_identifier) {
                let k = crate::ledger::idx_pos(op, q);
                assert(op[k].1.contains(token_identifier));
                assert(has_tok(ot, token_identifier));
            }
        }
        lemma_operators_resync(op, ledger@.operators, ot, newtoks, token_identifier, None);
        assert(burned_preserved(ot, newtoks)) by {
            assert forall|id2: u64|
                has_tok(ot, id2) && (#[trigger] tok(ot, id2)).is_burned implies has_tok(
                newtoks,
                id2,
            ) && tok(newtoks, id2) == tok(ot, id2) by {
                assert(id2 != token_identifier);
            }
        }
    }
    Ok(n)
}

/// Transfers a token on the owner's behalf: the caller must hold operator
/// approval on it.
pub fn transfer_from(
    ledger: &mut Ledger,
    caller: &Principal,
    now: u64,
    owner: &Principal,
    to: &Principal,
    token_identifier: u64,
) -> (r: Result<u64, NftError>)
    requires
        old(ledger).wf(),
        old(ledger)@.tx_records.len() < u64::MAX,
    ensures
        final(ledger).wf(),
        r == Err::<u64, NftError>(NftError::SelfTransfer) <==> owner@ == to@,
        r == Err::<u64, NftError>(NftError::TokenNotFound) <==> (owner@ != to@ && !has_tok(
            old(ledger)@.tokens,
            token_identifier,
        )),
        r == Err::<u64, NftError>(NftError::UnauthorizedOwner) <==> (owner@ != to@ && has_tok(
            old(ledger)@.tokens,
            token_identifier,
        ) && tok(old(ledger)@.tokens, token_identifier).owner != Some(owner@)),
        r == Err::<u64, NftError>(NftError::UnauthorizedOperator) <==> (owner@ != to@ && has_tok(
            old(ledger)@.tokens,
            token_identifier,
        ) && tok(old(ledger)@.tokens, token_identifier).owner == Some(owner@) && tok(
            old(ledger)@.tokens,
            token_identifier,
        ).operator != Some(caller@)),
        r is Ok <==> (owner@ != to@ && has_tok(old(ledger)@.tokens, token_identifier) && tok(
            old(ledger)@.tokens,
            token_identifier,
        ).owner == Some(owner@) && tok(old(ledger)@.tokens, token_identifier).operator == Some(
            caller@,
        )),
        r is Err ==> final(ledger)@ == old(ledger)@,
        r matches Ok(n) ==> {
            &&& n == old(ledger)@.tx_records.len() + 1
            &&& final(ledger)@.tokens == old(ledger)@.tokens.update(
                tok_idx(old(ledger)@.tokens, token_identifier),
                transferred_record(
                    tok(old(ledger)@.tokens, token_identifier),
                    to@,
                    caller@,
                    now,
                ),
            )
            &&& final(ledger)@.tx_records == old(ledger)@.tx_records.push(
                transfer_event("transferFrom"@, owner@, caller@, to@, token_identifier, now),
            )
            &&& final(ledger)@.metadata == old(ledger)@.metadata
        },
        burned_preserved(old(ledger)@.tokens, final(ledger)@.tokens),
{
    if owner == to {
        return Err(NftError::SelfTransfer);
    }
    let old_owner = match ledger.owner_of(token_identifier) {
        Ok(o) => o,
        Err(e) => {
            return Err(e);
        }
    };
    let old_operator = match ledger.operator_of(token_identifier) {
        Ok(o) => o,
        Err(_) => unreached(),
    };
    let owner_matches = match &old_owner {
        Some(p) => p == owner,
        None => false,
    };
    if !owner_matches {
        return Err(NftError::UnauthorizedOwner);
    }
    let operator_is_caller = match &old_operator {
        Some(p) => p == caller,
        None => false,
    };
    if !operator_is_caller {
        return Err(NftError::UnauthorizedOperator);
    }
    let ghost ot = old(ledger)@.tokens;
    let ghost oo = old(ledger)@.owners;
    let ghost op = old(ledger)@.operators;
    let ghost i = tok_idx(ot, token_identifier);
    proof {
        lemma_indexed_under_owner(oo, ot, token_identifier);
        lemma_indexed_under_operator(op, ot, token_identifier);
        assert(0 <= i < ot.len() && ot[i].token_identifier == token_identifier);
        assert(ot[i] == tok(ot, token_identifier));
        assert(idx_contains(oo, owner@, token_identifier));
        assert(idx_contains(op, caller@, token_identifier));
    }
    ledger.update_owner_cache(
        token_identifier,
        match &old_owner {
            Some(p) => Some(p),
            None => None,
        },
        Some(to),
    );
    ledger.update_operator_cache(
        token_identifier,
        match &old_operator {
            Some(p) => Some(p),
            None => None,
        },
        None,
    );
    ledger.transfer(caller.dup(), token_identifier, Some(to.dup()), now);
    let mut details: Vec<(String, GenericValue)> = Vec::new();
    details.push(("owner".to_owned(), GenericValue::Principal(owner.dup())));
    details.push(("to".to_owned(), GenericValue::Principal(to.dup())));
    details.push(("token_identifier".to_owned(), GenericValue::Nat64Content(token_identifier)));
    proof {
        assert(props_view(details@) =~= seq![
            ("owner"@, GenericValueV::Principal(owner@)),
            ("to"@, GenericValueV::Principal(to@)),
            ("token_identifier"@, GenericValueV::Nat64(token_identifier)),
        ]);
    }
    let n = ledger.add_tx(caller.dup(), "transferFrom".to_owned(), details, now);
    proof {
        let rec2 = transferred_record(tok(ot, token_identifier), to@, caller@, now);
        let newtoks = ledger@.tokens;
        assert(newtoks == ot.update(i, rec2));
        lemma_update_tok(ot, i, rec2);
        assert forall|j: int| 0 <= j < newtoks.len() implies crate::ledger::record_inv(
            #[trigger] newtoks[j],
        ) by {
            if j != i {
                assert(newtoks[j] == ot[j]);
            }
        }
        lemma_owners_resync(oo, ledger@.owners, ot, newtoks, token_identifier, Some(to@));
        lemma_operators_resync(op, ledger@.operators, ot, newtoks, token_identifier, None);
        assert(burned_preserved(ot, newtoks)) by {
            assert forall|id2: u64|
                has_tok(ot, id2) && (#[trigger] tok(ot, id2)).is_burned implies has_tok(
                newtoks,
                id2,
            ) && tok(newtoks, id2) == tok(ot, id2) by {
                assert(id2 != token_identifier);
            }
        }
        assert(final(ledger)@.tx_records == old(ledger)@.tx_records.push(
            transfer_event("transferFrom"@, owner@, caller@, to@, token_identifier, now),
        ));
    }
    Ok(n)
}

} // verus!

