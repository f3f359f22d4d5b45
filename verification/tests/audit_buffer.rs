//! The single-slot audit retry buffer.

use nft_ledger::audit::TxLog;
use nft_ledger::principal::Principal;
use nft_ledger::types::TxEvent;

fn event(op: &str, time: u64) -> TxEvent {
    TxEvent {
        time,
        caller: Principal::from_bytes(vec![9]),
        operation: op.to_string(),
        details: vec![],
    }
}

#[test]
fn fresh_record_goes_out_when_nothing_is_pending() {
    let mut log = TxLog::new();
    assert!(!log.has_pending());
    let out = log.begin_send(event("mint", 1));
    assert_eq!(out.operation, "mint");
    assert!(!log.has_pending());
}

#[test]
fn a_failed_record_is_retried_before_a_new_one() {
    let mut log = TxLog::new();
    let first = log.begin_send(event("mint", 1));
    log.record_failure(first);
    assert!(log.has_pending());
    // the queued retry goes out first; the fresh record is dropped by the
    // dedupe-free single-slot policy
    let out = log.begin_send(event("transfer", 2));
    assert_eq!(out.operation, "mint");
    assert!(!log.has_pending());
}
