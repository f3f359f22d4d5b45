//! The audit-sink retry buffer.
//!
//! After a mutating operation commits locally, its transaction event is
//! reported to an external audit sink. Delivery is at-least-once with a
//! single-slot retry: at most one not-yet-confirmed record is held, and a
//! held record always goes out before a fresh one. The host performs the
//! actual send and reports failures back; local ledger state is already
//! committed whatever the sink does.

use vstd::prelude::*;
use crate::types::{TxEvent, TxEventV};

verus! {

/// The single-slot buffer of audit records awaiting confirmation.
#[derive(Debug)]
pub struct TxLog {
    pub pending: Option<TxEvent>,
}

impl View for TxLog {
    type V = Option<TxEventV>;

    open spec fn view(&self) -> Option<TxEventV> {
        match self.pending {
            Some(ref e) => Some(e@),
            None => None,
        }
    }
}

impl TxLog {
    /// An empty buffer.
    pub fn new() -> (r: TxLog)
        ensures
            r@ is None,
    {
        TxLog { pending: None }
    }

    /// Is a record awaiting retry?
    pub fn has_pending(&self) -> (r: bool)
        ensures
            r == (self@ is Some),
    {
        self.pending.is_some()
    }

    /// Picks the record to send next: a held retry goes out before the
    /// fresh record, which is then dropped, matching the dedupe-free
    /// single-slot policy; otherwise the fresh record goes out. The buffer
    /// is emptied either way.
    pub fn begin_send(&mut self, fresh: TxEvent) -> (r: TxEvent)
        ensures
            final(self)@ is None,
            match old(self)@ {
                Some(p) => r@ == p,
                None => r@ == fresh@,
            },
    {
        match self.pending.take() {
            Some(retry) => retry,
            None => fresh,
        }
    }

    /// Records that sending failed: the record fills the single retry
    /// slot and will go out first on the next attempt.
    pub fn record_failure(&mut self, record: TxEvent)
        ensures
            final(self)@ == Some(record@),
    {
        self.pending = Some(record);
    }
}

} // verus!
