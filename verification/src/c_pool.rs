//! The pool: per-token records, share ledger, lifecycle state machine and
//! the operation handlers.

pub mod storage_types;
pub mod ledger;
pub mod comet;
pub mod laws;
