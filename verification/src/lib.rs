//! A rollback-aware copy of a chain's history, and the protocol that serves
//! it.
//!
//! * [`point`] and [`event`]: positions on the chain and the records of the
//!   log.
//! * [`wal`]: the event log, an append-only record of chain mutations
//!   addressed by sequence number.
//! * [`chain`]: the chain store, the stable part of history in slot order,
//!   with each block's content under its digest.
//! * [`replay`]: what a log means, as the chain that replaying it gives.
//! * [`coordinator`]: the single writer; it turns chain updates into log
//!   records and moves blocks into the store once they are stable.
//! * [`stream`]: a consumer's resumable cursor over the log.
//! * [`sync`]: fetching blocks, dumping history page by page, and following
//!   the tip from a negotiated intersection.
//! * [`error`]: the ways an operation can fail.
//!
//! Every function is verified against its contract. The contracts speak of
//! mathematical values: a log is a sequence of events, a store a sequence of
//! blocks.

pub mod error;
pub mod point;
pub mod event;
pub mod wal;
pub mod chain;
pub mod replay;
pub mod coordinator;
pub mod stream;
pub mod sync;
