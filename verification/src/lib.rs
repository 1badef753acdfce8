//! A concurrent ledger range-scanning and aggregation engine.
//!
//! Given a remote, paginated ledger data source, the engine locates the
//! boundaries of available history by binary search, partitions a range of
//! unit ids into bounded work units, schedules those units in waves with a
//! fixed concurrency ceiling, and folds per-unit results into process-wide
//! aggregates without losing or double-counting data under concurrent
//! completion order. A parallel pipeline joins per-account balance, reward
//! and stake queries into one record per account.
//!
//! All network fetching, payload decoding and console output live outside
//! this crate: the engine works on plain values handed to it and returns
//! plain values, with its behaviour stated in contracts.

pub mod accounts;
pub mod aggregate;
pub mod boundary;
pub mod executor;
pub mod range;
pub mod uint;
