//! A local, append-only cache of daily exchange-rate snapshots.
//!
//! Snapshots are stored under fixed-width keys that sort like the calendar,
//! next to a pointer to the most recent one. The store is filled once from a
//! full history and then kept current from shorter feeds.

pub mod calendar;
pub mod codec;
pub mod db;
pub mod errors;
pub mod handlers;
pub mod key;
pub mod order;
pub mod snapshot;
pub mod soundness;
pub mod store;
pub mod sync;
