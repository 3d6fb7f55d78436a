//! The replicated log of a Raft node: entries, the current term and vote,
//! and the commit index, kept in an ordered key-value storage engine.
//!
//! - `codec`: big-endian integers in bytes.
//! - `keycode`: the storage keys and their byte form.
//! - `entry`: log entries and the stored form of entries and metadata.
//! - `engine`: the storage engine interface and byte-string order.
//! - `memory`: an in-memory engine.
//! - `log`: the log itself, with its invariants and laws.

pub mod codec;
pub mod engine;
pub mod entry;
pub mod keycode;
pub mod log;
pub mod memory;
