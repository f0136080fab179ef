//! Distributed shell-history replication core.
//!
//! Every device appends the commands it runs to a local log; devices of one
//! user converge by pulling and pushing each other's logs. This crate holds
//! the verified core of that protocol: the append-only local store with its
//! monotonic ingest cursor, the cursor-driven pull and push loops with
//! adaptive batch sizing, the tracker registry with its TTL and token check,
//! the shell-history importer, and the pure decision logic around them.
//! Network and file plumbing lives outside the library and hands it plain
//! values.

pub mod discover;
pub mod entry;
pub mod history_import;
pub mod numtext;
pub mod hook;
pub mod retry;
pub mod search;
pub mod settings;
pub mod status;
pub mod store;
pub mod strutil;
pub mod tracker;
pub mod sync;
pub mod transport;
