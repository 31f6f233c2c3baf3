//! A small crash-safe key-value store: a write-ahead log plus a paged data
//! file, with an in-memory index rebuilt on open by scanning the pages and
//! replaying the log.
//!
//! The library works on in-memory images of the two files (plain byte
//! vectors); reading the images from disk, appending and syncing them back is
//! left to the caller, in the order the engine's documentation prescribes.

pub mod engine;
pub mod pager;
pub mod util;
pub mod wal;
