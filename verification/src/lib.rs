//! A minimal embedded key-value store built around an append-only
//! write-ahead log and a periodic full-state snapshot.
//!
//! The store keeps a table from string keys to [`records::LanguageInfo`]
//! values in memory.  Every write is framed as one binary record; the
//! caller appends those frames to a log file and replays them on startup.
//! A snapshot serializes the whole store state and supersedes the log.
//! All framing, replay and recovery logic is verified; reading and
//! writing the actual files is left to the surrounding application.

pub mod codec;
pub mod laws;
pub mod records;
pub mod store;
pub mod table;
