//! Extraction pipeline for chess game archives.
//!
//! The library parses line-oriented game records out of a decompressed
//! archive, counts qualifying games per player, extracts the raw text of
//! games played by qualifying players into buffered, compressed per-player
//! frames, and keeps a durable index of per-player monthly and total counts
//! so that a run over many archives is resumable and idempotent.

pub mod config;
pub mod database;
pub mod events;
pub mod ledger;
pub mod parser;
pub mod pipeline;
pub mod writer;
