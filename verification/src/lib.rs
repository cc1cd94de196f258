//! Flint: an embedded key-value store made of an append-only log on disk and an
//! index in memory.

pub mod action;
pub mod compaction;
pub mod conversation;
pub mod crc;
pub mod decimal;
pub mod dialogue;
pub mod disk;
pub mod handles;
pub mod json;
pub mod keydir;
pub mod lines;
pub mod mcp;
pub mod merging;
pub mod naming;
pub mod opening;
pub mod power;
pub mod record;
pub mod reopening;
pub mod replies;
pub mod segment;
pub mod server;
pub mod sorting;
pub mod store;
pub mod text;
pub mod tooling;
pub mod writing;

pub use store::Store;
