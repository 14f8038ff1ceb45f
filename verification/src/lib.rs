//! Log event extraction and indexing engine.
//!
//! The library turns raw log lines of a database client runtime into a small
//! set of structured events (node topology changes, client configuration
//! snapshots, connection errors) and accumulates them into an append-only
//! index that can be written into a self-describing container and reloaded
//! from it, with the round-trip proved exact.

pub mod codec;
pub mod config;
pub mod defaults;
pub mod index;
pub mod parse;
pub mod render;
pub mod settings;
pub mod text;
pub mod timestamp;
