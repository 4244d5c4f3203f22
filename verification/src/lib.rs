//! Core of an encrypted key-value store with TTL support, pub/sub
//! notifications and several persistence modes.

pub mod encryption;
pub mod error;
pub mod text;
pub mod time;
pub mod pattern;
pub mod table;
pub mod types;
pub mod collections;
pub mod sorted_set;
pub mod ttl;
pub mod pubsub;
pub mod storage;
pub mod engine;
pub mod client;
pub mod laws;
