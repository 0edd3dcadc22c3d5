//! A sharded in-memory key-value cache with a byte budget and
//! least-recently-used eviction.
//!
//! [`cache::ShardedCache`] is the entry point: `put` stores a value, `get`
//! reads one. Behind it stand
//!
//! - [`router`]: the hash that assigns every key to one shard;
//! - [`shard`] and [`shard_set`]: the tables that hold the entries;
//! - [`recency`]: the order of the keys from least to most recently used;
//! - [`accountant`]: the bytes charged for live keys and values;
//! - [`eviction`]: the rule that decides when the oldest entry must go;
//! - [`config`]: the settings fixed when a cache is built.
//!
//! [`model`] describes a cache as a sequence of items and states the laws
//! that the operations obey. A cache is owned by one caller at a time; to
//! share it between threads or tasks, put it behind a lock.

pub mod accountant;
pub mod cache;
pub mod config;
pub mod eviction;
pub mod model;
pub mod recency;
pub mod router;
pub mod shard;
pub mod shard_set;
