//! Bohime: the logic of a sharded, Raft-replicated key-value store.

pub mod admin_service;
pub mod bytes;
pub mod cli;
pub mod client;
pub mod codec;
pub mod command;
pub mod config;
pub mod drain;
pub mod driver;
pub mod engine;
pub mod group;
pub mod hosting;
pub mod ids;
pub mod kv_service;
pub mod membership;
pub mod meta;
pub mod migrate;
pub mod placement;
pub mod read_engine;
pub mod read_view;
pub mod replay;
pub mod router;
pub mod session;
pub mod shard_map;
pub mod shards;
pub mod snapshot;
pub mod storage;
pub mod text;
pub mod types;
