//! Content-addressed references: identifiers derived from data, tiered caches
//! that serve the data behind them, and a ledger that tracks which references
//! are waiting to be confirmed and how many users still hold the confirmed ones.

pub mod lfs_id;
pub mod cache;
pub mod memory;
pub mod lru_cache;
pub mod table;
pub mod ledger;
pub mod server;
pub mod guard;
pub mod config;
pub mod disk;
pub mod rpc;
pub mod client;
pub mod runtime;
pub mod user_data;
pub mod multi;
