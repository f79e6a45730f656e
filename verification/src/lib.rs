//! A horizontally partitioned key-value set service: a consistent-hash ring
//! routes string values to storage nodes, a framed binary wire protocol
//! carries requests and responses, and a rebalancing protocol migrates
//! ownership when a node joins.

pub mod cluster;
pub mod consistent_hash;
pub mod consistent_hash_ring;
pub mod error;
pub mod handlers;
pub mod numerals;
pub mod protocol;
pub mod rebalancer;
pub mod server;
pub mod storage;
