//! Core of a load-balancing JSON-RPC proxy for blockchain nodes: the upstream
//! pool and its selection engine, the consensus-head tracker with its block
//! graph, and the time-bucketed stats aggregator.
pub mod assoc;
pub mod block;
pub mod block_maps;
pub mod head_map;
pub mod errors;
pub mod connection;
pub mod blockchain;
pub mod block_watcher;
pub mod provider_tiers;
pub mod histogram;
pub mod app_stats;
