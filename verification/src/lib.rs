//! Verified core for validating and pricing on-chain trading strategies:
//! ABI-level revert decoding, fork-instance caching, multicall quote
//! batching, per-contract word resolution and the configuration facade.

pub mod abi;
pub mod address;
pub mod bytes32;
pub mod cli;
pub mod config;
pub mod dotrain_order;
pub mod downtime;
pub mod fork;
pub mod meta;
pub mod order_quote;
pub mod quote;
pub mod revert;
pub mod subgraph;
pub mod text;
