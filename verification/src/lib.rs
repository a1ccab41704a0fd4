//! Core of a high-throughput IPv4 TCP port scanner: address generation,
//! port-spec parsing, the per-port open-IP bitmap and its wire codec, the
//! batch writer's coalescing rules, the open-port store, rate limiting,
//! SYN packet crafting, and the scan lifecycle controller.

pub mod bitmap;
pub mod config;
pub mod control;
pub mod error;
pub mod geo;
pub mod ip;
pub mod metrics;
pub mod packet;
pub mod ports;
pub mod probe;
pub mod query;
pub mod range;
pub mod rate;
pub mod store;
pub mod writer;

pub use metrics::ScanMetrics;
