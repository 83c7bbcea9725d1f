//! Mesh-health probing agent: verified core.
//!
//! Per-node probing, aggregation and reactive analysis: a UDP echo probe
//! codec, the request/response correlation and aggregation engine, the
//! event-bus fan-out, and the per-route diagnostic policy with its
//! single-flight runner.

pub mod allow_addr;
pub mod analysis;
pub mod analyzer;
pub mod analyzer_event;
pub mod bus;
pub mod client;
pub mod codec;
pub mod config;
pub mod maintenance_mode;
pub mod metric;
pub mod server;
pub mod stdout_subscriber;
pub mod text;
