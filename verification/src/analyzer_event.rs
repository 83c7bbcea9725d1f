//! Aggregate events the analyzer publishes on the bus.

use vstd::prelude::*;

verus! {

/// One peer's aggregate for one tick: how many probes went out, how many
/// answers came back, and the latency range. Times are microseconds since
/// the epoch; latencies are microseconds.
#[derive(Debug, Clone)]
pub struct UdpEchoAnalyzerEventServer {
    pub time_micros: u64,
    pub server_from: String,
    pub server_to: String,
    pub server_to_ip: String,
    pub req_count: u64,
    pub resp_count: u64,
    pub max_latency: Option<u64>,
    pub min_latency: Option<u64>,
}

/// One datacenter's aggregate for one tick, rolled up over its peers.
#[derive(Debug, Clone)]
pub struct UdpEchoAnalyzerEventDatacenter {
    pub time_micros: u64,
    pub server_from: String,
    pub datacenter_from: String,
    pub datacenter_to: String,
    pub req_count: u64,
    pub resp_count: u64,
    pub max_latency: Option<u64>,
    pub min_latency: Option<u64>,
}

} // verus!
