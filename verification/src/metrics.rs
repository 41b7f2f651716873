//! Observed system state, as plain values. Times are milliseconds since the
//! Unix epoch. Rates and percentages that the collectors measure as
//! floating-point numbers are not part of these records; the decision logic
//! never reads them.
use vstd::prelude::*;

verus! {

#[derive(Clone, Debug)]
pub struct MemoryMetrics {
    pub total_bytes: u64,
    pub used_bytes: u64,
    pub available_bytes: u64,
    pub swap_total_bytes: u64,
    pub swap_used_bytes: u64,
}

#[derive(Clone, Debug)]
pub struct GpuProcess {
    pub pid: u32,
    pub name: Option<String>,
    pub memory_bytes: Option<u64>,
}

/// A listening socket and, when resolved, its owning process.
#[derive(Clone, Debug)]
pub struct ListeningPort {
    pub protocol: String,
    pub address: String,
    pub port: u16,
    pub pid: Option<u32>,
    pub process_name: Option<String>,
    pub process_path: Option<String>,
}

#[derive(Clone, Debug)]
pub struct GeoLocation {
    pub country_code: String,
    pub country_name: String,
    pub city: Option<String>,
}

/// An active connection.
#[derive(Clone, Debug)]
pub struct Connection {
    pub protocol: String,
    pub local_addr: String,
    pub local_port: u16,
    pub remote_addr: String,
    pub remote_port: u16,
    pub state: String,
    pub pid: Option<u32>,
    pub process_name: Option<String>,
    pub process_path: Option<String>,
    pub first_seen: Option<i64>,
    pub last_seen: Option<i64>,
    pub geo: Option<GeoLocation>,
}

#[derive(Clone, Debug)]
pub struct ProcessBandwidth {
    pub pid: u32,
    pub name: String,
    pub rx_bytes: u64,
    pub tx_bytes: u64,
}

/// One observed DNS lookup.
#[derive(Clone, Debug)]
pub struct DnsQuery {
    pub timestamp: i64,
    pub query_name: String,
    pub record_type: String,
    pub response_code: u16,
    pub process_name: Option<String>,
}

/// A running process (the sampled CPU share is kept by the collector).
#[derive(Clone, Debug)]
pub struct ProcessInfo {
    pub pid: u32,
    pub name: String,
    pub path: Option<String>,
    pub memory_bytes: u64,
    pub status: String,
    pub start_time: Option<i64>,
    pub connection_count: u32,
    pub parent_pid: Option<u32>,
}

#[derive(Clone, Debug)]
pub struct ServiceInfo {
    pub name: String,
    pub display_name: Option<String>,
    pub status: String,
    pub pid: Option<u32>,
}

#[derive(Clone, Debug)]
pub struct FirewallStatus {
    pub enabled: bool,
    pub profile: Option<String>,
    pub details: String,
}

/// A network interface (throughput rates are kept by the collector).
#[derive(Clone, Debug)]
pub struct NetworkInterface {
    pub name: String,
    pub kind: String,
    pub mac: Option<String>,
    pub ips: Vec<String>,
    pub is_up: bool,
    pub rx_total_bytes: u64,
    pub tx_total_bytes: u64,
    pub gateway: Option<String>,
    pub dns: Vec<String>,
}

#[derive(Clone, Debug)]
pub struct DnsCacheEntry {
    pub name: String,
    pub record_type: String,
}

#[derive(Clone, Debug)]
pub struct TopologyNode {
    pub id: String,
    pub kind: String,
    pub label: String,
    pub subtitle: Option<String>,
}

#[derive(Clone, Debug)]
pub struct TopologyEdge {
    pub id: String,
    pub source: String,
    pub target: String,
    pub animated: bool,
    pub label: Option<String>,
}

#[derive(Clone, Debug)]
pub struct TopologyGraph {
    pub nodes: Vec<TopologyNode>,
    pub edges: Vec<TopologyEdge>,
}

pub open spec fn opt_view(o: Option<String>) -> Option<Seq<char>> {
    match o {
        Some(s) => Some(s@),
        None => None,
    }
}

pub open spec fn strs_view(v: Seq<String>) -> Seq<Seq<char>> {
    v.map_values(|s: String| s@)
}

pub fn copy_opt(o: &Option<String>) -> (r: Option<String>)
    ensures
        r == *o,
{
    match o {
        Some(s) => Some(s.clone()),
        None => None,
    }
}

pub fn copy_strs(v: &Vec<String>) -> (r: Vec<String>)
    ensures
        r@ == v@,
{
    let mut out: Vec<String> = Vec::new();
    let mut i: usize = 0;
    while i < v.len()
        invariant
            i <= v.len(),
            out@ == v@.subrange(0, i as int),
        decreases v.len() - i,
    {
        out.push(v[i].clone());
        i = i + 1;
    }
    out
}

} // verus!
