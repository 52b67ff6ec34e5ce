//! osdtrace (OSD server side tracer) events and the per OSD rows built from them.

use crate::text;
use vstd::prelude::*;

verus! {

/// One op that osdtrace reported.
#[derive(Clone, Debug)]
pub struct TraceEvent {
    pub host: String,
    pub osd: String,
    pub pg: String,
    pub op: String,
    pub size_bytes: u64,
    pub op_lat_us: u64,
    pub throttle_lat_us: u64,
    pub recv_lat_us: u64,
    pub dispatch_lat_us: u64,
    pub queue_lat_us: u64,
    pub bluestore_lat_us: u64,
    pub kv_commit_us: u64,
    pub raw: String,
}

/// The part of an op's latency that stands out, and what it points at.
#[derive(Clone, Debug)]
pub struct Component {
    pub name: String,
    pub value_us: u64,
    pub suspect: String,
}

/// What osdtrace saw of one OSD in the trace window.
#[derive(Clone, Debug)]
pub struct TraceGraphRow {
    pub osd: String,
    pub host: String,
    pub ops: u64,
    pub avg_us: u64,
    pub max_us: u64,
    pub throttle_max_us: u64,
    pub recv_max_us: u64,
    pub dispatch_max_us: u64,
    pub queue_max_us: u64,
    pub store_max_us: u64,
    pub kv_commit_max_us: u64,
    pub pg_count: usize,
    /// The PG with the most ops, or `-` where none is known.
    pub hot_pg: String,
    pub points: Vec<u64>,
    /// The largest of the latency components.
    pub dominant: Component,
}

/// What kfstrace saw of one MDS operation.
#[derive(Clone, Debug)]
pub struct KfsOpRow {
    pub op: String,
    pub count: u64,
    pub avg_us: u64,
    pub max_us: u64,
    pub unsafe_count: u64,
}

/// The name `osd.N` of the OSD that a trace line calls `N` or `osd.N`.
pub open spec fn osd_name(name: Seq<char>) -> Seq<char> {
    if text::begins(name, "osd."@) {
        name
    } else {
        "osd."@ + name
    }
}

/// The name `osd.N` of the OSD that a trace line calls `N` or `osd.N`.
pub fn normalize_osd_name(name: &str) -> (out: String)
    ensures
        out@ == osd_name(name@),
{
    if text::text_begins(name, "osd.") {
        name.to_owned()
    } else {
        let mut out = "osd.".to_owned();
        out.append(name);
        out
    }
}

} // verus!
