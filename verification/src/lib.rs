//! Cluster status parsing, trace aggregation and operator insights for Ceph.

pub mod bench;
pub mod collect;
pub mod collect_laws;
pub mod collect_value_laws;
pub mod config;
pub mod diagnose;
pub mod diagnose_laws;
pub mod doctor;
pub mod doctor_laws;
pub mod double;
pub mod flow;
pub mod flow_laws;
pub mod flow_row_laws;
pub mod insight_laws;
pub mod json;
pub mod json_laws;
pub mod model;
pub mod node;
pub mod order;
pub mod radostrace;
pub mod radostrace_laws;
pub mod snapshot;
pub mod ssh;
pub mod stream;
pub mod tally;
pub mod text;
pub mod trace;
pub mod util;
