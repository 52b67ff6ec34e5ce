//! The settings that a profile resolves to.

use vstd::prelude::*;

verus! {

/// The settings that a profile resolves to.
#[derive(Clone, Debug)]
pub struct ResolvedConfig {
    pub profile: String,
    pub admin_host: String,
    pub hosts: Vec<String>,
    pub client_hosts: Vec<String>,
    pub refresh_secs: u64,
    pub trace_auto_start: bool,
    pub trace_window_secs: u64,
    pub trace_latency_ms: u64,
    pub trace_ttl_secs: u64,
    pub session_keep: usize,
}

} // verus!
