use cephlens::stream::{
    cluster_stream_command, node_facts_snippet, node_stream_command, parse_node_stream_payload,
    PayloadError, CLUSTER_STREAM_SETUP, CLUSTER_STREAM_TICK, NODE_FACTS_SNIPPET,
    NODE_PRESSURE_SNIPPET,
};

#[test]
fn node_stream_payload_parses_a_host_without_osds() {
    let summary = parse_node_stream_payload(
        "ceph-admin",
        r#"{"type":"node","hostname":"ceph-admin","sudo":"ok","ceph_version":"ceph version 19.2.0","deployment":"cephadm","ceph_osd_processes":0,"osd_ids":"","cpu_percent":1.5,"mem_percent":42.0}"#,
    )
    .expect("a mon-only node should parse");

    assert_eq!(summary.ceph_osd_processes, 0);
    assert_eq!(summary.osd_ids, "");
}

#[test]
fn node_stream_payload_fills_the_summary() {
    let summary = parse_node_stream_payload(
        "h",
        r#"{"hostname":"n","sudo":"ok","ceph_version":"v","deployment":"d","ceph_osd_processes":3,"osd_ids":"1,2","cpu_percent":1.5,"mem_percent":42}"#,
    )
    .unwrap();
    assert_eq!(summary.host, "h");
    assert_eq!(summary.hostname, "n");
    assert_eq!(summary.sudo, "ok");
    assert_eq!(summary.ceph_version, "v");
    assert_eq!(summary.deployment, "d");
    assert_eq!(summary.ceph_osd_processes, 3);
    assert_eq!(summary.osd_ids, "1,2");
    assert_eq!(f64::from_bits(summary.cpu_percent.bits), 1.5);
    assert_eq!(f64::from_bits(summary.mem_percent.bits), 42.0);
    assert!(summary.error.is_none());
}

#[test]
fn node_stream_errors_are_told_apart() {
    let error = parse_node_stream_payload("h", "{").unwrap_err();
    assert!(matches!(error, PayloadError::Invalid(_)));
    assert!(error.text("h").starts_with("invalid node stream payload from h: EOF"));
    let error = parse_node_stream_payload("h", r#"{"type":"error","message":"boom"}"#).unwrap_err();
    assert!(matches!(error, PayloadError::Remote(_)));
    assert_eq!(error.text("h"), "boom");
    let error = parse_node_stream_payload("h", r#"{"type":"error"}"#).unwrap_err();
    assert_eq!(error.text("h"), "remote node probe failed");
}

#[test]
fn cluster_loop_is_written_out() {
    assert_eq!(
        cluster_stream_command(7),
        format!("\n{CLUSTER_STREAM_SETUP}\nwhile true; do\n{CLUSTER_STREAM_TICK}\n  sleep 7\ndone\n")
    );
}

#[test]
fn node_loop_is_written_out() {
    let command = node_stream_command(12);
    let start = format!("\nprev_total=0\nprev_idle=0\nwhile true; do\n{NODE_FACTS_SNIPPET}\n  read _ user nice");
    assert!(command.starts_with(&start));
    assert!(command.contains("'BEGIN { printf \"%.1f\", (total-idle)*100/total }')\n"));
    assert!(command.contains("printf '{\"type\":\"node\",\"hostname\":\"%s\""));
    assert!(command.ends_with("\"$cpu_pct\" \"$mem_pct\"\n  sleep 12\ndone\n"));
}

#[test]
fn node_facts_set_every_variable_that_is_reported() {
    let facts = node_facts_snippet();
    assert_eq!(facts, format!("{NODE_FACTS_SNIPPET}\n{NODE_PRESSURE_SNIPPET}"));
    for variable in [
        "hostname", "sudo_state", "ceph_version", "deployment", "count", "ids", "mem_pct",
        "io_stall", "cpu_stall", "io_limits",
    ] {
        assert!(facts.contains(&format!("{variable}=")), "{variable}");
    }
    assert!(facts.contains("/proc/pressure/io"));
    assert!(facts.contains("/proc/pressure/cpu"));
}
