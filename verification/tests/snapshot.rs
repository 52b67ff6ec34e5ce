use cephlens::config::ResolvedConfig;
use cephlens::model::{Moment, NodeSummary};
use cephlens::snapshot::{collect_snapshot, read_report, snapshot_at, AdminOutputs, ReportError};

fn outputs() -> AdminOutputs {
    AdminOutputs {
        status: " {\"fsid\":\"f\"}\n".to_owned(),
        tree: "{}".to_owned(),
        df: "{\"nodes\":[{\"id\":1}]}".to_owned(),
        perf: Some("{\"osdstats\":{\"osd_perf_infos\":[{\"id\":1,\"perf_stats\":{\"apply_latency_ms\":4}}]}}".to_owned()),
        osdmap: Some("{\"full_ratio\":0.95,\"pools\":[{\"pool\":3}]}".to_owned()),
        crush: Some("no json".to_owned()),
        pgs: None,
    }
}

#[test]
fn reports_read_the_admin_outputs() {
    let report = read_report(&outputs()).unwrap();
    assert_eq!(report.cluster.fsid, "f");
    assert_eq!(f64::from_bits(report.cluster.full_ratio.bits), 0.95);
    assert_eq!(report.osds.len(), 1);
    assert_eq!(report.osds[0].apply_latency_ms, 4);
    assert_eq!(report.pools[0].id, 3);
    assert_eq!(report.pools[0].failure_domain, "");
    assert!(report.abnormal_pgs.is_empty());
}

#[test]
fn the_first_output_that_is_no_json_is_the_error() {
    let broken = AdminOutputs { df: "{".to_owned(), ..outputs() };
    let error = read_report(&broken).unwrap_err();
    assert!(matches!(error, ReportError::Df(_)));
    assert!(error.text().starts_with("failed to parse osd df json: EOF"));
    let broken = AdminOutputs { tree: String::new(), ..broken };
    let error = read_report(&broken).unwrap_err();
    assert!(matches!(error, ReportError::Tree(_)));
    assert!(error.text().starts_with("failed to parse osd tree json: EOF"));
    let broken = AdminOutputs { status: "x".to_owned(), ..broken };
    let error = read_report(&broken).unwrap_err();
    assert!(matches!(error, ReportError::Status(_)));
    assert!(error.text().starts_with("failed to parse ceph status json: expected value"));
}

#[test]
fn snapshots_keep_the_order_of_the_hosts() {
    let cfg = ResolvedConfig {
        profile: "p".to_owned(),
        admin_host: "adm".to_owned(),
        hosts: vec!["a".to_owned(), "b".to_owned()],
        client_hosts: vec![],
        refresh_secs: 1,
        trace_auto_start: false,
        trace_window_secs: 10,
        trace_latency_ms: 1,
        trace_ttl_secs: 1800,
        session_keep: 20,
    };
    let moment = Moment { secs: 5, nanos: 6 };
    let node = NodeSummary { host: "a".to_owned(), ..NodeSummary::default() };
    let report = read_report(&outputs()).unwrap();
    let snapshot = snapshot_at(&cfg, moment, report, vec![Some(node), None]);
    assert_eq!(snapshot.captured_at, moment);
    assert_eq!(snapshot.profile, "p");
    assert_eq!(snapshot.admin_host, "adm");
    assert_eq!(snapshot.hosts, vec!["a", "b"]);
    assert_eq!(snapshot.trace_window_secs, 10);
    assert_eq!(snapshot.nodes.len(), 2);
    assert_eq!(snapshot.nodes[0].host, "a");
    assert!(snapshot.nodes[0].error.is_none());
    assert_eq!(snapshot.nodes[1].host, "b");
    assert_eq!(
        snapshot.nodes[1].error.as_deref(),
        Some("node collection worker panicked")
    );
    assert_eq!(snapshot.osds.len(), 1);

    let report = read_report(&outputs()).unwrap();
    let snapshot = collect_snapshot(&cfg, report, vec![]);
    // Any plausible clock lies after this moment in 2023.
    assert!(snapshot.captured_at.secs > 1_700_000_000);
    assert!(snapshot.nodes.is_empty());
}
