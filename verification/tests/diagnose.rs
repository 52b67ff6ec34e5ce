use cephlens::diagnose::{
    cluster_evidence_insights, cross_source_insight, diagnose, format_bytes, format_latency_us,
    format_osd_set, format_percent, health_check_summary, insight_level_for_latency,
    io_limit_insights, kfs_insights, node_for_host, node_pressure_insights, osd_trace_insights,
    queue_recv_verdict, rados_insights, DiagnoseInput, Insight, InsightLevel,
};
use cephlens::double::Double;
use cephlens::model::{
    ClusterSummary, HealthCheck, Moment, NodeSummary, NodeTable, OsdSummary, PgSummary, PoolSummary,
    Snapshot,
};
use cephlens::radostrace::parse_rados_event;
use cephlens::trace::{Component, KfsOpRow, TraceEvent, TraceGraphRow};

fn double(value: f64) -> Double {
    Double { bits: value.to_bits() }
}

fn snapshot() -> Snapshot {
    Snapshot {
        captured_at: Moment { secs: 0, nanos: 0 },
        profile: "test".to_owned(),
        admin_host: "admin".to_owned(),
        hosts: vec!["node-a".to_owned()],
        trace_window_secs: 10,
        cluster: ClusterSummary {
            health: "HEALTH_OK".to_owned(),
            pg_states: "1 active+clean".to_owned(),
            ..ClusterSummary::default()
        },
        nodes: Vec::new(),
        osds: Vec::new(),
        pools: Vec::new(),
        abnormal_pgs: Vec::new(),
    }
}

fn row(osd: &str, host: &str, max_us: u64, queue_us: u64) -> TraceGraphRow {
    TraceGraphRow {
        osd: osd.to_owned(),
        host: host.to_owned(),
        ops: 2,
        avg_us: max_us / 2,
        max_us,
        throttle_max_us: 0,
        recv_max_us: 0,
        dispatch_max_us: 0,
        queue_max_us: queue_us,
        store_max_us: 0,
        kv_commit_max_us: 0,
        pg_count: 1,
        hot_pg: "1.a:2".to_owned(),
        points: Vec::new(),
        dominant: Component {
            name: "queue".to_owned(),
            value_us: queue_us,
            suspect: "OSD queue".to_owned(),
        },
    }
}

#[test]
fn osd_insights_flag_dominant_queue_and_cpu_pressure() {
    let rows = vec![row("osd.1", "node-a", 25_000, 20_000)];
    let mut nodes = NodeTable::new();
    nodes.insert(
        "node-a".to_owned(),
        NodeSummary {
            host: "node-a".to_owned(),
            cpu_percent: double(90.0),
            ..NodeSummary::default()
        },
    );

    let insights = diagnose(DiagnoseInput {
        snapshot: None,
        admin_host: "admin",
        node_summaries: &nodes,
        stream_counts: None,
        trace_window_secs: 10,
        trace_events: &[],
        trace_rows: &rows,
        kfs_rows: &[],
        kfs_idle: true,
        rados_events: &[],
        idle_message: None,
    });

    assert!(insights.iter().any(|insight| {
        insight
            .text
            .contains("largest observed component queue 20.0ms")
    }));
    assert!(insights.iter().any(|insight| {
        insight
            .text
            .contains("queue is at least 2x recv; OSD queue delay likely")
    }));
    assert!(
        insights
            .iter()
            .any(|insight| insight.text.contains("last 10s"))
    );
    assert!(
        insights
            .iter()
            .any(|insight| insight.text.contains("node-a CPU 90.0%"))
    );
}

#[test]
fn cross_source_maxima_are_not_presented_as_attribution() {
    let rows = [row("osd.1", "node-a", 10_000, 0)];
    let rados = vec![
        parse_rados_event("1 1 1 1 01 [1,2,3] W 4096 30000 obj [write][0,4096]")
            .expect("fixture parses"),
    ];

    let insight = cross_source_insight(&[&rows[0]], &rados).unwrap();

    assert_eq!(insight.level, InsightLevel::Info);
    assert!(insight.text.contains("not time/PG correlated"));
    assert!(!insight.text.contains("gap ="));
}

#[test]
fn queue_and_receive_comparison_names_the_workshop_fault_class() {
    assert_eq!(
        queue_recv_verdict(50_000, 100),
        "queue is at least 2x recv; OSD queue delay likely"
    );
    assert_eq!(
        queue_recv_verdict(100, 50_000),
        "recv is at least 2x queue; network receive delay likely"
    );
    assert_eq!(queue_recv_verdict(9_000, 100), "no clear queue/recv lead");
    assert_eq!(
        queue_recv_verdict(50_000, 30_000),
        "no clear queue/recv lead"
    );
}

#[test]
fn cluster_evidence_connects_pool_pg_capacity_and_recovery_faults() {
    let mut snapshot = snapshot();
    snapshot.pools.push(PoolSummary {
        name: "testpool".to_owned(),
        size: 4,
        crush_rule: 0,
        failure_domain: "host".to_owned(),
        available_domains: 3,
        ..PoolSummary::default()
    });
    snapshot.osds.push(OsdSummary {
        name: "osd.2".to_owned(),
        utilization: double(42.0),
        ..OsdSummary::default()
    });
    snapshot.cluster.nearfull_ratio = double(0.32);
    snapshot.cluster.backfillfull_ratio = double(0.36);
    snapshot.cluster.full_ratio = double(0.40);
    snapshot.cluster.recovering_bytes_sec = 2 * 1024 * 1024;
    snapshot.abnormal_pgs.push(PgSummary {
        id: "2.a".to_owned(),
        state: "active+remapped+backfilling".to_owned(),
        up: vec![9, 1, 2],
        acting: vec![0, 1, 2],
    });

    let insights = cluster_evidence_insights(&snapshot);

    assert!(insights.iter().any(|insight| {
        insight
            .text
            .contains("pool testpool size 4 exceeds 3 available host domains")
    }));
    assert!(insights.iter().any(|insight| {
        insight
            .text
            .contains("osd.2 utilization 42.000% crosses full threshold 40.000%")
    }));
    assert!(insights.iter().any(|insight| {
        insight
            .text
            .contains("PG 2.a active+remapped+backfilling · up [9,1,2] · acting [0,1,2]")
    }));
    assert!(
        insights
            .iter()
            .any(|insight| insight.text.contains("2.0 MiB/s"))
    );
}

#[test]
fn deep_scrub_and_block_limit_are_named_directly() {
    let mut snapshot = snapshot();
    snapshot.abnormal_pgs.push(PgSummary {
        id: "2.b".to_owned(),
        state: "active+clean+scrubbing+deep".to_owned(),
        up: vec![0, 1, 2],
        acting: vec![0, 1, 2],
    });
    let cluster = cluster_evidence_insights(&snapshot);
    assert!(
        cluster
            .iter()
            .any(|insight| { insight.text.contains("PG 2.b active+clean+scrubbing+deep") })
    );

    let mut nodes = NodeTable::new();
    nodes.insert(
        "node-b".to_owned(),
        NodeSummary {
            host: "node-b".to_owned(),
            osd_io_write_limits: "osd.2: /dev/vdb 131072".to_owned(),
            ..NodeSummary::default()
        },
    );
    let limits = io_limit_insights(&nodes);
    assert_eq!(limits.len(), 1);
    assert!(limits[0].text.contains("node-b OSD block write limit"));
    assert!(limits[0].text.contains("osd.2"));
}

fn texts(insights: &[Insight]) -> Vec<&str> {
    insights.iter().map(|insight| insight.text.as_str()).collect()
}

fn quiet<'a>(nodes: &'a NodeTable) -> DiagnoseInput<'a> {
    DiagnoseInput {
        snapshot: None,
        admin_host: "admin",
        node_summaries: nodes,
        stream_counts: None,
        trace_window_secs: 10,
        trace_events: &[],
        trace_rows: &[],
        kfs_rows: &[],
        kfs_idle: true,
        rados_events: &[],
        idle_message: None,
    }
}

#[test]
fn nothing_known_waits_for_the_first_snapshot() {
    let nodes = NodeTable::new();
    let insights = diagnose(DiagnoseInput { idle_message: Some("idle"), ..quiet(&nodes) });
    assert_eq!(texts(&insights), vec!["waiting for first cluster snapshot", "idle"]);
    assert_eq!(insights[0].level, InsightLevel::Info);
    let insights = diagnose(DiagnoseInput {
        idle_message: Some("idle"),
        kfs_idle: false,
        ..quiet(&nodes)
    });
    assert_eq!(insights.len(), 1);
}

#[test]
fn a_quiet_snapshot_shows_nothing() {
    let nodes = NodeTable::new();
    let mut snapshot = snapshot();
    assert!(diagnose(DiagnoseInput { snapshot: Some(&snapshot), ..quiet(&nodes) }).is_empty());
    snapshot.cluster.full_ratio = double(0.95);
    snapshot.osds.push(OsdSummary { utilization: double(94.9), ..OsdSummary::default() });
    snapshot.pools.push(PoolSummary { size: 3, ..PoolSummary::default() });
    assert!(diagnose(DiagnoseInput { snapshot: Some(&snapshot), ..quiet(&nodes) }).is_empty());
}

#[test]
fn health_is_named_with_its_checks() {
    let nodes = NodeTable::new();
    let mut snapshot = snapshot();
    snapshot.cluster.health = "HEALTH_WARN".to_owned();
    let insights = diagnose(DiagnoseInput { snapshot: Some(&snapshot), ..quiet(&nodes) });
    assert_eq!(
        texts(&insights),
        vec!["cluster health HEALTH_WARN; run ceph health detail on admin"]
    );
    assert_eq!(insights[0].level, InsightLevel::Warn);

    snapshot.cluster.health = "HEALTH_ERR".to_owned();
    snapshot.cluster.health_checks.push(HealthCheck {
        code: "OSD_FULL".to_owned(),
        message: "1 full osd".to_owned(),
        details: vec!["osd.2 is full".to_owned(), "more".to_owned()],
        ..HealthCheck::default()
    });
    let insights = diagnose(DiagnoseInput { snapshot: Some(&snapshot), ..quiet(&nodes) });
    assert_eq!(
        texts(&insights),
        vec!["cluster health HEALTH_ERR: OSD_FULL 1 full osd; osd.2 is full"]
    );
    assert_eq!(insights[0].level, InsightLevel::Bad);
}

#[test]
fn only_the_first_checks_fit_the_summary() {
    let check = |code: &str, message: &str| HealthCheck {
        code: code.to_owned(),
        message: message.to_owned(),
        ..HealthCheck::default()
    };
    let long = "m".repeat(70);
    let checks = vec![check("A", "a"), check("B", &long), check("C", "c"), check("D", "d"), check("E", "e")];
    assert_eq!(
        health_check_summary(&checks),
        format!("A a; B {}; C c (+2 more)", "m".repeat(60))
    );
    assert_eq!(health_check_summary(&checks[..1]), "A a");
    assert_eq!(health_check_summary(&[]), "");
}

#[test]
fn pg_states_are_named_where_none_is_clean() {
    let nodes = NodeTable::new();
    let mut snapshot = snapshot();
    snapshot.cluster.pg_states = "3 peering".to_owned();
    let insights = diagnose(DiagnoseInput { snapshot: Some(&snapshot), ..quiet(&nodes) });
    assert_eq!(
        texts(&insights),
        vec!["PG state 3 peering; trace latency may include recovery/peering"]
    );
}

#[test]
fn streams_and_trace_errors_are_named() {
    let nodes = NodeTable::new();
    let event = |op: &str, raw: &str| TraceEvent {
        host: "node-a".to_owned(),
        osd: String::new(),
        pg: String::new(),
        op: op.to_owned(),
        size_bytes: 0,
        op_lat_us: 0,
        throttle_lat_us: 0,
        recv_lat_us: 0,
        dispatch_lat_us: 0,
        queue_lat_us: 0,
        bluestore_lat_us: 0,
        kv_commit_us: 0,
        raw: raw.to_owned(),
    };
    let events = vec![event("error", "first"), event("error", "last"), event("op_w", "x")];
    let snapshot = snapshot();
    let insights = diagnose(DiagnoseInput {
        snapshot: Some(&snapshot),
        stream_counts: Some((1, 3)),
        trace_events: &events,
        ..quiet(&nodes)
    });
    assert_eq!(
        texts(&insights),
        vec![
            "ssh streams 1/3 live; check hosts marked retry/error",
            "trace error on node-a: last",
        ]
    );
    for counts in [(3, 3), (0, 0)] {
        assert!(diagnose(DiagnoseInput {
            snapshot: Some(&snapshot),
            stream_counts: Some(counts),
            ..quiet(&nodes)
        })
        .is_empty());
    }
}

#[test]
fn the_fullest_osd_is_measured_against_the_full_ratio() {
    let mut snapshot = snapshot();
    let osd = |name: &str, used: f64| OsdSummary {
        name: name.to_owned(),
        utilization: double(used),
        ..OsdSummary::default()
    };
    snapshot.osds = vec![osd("osd.1", 95.0), osd("osd.2", 95.0), osd("osd.3", -0.0)];
    assert!(cluster_evidence_insights(&snapshot).is_empty(), "no ratio is known");
    snapshot.cluster.full_ratio = double(0.95);
    let insights = cluster_evidence_insights(&snapshot);
    assert_eq!(
        texts(&insights),
        vec!["osd.2 utilization 95.000% crosses full threshold 95.000% (near 0.000%, backfill 0.000%)"]
    );
    snapshot.cluster.full_ratio = double(0.951);
    assert!(cluster_evidence_insights(&snapshot).is_empty());
}

#[test]
fn one_pg_stands_for_the_others() {
    let mut snapshot = snapshot();
    let pg = |id: &str, state: &str| PgSummary {
        id: id.to_owned(),
        state: state.to_owned(),
        up: vec![],
        acting: vec![1],
    };
    snapshot.abnormal_pgs = vec![pg("2.a", "peering"), pg("2.b", "recovering"), pg("2.c", "active+clean+scrubbing+deep")];
    assert_eq!(
        texts(&cluster_evidence_insights(&snapshot)),
        vec!["PG 2.c active+clean+scrubbing+deep · up [] · acting [1]; +2 more"]
    );
    snapshot.abnormal_pgs.pop();
    assert_eq!(
        texts(&cluster_evidence_insights(&snapshot)),
        vec!["PG 2.b recovering · up [] · acting [1]; +1 more"]
    );
    snapshot.abnormal_pgs.pop();
    assert_eq!(
        texts(&cluster_evidence_insights(&snapshot)),
        vec!["PG 2.a peering · up [] · acting [1]"]
    );
}

#[test]
fn the_hosts_that_stall_most_are_named() {
    let mut nodes = NodeTable::new();
    for (host, stall) in [("b", 5.0), ("a", 5.0), ("c", 20.0), ("d", 4.9), ("e", f64::NAN)] {
        nodes.insert(
            host.to_owned(),
            NodeSummary {
                host: host.to_owned(),
                io_stall_percent: double(stall),
                ..NodeSummary::default()
            },
        );
    }
    let insights = node_pressure_insights(&nodes);
    assert_eq!(
        texts(&insights),
        vec![
            "c stalled on IO 20.0% of the last 10s; storage below the OSD is a suspect",
            "a stalled on IO 5.0% of the last 10s; storage below the OSD is a suspect",
        ]
    );
    assert_eq!(insights[0].level, InsightLevel::Bad);
    assert_eq!(insights[1].level, InsightLevel::Warn);
}

#[test]
fn hosts_are_found_by_key_or_by_name() {
    let mut nodes = NodeTable::new();
    let node = |host: &str, hostname: &str| NodeSummary {
        host: host.to_owned(),
        hostname: hostname.to_owned(),
        ..NodeSummary::default()
    };
    nodes.insert("a".to_owned(), node("a", "b"));
    nodes.insert("b".to_owned(), node("x", "y"));
    assert_eq!(node_for_host(&nodes, "b").unwrap().host, "x");
    assert_eq!(node_for_host(&nodes, "y").unwrap().host, "x");
    assert!(node_for_host(&nodes, "z").is_none());
    nodes.insert("b".to_owned(), node("new", ""));
    assert_eq!(nodes.entries.len(), 2);
    assert_eq!(nodes.get("b").unwrap().host, "new");
    nodes.insert("c".to_owned(), node("c", ""));
    nodes.insert("a".to_owned(), node("first", ""));
    let hosts = nodes.entries.iter().map(|(_, node)| node.host.as_str()).collect::<Vec<_>>();
    assert_eq!(hosts, vec!["first", "new", "c"], "entries keep their places");
}

#[test]
fn write_limits_are_listed_by_host() {
    let mut nodes = NodeTable::new();
    for host in ["b", "a", "c"] {
        nodes.insert(
            host.to_owned(),
            NodeSummary {
                host: host.to_owned(),
                osd_io_write_limits: if host == "c" { String::new() } else { "w".repeat(80) },
                ..NodeSummary::default()
            },
        );
    }
    let insights = io_limit_insights(&nodes);
    assert_eq!(insights.len(), 2);
    assert_eq!(insights[0].text, format!("a OSD block write limit: {}", "w".repeat(72)));
    assert!(insights[1].text.starts_with("b "));
}

#[test]
fn slow_osds_are_spelled_out() {
    let nodes = NodeTable::new();
    let mut first = row("osd.1", "node-a", 250_000, 0);
    first.hot_pg = "-".to_owned();
    let second = row("osd.2", "node-b", 12_345, 0);
    let insights = osd_trace_insights(&nodes, &[&first, &second], 0);
    assert_eq!(
        texts(&insights),
        vec![
            "last 1s: 4 ops on 2 OSDs; worst osd.1 max 250.0ms avg 125.0ms",
            "slow op seen, but parsed queue/store/network components are empty; inspect raw osdtrace",
            "2 OSDs over 10ms; shared network/device/controller pressure is possible",
        ]
    );
    assert_eq!(insights[0].level, InsightLevel::Bad);
    let mut calm = row("osd.3", "node-a", 900, 0);
    calm.recv_max_us = 300;
    let mut nodes = NodeTable::new();
    nodes.insert(
        "k".to_owned(),
        NodeSummary {
            host: "node-a".to_owned(),
            mem_percent: double(85.0),
            ..NodeSummary::default()
        },
    );
    let insights = osd_trace_insights(&nodes, &[&calm], 5);
    assert_eq!(
        texts(&insights),
        vec![
            "last 5s: 2 ops on 1 OSDs; worst osd.3 max 900us avg 450us",
            "compare osd.3 / node-a: queue - · recv 300us → no clear queue/recv lead",
            "busiest PG on osd.3: 1.a:2; compare acting set if it stays busy",
            "node-a memory 85.0%; check OSD memory pressure before deeper trace",
            "no obvious slow OSD in the trace window; max latency is below 10ms",
        ]
    );
    assert_eq!(insights[4].level, InsightLevel::Okay);
}

#[test]
fn the_last_of_equally_slow_osds_is_the_worst() {
    let nodes = NodeTable::new();
    let mut first = row("osd.1", "node-a", 10, 0);
    let second = row("osd.2", "node-a", 10, 0);
    assert!(osd_trace_insights(&nodes, &[&first, &second], 1)[0].text.contains("worst osd.2"));
    first.ops = 3;
    assert!(osd_trace_insights(&nodes, &[&first, &second], 1)[0].text.contains("worst osd.1"));
}

#[test]
fn kfs_ops_are_totalled() {
    let op = |name: &str, max_us: u64, unsafe_count: u64| KfsOpRow {
        op: name.to_owned(),
        count: 3,
        avg_us: 20,
        max_us,
        unsafe_count,
    };
    assert!(kfs_insights(&[]).is_empty());
    let insights = kfs_insights(&[op("open", 100_000, 0), op("create", 100_000, 0)]);
    assert_eq!(
        texts(&insights),
        vec!["kfstrace: 6 MDS ops; slowest create max 100.0ms avg 20us"]
    );
    assert_eq!(insights[0].level, InsightLevel::Bad);
    let insights = kfs_insights(&[op("open", 5, 2), op("create", 4, 1)]);
    assert_eq!(
        texts(&insights),
        vec![
            "kfstrace: 6 MDS ops; slowest open max 5us avg 20us",
            "kfstrace: 3 unsafe metadata ops awaiting MDS journal commit",
        ]
    );
}

#[test]
fn rados_ops_are_totalled() {
    let events = vec![
        parse_rados_event("1 1 1 2 1 [1,2,3] W 4096 100 o [write][0,4096]").unwrap(),
        parse_rados_event("1 1 2 2 1 [1,2,3] W 4096 300 o [write][0,4096]").unwrap(),
        parse_rados_event("1 1 3 5 1 [1,2,3] R 4096 30000 o [read][0,4096]").unwrap(),
    ];
    let insights = rados_insights(&events);
    assert_eq!(
        texts(&insights),
        vec!["radostrace: 3 client ops; pool 5 max 30.0ms avg 30.0ms (0W/1R)"]
    );
    assert_eq!(insights[0].level, InsightLevel::Warn);
    assert!(rados_insights(&[]).is_empty());
    assert!(cross_source_insight(&[], &events).is_none());
    let rows = [row("osd.1", "node-a", 10_000, 0)];
    assert_eq!(
        cross_source_insight(&[&rows[0]], &events).unwrap().text,
        "cross-source maxima (not time/PG correlated): rados client 30.0ms, osd server 10.0ms; verify raw traces before attribution"
    );
}

#[test]
fn levels_follow_the_latency() {
    assert_eq!(insight_level_for_latency(0), InsightLevel::Info);
    assert_eq!(insight_level_for_latency(1), InsightLevel::Okay);
    assert_eq!(insight_level_for_latency(9_999), InsightLevel::Okay);
    assert_eq!(insight_level_for_latency(10_000), InsightLevel::Warn);
    assert_eq!(insight_level_for_latency(99_999), InsightLevel::Warn);
    assert_eq!(insight_level_for_latency(100_000), InsightLevel::Bad);
}

#[test]
fn latencies_format_like_floats() {
    assert_eq!(format_latency_us(0), "-");
    assert_eq!(format_latency_us(999), "999us");
    let mut value: u64 = 1000;
    while value < u64::MAX / 3 {
        for near in [value, value + 1, value + 49, value + 50, value + 51, value * 2 + 7] {
            assert_eq!(format_latency_us(near), format!("{:.1}ms", near as f64 / 1000.0));
        }
        value = value * 2 + 13;
    }
    for value in 1000..6000u64 {
        assert_eq!(format_latency_us(value), format!("{:.1}ms", value as f64 / 1000.0));
    }
}

#[test]
fn bytes_format_like_floats() {
    assert_eq!(format_bytes(0), "0 B");
    assert_eq!(format_bytes(1023), "1023 B");
    assert_eq!(format_bytes(1024), "1.0 KiB");
    assert_eq!(format_bytes(1_048_575), "1024.0 KiB");
    assert_eq!(format_bytes(1_048_576), "1.0 MiB");
    for value in [1075u64, 1076, 1100, 1_100_000, 5_000_000_000, u64::MAX, (1 << 53) + 1] {
        let shown = if value >= 1_048_576 {
            format!("{:.1} MiB", value as f64 / 1_048_576.0)
        } else {
            format!("{:.1} KiB", value as f64 / 1024.0)
        };
        assert_eq!(format_bytes(value), shown);
    }
}

#[test]
fn percentages_are_padded() {
    for value in [0.0, 5.25, 9.95, 42.0, 100.0, -1.5, f64::INFINITY, f64::NAN] {
        assert_eq!(format_percent(double(value)), format!("{value:>4.1}"));
    }
    assert_eq!(format_osd_set(&[1, -1]), "[1,-1]");
}

#[test]
fn verdicts_swap_with_the_waits() {
    assert_eq!(
        queue_recv_verdict(u64::MAX, u64::MAX),
        "queue is at least 2x recv; OSD queue delay likely"
    );
    assert_eq!(queue_recv_verdict(20_000, 10_000), "queue is at least 2x recv; OSD queue delay likely");
    assert_eq!(queue_recv_verdict(10_000, 20_000), "recv is at least 2x queue; network receive delay likely");
    assert_eq!(queue_recv_verdict(19_999, 10_000), "no clear queue/recv lead");
    assert_eq!(queue_recv_verdict(10_000, 19_999), "no clear queue/recv lead");
}
