use cephlens::flow::{
    build_flow_tree, flow_paths, flow_totals, format_acting, FlowMetric, FlowRow, FlowSort,
    FlowSource, FlowStats, FlowTree,
};
use cephlens::radostrace::{parse_acting, parse_rados_event, RadosEvent};
use cephlens::trace::{normalize_osd_name, TraceEvent};
use std::collections::HashMap;

fn rados(line: &str) -> RadosEvent {
    parse_rados_event(line).expect("fixture parses")
}

fn hosts() -> HashMap<i64, String> {
    HashMap::from([(1, "node-a".to_owned()), (4, "node-b".to_owned())])
}

fn osd_event(host: &str, osd: &str, pg: &str, op_lat_us: u64) -> TraceEvent {
    TraceEvent {
        host: host.to_owned(),
        osd: osd.to_owned(),
        pg: pg.to_owned(),
        op: "op_w".to_owned(),
        size_bytes: 4096,
        op_lat_us,
        throttle_lat_us: 0,
        recv_lat_us: 0,
        dispatch_lat_us: 0,
        queue_lat_us: 0,
        bluestore_lat_us: 0,
        kv_commit_us: 0,
        raw: String::new(),
    }
}

#[test]
fn rados_events_build_all_three_levels() {
    let events = vec![
        rados("1 1 1 2 1f [4,2,3] W 4096 900 obj-a [write][0,4096]"),
        rados("1 1 2 2 1f [4,2,3] W 4096 100 obj-b [write][0,4096]"),
        rados("1 1 3 2 0a [1,2,3] R 4096 50 obj-c [read][0,4096]"),
    ];

    let tree = build_flow_tree(
        &events,
        &[],
        &hosts(),
        FlowMetric::Ops,
        FlowSort::Descending,
        8,
        8,
    );

    assert_eq!(tree.source, FlowSource::Rados);
    let shape = tree
        .rows
        .iter()
        .map(|row| (row.depth, row.label.as_str()))
        .collect::<Vec<_>>();
    assert_eq!(
        shape,
        vec![
            (0, "osd.4"),
            (1, "2.1f"),
            (2, "obj-a"),
            (2, "obj-b"),
            (0, "osd.1"),
            (1, "2.0a"),
            (2, "obj-c"),
        ]
    );
    assert_eq!(tree.rows[0].detail, "node-b");
    assert_eq!(tree.rows[1].detail, "[4,2,3]");
    assert_eq!(tree.rows[0].stats.ops, 2);
    assert_eq!(tree.rows[0].stats.max_us, 900);
    assert_eq!(tree.rows[0].stats.avg_us(), 500);
}

#[test]
fn flow_paths_render_complete_directional_lanes() {
    let events = vec![
        rados("1 1 1 2 1f [4,2,3] W 4096 900 obj-a [write][0,4096]"),
        rados("1 1 2 2 1f [4,2,3] W 4096 100 obj-b [write][0,4096]"),
    ];
    let tree = build_flow_tree(
        &events,
        &[],
        &hosts(),
        FlowMetric::Latency,
        FlowSort::Descending,
        8,
        8,
    );

    let paths = flow_paths(&tree);

    assert_eq!(paths.len(), 2);
    assert_eq!(paths[0].osd, "osd.4");
    assert_eq!(paths[0].host, "node-b");
    assert_eq!(paths[0].pg, "2.1f");
    assert_eq!(paths[0].acting, "[4,2,3]");
    assert_eq!(paths[0].object.as_deref(), Some("obj-a"));
    assert_eq!(paths[0].stats.max_us, 900);
}

#[test]
fn latency_metric_outranks_op_count() {
    let events = vec![
        rados("1 1 1 2 01 [1,2,3] W 4096 10 busy [write][0,4096]"),
        rados("1 1 2 2 01 [1,2,3] W 4096 10 busy [write][0,4096]"),
        rados("1 1 3 2 02 [4,2,3] W 4096 9000 slow [write][0,4096]"),
    ];

    let by_ops = build_flow_tree(
        &events,
        &[],
        &hosts(),
        FlowMetric::Ops,
        FlowSort::Descending,
        8,
        8,
    );
    assert_eq!(by_ops.rows[0].label, "osd.1", "two ops beats one");

    let by_latency = build_flow_tree(
        &events,
        &[],
        &hosts(),
        FlowMetric::Latency,
        FlowSort::Descending,
        8,
        8,
    );
    assert_eq!(by_latency.rows[0].label, "osd.4", "9000us beats 10us");
}

#[test]
fn ascending_sort_reverses_the_ranking() {
    let events = vec![
        rados("1 1 1 2 01 [1,2,3] W 4096 10 a [write][0,4096]"),
        rados("1 1 2 2 01 [1,2,3] W 4096 10 a [write][0,4096]"),
        rados("1 1 3 2 02 [4,2,3] W 4096 10 b [write][0,4096]"),
    ];

    let tree = build_flow_tree(
        &events,
        &[],
        &hosts(),
        FlowMetric::Ops,
        FlowSort::Ascending,
        8,
        8,
    );

    assert_eq!(tree.rows[0].label, "osd.4", "the quieter OSD comes first");
}

#[test]
fn osdtrace_collapses_to_two_levels() {
    let events = vec![
        osd_event("node-a", "1", "2.1f", 400),
        osd_event("node-a", "1", "2.0a", 800),
    ];

    let tree = build_flow_tree(
        &[],
        &events,
        &HashMap::new(),
        FlowMetric::Latency,
        FlowSort::Descending,
        8,
        8,
    );

    assert_eq!(tree.source, FlowSource::Osd);
    assert!(
        tree.rows.iter().all(|row| row.depth < 2),
        "osdtrace lines carry no object name"
    );
    assert_eq!(tree.rows[0].label, "osd.1");
    assert_eq!(tree.rows[1].label, "2.0a", "800us outranks 400us");
}

#[test]
fn rados_wins_when_both_sources_have_data() {
    let rados_events = vec![rados("1 1 1 2 01 [1,2,3] W 4096 10 obj [write][0,4096]")];
    let trace_events = vec![osd_event("node-a", "9", "9.9", 99_999)];

    let tree = build_flow_tree(
        &rados_events,
        &trace_events,
        &hosts(),
        FlowMetric::Latency,
        FlowSort::Descending,
        8,
        8,
    );

    assert_eq!(tree.source, FlowSource::Rados);
    assert_eq!(tree.rows[0].label, "osd.1");
}

// A 4MiB op that takes 40ms and a 4KiB op that takes 40ms rank the same by
// latency, so the panel carries the size that tells them apart.
#[test]
fn average_op_size_travels_up_the_tree() {
    let events = vec![
        rados("1 1 1 2 04 [1,2,3] R 4194304 40000 big [read][0,4194304]"),
        rados("1 1 2 2 04 [1,2,3] R 4096 40000 small [read][0,4096]"),
    ];

    let tree = build_flow_tree(
        &events,
        &[],
        &hosts(),
        FlowMetric::Ops,
        FlowSort::Descending,
        8,
        8,
    );

    let by_label = |label: &str| {
        tree.rows
            .iter()
            .find(|row| row.label == label)
            .unwrap_or_else(|| panic!("{label} should be in the tree"))
    };
    assert_eq!(by_label("big").stats.avg_bytes(), 4_194_304);
    assert_eq!(by_label("small").stats.avg_bytes(), 4096);
    assert_eq!(
        by_label("2.04").stats.avg_bytes(),
        2_099_200,
        "the PG reports the mean of both ops"
    );
}

#[test]
fn no_events_report_an_empty_tree() {
    let tree = build_flow_tree(
        &[],
        &[],
        &HashMap::new(),
        FlowMetric::Ops,
        FlowSort::Descending,
        8,
        8,
    );

    assert_eq!(tree.source, FlowSource::Empty);
    assert!(tree.rows.is_empty());
}

#[test]
fn limits_apply_per_level() {
    let events = (0..12)
        .map(|index| {
            rados(&format!(
                "1 1 {index} 2 0{index} [1,2,3] W 4096 10 obj{index} [write][0,4096]"
            ))
        })
        .collect::<Vec<_>>();

    let tree = build_flow_tree(
        &events,
        &[],
        &hosts(),
        FlowMetric::Ops,
        FlowSort::Descending,
        8,
        3,
    );

    let pgs = tree.rows.iter().filter(|row| row.depth == 1).count();
    assert_eq!(pgs, 3, "the per level cap keeps the panel bounded");
}

#[test]
fn toggles_and_labels_name_both_sides() {
    assert_eq!(FlowMetric::Ops.label(), "ops");
    assert_eq!(FlowMetric::Latency.label(), "latency");
    assert_eq!(FlowSort::Descending.label(), "desc");
    assert_eq!(FlowSort::Ascending.label(), "asc");
    assert_eq!(FlowMetric::Ops.toggled(), FlowMetric::Latency);
    assert_eq!(FlowMetric::Ops.toggled().toggled(), FlowMetric::Ops);
    assert_eq!(FlowSort::Ascending.toggled(), FlowSort::Descending);
    assert_eq!(FlowSort::Ascending.toggled().toggled(), FlowSort::Ascending);
}

#[test]
fn stats_saturate_and_average() {
    let mut stats = FlowStats::default();
    assert_eq!(stats.avg_us(), 0);
    assert_eq!(stats.avg_bytes(), 0);
    stats.record(u64::MAX, 10);
    stats.record(5, 21);
    assert_eq!(stats.ops, 2);
    assert_eq!(stats.sum_us, u64::MAX);
    assert_eq!(stats.max_us, u64::MAX);
    assert_eq!(stats.avg_bytes(), 15);
    let mut other = FlowStats::default();
    other.record(7, 1);
    other.merge(&stats);
    assert_eq!(other.ops, 3);
    assert_eq!(other.sum_us, u64::MAX);
    assert_eq!(other.sum_bytes, 32);
    assert_eq!(other.key(FlowMetric::Ops), 3);
    assert_eq!(other.key(FlowMetric::Latency), u64::MAX);
}

#[test]
fn equal_ranks_fall_back_to_the_label() {
    let events = vec![
        rados("1 1 1 2 02 [4] W 4096 10 b [write][0,4096]"),
        rados("1 1 2 2 01 [1] W 4096 10 a [write][0,4096]"),
        rados("1 1 3 2 03 [10] W 4096 10 c [write][0,4096]"),
    ];
    for sort in [FlowSort::Ascending, FlowSort::Descending] {
        let tree = build_flow_tree(&events, &[], &hosts(), FlowMetric::Ops, sort, 8, 8);
        let osds = tree
            .rows
            .iter()
            .filter(|row| row.depth == 0)
            .map(|row| row.label.as_str())
            .collect::<Vec<_>>();
        assert_eq!(osds, vec!["osd.1", "osd.10", "osd.4"]);
    }
}

#[test]
fn ops_without_a_primary_or_a_place_are_left_out() {
    let events = vec![
        rados("1 1 1 2 02 [-1,2] W 4096 10 b [write][0,4096]"),
        rados("1 1 1 2 02 [] W 4096 10 b [write][0,4096]"),
    ];
    let tree = build_flow_tree(
        &events,
        &[osd_event("node-a", "9", "9.9", 1)],
        &hosts(),
        FlowMetric::Ops,
        FlowSort::Descending,
        8,
        8,
    );
    assert_eq!(tree.source, FlowSource::Empty);
    assert!(tree.rows.is_empty());

    let tree = build_flow_tree(
        &[],
        &[osd_event("node-a", "", "9.9", 1), osd_event("node-a", "9", "", 1)],
        &hosts(),
        FlowMetric::Ops,
        FlowSort::Descending,
        8,
        8,
    );
    assert_eq!(tree.source, FlowSource::Empty);
}

#[test]
fn the_last_op_gives_the_detail() {
    let events = vec![
        rados("1 1 1 2 02 [4,1] W 4096 10 b [write][0,4096]"),
        rados("1 1 1 2 02 [4,7] W 4096 10 b [write][0,4096]"),
        rados("1 1 1 2 03 [9] W 4096 10 b [write][0,4096]"),
    ];
    let tree = build_flow_tree(
        &events,
        &[],
        &hosts(),
        FlowMetric::Ops,
        FlowSort::Descending,
        8,
        8,
    );
    assert_eq!(tree.rows[0].detail, "node-b");
    assert_eq!(tree.rows[1].detail, "[4,7]");
    assert_eq!(tree.rows[2].detail, "", "objects carry no detail");
    assert_eq!(tree.rows[3].label, "osd.9");
    assert_eq!(tree.rows[3].detail, "", "the host of osd.9 is not known");
    assert!(!tree.rows[0].last_child);
    assert!(tree.rows[1].last_child);
    assert!(tree.rows[2].last_child);
    assert!(tree.rows[3].last_child);
}

#[test]
fn totals_cover_every_op_that_the_tree_shows() {
    let events = vec![
        rados("1 1 1 2 02 [4,1] W 4096 10 b [write][0,4096]"),
        rados("1 1 1 2 02 [1,7] W 1024 30 b [write][0,4096]"),
    ];
    let tree = build_flow_tree(
        &events,
        &[],
        &hosts(),
        FlowMetric::Ops,
        FlowSort::Descending,
        8,
        8,
    );
    let totals = flow_totals(&tree.rows);
    assert_eq!(totals.ops, 2);
    assert_eq!(totals.sum_us, 40);
    assert_eq!(totals.max_us, 30);
    assert_eq!(totals.sum_bytes, 5120);
    assert_eq!(flow_totals(&[]), FlowStats::default());
    for metric in [FlowMetric::Ops, FlowMetric::Latency] {
        for sort in [FlowSort::Ascending, FlowSort::Descending] {
            let other = build_flow_tree(&events, &[], &hosts(), metric, sort, 2, 0);
            assert_eq!(flow_totals(&other.rows), totals);
        }
    }
}

#[test]
fn paths_of_the_osd_source_end_at_the_pg() {
    let events = vec![osd_event("node-a", "osd.1", "2.1f", 400), osd_event("node-b", "2", "2.0a", 8)];
    let tree = build_flow_tree(
        &[],
        &events,
        &HashMap::new(),
        FlowMetric::Latency,
        FlowSort::Descending,
        8,
        8,
    );
    let paths = flow_paths(&tree);
    assert_eq!(paths.len(), 2);
    assert_eq!(paths[0].osd, "osd.1");
    assert_eq!(paths[0].host, "node-a");
    assert_eq!(paths[0].pg, "2.1f");
    assert_eq!(paths[0].acting, "");
    assert!(paths[0].object.is_none());
    assert_eq!(paths[1].osd, "osd.2");
}

#[test]
fn rows_without_a_parent_end_no_path() {
    let row = |depth: usize| FlowRow {
        depth,
        last_child: true,
        label: "x".to_owned(),
        detail: String::new(),
        stats: FlowStats::default(),
    };
    let stray = FlowTree { source: FlowSource::Rados, rows: vec![row(1), row(2), row(0), row(2)] };
    assert!(flow_paths(&stray).is_empty());
    let pgs = FlowTree { source: FlowSource::Osd, rows: vec![row(1), row(0), row(1), row(2)] };
    assert_eq!(flow_paths(&pgs).len(), 2);
}

#[test]
fn acting_sets_read_back() {
    for acting in [vec![], vec![4, 2, 3], vec![-1], vec![i64::MIN, 0, i64::MAX]] {
        assert_eq!(parse_acting(&format_acting(&acting)), acting);
    }
    assert_eq!(format_acting(&[]), "[]");
    assert_eq!(format_acting(&[4, -1]), "[4,-1]");
    assert_eq!(parse_acting("[ 4 , x, +2 ]"), vec![4, 2]);
    assert_eq!(parse_acting("[[7]]"), vec![7]);
}

#[test]
fn osd_names_get_their_prefix_once() {
    assert_eq!(normalize_osd_name("7"), "osd.7");
    assert_eq!(normalize_osd_name("osd.7"), "osd.7");
    assert_eq!(normalize_osd_name(""), "osd.");
}

#[test]
fn paths_name_the_rows_above_them() {
    let events = vec![
        rados("1 1 1 2 02 [4,1] W 4096 40 b [write][0,4096]"),
        rados("1 1 1 2 03 [4,7] W 4096 30 c [write][0,4096]"),
        rados("1 1 1 2 04 [1,9] W 4096 20 d [write][0,4096]"),
    ];
    let tree = build_flow_tree(
        &events,
        &[],
        &hosts(),
        FlowMetric::Latency,
        FlowSort::Descending,
        8,
        8,
    );
    let shown = flow_paths(&tree)
        .into_iter()
        .map(|path| (path.osd, path.host, path.pg, path.acting, path.object.unwrap()))
        .collect::<Vec<_>>();
    let path = |osd: &str, host: &str, pg: &str, acting: &str, object: &str| {
        (osd.to_owned(), host.to_owned(), pg.to_owned(), acting.to_owned(), object.to_owned())
    };
    assert_eq!(
        shown,
        vec![
            path("osd.4", "node-b", "2.02", "[4,1]", "b"),
            path("osd.4", "node-b", "2.03", "[4,7]", "c"),
            path("osd.1", "node-a", "2.04", "[1,9]", "d"),
        ]
    );
}
