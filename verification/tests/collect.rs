use cephlens::bench::{
    bench_command, bench_pool_name, bench_session, run_bench, run_probe, PROBE_COMMAND,
};
use cephlens::collect::{
    parse_abnormal_pgs, parse_cluster_summary, parse_osd_perf, parse_osds, parse_pools,
};
use cephlens::json::{parse_json, Json};

// Shapes taken from ceph 19.2.3 on a microceph cluster.
#[test]
fn cluster_summary_names_the_failing_health_checks() {
    let status: Json = parse_json(
        r#"{"health":{"status":"HEALTH_WARN","checks":{
             "OSD_NEARFULL":{"severity":"HEALTH_WARN","summary":{"message":"1 nearfull osd(s)"},
               "detail":[{"message":"osd.2 is near full at 85%"}]},
             "MON_CLOCK_SKEW":{"severity":"HEALTH_WARN","summary":{"message":"clock skew detected"}}}}}"#,
    )
    .unwrap();

    let cluster = parse_cluster_summary(&status, None);

    let codes = cluster
        .health_checks
        .iter()
        .map(|check| check.code.as_str())
        .collect::<Vec<_>>();
    assert_eq!(codes, vec!["MON_CLOCK_SKEW", "OSD_NEARFULL"]);
    assert_eq!(cluster.health_checks[1].message, "1 nearfull osd(s)");
    assert_eq!(
        cluster.health_checks[1].details,
        vec!["osd.2 is near full at 85%"]
    );
}

#[test]
fn healthy_cluster_reports_no_checks() {
    let status: Json =
        parse_json(r#"{"health":{"status":"HEALTH_OK","checks":{},"mutes":[]}}"#)
            .unwrap();

    assert!(
        parse_cluster_summary(&status, None)
            .health_checks
            .is_empty()
    );
}

#[test]
fn cluster_summary_reads_recovery_rate_and_capacity_thresholds() {
    let status: Json = parse_json(
        r#"{"pgmap":{"recovering_bytes_per_sec":1048576},"health":{"status":"HEALTH_OK"}}"#,
    )
    .unwrap();
    let osdmap: Json = parse_json(
        r#"{"nearfull_ratio":0.75,"backfillfull_ratio":0.8,"full_ratio":0.85}"#,
    )
    .unwrap();

    let cluster = parse_cluster_summary(&status, Some(&osdmap));

    assert_eq!(cluster.recovering_bytes_sec, 1_048_576);
    assert_eq!(f64::from_bits(cluster.nearfull_ratio.bits), 0.75);
    assert_eq!(f64::from_bits(cluster.backfillfull_ratio.bits), 0.8);
    assert_eq!(f64::from_bits(cluster.full_ratio.bits), 0.85);
}

#[test]
fn pools_include_crush_failure_domain_capacity() {
    let osdmap: Json = parse_json(
        r#"{"pools":[{"pool":2,"pool_name":"testpool","size":4,"min_size":2,"crush_rule":0}]}"#,
    )
    .unwrap();
    let crush: Json = parse_json(
        r#"[{"rule_id":0,"steps":[{"op":"take","item":-1},{"op":"chooseleaf_firstn","type":"host"},{"op":"emit"}]}]"#,
    )
    .unwrap();
    let tree: Json = parse_json(
        r#"{"nodes":[{"type":"root","name":"default"},{"type":"host","name":"node-1"},{"type":"host","name":"node-2"},{"type":"host","name":"node-3"}]}"#,
    )
    .unwrap();

    let pools = parse_pools(Some(&osdmap), Some(&crush), &tree);

    assert_eq!(pools.len(), 1);
    assert_eq!(pools[0].name, "testpool");
    assert_eq!(pools[0].size, 4);
    assert_eq!(pools[0].failure_domain, "host");
    assert_eq!(pools[0].available_domains, 3);
}

#[test]
fn abnormal_pgs_keep_state_and_osd_mappings() {
    let dump: Json = parse_json(
        r#"{"pg_stats":[
          {"pgid":"2.0","state":"active+clean","up":[0,1,2],"acting":[0,1,2]},
          {"pgid":"2.1","state":"active+clean+scrubbing+deep","up":[1,2,0],"acting":[1,2,0]},
          {"pgid":"2.2","state":"active+remapped+backfilling","up":[3,1,2],"acting":[0,1,2]}
        ]}"#,
    )
    .unwrap();

    let pgs = parse_abnormal_pgs(Some(&dump));

    assert_eq!(pgs.len(), 2);
    assert_eq!(pgs[0].id, "2.1");
    assert_eq!(pgs[0].acting, vec![1, 2, 0]);
    assert_eq!(pgs[1].up, vec![3, 1, 2]);
}

#[test]
fn osd_latency_is_merged_by_id_and_optional() {
    let tree: Json = parse_json(r#"{"nodes":[]}"#).unwrap();
    let df: Json =
        parse_json(r#"{"nodes":[{"id":1,"name":"osd.1"},{"id":2,"name":"osd.2"}]}"#)
            .unwrap();
    let perf: Json = parse_json(
        r#"{"osdstats":{"osd_perf_infos":[
             {"id":2,"perf_stats":{"commit_latency_ms":7,"apply_latency_ms":3}}]}}"#,
    )
    .unwrap();

    let merged = parse_osds(&tree, &df, Some(&perf));
    assert_eq!(merged[0].commit_latency_ms, 0, "osd.1 has no perf entry");
    assert_eq!(merged[1].commit_latency_ms, 7);
    assert_eq!(merged[1].apply_latency_ms, 3);

    // A cluster that refuses `ceph osd perf` still gets its OSD rows.
    let without = parse_osds(&tree, &df, None);
    assert_eq!(without.len(), 2);
    assert_eq!(without[1].commit_latency_ms, 0);
}

#[test]
fn bench_command_cleans_up_unique_pool_on_exit() {
    let pool = bench_pool_name("20260716-120000", 42);
    let command = bench_command(&pool, 5, false);

    assert_eq!(pool, "cephlens-test-20260716-120000-42");
    assert!(command.contains("pool='cephlens-test-20260716-120000-42'"));
    assert!(command.contains("trap cleanup INT TERM HUP EXIT"));
    assert!(command.contains("cephlens bench pool=$pool"));
    assert!(command.contains("rados -p \"$pool\" cleanup"));
    assert!(
        command
            .contains("ceph osd pool delete \"$pool\" \"$pool\" --yes-i-really-really-mean-it")
    );
}

#[test]
fn bench_command_can_retain_pool() {
    let command = bench_command("cephlens-test-20260716-120000-42", 5, true);

    assert!(command.contains("keep_pool=yes"));
}

fn json(text: &str) -> Json {
    parse_json(text).unwrap()
}

#[test]
fn cluster_summary_reads_every_field() {
    let status = json(
        r#"{"fsid":"f-1","health":{"status":"HEALTH_OK"},"quorum_names":["a",7,"b"],
            "monmap":{"num_mons":3},"mgrmap":{"available":true,"num_standbys":2},
            "osdmap":{"num_osds":6,"num_up_osds":5,"num_in_osds":4},
            "pgmap":{"num_pools":1,"num_pgs":33,"num_objects":9,"bytes_used":10,"bytes_total":20,
              "read_bytes_sec":1,"write_bytes_sec":2,"read_op_per_sec":3,"write_op_per_sec":4,
              "pgs_by_state":[{"state_name":"active+clean","count":32},{"state_name":"peering","count":1}]}}"#,
    );
    let cluster = parse_cluster_summary(&status, None);
    assert_eq!(cluster.fsid, "f-1");
    assert_eq!(cluster.health, "HEALTH_OK");
    assert_eq!(cluster.quorum, vec!["a", "b"]);
    assert_eq!(cluster.mon_count, 3);
    assert!(cluster.mgr_available);
    assert_eq!(cluster.mgr_standbys, 2);
    assert_eq!((cluster.osds_total, cluster.osds_up, cluster.osds_in), (6, 5, 4));
    assert_eq!((cluster.pools, cluster.pgs, cluster.objects), (1, 33, 9));
    assert_eq!((cluster.bytes_used, cluster.bytes_total), (10, 20));
    assert_eq!((cluster.read_bytes_sec, cluster.write_bytes_sec), (1, 2));
    assert_eq!((cluster.read_ops_sec, cluster.write_ops_sec), (3, 4));
    assert_eq!(cluster.pg_states, "32 active+clean, 1 peering");
    assert_eq!(cluster.full_ratio.bits, 0);
}

#[test]
fn an_empty_status_gives_an_empty_summary() {
    let cluster = parse_cluster_summary(&json("[]"), Some(&json("null")));
    assert_eq!(cluster.fsid, "");
    assert!(cluster.quorum.is_empty());
    assert!(!cluster.mgr_available);
    assert_eq!(cluster.pg_states, "");
    assert!(cluster.health_checks.is_empty());
}

#[test]
fn osds_take_host_and_status_from_the_tree() {
    let tree = json(
        r#"{"nodes":[{"type":"host","name":"node-a","children":[2,"x",1]},
             {"type":"osd","id":2,"status":"down"},{"type":"host","name":"node-b","children":[1]}]}"#,
    );
    let df = json(
        r#"{"nodes":[{"id":2,"name":"osd.2","status":"up","reweight":0.5,"utilization":12.25,"pgs":7,"kb_used":8,"kb_avail":9},
             {"id":1,"name":"osd.1","status":"up"}]}"#,
    );
    let osds = parse_osds(&tree, &df, None);
    assert_eq!(osds[0].name, "osd.1", "ordered by id");
    assert_eq!(osds[0].host, "node-b", "the last host that names it counts");
    assert_eq!(osds[0].status, "up", "the df row speaks where the tree does not");
    assert_eq!(osds[1].host, "node-a");
    assert_eq!(osds[1].status, "down");
    assert_eq!(f64::from_bits(osds[1].reweight.bits), 0.5);
    assert_eq!(f64::from_bits(osds[1].utilization.bits), 12.25);
    assert_eq!((osds[1].pgs, osds[1].used_kb, osds[1].avail_kb), (7, 8, 9));
}

#[test]
fn perf_entries_are_keyed_by_osd() {
    let perf = json(
        r#"{"osdstats":{"osd_perf_infos":[
             {"id":2,"perf_stats":{"commit_latency_ms":7,"apply_latency_ms":3}},
             {"id":2,"perf_stats":{"commit_latency_ms":8}}]}}"#,
    );
    let by_osd = parse_osd_perf(Some(&perf));
    assert_eq!(by_osd.len(), 1);
    assert_eq!(by_osd[&2], (8, 0), "the last entry counts");
    assert!(parse_osd_perf(None).is_empty());
}

#[test]
fn pools_without_a_domain_have_none_available() {
    let osdmap = json(
        r#"{"pools":[{"pool":9,"pool_name":"b","crush_rule":7},{"pool":1,"pool_name":"a","crush_rule":1}]}"#,
    );
    let crush = json(
        r#"[{"rule_id":1,"steps":[{"op":"chooseleaf_indep","type":"rack"},{"op":"chooseleaf_firstn","type":"host"}]},
            {"rule_id":7,"steps":[{"op":"take"}]},{"rule_id":7}]"#,
    );
    let tree = json(r#"{"nodes":[{"type":""},{"type":"host"},{"type":"rack"}]}"#);
    let pools = parse_pools(Some(&osdmap), Some(&crush), &tree);
    assert_eq!(pools[0].name, "a");
    assert_eq!(pools[0].failure_domain, "rack", "the first such step counts");
    assert_eq!(pools[0].available_domains, 1);
    assert_eq!(pools[1].failure_domain, "");
    assert_eq!(pools[1].available_domains, 0);
    assert!(parse_pools(None, Some(&crush), &tree).is_empty());
}

#[test]
fn abnormal_pgs_are_ordered_by_id() {
    let dump = json(
        r#"{"pg_stats":[{"pgid":"2.b","state":"down"},{"pgid":"2.a","up":[1,"x",-2]},{"pgid":"2.0","state":"active+clean"}]}"#,
    );
    let pgs = parse_abnormal_pgs(Some(&dump));
    assert_eq!(pgs.len(), 2);
    assert_eq!(pgs[0].id, "2.a");
    assert_eq!(pgs[0].up, vec![1, -2]);
    assert!(pgs[0].acting.is_empty());
    assert!(parse_abnormal_pgs(None).is_empty());
}

#[test]
fn bench_script_is_written_out() {
    let command = bench_command("it's", 7, false);
    assert!(command.starts_with("\nset -eu\npool='it'\\''s'\nkeep_pool=no\npool_created=no\ncleanup() {\n"));
    assert!(command.ends_with("\nsudo -n rados -p \"$pool\" bench 7 write -b 4096 -t 4 --no-cleanup\n"));
}

#[test]
fn bench_sessions_are_named_by_the_caller_or_the_clock() {
    assert_eq!(bench_session(Some("s"), Some(5)), "s");
    assert_eq!(bench_session(None, Some(-5)), "-5");
    assert_eq!(bench_session(None, None), "0");
    assert_eq!(run_bench(3, Some("s"), true, 9), bench_command("cephlens-test-s-9", 3, true));
    let clocked = run_bench(3, None, true, 9);
    let start = clocked.find("cephlens-test-").unwrap() + "cephlens-test-".len();
    let nanos = clocked[start..].split('-').next().unwrap().parse::<i64>().unwrap();
    // Any plausible clock lies after this moment in 2023.
    assert!(nanos > 1_700_000_000_000_000_000);
}

#[test]
fn pool_names_of_different_sessions_differ() {
    assert_ne!(bench_pool_name("a-1", 2), bench_pool_name("a", 12));
    assert_ne!(bench_pool_name("a", 1), bench_pool_name("a", 11));
}

#[test]
fn probe_report_lists_hosts_in_order() {
    let probes = vec![
        ("node-a".to_owned(), Ok("kernel=6".to_owned())),
        ("node-b".to_owned(), Err("no route".to_owned())),
    ];
    assert_eq!(run_probe(&probes), "probe node-a: ok\nkernel=6\nprobe node-b: no route\n");
    assert_eq!(run_probe(&[]), "");
    assert!(PROBE_COMMAND.starts_with("\nprintf '--- %s ---\\n' \"$(hostname)\"\n"));
}
