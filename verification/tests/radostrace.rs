use cephlens::radostrace::{parse_rados_event, parse_rados_event_at, rados_pool_rows};

#[test]
fn parses_real_op_lines() {
    let write = parse_rados_event(
        "   15915   89499       8     2   2         [4,2,3]   W     4096     9023     bench_object7 [set-alloc-hint write][0, 4096]",
    )
    .expect("write line parses");
    assert_eq!(write.pool, "2");
    assert!(write.write);
    assert_eq!(write.latency_us, 9023);
    assert_eq!(write.pg, "2.2");
    assert_eq!(write.acting, vec![4, 2, 3]);
    assert_eq!(write.object, "bench_object7");
    assert_eq!(write.size_bytes, 4096);

    let read = parse_rados_event(
        "   4210   771   3   5   1e   [1,2,3]   R   4096   412   obj [read][0, 4096]",
    )
    .expect("read line parses");
    assert_eq!(read.pool, "5");
    assert!(!read.write);
    assert_eq!(read.latency_us, 412);
    assert_eq!(read.pg, "5.1e");
    assert_eq!(read.object, "obj", "reads name the object too");
    assert_eq!(read.size_bytes, 4096);
}

#[test]
fn ignores_setup_and_header_lines() {
    assert!(parse_rados_event("Found library librados.so.2 at: /snap/...").is_none());
    assert!(
        parse_rados_event(
            "     pid  client  tid  pool  pg  acting  WR  size  latency  object[ops]"
        )
        .is_none()
    );
    assert!(parse_rados_event("fill_map_hprobes: function Objecter::_send_op").is_none());
    assert!(parse_rados_event("").is_none());
}

#[test]
fn aggregates_pool_rows() {
    let events = vec![
        parse_rados_event("1 1 1 2 1 [1,2,3] W 4096 100 o [write][0,4096]").unwrap(),
        parse_rados_event("1 1 2 2 1 [1,2,3] W 4096 300 o [write][0,4096]").unwrap(),
        parse_rados_event("1 1 3 5 1 [1,2,3] R 4096 50 o [read][0,4096]").unwrap(),
    ];
    let rows = rados_pool_rows(&events);
    assert_eq!(rows[0].pool, "2");
    assert_eq!(rows[0].count, 2);
    assert_eq!(rows[0].avg_us, 200);
    assert_eq!(rows[0].max_us, 300);
    assert_eq!(rows[0].writes, 2);
    assert_eq!(rows[0].reads, 0);
    assert_eq!(rows[1].pool, "5");
    assert_eq!(rows[1].reads, 1);
}

#[test]
fn the_moment_of_the_call_is_kept() {
    let line = "1 1 1 2 1 [1,2,3] W 4096 100 o [write][0,4096]";
    let event = parse_rados_event_at(line, 1234).unwrap();
    assert_eq!(event.observed_at, 1234);
    // Any plausible clock lies after this moment in 2023.
    assert!(parse_rados_event(line).unwrap().observed_at > 1_700_000_000);
}

#[test]
fn lines_that_report_no_op_are_refused() {
    let refuse = |line: &str| assert!(parse_rados_event_at(line, 0).is_none(), "{line}");
    refuse("1 1 1 2 1 [1] W 4096 100");
    refuse("x 1 1 2 1 [1] W 4096 100 o");
    refuse("1 1 1 2 1 [1] X 4096 100 o");
    refuse("1 1 1 2 1 [1] W 4096 soon o");
    refuse("1 1 1 2 1 [1] W 4096 -5 o");
    refuse("1 1 1 2 1 [1] W 4096 18446744073709551616 o");
    let sized = parse_rados_event_at("1 1 1 2 1 [1] W big 100 o", 0).unwrap();
    assert_eq!(sized.size_bytes, 0);
}

#[test]
fn pool_rows_are_ordered_and_add_up() {
    let line = |pool: &str, kind: &str, latency: u64| {
        let text = format!("1 1 1 {pool} 1 [1] {kind} 4096 {latency} o [x]");
        parse_rados_event_at(&text, 0).unwrap()
    };
    let events = vec![
        line("9", "R", 50),
        line("3", "W", 10),
        line("3", "R", 31),
        line("7", "W", 50),
        line("5", "W", 60),
    ];
    let rows = rados_pool_rows(&events);
    let pools = rows.iter().map(|row| row.pool.as_str()).collect::<Vec<_>>();
    assert_eq!(pools, vec!["3", "5", "7", "9"]);
    assert_eq!(rows.iter().map(|row| row.count).sum::<u64>(), 5);
    for row in &rows {
        assert_eq!(row.writes + row.reads, row.count);
        assert!(row.avg_us <= row.max_us);
    }
    assert_eq!(rows[0].avg_us, 20);
    assert!(rados_pool_rows(&[]).is_empty());
}

#[test]
fn pool_latencies_stop_at_the_largest_number() {
    let text = format!("1 1 1 2 1 [1] W 4096 {} o [x]", u64::MAX);
    let event = parse_rados_event_at(&text, 0).unwrap();
    let rows = rados_pool_rows(&[event.clone(), event]);
    assert_eq!(rows[0].avg_us, u64::MAX / 2);
    assert_eq!(rows[0].max_us, u64::MAX);
}
