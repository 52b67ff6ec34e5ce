use cephlens::double::Double;
use cephlens::node::{
    collect_node, node_command, node_worker_panicked, parse_key_values, percent_texts, Percents,
};
use cephlens::stream::node_facts_snippet;

const FACTS: &str = "hostname=n\nsudo = ok \r\nceph_version=ceph=19\nnoise\ndeployment=rook\n\
                     ceph_osd_processes=3\nosd_ids=1,2\nosd_io_write_limits=osd.1: x\n\
                     cpu_percent=12.5\nmem_percent=soon\nhostname=last\n";

fn percents() -> Percents {
    let double = |value: f64| Double { bits: value.to_bits() };
    Percents { cpu: double(12.5), mem: double(0.0), io_stall: double(1.0), cpu_stall: double(2.0) }
}

#[test]
fn the_last_value_of_a_key_counts() {
    let map = parse_key_values(FACTS);
    assert_eq!(map.get("hostname").map(String::as_str), Some("last"));
    assert_eq!(map.get("sudo").map(String::as_str), Some("ok"));
    assert_eq!(map.get("ceph_version").map(String::as_str), Some("ceph=19"));
    assert!(map.get("noise").is_none());
}

#[test]
fn facts_fill_the_summary() {
    let node = collect_node("h", Ok(FACTS), percents());
    assert_eq!(node.host, "h");
    assert_eq!(node.hostname, "last");
    assert_eq!(node.sudo, "ok");
    assert_eq!(node.ceph_version, "ceph=19");
    assert_eq!(node.deployment, "rook");
    assert_eq!(node.ceph_osd_processes, 3);
    assert_eq!(node.osd_ids, "1,2");
    assert_eq!(node.osd_io_write_limits, "osd.1: x");
    assert_eq!(f64::from_bits(node.cpu_percent.bits), 12.5);
    assert_eq!(f64::from_bits(node.cpu_stall_percent.bits), 2.0);
    assert!(node.error.is_none());
    let node = collect_node("h", Ok("ceph_osd_processes=many"), percents());
    assert_eq!(node.ceph_osd_processes, 0);
    assert_eq!(node.hostname, "");
}

#[test]
fn hosts_that_fail_say_why() {
    let node = collect_node("h", Err("no route"), percents());
    assert_eq!(node.host, "h");
    assert_eq!(node.error.as_deref(), Some("no route"));
    assert_eq!(node.cpu_percent.bits, 0);
    let node = node_worker_panicked("h");
    assert_eq!(node.error.as_deref(), Some("node collection worker panicked"));
}

#[test]
fn shares_are_handed_out_as_written() {
    let texts = percent_texts(FACTS);
    assert_eq!(texts.cpu.as_deref(), Some("12.5"));
    assert_eq!(texts.mem.as_deref(), Some("soon"));
    assert!(texts.io_stall.is_none());
    assert!(texts.cpu_stall.is_none());
}

#[test]
fn the_script_prints_the_facts() {
    let command = node_command();
    assert!(command.starts_with(&format!("\n{}\nread _ user1 nice1", node_facts_snippet())));
    for line in command.lines().filter(|line| line.starts_with("printf '")) {
        let variable = line.rsplit('$').next().unwrap().trim_end_matches('"');
        assert!(command.contains(&format!("{variable}=")), "{line}");
    }
    assert!(command.contains("'BEGIN {if (total > 0) printf \"%.1f\", (total-idle)*100/total; else printf \"0.0\"}')\n"));
    assert!(command.ends_with("printf 'cpu_stall_percent=%s\\n' \"$cpu_stall\"\n"));
}
