//! Asks a host for its facts and reads the answer.

use crate::double::Double;
use crate::model;
use crate::model::{NodeSummary, NodeView};
use crate::stream;
use crate::text;
use vstd::hash_map::StringHashMap;
use vstd::prelude::*;

verus! {

// Samples the CPU twice and prints the facts, one `key=value` line each.
pub const NODE_FACTS_REPORT: &'static str = r#"
read _ user1 nice1 system1 idle1 iowait1 irq1 softirq1 steal1 _ _ < /proc/stat
sleep 0.2
read _ user2 nice2 system2 idle2 iowait2 irq2 softirq2 steal2 _ _ < /proc/stat
idle_a=$((idle1 + iowait1))
idle_b=$((idle2 + iowait2))
non_idle_a=$((user1 + nice1 + system1 + irq1 + softirq1 + steal1))
non_idle_b=$((user2 + nice2 + system2 + irq2 + softirq2 + steal2))
total_a=$((idle_a + non_idle_a))
total_b=$((idle_b + non_idle_b))
diff_total=$((total_b - total_a))
diff_idle=$((idle_b - idle_a))
cpu_pct=$(awk -v total="$diff_total" -v idle="$diff_idle" 'BEGIN {if (total > 0) printf "%.1f", (total-idle)*100/total; else printf "0.0"}')
printf 'hostname=%s\n' "$hostname"
printf 'sudo=%s\n' "$sudo_state"
printf 'ceph_version=%s\n' "$ceph_version"
printf 'deployment=%s\n' "$deployment"
printf 'ceph_osd_processes=%s\n' "$count"
printf 'osd_ids=%s\n' "$ids"
printf 'osd_io_write_limits=%s\n' "$io_limits"
printf 'cpu_percent=%s\n' "$cpu_pct"
printf 'mem_percent=%s\n' "$mem_pct"
printf 'io_stall_percent=%s\n' "$io_stall"
printf 'cpu_stall_percent=%s\n' "$cpu_stall"
"#;

/// The script that reports the facts of a host.
pub fn node_command() -> (out: String)
    ensures
        out@ == "\n"@ + stream::node_facts_text() + NODE_FACTS_REPORT@,
{
    let mut out = "\n".to_owned();
    out.append(stream::node_facts_snippet().as_str());
    out.append(NODE_FACTS_REPORT);
    out
}

/// The key and the value of a `key=value` line, without the white space round
/// them.
pub open spec fn key_value(line: Seq<char>) -> Option<(Seq<char>, Seq<char>)> {
    let at = text::first_at(line, '=');
    if at < line.len() {
        Some((text::trimmed(line.take(at)), text::trimmed(line.skip(at + 1))))
    } else {
        None
    }
}

/// The values by key; the last line with a key counts.
pub open spec fn key_values(lines: Seq<Seq<char>>) -> Map<Seq<char>, Seq<char>>
    decreases lines.len(),
{
    if lines.len() == 0 {
        Map::empty()
    } else {
        let head = key_values(lines.drop_last());
        match key_value(lines.last()) {
            Some((key, value)) => head.insert(key, value),
            None => head,
        }
    }
}

/// The `key=value` lines of an output, by key.
pub fn parse_key_values(output: &str) -> (map: StringHashMap<String>)
    ensures
        text::value_texts(map@) == key_values(text::lines_of(output@)),
{
    let lines = text::split_lines(output);
    let ghost all = text::texts(lines@);
    let mut map: StringHashMap<String> = StringHashMap::new();
    let mut i: usize = 0;
    assert(text::value_texts(map@) =~= Map::<Seq<char>, Seq<char>>::empty());
    while i < lines.len()
        invariant
            i <= lines@.len(),
            all == text::texts(lines@),
            text::value_texts(map@) == key_values(all.take(i as int)),
        decreases lines@.len() - i,
    {
        assert(all.take(i + 1).drop_last() =~= all.take(i as int));
        assert(all.take(i + 1).last() == lines@[i as int]@);
        let ghost before = map@;
        if let Some((key, value)) = text::split_first(lines[i].as_str(), '=') {
            let key = text::trim_text(key.as_str());
            let value = text::trim_text(value.as_str());
            let ghost (k, v) = (key@, value@);
            map.insert(key, value);
            assert(text::value_texts(map@) =~= text::value_texts(before).insert(k, v));
        }
        i = i + 1;
    }
    assert(all.take(all.len() as int) =~= all);
    map
}

/// The value of `key`; empty where there is none.
pub open spec fn value_of(map: Map<Seq<char>, Seq<char>>, key: Seq<char>) -> Seq<char> {
    if map.contains_key(key) {
        map[key]
    } else {
        Seq::empty()
    }
}

fn value(map: &StringHashMap<String>, key: &str) -> (out: String)
    ensures
        out@ == value_of(text::value_texts(map@), key@),
{
    match map.get(key) {
        Some(found) => found.clone(),
        None => String::new(),
    }
}

/// The shares that a host reports, as it wrote them.
#[derive(Clone, Debug)]
pub struct PercentTexts {
    pub cpu: Option<String>,
    pub mem: Option<String>,
    pub io_stall: Option<String>,
    pub cpu_stall: Option<String>,
}

/// The shares that a host reports, as numbers.
#[derive(Clone, Copy, Debug, PartialEq, Eq, Structural)]
pub struct Percents {
    pub cpu: Double,
    pub mem: Double,
    pub io_stall: Double,
    pub cpu_stall: Double,
}

/// `found` is the value that the map has for `key`, if it has one.
pub open spec fn finds(
    found: Option<String>,
    map: Map<Seq<char>, Seq<char>>,
    key: Seq<char>,
) -> bool {
    match found {
        Some(s) => map.contains_key(key) && s@ == map[key],
        None => !map.contains_key(key),
    }
}

fn find(map: &StringHashMap<String>, key: &str) -> (out: Option<String>)
    ensures
        finds(out, text::value_texts(map@), key@),
{
    match map.get(key) {
        Some(found) => Some(found.clone()),
        None => None,
    }
}

/// The shares that a host reports, as it wrote them.
pub fn percent_texts(output: &str) -> (out: PercentTexts)
    ensures
        ({
            let map = key_values(text::lines_of(output@));
            &&& finds(out.cpu, map, "cpu_percent"@)
            &&& finds(out.mem, map, "mem_percent"@)
            &&& finds(out.io_stall, map, "io_stall_percent"@)
            &&& finds(out.cpu_stall, map, "cpu_stall_percent"@)
        }),
{
    let map = parse_key_values(output);
    PercentTexts {
        cpu: find(&map, "cpu_percent"),
        mem: find(&map, "mem_percent"),
        io_stall: find(&map, "io_stall_percent"),
        cpu_stall: find(&map, "cpu_stall_percent"),
    }
}

/// What the facts of a host say.
pub open spec fn node_of(
    host: Seq<char>,
    map: Map<Seq<char>, Seq<char>>,
    percents: Percents,
) -> NodeView {
    NodeView {
        host,
        hostname: value_of(map, "hostname"@),
        sudo: value_of(map, "sudo"@),
        ceph_version: value_of(map, "ceph_version"@),
        deployment: value_of(map, "deployment"@),
        ceph_osd_processes: match text::written_u64(value_of(map, "ceph_osd_processes"@)) {
            Some(n) => n,
            None => 0,
        },
        osd_ids: value_of(map, "osd_ids"@),
        osd_io_write_limits: value_of(map, "osd_io_write_limits"@),
        cpu_percent: percents.cpu,
        mem_percent: percents.mem,
        io_stall_percent: percents.io_stall,
        cpu_stall_percent: percents.cpu_stall,
        error: None,
    }
}

/// A host that gave no facts, and why.
pub open spec fn failed_node(host: Seq<char>, error: Seq<char>) -> NodeView {
    NodeView { host, error: Some(error), ..model::no_node() }
}

/// The summary of a host: what its facts say, with the shares read from
/// [`percent_texts`], or the error that kept it from giving them.
pub fn collect_node(host: &str, outcome: Result<&str, &str>, percents: Percents) -> (node:
    NodeSummary)
    ensures
        node@ == match outcome {
            Ok(output) => node_of(host@, key_values(text::lines_of(output@)), percents),
            Err(error) => failed_node(host@, error@),
        },
{
    match outcome {
        Ok(output) => {
            let map = parse_key_values(output);
            let processes = value(&map, "ceph_osd_processes");
            NodeSummary {
                host: host.to_owned(),
                hostname: value(&map, "hostname"),
                sudo: value(&map, "sudo"),
                ceph_version: value(&map, "ceph_version"),
                deployment: value(&map, "deployment"),
                ceph_osd_processes: match text::parse_u64(processes.as_str()) {
                    Some(n) => n,
                    None => 0,
                },
                osd_ids: value(&map, "osd_ids"),
                osd_io_write_limits: value(&map, "osd_io_write_limits"),
                cpu_percent: percents.cpu,
                mem_percent: percents.mem,
                io_stall_percent: percents.io_stall,
                cpu_stall_percent: percents.cpu_stall,
                error: None,
            }
        },
        Err(error) => failed(host, error),
    }
}

fn failed(host: &str, error: &str) -> (node: NodeSummary)
    ensures
        node@ == failed_node(host@, error@),
{
    let mut node = NodeSummary::default();
    node.host = host.to_owned();
    node.error = Some(error.to_owned());
    node
}

/// The summary of a host whose worker died.
pub fn node_worker_panicked(host: &str) -> (node: NodeSummary)
    ensures
        node@ == failed_node(host@, "node collection worker panicked"@),
{
    failed(host, "node collection worker panicked")
}

/// A line splits at its first equals sign into a key and a value, without the white
/// space round them. A line without one gives none.
pub proof fn law_lines_split_at_the_first_equals_sign(key: Seq<char>, value: Seq<char>)
    requires
        !key.contains('='),
        key.len() > 0 ==> !text::is_space(key[0]) && !text::is_space(key.last()),
        value.len() > 0 ==> !text::is_space(value[0]) && !text::is_space(value.last()),
    ensures
        key_value(key + seq!['='] + value) == Some((key, value)),
        key_value(seq![' '] + key + seq![' ', '=', ' '] + value + seq![' ']) == Some((key, value)),
        key_value(key) is None,
{
    let none = Seq::<char>::empty();
    let tight = key + seq!['='] + value;
    text::lemma_first_at(tight, '=', key.len() as int);
    assert(tight.take(key.len() as int) =~= none + key + none);
    assert(tight.skip(key.len() as int + 1) =~= none + value + none);
    text::law_trimming_takes_white_space_off(none, key, none);
    text::law_trimming_takes_white_space_off(none, value, none);
    let wide = seq![' '] + key + seq![' ', '=', ' '] + value + seq![' '];
    let at = key.len() as int + 2;
    assert(text::is_space(' '));
    assert forall|i: int| 0 <= i < at implies wide[i] != '=' by {
        if 0 < i <= key.len() {
            assert(wide[i] == key[i - 1]);
        }
    }
    text::lemma_first_at(wide, '=', at);
    assert(wide.take(at) =~= seq![' '] + key + seq![' ']);
    assert(wide.skip(at + 1) =~= seq![' '] + value + seq![' ']);
    text::law_trimming_takes_white_space_off(seq![' '], key, seq![' ']);
    text::law_trimming_takes_white_space_off(seq![' '], value, seq![' ']);
    text::lemma_first_at(key, '=', key.len() as int);
}

/// The line gives a value for the key.
pub open spec fn gives(line: Seq<char>, key: Seq<char>) -> bool {
    match key_value(line) {
        Some((found, _)) => found == key,
        None => false,
    }
}

/// Of the lines that give a value for a key, the last one counts, and a key that no
/// line gives has none.
pub proof fn law_last_value_counts(lines: Seq<Seq<char>>, key: Seq<char>)
    ensures
        forall|i: int|
            0 <= i < lines.len() && gives(#[trigger] lines[i], key) && (forall|k: int|
                i < k < lines.len() ==> !gives(#[trigger] lines[k], key)) ==> key_values(
                lines,
            ).contains_key(key) && Some((key, key_values(lines)[key])) == key_value(lines[i]),
        (forall|k: int| 0 <= k < lines.len() ==> !gives(#[trigger] lines[k], key))
            ==> !key_values(lines).contains_key(key),
    decreases lines.len(),
{
    if lines.len() > 0 {
        let rest = lines.drop_last();
        let last = lines.len() - 1;
        assert(lines[last] == lines.last());
        law_last_value_counts(rest, key);
        assert forall|i: int|
            0 <= i < lines.len() && gives(#[trigger] lines[i], key) && (forall|k: int|
                i < k < lines.len() ==> !gives(#[trigger] lines[k], key)) implies key_values(
            lines,
        ).contains_key(key) && Some((key, key_values(lines)[key])) == key_value(lines[i]) by {
            if i < last {
                assert(!gives(lines[last], key));
                assert(rest[i] == lines[i]);
                assert forall|k: int| i < k < rest.len() implies !gives(#[trigger] rest[k], key) by {
                    assert(rest[k] == lines[k]);
                }
            }
        }
        if forall|k: int| 0 <= k < lines.len() ==> !gives(#[trigger] lines[k], key) {
            assert(!gives(lines[last], key));
            assert forall|k: int| 0 <= k < rest.len() implies !gives(#[trigger] rest[k], key) by {
                assert(rest[k] == lines[k]);
            }
        }
    }
}

/// `out` is the value of `key`, or empty where there is none.
pub open spec fn reports(out: Seq<char>, map: Map<Seq<char>, Seq<char>>, key: Seq<char>) -> bool {
    &&& map.contains_key(key) ==> out == map[key]
    &&& !map.contains_key(key) ==> out.len() == 0
}

/// A node says what its host reported, each fact under its own key, and no error.
/// The number of OSD processes is zero where none can be read.
pub proof fn law_node_says_what_its_host_reported(
    host: Seq<char>,
    map: Map<Seq<char>, Seq<char>>,
    percents: Percents,
)
    ensures
        ({
            let node = node_of(host, map, percents);
            let processes = "ceph_osd_processes"@;
            &&& node.host == host
            &&& reports(node.hostname, map, "hostname"@)
            &&& reports(node.sudo, map, "sudo"@)
            &&& reports(node.ceph_version, map, "ceph_version"@)
            &&& reports(node.deployment, map, "deployment"@)
            &&& reports(node.osd_ids, map, "osd_ids"@)
            &&& reports(node.osd_io_write_limits, map, "osd_io_write_limits"@)
            &&& map.contains_key(processes) && text::written_u64(map[processes]) is Some
                ==> node.ceph_osd_processes == text::written_u64(map[processes])->0
            &&& !map.contains_key(processes) || text::written_u64(map[processes]) is None
                ==> node.ceph_osd_processes == 0
            &&& node.cpu_percent == percents.cpu
            &&& node.mem_percent == percents.mem
            &&& node.io_stall_percent == percents.io_stall
            &&& node.cpu_stall_percent == percents.cpu_stall
            &&& node.error is None
        }),
{
}

/// A node that could not be asked says why, and nothing else but its host.
pub proof fn law_failed_node_says_only_why(host: Seq<char>, error: Seq<char>)
    ensures
        ({
            let node = failed_node(host, error);
            &&& node.host == host
            &&& node.error == Some(error)
            &&& node.hostname.len() == 0 && node.sudo.len() == 0 && node.ceph_version.len() == 0
            &&& node.deployment.len() == 0 && node.osd_ids.len() == 0
            &&& node.osd_io_write_limits.len() == 0
            &&& node.ceph_osd_processes == 0
            &&& node.cpu_percent.bits == 0 && node.mem_percent.bits == 0
            &&& node.io_stall_percent.bits == 0 && node.cpu_stall_percent.bits == 0
        }),
{
}

} // verus!
