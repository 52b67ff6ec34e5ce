//! The scripts that stream cluster and node status, and what a node sends back.

use crate::collect_value_laws;
use crate::double::Double;
use crate::json;
use crate::json::{Json, JsonTree};
use crate::model::{NodeSummary, NodeView};
use crate::text;
use crate::util::{ptr_f64, ptr_str, ptr_u64};
use vstd::prelude::*;

verus! {

// Scratch space for one stream's admin query results. It follows the runner
// convention of living under ~/.cache/cephlens and is removed when the remote
// shell exits, which happens as soon as the controller closes the connection.
pub const CLUSTER_STREAM_SETUP: &'static str = r#"dir="$HOME/.cache/cephlens/status-$$"
mkdir -p "$dir"
for stale in "$HOME"/.cache/cephlens/status-*; do
  [ -d "$stale" ] || continue
  pid=${stale##*status-}
  case "$pid" in ''|*[!0-9]*) continue ;; esac
  [ "$pid" = "$$" ] || kill -0 "$pid" 2>/dev/null || rm -rf "$stale"
done
cleanup() { rm -rf "$dir"; }
trap 'cleanup; exit 0' INT TERM HUP PIPE
trap cleanup EXIT"#;

// The three admin queries run at once. In sequence a tick cost their sum, which
// pushed the real refresh period well past the configured interval. Each
// redirect truncates its file before the query runs, so a failed query leaves an
// empty file rather than the previous tick's value.
pub const CLUSTER_STREAM_TICK: &'static str = r#"  sudo -n ceph -s --format json >"$dir/status" 2>/dev/null &
  sudo -n ceph osd tree --format json >"$dir/tree" 2>/dev/null &
  sudo -n ceph osd df --format json >"$dir/df" 2>/dev/null &
  wait
  status=$(tr -d '\n' <"$dir/status")
  tree=$(tr -d '\n' <"$dir/tree")
  df=$(tr -d '\n' <"$dir/df")
  if [ -n "$status" ] && [ -n "$tree" ] && [ -n "$df" ]; then
    printf '{"type":"status","status":%s,"tree":%s,"df":%s}\n' "$status" "$tree" "$df"
  else
    printf '{"type":"error","message":"ceph command failed"}\n'
  fi"#;

// Shared node facts collection: sets hostname, sudo_state, ceph_version,
// deployment, count, ids, and mem_pct shell variables. Used by both the
// one-shot probe and the streaming loop below.
pub const NODE_FACTS_SNIPPET: &'static str = r#"hostname=$(hostname)
if sudo -n true 2>/dev/null; then sudo_state=ok; else sudo_state=needs_password; fi
ceph_version=$(ceph --version 2>/dev/null | head -1)
if [ -z "$ceph_version" ]; then ceph_version=missing; fi
deployment=generic
micro=$(snap list microceph 2>/dev/null | awk 'NR==2 {print $2" "$4" "$6; found=1}')
if [ -n "$micro" ]; then
  deployment="microceph $micro"
elif command -v cephadm >/dev/null 2>&1; then
  deployment=cephadm
elif [ -d /var/lib/rook ]; then
  deployment=rook
fi
# pgrep -c prints 0 and exits 1 when nothing matches, so `|| echo 0` would
# append a second line and break the JSON payload below.
count=$(pgrep -c '[c]eph-osd' 2>/dev/null || true)
count=${count:-0}
ids=$(pgrep -af '[c]eph-osd --cluster ceph' 2>/dev/null | sed -n 's/.*--id \([0-9][0-9]*\).*/\1/p' | paste -sd, -)
mem_pct=$(awk '/MemTotal:/ {total=$2} /MemAvailable:/ {avail=$2} END {if (total > 0) printf "%.1f", (total-avail)*100/total; else printf "0.0"}' /proc/meminfo)"#;

// Sets io_stall and cpu_stall, the shares of the last 10s in which at least one
// task waited for IO or for a CPU, and io_limits, the write limits that the control
// group of an OSD sets on its block devices. A kernel without pressure information
// reports 0.0, and an OSD without a limit is not listed.
pub const NODE_PRESSURE_SNIPPET: &'static str = r#"io_stall=$(sed -n 's/^some avg10=\([0-9.]*\).*/\1/p' /proc/pressure/io 2>/dev/null)
io_stall=${io_stall:-0.0}
cpu_stall=$(sed -n 's/^some avg10=\([0-9.]*\).*/\1/p' /proc/pressure/cpu 2>/dev/null)
cpu_stall=${cpu_stall:-0.0}
io_limits=$(
  for pid in $(pgrep '[c]eph-osd' 2>/dev/null); do
    osd=$(tr '\0' ' ' 2>/dev/null <"/proc/$pid/cmdline" | sed -n 's/.*--id \([0-9][0-9]*\).*/\1/p')
    group=$(sed -n 's/^0:://p' "/proc/$pid/cgroup" 2>/dev/null)
    [ -n "$osd" ] && [ -r "/sys/fs/cgroup$group/io.max" ] || continue
    while read -r device limits; do
      bytes=$(printf '%s\n' "$limits" | sed -n 's/.*wbps=\([0-9][0-9]*\).*/\1/p')
      [ -n "$bytes" ] || continue
      name=$(sed -n 's/^DEVNAME=//p' "/sys/dev/block/$device/uevent" 2>/dev/null)
      printf 'osd.%s: /dev/%s %s\n' "$osd" "${name:-block/$device}" "$bytes"
    done <"/sys/fs/cgroup$group/io.max"
  done | paste -sd, -
)"#;

// What the node loop does once the facts are there: the share of the time since
// the last round in which the CPU was busy, and one line of JSON.
pub const NODE_STREAM_TICK: &'static str = r#"
  read _ user nice system idle iowait irq softirq steal _ _ < /proc/stat
  idle_all=$((idle + iowait))
  non_idle=$((user + nice + system + irq + softirq + steal))
  total=$((idle_all + non_idle))
  if [ "$prev_total" -gt 0 ]; then
    diff_total=$((total - prev_total))
    diff_idle=$((idle_all - prev_idle))
    if [ "$diff_total" -gt 0 ]; then
      cpu_pct=$(awk -v total="$diff_total" -v idle="$diff_idle" 'BEGIN { printf "%.1f", (total-idle)*100/total }')
    else
      cpu_pct=0.0
    fi
  else
    cpu_pct=0.0
  fi
  prev_total=$total
  prev_idle=$idle_all
  printf '{"type":"node","hostname":"%s","sudo":"%s","ceph_version":"%s","deployment":"%s","ceph_osd_processes":%s,"osd_ids":"%s","cpu_percent":%s,"mem_percent":%s}\n' "$hostname" "$sudo_state" "$ceph_version" "$deployment" "$count" "$ids" "$cpu_pct" "$mem_pct"
  sleep "#;

/// The loop that queries the cluster every `interval_secs` seconds.
pub open spec fn cluster_stream_text(interval_secs: u64) -> Seq<char> {
    "\n"@ + CLUSTER_STREAM_SETUP@ + "\nwhile true; do\n"@ + CLUSTER_STREAM_TICK@ + "\n  sleep "@
        + text::decimal(interval_secs as nat) + "\ndone\n"@
}

/// The loop that queries the cluster every `interval_secs` seconds.
pub fn cluster_stream_command(interval_secs: u64) -> (out: String)
    ensures
        out@ == cluster_stream_text(interval_secs),
{
    let mut out = "\n".to_owned();
    out.append(CLUSTER_STREAM_SETUP);
    out.append("\nwhile true; do\n");
    out.append(CLUSTER_STREAM_TICK);
    out.append("\n  sleep ");
    out.append(text::u64_text(interval_secs).as_str());
    out.append("\ndone\n");
    out
}

/// The node facts collection together with the pressure facts.
pub open spec fn node_facts_text() -> Seq<char> {
    NODE_FACTS_SNIPPET@ + "\n"@ + NODE_PRESSURE_SNIPPET@
}

/// The node facts collection together with the pressure facts, for scripts that
/// print the facts themselves.
pub fn node_facts_snippet() -> (out: String)
    ensures
        out@ == node_facts_text(),
{
    let mut out = NODE_FACTS_SNIPPET.to_owned();
    out.append("\n");
    out.append(NODE_PRESSURE_SNIPPET);
    out
}

/// The loop that reports a node every `interval_secs` seconds.
pub open spec fn node_stream_text(interval_secs: u64) -> Seq<char> {
    "\nprev_total=0\nprev_idle=0\nwhile true; do\n"@ + NODE_FACTS_SNIPPET@ + NODE_STREAM_TICK@
        + text::decimal(interval_secs as nat) + "\ndone\n"@
}

/// The loop that reports a node every `interval_secs` seconds.
pub fn node_stream_command(interval_secs: u64) -> (out: String)
    ensures
        out@ == node_stream_text(interval_secs),
{
    let mut out = "\nprev_total=0\nprev_idle=0\nwhile true; do\n".to_owned();
    out.append(NODE_FACTS_SNIPPET);
    out.append(NODE_STREAM_TICK);
    out.append(text::u64_text(interval_secs).as_str());
    out.append("\ndone\n");
    out
}

/// The text at `path`, where there is one.
pub open spec fn some_text_at(tree: JsonTree, path: Seq<char>) -> Option<Seq<char>> {
    match json::tree_at(tree, path) {
        Some(found) => json::text_in(found),
        None => None,
    }
}

/// What a node says in its stream, or the error that it reports.
pub open spec fn node_report(host: Seq<char>, report: JsonTree) -> Result<NodeView, Seq<char>> {
    if some_text_at(report, "/type"@) == Some("error"@) {
        Err(
            match some_text_at(report, "/message"@) {
                Some(message) => message,
                None => "remote node probe failed"@,
            },
        )
    } else {
        Ok(
            NodeView {
                host,
                hostname: json::text_at(report, "/hostname"@),
                sudo: json::text_at(report, "/sudo"@),
                ceph_version: json::text_at(report, "/ceph_version"@),
                deployment: json::text_at(report, "/deployment"@),
                ceph_osd_processes: json::u64_at(report, "/ceph_osd_processes"@),
                osd_ids: json::text_at(report, "/osd_ids"@),
                osd_io_write_limits: Seq::empty(),
                cpu_percent: json::double_at(report, "/cpu_percent"@),
                mem_percent: json::double_at(report, "/mem_percent"@),
                io_stall_percent: Double { bits: 0 },
                cpu_stall_percent: Double { bits: 0 },
                error: None,
            },
        )
    }
}

/// Why a line of a node stream gave no summary.
#[derive(Clone, Debug)]
pub enum PayloadError {
    /// The line is no JSON; the reason that the parser gave.
    Invalid(String),
    /// The node reported an error.
    Remote(String),
}

impl PayloadError {
    /// The error as the operator sees it.
    pub open spec fn shown(self, host: Seq<char>) -> Seq<char> {
        match self {
            PayloadError::Invalid(reason) => "invalid node stream payload from "@ + host + ": "@
                + reason@,
            PayloadError::Remote(message) => message@,
        }
    }

    /// The error as the operator sees it.
    pub fn text(&self, host: &str) -> (out: String)
        ensures
            out@ == self.shown(host@),
    {
        match self {
            PayloadError::Invalid(reason) => {
                let mut out = "invalid node stream payload from ".to_owned();
                out.append(host);
                out.append(": ");
                out.append(reason.as_str());
                out
            },
            PayloadError::Remote(message) => message.clone(),
        }
    }
}

fn some_text<'a>(value: &'a Json, path: &str) -> (found: Option<&'a str>)
    ensures
        match found {
            Some(s) => some_text_at(value.tree(), path@) == Some(s@),
            None => some_text_at(value.tree(), path@) is None,
        },
{
    match value.pointer(path) {
        Some(found) => found.as_str(),
        None => None,
    }
}

/// The summary that a line of a node stream carries, or the error that it
/// reports.
pub fn read_node_report(host: &str, report: &Json) -> (result: Result<NodeSummary, String>)
    ensures
        match result {
            Ok(node) => node_report(host@, report.tree()) == Ok::<NodeView, Seq<char>>(node@),
            Err(message) => node_report(host@, report.tree()) == Err::<NodeView, Seq<char>>(
                message@,
            ),
        },
{
    if let Some(kind) = some_text(report, "/type") {
        if text::same_text(kind, "error") {
            return match some_text(report, "/message") {
                Some(message) => Err(message.to_owned()),
                None => Err("remote node probe failed".to_owned()),
            };
        }
    }
    let node = NodeSummary {
        host: host.to_owned(),
        hostname: ptr_str(report, "/hostname"),
        sudo: ptr_str(report, "/sudo"),
        ceph_version: ptr_str(report, "/ceph_version"),
        deployment: ptr_str(report, "/deployment"),
        ceph_osd_processes: ptr_u64(report, "/ceph_osd_processes"),
        osd_ids: ptr_str(report, "/osd_ids"),
        osd_io_write_limits: String::new(),
        cpu_percent: ptr_f64(report, "/cpu_percent"),
        mem_percent: ptr_f64(report, "/mem_percent"),
        io_stall_percent: Double { bits: 0 },
        cpu_stall_percent: Double { bits: 0 },
        error: None,
    };
    Ok(node)
}

/// The summary that a line of a node stream carries.
pub fn parse_node_stream_payload(host: &str, payload: &str) -> (result: Result<
    NodeSummary,
    PayloadError,
>)
    ensures
        match json::json_read(payload@) {
            Ok(report) => match node_report(host@, report) {
                Ok(node) => result is Ok && result->Ok_0@ == node,
                Err(message) => result is Err && result->Err_0 is Remote && result->Err_0->Remote_0@
                    == message,
            },
            Err(reason) => result is Err && result->Err_0 is Invalid && result->Err_0->Invalid_0@
                == reason,
        },
{
    match json::parse_json(payload) {
        Ok(report) => match read_node_report(host, &report) {
            Ok(node) => Ok(node),
            Err(message) => Err(PayloadError::Remote(message)),
        },
        Err(reason) => Err(PayloadError::Invalid(reason)),
    }
}

/// A node report is a failure exactly where its type is `error`, and then gives the
/// message that it holds, or a general one.
pub proof fn law_error_reports_are_failures(host: Seq<char>, report: JsonTree)
    ensures
        ({
            let marked = json::tree_at(report, "/type"@) == Some(JsonTree::Str("error"@));
            let read = node_report(host, report);
            &&& read is Err <==> marked
            &&& marked ==> match json::tree_at(report, "/message"@) {
                Some(JsonTree::Str(message)) => read->Err_0 == message,
                _ => read->Err_0 == "remote node probe failed"@,
            }
        }),
{
}

/// A node says what its report says, each fact under its own name. A report of the
/// stream tells nothing of write limits and stalls.
pub proof fn law_node_says_what_its_report_says(host: Seq<char>, report: JsonTree)
    requires
        json::tree_at(report, "/type"@) != Some(JsonTree::Str("error"@)),
    ensures
        node_report(host, report) is Ok,
        ({
            let node = node_report(host, report)->Ok_0;
            &&& node.host == host
            &&& node.error is None
            &&& collect_value_laws::tells(node.hostname, report, "/hostname"@)
            &&& collect_value_laws::tells(node.sudo, report, "/sudo"@)
            &&& collect_value_laws::tells(node.ceph_version, report, "/ceph_version"@)
            &&& collect_value_laws::tells(node.deployment, report, "/deployment"@)
            &&& collect_value_laws::tells(node.osd_ids, report, "/osd_ids"@)
            &&& collect_value_laws::counts(
                node.ceph_osd_processes,
                report,
                "/ceph_osd_processes"@,
            )
            &&& collect_value_laws::measures(node.cpu_percent, report, "/cpu_percent"@)
            &&& collect_value_laws::measures(node.mem_percent, report, "/mem_percent"@)
            &&& node.osd_io_write_limits.len() == 0
            &&& node.io_stall_percent.bits == 0
            &&& node.cpu_stall_percent.bits == 0
        }),
{
}

/// The streams repeat after as many seconds as were asked for.
pub proof fn law_streams_sleep_for_the_interval(interval_secs: u64)
    ensures
        ({
            let end = "\n  sleep "@ + text::decimal(interval_secs as nat) + "\ndone\n"@;
            let script = cluster_stream_text(interval_secs);
            &&& end.len() <= script.len()
            &&& script.skip(script.len() - end.len()) == end
        }),
        ({
            let end = text::decimal(interval_secs as nat) + "\ndone\n"@;
            let script = node_stream_text(interval_secs);
            &&& end.len() <= script.len()
            &&& script.skip(script.len() - end.len()) == end
        }),
{
    let end = "\n  sleep "@ + text::decimal(interval_secs as nat) + "\ndone\n"@;
    let script = cluster_stream_text(interval_secs);
    assert(script.skip(script.len() - end.len()) =~= end);
    let end = text::decimal(interval_secs as nat) + "\ndone\n"@;
    let script = node_stream_text(interval_secs);
    assert(script.skip(script.len() - end.len()) =~= end);
}

} // verus!
