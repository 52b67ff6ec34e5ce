//! Turns what was collected and traced into insights for the operator.

use crate::double;
use crate::double::Double;
use crate::flow;
use crate::flow::format_acting;
use crate::model::{HealthCheck, NodeSummary, NodeTable, OsdSummary, PgSummary, PoolSummary, Snapshot};
use crate::order;
use crate::radostrace;
use crate::radostrace::{rados_pool_rows, RadosEvent, RadosEventView, RadosPoolRow, RadosPoolRowView};
use crate::tally;
use crate::text;
use crate::trace::{KfsOpRow, TraceEvent, TraceGraphRow};
use crate::util;
use crate::util::short;
use vstd::prelude::*;

verus! {

#[derive(Clone, Copy, Debug, PartialEq, Eq, Structural)]
pub enum InsightLevel {
    Okay,
    Info,
    Warn,
    Bad,
}

#[derive(Clone, Debug, PartialEq, Eq)]
pub struct Insight {
    pub level: InsightLevel,
    pub text: String,
}

/// What an [`Insight`] says.
pub struct InsightView {
    pub level: InsightLevel,
    pub text: Seq<char>,
}

impl View for Insight {
    type V = InsightView;

    open spec fn view(&self) -> InsightView {
        InsightView { level: self.level, text: self.text@ }
    }
}

/// What the insights say.
pub open spec fn insight_views(insights: Seq<Insight>) -> Seq<InsightView> {
    insights.map_values(|i: Insight| i@)
}

/// The bits of 5.0: a host that stalls this share of the time is named.
pub const STALL_PERCENT: u64 = 0x4014_0000_0000_0000;

/// The bits of 20.0: a host that stalls this share of the time is bad.
pub const BAD_STALL_PERCENT: u64 = 0x4034_0000_0000_0000;

/// The bits of 85.0: a host that uses this share is under pressure.
pub const BUSY_PERCENT: u64 = 0x4055_4000_0000_0000;

/// The share `x` is at least the one with the bits `limit`.
pub open spec fn reaches(x: Double, limit: u64) -> bool {
    double::at_least(x, Double { bits: limit })
}

/// One insight.
pub open spec fn one(level: InsightLevel, text: Seq<char>) -> Seq<InsightView> {
    seq![InsightView { level, text }]
}

pub open spec fn none() -> Seq<InsightView> {
    Seq::empty()
}

fn push_insight(insights: &mut Vec<Insight>, level: InsightLevel, text: String)
    ensures
        insight_views(final(insights)@) == insight_views(old(insights)@) + one(level, text@),
{
    let ghost before = insight_views(insights@);
    let ghost shown = text@;
    insights.push(Insight { level, text });
    assert(insight_views(insights@) =~= before + one(level, shown));
}

fn add_insights(insights: &mut Vec<Insight>, more: Vec<Insight>)
    ensures
        insight_views(final(insights)@) == insight_views(old(insights)@) + insight_views(more@),
{
    let ghost before = insight_views(insights@);
    let ghost added = insight_views(more@);
    let mut more = more;
    insights.append(&mut more);
    assert(insight_views(insights@) =~= before + added);
}

/// How bad a latency is.
pub open spec fn latency_level(latency_us: u64) -> InsightLevel {
    if latency_us >= 100_000 {
        InsightLevel::Bad
    } else if latency_us >= 10_000 {
        InsightLevel::Warn
    } else if latency_us > 0 {
        InsightLevel::Okay
    } else {
        InsightLevel::Info
    }
}

/// How bad a latency is.
pub fn insight_level_for_latency(latency_us: u64) -> (level: InsightLevel)
    ensures
        level == latency_level(latency_us),
{
    if latency_us >= 100_000 {
        InsightLevel::Bad
    } else if latency_us >= 10_000 {
        InsightLevel::Warn
    } else if latency_us > 0 {
        InsightLevel::Okay
    } else {
        InsightLevel::Info
    }
}

/// A latency as the operator sees it: milliseconds from one on, microseconds
/// below, and a dash for none.
pub open spec fn latency_text(value: u64) -> Seq<char> {
    if value >= 1000 {
        double::fixed_text(double::divided(double::whole(value as nat), 1000), 1) + "ms"@
    } else if value == 0 {
        "-"@
    } else {
        text::decimal(value as nat) + "us"@
    }
}

/// A latency as the operator sees it.
pub fn format_latency_us(value: u64) -> (out: String)
    ensures
        out@ == latency_text(value),
{
    if value >= 1000 {
        let mut out = Double::of_whole(value).over(1000).fixed(1);
        out.append("ms");
        out
    } else if value == 0 {
        "-".to_owned()
    } else {
        let mut out = text::u64_text(value);
        out.append("us");
        out
    }
}

/// A number of bytes as the operator sees it.
pub open spec fn bytes_text(bytes: u64) -> Seq<char> {
    if bytes >= 0x10_0000 {
        double::fixed_text(double::divided(double::whole(bytes as nat), 0x10_0000), 1) + " MiB"@
    } else if bytes >= 0x400 {
        double::fixed_text(double::divided(double::whole(bytes as nat), 0x400), 1) + " KiB"@
    } else {
        text::decimal(bytes as nat) + " B"@
    }
}

/// A number of bytes as the operator sees it.
pub fn format_bytes(bytes: u64) -> (out: String)
    ensures
        out@ == bytes_text(bytes),
{
    if bytes >= 0x10_0000 {
        let mut out = Double::of_whole(bytes).over(0x10_0000).fixed(1);
        out.append(" MiB");
        out
    } else if bytes >= 0x400 {
        let mut out = Double::of_whole(bytes).over(0x400).fixed(1);
        out.append(" KiB");
        out
    } else {
        let mut out = text::u64_text(bytes);
        out.append(" B");
        out
    }
}

/// A percentage, at least four characters wide.
pub fn format_percent(value: Double) -> (out: String)
    ensures
        out@ == text::spaces(
            (if double::fixed_text(value, 1).len() < 4 {
                4 - double::fixed_text(value, 1).len()
            } else {
                0
            }) as nat,
        ) + double::fixed_text(value, 1),
        text::trimmed(out@) == double::fixed_text(value, 1),
{
    let shown = value.fixed(1);
    proof {
        double::lemma_fixed_text_ends(value, 1);
        text::lemma_trimmed_drops_padding(
            (if shown@.len() < 4 {
                4 - shown@.len()
            } else {
                0
            }) as nat,
            shown@,
        );
    }
    text::pad_left(shown.as_str(), 4)
}

/// A set of OSDs as Ceph writes it.
pub fn format_osd_set(osds: &[i64]) -> (out: String)
    ensures
        out@ == flow::acting_text(osds@),
{
    format_acting(osds)
}

/// One health check: its code, its message and the first of its details.
pub open spec fn check_text(check: HealthCheck) -> Seq<char> {
    check.code@ + " "@ + util::shortened(check.message@, 60) + if check.details@.len() > 0 {
        "; "@ + util::shortened(check.details@[0]@, 48)
    } else {
        Seq::empty()
    }
}

/// The first three checks, and how many more there are.
pub open spec fn checks_text(checks: Seq<HealthCheck>) -> Seq<char> {
    text::joined(flow::top(checks, 3).map_values(|c: HealthCheck| check_text(c)), "; "@)
        + if checks.len() > 3 {
        " (+"@ + text::decimal((checks.len() - 3) as nat) + " more)"@
    } else {
        Seq::empty()
    }
}

/// Names the checks behind a HEALTH_WARN or HEALTH_ERR. `ceph -s` already
/// carries them, so the operator does not have to leave the TUI to find out why
/// the cluster is unhealthy. Only the first few fit on one insight line.
pub fn health_check_summary(checks: &[HealthCheck]) -> (out: String)
    ensures
        out@ == checks_text(checks@),
{
    let ghost to = |c: HealthCheck| check_text(c);
    let ghost wanted = flow::top(checks@, 3).map_values(to);
    let mut parts: Vec<String> = Vec::new();
    let mut i: usize = 0;
    assert(text::texts(parts@) =~= wanted.take(0));
    while i < checks.len() && i < 3
        invariant
            i <= checks@.len(),
            i <= 3,
            to == |c: HealthCheck| check_text(c),
            wanted == flow::top(checks@, 3).map_values(to),
            text::texts(parts@) == wanted.take(i as int),
        decreases checks@.len() - i,
    {
        let check = &checks[i];
        let ghost before = text::texts(parts@);
        let mut part = check.code.clone();
        part.append(" ");
        part.append(short(check.message.as_str(), 60).as_str());
        if check.details.len() > 0 {
            let ghost front = part@;
            part.append("; ");
            part.append(short(check.details[0].as_str(), 48).as_str());
            assert(part@ =~= front + ("; "@ + util::shortened(check.details@[0]@, 48)));
        } else {
            assert(part@ =~= part@ + Seq::<char>::empty());
        }
        assert(part@ == check_text(*check));
        parts.push(part);
        i = i + 1;
        assert(text::texts(parts@) =~= before.push(wanted[i - 1]));
        assert(text::texts(parts@) =~= wanted.take(i as int));
    }
    assert(wanted.take(wanted.len() as int) =~= wanted);
    let mut out = text::join_texts(&parts, "; ");
    let ghost front = out@;
    if checks.len() > 3 {
        out.append(" (+");
        out.append(text::u64_text((checks.len() - 3) as u64).as_str());
        out.append(" more)");
        assert(out@ =~= front + (" (+"@ + text::decimal((checks@.len() - 3) as nat) + " more)"@));
    } else {
        assert(out@ =~= front + Seq::<char>::empty());
    }
    out
}

/// A pool that asks for more failure domains than there are.
pub open spec fn pool_fault(pool: PoolSummary) -> Option<InsightView> {
    if pool.available_domains > 0 && pool.failure_domain@.len() > 0 && pool.size
        > pool.available_domains {
        Some(
            InsightView {
                level: InsightLevel::Bad,
                text: "pool "@ + pool.name@ + " size "@ + text::decimal(pool.size as nat)
                    + " exceeds "@ + text::decimal(pool.available_domains as nat) + " available "@
                    + pool.failure_domain@ + " domains (rule "@ + text::signed_decimal(
                    pool.crush_rule as int,
                ) + ")"@,
            },
        )
    } else {
        None
    }
}

pub open spec fn pool_faults(pools: Seq<PoolSummary>) -> Seq<InsightView> {
    tally::picked(pools, |p: PoolSummary| pool_fault(p))
}

pub open spec fn fuller() -> spec_fn(OsdSummary, OsdSummary) -> bool {
    |a: OsdSummary, b: OsdSummary| a.utilization.rank() > b.utilization.rank()
}

/// The fullest OSD, where it has reached the full ratio.
pub open spec fn full_fault(snapshot: Snapshot) -> Seq<InsightView> {
    let full = snapshot.cluster.full_ratio;
    match tally::last_greatest(snapshot.osds@, fuller()) {
        Some(osd) => if double::above_zero(full) && double::at_least(
            double::divided(osd.utilization, 100),
            full,
        ) {
            one(
                InsightLevel::Bad,
                osd.name@ + " utilization "@ + double::fixed_text(osd.utilization, 3)
                    + "% crosses full threshold "@ + percent_of(full) + "% (near "@ + percent_of(
                    snapshot.cluster.nearfull_ratio,
                ) + "%, backfill "@ + percent_of(snapshot.cluster.backfillfull_ratio) + "%)"@,
            )
        } else {
            none()
        },
        None => none(),
    }
}

/// A ratio as a percentage.
pub open spec fn percent_of(ratio: Double) -> Seq<char> {
    double::fixed_text(double::multiplied(ratio, 100), 3)
}

/// Picks the placement groups whose state names one of two things.
pub open spec fn state_has(part: Seq<char>, other: Seq<char>) -> spec_fn(PgSummary) -> bool {
    |pg: PgSummary| text::has(pg.state@, part) || text::has(pg.state@, other)
}

/// The placement group that is named: the first in deep scrub, else the first
/// that is moved or recovered, else the first.
pub open spec fn telling_pg(pgs: Seq<PgSummary>) -> Option<PgSummary> {
    match tally::first_where(pgs, state_has("scrubbing+deep"@, "scrubbing+deep"@)) {
        Some(pg) => Some(pg),
        None => match tally::first_where(pgs, state_has("backfill"@, "recover"@)) {
            Some(pg) => Some(pg),
            None => if pgs.len() > 0 {
                Some(pgs[0])
            } else {
                None
            },
        },
    }
}

pub open spec fn pg_fault(pgs: Seq<PgSummary>) -> Seq<InsightView> {
    match telling_pg(pgs) {
        Some(pg) => one(
            InsightLevel::Warn,
            "PG "@ + pg.id@ + " "@ + pg.state@ + " · up "@ + flow::acting_text(pg.up@)
                + " · acting "@ + flow::acting_text(pg.acting@) + if pgs.len() > 1 {
                "; +"@ + text::decimal((pgs.len() - 1) as nat) + " more"@
            } else {
                Seq::empty()
            },
        ),
        None => none(),
    }
}

pub open spec fn recovery_fault(bytes_sec: u64) -> Seq<InsightView> {
    if bytes_sec > 0 {
        one(
            InsightLevel::Warn,
            "recovery/backfill moving "@ + bytes_text(bytes_sec)
                + "/s while client operations are observed"@,
        )
    } else {
        none()
    }
}

/// What the snapshot itself shows: pools, capacity, placement groups, recovery.
pub open spec fn cluster_evidence(snapshot: Snapshot) -> Seq<InsightView> {
    pool_faults(snapshot.pools@) + full_fault(snapshot) + pg_fault(snapshot.abnormal_pgs@)
        + recovery_fault(snapshot.cluster.recovering_bytes_sec)
}

fn pool_insights(pools: &[PoolSummary]) -> (out: Vec<Insight>)
    ensures
        insight_views(out@) == pool_faults(pools@),
{
    let ghost pick = |p: PoolSummary| pool_fault(p);
    let mut out: Vec<Insight> = Vec::new();
    let mut i: usize = 0;
    assert(insight_views(out@) =~= none());
    while i < pools.len()
        invariant
            i <= pools@.len(),
            pick == |p: PoolSummary| pool_fault(p),
            insight_views(out@) == tally::picked(pools@.take(i as int), pick),
        decreases pools@.len() - i,
    {
        assert(pools@.take(i + 1).drop_last() =~= pools@.take(i as int));
        let pool = &pools[i];
        let ghost before = insight_views(out@);
        if pool.available_domains > 0 && !pool.failure_domain.as_str().is_empty() && pool.size
            > pool.available_domains {
            let mut message = "pool ".to_owned();
            message.append(pool.name.as_str());
            message.append(" size ");
            message.append(text::u64_text(pool.size).as_str());
            message.append(" exceeds ");
            message.append(text::u64_text(pool.available_domains).as_str());
            message.append(" available ");
            message.append(pool.failure_domain.as_str());
            message.append(" domains (rule ");
            message.append(text::i64_text(pool.crush_rule).as_str());
            message.append(")");
            let ghost shown = message@;
            push_insight(&mut out, InsightLevel::Bad, message);
            assert(insight_views(out@) =~= before.push(
                InsightView { level: InsightLevel::Bad, text: shown },
            ));
        }
        i = i + 1;
    }
    assert(pools@.take(pools@.len() as int) =~= pools@);
    out
}

fn fullest(osds: &[OsdSummary]) -> (out: Option<&OsdSummary>)
    ensures
        match out {
            Some(osd) => tally::last_greatest(osds@, fuller()) == Some(*osd),
            None => tally::last_greatest(osds@, fuller()) is None,
        },
{
    let mut best: Option<&OsdSummary> = None;
    let mut i: usize = 0;
    while i < osds.len()
        invariant
            i <= osds@.len(),
            match best {
                Some(osd) => tally::last_greatest(osds@.take(i as int), fuller()) == Some(*osd),
                None => tally::last_greatest(osds@.take(i as int), fuller()) is None,
            },
        decreases osds@.len() - i,
    {
        assert(osds@.take(i + 1).drop_last() =~= osds@.take(i as int));
        let osd = &osds[i];
        best =
        match best {
            Some(other) => if osd.utilization.ranks_before(other.utilization) {
                Some(other)
            } else {
                Some(osd)
            },
            None => Some(osd),
        };
        i = i + 1;
    }
    assert(osds@.take(osds@.len() as int) =~= osds@);
    best
}

fn first_pg<'a>(pgs: &'a [PgSummary], part: &str, other: &str) -> (out: Option<&'a PgSummary>)
    ensures
        match out {
            Some(pg) => tally::first_where(pgs@, state_has(part@, other@)) == Some(*pg),
            None => tally::first_where(pgs@, state_has(part@, other@)) is None,
        },
{
    let ghost wanted = state_has(part@, other@);
    let mut i: usize = 0;
    assert(pgs@.skip(0) =~= pgs@);
    while i < pgs.len()
        invariant
            i <= pgs@.len(),
            wanted == state_has(part@, other@),
            tally::first_where(pgs@, wanted) == tally::first_where(pgs@.skip(i as int), wanted),
        decreases pgs@.len() - i,
    {
        let pg = &pgs[i];
        assert(pgs@.skip(i as int)[0] == *pg);
        if text::text_has(pg.state.as_str(), part) || text::text_has(pg.state.as_str(), other) {
            return Some(pg);
        }
        assert(pgs@.skip(i as int).drop_first() =~= pgs@.skip(i + 1));
        i = i + 1;
    }
    None
}

fn telling<'a>(pgs: &'a [PgSummary]) -> (out: Option<&'a PgSummary>)
    ensures
        match out {
            Some(pg) => telling_pg(pgs@) == Some(*pg),
            None => telling_pg(pgs@) is None,
        },
{
    match first_pg(pgs, "scrubbing+deep", "scrubbing+deep") {
        Some(pg) => Some(pg),
        None => match first_pg(pgs, "backfill", "recover") {
            Some(pg) => Some(pg),
            None => if pgs.len() > 0 {
                Some(&pgs[0])
            } else {
                None
            },
        },
    }
}

fn percent_text(ratio: Double) -> (out: String)
    ensures
        out@ == percent_of(ratio),
{
    ratio.times(100).fixed(3)
}

/// What the snapshot itself shows: pools, capacity, placement groups, recovery.
pub fn cluster_evidence_insights(snapshot: &Snapshot) -> (out: Vec<Insight>)
    ensures
        insight_views(out@) == cluster_evidence(*snapshot),
{
    let mut insights = pool_insights(snapshot.pools.as_slice());
    if let Some(osd) = fullest(snapshot.osds.as_slice()) {
        if snapshot.cluster.full_ratio.is_above_zero() && osd.utilization.over(100).not_below(
            snapshot.cluster.full_ratio,
        ) {
            let mut message = osd.name.clone();
            message.append(" utilization ");
            message.append(osd.utilization.fixed(3).as_str());
            message.append("% crosses full threshold ");
            message.append(percent_text(snapshot.cluster.full_ratio).as_str());
            message.append("% (near ");
            message.append(percent_text(snapshot.cluster.nearfull_ratio).as_str());
            message.append("%, backfill ");
            message.append(percent_text(snapshot.cluster.backfillfull_ratio).as_str());
            message.append("%)");
            push_insight(&mut insights, InsightLevel::Bad, message);
        }
    }
    let ghost upto_full = pool_faults(snapshot.pools@) + full_fault(*snapshot);
    assert(insight_views(insights@) =~= upto_full);
    if let Some(pg) = telling(snapshot.abnormal_pgs.as_slice()) {
        let mut message = "PG ".to_owned();
        message.append(pg.id.as_str());
        message.append(" ");
        message.append(pg.state.as_str());
        message.append(" · up ");
        message.append(format_osd_set(pg.up.as_slice()).as_str());
        message.append(" · acting ");
        message.append(format_osd_set(pg.acting.as_slice()).as_str());
        let ghost front = message@;
        if snapshot.abnormal_pgs.len() > 1 {
            let more: usize = snapshot.abnormal_pgs.len() - 1;
            message.append("; +");
            message.append(text::u64_text(more as u64).as_str());
            message.append(" more");
            assert(message@ =~= front + ("; +"@ + text::decimal(more as nat) + " more"@));
        } else {
            assert(message@ =~= front + Seq::<char>::empty());
        }
        push_insight(&mut insights, InsightLevel::Warn, message);
    }
    let ghost upto_pg = upto_full + pg_fault(snapshot.abnormal_pgs@);
    assert(insight_views(insights@) =~= upto_pg);
    if snapshot.cluster.recovering_bytes_sec > 0 {
        let mut message = "recovery/backfill moving ".to_owned();
        message.append(format_bytes(snapshot.cluster.recovering_bytes_sec).as_str());
        message.append("/s while client operations are observed");
        push_insight(&mut insights, InsightLevel::Warn, message);
    }
    assert(insight_views(insights@) =~= upto_pg + recovery_fault(
        snapshot.cluster.recovering_bytes_sec,
    ));
    insights
}

/// Picks the hosts with a write limit below an OSD.
pub open spec fn is_limited() -> spec_fn(NodeSummary) -> bool {
    |n: NodeSummary| n.osd_io_write_limits@.len() > 0
}

pub open spec fn by_host() -> spec_fn(NodeSummary, NodeSummary) -> bool {
    |a: NodeSummary, b: NodeSummary| text::text_before(a.host@, b.host@)
}

pub open spec fn limit_insight(node: NodeSummary) -> InsightView {
    InsightView {
        level: InsightLevel::Bad,
        text: node.host@ + " OSD block write limit: "@ + util::shortened(
            node.osd_io_write_limits@,
            72,
        ),
    }
}

/// The hosts with a write limit below an OSD, ordered by name.
pub open spec fn io_limits(nodes: Seq<NodeSummary>) -> Seq<InsightView> {
    order::sorted_by(nodes.filter(is_limited()), by_host()).map_values(
        |n: NodeSummary| limit_insight(n),
    )
}

/// Picks the hosts that stall on IO.
pub open spec fn is_stalled() -> spec_fn(NodeSummary) -> bool {
    |n: NodeSummary| reaches(n.io_stall_percent, STALL_PERCENT)
}

/// The order of the stalled hosts: the one that stalls more first, then by name.
pub open spec fn more_stalled() -> spec_fn(NodeSummary, NodeSummary) -> bool {
    |a: NodeSummary, b: NodeSummary|
        if a.io_stall_percent.rank() != b.io_stall_percent.rank() {
            a.io_stall_percent.rank() > b.io_stall_percent.rank()
        } else {
            text::text_before(a.host@, b.host@)
        }
}

pub open spec fn stall_insight(node: NodeSummary) -> InsightView {
    InsightView {
        level: if reaches(node.io_stall_percent, BAD_STALL_PERCENT) {
            InsightLevel::Bad
        } else {
            InsightLevel::Warn
        },
        text: node.host@ + " stalled on IO "@ + double::fixed_text(node.io_stall_percent, 1)
            + "% of the last 10s; storage below the OSD is a suspect"@,
    }
}

/// The two hosts that stall most.
pub open spec fn node_pressure(nodes: Seq<NodeSummary>) -> Seq<InsightView> {
    flow::top(order::sorted_by(nodes.filter(is_stalled()), more_stalled()), 2).map_values(
        |n: NodeSummary| stall_insight(n),
    )
}

/// What the references lead to.
pub open spec fn targets<T>(refs: Seq<&T>) -> Seq<T> {
    refs.map_values(|r: &T| *r)
}

fn limited_nodes(table: &NodeTable) -> (out: Vec<&NodeSummary>)
    ensures
        targets(out@) == table.nodes().filter(is_limited()),
{
    let ghost all = table.nodes();
    let mut out: Vec<&NodeSummary> = Vec::new();
    let mut i: usize = 0;
    assert(targets(out@) =~= all.take(0).filter(is_limited())) by {
        reveal(Seq::filter);
    }
    while i < table.entries.len()
        invariant
            i <= table.entries@.len(),
            all == table.nodes(),
            targets(out@) == all.take(i as int).filter(is_limited()),
        decreases table.entries@.len() - i,
    {
        let node = &table.entries[i].1;
        let ghost before = targets(out@);
        proof {
            assert(all.take(i + 1) =~= all.take(i as int).push(*node));
            tally::lemma_filter_push(all.take(i as int), *node, is_limited());
        }
        if !node.osd_io_write_limits.as_str().is_empty() {
            out.push(node);
            assert(targets(out@) =~= before.push(*node));
        }
        i = i + 1;
    }
    assert(all.take(all.len() as int) =~= all);
    out
}

/// The hosts with a write limit below an OSD, ordered by name.
pub fn io_limit_insights(node_summaries: &NodeTable) -> (out: Vec<Insight>)
    ensures
        insight_views(out@) == io_limits(node_summaries.nodes()),
{
    let limited = limited_nodes(node_summaries);
    let ghost to = |n: &NodeSummary| *n;
    let ghost before = |a: &NodeSummary, b: &NodeSummary| text::text_before(a.host@, b.host@);
    let less = |a: &&NodeSummary, b: &&NodeSummary| -> (yes: bool)
        ensures
            yes == text::text_before(a.host@, b.host@),
        {
            text::text_less(a.host.as_str(), b.host.as_str())
        };
    proof {
        order::lemma_sorted_by_map(limited@, before, to, by_host());
    }
    let sorted = order::sort_stable(limited, less, Ghost(before));
    let ghost nodes = order::sorted_by(node_summaries.nodes().filter(is_limited()), by_host());
    let ghost wanted = nodes.map_values(|n: NodeSummary| limit_insight(n));
    assert(targets(sorted@) =~= nodes);
    let mut out: Vec<Insight> = Vec::new();
    let mut i: usize = 0;
    assert(insight_views(out@) =~= wanted.take(0));
    while i < sorted.len()
        invariant
            i <= sorted@.len(),
            targets(sorted@) == nodes,
            wanted == nodes.map_values(|n: NodeSummary| limit_insight(n)),
            insight_views(out@) == wanted.take(i as int),
        decreases sorted@.len() - i,
    {
        let node = sorted[i];
        let ghost shown = insight_views(out@);
        assert(nodes[i as int] == *node);
        let mut message = node.host.clone();
        message.append(" OSD block write limit: ");
        message.append(short(node.osd_io_write_limits.as_str(), 72).as_str());
        push_insight(&mut out, InsightLevel::Bad, message);
        i = i + 1;
        assert(insight_views(out@) =~= shown.push(wanted[i - 1]));
        assert(insight_views(out@) =~= wanted.take(i as int));
    }
    assert(wanted.take(wanted.len() as int) =~= wanted);
    out
}

fn stalled_nodes(table: &NodeTable) -> (out: Vec<&NodeSummary>)
    ensures
        targets(out@) == table.nodes().filter(is_stalled()),
{
    let ghost all = table.nodes();
    let mut out: Vec<&NodeSummary> = Vec::new();
    let mut i: usize = 0;
    assert(targets(out@) =~= all.take(0).filter(is_stalled())) by {
        reveal(Seq::filter);
    }
    while i < table.entries.len()
        invariant
            i <= table.entries@.len(),
            all == table.nodes(),
            targets(out@) == all.take(i as int).filter(is_stalled()),
        decreases table.entries@.len() - i,
    {
        let node = &table.entries[i].1;
        let ghost before = targets(out@);
        proof {
            assert(all.take(i + 1) =~= all.take(i as int).push(*node));
            tally::lemma_filter_push(all.take(i as int), *node, is_stalled());
        }
        if node.io_stall_percent.not_below(Double { bits: STALL_PERCENT }) {
            out.push(node);
            assert(targets(out@) =~= before.push(*node));
        }
        i = i + 1;
    }
    assert(all.take(all.len() as int) =~= all);
    out
}

/// The two hosts that stall most.
pub fn node_pressure_insights(node_summaries: &NodeTable) -> (out: Vec<Insight>)
    ensures
        insight_views(out@) == node_pressure(node_summaries.nodes()),
{
    let stalled = stalled_nodes(node_summaries);
    let ghost to = |n: &NodeSummary| *n;
    let ghost before = |a: &NodeSummary, b: &NodeSummary| more_stalled()(*a, *b);
    let less = |a: &&NodeSummary, b: &&NodeSummary| -> (yes: bool)
        ensures
            yes == more_stalled()(**a, **b),
        {
            if b.io_stall_percent.ranks_before(a.io_stall_percent) {
                true
            } else if a.io_stall_percent.ranks_before(b.io_stall_percent) {
                false
            } else {
                text::text_less(a.host.as_str(), b.host.as_str())
            }
        };
    proof {
        order::lemma_sorted_by_map(stalled@, before, to, more_stalled());
    }
    let sorted = order::sort_stable(stalled, less, Ghost(before));
    let ghost nodes = order::sorted_by(
        node_summaries.nodes().filter(is_stalled()),
        more_stalled(),
    );
    let ghost shown_nodes = flow::top(nodes, 2);
    let ghost wanted = shown_nodes.map_values(|n: NodeSummary| stall_insight(n));
    assert(targets(sorted@) =~= nodes);
    let mut out: Vec<Insight> = Vec::new();
    let mut i: usize = 0;
    assert(insight_views(out@) =~= wanted.take(0));
    while i < sorted.len() && i < 2
        invariant
            i <= sorted@.len(),
            i <= 2,
            targets(sorted@) == nodes,
            shown_nodes == flow::top(nodes, 2),
            wanted == shown_nodes.map_values(|n: NodeSummary| stall_insight(n)),
            insight_views(out@) == wanted.take(i as int),
        decreases sorted@.len() - i,
    {
        let node = sorted[i];
        let ghost shown = insight_views(out@);
        assert(nodes[i as int] == *node);
        assert(shown_nodes[i as int] == *node);
        let level = if node.io_stall_percent.not_below(Double { bits: BAD_STALL_PERCENT }) {
            InsightLevel::Bad
        } else {
            InsightLevel::Warn
        };
        let mut message = node.host.clone();
        message.append(" stalled on IO ");
        message.append(node.io_stall_percent.fixed(1).as_str());
        message.append("% of the last 10s; storage below the OSD is a suspect");
        push_insight(&mut out, level, message);
        i = i + 1;
        assert(insight_views(out@) =~= shown.push(wanted[i - 1]));
        assert(insight_views(out@) =~= wanted.take(i as int));
    }
    assert(wanted.take(wanted.len() as int) =~= wanted);
    out
}

/// Picks the host that is called `host`.
pub open spec fn is_called(host: Seq<char>) -> spec_fn(NodeSummary) -> bool {
    |n: NodeSummary| n.host@ == host || n.hostname@ == host
}

/// What is known of `host`: the entry for that name, else the first host that
/// calls itself so.
pub open spec fn known_node(table: NodeTable, host: Seq<char>) -> Option<NodeSummary> {
    match table.entry(host) {
        Some(node) => Some(node),
        None => tally::first_where(table.nodes(), is_called(host)),
    }
}

/// What is known of `host`.
pub fn node_for_host<'a>(node_summaries: &'a NodeTable, host: &str) -> (out: Option<&'a NodeSummary>)
    ensures
        match out {
            Some(node) => known_node(*node_summaries, host@) == Some(*node),
            None => known_node(*node_summaries, host@) is None,
        },
{
    if let Some(node) = node_summaries.get(host) {
        return Some(node);
    }
    let ghost all = node_summaries.nodes();
    let ghost wanted = is_called(host@);
    let mut i: usize = 0;
    assert(all.skip(0) =~= all);
    while i < node_summaries.entries.len()
        invariant
            i <= node_summaries.entries@.len(),
            all == node_summaries.nodes(),
            wanted == is_called(host@),
            node_summaries.entry(host@) is None,
            tally::first_where(all, wanted) == tally::first_where(all.skip(i as int), wanted),
        decreases node_summaries.entries@.len() - i,
    {
        let node = &node_summaries.entries[i].1;
        assert(all.skip(i as int)[0] == *node);
        if text::same_text(node.host.as_str(), host) || text::same_text(
            node.hostname.as_str(),
            host,
        ) {
            return Some(node);
        }
        assert(all.skip(i as int).drop_first() =~= all.skip(i + 1));
        i = i + 1;
    }
    None
}

/// Which of two waits stands out: one of at least ten milliseconds that is twice
/// the other.
pub open spec fn verdict(queue_us: u64, recv_us: u64) -> Seq<char> {
    if queue_us >= 10_000 && queue_us >= tally::capped((2 * recv_us) as nat) {
        "queue is at least 2x recv; OSD queue delay likely"@
    } else if recv_us >= 10_000 && recv_us >= tally::capped((2 * queue_us) as nat) {
        "recv is at least 2x queue; network receive delay likely"@
    } else {
        "no clear queue/recv lead"@
    }
}

fn doubled(n: u64) -> (out: u64)
    ensures
        out == tally::capped((2 * n) as nat),
{
    if n > u64::MAX / 2 {
        u64::MAX
    } else {
        2 * n
    }
}

/// Which of two waits stands out.
pub fn queue_recv_verdict(queue_us: u64, recv_us: u64) -> (out: &'static str)
    ensures
        out@ == verdict(queue_us, recv_us),
{
    if queue_us >= 10_000 && queue_us >= doubled(recv_us) {
        "queue is at least 2x recv; OSD queue delay likely"
    } else if recv_us >= 10_000 && recv_us >= doubled(queue_us) {
        "recv is at least 2x queue; network receive delay likely"
    } else {
        "no clear queue/recv lead"
    }
}

/// The order of the rows: by the largest latency, then by the ops.
pub open spec fn slower() -> spec_fn(TraceGraphRow, TraceGraphRow) -> bool {
    |a: TraceGraphRow, b: TraceGraphRow|
        a.max_us > b.max_us || (a.max_us == b.max_us && a.ops > b.ops)
}

pub open spec fn row_ops(rows: Seq<TraceGraphRow>) -> Seq<u64> {
    rows.map_values(|r: TraceGraphRow| r.ops)
}

pub open spec fn row_maxima(rows: Seq<TraceGraphRow>) -> Seq<u64> {
    rows.map_values(|r: TraceGraphRow| r.max_us)
}

pub open spec fn window_insight(
    rows: Seq<TraceGraphRow>,
    worst: TraceGraphRow,
    window_secs: u64,
) -> Seq<InsightView> {
    one(
        latency_level(worst.max_us),
        "last "@ + text::decimal(util::larger(window_secs as int, 1) as nat) + "s: "@
            + text::decimal(tally::total(row_ops(rows))) + " ops on "@ + text::decimal(rows.len())
            + " OSDs; worst "@ + worst.osd@ + " max "@ + latency_text(worst.max_us) + " avg "@
            + latency_text(worst.avg_us),
    )
}

pub open spec fn compare_insight(worst: TraceGraphRow) -> Seq<InsightView> {
    let (queue, recv) = (worst.queue_max_us, worst.recv_max_us);
    if queue > 0 || recv > 0 {
        one(
            latency_level(flow::higher(queue, recv)),
            "compare "@ + worst.osd@ + " / "@ + worst.host@ + ": queue "@ + latency_text(queue)
                + " · recv "@ + latency_text(recv) + " → "@ + verdict(queue, recv),
        )
    } else {
        none()
    }
}

pub open spec fn component_insight(worst: TraceGraphRow) -> Seq<InsightView> {
    let dominant = worst.dominant;
    if dominant.value_us > 0 {
        one(
            latency_level(dominant.value_us),
            "largest observed component "@ + dominant.name@ + " "@ + latency_text(
                dominant.value_us,
            ) + "; possible area "@ + dominant.suspect@
                + "; maxima may be from different ops"@,
        )
    } else if worst.max_us >= 10_000 {
        one(
            InsightLevel::Warn,
            "slow op seen, but parsed queue/store/network components are empty; inspect raw osdtrace"@,
        )
    } else {
        none()
    }
}

pub open spec fn hot_pg_insight(worst: TraceGraphRow) -> Seq<InsightView> {
    if worst.hot_pg@ != "-"@ {
        one(
            InsightLevel::Info,
            "busiest PG on "@ + worst.osd@ + ": "@ + worst.hot_pg@
                + "; compare acting set if it stays busy"@,
        )
    } else {
        none()
    }
}

pub open spec fn load_insight(table: NodeTable, worst: TraceGraphRow) -> Seq<InsightView> {
    match known_node(table, worst.host@) {
        Some(node) => if reaches(node.cpu_percent, BUSY_PERCENT) {
            one(
                InsightLevel::Bad,
                worst.host@ + " CPU "@ + double::fixed_text(node.cpu_percent, 1)
                    + "%; queue latency may include OSD worker/scheduler pressure"@,
            )
        } else if reaches(node.mem_percent, BUSY_PERCENT) {
            one(
                InsightLevel::Warn,
                worst.host@ + " memory "@ + double::fixed_text(node.mem_percent, 1)
                    + "%; check OSD memory pressure before deeper trace"@,
            )
        } else {
            none()
        },
        None => none(),
    }
}

pub open spec fn is_slow() -> spec_fn(TraceGraphRow) -> bool {
    |r: TraceGraphRow| r.max_us >= 10_000
}

pub open spec fn spread_insight(rows: Seq<TraceGraphRow>, worst: TraceGraphRow) -> Seq<InsightView> {
    let slow = rows.filter(is_slow()).len();
    if slow >= 2 {
        one(
            InsightLevel::Warn,
            text::decimal(slow)
                + " OSDs over 10ms; shared network/device/controller pressure is possible"@,
        )
    } else if worst.max_us < 10_000 {
        one(
            InsightLevel::Okay,
            "no obvious slow OSD in the trace window; max latency is below 10ms"@,
        )
    } else {
        none()
    }
}

/// What the rows of the active OSDs show.
pub open spec fn osd_trace(
    table: NodeTable,
    rows: Seq<TraceGraphRow>,
    window_secs: u64,
) -> Seq<InsightView> {
    match tally::last_greatest(rows, slower()) {
        Some(worst) => window_insight(rows, worst, window_secs) + compare_insight(worst)
            + component_insight(worst) + hot_pg_insight(worst) + load_insight(table, worst)
            + spread_insight(rows, worst),
        None => none(),
    }
}

fn worst_row<'a>(rows: &[&'a TraceGraphRow]) -> (out: &'a TraceGraphRow)
    requires
        rows@.len() > 0,
    ensures
        tally::last_greatest(targets(rows@), slower()) == Some(*out),
{
    let ghost all = targets(rows@);
    let mut best = rows[0];
    let mut i: usize = 1;
    assert(all.take(1).drop_last() =~= Seq::<TraceGraphRow>::empty());
    assert(tally::last_greatest(Seq::<TraceGraphRow>::empty(), slower()) is None);
    while i < rows.len()
        invariant
            1 <= i <= rows@.len(),
            all == targets(rows@),
            tally::last_greatest(all.take(i as int), slower()) == Some(*best),
        decreases rows@.len() - i,
    {
        assert(all.take(i + 1).drop_last() =~= all.take(i as int));
        let row = rows[i];
        if !(best.max_us > row.max_us || (best.max_us == row.max_us && best.ops > row.ops)) {
            best = row;
        }
        i = i + 1;
    }
    assert(all.take(all.len() as int) =~= all);
    best
}

fn ops_of(rows: &[&TraceGraphRow]) -> (out: Vec<u64>)
    ensures
        out@ == row_ops(targets(rows@)),
{
    let mut out: Vec<u64> = Vec::new();
    let mut i: usize = 0;
    while i < rows.len()
        invariant
            i <= rows@.len(),
            out@ == row_ops(targets(rows@)).take(i as int),
        decreases rows@.len() - i,
    {
        out.push(rows[i].ops);
        i = i + 1;
        assert(out@ =~= row_ops(targets(rows@)).take(i as int));
    }
    assert(out@ =~= row_ops(targets(rows@)));
    out
}

fn maxima_of(rows: &[&TraceGraphRow]) -> (out: Vec<u64>)
    ensures
        out@ == row_maxima(targets(rows@)),
{
    let mut out: Vec<u64> = Vec::new();
    let mut i: usize = 0;
    while i < rows.len()
        invariant
            i <= rows@.len(),
            out@ == row_maxima(targets(rows@)).take(i as int),
        decreases rows@.len() - i,
    {
        out.push(rows[i].max_us);
        i = i + 1;
        assert(out@ =~= row_maxima(targets(rows@)).take(i as int));
    }
    assert(out@ =~= row_maxima(targets(rows@)));
    out
}

fn slow_rows(rows: &[&TraceGraphRow]) -> (slow: usize)
    ensures
        slow == targets(rows@).filter(is_slow()).len(),
        slow <= rows@.len(),
{
    let ghost all = targets(rows@);
    let mut slow: usize = 0;
    let mut i: usize = 0;
    assert(all.take(0).filter(is_slow()).len() == 0) by {
        reveal(Seq::filter);
    }
    while i < rows.len()
        invariant
            i <= rows@.len(),
            slow <= i,
            all == targets(rows@),
            slow == all.take(i as int).filter(is_slow()).len(),
        decreases rows@.len() - i,
    {
        proof {
            assert(all.take(i + 1) =~= all.take(i as int).push(*rows@[i as int]));
            tally::lemma_filter_push(all.take(i as int), *rows@[i as int], is_slow());
        }
        if rows[i].max_us >= 10_000 {
            slow = slow + 1;
        }
        i = i + 1;
    }
    assert(all.take(all.len() as int) =~= all);
    slow
}

fn push_window(
    insights: &mut Vec<Insight>,
    rows: &[&TraceGraphRow],
    worst: &TraceGraphRow,
    trace_window_secs: u64,
)
    requires
        tally::total(row_ops(targets(rows@))) <= u64::MAX,
    ensures
        insight_views(final(insights)@) == insight_views(old(insights)@) + window_insight(
            targets(rows@),
            *worst,
            trace_window_secs,
        ),
{
    let total_ops: u64 = tally::sum(ops_of(rows).as_slice());
    let window: u64 = if trace_window_secs < 1 {
        1
    } else {
        trace_window_secs
    };
    let mut message = "last ".to_owned();
    message.append(text::u64_text(window).as_str());
    message.append("s: ");
    message.append(text::u64_text(total_ops).as_str());
    message.append(" ops on ");
    message.append(text::u64_text(rows.len() as u64).as_str());
    message.append(" OSDs; worst ");
    message.append(worst.osd.as_str());
    message.append(" max ");
    message.append(format_latency_us(worst.max_us).as_str());
    message.append(" avg ");
    message.append(format_latency_us(worst.avg_us).as_str());
    push_insight(insights, insight_level_for_latency(worst.max_us), message);
}

fn push_compare(insights: &mut Vec<Insight>, worst: &TraceGraphRow)
    ensures
        insight_views(final(insights)@) == insight_views(old(insights)@) + compare_insight(*worst),
{
    let queue: u64 = worst.queue_max_us;
    let recv: u64 = worst.recv_max_us;
    if queue > 0 || recv > 0 {
        let most: u64 = if queue < recv {
            recv
        } else {
            queue
        };
        let mut message = "compare ".to_owned();
        message.append(worst.osd.as_str());
        message.append(" / ");
        message.append(worst.host.as_str());
        message.append(": queue ");
        message.append(format_latency_us(queue).as_str());
        message.append(" · recv ");
        message.append(format_latency_us(recv).as_str());
        message.append(" → ");
        message.append(queue_recv_verdict(queue, recv));
        push_insight(insights, insight_level_for_latency(most), message);
    } else {
        assert(insight_views(insights@) =~= insight_views(insights@) + none());
    }
}

fn push_component(insights: &mut Vec<Insight>, worst: &TraceGraphRow)
    ensures
        insight_views(final(insights)@) == insight_views(old(insights)@) + component_insight(
            *worst,
        ),
{
    let dominant = &worst.dominant;
    if dominant.value_us > 0 {
        let mut message = "largest observed component ".to_owned();
        message.append(dominant.name.as_str());
        message.append(" ");
        message.append(format_latency_us(dominant.value_us).as_str());
        message.append("; possible area ");
        message.append(dominant.suspect.as_str());
        message.append("; maxima may be from different ops");
        push_insight(insights, insight_level_for_latency(dominant.value_us), message);
    } else if worst.max_us >= 10_000 {
        push_insight(
            insights,
            InsightLevel::Warn,
            "slow op seen, but parsed queue/store/network components are empty; inspect raw osdtrace".to_owned(),
        );
    } else {
        assert(insight_views(insights@) =~= insight_views(insights@) + none());
    }
}

fn push_hot_pg(insights: &mut Vec<Insight>, worst: &TraceGraphRow)
    ensures
        insight_views(final(insights)@) == insight_views(old(insights)@) + hot_pg_insight(*worst),
{
    if !text::same_text(worst.hot_pg.as_str(), "-") {
        let mut message = "busiest PG on ".to_owned();
        message.append(worst.osd.as_str());
        message.append(": ");
        message.append(worst.hot_pg.as_str());
        message.append("; compare acting set if it stays busy");
        push_insight(insights, InsightLevel::Info, message);
    } else {
        assert(insight_views(insights@) =~= insight_views(insights@) + none());
    }
}

fn push_load(insights: &mut Vec<Insight>, node_summaries: &NodeTable, worst: &TraceGraphRow)
    ensures
        insight_views(final(insights)@) == insight_views(old(insights)@) + load_insight(
            *node_summaries,
            *worst,
        ),
{
    let ghost before = insight_views(insights@);
    if let Some(node) = node_for_host(node_summaries, worst.host.as_str()) {
        let busy = Double { bits: BUSY_PERCENT };
        if node.cpu_percent.not_below(busy) {
            let mut message = worst.host.clone();
            message.append(" CPU ");
            message.append(text::trim_text(format_percent(node.cpu_percent).as_str()).as_str());
            message.append("%; queue latency may include OSD worker/scheduler pressure");
            push_insight(insights, InsightLevel::Bad, message);
        } else if node.mem_percent.not_below(busy) {
            let mut message = worst.host.clone();
            message.append(" memory ");
            message.append(text::trim_text(format_percent(node.mem_percent).as_str()).as_str());
            message.append("%; check OSD memory pressure before deeper trace");
            push_insight(insights, InsightLevel::Warn, message);
        }
    }
    assert(insight_views(insights@) =~= before + load_insight(*node_summaries, *worst));
}

fn push_spread(insights: &mut Vec<Insight>, rows: &[&TraceGraphRow], worst: &TraceGraphRow)
    ensures
        insight_views(final(insights)@) == insight_views(old(insights)@) + spread_insight(
            targets(rows@),
            *worst,
        ),
{
    let slow: usize = slow_rows(rows);
    if slow >= 2 {
        let mut message = text::u64_text(slow as u64);
        message.append(" OSDs over 10ms; shared network/device/controller pressure is possible");
        push_insight(insights, InsightLevel::Warn, message);
    } else if worst.max_us < 10_000 {
        push_insight(
            insights,
            InsightLevel::Okay,
            "no obvious slow OSD in the trace window; max latency is below 10ms".to_owned(),
        );
    } else {
        assert(insight_views(insights@) =~= insight_views(insights@) + none());
    }
}

/// What the rows of the active OSDs show.
pub fn osd_trace_insights(
    node_summaries: &NodeTable,
    active_rows: &[&TraceGraphRow],
    trace_window_secs: u64,
) -> (out: Vec<Insight>)
    requires
        active_rows@.len() > 0,
        tally::total(row_ops(targets(active_rows@))) <= u64::MAX,
    ensures
        insight_views(out@) == osd_trace(
            *node_summaries,
            targets(active_rows@),
            trace_window_secs,
        ),
{
    let mut insights: Vec<Insight> = Vec::new();
    assert(insight_views(insights@) =~= none());
    let worst = worst_row(active_rows);
    push_window(&mut insights, active_rows, worst, trace_window_secs);
    push_compare(&mut insights, worst);
    push_component(&mut insights, worst);
    push_hot_pg(&mut insights, worst);
    push_load(&mut insights, node_summaries, worst);
    push_spread(&mut insights, active_rows, worst);
    assert(insight_views(insights@) =~= osd_trace(
        *node_summaries,
        targets(active_rows@),
        trace_window_secs,
    ));
    insights
}

pub open spec fn slower_kfs() -> spec_fn(KfsOpRow, KfsOpRow) -> bool {
    |a: KfsOpRow, b: KfsOpRow| a.max_us > b.max_us
}

pub open spec fn kfs_counts(rows: Seq<KfsOpRow>) -> Seq<u64> {
    rows.map_values(|r: KfsOpRow| r.count)
}

pub open spec fn kfs_unsafe_counts(rows: Seq<KfsOpRow>) -> Seq<u64> {
    rows.map_values(|r: KfsOpRow| r.unsafe_count)
}

/// What kfstrace shows.
pub open spec fn kfs_trace(rows: Seq<KfsOpRow>) -> Seq<InsightView> {
    match tally::last_greatest(rows, slower_kfs()) {
        Some(worst) => one(
            latency_level(worst.max_us),
            "kfstrace: "@ + text::decimal(tally::total(kfs_counts(rows))) + " MDS ops; slowest "@
                + worst.op@ + " max "@ + latency_text(worst.max_us) + " avg "@ + latency_text(
                worst.avg_us,
            ),
        ) + if tally::total(kfs_unsafe_counts(rows)) > 0 {
            one(
                InsightLevel::Warn,
                "kfstrace: "@ + text::decimal(tally::total(kfs_unsafe_counts(rows)))
                    + " unsafe metadata ops awaiting MDS journal commit"@,
            )
        } else {
            none()
        },
        None => none(),
    }
}

/// What kfstrace shows, from its ops by kind.
pub fn kfs_insights(rows: &[KfsOpRow]) -> (out: Vec<Insight>)
    requires
        tally::total(kfs_counts(rows@)) <= u64::MAX,
        tally::total(kfs_unsafe_counts(rows@)) <= u64::MAX,
    ensures
        insight_views(out@) == kfs_trace(rows@),
{
    let mut insights: Vec<Insight> = Vec::new();
    assert(insight_views(insights@) =~= none());
    if rows.len() == 0 {
        return insights;
    }
    let mut worst = &rows[0];
    let mut counts: Vec<u64> = Vec::new();
    let mut unsafe_counts: Vec<u64> = Vec::new();
    let mut i: usize = 0;
    while i < rows.len()
        invariant
            i <= rows@.len(),
            rows@.len() > 0,
            i == 0 ==> *worst == rows@[0],
            i > 0 ==> tally::last_greatest(rows@.take(i as int), slower_kfs()) == Some(*worst),
            counts@ == kfs_counts(rows@).take(i as int),
            unsafe_counts@ == kfs_unsafe_counts(rows@).take(i as int),
        decreases rows@.len() - i,
    {
        let row = &rows[i];
        assert(rows@.take(i + 1).drop_last() =~= rows@.take(i as int));
        assert(tally::last_greatest(Seq::<KfsOpRow>::empty(), slower_kfs()) is None);
        assert(rows@.take(0) =~= Seq::<KfsOpRow>::empty());
        if !(worst.max_us > row.max_us) {
            worst = row;
        }
        counts.push(row.count);
        unsafe_counts.push(row.unsafe_count);
        i = i + 1;
        assert(counts@ =~= kfs_counts(rows@).take(i as int));
        assert(unsafe_counts@ =~= kfs_unsafe_counts(rows@).take(i as int));
    }
    assert(rows@.take(rows@.len() as int) =~= rows@);
    assert(counts@ =~= kfs_counts(rows@));
    assert(unsafe_counts@ =~= kfs_unsafe_counts(rows@));
    let total: u64 = tally::sum(counts.as_slice());
    let mut message = "kfstrace: ".to_owned();
    message.append(text::u64_text(total).as_str());
    message.append(" MDS ops; slowest ");
    message.append(worst.op.as_str());
    message.append(" max ");
    message.append(format_latency_us(worst.max_us).as_str());
    message.append(" avg ");
    message.append(format_latency_us(worst.avg_us).as_str());
    push_insight(&mut insights, insight_level_for_latency(worst.max_us), message);
    let unsafe_total: u64 = tally::sum(unsafe_counts.as_slice());
    if unsafe_total > 0 {
        let mut message = "kfstrace: ".to_owned();
        message.append(text::u64_text(unsafe_total).as_str());
        message.append(" unsafe metadata ops awaiting MDS journal commit");
        push_insight(&mut insights, InsightLevel::Warn, message);
    }
    assert(insight_views(insights@) =~= kfs_trace(rows@));
    insights
}

pub open spec fn slower_pool() -> spec_fn(RadosPoolRowView, RadosPoolRowView) -> bool {
    |a: RadosPoolRowView, b: RadosPoolRowView| a.max_us > b.max_us
}

/// What radostrace shows.
pub open spec fn rados_trace(events: Seq<RadosEventView>) -> Seq<InsightView> {
    match tally::last_greatest(radostrace::pool_rows(events), slower_pool()) {
        Some(worst) => one(
            latency_level(worst.max_us),
            "radostrace: "@ + text::decimal(events.len()) + " client ops; pool "@ + worst.pool
                + " max "@ + latency_text(worst.max_us) + " avg "@ + latency_text(worst.avg_us)
                + " ("@ + text::decimal(worst.writes as nat) + "W/"@ + text::decimal(
                worst.reads as nat,
            ) + "R)"@,
        ),
        None => none(),
    }
}

pub open spec fn pool_row_views(rows: Seq<RadosPoolRow>) -> Seq<RadosPoolRowView> {
    rows.map_values(|r: RadosPoolRow| r@)
}

pub open spec fn pool_counts(rows: Seq<RadosPoolRowView>) -> Seq<u64> {
    rows.map_values(|r: RadosPoolRowView| r.count)
}

pub open spec fn pool_maxima(rows: Seq<RadosPoolRowView>) -> Seq<u64> {
    rows.map_values(|r: RadosPoolRowView| r.max_us)
}

fn worst_pool(rows: &[RadosPoolRow]) -> (out: &RadosPoolRow)
    requires
        rows@.len() > 0,
    ensures
        tally::last_greatest(pool_row_views(rows@), slower_pool()) == Some(out@),
{
    let ghost all = pool_row_views(rows@);
    let mut best = &rows[0];
    let mut i: usize = 1;
    assert(all.take(1).drop_last() =~= Seq::<RadosPoolRowView>::empty());
    assert(tally::last_greatest(Seq::<RadosPoolRowView>::empty(), slower_pool()) is None);
    while i < rows.len()
        invariant
            1 <= i <= rows@.len(),
            all == pool_row_views(rows@),
            tally::last_greatest(all.take(i as int), slower_pool()) == Some(best@),
        decreases rows@.len() - i,
    {
        assert(all.take(i + 1).drop_last() =~= all.take(i as int));
        let row = &rows[i];
        if !(best.max_us > row.max_us) {
            best = row;
        }
        i = i + 1;
    }
    assert(all.take(all.len() as int) =~= all);
    best
}

/// What radostrace shows.
pub fn rados_insights(events: &[RadosEvent]) -> (out: Vec<Insight>)
    ensures
        insight_views(out@) == rados_trace(radostrace::views(events@)),
{
    let ghost seen = radostrace::views(events@);
    let mut insights: Vec<Insight> = Vec::new();
    assert(insight_views(insights@) =~= none());
    let rows = rados_pool_rows(events);
    let ghost views = pool_row_views(rows@);
    assert(views =~= radostrace::pool_rows(seen));
    if rows.len() == 0 {
        return insights;
    }
    let worst = worst_pool(rows.as_slice());
    let mut counts: Vec<u64> = Vec::new();
    let mut i: usize = 0;
    while i < rows.len()
        invariant
            i <= rows@.len(),
            views == pool_row_views(rows@),
            counts@ == pool_counts(views).take(i as int),
        decreases rows@.len() - i,
    {
        counts.push(rows[i].count);
        i = i + 1;
        assert(counts@ =~= pool_counts(views).take(i as int));
    }
    assert(counts@ =~= pool_counts(views));
    proof {
        assert(seen.len() == events.len());
        radostrace::law_pool_rows_count_every_op(seen);
        tally::lemma_total_is_sum(views, |r: RadosPoolRowView| r.count);
        assert((|r: RadosPoolRowView| (|r: RadosPoolRowView| r.count)(r) as nat) =~= (
        |r: RadosPoolRowView| r.count as nat));
    }
    let total: u64 = tally::sum(counts.as_slice());
    let mut message = "radostrace: ".to_owned();
    message.append(text::u64_text(total).as_str());
    message.append(" client ops; pool ");
    message.append(worst.pool.as_str());
    message.append(" max ");
    message.append(format_latency_us(worst.max_us).as_str());
    message.append(" avg ");
    message.append(format_latency_us(worst.avg_us).as_str());
    message.append(" (");
    message.append(text::u64_text(worst.writes).as_str());
    message.append("W/");
    message.append(text::u64_text(worst.reads).as_str());
    message.append("R)");
    push_insight(&mut insights, insight_level_for_latency(worst.max_us), message);
    assert(insight_views(insights@) =~= rados_trace(seen));
    insights
}

/// The largest latencies that the clients and the OSDs saw, side by side.
pub open spec fn cross_source(rows: Seq<TraceGraphRow>, events: Seq<RadosEventView>) -> Option<
    InsightView,
> {
    let client = tally::largest(pool_maxima(radostrace::pool_rows(events)));
    let server = tally::largest(row_maxima(rows));
    if client == 0 || server == 0 {
        None
    } else {
        Some(
            InsightView {
                level: InsightLevel::Info,
                text: "cross-source maxima (not time/PG correlated): rados client "@ + latency_text(
                    client,
                ) + ", osd server "@ + latency_text(server)
                    + "; verify raw traces before attribution"@,
            },
        )
    }
}

/// The largest latencies that the clients and the OSDs saw, side by side.
pub fn cross_source_insight(osd_active: &[&TraceGraphRow], rados_events: &[RadosEvent]) -> (out:
    Option<Insight>)
    ensures
        match out {
            Some(insight) => cross_source(
                targets(osd_active@),
                radostrace::views(rados_events@),
            ) == Some(insight@),
            None => cross_source(
                targets(osd_active@),
                radostrace::views(rados_events@),
            ) is None,
        },
{
    let rados = rados_pool_rows(rados_events);
    let ghost views = pool_row_views(rados@);
    assert(views =~= radostrace::pool_rows(radostrace::views(rados_events@)));
    let mut maxima: Vec<u64> = Vec::new();
    let mut i: usize = 0;
    while i < rados.len()
        invariant
            i <= rados@.len(),
            views == pool_row_views(rados@),
            maxima@ == pool_maxima(views).take(i as int),
        decreases rados@.len() - i,
    {
        maxima.push(rados[i].max_us);
        i = i + 1;
        assert(maxima@ =~= pool_maxima(views).take(i as int));
    }
    assert(maxima@ =~= pool_maxima(views));
    let client_max: u64 = tally::greatest(maxima.as_slice());
    let server_max: u64 = tally::greatest(maxima_of(osd_active).as_slice());
    if client_max == 0 || server_max == 0 {
        return None;
    }
    let mut message = "cross-source maxima (not time/PG correlated): rados client ".to_owned();
    message.append(format_latency_us(client_max).as_str());
    message.append(", osd server ");
    message.append(format_latency_us(server_max).as_str());
    message.append("; verify raw traces before attribution");
    Some(Insight { level: InsightLevel::Info, text: message })
}

/// What a diagnosis starts from.
pub struct DiagnoseInput<'a> {
    pub snapshot: Option<&'a Snapshot>,
    pub admin_host: &'a str,
    pub node_summaries: &'a NodeTable,
    pub stream_counts: Option<(usize, usize)>,
    pub trace_window_secs: u64,
    pub trace_events: &'a [TraceEvent],
    pub trace_rows: &'a [TraceGraphRow],
    /// The ops that kfstrace saw, by kind.
    pub kfs_rows: &'a [KfsOpRow],
    /// kfstrace saw no op.
    pub kfs_idle: bool,
    pub rados_events: &'a [RadosEvent],
    pub idle_message: Option<&'a str>,
}

/// Picks the rows with ops.
pub open spec fn is_active() -> spec_fn(TraceGraphRow) -> bool {
    |r: TraceGraphRow| r.ops > 0
}

pub open spec fn health_insight(snapshot: Snapshot, admin_host: Seq<char>) -> Seq<InsightView> {
    let health = snapshot.cluster.health@;
    let checks = snapshot.cluster.health_checks@;
    if health == "HEALTH_OK"@ {
        none()
    } else {
        one(
            if health == "HEALTH_WARN"@ {
                InsightLevel::Warn
            } else {
                InsightLevel::Bad
            },
            if checks.len() == 0 {
                "cluster health "@ + health + "; run ceph health detail on "@ + admin_host
            } else {
                "cluster health "@ + health + ": "@ + checks_text(checks)
            },
        )
    }
}

pub open spec fn pg_states_insight(snapshot: Snapshot) -> Seq<InsightView> {
    if snapshot.abnormal_pgs@.len() == 0 && !text::has(
        snapshot.cluster.pg_states@,
        "active+clean"@,
    ) {
        one(
            InsightLevel::Warn,
            "PG state "@ + snapshot.cluster.pg_states@
                + "; trace latency may include recovery/peering"@,
        )
    } else {
        none()
    }
}

/// What the snapshot shows, or that there is none yet.
pub open spec fn snapshot_insights(snapshot: Option<&Snapshot>, admin_host: Seq<char>) -> Seq<
    InsightView,
> {
    match snapshot {
        Some(snapshot) => health_insight(*snapshot, admin_host) + cluster_evidence(*snapshot)
            + pg_states_insight(*snapshot),
        None => one(InsightLevel::Info, "waiting for first cluster snapshot"@),
    }
}

pub open spec fn stream_insight(counts: Option<(usize, usize)>) -> Seq<InsightView> {
    match counts {
        Some((live, total)) => if live < total {
            one(
                InsightLevel::Warn,
                "ssh streams "@ + text::decimal(live as nat) + "/"@ + text::decimal(total as nat)
                    + " live; check hosts marked retry/error"@,
            )
        } else {
            none()
        },
        None => none(),
    }
}

pub open spec fn is_error() -> spec_fn(TraceEvent) -> bool {
    |e: TraceEvent| e.op@ == "error"@
}

/// The last error that a tracer reported.
pub open spec fn error_insight(events: Seq<TraceEvent>) -> Seq<InsightView> {
    match tally::last_where(events, is_error()) {
        Some(error) => one(
            InsightLevel::Bad,
            "trace error on "@ + error.host@ + ": "@ + util::shortened(error.raw@, 72),
        ),
        None => none(),
    }
}

pub open spec fn idle_insight(idle: bool, message: Option<&str>) -> Seq<InsightView> {
    match message {
        Some(message) => if idle {
            one(InsightLevel::Info, message@)
        } else {
            none()
        },
        None => none(),
    }
}

/// Everything that the input shows, from the cluster down to the traces.
pub open spec fn diagnosis(input: DiagnoseInput<'_>) -> Seq<InsightView> {
    let nodes = input.node_summaries.nodes();
    let active = input.trace_rows@.filter(is_active());
    let events = radostrace::views(input.rados_events@);
    snapshot_insights(input.snapshot, input.admin_host@) + stream_insight(input.stream_counts)
        + io_limits(nodes) + error_insight(input.trace_events@) + osd_trace(
        *input.node_summaries,
        active,
        input.trace_window_secs,
    ) + node_pressure(nodes) + kfs_trace(input.kfs_rows@) + rados_trace(events) + match cross_source(
        active,
        events,
    ) {
        Some(insight) => seq![insight],
        None => none(),
    } + idle_insight(
        active.len() == 0 && input.kfs_idle && events.len() == 0,
        input.idle_message,
    )
}

fn from_snapshot(snapshot: Option<&Snapshot>, admin_host: &str) -> (out: Vec<Insight>)
    ensures
        insight_views(out@) == snapshot_insights(snapshot, admin_host@),
{
    let mut insights: Vec<Insight> = Vec::new();
    assert(insight_views(insights@) =~= none());
    if let Some(snapshot) = snapshot {
        if !text::same_text(snapshot.cluster.health.as_str(), "HEALTH_OK") {
            let level = if text::same_text(snapshot.cluster.health.as_str(), "HEALTH_WARN") {
                InsightLevel::Warn
            } else {
                InsightLevel::Bad
            };
            let mut message = "cluster health ".to_owned();
            message.append(snapshot.cluster.health.as_str());
            if snapshot.cluster.health_checks.len() == 0 {
                message.append("; run ceph health detail on ");
                message.append(admin_host);
            } else {
                message.append(": ");
                message.append(
                    health_check_summary(snapshot.cluster.health_checks.as_slice()).as_str(),
                );
            }
            push_insight(&mut insights, level, message);
        }
        let ghost health = health_insight(*snapshot, admin_host@);
        assert(insight_views(insights@) =~= health);
        add_insights(&mut insights, cluster_evidence_insights(snapshot));
        let ghost upto = health + cluster_evidence(*snapshot);
        if snapshot.abnormal_pgs.len() == 0 && !text::text_has(
            snapshot.cluster.pg_states.as_str(),
            "active+clean",
        ) {
            let mut message = "PG state ".to_owned();
            message.append(snapshot.cluster.pg_states.as_str());
            message.append("; trace latency may include recovery/peering");
            push_insight(&mut insights, InsightLevel::Warn, message);
        }
        assert(insight_views(insights@) =~= upto + pg_states_insight(*snapshot));
    } else {
        push_insight(
            &mut insights,
            InsightLevel::Info,
            "waiting for first cluster snapshot".to_owned(),
        );
        assert(insight_views(insights@) =~= snapshot_insights(snapshot, admin_host@));
    }
    insights
}

fn push_streams(insights: &mut Vec<Insight>, counts: Option<(usize, usize)>)
    ensures
        insight_views(final(insights)@) == insight_views(old(insights)@) + stream_insight(counts),
{
    let ghost before = insight_views(insights@);
    if let Some((live_streams, total_streams)) = counts {
        if total_streams > 0 && live_streams < total_streams {
            let mut message = "ssh streams ".to_owned();
            message.append(text::u64_text(live_streams as u64).as_str());
            message.append("/");
            message.append(text::u64_text(total_streams as u64).as_str());
            message.append(" live; check hosts marked retry/error");
            push_insight(insights, InsightLevel::Warn, message);
        }
    }
    assert(insight_views(insights@) =~= before + stream_insight(counts));
}

fn push_error(insights: &mut Vec<Insight>, events: &[TraceEvent])
    ensures
        insight_views(final(insights)@) == insight_views(old(insights)@) + error_insight(events@),
{
    let mut n: usize = events.len();
    assert(events@.take(n as int) =~= events@);
    while n > 0
        invariant
            n <= events@.len(),
            insights@ == old(insights)@,
            tally::last_where(events@, is_error()) == tally::last_where(
                events@.take(n as int),
                is_error(),
            ),
        decreases n,
    {
        let event = &events[n - 1];
        assert(events@.take(n as int).last() == *event);
        assert(events@.take(n as int).drop_last() =~= events@.take(n - 1));
        if text::same_text(event.op.as_str(), "error") {
            let mut message = "trace error on ".to_owned();
            message.append(event.host.as_str());
            message.append(": ");
            message.append(short(event.raw.as_str(), 72).as_str());
            push_insight(insights, InsightLevel::Bad, message);
            return ;
        }
        n = n - 1;
    }
    assert(insight_views(insights@) =~= insight_views(insights@) + none());
}

fn active_of(rows: &[TraceGraphRow]) -> (out: Vec<&TraceGraphRow>)
    ensures
        targets(out@) == rows@.filter(is_active()),
{
    let mut out: Vec<&TraceGraphRow> = Vec::new();
    let mut i: usize = 0;
    assert(targets(out@) =~= rows@.take(0).filter(is_active())) by {
        reveal(Seq::filter);
    }
    while i < rows.len()
        invariant
            i <= rows@.len(),
            targets(out@) == rows@.take(i as int).filter(is_active()),
        decreases rows@.len() - i,
    {
        let row = &rows[i];
        let ghost before = targets(out@);
        proof {
            assert(rows@.take(i + 1) =~= rows@.take(i as int).push(*row));
            tally::lemma_filter_push(rows@.take(i as int), *row, is_active());
        }
        if row.ops > 0 {
            out.push(row);
            assert(targets(out@) =~= before.push(*row));
        }
        i = i + 1;
    }
    assert(rows@.take(rows@.len() as int) =~= rows@);
    out
}

/// Everything that the input shows, from the cluster down to the traces.
pub fn diagnose(input: DiagnoseInput<'_>) -> (out: Vec<Insight>)
    requires
        tally::total(row_ops(input.trace_rows@.filter(is_active()))) <= u64::MAX,
        tally::total(kfs_counts(input.kfs_rows@)) <= u64::MAX,
        tally::total(kfs_unsafe_counts(input.kfs_rows@)) <= u64::MAX,
    ensures
        insight_views(out@) == diagnosis(input),
{
    let mut insights = from_snapshot(input.snapshot, input.admin_host);
    push_streams(&mut insights, input.stream_counts);
    add_insights(&mut insights, io_limit_insights(input.node_summaries));
    push_error(&mut insights, input.trace_events);
    let active_rows = active_of(input.trace_rows);
    let ghost active = input.trace_rows@.filter(is_active());
    let ghost before = insight_views(insights@);
    if active_rows.len() > 0 {
        add_insights(
            &mut insights,
            osd_trace_insights(
                input.node_summaries,
                active_rows.as_slice(),
                input.trace_window_secs,
            ),
        );
    } else {
        assert(tally::last_greatest(active, slower()) is None);
    }
    assert(insight_views(insights@) =~= before + osd_trace(
        *input.node_summaries,
        active,
        input.trace_window_secs,
    ));
    add_insights(&mut insights, node_pressure_insights(input.node_summaries));
    add_insights(&mut insights, kfs_insights(input.kfs_rows));
    add_insights(&mut insights, rados_insights(input.rados_events));
    let ghost upto = insight_views(insights@);
    let ghost cross = cross_source(active, radostrace::views(input.rados_events@));
    if let Some(insight) = cross_source_insight(active_rows.as_slice(), input.rados_events) {
        let ghost shown = insight@;
        insights.push(insight);
        assert(insight_views(insights@) =~= upto + seq![shown]);
    } else {
        assert(insight_views(insights@) =~= upto + none());
    }
    let ghost upto_cross = insight_views(insights@);
    if active_rows.len() == 0 && input.kfs_idle && input.rados_events.len() == 0 {
        if let Some(message) = input.idle_message {
            push_insight(&mut insights, InsightLevel::Info, message.to_owned());
        }
    }
    assert(insight_views(insights@) =~= upto_cross + idle_insight(
        active.len() == 0 && input.kfs_idle && input.rados_events@.len() == 0,
        input.idle_message,
    ));
    insights
}

/// How serious a level is.
pub open spec fn severity(level: InsightLevel) -> nat {
    match level {
        InsightLevel::Info => 0,
        InsightLevel::Okay => 1,
        InsightLevel::Warn => 2,
        InsightLevel::Bad => 3,
    }
}

/// A longer latency is never judged milder.
pub proof fn law_longer_latency_is_not_milder(a: u64, b: u64)
    requires
        a <= b,
    ensures
        severity(latency_level(a)) <= severity(latency_level(b)),
{
}

/// The verdict does not favour a side: swapping the waits swaps the verdict. The
/// two largest waits that can be counted are left out, which both lead.
pub proof fn law_verdict_is_even_handed(queue_us: u64, recv_us: u64)
    requires
        !(queue_us == u64::MAX && recv_us == u64::MAX),
    ensures
        verdict(queue_us, recv_us) == "queue is at least 2x recv; OSD queue delay likely"@ <==> verdict(
            recv_us,
            queue_us,
        ) == "recv is at least 2x queue; network receive delay likely"@,
        verdict(queue_us, recv_us) == "no clear queue/recv lead"@ <==> verdict(recv_us, queue_us)
            == "no clear queue/recv lead"@,
{
    reveal_strlit("queue is at least 2x recv; OSD queue delay likely");
    reveal_strlit("recv is at least 2x queue; network receive delay likely");
    reveal_strlit("no clear queue/recv lead");
    assert("queue is at least 2x recv; OSD queue delay likely"@[0] == 'q');
    assert("recv is at least 2x queue; network receive delay likely"@[0] == 'r');
    assert("no clear queue/recv lead"@[0] == 'n');
}

/// A snapshot of a healthy cluster, with no abnormal placement group, no pool
/// short of domains, no full OSD and no recovery, shows nothing.
pub proof fn law_quiet_snapshot_shows_nothing(snapshot: Snapshot, admin_host: Seq<char>)
    requires
        snapshot.cluster.health@ == "HEALTH_OK"@,
        text::has(snapshot.cluster.pg_states@, "active+clean"@),
        snapshot.abnormal_pgs@.len() == 0,
        snapshot.cluster.recovering_bytes_sec == 0,
        full_fault(snapshot) == none(),
        forall|i: int|
            0 <= i < snapshot.pools@.len() ==> pool_fault(#[trigger] snapshot.pools@[i]) is None,
    ensures
        snapshot_insights(Some(&snapshot), admin_host) == none(),
{
    lemma_no_pool_faults(snapshot.pools@);
    assert(snapshot_insights(Some(&snapshot), admin_host) =~= none());
}

proof fn lemma_no_pool_faults(pools: Seq<PoolSummary>)
    requires
        forall|i: int| 0 <= i < pools.len() ==> pool_fault(#[trigger] pools[i]) is None,
    ensures
        pool_faults(pools) == none(),
    decreases pools.len(),
{
    if pools.len() > 0 {
        let rest = pools.drop_last();
        assert forall|i: int| 0 <= i < rest.len() implies pool_fault(
            #[trigger] rest[i],
        ) is None by {
            assert(rest[i] == pools[i]);
        }
        lemma_no_pool_faults(rest);
        assert(pool_fault(pools[pools.len() - 1]) is None);
    }
}

/// At most two hosts are named for stalling, and all that stall where they are
/// no more.
pub proof fn law_pressure_names_at_most_two_hosts(nodes: Seq<NodeSummary>)
    ensures
        node_pressure(nodes).len() <= 2,
        nodes.filter(is_stalled()).len() <= 2 ==> node_pressure(nodes).len() == nodes.filter(
            is_stalled(),
        ).len(),
{
    order::law_sorted_by_orders_the_same_entries(nodes.filter(is_stalled()), more_stalled());
}

/// A latency from a millisecond on shows in milliseconds, rounded to the nearest
/// tenth, where it does not lie in the middle of two tenths.
pub proof fn law_latency_shows_in_tenths(value: u64)
    requires
        1000 <= value < double::BINADE,
        value % 100 != 50,
    ensures
        latency_text(value) == double::point_text(((value + 50) / 100) as nat, 1) + "ms"@,
{
    double::law_thousandths_show_as_tenths(value);
}

/// A number of bytes shows in the largest unit that it fills, rounded to the
/// nearest tenth, to the even one in the middle.
pub proof fn law_bytes_show_in_tenths(bytes: u64)
    requires
        bytes < double::BINADE,
    ensures
        bytes_text(bytes) == if bytes >= 0x10_0000 {
            double::point_text(double::round_even(10 * bytes as nat, 0x10_0000), 1) + " MiB"@
        } else if bytes >= 0x400 {
            double::point_text(double::round_even(10 * bytes as nat, 0x400), 1) + " KiB"@
        } else {
            text::decimal(bytes as nat) + " B"@
        },
{
    vstd::arithmetic::power2::lemma2_to64();
    if bytes >= 0x10_0000 {
        double::law_binary_quotients_show_exactly(bytes, 20);
    } else if bytes >= 0x400 {
        double::law_binary_quotients_show_exactly(bytes, 10);
    }
}

} // verus!
