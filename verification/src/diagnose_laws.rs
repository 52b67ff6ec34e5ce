//! What the insights say of what was collected and traced.

use crate::diagnose;
use crate::diagnose::{InsightLevel, InsightView};
use crate::double;
use crate::double::Double;
use crate::model;
use crate::model::{NodeSummary, NodeTable};
use crate::tally;
use crate::text;
use crate::trace::TraceGraphRow;
use vstd::arithmetic::power2;
use vstd::prelude::*;

verus! {

/// How bad a latency is: from 100ms on it is bad, from 10ms on it warns, and
/// anything that was measured at all is fine.
pub open spec fn told_level(latency_us: u64) -> InsightLevel {
    if latency_us == 0 {
        InsightLevel::Info
    } else if latency_us < 10_000 {
        InsightLevel::Okay
    } else if latency_us < 100_000 {
        InsightLevel::Warn
    } else {
        InsightLevel::Bad
    }
}

/// A latency is bad from 100ms on, warns from 10ms on, is fine below, and is mere
/// information where there is none.
pub proof fn law_latency_levels_follow_the_limits(latency_us: u64)
    ensures
        diagnose::latency_level(latency_us) == told_level(latency_us),
{
}

/// Latencies below a millisecond show in microseconds, and none shows as a dash.
pub proof fn law_short_latencies_show_in_microseconds(value: u64)
    requires
        value < 1000,
    ensures
        value == 0 ==> diagnose::latency_text(value) == "-"@,
        value > 0 ==> diagnose::latency_text(value) == text::decimal(value as nat) + "us"@,
{
}

/// The queue leads where it took 10ms or more and at least twice as long as
/// receiving, receiving leads where that is so the other way round, and otherwise
/// neither does.
pub proof fn law_verdict_names_who_took_twice_as_long(queue_us: u64, recv_us: u64)
    ensures
        ({
            let queue_leads = queue_us >= 10_000 && (queue_us >= 2 * recv_us || queue_us
                == u64::MAX);
            let recv_leads = recv_us >= 10_000 && (recv_us >= 2 * queue_us || recv_us == u64::MAX);
            let told = diagnose::verdict(queue_us, recv_us);
            &&& queue_leads ==> told == "queue is at least 2x recv; OSD queue delay likely"@
            &&& !queue_leads && recv_leads ==> told
                == "recv is at least 2x queue; network receive delay likely"@
            &&& !queue_leads && !recv_leads ==> told == "no clear queue/recv lead"@
        }),
{
}

/// The number is at least `percent`.
pub open spec fn is_percent(x: Double, percent: nat) -> bool {
    !x.is_nan() && x.value() >= percent * power2::pow2(1074)
}

pub proof fn lemma_percents(x: Double)
    ensures
        double::at_least(x, Double { bits: 0x4014_0000_0000_0000 }) <==> is_percent(x, 5),
        double::at_least(x, Double { bits: 0x4034_0000_0000_0000 }) <==> is_percent(x, 20),
        double::at_least(x, Double { bits: 0x4055_4000_0000_0000 }) <==> is_percent(x, 85),
{
    let (five, twenty, most) = (
        Double { bits: 0x4014_0000_0000_0000 },
        Double { bits: 0x4034_0000_0000_0000 },
        Double { bits: 0x4055_4000_0000_0000 },
    );
    vstd::arithmetic::power2::lemma2_to64();
    vstd::arithmetic::power2::lemma2_to64_rest();
    power2::lemma_pow2_adds(50, 1024);
    power2::lemma_pow2_adds(48, 1026);
    power2::lemma_pow2_adds(46, 1028);
    power2::lemma_pow2_adds(2, 1024);
    let all = power2::pow2(1074);
    assert(five.size() == 0x4014_0000_0000_0000u64);
    assert(twenty.size() == 0x4034_0000_0000_0000u64);
    assert(most.size() == 0x4055_4000_0000_0000u64);
    assert(double::units(five.size() as nat) == 0x14_0000_0000_0000nat * power2::pow2(1024));
    assert(double::units(twenty.size() as nat) == 0x14_0000_0000_0000nat * power2::pow2(1026));
    assert(double::units(most.size() as nat) == 0x15_4000_0000_0000nat * power2::pow2(1028));
    assert(0x14_0000_0000_0000nat * power2::pow2(1024) == 5 * all) by (nonlinear_arith)
        requires
            all == power2::pow2(50) * power2::pow2(1024),
            power2::pow2(50) == 0x4_0000_0000_0000,
    ;
    assert(0x14_0000_0000_0000nat * power2::pow2(1026) == 20 * all) by (nonlinear_arith)
        requires
            all == power2::pow2(48) * power2::pow2(1026),
            power2::pow2(48) == 0x1_0000_0000_0000,
    ;
    assert(0x15_4000_0000_0000nat * power2::pow2(1028) == 85 * all) by (nonlinear_arith)
        requires
            all == power2::pow2(46) * power2::pow2(1028),
            power2::pow2(46) == 0x4000_0000_0000,
    ;
}

/// The row at `w` is the worst: it has the longest latency, among those the most
/// ops, and among those it is the last.
pub open spec fn is_worst(rows: Seq<TraceGraphRow>, w: int) -> bool {
    &&& 0 <= w < rows.len()
    &&& forall|i: int|
        0 <= i < w ==> (#[trigger] rows[i]).max_us < rows[w].max_us || (rows[i].max_us
            == rows[w].max_us && rows[i].ops <= rows[w].ops)
    &&& forall|i: int|
        w < i < rows.len() ==> (#[trigger] rows[i]).max_us < rows[w].max_us || (rows[i].max_us
            == rows[w].max_us && rows[i].ops < rows[w].ops)
}

proof fn lemma_worst(rows: Seq<TraceGraphRow>, w: int)
    requires
        is_worst(rows, w),
    ensures
        tally::last_greatest(rows, diagnose::slower()) == Some(rows[w]),
{
    let above = diagnose::slower();
    assert forall|i: int| 0 <= i < w implies !above(#[trigger] rows[i], rows[w]) by {}
    assert forall|i: int| w < i < rows.len() implies above(rows[w], #[trigger] rows[i]) by {}
    tally::law_last_greatest_is_above_the_others(rows, above, w);
}

/// There is a worst row where there are rows.
proof fn lemma_worst_exists(rows: Seq<TraceGraphRow>) -> (w: int)
    requires
        rows.len() > 0,
    ensures
        is_worst(rows, w),
    decreases rows.len(),
{
    let last = rows.len() - 1;
    if last == 0 {
        0
    } else {
        let rest = rows.drop_last();
        let w = lemma_worst_exists(rest);
        assert forall|i: int| 0 <= i < last implies #[trigger] rest[i] == rows[i] by {}
        if rows[last].max_us > rows[w].max_us || (rows[last].max_us == rows[w].max_us
            && rows[last].ops >= rows[w].ops) {
            assert forall|i: int| 0 <= i < last implies (#[trigger] rows[i]).max_us
                < rows[last].max_us || (rows[i].max_us == rows[last].max_us && rows[i].ops
                <= rows[last].ops) by {
                assert(rest[i] == rows[i]);
                assert(rest[w] == rows[w]);
            }
            last
        } else {
            assert forall|i: int| 0 <= i < w implies (#[trigger] rows[i]).max_us < rows[w].max_us
                || (rows[i].max_us == rows[w].max_us && rows[i].ops <= rows[w].ops) by {
                assert(rest[i] == rows[i]);
            }
            assert forall|i: int| w < i < rows.len() implies (#[trigger] rows[i]).max_us
                < rows[w].max_us || (rows[i].max_us == rows[w].max_us && rows[i].ops
                < rows[w].ops) by {
                if i < last {
                    assert(rest[i] == rows[i]);
                }
            }
            w
        }
    }
}

/// The insights open with the window: how long it was, how many ops were seen on
/// how many OSDs, and which OSD was the worst. How bad that is follows from the
/// longest latency of that OSD. Nothing is told where no OSD was active.
pub proof fn law_window_names_the_worst_osd(
    table: NodeTable,
    rows: Seq<TraceGraphRow>,
    window_secs: u64,
    w: int,
)
    requires
        is_worst(rows, w),
    ensures
        diagnose::osd_trace(table, Seq::empty(), window_secs).len() == 0,
        diagnose::osd_trace(table, rows, window_secs).len() > 0,
        diagnose::osd_trace(table, rows, window_secs)[0] == (InsightView {
            level: told_level(rows[w].max_us),
            text: "last "@ + text::decimal(
                if window_secs == 0 {
                    1
                } else {
                    window_secs as nat
                },
            ) + "s: "@ + text::decimal(tally::total(rows.map_values(|r: TraceGraphRow| r.ops)))
                + " ops on "@ + text::decimal(rows.len()) + " OSDs; worst "@ + rows[w].osd@
                + " max "@ + diagnose::latency_text(rows[w].max_us) + " avg "@
                + diagnose::latency_text(rows[w].avg_us),
        }),
{
    lemma_worst(rows, w);
    assert(diagnose::row_ops(rows) =~= rows.map_values(|r: TraceGraphRow| r.ops));
}

/// The comparison of queue and receive time follows the window, exactly where the
/// worst OSD has either of them: it gives both, and who took longer.
pub proof fn law_comparison_follows_the_window(
    table: NodeTable,
    rows: Seq<TraceGraphRow>,
    window_secs: u64,
    w: int,
)
    requires
        is_worst(rows, w),
        rows[w].queue_max_us > 0 || rows[w].recv_max_us > 0,
    ensures
        ({
            let shown = diagnose::osd_trace(table, rows, window_secs);
            let (queue, recv) = (rows[w].queue_max_us, rows[w].recv_max_us);
            &&& shown.len() > 1
            &&& shown[1].level == told_level(
                if queue > recv {
                    queue
                } else {
                    recv
                },
            )
            &&& shown[1].text == "compare "@ + rows[w].osd@ + " / "@ + rows[w].host@ + ": queue "@
                + diagnose::latency_text(queue) + " · recv "@ + diagnose::latency_text(recv)
                + " → "@ + diagnose::verdict(queue, recv)
        }),
{
    lemma_worst(rows, w);
}

/// Whether there is something to tell, as a number of insights.
pub open spec fn once(yes: bool) -> nat {
    if yes {
        1
    } else {
        0
    }
}

/// How many insights the trace of the OSDs gives: the window; the comparison where
/// the worst OSD queued or received; its largest component, or that none is known
/// of an op that took 10ms or more; its busiest placement group, where one is
/// known; its host, where that uses 85% or more of its CPU or memory; and either
/// that two OSDs or more took 10ms, or that none did.
pub proof fn law_trace_tells_no_more_than_it_saw(
    table: NodeTable,
    rows: Seq<TraceGraphRow>,
    window_secs: u64,
    w: int,
)
    requires
        is_worst(rows, w),
    ensures
        ({
            let worst = rows[w];
            let node = diagnose::known_node(table, worst.host@);
            let slow = rows.filter(|r: TraceGraphRow| r.max_us >= 10_000).len();
            diagnose::osd_trace(table, rows, window_secs).len() == 1 + once(
                worst.queue_max_us > 0 || worst.recv_max_us > 0,
            ) + once(worst.dominant.value_us > 0 || worst.max_us >= 10_000) + once(
                worst.hot_pg@ != "-"@,
            ) + once(
                node is Some && (is_percent(node->0.cpu_percent, 85) || is_percent(
                    node->0.mem_percent,
                    85,
                )),
            ) + once(slow != 1)
        }),
{
    lemma_worst(rows, w);
    let worst = rows[w];
    let node = diagnose::known_node(table, worst.host@);
    if node is Some {
        lemma_percents(node->0.cpu_percent);
        lemma_percents(node->0.mem_percent);
    }
    lemma_slow(rows, w);
}

proof fn lemma_slow(rows: Seq<TraceGraphRow>, w: int)
    requires
        is_worst(rows, w),
    ensures
        ({
            let slow = rows.filter(|r: TraceGraphRow| r.max_us >= 10_000).len();
            &&& rows.filter(diagnose::is_slow()).len() == slow
            &&& slow == 0 <==> rows[w].max_us < 10_000
            &&& slow == 0 <==> forall|i: int|
                0 <= i < rows.len() ==> (#[trigger] rows[i]).max_us < 10_000
        }),
{
    let keep = |r: TraceGraphRow| r.max_us >= 10_000;
    assert(diagnose::is_slow() =~= keep);
    let slow = rows.filter(keep);
    if rows[w].max_us >= 10_000 {
        rows.lemma_filter_contains(keep, w);
    }
    if slow.len() > 0 {
        rows.lemma_filter_pred(keep, 0);
        rows.lemma_filter_contains_rev(keep, slow[0]);
        let i = choose|i: int| 0 <= i < rows.len() && rows[i] == slow[0];
        assert(rows[i].max_us >= 10_000);
        assert(rows[i].max_us <= rows[w].max_us) by {
            if i < w {
                assert(rows[i].max_us <= rows[w].max_us);
            } else if i > w {
                assert(rows[i].max_us <= rows[w].max_us);
            }
        }
    } else {
        assert forall|i: int| 0 <= i < rows.len() implies (#[trigger] rows[i]).max_us < 10_000 by {
            if keep(rows[i]) {
                rows.lemma_filter_contains(keep, i);
            }
        }
    }
}

pub proof fn lemma_among_both<T>(a: Seq<T>, b: Seq<T>, x: T)
    ensures
        (a + b).contains(x) <==> a.contains(x) || b.contains(x),
{
    let both = a + b;
    if a.contains(x) {
        let i = choose|i: int| 0 <= i < a.len() && a[i] == x;
        assert(both[i] == x);
    }
    if b.contains(x) {
        let i = choose|i: int| 0 <= i < b.len() && b[i] == x;
        assert(both[a.len() + i] == x);
    }
    if both.contains(x) {
        let i = choose|i: int| 0 <= i < both.len() && both[i] == x;
        if i < a.len() {
            assert(a[i] == x);
        } else {
            assert(b[i - a.len()] == x);
        }
    }
}

proof fn lemma_trace_parts(
    table: NodeTable,
    rows: Seq<TraceGraphRow>,
    window_secs: u64,
    w: int,
    x: InsightView,
)
    requires
        is_worst(rows, w),
    ensures
        diagnose::osd_trace(table, rows, window_secs).contains(x) <==> {
            ||| diagnose::window_insight(rows, rows[w], window_secs).contains(x)
            ||| diagnose::compare_insight(rows[w]).contains(x)
            ||| diagnose::component_insight(rows[w]).contains(x)
            ||| diagnose::hot_pg_insight(rows[w]).contains(x)
            ||| diagnose::load_insight(table, rows[w]).contains(x)
            ||| diagnose::spread_insight(rows, rows[w]).contains(x)
        },
{
    lemma_worst(rows, w);
    let worst = rows[w];
    let a = diagnose::window_insight(rows, worst, window_secs);
    let b = diagnose::compare_insight(worst);
    let c = diagnose::component_insight(worst);
    let d = diagnose::hot_pg_insight(worst);
    let e = diagnose::load_insight(table, worst);
    let f = diagnose::spread_insight(rows, worst);
    lemma_among_both(a, b, x);
    lemma_among_both(a + b, c, x);
    lemma_among_both(a + b + c, d, x);
    lemma_among_both(a + b + c + d, e, x);
    lemma_among_both(a + b + c + d + e, f, x);
}

/// The largest component of the worst OSD is told where one is known, with what it
/// points at. Where none is, but the op took 10ms or more, that is told.
pub proof fn law_component_of_the_worst_is_told(
    table: NodeTable,
    rows: Seq<TraceGraphRow>,
    window_secs: u64,
    w: int,
)
    requires
        is_worst(rows, w),
    ensures
        ({
            let shown = diagnose::osd_trace(table, rows, window_secs);
            let part = rows[w].dominant;
            &&& part.value_us > 0 ==> shown.contains(
                InsightView {
                    level: told_level(part.value_us),
                    text: "largest observed component "@ + part.name@ + " "@
                        + diagnose::latency_text(part.value_us) + "; possible area "@
                        + part.suspect@ + "; maxima may be from different ops"@,
                },
            )
            &&& part.value_us == 0 && rows[w].max_us >= 10_000 ==> shown.contains(
                InsightView {
                    level: InsightLevel::Warn,
                    text:
                        "slow op seen, but parsed queue/store/network components are empty; inspect raw osdtrace"@,
                },
            )
        }),
{
    let told = diagnose::component_insight(rows[w]);
    if told.len() > 0 {
        assert(told.contains(told[0]));
        lemma_trace_parts(table, rows, window_secs, w, told[0]);
    }
}

/// The busiest placement group of the worst OSD is told where one is known.
pub proof fn law_hot_pg_of_the_worst_is_told(
    table: NodeTable,
    rows: Seq<TraceGraphRow>,
    window_secs: u64,
    w: int,
)
    requires
        is_worst(rows, w),
        rows[w].hot_pg@ != "-"@,
    ensures
        diagnose::osd_trace(table, rows, window_secs).contains(
            InsightView {
                level: InsightLevel::Info,
                text: "busiest PG on "@ + rows[w].osd@ + ": "@ + rows[w].hot_pg@
                    + "; compare acting set if it stays busy"@,
            },
        ),
{
    let told = diagnose::hot_pg_insight(rows[w]);
    assert(told.contains(told[0]));
    lemma_trace_parts(table, rows, window_secs, w, told[0]);
}

/// The host of the worst OSD is told as bad where it uses 85% or more of its CPU,
/// and warned of where it uses that much of its memory and not of its CPU.
pub proof fn law_busy_host_of_the_worst_is_told(
    table: NodeTable,
    rows: Seq<TraceGraphRow>,
    window_secs: u64,
    w: int,
)
    requires
        is_worst(rows, w),
        diagnose::known_node(table, rows[w].host@) is Some,
    ensures
        ({
            let shown = diagnose::osd_trace(table, rows, window_secs);
            let node = diagnose::known_node(table, rows[w].host@)->0;
            &&& is_percent(node.cpu_percent, 85) ==> shown.contains(
                InsightView {
                    level: InsightLevel::Bad,
                    text: rows[w].host@ + " CPU "@ + double::fixed_text(node.cpu_percent, 1)
                        + "%; queue latency may include OSD worker/scheduler pressure"@,
                },
            )
            &&& !is_percent(node.cpu_percent, 85) && is_percent(node.mem_percent, 85)
                ==> shown.contains(
                InsightView {
                    level: InsightLevel::Warn,
                    text: rows[w].host@ + " memory "@ + double::fixed_text(node.mem_percent, 1)
                        + "%; check OSD memory pressure before deeper trace"@,
                },
            )
        }),
{
    let node = diagnose::known_node(table, rows[w].host@)->0;
    lemma_percents(node.cpu_percent);
    lemma_percents(node.mem_percent);
    let told = diagnose::load_insight(table, rows[w]);
    if told.len() > 0 {
        assert(told.contains(told[0]));
        lemma_trace_parts(table, rows, window_secs, w, told[0]);
    }
}

/// Two OSDs or more that took 10ms are told of together, by their number.
pub proof fn law_several_slow_osds_are_told(
    table: NodeTable,
    rows: Seq<TraceGraphRow>,
    window_secs: u64,
)
    requires
        rows.filter(|r: TraceGraphRow| r.max_us >= 10_000).len() >= 2,
    ensures
        diagnose::osd_trace(table, rows, window_secs).contains(
            InsightView {
                level: InsightLevel::Warn,
                text: text::decimal(
                    rows.filter(|r: TraceGraphRow| r.max_us >= 10_000).len(),
                ) + " OSDs over 10ms; shared network/device/controller pressure is possible"@,
            },
        ),
{
    rows.lemma_filter_len(|r: TraceGraphRow| r.max_us >= 10_000);
    let w = lemma_worst_exists(rows);
    lemma_slow(rows, w);
    let told = diagnose::spread_insight(rows, rows[w]);
    assert(told.contains(told[0]));
    lemma_trace_parts(table, rows, window_secs, w, told[0]);
}

/// That no OSD was slow.
pub open spec fn calm() -> InsightView {
    InsightView {
        level: InsightLevel::Okay,
        text: "no obvious slow OSD in the trace window; max latency is below 10ms"@,
    }
}

/// That no OSD was slow is told exactly where there is a row, and every row stayed
/// below 10ms.
pub proof fn law_calm_is_told_only_where_no_osd_was_slow(
    table: NodeTable,
    rows: Seq<TraceGraphRow>,
    window_secs: u64,
)
    ensures
        diagnose::osd_trace(table, rows, window_secs).contains(
            InsightView {
                level: InsightLevel::Okay,
                text: "no obvious slow OSD in the trace window; max latency is below 10ms"@,
            },
        ) <==> rows.len() > 0 && forall|i: int|
            0 <= i < rows.len() ==> (#[trigger] rows[i]).max_us < 10_000,
{
    if rows.len() > 0 {
        let w = lemma_worst_exists(rows);
        lemma_slow(rows, w);
        lemma_trace_parts(table, rows, window_secs, w, calm());
        lemma_calm_text();
        let worst = rows[w];
        let a = diagnose::window_insight(rows, worst, window_secs);
        let b = diagnose::compare_insight(worst);
        let c = diagnose::component_insight(worst);
        reveal_strlit("last ");
        reveal_strlit("compare ");
        reveal_strlit("largest observed component ");
        assert(a[0].text[0] == 'l');
        if b.len() > 0 {
            assert(b[0].text[0] == 'c');
        }
        if c.len() > 0 && c[0].level == InsightLevel::Okay {
            assert(c[0].text[0] == 'l');
        }
        let f = diagnose::spread_insight(rows, worst);
        if worst.max_us < 10_000 {
            assert(f[0] == calm());
        }
    }
}

pub proof fn lemma_calm_text()
    ensures
        calm().text.len() > 0,
        calm().text[0] == 'n',
{
    reveal_strlit("no obvious slow OSD in the trace window; max latency is below 10ms");
}

/// The node of a host is the one that is kept under that name, else the first that
/// goes by it.
pub proof fn law_node_is_found_by_name(table: NodeTable, host: Seq<char>)
    ensures
        forall|i: int|
            0 <= i < table.entries@.len() && (#[trigger] table.entries@[i]).0@ == host && (forall|k|
                0 <= k < i ==> (#[trigger] table.entries@[k]).0@ != host) ==> diagnose::known_node(
                table,
                host,
            ) == Some(table.entries@[i].1),
        (forall|k: int| 0 <= k < table.entries@.len() ==> (#[trigger] table.entries@[k]).0@ != host)
            ==> {
            &&& forall|i: int|
                0 <= i < table.entries@.len() && goes_by((#[trigger] table.entries@[i]).1, host)
                    && (forall|k: int|
                    0 <= k < i ==> !goes_by((#[trigger] table.entries@[k]).1, host))
                    ==> diagnose::known_node(table, host) == Some(table.entries@[i].1)
            &&& (forall|k: int|
                0 <= k < table.entries@.len() ==> !goes_by((#[trigger] table.entries@[k]).1, host))
                ==> diagnose::known_node(table, host) is None
        },
{
    let entries = table.entries@;
    let nodes = table.nodes();
    let called = diagnose::is_called(host);
    model::law_entries_are_found_by_key(table, host);
    tally::law_first_wanted_is_found(nodes, called);
    assert(forall|i: int| 0 <= i < entries.len() ==> #[trigger] nodes[i] == entries[i].1);
    if forall|k: int| 0 <= k < entries.len() ==> (#[trigger] entries[k]).0@ != host {
        assert forall|i: int|
            0 <= i < entries.len() && goes_by((#[trigger] entries[i]).1, host) && (forall|k: int|
                0 <= k < i ==> !goes_by((#[trigger] entries[k]).1, host)) implies
            diagnose::known_node(table, host) == Some(entries[i].1) by {
            assert(called(nodes[i]));
            assert forall|k: int| 0 <= k < i implies !called(#[trigger] nodes[k]) by {
                assert(!goes_by(entries[k].1, host));
            }
        }
        if forall|k: int| 0 <= k < entries.len() ==> !goes_by((#[trigger] entries[k]).1, host) {
            assert forall|k: int| 0 <= k < nodes.len() implies !called(#[trigger] nodes[k]) by {
                assert(!goes_by(entries[k].1, host));
            }
        }
    }
}

/// The node has `host` as its address or as its own name.
pub open spec fn goes_by(node: NodeSummary, host: Seq<char>) -> bool {
    node.host@ == host || node.hostname@ == host
}

/// What is said of an insight is its own level and text.
pub proof fn law_insights_say_their_own_fields(insight: diagnose::Insight)
    ensures
        insight@.level == insight.level,
        insight@.text == insight.text@,
{
}

} // verus!
