//! What each kind of insight says, and that the diagnosis tells them all.

use crate::diagnose;
use crate::diagnose::{DiagnoseInput, InsightLevel, InsightView};
use crate::diagnose_laws;
use crate::diagnose_laws::{calm, is_percent, told_level};
use crate::double;
use crate::flow;
use crate::model::{HealthCheck, NodeSummary, OsdSummary, PgSummary, PoolSummary, Snapshot};
use crate::order;
use crate::radostrace;
use crate::radostrace::{RadosEventView, RadosPoolRowView};
use crate::radostrace_laws;
use crate::tally;
use crate::text;
use crate::trace::{KfsOpRow, TraceEvent, TraceGraphRow};
use crate::util;
use vstd::prelude::*;

verus! {

/// The text, cut behind its `n`th character.
pub open spec fn cut(s: Seq<char>, n: nat) -> Seq<char> {
    if s.len() > n {
        s.take(n as int)
    } else {
        s
    }
}

/// A pool is told of as bad exactly where its rule names a failure domain, some of
/// these are there, and the pool wants more copies than there are. The pools keep
/// their order.
pub proof fn law_pools_that_cannot_spread_are_told(pools: Seq<PoolSummary>)
    ensures
        diagnose::pool_faults(pools) == pools.filter(
            |p: PoolSummary|
                p.failure_domain@.len() > 0 && p.available_domains > 0 && p.available_domains
                    < p.size,
        ).map_values(
            |p: PoolSummary|
                InsightView {
                    level: InsightLevel::Bad,
                    text: "pool "@ + p.name@ + " size "@ + text::decimal(p.size as nat)
                        + " exceeds "@ + text::decimal(p.available_domains as nat) + " available "@
                        + p.failure_domain@ + " domains (rule "@ + text::signed_decimal(
                        p.crush_rule as int,
                    ) + ")"@,
                },
        ),
{
    let keep = |p: PoolSummary|
        p.failure_domain@.len() > 0 && p.available_domains > 0 && p.available_domains < p.size;
    let to = |p: PoolSummary|
        InsightView {
            level: InsightLevel::Bad,
            text: "pool "@ + p.name@ + " size "@ + text::decimal(p.size as nat) + " exceeds "@
                + text::decimal(p.available_domains as nat) + " available "@ + p.failure_domain@
                + " domains (rule "@ + text::signed_decimal(p.crush_rule as int) + ")"@,
        };
    let pick = |p: PoolSummary| diagnose::pool_fault(p);
    tally::law_picked_keeps_what_is_there(pools, pick);
    assert((|p: PoolSummary| pick(p) is Some) =~= keep);
    let kept = pools.filter(keep);
    assert(kept.map_values(|p: PoolSummary| pick(p)->0) =~= kept.map_values(to)) by {
        assert forall|i: int| 0 <= i < kept.len() implies pick(#[trigger] kept[i])->0 == to(
            kept[i],
        ) by {
            pools.lemma_filter_pred(keep, i);
        }
    }
}

/// The OSD at `w` is the fullest, and the last of those that are as full.
pub open spec fn is_fullest(osds: Seq<OsdSummary>, w: int) -> bool {
    &&& 0 <= w < osds.len()
    &&& forall|i: int|
        0 <= i < w ==> (#[trigger] osds[i]).utilization.rank() <= osds[w].utilization.rank()
    &&& forall|i: int|
        w < i < osds.len() ==> (#[trigger] osds[i]).utilization.rank() < osds[w].utilization.rank()
}

/// The fullest OSD is told of as bad exactly where the cluster has a full ratio
/// above zero, and a hundredth of the OSD's percentage reaches it. Without OSDs
/// none is.
pub proof fn law_fullest_osd_is_told_where_it_crosses_the_limit(snapshot: Snapshot, w: int)
    ensures
        snapshot.osds@.len() == 0 ==> diagnose::full_fault(snapshot).len() == 0,
        is_fullest(snapshot.osds@, w) ==> {
            let (osd, full) = (snapshot.osds@[w], snapshot.cluster.full_ratio);
            let share = double::divided(osd.utilization, 100);
            let crosses = !full.is_nan() && full.value() > 0 && !share.is_nan() && share.value()
                >= full.value();
            let told = diagnose::full_fault(snapshot);
            &&& !crosses ==> told.len() == 0
            &&& crosses ==> told == seq![
                InsightView {
                    level: InsightLevel::Bad,
                    text: osd.name@ + " utilization "@ + double::fixed_text(osd.utilization, 3)
                        + "% crosses full threshold "@ + double::fixed_text(
                        double::multiplied(full, 100),
                        3,
                    ) + "% (near "@ + double::fixed_text(
                        double::multiplied(snapshot.cluster.nearfull_ratio, 100),
                        3,
                    ) + "%, backfill "@ + double::fixed_text(
                        double::multiplied(snapshot.cluster.backfillfull_ratio, 100),
                        3,
                    ) + "%)"@,
                },
            ]
        },
{
    let osds = snapshot.osds@;
    if is_fullest(osds, w) {
        let above = diagnose::fuller();
        assert forall|i: int| 0 <= i < w implies !above(#[trigger] osds[i], osds[w]) by {}
        assert forall|i: int| w < i < osds.len() implies above(osds[w], #[trigger] osds[i]) by {}
        tally::law_last_greatest_is_above_the_others(osds, above, w);
    }
}

pub open spec fn scrubs_deep(pg: PgSummary) -> bool {
    text::has(pg.state@, "scrubbing+deep"@)
}

pub open spec fn moves(pg: PgSummary) -> bool {
    text::has(pg.state@, "backfill"@) || text::has(pg.state@, "recover"@)
}

/// The placement group at `p` tells the most: it is the first that is scrubbed
/// deep, or where none is the first that is moved, or where none is the first.
pub open spec fn tells_most(pgs: Seq<PgSummary>, p: int) -> bool {
    let none_deep = forall|k: int| 0 <= k < pgs.len() ==> !scrubs_deep(#[trigger] pgs[k]);
    let none_moves = forall|k: int| 0 <= k < pgs.len() ==> !moves(#[trigger] pgs[k]);
    &&& 0 <= p < pgs.len()
    &&& {
        ||| scrubs_deep(pgs[p]) && forall|k: int| 0 <= k < p ==> !scrubs_deep(#[trigger] pgs[k])
        ||| none_deep && moves(pgs[p]) && forall|k: int| 0 <= k < p ==> !moves(#[trigger] pgs[k])
        ||| none_deep && none_moves && p == 0
    }
}

/// One abnormal placement group is told of, the one that tells the most, with how
/// many others there are. Without any none is.
pub proof fn law_most_telling_pg_is_told(pgs: Seq<PgSummary>, p: int)
    ensures
        pgs.len() == 0 ==> diagnose::pg_fault(pgs).len() == 0,
        tells_most(pgs, p) ==> diagnose::pg_fault(pgs) == seq![
            InsightView {
                level: InsightLevel::Warn,
                text: "PG "@ + pgs[p].id@ + " "@ + pgs[p].state@ + " · up "@ + flow::acting_text(
                    pgs[p].up@,
                ) + " · acting "@ + flow::acting_text(pgs[p].acting@) + if pgs.len() == 1 {
                    Seq::<char>::empty()
                } else {
                    "; +"@ + text::decimal((pgs.len() - 1) as nat) + " more"@
                },
            },
        ],
{
    let deep = diagnose::state_has("scrubbing+deep"@, "scrubbing+deep"@);
    let moved = diagnose::state_has("backfill"@, "recover"@);
    tally::law_first_wanted_is_found(pgs, deep);
    tally::law_first_wanted_is_found(pgs, moved);
    assert(forall|k: int|
        0 <= k < pgs.len() ==> deep(#[trigger] pgs[k]) == scrubs_deep(pgs[k]) && moved(pgs[k])
            == moves(pgs[k]));
    if tells_most(pgs, p) {
        if scrubs_deep(pgs[p]) && forall|k: int| 0 <= k < p ==> !scrubs_deep(#[trigger] pgs[k]) {
            assert(deep(pgs[p]));
            assert forall|i: int| 0 <= i < p implies !deep(#[trigger] pgs[i]) by {
                assert(!scrubs_deep(pgs[i]));
            }
        } else {
            assert forall|i: int| 0 <= i < pgs.len() implies !deep(#[trigger] pgs[i]) by {
                assert(!scrubs_deep(pgs[i]));
            }
            if moves(pgs[p]) && forall|k: int| 0 <= k < p ==> !moves(#[trigger] pgs[k]) {
                assert(moved(pgs[p]));
                assert forall|i: int| 0 <= i < p implies !moved(#[trigger] pgs[i]) by {
                    assert(!moves(pgs[i]));
                }
            } else {
                assert forall|i: int| 0 <= i < pgs.len() implies !moved(#[trigger] pgs[i]) by {
                    assert(!moves(pgs[i]));
                }
            }
        }
        assert(diagnose::telling_pg(pgs) == Some(pgs[p]));
    }
}

/// Recovery is told of exactly where data is moved, with how much.
pub proof fn law_recovery_is_told_where_data_moves(bytes_sec: u64)
    ensures
        bytes_sec == 0 ==> diagnose::recovery_fault(bytes_sec).len() == 0,
        bytes_sec > 0 ==> diagnose::recovery_fault(bytes_sec) == seq![
            InsightView {
                level: InsightLevel::Warn,
                text: "recovery/backfill moving "@ + diagnose::bytes_text(bytes_sec)
                    + "/s while client operations are observed"@,
            },
        ],
{
}

/// A healthy cluster is not told of. Any other is, as a warning where it only
/// warns, and as bad otherwise, with the checks behind it, or where to look for
/// them.
pub proof fn law_poor_health_is_told(snapshot: Snapshot, admin_host: Seq<char>)
    ensures
        ({
            let health = snapshot.cluster.health@;
            let checks = snapshot.cluster.health_checks@;
            let told = diagnose::health_insight(snapshot, admin_host);
            &&& health == "HEALTH_OK"@ ==> told.len() == 0
            &&& health != "HEALTH_OK"@ ==> {
                &&& told.len() == 1
                &&& told[0].level == InsightLevel::Warn <==> health == "HEALTH_WARN"@
                &&& told[0].level == InsightLevel::Bad <==> health != "HEALTH_WARN"@
                &&& checks.len() == 0 ==> told[0].text == "cluster health "@ + health
                    + "; run ceph health detail on "@ + admin_host
                &&& checks.len() > 0 ==> told[0].text == "cluster health "@ + health + ": "@
                    + diagnose::checks_text(checks)
            }
        }),
{
}

/// How one health check is told: its code, the start of its message, and the start
/// of its first detail.
pub open spec fn told_check(check: HealthCheck) -> Seq<char> {
    if check.details@.len() == 0 {
        check.code@ + " "@ + cut(check.message@, 60)
    } else {
        check.code@ + " "@ + cut(check.message@, 60) + "; "@ + cut(check.details@[0]@, 48)
    }
}

/// The first three checks are told, and how many more there are.
pub proof fn law_first_three_checks_are_told(checks: Seq<HealthCheck>)
    ensures
        checks.len() <= 3 ==> diagnose::checks_text(checks) == text::joined(
            checks.map_values(|c: HealthCheck| told_check(c)),
            "; "@,
        ),
        checks.len() > 3 ==> diagnose::checks_text(checks) == text::joined(
            checks.take(3).map_values(|c: HealthCheck| told_check(c)),
            "; "@,
        ) + " (+"@ + text::decimal((checks.len() - 3) as nat) + " more)"@,
{
    let shown = flow::top(checks, 3);
    let to = |c: HealthCheck| told_check(c);
    let from = |c: HealthCheck| diagnose::check_text(c);
    assert forall|i: int| 0 <= i < shown.len() implies from(#[trigger] shown[i]) == to(
        shown[i],
    ) by {
        lemma_check_told(shown[i]);
    }
    assert(shown.map_values(from) =~= shown.map_values(to));
    let told = text::joined(shown.map_values(to), "; "@);
    if checks.len() <= 3 {
        assert(shown == checks);
        assert(told + Seq::<char>::empty() =~= told);
    } else {
        assert(diagnose::checks_text(checks) =~= told + " (+"@ + text::decimal(
            (checks.len() - 3) as nat,
        ) + " more)"@);
    }
}

proof fn lemma_check_told(check: HealthCheck)
    ensures
        diagnose::check_text(check) == told_check(check),
{
    assert(util::shortened(check.message@, 60) =~= cut(check.message@, 60));
    if check.details@.len() > 0 {
        assert(util::shortened(check.details@[0]@, 48) =~= cut(check.details@[0]@, 48));
    }
    assert(diagnose::check_text(check) =~= told_check(check));
}

/// The states of the placement groups are told where none of them is listed as
/// abnormal and still none is said to be `active+clean`.
pub proof fn law_pg_states_are_told_where_none_is_clean(snapshot: Snapshot)
    ensures
        ({
            let told = diagnose::pg_states_insight(snapshot);
            let unclear = snapshot.abnormal_pgs@.len() == 0 && !text::has(
                snapshot.cluster.pg_states@,
                "active+clean"@,
            );
            &&& !unclear ==> told.len() == 0
            &&& unclear ==> told == seq![
                InsightView {
                    level: InsightLevel::Warn,
                    text: "PG state "@ + snapshot.cluster.pg_states@
                        + "; trace latency may include recovery/peering"@,
                },
            ]
        }),
{
}

/// Missing streams are told of exactly where fewer are live than there should be.
pub proof fn law_missing_streams_are_told(live: usize, total: usize)
    ensures
        live >= total ==> diagnose::stream_insight(Some((live, total))).len() == 0,
        live < total ==> diagnose::stream_insight(Some((live, total))) == seq![
            InsightView {
                level: InsightLevel::Warn,
                text: "ssh streams "@ + text::decimal(live as nat) + "/"@ + text::decimal(
                    total as nat,
                ) + " live; check hosts marked retry/error"@,
            },
        ],
        diagnose::stream_insight(None).len() == 0,
{
}

/// The last trace error is told of, with its host and the start of what it said,
/// and nothing where there is none.
pub proof fn law_last_trace_error_is_told(events: Seq<TraceEvent>)
    ensures
        forall|w: int|
            0 <= w < events.len() && (#[trigger] events[w]).op@ == "error"@ && (forall|k: int|
                w < k < events.len() ==> (#[trigger] events[k]).op@ != "error"@)
                ==> diagnose::error_insight(events) == seq![
                InsightView {
                    level: InsightLevel::Bad,
                    text: "trace error on "@ + events[w].host@ + ": "@ + cut(events[w].raw@, 72),
                },
            ],
        (forall|k: int| 0 <= k < events.len() ==> (#[trigger] events[k]).op@ != "error"@)
            ==> diagnose::error_insight(events).len() == 0,
{
    let wanted = diagnose::is_error();
    tally::law_last_wanted_is_found(events, wanted);
    assert forall|w: int|
        0 <= w < events.len() && (#[trigger] events[w]).op@ == "error"@ && (forall|k: int|
            w < k < events.len() ==> (#[trigger] events[k]).op@ != "error"@) implies
        diagnose::error_insight(events) == seq![
        InsightView {
            level: InsightLevel::Bad,
            text: "trace error on "@ + events[w].host@ + ": "@ + cut(events[w].raw@, 72),
        },
    ] by {
        assert(wanted(events[w]));
        assert forall|i: int| w < i < events.len() implies !wanted(#[trigger] events[i]) by {
            assert(events[i].op@ != "error"@);
        }
        assert(util::shortened(events[w].raw@, 72) =~= cut(events[w].raw@, 72));
    }
    if forall|k: int| 0 <= k < events.len() ==> (#[trigger] events[k]).op@ != "error"@ {
        assert forall|i: int| 0 <= i < events.len() implies !wanted(#[trigger] events[i]) by {
            assert(events[i].op@ != "error"@);
        }
    }
}

/// The idle message is told exactly where there is one and nothing was traced.
pub proof fn law_idle_message_is_told_only_when_idle(idle: bool, message: Option<&str>)
    ensures
        idle && message is Some ==> diagnose::idle_insight(idle, message) == seq![
            InsightView { level: InsightLevel::Info, text: message->0@ },
        ],
        !idle || message is None ==> diagnose::idle_insight(idle, message).len() == 0,
{
}

/// The row at `w` has the longest latency, and is the last of those that have it.
pub open spec fn is_slowest(rows: Seq<KfsOpRow>, w: int) -> bool {
    &&& 0 <= w < rows.len()
    &&& forall|i: int| 0 <= i < w ==> (#[trigger] rows[i]).max_us <= rows[w].max_us
    &&& forall|i: int| w < i < rows.len() ==> (#[trigger] rows[i]).max_us < rows[w].max_us
}

/// The metadata ops are told of by their number and the slowest kind, and those
/// that are not yet safe by theirs, where there are any.
pub proof fn law_metadata_ops_are_told(rows: Seq<KfsOpRow>, w: int)
    ensures
        rows.len() == 0 ==> diagnose::kfs_trace(rows).len() == 0,
        is_slowest(rows, w) ==> {
            let told = diagnose::kfs_trace(rows);
            let ops = tally::total(rows.map_values(|r: KfsOpRow| r.count));
            let pending = tally::total(rows.map_values(|r: KfsOpRow| r.unsafe_count));
            &&& told.len() == if pending > 0 {
                2nat
            } else {
                1
            }
            &&& told[0] == InsightView {
                level: told_level(rows[w].max_us),
                text: "kfstrace: "@ + text::decimal(ops) + " MDS ops; slowest "@ + rows[w].op@
                    + " max "@ + diagnose::latency_text(rows[w].max_us) + " avg "@
                    + diagnose::latency_text(rows[w].avg_us),
            }
            &&& pending > 0 ==> told[1] == InsightView {
                level: InsightLevel::Warn,
                text: "kfstrace: "@ + text::decimal(pending)
                    + " unsafe metadata ops awaiting MDS journal commit"@,
            }
        },
{
    if is_slowest(rows, w) {
        let above = diagnose::slower_kfs();
        assert forall|i: int| 0 <= i < w implies !above(#[trigger] rows[i], rows[w]) by {}
        assert forall|i: int| w < i < rows.len() implies above(rows[w], #[trigger] rows[i]) by {}
        tally::law_last_greatest_is_above_the_others(rows, above, w);
        assert(diagnose::kfs_counts(rows) =~= rows.map_values(|r: KfsOpRow| r.count));
        assert(diagnose::kfs_unsafe_counts(rows) =~= rows.map_values(
            |r: KfsOpRow| r.unsafe_count,
        ));
    }
}

/// The pool row at `w` has the longest latency, and is the last of those that have
/// it.
pub open spec fn is_slowest_pool(rows: Seq<RadosPoolRowView>, w: int) -> bool {
    &&& 0 <= w < rows.len()
    &&& forall|i: int| 0 <= i < w ==> (#[trigger] rows[i]).max_us <= rows[w].max_us
    &&& forall|i: int| w < i < rows.len() ==> (#[trigger] rows[i]).max_us < rows[w].max_us
}

/// The client ops are told of by their number and the slowest pool, with how many
/// of its ops wrote and how many read. Without ops nothing is.
pub proof fn law_client_ops_are_told(events: Seq<RadosEventView>, w: int)
    ensures
        events.len() == 0 ==> diagnose::rados_trace(events).len() == 0,
        is_slowest_pool(radostrace::pool_rows(events), w) ==> {
            let worst = radostrace::pool_rows(events)[w];
            diagnose::rados_trace(events) == seq![
                InsightView {
                    level: told_level(worst.max_us),
                    text: "radostrace: "@ + text::decimal(events.len()) + " client ops; pool "@
                        + worst.pool + " max "@ + diagnose::latency_text(worst.max_us) + " avg "@
                        + diagnose::latency_text(worst.avg_us) + " ("@ + text::decimal(
                        worst.writes as nat,
                    ) + "W/"@ + text::decimal(worst.reads as nat) + "R)"@,
                },
            ]
        },
{
    let rows = radostrace::pool_rows(events);
    if events.len() == 0 {
        radostrace_laws::law_each_pool_has_one_row_and_busy_ones_come_first(events);
        if rows.len() > 0 {
            assert(exists|k: int|
                0 <= k < events.len() && rows[0].pool == (#[trigger] events[k]).pool);
        }
    }
    if is_slowest_pool(rows, w) {
        let above = diagnose::slower_pool();
        assert forall|i: int| 0 <= i < w implies !above(#[trigger] rows[i], rows[w]) by {}
        assert forall|i: int| w < i < rows.len() implies above(rows[w], #[trigger] rows[i]) by {}
        tally::law_last_greatest_is_above_the_others(rows, above, w);
    }
}

/// The longest latencies that clients and OSDs saw are told side by side exactly
/// where both saw one: `client` is the longest of the client ops, `server` the
/// longest of the rows.
pub proof fn law_both_sides_are_told_where_both_saw_ops(
    rows: Seq<TraceGraphRow>,
    events: Seq<RadosEventView>,
    client: u64,
    server: u64,
)
    requires
        events.len() <= u64::MAX,
        forall|k: int| 0 <= k < events.len() ==> (#[trigger] events[k]).latency_us <= client,
        client == 0 || exists|k: int|
            0 <= k < events.len() && (#[trigger] events[k]).latency_us == client,
        forall|i: int| 0 <= i < rows.len() ==> (#[trigger] rows[i]).max_us <= server,
        server == 0 || exists|i: int|
            0 <= i < rows.len() && (#[trigger] rows[i]).max_us == server,
    ensures
        client == 0 || server == 0 ==> diagnose::cross_source(rows, events) is None,
        client > 0 && server > 0 ==> diagnose::cross_source(rows, events) == Some(
            InsightView {
                level: InsightLevel::Info,
                text: "cross-source maxima (not time/PG correlated): rados client "@
                    + diagnose::latency_text(client) + ", osd server "@ + diagnose::latency_text(
                    server,
                ) + "; verify raw traces before attribution"@,
            },
        ),
{
    lemma_longest_row(rows, server);
    lemma_longest_op(events, client);
}

proof fn lemma_longest_row(rows: Seq<TraceGraphRow>, server: u64)
    requires
        forall|i: int| 0 <= i < rows.len() ==> (#[trigger] rows[i]).max_us <= server,
        server == 0 || exists|i: int|
            0 <= i < rows.len() && (#[trigger] rows[i]).max_us == server,
    ensures
        tally::largest(diagnose::row_maxima(rows)) == server,
{
    let maxima = diagnose::row_maxima(rows);
    tally::lemma_largest(maxima);
    if maxima.len() > 0 {
        let i = choose|i: int| 0 <= i < maxima.len() && maxima[i] == tally::largest(maxima);
        assert(rows[i].max_us == maxima[i]);
        if server > 0 {
            let j = choose|j: int| 0 <= j < rows.len() && (#[trigger] rows[j]).max_us == server;
            assert(maxima[j] == server);
        }
    }
}

/// No row is above the longest op of its pool, which is one of the ops.
proof fn lemma_row_has_op(events: Seq<RadosEventView>, i: int) -> (m: int)
    requires
        events.len() <= u64::MAX,
        0 <= i < radostrace::pool_rows(events).len(),
    ensures
        0 <= m < events.len(),
        events[m].latency_us == radostrace::pool_rows(events)[i].max_us,
{
    let row = radostrace::pool_rows(events)[i];
    radostrace_laws::law_pool_row_totals_the_ops_of_its_pool(events, i);
    let keep = |e: RadosEventView| e.pool == row.pool;
    let ours = events.filter(keep);
    let k = choose|k: int| 0 <= k < ours.len() && (#[trigger] ours[k]).latency_us == row.max_us;
    events.lemma_filter_contains_rev(keep, ours[k]);
    choose|m: int| 0 <= m < events.len() && events[m] == ours[k]
}

proof fn lemma_op_has_row(events: Seq<RadosEventView>, m: int) -> (i: int)
    requires
        events.len() <= u64::MAX,
        0 <= m < events.len(),
    ensures
        0 <= i < radostrace::pool_rows(events).len(),
        events[m].latency_us <= radostrace::pool_rows(events)[i].max_us,
{
    let rows = radostrace::pool_rows(events);
    radostrace_laws::law_each_pool_has_one_row_and_busy_ones_come_first(events);
    let i = choose|i: int| 0 <= i < rows.len() && (#[trigger] rows[i]).pool == events[m].pool;
    radostrace_laws::law_pool_row_totals_the_ops_of_its_pool(events, i);
    let keep = |e: RadosEventView| e.pool == rows[i].pool;
    let ours = events.filter(keep);
    assert(keep(events[m]));
    events.lemma_filter_contains(keep, m);
    let k = choose|k: int| 0 <= k < ours.len() && ours[k] == events[m];
    assert(ours[k].latency_us <= rows[i].max_us);
    i
}

proof fn lemma_longest_op(events: Seq<RadosEventView>, client: u64)
    requires
        events.len() <= u64::MAX,
        forall|k: int| 0 <= k < events.len() ==> (#[trigger] events[k]).latency_us <= client,
        client == 0 || exists|k: int|
            0 <= k < events.len() && (#[trigger] events[k]).latency_us == client,
    ensures
        tally::largest(diagnose::pool_maxima(radostrace::pool_rows(events))) == client,
{
    let rows = radostrace::pool_rows(events);
    let tops = diagnose::pool_maxima(rows);
    tally::lemma_largest(tops);
    if tops.len() > 0 {
        let i = choose|i: int| 0 <= i < tops.len() && tops[i] == tally::largest(tops);
        let m = lemma_row_has_op(events, i);
        assert(events[m].latency_us <= client);
    }
    if client > 0 {
        let m = choose|m: int| 0 <= m < events.len() && (#[trigger] events[m]).latency_us == client;
        let i = lemma_op_has_row(events, m);
        assert(tops[i] == rows[i].max_us);
    }
}

proof fn lemma_texts_compare(a: Seq<char>, b: Seq<char>, c: Seq<char>)
    ensures
        !text::text_before(a, a),
        text::text_before(a, b) && text::text_before(b, c) ==> text::text_before(a, c),
        !text::text_before(a, b) && !text::text_before(b, c) ==> !text::text_before(a, c),
{
    text::law_text_before_is_a_strict_total_order(a, b, c);
    text::law_text_before_is_a_strict_total_order(c, b, a);
    text::law_text_before_is_a_strict_total_order(a, c, b);
}

/// Every node whose OSDs are limited in what they may write, and no other, is told
/// of as bad, with the start of its limits, in the order of the hosts: `told` are
/// these nodes in that order.
pub proof fn law_limited_nodes_are_told_by_host(nodes: Seq<NodeSummary>) -> (told: Seq<NodeSummary>)
    ensures
        told.to_multiset() == nodes.filter(
            |n: NodeSummary| n.osd_io_write_limits@.len() > 0,
        ).to_multiset(),
        forall|i: int, j: int|
            0 <= i < j < told.len() ==> !text::text_before(
                (#[trigger] told[j]).host@,
                (#[trigger] told[i]).host@,
            ),
        diagnose::io_limits(nodes) == told.map_values(
            |n: NodeSummary|
                InsightView {
                    level: InsightLevel::Bad,
                    text: n.host@ + " OSD block write limit: "@ + cut(n.osd_io_write_limits@, 72),
                },
        ),
{
    let before = diagnose::by_host();
    let kept = nodes.filter(diagnose::is_limited());
    assert(diagnose::is_limited() =~= (|n: NodeSummary| n.osd_io_write_limits@.len() > 0));
    let told = order::sorted_by(kept, before);
    assert forall|a: NodeSummary| !#[trigger] before(a, a) by {
        lemma_texts_compare(a.host@, a.host@, a.host@);
    }
    assert forall|a: NodeSummary, b: NodeSummary, c: NodeSummary| #[trigger]
        before(a, b) && #[trigger] before(b, c) implies before(a, c) by {
        lemma_texts_compare(a.host@, b.host@, c.host@);
    }
    assert forall|a: NodeSummary, b: NodeSummary, c: NodeSummary|
        !(#[trigger] before(a, b)) && !(#[trigger] before(b, c)) implies !before(a, c) by {
        lemma_texts_compare(a.host@, b.host@, c.host@);
    }
    order::law_sorted_by_orders_the_same_entries(kept, before);
    assert forall|i: int, j: int| 0 <= i < j < told.len() implies !text::text_before(
        (#[trigger] told[j]).host@,
        (#[trigger] told[i]).host@,
    ) by {
        assert(!before(told[j], told[i]));
    }
    let to = |n: NodeSummary|
        InsightView {
            level: InsightLevel::Bad,
            text: n.host@ + " OSD block write limit: "@ + cut(n.osd_io_write_limits@, 72),
        };
    assert(diagnose::io_limits(nodes) =~= told.map_values(to)) by {
        assert forall|i: int| 0 <= i < told.len() implies diagnose::limit_insight(
            #[trigger] told[i],
        ) == to(told[i]) by {
            assert(util::shortened(told[i].osd_io_write_limits@, 72) =~= cut(
                told[i].osd_io_write_limits@,
                72,
            ));
        }
    }
    told
}

proof fn lemma_stalls_compare(a: NodeSummary, b: NodeSummary, c: NodeSummary)
    ensures
        ({
            let before = diagnose::more_stalled();
            &&& !before(a, a)
            &&& before(a, b) && before(b, c) ==> before(a, c)
            &&& !before(a, b) && !before(b, c) ==> !before(a, c)
        }),
{
    lemma_texts_compare(a.host@, b.host@, c.host@);
    lemma_texts_compare(a.host@, a.host@, a.host@);
}

/// The two nodes that stall the most on IO are told of, of those that stall for 5%
/// of the time or more: as bad from 20% on, and as a warning below. `ranked` are all
/// that stall so long, those that stall the longest first, and by their hosts where
/// they stall as long.
pub proof fn law_most_stalled_nodes_are_told(nodes: Seq<NodeSummary>) -> (ranked: Seq<NodeSummary>)
    ensures
        ranked.to_multiset() == nodes.filter(
            |n: NodeSummary| is_percent(n.io_stall_percent, 5),
        ).to_multiset(),
        forall|i: int, j: int|
            0 <= i < j < ranked.len() ==> {
                let (a, b) = (#[trigger] ranked[i], #[trigger] ranked[j]);
                ||| a.io_stall_percent.rank() > b.io_stall_percent.rank()
                ||| a.io_stall_percent.rank() == b.io_stall_percent.rank() && !text::text_before(
                    b.host@,
                    a.host@,
                )
            },
        ({
            let told = diagnose::node_pressure(nodes);
            &&& told.len() == if ranked.len() < 2 {
                ranked.len()
            } else {
                2
            }
            &&& forall|i: int|
                0 <= i < told.len() ==> (#[trigger] told[i]).text == ranked[i].host@
                    + " stalled on IO "@ + double::fixed_text(ranked[i].io_stall_percent, 1)
                    + "% of the last 10s; storage below the OSD is a suspect"@ && (told[i].level
                    == InsightLevel::Bad <==> is_percent(ranked[i].io_stall_percent, 20)) && (
                told[i].level == InsightLevel::Warn <==> !is_percent(
                    ranked[i].io_stall_percent,
                    20,
                ))
        }),
{
    let before = diagnose::more_stalled();
    let kept = nodes.filter(diagnose::is_stalled());
    assert forall|i: int| 0 <= i < nodes.len() implies diagnose::is_stalled()(#[trigger] nodes[i])
        == is_percent(nodes[i].io_stall_percent, 5) by {
        diagnose_laws::lemma_percents(nodes[i].io_stall_percent);
    }
    tally::lemma_same_filter(
        nodes,
        diagnose::is_stalled(),
        |n: NodeSummary| is_percent(n.io_stall_percent, 5),
    );
    let ranked = order::sorted_by(kept, before);
    assert forall|a: NodeSummary| !#[trigger] before(a, a) by {
        lemma_stalls_compare(a, a, a);
    }
    assert forall|a: NodeSummary, b: NodeSummary, c: NodeSummary| #[trigger]
        before(a, b) && #[trigger] before(b, c) implies before(a, c) by {
        lemma_stalls_compare(a, b, c);
    }
    assert forall|a: NodeSummary, b: NodeSummary, c: NodeSummary|
        !(#[trigger] before(a, b)) && !(#[trigger] before(b, c)) implies !before(a, c) by {
        lemma_stalls_compare(a, b, c);
    }
    order::law_sorted_by_orders_the_same_entries(kept, before);
    assert forall|i: int, j: int| 0 <= i < j < ranked.len() implies {
        let (a, b) = (#[trigger] ranked[i], #[trigger] ranked[j]);
        ||| a.io_stall_percent.rank() > b.io_stall_percent.rank()
        ||| a.io_stall_percent.rank() == b.io_stall_percent.rank() && !text::text_before(
            b.host@,
            a.host@,
        )
    } by {
        assert(!before(ranked[j], ranked[i]));
    }
    let told = diagnose::node_pressure(nodes);
    assert forall|i: int| 0 <= i < told.len() implies (#[trigger] told[i]).text == ranked[i].host@
        + " stalled on IO "@ + double::fixed_text(ranked[i].io_stall_percent, 1)
        + "% of the last 10s; storage below the OSD is a suspect"@ && (told[i].level
        == InsightLevel::Bad <==> is_percent(ranked[i].io_stall_percent, 20)) && (told[i].level
        == InsightLevel::Warn <==> !is_percent(ranked[i].io_stall_percent, 20)) by {
        diagnose_laws::lemma_percents(ranked[i].io_stall_percent);
        assert(told[i] == diagnose::stall_insight(ranked[i]));
    }
    ranked
}

/// Before the first snapshot it is told that one is waited for. A snapshot tells of
/// its health, its pools, its fullest OSD, its placement groups and its recovery,
/// in this order, and of nothing else.
pub proof fn law_snapshot_tells_its_findings_in_order(snapshot: Snapshot, admin_host: Seq<char>)
    ensures
        diagnose::snapshot_insights(None, admin_host) == seq![
            InsightView {
                level: InsightLevel::Info,
                text: "waiting for first cluster snapshot"@,
            },
        ],
        diagnose::snapshot_insights(Some(&snapshot), admin_host) == seq![
            diagnose::health_insight(snapshot, admin_host),
            diagnose::pool_faults(snapshot.pools@),
            diagnose::full_fault(snapshot),
            diagnose::pg_fault(snapshot.abnormal_pgs@),
            diagnose::recovery_fault(snapshot.cluster.recovering_bytes_sec),
            diagnose::pg_states_insight(snapshot),
        ].flatten(),
        diagnose::cluster_evidence(snapshot) == seq![
            diagnose::pool_faults(snapshot.pools@),
            diagnose::full_fault(snapshot),
            diagnose::pg_fault(snapshot.abnormal_pgs@),
            diagnose::recovery_fault(snapshot.cluster.recovering_bytes_sec),
        ].flatten(),
{
    broadcast use Seq::lemma_flatten_push;

    let a = diagnose::health_insight(snapshot, admin_host);
    let b = diagnose::pool_faults(snapshot.pools@);
    let c = diagnose::full_fault(snapshot);
    let d = diagnose::pg_fault(snapshot.abnormal_pgs@);
    let e = diagnose::recovery_fault(snapshot.cluster.recovering_bytes_sec);
    let f = diagnose::pg_states_insight(snapshot);
    let none = Seq::<Seq<InsightView>>::empty();
    assert(none.flatten() =~= Seq::<InsightView>::empty());
    let four = none.push(b).push(c).push(d).push(e);
    assert(four =~= seq![b, c, d, e]);
    assert(four.flatten() =~= b + c + d + e);
    let six = none.push(a).push(b).push(c).push(d).push(e).push(f);
    assert(six =~= seq![a, b, c, d, e, f]);
    assert(six.flatten() =~= a + b + c + d + e + f);
    assert(diagnose::snapshot_insights(Some(&snapshot), admin_host) =~= six.flatten());
}

/// The insight, where there is one.
pub open spec fn told_if(insight: Option<InsightView>) -> Seq<InsightView> {
    match insight {
        Some(insight) => seq![insight],
        None => Seq::empty(),
    }
}

/// The diagnosis tells what the snapshot, the streams, the write limits, the trace
/// errors, the OSD trace, the stalled hosts, the metadata ops, the client ops and
/// their comparison give, in this order, and the idle message where none of the
/// traces saw an op. It tells nothing else. Only OSDs with ops count as active.
pub proof fn law_diagnosis_tells_all_findings_in_order(input: DiagnoseInput<'_>)
    ensures
        ({
            let nodes = input.node_summaries.nodes();
            let active = input.trace_rows@.filter(|r: TraceGraphRow| r.ops > 0);
            let events = radostrace::views(input.rados_events@);
            diagnose::diagnosis(input) == seq![
                diagnose::snapshot_insights(input.snapshot, input.admin_host@),
                diagnose::stream_insight(input.stream_counts),
                diagnose::io_limits(nodes),
                diagnose::error_insight(input.trace_events@),
                diagnose::osd_trace(*input.node_summaries, active, input.trace_window_secs),
                diagnose::node_pressure(nodes),
                diagnose::kfs_trace(input.kfs_rows@),
                diagnose::rados_trace(events),
                told_if(diagnose::cross_source(active, events)),
                diagnose::idle_insight(
                    active.len() == 0 && input.kfs_idle && input.rados_events@.len() == 0,
                    input.idle_message,
                ),
            ].flatten()
        }),
{
    broadcast use Seq::lemma_flatten_push;

    assert(diagnose::is_active() =~= (|r: TraceGraphRow| r.ops > 0));
    let nodes = input.node_summaries.nodes();
    let active = input.trace_rows@.filter(|r: TraceGraphRow| r.ops > 0);
    let events = radostrace::views(input.rados_events@);
    let a = diagnose::snapshot_insights(input.snapshot, input.admin_host@);
    let b = diagnose::stream_insight(input.stream_counts);
    let c = diagnose::io_limits(nodes);
    let d = diagnose::error_insight(input.trace_events@);
    let e = diagnose::osd_trace(*input.node_summaries, active, input.trace_window_secs);
    let f = diagnose::node_pressure(nodes);
    let g = diagnose::kfs_trace(input.kfs_rows@);
    let h = diagnose::rados_trace(events);
    let i = told_if(diagnose::cross_source(active, events));
    let j = diagnose::idle_insight(
        active.len() == 0 && input.kfs_idle && input.rados_events@.len() == 0,
        input.idle_message,
    );
    let none = Seq::<Seq<InsightView>>::empty();
    assert(none.flatten() =~= Seq::<InsightView>::empty());
    let five = none.push(a).push(b).push(c).push(d).push(e);
    assert(five.flatten() =~= a + b + c + d + e);
    let all = five.push(f).push(g).push(h).push(i).push(j);
    assert(all =~= seq![a, b, c, d, e, f, g, h, i, j]);
    assert(all.flatten() =~= five.flatten() + f + g + h + i + j);
    assert(diagnose::diagnosis(input) =~= all.flatten());
}

/// None of the insights is one that all is well with something.
pub open spec fn none_is_okay(shown: Seq<InsightView>) -> bool {
    forall|i: int| 0 <= i < shown.len() ==> (#[trigger] shown[i]).level != InsightLevel::Okay
}

proof fn lemma_none_is_okay(shown: Seq<InsightView>)
    requires
        none_is_okay(shown),
    ensures
        !shown.contains(calm()),
{
    if shown.contains(calm()) {
        let i = choose|i: int| 0 <= i < shown.len() && shown[i] == calm();
        assert(shown[i].level != InsightLevel::Okay);
    }
}

proof fn lemma_snapshot_is_never_okay(snapshot: Option<&Snapshot>, admin_host: Seq<char>)
    ensures
        none_is_okay(diagnose::snapshot_insights(snapshot, admin_host)),
{
    if let Some(snapshot) = snapshot {
        let pools = diagnose::pool_faults(snapshot.pools@);
        law_pools_that_cannot_spread_are_told(snapshot.pools@);
        let a = diagnose::health_insight(*snapshot, admin_host);
        let c = diagnose::full_fault(*snapshot);
        let d = diagnose::pg_fault(snapshot.abnormal_pgs@);
        let e = diagnose::recovery_fault(snapshot.cluster.recovering_bytes_sec);
        let f = diagnose::pg_states_insight(*snapshot);
        assert(none_is_okay(pools));
        assert(none_is_okay(pools + c));
        assert(none_is_okay(pools + c + d));
        assert(none_is_okay(pools + c + d + e));
        assert(none_is_okay(a + (pools + c + d + e)));
        assert(none_is_okay(a + (pools + c + d + e) + f));
    }
}

/// That no OSD was slow is in the diagnosis exactly where an OSD was active, and
/// every active OSD stayed below 10ms.
pub proof fn law_diagnosis_is_calm_only_where_no_active_osd_was_slow(input: DiagnoseInput<'_>)
    ensures
        diagnose::diagnosis(input).contains(
            InsightView {
                level: InsightLevel::Okay,
                text: "no obvious slow OSD in the trace window; max latency is below 10ms"@,
            },
        ) <==> {
            &&& exists|i: int| 0 <= i < input.trace_rows@.len() && (#[trigger] input.trace_rows@[i]).ops > 0
            &&& forall|i: int|
                0 <= i < input.trace_rows@.len() && (#[trigger] input.trace_rows@[i]).ops > 0
                    ==> input.trace_rows@[i].max_us < 10_000
        },
{
    let x = calm();
    let nodes = input.node_summaries.nodes();
    let active = input.trace_rows@.filter(diagnose::is_active());
    let events = radostrace::views(input.rados_events@);
    let a = diagnose::snapshot_insights(input.snapshot, input.admin_host@);
    let b = diagnose::stream_insight(input.stream_counts);
    let c = diagnose::io_limits(nodes);
    let d = diagnose::error_insight(input.trace_events@);
    let e = diagnose::osd_trace(*input.node_summaries, active, input.trace_window_secs);
    let f = diagnose::node_pressure(nodes);
    let g = diagnose::kfs_trace(input.kfs_rows@);
    let h = diagnose::rados_trace(events);
    let i = told_if(diagnose::cross_source(active, events));
    let j = diagnose::idle_insight(
        active.len() == 0 && input.kfs_idle && events.len() == 0,
        input.idle_message,
    );
    assert(diagnose::diagnosis(input) =~= a + b + c + d + e + f + g + h + i + j);
    lemma_snapshot_is_never_okay(input.snapshot, input.admin_host@);
    lemma_none_is_okay(a);
    assert(none_is_okay(b));
    lemma_none_is_okay(b);
    assert(none_is_okay(c));
    lemma_none_is_okay(c);
    assert(none_is_okay(d));
    lemma_none_is_okay(d);
    assert(none_is_okay(f));
    lemma_none_is_okay(f);
    assert(none_is_okay(i));
    lemma_none_is_okay(i);
    assert(none_is_okay(j));
    lemma_none_is_okay(j);
    diagnose_laws::lemma_calm_text();
    reveal_strlit("kfstrace: ");
    reveal_strlit("radostrace: ");
    if g.len() > 0 {
        assert(g[0].text[0] == 'k');
    }
    if h.len() > 0 {
        assert(h[0].text[0] == 'r');
    }
    diagnose_laws::lemma_among_both(a, b, x);
    diagnose_laws::lemma_among_both(a + b, c, x);
    diagnose_laws::lemma_among_both(a + b + c, d, x);
    diagnose_laws::lemma_among_both(a + b + c + d, e, x);
    diagnose_laws::lemma_among_both(a + b + c + d + e, f, x);
    diagnose_laws::lemma_among_both(a + b + c + d + e + f, g, x);
    diagnose_laws::lemma_among_both(a + b + c + d + e + f + g, h, x);
    diagnose_laws::lemma_among_both(a + b + c + d + e + f + g + h, i, x);
    diagnose_laws::lemma_among_both(a + b + c + d + e + f + g + h + i, j, x);
    diagnose_laws::law_calm_is_told_only_where_no_osd_was_slow(
        *input.node_summaries,
        active,
        input.trace_window_secs,
    );
    lemma_active_rows(input.trace_rows@);
}

proof fn lemma_active_rows(rows: Seq<TraceGraphRow>)
    ensures
        ({
            let active = rows.filter(diagnose::is_active());
            &&& active.len() > 0 <==> exists|i: int|
                0 <= i < rows.len() && (#[trigger] rows[i]).ops > 0
            &&& (forall|i: int| 0 <= i < active.len() ==> (#[trigger] active[i]).max_us < 10_000)
                <==> forall|i: int|
                0 <= i < rows.len() && (#[trigger] rows[i]).ops > 0 ==> rows[i].max_us < 10_000
        }),
{
    let keep = diagnose::is_active();
    let active = rows.filter(keep);
    assert forall|i: int| 0 <= i < rows.len() && (#[trigger] rows[i]).ops > 0 implies
        active.contains(rows[i]) by {
        assert(keep(rows[i]));
        rows.lemma_filter_contains(keep, i);
    }
    assert forall|k: int| 0 <= k < active.len() implies exists|i: int|
        0 <= i < rows.len() && (#[trigger] rows[i]).ops > 0 && rows[i] == #[trigger] active[k] by {
        rows.lemma_filter_pred(keep, k);
        rows.lemma_filter_contains_rev(keep, active[k]);
        let i = choose|i: int| 0 <= i < rows.len() && rows[i] == active[k];
        assert(rows[i].ops > 0);
    }
    if active.len() > 0 {
        let i = choose|i: int|
            0 <= i < rows.len() && (#[trigger] rows[i]).ops > 0 && rows[i] == active[0];
        assert(rows[i].ops > 0);
    }
    if forall|i: int| 0 <= i < active.len() ==> (#[trigger] active[i]).max_us < 10_000 {
        assert forall|i: int|
            0 <= i < rows.len() && (#[trigger] rows[i]).ops > 0 implies rows[i].max_us
            < 10_000 by {
            assert(active.contains(rows[i]));
            let k = choose|k: int| 0 <= k < active.len() && active[k] == rows[i];
            assert(active[k].max_us < 10_000);
        }
    }
    if forall|i: int|
        0 <= i < rows.len() && (#[trigger] rows[i]).ops > 0 ==> rows[i].max_us < 10_000 {
        assert forall|k: int| 0 <= k < active.len() implies (#[trigger] active[k]).max_us
            < 10_000 by {
            let i = choose|i: int|
                0 <= i < rows.len() && (#[trigger] rows[i]).ops > 0 && rows[i] == active[k];
            assert(rows[i].max_us < 10_000);
        }
    }
}

} // verus!
