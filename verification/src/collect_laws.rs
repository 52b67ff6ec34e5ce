//! What holds of the lists that a snapshot is read into.

use crate::collect;
use crate::json;
use crate::json::JsonTree;
use crate::model::{HealthCheckView, OsdView, PgView};
use crate::order;
use crate::tally;
use crate::text;
use vstd::prelude::*;

verus! {

proof fn lemma_texts_compare(a: Seq<char>, b: Seq<char>, c: Seq<char>)
    ensures
        !text::text_before(a, a),
        text::text_before(a, b) && text::text_before(b, c) ==> text::text_before(a, c),
        !text::text_before(a, b) && !text::text_before(b, c) ==> !text::text_before(a, c),
{
    text::law_text_before_is_a_strict_total_order(a, b, c);
    text::law_text_before_is_a_strict_total_order(c, b, a);
    text::law_text_before_is_a_strict_total_order(a, c, b);
}

/// There is one OSD for each row of `ceph osd df`, and they are ordered by id.
pub proof fn law_osds_are_ordered(tree: JsonTree, df: JsonTree, perf: Option<JsonTree>)
    ensures
        ({
            let osds = collect::osds_of(tree, df, perf);
            &&& osds.len() == json::entries_at(df, "/nodes"@).len()
            &&& osds.to_multiset() == collect::osd_rows(tree, df, perf).to_multiset()
            &&& forall|i: int, j: int|
                0 <= i < j < osds.len() ==> (#[trigger] osds[i]).id <= (#[trigger] osds[j]).id
        }),
{
    let rows = collect::osd_rows(tree, df, perf);
    let before = collect::by_osd_id();
    order::law_sorted_by_orders_the_same_entries(rows, before);
    let osds = collect::osds_of(tree, df, perf);
    assert forall|i: int, j: int| 0 <= i < j < osds.len() implies (#[trigger] osds[i]).id <= (
    #[trigger] osds[j]).id by {
        assert(!before(osds[j], osds[i]));
    }
}

/// An OSD without the latencies that `ceph osd perf` gives.
pub open spec fn without_latency(osd: OsdView) -> OsdView {
    OsdView { commit_latency_ms: 0, apply_latency_ms: 0, ..osd }
}

/// A cluster that refuses `ceph osd perf` still gets its OSDs: they are the same
/// but for the latencies, which are zero.
pub proof fn law_latency_is_supplementary(tree: JsonTree, df: JsonTree, perf: JsonTree)
    ensures
        collect::osds_of(tree, df, None) == collect::osds_of(tree, df, Some(perf)).map_values(
            |osd: OsdView| without_latency(osd),
        ),
{
    let to = |osd: OsdView| without_latency(osd);
    let with = collect::osd_rows(tree, df, Some(perf));
    let without = collect::osd_rows(tree, df, None);
    let before = collect::by_osd_id();
    let infos = json::opt_entries_at(None, "/osdstats/osd_perf_infos"@);
    assert(collect::perf_of(infos) == Map::<i64, (u64, u64)>::empty());
    assert(with.map_values(to) =~= without);
    order::lemma_sorted_by_map(with, before, to, before);
}

/// There is one pool for each pool of the OSD map, and they are ordered by id.
pub proof fn law_pools_are_ordered(
    osdmap: Option<JsonTree>,
    crush: Option<JsonTree>,
    tree: JsonTree,
)
    ensures
        ({
            let pools = collect::pools_of(osdmap, crush, tree);
            &&& pools.len() == json::opt_entries_at(osdmap, "/pools"@).len()
            &&& forall|i: int, j: int|
                0 <= i < j < pools.len() ==> (#[trigger] pools[i]).id <= (#[trigger] pools[j]).id
        }),
{
    let domains = collect::rule_domains(collect::rules_in(crush));
    let nodes = json::entries_at(tree, "/nodes"@);
    let rows = json::opt_entries_at(osdmap, "/pools"@).map_values(
        |pool: JsonTree| collect::pool_of(pool, domains, nodes),
    );
    let before = collect::by_pool_id();
    order::law_sorted_by_orders_the_same_entries(rows, before);
    let pools = collect::pools_of(osdmap, crush, tree);
    assert forall|i: int, j: int| 0 <= i < j < pools.len() implies (#[trigger] pools[i]).id <= (
    #[trigger] pools[j]).id by {
        assert(!before(pools[j], pools[i]));
    }
}

/// A pool whose rule names no failure domain has none available.
pub proof fn law_no_domain_means_none_available(
    pool: JsonTree,
    domains: Map<i64, Seq<char>>,
    nodes: Seq<JsonTree>,
)
    requires
        !domains.contains_key(json::i64_at(pool, "/crush_rule"@)),
    ensures
        collect::pool_of(pool, domains, nodes).failure_domain.len() == 0,
        collect::pool_of(pool, domains, nodes).available_domains == 0,
{
}

/// There is one health check for each member of `health.checks`, and they are
/// ordered by code, strictly where no name of the report is doubled, as none is in
/// one that was parsed.
pub proof fn law_health_checks_are_ordered(status: JsonTree)
    ensures
        ({
            let checks = collect::health_checks_of(status);
            &&& checks.len() == json::fields_at(status, "/health/checks"@).len()
            &&& forall|i: int, j: int|
                0 <= i < j < checks.len() ==> !text::text_before(
                    (#[trigger] checks[j]).code,
                    (#[trigger] checks[i]).code,
                )
            &&& json::names_differ(status) ==> forall|i: int, j: int|
                0 <= i < j < checks.len() ==> text::text_before(
                    (#[trigger] checks[i]).code,
                    (#[trigger] checks[j]).code,
                )
        }),
{
    let rows = json::fields_at(status, "/health/checks"@).map_values(
        |field: (Seq<char>, JsonTree)| collect::health_check_of(field),
    );
    let before = collect::by_code();
    assert forall|a: HealthCheckView| !#[trigger] before(a, a) by {
        lemma_texts_compare(a.code, a.code, a.code);
    }
    assert forall|a: HealthCheckView, b: HealthCheckView, c: HealthCheckView| #[trigger]
        before(a, b) && #[trigger] before(b, c) implies before(a, c) by {
        lemma_texts_compare(a.code, b.code, c.code);
    }
    assert forall|a: HealthCheckView, b: HealthCheckView, c: HealthCheckView|
        !(#[trigger] before(a, b)) && !(#[trigger] before(b, c)) implies !before(a, c) by {
        lemma_texts_compare(a.code, b.code, c.code);
    }
    order::law_sorted_by_orders_the_same_entries(rows, before);
    let checks = collect::health_checks_of(status);
    assert forall|i: int, j: int| 0 <= i < j < checks.len() implies !text::text_before(
        (#[trigger] checks[j]).code,
        (#[trigger] checks[i]).code,
    ) by {
        assert(!before(checks[j], checks[i]));
    }
    if json::names_differ(status) {
        lemma_codes_differ(status);
        assert forall|i: int, j: int| 0 <= i < j < checks.len() implies text::text_before(
            (#[trigger] checks[i]).code,
            (#[trigger] checks[j]).code,
        ) by {
            lemma_sorted_codes_differ(rows, before, i, j);
            assert(!before(checks[j], checks[i]));
            text::law_text_before_is_a_strict_total_order(
                checks[i].code,
                checks[j].code,
                checks[i].code,
            );
        }
    }
}

/// Sorting checks whose codes differ leaves no two places with one code.
proof fn lemma_sorted_codes_differ(
    rows: Seq<HealthCheckView>,
    before: spec_fn(HealthCheckView, HealthCheckView) -> bool,
    i: int,
    j: int,
)
    requires
        forall|a: int, b: int|
            0 <= a < b < rows.len() ==> (#[trigger] rows[a]).code != (#[trigger] rows[b]).code,
        0 <= i < j < rows.len(),
    ensures
        order::sorted_by(rows, before)[i].code != order::sorted_by(rows, before)[j].code,
{
    broadcast use vstd::seq_lib::group_to_multiset_ensures;

    let sorted = order::sorted_by(rows, before);
    order::law_sorted_by_orders_the_same_entries(rows, before);
    assert(rows.no_duplicates());
    rows.lemma_multiset_has_no_duplicates();
    sorted.lemma_multiset_has_no_duplicates_conv();
    assert(sorted.to_multiset().count(sorted[i]) > 0 && sorted.to_multiset().count(sorted[j]) > 0);
    assert(rows.contains(sorted[i]) && rows.contains(sorted[j]));
    let a = choose|a: int| 0 <= a < rows.len() && rows[a] == sorted[i];
    let b = choose|b: int| 0 <= b < rows.len() && rows[b] == sorted[j];
    assert(sorted[i] != sorted[j]);
    if a < b {
        assert(rows[a].code != rows[b].code);
    } else {
        assert(rows[b].code != rows[a].code);
    }
}

proof fn lemma_codes_differ(status: JsonTree)
    requires
        json::names_differ(status),
    ensures
        ({
            let rows = json::fields_at(status, "/health/checks"@).map_values(
                |field: (Seq<char>, JsonTree)| collect::health_check_of(field),
            );
            forall|a: int, b: int|
                0 <= a < b < rows.len() ==> (#[trigger] rows[a]).code != (#[trigger] rows[b]).code
        }),
{
    let fields = json::fields_at(status, "/health/checks"@);
    let rows = fields.map_values(
        |field: (Seq<char>, JsonTree)| collect::health_check_of(field),
    );
    if json::tree_at(status, "/health/checks"@) is Some {
        json::lemma_pointer_keeps_names(status, "/health/checks"@);
    }
    assert forall|a: int, b: int| 0 <= a < b < rows.len() implies (#[trigger] rows[a]).code != (
    #[trigger] rows[b]).code by {
        assert(fields[a].0 != fields[b].0);
    }
}

/// No placement group that is listed is `active+clean`, each that is not is
/// listed, and they are ordered by id.
pub proof fn law_abnormal_pgs_are_those_not_clean(pgs: Option<JsonTree>)
    ensures
        ({
            let listed = collect::abnormal_pgs_of(pgs);
            let all = json::opt_entries_at(pgs, "/pg_stats"@);
            &&& forall|i: int|
                0 <= i < listed.len() ==> (#[trigger] listed[i]).state != "active+clean"@
            &&& forall|i: int|
                0 <= i < all.len() && json::text_at(#[trigger] all[i], "/state"@)
                    != "active+clean"@ ==> listed.contains(collect::pg_of(all[i]))
            &&& forall|i: int, j: int|
                0 <= i < j < listed.len() ==> !text::text_before(
                    (#[trigger] listed[j]).id,
                    (#[trigger] listed[i]).id,
                )
        }),
{
    broadcast use vstd::seq_lib::group_to_multiset_ensures;

    let all = json::opt_entries_at(pgs, "/pg_stats"@);
    let pick = |pg: JsonTree| collect::abnormal_pg(pg);
    let rows = tally::picked(all, pick);
    let before = collect::by_pg_id();
    assert forall|a: PgView| !#[trigger] before(a, a) by {
        lemma_texts_compare(a.id, a.id, a.id);
    }
    assert forall|a: PgView, b: PgView, c: PgView| #[trigger] before(a, b) && #[trigger] before(
        b,
        c,
    ) implies before(a, c) by {
        lemma_texts_compare(a.id, b.id, c.id);
    }
    assert forall|a: PgView, b: PgView, c: PgView|
        !(#[trigger] before(a, b)) && !(#[trigger] before(b, c)) implies !before(a, c) by {
        lemma_texts_compare(a.id, b.id, c.id);
    }
    order::law_sorted_by_orders_the_same_entries(rows, before);
    let listed = collect::abnormal_pgs_of(pgs);
    lemma_picked_states(all);
    assert forall|i: int| 0 <= i < listed.len() implies (#[trigger] listed[i]).state
        != "active+clean"@ by {
        assert(listed.to_multiset().count(listed[i]) > 0);
        assert(rows.contains(listed[i]));
        let m = choose|m: int| 0 <= m < rows.len() && rows[m] == listed[i];
        assert(rows[m].state != "active+clean"@);
    }
    assert forall|i: int|
        0 <= i < all.len() && json::text_at(#[trigger] all[i], "/state"@)
            != "active+clean"@ implies listed.contains(collect::pg_of(all[i])) by {
        assert(rows.contains(collect::pg_of(all[i])));
        let m = choose|m: int| 0 <= m < rows.len() && rows[m] == collect::pg_of(all[i]);
        assert(rows.to_multiset().count(rows[m]) > 0);
        assert(listed.to_multiset().count(rows[m]) > 0);
    }
    assert forall|i: int, j: int| 0 <= i < j < listed.len() implies !text::text_before(
        (#[trigger] listed[j]).id,
        (#[trigger] listed[i]).id,
    ) by {
        assert(!before(listed[j], listed[i]));
    }
}

proof fn lemma_picked_states(all: Seq<JsonTree>)
    ensures
        ({
            let rows = tally::picked(all, |pg: JsonTree| collect::abnormal_pg(pg));
            &&& forall|i: int|
                0 <= i < rows.len() ==> (#[trigger] rows[i]).state != "active+clean"@
            &&& forall|i: int|
                0 <= i < all.len() && json::text_at(#[trigger] all[i], "/state"@)
                    != "active+clean"@ ==> rows.contains(collect::pg_of(all[i]))
        }),
    decreases all.len(),
{
    let pick = |pg: JsonTree| collect::abnormal_pg(pg);
    let rows = tally::picked(all, pick);
    if all.len() > 0 {
        let rest = all.drop_last();
        lemma_picked_states(rest);
        let head = tally::picked(rest, pick);
        assert forall|i: int| 0 <= i < rows.len() implies (#[trigger] rows[i]).state
            != "active+clean"@ by {
            if i < head.len() {
                assert(head[i] == rows[i]);
            }
        }
        assert forall|i: int|
            0 <= i < all.len() && json::text_at(#[trigger] all[i], "/state"@)
                != "active+clean"@ implies rows.contains(collect::pg_of(all[i])) by {
            if i < rest.len() {
                assert(rest[i] == all[i]);
                assert(head.contains(collect::pg_of(rest[i])));
                let m = choose|m: int| 0 <= m < head.len() && head[m] == collect::pg_of(rest[i]);
                assert(rows[m] == head[m]);
            } else {
                assert(rows[rows.len() - 1] == collect::pg_of(all[i]));
            }
        }
    }
}

} // verus!
