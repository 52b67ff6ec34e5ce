//! What the lists and summaries of a snapshot say, value by value.

use crate::collect;
use crate::double::Double;
use crate::json;
use crate::json::JsonTree;
use crate::json_laws;
use crate::model::{HealthCheckView, OsdView, PgView, PoolView};
use crate::order;
use crate::tally;
use crate::text;
use vstd::prelude::*;

verus! {

/// `out` is the text that stands at `path`, or empty where no text does.
pub open spec fn tells(out: Seq<char>, tree: JsonTree, path: Seq<char>) -> bool {
    match json::tree_at(tree, path) {
        Some(JsonTree::Str(s)) => out == s,
        _ => out.len() == 0,
    }
}

/// `out` is the count that stands at `path`, or zero where no count does.
pub open spec fn counts(out: u64, tree: JsonTree, path: Seq<char>) -> bool {
    match json::tree_at(tree, path) {
        Some(JsonTree::Number(n)) => match n.unsigned {
            Some(v) => out == v,
            None => out == 0,
        },
        _ => out == 0,
    }
}

/// `out` is the integer that stands at `path`, or zero where no integer does.
pub open spec fn identifies(out: i64, tree: JsonTree, path: Seq<char>) -> bool {
    match json::tree_at(tree, path) {
        Some(JsonTree::Number(n)) => match n.signed {
            Some(v) => out == v,
            None => out == 0,
        },
        _ => out == 0,
    }
}

/// `out` is the number that stands at `path`, or zero where none does.
pub open spec fn measures(out: Double, tree: JsonTree, path: Seq<char>) -> bool {
    match json::tree_at(tree, path) {
        Some(JsonTree::Number(n)) => match n.double {
            Some(v) => out == v,
            None => out.bits == 0,
        },
        _ => out.bits == 0,
    }
}

/// The entries of the list at `path`, none where no list stands there.
pub open spec fn listed(tree: JsonTree, path: Seq<char>) -> Seq<JsonTree> {
    match json::tree_at(tree, path) {
        Some(JsonTree::Array(items)) => items,
        _ => Seq::empty(),
    }
}

proof fn lemma_listed(tree: JsonTree, path: Seq<char>)
    ensures
        json::entries_at(tree, path) == listed(tree, path),
        json::opt_entries_at(Some(tree), path) == listed(tree, path),
{
}

proof fn lemma_reads(tree: JsonTree, path: Seq<char>)
    ensures
        tells(json::text_at(tree, path), tree, path),
        counts(json::u64_at(tree, path), tree, path),
        identifies(json::i64_at(tree, path), tree, path),
        measures(json::double_at(tree, path), tree, path),
{
}

/// A manager is available exactly where the status says so with a plain `true`.
pub proof fn law_manager_is_available_only_if_the_status_says_so(
    status: JsonTree,
    osdmap: Option<JsonTree>,
)
    ensures
        collect::cluster_of(status, osdmap).mgr_available <==> json::tree_at(
            status,
            "/mgrmap/available"@,
        ) == Some(JsonTree::Bool(true)),
{
}

/// The summary gives each text and each count of `ceph -s` under its own name.
pub proof fn law_cluster_says_what_the_status_says(status: JsonTree, osdmap: Option<JsonTree>)
    ensures
        ({
            let cluster = collect::cluster_of(status, osdmap);
            &&& tells(cluster.fsid, status, "/fsid"@)
            &&& tells(cluster.health, status, "/health/status"@)
            &&& counts(cluster.mon_count, status, "/monmap/num_mons"@)
            &&& counts(cluster.mgr_standbys, status, "/mgrmap/num_standbys"@)
            &&& counts(cluster.osds_total, status, "/osdmap/num_osds"@)
            &&& counts(cluster.osds_up, status, "/osdmap/num_up_osds"@)
            &&& counts(cluster.osds_in, status, "/osdmap/num_in_osds"@)
            &&& counts(cluster.pools, status, "/pgmap/num_pools"@)
            &&& counts(cluster.pgs, status, "/pgmap/num_pgs"@)
            &&& counts(cluster.objects, status, "/pgmap/num_objects"@)
            &&& counts(cluster.bytes_used, status, "/pgmap/bytes_used"@)
            &&& counts(cluster.bytes_total, status, "/pgmap/bytes_total"@)
            &&& counts(cluster.read_bytes_sec, status, "/pgmap/read_bytes_sec"@)
            &&& counts(cluster.write_bytes_sec, status, "/pgmap/write_bytes_sec"@)
            &&& counts(cluster.read_ops_sec, status, "/pgmap/read_op_per_sec"@)
            &&& counts(cluster.write_ops_sec, status, "/pgmap/write_op_per_sec"@)
            &&& counts(cluster.recovering_bytes_sec, status, "/pgmap/recovering_bytes_per_sec"@)
        }),
{
    let cluster = collect::cluster_of(status, osdmap);
    lemma_reads(status, "/fsid"@);
    lemma_reads(status, "/health/status"@);
}

/// The quorum names the monitors that the status lists by name, in their order.
pub proof fn law_quorum_names_the_listed_monitors(status: JsonTree, osdmap: Option<JsonTree>)
    ensures
        collect::cluster_of(status, osdmap).quorum == listed(status, "/quorum_names"@).filter(
            |t: JsonTree| t is Str,
        ).map_values(|t: JsonTree| t->Str_0),
{
    lemma_listed(status, "/quorum_names"@);
    json_laws::law_lists_keep_what_fits(listed(status, "/quorum_names"@));
}

/// The fill ratios are those of the OSD map, each its own, and zero without one.
pub proof fn law_ratios_are_those_of_the_osd_map(status: JsonTree, osdmap: Option<JsonTree>)
    ensures
        ({
            let cluster = collect::cluster_of(status, osdmap);
            match osdmap {
                Some(map) => {
                    &&& measures(cluster.nearfull_ratio, map, "/nearfull_ratio"@)
                    &&& measures(cluster.backfillfull_ratio, map, "/backfillfull_ratio"@)
                    &&& measures(cluster.full_ratio, map, "/full_ratio"@)
                },
                None => {
                    &&& cluster.nearfull_ratio.bits == 0
                    &&& cluster.backfillfull_ratio.bits == 0
                    &&& cluster.full_ratio.bits == 0
                },
            }
        }),
{
}

/// The placement group states are told in the order of the status, each as its
/// count and its name, with commas between them.
pub proof fn law_pg_states_are_told_in_order(
    status: JsonTree,
    osdmap: Option<JsonTree>,
    numbers: Seq<u64>,
    names: Seq<Seq<char>>,
)
    requires
        ({
            let states = listed(status, "/pgmap/pgs_by_state"@);
            &&& numbers.len() == states.len()
            &&& names.len() == states.len()
            &&& forall|i: int|
                0 <= i < states.len() ==> counts(numbers[i], #[trigger] states[i], "/count"@)
                    && tells(names[i], states[i], "/state_name"@)
        }),
    ensures
        collect::cluster_of(status, osdmap).pg_states == text::joined(
            Seq::new(
                numbers.len(),
                |i: int| text::decimal(numbers[i] as nat) + " "@ + names[i],
            ),
            ", "@,
        ),
{
    let states = listed(status, "/pgmap/pgs_by_state"@);
    lemma_listed(status, "/pgmap/pgs_by_state"@);
    let told = Seq::new(
        numbers.len(),
        |i: int| text::decimal(numbers[i] as nat) + " "@ + names[i],
    );
    let shown = states.map_values(|state: JsonTree| collect::pg_state_text(state));
    assert forall|i: int| 0 <= i < states.len() implies shown[i] == told[i] by {
        assert(counts(numbers[i], states[i], "/count"@));
        lemma_reads(states[i], "/state_name"@);
        lemma_reads(states[i], "/count"@);
        assert(json::text_at(states[i], "/state_name"@) =~= names[i]);
    }
    assert(shown =~= told);
}

/// What a health check of the status says under its code.
pub open spec fn check_says(check: HealthCheckView, code: Seq<char>, body: JsonTree) -> bool {
    &&& check.code == code
    &&& tells(check.severity, body, "/severity"@)
    &&& tells(check.message, body, "/summary/message"@)
    &&& check.details == listed(body, "/detail"@).filter(
        |d: JsonTree|
            json::tree_at(d, "/message"@) is Some && json::tree_at(d, "/message"@)->0 is Str,
    ).map_values(|d: JsonTree| json::tree_at(d, "/message"@)->0->Str_0)
}

proof fn lemma_check_says(field: (Seq<char>, JsonTree))
    ensures
        check_says(collect::health_check_of(field), field.0, field.1),
{
    let body = field.1;
    lemma_reads(body, "/severity"@);
    lemma_reads(body, "/summary/message"@);
    lemma_listed(body, "/detail"@);
    let items = listed(body, "/detail"@);
    let pick = |d: JsonTree| collect::message_in(d);
    let keep = |d: JsonTree|
        json::tree_at(d, "/message"@) is Some && json::tree_at(d, "/message"@)->0 is Str;
    tally::law_picked_keeps_what_is_there(items, pick);
    assert((|d: JsonTree| pick(d) is Some) =~= keep);
    let kept = items.filter(keep);
    assert(kept.map_values(|d: JsonTree| pick(d)->0) =~= kept.map_values(
        |d: JsonTree| json::tree_at(d, "/message"@)->0->Str_0,
    )) by {
        assert forall|i: int| 0 <= i < kept.len() implies pick(#[trigger] kept[i])->0
            == json::tree_at(kept[i], "/message"@)->0->Str_0 by {
            items.lemma_filter_pred(keep, i);
        }
    }
}

/// Sorting keeps every entry: each has a place in the sorted list, and each place
/// holds one of them.
proof fn lemma_sorted_places<T>(items: Seq<T>, before: spec_fn(T, T) -> bool)
    ensures
        forall|i: int|
            0 <= i < items.len() ==> order::sorted_by(items, before).contains(#[trigger] items[i]),
        forall|k: int|
            0 <= k < order::sorted_by(items, before).len() ==> items.contains(
                #[trigger] order::sorted_by(items, before)[k],
            ),
        order::sorted_by(items, before).len() == items.len(),
{
    broadcast use vstd::seq_lib::group_to_multiset_ensures;

    let sorted = order::sorted_by(items, before);
    order::law_sorted_by_orders_the_same_entries(items, before);
    assert forall|i: int| 0 <= i < items.len() implies sorted.contains(#[trigger] items[i]) by {
        assert(items.contains(items[i]));
        assert(items.to_multiset().count(items[i]) > 0);
        assert(sorted.to_multiset().count(items[i]) > 0);
    }
    assert forall|k: int| 0 <= k < sorted.len() implies items.contains(#[trigger] sorted[k]) by {
        assert(sorted.contains(sorted[k]));
        assert(sorted.to_multiset().count(sorted[k]) > 0);
        assert(items.to_multiset().count(sorted[k]) > 0);
    }
}

/// One of the checks says what the status says under `code`.
pub open spec fn is_told(checks: Seq<HealthCheckView>, code: Seq<char>, body: JsonTree) -> bool {
    exists|k: int| 0 <= k < checks.len() && check_says(#[trigger] checks[k], code, body)
}

/// The check says what one of the members says.
pub open spec fn is_raised(check: HealthCheckView, fields: Seq<(Seq<char>, JsonTree)>) -> bool {
    exists|i: int|
        0 <= i < fields.len() && check_says(check, (#[trigger] fields[i]).0, fields[i].1)
}

/// Every check that the status raises is in the summary with its severity, its
/// message and its details, and no other is.
pub proof fn law_every_raised_check_is_told(status: JsonTree, osdmap: Option<JsonTree>)
    ensures
        ({
            let checks = collect::cluster_of(status, osdmap).health_checks;
            match json::tree_at(status, "/health/checks"@) {
                Some(JsonTree::Object(fields)) => {
                    &&& checks.len() == fields.len()
                    &&& forall|i: int|
                        0 <= i < fields.len() ==> is_told(
                            checks,
                            (#[trigger] fields[i]).0,
                            fields[i].1,
                        )
                    &&& forall|k: int|
                        0 <= k < checks.len() ==> is_raised(#[trigger] checks[k], fields)
                },
                _ => checks.len() == 0,
            }
        }),
{
    let checks = collect::cluster_of(status, osdmap).health_checks;
    let fields = json::fields_at(status, "/health/checks"@);
    lemma_checks_told(fields);
}

proof fn lemma_checks_told(fields: Seq<(Seq<char>, JsonTree)>)
    ensures
        ({
            let checks = order::sorted_by(
                fields.map_values(|field: (Seq<char>, JsonTree)| collect::health_check_of(field)),
                collect::by_code(),
            );
            &&& checks.len() == fields.len()
            &&& forall|i: int|
                0 <= i < fields.len() ==> is_told(checks, (#[trigger] fields[i]).0, fields[i].1)
            &&& forall|k: int| 0 <= k < checks.len() ==> is_raised(#[trigger] checks[k], fields)
        }),
{
    let to = |field: (Seq<char>, JsonTree)| collect::health_check_of(field);
    let rows = fields.map_values(to);
    let checks = order::sorted_by(rows, collect::by_code());
    lemma_sorted_places(rows, collect::by_code());
    assert forall|i: int| 0 <= i < fields.len() implies is_told(
        checks,
        (#[trigger] fields[i]).0,
        fields[i].1,
    ) by {
        assert(checks.contains(rows[i]));
        let k = choose|k: int| 0 <= k < checks.len() && checks[k] == rows[i];
        lemma_check_says(fields[i]);
        assert(check_says(checks[k], fields[i].0, fields[i].1));
    }
    assert forall|k: int| 0 <= k < checks.len() implies is_raised(#[trigger] checks[k], fields) by {
        assert(rows.contains(checks[k]));
        let i = choose|i: int| 0 <= i < rows.len() && rows[i] == checks[k];
        lemma_check_says(fields[i]);
        assert(check_says(checks[k], fields[i].0, fields[i].1));
    }
}

/// The node is a host whose children name `id`.
pub open spec fn hosts_osd(node: JsonTree, id: i64) -> bool {
    &&& tells("host"@, node, "/type"@)
    &&& exists|c: int|
        0 <= c < listed(node, "/children"@).len() && is_number(
            #[trigger] listed(node, "/children"@)[c],
            id,
        )
}

/// The value is the number `id`.
pub open spec fn is_number(tree: JsonTree, id: i64) -> bool {
    tree is Number && tree->Number_0.signed == Some(id)
}

/// The node is the OSD `id`.
pub open spec fn is_osd(node: JsonTree, id: i64) -> bool {
    tells("osd"@, node, "/type"@) && identifies(id, node, "/id"@)
}

/// The entry gives the latencies of the OSD `id`.
pub open spec fn times_osd(info: JsonTree, id: i64) -> bool {
    identifies(id, info, "/id"@)
}

proof fn lemma_placed(
    hosts: Map<i64, Seq<char>>,
    children: Seq<JsonTree>,
    host: Seq<char>,
    id: i64,
)
    ensures
        ({
            let map = collect::placed(hosts, children, host);
            let named = exists|c: int|
                0 <= c < children.len() && is_number(#[trigger] children[c], id);
            &&& named ==> map.contains_key(id) && map[id] == host
            &&& !named ==> (map.contains_key(id) <==> hosts.contains_key(id))
            &&& !named && hosts.contains_key(id) ==> map[id] == hosts[id]
        }),
    decreases children.len(),
{
    if children.len() > 0 {
        let rest = children.drop_last();
        lemma_placed(hosts, rest, host, id);
        assert(children[children.len() - 1] == children.last());
        if exists|c: int| 0 <= c < children.len() && is_number(#[trigger] children[c], id) {
            let c = choose|c: int|
                0 <= c < children.len() && is_number(#[trigger] children[c], id);
            if c < rest.len() {
                assert(is_number(rest[c], id));
            }
        }
        if exists|c: int| 0 <= c < rest.len() && is_number(#[trigger] rest[c], id) {
            let c = choose|c: int| 0 <= c < rest.len() && is_number(#[trigger] rest[c], id);
            assert(is_number(children[c], id));
        }
        if json::i64_in(children.last()) == Some(id) {
            assert(is_number(children[children.len() - 1], id));
        }
    }
}

proof fn lemma_words_of_types()
    ensures
        "host"@.len() > 0,
        "osd"@.len() > 0,
        "host"@ != "osd"@,
{
    reveal_strlit("host");
    reveal_strlit("osd");
}

proof fn lemma_type_is(node: JsonTree, kind: Seq<char>)
    requires
        kind.len() > 0,
    ensures
        json::text_at(node, "/type"@) == kind <==> tells(kind, node, "/type"@),
{
    lemma_reads(node, "/type"@);
}

/// The nodes from `h` on name no other host for `id`.
pub open spec fn last_host_of(nodes: Seq<JsonTree>, id: i64, h: int) -> bool {
    &&& 0 <= h < nodes.len()
    &&& hosts_osd(nodes[h], id)
    &&& forall|k: int| h < k < nodes.len() ==> !hosts_osd(#[trigger] nodes[k], id)
}

proof fn lemma_osd_hosts(nodes: Seq<JsonTree>, id: i64)
    ensures
        forall|h: int| #[trigger]
            last_host_of(nodes, id, h) ==> {
                let map = collect::osd_hosts(nodes);
                map.contains_key(id) && map[id] == json::text_at(nodes[h], "/name"@)
            },
        (forall|k: int| 0 <= k < nodes.len() ==> !hosts_osd(#[trigger] nodes[k], id))
            ==> !collect::osd_hosts(nodes).contains_key(id),
    decreases nodes.len(),
{
    lemma_words_of_types();
    if nodes.len() > 0 {
        let rest = nodes.drop_last();
        let node = nodes.last();
        let last = nodes.len() - 1;
        assert(nodes[last] == node);
        lemma_osd_hosts(rest, id);
        lemma_type_is(node, "host"@);
        lemma_listed(node, "/children"@);
        let head = collect::osd_hosts(rest);
        lemma_placed(head, listed(node, "/children"@), json::text_at(node, "/name"@), id);
        assert forall|h: int| #[trigger] last_host_of(nodes, id, h) implies {
            let map = collect::osd_hosts(nodes);
            map.contains_key(id) && map[id] == json::text_at(nodes[h], "/name"@)
        } by {
            if h < last {
                assert(!hosts_osd(nodes[last], id));
                assert forall|k: int| h < k < rest.len() implies !hosts_osd(
                    #[trigger] rest[k],
                    id,
                ) by {
                    assert(rest[k] == nodes[k]);
                }
                assert(last_host_of(rest, id, h));
            }
        }
        if forall|k: int| 0 <= k < nodes.len() ==> !hosts_osd(#[trigger] nodes[k], id) {
            assert(!hosts_osd(nodes[last], id));
            assert forall|k: int| 0 <= k < rest.len() implies !hosts_osd(#[trigger] rest[k], id) by {
                assert(rest[k] == nodes[k]);
            }
        }
    }
}

/// The node at `h` is the last one for the OSD `id`.
pub open spec fn last_osd_of(nodes: Seq<JsonTree>, id: i64, h: int) -> bool {
    &&& 0 <= h < nodes.len()
    &&& is_osd(nodes[h], id)
    &&& forall|k: int| h < k < nodes.len() ==> !is_osd(#[trigger] nodes[k], id)
}

proof fn lemma_osd_statuses(nodes: Seq<JsonTree>, id: i64)
    ensures
        forall|h: int| #[trigger]
            last_osd_of(nodes, id, h) ==> {
                let map = collect::osd_statuses(nodes);
                map.contains_key(id) && map[id] == json::text_at(nodes[h], "/status"@)
            },
        (forall|k: int| 0 <= k < nodes.len() ==> !is_osd(#[trigger] nodes[k], id))
            ==> !collect::osd_statuses(nodes).contains_key(id),
    decreases nodes.len(),
{
    lemma_words_of_types();
    if nodes.len() > 0 {
        let rest = nodes.drop_last();
        let node = nodes.last();
        let last = nodes.len() - 1;
        assert(nodes[last] == node);
        lemma_osd_statuses(rest, id);
        lemma_type_is(node, "osd"@);
        lemma_reads(node, "/id"@);
        assert forall|h: int| #[trigger] last_osd_of(nodes, id, h) implies {
            let map = collect::osd_statuses(nodes);
            map.contains_key(id) && map[id] == json::text_at(nodes[h], "/status"@)
        } by {
            if h < last {
                assert(!is_osd(nodes[last], id));
                assert forall|k: int| h < k < rest.len() implies !is_osd(#[trigger] rest[k], id) by {
                    assert(rest[k] == nodes[k]);
                }
                assert(last_osd_of(rest, id, h));
            }
        }
        if forall|k: int| 0 <= k < nodes.len() ==> !is_osd(#[trigger] nodes[k], id) {
            assert(!is_osd(nodes[last], id));
            assert forall|k: int| 0 <= k < rest.len() implies !is_osd(#[trigger] rest[k], id) by {
                assert(rest[k] == nodes[k]);
            }
        }
    }
}

/// The entry at `h` is the last one for the OSD `id`.
pub open spec fn last_times_of(infos: Seq<JsonTree>, id: i64, h: int) -> bool {
    &&& 0 <= h < infos.len()
    &&& times_osd(infos[h], id)
    &&& forall|k: int| h < k < infos.len() ==> !times_osd(#[trigger] infos[k], id)
}

proof fn lemma_perf(infos: Seq<JsonTree>, id: i64)
    ensures
        forall|h: int| #[trigger]
            last_times_of(infos, id, h) ==> {
                let map = collect::perf_of(infos);
                map.contains_key(id) && map[id] == (
                    json::u64_at(infos[h], "/perf_stats/commit_latency_ms"@),
                    json::u64_at(infos[h], "/perf_stats/apply_latency_ms"@),
                )
            },
        (forall|k: int| 0 <= k < infos.len() ==> !times_osd(#[trigger] infos[k], id))
            ==> !collect::perf_of(infos).contains_key(id),
    decreases infos.len(),
{
    if infos.len() > 0 {
        let rest = infos.drop_last();
        let info = infos.last();
        let last = infos.len() - 1;
        assert(infos[last] == info);
        lemma_perf(rest, id);
        lemma_reads(info, "/id"@);
        assert forall|h: int| #[trigger] last_times_of(infos, id, h) implies {
            let map = collect::perf_of(infos);
            map.contains_key(id) && map[id] == (
                json::u64_at(infos[h], "/perf_stats/commit_latency_ms"@),
                json::u64_at(infos[h], "/perf_stats/apply_latency_ms"@),
            )
        } by {
            if h < last {
                assert(!times_osd(infos[last], id));
                assert forall|k: int| h < k < rest.len() implies !times_osd(
                    #[trigger] rest[k],
                    id,
                ) by {
                    assert(rest[k] == infos[k]);
                }
                assert(last_times_of(rest, id, h));
            }
        }
        if forall|k: int| 0 <= k < infos.len() ==> !times_osd(#[trigger] infos[k], id) {
            assert(!times_osd(infos[last], id));
            assert forall|k: int| 0 <= k < rest.len() implies !times_osd(
                #[trigger] rest[k],
                id,
            ) by {
                assert(rest[k] == infos[k]);
            }
        }
    }
}

/// The values that an OSD has from its own row of `ceph osd df`.
pub open spec fn measured(osd: OsdView, row: JsonTree) -> bool {
    &&& identifies(osd.id, row, "/id"@)
    &&& tells(osd.name, row, "/name"@)
    &&& measures(osd.reweight, row, "/reweight"@)
    &&& measures(osd.utilization, row, "/utilization"@)
    &&& counts(osd.pgs, row, "/pgs"@)
    &&& counts(osd.used_kb, row, "/kb_used"@)
    &&& counts(osd.avail_kb, row, "/kb_avail"@)
}

/// The host of an OSD is the one that the tree lists it under.
pub open spec fn hosted(osd: OsdView, nodes: Seq<JsonTree>) -> bool {
    &&& forall|h: int| #[trigger]
        last_host_of(nodes, osd.id, h) ==> tells(osd.host, nodes[h], "/name"@)
    &&& (forall|k: int| 0 <= k < nodes.len() ==> !hosts_osd(#[trigger] nodes[k], osd.id))
        ==> osd.host.len() == 0
}

/// The status of an OSD is the one in the tree, or that of its own row where the
/// tree does not list it.
pub open spec fn stated(osd: OsdView, nodes: Seq<JsonTree>, row: JsonTree) -> bool {
    &&& forall|h: int| #[trigger]
        last_osd_of(nodes, osd.id, h) ==> tells(osd.status, nodes[h], "/status"@)
    &&& (forall|k: int| 0 <= k < nodes.len() ==> !is_osd(#[trigger] nodes[k], osd.id))
        ==> tells(osd.status, row, "/status"@)
}

/// The latencies of an OSD are those that `ceph osd perf` gives for it, and zero
/// where it gives none.
pub open spec fn timed(osd: OsdView, infos: Seq<JsonTree>) -> bool {
    &&& forall|h: int| #[trigger]
        last_times_of(infos, osd.id, h) ==> counts(
            osd.commit_latency_ms,
            infos[h],
            "/perf_stats/commit_latency_ms"@,
        ) && counts(osd.apply_latency_ms, infos[h], "/perf_stats/apply_latency_ms"@)
    &&& (forall|k: int| 0 <= k < infos.len() ==> !times_osd(#[trigger] infos[k], osd.id))
        ==> osd.commit_latency_ms == 0 && osd.apply_latency_ms == 0
}

/// What `ceph osd perf` lists, nothing where it was refused.
pub open spec fn perf_infos(perf: Option<JsonTree>) -> Seq<JsonTree> {
    match perf {
        Some(perf) => listed(perf, "/osdstats/osd_perf_infos"@),
        None => Seq::empty(),
    }
}

/// The OSD stands for the row of `ceph osd df`.
pub open spec fn stands_for(
    osd: OsdView,
    row: JsonTree,
    nodes: Seq<JsonTree>,
    infos: Seq<JsonTree>,
) -> bool {
    measured(osd, row) && hosted(osd, nodes) && stated(osd, nodes, row) && timed(osd, infos)
}

proof fn lemma_osd_stands_for(
    tree: JsonTree,
    perf: Option<JsonTree>,
    row: JsonTree,
)
    ensures
        ({
            let nodes = json::entries_at(tree, "/nodes"@);
            let infos = json::opt_entries_at(perf, "/osdstats/osd_perf_infos"@);
            stands_for(
                collect::osd_of(
                    row,
                    collect::osd_hosts(nodes),
                    collect::osd_statuses(nodes),
                    collect::perf_of(infos),
                ),
                row,
                listed(tree, "/nodes"@),
                perf_infos(perf),
            )
        }),
{
    lemma_listed(tree, "/nodes"@);
    if perf is Some {
        lemma_listed(perf->0, "/osdstats/osd_perf_infos"@);
    }
    let nodes = listed(tree, "/nodes"@);
    let infos = perf_infos(perf);
    assert(json::opt_entries_at(perf, "/osdstats/osd_perf_infos"@) == infos);
    let osd = collect::osd_of(
        row,
        collect::osd_hosts(nodes),
        collect::osd_statuses(nodes),
        collect::perf_of(infos),
    );
    let id = osd.id;
    lemma_reads(row, "/id"@);
    lemma_reads(row, "/name"@);
    lemma_reads(row, "/status"@);
    lemma_reads(row, "/reweight"@);
    lemma_reads(row, "/utilization"@);
    lemma_reads(row, "/pgs"@);
    lemma_reads(row, "/kb_used"@);
    lemma_reads(row, "/kb_avail"@);
    lemma_osd_hosts(nodes, id);
    lemma_osd_statuses(nodes, id);
    lemma_perf(infos, id);
    assert(measured(osd, row));
    assert(hosted(osd, nodes)) by {
        assert forall|h: int| #[trigger] last_host_of(nodes, id, h) implies tells(
            osd.host,
            nodes[h],
            "/name"@,
        ) by {
            lemma_reads(nodes[h], "/name"@);
        }
    }
    assert(stated(osd, nodes, row)) by {
        assert forall|h: int| #[trigger] last_osd_of(nodes, id, h) implies tells(
            osd.status,
            nodes[h],
            "/status"@,
        ) by {
            lemma_reads(nodes[h], "/status"@);
        }
    }
    assert(timed(osd, infos)) by {
        assert forall|h: int| #[trigger] last_times_of(infos, id, h) implies counts(
            osd.commit_latency_ms,
            infos[h],
            "/perf_stats/commit_latency_ms"@,
        ) && counts(osd.apply_latency_ms, infos[h], "/perf_stats/apply_latency_ms"@) by {
            lemma_reads(infos[h], "/perf_stats/commit_latency_ms"@);
            lemma_reads(infos[h], "/perf_stats/apply_latency_ms"@);
        }
    }
}

/// Every row of `ceph osd df` has an OSD, and every OSD a row: it has its id, name
/// and numbers from the row, its host and status from the tree, and its latencies
/// from `ceph osd perf`.
pub proof fn law_every_osd_says_what_ceph_says(tree: JsonTree, df: JsonTree, perf: Option<JsonTree>)
    ensures
        ({
            let osds = collect::osds_of(tree, df, perf);
            let rows = listed(df, "/nodes"@);
            let nodes = listed(tree, "/nodes"@);
            let infos = perf_infos(perf);
            &&& osds.len() == rows.len()
            &&& forall|x: int|
                0 <= x < rows.len() ==> exists|k: int|
                    0 <= k < osds.len() && stands_for(
                        #[trigger] osds[k],
                        #[trigger] rows[x],
                        nodes,
                        infos,
                    )
            &&& forall|k: int|
                0 <= k < osds.len() ==> exists|x: int|
                    0 <= x < rows.len() && stands_for(
                        #[trigger] osds[k],
                        #[trigger] rows[x],
                        nodes,
                        infos,
                    )
        }),
{
    let osds = collect::osds_of(tree, df, perf);
    let rows = listed(df, "/nodes"@);
    let nodes = listed(tree, "/nodes"@);
    let infos = perf_infos(perf);
    lemma_listed(df, "/nodes"@);
    let items = collect::osd_rows(tree, df, perf);
    lemma_sorted_places(items, collect::by_osd_id());
    assert forall|x: int| 0 <= x < rows.len() implies exists|k: int|
        0 <= k < osds.len() && stands_for(
            #[trigger] osds[k],
            #[trigger] rows[x],
            nodes,
            infos,
        ) by {
        lemma_osd_stands_for(tree, perf, rows[x]);
        assert(osds.contains(items[x]));
        let k = choose|k: int| 0 <= k < osds.len() && osds[k] == items[x];
        assert(stands_for(osds[k], rows[x], nodes, infos));
    }
    assert forall|k: int| 0 <= k < osds.len() implies exists|x: int|
        0 <= x < rows.len() && stands_for(
            #[trigger] osds[k],
            #[trigger] rows[x],
            nodes,
            infos,
        ) by {
        assert(items.contains(osds[k]));
        let x = choose|x: int| 0 <= x < items.len() && items[x] == osds[k];
        lemma_osd_stands_for(tree, perf, rows[x]);
        assert(stands_for(osds[k], rows[x], nodes, infos));
    }
}

/// The latencies that are kept for an OSD are the last ones that `ceph osd perf`
/// lists for it, commit first, and none where it lists none.
pub proof fn law_last_latencies_are_kept(perf: Option<JsonTree>, id: i64)
    ensures
        ({
            let kept = collect::perf_of(
                json::opt_entries_at(perf, "/osdstats/osd_perf_infos"@),
            );
            let infos = perf_infos(perf);
            &&& forall|h: int| #[trigger]
                last_times_of(infos, id, h) ==> kept.contains_key(id) && counts(
                    kept[id].0,
                    infos[h],
                    "/perf_stats/commit_latency_ms"@,
                ) && counts(kept[id].1, infos[h], "/perf_stats/apply_latency_ms"@)
            &&& (forall|k: int| 0 <= k < infos.len() ==> !times_osd(#[trigger] infos[k], id))
                ==> !kept.contains_key(id)
        }),
{
    if perf is Some {
        lemma_listed(perf->0, "/osdstats/osd_perf_infos"@);
    }
    let infos = perf_infos(perf);
    assert(json::opt_entries_at(perf, "/osdstats/osd_perf_infos"@) == infos);
    lemma_perf(infos, id);
    let kept = collect::perf_of(infos);
    assert forall|h: int| #[trigger] last_times_of(infos, id, h) implies kept.contains_key(id)
        && counts(kept[id].0, infos[h], "/perf_stats/commit_latency_ms"@) && counts(
        kept[id].1,
        infos[h],
        "/perf_stats/apply_latency_ms"@,
    ) by {
        lemma_reads(infos[h], "/perf_stats/commit_latency_ms"@);
        lemma_reads(infos[h], "/perf_stats/apply_latency_ms"@);
    }
}

/// The text that stands at `path`, empty where none does.
pub open spec fn text_there(tree: JsonTree, path: Seq<char>) -> Seq<char> {
    match json::tree_at(tree, path) {
        Some(JsonTree::Str(s)) => s,
        _ => Seq::empty(),
    }
}

/// The step at `s` is the first that chooses leaves.
pub open spec fn first_leaf(steps: Seq<JsonTree>, s: int) -> bool {
    &&& 0 <= s < steps.len()
    &&& text::begins(text_there(steps[s], "/op"@), "chooseleaf"@)
    &&& forall|k: int|
        0 <= k < s ==> !text::begins(text_there(#[trigger] steps[k], "/op"@), "chooseleaf"@)
}

/// The rule `id` spreads its leaves over a kind of bucket that it names.
pub open spec fn spreads(rule: JsonTree, id: i64) -> bool {
    &&& json::tree_at(rule, "/rule_id"@) is Some
    &&& is_number(json::tree_at(rule, "/rule_id"@)->0, id)
    &&& json::tree_at(rule, "/steps"@) is Some
    &&& json::tree_at(rule, "/steps"@)->0 is Array
    &&& exists|s: int| #[trigger]
        first_leaf(listed(rule, "/steps"@), s) && text_there(
            listed(rule, "/steps"@)[s],
            "/type"@,
        ).len() > 0
}

/// The rule at `r` is the last one that goes by `id`.
pub open spec fn last_rule_of(rules: Seq<JsonTree>, id: i64, r: int) -> bool {
    &&& 0 <= r < rules.len()
    &&& spreads(rules[r], id)
    &&& forall|k: int| r < k < rules.len() ==> !spreads(#[trigger] rules[k], id)
}

proof fn lemma_leaf_type(steps: Seq<JsonTree>)
    ensures
        forall|s: int| #[trigger]
            first_leaf(steps, s) ==> collect::leaf_type(steps) == text_there(steps[s], "/type"@),
        collect::leaf_type(steps).len() > 0 ==> exists|s: int| #[trigger] first_leaf(steps, s),
    decreases steps.len(),
{
    if steps.len() > 0 {
        let rest = steps.drop_first();
        lemma_leaf_type(rest);
        if text::begins(text_there(steps[0], "/op"@), "chooseleaf"@) {
            assert(first_leaf(steps, 0));
            assert forall|s: int| #[trigger] first_leaf(steps, s) implies collect::leaf_type(steps)
                == text_there(steps[s], "/type"@) by {
                if s > 0 {
                    assert(!text::begins(text_there(steps[0], "/op"@), "chooseleaf"@));
                }
            }
        } else {
            assert forall|s: int| #[trigger] first_leaf(steps, s) implies collect::leaf_type(steps)
                == text_there(steps[s], "/type"@) by {
                assert(rest[s - 1] == steps[s]);
                assert forall|k: int| 0 <= k < s - 1 implies !text::begins(
                    text_there(#[trigger] rest[k], "/op"@),
                    "chooseleaf"@,
                ) by {
                    assert(rest[k] == steps[k + 1]);
                }
                assert(first_leaf(rest, s - 1));
            }
            if exists|s: int| #[trigger] first_leaf(rest, s) {
                let s = choose|s: int| #[trigger] first_leaf(rest, s);
                assert(steps[s + 1] == rest[s]);
                assert forall|k: int| 0 <= k < s + 1 implies !text::begins(
                    text_there(#[trigger] steps[k], "/op"@),
                    "chooseleaf"@,
                ) by {
                    if k > 0 {
                        assert(rest[k - 1] == steps[k]);
                    }
                }
                assert(first_leaf(steps, s + 1));
            }
        }
    }
}

proof fn lemma_rule_domain(rule: JsonTree, id: i64)
    ensures
        match collect::rule_domain(rule) {
            Some((found, domain)) => {
                &&& spreads(rule, id) <==> found == id
                &&& forall|s: int| #[trigger]
                    first_leaf(listed(rule, "/steps"@), s) ==> domain == text_there(
                        listed(rule, "/steps"@)[s],
                        "/type"@,
                    )
            },
            None => !spreads(rule, id),
        },
{
    let steps = listed(rule, "/steps"@);
    lemma_leaf_type(steps);
    if collect::rule_domain(rule) is Some {
        let s = choose|s: int| #[trigger] first_leaf(steps, s);
        assert(first_leaf(steps, s));
        assert(text_there(steps[s], "/type"@).len() > 0);
    }
}

proof fn lemma_rule_domains(rules: Seq<JsonTree>, id: i64)
    ensures
        forall|r: int, s: int|
            #![trigger last_rule_of(rules, id, r), first_leaf(listed(rules[r], "/steps"@), s)]
            last_rule_of(rules, id, r) && first_leaf(listed(rules[r], "/steps"@), s) ==> {
                let map = collect::rule_domains(rules);
                map.contains_key(id) && map[id] == text_there(
                    listed(rules[r], "/steps"@)[s],
                    "/type"@,
                )
            },
        (forall|k: int| 0 <= k < rules.len() ==> !spreads(#[trigger] rules[k], id))
            ==> !collect::rule_domains(rules).contains_key(id),
    decreases rules.len(),
{
    if rules.len() > 0 {
        let rest = rules.drop_last();
        let rule = rules.last();
        let last = rules.len() - 1;
        assert(rules[last] == rule);
        lemma_rule_domains(rest, id);
        lemma_rule_domain(rule, id);
        assert forall|r: int, s: int|
            #![trigger last_rule_of(rules, id, r), first_leaf(listed(rules[r], "/steps"@), s)]
            last_rule_of(rules, id, r) && first_leaf(listed(rules[r], "/steps"@), s) implies {
            let map = collect::rule_domains(rules);
            map.contains_key(id) && map[id] == text_there(
                listed(rules[r], "/steps"@)[s],
                "/type"@,
            )
        } by {
            if r < last {
                assert(!spreads(rules[last], id));
                assert forall|k: int| r < k < rest.len() implies !spreads(#[trigger] rest[k], id) by {
                    assert(rest[k] == rules[k]);
                }
                assert(rest[r] == rules[r]);
                assert(last_rule_of(rest, id, r));
                assert(first_leaf(listed(rest[r], "/steps"@), s));
            }
        }
        if forall|k: int| 0 <= k < rules.len() ==> !spreads(#[trigger] rules[k], id) {
            assert(!spreads(rules[last], id));
            assert forall|k: int| 0 <= k < rest.len() implies !spreads(#[trigger] rest[k], id) by {
                assert(rest[k] == rules[k]);
            }
        }
    }
}

/// The CRUSH rules, none where they could not be had.
pub open spec fn crush_rules(crush: Option<JsonTree>) -> Seq<JsonTree> {
    match crush {
        Some(JsonTree::Array(rules)) => rules,
        _ => Seq::empty(),
    }
}

/// The pool stands for the entry of the OSD map: it has its id, name and sizes from
/// there, its failure domain from its CRUSH rule, and as many domains available as
/// the tree has buckets of that kind.
pub open spec fn pool_stands_for(
    pool: PoolView,
    entry: JsonTree,
    rules: Seq<JsonTree>,
    nodes: Seq<JsonTree>,
) -> bool {
    &&& identifies(pool.id, entry, "/pool"@)
    &&& tells(pool.name, entry, "/pool_name"@)
    &&& counts(pool.size, entry, "/size"@)
    &&& counts(pool.min_size, entry, "/min_size"@)
    &&& identifies(pool.crush_rule, entry, "/crush_rule"@)
    &&& forall|r: int, s: int|
        #![trigger last_rule_of(rules, pool.crush_rule, r), first_leaf(listed(rules[r], "/steps"@), s)]
        last_rule_of(rules, pool.crush_rule, r) && first_leaf(listed(rules[r], "/steps"@), s)
            ==> pool.failure_domain == text_there(listed(rules[r], "/steps"@)[s], "/type"@)
    &&& (forall|k: int| 0 <= k < rules.len() ==> !spreads(#[trigger] rules[k], pool.crush_rule))
        ==> pool.failure_domain.len() == 0
    &&& pool.failure_domain.len() > 0 ==> pool.available_domains == nodes.filter(
        |node: JsonTree| text_there(node, "/type"@) == pool.failure_domain,
    ).len()
    &&& pool.failure_domain.len() == 0 ==> pool.available_domains == 0
}

proof fn lemma_pool_stands_for(entry: JsonTree, rules: Seq<JsonTree>, nodes: Seq<JsonTree>)
    requires
        nodes.len() <= u64::MAX,
    ensures
        pool_stands_for(
            collect::pool_of(entry, collect::rule_domains(rules), nodes),
            entry,
            rules,
            nodes,
        ),
{
    let pool = collect::pool_of(entry, collect::rule_domains(rules), nodes);
    lemma_reads(entry, "/pool"@);
    lemma_reads(entry, "/pool_name"@);
    lemma_reads(entry, "/size"@);
    lemma_reads(entry, "/min_size"@);
    lemma_reads(entry, "/crush_rule"@);
    lemma_rule_domains(rules, pool.crush_rule);
    let kind = pool.failure_domain;
    nodes.lemma_filter_len(collect::of_kind(kind));
    assert(collect::of_kind(kind) =~= (|node: JsonTree| text_there(node, "/type"@) == kind));
}

/// One of the pools stands for the entry.
pub open spec fn has_pool(
    pools: Seq<PoolView>,
    entry: JsonTree,
    rules: Seq<JsonTree>,
    nodes: Seq<JsonTree>,
) -> bool {
    exists|k: int|
        0 <= k < pools.len() && pool_stands_for(#[trigger] pools[k], entry, rules, nodes)
}

/// The pool stands for one of the entries.
pub open spec fn has_entry(
    pool: PoolView,
    entries: Seq<JsonTree>,
    rules: Seq<JsonTree>,
    nodes: Seq<JsonTree>,
) -> bool {
    exists|x: int|
        0 <= x < entries.len() && pool_stands_for(pool, #[trigger] entries[x], rules, nodes)
}

/// Every pool of the OSD map is listed, and nothing else is: with its sizes, the
/// failure domain of its rule, and how many such domains the tree has.
pub proof fn law_every_pool_says_what_the_maps_say(
    osdmap: Option<JsonTree>,
    crush: Option<JsonTree>,
    tree: JsonTree,
)
    requires
        listed(tree, "/nodes"@).len() <= u64::MAX,
    ensures
        ({
            let pools = collect::pools_of(osdmap, crush, tree);
            let entries = match osdmap {
                Some(map) => listed(map, "/pools"@),
                None => Seq::empty(),
            };
            let (rules, nodes) = (crush_rules(crush), listed(tree, "/nodes"@));
            &&& pools.len() == entries.len()
            &&& forall|x: int|
                0 <= x < entries.len() ==> has_pool(pools, #[trigger] entries[x], rules, nodes)
            &&& forall|k: int|
                0 <= k < pools.len() ==> has_entry(#[trigger] pools[k], entries, rules, nodes)
        }),
{
    lemma_listed(tree, "/nodes"@);
    if osdmap is Some {
        lemma_listed(osdmap->0, "/pools"@);
    }
    let entries = json::opt_entries_at(osdmap, "/pools"@);
    let (rules, nodes) = (crush_rules(crush), listed(tree, "/nodes"@));
    let domains = collect::rule_domains(rules);
    assert(collect::rules_in(crush) == rules);
    let to = |pool: JsonTree| collect::pool_of(pool, domains, nodes);
    let items = entries.map_values(to);
    let pools = order::sorted_by(items, collect::by_pool_id());
    assert(pools == collect::pools_of(osdmap, crush, tree));
    lemma_sorted_places(items, collect::by_pool_id());
    assert forall|x: int| 0 <= x < entries.len() implies has_pool(
        pools,
        #[trigger] entries[x],
        rules,
        nodes,
    ) by {
        lemma_pool_stands_for(entries[x], rules, nodes);
        assert(pools.contains(items[x]));
        let k = choose|k: int| 0 <= k < pools.len() && pools[k] == items[x];
        assert(pool_stands_for(pools[k], entries[x], rules, nodes));
    }
    assert forall|k: int| 0 <= k < pools.len() implies has_entry(
        #[trigger] pools[k],
        entries,
        rules,
        nodes,
    ) by {
        assert(items.contains(pools[k]));
        let x = choose|x: int| 0 <= x < items.len() && items[x] == pools[k];
        lemma_pool_stands_for(entries[x], rules, nodes);
        assert(pool_stands_for(pools[k], entries[x], rules, nodes));
    }
}

/// The placement groups that are listed are those of the dump whose state is not
/// `active+clean`, each with its id, its state, and the OSDs of its up and acting
/// sets, and each as often as the dump has it.
pub proof fn law_listed_pgs_say_what_the_dump_says(pgs: Option<JsonTree>)
    ensures
        collect::abnormal_pgs_of(pgs).to_multiset() == (match pgs {
            Some(dump) => listed(dump, "/pg_stats"@),
            None => Seq::empty(),
        }).filter(|pg: JsonTree| text_there(pg, "/state"@) != "active+clean"@).map_values(
            |pg: JsonTree|
                PgView {
                    id: text_there(pg, "/pgid"@),
                    state: text_there(pg, "/state"@),
                    up: listed(pg, "/up"@).filter(|t: JsonTree| json_laws::is_id(t)).map_values(
                        |t: JsonTree| t->Number_0.signed->0,
                    ),
                    acting: listed(pg, "/acting"@).filter(
                        |t: JsonTree| json_laws::is_id(t),
                    ).map_values(|t: JsonTree| t->Number_0.signed->0),
                },
        ).to_multiset(),
{
    if pgs is Some {
        lemma_listed(pgs->0, "/pg_stats"@);
    }
    let all = json::opt_entries_at(pgs, "/pg_stats"@);
    let pick = |pg: JsonTree| collect::abnormal_pg(pg);
    let keep = |pg: JsonTree| text_there(pg, "/state"@) != "active+clean"@;
    let to = |pg: JsonTree|
        PgView {
            id: text_there(pg, "/pgid"@),
            state: text_there(pg, "/state"@),
            up: listed(pg, "/up"@).filter(|t: JsonTree| json_laws::is_id(t)).map_values(
                |t: JsonTree| t->Number_0.signed->0,
            ),
            acting: listed(pg, "/acting"@).filter(|t: JsonTree| json_laws::is_id(t)).map_values(
                |t: JsonTree| t->Number_0.signed->0,
            ),
        };
    let rows = tally::picked(all, pick);
    tally::law_picked_keeps_what_is_there(all, pick);
    assert((|pg: JsonTree| pick(pg) is Some) =~= keep);
    let kept = all.filter(keep);
    assert(rows =~= kept.map_values(to)) by {
        assert forall|i: int| 0 <= i < kept.len() implies pick(#[trigger] kept[i])->0 == to(
            kept[i],
        ) by {
            all.lemma_filter_pred(keep, i);
            let pg = kept[i];
            lemma_listed(pg, "/up"@);
            lemma_listed(pg, "/acting"@);
            json_laws::law_lists_keep_what_fits(listed(pg, "/up"@));
            json_laws::law_lists_keep_what_fits(listed(pg, "/acting"@));
        }
    }
    order::law_sorted_by_orders_the_same_entries(rows, collect::by_pg_id());
}

} // verus!
