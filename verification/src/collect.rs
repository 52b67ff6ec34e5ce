//! Reads the JSON that Ceph's admin commands print into a snapshot.

use crate::double::Double;
use crate::json;
use crate::json::{Json, JsonTree};
use crate::model;
use crate::model::{
    ClusterSummary, ClusterView, HealthCheck, HealthCheckView, OsdSummary, OsdView, PgSummary,
    PgView, PoolSummary, PoolView,
};
use crate::order;
use crate::tally;
use crate::text;
use crate::util::{ptr_f64, ptr_i64, ptr_str, ptr_u64};
use std::collections::HashMap;
use vstd::hash_map::StringHashMap;
use vstd::prelude::*;

verus! {

/// One entry of `pgs_by_state`: how many placement groups are in which state.
pub open spec fn pg_state_text(state: JsonTree) -> Seq<char> {
    text::decimal(json::u64_at(state, "/count"@) as nat) + " "@ + json::text_at(
        state,
        "/state_name"@,
    )
}

pub open spec fn pg_states_text(status: JsonTree) -> Seq<char> {
    text::joined(
        json::entries_at(status, "/pgmap/pgs_by_state"@).map_values(
            |state: JsonTree| pg_state_text(state),
        ),
        ", "@,
    )
}

/// A ratio of the OSD map; zero where there is no map.
pub open spec fn ratio_at(osdmap: Option<JsonTree>, path: Seq<char>) -> Double {
    match osdmap {
        Some(map) => json::double_at(map, path),
        None => Double { bits: 0 },
    }
}

/// The messages that the details of a health check give.
pub open spec fn detail_messages(check: JsonTree) -> Seq<Seq<char>> {
    tally::picked(json::entries_at(check, "/detail"@), |d: JsonTree| message_in(d))
}

pub open spec fn message_in(detail: JsonTree) -> Option<Seq<char>> {
    match json::tree_at(detail, "/message"@) {
        Some(found) => json::text_in(found),
        None => None,
    }
}

pub open spec fn health_check_of(field: (Seq<char>, JsonTree)) -> HealthCheckView {
    HealthCheckView {
        code: field.0,
        severity: json::text_at(field.1, "/severity"@),
        message: json::text_at(field.1, "/summary/message"@),
        details: detail_messages(field.1),
    }
}

pub open spec fn by_code() -> spec_fn(HealthCheckView, HealthCheckView) -> bool {
    |a: HealthCheckView, b: HealthCheckView| text::text_before(a.code, b.code)
}

/// The health checks of a status report, ordered by their code.
pub open spec fn health_checks_of(status: JsonTree) -> Seq<HealthCheckView> {
    order::sorted_by(
        json::fields_at(status, "/health/checks"@).map_values(
            |field: (Seq<char>, JsonTree)| health_check_of(field),
        ),
        by_code(),
    )
}

/// What `ceph -s` and the OSD map say of the cluster.
pub open spec fn cluster_of(status: JsonTree, osdmap: Option<JsonTree>) -> ClusterView {
    ClusterView {
        fsid: json::text_at(status, "/fsid"@),
        health: json::text_at(status, "/health/status"@),
        quorum: json::texts_among(json::entries_at(status, "/quorum_names"@)),
        mon_count: json::u64_at(status, "/monmap/num_mons"@),
        mgr_available: json::tree_at(status, "/mgrmap/available"@) == Some(JsonTree::Bool(true)),
        mgr_standbys: json::u64_at(status, "/mgrmap/num_standbys"@),
        osds_total: json::u64_at(status, "/osdmap/num_osds"@),
        osds_up: json::u64_at(status, "/osdmap/num_up_osds"@),
        osds_in: json::u64_at(status, "/osdmap/num_in_osds"@),
        pools: json::u64_at(status, "/pgmap/num_pools"@),
        pgs: json::u64_at(status, "/pgmap/num_pgs"@),
        objects: json::u64_at(status, "/pgmap/num_objects"@),
        bytes_used: json::u64_at(status, "/pgmap/bytes_used"@),
        bytes_total: json::u64_at(status, "/pgmap/bytes_total"@),
        read_bytes_sec: json::u64_at(status, "/pgmap/read_bytes_sec"@),
        write_bytes_sec: json::u64_at(status, "/pgmap/write_bytes_sec"@),
        read_ops_sec: json::u64_at(status, "/pgmap/read_op_per_sec"@),
        write_ops_sec: json::u64_at(status, "/pgmap/write_op_per_sec"@),
        recovering_bytes_sec: json::u64_at(status, "/pgmap/recovering_bytes_per_sec"@),
        pg_states: pg_states_text(status),
        nearfull_ratio: ratio_at(osdmap, "/nearfull_ratio"@),
        backfillfull_ratio: ratio_at(osdmap, "/backfillfull_ratio"@),
        full_ratio: ratio_at(osdmap, "/full_ratio"@),
        health_checks: health_checks_of(status),
    }
}

fn ratio(osdmap: Option<&Json>, path: &str) -> (out: Double)
    ensures
        out == ratio_at(json::opt_tree(osdmap), path@),
{
    match osdmap {
        Some(map) => ptr_f64(map, path),
        None => Double { bits: 0 },
    }
}

fn pg_states(status: &Json) -> (out: String)
    ensures
        out@ == pg_states_text(status.tree()),
{
    let states = status.entries("/pgmap/pgs_by_state");
    let ghost all = json::trees(states@);
    let ghost wanted = all.map_values(|state: JsonTree| pg_state_text(state));
    let mut parts: Vec<String> = Vec::new();
    let mut i: usize = 0;
    assert(text::texts(parts@) =~= wanted.take(0));
    while i < states.len()
        invariant
            i <= states@.len(),
            all == json::trees(states@),
            wanted == all.map_values(|state: JsonTree| pg_state_text(state)),
            text::texts(parts@) == wanted.take(i as int),
        decreases states@.len() - i,
    {
        let state = &states[i];
        let ghost before = text::texts(parts@);
        let mut part = text::u64_text(ptr_u64(state, "/count"));
        part.append(" ");
        part.append(ptr_str(state, "/state_name").as_str());
        assert(part@ == wanted[i as int]);
        parts.push(part);
        i = i + 1;
        assert(text::texts(parts@) =~= before.push(wanted[i - 1]));
        assert(text::texts(parts@) =~= wanted.take(i as int));
    }
    assert(wanted.take(wanted.len() as int) =~= wanted);
    text::join_texts(&parts, ", ")
}

/// The cluster as `ceph -s` and, for the ratios, the OSD map report it.
pub fn parse_cluster_summary(status: &Json, osdmap: Option<&Json>) -> (out: ClusterSummary)
    ensures
        out@ == cluster_of(status.tree(), json::opt_tree(osdmap)),
{
    ClusterSummary {
        fsid: ptr_str(status, "/fsid"),
        health: ptr_str(status, "/health/status"),
        quorum: json::texts_of(status.entries("/quorum_names")),
        mon_count: ptr_u64(status, "/monmap/num_mons"),
        mgr_available: match status.pointer("/mgrmap/available") {
            Some(found) => match found.as_bool() {
                Some(b) => b,
                None => false,
            },
            None => false,
        },
        mgr_standbys: ptr_u64(status, "/mgrmap/num_standbys"),
        osds_total: ptr_u64(status, "/osdmap/num_osds"),
        osds_up: ptr_u64(status, "/osdmap/num_up_osds"),
        osds_in: ptr_u64(status, "/osdmap/num_in_osds"),
        pools: ptr_u64(status, "/pgmap/num_pools"),
        pgs: ptr_u64(status, "/pgmap/num_pgs"),
        objects: ptr_u64(status, "/pgmap/num_objects"),
        bytes_used: ptr_u64(status, "/pgmap/bytes_used"),
        bytes_total: ptr_u64(status, "/pgmap/bytes_total"),
        read_bytes_sec: ptr_u64(status, "/pgmap/read_bytes_sec"),
        write_bytes_sec: ptr_u64(status, "/pgmap/write_bytes_sec"),
        read_ops_sec: ptr_u64(status, "/pgmap/read_op_per_sec"),
        write_ops_sec: ptr_u64(status, "/pgmap/write_op_per_sec"),
        recovering_bytes_sec: ptr_u64(status, "/pgmap/recovering_bytes_per_sec"),
        pg_states: pg_states(status),
        nearfull_ratio: ratio(osdmap, "/nearfull_ratio"),
        backfillfull_ratio: ratio(osdmap, "/backfillfull_ratio"),
        full_ratio: ratio(osdmap, "/full_ratio"),
        health_checks: parse_health_checks(status),
    }
}

fn details_of(check: &Json) -> (out: Vec<String>)
    ensures
        text::texts(out@) == detail_messages(check.tree()),
{
    let details = check.entries("/detail");
    let ghost all = json::trees(details@);
    let ghost pick = |d: JsonTree| message_in(d);
    let mut out: Vec<String> = Vec::new();
    let mut i: usize = 0;
    assert(text::texts(out@) =~= Seq::<Seq<char>>::empty());
    while i < details.len()
        invariant
            i <= details@.len(),
            all == json::trees(details@),
            pick == |d: JsonTree| message_in(d),
            text::texts(out@) == tally::picked(all.take(i as int), pick),
        decreases details@.len() - i,
    {
        assert(all.take(i + 1).drop_last() =~= all.take(i as int));
        let ghost before = text::texts(out@);
        if let Some(found) = details[i].pointer("/message") {
            if let Some(s) = found.as_str() {
                out.push(s.to_owned());
                assert(text::texts(out@) =~= before.push(s@));
            }
        }
        i = i + 1;
    }
    assert(all.take(all.len() as int) =~= all);
    out
}

/// The health checks of a status report, ordered by their code.
pub fn parse_health_checks(status: &Json) -> (out: Vec<HealthCheck>)
    ensures
        model::health_check_views(out@) == health_checks_of(status.tree()),
{
    let ghost to = |c: HealthCheck| c@;
    let ghost fields_of = json::fields_at(status.tree(), "/health/checks"@);
    let ghost wanted = fields_of.map_values(
        |field: (Seq<char>, JsonTree)| health_check_of(field),
    );
    let mut parsed: Vec<HealthCheck> = Vec::new();
    if let Some(found) = status.pointer("/health/checks") {
        if let Some(fields) = found.as_object() {
            let mut i: usize = 0;
            assert(fields_of == json::field_trees(fields@));
            assert(model::health_check_views(parsed@) =~= wanted.take(0));
            while i < fields.len()
                invariant
                    i <= fields@.len(),
                    fields_of == json::field_trees(fields@),
                    wanted == fields_of.map_values(
                        |field: (Seq<char>, JsonTree)| health_check_of(field),
                    ),
                    model::health_check_views(parsed@) == wanted.take(i as int),
                decreases fields@.len() - i,
            {
                let (code, check) = &fields[i];
                let ghost before = model::health_check_views(parsed@);
                let entry = HealthCheck {
                    code: code.clone(),
                    severity: ptr_str(check, "/severity"),
                    message: ptr_str(check, "/summary/message"),
                    details: details_of(check),
                };
                assert(fields_of[i as int] == (code@, check.tree()));
                assert(entry@ == wanted[i as int]);
                parsed.push(entry);
                i = i + 1;
                assert(model::health_check_views(parsed@) =~= before.push(wanted[i - 1]));
                assert(model::health_check_views(parsed@) =~= wanted.take(i as int));
            }
            assert(wanted.take(wanted.len() as int) =~= wanted);
        }
    }
    assert(parsed@.map_values(to) =~= wanted);
    let ghost before = |a: HealthCheck, b: HealthCheck| text::text_before(a.code@, b.code@);
    proof {
        order::lemma_sorted_by_map(parsed@, before, to, by_code());
    }
    let less = |a: &HealthCheck, b: &HealthCheck| -> (yes: bool)
        ensures
            yes == text::text_before(a.code@, b.code@),
        {
            text::text_less(a.code.as_str(), b.code.as_str())
        };
    let out = order::sort_stable(parsed, less, Ghost(before));
    assert(model::health_check_views(out@) =~= out@.map_values(to));
    out
}

/// The type that the first `chooseleaf` step chooses; empty where there is none.
pub open spec fn leaf_type(steps: Seq<JsonTree>) -> Seq<char>
    decreases steps.len(),
{
    if steps.len() == 0 {
        Seq::empty()
    } else if text::begins(json::text_at(steps[0], "/op"@), "chooseleaf"@) {
        json::text_at(steps[0], "/type"@)
    } else {
        leaf_type(steps.drop_first())
    }
}

/// The id of a CRUSH rule and the failure domain that it spreads over, where it
/// names both.
pub open spec fn rule_domain(rule: JsonTree) -> Option<(i64, Seq<char>)> {
    match (json::tree_at(rule, "/rule_id"@), json::array_at(rule, "/steps"@)) {
        (Some(id), Some(steps)) => match json::i64_in(id) {
            Some(id) => if leaf_type(steps).len() > 0 {
                Some((id, leaf_type(steps)))
            } else {
                None
            },
            None => None,
        },
        _ => None,
    }
}

/// The failure domain of each rule; the last rule with an id counts.
pub open spec fn rule_domains(rules: Seq<JsonTree>) -> Map<i64, Seq<char>>
    decreases rules.len(),
{
    if rules.len() == 0 {
        Map::empty()
    } else {
        let head = rule_domains(rules.drop_last());
        match rule_domain(rules.last()) {
            Some((id, domain)) => head.insert(id, domain),
            None => head,
        }
    }
}

/// The rules of a CRUSH rule dump.
pub open spec fn rules_in(crush: Option<JsonTree>) -> Seq<JsonTree> {
    match crush {
        Some(JsonTree::Array(rules)) => rules,
        _ => Seq::empty(),
    }
}

pub open spec fn of_kind(kind: Seq<char>) -> spec_fn(JsonTree) -> bool {
    |node: JsonTree| json::text_at(node, "/type"@) == kind
}

/// How many nodes of the tree are of the kind; none are of an empty kind.
pub open spec fn kind_count(nodes: Seq<JsonTree>, kind: Seq<char>) -> nat {
    if kind.len() == 0 {
        0
    } else {
        nodes.filter(of_kind(kind)).len()
    }
}

pub open spec fn text_or_empty(map: Map<i64, Seq<char>>, key: i64) -> Seq<char> {
    if map.contains_key(key) {
        map[key]
    } else {
        Seq::empty()
    }
}

pub open spec fn pool_of(
    pool: JsonTree,
    domains: Map<i64, Seq<char>>,
    nodes: Seq<JsonTree>,
) -> PoolView {
    let crush_rule = json::i64_at(pool, "/crush_rule"@);
    let failure_domain = text_or_empty(domains, crush_rule);
    PoolView {
        id: json::i64_at(pool, "/pool"@),
        name: json::text_at(pool, "/pool_name"@),
        size: json::u64_at(pool, "/size"@),
        min_size: json::u64_at(pool, "/min_size"@),
        crush_rule,
        failure_domain,
        available_domains: kind_count(nodes, failure_domain) as u64,
    }
}

pub open spec fn by_pool_id() -> spec_fn(PoolView, PoolView) -> bool {
    |a: PoolView, b: PoolView| a.id < b.id
}

/// The pools of the OSD map, ordered by id, with the failure domain of their rule
/// and how many nodes of the tree are such a domain.
pub open spec fn pools_of(
    osdmap: Option<JsonTree>,
    crush: Option<JsonTree>,
    tree: JsonTree,
) -> Seq<PoolView> {
    let domains = rule_domains(rules_in(crush));
    let nodes = json::entries_at(tree, "/nodes"@);
    order::sorted_by(
        json::opt_entries_at(osdmap, "/pools"@).map_values(
            |pool: JsonTree| pool_of(pool, domains, nodes),
        ),
        by_pool_id(),
    )
}

fn leaf_type_of(steps: &[Json]) -> (out: String)
    ensures
        out@ == leaf_type(json::trees(steps@)),
{
    let ghost all = json::trees(steps@);
    let mut i: usize = 0;
    assert(all.skip(0) =~= all);
    while i < steps.len()
        invariant
            i <= steps@.len(),
            all == json::trees(steps@),
            leaf_type(all) == leaf_type(all.skip(i as int)),
        decreases steps@.len() - i,
    {
        assert(all.skip(i as int)[0] == steps@[i as int].tree());
        if text::text_begins(ptr_str(&steps[i], "/op").as_str(), "chooseleaf") {
            return ptr_str(&steps[i], "/type");
        }
        assert(all.skip(i as int).drop_first() =~= all.skip(i + 1));
        i = i + 1;
    }
    String::new()
}

fn rule_domain_of(rule: &Json) -> (out: Option<(i64, String)>)
    ensures
        match out {
            Some((id, domain)) => rule_domain(rule.tree()) == Some((id, domain@)),
            None => rule_domain(rule.tree()) is None,
        },
{
    match rule.pointer("/rule_id") {
        Some(id) => match id.as_i64() {
            Some(id) => match rule.array("/steps") {
                Some(steps) => {
                    let domain = leaf_type_of(steps.as_slice());
                    if domain.as_str().is_empty() {
                        None
                    } else {
                        Some((id, domain))
                    }
                },
                None => None,
            },
            None => None,
        },
        None => None,
    }
}

fn domains_by_rule(crush: Option<&Json>) -> (out: HashMap<i64, String>)
    ensures
        text::value_texts(out@) == rule_domains(rules_in(json::opt_tree(crush))),
{
    let mut out: HashMap<i64, String> = HashMap::new();
    assert(text::value_texts(out@) =~= Map::<i64, Seq<char>>::empty());
    if let Some(crush) = crush {
        if let Some(rules) = crush.as_array() {
            let ghost all = json::trees(rules@);
            let mut i: usize = 0;
            while i < rules.len()
                invariant
                    i <= rules@.len(),
                    all == json::trees(rules@),
                    text::value_texts(out@) == rule_domains(all.take(i as int)),
                decreases rules@.len() - i,
            {
                            assert(all.take(i + 1).drop_last() =~= all.take(i as int));
                let ghost before = out@;
                if let Some((id, domain)) = rule_domain_of(&rules[i]) {
                    let ghost shown = domain@;
                    out.insert(id, domain);
                    assert(text::value_texts(out@) =~= text::value_texts(before).insert(id, shown));
                }
                i = i + 1;
            }
            assert(all.take(all.len() as int) =~= all);
        }
    }
    out
}

pub open spec fn count_or_zero(counts: Map<Seq<char>, u64>, kind: Seq<char>) -> u64 {
    if counts.contains_key(kind) {
        counts[kind]
    } else {
        0
    }
}

fn kind_counts(nodes: &[Json]) -> (counts: StringHashMap<u64>)
    ensures
        forall|kind: Seq<char>| #[trigger]
            count_or_zero(counts@, kind) == kind_count(json::trees(nodes@), kind),
{
    let ghost all = json::trees(nodes@);
    let mut counts: StringHashMap<u64> = StringHashMap::new();
    let mut i: usize = 0;
    assert forall|kind: Seq<char>| #[trigger]
        count_or_zero(counts@, kind) == kind_count(all.take(0), kind) by {
        reveal(Seq::filter);
    }
    while i < nodes.len()
        invariant
            i <= nodes@.len(),
            all == json::trees(nodes@),
            forall|kind: Seq<char>| #[trigger]
                count_or_zero(counts@, kind) == kind_count(all.take(i as int), kind),
        decreases nodes@.len() - i,
    {
        assert(nodes.len() <= usize::MAX);
        let kind = ptr_str(&nodes[i], "/type");
        let ghost seen = all.take(i as int);
        let ghost before = counts@;
        proof {
            assert(all.take(i + 1) =~= seen.push(all[i as int]));
            assert forall|k: Seq<char>| #[trigger] kind_count(all.take(i + 1), k) == kind_count(
                seen,
                k,
            ) + if k.len() > 0 && k == kind@ {
                1nat
            } else {
                0
            } by {
                tally::lemma_filter_push(seen, all[i as int], of_kind(k));
            }
            seen.lemma_filter_len(of_kind(kind@));
            assert(count_or_zero(before, kind@) == kind_count(seen, kind@));
        }
        if !kind.as_str().is_empty() {
            let n: u64 = match counts.get(kind.as_str()) {
                Some(n) => *n,
                None => 0,
            };
            let ghost name = kind@;
            counts.insert(kind, n + 1);
            assert forall|k: Seq<char>| #[trigger]
                count_or_zero(counts@, k) == kind_count(all.take(i + 1), k) by {
                assert(count_or_zero(before, k) == kind_count(seen, k));
            }
        }
        i = i + 1;
    }
    assert(all.take(all.len() as int) =~= all);
    counts
}

/// The pools of the OSD map, with what the CRUSH rules and the OSD tree say of
/// their failure domains.
pub fn parse_pools(osdmap: Option<&Json>, crush: Option<&Json>, tree: &Json) -> (out: Vec<PoolSummary>)
    ensures
        model::pool_views(out@) == pools_of(
            json::opt_tree(osdmap),
            json::opt_tree(crush),
            tree.tree(),
        ),
{
    let domains_by_rule = domains_by_rule(crush);
    let nodes = tree.entries("/nodes");
    let domain_counts = kind_counts(nodes);
    let entries = json::opt_entries(osdmap, "/pools");
    let ghost domains = rule_domains(rules_in(json::opt_tree(crush)));
    let ghost all_nodes = json::entries_at(tree.tree(), "/nodes"@);
    let ghost all = json::trees(entries@);
    let ghost wanted = all.map_values(|pool: JsonTree| pool_of(pool, domains, all_nodes));
    let ghost to = |p: PoolSummary| p@;
    let mut pools: Vec<PoolSummary> = Vec::new();
    let mut i: usize = 0;
    assert(model::pool_views(pools@) =~= wanted.take(0));
    while i < entries.len()
        invariant
            i <= entries@.len(),
            all == json::trees(entries@),
            wanted == all.map_values(|pool: JsonTree| pool_of(pool, domains, all_nodes)),
            text::value_texts(domains_by_rule@) == domains,
            forall|kind: Seq<char>| #[trigger]
                count_or_zero(domain_counts@, kind) == kind_count(all_nodes, kind),
            model::pool_views(pools@) == wanted.take(i as int),
        decreases entries@.len() - i,
    {
            let pool = &entries[i];
        let ghost before = model::pool_views(pools@);
        let crush_rule: i64 = ptr_i64(pool, "/crush_rule");
        let failure_domain = match domains_by_rule.get(&crush_rule) {
            Some(domain) => domain.clone(),
            None => String::new(),
        };
        assert(failure_domain@ =~= text_or_empty(domains, crush_rule));
        let available_domains: u64 = match domain_counts.get(failure_domain.as_str()) {
            Some(count) => *count,
            None => 0,
        };
        assert(available_domains == count_or_zero(domain_counts@, failure_domain@));
        let entry = PoolSummary {
            id: ptr_i64(pool, "/pool"),
            name: ptr_str(pool, "/pool_name"),
            size: ptr_u64(pool, "/size"),
            min_size: ptr_u64(pool, "/min_size"),
            crush_rule,
            failure_domain,
            available_domains,
        };
        assert(entry@ == wanted[i as int]);
        pools.push(entry);
        i = i + 1;
        assert(model::pool_views(pools@) =~= before.push(wanted[i - 1]));
        assert(model::pool_views(pools@) =~= wanted.take(i as int));
    }
    assert(wanted.take(wanted.len() as int) =~= wanted);
    let ghost before = |a: PoolSummary, b: PoolSummary| a.id < b.id;
    proof {
        assert(pools@.map_values(to) =~= wanted);
        order::lemma_sorted_by_map(pools@, before, to, by_pool_id());
    }
    let less = |a: &PoolSummary, b: &PoolSummary| -> (yes: bool)
        ensures
            yes == (a.id < b.id),
        {
            a.id < b.id
        };
    let out = order::sort_stable(pools, less, Ghost(before));
    assert(model::pool_views(out@) =~= out@.map_values(to));
    out
}

pub open spec fn pg_of(pg: JsonTree) -> PgView {
    PgView {
        id: json::text_at(pg, "/pgid"@),
        state: json::text_at(pg, "/state"@),
        up: json::ints_among(json::entries_at(pg, "/up"@)),
        acting: json::ints_among(json::entries_at(pg, "/acting"@)),
    }
}

/// A placement group in any state but `active+clean`.
pub open spec fn abnormal_pg(pg: JsonTree) -> Option<PgView> {
    if json::text_at(pg, "/state"@) == "active+clean"@ {
        None
    } else {
        Some(pg_of(pg))
    }
}

pub open spec fn by_pg_id() -> spec_fn(PgView, PgView) -> bool {
    |a: PgView, b: PgView| text::text_before(a.id, b.id)
}

/// The placement groups of a PG dump that are not `active+clean`, ordered by id.
pub open spec fn abnormal_pgs_of(pgs: Option<JsonTree>) -> Seq<PgView> {
    order::sorted_by(
        tally::picked(json::opt_entries_at(pgs, "/pg_stats"@), |pg: JsonTree| abnormal_pg(pg)),
        by_pg_id(),
    )
}

/// The placement groups of a PG dump that are not `active+clean`, ordered by id.
pub fn parse_abnormal_pgs(pgs: Option<&Json>) -> (out: Vec<PgSummary>)
    ensures
        model::pg_views(out@) == abnormal_pgs_of(json::opt_tree(pgs)),
{
    let entries = json::opt_entries(pgs, "/pg_stats");
    let ghost all = json::trees(entries@);
    let ghost pick = |pg: JsonTree| abnormal_pg(pg);
    let ghost to = |p: PgSummary| p@;
    let mut parsed: Vec<PgSummary> = Vec::new();
    let mut i: usize = 0;
    assert(model::pg_views(parsed@) =~= Seq::<PgView>::empty());
    while i < entries.len()
        invariant
            i <= entries@.len(),
            all == json::trees(entries@),
            pick == |pg: JsonTree| abnormal_pg(pg),
            model::pg_views(parsed@) == tally::picked(all.take(i as int), pick),
        decreases entries@.len() - i,
    {
        assert(all.take(i + 1).drop_last() =~= all.take(i as int));
        let pg = &entries[i];
        let ghost before = model::pg_views(parsed@);
        let state = ptr_str(pg, "/state");
        if !text::same_text(state.as_str(), "active+clean") {
            let entry = PgSummary {
                id: ptr_str(pg, "/pgid"),
                state,
                up: parse_i64_array(pg.pointer("/up")),
                acting: parse_i64_array(pg.pointer("/acting")),
            };
            assert(entry@ == pg_of(pg.tree()));
            parsed.push(entry);
            assert(model::pg_views(parsed@) =~= before.push(pg_of(pg.tree())));
        }
        i = i + 1;
    }
    assert(all.take(all.len() as int) =~= all);
    let ghost before = |a: PgSummary, b: PgSummary| text::text_before(a.id@, b.id@);
    proof {
        assert(parsed@.map_values(to) =~= tally::picked(all, pick));
        order::lemma_sorted_by_map(parsed@, before, to, by_pg_id());
    }
    let less = |a: &PgSummary, b: &PgSummary| -> (yes: bool)
        ensures
            yes == text::text_before(a.id@, b.id@),
        {
            text::text_less(a.id.as_str(), b.id.as_str())
        };
    let out = order::sort_stable(parsed, less, Ghost(before));
    assert(model::pg_views(out@) =~= out@.map_values(to));
    out
}

/// The signed numbers of an array that may be missing.
pub fn parse_i64_array(value: Option<&Json>) -> (out: Vec<i64>)
    ensures
        out@ == match json::opt_tree(value) {
            Some(JsonTree::Array(items)) => json::ints_among(items),
            _ => Seq::empty(),
        },
{
    match value {
        Some(value) => match value.as_array() {
            Some(items) => json::ints_of(items.as_slice()),
            None => Vec::new(),
        },
        None => Vec::new(),
    }
}

/// The commit and apply latencies that `ceph osd perf` reports, by OSD id; the
/// last entry for an id counts.
pub open spec fn perf_of(infos: Seq<JsonTree>) -> Map<i64, (u64, u64)>
    decreases infos.len(),
{
    if infos.len() == 0 {
        Map::empty()
    } else {
        perf_of(infos.drop_last()).insert(
            json::i64_at(infos.last(), "/id"@),
            (
                json::u64_at(infos.last(), "/perf_stats/commit_latency_ms"@),
                json::u64_at(infos.last(), "/perf_stats/apply_latency_ms"@),
            ),
        )
    }
}

/// Maps OSD id to the latency `ceph osd perf` reports. The payload is optional,
/// so a cluster where the query fails keeps its status, tree, and df data.
pub fn parse_osd_perf(perf: Option<&Json>) -> (by_osd: HashMap<i64, (u64, u64)>)
    ensures
        by_osd@ == perf_of(
            json::opt_entries_at(json::opt_tree(perf), "/osdstats/osd_perf_infos"@),
        ),
{
    let mut by_osd: HashMap<i64, (u64, u64)> = HashMap::new();
    let infos = json::opt_entries(perf, "/osdstats/osd_perf_infos");
    let ghost all = json::trees(infos@);
    let mut i: usize = 0;
    while i < infos.len()
        invariant
            i <= infos@.len(),
            all == json::trees(infos@),
            by_osd@ == perf_of(all.take(i as int)),
        decreases infos@.len() - i,
    {
        assert(all.take(i + 1).drop_last() =~= all.take(i as int));
        let info = &infos[i];
        by_osd.insert(
            ptr_i64(info, "/id"),
            (
                ptr_u64(info, "/perf_stats/commit_latency_ms"),
                ptr_u64(info, "/perf_stats/apply_latency_ms"),
            ),
        );
        i = i + 1;
    }
    assert(all.take(all.len() as int) =~= all);
    by_osd
}

/// `hosts` with the OSDs that `children` names placed on `host`.
pub open spec fn placed(
    hosts: Map<i64, Seq<char>>,
    children: Seq<JsonTree>,
    host: Seq<char>,
) -> Map<i64, Seq<char>>
    decreases children.len(),
{
    if children.len() == 0 {
        hosts
    } else {
        let head = placed(hosts, children.drop_last(), host);
        match json::i64_in(children.last()) {
            Some(id) => head.insert(id, host),
            None => head,
        }
    }
}

/// The host of each OSD that a host node of the tree names as its child; the last
/// such node counts.
pub open spec fn osd_hosts(nodes: Seq<JsonTree>) -> Map<i64, Seq<char>>
    decreases nodes.len(),
{
    if nodes.len() == 0 {
        Map::empty()
    } else {
        let head = osd_hosts(nodes.drop_last());
        let node = nodes.last();
        if json::text_at(node, "/type"@) == "host"@ {
            placed(head, json::entries_at(node, "/children"@), json::text_at(node, "/name"@))
        } else {
            head
        }
    }
}

/// The status of each OSD that is a node of the tree; the last node with an id
/// counts.
pub open spec fn osd_statuses(nodes: Seq<JsonTree>) -> Map<i64, Seq<char>>
    decreases nodes.len(),
{
    if nodes.len() == 0 {
        Map::empty()
    } else {
        let head = osd_statuses(nodes.drop_last());
        let node = nodes.last();
        if json::text_at(node, "/type"@) == "osd"@ {
            head.insert(json::i64_at(node, "/id"@), json::text_at(node, "/status"@))
        } else {
            head
        }
    }
}

pub open spec fn osd_of(
    node: JsonTree,
    hosts: Map<i64, Seq<char>>,
    statuses: Map<i64, Seq<char>>,
    perf: Map<i64, (u64, u64)>,
) -> OsdView {
    let id = json::i64_at(node, "/id"@);
    OsdView {
        id,
        name: json::text_at(node, "/name"@),
        host: text_or_empty(hosts, id),
        status: if statuses.contains_key(id) {
            statuses[id]
        } else {
            json::text_at(node, "/status"@)
        },
        reweight: json::double_at(node, "/reweight"@),
        utilization: json::double_at(node, "/utilization"@),
        pgs: json::u64_at(node, "/pgs"@),
        used_kb: json::u64_at(node, "/kb_used"@),
        avail_kb: json::u64_at(node, "/kb_avail"@),
        commit_latency_ms: if perf.contains_key(id) {
            perf[id].0
        } else {
            0
        },
        apply_latency_ms: if perf.contains_key(id) {
            perf[id].1
        } else {
            0
        },
    }
}

pub open spec fn by_osd_id() -> spec_fn(OsdView, OsdView) -> bool {
    |a: OsdView, b: OsdView| a.id < b.id
}

/// The rows of `ceph osd df` in their order, with the host and status that the
/// tree gives and the latencies that `ceph osd perf` gives.
pub open spec fn osd_rows(tree: JsonTree, df: JsonTree, perf: Option<JsonTree>) -> Seq<OsdView> {
    let nodes = json::entries_at(tree, "/nodes"@);
    let hosts = osd_hosts(nodes);
    let statuses = osd_statuses(nodes);
    let latencies = perf_of(json::opt_entries_at(perf, "/osdstats/osd_perf_infos"@));
    json::entries_at(df, "/nodes"@).map_values(
        |node: JsonTree| osd_of(node, hosts, statuses, latencies),
    )
}

/// The OSDs, ordered by id.
pub open spec fn osds_of(tree: JsonTree, df: JsonTree, perf: Option<JsonTree>) -> Seq<OsdView> {
    order::sorted_by(osd_rows(tree, df, perf), by_osd_id())
}

fn place_children(hosts: &mut HashMap<i64, String>, children: &[Json], host: &str)
    ensures
        text::value_texts(final(hosts)@) == placed(
            text::value_texts(old(hosts)@),
            json::trees(children@),
            host@,
        ),
{
    let ghost all = json::trees(children@);
    let ghost start = text::value_texts(hosts@);
    let mut i: usize = 0;
    while i < children.len()
        invariant
            i <= children@.len(),
            all == json::trees(children@),
            text::value_texts(hosts@) == placed(start, all.take(i as int), host@),
        decreases children@.len() - i,
    {
        assert(all.take(i + 1).drop_last() =~= all.take(i as int));
        let ghost before = hosts@;
        if let Some(id) = children[i].as_i64() {
            hosts.insert(id, host.to_owned());
            assert(text::value_texts(hosts@) =~= text::value_texts(before).insert(id, host@));
        }
        i = i + 1;
    }
    assert(all.take(all.len() as int) =~= all);
}

/// The OSDs of `ceph osd df`, ordered by id, with what the OSD tree and
/// `ceph osd perf` say of them.
pub fn parse_osds(tree: &Json, df: &Json, perf: Option<&Json>) -> (out: Vec<OsdSummary>)
    ensures
        model::osd_views(out@) == osds_of(tree.tree(), df.tree(), json::opt_tree(perf)),
{
    let latency_by_osd = parse_osd_perf(perf);
    let mut host_by_osd: HashMap<i64, String> = HashMap::new();
    let mut status_by_osd: HashMap<i64, String> = HashMap::new();
    let nodes = tree.entries("/nodes");
    let ghost all_nodes = json::trees(nodes@);
    let mut i: usize = 0;
    assert(text::value_texts(host_by_osd@) =~= Map::<i64, Seq<char>>::empty());
    assert(text::value_texts(status_by_osd@) =~= Map::<i64, Seq<char>>::empty());
    while i < nodes.len()
        invariant
            i <= nodes@.len(),
            all_nodes == json::trees(nodes@),
            text::value_texts(host_by_osd@) == osd_hosts(all_nodes.take(i as int)),
            text::value_texts(status_by_osd@) == osd_statuses(all_nodes.take(i as int)),
        decreases nodes@.len() - i,
    {
        assert(all_nodes.take(i + 1).drop_last() =~= all_nodes.take(i as int));
        let node = &nodes[i];
        let ghost before = status_by_osd@;
        let kind = ptr_str(node, "/type");
        proof {
            reveal_strlit("host");
            reveal_strlit("osd");
            assert("host"@.len() != "osd"@.len());
        }
        if text::same_text(kind.as_str(), "host") {
            let host = ptr_str(node, "/name");
            place_children(&mut host_by_osd, node.entries("/children"), host.as_str());
        } else if text::same_text(kind.as_str(), "osd") {
            let id: i64 = ptr_i64(node, "/id");
            let status = ptr_str(node, "/status");
            let ghost shown = status@;
            status_by_osd.insert(id, status);
            assert(text::value_texts(status_by_osd@) =~= text::value_texts(before).insert(id, shown));
        }
        i = i + 1;
    }
    assert(all_nodes.take(all_nodes.len() as int) =~= all_nodes);
    let rows = df.entries("/nodes");
    let ghost all = json::trees(rows@);
    let ghost hosts = osd_hosts(all_nodes);
    let ghost statuses = osd_statuses(all_nodes);
    let ghost latencies = latency_by_osd@;
    let ghost wanted = all.map_values(
        |node: JsonTree| osd_of(node, hosts, statuses, latencies),
    );
    let ghost to = |o: OsdSummary| o@;
    let mut osds: Vec<OsdSummary> = Vec::new();
    let mut k: usize = 0;
    assert(model::osd_views(osds@) =~= wanted.take(0));
    while k < rows.len()
        invariant
            k <= rows@.len(),
            all == json::trees(rows@),
            latencies == latency_by_osd@,
            text::value_texts(host_by_osd@) == hosts,
            text::value_texts(status_by_osd@) == statuses,
            wanted == all.map_values(|node: JsonTree| osd_of(node, hosts, statuses, latencies)),
            model::osd_views(osds@) == wanted.take(k as int),
        decreases rows@.len() - k,
    {
        let node = &rows[k];
        let ghost before = model::osd_views(osds@);
        let id: i64 = ptr_i64(node, "/id");
        let (commit_latency_ms, apply_latency_ms): (u64, u64) = match latency_by_osd.get(&id) {
            Some(latency) => *latency,
            None => (0, 0),
        };
        let host = match host_by_osd.get(&id) {
            Some(host) => host.clone(),
            None => String::new(),
        };
        assert(host@ =~= text_or_empty(hosts, id));
        let status = match status_by_osd.get(&id) {
            Some(status) => status.clone(),
            None => ptr_str(node, "/status"),
        };
        assert(status@ =~= if statuses.contains_key(id) {
            statuses[id]
        } else {
            json::text_at(node.tree(), "/status"@)
        });
        let entry = OsdSummary {
            id,
            name: ptr_str(node, "/name"),
            host,
            status,
            reweight: ptr_f64(node, "/reweight"),
            utilization: ptr_f64(node, "/utilization"),
            pgs: ptr_u64(node, "/pgs"),
            used_kb: ptr_u64(node, "/kb_used"),
            avail_kb: ptr_u64(node, "/kb_avail"),
            commit_latency_ms,
            apply_latency_ms,
        };
        assert(entry@ == wanted[k as int]);
        osds.push(entry);
        k = k + 1;
        assert(model::osd_views(osds@) =~= before.push(wanted[k - 1]));
        assert(model::osd_views(osds@) =~= wanted.take(k as int));
    }
    assert(wanted.take(wanted.len() as int) =~= wanted);
    let ghost before = |a: OsdSummary, b: OsdSummary| a.id < b.id;
    proof {
        assert(osds@.map_values(to) =~= wanted);
        assert(wanted =~= osd_rows(tree.tree(), df.tree(), json::opt_tree(perf)));
        order::lemma_sorted_by_map(osds@, before, to, by_osd_id());
    }
    let less = |a: &OsdSummary, b: &OsdSummary| -> (yes: bool)
        ensures
            yes == (a.id < b.id),
        {
            a.id < b.id
        };
    let out = order::sort_stable(osds, less, Ghost(before));
    assert(model::osd_views(out@) =~= out@.map_values(to));
    out
}

} // verus!
