//! Puts a snapshot together from what the admin commands and the hosts gave.

use crate::collect;
use crate::collect::{parse_abnormal_pgs, parse_cluster_summary, parse_osds, parse_pools};
use crate::collect_laws;
use crate::config::ResolvedConfig;
use crate::json;
use crate::json::{Json, JsonTree};
use crate::model;
use crate::model::{
    ClusterSummary, HealthCheck, Moment, NodeSummary, NodeView, OsdSummary, PgSummary, PoolSummary,
    Snapshot,
};
use crate::node;
use crate::node::node_worker_panicked;
use crate::text;
use vstd::prelude::*;

verus! {

pub const STATUS_COMMAND: &'static str = "sudo -n ceph -s --format json";

pub const TREE_COMMAND: &'static str = "sudo -n ceph osd tree --format json";

pub const DF_COMMAND: &'static str = "sudo -n ceph osd df --format json";

pub const PERF_COMMAND: &'static str = "sudo -n ceph osd perf --format json";

pub const OSDMAP_COMMAND: &'static str = "sudo -n ceph osd dump --format json";

pub const CRUSH_COMMAND: &'static str = "sudo -n ceph osd crush rule dump --format json";

pub const PGS_COMMAND: &'static str = "sudo -n ceph pg dump pgs --format json";

/// What the admin commands wrote. The last four are supplementary, so a cluster
/// that refuses these queries still gets a snapshot.
#[derive(Clone, Debug)]
pub struct AdminOutputs {
    pub status: String,
    pub tree: String,
    pub df: String,
    pub perf: Option<String>,
    pub osdmap: Option<String>,
    pub crush: Option<String>,
    pub pgs: Option<String>,
}

/// What the admin commands say of the cluster.
#[derive(Clone, Debug)]
pub struct AdminReport {
    pub cluster: ClusterSummary,
    pub osds: Vec<OsdSummary>,
    pub pools: Vec<PoolSummary>,
    pub abnormal_pgs: Vec<PgSummary>,
}

/// The report whose JSON could not be read, and the reason that the parser gave.
#[derive(Clone, Debug)]
pub enum ReportError {
    Status(String),
    Tree(String),
    Df(String),
}

impl ReportError {
    /// The error as the operator sees it.
    pub open spec fn shown(self) -> Seq<char> {
        match self {
            ReportError::Status(reason) => "failed to parse ceph status json: "@ + reason@,
            ReportError::Tree(reason) => "failed to parse osd tree json: "@ + reason@,
            ReportError::Df(reason) => "failed to parse osd df json: "@ + reason@,
        }
    }

    /// The error as the operator sees it.
    pub fn text(&self) -> (out: String)
        ensures
            out@ == self.shown(),
    {
        let (mut out, reason) = match self {
            ReportError::Status(reason) => (
                "failed to parse ceph status json: ".to_owned(),
                reason,
            ),
            ReportError::Tree(reason) => ("failed to parse osd tree json: ".to_owned(), reason),
            ReportError::Df(reason) => ("failed to parse osd df json: ".to_owned(), reason),
        };
        out.append(reason.as_str());
        out
    }
}

/// What the parser makes of an output, without the white space round it.
pub open spec fn read(output: Seq<char>) -> Result<JsonTree, Seq<char>> {
    json::json_read(text::trimmed(output))
}

/// A supplementary output that is there and can be read.
pub open spec fn read_extra(output: Option<String>) -> Option<JsonTree> {
    match output {
        Some(output) => match read(output@) {
            Ok(tree) => Some(tree),
            Err(_) => None,
        },
        None => None,
    }
}

/// `report` is what the documents say.
pub open spec fn reports(
    report: AdminReport,
    status: JsonTree,
    tree: JsonTree,
    df: JsonTree,
    extra: (Option<JsonTree>, Option<JsonTree>, Option<JsonTree>, Option<JsonTree>),
) -> bool {
    let (perf, osdmap, crush, pgs) = extra;
    &&& report.cluster@ == collect::cluster_of(status, osdmap)
    &&& model::osd_views(report.osds@) == collect::osds_of(tree, df, perf)
    &&& model::pool_views(report.pools@) == collect::pools_of(osdmap, crush, tree)
    &&& model::pg_views(report.abnormal_pgs@) == collect::abnormal_pgs_of(pgs)
}

/// The checks are ordered by code, and no two have the same.
pub open spec fn strictly_ordered(checks: Seq<HealthCheck>) -> bool {
    forall|i: int, j: int|
        0 <= i < j < checks.len() ==> text::text_before(
            (#[trigger] checks[i]).code@,
            (#[trigger] checks[j]).code@,
        )
}

fn parse_extra(output: &Option<String>) -> (out: Option<Json>)
    ensures
        match out {
            Some(json) => read_extra(*output) == Some(json.tree()),
            None => read_extra(*output) is None,
        },
{
    match output {
        Some(output) => match json::parse_json(text::trim_text(output.as_str()).as_str()) {
            Ok(json) => Some(json),
            Err(_) => None,
        },
        None => None,
    }
}

/// What the documents say of the cluster.
pub fn report_of(
    status: &Json,
    tree: &Json,
    df: &Json,
    perf: Option<&Json>,
    osdmap: Option<&Json>,
    crush: Option<&Json>,
    pgs: Option<&Json>,
) -> (report: AdminReport)
    ensures
        reports(
            report,
            status.tree(),
            tree.tree(),
            df.tree(),
            (
                json::opt_tree(perf),
                json::opt_tree(osdmap),
                json::opt_tree(crush),
                json::opt_tree(pgs),
            ),
        ),
{
    AdminReport {
        cluster: parse_cluster_summary(status, osdmap),
        osds: parse_osds(tree, df, perf),
        pools: parse_pools(osdmap, crush, tree),
        abnormal_pgs: parse_abnormal_pgs(pgs),
    }
}

/// What the outputs of the admin commands say of the cluster. The first of the
/// three main outputs that is no JSON is the error; a supplementary output that
/// is none counts as missing.
pub fn read_report(outputs: &AdminOutputs) -> (result: Result<AdminReport, ReportError>)
    ensures
        match (read(outputs.status@), read(outputs.tree@), read(outputs.df@)) {
            (Err(reason), _, _) => result is Err && result->Err_0 is Status
                && result->Err_0->Status_0@ == reason,
            (Ok(_), Err(reason), _) => result is Err && result->Err_0 is Tree
                && result->Err_0->Tree_0@ == reason,
            (Ok(_), Ok(_), Err(reason)) => result is Err && result->Err_0 is Df
                && result->Err_0->Df_0@ == reason,
            (Ok(status), Ok(tree), Ok(df)) => result is Ok && reports(
                result->Ok_0,
                status,
                tree,
                df,
                (
                    read_extra(outputs.perf),
                    read_extra(outputs.osdmap),
                    read_extra(outputs.crush),
                    read_extra(outputs.pgs),
                ),
            ),
        },
        result is Ok ==> strictly_ordered(result->Ok_0.cluster.health_checks@),
{
    let status = match json::parse_json(text::trim_text(outputs.status.as_str()).as_str()) {
        Ok(status) => status,
        Err(reason) => {
            return Err(ReportError::Status(reason));
        },
    };
    let tree = match json::parse_json(text::trim_text(outputs.tree.as_str()).as_str()) {
        Ok(tree) => tree,
        Err(reason) => {
            return Err(ReportError::Tree(reason));
        },
    };
    let df = match json::parse_json(text::trim_text(outputs.df.as_str()).as_str()) {
        Ok(df) => df,
        Err(reason) => {
            return Err(ReportError::Df(reason));
        },
    };
    let perf = parse_extra(&outputs.perf);
    let osdmap = parse_extra(&outputs.osdmap);
    let crush = parse_extra(&outputs.crush);
    let pgs = parse_extra(&outputs.pgs);
    let report = report_of(
        &status,
        &tree,
        &df,
        perf.as_ref(),
        osdmap.as_ref(),
        crush.as_ref(),
        pgs.as_ref(),
    );
    proof {
        collect_laws::law_health_checks_are_ordered(status.tree());
        let checks = report.cluster.health_checks@;
        let views = collect::health_checks_of(status.tree());
        assert(report.cluster@.health_checks == views);
        assert forall|i: int, j: int| 0 <= i < j < checks.len() implies text::text_before(
            (#[trigger] checks[i]).code@,
            (#[trigger] checks[j]).code@,
        ) by {
            assert(views[i] == checks[i]@ && views[j] == checks[j]@);
        }
    }
    Ok(report)
}

/// What a host's worker gave, or that it died.
pub open spec fn node_given(given: Option<NodeSummary>, host: Seq<char>) -> NodeView {
    match given {
        Some(node) => node@,
        None => node::failed_node(host, "node collection worker panicked"@),
    }
}

fn copied(texts: &Vec<String>) -> (out: Vec<String>)
    ensures
        text::texts(out@) == text::texts(texts@),
{
    let ghost all = text::texts(texts@);
    let mut out: Vec<String> = Vec::new();
    let mut i: usize = 0;
    while i < texts.len()
        invariant
            i <= texts@.len(),
            all == text::texts(texts@),
            text::texts(out@) == all.take(i as int),
        decreases texts@.len() - i,
    {
        let ghost before = text::texts(out@);
        out.push(texts[i].clone());
        i = i + 1;
        assert(text::texts(out@) =~= before.push(all[i - 1]));
        assert(text::texts(out@) =~= all.take(i as int));
    }
    assert(all.take(all.len() as int) =~= all);
    out
}

/// `out` is the snapshot of a profile at the moment `at`: what the admin commands
/// say and what the worker of each host gave, in the order of the hosts.
pub open spec fn shows(
    out: Snapshot,
    at: Moment,
    cfg: ResolvedConfig,
    report: AdminReport,
    nodes: Seq<Option<NodeSummary>>,
) -> bool {
    &&& out.captured_at == at
    &&& out.profile@ == cfg.profile@
    &&& out.admin_host@ == cfg.admin_host@
    &&& text::texts(out.hosts@) == text::texts(cfg.hosts@)
    &&& out.trace_window_secs == cfg.trace_window_secs
    &&& out.cluster == report.cluster
    &&& out.osds == report.osds
    &&& out.pools == report.pools
    &&& out.abnormal_pgs == report.abnormal_pgs
    &&& out.nodes@.len() == if nodes.len() < cfg.hosts@.len() {
        nodes.len()
    } else {
        cfg.hosts@.len()
    }
    &&& forall|i: int|
        0 <= i < out.nodes@.len() ==> (#[trigger] out.nodes@[i])@ == node_given(
            nodes[i],
            cfg.hosts@[i]@,
        )
}

/// `chrono::Utc::now`, `DateTime::timestamp` and
/// `DateTime::timestamp_subsec_nanos`: the current moment. It depends on the clock
/// alone, so nothing is claimed of it.
#[verifier::external_body]
fn moment_now() -> (now: Moment) {
    let now = chrono::Utc::now();
    Moment { secs: now.timestamp(), nanos: now.timestamp_subsec_nanos() }
}

/// The snapshot of a profile, taken now.
pub fn collect_snapshot(
    cfg: &ResolvedConfig,
    report: AdminReport,
    nodes: Vec<Option<NodeSummary>>,
) -> (out: Snapshot)
    ensures
        shows(out, out.captured_at, *cfg, report, nodes@),
{
    snapshot_at(cfg, moment_now(), report, nodes)
}

/// The snapshot of a profile at a moment.
pub fn snapshot_at(
    cfg: &ResolvedConfig,
    captured_at: Moment,
    report: AdminReport,
    nodes: Vec<Option<NodeSummary>>,
) -> (out: Snapshot)
    ensures
        shows(out, captured_at, *cfg, report, nodes@),
{
    let mut summaries: Vec<NodeSummary> = Vec::new();
    let ghost given = nodes@;
    let count: usize = nodes.len();
    let mut i: usize = 0;
    for node in it: nodes
        invariant
            it.seq() == given,
            count == given.len(),
            i == it.index(),
            summaries@.len() == if i < cfg.hosts@.len() {
                i as int
            } else {
                cfg.hosts@.len() as int
            },
            forall|k: int|
                0 <= k < summaries@.len() ==> (#[trigger] summaries@[k])@ == node_given(
                    given[k],
                    cfg.hosts@[k]@,
                ),
    {
        if i < cfg.hosts.len() {
            summaries.push(
                match node {
                    Some(node) => node,
                    None => node_worker_panicked(cfg.hosts[i].as_str()),
                },
            );
        }
        i = i + 1;
    }
    Snapshot {
        captured_at,
        profile: cfg.profile.clone(),
        admin_host: cfg.admin_host.clone(),
        hosts: copied(&cfg.hosts),
        trace_window_secs: cfg.trace_window_secs,
        cluster: report.cluster,
        nodes: summaries,
        osds: report.osds,
        pools: report.pools,
        abnormal_pgs: report.abnormal_pgs,
    }
}

/// A report is read from its own outputs: the cluster from the status and the OSD
/// map, the OSDs from tree, df and perf, the pools from the OSD map, the rules and
/// the tree, and the abnormal placement groups from their dump.
pub proof fn law_report_is_read_from_its_own_outputs(
    report: AdminReport,
    status: JsonTree,
    tree: JsonTree,
    df: JsonTree,
    perf: Option<JsonTree>,
    osdmap: Option<JsonTree>,
    crush: Option<JsonTree>,
    pgs: Option<JsonTree>,
)
    requires
        reports(report, status, tree, df, (perf, osdmap, crush, pgs)),
    ensures
        report.cluster@ == collect::cluster_of(status, osdmap),
        report.osds@.map_values(|o: OsdSummary| o@) == collect::osds_of(tree, df, perf),
        report.pools@.map_values(|p: PoolSummary| p@) == collect::pools_of(osdmap, crush, tree),
        report.abnormal_pgs@.map_values(|p: PgSummary| p@) == collect::abnormal_pgs_of(pgs),
{
    assert(model::osd_views(report.osds@) =~= report.osds@.map_values(|o: OsdSummary| o@));
    assert(model::pool_views(report.pools@) =~= report.pools@.map_values(|p: PoolSummary| p@));
    assert(model::pg_views(report.abnormal_pgs@) =~= report.abnormal_pgs@.map_values(
        |p: PgSummary| p@,
    ));
}

/// A snapshot is of its own profile, holds the report as it was read, and has for
/// each host what its worker gave, or that the worker died.
pub proof fn law_snapshot_holds_what_was_collected(
    out: Snapshot,
    at: Moment,
    cfg: ResolvedConfig,
    report: AdminReport,
    nodes: Seq<Option<NodeSummary>>,
)
    requires
        shows(out, at, cfg, report, nodes),
        nodes.len() == cfg.hosts@.len(),
    ensures
        out.captured_at == at,
        out.profile@ == cfg.profile@,
        out.admin_host@ == cfg.admin_host@,
        out.hosts@.len() == cfg.hosts@.len(),
        forall|i: int| 0 <= i < cfg.hosts@.len() ==> (#[trigger] out.hosts@[i])@ == cfg.hosts@[i]@,
        out.trace_window_secs == cfg.trace_window_secs,
        out.cluster == report.cluster,
        out.osds == report.osds,
        out.pools == report.pools,
        out.abnormal_pgs == report.abnormal_pgs,
        out.nodes@.len() == cfg.hosts@.len(),
        forall|i: int|
            0 <= i < nodes.len() ==> match nodes[i] {
                Some(node) => (#[trigger] out.nodes@[i])@ == node@,
                None => out.nodes@[i].host@ == cfg.hosts@[i]@ && out.nodes@[i]@.error == Some(
                    "node collection worker panicked"@,
                ),
            },
{
    assert(text::texts(out.hosts@).len() == out.hosts@.len());
    assert(text::texts(cfg.hosts@).len() == cfg.hosts@.len());
    assert forall|i: int| 0 <= i < cfg.hosts@.len() implies (#[trigger] out.hosts@[i])@
        == cfg.hosts@[i]@ by {
        assert(text::texts(out.hosts@)[i] == out.hosts@[i]@);
        assert(text::texts(cfg.hosts@)[i] == cfg.hosts@[i]@);
    }
    assert forall|i: int| 0 <= i < nodes.len() implies match nodes[i] {
        Some(node) => (#[trigger] out.nodes@[i])@ == node@,
        None => out.nodes@[i].host@ == cfg.hosts@[i]@ && out.nodes@[i]@.error == Some(
            "node collection worker panicked"@,
        ),
    } by {
        assert(out.nodes@[i]@ == node_given(nodes[i], cfg.hosts@[i]@));
        assert(out.nodes@[i]@.host == out.nodes@[i].host@);
    }
}

/// White space round an output does not matter, and an output that is missing or
/// cannot be read counts as none where it is not needed.
pub proof fn law_outputs_are_read_trimmed(output: Seq<char>, extra: Option<String>)
    requires
        output.len() > 0,
        !text::is_space(output[0]),
        !text::is_space(output.last()),
    ensures
        read(output) == json::json_read(output),
        read(output + seq!['\n']) == json::json_read(output),
        read_extra(None) is None,
        extra is Some && read(extra->0@) is Ok ==> read_extra(extra) == Some(read(extra->0@)->Ok_0),
        extra is Some && read(extra->0@) is Err ==> read_extra(extra) is None,
{
    let none = Seq::<char>::empty();
    assert(none + output + none =~= output);
    text::law_trimming_takes_white_space_off(none, output, none);
    assert(none + output + seq!['\n'] =~= output + seq!['\n']);
    text::law_trimming_takes_white_space_off(none, output, seq!['\n']);
}

} // verus!
