//! What a snapshot of the cluster holds.

use crate::double::Double;
use crate::text;
use vstd::prelude::*;

verus! {

/// A moment: seconds since 1970 and nanoseconds into the second.
#[derive(Clone, Copy, Debug, PartialEq, Eq, Structural)]
pub struct Moment {
    pub secs: i64,
    pub nanos: u32,
}

/// Everything that one refresh learned.
#[derive(Clone, Debug)]
pub struct Snapshot {
    pub captured_at: Moment,
    pub profile: String,
    pub admin_host: String,
    pub hosts: Vec<String>,
    pub trace_window_secs: u64,
    pub cluster: ClusterSummary,
    pub nodes: Vec<NodeSummary>,
    pub osds: Vec<OsdSummary>,
    pub pools: Vec<PoolSummary>,
    pub abnormal_pgs: Vec<PgSummary>,
}

/// What the cluster says of itself.
#[derive(Clone, Debug)]
pub struct ClusterSummary {
    pub fsid: String,
    pub health: String,
    pub quorum: Vec<String>,
    pub mon_count: u64,
    pub mgr_available: bool,
    pub mgr_standbys: u64,
    pub osds_total: u64,
    pub osds_up: u64,
    pub osds_in: u64,
    pub pools: u64,
    pub pgs: u64,
    pub objects: u64,
    pub bytes_used: u64,
    pub bytes_total: u64,
    pub read_bytes_sec: u64,
    pub write_bytes_sec: u64,
    pub read_ops_sec: u64,
    pub write_ops_sec: u64,
    pub recovering_bytes_sec: u64,
    pub pg_states: String,
    pub nearfull_ratio: Double,
    pub backfillfull_ratio: Double,
    pub full_ratio: Double,
    pub health_checks: Vec<HealthCheck>,
}

/// What a [`ClusterSummary`] says.
pub struct ClusterView {
    pub fsid: Seq<char>,
    pub health: Seq<char>,
    pub quorum: Seq<Seq<char>>,
    pub mon_count: u64,
    pub mgr_available: bool,
    pub mgr_standbys: u64,
    pub osds_total: u64,
    pub osds_up: u64,
    pub osds_in: u64,
    pub pools: u64,
    pub pgs: u64,
    pub objects: u64,
    pub bytes_used: u64,
    pub bytes_total: u64,
    pub read_bytes_sec: u64,
    pub write_bytes_sec: u64,
    pub read_ops_sec: u64,
    pub write_ops_sec: u64,
    pub recovering_bytes_sec: u64,
    pub pg_states: Seq<char>,
    pub nearfull_ratio: Double,
    pub backfillfull_ratio: Double,
    pub full_ratio: Double,
    pub health_checks: Seq<HealthCheckView>,
}

impl View for ClusterSummary {
    type V = ClusterView;

    open spec fn view(&self) -> ClusterView {
        ClusterView {
            fsid: self.fsid@,
            health: self.health@,
            quorum: text::texts(self.quorum@),
            mon_count: self.mon_count,
            mgr_available: self.mgr_available,
            mgr_standbys: self.mgr_standbys,
            osds_total: self.osds_total,
            osds_up: self.osds_up,
            osds_in: self.osds_in,
            pools: self.pools,
            pgs: self.pgs,
            objects: self.objects,
            bytes_used: self.bytes_used,
            bytes_total: self.bytes_total,
            read_bytes_sec: self.read_bytes_sec,
            write_bytes_sec: self.write_bytes_sec,
            read_ops_sec: self.read_ops_sec,
            write_ops_sec: self.write_ops_sec,
            recovering_bytes_sec: self.recovering_bytes_sec,
            pg_states: self.pg_states@,
            nearfull_ratio: self.nearfull_ratio,
            backfillfull_ratio: self.backfillfull_ratio,
            full_ratio: self.full_ratio,
            health_checks: health_check_views(self.health_checks@),
        }
    }
}

/// A cluster of which nothing is known.
pub open spec fn no_cluster() -> ClusterView {
    ClusterView {
        fsid: Seq::empty(),
        health: Seq::empty(),
        quorum: Seq::empty(),
        mon_count: 0,
        mgr_available: false,
        mgr_standbys: 0,
        osds_total: 0,
        osds_up: 0,
        osds_in: 0,
        pools: 0,
        pgs: 0,
        objects: 0,
        bytes_used: 0,
        bytes_total: 0,
        read_bytes_sec: 0,
        write_bytes_sec: 0,
        read_ops_sec: 0,
        write_ops_sec: 0,
        recovering_bytes_sec: 0,
        pg_states: Seq::empty(),
        nearfull_ratio: Double { bits: 0 },
        backfillfull_ratio: Double { bits: 0 },
        full_ratio: Double { bits: 0 },
        health_checks: Seq::empty(),
    }
}

impl Default for ClusterSummary {
    fn default() -> (out: Self)
        ensures
            out@ == no_cluster(),
    {
        let out = ClusterSummary {
            fsid: String::new(),
            health: String::new(),
            quorum: Vec::new(),
            mon_count: 0,
            mgr_available: false,
            mgr_standbys: 0,
            osds_total: 0,
            osds_up: 0,
            osds_in: 0,
            pools: 0,
            pgs: 0,
            objects: 0,
            bytes_used: 0,
            bytes_total: 0,
            read_bytes_sec: 0,
            write_bytes_sec: 0,
            read_ops_sec: 0,
            write_ops_sec: 0,
            recovering_bytes_sec: 0,
            pg_states: String::new(),
            nearfull_ratio: Double { bits: 0 },
            backfillfull_ratio: Double { bits: 0 },
            full_ratio: Double { bits: 0 },
            health_checks: Vec::new(),
        };
        assert(out@.fsid =~= Seq::empty());
        assert(out@.health =~= Seq::empty());
        assert(out@.quorum =~= Seq::empty());
        assert(out@.pg_states =~= Seq::empty());
        assert(out@.health_checks =~= Seq::empty());
        out
    }
}

/// One entry of `health.checks` from `ceph -s`. The status payload already
/// carries these, so naming the reason a cluster is unhealthy costs no extra
/// remote command.
#[derive(Clone, Debug)]
pub struct HealthCheck {
    pub code: String,
    pub severity: String,
    pub message: String,
    pub details: Vec<String>,
}

/// What a [`HealthCheck`] says.
pub struct HealthCheckView {
    pub code: Seq<char>,
    pub severity: Seq<char>,
    pub message: Seq<char>,
    pub details: Seq<Seq<char>>,
}

impl View for HealthCheck {
    type V = HealthCheckView;

    open spec fn view(&self) -> HealthCheckView {
        HealthCheckView {
            code: self.code@,
            severity: self.severity@,
            message: self.message@,
            details: text::texts(self.details@),
        }
    }
}

/// A check of which nothing is known.
pub open spec fn no_check() -> HealthCheckView {
    HealthCheckView {
        code: Seq::empty(),
        severity: Seq::empty(),
        message: Seq::empty(),
        details: Seq::empty(),
    }
}

impl Default for HealthCheck {
    fn default() -> (out: Self)
        ensures
            out@ == no_check(),
    {
        let out = HealthCheck {
            code: String::new(),
            severity: String::new(),
            message: String::new(),
            details: Vec::new(),
        };
        assert(out@.code =~= Seq::empty());
        assert(out@.severity =~= Seq::empty());
        assert(out@.message =~= Seq::empty());
        assert(out@.details =~= Seq::empty());
        out
    }
}

/// What a host says of itself.
#[derive(Clone, Debug)]
pub struct NodeSummary {
    pub host: String,
    pub hostname: String,
    pub sudo: String,
    pub ceph_version: String,
    pub deployment: String,
    pub ceph_osd_processes: u64,
    pub osd_ids: String,
    /// Write limits on the block devices below the OSDs, empty where there are
    /// none.
    pub osd_io_write_limits: String,
    pub cpu_percent: Double,
    pub mem_percent: Double,
    /// Share of the last 10s where at least one task was stalled waiting on IO,
    /// from `/proc/pressure/io`. Unlike a device utilization figure this needs
    /// no OSD to block device mapping to be meaningful.
    pub io_stall_percent: Double,
    pub cpu_stall_percent: Double,
    pub error: Option<String>,
}

/// What a [`NodeSummary`] says.
pub struct NodeView {
    pub host: Seq<char>,
    pub hostname: Seq<char>,
    pub sudo: Seq<char>,
    pub ceph_version: Seq<char>,
    pub deployment: Seq<char>,
    pub ceph_osd_processes: u64,
    pub osd_ids: Seq<char>,
    pub osd_io_write_limits: Seq<char>,
    pub cpu_percent: Double,
    pub mem_percent: Double,
    pub io_stall_percent: Double,
    pub cpu_stall_percent: Double,
    pub error: Option<Seq<char>>,
}

impl View for NodeSummary {
    type V = NodeView;

    open spec fn view(&self) -> NodeView {
        NodeView {
            host: self.host@,
            hostname: self.hostname@,
            sudo: self.sudo@,
            ceph_version: self.ceph_version@,
            deployment: self.deployment@,
            ceph_osd_processes: self.ceph_osd_processes,
            osd_ids: self.osd_ids@,
            osd_io_write_limits: self.osd_io_write_limits@,
            cpu_percent: self.cpu_percent,
            mem_percent: self.mem_percent,
            io_stall_percent: self.io_stall_percent,
            cpu_stall_percent: self.cpu_stall_percent,
            error: match self.error {
                Some(s) => Some(s@),
                None => None,
            },
        }
    }
}

/// A node of which nothing is known.
pub open spec fn no_node() -> NodeView {
    NodeView {
        host: Seq::empty(),
        hostname: Seq::empty(),
        sudo: Seq::empty(),
        ceph_version: Seq::empty(),
        deployment: Seq::empty(),
        ceph_osd_processes: 0,
        osd_ids: Seq::empty(),
        osd_io_write_limits: Seq::empty(),
        cpu_percent: Double { bits: 0 },
        mem_percent: Double { bits: 0 },
        io_stall_percent: Double { bits: 0 },
        cpu_stall_percent: Double { bits: 0 },
        error: None,
    }
}

impl Default for NodeSummary {
    fn default() -> (out: Self)
        ensures
            out@ == no_node(),
    {
        let out = NodeSummary {
            host: String::new(),
            hostname: String::new(),
            sudo: String::new(),
            ceph_version: String::new(),
            deployment: String::new(),
            ceph_osd_processes: 0,
            osd_ids: String::new(),
            osd_io_write_limits: String::new(),
            cpu_percent: Double { bits: 0 },
            mem_percent: Double { bits: 0 },
            io_stall_percent: Double { bits: 0 },
            cpu_stall_percent: Double { bits: 0 },
            error: None,
        };
        assert(out@.host =~= Seq::empty());
        assert(out@.hostname =~= Seq::empty());
        assert(out@.sudo =~= Seq::empty());
        assert(out@.ceph_version =~= Seq::empty());
        assert(out@.deployment =~= Seq::empty());
        assert(out@.osd_ids =~= Seq::empty());
        assert(out@.osd_io_write_limits =~= Seq::empty());
        out
    }
}

/// What the cluster says of one OSD.
#[derive(Clone, Debug)]
pub struct OsdSummary {
    pub id: i64,
    pub name: String,
    pub host: String,
    pub status: String,
    pub reweight: Double,
    pub utilization: Double,
    pub pgs: u64,
    pub used_kb: u64,
    pub avail_kb: u64,
    /// Ceph's own view of OSD latency from `ceph osd perf`. It sits next to the
    /// eBPF numbers so a slow OSD can be attributed to Ceph or to the layer
    /// underneath it.
    pub commit_latency_ms: u64,
    pub apply_latency_ms: u64,
}

/// What a [`OsdSummary`] says.
pub struct OsdView {
    pub id: i64,
    pub name: Seq<char>,
    pub host: Seq<char>,
    pub status: Seq<char>,
    pub reweight: Double,
    pub utilization: Double,
    pub pgs: u64,
    pub used_kb: u64,
    pub avail_kb: u64,
    pub commit_latency_ms: u64,
    pub apply_latency_ms: u64,
}

impl View for OsdSummary {
    type V = OsdView;

    open spec fn view(&self) -> OsdView {
        OsdView {
            id: self.id,
            name: self.name@,
            host: self.host@,
            status: self.status@,
            reweight: self.reweight,
            utilization: self.utilization,
            pgs: self.pgs,
            used_kb: self.used_kb,
            avail_kb: self.avail_kb,
            commit_latency_ms: self.commit_latency_ms,
            apply_latency_ms: self.apply_latency_ms,
        }
    }
}

/// An OSD of which nothing is known.
pub open spec fn no_osd() -> OsdView {
    OsdView {
        id: 0,
        name: Seq::empty(),
        host: Seq::empty(),
        status: Seq::empty(),
        reweight: Double { bits: 0 },
        utilization: Double { bits: 0 },
        pgs: 0,
        used_kb: 0,
        avail_kb: 0,
        commit_latency_ms: 0,
        apply_latency_ms: 0,
    }
}

impl Default for OsdSummary {
    fn default() -> (out: Self)
        ensures
            out@ == no_osd(),
    {
        let out = OsdSummary {
            id: 0,
            name: String::new(),
            host: String::new(),
            status: String::new(),
            reweight: Double { bits: 0 },
            utilization: Double { bits: 0 },
            pgs: 0,
            used_kb: 0,
            avail_kb: 0,
            commit_latency_ms: 0,
            apply_latency_ms: 0,
        };
        assert(out@.name =~= Seq::empty());
        assert(out@.host =~= Seq::empty());
        assert(out@.status =~= Seq::empty());
        out
    }
}

/// A pool, and how many failure domains its CRUSH rule can choose from.
#[derive(Clone, Debug)]
pub struct PoolSummary {
    pub id: i64,
    pub name: String,
    pub size: u64,
    pub min_size: u64,
    pub crush_rule: i64,
    pub failure_domain: String,
    pub available_domains: u64,
}

/// What a [`PoolSummary`] says.
pub struct PoolView {
    pub id: i64,
    pub name: Seq<char>,
    pub size: u64,
    pub min_size: u64,
    pub crush_rule: i64,
    pub failure_domain: Seq<char>,
    pub available_domains: u64,
}

impl View for PoolSummary {
    type V = PoolView;

    open spec fn view(&self) -> PoolView {
        PoolView {
            id: self.id,
            name: self.name@,
            size: self.size,
            min_size: self.min_size,
            crush_rule: self.crush_rule,
            failure_domain: self.failure_domain@,
            available_domains: self.available_domains,
        }
    }
}

/// A pool of which nothing is known.
pub open spec fn no_pool() -> PoolView {
    PoolView {
        id: 0,
        name: Seq::empty(),
        size: 0,
        min_size: 0,
        crush_rule: 0,
        failure_domain: Seq::empty(),
        available_domains: 0,
    }
}

impl Default for PoolSummary {
    fn default() -> (out: Self)
        ensures
            out@ == no_pool(),
    {
        let out = PoolSummary {
            id: 0,
            name: String::new(),
            size: 0,
            min_size: 0,
            crush_rule: 0,
            failure_domain: String::new(),
            available_domains: 0,
        };
        assert(out@.name =~= Seq::empty());
        assert(out@.failure_domain =~= Seq::empty());
        out
    }
}

/// A placement group and the OSDs that it maps to.
#[derive(Clone, Debug)]
pub struct PgSummary {
    pub id: String,
    pub state: String,
    pub up: Vec<i64>,
    pub acting: Vec<i64>,
}

/// What a [`PgSummary`] says.
pub struct PgView {
    pub id: Seq<char>,
    pub state: Seq<char>,
    pub up: Seq<i64>,
    pub acting: Seq<i64>,
}

impl View for PgSummary {
    type V = PgView;

    open spec fn view(&self) -> PgView {
        PgView {
            id: self.id@,
            state: self.state@,
            up: self.up@,
            acting: self.acting@,
        }
    }
}

/// A PG of which nothing is known.
pub open spec fn no_pg() -> PgView {
    PgView {
        id: Seq::empty(),
        state: Seq::empty(),
        up: Seq::empty(),
        acting: Seq::empty(),
    }
}

impl Default for PgSummary {
    fn default() -> (out: Self)
        ensures
            out@ == no_pg(),
    {
        let out = PgSummary {
            id: String::new(),
            state: String::new(),
            up: Vec::new(),
            acting: Vec::new(),
        };
        assert(out@.id =~= Seq::empty());
        assert(out@.state =~= Seq::empty());
        assert(out@.up =~= Seq::empty());
        assert(out@.acting =~= Seq::empty());
        out
    }
}

/// What the checks say.
pub open spec fn health_check_views(checks: Seq<HealthCheck>) -> Seq<HealthCheckView> {
    checks.map_values(|c: HealthCheck| c@)
}

/// What the OSDs say.
pub open spec fn osd_views(osds: Seq<OsdSummary>) -> Seq<OsdView> {
    osds.map_values(|o: OsdSummary| o@)
}

/// What the pools say.
pub open spec fn pool_views(pools: Seq<PoolSummary>) -> Seq<PoolView> {
    pools.map_values(|p: PoolSummary| p@)
}

/// What the placement groups say.
pub open spec fn pg_views(pgs: Seq<PgSummary>) -> Seq<PgView> {
    pgs.map_values(|p: PgSummary| p@)
}

/// What is known of the hosts, by the name that they were asked under.
#[derive(Clone, Debug)]
pub struct NodeTable {
    pub entries: Vec<(String, NodeSummary)>,
}

/// The place of the first entry for `key`, or the number of entries where there
/// is none.
pub open spec fn entry_place(entries: Seq<(String, NodeSummary)>, key: Seq<char>) -> int
    decreases entries.len(),
{
    if entries.len() == 0 || entries[0].0@ == key {
        0
    } else {
        1 + entry_place(entries.drop_first(), key)
    }
}

proof fn lemma_entry_place(entries: Seq<(String, NodeSummary)>, key: Seq<char>, at: int)
    requires
        0 <= at <= entries.len(),
        forall|i: int| 0 <= i < at ==> (#[trigger] entries[i]).0@ != key,
        at < entries.len() ==> entries[at].0@ == key,
    ensures
        entry_place(entries, key) == at,
    decreases at,
{
    if at > 0 {
        assert(entries[0].0@ != key);
        let tail = entries.drop_first();
        assert forall|i: int| 0 <= i < at - 1 implies (#[trigger] tail[i]).0@ != key by {
            assert(tail[i] == entries[i + 1]);
        }
        lemma_entry_place(tail, key, at - 1);
    }
}

impl NodeTable {
    /// No host has two entries.
    pub open spec fn wf(self) -> bool {
        forall|i: int, j: int|
            0 <= i < j < self.entries@.len() ==> (#[trigger] self.entries@[i]).0@ != (
            #[trigger] self.entries@[j]).0@
    }

    /// The summaries, in the order in which their hosts were first entered.
    pub open spec fn nodes(self) -> Seq<NodeSummary> {
        self.entries@.map_values(|e: (String, NodeSummary)| e.1)
    }

    /// The entry for `key`.
    pub open spec fn entry(self, key: Seq<char>) -> Option<NodeSummary> {
        let at = entry_place(self.entries@, key);
        if at < self.entries@.len() {
            Some(self.entries@[at].1)
        } else {
            None
        }
    }

    /// A table without entries.
    pub fn new() -> (out: Self)
        ensures
            out.wf(),
            out.nodes() == Seq::<NodeSummary>::empty(),
            forall|key: Seq<char>| #[trigger] out.entry(key) is None,
    {
        let out = NodeTable { entries: Vec::new() };
        assert(out.nodes() =~= Seq::<NodeSummary>::empty());
        out
    }

    fn place(&self, key: &str) -> (at: usize)
        ensures
            at == entry_place(self.entries@, key@),
            at <= self.entries@.len(),
            forall|i: int| 0 <= i < at ==> (#[trigger] self.entries@[i]).0@ != key@,
            at < self.entries@.len() ==> self.entries@[at as int].0@ == key@,
    {
        let mut at: usize = 0;
        while at < self.entries.len() && !text::same_text(self.entries[at].0.as_str(), key)
            invariant
                at <= self.entries@.len(),
                forall|i: int| 0 <= i < at ==> (#[trigger] self.entries@[i]).0@ != key@,
            decreases self.entries@.len() - at,
        {
            at = at + 1;
        }
        proof {
            lemma_entry_place(self.entries@, key@, at as int);
        }
        at
    }

    /// The entry for `key`.
    pub fn get(&self, key: &str) -> (found: Option<&NodeSummary>)
        ensures
            match found {
                Some(node) => self.entry(key@) == Some(*node),
                None => self.entry(key@) is None,
            },
    {
        let at: usize = self.place(key);
        if at < self.entries.len() {
            Some(&self.entries[at].1)
        } else {
            None
        }
    }

    /// Enters `node` for `key`, in place of the entry that there was.
    pub fn insert(&mut self, key: String, node: NodeSummary)
        requires
            old(self).wf(),
        ensures
            final(self).wf(),
            final(self).entry(key@) == Some(node),
            forall|other: Seq<char>|
                other != key@ ==> #[trigger] final(self).entry(other) == old(self).entry(other),
            ({
                let at = entry_place(old(self).entries@, key@);
                final(self).nodes() == if at < old(self).entries@.len() {
                    old(self).nodes().update(at, node)
                } else {
                    old(self).nodes().push(node)
                }
            }),
    {
        let ghost before = *self;
        let at: usize = self.place(key.as_str());
        if at < self.entries.len() {
            let ghost name = self.entries@[at as int].0@;
            self.entries.set(at, (key, node));
            proof {
                lemma_entry_place(self.entries@, name, at as int);
                assert forall|other: Seq<char>| other != name implies #[trigger] self.entry(other)
                    == before.entry(other) by {
                    lemma_same_keys(before.entries@, self.entries@, other);
                    lemma_entry_found(before.entries@, other);
                }
                assert(self.nodes() =~= before.nodes().update(at as int, node));
            }
        } else {
            let ghost name = key@;
            self.entries.push((key, node));
            proof {
                lemma_entry_place(self.entries@, name, at as int);
                assert forall|other: Seq<char>| other != name implies #[trigger] self.entry(other)
                    == before.entry(other) by {
                    lemma_one_more(before.entries@, self.entries@, other);
                    let place = entry_place(before.entries@, other);
                    if place < before.entries@.len() {
                        assert(self.entries@[place] == before.entries@[place]);
                    }
                }
                assert(self.nodes() =~= before.nodes().push(node));
            }
        }
    }
}

proof fn lemma_entry_found(entries: Seq<(String, NodeSummary)>, key: Seq<char>)
    ensures
        0 <= entry_place(entries, key) <= entries.len(),
        entry_place(entries, key) < entries.len() ==> entries[entry_place(entries, key)].0@ == key,
    decreases entries.len(),
{
    if entries.len() > 0 && entries[0].0@ != key {
        let tail = entries.drop_first();
        lemma_entry_found(tail, key);
        let at = entry_place(tail, key);
        if at < tail.len() {
            assert(tail[at] == entries[at + 1]);
        }
    }
}

proof fn lemma_same_keys(
    before: Seq<(String, NodeSummary)>,
    after: Seq<(String, NodeSummary)>,
    key: Seq<char>,
)
    requires
        before.len() == after.len(),
        forall|i: int| 0 <= i < before.len() ==> (#[trigger] before[i]).0@ == after[i].0@,
    ensures
        entry_place(before, key) == entry_place(after, key),
    decreases before.len(),
{
    if before.len() > 0 {
        assert(before[0].0@ == after[0].0@);
        let (b, a) = (before.drop_first(), after.drop_first());
        assert forall|i: int| 0 <= i < b.len() implies (#[trigger] b[i]).0@ == a[i].0@ by {
            assert(before[i + 1].0@ == after[i + 1].0@);
        }
        lemma_same_keys(b, a, key);
    }
}

proof fn lemma_one_more(
    before: Seq<(String, NodeSummary)>,
    after: Seq<(String, NodeSummary)>,
    key: Seq<char>,
)
    requires
        after.len() == before.len() + 1,
        after.drop_last() =~= before,
        after.last().0@ != key,
    ensures
        entry_place(before, key) < before.len() ==> entry_place(after, key) == entry_place(
            before,
            key,
        ),
        entry_place(before, key) >= before.len() ==> entry_place(after, key) >= after.len(),
        entry_place(before, key) >= 0,
    decreases before.len(),
{
    if before.len() > 0 && before[0].0@ == key {
        assert(after[0] == before[0]);
    } else if before.len() > 0 {
        assert(after[0] == before[0]);
        let (b, a) = (before.drop_first(), after.drop_first());
        assert(a.drop_last() =~= b);
        lemma_one_more(b, a, key);
    } else {
        assert(after[0] == after.last());
        assert(entry_place(after.drop_first(), key) == 0);
    }
}

/// The entry of a key is the first that is kept under it, and there is none where
/// none is.
pub proof fn law_entries_are_found_by_key(table: NodeTable, key: Seq<char>)
    ensures
        forall|i: int|
            0 <= i < table.entries@.len() && (#[trigger] table.entries@[i]).0@ == key && (forall|k|
                0 <= k < i ==> (#[trigger] table.entries@[k]).0@ != key) ==> table.entry(key)
                == Some(table.entries@[i].1),
        (forall|k: int| 0 <= k < table.entries@.len() ==> (#[trigger] table.entries@[k]).0@ != key)
            ==> table.entry(key) is None,
        table.nodes().len() == table.entries@.len(),
        forall|i: int|
            0 <= i < table.entries@.len() ==> #[trigger] table.nodes()[i] == table.entries@[i].1,
{
    let entries = table.entries@;
    assert forall|i: int|
        0 <= i < entries.len() && (#[trigger] entries[i]).0@ == key && (forall|k|
            0 <= k < i ==> (#[trigger] entries[k]).0@ != key) implies table.entry(key) == Some(
        entries[i].1,
    ) by {
        lemma_entry_place(entries, key, i);
    }
    if forall|k: int| 0 <= k < entries.len() ==> (#[trigger] entries[k]).0@ != key {
        lemma_entry_place(entries, key, entries.len() as int);
    }
}

/// What is said of a cluster and of an OSD are its own fields.
pub proof fn law_summaries_say_their_own_fields(cluster: ClusterSummary, osd: OsdSummary)
    ensures
        cluster@.fsid == cluster.fsid@ && cluster@.health == cluster.health@,
        cluster@.mon_count == cluster.mon_count,
        cluster@.mgr_available == cluster.mgr_available,
        cluster@.mgr_standbys == cluster.mgr_standbys,
        cluster@.osds_total == cluster.osds_total,
        cluster@.osds_up == cluster.osds_up && cluster@.osds_in == cluster.osds_in,
        cluster@.pools == cluster.pools && cluster@.pgs == cluster.pgs,
        cluster@.objects == cluster.objects,
        cluster@.bytes_used == cluster.bytes_used && cluster@.bytes_total == cluster.bytes_total,
        cluster@.read_bytes_sec == cluster.read_bytes_sec,
        cluster@.write_bytes_sec == cluster.write_bytes_sec,
        cluster@.read_ops_sec == cluster.read_ops_sec,
        cluster@.write_ops_sec == cluster.write_ops_sec,
        cluster@.recovering_bytes_sec == cluster.recovering_bytes_sec,
        cluster@.pg_states == cluster.pg_states@,
        cluster@.nearfull_ratio == cluster.nearfull_ratio,
        cluster@.backfillfull_ratio == cluster.backfillfull_ratio,
        cluster@.full_ratio == cluster.full_ratio,
        cluster@.quorum == cluster.quorum@.map_values(|name: String| name@),
        cluster@.health_checks == cluster.health_checks@.map_values(|c: HealthCheck| c@),
        osd@.id == osd.id && osd@.name == osd.name@ && osd@.host == osd.host@,
        osd@.status == osd.status@ && osd@.reweight == osd.reweight,
        osd@.utilization == osd.utilization && osd@.pgs == osd.pgs,
        osd@.used_kb == osd.used_kb && osd@.avail_kb == osd.avail_kb,
        osd@.commit_latency_ms == osd.commit_latency_ms,
        osd@.apply_latency_ms == osd.apply_latency_ms,
{
}

/// What is said of a pool, a placement group, a health check and a node are its own
/// fields.
pub proof fn law_entries_say_their_own_fields(
    pool: PoolSummary,
    pg: PgSummary,
    check: HealthCheck,
    node: NodeSummary,
)
    ensures
        pool@.id == pool.id && pool@.name == pool.name@,
        pool@.size == pool.size && pool@.min_size == pool.min_size,
        pool@.crush_rule == pool.crush_rule && pool@.failure_domain == pool.failure_domain@,
        pool@.available_domains == pool.available_domains,
        pg@.id == pg.id@ && pg@.state == pg.state@,
        pg@.up == pg.up@ && pg@.acting == pg.acting@,
        check@.code == check.code@ && check@.severity == check.severity@,
        check@.message == check.message@,
        check@.details == check.details@.map_values(|detail: String| detail@),
        node@.host == node.host@ && node@.hostname == node.hostname@ && node@.sudo == node.sudo@,
        node@.ceph_version == node.ceph_version@ && node@.deployment == node.deployment@,
        node@.ceph_osd_processes == node.ceph_osd_processes,
        node@.osd_ids == node.osd_ids@,
        node@.osd_io_write_limits == node.osd_io_write_limits@,
        node@.cpu_percent == node.cpu_percent && node@.mem_percent == node.mem_percent,
        node@.io_stall_percent == node.io_stall_percent,
        node@.cpu_stall_percent == node.cpu_stall_percent,
        node@.error is Some <==> node.error is Some,
        node.error is Some ==> node@.error == Some(node.error->0@),
{
}

} // verus!
