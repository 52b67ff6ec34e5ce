//! Checks whether the hosts of a profile are ready, and reports it.

use crate::config::ResolvedConfig;
use crate::ssh::SshCommandOutput;
use crate::text;
use crate::util;
use crate::util::{host_batches, short, MAX_PARALLEL_HOSTS};
use vstd::prelude::*;

verus! {

#[derive(Clone, Copy, Debug, PartialEq, Eq, PartialOrd, Ord, Structural)]
pub enum CheckLevel {
    Okay,
    Warn,
    Bad,
}

#[derive(Clone, Debug)]
pub struct DoctorCheck {
    pub level: CheckLevel,
    pub scope: String,
    pub detail: String,
}

/// What a [`DoctorCheck`] says.
pub struct CheckView {
    pub level: CheckLevel,
    pub scope: Seq<char>,
    pub detail: Seq<char>,
}

impl View for DoctorCheck {
    type V = CheckView;

    open spec fn view(&self) -> CheckView {
        CheckView { level: self.level, scope: self.scope@, detail: self.detail@ }
    }
}

/// What the checks say.
pub open spec fn check_views(checks: Seq<DoctorCheck>) -> Seq<CheckView> {
    checks.map_values(|c: DoctorCheck| c@)
}

#[derive(Clone, Debug)]
pub struct DoctorReport {
    pub text: String,
    pub has_bad: bool,
}

#[derive(Clone, Copy, Debug, PartialEq, Eq, Structural)]
pub enum HostRole {
    Admin,
    Osd,
    Client,
}

/// One host's worth of doctor checks. Every job talks to a single host, so the
/// jobs run concurrently while each host still sees one SSH connection at a time.
#[derive(Debug)]
pub struct HostJob<'a> {
    pub host: &'a str,
    pub role: HostRole,
}

pub const REACHABLE_COMMAND: &'static str = "hostname >/dev/null";

pub const SUDO_COMMAND: &'static str = "sudo -n true";

pub const CEPH_COMMAND: &'static str = "sudo -n ceph -s --format json >/dev/null";

pub const RADOS_COMMAND: &'static str = "sudo -n rados --version >/dev/null";

/// What the tracer probe of a host found.
#[derive(Clone, Debug)]
pub struct TraceTarget {
    pub error: Option<String>,
    pub installed: bool,
    pub binary: String,
    pub osds: String,
    pub traceable: String,
}

/// What a remote command gave: its output, or why it could not be run.
pub type SshOutcome = Result<SshCommandOutput, String>;

/// What a host answered to the commands of its role.
#[derive(Debug)]
pub enum HostAnswers {
    Admin { reachable: SshOutcome, sudo: SshOutcome, ceph: SshOutcome, rados: SshOutcome },
    Osd { reachable: SshOutcome, sudo: SshOutcome, target: TraceTarget },
    Client {
        reachable: SshOutcome,
        sudo: SshOutcome,
        kfstrace: SshOutcome,
        radostrace: SshOutcome,
    },
}

impl HostAnswers {
    pub open spec fn role(self) -> HostRole {
        match self {
            HostAnswers::Admin { .. } => HostRole::Admin,
            HostAnswers::Osd { .. } => HostRole::Osd,
            HostAnswers::Client { .. } => HostRole::Client,
        }
    }

    /// The role that these are the answers of.
    pub fn host_role(&self) -> (role: HostRole)
        ensures
            role == self.role(),
    {
        match self {
            HostAnswers::Admin { .. } => HostRole::Admin,
            HostAnswers::Osd { .. } => HostRole::Osd,
            HostAnswers::Client { .. } => HostRole::Client,
        }
    }
}

/// The plain commands that a host of a role is asked, in their order. The tracer
/// probes follow them.
pub open spec fn role_commands(role: HostRole) -> Seq<Seq<char>> {
    match role {
        HostRole::Admin => seq![
            REACHABLE_COMMAND@,
            SUDO_COMMAND@,
            CEPH_COMMAND@,
            RADOS_COMMAND@,
        ],
        HostRole::Osd => seq![REACHABLE_COMMAND@, SUDO_COMMAND@],
        HostRole::Client => seq![REACHABLE_COMMAND@, SUDO_COMMAND@],
    }
}

/// The plain commands that a host of a role is asked, in their order.
pub fn remote_commands(role: HostRole) -> (out: Vec<&'static str>)
    ensures
        util::str_views(out@) == role_commands(role),
{
    let mut out: Vec<&'static str> = Vec::new();
    out.push(REACHABLE_COMMAND);
    out.push(SUDO_COMMAND);
    if let HostRole::Admin = role {
        out.push(CEPH_COMMAND);
        out.push(RADOS_COMMAND);
    }
    assert(util::str_views(out@) =~= role_commands(role));
    out
}

/// The first characters of a detail, as many as a report line holds.
pub open spec fn clipped(s: Seq<char>) -> Seq<char> {
    util::shortened(s, 160)
}

/// What a failed command says of itself: its errors, else its output, else how it
/// ended.
pub open spec fn failure_detail(
    stdout: Seq<char>,
    stderr: Seq<char>,
    status: Seq<char>,
) -> Seq<char> {
    clipped(
        if text::trimmed(stderr).len() > 0 {
            text::trimmed(stderr)
        } else if text::trimmed(stdout).len() > 0 {
            text::trimmed(stdout)
        } else {
            status
        },
    )
}

/// What a failed command says of itself.
pub fn output_detail(stdout: &str, stderr: &str, status: &str) -> (out: String)
    ensures
        out@ == failure_detail(stdout@, stderr@, status@),
{
    let errors = text::trim_text(stderr);
    let output = text::trim_text(stdout);
    if !errors.as_str().is_empty() {
        short(errors.as_str(), 160)
    } else if !output.as_str().is_empty() {
        short(output.as_str(), 160)
    } else {
        short(status, 160)
    }
}

/// What follows `marker` at the start of the first line that begins with it,
/// without the white space round it.
pub open spec fn marked(lines: Seq<Seq<char>>, marker: Seq<char>) -> Option<Seq<char>>
    decreases lines.len(),
{
    if lines.len() == 0 {
        None
    } else if text::begins(text::trimmed(lines[0]), marker) {
        Some(text::trimmed(text::trimmed(lines[0]).skip(marker.len() as int)))
    } else {
        marked(lines.drop_first(), marker)
    }
}

/// What follows `marker`, or `other` where no line begins with it.
pub open spec fn marked_or(output: Seq<char>, marker: Seq<char>, other: Seq<char>) -> Seq<char> {
    match marked(text::lines_of(output), marker) {
        Some(found) => found,
        None => other,
    }
}

fn find_marked(output: &str, marker: &str, other: &str) -> (out: String)
    ensures
        out@ == marked_or(output@, marker@, other@),
{
    let lines = text::split_lines(output);
    let ghost all = text::texts(lines@);
    let mut i: usize = 0;
    assert(all.skip(0) =~= all);
    while i < lines.len()
        invariant
            i <= lines@.len(),
            all == text::texts(lines@),
            all == text::lines_of(output@),
            marked(all, marker@) == marked(all.skip(i as int), marker@),
        decreases lines@.len() - i,
    {
        let line = text::trim_text(lines[i].as_str());
        assert(all.skip(i as int)[0] == lines@[i as int]@);
        if let Some(rest) = text::after_prefix(line.as_str(), marker) {
            return text::trim_text(rest.as_str());
        }
        assert(all.skip(i as int).drop_first() =~= all.skip(i + 1));
        i = i + 1;
    }
    other.to_owned()
}

/// The error that a probe marked in its output.
pub fn first_marker_detail(output: &str) -> (out: String)
    ensures
        out@ == marked_or(output@, "__CEPHLENS_ERROR__"@, "check failed"@),
{
    find_marked(output, "__CEPHLENS_ERROR__", "check failed")
}

/// The binary that a probe marked in its output.
pub fn first_bin_detail(output: &str) -> (out: String)
    ensures
        out@ == marked_or(output@, "__CEPHLENS_BIN__="@, "installed"@),
{
    find_marked(output, "__CEPHLENS_BIN__=", "installed")
}

/// `value`, or a dash where there is nothing to see in it.
pub open spec fn dashed(value: Seq<char>) -> Seq<char> {
    if text::trimmed(value).len() == 0 {
        "-"@
    } else {
        value
    }
}

/// `value`, or a dash where there is nothing to see in it.
pub fn empty_as_dash(value: &str) -> (out: &str)
    ensures
        out@ == dashed(value@),
{
    if text::trim_text(value).as_str().is_empty() {
        "-"
    } else {
        value
    }
}

pub open spec fn label_of(level: CheckLevel) -> Seq<char> {
    match level {
        CheckLevel::Okay => "ok"@,
        CheckLevel::Warn => "warn"@,
        CheckLevel::Bad => "bad"@,
    }
}

pub fn level_label(level: CheckLevel) -> (out: &'static str)
    ensures
        out@ == label_of(level),
{
    match level {
        CheckLevel::Okay => "ok",
        CheckLevel::Warn => "warn",
        CheckLevel::Bad => "bad",
    }
}

/// The check of a plain remote command: fine where it succeeded.
pub open spec fn remote_result(
    scope: Seq<char>,
    outcome: SshOutcome,
    ok_detail: Seq<char>,
) -> CheckView {
    match outcome {
        Ok(output) => if output.success {
            CheckView { level: CheckLevel::Okay, scope, detail: ok_detail }
        } else {
            CheckView {
                level: CheckLevel::Bad,
                scope,
                detail: failure_detail(output.stdout@, output.stderr@, output.status@),
            }
        },
        Err(error) => CheckView { level: CheckLevel::Bad, scope, detail: clipped(error@) },
    }
}

/// The check of a plain remote command.
pub fn remote_check(scope: &str, outcome: &SshOutcome, ok_detail: &str) -> (out: DoctorCheck)
    ensures
        out@ == remote_result(scope@, *outcome, ok_detail@),
{
    match outcome {
        Ok(output) => if output.success {
            DoctorCheck {
                level: CheckLevel::Okay,
                scope: scope.to_owned(),
                detail: ok_detail.to_owned(),
            }
        } else {
            DoctorCheck {
                level: CheckLevel::Bad,
                scope: scope.to_owned(),
                detail: output_detail(
                    output.stdout.as_str(),
                    output.stderr.as_str(),
                    output.status.as_str(),
                ),
            }
        },
        Err(error) => DoctorCheck {
            level: CheckLevel::Bad,
            scope: scope.to_owned(),
            detail: short(error.as_str(), 160),
        },
    }
}

pub open spec fn osdtrace_result(host: Seq<char>, target: TraceTarget) -> CheckView {
    let scope = host + " osdtrace"@;
    match target.error {
        Some(error) => CheckView { level: CheckLevel::Bad, scope, detail: clipped(error@) },
        None => if target.installed {
            CheckView {
                level: CheckLevel::Okay,
                scope,
                detail: dashed(target.binary@) + " osds="@ + dashed(target.osds@) + " traceable="@
                    + dashed(target.traceable@),
            }
        } else {
            CheckView { level: CheckLevel::Bad, scope, detail: "missing"@ }
        },
    }
}

/// Whether osdtrace can run on an OSD host.
pub fn osdtrace_check(host: &str, target: &TraceTarget) -> (out: DoctorCheck)
    ensures
        out@ == osdtrace_result(host@, *target),
{
    let mut scope = host.to_owned();
    scope.append(" osdtrace");
    if let Some(error) = &target.error {
        DoctorCheck { level: CheckLevel::Bad, scope, detail: short(error.as_str(), 160) }
    } else if target.installed {
        let mut detail = empty_as_dash(target.binary.as_str()).to_owned();
        detail.append(" osds=");
        detail.append(empty_as_dash(target.osds.as_str()));
        detail.append(" traceable=");
        detail.append(empty_as_dash(target.traceable.as_str()));
        DoctorCheck { level: CheckLevel::Okay, scope, detail }
    } else {
        DoctorCheck { level: CheckLevel::Bad, scope, detail: "missing".to_owned() }
    }
}

pub open spec fn tracer_result(host: Seq<char>, tool: Seq<char>, outcome: SshOutcome) -> CheckView {
    let scope = host + " "@ + tool;
    match outcome {
        Ok(output) => if text::has(output.stdout@, "__CEPHLENS_STATUS__ missing"@) {
            CheckView { level: CheckLevel::Bad, scope, detail: "missing"@ }
        } else if text::has(output.stdout@, "__CEPHLENS_ERROR__"@) {
            CheckView {
                level: CheckLevel::Bad,
                scope,
                detail: marked_or(output.stdout@, "__CEPHLENS_ERROR__"@, "check failed"@),
            }
        } else if output.success {
            CheckView {
                level: CheckLevel::Okay,
                scope,
                detail: marked_or(output.stdout@, "__CEPHLENS_BIN__="@, "installed"@),
            }
        } else {
            CheckView {
                level: CheckLevel::Bad,
                scope,
                detail: failure_detail(output.stdout@, output.stderr@, output.status@),
            }
        },
        Err(error) => CheckView { level: CheckLevel::Bad, scope, detail: clipped(error@) },
    }
}

/// Whether a tracer can run on a client host.
pub fn client_tracer_check(host: &str, tool: &str, outcome: &SshOutcome) -> (out: DoctorCheck)
    ensures
        out@ == tracer_result(host@, tool@, *outcome),
{
    let mut scope = host.to_owned();
    scope.append(" ");
    scope.append(tool);
    match outcome {
        Ok(output) => if text::text_has(output.stdout.as_str(), "__CEPHLENS_STATUS__ missing") {
            DoctorCheck { level: CheckLevel::Bad, scope, detail: "missing".to_owned() }
        } else if text::text_has(output.stdout.as_str(), "__CEPHLENS_ERROR__") {
            DoctorCheck {
                level: CheckLevel::Bad,
                scope,
                detail: first_marker_detail(output.stdout.as_str()),
            }
        } else if output.success {
            DoctorCheck {
                level: CheckLevel::Okay,
                scope,
                detail: first_bin_detail(output.stdout.as_str()),
            }
        } else {
            DoctorCheck {
                level: CheckLevel::Bad,
                scope,
                detail: output_detail(
                    output.stdout.as_str(),
                    output.stderr.as_str(),
                    output.status.as_str(),
                ),
            }
        },
        Err(error) => DoctorCheck {
            level: CheckLevel::Bad,
            scope,
            detail: short(error.as_str(), 160),
        },
    }
}

/// The checks of the admin host.
pub fn admin_checks(
    reachable: &SshOutcome,
    sudo: &SshOutcome,
    ceph: &SshOutcome,
    rados: &SshOutcome,
) -> (out: Vec<DoctorCheck>)
    ensures
        check_views(out@) == seq![
            remote_result("admin ssh"@, *reachable, "reachable"@),
            remote_result("admin sudo"@, *sudo, "passwordless sudo"@),
            remote_result("admin ceph"@, *ceph, "ceph status"@),
            remote_result("admin rados"@, *rados, "passwordless rados"@),
        ],
{
    let mut out: Vec<DoctorCheck> = Vec::new();
    out.push(remote_check("admin ssh", reachable, "reachable"));
    out.push(remote_check("admin sudo", sudo, "passwordless sudo"));
    out.push(remote_check("admin ceph", ceph, "ceph status"));
    out.push(remote_check("admin rados", rados, "passwordless rados"));
    out
}

fn scoped(host: &str, what: &str) -> (out: String)
    ensures
        out@ == host@ + what@,
{
    let mut out = host.to_owned();
    out.append(what);
    out
}

/// The checks of an OSD host.
pub fn osd_host_checks(
    host: &str,
    reachable: &SshOutcome,
    sudo: &SshOutcome,
    target: &TraceTarget,
) -> (out: Vec<DoctorCheck>)
    ensures
        check_views(out@) == seq![
            remote_result(host@ + " ssh"@, *reachable, "reachable"@),
            remote_result(host@ + " sudo"@, *sudo, "passwordless sudo"@),
            osdtrace_result(host@, *target),
        ],
{
    let mut out: Vec<DoctorCheck> = Vec::new();
    out.push(remote_check(scoped(host, " ssh").as_str(), reachable, "reachable"));
    out.push(remote_check(scoped(host, " sudo").as_str(), sudo, "passwordless sudo"));
    out.push(osdtrace_check(host, target));
    out
}

/// The checks of a client host.
pub fn client_host_checks(
    host: &str,
    reachable: &SshOutcome,
    sudo: &SshOutcome,
    kfstrace: &SshOutcome,
    radostrace: &SshOutcome,
) -> (out: Vec<DoctorCheck>)
    ensures
        check_views(out@) == seq![
            remote_result(host@ + " ssh"@, *reachable, "reachable"@),
            remote_result(host@ + " sudo"@, *sudo, "passwordless sudo"@),
            tracer_result(host@, "kfstrace"@, *kfstrace),
            tracer_result(host@, "radostrace"@, *radostrace),
        ],
{
    let mut out: Vec<DoctorCheck> = Vec::new();
    out.push(remote_check(scoped(host, " ssh").as_str(), reachable, "reachable"));
    out.push(remote_check(scoped(host, " sudo").as_str(), sudo, "passwordless sudo"));
    out.push(client_tracer_check(host, "kfstrace", kfstrace));
    out.push(client_tracer_check(host, "radostrace", radostrace));
    out
}

/// The checks that a host's answers lead to.
pub open spec fn host_results(host: Seq<char>, answers: HostAnswers) -> Seq<CheckView> {
    match answers {
        HostAnswers::Admin { reachable, sudo, ceph, rados } => seq![
            remote_result("admin ssh"@, reachable, "reachable"@),
            remote_result("admin sudo"@, sudo, "passwordless sudo"@),
            remote_result("admin ceph"@, ceph, "ceph status"@),
            remote_result("admin rados"@, rados, "passwordless rados"@),
        ],
        HostAnswers::Osd { reachable, sudo, target } => seq![
            remote_result(host + " ssh"@, reachable, "reachable"@),
            remote_result(host + " sudo"@, sudo, "passwordless sudo"@),
            osdtrace_result(host, target),
        ],
        HostAnswers::Client { reachable, sudo, kfstrace, radostrace } => seq![
            remote_result(host + " ssh"@, reachable, "reachable"@),
            remote_result(host + " sudo"@, sudo, "passwordless sudo"@),
            tracer_result(host, "kfstrace"@, kfstrace),
            tracer_result(host, "radostrace"@, radostrace),
        ],
    }
}

impl<'a> HostJob<'a> {
    /// The checks of this job, from what its host answered to the commands of its
    /// role.
    pub fn run(&self, answers: &HostAnswers) -> (out: Vec<DoctorCheck>)
        requires
            answers.role() == self.role,
        ensures
            check_views(out@) == host_results(self.host@, *answers),
    {
        match answers {
            HostAnswers::Admin { reachable, sudo, ceph, rados } => admin_checks(
                reachable,
                sudo,
                ceph,
                rados,
            ),
            HostAnswers::Osd { reachable, sudo, target } => osd_host_checks(
                self.host,
                reachable,
                sudo,
                target,
            ),
            HostAnswers::Client { reachable, sudo, kfstrace, radostrace } => client_host_checks(
                self.host,
                reachable,
                sudo,
                kfstrace,
                radostrace,
            ),
        }
    }
}

/// The hosts of a profile with their roles: the admin host, then the OSD hosts,
/// then the client hosts.
pub open spec fn job_list(cfg: ResolvedConfig) -> Seq<(Seq<char>, HostRole)> {
    seq![(cfg.admin_host@, HostRole::Admin)] + cfg.hosts@.map_values(
        |host: String| (host@, HostRole::Osd),
    ) + cfg.client_hosts@.map_values(|host: String| (host@, HostRole::Client))
}

/// What the jobs are for.
pub open spec fn job_views<'a>(jobs: Seq<HostJob<'a>>) -> Seq<(Seq<char>, HostRole)> {
    jobs.map_values(|job: HostJob<'a>| (job.host@, job.role))
}

/// The jobs of a profile, and how many of them come before the client hosts.
pub fn host_jobs(cfg: &ResolvedConfig) -> (out: (Vec<HostJob<'_>>, usize))
    ensures
        job_views(out.0@) == job_list(*cfg),
        out.1 == 1 + cfg.hosts@.len(),
{
    let ghost osds = cfg.hosts@.map_values(|host: String| (host@, HostRole::Osd));
    let ghost clients = cfg.client_hosts@.map_values(|host: String| (host@, HostRole::Client));
    let ghost admin = seq![(cfg.admin_host@, HostRole::Admin)];
    let mut jobs: Vec<HostJob<'_>> = Vec::new();
    jobs.push(HostJob { host: cfg.admin_host.as_str(), role: HostRole::Admin });
    let mut i: usize = 0;
    assert(job_views(jobs@) =~= admin + osds.take(0));
    while i < cfg.hosts.len()
        invariant
            i <= cfg.hosts@.len(),
            osds == cfg.hosts@.map_values(|host: String| (host@, HostRole::Osd)),
            admin.len() == 1,
            job_views(jobs@) == admin + osds.take(i as int),
        decreases cfg.hosts@.len() - i,
    {
        let ghost before = job_views(jobs@);
        jobs.push(HostJob { host: cfg.hosts[i].as_str(), role: HostRole::Osd });
        i = i + 1;
        assert(job_views(jobs@) =~= before.push(osds[i - 1]));
        assert(job_views(jobs@) =~= admin + osds.take(i as int));
    }
    assert(osds.take(osds.len() as int) =~= osds);
    let client_split: usize = jobs.len();
    assert(client_split == job_views(jobs@).len());
    let mut k: usize = 0;
    assert(job_views(jobs@) =~= admin + osds + clients.take(0));
    while k < cfg.client_hosts.len()
        invariant
            k <= cfg.client_hosts@.len(),
            clients == cfg.client_hosts@.map_values(|host: String| (host@, HostRole::Client)),
            job_views(jobs@) == admin + osds + clients.take(k as int),
        decreases cfg.client_hosts@.len() - k,
    {
        let ghost before = job_views(jobs@);
        jobs.push(HostJob { host: cfg.client_hosts[k].as_str(), role: HostRole::Client });
        k = k + 1;
        assert(job_views(jobs@) =~= before.push(clients[k - 1]));
        assert(job_views(jobs@) =~= admin + osds + clients.take(k as int));
    }
    assert(clients.take(clients.len() as int) =~= clients);
    (jobs, client_split)
}

/// The hosts that the jobs talk to.
pub open spec fn job_hosts<'a>(jobs: Seq<HostJob<'a>>) -> Seq<Seq<char>> {
    jobs.map_values(|job: HostJob<'a>| job.host@)
}

/// The batches in which jobs run side by side, as ranges of places. Jobs of one
/// host never share a batch.
pub fn job_batches(jobs: &[HostJob<'_>]) -> (out: Vec<(usize, usize)>)
    ensures
        util::host_batched(out@, job_hosts(jobs@), MAX_PARALLEL_HOSTS),
{
    let mut hosts: Vec<&str> = Vec::new();
    let mut i: usize = 0;
    while i < jobs.len()
        invariant
            i <= jobs@.len(),
            util::str_views(hosts@) == job_hosts(jobs@).take(i as int),
        decreases jobs@.len() - i,
    {
        let ghost before = util::str_views(hosts@);
        hosts.push(jobs[i].host);
        i = i + 1;
        assert(util::str_views(hosts@) =~= before.push(jobs@[i - 1].host@));
        assert(util::str_views(hosts@) =~= job_hosts(jobs@).take(i as int));
    }
    assert(util::str_views(hosts@) =~= job_hosts(jobs@));
    host_batches(hosts.as_slice(), MAX_PARALLEL_HOSTS)
}

/// A profile's jobs run at most eight at a time, each in one batch, and a host
/// that has two jobs, such as an admin host that is an OSD host too, has them in
/// different batches.
pub proof fn law_each_host_sees_one_job_at_a_time(
    cfg: ResolvedConfig,
    ranges: Seq<(usize, usize)>,
    first: int,
    second: int,
    batch: int,
)
    requires
        util::host_batched(
            ranges,
            job_list(cfg).map_values(|job: (Seq<char>, HostRole)| job.0),
            MAX_PARALLEL_HOSTS,
        ),
        0 <= first < second < job_list(cfg).len(),
        job_list(cfg)[first].0 == job_list(cfg)[second].0,
        0 <= batch < ranges.len(),
    ensures
        !(ranges[batch].0 <= first && second < ranges[batch].1),
        ranges[batch].1 - ranges[batch].0 <= 8,
        util::in_a_batch(ranges, first),
        util::in_a_batch(ranges, second),
{
    let hosts = job_list(cfg).map_values(|job: (Seq<char>, HostRole)| job.0);
    util::law_host_batches_ask_one_at_a_time(ranges, hosts, MAX_PARALLEL_HOSTS);
    assert(hosts[first] == hosts[second]);
    assert(ranges[batch].1 - ranges[batch].0 <= util::batch_size(MAX_PARALLEL_HOSTS));
}

pub open spec fn panicked(host: Seq<char>) -> CheckView {
    CheckView { level: CheckLevel::Bad, scope: host, detail: "doctor worker panicked"@ }
}

/// The check of a host whose worker died.
pub fn worker_panicked(job: &HostJob<'_>) -> (out: DoctorCheck)
    ensures
        out@ == panicked(job.host@),
{
    DoctorCheck {
        level: CheckLevel::Bad,
        scope: job.host.to_owned(),
        detail: "doctor worker panicked".to_owned(),
    }
}

pub open spec fn badness(level: CheckLevel) -> nat {
    match level {
        CheckLevel::Okay => 0,
        CheckLevel::Warn => 1,
        CheckLevel::Bad => 2,
    }
}

/// The worst level among the checks.
pub open spec fn worst_of(checks: Seq<CheckView>) -> CheckLevel
    decreases checks.len(),
{
    if checks.len() == 0 {
        CheckLevel::Okay
    } else {
        let head = worst_of(checks.drop_last());
        if badness(head) < badness(checks.last().level) {
            checks.last().level
        } else {
            head
        }
    }
}

/// `s` with spaces behind it up to the width of the scope column.
pub open spec fn in_column(s: Seq<char>) -> Seq<char> {
    s + text::spaces(
        (if s.len() < 24 {
            24 - s.len()
        } else {
            0
        }) as nat,
    )
}

/// The line of one check.
pub open spec fn check_line(check: CheckView) -> Seq<char> {
    "["@ + label_of(check.level) + "] "@ + in_column(check.scope) + " "@ + check.detail + "\n"@
}

/// The lines of the checks.
pub open spec fn check_lines(checks: Seq<CheckView>) -> Seq<char>
    decreases checks.len(),
{
    if checks.len() == 0 {
        Seq::empty()
    } else {
        check_lines(checks.drop_last()) + check_line(checks.last())
    }
}

/// The report: the worst level, then every check.
pub open spec fn report_text(checks: Seq<CheckView>) -> Seq<char> {
    "cephlens doctor\n"@ + "status: "@ + label_of(worst_of(checks)) + "\n\n"@ + check_lines(checks)
}

fn worst_level(checks: &[DoctorCheck]) -> (out: CheckLevel)
    ensures
        out == worst_of(check_views(checks@)),
{
    let ghost all = check_views(checks@);
    let mut worst = CheckLevel::Okay;
    let mut i: usize = 0;
    while i < checks.len()
        invariant
            i <= checks@.len(),
            all == check_views(checks@),
            worst == worst_of(all.take(i as int)),
        decreases checks@.len() - i,
    {
        assert(all.take(i + 1).drop_last() =~= all.take(i as int));
        match (worst, checks[i].level) {
            (CheckLevel::Okay, level) => {
                worst = level;
            },
            (CheckLevel::Warn, CheckLevel::Bad) => {
                worst = CheckLevel::Bad;
            },
            _ => {},
        }
        i = i + 1;
    }
    assert(all.take(all.len() as int) =~= all);
    worst
}

/// The report of the checks. It is bad where one of them is.
pub fn render_doctor_report(checks: &[DoctorCheck]) -> (out: DoctorReport)
    ensures
        out.text@ == report_text(check_views(checks@)),
        out.has_bad == (worst_of(check_views(checks@)) == CheckLevel::Bad),
{
    let ghost all = check_views(checks@);
    let worst = worst_level(checks);
    let mut out = "cephlens doctor\n".to_owned();
    out.append("status: ");
    out.append(level_label(worst));
    out.append("\n\n");
    let ghost head = out@;
    let mut i: usize = 0;
    assert(out@ =~= head + check_lines(all.take(0)));
    while i < checks.len()
        invariant
            i <= checks@.len(),
            all == check_views(checks@),
            out@ == head + check_lines(all.take(i as int)),
        decreases checks@.len() - i,
    {
        let check = &checks[i];
        assert(all.take(i + 1).drop_last() =~= all.take(i as int));
        assert(all.take(i + 1).last() == check@);
        let ghost before = out@;
        out.append("[");
        out.append(level_label(check.level));
        out.append("] ");
        out.append(text::pad_right(check.scope.as_str(), 24).as_str());
        out.append(" ");
        out.append(check.detail.as_str());
        out.append("\n");
        assert(out@ =~= before + check_line(check@));
        i = i + 1;
        assert(out@ =~= head + check_lines(all.take(i as int)));
    }
    assert(all.take(all.len() as int) =~= all);
    DoctorReport { text: out, has_bad: worst == CheckLevel::Bad }
}

/// What the worker of a host gave, or that it died.
pub open spec fn given(result: Option<Vec<DoctorCheck>>, host: Seq<char>) -> Seq<CheckView> {
    match result {
        Some(checks) => check_views(checks@),
        None => seq![panicked(host)],
    }
}

/// What the workers of the jobs from `from` on, and before `to`, gave.
pub open spec fn given_between(
    results: Seq<Option<Vec<DoctorCheck>>>,
    jobs: Seq<(Seq<char>, HostRole)>,
    from: int,
    to: int,
) -> Seq<CheckView>
    decreases to - from,
{
    if to <= from {
        Seq::empty()
    } else {
        given_between(results, jobs, from, to - 1) + given(results[to - 1], jobs[to - 1].0)
    }
}

/// The checks of a profile: which one it is, the admin and OSD hosts, whether
/// there are client hosts, and those.
pub open spec fn profile_checks(
    cfg: ResolvedConfig,
    results: Seq<Option<Vec<DoctorCheck>>>,
) -> Seq<CheckView> {
    let jobs = job_list(cfg);
    let split = 1 + cfg.hosts@.len() as int;
    seq![
        CheckView {
            level: CheckLevel::Okay,
            scope: "profile"@,
            detail: cfg.profile@ + " admin="@ + cfg.admin_host@,
        },
    ] + given_between(results, jobs, 0, split) + (if cfg.client_hosts@.len() == 0 {
        seq![
            CheckView {
                level: CheckLevel::Warn,
                scope: "client_hosts"@,
                detail: "not configured; kfstrace and radostrace are disabled"@,
            },
        ]
    } else {
        Seq::empty()
    }) + given_between(results, jobs, split, jobs.len() as int)
}

/// The report on a profile, from what the worker of each of its jobs gave.
pub fn run_doctor(cfg: &ResolvedConfig, results: Vec<Option<Vec<DoctorCheck>>>) -> (out:
    DoctorReport)
    requires
        results@.len() == 1 + cfg.hosts@.len() + cfg.client_hosts@.len(),
    ensures
        out.text@ == report_text(profile_checks(*cfg, results@)),
        out.has_bad == (worst_of(profile_checks(*cfg, results@)) == CheckLevel::Bad),
{
    let (jobs, client_split) = host_jobs(cfg);
    let ghost wanted = job_list(*cfg);
    let ghost all = results@;
    let mut detail = cfg.profile.clone();
    detail.append(" admin=");
    detail.append(cfg.admin_host.as_str());
    let mut checks: Vec<DoctorCheck> = Vec::new();
    checks.push(DoctorCheck { level: CheckLevel::Okay, scope: "profile".to_owned(), detail });
    let ghost head = check_views(checks@);
    let ghost notice: Seq<CheckView> = if cfg.client_hosts@.len() == 0 {
        seq![
            CheckView {
                level: CheckLevel::Warn,
                scope: "client_hosts"@,
                detail: "not configured; kfstrace and radostrace are disabled"@,
            },
        ]
    } else {
        Seq::empty()
    };
    let ghost osds = given_between(all, wanted, 0, client_split as int);
    let count: usize = results.len();
    assert(wanted.len() == count) by {
        assert(job_views(jobs@).len() == jobs@.len());
    }
    let mut i: usize = 0;
    assert(check_views(checks@) =~= head + given_between(all, wanted, 0, 0));
    for result in it: results
        invariant
            it.seq() == all,
            i == it.index(),
            count == all.len(),
            wanted == job_views(jobs@),
            wanted.len() == count,
            0 < client_split <= count,
            client_split == 1 + cfg.hosts@.len(),
            osds == given_between(all, wanted, 0, client_split as int),
            notice == if cfg.client_hosts@.len() == 0 {
                seq![
                    CheckView {
                        level: CheckLevel::Warn,
                        scope: "client_hosts"@,
                        detail: "not configured; kfstrace and radostrace are disabled"@,
                    },
                ]
            } else {
                Seq::<CheckView>::empty()
            },
            i < client_split ==> check_views(checks@) == head + given_between(
                all,
                wanted,
                0,
                i as int,
            ),
            i >= client_split ==> check_views(checks@) == head + osds + notice + given_between(
                all,
                wanted,
                client_split as int,
                i as int,
            ),
    {
        let ghost before = check_views(checks@);
        let ghost added = given(result, wanted[i as int].0);
        assert(wanted[i as int] == (jobs@[i as int].host@, jobs@[i as int].role));
        match result {
            Some(some) => {
                let mut some = some;
                checks.append(&mut some);
            },
            None => {
                checks.push(worker_panicked(&jobs[i]));
            },
        }
        assert(check_views(checks@) =~= before + added);
        i = i + 1;
        if i == client_split {
            assert(check_views(checks@) =~= head + osds);
            if cfg.client_hosts.len() == 0 {
                checks.push(
                    DoctorCheck {
                        level: CheckLevel::Warn,
                        scope: "client_hosts".to_owned(),
                        detail: "not configured; kfstrace and radostrace are disabled".to_owned(),
                    },
                );
            }
            assert(check_views(checks@) =~= head + osds + notice);
            assert(check_views(checks@) =~= head + osds + notice + given_between(
                all,
                wanted,
                client_split as int,
                i as int,
            ));
        } else if i < client_split {
            assert(check_views(checks@) =~= head + given_between(all, wanted, 0, i as int));
        } else {
            assert(check_views(checks@) =~= head + osds + notice + given_between(
                all,
                wanted,
                client_split as int,
                i as int,
            ));
        }
    }
    assert(check_views(checks@) =~= profile_checks(*cfg, all));
    render_doctor_report(checks.as_slice())
}

/// A report is bad exactly where one of its checks is, and names no level that
/// is worse than all of them or better than one of them.
pub proof fn law_report_is_as_bad_as_its_worst_check(checks: Seq<CheckView>)
    ensures
        worst_of(checks) == CheckLevel::Bad <==> exists|i: int|
            0 <= i < checks.len() && (#[trigger] checks[i]).level == CheckLevel::Bad,
        forall|i: int|
            0 <= i < checks.len() ==> badness((#[trigger] checks[i]).level) <= badness(
                worst_of(checks),
            ),
        checks.len() > 0 ==> exists|i: int|
            0 <= i < checks.len() && (#[trigger] checks[i]).level == worst_of(checks),
    decreases checks.len(),
{
    if checks.len() > 0 {
        let rest = checks.drop_last();
        law_report_is_as_bad_as_its_worst_check(rest);
        let last = checks.len() - 1;
        assert(checks[last] == checks.last());
        assert forall|i: int| 0 <= i < checks.len() implies badness((#[trigger] checks[i]).level)
            <= badness(worst_of(checks)) by {
            if i < last {
                assert(rest[i] == checks[i]);
            }
        }
        if badness(worst_of(rest)) < badness(checks.last().level) || rest.len() == 0 {
            assert(checks[last].level == worst_of(checks));
        } else {
            let k = choose|k: int|
                0 <= k < rest.len() && (#[trigger] rest[k]).level == worst_of(rest);
            assert(checks[k] == rest[k]);
        }
    }
}

/// The report names every job once, in the order of the profile: the admin host,
/// the OSD hosts, the client hosts.
pub proof fn law_jobs_keep_the_order_of_the_profile(cfg: ResolvedConfig)
    ensures
        ({
            let jobs = job_list(cfg);
            let split = 1 + cfg.hosts@.len() as int;
            &&& jobs.len() == 1 + cfg.hosts@.len() + cfg.client_hosts@.len()
            &&& jobs[0] == (cfg.admin_host@, HostRole::Admin)
            &&& forall|i: int|
                0 <= i < cfg.hosts@.len() ==> #[trigger] jobs[1 + i] == (
                    cfg.hosts@[i]@,
                    HostRole::Osd,
                )
            &&& forall|i: int|
                0 <= i < cfg.client_hosts@.len() ==> #[trigger] jobs[split + i] == (
                    cfg.client_hosts@[i]@,
                    HostRole::Client,
                )
        }),
{
}

} // verus!
