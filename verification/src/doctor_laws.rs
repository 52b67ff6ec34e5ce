//! What holds of the doctor's checks and of its report.

use crate::config::ResolvedConfig;
use crate::doctor;
use crate::doctor::{CheckLevel, CheckView, DoctorCheck, HostAnswers, SshOutcome, TraceTarget};
use crate::text;
use crate::util;
use vstd::prelude::*;

verus! {

/// A plain remote command went well.
pub open spec fn went_well(outcome: SshOutcome) -> bool {
    outcome is Ok && outcome->Ok_0.success
}

/// A tracer probe went well and found its tracer: it marked neither that the
/// tracer is missing nor an error.
pub open spec fn tracer_found(outcome: SshOutcome) -> bool {
    &&& outcome is Ok && outcome->Ok_0.success
    &&& !text::has(outcome->Ok_0.stdout@, "__CEPHLENS_STATUS__ missing"@)
    &&& !text::has(outcome->Ok_0.stdout@, "__CEPHLENS_ERROR__"@)
}

/// The check of a plain command is fine exactly where the command could be run and
/// succeeded, and bad otherwise. It is about what was asked, and says why it is
/// bad: how the connection failed, or what the command said.
pub proof fn law_plain_check_is_fine_only_on_success(
    scope: Seq<char>,
    outcome: SshOutcome,
    ok_detail: Seq<char>,
)
    ensures
        ({
            let check = doctor::remote_result(scope, outcome, ok_detail);
            &&& check.level == CheckLevel::Okay <==> went_well(outcome)
            &&& check.level == CheckLevel::Bad <==> !went_well(outcome)
            &&& check.scope == scope
            &&& went_well(outcome) ==> check.detail == ok_detail
            &&& outcome is Err ==> check.detail == first_160(outcome->Err_0@)
            &&& outcome is Ok && !outcome->Ok_0.success ==> tells_failure(
                check.detail,
                outcome->Ok_0.stdout@,
                outcome->Ok_0.stderr@,
                outcome->Ok_0.status@,
            )
        }),
{
    if outcome is Ok {
        law_failure_is_told_by_what_was_printed(
            outcome->Ok_0.stdout@,
            outcome->Ok_0.stderr@,
            outcome->Ok_0.status@,
        );
    }
}

/// The text, cut behind its 160th character.
pub open spec fn first_160(s: Seq<char>) -> Seq<char> {
    if s.len() > 160 {
        s.take(160)
    } else {
        s
    }
}

/// The text is nothing but white space.
pub open spec fn is_blank(s: Seq<char>) -> bool {
    forall|i: int| 0 <= i < s.len() ==> text::is_space(#[trigger] s[i])
}

/// `detail` is what a failed command printed as errors, else what it printed, else
/// how it ended, in at most 160 characters.
pub open spec fn tells_failure(
    detail: Seq<char>,
    stdout: Seq<char>,
    stderr: Seq<char>,
    status: Seq<char>,
) -> bool {
    &&& !is_blank(stderr) ==> detail == first_160(text::trimmed(stderr))
    &&& is_blank(stderr) && !is_blank(stdout) ==> detail == first_160(text::trimmed(stdout))
    &&& is_blank(stderr) && is_blank(stdout) ==> detail == first_160(status)
}

proof fn lemma_blank(s: Seq<char>)
    ensures
        is_blank(s) <==> text::trimmed(s).len() == 0,
{
    text::lemma_trimmed_is_empty(s);
}

/// A failed command is told by its errors where it printed any, else by its output,
/// else by how it ended.
pub proof fn law_failure_is_told_by_what_was_printed(
    stdout: Seq<char>,
    stderr: Seq<char>,
    status: Seq<char>,
)
    ensures
        tells_failure(doctor::failure_detail(stdout, stderr, status), stdout, stderr, status),
{
    lemma_blank(stdout);
    lemma_blank(stderr);
    assert(first_160(text::trimmed(stderr)) =~= doctor::clipped(text::trimmed(stderr)));
    assert(first_160(text::trimmed(stdout)) =~= doctor::clipped(text::trimmed(stdout)));
    assert(first_160(status) =~= doctor::clipped(status));
}

/// The osdtrace check of a host is fine exactly where the probe reports no error
/// and the tracer is installed, and bad otherwise. It names the host, and says
/// what went wrong.
pub proof fn law_osdtrace_check_is_fine_only_with_a_tracer(host: Seq<char>, target: TraceTarget)
    ensures
        ({
            let check = doctor::osdtrace_result(host, target);
            &&& check.level == CheckLevel::Okay <==> target.error is None && target.installed
            &&& check.level == CheckLevel::Bad <==> target.error is Some || !target.installed
            &&& check.scope == host + " osdtrace"@
            &&& target.error is Some ==> check.detail == first_160(target.error->0@)
            &&& target.error is None && !target.installed ==> check.detail == "missing"@
            &&& target.error is None && target.installed && !is_blank(target.binary@) && !is_blank(
                target.osds@,
            ) && !is_blank(target.traceable@) ==> check.detail == target.binary@ + " osds="@
                + target.osds@ + " traceable="@ + target.traceable@
        }),
{
    if target.error is Some {
        assert(first_160(target.error->0@) =~= doctor::clipped(target.error->0@));
    }
    lemma_blank(target.binary@);
    lemma_blank(target.osds@);
    lemma_blank(target.traceable@);
}

/// A value is shown as it is, and a dash stands for one that is blank.
pub proof fn law_only_blank_values_show_as_a_dash(value: Seq<char>)
    ensures
        is_blank(value) ==> doctor::dashed(value) == "-"@,
        !is_blank(value) ==> doctor::dashed(value) == value,
{
    lemma_blank(value);
}

/// The check of a client tracer is fine exactly where its probe succeeded and
/// marked neither a missing tracer nor an error, and bad otherwise. It names the
/// host and the tracer.
pub proof fn law_tracer_check_is_fine_only_with_a_tracer(
    host: Seq<char>,
    tool: Seq<char>,
    outcome: SshOutcome,
)
    ensures
        ({
            let check = doctor::tracer_result(host, tool, outcome);
            &&& check.level == CheckLevel::Okay <==> tracer_found(outcome)
            &&& check.level == CheckLevel::Bad <==> !tracer_found(outcome)
            &&& check.scope == host + " "@ + tool
            &&& outcome is Err ==> check.detail == first_160(outcome->Err_0@)
            &&& outcome is Ok && text::has(
                outcome->Ok_0.stdout@,
                "__CEPHLENS_STATUS__ missing"@,
            ) ==> check.detail == "missing"@
            &&& outcome is Ok && !text::has(
                outcome->Ok_0.stdout@,
                "__CEPHLENS_STATUS__ missing"@,
            ) && text::has(outcome->Ok_0.stdout@, "__CEPHLENS_ERROR__"@) ==> check.detail
                == doctor::marked_or(
                outcome->Ok_0.stdout@,
                "__CEPHLENS_ERROR__"@,
                "check failed"@,
            )
            &&& tracer_found(outcome) ==> check.detail == doctor::marked_or(
                outcome->Ok_0.stdout@,
                "__CEPHLENS_BIN__="@,
                "installed"@,
            )
            &&& outcome is Ok && !outcome->Ok_0.success && !text::has(
                outcome->Ok_0.stdout@,
                "__CEPHLENS_STATUS__ missing"@,
            ) && !text::has(outcome->Ok_0.stdout@, "__CEPHLENS_ERROR__"@) ==> tells_failure(
                check.detail,
                outcome->Ok_0.stdout@,
                outcome->Ok_0.stderr@,
                outcome->Ok_0.status@,
            )
        }),
{
    if outcome is Err {
        assert(first_160(outcome->Err_0@) =~= doctor::clipped(outcome->Err_0@));
    } else {
        law_failure_is_told_by_what_was_printed(
            outcome->Ok_0.stdout@,
            outcome->Ok_0.stderr@,
            outcome->Ok_0.status@,
        );
    }
}

/// What stands behind a marker is that of the first line that begins with it, or
/// `other` where no line does.
pub proof fn law_first_marked_line_is_told(output: Seq<char>, marker: Seq<char>, other: Seq<char>)
    ensures
        ({
            let lines = text::lines_of(output);
            &&& forall|at: int|
                0 <= at < lines.len() && text::begins(
                    text::trimmed(#[trigger] lines[at]),
                    marker,
                ) && (forall|i: int|
                    0 <= i < at ==> !text::begins(text::trimmed(#[trigger] lines[i]), marker))
                    ==> doctor::marked_or(output, marker, other) == text::trimmed(
                    text::trimmed(lines[at]).skip(marker.len() as int),
                )
            &&& (forall|i: int|
                0 <= i < lines.len() ==> !text::begins(text::trimmed(#[trigger] lines[i]), marker))
                ==> doctor::marked_or(output, marker, other) == other
        }),
{
    lemma_marked(text::lines_of(output), marker);
}

proof fn lemma_marked(lines: Seq<Seq<char>>, marker: Seq<char>)
    ensures
        forall|at: int|
            0 <= at < lines.len() && text::begins(text::trimmed(#[trigger] lines[at]), marker) && (
            forall|i: int|
                0 <= i < at ==> !text::begins(text::trimmed(#[trigger] lines[i]), marker))
                ==> doctor::marked(lines, marker) == Some(
                text::trimmed(text::trimmed(lines[at]).skip(marker.len() as int)),
            ),
        (forall|i: int|
            0 <= i < lines.len() ==> !text::begins(text::trimmed(#[trigger] lines[i]), marker))
            ==> doctor::marked(lines, marker) is None,
    decreases lines.len(),
{
    if lines.len() > 0 && !text::begins(text::trimmed(lines[0]), marker) {
        let rest = lines.drop_first();
        lemma_marked(rest, marker);
        assert forall|at: int|
            0 <= at < lines.len() && text::begins(text::trimmed(#[trigger] lines[at]), marker) && (
            forall|i: int|
                0 <= i < at ==> !text::begins(text::trimmed(#[trigger] lines[i]), marker)) implies
            doctor::marked(lines, marker) == Some(
            text::trimmed(text::trimmed(lines[at]).skip(marker.len() as int)),
        ) by {
            assert(rest[at - 1] == lines[at]);
            assert forall|i: int| 0 <= i < at - 1 implies !text::begins(
                text::trimmed(#[trigger] rest[i]),
                marker,
            ) by {
                assert(rest[i] == lines[i + 1]);
            }
        }
        if forall|i: int|
            0 <= i < lines.len() ==> !text::begins(text::trimmed(#[trigger] lines[i]), marker) {
            assert forall|i: int| 0 <= i < rest.len() implies !text::begins(
                text::trimmed(#[trigger] rest[i]),
                marker,
            ) by {
                assert(rest[i] == lines[i + 1]);
            }
        }
    }
}

/// A host is asked what its role needs, in a fixed order, and each check is fine
/// exactly where its own answer is: an admin host must be reachable and run sudo,
/// ceph and rados; an OSD host sudo and osdtrace; a client host sudo and both
/// client tracers.
pub proof fn law_each_answer_decides_its_own_check(host: Seq<char>, answers: HostAnswers)
    ensures
        ({
            let checks = doctor::host_results(host, answers);
            let fine = checks.map_values(|c: CheckView| c.level == CheckLevel::Okay);
            let scopes = checks.map_values(|c: CheckView| c.scope);
            &&& forall|i: int|
                0 <= i < checks.len() ==> (#[trigger] checks[i]).level != CheckLevel::Warn
            &&& match answers {
                HostAnswers::Admin { reachable, sudo, ceph, rados } => {
                    &&& fine == seq![
                        went_well(reachable),
                        went_well(sudo),
                        went_well(ceph),
                        went_well(rados),
                    ]
                    &&& scopes == seq!["admin ssh"@, "admin sudo"@, "admin ceph"@, "admin rados"@]
                },
                HostAnswers::Osd { reachable, sudo, target } => {
                    &&& fine == seq![
                        went_well(reachable),
                        went_well(sudo),
                        target.error is None && target.installed,
                    ]
                    &&& scopes == seq![host + " ssh"@, host + " sudo"@, host + " osdtrace"@]
                },
                HostAnswers::Client { reachable, sudo, kfstrace, radostrace } => {
                    &&& fine == seq![
                        went_well(reachable),
                        went_well(sudo),
                        tracer_found(kfstrace),
                        tracer_found(radostrace),
                    ]
                    &&& scopes == seq![
                        host + " ssh"@,
                        host + " sudo"@,
                        host + " "@ + "kfstrace"@,
                        host + " "@ + "radostrace"@,
                    ]
                },
            }
        }),
{
    let checks = doctor::host_results(host, answers);
    let fine = checks.map_values(|c: CheckView| c.level == CheckLevel::Okay);
    let scopes = checks.map_values(|c: CheckView| c.scope);
    match answers {
        HostAnswers::Admin { reachable, sudo, ceph, rados } => {
            assert(fine =~= seq![
                went_well(reachable),
                went_well(sudo),
                went_well(ceph),
                went_well(rados),
            ]);
            assert(scopes =~= seq!["admin ssh"@, "admin sudo"@, "admin ceph"@, "admin rados"@]);
        },
        HostAnswers::Osd { reachable, sudo, target } => {
            assert(fine =~= seq![
                went_well(reachable),
                went_well(sudo),
                target.error is None && target.installed,
            ]);
            assert(scopes =~= seq![host + " ssh"@, host + " sudo"@, host + " osdtrace"@]);
        },
        HostAnswers::Client { reachable, sudo, kfstrace, radostrace } => {
            assert(fine =~= seq![
                went_well(reachable),
                went_well(sudo),
                tracer_found(kfstrace),
                tracer_found(radostrace),
            ]);
            assert(scopes =~= seq![
                host + " ssh"@,
                host + " sudo"@,
                host + " "@ + "kfstrace"@,
                host + " "@ + "radostrace"@,
            ]);
        },
    }
}

/// The worker of a host died, or one of its checks is bad.
pub open spec fn failed_host(result: Option<Vec<DoctorCheck>>) -> bool {
    match result {
        Some(checks) => exists|k: int|
            0 <= k < checks@.len() && (#[trigger] checks@[k]).level == CheckLevel::Bad,
        None => true,
    }
}

proof fn lemma_given(result: Option<Vec<DoctorCheck>>, host: Seq<char>)
    ensures
        failed_host(result) <==> holds_bad(doctor::given(result, host)),
{
    let given = doctor::given(result, host);
    match result {
        Some(checks) => {
            if failed_host(result) {
                let k = choose|k: int|
                    0 <= k < checks@.len() && (#[trigger] checks@[k]).level == CheckLevel::Bad;
                assert(given[k].level == CheckLevel::Bad);
            }
            if holds_bad(given) {
                let k = choose|k: int|
                    0 <= k < given.len() && (#[trigger] given[k]).level == CheckLevel::Bad;
                assert(checks@[k].level == CheckLevel::Bad);
            }
        },
        None => {
            assert(given[0].level == CheckLevel::Bad);
        },
    }
}

/// One of the checks is bad.
pub open spec fn holds_bad(checks: Seq<CheckView>) -> bool {
    exists|i: int| 0 <= i < checks.len() && (#[trigger] checks[i]).level == CheckLevel::Bad
}

proof fn lemma_holds_bad_of_both(a: Seq<CheckView>, b: Seq<CheckView>)
    ensures
        holds_bad(a + b) <==> holds_bad(a) || holds_bad(b),
{
    let both = a + b;
    if holds_bad(a) {
        let i = choose|i: int| 0 <= i < a.len() && (#[trigger] a[i]).level == CheckLevel::Bad;
        assert(both[i] == a[i]);
    }
    if holds_bad(b) {
        let i = choose|i: int| 0 <= i < b.len() && (#[trigger] b[i]).level == CheckLevel::Bad;
        assert(both[a.len() + i] == b[i]);
    }
    if holds_bad(both) {
        let i = choose|i: int| 0 <= i < both.len() && (#[trigger] both[i]).level == CheckLevel::Bad;
        if i < a.len() {
            assert(a[i] == both[i]);
        } else {
            assert(b[i - a.len()] == both[i]);
        }
    }
}

/// One of the hosts from `from` on, and before `to`, failed.
pub open spec fn one_failed(results: Seq<Option<Vec<DoctorCheck>>>, from: int, to: int) -> bool {
    exists|i: int| from <= i < to && failed_host(#[trigger] results[i])
}

proof fn lemma_given_between(
    results: Seq<Option<Vec<DoctorCheck>>>,
    jobs: Seq<(Seq<char>, doctor::HostRole)>,
    from: int,
    to: int,
)
    requires
        0 <= from <= to <= results.len(),
    ensures
        holds_bad(doctor::given_between(results, jobs, from, to)) <==> one_failed(
            results,
            from,
            to,
        ),
    decreases to - from,
{
    if from < to {
        lemma_given_between(results, jobs, from, to - 1);
        lemma_given(results[to - 1], jobs[to - 1].0);
        lemma_holds_bad_of_both(
            doctor::given_between(results, jobs, from, to - 1),
            doctor::given(results[to - 1], jobs[to - 1].0),
        );
        if one_failed(results, from, to) {
            let i = choose|i: int| from <= i < to && failed_host(#[trigger] results[i]);
            if i < to - 1 {
                assert(one_failed(results, from, to - 1));
            }
        }
    }
}

/// The report on a profile is bad exactly where a host failed: its worker died, or
/// one of its checks is bad. That no client host is configured does not make it
/// bad.
pub proof fn law_profile_is_bad_where_a_host_failed(
    cfg: ResolvedConfig,
    results: Seq<Option<Vec<DoctorCheck>>>,
)
    requires
        results.len() == 1 + cfg.hosts@.len() + cfg.client_hosts@.len(),
    ensures
        doctor::worst_of(doctor::profile_checks(cfg, results)) == CheckLevel::Bad <==> exists|i: int|
            0 <= i < results.len() && failed_host(#[trigger] results[i]),
{
    let jobs = doctor::job_list(cfg);
    let split = 1 + cfg.hosts@.len() as int;
    let checks = doctor::profile_checks(cfg, results);
    doctor::law_report_is_as_bad_as_its_worst_check(checks);
    let head = seq![
        CheckView {
            level: CheckLevel::Okay,
            scope: "profile"@,
            detail: cfg.profile@ + " admin="@ + cfg.admin_host@,
        },
    ];
    let first = doctor::given_between(results, jobs, 0, split);
    let notice: Seq<CheckView> = if cfg.client_hosts@.len() == 0 {
        seq![
            CheckView {
                level: CheckLevel::Warn,
                scope: "client_hosts"@,
                detail: "not configured; kfstrace and radostrace are disabled"@,
            },
        ]
    } else {
        Seq::empty()
    };
    let second = doctor::given_between(results, jobs, split, jobs.len() as int);
    assert(checks =~= head + first + notice + second);
    lemma_given_between(results, jobs, 0, split);
    lemma_given_between(results, jobs, split, jobs.len() as int);
    lemma_holds_bad_of_both(head, first);
    lemma_holds_bad_of_both(head + first, notice);
    lemma_holds_bad_of_both(head + first + notice, second);
    if exists|i: int| 0 <= i < results.len() && failed_host(#[trigger] results[i]) {
        let i = choose|i: int| 0 <= i < results.len() && failed_host(#[trigger] results[i]);
        if i < split {
            assert(one_failed(results, 0, split));
        } else {
            assert(one_failed(results, split, jobs.len() as int));
        }
    }
}

/// A report over a host whose tracer probe failed is bad.
pub proof fn law_failed_probe_makes_the_report_bad(
    checks: Seq<CheckView>,
    host: Seq<char>,
    target: TraceTarget,
)
    requires
        target.error is Some || !target.installed,
        checks.contains(doctor::osdtrace_result(host, target)),
    ensures
        doctor::worst_of(checks) == CheckLevel::Bad,
{
    doctor::law_report_is_as_bad_as_its_worst_check(checks);
    let i = choose|i: int|
        0 <= i < checks.len() && checks[i] == doctor::osdtrace_result(host, target);
    assert(checks[i].level == CheckLevel::Bad);
}

/// How a report writes a level.
pub open spec fn written_level(level: CheckLevel) -> Seq<char> {
    match level {
        CheckLevel::Okay => "ok"@,
        CheckLevel::Warn => "warn"@,
        CheckLevel::Bad => "bad"@,
    }
}

/// A report opens with the worst level of its checks: `bad` where one is bad, else
/// `warn` where one warns, else `ok`.
pub proof fn law_report_opens_with_the_worst_level(checks: Seq<CheckView>)
    ensures
        ({
            let report = doctor::report_text(checks);
            let bad = exists|i: int|
                0 <= i < checks.len() && (#[trigger] checks[i]).level == CheckLevel::Bad;
            let warns = exists|i: int|
                0 <= i < checks.len() && (#[trigger] checks[i]).level == CheckLevel::Warn;
            &&& bad ==> text::begins(report, "cephlens doctor\nstatus: bad\n\n"@)
            &&& !bad && warns ==> text::begins(report, "cephlens doctor\nstatus: warn\n\n"@)
            &&& !bad && !warns ==> text::begins(report, "cephlens doctor\nstatus: ok\n\n"@)
        }),
{
    reveal_strlit("cephlens doctor\n");
    reveal_strlit("status: ");
    reveal_strlit("\n\n");
    reveal_strlit("ok");
    reveal_strlit("warn");
    reveal_strlit("bad");
    reveal_strlit("cephlens doctor\nstatus: bad\n\n");
    reveal_strlit("cephlens doctor\nstatus: warn\n\n");
    reveal_strlit("cephlens doctor\nstatus: ok\n\n");
    doctor::law_report_is_as_bad_as_its_worst_check(checks);
    let worst = doctor::worst_of(checks);
    let head = "cephlens doctor\n"@ + "status: "@ + doctor::label_of(worst) + "\n\n"@;
    let report = doctor::report_text(checks);
    assert(report =~= head + doctor::check_lines(checks));
    assert(report.take(head.len() as int) =~= head);
    if worst == CheckLevel::Bad {
        assert(head =~= "cephlens doctor\nstatus: bad\n\n"@);
    } else if worst == CheckLevel::Warn {
        assert(head =~= "cephlens doctor\nstatus: warn\n\n"@);
    } else {
        assert(head =~= "cephlens doctor\nstatus: ok\n\n"@);
    }
}

/// A report holds a line for each of its checks, which gives its level, its scope
/// in a column of 24, and its detail, and the lines stand in the order of the
/// checks: one more check adds its line at the end.
pub proof fn law_each_check_has_its_line(checks: Seq<CheckView>, more: CheckView)
    ensures
        doctor::check_lines(checks.push(more)) == doctor::check_lines(checks) + "["@
            + written_level(more.level) + "] "@ + more.scope + Seq::new(
            (if more.scope.len() < 24 {
                24 - more.scope.len()
            } else {
                0
            }) as nat,
            |i: int| ' ',
        ) + " "@ + more.detail + "\n"@,
        doctor::check_lines(Seq::empty()) == Seq::<char>::empty(),
        exists|head: Seq<char>|
            doctor::report_text(checks) == #[trigger] (head + doctor::check_lines(checks)),
{
    assert(checks.push(more).drop_last() =~= checks);
    let gap = Seq::new(
        (if more.scope.len() < 24 {
            24 - more.scope.len()
        } else {
            0
        }) as nat,
        |i: int| ' ',
    );
    assert(doctor::in_column(more.scope) =~= more.scope + gap);
    assert(doctor::check_lines(checks.push(more)) =~= doctor::check_lines(checks) + "["@
        + written_level(more.level) + "] "@ + more.scope + gap + " "@ + more.detail + "\n"@);
    let head = "cephlens doctor\n"@ + "status: "@ + doctor::label_of(doctor::worst_of(checks))
        + "\n\n"@;
    assert(doctor::report_text(checks) =~= head + doctor::check_lines(checks));
}

/// The host that the job at `i` is about: the admin host, then the OSD hosts, then
/// the client hosts.
pub open spec fn host_at(cfg: ResolvedConfig, i: int) -> Seq<char> {
    if i == 0 {
        cfg.admin_host@
    } else if i <= cfg.hosts@.len() {
        cfg.hosts@[i - 1]@
    } else {
        cfg.client_hosts@[i - 1 - cfg.hosts@.len()]@
    }
}

/// What the worker of each host gave, or that it died.
pub open spec fn answers_of(
    cfg: ResolvedConfig,
    results: Seq<Option<Vec<DoctorCheck>>>,
) -> Seq<Seq<CheckView>> {
    Seq::new(
        results.len(),
        |i: int|
            match results[i] {
                Some(checks) => checks@.map_values(|c: DoctorCheck| c@),
                None => seq![
                    CheckView {
                        level: CheckLevel::Bad,
                        scope: host_at(cfg, i),
                        detail: "doctor worker panicked"@,
                    },
                ],
            },
    )
}

proof fn lemma_given_is_flat(
    cfg: ResolvedConfig,
    results: Seq<Option<Vec<DoctorCheck>>>,
    from: int,
    to: int,
)
    requires
        results.len() == 1 + cfg.hosts@.len() + cfg.client_hosts@.len(),
        0 <= from <= to <= results.len(),
    ensures
        doctor::given_between(results, doctor::job_list(cfg), from, to) == answers_of(
            cfg,
            results,
        ).subrange(from, to).flatten(),
    decreases to - from,
{
    let parts = answers_of(cfg, results);
    let jobs = doctor::job_list(cfg);
    if from == to {
        assert(parts.subrange(from, to) =~= Seq::<Seq<CheckView>>::empty());
        assert(doctor::given_between(results, jobs, from, to)
            =~= Seq::<Seq<CheckView>>::empty().flatten());
    } else {
        lemma_given_is_flat(cfg, results, from, to - 1);
        let head = parts.subrange(from, to - 1);
        assert(parts.subrange(from, to) =~= head.push(parts[to - 1]));
        head.lemma_flatten_push(parts[to - 1]);
        assert(jobs[to - 1].0 == host_at(cfg, to - 1));
        assert(doctor::given(results[to - 1], jobs[to - 1].0) =~= parts[to - 1]);
    }
}

/// The report on a profile names the profile, then gives what the admin and OSD
/// hosts answered, in the order of the profile, a warning where no client host is
/// configured, and what the client hosts answered. A host whose worker died shows
/// as bad under its own name.
pub proof fn law_profile_report_keeps_every_answer(
    cfg: ResolvedConfig,
    results: Seq<Option<Vec<DoctorCheck>>>,
)
    requires
        results.len() == 1 + cfg.hosts@.len() + cfg.client_hosts@.len(),
    ensures
        ({
            let parts = answers_of(cfg, results);
            let split = 1 + cfg.hosts@.len() as int;
            let profile = CheckView {
                level: CheckLevel::Okay,
                scope: "profile"@,
                detail: cfg.profile@ + " admin="@ + cfg.admin_host@,
            };
            let notice = CheckView {
                level: CheckLevel::Warn,
                scope: "client_hosts"@,
                detail: "not configured; kfstrace and radostrace are disabled"@,
            };
            let servers = parts.subrange(0, split).flatten();
            let clients = parts.subrange(split, results.len() as int).flatten();
            &&& cfg.client_hosts@.len() > 0 ==> doctor::profile_checks(cfg, results) == seq![profile]
                + servers + clients
            &&& cfg.client_hosts@.len() == 0 ==> doctor::profile_checks(cfg, results)
                == seq![profile] + servers + seq![notice]
        }),
{
    let jobs = doctor::job_list(cfg);
    let split = 1 + cfg.hosts@.len() as int;
    lemma_given_is_flat(cfg, results, 0, split);
    lemma_given_is_flat(cfg, results, split, results.len() as int);
    let profile = CheckView {
        level: CheckLevel::Okay,
        scope: "profile"@,
        detail: cfg.profile@ + " admin="@ + cfg.admin_host@,
    };
    let notice = CheckView {
        level: CheckLevel::Warn,
        scope: "client_hosts"@,
        detail: "not configured; kfstrace and radostrace are disabled"@,
    };
    let servers = answers_of(cfg, results).subrange(0, split).flatten();
    let clients = answers_of(cfg, results).subrange(split, results.len() as int).flatten();
    let checks = doctor::profile_checks(cfg, results);
    if cfg.client_hosts@.len() > 0 {
        assert(checks =~= seq![profile] + servers + clients);
    } else {
        assert(clients =~= Seq::<CheckView>::empty());
        assert(checks =~= seq![profile] + servers + seq![notice]);
    }
}

/// Every host is asked whether it can be reached and whether sudo works, and the
/// admin host also for ceph and rados.
pub proof fn law_every_host_is_asked_for_reach_and_sudo(role: doctor::HostRole)
    ensures
        doctor::role_commands(role)[0] == "hostname >/dev/null"@,
        doctor::role_commands(role)[1] == "sudo -n true"@,
        role == doctor::HostRole::Admin ==> doctor::role_commands(role).len() == 4
            && doctor::role_commands(role)[2] == "sudo -n ceph -s --format json >/dev/null"@
            && doctor::role_commands(role)[3] == "sudo -n rados --version >/dev/null"@,
        role != doctor::HostRole::Admin ==> doctor::role_commands(role).len() == 2,
{
}

/// What is said of a check is its own level, scope and detail.
pub proof fn law_checks_say_their_own_fields(check: DoctorCheck)
    ensures
        check@.level == check.level,
        check@.scope == check.scope@,
        check@.detail == check.detail@,
{
}

/// The jobs of a profile run eight at a time, unless the next one is for a host that
/// is being asked already, or none is left.
pub proof fn law_eight_jobs_run_at_a_time(
    hosts: Seq<Seq<char>>,
    ranges: Seq<(usize, usize)>,
    i: int,
)
    requires
        util::host_batched(ranges, hosts, util::MAX_PARALLEL_HOSTS),
        0 <= i < ranges.len(),
    ensures
        ranges[i].1 - ranges[i].0 <= 8,
        ranges[i].1 == hosts.len() || ranges[i].1 - ranges[i].0 == 8 || exists|k: int|
            ranges[i].0 <= k < ranges[i].1 && #[trigger] hosts[k] == hosts[ranges[i].1 as int],
{
    assert(util::fits_batch(
        hosts,
        ranges[i].0 as int,
        ranges[i].1 as int,
        util::MAX_PARALLEL_HOSTS,
    ));
    if ranges[i].1 < hosts.len() {
        util::law_host_batches_are_as_long_as_they_can_be(
            ranges,
            hosts,
            util::MAX_PARALLEL_HOSTS,
            i,
        );
    }
}

} // verus!
