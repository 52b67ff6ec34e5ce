use cephlens::config::ResolvedConfig;
use cephlens::doctor::{
    client_tracer_check, empty_as_dash, first_bin_detail, first_marker_detail, host_jobs,
    job_batches, level_label, osdtrace_check, output_detail, remote_check, remote_commands,
    render_doctor_report, run_doctor,
    worker_panicked, CheckLevel, DoctorCheck, HostAnswers, HostJob, HostRole, SshOutcome,
    TraceTarget,
};
use cephlens::ssh::SshCommandOutput;

fn config(hosts: &[&str], client_hosts: &[&str]) -> ResolvedConfig {
    ResolvedConfig {
        profile: "test".to_owned(),
        admin_host: "ceph-admin".to_owned(),
        hosts: hosts.iter().map(|host| (*host).to_owned()).collect(),
        client_hosts: client_hosts.iter().map(|host| (*host).to_owned()).collect(),
        refresh_secs: 1,
        trace_auto_start: false,
        trace_window_secs: 10,
        trace_latency_ms: 1,
        trace_ttl_secs: 1800,
        session_keep: 20,
    }
}

// The jobs run concurrently, so this order is what keeps the rendered
// report identical to the sequential version: admin, then every OSD host,
// then every client host.
#[test]
fn host_jobs_keep_the_reported_order() {
    let cfg = config(&["node-a", "node-b"], &["client-a"]);

    let (jobs, client_split) = host_jobs(&cfg);

    assert_eq!(
        jobs.iter()
            .map(|job| (job.host, job.role))
            .collect::<Vec<_>>(),
        vec![
            ("ceph-admin", HostRole::Admin),
            ("node-a", HostRole::Osd),
            ("node-b", HostRole::Osd),
            ("client-a", HostRole::Client),
        ]
    );
    assert_eq!(client_split, 3);
}

#[test]
fn host_jobs_without_client_hosts_split_at_the_end() {
    let cfg = config(&["node-a"], &[]);

    let (jobs, client_split) = host_jobs(&cfg);

    assert_eq!(client_split, jobs.len());
}

#[test]
fn renders_worst_status() {
    let report = render_doctor_report(&[
        DoctorCheck {
            level: CheckLevel::Okay,
            scope: "a".to_owned(),
            detail: "ready".to_owned(),
        },
        DoctorCheck {
            level: CheckLevel::Warn,
            scope: "b".to_owned(),
            detail: "missing optional target".to_owned(),
        },
    ]);

    assert!(!report.has_bad);
    assert!(report.text.contains("status: warn"));
    assert!(report.text.contains("[ok]"));
    assert!(report.text.contains("[warn]"));
}

#[test]
fn bad_report_requires_failure_exit() {
    let report = render_doctor_report(&[DoctorCheck {
        level: CheckLevel::Bad,
        scope: "admin rados".to_owned(),
        detail: "permission denied".to_owned(),
    }]);

    assert!(report.has_bad);
    assert!(report.text.contains("status: bad"));
}

fn done(success: bool, stdout: &str, stderr: &str) -> SshOutcome {
    Ok(SshCommandOutput {
        success,
        status: "exit status: 1".to_owned(),
        stdout: stdout.to_owned(),
        stderr: stderr.to_owned(),
    })
}

fn failed() -> SshOutcome {
    Err("e".repeat(200))
}

fn shown(check: &DoctorCheck) -> (CheckLevel, &str, &str) {
    (check.level, check.scope.as_str(), check.detail.as_str())
}

#[test]
fn remote_checks_explain_failures() {
    assert_eq!(
        shown(&remote_check("s", &done(true, "x", "y"), "fine")),
        (CheckLevel::Okay, "s", "fine")
    );
    assert_eq!(
        shown(&remote_check("s", &done(false, " x ", " y "), "fine")),
        (CheckLevel::Bad, "s", "y")
    );
    assert_eq!(
        shown(&remote_check("s", &failed(), "fine")),
        (CheckLevel::Bad, "s", "e".repeat(160).as_str())
    );
    assert_eq!(output_detail("", "", "exit status: 1"), "exit status: 1");
    assert_eq!(output_detail(" out ", "\n", "st"), "out");
}

#[test]
fn tracer_checks_read_the_markers() {
    let check = |outcome: SshOutcome| {
        let check = client_tracer_check("h", "kfstrace", &outcome);
        assert_eq!(check.scope, "h kfstrace");
        (check.level, check.detail)
    };
    assert_eq!(
        check(done(true, "__CEPHLENS_STATUS__ missing", "")),
        (CheckLevel::Bad, "missing".to_owned())
    );
    assert_eq!(
        check(done(true, "a\n  __CEPHLENS_ERROR__  no kernel \n", "")),
        (CheckLevel::Bad, "no kernel".to_owned())
    );
    assert_eq!(
        check(done(true, "x __CEPHLENS_ERROR__ y", "")),
        (CheckLevel::Bad, "check failed".to_owned())
    );
    assert_eq!(
        check(done(true, "__CEPHLENS_BIN__=/usr/bin/kfstrace\n", "")),
        (CheckLevel::Okay, "/usr/bin/kfstrace".to_owned())
    );
    assert_eq!(check(done(true, "", "")), (CheckLevel::Okay, "installed".to_owned()));
    assert_eq!(check(done(false, "", "denied")), (CheckLevel::Bad, "denied".to_owned()));
    assert_eq!(check(failed()), (CheckLevel::Bad, "e".repeat(160)));
    assert_eq!(first_marker_detail("x"), "check failed");
    assert_eq!(first_bin_detail("x"), "installed");
}

#[test]
fn osdtrace_checks_read_the_target() {
    let mut target = TraceTarget {
        error: None,
        installed: true,
        binary: "/bin/osdtrace".to_owned(),
        osds: " ".to_owned(),
        traceable: "1".to_owned(),
    };
    assert_eq!(
        shown(&osdtrace_check("h", &target)),
        (CheckLevel::Okay, "h osdtrace", "/bin/osdtrace osds=- traceable=1")
    );
    target.installed = false;
    assert_eq!(
        shown(&osdtrace_check("h", &target)),
        (CheckLevel::Bad, "h osdtrace", "missing")
    );
    target.error = Some("x".repeat(161));
    assert_eq!(osdtrace_check("h", &target).detail, "x".repeat(160));
    assert_eq!(empty_as_dash(""), "-");
    assert_eq!(empty_as_dash(" a"), " a");
}

#[test]
fn jobs_run_the_checks_of_their_role() {
    let admin = HostJob { host: "adm", role: HostRole::Admin };
    let checks = admin.run(&HostAnswers::Admin {
        reachable: done(true, "", ""),
        sudo: done(true, "", ""),
        ceph: done(false, "", "no ceph"),
        rados: done(true, "", ""),
    });
    assert_eq!(
        checks.iter().map(shown).collect::<Vec<_>>(),
        vec![
            (CheckLevel::Okay, "admin ssh", "reachable"),
            (CheckLevel::Okay, "admin sudo", "passwordless sudo"),
            (CheckLevel::Bad, "admin ceph", "no ceph"),
            (CheckLevel::Okay, "admin rados", "passwordless rados"),
        ]
    );
    let osd = HostJob { host: "n", role: HostRole::Osd };
    let checks = osd.run(&HostAnswers::Osd {
        reachable: done(true, "", ""),
        sudo: done(true, "", ""),
        target: TraceTarget {
            error: None,
            installed: false,
            binary: String::new(),
            osds: String::new(),
            traceable: String::new(),
        },
    });
    assert_eq!(
        checks.iter().map(shown).collect::<Vec<_>>(),
        vec![
            (CheckLevel::Okay, "n ssh", "reachable"),
            (CheckLevel::Okay, "n sudo", "passwordless sudo"),
            (CheckLevel::Bad, "n osdtrace", "missing"),
        ]
    );
    let client = HostJob { host: "c", role: HostRole::Client };
    let checks = client.run(&HostAnswers::Client {
        reachable: done(true, "", ""),
        sudo: done(true, "", ""),
        kfstrace: done(true, "", ""),
        radostrace: done(true, "__CEPHLENS_BIN__= /r ", ""),
    });
    assert_eq!(
        checks.iter().map(shown).collect::<Vec<_>>(),
        vec![
            (CheckLevel::Okay, "c ssh", "reachable"),
            (CheckLevel::Okay, "c sudo", "passwordless sudo"),
            (CheckLevel::Okay, "c kfstrace", "installed"),
            (CheckLevel::Okay, "c radostrace", "/r"),
        ]
    );
}

#[test]
fn reports_keep_the_order_of_the_profile() {
    let ok = |scope: &str| {
        Some(vec![DoctorCheck {
            level: CheckLevel::Okay,
            scope: scope.to_owned(),
            detail: "fine".to_owned(),
        }])
    };
    let cfg = config(&["node-a"], &["client-a"]);
    let report = run_doctor(&cfg, vec![ok("adm"), None, ok("cli")]);
    assert!(report.has_bad);
    assert_eq!(
        report.text,
        "cephlens doctor\nstatus: bad\n\n\
         [ok] profile                  test admin=ceph-admin\n\
         [ok] adm                      fine\n\
         [bad] node-a                   doctor worker panicked\n\
         [ok] cli                      fine\n"
    );
    let cfg = config(&["node-a"], &[]);
    let report = run_doctor(&cfg, vec![ok("adm"), ok("a scope longer than its column")]);
    assert!(!report.has_bad);
    assert_eq!(
        report.text,
        "cephlens doctor\nstatus: warn\n\n\
         [ok] profile                  test admin=ceph-admin\n\
         [ok] adm                      fine\n\
         [ok] a scope longer than its column fine\n\
         [warn] client_hosts             not configured; kfstrace and radostrace are disabled\n"
    );
}

#[test]
fn an_empty_report_is_fine() {
    let report = render_doctor_report(&[]);
    assert!(!report.has_bad);
    assert_eq!(report.text, "cephlens doctor\nstatus: ok\n\n");
    assert_eq!(level_label(CheckLevel::Bad), "bad");
    let job = HostJob { host: "h", role: HostRole::Osd };
    assert_eq!(shown(&worker_panicked(&job)), (CheckLevel::Bad, "h", "doctor worker panicked"));
}

#[test]
fn no_batch_asks_a_host_twice() {
    let cfg = config(&["ceph-admin", "node-a"], &["client-a", "node-a"]);
    let (jobs, _) = host_jobs(&cfg);
    assert_eq!(job_batches(&jobs), vec![(0, 1), (1, 4), (4, 5)]);

    let names = (0..12).map(|n| format!("node-{n}")).collect::<Vec<_>>();
    let hosts = names.iter().map(String::as_str).collect::<Vec<_>>();
    let cfg = config(&hosts, &[]);
    let (jobs, _) = host_jobs(&cfg);
    assert_eq!(job_batches(&jobs), vec![(0, 8), (8, 13)], "at most eight hosts in flight");
}

#[test]
fn roles_have_their_commands() {
    assert_eq!(
        remote_commands(HostRole::Admin),
        vec![
            "hostname >/dev/null",
            "sudo -n true",
            "sudo -n ceph -s --format json >/dev/null",
            "sudo -n rados --version >/dev/null",
        ]
    );
    for role in [HostRole::Osd, HostRole::Client] {
        assert_eq!(remote_commands(role), vec!["hostname >/dev/null", "sudo -n true"]);
    }
    let answers = HostAnswers::Client {
        reachable: failed(),
        sudo: failed(),
        kfstrace: failed(),
        radostrace: failed(),
    };
    assert_eq!(answers.host_role(), HostRole::Client);
}
