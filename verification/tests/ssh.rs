use cephlens::ssh::{ssh_args, ssh_capture, ssh_output, valid_destination};

#[test]
fn arguments_wrap_the_command_in_one_script() {
    assert_eq!(
        ssh_args("node-a", "echo 'x'"),
        vec![
            "-o",
            "BatchMode=yes",
            "-o",
            "ConnectTimeout=8",
            "--",
            "node-a",
            "sh -c 'echo '\\''x'\\'''",
        ]
    );
}

#[test]
fn outputs_are_read_as_text() {
    let output = ssh_output(true, "exit status: 0", "å".as_bytes(), &[b'a', 0xff, b'b']);
    assert!(output.success);
    assert_eq!(output.status, "exit status: 0");
    assert_eq!(output.stdout, "å");
    assert_eq!(output.stderr, "a\u{fffd}b");
}

#[test]
fn failures_report_both_streams() {
    let output = ssh_output(false, "exit status: 255", b" out \n", b" err \n");
    assert_eq!(
        ssh_capture("node-a", Ok(output)).unwrap_err(),
        "ssh node-a failed with exit status: 255\nstdout:\nout\nstderr:\nerr"
    );
    let output = ssh_output(true, "exit status: 0", b" out \n", b"");
    assert_eq!(ssh_capture("node-a", Ok(output)).unwrap(), " out \n");
    assert_eq!(ssh_capture("node-a", Err("no ssh".to_owned())).unwrap_err(), "no ssh");
}

#[test]
fn destinations_are_no_options_and_hold_no_blanks() {
    for host in ["node-a", "root@10.0.0.1", "a-"] {
        assert!(valid_destination(host), "{host:?}");
    }
    for host in ["", " ", "-oProxyCommand=x", "-", "a b", "a\n", "\ta", "a\u{a0}b"] {
        assert!(!valid_destination(host), "{host:?}");
    }
}
