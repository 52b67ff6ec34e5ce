//! What is handed to `ssh` and what is made of its outcome.

use crate::text;
use crate::util;
use crate::util::shell_quote;
use vstd::prelude::*;

verus! {

/// What a remote command left behind.
#[derive(Clone, Debug)]
pub struct SshCommandOutput {
    pub success: bool,
    pub status: String,
    pub stdout: String,
    pub stderr: String,
}

/// The text that `String::from_utf8_lossy` makes of bytes.
pub uninterp spec fn lossy_text(bytes: Seq<u8>) -> Seq<char>;

/// `String::from_utf8_lossy`: the bytes as text. Valid UTF-8 is decoded; what is
/// put in place of invalid sequences is left to the name `lossy_text`.
#[verifier::external_body]
fn text_of_bytes(bytes: &[u8]) -> (out: String)
    ensures
        out@ == lossy_text(bytes@),
        vstd::utf8::valid_utf8(bytes@) ==> out@ == vstd::utf8::decode_utf8(bytes@),
{
    String::from_utf8_lossy(bytes).to_string()
}

/// What the remote shell is asked to run: `command`, as the single script of
/// a `sh -c`.
pub open spec fn remote_text(command: Seq<char>) -> Seq<char> {
    "sh -c "@ + util::quoted(command)
}

/// `host` can be handed to `ssh` as a destination: it is not empty, does not look
/// like an option and holds no white space.
pub open spec fn is_destination(host: Seq<char>) -> bool {
    &&& host.len() > 0
    &&& host[0] != '-'
    &&& forall|i: int| 0 <= i < host.len() ==> !text::is_space(#[trigger] host[i])
}

/// Whether `host` can be handed to `ssh` as a destination.
pub fn valid_destination(host: &str) -> (yes: bool)
    ensures
        yes == is_destination(host@),
{
    let chars = text::chars_of(host);
    if chars.len() == 0 || chars[0] == '-' {
        return false;
    }
    let mut i: usize = 0;
    while i < chars.len()
        invariant
            i <= chars@.len(),
            chars@ == host@,
            forall|k: int| 0 <= k < i ==> !text::is_space(#[trigger] chars@[k]),
        decreases chars@.len() - i,
    {
        if text::space(chars[i]) {
            return false;
        }
        i = i + 1;
    }
    true
}

/// The arguments of `ssh` that run `command` on `host`. No prompt can stop it,
/// and it gives up on a host that does not answer.
pub open spec fn ssh_arg_texts(host: Seq<char>, command: Seq<char>) -> Seq<Seq<char>> {
    seq!["-o"@, "BatchMode=yes"@, "-o"@, "ConnectTimeout=8"@, "--"@, host, remote_text(command)]
}

/// The arguments of `ssh` that run `command` on `host`.
pub fn ssh_args(host: &str, command: &str) -> (args: Vec<String>)
    ensures
        text::texts(args@) == ssh_arg_texts(host@, command@),
{
    let mut remote = "sh -c ".to_owned();
    remote.append(shell_quote(command).as_str());
    let mut args: Vec<String> = Vec::new();
    args.push("-o".to_owned());
    args.push("BatchMode=yes".to_owned());
    args.push("-o".to_owned());
    args.push("ConnectTimeout=8".to_owned());
    args.push("--".to_owned());
    args.push(host.to_owned());
    args.push(remote);
    assert(text::texts(args@) =~= ssh_arg_texts(host@, command@));
    args
}

/// The remote shell reads the script back as the command, whatever it holds.
pub proof fn law_remote_shell_reads_the_command(command: Seq<char>)
    ensures
        text::begins(remote_text(command), "sh -c "@),
        util::shell_reads(remote_text(command).skip("sh -c "@.len() as int), false) == Some(
            command,
        ),
{
    util::law_shell_reads_quoted_text_back(command);
    let prefix = "sh -c "@;
    assert(remote_text(command).take(prefix.len() as int) =~= prefix);
    assert(remote_text(command).skip(prefix.len() as int) =~= util::quoted(command));
}

/// What a finished remote command left behind, from how it ended and the bytes
/// that it wrote.
pub fn ssh_output(success: bool, status: &str, stdout: &[u8], stderr: &[u8]) -> (out:
    SshCommandOutput)
    ensures
        out.success == success,
        out.status@ == status@,
        out.stdout@ == lossy_text(stdout@),
        out.stderr@ == lossy_text(stderr@),
        vstd::utf8::valid_utf8(stdout@) ==> out.stdout@ == vstd::utf8::decode_utf8(stdout@),
        vstd::utf8::valid_utf8(stderr@) ==> out.stderr@ == vstd::utf8::decode_utf8(stderr@),
{
    SshCommandOutput {
        success,
        status: status.to_owned(),
        stdout: text_of_bytes(stdout),
        stderr: text_of_bytes(stderr),
    }
}

/// The report of a remote command that failed.
pub open spec fn failure_text(
    host: Seq<char>,
    status: Seq<char>,
    stdout: Seq<char>,
    stderr: Seq<char>,
) -> Seq<char> {
    "ssh "@ + host + " failed with "@ + status + "\nstdout:\n"@ + text::trimmed(stdout)
        + "\nstderr:\n"@ + text::trimmed(stderr)
}

/// What a remote command on `host` wrote, or why it gave nothing: it could not be
/// run, or it failed.
pub fn ssh_capture(host: &str, outcome: Result<SshCommandOutput, String>) -> (result: Result<
    String,
    String,
>)
    ensures
        match outcome {
            Ok(output) => if output.success {
                result == Ok::<String, String>(output.stdout)
            } else {
                result is Err && result->Err_0@ == failure_text(
                    host@,
                    output.status@,
                    output.stdout@,
                    output.stderr@,
                )
            },
            Err(error) => result == Err::<String, String>(error),
        },
{
    match outcome {
        Ok(output) => {
            if output.success {
                Ok(output.stdout)
            } else {
                let mut message = "ssh ".to_owned();
                message.append(host);
                message.append(" failed with ");
                message.append(output.status.as_str());
                message.append("\nstdout:\n");
                message.append(text::trim_text(output.stdout.as_str()).as_str());
                message.append("\nstderr:\n");
                message.append(text::trim_text(output.stderr.as_str()).as_str());
                Err(message)
            }
        },
        Err(error) => Err(error),
    }
}

/// A destination is refused exactly where it is empty, would read as an option, or
/// holds white space.
pub proof fn law_destinations_are_no_options(host: Seq<char>)
    ensures
        !is_destination(host) <==> {
            ||| host.len() == 0
            ||| host[0] == '-'
            ||| exists|i: int| 0 <= i < host.len() && text::is_space(#[trigger] host[i])
        },
{
}

/// The arguments ask for no password, give up on a host that does not answer, and
/// name the host behind all options, so that it cannot be read as one. What the
/// remote shell is given comes last.
pub proof fn law_host_stands_behind_the_options(host: Seq<char>, command: Seq<char>)
    ensures
        ({
            let args = ssh_arg_texts(host, command);
            let options = args.take(4);
            &&& args.len() == 7
            &&& options.contains("BatchMode=yes"@)
            &&& options.contains("ConnectTimeout=8"@)
            &&& args[0] == "-o"@ && args[2] == "-o"@
            &&& args[4] == "--"@
            &&& args[5] == host
            &&& args[6] == remote_text(command)
        }),
{
    let options = ssh_arg_texts(host, command).take(4);
    assert(options[1] == "BatchMode=yes"@);
    assert(options[3] == "ConnectTimeout=8"@);
}

/// A failure names the host and how the command ended, and gives what it printed,
/// output before errors, without the white space round it.
pub proof fn law_failure_gives_what_was_printed(
    host: Seq<char>,
    status: Seq<char>,
    stdout: Seq<char>,
    stderr: Seq<char>,
)
    requires
        stdout.len() > 0 ==> !text::is_space(stdout[0]) && !text::is_space(stdout.last()),
        stderr.len() > 0 ==> !text::is_space(stderr[0]) && !text::is_space(stderr.last()),
    ensures
        failure_text(host, status, stdout, stderr) == "ssh "@ + host + " failed with "@ + status
            + "\nstdout:\n"@ + stdout + "\nstderr:\n"@ + stderr,
        failure_text(host, status, "\n"@ + stdout + "\n"@, stderr) == failure_text(
            host,
            status,
            stdout,
            stderr,
        ),
{
    reveal_strlit("\n");
    let none = Seq::<char>::empty();
    assert(none + stdout + none =~= stdout);
    assert(none + stderr + none =~= stderr);
    text::law_trimming_takes_white_space_off(none, stdout, none);
    text::law_trimming_takes_white_space_off(none, stderr, none);
    text::law_trimming_takes_white_space_off("\n"@, stdout, "\n"@);
}

} // verus!
