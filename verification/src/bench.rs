//! The bench and probe scripts, and the report of a probe.

use crate::text;
use crate::util;
use crate::util::shell_quote;
use vstd::prelude::*;

verus! {

/// The pool that a bench session of one process works in.
pub open spec fn pool_name(session: Seq<char>, pid: u32) -> Seq<char> {
    "cephlens-test-"@ + session + "-"@ + text::decimal(pid as nat)
}

/// The pool that a bench session of one process works in.
pub fn bench_pool_name(session: &str, pid: u32) -> (out: String)
    ensures
        out@ == pool_name(session@, pid),
{
    let mut out = "cephlens-test-".to_owned();
    out.append(session);
    out.append("-");
    out.append(text::u64_text(pid as u64).as_str());
    out
}

// Creates the pool and leaves nothing behind, however the bench ends.
pub const BENCH_BODY: &'static str = r#"
pool_created=no
cleanup() {
  code=$?
  trap - INT TERM HUP EXIT
  if [ "$pool_created" = yes ]; then
    if ! sudo -n rados -p "$pool" cleanup >/dev/null 2>&1; then
      echo "cephlens bench cleanup failed for pool $pool" >&2
      if [ "$code" -eq 0 ]; then code=1; fi
    fi
    if [ "$keep_pool" = no ] && ! sudo -n ceph osd pool delete "$pool" "$pool" --yes-i-really-really-mean-it >/dev/null 2>&1; then
      echo "cephlens bench pool deletion failed for $pool" >&2
      if [ "$code" -eq 0 ]; then code=1; fi
    fi
  fi
  exit "$code"
}
trap cleanup INT TERM HUP EXIT
sudo -n ceph osd pool create "$pool" 32 >/dev/null
pool_created=yes
sudo -n ceph osd pool application enable "$pool" rados >/dev/null
echo "cephlens bench pool=$pool"
sudo -n rados -p "$pool" bench "#;

/// The script that benches `pool` for some seconds.
pub open spec fn bench_text(pool: Seq<char>, seconds: u64, keep_pool: bool) -> Seq<char> {
    "\nset -eu\npool="@ + util::quoted(pool) + "\nkeep_pool="@ + (if keep_pool {
        "yes"@
    } else {
        "no"@
    }) + BENCH_BODY@ + text::decimal(seconds as nat) + " write -b 4096 -t 4 --no-cleanup\n"@
}

/// The script that benches `pool` for some seconds. It removes the pool when it
/// ends, unless the pool is to be kept.
pub fn bench_command(pool: &str, seconds: u64, keep_pool: bool) -> (out: String)
    ensures
        out@ == bench_text(pool@, seconds, keep_pool),
{
    let mut out = "\nset -eu\npool=".to_owned();
    out.append(shell_quote(pool).as_str());
    out.append("\nkeep_pool=");
    out.append(
        if keep_pool {
            "yes"
        } else {
            "no"
        },
    );
    out.append(BENCH_BODY);
    out.append(text::u64_text(seconds).as_str());
    out.append(" write -b 4096 -t 4 --no-cleanup\n");
    out
}

/// `chrono::Utc::now` and `DateTime::timestamp_nanos_opt`: the current time in
/// nanoseconds since 1970, where an `i64` holds it. It depends on the clock alone,
/// so nothing is claimed of it.
#[verifier::external_body]
fn nanos_now() -> (nanos: Option<i64>) {
    chrono::Utc::now().timestamp_nanos_opt()
}

/// The session that a bench runs in: the one that was asked for, or the moment.
pub open spec fn session_name(session: Option<Seq<char>>, nanos: Option<i64>) -> Seq<char> {
    match (session, nanos) {
        (Some(session), _) => session,
        (None, Some(nanos)) => text::signed_decimal(nanos as int),
        (None, None) => text::signed_decimal(0),
    }
}

pub open spec fn opt_text(text: Option<&str>) -> Option<Seq<char>> {
    match text {
        Some(s) => Some(s@),
        None => None,
    }
}

/// The session that a bench runs in: the one that was asked for, or the moment.
pub fn bench_session(session: Option<&str>, nanos: Option<i64>) -> (out: String)
    ensures
        out@ == session_name(opt_text(session), nanos),
{
    match session {
        Some(session) => session.to_owned(),
        None => text::i64_text(
            match nanos {
                Some(nanos) => nanos,
                None => 0,
            },
        ),
    }
}

/// The script of a bench run by the process `pid`. Without a session it works in
/// a pool that is named by the moment.
pub fn run_bench(seconds: u64, session: Option<&str>, keep_pool: bool, pid: u32) -> (out: String)
    ensures
        exists|nanos: Option<i64>|
            out@ == bench_text(
                #[trigger] pool_name(session_name(opt_text(session), nanos), pid),
                seconds,
                keep_pool,
            ),
        session is Some ==> out@ == bench_text(pool_name(session->0@, pid), seconds, keep_pool),
{
    let nanos = nanos_now();
    let session_of = bench_session(session, nanos);
    let pool = bench_pool_name(session_of.as_str(), pid);
    assert(pool@ == pool_name(session_name(opt_text(session), nanos), pid));
    bench_command(pool.as_str(), seconds, keep_pool)
}

// What the probe asks a host.
pub const PROBE_COMMAND: &'static str = r#"
printf '--- %s ---\n' "$(hostname)"
printf 'kernel='; uname -r
printf 'sudo='; if sudo -n true 2>/dev/null; then echo ok; else echo needs_password; fi
printf 'ceph_version='
ceph_version=$(ceph --version 2>/dev/null | head -1)
if [ -n "$ceph_version" ]; then echo "$ceph_version"; else echo missing; fi
printf 'deployment='
micro=$(snap list microceph 2>/dev/null | awk 'NR==2 {print $2" "$4" "$6; found=1}')
if [ -n "$micro" ]; then
  echo "microceph $micro"
elif command -v cephadm >/dev/null 2>&1; then
  echo cephadm
elif [ -d /var/lib/rook ]; then
  echo rook
else
  echo generic
fi
printf 'ceph_osd='; pgrep -af '[c]eph-osd --cluster ceph' || true
printf 'osdtrace='
bin=$(command -v osdtrace 2>/dev/null || true)
if [ -z "$bin" ] && [ -x "$HOME/.cephlens/bin/osdtrace" ]; then
  bin="$HOME/.cephlens/bin/osdtrace"
fi
if [ -n "$bin" ]; then
  "$bin" --version 2>/dev/null | head -1 | awk -v bin="$bin" '{print bin" "$0; found=1} END {if (!found) print bin}'
else
  echo missing
fi
"#;

/// What the probe of one host gave.
pub open spec fn probe_line(host: Seq<char>, outcome: Result<String, String>) -> Seq<char> {
    match outcome {
        Ok(output) => "probe "@ + host + ": ok\n"@ + output@ + "\n"@,
        Err(error) => "probe "@ + host + ": "@ + error@ + "\n"@,
    }
}

/// The report of the probes, one after the other.
pub open spec fn probe_report(probes: Seq<(String, Result<String, String>)>) -> Seq<char>
    decreases probes.len(),
{
    if probes.len() == 0 {
        Seq::empty()
    } else {
        probe_report(probes.drop_last()) + probe_line(probes.last().0@, probes.last().1)
    }
}

/// The report of the probes: each host with what its probe wrote, or why it gave
/// nothing.
pub fn run_probe(probes: &[(String, Result<String, String>)]) -> (out: String)
    ensures
        out@ == probe_report(probes@),
{
    let mut out = String::new();
    let mut i: usize = 0;
    while i < probes.len()
        invariant
            i <= probes@.len(),
            out@ == probe_report(probes@.take(i as int)),
        decreases probes@.len() - i,
    {
        assert(probes@.take(i + 1).drop_last() =~= probes@.take(i as int));
        let ghost before = out@;
        let (host, outcome) = &probes[i];
        out.append("probe ");
        out.append(host.as_str());
        match outcome {
            Ok(output) => {
                out.append(": ok\n");
                out.append(output.as_str());
                out.append("\n");
            },
            Err(error) => {
                out.append(": ");
                out.append(error.as_str());
                out.append("\n");
            },
        }
        assert(out@ =~= before + probe_line(host@, *outcome));
        i = i + 1;
    }
    assert(probes@.take(probes@.len() as int) =~= probes@);
    out
}

/// Two sessions, or two processes, never share a pool.
pub proof fn law_pool_names_are_unique(session: Seq<char>, pid: u32, other: Seq<char>, other_pid: u32)
    requires
        pool_name(session, pid) == pool_name(other, other_pid),
    ensures
        session == other,
        pid == other_pid,
{
    reveal_strlit("-");
    let prefix = "cephlens-test-"@;
    let a = text::decimal(pid as nat);
    let b = text::decimal(other_pid as nat);
    let name = pool_name(session, pid);
    assert(name == pool_name(other, other_pid));
    text::lemma_decimal_is_digits(pid as nat);
    text::lemma_decimal_is_digits(other_pid as nat);
    if a.len() < b.len() {
        let at = name.len() - 1 - a.len();
        assert(name[at] == '-');
        assert(name[at] == b[b.len() - 1 - a.len()]);
    } else if b.len() < a.len() {
        let at = name.len() - 1 - b.len();
        assert(pool_name(other, other_pid)[at] == '-');
        assert(name[at] == a[a.len() - 1 - b.len()]);
    } else {
        assert(session.len() == other.len());
        assert(a =~= name.skip(name.len() - a.len()));
        assert(b =~= name.skip(name.len() - b.len()));
        assert(session =~= name.subrange(prefix.len() as int, (prefix.len() + session.len()) as int));
        assert(other =~= name.subrange(prefix.len() as int, (prefix.len() + other.len()) as int));
        text::law_decimal_reads_back(pid as u64, 0);
        text::law_decimal_reads_back(other_pid as u64, 0);
    }
}

/// The bench script works on the pool that it was given, which the shell reads back
/// as it is, keeps the pool exactly where it is to be kept, and runs for as many
/// seconds as were asked for.
pub proof fn law_bench_does_what_was_asked(pool: Seq<char>, seconds: u64, keep_pool: bool)
    ensures
        ({
            let script = bench_text(pool, seconds, keep_pool);
            let opening = "\nset -eu\npool="@;
            let answer = if keep_pool {
                "yes"@
            } else {
                "no"@
            };
            let start = opening + util::quoted(pool) + "\nkeep_pool="@ + answer;
            let end = text::decimal(seconds as nat) + " write -b 4096 -t 4 --no-cleanup\n"@;
            &&& text::begins(script, start)
            &&& script.len() == start.len() + BENCH_BODY@.len() + end.len()
            &&& script.skip(script.len() - end.len()) == end
            &&& util::shell_reads(util::quoted(pool), false) == Some(pool)
        }),
{
    util::law_shell_reads_quoted_text_back(pool);
    let answer = if keep_pool {
        "yes"@
    } else {
        "no"@
    };
    let start = "\nset -eu\npool="@ + util::quoted(pool) + "\nkeep_pool="@ + answer;
    let end = text::decimal(seconds as nat) + " write -b 4096 -t 4 --no-cleanup\n"@;
    let script = bench_text(pool, seconds, keep_pool);
    assert(script =~= start + BENCH_BODY@ + end);
    assert(script.take(start.len() as int) =~= start);
    assert(script.skip(script.len() - end.len()) =~= end);
}

/// A session that was asked for is used as it is, and else the moment names it.
pub proof fn law_asked_session_is_used(session: Seq<char>, nanos: i64)
    ensures
        session_name(Some(session), Some(nanos)) == session,
        session_name(Some(session), None) == session,
        text::written_i64(session_name(None, Some(nanos))) == Some(nanos),
        text::written_i64(session_name(None, None)) == Some(0i64),
{
    text::law_decimal_reads_back(0, nanos);
    text::law_decimal_reads_back(0, 0);
}

/// The probes are reported in their order, each with its host: those that went well
/// as ok, with what they printed, and the others with why they failed.
pub proof fn law_every_probe_is_reported(
    probes: Seq<(String, Result<String, String>)>,
    more: (String, Result<String, String>),
)
    ensures
        probe_report(Seq::empty()) == Seq::<char>::empty(),
        match more.1 {
            Ok(output) => probe_report(probes.push(more)) == probe_report(probes) + "probe "@
                + more.0@ + ": ok\n"@ + output@ + "\n"@,
            Err(error) => probe_report(probes.push(more)) == probe_report(probes) + "probe "@
                + more.0@ + ": "@ + error@ + "\n"@,
        },
{
    assert(probes.push(more).drop_last() =~= probes);
    match more.1 {
        Ok(output) => {
            assert(probe_report(probes.push(more)) =~= probe_report(probes) + "probe "@ + more.0@
                + ": ok\n"@ + output@ + "\n"@);
        },
        Err(error) => {
            assert(probe_report(probes.push(more)) =~= probe_report(probes) + "probe "@ + more.0@
                + ": "@ + error@ + "\n"@);
        },
    }
}

} // verus!
