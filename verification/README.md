# cephlens

The logic behind an SSH-driven view of a Ceph cluster, verified with
[Verus](https://github.com/verus-lang/verus): it reads what Ceph's admin commands
and the eBPF tracers print, aggregates it, and turns it into insights and reports.

- `src/` is the verified library. Every function states what it returns for every
  input, and the `law_*` proof functions state what holds of several of them
  together.
  - `collect`, `snapshot`, `node`, `stream`: cluster and host status. `json` holds
    the documents, `double` the binary64 numbers as bit patterns.
  - `radostrace`, `trace`, `flow`: traced ops, by pool and by OSD, placement group
    and object.
  - `diagnose`, `doctor`: insights for the operator and preflight checks.
  - `ssh`, `bench`: what is run on a host, and what is made of its outcome.
  - `text`, `order`, `tally`, `util`: what the others build on.
- `tests/` runs the library on concrete values, against std and `serde_json` where
  they compute the same.
- `app/` is ordinary Rust around it: `ssh` processes, threads, clocks and session
  files.

Outside code that the proofs rest on is confined to a few items that say so:
`serde_json::from_str` and `serde_json::Value` in `json`, `chrono::Utc::now` in
`radostrace`, `bench` and `snapshot`, `String::push` in `text` and
`String::from_utf8_lossy` in `ssh`.
