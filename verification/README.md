# cuartel

A library for running coding agents in sandboxed machines, written in Rust and
verified with Verus: what each function returns is stated in its contract and
proved.

## Layout

- `src/` is the library.
  - `agent`, `session`, `availability`: the agents, their sessions, and which of
    them can run on a host.
  - `auth_gateway`: the reverse proxy that puts stored credentials on the
    requests of an agent. It decides; it does no I/O.
  - `credential_store`, `db`: credentials, encryption, and the rows that are kept.
  - `overlay`, `diff_render`, `review`, `review_laws`: differences between two
    trees of files, and accepting them hunk by hunk.
  - `pipeline`, `pipeline_run`, `file_passing`, `workflow`: work in stages and in
    steps.
  - `cron`, `cron_laws`, `calendar`, `time`: schedules.
  - `workspace`, `workspace_mount`, `checkpoint`, `fork`, `config`: what a project
    is on the host and in a machine.
  - `firewall`, `net`: what a machine must not reach.
  - `rivet`: the requests, answers and events of the actor runtime.
  - `remote`: other servers, the tailnet, and moving sessions between servers.
  - `terminal`: what bytes do to the screen, how it is drawn, and what keys send.
  - `json`, `text`: values and strings as mathematical sequences.
- `tests/` runs the library on concrete values.
- `app/` is the program around it: the database, HTTP, WebSockets, processes and
  pseudo-terminals.

## Reading the contracts

Strings are viewed as `Seq<char>`, bytes as `Seq<u8>`, JSON as `json::JsonView`.
Most functions have a spec function of a like name that says what they return;
the public proof functions whose names begin with `law_` state what holds of
several functions together.

What other crates compute stands behind small trusted functions, each with a
contract of its own: `serde_json` (`json`), `chrono` (`calendar`, `time`,
`auth_gateway::persister`), `similar` (`overlay`), `hyper`
(`auth_gateway::proxy`), `aes-gcm` and `rand` (`db::crypto`), `base64`
(`rivet::base64`) and `vte` (`terminal::parser`). Where a result takes long to
state it has a name instead, a spec function without a body.
