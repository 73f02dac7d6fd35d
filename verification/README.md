# engine

The engine of a browser-hosted toolbox for engineers: an in-memory virtual
file system with a small shell, and Mini-ShellScript (MSS), a scripting
language whose scripts run shell commands. The library is written in Verus;
each public function carries a contract, and the laws that hold across
functions are proof functions.

## Layout

- `src/text.rs`, `src/bytes.rs` — characters, strings, numbers, UTF-8.
- `src/table.rs` — a string-keyed map whose view is a `Map`.
- `src/path.rs` — splitting, normalising and resolving paths.
- `src/vfs.rs` — the virtual file system: files in memory, `/dev` devices,
  and the paths that belong to the persistent store (served by the host,
  which hands the library the stored files a command reads).
- `src/commands.rs`, `src/shell.rs` — argument reading, the commands, the
  dispatcher, the files to open before a command, and pipelines.
- `src/ast.rs`, `src/grammar.rs`, `src/parser.rs` — the syntax of MSS, its
  grammar as spec functions, and the parser proved to follow it.
- `src/semantics.rs` — what running a script means, given the host's replies.
- `src/compose.rs`, `src/frame.rs` — how results of parts combine, and what a
  script cannot touch.
- `src/interp.rs` — the interpreter, proved to follow the semantics for every
  sequence of host replies.
- `src/json.rs` — the `json_parse` built-in, through `serde_json`.
- `src/pattern.rs` — the regular expressions of `grep`, through `regex`.
- `app/lib.rs` — the WebAssembly exports, the browser's private file system,
  and the host of running scripts (JavaScript calls, `f64` arithmetic).
- `tests/` — the tests of the library.

## The host

A running script reaches the outside world only through a `Host`: shell
commands, file reads and writes, HTTP requests, sleeping, the cancellation
flag and arithmetic. In the browser, a request that needs a promise ends the
run; the promise is awaited and the script runs again from the start with
the answers so far, which the interpreter, deterministic in them, replays.
The interpreter records, as ghost state, every request it made and every
reply it got; its contracts state the result for every possible reply.
That record is kept by the `ask_*` methods of `src/interp.rs`, one per host
method, each of which hands its arguments to the host unchanged and logs
them. The `Host` trait carries no contract, so Verus does not check that
what the host received is what was logged: that link rests on those few
lines being read.

Each loop round and each call of a user function spends one unit of a
budget; `run` uses the largest one (`u64::MAX`).
