# Bob the Builder

Replays fine-grained Nix derivations outside the sandbox, with a content-addressed artifact cache,
persistent bash workers, and pipelined Rust builds. `src/` is the library: reading derivations, the
unit graph, cache keys, path rewriting, the build scripts, scheduling, and the decisions of the
command line, each with a contract that Verus proves. `app/` is the program around it: the command
line, files, processes, and threads.

## Layout of the library

- `drv`, `aterm`: reading derivations, and what reading gives back of a written one.
- `graph`, `topo`: the units that some roots reach, and their order.
- `cache`, `digest`, `tree`, `overrides`, `edits`: keys, places, and hashes; the early cutoff, and
  what an edit moves.
- `scheduler`, `run`, `counts`: who may start when, and what each build sees.
- `executor`, `crate_executor`, `attrs`, `rewrite`, `json`: the script and environment of a build.
- `worker`, `rustc_wrap`: what the workers and the compiler's shim say.
- `backend`, `rust_*`, `cc_*`: what the languages add.
- `resolve`, `commands`, `progress`: targets, evaluations, the command line, and what is shown.
- `strmap`, `sorting`, `text`, `path`: maps, order, strings, and paths.

## What is trusted

The digest of `blake3`, the reading and writing of JSON by `serde_json`, the debug form of characters
and strings in messages, and `String::push` are called under contracts that are stated and not
proved. All else is proved.
