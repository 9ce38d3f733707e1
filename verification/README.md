# just

A command runner that reads two justfile dialects: the older one, handed to an
upstream `just` installed alongside, and a simpler next-style one with its own
engine — shell-style `export`, variables that persist across recipe lines,
automatic quoting of arguments, and automatic environment setup (`.env`,
`node_modules/.bin`, cargo's `target/debug`, Python virtualenvs).

The library is written in Verus. Its functions carry contracts that Verus
proves, except four small wrappers around `std` (`text.rs`: collecting
characters, collecting a string, and the Unicode letter/alphanumeric tests),
whose contracts are trusted.

## Layout

- `src/dispatch.rs` — which dialect a justfile is written in, and which
  engine an invocation goes to.
- `src/detection.rs` — the simpler legacy-pattern style check.
- `src/search.rs` — which directory entry is the justfile, walking up.
- `src/legacy_dotenv.rs` — when a `.env` is preloaded for the upstream engine.
- `src/v2/parser.rs`, `src/v2/ast.rs` — the next-style grammar and its model.
- `src/v2/environment.rs` — the environment recipes see, and its setup.
- `src/v2/executor.rs` — the plan of a run: dependency order, parameter
  binding, substitution and quoting, and the environment of each command.
- `src/v2/cli.rs` — folder-scoped arguments and the recipe an invocation runs.
- `src/text.rs`, `src/paths.rs`, `src/vars.rs` — text, path and variable-table
  primitives with their specifications.
- `app/` — the `just` command: argument parsing, file system access, running
  the shell, and handing legacy justfiles to upstream `just`.
- `tests/` — tests of the library.
