# mpm

Declare the packages your machine should have, and converge to it: a plaintext
manifest per package manager (`pacman`, `apt`, `brew`, `cargo`, `npm`, `pnpm`,
`dotnet`), layered as a shared file plus one per host; `mpm status` shows the
drift, `mpm apply` installs what is missing and removes what nothing declares.

The library in `src/` is written in Verus and verified; `app/` is the command
line around it (argument parsing, files, processes, threads, the terminal).

## Layout

- `src/text.rs`, `src/order.rs` -- text helpers and the order names sort in.
- `src/manifest/` -- the manifest grammar, one manifest file and its edits,
  and the layered tree (`Layout`, `Resolved`).
- `src/package_map.rs` -- packages by name, kept in name order.
- `src/reconcile.rs` -- the plan for one manager: what to install, repin and
  remove, and which pins a manager cannot honour.
- `src/manager/` -- each package manager as argument vectors and listing parsers.
- `src/invocation.rs` -- commands as argument vectors, root escalation, quoting.
- `src/presentation.rs` -- how plans and summaries are rendered.
- `src/commands.rs` -- the decisions behind each subcommand.
- `tests/` -- tests run against the compiled library.
- `app/main.rs` -- the `mpm` executable.

Each module states its contracts over mathematical models (`Seq`, `Map`), and
the properties that span several operations are proof functions named `law_*`.
