# project_graph

The project graph of a monorepo, and the projects that a change affects.

- `src/` is the library. Readers of configuration formats (`readers/`)
  contribute projects and edges, `builder.rs` assembles them into a graph in two
  passes, `changed.rs` maps changed files to projects, `graph.rs` finds what
  depends on them, `cycles.rs` finds what depends on itself in a circle,
  `wire.rs` is the form in which a graph is handed on, and `affected.rs` and
  `run.rs` are the command that lists the affected projects. Verus
  proves the contract of every function but the wrappers named below; the
  functions named `law_*` state what follows from the contracts.
- `src/digraph.rs`, `src/globs.rs` and one function of `src/messages.rs` state
  what is taken on trust of `petgraph`, `globset` and the formatting of std.
- `app/` is the command line: it walks directories, parses files, and asks git.
- `tests/` run the library with the real outside crates.

Paths are text with `/` between their components.
