# parallel-rustc

A dependency-graph-aware parallel compilation planner and build driver for Rust
workspaces, whose logic is verified with [Verus](https://github.com/verus-lang/verus).

Packages, compilation units or recorded rustc invocations are laid out in *wavefront
phases*: everything in a phase can run at the same time, because all that it depends on
stands in earlier phases. The contracts in `src/` say what each function computes, and
the public proof functions named `law_*` state what holds of the library as a whole: that
no dependency comes too late, that no schedule needs fewer steps than there are phases,
that a record reads back as the invocation it was written for, that no code generation
starts before what it waits for has finished.

## Layout

- `src/` is the verified library.
  - `layers` is the theory of phases; `order`, `text`, `paths`, `names` and `waves` are what
    it and the other modules are built from.
  - `metadata`, `graph` and `plan` work on what `cargo metadata` reports, `unit_graph`,
    `reach` and `classifier` on Cargo's unit graph, `recorder`, `capture` and `json` on recorded rustc
    invocations, `coordinator` on those that Cargo hands to its rustc wrapper.
  - `builder`, `bench`, `builder_v4`, `builder_v5`, `codegen` and `trees` decide what the
    builds do, step by step; `cli` joins the parts for the commands.
- `app/` runs processes, reads and writes files and prints. It asks the library what to do.
- `tests/` exercises the library.

What is taken on trust is marked where it stands: calls into `petgraph` in `graph`, calls
into `serde_json` in `json`, and `String::push` in `text`.
