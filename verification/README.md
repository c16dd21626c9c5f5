# redwood

A build system whose build graph is a Datalog database: targets, sources, attributes and
dependencies are facts, rules derive more facts, and build kinds turn the facts of a target
into a command to run.

The library under `src/` is verified with Verus:

- `datalog/`: the lexer, parser, rule validation (safety, stratification, arity), the
  evaluation engine with its built-in predicates, queries and transitive-closure walks, and
  the laws that relate inserting, retracting and querying facts.
- `build/`: argument and environment checks, argument templates, and the three build kinds
  (`system_tool`, `graph_generator`, `external_dependency`) with their registry.
- `cli/`: what the commands compute: query parsing and reports, the dependency walk, build
  order and build levels (with their laws), hashes of inputs and settings, output conflicts.
- `format.rs`, `runtime.rs`, `cache.rs`, `sandbox.rs`: formatting of BUILD.datalog files, the
  prelude and tool facts, the facts kept in the build cache, and the path rules of sandboxes.
- `readback.rs`: the proof that a formatted program parses back to the same facts and rules.

`app/` is the command-line program around it: argument parsing, reading files, running
tools, the SQLite cache and the sandbox directories.

The prelude files are read at run time from the `prelude/` directory of the workspace.
