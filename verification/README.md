# portez

Stable development port numbers, one per project directory and name, kept
in a TOML registry that may be edited by hand. Comments and layout survive a
rewrite because `toml_edit` prints the document it parsed; no contract here
shows that, nor that a saved registry reads back the same (tests exercise
both).

The library is written in Verus and its behaviour is stated in contracts:

- `src/tree.rs` — a plain model of TOML tables (`Node`, viewed as `TomlItem`)
  and the lookups and edits on it.
- `src/document.rs` — the boundary to `toml_edit`: parsing, reading the
  document as a `Node`, and the three edits the registry makes.
- `src/model.rs` — what a registry document means: its start, its
  assignments, when it is well formed, and the messages for each fault.
- `src/registry.rs` — `Registry`: load, lookup, listing, assignment of the
  lowest free port, removal.
- `src/edits.rs` — proofs that the document edits do what the model says.
- `src/laws.rs` — properties that span several operations (a registration
  is remembered, removal forgets exactly what it names, freed ports are
  reused, what is listed is what is looked up, a removal leaves the old
  listing minus the removed rows).
- `src/port_set.rs` — sets of ports, kept in a `BTreeSet`.
- `src/cli.rs`, `src/text.rs` — the command-line answers and their text.

`app/` holds the program around it: argument parsing, the environment, the
lock file, reading and atomically rewriting the registry, and output.
