# astrolabe_core

A deterministic, file-level code graph for coding agents, and the language
servers that answer what a graph cannot. The library is written in Verus: what
its functions return is stated in their contracts and proved.

- `src/` is the library.
  - `index` builds the graph of parsed files, `reuse` takes up what was parsed
    before, `graph`, `neighborhood` and
    `group_graph` answer questions about it, `ranking` weighs files for a task,
    `name_path` finds symbols by their paths of names.
  - `churn` reads how often files change, `budget` cuts output to a number of
    tokens, `body` numbers lines, `cache` keeps the lines of files.
  - `lsp` is about language servers: where they are found (`discovery`), how they
    are installed (`install`, `installer`, `installation`, `archive`), how they are spoken to
    (`frame`, `json`, `codec`, `transport`, `session`, `wire`, `uri`), when they
    are started and stopped (`pool`), what is asked of them (`queries`,
    `diagnostics`) and when the graph answers in their place (`router`).
  - `text`, `paths`, `order` and `types` are what the others are built from.
- `tests/` runs the library on concrete values.
- `app/` is ordinary Rust around the library: files, processes, threads, the
  network, clocks and floating point. It carries out what the library decides.

Calls into other crates stand behind small functions marked
`#[verifier::external_body]`, or behind `assume_specification`. The comment above
each says what is taken from the other crate without proof.
