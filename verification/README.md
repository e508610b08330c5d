# gitsense

Git-history-aware code intelligence for Rust repositories, served over the
Model Context Protocol. The library under `src/` is verified with Verus; the
server around it lives in `app/`.

## Layout

- `src/index/model.rs` — symbol kinds, definitions, references, locations.
- `src/index/parse.rs` — tag extraction with tree-sitter: the outside calls behind
  small trusted wrappers, and the verified assembly of definitions (kind,
  visibility, full-body line range) and references from the tags.
- `src/index/mod.rs` — the symbol index: construction from source files, search
  (sorted by file and line), references, definitions, unreferenced
  definitions, per-file tags, statistics, and name resolution with file/line
  disambiguators.
- `src/index/walk.rs` — which directories the workspace walk descends into,
  and which files it keeps.
- `src/graph.rs` — the call graph: breadth-first traversal with minimal
  depths, the hop budget, truncation and cycle reporting, with the laws the
  traversal satisfies stated as proof functions.
- `src/git/` — what is decided from git history: blame summaries, the
  repo-relative path blame runs on, and worktree staleness (`blame.rs`);
  last-touched times and per-file churn (`history.rs`).
- `src/tools/` — the decisions behind the six tools: argument parsing,
  root resolution, dead-code sampling and ranking, the overview; the tool
  parameters (`params.rs`).
- `src/text.rs`, `src/lemmas.rs` — string and sequence helpers.
- `app/` — the `gitsense-mcp` binary: command line, file walking and
  reading, gix access to the repository, the rmcp server and the HTTP
  router, JSON encoding.
- `tests/` — tests of the library on in-memory sources and histories.
