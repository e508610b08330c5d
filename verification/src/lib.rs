//! Git-history-aware code intelligence for Rust repositories: a symbol index
//! built from tree-sitter tags, a cycle-safe call graph, blame summaries,
//! per-file churn, and the decisions behind the six MCP tools that serve
//! them.
pub mod git;
pub mod graph;
pub mod index;
pub mod lemmas;
pub mod text;
pub mod tools;
