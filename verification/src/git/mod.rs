//! What the library decides from git history: blame summaries, last-touch
//! times, worktree staleness and per-file churn.  The repository itself is
//! read by the server, which hands these functions plain values.
pub mod blame;
pub mod history;

use vstd::prelude::*;

verus! {

/// Per-hunk blame attribution for a line (or contiguous range of lines).
pub struct BlameLine {
    /// Author name from the commit that introduced these lines.
    pub author: String,
    /// 7-character hex prefix of the commit id.
    pub commit_short: String,
    /// Date of the commit, e.g. "2025-11-03".
    pub date: String,
    /// Unix timestamp (seconds) of the committer time.
    pub timestamp: i64,
    /// First line of the commit message.
    pub message_summary: String,
}

/// The result of blaming a line range.  The `last_*` fields identify the
/// most recently committed hunk among all hunks overlapping the range.
pub struct BlameResult {
    /// One entry per blame hunk overlapping the requested range.
    pub lines: Vec<BlameLine>,
    pub last_author: String,
    pub last_commit_short: String,
    pub last_date: String,
    pub last_timestamp: i64,
    pub last_message: String,
    /// `true` when the worktree content of the file differs from HEAD, or
    /// the file is not in HEAD: blame reflects HEAD, so line numbers may not
    /// match what is on disk.
    pub worktree_dirty: bool,
}

/// Failures of a blame.
#[derive(Debug, Clone, Copy, PartialEq, Eq, Structural)]
pub enum BlameError {
    /// Blame produced no hunks (empty file or range out of bounds).
    NoEntries,
    /// An absolute file path does not lie under the repository root.
    NotUnderRoot,
}

} // verus!
