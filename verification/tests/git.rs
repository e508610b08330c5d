use gitsense::git::blame::{blame_path, latest_timestamp, same_object, summarize_blame, worktree_dirty};
use gitsense::git::history::{count_churn, last_touched, COMMIT_CAP};
use gitsense::git::{BlameError, BlameLine};

fn hunk(author: &str, ts: i64) -> BlameLine {
    BlameLine {
        author: author.to_string(),
        commit_short: format!("c{}", ts),
        date: format!("d{}", ts),
        timestamp: ts,
        message_summary: format!("m{}", ts),
    }
}

/// The summary of a blame: every hunk kept, the `last_*` fields from the
/// most recent one.
#[test]
fn blame_range_gate() {
    let result = summarize_blame(vec![hunk("ann", 100), hunk("bob", 300), hunk("cy", 200)], false)
        .expect("blame summary should succeed");
    assert!(!result.last_author.is_empty(), "last_author must be non-empty; got {:?}", result.last_author);
    assert!(
        !result.last_commit_short.is_empty(),
        "last_commit_short must be non-empty; got {:?}",
        result.last_commit_short
    );
    assert!(result.last_timestamp > 0, "last_timestamp must be a positive unix epoch; got {}", result.last_timestamp);
    assert_eq!(result.last_author, "bob");
    assert_eq!(result.last_commit_short, "c300");
    assert_eq!(result.last_date, "d300");
    assert_eq!(result.last_message, "m300");
    assert_eq!(result.lines.len(), 3);
    assert!(!result.worktree_dirty);
}

#[test]
fn blame_summary_prefers_the_first_of_equal_times() {
    let r = summarize_blame(vec![hunk("ann", 5), hunk("bob", 5)], true).unwrap();
    assert_eq!(r.last_author, "ann");
    assert!(r.worktree_dirty);
}

#[test]
fn blame_summary_of_no_hunks_fails() {
    assert!(matches!(summarize_blame(Vec::new(), false), Err(BlameError::NoEntries)));
}

#[test]
fn blame_summary_at_the_minimum_time_stays_empty() {
    let r = summarize_blame(vec![hunk("ann", i64::MIN)], false).unwrap();
    assert_eq!(r.last_author, "");
    assert_eq!(r.last_timestamp, i64::MIN);
}

/// A clean worktree matches the HEAD blob; an edited, missing or unreadable
/// one does not.
#[test]
fn blame_range_detects_dirty_worktree() {
    let head = Some(vec![1u8, 2, 3]);
    assert!(
        !worktree_dirty(&head, &Some(vec![1u8, 2, 3])),
        "freshly committed, unmodified file must not be flagged dirty"
    );
    assert!(
        worktree_dirty(&head, &Some(vec![1u8, 2, 4])),
        "file with uncommitted on-disk changes must be flagged dirty"
    );
    assert!(worktree_dirty(&None, &Some(vec![1u8])), "untracked file is dirty");
    assert!(worktree_dirty(&head, &None), "unreadable worktree copy is dirty");
}

#[test]
fn same_object_compares_ids() {
    assert!(same_object(&None, &None));
    assert!(!same_object(&Some(vec![1]), &None));
    assert!(!same_object(&Some(vec![1]), &Some(vec![1, 2])));
    assert!(same_object(&Some(vec![9, 9]), &Some(vec![9, 9])));
}

#[test]
fn last_touched_is_the_blame_timestamp() {
    let b = summarize_blame(vec![hunk("a", 7), hunk("b", 42)], false).unwrap();
    let ok: Result<i64, String> = last_touched(Ok(b));
    assert_eq!(ok, Ok(42));
    let err: Result<i64, String> = last_touched(Err("no history".to_string()));
    assert_eq!(err, Err("no history".to_string()));
}

#[test]
fn latest_timestamp_picks_the_maximum() {
    assert_eq!(latest_timestamp(&vec![3, 9, -2]), Some(9));
    assert_eq!(latest_timestamp(&vec![]), None);
    assert_eq!(latest_timestamp(&vec![i64::MIN]), None);
}

type Row = Vec<(Option<Vec<u8>>, Option<Vec<u8>>)>;

fn id(b: u8) -> Option<Vec<u8>> {
    Some(vec![b])
}

fn history() -> (Vec<String>, Vec<Row>) {
    let files = vec!["src/a.rs".to_string(), "src/b.rs".to_string(), "src/c.rs".to_string()];
    // Newest first: each row holds, per file, its id in the commit and in the first parent.
    let commits = vec![
        vec![(id(3), id(2)), (id(1), id(1)), (None, None)],
        vec![(id(2), id(1)), (id(5), id(4)), (None, None)],
        vec![(id(1), None), (id(4), None), (None, None)],
    ];
    (files, commits)
}

/// Churn is a function of the files and commits: two runs give the same
/// per-file counts.
#[test]
fn file_churn_is_stable_across_repeated_calls() {
    let (files, commits) = history();
    let first = count_churn(&files, &commits);
    let second = count_churn(&files, &commits);
    assert!(!first.is_empty(), "expected at least one churned file in the sample history");
    let mut a = first.clone();
    let mut b = second.clone();
    a.sort();
    b.sort();
    assert_eq!(a, b);
}

#[test]
fn churn_counts_touches_highest_first() {
    let (files, commits) = history();
    let churn = count_churn(&files, &commits);
    assert_eq!(churn, vec![("src/a.rs".to_string(), 3), ("src/b.rs".to_string(), 2)]);
}

#[test]
fn churn_walks_at_most_the_cap() {
    let files = vec!["x.rs".to_string()];
    let commits: Vec<Row> = (0..COMMIT_CAP + 7).map(|i| vec![(id((i % 2) as u8), id(((i + 1) % 2) as u8))]).collect();
    assert_eq!(count_churn(&files, &commits), vec![("x.rs".to_string(), COMMIT_CAP)]);
    assert!(count_churn(&files, &Vec::new()).is_empty());
}

#[test]
fn churn_ties_keep_file_order() {
    let files = vec!["z.rs".to_string(), "y.rs".to_string()];
    let commits: Vec<Row> = vec![vec![(id(1), None), (id(1), None)]];
    assert_eq!(count_churn(&files, &commits), vec![("z.rs".to_string(), 1), ("y.rs".to_string(), 1)]);
}

#[test]
fn churn_merges_repeated_listings() {
    let files = vec!["a.rs".to_string(), "b.rs".to_string(), "a.rs".to_string()];
    let commits: Vec<Row> = vec![
        vec![(id(2), id(1)), (None, None), (id(2), id(1))],
        vec![(id(1), None), (id(7), None), (id(1), None)],
    ];
    assert_eq!(count_churn(&files, &commits), vec![("a.rs".to_string(), 4), ("b.rs".to_string(), 1)]);
}

/// The worktree flag changes nothing but itself: the same hunks give the
/// same summary whether the file on disk is stale or not.
#[test]
fn worktree_flag_changes_only_itself() {
    let hunks = || vec![hunk("ann", 100), hunk("bob", 300), hunk("cy", 300)];
    let clean = summarize_blame(hunks(), false).expect("summary");
    let dirty = summarize_blame(hunks(), true).expect("summary");
    assert!(!clean.worktree_dirty);
    assert!(dirty.worktree_dirty);
    assert_eq!(clean.lines.len(), dirty.lines.len());
    for (a, b) in clean.lines.iter().zip(dirty.lines.iter()) {
        assert_eq!((&a.author, a.timestamp), (&b.author, b.timestamp));
    }
    assert_eq!(clean.last_author, dirty.last_author);
    assert_eq!(clean.last_author, "bob");
    assert_eq!(clean.last_commit_short, dirty.last_commit_short);
    assert_eq!(clean.last_date, dirty.last_date);
    assert_eq!(clean.last_timestamp, dirty.last_timestamp);
    assert_eq!(clean.last_message, dirty.last_message);
}

/// An absolute path under the root blames as its repo-relative form; one
/// outside the root is refused.
#[test]
fn absolute_paths_blame_as_relative_ones() {
    let root = "/work/repo";
    assert_eq!(blame_path("/work/repo/src/lib.rs", root).unwrap(), "src/lib.rs");
    assert_eq!(blame_path("src/lib.rs", root).unwrap(), "src/lib.rs");
    assert_eq!(blame_path("/work/repo//src/./lib.rs", root).unwrap(), "src/lib.rs");
    assert_eq!(blame_path("src//lib.rs", root).unwrap(), "src/lib.rs");
    assert!(matches!(blame_path("/work/other/src/lib.rs", root), Err(BlameError::NotUnderRoot)));
    assert!(matches!(blame_path("/work/repository/x.rs", root), Err(BlameError::NotUnderRoot)));
}

/// The summary's last time is the latest time among the hunks.
#[test]
fn summary_time_is_the_latest_time() {
    let hunks = vec![hunk("ann", 100), hunk("bob", 300), hunk("cy", 200)];
    let ts: Vec<i64> = hunks.iter().map(|h| h.timestamp).collect();
    let latest = latest_timestamp(&ts);
    let summary = summarize_blame(hunks, false).expect("summary");
    assert_eq!(latest, Some(summary.last_timestamp));
    assert_eq!(latest, Some(300));
    let floor = summarize_blame(vec![hunk("ann", i64::MIN)], false).expect("summary");
    assert_eq!(latest_timestamp(&vec![i64::MIN]), None);
    assert_eq!(floor.last_timestamp, i64::MIN);
}
