//! Summaries of a blame, the latest commit time among its hunks, and
//! whether a file's worktree copy is stale against HEAD.
use vstd::prelude::*;

use crate::git::{BlameError, BlameLine, BlameResult};
use crate::text::{
    chars_of, components, is_absolute, join_components, join_strings, lemma_path_components_joined,
    path_components, starts_with_dot, str_eq, views,
};

verus! {

/// Hunk `i` has the greatest timestamp, and no earlier hunk has it.
pub open spec fn is_first_latest(lines: Seq<BlameLine>, i: int) -> bool {
    &&& 0 <= i < lines.len()
    &&& forall|j: int| 0 <= j < lines.len() ==> #[trigger] lines[j].timestamp <= lines[i].timestamp
    &&& forall|j: int| 0 <= j < i ==> #[trigger] lines[j].timestamp < lines[i].timestamp
}

/// The summary of the hunks: the first most recent hunk's attribution, or
/// empty fields and `i64::MIN` when every hunk carries `i64::MIN`.
pub open spec fn summary_ok(r: BlameResult, lines: Seq<BlameLine>, dirty: bool) -> bool {
    &&& r.lines@ == lines
    &&& r.worktree_dirty == dirty
    &&& exists|i: int|
        #[trigger] is_first_latest(lines, i) && if lines[i].timestamp > i64::MIN {
            &&& r.last_timestamp == lines[i].timestamp
            &&& r.last_author@ == lines[i].author@
            &&& r.last_commit_short@ == lines[i].commit_short@
            &&& r.last_date@ == lines[i].date@
            &&& r.last_message@ == lines[i].message_summary@
        } else {
            &&& r.last_timestamp == i64::MIN
            &&& r.last_author@ == Seq::<char>::empty()
            &&& r.last_commit_short@ == Seq::<char>::empty()
            &&& r.last_date@ == Seq::<char>::empty()
            &&& r.last_message@ == Seq::<char>::empty()
        }
}

/// Summarise blame hunks: keep them all, and pick the most recently
/// committed one (the first of several equally recent) for the `last_*`
/// fields.  No hunks is an error.
pub fn summarize_blame(lines: Vec<BlameLine>, worktree_dirty: bool) -> (res: Result<BlameResult, BlameError>)
    ensures
        lines@.len() == 0 <==> res is Err,
        res matches Err(e) ==> e == BlameError::NoEntries,
        res matches Ok(r) ==> summary_ok(r, lines@, worktree_dirty),
{
    if lines.len() == 0 {
        return Err(BlameError::NoEntries);
    }
    let mut best: usize = 0;
    let mut i: usize = 1;
    while i < lines.len()
        invariant
            1 <= i <= lines.len(),
            best < i,
            forall|j: int| 0 <= j < i ==> #[trigger] lines@[j].timestamp <= lines@[best as int].timestamp,
            forall|j: int| 0 <= j < best ==> #[trigger] lines@[j].timestamp < lines@[best as int].timestamp,
        decreases lines.len() - i,
    {
        if lines[i].timestamp > lines[best].timestamp {
            best = i;
        }
        i = i + 1;
    }
    let b = &lines[best];
    let (last_author, last_commit_short, last_date, last_timestamp, last_message) = if b.timestamp
        > i64::MIN {
        (b.author.clone(), b.commit_short.clone(), b.date.clone(), b.timestamp, b.message_summary.clone())
    } else {
        (String::new(), String::new(), String::new(), i64::MIN, String::new())
    };
    let ghost all = lines@;
    let r = BlameResult {
        lines,
        last_author,
        last_commit_short,
        last_date,
        last_timestamp,
        last_message,
        worktree_dirty,
    };
    assert(is_first_latest(all, best as int));
    Ok(r)
}

/// The latest of the timestamps, if there is one above `i64::MIN`.
pub open spec fn latest_ok(r: Option<i64>, ts: Seq<i64>) -> bool {
    match r {
        Some(t) => t > i64::MIN && (exists|i: int| 0 <= i < ts.len() && ts[i] == t) && forall|j: int|
            0 <= j < ts.len() ==> #[trigger] ts[j] <= t,
        None => forall|j: int| 0 <= j < ts.len() ==> #[trigger] ts[j] == i64::MIN,
    }
}

/// The latest commit time among the hunks of a blame; `None` when there is
/// no hunk with a time above `i64::MIN`.
pub fn latest_timestamp(ts: &Vec<i64>) -> (r: Option<i64>)
    ensures
        latest_ok(r, ts@),
{
    let mut last = i64::MIN;
    let mut i: usize = 0;
    while i < ts.len()
        invariant
            i <= ts.len(),
            forall|j: int| 0 <= j < i ==> #[trigger] ts@[j] <= last,
            last == i64::MIN || exists|j: int| 0 <= j < i && ts@[j] == last,
        decreases ts.len() - i,
    {
        if ts[i] > last {
            last = ts[i];
        }
        i = i + 1;
    }
    if last == i64::MIN {
        None
    } else {
        Some(last)
    }
}

/// The bytes of an optional object id.
pub open spec fn opt_bytes(o: Option<Vec<u8>>) -> Option<Seq<u8>> {
    match o {
        Some(v) => Some(v@),
        None => None,
    }
}

/// Whether two optional object ids are equal.
pub fn same_object(a: &Option<Vec<u8>>, b: &Option<Vec<u8>>) -> (r: bool)
    ensures
        r == (opt_bytes(*a) == opt_bytes(*b)),
{
    match a {
        None => b.is_none(),
        Some(x) => match b {
            None => false,
            Some(y) => {
                assert(opt_bytes(*a) == Some(x@) && opt_bytes(*b) == Some(y@));
                if x.len() != y.len() {
                    return false;
                }
                let mut i: usize = 0;
                while i < x.len()
                    invariant
                        i <= x.len(),
                        x.len() == y.len(),
                        opt_bytes(*a) == Some(x@),
                        opt_bytes(*b) == Some(y@),
                        forall|k: int| 0 <= k < i ==> x@[k] == y@[k],
                    decreases x.len() - i,
                {
                    if x[i] != y[i] {
                        assert(x@[i as int] != y@[i as int]);
                        return false;
                    }
                    i = i + 1;
                }
                assert(x@ =~= y@);
                true
            },
        },
    }
}

/// Whether the worktree copy of a file is stale against HEAD: it is when
/// the worktree content could not be read or hashed (`None`), or when its
/// object id differs from the file's id in HEAD (absent from HEAD counts as
/// differing).
pub fn worktree_dirty(head_blob: &Option<Vec<u8>>, worktree_blob: &Option<Vec<u8>>) -> (dirty: bool)
    ensures
        dirty == match worktree_blob {
            None => true,
            Some(w) => opt_bytes(*head_blob) != Some(w@),
        },
{
    match worktree_blob {
        None => true,
        Some(_) => !same_object(head_blob, worktree_blob),
    }
}

/// Blame reads the committed history, never the worktree: two summaries of
/// the same hunks, whatever the worktree flag of each, agree on the hunks
/// and on every `last_*` field; only `worktree_dirty` may differ.
pub proof fn lemma_summary_ignores_worktree(
    r1: BlameResult,
    r2: BlameResult,
    lines: Seq<BlameLine>,
    dirty1: bool,
    dirty2: bool,
)
    requires
        summary_ok(r1, lines, dirty1),
        summary_ok(r2, lines, dirty2),
    ensures
        r1.lines@ == r2.lines@,
        r1.last_timestamp == r2.last_timestamp,
        r1.last_author@ == r2.last_author@,
        r1.last_commit_short@ == r2.last_commit_short@,
        r1.last_date@ == r2.last_date@,
        r1.last_message@ == r2.last_message@,
        r1.worktree_dirty == dirty1,
        r2.worktree_dirty == dirty2,
{
    let i = choose|i: int| #[trigger] is_first_latest(lines, i) && if lines[i].timestamp > i64::MIN {
        &&& r1.last_timestamp == lines[i].timestamp
        &&& r1.last_author@ == lines[i].author@
        &&& r1.last_commit_short@ == lines[i].commit_short@
        &&& r1.last_date@ == lines[i].date@
        &&& r1.last_message@ == lines[i].message_summary@
    } else {
        &&& r1.last_timestamp == i64::MIN
        &&& r1.last_author@ == Seq::<char>::empty()
        &&& r1.last_commit_short@ == Seq::<char>::empty()
        &&& r1.last_date@ == Seq::<char>::empty()
        &&& r1.last_message@ == Seq::<char>::empty()
    };
    let j = choose|j: int| #[trigger] is_first_latest(lines, j) && if lines[j].timestamp > i64::MIN {
        &&& r2.last_timestamp == lines[j].timestamp
        &&& r2.last_author@ == lines[j].author@
        &&& r2.last_commit_short@ == lines[j].commit_short@
        &&& r2.last_date@ == lines[j].date@
        &&& r2.last_message@ == lines[j].message_summary@
    } else {
        &&& r2.last_timestamp == i64::MIN
        &&& r2.last_author@ == Seq::<char>::empty()
        &&& r2.last_commit_short@ == Seq::<char>::empty()
        &&& r2.last_date@ == Seq::<char>::empty()
        &&& r2.last_message@ == Seq::<char>::empty()
    };
    if i < j {
        assert(lines[i].timestamp < lines[j].timestamp);
    } else if j < i {
        assert(lines[j].timestamp < lines[i].timestamp);
    }
}

// ── The path blame runs on ──────────────────────────────────────────────────

/// The slash-separated, repo-relative path that blame runs on for `file`: a
/// relative path's components joined with `/`; an absolute path's components
/// after those of `root`, joined with `/`, or `None` when `root`'s
/// components do not lead it.
pub open spec fn spec_blame_path(file: Seq<char>, root: Seq<char>) -> Option<Seq<char>> {
    let cf = path_components(file);
    let cr = path_components(root);
    if !is_absolute(file) {
        Some(join_components(cf))
    } else if cr.len() <= cf.len() && cf.take(cr.len() as int) == cr {
        Some(join_components(cf.skip(cr.len() as int)))
    } else {
        None
    }
}

/// The path to blame for `file`, which may be absolute (then stripped of
/// `root`) or repo-relative; an absolute path outside `root` is refused.
pub fn blame_path(file: &str, root: &str) -> (r: Result<String, BlameError>)
    ensures
        match spec_blame_path(file@, root@) {
            Some(p) => r matches Ok(s) && s@ == p,
            None => r == Err::<String, BlameError>(BlameError::NotUnderRoot),
        },
{
    let cf = components(file);
    let chars = chars_of(file);
    let absolute = chars.len() > 0 && chars[0] == '/';
    if !absolute {
        assert(views(cf@).skip(0) =~= views(cf@));
        return Ok(join_strings(&cf, 0));
    }
    let cr = components(root);
    if cr.len() > cf.len() {
        return Err(BlameError::NotUnderRoot);
    }
    let mut k: usize = 0;
    while k < cr.len()
        invariant
            k <= cr.len() <= cf.len(),
            is_absolute(file@),
            views(cf@) == path_components(file@),
            views(cr@) == path_components(root@),
            forall|j: int| 0 <= j < k ==> views(cf@)[j] == views(cr@)[j],
        decreases cr.len() - k,
    {
        if !str_eq(&cf[k], &cr[k]) {
            proof {
                assert(views(cf@)[k as int] != views(cr@)[k as int]);
                assert(views(cf@).take(cr.len() as int)[k as int] != views(cr@)[k as int]);
                assert(views(cf@).take(cr.len() as int) != views(cr@));
            }
            return Err(BlameError::NotUnderRoot);
        }
        k = k + 1;
    }
    assert(views(cf@).take(cr.len() as int) =~= views(cr@));
    Ok(join_strings(&cf, cr.len()))
}

/// An absolute path under the root blames like its repo-relative form: for
/// an absolute `root` and a relative `rel` that does not start with a `.`
/// component, `root/rel` gives the path that `rel` gives.
pub proof fn lemma_absolute_blames_like_relative(root: Seq<char>, rel: Seq<char>)
    requires
        is_absolute(root),
        !is_absolute(rel),
        !starts_with_dot(rel),
    ensures
        spec_blame_path(root + "/"@ + rel, root) == spec_blame_path(rel, root),
{
    reveal_strlit("/");
    let x = root + "/"@ + rel;
    assert(x[0] == root[0]);
    lemma_path_components_joined(root, rel);
    let cr = path_components(root);
    let cf = path_components(x);
    assert(cf.take(cr.len() as int) =~= cr);
    assert(cf.skip(cr.len() as int) =~= path_components(rel));
}

/// A blame's summary and the latest-time function agree: the summary's
/// `last_timestamp` is the latest time of its hunks when one lies above
/// `i64::MIN`, and `i64::MIN` when none does.
pub proof fn lemma_summary_agrees_with_latest(
    r: BlameResult,
    lines: Seq<BlameLine>,
    dirty: bool,
    latest: Option<i64>,
)
    requires
        summary_ok(r, lines, dirty),
        latest_ok(latest, lines.map_values(|l: BlameLine| l.timestamp)),
    ensures
        latest matches Some(t) ==> r.last_timestamp == t,
        latest is None ==> r.last_timestamp == i64::MIN,
{
    let ts = lines.map_values(|l: BlameLine| l.timestamp);
    let i = choose|i: int| #[trigger] is_first_latest(lines, i) && if lines[i].timestamp > i64::MIN {
        &&& r.last_timestamp == lines[i].timestamp
        &&& r.last_author@ == lines[i].author@
        &&& r.last_commit_short@ == lines[i].commit_short@
        &&& r.last_date@ == lines[i].date@
        &&& r.last_message@ == lines[i].message_summary@
    } else {
        &&& r.last_timestamp == i64::MIN
        &&& r.last_author@ == Seq::<char>::empty()
        &&& r.last_commit_short@ == Seq::<char>::empty()
        &&& r.last_date@ == Seq::<char>::empty()
        &&& r.last_message@ == Seq::<char>::empty()
    };
    assert(ts[i] == lines[i].timestamp);
    match latest {
        Some(t) => {
            let j = choose|j: int| 0 <= j < ts.len() && ts[j] == t;
            assert(ts[j] == lines[j].timestamp);
            assert(lines[j].timestamp <= lines[i].timestamp);
        },
        None => {},
    }
}

} // verus!
