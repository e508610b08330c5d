//! What history says of a file: when a line range was last touched, and
//! how many commits changed each file.
use vstd::prelude::*;

use crate::git::blame::{opt_bytes, same_object};
use crate::git::BlameResult;
use crate::text::str_eq;

verus! {

/// The last-touched time a blame gives: its `last_timestamp`; a failed
/// blame stays failed.
pub fn last_touched<E>(blame: Result<BlameResult, E>) -> (r: Result<i64, E>)
    ensures
        match blame {
            Ok(b) => r == Ok::<i64, E>(b.last_timestamp),
            Err(e) => r == Err::<i64, E>(e),
        },
{
    match blame {
        Ok(b) => Ok(b.last_timestamp),
        Err(e) => Err(e),
    }
}

// ── Churn ───────────────────────────────────────────────────────────────────

/// At most this many commits of history are walked for churn.
pub const COMMIT_CAP: usize = 500;

/// In one commit, file `f`'s object id differs from the first parent's (or
/// the file exists on one side only).
pub open spec fn touched(row: Seq<(Option<Vec<u8>>, Option<Vec<u8>>)>, f: int) -> bool {
    0 <= f < row.len() && opt_bytes(row[f].0) != opt_bytes(row[f].1)
}

/// How many of the first `n` commits touched file `f`.
pub open spec fn churn_upto(commits: Seq<Vec<(Option<Vec<u8>>, Option<Vec<u8>>)>>, f: int, n: int) -> nat
    decreases n,
{
    if n <= 0 {
        0
    } else {
        churn_upto(commits, f, n - 1) + if touched(commits[n - 1]@, f) {
            1nat
        } else {
            0nat
        }
    }
}

/// How many of the walked commits (at most `COMMIT_CAP`) touched file `f`.
pub open spec fn churn_count(commits: Seq<Vec<(Option<Vec<u8>>, Option<Vec<u8>>)>>, f: int) -> nat {
    churn_upto(
        commits,
        f,
        if commits.len() < COMMIT_CAP {
            commits.len() as int
        } else {
            COMMIT_CAP as int
        },
    )
}

proof fn lemma_churn_upto_bound(commits: Seq<Vec<(Option<Vec<u8>>, Option<Vec<u8>>)>>, f: int, n: int)
    requires
        n >= 0,
    ensures
        churn_upto(commits, f, n) <= n,
    decreases n,
{
    if n > 0 {
        lemma_churn_upto_bound(commits, f, n - 1);
    }
}

/// How many times the walked commits touched the listings among the first
/// `n` of `files` that name `path`.
pub open spec fn path_churn_upto(
    files: Seq<String>,
    commits: Seq<Vec<(Option<Vec<u8>>, Option<Vec<u8>>)>>,
    path: Seq<char>,
    n: int,
) -> nat
    decreases n,
{
    if n <= 0 {
        0
    } else {
        path_churn_upto(files, commits, path, n - 1) + if files[n - 1]@ == path {
            churn_count(commits, n - 1)
        } else {
            0nat
        }
    }
}

/// No earlier listing names the same file as listing `f`.
pub open spec fn first_listing(files: Seq<String>, f: int) -> bool {
    forall|g: int| 0 <= g < f ==> files[g]@ != #[trigger] files[f]@
}

/// The churn reported for listing `f`: for the first listing of a path,
/// the churn of all its listings together; nothing for a repeated listing.
pub open spec fn merged_churn(
    files: Seq<String>,
    commits: Seq<Vec<(Option<Vec<u8>>, Option<Vec<u8>>)>>,
    f: int,
) -> nat {
    if first_listing(files, f) {
        path_churn_upto(files, commits, files[f]@, files.len() as int)
    } else {
        0
    }
}

proof fn lemma_path_churn_bound(
    files: Seq<String>,
    commits: Seq<Vec<(Option<Vec<u8>>, Option<Vec<u8>>)>>,
    path: Seq<char>,
    n: int,
)
    requires
        0 <= n <= files.len(),
    ensures
        path_churn_upto(files, commits, path, n) <= n * COMMIT_CAP,
    decreases n,
{
    if n > 0 {
        lemma_path_churn_bound(files, commits, path, n - 1);
        let m = if commits.len() < COMMIT_CAP { commits.len() as int } else { COMMIT_CAP as int };
        lemma_churn_upto_bound(commits, n - 1, m);
    }
}

/// Each entry is a file (by the index of its first listing) with its
/// positive merged churn; every such file has one entry; counts do not
/// increase, and equal counts keep the files' order.
pub open spec fn churn_ok(
    out: Seq<(String, usize)>,
    files: Seq<String>,
    commits: Seq<Vec<(Option<Vec<u8>>, Option<Vec<u8>>)>>,
    idx: Seq<int>,
    upto: int,
) -> bool {
    &&& idx.len() == out.len()
    &&& forall|i: int|
        0 <= i < out.len() ==> 0 <= #[trigger] idx[i] < upto && idx[i] < files.len() && out[i].0@
            == files[idx[i]]@ && out[i].1 == merged_churn(files, commits, idx[i]) && out[i].1 > 0
    &&& forall|i: int, j: int| 0 <= i < j < out.len() ==> #[trigger] idx[i] != #[trigger] idx[j]
    &&& forall|f: int|
        0 <= f < upto && f < files.len() && merged_churn(files, commits, f) > 0 ==> exists|i: int|
            0 <= i < out.len() && #[trigger] idx[i] == f
    &&& forall|i: int, j: int| 0 <= i < j < out.len() ==> (#[trigger] out[i]).1 >= (#[trigger] out[j]).1
    &&& forall|i: int, j: int|
        0 <= i < j < out.len() && (#[trigger] out[i]).1 == (#[trigger] out[j]).1 ==> idx[i] < idx[j]
}

/// Per-file churn: for each file, how many of the first `COMMIT_CAP`
/// commits changed it, where `commits[c][f]` holds listing `f`'s object id
/// in commit `c` and in its first parent.  A file listed several times gets
/// one entry, at its first listing, with the counts of all its listings
/// added up.  Files that no walked commit touched are left out; the rest
/// come with their counts, highest first, files with equal counts in the
/// order given.  The counts must fit a `usize`, hence the bound on the
/// number of listings.
pub fn count_churn(
    files: &Vec<String>,
    commits: &Vec<Vec<(Option<Vec<u8>>, Option<Vec<u8>>)>>,
) -> (res: Vec<(String, usize)>)
    requires
        files.len() <= usize::MAX / COMMIT_CAP,
    ensures
        exists|idx: Seq<int>| #[trigger] churn_ok(res@, files@, commits@, idx, files@.len() as int),
{
    let m = if commits.len() < COMMIT_CAP {
        commits.len()
    } else {
        COMMIT_CAP
    };
    let mut counts: Vec<usize> = Vec::new();
    let mut f: usize = 0;
    while f < files.len()
        invariant
            f <= files.len(),
            counts@.len() == f,
            forall|k: int| 0 <= k < f ==> #[trigger] counts@[k] == 0,
        decreases files.len() - f,
    {
        counts.push(0);
        f = f + 1;
    }
    let mut c: usize = 0;
    while c < m
        invariant
            c <= m,
            m <= COMMIT_CAP,
            m <= commits.len(),
            counts@.len() == files.len(),
            forall|k: int| 0 <= k < files.len() ==> #[trigger] counts@[k] == churn_upto(commits@, k, c as int),
        decreases m - c,
    {
        let row = &commits[c];
        let mut f: usize = 0;
        while f < files.len()
            invariant
                f <= files.len(),
                c < m,
                m <= COMMIT_CAP,
                counts@.len() == files.len(),
                row@ == commits@[c as int]@,
                forall|k: int| 0 <= k < f ==> #[trigger] counts@[k] == churn_upto(commits@, k, c + 1),
                forall|k: int| f <= k < files.len() ==> #[trigger] counts@[k] == churn_upto(commits@, k, c as int),
            decreases files.len() - f,
        {
            proof {
                lemma_churn_upto_bound(commits@, f as int, c as int);
            }
            if f < row.len() && !same_object(&row[f].0, &row[f].1) {
                let v = counts[f] + 1;
                counts.set(f, v);
            }
            f = f + 1;
        }
        c = c + 1;
    }
    // Keep the touched files, highest count first, file order among equals.
    let mut out: Vec<(String, usize)> = Vec::new();
    let ghost mut idx: Seq<int> = Seq::empty();
    let mut f: usize = 0;
    while f < files.len()
        invariant
            f <= files.len(),
            counts@.len() == files.len(),
            m == (if commits@.len() < COMMIT_CAP { commits@.len() as int } else { COMMIT_CAP as int }),
            forall|k: int| 0 <= k < files.len() ==> #[trigger] counts@[k] == churn_count(commits@, k),
            files.len() <= usize::MAX / COMMIT_CAP,
            churn_ok(out@, files@, commits@, idx, f as int),
        decreases files.len() - f,
    {
        // Is this the first listing of its path?
        let mut dup = false;
        let mut g: usize = 0;
        while g < f && !dup
            invariant
                g <= f,
                f < files.len(),
                !dup ==> forall|h: int| 0 <= h < g ==> files@[h]@ != files@[f as int]@,
                dup ==> !first_listing(files@, f as int),
            decreases f - g + (if dup { 0int } else { 1int }),
        {
            if str_eq(&files[g], &files[f]) {
                dup = true;
                assert(files@[g as int]@ == files@[f as int]@);
            } else {
                g = g + 1;
            }
        }
        let mut n: usize = 0;
        if !dup {
            // Add up the churn of every listing of the same path.
            let ghost path = files@[f as int]@;
            let mut h: usize = 0;
            while h < files.len()
                invariant
                    h <= files.len(),
                    f < files.len(),
                    files.len() <= usize::MAX / COMMIT_CAP,
                    path == files@[f as int]@,
                    counts@.len() == files.len(),
                    forall|k: int| 0 <= k < files.len() ==> #[trigger] counts@[k] == churn_count(commits@, k),
                    n == path_churn_upto(files@, commits@, path, h as int),
                decreases files.len() - h,
            {
                proof {
                    lemma_path_churn_bound(files@, commits@, path, h + 1);
                    assert((h + 1) * COMMIT_CAP <= files.len() * COMMIT_CAP) by (nonlinear_arith)
                        requires
                            h + 1 <= files.len(),
                    ;
                    assert(files.len() * COMMIT_CAP <= usize::MAX) by (nonlinear_arith)
                        requires
                            files.len() <= usize::MAX / COMMIT_CAP,
                    ;
                }
                if str_eq(&files[h], &files[f]) {
                    n = n + counts[h];
                }
                h = h + 1;
            }
        }
        proof {
            assert(n == merged_churn(files@, commits@, f as int));
        }
        if n > 0 {
            let ghost before = out@;
            let mut p: usize = 0;
            while p < out.len() && out[p].1 >= n
                invariant
                    p <= out.len(),
                    out@ == before,
                    forall|q: int| 0 <= q < p ==> (#[trigger] before[q]).1 >= n,
                decreases out.len() - p,
            {
                p = p + 1;
            }
            out.insert(p, (files[f].clone(), n));
            proof {
                let ni = idx.insert(p as int, f as int);
                lemma_churn_insert(before, files@, commits@, idx, f as int, p as int, out@);
                idx = ni;
            }
        } else {
            proof {
                assert forall|g: int|
                    0 <= g < f + 1 && g < files@.len() && merged_churn(files@, commits@, g) > 0 implies exists|i: int|
                    0 <= i < out@.len() && #[trigger] idx[i] == g by {
                    assert(g != f);
                }
            }
        }
        f = f + 1;
    }
    out
}

/// File `f` has an entry in the churn list with the name and count of `e`.
pub open spec fn listed_as(out: Seq<(String, usize)>, idx: Seq<int>, f: int, e: (String, usize)) -> bool {
    exists|j: int| 0 <= j < out.len() && #[trigger] idx[j] == f && out[j].0@ == e.0@ && out[j].1 == e.1
}

/// Churn depends on the files and commits alone: two churn lists for the
/// same inputs list the same files, each with the same count.
pub proof fn lemma_churn_counts_determined(
    out1: Seq<(String, usize)>,
    idx1: Seq<int>,
    out2: Seq<(String, usize)>,
    idx2: Seq<int>,
    files: Seq<String>,
    commits: Seq<Vec<(Option<Vec<u8>>, Option<Vec<u8>>)>>,
)
    requires
        churn_ok(out1, files, commits, idx1, files.len() as int),
        churn_ok(out2, files, commits, idx2, files.len() as int),
    ensures
        out1.len() == out2.len(),
        forall|i: int| 0 <= i < out1.len() ==> #[trigger] listed_as(out2, idx2, idx1[i], out1[i]),
{
    assert forall|i: int| 0 <= i < out1.len() implies #[trigger] listed_as(out2, idx2, idx1[i], out1[i]) by {
        let f = idx1[i];
        let j = choose|j: int| 0 <= j < out2.len() && #[trigger] idx2[j] == f;
        assert(idx2[j] == f && out2[j].0@ == out1[i].0@ && out2[j].1 == out1[i].1);
    }
    assert(idx1.to_set().subset_of(idx2.to_set())) by {
        assert forall|x: int| idx1.to_set().contains(x) implies idx2.to_set().contains(x) by {
            let i = choose|i: int| 0 <= i < idx1.len() && idx1[i] == x;
            let j = choose|j: int| 0 <= j < out2.len() && #[trigger] idx2[j] == idx1[i];
            assert(idx2[j] == x);
        }
    }
    assert(idx2.to_set().subset_of(idx1.to_set())) by {
        assert forall|x: int| idx2.to_set().contains(x) implies idx1.to_set().contains(x) by {
            let j = choose|j: int| 0 <= j < idx2.len() && idx2[j] == x;
            let i = choose|i: int| 0 <= i < out1.len() && #[trigger] idx1[i] == idx2[j];
            assert(idx1[i] == x);
        }
    }
    lemma_distinct_len(idx1, idx2);
    lemma_distinct_len(idx2, idx1);
}

/// A list without repeats whose items all occur in another list without
/// repeats is no longer than it.
proof fn lemma_distinct_len(a: Seq<int>, b: Seq<int>)
    requires
        forall|i: int, j: int| 0 <= i < j < a.len() ==> #[trigger] a[i] != #[trigger] a[j],
        forall|i: int, j: int| 0 <= i < j < b.len() ==> #[trigger] b[i] != #[trigger] b[j],
        a.to_set().subset_of(b.to_set()),
    ensures
        a.len() <= b.len(),
{
    assert(a.no_duplicates());
    assert(b.no_duplicates());
    a.unique_seq_to_set();
    b.unique_seq_to_set();
    vstd::set_lib::lemma_len_subset(a.to_set(), b.to_set());
}

/// Inserting file `f`'s entry where counts stay descending keeps the churn
/// list well formed.
proof fn lemma_churn_insert(
    before: Seq<(String, usize)>,
    files: Seq<String>,
    commits: Seq<Vec<(Option<Vec<u8>>, Option<Vec<u8>>)>>,
    idx: Seq<int>,
    f: int,
    p: int,
    after: Seq<(String, usize)>,
)
    requires
        churn_ok(before, files, commits, idx, f),
        0 <= f < files.len(),
        0 <= p <= before.len(),
        merged_churn(files, commits, f) > 0,
        after == before.insert(p, (after[p].0, after[p].1)),
        after[p].0@ == files[f]@,
        after[p].1 == merged_churn(files, commits, f),
        forall|q: int| 0 <= q < p ==> (#[trigger] before[q]).1 >= after[p].1,
        p < before.len() ==> before[p].1 < after[p].1,
    ensures
        churn_ok(after, files, commits, idx.insert(p, f), f + 1),
{
    let ni = idx.insert(p, f);
    let e = (after[p].0, after[p].1);
    before.insert_ensures(p, e);
    idx.insert_ensures(p, f);
    assert forall|q: int| p <= q < before.len() implies (#[trigger] before[q]).1 < e.1 by {
        if q > p {
            assert(before[p].1 >= before[q].1);
        }
    }
    assert forall|i: int| 0 <= i < after.len() implies 0 <= #[trigger] ni[i] < f + 1 && ni[i] < files.len()
        && after[i].0@ == files[ni[i]]@ && after[i].1 == merged_churn(files, commits, ni[i]) && after[i].1 > 0 by {
        if i < p {
            assert(ni[i] == idx[i] && after[i] == before[i]);
        } else if i > p {
            assert(ni[i] == idx[i - 1] && after[i] == before[i - 1]);
        }
    }
    assert forall|i: int, j: int| 0 <= i < j < after.len() implies #[trigger] ni[i] != #[trigger] ni[j] by {
        let bi = if i < p { i } else { i - 1 };
        let bj = if j < p { j } else { j - 1 };
        if i != p {
            assert(ni[i] == idx[bi]);
        }
        if j != p {
            assert(ni[j] == idx[bj]);
        }
    }
    assert forall|g: int|
        0 <= g < f + 1 && g < files.len() && merged_churn(files, commits, g) > 0 implies exists|i: int|
        0 <= i < after.len() && #[trigger] ni[i] == g by {
        if g == f {
            assert(ni[p] == g);
        } else {
            let i = choose|i: int| 0 <= i < before.len() && #[trigger] idx[i] == g;
            if i < p {
                assert(ni[i] == g);
            } else {
                assert(ni[i + 1] == g);
            }
        }
    }
    assert forall|i: int, j: int| 0 <= i < j < after.len() implies (#[trigger] after[i]).1 >= (#[trigger] after[j]).1 by {
        let bi = if i < p { i } else { i - 1 };
        let bj = if j < p { j } else { j - 1 };
        if i != p {
            assert(after[i] == before[bi]);
        }
        if j != p {
            assert(after[j] == before[bj]);
        }
    }
    assert forall|i: int, j: int|
        0 <= i < j < after.len() && (#[trigger] after[i]).1 == (#[trigger] after[j]).1 implies ni[i] < ni[j] by {
        let bi = if i < p { i } else { i - 1 };
        let bj = if j < p { j } else { j - 1 };
        if i != p {
            assert(after[i] == before[bi]);
            assert(ni[i] == idx[bi]);
        }
        if j != p {
            assert(after[j] == before[bj]);
            assert(ni[j] == idx[bj]);
        }
        if j == p {
            assert(idx[bi] < f);
        }
        if i == p {
            assert(before[bj].1 < e.1);
        }
    }
}

} // verus!
