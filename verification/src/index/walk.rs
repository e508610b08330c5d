//! Which entries of a workspace walk are indexed.
use vstd::prelude::*;

use crate::text::{chars_of, str_eq};

verus! {

/// Directory names the walk does not descend into: `target`, and every
/// hidden name (`.git` among them).
pub open spec fn skipped_dir_name(name: Seq<char>) -> bool {
    name == "target"@ || (name.len() > 0 && name[0] == '.')
}

/// Whether the walk keeps an entry met at `depth` below the root: files
/// always, directories unless their name is skipped.  The root itself
/// (depth 0) is always walked, whatever it is called (`.` included).
pub fn keep_walk_entry(name: &str, is_dir: bool, depth: usize) -> (r: bool)
    ensures
        r == (depth == 0 || !is_dir || !skipped_dir_name(name@)),
        r == !(depth > 0 && is_dir && (name@ == "target"@ || (name@.len() > 0 && name@[0] == '.'))),
{
    if depth == 0 || !is_dir {
        return true;
    }
    let cs = chars_of(name);
    if cs.len() > 0 && cs[0] == '.' {
        return false;
    }
    let owned = name.to_owned();
    let target = "target".to_owned();
    !str_eq(&owned, &target)
}

/// Below the root, a directory is skipped exactly when it is `target` or
/// hidden; every other directory (`src`, `tests`, `benches`, `examples`, ...)
/// is walked, and a file is never skipped for its name.
pub proof fn lemma_walk_skips_only_target_and_hidden(name: Seq<char>, is_dir: bool, depth: usize)
    requires
        depth > 0,
    ensures
        (depth == 0 || !is_dir || !skipped_dir_name(name)) <==> !(is_dir && (name == "target"@ || (
        name.len() > 0 && name[0] == '.'))),
{
}

/// The directories a Rust repository keeps its sources in are walked.
pub proof fn lemma_source_dirs_walked(name: Seq<char>)
    requires
        name == "src"@ || name == "tests"@ || name == "benches"@ || name == "examples"@,
    ensures
        !skipped_dir_name(name),
{
    reveal_strlit("src");
    reveal_strlit("tests");
    reveal_strlit("benches");
    reveal_strlit("examples");
    reveal_strlit("target");
    if name == "target"@ {
        assert(name.len() == 6);
        assert(name[0] == 't' && name[1] == 'a');
    }
}

/// A file name whose extension, as `Path::extension` reads it, is `rs`:
/// something before a final `.rs`.
pub open spec fn is_rust_file_name(name: Seq<char>) -> bool {
    name.len() > 3 && name.subrange(name.len() - 3, name.len() as int) == ".rs"@
}

/// Whether a walked file is a Rust source file, by its name.
pub fn is_rust_file(name: &str) -> (r: bool)
    ensures
        r == is_rust_file_name(name@),
{
    let cs = chars_of(name);
    let n = cs.len();
    proof {
        reveal_strlit(".rs");
    }
    if n <= 3 {
        return false;
    }
    let r = cs[n - 3] == '.' && cs[n - 2] == 'r' && cs[n - 1] == 's';
    proof {
        let tail = name@.subrange(n - 3, n as int);
        if r {
            assert(tail =~= ".rs"@);
        } else if tail == ".rs"@ {
            assert(tail[0] == cs@[n - 3] && tail[1] == cs@[n - 2] && tail[2] == cs@[n - 1]);
        }
    }
    r
}

} // verus!
