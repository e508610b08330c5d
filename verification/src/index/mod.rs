//! The in-memory cross-file symbol index.
pub mod model;
pub mod parse;
pub mod walk;

use vstd::prelude::*;

use crate::lemmas::{lemma_filter_from, lemma_filter_take_step, lemma_take_full};
use crate::index::model::{spec_kind_name, SymbolDef, SymbolKind, SymbolRef};
use crate::index::parse::{
    def_ok, extract_ok, is_def_tag, spec_item_nodes, spec_rust_tags, tag_ok, tagger_error,
    ExtractError, RustTagger, TagView, TaggerError,
};
use crate::text::{
    lemma_path_str_total, lemma_path_str_transitive, path_less, path_str_lt, path_ends_with, seq_contains, spec_file_stem,
    lowercase, str_eq, contains_ignoring_case, file_stem, sort_dedup,
    strictly_sorted, views, ends_with_component,
};

verus! {

/// All definitions and references extracted from a single file.
pub struct FileTags {
    pub defs: Vec<SymbolDef>,
    pub refs: Vec<SymbolRef>,
}

/// Aggregate statistics returned by [`SymbolIndex::stats`].
#[derive(Debug)]
pub struct RepoStats {
    pub file_count: usize,
    pub def_count: usize,
    pub ref_count: usize,
    /// Per-kind counts as `(kind_name, count)` sorted by count descending.
    pub by_kind: Vec<(String, usize)>,
    /// Module names (`mod` defs), or file stems if no `Mod`-kind defs exist.
    pub modules: Vec<String>,
}

/// The stored contents of an index; its invariant holds at all times.
struct IndexData {
    /// One entry per file path; no path occurs twice.
    tags_by_file: Vec<(String, FileTags)>,
    /// Every definition, ordered by (file, line).
    all_defs: Vec<SymbolDef>,
    /// Every reference, in the order the files were added.
    all_refs: Vec<SymbolRef>,
}

/// In-memory cross-file symbol index built from a Rust workspace.
pub struct SymbolIndex {
    pub repo_root: String,
    data: IndexData,
}

/// The outcome of resolving a name, with optional file/line disambiguators,
/// to one definition.
#[derive(Debug)]
pub enum SymbolResolution<'a> {
    NotFound,
    Resolved(&'a SymbolDef),
    Ambiguous(Vec<&'a SymbolDef>),
}

// ── Specifications ──────────────────────────────────────────────────────────

/// `a` comes no later than `b` in (file, line) order, files in path order.
pub open spec fn def_before(a: SymbolDef, b: SymbolDef) -> bool {
    path_str_lt(a.location.file@, b.location.file@) || (a.location.file@ == b.location.file@
        && a.location.line <= b.location.line)
}

/// `s` is ordered by (file, line).
pub open spec fn sorted_by_location(s: Seq<SymbolDef>) -> bool {
    forall|i: int, j: int| 0 <= i < j < s.len() ==> def_before(#[trigger] s[i], #[trigger] s[j])
}

/// The plain contents of one file's tags.
pub open spec fn tags_view(t: FileTags) -> (Seq<SymbolDef>, Seq<SymbolRef>) {
    (t.defs@, t.refs@)
}

/// Path → tags, where a later entry for a path replaces an earlier one.
pub open spec fn entries_map(e: Seq<(String, FileTags)>) -> Map<
    Seq<char>,
    (Seq<SymbolDef>, Seq<SymbolRef>),
>
    decreases e.len(),
{
    if e.len() == 0 {
        Map::empty()
    } else {
        entries_map(e.drop_last()).insert(e.last().0@, tags_view(e.last().1))
    }
}

/// The definitions of all entries, in entry order.
pub open spec fn entries_defs(e: Seq<(String, FileTags)>) -> Seq<SymbolDef>
    decreases e.len(),
{
    if e.len() == 0 {
        Seq::empty()
    } else {
        entries_defs(e.drop_last()) + e.last().1.defs@
    }
}

/// The references of all entries, in entry order.
pub open spec fn entries_refs(e: Seq<(String, FileTags)>) -> Seq<SymbolRef>
    decreases e.len(),
{
    if e.len() == 0 {
        Seq::empty()
    } else {
        entries_refs(e.drop_last()) + e.last().1.refs@
    }
}

/// No path occurs twice among the entries.
pub open spec fn unique_paths(e: Seq<(String, FileTags)>) -> bool {
    forall|i: int, j: int| 0 <= i < j < e.len() ==> (#[trigger] e[i]).0@ != (#[trigger] e[j]).0@
}

/// `d` is named `name`.
pub open spec fn named(d: SymbolDef, name: Seq<char>) -> bool {
    d.name@ == name
}

/// The filter that `search_symbols` applies: case-insensitive substring on
/// the name and exact kind, both optional, ANDed.
pub open spec fn search_matches(
    d: SymbolDef,
    name_substr: Option<Seq<char>>,
    kind: Option<SymbolKind>,
) -> bool {
    &&& (name_substr matches Some(sub) ==> seq_contains(
        lowercase(d.name@),
        lowercase(sub),
    ))
    &&& (kind matches Some(k) ==> d.kind == k)
}

/// Some reference in `refs` is named `name`.
pub open spec fn is_referenced(refs: Seq<SymbolRef>, name: Seq<char>) -> bool {
    exists|i: int| 0 <= i < refs.len() && (#[trigger] refs[i]).name@ == name
}

/// Number of definitions of kind `k`.
pub open spec fn kind_count(defs: Seq<SymbolDef>, k: SymbolKind) -> nat {
    defs.filter(|d: SymbolDef| d.kind == k).len()
}

/// The stem of some indexed file path.
pub open spec fn is_file_stem_of(paths: Set<Seq<char>>, s: Seq<char>) -> bool {
    exists|p: Seq<char>| paths.contains(p) && spec_file_stem(p) == Some(s)
}

/// `line` lies within the definition's inclusive line range.
pub open spec fn covers_line(d: SymbolDef, line: nat) -> bool {
    d.line_range.0 <= line <= d.line_range.1
}

/// The candidates that survive the optional disambiguators: `file` must match
/// the end of the definition's path; `line` is consulted only with `file`.
pub open spec fn narrow(
    cands: Seq<SymbolDef>,
    file: Option<Seq<char>>,
    line: Option<usize>,
) -> Seq<SymbolDef> {
    match file {
        None => cands,
        Some(f) => {
            let by_file = cands.filter(|d: SymbolDef| path_ends_with(d.location.file@, f));
            match line {
                None => by_file,
                Some(l) => by_file.filter(|d: SymbolDef| covers_line(d, l as nat)),
            }
        },
    }
}

impl IndexData {
    #[verifier::type_invariant]
    spec fn inv(self) -> bool {
        &&& sorted_by_location(self.all_defs@)
        &&& unique_paths(self.tags_by_file@)
    }
}

impl SymbolIndex {
    /// The root of the indexed workspace.
    pub closed spec fn root(&self) -> String {
        self.repo_root
    }

    /// The root of the indexed workspace.
    pub fn repo_root(&self) -> (r: &String)
        ensures
            *r == self.root(),
    {
        &self.repo_root
    }

    /// Every definition, ordered by (file, line).
    pub closed spec fn defs(&self) -> Seq<SymbolDef> {
        self.data.all_defs@
    }

    /// Every reference, in the order the files were added.
    pub closed spec fn refs(&self) -> Seq<SymbolRef> {
        self.data.all_refs@
    }

    /// Path → that file's definitions and references.
    pub closed spec fn tags_map(&self) -> Map<Seq<char>, (Seq<SymbolDef>, Seq<SymbolRef>)> {
        entries_map(self.data.tags_by_file@)
    }
}

// ── Lemmas ──────────────────────────────────────────────────────────────────

proof fn lemma_def_before_total(a: SymbolDef, b: SymbolDef)
    ensures
        def_before(a, b) || def_before(b, a),
{
    lemma_path_str_total(a.location.file@, b.location.file@);
}

proof fn lemma_def_before_transitive(a: SymbolDef, b: SymbolDef, c: SymbolDef)
    requires
        def_before(a, b),
        def_before(b, c),
    ensures
        def_before(a, c),
{
    let (fa, fb, fc) = (a.location.file@, b.location.file@, c.location.file@);
    if path_str_lt(fa, fb) && path_str_lt(fb, fc) {
        lemma_path_str_transitive(fa, fb, fc);
    }
}

/// Inside a map built from entries with unique paths, each entry is found
/// under its own path.
proof fn lemma_entries_map_at(e: Seq<(String, FileTags)>, i: int)
    requires
        unique_paths(e),
        0 <= i < e.len(),
    ensures
        entries_map(e).contains_key(e[i].0@),
        entries_map(e)[e[i].0@] == tags_view(e[i].1),
    decreases e.len(),
{
    if i < e.len() - 1 {
        lemma_entries_map_at(e.drop_last(), i);
        assert(e.drop_last()[i] == e[i]);
        assert(e[i].0@ != e[e.len() - 1].0@);
    }
}

/// The keys of an entries map are exactly the entries' paths.
proof fn lemma_entries_map_keys(e: Seq<(String, FileTags)>, p: Seq<char>)
    ensures
        entries_map(e).contains_key(p) <==> exists|i: int|
            0 <= i < e.len() && (#[trigger] e[i]).0@ == p,
    decreases e.len(),
{
    if e.len() > 0 {
        lemma_entries_map_keys(e.drop_last(), p);
        if entries_map(e.drop_last()).contains_key(p) {
            let i = choose|i: int| 0 <= i < e.drop_last().len() && (#[trigger] e.drop_last()[i]).0@ == p;
            assert(e[i] == e.drop_last()[i]);
        }
        if exists|i: int| 0 <= i < e.len() && (#[trigger] e[i]).0@ == p {
            let i = choose|i: int| 0 <= i < e.len() && (#[trigger] e[i]).0@ == p;
            if i < e.len() - 1 {
                assert(e.drop_last()[i] == e[i]);
            }
        }
    }
}

/// Replacing the entry at `i` with one for the same path updates the map at
/// that path.
proof fn lemma_entries_map_update(e: Seq<(String, FileTags)>, i: int, x: (String, FileTags))
    requires
        unique_paths(e),
        0 <= i < e.len(),
        x.0@ == e[i].0@,
    ensures
        entries_map(e.update(i, x)) == entries_map(e).insert(x.0@, tags_view(x.1)),
    decreases e.len(),
{
    let u = e.update(i, x);
    if i == e.len() - 1 {
        assert(u.drop_last() =~= e.drop_last());
        assert(entries_map(u) =~= entries_map(e).insert(x.0@, tags_view(x.1)));
    } else {
        assert(u.drop_last() =~= e.drop_last().update(i, x));
        assert(unique_paths(e.drop_last())) by {
            assert forall|a: int, b: int| 0 <= a < b < e.drop_last().len() implies (
            #[trigger] e.drop_last()[a]).0@ != (#[trigger] e.drop_last()[b]).0@ by {
                assert(e.drop_last()[a] == e[a]);
                assert(e.drop_last()[b] == e[b]);
            }
        }
        lemma_entries_map_update(e.drop_last(), i, x);
        assert(e[i].0@ != e.last().0@);
        assert(entries_map(u) =~= entries_map(e).insert(x.0@, tags_view(x.1)));
    }
}

// ── Construction ────────────────────────────────────────────────────────────

/// `out` is `inp` sorted by (file, line), stably: `perm` maps each position
/// of `out` to a distinct position of `inp` holding the same definition, and
/// definitions at the same file and line keep their order in `inp`.
pub open spec fn stably_sorted_defs(out: Seq<SymbolDef>, inp: Seq<SymbolDef>, perm: Seq<int>) -> bool {
    &&& perm.len() == inp.len()
    &&& out.len() == inp.len()
    &&& forall|i: int| 0 <= i < perm.len() ==> 0 <= #[trigger] perm[i] < inp.len()
    &&& forall|i: int, j: int| 0 <= i < j < perm.len() ==> #[trigger] perm[i] != #[trigger] perm[j]
    &&& forall|i: int| 0 <= i < out.len() ==> #[trigger] out[i] == inp[perm[i]]
    &&& sorted_by_location(out)
    &&& forall|i: int, j: int|
        0 <= i < j < out.len() && def_before(#[trigger] out[j], #[trigger] out[i]) ==> perm[i] < perm[j]
}

/// Insert `x`, the input's definition at `k`, after every element that comes
/// no later than it.
#[verifier::spinoff_prover]
fn insert_by_location(
    out: &mut Vec<SymbolDef>,
    x: SymbolDef,
    Ghost(inp): Ghost<Seq<SymbolDef>>,
    Ghost(perm): Ghost<Seq<int>>,
    Ghost(k): Ghost<int>,
) -> (new_perm: Ghost<Seq<int>>)
    requires
        0 <= k < inp.len(),
        inp[k] == x,
        stably_sorted_defs(old(out)@, inp.take(k), perm),
    ensures
        stably_sorted_defs(final(out)@, inp.take(k + 1), new_perm@),
        final(out)@.to_multiset() == old(out)@.to_multiset().insert(x),
{
    let ghost before = out@;
    let mut p: usize = 0;
    while p < out.len() && location_before(&out[p], &x)
        invariant
            p <= out.len(),
            out@ == before,
            forall|m: int| 0 <= m < p ==> def_before(#[trigger] before[m], x),
        decreases out.len() - p,
    {
        p = p + 1;
    }
    proof {
        if p < before.len() {
            lemma_def_before_total(before[p as int], x);
        }
    }
    out.insert(p, x);
    let ghost np = perm.insert(p as int, k);
    proof {
        let after = out@;
        let ik = inp.take(k + 1);
        before.insert_ensures(p as int, x);
        perm.insert_ensures(p as int, k);
        assert forall|m: int| p <= m < before.len() implies def_before(x, #[trigger] before[m])
            && !def_before(before[m], x) by {
            if m > p {
                assert(def_before(before[p as int], before[m]));
                if def_before(before[m], x) {
                    lemma_def_before_transitive(before[p as int], before[m], x);
                }
                lemma_def_before_transitive(x, before[p as int], before[m]);
            }
        }
        assert forall|i: int| 0 <= i < np.len() implies 0 <= #[trigger] np[i] < ik.len() by {
            if i < p {
                assert(np[i] == perm[i]);
            } else if i > p {
                assert(np[i] == perm[i - 1]);
            }
        }
        assert forall|i: int, j: int| 0 <= i < j < np.len() implies #[trigger] np[i] != #[trigger] np[j] by {
            let bi = if i < p { i } else { i - 1 };
            let bj = if j < p { j } else { j - 1 };
            if i != p {
                assert(np[i] == perm[bi]);
            }
            if j != p {
                assert(np[j] == perm[bj]);
            }
        }
        assert forall|i: int| 0 <= i < after.len() implies #[trigger] after[i] == ik[np[i]] by {
            if i < p {
                assert(np[i] == perm[i]);
                assert(after[i] == before[i]);
                assert(inp.take(k)[perm[i]] == ik[perm[i]]);
            } else if i > p {
                assert(np[i] == perm[i - 1]);
                assert(after[i] == before[i - 1]);
                assert(inp.take(k)[perm[i - 1]] == ik[perm[i - 1]]);
            }
        }
        assert forall|i: int, j: int| 0 <= i < j < after.len() implies def_before(#[trigger] after[i], #[trigger] after[j]) by {
            if i < p && j > p {
                assert(def_before(before[i], x));
                assert(def_before(x, before[j - 1]));
                lemma_def_before_transitive(before[i], x, before[j - 1]);
            } else if i == p {
                assert(def_before(x, before[j - 1]));
            } else if i > p {
                assert(def_before(before[i - 1], before[j - 1]));
            }
        }
        assert forall|i: int, j: int| 0 <= i < j < after.len() && def_before(#[trigger] after[j], #[trigger] after[i]) implies np[i] < np[j] by {
            if j == p {
                assert(np[i] == perm[i]);
            } else if i == p {
                assert(!def_before(before[j - 1], x));
            } else {
                let bi = if i < p { i } else { i - 1 };
                let bj = if j < p { j } else { j - 1 };
                if i < p {
                    assert(np[i] == perm[i]);
                } else {
                    assert(np[i] == perm[i - 1]);
                }
                assert(np[j] == perm[bj]);
                assert(after[i] == before[bi]);
                assert(after[j] == before[bj]);
            }
        }
        vstd::seq_lib::to_multiset_insert(before, p as int, x);
    }
    Ghost(np)
}

/// Whether `a` comes no later than `b` in (file, line) order.
fn location_before(a: &SymbolDef, b: &SymbolDef) -> (r: bool)
    ensures
        r == def_before(*a, *b),
{
    if path_less(a.location.file.as_str(), b.location.file.as_str()) {
        true
    } else if str_eq(&a.location.file, &b.location.file) {
        a.location.line <= b.location.line
    } else {
        false
    }
}

impl SymbolIndex {
    /// Build an index from already-extracted per-file tags, in the order
    /// given. Definitions are kept ordered by (file, line); references keep
    /// the order of the entries; a later entry for a path replaces an
    /// earlier one in the per-file map.
    pub fn from_file_tags(repo_root: String, entries: Vec<(String, FileTags)>) -> (idx: SymbolIndex)
        ensures
            idx.root() == repo_root,
            idx.defs().to_multiset() == entries_defs(entries@).to_multiset(),
            exists|perm: Seq<int>| #[trigger] stably_sorted_defs(idx.defs(), entries_defs(entries@), perm),
            idx.refs() == entries_refs(entries@),
            idx.tags_map() == entries_map(entries@),
    {
        let ghost all = entries@;
        let n = entries.len();
        let mut tags_by_file: Vec<(String, FileTags)> = Vec::new();
        let mut all_defs: Vec<SymbolDef> = Vec::new();
        let mut all_refs: Vec<SymbolRef> = Vec::new();
        let mut done: usize = 0;
        let mut rest = entries;
        // Take entries from the front by reversing once.
        let mut queue: Vec<(String, FileTags)> = Vec::new();
        assert(all.take(all.len() as int) =~= all);
        assert(all.skip(all.len() as int).reverse() =~= Seq::<(String, FileTags)>::empty());
        while rest.len() > 0
            invariant
                rest.len() <= n,
                n == all.len(),
                rest@ == all.take(rest.len() as int),
                queue@ == all.skip(rest.len() as int).reverse(),
            decreases rest.len(),
        {
            let ghost m = rest.len() as int;
            let e = rest.pop().unwrap();
            queue.push(e);
            proof {
                assert(rest@ =~= all.take(m - 1));
                assert(all.skip(m - 1).reverse() =~= all.skip(m).reverse().push(all[m - 1]));
            }
        }
        assert(all.skip(0) =~= all);
        assert(entries_defs(all.take(0)) =~= Seq::<SymbolDef>::empty());
        let ghost mut perm: Seq<int> = Seq::empty();
        assert(stably_sorted_defs(all_defs@, entries_defs(all.take(0)), perm));
        assert(entries_refs(all.take(0)) =~= Seq::<SymbolRef>::empty());
        assert(entries_map(all.take(0)) =~= Map::empty());
        while queue.len() > 0
            invariant
                n == all.len(),
                done + queue.len() == n,
                queue@ == all.skip(done as int).reverse(),
                sorted_by_location(all_defs@),
                all_defs@.to_multiset() == entries_defs(all.take(done as int)).to_multiset(),
                stably_sorted_defs(all_defs@, entries_defs(all.take(done as int)), perm),
                all_refs@ == entries_refs(all.take(done as int)),
                unique_paths(tags_by_file@),
                entries_map(tags_by_file@) == entries_map(all.take(done as int)),
            decreases queue.len(),
        {
            let ghost q = queue@;
            let (path, tags) = queue.pop().unwrap();
            proof {
                assert(q.last() == all[done as int]);
                assert(queue@ =~= all.skip(done + 1).reverse());
                assert(all.take(done + 1).drop_last() =~= all.take(done as int));
            }
            let ghost defs_before = all_defs@;
            let ghost prefix = entries_defs(all.take(done as int));
            let ghost inp = prefix + tags.defs@;
            assert(inp.take(prefix.len() as int) =~= prefix + tags.defs@.take(0));
            let mut k: usize = 0;
            while k < tags.defs.len()
                invariant
                    k <= tags.defs.len(),
                    sorted_by_location(all_defs@),
                    all_defs@.to_multiset() == (defs_before + tags.defs@.take(k as int)).to_multiset(),
                    inp == prefix + tags.defs@,
                    stably_sorted_defs(all_defs@, prefix + tags.defs@.take(k as int), perm),
                decreases tags.defs.len() - k,
            {
                let d = tags.defs[k].clone();
                proof {
                    assert(inp.take(prefix.len() + k) =~= prefix + tags.defs@.take(k as int));
                    assert(inp[prefix.len() + k] == tags.defs@[k as int]);
                }
                let Ghost(np) = insert_by_location(&mut all_defs, d, Ghost(inp), Ghost(perm), Ghost(prefix.len() + k));
                proof {
                    perm = np;
                    assert(inp.take(prefix.len() + k + 1) =~= prefix + tags.defs@.take(k + 1));
                    assert((defs_before + tags.defs@.take(k + 1)) =~= (defs_before + tags.defs@.take(
                        k as int,
                    )).push(tags.defs@[k as int]));
                    vstd::seq_lib::to_multiset_build(
                        defs_before + tags.defs@.take(k as int),
                        tags.defs@[k as int],
                    );
                }
                k = k + 1;
            }
            proof {
                assert(tags.defs@.take(tags.defs.len() as int) =~= tags.defs@);
                assert(entries_defs(all.take(done + 1)) =~= entries_defs(all.take(done as int))
                    + tags.defs@);
                assert(prefix + tags.defs@.take(tags.defs.len() as int) =~= entries_defs(all.take(done + 1)));
                vstd::seq_lib::lemma_multiset_commutative(defs_before, tags.defs@);
                vstd::seq_lib::lemma_multiset_commutative(
                    entries_defs(all.take(done as int)),
                    tags.defs@,
                );
            }
            let ghost refs_before = all_refs@;
            let mut k: usize = 0;
            while k < tags.refs.len()
                invariant
                    k <= tags.refs.len(),
                    all_refs@ == refs_before + tags.refs@.take(k as int),
                decreases tags.refs.len() - k,
            {
                all_refs.push(tags.refs[k].clone());
                proof {
                    assert(refs_before + tags.refs@.take(k + 1) =~= (refs_before + tags.refs@.take(
                        k as int,
                    )).push(tags.refs@[k as int]));
                }
                k = k + 1;
            }
            proof {
                assert(tags.refs@.take(tags.refs.len() as int) =~= tags.refs@);
            }
            // Replace an existing entry for the same path, or add one.
            let mut j: usize = 0;
            let mut found = false;
            while !found && j < tags_by_file.len()
                invariant
                    j <= tags_by_file.len(),
                    found ==> j < tags_by_file.len() && tags_by_file@[j as int].0@ == path@,
                    !found ==> forall|i: int| 0 <= i < j ==> (#[trigger] tags_by_file@[i]).0@ != path@,
                decreases tags_by_file.len() - j + (if found { 0int } else { 1int }),
            {
                if str_eq(&tags_by_file[j].0, &path) {
                    found = true;
                } else {
                    j = j + 1;
                }
            }
            let ghost old_tbf = tags_by_file@;
            let ghost entry = (path, tags);
            if found {
                tags_by_file.set(j, (path, tags));
                proof {
                    lemma_entries_map_update(old_tbf, j as int, entry);
                    assert forall|a: int, b: int| 0 <= a < b < tags_by_file@.len() implies (
                    #[trigger] tags_by_file@[a]).0@ != (#[trigger] tags_by_file@[b]).0@ by {
                        assert(old_tbf[a].0@ != old_tbf[b].0@);
                    }
                }
            } else {
                tags_by_file.push((path, tags));
                proof {
                    assert(tags_by_file@.drop_last() =~= old_tbf);
                }
            }
            proof {
                assert(entries_map(all.take(done + 1)) == entries_map(all.take(done as int)).insert(
                    entry.0@,
                    tags_view(entry.1),
                ));
            }
            done = done + 1;
        }
        assert(all.take(all.len() as int) =~= all);
        SymbolIndex {
            repo_root,
            data: IndexData { tags_by_file, all_defs, all_refs },
        }
    }
}

// ── Queries ─────────────────────────────────────────────────────────────────

/// The definitions a list of references points at.
pub open spec fn derefs(v: Seq<&SymbolDef>) -> Seq<SymbolDef> {
    v.map_values(|r: &SymbolDef| *r)
}

/// The references a list of references points at.
pub open spec fn ref_derefs(v: Seq<&SymbolRef>) -> Seq<SymbolRef> {
    v.map_values(|r: &SymbolRef| *r)
}

/// The characters of an optional string.
pub open spec fn opt_view(o: Option<&str>) -> Option<Seq<char>> {
    match o {
        Some(s) => Some(s@),
        None => None,
    }
}

proof fn lemma_derefs_push(v: Seq<&SymbolDef>, x: &SymbolDef)
    ensures
        derefs(v.push(x)) == derefs(v).push(*x),
{
    assert(derefs(v.push(x)) =~= derefs(v).push(*x));
}

proof fn lemma_ref_derefs_push(v: Seq<&SymbolRef>, x: &SymbolRef)
    ensures
        ref_derefs(v.push(x)) == ref_derefs(v).push(*x),
{
    assert(ref_derefs(v.push(x)) =~= ref_derefs(v).push(*x));
}

/// Filtering keeps (file, line) order.
proof fn lemma_filter_sorted(s: Seq<SymbolDef>, p: spec_fn(SymbolDef) -> bool)
    requires
        sorted_by_location(s),
    ensures
        sorted_by_location(s.filter(p)),
    decreases s.len(),
{
    reveal_with_fuel(Seq::filter, 1);
    if s.len() > 0 {
        let rest = s.drop_last();
        assert(sorted_by_location(rest)) by {
            assert forall|i: int, j: int| 0 <= i < j < rest.len() implies def_before(
                #[trigger] rest[i],
                #[trigger] rest[j],
            ) by {
                assert(rest[i] == s[i] && rest[j] == s[j]);
            }
        }
        lemma_filter_sorted(rest, p);
        if p(s.last()) {
            let f = rest.filter(p);
            broadcast use vstd::seq_lib::group_filter_ensures;

            assert forall|i: int, j: int| 0 <= i < j < f.push(s.last()).len() implies def_before(
                #[trigger] f.push(s.last())[i],
                #[trigger] f.push(s.last())[j],
            ) by {
                if j == f.len() {
                    lemma_filter_from(rest, p, i);
                    let k = choose|k: int| 0 <= k < rest.len() && rest[k] == f[i];
                    assert(s[k] == f[i]);
                    assert(def_before(s[k], s[s.len() - 1]));
                } else {
                    assert(f.push(s.last())[i] == f[i]);
                    assert(f.push(s.last())[j] == f[j]);
                }
            }
        }
    }
}

/// Whether `name` equals `s`.
fn string_is(s: &String, name: &String) -> (r: bool)
    ensures
        r == (s@ == name@),
{
    str_eq(s, name)
}

impl SymbolIndex {
    /// Filter all defs by optional case-insensitive name substring and/or
    /// exact kind match.  Both filters are ANDed.  The result is ordered by
    /// (file, line).
    pub fn search_symbols(&self, name_substr: Option<&str>, kind: Option<SymbolKind>) -> (res: Vec<
        &SymbolDef,
    >)
        ensures
            derefs(res@) == self.defs().filter(
                |d: SymbolDef| search_matches(d, opt_view(name_substr), kind),
            ),
            sorted_by_location(derefs(res@)),
    {
        proof {
            use_type_invariant(&self.data);
        }
        let ghost pred = |d: SymbolDef| search_matches(d, opt_view(name_substr), kind);
        let defs = &self.data.all_defs;
        let mut out: Vec<&SymbolDef> = Vec::new();
        let mut i: usize = 0;
        while i < defs.len()
            invariant
                i <= defs.len(),
                defs@ == self.defs(),
                pred == (|d: SymbolDef| search_matches(d, opt_view(name_substr), kind)),
                derefs(out@) == defs@.take(i as int).filter(pred),
            decreases defs.len() - i,
        {
            let d = &defs[i];
            let name_ok = match name_substr {
                Some(sub) => contains_ignoring_case(d.name.as_str(), sub),
                None => true,
            };
            let kind_ok = match &kind {
                Some(k) => d.kind.same(k),
                None => true,
            };
            proof {
                lemma_filter_take_step(defs@, pred, i as int);
                lemma_derefs_push(out@, d);
            }
            if name_ok && kind_ok {
                out.push(d);
            }
            i = i + 1;
        }
        proof {
            lemma_take_full(defs@);
            lemma_filter_sorted(defs@, pred);
        }
        out
    }

    /// All call-site references recorded for `name` (exact match), in the
    /// order the files were added.
    pub fn find_references(&self, name: &str) -> (res: Vec<&SymbolRef>)
        ensures
            ref_derefs(res@) == self.refs().filter(|r: SymbolRef| r.name@ == name@),
    {
        let ghost pred = |r: SymbolRef| r.name@ == name@;
        let target = name.to_owned();
        let refs = &self.data.all_refs;
        let mut out: Vec<&SymbolRef> = Vec::new();
        let mut i: usize = 0;
        while i < refs.len()
            invariant
                i <= refs.len(),
                refs@ == self.refs(),
                target@ == name@,
                pred == (|r: SymbolRef| r.name@ == name@),
                ref_derefs(out@) == refs@.take(i as int).filter(pred),
            decreases refs.len() - i,
        {
            let r = &refs[i];
            proof {
                lemma_filter_take_step(refs@, pred, i as int);
                lemma_ref_derefs_push(out@, r);
            }
            if string_is(&r.name, &target) {
                out.push(r);
            }
            i = i + 1;
        }
        proof {
            lemma_take_full(refs@);
        }
        out
    }

    /// All definitions recorded for `name` (exact match), ordered by
    /// (file, line).  Empty when the name is absent.
    pub fn definitions(&self, name: &str) -> (res: Vec<&SymbolDef>)
        ensures
            derefs(res@) == self.defs().filter(|d: SymbolDef| named(d, name@)),
    {
        let ghost pred = |d: SymbolDef| named(d, name@);
        let target = name.to_owned();
        let defs = &self.data.all_defs;
        let mut out: Vec<&SymbolDef> = Vec::new();
        let mut i: usize = 0;
        while i < defs.len()
            invariant
                i <= defs.len(),
                defs@ == self.defs(),
                target@ == name@,
                pred == (|d: SymbolDef| named(d, name@)),
                derefs(out@) == defs@.take(i as int).filter(pred),
            decreases defs.len() - i,
        {
            let d = &defs[i];
            proof {
                lemma_filter_take_step(defs@, pred, i as int);
                lemma_derefs_push(out@, d);
            }
            if string_is(&d.name, &target) {
                out.push(d);
            }
            i = i + 1;
        }
        proof {
            lemma_take_full(defs@);
        }
        out
    }

    /// Whether some reference is named `name`.
    fn has_reference(&self, name: &String) -> (r: bool)
        ensures
            r == is_referenced(self.refs(), name@),
    {
        let refs = &self.data.all_refs;
        let mut i: usize = 0;
        while i < refs.len()
            invariant
                i <= refs.len(),
                refs@ == self.refs(),
                forall|k: int| 0 <= k < i ==> (#[trigger] refs@[k]).name@ != name@,
            decreases refs.len() - i,
        {
            if string_is(&refs[i].name, name) {
                return true;
            }
            i = i + 1;
        }
        false
    }

    /// Definitions whose name no reference carries: candidate dead code.
    /// Ordered by (file, line).
    pub fn unreferenced_defs(&self) -> (res: Vec<&SymbolDef>)
        ensures
            derefs(res@) == self.defs().filter(
                |d: SymbolDef| !is_referenced(self.refs(), d.name@),
            ),
    {
        let ghost pred = |d: SymbolDef| !is_referenced(self.refs(), d.name@);
        let defs = &self.data.all_defs;
        let mut out: Vec<&SymbolDef> = Vec::new();
        let mut i: usize = 0;
        while i < defs.len()
            invariant
                i <= defs.len(),
                defs@ == self.defs(),
                pred == (|d: SymbolDef| !is_referenced(self.refs(), d.name@)),
                derefs(out@) == defs@.take(i as int).filter(pred),
            decreases defs.len() - i,
        {
            let d = &defs[i];
            proof {
                lemma_filter_take_step(defs@, pred, i as int);
                lemma_derefs_push(out@, d);
            }
            if !self.has_reference(&d.name) {
                out.push(d);
            }
            i = i + 1;
        }
        proof {
            lemma_take_full(defs@);
        }
        out
    }

    /// Per-file tags for `file`, if that file was indexed.
    pub fn file_tags(&self, file: &str) -> (res: Option<&FileTags>)
        ensures
            match res {
                Some(t) => self.tags_map().contains_key(file@) && self.tags_map()[file@]
                    == tags_view(*t),
                None => !self.tags_map().contains_key(file@),
            },
    {
        proof {
            use_type_invariant(&self.data);
        }
        let target = file.to_owned();
        let tbf = &self.data.tags_by_file;
        let mut i: usize = 0;
        while i < tbf.len()
            invariant
                i <= tbf.len(),
                tbf@ == self.data.tags_by_file@,
                unique_paths(tbf@),
                target@ == file@,
                forall|k: int| 0 <= k < i ==> (#[trigger] tbf@[k]).0@ != file@,
            decreases tbf.len() - i,
        {
            if string_is(&tbf[i].0, &target) {
                proof {
                    lemma_entries_map_at(tbf@, i as int);
                }
                return Some(&tbf[i].1);
            }
            i = i + 1;
        }
        proof {
            lemma_entries_map_keys(tbf@, file@);
        }
        None
    }

    /// The indexed file paths, each once.
    pub fn file_paths(&self) -> (res: Vec<&String>)
        ensures
            forall|p: Seq<char>|
                self.tags_map().contains_key(p) <==> exists|i: int|
                    0 <= i < res@.len() && (#[trigger] res@[i])@ == p,
            forall|i: int, j: int| 0 <= i < j < res@.len() ==> (#[trigger] res@[i])@ != (
            #[trigger] res@[j])@,
    {
        proof {
            use_type_invariant(&self.data);
        }
        let tbf = &self.data.tags_by_file;
        let mut out: Vec<&String> = Vec::new();
        let mut i: usize = 0;
        while i < tbf.len()
            invariant
                i <= tbf.len(),
                tbf@ == self.data.tags_by_file@,
                unique_paths(tbf@),
                out@.len() == i,
                forall|k: int| 0 <= k < i ==> (#[trigger] out@[k])@ == tbf@[k].0@,
            decreases tbf.len() - i,
        {
            out.push(&tbf[i].0);
            i = i + 1;
        }
        proof {
            assert forall|p: Seq<char>| self.tags_map().contains_key(p) <==> exists|i: int|
                0 <= i < out@.len() && (#[trigger] out@[i])@ == p by {
                lemma_entries_map_keys(tbf@, p);
                if self.tags_map().contains_key(p) {
                    let i = choose|i: int| 0 <= i < tbf@.len() && (#[trigger] tbf@[i]).0@ == p;
                    assert(out@[i]@ == p);
                }
                if exists|i: int| 0 <= i < out@.len() && (#[trigger] out@[i])@ == p {
                    let i = choose|i: int| 0 <= i < out@.len() && (#[trigger] out@[i])@ == p;
                    assert(tbf@[i].0@ == p);
                }
            }
            assert forall|i: int, j: int| 0 <= i < j < out@.len() implies (#[trigger] out@[i])@
                != (#[trigger] out@[j])@ by {
                assert(tbf@[i].0@ != tbf@[j].0@);
            }
        }
        out
    }
}

// ── Statistics ──────────────────────────────────────────────────────────────

/// Each entry is the name of a kind in `done` with its positive count.
pub open spec fn kc_valid(out: Seq<(String, usize)>, defs: Seq<SymbolDef>, done: Set<SymbolKind>) -> bool {
    forall|i: int| 0 <= i < out.len() ==> is_kind_entry(#[trigger] out[i], defs, done)
}

/// `e` is the name of a kind in `done` with its positive count.
pub open spec fn is_kind_entry(e: (String, usize), defs: Seq<SymbolDef>, done: Set<SymbolKind>) -> bool {
    exists|k: SymbolKind|
        #[trigger] done.contains(k) && e.0@ == spec_kind_name(k) && e.1 == kind_count(defs, k)
            && e.1 > 0
}

proof fn lemma_kind_entry_grow(e: (String, usize), defs: Seq<SymbolDef>, done: Set<SymbolKind>, k: SymbolKind)
    requires
        is_kind_entry(e, defs, done),
    ensures
        is_kind_entry(e, defs, done.insert(k)),
{
    let kk = choose|kk: SymbolKind|
        #[trigger] done.contains(kk) && e.0@ == spec_kind_name(kk) && e.1 == kind_count(defs, kk)
            && e.1 > 0;
    assert(done.insert(k).contains(kk));
}

/// Every kind in `done` with a positive count has an entry.
pub open spec fn kc_complete(out: Seq<(String, usize)>, defs: Seq<SymbolDef>, done: Set<SymbolKind>) -> bool {
    forall|k: SymbolKind|
        done.contains(k) && kind_count(defs, k) > 0 ==> exists|i: int|
            0 <= i < out.len() && (#[trigger] out[i]).0@ == spec_kind_name(k)
}

/// No name occurs twice.
pub open spec fn kc_distinct(out: Seq<(String, usize)>) -> bool {
    forall|i: int, j: int|
        0 <= i < j < out.len() ==> (#[trigger] out[i]).0@ != (#[trigger] out[j]).0@
}

/// Counts do not increase along the list.
pub open spec fn kc_descending(out: Seq<(String, usize)>) -> bool {
    forall|i: int, j: int| 0 <= i < j < out.len() ==> (#[trigger] out[i]).1 >= (#[trigger] out[j]).1
}

/// The kinds whose counts are in `out` are `done`; each entry is a kind's
/// name with its positive count; names are distinct; counts do not increase.
pub open spec fn kind_counts_ok(
    out: Seq<(String, usize)>,
    defs: Seq<SymbolDef>,
    done: Set<SymbolKind>,
) -> bool {
    &&& kc_valid(out, defs, done)
    &&& kc_complete(out, defs, done)
    &&& kc_distinct(out)
    &&& kc_descending(out)
}

/// The names of the `mod` definitions, in order.
pub open spec fn mod_names(defs: Seq<SymbolDef>) -> Seq<Seq<char>> {
    defs.filter(|d: SymbolDef| d.kind == SymbolKind::Mod).map_values(|d: SymbolDef| d.name@)
}

proof fn lemma_kind_name_injective(a: SymbolKind, b: SymbolKind)
    requires
        a != b,
    ensures
        spec_kind_name(a) != spec_kind_name(b),
{
    reveal_strlit("Fn");
    reveal_strlit("Method");
    reveal_strlit("Struct");
    reveal_strlit("Enum");
    reveal_strlit("Trait");
    reveal_strlit("Impl");
    reveal_strlit("Mod");
    reveal_strlit("Const");
    reveal_strlit("Macro");
    reveal_strlit("Other");
    let (x, y) = (spec_kind_name(a), spec_kind_name(b));
    if x == y {
        assert(x.len() == y.len());
        assert(x[0] == y[0]);
        assert(x[1] == y[1]);
    }
}

/// A map built from entries with unique paths has one key per entry.
proof fn lemma_entries_map_len(e: Seq<(String, FileTags)>)
    requires
        unique_paths(e),
    ensures
        entries_map(e).dom().finite(),
        entries_map(e).dom().len() == e.len(),
    decreases e.len(),
{
    if e.len() > 0 {
        let rest = e.drop_last();
        assert(unique_paths(rest)) by {
            assert forall|a: int, b: int| 0 <= a < b < rest.len() implies (
            #[trigger] rest[a]).0@ != (#[trigger] rest[b]).0@ by {
                assert(rest[a] == e[a] && rest[b] == e[b]);
            }
        }
        lemma_entries_map_len(rest);
        lemma_entries_map_keys(rest, e.last().0@);
        if entries_map(rest).contains_key(e.last().0@) {
            let i = choose|i: int| 0 <= i < rest.len() && (#[trigger] rest[i]).0@ == e.last().0@;
            assert(e[i] == rest[i]);
        }
    }
}

/// Inserting kind `k`'s entry where counts stay descending keeps the
/// statistics well formed.
proof fn lemma_kind_counts_insert(
    before: Seq<(String, usize)>,
    p: int,
    e: (String, usize),
    defs: Seq<SymbolDef>,
    done: Set<SymbolKind>,
    k: SymbolKind,
)
    requires
        kind_counts_ok(before, defs, done),
        !done.contains(k),
        0 <= p <= before.len(),
        e.0@ == spec_kind_name(k),
        e.1 == kind_count(defs, k),
        e.1 > 0,
        forall|m: int| 0 <= m < p ==> (#[trigger] before[m]).1 >= e.1,
        p < before.len() ==> before[p].1 < e.1,
    ensures
        kind_counts_ok(before.insert(p, e), defs, done.insert(k)),
{
    lemma_kc_valid_insert(before, p, e, defs, done, k);
    lemma_kc_complete_insert(before, p, e, defs, done, k);
    lemma_kc_distinct_insert(before, p, e, defs, done, k);
    lemma_kc_descending_insert(before, p, e);
}

proof fn lemma_kc_valid_insert(
    before: Seq<(String, usize)>,
    p: int,
    e: (String, usize),
    defs: Seq<SymbolDef>,
    done: Set<SymbolKind>,
    k: SymbolKind,
)
    requires
        kc_valid(before, defs, done),
        0 <= p <= before.len(),
        e.0@ == spec_kind_name(k),
        e.1 == kind_count(defs, k),
        e.1 > 0,
    ensures
        kc_valid(before.insert(p, e), defs, done.insert(k)),
{
    let after = before.insert(p, e);
    before.insert_ensures(p, e);
    assert forall|i: int| 0 <= i < after.len() implies is_kind_entry(#[trigger] after[i], defs, done.insert(k)) by {
        if i < p {
            assert(after[i] == before[i]);
            lemma_kind_entry_grow(before[i], defs, done, k);
        } else if i > p {
            assert(after[i] == before[i - 1]);
            lemma_kind_entry_grow(before[i - 1], defs, done, k);
        } else {
            assert(after[i].0@ == spec_kind_name(k));
            assert(done.insert(k).contains(k));
        }
    }
}

proof fn lemma_kc_complete_insert(
    before: Seq<(String, usize)>,
    p: int,
    e: (String, usize),
    defs: Seq<SymbolDef>,
    done: Set<SymbolKind>,
    k: SymbolKind,
)
    requires
        kc_complete(before, defs, done),
        0 <= p <= before.len(),
        e.0@ == spec_kind_name(k),
    ensures
        kc_complete(before.insert(p, e), defs, done.insert(k)),
{
    let after = before.insert(p, e);
    before.insert_ensures(p, e);
    assert forall|kk: SymbolKind|
        done.insert(k).contains(kk) && kind_count(defs, kk) > 0 implies exists|i: int|
        0 <= i < after.len() && (#[trigger] after[i]).0@ == spec_kind_name(kk) by {
        if kk == k {
            assert(after[p].0@ == spec_kind_name(kk));
        } else {
            let i = choose|i: int|
                0 <= i < before.len() && (#[trigger] before[i]).0@ == spec_kind_name(kk);
            if i < p {
                assert(after[i] == before[i]);
            } else {
                assert(after[i + 1] == before[i]);
            }
        }
    }
}

proof fn lemma_kc_distinct_insert(
    before: Seq<(String, usize)>,
    p: int,
    e: (String, usize),
    defs: Seq<SymbolDef>,
    done: Set<SymbolKind>,
    k: SymbolKind,
)
    requires
        kc_valid(before, defs, done),
        kc_distinct(before),
        !done.contains(k),
        0 <= p <= before.len(),
        e.0@ == spec_kind_name(k),
    ensures
        kc_distinct(before.insert(p, e)),
{
    let after = before.insert(p, e);
    before.insert_ensures(p, e);
    assert forall|i: int, j: int| 0 <= i < j < after.len() implies (#[trigger] after[i]).0@
        != (#[trigger] after[j]).0@ by {
        if i == p || j == p {
            let o = if i == p { j } else { i };
            let bo = if o < p { o } else { o - 1 };
            assert(after[o] == before[bo]);
            lemma_entry_name_differs(before, bo, defs, done, k);
        } else {
            let bi = if i < p { i } else { i - 1 };
            let bj = if j < p { j } else { j - 1 };
            assert(after[i] == before[bi]);
            assert(after[j] == before[bj]);
        }
    }
}

proof fn lemma_kc_descending_insert(before: Seq<(String, usize)>, p: int, e: (String, usize))
    requires
        kc_descending(before),
        0 <= p <= before.len(),
        forall|m: int| 0 <= m < p ==> (#[trigger] before[m]).1 >= e.1,
        p < before.len() ==> before[p].1 < e.1,
    ensures
        kc_descending(before.insert(p, e)),
{
    let after = before.insert(p, e);
    before.insert_ensures(p, e);
    assert forall|m: int| p <= m < before.len() implies (#[trigger] before[m]).1 < e.1 by {
        if m > p {
            assert(before[p].1 >= before[m].1);
        }
    }
    assert forall|i: int, j: int| 0 <= i < j < after.len() implies (#[trigger] after[i]).1
        >= (#[trigger] after[j]).1 by {
        let bi = if i < p { i } else { i - 1 };
        let bj = if j < p { j } else { j - 1 };
        if i != p {
            assert(after[i] == before[bi]);
        }
        if j != p {
            assert(after[j] == before[bj]);
        }
    }
}

/// Counting a kind with no definitions changes nothing but the set of kinds
/// done.
proof fn lemma_kind_counts_skip(
    out: Seq<(String, usize)>,
    defs: Seq<SymbolDef>,
    done: Set<SymbolKind>,
    k: SymbolKind,
)
    requires
        kind_counts_ok(out, defs, done),
        kind_count(defs, k) == 0,
    ensures
        kind_counts_ok(out, defs, done.insert(k)),
{
    assert forall|i: int| 0 <= i < out.len() implies is_kind_entry(#[trigger] out[i], defs, done.insert(k)) by {
        lemma_kind_entry_grow(out[i], defs, done, k);
    }
    assert forall|kk: SymbolKind|
        done.insert(k).contains(kk) && kind_count(defs, kk) > 0 implies exists|i: int|
        0 <= i < out.len() && (#[trigger] out[i]).0@ == spec_kind_name(kk) by {
        assert(done.contains(kk));
    }
    assert(kc_valid(out, defs, done.insert(k)));
    assert(kc_complete(out, defs, done.insert(k)));
    assert(kc_distinct(out));
    assert(kc_descending(out));
}

/// An existing entry never carries the name of a kind not yet counted.
proof fn lemma_entry_name_differs(
    before: Seq<(String, usize)>,
    i: int,
    defs: Seq<SymbolDef>,
    done: Set<SymbolKind>,
    k: SymbolKind,
)
    requires
        kc_valid(before, defs, done),
        !done.contains(k),
        0 <= i < before.len(),
    ensures
        before[i].0@ != spec_kind_name(k),
{
    assert(is_kind_entry(before[i], defs, done));
    let kk = choose|kk: SymbolKind|
        #[trigger] done.contains(kk) && before[i].0@ == spec_kind_name(kk) && before[i].1
            == kind_count(defs, kk) && before[i].1 > 0;
    lemma_kind_name_injective(k, kk);
}

/// Inserting each kind in turn into the empty set gives every kind.
proof fn lemma_every_kind()
    ensures
        Set::<SymbolKind>::empty().insert(SymbolKind::Fn).insert(SymbolKind::Method).insert(
            SymbolKind::Struct,
        ).insert(SymbolKind::Enum).insert(SymbolKind::Trait).insert(SymbolKind::Impl).insert(
            SymbolKind::Mod,
        ).insert(SymbolKind::Const).insert(SymbolKind::Macro).insert(SymbolKind::Other)
            == Set::<SymbolKind>::full(),
{
    let done = Set::<SymbolKind>::empty().insert(SymbolKind::Fn).insert(SymbolKind::Method).insert(
        SymbolKind::Struct,
    ).insert(SymbolKind::Enum).insert(SymbolKind::Trait).insert(SymbolKind::Impl).insert(
        SymbolKind::Mod,
    ).insert(SymbolKind::Const).insert(SymbolKind::Macro).insert(SymbolKind::Other);
    assert forall|k: SymbolKind| #[trigger] done.contains(k) by {
        match k {
            SymbolKind::Fn => {},
            SymbolKind::Method => {},
            SymbolKind::Struct => {},
            SymbolKind::Enum => {},
            SymbolKind::Trait => {},
            SymbolKind::Impl => {},
            SymbolKind::Mod => {},
            SymbolKind::Const => {},
            SymbolKind::Macro => {},
            SymbolKind::Other => {},
        }
    }
    assert(done =~= Set::full());
}

/// The sum of the counts in `out`.
#[verifier::opaque]
pub open spec fn counts_total(out: Seq<(String, usize)>) -> int
    decreases out.len(),
{
    if out.len() == 0 {
        0
    } else {
        counts_total(out.drop_last()) + out.last().1
    }
}

/// Inserting an entry anywhere adds its count to the total.
proof fn lemma_counts_total_insert(s: Seq<(String, usize)>, p: int, e: (String, usize))
    requires
        0 <= p <= s.len(),
    ensures
        counts_total(s.insert(p, e)) == counts_total(s) + e.1,
    decreases s.len(),
{
    reveal(counts_total);
    let t = s.insert(p, e);
    if p == s.len() {
        assert(t.drop_last() =~= s);
    } else {
        lemma_counts_total_insert(s.drop_last(), p, e);
        assert(t.drop_last() =~= s.drop_last().insert(p, e));
        assert(t.last() == s.last());
    }
}

/// One more definition adds one to the count of its own kind only.
proof fn lemma_kind_count_step(defs: Seq<SymbolDef>, k: SymbolKind)
    requires
        defs.len() > 0,
    ensures
        kind_count(defs, k) == kind_count(defs.drop_last(), k) + (if defs.last().kind == k {
            1int
        } else {
            0int
        }),
{
    reveal_with_fuel(Seq::filter, 1);
}

/// Every definition has exactly one kind, so the counts of all kinds add up
/// to the number of definitions.
proof fn lemma_kind_counts_sum(defs: Seq<SymbolDef>)
    ensures
        kind_count(defs, SymbolKind::Fn) + kind_count(defs, SymbolKind::Method) + kind_count(
            defs,
            SymbolKind::Struct,
        ) + kind_count(defs, SymbolKind::Enum) + kind_count(defs, SymbolKind::Trait) + kind_count(
            defs,
            SymbolKind::Impl,
        ) + kind_count(defs, SymbolKind::Mod) + kind_count(defs, SymbolKind::Const) + kind_count(
            defs,
            SymbolKind::Macro,
        ) + kind_count(defs, SymbolKind::Other) == defs.len(),
    decreases defs.len(),
{
    if defs.len() == 0 {
        reveal_with_fuel(Seq::filter, 1);
    } else {
        lemma_kind_counts_sum(defs.drop_last());
        lemma_kind_count_step(defs, SymbolKind::Fn);
        lemma_kind_count_step(defs, SymbolKind::Method);
        lemma_kind_count_step(defs, SymbolKind::Struct);
        lemma_kind_count_step(defs, SymbolKind::Enum);
        lemma_kind_count_step(defs, SymbolKind::Trait);
        lemma_kind_count_step(defs, SymbolKind::Impl);
        lemma_kind_count_step(defs, SymbolKind::Mod);
        lemma_kind_count_step(defs, SymbolKind::Const);
        lemma_kind_count_step(defs, SymbolKind::Macro);
        lemma_kind_count_step(defs, SymbolKind::Other);
    }
}

impl SymbolIndex {
    /// Number of definitions of kind `k`.
    fn count_kind(&self, k: SymbolKind) -> (c: usize)
        ensures
            c == kind_count(self.defs(), k),
    {
        let ghost pred = |d: SymbolDef| d.kind == k;
        let defs = &self.data.all_defs;
        let mut c: usize = 0;
        let mut i: usize = 0;
        while i < defs.len()
            invariant
                i <= defs.len(),
                defs@ == self.defs(),
                pred == (|d: SymbolDef| d.kind == k),
                c == defs@.take(i as int).filter(pred).len(),
                c <= i,
            decreases defs.len() - i,
        {
            proof {
                lemma_filter_take_step(defs@, pred, i as int);
            }
            if defs[i].kind.same(&k) {
                c = c + 1;
            }
            i = i + 1;
        }
        proof {
            lemma_take_full(defs@);
        }
        c
    }

    /// Add kind `k` with its count, if positive, keeping counts descending;
    /// among equal counts the earlier kind stays first.
    fn add_kind_count(&self, out: &mut Vec<(String, usize)>, k: SymbolKind, Ghost(done): Ghost<Set<SymbolKind>>)
        requires
            kind_counts_ok(old(out)@, self.defs(), done),
            !done.contains(k),
        ensures
            kind_counts_ok(final(out)@, self.defs(), done.insert(k)),
            counts_total(final(out)@) == counts_total(old(out)@) + kind_count(self.defs(), k),
    {
        let c = self.count_kind(k);
        if c == 0 {
            proof {
                lemma_kind_counts_skip(out@, self.defs(), done, k);
            }
            return;
        }
        let ghost before = out@;
        let mut p: usize = 0;
        while p < out.len() && out[p].1 >= c
            invariant
                p <= out.len(),
                out@ == before,
                forall|m: int| 0 <= m < p ==> (#[trigger] before[m]).1 >= c,
            decreases out.len() - p,
        {
            p = p + 1;
        }
        let name = k.name();
        out.insert(p, (name, c));
        proof {
            lemma_kind_counts_insert(before, p as int, (name, c), self.defs(), done, k);
            lemma_counts_total_insert(before, p as int, (name, c));
        }
    }

    /// Every kind with definitions, by name with its count, counts
    /// descending; the counts add up to the number of definitions.
    fn kind_table(&self) -> (by_kind: Vec<(String, usize)>)
        ensures
            kind_counts_ok(by_kind@, self.defs(), Set::full()),
            counts_total(by_kind@) == self.defs().len(),
    {
        let mut by_kind: Vec<(String, usize)> = Vec::new();
        let ghost mut done: Set<SymbolKind> = Set::empty();
        proof {
            lemma_kind_counts_sum(self.defs());
            assert(counts_total(by_kind@) == 0) by {
                reveal(counts_total);
            }
        }
        self.add_kind_count(&mut by_kind, SymbolKind::Fn, Ghost(done));
        proof { done = done.insert(SymbolKind::Fn); }
        self.add_kind_count(&mut by_kind, SymbolKind::Method, Ghost(done));
        proof { done = done.insert(SymbolKind::Method); }
        self.add_kind_count(&mut by_kind, SymbolKind::Struct, Ghost(done));
        proof { done = done.insert(SymbolKind::Struct); }
        self.add_kind_count(&mut by_kind, SymbolKind::Enum, Ghost(done));
        proof { done = done.insert(SymbolKind::Enum); }
        self.add_kind_count(&mut by_kind, SymbolKind::Trait, Ghost(done));
        proof { done = done.insert(SymbolKind::Trait); }
        self.add_kind_count(&mut by_kind, SymbolKind::Impl, Ghost(done));
        proof { done = done.insert(SymbolKind::Impl); }
        self.add_kind_count(&mut by_kind, SymbolKind::Mod, Ghost(done));
        proof { done = done.insert(SymbolKind::Mod); }
        self.add_kind_count(&mut by_kind, SymbolKind::Const, Ghost(done));
        proof { done = done.insert(SymbolKind::Const); }
        self.add_kind_count(&mut by_kind, SymbolKind::Macro, Ghost(done));
        proof { done = done.insert(SymbolKind::Macro); }
        self.add_kind_count(&mut by_kind, SymbolKind::Other, Ghost(done));
        proof {
            done = done.insert(SymbolKind::Other);
            lemma_every_kind();
        }
        by_kind
    }

    /// Aggregate statistics over the full index.
    pub fn stats(&self) -> (st: RepoStats)
        ensures
            st.file_count == self.tags_map().dom().len(),
            st.def_count == self.defs().len(),
            st.ref_count == self.refs().len(),
            kind_counts_ok(st.by_kind@, self.defs(), Set::full()),
            counts_total(st.by_kind@) == st.def_count,
            kind_count(self.defs(), SymbolKind::Mod) > 0 ==> views(st.modules@) == mod_names(
                self.defs(),
            ),
            kind_count(self.defs(), SymbolKind::Mod) > 0 ==> st.modules@.len() == kind_count(
                self.defs(),
                SymbolKind::Mod,
            ),
            kind_count(self.defs(), SymbolKind::Mod) == 0 ==> strictly_sorted(views(st.modules@)),
            kind_count(self.defs(), SymbolKind::Mod) == 0 ==> forall|s: Seq<char>|
                views(st.modules@).contains(s) <==> is_file_stem_of(self.tags_map().dom(), s),
    {
        proof {
            use_type_invariant(&self.data);
            lemma_entries_map_len(self.data.tags_by_file@);
        }
        let file_count = self.data.tags_by_file.len();
        let def_count = self.data.all_defs.len();
        let ref_count = self.data.all_refs.len();

        let by_kind = self.kind_table();

        let mods = self.count_kind(SymbolKind::Mod);
        proof {
            lemma_module_list_names_every_mod(self.defs());
        }
        let modules = if mods > 0 {
            self.mod_name_list()
        } else {
            self.file_stem_list()
        };
        RepoStats { file_count, def_count, ref_count, by_kind, modules }
    }

    /// The names of the `mod` definitions, in order.
    fn mod_name_list(&self) -> (out: Vec<String>)
        ensures
            views(out@) == mod_names(self.defs()),
    {
        let ghost pred = |d: SymbolDef| d.kind == SymbolKind::Mod;
        let ghost nm = |d: SymbolDef| d.name@;
        let defs = &self.data.all_defs;
        let mut out: Vec<String> = Vec::new();
        let mut i: usize = 0;
        while i < defs.len()
            invariant
                i <= defs.len(),
                defs@ == self.defs(),
                pred == (|d: SymbolDef| d.kind == SymbolKind::Mod),
                nm == (|d: SymbolDef| d.name@),
                views(out@) == defs@.take(i as int).filter(pred).map_values(nm),
            decreases defs.len() - i,
        {
            proof {
                lemma_filter_take_step(defs@, pred, i as int);
            }
            if defs[i].kind.same(&SymbolKind::Mod) {
                let ghost prev = out@;
                out.push(defs[i].name.clone());
                proof {
                    assert(views(out@) =~= views(prev).push(defs@[i as int].name@));
                    assert(defs@.take(i + 1).filter(pred).map_values(nm) =~= defs@.take(
                        i as int,
                    ).filter(pred).map_values(nm).push(nm(defs@[i as int])));
                }
            }
            i = i + 1;
        }
        proof {
            lemma_take_full(defs@);
        }
        out
    }

    /// The stems of the indexed file paths, sorted and without duplicates.
    fn file_stem_list(&self) -> (out: Vec<String>)
        ensures
            strictly_sorted(views(out@)),
            forall|s: Seq<char>|
                views(out@).contains(s) <==> is_file_stem_of(self.tags_map().dom(), s),
    {
        let tbf = &self.data.tags_by_file;
        let mut stems: Vec<String> = Vec::new();
        let mut i: usize = 0;
        while i < tbf.len()
            invariant
                i <= tbf.len(),
                tbf@ == self.data.tags_by_file@,
                forall|s: Seq<char>|
                    views(stems@).contains(s) <==> exists|k: int|
                        0 <= k < i && spec_file_stem((#[trigger] tbf@[k]).0@) == Some(s),
            decreases tbf.len() - i,
        {
            let ghost prev = stems@;
            match file_stem(tbf[i].0.as_str()) {
                Some(st) => {
                    stems.push(st);
                    proof {
                        assert(views(stems@) =~= views(prev).push(views(stems@).last()));
                    }
                },
                None => {},
            }
            proof {
                assert forall|s: Seq<char>|
                    views(stems@).contains(s) <==> exists|k: int|
                        0 <= k < i + 1 && spec_file_stem((#[trigger] tbf@[k]).0@) == Some(s) by {
                    if views(stems@).contains(s) && !views(prev).contains(s) {
                        let j = choose|j: int| 0 <= j < views(stems@).len() && views(stems@)[j] == s;
                        if j < prev.len() {
                            assert(views(prev)[j] == s);
                        }
                    }
                    if views(prev).contains(s) {
                        let j = choose|j: int| 0 <= j < views(prev).len() && views(prev)[j] == s;
                        assert(views(stems@)[j] == s);
                    }
                    if exists|k: int| 0 <= k < i + 1 && spec_file_stem((#[trigger] tbf@[k]).0@) == Some(s) {
                        let k = choose|k: int| 0 <= k < i + 1 && spec_file_stem((#[trigger] tbf@[k]).0@) == Some(s);
                        if k == i {
                            assert(views(stems@)[views(stems@).len() - 1] == s);
                        }
                    }
                }
            }
            i = i + 1;
        }
        let out = sort_dedup(stems);
        proof {
            assert forall|s: Seq<char>|
                views(out@).contains(s) <==> is_file_stem_of(self.tags_map().dom(), s) by {
                assert(views(out@).to_set().contains(s) == views(out@).contains(s));
                assert(views(stems@).to_set().contains(s) == views(stems@).contains(s));
                if is_file_stem_of(self.tags_map().dom(), s) {
                    let p = choose|p: Seq<char>|
                        self.tags_map().dom().contains(p) && spec_file_stem(p) == Some(s);
                    lemma_entries_map_keys(tbf@, p);
                    let k = choose|k: int| 0 <= k < tbf@.len() && (#[trigger] tbf@[k]).0@ == p;
                    assert(spec_file_stem(tbf@[k].0@) == Some(s));
                }
                if views(stems@).contains(s) {
                    let k = choose|k: int|
                        0 <= k < tbf@.len() && spec_file_stem((#[trigger] tbf@[k]).0@) == Some(s);
                    lemma_entries_map_keys(tbf@, tbf@[k].0@);
                }
            }
        }
        out
    }
}

// ── Name resolution ─────────────────────────────────────────────────────────

/// The candidates whose path ends with `file`.
fn keep_file_matches<'a>(v: &Vec<&'a SymbolDef>, file: &str) -> (res: Vec<&'a SymbolDef>)
    ensures
        derefs(res@) == derefs(v@).filter(|d: SymbolDef| path_ends_with(d.location.file@, file@)),
{
    let ghost pred = |d: SymbolDef| path_ends_with(d.location.file@, file@);
    let mut out: Vec<&'a SymbolDef> = Vec::new();
    let mut i: usize = 0;
    while i < v.len()
        invariant
            i <= v.len(),
            pred == (|d: SymbolDef| path_ends_with(d.location.file@, file@)),
            derefs(out@) == derefs(v@).take(i as int).filter(pred),
        decreases v.len() - i,
    {
        let d: &'a SymbolDef = v[i];
        proof {
            lemma_filter_take_step(derefs(v@), pred, i as int);
            lemma_derefs_push(out@, d);
        }
        if ends_with_component(d.location.file.as_str(), file) {
            out.push(d);
        }
        i = i + 1;
    }
    proof {
        lemma_take_full(derefs(v@));
    }
    out
}

/// The candidates whose line range covers `line`.
fn keep_covering<'a>(v: &Vec<&'a SymbolDef>, line: usize) -> (res: Vec<&'a SymbolDef>)
    ensures
        derefs(res@) == derefs(v@).filter(|d: SymbolDef| covers_line(d, line as nat)),
{
    let ghost pred = |d: SymbolDef| covers_line(d, line as nat);
    let mut out: Vec<&'a SymbolDef> = Vec::new();
    let mut i: usize = 0;
    while i < v.len()
        invariant
            i <= v.len(),
            pred == (|d: SymbolDef| covers_line(d, line as nat)),
            derefs(out@) == derefs(v@).take(i as int).filter(pred),
        decreases v.len() - i,
    {
        let d: &'a SymbolDef = v[i];
        proof {
            lemma_filter_take_step(derefs(v@), pred, i as int);
            lemma_derefs_push(out@, d);
        }
        if d.line_range.0 <= line && line <= d.line_range.1 {
            out.push(d);
        }
        i = i + 1;
    }
    proof {
        lemma_take_full(derefs(v@));
    }
    out
}

/// What `resolve_symbol` answers for the definitions named `name`.
pub open spec fn resolution_ok(
    res: SymbolResolution,
    cands: Seq<SymbolDef>,
    file: Option<Seq<char>>,
    line: Option<usize>,
) -> bool {
    let nar = narrow(cands, file, line);
    if cands.len() == 0 {
        res is NotFound
    } else if cands.len() == 1 {
        res matches SymbolResolution::Resolved(d) && *d == cands[0]
    } else if nar.len() == 1 {
        res matches SymbolResolution::Resolved(d) && *d == nar[0]
    } else if nar.len() == 0 {
        res matches SymbolResolution::Ambiguous(v) && derefs(v@) == cands
    } else {
        res matches SymbolResolution::Ambiguous(v) && derefs(v@) == nar
    }
}

impl SymbolIndex {
    /// Resolve `name` to one definition.  A unique name resolves whatever
    /// `file`/`line` say; an absent name is `NotFound`.  Among several
    /// same-named definitions, `file` keeps those whose path ends with it and
    /// `line` (consulted only with `file`) those whose line range covers it:
    /// one survivor is `Resolved`, several are `Ambiguous` with the
    /// survivors, none is `Ambiguous` with every candidate.
    pub fn resolve_symbol(&self, name: &str, file: Option<&str>, line: Option<usize>) -> (res:
        SymbolResolution<'_>)
        ensures
            resolution_ok(
                res,
                self.defs().filter(|d: SymbolDef| named(d, name@)),
                opt_view(file),
                line,
            ),
            file is Some && defs_named(*self, name@).len() >= 2 ==> {
                &&& res matches SymbolResolution::Resolved(d) ==> fits_hints(*d, file->0@, line)
                &&& res matches SymbolResolution::Ambiguous(v) ==> (forall|i: int|
                    0 <= i < v@.len() ==> fits_hints(*(#[trigger] v@[i]), file->0@, line)) || (derefs(v@)
                    == defs_named(*self, name@) && forall|i: int|
                    0 <= i < defs_named(*self, name@).len() ==> !fits_hints(
                        #[trigger] defs_named(*self, name@)[i],
                        file->0@,
                        line,
                    ))
            },
    {
        let cands = self.definitions(name);
        if cands.len() == 0 {
            return SymbolResolution::NotFound;
        }
        if cands.len() == 1 {
            return SymbolResolution::Resolved(cands[0]);
        }
        let narrowed = match file {
            None => cands,
            Some(f) => {
                let by_file = keep_file_matches(&cands, f);
                match line {
                    None => by_file,
                    Some(l) => keep_covering(&by_file, l),
                }
            },
        };
        let res = if narrowed.len() == 1 {
            SymbolResolution::Resolved(narrowed[0])
        } else if narrowed.len() == 0 {
            SymbolResolution::Ambiguous(self.definitions(name))
        } else {
            SymbolResolution::Ambiguous(narrowed)
        };
        proof {
            let all = self.defs().filter(|d: SymbolDef| named(d, name@));
            assert(resolution_ok(res, all, opt_view(file), line));
            assert(all == defs_named(*self, name@));
            if let Some(f) = file {
                lemma_resolution_respects_hints(res, all, f@, line);
            }
        }
        res
    }
}

// ── Building from source files ──────────────────────────────────────────────

/// Tag extraction succeeds on these bytes.
pub open spec fn extracts(bytes: Seq<u8>) -> bool {
    &&& spec_item_nodes(bytes) is Some
    &&& spec_rust_tags(bytes) is Some
    &&& forall|i: int|
        0 <= i < spec_rust_tags(bytes)->0.len() ==> tag_ok(
            bytes,
            #[trigger] spec_rust_tags(bytes)->0[i],
            spec_item_nodes(bytes)->0,
        )
}

/// `entries` holds, in order, one entry per source file on which extraction
/// succeeds: its path with the definitions and references extracted.
pub open spec fn entries_of_sources(
    entries: Seq<(String, FileTags)>,
    sources: Seq<(String, Vec<u8>)>,
) -> bool {
    let ok = sources.filter(|s: (String, Vec<u8>)| extracts(s.1@));
    &&& entries.len() == ok.len()
    &&& forall|i: int|
        0 <= i < entries.len() ==> (#[trigger] entries[i]).0@ == ok[i].0@ && extract_ok(
            Ok::<(Vec<SymbolDef>, Vec<SymbolRef>), ExtractError>(
                (entries[i].1.defs, entries[i].1.refs),
            ),
            ok[i].1@,
            ok[i].0@,
        )
}

impl SymbolIndex {
    /// Parse every source file with tree-sitter and build the index.  A
    /// file whose extraction fails is skipped; only a failure to set up the
    /// tagger fails the build.
    #[verifier::spinoff_prover]
    pub fn build(repo_root: &str, sources: &Vec<(String, Vec<u8>)>) -> (res: Result<SymbolIndex, TaggerError>)
        ensures
            res is Ok <==> tagger_error() is None,
            res matches Err(e) ==> tagger_error() == Some(e),
            res matches Ok(idx) ==> idx.root()@ == repo_root@ && exists|entries: Seq<(String, FileTags)>|
                #[trigger] entries_of_sources(entries, sources@) && (exists|perm: Seq<int>|
                    #[trigger] stably_sorted_defs(idx.defs(), entries_defs(entries), perm))
                    && idx.defs().to_multiset() == entries_defs(entries).to_multiset() && idx.refs()
                    == entries_refs(entries) && idx.tags_map() == entries_map(entries),
    {
        let mut tagger = match RustTagger::new() {
            Ok(t) => t,
            Err(e) => return Err(e),
        };
        let ghost pred = |s: (String, Vec<u8>)| extracts(s.1@);
        let mut entries: Vec<(String, FileTags)> = Vec::new();
        let mut i: usize = 0;
        while i < sources.len()
            invariant
                i <= sources.len(),
                pred == (|s: (String, Vec<u8>)| extracts(s.1@)),
                entries@.len() == sources@.take(i as int).filter(pred).len(),
                forall|j: int|
                    0 <= j < entries@.len() ==> (#[trigger] entries@[j]).0@ == sources@.take(
                        i as int,
                    ).filter(pred)[j].0@ && extract_ok(
                        Ok::<(Vec<SymbolDef>, Vec<SymbolRef>), ExtractError>(
                            (entries@[j].1.defs, entries@[j].1.refs),
                        ),
                        sources@.take(i as int).filter(pred)[j].1@,
                        sources@.take(i as int).filter(pred)[j].0@,
                    ),
            decreases sources.len() - i,
        {
            let (path, bytes) = (&sources[i].0, &sources[i].1);
            let res = tagger.extract(bytes.as_slice(), path.as_str());
            proof {
                lemma_filter_take_step(sources@, pred, i as int);
                assert(res is Ok <==> extracts(bytes@));
            }
            match res {
                Ok((defs, refs)) => {
                    let ghost prev = entries@;
                    entries.push((path.clone(), FileTags { defs, refs }));
                    proof {
                        assert forall|j: int| 0 <= j < entries@.len() implies (#[trigger] entries@[j]).0@
                            == sources@.take(i + 1).filter(pred)[j].0@ && extract_ok(
                            Ok::<(Vec<SymbolDef>, Vec<SymbolRef>), ExtractError>(
                                (entries@[j].1.defs, entries@[j].1.refs),
                            ),
                            sources@.take(i + 1).filter(pred)[j].1@,
                            sources@.take(i + 1).filter(pred)[j].0@,
                        ) by {
                            if j < prev.len() {
                                assert(entries@[j] == prev[j]);
                            }
                        }
                    }
                },
                Err(_) => {},
            }
            i = i + 1;
        }
        proof {
            lemma_take_full(sources@);
        }
        let ghost e = entries@;
        let idx = SymbolIndex::from_file_tags(repo_root.to_owned(), entries);
        assert(entries_of_sources(e, sources@));
        assert(idx.defs().to_multiset() == entries_defs(e).to_multiset() && idx.refs() == entries_refs(e)
            && idx.tags_map() == entries_map(e));
        Ok(idx)
    }
}


// ── Laws ────────────────────────────────────────────────────────────────────

/// A name has a reference exactly when the references that `p` (a test for
/// that name) keeps are not empty.
proof fn lemma_referenced_iff_found(refs: Seq<SymbolRef>, name: Seq<char>, p: spec_fn(SymbolRef) -> bool)
    requires
        forall|r: SymbolRef| #[trigger] p(r) == (r.name@ == name),
    ensures
        is_referenced(refs, name) <==> refs.filter(p).len() > 0,
{
    if is_referenced(refs, name) {
        let i = choose|i: int| 0 <= i < refs.len() && (#[trigger] refs[i]).name@ == name;
        assert(p(refs[i]));
        refs.lemma_filter_contains(p, i);
    }
    if refs.filter(p).len() > 0 {
        lemma_filter_from(refs, p, 0);
        let x = refs.filter(p)[0];
        let k = choose|k: int| 0 <= k < refs.len() && refs[k] == x;
        assert(refs[k].name@ == name);
    }
}

/// The dead-code candidates are exactly the definitions whose
/// `find_references` comes back empty: `unreferenced_defs` keeps, in
/// (file, line) order, each definition for which the references carrying its
/// name are none.
pub proof fn lemma_unreferenced_have_no_references(idx: &SymbolIndex)
    ensures
        idx.defs().filter(|d: SymbolDef| !is_referenced(idx.refs(), d.name@)) == idx.defs().filter(
            |d: SymbolDef| idx.refs().filter(|r: SymbolRef| r.name@ == d.name@).len() == 0,
        ),
{
    let p1 = |d: SymbolDef| !is_referenced(idx.refs(), d.name@);
    let p2 = |d: SymbolDef| idx.refs().filter(|r: SymbolRef| r.name@ == d.name@).len() == 0;
    assert forall|d: SymbolDef| #[trigger] p1(d) == p2(d) by {
        let q = |r: SymbolRef| r.name@ == d.name@;
        lemma_referenced_iff_found(idx.refs(), d.name@, q);
        assert(p2(d) == (idx.refs().filter(q).len() == 0));
    }
    assert(p1 =~= p2);
}

/// The paths of the entries, in order.
pub open spec fn entry_paths(e: Seq<(String, FileTags)>) -> Seq<Seq<char>> {
    e.map_values(|x: (String, FileTags)| x.0@)
}

/// The references that `m` holds for each of `paths`, laid end to end.
pub open spec fn per_file_refs(
    m: Map<Seq<char>, (Seq<SymbolDef>, Seq<SymbolRef>)>,
    paths: Seq<Seq<char>>,
) -> Seq<SymbolRef>
    decreases paths.len(),
{
    if paths.len() == 0 {
        Seq::empty()
    } else {
        per_file_refs(m, paths.drop_last()) + m[paths.last()].1
    }
}

/// The number of references that `m` holds for each of `paths`, summed.
pub open spec fn per_file_ref_count(
    m: Map<Seq<char>, (Seq<SymbolDef>, Seq<SymbolRef>)>,
    paths: Seq<Seq<char>>,
) -> int
    decreases paths.len(),
{
    if paths.len() == 0 {
        0
    } else {
        per_file_ref_count(m, paths.drop_last()) + m[paths.last()].1.len()
    }
}

proof fn lemma_per_file_ref_count(
    m: Map<Seq<char>, (Seq<SymbolDef>, Seq<SymbolRef>)>,
    paths: Seq<Seq<char>>,
)
    ensures
        per_file_refs(m, paths).len() == per_file_ref_count(m, paths),
    decreases paths.len(),
{
    if paths.len() > 0 {
        lemma_per_file_ref_count(m, paths.drop_last());
    }
}

/// Over the first `j` entries, the references are those the map holds for
/// their paths.
proof fn lemma_entries_refs_per_file(e: Seq<(String, FileTags)>, j: int)
    requires
        unique_paths(e),
        0 <= j <= e.len(),
    ensures
        entries_refs(e.take(j)) == per_file_refs(entries_map(e), entry_paths(e).take(j)),
    decreases j,
{
    if j == 0 {
        assert(e.take(0) =~= Seq::<(String, FileTags)>::empty());
        assert(entry_paths(e).take(0) =~= Seq::<Seq<char>>::empty());
    } else {
        lemma_entries_refs_per_file(e, j - 1);
        lemma_entries_map_at(e, j - 1);
        assert(e.take(j).drop_last() =~= e.take(j - 1));
        assert(entry_paths(e).take(j).drop_last() =~= entry_paths(e).take(j - 1));
        assert(entry_paths(e).take(j).last() == e[j - 1].0@);
    }
}

/// An index built from entries with one entry per path (as `from_file_tags`
/// and `build` state of their results) holds, as its references, each
/// file's references laid end to end in entry order; so the number of
/// references (`stats().ref_count`) is the sum of the per-file counts, the
/// files are exactly the entries' paths, each once, and the references
/// carrying any one name (what `find_references` returns) are those of each
/// file carrying it, file after file.
pub proof fn lemma_refs_are_per_file_refs(idx: &SymbolIndex, entries: Seq<(String, FileTags)>, name: Seq<char>)
    requires
        unique_paths(entries),
        idx.refs() == entries_refs(entries),
        idx.tags_map() == entries_map(entries),
    ensures
        idx.refs() == per_file_refs(idx.tags_map(), entry_paths(entries)),
        idx.refs().len() == per_file_ref_count(idx.tags_map(), entry_paths(entries)),
        entry_paths(entries).no_duplicates(),
        entry_paths(entries).to_set() == idx.tags_map().dom(),
        idx.refs().filter(|r: SymbolRef| r.name@ == name) == per_file_refs(
            idx.tags_map(),
            entry_paths(entries),
        ).filter(|r: SymbolRef| r.name@ == name),
{
    lemma_entries_refs_per_file(entries, entries.len() as int);
    assert(entries.take(entries.len() as int) =~= entries);
    assert(entry_paths(entries).take(entries.len() as int) =~= entry_paths(entries));
    lemma_per_file_ref_count(idx.tags_map(), entry_paths(entries));
    let ps = entry_paths(entries);
    assert forall|i: int, j: int| 0 <= i < ps.len() && 0 <= j < ps.len() && i != j implies ps[i]
        != ps[j] by {
        if i < j {
            assert(entries[i].0@ != entries[j].0@);
        } else {
            assert(entries[j].0@ != entries[i].0@);
        }
    }
    assert forall|p: Seq<char>| #[trigger] ps.to_set().contains(p) <==> idx.tags_map().dom().contains(p) by {
        lemma_entries_map_keys(entries, p);
        if ps.to_set().contains(p) {
            let i = choose|i: int| 0 <= i < ps.len() && ps[i] == p;
            assert(entries[i].0@ == p);
        }
        if idx.tags_map().dom().contains(p) {
            let i = choose|i: int| 0 <= i < entries.len() && (#[trigger] entries[i]).0@ == p;
            assert(ps[i] == p);
        }
    }
    assert(ps.to_set() =~= idx.tags_map().dom());
}

/// The files an index built from source files holds (as `build` states of
/// its result) are exactly the sources on which extraction succeeds: a
/// failing file is skipped, and no other path appears.
pub proof fn lemma_indexed_files_are_extracted_sources(
    idx: &SymbolIndex,
    sources: Seq<(String, Vec<u8>)>,
    entries: Seq<(String, FileTags)>,
    p: Seq<char>,
)
    requires
        entries_of_sources(entries, sources),
        idx.tags_map() == entries_map(entries),
    ensures
        idx.tags_map().contains_key(p) <==> exists|i: int|
            0 <= i < sources.len() && (#[trigger] sources[i]).0@ == p && extracts(sources[i].1@),
{
    let pred = |s: (String, Vec<u8>)| extracts(s.1@);
    let ok = sources.filter(pred);
    lemma_entries_map_keys(entries, p);
    if idx.tags_map().contains_key(p) {
        let j = choose|j: int| 0 <= j < entries.len() && (#[trigger] entries[j]).0@ == p;
        assert(entries[j].0@ == ok[j].0@);
        lemma_filter_from(sources, pred, j);
        let i = choose|i: int| 0 <= i < sources.len() && sources[i] == ok[j];
        assert(sources[i].0@ == p && extracts(sources[i].1@));
    }
    if exists|i: int| 0 <= i < sources.len() && (#[trigger] sources[i]).0@ == p && extracts(sources[i].1@) {
        let i = choose|i: int|
            0 <= i < sources.len() && (#[trigger] sources[i]).0@ == p && extracts(sources[i].1@);
        assert(pred(sources[i]));
        sources.lemma_filter_contains(pred, i);
        let j = choose|j: int| 0 <= j < ok.len() && ok[j] == sources[i];
        assert(entries[j].0@ == p);
    }
}

/// Filtering keeps paths distinct.
proof fn lemma_filter_unique_paths(s: Seq<(String, Vec<u8>)>, pred: spec_fn((String, Vec<u8>)) -> bool)
    requires
        forall|i: int, j: int| 0 <= i < j < s.len() ==> (#[trigger] s[i]).0@ != (#[trigger] s[j]).0@,
    ensures
        forall|i: int, j: int|
            0 <= i < j < s.filter(pred).len() ==> (#[trigger] s.filter(pred)[i]).0@ != (
            #[trigger] s.filter(pred)[j]).0@,
    decreases s.len(),
{
    reveal_with_fuel(Seq::filter, 1);
    if s.len() > 0 {
        let rest = s.drop_last();
        assert forall|i: int, j: int| 0 <= i < j < rest.len() implies (#[trigger] rest[i]).0@ != (
        #[trigger] rest[j]).0@ by {
            assert(rest[i] == s[i] && rest[j] == s[j]);
        }
        lemma_filter_unique_paths(rest, pred);
        let f = s.filter(pred);
        let fr = rest.filter(pred);
        assert forall|i: int, j: int| 0 <= i < j < f.len() implies (#[trigger] f[i]).0@ != (
        #[trigger] f[j]).0@ by {
            if j < fr.len() {
                assert(f[i] == fr[i] && f[j] == fr[j]);
            } else {
                assert(f[j] == s.last() && f[i] == fr[i]);
                lemma_filter_from(rest, pred, i);
                let k = choose|k: int| 0 <= k < rest.len() && rest[k] == fr[i];
                assert(rest[k] == s[k]);
            }
        }
    }
}

/// With each source path given once, the tags an index built from the
/// sources holds for a source's path are what extraction gives for that
/// source.
pub proof fn lemma_indexed_tags_are_extraction_results(
    idx: &SymbolIndex,
    sources: Seq<(String, Vec<u8>)>,
    entries: Seq<(String, FileTags)>,
    i: int,
)
    requires
        entries_of_sources(entries, sources),
        idx.tags_map() == entries_map(entries),
        forall|a: int, b: int|
            0 <= a < b < sources.len() ==> (#[trigger] sources[a]).0@ != (#[trigger] sources[b]).0@,
        0 <= i < sources.len(),
        extracts(sources[i].1@),
    ensures
        idx.tags_map().contains_key(sources[i].0@),
        exists|t: FileTags|
            extract_ok(
                Ok::<(Vec<SymbolDef>, Vec<SymbolRef>), ExtractError>((t.defs, t.refs)),
                sources[i].1@,
                sources[i].0@,
            ) && idx.tags_map()[sources[i].0@] == #[trigger] tags_view(t),
{
    let pred = |s: (String, Vec<u8>)| extracts(s.1@);
    let ok = sources.filter(pred);
    lemma_filter_unique_paths(sources, pred);
    assert(unique_paths(entries)) by {
        assert forall|a: int, b: int| 0 <= a < b < entries.len() implies (#[trigger] entries[a]).0@
            != (#[trigger] entries[b]).0@ by {
            assert(entries[a].0@ == ok[a].0@ && entries[b].0@ == ok[b].0@);
        }
    }
    assert(pred(sources[i]));
    sources.lemma_filter_contains(pred, i);
    let j = choose|j: int| 0 <= j < ok.len() && ok[j] == sources[i];
    lemma_entries_map_at(entries, j);
    assert(entries[j].0@ == sources[i].0@);
    let t = entries[j].1;
    assert(extract_ok(
        Ok::<(Vec<SymbolDef>, Vec<SymbolRef>), ExtractError>((t.defs, t.refs)),
        sources[i].1@,
        sources[i].0@,
    ));
}

/// Keeping the elements that meet `p` keeps each copy of an element that
/// meets it and none of one that does not.
proof fn lemma_filter_count(s: Seq<SymbolDef>, p: spec_fn(SymbolDef) -> bool, x: SymbolDef)
    ensures
        s.filter(p).to_multiset().count(x) == if p(x) {
            s.to_multiset().count(x)
        } else {
            0
        },
    decreases s.len(),
{
    broadcast use vstd::seq_lib::group_to_multiset_ensures;

    reveal_with_fuel(Seq::filter, 1);
    if s.len() == 0 {
        assert(s.filter(p) =~= Seq::<SymbolDef>::empty());
    } else {
        let rest = s.drop_last();
        lemma_filter_count(rest, p, x);
        assert(rest.push(s.last()) =~= s);
        vstd::seq_lib::to_multiset_build(rest, s.last());
        if p(s.last()) {
            vstd::seq_lib::to_multiset_build(rest.filter(p), s.last());
        }
    }
}

/// Every definition extracted for an entry is filed under the entry's path.
proof fn lemma_entry_defs_filed(
    entries: Seq<(String, FileTags)>,
    sources: Seq<(String, Vec<u8>)>,
    j: int,
    k: int,
)
    requires
        entries_of_sources(entries, sources),
        0 <= j < entries.len(),
        0 <= k < entries[j].1.defs@.len(),
    ensures
        entries[j].1.defs@[k].location.file@ == entries[j].0@,
{
    let ok = sources.filter(|s: (String, Vec<u8>)| extracts(s.1@));
    let res = Ok::<(Vec<SymbolDef>, Vec<SymbolRef>), ExtractError>(
        (entries[j].1.defs, entries[j].1.refs),
    );
    assert(entries[j].0@ == ok[j].0@ && extract_ok(res, ok[j].1@, ok[j].0@));
    let tags = spec_rust_tags(ok[j].1@)->0;
    let nodes = spec_item_nodes(ok[j].1@)->0;
    let dt = tags.filter(|t: TagView| is_def_tag(t));
    assert(def_ok(entries[j].1.defs@[k], ok[j].1@, ok[j].0@, dt[k], nodes));
}

/// Counted over all entries, a definition filed under `f` occurs as often as
/// in the tags the map holds for `f`.
proof fn lemma_entries_defs_count(
    entries: Seq<(String, FileTags)>,
    f: Seq<char>,
    x: SymbolDef,
)
    requires
        unique_paths(entries),
        forall|j: int, k: int|
            0 <= j < entries.len() && 0 <= k < entries[j].1.defs@.len() ==> (
            #[trigger] entries[j].1.defs@[k]).location.file@ == entries[j].0@,
        x.location.file@ == f,
    ensures
        entries_defs(entries).to_multiset().count(x) == if entries_map(entries).contains_key(f) {
            entries_map(entries)[f].0.to_multiset().count(x)
        } else {
            0
        },
    decreases entries.len(),
{
    broadcast use vstd::seq_lib::group_to_multiset_ensures;

    if entries.len() == 0 {
        assert(entries_defs(entries) =~= Seq::<SymbolDef>::empty());
    } else {
        let rest = entries.drop_last();
        let last = entries.last();
        assert(unique_paths(rest)) by {
            assert forall|a: int, b: int| 0 <= a < b < rest.len() implies (#[trigger] rest[a]).0@
                != (#[trigger] rest[b]).0@ by {
                assert(rest[a] == entries[a] && rest[b] == entries[b]);
            }
        }
        assert forall|j: int, k: int| 0 <= j < rest.len() && 0 <= k < rest[j].1.defs@.len() implies (
        #[trigger] rest[j].1.defs@[k]).location.file@ == rest[j].0@ by {
            assert(rest[j] == entries[j]);
        }
        lemma_entries_defs_count(rest, f, x);
        vstd::seq_lib::lemma_multiset_commutative(entries_defs(rest), last.1.defs@);
        if last.0@ == f {
            lemma_entries_map_keys(rest, f);
            if entries_map(rest).contains_key(f) {
                let i = choose|i: int| 0 <= i < rest.len() && (#[trigger] rest[i]).0@ == f;
                assert(entries[i].0@ != entries[entries.len() - 1].0@);
            }
        } else {
            if last.1.defs@.to_multiset().count(x) > 0 {
                let k = choose|k: int| 0 <= k < last.1.defs@.len() && last.1.defs@[k] == x;
                assert(entries[entries.len() - 1].1.defs@[k].location.file@ == last.0@);
            }
        }
    }
}

/// With each source path given once, the definitions an index built from
/// the sources files under a path are, counted with multiplicity, the
/// definitions that file's tags hold (`file_tags(f).defs`).
pub proof fn lemma_file_defs_are_that_files_defs(
    idx: &SymbolIndex,
    sources: Seq<(String, Vec<u8>)>,
    entries: Seq<(String, FileTags)>,
    f: Seq<char>,
)
    requires
        entries_of_sources(entries, sources),
        forall|a: int, b: int|
            0 <= a < b < sources.len() ==> (#[trigger] sources[a]).0@ != (#[trigger] sources[b]).0@,
        idx.defs().to_multiset() == entries_defs(entries).to_multiset(),
        idx.tags_map() == entries_map(entries),
        idx.tags_map().contains_key(f),
    ensures
        idx.defs().filter(|d: SymbolDef| d.location.file@ == f).to_multiset() == idx.tags_map()[f].0.to_multiset(),
{
    broadcast use vstd::seq_lib::group_to_multiset_ensures;

    let pred = |s: (String, Vec<u8>)| extracts(s.1@);
    let ok = sources.filter(pred);
    lemma_filter_unique_paths(sources, pred);
    assert(unique_paths(entries)) by {
        assert forall|a: int, b: int| 0 <= a < b < entries.len() implies (#[trigger] entries[a]).0@
            != (#[trigger] entries[b]).0@ by {
            assert(entries[a].0@ == ok[a].0@ && entries[b].0@ == ok[b].0@);
        }
    }
    assert forall|j: int, k: int| 0 <= j < entries.len() && 0 <= k < entries[j].1.defs@.len() implies (
    #[trigger] entries[j].1.defs@[k]).location.file@ == entries[j].0@ by {
        lemma_entry_defs_filed(entries, sources, j, k);
    }
    let p = |d: SymbolDef| d.location.file@ == f;
    lemma_entries_map_keys(entries, f);
    let jf = choose|i: int| 0 <= i < entries.len() && (#[trigger] entries[i]).0@ == f;
    lemma_entries_map_at(entries, jf);
    let lhs = idx.defs().filter(p).to_multiset();
    let rhs = idx.tags_map()[f].0.to_multiset();
    assert forall|x: SymbolDef| lhs.count(x) == rhs.count(x) by {
        lemma_filter_count(idx.defs(), p, x);
        if p(x) {
            lemma_entries_defs_count(entries, f, x);
        } else if rhs.count(x) > 0 {
            let k = choose|k: int| 0 <= k < entries[jf].1.defs@.len() && entries[jf].1.defs@[k] == x;
            assert(entries[jf].1.defs@[k].location.file@ == entries[jf].0@);
        }
    }
    assert(lhs =~= rhs);
}

/// The definitions named `name`, in (file, line) order.
pub open spec fn defs_named(idx: SymbolIndex, name: Seq<char>) -> Seq<SymbolDef> {
    idx.defs().filter(|d: SymbolDef| named(d, name))
}

/// The definition fits the disambiguators: its path ends with `file`, and,
/// when a line is given too, its range covers that line.
pub open spec fn fits_hints(d: SymbolDef, file: Seq<char>, line: Option<usize>) -> bool {
    &&& path_ends_with(d.location.file@, file)
    &&& (line matches Some(l) ==> d.line_range.0 <= l <= d.line_range.1)
}

/// With a file hint, resolving a name shared by several definitions only
/// ever narrows to definitions that fit the hints: a `Resolved` answer fits
/// them, and an `Ambiguous` one either lists only fitting definitions or,
/// when no candidate fits, every candidate.
pub proof fn lemma_resolution_respects_hints(
    res: SymbolResolution,
    cands: Seq<SymbolDef>,
    file: Seq<char>,
    line: Option<usize>,
)
    requires
        resolution_ok(res, cands, Some(file), line),
        cands.len() >= 2,
    ensures
        res matches SymbolResolution::Resolved(d) ==> fits_hints(*d, file, line),
        res matches SymbolResolution::Ambiguous(v) ==> (forall|i: int|
            0 <= i < v@.len() ==> fits_hints(*(#[trigger] v@[i]), file, line)) || (derefs(v@) == cands
            && forall|i: int| 0 <= i < cands.len() ==> !fits_hints(#[trigger] cands[i], file, line)),
{
    let pf = |d: SymbolDef| path_ends_with(d.location.file@, file);
    let by_file = cands.filter(pf);
    let nar = narrow(cands, Some(file), line);
    assert forall|k: int| 0 <= k < nar.len() implies fits_hints(#[trigger] nar[k], file, line) by {
        match line {
            None => {
                assert(nar == by_file);
                cands.lemma_filter_pred(pf, k);
            },
            Some(l) => {
                let pl = |d: SymbolDef| covers_line(d, l as nat);
                assert(nar == by_file.filter(pl));
                by_file.lemma_filter_pred(pl, k);
                lemma_filter_from(by_file, pl, k);
                let j = choose|j: int| 0 <= j < by_file.len() && by_file[j] == nar[k];
                cands.lemma_filter_pred(pf, j);
            },
        }
    }
    if nar.len() == 0 {
        assert forall|i: int| 0 <= i < cands.len() implies !fits_hints(#[trigger] cands[i], file, line) by {
            if fits_hints(cands[i], file, line) {
                cands.lemma_filter_contains(pf, i);
                let j = choose|j: int| 0 <= j < by_file.len() && by_file[j] == cands[i];
                match line {
                    None => {},
                    Some(l) => {
                        let pl = |d: SymbolDef| covers_line(d, l as nat);
                        by_file.lemma_filter_contains(pl, j);
                    },
                }
            }
        }
    }
    match res {
        SymbolResolution::Ambiguous(v) => {
            if nar.len() != 0 {
                assert forall|i: int| 0 <= i < v@.len() implies fits_hints(*(#[trigger] v@[i]), file, line) by {
                    assert(derefs(v@)[i] == *v@[i]);
                }
            }
        },
        _ => {},
    }
}

/// The module list names every `mod` definition, inline or not, in order:
/// it is as long as the count of `Mod` definitions, and each such
/// definition's name stands in it.
pub proof fn lemma_module_list_names_every_mod(defs: Seq<SymbolDef>)
    ensures
        mod_names(defs).len() == kind_count(defs, SymbolKind::Mod),
        forall|i: int|
            0 <= i < defs.len() && (#[trigger] defs[i]).kind == SymbolKind::Mod ==> mod_names(
                defs,
            ).contains(defs[i].name@),
{
    let k = SymbolKind::Mod;
    let p1 = |d: SymbolDef| d.kind == SymbolKind::Mod;
    let p2 = |d: SymbolDef| d.kind == k;
    assert(p1 =~= p2);
    assert(defs.filter(p1) == defs.filter(p2));
    assert forall|i: int| 0 <= i < defs.len() && (#[trigger] defs[i]).kind == SymbolKind::Mod implies mod_names(
        defs,
    ).contains(defs[i].name@) by {
        defs.lemma_filter_contains(p1, i);
        let f = defs.filter(p1);
        let j = choose|j: int| 0 <= j < f.len() && f[j] == defs[i];
        assert(mod_names(defs)[j] == defs[i].name@);
    }
}

} // verus!
