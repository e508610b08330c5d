//! Cycle-safe call-graph builder over the in-memory [`SymbolIndex`].
//!
//! The model is *name-based* and *approximate*: the callees of a name are the
//! references inside the line ranges of its fn/method definitions that name
//! some known definition; its callers are the fn/method definitions whose
//! line range holds a reference to it.
use vstd::prelude::*;

use crate::index::{derefs, named, FileTags, SymbolIndex};
use crate::lemmas::{lemma_filter_from, lemma_take_full, lemma_to_set_push};
use crate::index::model::{SymbolDef, SymbolKind, SymbolRef};
use crate::text::{
    lemma_lex_irreflexive, lemma_lex_transitive, lex_lt, path_views, paths_strictly_sorted, sort_dedup, sort_dedup_paths, str_eq, strictly_sorted,
    views,
};

verus! {

// ── Public types ────────────────────────────────────────────────────────────

#[derive(Debug, Clone, Copy, PartialEq, Eq, Structural)]
pub enum Direction {
    Callees,
    Callers,
    Both,
}

#[derive(Debug)]
pub struct CallEdge {
    pub from: String,
    pub to: String,
    /// 1-based hop level of the `to` node (direct neighbour of root = 1).
    pub depth: usize,
}

#[derive(Debug)]
pub struct CallGraphResult {
    pub root: String,
    pub callees: Vec<CallEdge>,
    pub callers: Vec<CallEdge>,
    /// Each entry is a cycle path: names from the first repeated node back to
    /// itself, e.g. `["a", "b", "a"]` for the mutual-recursion `a ↔ b`.
    pub cycles_detected: Vec<Vec<String>>,
    /// `true` if `max_hops` cut off traversal before the graph was fully expanded.
    pub truncated: bool,
}

// ── The call relation ───────────────────────────────────────────────────────

/// Functions and methods are the definitions that make calls.
pub open spec fn fn_like(k: SymbolKind) -> bool {
    k == SymbolKind::Fn || k == SymbolKind::Method
}

/// Some definition is named `n`.
pub open spec fn has_def(defs: Seq<SymbolDef>, n: Seq<char>) -> bool {
    exists|i: int| 0 <= i < defs.len() && (#[trigger] defs[i]).name@ == n
}

/// The reference lies on a line of the definition's range.
pub open spec fn ref_in_range(r: SymbolRef, d: SymbolDef) -> bool {
    d.line_range.0 <= r.location.line <= d.line_range.1
}

/// The references recorded for the definition's file.
pub open spec fn file_refs(idx: SymbolIndex, d: SymbolDef) -> Seq<SymbolRef> {
    idx.tags_map()[d.location.file@].1
}

/// The `k`-th reference of `d`'s file lies in `d` and names a known
/// definition.
pub open spec fn calls_at(idx: SymbolIndex, d: SymbolDef, k: int) -> bool {
    &&& 0 <= k < file_refs(idx, d).len()
    &&& ref_in_range(file_refs(idx, d)[k], d)
    &&& has_def(idx.defs(), file_refs(idx, d)[k].name@)
}

/// The names that the definition `d` calls.
pub open spec fn def_calls(idx: SymbolIndex, d: SymbolDef) -> Set<Seq<char>> {
    Set::new(
        |n: Seq<char>|
            fn_like(d.kind) && idx.tags_map().contains_key(d.location.file@) && exists|k: int|
                calls_at(idx, d, k) && (#[trigger] file_refs(idx, d)[k]).name@ == n,
    )
}

/// The names that the definitions named `name` call.
pub open spec fn callees_set(idx: SymbolIndex, name: Seq<char>) -> Set<Seq<char>> {
    Set::new(
        |n: Seq<char>|
            exists|i: int|
                0 <= i < idx.defs().len() && named(#[trigger] idx.defs()[i], name) && def_calls(
                    idx,
                    idx.defs()[i],
                ).contains(n),
    )
}

/// The definition `d` holds a reference to `name` in its range.
pub open spec fn def_calls_name(idx: SymbolIndex, d: SymbolDef, name: Seq<char>) -> bool {
    &&& fn_like(d.kind)
    &&& idx.tags_map().contains_key(d.location.file@)
    &&& exists|k: int|
        0 <= k < file_refs(idx, d).len() && (#[trigger] file_refs(idx, d)[k]).name@ == name
            && ref_in_range(file_refs(idx, d)[k], d)
}

/// The names of the definitions that call `name`.
pub open spec fn callers_set(idx: SymbolIndex, name: Seq<char>) -> Set<Seq<char>> {
    Set::new(
        |c: Seq<char>|
            exists|i: int|
                0 <= i < idx.defs().len() && (#[trigger] idx.defs()[i]).name@ == c
                    && def_calls_name(idx, idx.defs()[i], name),
    )
}

fn is_fn_like(kind: &SymbolKind) -> (r: bool)
    ensures
        r == fn_like(*kind),
{
    matches!(kind, SymbolKind::Fn | SymbolKind::Method)
}

/// A name has a definition exactly when `definitions` finds one.
proof fn lemma_has_def(idx: SymbolIndex, n: Seq<char>, found: Seq<SymbolDef>)
    requires
        found == idx.defs().filter(|d: SymbolDef| named(d, n)),
    ensures
        has_def(idx.defs(), n) <==> found.len() > 0,
{
    let pred = |d: SymbolDef| named(d, n);
    if has_def(idx.defs(), n) {
        let i = choose|i: int| 0 <= i < idx.defs().len() && (#[trigger] idx.defs()[i]).name@ == n;
        idx.defs().lemma_filter_contains(pred, i);
    }
    if found.len() > 0 {
        lemma_filter_from(idx.defs(), pred, 0);
        let i = choose|i: int| 0 <= i < idx.defs().len() && idx.defs()[i] == found[0];
        assert(idx.defs()[i].name@ == n);
    }
}

/// The names that the definition `d` calls, collected in reference order.
fn collect_def_calls(index: &SymbolIndex, d: &SymbolDef, out: &mut Vec<String>)
    ensures
        views(final(out)@).to_set() == views(old(out)@).to_set().union(def_calls(*index, *d)),
{
    let ghost start = views(out@).to_set();
    if !is_fn_like(&d.kind) {
        assert(def_calls(*index, *d) =~= Set::empty());
        assert(start.union(Set::empty()) =~= start);
        return;
    }
    let tags: &FileTags = match index.file_tags(d.location.file.as_str()) {
        Some(t) => t,
        None => {
            assert(def_calls(*index, *d) =~= Set::empty());
            assert(start.union(Set::empty()) =~= start);
            return;
        },
    };
    let ghost refs = file_refs(*index, *d);
    assert(tags.refs@ == refs);
    let (lo, hi) = d.line_range;
    let mut k: usize = 0;
    while k < tags.refs.len()
        invariant
            k <= tags.refs.len(),
            tags.refs@ == refs,
            refs == file_refs(*index, *d),
            fn_like(d.kind),
            index.tags_map().contains_key(d.location.file@),
            (lo, hi) == d.line_range,
            views(out@).to_set() == start.union(
                Set::new(
                    |n: Seq<char>|
                        exists|j: int| 0 <= j < k && calls_at(*index, *d, j) && (#[trigger] refs[j]).name@ == n,
                ),
            ),
        decreases tags.refs.len() - k,
    {
        let r = &tags.refs[k];
        let ln = r.location.line;
        let mut known = false;
        if ln >= lo && ln <= hi {
            let found = index.definitions(r.name.as_str());
            proof {
                lemma_has_def(*index, r.name@, derefs(found@));
            }
            known = found.len() > 0;
        }
        let ghost prev = views(out@);
        if known {
            out.push(r.name.clone());
            proof {
                assert(views(out@) =~= prev.push(r.name@));
            }
        }
        proof {
            let before_k = Set::new(
                |n: Seq<char>|
                    exists|j: int| 0 <= j < k && calls_at(*index, *d, j) && (#[trigger] refs[j]).name@ == n,
            );
            let after_k = Set::new(
                |n: Seq<char>|
                    exists|j: int|
                        0 <= j < k + 1 && calls_at(*index, *d, j) && (#[trigger] refs[j]).name@ == n,
            );
            assert(known == calls_at(*index, *d, k as int));
            if known {
                assert(after_k =~= before_k.insert(r.name@));
                assert(views(out@).to_set() =~= prev.to_set().insert(r.name@)) by {
                    prev.lemma_push_to_set_commute(r.name@);
                }
                assert(start.union(after_k) =~= start.union(before_k).insert(r.name@));
            } else {
                assert(after_k =~= before_k);
            }
        }
        k = k + 1;
    }
    proof {
        let fin = Set::new(
            |n: Seq<char>|
                exists|j: int| 0 <= j < tags.refs.len() && calls_at(*index, *d, j) && (#[trigger] refs[j]).name@ == n,
        );
        assert(fin =~= def_calls(*index, *d));
    }
}

/// Names that `name` calls: the references within the line ranges of the
/// fn/method definitions named `name` that resolve to a known definition.
/// Sorted, without duplicates.
fn callees_of(index: &SymbolIndex, name: &str) -> (res: Vec<String>)
    ensures
        strictly_sorted(views(res@)),
        views(res@).to_set() == callees_set(*index, name@),
{
    let cands = index.definitions(name);
    let ghost cs = derefs(cands@);
    let mut out: Vec<String> = Vec::new();
    let mut i: usize = 0;
    assert(views(out@).to_set() =~= Set::<Seq<char>>::empty());
    while i < cands.len()
        invariant
            i <= cands.len(),
            cs == derefs(cands@),
            cs == index.defs().filter(|d: SymbolDef| named(d, name@)),
            views(out@).to_set() == Set::new(
                |n: Seq<char>| exists|j: int| 0 <= j < i && def_calls(*index, #[trigger] cs[j]).contains(n),
            ),
        decreases cands.len() - i,
    {
        let ghost before = views(out@).to_set();
        collect_def_calls(index, cands[i], &mut out);
        proof {
            assert(cs[i as int] == *cands@[i as int]);
            assert(views(out@).to_set() =~= Set::new(
                |n: Seq<char>| exists|j: int| 0 <= j < i + 1 && def_calls(*index, #[trigger] cs[j]).contains(n),
            ));
        }
        i = i + 1;
    }
    proof {
        let pred = |d: SymbolDef| named(d, name@);
        assert forall|n: Seq<char>| views(out@).to_set().contains(n) <==> callees_set(*index, name@).contains(n) by {
            if views(out@).to_set().contains(n) {
                let j = choose|j: int| 0 <= j < cs.len() && def_calls(*index, #[trigger] cs[j]).contains(n);
                lemma_filter_from(index.defs(), pred, j);
                let i = choose|i: int| 0 <= i < index.defs().len() && index.defs()[i] == cs[j];
                assert(named(index.defs()[i], name@));
            }
            if callees_set(*index, name@).contains(n) {
                let i = choose|i: int|
                    0 <= i < index.defs().len() && named(#[trigger] index.defs()[i], name@)
                        && def_calls(*index, index.defs()[i]).contains(n);
                index.defs().lemma_filter_contains(pred, i);
                let j = choose|j: int| 0 <= j < cs.len() && cs[j] == index.defs()[i];
                assert(def_calls(*index, cs[j]).contains(n));
            }
        }
        assert(views(out@).to_set() =~= callees_set(*index, name@));
    }
    sort_dedup(out)
}

/// The names that one definition calls, sorted, without duplicates.
fn callees_of_def(index: &SymbolIndex, def: &SymbolDef) -> (res: Vec<String>)
    ensures
        strictly_sorted(views(res@)),
        views(res@).to_set() == def_calls(*index, *def),
{
    let mut out: Vec<String> = Vec::new();
    assert(views(out@).to_set() =~= Set::<Seq<char>>::empty());
    collect_def_calls(index, def, &mut out);
    assert(views(out@).to_set() =~= def_calls(*index, *def));
    sort_dedup(out)
}

/// Whether the definition `d` holds a reference to `name` in its range.
fn calls_name(index: &SymbolIndex, d: &SymbolDef, name: &String) -> (r: bool)
    ensures
        r == def_calls_name(*index, *d, name@),
{
    if !is_fn_like(&d.kind) {
        return false;
    }
    let tags: &FileTags = match index.file_tags(d.location.file.as_str()) {
        Some(t) => t,
        None => return false,
    };
    let ghost refs = file_refs(*index, *d);
    let (lo, hi) = d.line_range;
    let mut k: usize = 0;
    while k < tags.refs.len()
        invariant
            k <= tags.refs.len(),
            tags.refs@ == refs,
            refs == file_refs(*index, *d),
            fn_like(d.kind),
            index.tags_map().contains_key(d.location.file@),
            (lo, hi) == d.line_range,
            forall|j: int|
                0 <= j < k ==> !((#[trigger] refs[j]).name@ == name@ && ref_in_range(refs[j], *d)),
        decreases tags.refs.len() - k,
    {
        let r = &tags.refs[k];
        if str_eq(&r.name, name) && r.location.line >= lo && r.location.line <= hi {
            assert(file_refs(*index, *d)[k as int].name@ == name@);
            assert(ref_in_range(file_refs(*index, *d)[k as int], *d));
            return true;
        }
        k = k + 1;
    }
    false
}

/// Names that call `name`: every fn/method definition whose line range holds
/// a reference to `name`.  Sorted, without duplicates.
fn callers_of(index: &SymbolIndex, name: &str) -> (res: Vec<String>)
    ensures
        strictly_sorted(views(res@)),
        views(res@).to_set() == callers_set(*index, name@),
{
    let all = index.search_symbols(None, None);
    let ghost ds = derefs(all@);
    proof {
        let pred = |d: SymbolDef| crate::index::search_matches(d, crate::index::opt_view(None), None);
        crate::lemmas::lemma_filter_all(index.defs(), pred);
    }
    let target = name.to_owned();
    let mut out: Vec<String> = Vec::new();
    let mut i: usize = 0;
    assert(views(out@).to_set() =~= Set::<Seq<char>>::empty());
    while i < all.len()
        invariant
            i <= all.len(),
            ds == derefs(all@),
            ds == index.defs(),
            target@ == name@,
            views(out@).to_set() == Set::new(
                |c: Seq<char>|
                    exists|j: int|
                        0 <= j < i && (#[trigger] ds[j]).name@ == c && def_calls_name(*index, ds[j], name@),
            ),
        decreases all.len() - i,
    {
        let g = all[i];
        let ghost prev = views(out@);
        proof {
            assert(ds[i as int] == *g);
        }
        if calls_name(index, g, &target) {
            out.push(g.name.clone());
            proof {
                assert(views(out@) =~= prev.push(g.name@));
                prev.lemma_push_to_set_commute(g.name@);
            }
        }
        proof {
            assert(views(out@).to_set() =~= Set::new(
                |c: Seq<char>|
                    exists|j: int|
                        0 <= j < i + 1 && (#[trigger] ds[j]).name@ == c && def_calls_name(*index, ds[j], name@),
            ));
        }
        i = i + 1;
    }
    assert(views(out@).to_set() =~= callers_set(*index, name@));
    sort_dedup(out)
}

// ── Breadth-first expansion ─────────────────────────────────────────────────

/// A graph given by each node's set of neighbours.
pub type Graph = spec_fn(Seq<char>) -> Set<Seq<char>>;

/// Consecutive names of `p` are neighbours in `g`.
pub open spec fn walk_in(g: Graph, p: Seq<Seq<char>>) -> bool {
    forall|i: int| 0 <= i < p.len() - 1 ==> g(#[trigger] p[i]).contains(p[i + 1])
}

/// `p` is a walk in `g` that starts at `root`.
pub open spec fn walk_from(g: Graph, root: Seq<char>, p: Seq<Seq<char>>) -> bool {
    p.len() >= 1 && p[0] == root && walk_in(g, p)
}

/// `c` is a closed walk in `g`: at least two names, the first repeated last.
pub open spec fn closed_walk(g: Graph, c: Seq<Seq<char>>) -> bool {
    c.len() >= 2 && c[0] == c[c.len() - 1] && walk_in(g, c)
}

/// The visit order of a traversal forms a tree rooted at `root`: names are
/// distinct, each later node hangs off an earlier neighbour one level
/// deeper, and depths never decrease along the order.
pub open spec fn tree_ok(
    o: Seq<Seq<char>>,
    dep: Seq<usize>,
    par: Seq<usize>,
    root: Seq<char>,
    g: Graph,
) -> bool {
    &&& o.len() >= 1
    &&& dep.len() == o.len()
    &&& par.len() == o.len()
    &&& o[0] == root
    &&& dep[0] == 0
    &&& forall|i: int, j: int| 0 <= i < j < o.len() ==> #[trigger] o[i] != #[trigger] o[j]
    &&& forall|m: int|
        1 <= m < o.len() ==> #[trigger] par[m] < m && dep[m] == dep[par[m] as int] + 1 && g(
            o[par[m] as int],
        ).contains(o[m])
    &&& forall|i: int, j: int| 0 <= i < j < o.len() ==> #[trigger] dep[i] <= #[trigger] dep[j]
}

/// Some visited node is `u` at depth at most `d`.
pub open spec fn covered(o: Seq<Seq<char>>, dep: Seq<usize>, u: Seq<char>, d: int) -> bool {
    exists|m: int| 0 <= m < o.len() && #[trigger] o[m] == u && dep[m] <= d
}

/// The edges a traversal records: one per visited node but the root, from
/// its parent, at its depth.
pub open spec fn tree_edges(o: Seq<Seq<char>>, dep: Seq<usize>, par: Seq<usize>) -> Seq<
    (Seq<char>, Seq<char>, usize),
> {
    Seq::new((o.len() - 1) as nat, |i: int| (o[par[i + 1] as int], o[i + 1], dep[i + 1]))
}

/// The plain contents of an edge.
pub open spec fn edge_view(e: CallEdge) -> (Seq<char>, Seq<char>, usize) {
    (e.from@, e.to@, e.depth)
}

/// The plain contents of a list of edges.
pub open spec fn edges_view(v: Seq<CallEdge>) -> Seq<(Seq<char>, Seq<char>, usize)> {
    v.map_values(|e: CallEdge| edge_view(e))
}

/// The parent chain of node `c`: `c`, its parent, ..., up to the root.
pub open spec fn chain(par: Seq<usize>, c: int) -> Seq<int>
    decreases c,
{
    if c <= 0 || c >= par.len() || par[c] >= c {
        seq![c]
    } else {
        seq![c] + chain(par, par[c] as int)
    }
}

proof fn lemma_chain(par: Seq<usize>, c: int)
    requires
        0 <= c < par.len(),
        forall|m: int| 1 <= m < par.len() ==> #[trigger] par[m] < m,
    ensures
        chain(par, c).len() >= 1,
        chain(par, c)[0] == c,
        chain(par, c).last() == 0,
        forall|k: int| 0 <= k < chain(par, c).len() ==> 0 <= #[trigger] chain(par, c)[k] <= c,
        forall|k: int|
            0 <= k < chain(par, c).len() - 1 ==> #[trigger] chain(par, c)[k] > 0 && chain(par, c)[k
                + 1] == par[chain(par, c)[k]],
    decreases c,
{
    if c > 0 {
        let p = par[c] as int;
        lemma_chain(par, p);
        let rest = chain(par, p);
        assert(chain(par, c) == seq![c] + rest);
        assert forall|k: int| 0 <= k < chain(par, c).len() - 1 implies #[trigger] chain(par, c)[k]
            > 0 && chain(par, c)[k + 1] == par[chain(par, c)[k]] by {
            if k > 0 {
                assert(chain(par, c)[k] == rest[k - 1]);
                assert(chain(par, c)[k + 1] == rest[k]);
            }
        }
        assert forall|k: int| 0 <= k < chain(par, c).len() implies 0 <= #[trigger] chain(par, c)[k]
            <= c by {
            if k > 0 {
                assert(chain(par, c)[k] == rest[k - 1]);
            }
        }
    }
}

/// A sequence of indices as integers.
pub open spec fn ints(s: Seq<usize>) -> Seq<int> {
    s.map_values(|x: usize| x as int)
}

/// Where `n` stands in `order`, if it is there.
fn position_of(order: &Vec<String>, n: &String) -> (r: Option<usize>)
    ensures
        r matches Some(m) ==> m < order.len() && order@[m as int]@ == n@,
        r is None ==> forall|m: int| 0 <= m < order.len() ==> (#[trigger] order@[m])@ != n@,
{
    let mut i: usize = 0;
    while i < order.len()
        invariant
            i <= order.len(),
            forall|m: int| 0 <= m < i ==> (#[trigger] order@[m])@ != n@,
        decreases order.len() - i,
    {
        if str_eq(&order[i], n) {
            return Some(i);
        }
        i = i + 1;
    }
    None
}

/// If `ancestor` lies on `child`'s parent chain (or is `child` itself), the
/// closed cycle path `[ancestor, ..., child, ancestor]`; `None` for an edge
/// into a node reached through an unrelated branch.
#[verifier::spinoff_prover]
#[verifier::rlimit(40)]
fn find_cycle(
    order: &Vec<String>,
    parents: &Vec<usize>,
    child: usize,
    ancestor: &String,
    Ghost(dep): Ghost<Seq<usize>>,
    Ghost(root): Ghost<Seq<char>>,
    Ghost(g): Ghost<Graph>,
) -> (res: Option<Vec<String>>)
    requires
        tree_ok(views(order@), dep, parents@, root, g),
        child < order.len(),
        g(order@[child as int]@).contains(ancestor@),
    ensures
        res is Some <==> exists|k: int|
            0 <= k < chain(parents@, child as int).len() && (#[trigger] order@[chain(
                parents@,
                child as int,
            )[k]])@ == ancestor@,
        res matches Some(c) ==> closed_walk(g, views(c@)) && views(c@)[0] == ancestor@,
        res matches Some(c) ==> exists|k: int|
            0 <= k < chain(parents@, child as int).len() && views(order@)[chain(parents@, child as int)[k]]
                == ancestor@ && #[trigger] chain_cycle(views(order@), parents@, child as int, k) == views(c@),
{
    let ghost o = views(order@);
    let ghost par = parents@;
    let ghost full = chain(par, child as int);
    proof {
        lemma_chain(par, child as int);
    }
    let mut ch: Vec<usize> = Vec::new();
    ch.push(child);
    let mut cur = child;
    assert(ints(ch@) + chain(par, cur as int).drop_first() =~= full);
    while cur > 0
        invariant
            cur < order.len(),
            par == parents@,
            par.len() == order.len(),
            ints(ch@) + chain(par, cur as int).drop_first() == full,
            forall|m: int| 1 <= m < par.len() ==> #[trigger] par[m] < m,
        decreases cur,
    {
        let p = parents[cur];
        proof {
            lemma_chain(par, cur as int);
            lemma_chain(par, p as int);
            assert(chain(par, cur as int) == seq![cur as int] + chain(par, p as int));
            assert(chain(par, cur as int).drop_first() =~= chain(par, p as int));
            assert(chain(par, p as int) =~= seq![p as int] + chain(par, p as int).drop_first());
        }
        let ghost before = ch@;
        ch.push(p);
        proof {
            assert(ints(ch@) =~= ints(before).push(p as int));
            assert(ints(ch@) + chain(par, p as int).drop_first() =~= full);
        }
        cur = p;
    }
    proof {
        assert(chain(par, 0int) == seq![0int]);
        assert(ints(ch@) =~= full) by {
            assert(chain(par, cur as int).drop_first() =~= Seq::<int>::empty());
        }
        assert forall|k: int| 0 <= k < full.len() implies #[trigger] ch@[k] as int == full[k] by {
            assert(ints(ch@)[k] == full[k]);
        }
    }
    // The first position on the chain holding `ancestor`.
    let mut pos: usize = 0;
    let mut found = false;
    while !found && pos < ch.len()
        invariant
            ch@.len() == full.len(),
            forall|k: int| 0 <= k < full.len() ==> #[trigger] ch@[k] as int == full[k],
            forall|k: int| 0 <= k < full.len() ==> 0 <= #[trigger] full[k] < order.len(),
            pos <= ch.len(),
            found ==> pos < ch.len() && order@[ch@[pos as int] as int]@ == ancestor@,
            !found ==> forall|k: int| 0 <= k < pos ==> (#[trigger] order@[full[k]])@ != ancestor@,
        decreases ch.len() - pos + (if found { 0int } else { 1int }),
    {
        if str_eq(&order[ch[pos]], ancestor) {
            found = true;
        } else {
            pos = pos + 1;
        }
    }
    if !found {
        return None;
    }
    let mut cycle: Vec<String> = Vec::new();
    let mut t: usize = 0;
    while t <= pos
        invariant
            pos < ch.len(),
            ch@.len() == full.len(),
            forall|k: int| 0 <= k < full.len() ==> #[trigger] ch@[k] as int == full[k],
            forall|k: int| 0 <= k < full.len() ==> 0 <= #[trigger] full[k] < order.len(),
            t <= pos + 1,
            cycle@.len() == t,
            forall|i: int| 0 <= i < t ==> #[trigger] views(cycle@)[i] == o[full[pos - i]],
            o == views(order@),
        decreases pos + 1 - t,
    {
        let ghost prev = cycle@;
        cycle.push(order[ch[pos - t]].clone());
        proof {
            assert forall|i: int| 0 <= i < t + 1 implies #[trigger] views(cycle@)[i] == o[full[pos - i]] by {
                assert(views(cycle@)[i] == cycle@[i]@);
                if i < t {
                    assert(cycle@[i] == prev[i]);
                    assert(views(prev)[i] == prev[i]@);
                } else {
                    assert(ch@[pos - t] as int == full[pos - t]);
                    assert(o[full[pos - i]] == order@[full[pos - i]]@);
                }
            }
        }
        t = t + 1;
    }
    let ghost prev = cycle@;
    cycle.push(ancestor.clone());
    proof {
        let c = views(cycle@);
        assert forall|i: int| 0 <= i < pos + 1 implies #[trigger] c[i] == o[full[pos - i]] by {
            assert(cycle@[i] == prev[i]);
            assert(views(prev)[i] == prev[i]@);
            assert(c[i] == cycle@[i]@);
        }
        assert(c[pos + 1] == ancestor@);
        assert forall|i: int| 0 <= i < c.len() - 1 implies g(#[trigger] c[i]).contains(c[i + 1]) by {
            if i < pos {
                let m = full[pos - i - 1];
                assert(full[pos - i] == par[m]);
                assert(c[i + 1] == o[m]);
            } else {
                assert(full[0] == child);
            }
        }
        assert(c[0] == ancestor@);
        assert(ch@[pos as int] as int == full[pos as int]);
        assert(o[full[pos as int]] == ancestor@);
        assert(c =~= chain_cycle(o, par, child as int, pos as int));
    }
    Some(cycle)
}

// ── Cycles a traversal reports ─────────────────────────────────────────────

/// Positions along a parent chain strictly decrease, so no node occurs on
/// it twice.
proof fn lemma_chain_decreasing(par: Seq<usize>, c: int, k1: int, k2: int)
    requires
        0 <= c < par.len(),
        forall|m: int| 1 <= m < par.len() ==> #[trigger] par[m] < m,
        0 <= k1 < k2 < chain(par, c).len(),
    ensures
        chain(par, c)[k1] > chain(par, c)[k2],
    decreases k2 - k1,
{
    lemma_chain(par, c);
    if k2 > k1 + 1 {
        lemma_chain_decreasing(par, c, k1 + 1, k2);
    }
}

/// A node's parent chain is unchanged by nodes appended after it.
proof fn lemma_chain_push(par: Seq<usize>, p: usize, w: int)
    requires
        0 <= w < par.len(),
    ensures
        chain(par.push(p), w) == chain(par, w),
    decreases w,
{
    let par2 = par.push(p);
    assert(par2[w] == par[w]);
    if w > 0 && par[w] < w {
        lemma_chain_push(par, p, par[w] as int);
    }
}

/// The closed path for an edge from node `w` back to the node at position
/// `k` of `w`'s parent chain: the chain's names from that node down to `w`,
/// then that node's name again.
pub open spec fn chain_cycle(o: Seq<Seq<char>>, par: Seq<usize>, w: int, k: int) -> Seq<Seq<char>> {
    Seq::new(
        (k + 2) as nat,
        |i: int|
            if i <= k {
                o[chain(par, w)[k - i]]
            } else {
                o[chain(par, w)[k]]
            },
    )
}

/// The cycles a traversal reports: one for every node short of the hop
/// budget with a neighbour on its own parent chain (itself included).
pub open spec fn back_edge_cycles(
    o: Seq<Seq<char>>,
    dep: Seq<usize>,
    par: Seq<usize>,
    g: Graph,
    max_hops: usize,
) -> Set<Seq<Seq<char>>> {
    Set::new(
        |c: Seq<Seq<char>>|
            exists|w: int, k: int|
                #![trigger chain_cycle(o, par, w, k)]
                0 <= w < o.len() && dep[w] < max_hops && 0 <= k < chain(par, w).len() && g(
                    o[w],
                ).contains(o[chain(par, w)[k]]) && c == chain_cycle(o, par, w, k),
    )
}

/// The cycles reported once the nodes before `head` are expanded, and
/// `head` itself towards its neighbours in `done`.
spec fn cycles_upto(
    o: Seq<Seq<char>>,
    dep: Seq<usize>,
    par: Seq<usize>,
    g: Graph,
    max_hops: usize,
    head: int,
    done: Set<Seq<char>>,
) -> Set<Seq<Seq<char>>> {
    Set::new(
        |c: Seq<Seq<char>>|
            exists|w: int, k: int|
                #![trigger chain_cycle(o, par, w, k)]
                0 <= w < o.len() && w <= head && dep[w] < max_hops && 0 <= k < chain(par, w).len()
                    && g(o[w]).contains(o[chain(par, w)[k]]) && (w < head || done.contains(
                    o[chain(par, w)[k]],
                )) && c == chain_cycle(o, par, w, k),
    )
}

/// Appending a node after `head` changes none of the cycles so far.
proof fn lemma_cycles_upto_push(
    o: Seq<Seq<char>>,
    dep: Seq<usize>,
    par: Seq<usize>,
    g: Graph,
    max_hops: usize,
    head: int,
    done: Set<Seq<char>>,
    x: Seq<char>,
    d: usize,
    p: usize,
)
    requires
        0 <= head < o.len(),
        o.len() == dep.len(),
        dep.len() == par.len(),
        forall|m: int| 1 <= m < par.len() ==> #[trigger] par[m] < m,
    ensures
        cycles_upto(o.push(x), dep.push(d), par.push(p), g, max_hops, head, done) == cycles_upto(
            o,
            dep,
            par,
            g,
            max_hops,
            head,
            done,
        ),
{
    let (o2, d2, p2) = (o.push(x), dep.push(d), par.push(p));
    let a = cycles_upto(o2, d2, p2, g, max_hops, head, done);
    let b = cycles_upto(o, dep, par, g, max_hops, head, done);
    assert forall|w: int, k: int| 0 <= w <= head && 0 <= k < chain(par, w).len() implies chain_cycle(o2, p2, w, k)
        == chain_cycle(o, par, w, k) && o2[chain(p2, w)[k]] == o[chain(par, w)[k]] && o2[w] == o[w] && d2[w]
        == dep[w] && chain(p2, w) == chain(par, w) by {
        lemma_chain_push(par, p, w);
        lemma_chain(par, w);
        assert(chain_cycle(o2, p2, w, k) =~= chain_cycle(o, par, w, k));
    }
    assert forall|c: Seq<Seq<char>>| a.contains(c) implies b.contains(c) by {
        let (w, k) = choose|w: int, k: int|
            #![trigger chain_cycle(o2, p2, w, k)]
            0 <= w < o2.len() && w <= head && d2[w] < max_hops && 0 <= k < chain(p2, w).len() && g(o2[w]).contains(
                o2[chain(p2, w)[k]],
            ) && (w < head || done.contains(o2[chain(p2, w)[k]])) && c == chain_cycle(o2, p2, w, k);
        lemma_chain_push(par, p, w);
        assert(chain_cycle(o2, p2, w, k) == chain_cycle(o, par, w, k));
    }
    assert forall|c: Seq<Seq<char>>| b.contains(c) implies a.contains(c) by {
        let (w, k) = choose|w: int, k: int|
            #![trigger chain_cycle(o, par, w, k)]
            0 <= w < o.len() && w <= head && dep[w] < max_hops && 0 <= k < chain(par, w).len() && g(o[w]).contains(
                o[chain(par, w)[k]],
            ) && (w < head || done.contains(o[chain(par, w)[k]])) && c == chain_cycle(o, par, w, k);
        lemma_chain_push(par, p, w);
        assert(chain_cycle(o2, p2, w, k) == chain_cycle(o, par, w, k));
    }
    assert(a =~= b);
}

/// A neighbour `u` of `head` at position `kk` of its parent chain adds one
/// cycle.
proof fn lemma_cycles_on_chain(
    o: Seq<Seq<char>>,
    dep: Seq<usize>,
    par: Seq<usize>,
    root: Seq<char>,
    g: Graph,
    max_hops: usize,
    head: int,
    done: Set<Seq<char>>,
    kk: int,
)
    requires
        tree_ok(o, dep, par, root, g),
        0 <= head < o.len(),
        dep[head] < max_hops,
        0 <= kk < chain(par, head).len(),
        g(o[head]).contains(o[chain(par, head)[kk]]),
    ensures
        cycles_upto(o, dep, par, g, max_hops, head, done.insert(o[chain(par, head)[kk]])) == cycles_upto(
            o,
            dep,
            par,
            g,
            max_hops,
            head,
            done,
        ).insert(chain_cycle(o, par, head, kk)),
{
    let u = o[chain(par, head)[kk]];
    let a = cycles_upto(o, dep, par, g, max_hops, head, done.insert(u));
    let b = cycles_upto(o, dep, par, g, max_hops, head, done).insert(chain_cycle(o, par, head, kk));
    lemma_chain(par, head);
    assert forall|c: Seq<Seq<char>>| a.contains(c) implies b.contains(c) by {
        let (w, k) = choose|w: int, k: int|
            #![trigger chain_cycle(o, par, w, k)]
            0 <= w < o.len() && w <= head && dep[w] < max_hops && 0 <= k < chain(par, w).len() && g(o[w]).contains(
                o[chain(par, w)[k]],
            ) && (w < head || done.insert(u).contains(o[chain(par, w)[k]])) && c == chain_cycle(o, par, w, k);
        if w == head && !done.contains(o[chain(par, w)[k]]) {
            assert(o[chain(par, head)[k]] == u);
            if k != kk {
                if k < kk {
                    lemma_chain_decreasing(par, head, k, kk);
                } else {
                    lemma_chain_decreasing(par, head, kk, k);
                }
                let (i1, i2) = (chain(par, head)[k], chain(par, head)[kk]);
                if i1 < i2 {
                    assert(o[i1] != o[i2]);
                } else {
                    assert(o[i2] != o[i1]);
                }
            }
        }
    }
    assert forall|c: Seq<Seq<char>>| b.contains(c) implies a.contains(c) by {
        if c == chain_cycle(o, par, head, kk) {
            assert(done.insert(u).contains(o[chain(par, head)[kk]]));
        } else {
            let (w, k) = choose|w: int, k: int|
                #![trigger chain_cycle(o, par, w, k)]
                0 <= w < o.len() && w <= head && dep[w] < max_hops && 0 <= k < chain(par, w).len() && g(o[w]).contains(
                    o[chain(par, w)[k]],
                ) && (w < head || done.contains(o[chain(par, w)[k]])) && c == chain_cycle(o, par, w, k);
            assert(w < head || done.insert(u).contains(o[chain(par, w)[k]]));
        }
    }
    assert(a =~= b);
}

/// A neighbour of `head` that is not on its parent chain adds no cycle.
proof fn lemma_cycles_off_chain(
    o: Seq<Seq<char>>,
    dep: Seq<usize>,
    par: Seq<usize>,
    g: Graph,
    max_hops: usize,
    head: int,
    done: Set<Seq<char>>,
    u: Seq<char>,
)
    requires
        0 <= head < o.len(),
        forall|k: int| 0 <= k < chain(par, head).len() ==> #[trigger] o[chain(par, head)[k]] != u,
    ensures
        cycles_upto(o, dep, par, g, max_hops, head, done.insert(u)) == cycles_upto(o, dep, par, g, max_hops, head, done),
{
    let a = cycles_upto(o, dep, par, g, max_hops, head, done.insert(u));
    let b = cycles_upto(o, dep, par, g, max_hops, head, done);
    assert forall|c: Seq<Seq<char>>| a.contains(c) implies b.contains(c) by {
        let (w, k) = choose|w: int, k: int|
            #![trigger chain_cycle(o, par, w, k)]
            0 <= w < o.len() && w <= head && dep[w] < max_hops && 0 <= k < chain(par, w).len() && g(o[w]).contains(
                o[chain(par, w)[k]],
            ) && (w < head || done.insert(u).contains(o[chain(par, w)[k]])) && c == chain_cycle(o, par, w, k);
        if w == head {
            assert(o[chain(par, head)[k]] != u);
        }
    }
    assert forall|c: Seq<Seq<char>>| b.contains(c) implies a.contains(c) by {
        let (w, k) = choose|w: int, k: int|
            #![trigger chain_cycle(o, par, w, k)]
            0 <= w < o.len() && w <= head && dep[w] < max_hops && 0 <= k < chain(par, w).len() && g(o[w]).contains(
                o[chain(par, w)[k]],
            ) && (w < head || done.contains(o[chain(par, w)[k]])) && c == chain_cycle(o, par, w, k);
        assert(w < head || done.insert(u).contains(o[chain(par, w)[k]]));
    }
    assert(a =~= b);
}

/// Moving on from `head`, once all its neighbours are done (or it is not
/// expanded at all).
proof fn lemma_cycles_next_head(
    o: Seq<Seq<char>>,
    dep: Seq<usize>,
    par: Seq<usize>,
    g: Graph,
    max_hops: usize,
    head: int,
    done: Set<Seq<char>>,
)
    requires
        0 <= head < o.len(),
        dep[head] < max_hops ==> done == g(o[head]),
    ensures
        cycles_upto(o, dep, par, g, max_hops, head, done) == cycles_upto(o, dep, par, g, max_hops, head + 1, Set::empty()),
{
    let a = cycles_upto(o, dep, par, g, max_hops, head, done);
    let b = cycles_upto(o, dep, par, g, max_hops, head + 1, Set::empty());
    assert forall|c: Seq<Seq<char>>| a.contains(c) implies b.contains(c) by {
        let (w, k) = choose|w: int, k: int|
            #![trigger chain_cycle(o, par, w, k)]
            0 <= w < o.len() && w <= head && dep[w] < max_hops && 0 <= k < chain(par, w).len() && g(o[w]).contains(
                o[chain(par, w)[k]],
            ) && (w < head || done.contains(o[chain(par, w)[k]])) && c == chain_cycle(o, par, w, k);
        assert(w < head + 1);
    }
    assert forall|c: Seq<Seq<char>>| b.contains(c) implies a.contains(c) by {
        let (w, k) = choose|w: int, k: int|
            #![trigger chain_cycle(o, par, w, k)]
            0 <= w < o.len() && w <= head + 1 && dep[w] < max_hops && 0 <= k < chain(par, w).len() && g(o[w]).contains(
                o[chain(par, w)[k]],
            ) && (w < head + 1 || Set::<Seq<char>>::empty().contains(o[chain(par, w)[k]])) && c == chain_cycle(o, par, w, k);
        assert(w < head || done.contains(o[chain(par, w)[k]]));
    }
    assert(a =~= b);
}

/// Before any node is expanded there is no cycle; once all are, the
/// cycles are the back-edge cycles.
proof fn lemma_cycles_upto_ends(o: Seq<Seq<char>>, dep: Seq<usize>, par: Seq<usize>, g: Graph, max_hops: usize)
    ensures
        cycles_upto(o, dep, par, g, max_hops, 0, Set::empty()) == Set::<Seq<Seq<char>>>::empty(),
        cycles_upto(o, dep, par, g, max_hops, o.len() as int, Set::empty()) == back_edge_cycles(
            o,
            dep,
            par,
            g,
            max_hops,
        ),
{
    assert(cycles_upto(o, dep, par, g, max_hops, 0, Set::empty()) =~= Set::<Seq<Seq<char>>>::empty());
    let a = cycles_upto(o, dep, par, g, max_hops, o.len() as int, Set::empty());
    let b = back_edge_cycles(o, dep, par, g, max_hops);
    assert forall|c: Seq<Seq<char>>| a.contains(c) <==> b.contains(c) by {
        if b.contains(c) {
            let (w, k) = choose|w: int, k: int|
                #![trigger chain_cycle(o, par, w, k)]
                0 <= w < o.len() && dep[w] < max_hops && 0 <= k < chain(par, w).len() && g(o[w]).contains(
                    o[chain(par, w)[k]],
                ) && c == chain_cycle(o, par, w, k);
            assert(w < o.len());
        }
    }
    assert(a =~= b);
}

/// The graph a traversal follows: who calls whom, or who is called by whom.
/// With a scoped root definition, the root's own callees are those of that
/// definition alone; every other node is resolved by name.
pub open spec fn graph_of(idx: SymbolIndex, dir: Direction, scoped: Option<SymbolDef>) -> Graph {
    |n: Seq<char>|
        if dir == Direction::Callers {
            callers_set(idx, n)
        } else if scoped is Some && n == scoped->0.name@ {
            def_calls(idx, scoped->0)
        } else {
            callees_set(idx, n)
        }
}

/// The definition behind an optional reference.
pub open spec fn opt_def(o: Option<&SymbolDef>) -> Option<SymbolDef> {
    match o {
        Some(d) => Some(*d),
        None => None,
    }
}

/// Every neighbour in a call graph names a known definition.
proof fn lemma_graph_targets_defined(idx: SymbolIndex, dir: Direction, scoped: Option<SymbolDef>)
    ensures
        forall|n: Seq<char>, u: Seq<char>|
            #[trigger] graph_of(idx, dir, scoped)(n).contains(u) ==> has_def(idx.defs(), u),
{
    assert forall|n: Seq<char>, u: Seq<char>|
        #[trigger] graph_of(idx, dir, scoped)(n).contains(u) implies has_def(idx.defs(), u) by {
        if dir == Direction::Callers {
            let i = choose|i: int|
                0 <= i < idx.defs().len() && (#[trigger] idx.defs()[i]).name@ == u
                    && def_calls_name(idx, idx.defs()[i], n);
        } else if scoped is Some && n == scoped->0.name@ {
            let d = scoped->0;
            let k = choose|k: int| calls_at(idx, d, k) && (#[trigger] file_refs(idx, d)[k]).name@ == u;
        } else {
            let i = choose|i: int|
                0 <= i < idx.defs().len() && named(#[trigger] idx.defs()[i], n) && def_calls(
                    idx,
                    idx.defs()[i],
                ).contains(u);
            let d = idx.defs()[i];
            let k = choose|k: int| calls_at(idx, d, k) && (#[trigger] file_refs(idx, d)[k]).name@ == u;
        }
    }
}

/// The neighbours of `node` in the graph a traversal follows, sorted,
/// without duplicates.
fn neighbors(index: &SymbolIndex, dir: Direction, scoped: Option<&SymbolDef>, node: &String) -> (res: Vec<String>)
    ensures
        strictly_sorted(views(res@)),
        views(res@).to_set() == graph_of(*index, dir, opt_def(scoped))(node@),
{
    if dir == Direction::Callers {
        return callers_of(index, node.as_str());
    }
    match scoped {
        Some(d) => {
            if str_eq(&d.name, node) {
                return callees_of_def(index, d);
            }
        },
        None => {},
    }
    callees_of(index, node.as_str())
}

/// Every neighbour of the expanded node `w` was visited at most one level
/// deeper.
pub open spec fn expanded(o: Seq<Seq<char>>, dep: Seq<usize>, g: Graph, w: int) -> bool {
    forall|u: Seq<char>| #[trigger] g(o[w]).contains(u) ==> covered(o, dep, u, dep[w] + 1)
}

/// `a` and `b` are prefixes of `a2` and `b2`.
pub open spec fn extends<A, B>(a: Seq<A>, b: Seq<B>, a2: Seq<A>, b2: Seq<B>) -> bool {
    a.len() <= a2.len() && b.len() <= b2.len() && a2.take(a.len() as int) == a && b2.take(
        b.len() as int,
    ) == b
}

proof fn lemma_covered_extend(
    o: Seq<Seq<char>>,
    dep: Seq<usize>,
    o2: Seq<Seq<char>>,
    dep2: Seq<usize>,
    u: Seq<char>,
    d: int,
)
    requires
        covered(o, dep, u, d),
        o.len() == dep.len(),
        extends(o, dep, o2, dep2),
    ensures
        covered(o2, dep2, u, d),
{
    let m = choose|m: int| 0 <= m < o.len() && #[trigger] o[m] == u && dep[m] <= d;
    assert(o2.take(o.len() as int)[m] == o2[m]);
    assert(dep2.take(dep.len() as int)[m] == dep2[m]);
}

proof fn lemma_expanded_extend(
    o: Seq<Seq<char>>,
    dep: Seq<usize>,
    o2: Seq<Seq<char>>,
    dep2: Seq<usize>,
    g: Graph,
    w: int,
)
    requires
        0 <= w < o.len(),
        o.len() == dep.len(),
        expanded(o, dep, g, w),
        extends(o, dep, o2, dep2),
    ensures
        expanded(o2, dep2, g, w),
{
    assert(o2.take(o.len() as int)[w] == o2[w]);
    assert(dep2.take(dep.len() as int)[w] == dep2[w]);
    assert forall|u: Seq<char>| #[trigger] g(o2[w]).contains(u) implies covered(o2, dep2, u, dep2[w] + 1) by {
        lemma_covered_extend(o, dep, o2, dep2, u, dep[w] + 1);
    }
}

/// Distinct names that all name definitions number at most the definitions.
proof fn lemma_visit_bound(o: Seq<Seq<char>>, defs: Seq<SymbolDef>)
    requires
        o.len() >= 1,
        forall|i: int, j: int| 0 <= i < j < o.len() ==> #[trigger] o[i] != #[trigger] o[j],
        forall|m: int| 1 <= m < o.len() ==> has_def(defs, #[trigger] o[m]),
    ensures
        o.len() <= defs.len() + 1,
{
    let rest = o.drop_first();
    let names = defs.map_values(|d: SymbolDef| d.name@);
    assert(rest.no_duplicates()) by {
        assert forall|i: int, j: int| 0 <= i < rest.len() && 0 <= j < rest.len() && i != j implies rest[i] != rest[j] by {
            if i < j {
                assert(o[i + 1] != o[j + 1]);
            } else {
                assert(o[j + 1] != o[i + 1]);
            }
        }
    }
    rest.unique_seq_to_set();
    assert(rest.to_set().subset_of(names.to_set())) by {
        assert forall|x: Seq<char>| rest.to_set().contains(x) implies names.to_set().contains(x) by {
            let m = choose|m: int| 0 <= m < rest.len() && rest[m] == x;
            assert(has_def(defs, o[m + 1]));
            let i = choose|i: int| 0 <= i < defs.len() && (#[trigger] defs[i]).name@ == o[m + 1];
            assert(names[i] == x);
        }
    }
    names.lemma_cardinality_of_set();
    vstd::set_lib::lemma_len_subset(rest.to_set(), names.to_set());
}

/// A breadth-first traversal: nodes in visit order with their depths and the
/// index of the node each was discovered from.
struct Traversal {
    order: Vec<String>,
    depths: Vec<usize>,
    parents: Vec<usize>,
}

/// What a traversal from `root` with hop budget `max_hops` leaves behind.
pub open spec fn traversal_ok(
    o: Seq<Seq<char>>,
    dep: Seq<usize>,
    par: Seq<usize>,
    root: Seq<char>,
    g: Graph,
    max_hops: usize,
) -> bool {
    &&& tree_ok(o, dep, par, root, g)
    &&& forall|m: int| 0 <= m < o.len() ==> #[trigger] dep[m] <= max_hops
    &&& forall|p: Seq<Seq<char>>|
        walk_from(g, root, p) && p.len() - 1 <= max_hops ==> #[trigger] covered(
            o,
            dep,
            p[p.len() - 1],
            p.len() - 1,
        )
    &&& discovery_ordered(o, par)
    &&& first_parent(o, dep, par, g, max_hops)
}

/// Nodes are discovered parent by parent in visit order, and the new
/// children of one parent in name order.
pub open spec fn discovery_ordered(o: Seq<Seq<char>>, par: Seq<usize>) -> bool {
    forall|m1: int, m2: int|
        1 <= m1 < m2 < o.len() ==> #[trigger] par[m1] <= #[trigger] par[m2] && (par[m1] == par[m2]
            ==> lex_lt(o[m1], o[m2]))
}

/// Each node hangs off the first expanded node that has it as a neighbour.
pub open spec fn first_parent(o: Seq<Seq<char>>, dep: Seq<usize>, par: Seq<usize>, g: Graph, max_hops: usize) -> bool {
    forall|m: int, w: int|
        1 <= m < o.len() && 0 <= w < par[m] && dep[w] < max_hops ==> !g(#[trigger] o[w]).contains(
            #[trigger] o[m],
        )
}

/// Every node within `max_hops` of the root is visited no deeper than a
/// walk reaches it, once every node short of the budget has been expanded.
proof fn lemma_bfs_complete(
    o: Seq<Seq<char>>,
    dep: Seq<usize>,
    par: Seq<usize>,
    root: Seq<char>,
    g: Graph,
    max_hops: usize,
    p: Seq<Seq<char>>,
)
    requires
        tree_ok(o, dep, par, root, g),
        forall|w: int| 0 <= w < o.len() && dep[w] < max_hops ==> #[trigger] expanded(o, dep, g, w),
        walk_from(g, root, p),
        p.len() - 1 <= max_hops,
    ensures
        covered(o, dep, p[p.len() - 1], p.len() - 1),
    decreases p.len(),
{
    if p.len() == 1 {
        assert(o[0] == p[0]);
    } else {
        let q = p.drop_last();
        assert(walk_from(g, root, q)) by {
            assert forall|i: int| 0 <= i < q.len() - 1 implies g(#[trigger] q[i]).contains(q[i + 1]) by {
                assert(q[i] == p[i] && q[i + 1] == p[i + 1]);
                assert(g(p[i]).contains(p[i + 1]));
            }
        }
        lemma_bfs_complete(o, dep, par, root, g, max_hops, q);
        let w = choose|w: int| 0 <= w < o.len() && #[trigger] o[w] == q[q.len() - 1] && dep[w] <= q.len() - 1;
        assert(expanded(o, dep, g, w));
        assert(g(p[p.len() - 2]).contains(p[p.len() - 1]));
        assert(g(o[w]).contains(p[p.len() - 1]));
        let m = choose|m: int| 0 <= m < o.len() && #[trigger] o[m] == p[p.len() - 1] && dep[m] <= dep[w] + 1;
    }
}

/// Breadth-first traversal keyed by node, so the first (and only) visit to
/// any node is at its minimal hop count.  Each dequeued node's neighbours
/// are computed once: under `max_hops` the node is expanded (edges
/// recorded, new neighbours enqueued one level deeper, edges back to an
/// ancestor reported as cycles); at `max_hops` its neighbours are only
/// checked for emptiness, to set `truncated`.
#[verifier::spinoff_prover]
#[verifier::rlimit(100)]
fn bfs_expand(
    index: &SymbolIndex,
    root: &str,
    max_hops: usize,
    edges: &mut Vec<CallEdge>,
    cycles: &mut Vec<Vec<String>>,
    truncated: &mut bool,
    direction: Direction,
    scoped: Option<&SymbolDef>,
) -> (t: Traversal)
    ensures
        traversal_ok(
            views(t.order@),
            t.depths@,
            t.parents@,
            root@,
            graph_of(*index, direction, opt_def(scoped)),
            max_hops,
        ),
        edges_view(final(edges)@) == edges_view(old(edges)@) + tree_edges(
            views(t.order@),
            t.depths@,
            t.parents@,
        ),
        final(cycles)@.len() >= old(cycles)@.len(),
        final(cycles)@.take(old(cycles)@.len() as int) == old(cycles)@,
        forall|k: int|
            old(cycles)@.len() <= k < final(cycles)@.len() ==> closed_walk(
                graph_of(*index, direction, opt_def(scoped)),
                #[trigger] path_views(final(cycles)@)[k],
            ),
        *final(truncated) == (*old(truncated) || exists|m: int|
            0 <= m < t.order@.len() && t.depths@[m] >= max_hops && exists|x: Seq<char>|
                #[trigger] graph_of(*index, direction, opt_def(scoped))(
                    (#[trigger] t.order@[m])@,
                ).contains(x)),
        path_views(final(cycles)@.skip(old(cycles)@.len() as int)).to_set() == back_edge_cycles(
            views(t.order@),
            t.depths@,
            t.parents@,
            graph_of(*index, direction, opt_def(scoped)),
            max_hops,
        ),
{
    let ghost g = graph_of(*index, direction, opt_def(scoped));
    let ghost e0 = edges_view(edges@);
    let ghost c0 = cycles@;
    let ghost t0 = *truncated;
    proof {
        lemma_graph_targets_defined(*index, direction, opt_def(scoped));
    }
    let mut order: Vec<String> = Vec::new();
    order.push(root.to_owned());
    let mut depths: Vec<usize> = Vec::new();
    depths.push(0);
    let mut parents: Vec<usize> = Vec::new();
    parents.push(0);
    let mut head: usize = 0;
    proof {
        assert(tree_edges(views(order@), depths@, parents@) =~= Seq::empty());
        assert(edges_view(edges@) =~= e0 + tree_edges(views(order@), depths@, parents@));
        assert(cycles@.take(c0.len() as int) =~= c0);
        assert(path_views(cycles@.skip(c0.len() as int)).to_set() =~= Set::empty());
        lemma_cycles_upto_ends(views(order@), depths@, parents@, g, max_hops);
    }
    while head < order.len()
        invariant
            g == graph_of(*index, direction, opt_def(scoped)),
            forall|n: Seq<char>, u: Seq<char>| #[trigger] g(n).contains(u) ==> has_def(index.defs(), u),
            tree_ok(views(order@), depths@, parents@, root@, g),
            head <= order.len(),
            order.len() <= index.defs().len() + 1,
            head < order.len() ==> forall|m: int|
                head <= m < order.len() ==> #[trigger] depths@[m] <= depths@[head as int] + 1,
            forall|w: int|
                0 <= w < head && depths@[w] < max_hops ==> #[trigger] expanded(
                    views(order@),
                    depths@,
                    g,
                    w,
                ),
            forall|m: int| 0 <= m < order.len() ==> #[trigger] depths@[m] <= max_hops,
            forall|m: int| 1 <= m < order.len() ==> has_def(index.defs(), #[trigger] views(order@)[m]),
            edges_view(edges@) == e0 + tree_edges(views(order@), depths@, parents@),
            cycles@.len() >= c0.len(),
            cycles@.take(c0.len() as int) == c0,
            forall|k: int| c0.len() <= k < cycles@.len() ==> closed_walk(g, #[trigger] path_views(cycles@)[k]),
            *truncated == (t0 || exists|m: int|
                0 <= m < head && depths@[m] >= max_hops && exists|x: Seq<char>|
                    #[trigger] g((#[trigger] order@[m])@).contains(x)),
            path_views(cycles@.skip(c0.len() as int)).to_set() == cycles_upto(
                views(order@),
                depths@,
                parents@,
                g,
                max_hops,
                head as int,
                Set::empty(),
            ),
            discovery_ordered(views(order@), parents@),
            first_parent(views(order@), depths@, parents@, g, max_hops),
            forall|m: int| 1 <= m < order.len() ==> #[trigger] parents@[m] < head,
        decreases index.defs().len() + 1 - head,
    {
        let current = order[head].clone();
        let depth = depths[head];
        let nbs = neighbors(index, direction, scoped, &current);
        if depth >= max_hops {
            // Boundary node: only check whether it hides further, unexpanded edges.
            proof {
                assert(views(nbs@).to_set() == g(order@[head as int]@));
                if nbs.len() > 0 {
                    assert(views(nbs@).to_set().contains(views(nbs@)[0]));
                } else {
                    assert forall|x: Seq<char>| !#[trigger] g(order@[head as int]@).contains(x) by {
                        if g(order@[head as int]@).contains(x) {
                            assert(views(nbs@).to_set().contains(x));
                        }
                    }
                }
            }
            if nbs.len() > 0 {
                *truncated = true;
            }
            proof {
                lemma_cycles_next_head(views(order@), depths@, parents@, g, max_hops, head as int, Set::empty());
            }
            head = head + 1;
            continue;
        }
        let ghost o_before = views(order@);
        let ghost d_before = depths@;
        let child_depth = depth + 1;
        let mut k: usize = 0;
        assert(views(order@).take(o_before.len() as int) =~= o_before);
        assert(depths@.take(d_before.len() as int) =~= d_before);
        assert(views(nbs@).take(0).to_set() =~= Set::empty());
        while k < nbs.len()
            invariant
                g == graph_of(*index, direction, opt_def(scoped)),
                forall|n: Seq<char>, u: Seq<char>| #[trigger] g(n).contains(u) ==> has_def(index.defs(), u),
                tree_ok(views(order@), depths@, parents@, root@, g),
                head < o_before.len(),
                extends(o_before, d_before, views(order@), depths@),
                o_before.len() == d_before.len(),
                current@ == o_before[head as int],
                depth == d_before[head as int],
                depth < max_hops,
                child_depth == depth + 1,
                order.len() <= index.defs().len() + 1,
                forall|m: int| head <= m < order.len() ==> #[trigger] depths@[m] <= child_depth,
                forall|m: int| 0 <= m < order.len() ==> #[trigger] depths@[m] <= max_hops,
                forall|m: int| 1 <= m < order.len() ==> has_def(index.defs(), #[trigger] views(order@)[m]),
                views(nbs@).to_set() == g(current@),
                k <= nbs.len(),
                forall|j: int| 0 <= j < k ==> covered(views(order@), depths@, #[trigger] views(nbs@)[j], child_depth as int),
                edges_view(edges@) == e0 + tree_edges(views(order@), depths@, parents@),
                cycles@.len() >= c0.len(),
                cycles@.take(c0.len() as int) == c0,
                forall|kk: int| c0.len() <= kk < cycles@.len() ==> closed_walk(g, #[trigger] path_views(cycles@)[kk]),
                path_views(cycles@.skip(c0.len() as int)).to_set() == cycles_upto(
                    views(order@),
                    depths@,
                    parents@,
                    g,
                    max_hops,
                    head as int,
                    views(nbs@).take(k as int).to_set(),
                ),
                strictly_sorted(views(nbs@)),
                discovery_ordered(views(order@), parents@),
                first_parent(views(order@), depths@, parents@, g, max_hops),
                forall|m: int| 1 <= m < order.len() ==> #[trigger] parents@[m] <= head,
                forall|m: int|
                    1 <= m < order.len() && #[trigger] parents@[m] == head ==> exists|j: int|
                        0 <= j < k && views(nbs@)[j] == views(order@)[m],
                forall|w: int|
                    0 <= w < head && d_before[w] < max_hops ==> #[trigger] expanded(o_before, d_before, g, w),
            decreases nbs.len() - k,
        {
            let neighbor = &nbs[k];
            proof {
                assert(views(nbs@)[k as int] == neighbor@);
                assert(views(nbs@).to_set().contains(neighbor@));
                assert(views(order@)[head as int] == o_before[head as int]) by {
                    assert(views(order@).take(o_before.len() as int)[head as int] == views(order@)[head as int]);
                }
                assert(depths@[head as int] == d_before[head as int]) by {
                    assert(depths@.take(d_before.len() as int)[head as int] == depths@[head as int]);
                }
                assert(views(nbs@).take(k + 1).to_set() == views(nbs@).take(k as int).to_set().insert(neighbor@)) by {
                    assert(views(nbs@).take(k + 1) =~= views(nbs@).take(k as int).push(neighbor@));
                    lemma_to_set_push(views(nbs@).take(k as int), neighbor@);
                }
            }
            let ghost done = views(nbs@).take(k as int).to_set();
            match position_of(&order, neighbor) {
                Some(m) => {
                    proof {
                        assert(views(order@)[m as int] == neighbor@);
                        if m < head {
                            assert(depths@[m as int] <= depths@[head as int]);
                        }
                    }
                    match find_cycle(&order, &parents, head, neighbor, Ghost(depths@), Ghost(root@), Ghost(g)) {
                        Some(cycle) => {
                            let ghost before = cycles@;
                            let ghost cv = views(cycle@);
                            proof {
                                let o = views(order@);
                                assert(cycles_upto(o, depths@, parents@, g, max_hops, head as int, done.insert(neighbor@))
                                    == cycles_upto(o, depths@, parents@, g, max_hops, head as int, done).insert(cv)) by {
                                    let kk = choose|kk: int|
                                        0 <= kk < chain(parents@, head as int).len() && o[chain(parents@, head as int)[kk]]
                                            == neighbor@ && #[trigger] chain_cycle(o, parents@, head as int, kk) == cv;
                                    lemma_cycles_on_chain(o, depths@, parents@, root@, g, max_hops, head as int, done, kk);
                                }
                            }
                            cycles.push(cycle);
                            proof {
                                assert(path_views(cycles@.skip(c0.len() as int)).to_set() == path_views(
                                    before.skip(c0.len() as int),
                                ).to_set().insert(cv)) by {
                                    assert(cycles@.skip(c0.len() as int) =~= before.skip(c0.len() as int).push(cycles@.last()));
                                    assert(path_views(cycles@.skip(c0.len() as int)) =~= path_views(before.skip(c0.len() as int)).push(cv));
                                    lemma_to_set_push(path_views(before.skip(c0.len() as int)), cv);
                                }
                                assert(path_views(cycles@)[cycles@.len() - 1] == views(cycles@[cycles@.len() - 1]@));
                                assert forall|kk: int| c0.len() <= kk < cycles@.len() implies closed_walk(g, #[trigger] path_views(cycles@)[kk]) by {
                                    if kk < before.len() {
                                        assert(cycles@[kk] == before[kk]);
                                        assert(path_views(before)[kk] == views(before[kk]@));
                                    }
                                }
                                assert(cycles@.take(c0.len() as int) =~= c0) by {
                                    assert(before.take(c0.len() as int) == c0);
                                }
                            }
                        },
                        None => {
                            proof {
                                let o = views(order@);
                                assert(cycles_upto(o, depths@, parents@, g, max_hops, head as int, done.insert(neighbor@))
                                    == cycles_upto(o, depths@, parents@, g, max_hops, head as int, done)) by {
                                    lemma_chain(parents@, head as int);
                                    assert forall|kk: int| 0 <= kk < chain(parents@, head as int).len() implies #[trigger] o[chain(
                                        parents@,
                                        head as int,
                                    )[kk]] != neighbor@ by {
                                        assert(o[chain(parents@, head as int)[kk]] == order@[chain(parents@, head as int)[kk]]@);
                                    }
                                    lemma_cycles_off_chain(o, depths@, parents@, g, max_hops, head as int, done, neighbor@);
                                }
                            }
                        },
                    }
                },
                None => {
                    let ghost o_prev = views(order@);
                    let ghost d_prev = depths@;
                    let ghost p_prev = parents@;
                    let ghost e_prev = edges_view(edges@);
                    edges.push(CallEdge { from: current.clone(), to: neighbor.clone(), depth: child_depth });
                    order.push(neighbor.clone());
                    depths.push(child_depth);
                    parents.push(head);
                    proof {
                        let o2 = views(order@);
                        assert(o2 =~= o_prev.push(neighbor@));
                        assert(depths@ =~= d_prev.push(child_depth));
                        assert(parents@ =~= p_prev.push(head));
                        assert(tree_ok(o2, depths@, parents@, root@, g)) by {
                            assert forall|i: int, j: int| 0 <= i < j < o2.len() implies #[trigger] o2[i] != #[trigger] o2[j] by {
                                if j == o2.len() - 1 {
                                    assert(order@[i]@ == o2[i]);
                                }
                            }
                            assert forall|i: int, j: int| 0 <= i < j < o2.len() implies #[trigger] depths@[i] <= #[trigger] depths@[j] by {
                                if j == o2.len() - 1 && i < head {
                                    assert(d_prev[i] <= d_prev[head as int]);
                                }
                            }
                            assert forall|m: int| 1 <= m < o2.len() implies #[trigger] parents@[m] < m && depths@[m] == depths@[parents@[m] as int] + 1 && g(o2[parents@[m] as int]).contains(o2[m]) by {
                                if m == o2.len() - 1 {
                                    assert(o2[head as int] == current@);
                                }
                            }
                        }
                        assert(o2.take(o_before.len() as int) =~= o_before) by {
                            assert(o_prev.take(o_before.len() as int) == o_before);
                        }
                        assert(depths@.take(d_before.len() as int) =~= d_before) by {
                            assert(d_prev.take(d_before.len() as int) == d_before);
                        }
                        lemma_visit_bound(o2, index.defs());
                        assert(tree_edges(o2, depths@, parents@) =~= tree_edges(o_prev, d_prev, p_prev).push((current@, neighbor@, child_depth))) by {
                            assert(o2[head as int] == current@);
                        }
                        assert(edges_view(edges@) =~= e_prev.push((current@, neighbor@, child_depth)));
                        assert(covered(o2, depths@, neighbor@, child_depth as int)) by {
                            assert(o2[o2.len() - 1] == neighbor@);
                        }
                        assert(o2.take(o_prev.len() as int) =~= o_prev);
                        assert(depths@.take(d_prev.len() as int) =~= d_prev);
                        assert forall|j: int| 0 <= j < k implies covered(o2, depths@, #[trigger] views(nbs@)[j], child_depth as int) by {
                            lemma_covered_extend(o_prev, d_prev, o2, depths@, views(nbs@)[j], child_depth as int);
                        }
                        assert(discovery_ordered(o2, parents@)) by {
                            assert forall|m1: int, m2: int| 1 <= m1 < m2 < o2.len() implies #[trigger] parents@[m1]
                                <= #[trigger] parents@[m2] && (parents@[m1] == parents@[m2] ==> lex_lt(o2[m1], o2[m2])) by {
                                if m2 == o2.len() - 1 {
                                    assert(p_prev[m1] <= head);
                                    if p_prev[m1] == head {
                                        let j = choose|j: int| 0 <= j < k && views(nbs@)[j] == o_prev[m1];
                                        assert(lex_lt(views(nbs@)[j], views(nbs@)[k as int]));
                                    }
                                } else {
                                    assert(p_prev[m1] <= p_prev[m2]);
                                }
                            }
                        }
                        assert(first_parent(o2, depths@, parents@, g, max_hops)) by {
                            assert forall|m: int, w: int| 1 <= m < o2.len() && 0 <= w < parents@[m] && depths@[w] < max_hops
                                implies !g(#[trigger] o2[w]).contains(#[trigger] o2[m]) by {
                                if m == o2.len() - 1 {
                                    assert(o2[w] == o_before[w]) by {
                                        assert(o_before == o_prev.take(o_before.len() as int));
                                    }
                                    assert(depths@[w] == d_before[w]) by {
                                        assert(d_before == d_prev.take(d_before.len() as int));
                                    }
                                    if g(o2[w]).contains(o2[m]) {
                                        assert(expanded(o_before, d_before, g, w));
                                        let mm = choose|mm: int|
                                            0 <= mm < o_before.len() && #[trigger] o_before[mm] == neighbor@ && d_before[mm]
                                                <= d_before[w] + 1;
                                        assert(o_prev[mm] == o_before[mm]) by {
                                            assert(o_before == o_prev.take(o_before.len() as int));
                                        }
                                        assert(order@[mm]@ == o_prev[mm]);
                                    }
                                } else {
                                    assert(o2[w] == o_prev[w] && o2[m] == o_prev[m]);
                                }
                            }
                        }
                        assert forall|mm: int|
                            1 <= mm < order.len() && #[trigger] parents@[mm] == head implies exists|j: int|
                                0 <= j < k + 1 && views(nbs@)[j] == views(order@)[mm] by {
                            if mm == o2.len() - 1 {
                                assert(views(nbs@)[k as int] == views(order@)[mm]);
                            } else {
                                let j = choose|j: int| 0 <= j < k && views(nbs@)[j] == o_prev[mm];
                                assert(views(order@)[mm] == o_prev[mm]);
                            }
                        }
                        assert(cycles_upto(o2, depths@, parents@, g, max_hops, head as int, done.insert(neighbor@))
                            == cycles_upto(o_prev, d_prev, p_prev, g, max_hops, head as int, done)) by {
                            lemma_chain(p_prev, head as int);
                            assert forall|kk: int| 0 <= kk < chain(p_prev, head as int).len() implies #[trigger] o_prev[chain(
                                p_prev,
                                head as int,
                            )[kk]] != neighbor@ by {
                                assert(o_prev[chain(p_prev, head as int)[kk]] == o2[chain(p_prev, head as int)[kk]]);
                            }
                            lemma_cycles_off_chain(o_prev, d_prev, p_prev, g, max_hops, head as int, done, neighbor@);
                            lemma_cycles_upto_push(o_prev, d_prev, p_prev, g, max_hops, head as int, done.insert(neighbor@), neighbor@, child_depth, head);
                        }
                    }
                },
            }
            k = k + 1;
        }
        proof {
            let o2 = views(order@);
            assert(o2[head as int] == current@) by {
                assert(o2.take(o_before.len() as int)[head as int] == o2[head as int]);
            }
            assert(depths@[head as int] == depth) by {
                assert(depths@.take(d_before.len() as int)[head as int] == depths@[head as int]);
            }
            assert(views(nbs@).take(nbs.len() as int) =~= views(nbs@));
            lemma_cycles_next_head(o2, depths@, parents@, g, max_hops, head as int, views(nbs@).to_set());
            assert forall|u: Seq<char>| #[trigger] g(o2[head as int]).contains(u) implies covered(o2, depths@, u, depths@[head as int] + 1) by {
                assert(views(nbs@).to_set().contains(u));
                let j = choose|j: int| 0 <= j < views(nbs@).len() && views(nbs@)[j] == u;
            }
            assert forall|w: int| 0 <= w < head + 1 && depths@[w] < max_hops implies #[trigger] expanded(o2, depths@, g, w) by {
                if w < head {
                    assert(d_before[w] == depths@[w]) by {
                        assert(depths@.take(d_before.len() as int)[w] == depths@[w]);
                    }
                    lemma_expanded_extend(o_before, d_before, o2, depths@, g, w);
                }
            }
            if head + 1 < order.len() {
                assert forall|m: int| head + 1 <= m < order.len() implies #[trigger] depths@[m] <= depths@[head + 1] + 1 by {
                    assert(depths@[head as int] <= depths@[head + 1]);
                }
            }
            assert(*truncated == (t0 || exists|m: int|
                0 <= m < head + 1 && depths@[m] >= max_hops && exists|x: Seq<char>|
                    #[trigger] g((#[trigger] order@[m])@).contains(x))) by {
                if exists|m: int| 0 <= m < head && d_before[m] >= max_hops && exists|x: Seq<char>| #[trigger] g((#[trigger] order@[m])@).contains(x) {
                }
            }
        }
        head = head + 1;
    }
    proof {
        let o = views(order@);
        lemma_cycles_upto_ends(o, depths@, parents@, g, max_hops);
        assert forall|p: Seq<Seq<char>>|
            walk_from(g, root@, p) && p.len() - 1 <= max_hops implies #[trigger] covered(o, depths@, p[p.len() - 1], p.len() - 1) by {
            lemma_bfs_complete(o, depths@, parents@, root@, g, max_hops, p);
        }
        if exists|m: int|
            0 <= m < head && depths@[m] >= max_hops && exists|x: Seq<char>|
                #[trigger] g((#[trigger] order@[m])@).contains(x) {
            let m = choose|m: int|
                0 <= m < head && depths@[m] >= max_hops && exists|x: Seq<char>|
                    #[trigger] g((#[trigger] order@[m])@).contains(x);
            let x = choose|x: Seq<char>| #[trigger] g(order@[m]@).contains(x);
            assert(graph_of(*index, direction, opt_def(scoped))(order@[m]@).contains(x));
        }
        if exists|m: int|
            0 <= m < order@.len() && depths@[m] >= max_hops && exists|x: Seq<char>|
                #[trigger] graph_of(*index, direction, opt_def(scoped))((#[trigger] order@[m])@).contains(x) {
            let m = choose|m: int|
                0 <= m < order@.len() && depths@[m] >= max_hops && exists|x: Seq<char>|
                    #[trigger] graph_of(*index, direction, opt_def(scoped))((#[trigger] order@[m])@).contains(x);
            let x = choose|x: Seq<char>| #[trigger] graph_of(*index, direction, opt_def(scoped))(order@[m]@).contains(x);
            assert(g(order@[m]@).contains(x));
        }
    }
    Traversal { order, depths, parents }
}

// ── Public entry points ─────────────────────────────────────────────────────

/// Some node at the hop budget still has neighbours.
pub open spec fn boundary_open(o: Seq<Seq<char>>, dep: Seq<usize>, g: Graph, max_hops: usize) -> bool {
    exists|m: int|
        0 <= m < o.len() && dep[m] >= max_hops && exists|x: Seq<char>| #[trigger] g(#[trigger] o[m]).contains(x)
}

/// One direction's edges are those of a breadth-first traversal from `root`.
pub open spec fn side_ok(
    edges: Seq<(Seq<char>, Seq<char>, usize)>,
    o: Seq<Seq<char>>,
    dep: Seq<usize>,
    par: Seq<usize>,
    root: Seq<char>,
    g: Graph,
    max_hops: usize,
) -> bool {
    traversal_ok(o, dep, par, root, g, max_hops) && edges == tree_edges(o, dep, par)
}

/// The callee graph and the caller graph that a build follows.
pub open spec fn callee_graph(idx: SymbolIndex, scoped: Option<SymbolDef>) -> Graph {
    graph_of(idx, Direction::Callees, scoped)
}

pub open spec fn caller_graph(idx: SymbolIndex) -> Graph {
    graph_of(idx, Direction::Callers, None)
}

/// The traversals `(o1, d1, p1)` over callees and `(o2, d2, p2)` over callers
/// account for the result's edges and its `truncated` flag.
pub open spec fn built_from(
    res: CallGraphResult,
    idx: SymbolIndex,
    max_hops: usize,
    dir: Direction,
    scoped: Option<SymbolDef>,
    o1: Seq<Seq<char>>,
    d1: Seq<usize>,
    p1: Seq<usize>,
    o2: Seq<Seq<char>>,
    d2: Seq<usize>,
    p2: Seq<usize>,
) -> bool {
    let callees = dir != Direction::Callers;
    let callers = dir != Direction::Callees;
    &&& callees ==> side_ok(edges_view(res.callees@), o1, d1, p1, res.root@, callee_graph(idx, scoped), max_hops)
    &&& !callees ==> res.callees@.len() == 0
    &&& callers ==> side_ok(edges_view(res.callers@), o2, d2, p2, res.root@, caller_graph(idx), max_hops)
    &&& !callers ==> res.callers@.len() == 0
    &&& res.truncated == ((callees && boundary_open(o1, d1, callee_graph(idx, scoped), max_hops)) || (
    callers && boundary_open(o2, d2, caller_graph(idx), max_hops)))
    &&& path_views(res.cycles_detected@).to_set() == (if callees {
        back_edge_cycles(o1, d1, p1, callee_graph(idx, scoped), max_hops)
    } else {
        Set::empty()
    }).union(
        if callers {
            back_edge_cycles(o2, d2, p2, caller_graph(idx), max_hops)
        } else {
            Set::empty()
        },
    )
}

/// What a call-graph build returns for root `res.root`.
pub open spec fn graph_result_ok(
    res: CallGraphResult,
    idx: SymbolIndex,
    max_hops: usize,
    dir: Direction,
    scoped: Option<SymbolDef>,
) -> bool {
    if max_hops == 0 {
        &&& res.callees@.len() == 0
        &&& res.callers@.len() == 0
        &&& res.cycles_detected@.len() == 0
        &&& !res.truncated
    } else {
        &&& exists|
            o1: Seq<Seq<char>>,
            d1: Seq<usize>,
            p1: Seq<usize>,
            o2: Seq<Seq<char>>,
            d2: Seq<usize>,
            p2: Seq<usize>,
        | #[trigger] built_from(res, idx, max_hops, dir, scoped, o1, d1, p1, o2, d2, p2)
        &&& paths_strictly_sorted(path_views(res.cycles_detected@))
        &&& forall|k: int|
            0 <= k < res.cycles_detected@.len() ==> ((dir != Direction::Callers && closed_walk(
                callee_graph(idx, scoped),
                #[trigger] path_views(res.cycles_detected@)[k],
            )) || (dir != Direction::Callees && closed_walk(
                caller_graph(idx),
                path_views(res.cycles_detected@)[k],
            )))
    }
}

proof fn lemma_truncated_views(o: Seq<String>, dep: Seq<usize>, g: Graph, max_hops: usize, t: bool)
    requires
        t == exists|m: int|
            0 <= m < o.len() && dep[m] >= max_hops && exists|x: Seq<char>|
                #[trigger] g((#[trigger] o[m])@).contains(x),
    ensures
        t == boundary_open(views(o), dep, g, max_hops),
{
    if t {
        let m = choose|m: int|
            0 <= m < o.len() && dep[m] >= max_hops && exists|x: Seq<char>|
                #[trigger] g((#[trigger] o[m])@).contains(x);
        assert(views(o)[m] == o[m]@);
    }
    if boundary_open(views(o), dep, g, max_hops) {
        let m = choose|m: int|
            0 <= m < views(o).len() && dep[m] >= max_hops && exists|x: Seq<char>|
                #[trigger] g(#[trigger] views(o)[m]).contains(x);
        assert(views(o)[m] == o[m]@);
    }
}

/// Shared body of `build` and `build_rooted_at`.
fn build_from(
    index: &SymbolIndex,
    symbol: &str,
    max_hops: usize,
    direction: Direction,
    scoped: Option<&SymbolDef>,
) -> (res: CallGraphResult)
    requires
        scoped matches Some(d) ==> d.name@ == symbol@,
    ensures
        res.root@ == symbol@,
        graph_result_ok(res, *index, max_hops, direction, opt_def(scoped)),
{
    let root = symbol.to_owned();
    let mut callees: Vec<CallEdge> = Vec::new();
    let mut callers: Vec<CallEdge> = Vec::new();
    let mut cycles: Vec<Vec<String>> = Vec::new();
    let mut truncated = false;
    if max_hops == 0 {
        return CallGraphResult { root, callees, callers, cycles_detected: cycles, truncated };
    }
    let ghost gc = callee_graph(*index, opt_def(scoped));
    let ghost gr = caller_graph(*index);
    let ghost mut o1: Seq<Seq<char>> = Seq::empty();
    let ghost mut d1: Seq<usize> = Seq::empty();
    let ghost mut p1: Seq<usize> = Seq::empty();
    let ghost mut o2: Seq<Seq<char>> = Seq::empty();
    let ghost mut d2: Seq<usize> = Seq::empty();
    let ghost mut p2: Seq<usize> = Seq::empty();
    let ghost mut t1 = false;
    let ghost mut b1: Set<Seq<Seq<char>>> = Set::empty();
    let ghost mut b2: Set<Seq<Seq<char>>> = Set::empty();
    assert(path_views(cycles@).to_set() =~= b1);
    if direction == Direction::Callees || direction == Direction::Both {
        let t = bfs_expand(index, symbol, max_hops, &mut callees, &mut cycles, &mut truncated, Direction::Callees, scoped);
        proof {
            o1 = views(t.order@);
            d1 = t.depths@;
            p1 = t.parents@;
            lemma_truncated_views(t.order@, t.depths@, gc, max_hops, truncated);
            t1 = truncated;
            assert(edges_view(callees@) =~= tree_edges(o1, d1, p1));
            b1 = back_edge_cycles(o1, d1, p1, gc, max_hops);
            assert(cycles@.skip(0) =~= cycles@);
        }
    }
    let ghost c_mid = cycles@;
    if direction == Direction::Callers || direction == Direction::Both {
        let ghost before = truncated;
        let t = bfs_expand(index, symbol, max_hops, &mut callers, &mut cycles, &mut truncated, Direction::Callers, None);
        proof {
            o2 = views(t.order@);
            d2 = t.depths@;
            p2 = t.parents@;
            let tb = exists|m: int|
                0 <= m < t.order@.len() && t.depths@[m] >= max_hops && exists|x: Seq<char>|
                    #[trigger] gr((#[trigger] t.order@[m])@).contains(x);
            lemma_truncated_views(t.order@, t.depths@, gr, max_hops, tb);
            assert(edges_view(callers@) =~= tree_edges(o2, d2, p2));
            b2 = back_edge_cycles(o2, d2, p2, gr, max_hops);
            let n = c_mid.len() as int;
            assert(path_views(cycles@).to_set() == b1.union(b2)) by {
                let all = path_views(cycles@);
                assert(path_views(cycles@.take(n)) =~= path_views(c_mid));
                assert forall|x: Seq<Seq<char>>| all.to_set().contains(x) <==> b1.union(b2).contains(x) by {
                    if all.to_set().contains(x) {
                        let i = choose|i: int| 0 <= i < all.len() && all[i] == x;
                        if i < n {
                            assert(path_views(c_mid)[i] == x);
                        } else {
                            assert(path_views(cycles@.skip(n))[i - n] == x);
                        }
                    }
                    if b1.contains(x) {
                        let i = choose|i: int| 0 <= i < path_views(c_mid).len() && path_views(c_mid)[i] == x;
                        assert(all[i] == x);
                    }
                    if b2.contains(x) {
                        let i = choose|i: int| 0 <= i < path_views(cycles@.skip(n)).len() && path_views(cycles@.skip(n))[i] == x;
                        assert(all[i + n] == x);
                    }
                }
                assert(all.to_set() =~= b1.union(b2));
            }
        }
    }
    assert(path_views(cycles@).to_set() == b1.union(b2)) by {
        if !(direction == Direction::Callers || direction == Direction::Both) {
            assert(b2 =~= Set::<Seq<Seq<char>>>::empty());
            assert(b1.union(b2) =~= b1);
        }
    }
    let ghost all_cycles = path_views(cycles@);
    proof {
        assert forall|k: int| 0 <= k < all_cycles.len() implies (direction != Direction::Callers
            && closed_walk(gc, #[trigger] all_cycles[k])) || (direction != Direction::Callees
            && closed_walk(gr, all_cycles[k])) by {
            if k < c_mid.len() {
                assert(cycles@.take(c_mid.len() as int)[k] == cycles@[k]);
                assert(path_views(c_mid)[k] == all_cycles[k]);
            }
        }
    }
    let cycles_detected = sort_dedup_paths(cycles);
    let res = CallGraphResult { root, callees, callers, cycles_detected, truncated };
    proof {
        let out = path_views(res.cycles_detected@);
        assert forall|k: int| 0 <= k < out.len() implies (direction != Direction::Callers
            && closed_walk(gc, #[trigger] out[k])) || (direction != Direction::Callees
            && closed_walk(gr, out[k])) by {
            assert(out.to_set().contains(out[k]));
            assert(all_cycles.to_set().contains(out[k]));
            let j = choose|j: int| 0 <= j < all_cycles.len() && all_cycles[j] == out[k];
        }
        assert(built_from(res, *index, max_hops, direction, opt_def(scoped), o1, d1, p1, o2, d2, p2));
    }
    res
}

/// Build a call graph rooted at `symbol`.
///
/// - `max_hops == 0` returns only the root with no edges.
/// - Cyclic graphs are safe: the traversal visits each name once.
/// - `cycles_detected` entries have the form `[first_node, ..., first_node]`.
/// - Every reported `CallEdge.depth` is the minimal hop count to that node.
pub fn build(index: &SymbolIndex, symbol: &str, max_hops: usize, direction: Direction) -> (res:
    CallGraphResult)
    ensures
        res.root@ == symbol@,
        graph_result_ok(res, *index, max_hops, direction, None),
{
    build_from(index, symbol, max_hops, direction, None)
}

/// Build a call graph rooted at one resolved definition: the root's own
/// callees are those within that definition alone; deeper nodes, and the
/// callers, resolve by name.
pub fn build_rooted_at(index: &SymbolIndex, def: &SymbolDef, max_hops: usize, direction: Direction) -> (res:
    CallGraphResult)
    ensures
        res.root@ == def.name@,
        graph_result_ok(res, *index, max_hops, direction, Some(*def)),
{
    build_from(index, def.name.as_str(), max_hops, direction, Some(def))
}

// ── Laws of a built call graph ──────────────────────────────────────────────

/// Edges of one direction of a built graph, with the graph they follow.
pub open spec fn side_edges(res: CallGraphResult, callees: bool) -> Seq<(Seq<char>, Seq<char>, usize)> {
    if callees {
        edges_view(res.callees@)
    } else {
        edges_view(res.callers@)
    }
}

pub open spec fn side_graph(idx: SymbolIndex, scoped: Option<SymbolDef>, callees: bool) -> Graph {
    if callees {
        callee_graph(idx, scoped)
    } else {
        caller_graph(idx)
    }
}

/// With no hops allowed, a build reports nothing but its root.
pub proof fn lemma_zero_hops_is_empty(
    res: CallGraphResult,
    idx: SymbolIndex,
    dir: Direction,
    scoped: Option<SymbolDef>,
)
    requires
        graph_result_ok(res, idx, 0, dir, scoped),
    ensures
        res.callees@.len() == 0,
        res.callers@.len() == 0,
        res.cycles_detected@.len() == 0,
        !res.truncated,
{
}

/// Every edge of a built graph joins a name to one of its neighbours, at a
/// depth within the hop budget; no name is reached twice and the root is
/// never reached again.
pub proof fn lemma_edges_form_tree(
    res: CallGraphResult,
    idx: SymbolIndex,
    max_hops: usize,
    dir: Direction,
    scoped: Option<SymbolDef>,
    callees: bool,
)
    requires
        graph_result_ok(res, idx, max_hops, dir, scoped),
        max_hops > 0,
        callees ==> dir != Direction::Callers,
        !callees ==> dir != Direction::Callees,
    ensures
        forall|k: int|
            0 <= k < side_edges(res, callees).len() ==> {
                let e = #[trigger] side_edges(res, callees)[k];
                &&& side_graph(idx, scoped, callees)(e.0).contains(e.1)
                &&& 1 <= e.2 <= max_hops
                &&& e.1 != res.root@
            },
        forall|i: int, j: int|
            0 <= i < j < side_edges(res, callees).len() ==> (#[trigger] side_edges(res, callees)[i]).1
                != (#[trigger] side_edges(res, callees)[j]).1,
{
    let (o1, d1, p1, o2, d2, p2) = choose|
        o1: Seq<Seq<char>>,
        d1: Seq<usize>,
        p1: Seq<usize>,
        o2: Seq<Seq<char>>,
        d2: Seq<usize>,
        p2: Seq<usize>,
    | #[trigger] built_from(res, idx, max_hops, dir, scoped, o1, d1, p1, o2, d2, p2);
    let (o, dep, par) = if callees { (o1, d1, p1) } else { (o2, d2, p2) };
    let g = side_graph(idx, scoped, callees);
    let es = side_edges(res, callees);
    assert(side_ok(es, o, dep, par, res.root@, g, max_hops));
    assert forall|k: int| 0 <= k < es.len() implies {
        let e = #[trigger] es[k];
        &&& g(e.0).contains(e.1)
        &&& 1 <= e.2 <= max_hops
        &&& e.1 != res.root@
    } by {
        assert(es[k] == (o[par[k + 1] as int], o[k + 1], dep[k + 1]));
        assert(o[0] != o[k + 1]);
    }
    assert forall|i: int, j: int| 0 <= i < j < es.len() implies (#[trigger] es[i]).1 != (#[trigger] es[j]).1 by {
        assert(o[i + 1] != o[j + 1]);
    }
}

/// Each edge's depth is the minimal hop count to its target: no walk from
/// the root reaches the target in fewer hops.
pub proof fn lemma_edge_depth_is_minimal(
    res: CallGraphResult,
    idx: SymbolIndex,
    max_hops: usize,
    dir: Direction,
    scoped: Option<SymbolDef>,
    callees: bool,
    k: int,
    p: Seq<Seq<char>>,
)
    requires
        graph_result_ok(res, idx, max_hops, dir, scoped),
        max_hops > 0,
        callees ==> dir != Direction::Callers,
        !callees ==> dir != Direction::Callees,
        0 <= k < side_edges(res, callees).len(),
        walk_from(side_graph(idx, scoped, callees), res.root@, p),
        p[p.len() - 1] == side_edges(res, callees)[k].1,
    ensures
        side_edges(res, callees)[k].2 <= p.len() - 1,
{
    let (o1, d1, p1, o2, d2, p2) = choose|
        o1: Seq<Seq<char>>,
        d1: Seq<usize>,
        p1: Seq<usize>,
        o2: Seq<Seq<char>>,
        d2: Seq<usize>,
        p2: Seq<usize>,
    | #[trigger] built_from(res, idx, max_hops, dir, scoped, o1, d1, p1, o2, d2, p2);
    let (o, dep, par) = if callees { (o1, d1, p1) } else { (o2, d2, p2) };
    let g = side_graph(idx, scoped, callees);
    let es = side_edges(res, callees);
    assert(side_ok(es, o, dep, par, res.root@, g, max_hops));
    assert(es[k] == (o[par[k + 1] as int], o[k + 1], dep[k + 1]));
    if p.len() - 1 <= max_hops {
        assert(covered(o, dep, p[p.len() - 1], p.len() - 1));
        let m = choose|m: int| 0 <= m < o.len() && #[trigger] o[m] == p[p.len() - 1] && dep[m] <= p.len() - 1;
        if m != k + 1 {
            if m < k + 1 {
                assert(o[m] != o[k + 1]);
            } else {
                assert(o[k + 1] != o[m]);
            }
        }
    }
}

/// Every node within `max_hops` hops of the root is reached by an edge (or
/// is the root itself).
pub proof fn lemma_reachable_nodes_reported(
    res: CallGraphResult,
    idx: SymbolIndex,
    max_hops: usize,
    dir: Direction,
    scoped: Option<SymbolDef>,
    callees: bool,
    p: Seq<Seq<char>>,
)
    requires
        graph_result_ok(res, idx, max_hops, dir, scoped),
        max_hops > 0,
        callees ==> dir != Direction::Callers,
        !callees ==> dir != Direction::Callees,
        walk_from(side_graph(idx, scoped, callees), res.root@, p),
        p.len() - 1 <= max_hops,
        p[p.len() - 1] != res.root@,
    ensures
        exists|k: int|
            0 <= k < side_edges(res, callees).len() && (#[trigger] side_edges(res, callees)[k]).1
                == p[p.len() - 1],
{
    let (o1, d1, p1, o2, d2, p2) = choose|
        o1: Seq<Seq<char>>,
        d1: Seq<usize>,
        p1: Seq<usize>,
        o2: Seq<Seq<char>>,
        d2: Seq<usize>,
        p2: Seq<usize>,
    | #[trigger] built_from(res, idx, max_hops, dir, scoped, o1, d1, p1, o2, d2, p2);
    let (o, dep, par) = if callees { (o1, d1, p1) } else { (o2, d2, p2) };
    let g = side_graph(idx, scoped, callees);
    let es = side_edges(res, callees);
    assert(side_ok(es, o, dep, par, res.root@, g, max_hops));
    assert(covered(o, dep, p[p.len() - 1], p.len() - 1));
    let m = choose|m: int| 0 <= m < o.len() && #[trigger] o[m] == p[p.len() - 1] && dep[m] <= p.len() - 1;
    assert(m != 0);
    assert(es[m - 1] == (o[par[m] as int], o[m], dep[m]));
}

/// Every reported cycle is a closed walk: at least two names, the first
/// repeated at the end, each name followed by one of its neighbours.
pub proof fn lemma_cycles_closed(
    res: CallGraphResult,
    idx: SymbolIndex,
    max_hops: usize,
    dir: Direction,
    scoped: Option<SymbolDef>,
    k: int,
)
    requires
        graph_result_ok(res, idx, max_hops, dir, scoped),
        0 <= k < res.cycles_detected@.len(),
    ensures
        path_views(res.cycles_detected@)[k].len() >= 2,
        path_views(res.cycles_detected@)[k][0] == path_views(res.cycles_detected@)[k].last(),
{
}

/// Recursion at the root is reported: a root that calls itself gives the
/// cycle `[root, root]`; a root that calls `f`, which calls the root back,
/// gives `[root, f, root]` once two hops are allowed.
pub proof fn lemma_root_recursion_reported(
    res: CallGraphResult,
    idx: SymbolIndex,
    max_hops: usize,
    dir: Direction,
    scoped: Option<SymbolDef>,
    callees: bool,
    f: Seq<char>,
)
    requires
        graph_result_ok(res, idx, max_hops, dir, scoped),
        callees ==> dir != Direction::Callers,
        !callees ==> dir != Direction::Callees,
        side_graph(idx, scoped, callees)(res.root@).contains(f),
        side_graph(idx, scoped, callees)(f).contains(res.root@),
        max_hops >= (if f == res.root@ { 1usize } else { 2usize }),
    ensures
        path_views(res.cycles_detected@).contains(
            if f == res.root@ {
                seq![res.root@, res.root@]
            } else {
                seq![res.root@, f, res.root@]
            },
        ),
{
    let (o1, d1, p1, o2, d2, p2) = choose|
        o1: Seq<Seq<char>>,
        d1: Seq<usize>,
        p1: Seq<usize>,
        o2: Seq<Seq<char>>,
        d2: Seq<usize>,
        p2: Seq<usize>,
    | #[trigger] built_from(res, idx, max_hops, dir, scoped, o1, d1, p1, o2, d2, p2);
    let (o, dep, par) = if callees { (o1, d1, p1) } else { (o2, d2, p2) };
    let g = side_graph(idx, scoped, callees);
    let root = res.root@;
    assert(traversal_ok(o, dep, par, root, g, max_hops));
    let back = back_edge_cycles(o, dep, par, g, max_hops);
    let cyc = if f == root { seq![root, root] } else { seq![root, f, root] };
    if f == root {
        assert(chain(par, 0) == seq![0int]);
        assert(chain_cycle(o, par, 0, 0) =~= cyc);
        assert(back.contains(cyc));
    } else {
        let p = seq![root, f];
        assert(walk_from(g, root, p));
        assert(covered(o, dep, p[p.len() - 1], p.len() - 1));
        let m = choose|m: int| 0 <= m < o.len() && #[trigger] o[m] == f && dep[m] <= 1;
        assert(m != 0);
        let q = par[m] as int;
        if q != 0 {
            assert(dep[q] == dep[par[q] as int] + 1);
        }
        assert(chain(par, 0) == seq![0int]);
        assert(chain(par, m) =~= seq![m, 0int]);
        assert(chain_cycle(o, par, m, 1) =~= cyc);
        assert(back.contains(cyc));
    }
    assert(path_views(res.cycles_detected@).to_set().contains(cyc));
}

/// Callers and callees mirror each other: for a name `n` that has a
/// definition, `c` is among the callers of `n` exactly when `n` is among the
/// callees of `c`.  (A callee must itself be defined somewhere; a caller
/// list is kept for any name.)
pub proof fn lemma_callers_mirror_callees(idx: SymbolIndex, c: Seq<char>, n: Seq<char>)
    requires
        has_def(idx.defs(), n),
    ensures
        callers_set(idx, n).contains(c) <==> callees_set(idx, c).contains(n),
{
    let defs = idx.defs();
    if callers_set(idx, n).contains(c) {
        let i = choose|i: int|
            0 <= i < defs.len() && (#[trigger] defs[i]).name@ == c && def_calls_name(idx, defs[i], n);
        let d = defs[i];
        let k = choose|k: int|
            0 <= k < file_refs(idx, d).len() && (#[trigger] file_refs(idx, d)[k]).name@ == n
                && ref_in_range(file_refs(idx, d)[k], d);
        assert(calls_at(idx, d, k));
        assert(def_calls(idx, d).contains(n));
        assert(named(defs[i], c));
    }
    if callees_set(idx, c).contains(n) {
        let i = choose|i: int|
            0 <= i < defs.len() && named(#[trigger] defs[i], c) && def_calls(idx, defs[i]).contains(n);
        let d = defs[i];
        let k = choose|k: int| calls_at(idx, d, k) && (#[trigger] file_refs(idx, d)[k]).name@ == n;
        assert(def_calls_name(idx, d, n));
        assert(defs[i].name@ == c);
    }
}

// ── One traversal per root, graph and budget ────────────────────────────────

/// Each visited node is reached from the root by a walk as long as its
/// depth: the walk down its parent chain.
proof fn lemma_tree_walk(
    o: Seq<Seq<char>>,
    dep: Seq<usize>,
    par: Seq<usize>,
    root: Seq<char>,
    g: Graph,
    m: int,
) -> (p: Seq<Seq<char>>)
    requires
        tree_ok(o, dep, par, root, g),
        0 <= m < o.len(),
    ensures
        walk_from(g, root, p),
        p.len() == dep[m] + 1,
        p[p.len() - 1] == o[m],
    decreases m,
{
    if m == 0 {
        seq![root]
    } else {
        let q = par[m] as int;
        assert(par[m] < m && dep[m] == dep[q] + 1 && g(o[q]).contains(o[m]));
        let pq = lemma_tree_walk(o, dep, par, root, g, q);
        let p = pq.push(o[m]);
        assert forall|i: int| 0 <= i < p.len() - 1 implies g(#[trigger] p[i]).contains(p[i + 1]) by {
            if i < pq.len() - 1 {
                assert(p[i] == pq[i] && p[i + 1] == pq[i + 1]);
            } else {
                assert(p[i] == o[q] && p[i + 1] == o[m]);
            }
        }
        p
    }
}

/// A node visited by one traversal is visited by any other with the same
/// root, graph and budget.
proof fn lemma_visited_by_both(
    o1: Seq<Seq<char>>,
    d1: Seq<usize>,
    p1: Seq<usize>,
    o2: Seq<Seq<char>>,
    d2: Seq<usize>,
    p2: Seq<usize>,
    root: Seq<char>,
    g: Graph,
    h: usize,
    m: int,
) -> (m2: int)
    requires
        traversal_ok(o1, d1, p1, root, g, h),
        traversal_ok(o2, d2, p2, root, g, h),
        0 <= m < o1.len(),
    ensures
        0 <= m2 < o2.len(),
        o2[m2] == o1[m],
{
    let p = lemma_tree_walk(o1, d1, p1, root, g, m);
    assert(d1[m] <= h);
    assert(covered(o2, d2, p[p.len() - 1], p.len() - 1));
    choose|m2: int| 0 <= m2 < o2.len() && #[trigger] o2[m2] == o1[m] && d2[m2] <= p.len() - 1
}

/// Two traversals with the same root, graph and budget that agree before
/// position `k` agree at `k` too.
proof fn lemma_traversal_step(
    o1: Seq<Seq<char>>,
    d1: Seq<usize>,
    p1: Seq<usize>,
    o2: Seq<Seq<char>>,
    d2: Seq<usize>,
    p2: Seq<usize>,
    root: Seq<char>,
    g: Graph,
    h: usize,
    k: int,
)
    requires
        traversal_ok(o1, d1, p1, root, g, h),
        traversal_ok(o2, d2, p2, root, g, h),
        1 <= k < o1.len(),
        k < o2.len(),
        forall|j: int| 0 <= j < k ==> #[trigger] o1[j] == o2[j] && d1[j] == d2[j],
    ensures
        o1[k] == o2[k],
        d1[k] == d2[k],
        p1[k] == p2[k],
{
    let (x, y) = (o1[k], o2[k]);
    let (a, b) = (p1[k] as int, p2[k] as int);
    assert(p1[k] < k && d1[k] == d1[a] + 1 && g(o1[a]).contains(x));
    assert(p2[k] < k && d2[k] == d2[b] + 1 && g(o2[b]).contains(y));
    assert(d1[k] <= h && d2[k] <= h);
    assert(0 <= a < k && 0 <= b < k);
    assert(o1[a] == o2[a] && d1[a] == d2[a]);
    assert(o1[b] == o2[b]);
    assert(d1[b] == d2[b]);
    if x != y {
        let m1 = lemma_visited_by_both(o2, d2, p2, o1, d1, p1, root, g, h, k);
        let m2 = lemma_visited_by_both(o1, d1, p1, o2, d2, p2, root, g, h, k);
        if m1 < k {
            assert(o2[m1] != o2[k]);
        }
        if m2 < k {
            assert(o1[m2] != o1[k]);
        }
        assert(m1 > k && m2 > k);
        assert(p1[k] <= p1[m1]);
        assert(p2[k] <= p2[m2]);
        if b < p1[m1] {
            assert(!g(o1[b]).contains(o1[m1]));
        }
        if a < p2[m2] {
            assert(!g(o2[a]).contains(o2[m2]));
        }
        assert(a == b);
        assert(lex_lt(o1[k], o1[m1]));
        assert(lex_lt(o2[k], o2[m2]));
        lemma_lex_transitive(x, y, x);
        lemma_lex_irreflexive(x);
    }
    if b < a {
        assert(!g(o1[b]).contains(o1[k]));
    }
    if a < b {
        assert(!g(o2[a]).contains(o2[k]));
    }
}

/// Two traversals with the same root, graph and budget agree on every
/// position up to `n`.
proof fn lemma_traversal_prefix(
    o1: Seq<Seq<char>>,
    d1: Seq<usize>,
    p1: Seq<usize>,
    o2: Seq<Seq<char>>,
    d2: Seq<usize>,
    p2: Seq<usize>,
    root: Seq<char>,
    g: Graph,
    h: usize,
    n: int,
)
    requires
        traversal_ok(o1, d1, p1, root, g, h),
        traversal_ok(o2, d2, p2, root, g, h),
        0 <= n <= o1.len(),
        n <= o2.len(),
    ensures
        forall|j: int| 0 <= j < n ==> #[trigger] o1[j] == o2[j] && d1[j] == d2[j],
        forall|j: int| 1 <= j < n ==> #[trigger] p1[j] == p2[j],
    decreases n,
{
    if n > 0 {
        lemma_traversal_prefix(o1, d1, p1, o2, d2, p2, root, g, h, n - 1);
        if n - 1 >= 1 {
            lemma_traversal_step(o1, d1, p1, o2, d2, p2, root, g, h, n - 1);
        }
    }
}

/// The parent chains agree where the parents do.
proof fn lemma_chain_agrees(p1: Seq<usize>, p2: Seq<usize>, c: int)
    requires
        p1.len() == p2.len(),
        forall|j: int| 1 <= j < p1.len() ==> #[trigger] p1[j] == p2[j],
    ensures
        chain(p1, c) == chain(p2, c),
    decreases c,
{
    if 0 < c < p1.len() && p1[c] < c {
        lemma_chain_agrees(p1, p2, p1[c] as int);
    }
}

/// A traversal is determined by its root, graph and budget: any two agree
/// on the visit order, the depths, the recorded edges, where the budget cut
/// the walk short, and the cycles reported.
proof fn lemma_traversal_unique(
    o1: Seq<Seq<char>>,
    d1: Seq<usize>,
    p1: Seq<usize>,
    o2: Seq<Seq<char>>,
    d2: Seq<usize>,
    p2: Seq<usize>,
    root: Seq<char>,
    g: Graph,
    h: usize,
)
    requires
        traversal_ok(o1, d1, p1, root, g, h),
        traversal_ok(o2, d2, p2, root, g, h),
    ensures
        o1 == o2,
        d1 == d2,
        tree_edges(o1, d1, p1) == tree_edges(o2, d2, p2),
        boundary_open(o1, d1, g, h) == boundary_open(o2, d2, g, h),
        back_edge_cycles(o1, d1, p1, g, h) == back_edge_cycles(o2, d2, p2, g, h),
{
    let n = if o1.len() <= o2.len() { o1.len() as int } else { o2.len() as int };
    lemma_traversal_prefix(o1, d1, p1, o2, d2, p2, root, g, h, n);
    if o1.len() > n {
        let m = lemma_visited_by_both(o1, d1, p1, o2, d2, p2, root, g, h, n);
        assert(o1[m] == o2[m]);
        assert(o1[m] != o1[n]);
    }
    if o2.len() > n {
        let m = lemma_visited_by_both(o2, d2, p2, o1, d1, p1, root, g, h, n);
        assert(o1[m] == o2[m]);
        assert(o2[m] != o2[n]);
    }
    assert(o1 =~= o2);
    assert forall|j: int| 0 <= j < d1.len() implies #[trigger] d1[j] == d2[j] by {
        assert(o1[j] == o2[j]);
    }
    assert(d1 =~= d2);
    assert(tree_edges(o1, d1, p1) =~= tree_edges(o2, d2, p2));
    assert forall|w: int| #![trigger chain(p1, w)] chain(p1, w) == chain(p2, w) by {
        lemma_chain_agrees(p1, p2, w);
    }
    assert forall|w: int, k: int| #![trigger chain_cycle(o1, p1, w, k)] chain_cycle(o1, p1, w, k)
        == chain_cycle(o2, p2, w, k) by {
        assert(chain(p1, w) == chain(p2, w));
        assert(chain_cycle(o1, p1, w, k) =~= chain_cycle(o2, p2, w, k));
    }
    assert forall|c: Seq<Seq<char>>| back_edge_cycles(o1, d1, p1, g, h).contains(c)
        <==> back_edge_cycles(o2, d2, p2, g, h).contains(c) by {
        if back_edge_cycles(o1, d1, p1, g, h).contains(c) {
            let (w, k) = choose|w: int, k: int|
                #![trigger chain_cycle(o1, p1, w, k)]
                0 <= w < o1.len() && d1[w] < h && 0 <= k < chain(p1, w).len() && g(o1[w]).contains(
                    o1[chain(p1, w)[k]],
                ) && c == chain_cycle(o1, p1, w, k);
            assert(chain(p1, w) == chain(p2, w));
            assert(chain_cycle(o1, p1, w, k) == chain_cycle(o2, p2, w, k));
        }
        if back_edge_cycles(o2, d2, p2, g, h).contains(c) {
            let (w, k) = choose|w: int, k: int|
                #![trigger chain_cycle(o2, p2, w, k)]
                0 <= w < o2.len() && d2[w] < h && 0 <= k < chain(p2, w).len() && g(o2[w]).contains(
                    o2[chain(p2, w)[k]],
                ) && c == chain_cycle(o2, p2, w, k);
            assert(chain(p1, w) == chain(p2, w));
            assert(chain_cycle(o1, p1, w, k) == chain_cycle(o2, p2, w, k));
        }
    }
    assert(back_edge_cycles(o1, d1, p1, g, h) =~= back_edge_cycles(o2, d2, p2, g, h));
}

/// A build in both directions is the union of the two one-way builds from
/// the same root with the same budget: its callee edges are exactly those of
/// the callees-only build, its caller edges exactly those of the
/// callers-only build, its cycles are theirs together, and it is truncated
/// when either of them is.
pub proof fn lemma_both_is_union_of_directions(
    both: CallGraphResult,
    down: CallGraphResult,
    up: CallGraphResult,
    idx: SymbolIndex,
    max_hops: usize,
    scoped: Option<SymbolDef>,
)
    requires
        graph_result_ok(both, idx, max_hops, Direction::Both, scoped),
        graph_result_ok(down, idx, max_hops, Direction::Callees, scoped),
        graph_result_ok(up, idx, max_hops, Direction::Callers, scoped),
        both.root@ == down.root@,
        both.root@ == up.root@,
    ensures
        edges_view(both.callees@) == edges_view(down.callees@),
        edges_view(both.callers@) == edges_view(up.callers@),
        both.truncated == (down.truncated || up.truncated),
        path_views(both.cycles_detected@).to_set() == path_views(down.cycles_detected@).to_set().union(
            path_views(up.cycles_detected@).to_set(),
        ),
{
    if max_hops == 0 {
        assert(edges_view(both.callees@) =~= edges_view(down.callees@));
        assert(edges_view(both.callers@) =~= edges_view(up.callers@));
        assert(path_views(both.cycles_detected@) =~= Seq::<Seq<Seq<char>>>::empty());
        assert(path_views(down.cycles_detected@) =~= Seq::<Seq<Seq<char>>>::empty());
        assert(path_views(up.cycles_detected@) =~= Seq::<Seq<Seq<char>>>::empty());
        assert(Seq::<Seq<Seq<char>>>::empty().to_set() =~= Set::empty());
        assert(Set::<Seq<Seq<char>>>::empty().union(Set::empty()) =~= Set::empty());
    } else {
        let (o1, d1, p1, o2, d2, p2) = choose|
            o1: Seq<Seq<char>>,
            d1: Seq<usize>,
            p1: Seq<usize>,
            o2: Seq<Seq<char>>,
            d2: Seq<usize>,
            p2: Seq<usize>,
        | #[trigger] built_from(both, idx, max_hops, Direction::Both, scoped, o1, d1, p1, o2, d2, p2);
        let (a1, b1, c1, a2, b2, c2) = choose|
            o1: Seq<Seq<char>>,
            d1: Seq<usize>,
            p1: Seq<usize>,
            o2: Seq<Seq<char>>,
            d2: Seq<usize>,
            p2: Seq<usize>,
        | #[trigger] built_from(down, idx, max_hops, Direction::Callees, scoped, o1, d1, p1, o2, d2, p2);
        let (e1, f1, g1, e2, f2, g2) = choose|
            o1: Seq<Seq<char>>,
            d1: Seq<usize>,
            p1: Seq<usize>,
            o2: Seq<Seq<char>>,
            d2: Seq<usize>,
            p2: Seq<usize>,
        | #[trigger] built_from(up, idx, max_hops, Direction::Callers, scoped, o1, d1, p1, o2, d2, p2);
        let root = both.root@;
        let gd = callee_graph(idx, scoped);
        let gu = caller_graph(idx);
        assert(side_ok(edges_view(both.callees@), o1, d1, p1, root, gd, max_hops));
        assert(side_ok(edges_view(both.callers@), o2, d2, p2, root, gu, max_hops));
        assert(side_ok(edges_view(down.callees@), a1, b1, c1, root, gd, max_hops));
        assert(side_ok(edges_view(up.callers@), e2, f2, g2, root, gu, max_hops));
        lemma_traversal_unique(o1, d1, p1, a1, b1, c1, root, gd, max_hops);
        lemma_traversal_unique(o2, d2, p2, e2, f2, g2, root, gu, max_hops);
        assert(Set::<Seq<Seq<char>>>::empty().union(back_edge_cycles(e2, f2, g2, gu, max_hops))
            =~= back_edge_cycles(e2, f2, g2, gu, max_hops));
        assert(back_edge_cycles(a1, b1, c1, gd, max_hops).union(Set::empty()) =~= back_edge_cycles(
            a1,
            b1,
            c1,
            gd,
            max_hops,
        ));
    }
}

/// Each edge's depth is its target's distance from the root: some walk from
/// the root reaches the target in exactly that many hops (and, by
/// `lemma_edge_depth_is_minimal`, none in fewer).  An edge at depth 1 leaves
/// the root; a deeper edge leaves the target of an earlier edge one level
/// up.
pub proof fn lemma_edge_depth_is_distance(
    res: CallGraphResult,
    idx: SymbolIndex,
    max_hops: usize,
    dir: Direction,
    scoped: Option<SymbolDef>,
    callees: bool,
    k: int,
)
    requires
        graph_result_ok(res, idx, max_hops, dir, scoped),
        max_hops > 0,
        callees ==> dir != Direction::Callers,
        !callees ==> dir != Direction::Callees,
        0 <= k < side_edges(res, callees).len(),
    ensures
        exists|p: Seq<Seq<char>>|
            #[trigger] walk_from(side_graph(idx, scoped, callees), res.root@, p) && p.len()
                == side_edges(res, callees)[k].2 + 1 && p[p.len() - 1] == side_edges(res, callees)[k].1,
        side_edges(res, callees)[k].2 == 1 ==> side_edges(res, callees)[k].0 == res.root@,
        side_edges(res, callees)[k].2 > 1 ==> exists|k2: int|
            0 <= k2 < k && (#[trigger] side_edges(res, callees)[k2]).1 == side_edges(res, callees)[k].0
                && side_edges(res, callees)[k2].2 + 1 == side_edges(res, callees)[k].2,
{
    let (o1, d1, p1, o2, d2, p2) = choose|
        o1: Seq<Seq<char>>,
        d1: Seq<usize>,
        p1: Seq<usize>,
        o2: Seq<Seq<char>>,
        d2: Seq<usize>,
        p2: Seq<usize>,
    | #[trigger] built_from(res, idx, max_hops, dir, scoped, o1, d1, p1, o2, d2, p2);
    let (o, dep, par) = if callees { (o1, d1, p1) } else { (o2, d2, p2) };
    let g = side_graph(idx, scoped, callees);
    let es = side_edges(res, callees);
    let root = res.root@;
    assert(side_ok(es, o, dep, par, root, g, max_hops));
    assert(es[k] == (o[par[k + 1] as int], o[k + 1], dep[k + 1]));
    let p = lemma_tree_walk(o, dep, par, root, g, k + 1);
    assert(walk_from(g, root, p));
    let q = par[k + 1] as int;
    assert(par[k + 1] < k + 1 && dep[k + 1] == dep[q] + 1);
    if q == 0 {
        assert(o[0] == root);
    } else {
        assert(par[q] < q && dep[q] == dep[par[q] as int] + 1);
        assert(es[q - 1] == (o[par[q] as int], o[q], dep[q]));
    }
}

// ── Who makes calls ─────────────────────────────────────────────────────────

/// Only functions and methods make calls: a definition of any other kind
/// (a module, a struct, a trait, ...) calls nothing, whatever its range holds.
pub proof fn lemma_only_functions_call(idx: SymbolIndex, d: SymbolDef)
    requires
        d.kind != SymbolKind::Fn,
        d.kind != SymbolKind::Method,
    ensures
        def_calls(idx, d) == Set::<Seq<char>>::empty(),
{
    assert(def_calls(idx, d) =~= Set::<Seq<char>>::empty());
}

/// Every caller of a name is the name of a function or a method.
pub proof fn lemma_callers_are_functions(idx: SymbolIndex, n: Seq<char>, c: Seq<char>)
    requires
        callers_set(idx, n).contains(c),
    ensures
        exists|i: int|
            0 <= i < idx.defs().len() && (#[trigger] idx.defs()[i]).name@ == c && (idx.defs()[i].kind
                == SymbolKind::Fn || idx.defs()[i].kind == SymbolKind::Method),
{
    let i = choose|i: int|
        0 <= i < idx.defs().len() && (#[trigger] idx.defs()[i]).name@ == c && def_calls_name(
            idx,
            idx.defs()[i],
            n,
        );
    assert(idx.defs()[i].name@ == c);
}

/// A name has callees only through a function or method of that name.
pub proof fn lemma_callees_come_from_functions(idx: SymbolIndex, name: Seq<char>, n: Seq<char>)
    requires
        callees_set(idx, name).contains(n),
    ensures
        exists|i: int|
            0 <= i < idx.defs().len() && (#[trigger] idx.defs()[i]).name@ == name && (idx.defs()[i].kind
                == SymbolKind::Fn || idx.defs()[i].kind == SymbolKind::Method),
{
    let i = choose|i: int|
        0 <= i < idx.defs().len() && named(#[trigger] idx.defs()[i], name) && def_calls(
            idx,
            idx.defs()[i],
        ).contains(n);
    assert(idx.defs()[i].name@ == name);
}

/// In a built graph, every caller reported is a function or a method.
pub proof fn lemma_caller_edges_are_functions(
    res: CallGraphResult,
    idx: SymbolIndex,
    max_hops: usize,
    dir: Direction,
    scoped: Option<SymbolDef>,
    k: int,
)
    requires
        graph_result_ok(res, idx, max_hops, dir, scoped),
        dir != Direction::Callees,
        0 <= k < edges_view(res.callers@).len(),
    ensures
        exists|i: int|
            0 <= i < idx.defs().len() && (#[trigger] idx.defs()[i]).name@ == edges_view(res.callers@)[k].1
                && (idx.defs()[i].kind == SymbolKind::Fn || idx.defs()[i].kind == SymbolKind::Method),
{
    if max_hops == 0 {
        assert(edges_view(res.callers@).len() == 0);
    } else {
        lemma_edges_form_tree(res, idx, max_hops, dir, scoped, false);
        let e = side_edges(res, false)[k];
        assert(caller_graph(idx)(e.0).contains(e.1));
        lemma_callers_are_functions(idx, e.0, e.1);
    }
}

} // verus!
