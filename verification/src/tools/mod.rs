//! The decisions behind the six tools: parsing their string arguments,
//! resolving roots, ranking dead code and assembling the overview.  The
//! transport, the git calls and the JSON encoding live with the server.
pub mod params;

use vstd::prelude::*;

use std::sync::Arc;

use crate::graph::{build, build_rooted_at, graph_result_ok, CallGraphResult, Direction};
use crate::index::{
    derefs, is_referenced, named, opt_view, resolution_ok, search_matches, RepoStats, SymbolIndex,
    SymbolResolution,
};
use crate::index::model::{spec_kind_name, SymbolDef, SymbolKind};
use crate::index::parse::{spec_kind_from_syntax_name, spec_refine_kind};
use crate::tools::params::{
    BlameSymbolParams, CallGraphParams, SearchSymbolsParams,
};
use crate::text::{chars_of, relative_to, spec_relative, lowercase, to_lowercase};

verus! {

// ── Shared state ────────────────────────────────────────────────────────────

pub struct AppState {
    pub index: Arc<SymbolIndex>,
    pub repo_root: String,
}

pub struct GitSenseServer {
    state: Arc<AppState>,
}

impl GitSenseServer {
    /// The state this server answers from.
    pub closed spec fn spec_state(&self) -> Arc<AppState> {
        self.state
    }

    pub fn new(state: Arc<AppState>) -> (s: Self)
        ensures
            s.spec_state() == state,
    {
        GitSenseServer { state }
    }

    /// The state this server answers from.
    pub fn state(&self) -> (r: &Arc<AppState>)
        ensures
            *r == self.spec_state(),
    {
        &self.state
    }
}

// ── Kind and direction strings ──────────────────────────────────────────────

/// The kind a lowercase filter string names.  `impl` and `const` are not
/// accepted: tree-sitter-rust's tags query never emits a definition tag for
/// them, so such a filter could never match.
pub open spec fn spec_kind_filter(s: Seq<char>) -> Option<SymbolKind> {
    if s == "fn"@ {
        Some(SymbolKind::Fn)
    } else if s == "method"@ {
        Some(SymbolKind::Method)
    } else if s == "struct"@ {
        Some(SymbolKind::Struct)
    } else if s == "enum"@ {
        Some(SymbolKind::Enum)
    } else if s == "trait"@ {
        Some(SymbolKind::Trait)
    } else if s == "mod"@ {
        Some(SymbolKind::Mod)
    } else if s == "macro"@ {
        Some(SymbolKind::Macro)
    } else if s == "other"@ {
        Some(SymbolKind::Other)
    } else {
        None
    }
}

/// The direction a lowercase string names; anything unrecognised is `Both`.
pub open spec fn spec_direction_of(s: Seq<char>) -> Direction {
    if s == "callees"@ {
        Direction::Callees
    } else if s == "callers"@ {
        Direction::Callers
    } else {
        Direction::Both
    }
}

/// Whether `a` spells exactly `b`.
pub fn same_text(a: &str, b: &str) -> (r: bool)
    ensures
        r == (a@ == b@),
{
    let ca = chars_of(a);
    let cb = chars_of(b);
    if ca.len() != cb.len() {
        return false;
    }
    let mut i: usize = 0;
    while i < ca.len()
        invariant
            i <= ca.len(),
            ca.len() == cb.len(),
            ca@ == a@,
            cb@ == b@,
            forall|k: int| 0 <= k < i ==> ca@[k] == cb@[k],
        decreases ca.len() - i,
    {
        if ca[i] != cb[i] {
            assert(ca@[i as int] != cb@[i as int]);
            return false;
        }
        i = i + 1;
    }
    assert(ca@ =~= cb@);
    true
}

/// The kind a lowercase filter string names.
pub fn kind_from_lowercase(s: &str) -> (k: Option<SymbolKind>)
    ensures
        k == spec_kind_filter(s@),
{
    if same_text(s, "fn") {
        Some(SymbolKind::Fn)
    } else if same_text(s, "method") {
        Some(SymbolKind::Method)
    } else if same_text(s, "struct") {
        Some(SymbolKind::Struct)
    } else if same_text(s, "enum") {
        Some(SymbolKind::Enum)
    } else if same_text(s, "trait") {
        Some(SymbolKind::Trait)
    } else if same_text(s, "mod") {
        Some(SymbolKind::Mod)
    } else if same_text(s, "macro") {
        Some(SymbolKind::Macro)
    } else if same_text(s, "other") {
        Some(SymbolKind::Other)
    } else {
        None
    }
}

/// A kind extraction can give a definition: the tags query's kind for
/// some syntax name, refined by some enclosing item node.
pub open spec fn producible_kind(k: SymbolKind) -> bool {
    exists|syntax: Seq<char>, node: Seq<char>|
        #[trigger] spec_refine_kind(spec_kind_from_syntax_name(syntax), node) == k
}

/// The kind filters name exactly the kinds extraction can produce: a kind
/// has a filter string if and only if some definition can have it, and
/// that is every kind but `Impl` and `Const`.
pub proof fn lemma_kind_filters_are_producible(k: SymbolKind)
    ensures
        producible_kind(k) <==> exists|s: Seq<char>| #[trigger] spec_kind_filter(s) == Some(k),
        producible_kind(k) <==> !(k is Impl) && !(k is Const),
{
    reveal_strlit("function");
    reveal_strlit("method");
    reveal_strlit("class");
    reveal_strlit("interface");
    reveal_strlit("module");
    reveal_strlit("macro");
    reveal_strlit("enum_item");
    reveal_strlit("fn");
    reveal_strlit("struct");
    reveal_strlit("enum");
    reveal_strlit("trait");
    reveal_strlit("mod");
    reveal_strlit("other");
    assert("function"@.len() == 8 && "function"@[1] == 'u');
    assert("method"@.len() == 6 && "method"@[1] == 'e');
    assert("class"@.len() == 5 && "class"@[1] == 'l');
    assert("interface"@.len() == 9 && "interface"@[1] == 'n');
    assert("module"@.len() == 6 && "module"@[1] == 'o');
    assert("macro"@.len() == 5 && "macro"@[1] == 'a');
    assert("enum_item"@.len() == 9 && "enum_item"@[1] == 'n');
    assert("fn"@.len() == 2 && "fn"@[1] == 'n');
    assert("struct"@.len() == 6 && "struct"@[1] == 't');
    assert("enum"@.len() == 4 && "enum"@[1] == 'n');
    assert("trait"@.len() == 5 && "trait"@[1] == 'r');
    assert("mod"@.len() == 3 && "mod"@[1] == 'o');
    assert("other"@.len() == 5 && "other"@[1] == 't');
    let e = Seq::<char>::empty();
    match k {
        SymbolKind::Fn => {
            assert(spec_refine_kind(spec_kind_from_syntax_name("function"@), e) == k);
            assert(spec_kind_filter("fn"@) == Some(k));
        },
        SymbolKind::Method => {
            assert(spec_refine_kind(spec_kind_from_syntax_name("method"@), e) == k);
            assert(spec_kind_filter("method"@) == Some(k));
        },
        SymbolKind::Struct => {
            assert(spec_refine_kind(spec_kind_from_syntax_name("class"@), e) == k);
            assert(spec_kind_filter("struct"@) == Some(k));
        },
        SymbolKind::Enum => {
            assert(spec_refine_kind(spec_kind_from_syntax_name("class"@), "enum_item"@) == k);
            assert(spec_kind_filter("enum"@) == Some(k));
        },
        SymbolKind::Trait => {
            assert(spec_refine_kind(spec_kind_from_syntax_name("interface"@), e) == k);
            assert(spec_kind_filter("trait"@) == Some(k));
        },
        SymbolKind::Mod => {
            assert(spec_refine_kind(spec_kind_from_syntax_name("module"@), e) == k);
            assert(spec_kind_filter("mod"@) == Some(k));
        },
        SymbolKind::Macro => {
            assert(spec_refine_kind(spec_kind_from_syntax_name("macro"@), e) == k);
            assert(spec_kind_filter("macro"@) == Some(k));
        },
        SymbolKind::Other => {
            assert(spec_refine_kind(spec_kind_from_syntax_name(e), e) == k);
            assert(spec_kind_filter("other"@) == Some(k));
        },
        _ => {},
    }
}

/// The kind filter a tool argument names, matched case-insensitively.
pub fn parse_kind(s: &str) -> (k: Option<SymbolKind>)
    ensures
        k == spec_kind_filter(lowercase(s@)),
{
    let lower = to_lowercase(s);
    kind_from_lowercase(lower.as_str())
}

/// The direction a lowercase string names.
pub fn direction_from_lowercase(s: &str) -> (d: Direction)
    ensures
        d == spec_direction_of(s@),
{
    if same_text(s, "callees") {
        Direction::Callees
    } else if same_text(s, "callers") {
        Direction::Callers
    } else {
        Direction::Both
    }
}

/// The direction a tool argument names, matched case-insensitively.
pub fn parse_direction(s: &str) -> (d: Direction)
    ensures
        d == spec_direction_of(lowercase(s@)),
{
    let lower = to_lowercase(s);
    direction_from_lowercase(lower.as_str())
}

// ── Candidates for an ambiguous name ────────────────────────────────────────

/// One same-named candidate definition, as surfaced to the caller when a
/// name resolves ambiguously.
pub struct SymbolCandidate {
    pub name: String,
    pub kind: String,
    pub file: String,
    pub line: usize,
}

impl SymbolCandidate {
    /// The candidate for `def`, with its file relative to the repo root.
    pub fn from_def(index: &SymbolIndex, def: &SymbolDef) -> (c: SymbolCandidate)
        ensures
            c.name@ == def.name@,
            c.kind@ == spec_kind_name(def.kind),
            c.file@ == spec_relative(def.location.file@, index.root()@),
            c.line == def.location.line,
    {
        SymbolCandidate {
            name: def.name.clone(),
            kind: def.kind.name(),
            file: relative_to(def.location.file.as_str(), index.repo_root().as_str()),
            line: def.location.line,
        }
    }
}

/// The candidates for a list of definitions, in order.
pub fn candidates_of(index: &SymbolIndex, defs: &Vec<&SymbolDef>) -> (out: Vec<SymbolCandidate>)
    ensures
        out@.len() == defs@.len(),
        forall|i: int|
            0 <= i < out@.len() ==> (#[trigger] out@[i]).name@ == defs@[i].name@ && out@[i].kind@
                == spec_kind_name(defs@[i].kind) && out@[i].file@ == spec_relative(
                defs@[i].location.file@,
                index.root()@,
            ) && out@[i].line == defs@[i].location.line,
{
    let mut out: Vec<SymbolCandidate> = Vec::new();
    let mut i: usize = 0;
    while i < defs.len()
        invariant
            i <= defs.len(),
            out@.len() == i,
            forall|j: int|
                0 <= j < i ==> (#[trigger] out@[j]).name@ == defs@[j].name@ && out@[j].kind@
                    == spec_kind_name(defs@[j].kind) && out@[j].file@ == spec_relative(
                    defs@[j].location.file@,
                    index.root()@,
                ) && out@[j].line == defs@[j].location.line,
        decreases defs.len() - i,
    {
        out.push(SymbolCandidate::from_def(index, defs[i]));
        i = i + 1;
    }
    out
}

/// The message that accompanies the candidates of an ambiguous name.
pub open spec fn spec_ambiguous_message(name: Seq<char>) -> Seq<char> {
    "multiple symbols named '"@ + name + "'; pass file (and optionally line) to disambiguate"@
}

pub fn ambiguous_message(name: &str) -> (m: String)
    ensures
        m@ == spec_ambiguous_message(name@),
{
    let mut m = "multiple symbols named '".to_owned();
    m.append(name);
    m.append("'; pass file (and optionally line) to disambiguate");
    m
}

/// The message for a name with no definition.
pub open spec fn spec_not_found_message(name: Seq<char>) -> Seq<char> {
    "no symbol named '"@ + name + "' found in the index"@
}

pub fn not_found_message(name: &str) -> (m: String)
    ensures
        m@ == spec_not_found_message(name@),
{
    let mut m = "no symbol named '".to_owned();
    m.append(name);
    m.append("' found in the index");
    m
}

// ── search_symbols ──────────────────────────────────────────────────────────

/// The kind filter a `search_symbols` call applies: the kind its string
/// names, or none when absent or unrecognised.
pub open spec fn spec_kind_param(kind: Option<String>) -> Option<SymbolKind> {
    match kind {
        Some(k) => spec_kind_filter(lowercase(k@)),
        None => None,
    }
}

pub open spec fn opt_string_view(o: Option<String>) -> Option<Seq<char>> {
    match o {
        Some(s) => Some(s@),
        None => None,
    }
}

/// The definitions a `search_symbols` call answers with, ordered by
/// (file, line).
pub fn search_symbols_tool<'a>(index: &'a SymbolIndex, params: &SearchSymbolsParams) -> (res: Vec<
    &'a SymbolDef,
>)
    ensures
        derefs(res@) == index.defs().filter(
            |d: SymbolDef|
                search_matches(d, opt_string_view(params.name), spec_kind_param(params.kind)),
        ),
{
    let kind = match &params.kind {
        Some(k) => parse_kind(k.as_str()),
        None => None,
    };
    let name: Option<&str> = match &params.name {
        Some(n) => Some(n.as_str()),
        None => None,
    };
    let res = index.search_symbols(name, kind);
    assert(opt_view(name) == opt_string_view(params.name));
    res
}

// ── call_graph ──────────────────────────────────────────────────────────────

/// Hard ceiling for `max_hops`, bounding traversal cost.
pub const MAX_HOPS: usize = 32;

/// Hop budget when none is given.
pub const DEFAULT_HOPS: usize = 3;

/// The hop budget a `call_graph` call uses: the one given (default 3),
/// capped at 32.
pub open spec fn effective_hops(h: Option<usize>) -> usize {
    match h {
        Some(x) => if x < MAX_HOPS {
            x
        } else {
            MAX_HOPS
        },
        None => DEFAULT_HOPS,
    }
}

/// The direction a `call_graph` call uses (default both).
pub open spec fn effective_direction(d: Option<String>) -> Direction {
    match d {
        Some(s) => spec_direction_of(lowercase(s@)),
        None => Direction::Both,
    }
}

/// What `call_graph` answers: the candidates of an ambiguous root, or the
/// graph.
pub enum CallGraphAnswer<'a> {
    Ambiguous(Vec<&'a SymbolDef>),
    Graph(CallGraphResult),
}

/// The definitions named `name`, ordered by (file, line).
pub open spec fn named_defs(idx: SymbolIndex, name: Seq<char>) -> Seq<SymbolDef> {
    idx.defs().filter(|d: SymbolDef| named(d, name))
}

/// The answer follows the root's resolution: an unknown name is graphed by
/// name, a resolved one from its definition, an ambiguous one lists its
/// candidates.
pub open spec fn answer_follows(
    ans: CallGraphAnswer,
    r: SymbolResolution,
    idx: SymbolIndex,
    name: Seq<char>,
    hops: usize,
    dir: Direction,
) -> bool {
    match r {
        SymbolResolution::NotFound => ans matches CallGraphAnswer::Graph(g) && g.root@ == name
            && graph_result_ok(g, idx, hops, dir, None),
        SymbolResolution::Resolved(d) => ans matches CallGraphAnswer::Graph(g) && g.root@ == d.name@
            && graph_result_ok(g, idx, hops, dir, Some(*d)),
        SymbolResolution::Ambiguous(v) => ans matches CallGraphAnswer::Ambiguous(w) && derefs(w@)
            == derefs(v@),
    }
}

/// Resolve the root, then build the graph: by name when the name is
/// unknown, from the exact definition when resolved.
pub fn call_graph_answer<'a>(index: &'a SymbolIndex, params: &CallGraphParams) -> (ans:
    CallGraphAnswer<'a>)
    ensures
        exists|r: SymbolResolution|
            #[trigger] resolution_ok(
                r,
                named_defs(*index, params.name@),
                opt_string_view(params.file),
                params.line,
            ) && answer_follows(
                ans,
                r,
                *index,
                params.name@,
                effective_hops(params.max_hops),
                effective_direction(params.direction),
            ),
{
    let direction = match &params.direction {
        Some(d) => parse_direction(d.as_str()),
        None => Direction::Both,
    };
    let max_hops = match params.max_hops {
        Some(h) => if h < MAX_HOPS {
            h
        } else {
            MAX_HOPS
        },
        None => DEFAULT_HOPS,
    };
    let file: Option<&str> = match &params.file {
        Some(f) => Some(f.as_str()),
        None => None,
    };
    assert(opt_view(file) == opt_string_view(params.file));
    let r = index.resolve_symbol(params.name.as_str(), file, params.line);
    let ghost rg = r;
    assert(resolution_ok(rg, named_defs(*index, params.name@), opt_string_view(params.file), params.line));
    match r {
        SymbolResolution::NotFound => {
            let g = build(index, params.name.as_str(), max_hops, direction);
            CallGraphAnswer::Graph(g)
        },
        SymbolResolution::Resolved(def) => {
            let g = build_rooted_at(index, def, max_hops, direction);
            CallGraphAnswer::Graph(g)
        },
        SymbolResolution::Ambiguous(candidates) => CallGraphAnswer::Ambiguous(candidates),
    }
}

// ── blame_symbol ────────────────────────────────────────────────────────────

/// What `blame_symbol` does for a name: report it missing, list its
/// candidates, or blame one definition's line range in a repo-relative file.
pub enum BlamePlan<'a> {
    NotFound(String),
    Ambiguous(Vec<&'a SymbolDef>),
    Blame { def: &'a SymbolDef, file_rel: String, start: usize, end: usize },
}

/// The plan follows the name's resolution.
pub open spec fn plan_follows(plan: BlamePlan, r: SymbolResolution, idx: SymbolIndex, name: Seq<char>) -> bool {
    match r {
        SymbolResolution::NotFound => plan matches BlamePlan::NotFound(m) && m@ == spec_not_found_message(name),
        SymbolResolution::Ambiguous(v) => plan matches BlamePlan::Ambiguous(w) && derefs(w@) == derefs(v@),
        SymbolResolution::Resolved(d) => plan matches BlamePlan::Blame { def, file_rel, start, end } && *def
            == *d && file_rel@ == spec_relative(d.location.file@, idx.root()@) && start == d.line_range.0
            && end == d.line_range.1,
    }
}

/// Resolve the name and decide what to blame.
pub fn blame_plan<'a>(index: &'a SymbolIndex, params: &BlameSymbolParams) -> (plan: BlamePlan<'a>)
    ensures
        exists|r: SymbolResolution|
            #[trigger] resolution_ok(
                r,
                named_defs(*index, params.name@),
                opt_string_view(params.file),
                params.line,
            ) && plan_follows(plan, r, *index, params.name@),
{
    let file: Option<&str> = match &params.file {
        Some(f) => Some(f.as_str()),
        None => None,
    };
    assert(opt_view(file) == opt_string_view(params.file));
    let r = index.resolve_symbol(params.name.as_str(), file, params.line);
    let ghost rg = r;
    assert(resolution_ok(rg, named_defs(*index, params.name@), opt_string_view(params.file), params.line));
    match r {
        SymbolResolution::NotFound => BlamePlan::NotFound(not_found_message(params.name.as_str())),
        SymbolResolution::Ambiguous(candidates) => BlamePlan::Ambiguous(candidates),
        SymbolResolution::Resolved(def) => {
            let file_rel = relative_to(def.location.file.as_str(), index.repo_root().as_str());
            BlamePlan::Blame { def, file_rel, start: def.line_range.0, end: def.line_range.1 }
        },
    }
}

// ── find_dead_code ──────────────────────────────────────────────────────────

/// Result limit when none is given.
pub const DEFAULT_DEAD_CODE_LIMIT: usize = 50;

/// Hard ceiling for the result limit, bounding the git work per call.
pub const MAX_DEAD_CODE_LIMIT: usize = 200;

/// Seconds per day.
pub const SECS_PER_DAY: i64 = 86400;

/// The result limit a `find_dead_code` call uses (default 50, capped at 200).
pub open spec fn effective_limit(limit: Option<usize>) -> usize {
    let l = match limit {
        Some(x) => x,
        None => DEFAULT_DEAD_CODE_LIMIT,
    };
    if l < MAX_DEAD_CODE_LIMIT {
        l
    } else {
        MAX_DEAD_CODE_LIMIT
    }
}

pub fn dead_code_limit(limit: Option<usize>) -> (l: usize)
    ensures
        l == effective_limit(limit),
{
    let l = match limit {
        Some(x) => x,
        None => DEFAULT_DEAD_CODE_LIMIT,
    };
    if l < MAX_DEAD_CODE_LIMIT {
        l
    } else {
        MAX_DEAD_CODE_LIMIT
    }
}

/// How many candidates are blamed for a limit: four times as many, so that
/// ranking by age still leaves `limit` results (saturating).
pub open spec fn sample_size(limit: usize) -> int {
    if limit * 4 <= usize::MAX {
        limit * 4
    } else {
        usize::MAX as int
    }
}

/// The definitions dead-code search may report: unreferenced ones, `pub`
/// ones only when asked for, in (file, line) order.
pub open spec fn dead_code_eligible(index: SymbolIndex, include_pub: bool) -> Seq<SymbolDef> {
    index.defs().filter(|d: SymbolDef| !is_referenced(index.refs(), d.name@)).filter(
        |d: SymbolDef| include_pub || !d.is_pub,
    )
}

/// Dead-code candidates: unreferenced definitions, `pub` ones only when
/// asked for, at most `sample_size(limit)` of them, in (file, line) order.
pub fn dead_code_candidates<'a>(index: &'a SymbolIndex, include_pub: bool, limit: usize) -> (res: Vec<
    &'a SymbolDef,
>)
    ensures
        ({
            let kept = dead_code_eligible(*index, include_pub);
            derefs(res@) == kept.take(
                if kept.len() < sample_size(limit) {
                    kept.len() as int
                } else {
                    sample_size(limit)
                },
            )
        }),
        ({
            let eligible = dead_code_eligible(*index, include_pub).len() as int;
            let four = if 4 * limit <= usize::MAX {
                4 * limit
            } else {
                usize::MAX as int
            };
            res@.len() == if eligible < four {
                eligible
            } else {
                four
            }
        }),
{
    let unreferenced = index.unreferenced_defs();
    let ghost u = derefs(unreferenced@);
    let ghost pred = |d: SymbolDef| include_pub || !d.is_pub;
    let cap = if limit <= usize::MAX / 4 {
        limit * 4
    } else {
        usize::MAX
    };
    let mut out: Vec<&'a SymbolDef> = Vec::new();
    let mut i: usize = 0;
    while i < unreferenced.len() && out.len() < cap
        invariant
            i <= unreferenced.len(),
            u == derefs(unreferenced@),
            pred == (|d: SymbolDef| include_pub || !d.is_pub),
            cap == sample_size(limit),
            out@.len() <= cap,
            derefs(out@) == u.take(i as int).filter(pred),
        decreases unreferenced.len() - i,
    {
        let d = unreferenced[i];
        proof {
            crate::lemmas::lemma_filter_take_step(u, pred, i as int);
            assert(u[i as int] == *d);
        }
        if include_pub || !d.is_pub {
            let ghost prev = out@;
            out.push(d);
            assert(derefs(out@) =~= derefs(prev).push(*d));
        }
        i = i + 1;
    }
    proof {
        let kept = u.filter(pred);
        lemma_filter_prefix(u, pred, i as int);
        if i == unreferenced.len() {
            crate::lemmas::lemma_take_full(u);
            assert(kept.take(kept.len() as int) =~= kept);
        } else {
            assert(derefs(out@) =~= kept.take(cap as int));
        }
        lemma_candidates_are_four_times_limit(*index, include_pub, limit, derefs(out@));
    }
    out
}

/// Dead-code search over-samples fourfold: the candidates are the first
/// `4 * limit` eligible definitions (saturating at `usize::MAX`), or all of
/// them when there are fewer.  With 60 eligible and a limit of 10, exactly
/// 40 are sampled.
pub proof fn lemma_candidates_are_four_times_limit(
    index: SymbolIndex,
    include_pub: bool,
    limit: usize,
    cands: Seq<SymbolDef>,
)
    requires
        ({
            let kept = dead_code_eligible(index, include_pub);
            cands == kept.take(
                if kept.len() < sample_size(limit) {
                    kept.len() as int
                } else {
                    sample_size(limit)
                },
            )
        }),
    ensures
        ({
            let eligible = dead_code_eligible(index, include_pub).len() as int;
            let four = if 4 * limit <= usize::MAX {
                4 * limit
            } else {
                usize::MAX as int
            };
            &&& cands.len() == if eligible < four {
                eligible
            } else {
                four
            }
            &&& cands == dead_code_eligible(index, include_pub).take(cands.len() as int)
        }),
{
}

/// Filtering a prefix gives a prefix of the filter.
proof fn lemma_filter_prefix(s: Seq<SymbolDef>, p: spec_fn(SymbolDef) -> bool, i: int)
    requires
        0 <= i <= s.len(),
    ensures
        s.take(i).filter(p).len() <= s.filter(p).len(),
        s.take(i).filter(p) == s.filter(p).take(s.take(i).filter(p).len() as int),
    decreases s.len() - i,
{
    if i == s.len() {
        crate::lemmas::lemma_take_full(s);
        assert(s.filter(p).take(s.filter(p).len() as int) =~= s.filter(p));
    } else {
        lemma_filter_prefix(s, p, i + 1);
        crate::lemmas::lemma_filter_take_step(s, p, i);
        let a = s.take(i).filter(p);
        let b = s.take(i + 1).filter(p);
        if p(s[i]) {
            assert(a =~= b.take(a.len() as int));
            assert(s.filter(p).take(a.len() as int) =~= s.filter(p).take(b.len() as int).take(
                a.len() as int,
            ));
        }
    }
}

/// The file and line range of each candidate, the file relative to the
/// repo root: what gets blamed for its age.
pub fn blame_items(index: &SymbolIndex, candidates: &Vec<&SymbolDef>) -> (items: Vec<(String, (usize, usize))>)
    ensures
        items@.len() == candidates@.len(),
        forall|i: int|
            0 <= i < items@.len() ==> (#[trigger] items@[i]).0@ == spec_relative(
                candidates@[i].location.file@,
                index.root()@,
            ) && items@[i].1 == candidates@[i].line_range,
{
    let mut items: Vec<(String, (usize, usize))> = Vec::new();
    let mut i: usize = 0;
    while i < candidates.len()
        invariant
            i <= candidates.len(),
            items@.len() == i,
            forall|j: int|
                0 <= j < i ==> (#[trigger] items@[j]).0@ == spec_relative(
                    candidates@[j].location.file@,
                    index.root()@,
                ) && items@[j].1 == candidates@[j].line_range,
        decreases candidates.len() - i,
    {
        let d = candidates[i];
        items.push((relative_to(d.location.file.as_str(), index.repo_root().as_str()), d.line_range));
        i = i + 1;
    }
    items
}

/// Whole days from `ts` to `now`, truncated toward zero as `i64` division
/// does.
pub open spec fn spec_days_between(now: i64, ts: i64) -> int {
    let diff = now - ts;
    if diff >= 0 {
        diff / (SECS_PER_DAY as int)
    } else {
        -((-diff) / (SECS_PER_DAY as int))
    }
}

pub fn days_between(now: i64, ts: i64) -> (d: i64)
    ensures
        d == spec_days_between(now, ts),
{
    let diff: i128 = (now as i128) - (ts as i128);
    let d: i128 = if diff >= 0 {
        diff / 86400
    } else {
        -((-diff) / 86400)
    };
    assert(-0x1_0000_0000_0000_0000 <= diff <= 0x1_0000_0000_0000_0000);
    assert(-0x1_0000_0000_0000 <= d <= 0x1_0000_0000_0000) by (nonlinear_arith)
        requires
            -0x1_0000_0000_0000_0000 <= diff <= 0x1_0000_0000_0000_0000,
            d == (if diff >= 0 { diff / 86400 } else { -((-diff) / 86400) }),
    ;
    d as i64
}

/// One dead-code entry.
pub struct DeadEntry {
    pub name: String,
    pub kind: String,
    pub file: String,
    pub line: usize,
    pub is_pub: bool,
    pub days_since_last_touch: Option<i64>,
}

/// The entry for a candidate and the timestamp of its last commit, if known.
pub open spec fn entry_ok(e: DeadEntry, d: SymbolDef, ts: Option<i64>, now: i64, root: Seq<char>) -> bool {
    &&& e.name@ == d.name@
    &&& e.kind@ == spec_kind_name(d.kind)
    &&& e.file@ == spec_relative(d.location.file@, root)
    &&& e.line == d.location.line
    &&& e.is_pub == d.is_pub
    &&& match ts {
        Some(t) => e.days_since_last_touch == Some(spec_days_between(now, t) as i64),
        None => e.days_since_last_touch is None,
    }
}

/// Ordering of ages: known ages oldest first, unknown ages last.
pub open spec fn days_first(a: Option<i64>, b: Option<i64>) -> bool {
    match (a, b) {
        (Some(x), Some(y)) => x >= y,
        (Some(_), None) => true,
        (None, Some(_)) => false,
        (None, None) => true,
    }
}

/// `a` may come before `b`: non-pub first, then oldest first, unknown ages
/// last.
pub open spec fn dead_first(a: DeadEntry, b: DeadEntry) -> bool {
    (!a.is_pub && b.is_pub) || (a.is_pub == b.is_pub && days_first(
        a.days_since_last_touch,
        b.days_since_last_touch,
    ))
}

/// `a` and `b` rank equally.
pub open spec fn dead_tie(a: DeadEntry, b: DeadEntry) -> bool {
    dead_first(a, b) && dead_first(b, a)
}

/// `out` is `inp` stably sorted by `dead_first`: a permutation `perm` maps
/// each position of `out` to one of `inp`, the order holds, and equally
/// ranked entries keep their input order.
pub open spec fn stably_sorted(out: Seq<DeadEntry>, inp: Seq<DeadEntry>, perm: Seq<int>) -> bool {
    &&& perm.len() == inp.len()
    &&& out.len() == inp.len()
    &&& forall|i: int| 0 <= i < perm.len() ==> 0 <= #[trigger] perm[i] < inp.len()
    &&& forall|i: int, j: int| 0 <= i < j < perm.len() ==> #[trigger] perm[i] != #[trigger] perm[j]
    &&& forall|i: int| 0 <= i < out.len() ==> #[trigger] out[i] == inp[perm[i]]
    &&& forall|i: int, j: int| 0 <= i < j < out.len() ==> dead_first(#[trigger] out[i], #[trigger] out[j])
    &&& forall|i: int, j: int|
        0 <= i < j < out.len() && dead_tie(#[trigger] out[i], #[trigger] out[j]) ==> perm[i] < perm[j]
}

proof fn lemma_dead_first_total(a: DeadEntry, b: DeadEntry)
    ensures
        dead_first(a, b) || dead_first(b, a),
{
}

proof fn lemma_dead_first_transitive(a: DeadEntry, b: DeadEntry, c: DeadEntry)
    requires
        dead_first(a, b),
        dead_first(b, c),
    ensures
        dead_first(a, c),
{
}

/// Insert `x`, the input's entry at `k`, after every entry that ranks no
/// later than it.
#[verifier::spinoff_prover]
fn insert_ranked(out: &mut Vec<DeadEntry>, x: DeadEntry, Ghost(inp): Ghost<Seq<DeadEntry>>, Ghost(perm): Ghost<Seq<int>>, Ghost(k): Ghost<int>) -> (new_perm: Ghost<Seq<int>>)
    requires
        0 <= k < inp.len(),
        inp[k] == x,
        stably_sorted(old(out)@, inp.take(k), perm),
    ensures
        stably_sorted(final(out)@, inp.take(k + 1), new_perm@),
{
    let ghost before = out@;
    let mut p: usize = 0;
    while p < out.len() && ranks_first(&out[p], &x)
        invariant
            p <= out.len(),
            out@ == before,
            forall|m: int| 0 <= m < p ==> dead_first(#[trigger] before[m], x),
        decreases out.len() - p,
    {
        p = p + 1;
    }
    out.insert(p, x);
    let ghost np = perm.insert(p as int, k);
    proof {
        let after = out@;
        let ik = inp.take(k + 1);
        before.insert_ensures(p as int, x);
        perm.insert_ensures(p as int, k);
        if p < before.len() {
            lemma_dead_first_total(before[p as int], x);
        }
        assert forall|m: int| p <= m < before.len() implies dead_first(x, #[trigger] before[m])
            && !dead_first(before[m], x) by {
            if m > p {
                assert(dead_first(before[p as int], before[m]));
                if dead_first(before[m], x) {
                    lemma_dead_first_transitive(before[p as int], before[m], x);
                }
                lemma_dead_first_transitive(x, before[p as int], before[m]);
            }
        }
        assert forall|i: int| 0 <= i < np.len() implies 0 <= #[trigger] np[i] < ik.len() by {
            if i < p {
                assert(np[i] == perm[i]);
            } else if i > p {
                assert(np[i] == perm[i - 1]);
            }
        }
        assert forall|i: int, j: int| 0 <= i < j < np.len() implies #[trigger] np[i] != #[trigger] np[j] by {
            let bi = if i < p { i } else { i - 1 };
            let bj = if j < p { j } else { j - 1 };
            if i != p {
                assert(np[i] == perm[bi]);
            }
            if j != p {
                assert(np[j] == perm[bj]);
            }
        }
        assert forall|i: int| 0 <= i < after.len() implies #[trigger] after[i] == ik[np[i]] by {
            if i < p {
                assert(np[i] == perm[i]);
                assert(after[i] == before[i]);
                assert(inp.take(k)[perm[i]] == ik[perm[i]]);
            } else if i > p {
                assert(np[i] == perm[i - 1]);
                assert(after[i] == before[i - 1]);
                assert(inp.take(k)[perm[i - 1]] == ik[perm[i - 1]]);
            }
        }
        assert forall|i: int, j: int| 0 <= i < j < after.len() implies dead_first(#[trigger] after[i], #[trigger] after[j]) by {
            if i < p && j > p {
                assert(dead_first(before[i], x));
                assert(dead_first(x, before[j - 1]));
                lemma_dead_first_transitive(before[i], x, before[j - 1]);
            } else if i == p {
                assert(dead_first(x, before[j - 1]));
            } else if i > p {
                assert(dead_first(before[i - 1], before[j - 1]));
            }
        }
        assert forall|i: int, j: int| 0 <= i < j < after.len() && dead_tie(#[trigger] after[i], #[trigger] after[j]) implies np[i] < np[j] by {
            if j == p {
                assert(np[i] == perm[i]);
            } else if i == p {
                assert(!dead_first(before[j - 1], x));
            } else {
                let bi = if i < p { i } else { i - 1 };
                let bj = if j < p { j } else { j - 1 };
                if i < p {
                    assert(np[i] == perm[i]);
                } else {
                    assert(np[i] == perm[i - 1]);
                }
                assert(np[j] == perm[bj]);
                assert(after[i] == before[bi]);
                assert(after[j] == before[bj]);
            }
        }
    }
    Ghost(np)
}

/// What a dead-code search reports: the candidates that
/// `dead_code_candidates` picks, ranked by `rank_dead_code` with one
/// last-commit time per candidate, come to `min(limit, eligible)` entries,
/// each made from a different eligible definition (so none is `pub` unless
/// `pub` ones were asked for).
pub proof fn lemma_dead_code_report(
    index: SymbolIndex,
    include_pub: bool,
    limit: usize,
    cands: Seq<SymbolDef>,
    ts: Seq<Option<i64>>,
    now: i64,
    res: Seq<DeadEntry>,
)
    requires
        ({
            let kept = dead_code_eligible(index, include_pub);
            cands == kept.take(
                if kept.len() < sample_size(limit) {
                    kept.len() as int
                } else {
                    sample_size(limit)
                },
            )
        }),
        ts.len() == cands.len(),
        exists|entries: Seq<DeadEntry>, sorted: Seq<DeadEntry>, perm: Seq<int>|
            #[trigger] stably_sorted(sorted, entries, perm) && entries.len() == cands.len() && (
            forall|i: int|
                0 <= i < entries.len() ==> entry_ok(
                    #[trigger] entries[i],
                    cands[i],
                    ts[i],
                    now,
                    index.root()@,
                )) && res == sorted.take(
                if limit < sorted.len() {
                    limit as int
                } else {
                    sorted.len() as int
                },
            ),
    ensures
        res.len() == (if limit < dead_code_eligible(index, include_pub).len() {
            limit as int
        } else {
            dead_code_eligible(index, include_pub).len() as int
        }),
        exists|src: Seq<int>|
            #![trigger src.len()]
            src.len() == res.len() && (forall|i: int, j: int|
                0 <= i < j < src.len() ==> #[trigger] src[i] != #[trigger] src[j]) && forall|i: int|
                0 <= i < src.len() ==> 0 <= #[trigger] src[i] < dead_code_eligible(
                    index,
                    include_pub,
                ).len() && entry_ok(
                    res[i],
                    dead_code_eligible(index, include_pub)[src[i]],
                    ts[src[i]],
                    now,
                    index.root()@,
                ),
        !include_pub ==> forall|i: int| 0 <= i < res.len() ==> !(#[trigger] res[i]).is_pub,
{
    let kept = dead_code_eligible(index, include_pub);
    let unref = index.defs().filter(|d: SymbolDef| !is_referenced(index.refs(), d.name@));
    let p = |d: SymbolDef| include_pub || !d.is_pub;
    assert(kept == unref.filter(p));
    let (entries, sorted, perm) = choose|entries: Seq<DeadEntry>, sorted: Seq<DeadEntry>, perm: Seq<int>|
        #[trigger] stably_sorted(sorted, entries, perm) && entries.len() == cands.len() && (
        forall|i: int|
            0 <= i < entries.len() ==> entry_ok(
                #[trigger] entries[i],
                cands[i],
                ts[i],
                now,
                index.root()@,
            )) && res == sorted.take(
            if limit < sorted.len() {
                limit as int
            } else {
                sorted.len() as int
            },
        );
    assert(sample_size(limit) >= limit);
    let src = perm.take(res.len() as int);
    assert forall|i: int| 0 <= i < src.len() implies 0 <= #[trigger] src[i] < kept.len() && entry_ok(
        res[i],
        kept[src[i]],
        ts[src[i]],
        now,
        index.root()@,
    ) by {
        assert(src[i] == perm[i]);
        assert(res[i] == sorted[i]);
        assert(sorted[i] == entries[perm[i]]);
        assert(entry_ok(entries[perm[i]], cands[perm[i]], ts[perm[i]], now, index.root()@));
        assert(cands[perm[i]] == kept[perm[i]]);
    }
    assert forall|i: int, j: int| 0 <= i < j < src.len() implies #[trigger] src[i] != #[trigger] src[j] by {
        assert(src[i] == perm[i] && src[j] == perm[j]);
    }
    if !include_pub {
        assert forall|i: int| 0 <= i < res.len() implies !(#[trigger] res[i]).is_pub by {
            assert(src[i] == perm[i]);
            let k = src[i];
            assert(entry_ok(res[i], kept[k], ts[k], now, index.root()@));
            unref.lemma_filter_pred(p, k);
        }
    }
}

/// Whether `a` ranks no later than `b`.
fn ranks_first(a: &DeadEntry, b: &DeadEntry) -> (r: bool)
    ensures
        r == dead_first(*a, *b),
{
    if !a.is_pub && b.is_pub {
        return true;
    }
    if a.is_pub != b.is_pub {
        return false;
    }
    match (a.days_since_last_touch, b.days_since_last_touch) {
        (Some(x), Some(y)) => x >= y,
        (Some(_), None) => true,
        (None, Some(_)) => false,
        (None, None) => true,
    }
}

/// The entries for candidates paired with their last-commit timestamps
/// (pairs beyond the shorter list are dropped), ranked non-pub first, then
/// oldest first with unknown ages last, equal ranks keeping candidate order;
/// at most `limit` of them.
pub fn rank_dead_code(
    index: &SymbolIndex,
    candidates: &Vec<&SymbolDef>,
    timestamps: &Vec<Option<i64>>,
    now_secs: i64,
    limit: usize,
) -> (res: Vec<DeadEntry>)
    ensures
        exists|entries: Seq<DeadEntry>, sorted: Seq<DeadEntry>, perm: Seq<int>|
            #[trigger] stably_sorted(sorted, entries, perm) && entries.len() == (if candidates@.len()
                < timestamps@.len() {
                candidates@.len()
            } else {
                timestamps@.len()
            }) && (forall|i: int|
                0 <= i < entries.len() ==> entry_ok(
                    #[trigger] entries[i],
                    *candidates@[i],
                    timestamps@[i],
                    now_secs,
                    index.root()@,
                )) && res@ == sorted.take(
                if limit < sorted.len() {
                    limit as int
                } else {
                    sorted.len() as int
                },
            ),
{
    let n = if candidates.len() < timestamps.len() {
        candidates.len()
    } else {
        timestamps.len()
    };
    let mut entries: Vec<DeadEntry> = Vec::new();
    let mut i: usize = 0;
    while i < n
        invariant
            i <= n,
            n <= candidates.len(),
            n <= timestamps.len(),
            entries@.len() == i,
            forall|j: int|
                0 <= j < i ==> entry_ok(
                    #[trigger] entries@[j],
                    *candidates@[j],
                    timestamps@[j],
                    now_secs,
                    index.root()@,
                ),
        decreases n - i,
    {
        let d = candidates[i];
        let days = match timestamps[i] {
            Some(ts) => Some(days_between(now_secs, ts)),
            None => None,
        };
        entries.push(
            DeadEntry {
                name: d.name.clone(),
                kind: d.kind.name(),
                file: relative_to(d.location.file.as_str(), index.repo_root().as_str()),
                line: d.location.line,
                is_pub: d.is_pub,
                days_since_last_touch: days,
            },
        );
        i = i + 1;
    }
    let ghost inp = entries@;
    let mut sorted: Vec<DeadEntry> = Vec::new();
    let ghost mut perm: Seq<int> = Seq::empty();
    let mut rest = entries;
    let mut taken: Vec<DeadEntry> = Vec::new();
    // Move the entries out front to back.
    while rest.len() > 0
        invariant
            rest.len() <= inp.len(),
            rest@ == inp.take(rest.len() as int),
            taken@ == inp.skip(rest.len() as int).reverse(),
        decreases rest.len(),
    {
        let ghost m = rest.len() as int;
        let e = rest.pop().unwrap();
        taken.push(e);
        proof {
            assert(rest@ =~= inp.take(m - 1));
            assert(inp.skip(m - 1).reverse() =~= inp.skip(m).reverse().push(inp[m - 1]));
        }
    }
    assert(inp.skip(0) =~= inp);
    let mut k: usize = 0;
    assert(stably_sorted(sorted@, inp.take(0), perm)) by {
        assert(inp.take(0) =~= Seq::<DeadEntry>::empty());
    }
    while taken.len() > 0
        invariant
            k + taken.len() == inp.len(),
            inp.len() == n,
            taken@ == inp.skip(k as int).reverse(),
            stably_sorted(sorted@, inp.take(k as int), perm),
        decreases taken.len(),
    {
        let ghost t = taken@;
        let x = taken.pop().unwrap();
        proof {
            assert(t.last() == inp[k as int]);
            assert(taken@ =~= inp.skip(k + 1).reverse());
        }
        let Ghost(np) = insert_ranked(&mut sorted, x, Ghost(inp), Ghost(perm), Ghost(k as int));
        proof {
            perm = np;
        }
        k = k + 1;
    }
    assert(inp.take(inp.len() as int) =~= inp);
    let ghost full = sorted@;
    sorted.truncate(limit);
    proof {
        assert(sorted@ =~= full.take(if limit < full.len() { limit as int } else { full.len() as int }));
        assert(stably_sorted(full, inp, perm));
    }
    sorted
}

// ── repo_overview ───────────────────────────────────────────────────────────

/// At most this many files are listed as the hottest.
pub const HOTTEST_FILES: usize = 20;

/// The repository overview: the index statistics and the most churned files.
pub struct Overview {
    pub file_count: usize,
    pub def_count: usize,
    pub ref_count: usize,
    pub by_kind: Vec<(String, usize)>,
    pub modules: Vec<String>,
    pub hottest_files: Vec<(String, usize)>,
}

/// The overview from the index statistics and the per-file churn (highest
/// first): the statistics as they are, and the first `HOTTEST_FILES` churn
/// entries with each path made relative to the repo root.
pub fn repo_overview(stats: RepoStats, churn: Vec<(String, usize)>, root: &str) -> (o: Overview)
    ensures
        o.file_count == stats.file_count,
        o.def_count == stats.def_count,
        o.ref_count == stats.ref_count,
        o.by_kind@ == stats.by_kind@,
        o.modules@ == stats.modules@,
        o.hottest_files@.len() == (if churn@.len() < HOTTEST_FILES {
            churn@.len() as int
        } else {
            HOTTEST_FILES as int
        }),
        forall|i: int|
            0 <= i < o.hottest_files@.len() ==> (#[trigger] o.hottest_files@[i]).0@ == spec_relative(
                churn@[i].0@,
                root@,
            ) && o.hottest_files@[i].1 == churn@[i].1,
{
    let n = if churn.len() < HOTTEST_FILES {
        churn.len()
    } else {
        HOTTEST_FILES
    };
    let mut hottest: Vec<(String, usize)> = Vec::new();
    let mut i: usize = 0;
    while i < n
        invariant
            i <= n,
            n <= churn.len(),
            hottest@.len() == i,
            forall|j: int|
                0 <= j < i ==> (#[trigger] hottest@[j]).0@ == spec_relative(churn@[j].0@, root@)
                    && hottest@[j].1 == churn@[j].1,
        decreases n - i,
    {
        hottest.push((relative_to(churn[i].0.as_str(), root), churn[i].1));
        i = i + 1;
    }
    Overview {
        file_count: stats.file_count,
        def_count: stats.def_count,
        ref_count: stats.ref_count,
        by_kind: stats.by_kind,
        modules: stats.modules,
        hottest_files: hottest,
    }
}

} // verus!
