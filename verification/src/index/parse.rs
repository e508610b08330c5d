//! Tag extraction for Rust source files with tree-sitter.
//!
//! tree-sitter-rust's tags query (definitions) is extended with reference
//! patterns so that one pass of `tree_sitter_tags` yields both definitions
//! and call-site references.  A second query pass collects the full item
//! nodes, so that a definition's `line_range` spans its whole body.
use vstd::prelude::*;

use tree_sitter::StreamingIterator;

use crate::index::model::{def_view, ref_view, Location, SymbolDef, SymbolKind, SymbolRef};
use crate::lemmas::lemma_filter_from;
use crate::text::chars_of;

verus! {

// ── Outside types ───────────────────────────────────────────────────────────

#[verifier::external_type_specification]
#[verifier::external_body]
pub struct ExLanguage(tree_sitter::Language);

#[verifier::external_type_specification]
#[verifier::external_body]
pub struct ExQuery(tree_sitter::Query);

#[verifier::external_type_specification]
#[verifier::external_body]
pub struct ExQueryError(tree_sitter::QueryError);

#[verifier::external_type_specification]
#[verifier::external_body]
pub struct ExTagsConfiguration(tree_sitter_tags::TagsConfiguration);

#[verifier::external_type_specification]
#[verifier::external_body]
pub struct ExTagsContext(tree_sitter_tags::TagsContext);

#[verifier::external_type_specification]
#[verifier::external_body]
pub struct ExTagsError(tree_sitter_tags::Error);

// ── Queries ─────────────────────────────────────────────────────────────────

/// Additional `@reference.*` patterns appended to tree-sitter-rust's tags
/// query: direct calls `foo()`, method calls `obj.method()`, path calls
/// `Type::assoc()` and macro invocations `mac!()`.  Each names its callee
/// with an `@name` capture.
pub const CUSTOM_REFS_QUERY: &'static str = "
; direct function-call references: foo()
(call_expression
  function: (identifier) @name) @reference.call

; method-call references: obj.method()
(call_expression
  function: (field_expression
    field: (field_identifier) @name)) @reference.call

; path/associated-call references: Type::assoc() or mod::func()
(call_expression
  function: (scoped_identifier
    name: (identifier) @name)) @reference.call

; macro-call references: mac!()
(macro_invocation
  macro: (identifier) @name) @reference.call
";

/// Captures the whole item node of every definition kind, to widen a
/// definition's `line_range` from its name to its body.
pub const BODY_RANGE_QUERY: &'static str = "
(function_item) @def
(impl_item) @def
(struct_item) @def
(enum_item) @def
(trait_item) @def
(mod_item) @def
(const_item) @def
(macro_definition) @def
";

// ── Plain forms of what tree-sitter reports ─────────────────────────────────

/// One tag, as plain values: byte ranges of the name and of its (trimmed)
/// line, the 0-based row and column of the name, whether it is a
/// definition, its syntax type name (`"function"`, `"call"`, ...) and its
/// docs.
pub struct RawTag {
    pub name_start: usize,
    pub name_end: usize,
    pub line_start: usize,
    pub line_end: usize,
    pub row: usize,
    pub col: usize,
    pub is_definition: bool,
    pub syntax_type: String,
    pub docs: Option<String>,
}

/// One item node: byte range, 0-based start and end rows, and node kind
/// (`"function_item"`, `"enum_item"`, ...).
pub struct BodyNode {
    pub start_byte: usize,
    pub end_byte: usize,
    pub start_row: usize,
    pub end_row: usize,
    pub kind: String,
}

/// The plain contents of a tag.
pub type TagView = (usize, usize, usize, usize, usize, usize, bool, Seq<char>, Option<Seq<char>>);

/// The plain contents of an item node.
pub type NodeView = (usize, usize, usize, usize, Seq<char>);

pub open spec fn opt_str_view(o: Option<String>) -> Option<Seq<char>> {
    match o {
        Some(s) => Some(s@),
        None => None,
    }
}

pub open spec fn tag_view(t: RawTag) -> TagView {
    (
        t.name_start,
        t.name_end,
        t.line_start,
        t.line_end,
        t.row,
        t.col,
        t.is_definition,
        t.syntax_type@,
        opt_str_view(t.docs),
    )
}

pub open spec fn node_view(n: BodyNode) -> NodeView {
    (n.start_byte, n.end_byte, n.start_row, n.end_row, n.kind@)
}

pub open spec fn tag_views(v: Seq<RawTag>) -> Seq<TagView> {
    v.map_values(|t: RawTag| tag_view(t))
}

pub open spec fn node_views(v: Seq<BodyNode>) -> Seq<NodeView> {
    v.map_values(|n: BodyNode| node_view(n))
}

/// The number of line feeds in `s`.
pub open spec fn newlines(s: Seq<u8>) -> nat
    decreases s.len(),
{
    if s.len() == 0 {
        0
    } else {
        newlines(s.drop_last()) + if s.last() == 10u8 {
            1nat
        } else {
            0nat
        }
    }
}

/// The tag's name starts within the source, and its row is the number of
/// line feeds before the name.
pub open spec fn tag_row_ok(source: Seq<u8>, t: TagView) -> bool {
    t.0 <= source.len() && t.4 == newlines(source.take(t.0 as int))
}

/// The node lies within the source, and its start and end rows are the
/// numbers of line feeds before its start and before its end.
pub open spec fn node_rows_ok(source: Seq<u8>, n: NodeView) -> bool {
    &&& n.0 <= n.1 <= source.len()
    &&& n.2 == newlines(source.take(n.0 as int))
    &&& n.3 == newlines(source.take(n.1 as int))
}

// ── Names for what tree-sitter computes ─────────────────────────────────────

/// The tags that `TagsContext::generate_tags` yields for `source` under the
/// configuration of tree-sitter-rust's tags query with `CUSTOM_REFS_QUERY`
/// appended, in the order it yields them; `None` when the configuration
/// cannot be built, or generation or an item of the tag iterator fails.
pub uninterp spec fn spec_rust_tags(source: Seq<u8>) -> Option<Seq<TagView>>;

/// The captures of `BODY_RANGE_QUERY` over tree-sitter-rust's parse of
/// `source`, in match order; `None` when the query does not compile or the
/// parse fails.
pub uninterp spec fn spec_item_nodes(source: Seq<u8>) -> Option<Seq<NodeView>>;

// ── Trusted calls into tree-sitter ──────────────────────────────────────────

/// `tree_sitter_rust::LANGUAGE`, converted into a `tree_sitter::Language`.
#[verifier::external_body]
fn rust_language() -> tree_sitter::Language {
    tree_sitter_rust::LANGUAGE.into()
}

/// `tree_sitter_rust::TAGS_QUERY`: the grammar's own tags query.
#[verifier::external_body]
fn rust_tags_query() -> &'static str {
    tree_sitter_rust::TAGS_QUERY
}

/// Whether `tree_sitter::Query::new` compiles `source` as a query for
/// tree-sitter-rust's language.
pub uninterp spec fn spec_rust_query_compiles(source: Seq<char>) -> bool;

/// Whether `tree_sitter_tags::TagsConfiguration::new` builds a configuration
/// for tree-sitter-rust's language from its tags query with `custom_refs`
/// appended (on a line of its own) and an empty locals query.
pub uninterp spec fn spec_rust_tags_config_builds(custom_refs: Seq<char>) -> bool;

/// `tree_sitter::Query::new` over tree-sitter-rust's language.  Claimed: it
/// succeeds exactly when `spec_rust_query_compiles(source)`, a function of
/// the query text alone (the language is a constant).  Nothing is claimed
/// of the compiled query.
#[verifier::external_body]
fn compile_rust_query(source: &str) -> (res: Result<tree_sitter::Query, tree_sitter::QueryError>)
    ensures
        res is Ok == spec_rust_query_compiles(source@),
{
    tree_sitter::Query::new(&rust_language(), source)
}

/// `tree_sitter_tags::TagsConfiguration::new` over tree-sitter-rust's
/// language, its tags query with `custom_refs` appended, and no locals
/// query.  Claimed: it succeeds exactly when
/// `spec_rust_tags_config_builds(custom_refs)`, a function of the appended
/// text alone (language and tags query are constants).  Nothing is claimed
/// of the configuration.
#[verifier::external_body]
fn rust_tags_configuration(custom_refs: &str) -> (res: Result<
    tree_sitter_tags::TagsConfiguration,
    tree_sitter_tags::Error,
>)
    ensures
        res is Ok == spec_rust_tags_config_builds(custom_refs@),
{
    let query = format!("{}\n{}", rust_tags_query(), custom_refs);
    tree_sitter_tags::TagsConfiguration::new(rust_language(), &query, "")
}

/// `tree_sitter_tags::TagsContext::new`.
#[verifier::external_body]
fn tags_context() -> tree_sitter_tags::TagsContext {
    tree_sitter_tags::TagsContext::new()
}

/// `TagsContext::generate_tags` over `source`, under the configuration
/// `TagsConfiguration::new` builds from tree-sitter-rust's language and its
/// tags query with `CUSTOM_REFS_QUERY` appended; each tag's fields are
/// copied out as plain values and its syntax type id turned into its name
/// by `TagsConfiguration::syntax_type_name`.  The result is claimed to be
/// `spec_rust_tags(source)`: the configuration is built from constants, and
/// `generate_tags` resets the parser first, so the outcome depends on the
/// source alone.  Also claimed, for a source under 4 GiB (tree-sitter keeps
/// rows as 32-bit numbers): each tag's span starts at its name node's start,
/// whose row is what tree-sitter's lexer counts, one per line feed passed.
#[verifier::external_body]
fn generate_rust_tags(ctx: &mut tree_sitter_tags::TagsContext, source: &[u8]) -> (res: Option<Vec<RawTag>>)
    ensures
        match res {
            Some(v) => spec_rust_tags(source@) == Some(tag_views(v@)),
            None => spec_rust_tags(source@) is None,
        },
        res matches Some(v) ==> (source@.len() < 0x1_0000_0000 ==> forall|i: int|
            0 <= i < v@.len() ==> tag_row_ok(source@, #[trigger] tag_views(v@)[i])),
{
    let config = rust_tags_configuration(CUSTOM_REFS_QUERY).ok()?;
    let (iter, _has_error) = ctx.generate_tags(&config, source, None).ok()?;
    let mut out = Vec::new();
    for item in iter {
        let tag = item.ok()?;
        let syntax_type = config.syntax_type_name(tag.syntax_type_id).to_owned();
        let (name, line) = (tag.name_range, tag.line_range);
        let (row, col) = (tag.span.start.row, tag.span.start.column);
        out.push(RawTag { name_start: name.start, name_end: name.end, line_start: line.start,
            line_end: line.end, row, col, is_definition: tag.is_definition, syntax_type, docs: tag.docs });
    }
    Some(out)
}

/// Parses `source` with tree-sitter-rust and runs `BODY_RANGE_QUERY`,
/// compiled by `tree_sitter::Query::new`, over the tree, copying each
/// capture's node out as plain values.  The result is claimed to be
/// `spec_item_nodes(source)`: language and query are constants.  Also
/// claimed, for a source under 4 GiB (tree-sitter keeps rows as 32-bit
/// numbers): each node lies within the source, and its start and end rows
/// are what tree-sitter's lexer counts, one per line feed passed.
#[verifier::external_body]
fn parse_item_nodes(source: &[u8]) -> (res: Option<Vec<BodyNode>>)
    ensures
        match res {
            Some(v) => spec_item_nodes(source@) == Some(node_views(v@)),
            None => spec_item_nodes(source@) is None,
        },
        res matches Some(v) ==> (source@.len() < 0x1_0000_0000 ==> forall|i: int|
            0 <= i < v@.len() ==> node_rows_ok(source@, #[trigger] node_views(v@)[i])),
{
    let language = rust_language();
    let query = compile_rust_query(BODY_RANGE_QUERY).ok()?;
    let mut parser = tree_sitter::Parser::new();
    parser.set_language(&language).ok()?;
    let tree = parser.parse(source, None)?;
    let mut cursor = tree_sitter::QueryCursor::new();
    let mut matches = cursor.matches(&query, tree.root_node(), source);
    let mut out = Vec::new();
    while let Some(m) = matches.next() {
        for n in m.captures.iter().map(|c| c.node) {
            out.push(BodyNode { start_byte: n.start_byte(), end_byte: n.end_byte(),
                start_row: n.start_position().row, end_row: n.end_position().row, kind: n.kind().to_owned() });
        }
    }
    Some(out)
}

/// `std::str::from_utf8`: `Some` exactly when the bytes are valid UTF-8,
/// and then their decoding.
#[verifier::external_body]
fn utf8_str(bytes: &[u8]) -> (res: Option<&str>)
    ensures
        res is Some <==> vstd::utf8::valid_utf8(bytes@),
        res matches Some(s) ==> s@ == vstd::utf8::decode_utf8(bytes@),
{
    std::str::from_utf8(bytes).ok()
}

// ── Mapping tags to symbols ─────────────────────────────────────────────────

/// What a syntax type name of tree-sitter-rust's tags query stands for:
/// `function` → Fn, `method` → Method, `class` (struct, enum, union, type
/// alias) → Struct, `interface` → Trait, `module` → Mod, `macro` → Macro,
/// anything else → Other.
pub open spec fn spec_kind_from_syntax_name(name: Seq<char>) -> SymbolKind {
    if name == "function"@ {
        SymbolKind::Fn
    } else if name == "method"@ {
        SymbolKind::Method
    } else if name == "class"@ {
        SymbolKind::Struct
    } else if name == "interface"@ {
        SymbolKind::Trait
    } else if name == "module"@ {
        SymbolKind::Mod
    } else if name == "macro"@ {
        SymbolKind::Macro
    } else {
        SymbolKind::Other
    }
}

/// A `class` definition whose enclosing item node is an `enum_item` is an
/// enum; every other kind stands as the tags query reports it.
pub open spec fn spec_refine_kind(kind: SymbolKind, node_kind: Seq<char>) -> SymbolKind {
    if kind == SymbolKind::Struct && node_kind == "enum_item"@ {
        SymbolKind::Enum
    } else {
        kind
    }
}

/// The item node spans the byte range `[a, b)`.
pub open spec fn encloses(n: NodeView, a: usize, b: usize) -> bool {
    n.0 <= a && b <= n.1
}

pub open spec fn node_size(n: NodeView) -> int {
    n.1 - n.0
}

/// Some item node spans `[a, b)`.
pub open spec fn has_enclosing(nodes: Seq<NodeView>, a: usize, b: usize) -> bool {
    exists|i: int| 0 <= i < nodes.len() && encloses(#[trigger] nodes[i], a, b)
}

/// Node `i` is the first of the smallest item nodes spanning `[a, b)`.
pub open spec fn is_first_smallest(nodes: Seq<NodeView>, a: usize, b: usize, i: int) -> bool {
    &&& 0 <= i < nodes.len()
    &&& encloses(nodes[i], a, b)
    &&& forall|j: int|
        0 <= j < nodes.len() && encloses(#[trigger] nodes[j], a, b) ==> node_size(nodes[i])
            <= node_size(nodes[j])
    &&& forall|j: int|
        0 <= j < i && encloses(#[trigger] nodes[j], a, b) ==> node_size(nodes[j]) > node_size(
            nodes[i],
        )
}

/// The line starts with the visibility keyword: `pub ` or `pub(`.
pub open spec fn line_is_pub(line: Seq<u8>) -> bool {
    line.len() >= 4 && line[0] == 112u8 && line[1] == 117u8 && line[2] == 98u8 && (line[3] == 32u8
        || line[3] == 40u8)
}

/// The tag's positions fit the source, its name is UTF-8, and the 1-based
/// numbers derived from it fit a `usize`.
pub open spec fn tag_ok(source: Seq<u8>, t: TagView, nodes: Seq<NodeView>) -> bool {
    &&& t.0 <= t.1 <= source.len()
    &&& vstd::utf8::valid_utf8(source.subrange(t.0 as int, t.1 as int))
    &&& t.4 < usize::MAX
    &&& t.5 < usize::MAX
    &&& t.6 ==> t.2 <= t.3 <= source.len()
    &&& t.6 ==> forall|i: int|
        is_first_smallest(nodes, t.0, t.1, i) ==> (#[trigger] nodes[i]).2 < usize::MAX && nodes[i].3
            < usize::MAX
}

/// The definition made from tag `t`: name from the name bytes, location at
/// the name (1-based), visibility from the line's start, kind from the
/// syntax type refined by the smallest enclosing item node, and line range
/// that node's rows (1-based) or else the name's row.
pub open spec fn def_ok(
    d: SymbolDef,
    source: Seq<u8>,
    path: Seq<char>,
    t: TagView,
    nodes: Seq<NodeView>,
) -> bool {
    let base = spec_kind_from_syntax_name(t.7);
    &&& d.name@ == vstd::utf8::decode_utf8(source.subrange(t.0 as int, t.1 as int))
    &&& d.location.file@ == path
    &&& d.location.line == t.4 + 1
    &&& d.location.col == t.5 + 1
    &&& d.is_pub == line_is_pub(source.subrange(t.2 as int, t.3 as int))
    &&& opt_str_view(d.docs) == t.8
    &&& if has_enclosing(nodes, t.0, t.1) {
        exists|i: int|
            is_first_smallest(nodes, t.0, t.1, i) && d.line_range.0 == (#[trigger] nodes[i]).2 + 1
                && d.line_range.1 == nodes[i].3 + 1 && d.kind == spec_refine_kind(base, nodes[i].4)
    } else {
        d.line_range.0 == t.4 + 1 && d.line_range.1 == t.4 + 1 && d.kind == base
    }
}

/// The reference made from tag `t`.
pub open spec fn ref_ok(r: SymbolRef, source: Seq<u8>, path: Seq<char>, t: TagView) -> bool {
    &&& r.name@ == vstd::utf8::decode_utf8(source.subrange(t.0 as int, t.1 as int))
    &&& r.location.file@ == path
    &&& r.location.line == t.4 + 1
    &&& r.location.col == t.5 + 1
}

pub open spec fn is_def_tag(t: TagView) -> bool {
    t.6
}

pub open spec fn is_ref_tag(t: TagView) -> bool {
    !t.6
}

/// Failures of `RustTagger::new`.
#[derive(Debug, Clone, Copy, PartialEq, Eq, Structural)]
pub enum TaggerError {
    /// `BODY_RANGE_QUERY` did not compile.
    BodyQuery,
    /// The tags configuration could not be built.
    TagsConfiguration,
}

/// Failures of `RustTagger::extract`.
#[derive(Debug, Clone, Copy, PartialEq, Eq, Structural)]
pub enum ExtractError {
    /// tree-sitter could not parse the source for the item nodes.
    Parse,
    /// Tag generation, or the tag iterator, failed.
    Tags,
    /// A tag's name is not valid UTF-8, or its positions do not fit.
    BadTag,
}

/// What extraction gives for `source` once the tags and item nodes are
/// known: definitions and references, each in tag order, or `BadTag`.
pub open spec fn assemble_ok(
    res: Result<(Vec<SymbolDef>, Vec<SymbolRef>), ExtractError>,
    source: Seq<u8>,
    path: Seq<char>,
    tags: Seq<TagView>,
    nodes: Seq<NodeView>,
) -> bool {
    if forall|i: int| 0 <= i < tags.len() ==> tag_ok(source, #[trigger] tags[i], nodes) {
        &&& res is Ok
        &&& res->Ok_0.0@.len() == tags.filter(|t: TagView| is_def_tag(t)).len()
        &&& forall|i: int|
            0 <= i < res->Ok_0.0@.len() ==> def_ok(
                #[trigger] res->Ok_0.0@[i],
                source,
                path,
                tags.filter(|t: TagView| is_def_tag(t))[i],
                nodes,
            )
        &&& res->Ok_0.1@.len() == tags.filter(|t: TagView| is_ref_tag(t)).len()
        &&& forall|i: int|
            0 <= i < res->Ok_0.1@.len() ==> ref_ok(
                #[trigger] res->Ok_0.1@[i],
                source,
                path,
                tags.filter(|t: TagView| is_ref_tag(t))[i],
            )
    } else {
        res == Err::<(Vec<SymbolDef>, Vec<SymbolRef>), ExtractError>(ExtractError::BadTag)
    }
}

/// What extraction gives for `source`: `Parse` when the item-node parse
/// fails, `Tags` when tag generation fails, and otherwise what the tags and
/// nodes assemble to.
pub open spec fn extract_ok(
    res: Result<(Vec<SymbolDef>, Vec<SymbolRef>), ExtractError>,
    source: Seq<u8>,
    path: Seq<char>,
) -> bool {
    match spec_item_nodes(source) {
        None => res == Err::<(Vec<SymbolDef>, Vec<SymbolRef>), ExtractError>(ExtractError::Parse),
        Some(nodes) => match spec_rust_tags(source) {
            None => res == Err::<(Vec<SymbolDef>, Vec<SymbolRef>), ExtractError>(ExtractError::Tags),
            Some(tags) => assemble_ok(res, source, path, tags, nodes),
        },
    }
}

/// Whether `a` spells exactly `b`.
fn str_is(a: &str, b: &str) -> (r: bool)
    ensures
        r == (a@ == b@),
{
    let ca = chars_of(a);
    let cb = chars_of(b);
    if ca.len() != cb.len() {
        return false;
    }
    let mut i: usize = 0;
    while i < ca.len()
        invariant
            i <= ca.len(),
            ca.len() == cb.len(),
            ca@ == a@,
            cb@ == b@,
            forall|k: int| 0 <= k < i ==> ca@[k] == cb@[k],
        decreases ca.len() - i,
    {
        if ca[i] != cb[i] {
            assert(ca@[i as int] != cb@[i as int]);
            return false;
        }
        i = i + 1;
    }
    assert(ca@ =~= cb@);
    true
}

/// Map a syntax type name to a `SymbolKind`.
fn kind_from_syntax_name(name: &str) -> (k: SymbolKind)
    ensures
        k == spec_kind_from_syntax_name(name@),
{
    if str_is(name, "function") {
        SymbolKind::Fn
    } else if str_is(name, "method") {
        SymbolKind::Method
    } else if str_is(name, "class") {
        SymbolKind::Struct
    } else if str_is(name, "interface") {
        SymbolKind::Trait
    } else if str_is(name, "module") {
        SymbolKind::Mod
    } else if str_is(name, "macro") {
        SymbolKind::Macro
    } else {
        SymbolKind::Other
    }
}

/// Distinguish enums from structs by the enclosing item node.
fn refine_kind(kind: SymbolKind, node_kind: &str) -> (k: SymbolKind)
    ensures
        k == spec_refine_kind(kind, node_kind@),
{
    if kind == SymbolKind::Struct && str_is(node_kind, "enum_item") {
        SymbolKind::Enum
    } else {
        kind
    }
}

/// The first of the smallest item nodes spanning `[a, b)`, if any.
fn smallest_enclosing(nodes: &Vec<BodyNode>, a: usize, b: usize) -> (r: Option<usize>)
    requires
        a <= b,
    ensures
        r matches Some(i) ==> is_first_smallest(node_views(nodes@), a, b, i as int),
        r is None ==> !has_enclosing(node_views(nodes@), a, b),
{
    let ghost nv = node_views(nodes@);
    let mut best: Option<usize> = None;
    let mut j: usize = 0;
    while j < nodes.len()
        invariant
            j <= nodes.len(),
            a <= b,
            nv == node_views(nodes@),
            best matches Some(i) ==> i < j && encloses(nv[i as int], a, b) && (forall|k: int|
                0 <= k < j && encloses(#[trigger] nv[k], a, b) ==> node_size(nv[i as int])
                    <= node_size(nv[k])) && (forall|k: int|
                0 <= k < i && encloses(#[trigger] nv[k], a, b) ==> node_size(nv[k]) > node_size(
                    nv[i as int],
                )),
            best is None ==> forall|k: int| 0 <= k < j ==> !encloses(#[trigger] nv[k], a, b),
        decreases nodes.len() - j,
    {
        let n = &nodes[j];
        assert(nv[j as int] == node_view(*n));
        if n.start_byte <= a && b <= n.end_byte {
            match best {
                None => {
                    best = Some(j);
                },
                Some(i) => {
                    let bn = &nodes[i];
                    assert(nv[i as int] == node_view(*bn));
                    if (n.end_byte - n.start_byte) < (bn.end_byte - bn.start_byte) {
                        best = Some(j);
                    }
                },
            }
        }
        j = j + 1;
    }
    best
}

/// Whether the line starts with `pub ` or `pub(`.
fn starts_pub(line: &[u8]) -> (r: bool)
    ensures
        r == line_is_pub(line@),
{
    line.len() >= 4 && line[0] == 112u8 && line[1] == 117u8 && line[2] == 98u8 && (line[3] == 32u8
        || line[3] == 40u8)
}

/// Turn tags and item nodes into definitions and references, each in tag
/// order.  Fails with `BadTag` when some tag's name is not UTF-8 or its
/// positions do not fit the source.
pub fn assemble_symbols(source: &[u8], path: &str, tags: &Vec<RawTag>, nodes: &Vec<BodyNode>) -> (res:
    Result<(Vec<SymbolDef>, Vec<SymbolRef>), ExtractError>)
    ensures
        assemble_ok(res, source@, path@, tag_views(tags@), node_views(nodes@)),
{
    let ghost tv = tag_views(tags@);
    let ghost nv = node_views(nodes@);
    let ghost pd = |t: TagView| is_def_tag(t);
    let ghost pr = |t: TagView| is_ref_tag(t);
    let mut defs: Vec<SymbolDef> = Vec::new();
    let mut refs: Vec<SymbolRef> = Vec::new();
    let mut k: usize = 0;
    while k < tags.len()
        invariant
            k <= tags.len(),
            tv == tag_views(tags@),
            nv == node_views(nodes@),
            pd == (|t: TagView| is_def_tag(t)),
            pr == (|t: TagView| is_ref_tag(t)),
            forall|j: int| 0 <= j < k ==> tag_ok(source@, #[trigger] tv[j], nv),
            defs@.len() == tv.take(k as int).filter(pd).len(),
            forall|i: int|
                0 <= i < defs@.len() ==> def_ok(
                    #[trigger] defs@[i],
                    source@,
                    path@,
                    tv.take(k as int).filter(pd)[i],
                    nv,
                ),
            refs@.len() == tv.take(k as int).filter(pr).len(),
            forall|i: int|
                0 <= i < refs@.len() ==> ref_ok(
                    #[trigger] refs@[i],
                    source@,
                    path@,
                    tv.take(k as int).filter(pr)[i],
                ),
        decreases tags.len() - k,
    {
        let t = &tags[k];
        assert(tv[k as int] == tag_view(*t));
        if !(t.name_start <= t.name_end && t.name_end <= source.len()) || t.row == usize::MAX
            || t.col == usize::MAX {
            assert(!tag_ok(source@, tv[k as int], nv));
            return Err(ExtractError::BadTag);
        }
        let name_bytes = vstd::slice::slice_subrange(source, t.name_start, t.name_end);
        let name = match utf8_str(name_bytes) {
            Some(s) => s.to_owned(),
            None => {
                assert(!tag_ok(source@, tv[k as int], nv));
                return Err(ExtractError::BadTag);
            },
        };
        let location = Location { file: path.to_owned(), line: t.row + 1, col: t.col + 1 };
        proof {
            crate::lemmas::lemma_filter_take_step(tv, pd, k as int);
            crate::lemmas::lemma_filter_take_step(tv, pr, k as int);
        }
        if t.is_definition {
            if !(t.line_start <= t.line_end && t.line_end <= source.len()) {
                assert(!tag_ok(source@, tv[k as int], nv));
                return Err(ExtractError::BadTag);
            }
            let is_pub = starts_pub(vstd::slice::slice_subrange(source, t.line_start, t.line_end));
            let base = kind_from_syntax_name(t.syntax_type.as_str());
            let kind;
            let line_range;
            match smallest_enclosing(nodes, t.name_start, t.name_end) {
                Some(i) => {
                    let n = &nodes[i];
                    assert(nv[i as int] == node_view(*n));
                    if n.start_row == usize::MAX || n.end_row == usize::MAX {
                        assert(!tag_ok(source@, tv[k as int], nv));
                        return Err(ExtractError::BadTag);
                    }
                    kind = refine_kind(base, n.kind.as_str());
                    line_range = (n.start_row + 1, n.end_row + 1);
                },
                None => {
                    kind = base;
                    line_range = (t.row + 1, t.row + 1);
                },
            }
            let docs = match &t.docs {
                Some(d) => Some(d.clone()),
                None => None,
            };
            let d = SymbolDef { name, kind, location, line_range, is_pub, docs };
            proof {
                assert(def_ok(d, source@, path@, tv[k as int], nv));
            }
            let ghost prev = defs@;
            defs.push(d);
            proof {
                assert forall|i: int| 0 <= i < defs@.len() implies def_ok(
                    #[trigger] defs@[i],
                    source@,
                    path@,
                    tv.take(k + 1).filter(pd)[i],
                    nv,
                ) by {
                    if i < prev.len() {
                        assert(defs@[i] == prev[i]);
                    }
                }
            }
        } else {
            let r = SymbolRef { name, location };
            let ghost prev = refs@;
            refs.push(r);
            proof {
                assert forall|i: int| 0 <= i < refs@.len() implies ref_ok(
                    #[trigger] refs@[i],
                    source@,
                    path@,
                    tv.take(k + 1).filter(pr)[i],
                ) by {
                    if i < prev.len() {
                        assert(refs@[i] == prev[i]);
                    }
                }
            }
        }
        k = k + 1;
    }
    proof {
        crate::lemmas::lemma_take_full(tv);
    }
    Ok((defs, refs))
}

/// Why a tagger cannot be built, if it cannot: `BODY_RANGE_QUERY` does not
/// compile, or else the tags configuration does not build.
pub open spec fn tagger_error() -> Option<TaggerError> {
    if !spec_rust_query_compiles(BODY_RANGE_QUERY@) {
        Some(TaggerError::BodyQuery)
    } else if !spec_rust_tags_config_builds(CUSTOM_REFS_QUERY@) {
        Some(TaggerError::TagsConfiguration)
    } else {
        None
    }
}

/// Single-language tagger over tree-sitter-rust: a reusable tags context
/// (parser and query cursor).  Build once, call `extract` many times.
pub struct RustTagger {
    ctx: tree_sitter_tags::TagsContext,
}

impl RustTagger {
    /// Build a tagger, first checking that `BODY_RANGE_QUERY` compiles and
    /// that the tags configuration (tree-sitter-rust's tags query with
    /// `CUSTOM_REFS_QUERY` appended) builds.
    pub fn new() -> (res: Result<RustTagger, TaggerError>)
        ensures
            res is Ok <==> tagger_error() is None,
            res matches Err(e) ==> tagger_error() == Some(e),
    {
        if compile_rust_query(BODY_RANGE_QUERY).is_err() {
            return Err(TaggerError::BodyQuery);
        }
        if rust_tags_configuration(CUSTOM_REFS_QUERY).is_err() {
            return Err(TaggerError::TagsConfiguration);
        }
        Ok(RustTagger { ctx: tags_context() })
    }

    /// Extract definitions and references from `source`; `path` only fills
    /// `Location::file`.  The item nodes are collected first, then the tags.
    pub fn extract(&mut self, source: &[u8], path: &str) -> (res: Result<
        (Vec<SymbolDef>, Vec<SymbolRef>),
        ExtractError,
    >)
        ensures
            extract_ok(res, source@, path@),
            source@.len() < 0x1_0000_0000 ==> (res matches Ok((defs, _)) ==> forall|i: int|
                0 <= i < defs@.len() ==> (#[trigger] defs@[i]).line_range.0 <= defs@[i].location.line
                    <= defs@[i].line_range.1),
    {
        let nodes = match parse_item_nodes(source) {
            Some(n) => n,
            None => return Err(ExtractError::Parse),
        };
        let tags = match generate_rust_tags(&mut self.ctx, source) {
            Some(t) => t,
            None => return Err(ExtractError::Tags),
        };
        let res = assemble_symbols(source, path, &tags, &nodes);
        proof {
            if source@.len() < 0x1_0000_0000 && res is Ok {
                let tv = tag_views(tags@);
                let nv = node_views(nodes@);
                let dt = tv.filter(|t: TagView| is_def_tag(t));
                let defs = res->Ok_0.0@;
                assert forall|i: int| 0 <= i < defs.len() implies (#[trigger] defs[i]).line_range.0
                    <= defs[i].location.line <= defs[i].line_range.1 by {
                    lemma_filter_from(tv, |t: TagView| is_def_tag(t), i);
                    let k = choose|k: int| 0 <= k < tv.len() && tv[k] == dt[i];
                    assert(tag_ok(source@, tv[k], nv));
                    assert(tag_row_ok(source@, tv[k]));
                    lemma_def_within_range(defs[i], source@, path@, dt[i], nv);
                }
            }
        }
        res
    }
}

/// Line feeds before a position never outnumber those before a later one.
proof fn lemma_newlines_monotone(s: Seq<u8>, a: int, b: int)
    requires
        0 <= a <= b <= s.len(),
    ensures
        newlines(s.take(a)) <= newlines(s.take(b)),
    decreases b - a,
{
    if a < b {
        lemma_newlines_monotone(s, a, b - 1);
        assert(s.take(b).drop_last() =~= s.take(b - 1));
    }
}

/// A definition made from a tag lies on a line within its own line range,
/// when rows count line feeds.
proof fn lemma_def_within_range(
    d: SymbolDef,
    source: Seq<u8>,
    path: Seq<char>,
    t: TagView,
    nodes: Seq<NodeView>,
)
    requires
        def_ok(d, source, path, t, nodes),
        tag_ok(source, t, nodes),
        tag_row_ok(source, t),
        forall|i: int| 0 <= i < nodes.len() ==> node_rows_ok(source, #[trigger] nodes[i]),
    ensures
        d.line_range.0 <= d.location.line <= d.line_range.1,
{
    if has_enclosing(nodes, t.0, t.1) {
        let i = choose|i: int|
            is_first_smallest(nodes, t.0, t.1, i) && d.line_range.0 == (#[trigger] nodes[i]).2 + 1
                && d.line_range.1 == nodes[i].3 + 1 && d.kind == spec_refine_kind(
                spec_kind_from_syntax_name(t.7),
                nodes[i].4,
            );
        assert(node_rows_ok(source, nodes[i]));
        lemma_newlines_monotone(source, nodes[i].0 as int, t.0 as int);
        lemma_newlines_monotone(source, t.0 as int, nodes[i].1 as int);
    }
}

// ── Laws ────────────────────────────────────────────────────────────────────

/// At most one node is the first of the smallest spanning `[a, b)`.
proof fn lemma_first_smallest_unique(nodes: Seq<NodeView>, a: usize, b: usize, i: int, j: int)
    requires
        is_first_smallest(nodes, a, b, i),
        is_first_smallest(nodes, a, b, j),
    ensures
        i == j,
{
    if i < j {
        assert(encloses(nodes[i], a, b));
    } else if j < i {
        assert(encloses(nodes[j], a, b));
    }
}

/// Two definitions made from the same tag agree in every field.
proof fn lemma_def_ok_unique(
    d1: SymbolDef,
    d2: SymbolDef,
    source: Seq<u8>,
    path: Seq<char>,
    t: TagView,
    nodes: Seq<NodeView>,
)
    requires
        def_ok(d1, source, path, t, nodes),
        def_ok(d2, source, path, t, nodes),
    ensures
        def_view(d1) == def_view(d2),
{
    if has_enclosing(nodes, t.0, t.1) {
        let i1 = choose|i: int|
            is_first_smallest(nodes, t.0, t.1, i) && d1.line_range.0 == (#[trigger] nodes[i]).2 + 1
                && d1.line_range.1 == nodes[i].3 + 1 && d1.kind == spec_refine_kind(
                spec_kind_from_syntax_name(t.7),
                nodes[i].4,
            );
        let i2 = choose|i: int|
            is_first_smallest(nodes, t.0, t.1, i) && d2.line_range.0 == (#[trigger] nodes[i]).2 + 1
                && d2.line_range.1 == nodes[i].3 + 1 && d2.kind == spec_refine_kind(
                spec_kind_from_syntax_name(t.7),
                nodes[i].4,
            );
        lemma_first_smallest_unique(nodes, t.0, t.1, i1, i2);
    }
}

/// Extraction depends on the source and the path alone, never on what the
/// tagger extracted before: any two outcomes that meet `extract`'s contract
/// for the same source and path (a reused tagger's and a fresh one's, say)
/// are the same error, or the same definitions and the same references,
/// field by field and in the same order.
pub proof fn lemma_extract_depends_on_input_only(
    r1: Result<(Vec<SymbolDef>, Vec<SymbolRef>), ExtractError>,
    r2: Result<(Vec<SymbolDef>, Vec<SymbolRef>), ExtractError>,
    source: Seq<u8>,
    path: Seq<char>,
)
    requires
        extract_ok(r1, source, path),
        extract_ok(r2, source, path),
    ensures
        r1 is Ok <==> r2 is Ok,
        r1 is Err ==> r1 == r2,
        r1 is Ok ==> r1->Ok_0.0@.map_values(|d: SymbolDef| def_view(d)) == r2->Ok_0.0@.map_values(
            |d: SymbolDef| def_view(d),
        ),
        r1 is Ok ==> r1->Ok_0.1@.map_values(|r: SymbolRef| ref_view(r)) == r2->Ok_0.1@.map_values(
            |r: SymbolRef| ref_view(r),
        ),
{
    if r1 is Ok {
        let nodes = spec_item_nodes(source)->0;
        let tags = spec_rust_tags(source)->0;
        let dt = tags.filter(|t: TagView| is_def_tag(t));
        let rt = tags.filter(|t: TagView| is_ref_tag(t));
        let (a, b) = (r1->Ok_0, r2->Ok_0);
        assert forall|i: int| 0 <= i < a.0@.len() implies def_view(#[trigger] a.0@[i]) == def_view(
            b.0@[i],
        ) by {
            lemma_def_ok_unique(a.0@[i], b.0@[i], source, path, dt[i], nodes);
        }
        assert forall|i: int| 0 <= i < a.1@.len() implies ref_view(#[trigger] a.1@[i]) == ref_view(
            b.1@[i],
        ) by {
            assert(ref_ok(a.1@[i], source, path, rt[i]));
            assert(ref_ok(b.1@[i], source, path, rt[i]));
        }
        assert(a.0@.map_values(|d: SymbolDef| def_view(d)) =~= b.0@.map_values(
            |d: SymbolDef| def_view(d),
        ));
        assert(a.1@.map_values(|r: SymbolRef| ref_view(r)) =~= b.1@.map_values(
            |r: SymbolRef| ref_view(r),
        ));
    }
}

} // verus!
