use gitsense::index::model::SymbolKind;
use gitsense::index::parse::{assemble_symbols, BodyNode, ExtractError, RawTag, RustTagger};

/// Two functions, a call between them and a struct, on three lines.
const SNIPPET: &[u8] = b"pub fn alpha() { beta(); }\nfn beta() {}\nstruct Thing;\n";

#[test]
fn gate_test() {
    let mut tagger = RustTagger::new().expect("RustTagger::new failed");
    let (defs, refs) = tagger.extract(SNIPPET, "test.rs").expect("extract failed");

    let alpha = defs.iter().find(|d| d.name == "alpha").expect("def 'alpha' missing");
    assert!(matches!(alpha.kind, SymbolKind::Fn), "alpha: expected Fn, got {:?}", alpha.kind);
    assert!(alpha.is_pub, "alpha should be pub");
    assert_eq!(alpha.location.line, 1, "alpha on line 1");

    let beta_def = defs.iter().find(|d| d.name == "beta").expect("def 'beta' missing");
    assert!(matches!(beta_def.kind, SymbolKind::Fn), "beta: expected Fn, got {:?}", beta_def.kind);
    assert!(!beta_def.is_pub, "beta should not be pub");
    assert_eq!(beta_def.location.line, 2, "beta on line 2");

    let thing = defs.iter().find(|d| d.name == "Thing").expect("def 'Thing' missing");
    assert!(matches!(thing.kind, SymbolKind::Struct), "Thing: expected Struct, got {:?}", thing.kind);
    assert_eq!(thing.location.line, 3, "Thing on line 3");

    let beta_ref = refs.iter().find(|r| r.name == "beta");
    assert!(
        beta_ref.is_some(),
        "expected ≥1 ref named 'beta', got refs: {:?}",
        refs.iter().map(|r| &r.name).collect::<Vec<_>>()
    );
}

#[test]
fn single_line_fn_range_unchanged() {
    let mut tagger = RustTagger::new().expect("RustTagger::new failed");
    let (defs, _) = tagger.extract(SNIPPET, "test.rs").expect("extract failed");

    let alpha = defs.iter().find(|d| d.name == "alpha").unwrap();
    assert_eq!(
        alpha.line_range,
        (1, 1),
        "single-line fn should have line_range (1,1); got {:?}",
        alpha.line_range
    );
}

#[test]
fn multiline_fn_body_range() {
    let src = b"pub fn outer() {\n    helper();\n    helper();\n}\nfn helper() {}\n";
    let mut tagger = RustTagger::new().expect("RustTagger::new failed");
    let (defs, _) = tagger.extract(src, "multi.rs").expect("extract failed");

    let outer = defs.iter().find(|d| d.name == "outer").expect("def 'outer' missing");
    assert!(
        outer.line_range.1 > outer.line_range.0,
        "outer line_range should span multiple lines; got {:?}",
        outer.line_range
    );
    assert!(
        outer.line_range.1 - outer.line_range.0 >= 2,
        "outer spans at least 3 lines (diff ≥ 2); got {:?}",
        outer.line_range
    );
}

#[test]
fn method_and_path_call_refs() {
    let src = b"struct S;\nimpl S { fn m(&self) {} fn make() -> S { S } }\nfn driver() { let s = S::make(); s.m(); }\n";
    let mut tagger = RustTagger::new().expect("RustTagger::new failed");
    let (_, refs) = tagger.extract(src, "calls.rs").expect("extract failed");

    assert!(
        refs.iter().any(|r| r.name == "m"),
        "method call s.m() not captured; refs = {:?}",
        refs.iter().map(|r| &r.name).collect::<Vec<_>>()
    );
    assert!(
        refs.iter().any(|r| r.name == "make"),
        "path call S::make() not captured; refs = {:?}",
        refs.iter().map(|r| &r.name).collect::<Vec<_>>()
    );
}

#[test]
fn extract_reports_kinds_docs_and_macros() {
    let src = b"/// Adds.\npub(crate) fn add() {}\nenum E { A }\ntrait T {}\nmod m {}\nmacro_rules! mac { () => {} }\nfn user() { mac!(); }\n";
    let mut tagger = RustTagger::new().expect("RustTagger::new failed");
    let (defs, refs) = tagger.extract(src, "k.rs").expect("extract failed");
    let kinds: Vec<(&str, SymbolKind)> = defs.iter().map(|d| (d.name.as_str(), d.kind)).collect();
    assert_eq!(
        kinds,
        vec![
            ("add", SymbolKind::Fn),
            ("E", SymbolKind::Enum),
            ("T", SymbolKind::Trait),
            ("m", SymbolKind::Mod),
            ("mac", SymbolKind::Macro),
            ("user", SymbolKind::Fn),
        ]
    );
    let add = &defs[0];
    assert!(add.is_pub, "pub(crate) counts as pub");
    assert!(add.docs.is_none(), "the Rust tags query captures no docs");
    assert_eq!(add.location.file, "k.rs");
    assert!(refs.iter().any(|r| r.name == "mac" && r.location.line == 7));
}

fn raw_tag(name: (usize, usize), line: (usize, usize), row: usize, col: usize, def: bool, syntax: &str) -> RawTag {
    RawTag {
        name_start: name.0,
        name_end: name.1,
        line_start: line.0,
        line_end: line.1,
        row,
        col,
        is_definition: def,
        syntax_type: syntax.to_string(),
        docs: None,
    }
}

fn body_node(bytes: (usize, usize), rows: (usize, usize), kind: &str) -> BodyNode {
    BodyNode { start_byte: bytes.0, end_byte: bytes.1, start_row: rows.0, end_row: rows.1, kind: kind.to_string() }
}

#[test]
fn assemble_picks_the_smallest_enclosing_node() {
    // "impl S {\n    pub fn f() {}\n}\n": `f` at bytes 20..21.
    let src = b"impl S {\n    pub fn f() {}\n}\n";
    let tags = vec![raw_tag((20, 21), (13, 26), 1, 11, true, "method")];
    let nodes = vec![body_node((0, 28), (0, 2), "impl_item"), body_node((13, 26), (1, 1), "function_item")];
    let (defs, refs) = assemble_symbols(src, "s.rs", &tags, &nodes).expect("assemble failed");
    assert!(refs.is_empty());
    assert_eq!(defs.len(), 1);
    let f = &defs[0];
    assert_eq!(f.name, "f");
    assert_eq!(f.kind, SymbolKind::Method);
    assert_eq!(f.line_range, (2, 2));
    assert_eq!((f.location.line, f.location.col), (2, 12));
    assert!(f.is_pub);
}

#[test]
fn assemble_without_enclosing_node_uses_the_name_row() {
    let src = b"struct P;\n";
    let tags = vec![raw_tag((7, 8), (0, 9), 0, 7, true, "class")];
    let (defs, _) = assemble_symbols(src, "p.rs", &tags, &Vec::new()).expect("assemble failed");
    assert_eq!(defs[0].line_range, (1, 1));
    assert_eq!(defs[0].kind, SymbolKind::Struct);
    assert!(!defs[0].is_pub);
}

#[test]
fn assemble_refines_class_in_enum_item_and_maps_unknown_syntax() {
    let src = b"enum Q { A }\n";
    let tags = vec![
        raw_tag((5, 6), (0, 12), 0, 5, true, "class"),
        raw_tag((9, 10), (0, 12), 0, 9, true, "something_else"),
    ];
    let nodes = vec![body_node((0, 12), (0, 0), "enum_item")];
    let (defs, _) = assemble_symbols(src, "q.rs", &tags, &nodes).expect("assemble failed");
    assert_eq!(defs[0].kind, SymbolKind::Enum);
    assert_eq!(defs[1].kind, SymbolKind::Other);
}

#[test]
fn assemble_rejects_bad_tags() {
    let src = b"fn a() {}\n";
    let out_of_range = vec![raw_tag((3, 40), (0, 9), 0, 3, false, "call")];
    assert!(matches!(
        assemble_symbols(src, "a.rs", &out_of_range, &Vec::new()),
        Err(ExtractError::BadTag)
    ));
    let bytes: &[u8] = &[0xff, 0xfe, b'\n'];
    let not_utf8 = vec![raw_tag((0, 2), (0, 2), 0, 0, false, "call")];
    assert!(matches!(assemble_symbols(bytes, "b.rs", &not_utf8, &Vec::new()), Err(ExtractError::BadTag)));
}

#[test]
fn reused_tagger_extracts_like_a_fresh_one() {
    let mut reused = RustTagger::new().expect("RustTagger::new failed");
    let _ = reused.extract(b"fn other() { x(); }\nstruct S;\n", "other.rs");
    let _ = reused.extract(b"not rust at all {{{", "broken.rs");
    let (d1, r1) = reused.extract(SNIPPET, "test.rs").expect("extract failed");
    let mut fresh = RustTagger::new().expect("RustTagger::new failed");
    let (d2, r2) = fresh.extract(SNIPPET, "test.rs").expect("extract failed");
    assert_eq!(d1.len(), d2.len());
    for (a, b) in d1.iter().zip(d2.iter()) {
        assert_eq!(a.name, b.name);
        assert_eq!(a.kind, b.kind);
        assert_eq!(a.location.file, b.location.file);
        assert_eq!(a.location.line, b.location.line);
        assert_eq!(a.location.col, b.location.col);
        assert_eq!(a.line_range, b.line_range);
        assert_eq!(a.is_pub, b.is_pub);
        assert_eq!(a.docs, b.docs);
    }
    assert_eq!(r1.len(), r2.len());
    for (a, b) in r1.iter().zip(r2.iter()) {
        assert_eq!(a.name, b.name);
        assert_eq!(a.location.file, b.location.file);
        assert_eq!(a.location.line, b.location.line);
        assert_eq!(a.location.col, b.location.col);
    }
}
