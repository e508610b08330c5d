use gitsense::index::{SymbolIndex, SymbolResolution};
use gitsense::index::model::SymbolKind;
use gitsense::index::walk::{is_rust_file, keep_walk_entry};
use gitsense::index::parse::RustTagger;

fn index_of(root: &str, files: &[(&str, &str)]) -> SymbolIndex {
    let sources: Vec<(String, Vec<u8>)> = files
        .iter()
        .map(|(name, text)| (format!("{}/{}", root, name), text.as_bytes().to_vec()))
        .collect();
    SymbolIndex::build(root, &sources).expect("SymbolIndex::build failed")
}

/// A small multi-file crate standing in for a repository on disk.
fn sample_repo() -> SymbolIndex {
    index_of(
        "repo",
        &[
            (
                "src/index/mod.rs",
                "pub struct SymbolIndex;\nimpl SymbolIndex {\n    pub fn build() -> SymbolIndex {\n        collect();\n        SymbolIndex\n    }\n}\nfn collect() {}\n",
            ),
            ("src/main.rs", "mod index;\nfn main() {\n    run();\n}\nfn run() {}\n"),
            ("src/graph.rs", "pub fn build_graph() {}\npub enum Direction { Callees, Callers }\n"),
            ("src/index.rs", "pub const LIMIT: usize = 3;\nmacro_rules! noisy { () => {} }\n"),
        ],
    )
}

#[test]
fn build_indexes_own_repo() {
    let idx = sample_repo();
    let stats = idx.stats();

    assert!(stats.def_count > 0, "expected at least one def, got 0");
    assert!(stats.file_count >= 3, "expected >= 3 files parsed, got {}", stats.file_count);

    let build_hits = idx.search_symbols(Some("build"), None);
    assert!(
        build_hits.iter().any(|d| d.name == "build"),
        "expected a def named exactly 'build'; got: {:?}",
        build_hits.iter().map(|d| &d.name).collect::<Vec<_>>()
    );
}

#[test]
fn search_symbols_output_sorted_by_file_then_line() {
    let idx = sample_repo();

    let all = idx.search_symbols(None, None);
    assert!(
        all.len() > 1,
        "expected multiple defs in gitsense's own repo to meaningfully check ordering"
    );
    for pair in all.windows(2) {
        let (a, b) = (&pair[0], &pair[1]);
        let key_a = (std::path::Path::new(&a.location.file), a.location.line);
        let key_b = (std::path::Path::new(&b.location.file), b.location.line);
        assert!(
            key_a <= key_b,
            "search_symbols output not sorted: {}:{} came before {}:{}",
            a.location.file,
            a.location.line,
            b.location.file,
            b.location.line
        );
    }
}

#[test]
fn dead_code_finds_unreferenced_fn() {
    let idx = index_of(
        "fixtures/dead_code",
        &[(
            "ghost.rs",
            "// Fixture for the find_dead_code integration test.\n\nfn referenced() {\n    let _ = 42;\n}\n\nfn truly_dead() {\n    let _ = 0;\n}\n\nfn caller() {\n    referenced();\n}\n",
        )],
    );
    let dead = idx.unreferenced_defs();
    let dead_names: Vec<&str> = dead.iter().map(|d| d.name.as_str()).collect();

    assert!(
        dead_names.contains(&"truly_dead"),
        "expected 'truly_dead' in unreferenced_defs; got: {:?}",
        dead_names
    );
    assert!(
        !dead_names.contains(&"referenced"),
        "'referenced' must not appear in unreferenced_defs (it is called by 'caller'); got: {:?}",
        dead_names
    );
}

#[test]
fn indented_pub_detected_despite_leading_whitespace() {
    let idx = index_of(
        "fixtures/indented_pub",
        &[("code.rs", "struct S;\nimpl S {\n    pub fn visible(&self) {}\n    fn hidden(&self) {}\n}\n")],
    );

    let visible_defs = idx.definitions("visible");
    assert!(
        !visible_defs.is_empty(),
        "def 'visible' missing — check tests/fixtures/indented_pub/code.rs"
    );
    assert!(
        visible_defs[0].is_pub,
        "indented 'pub fn visible' must be detected as pub; got is_pub = false"
    );

    let hidden_defs = idx.definitions("hidden");
    assert!(
        !hidden_defs.is_empty(),
        "def 'hidden' missing — check tests/fixtures/indented_pub/code.rs"
    );
    assert!(
        !hidden_defs[0].is_pub,
        "indented non-pub 'fn hidden' must not be flagged pub; got is_pub = true"
    );
}

#[test]
fn method_and_path_call_refs_captured() {
    let idx = index_of(
        "fixtures/method_calls",
        &[(
            "code.rs",
            "struct S;\nimpl S {\n    fn m(&self) {}\n    fn make() -> S {\n        S\n    }\n}\nfn driver() {\n    let s = S::make();\n    s.m();\n}\n",
        )],
    );

    let m_refs = idx.find_references("m");
    assert!(
        !m_refs.is_empty(),
        "find_references('m') must be non-empty (the s.m() call is not captured); refs: {:?}",
        idx.find_references("m")
    );
    let make_refs = idx.find_references("make");
    assert!(
        !make_refs.is_empty(),
        "find_references('make') must be non-empty (the S::make() call is not captured); refs: {:?}",
        idx.find_references("make")
    );

    let dead_names: Vec<&str> = idx.unreferenced_defs().iter().map(|d| d.name.as_str()).collect();
    assert!(
        !dead_names.contains(&"m"),
        "'m' must not appear in unreferenced_defs after Fix #2; dead = {:?}",
        dead_names
    );
    assert!(
        !dead_names.contains(&"make"),
        "'make' must not appear in unreferenced_defs after Fix #2; dead = {:?}",
        dead_names
    );
}

const COLLISION: &str = "// Fixture: two methods named `new` in different impl blocks.\n\nstruct Alpha {\n    n: u32,\n}\n\nimpl Alpha {\n    fn new() -> Alpha {\n        Alpha { n: 1 }\n    }\n}\n\nstruct Beta {\n    n: u32,\n}\n\nimpl Beta {\n    fn new() -> Beta {\n        Beta { n: 2 }\n    }\n}\n";

#[test]
fn resolve_symbol_disambiguates_name_collision() {
    let idx = index_of("fixtures/collision", &[("code.rs", COLLISION)]);

    let news = idx.definitions("new");
    assert_eq!(news.len(), 2, "expected 2 defs named 'new'; got {:?}", news);

    match idx.resolve_symbol("new", None, None) {
        SymbolResolution::Ambiguous(candidates) => {
            assert_eq!(candidates.len(), 2, "expected 2 candidates; got {:?}", candidates);
        }
        other => panic!("expected Ambiguous, got {:?}", other),
    }

    let target = &news[0];
    let file_str = target.location.file.clone();
    let line = target.location.line;

    match idx.resolve_symbol("new", Some(&file_str), Some(line)) {
        SymbolResolution::Resolved(def) => {
            assert_eq!(def.location.file, target.location.file);
            assert_eq!(def.location.line, target.location.line);
        }
        other => panic!("expected Resolved, got {:?}", other),
    }

    match idx.resolve_symbol("new", Some(&file_str), None) {
        SymbolResolution::Ambiguous(candidates) => {
            assert_eq!(
                candidates.len(),
                2,
                "file alone matches both same-file defs; expected 2 candidates, got {:?}",
                candidates
            );
        }
        other => panic!(
            "expected Ambiguous when file alone doesn't narrow to one def, got {:?}",
            other
        ),
    }

    match idx.resolve_symbol("no_such_symbol_xyz", None, None) {
        SymbolResolution::NotFound => {}
        other => panic!("expected NotFound, got {:?}", other),
    }

    match idx.resolve_symbol("Alpha", None, None) {
        SymbolResolution::Resolved(def) => assert_eq!(def.name, "Alpha"),
        other => panic!("expected Resolved for unique name 'Alpha', got {:?}", other),
    }
}

#[test]
fn resolve_symbol_by_file_suffix_and_unmatched_disambiguator() {
    let idx = index_of(
        "repo",
        &[
            ("src/a.rs", "fn new() {}\n"),
            ("src/b.rs", "fn new() {}\n"),
        ],
    );
    match idx.resolve_symbol("new", Some("b.rs"), None) {
        SymbolResolution::Resolved(def) => assert_eq!(def.location.file, "repo/src/b.rs"),
        other => panic!("expected Resolved, got {:?}", other),
    }
    // A file that matches neither candidate keeps all of them.
    match idx.resolve_symbol("new", Some("c.rs"), None) {
        SymbolResolution::Ambiguous(c) => assert_eq!(c.len(), 2),
        other => panic!("expected Ambiguous, got {:?}", other),
    }
    // `line` alone does not narrow.
    match idx.resolve_symbol("new", None, Some(1)) {
        SymbolResolution::Ambiguous(c) => assert_eq!(c.len(), 2),
        other => panic!("expected Ambiguous, got {:?}", other),
    }
}

#[test]
fn enum_struct_trait_kinds_are_distinct_and_filterable() {
    let idx = index_of(
        "fixtures/kinds",
        &[(
            "code.rs",
            "// Fixture: struct/enum/trait must be distinguished.\n\nstruct Widget {\n    id: u32,\n}\n\nenum Shape {\n    Circle,\n    Square,\n}\n\ntrait Drawable {\n    fn draw(&self);\n}\n",
        )],
    );

    let widget = idx
        .search_symbols(Some("Widget"), None)
        .into_iter()
        .find(|d| d.name == "Widget")
        .expect("def 'Widget' missing");
    assert_eq!(widget.kind, SymbolKind::Struct, "Widget should be Struct, got {:?}", widget.kind);

    let shape = idx
        .search_symbols(Some("Shape"), None)
        .into_iter()
        .find(|d| d.name == "Shape")
        .expect("def 'Shape' missing");
    assert_eq!(shape.kind, SymbolKind::Enum, "Shape should be Enum, got {:?}", shape.kind);

    let drawable = idx
        .search_symbols(Some("Drawable"), None)
        .into_iter()
        .find(|d| d.name == "Drawable")
        .expect("def 'Drawable' missing");
    assert_eq!(drawable.kind, SymbolKind::Trait, "Drawable should be Trait, got {:?}", drawable.kind);

    let enum_only = idx.search_symbols(None, Some(SymbolKind::Enum));
    assert!(
        enum_only.iter().any(|d| d.name == "Shape"),
        "search_symbols(kind=Enum) must return 'Shape'; got {:?}",
        enum_only.iter().map(|d| &d.name).collect::<Vec<_>>()
    );
    assert!(
        !enum_only.iter().any(|d| d.name == "Widget"),
        "search_symbols(kind=Enum) must NOT return the struct 'Widget'; got {:?}",
        enum_only.iter().map(|d| &d.name).collect::<Vec<_>>()
    );

    let struct_only = idx.search_symbols(None, Some(SymbolKind::Struct));
    assert!(struct_only.iter().any(|d| d.name == "Widget"));
    assert!(!struct_only.iter().any(|d| d.name == "Shape"));
}

#[test]
fn search_is_case_insensitive_and_anded_with_kind() {
    let idx = sample_repo();
    let hits: Vec<&str> = idx.search_symbols(Some("BUILD"), None).iter().map(|d| d.name.as_str()).collect();
    assert_eq!(hits, vec!["build_graph", "build"]);
    let fns: Vec<&str> = idx
        .search_symbols(Some("build"), Some(SymbolKind::Fn))
        .iter()
        .map(|d| d.name.as_str())
        .collect();
    assert_eq!(fns, vec!["build_graph"]);
    assert!(idx.search_symbols(Some("zzz"), None).is_empty());
}

#[test]
fn files_are_ordered_by_path_components() {
    let idx = sample_repo();
    let files: Vec<&str> = idx
        .search_symbols(None, None)
        .iter()
        .map(|d| d.location.file.as_str())
        .collect();
    let first_nested = files.iter().position(|f| *f == "repo/src/index/mod.rs").unwrap();
    let flat = files.iter().position(|f| *f == "repo/src/index.rs").unwrap();
    assert!(first_nested < flat, "src/index/mod.rs sorts before src/index.rs: {:?}", files);
}

#[test]
fn stats_count_kinds_and_modules() {
    let idx = sample_repo();
    let stats = idx.stats();
    assert_eq!(stats.file_count, 4);
    assert_eq!(stats.def_count, idx.search_symbols(None, None).len());
    // `impl SymbolIndex` is a reference too.
    assert_eq!(stats.ref_count, 3);
    for pair in stats.by_kind.windows(2) {
        assert!(pair[0].1 >= pair[1].1, "by_kind must be sorted by count: {:?}", stats.by_kind);
    }
    let total: usize = stats.by_kind.iter().map(|(_, n)| *n).sum();
    assert_eq!(total, stats.def_count);
    assert_eq!(stats.modules, vec!["index".to_string()]);
}

#[test]
fn stats_fall_back_to_sorted_file_stems() {
    let idx = index_of(
        "repo",
        &[("src/zeta.rs", "fn z() {}\n"), ("src/alpha.rs", "fn a() {}\n"), ("lib/alpha.rs", "fn b() {}\n")],
    );
    let stats = idx.stats();
    assert_eq!(stats.modules, vec!["alpha".to_string(), "zeta".to_string()]);
    assert_eq!(stats.by_kind, vec![("Fn".to_string(), 3)]);
}

#[test]
fn file_tags_and_file_paths() {
    let idx = sample_repo();
    let tags = idx.file_tags("repo/src/main.rs").expect("main.rs tags");
    let names: Vec<&str> = tags.defs.iter().map(|d| d.name.as_str()).collect();
    assert_eq!(names, vec!["index", "main", "run"]);
    assert_eq!(tags.refs.len(), 1);
    assert_eq!(tags.refs[0].name, "run");
    assert!(idx.file_tags("repo/src/missing.rs").is_none());
    assert_eq!(idx.file_paths().len(), 4);
    assert_eq!(idx.repo_root(), "repo");
}

#[test]
fn locations_are_one_based() {
    let idx = index_of("r", &[("x.rs", "fn a() {}\n  fn b() {}\n")]);
    let b = idx.definitions("b")[0];
    assert_eq!(b.location.line, 2);
    assert_eq!(b.location.col, 6);
    assert_eq!(b.line_range, (2, 2));
    assert_eq!(b.location.file, "r/x.rs");
}

#[test]
fn definitions_of_absent_name_is_empty() {
    let idx = sample_repo();
    assert!(idx.definitions("absent").is_empty());
    assert!(idx.find_references("absent").is_empty());
}

#[test]
fn walk_skips_hidden_and_target_but_never_the_root() {
    assert!(keep_walk_entry(".", true, 0));
    assert!(keep_walk_entry(".hidden_root", true, 0));
    assert!(!keep_walk_entry(".git", true, 1));
    assert!(!keep_walk_entry(".cache", true, 3));
    assert!(!keep_walk_entry("target", true, 2));
    assert!(keep_walk_entry("targets", true, 1));
    assert!(keep_walk_entry("src", true, 1));
    assert!(keep_walk_entry(".hidden.rs", false, 2));
    assert!(keep_walk_entry("target", false, 1));
}

#[test]
fn kind_counts_add_up_to_the_definitions() {
    let idx = sample_repo();
    let st = idx.stats();
    let total: usize = st.by_kind.iter().map(|(_, c)| *c).sum();
    assert_eq!(total, st.def_count);
    assert!(st.def_count > 0);
}

#[test]
fn reference_count_is_the_sum_over_files() {
    let idx = sample_repo();
    let st = idx.stats();
    let per_file: usize = idx
        .file_paths()
        .iter()
        .map(|p| idx.file_tags(p).expect("listed file has tags").refs.len())
        .sum();
    assert_eq!(per_file, st.ref_count);
    assert_eq!(idx.file_paths().len(), st.file_count);
    for p in idx.file_paths() {
        let in_file = idx.file_tags(p).unwrap().refs.iter().filter(|r| r.name == "collect").count();
        let found = idx.find_references("collect").iter().filter(|r| r.location.file == *p).count();
        assert_eq!(in_file, found, "references to collect in {p}");
    }
}

#[test]
fn unreferenced_defs_are_those_without_references() {
    let idx = sample_repo();
    let dead: Vec<(String, usize)> = idx
        .unreferenced_defs()
        .iter()
        .map(|d| (d.location.file.clone(), d.location.line))
        .collect();
    let expected: Vec<(String, usize)> = idx
        .search_symbols(None, None)
        .iter()
        .filter(|d| idx.find_references(&d.name).is_empty())
        .map(|d| (d.location.file.clone(), d.location.line))
        .collect();
    assert_eq!(dead, expected);
    assert!(!dead.is_empty());
}

#[test]
fn indexed_tags_are_what_extraction_gives() {
    use_tagger_check("repo/src/main.rs", "mod index;\nfn main() {\n    run();\n}\nfn run() {}\n");
    use_tagger_check("repo/src/graph.rs", "pub fn build_graph() {}\npub enum Direction { Callees, Callers }\n");
}

fn use_tagger_check(path: &str, text: &str) {
    let idx = sample_repo();
    let mut tagger = RustTagger::new().expect("RustTagger::new failed");
    let (defs, refs) = tagger.extract(text.as_bytes(), path).expect("extract failed");
    let tags = idx.file_tags(path).expect("indexed file");
    assert_eq!(tags.defs.len(), defs.len());
    for (a, b) in tags.defs.iter().zip(defs.iter()) {
        assert_eq!((&a.name, a.kind, a.location.line, a.line_range), (&b.name, b.kind, b.location.line, b.line_range));
        assert!(b.line_range.0 <= b.location.line && b.location.line <= b.line_range.1);
    }
    assert_eq!(tags.refs.len(), refs.len());
    for (a, b) in tags.refs.iter().zip(refs.iter()) {
        assert_eq!((&a.name, a.location.line, a.location.col), (&b.name, b.location.line, b.location.col));
    }
    assert!(idx.file_tags("repo/src/absent.rs").is_none());
}

#[test]
fn definitions_filed_under_a_path_are_that_files_tags() {
    let idx = sample_repo();
    for p in idx.file_paths() {
        let mut filed: Vec<(String, usize)> = idx
            .search_symbols(None, None)
            .iter()
            .filter(|d| d.location.file == *p)
            .map(|d| (d.name.clone(), d.location.line))
            .collect();
        let mut own: Vec<(String, usize)> =
            idx.file_tags(p).unwrap().defs.iter().map(|d| (d.name.clone(), d.location.line)).collect();
        filed.sort();
        own.sort();
        assert_eq!(filed, own, "definitions of {p}");
    }
}

#[test]
fn rust_files_are_named_by_their_rs_extension() {
    assert!(is_rust_file("lib.rs"));
    assert!(is_rust_file("a.b.rs"));
    assert!(is_rust_file("..rs"));
    assert!(!is_rust_file(".rs"));
    assert!(!is_rust_file("lib.RS"));
    assert!(!is_rust_file("lib.rsx"));
    assert!(!is_rust_file("rs"));
}
