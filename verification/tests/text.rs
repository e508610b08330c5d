use gitsense::text::{
    contains_ignoring_case, ends_with_component, file_stem, path_less, relative_to, sort_dedup, str_less,
};

#[test]
fn case_folding_substring_search() {
    assert!(contains_ignoring_case("SymbolIndex", "index"));
    assert!(contains_ignoring_case("build", ""));
    assert!(!contains_ignoring_case("build", "built"));
    assert!(contains_ignoring_case("XÄbCx", "äBc"));
}

#[test]
fn file_stems_follow_path_rules() {
    assert_eq!(file_stem("src/index/mod.rs"), Some("mod".to_string()));
    assert_eq!(file_stem("a/b.tar.gz"), Some("b.tar".to_string()));
    assert_eq!(file_stem("a/.hidden"), Some(".hidden".to_string()));
    assert_eq!(file_stem("noext"), Some("noext".to_string()));
    assert_eq!(file_stem("a/"), None);
    assert_eq!(file_stem(".."), None);
}

#[test]
fn relative_paths_strip_whole_components() {
    assert_eq!(relative_to("/srv/repo/src/a.rs", "/srv/repo"), "src/a.rs");
    assert_eq!(relative_to("/srv/repo/src/a.rs", "/srv/repo/"), "src/a.rs");
    assert_eq!(relative_to("/srv/repository/a.rs", "/srv/repo"), "/srv/repository/a.rs");
    assert_eq!(relative_to("src/a.rs", ""), "src/a.rs");
    assert_eq!(relative_to("/srv/repo", "/srv/repo"), "");
}

#[test]
fn component_suffix_match() {
    assert!(ends_with_component("repo/src/foo.rs", "src/foo.rs"));
    assert!(ends_with_component("repo/src/foo.rs", "foo.rs"));
    assert!(!ends_with_component("repo/src/barfoo.rs", "foo.rs"));
    assert!(ends_with_component("foo.rs", "foo.rs"));
    assert!(ends_with_component("anything", ""));
}

#[test]
fn path_order_matches_component_order() {
    let pairs = [("a/b.rs", "a.rs"), ("src/index/mod.rs", "src/index.rs"), ("a-b", "a/b"), ("a", "a/b")];
    for (x, y) in pairs {
        let by_path = std::path::Path::new(x) < std::path::Path::new(y);
        assert_eq!(path_less(x, y), by_path, "{} vs {}", x, y);
        assert_eq!(path_less(y, x), !by_path && x != y, "{} vs {}", y, x);
    }
    assert!(!path_less("same", "same"));
}

#[test]
fn sorted_names_without_repeats() {
    let v = vec!["b".to_string(), "a".to_string(), "b".to_string(), "C".to_string()];
    assert_eq!(sort_dedup(v), vec!["C".to_string(), "a".to_string(), "b".to_string()]);
    assert!(str_less("ab", "b"));
    assert!(!str_less("b", "ab"));
}

#[test]
fn relative_paths_follow_path_components() {
    assert_eq!(relative_to("/a", "/a/"), "");
    assert_eq!(relative_to("/a//b", "/a"), "b");
    assert_eq!(relative_to("/a/./b", "/a"), "b");
    assert_eq!(relative_to("./a/b", "."), "a/b");
    assert_eq!(relative_to("a/b", "/a"), "a/b");
    let cases = [
        ("/srv/repo/src/a.rs", "/srv/repo"),
        ("/srv/repo/src/a.rs", "/srv/repo/"),
        ("/srv/repository/a.rs", "/srv/repo"),
        ("/a", "/a/"),
        ("/a//b", "/a"),
        ("/a/./b", "/a"),
        ("src/a.rs", "src"),
        ("src/a.rs", "/src"),
        ("/x/y", "/x/y/z"),
    ];
    for (p, root) in cases {
        let expected = std::path::Path::new(p)
            .strip_prefix(root)
            .map(|r| r.to_string_lossy().into_owned())
            .unwrap_or_else(|_| p.to_string());
        assert_eq!(relative_to(p, root), expected, "{} under {}", p, root);
    }
}
