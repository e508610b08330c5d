use gitsense::graph::{build, build_rooted_at, Direction};
use gitsense::index::SymbolIndex;

fn graph_fixture(root: &str, file: &str, text: &str) -> SymbolIndex {
    let sources = vec![(format!("{}/{}", root, file), text.as_bytes().to_vec())];
    SymbolIndex::build(root, &sources).expect("SymbolIndex::build failed")
}

const RECURSIVE: &str = "fn a() { b(); }\nfn b() { a(); }\nfn entry() { a(); }\n";

const DIAMOND: &str = "fn a() {\n    b();\n    c();\n}\n\nfn b() {\n    c();\n}\n\nfn c() {}\n";

const MULTILINE: &str = "pub fn outer() {\n    helper();\n    helper();\n}\nfn helper() {}\n";

/// The a↔b mutual recursion must terminate and report the cycle.
#[test]
fn cycle_safe_and_detected() {
    let idx = graph_fixture("fixtures/recursive", "recurse.rs", RECURSIVE);

    assert!(
        !idx.definitions("a").is_empty(),
        "fixture def 'a' missing — check tests/fixtures/recursive/recurse.rs"
    );
    assert!(!idx.definitions("b").is_empty(), "fixture def 'b' missing");

    let g = build(&idx, "a", 10, Direction::Both);

    assert_eq!(g.root, "a");
    assert!(
        !g.cycles_detected.is_empty(),
        "expected at least one cycle; cycles_detected = {:?}",
        g.cycles_detected
    );
    for cycle in &g.cycles_detected {
        assert!(
            cycle.len() >= 2 && cycle.first() == cycle.last(),
            "cycle path should start and end with the same name: {:?}",
            cycle
        );
    }
    let has_a_to_b = g.callees.iter().any(|e| e.from == "a" && e.to == "b");
    assert!(has_a_to_b, "expected callee edge a→b; callees = {:?}", g.callees);
}

#[test]
fn call_graph_cycle_safe() {
    let idx = graph_fixture("fixtures/recursive", "recurse.rs", RECURSIVE);

    let g = build(&idx, "a", 10, Direction::Both);

    assert_eq!(g.root, "a");
    assert!(
        !g.cycles_detected.is_empty(),
        "expected a↔b cycle; cycles_detected = {:?}",
        g.cycles_detected
    );
    for cycle in &g.cycles_detected {
        assert!(
            cycle.len() >= 2 && cycle.first() == cycle.last(),
            "cycle not closed: {:?}",
            cycle
        );
    }
    let edge = g.callees.iter().find(|e| e.from == "a" && e.to == "b");
    assert!(edge.is_some(), "callee edge a→b missing; callees = {:?}", g.callees);
    assert_eq!(edge.unwrap().depth, 1, "a→b should be at depth 1");
}

/// BFS must report the minimal hop count to a node reachable both directly
/// and via a longer path.
#[test]
fn call_graph_reports_minimal_depth() {
    let idx = graph_fixture("fixtures/diamond", "code.rs", DIAMOND);

    let g = build(&idx, "a", 3, Direction::Callees);

    let edges_to_c: Vec<_> = g.callees.iter().filter(|e| e.to == "c").collect();
    assert_eq!(
        edges_to_c.len(),
        1,
        "expected exactly one edge reaching 'c'; callees = {:?}",
        g.callees
    );
    assert_eq!(
        edges_to_c[0].depth, 1,
        "edge reaching 'c' should be the direct depth-1 edge, not the depth-2 path via 'b'; callees = {:?}",
        g.callees
    );
}

/// `line_range` spans the full body of a multi-line function, so its calls
/// are found.
#[test]
fn multiline_line_range_and_call_graph() {
    let idx = graph_fixture("fixtures/multiline", "code.rs", MULTILINE);

    let outer_defs = idx.definitions("outer");
    assert!(
        !outer_defs.is_empty(),
        "def 'outer' missing — check tests/fixtures/multiline/code.rs"
    );
    let outer = &outer_defs[0];
    assert!(
        outer.line_range.1 > outer.line_range.0,
        "outer's line_range must span multiple lines (start < end); got {:?}",
        outer.line_range
    );
    assert!(
        outer.line_range.1.saturating_sub(outer.line_range.0) >= 2,
        "outer spans at least 3 lines (end - start ≥ 2); got {:?}",
        outer.line_range
    );

    let g = build(&idx, "outer", 3, Direction::Callees);
    assert!(
        !g.callees.is_empty(),
        "call_graph(outer, Callees) must be non-empty after line_range fix; callees = {:?}",
        g.callees
    );
    let has_outer_to_helper = g.callees.iter().any(|e| e.from == "outer" && e.to == "helper");
    assert!(
        has_outer_to_helper,
        "expected callee edge outer→helper; callees = {:?}",
        g.callees
    );
}

#[test]
fn zero_hops_gives_only_the_root() {
    let idx = graph_fixture("fixtures/diamond", "code.rs", DIAMOND);
    let g = build(&idx, "a", 0, Direction::Both);
    assert_eq!(g.root, "a");
    assert!(g.callees.is_empty());
    assert!(g.callers.is_empty());
    assert!(g.cycles_detected.is_empty());
    assert!(!g.truncated);
}

#[test]
fn hop_budget_truncates_the_diamond() {
    let idx = graph_fixture("fixtures/diamond", "code.rs", DIAMOND);
    let g = build(&idx, "a", 1, Direction::Callees);
    let mut tos: Vec<(String, String, usize)> =
        g.callees.iter().map(|e| (e.from.clone(), e.to.clone(), e.depth)).collect();
    tos.sort();
    assert_eq!(
        tos,
        vec![
            ("a".to_string(), "b".to_string(), 1),
            ("a".to_string(), "c".to_string(), 1)
        ]
    );
    // b still calls c, unexpanded at the budget's edge.
    assert!(g.truncated);
    assert!(g.cycles_detected.is_empty());

    let full = build(&idx, "a", 3, Direction::Callees);
    assert!(!full.truncated);
}

#[test]
fn callers_walk_upwards() {
    let idx = graph_fixture("fixtures/diamond", "code.rs", DIAMOND);
    let g = build(&idx, "c", 5, Direction::Callers);
    assert!(g.callees.is_empty());
    let mut edges: Vec<(String, String, usize)> =
        g.callers.iter().map(|e| (e.from.clone(), e.to.clone(), e.depth)).collect();
    edges.sort();
    assert_eq!(
        edges,
        vec![
            ("c".to_string(), "a".to_string(), 1),
            ("c".to_string(), "b".to_string(), 1)
        ]
    );
    assert!(!g.truncated);
}

#[test]
fn unknown_root_gives_an_empty_graph() {
    let idx = graph_fixture("fixtures/diamond", "code.rs", DIAMOND);
    let g = build(&idx, "nowhere", 3, Direction::Both);
    assert_eq!(g.root, "nowhere");
    assert!(g.callees.is_empty() && g.callers.is_empty() && g.cycles_detected.is_empty());
    assert!(!g.truncated);
}

#[test]
fn cycles_are_reported_once_in_both_directions() {
    let idx = graph_fixture("fixtures/recursive", "recurse.rs", RECURSIVE);
    let g = build(&idx, "a", 10, Direction::Both);
    let mut sorted = g.cycles_detected.clone();
    sorted.sort();
    sorted.dedup();
    assert_eq!(sorted, g.cycles_detected, "cycles must come sorted and without repeats");
    assert!(g
        .cycles_detected
        .contains(&vec!["a".to_string(), "b".to_string(), "a".to_string()]));
}

#[test]
fn rooted_graph_uses_the_chosen_definition() {
    let src = "struct A;\nimpl A {\n    fn new() -> A {\n        helper_a();\n        A\n    }\n}\nstruct B;\nimpl B {\n    fn new() -> B {\n        helper_b();\n        B\n    }\n}\nfn helper_a() {}\nfn helper_b() {}\n";
    let idx = graph_fixture("fixtures/rooted", "code.rs", src);
    let news = idx.definitions("new");
    assert_eq!(news.len(), 2);
    let first = news[0];
    let g = build_rooted_at(&idx, first, 1, Direction::Callees);
    assert_eq!(g.root, "new");
    let tos: Vec<&str> = g.callees.iter().map(|e| e.to.as_str()).collect();
    assert_eq!(tos, vec!["helper_a"]);

    let by_name = build(&idx, "new", 1, Direction::Callees);
    let mut all: Vec<&str> = by_name.callees.iter().map(|e| e.to.as_str()).collect();
    all.sort();
    assert_eq!(all, vec!["helper_a", "helper_b"]);
}

#[test]
fn self_recursion_is_a_cycle_of_one_name() {
    let idx = graph_fixture("fixtures/self", "code.rs", "fn r() {\n    r();\n}\n");
    let g = build(&idx, "r", 1, Direction::Callees);
    assert_eq!(g.cycles_detected, vec![vec!["r".to_string(), "r".to_string()]]);
    assert!(g.callees.is_empty());
    assert!(!g.truncated);
}

#[test]
fn cross_edges_are_not_cycles() {
    // a→b, a→c, b→c: reaching c again from b is no cycle.
    let idx = graph_fixture("fixtures/diamond", "code.rs", DIAMOND);
    let g = build(&idx, "a", 3, Direction::Both);
    assert!(g.cycles_detected.is_empty(), "cycles = {:?}", g.cycles_detected);
}

#[test]
fn edges_come_in_breadth_first_order_from_the_first_parent() {
    let src = "fn a() {\n    c();\n    b();\n}\nfn b() {\n    d();\n}\nfn c() {\n    d();\n}\nfn d() {}\n";
    let idx = graph_fixture("fixtures/square", "code.rs", src);
    let g = build(&idx, "a", 5, Direction::Callees);
    let edges: Vec<(String, String, usize)> =
        g.callees.iter().map(|e| (e.from.clone(), e.to.clone(), e.depth)).collect();
    assert_eq!(
        edges,
        vec![
            ("a".to_string(), "b".to_string(), 1),
            ("a".to_string(), "c".to_string(), 1),
            ("b".to_string(), "d".to_string(), 2),
        ]
    );
}

/// `c` calls `n` exactly when `n` is among `c`'s callees and `c` among
/// `n`'s callers.
#[test]
fn callers_mirror_callees() {
    let idx = graph_fixture("fixtures/diamond", "diamond.rs", DIAMOND);
    for caller in ["a", "b", "c"] {
        for callee in ["a", "b", "c"] {
            let down = build(&idx, caller, 1, Direction::Callees);
            let up = build(&idx, callee, 1, Direction::Callers);
            let calls = down.callees.iter().any(|e| e.to == callee);
            let called_by = up.callers.iter().any(|e| e.to == caller);
            assert_eq!(calls, called_by, "{caller} -> {callee}");
        }
    }
    let a_down = build(&idx, "a", 1, Direction::Callees);
    assert!(a_down.callees.iter().any(|e| e.to == "b"));
    assert!(a_down.callees.iter().any(|e| e.to == "c"));
}

/// A build in both directions is the two one-way builds put together.
#[test]
fn both_directions_union_of_one_way_builds() {
    let idx = graph_fixture("fixtures/recursive", "recurse.rs", RECURSIVE);
    for hops in [0usize, 1, 2, 5] {
        let both = build(&idx, "a", hops, Direction::Both);
        let down = build(&idx, "a", hops, Direction::Callees);
        let up = build(&idx, "a", hops, Direction::Callers);
        let view = |es: &Vec<gitsense::graph::CallEdge>| -> Vec<(String, String, usize)> {
            es.iter().map(|e| (e.from.clone(), e.to.clone(), e.depth)).collect()
        };
        assert_eq!(view(&both.callees), view(&down.callees), "callees, {hops} hops");
        assert_eq!(view(&both.callers), view(&up.callers), "callers, {hops} hops");
        assert_eq!(both.truncated, down.truncated || up.truncated, "truncated, {hops} hops");
        let mut union: Vec<Vec<String>> = down.cycles_detected.clone();
        union.extend(up.cycles_detected.iter().cloned());
        union.sort();
        union.dedup();
        assert_eq!(both.cycles_detected, union, "cycles, {hops} hops");
        assert!(down.callers.is_empty() && up.callees.is_empty());
    }
}

/// A depth-1 edge leaves the root; a deeper edge leaves the target of an
/// earlier edge one level up.
#[test]
fn edges_hang_off_the_previous_level() {
    let idx = graph_fixture("fixtures/diamond", "diamond.rs", DIAMOND);
    let g = build(&idx, "a", 5, Direction::Callees);
    assert!(!g.callees.is_empty());
    for (k, e) in g.callees.iter().enumerate() {
        if e.depth == 1 {
            assert_eq!(e.from, "a");
        } else {
            assert!(g.callees[..k].iter().any(|p| p.to == e.from && p.depth + 1 == e.depth));
        }
    }
}
