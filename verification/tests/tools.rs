use std::sync::Arc;

use gitsense::graph::Direction;
use gitsense::index::{RepoStats, SymbolIndex};
use gitsense::index::model::SymbolKind;
use gitsense::tools::params::{BlameSymbolParams, CallGraphParams, SearchSymbolsParams};
use gitsense::tools::{
    blame_items, blame_plan, call_graph_answer, candidates_of, dead_code_candidates, dead_code_limit,
    days_between, parse_direction, parse_kind, rank_dead_code, repo_overview, search_symbols_tool,
    AppState, BlamePlan, CallGraphAnswer, GitSenseServer, SymbolCandidate, HOTTEST_FILES,
    MAX_DEAD_CODE_LIMIT, MAX_HOPS,
};

fn tools_index() -> SymbolIndex {
    let files = [
        (
            "/srv/repo/src/lib.rs",
            "pub fn used() {}\nfn dead_one() {\n    used();\n}\npub fn dead_pub() {}\n",
        ),
        (
            "/srv/repo/src/other.rs",
            "struct Alpha;\nimpl Alpha {\n    fn new() -> Alpha {\n        Alpha\n    }\n}\nstruct Beta;\nimpl Beta {\n    fn new() -> Beta {\n        Beta\n    }\n}\nfn old_helper() {}\n",
        ),
    ];
    let sources: Vec<(String, Vec<u8>)> =
        files.iter().map(|(p, t)| (p.to_string(), t.as_bytes().to_vec())).collect();
    SymbolIndex::build("/srv/repo", &sources).expect("SymbolIndex::build failed")
}

#[test]
fn parse_kind_drops_unproducible_kinds() {
    assert_eq!(parse_kind("enum"), Some(SymbolKind::Enum));
    assert_eq!(parse_kind("struct"), Some(SymbolKind::Struct));
    assert_eq!(parse_kind("trait"), Some(SymbolKind::Trait));
    assert_eq!(
        parse_kind("impl"),
        None,
        "'impl' must be unaccepted — impl_item is never a definition tag"
    );
    assert_eq!(
        parse_kind("const"),
        None,
        "'const' must be unaccepted — const_item is never a definition tag"
    );
}

#[test]
fn parse_kind_ignores_case() {
    assert_eq!(parse_kind("FN"), Some(SymbolKind::Fn));
    assert_eq!(parse_kind("Method"), Some(SymbolKind::Method));
    assert_eq!(parse_kind("MoD"), Some(SymbolKind::Mod));
    assert_eq!(parse_kind("macro"), Some(SymbolKind::Macro));
    assert_eq!(parse_kind("other"), Some(SymbolKind::Other));
    assert_eq!(parse_kind("function"), None);
    assert_eq!(parse_kind(""), None);
}

#[test]
fn parse_direction_defaults_to_both() {
    assert_eq!(parse_direction("callees"), Direction::Callees);
    assert_eq!(parse_direction("CALLERS"), Direction::Callers);
    assert_eq!(parse_direction("both"), Direction::Both);
    assert_eq!(parse_direction("sideways"), Direction::Both);
}

#[test]
fn dead_code_limit_defaults_and_caps() {
    assert_eq!(dead_code_limit(None), 50);
    assert_eq!(dead_code_limit(Some(7)), 7);
    assert_eq!(dead_code_limit(Some(10_000)), MAX_DEAD_CODE_LIMIT);
    assert_eq!(dead_code_limit(Some(200)), 200);
}

#[test]
fn days_between_truncates_toward_zero() {
    assert_eq!(days_between(86400 * 3 + 5, 0), 3);
    assert_eq!(days_between(0, 86400 * 2 - 1), -1);
    assert_eq!(days_between(100, 100), 0);
    assert_eq!(days_between(i64::MAX, i64::MIN), ((i64::MAX as i128 - i64::MIN as i128) / 86400) as i64);
}

#[test]
fn dead_code_candidates_skip_referenced_and_pub() {
    let idx = tools_index();
    let names = |v: &Vec<&gitsense::index::model::SymbolDef>| -> Vec<String> { v.iter().map(|d| d.name.clone()).collect() };
    // `impl Alpha` and `impl Beta` reference the two structs.
    let private = dead_code_candidates(&idx, false, 50);
    assert_eq!(names(&private), vec!["dead_one", "new", "new", "old_helper"]);
    let with_pub = dead_code_candidates(&idx, true, 50);
    assert_eq!(names(&with_pub), vec!["dead_one", "dead_pub", "new", "new", "old_helper"]);
    // Four candidates per requested result.
    let one = dead_code_candidates(&idx, true, 1);
    assert_eq!(names(&one), vec!["dead_one", "dead_pub", "new", "new"]);
}

#[test]
fn rank_dead_code_orders_private_oldest_first() {
    let idx = tools_index();
    let cands = dead_code_candidates(&idx, true, 50);
    // dead_one, dead_pub, new (line 3), new (line 9), old_helper
    let day = 86400i64;
    let now = 1000 * day;
    let ts = vec![None, Some(now - 500 * day), Some(now - 30 * day), Some(now - 30 * day), Some(now - 900 * day)];
    let ranked = rank_dead_code(&idx, &cands, &ts, now, 50);
    let order: Vec<(String, usize, bool, Option<i64>)> =
        ranked.iter().map(|e| (e.name.clone(), e.line, e.is_pub, e.days_since_last_touch)).collect();
    assert_eq!(
        order,
        vec![
            ("old_helper".to_string(), 13, false, Some(900)),
            ("new".to_string(), 3, false, Some(30)),
            ("new".to_string(), 9, false, Some(30)),
            ("dead_one".to_string(), 2, false, None),
            ("dead_pub".to_string(), 5, true, Some(500)),
        ]
    );
    assert_eq!(ranked[0].file, "src/other.rs");
    assert_eq!(ranked[0].kind, "Fn");

    let top = rank_dead_code(&idx, &cands, &ts, now, 2);
    assert_eq!(top.len(), 2);
    assert_eq!(top[0].name, "old_helper");

    // Timestamps shorter than candidates: only the paired ones count.
    let short = rank_dead_code(&idx, &cands, &vec![None, Some(now)], now, 50);
    assert_eq!(short.len(), 2);
    assert_eq!(short[0].name, "dead_one");
    assert_eq!(short[1].days_since_last_touch, Some(0));
}

#[test]
fn blame_items_are_repo_relative() {
    let idx = tools_index();
    let cands = dead_code_candidates(&idx, false, 1);
    let items = blame_items(&idx, &cands);
    assert_eq!(items[0], ("src/lib.rs".to_string(), (2, 4)));
    assert_eq!(items.len(), cands.len());
}

#[test]
fn blame_plan_follows_resolution() {
    let idx = tools_index();
    let plan = blame_plan(&idx, &BlameSymbolParams { name: "dead_one".to_string(), file: None, line: None });
    match plan {
        BlamePlan::Blame { def, file_rel, start, end } => {
            assert_eq!(def.name, "dead_one");
            assert_eq!(file_rel, "src/lib.rs");
            assert_eq!((start, end), (2, 4));
        }
        _ => panic!("expected a blame"),
    }
    let missing = blame_plan(&idx, &BlameSymbolParams { name: "ghost".to_string(), file: None, line: None });
    match missing {
        BlamePlan::NotFound(m) => assert_eq!(m, "no symbol named 'ghost' found in the index"),
        _ => panic!("expected NotFound"),
    }
    let ambiguous = blame_plan(&idx, &BlameSymbolParams { name: "new".to_string(), file: None, line: None });
    match ambiguous {
        BlamePlan::Ambiguous(c) => {
            let cands = candidates_of(&idx, &c);
            assert_eq!(cands.len(), 2);
            assert_eq!(cands[0].file, "src/other.rs");
            assert_eq!(cands[0].kind, "Method");
            assert_eq!(cands[0].line, 3);
            assert_eq!(cands[1].line, 9);
        }
        _ => panic!("expected Ambiguous"),
    }
    let picked = blame_plan(
        &idx,
        &BlameSymbolParams { name: "new".to_string(), file: Some("other.rs".to_string()), line: Some(10) },
    );
    match picked {
        BlamePlan::Blame { start, end, .. } => assert_eq!((start, end), (9, 11)),
        _ => panic!("expected a blame"),
    }
}

#[test]
fn call_graph_answer_caps_hops_and_lists_candidates() {
    let idx = tools_index();
    let p = CallGraphParams {
        name: "dead_one".to_string(),
        max_hops: Some(1000),
        direction: Some("Callees".to_string()),
        file: None,
        line: None,
    };
    match call_graph_answer(&idx, &p) {
        CallGraphAnswer::Graph(g) => {
            assert_eq!(g.root, "dead_one");
            assert_eq!(g.callees.len(), 1);
            assert_eq!(g.callees[0].to, "used");
            assert!(g.callers.is_empty());
        }
        CallGraphAnswer::Ambiguous(_) => panic!("expected a graph"),
    }
    assert_eq!(MAX_HOPS, 32);
    let amb = CallGraphParams { name: "new".to_string(), max_hops: None, direction: None, file: None, line: None };
    match call_graph_answer(&idx, &amb) {
        CallGraphAnswer::Ambiguous(c) => assert_eq!(c.len(), 2),
        CallGraphAnswer::Graph(_) => panic!("expected candidates"),
    }
    let unknown = CallGraphParams { name: "zzz".to_string(), max_hops: None, direction: None, file: None, line: None };
    match call_graph_answer(&idx, &unknown) {
        CallGraphAnswer::Graph(g) => {
            assert_eq!(g.root, "zzz");
            assert!(g.callees.is_empty() && g.callers.is_empty());
        }
        CallGraphAnswer::Ambiguous(_) => panic!("expected a graph"),
    }
}

#[test]
fn search_symbols_tool_parses_its_kind() {
    let idx = tools_index();
    let p = SearchSymbolsParams { name: Some("DEAD".to_string()), kind: Some("Fn".to_string()) };
    let names: Vec<&str> = search_symbols_tool(&idx, &p).iter().map(|d| d.name.as_str()).collect();
    assert_eq!(names, vec!["dead_one", "dead_pub"]);
    // An unrecognised kind filters nothing.
    let q = SearchSymbolsParams { name: None, kind: Some("impl".to_string()) };
    assert_eq!(search_symbols_tool(&idx, &q).len(), idx.search_symbols(None, None).len());
}

#[test]
fn candidate_from_def_strips_the_root() {
    let idx = tools_index();
    let d = idx.definitions("old_helper")[0];
    let c = SymbolCandidate::from_def(&idx, d);
    assert_eq!(c.name, "old_helper");
    assert_eq!(c.kind, "Fn");
    assert_eq!(c.file, "src/other.rs");
    assert_eq!(c.line, 13);
}

#[test]
fn overview_keeps_the_twenty_hottest() {
    let stats = RepoStats {
        file_count: 30,
        def_count: 5,
        ref_count: 2,
        by_kind: vec![("Fn".to_string(), 5)],
        modules: vec!["m".to_string()],
    };
    let churn: Vec<(String, usize)> = (0..30).map(|i| (format!("/srv/repo/src/f{}.rs", i), 100 - i)).collect();
    let o = repo_overview(stats, churn, "/srv/repo");
    assert_eq!(o.hottest_files.len(), HOTTEST_FILES);
    assert_eq!(o.hottest_files[0], ("src/f0.rs".to_string(), 100));
    assert_eq!(o.hottest_files[19], ("src/f19.rs".to_string(), 81));
    assert_eq!((o.file_count, o.def_count, o.ref_count), (30, 5, 2));
    assert_eq!(o.by_kind, vec![("Fn".to_string(), 5)]);
    assert_eq!(o.modules, vec!["m".to_string()]);

    let few = repo_overview(
        RepoStats { file_count: 0, def_count: 0, ref_count: 0, by_kind: vec![], modules: vec![] },
        vec![("a.rs".to_string(), 1)],
        "/elsewhere",
    );
    assert_eq!(few.hottest_files, vec![("a.rs".to_string(), 1)]);
}

#[test]
fn server_holds_its_state() {
    let idx = tools_index();
    let state = Arc::new(AppState { index: Arc::new(idx), repo_root: "/srv/repo".to_string() });
    let server = GitSenseServer::new(state.clone());
    assert!(Arc::ptr_eq(server.state(), &state));
    assert_eq!(server.state().repo_root, "/srv/repo");
}

/// Kind and direction arguments are matched whatever their case.
#[test]
fn kind_and_direction_ignore_ascii_case() {
    assert_eq!(parse_kind("FN"), parse_kind("fn"));
    assert_eq!(parse_kind("Struct"), Some(SymbolKind::Struct));
    assert!(matches!(parse_direction("CALLERS"), gitsense::graph::Direction::Callers));
}
