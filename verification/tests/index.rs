use astrolabe_core::graph::CodeGraph;
use astrolabe_core::index::{
    configured_languages, digest, gather, index_repo, looks_internal, merge_edges, short_callee,
    store_path, Call, Import, IndexOptions, Outcome, ParsedSource, MAX_SYNTACTIC_CALL_TARGETS,
};
use astrolabe_core::types::{
    CodeEdge, CodeSymbol, Confidence, EdgeKind, FileId, Language, RelPath, SymbolId, SymbolKind,
};
use std::collections::HashSet;

fn function(name: &str, start_line: u32, end_line: u32) -> CodeSymbol {
    CodeSymbol {
        id: SymbolId(0),
        file: FileId(0),
        name: name.into(),
        kind: SymbolKind::Function,
        signature: format!("func {name}()"),
        start_line,
        end_line,
        exported: true,
    }
}

fn import(spec: &str, target: Option<&str>) -> Import {
    Import {
        spec: spec.into(),
        target: target.map(RelPath::new),
    }
}

fn call(callee: &str, line: u32) -> Call {
    Call {
        callee: callee.into(),
        line,
    }
}

fn source(
    path: &str,
    text: &str,
    symbols: Vec<CodeSymbol>,
    imports: Vec<Import>,
    calls: Vec<Call>,
) -> ParsedSource {
    let (sha, loc) = digest(text);
    ParsedSource {
        path: RelPath::new(path),
        language: Language::Go,
        sha,
        loc,
        symbols,
        imports,
        calls,
    }
}

fn edges(g: &CodeGraph) -> Vec<(u32, u32, EdgeKind, u32)> {
    g.edges
        .iter()
        .map(|e| (e.from, e.to, e.kind, e.weight))
        .collect()
}

fn paths(g: &CodeGraph) -> Vec<String> {
    g.files.iter().map(|f| f.path.to_text()).collect()
}

#[test]
fn indexes_a_repo_end_to_end() {
    let parsed = vec![
        source(
            "util/util.go",
            "package util\n\nfunc Greet() string { return \"hi\" }\n",
            vec![function("Greet", 3, 3)],
            vec![],
            vec![],
        ),
        source(
            "main.go",
            "package main\n",
            vec![function("main", 8, 8)],
            vec![
                import("fmt", None),
                import("example.com/app/util", Some("util/util.go")),
            ],
            vec![],
        ),
    ];
    let (graph, report) = index_repo(parsed, vec![], 3, &IndexOptions::default());

    assert_eq!(report.files_scanned, 3);
    assert_eq!(report.files_parsed, 2, "both .go files parse");
    assert!(report.parse_failures.is_empty());
    assert!(graph.symbols.iter().any(|s| s.name == "Greet"));
    assert_eq!(report.import_edges, 1, "the in-repo import became an edge");
    assert!(
        report.unresolved_imports.is_empty(),
        "stdlib fmt must not count as a gap: {:?}",
        report.unresolved_imports
    );
    assert_eq!(report.resolution_counts(), (1, 1));
    assert_eq!(paths(&graph), vec!["main.go", "util/util.go"]);
    assert_eq!(edges(&graph), vec![(0, 1, EdgeKind::Import, 1)]);
}

#[test]
fn index_is_deterministic() {
    let build = |order: &[usize]| {
        let parsed: Vec<ParsedSource> = order
            .iter()
            .map(|n| {
                let target = format!("pkg{}/a.go", (n + 1) % 12);
                source(
                    &format!("pkg{n}/a.go"),
                    &format!("package pkg{n}\n\nfunc F{n}() {{}}\n"),
                    vec![function(&format!("F{n}"), 3, 3)],
                    vec![import("example.com/d/next", Some(&target))],
                    vec![],
                )
            })
            .collect();
        let failures = order
            .iter()
            .map(|n| (RelPath::new(&format!("bad{n}.go")), format!("read: {n}")))
            .collect();
        index_repo(parsed, failures, 12, &IndexOptions::default())
    };
    let (g1, r1) = build(&[0, 1, 2, 3, 4, 5, 6, 7, 8, 9, 10, 11]);
    let (g2, r2) = build(&[7, 3, 11, 0, 5, 9, 1, 10, 2, 8, 6, 4]);
    assert_eq!(paths(&g1), paths(&g2), "file ids must be reproducible");
    assert_eq!(edges(&g1), edges(&g2), "edges must be reproducible");
    assert_eq!(g1.symbols, g2.symbols);
    assert_eq!(r1.parse_failures, r2.parse_failures);
    for (i, f) in g1.files.iter().enumerate() {
        assert_eq!(f.id.0 as usize, i);
    }
    for e in &g1.edges {
        assert!((e.from as usize) < g1.files.len() && (e.to as usize) < g1.files.len());
    }
}

#[test]
fn parse_failures_are_reported_not_swallowed() {
    let outcomes = vec![
        Outcome::Unreadable(RelPath::new("z.go"), "gone".to_string()),
        Outcome::Parsed(source("ok.go", "package p\n", vec![], vec![], vec![])),
        Outcome::Rejected(RelPath::new("a.go"), "syntax".to_string()),
    ];
    let (parsed, failures) = gather(outcomes);
    assert_eq!((parsed.len(), failures.len()), (1, 2));
    let (graph, report) = index_repo(parsed, failures, 3, &IndexOptions::default());
    assert_eq!(report.files_scanned, 3);
    assert_eq!(report.files_parsed + report.parse_failures.len(), 3);
    assert_eq!(report.parse_failures[0].0.as_str(), "a.go");
    assert_eq!(report.parse_failures[0].1, "syntax");
    assert_eq!(report.parse_failures[1].1, "read: gone");
    assert_eq!(paths(&graph), vec!["ok.go"]);
}

#[test]
fn internal_imports_that_lead_nowhere_are_reported() {
    let parsed = vec![source(
        "a.ts",
        "",
        vec![],
        vec![
            import("./missing", None),
            import("react", None),
            import("./outside", Some("not/indexed.ts")),
        ],
        vec![],
    )];
    let (_, report) = index_repo(parsed, vec![], 1, &IndexOptions::default());
    assert_eq!(report.unresolved_imports.len(), 1);
    assert_eq!(report.unresolved_imports[0].1, "./missing");
    assert_eq!(report.import_edges, 0);
    assert_eq!(report.resolution_counts(), (0, 1));
    assert!(looks_internal("./missing"));
    assert!(!looks_internal("react"));
}

#[test]
fn call_edges_skips_ubiquitous_names_exceeding_threshold() {
    let inits: Vec<CodeSymbol> = (0..(MAX_SYNTACTIC_CALL_TARGETS + 6))
        .map(|n| function("Init", 2 * n as u32 + 1, 2 * n as u32 + 1))
        .collect();
    let parsed = vec![
        source("inits.go", "package ubiq\n", inits, vec![], vec![]),
        source(
            "caller.go",
            "package ubiq\nfunc Rare() {}\nfunc Call() { Init(); Rare(); }\n",
            vec![function("Rare", 2, 2), function("Call", 3, 3)],
            vec![],
            vec![call("Init", 3), call("Rare", 3)],
        ),
    ];
    let opts = IndexOptions {
        call_edges: true,
        persist: false,
    };
    let (g, _) = index_repo(parsed, vec![], 2, &opts);
    let call_edges: Vec<&CodeEdge> = g.edges.iter().filter(|e| e.kind == EdgeKind::Call).collect();
    let rare = g.symbols.iter().find(|s| s.name == "Rare").unwrap();
    assert!(
        call_edges.iter().any(|e| e.to == rare.id.0),
        "Rare call edge must exist"
    );
    let init_ids: HashSet<u32> = g
        .symbols
        .iter()
        .filter(|s| s.name == "Init")
        .map(|s| s.id.0)
        .collect();
    assert_eq!(init_ids.len(), MAX_SYNTACTIC_CALL_TARGETS + 6);
    assert!(
        !call_edges.iter().any(|e| init_ids.contains(&e.to)),
        "Ubiquitous Init calls must be skipped"
    );
}

#[test]
fn calls_belong_to_the_innermost_function_on_their_line() {
    let parsed = vec![source(
        "a.go",
        "",
        vec![
            function("outer", 1, 10),
            function("inner", 3, 5),
            function("used", 20, 21),
        ],
        vec![],
        vec![call("pkg.used", 4), call("used()", 7), call("used", 20)],
    )];
    let opts = IndexOptions {
        call_edges: true,
        persist: true,
    };
    let (g, _) = index_repo(parsed, vec![], 1, &opts);
    let from_to: Vec<(u32, u32)> = g.edges.iter().map(|e| (e.from, e.to)).collect();
    assert!(from_to.contains(&(1, 2)));
    assert!(!from_to.contains(&(2, 2)), "a call of itself is no edge");
    assert!(g.edges.iter().all(|e| e.confidence == Confidence::Syntactic));
}

#[test]
fn repeated_edges_are_merged_and_weighed() {
    let e = |from, to| CodeEdge {
        from,
        to,
        kind: EdgeKind::Import,
        weight: 1,
        confidence: Confidence::Scoped,
    };
    let merged = merge_edges(vec![e(2, 1), e(0, 1), e(2, 1), e(2, 1)]);
    assert_eq!(merged.len(), 2);
    assert_eq!((merged[0].from, merged[0].weight), (0, 1));
    assert_eq!((merged[1].from, merged[1].weight), (2, 3));
}

#[test]
fn sources_are_told_apart_by_their_hash() {
    assert_eq!(digest(""), ("cbf29ce484222325".to_string(), 0));
    assert_eq!(digest("a"), ("af63dc4c8601ec8c".to_string(), 1));
    assert_eq!(digest("a\nb\n").1, 2);
    assert_ne!(digest("a").0, digest("b").0);
}

#[test]
fn a_call_is_known_by_its_last_name() {
    assert_eq!(short_callee("a.b.c"), "c");
    assert_eq!(short_callee("Foo::new"), "new");
}

#[test]
fn results_are_kept_below_the_root() {
    assert_eq!(store_path("/repo"), "/repo/.astrolabe/index.redb");
}

#[test]
fn generated_files_are_declared_by_five_languages() {
    let languages = configured_languages();
    assert_eq!(languages.len(), 5);
    assert_eq!(languages[0], Language::Python);
    assert_eq!(languages[4], Language::TypeScript);
}
