use astrolabe_core::graph::CodeGraph;
use astrolabe_core::index::{digest, gather, index_repo, Call, IndexOptions, IndexReport, Outcome};
use astrolabe_core::reuse::{outcome_of, Lookup, ParsedFile};
use astrolabe_core::types::{
    CodeSymbol, FileId, Language, RelPath, SymbolId, SymbolKind,
};

fn parse(path: &str) -> Result<ParsedFile, String> {
    if path == "bad.go" {
        return Err("syntax".to_string());
    }
    Ok(ParsedFile {
        symbols: vec![CodeSymbol {
            id: SymbolId(0),
            file: FileId(0),
            name: format!("F_{path}"),
            kind: SymbolKind::Function,
            signature: "func".into(),
            start_line: 1,
            end_line: 9,
            exported: true,
        }],
        imports: vec!["next".into(), "./gone".into()],
        calls: vec![Call {
            callee: "F_a.go".into(),
            line: 2,
        }],
    })
}

/// Indexes three files, with what was kept for each of them.
fn run(lookups: [Lookup; 3]) -> (CodeGraph, IndexReport) {
    let mut outcomes: Vec<Outcome> = Vec::new();
    for (path, lookup) in ["b.go", "a.go", "bad.go"].into_iter().zip(lookups) {
        let (sha, loc) = digest(path);
        let parsed = match lookup.reusable() {
            Some(parsed) => Ok(parsed),
            None => parse(path),
        };
        let targets = match &parsed {
            Ok(_) => vec![Some(RelPath::new("b.go")), None],
            Err(_) => vec![],
        };
        outcomes.push(outcome_of(
            RelPath::new(path),
            Language::Go,
            sha,
            loc,
            parsed,
            &targets,
        ));
    }
    let (parsed, failures) = gather(outcomes);
    let opts = IndexOptions {
        call_edges: true,
        persist: true,
    };
    index_repo(parsed, failures, 3, &opts)
}

fn kept(path: &str) -> Lookup {
    Lookup::Kept(parse(path).unwrap())
}

#[test]
fn warm_and_broken_stores_give_the_same_index() {
    let (cold, report) = run([Lookup::NoStore, Lookup::NoStore, Lookup::NoStore]);
    assert_eq!(report.files_parsed, 2);
    assert_eq!(
        report.parse_failures,
        vec![(RelPath::new("bad.go"), "syntax".to_string())]
    );
    assert_eq!(report.unresolved_imports.len(), 2);
    assert_eq!(cold.files.len(), 2);
    assert_eq!(cold.symbols[1].name, "F_b.go");
    assert!(!cold.edges.is_empty());
    let others = [
        [kept("b.go"), kept("a.go"), Lookup::Missing],
        [Lookup::Missing, kept("a.go"), Lookup::Missing],
        [Lookup::Broken("torn".into()), kept("a.go"), Lookup::Broken("torn".into())],
    ];
    for lookups in others {
        let (graph, again) = run(lookups);
        assert_eq!(graph.files, cold.files);
        assert_eq!(graph.symbols, cold.symbols);
        assert_eq!(graph.edges, cold.edges);
        assert_eq!(format!("{again:?}"), format!("{report:?}"));
    }
}

#[test]
fn results_are_kept_where_there_is_a_place_and_none_yet() {
    assert!(Lookup::Missing.wants_result());
    assert!(Lookup::Broken("torn".into()).wants_result());
    assert!(!Lookup::NoStore.wants_result());
    assert!(!kept("a.go").wants_result());
    assert!(Lookup::Broken("torn".into()).reusable().is_none());
    assert_eq!(kept("a.go").reusable().unwrap().imports.len(), 2);
}

#[test]
fn imports_go_with_their_targets() {
    let (sha, loc) = digest("package a\n");
    let targets = vec![Some(RelPath::new("b.go")), None];
    match outcome_of(RelPath::new("a.go"), Language::Go, sha, loc, parse("a.go"), &targets) {
        Outcome::Parsed(p) => {
            assert_eq!(p.loc, 1);
            assert_eq!(p.imports[0].spec, "next");
            assert_eq!(p.imports[0].target, Some(RelPath::new("b.go")));
            assert_eq!(p.imports[1].spec, "./gone");
            assert_eq!(p.imports[1].target, None);
            assert_eq!(p.calls[0].line, 2);
        }
        other => panic!("{other:?}"),
    }
}
