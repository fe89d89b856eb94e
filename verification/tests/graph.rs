use astrolabe_core::graph::{dependencies, dependents, CodeGraph};
use astrolabe_core::ranking::{
    compact, context_files, file_positions, import_adjacency, sorted_files, split_words,
    task_emphasis, Emphasis,
};
use astrolabe_core::types::{
    CodeEdge, CodeFile, CodeSymbol, Confidence, EdgeKind, FileId, Language, RelPath, SymbolId,
    SymbolKind,
};
use std::collections::{HashMap, HashSet};

fn none() -> HashMap<u32, u64> {
    HashMap::new()
}

fn file(id: u32, path: &str) -> CodeFile {
    CodeFile {
        id: FileId(id),
        path: RelPath::new(path),
        language: Some(Language::Rust),
        loc: 10,
        sha: String::new(),
    }
}

fn import(from: u32, to: u32) -> CodeEdge {
    CodeEdge {
        from,
        to,
        kind: EdgeKind::Import,
        weight: 1,
        confidence: Confidence::Scoped,
    }
}

fn graph(edges: Vec<CodeEdge>) -> CodeGraph {
    CodeGraph {
        files: vec![file(2, "c.rs"), file(0, "a.rs"), file(1, "b.rs")],
        symbols: Vec::new(),
        edges,
    }
}

#[test]
fn cycles_terminate_and_queries_exclude_the_target() {
    let g = graph(vec![import(0, 1), import(1, 2), import(2, 0)]);
    assert_eq!(dependencies(&g, FileId(0), &none()).len(), 2);
    assert!(!dependencies(&g, FileId(0), &none()).contains(&FileId(0)));
}

#[test]
fn dependency_directions_are_correct_and_transitive() {
    let g = graph(vec![import(0, 1), import(1, 2)]);
    let deps = dependencies(&g, FileId(0), &none());
    assert!(deps.contains(&FileId(1)));
    assert!(deps.contains(&FileId(2)));
    let users = dependents(&g, FileId(2), &none());
    assert!(users.contains(&FileId(0)));
    assert!(users.contains(&FileId(1)));
    assert!(dependents(&g, FileId(0), &none()).is_empty());
    assert!(dependencies(&g, FileId(2), &none()).is_empty());
}

#[test]
fn tokenizer_splits_camel_case_snake_case_and_acronyms() {
    assert_eq!(
        split_words("getUserName parse_http_URL"),
        ["get", "http", "name", "parse", "url", "user"]
            .map(str::to_string)
            .into_iter()
            .collect::<Vec<String>>()
    );
}


#[test]
fn answers_are_ranked_by_score_then_path() {
    let g = graph(vec![import(0, 1), import(1, 2)]);
    assert_eq!(dependencies(&g, FileId(0), &none()), vec![FileId(1), FileId(2)]);
    let scores: HashMap<u32, u64> = vec![(2, 7), (1, 3)].into_iter().collect();
    assert_eq!(dependencies(&g, FileId(0), &scores), vec![FileId(2), FileId(1)]);
}

#[test]
fn dependents_are_the_dependencies_seen_from_the_other_end() {
    let g = graph(vec![import(0, 1), import(1, 2), import(2, 1)]);
    for a in 0..3u32 {
        for b in 0..3u32 {
            if a != b {
                assert_eq!(
                    dependencies(&g, FileId(a), &none()).contains(&FileId(b)),
                    dependents(&g, FileId(b), &none()).contains(&FileId(a))
                );
            }
        }
    }
}

#[test]
fn edge_order_does_not_change_an_answer() {
    let a = graph(vec![import(0, 1), import(1, 2), import(0, 2)]);
    let b = graph(vec![import(0, 2), import(0, 1), import(1, 2)]);
    assert_eq!(
        dependencies(&a, FileId(0), &none()),
        dependencies(&b, FileId(0), &none())
    );
}

#[test]
fn unknown_files_and_loose_ends_are_left_out() {
    let g = graph(vec![import(0, 9), import(9, 1)]);
    assert!(dependencies(&g, FileId(0), &none()).is_empty());
    assert!(dependents(&g, FileId(9), &none()).is_empty());
}

#[test]
fn a_task_speaks_for_the_symbols_that_it_names() {
    let mut g = graph(vec![]);
    g.symbols = vec![
        CodeSymbol {
            id: SymbolId(0),
            file: FileId(0),
            name: "helper".into(),
            kind: SymbolKind::Function,
            signature: String::new(),
            start_line: 1,
            end_line: 1,
            exported: false,
        },
        CodeSymbol {
            id: SymbolId(1),
            file: FileId(2),
            name: "processStripeWebhook".into(),
            kind: SymbolKind::Function,
            signature: String::new(),
            start_line: 7,
            end_line: 8,
            exported: true,
        },
    ];
    let task = "fix the processStripeWebhook in c.rs";
    let sorted = sorted_files(&g);
    let places = file_positions(&g, &sorted);
    let context: HashSet<u32> = context_files(&g, task);
    let emphasis = task_emphasis(&g, task, &sorted, &places, &context);
    assert_eq!(
        emphasis[0],
        Emphasis {
            named: 0,
            specific: 0,
            in_context: false
        }
    );
    assert_eq!(
        emphasis[2],
        Emphasis {
            named: 1,
            specific: 1,
            in_context: true
        }
    );
}

#[test]
fn imports_become_weighted_rows_in_canonical_order() {
    let g = graph(vec![import(0, 1), import(0, 1), import(1, 2)]);
    let sorted = sorted_files(&g);
    let places = file_positions(&g, &sorted);
    let rows = import_adjacency(&g, &places, &HashSet::new());
    assert_eq!(rows.len(), 3);
    assert_eq!(rows[0].len(), 1);
    assert_eq!(rows[0][0].0, 1);
    assert_eq!(rows[1].len(), 1);
    assert_eq!(rows[1][0].0, 2);
    assert!(rows[2].is_empty());
    assert!(rows[0][0].1 >= rows[1][0].1);
}

#[test]
fn names_are_compared_without_what_separates_words() {
    assert_eq!(compact("parse_http-URL"), compact("parseHttpUrl"));
}
