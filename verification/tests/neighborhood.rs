use astrolabe_core::graph::{dependencies, dependents, CodeGraph};
use astrolabe_core::neighborhood::{neighborhood, NeighborhoodDirection, NeighborhoodEntry};
use astrolabe_core::types::{CodeEdge, CodeFile, Confidence, EdgeKind, FileId, Language, RelPath};
use std::collections::HashMap;

fn file(id: u32, path: &str) -> CodeFile {
    CodeFile {
        id: FileId(id),
        path: RelPath::new(path),
        language: Some(Language::Rust),
        loc: 10,
        sha: String::new(),
    }
}

fn import(from: u32, to: u32) -> CodeEdge {
    CodeEdge {
        from,
        to,
        kind: EdgeKind::Import,
        confidence: Confidence::Scoped,
        weight: 1,
    }
}

fn graph(files: Vec<CodeFile>, edges: Vec<CodeEdge>) -> CodeGraph {
    CodeGraph {
        files,
        symbols: Vec::new(),
        edges,
    }
}

fn ids(entries: &[NeighborhoodEntry]) -> Vec<FileId> {
    entries.iter().map(|entry| entry.file).collect()
}

fn diamond() -> CodeGraph {
    graph(
        vec![
            file(0, "a.rs"),
            file(1, "b.rs"),
            file(2, "c.rs"),
            file(3, "d.rs"),
        ],
        vec![import(0, 1), import(1, 3), import(0, 2), import(2, 3)],
    )
}

#[test]
fn diamond_reaches_shared_dependency_once_at_correct_depth() {
    let g = diamond();
    let entries = neighborhood(&g, FileId(0), NeighborhoodDirection::Dependencies, 2);
    assert_eq!(
        entries,
        vec![
            NeighborhoodEntry {
                file: FileId(1),
                depth: 1
            },
            NeighborhoodEntry {
                file: FileId(2),
                depth: 1
            },
            NeighborhoodEntry {
                file: FileId(3),
                depth: 2
            },
        ]
    );
    assert_eq!(entries.iter().filter(|e| e.file == FileId(3)).count(), 1);
}

#[test]
fn cycle_terminates_with_correct_depths() {
    let g = graph(
        vec![file(0, "a.rs"), file(1, "b.rs"), file(2, "c.rs")],
        vec![import(0, 1), import(1, 2), import(2, 0)],
    );
    let entries = neighborhood(&g, FileId(0), NeighborhoodDirection::Dependencies, 3);
    assert_eq!(
        entries,
        vec![
            NeighborhoodEntry {
                file: FileId(1),
                depth: 1
            },
            NeighborhoodEntry {
                file: FileId(2),
                depth: 2
            },
        ]
    );
    assert!(entries.iter().all(|e| e.file != FileId(0)));
}

#[test]
fn dependents_mirror_dependencies() {
    let g = diamond();
    assert_eq!(
        neighborhood(&g, FileId(3), NeighborhoodDirection::Dependents, 2),
        vec![
            NeighborhoodEntry {
                file: FileId(1),
                depth: 1
            },
            NeighborhoodEntry {
                file: FileId(2),
                depth: 1
            },
            NeighborhoodEntry {
                file: FileId(0),
                depth: 2
            },
        ]
    );
    assert_eq!(
        neighborhood(&g, FileId(3), NeighborhoodDirection::Dependencies, 2),
        Vec::<NeighborhoodEntry>::new()
    );
    let flipped = graph(
        vec![
            file(0, "a.rs"),
            file(1, "b.rs"),
            file(2, "c.rs"),
            file(3, "d.rs"),
        ],
        vec![import(1, 0), import(3, 1), import(2, 0), import(3, 2)],
    );
    assert_eq!(
        neighborhood(&flipped, FileId(3), NeighborhoodDirection::Dependencies, 2),
        neighborhood(&g, FileId(3), NeighborhoodDirection::Dependents, 2),
    );
}

#[test]
fn both_bidirectional_reaches_min_depth_neighbors() {
    let g = graph(
        vec![
            file(0, "a.rs"),
            file(1, "b.rs"),
            file(2, "c.rs"),
            file(3, "d.rs"),
            file(4, "e.rs"),
        ],
        vec![
            import(1, 0),
            import(0, 2),
            import(2, 1),
            import(0, 3),
            import(4, 0),
        ],
    );
    assert_eq!(
        neighborhood(&g, FileId(0), NeighborhoodDirection::Dependencies, 2),
        vec![
            NeighborhoodEntry {
                file: FileId(2),
                depth: 1
            },
            NeighborhoodEntry {
                file: FileId(3),
                depth: 1
            },
            NeighborhoodEntry {
                file: FileId(1),
                depth: 2
            },
        ]
    );
    assert_eq!(
        neighborhood(&g, FileId(0), NeighborhoodDirection::Dependents, 2),
        vec![
            NeighborhoodEntry {
                file: FileId(1),
                depth: 1
            },
            NeighborhoodEntry {
                file: FileId(4),
                depth: 1
            },
            NeighborhoodEntry {
                file: FileId(2),
                depth: 2
            },
        ]
    );
    assert_eq!(
        neighborhood(&g, FileId(0), NeighborhoodDirection::Both, 2),
        vec![
            NeighborhoodEntry {
                file: FileId(1),
                depth: 1
            },
            NeighborhoodEntry {
                file: FileId(2),
                depth: 1
            },
            NeighborhoodEntry {
                file: FileId(3),
                depth: 1
            },
            NeighborhoodEntry {
                file: FileId(4),
                depth: 1
            },
        ]
    );
}

#[test]
fn both_bidirectional_reaches_co_dependents_via_shared_neighbor() {
    let g = graph(
        vec![file(0, "a.rs"), file(1, "b.rs"), file(2, "c.rs")],
        vec![import(0, 1), import(2, 1)],
    );
    assert_eq!(
        neighborhood(&g, FileId(0), NeighborhoodDirection::Dependencies, 2),
        vec![NeighborhoodEntry {
            file: FileId(1),
            depth: 1
        }]
    );
    assert_eq!(
        neighborhood(&g, FileId(0), NeighborhoodDirection::Dependents, 2),
        Vec::<NeighborhoodEntry>::new()
    );
    assert_eq!(
        neighborhood(&g, FileId(0), NeighborhoodDirection::Both, 2),
        vec![
            NeighborhoodEntry {
                file: FileId(1),
                depth: 1
            },
            NeighborhoodEntry {
                file: FileId(2),
                depth: 2
            },
        ]
    );
}

#[test]
fn depth_is_clamped_to_the_1_to_3_domain() {
    let g = graph(
        vec![
            file(0, "a.rs"),
            file(1, "b.rs"),
            file(2, "c.rs"),
            file(3, "d.rs"),
            file(4, "e.rs"),
        ],
        vec![import(0, 1), import(1, 2), import(2, 3), import(3, 4)],
    );
    assert_eq!(
        neighborhood(&g, FileId(0), NeighborhoodDirection::Dependencies, 0),
        Vec::<NeighborhoodEntry>::new()
    );
    let clamped = neighborhood(&g, FileId(0), NeighborhoodDirection::Dependencies, 5);
    assert_eq!(
        clamped,
        vec![
            NeighborhoodEntry {
                file: FileId(1),
                depth: 1
            },
            NeighborhoodEntry {
                file: FileId(2),
                depth: 2
            },
            NeighborhoodEntry {
                file: FileId(3),
                depth: 3
            },
        ]
    );
    assert_eq!(
        clamped,
        neighborhood(&g, FileId(0), NeighborhoodDirection::Dependencies, 3)
    );
    assert_eq!(
        clamped,
        neighborhood(&g, FileId(0), NeighborhoodDirection::Dependencies, u8::MAX)
    );
}

#[test]
fn isolated_unknown_and_non_import_edges_yield_empty() {
    let mut call = import(0, 1);
    call.kind = EdgeKind::Call;
    call.confidence = Confidence::Syntactic;
    let g = graph(vec![file(0, "a.rs"), file(1, "b.rs")], vec![call]);
    for direction in [
        NeighborhoodDirection::Dependencies,
        NeighborhoodDirection::Dependents,
        NeighborhoodDirection::Both,
    ] {
        assert_eq!(
            neighborhood(&g, FileId(0), direction, 3),
            Vec::<NeighborhoodEntry>::new()
        );
    }
    let dangling = graph(vec![file(0, "a.rs")], vec![import(0, 9)]);
    assert_eq!(
        neighborhood(&dangling, FileId(0), NeighborhoodDirection::Dependencies, 3),
        Vec::<NeighborhoodEntry>::new()
    );
    assert_eq!(
        neighborhood(&dangling, FileId(7), NeighborhoodDirection::Both, 2),
        Vec::<NeighborhoodEntry>::new()
    );
}

#[test]
fn output_is_deterministic_across_calls_and_edge_order() {
    let files = || {
        vec![
            file(0, "a.rs"),
            file(1, "b.rs"),
            file(2, "c.rs"),
            file(3, "d.rs"),
            file(4, "e.rs"),
        ]
    };
    let g = graph(
        files(),
        vec![
            import(0, 1),
            import(1, 2),
            import(2, 0),
            import(0, 3),
            import(3, 2),
            import(4, 0),
            import(4, 3),
        ],
    );
    let shuffled = graph(
        files(),
        vec![
            import(4, 3),
            import(3, 2),
            import(2, 0),
            import(4, 0),
            import(1, 2),
            import(0, 3),
            import(0, 1),
        ],
    );
    for direction in [
        NeighborhoodDirection::Dependencies,
        NeighborhoodDirection::Dependents,
        NeighborhoodDirection::Both,
    ] {
        let first = neighborhood(&g, FileId(0), direction, 3);
        assert!(!first.is_empty());
        assert_eq!(first, neighborhood(&shuffled, FileId(0), direction, 3));
        for _ in 0..3 {
            assert_eq!(first, neighborhood(&g, FileId(0), direction, 3));
        }
        for pair in first.windows(2) {
            assert!((pair[0].depth, pair[0].file) < (pair[1].depth, pair[1].file));
        }
    }
}

#[test]
fn agrees_with_graph_reachable_imports() {
    let g = graph(
        vec![
            file(0, "a.rs"),
            file(1, "b.rs"),
            file(2, "c.rs"),
            file(3, "d.rs"),
        ],
        vec![import(0, 1), import(1, 2), import(2, 3)],
    );
    assert_eq!(
        neighborhood(&g, FileId(0), NeighborhoodDirection::Dependencies, 1),
        vec![NeighborhoodEntry {
            file: FileId(1),
            depth: 1
        }]
    );

    let mut reachable = dependencies(&g, FileId(0), &HashMap::new());
    reachable.sort();
    let mut got = ids(&neighborhood(
        &g,
        FileId(0),
        NeighborhoodDirection::Dependencies,
        3,
    ));
    got.sort();
    assert_eq!(got, reachable);

    let mut users = dependents(&g, FileId(3), &HashMap::new());
    users.sort();
    let mut got_users = ids(&neighborhood(
        &g,
        FileId(3),
        NeighborhoodDirection::Dependents,
        3,
    ));
    got_users.sort();
    assert_eq!(got_users, users);
}
