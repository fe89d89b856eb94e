use astrolabe_core::graph::CodeGraph;
use astrolabe_core::group_graph::{group_graph, group_of, GroupEdge, GroupNode};
use astrolabe_core::types::{CodeEdge, CodeFile, Confidence, EdgeKind, FileId, Language, RelPath};
use std::collections::HashMap;

fn file(id: u32, path: &str) -> CodeFile {
    CodeFile {
        id: FileId(id),
        path: RelPath::new(path),
        language: Some(Language::Rust),
        loc: 10,
        sha: String::new(),
    }
}

fn import(from: u32, to: u32) -> CodeEdge {
    CodeEdge {
        from,
        to,
        kind: EdgeKind::Import,
        weight: 1,
        confidence: Confidence::Scoped,
    }
}

#[test]
fn two_dirs_mutually_importing_yield_two_nodes_and_two_edges() {
    let g = CodeGraph {
        files: vec![
            file(0, "a/one.rs"),
            file(1, "a/two.rs"),
            file(2, "b/three.rs"),
        ],
        symbols: Vec::new(),
        edges: vec![import(0, 2), import(1, 2), import(2, 0)],
    };
    let (nodes, edges) = group_graph(&g, 1);
    assert_eq!(
        nodes,
        vec![
            GroupNode {
                id: "a".into(),
                files: 2,
                members: vec![FileId(0), FileId(1)],
            },
            GroupNode {
                id: "b".into(),
                files: 1,
                members: vec![FileId(2)],
            },
        ]
    );
    assert_eq!(
        edges,
        vec![
            GroupEdge {
                from: "a".into(),
                to: "b".into(),
                weight: 2,
            },
            GroupEdge {
                from: "b".into(),
                to: "a".into(),
                weight: 1,
            },
        ]
    );
}

#[test]
fn intra_group_and_non_import_edges_are_not_counted() {
    let g = CodeGraph {
        files: vec![file(0, "a/one.rs"), file(1, "a/two.rs")],
        symbols: Vec::new(),
        edges: vec![
            import(0, 1),
            import(1, 0),
            CodeEdge {
                from: 0,
                to: 1,
                kind: EdgeKind::Call,
                weight: 5,
                confidence: Confidence::Syntactic,
            },
        ],
    };
    let (nodes, edges) = group_graph(&g, 1);
    assert_eq!(nodes.len(), 1);
    assert_eq!(nodes[0].id, "a");
    assert_eq!(nodes[0].files, 2);
    assert!(edges.is_empty());
}

#[test]
fn depth_two_groups_finer_than_depth_one() {
    let g = CodeGraph {
        files: vec![file(0, "a/b/c.rs"), file(1, "a/d/e.rs")],
        symbols: Vec::new(),
        edges: vec![import(0, 1)],
    };

    let (nodes1, edges1) = group_graph(&g, 1);
    let ids1: Vec<&str> = nodes1.iter().map(|n| n.id.as_str()).collect();
    assert_eq!(ids1, vec!["a"]);
    assert!(edges1.is_empty(), "同属 a 组，跨组边不存在");

    let (nodes2, edges2) = group_graph(&g, 2);
    let ids2: Vec<&str> = nodes2.iter().map(|n| n.id.as_str()).collect();
    assert_eq!(ids2, vec!["a/b", "a/d"]);
    assert!(nodes2.len() > nodes1.len(), "depth=2 应切出更多组");
    assert_eq!(
        edges2,
        vec![GroupEdge {
            from: "a/b".into(),
            to: "a/d".into(),
            weight: 1,
        }]
    );
}

#[test]
fn root_level_files_join_the_root_group() {
    let g = CodeGraph {
        files: vec![file(0, "main.rs"), file(1, "src/lib.rs")],
        symbols: Vec::new(),
        edges: vec![import(0, 1), import(1, 0)],
    };
    let (nodes, edges) = group_graph(&g, 1);
    let ids: Vec<&str> = nodes.iter().map(|n| n.id.as_str()).collect();
    assert_eq!(ids, vec!["(root)", "src"]);
    assert_eq!(
        edges,
        vec![
            GroupEdge {
                from: "(root)".into(),
                to: "src".into(),
                weight: 1,
            },
            GroupEdge {
                from: "src".into(),
                to: "(root)".into(),
                weight: 1,
            },
        ]
    );
}

#[test]
fn node_centrality_is_the_sum_of_member_scores() {
    let g = CodeGraph {
        files: vec![
            file(0, "a/one.rs"),
            file(1, "a/two.rs"),
            file(2, "b/three.rs"),
            file(3, "b/four.rs"),
        ],
        symbols: Vec::new(),
        edges: vec![import(0, 2)],
    };
    let scores: HashMap<FileId, f64> =
        vec![(FileId(0), 0.2), (FileId(1), 0.05), (FileId(2), 0.25)]
            .into_iter()
            .collect();
    let sum = |node: &GroupNode| -> f64 {
        node.members
            .iter()
            .map(|id| scores.get(id).copied().unwrap_or(0.0))
            .sum()
    };
    let (nodes, _) = group_graph(&g, 1);
    assert_eq!(nodes.len(), 2);
    assert!((sum(&nodes[0]) - 0.25).abs() < 1e-12);
    assert!((sum(&nodes[1]) - 0.25).abs() < 1e-12);
    assert_eq!(nodes[0].files, 2);
    assert_eq!(nodes[1].files, 2);
}

#[test]
fn every_file_is_in_one_group() {
    let g = CodeGraph {
        files: vec![
            file(5, "a/one.rs"),
            file(1, "main.rs"),
            file(2, "a/b/three.rs"),
            file(3, "b/four.rs"),
        ],
        symbols: Vec::new(),
        edges: Vec::new(),
    };
    for depth in 0..5u8 {
        let (nodes, _) = group_graph(&g, depth);
        for f in &g.files {
            let homes = nodes.iter().filter(|n| n.members.contains(&f.id)).count();
            assert_eq!(homes, 1);
        }
    }
}

#[test]
fn dangling_edges_are_skipped_without_panicking() {
    let g = CodeGraph {
        files: vec![file(0, "a/one.rs"), file(1, "b/two.rs")],
        symbols: Vec::new(),
        edges: vec![
            import(0, 99),
            import(99, 1),
            import(0, 1),
        ],
    };
    let (nodes, edges) = group_graph(&g, 1);
    assert_eq!(nodes.len(), 2);
    assert_eq!(
        edges,
        vec![GroupEdge {
            from: "a".into(),
            to: "b".into(),
            weight: 1,
        }]
    );
}

#[test]
fn output_is_deterministic_and_totally_ordered() {
    let first = CodeGraph {
        files: vec![
            file(0, "z/zero.rs"),
            file(1, "a/one.rs"),
            file(2, "m/two.rs"),
            file(3, "a/nested/three.rs"),
        ],
        symbols: Vec::new(),
        edges: vec![import(0, 2), import(2, 0), import(1, 2), import(0, 1)],
    };
    let second = CodeGraph {
        files: vec![
            file(3, "a/nested/three.rs"),
            file(2, "m/two.rs"),
            file(0, "z/zero.rs"),
            file(1, "a/one.rs"),
        ],
        symbols: Vec::new(),
        edges: vec![import(0, 1), import(1, 2), import(2, 0), import(0, 2)],
    };

    let (nodes_a, edges_a) = group_graph(&first, 1);
    let (nodes_b, edges_b) = group_graph(&second, 1);
    assert_eq!(nodes_a, nodes_b);
    assert_eq!(edges_a, edges_b);

    let ids: Vec<&str> = nodes_a.iter().map(|n| n.id.as_str()).collect();
    let mut sorted_ids = ids.clone();
    sorted_ids.sort_unstable();
    assert_eq!(ids, sorted_ids, "组节点必须按名字典序");

    let pairs: Vec<(&str, &str)> = edges_a
        .iter()
        .map(|e| (e.from.as_str(), e.to.as_str()))
        .collect();
    let mut sorted_pairs = pairs.clone();
    sorted_pairs.sort_unstable();
    assert_eq!(pairs, sorted_pairs, "组边必须按 (from, to) 字典序");
}

#[test]
fn group_edge_weight_sums_edge_weight_max_one() {
    let g = CodeGraph {
        files: vec![file(0, "a/one.rs"), file(1, "b/two.rs")],
        symbols: Vec::new(),
        edges: vec![
            CodeEdge {
                from: 0,
                to: 1,
                kind: EdgeKind::Import,
                weight: 5,
                confidence: Confidence::Scoped,
            },
            CodeEdge {
                from: 0,
                to: 1,
                kind: EdgeKind::Import,
                weight: 0,
                confidence: Confidence::Scoped,
            },
        ],
    };
    let (_, edges) = group_graph(&g, 1);
    assert_eq!(
        edges,
        vec![GroupEdge {
            from: "a".into(),
            to: "b".into(),
            weight: 6,
        }]
    );
}

#[test]
fn depth_is_clamped_between_one_and_three() {
    let g = CodeGraph {
        files: vec![file(0, "a/b/c/d.rs")],
        symbols: Vec::new(),
        edges: Vec::new(),
    };
    let ids = |depth: u8| {
        group_graph(&g, depth)
            .0
            .iter()
            .map(|n| n.id.clone())
            .collect::<Vec<_>>()
    };
    assert_eq!(ids(0), vec!["a"]);
    assert_eq!(ids(1), vec!["a"]);
    assert_eq!(ids(2), vec!["a/b"]);
    assert_eq!(ids(3), vec!["a/b/c"]);
    assert_eq!(ids(9), vec!["a/b/c"]);
}

#[test]
fn groups_are_leading_directories() {
    assert_eq!(group_of(&RelPath::new("main.rs"), 1), "(root)");
    assert_eq!(group_of(&RelPath::new("a/b/c.rs"), 1), "a");
    assert_eq!(group_of(&RelPath::new("a/b/c.rs"), 3), "a/b");
}
