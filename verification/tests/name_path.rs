use astrolabe_core::name_path::{match_name_path, name_matches, KindFilter, NamePathMatch};
use astrolabe_core::types::{CodeSymbol, FileId, SymbolId, SymbolKind};

fn sym(id: u32, file: u32, name: &str, kind: SymbolKind, lines: (u32, u32)) -> CodeSymbol {
    CodeSymbol {
        id: SymbolId(id),
        file: FileId(file),
        name: name.to_string(),
        kind,
        signature: String::new(),
        start_line: lines.0,
        end_line: lines.1,
        exported: true,
    }
}

fn all() -> KindFilter {
    KindFilter(None)
}

fn only(kind: SymbolKind) -> KindFilter {
    KindFilter(Some(kind))
}

fn ids(matches: &[NamePathMatch]) -> Vec<(u32, u8)> {
    matches.iter().map(|m| (m.symbol.0, m.depth)).collect()
}

fn fixture() -> Vec<CodeSymbol> {
    vec![
        sym(0, 1, "Parser", SymbolKind::Class, (10, 200)),
        sym(1, 1, "parse", SymbolKind::Method, (20, 80)),
        sym(2, 1, "getValue", SymbolKind::Method, (90, 120)),
        sym(3, 1, "Node", SymbolKind::Class, (130, 160)),
        sym(4, 1, "serialize", SymbolKind::Method, (140, 150)),
        sym(5, 1, "top_fn", SymbolKind::Function, (1, 5)),
        sym(6, 1, "parse", SymbolKind::Function, (300, 340)),
        sym(7, 1, "count", SymbolKind::Field, (15, 15)),
    ]
}

#[test]
fn single_segment_exact_and_substring() {
    let s = fixture();
    assert_eq!(
        ids(&match_name_path(&s, "parser", false, all(), 0)),
        vec![(0, 0)]
    );
    assert!(match_name_path(&s, "get", false, all(), 0).is_empty());
    assert_eq!(
        ids(&match_name_path(&s, "get", true, all(), 0)),
        vec![(2, 0)]
    );
    assert_eq!(
        ids(&match_name_path(&s, "parse", true, all(), 0)),
        vec![(0, 0), (1, 0), (6, 0)]
    );
}

#[test]
fn path_matches_direct_parent_and_across_middle_layer() {
    let s = fixture();
    assert_eq!(
        ids(&match_name_path(&s, "Parser/parse", false, all(), 0)),
        vec![(1, 0)]
    );
    let s2 = vec![
        sym(10, 2, "Repo", SymbolKind::Class, (10, 100)),
        sym(11, 2, "impl Repo", SymbolKind::Module, (20, 90)),
        sym(12, 2, "load", SymbolKind::Method, (30, 60)),
        sym(13, 2, "save", SymbolKind::Method, (95, 99)),
    ];
    assert_eq!(
        ids(&match_name_path(&s2, "Repo/load", false, all(), 0)),
        vec![(12, 0)]
    );
    assert_eq!(
        ids(&match_name_path(&s2, "Repo/save", false, all(), 0)),
        vec![(13, 0)]
    );
    assert_eq!(
        ids(&match_name_path(
            &s2,
            "Repo/impl Repo/load",
            false,
            all(),
            0
        )),
        vec![(12, 0)]
    );
}

#[test]
fn absolute_path_requires_top_level_chain_head() {
    let s = vec![
        sym(20, 3, "outer", SymbolKind::Function, (1, 100)),
        sym(21, 3, "Config", SymbolKind::Class, (10, 50)),
        sym(22, 3, "reload", SymbolKind::Method, (20, 30)),
        sym(23, 3, "Config", SymbolKind::Class, (200, 260)),
        sym(24, 3, "reload", SymbolKind::Method, (210, 240)),
    ];
    assert_eq!(
        ids(&match_name_path(&s, "Config/reload", false, all(), 0)),
        vec![(22, 0), (24, 0)]
    );
    assert_eq!(
        ids(&match_name_path(&s, "/Config/reload", false, all(), 0)),
        vec![(24, 0)]
    );
    assert_eq!(
        ids(&match_name_path(&s, "/Config", false, all(), 0)),
        vec![(23, 0)]
    );
}

#[test]
fn kind_filter_applies_to_matches_and_expanded_children() {
    let s = fixture();
    assert!(match_name_path(&s, "Parser", false, only(SymbolKind::Method), 0).is_empty());
    assert_eq!(
        ids(&match_name_path(
            &s,
            "Parser",
            false,
            only(SymbolKind::Method),
            1
        )),
        vec![(1, 1), (2, 1)]
    );
    assert_eq!(
        ids(&match_name_path(
            &s,
            "Parser",
            false,
            only(SymbolKind::Method),
            2
        )),
        vec![(1, 1), (2, 1), (4, 2)]
    );
    assert_eq!(
        ids(&match_name_path(
            &s,
            "Parser",
            false,
            only(SymbolKind::Class),
            2
        )),
        vec![(3, 1)]
    );
}

#[test]
fn depth_expansion_layers() {
    let s = fixture();
    assert_eq!(
        ids(&match_name_path(&s, "Parser", false, all(), 0)),
        vec![(0, 0)]
    );
    assert_eq!(
        ids(&match_name_path(&s, "Parser", false, all(), 1)),
        vec![(7, 1), (1, 1), (2, 1), (3, 1)]
    );
    assert_eq!(
        ids(&match_name_path(&s, "Parser", false, all(), 2)),
        vec![(7, 1), (1, 1), (2, 1), (3, 1), (4, 2)]
    );
}

#[test]
fn same_name_classes_in_different_files_do_not_mix() {
    let s = vec![
        sym(0, 1, "Parser", SymbolKind::Class, (10, 200)),
        sym(1, 1, "parse", SymbolKind::Method, (20, 80)),
        sym(30, 4, "Parser", SymbolKind::Class, (1, 50)),
        sym(31, 4, "Lexer", SymbolKind::Class, (60, 120)),
        sym(32, 4, "parse", SymbolKind::Method, (70, 90)),
        sym(33, 4, "parse", SymbolKind::Method, (5, 20)),
    ];
    assert_eq!(
        ids(&match_name_path(&s, "Parser/parse", false, all(), 0)),
        vec![(1, 0), (33, 0)]
    );
    assert_eq!(
        ids(&match_name_path(&s, "Parser", false, all(), 1)),
        vec![(1, 1), (33, 1)]
    );
}

#[test]
fn results_are_deterministic_and_totally_ordered() {
    let s = vec![
        sym(40, 1, "Zeta", SymbolKind::Class, (10, 50)),
        sym(41, 1, "alpha", SymbolKind::Function, (10, 20)),
        sym(42, 2, "gamma", SymbolKind::Struct, (5, 8)),
    ];
    let a = match_name_path(&s, "a", true, all(), 0); // 三个名字都含 "a"
    let b = match_name_path(&s, "a", true, all(), 0);
    assert_eq!(ids(&a), ids(&b));
    assert_eq!(ids(&a), vec![(40, 0), (41, 0), (42, 0)]);
}

#[test]
fn empty_or_slash_only_query_matches_nothing() {
    let s = fixture();
    for q in ["", " ", "/", "//", " / ", "/ /"] {
        assert!(
            match_name_path(&s, q, false, all(), 0).is_empty(),
            "query={q:?}"
        );
        assert!(
            match_name_path(&s, q, true, all(), 2).is_empty(),
            "query={q:?}"
        );
    }
}

#[test]
fn trailing_slash_matches_container_itself_only() {
    let s = vec![
        sym(50, 1, "Foo", SymbolKind::Class, (1, 100)),
        sym(51, 1, "bar", SymbolKind::Method, (10, 20)),
        sym(52, 1, "Foo", SymbolKind::Function, (200, 210)),
    ];
    assert_eq!(
        ids(&match_name_path(&s, "Foo", false, all(), 0)),
        vec![(50, 0), (52, 0)]
    );
    assert_eq!(
        ids(&match_name_path(&s, "Foo/", false, all(), 0)),
        vec![(50, 0)]
    );
    assert_eq!(
        ids(&match_name_path(&s, "Foo/", false, all(), 1)),
        vec![(51, 1)]
    );
}

#[test]
fn substring_applies_only_to_last_segment() {
    let s = vec![
        sym(60, 1, "MyRepo", SymbolKind::Class, (1, 100)),
        sym(61, 1, "load_all", SymbolKind::Method, (10, 20)),
    ];
    assert_eq!(
        ids(&match_name_path(&s, "MyRepo/load", true, all(), 0)),
        vec![(61, 0)]
    );
    assert!(match_name_path(&s, "Repos/load_all", true, all(), 0).is_empty());
}

#[test]
fn nested_same_name_matchers_keep_min_depth() {
    let s = vec![
        sym(70, 1, "Dup", SymbolKind::Class, (1, 100)),
        sym(71, 1, "Dup", SymbolKind::Class, (10, 50)),
        sym(72, 1, "leaf", SymbolKind::Method, (20, 30)),
    ];
    assert_eq!(
        ids(&match_name_path(&s, "Dup", false, all(), 1)),
        vec![(71, 1), (72, 1)]
    );
    assert_eq!(
        ids(&match_name_path(&s, "Dup", false, all(), 2)),
        vec![(71, 1), (72, 1)]
    );
}

#[test]
fn absolute_path_with_nested_same_name_binds_top_level() {
    let s = vec![
        sym(70, 1, "Dup", SymbolKind::Class, (1, 100)),
        sym(71, 1, "Dup", SymbolKind::Class, (10, 50)),
        sym(72, 1, "leaf", SymbolKind::Method, (20, 30)),
    ];
    assert_eq!(
        ids(&match_name_path(&s, "Dup/leaf", false, all(), 0)),
        vec![(72, 0)]
    );
    assert_eq!(
        ids(&match_name_path(&s, "/Dup/leaf", false, all(), 0)),
        vec![(72, 0)]
    );
}

#[test]
fn names_match_in_any_case() {
    assert!(name_matches("FooBar", "foobar", false));
    assert!(name_matches("ÜberTest", "übertest", false));
    assert!(!name_matches("FooBar", "foo", false));
    assert!(name_matches("FooBar", "OBA", true));
}

#[test]
fn absolute_paths_start_at_any_top_level_symbol() {
    let s = vec![
        sym(0, 1, "Foo", SymbolKind::Class, (1, 100)),
        sym(1, 1, "Bar", SymbolKind::Class, (1, 100)),
        sym(2, 1, "leaf", SymbolKind::Method, (10, 20)),
    ];
    for query in ["/Foo/leaf", "/Bar/leaf", "/foo/leaf", "Foo/leaf", "Bar/leaf"] {
        assert_eq!(
            ids(&match_name_path(&s, query, false, all(), 0)),
            vec![(2, 0)],
            "{query}"
        );
    }
    assert_eq!(
        ids(&match_name_path(&s, "/Foo", false, all(), 0)),
        vec![(0, 0)]
    );
    assert!(match_name_path(&s, "/leaf", false, all(), 0).is_empty());

    let crossing = vec![
        sym(0, 1, "Foo", SymbolKind::Class, (1, 50)),
        sym(1, 1, "Bar", SymbolKind::Class, (10, 100)),
        sym(2, 1, "leaf", SymbolKind::Method, (20, 30)),
    ];
    for query in ["/Foo/leaf", "/Bar/leaf"] {
        assert_eq!(
            ids(&match_name_path(&crossing, query, false, all(), 0)),
            vec![(2, 0)],
            "{query}"
        );
    }
}

#[test]
fn symbols_that_do_not_enclose_each_other_are_no_chain() {
    let siblings = vec![
        sym(0, 1, "Foo", SymbolKind::Class, (1, 100)),
        sym(1, 1, "Bar", SymbolKind::Class, (1, 100)),
        sym(2, 1, "leaf", SymbolKind::Method, (10, 20)),
    ];
    let crossing = vec![
        sym(0, 1, "Foo", SymbolKind::Class, (1, 50)),
        sym(1, 1, "Bar", SymbolKind::Class, (10, 100)),
        sym(2, 1, "leaf", SymbolKind::Method, (20, 30)),
    ];
    for s in [&siblings, &crossing] {
        assert!(match_name_path(s, "Foo/Bar/leaf", false, all(), 0).is_empty());
        assert!(match_name_path(s, "Bar/Foo/leaf", false, all(), 0).is_empty());
    }
    let nested = vec![
        sym(0, 1, "Foo", SymbolKind::Class, (1, 100)),
        sym(1, 1, "Bar", SymbolKind::Class, (5, 100)),
        sym(2, 1, "mid", SymbolKind::Class, (6, 90)),
        sym(3, 1, "leaf", SymbolKind::Method, (10, 20)),
    ];
    for query in ["Foo/Bar/leaf", "/Foo/Bar/leaf", "/Foo/mid/leaf", "Bar/mid/leaf"] {
        assert_eq!(
            ids(&match_name_path(&nested, query, false, all(), 0)),
            vec![(3, 0)],
            "{query}"
        );
    }
    assert!(match_name_path(&nested, "/Bar/mid/leaf", false, all(), 0).is_empty());
    assert!(match_name_path(&nested, "Bar/Foo/leaf", false, all(), 0).is_empty());
}
