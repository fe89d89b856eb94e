use astrolabe_core::graph::{dependents, CodeGraph};
use astrolabe_core::lsp::json::Json;
use astrolabe_core::lsp::router::{
    degrade_note, fallback_note, files_by_centrality, fuzzy_symbols, import_confidence,
    install_hint_for, language_of, name_matched_locations, never_raise, primary_server_name,
    resolved_name, scoped_note, symbol_at, Answer, DataSource, LspOp, LspProvider, Query,
    QueryKind, Router,
};
use astrolabe_core::lsp::{
    Diagnostic, LanguageServer, Location, LspError, Position, Range, Severity, TextEdit,
    WorkspaceEdit,
};
use astrolabe_core::types::{
    CodeEdge, CodeFile, CodeSymbol, Confidence, EdgeKind, FileId, Language, RelPath, SymbolId,
    SymbolKind,
};
use std::collections::HashMap;
use std::sync::{Arc, Mutex};

fn file(id: u32, path: &str) -> CodeFile {
    CodeFile {
        id: FileId(id),
        path: RelPath::new(path),
        language: Some(Language::Go),
        loc: 10,
        sha: String::new(),
    }
}

fn import(from: u32, to: u32, confidence: Confidence) -> CodeEdge {
    CodeEdge {
        from,
        to,
        kind: EdgeKind::Import,
        weight: 1,
        confidence,
    }
}

fn call(from: u32, to: u32) -> CodeEdge {
    CodeEdge {
        from,
        to,
        kind: EdgeKind::Call,
        weight: 1,
        confidence: Confidence::Syntactic,
    }
}

fn symbol(id: u32, file: u32, name: &str, line: u32) -> CodeSymbol {
    CodeSymbol {
        id: SymbolId(id),
        file: FileId(file),
        name: name.into(),
        kind: SymbolKind::Function,
        signature: format!("func {name}()"),
        start_line: line,
        end_line: line,
        exported: true,
    }
}

fn loc(path: &str, line: u32) -> Location {
    Location {
        path: RelPath::new(path),
        range: Range {
            start: Position { line, character: 0 },
            end: Position { line, character: 1 },
        },
    }
}

fn sample_graph() -> CodeGraph {
    CodeGraph {
        files: vec![file(0, "a.go"), file(1, "b.go"), file(2, "c.go")],
        symbols: vec![
            symbol(10, 0, "Foo", 1),
            symbol(11, 1, "Bar", 3),
            symbol(12, 2, "Baz", 5),
        ],
        edges: vec![
            import(0, 1, Confidence::Scoped),
            import(1, 2, Confidence::Scoped),
            call(10, 11),
        ],
    }
}

struct RecordingProvider {
    calls: Mutex<Vec<String>>,
    server: Option<FakeServer>,
    hint: String,
}


#[derive(Clone)]
struct FakeServer {
    language: Language,
    references: Vec<Location>,
    definition: Vec<Location>,
    diagnostics: Vec<Diagnostic>,
    rename: Vec<(RelPath, Range, String)>,
    calls: Arc<Mutex<Vec<String>>>,
}

impl LanguageServer for FakeServer {
    fn language(&self) -> Language {
        self.language
    }

    fn hover(
        &self,
        _path: &RelPath,
        _position: Position,
    ) -> Result<Json, LspError> {
        Ok(Json::Null)
    }

    fn references(
        &self,
        _path: &RelPath,
        _position: Position,
    ) -> Result<Vec<Location>, LspError> {
        self.calls
            .lock()
            .expect("call log poisoned")
            .push("references".into());
        Ok(self.references.clone())
    }

    fn definition(
        &self,
        _path: &RelPath,
        _position: Position,
    ) -> Result<Vec<Location>, LspError> {
        self.calls
            .lock()
            .expect("call log poisoned")
            .push("definition".into());
        Ok(self.definition.clone())
    }

    fn diagnostics(&self, _path: &RelPath) -> Result<Vec<Diagnostic>, LspError> {
        self.calls
            .lock()
            .expect("call log poisoned")
            .push("diagnostics".into());
        Ok(self.diagnostics.clone())
    }

    fn prepare_rename(
        &self,
        _path: &RelPath,
        _position: Position,
        _new_name: &str,
    ) -> Result<WorkspaceEdit, LspError> {
        self.calls
            .lock()
            .expect("call log poisoned")
            .push("prepare_rename".into());
        Ok(WorkspaceEdit {
            edits: self
                .rename
                .iter()
                .map(|(path, range, new_text)| {
                    let edit = TextEdit {
                        range: *range,
                        new_text: new_text.clone(),
                    };
                    (path.clone(), vec![edit])
                })
                .collect(),
        })
    }

    fn memory_bytes(&self) -> Option<u64> {
        None
    }

    fn shutdown(&self) -> Result<(), LspError> {
        Ok(())
    }
}

impl RecordingProvider {
    fn available(server: FakeServer) -> Self {
        Self {
            hint: install_hint_for(server.language).to_string(),
            server: Some(server),
            calls: Mutex::new(Vec::new()),
        }
    }

    fn missing(language: Language) -> Self {
        Self {
            hint: install_hint_for(language).to_string(),
            server: None,
            calls: Mutex::new(Vec::new()),
        }
    }

    fn acquires(&self) -> Vec<String> {
        self.calls.lock().expect("call log poisoned").clone()
    }

    fn server_calls(&self) -> Vec<String> {
        self.server
            .as_ref()
            .map(|s| s.calls.lock().expect("call log poisoned").clone())
            .unwrap_or_default()
    }
}

impl LspProvider for RecordingProvider {
    type Server = FakeServer;

    fn acquire(&self, language: Language) -> Result<FakeServer, LspError> {
        self.calls
            .lock()
            .expect("call log poisoned")
            .push(format!("acquire:{}", language.name()));
        match &self.server {
            Some(server) => Ok(server.clone()),
            None => Err(LspError::Unavailable(language, self.hint.clone())),
        }
    }

    fn install_hint(&self, _language: Language) -> String {
        self.hint.clone()
    }
}

fn pos() -> Position {
    Position {
        line: 0,
        character: 0,
    }
}

fn refs_query() -> Query {
    Query::PreciseReferences {
        path: RelPath::new("a.go"),
        position: pos(),
        symbol: Some("Foo".into()),
    }
}

#[test]
fn routing_table_covers_every_kind_and_is_static() {
    let mut lsp_kinds = 0;
    let mut graph_kinds = 0;
    for kind in QueryKind::ALL {
        match kind.source() {
            DataSource::Graph => graph_kinds += 1,
            DataSource::LanguageServer => lsp_kinds += 1,
        }
    }
    assert_eq!(QueryKind::ALL.len(), 9);
    assert_eq!(graph_kinds, 5);
    assert_eq!(lsp_kinds, 4);
    assert_eq!(
        QueryKind::PreciseReferences.source(),
        DataSource::LanguageServer
    );
    assert_eq!(QueryKind::FileImpact.source(), DataSource::Graph);
}

#[test]
fn file_level_queries_do_not_touch_lsp() {
    let scores = HashMap::new();
    let g = sample_graph();
    let provider = RecordingProvider::available(FakeServer {
        language: Language::Go,
        references: vec![loc("hit.go", 0)],
        definition: vec![loc("hit.go", 0)],
        diagnostics: Vec::new(),
        rename: Vec::new(),
        calls: Arc::new(Mutex::new(Vec::new())),
    });
    let router = Router::new(&g, &scores, Some(&provider));

    for q in [
        Query::FileDependencies { target: FileId(0) },
        Query::FileImpact { target: FileId(2) },
        Query::RepoSkeleton,
        Query::TaskRank {
            task: "fix Foo in a.go".into(),
        },
        Query::FuzzySymbol {
            query: "Foo".into(),
        },
    ] {
        let routed = router.route(&q, &scores);
        assert_eq!(routed.planned, DataSource::Graph, "{:?}", q.kind());
        assert_eq!(routed.used, DataSource::Graph, "{:?}", q.kind());
    }
    assert!(
        provider.acquires().is_empty(),
        "graph-routed kinds started a language server: {:?}",
        provider.acquires()
    );
    assert!(
        provider.server_calls().is_empty(),
        "graph-routed kinds invoked LanguageServer methods: {:?}",
        provider.server_calls()
    );
}

#[test]
fn symbol_level_queries_call_lsp() {
    let scores = HashMap::new();
    let g = sample_graph();
    let provider = RecordingProvider::available(FakeServer {
        language: Language::Go,
        references: vec![loc("a.go", 0), loc("b.go", 2)],
        definition: vec![loc("a.go", 0)],
        diagnostics: vec![Diagnostic {
            path: RelPath::new("a.go"),
            range: Range {
                start: pos(),
                end: Position {
                    line: 0,
                    character: 1,
                },
            },
            severity: Severity::Error,
            message: "unused".into(),
            code: None,
        }],
        rename: vec![(
            RelPath::new("a.go"),
            Range {
                start: pos(),
                end: Position {
                    line: 0,
                    character: 3,
                },
            },
            "Quux".into(),
        )],
        calls: Arc::new(Mutex::new(Vec::new())),
    });
    let router = Router::new(&g, &scores, Some(&provider));

    let refs = router.route(&refs_query(), &scores);
    assert_eq!(refs.planned, DataSource::LanguageServer);
    assert_eq!(refs.used, DataSource::LanguageServer);
    assert_eq!(refs.confidence, Confidence::Exact);
    assert!(refs.note.is_none());

    let def = router.route(&Query::GotoDefinition {
        path: RelPath::new("a.go"),
        position: pos(),
        symbol: Some("Foo".into()),
    }, &scores);
    assert_eq!(def.used, DataSource::LanguageServer);
    assert_eq!(def.confidence, Confidence::Exact);

    let diags = router.route(&Query::Diagnostics {
        path: RelPath::new("a.go"),
    }, &scores);
    assert_eq!(diags.used, DataSource::LanguageServer);
    assert_eq!(diags.confidence, Confidence::Exact);

    let rename = router.route(&Query::PrepareRename {
        path: RelPath::new("a.go"),
        position: pos(),
        new_name: "Quux".into(),
    }, &scores);
    assert_eq!(rename.used, DataSource::LanguageServer);
    assert_eq!(rename.confidence, Confidence::Exact);

    let acquires = provider.acquires();
    assert_eq!(acquires.len(), 4);
    assert!(acquires.iter().all(|c| c == "acquire:go"));
    let methods = provider.server_calls();
    assert_eq!(
        methods,
        vec!["references", "definition", "diagnostics", "prepare_rename"]
    );
}

#[test]
fn unavailable_lsp_degrades_references_to_syntactic_graph() {
    let scores = HashMap::new();
    let g = sample_graph();
    let provider = RecordingProvider::missing(Language::Go);
    let router = Router::new(&g, &scores, Some(&provider));
    let routed = router.route(&refs_query(), &scores);

    assert_eq!(routed.planned, DataSource::LanguageServer);
    assert_eq!(routed.used, DataSource::Graph);
    assert_eq!(routed.confidence, Confidence::Syntactic);
    assert_ne!(routed.confidence, Confidence::Exact);
    match &routed.value {
        Answer::Locations(locs) => {
            assert!(
                !locs.is_empty(),
                "degradation must surface graph matches, not an empty Exact list"
            );
            assert!(locs.iter().any(|l| l.path.as_str() == "a.go"));
        }
        other => panic!("expected Locations, got {other:?}"),
    }
    assert_eq!(provider.acquires(), vec!["acquire:go".to_string()]);
}

#[test]
fn degrade_note_is_nonempty_and_names_the_server() {
    let scores = HashMap::new();
    let g = sample_graph();
    let provider = RecordingProvider::missing(Language::Go);
    let router = Router::new(&g, &scores, Some(&provider));
    let routed = router.route(&refs_query(), &scores);
    let note = routed
        .note
        .expect("degraded answers must explain themselves");
    assert!(!note.is_empty());
    assert!(
        note.contains("gopls"),
        "note must say what to install, got {note:?}"
    );
    assert!(
        note.to_lowercase().contains("install")
            || note.contains("go install")
            || note.contains("unavail"),
        "note must be actionable, got {note:?}"
    );
}

#[test]
fn missing_provider_also_degrades_and_mentions_gopls() {
    let scores = HashMap::new();
    let g = sample_graph();
    let router = Router::new(&g, &scores, None::<&RecordingProvider>);
    let routed = router.route(&refs_query(), &scores);
    assert_eq!(routed.confidence, Confidence::Syntactic);
    assert_eq!(routed.used, DataSource::Graph);
    let note = routed.note.expect("note");
    assert!(note.contains("gopls"), "{note}");
}

#[test]
fn file_level_scoped_is_not_promoted_to_exact() {
    let scores = HashMap::new();
    let g = sample_graph();
    let provider = RecordingProvider::available(FakeServer {
        language: Language::Go,
        references: Vec::new(),
        definition: Vec::new(),
        diagnostics: Vec::new(),
        rename: Vec::new(),
        calls: Arc::new(Mutex::new(Vec::new())),
    });
    let router = Router::new(&g, &scores, Some(&provider));
    let impact = router.route(&Query::FileImpact { target: FileId(2) }, &scores);
    assert_eq!(impact.confidence, Confidence::Scoped);
    assert_ne!(impact.confidence, Confidence::Exact);
    match &impact.value {
        Answer::Files(ids) => {
            assert!(ids.contains(&FileId(0)));
            assert!(ids.contains(&FileId(1)));
        }
        other => panic!("expected Files, got {other:?}"),
    }
    assert!(provider.acquires().is_empty());
}

#[test]
fn syntactic_import_edges_are_not_promoted() {
    let scores = HashMap::new();
    let mut g = sample_graph();
    for e in &mut g.edges {
        if e.kind == EdgeKind::Import {
            e.confidence = Confidence::Syntactic;
        }
    }
    let router = Router::new(&g, &scores, None::<&RecordingProvider>);
    let deps = router.route(&Query::FileDependencies { target: FileId(0) }, &scores);
    assert_eq!(deps.confidence, Confidence::Syntactic);
    assert_ne!(deps.confidence, Confidence::Scoped);
    assert_ne!(deps.confidence, Confidence::Exact);
}

#[test]
fn never_raise_caps_claimed_above_source() {
    assert_eq!(
        never_raise(Confidence::Syntactic, Confidence::Exact),
        Confidence::Syntactic
    );
    assert_eq!(
        never_raise(Confidence::Scoped, Confidence::Exact),
        Confidence::Scoped
    );
    assert_eq!(
        never_raise(Confidence::Unknown, Confidence::Syntactic),
        Confidence::Unknown
    );
    assert_eq!(
        never_raise(Confidence::Exact, Confidence::Exact),
        Confidence::Exact
    );
    assert_eq!(
        never_raise(Confidence::Exact, Confidence::Syntactic),
        Confidence::Syntactic
    );
}

#[test]
fn lsp_empty_result_is_not_backfilled_from_graph() {
    let scores = HashMap::new();
    let g = sample_graph();
    let provider = RecordingProvider::available(FakeServer {
        language: Language::Go,
        references: Vec::new(),
        definition: Vec::new(),
        diagnostics: Vec::new(),
        rename: Vec::new(),
        calls: Arc::new(Mutex::new(Vec::new())),
    });
    let router = Router::new(&g, &scores, Some(&provider));
    let routed = router.route(&refs_query(), &scores);
    assert_eq!(routed.confidence, Confidence::Exact);
    assert_eq!(routed.used, DataSource::LanguageServer);
    match &routed.value {
        Answer::Locations(locs) => assert!(
            locs.is_empty(),
            "an Exact empty list means 'no references', not 'fill from the graph'"
        ),
        other => panic!("expected Locations, got {other:?}"),
    }
}

#[test]
fn definition_degrades_to_syntactic_name_match() {
    let scores = HashMap::new();
    let g = sample_graph();
    let provider = RecordingProvider::missing(Language::Go);
    let router = Router::new(&g, &scores, Some(&provider));
    let routed = router.route(&Query::GotoDefinition {
        path: RelPath::new("b.go"),
        position: Position {
            line: 2,
            character: 0,
        },
        symbol: Some("Bar".into()),
    }, &scores);
    assert_eq!(routed.confidence, Confidence::Syntactic);
    assert_eq!(routed.used, DataSource::Graph);
    match &routed.value {
        Answer::Locations(locs) => {
            assert!(locs.iter().any(|l| l.path.as_str() == "b.go"));
        }
        other => panic!("expected Locations, got {other:?}"),
    }
    let note = routed.note.expect("note");
    assert!(note.contains("gopls"), "{note}");
}

#[test]
fn diagnostics_without_lsp_are_unknown_not_clean() {
    let scores = HashMap::new();
    let g = sample_graph();
    let provider = RecordingProvider::missing(Language::Go);
    let router = Router::new(&g, &scores, Some(&provider));
    let routed = router.route(&Query::Diagnostics {
        path: RelPath::new("a.go"),
    }, &scores);
    assert_eq!(routed.planned, DataSource::LanguageServer);
    assert_eq!(routed.confidence, Confidence::Unknown);
    assert_ne!(routed.confidence, Confidence::Exact);
    match &routed.value {
        Answer::Diagnostics(d) => assert!(d.is_empty()),
        other => panic!("expected Diagnostics, got {other:?}"),
    }
    let note = routed.note.expect("note");
    assert!(note.contains("gopls"), "{note}");
}

#[test]
fn file_impact_matches_graph_dependents() {
    let scores = HashMap::new();
    let g = sample_graph();
    let router = Router::new(&g, &scores, None::<&RecordingProvider>);
    let routed = router.route(&Query::FileImpact { target: FileId(2) }, &scores);
    match routed.value {
        Answer::Files(ids) => assert_eq!(ids, dependents(&g, FileId(2), &scores)),
        other => panic!("expected Files, got {other:?}"),
    }
}

#[test]
fn precise_wraps_without_raising() {
    let scores = HashMap::new();
    let g = sample_graph();
    let routed = Router::new(&g, &scores, None::<&RecordingProvider>).route(&refs_query(), &scores);
    let precise = routed.precise();
    assert_eq!(precise.confidence, Confidence::Syntactic);
    assert!(precise.note.is_some());
}

fn scored(scores: &[(u32, f64)]) -> HashMap<u32, u64> {
    scores.iter().map(|(id, s)| (*id, s.to_bits())).collect()
}

#[test]
fn files_are_listed_by_their_scores() {
    let g = sample_graph();
    let base = scored(&[(0, 0.25), (1, 0.5), (2, 0.25)]);
    let ranked = files_by_centrality(&g, &base);
    let ids: Vec<u32> = ranked.iter().map(|(id, _)| id.0).collect();
    assert_eq!(ids, vec![1, 0, 2]);
    assert_eq!(f64::from_bits(ranked[0].1), 0.5);

    let task = scored(&[(2, 0.9)]);
    let router = Router::new(&g, &base, None::<&RecordingProvider>);
    let routed = router.route(
        &Query::TaskRank {
            task: "fix Baz".into(),
        },
        &task,
    );
    match routed.value {
        Answer::RankedFiles(files) => assert_eq!(files[0].0, FileId(2)),
        other => panic!("expected RankedFiles, got {other:?}"),
    }
    match router.route(&Query::RepoSkeleton, &task).value {
        Answer::RankedFiles(files) => assert_eq!(files[0].0, FileId(1)),
        other => panic!("expected RankedFiles, got {other:?}"),
    }
}

#[test]
fn symbols_are_found_by_a_part_of_their_name() {
    let g = sample_graph();
    assert_eq!(fuzzy_symbols(&g, "ba"), vec![SymbolId(11), SymbolId(12)]);
    assert_eq!(fuzzy_symbols(&g, "FOO"), vec![SymbolId(10)]);
    assert!(fuzzy_symbols(&g, "nothing").is_empty());
}

#[test]
fn the_symbol_around_a_position_gives_its_name() {
    let g = sample_graph();
    let at = Position {
        line: 2,
        character: 4,
    };
    let path = RelPath::new("b.go");
    assert_eq!(symbol_at(&g, &path, at).unwrap().name, "Bar");
    assert_eq!(resolved_name(&g, &path, at, None), "Bar");
    assert!(symbol_at(&g, &RelPath::new("a.go"), at).is_none());
    let hits = name_matched_locations(&g, "Bar", LspOp::Definition);
    assert_eq!(hits.len(), 1);
    assert_eq!(hits[0].path.as_str(), "b.go");
}

#[test]
fn languages_are_those_of_the_files() {
    let g = sample_graph();
    assert_eq!(language_of(&g, &RelPath::new("a.go")), Language::Go);
    assert_eq!(language_of(&g, &RelPath::new("x.py")), Language::Python);
    assert_eq!(primary_server_name(Language::Rust), "rust-analyzer");
}

#[test]
fn imports_bound_the_confidence() {
    let mut g = sample_graph();
    assert_eq!(import_confidence(&g), Confidence::Scoped);
    g.edges.push(import(2, 0, Confidence::Syntactic));
    assert_eq!(import_confidence(&g), Confidence::Syntactic);
}

#[test]
fn doubtful_answers_say_why() {
    for confidence in [
        Confidence::Scoped,
        Confidence::Syntactic,
        Confidence::Unknown,
    ] {
        assert!(!fallback_note(confidence).is_empty());
    }
    assert!(!scoped_note().is_empty());
    let note = degrade_note("references", Language::Go, &LspError::Crashed, "hint");
    assert!(note.contains("gopls") || note.contains("hint"));
}

#[test]
fn renames_without_a_server_are_refused() {
    let scores = HashMap::new();
    let g = sample_graph();
    let provider = RecordingProvider::missing(Language::Go);
    let router = Router::new(&g, &scores, Some(&provider));
    let routed = router.route(
        &Query::PrepareRename {
            path: RelPath::new("a.go"),
            position: pos(),
            new_name: "Quux".into(),
        },
        &scores,
    );
    assert_eq!(routed.confidence, Confidence::Unknown);
    assert_eq!(routed.kind, QueryKind::PrepareRename);
    match routed.value {
        Answer::Edits(edit) => assert!(edit.edits.is_empty()),
        other => panic!("expected Edits, got {other:?}"),
    }
    assert!(routed.note.is_some());
}
