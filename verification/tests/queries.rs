use astrolabe_core::lsp::json::{list1, table1, table2, Json};
use astrolabe_core::lsp::queries::{
    definition_answer, display_external, first_identifier_position, format_external_list, hover_answer,
    hover_params, hover_site_failed, is_ident_char, marked_string_text, parse_hover,
    references_answer, resolve_definition_position, resolve_hover_site, resolve_named_hover_site,
    resolve_named_site, site_from_definition, Ask, AskHover, SymbolAt, HOVER_METHOD,
};
use astrolabe_core::lsp::queries;
use astrolabe_core::lsp::uri::{lsp_path_to_rel, path_to_resolve, RepoRoot};
use astrolabe_core::lsp::{LspError, Location, Position, Precise, Range};
use astrolabe_core::types::{Confidence, Language, RelPath};
use std::sync::Mutex;

#[derive(Clone)]
enum Script {
    Hits(Vec<Location>),
    Unavailable(&'static str),
    Timeout,
    Crashed,
    Startup,
    Protocol,
}

impl Script {
    fn result(&self, language: Language) -> Result<Vec<Location>, LspError> {
        match self {
            Script::Hits(hits) => Ok(hits.clone()),
            Script::Unavailable(msg) => Err(LspError::Unavailable(language, (*msg).into())),
            Script::Timeout => Err(LspError::Timeout(8_000)),
            Script::Crashed => Err(LspError::Crashed),
            Script::Startup => Err(LspError::Startup(language, "spawn failed".into())),
            Script::Protocol => Err(LspError::Protocol("broken response".into())),
        }
    }
}

struct FakeServer {
    language: Language,
    references: Script,
    definition: Script,
    ref_calls: Mutex<Vec<(RelPath, Position)>>,
    def_calls: Mutex<Vec<(RelPath, Position)>>,
    busy: bool,
}

impl FakeServer {
    fn still_indexing() -> Self {
        Self {
            busy: true,
            ..Self::refs(Vec::new())
        }
    }

    fn refs(hits: Vec<Location>) -> Self {
        Self {
            language: Language::Go,
            references: Script::Hits(hits),
            definition: Script::Hits(Vec::new()),
            ref_calls: Mutex::new(Vec::new()),
            def_calls: Mutex::new(Vec::new()),
            busy: false,
        }
    }

    fn failing(script: Script) -> Self {
        Self {
            language: Language::Go,
            references: script.clone(),
            definition: script,
            ref_calls: Mutex::new(Vec::new()),
            def_calls: Mutex::new(Vec::new()),
            busy: false,
        }
    }

    fn references(&self, path: &RelPath, position: Position) -> Result<Vec<Location>, LspError> {
        self.ref_calls
            .lock()
            .unwrap()
            .push((path.clone(), position));
        self.references.result(self.language)
    }

    fn definition(&self, path: &RelPath, position: Position) -> Result<Vec<Location>, LspError> {
        self.def_calls
            .lock()
            .unwrap()
            .push((path.clone(), position));
        self.definition.result(self.language)
    }
}

/// A repository: its root and the files that can be read in it.
struct Repo {
    root: RepoRoot,
    files: Vec<(String, String)>,
}

impl Repo {
    fn at(root: &str) -> Self {
        Repo {
            root: RepoRoot::plain(root),
            files: Vec::new(),
        }
    }

    fn with(files: &[(&str, &str)]) -> Self {
        Repo {
            root: RepoRoot::plain("/tmp/astrolabe-lsp-queries"),
            files: files
                .iter()
                .map(|(path, text)| (path.to_string(), text.to_string()))
                .collect(),
        }
    }

    fn read(&self, path: &RelPath) -> Result<&str, &str> {
        self.files
            .iter()
            .find(|(name, _)| name == path.as_str())
            .map(|(_, text)| text.as_str())
            .ok_or("No such file or directory")
    }
}

fn name_of<'a>(target: &SymbolAt<'a>) -> &'a str {
    match target {
        SymbolAt::Name(name) => name,
        SymbolAt::Position(_) => "",
    }
}

fn find_references(
    server: Option<&FakeServer>,
    repo: &Repo,
    path: &RelPath,
    target: SymbolAt<'_>,
) -> Precise<Vec<Location>> {
    let name = name_of(&target);
    let mut ask = queries::find_references(server.is_some(), path, target);
    loop {
        ask = match ask {
            Ask::Answer(answer) => return answer,
            Ask::Source => resolve_named_site(path, name, repo.read(path)),
            Ask::Definition(position) => {
                let reply = server.unwrap().definition(path, position);
                site_from_definition(path, position, &reply, &repo.root)
            }
            Ask::References(at, position) => {
                let server = server.unwrap();
                let reply = server.references(&at, position);
                return references_answer(&reply, server.busy, &repo.root, path);
            }
        };
    }
}

fn goto_definition(
    server: Option<&FakeServer>,
    repo: &Repo,
    path: &RelPath,
    target: SymbolAt<'_>,
) -> Precise<Vec<Location>> {
    let name = name_of(&target);
    let mut ask = queries::goto_definition(server.is_some(), path, target);
    loop {
        ask = match ask {
            Ask::Answer(answer) => return answer,
            Ask::Source => resolve_definition_position(path, name, repo.read(path)),
            Ask::Definition(position) => {
                let server = server.unwrap();
                let reply = server.definition(path, position);
                return definition_answer(&reply, server.busy, &repo.root, path);
            }
            Ask::References(..) => unreachable!(),
        };
    }
}

fn hover(
    server: Option<&FakeServer>,
    repo: &Repo,
    path: &RelPath,
    target: SymbolAt<'_>,
    issue: impl FnOnce(RelPath, Position) -> Result<Json, LspError>,
) -> Precise<Option<String>> {
    let name = name_of(&target);
    let mut ask = queries::hover(server.is_some(), path, target);
    loop {
        ask = match ask {
            AskHover::Answer(answer) => return answer,
            AskHover::Source => resolve_named_hover_site(path, name, repo.read(path)),
            AskHover::Definition(position) => {
                let server = server.unwrap();
                let reply = server.definition(path, position);
                resolve_hover_site(path, position, &reply, server.busy, &repo.root)
            }
            AskHover::Hover(at, position) => {
                let reply = issue(at, position);
                return hover_answer(&reply, server.unwrap().busy);
            }
        };
    }
}

fn pos(line: u32, character: u32) -> Position {
    Position { line, character }
}

fn loc(path: &str, line: u32, character: u32) -> Location {
    Location {
        path: RelPath::new(path),
        range: Range {
            start: pos(line, character),
            end: pos(line, character + 1),
        },
    }
}

fn contents(value: Json) -> Json {
    table1("contents", value)
}

fn markup(kind: &str, value: &str) -> Json {
    table2("kind", Json::text(kind), "value", Json::text(value))
}

fn at(line: u64, character: u64) -> Json {
    table2(
        "line",
        Json::number(line),
        "character",
        Json::number(character),
    )
}

fn assert_unknown_empty(result: &Precise<Vec<Location>>) {
    assert!(result.value.is_empty());
    assert_eq!(result.confidence, Confidence::Unknown);
    let note = result.note.as_deref().unwrap_or("");
    assert!(!note.is_empty(), "Unknown results must explain themselves");
}

#[test]
fn references_sort_dedup_and_prefer_origin_file() {
    let server = FakeServer::refs(vec![
        loc("pkg/z.go", 4, 2),
        loc("pkg/a.go", 9, 0),
        loc("pkg/a.go", 1, 5),
        loc("pkg/a.go", 1, 5),
        loc("pkg/z.go", 4, 2),
        loc("pkg/origin.go", 3, 1),
        loc("pkg/a.go", 1, 0),
    ]);
    let origin = RelPath::new("pkg/origin.go");
    let first = find_references(
        Some(&server),
        &Repo::at("/repo"),
        &origin,
        SymbolAt::Position(pos(3, 1)),
    );
    let second = find_references(
        Some(&server),
        &Repo::at("/repo"),
        &origin,
        SymbolAt::Position(pos(3, 1)),
    );

    assert_eq!(first.confidence, Confidence::Exact);
    assert!(first.note.is_none());
    assert_eq!(
        first.value,
        vec![
            loc("pkg/origin.go", 3, 1),
            loc("pkg/a.go", 1, 0),
            loc("pkg/a.go", 1, 5),
            loc("pkg/a.go", 9, 0),
            loc("pkg/z.go", 4, 2),
        ]
    );
    assert_eq!(first.value, second.value);
}

#[test]
fn truly_empty_references_are_exact_not_unknown() {
    let server = FakeServer::refs(Vec::new());
    let result = find_references(
        Some(&server),
        &Repo::at("/repo"),
        &RelPath::new("main.go"),
        SymbolAt::Position(pos(0, 0)),
    );
    assert!(result.value.is_empty());
    assert_eq!(result.confidence, Confidence::Exact);
    assert!(result.note.is_none());
}

#[test]
fn file_uri_percent_decodes_spaces_and_unicode() {
    let root = &RepoRoot::plain("/repo/my project");
    assert_eq!(
        lsp_path_to_rel("file:///repo/my%20project/src/a.rs", root)
            .unwrap()
            .as_str(),
        "src/a.rs"
    );
    assert_eq!(
        lsp_path_to_rel("file:///repo/my%20project/src/weird%20name.go", root)
            .unwrap()
            .as_str(),
        "src/weird name.go"
    );
    assert_eq!(
        lsp_path_to_rel("file:///repo/my%20project/src/%E6%B5%8B.go", root)
            .unwrap()
            .as_str(),
        "src/测.go"
    );
    assert_eq!(
        lsp_path_to_rel("FILE://localhost/repo/my%20project/lib.rs", root)
            .unwrap()
            .as_str(),
        "lib.rs"
    );
    assert_eq!(
        lsp_path_to_rel("file:///repo/my%20project/a+b.rs", root)
            .unwrap()
            .as_str(),
        "a+b.rs"
    );
}

#[test]
fn references_convert_file_uris_end_to_end() {
    let server = FakeServer::refs(vec![
        loc("file:///repo/src/has%20space.go", 2, 0),
        loc("file:///repo/src/lib.go", 8, 4),
    ]);
    let result = find_references(
        Some(&server),
        &Repo::at("/repo"),
        &RelPath::new("src/lib.go"),
        SymbolAt::Position(pos(1, 0)),
    );
    assert_eq!(result.confidence, Confidence::Exact);
    assert_eq!(result.value[0].path.as_str(), "src/lib.go");
    assert_eq!(result.value[1].path.as_str(), "src/has space.go");
}

#[test]
fn out_of_repo_paths_are_omitted_and_named() {
    let server = FakeServer::refs(vec![
        loc("file:///repo/src/main.go", 1, 0),
        loc("file:///usr/lib/go/src/fmt/print.go", 40, 2),
        loc("file:///Users/me/go/pkg/mod/github.com/x@v1/y.go", 3, 0),
    ]);
    let result = find_references(
        Some(&server),
        &Repo::at("/repo"),
        &RelPath::new("src/main.go"),
        SymbolAt::Position(pos(1, 0)),
    );
    assert_eq!(result.confidence, Confidence::Exact);
    assert_eq!(result.value, vec![loc("src/main.go", 1, 0)]);
    let note = result.note.as_deref().unwrap();
    assert!(note.contains("outside the repository"));
    assert!(note.contains("/usr/lib/go/src/fmt/print.go"));
}

#[test]
fn all_external_hits_stay_exact_with_an_explanatory_note() {
    let server = FakeServer::refs(vec![loc("file:///usr/lib/go/src/fmt/print.go", 1, 0)]);
    let result = find_references(
        Some(&server),
        &Repo::at("/repo"),
        &RelPath::new("src/main.go"),
        SymbolAt::Position(pos(1, 0)),
    );
    assert!(result.value.is_empty());
    assert_eq!(result.confidence, Confidence::Exact);
    assert!(result
        .note
        .as_deref()
        .unwrap()
        .contains("sit outside the repository"));
}

#[test]
fn missing_server_is_unknown_with_a_non_empty_note() {
    let result = find_references(
        None,
        &Repo::at("/repo"),
        &RelPath::new("cmd/app.go"),
        SymbolAt::Position(pos(0, 0)),
    );
    assert_unknown_empty(&result);
    let note = result.note.as_deref().unwrap();
    assert!(note.contains("gopls is not installed"));
    assert!(note.contains("search_code"));
    assert!(note.contains("false positives"));
}

#[test]
fn unavailable_error_is_unknown_with_a_non_empty_note() {
    let server = FakeServer::failing(Script::Unavailable(
        "gopls not found on PATH; install with `go install golang.org/x/tools/gopls@latest`",
    ));
    let result = find_references(
        Some(&server),
        &Repo::at("/repo"),
        &RelPath::new("main.go"),
        SymbolAt::Position(pos(0, 0)),
    );
    assert_unknown_empty(&result);
    let note = result.note.as_deref().unwrap();
    assert!(note.contains("gopls not found on PATH"));
    assert!(note.contains("search_code"));
    assert_ne!(result.confidence, Confidence::Exact);
}

#[test]
fn timeout_and_crash_are_unknown_not_empty_exact() {
    for script in [
        Script::Timeout,
        Script::Crashed,
        Script::Startup,
        Script::Protocol,
    ] {
        let server = FakeServer::failing(script);
        let refs = find_references(
            Some(&server),
            &Repo::at("/repo"),
            &RelPath::new("main.go"),
            SymbolAt::Position(pos(0, 0)),
        );
        assert_unknown_empty(&refs);
        assert!(refs.note.as_deref().unwrap().contains("search_code"));

        let defs = goto_definition(
            Some(&server),
            &Repo::at("/repo"),
            &RelPath::new("main.go"),
            SymbolAt::Position(pos(0, 0)),
        );
        assert_unknown_empty(&defs);
        let def_note = defs.note.as_deref().unwrap();
        assert!(
            def_note.contains("definitions"),
            "goto_definition degrade must be definition-specific, got: {def_note}"
        );
        assert!(
            !def_note.contains("precise references"),
            "goto_definition must not reuse references degrade text, got: {def_note}"
        );
        assert!(def_note.contains("search_code"));
    }
}

#[test]
fn goto_definition_normalizes_and_filters() {
    let mut server = FakeServer::refs(Vec::new());
    server.definition = Script::Hits(vec![
        loc("file:///repo/src/lib.go", 10, 4),
        loc("file:///repo/src/lib.go", 10, 4),
        loc("file:///usr/lib/go/src/builtin/builtin.go", 1, 0),
    ]);
    let result = goto_definition(
        Some(&server),
        &Repo::at("/repo"),
        &RelPath::new("src/main.go"),
        SymbolAt::Position(pos(3, 2)),
    );
    assert_eq!(result.confidence, Confidence::Exact);
    assert_eq!(result.value, vec![loc("src/lib.go", 10, 4)]);
    assert!(result.note.as_deref().unwrap().contains("omitted 1"));
}

#[test]
fn named_query_uses_first_identifier_and_unique_definition() {
    let repo = Repo::with(&[(
        "src/main.go",
        "package p\n\nfunc helper() {}\n\nfunc Run() { helper() }\n",
    )]);
    let mut server =
        FakeServer::refs(vec![loc("src/main.go", 2, 5), loc("src/main.go", 4, 13)]);
    server.definition = Script::Hits(vec![loc("src/main.go", 2, 5)]);

    let result = find_references(
        Some(&server),
        &repo,
        &RelPath::new("src/main.go"),
        SymbolAt::Name("helper"),
    );
    assert_eq!(result.confidence, Confidence::Exact);
    assert_eq!(result.value.len(), 2);

    let def_calls = server.def_calls.lock().unwrap().clone();
    assert_eq!(def_calls.len(), 1);
    assert_eq!(def_calls[0].1, pos(2, 5));

    let ref_calls = server.ref_calls.lock().unwrap().clone();
    assert_eq!(ref_calls, vec![(RelPath::new("src/main.go"), pos(2, 5))]);
}

#[test]
fn named_query_skips_partial_identifier_matches() {
    let repo = Repo::with(&[("pkg/util.go", "func foobar() { foo() }\n")]);
    let server = FakeServer::refs(vec![loc("pkg/util.go", 0, 16)]);
    let result = find_references(
        Some(&server),
        &repo,
        &RelPath::new("pkg/util.go"),
        SymbolAt::Name("foo"),
    );
    assert_eq!(result.confidence, Confidence::Exact);
    let def_calls = server.def_calls.lock().unwrap().clone();
    assert_eq!(def_calls[0].1, pos(0, 16));
}

#[test]
fn named_query_utf16_column_counts_cjk_and_emoji() {
    let repo = Repo::with(&[("src/lib.go", "你好 😀 foo\n")]);
    let server = FakeServer::refs(Vec::new());
    let _ = find_references(
        Some(&server),
        &repo,
        &RelPath::new("src/lib.go"),
        SymbolAt::Name("foo"),
    );
    let def_calls = server.def_calls.lock().unwrap().clone();
    assert_eq!(def_calls[0].1, pos(0, 6));
}

#[test]
fn missing_symbol_name_is_unknown() {
    let repo = Repo::with(&[("src/lib.go", "package p\n")]);
    let server = FakeServer::refs(Vec::new());
    let result = find_references(
        Some(&server),
        &repo,
        &RelPath::new("src/lib.go"),
        SymbolAt::Name("absent"),
    );
    assert_unknown_empty(&result);
    assert!(result.note.as_deref().unwrap().contains("`absent`"));
    assert!(server.ref_calls.lock().unwrap().is_empty());
}

#[test]
fn invalid_percent_encoding_is_treated_as_external() {
    assert!(lsp_path_to_rel("file:///repo/src/%zz.go", &RepoRoot::plain("/repo")).is_none());
    assert!(lsp_path_to_rel("file://host/share/x.go", &RepoRoot::plain("/repo")).is_none());
    assert!(lsp_path_to_rel("../outside.go", &RepoRoot::plain("/repo")).is_none());
}

#[test]
fn already_relative_paths_pass_through() {
    assert_eq!(
        lsp_path_to_rel("src/lib.go", &RepoRoot::plain("/repo"))
            .unwrap()
            .as_str(),
        "src/lib.go"
    );
    assert_eq!(
        lsp_path_to_rel("/repo/src/lib.go", &RepoRoot::plain("/repo"))
            .unwrap()
            .as_str(),
        "src/lib.go"
    );
    assert_eq!(
        lsp_path_to_rel("repo/src/a.rs", &RepoRoot::plain("/repo"))
            .unwrap()
            .as_str(),
        "repo/src/a.rs"
    );
    assert_eq!(
        lsp_path_to_rel("Users/me/proj/src/lib.go", &RepoRoot::plain("/Users/me/proj"))
            .unwrap()
            .as_str(),
        "src/lib.go"
    );
    assert_eq!(
        lsp_path_to_rel("Users/me/projectile/src/lib.go", &RepoRoot::plain("/Users/me/proj"))
        .unwrap()
        .as_str(),
        "Users/me/projectile/src/lib.go"
    );
}

#[test]
fn empty_result_from_a_still_indexing_server_is_not_authoritative() {
    let server = FakeServer::still_indexing();
    let root = Repo::at("/tmp");
    let path = RelPath::new("main.go");

    let result = find_references(
        Some(&server),
        &root,
        &path,
        SymbolAt::Position(Position {
            line: 0,
            character: 0,
        }),
    );

    assert_eq!(result.confidence, Confidence::Unknown);
    assert!(result.value.is_empty());
    assert!(
        result.note.is_some(),
        "the caller has to be told why the empty answer is untrusted"
    );
}

#[test]
fn empty_result_from_a_ready_server_stays_authoritative() {
    let server = FakeServer::refs(Vec::new());
    let root = Repo::at("/tmp");
    let path = RelPath::new("main.go");

    let result = find_references(
        Some(&server),
        &root,
        &path,
        SymbolAt::Position(Position {
            line: 0,
            character: 0,
        }),
    );

    assert_eq!(result.confidence, Confidence::Exact);
    assert!(result.value.is_empty());
}

#[test]
fn empty_definition_from_a_still_indexing_server_is_not_authoritative() {
    let server = FakeServer::still_indexing();
    let root = Repo::at("/tmp");
    let path = RelPath::new("main.go");

    let result = goto_definition(
        Some(&server),
        &root,
        &path,
        SymbolAt::Position(Position {
            line: 0,
            character: 0,
        }),
    );

    assert_eq!(result.confidence, Confidence::Unknown);
    assert!(result.value.is_empty());
    assert!(
        result.note.is_some(),
        "the caller has to be told why the empty answer is untrusted"
    );
}

#[test]
fn empty_definition_from_a_ready_server_stays_authoritative() {
    let server = FakeServer::refs(Vec::new());
    let root = Repo::at("/tmp");
    let path = RelPath::new("main.go");

    let result = goto_definition(
        Some(&server),
        &root,
        &path,
        SymbolAt::Position(Position {
            line: 0,
            character: 0,
        }),
    );

    assert_eq!(result.confidence, Confidence::Exact);
    assert!(result.value.is_empty());
}

#[test]
fn goto_definition_named_query_uses_first_identifier() {
    let repo = Repo::with(&[(
        "src/main.go",
        "package p\n\nfunc helper() {}\n\nfunc Run() { helper() }\n",
    )]);
    let mut server = FakeServer::refs(Vec::new());
    server.definition = Script::Hits(vec![loc("src/main.go", 2, 5)]);

    let result = goto_definition(
        Some(&server),
        &repo,
        &RelPath::new("src/main.go"),
        SymbolAt::Name("helper"),
    );
    assert_eq!(result.confidence, Confidence::Exact);
    assert_eq!(result.value, vec![loc("src/main.go", 2, 5)]);

    let def_calls = server.def_calls.lock().unwrap().clone();
    assert_eq!(def_calls.len(), 1);
    assert_eq!(def_calls[0].1, pos(2, 5));
}

#[test]
fn goto_definition_missing_symbol_name_is_unknown() {
    let repo = Repo::with(&[("src/lib.go", "package p\n")]);
    let server = FakeServer::refs(Vec::new());
    let result = goto_definition(
        Some(&server),
        &repo,
        &RelPath::new("src/lib.go"),
        SymbolAt::Name("absent"),
    );
    assert_unknown_empty(&result);
    assert!(result.note.as_deref().unwrap().contains("`absent`"));
    assert!(server.def_calls.lock().unwrap().is_empty());
}

fn issue_ok(
    result: Json,
    calls: &Mutex<Vec<(RelPath, Position)>>,
) -> impl FnOnce(RelPath, Position) -> Result<Json, LspError> + '_ {
    move |path, position| {
        calls.lock().unwrap().push((path, position));
        Ok(result)
    }
}

fn issue_err(
    err: LspError,
    calls: &Mutex<Vec<(RelPath, Position)>>,
) -> impl FnOnce(RelPath, Position) -> Result<Json, LspError> + '_ {
    move |path, position| {
        calls.lock().unwrap().push((path, position));
        Err(err)
    }
}

#[test]
fn hover_params_shape_matches_the_wire_format() {
    assert_eq!(HOVER_METHOD, "textDocument/hover");
    assert_eq!(
        hover_params("file:///repo/src/lib.go", pos(2, 5)),
        table2(
            "textDocument",
            table1("uri", Json::text("file:///repo/src/lib.go")),
            "position",
            at(2, 5),
        )
    );
}

#[test]
fn parse_hover_reads_markup_contents_and_ignores_range() {
    let result = table2(
        "contents",
        markup(
            "markdown",
            "```go\nfunc helper() int\n```\nDoes things.",
        ),
        "range",
        table2("start", at(2, 5), "end", at(2, 11)),
    );
    assert_eq!(
        parse_hover(&result).as_deref(),
        Some("```go\nfunc helper() int\n```\nDoes things.")
    );
}

#[test]
fn parse_hover_joins_legacy_array_contents() {
    let result = contents(Json::List(vec![
        table2(
            "language",
            Json::text("go"),
            "value",
            Json::text("func helper() int"),
        ),
        Json::text("plain MarkedString"),
        markup("markdown", "Doc text."),
        Json::number(42),
    ]));
    assert_eq!(
        parse_hover(&result).as_deref(),
        Some("func helper() int\n\nplain MarkedString\n\nDoc text.")
    );
}

#[test]
fn parse_hover_accepts_bare_string_contents() {
    assert_eq!(
        parse_hover(&contents(Json::text("just a signature"))).as_deref(),
        Some("just a signature")
    );
}

#[test]
fn parse_hover_null_missing_or_blank_contents_are_none() {
    assert_eq!(parse_hover(&Json::Null), None);
    assert_eq!(parse_hover(&contents(Json::Null)), None);
    assert_eq!(parse_hover(&table1("range", Json::table())), None);
    assert_eq!(parse_hover(&contents(Json::text(""))), None);
    assert_eq!(parse_hover(&contents(Json::List(vec![]))), None);
    assert_eq!(parse_hover(&contents(Json::text("  \n"))), None);
    assert_eq!(parse_hover(&contents(Json::number(42))), None);
}

#[test]
fn hover_named_symbol_anchors_on_the_unique_definition() {
    let repo = Repo::with(&[(
        "src/main.go",
        "package p\n\nfunc helper() {}\n\nfunc Run() { helper() }\n",
    )]);
    let mut server = FakeServer::refs(Vec::new());
    server.definition = Script::Hits(vec![loc("src/main.go", 2, 5)]);
    let calls = Mutex::new(Vec::new());

    let result = hover(
        Some(&server),
        &repo,
        &RelPath::new("src/main.go"),
        SymbolAt::Name("helper"),
        issue_ok(
            contents(markup("markdown", "helper does things")),
            &calls,
        ),
    );

    assert_eq!(result.confidence, Confidence::Exact);
    assert_eq!(result.value.as_deref(), Some("helper does things"));
    assert!(result.note.is_none());
    assert_eq!(
        *calls.lock().unwrap(),
        vec![(RelPath::new("src/main.go"), pos(2, 5))]
    );
}

#[test]
fn hover_position_target_skips_the_definition_round_trip() {
    let server = FakeServer::refs(Vec::new());
    let calls = Mutex::new(Vec::new());

    let result = hover(
        Some(&server),
        &Repo::at("/repo"),
        &RelPath::new("src/main.go"),
        SymbolAt::Position(pos(3, 1)),
        issue_ok(contents(Json::text("sig")), &calls),
    );

    assert_eq!(result.value.as_deref(), Some("sig"));
    assert_eq!(
        *calls.lock().unwrap(),
        vec![(RelPath::new("src/main.go"), pos(3, 1))]
    );
    assert!(server.def_calls.lock().unwrap().is_empty());
}

#[test]
fn hover_null_from_a_ready_server_is_exact_none() {
    let server = FakeServer::refs(Vec::new());
    let calls = Mutex::new(Vec::new());

    let result = hover(
        Some(&server),
        &Repo::at("/repo"),
        &RelPath::new("main.go"),
        SymbolAt::Position(pos(0, 0)),
        issue_ok(Json::Null, &calls),
    );

    assert_eq!(result.confidence, Confidence::Exact);
    assert_eq!(result.value, None);
    assert!(result.note.is_none());
}

#[test]
fn hover_null_from_a_still_indexing_server_is_not_authoritative() {
    let server = FakeServer::still_indexing();
    let calls = Mutex::new(Vec::new());

    let result = hover(
        Some(&server),
        &Repo::at("/repo"),
        &RelPath::new("main.go"),
        SymbolAt::Position(pos(0, 0)),
        issue_ok(Json::Null, &calls),
    );

    assert_eq!(result.confidence, Confidence::Unknown);
    assert_eq!(result.value, None);
    assert!(
        result.note.is_some(),
        "the caller has to be told why the empty answer is untrusted"
    );
}

#[test]
fn hover_errors_degrade_to_unknown_with_a_fallback_hint() {
    for err in [
        LspError::Timeout(8_000),
        LspError::Crashed,
        LspError::Protocol("broken response".into()),
    ] {
        let server = FakeServer::refs(Vec::new());
        let calls = Mutex::new(Vec::new());

        let result = hover(
            Some(&server),
            &Repo::at("/repo"),
            &RelPath::new("main.go"),
            SymbolAt::Position(pos(0, 0)),
            issue_err(err, &calls),
        );

        assert_eq!(result.confidence, Confidence::Unknown);
        assert_eq!(result.value, None);
        let note = result.note.as_deref().unwrap();
        assert!(!note.is_empty());
        assert!(note.contains("symbol-name anchor"));
    }
}

#[test]
fn hover_missing_server_is_unknown_and_never_issues() {
    let called = Mutex::new(false);

    let result = hover(
        None,
        &Repo::at("/repo"),
        &RelPath::new("cmd/app.go"),
        SymbolAt::Position(pos(0, 0)),
        |_path, _position| {
            *called.lock().unwrap() = true;
            Ok(Json::Null)
        },
    );

    assert_eq!(result.confidence, Confidence::Unknown);
    assert_eq!(result.value, None);
    let note = result.note.as_deref().unwrap();
    assert!(note.contains("gopls is not installed"));
    assert!(note.contains("symbol-name anchor"));
    assert!(!*called.lock().unwrap());
}

#[test]
fn hover_missing_symbol_name_is_unknown_and_never_issues() {
    let repo = Repo::with(&[("src/lib.go", "package p\n")]);
    let server = FakeServer::refs(Vec::new());
    let called = Mutex::new(false);

    let result = hover(
        Some(&server),
        &repo,
        &RelPath::new("src/lib.go"),
        SymbolAt::Name("absent"),
        |_path, _position| {
            *called.lock().unwrap() = true;
            Ok(contents(Json::text("unreachable")))
        },
    );

    assert_eq!(result.confidence, Confidence::Unknown);
    assert_eq!(result.value, None);
    assert!(result.note.as_deref().unwrap().contains("`absent`"));
    assert!(result
        .note
        .as_deref()
        .unwrap()
        .contains("symbol-name anchor"));
    assert!(!*called.lock().unwrap());
}

#[test]
fn hover_site_failure_note_excludes_references_search_hint() {
    let repo = Repo::with(&[("src/lib.go", "package p\n")]);
    let server = FakeServer::refs(Vec::new());
    let result = hover(
        Some(&server),
        &repo,
        &RelPath::new("src/lib.go"),
        SymbolAt::Name("absent"),
        |_path, _position| Ok(Json::Null),
    );
    let note = result.note.as_deref().unwrap();
    assert!(note.contains("symbol-name anchor"));
    assert!(
        !note.contains("search_code"),
        "hover site-failure must not mention search_code, got: {note}"
    );
    assert!(
        !note.contains("false positives"),
        "hover site-failure must not include the text search hint, got: {note}"
    );
    assert!(
        !note.contains("precise references"),
        "hover site-failure must not reuse references wording, got: {note}"
    );
    assert!(note.contains("hover information") || note.contains("`absent`"));
}

#[test]
fn named_hover_falls_back_to_first_identifier_when_definition_errors() {
    let repo = Repo::with(&[(
        "src/main.go",
        "package p\n\nfunc helper() {}\n\nfunc Run() { helper() }\n",
    )]);
    let mut server = FakeServer::refs(Vec::new());
    server.definition = Script::Timeout;
    let calls = Mutex::new(Vec::new());

    let result = hover(
        Some(&server),
        &repo,
        &RelPath::new("src/main.go"),
        SymbolAt::Name("helper"),
        issue_ok(
            contents(markup("markdown", "helper docs")),
            &calls,
        ),
    );

    assert_eq!(result.confidence, Confidence::Exact);
    assert_eq!(result.value.as_deref(), Some("helper docs"));
    assert_eq!(
        *calls.lock().unwrap(),
        vec![(RelPath::new("src/main.go"), pos(2, 5))]
    );
    let note = result.note.as_deref().unwrap_or("");
    assert!(
        !note.contains("search_code"),
        "fallback hover must not carry references degrade, got: {note}"
    );
}

#[test]
fn goto_definition_missing_server_uses_definition_wording() {
    let result = goto_definition(
        None,
        &Repo::at("/repo"),
        &RelPath::new("cmd/app.go"),
        SymbolAt::Position(pos(0, 0)),
    );
    assert_unknown_empty(&result);
    let note = result.note.as_deref().unwrap();
    assert!(note.contains("gopls is not installed"));
    assert!(note.contains("definitions"));
    assert!(!note.contains("precise references"));
    assert!(note.contains("search_code"));
}

#[test]
fn cold_guard_merges_external_note_instead_of_replacing() {
    let mut server = FakeServer::refs(vec![loc(
        "file:///usr/lib/go/src/fmt/print.go",
        1,
        0,
    )]);
    server.busy = true;
    let result = find_references(
        Some(&server),
        &Repo::at("/repo"),
        &RelPath::new("src/main.go"),
        SymbolAt::Position(pos(1, 0)),
    );
    assert_eq!(result.confidence, Confidence::Unknown);
    assert!(result.value.is_empty());
    let note = result.note.as_deref().unwrap();
    assert!(
        note.contains("outside the repository"),
        "external note must be preserved, got: {note}"
    );
    assert!(
        note.contains("索引") || note.contains("不可信"),
        "cold-index note must be merged in, got: {note}"
    );
}

#[test]
fn named_hover_skips_unique_definition_anchor_while_server_busy() {
    let repo = Repo::with(&[(
        "src/main.go",
        "package p\n\nfunc Run() { helper() }\n",
    )]);
    let mut server = FakeServer::refs(Vec::new());
    server.busy = true;
    server.definition = Script::Hits(vec![loc("src/other.go", 0, 5)]);
    let calls = Mutex::new(Vec::new());

    let result = hover(
        Some(&server),
        &repo,
        &RelPath::new("src/main.go"),
        SymbolAt::Name("helper"),
        issue_ok(
            contents(markup("markdown", "maybe skewed")),
            &calls,
        ),
    );

    assert_eq!(
        *calls.lock().unwrap(),
        vec![(RelPath::new("src/main.go"), pos(2, 13))]
    );
    assert_eq!(result.value.as_deref(), Some("maybe skewed"));
}

#[test]
fn hover_site_failed_sanitizes_leaked_references_degrade() {
    let leaked = Precise::unknown(
        Vec::new(),
        format!(
            "language server timed out after 8s; cannot provide precise references. search_code can fall back to a text search but will have false positives"
        ),
    );
    let result = hover_site_failed(leaked);
    assert_eq!(result.confidence, Confidence::Unknown);
    assert_eq!(result.value, None);
    let note = result.note.as_deref().unwrap();
    assert!(note.contains("symbol-name anchor"));
    assert!(note.contains("hover information"));
    assert!(!note.contains("search_code"));
    assert!(!note.contains("false positives"));
    assert!(!note.contains("precise references"));
}

#[test]
fn an_unanswered_query_never_looks_like_an_empty_one() {
    let root = RepoRoot::plain("/repo");
    let origin = RelPath::new("a.go");
    let silent = references_answer(&Err(LspError::Crashed), false, &root, &origin);
    let empty = references_answer(&Ok(vec![]), false, &root, &origin);
    assert_eq!(silent.value, empty.value);
    assert_ne!(silent.confidence, empty.confidence);
    assert_eq!(
        silent.note.as_deref(),
        Some(
            "language server exited unexpectedly; cannot provide precise references. \
             search_code can fall back to a text search but will have false positives"
        )
    );
}

#[test]
fn waits_are_named_in_messages() {
    assert_eq!(
        LspError::Timeout(8_000).message(),
        "language server request timed out after 8s"
    );
    assert_eq!(
        LspError::Timeout(1_500).message(),
        "language server request timed out after 1.5s"
    );
    assert_eq!(
        LspError::ContentModified.message(),
        "language server content modified; the request should be retried"
    );
    assert_eq!(
        LspError::Startup(Language::Tsx, "why".into()).message(),
        "language server for Tsx failed to start: why"
    );
}

#[test]
fn symbolic_links_are_followed_through_the_resolved_paths() {
    let root = RepoRoot {
        text: "/link/repo".into(),
        canonical: Some("/real/repo".into()),
        resolved: vec![("/other/x.go".into(), "/real/repo/src/x.go".into())],
        windows: false,
    };
    assert_eq!(
        path_to_resolve("file:///other/x.go", false).as_deref(),
        Some("/other/x.go")
    );
    assert_eq!(
        lsp_path_to_rel("file:///other/x.go", &root)
            .unwrap()
            .as_str(),
        "src/x.go"
    );
    assert!(lsp_path_to_rel("file:///other/y.go", &root).is_none());
}

#[test]
fn long_lists_of_outside_files_are_cut() {
    let names = |n: usize| -> Vec<String> { (0..n).map(|i| format!("/x{i}")).collect() };
    assert_eq!(format_external_list(&names(3)), "/x0, /x1, /x2");
    assert_eq!(format_external_list(&names(5)), "/x0, /x1, /x2, … (5 total)");
}

#[test]
fn identifiers_hold_letters_digits_and_underscores() {
    assert!(is_ident_char('a') && is_ident_char('9') && is_ident_char('_') && is_ident_char('测'));
    assert!(!is_ident_char('-') && !is_ident_char(' ') && !is_ident_char('('));
    assert_eq!(first_identifier_position("a\r\nfoo\r\n", "foo"), Some(pos(1, 0)));
    assert_eq!(first_identifier_position("foo", ""), None);
}

#[test]
fn marked_strings_are_read_one_by_one() {
    assert_eq!(marked_string_text(&Json::text("a")).as_deref(), Some("a"));
    assert_eq!(marked_string_text(&markup("plaintext", "b")).as_deref(), Some("b"));
    assert_eq!(marked_string_text(&list1(Json::text("a"))), None);
}

#[test]
fn an_unreadable_file_is_named() {
    let repo = Repo::at("/repo");
    let server = FakeServer::refs(vec![]);
    let result = find_references(
        Some(&server),
        &repo,
        &RelPath::new("gone.go"),
        SymbolAt::Name("f"),
    );
    assert_eq!(
        result.note.as_deref(),
        Some(
            "could not read gone.go to locate `f` (No such file or directory); \
             cannot provide precise references"
        )
    );
}

#[test]
fn windows_paths_are_placed_below_the_root() {
    let root = RepoRoot {
        windows: true,
        ..RepoRoot::plain("C:\\Users\\me\\repo")
    };
    let rel = |path: &str| lsp_path_to_rel(path, &root).map(|p| p.as_str().to_string());
    for path in [
        "file:///C:/Users/me/repo/src/a.rs",
        "file:///c%3A/Users/me/repo/src/a.rs",
        "C:\\Users\\me\\repo\\src\\a.rs",
        "C:/Users/me/x/../repo/src/a.rs",
        "src\\a.rs",
    ] {
        assert_eq!(rel(path).as_deref(), Some("src/a.rs"), "{path}");
    }
    assert_eq!(rel("file:///D:/Users/me/repo/src/a.rs"), None);
    assert_eq!(rel("file:///C:/Users/me/repo/../a.rs"), None);
    assert_eq!(rel("file://host/C:/Users/me/repo/a.rs"), None);
    assert_eq!(
        display_external("file:///C:/std/lib.rs", true),
        "C:\\std\\lib.rs"
    );
    assert_eq!(display_external("file:///std/lib.rs", false), "/std/lib.rs");
    assert_eq!(
        path_to_resolve("file:///C:/std/lib.rs", true).as_deref(),
        Some("C:/std/lib.rs")
    );
    let unix = RepoRoot::plain("/C:/repo");
    assert_eq!(
        lsp_path_to_rel("file:///C:/repo/a.rs", &unix).unwrap().as_str(),
        "a.rs"
    );
}
