use astrolabe_core::lsp::diagnostics::{
    from_document_diagnostic_report, from_lsp_diagnostic, pull_should_fall_back, query,
    query_server, sort_diagnostics, DiagnosticClient, Fetch, FetchAction, FetchEvent,
    FetchOptions, PushWait, Report, SeverityFilter, Stage, DEFAULT_PUSH_TIMEOUT,
};
use astrolabe_core::lsp::json::Json;
use astrolabe_core::lsp::wire::{Code, Published};
use astrolabe_core::lsp::{
    Diagnostic, LanguageServer, Location, LspError, Position, Range, Severity, WorkspaceEdit,
};
use astrolabe_core::types::{Confidence, Language, RelPath};
use std::sync::Mutex;

fn pos(line: u32, character: u32) -> Position {
    Position { line, character }
}

fn diag(path: &str, line: u32, col: u32, severity: Severity, message: &str) -> Diagnostic {
    Diagnostic {
        path: RelPath::new(path),
        range: Range {
            start: pos(line, col),
            end: pos(line, col + 1),
        },
        severity,
        message: message.into(),
        code: None,
    }
}

fn keys(diagnostics: &[Diagnostic]) -> Vec<(String, u32, u32, &'static str)> {
    diagnostics
        .iter()
        .map(|d| {
            let sev = match d.severity {
                Severity::Error => "error",
                Severity::Warning => "warning",
                Severity::Information => "info",
                Severity::Hint => "hint",
            };
            (
                d.path.as_str().to_string(),
                d.range.start.line,
                d.range.start.character,
                sev,
            )
        })
        .collect()
}

#[derive(Clone)]
enum PullBehavior {
    Given(Vec<Diagnostic>),
    Fail(FakeError),
}

#[derive(Clone)]
enum PushBehavior {
    Received(Vec<Diagnostic>),
    Never,
    Fail(FakeError),
}

#[derive(Clone, Copy)]
enum FakeError {
    Unavailable,
    Timeout,
    Protocol,
    Crashed,
    Startup,
}

impl FakeError {
    fn to_lsp(self) -> LspError {
        match self {
            Self::Unavailable => LspError::Unavailable(
                Language::Rust,
                "rust-analyzer is not installed; rustup component add rust-analyzer".into(),
            ),
            Self::Timeout => LspError::Timeout(2_000),
            Self::Protocol => {
                LspError::Protocol("method not found: textDocument/diagnostic".into())
            }
            Self::Crashed => LspError::Crashed,
            Self::Startup => LspError::Startup(Language::Rust, "spawn failed".into()),
        }
    }
}

struct FakeServer {
    supports_pull: bool,
    pull: PullBehavior,
    push: PushBehavior,
    open_error: Option<FakeError>,
    events: Mutex<Vec<String>>,
    waited: Mutex<Vec<u64>>,
}

impl FakeServer {
    fn pull_ok(diagnostics: Vec<Diagnostic>) -> Self {
        FakeServer {
            supports_pull: true,
            pull: PullBehavior::Given(diagnostics),
            push: PushBehavior::Never,
            open_error: None,
            events: Mutex::new(Vec::new()),
            waited: Mutex::new(Vec::new()),
        }
    }

    fn push_only(diagnostics: Vec<Diagnostic>) -> Self {
        FakeServer {
            supports_pull: false,
            pull: PullBehavior::Fail(FakeError::Protocol),
            push: PushBehavior::Received(diagnostics),
            open_error: None,
            events: Mutex::new(Vec::new()),
            waited: Mutex::new(Vec::new()),
        }
    }

    fn push_silent() -> Self {
        FakeServer {
            supports_pull: false,
            pull: PullBehavior::Fail(FakeError::Protocol),
            push: PushBehavior::Never,
            open_error: None,
            events: Mutex::new(Vec::new()),
            waited: Mutex::new(Vec::new()),
        }
    }

    fn events(&self) -> Vec<String> {
        self.events.lock().expect("events lock").clone()
    }

    fn record(&self, event: impl Into<String>) {
        self.events.lock().expect("events lock").push(event.into());
    }
}

impl LanguageServer for FakeServer {
    fn language(&self) -> Language {
        Language::Rust
    }

    fn hover(
        &self,
        _path: &RelPath,
        _position: Position,
    ) -> Result<Json, LspError> {
        Ok(Json::Null)
    }

    fn references(
        &self,
        _path: &RelPath,
        _position: Position,
    ) -> Result<Vec<Location>, LspError> {
        Ok(Vec::new())
    }

    fn definition(
        &self,
        _path: &RelPath,
        _position: Position,
    ) -> Result<Vec<Location>, LspError> {
        Ok(Vec::new())
    }

    fn diagnostics(&self, path: &RelPath) -> Result<Vec<Diagnostic>, LspError> {
        self.pull(path)
    }

    fn prepare_rename(
        &self,
        _path: &RelPath,
        _position: Position,
        _new_name: &str,
    ) -> Result<WorkspaceEdit, LspError> {
        Ok(WorkspaceEdit::default())
    }

    fn memory_bytes(&self) -> Option<u64> {
        None
    }

    fn shutdown(&self) -> Result<(), LspError> {
        Ok(())
    }
}

impl DiagnosticClient for FakeServer {
    fn supports_pull(&self) -> bool {
        self.supports_pull
    }

    fn pull(&self, path: &RelPath) -> Result<Vec<Diagnostic>, LspError> {
        self.record(format!("pull:{}", path.as_str()));
        match &self.pull {
            PullBehavior::Given(items) => Ok(items.clone()),
            PullBehavior::Fail(err) => Err(err.to_lsp()),
        }
    }

    fn did_open(&self, path: &RelPath) -> Result<(), LspError> {
        self.record(format!("open:{}", path.as_str()));
        match self.open_error {
            Some(err) => Err(err.to_lsp()),
            None => Ok(()),
        }
    }

    fn did_close(&self, path: &RelPath) -> Result<(), LspError> {
        self.record(format!("close:{}", path.as_str()));
        Ok(())
    }

    fn wait_push(&self, path: &RelPath, timeout: u64) -> Result<PushWait, LspError> {
        self.record(format!("wait:{}", path.as_str()));
        self.waited.lock().expect("waited lock").push(timeout);
        match &self.push {
            PushBehavior::Received(items) => Ok(PushWait::Received(items.clone())),
            PushBehavior::Never => Ok(PushWait::NeverReceived),
            PushBehavior::Fail(err) => Err(err.to_lsp()),
        }
    }
}

#[test]
fn pull_mode_returns_exact_diagnostics() {
    let path = RelPath::new("src/lib.rs");
    let server = FakeServer::pull_ok(vec![diag(
        "src/lib.rs",
        3,
        1,
        Severity::Error,
        "missing type",
    )]);
    let got = query(&server, &path, FetchOptions::default());

    assert_eq!(got.confidence, Confidence::Exact);
    assert!(got.note.is_none());
    assert_eq!(got.value.len(), 1);
    assert_eq!(got.value[0].message, "missing type");
    assert_eq!(
        server.events(),
        vec![
            "open:src/lib.rs".to_string(),
            "pull:src/lib.rs".to_string(),
            "close:src/lib.rs".to_string(),
        ]
    );
}

#[test]
fn pull_empty_list_is_exact_not_unknown() {
    let path = RelPath::new("src/clean.rs");
    let server = FakeServer::pull_ok(Vec::new());
    let got = query(&server, &path, FetchOptions::default());

    assert_eq!(got.confidence, Confidence::Exact);
    assert!(got.value.is_empty());
    assert!(!server.events().iter().any(|e| e.starts_with("wait:")));
}

#[test]
fn pull_via_language_server_trait() {
    let path = RelPath::new("src/lib.rs");
    let server = FakeServer::pull_ok(vec![diag("src/lib.rs", 0, 0, Severity::Error, "E0001")]);
        let got = query_server(Some(&server), &path, FetchOptions::default());

    assert_eq!(got.confidence, Confidence::Exact);
    assert_eq!(got.value[0].message, "E0001");
}

#[test]
fn missing_language_server_is_unknown() {
    let path = RelPath::new("src/lib.rs");
    let got = query_server(None::<&FakeServer>, &path, FetchOptions::default());
    assert_eq!(got.confidence, Confidence::Unknown);
    assert!(got.value.is_empty());
    let note = got.note.as_deref().expect("must explain the gap");
    assert!(note.contains("Rust"), "note: {note}");
    assert!(note.contains("cannot check diagnostics"), "note: {note}");
}

#[test]
fn push_mode_returns_after_notification() {
    let path = RelPath::new("src/main.rs");
    let server = FakeServer::push_only(vec![diag(
        "src/main.rs",
        8,
        4,
        Severity::Error,
        "undefined name",
    )]);
    let got = query(&server, &path, FetchOptions::default());

    assert_eq!(got.confidence, Confidence::Exact);
    assert_eq!(got.value[0].message, "undefined name");
    assert_eq!(
        server.events(),
        vec![
            "open:src/main.rs".to_string(),
            "wait:src/main.rs".to_string(),
            "close:src/main.rs".to_string(),
        ]
    );
}

#[test]
fn push_published_empty_list_is_exact() {
    let path = RelPath::new("src/ok.rs");
    let server = FakeServer::push_only(Vec::new());
    let got = query(&server, &path, FetchOptions::default());

    assert_eq!(got.confidence, Confidence::Exact);
    assert!(got.value.is_empty());
    assert!(got.note.is_none());
}

#[test]
fn push_timeout_without_notification_is_unknown_not_empty_exact() {
    let path = RelPath::new("src/main.rs");
    let server = FakeServer::push_silent();
    let options = FetchOptions {
        filter: SeverityFilter::All,
        push_timeout: 40,
    };
    let got = query(&server, &path, options);

    assert_eq!(
        got.confidence,
        Confidence::Unknown,
        "silence after didOpen is not a clean bill of health"
    );
    assert!(
        got.value.is_empty(),
        "there are no diagnostics to report, but that is not Exact"
    );
    let note = got.note.as_deref().expect("Unknown must explain itself");
    assert!(
        note.contains("publishDiagnostics"),
        "note should name the missing notification: {note}"
    );
    assert!(
        note.contains("never"),
        "note should say the server never published: {note}"
    );
    assert!(
        note.contains("does not mean the file is clean"),
        "note must stop an agent treating this as success: {note}"
    );
    assert_eq!(
        server.waited.lock().expect("waited").as_slice(),
        &[40]
    );
    assert!(server.events().contains(&"close:src/main.rs".to_string()));
}

#[test]
fn pull_method_not_found_falls_back_to_push() {
    let path = RelPath::new("src/app.rs");
    let server = FakeServer {
        supports_pull: true,
        pull: PullBehavior::Fail(FakeError::Protocol),
        push: PushBehavior::Received(vec![diag(
            "src/app.rs",
            1,
            0,
            Severity::Warning,
            "unused",
        )]),
        open_error: None,
        events: Mutex::new(Vec::new()),
        waited: Mutex::new(Vec::new()),
    };
    let got = query(
        &server,
        &path,
        FetchOptions {
            filter: SeverityFilter::All,
            push_timeout: DEFAULT_PUSH_TIMEOUT,
        },
    );

    assert_eq!(got.confidence, Confidence::Exact);
    assert_eq!(got.value[0].message, "unused");
    assert_eq!(
        server.events(),
        vec![
            "open:src/app.rs".to_string(),
            "pull:src/app.rs".to_string(),
            "wait:src/app.rs".to_string(),
            "close:src/app.rs".to_string(),
        ]
    );
}

#[test]
fn severity_filter_keeps_errors_and_optionally_warnings() {
    let path = RelPath::new("src/mixed.rs");
    let mixed = vec![
        diag("src/mixed.rs", 1, 0, Severity::Hint, "hint"),
        diag("src/mixed.rs", 2, 0, Severity::Error, "error"),
        diag("src/mixed.rs", 3, 0, Severity::Warning, "warning"),
        diag("src/mixed.rs", 4, 0, Severity::Information, "info"),
    ];

    let errors = query(
        &FakeServer::pull_ok(mixed.clone()),
        &path,
        FetchOptions {
            filter: SeverityFilter::Errors,
            push_timeout: DEFAULT_PUSH_TIMEOUT,
        },
    );
    assert_eq!(
        keys(&errors.value),
        vec![("src/mixed.rs".into(), 2, 0, "error")]
    );

    let errors_and_warnings = query(
        &FakeServer::pull_ok(mixed.clone()),
        &path,
        FetchOptions {
            filter: SeverityFilter::ErrorsAndWarnings,
            push_timeout: DEFAULT_PUSH_TIMEOUT,
        },
    );
    assert_eq!(
        keys(&errors_and_warnings.value),
        vec![
            ("src/mixed.rs".into(), 2, 0, "error"),
            ("src/mixed.rs".into(), 3, 0, "warning"),
        ]
    );

    let all = query(
        &FakeServer::pull_ok(mixed),
        &path,
        FetchOptions {
            filter: SeverityFilter::All,
            push_timeout: DEFAULT_PUSH_TIMEOUT,
        },
    );
    assert_eq!(all.value.len(), 4);
}

#[test]
fn results_sort_by_path_then_line_then_column() {
    let path = RelPath::new("src/a.rs");
    let unsorted = vec![
        diag("src/b.rs", 10, 2, Severity::Error, "b"),
        diag("src/a.rs", 4, 8, Severity::Error, "a-late"),
        diag("src/a.rs", 1, 3, Severity::Error, "a-mid"),
        diag("src/a.rs", 1, 0, Severity::Error, "a-early"),
    ];
    let got = query(
        &FakeServer::pull_ok(unsorted),
        &path,
        FetchOptions {
            filter: SeverityFilter::All,
            push_timeout: DEFAULT_PUSH_TIMEOUT,
        },
    );

    assert_eq!(
        keys(&got.value),
        vec![
            ("src/a.rs".into(), 1, 0, "error"),
            ("src/a.rs".into(), 1, 3, "error"),
            ("src/a.rs".into(), 4, 8, "error"),
            ("src/b.rs".into(), 10, 2, "error"),
        ]
    );
}

#[test]
fn unavailable_server_is_unknown_with_install_hint() {
    let path = RelPath::new("src/lib.rs");
    let server = FakeServer {
        supports_pull: true,
        pull: PullBehavior::Fail(FakeError::Unavailable),
        push: PushBehavior::Never,
        open_error: None,
        events: Mutex::new(Vec::new()),
        waited: Mutex::new(Vec::new()),
    };
        let got = query_server(Some(&server), &path, FetchOptions::default());

    assert_eq!(got.confidence, Confidence::Unknown);
    assert!(got.value.is_empty());
    let note = got.note.as_deref().expect("Unavailable must be explained");
    assert!(
        note.contains("rust-analyzer"),
        "agent needs an install hint: {note}"
    );
    assert!(
        !server.events().iter().any(|e| e.starts_with("wait:")),
        "do not wait for a push from a server that is not there"
    );

    let client = FakeServer {
        supports_pull: true,
        pull: PullBehavior::Fail(FakeError::Unavailable),
        push: PushBehavior::Never,
        open_error: None,
        events: Mutex::new(Vec::new()),
        waited: Mutex::new(Vec::new()),
    };
    let via_client = query(&client, &path, FetchOptions::default());
    assert_eq!(via_client.confidence, Confidence::Unknown);
    assert_eq!(
        client.events(),
        vec![
            "open:src/lib.rs".to_string(),
            "pull:src/lib.rs".to_string(),
            "close:src/lib.rs".to_string(),
        ]
    );
}

#[test]
fn pull_timeout_falls_back_to_push_then_unknown_if_silent() {
    let path = RelPath::new("src/lib.rs");
    let server = FakeServer {
        supports_pull: true,
        pull: PullBehavior::Fail(FakeError::Timeout),
        push: PushBehavior::Never,
        open_error: None,
        events: Mutex::new(Vec::new()),
        waited: Mutex::new(Vec::new()),
    };
    let got = query(
        &server,
        &path,
        FetchOptions {
            filter: SeverityFilter::All,
            push_timeout: 40,
        },
    );
    assert_eq!(got.confidence, Confidence::Unknown);
    assert!(got
        .note
        .as_deref()
        .unwrap_or("")
        .contains("publishDiagnostics"));
    assert_eq!(
        server.events(),
        vec![
            "open:src/lib.rs".to_string(),
            "pull:src/lib.rs".to_string(),
            "wait:src/lib.rs".to_string(),
            "close:src/lib.rs".to_string(),
        ]
    );
}

#[test]
fn push_wait_error_is_unknown() {
    let path = RelPath::new("src/lib.rs");
    let server = FakeServer {
        supports_pull: false,
        pull: PullBehavior::Fail(FakeError::Protocol),
        push: PushBehavior::Fail(FakeError::Crashed),
        open_error: None,
        events: Mutex::new(Vec::new()),
        waited: Mutex::new(Vec::new()),
    };
    let got = query(&server, &path, FetchOptions::default());
    assert_eq!(got.confidence, Confidence::Unknown);
    assert!(got
        .note
        .as_deref()
        .unwrap_or("")
        .contains("exited unexpectedly"));
    assert!(server.events().contains(&"close:src/lib.rs".to_string()));
}

#[test]
fn crashed_and_startup_errors_are_unknown() {
    let path = RelPath::new("src/lib.rs");
    for err in [FakeError::Crashed, FakeError::Startup] {
        let server = FakeServer {
            supports_pull: true,
            pull: PullBehavior::Fail(err),
            push: PushBehavior::Never,
            open_error: None,
            events: Mutex::new(Vec::new()),
            waited: Mutex::new(Vec::new()),
        };
        let got = query(&server, &path, FetchOptions::default());
        assert_eq!(got.confidence, Confidence::Unknown);
        assert!(got.note.is_some());
    }
}

#[test]
fn did_open_failure_is_unknown_and_skips_close() {
    let path = RelPath::new("src/lib.rs");
    let server = FakeServer {
        supports_pull: true,
        pull: PullBehavior::Given(Vec::new()),
        push: PushBehavior::Never,
        open_error: Some(FakeError::Unavailable),
        events: Mutex::new(Vec::new()),
        waited: Mutex::new(Vec::new()),
    };
    let got = query(&server, &path, FetchOptions::default());

    assert_eq!(got.confidence, Confidence::Unknown);
    assert_eq!(server.events(), vec!["open:src/lib.rs".to_string()]);
}

#[test]
fn default_push_timeout_is_two_and_a_half_seconds() {
    assert_eq!(DEFAULT_PUSH_TIMEOUT, 2500);
    assert_eq!(FetchOptions::default().push_timeout, DEFAULT_PUSH_TIMEOUT);
}

fn published(severity: Option<Severity>, code: Option<Code>, message: &str) -> Published {
    Published {
        range: Range {
            start: pos(2, 4),
            end: pos(2, 9),
        },
        severity,
        message: message.into(),
        code,
    }
}

#[test]
fn lsp_conversion_maps_range_severity_and_code() {
    let given = published(
        Some(Severity::Warning),
        Some(Code::Number(2304)),
        "not found",
    );
    let converted = from_lsp_diagnostic(&RelPath::new("a.ts"), &given);
    assert_eq!(converted.path.as_str(), "a.ts");
    assert_eq!(converted.range.start, pos(2, 4));
    assert_eq!(converted.range.end, pos(2, 9));
    assert_eq!(converted.severity, Severity::Warning);
    assert_eq!(converted.message, "not found");
    assert_eq!(converted.code.as_deref(), Some("2304"));

    let named = published(None, Some(Code::Text("E0001".into())), "x");
    let converted = from_lsp_diagnostic(&RelPath::new("a.ts"), &named);
    assert_eq!(converted.code.as_deref(), Some("E0001"));
    let negative = published(None, Some(Code::Number(-7)), "x");
    let converted = from_lsp_diagnostic(&RelPath::new("a.ts"), &negative);
    assert_eq!(converted.code.as_deref(), Some("-7"));
}

#[test]
fn omitted_lsp_severity_is_treated_as_error() {
    let given = published(None, None, "something");
    let converted = from_lsp_diagnostic(&RelPath::new("a.rs"), &given);
    assert_eq!(converted.severity, Severity::Error);
    assert_eq!(converted.code, None);
}

#[test]
fn a_report_is_full_or_unchanged() {
    let path = RelPath::new("a.rs");
    let full = Report::Full(vec![
        published(Some(Severity::Hint), None, "h"),
        published(None, None, "e"),
    ]);
    let got = from_document_diagnostic_report(&path, &full).unwrap();
    assert_eq!(got.len(), 2);
    assert_eq!(got[0].severity, Severity::Hint);
    assert_eq!(got[1].severity, Severity::Error);
    assert_eq!(
        from_document_diagnostic_report(&path, &Report::Unchanged),
        None
    );
}

#[test]
fn a_wider_filter_keeps_what_a_narrower_one_keeps() {
    for severity in [
        Severity::Error,
        Severity::Warning,
        Severity::Information,
        Severity::Hint,
    ] {
        if SeverityFilter::Errors.allows(severity) {
            assert!(SeverityFilter::ErrorsAndWarnings.allows(severity));
        }
        assert!(SeverityFilter::All.allows(severity));
    }
    assert!(!SeverityFilter::ErrorsAndWarnings.allows(Severity::Information));
}

#[test]
fn protocol_errors_and_timeouts_are_worth_a_second_try() {
    assert!(pull_should_fall_back(&LspError::Protocol("x".into())));
    assert!(pull_should_fall_back(&LspError::Timeout(1)));
    assert!(!pull_should_fall_back(&LspError::Crashed));
    assert!(!pull_should_fall_back(&LspError::Unavailable(
        Language::Go,
        "x".into()
    )));
}

#[test]
fn equal_diagnostics_are_told_once_only_if_they_are_the_same() {
    let twice = vec![
        diag("a.rs", 1, 1, Severity::Error, "same"),
        diag("a.rs", 1, 1, Severity::Error, "same"),
        diag("a.rs", 1, 1, Severity::Warning, "same"),
    ];
    let sorted = sort_diagnostics(twice);
    assert_eq!(sorted.len(), 3);
    assert_eq!(sorted[2].severity, Severity::Warning);
}

#[test]
fn a_fetch_goes_from_open_to_close() {
    let path = RelPath::new("a.rs");
    let found = || vec![diag("a.rs", 0, 0, Severity::Error, "bad")];

    let (mut fetch, first) = Fetch::start(FetchOptions::default());
    assert!(matches!(first, FetchAction::Open));
    assert!(matches!(
        fetch.step(&path, FetchEvent::Opened(Ok(()))),
        FetchAction::AskPull
    ));
    assert!(matches!(
        fetch.step(&path, FetchEvent::CanPull(true)),
        FetchAction::Pull
    ));
    assert!(matches!(
        fetch.step(&path, FetchEvent::Pulled(Ok(found()))),
        FetchAction::Close
    ));
    assert_eq!(fetch.stage, Stage::Closing);
    match fetch.step(&path, FetchEvent::Closed(Err(LspError::Crashed))) {
        FetchAction::Done(r) => {
            assert_eq!(r.confidence, Confidence::Exact);
            assert_eq!(keys(&r.value), vec![("a.rs".into(), 0, 0, "error")]);
        }
        other => panic!("{other:?}"),
    }
    assert_eq!(fetch.stage, Stage::Over);
}

#[test]
fn a_fetch_that_was_asked_in_vain_waits() {
    let path = RelPath::new("a.rs");
    let options = FetchOptions::default();
    let (mut fetch, _) = Fetch::start(options);
    fetch.step(&path, FetchEvent::Opened(Ok(())));
    fetch.step(&path, FetchEvent::CanPull(true));
    assert!(matches!(
        fetch.step(&path, FetchEvent::Pulled(Err(FakeError::Protocol.to_lsp()))),
        FetchAction::Wait(ms) if ms == options.push_timeout
    ));
    assert!(matches!(
        fetch.step(&path, FetchEvent::Waited(Ok(PushWait::Received(Vec::new())))),
        FetchAction::Close
    ));

    let (mut fetch, _) = Fetch::start(options);
    fetch.step(&path, FetchEvent::Opened(Ok(())));
    fetch.step(&path, FetchEvent::CanPull(true));
    assert!(matches!(
        fetch.step(&path, FetchEvent::Pulled(Err(LspError::Crashed))),
        FetchAction::Close
    ));
    match fetch.step(&path, FetchEvent::Closed(Ok(()))) {
        FetchAction::Done(r) => assert_eq!(r.confidence, Confidence::Unknown),
        other => panic!("{other:?}"),
    }
}

#[test]
fn a_document_that_was_not_opened_is_not_closed() {
    let path = RelPath::new("a.rs");
    let (mut fetch, _) = Fetch::start(FetchOptions::default());
    match fetch.step(&path, FetchEvent::Opened(Err(LspError::Crashed))) {
        FetchAction::Done(r) => assert_eq!(r.confidence, Confidence::Unknown),
        other => panic!("{other:?}"),
    }
    assert_eq!(fetch.stage, Stage::Over);

    let (mut fetch, _) = Fetch::start(FetchOptions::default());
    fetch.step(&path, FetchEvent::Opened(Ok(())));
    assert!(matches!(
        fetch.step(&path, FetchEvent::CanPull(false)),
        FetchAction::Wait(DEFAULT_PUSH_TIMEOUT)
    ));
}
