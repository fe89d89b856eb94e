use astrolabe_core::lsp::discovery::Discovery;
use astrolabe_core::lsp::install::{
    default_install_hint, finish_install, install_step, parse_language_name, InstallError,
    InstallStep, LanguageServerInstaller, LspStatus, StubInstaller, VersionPolicy,
};
use astrolabe_core::lsp::installer::{ArchiveFormat, InstallSpec};
use astrolabe_core::lsp::{Location, Precise};
use astrolabe_core::types::{Confidence, Language};

fn empty_path_discovery() -> Discovery {
    Discovery::new("")
}

fn demo(name: &str) -> InstallSpec {
    InstallSpec {
        name: name.into(),
        version: "1".into(),
        url: "https://example.test/x".into(),
        sha256: "aa".into(),
        archive: ArchiveFormat::Raw,
        binary_relative: "x".into(),
    }
}

#[test]
fn plan_without_binary_is_needs_install_and_does_not_download() {
    let installer = StubInstaller::new(empty_path_discovery());
    let plan = installer.plan(Language::Go, None).unwrap();
    assert_eq!(plan.server_name, "gopls");
    assert_eq!(plan.version_policy, VersionPolicy::Latest);
    assert!(matches!(plan.status, LspStatus::NeedsInstall { .. }));
    assert!(plan.render().contains("needs_install"));
    assert!(plan.render().contains("no download performed"));
    assert!(plan.approximate_size_bytes.is_none());
}

#[test]
fn confirm_install_hits_stub_todo() {
    let installer = StubInstaller::new(empty_path_discovery());
    let plan = installer.plan(Language::Rust, None).unwrap();
    let err = installer.install(&plan).unwrap_err();
    match err {
        InstallError::NotImplemented(server, policy) => {
            assert_eq!(server, "rust-analyzer");
            assert_eq!(policy, "latest");
        }
        other => panic!("expected NotImplemented, got {other:?}"),
    }
}

#[test]
fn pinned_version_policy() {
    let policy = VersionPolicy::from_pin(Some("1.2.3"));
    assert_eq!(policy, VersionPolicy::Pinned("1.2.3".into()));
    assert_eq!(policy.label(), "pinned:1.2.3");
}

#[test]
fn parse_language_name_accepts_aliases() {
    assert_eq!(parse_language_name("Go").unwrap(), Language::Go);
    assert_eq!(parse_language_name("ts").unwrap(), Language::TypeScript);
    assert!(parse_language_name("cobol").is_err());
}

#[test]
fn status_token_strings_match_contract() {
    assert_eq!(
        LspStatus::Ready {
            server_name: "gopls".into(),
            command: "/usr/bin/gopls".into(),
        }
        .token(),
        "Ready"
    );
    assert_eq!(
        LspStatus::NeedsInstall {
            server_name: "gopls".into(),
            install_hint: "x".into(),
        }
        .token(),
        "needs_install"
    );
    assert_eq!(
        LspStatus::AstOnly {
            reason: "not wired".into(),
        }
        .token(),
        "AST-only"
    );
}

#[test]
fn precise_distinguishes_empty_from_unchecked() {
    let found: Precise<Vec<Location>> = Precise::exact(Vec::new());
    let unchecked: Precise<Vec<Location>> =
        Precise::unknown(Vec::new(), "gopls is not installed".into());

    assert!(found.value.is_empty() && unchecked.value.is_empty());
    assert_eq!(found.confidence, Confidence::Exact);
    assert_eq!(unchecked.confidence, Confidence::Unknown);
    assert!(unchecked.note.is_some());
}

#[test]
fn a_server_that_is_there_is_not_fetched() {
    let there = Discovery::new("/bin").with_found("/bin/gopls", "/bin/gopls");
    let installer = StubInstaller::new(there);
    let plan = installer.plan(Language::Go, Some("2")).unwrap();
    assert!(matches!(plan.status, LspStatus::Ready { .. }));
    match install_step(&plan, Some(demo("gopls"))) {
        InstallStep::Done(Ok(record)) => {
            assert_eq!(record.command.as_deref(), Some("/bin/gopls"));
            assert_eq!(record.version, "pinned:2");
            assert_eq!(record.note, "already installed; nothing downloaded");
        }
        other => panic!("nothing is to be done, got {other:?}"),
    }
}

#[test]
fn a_missing_server_is_fetched_where_it_is_known_from_where() {
    let installer = StubInstaller::new(empty_path_discovery());
    let plan = installer.plan(Language::Go, None).unwrap();
    match install_step(&plan, Some(demo("gopls"))) {
        InstallStep::Fetch(spec) => assert_eq!(spec, demo("gopls")),
        other => panic!("expected a fetch, got {other:?}"),
    }
    let record = finish_install(&plan, "1", Ok("/cache/gopls")).unwrap();
    assert_eq!(record.command.as_deref(), Some("/cache/gopls"));
    assert_eq!(record.version, "1");
    assert_eq!(
        finish_install(&plan, "1", Err("no route")),
        Err(InstallError::Failed("no route".into()))
    );
}

#[test]
fn languages_without_a_server_are_read_from_their_syntax_alone() {
    let installer = StubInstaller::new(empty_path_discovery());
    assert_eq!(
        default_install_hint(Language::Vue),
        "vue-language-server (`npm i -g @vue/language-server` or set ASTROLABE_LSP_VUE)"
    );
    assert!(matches!(
        installer.status_for(Language::Vue),
        LspStatus::AstOnly { .. }
    ));
    match installer.plan(Language::Vue, None) {
        Ok(plan) => assert!(matches!(
            installer.install(&plan),
            Err(InstallError::AstOnly(..))
        )),
        Err(err) => assert!(matches!(err, InstallError::AstOnly(..))),
    }
}

#[test]
fn errors_name_what_went_wrong() {
    assert!(parse_language_name("cobol")
        .unwrap_err()
        .message()
        .contains("cobol"));
    assert!(InstallError::Failed("no route".into())
        .message()
        .contains("no route"));
    assert!(!InstallError::NotConfirmed.message().is_empty());
}

#[test]
fn every_probed_language_has_a_status() {
    let statuses = StubInstaller::new(empty_path_discovery()).probed_statuses();
    assert_eq!(statuses.len(), 7);
    assert!(statuses
        .iter()
        .all(|(_, status)| status.token() == "needs_install"));
}

#[test]
fn statuses_end_a_summary() {
    let ready = LspStatus::Ready {
        server_name: "gopls".into(),
        command: "/usr/bin/gopls".into(),
    };
    assert_eq!(ready.summary_suffix(), " — Ready (gopls @ /usr/bin/gopls)");
    let ast = LspStatus::AstOnly {
        reason: "not wired".into(),
    };
    assert_eq!(ast.summary_suffix(), " — AST-only (not wired)");
}
