use astrolabe_core::lsp::discovery::{
    bin_stem, command_names, env_override_var, is_bare_name, parse_pathext, Discovery,
    PROBED_LANGUAGES,
};
use astrolabe_core::lsp::install::StubInstaller;
use astrolabe_core::lsp::installation::is_runnable;
use astrolabe_core::lsp::LspError;
use astrolabe_core::types::Language;

const DEFAULT_PATHEXT: &str = ".COM;.EXE;.BAT;.CMD";

/// A directory with the programs in it.
struct Scratch {
    dir: &'static str,
    programs: Vec<String>,
}

impl Scratch {
    fn path(&self, name: &str) -> String {
        format!("{}/{name}", self.dir)
    }

    fn fake_bin(&mut self, name: &str) -> String {
        let path = self.path(name);
        self.programs.push(path.clone());
        path
    }
}

fn scratch(dir: &'static str) -> Scratch {
    Scratch {
        dir,
        programs: Vec::new(),
    }
}

fn discovery_with_dirs(dirs: &[&Scratch]) -> Discovery {
    let path: Vec<&str> = dirs.iter().map(|d| d.dir).collect();
    let mut discovery = Discovery::new(&path.join(":"));
    for program in dirs.iter().flat_map(|d| &d.programs) {
        discovery = discovery.with_found(program, program);
    }
    discovery
}

fn file_stem(path: &str) -> &str {
    let name = path.rsplit('/').next().unwrap();
    name.split('.').next().unwrap()
}

fn unavailable_hint(err: LspError) -> (Language, String) {
    match err {
        LspError::Unavailable(lang, hint) => (lang, hint),
        other => panic!("expected Unavailable, got {other:?}"),
    }
}

#[test]
fn missing_binary_is_unavailable_with_install_command() {
    let d = Discovery::new("");
    let err = d.discover(Language::Python).unwrap_err();
    let (lang, hint) = unavailable_hint(err);
    assert_eq!(lang, Language::Python);
    assert!(!hint.is_empty());
    assert!(
        hint.contains("npm i -g pyright"),
        "install_hint must contain an executable install command, got: {hint}"
    );
    assert!(hint.contains("ASTROLABE_LSP_PYTHON"));
}

#[test]
fn empty_path_install_hints_cover_every_language() {
    let d = Discovery::new("");
    for language in PROBED_LANGUAGES {
        let result = d.probe(language);
        assert!(result.spec.is_none(), "{language:?} should be missing");
        assert!(!result.install_hint.is_empty());
        match language {
            Language::Python => assert!(result.install_hint.contains("npm i -g pyright")),
            Language::Go => {
                assert!(result
                    .install_hint
                    .contains("go install golang.org/x/tools/gopls@latest"))
            }
            Language::Java => {
                assert!(result.install_hint.contains("brew install jdtls"));
                assert!(result.install_hint.contains("java -"));
                assert!(result.install_hint.contains("-data"));
                assert!(result.install_hint.contains("org.eclipse.equinox.launcher"));
            }
            Language::Rust => {
                assert!(result
                    .install_hint
                    .contains("rustup component add rust-analyzer"))
            }
            Language::TypeScript | Language::Tsx | Language::JavaScript => {
                assert!(result
                    .install_hint
                    .contains("npm i -g typescript-language-server"))
            }
            other => panic!("{other:?} is not probed"),
        }
    }
}

#[test]
fn finds_first_priority_binary_on_path() {
    let mut dir = scratch("/scratch/1");
    dir.fake_bin("pyright-langserver");
    dir.fake_bin("pylsp");
    let spec = discovery_with_dirs(&[&dir])
        .discover(Language::Python)
        .unwrap();
    assert!(
        file_stem(&spec.command).starts_with("pyright-langserver"),
        "priority must prefer pyright over pylsp, got {:?}",
        spec.command
    );
    assert_eq!(spec.args, vec!["--stdio"]);
    assert_eq!(spec.language, Language::Python);
    assert!(spec.install_hint.contains("npm i -g pyright"));
}

#[test]
fn skips_missing_higher_priority_and_uses_next() {
    let mut dir = scratch("/scratch/2");
    dir.fake_bin("pylsp");
    let spec = discovery_with_dirs(&[&dir])
        .discover(Language::Python)
        .unwrap();
    assert!(file_stem(&spec.command).starts_with("pylsp"));
    assert!(spec.args.is_empty());
    assert!(spec.install_hint.contains("pip install python-lsp-server"));
}

#[test]
fn env_override_wins_over_path_priority() {
    let mut dir = scratch("/scratch/3");
    dir.fake_bin("pyright-langserver");
    let pylsp = dir.fake_bin("pylsp");
    let spec = discovery_with_dirs(&[&dir])
        .with_env("ASTROLABE_LSP_PYTHON", &pylsp)
        .discover(Language::Python)
        .unwrap();
    assert_eq!(spec.command, pylsp);
    assert!(spec.args.is_empty());
}

#[test]
fn env_override_bare_name_searches_path() {
    let mut dir = scratch("/scratch/4");
    dir.fake_bin("pyright-langserver");
    dir.fake_bin("jedi-language-server");
    let spec = discovery_with_dirs(&[&dir])
        .with_env("ASTROLABE_LSP_PYTHON", "jedi-language-server")
        .discover(Language::Python)
        .unwrap();
    assert!(file_stem(&spec.command).starts_with("jedi-language-server"));
}

#[test]
fn env_override_missing_is_unavailable_not_silent() {
    let mut dir = scratch("/scratch/5");
    dir.fake_bin("pyright-langserver");
    let missing = dir.path("does-not-exist");
    let err = discovery_with_dirs(&[&dir])
        .with_env("ASTROLABE_LSP_PYTHON", &missing)
        .discover(Language::Python)
        .unwrap_err();
    let (lang, hint) = unavailable_hint(err);
    assert_eq!(lang, Language::Python);
    assert!(hint.contains("ASTROLABE_LSP_PYTHON"));
    assert!(
        hint.contains("does-not-exist"),
        "hint should mention the missing override path, got: {hint}"
    );
    assert!(hint.contains("npm i -g pyright"));
}

#[test]
fn stdio_args_for_known_servers() {
    let mut dir = scratch("/scratch/6");
    dir.fake_bin("pyright-langserver");
    dir.fake_bin("typescript-language-server");
    dir.fake_bin("vtsls");
    dir.fake_bin("gopls");
    dir.fake_bin("rust-analyzer");
    dir.fake_bin("ruff");
    let d = discovery_with_dirs(&[&dir]);

    assert_eq!(d.discover(Language::Python).unwrap().args, vec!["--stdio"]);
    assert_eq!(
        d.discover(Language::TypeScript).unwrap().args,
        vec!["--stdio"]
    );
    assert_eq!(d.discover(Language::Go).unwrap().args, Vec::<String>::new());
    assert_eq!(
        d.discover(Language::Rust).unwrap().args,
        Vec::<String>::new()
    );

    let mut ruff_only = scratch("/scratch/7");
    ruff_only.fake_bin("ruff");
    assert_eq!(
        discovery_with_dirs(&[&ruff_only])
            .discover(Language::Python)
            .unwrap()
            .args,
        vec!["server"]
    );
}

#[test]
fn typescript_javascript_and_tsx_share_servers() {
    let mut dir = scratch("/scratch/8");
    dir.fake_bin("vtsls");
    let d = discovery_with_dirs(&[&dir]);
    for language in [Language::TypeScript, Language::Tsx, Language::JavaScript] {
        let spec = d.discover(language).unwrap();
        assert_eq!(spec.language, language);
        assert!(file_stem(&spec.command).starts_with("vtsls"));
        assert_eq!(spec.args, vec!["--stdio"]);
    }
}

#[test]
fn javascript_override_falls_back_to_typescript_var() {
    let mut dir = scratch("/scratch/9");
    let vtsls = dir.fake_bin("vtsls");
    let spec = Discovery::new("")
        .with_found(&vtsls, &vtsls)
        .with_env("ASTROLABE_LSP_TYPESCRIPT", &vtsls)
        .discover(Language::JavaScript)
        .unwrap();
    assert_eq!(spec.command, vtsls);
}

#[test]
fn java_without_jdtls_explains_wrapper_and_java_jar() {
    let err = Discovery::new("").discover(Language::Java).unwrap_err();
    let (_, hint) = unavailable_hint(err);
    assert!(hint.contains("brew install jdtls"));
    assert!(hint.contains("java -Declipse.application"));
    assert!(hint.contains("-jar"));
    assert!(hint.contains("-data"));
    assert!(hint.contains("config_{linux|mac|win}"));
}

#[test]
fn java_finds_jdtls_wrapper_when_present() {
    let mut dir = scratch("/scratch/10");
    dir.fake_bin("jdtls");
    let spec = discovery_with_dirs(&[&dir])
        .discover(Language::Java)
        .unwrap();
    assert!(file_stem(&spec.command).starts_with("jdtls"));
    assert!(spec.args.is_empty());
}

#[test]
fn probe_report_covers_every_language_and_is_deterministic() {
    let mut dir = scratch("/scratch/11");
    dir.fake_bin("gopls");
    let d = discovery_with_dirs(&[&dir]);
    let first = d.probe_report();
    let second = d.probe_report();
    assert_eq!(first, second);
    assert_eq!(first.len(), PROBED_LANGUAGES.len());
    let langs: Vec<Language> = first.iter().map(|r| r.language).collect();
    assert_eq!(langs, PROBED_LANGUAGES);
    for row in &first {
        assert!(!row.install_hint.is_empty());
    }
    let go = first.iter().find(|r| r.language == Language::Go).unwrap();
    assert!(go.available());
    let rust = first.iter().find(|r| r.language == Language::Rust).unwrap();
    assert!(!rust.available());
    assert!(rust.summary().contains("unavailable"));
}

#[test]
fn process_snapshot_reports_every_language() {
    let report = StubInstaller::default().discovery.probe_report();
    assert_eq!(report.len(), PROBED_LANGUAGES.len());
    let langs: Vec<Language> = report.iter().map(|r| r.language).collect();
    assert_eq!(langs, PROBED_LANGUAGES);
    for row in &report {
        assert!(!row.install_hint.is_empty());
    }
}

#[test]
fn windows_cmd_suffix_is_accepted() {
    let mut dir = scratch("/scratch/win");
    let cmd = dir.fake_bin("pyright-langserver.cmd");
    let plain = discovery_with_dirs(&[&dir]);
    assert!(plain.discover(Language::Python).is_err());

    // The file system does not mind the case of a name there.
    let d = discovery_with_dirs(&[&dir])
        .with_found(&dir.path("pyright-langserver.CMD"), &cmd)
        .on_windows(true);
    let spec = d.discover(Language::Python).unwrap();
    assert!(
        spec.command.ends_with("pyright-langserver.cmd"),
        "expected a .cmd shim, got {:?}",
        spec.command
    );
    assert_eq!(spec.args, vec!["--stdio"]);
}

#[test]
fn command_names_include_windows_extensions() {
    let names = command_names("gopls", true, DEFAULT_PATHEXT);
    assert_eq!(names[0], "gopls");
    assert!(
        names.contains(&"gopls.EXE".to_string())
            || names.iter().any(|n| n.eq_ignore_ascii_case("gopls.exe"))
    );
    assert!(names.iter().any(|n| n.eq_ignore_ascii_case("gopls.cmd")));
    let unix = command_names("gopls", false, DEFAULT_PATHEXT);
    assert_eq!(unix, vec!["gopls".to_string()]);
    let already = command_names("gopls.cmd", true, DEFAULT_PATHEXT);
    assert_eq!(already, vec!["gopls.cmd".to_string()]);
}

#[test]
fn higher_priority_in_later_path_dir_still_wins() {
    let mut first = scratch("/scratch/13");
    let mut second = scratch("/scratch/14");
    first.fake_bin("pylsp");
    second.fake_bin("pyright-langserver");
    let spec = discovery_with_dirs(&[&first, &second])
        .discover(Language::Python)
        .unwrap();
    assert!(file_stem(&spec.command).starts_with("pyright-langserver"));
}

#[test]
fn non_executable_file_is_skipped() {
    let dir = scratch("/scratch/15");
    assert!(!is_runnable(true, 0o644));
    let err = discovery_with_dirs(&[&dir])
        .discover(Language::Go)
        .unwrap_err();
    let (lang, hint) = unavailable_hint(err);
    assert_eq!(lang, Language::Go);
    assert!(hint.contains("go install golang.org/x/tools/gopls@latest"));
}

#[test]
fn tsc_override_gets_lsp_stdio_args() {
    let mut dir = scratch("/scratch/16");
    let tsc = dir.fake_bin("tsc");
    let spec = Discovery::new("")
        .with_found(&tsc, &tsc)
        .with_env("ASTROLABE_LSP_TYPESCRIPT", &tsc)
        .discover(Language::TypeScript)
        .unwrap();
    assert_eq!(spec.args, vec!["--lsp", "--stdio"]);
}

#[test]
fn env_override_var_names_are_stable() {
    assert_eq!(env_override_var(Language::Python), "ASTROLABE_LSP_PYTHON");
    assert_eq!(env_override_var(Language::Go), "ASTROLABE_LSP_GO");
    assert_eq!(env_override_var(Language::Java), "ASTROLABE_LSP_JAVA");
    assert_eq!(env_override_var(Language::Rust), "ASTROLABE_LSP_RUST");
    assert_eq!(
        env_override_var(Language::TypeScript),
        "ASTROLABE_LSP_TYPESCRIPT"
    );
    assert_eq!(env_override_var(Language::Tsx), "ASTROLABE_LSP_TSX");
    assert_eq!(
        env_override_var(Language::JavaScript),
        "ASTROLABE_LSP_JAVASCRIPT"
    );
}

#[test]
fn every_path_that_is_asked_about_is_named_beforehand() {
    let d = Discovery::new("/a:/b").with_env("ASTROLABE_LSP_GO", "gopls-beta");
    let asked = d.paths_to_check(Language::Go);
    for path in ["/a/gopls-beta", "/b/gopls-beta"] {
        assert!(asked.iter().any(|p| p == path), "{path} in {asked:?}");
    }
    let found = d.with_found("/b/gopls-beta", "/real/gopls-beta");
    assert_eq!(
        found.discover(Language::Go).unwrap().command,
        "/real/gopls-beta"
    );
}

#[test]
fn names_of_programs_are_read_off_their_paths() {
    assert_eq!(bin_stem("/usr/bin/gopls"), "gopls");
    assert_eq!(bin_stem("/x/vtsls.cmd"), "vtsls");
    let chars = |s: &str| -> Vec<char> { s.chars().collect() };
    assert!(is_bare_name(&chars("gopls")));
    assert!(!is_bare_name(&chars("/usr/bin/gopls")));
    assert_eq!(parse_pathext("exe;.CMD"), vec![".exe", ".CMD"]);
}

#[test]
fn a_blank_override_is_no_override() {
    let d = Discovery::new("").with_env("ASTROLABE_LSP_GO", "  ");
    assert!(d.override_value(Language::Go).is_none());
    let d = d.with_env("ASTROLABE_LSP_GO", "x");
    assert_eq!(
        d.override_value(Language::Go),
        Some(("ASTROLABE_LSP_GO", "x".to_string()))
    );
}

#[test]
fn summaries_say_what_was_found() {
    let missing = Discovery::new("").probe(Language::Go);
    assert!(!missing.available());
    let d = Discovery::new("/a").with_found("/a/gopls", "/a/gopls");
    let there = d.probe(Language::Go);
    assert!(there.available());
    assert!(there.summary().contains("/a/gopls"));
    assert!(!there.summary().contains("unavailable"));
}

#[test]
fn extensions_go_behind_the_last_name() {
    for (value, wanted) in [
        ("tools/gopls", "tools/gopls.CMD"),
        ("tools/gopls/", "tools/gopls.CMD"),
        ("tools/gopls/.", "tools/gopls.CMD"),
        ("tools/gopls/.//", "tools/gopls.CMD"),
    ] {
        let d = Discovery::new("")
            .on_windows(true)
            .with_env("ASTROLABE_LSP_GO", value)
            .with_found(wanted, wanted);
        assert!(d.paths_to_check(Language::Go).iter().any(|p| p == wanted));
        assert_eq!(d.discover(Language::Go).unwrap().command, wanted);
    }
}
