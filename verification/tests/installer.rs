use astrolabe_core::lsp::installation::{
    executable_mode, fetch_timeout, find_cached_binary, is_runnable, lock_step, place_entry,
    safe_join, unpacked_program, Action, Attempt, Event, Installation, LockStep, Place, Unpacked,
    VersionDir,
};
use astrolabe_core::lsp::installer::{
    default_servers_dir, env_truthy, judge_sum, needs_install_for, rewrite_mirror, validate_spec,
    verify_download, ArchiveFormat, AutoInstallMode, InstallError, InstallSpec,
};
use astrolabe_core::types::Language;
use flate2::write::GzEncoder;
use flate2::Compression;
use sha2::{Digest, Sha256};
use std::collections::{HashMap, HashSet};

/// What is on disk and what can be fetched.
struct World {
    responses: HashMap<String, Vec<u8>>,
    hits: Vec<String>,
    programs: HashSet<String>,
    marks: HashMap<String, String>,
    locked: Vec<String>,
}

impl World {
    fn new() -> Self {
        World {
            responses: HashMap::new(),
            hits: Vec::new(),
            programs: HashSet::new(),
            marks: HashMap::new(),
            locked: Vec::new(),
        }
    }

    fn with(url: &str, body: Vec<u8>) -> Self {
        let mut w = Self::new();
        w.responses.insert(url.to_string(), body);
        w
    }

    fn ensure_installed_with(
        &mut self,
        spec: InstallSpec,
        offline: bool,
    ) -> Result<String, InstallError> {
        let binary = spec.binary_path("/cache");
        let (mut work, mut action) = Installation::start(spec, "/cache".into(), offline, None);
        loop {
            let event = match action {
                Action::Look { binary, marker } => Event::Installed(
                    self.programs.contains(&binary) && self.marks.contains_key(&marker),
                ),
                Action::MakeDir(_) => Event::Made(Ok(())),
                Action::Lock(path) => {
                    self.locked.push(path);
                    Event::Locked(Ok(()))
                }
                Action::Fetch(url) => {
                    self.hits.push(url.clone());
                    Event::Fetched(
                        self.responses
                            .get(&url)
                            .cloned()
                            .ok_or(format!("unexpected url {url}")),
                    )
                }
                Action::Unpack(bytes) => Event::Unpacked(if bytes.is_empty() {
                    Unpacked::Failed("empty".into())
                } else {
                    Unpacked::Whole
                }),
                Action::Replace(_) => {
                    self.programs.insert(binary.clone());
                    Event::Replaced(Ok(()))
                }
                Action::Mark { path, text } => {
                    self.marks.insert(path, text);
                    Event::Marked(Ok(()))
                }
                Action::Check(path) => Event::Runs(self.programs.contains(&path)),
                Action::Done(result) => return result,
            };
            action = work.step(event);
        }
    }
}

fn make_targz_with_bin(rel: &str, contents: &[u8]) -> Vec<u8> {
    let mut raw = Vec::new();
    {
        let enc = GzEncoder::new(&mut raw, Compression::default());
        let mut builder = tar::Builder::new(enc);
        let mut header = tar::Header::new_gnu();
        header.set_size(contents.len() as u64);
        header.set_mode(0o755);
        header.set_cksum();
        builder.append_data(&mut header, rel, contents).unwrap();
        builder.into_inner().unwrap().finish().unwrap();
    }
    raw
}

fn spec_of(name: &str, version: &str, url: &str, sha256: &str, bin: &str) -> InstallSpec {
    InstallSpec {
        name: name.into(),
        version: version.into(),
        url: url.into(),
        sha256: sha256.into(),
        archive: ArchiveFormat::TarGz,
        binary_relative: bin.into(),
    }
}

#[test]
fn auto_install_mode_parses() {
    assert_eq!(AutoInstallMode::default(), AutoInstallMode::Prompt);
    assert_eq!(AutoInstallMode::Prompt.as_str(), "prompt");
    assert_eq!(AutoInstallMode::from_env(" ON "), AutoInstallMode::On);
    assert_eq!(AutoInstallMode::from_env("no"), AutoInstallMode::Off);
    assert_eq!(AutoInstallMode::from_env("perhaps"), AutoInstallMode::Prompt);
}

#[test]
fn mirror_rewrites_github_only() {
    assert_eq!(
        rewrite_mirror(
            "https://github.com/foo/bar/releases/x",
            Some("https://ghproxy.com/")
        ),
        "https://ghproxy.com/foo/bar/releases/x"
    );
    assert_eq!(
        rewrite_mirror("https://example.com/x", Some("https://ghproxy.com/")),
        "https://example.com/x"
    );
}

#[test]
fn ensure_installed_downloads_verifies_and_extracts() {
    let archive = make_targz_with_bin("bin/demo-ls", b"#!/bin/sh\nexit 0\n");
    let sha = hex::encode(Sha256::digest(&archive));
    let url = "https://example.test/demo-ls.tar.gz";
    let spec = || spec_of("demo-ls", "1.0.0", url, &sha, "bin/demo-ls");
    let mut world = World::with(url, archive);
    let bin = world.ensure_installed_with(spec(), false).unwrap();
    assert_eq!(bin, "/cache/demo-ls/1.0.0/bin/demo-ls");
    assert_eq!(
        world.marks["/cache/demo-ls/1.0.0/.installed"],
        format!("name=demo-ls\nversion=1.0.0\nsha256={sha}\nurl={url}\n")
    );
    assert_eq!(world.locked, vec!["/cache/demo-ls/.1.0.0.install.lock"]);
    let before = world.hits.len();
    let again = world.ensure_installed_with(spec(), false).unwrap();
    assert_eq!(bin, again);
    assert_eq!(world.hits.len(), before);
}

#[test]
fn checksum_mismatch_refuses_install() {
    let archive = make_targz_with_bin("bin/x", b"x");
    let actual_sum = hex::encode(Sha256::digest(&archive));
    let url = "https://example.test/x.tar.gz";
    let mut world = World::with(url, archive);
    let err = world
        .ensure_installed_with(spec_of("x", "1", url, &"0".repeat(64), "bin/x"), false)
        .unwrap_err();
    match err {
        InstallError::ChecksumMismatch {
            name,
            expected,
            actual,
        } => {
            assert_eq!(name, "x");
            assert_eq!(expected, "0".repeat(64));
            assert_eq!(actual, actual_sum);
        }
        other => panic!("expected a mismatch, got {other:?}"),
    }
    assert!(world.programs.is_empty());
}

#[test]
fn offline_refuses_download() {
    let mut world = World::new();
    let spec = spec_of("x", "1", "https://example.test/x", "ab", "x");
    assert!(matches!(
        world.ensure_installed_with(spec, true).unwrap_err(),
        InstallError::Offline(_)
    ));
    assert!(world.hits.is_empty());
}

#[test]
fn missing_checksum_refuses() {
    let mut world = World::new();
    let spec = spec_of("x", "1", "https://example.test/x", "  ", "x");
    assert!(matches!(
        world.ensure_installed_with(spec, false).unwrap_err(),
        InstallError::MissingChecksum(_)
    ));
}

#[test]
fn failed_downloads_and_archives_are_reported() {
    let mut world = World::new();
    let spec = spec_of("x", "1", "https://example.test/x", "ab", "x");
    assert_eq!(
        world.ensure_installed_with(spec, false),
        Err(InstallError::Download(
            "x".into(),
            "unexpected url https://example.test/x".into()
        ))
    );
    let empty = hex::encode(Sha256::digest(b""));
    let mut world = World::with("https://example.test/x", vec![]);
    let spec = spec_of("x", "1", "https://example.test/x", &empty, "x");
    assert_eq!(
        world.ensure_installed_with(spec, false),
        Err(InstallError::Extract("x".into(), "empty".into()))
    );
}

#[test]
fn find_cached_binary_prefers_newest_version() {
    let dirs = |usable: bool| {
        vec![
            VersionDir {
                name: "1.0.0".into(),
                runnable: true,
            },
            VersionDir {
                name: "2.0.0".into(),
                runnable: usable,
            },
            VersionDir {
                name: ".9.staging".into(),
                runnable: true,
            },
        ]
    };
    assert_eq!(
        find_cached_binary("/c", "clangd", "clangd", &dirs(true)).as_deref(),
        Some("/c/clangd/2.0.0/clangd")
    );
    assert_eq!(
        find_cached_binary("/c", "clangd", "clangd", &dirs(false)).as_deref(),
        Some("/c/clangd/1.0.0/clangd")
    );
    assert_eq!(find_cached_binary("/c", "clangd", "clangd", &vec![]), None);
}

#[test]
fn needs_install_summary_mentions_mode() {
    let n = needs_install_for(
        Language::Cpp,
        "install clangd",
        "clangd",
        Some(InstallSpec {
            name: "clangd".into(),
            version: "1".into(),
            url: "https://example.test/x".into(),
            sha256: "aa".into(),
            archive: ArchiveFormat::Raw,
            binary_relative: "clangd".into(),
        }),
        AutoInstallMode::Prompt,
        "/tmp/servers",
    );
    assert!(n.message().contains("ASTROLABE_AUTO_INSTALL=on"));
    assert!(n.hint.auto_installable);
    assert_eq!(n.hint.language, Language::Cpp);
    assert_eq!(n.hint.cache_dir, "/tmp/servers/clangd");
}

#[test]
fn sums_are_those_of_the_bytes() {
    let known = "ba7816bf8f01cfea414140de5dae2223b00361a396177a9cb410ff61f20015ad";
    let spec = spec_of("x", "1", "u", &format!(" {}\n", known.to_uppercase()), "x");
    assert!(verify_download(&spec, &b"abc".to_vec()).is_ok());
    assert!(verify_download(&spec, &b"abd".to_vec()).is_err());
    assert!(judge_sum(&spec, known.to_string()).is_ok());
    assert!(judge_sum(&spec, "00".to_string()).is_err());
}

#[test]
fn unpacked_files_stay_inside() {
    assert_eq!(safe_join("/base", "bin/x").unwrap(), "/base/bin/x");
    assert_eq!(safe_join("/base", "./bin//x").unwrap(), "/base/bin/x");
    for outside in ["../x", "bin/../../x", "/etc/passwd"] {
        assert!(safe_join("/base", outside).is_err(), "{outside}");
    }
}

#[test]
fn names_that_are_no_directories_are_refused() {
    for (name, version, bin) in [
        ("", "1", "x"),
        ("a/b", "1", "x"),
        ("a", "..", "x"),
        ("a", "1\\2", "x"),
        ("a", "1", ""),
        ("a", "1", "../x"),
        ("a", "1", "/usr/bin/x"),
    ] {
        assert!(
            matches!(
                validate_spec(&spec_of(name, version, "u", "aa", bin)),
                Err(InstallError::InvalidSpec(..))
            ),
            "{name} {version} {bin}"
        );
    }
    assert_eq!(validate_spec(&spec_of("a", "1", "u", "aa", "bin/x")), Ok(()));
}

#[test]
fn a_lock_is_waited_for_and_broken_when_it_is_stale() {
    assert!(matches!(
        lock_step(Attempt::Taken, "/l", 0, 10, None),
        LockStep::Held
    ));
    assert!(matches!(
        lock_step(Attempt::Exists, "/l", 5, 10, Some(11)),
        LockStep::Break
    ));
    assert!(matches!(
        lock_step(Attempt::Exists, "/l", 5, 10, Some(10)),
        LockStep::Sleep
    ));
    match lock_step(Attempt::Exists, "/l", 10, 10, Some(11)) {
        LockStep::Fail(why) => assert_eq!(why, "timed out waiting for install lock /l"),
        other => panic!("got {other:?}"),
    }
    assert!(matches!(
        lock_step(Attempt::Failed("denied".into()), "/l", 0, 10, None),
        LockStep::Fail(_)
    ));
}

#[test]
fn settings_of_the_installer() {
    assert!(env_truthy("Yes") && env_truthy("1") && !env_truthy("") && !env_truthy("2"));
    assert_eq!(default_servers_dir(Some("/home/a")), "/home/a/.astrolabe/servers");
    assert_eq!(default_servers_dir(None), "./.astrolabe/servers");
    assert_eq!((fetch_timeout(0), fetch_timeout(7)), (60, 7));
    assert_eq!(executable_mode(0o644), 0o755);
    assert!(is_runnable(true, 0o100) && !is_runnable(true, 0o666) && !is_runnable(false, 0o777));
}

#[test]
fn attempts_are_unpacked_side_by_side() {
    let spec = spec_of("a", "1.2", "u", "aa", "x");
    assert_eq!(spec.staging_path("/c", "7-9"), "/c/a/.1.2.staging-7-9");
    assert_eq!(spec.version_dir("/c"), "/c/a/1.2");
    assert_eq!(spec.marker_path("/c"), "/c/a/1.2/.installed");
}

#[test]
fn entries_of_archives_find_their_places() {
    assert_eq!(place_entry("/d", None, false), Place::Skip);
    assert_eq!(
        place_entry("/d", Some("bin/"), true),
        Place::MakeDir("/d/bin".into())
    );
    assert_eq!(
        place_entry("/d", Some("bin/x"), false),
        Place::Write("/d/bin/x".into())
    );
    assert_eq!(
        place_entry("/d", Some("../x"), false),
        Place::Refuse("archive path escapes destination: ../x".into())
    );
    assert_eq!(
        place_entry("/d", Some("/x"), true),
        Place::Refuse("archive path is absolute: /x".into())
    );
    assert_eq!(unpacked_program("bin/x", true), Ok(()));
    assert_eq!(
        unpacked_program("bin/x", false),
        Err("archive did not contain expected binary bin/x".into())
    );
}

#[test]
fn what_is_installed_stays_through_later_runs() {
    let good = make_targz_with_bin("bin/x", b"good");
    let sha = hex::encode(Sha256::digest(&good));
    let url = "https://example.test/x.tar.gz";
    let spec = || spec_of("x", "1", url, &sha, "bin/x");
    let mut world = World::with(url, good);
    let bin = world.ensure_installed_with(spec(), false).unwrap();
    assert_eq!(world.hits.len(), 1);

    world.responses.clear();
    assert_eq!(world.ensure_installed_with(spec(), true).unwrap(), bin);
    assert_eq!(world.ensure_installed_with(spec(), false).unwrap(), bin);
    assert_eq!((world.hits.len(), world.locked.len()), (1, 1));

    let (programs, marks) = (world.programs.clone(), world.marks.clone());
    world.responses.insert("https://example.test/y".into(), b"other".to_vec());
    let other = spec_of("y", "1", "https://example.test/y", &sha, "bin/y");
    assert!(matches!(
        world.ensure_installed_with(other, false).unwrap_err(),
        InstallError::ChecksumMismatch { .. }
    ));
    assert_eq!((world.programs, world.marks), (programs, marks));
}
