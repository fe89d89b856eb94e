use astrolabe_core::churn::{
    compute_churn, git_step, log_args, parse_log, prefix_args, rebase_path, ChurnStats, ChurnTable,
    GitStep, Sighting, GIT_TIMEOUT,
};

fn at(table: &ChurnTable, path: &str) -> ChurnStats {
    table.get(path).expect("the file is in the table")
}

const DAY: i64 = 86400;


fn header(ts: i64, author: &str) -> String {
    format!("\u{1f}{ts}\u{1f}{author}\n")
}

#[test]
fn parse_log_multiple_commits_files_and_authors() {
    let now = 1_700_000_000i64;
    let raw = format!(
        "{}src/a.rs\nsrc/b.rs\n\n{}src/a.rs\nsrc/c.rs\n\n{}docs/x.md\n",
        header(now - DAY, "alice"),
        header(now - 40 * DAY, "bob"),
        header(now - DAY, "alice"),
    );
    let table = parse_log(&raw, now);
    assert_eq!(table.len(), 4);
    assert_eq!(
        table.get("src/a.rs"),
        Some(ChurnStats {
            commits_30d: 1,
            commits_90d: 2,
            authors_90d: 2,
        })
    );
    assert_eq!(
        table.get("src/b.rs"),
        Some(ChurnStats {
            commits_30d: 1,
            commits_90d: 1,
            authors_90d: 1,
        })
    );
    assert_eq!(
        table.get("src/c.rs"),
        Some(ChurnStats {
            commits_30d: 0,
            commits_90d: 1,
            authors_90d: 1,
        })
    );
    assert_eq!(
        table.get("docs/x.md"),
        Some(ChurnStats {
            commits_30d: 1,
            commits_90d: 1,
            authors_90d: 1,
        })
    );
}

#[test]
fn parse_log_dedups_repeated_file_within_one_commit() {
    let now = 1_700_000_000i64;
    let raw = format!("{}dup.rs\ndup.rs\ndup.rs\nother.rs\n", header(now, "alice"));
    let table = parse_log(&raw, now);
    assert_eq!(
        table.get("dup.rs"),
        Some(ChurnStats {
            commits_30d: 1,
            commits_90d: 1,
            authors_90d: 1,
        })
    );
    assert_eq!(table.len(), 2);
}

#[test]
fn parse_log_window_boundaries() {
    let now = 1_700_000_000i64;
    let raw = format!(
        "{}at-now.rs\n{}at-30d.rs\n{}at-30d-minus-1s.rs\n{}at-90d.rs\n{}at-90d-minus-1s.rs\n",
        header(now, "a"),
        header(now - 30 * DAY, "a"),
        header(now - 30 * DAY - 1, "a"),
        header(now - 90 * DAY, "a"),
        header(now - 90 * DAY - 1, "a"),
    );
    let table = parse_log(&raw, now);
    assert_eq!(at(&table, "at-now.rs").commits_30d, 1);
    assert_eq!(at(&table, "at-30d.rs").commits_30d, 1);
    let just_outside = at(&table, "at-30d-minus-1s.rs");
    assert_eq!((just_outside.commits_30d, just_outside.commits_90d), (0, 1));
    assert_eq!(at(&table, "at-90d.rs").commits_90d, 1);
    assert!(!table.get("at-90d-minus-1s.rs").is_some());
    assert_eq!(table.len(), 4);
}

#[test]
fn parse_log_quoted_escaped_and_garbage_lines() {
    let now = 1_700_000_000i64;
    let raw = format!(
        "\n\n完全不在提交里的噪声行\n{}plain.rs\n\"we ird.rs\"\n\"esc\\\"aped.rs\"\n\"\\350\\256\\270.rs\"\n\n{}next.rs\n",
        header(now, "a"),
        header(now, "b"),
    );
    let table = parse_log(&raw, now);
    assert!(table.get("we ird.rs").is_some());
    assert!(!table.get("esc\"aped.rs").is_some());
    assert!(!table.get("\\350\\256\\270.rs").is_some());
    assert!(table.len() == 3);
    assert_eq!(at(&table, "plain.rs").commits_30d, 1);
    assert_eq!(at(&table, "next.rs").authors_90d, 1);
}

#[test]
fn parse_log_malformed_header_skips_until_next_header() {
    let now = 1_700_000_000i64;
    let raw = format!(
        "\u{1f}{}\u{1f}\norphan.rs\n{}kept.rs\n",
        now,
        header(now, "a")
    );
    let table = parse_log(&raw, now);
    assert_eq!(table.len(), 1);
    assert!(table.get("kept.rs").is_some());
    assert!(parse_log("", now).is_empty());
}


#[test]
fn rebase_path_strips_prefix_and_drops_outside_subtree() {
    assert_eq!(rebase_path("a/b/c.rs", "a/b/"), Some("c.rs".to_string()));
    assert_eq!(
        rebase_path("a/b/nested/d.rs", "a/b/"),
        Some("nested/d.rs".to_string())
    );
    assert_eq!(rebase_path("x/y.rs", "a/b/"), None);
    assert_eq!(rebase_path("a/c.rs", "a/b/"), None);
}

#[test]
fn rebase_path_empty_prefix_is_passthrough() {
    assert_eq!(
        rebase_path("src/foo.rs", ""),
        Some("src/foo.rs".to_string())
    );
    assert_eq!(rebase_path("x/y.rs", ""), Some("x/y.rs".to_string()));
}

#[test]
fn rebase_path_matches_on_component_boundary() {
    assert_eq!(rebase_path("a/b/c.rs", "a/b"), Some("c.rs".to_string()));
    assert_eq!(rebase_path("a/bc.rs", "a/b"), None);
    assert_eq!(rebase_path("a/b", "a/b"), None);
    assert_eq!(rebase_path("a/bc.rs", "a/b/"), None);
    assert_eq!(rebase_path("a/b/", "a/b/"), None);
}


#[test]
fn compute_churn_on_this_repo() {
    let now = 1_700_000_000i64;
    let log = format!(
        "{}crates/astrolabe-core/src/churn.rs\ncrates/astrolabe-core/src/graph.rs\nREADME.md\n\n{}crates/astrolabe-core/src/churn.rs\n",
        header(now - DAY, "alice"),
        header(now - 40 * DAY, "bob"),
    );
    let table = compute_churn(Some("crates/astrolabe-core/\n"), Some(&log), now);
    assert!(!table.is_empty(), "churn table should not be empty");
    assert!(table.entries.iter().any(|e| !e.path.starts_with("crates/")));
    for entry in &table.entries {
        assert!(entry.stats.commits_30d <= entry.stats.commits_90d);
        if entry.stats.commits_90d > 0 {
            assert!(entry.stats.authors_90d >= 1);
        }
    }
    assert_eq!(table.len(), 2);
    assert_eq!(
        table.get("src/churn.rs"),
        Some(ChurnStats {
            commits_30d: 1,
            commits_90d: 2,
            authors_90d: 2,
        })
    );
    assert!(table.get("README.md").is_none());
}

#[test]
fn compute_churn_on_non_git_dir_returns_empty() {
    assert!(compute_churn(None, None, 0).is_empty());
    assert!(compute_churn(Some(""), None, 0).is_empty());
    assert!(compute_churn(None, Some("\u{1f}1\u{1f}a\nx.rs\n"), 1).is_empty());
}

#[test]
fn rebased_paths_stay_apart() {
    let paths = ["a/b/c.rs", "a/b/d.rs", "a/b/e/c.rs", "a/c.rs"];
    for x in paths {
        for y in paths {
            if x != y {
                if let (Some(p), Some(q)) = (rebase_path(x, "a/b/"), rebase_path(y, "a/b/")) {
                    assert_ne!(p, q);
                }
            }
        }
    }
}

#[test]
fn thirty_days_lie_within_ninety() {
    let now = 1_700_000_000i64;
    let mut raw = String::new();
    for day in [0i64, 10, 29, 30, 31, 60, 90, 91] {
        raw.push_str(&header(now - day * DAY, "a"));
        raw.push_str("x.rs\n");
    }
    let stats = at(&parse_log(&raw, now), "x.rs");
    assert_eq!((stats.commits_30d, stats.commits_90d), (4, 7));
}

#[test]
fn git_is_given_its_time_and_no_more() {
    assert_eq!(git_step(Sighting::Ended(true), 5, 10), GitStep::Read);
    assert_eq!(git_step(Sighting::Ended(false), 5, 10), GitStep::GiveUp);
    assert_eq!(git_step(Sighting::Running, 9, 10), GitStep::Sleep);
    assert_eq!(git_step(Sighting::Running, 10, 10), GitStep::Kill);
    assert_eq!(git_step(Sighting::Lost, 0, 10), GitStep::Kill);
    assert_eq!(GIT_TIMEOUT, 10_000);
    assert_eq!(prefix_args(), vec!["rev-parse", "--show-prefix"]);
    assert_eq!(
        log_args(),
        vec![
            "log",
            "--since=90.days",
            "--name-only",
            "--pretty=format:%x1f%at%x1f%an"
        ]
    );
}
