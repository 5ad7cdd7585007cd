//! The history resolver on hand-built commit lists, the log parser, and the
//! year rendering.

use git_copyright::git_ops::changes_verdict;
use git_copyright::git_ops::parse_cmd_output;
use git_copyright::git_ops::parse_git_log;
use git_copyright::git_ops::render_years;
use git_copyright::git_ops::resolve_history;
use git_copyright::git_ops::Commit;
use git_copyright::git_ops::FileChange;
use git_copyright::CError;

fn add(path: &str) -> FileChange {
    FileChange { old_path: path.into(), new_path: path.into(), is_add: true }
}

fn modify(path: &str) -> FileChange {
    FileChange { old_path: path.into(), new_path: path.into(), is_add: false }
}

fn rename(old: &str, new: &str) -> FileChange {
    FileChange { old_path: old.into(), new_path: new.into(), is_add: false }
}

#[test]
fn test_rename_continuity() {
    // new.ext was created as old.ext in 2020 and renamed in 2022; queried at
    // a reference after the rename it spans 2020-2022.
    let candidates: Vec<String> = vec!["new.ext".into()];
    let commits = vec![
        Commit { year: 2022, parents: 1, changes: vec![rename("old.ext", "new.ext")] },
        Commit { year: 2020, parents: 1, changes: vec![add("old.ext")] },
    ];
    let res = resolve_history(&candidates, &commits);
    assert_eq!(res.resolved.len(), 1);
    assert_eq!(res.resolved[0].path, "new.ext");
    assert_eq!(res.resolved[0].added, 2020);
    assert_eq!(res.resolved[0].last_modified, 2022);
    assert!(res.undetermined.is_empty());
}

#[test]
fn test_root_commit_fallback() {
    // keeper.rs has been there since the root commit and was never touched
    // again: both years fall back to the root commit's.
    let candidates: Vec<String> = vec!["keeper.rs".into()];
    let commits = vec![
        Commit { year: 2023, parents: 1, changes: vec![modify("other.rs")] },
        Commit { year: 2019, parents: 0, changes: vec![] },
    ];
    let res = resolve_history(&candidates, &commits);
    assert_eq!(res.resolved.len(), 1);
    assert_eq!(res.resolved[0].path, "keeper.rs");
    assert_eq!(res.resolved[0].added, 2019);
    assert_eq!(res.resolved[0].last_modified, 2019);
    assert!(res.undetermined.is_empty());
}

#[test]
fn test_merge_commits_contribute_nothing() {
    // The merge commit touching f.rs in 2024 is skipped; the last authorial
    // touch is the addition in 2020.
    let candidates: Vec<String> = vec!["f.rs".into()];
    let commits = vec![
        Commit { year: 2024, parents: 2, changes: vec![modify("f.rs")] },
        Commit { year: 2020, parents: 1, changes: vec![add("f.rs")] },
    ];
    let res = resolve_history(&candidates, &commits);
    assert_eq!(res.resolved.len(), 1);
    assert_eq!(res.resolved[0].added, 2020);
    assert_eq!(res.resolved[0].last_modified, 2020);
}

#[test]
fn test_newest_touch_wins() {
    let candidates: Vec<String> = vec!["f.rs".into()];
    let commits = vec![
        Commit { year: 2023, parents: 1, changes: vec![modify("f.rs")] },
        Commit { year: 2021, parents: 1, changes: vec![modify("f.rs")] },
        Commit { year: 2019, parents: 1, changes: vec![add("f.rs")] },
    ];
    let res = resolve_history(&candidates, &commits);
    assert_eq!(res.resolved.len(), 1);
    assert_eq!(res.resolved[0].added, 2019);
    assert_eq!(res.resolved[0].last_modified, 2023);
}

#[test]
fn test_undetermined_without_root() {
    // The commit list runs out before a root commit or an addition is seen:
    // the file's provenance is reported as undetermined, not defaulted.
    let candidates: Vec<String> = vec!["f.rs".into()];
    let commits = vec![Commit { year: 2023, parents: 1, changes: vec![modify("f.rs")] }];
    let res = resolve_history(&candidates, &commits);
    assert!(res.resolved.is_empty());
    assert_eq!(res.undetermined, vec!["f.rs".to_string()]);
}

#[test]
fn test_render_years_single() {
    assert_eq!(render_years(2021, 2021), "2021");
}

#[test]
fn test_render_years_range() {
    assert_eq!(render_years(2019, 2023), "2019-2023");
}

#[test]
fn test_parse_git_log() {
    let text = "#2023 aaaa bbbb\nM\tsrc/a.rs\n\n#2020 cccc\nA\tsrc/a.rs\nR100\told.rs\tnew.rs\nD\tgone.rs\n\n#2017\n";
    let commits = parse_git_log(text).unwrap();
    assert_eq!(commits.len(), 3);
    assert_eq!(commits[0].year, 2023);
    assert_eq!(commits[0].parents, 2);
    assert_eq!(commits[0].changes.len(), 1);
    assert_eq!(commits[0].changes[0].new_path, "src/a.rs");
    assert!(!commits[0].changes[0].is_add);
    assert_eq!(commits[1].year, 2020);
    assert_eq!(commits[1].parents, 1);
    // The deletion line contributes no change.
    assert_eq!(commits[1].changes.len(), 2);
    assert!(commits[1].changes[0].is_add);
    assert_eq!(commits[1].changes[1].old_path, "old.rs");
    assert_eq!(commits[1].changes[1].new_path, "new.rs");
    assert!(!commits[1].changes[1].is_add);
    assert_eq!(commits[2].year, 2017);
    assert_eq!(commits[2].parents, 0);
    assert!(commits[2].changes.is_empty());
}

#[test]
fn test_parse_git_log_rejects_stray_text() {
    let err = parse_git_log("this is not a log").unwrap_err();
    assert!(matches!(err, CError::GitCmdError(_)));
}

#[test]
fn test_log_to_years_end_to_end() {
    let text = "#2022 aaaa\nR100\told.ext\tnew.ext\n#2020 bbbb\nA\told.ext\n";
    let commits = parse_git_log(text).unwrap();
    let candidates: Vec<String> = vec!["new.ext".into()];
    let res = resolve_history(&candidates, &commits);
    assert_eq!(res.resolved.len(), 1);
    let years = render_years(res.resolved[0].added, res.resolved[0].last_modified);
    assert_eq!(years, "2020-2022");
}

#[test]
fn test_parse_cmd_output() {
    let lines = parse_cmd_output("src/a.rs\n\nsrc/b.rs\n");
    assert_eq!(lines, vec!["src/a.rs".to_string(), "src/b.rs".to_string()]);
}

#[test]
fn test_changes_verdict() {
    let diffs: Vec<String> = vec!["f.rs".into()];
    let none: Vec<String> = vec![];
    assert!(matches!(changes_verdict(&diffs, true), Err(CError::FilesChanged)));
    assert!(changes_verdict(&diffs, false).is_ok());
    assert!(changes_verdict(&none, true).is_ok());
}
