use std::collections::HashMap;
use wyvern::git::{parse_git_diff_u0, parse_porcelain, porcelain_fits, FileGitStatus, GitContext, GitLineStatus};

fn statuses(pairs: &[(usize, GitLineStatus)]) -> HashMap<usize, GitLineStatus> {
    pairs.iter().cloned().collect()
}

#[test]
fn diff_hunks_classify_lines() {
    let diff = "diff --git a/f b/f\n--- a/f\n+++ b/f\n@@ -1,0 +2,3 @@\n+a\n+b\n+c\n@@ -10,2 +12,0 @@\n-x\n-y\n@@ -20 +21 @@\n-q\n+r\n";
    let (m, stats) = parse_git_diff_u0(diff);
    assert_eq!(stats, (3, 1, 2));
    assert_eq!(
        m,
        statuses(&[
            (1, GitLineStatus::Added),
            (2, GitLineStatus::Added),
            (3, GitLineStatus::Added),
            (11, GitLineStatus::Deleted),
            (20, GitLineStatus::Modified),
        ])
    );
}

#[test]
fn diff_modified_range() {
    let (m, stats) = parse_git_diff_u0("@@ -5,2 +5,2 @@ fn main\n-a\n-b\n+c\n+d\n");
    assert_eq!(stats, (0, 2, 0));
    assert_eq!(m, statuses(&[(4, GitLineStatus::Modified), (5, GitLineStatus::Modified)]));
}

#[test]
fn diff_unreadable_numbers_count_as_one() {
    let (m, stats) = parse_git_diff_u0("@@ -a,b +x,y @@\n");
    assert_eq!(stats, (0, 1, 0));
    assert_eq!(m, statuses(&[(0, GitLineStatus::Modified)]));
}

#[test]
fn diff_deletion_at_top_marks_line_zero() {
    let (m, stats) = parse_git_diff_u0("@@ -1,4 +0,0 @@\n");
    assert_eq!(stats, (0, 0, 4));
    assert_eq!(m, statuses(&[(0, GitLineStatus::Deleted)]));
}

#[test]
fn diff_ignores_malformed_headers() {
    let (m, stats) = parse_git_diff_u0("@@ -1\n@@ +1,2 -1,2 @@\n+@@ -1,0 +1 @@\n@@-1,0 +1 @@\n");
    assert!(m.is_empty());
    assert_eq!(stats, (0, 0, 0));
    let (m, stats) = parse_git_diff_u0("");
    assert!(m.is_empty());
    assert_eq!(stats, (0, 0, 0));
}

#[test]
fn porcelain_lines_become_states() {
    let out = " M src/a.rs\n?? new.txt\nA  b.rs\n D c.rs\nR  x -> y\n!! ign\nMM\nAM both.rs\n";
    let got = parse_porcelain(out);
    assert_eq!(
        got,
        vec![
            ("src/a.rs".to_string(), FileGitStatus::Modified),
            ("new.txt".to_string(), FileGitStatus::Untracked),
            ("b.rs".to_string(), FileGitStatus::Added),
            ("c.rs".to_string(), FileGitStatus::Deleted),
            ("both.rs".to_string(), FileGitStatus::Modified),
        ]
    );
}

#[test]
fn porcelain_codes_are_cut_by_bytes() {
    let out = "\u{e9}M x\n M a\n\u{e9}\n";
    assert!(porcelain_fits(out));
    assert_eq!(parse_porcelain(out), vec![("a".to_string(), FileGitStatus::Modified)]);
    assert!(!porcelain_fits("M\u{e9} x\n"));
    assert!(!porcelain_fits("?? \u{e9}\n?\u{20ac}x\n"));
    assert!(porcelain_fits("?? \u{e9}\n"));
    assert_eq!(parse_porcelain("?? \u{e9}\n"), vec![("\u{e9}".to_string(), FileGitStatus::Untracked)]);
}

#[test]
fn refresh_outside_a_repository_is_empty() {
    let c = GitContext::refresh("/ws", None, Some(" M a\n".to_string()), Some("@@ -1 +1 @@\n".to_string()));
    assert!(!c.is_repo);
    assert_eq!(c.branch, None);
    assert!(c.line_statuses.is_empty());
    assert_eq!(c.stats, (0, 0, 0));
    assert!(c.file_statuses.is_empty());
}

#[test]
fn refresh_reads_branch_status_and_diff() {
    let c = GitContext::refresh(
        "/ws",
        Some("main\n".to_string()),
        Some(" M src/a.rs\n?? n.txt\n M src/a.rs\n".to_string()),
        Some("@@ -3,0 +4 @@\n".to_string()),
    );
    assert!(c.is_repo);
    assert_eq!(c.branch.as_deref(), Some("main"));
    let files: HashMap<String, FileGitStatus> = c.file_statuses.iter().cloned().collect();
    assert_eq!(files.len(), 2);
    assert_eq!(files.get("/ws/src/a.rs"), Some(&FileGitStatus::Modified));
    assert_eq!(files.get("/ws/n.txt"), Some(&FileGitStatus::Untracked));
    assert_eq!(c.stats, (1, 0, 0));
    assert_eq!(c.line_statuses, statuses(&[(3, GitLineStatus::Added)]));
}

#[test]
fn refresh_detached_head_has_no_branch() {
    let c = GitContext::refresh("/ws", Some("  \n".to_string()), None, None);
    assert!(c.is_repo);
    assert_eq!(c.branch, None);
    assert!(c.file_statuses.is_empty());
}

#[test]
fn empty_context() {
    let c = GitContext::empty();
    assert!(!c.is_repo && c.branch.is_none() && c.line_statuses.is_empty());
}

#[test]
fn diff_reads_only_hunk_headers() {
    let a = parse_git_diff_u0("diff --git a/x b/x\n@@ -0,0 +1,2 @@\n+one\n+two\n@@ -7 +8 @@ ctx\n-old\n+new\n");
    let b = parse_git_diff_u0("@@ -0,0 +1,2 @@\n+something else\n+entirely\nnoise\n@@ -7 +8 @@ ctx\n");
    assert_eq!(a, b);
    assert_eq!(a.1, (2, 1, 0));
}

#[test]
fn refresh_joins_paths_to_the_root() {
    let c = GitContext::refresh("/ws/", Some("main\n".to_string()), Some("?? n.txt\n".to_string()), None);
    assert_eq!(c.file_statuses, vec![("/ws/n.txt".to_string(), FileGitStatus::Untracked)]);
    let c = GitContext::refresh("", Some("main\n".to_string()), Some("?? n.txt\n".to_string()), None);
    assert_eq!(c.file_statuses, vec![("n.txt".to_string(), FileGitStatus::Untracked)]);
}
