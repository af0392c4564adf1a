use git_afk::events::{batch_has_change, is_change_kind, qualifies, EventClass};
use git_afk::git::{
    commit_decision, commit_message, has_uncommitted_changes, is_repo_in_rebase_or_merge, pull_decision,
    CommitDecision, PullDecision,
};
use git_afk::ignore_filter::relative_to;

#[test]
fn rebase_or_merge_detection() {
    assert!(!is_repo_in_rebase_or_merge(false, false, false));
    assert!(is_repo_in_rebase_or_merge(true, false, false));
    assert!(is_repo_in_rebase_or_merge(false, true, false));
    assert!(is_repo_in_rebase_or_merge(false, false, true));
}

#[test]
fn status_output_means_changes() {
    assert!(!has_uncommitted_changes(""));
    assert!(has_uncommitted_changes(" M src/main.rs\n"));
}

#[test]
fn commit_message_appends_timestamp() {
    assert_eq!(
        commit_message("Autocommited by git_afk", "Tue, 1 Jul 2003 10:52:37 +0200"),
        "Autocommited by git_afk @ Tue, 1 Jul 2003 10:52:37 +0200"
    );
}

#[test]
fn commit_and_pull_decisions() {
    assert_eq!(commit_decision(true, true), CommitDecision::Busy);
    assert_eq!(commit_decision(false, false), CommitDecision::NothingToCommit);
    assert_eq!(commit_decision(false, true), CommitDecision::Commit);
    assert_eq!(pull_decision(true, false), PullDecision::Busy);
    assert_eq!(pull_decision(false, true), PullDecision::UncommittedChanges);
    assert_eq!(pull_decision(false, false), PullDecision::Pull);
}

#[test]
fn change_kinds() {
    assert!(is_change_kind(EventClass::Create));
    assert!(is_change_kind(EventClass::Modify));
    assert!(is_change_kind(EventClass::Remove));
    assert!(!is_change_kind(EventClass::Metadata));
    assert!(!is_change_kind(EventClass::Access));
    assert!(!is_change_kind(EventClass::Other));
}

#[test]
fn qualification_needs_one_kept_path() {
    assert!(!qualifies(EventClass::Modify, &vec![]));
    assert!(!qualifies(EventClass::Modify, &vec![true, true]));
    assert!(qualifies(EventClass::Modify, &vec![true, false]));
    assert!(!qualifies(EventClass::Access, &vec![false]));
}

#[test]
fn relative_paths() {
    assert_eq!(relative_to("/repo", "/repo/build/out.txt"), Some("build/out.txt".to_string()));
    assert_eq!(relative_to("/repo", "/repository/x"), None);
    assert_eq!(relative_to("/repo", "/repo"), None);
    assert_eq!(relative_to("/repo", "/repo//x"), None);
    assert_eq!(relative_to("/repo", "/repo/a//x"), None);
    assert_eq!(relative_to("/repo", "/other/x"), None);
}

#[test]
fn batch_change_detection() {
    assert!(!batch_has_change(&vec![]));
    assert!(!batch_has_change(&vec![EventClass::Access, EventClass::Metadata]));
    assert!(batch_has_change(&vec![EventClass::Access, EventClass::Remove]));
}

#[test]
fn relative_paths_refuse_backslash() {
    assert_eq!(relative_to("/repo", "/repo/a\\b"), None);
    assert_eq!(relative_to("/repo", "/repo/a/b"), Some("a/b".to_string()));
}
