//! The decisions taken around the commit-and-push and pull workflows. The
//! version-control commands themselves run outside this library.

use vstd::prelude::*;

verus! {

/// What the commit-and-push workflow does with a repository.
#[derive(Clone, Copy, Debug, PartialEq, Eq, Structural)]
pub enum CommitDecision {
    /// Stage everything, commit and push.
    Commit,
    /// A rebase or merge is in progress: leave the repository alone.
    Busy,
    /// Nothing to commit.
    NothingToCommit,
}

/// What the pull workflow does with a repository.
#[derive(Clone, Copy, Debug, PartialEq, Eq, Structural)]
pub enum PullDecision {
    /// Pull with rebase.
    Pull,
    /// A rebase or merge is in progress: leave the repository alone.
    Busy,
    /// Local changes are not committed: pulling could clash with them.
    UncommittedChanges,
}

/// A rebase or merge is in progress when `.git` holds `rebase-apply`,
/// `rebase-merge` or `MERGE_HEAD`; the three flags tell which exist.
pub fn is_repo_in_rebase_or_merge(rebase_apply: bool, rebase_merge: bool, merge_head: bool) -> (r: bool)
    ensures
        r == (rebase_apply || rebase_merge || merge_head),
{
    if rebase_apply || rebase_merge {
        return true;
    }
    merge_head
}

/// The working copy has changes when `git status --porcelain` printed
/// anything.
pub fn has_uncommitted_changes(status_porcelain: &str) -> (r: bool)
    ensures
        r == (status_porcelain@.len() > 0),
{
    !status_porcelain.is_empty()
}

/// The commit message: the template, then ` @ `, then the time stamp.
pub fn commit_message(template: &str, timestamp: &str) -> (r: String)
    ensures
        r@ == template@ + " @ "@ + timestamp@,
{
    let mut m = String::from_str(template);
    m.append(" @ ");
    m.append(timestamp);
    m
}

/// Whether to commit: never during a rebase or merge, never without changes.
pub fn commit_decision(in_rebase_or_merge: bool, has_changes: bool) -> (r: CommitDecision)
    ensures
        r == if in_rebase_or_merge {
            CommitDecision::Busy
        } else if !has_changes {
            CommitDecision::NothingToCommit
        } else {
            CommitDecision::Commit
        },
{
    if in_rebase_or_merge {
        CommitDecision::Busy
    } else if !has_changes {
        CommitDecision::NothingToCommit
    } else {
        CommitDecision::Commit
    }
}

/// Whether to pull: never during a rebase or merge, never over local changes.
pub fn pull_decision(in_rebase_or_merge: bool, has_changes: bool) -> (r: PullDecision)
    ensures
        r == if in_rebase_or_merge {
            PullDecision::Busy
        } else if has_changes {
            PullDecision::UncommittedChanges
        } else {
            PullDecision::Pull
        },
{
    if in_rebase_or_merge {
        PullDecision::Busy
    } else if has_changes {
        PullDecision::UncommittedChanges
    } else {
        PullDecision::Pull
    }
}

} // verus!
