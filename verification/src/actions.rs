//! Decisions behind the staging operations and the error texts the
//! operations report.

use vstd::prelude::*;

use crate::text::push_char;

verus! {

/// How to unstage a file.
pub enum UnstagePlan {
    /// Reset the file's index entry to its state in the HEAD commit.
    ResetToHead,
    /// There is no commit yet: remove the file's entry from the index.
    RemoveFromIndex,
}

/// Unstaging resets to HEAD when HEAD resolves to a commit and otherwise
/// removes the index entry.
pub fn unstage_plan(head_commit_found: bool) -> (res: UnstagePlan)
    ensures
        head_commit_found <==> res is ResetToHead,
{
    if head_commit_found {
        UnstagePlan::ResetToHead
    } else {
        UnstagePlan::RemoveFromIndex
    }
}

/// How to discard a file's changes.
pub enum DiscardPlan {
    /// The file is in HEAD's tree: check it out from there, index included.
    RestoreFromHead,
    /// The file is untracked: delete it from the working directory.
    DeleteFromWorkdir,
}

/// `"bare repository"`.
pub open spec fn bare_repository_message() -> Seq<char> {
    seq!['b', 'a', 'r', 'e', ' ', 'r', 'e', 'p', 'o', 's', 'i', 't', 'o', 'r', 'y']
}

/// Discarding restores a file that HEAD holds, deletes an untracked one,
/// and fails in a repository without a working directory.
pub fn discard_plan(in_head: bool, has_workdir: bool) -> (res: Result<DiscardPlan, String>)
    ensures
        in_head ==> res matches Ok(DiscardPlan::RestoreFromHead),
        !in_head && has_workdir ==> res matches Ok(DiscardPlan::DeleteFromWorkdir),
        !in_head && !has_workdir ==> (res matches Err(e) && e@ == bare_repository_message()),
{
    if in_head {
        Ok(DiscardPlan::RestoreFromHead)
    } else if has_workdir {
        Ok(DiscardPlan::DeleteFromWorkdir)
    } else {
        let e = String::from_str("bare repository");
        proof {
            reveal_strlit("bare repository");
        }
        assert(e@ =~= bare_repository_message());
        Err(e)
    }
}

/// `"no git identity configured (user.name / user.email)"`.
pub open spec fn no_identity_text() -> Seq<char> {
    seq![
        'n', 'o', ' ', 'g', 'i', 't', ' ', 'i', 'd', 'e', 'n', 't', 'i', 't', 'y', ' ', 'c', 'o', 'n',
        'f', 'i', 'g', 'u', 'r', 'e', 'd', ' ', '(', 'u', 's', 'e', 'r', '.', 'n', 'a', 'm', 'e', ' ',
        '/', ' ', 'u', 's', 'e', 'r', '.', 'e', 'm', 'a', 'i', 'l', ')',
    ]
}

/// Error text for a commit attempted without a configured author identity.
pub fn no_identity() -> (res: String)
    ensures
        res@ == no_identity_text(),
{
    let res = String::from_str("no git identity configured (user.name / user.email)");
    proof {
        reveal_strlit("no git identity configured (user.name / user.email)");
    }
    assert(res@ =~= no_identity_text());
    res
}

/// `"not a git repository: "`.
pub open spec fn not_a_repository_label() -> Seq<char> {
    seq![
        'n', 'o', 't', ' ', 'a', ' ', 'g', 'i', 't', ' ', 'r', 'e', 'p', 'o', 's', 'i', 't', 'o', 'r',
        'y', ':', ' ',
    ]
}

/// Error text for a path that is in no repository.
pub fn not_a_repository(path: &str) -> (res: String)
    ensures
        res@ == not_a_repository_label() + path@,
{
    let mut res = String::from_str("not a git repository: ");
    proof {
        reveal_strlit("not a git repository: ");
    }
    res.append(path);
    res
}

/// `"no such commit: "`.
pub open spec fn no_such_commit_label() -> Seq<char> {
    seq!['n', 'o', ' ', 's', 'u', 'c', 'h', ' ', 'c', 'o', 'm', 'm', 'i', 't', ':', ' ']
}

/// Error text for a revision that names no commit.
pub fn no_such_commit(rev: &str) -> (res: String)
    ensures
        res@ == no_such_commit_label() + rev@,
{
    let mut res = String::from_str("no such commit: ");
    proof {
        reveal_strlit("no such commit: ");
    }
    res.append(rev);
    res
}

/// `"could not delete "`.
pub open spec fn could_not_delete_label() -> Seq<char> {
    seq!['c', 'o', 'u', 'l', 'd', ' ', 'n', 'o', 't', ' ', 'd', 'e', 'l', 'e', 't', 'e', ' ']
}

/// Error text for an untracked file that could not be deleted.
pub fn could_not_delete(file: &str, reason: &str) -> (res: String)
    ensures
        res@ == could_not_delete_label() + file@ + seq![':', ' '] + reason@,
{
    let mut res = String::from_str("could not delete ");
    proof {
        reveal_strlit("could not delete ");
    }
    res.append(file);
    push_char(&mut res, ':');
    push_char(&mut res, ' ');
    res.append(reason);
    assert(res@ =~= could_not_delete_label() + file@ + seq![':', ' '] + reason@);
    res
}

} // verus!
