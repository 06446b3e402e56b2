//! Commits: the emptiness check before committing, the amend message, log
//! entries and the text of a shown commit.

use vstd::prelude::*;

use crate::diff::{cap_text, MAX_DIFF_BYTES};
use crate::text::{
    append_indented_lines, indent_lines, is_blank, is_blank_text, is_longest_fitting_prefix,
    lines_of, push_char, short_hash, short_hash_of, utf8_len,
};

verus! {

/// The text of an optional string, empty when absent.
pub open spec fn text_or_empty(o: Option<&str>) -> Seq<char> {
    match o {
        Some(s) => s@,
        None => seq![],
    }
}

fn string_or_empty(o: Option<&str>) -> (res: String)
    ensures
        res@ == text_or_empty(o),
{
    match o {
        Some(s) => String::from_str(s),
        None => String::new(),
    }
}

/// `"nothing to commit — working tree clean"`.
pub open spec fn clean_tree_message() -> Seq<char> {
    seq![
        'n', 'o', 't', 'h', 'i', 'n', 'g', ' ', 't', 'o', ' ', 'c', 'o', 'm', 'm', 'i', 't', ' ',
        '\u{2014}', ' ', 'w', 'o', 'r', 'k', 'i', 'n', 'g', ' ', 't', 'r', 'e', 'e', ' ', 'c', 'l',
        'e', 'a', 'n',
    ]
}

/// `"nothing to commit"`.
pub open spec fn nothing_to_commit_message() -> Seq<char> {
    seq!['n', 'o', 't', 'h', 'i', 'n', 'g', ' ', 't', 'o', ' ', 'c', 'o', 'm', 'm', 'i', 't']
}

/// Rejects a commit that would record nothing: the written index tree is
/// the parent's tree, or there is no parent and the tree is empty.
pub fn check_commit_has_changes(parent_tree: Option<&String>, tree: &String, tree_is_empty: bool) -> (res: Result<(), String>)
    ensures
        match parent_tree {
            Some(p) => if p@ == tree@ {
                res matches Err(e) && e@ == clean_tree_message()
            } else {
                res is Ok
            },
            None => if tree_is_empty {
                res matches Err(e) && e@ == nothing_to_commit_message()
            } else {
                res is Ok
            },
        },
{
    match parent_tree {
        Some(p) => {
            if *p == *tree {
                let e = String::from_str("nothing to commit \u{2014} working tree clean");
                proof {
                    reveal_strlit("nothing to commit \u{2014} working tree clean");
                }
                assert(e@ =~= clean_tree_message());
                Err(e)
            } else {
                Ok(())
            }
        },
        None => {
            if tree_is_empty {
                let e = String::from_str("nothing to commit");
                proof {
                    reveal_strlit("nothing to commit");
                }
                assert(e@ =~= nothing_to_commit_message());
                Err(e)
            } else {
                Ok(())
            }
        },
    }
}

/// The message of an amended commit: the given one, or the original's when
/// the given one is blank.
pub fn amend_message(message: String, original: Option<&str>) -> (res: String)
    ensures
        res@ == if is_blank_text(message@) {
            text_or_empty(original)
        } else {
            message@
        },
{
    if is_blank(message.as_str()) {
        string_or_empty(original)
    } else {
        message
    }
}

/// One commit of the log.
pub struct CommitInfo {
    pub hash: String,
    pub author: String,
    pub date_unix: i64,
    pub subject: String,
}

/// The log entry of a commit: short hash, author name and subject (empty
/// when unreadable), and commit time.
pub fn commit_info(id: &str, author: Option<&str>, date_unix: i64, summary: Option<&str>) -> (res: CommitInfo)
    ensures
        res.hash@ == short_hash_of(id@),
        res.author@ == text_or_empty(author),
        res.date_unix == date_unix,
        res.subject@ == text_or_empty(summary),
{
    CommitInfo {
        hash: short_hash(id),
        author: string_or_empty(author),
        date_unix,
        subject: string_or_empty(summary),
    }
}

/// Whether a log that holds `taken` entries has room for another under
/// `limit`: the log walk stops once `limit` commits are taken.
pub fn log_has_room(taken: usize, limit: usize) -> (res: bool)
    ensures
        res == (taken < limit),
{
    taken < limit
}

/// A shown commit.
pub struct ShowResult {
    pub text: String,
    pub truncated: bool,
}

/// `"commit "`.
pub open spec fn commit_label() -> Seq<char> {
    seq!['c', 'o', 'm', 'm', 'i', 't', ' ']
}

/// `"Author: "`.
pub open spec fn author_label() -> Seq<char> {
    seq!['A', 'u', 't', 'h', 'o', 'r', ':', ' ']
}

/// Full text of a shown commit: header, blank line, indented message,
/// blank line, patch.
pub open spec fn show_text(
    id: Seq<char>,
    name: Seq<char>,
    email: Seq<char>,
    message: Seq<char>,
    patch: Seq<char>,
) -> Seq<char> {
    commit_label() + id + seq!['\n'] + author_label() + name + seq![' ', '<'] + email + seq!['>', '\n']
        + seq!['\n'] + indent_lines(lines_of(message)) + seq!['\n'] + patch
}

/// The shown text of a commit, capped at [`MAX_DIFF_BYTES`].
pub fn show_result(
    id: &str,
    name: Option<&str>,
    email: Option<&str>,
    message: Option<&str>,
    patch: &str,
) -> (res: ShowResult)
    ensures
        is_longest_fitting_prefix(
            show_text(id@, text_or_empty(name), text_or_empty(email), text_or_empty(message), patch@),
            MAX_DIFF_BYTES as nat,
            res.text@,
        ),
        res.truncated == (utf8_len(
            show_text(id@, text_or_empty(name), text_or_empty(email), text_or_empty(message), patch@),
        ) > MAX_DIFF_BYTES),
{
    let mut text = String::from_str("commit ");
    proof {
        reveal_strlit("commit ");
        reveal_strlit("Author: ");
    }
    text.append(id);
    push_char(&mut text, '\n');
    text.append("Author: ");
    let name_text = string_or_empty(name);
    text.append(name_text.as_str());
    push_char(&mut text, ' ');
    push_char(&mut text, '<');
    let email_text = string_or_empty(email);
    text.append(email_text.as_str());
    push_char(&mut text, '>');
    push_char(&mut text, '\n');
    push_char(&mut text, '\n');
    let message_text = string_or_empty(message);
    append_indented_lines(&mut text, message_text.as_str());
    push_char(&mut text, '\n');
    text.append(patch);
    assert(text@ =~= show_text(id@, name_text@, email_text@, message_text@, patch@));
    let (capped, truncated) = cap_text(text.as_str(), MAX_DIFF_BYTES);
    ShowResult { text: capped, truncated }
}

} // verus!
