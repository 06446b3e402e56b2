use git2ex::diff::MAX_DIFF_BYTES;
use git2ex::history::{amend_message, check_commit_has_changes, commit_info, log_has_room, show_result};

#[test]
fn commit_rejected_when_tree_unchanged() {
    let t = "4b825dc642cb6eb9a060e54bf8d69288fbee4904".to_string();
    assert_eq!(check_commit_has_changes(Some(&t), &t, false), Err("nothing to commit — working tree clean".to_string()));
    assert_eq!(check_commit_has_changes(Some(&t), &t, true), Err("nothing to commit — working tree clean".to_string()));
}

#[test]
fn commit_allowed_when_tree_changed() {
    let p = "aaaa".to_string();
    let t = "bbbb".to_string();
    assert_eq!(check_commit_has_changes(Some(&p), &t, false), Ok(()));
    assert_eq!(check_commit_has_changes(None, &t, false), Ok(()));
}

#[test]
fn first_commit_of_empty_tree_rejected() {
    let t = "bbbb".to_string();
    assert_eq!(check_commit_has_changes(None, &t, true), Err("nothing to commit".to_string()));
}

#[test]
fn amend_keeps_original_message_when_blank() {
    assert_eq!(amend_message("".to_string(), Some("orig\n")), "orig\n");
    assert_eq!(amend_message("  \n\t".to_string(), Some("orig")), "orig");
    assert_eq!(amend_message(" ".to_string(), None), "");
    assert_eq!(amend_message("new msg".to_string(), Some("orig")), "new msg");
    assert_eq!(amend_message(" x ".to_string(), Some("orig")), " x ");
}

#[test]
fn commit_info_fields() {
    let c = commit_info("0123456789abcdef0123456789abcdef01234567", Some("Ann"), 1_700_000_000, Some("Fix it"));
    assert_eq!(c.hash, "0123456");
    assert_eq!(c.author, "Ann");
    assert_eq!(c.date_unix, 1_700_000_000);
    assert_eq!(c.subject, "Fix it");
    let d = commit_info("abc", None, -5, None);
    assert_eq!((d.hash.as_str(), d.author.as_str(), d.date_unix, d.subject.as_str()), ("abc", "", -5, ""));
}

#[test]
fn show_text_layout() {
    let r = show_result(
        "0123456789abcdef0123456789abcdef01234567",
        Some("Ann"),
        Some("ann@example.com"),
        Some("Subject\n\nBody line\r\n"),
        "diff --git a/f b/f\n+x\n",
    );
    assert!(!r.truncated);
    assert_eq!(
        r.text,
        "commit 0123456789abcdef0123456789abcdef01234567\nAuthor: Ann <ann@example.com>\n\n    Subject\n    \n    Body line\n\ndiff --git a/f b/f\n+x\n"
    );
}

#[test]
fn show_text_without_author_or_message() {
    let r = show_result("abc", None, None, None, "");
    assert_eq!(r.text, "commit abc\nAuthor:  <>\n\n\n");
    assert!(!r.truncated);
}

#[test]
fn show_text_is_capped() {
    let patch = "p".repeat(MAX_DIFF_BYTES);
    let r = show_result("abc", Some("A"), Some("a@b"), Some("m"), &patch);
    assert!(r.truncated);
    assert_eq!(r.text.len(), MAX_DIFF_BYTES);
    assert!(r.text.starts_with("commit abc\nAuthor: A <a@b>\n\n    m\n\nppp"));
}

#[test]
fn log_stops_at_limit() {
    assert!(log_has_room(0, 3));
    assert!(log_has_room(2, 3));
    assert!(!log_has_room(3, 3));
    assert!(!log_has_room(0, 0));
}
