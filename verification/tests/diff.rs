use git2ex::diff::{
    assemble_patch, diff_result, file_at_result, format_diff, is_index_revision, revision_path, BlobData, DiffLine, PatchLine,
    MAX_DIFF_BYTES, MAX_FILE_AT_BYTES,
};

fn line(origin: char, content: &[u8], binary: bool) -> DiffLine {
    DiffLine { origin, content: content.to_vec(), binary }
}

#[test]
fn format_diff_prefixes_body_lines_only() {
    let lines = vec![
        line('F', b"diff --git a/f b/f\n", false),
        line('H', b"@@ -1 +1 @@\n", false),
        line('-', b"old\n", false),
        line('+', b"new\n", false),
        line(' ', b"same\n", false),
    ];
    let (text, binary) = format_diff(&lines);
    assert_eq!(text, "diff --git a/f b/f\n@@ -1 +1 @@\n-old\n+new\n same\n");
    assert!(!binary);
}

#[test]
fn format_diff_reports_binary_deltas() {
    let lines = vec![line('F', b"header\n", false), line('B', b"Binary files differ\n", true)];
    let (text, binary) = format_diff(&lines);
    assert_eq!(text, "header\nBinary files differ\n");
    assert!(binary);
    assert_eq!(format_diff(&Vec::new()), (String::new(), false));
}

#[test]
fn format_diff_decodes_invalid_bytes_leniently() {
    let lines = vec![line('+', b"a\xffb\n", false)];
    let (text, _) = format_diff(&lines);
    assert_eq!(text, "+a\u{FFFD}b\n");
}

#[test]
fn diff_result_caps_output() {
    let small = diff_result(&vec![line('+', b"x\n", false)]);
    assert_eq!(small.diff, "+x\n");
    assert!(!small.truncated);

    let big_line = vec![b'y'; MAX_DIFF_BYTES];
    let big = diff_result(&vec![line('+', &big_line, false)]);
    assert!(big.truncated);
    assert_eq!(big.diff.len(), MAX_DIFF_BYTES);
    assert!(big.diff.starts_with("+yyy"));

    let exact = vec![b'z'; MAX_DIFF_BYTES - 1];
    let fits = diff_result(&vec![line('-', &exact, false)]);
    assert!(!fits.truncated);
    assert_eq!(fits.diff.len(), MAX_DIFF_BYTES);
}

#[test]
fn file_at_missing_blob() {
    let r = file_at_result(None);
    assert!(r.missing && !r.binary && !r.truncated && r.content.is_empty());
}

#[test]
fn file_at_binary_blob_has_empty_content() {
    let r = file_at_result(Some(BlobData { is_binary: true, content: b"\0\x01text".to_vec() }));
    assert!(!r.missing && r.binary && !r.truncated && r.content.is_empty());
}

#[test]
fn file_at_invalid_utf8_is_binary() {
    let r = file_at_result(Some(BlobData { is_binary: false, content: vec![b'a', 0xC3] }));
    assert!(!r.missing && r.binary && !r.truncated && r.content.is_empty());
}

#[test]
fn file_at_text_blob() {
    let r = file_at_result(Some(BlobData { is_binary: false, content: "héllo\n".as_bytes().to_vec() }));
    assert!(!r.missing && !r.binary && !r.truncated);
    assert_eq!(r.content, "héllo\n");
}

#[test]
fn file_at_large_blob_is_truncated_on_char_boundary() {
    let mut content = vec![b'a'; MAX_FILE_AT_BYTES - 1];
    content.extend_from_slice("é".as_bytes());
    let r = file_at_result(Some(BlobData { is_binary: false, content }));
    assert!(r.truncated && !r.binary);
    assert_eq!(r.content.len(), MAX_FILE_AT_BYTES - 1);
}

#[test]
fn index_revision_and_revision_path() {
    assert!(is_index_revision(":0"));
    assert!(!is_index_revision(":1"));
    assert!(!is_index_revision("HEAD"));
    assert!(!is_index_revision(":0x"));
    assert_eq!(revision_path("HEAD~1", "src/lib.rs"), "HEAD~1:src/lib.rs");
    assert_eq!(revision_path("", ""), ":");
}

#[test]
fn assemble_patch_marks_body_lines() {
    let lines = vec![
        PatchLine { origin: 'F', text: "diff --git a/f b/f\n".to_string(), binary: false },
        PatchLine { origin: '+', text: "a\u{FFFD}b\n".to_string(), binary: false },
        PatchLine { origin: 'B', text: "Binary files differ\n".to_string(), binary: true },
    ];
    let (text, binary) = assemble_patch(&lines);
    assert_eq!(text, "diff --git a/f b/f\n+a\u{FFFD}b\nBinary files differ\n");
    assert!(binary);
}
