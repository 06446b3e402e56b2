use git2ex::text::{append_indented_lines, is_blank, is_whitespace, str_le, trim_end_matches, trim_start_matches};
use git2ex::{short_hash, truncate_utf8};

fn reference_truncate(s: &str, max: usize) -> String {
    if s.len() <= max {
        return s.to_string();
    }
    let mut end = max;
    while end > 0 && !s.is_char_boundary(end) {
        end -= 1;
    }
    s[..end].to_string()
}

#[test]
fn truncate_keeps_short_text() {
    assert_eq!(truncate_utf8("hello", 5), "hello");
    assert_eq!(truncate_utf8("hello", 100), "hello");
    assert_eq!(truncate_utf8("", 0), "");
}

#[test]
fn truncate_cuts_ascii_at_byte_cap() {
    assert_eq!(truncate_utf8("hello", 3), "hel");
    assert_eq!(truncate_utf8("hello", 0), "");
}

#[test]
fn truncate_never_splits_a_character() {
    // 'é' is two bytes, '€' three, '😀' four.
    assert_eq!(truncate_utf8("héllo", 1), "h");
    assert_eq!(truncate_utf8("héllo", 2), "h");
    assert_eq!(truncate_utf8("héllo", 3), "hé");
    assert_eq!(truncate_utf8("€€", 5), "€");
    assert_eq!(truncate_utf8("€€", 6), "€€");
    assert_eq!(truncate_utf8("😀x", 3), "");
    assert_eq!(truncate_utf8("😀x", 4), "😀");
}

#[test]
fn truncate_matches_byte_walk_on_many_inputs() {
    let samples = ["", "a", "abc", "héllo wörld", "€uro", "😀😀😀", "mixé€😀z", "日本語のテキスト"];
    for s in samples {
        for max in 0..(s.len() + 3) {
            assert_eq!(truncate_utf8(s, max), reference_truncate(s, max), "{s:?} {max}");
        }
    }
}

#[test]
fn short_hash_takes_seven_characters() {
    assert_eq!(short_hash("0123456789abcdef0123456789abcdef01234567"), "0123456");
    assert_eq!(short_hash("abc"), "abc");
    assert_eq!(short_hash("abcdefg"), "abcdefg");
    assert_eq!(short_hash(""), "");
}

#[test]
fn whitespace_agrees_with_std_on_every_char() {
    for u in 0u32..=0x10FFFF {
        if let Some(c) = char::from_u32(u) {
            assert_eq!(is_whitespace(c), c.is_whitespace(), "U+{u:04X}");
        }
    }
}

#[test]
fn blank_is_trimmed_empty() {
    for s in ["", " ", "\n\t ", "\u{3000}\u{a0}", " a ", "x", "\n\nmsg\n"] {
        assert_eq!(is_blank(s), s.trim().is_empty(), "{s:?}");
    }
}

fn reference_indented(s: &str) -> String {
    let mut out = String::new();
    for line in s.lines() {
        out.push_str("    ");
        out.push_str(line);
        out.push('\n');
    }
    out
}

#[test]
fn indented_lines_follow_str_lines() {
    let samples = [
        "", "a", "a\n", "\n", "\n\n", "a\nb", "a\r\nb\r\n", "a\r", "a\rb\n", "subject\n\nbody line\n",
        "trailing\r\n\r\n", "x\r\r\n",
    ];
    for s in samples {
        let mut out = String::from(">");
        append_indented_lines(&mut out, s);
        assert_eq!(out, format!(">{}", reference_indented(s)), "{s:?}");
    }
}

#[test]
fn trim_start_matches_strips_every_copy() {
    for (s, p) in [
        ("refs/heads/main", "refs/heads/"),
        ("refs/heads/refs/heads/x", "refs/heads/"),
        ("refs/tags/v1", "refs/heads/"),
        ("refs/heads/", "refs/heads/"),
        ("abc", ""),
        ("", "x"),
    ] {
        assert_eq!(trim_start_matches(s, p), s.trim_start_matches(p), "{s:?} {p:?}");
    }
}

#[test]
fn trim_end_matches_strips_every_slash() {
    for s in ["/repo/", "/repo//", "/repo", "/", "", "a/b/"] {
        assert_eq!(trim_end_matches(s, '/'), s.trim_end_matches('/'), "{s:?}");
    }
}

#[test]
fn str_le_is_string_order() {
    let samples = ["", "a", "b", "ab", "a/b", "a.b", "Z", "é", "z", "€", "😀", "aé"];
    for a in samples {
        for b in samples {
            assert_eq!(str_le(a, b), a <= b, "{a:?} {b:?}");
        }
    }
}
