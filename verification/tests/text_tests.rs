use irc_chat::text::{find, split_spaces, starts_with, text_eq, trim_start_matches, trim_text, white_space};

#[test]
fn trim_removes_white_space_at_both_ends() {
    assert_eq!(trim_text("  JOIN #rust\r\n"), "JOIN #rust");
    assert_eq!(trim_text("\u{3000}x y\u{85}"), "x y");
    assert_eq!(trim_text(" \t\r\n"), "");
    assert_eq!(trim_text(""), "");
}

#[test]
fn trim_matches_std_on_every_white_space_character() {
    for c in ['\t', '\n', '\u{0B}', '\u{0C}', '\r', ' ', '\u{85}', '\u{A0}', '\u{1680}', '\u{2000}', '\u{200A}', '\u{2028}', '\u{2029}', '\u{202F}', '\u{205F}', '\u{3000}'] {
        assert!(white_space(c));
        assert_eq!(c.is_whitespace(), white_space(c));
    }
    for c in ['a', '#', '\u{200B}', '\u{FEFF}', '\0', '\u{1F600}'] {
        assert!(!white_space(c));
        assert_eq!(c.is_whitespace(), white_space(c));
    }
}

#[test]
fn split_spaces_matches_splitn() {
    let cases = ["REGISTER alice secret words", "REGISTER alice", "REGISTER", "", "A  B C", "NICK  x", "PRIVMSG #c hello there you"];
    for s in cases {
        for n in 1..5 {
            let expected: Vec<String> = s.splitn(n, ' ').map(|p| p.to_string()).collect();
            assert_eq!(split_spaces(s, n), expected, "{} {}", s, n);
        }
    }
    assert_eq!(split_spaces("REGISTER alice pass word", 3), vec!["REGISTER", "alice", "pass word"]);
}

#[test]
fn prefixes_and_equality() {
    assert!(starts_with("REGISTERED x y", "REGISTER"));
    assert!(!starts_with("REG", "REGISTER"));
    assert!(starts_with("abc", ""));
    assert!(text_eq("héllo", "héllo"));
    assert!(!text_eq("hello", "hellO"));
    assert_eq!(find("[#rust] bob", ']'), Some(6));
    assert_eq!(find("héllo]", ']'), Some(5));
    assert_eq!(find("none", ']'), None);
    assert_eq!(trim_start_matches("::x:", ':'), "x:");
}
