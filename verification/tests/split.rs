use tinyapi::split::{split_pieces, split_tokens, Separator};

#[test]
fn pieces_match_str_split() {
    let samples = ["", "/", "a", "/a/b/", "a//b", "1.2.3.4", "..", "x y\tz"];
    for s in samples.iter() {
        let expected: Vec<&str> = s.split('/').collect();
        assert_eq!(split_pieces(s, Separator::Slash), expected);
        let expected: Vec<&str> = s.split('.').collect();
        assert_eq!(split_pieces(s, Separator::Dot), expected);
    }
}

#[test]
fn tokens_drop_empty_pieces() {
    assert_eq!(split_tokens("/led//on/", Separator::Slash), vec!["led", "on"]);
    assert_eq!(split_tokens("/", Separator::Slash), Vec::<&str>::new());
    assert_eq!(split_tokens("", Separator::Slash), Vec::<&str>::new());
}

#[test]
fn whitespace_tokens_match_split_whitespace() {
    let samples = ["GET / HTTP/1.1", "  GET\t/x  ", "a\u{00A0}b\u{3000}c", "", "   ", "a\u{200B}b"];
    for s in samples.iter() {
        let expected: Vec<&str> = s.split_whitespace().collect();
        assert_eq!(split_tokens(s, Separator::Whitespace), expected, "{:?}", s);
    }
}

#[test]
fn separator_matches_whitespace_like_std() {
    let sep = Separator::Whitespace;
    for c in ['\t', '\n', '\u{0B}', '\u{0C}', '\r', ' ', '\u{85}', '\u{A0}', '\u{1680}', '\u{2000}', '\u{200A}', '\u{2028}', '\u{2029}', '\u{202F}', '\u{205F}', '\u{3000}', 'a', '\u{200B}', '\u{180E}', '\u{FEFF}'].iter() {
        assert_eq!(sep.matches(*c), c.is_whitespace(), "{:?}", c);
    }
}

#[test]
fn separator_whitespace_agrees_with_std_for_every_char() {
    let sep = Separator::Whitespace;
    for u in 0..=0x10FFFFu32 {
        if let Some(c) = char::from_u32(u) {
            assert_eq!(sep.matches(c), c.is_whitespace(), "{:?}", c);
        }
    }
}
