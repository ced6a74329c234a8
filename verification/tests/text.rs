use tinyapi::text::{bytes_eq, find_char, parse_decimal, push_decimal, str_eq};

#[test]
fn parse_decimal_reads_plain_numbers() {
    assert_eq!(parse_decimal(b"8080", 65535), Some(8080));
    assert_eq!(parse_decimal(b"0", 65535), Some(0));
    assert_eq!(parse_decimal(b"65535", 65535), Some(65535));
    assert_eq!(parse_decimal(b"255", 255), Some(255));
}

#[test]
fn parse_decimal_accepts_leading_plus_and_zeros() {
    assert_eq!(parse_decimal(b"+42", 65535), Some(42));
    assert_eq!(parse_decimal(b"000080", 65535), Some(80));
}

#[test]
fn parse_decimal_refuses_what_str_parse_refuses() {
    assert_eq!(parse_decimal(b"", 65535), None);
    assert_eq!(parse_decimal(b"+", 65535), None);
    assert_eq!(parse_decimal(b"-1", 65535), None);
    assert_eq!(parse_decimal(b"12a", 65535), None);
    assert_eq!(parse_decimal(b" 1", 65535), None);
    assert_eq!(parse_decimal(b"65536", 65535), None);
    assert_eq!(parse_decimal(b"256", 255), None);
    assert_eq!(parse_decimal(b"99999999999999999999", 65535), None);
}

#[test]
fn parse_decimal_agrees_with_std_parse() {
    let samples = ["", "0", "7", "+7", "++7", "-0", "80", "65535", "65536", "0065535", "1_0", "x", "25 5", "255", "256"];
    for s in samples.iter() {
        assert_eq!(parse_decimal(s.as_bytes(), 65535), s.parse::<u16>().ok(), "{:?}", s);
        assert_eq!(parse_decimal(s.as_bytes(), 255), s.parse::<u8>().ok().map(|v| v as u16), "{:?}", s);
    }
}

#[test]
fn push_decimal_writes_digits() {
    let mut out = b"n=".to_vec();
    push_decimal(&mut out, 0);
    assert_eq!(out, b"n=0".to_vec());
    let mut out = Vec::new();
    push_decimal(&mut out, 1234567890);
    assert_eq!(out, b"1234567890".to_vec());
    let mut out = Vec::new();
    push_decimal(&mut out, 10);
    assert_eq!(out, b"10".to_vec());
}

#[test]
fn byte_and_string_comparison() {
    assert!(bytes_eq(b"abc", b"abc"));
    assert!(!bytes_eq(b"abc", b"abd"));
    assert!(!bytes_eq(b"abc", b"ab"));
    assert!(str_eq("GET", "GET"));
    assert!(!str_eq("GET", "get"));
    assert!(str_eq("ünï", "ünï"));
}

#[test]
fn find_char_counts_characters() {
    assert_eq!(find_char("a/b", '/'), 1);
    assert_eq!(find_char("abc", '/'), 3);
    assert_eq!(find_char("äö:1", ':'), 2);
    assert_eq!(find_char("", ':'), 0);
}
