use tinyapi::server::header_complete;
use tinyapi::{header_read_step, parse_request_line, HeaderStep};

#[test]
fn header_complete_needs_blank_line_at_end() {
    let buf = b"GET / HTTP/1.1\r\n\r\nrest";
    assert!(header_complete(buf, 18));
    assert!(!header_complete(buf, 17));
    assert!(!header_complete(buf, 3));
    assert!(!header_complete(buf, 22));
    assert!(header_complete(b"\r\n\r\n", 4));
}

#[test]
fn header_read_step_decisions() {
    let mut buf = [0u8; 16];
    buf[..8].copy_from_slice(b"GET / \r\n");
    assert_eq!(header_read_step(&buf, 0, 0), HeaderStep::Incomplete);
    assert_eq!(header_read_step(&buf, 0, 8), HeaderStep::More(8));
    buf[8..10].copy_from_slice(b"\r\n");
    assert_eq!(header_read_step(&buf, 8, 2), HeaderStep::Complete(10));
    assert_eq!(header_read_step(&buf, 10, 6), HeaderStep::Incomplete);
}

#[test]
fn request_line_method_and_path() {
    assert_eq!(parse_request_line(b"GET /led/on HTTP/1.1\r\nHost: a\r\n\r\n"), ("GET", "/led/on"));
    assert_eq!(parse_request_line(b"POST /x HTTP/1.1\n"), ("POST", "/x"));
    assert_eq!(parse_request_line(b"  PUT\t/y  z\r\n"), ("PUT", "/y"));
}

#[test]
fn request_line_defaults() {
    assert_eq!(parse_request_line(b""), ("GET", "/"));
    assert_eq!(parse_request_line(b"\r\n"), ("GET", "/"));
    assert_eq!(parse_request_line(b"HEAD\r\n\r\n"), ("HEAD", "/"));
    assert_eq!(parse_request_line(b"\xc3\x28 /x\r\n"), ("GET", "/"));
}

#[test]
fn request_line_agrees_with_std_reading() {
    let samples: [&[u8]; 7] = [
        b"GET / HTTP/1.1\r\n\r\n",
        b"GET /a\rb HTTP/1.1\r\n",
        b"GET /a\r\r\n",
        "GET\u{3000}/wide\r\n".as_bytes(),
        b"only\r",
        b"\n\nGET /late\r\n",
        b"x\xff",
    ];
    for raw in samples.iter() {
        let text = core::str::from_utf8(raw).unwrap_or("");
        let first = text.lines().next().unwrap_or("");
        let mut parts = first.split_whitespace();
        let method = parts.next().unwrap_or("GET");
        let path = parts.next().unwrap_or("/");
        assert_eq!(parse_request_line(raw), (method, path), "{:?}", raw);
    }
}
