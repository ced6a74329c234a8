use tinyapi::client::{read_step, write_step};
use tinyapi::{format_post_request, format_request, parse_ip, parse_response, parse_url};

#[test]
fn parse_url_splits_host_port_path() {
    assert_eq!(parse_url("http://192.168.1.5:8080/api/x"), Ok(("192.168.1.5", 8080, "/api/x")));
    assert_eq!(parse_url("http://10.0.0.1/"), Ok(("10.0.0.1", 80, "/")));
    assert_eq!(parse_url("10.0.0.1"), Ok(("10.0.0.1", 80, "/")));
    assert_eq!(parse_url("host:81"), Ok(("host", 81, "/")));
}

#[test]
fn parse_url_falls_back_to_port_80() {
    assert_eq!(parse_url("http://h:x/p"), Ok(("h", 80, "/p")));
    assert_eq!(parse_url("http://h:/p"), Ok(("h", 80, "/p")));
    assert_eq!(parse_url("http://h:70000/p"), Ok(("h", 80, "/p")));
    assert_eq!(parse_url("h:1:2/p"), Ok(("h", 80, "/p")));
}

#[test]
fn parse_url_keeps_other_schemes_in_host() {
    assert_eq!(parse_url("https://h/p"), Ok(("https", 80, "//h/p")));
    assert_eq!(parse_url("HTTP://h/p"), Ok(("HTTP", 80, "//h/p")));
    assert_eq!(parse_url(""), Ok(("", 80, "/")));
}

#[test]
fn parse_ip_reads_four_octets() {
    assert_eq!(parse_ip("192.168.1.10"), Ok([192, 168, 1, 10]));
    assert_eq!(parse_ip("0.0.0.0"), Ok([0, 0, 0, 0]));
    assert_eq!(parse_ip("+1.02.3.255"), Ok([1, 2, 3, 255]));
}

#[test]
fn parse_ip_refuses_malformed_addresses() {
    assert_eq!(parse_ip("1.2.3"), Err(()));
    assert_eq!(parse_ip("1.2.3.4.5"), Err(()));
    assert_eq!(parse_ip("1.2.3.256"), Err(()));
    assert_eq!(parse_ip("1..3.4"), Err(()));
    assert_eq!(parse_ip("a.b.c.d"), Err(()));
    assert_eq!(parse_ip(""), Err(()));
    assert_eq!(parse_ip("example.com"), Err(()));
}

#[test]
fn format_request_writes_whole_request() {
    let mut buf = [0u8; 256];
    let n = format_request(&mut buf, "GET", "10.0.0.1", "/status");
    assert_eq!(&buf[..n], b"GET /status HTTP/1.1\r\nHost: 10.0.0.1\r\nConnection: close\r\n\r\n");
    assert!(buf[n..].iter().all(|b| *b == 0));
}

#[test]
fn format_request_truncates_at_buffer_end() {
    let mut buf = [0xAAu8; 10];
    let n = format_request(&mut buf, "GET", "h", "/path");
    assert_eq!(n, 10);
    assert_eq!(&buf, b"GET /path ");
    let mut empty: [u8; 0] = [];
    assert_eq!(format_request(&mut empty, "GET", "h", "/"), 0);
}

#[test]
fn format_post_request_carries_body_and_length() {
    let mut buf = [0u8; 512];
    let body = br#"{"on":true}"#;
    let n = format_post_request(&mut buf, "10.0.0.2", "/led", "application/json", body);
    assert_eq!(
        &buf[..n],
        &b"POST /led HTTP/1.1\r\nHost: 10.0.0.2\r\nContent-Type: application/json\r\nContent-Length: 11\r\n\r\n{\"on\":true}"[..]
    );
}

#[test]
fn format_post_request_length_digits() {
    let mut buf = [0u8; 512];
    let n = format_post_request(&mut buf, "h", "/", "t", b"");
    assert!(buf[..n].ends_with(b"Content-Length: 0\r\n\r\n"));
    let body = [b'x'; 305];
    let mut buf = [0u8; 512];
    let n = format_post_request(&mut buf, "h", "/", "t", &body);
    assert!(buf[..n].ends_with(&body));
    let text = String::from_utf8_lossy(&buf[..n]).to_string();
    assert!(text.contains("Content-Length: 305\r\n\r\nxxx"));
    // past 999 bytes the hundreds count no longer fits one digit
    let body = vec![b'y'; 1234];
    let mut buf = [0u8; 128];
    let n = format_post_request(&mut buf, "h", "/", "t", &body);
    let expected_digit = b'0' + 12;
    let start = b"POST / HTTP/1.1\r\nHost: h\r\nContent-Type: t\r\nContent-Length: ".len();
    assert_eq!(&buf[start..start + 3], &[expected_digit, b'3', b'4']);
    assert_eq!(n, 128);
}

#[test]
fn parse_response_reads_status_and_body() {
    let data = b"HTTP/1.1 200 OK\r\nContent-Length: 2\r\n\r\nhi";
    let r = parse_response(data).unwrap();
    assert_eq!(r.status, 200);
    assert_eq!(r.body, b"hi");
    let data = b"HTTP/1.1 404 Not Found\r\n\r\n";
    let r = parse_response(data).unwrap();
    assert_eq!(r.status, 404);
    assert_eq!(r.body, b"");
}

#[test]
fn parse_response_edge_cases() {
    assert!(parse_response(b"HTTP/1.1 20").is_err());
    assert!(parse_response(b"").is_err());
    assert!(parse_response(b"HTTP/1.1 2\xff0 OK\r\n\r\n").is_err());
    let r = parse_response(b"HTTP/1.1 abc\r\n").unwrap();
    assert_eq!(r.status, 0);
    assert_eq!(r.body, b"");
    let r = parse_response(b"HTTP/1.1 200 no blank line").unwrap();
    assert_eq!(r.body, b"");
    let r = parse_response(b"\r\n\r\nHTTP/1.1 200").unwrap();
    assert_eq!(r.status, 0);
    assert_eq!(r.body, b"HTTP/1.1 200");
    let r = parse_response(b"HTTP/1.1 +12\r\n\r\nb").unwrap();
    assert_eq!(r.status, 12);
}

#[test]
fn write_and_read_steps() {
    assert_eq!(write_step(0, 10, 0), None);
    assert_eq!(write_step(3, 10, 4), Some(7));
    assert_eq!(read_step(0, 8, 0), (0, true));
    assert_eq!(read_step(0, 8, 5), (5, false));
    assert_eq!(read_step(5, 8, 3), (8, true));
}
