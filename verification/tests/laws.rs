use tinyapi::split::{split_tokens, Separator};
use tinyapi::text::{parse_decimal, push_decimal};
use tinyapi::{
    format_request, match_route, parse_ip, parse_request_line, parse_response, parse_url,
    response_head, Handler, LogBuffer, Request, Response, Router,
};

#[test]
fn request_written_by_client_reads_back_at_server() {
    let cases = [("GET", "10.0.0.1", "/led/on"), ("POST", "h", "/"), ("DELETE", "", "/a/b?c=d"), ("GET", "x y", "/ü")];
    for (method, host, path) in cases.iter() {
        let mut buf = [0u8; 256];
        let n = format_request(&mut buf, method, host, path);
        assert_eq!(parse_request_line(&buf[..n]), (*method, *path));
    }
}

#[test]
fn reply_written_by_server_reads_back_at_client() {
    let replies = [
        Response::text("hello"),
        Response::html("<p>\r\n\r\n</p>"),
        Response::not_found(),
        Response::script(""),
    ];
    for resp in replies.iter() {
        let mut wire = response_head(resp);
        wire.extend_from_slice(&resp.body);
        let got = parse_response(&wire).unwrap();
        let code: u16 = resp.status[..3].parse().unwrap();
        assert_eq!(got.status, code);
        assert_eq!(got.body, &resp.body[..]);
    }
}

#[test]
fn decimal_reads_back() {
    for n in [0usize, 7, 10, 99, 100, 4096, 65535].iter() {
        let mut out = Vec::new();
        push_decimal(&mut out, *n);
        assert_eq!(parse_decimal(&out, 65535), Some(*n as u16));
    }
}

#[test]
fn separators_at_ends_or_doubled_change_no_tokens() {
    let base = split_tokens("a/b", Separator::Slash);
    assert_eq!(split_tokens("/a/b", Separator::Slash), base);
    assert_eq!(split_tokens("a//b", Separator::Slash), base);
    assert_eq!(split_tokens("a/b/", Separator::Slash), base);
    assert!(match_route("/led//on/", "/led/{state}").unwrap().get("state") == Some(&"on"));
}

#[test]
fn literal_pattern_binds_nothing() {
    let params = match_route("/a/b", "/a/b").unwrap();
    assert!(params.is_empty());
    assert!(match_route("/a/c", "/a/b").is_none());
}

#[test]
fn each_placeholder_binds_its_segment() {
    let params = match_route("/x/1/y/2", "/x/{first}/y/{second}").unwrap();
    assert_eq!(params.get("first").copied(), Some("1"));
    assert_eq!(params.get("second").copied(), Some("2"));
}

#[test]
fn later_route_does_not_take_path_of_earlier() {
    let mut router: Router<Box<dyn Handler>> = Router::new();
    let first: Box<dyn Handler> = Box::new(|_r: Request<'_>| Response::text("first"));
    router.get("/a/{x}", first);
    assert_eq!(router.select_route("/a/b").unwrap().0, 0);
    let second: Box<dyn Handler> = Box::new(|_r: Request<'_>| Response::text("second"));
    router.get("/a/b", second);
    assert_eq!(router.select_route("/a/b").unwrap().0, 0);
    assert_eq!(router.route("GET", "/a/b").unwrap().body, b"first".to_vec());
}

#[test]
fn log_holds_latest_hundred_of_many() {
    let mut log = LogBuffer::new();
    for i in 0..250 {
        log.push(i.to_string());
        assert_eq!(log.len(), if i + 1 > 100 { 100 } else { i + 1 });
    }
    let expected: String = (150..250).map(|i| format!("{}\n", i)).collect();
    assert!(log.html().contains(&format!("<pre>{}</pre>", expected)));
}

#[test]
fn request_written_by_client_has_complete_header() {
    let mut buf = [0u8; 256];
    let n = format_request(&mut buf, "GET", "10.0.0.1", "/x");
    assert!(tinyapi::server::header_complete(&buf, n));
    assert_eq!(tinyapi::header_read_step(&buf, 0, n), tinyapi::HeaderStep::Complete(n));
}

#[test]
fn new_route_answers_paths_no_earlier_pattern_matches() {
    let mut router: Router<Box<dyn Handler>> = Router::new();
    let first: Box<dyn Handler> = Box::new(|_r: Request<'_>| Response::text("first"));
    router.get("/a/{x}", first);
    assert!(router.route("GET", "/b/c").is_none());
    let led: Box<dyn Handler> = Box::new(|r: Request<'_>| {
        Response::text(&format!("{} {} {}", r.method, r.path, r.param("y").unwrap_or("?")))
    });
    router.get("/b/{y}", led);
    assert_eq!(router.route("GET", "/b/c").unwrap().body, b"GET /b/c c".to_vec());
    assert_eq!(router.route("GET", "/a/c").unwrap().body, b"first".to_vec());
    assert!(router.route("POST", "/b/c").is_none());
}

#[test]
fn url_reads_back() {
    for host in ["192.168.1.5", "example", ""] {
        for port in [0u16, 7, 80, 8080, 65535] {
            for path in ["/", "/api/x", "/a:b/c"] {
                let url = format!("http://{}:{}{}", host, port, path);
                assert_eq!(parse_url(&url), Ok((host, port, path)));
                let bare = format!("{}{}", host, path);
                assert_eq!(parse_url(&bare), Ok((host, 80, path)));
            }
        }
        assert_eq!(parse_url(host), Ok((host, 80, "/")));
    }
}

#[test]
fn dotted_address_reads_back() {
    for (a, b, c, d) in [(0u8, 0u8, 0u8, 0u8), (192, 168, 1, 10), (255, 255, 255, 255), (10, 0, 99, 7)] {
        assert_eq!(parse_ip(&format!("{}.{}.{}.{}", a, b, c, d)), Ok([a, b, c, d]));
    }
}
