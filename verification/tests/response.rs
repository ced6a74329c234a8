use tinyapi::{response_head, Response};

#[test]
fn constructors_set_status_type_and_body() {
    let r = Response::text("hi ü");
    assert_eq!((r.status, r.content_type), ("200 OK", "text/plain"));
    assert_eq!(r.body, "hi ü".as_bytes().to_vec());
    let r = Response::html("<p>x</p>");
    assert_eq!((r.status, r.content_type), ("200 OK", "text/html; charset=utf-8"));
    assert_eq!(r.body, b"<p>x</p>".to_vec());
    let r = Response::script("let a = 1;");
    assert_eq!((r.status, r.content_type), ("200 OK", "application/javascript; charset=utf-8"));
    assert_eq!(r.body, b"let a = 1;".to_vec());
    let r = Response::not_found();
    assert_eq!((r.status, r.content_type), ("404 Not Found", "text/html"));
    assert_eq!(r.body, b"<h1>404 Not Found</h1>".to_vec());
}

#[test]
fn head_announces_status_type_and_length() {
    let r = Response::text("hello");
    assert_eq!(
        response_head(&r),
        b"HTTP/1.1 200 OK\r\nContent-Type: text/plain\r\nContent-Length: 5\r\nConnection: close\r\n\r\n".to_vec()
    );
    let r = Response::not_found();
    assert_eq!(
        response_head(&r),
        b"HTTP/1.1 404 Not Found\r\nContent-Type: text/html\r\nContent-Length: 22\r\nConnection: close\r\n\r\n".to_vec()
    );
}

#[test]
fn head_of_empty_body_says_zero() {
    let r = Response::html("");
    let head = response_head(&r);
    assert!(head.windows(19).any(|w| w == b"Content-Length: 0\r\n"));
}

#[test]
fn head_length_of_long_body() {
    let body = "x".repeat(1234);
    let r = Response::text(&body);
    let head = String::from_utf8(response_head(&r)).unwrap();
    assert!(head.contains("\r\nContent-Length: 1234\r\n"));
}
