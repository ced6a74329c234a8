use tinyapi::{match_route, Handler, Request, Response, Router};

fn state_handler(req: Request<'_>) -> Response {
    let state = req.param("state").unwrap_or("?");
    Response::text(&format!("LED is now {}", state))
}

#[test]
fn placeholder_binds_path_segment() {
    let params = match_route("/led/on", "/led/{state}").expect("matches");
    assert_eq!(params.get("state").copied(), Some("on"));
    assert_eq!(params.len(), 1);
}

#[test]
fn literal_pattern_matches_equal_segments_only() {
    assert!(match_route("/hello_world", "/hello_world").unwrap().is_empty());
    assert!(match_route("/hello_world", "/hello").is_none());
    assert!(match_route("/a/b", "/a").is_none());
    assert!(match_route("/a", "/a/b").is_none());
}

#[test]
fn empty_segments_do_not_count() {
    assert!(match_route("//led///on/", "/led/{state}").is_some());
    assert!(match_route("/", "").is_some());
    assert!(match_route("", "/").is_some());
    assert!(match_route("/", "/x").is_none());
}

#[test]
fn placeholder_needs_both_braces() {
    assert!(match_route("/x", "/{x").is_none());
    assert!(match_route("/x", "/x}").is_none());
    let params = match_route("/x", "/{}").unwrap();
    assert_eq!(params.get("").copied(), Some("x"));
}

#[test]
fn repeated_placeholder_keeps_last_value() {
    let params = match_route("/a/b", "/{n}/{n}").unwrap();
    assert_eq!(params.get("n").copied(), Some("b"));
    assert_eq!(params.len(), 1);
}

#[test]
fn at_most_eight_parameters() {
    let params = match_route("/1/2/3/4/5/6/7/8/9", "/{a}/{b}/{c}/{d}/{e}/{f}/{g}/{h}/{i}").unwrap();
    assert_eq!(params.len(), 8);
    assert_eq!(params.get("h").copied(), Some("8"));
    assert_eq!(params.get("i"), None);
}

#[test]
fn request_param_reads_bound_value() {
    let params = match_route("/led/off", "/led/{state}").unwrap();
    let req = Request { method: "GET", path: "/led/off", params };
    assert_eq!(req.param("state"), Some("off"));
    assert_eq!(req.param("other"), None);
}

fn boxed<H: Handler + 'static>(h: H) -> Box<dyn Handler> {
    Box::new(h)
}

fn demo_router() -> Router<Box<dyn Handler>> {
    let mut router: Router<Box<dyn Handler>> = Router::new();
    router.get("/", boxed(|_req: Request<'_>| Response::html("<h1>home</h1>")));
    router.get("/led/{state}", boxed(state_handler));
    router.get("/led/on", boxed(|_req: Request<'_>| Response::text("never")));
    router
}

#[test]
fn route_answers_get_with_first_matching_handler() {
    let router = demo_router();
    let resp = router.route("GET", "/led/on").expect("answered");
    assert_eq!(resp.status, "200 OK");
    assert_eq!(resp.content_type, "text/plain");
    assert_eq!(resp.body, b"LED is now on".to_vec());
    let (index, params) = router.select_route("/led/on").unwrap();
    assert_eq!(index, 1);
    assert_eq!(params.get("state").copied(), Some("on"));
}

#[test]
fn route_ignores_other_methods_and_unknown_paths() {
    let router = demo_router();
    assert!(router.route("POST", "/").is_none());
    assert!(router.route("get", "/").is_none());
    assert!(router.route("GET", "/nothing/here").is_none());
    assert!(router.select_route("/nothing/here").is_none());
    assert_eq!(router.route("GET", "/").unwrap().body, b"<h1>home</h1>".to_vec());
}

#[test]
fn respond_reads_request_line_and_falls_back_to_not_found() {
    let router = demo_router();
    let resp = router.respond(b"GET /led/blink HTTP/1.1\r\nHost: x\r\n\r\n");
    assert_eq!(resp.body, b"LED is now blink".to_vec());
    let resp = router.respond(b"GET /missing HTTP/1.1\r\n\r\n");
    assert_eq!(resp.status, "404 Not Found");
    assert_eq!(resp.content_type, "text/html");
    assert_eq!(resp.body, b"<h1>404 Not Found</h1>".to_vec());
    let resp = router.respond(b"DELETE / HTTP/1.1\r\n\r\n");
    assert_eq!(resp.status, "404 Not Found");
    // an empty request stands for `GET /`
    let resp = router.respond(b"");
    assert_eq!(resp.body, b"<h1>home</h1>".to_vec());
    // bytes that are not UTF-8 read as an empty request
    let resp = router.respond(b"GET /led/x \xff\r\n\r\n");
    assert_eq!(resp.body, b"<h1>home</h1>".to_vec());
}

#[test]
fn empty_router_answers_nothing() {
    let router: Router<Box<dyn Handler>> = Router::new();
    assert!(router.route("GET", "/").is_none());
    assert_eq!(router.respond(b"GET / HTTP/1.1\r\n\r\n").status, "404 Not Found");
}
