use tinyapi::LogBuffer;

#[test]
fn log_keeps_messages_in_order() {
    let mut log = LogBuffer::new();
    assert_eq!(log.len(), 0);
    log.push("one".to_string());
    log.push("two".to_string());
    assert_eq!(log.len(), 2);
    assert_eq!(
        log.html(),
        "<html><head><meta http-equiv='refresh' content='2'><title>Logs</title></head><body><pre>one\ntwo\n</pre></body></html>"
    );
}

#[test]
fn log_keeps_latest_hundred() {
    let mut log = LogBuffer::new();
    for i in 0..150 {
        log.push(format!("m{}", i));
    }
    assert_eq!(log.len(), 100);
    let html = log.html();
    assert!(!html.contains(">m49\n") && !html.contains("\nm49\n"));
    assert!(html.contains("<pre>m50\n"));
    assert!(html.ends_with("m149\n</pre></body></html>"));
}

#[test]
fn logs_response_pages() {
    let log = LogBuffer::new();
    let r = log.logs_response();
    assert_eq!(r.status, "200 OK");
    assert_eq!(r.content_type, "text/html; charset=utf-8");
    assert!(String::from_utf8(r.body).unwrap().contains("No logs yet. Use tinyapi::log!() to record events."));
    let mut log = LogBuffer::new();
    log.push("[5 ms] boot".to_string());
    let r = log.logs_response();
    assert_eq!(r.body, log.html().into_bytes());
}
