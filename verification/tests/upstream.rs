use m3u8_proxy::upstream::{range_request, request_headers_from, upstream_headers};

fn p(k: &str, v: &str) -> (String, String) {
    (k.to_string(), v.to_string())
}

fn c(k: &str, v: Option<&str>) -> (String, Option<String>) {
    (k.to_string(), v.map(|s| s.to_string()))
}

#[test]
fn json_headers_are_sent_in_key_order() {
    let hs = upstream_headers(Some("{\"X-B\":\"2\",\"Referer\":\"https://r/\"}"), &Vec::new());
    assert_eq!(hs, vec![p("Referer", "https://r/"), p("X-B", "2")]);
}

#[test]
fn invalid_json_is_ignored() {
    let client = vec![c("range", Some("bytes=0-1"))];
    assert_eq!(upstream_headers(Some("not json"), &client), vec![p("range", "bytes=0-1")]);
    assert_eq!(upstream_headers(Some("{\"a\":1}"), &client), vec![p("range", "bytes=0-1")]);
    assert_eq!(upstream_headers(None, &client), vec![p("range", "bytes=0-1")]);
}

#[test]
fn invalid_names_and_values_are_dropped() {
    let hs = upstream_headers(Some("{\"bad name\":\"v\",\"x-ok\":\"a\\nb\",\"x-fine\":\"ok\"}"), &Vec::new());
    assert_eq!(hs, vec![p("x-fine", "ok")]);
    assert_eq!(upstream_headers(Some("{\"\":\"v\"}"), &Vec::new()), Vec::new());
}

#[test]
fn client_range_headers_replace_requested_ones() {
    let client = vec![
        c("accept", Some("*/*")),
        c("if-none-match", Some("\"e\"")),
        c("range", Some("bytes=5-")),
        c("range", Some("bytes=9-")),
    ];
    let hs = upstream_headers(Some("{\"Range\":\"bytes=0-\",\"User-Agent\":\"ua\"}"), &client);
    assert_eq!(hs, vec![p("User-Agent", "ua"), p("range", "bytes=5-"), p("if-none-match", "\"e\"")]);
}

#[test]
fn client_header_that_is_not_text_is_not_passed() {
    let client = vec![c("range", None), c("if-range", Some("x"))];
    assert_eq!(request_headers_from(None, &client), vec![p("if-range", "x")]);
    let json = Some(vec![p("X-A", "1")]);
    assert_eq!(request_headers_from(json, &client), vec![p("X-A", "1"), p("if-range", "x")]);
}

#[test]
fn range_requests_are_recognised_case_insensitively() {
    assert!(range_request(&vec![c("Range", None)]));
    assert!(range_request(&vec![c("accept", Some("*/*")), c("if-range", Some("x"))]));
    assert!(!range_request(&vec![c("accept", Some("*/*"))]));
    assert!(!range_request(&Vec::new()));
}
