use m3u8_proxy::cors::{get_valid_origin, handle_options, set_cors_headers, Preflight};

fn allowed() -> Vec<String> {
    vec!["https://a.example".to_string(), "https://b.example".to_string()]
}

fn h(name: &str, value: &str) -> (String, String) {
    (name.to_string(), value.to_string())
}

#[test]
fn cors_disabled_gives_no_origin() {
    assert_eq!(get_valid_origin(false, &allowed(), Some("https://a.example"), None), None);
}

#[test]
fn allowed_origin_header_is_echoed() {
    assert_eq!(
        get_valid_origin(true, &allowed(), Some("https://b.example"), Some("https://a.example/x")),
        Some("https://b.example".to_string())
    );
}

#[test]
fn referer_prefix_selects_first_allowed_origin() {
    assert_eq!(
        get_valid_origin(true, &allowed(), Some("https://evil.example"), Some("https://b.example/page")),
        Some("https://b.example".to_string())
    );
    assert_eq!(get_valid_origin(true, &allowed(), None, Some("https://c.example/")), None);
    assert_eq!(get_valid_origin(true, &allowed(), None, None), None);
}

#[test]
fn cors_headers_for_origin_and_wildcard() {
    let mut headers = vec![h("X-Pre", "1")];
    set_cors_headers(&mut headers, &None);
    assert_eq!(headers.len(), 7);
    assert_eq!(headers[0], h("X-Pre", "1"));
    assert_eq!(headers[1], h("access-control-allow-origin", "*"));
    assert_eq!(headers[2], h("access-control-allow-methods", "GET, POST, OPTIONS, HEAD"));
    assert_eq!(headers[5], h("cross-origin-resource-policy", "cross-origin"));
    assert_eq!(headers[6], h("Vary", "Origin"));
    let mut headers = Vec::new();
    set_cors_headers(&mut headers, &Some("https://a.example".to_string()));
    assert_eq!(headers[0], h("access-control-allow-origin", "https://a.example"));
}

#[test]
fn preflight_forbidden_without_allowed_origin() {
    assert!(matches!(handle_options(true, &allowed(), Some("https://x.example"), None), Preflight::Forbidden));
}

#[test]
fn preflight_allowed_with_wildcard_when_cors_disabled() {
    match handle_options(false, &allowed(), None, None) {
        Preflight::Allowed { headers } => {
            assert_eq!(headers.len(), 7);
            assert_eq!(headers[0], h("access-control-allow-origin", "*"));
            assert_eq!(headers[6], h("access-control-max-age", "86400"));
        },
        Preflight::Forbidden => panic!("expected an allowed preflight"),
    }
}

#[test]
fn preflight_echoes_allowed_origin() {
    match handle_options(true, &allowed(), Some("https://a.example"), None) {
        Preflight::Allowed { headers } => {
            assert_eq!(headers[0], h("access-control-allow-origin", "https://a.example"));
        },
        Preflight::Forbidden => panic!("expected an allowed preflight"),
    }
}

#[test]
fn cors_headers_replace_earlier_ones_of_the_same_name() {
    let mut headers = vec![h("vary", "Accept"), h("X-Keep", "1"), h("Access-Control-Allow-Origin", "x")];
    set_cors_headers(&mut headers, &None);
    assert_eq!(headers.len(), 7);
    assert_eq!(headers[0], h("X-Keep", "1"));
    assert_eq!(headers[1], h("access-control-allow-origin", "*"));
    assert_eq!(headers[6], h("Vary", "Origin"));
}

#[test]
fn second_cors_call_wins() {
    let mut twice = vec![h("X-Pre", "1")];
    set_cors_headers(&mut twice, &Some("https://a.example".to_string()));
    set_cors_headers(&mut twice, &Some("https://b.example".to_string()));
    let mut once = vec![h("X-Pre", "1")];
    set_cors_headers(&mut once, &Some("https://b.example".to_string()));
    assert_eq!(twice, once);
    let mut again = once.clone();
    set_cors_headers(&mut again, &Some("https://b.example".to_string()));
    assert_eq!(again, once);
}
