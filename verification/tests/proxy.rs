use m3u8_proxy::config::xor_key;
use m3u8_proxy::crypto::encrypt_url;
use m3u8_proxy::proxy::{
    asset_response_headers, forward_headers, looks_like_playlist, parse_query, plan_request,
    plan_upstream, playlist_response_headers, query_get, stream_response_headers, try_plan_request,
    CacheState, Rejection, UpstreamAction,
};

fn p(k: &str, v: &str) -> (String, String) {
    (k.to_string(), v.to_string())
}

#[test]
fn query_is_split_and_decoded() {
    assert_eq!(
        parse_query("u=abc&origin=http%3A%2F%2Fx&&flag&v=a=b&bad=%FF"),
        vec![
            p("u", "abc"),
            p("origin", "http://x"),
            p("", ""),
            p("flag", ""),
            p("v", "a=b"),
            p("bad", "%FF"),
        ]
    );
    assert_eq!(parse_query(""), vec![p("", "")]);
}

#[test]
fn query_get_takes_last_occurrence() {
    let pairs = parse_query("a=1&b=2&a=3");
    assert_eq!(query_get(&pairs, "a"), Some("3".to_string()));
    assert_eq!(query_get(&pairs, "b"), Some("2".to_string()));
    assert_eq!(query_get(&pairs, "c"), None);
}

#[test]
fn plan_request_decrypts_u() {
    let key = xor_key(None);
    let enc = encrypt_url("https://example.com/video.m3u8", &key);
    let pairs = parse_query(&format!("u={}&origin=https%3A%2F%2Fsite&headers=%7B%7D", enc));
    match plan_request(&pairs, &None, false, &key) {
        Ok(t) => {
            assert_eq!(t.url, "https://example.com/video.m3u8");
            assert_eq!(t.parsed.as_str(), "https://example.com/video.m3u8");
            assert_eq!(t.origin, Some("https://site".to_string()));
            assert_eq!(t.headers_json, Some("{}".to_string()));
        },
        Err(_) => panic!("expected a target"),
    }
}

#[test]
fn plan_request_accepts_plain_url() {
    let key = xor_key(None);
    let pairs = parse_query("url=https%3A%2F%2Fexample.com%2Fa.ts");
    match plan_request(&pairs, &None, false, &key) {
        Ok(t) => {
            assert_eq!(t.url, "https://example.com/a.ts");
            assert_eq!(t.origin, None);
        },
        Err(_) => panic!("expected a target"),
    }
}

#[test]
fn plan_request_rejections() {
    let key = xor_key(None);
    let forbidden = plan_request(&parse_query("url=https://x.example/"), &None, true, &key);
    assert!(matches!(forbidden, Err(Rejection::Forbidden)));
    match plan_request(&parse_query("u=!!!"), &None, false, &key) {
        Err(Rejection::BadRequest { message }) => assert_eq!(message, "Invalid encrypted URL"),
        _ => panic!("expected a bad request"),
    }
    match plan_request(&parse_query("x=1"), &None, false, &key) {
        Err(Rejection::BadRequest { message }) => assert_eq!(message, "Missing u parameter"),
        _ => panic!("expected a bad request"),
    }
    match plan_request(&parse_query("url=not-a-url"), &Some("https://a".to_string()), true, &key) {
        Err(Rejection::BadRequest { message }) => {
            assert_eq!(message, "Invalid URL: relative URL without a base")
        },
        _ => panic!("expected a bad request"),
    }
}

#[test]
fn upstream_playlists_are_rewritten() {
    assert!(plan_upstream("Application/X-MPEGURL; charset=utf-8", "https://a/b", false, true, None) == UpstreamAction::Rewrite);
    assert!(plan_upstream("", "https://a/b/INDEX.M3U8", true, false, None) == UpstreamAction::Rewrite);
}

#[test]
fn upstream_small_assets_are_buffered() {
    assert!(plan_upstream("video/mp2t", "https://a/s.ts", false, true, Some(5_000_000)) == UpstreamAction::Buffer);
    assert!(plan_upstream("video/mp2t", "https://a/s.ts", false, true, Some(5_000_001)) == UpstreamAction::Stream);
    assert!(plan_upstream("video/mp2t", "https://a/s.ts", true, true, Some(10)) == UpstreamAction::Stream);
    assert!(plan_upstream("video/mp2t", "https://a/s.ts", false, false, Some(10)) == UpstreamAction::Stream);
    assert!(plan_upstream("video/mp2t", "https://a/s.ts", false, true, None) == UpstreamAction::Stream);
}

#[test]
fn only_listed_headers_are_forwarded() {
    let upstream = vec![
        p("Content-Type", "video/mp2t"),
        p("set-cookie", "x"),
        p("ETag", "\"1\""),
        p("server", "nginx"),
        p("content-length", "10"),
    ];
    assert_eq!(
        forward_headers(&upstream),
        vec![p("content-type", "video/mp2t"), p("etag", "\"1\""), p("content-length", "10")]
    );
}

#[test]
fn playlist_detection_skips_leading_whitespace() {
    assert!(looks_like_playlist("\n  #EXTM3U\n#EXTINF:1,"));
    assert!(!looks_like_playlist("<html>#EXTM3U"));
    assert!(!looks_like_playlist(""));
}

#[test]
fn response_header_sets() {
    let pl = playlist_response_headers(&None, CacheState::Hit);
    assert_eq!(pl.len(), 9);
    assert_eq!(pl[6], p("Content-Type", "application/vnd.apple.mpegurl"));
    assert_eq!(pl[8], p("X-Cache", "HIT"));
    let fw = vec![p("etag", "1")];
    let asset = asset_response_headers(&None, CacheState::Miss, &fw);
    assert_eq!(asset.len(), 8);
    assert_eq!(asset[6], p("X-Cache", "MISS"));
    assert_eq!(asset[7], p("etag", "1"));
    let st = stream_response_headers(&Some("https://a".to_string()), &fw);
    assert_eq!(st.len(), 7);
    assert_eq!(st[0], p("access-control-allow-origin", "https://a"));
}

#[test]
fn forwarded_vary_replaces_cors_vary() {
    let fw = vec![p("vary", "Accept-Encoding"), p("etag", "1"), p("etag", "2")];
    let asset = asset_response_headers(&None, CacheState::Hit, &fw);
    assert_eq!(asset.len(), 8);
    assert_eq!(asset[5], p("X-Cache", "HIT"));
    assert_eq!(asset[6], p("vary", "Accept-Encoding"));
    assert_eq!(asset[7], p("etag", "2"));
    let st = stream_response_headers(&None, &fw);
    assert_eq!(st.len(), 7);
    assert_eq!(st[4], p("cross-origin-resource-policy", "cross-origin"));
}

#[test]
fn empty_key_needed_for_decodable_u_gives_no_plan() {
    let enc = encrypt_url("https://example.com/a.m3u8", b"k");
    let pairs = parse_query(&format!("u={}", enc));
    assert!(try_plan_request(&pairs, &None, false, &[]).is_none());
    // Forbidden before the key would be used.
    assert!(matches!(try_plan_request(&pairs, &None, true, &[]), Some(Err(Rejection::Forbidden))));
}

#[test]
fn empty_key_with_undecodable_u_is_a_bad_request() {
    let pairs = parse_query("u=%21%21");
    match try_plan_request(&pairs, &None, false, &[]) {
        Some(Err(Rejection::BadRequest { message })) => assert_eq!(message, "Invalid encrypted URL"),
        _ => panic!("expected a bad request"),
    }
    let pairs = parse_query("u=");
    match try_plan_request(&pairs, &None, false, &[]) {
        Some(Err(Rejection::BadRequest { message })) => assert!(message.starts_with("Invalid URL: ")),
        _ => panic!("expected a bad request"),
    }
}

#[test]
fn try_plan_request_with_key_plans() {
    let key = xor_key(None);
    let enc = encrypt_url("https://example.com/video.m3u8", &key);
    let pairs = parse_query(&format!("u={}", enc));
    match try_plan_request(&pairs, &None, false, &key) {
        Some(Ok(t)) => assert_eq!(t.url, "https://example.com/video.m3u8"),
        _ => panic!("expected a plan"),
    }
}
