use m3u8_proxy::pipe::{
    body_is_accepted, build_proxy_url, classify_line, get_url, line_accepted, process_pipe_body,
    process_pipe_line, render_line, split_attr_list, uris_of_line, LineShape,
};
use m3u8_proxy::config::xor_key;
use m3u8_proxy::crypto::decrypt_url;
use m3u8_proxy::percent::{percent_decode, percent_encode};
use m3u8_proxy::proxy::{parse_query, query_get};
use m3u8_proxy::urls::{join_url, parse_url, ParsedUrl};

fn base() -> ParsedUrl {
    parse_url("https://cdn.example.com/a/index.m3u8").ok().unwrap()
}

const SEG1: &str = "G0cXAkBOcERQHTFeF0gZFANfBlxQGzJEUlYsFRUBVg0A";
const KEY: &str = "G0cXAkBOcERQHTFeF0gZFANfBlxQGzJEUlY0FQseGhAd";
const INIT: &str = "G0cXAkBOcERQHTFeF0gZFANfBlxQGzJEUlY2HhtEVhQDBw";
const AUDIO: &str = "G0cXAkBOcERQHTFeF0gZFANfBlxQGzJEUlY-BRZZF1YWXU0fAAFn";
const OTHER: &str = "G0cXAglbcARHEToCXFgXCgccG1xHBw";

#[test]
fn blank_line_stays_blank() {
    assert_eq!(process_pipe_line("", &base(), None, &xor_key(None)), "");
}

#[test]
fn comment_and_plain_tags_are_unchanged() {
    let key = xor_key(None);
    for line in ["#EXTM3U", "#EXTINF:10.0,", "#EXT-X-TARGETDURATION:10", "#EXT-X-KEY:METHOD=NONE"] {
        assert_eq!(process_pipe_line(line, &base(), None, &key), line);
    }
}

#[test]
fn segment_line_becomes_proxy_link() {
    let key = xor_key(None);
    assert_eq!(process_pipe_line("seg1.ts", &base(), None, &key), format!("/?u={}", SEG1));
}

#[test]
fn absolute_segment_is_not_resolved_against_base() {
    let key = xor_key(None);
    assert_eq!(
        process_pipe_line("http://other.host/x.ts", &base(), None, &key),
        format!("/?u={}", OTHER)
    );
}

#[test]
fn origin_parameter_is_percent_encoded() {
    let key = xor_key(None);
    assert_eq!(
        process_pipe_line("seg1.ts", &base(), Some("https://site.example"), &key),
        format!("/?u={}&origin=https%3A%2F%2Fsite.example", SEG1)
    );
}

#[test]
fn key_tag_uri_is_replaced_in_place() {
    let key = xor_key(None);
    assert_eq!(
        process_pipe_line("#EXT-X-KEY:METHOD=AES-128,URI=\"key.bin\",IV=0x1", &base(), None, &key),
        format!("#EXT-X-KEY:METHOD=AES-128,URI=\"/?u={}\",IV=0x1", KEY)
    );
}

#[test]
fn key_tag_without_closing_quote_is_unchanged() {
    let key = xor_key(None);
    let line = "#EXT-X-KEY:METHOD=AES-128,URI=\"key.bin";
    assert_eq!(process_pipe_line(line, &base(), None, &key), line);
}

#[test]
fn map_tag_uri_is_replaced() {
    let key = xor_key(None);
    assert_eq!(
        process_pipe_line("#EXT-X-MAP:URI=\"init.mp4\"", &base(), None, &key),
        format!("#EXT-X-MAP:URI=\"/?u={}\"", INIT)
    );
}

#[test]
fn media_tag_uri_attribute_is_replaced() {
    let key = xor_key(None);
    assert_eq!(
        process_pipe_line(
            "#EXT-X-MEDIA:TYPE=AUDIO,GROUP-ID=\"aud\",NAME=\"English\",URI=\"audio/en.m3u8\"",
            &base(),
            None,
            &key
        ),
        format!(
            "#EXT-X-MEDIA:TYPE=AUDIO,GROUP-ID=\"aud\",NAME=\"English\",URI=\"/?u={}\"",
            AUDIO
        )
    );
}

#[test]
fn quoted_commas_stay_inside_their_attribute() {
    let key = xor_key(None);
    assert_eq!(
        process_pipe_line(
            "#EXT-X-SESSION-DATA:DATA-ID=\"a,b\", URI=\"http://other.host/x.ts\"",
            &base(),
            None,
            &key
        ),
        format!("#EXT-X-SESSION-DATA:DATA-ID=\"a,b\",URI=\"/?u={}\"", OTHER)
    );
}

#[test]
fn attribute_tag_without_uri_value_is_unchanged() {
    let key = xor_key(None);
    let line = "#EXT-X-STREAM-INF:BANDWIDTH=1280000,NOTE=\"URL=nothing\"";
    assert_eq!(process_pipe_line(line, &base(), None, &key), line);
}

#[test]
fn lines_without_uris_need_no_key() {
    assert_eq!(process_pipe_line("#EXTINF:4,", &base(), None, &[]), "#EXTINF:4,");
}

#[test]
fn uris_of_line_lists_each_uri() {
    assert_eq!(uris_of_line("seg1.ts"), vec!["seg1.ts".to_string()]);
    assert_eq!(uris_of_line("#EXT-X-MAP:URI=\"init.mp4\""), vec!["init.mp4".to_string()]);
    assert_eq!(
        uris_of_line("#EXT-X-MEDIA:TYPE=AUDIO,URI=\"a.m3u8\",URL=' b '"),
        vec!["a.m3u8".to_string(), "' b '".to_string()]
    );
    assert!(uris_of_line("#EXTINF:10,").is_empty());
}

#[test]
fn render_line_substitutes_links_in_order() {
    let links = vec!["L1".to_string(), "L2".to_string()];
    assert_eq!(
        render_line("#EXT-X-MEDIA:TYPE=AUDIO,URI=\"a.m3u8\", URL = b", &links),
        "#EXT-X-MEDIA:TYPE=AUDIO,URI=\"L1\",URL=\"L2\""
    );
    assert_eq!(render_line("#EXT-X-MAP:URI=\"x\"", &vec!["L".to_string()]), "#EXT-X-MAP:URI=\"L\"");
}

#[test]
fn body_is_rewritten_line_by_line() {
    let key = xor_key(None);
    let body = "#EXTM3U\r\n#EXT-X-VERSION:3\nseg1.ts\n\n";
    assert_eq!(
        process_pipe_body(body, &base(), None, &key),
        format!("#EXTM3U\n#EXT-X-VERSION:3\n/?u={}\n", SEG1)
    );
}

#[test]
fn body_last_line_keeps_carriage_return_without_newline() {
    let key = xor_key(None);
    assert_eq!(process_pipe_body("#A\r\n#B\r", &base(), None, &key), "#A\n#B\r");
    assert_eq!(process_pipe_body("", &base(), None, &key), "");
}

#[test]
fn get_url_resolves_relative_and_keeps_absolute() {
    assert_eq!(get_url("seg1.ts", &base()), "https://cdn.example.com/a/seg1.ts");
    assert_eq!(get_url("/root.ts", &base()), "https://cdn.example.com/root.ts");
    assert_eq!(get_url("http://other.host/x.ts", &base()), "http://other.host/x.ts");
}

#[test]
fn build_proxy_url_reads_back_to_target() {
    let key = xor_key(None);
    let link = build_proxy_url("https://cdn.example.com/a/seg1.ts", Some("https://o.example/p q"), &key);
    assert!(link.starts_with("/?"));
    let pairs = parse_query(&link[2..]);
    let u = query_get(&pairs, "u").unwrap();
    assert_eq!(decrypt_url(&u, &key), Some("https://cdn.example.com/a/seg1.ts".to_string()));
    assert_eq!(query_get(&pairs, "origin"), Some("https://o.example/p q".to_string()));
}

#[test]
fn url_wrappers_keep_serialization() {
    let u = parse_url("HTTPS://Example.COM").ok().unwrap();
    assert_eq!(u.as_str(), "https://example.com/");
    assert!(parse_url("no scheme").is_err());
    assert_eq!(join_url(&base(), "../b.ts"), Some("https://cdn.example.com/b.ts".to_string()));
}

#[test]
fn percent_wrappers_follow_urlencoding() {
    assert_eq!(percent_encode("a b/ü~"), "a%20b%2F%C3%BC~");
    assert_eq!(percent_decode("a%20b%2f%C3%BC%zz%4"), Some("a b/ü%zz%4".to_string()));
    assert_eq!(percent_decode("%FF"), None);
}

#[test]
fn acceptance_of_lines_and_bodies() {
    assert!(line_accepted("#EXT-X-MAP:URI=\"init.mp4\"", b"k"));
    assert!(!line_accepted("#EXT-X-MAP:URI=\"init.mé", b"k"));
    assert!(!line_accepted("seg1.ts", b""));
    assert!(line_accepted("#EXTINF:4,", b""));
    assert!(line_accepted("", b""));
    assert!(body_is_accepted("#EXTM3U\n#EXTINF:4,\n", b""));
    assert!(!body_is_accepted("#EXTM3U\nseg1.ts\n", b""));
    assert!(body_is_accepted("#EXTM3U\nseg1.ts\n", b"k"));
}

#[test]
fn attribute_list_split_respects_quotes() {
    let line: Vec<char> = "X:A=\"1,2\",B=3,,C".chars().collect();
    let parts = split_attr_list(&line, 2);
    let parts: Vec<String> = parts.into_iter().map(|p| p.into_iter().collect()).collect();
    assert_eq!(parts, vec!["A=\"1,2\"", "B=3", "", "C"]);
}

#[test]
fn classify_line_shapes() {
    let shape = |s: &str| classify_line(&s.chars().collect());
    assert!(shape("") == LineShape::Blank);
    assert!(shape("a.ts") == LineShape::Uri);
    assert!(shape("#EXT-X-KEY:URI=\"k\"") == LineShape::KeyTag { start: 16, end: 17 });
    assert!(shape("#EXT-X-MAP:URI=\"i\"") == LineShape::MapTag);
    assert!(shape("#EXT-X-MEDIA:TYPE=AUDIO,URI=\"a\"") == LineShape::Attrs { colon: 12 });
    assert!(shape("#EXT-X-MEDIA URI=\"a\" no colon here") == LineShape::Keep);
    assert!(shape("#EXTINF:10,") == LineShape::Keep);
}

#[test]
fn body_joined_with_newline_is_rewritten_part_by_part() {
    let key = xor_key(None);
    let a = "#EXTM3U\nseg1.ts";
    let b = "#EXTINF:4,\r\nhttps://other.example/x.ts\n";
    let whole = process_pipe_body(&format!("{}\n{}", a, b), &base(), Some("https://o"), &key);
    let parts = format!(
        "{}\n{}",
        process_pipe_body(a, &base(), Some("https://o"), &key),
        process_pipe_body(b, &base(), Some("https://o"), &key)
    );
    assert_eq!(whole, parts);
}

#[test]
fn one_output_line_per_input_line() {
    let key = xor_key(None);
    let body = "#EXTM3U\r\n#EXT-X-KEY:METHOD=AES-128,URI=\"key.bin\"\n\nseg1.ts\r\n#EXT-X-ENDLIST";
    let out = process_pipe_body(body, &base(), Some("a b"), &key);
    let lines: Vec<&str> = body.lines().collect();
    let rewritten: Vec<&str> = out.split('\n').collect();
    assert_eq!(rewritten.len(), lines.len());
    for (line, new) in lines.iter().zip(rewritten.iter()) {
        assert_eq!(process_pipe_line(line, &base(), Some("a b"), &key), *new);
    }
}

#[test]
fn absolute_uri_line_ignores_the_playlist_url() {
    let key = xor_key(None);
    let other = parse_url("http://elsewhere.example/deep/path/list.m3u8").ok().unwrap();
    let line = "https://other.example/x.ts";
    assert_eq!(
        process_pipe_line(line, &base(), None, &key),
        process_pipe_line(line, &other, None, &key)
    );
    assert_ne!(
        process_pipe_line("x.ts", &base(), None, &key),
        process_pipe_line("x.ts", &other, None, &key)
    );
}
