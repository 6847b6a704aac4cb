use m3u8_proxy::config::{allowed_origins, enable_cors, listen_port, parse_u16, xor_key};

#[test]
fn xor_key_default_and_configured() {
    assert_eq!(xor_key(None), b"s3cr3t_k3y_pr0xy".to_vec());
    assert_eq!(xor_key(Some("ké")), "ké".as_bytes().to_vec());
}

#[test]
fn port_parsing_follows_u16_from_str() {
    assert_eq!(listen_port(None), 8080);
    assert_eq!(listen_port(Some("3000")), 3000);
    assert_eq!(listen_port(Some("+80")), 80);
    assert_eq!(listen_port(Some("65535")), 65535);
    assert_eq!(listen_port(Some("65536")), 8080);
    assert_eq!(listen_port(Some("")), 8080);
    assert_eq!(listen_port(Some("+")), 8080);
    assert_eq!(listen_port(Some("-1")), 8080);
    assert_eq!(listen_port(Some(" 80")), 8080);
    assert_eq!(parse_u16("00042"), Some(42));
    assert_eq!(parse_u16("999999999999"), None);
}

#[test]
fn allowed_origins_are_split_trimmed_and_filtered() {
    assert_eq!(allowed_origins(None), vec!["http://localhost:8080".to_string()]);
    assert_eq!(
        allowed_origins(Some(" https://a.example , ,https://b.example,")),
        vec!["https://a.example".to_string(), "https://b.example".to_string()]
    );
    assert!(allowed_origins(Some("")).is_empty());
}

#[test]
fn enable_cors_accepts_true_and_one() {
    assert!(enable_cors(Some("true")));
    assert!(enable_cors(Some("1")));
    assert!(!enable_cors(Some("TRUE")));
    assert!(!enable_cors(Some("yes")));
    assert!(!enable_cors(None));
}
