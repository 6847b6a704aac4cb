use m3u8_proxy::b64::{b64_decode, b64_encode};
use m3u8_proxy::config::xor_key;
use m3u8_proxy::crypto::{decrypt_url, encrypt_url, xor_transform};

#[test]
fn xor_transform_repeats_the_key() {
    let mut data = vec![0x01u8, 0x02, 0x03, 0x04, 0x05];
    xor_transform(&mut data, &[0xff, 0x0f]);
    assert_eq!(data, vec![0xfe, 0x0d, 0xfc, 0x0b, 0xfa]);
}

#[test]
fn xor_transform_twice_is_identity() {
    let plain = b"https://example.com/x".to_vec();
    let mut data = plain.clone();
    xor_transform(&mut data, b"k3y");
    assert_ne!(data, plain);
    xor_transform(&mut data, b"k3y");
    assert_eq!(data, plain);
}

#[test]
fn xor_transform_empty_data_with_empty_key() {
    let mut data: Vec<u8> = Vec::new();
    xor_transform(&mut data, &[]);
    assert!(data.is_empty());
}

#[test]
fn encrypt_url_known_value() {
    let key = xor_key(None);
    assert_eq!(
        encrypt_url("https://example.com/video.m3u8", &key),
        "G0cXAkBOcERWAT4dAlwdVxBcDl1FHTsOXFcyQwcI"
    );
    assert_eq!(encrypt_url("abc", b"k"), "CgkI");
}

#[test]
fn encrypt_then_decrypt_round_trip() {
    let key = xor_key(Some("another key"));
    for url in ["https://a.b/c?d=e&f=g", "", "http://üñí.example/ß", "x"] {
        let enc = encrypt_url(url, &key);
        assert_eq!(decrypt_url(&enc, &key), Some(url.to_string()));
    }
}

#[test]
fn decrypt_known_value() {
    let key = xor_key(None);
    assert_eq!(
        decrypt_url("G0cXAkBOcERWAT4dAlwdVxBcDl1FHTsOXFcyQwcI", &key),
        Some("https://example.com/video.m3u8".to_string())
    );
}

#[test]
fn decrypt_rejects_invalid_base64() {
    let key = xor_key(None);
    assert_eq!(decrypt_url("not base64!", &key), None);
    // Padding is refused by the unpadded engine.
    assert_eq!(decrypt_url("CgkI==", &key), None);
}

#[test]
fn decrypt_rejects_non_utf8_plaintext() {
    // 0xfb 0xff xor 0x00 is not UTF-8.
    assert_eq!(decrypt_url("-_8", &[0u8]), None);
}

#[test]
fn decrypt_empty_text_with_empty_key() {
    assert_eq!(decrypt_url("", &[]), Some(String::new()));
}

#[test]
fn b64_encode_uses_url_safe_alphabet_without_padding() {
    assert_eq!(b64_encode(&[0xfb, 0xff]), "-_8");
    assert_eq!(b64_encode(b""), "");
}

#[test]
fn b64_decode_inverts_encode() {
    assert_eq!(b64_decode("-_8"), Some(vec![0xfb, 0xff]));
    assert_eq!(b64_decode(""), Some(Vec::new()));
    assert_eq!(b64_decode("A"), None);
}

#[test]
fn encrypted_length_is_four_thirds_rounded_up() {
    for (url, len) in [("", 0usize), ("a", 2), ("ab", 3), ("abc", 4), ("abcd", 6)] {
        assert_eq!(encrypt_url(url, b"key").len(), len);
    }
}

#[test]
fn empty_url_with_empty_key_round_trips() {
    let enc = encrypt_url("", &[]);
    assert_eq!(enc, "");
    assert_eq!(decrypt_url(&enc, &[]), Some(String::new()));
}

#[test]
fn decrypt_rejects_set_trailing_bits() {
    // The last symbol of "Cgl" leaves set bits after the second byte.
    assert_eq!(b64_decode("Cgl"), None);
    assert_eq!(decrypt_url("Cgl", b"k"), None);
}

#[test]
fn decrypted_url_encrypts_back_to_the_same_text() {
    let key = xor_key(None);
    let enc = "G0cXAkBOcERWAT4dAlwdVxBcDl1FHTsOXFcyQwcI";
    let url = decrypt_url(enc, &key).unwrap();
    assert_eq!(encrypt_url(&url, &key), enc);
}

#[test]
fn invalid_text_with_empty_key_is_rejected() {
    assert_eq!(decrypt_url("not base64!", &[]), None);
}
