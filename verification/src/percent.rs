//! Percent-encoding as done by the `urlencoding` crate. Its behaviour is a
//! short function of the input bytes, so the contracts state it in full.
use vstd::prelude::*;
use vstd::utf8::*;

verus! {

/// Bytes that `urlencoding::encode` leaves as they are: ASCII letters and
/// digits and `-`, `.`, `_`, `~`.
pub open spec fn is_unreserved_byte(b: u8) -> bool {
    (0x30 <= b && b <= 0x39) || (0x41 <= b && b <= 0x5a) || (0x61 <= b && b <= 0x7a) || b == 0x2d
        || b == 0x2e || b == 0x5f || b == 0x7e
}

/// Upper-case hexadecimal digit for a value below 16.
pub open spec fn hex_digit_char(d: u8) -> char {
    if d < 10 {
        ((48 + d) as u8) as char
    } else {
        ((55 + d) as u8) as char
    }
}

/// `urlencoding::encode` on the UTF-8 bytes `bytes`: unreserved bytes stay,
/// every other byte becomes `%` and two upper-case hex digits.
pub open spec fn percent_encoded(bytes: Seq<u8>) -> Seq<char>
    decreases bytes.len(),
{
    if bytes.len() == 0 {
        Seq::empty()
    } else {
        let b = bytes[0];
        let head = if is_unreserved_byte(b) {
            seq![b as char]
        } else {
            seq!['%', hex_digit_char(b >> 4), hex_digit_char(b & 15)]
        };
        head + percent_encoded(bytes.drop_first())
    }
}

/// Value of an ASCII hexadecimal digit (either case).
pub open spec fn hex_value(b: u8) -> Option<u8> {
    if 0x30 <= b && b <= 0x39 {
        Some((b - 0x30) as u8)
    } else if 0x41 <= b && b <= 0x46 {
        Some((b - 0x41 + 10) as u8)
    } else if 0x61 <= b && b <= 0x66 {
        Some((b - 0x61 + 10) as u8)
    } else {
        None
    }
}

/// `urlencoding::decode_binary`: each `%` followed by two hex digits becomes
/// the byte they denote; every other byte, a stray `%` included, is kept.
pub open spec fn percent_decoded(bytes: Seq<u8>) -> Seq<u8>
    decreases bytes.len(),
{
    if bytes.len() == 0 {
        Seq::empty()
    } else if bytes[0] == 0x25 && bytes.len() >= 3 && hex_value(bytes[1]) is Some && hex_value(
        bytes[2],
    ) is Some {
        seq![((hex_value(bytes[1])->0 * 16) + hex_value(bytes[2])->0) as u8] + percent_decoded(
            bytes.skip(3),
        )
    } else {
        seq![bytes[0]] + percent_decoded(bytes.drop_first())
    }
}

/// `urlencoding::decode` on text: the percent-decoded bytes read as UTF-8,
/// `None` when they are not valid UTF-8.
pub open spec fn percent_decoded_text(text: Seq<char>) -> Option<Seq<char>> {
    let bytes = percent_decoded(encode_utf8(text));
    if valid_utf8(bytes) {
        Some(decode_utf8(bytes))
    } else {
        None
    }
}

/// Calls `urlencoding::encode`. Claimed, from the crate's documentation and
/// source: the result is `percent_encoded` of the UTF-8 bytes of `text`.
#[verifier::external_body]
pub fn percent_encode(text: &str) -> (res: String)
    ensures
        res@ == percent_encoded(encode_utf8(text@)),
{
    urlencoding::encode(text).into_owned()
}

/// Calls `urlencoding::decode`, mapping its UTF-8 error to `None`.
/// Claimed, from the crate's source: the result is `percent_decoded_text`.
#[verifier::external_body]
pub fn percent_decode(text: &str) -> (res: Option<String>)
    ensures
        match res {
            Some(s) => percent_decoded_text(text@) == Some(s@),
            None => percent_decoded_text(text@) is None,
        },
{
    match urlencoding::decode(text) {
        Ok(s) => Some(s.into_owned()),
        Err(_) => None,
    }
}

} // verus!
