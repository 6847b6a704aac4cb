//! The URL-safe, unpadded base64 codec of the `base64` crate, as the library
//! sees it. Nothing here is proved: each item states what the crate's
//! documentation and source show of the call it makes.
use vstd::prelude::*;
use base64::engine::general_purpose::URL_SAFE_NO_PAD;
use base64::Engine;

verus! {

/// Text that `URL_SAFE_NO_PAD.encode` produces for the given bytes.
pub uninterp spec fn b64_encoded(data: Seq<u8>) -> Seq<char>;

/// What `URL_SAFE_NO_PAD.decode` gives for the given text: the decoded bytes,
/// or `None` where the crate reports a `DecodeError`.
pub uninterp spec fn b64_decoded(text: Seq<char>) -> Option<Seq<u8>>;

/// A character of the URL-safe base64 alphabet (`A-Z`, `a-z`, `0-9`, `-`, `_`).
pub open spec fn is_url_safe_b64_char(c: char) -> bool {
    ('A' <= c && c <= 'Z') || ('a' <= c && c <= 'z') || ('0' <= c && c <= '9') || c == '-' || c
        == '_'
}

/// Calls `base64::engine::general_purpose::URL_SAFE_NO_PAD.encode`.
/// Claimed: the result is the named encoding of `data`; it is made of
/// URL-safe alphabet characters only (the engine's alphabet, no padding);
/// its length is four characters per three bytes, plus two or three for a
/// remainder of one or two bytes (the crate's `encoded_len` without padding),
/// which is `(4 * n + 2) / 3` for `n` bytes; decoding it with the same engine
/// gives `data` back (the crate's round-trip property). The crate's `expect` on the output length fires
/// only for inputs longer than three quarters of `usize::MAX` bytes, which no
/// slice can be (Rust caps an allocation at `isize::MAX` bytes).
#[verifier::external_body]
pub fn b64_encode(data: &[u8]) -> (res: String)
    ensures
        res@ == b64_encoded(data@),
        forall|i: int| 0 <= i < res@.len() ==> is_url_safe_b64_char(#[trigger] res@[i]),
        res@.len() == (4 * data@.len() + 2) / 3,
        b64_decoded(res@) == Some(data@),
{
    URL_SAFE_NO_PAD.encode(data)
}

/// Calls `base64::engine::general_purpose::URL_SAFE_NO_PAD.decode` on the
/// bytes of `text`, mapping a `DecodeError` to `None`.
/// Claimed: the result is the named decoding of `text`, and empty text
/// decodes to no bytes. The engine rejects padding and set trailing bits
/// (`RequireNone`, trailing bits not allowed), so only the canonical text of
/// some bytes decodes: re-encoding the decoded bytes gives `text` back.
#[verifier::external_body]
pub fn b64_decode(text: &str) -> (res: Option<Vec<u8>>)
    ensures
        match res {
            Some(v) => b64_decoded(text@) == Some(v@),
            None => b64_decoded(text@) is None,
        },
        res is None ==> text@.len() > 0,
        res matches Some(v) ==> (text@.len() == 0 ==> v@.len() == 0),
        res matches Some(v) ==> b64_encoded(v@) == text@,
{
    match URL_SAFE_NO_PAD.decode(text) {
        Ok(v) => Some(v),
        Err(_) => None,
    }
}

} // verus!
