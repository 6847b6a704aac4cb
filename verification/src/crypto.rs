//! Obfuscation of target URLs: the UTF-8 bytes XOR-ed with a key, then
//! base64-encoded for use as a query parameter.
use vstd::prelude::*;
use vstd::utf8::*;
use vstd::string::*;
use crate::b64::{b64_decode, b64_decoded, b64_encode, b64_encoded, is_url_safe_b64_char};
use crate::text::utf8_to_string;

verus! {

/// The byte sequence `data` with every byte XOR-ed against the key,
/// the key repeated cyclically from its first byte.
pub open spec fn xor_seq(data: Seq<u8>, key: Seq<u8>) -> Seq<u8> {
    Seq::new(data.len(), |i: int| data[i] ^ key[i % (key.len() as int)])
}

/// XORs `data` in place with `key`, repeating the key as needed.
/// An empty key only works on empty data (there is no key byte to use).
pub fn xor_transform(data: &mut Vec<u8>, key: &[u8])
    requires
        key@.len() > 0 || old(data)@.len() == 0,
    ensures
        final(data)@ == xor_seq(old(data)@, key@),
        final(data)@.len() == old(data)@.len(),
        forall|i: int|
            0 <= i < old(data)@.len() ==> #[trigger] final(data)@[i] == old(data)@[i] ^ key@[i
                % (key@.len() as int)],
{
    let key_len = key.len();
    let n = data.len();
    let mut i: usize = 0;
    while i < n
        invariant
            n == data@.len(),
            key_len == key@.len(),
            key_len > 0 || n == 0,
            i <= n,
            forall|j: int| 0 <= j < i ==> data@[j] == old(data)@[j] ^ key@[j % (key_len as int)],
            forall|j: int| i <= j < n ==> data@[j] == old(data)@[j],
            old(data)@.len() == n,
        decreases n - i,
    {
        let k = key[i % key_len];
        let b = data[i];
        data.set(i, b ^ k);
        i = i + 1;
    }
    assert(data@ =~= xor_seq(old(data)@, key@));
}

/// The key is applied cyclically from the first byte on: XOR-ing data whose
/// first part is a whole number of key lengths is XOR-ing each part on its
/// own, however long the data is.
pub proof fn lemma_xor_key_cycles(a: Seq<u8>, b: Seq<u8>, key: Seq<u8>)
    requires
        key.len() > 0,
        a.len() % key.len() == 0,
    ensures
        xor_seq(a + b, key) == xor_seq(a, key) + xor_seq(b, key),
{
    let n = a.len() as int;
    let k = key.len() as int;
    let q = n / k;
    assert(n == k * q) by {
        vstd::arithmetic::div_mod::lemma_fundamental_div_mod(n, k);
    }
    let whole = xor_seq(a + b, key);
    let parts = xor_seq(a, key) + xor_seq(b, key);
    assert forall|j: int| 0 <= j < whole.len() implies #[trigger] whole[j] == parts[j] by {
        if j >= n {
            let i = j - n;
            vstd::arithmetic::div_mod::lemma_mod_multiples_vanish(q, i, k);
            assert(j % k == i % k);
            assert((a + b)[j] == b[i]);
        } else {
            assert((a + b)[j] == a[j]);
        }
    }
    assert(xor_seq(a + b, key) =~= xor_seq(a, key) + xor_seq(b, key));
}

/// Applying the same key twice gives the data back.
pub proof fn lemma_xor_involution(data: Seq<u8>, key: Seq<u8>)
    requires
        key.len() > 0 || data.len() == 0,
    ensures
        xor_seq(xor_seq(data, key), key) == data,
{
    let once = xor_seq(data, key);
    let twice = xor_seq(once, key);
    assert forall|i: int| 0 <= i < data.len() implies twice[i] == data[i] by {
        let a = data[i];
        let b = key[i % (key.len() as int)];
        assert((a ^ b) ^ b == a) by (bit_vector);
    }
    assert(twice =~= data);
}

/// The obfuscated form of a URL: its UTF-8 bytes XOR-ed with the key, then
/// base64-encoded with the URL-safe alphabet and no padding.
pub open spec fn encrypted_url(url: Seq<char>, key: Seq<u8>) -> Seq<char> {
    b64_encoded(xor_seq(encode_utf8(url), key))
}

/// What decrypting a text gives: `None` when the text is not valid base64 or
/// the XOR-ed bytes are not valid UTF-8, else the decoded characters.
pub open spec fn decrypted_url(text: Seq<char>, key: Seq<u8>) -> Option<Seq<char>> {
    match b64_decoded(text) {
        None => None,
        Some(bytes) => {
            let plain = xor_seq(bytes, key);
            if valid_utf8(plain) {
                Some(decode_utf8(plain))
            } else {
                None
            }
        },
    }
}

/// A non-empty character sequence has a non-empty UTF-8 encoding.
pub proof fn lemma_utf8_nonempty(s: Seq<char>)
    ensures
        s.len() > 0 <==> encode_utf8(s).len() > 0,
{
    if s.len() > 0 {
        assert(encode_scalar(s[0] as u32).len() > 0);
    }
}

/// Obfuscates `url` for use as the `u` query parameter.
/// The result always decrypts back to `url` with the same key; it has four
/// characters for every three bytes of the URL's UTF-8 form, rounded up.
pub fn encrypt_url(url: &str, key: &[u8]) -> (res: String)
    requires
        key@.len() > 0 || url@.len() == 0,
    ensures
        res@ == encrypted_url(url@, key@),
        decrypted_url(res@, key@) == Some(url@),
        forall|i: int| 0 <= i < res@.len() ==> is_url_safe_b64_char(#[trigger] res@[i]),
        res@.len() == (4 * encode_utf8(url@).len() + 2) / 3,
{
    let mut data = url.as_bytes_vec();
    proof {
        lemma_utf8_nonempty(url@);
    }
    xor_transform(&mut data, key);
    let res = b64_encode(data.as_slice());
    proof {
        lemma_xor_involution(encode_utf8(url@), key@);
        broadcast use group_utf8_lib;
    }
    res
}

/// The text decodes to some bytes: an empty key has nothing to XOR them
/// with.
pub open spec fn decodes_to_bytes(text: Seq<char>) -> bool {
    b64_decoded(text) matches Some(d) && d.len() > 0
}

/// Recovers the URL hidden in `encrypted`, or `None` when it is not a
/// well-formed obfuscated URL. An empty key can only be used where the text
/// decodes to no bytes (or does not decode at all). Only the canonical text
/// decrypts, so a URL that comes out encrypts back to `encrypted`.
pub fn decrypt_url(encrypted: &str, key: &[u8]) -> (res: Option<String>)
    requires
        key@.len() > 0 || !decodes_to_bytes(encrypted@),
    ensures
        match res {
            Some(s) => decrypted_url(encrypted@, key@) == Some(s@),
            None => decrypted_url(encrypted@, key@) is None,
        },
        res matches Some(s) ==> encrypted_url(s@, key@) == encrypted@,
{
    let mut data = match b64_decode(encrypted) {
        Some(d) => d,
        None => return None,
    };
    let ghost bytes = data@;
    xor_transform(&mut data, key);
    let res = utf8_to_string(data);
    proof {
        if res is Some {
            broadcast use group_utf8_lib;
            lemma_xor_involution(bytes, key@);
            assert(encode_utf8(res->0@) == xor_seq(bytes, key@));
        }
    }
    res
}

} // verus!
