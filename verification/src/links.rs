//! How the proxy reads back the links that the playlist rewriter writes.
use vstd::prelude::*;
use vstd::utf8::*;
use crate::percent::{hex_digit_char, hex_value, is_unreserved_byte, percent_decoded, percent_encoded};
use crate::b64::is_url_safe_b64_char;
use crate::proxy::{decoded_or_raw, query_lookup, query_pair, query_pairs};
use crate::text::{
    is_first_match, lemma_first_match, lemma_utf8_concat, occurs_at, split_on,
    split_on_state,
};

verus! {

/// Appending characters other than the separator extends the piece being read.
pub proof fn lemma_split_state_extend(t: Seq<char>, b: Seq<char>, sep: char)
    requires
        forall|i: int| 0 <= i < b.len() ==> b[i] != sep,
    ensures
        split_on_state(t + b, sep) == (split_on_state(t, sep).0, split_on_state(t, sep).1 + b),
    decreases b.len(),
{
    if b.len() == 0 {
        assert(t + b =~= t);
        assert(split_on_state(t, sep).1 + b =~= split_on_state(t, sep).1);
    } else {
        let b0 = b.drop_last();
        lemma_split_state_extend(t, b0, sep);
        assert((t + b).drop_last() =~= t + b0);
        assert((t + b).last() == b.last());
        assert(split_on_state(t, sep).1 + b0 + seq![b.last()] =~= split_on_state(t, sep).1 + b);
        assert((split_on_state(t, sep).1 + b0).push(b.last()) =~= split_on_state(t, sep).1 + b);
    }
}

/// A separator followed by a separator-free piece adds that piece.
pub proof fn lemma_split_append_piece(s: Seq<char>, b: Seq<char>, sep: char)
    requires
        forall|i: int| 0 <= i < b.len() ==> b[i] != sep,
    ensures
        split_on(s + seq![sep] + b, sep) == split_on(s, sep).push(b),
{
    let t = s + seq![sep];
    assert(t.drop_last() =~= s);
    assert(t.last() == sep);
    lemma_split_state_extend(t, b, sep);
    assert(Seq::<char>::empty() + b =~= b);
}

/// A separator-free text is a single piece.
pub proof fn lemma_split_single(b: Seq<char>, sep: char)
    requires
        forall|i: int| 0 <= i < b.len() ==> b[i] != sep,
    ensures
        split_on(b, sep) == seq![b],
{
    lemma_split_state_extend(Seq::empty(), b, sep);
    assert(Seq::<char>::empty() + b =~= b);
    assert(Seq::<char>::empty() + b =~= b);
}

/// Bytes without `%` come out of percent-decoding unchanged.
pub proof fn lemma_decode_plain(bytes: Seq<u8>)
    requires
        forall|i: int| 0 <= i < bytes.len() ==> bytes[i] != 0x25,
    ensures
        percent_decoded(bytes) == bytes,
    decreases bytes.len(),
{
    if bytes.len() > 0 {
        lemma_decode_plain(bytes.drop_first());
        assert(seq![bytes[0]] + bytes.drop_first() =~= bytes);
    }
}

/// Decoding a hex digit written by the encoder gives its value back.
pub proof fn lemma_hex_digit(d: u8)
    requires
        d < 16,
    ensures
        hex_value(hex_digit_char(d) as u8) == Some(d),
        (hex_digit_char(d) as u32) < 128,
        hex_digit_char(d) != '%',
{
    if d < 10 {
        assert(((48 + d) as u8) as char as u8 == (48 + d) as u8);
    } else {
        assert(((55 + d) as u8) as char as u8 == (55 + d) as u8);
    }
}

/// Percent-encoded text is ASCII, and decoding its bytes gives back the
/// bytes that were encoded.
pub proof fn lemma_decode_encode(bytes: Seq<u8>)
    ensures
        is_ascii_chars(percent_encoded(bytes)),
        forall|i: int|
            0 <= i < percent_encoded(bytes).len() ==> #[trigger] percent_encoded(bytes)[i] != '&',
        percent_decoded(encode_utf8(percent_encoded(bytes))) == bytes,
    decreases bytes.len(),
{
    if bytes.len() > 0 {
        let b = bytes[0];
        let rest = bytes.drop_first();
        lemma_decode_encode(rest);
        let tail = percent_encoded(rest);
        let head = if is_unreserved_byte(b) {
            seq![b as char]
        } else {
            seq!['%', hex_digit_char(b >> 4), hex_digit_char(b & 15)]
        };
        assert(percent_encoded(bytes) == head + tail);
        let hi = b >> 4;
        let lo = b & 15;
        assert(hi < 16 && lo < 16) by (bit_vector)
            requires
                hi == b >> 4,
                lo == b & 15,
        ;
        lemma_hex_digit(hi);
        lemma_hex_digit(lo);
        assert(is_ascii_chars(head)) by {
            if is_unreserved_byte(b) {
                assert((b as char) as u32 == b as u32);
            }
        }
        assert(is_ascii_chars(head + tail));
        assert forall|i: int| 0 <= i < head.len() implies head[i] != '&' by {
            if is_unreserved_byte(b) {
                assert((b as char) as u32 == b as u32);
            }
        }
        assert forall|i: int| 0 <= i < (head + tail).len() implies (head + tail)[i] != '&' by {
            if i >= head.len() {
                assert((head + tail)[i] == tail[i - head.len()]);
            }
        }
        lemma_utf8_concat(head, tail);
        is_ascii_chars_encode_utf8(head);
        let hb = encode_utf8(head);
        let tb = encode_utf8(tail);
        assert(encode_utf8(head + tail) == hb + tb);
        if is_unreserved_byte(b) {
            assert(hb.len() == 1);
            assert(hb[0] == (b as char) as u8);
            assert(hb[0] == b);
            assert((hb + tb)[0] == b);
            assert((hb + tb).drop_first() =~= tb);
            assert(seq![b] + rest =~= bytes);
        } else {
            assert(hb.len() == 3);
            assert(hb[0] == 0x25u8);
            assert((hb + tb)[0] == 0x25u8);
            assert((hb + tb)[1] == hex_digit_char(hi) as u8);
            assert((hb + tb)[2] == hex_digit_char(lo) as u8);
            assert((((hi as u8) * 16 + lo) as u8) == b) by (bit_vector)
                requires
                    hi == b >> 4,
                    lo == b & 15,
            ;
            assert((hb + tb).skip(3) =~= tb);
            assert(seq![b] + rest =~= bytes);
        }
    }
}

/// Text made of URL-safe base64 characters passes query decoding unchanged.
pub proof fn lemma_decode_b64_text(e: Seq<char>)
    requires
        forall|i: int| 0 <= i < e.len() ==> is_url_safe_b64_char(#[trigger] e[i]),
    ensures
        decoded_or_raw(e) == e,
{
    assert(is_ascii_chars(e));
    is_ascii_chars_encode_utf8(e);
    let bytes = encode_utf8(e);
    assert forall|i: int| 0 <= i < bytes.len() implies bytes[i] != 0x25 by {
        assert(e[i] as u8 == bytes[i]);
        assert(is_url_safe_b64_char(e[i]));
    }
    lemma_decode_plain(bytes);
    encode_utf8_valid_utf8(e);
    encode_utf8_decode_utf8(e);
}

/// A percent-encoded text decodes back to the text that was encoded.
pub proof fn lemma_decode_percent_encoded(o: Seq<char>)
    ensures
        decoded_or_raw(percent_encoded(encode_utf8(o))) == o,
{
    lemma_decode_encode(encode_utf8(o));
    encode_utf8_valid_utf8(o);
    encode_utf8_decode_utf8(o);
}

/// `name=value` with `name` free of `=` is read as that pair.
pub proof fn lemma_query_pair(name: Seq<char>, value: Seq<char>)
    requires
        forall|i: int| 0 <= i < name.len() ==> name[i] != '=',
    ensures
        query_pair(name + "="@ + value) == (name, decoded_or_raw(value)),
{
    reveal_strlit("=");
    let seg = name + "="@ + value;
    let k = name.len() as int;
    assert(seg.subrange(k, k + 1) =~= "="@);
    assert forall|j: int| 0 <= j < k implies !occurs_at(seg, "="@, j) by {
        assert(seg.subrange(j, j + 1)[0] == name[j]);
    }
    assert(is_first_match(seg, "="@, k));
    lemma_first_match(seg, "="@, k);
    assert(seg.take(k) =~= name);
    assert(seg.skip(k + 1) =~= value);
}

/// The query part of a proxy link for the obfuscated URL `e`.
pub open spec fn link_query(e: Seq<char>, origin: Option<Seq<char>>) -> Seq<char> {
    "u="@ + e + match origin {
        Some(o) => "&origin="@ + percent_encoded(encode_utf8(o)),
        None => Seq::empty(),
    }
}

/// The pieces of a link query are read as the obfuscated URL and the origin.
proof fn lemma_link_query_pairs(e: Seq<char>, origin: Option<Seq<char>>)
    requires
        forall|i: int| 0 <= i < e.len() ==> is_url_safe_b64_char(#[trigger] e[i]),
    ensures
        query_pairs(link_query(e, origin)) == match origin {
            Some(o) => seq![("u"@, e), ("origin"@, o)],
            None => seq![("u"@, e)],
        },
{
    reveal_strlit("u=");
    reveal_strlit("u");
    reveal_strlit("origin");
    reveal_strlit("origin=");
    reveal_strlit("&origin=");
    reveal_strlit("=");
    let a = "u="@ + e;
    assert(a =~= "u"@ + "="@ + e);
    assert forall|i: int| 0 <= i < a.len() implies a[i] != '&' by {
        if i >= 2 {
            assert(a[i] == e[i - 2]);
            assert(is_url_safe_b64_char(e[i - 2]));
        }
    }
    lemma_query_pair("u"@, e);
    lemma_decode_b64_text(e);
    lemma_split_single(a, '&');
    match origin {
        Some(o) => {
            let p = percent_encoded(encode_utf8(o));
            lemma_decode_encode(encode_utf8(o));
            let b = "origin="@ + p;
            assert(b =~= "origin"@ + "="@ + p);
            assert forall|i: int| 0 <= i < b.len() implies b[i] != '&' by {
                if i >= 7 {
                    assert(b[i] == p[i - 7]);
                }
            }
            assert(link_query(e, origin) =~= a + seq!['&'] + b);
            lemma_split_append_piece(a, b, '&');
            lemma_query_pair("origin"@, p);
            lemma_decode_percent_encoded(o);
            assert(split_on(link_query(e, origin), '&') =~= seq![a, b]);
            assert(query_pairs(link_query(e, origin)) =~= seq![("u"@, e), ("origin"@, o)]);
        },
        None => {
            assert(link_query(e, origin) =~= a);
            assert(query_pairs(link_query(e, origin)) =~= seq![("u"@, e)]);
        },
    }
}

/// The query of a proxy link, `u=` and the obfuscated URL, then, when an
/// origin is given, `&origin=` and the percent-encoded origin, reads back as
/// exactly those two parameters.
pub proof fn lemma_link_query(e: Seq<char>, origin: Option<Seq<char>>)
    requires
        forall|i: int| 0 <= i < e.len() ==> is_url_safe_b64_char(#[trigger] e[i]),
    ensures
        query_lookup(query_pairs(link_query(e, origin)), "u"@) == Some(e),
        query_lookup(query_pairs(link_query(e, origin)), "origin"@) == origin,
{
    reveal_strlit("u");
    reveal_strlit("origin");
    lemma_link_query_pairs(e, origin);
    let pairs = query_pairs(link_query(e, origin));
    assert("origin"@.len() == 6 && "u"@.len() == 1);
    let first = seq![("u"@, e)];
    assert(first.drop_last() =~= Seq::<(Seq<char>, Seq<char>)>::empty());
    assert(query_lookup(first, "u"@) == Some(e));
    assert(query_lookup(first.drop_last(), "origin"@) is None);
    assert(query_lookup(first, "origin"@) is None);
    match origin {
        Some(o) => {
            assert(pairs.drop_last() =~= first);
            assert(query_lookup(pairs, "u"@) == Some(e));
            assert(query_lookup(pairs, "origin"@) == Some(o));
        },
        None => {
            assert(pairs =~= first);
        },
    }
}

} // verus!
