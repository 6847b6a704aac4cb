//! The headers of the request sent upstream: those the `headers` query
//! parameter asks for (a JSON object of strings), then the client's range
//! and validation headers, each set in turn; only names and values that the
//! `http` crate accepts are used.
use vstd::prelude::*;
use vstd::utf8::encode_utf8;
use std::collections::BTreeMap;
use crate::headers::{inserted_all, same_name};
use crate::text::{opt_string, pair_texts};

verus! {

/// What `serde_json::from_str` makes of `text` as an object of strings
/// collected into a `BTreeMap`: its entries in key order, or `None` where
/// the text is not such an object.
pub uninterp spec fn json_string_pairs(text: Seq<char>) -> Option<Seq<(Seq<char>, Seq<char>)>>;

/// A byte that may stand in a header name (an HTTP token character).
pub open spec fn is_token_byte(b: u8) -> bool {
    ||| (0x30 <= b && b <= 0x39)
    ||| (0x41 <= b && b <= 0x5a)
    ||| (0x61 <= b && b <= 0x7a)
    ||| b == 0x21 || b == 0x23 || b == 0x24 || b == 0x25 || b == 0x26 || b == 0x27
    ||| b == 0x2a || b == 0x2b || b == 0x2d || b == 0x2e
    ||| b == 0x5e || b == 0x5f || b == 0x60 || b == 0x7c || b == 0x7e
}

/// Bytes that make a header name: one to 65535 token characters.
pub open spec fn is_header_name(bytes: Seq<u8>) -> bool {
    1 <= bytes.len() <= 65535 && forall|i: int| 0 <= i < bytes.len() ==> is_token_byte(#[trigger] bytes[i])
}

/// Bytes that make a header value: tabs and bytes from 32 up, but DEL (127).
pub open spec fn is_header_value(bytes: Seq<u8>) -> bool {
    forall|i: int|
        0 <= i < bytes.len() ==> (#[trigger] bytes[i] >= 32 && bytes[i] != 127) || bytes[i] == 9
}

/// A name/value pair that makes a header.
pub open spec fn header_accepted(p: (Seq<char>, Seq<char>)) -> bool {
    is_header_name(encode_utf8(p.0)) && is_header_value(encode_utf8(p.1))
}

/// The pairs of `ps` that make headers, in order.
pub open spec fn accepted_headers(ps: Seq<(Seq<char>, Seq<char>)>) -> Seq<(Seq<char>, Seq<char>)>
    decreases ps.len(),
{
    if ps.len() == 0 {
        Seq::empty()
    } else if header_accepted(ps.last()) {
        accepted_headers(ps.drop_last()).push(ps.last())
    } else {
        accepted_headers(ps.drop_last())
    }
}

/// The request headers passed on upstream, in the order they are set.
pub open spec fn passed_header_names() -> Seq<Seq<char>> {
    seq!["range"@, "if-range"@, "if-none-match"@, "if-modified-since"@]
}

/// The client's request headers: each name with its value as text, `None`
/// where the value is not visible ASCII.
pub open spec fn client_texts(client: Seq<(String, Option<String>)>) -> Seq<
    (Seq<char>, Option<Seq<char>>),
> {
    client.map_values(|p: (String, Option<String>)| (p.0@, opt_string(p.1)))
}

/// The first header of the client named `name`, if any: its value as text,
/// or `None` when it is not text.
pub open spec fn client_header(client: Seq<(Seq<char>, Option<Seq<char>>)>, name: Seq<char>) -> Option<
    Option<Seq<char>>,
>
    decreases client.len(),
{
    if client.len() == 0 {
        None
    } else if same_name(client[0].0, name) {
        Some(client[0].1)
    } else {
        client_header(client.drop_first(), name)
    }
}

/// For each of `names` in order, the name with the client's text value of
/// that header, where the client sent it as text.
pub open spec fn client_values(
    names: Seq<Seq<char>>,
    client: Seq<(Seq<char>, Option<Seq<char>>)>,
) -> Seq<(Seq<char>, Seq<char>)>
    decreases names.len(),
{
    if names.len() == 0 {
        Seq::empty()
    } else {
        let rest = client_values(names.drop_last(), client);
        match client_header(client, names.last()) {
            Some(Some(v)) => rest.push((names.last(), v)),
            _ => rest,
        }
    }
}

/// The request is a range request: it carries a `Range` or an `If-Range`
/// header (whatever their values).
pub open spec fn is_range_request(client: Seq<(Seq<char>, Option<Seq<char>>)>) -> bool {
    client_header(client, "range"@) is Some || client_header(client, "if-range"@) is Some
}

/// The headers sent upstream: those of the `headers` parameter (its parsed
/// pairs) that make headers, then the passed client headers that do, each
/// set in turn so that a later one replaces an earlier one of the same name.
pub open spec fn upstream_header_list(
    json: Option<Seq<(Seq<char>, Seq<char>)>>,
    client: Seq<(Seq<char>, Option<Seq<char>>)>,
) -> Seq<(Seq<char>, Seq<char>)> {
    let requested = match json {
        Some(ps) => accepted_headers(ps),
        None => Seq::empty(),
    };
    inserted_all(
        inserted_all(Seq::empty(), requested),
        accepted_headers(client_values(passed_header_names(), client)),
    )
}

/// Calls `serde_json::from_str` for a `BTreeMap<String, String>` and lists
/// its entries, mapping a parse error to `None`.
/// Claimed: the result is the named outcome for `text`.
#[verifier::external_body]
fn parse_header_json(text: &str) -> (res: Option<Vec<(String, String)>>)
    ensures
        match res {
            Some(v) => json_string_pairs(text@) == Some(pair_texts(v@)),
            None => json_string_pairs(text@) is None,
        },
{
    match serde_json::from_str::<BTreeMap<String, String>>(text) {
        Ok(m) => Some(m.into_iter().collect()),
        Err(_) => None,
    }
}

/// Calls `reqwest::header::HeaderName::from_bytes` (the `http` crate's) on
/// the bytes of `name` and reports whether it succeeds.
/// Claimed, from the crate's source (`parse_hdr` and its `HEADER_CHARS`
/// table, with `MAX_HEADER_NAME_LEN` of 65535): it succeeds exactly on 1 to
/// 65535 bytes that are all token characters.
#[verifier::external_body]
fn header_name_accepted(name: &str) -> (res: bool)
    ensures
        res == is_header_name(encode_utf8(name@)),
{
    reqwest::header::HeaderName::from_bytes(name.as_bytes()).is_ok()
}

/// Calls `reqwest::header::HeaderValue::from_str` (the `http` crate's) and
/// reports whether it succeeds.
/// Claimed, from the crate's source (its `is_valid`): it succeeds exactly
/// when every byte of `value` is a tab or at least 32 and not 127.
#[verifier::external_body]
fn header_value_accepted(value: &str) -> (res: bool)
    ensures
        res == is_header_value(encode_utf8(value@)),
{
    reqwest::header::HeaderValue::from_str(value).is_ok()
}

/// The pairs that make headers, in order.
fn accepted_pairs(ps: &Vec<(String, String)>) -> (res: Vec<(String, String)>)
    ensures
        pair_texts(res@) == accepted_headers(pair_texts(ps@)),
{
    let ghost pv = pair_texts(ps@);
    let mut res: Vec<(String, String)> = Vec::new();
    let mut i: usize = 0;
    while i < ps.len()
        invariant
            i <= ps@.len(),
            pv == pair_texts(ps@),
            pair_texts(res@) == accepted_headers(pv.take(i as int)),
        decreases ps@.len() - i,
    {
        let ghost before = pair_texts(res@);
        assert(pv.take(i + 1).drop_last() =~= pv.take(i as int));
        assert(pv.take(i + 1).last() == pv[i as int]);
        if header_name_accepted(ps[i].0.as_str()) && header_value_accepted(ps[i].1.as_str()) {
            res.push((ps[i].0.clone(), ps[i].1.clone()));
            assert(pair_texts(res@) =~= before.push(pv[i as int]));
        }
        i = i + 1;
    }
    assert(pv.take(ps@.len() as int) =~= pv);
    res
}

/// The first header of the client named `name`: its text value, or `None`
/// when that value is not text; `None` when there is no such header.
fn find_client_header(client: &Vec<(String, Option<String>)>, name: &str) -> (res: Option<
    Option<String>,
>)
    ensures
        match res {
            Some(v) => client_header(client_texts(client@), name@) == Some(opt_string(v)),
            None => client_header(client_texts(client@), name@) is None,
        },
{
    let ghost cv = client_texts(client@);
    let mut i: usize = 0;
    assert(cv.skip(0) =~= cv);
    while i < client.len()
        invariant
            i <= client@.len(),
            cv == client_texts(client@),
            client_header(cv, name@) == client_header(cv.skip(i as int), name@),
        decreases client@.len() - i,
    {
        assert(cv.skip(i as int)[0] == cv[i as int]);
        assert(cv.skip(i as int).drop_first() =~= cv.skip(i + 1));
        if crate::headers::names_match(client[i].0.as_str(), name) {
            let v = match &client[i].1 {
                Some(t) => Some(t.clone()),
                None => None,
            };
            return Some(v);
        }
        i = i + 1;
    }
    None
}

/// Whether the client's request is a range request.
pub fn range_request(client: &Vec<(String, Option<String>)>) -> (res: bool)
    ensures
        res == is_range_request(client_texts(client@)),
{
    find_client_header(client, "range").is_some() || find_client_header(client, "if-range").is_some()
}

/// The headers sent upstream, given the parsed `headers` parameter (`None`
/// when it is absent or not an object of strings) and the client's headers.
pub fn request_headers_from(
    json: Option<Vec<(String, String)>>,
    client: &Vec<(String, Option<String>)>,
) -> (res: Vec<(String, String)>)
    ensures
        pair_texts(res@) == upstream_header_list(
            match json {
                Some(v) => Some(pair_texts(v@)),
                None => None,
            },
            client_texts(client@),
        ),
{
    let ghost cv = client_texts(client@);
    let mut headers: Vec<(String, String)> = Vec::new();
    assert(pair_texts(headers@) =~= Seq::empty());
    match &json {
        Some(ps) => {
            let ok = accepted_pairs(ps);
            crate::headers::insert_headers(&mut headers, &ok);
        },
        None => {},
    }
    let ghost base = pair_texts(headers@);
    let mut passed: Vec<(String, String)> = Vec::new();
    let names = ["range", "if-range", "if-none-match", "if-modified-since"];
    proof {
        reveal_strlit("range");
        reveal_strlit("if-range");
        reveal_strlit("if-none-match");
        reveal_strlit("if-modified-since");
    }
    let ghost nv = passed_header_names();
    assert(nv.take(0) =~= Seq::empty());
    let mut k: usize = 0;
    while k < 4
        invariant
            k <= 4,
            names@.len() == 4,
            nv == passed_header_names(),
            forall|j: int| 0 <= j < 4 ==> (#[trigger] names@[j])@ == nv[j],
            cv == client_texts(client@),
            pair_texts(passed@) == client_values(nv.take(k as int), cv),
        decreases 4 - k,
    {
        let ghost before = pair_texts(passed@);
        assert(nv.take(k + 1).drop_last() =~= nv.take(k as int));
        assert(nv.take(k + 1).last() == nv[k as int]);
        let name = names[k];
        match find_client_header(client, name) {
            Some(Some(v)) => {
                let ghost text = v@;
                passed.push((name.to_string(), v));
                assert(pair_texts(passed@) =~= before.push((nv[k as int], text)));
            },
            _ => {},
        }
        k = k + 1;
    }
    assert(nv.take(4) =~= nv);
    let ok = accepted_pairs(&passed);
    crate::headers::insert_headers(&mut headers, &ok);
    headers
}

/// The headers sent upstream for a request: its `headers` parameter parsed
/// as a JSON object of strings (ignored when it is not one), then the
/// client's passed headers.
pub fn upstream_headers(headers_json: Option<&str>, client: &Vec<(String, Option<String>)>) -> (res:
    Vec<(String, String)>)
    ensures
        pair_texts(res@) == upstream_header_list(
            match headers_json {
                Some(t) => json_string_pairs(t@),
                None => None,
            },
            client_texts(client@),
        ),
{
    let json = match headers_json {
        Some(t) => parse_header_json(t),
        None => None,
    };
    request_headers_from(json, client)
}

} // verus!
