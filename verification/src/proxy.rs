//! The decisions of the proxy endpoint. The caller does the I/O: it hands
//! over the request's query string and headers, fetches what the plan names,
//! and reports the upstream response back.
use vstd::prelude::*;
use crate::b64::b64_decode;
use crate::crypto::{decodes_to_bytes, decrypt_url, decrypted_url};
use crate::percent::{percent_decode, percent_decoded_text};
use crate::text::{
    opt_string,
    ascii_lower, ascii_lowercase, chars_of, contains, ends_with, find_from, first_match,
    lemma_first_match, matches_at, pair_texts, same_text, skip_whitespace, split_chars, split_on,
    starts_with, string_of, trim_start_by,
};
use crate::urls::{parse_url, url_parse_outcome, ParsedUrl};
use crate::cors::{cors_header_list, cors_header_names, lemma_cors_names, set_cors_headers};
use crate::headers::{
    header_inserted, inserted_all, insert_header, insert_headers, lemma_inserted_new_name,
    lemma_same_name_len, same_name, without_names,
};

verus! {

broadcast use vstd::string::group_string_axioms;

/// A query value decoded as `urlencoding::decode` does, kept as it is when
/// the decoded bytes are not UTF-8.
pub open spec fn decoded_or_raw(v: Seq<char>) -> Seq<char> {
    match percent_decoded_text(v) {
        Some(d) => d,
        None => v,
    }
}

/// One `key=value` piece of a query string: cut at its first `=` (no `=`
/// means an empty value), the value percent-decoded.
pub open spec fn query_pair(seg: Seq<char>) -> (Seq<char>, Seq<char>) {
    match first_match(seg, "="@) {
        Some(e) => (seg.take(e), decoded_or_raw(seg.skip(e + 1))),
        None => (seg, decoded_or_raw(Seq::empty())),
    }
}

/// The pairs of a query string, in order, one per `&`-separated piece.
pub open spec fn query_pairs(query: Seq<char>) -> Seq<(Seq<char>, Seq<char>)> {
    split_on(query, '&').map_values(|seg: Seq<char>| query_pair(seg))
}

/// The value of `key` among `pairs`: the last pair with that key wins, as
/// when the pairs are collected into a map.
pub open spec fn query_lookup(pairs: Seq<(Seq<char>, Seq<char>)>, key: Seq<char>) -> Option<
    Seq<char>,
>
    decreases pairs.len(),
{
    if pairs.len() == 0 {
        None
    } else if pairs.last().0 == key {
        Some(pairs.last().1)
    } else {
        query_lookup(pairs.drop_last(), key)
    }
}

/// Splits a query string into its decoded `(key, value)` pairs.
pub fn parse_query(query: &str) -> (res: Vec<(String, String)>)
    ensures
        pair_texts(res@) == query_pairs(query@),
{
    let segs = split_chars(query, '&');
    let ghost sv = segs@.map_values(|p: Vec<char>| p@);
    let eq = chars_of("=");
    let mut res: Vec<(String, String)> = Vec::new();
    let mut i: usize = 0;
    while i < segs.len()
        invariant
            i <= segs@.len(),
            sv == segs@.map_values(|p: Vec<char>| p@),
            sv == split_on(query@, '&'),
            eq@ == "="@,
            pair_texts(res@) == sv.take(i as int).map_values(|seg: Seq<char>| query_pair(seg)),
        decreases segs@.len() - i,
    {
        let seg = &segs[i];
        let n = seg.len();
        assert(seg@ == sv[i as int]);
        assert(seg@.skip(0) =~= seg@);
        let (key, raw) = match find_from(seg, 0, &eq) {
            Some(e) => {
                proof {
                    reveal_strlit("=");
                    lemma_first_match(seg@, eq@, e as int);
                }
                assert(seg@.subrange(0, e as int) =~= seg@.take(e as int));
                assert(seg@.subrange(e + 1, n as int) =~= seg@.skip(e + 1));
                (string_of(seg, 0, e), string_of(seg, e + 1, n))
            },
            None => {
                assert(seg@.subrange(0, n as int) =~= seg@);
                (string_of(seg, 0, n), String::new())
            },
        };
        let value = match percent_decode(raw.as_str()) {
            Some(d) => d,
            None => raw,
        };
        let ghost before = pair_texts(res@);
        assert((key@, value@) == query_pair(sv[i as int]));
        res.push((key, value));
        assert(pair_texts(res@) =~= before.push(query_pair(sv[i as int])));
        assert(sv.take(i + 1) =~= sv.take(i as int).push(sv[i as int]));
        i = i + 1;
    }
    assert(sv.take(segs@.len() as int) =~= sv);
    res
}

/// The value of `key` in parsed query pairs (the last occurrence).
pub fn query_get(pairs: &Vec<(String, String)>, key: &str) -> (res: Option<String>)
    ensures
        match res {
            Some(v) => query_lookup(pair_texts(pairs@), key@) == Some(v@),
            None => query_lookup(pair_texts(pairs@), key@) is None,
        },
{
    let ghost pv = pair_texts(pairs@);
    let mut i = pairs.len();
    assert(pv.take(i as int) =~= pv);
    while i > 0
        invariant
            i <= pairs@.len(),
            pv == pair_texts(pairs@),
            query_lookup(pv, key@) == query_lookup(pv.take(i as int), key@),
        decreases i,
    {
        assert(pv.take(i as int).drop_last() =~= pv.take(i - 1));
        assert(pv.take(i as int).last() == pv[i - 1]);
        if same_text(pairs[i - 1].0.as_str(), key) {
            return Some(pairs[i - 1].1.clone());
        }
        i = i - 1;
    }
    None
}

/// Why a proxy request is answered without fetching anything.
pub enum Rejection {
    /// 403: CORS is enforced and the request has no allowed origin.
    Forbidden,
    /// 400 with this message.
    BadRequest { message: String },
}

/// What a proxy request asks to fetch.
pub struct Target {
    /// The target URL as requested (the cache key).
    pub url: String,
    /// The target URL parsed, the base for playlist URIs.
    pub parsed: ParsedUrl,
    /// The `origin` parameter, passed on into rewritten links.
    pub origin: Option<String>,
    /// The `headers` parameter: extra request headers as a JSON object.
    pub headers_json: Option<String>,
}

/// The target a request names before it is parsed as a URL: `Err(None)` for
/// 403, `Err(Some(message))` for 400. The `u` parameter (an obfuscated URL)
/// takes precedence over `url` (a plain one).
pub open spec fn requested_target(
    pairs: Seq<(Seq<char>, Seq<char>)>,
    has_origin: bool,
    enable_cors: bool,
    key: Seq<u8>,
) -> Result<Seq<char>, Option<Seq<char>>> {
    if enable_cors && !has_origin {
        Err(None)
    } else {
        match query_lookup(pairs, "u"@) {
            Some(e) => match decrypted_url(e, key) {
                Some(t) => Ok(t),
                None => Err(Some("Invalid encrypted URL"@)),
            },
            None => match query_lookup(pairs, "url"@) {
                Some(t) => Ok(t),
                None => Err(Some("Missing u parameter"@)),
            },
        }
    }
}

/// The outcome of the request validation: the target URL, or the rejection.
pub open spec fn request_outcome(
    pairs: Seq<(Seq<char>, Seq<char>)>,
    has_origin: bool,
    enable_cors: bool,
    key: Seq<u8>,
) -> Result<Seq<char>, Option<Seq<char>>> {
    match requested_target(pairs, has_origin, enable_cors, key) {
        Ok(t) => match url_parse_outcome(t) {
            Ok(_) => Ok(t),
            Err(m) => Err(Some("Invalid URL: "@ + m)),
        },
        Err(e) => Err(e),
    }
}

/// What `plan_request` answers for the given pairs, origin and key: the
/// target with its parsed URL and its `origin` and `headers` parameters, or
/// the rejection that `request_outcome` gives.
pub open spec fn planned_as(
    pairs: Seq<(Seq<char>, Seq<char>)>,
    acao: Option<Seq<char>>,
    enable_cors: bool,
    key: Seq<u8>,
    res: Result<Target, Rejection>,
) -> bool {
    let outcome = request_outcome(pairs, acao is Some, enable_cors, key);
    match res {
        Ok(t) => {
            &&& outcome == Ok::<Seq<char>, Option<Seq<char>>>(t.url@)
            &&& url_parse_outcome(t.url@) == Ok::<Seq<char>, Seq<char>>(t.parsed@)
            &&& opt_string(t.origin) == query_lookup(pairs, "origin"@)
            &&& opt_string(t.headers_json) == query_lookup(pairs, "headers"@)
        },
        Err(Rejection::Forbidden) => outcome == Err::<Seq<char>, Option<Seq<char>>>(None),
        Err(Rejection::BadRequest { message }) => outcome == Err::<Seq<char>, Option<Seq<char>>>(
            Some(message@),
        ),
    }
}

/// The request would make an empty key XOR some bytes: it passes the CORS
/// check and its `u` parameter decodes to a non-empty byte string.
pub open spec fn needs_key(
    pairs: Seq<(Seq<char>, Seq<char>)>,
    acao: Option<Seq<char>>,
    enable_cors: bool,
) -> bool {
    &&& !(enable_cors && acao is None)
    &&& query_lookup(pairs, "u"@) matches Some(e) && decodes_to_bytes(e)
}

/// Validates a proxy request: the CORS origin (`acao`, as `get_valid_origin`
/// chose it), then the target URL.
pub fn plan_request(
    pairs: &Vec<(String, String)>,
    acao: &Option<String>,
    enable_cors: bool,
    key: &[u8],
) -> (res: Result<Target, Rejection>)
    requires
        key@.len() > 0 || !needs_key(pair_texts(pairs@), opt_string(*acao), enable_cors),
    ensures
        planned_as(pair_texts(pairs@), opt_string(*acao), enable_cors, key@, res),
{
    if enable_cors && acao.is_none() {
        return Err(Rejection::Forbidden);
    }
    let url = match query_get(pairs, "u") {
        Some(encrypted) => match decrypt_url(encrypted.as_str(), key) {
            Some(u) => u,
            None => {
                return Err(Rejection::BadRequest { message: "Invalid encrypted URL".to_string() });
            },
        },
        None => match query_get(pairs, "url") {
            Some(u) => u,
            None => {
                return Err(Rejection::BadRequest { message: "Missing u parameter".to_string() });
            },
        },
    };
    let parsed = match parse_url(url.as_str()) {
        Ok(p) => p,
        Err(e) => {
            let mut message = "Invalid URL: ".to_string();
            message.append(e.as_str());
            return Err(Rejection::BadRequest { message });
        },
    };
    let origin = query_get(pairs, "origin");
    let headers_json = query_get(pairs, "headers");
    Ok(Target { url, parsed, origin, headers_json })
}

/// `plan_request` on any input: `None` where the key is empty and the
/// request would need it (the `u` parameter decodes to some bytes), which
/// is where XOR-ing with an empty key cannot be done; otherwise the plan.
pub fn try_plan_request(
    pairs: &Vec<(String, String)>,
    acao: &Option<String>,
    enable_cors: bool,
    key: &[u8],
) -> (res: Option<Result<Target, Rejection>>)
    ensures
        res is None <==> (key@.len() == 0 && needs_key(
            pair_texts(pairs@),
            opt_string(*acao),
            enable_cors,
        )),
        res matches Some(r) ==> planned_as(
            pair_texts(pairs@),
            opt_string(*acao),
            enable_cors,
            key@,
            r,
        ),
{
    if key.len() == 0 && !(enable_cors && acao.is_none()) {
        if let Some(encrypted) = query_get(pairs, "u") {
            if let Some(bytes) = b64_decode(encrypted.as_str()) {
                if bytes.len() > 0 {
                    return None;
                }
            }
        }
    }
    Some(plan_request(pairs, acao, enable_cors, key))
}

/// What to do with an upstream response.
#[derive(PartialEq, Eq, Structural)]
pub enum UpstreamAction {
    /// A playlist: read it whole and rewrite its URIs.
    Rewrite,
    /// A small complete asset: read it whole, cache it, send it.
    Buffer,
    /// Anything else: stream it through.
    Stream,
}

/// The response is a playlist: its content type names an MPEG-URL type, or
/// the target URL ends in `.m3u8` (both compared case-insensitively in ASCII).
pub open spec fn is_playlist_response(content_type: Seq<char>, target: Seq<char>) -> bool {
    let ct = ascii_lower(content_type);
    contains(ct, "mpegurl"@) || contains(ct, "application/vnd.apple.mpegurl"@) || contains(
        ct,
        "application/x-mpegurl"@,
    ) || ends_with(ascii_lower(target), ".m3u8"@)
}

/// The largest asset that is read whole and cached, in bytes.
pub open spec fn max_buffered_len() -> u64 {
    5_000_000
}

/// How an upstream response is handled: playlists are rewritten; a
/// successful response to a non-range request with a known length of at most
/// 5 000 000 bytes is buffered and cached; everything else is streamed.
pub open spec fn upstream_action(
    content_type: Seq<char>,
    target: Seq<char>,
    is_range_request: bool,
    status_ok: bool,
    content_length: Option<u64>,
) -> UpstreamAction {
    if is_playlist_response(content_type, target) {
        UpstreamAction::Rewrite
    } else if !is_range_request && status_ok && (content_length matches Some(len) && len
        <= max_buffered_len()) {
        UpstreamAction::Buffer
    } else {
        UpstreamAction::Stream
    }
}

/// Whether `hay` contains the characters of `pat`.
fn contains_text(hay: &Vec<char>, pat: &str) -> (res: bool)
    ensures
        res == contains(hay@, pat@),
{
    let p = chars_of(pat);
    let found = find_from(hay, 0, &p);
    assert(hay@.skip(0) =~= hay@);
    proof {
        if contains(hay@, p@) {
            let k = choose|k: int| crate::text::occurs_at(hay@, p@, k);
            lemma_first_match(hay@, p@, k);
        }
        if found is Some {
            lemma_first_match(hay@, p@, 0);
        }
    }
    found.is_some()
}

/// Every response whose content type, lower-cased, mentions `mpegurl`, or
/// whose target URL, lower-cased, ends in `.m3u8`, is rewritten as a
/// playlist, whatever its status, length and the request's range; every
/// other response is rewritten only if it is a playlist by those rules, and
/// buffered only when it answers a non-range request successfully with a
/// known length of at most 5 000 000 bytes.
pub proof fn lemma_playlists_are_rewritten(
    content_type: Seq<char>,
    target: Seq<char>,
    is_range_request: bool,
    status_ok: bool,
    content_length: Option<u64>,
)
    ensures
        contains(ascii_lower(content_type), "mpegurl"@) ==> upstream_action(
            content_type,
            target,
            is_range_request,
            status_ok,
            content_length,
        ) == UpstreamAction::Rewrite,
        ends_with(ascii_lower(target), ".m3u8"@) ==> upstream_action(
            content_type,
            target,
            is_range_request,
            status_ok,
            content_length,
        ) == UpstreamAction::Rewrite,
        !contains(ascii_lower(content_type), "mpegurl"@) && !ends_with(ascii_lower(target), ".m3u8"@)
            ==> upstream_action(content_type, target, is_range_request, status_ok, content_length)
            == if !is_range_request && status_ok && (content_length matches Some(n) && n
            <= 5_000_000) {
            UpstreamAction::Buffer
        } else {
            UpstreamAction::Stream
        },
{
    let ct = ascii_lower(content_type);
    reveal_strlit("mpegurl");
    reveal_strlit("application/vnd.apple.mpegurl");
    reveal_strlit("application/x-mpegurl");
    assert("application/vnd.apple.mpegurl"@.subrange(22, 29) =~= "mpegurl"@);
    assert("application/x-mpegurl"@.subrange(14, 21) =~= "mpegurl"@);
    lemma_contains_inner(ct, "application/vnd.apple.mpegurl"@, "mpegurl"@, 22);
    lemma_contains_inner(ct, "application/x-mpegurl"@, "mpegurl"@, 14);
}

/// Text that contains a pattern contains every piece of that pattern.
proof fn lemma_contains_inner(s: Seq<char>, long: Seq<char>, short: Seq<char>, off: int)
    requires
        0 <= off,
        off + short.len() <= long.len(),
        long.subrange(off, off + short.len()) == short,
    ensures
        contains(s, long) ==> contains(s, short),
{
    if contains(s, long) {
        let i = choose|i: int| crate::text::occurs_at(s, long, i);
        assert(s.subrange(i + off, i + off + short.len()) =~= long.subrange(off, off + short.len()));
        assert(crate::text::occurs_at(s, short, i + off));
    }
}

/// Decides how to handle the upstream response to a request for `target`.
pub fn plan_upstream(
    content_type: &str,
    target: &str,
    is_range_request: bool,
    status_ok: bool,
    content_length: Option<u64>,
) -> (res: UpstreamAction)
    ensures
        res == upstream_action(
            content_type@,
            target@,
            is_range_request,
            status_ok,
            content_length,
        ),
        contains(ascii_lower(content_type@), "mpegurl"@) ==> res == UpstreamAction::Rewrite,
        ends_with(ascii_lower(target@), ".m3u8"@) ==> res == UpstreamAction::Rewrite,
{
    proof {
        lemma_playlists_are_rewritten(content_type@, target@, is_range_request, status_ok, content_length);
    }
    let ct = ascii_lowercase(content_type);
    let ct_is_playlist = contains_text(&ct, "mpegurl") || contains_text(
        &ct,
        "application/vnd.apple.mpegurl",
    ) || contains_text(&ct, "application/x-mpegurl");
    let t = ascii_lowercase(target);
    let suffix = chars_of(".m3u8");
    let url_is_playlist = t.len() >= suffix.len() && matches_at(&t, t.len() - suffix.len(), &suffix);
    if ct_is_playlist || url_is_playlist {
        return UpstreamAction::Rewrite;
    }
    if !is_range_request && status_ok {
        if let Some(len) = content_length {
            if len <= 5_000_000 {
                return UpstreamAction::Buffer;
            }
        }
    }
    UpstreamAction::Stream
}

/// The upstream response headers passed on to the client (lower-case names).
pub open spec fn forwarded_header_names() -> Seq<Seq<char>> {
    seq![
        "content-type"@,
        "content-length"@,
        "content-range"@,
        "accept-ranges"@,
        "cache-control"@,
        "expires"@,
        "last-modified"@,
        "etag"@,
        "content-encoding"@,
        "vary"@,
    ]
}

/// The headers among `headers` that are passed on, names lower-cased, in
/// order.
pub open spec fn forwarded(headers: Seq<(Seq<char>, Seq<char>)>) -> Seq<(Seq<char>, Seq<char>)>
    decreases headers.len(),
{
    if headers.len() == 0 {
        Seq::empty()
    } else {
        let (name, value) = headers.last();
        let lower = ascii_lower(name);
        if forwarded_header_names().contains(lower) {
            forwarded(headers.drop_last()).push((lower, value))
        } else {
            forwarded(headers.drop_last())
        }
    }
}

/// Whether a lower-cased header name is passed on.
fn is_forwarded_name(name: &Vec<char>) -> (res: bool)
    ensures
        res == forwarded_header_names().contains(name@),
{
    let names: [&str; 10] = [
        "content-type",
        "content-length",
        "content-range",
        "accept-ranges",
        "cache-control",
        "expires",
        "last-modified",
        "etag",
        "content-encoding",
        "vary",
    ];
    let ghost list = forwarded_header_names();
    assert(forall|k: int| 0 <= k < 10 ==> #[trigger] names@[k]@ == list[k]);
    let mut k: usize = 0;
    while k < 10
        invariant
            k <= 10,
            list == forwarded_header_names(),
            forall|m: int| 0 <= m < 10 ==> #[trigger] names@[m]@ == list[m],
            forall|m: int| 0 <= m < k ==> list[m] != name@,
        decreases 10 - k,
    {
        let w = chars_of(names[k]);
        if w.len() == name.len() && matches_at(name, 0, &w) {
            assert(name@.subrange(0, w@.len() as int) =~= name@);
            assert(list[k as int] == name@);
            return true;
        }
        proof {
            if list[k as int] == name@ {
                assert(name@.subrange(0, w@.len() as int) =~= name@);
            }
        }
        k = k + 1;
    }
    assert(list.len() == 10);
    false
}

/// The upstream headers to pass on to the client, names lower-cased.
pub fn forward_headers(headers: &Vec<(String, String)>) -> (res: Vec<(String, String)>)
    ensures
        pair_texts(res@) == forwarded(pair_texts(headers@)),
        forall|i: int|
            0 <= i < headers@.len() && passed_on(ascii_lower(#[trigger] headers@[i].0@))
                ==> pair_texts(res@).contains((ascii_lower(headers@[i].0@), headers@[i].1@)),
{
    proof {
        lemma_forwarded_headers(pair_texts(headers@));
        assert forall|i: int|
            0 <= i < headers@.len() && passed_on(ascii_lower(#[trigger] headers@[i].0@))
                implies forwarded(pair_texts(headers@)).contains((ascii_lower(headers@[i].0@), headers@[i].1@)) by {
            assert(pair_texts(headers@)[i] == (headers@[i].0@, headers@[i].1@));
            assert(passed_on(ascii_lower(pair_texts(headers@)[i].0)));
        }
    }
    let ghost hv = pair_texts(headers@);
    let mut res: Vec<(String, String)> = Vec::new();
    let mut i: usize = 0;
    while i < headers.len()
        invariant
            i <= headers@.len(),
            hv == pair_texts(headers@),
            pair_texts(res@) == forwarded(hv.take(i as int)),
        decreases headers@.len() - i,
    {
        assert(hv.take(i + 1).drop_last() =~= hv.take(i as int));
        assert(hv.take(i + 1).last() == hv[i as int]);
        let lower = ascii_lowercase(headers[i].0.as_str());
        if is_forwarded_name(&lower) {
            let ghost before = pair_texts(res@);
            let name = string_of(&lower, 0, lower.len());
            assert(lower@.subrange(0, lower@.len() as int) =~= lower@);
            res.push((name, headers[i].1.clone()));
            assert(pair_texts(res@) =~= before.push((lower@, hv[i as int].1)));
        }
        i = i + 1;
    }
    assert(hv.take(headers@.len() as int) =~= hv);
    res
}

/// A header name, lower-cased, that is passed on to the client.
pub open spec fn passed_on(lower: Seq<char>) -> bool {
    ||| lower == "content-type"@
    ||| lower == "content-length"@
    ||| lower == "content-range"@
    ||| lower == "accept-ranges"@
    ||| lower == "cache-control"@
    ||| lower == "expires"@
    ||| lower == "last-modified"@
    ||| lower == "etag"@
    ||| lower == "content-encoding"@
    ||| lower == "vary"@
}

/// `p` is the lower-cased name and the value of a header of `headers` that
/// is passed on.
pub open spec fn comes_from_passed(headers: Seq<(Seq<char>, Seq<char>)>, p: (Seq<char>, Seq<char>)) -> bool {
    exists|i: int|
        0 <= i < headers.len() && passed_on(ascii_lower(headers[i].0)) && p == (
            ascii_lower(headers[i].0),
            headers[i].1,
        )
}

/// Every upstream header named (in any case) `content-type`,
/// `content-length`, `content-range`, `accept-ranges`, `cache-control`,
/// `expires`, `last-modified`, `etag`, `content-encoding` or `vary` is passed
/// on with its value, under its lower-cased name; nothing else is passed on,
/// and nothing is made up.
pub proof fn lemma_forwarded_headers(headers: Seq<(Seq<char>, Seq<char>)>)
    ensures
        forall|i: int|
            0 <= i < headers.len() && passed_on(ascii_lower(#[trigger] headers[i].0)) ==> forwarded(
                headers,
            ).contains((ascii_lower(headers[i].0), headers[i].1)),
        forall|j: int|
            0 <= j < forwarded(headers).len() ==> comes_from_passed(headers, #[trigger] forwarded(headers)[j]),
    decreases headers.len(),
{
    let names = forwarded_header_names();
    assert forall|n: Seq<char>| passed_on(n) <==> names.contains(n) by {
        if passed_on(n) {
            if n == "content-type"@ { assert(names[0] == n); }
            if n == "content-length"@ { assert(names[1] == n); }
            if n == "content-range"@ { assert(names[2] == n); }
            if n == "accept-ranges"@ { assert(names[3] == n); }
            if n == "cache-control"@ { assert(names[4] == n); }
            if n == "expires"@ { assert(names[5] == n); }
            if n == "last-modified"@ { assert(names[6] == n); }
            if n == "etag"@ { assert(names[7] == n); }
            if n == "content-encoding"@ { assert(names[8] == n); }
            if n == "vary"@ { assert(names[9] == n); }
        }
        if names.contains(n) {
            let k = choose|k: int| 0 <= k < names.len() && names[k] == n;
            assert(0 <= k < 10);
        }
    }
    if headers.len() > 0 {
        let front = headers.drop_last();
        lemma_forwarded_headers(front);
        let (name, value) = headers.last();
        let lower = ascii_lower(name);
        let ff = forwarded(front);
        let res = forwarded(headers);
        assert forall|i: int|
            0 <= i < headers.len() && passed_on(ascii_lower(#[trigger] headers[i].0)) implies res.contains(
            (ascii_lower(headers[i].0), headers[i].1),
        ) by {
            if i < front.len() {
                assert(front[i] == headers[i]);
                let w = choose|w: int| 0 <= w < ff.len() && ff[w] == (ascii_lower(front[i].0), front[i].1);
                if passed_on(lower) {
                    assert(res[w] == ff[w]);
                } else {
                    assert(res[w] == ff[w]);
                }
            } else {
                assert(res[res.len() - 1] == (lower, value));
            }
        }
        assert forall|j: int| 0 <= j < res.len() implies comes_from_passed(headers, #[trigger] res[j]) by {
            if j < ff.len() {
                assert(res[j] == ff[j]);
                assert(comes_from_passed(front, ff[j]));
                let i = choose|i: int|
                    0 <= i < front.len() && passed_on(ascii_lower(front[i].0))
                        && ff[j] == (ascii_lower(front[i].0), front[i].1);
                assert(front[i] == headers[i]);
                assert(0 <= i < headers.len() && passed_on(ascii_lower(headers[i].0)) && res[j] == (
                ascii_lower(headers[i].0), headers[i].1));
            } else {
                let i = headers.len() - 1;
                assert(headers[i] == (name, value));
                assert(names.contains(lower));
                assert(passed_on(lower));
                assert(res[j] == (lower, value));
                assert(0 <= i < headers.len() && passed_on(ascii_lower(headers[i].0)) && res[j] == (
                ascii_lower(headers[i].0), headers[i].1));
            }
        }
    }
}

/// A fetched playlist is rewritten only when it really is one: after any
/// leading whitespace it starts with `#EXTM3U`.
pub open spec fn is_playlist_text(text: Seq<char>) -> bool {
    starts_with(trim_start_by(text, false), "#EXTM3U"@)
}

/// Whether a fetched body is a playlist to rewrite.
pub fn looks_like_playlist(text: &str) -> (res: bool)
    ensures
        res == is_playlist_text(text@),
{
    let v = chars_of(text);
    let a = skip_whitespace(&v);
    let tag = chars_of("#EXTM3U");
    let r = matches_at(&v, a, &tag);
    proof {
        let rest = v@.skip(a as int);
        if a + tag@.len() <= v@.len() {
            assert(rest.subrange(0, tag@.len() as int) =~= v@.subrange(a as int, a + tag@.len()));
        }
    }
    r
}

/// Whether a response was served from the cache.
pub enum CacheState {
    Hit,
    Miss,
}

/// The `X-Cache` header for a cache state.
pub open spec fn cache_header(cache: CacheState) -> (Seq<char>, Seq<char>) {
    ("X-Cache"@, match cache {
        CacheState::Hit => "HIT"@,
        CacheState::Miss => "MISS"@,
    })
}

fn insert_cache_header(headers: &mut Vec<(String, String)>, cache: CacheState)
    ensures
        pair_texts(final(headers)@) == header_inserted(pair_texts(old(headers)@), cache_header(cache)),
{
    match cache {
        CacheState::Hit => insert_header(headers, "X-Cache", "HIT"),
        CacheState::Miss => insert_header(headers, "X-Cache", "MISS"),
    }
}

/// A name of a different length from every name in `h` is new to `h`.
proof fn lemma_new_by_len(h: Seq<(Seq<char>, Seq<char>)>, p: (Seq<char>, Seq<char>))
    requires
        forall|i: int| 0 <= i < h.len() ==> (#[trigger] h[i].0).len() != p.0.len(),
    ensures
        header_inserted(h, p) == h.push(p),
{
    assert forall|i: int| 0 <= i < h.len() implies !same_name(p.0, #[trigger] h[i].0) by {
        lemma_same_name_len(p.0, h[i].0);
    }
    lemma_inserted_new_name(h, p);
}

/// The CORS headers set on an empty header list are just the CORS list.
proof fn lemma_cors_on_empty(origin: Option<Seq<char>>)
    ensures
        without_names(Seq::empty(), cors_header_names()) + cors_header_list(origin)
            == cors_header_list(origin),
{
    assert(without_names(Seq::empty(), cors_header_names()) =~= Seq::empty());
    assert(Seq::<(Seq<char>, Seq<char>)>::empty() + cors_header_list(origin) =~= cors_header_list(
        origin,
    ));
}

/// Headers of a rewritten playlist: CORS, the HLS content type, no caching
/// downstream, and whether it came from the playlist cache.
#[verifier::spinoff_prover]
#[verifier::rlimit(80)]
pub fn playlist_response_headers(origin: &Option<String>, cache: CacheState) -> (res: Vec<
    (String, String),
>)
    ensures
        pair_texts(res@) == cors_header_list(opt_string(*origin)) + seq![
            ("Content-Type"@, "application/vnd.apple.mpegurl"@),
            ("Cache-Control"@, "no-cache, no-store, must-revalidate"@),
            cache_header(cache),
        ],
{
    let ghost o = opt_string(*origin);
    let mut headers: Vec<(String, String)> = Vec::new();
    assert(pair_texts(headers@) =~= Seq::empty());
    set_cors_headers(&mut headers, origin);
    proof {
        lemma_cors_on_empty(o);
        lemma_cors_names(o);
        reveal_strlit("Content-Type");
        reveal_strlit("Cache-Control");
        reveal_strlit("X-Cache");
    }
    let ghost l0 = pair_texts(headers@);
    assert(forall|i: int| 0 <= i < l0.len() ==> #[trigger] l0[i].0 == cors_header_names()[i]);
    proof {
        lemma_new_by_len(l0, ("Content-Type"@, "application/vnd.apple.mpegurl"@));
    }
    insert_header(&mut headers, "Content-Type", "application/vnd.apple.mpegurl");
    let ghost l1 = pair_texts(headers@);
    assert(forall|i: int| 0 <= i < l0.len() ==> #[trigger] l1[i] == l0[i]);
    proof {
        lemma_new_by_len(l1, ("Cache-Control"@, "no-cache, no-store, must-revalidate"@));
    }
    insert_header(&mut headers, "Cache-Control", "no-cache, no-store, must-revalidate");
    let ghost l2 = pair_texts(headers@);
    assert(forall|i: int| 0 <= i < l1.len() ==> #[trigger] l2[i] == l1[i]);
    proof {
        lemma_new_by_len(l2, cache_header(cache));
    }
    insert_cache_header(&mut headers, cache);
    assert(pair_texts(headers@) =~= cors_header_list(o) + seq![
        ("Content-Type"@, "application/vnd.apple.mpegurl"@),
        ("Cache-Control"@, "no-cache, no-store, must-revalidate"@),
        cache_header(cache),
    ]);
    headers
}

/// Headers of a buffered asset: CORS, whether it came from the asset cache,
/// then the upstream headers passed on, each set in turn (an upstream header
/// replaces one of the same name set before it).
#[verifier::spinoff_prover]
#[verifier::rlimit(80)]
pub fn asset_response_headers(
    origin: &Option<String>,
    cache: CacheState,
    forwarded: &Vec<(String, String)>,
) -> (res: Vec<(String, String)>)
    ensures
        pair_texts(res@) == inserted_all(
            cors_header_list(opt_string(*origin)).push(cache_header(cache)),
            pair_texts(forwarded@),
        ),
{
    let ghost o = opt_string(*origin);
    let mut headers: Vec<(String, String)> = Vec::new();
    assert(pair_texts(headers@) =~= Seq::empty());
    set_cors_headers(&mut headers, origin);
    proof {
        lemma_cors_on_empty(o);
        lemma_cors_names(o);
        reveal_strlit("X-Cache");
        let l0 = pair_texts(headers@);
        assert(forall|i: int| 0 <= i < l0.len() ==> #[trigger] l0[i].0 == cors_header_names()[i]);
        lemma_new_by_len(l0, cache_header(cache));
    }
    insert_cache_header(&mut headers, cache);
    insert_headers(&mut headers, forwarded);
    headers
}

/// Headers of a streamed response: CORS, then the upstream headers passed
/// on, each set in turn.
#[verifier::spinoff_prover]
#[verifier::rlimit(80)]
pub fn stream_response_headers(origin: &Option<String>, forwarded: &Vec<(String, String)>) -> (res:
    Vec<(String, String)>)
    ensures
        pair_texts(res@) == inserted_all(cors_header_list(opt_string(*origin)), pair_texts(forwarded@)),
{
    let mut headers: Vec<(String, String)> = Vec::new();
    assert(pair_texts(headers@) =~= Seq::empty());
    set_cors_headers(&mut headers, origin);
    proof {
        lemma_cors_on_empty(opt_string(*origin));
    }
    insert_headers(&mut headers, forwarded);
    headers
}

} // verus!
