//! CORS decisions: which origin a request is answered for, and the headers
//! that go with it.
use vstd::prelude::*;
use crate::headers::{
    distinct_names, header_inserted, header_names, inserted_all, insert_header, lemma_inserted_distinct,
    lemma_inserted_new_name, lemma_inserted_twice, lemma_same_name_len, lemma_without_names_excludes,
    names_has, same_name, without_names,
};
use crate::text::{
    ascii_lower, chars_of, matches_at, opt_str, opt_string, pair_texts, same_text, starts_with,
};

verus! {

broadcast use vstd::string::group_string_axioms;

/// The first allowed origin that `referer` starts with.
pub open spec fn first_prefix(allowed: Seq<Seq<char>>, referer: Seq<char>) -> Option<Seq<char>>
    decreases allowed.len(),
{
    if allowed.len() == 0 {
        None
    } else if starts_with(referer, allowed[0]) {
        Some(allowed[0])
    } else {
        first_prefix(allowed.drop_first(), referer)
    }
}

/// The origin a request is answered for. With CORS not enforced, none. Else
/// the `Origin` header when it is an allowed origin, else the first allowed
/// origin that the `Referer` header starts with, else none.
pub open spec fn valid_origin(
    enable_cors: bool,
    allowed: Seq<Seq<char>>,
    origin: Option<Seq<char>>,
    referer: Option<Seq<char>>,
) -> Option<Seq<char>> {
    if !enable_cors {
        None
    } else if origin is Some && allowed.contains(origin->0) {
        origin
    } else if referer is Some && first_prefix(allowed, referer->0) is Some {
        first_prefix(allowed, referer->0)
    } else {
        None
    }
}

/// The first allowed origin is a prefix of the referer, and only allowed
/// origins are ever chosen.
pub proof fn lemma_first_prefix(allowed: Seq<Seq<char>>, referer: Seq<char>)
    ensures
        first_prefix(allowed, referer) matches Some(o) ==> allowed.contains(o) && starts_with(
            referer,
            o,
        ),
    decreases allowed.len(),
{
    if allowed.len() > 0 && !starts_with(referer, allowed[0]) {
        lemma_first_prefix(allowed.drop_first(), referer);
        if first_prefix(allowed, referer) is Some {
            let o = first_prefix(allowed, referer)->0;
            let k = choose|k: int| 0 <= k < allowed.drop_first().len() && allowed.drop_first()[k] == o;
            assert(allowed[k + 1] == o);
        }
    }
    if allowed.len() > 0 && starts_with(referer, allowed[0]) {
        assert(allowed[0] == allowed[0]);
        assert(allowed.contains(allowed[0]));
    }
}

/// Picks the origin a request is answered for from the settings and the
/// request's `Origin` and `Referer` headers (`None` where a header is absent
/// or not visible ASCII). Whatever it returns is one of the allowed origins.
pub fn get_valid_origin(
    enable_cors: bool,
    allowed: &Vec<String>,
    origin: Option<&str>,
    referer: Option<&str>,
) -> (res: Option<String>)
    ensures
        opt_string(res) == valid_origin(
            enable_cors,
            allowed@.map_values(|s: String| s@),
            opt_str(origin),
            opt_str(referer),
        ),
        res matches Some(o) ==> allowed@.map_values(|s: String| s@).contains(o@),
{
    let ghost av = allowed@.map_values(|s: String| s@);
    if !enable_cors {
        return None;
    }
    if let Some(o) = origin {
        let mut i: usize = 0;
        while i < allowed.len()
            invariant
                i <= allowed@.len(),
                av == allowed@.map_values(|s: String| s@),
                enable_cors,
                opt_str(origin) == Some(o@),
                forall|j: int| 0 <= j < i ==> av[j] != o@,
            decreases allowed@.len() - i,
        {
            if same_text(allowed[i].as_str(), o) {
                assert(av[i as int] == o@);
                assert(av.contains(o@));
                let t = o.to_string();
                return Some(t);
            }
            i = i + 1;
        }
        assert(!av.contains(o@));
    }
    if let Some(r) = referer {
        let rv = chars_of(r);
        assert(av.skip(0) =~= av);
        let mut i: usize = 0;
        while i < allowed.len()
            invariant
                i <= allowed@.len(),
                rv@ == r@,
                av == allowed@.map_values(|s: String| s@),
                enable_cors,
                opt_str(referer) == Some(r@),
                !(opt_str(origin) is Some && av.contains(opt_str(origin)->0)),
                first_prefix(av, r@) == first_prefix(av.skip(i as int), r@),
            decreases allowed@.len() - i,
        {
            let cand = chars_of(allowed[i].as_str());
            assert(av.skip(i as int).drop_first() =~= av.skip(i + 1));
            assert(av.skip(i as int)[0] == cand@);
            if matches_at(&rv, 0, &cand) {
                proof {
                    assert(first_prefix(av.skip(i as int), r@) == Some(av[i as int]));
                    lemma_first_prefix(av, r@);
                }
                let chosen = allowed[i].clone();
                assert(chosen@ == av[i as int]);
                return Some(chosen);
            }
            i = i + 1;
        }
        assert(av.skip(allowed@.len() as int).len() == 0);
    }
    None
}

/// The CORS headers of a response answered for `origin` (`*` when none),
/// as lower-case header names and their values.
pub open spec fn cors_header_list(origin: Option<Seq<char>>) -> Seq<(Seq<char>, Seq<char>)> {
    seq![
        ("access-control-allow-origin"@, match origin {
            Some(o) => o,
            None => "*"@,
        }),
        ("access-control-allow-methods"@, "GET, POST, OPTIONS, HEAD"@),
        ("access-control-allow-headers"@, "Content-Type, Authorization, Range, X-Requested-With, Origin, Accept, Accept-Encoding, Accept-Language, Cache-Control, Pragma, Sec-Fetch-Dest, Sec-Fetch-Mode, Sec-Fetch-Site, Sec-Ch-Ua, Sec-Ch-Ua-Mobile, Sec-Ch-Ua-Platform, Connection"@),
        ("access-control-expose-headers"@, "Content-Length, Content-Range, Accept-Ranges, Content-Type, Cache-Control, Expires, Vary, ETag, Last-Modified"@),
        ("cross-origin-resource-policy"@, "cross-origin"@),
        ("Vary"@, "Origin"@),
    ]
}

/// The names of the CORS headers, in the order they are set.
pub open spec fn cors_header_names() -> Seq<Seq<char>> {
    seq![
        "access-control-allow-origin"@,
        "access-control-allow-methods"@,
        "access-control-allow-headers"@,
        "access-control-expose-headers"@,
        "cross-origin-resource-policy"@,
        "Vary"@,
    ]
}

/// The CORS headers have the names of `cors_header_names`, no two the same.
pub proof fn lemma_cors_names(origin: Option<Seq<char>>)
    ensures
        header_names(cors_header_list(origin)) == cors_header_names(),
        distinct_names(cors_header_list(origin)),
        cors_header_names()[0].len() == 27,
        cors_header_names()[1].len() == 28,
        cors_header_names()[2].len() == 28,
        cors_header_names()[3].len() == 29,
        cors_header_names()[4].len() == 28,
        cors_header_names()[5].len() == 4,
{
    reveal_strlit("access-control-allow-origin");
    reveal_strlit("access-control-allow-methods");
    reveal_strlit("access-control-allow-headers");
    reveal_strlit("access-control-expose-headers");
    reveal_strlit("cross-origin-resource-policy");
    reveal_strlit("Vary");
    let l = cors_header_list(origin);
    assert(header_names(l) =~= cors_header_names());
    assert forall|i: int, j: int| 0 <= i < j < l.len() implies !same_name(
        #[trigger] l[i].0,
        #[trigger] l[j].0,
    ) by {
        let a = l[i].0;
        let b = l[j].0;
        lemma_same_name_len(a, b);
        if same_name(a, b) {
            assert(ascii_lower(a)[0] == ascii_lower(b)[0]);
            assert(ascii_lower(a)[21] == ascii_lower(b)[21]);
        }
    }
}

/// Sets the CORS headers for `origin` on a response's headers: each
/// replaces any header of its name already there; other headers stay.
#[verifier::spinoff_prover]
#[verifier::rlimit(80)]
pub fn set_cors_headers(headers: &mut Vec<(String, String)>, origin: &Option<String>)
    ensures
        pair_texts(final(headers)@) == inserted_all(
            pair_texts(old(headers)@),
            cors_header_list(opt_string(*origin)),
        ),
        pair_texts(final(headers)@) == without_names(pair_texts(old(headers)@), cors_header_names())
            + cors_header_list(opt_string(*origin)),
{
    let ghost h0 = pair_texts(headers@);
    let ghost l = cors_header_list(opt_string(*origin));
    let acao: &str = match origin {
        Some(o) => o.as_str(),
        None => "*",
    };
    insert_header(headers, "access-control-allow-origin", acao);
    insert_header(headers, "access-control-allow-methods", "GET, POST, OPTIONS, HEAD");
    insert_header(
        headers,
        "access-control-allow-headers",
        "Content-Type, Authorization, Range, X-Requested-With, Origin, Accept, Accept-Encoding, Accept-Language, Cache-Control, Pragma, Sec-Fetch-Dest, Sec-Fetch-Mode, Sec-Fetch-Site, Sec-Ch-Ua, Sec-Ch-Ua-Mobile, Sec-Ch-Ua-Platform, Connection",
    );
    insert_header(
        headers,
        "access-control-expose-headers",
        "Content-Length, Content-Range, Accept-Ranges, Content-Type, Cache-Control, Expires, Vary, ETag, Last-Modified",
    );
    insert_header(headers, "cross-origin-resource-policy", "cross-origin");
    insert_header(headers, "Vary", "Origin");
    proof {
        assert(l.take(0) =~= Seq::empty());
        assert(inserted_all(h0, l.take(0)) == h0);
        assert(l.take(1).drop_last() =~= l.take(0));
        assert(l.take(2).drop_last() =~= l.take(1));
        assert(l.take(3).drop_last() =~= l.take(2));
        assert(l.take(4).drop_last() =~= l.take(3));
        assert(l.take(5).drop_last() =~= l.take(4));
        assert(l.take(6).drop_last() =~= l.take(5));
        assert(l.take(6) =~= l);
        assert(inserted_all(h0, l.take(1)) == header_inserted(h0, l[0]));
        assert(inserted_all(h0, l.take(2)) == header_inserted(inserted_all(h0, l.take(1)), l[1]));
        assert(inserted_all(h0, l.take(3)) == header_inserted(inserted_all(h0, l.take(2)), l[2]));
        assert(inserted_all(h0, l.take(4)) == header_inserted(inserted_all(h0, l.take(3)), l[3]));
        assert(inserted_all(h0, l.take(5)) == header_inserted(inserted_all(h0, l.take(4)), l[4]));
        assert(inserted_all(h0, l.take(6)) == header_inserted(inserted_all(h0, l.take(5)), l[5]));
        lemma_cors_names(opt_string(*origin));
        lemma_inserted_distinct(h0, l);
    }
}

/// Every header of `headers` named `name` (in any case) is exactly
/// `(name, value)`, and there is one.
pub open spec fn set_to(headers: Seq<(Seq<char>, Seq<char>)>, name: Seq<char>, value: Seq<char>) -> bool {
    &&& headers.contains((name, value))
    &&& forall|i: int|
        0 <= i < headers.len() && same_name(#[trigger] headers[i].0, name) ==> headers[i] == (
            name,
            value,
        )
}

/// After the CORS headers are set for `origin` on any headers, the response
/// allows that origin (`*` without one), the methods GET, POST, OPTIONS and
/// HEAD, the request headers browsers send for media, among them `Range`,
/// exposes the range and caching headers, allows cross-origin embedding and
/// varies on `Origin`; no other value remains under those names.
pub proof fn lemma_cors_header_values(headers: Seq<(Seq<char>, Seq<char>)>, origin: Option<Seq<char>>)
    ensures
        ({
            let r = inserted_all(headers, cors_header_list(origin));
            &&& set_to(
                r,
                "access-control-allow-origin"@,
                match origin {
                    Some(o) => o,
                    None => "*"@,
                },
            )
            &&& set_to(r, "access-control-allow-methods"@, "GET, POST, OPTIONS, HEAD"@)
            &&& set_to(
                r,
                "access-control-allow-headers"@,
                "Content-Type, Authorization, Range, X-Requested-With, Origin, Accept, Accept-Encoding, Accept-Language, Cache-Control, Pragma, Sec-Fetch-Dest, Sec-Fetch-Mode, Sec-Fetch-Site, Sec-Ch-Ua, Sec-Ch-Ua-Mobile, Sec-Ch-Ua-Platform, Connection"@,
            )
            &&& set_to(
                r,
                "access-control-expose-headers"@,
                "Content-Length, Content-Range, Accept-Ranges, Content-Type, Cache-Control, Expires, Vary, ETag, Last-Modified"@,
            )
            &&& set_to(r, "cross-origin-resource-policy"@, "cross-origin"@)
            &&& set_to(r, "Vary"@, "Origin"@)
        }),
{
    let c = cors_header_list(origin);
    let names = cors_header_names();
    lemma_cors_names(origin);
    lemma_inserted_distinct(headers, c);
    let w = without_names(headers, names);
    let r = inserted_all(headers, c);
    assert(r == w + c);
    lemma_without_names_excludes(headers, names);
    assert forall|m: int| 0 <= m < 6 implies set_to(r, #[trigger] c[m].0, c[m].1) by {
        assert(r[w.len() + m] == c[m]);
        assert(r.contains((c[m].0, c[m].1)));
        assert forall|i: int| 0 <= i < r.len() && same_name(#[trigger] r[i].0, c[m].0) implies r[i]
            == (c[m].0, c[m].1) by {
            if i < w.len() {
                assert(r[i] == w[i]);
                assert(names[m] == c[m].0);
                assert(same_name(names[m], w[i].0));
                assert(names_has(names, w[i].0));
            } else {
                let k = i - w.len();
                assert(r[i] == c[k]);
                if k != m {
                    if k < m {
                        assert(!same_name(c[k].0, c[m].0));
                    } else {
                        assert(!same_name(c[m].0, c[k].0));
                    }
                }
            }
        }
    }
    assert(set_to(r, c[0].0, c[0].1));
    assert(set_to(r, c[1].0, c[1].1));
    assert(set_to(r, c[2].0, c[2].1));
    assert(set_to(r, c[3].0, c[3].1));
    assert(set_to(r, c[4].0, c[4].1));
    assert(set_to(r, c[5].0, c[5].1));
}

/// Setting the CORS headers a second time, for any origin, leaves the
/// headers as one setting for that origin would: the last call wins, and a
/// repeated call with the same origin changes nothing.
pub proof fn lemma_cors_last_call_wins(
    headers: Seq<(Seq<char>, Seq<char>)>,
    first: Option<Seq<char>>,
    second: Option<Seq<char>>,
)
    ensures
        inserted_all(inserted_all(headers, cors_header_list(first)), cors_header_list(second))
            == inserted_all(headers, cors_header_list(second)),
        inserted_all(inserted_all(headers, cors_header_list(second)), cors_header_list(second))
            == inserted_all(headers, cors_header_list(second)),
{
    lemma_cors_names(first);
    lemma_cors_names(second);
    lemma_inserted_twice(headers, cors_header_list(first), cors_header_list(second));
    lemma_inserted_twice(headers, cors_header_list(second), cors_header_list(second));
}

/// The answer to a CORS preflight (`OPTIONS`) request.
pub enum Preflight {
    /// 403 Forbidden: CORS is enforced and the request has no allowed origin.
    Forbidden,
    /// 200 OK with these headers.
    Allowed { headers: Vec<(String, String)> },
}

/// Answers a preflight request: with an allowed origin, the CORS headers for
/// it; without one, 403 when CORS is enforced and the headers for `*`
/// otherwise. An allowed answer also says the preflight may be cached for a
/// day.
#[verifier::spinoff_prover]
#[verifier::rlimit(80)]
pub fn handle_options(
    enable_cors: bool,
    allowed: &Vec<String>,
    origin: Option<&str>,
    referer: Option<&str>,
) -> (res: Preflight)
    ensures
        match res {
            Preflight::Forbidden => enable_cors && valid_origin(
                enable_cors,
                allowed@.map_values(|s: String| s@),
                opt_str(origin),
                opt_str(referer),
            ) is None,
            Preflight::Allowed { headers } => {
                let chosen = valid_origin(
                    enable_cors,
                    allowed@.map_values(|s: String| s@),
                    opt_str(origin),
                    opt_str(referer),
                );
                &&& (!enable_cors || chosen is Some)
                &&& pair_texts(headers@) == cors_header_list(
                    match chosen {
                        Some(o) => Some(o),
                        None => Some("*"@),
                    },
                ).push(("access-control-max-age"@, "86400"@))
            },
        },
{
    let chosen = get_valid_origin(enable_cors, allowed, origin, referer);
    let acao = match chosen {
        Some(o) => o,
        None => {
            if enable_cors {
                return Preflight::Forbidden;
            }
            "*".to_string()
        },
    };
    let mut headers: Vec<(String, String)> = Vec::new();
    assert(pair_texts(headers@) =~= Seq::empty());
    let ghost chosen_text = Some(acao@);
    set_cors_headers(&mut headers, &Some(acao));
    proof {
        let l = cors_header_list(chosen_text);
        assert(without_names(Seq::empty(), cors_header_names()) =~= Seq::empty());
        assert(Seq::<(Seq<char>, Seq<char>)>::empty() + l =~= l);
        reveal_strlit("access-control-max-age");
        lemma_cors_names(chosen_text);
        assert forall|i: int| 0 <= i < l.len() implies !same_name(
            "access-control-max-age"@,
            #[trigger] l[i].0,
        ) by {
            assert(l[i].0 == cors_header_names()[i]);
            lemma_same_name_len("access-control-max-age"@, l[i].0);
        }
        lemma_inserted_new_name(l, ("access-control-max-age"@, "86400"@));
    }
    insert_header(&mut headers, "access-control-max-age", "86400");
    Preflight::Allowed { headers }
}

} // verus!
