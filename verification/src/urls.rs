//! URLs as the library holds them: the `url` crate parses and joins, the
//! library keeps the serialization next to the parsed value. Nothing here is
//! proved: each trusted item states what the crate shows of its call.
use vstd::prelude::*;

verus! {

#[verifier::external_type_specification]
#[verifier::external_body]
pub struct ExUrl(url::Url);

/// Outcome of `url::Url::parse` on the given text: the serialization of the
/// parsed URL (`Url::as_str`), or the text of the `ParseError`.
pub uninterp spec fn url_parse_outcome(input: Seq<char>) -> Result<Seq<char>, Seq<char>>;

/// Outcome of `Url::join` on the URL whose serialization is `base`: the
/// serialization of the joined URL, or `None` on a `ParseError`.
pub uninterp spec fn url_joined(base: Seq<char>, input: Seq<char>) -> Option<Seq<char>>;

/// An absolute URL parsed by the `url` crate, together with its
/// serialization. Only `parse_url` builds one, so `text` is always the
/// serialization of `url`.
pub struct ParsedUrl {
    url: url::Url,
    text: String,
}

impl View for ParsedUrl {
    type V = Seq<char>;

    closed spec fn view(&self) -> Seq<char> {
        self.text@
    }
}

impl ParsedUrl {
    /// The serialization of this URL.
    pub fn as_str(&self) -> (res: &str)
        ensures
            res@ == self@,
    {
        self.text.as_str()
    }
}

/// Calls `url::Url::parse`, keeping the serialization of the result and
/// turning a `ParseError` into its display text.
/// Claimed: the outcome is the named outcome of parsing `input`.
#[verifier::external_body]
pub fn parse_url(input: &str) -> (res: Result<ParsedUrl, String>)
    ensures
        match res {
            Ok(u) => url_parse_outcome(input@) == Ok::<Seq<char>, Seq<char>>(u@),
            Err(e) => url_parse_outcome(input@) == Err::<Seq<char>, Seq<char>>(e@),
        },
{
    match url::Url::parse(input) {
        Ok(url) => {
            let text = url.as_str().to_string();
            Ok(ParsedUrl { url, text })
        },
        Err(e) => Err(e.to_string()),
    }
}

/// Calls `url::Url::join` on `base`, returning the serialization of the
/// joined URL, or `None` on a `ParseError`.
/// Claimed: the result is the named outcome for `base`'s serialization and
/// `input`. That `base` is determined by its serialization holds because
/// `parse_url` is the only constructor, and the crate asserts that a URL
/// re-parsed from its serialization is equal to it.
#[verifier::external_body]
pub fn join_url(base: &ParsedUrl, input: &str) -> (res: Option<String>)
    ensures
        match res {
            Some(s) => url_joined(base@, input@) == Some(s@),
            None => url_joined(base@, input@) is None,
        },
{
    match base.url.join(input) {
        Ok(url) => Some(url.as_str().to_string()),
        Err(_) => None,
    }
}

} // verus!
