//! URL parsing and resolution, done by the `url` crate.
//!
//! A parsed URL is held as its serialization, by which the `url` crate itself
//! compares URLs.

use vstd::prelude::*;

verus! {

/// What reading a text as a URL gives.
pub enum UrlParse {
    /// An absolute URL, in its serialized form.
    Absolute(String),
    /// A relative reference: no URL without a base.
    Relative,
    /// No URL and no reference.
    Invalid,
}

/// The mathematical form of [`UrlParse`].
pub enum UrlParseView {
    Absolute(Seq<char>),
    Relative,
    Invalid,
}

impl View for UrlParse {
    type V = UrlParseView;

    open spec fn view(&self) -> UrlParseView {
        match *self {
            UrlParse::Absolute(text) => UrlParseView::Absolute(text@),
            UrlParse::Relative => UrlParseView::Relative,
            UrlParse::Invalid => UrlParseView::Invalid,
        }
    }
}

/// What `url::Url::parse` makes of `input`: the serialization of the URL, that
/// the input is relative and there is no base, or another failure.
pub uninterp spec fn url_parse(input: Seq<char>) -> UrlParseView;

/// What `url::Url::join` makes of `reference` on the URL that `url::Url::parse`
/// reads from `base`: the serialization of the resolved URL, or nothing where
/// either call fails.
pub uninterp spec fn url_join(base: Seq<char>, reference: Seq<char>) -> Option<Seq<char>>;

/// Calls `url::Url::parse`. Trusted: the outcome depends on the input's
/// characters alone. An absolute URL comes back as its serialization; of the
/// errors only `RelativeUrlWithoutBase` is told apart.
#[verifier::external_body]
pub(crate) fn parse_url(input: &str) -> (out: UrlParse)
    ensures
        out@ == url_parse(input@),
{
    match url::Url::parse(input) {
        Ok(parsed) => UrlParse::Absolute(String::from(parsed)),
        Err(url::ParseError::RelativeUrlWithoutBase) => UrlParse::Relative,
        Err(_) => UrlParse::Invalid,
    }
}

/// Calls `url::Url::join` on the URL that `url::Url::parse` reads from `base`.
/// Trusted: the outcome depends on the characters of the two arguments alone,
/// and nothing is joined to a base that `url::Url::parse` does not read as an
/// absolute URL. The resolved URL comes back as its serialization.
#[verifier::external_body]
pub(crate) fn join_url(base: &str, reference: &str) -> (out: Option<String>)
    ensures
        match out {
            Some(text) => url_join(base@, reference@) == Some(text@) && url_parse(base@) is Absolute,
            None => url_join(base@, reference@) is None,
        },
{
    match url::Url::parse(base) {
        Ok(parsed) => parsed.join(reference).ok().map(String::from),
        Err(_) => None,
    }
}

} // verus!
