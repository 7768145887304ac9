//! The ways in which a crawl can fail.

use vstd::prelude::*;

verus! {

/// Why a step of the crawl failed.
#[derive(Clone, Copy, Debug, PartialEq, Eq, Structural)]
pub enum CrawlError {
    /// A link could not be read as a URL, or not be resolved against its base.
    UrlError,
    /// A page or the robots file could not be retrieved.
    FetchError,
    /// The seed URL or a document could not be parsed.
    ParseError,
}

impl CrawlError {
    /// A short description for diagnostics.
    pub fn describe(&self) -> (text: &'static str)
        ensures
            text@ == match *self {
                CrawlError::UrlError => "the URL could not be parsed or resolved"@,
                CrawlError::FetchError => "the document could not be retrieved"@,
                CrawlError::ParseError => "the document could not be parsed"@,
            },
    {
        match self {
            CrawlError::UrlError => "the URL could not be parsed or resolved",
            CrawlError::FetchError => "the document could not be retrieved",
            CrawlError::ParseError => "the document could not be parsed",
        }
    }
}

} // verus!
