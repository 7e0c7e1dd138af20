use vstd::prelude::*;

verus! {

/// Why a page, or one link on it, could not be processed.
#[derive(Clone, Copy, Debug, PartialEq, Eq, Structural)]
pub enum CrawlError {
    /// The page body could not be fetched.
    FetchFailed,
    /// The page could not be read as a source of links: its own address is
    /// not an absolute URL against which links resolve.
    ParseFailed,
    /// A single link target could not be resolved to an absolute URL.
    InvalidHref,
}

impl CrawlError {
    /// A short description of the error for reports.
    pub fn message(&self) -> (text: &'static str)
        ensures
            text@ == match *self {
                CrawlError::FetchFailed => "fetch failed"@,
                CrawlError::ParseFailed => "page could not be parsed"@,
                CrawlError::InvalidHref => "invalid link target"@,
            },
    {
        match self {
            CrawlError::FetchFailed => "fetch failed",
            CrawlError::ParseFailed => "page could not be parsed",
            CrawlError::InvalidHref => "invalid link target",
        }
    }
}

} // verus!
