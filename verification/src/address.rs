use url::Url;
use vstd::prelude::*;
use vstd::string::*;

use crate::error::CrawlError;

verus! {

#[verifier::external_type_specification]
#[verifier::external_body]
pub struct ExParseError(url::ParseError);

/// The components of an absolute URL that the crawl policy reads.
#[derive(Clone, Debug, PartialEq, Eq)]
pub struct UrlParts {
    /// The scheme, without the `:` delimiter.
    pub scheme: String,
    /// The host as written in the serialized URL, where the URL has one.
    pub host: Option<String>,
}

/// Scheme and host as mathematical strings.
pub type PartsView = (Seq<char>, Option<Seq<char>>);

impl View for UrlParts {
    type V = PartsView;

    open spec fn view(&self) -> PartsView {
        (
            self.scheme@,
            match self.host {
                Some(h) => Some(h@),
                None => None,
            },
        )
    }
}

/// Scheme and host of the absolute URL that `text` parses to, `None` where
/// `text` is not an absolute URL.
pub uninterp spec fn parsed_url(text: Seq<char>) -> Option<PartsView>;

/// The serialization of the URL that `href` resolves to against the absolute
/// URL `base`, `None` where `base` is no absolute URL or `href` does not
/// resolve against it.
pub uninterp spec fn joined_url(base: Seq<char>, href: Seq<char>) -> Option<Seq<char>>;

pub open spec fn parts_of(r: Result<UrlParts, url::ParseError>) -> Option<PartsView> {
    match r {
        Ok(parts) => Some(parts@),
        Err(_) => None,
    }
}

pub open spec fn text_of(r: Result<String, url::ParseError>) -> Option<Seq<char>> {
    match r {
        Ok(text) => Some(text@),
        Err(_) => None,
    }
}

/// Calls `url::Url::parse` on `text` and copies the scheme (`Url::scheme`)
/// and the host (`Url::host_str`) out of the parsed URL. Trusted: the outcome
/// is a function of `text` alone, named `parsed_url`; nothing more is claimed.
#[verifier::external_body]
pub(crate) fn parse_parts(text: &str) -> (r: Result<UrlParts, url::ParseError>)
    ensures
        parts_of(r) == parsed_url(text@),
{
    match Url::parse(text) {
        Ok(url) => Ok(
            UrlParts { scheme: url.scheme().to_string(), host: url.host_str().map(|h| h.to_string()) },
        ),
        Err(e) => Err(e),
    }
}

/// Calls `url::Url::parse` on `base` and `url::Url::join` with `href` on the
/// result, and serializes the joined URL. Trusted: the outcome is a function
/// of the two strings alone, named `joined_url`; nothing more is claimed.
#[verifier::external_body]
pub(crate) fn join_href(base: &str, href: &str) -> (r: Result<String, url::ParseError>)
    ensures
        text_of(r) == joined_url(base@, href@),
{
    match Url::parse(base) {
        Ok(url) => match url.join(href) {
            Ok(joined) => Ok(joined.to_string()),
            Err(e) => Err(e),
        },
        Err(e) => Err(e),
    }
}

/// The classification rule on parsed components: the scheme is exactly
/// `https`, and a host is present and holds a `.`.
pub open spec fn acceptable(parts: PartsView) -> bool {
    &&& parts.0 == "https"@
    &&& parts.1 matches Some(host) && host.contains('.')
}

/// Whether the URL written as `text` is accepted: it parses as an absolute
/// URL whose components are acceptable.
pub open spec fn is_accepted(text: Seq<char>) -> bool {
    match parsed_url(text) {
        Some(parts) => acceptable(parts),
        None => false,
    }
}

/// Two URL strings are in the same domain when both parse and their host
/// components are equal (two absent hosts are equal).
pub open spec fn same_domain(a: Seq<char>, b: Seq<char>) -> bool {
    match (parsed_url(a), parsed_url(b)) {
        (Some(pa), Some(pb)) => pa.1 == pb.1,
        _ => false,
    }
}

/// Whether `host` holds a `.`.
pub fn has_dot(host: &str) -> (r: bool)
    ensures
        r == host@.contains('.'),
{
    let n: usize = host.unicode_len();
    let mut i: usize = 0;
    while i < n
        invariant
            n == host@.len(),
            i <= n,
            forall|j: int| 0 <= j < i ==> host@[j] != '.',
        decreases n - i,
    {
        if host.get_char(i) == '.' {
            return true;
        }
        i += 1;
    }
    false
}

/// Applies the classification rule to parsed components.
pub fn classify(parts: &UrlParts) -> (r: bool)
    ensures
        r == acceptable(parts@),
{
    let https: String = "https".to_owned();
    if parts.scheme != https {
        return false;
    }
    match &parts.host {
        Some(host) => has_dot(host.as_str()),
        None => false,
    }
}

/// Whether two parsed URLs have equal host components.
pub fn same_host(a: &UrlParts, b: &UrlParts) -> (r: bool)
    ensures
        r == (a@.1 == b@.1),
{
    match &a.host {
        Some(x) => match &b.host {
            Some(y) => *x == *y,
            None => false,
        },
        None => b.host.is_none(),
    }
}

/// Parses `text` as an absolute URL and returns the components the crawl
/// policy reads.
pub fn parse(text: &str) -> (r: Result<UrlParts, CrawlError>)
    ensures
        match parsed_url(text@) {
            Some(parts) => r is Ok && r->Ok_0@ == parts,
            None => r == Err::<UrlParts, CrawlError>(CrawlError::InvalidHref),
        },
{
    match parse_parts(text) {
        Ok(parts) => Ok(parts),
        Err(_) => Err(CrawlError::InvalidHref),
    }
}

/// Resolves `href` against the absolute URL `base` and returns the
/// serialization of the result.
pub fn resolve(base: &str, href: &str) -> (r: Result<String, CrawlError>)
    ensures
        match joined_url(base@, href@) {
            Some(text) => r is Ok && r->Ok_0@ == text,
            None => r == Err::<String, CrawlError>(CrawlError::InvalidHref),
        },
{
    match join_href(base, href) {
        Ok(text) => Ok(text),
        Err(_) => Err(CrawlError::InvalidHref),
    }
}

} // verus!
