use scraper::Html;
use scraper::Selector;
use vstd::prelude::*;
use vstd::string::*;

use crate::error::CrawlError;

verus! {

/// The longest page, in characters, that is read for links. A character
/// takes at most four bytes, so a page within this bound stays under a
/// quarter of the parser's limit of `u32::MAX` bytes for one buffer.
pub const MAX_DOCUMENT_CHARS: usize = 0x0fff_ffff;

/// The longest selector, in characters, that is handed to the selector
/// parser, which descends once for each level of nesting in it.
pub const MAX_SELECTOR_CHARS: usize = 256;

/// Whether a page is short enough to be read for links.
pub open spec fn readable(html: Seq<char>) -> bool {
    html.len() <= MAX_DOCUMENT_CHARS
}

/// The view of a list of optional strings.
pub open spec fn optional_texts(items: Seq<Option<String>>) -> Seq<Option<Seq<char>>> {
    items.map_values(
        |item: Option<String>|
            match item {
                Some(text) => Some(text@),
                None => None,
            },
    )
}

/// For the document that `html` parses to and the elements of it that the
/// CSS selector group `selector` matches, in the order in which the parsed
/// tree yields them: what each has as the value of its attribute `attribute`.
/// `None` as a whole where `selector` is no valid selector group.
pub uninterp spec fn selected_attributes(
    html: Seq<char>,
    selector: Seq<char>,
    attribute: Seq<char>,
) -> Option<Seq<Option<Seq<char>>>>;

pub open spec fn attributes_of(r: Option<Vec<Option<String>>>) -> Option<Seq<Option<Seq<char>>>> {
    match r {
        Some(items) => Some(optional_texts(items@)),
        None => None,
    }
}

/// Calls `scraper::Selector::parse` on `selector`, `scraper::Html::parse_document`
/// on `html` and `Html::select` with the parsed selector, and reads
/// `Element::attr` with `attribute` on each element that comes out. Trusted:
/// the outcome is a function of the three strings alone, named
/// `selected_attributes`; nothing more is claimed. The parser panics on a
/// buffer of more than `u32::MAX` bytes, so longer pages are left out; the
/// selector parser recurses on nested selectors, so long ones are left out.
#[verifier::external_body]
pub(crate) fn select_attribute(html: &str, selector: &str, attribute: &str) -> (r: Option<
    Vec<Option<String>>,
>)
    requires
        html@.len() <= MAX_DOCUMENT_CHARS,
        selector@.len() <= MAX_SELECTOR_CHARS,
    ensures
        attributes_of(r) == selected_attributes(html@, selector@, attribute@),
{
    match Selector::parse(selector) {
        Ok(parsed) => Some(
            Html::parse_document(html).select(&parsed).map(
                |element| element.value().attr(attribute).map(|value| value.to_string()),
            ).collect(),
        ),
        Err(_) => None,
    }
}

/// The link targets on the page `html`: the `href` value of each element
/// that the selector `a[href]` matches, in the order in which the parsed
/// page yields them. A selector that cannot be used yields no targets.
pub open spec fn page_hrefs(html: Seq<char>) -> Seq<Option<Seq<char>>> {
    match selected_attributes(html, "a[href]"@, "href"@) {
        Some(targets) => targets,
        None => Seq::empty(),
    }
}

/// Reads the link targets off the page `html`. A page of more than
/// `MAX_DOCUMENT_CHARS` characters is not parsed: it fails with
/// `ParseFailed`.
pub fn anchor_hrefs(html: &str) -> (r: Result<Vec<Option<String>>, CrawlError>)
    ensures
        match r {
            Ok(targets) => readable(html@) && optional_texts(targets@) == page_hrefs(html@),
            Err(e) => !readable(html@) && e == CrawlError::ParseFailed,
        },
{
    if html.unicode_len() > MAX_DOCUMENT_CHARS {
        return Err(CrawlError::ParseFailed);
    }
    proof {
        reveal_strlit("a[href]");
    }
    match select_attribute(html, "a[href]", "href") {
        Some(targets) => Ok(targets),
        None => {
            let none: Vec<Option<String>> = Vec::new();
            assert(optional_texts(none@) =~= Seq::empty());
            Ok(none)
        },
    }
}

} // verus!
