use vstd::prelude::*;

use crate::address::{
    acceptable, classify, is_accepted, joined_url, parse, parsed_url, resolve, PartsView, UrlParts,
};
use crate::document::{anchor_hrefs, optional_texts, page_hrefs, readable};
use crate::error::CrawlError;

verus! {

/// A link as a mathematical value.
pub struct LinkView {
    pub address: Seq<char>,
    pub visited: bool,
}

/// One URL record: the unit of work and of storage.
#[derive(Clone, Debug, PartialEq)]
pub struct Link {
    /// The absolute URL, compared by exact string equality.
    pub address: String,
    /// False while the link is pending, true once its page has been read.
    pub visited: bool,
}

impl View for Link {
    type V = LinkView;

    open spec fn view(&self) -> LinkView {
        LinkView { address: self.address@, visited: self.visited }
    }
}

/// The addresses of a list of links, in order.
pub open spec fn addresses(links: Seq<Link>) -> Seq<Seq<char>> {
    links.map_values(|link: Link| link.address@)
}

/// The views of a list of strings, in order.
pub open spec fn texts(items: Seq<String>) -> Seq<Seq<char>> {
    items.map_values(|item: String| item@)
}

/// A candidate as a mathematical value: the address, and scheme and host
/// where the address is an absolute URL.
pub type CandidateView = (Seq<char>, Option<PartsView>);

/// A link target resolved to an address, with the components read from the
/// address where it is an absolute URL.
#[derive(Clone, Debug, PartialEq, Eq)]
pub struct Candidate {
    pub address: String,
    pub parts: Option<UrlParts>,
}

impl View for Candidate {
    type V = CandidateView;

    open spec fn view(&self) -> CandidateView {
        (
            self.address@,
            match self.parts {
                Some(parts) => Some(parts@),
                None => None,
            },
        )
    }
}

/// The views of a list of candidates, in order.
pub open spec fn candidate_views(candidates: Seq<Candidate>) -> Seq<CandidateView> {
    candidates.map_values(|c: Candidate| c@)
}

/// The addresses of a list of candidates, in order.
pub open spec fn names_of(candidates: Seq<CandidateView>) -> Seq<Seq<char>> {
    candidates.map_values(|c: CandidateView| c.0)
}

/// Whether a candidate is an absolute URL with acceptable components.
pub open spec fn passes(c: CandidateView) -> bool {
    c.1 matches Some(parts) && acceptable(parts)
}

/// Whether a candidate joins the links chosen so far on a page: its address
/// was not chosen `earlier` on the same page, is not among the `visited`
/// addresses, and is an absolute URL with acceptable components.
pub open spec fn admits(
    earlier: Seq<Seq<char>>,
    visited: Seq<Seq<char>>,
    c: CandidateView,
) -> bool {
    &&& !earlier.contains(c.0)
    &&& !visited.contains(c.0)
    &&& passes(c)
}

/// The addresses chosen from `candidates`, taken in order, when `visited`
/// are the addresses already visited.
pub open spec fn chosen(candidates: Seq<CandidateView>, visited: Seq<Seq<char>>) -> Seq<Seq<char>>
    decreases candidates.len(),
{
    if candidates.len() == 0 {
        Seq::empty()
    } else {
        let earlier = chosen(candidates.drop_last(), visited);
        if admits(earlier, visited, candidates.last()) {
            earlier.push(candidates.last().0)
        } else {
            earlier
        }
    }
}

/// The absolute URL that a link target on the page at `base` stands for,
/// where it has one.
pub open spec fn candidate(base: Seq<char>, target: Option<Seq<char>>) -> Option<Seq<char>> {
    match target {
        Some(href) => joined_url(base, href),
        None => None,
    }
}

/// The candidates that the link `targets` on the page at `base` give: each
/// target that resolves against `base`, in order, with the components that
/// the resolved URL parses to.
pub open spec fn resolved(base: Seq<char>, targets: Seq<Option<Seq<char>>>) -> Seq<CandidateView>
    decreases targets.len(),
{
    if targets.len() == 0 {
        Seq::empty()
    } else {
        let earlier = resolved(base, targets.drop_last());
        match candidate(base, targets.last()) {
            Some(url) => earlier.push((url, parsed_url(url))),
            None => earlier,
        }
    }
}

/// The links that a page at `base` with the given link `targets` yields when
/// `visited` are the addresses already visited.
pub open spec fn admitted(
    base: Seq<char>,
    targets: Seq<Option<Seq<char>>>,
    visited: Seq<Seq<char>>,
) -> Seq<Seq<char>> {
    chosen(resolved(base, targets), visited)
}

/// The link `targets` on the page at `base` that do not resolve against
/// `base`, in order.
pub open spec fn unresolved(base: Seq<char>, targets: Seq<Option<Seq<char>>>) -> Seq<Seq<char>>
    decreases targets.len(),
{
    if targets.len() == 0 {
        Seq::empty()
    } else {
        let earlier = unresolved(base, targets.drop_last());
        match targets.last() {
            Some(href) => if joined_url(base, href) is None {
                earlier.push(href)
            } else {
                earlier
            },
            None => earlier,
        }
    }
}

/// Each address with the components that it parses to.
pub open spec fn parsed_all(urls: Seq<Seq<char>>) -> Seq<CandidateView> {
    urls.map_values(|url: Seq<char>| (url, parsed_url(url)))
}

/// Whether `url` is among `links`, by exact string equality.
pub fn is_listed(links: &Vec<String>, url: &String) -> (r: bool)
    ensures
        r == texts(links@).contains(url@),
{
    let mut i: usize = 0;
    while i < links.len()
        invariant
            i <= links@.len(),
            forall|j: int| 0 <= j < i ==> texts(links@)[j] != url@,
        decreases links@.len() - i,
    {
        if links[i] == *url {
            assert(texts(links@)[i as int] == url@);
            return true;
        }
        i += 1;
    }
    false
}

/// Whether `url` is the address of one of the `visited` links, by exact
/// string equality.
pub fn is_visited(visited: &Vec<Link>, url: &String) -> (r: bool)
    ensures
        r == addresses(visited@).contains(url@),
{
    let mut i: usize = 0;
    while i < visited.len()
        invariant
            i <= visited@.len(),
            forall|j: int| 0 <= j < i ==> addresses(visited@)[j] != url@,
        decreases visited@.len() - i,
    {
        if visited[i].address == *url {
            assert(addresses(visited@)[i as int] == url@);
            return true;
        }
        i += 1;
    }
    false
}

/// Chooses the links of a page from its candidates: in order, each
/// candidate whose address is an absolute URL with scheme `https` and a
/// host that holds a `.`, is not the address of a visited link, and was not
/// chosen earlier.
pub fn select_links(candidates: &Vec<Candidate>, visited_links: &Vec<Link>) -> (r: Vec<String>)
    ensures
        texts(r@) == chosen(candidate_views(candidates@), addresses(visited_links@)),
{
    let mut links: Vec<String> = Vec::new();
    let ghost all = candidate_views(candidates@);
    let ghost seen = addresses(visited_links@);
    assert(texts(links@) =~= chosen(all.take(0), seen));
    let mut i: usize = 0;
    while i < candidates.len()
        invariant
            i <= candidates@.len(),
            all == candidate_views(candidates@),
            seen == addresses(visited_links@),
            texts(links@) == chosen(all.take(i as int), seen),
        decreases candidates@.len() - i,
    {
        let ghost before = texts(links@);
        let c = &candidates[i];
        assert(all.take(i + 1).drop_last() =~= all.take(i as int));
        assert(all.take(i + 1).last() == c@);
        if !is_listed(&links, &c.address) && !is_visited(visited_links, &c.address) {
            let accepted = match &c.parts {
                Some(parts) => classify(parts),
                None => false,
            };
            if accepted {
                links.push(c.address.clone());
                assert(texts(links@) =~= before.push(c.address@));
            }
        }
        i += 1;
    }
    assert(all.take(i as int) =~= all);
    links
}

/// Parses each of `urls` and pairs it with what parsing gave.
pub fn with_parts(urls: &Vec<String>) -> (r: Vec<Candidate>)
    ensures
        candidate_views(r@) == parsed_all(texts(urls@)),
{
    let mut found: Vec<Candidate> = Vec::new();
    let mut i: usize = 0;
    while i < urls.len()
        invariant
            i <= urls@.len(),
            candidate_views(found@) =~= parsed_all(texts(urls@).take(i as int)),
        decreases urls@.len() - i,
    {
        let ghost before = candidate_views(found@);
        let url = urls[i].clone();
        let parts = match parse(url.as_str()) {
            Ok(parts) => Some(parts),
            Err(_) => None,
        };
        found.push(Candidate { address: url, parts });
        assert(candidate_views(found@) =~= before.push((url@, parsed_url(url@))));
        i += 1;
    }
    assert(texts(urls@).take(i as int) =~= texts(urls@));
    found
}

impl Link {
    /// A pending link to `address`.
    pub fn new(address: String) -> (r: Link)
        ensures
            r@ == (LinkView { address: address@, visited: false }),
    {
        Link { address, visited: false }
    }

    /// Whether `url_string` is an accepted URL: it parses, its scheme is
    /// exactly `https`, and its host is present and holds a `.`. The answer
    /// depends on `url_string` alone.
    pub fn valid_https(&self, url_string: &str) -> (r: bool)
        ensures
            r == is_accepted(url_string@),
    {
        match parse(url_string) {
            Ok(parts) => classify(&parts),
            Err(_) => false,
        }
    }

    /// Resolves each of the link `targets` against this link's address and
    /// parses what it resolves to. A target that is absent or does not
    /// resolve gives no candidate.
    pub fn resolve_targets(&self, targets: &Vec<Option<String>>) -> (r: Vec<Candidate>)
        ensures
            candidate_views(r@) == resolved(self.address@, optional_texts(targets@)),
    {
        let mut found: Vec<Candidate> = Vec::new();
        let ghost base = self.address@;
        let ghost all = optional_texts(targets@);
        assert(candidate_views(found@) =~= resolved(base, all.take(0)));
        let mut i: usize = 0;
        while i < targets.len()
            invariant
                i <= targets@.len(),
                base == self.address@,
                all == optional_texts(targets@),
                candidate_views(found@) == resolved(base, all.take(i as int)),
            decreases targets@.len() - i,
        {
            let ghost before = candidate_views(found@);
            assert(all.take(i + 1).drop_last() =~= all.take(i as int));
            assert(all.take(i + 1).last() == all[i as int]);
            match &targets[i] {
                Some(href) => {
                    assert(all[i as int] == Some(href@));
                    match resolve(self.address.as_str(), href.as_str()) {
                        Ok(url) => {
                            let parts = match parse(url.as_str()) {
                                Ok(parts) => Some(parts),
                                Err(_) => None,
                            };
                            found.push(Candidate { address: url, parts });
                            assert(candidate_views(found@) =~= before.push(
                                (url@, parsed_url(url@)),
                            ));
                        },
                        Err(_) => {},
                    }
                },
                None => {
                    assert(all[i as int] is None);
                },
            }
            i += 1;
        }
        assert(all.take(i as int) =~= all);
        found
    }

    /// The link `targets` that do not resolve against this link's address,
    /// in order: those that extraction skips as invalid, for the caller to
    /// report.
    pub fn unresolved_targets(&self, targets: &Vec<Option<String>>) -> (r: Vec<String>)
        ensures
            texts(r@) == unresolved(self.address@, optional_texts(targets@)),
    {
        let mut skipped: Vec<String> = Vec::new();
        let ghost base = self.address@;
        let ghost all = optional_texts(targets@);
        assert(texts(skipped@) =~= unresolved(base, all.take(0)));
        let mut i: usize = 0;
        while i < targets.len()
            invariant
                i <= targets@.len(),
                base == self.address@,
                all == optional_texts(targets@),
                texts(skipped@) == unresolved(base, all.take(i as int)),
            decreases targets@.len() - i,
        {
            let ghost before = texts(skipped@);
            assert(all.take(i + 1).drop_last() =~= all.take(i as int));
            assert(all.take(i + 1).last() == all[i as int]);
            match &targets[i] {
                Some(href) => {
                    assert(all[i as int] == Some(href@));
                    if let Err(_) = resolve(self.address.as_str(), href.as_str()) {
                        skipped.push(href.clone());
                        assert(texts(skipped@) =~= before.push(href@));
                    }
                },
                None => {
                    assert(all[i as int] is None);
                },
            }
            i += 1;
        }
        assert(all.take(i as int) =~= all);
        skipped
    }

    /// Reads the links off the body `html` of this link's page. Each link
    /// target is resolved against this link's address; one that does not
    /// resolve is skipped. The result holds, in the order in which the
    /// parsed page yields them, each accepted URL that is not the address
    /// of a visited link and did not occur earlier on the page. Marks this
    /// link visited. Fails with `ParseFailed`, leaving the link as it was,
    /// where the page is too long to be read or the link's own address is
    /// no absolute URL.
    pub fn extract_links(&mut self, html: &str, visited_links: &Vec<Link>) -> (r: Result<
        Vec<String>,
        CrawlError,
    >)
        ensures
            final(self).address@ == old(self).address@,
            if readable(html@) && parsed_url(old(self).address@) is Some {
                r is Ok && final(self).visited && texts(r->Ok_0@) == admitted(
                    old(self).address@,
                    page_hrefs(html@),
                    addresses(visited_links@),
                )
            } else {
                r == Err::<Vec<String>, CrawlError>(CrawlError::ParseFailed) && final(self).visited
                    == old(self).visited
            },
    {
        let targets = match anchor_hrefs(html) {
            Ok(targets) => targets,
            Err(e) => {
                return Err(e);
            },
        };
        if let Err(_) = parse(self.address.as_str()) {
            return Err(CrawlError::ParseFailed);
        }
        let candidates = self.resolve_targets(&targets);
        let links = select_links(&candidates, visited_links);
        self.visited = true;
        Ok(links)
    }
}

} // verus!
