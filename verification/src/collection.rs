use vstd::prelude::*;

use crate::address::{parse, parsed_url, same_domain, same_host, PartsView, UrlParts};
use crate::document::{page_hrefs, readable};
use crate::error::CrawlError;
use crate::links::{
    addresses, admitted, candidate_views, is_visited, names_of, parsed_all, texts, with_parts,
    Candidate, CandidateView, Link, LinkView,
};

verus! {

/// Those of `found`, in order, that are absolute URLs with the host
/// component `host`.
pub open spec fn at_host(host: Option<Seq<char>>, found: Seq<CandidateView>) -> Seq<Seq<char>>
    decreases found.len(),
{
    if found.len() == 0 {
        Seq::empty()
    } else {
        let earlier = at_host(host, found.drop_last());
        if found.last().1 matches Some(parts) && parts.1 == host {
            earlier.push(found.last().0)
        } else {
            earlier
        }
    }
}

/// The addresses queued from the candidates `found` on a page whose host
/// component is `host`: all of them, or under domain restriction those at
/// `host`.
pub open spec fn kept_found(
    restrict_domain: bool,
    host: Option<Seq<char>>,
    found: Seq<CandidateView>,
) -> Seq<Seq<char>> {
    if restrict_domain {
        at_host(host, found)
    } else {
        names_of(found)
    }
}

/// Those of `found`, in order, that are in the same domain as `from`.
pub open spec fn in_domain_only(from: Seq<char>, found: Seq<Seq<char>>) -> Seq<Seq<char>>
    decreases found.len(),
{
    if found.len() == 0 {
        Seq::empty()
    } else {
        let earlier = in_domain_only(from, found.drop_last());
        if same_domain(from, found.last()) {
            earlier.push(found.last())
        } else {
            earlier
        }
    }
}

/// The links found on the page at `from` that are queued: all of them, or
/// under domain restriction those in the domain of `from`.
pub open spec fn kept(restrict_domain: bool, from: Seq<char>, found: Seq<Seq<char>>) -> Seq<
    Seq<char>,
> {
    if restrict_domain {
        in_domain_only(from, found)
    } else {
        found
    }
}

/// The frontier as a mathematical value: the addresses visited, in the order
/// in which they were visited, and the addresses pending, the last of them
/// being the next to be processed.
pub struct Frontier {
    pub visited: Seq<Seq<char>>,
    pub pending: Seq<Seq<char>>,
    pub restrict_domain: bool,
}

impl Frontier {
    /// The frontier after the page at `current`, taken off `pending` before,
    /// has been read and `found` are the links queued from it. The visited
    /// addresses are a set kept in order of first visit: `current` joins
    /// them unless it is among them already.
    pub open spec fn absorbed(self, current: Seq<char>, found: Seq<Seq<char>>) -> Frontier {
        Frontier {
            visited: if self.visited.contains(current) {
                self.visited
            } else {
                self.visited.push(current)
            },
            pending: self.pending + found,
            restrict_domain: self.restrict_domain,
        }
    }

    /// The frontier after its next link has been taken off `pending`.
    pub open spec fn popped(self) -> Frontier {
        Frontier {
            visited: self.visited,
            pending: self.pending.drop_last(),
            restrict_domain: self.restrict_domain,
        }
    }

    /// The links queued when the page of the next pending link holds the
    /// link `targets`.
    pub open spec fn queued(self, targets: Seq<Option<Seq<char>>>) -> Seq<Seq<char>> {
        kept(
            self.restrict_domain,
            self.pending.last(),
            admitted(self.pending.last(), targets, self.visited),
        )
    }

    /// The frontier after one whole step in which the page of the next
    /// pending link was fetched and held the link `targets`.
    pub open spec fn after_page(self, targets: Seq<Option<Seq<char>>>) -> Frontier {
        self.popped().absorbed(self.pending.last(), self.queued(targets))
    }

    /// The frontier after one whole step in which the next pending link
    /// could not be processed.
    pub open spec fn after_failure(self) -> Frontier {
        self.popped()
    }
}

/// The traversal engine's state: visited links, pending links in stack
/// order, and the domain policy.
#[derive(Debug)]
pub struct LinkCollection {
    pub visited_links: Vec<Link>,
    pub unvisited_links: Vec<Link>,
    pub restrict_domain: bool,
}

impl View for LinkCollection {
    type V = Frontier;

    open spec fn view(&self) -> Frontier {
        Frontier {
            visited: addresses(self.visited_links@),
            pending: addresses(self.unvisited_links@),
            restrict_domain: self.restrict_domain,
        }
    }
}

/// How the two lists of `after` continue those of `before`: the lists of
/// `before` are kept as they are, each link added to the visited links is
/// flagged visited, and each link added to the pending links is not.
pub open spec fn grown(before: LinkCollection, after: LinkCollection) -> bool {
    &&& before.visited_links@.is_prefix_of(after.visited_links@)
    &&& before.unvisited_links@.is_prefix_of(after.unvisited_links@)
    &&& forall|i: int|
        before.visited_links@.len() <= i < after.visited_links@.len()
            ==> after.visited_links@[i].visited
    &&& forall|i: int|
        before.unvisited_links@.len() <= i < after.unvisited_links@.len()
            ==> !after.unvisited_links@[i].visited
}

impl LinkCollection {
    /// Every visited link is flagged visited and no pending link is.
    pub open spec fn flags_consistent(&self) -> bool {
        &&& forall|i: int| 0 <= i < self.visited_links@.len() ==> self.visited_links@[i].visited
        &&& forall|i: int|
            0 <= i < self.unvisited_links@.len() ==> !self.unvisited_links@[i].visited
    }

    /// A frontier with the seed as its one pending link and nothing visited.
    pub fn new(start_point_url: String, restrict_domain: bool) -> (r: Result<Self, CrawlError>)
        ensures
            r is Ok,
            r->Ok_0@ == (Frontier {
                visited: Seq::empty(),
                pending: seq![start_point_url@],
                restrict_domain,
            }),
            r->Ok_0.flags_consistent(),
    {
        let mut unvisited_links: Vec<Link> = Vec::new();
        unvisited_links.push(Link::new(start_point_url));
        let collection = LinkCollection {
            visited_links: Vec::new(),
            unvisited_links,
            restrict_domain,
        };
        assert(collection@.visited =~= Seq::empty());
        assert(collection@.pending =~= seq![start_point_url@]);
        Ok(collection)
    }

    /// Takes the most recently queued link off the pending links; `None`
    /// when none is pending, which ends the crawl.
    pub fn next_link(&mut self) -> (r: Option<Link>)
        ensures
            final(self).visited_links == old(self).visited_links,
            final(self).restrict_domain == old(self).restrict_domain,
            old(self).flags_consistent() ==> final(self).flags_consistent(),
            match r {
                Some(link) => {
                    &&& old(self)@.pending.len() > 0
                    &&& link.address@ == old(self)@.pending.last()
                    &&& link == old(self).unvisited_links@.last()
                    &&& final(self).unvisited_links@ == old(self).unvisited_links@.drop_last()
                    &&& final(self)@ == old(self)@.popped()
                },
                None => old(self)@.pending.len() == 0 && final(self)@ == old(self)@,
            },
    {
        let r = self.unvisited_links.pop();
        assert(r is Some ==> self.unvisited_links@ =~= old(self).unvisited_links@.drop_last());
        assert(r is Some ==> addresses(self.unvisited_links@) =~= addresses(
            old(self).unvisited_links@,
        ).drop_last());
        assert(r is None ==> addresses(self.unvisited_links@) =~= addresses(
            old(self).unvisited_links@,
        ));
        r
    }

    /// Records that the page of `link`, which was taken off the pending
    /// links, has been read: `page` holds the components of the link's
    /// address and `found` the links chosen from the page. Queues the links
    /// found, in order and each as a pending link (under domain restriction
    /// only those whose host equals the page's), and returns the visited
    /// record. The link is added to the visited links unless its address is
    /// among them already, so no address is listed twice.
    pub fn visit(&mut self, link: Link, page: &UrlParts, found: &Vec<Candidate>) -> (record: Link)
        ensures
            record@ == (LinkView { address: link.address@, visited: true }),
            final(self)@ == old(self)@.absorbed(
                link.address@,
                kept_found(old(self).restrict_domain, page@.1, candidate_views(found@)),
            ),
            old(self)@.visited.no_duplicates() ==> final(self)@.visited.no_duplicates(),
            old(self).flags_consistent() ==> final(self).flags_consistent(),
            grown(*old(self), *final(self)),
    {
        let ghost host = page@.1;
        let ghost all = candidate_views(found@);
        assert(kept_found(self.restrict_domain, host, all.take(0)) =~= Seq::empty());
        assert(self@.pending + Seq::<Seq<char>>::empty() =~= self@.pending);
        let mut i: usize = 0;
        while i < found.len()
            invariant
                i <= found@.len(),
                host == page@.1,
                all == candidate_views(found@),
                self.visited_links == old(self).visited_links,
                self.restrict_domain == old(self).restrict_domain,
                old(self).flags_consistent() ==> self.flags_consistent(),
                grown(*old(self), *self),
                self@.pending == old(self)@.pending + kept_found(
                    self.restrict_domain,
                    host,
                    all.take(i as int),
                ),
            decreases found@.len() - i,
        {
            let ghost queued = kept_found(self.restrict_domain, host, all.take(i as int));
            let c = &found[i];
            assert(all.take(i + 1).drop_last() =~= all.take(i as int));
            assert(all.take(i + 1).last() == c@);
            assert(names_of(all.take(i + 1)) =~= names_of(all.take(i as int)).push(c@.0));
            let wanted = if self.restrict_domain {
                match &c.parts {
                    Some(parts) => same_host(parts, page),
                    None => false,
                }
            } else {
                true
            };
            if wanted {
                self.add_to_unvisited_links(Link::new(c.address.clone()));
                assert(self@.pending =~= old(self)@.pending + queued.push(c.address@));
            }
            i += 1;
        }
        assert(all.take(i as int) =~= all);
        let record = Link { address: link.address.clone(), visited: true };
        if !is_visited(&self.visited_links, &link.address) {
            proof {
                lemma_new_address_keeps_distinct(self@.visited, link.address@);
            }
            self.add_to_visited_links(link);
        }
        record
    }

    /// Takes one crawl step for `link`, which was taken off the pending
    /// links, given what fetching its page brought: the body, or `None`
    /// where the fetch failed.
    ///
    /// On a failed fetch the frontier stays as it is and `FetchFailed` is
    /// returned. Where the body is too long to be read, or the link's
    /// address is no absolute URL, the frontier stays as it is and
    /// `ParseFailed` is returned. Otherwise the links extracted from the
    /// body are queued in the order in which they were extracted (under
    /// domain restriction only those in the link's own domain), the link is
    /// added to the visited links, and the visited record is returned for
    /// the caller to store.
    ///
    /// A link can be queued again while it is still pending. Each of its
    /// entries is handed out by `next_link` and read in its turn, so its
    /// page is fetched, and its record returned, once for each entry; the
    /// visited links list its address once, and a later reading queues
    /// only what is still not visited.
    pub fn crawl(&mut self, link: Link, fetched: Option<&str>) -> (r: Result<Link, CrawlError>)
        ensures
            old(self)@.visited.no_duplicates() ==> final(self)@.visited.no_duplicates(),
            old(self).flags_consistent() ==> final(self).flags_consistent(),
            grown(*old(self), *final(self)),
            old(self).restrict_domain ==> forall|i: int|
                old(self)@.pending.len() <= i < final(self)@.pending.len() ==> same_domain(
                    link.address@,
                    #[trigger] final(self)@.pending[i],
                ),
            match fetched {
                None => r == Err::<Link, CrawlError>(CrawlError::FetchFailed) && *final(self)
                    == *old(self),
                Some(html) => if readable(html@) && parsed_url(link.address@) is Some {
                    r is Ok && r->Ok_0@ == (LinkView { address: link.address@, visited: true })
                        && final(self)@ == old(self)@.absorbed(
                        link.address@,
                        kept(
                            old(self).restrict_domain,
                            link.address@,
                            admitted(link.address@, page_hrefs(html@), old(self)@.visited),
                        ),
                    )
                } else {
                    r == Err::<Link, CrawlError>(CrawlError::ParseFailed) && *final(self)
                        == *old(self)
                },
            },
    {
        let html = match fetched {
            Some(html) => html,
            None => {
                return Err(CrawlError::FetchFailed);
            },
        };
        let page = match parse(link.address.as_str()) {
            Ok(page) => page,
            Err(_) => {
                return Err(CrawlError::ParseFailed);
            },
        };
        let mut current = link;
        let extracted = match current.extract_links(html, &self.visited_links) {
            Ok(extracted) => extracted,
            Err(e) => {
                return Err(e);
            },
        };
        let found = with_parts(&extracted);
        proof {
            lemma_kept_found_is_kept(
                self.restrict_domain,
                link.address@,
                page@,
                texts(extracted@),
            );
            lemma_in_domain_only(link.address@, texts(extracted@));
        }
        let record = self.visit(current, &page, &found);
        assert forall|i: int|
            old(self)@.pending.len() <= i < self@.pending.len()
                && self.restrict_domain implies same_domain(
            link.address@,
            #[trigger] self@.pending[i],
        ) by {
            let kept_here = in_domain_only(link.address@, texts(extracted@));
            assert(self@.pending[i] == kept_here[i - old(self)@.pending.len()]);
        }
        Ok(record)
    }

    /// Flags `link` visited and appends it to the visited links.
    pub fn add_to_visited_links(&mut self, link: Link)
        ensures
            final(self).unvisited_links == old(self).unvisited_links,
            final(self).restrict_domain == old(self).restrict_domain,
            final(self).visited_links@.len() == old(self).visited_links@.len() + 1,
            final(self).visited_links@.drop_last() == old(self).visited_links@,
            final(self).visited_links@.last()@ == (LinkView {
                address: link.address@,
                visited: true,
            }),
            final(self)@.visited == old(self)@.visited.push(link.address@),
            old(self).flags_consistent() ==> final(self).flags_consistent(),
    {
        let mut link = link;
        link.visited = true;
        self.visited_links.push(link);
        assert(self.visited_links@.drop_last() =~= old(self).visited_links@);
        assert forall|i: int| 0 <= i < self.visited_links@.len() - 1 implies self.visited_links@[i]
            == old(self).visited_links@[i] by {}
        assert(addresses(self.visited_links@) =~= addresses(old(self).visited_links@).push(
            link.address@,
        ));
    }

    /// Pushes `link` onto the pending links, to be processed before those
    /// queued earlier.
    pub fn add_to_unvisited_links(&mut self, link: Link)
        ensures
            final(self).visited_links == old(self).visited_links,
            final(self).restrict_domain == old(self).restrict_domain,
            final(self).unvisited_links@ == old(self).unvisited_links@.push(link),
            final(self)@.pending == old(self)@.pending.push(link.address@),
            old(self).flags_consistent() && !link.visited ==> final(self).flags_consistent(),
    {
        self.unvisited_links.push(link);
        assert(addresses(self.unvisited_links@) =~= addresses(old(self).unvisited_links@).push(
            link.address@,
        ));
    }

    /// Whether the URLs `link` and `new_link` have equal host components.
    /// Fails where either is no absolute URL.
    pub fn url_in_domain(&self, link: &str, new_link: &str) -> (r: Result<bool, CrawlError>)
        ensures
            match (parsed_url(link@), parsed_url(new_link@)) {
                (Some(a), Some(b)) => r == Ok::<bool, CrawlError>(a.1 == b.1),
                _ => r == Err::<bool, CrawlError>(CrawlError::InvalidHref),
            },
            r == Ok::<bool, CrawlError>(true) <==> same_domain(link@, new_link@),
    {
        let parsed_link = match parse(link) {
            Ok(parts) => parts,
            Err(e) => {
                return Err(e);
            },
        };
        let parsed_new_link = match parse(new_link) {
            Ok(parts) => parts,
            Err(e) => {
                return Err(e);
            },
        };
        Ok(same_host(&parsed_link, &parsed_new_link))
    }
}

/// A list without repetition stays so when an address that it does not
/// hold is appended.
pub proof fn lemma_new_address_keeps_distinct(visited: Seq<Seq<char>>, address: Seq<char>)
    requires
        !visited.contains(address),
    ensures
        visited.no_duplicates() ==> visited.push(address).no_duplicates(),
{
    let after = visited.push(address);
    if visited.no_duplicates() {
        assert forall|i: int, j: int|
            0 <= i < after.len() && 0 <= j < after.len() && i != j implies after[i]
            != after[j] by {
            if i < visited.len() {
                assert(visited.contains(after[i]));
            }
            if j < visited.len() {
                assert(visited.contains(after[j]));
            }
        }
    }
}

/// Under domain restriction every link kept from a page was found on it
/// and is in the domain of the page it was found on.
pub proof fn lemma_in_domain_only(from: Seq<char>, found: Seq<Seq<char>>)
    ensures
        forall|i: int|
            0 <= i < in_domain_only(from, found).len() ==> {
                &&& found.contains(#[trigger] in_domain_only(from, found)[i])
                &&& same_domain(from, in_domain_only(from, found)[i])
            },
    decreases found.len(),
{
    if found.len() > 0 {
        lemma_in_domain_only(from, found.drop_last());
        let earlier = in_domain_only(from, found.drop_last());
        assert forall|i: int| 0 <= i < earlier.len() implies found.contains(
            #[trigger] earlier[i],
        ) by {
            let j = choose|j: int|
                0 <= j < found.drop_last().len() && found.drop_last()[j] == earlier[i];
            assert(found[j] == earlier[i]);
        }
        assert(found.contains(found.last()));
    }
}

/// Filtering parsed addresses by the host of a page is filtering them by
/// the domain of the page's address.
proof fn lemma_kept_found_is_kept(
    restrict_domain: bool,
    from: Seq<char>,
    page: PartsView,
    urls: Seq<Seq<char>>,
)
    requires
        parsed_url(from) == Some(page),
    ensures
        kept_found(restrict_domain, page.1, parsed_all(urls)) == kept(restrict_domain, from, urls),
    decreases urls.len(),
{
    assert(names_of(parsed_all(urls)) =~= urls);
    if urls.len() > 0 {
        lemma_kept_found_is_kept(true, from, page, urls.drop_last());
        assert(parsed_all(urls).drop_last() =~= parsed_all(urls.drop_last()));
        assert(parsed_all(urls).last() == (urls.last(), parsed_url(urls.last())));
    }
}

} // verus!
