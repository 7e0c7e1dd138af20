use link_crawler::error::CrawlError;
use link_crawler::address::UrlParts;
use link_crawler::collection::LinkCollection;
use link_crawler::document::{anchor_hrefs, MAX_DOCUMENT_CHARS};
use link_crawler::links::{is_listed, is_visited, select_links, with_parts, Candidate, Link};

fn anchors(targets: &[&str]) -> String {
    let mut html = String::from("<html><body>");
    for t in targets {
        html.push_str(&format!("<a href=\"{}\">link</a>", t));
    }
    html.push_str("</body></html>");
    html
}

fn visited(address: &str) -> Link {
    Link { address: address.to_string(), visited: true }
}

fn addresses(links: &Vec<Link>) -> Vec<String> {
    let mut out = Vec::new();
    for l in links {
        out.push(l.address.clone());
    }
    out
}

/// Runs the crawl over a fixed web: `pages` gives each address that can be
/// fetched with the link targets on its page. Returns the stored addresses.
fn run(collection: &mut LinkCollection, pages: &[(&str, Vec<&str>)], limit: usize) -> Vec<String> {
    let mut stored = Vec::new();
    let mut steps = 0;
    while let Some(link) = collection.next_link() {
        steps += 1;
        assert!(steps <= limit);
        let body = pages.iter().find(|(a, _)| *a == link.address).map(|(_, t)| anchors(t));
        match collection.crawl(link, body.as_deref()) {
            Ok(record) => {
                assert!(record.visited);
                stored.push(record.address);
            }
            Err(e) => assert_eq!(e, CrawlError::FetchFailed),
        }
    }
    stored
}

#[test]
fn new_link_is_pending() {
    let link = Link::new("https://a.test/".to_string());
    assert_eq!(link.address, "https://a.test/");
    assert!(!link.visited);
}

#[test]
fn scheme_and_host_rule() {
    let link = Link::new("https://a.test/".to_string());
    assert!(!link.valid_https("http://example.com/x"));
    assert!(!link.valid_https("https://localhost/x"));
    assert!(link.valid_https("https://example.com/x"));
    assert!(!link.valid_https("/x"));
    assert!(!link.valid_https(""));
    assert!(!link.valid_https("mailto:me@example.com"));
    assert!(!link.valid_https("ftp://example.com/x"));
    assert!(link.valid_https("HTTPS://EXAMPLE.COM"));
    assert!(link.valid_https("https://10.0.0.1/"));
}

#[test]
fn classification_depends_on_the_url_alone() {
    let a = Link::new("https://a.test/".to_string());
    let b = Link { address: "not a url".to_string(), visited: true };
    let urls = ["https://example.com/x", "http://example.com/x", "https://localhost/x", "::"];
    let first: Vec<bool> = urls.iter().map(|u| a.valid_https(u)).collect();
    let second: Vec<bool> = urls.iter().rev().map(|u| b.valid_https(u)).collect();
    let again: Vec<bool> = urls.iter().map(|u| a.valid_https(u)).collect();
    assert_eq!(first, vec![true, false, false, false]);
    assert_eq!(second, vec![false, false, false, true]);
    assert_eq!(first, again);
}

#[test]
fn membership_is_exact_string_equality() {
    let links = vec!["https://a.test/x".to_string(), "https://a.test/y/".to_string()];
    assert!(is_listed(&links, &"https://a.test/x".to_string()));
    assert!(!is_listed(&links, &"https://a.test/x/".to_string()));
    assert!(!is_listed(&links, &"https://a.test/y".to_string()));
    assert!(!is_listed(&Vec::new(), &"https://a.test/x".to_string()));
    let seen = vec![visited("https://a.test/?a=1&b=2"), visited("https://a.test/#f")];
    assert!(is_visited(&seen, &"https://a.test/#f".to_string()));
    assert!(!is_visited(&seen, &"https://a.test/?b=2&a=1".to_string()));
    assert!(!is_visited(&seen, &"https://a.test/".to_string()));
}

#[test]
fn extract_links_keeps_page_order() {
    let mut page = Link::new("https://a.test/".to_string());
    let html = anchors(&["/about", "https://a.test/contact", "http://a.test/insecure", "https://b.test/other"]);
    let found = page.extract_links(&html, &Vec::new()).unwrap();
    assert_eq!(
        found,
        vec![
            "https://a.test/about".to_string(),
            "https://a.test/contact".to_string(),
            "https://b.test/other".to_string(),
        ]
    );
    assert!(page.visited);
    assert_eq!(page.address, "https://a.test/");
}

#[test]
fn extract_links_drops_repeats_and_visited() {
    let mut page = Link::new("https://a.test/dir/".to_string());
    let seen = vec![visited("https://a.test/seen"), visited("https://a.test/dir/")];
    let html = anchors(&[
        "one",
        "/seen",
        "https://a.test/dir/one",
        "one#frag",
        "./",
        "one/",
        "https://[bad",
        "https://localhost/",
        "one",
    ]);
    let found = page.extract_links(&html, &seen).unwrap();
    assert_eq!(
        found,
        vec![
            "https://a.test/dir/one".to_string(),
            "https://a.test/dir/one#frag".to_string(),
            "https://a.test/dir/one/".to_string(),
        ]
    );
}

#[test]
fn extract_links_of_an_empty_page() {
    let mut page = Link::new("https://a.test/".to_string());
    assert_eq!(page.extract_links("", &Vec::new()), Ok(Vec::new()));
    assert!(page.visited);
}

#[test]
fn extract_links_needs_an_absolute_address() {
    let mut page = Link::new("/relative".to_string());
    let html = anchors(&["https://a.test/x"]);
    assert_eq!(page.extract_links(&html, &Vec::new()), Err(CrawlError::ParseFailed));
    assert!(!page.visited);
    assert_eq!(page.address, "/relative");
}

#[test]
fn new_collection_holds_the_seed() {
    let c = LinkCollection::new("https://a.test/".to_string(), true).unwrap();
    assert!(c.visited_links.is_empty());
    assert_eq!(c.unvisited_links, vec![Link::new("https://a.test/".to_string())]);
    assert!(c.restrict_domain);
    let d = LinkCollection::new("anything".to_string(), false).unwrap();
    assert!(!d.restrict_domain);
    assert_eq!(addresses(&d.unvisited_links), vec!["anything".to_string()]);
}

#[test]
fn pending_links_leave_last_in_first_out() {
    let mut c = LinkCollection::new("https://a.test/1".to_string(), false).unwrap();
    c.add_to_unvisited_links(Link::new("https://a.test/2".to_string()));
    c.add_to_unvisited_links(Link::new("https://a.test/3".to_string()));
    assert_eq!(c.next_link().unwrap().address, "https://a.test/3");
    assert_eq!(c.next_link().unwrap().address, "https://a.test/2");
    assert_eq!(c.next_link().unwrap().address, "https://a.test/1");
    assert_eq!(c.next_link(), None);
    assert_eq!(c.next_link(), None);
    assert!(c.visited_links.is_empty());
}

#[test]
fn add_to_visited_links_flags_the_link() {
    let mut c = LinkCollection::new("https://a.test/".to_string(), false).unwrap();
    c.add_to_visited_links(Link::new("https://a.test/x".to_string()));
    assert_eq!(c.visited_links, vec![visited("https://a.test/x")]);
    assert_eq!(c.unvisited_links.len(), 1);
}

#[test]
fn url_in_domain_compares_hosts() {
    let c = LinkCollection::new("https://a.test/".to_string(), true).unwrap();
    assert_eq!(c.url_in_domain("https://a.test/", "https://a.test/about"), Ok(true));
    assert_eq!(c.url_in_domain("https://a.test/", "http://a.test:8080/x"), Ok(true));
    assert_eq!(c.url_in_domain("https://a.test/", "https://b.test/"), Ok(false));
    assert_eq!(c.url_in_domain("https://a.test/", "https://www.a.test/"), Ok(false));
    assert_eq!(c.url_in_domain("https://1.2.3.4/", "https://5.6.7.8/"), Ok(false));
    assert_eq!(c.url_in_domain("https://a.test/", "mailto:x@a.test"), Ok(false));
    assert_eq!(c.url_in_domain("https://a.test/", "/about"), Err(CrawlError::InvalidHref));
    assert_eq!(c.url_in_domain("a.test", "https://a.test/"), Err(CrawlError::InvalidHref));
}

#[test]
fn crawl_step_on_a_failed_fetch_changes_nothing() {
    let mut c = LinkCollection::new("https://a.test/".to_string(), true).unwrap();
    c.add_to_unvisited_links(Link::new("https://a.test/x".to_string()));
    let link = c.next_link().unwrap();
    assert_eq!(c.crawl(link, None), Err(CrawlError::FetchFailed));
    assert!(c.visited_links.is_empty());
    assert_eq!(addresses(&c.unvisited_links), vec!["https://a.test/".to_string()]);
}

#[test]
fn crawl_step_on_an_address_that_is_no_url() {
    let mut c = LinkCollection::new("nowhere".to_string(), false).unwrap();
    let link = c.next_link().unwrap();
    assert_eq!(c.crawl(link, Some("<a href=\"https://a.test/\">a</a>")), Err(CrawlError::ParseFailed));
    assert!(c.visited_links.is_empty());
    assert!(c.unvisited_links.is_empty());
}

#[test]
fn crawl_step_queues_in_page_order() {
    let mut c = LinkCollection::new("https://a.test/".to_string(), false).unwrap();
    c.add_to_visited_links(Link::new("https://a.test/old".to_string()));
    let link = c.next_link().unwrap();
    let html = anchors(&["/about", "/old", "https://b.test/other", "/about", "http://a.test/insecure"]);
    let record = c.crawl(link, Some(&html)).unwrap();
    assert_eq!(record, visited("https://a.test/"));
    assert_eq!(
        c.unvisited_links,
        vec![Link::new("https://a.test/about".to_string()), Link::new("https://b.test/other".to_string())]
    );
    assert_eq!(c.visited_links, vec![visited("https://a.test/old"), visited("https://a.test/")]);
}

#[test]
fn restricted_crawl_of_a_small_site() {
    let mut c = LinkCollection::new("https://a.test/".to_string(), true).unwrap();
    let pages = [
        ("https://a.test/", vec!["/about", "https://a.test/contact", "http://a.test/insecure", "https://b.test/other"]),
        ("https://a.test/about", vec![]),
        ("https://a.test/contact", vec![]),
        ("https://b.test/other", vec!["https://a.test/hidden"]),
    ];
    let stored = run(&mut c, &pages, 10);
    assert_eq!(
        stored,
        vec!["https://a.test/".to_string(), "https://a.test/contact".to_string(), "https://a.test/about".to_string()]
    );
    assert_eq!(addresses(&c.visited_links), stored);
    assert!(c.visited_links.iter().all(|l| l.visited));
    assert!(c.unvisited_links.is_empty());
}

#[test]
fn restricted_crawl_queues_the_seed_domain_only() {
    let mut c = LinkCollection::new("https://a.test/".to_string(), true).unwrap();
    let link = c.next_link().unwrap();
    let html = anchors(&["/about", "https://a.test/contact", "http://a.test/insecure", "https://b.test/other"]);
    c.crawl(link, Some(&html)).unwrap();
    assert_eq!(
        addresses(&c.unvisited_links),
        vec!["https://a.test/about".to_string(), "https://a.test/contact".to_string()]
    );
}

#[test]
fn unrestricted_crawl_leaves_the_domain() {
    let mut c = LinkCollection::new("https://a.test/".to_string(), false).unwrap();
    let pages = [
        ("https://a.test/", vec!["/about", "https://b.test/other"]),
        ("https://a.test/about", vec![]),
        ("https://b.test/other", vec!["https://a.test/hidden"]),
        ("https://a.test/hidden", vec!["/"]),
    ];
    let stored = run(&mut c, &pages, 10);
    assert_eq!(
        stored,
        vec![
            "https://a.test/".to_string(),
            "https://b.test/other".to_string(),
            "https://a.test/hidden".to_string(),
            "https://a.test/about".to_string(),
        ]
    );
}

#[test]
fn crawl_skips_what_cannot_be_fetched() {
    let mut c = LinkCollection::new("https://a.test/".to_string(), true).unwrap();
    let pages = [("https://a.test/", vec!["/gone", "/here"]), ("https://a.test/here", vec!["/gone"])];
    let stored = run(&mut c, &pages, 10);
    assert_eq!(stored, vec!["https://a.test/".to_string(), "https://a.test/here".to_string()]);
    assert!(c.unvisited_links.is_empty());
}

#[test]
fn crawl_of_a_cycle_ends() {
    let mut c = LinkCollection::new("https://a.test/".to_string(), true).unwrap();
    let pages = [
        ("https://a.test/", vec!["/b", "/"]),
        ("https://a.test/b", vec!["/", "/c", "/b"]),
        ("https://a.test/c", vec!["/", "/b", "/c"]),
    ];
    let stored = run(&mut c, &pages, 20);
    assert!(c.unvisited_links.is_empty());
    for page in ["https://a.test/", "https://a.test/b", "https://a.test/c"] {
        assert!(stored.iter().any(|s| s == page));
    }
    assert_eq!(
        addresses(&c.visited_links),
        vec!["https://a.test/".to_string(), "https://a.test/b".to_string(), "https://a.test/c".to_string()]
    );
}

#[test]
fn a_link_queued_twice_is_read_twice() {
    let mut c = LinkCollection::new("https://a.test/".to_string(), true).unwrap();
    let pages = [
        ("https://a.test/", vec!["/a", "/b"]),
        ("https://a.test/a", vec![]),
        ("https://a.test/b", vec!["/a"]),
    ];
    let stored = run(&mut c, &pages, 10);
    assert_eq!(
        stored,
        vec![
            "https://a.test/".to_string(),
            "https://a.test/b".to_string(),
            "https://a.test/a".to_string(),
            "https://a.test/a".to_string(),
        ]
    );
    assert_eq!(
        c.visited_links,
        vec![visited("https://a.test/"), visited("https://a.test/b"), visited("https://a.test/a")]
    );
}

#[test]
fn a_site_without_repeated_queueing_is_visited_once_each() {
    let mut c = LinkCollection::new("https://a.test/".to_string(), true).unwrap();
    let pages = [
        ("https://a.test/", vec!["/a", "/b"]),
        ("https://a.test/a", vec!["/", "/b"]),
        ("https://a.test/b", vec!["/", "/c"]),
        ("https://a.test/c", vec!["/b"]),
    ];
    let stored = run(&mut c, &pages, 10);
    let mut sorted = stored.clone();
    sorted.sort();
    sorted.dedup();
    assert_eq!(sorted.len(), stored.len());
    assert_eq!(stored.len(), 4);
}

fn candidate(address: &str, scheme: &str, host: Option<&str>) -> Candidate {
    Candidate {
        address: address.to_string(),
        parts: Some(UrlParts { scheme: scheme.to_string(), host: host.map(|h| h.to_string()) }),
    }
}

#[test]
fn select_links_chooses_in_order() {
    let candidates = vec![
        candidate("https://a.test/1", "https", Some("a.test")),
        candidate("http://a.test/2", "http", Some("a.test")),
        candidate("https://a.test/seen", "https", Some("a.test")),
        candidate("https://localhost/3", "https", Some("localhost")),
        Candidate { address: "https://a.test/4".to_string(), parts: None },
        candidate("https://a.test/1", "https", Some("a.test")),
        candidate("data:5", "https", None),
        candidate("https://b.test/6", "https", Some("b.test")),
    ];
    let seen = vec![visited("https://a.test/seen")];
    assert_eq!(
        select_links(&candidates, &seen),
        vec!["https://a.test/1".to_string(), "https://b.test/6".to_string()]
    );
    assert_eq!(select_links(&Vec::new(), &seen), Vec::<String>::new());
}

#[test]
fn with_parts_parses_each_address() {
    let urls = vec!["https://a.test/x".to_string(), "nothing".to_string(), "MAILTO:x@y.z".to_string()];
    assert_eq!(
        with_parts(&urls),
        vec![
            candidate("https://a.test/x", "https", Some("a.test")),
            Candidate { address: "nothing".to_string(), parts: None },
            candidate("MAILTO:x@y.z", "mailto", None),
        ]
    );
}

#[test]
fn resolve_targets_skips_what_does_not_resolve() {
    let page = Link::new("https://a.test/dir/".to_string());
    let targets = vec![
        Some("x".to_string()),
        None,
        Some("https://[bad".to_string()),
        Some("http://b.test".to_string()),
        Some("x".to_string()),
    ];
    assert_eq!(
        page.resolve_targets(&targets),
        vec![
            candidate("https://a.test/dir/x", "https", Some("a.test")),
            candidate("http://b.test/", "http", Some("b.test")),
            candidate("https://a.test/dir/x", "https", Some("a.test")),
        ]
    );
    let nowhere = Link::new("nowhere".to_string());
    assert_eq!(nowhere.resolve_targets(&targets), Vec::new());
}

#[test]
fn visit_under_restriction_queues_the_page_host_only() {
    let mut c = LinkCollection::new("https://a.test/".to_string(), true).unwrap();
    let link = c.next_link().unwrap();
    let page = UrlParts { scheme: "https".to_string(), host: Some("a.test".to_string()) };
    let found = vec![
        candidate("https://a.test/1", "https", Some("a.test")),
        candidate("https://b.test/2", "https", Some("b.test")),
        Candidate { address: "https://a.test/3".to_string(), parts: None },
        candidate("https://a.test/4", "http", Some("a.test")),
        candidate("https://www.a.test/5", "https", Some("www.a.test")),
    ];
    let record = c.visit(link, &page, &found);
    assert_eq!(record, visited("https://a.test/"));
    assert_eq!(c.visited_links, vec![visited("https://a.test/")]);
    assert_eq!(
        c.unvisited_links,
        vec![Link::new("https://a.test/1".to_string()), Link::new("https://a.test/4".to_string())]
    );
}

#[test]
fn visit_without_restriction_queues_all() {
    let mut c = LinkCollection::new("https://a.test/".to_string(), false).unwrap();
    c.add_to_unvisited_links(Link::new("https://a.test/0".to_string()));
    let link = c.next_link().unwrap();
    let page = UrlParts { scheme: "https".to_string(), host: Some("a.test".to_string()) };
    let found = vec![
        candidate("https://b.test/2", "https", Some("b.test")),
        Candidate { address: "https://a.test/3".to_string(), parts: None },
    ];
    let record = c.visit(link, &page, &found);
    assert_eq!(record, visited("https://a.test/0"));
    assert_eq!(
        addresses(&c.unvisited_links),
        vec!["https://a.test/".to_string(), "https://b.test/2".to_string(), "https://a.test/3".to_string()]
    );
    assert_eq!(c.visited_links, vec![visited("https://a.test/0")]);
}

#[test]
fn unresolved_targets_are_those_that_do_not_join() {
    let page = Link::new("https://a.test/dir/".to_string());
    let targets = vec![
        Some("x".to_string()),
        Some("https://[bad".to_string()),
        None,
        Some("http://[::1".to_string()),
        Some("mailto:me@a.test".to_string()),
        Some("https://[bad".to_string()),
    ];
    assert_eq!(
        page.unresolved_targets(&targets),
        vec!["https://[bad".to_string(), "http://[::1".to_string(), "https://[bad".to_string()]
    );
    assert_eq!(page.unresolved_targets(&Vec::new()), Vec::<String>::new());
    let opaque = Link::new("mailto:me@a.test".to_string());
    assert_eq!(opaque.unresolved_targets(&vec![Some("/x".to_string()), None]), vec!["/x".to_string()]);
}

#[test]
fn a_page_beyond_the_bound_is_not_read() {
    let mut html = String::from("<a href=\"/about\">about</a>");
    let filler = " ".repeat(1 << 20);
    while html.len() <= MAX_DOCUMENT_CHARS {
        html.push_str(&filler);
    }
    assert_eq!(anchor_hrefs(&html), Err(CrawlError::ParseFailed));

    let mut page = Link::new("https://a.test/".to_string());
    assert_eq!(page.extract_links(&html, &Vec::new()), Err(CrawlError::ParseFailed));
    assert!(!page.visited);

    let mut c = LinkCollection::new("https://a.test/".to_string(), true).unwrap();
    let link = c.next_link().unwrap();
    assert_eq!(c.crawl(link, Some(&html)), Err(CrawlError::ParseFailed));
    assert!(c.visited_links.is_empty());
    assert!(c.unvisited_links.is_empty());
}

#[test]
fn a_seed_that_links_to_itself_is_visited_once() {
    let mut c = LinkCollection::new("https://a.test/".to_string(), true).unwrap();
    let pages = [("https://a.test/", vec!["/"])];
    let stored = run(&mut c, &pages, 5);
    assert_eq!(stored, vec!["https://a.test/".to_string(), "https://a.test/".to_string()]);
    assert_eq!(c.visited_links, vec![visited("https://a.test/")]);
    assert!(c.unvisited_links.is_empty());
}

#[test]
fn visit_of_a_visited_address_lists_it_once() {
    let mut c = LinkCollection::new("https://a.test/".to_string(), false).unwrap();
    c.add_to_visited_links(Link::new("https://a.test/x".to_string()));
    c.add_to_visited_links(Link::new("https://a.test/".to_string()));
    let link = c.next_link().unwrap();
    let page = UrlParts { scheme: "https".to_string(), host: Some("a.test".to_string()) };
    let found = vec![candidate("https://a.test/y", "https", Some("a.test"))];
    let record = c.visit(link, &page, &found);
    assert_eq!(record, visited("https://a.test/"));
    assert_eq!(c.visited_links, vec![visited("https://a.test/x"), visited("https://a.test/")]);
    assert_eq!(c.unvisited_links, vec![Link::new("https://a.test/y".to_string())]);
}

#[test]
fn queued_links_are_pending_whatever_was_there() {
    let mut c = LinkCollection::new("https://a.test/".to_string(), false).unwrap();
    c.unvisited_links.insert(0, visited("https://a.test/odd"));
    let link = c.next_link().unwrap();
    let html = anchors(&["/1", "/2"]);
    c.crawl(link, Some(&html)).unwrap();
    assert_eq!(
        c.unvisited_links,
        vec![
            visited("https://a.test/odd"),
            Link::new("https://a.test/1".to_string()),
            Link::new("https://a.test/2".to_string()),
        ]
    );
}

#[test]
fn no_address_is_visited_twice_on_a_tangled_site() {
    let mut c = LinkCollection::new("https://a.test/".to_string(), true).unwrap();
    let pages = [
        ("https://a.test/", vec!["/", "/a", "/b", "/c"]),
        ("https://a.test/a", vec!["/b", "/c", "/a"]),
        ("https://a.test/b", vec!["/c", "/a", "/"]),
        ("https://a.test/c", vec!["/a", "/b", "/d"]),
        ("https://a.test/d", vec!["/", "/a", "/b", "/c", "/d"]),
    ];
    run(&mut c, &pages, 200);
    let mut seen = addresses(&c.visited_links);
    assert_eq!(seen.len(), 5);
    seen.sort();
    seen.dedup();
    assert_eq!(seen.len(), 5);
    assert!(c.unvisited_links.is_empty());
}
