use vstd::prelude::*;

use crate::address::{acceptable, is_accepted, parsed_url, same_domain, PartsView};
use crate::collection::{
    in_domain_only, kept, lemma_in_domain_only, lemma_new_address_keeps_distinct, Frontier,
};
use crate::links::{admits, admitted, candidate, chosen, passes, resolved, CandidateView};

verus! {

/// The classification rule turns away every URL whose scheme is `http`,
/// every URL without a host, and every URL whose host holds no `.`.
pub proof fn lemma_rejected_parts(parts: PartsView)
    ensures
        parts.0 == "http"@ ==> !acceptable(parts),
        parts.1 is None ==> !acceptable(parts),
        parts.1 matches Some(host) && !host.contains('.') ==> !acceptable(parts),
{
    reveal_strlit("http");
    reveal_strlit("https");
    assert("http"@.len() != "https"@.len());
}

/// No URL with the scheme `http`, without a host, or with a host that holds
/// no `.` is accepted, nor a string that is no absolute URL.
pub proof fn lemma_rejected_urls(text: Seq<char>)
    ensures
        parsed_url(text) is None ==> !is_accepted(text),
        parsed_url(text) matches Some(parts) && parts.0 == "http"@ ==> !is_accepted(text),
        parsed_url(text) matches Some(parts) && parts.1 is None ==> !is_accepted(text),
        parsed_url(text) matches Some(parts) && parts.1 matches Some(host) && !host.contains('.')
            ==> !is_accepted(text),
{
    if let Some(parts) = parsed_url(text) {
        lemma_rejected_parts(parts);
    }
}

/// Every address chosen from candidates is chosen once, is not among the
/// visited addresses, and is the address of a candidate with acceptable
/// components.
pub proof fn lemma_chosen_sound(candidates: Seq<CandidateView>, visited: Seq<Seq<char>>)
    ensures
        chosen(candidates, visited).no_duplicates(),
        forall|i: int|
            0 <= i < chosen(candidates, visited).len() ==> {
                &&& !visited.contains(#[trigger] chosen(candidates, visited)[i])
                &&& exists|k: int|
                    0 <= k < candidates.len() && (#[trigger] candidates[k]).0 == chosen(
                        candidates,
                        visited,
                    )[i] && passes(candidates[k])
            },
    decreases candidates.len(),
{
    if candidates.len() > 0 {
        let shorter = candidates.drop_last();
        lemma_chosen_sound(shorter, visited);
        let earlier = chosen(shorter, visited);
        let all = chosen(candidates, visited);
        if admits(earlier, visited, candidates.last()) {
            assert forall|i: int, j: int|
                0 <= i < all.len() && 0 <= j < all.len() && i != j implies all[i] != all[j] by {
                if i < earlier.len() {
                    assert(earlier.contains(all[i]));
                }
                if j < earlier.len() {
                    assert(earlier.contains(all[j]));
                }
            }
        }
        assert forall|i: int| 0 <= i < all.len() implies {
            &&& !visited.contains(#[trigger] all[i])
            &&& exists|k: int|
                0 <= k < candidates.len() && (#[trigger] candidates[k]).0 == all[i]
                    && passes(candidates[k])
        } by {
            if i < earlier.len() {
                let k = choose|k: int|
                    0 <= k < shorter.len() && (#[trigger] shorter[k]).0 == earlier[i]
                        && passes(shorter[k]);
                assert(candidates[k] == shorter[k]);
            } else {
                assert(candidates[candidates.len() - 1].0 == all[i]);
            }
        }
    }
}

/// Every candidate of a page is what one of the page's link targets
/// resolves to, with the components that it parses to.
pub proof fn lemma_resolved_sound(base: Seq<char>, targets: Seq<Option<Seq<char>>>)
    ensures
        forall|k: int|
            0 <= k < resolved(base, targets).len() ==> {
                &&& (#[trigger] resolved(base, targets)[k]).1 == parsed_url(
                    resolved(base, targets)[k].0,
                )
                &&& exists|j: int|
                    0 <= j < targets.len() && candidate(base, #[trigger] targets[j]) == Some(
                        resolved(base, targets)[k].0,
                    )
            },
    decreases targets.len(),
{
    if targets.len() > 0 {
        let shorter = targets.drop_last();
        lemma_resolved_sound(base, shorter);
        let earlier = resolved(base, shorter);
        let all = resolved(base, targets);
        assert forall|k: int| 0 <= k < all.len() implies {
            &&& (#[trigger] all[k]).1 == parsed_url(all[k].0)
            &&& exists|j: int|
                0 <= j < targets.len() && candidate(base, #[trigger] targets[j]) == Some(all[k].0)
        } by {
            if k < earlier.len() {
                assert(all[k] == earlier[k]);
                let j = choose|j: int|
                    0 <= j < shorter.len() && candidate(base, #[trigger] shorter[j]) == Some(
                        earlier[k].0,
                    );
                assert(targets[j] == shorter[j]);
            } else {
                assert(candidate(base, targets[targets.len() - 1]) == Some(all[k].0));
            }
        }
    }
}

/// Every link that a page yields is accepted, is not among the visited
/// addresses, and occurs once in the page's result.
pub proof fn lemma_admitted_sound(
    base: Seq<char>,
    targets: Seq<Option<Seq<char>>>,
    visited: Seq<Seq<char>>,
)
    ensures
        admitted(base, targets, visited).no_duplicates(),
        forall|i: int|
            0 <= i < admitted(base, targets, visited).len() ==> {
                &&& is_accepted(#[trigger] admitted(base, targets, visited)[i])
                &&& !visited.contains(admitted(base, targets, visited)[i])
            },
{
    let candidates = resolved(base, targets);
    let all = admitted(base, targets, visited);
    lemma_chosen_sound(candidates, visited);
    lemma_resolved_sound(base, targets);
    assert forall|i: int| 0 <= i < all.len() implies is_accepted(#[trigger] all[i]) by {
        let k = choose|k: int|
            0 <= k < candidates.len() && (#[trigger] candidates[k]).0 == all[i]
                && passes(candidates[k]);
        assert(candidates[k].1 == parsed_url(all[i]));
    }
}

/// Whether `text` is an absolute URL with the host component `host`.
pub open spec fn hosted_at(text: Seq<char>, host: Option<Seq<char>>) -> bool {
    parsed_url(text) matches Some(parts) && parts.1 == host
}

/// Whether every pending address has the host component `host`.
pub open spec fn confined(frontier: Frontier, host: Option<Seq<char>>) -> bool {
    forall|i: int| 0 <= i < frontier.pending.len() ==> hosted_at(#[trigger] frontier.pending[i], host)
}

/// Domain restriction holds across steps: where every pending address has
/// the seed's host, a step under restriction queues only addresses with that
/// host, whatever the page links to, and so every pending address still has
/// it afterwards.
pub proof fn lemma_restriction_confines(
    frontier: Frontier,
    targets: Seq<Option<Seq<char>>>,
    host: Option<Seq<char>>,
)
    requires
        frontier.restrict_domain,
        frontier.pending.len() > 0,
        confined(frontier, host),
    ensures
        forall|i: int|
            0 <= i < frontier.queued(targets).len() ==> hosted_at(
                #[trigger] frontier.queued(targets)[i],
                host,
            ),
        confined(frontier.after_page(targets), host),
        confined(frontier.after_failure(), host),
{
    let current = frontier.pending.last();
    let found = admitted(current, targets, frontier.visited);
    lemma_in_domain_only(current, found);
    assert(hosted_at(current, host));
    let queued = frontier.queued(targets);
    assert forall|i: int| 0 <= i < queued.len() implies hosted_at(#[trigger] queued[i], host) by {
        assert(same_domain(current, queued[i]));
    }
    let after = frontier.after_page(targets);
    assert forall|i: int| 0 <= i < after.pending.len() implies hosted_at(
        #[trigger] after.pending[i],
        host,
    ) by {
        if i < frontier.pending.len() - 1 {
            assert(after.pending[i] == frontier.pending[i]);
        } else {
            assert(after.pending[i] == queued[i - (frontier.pending.len() - 1)]);
        }
    }
    let failed = frontier.after_failure();
    assert forall|i: int| 0 <= i < failed.pending.len() implies hosted_at(
        #[trigger] failed.pending[i],
        host,
    ) by {
        assert(failed.pending[i] == frontier.pending[i]);
    }
}

/// No step visits an address twice: a step keeps the visited addresses
/// free of repetition, whether it reads a page or fails.
pub proof fn lemma_visit_keeps_distinct(frontier: Frontier, targets: Seq<Option<Seq<char>>>)
    requires
        frontier.pending.len() > 0,
        frontier.visited.no_duplicates(),
    ensures
        frontier.after_page(targets).visited.no_duplicates(),
        frontier.after_failure().visited == frontier.visited,
{
    let current = frontier.pending.last();
    if !frontier.visited.contains(current) {
        lemma_new_address_keeps_distinct(frontier.visited, current);
    }
}

/// How many of the `pending` addresses are among the `visited` ones.
pub open spec fn stale(pending: Seq<Seq<char>>, visited: Seq<Seq<char>>) -> nat
    decreases pending.len(),
{
    if pending.len() == 0 {
        0
    } else {
        let rest = stale(pending.drop_last(), visited);
        if visited.contains(pending.last()) {
            rest + 1
        } else {
            rest
        }
    }
}

/// The addresses of `universe` that are not among the `visited` ones.
pub open spec fn unvisited(universe: Set<Seq<char>>, visited: Seq<Seq<char>>) -> Set<Seq<char>> {
    universe.filter(|address: Seq<char>| !visited.contains(address))
}

/// The measure of the work left, read in lexicographic order: the
/// addresses of `universe` not yet visited, the pending addresses already
/// visited, and the pending addresses.
pub open spec fn work_left(frontier: Frontier, universe: Set<Seq<char>>) -> (nat, nat, nat) {
    (
        unvisited(universe, frontier.visited).len(),
        stale(frontier.pending, frontier.visited),
        frontier.pending.len(),
    )
}

/// The lexicographic order on measures.
pub open spec fn lower(a: (nat, nat, nat), b: (nat, nat, nat)) -> bool {
    ||| a.0 < b.0
    ||| a.0 == b.0 && a.1 < b.1
    ||| a.0 == b.0 && a.1 == b.1 && a.2 < b.2
}

proof fn lemma_stale_append(a: Seq<Seq<char>>, b: Seq<Seq<char>>, visited: Seq<Seq<char>>)
    ensures
        stale(a + b, visited) == stale(a, visited) + stale(b, visited),
    decreases b.len(),
{
    if b.len() == 0 {
        assert(a + b =~= a);
    } else {
        lemma_stale_append(a, b.drop_last(), visited);
        assert((a + b).drop_last() =~= a + b.drop_last());
        assert((a + b).last() == b.last());
    }
}

proof fn lemma_stale_none(pending: Seq<Seq<char>>, visited: Seq<Seq<char>>)
    requires
        forall|i: int| 0 <= i < pending.len() ==> !visited.contains(#[trigger] pending[i]),
    ensures
        stale(pending, visited) == 0,
    decreases pending.len(),
{
    if pending.len() > 0 {
        lemma_stale_none(pending.drop_last(), visited);
    }
}

/// Every link queued by a step is new: it is not among the visited
/// addresses.
pub proof fn lemma_queued_are_new(frontier: Frontier, targets: Seq<Option<Seq<char>>>)
    ensures
        forall|i: int|
            0 <= i < frontier.queued(targets).len() ==> {
                &&& !frontier.visited.contains(#[trigger] frontier.queued(targets)[i])
                &&& is_accepted(frontier.queued(targets)[i])
            },
{
    let current = frontier.pending.last();
    let found = admitted(current, targets, frontier.visited);
    lemma_admitted_sound(current, targets, frontier.visited);
    lemma_in_domain_only(current, found);
    let queued = frontier.queued(targets);
    assert forall|i: int| 0 <= i < queued.len() implies {
        &&& !frontier.visited.contains(#[trigger] queued[i])
        &&& is_accepted(queued[i])
    } by {
        if frontier.restrict_domain {
            let j = choose|j: int| 0 <= j < found.len() && found[j] == queued[i];
            assert(is_accepted(found[j]));
        } else {
            assert(queued[i] == found[i]);
        }
    }
}

/// Every step lowers the measure of the work left. Over a finite universe
/// of addresses that holds whatever becomes pending, the measure cannot be
/// lowered for ever, so the crawl ends: each step either visits an address
/// of the universe for the first time, or takes away a pending address that
/// was visited before and queues only new ones, or takes away a pending
/// address and queues nothing.
pub proof fn lemma_step_lowers_work(
    frontier: Frontier,
    targets: Seq<Option<Seq<char>>>,
    universe: Set<Seq<char>>,
)
    requires
        universe.finite(),
        frontier.pending.len() > 0,
        universe.contains(frontier.pending.last()),
    ensures
        lower(work_left(frontier.after_page(targets), universe), work_left(frontier, universe)),
        lower(work_left(frontier.after_failure(), universe), work_left(frontier, universe)),
{
    let current = frontier.pending.last();
    let rest = frontier.pending.drop_last();
    let queued = frontier.queued(targets);
    let after = frontier.after_page(targets);
    let left = unvisited(universe, frontier.visited);
    let left_after = unvisited(universe, after.visited);
    assert(frontier.pending =~= rest.push(current));
    assert(after.pending == rest + queued);
    // The failed step: the same addresses visited, one pending address fewer.
    assert(stale(rest, frontier.visited) <= stale(frontier.pending, frontier.visited));
    if frontier.visited.contains(current) {
        assert(after.visited == frontier.visited);
        lemma_queued_are_new(frontier, targets);
        lemma_stale_none(queued, frontier.visited);
        lemma_stale_append(rest, queued, frontier.visited);
        assert(stale(after.pending, after.visited) == stale(rest, frontier.visited));
        assert(stale(frontier.pending, frontier.visited) == stale(rest, frontier.visited) + 1);
    } else {
        assert(after.visited == frontier.visited.push(current));
        assert(after.visited[frontier.visited.len() as int] == current);
        assert(left.contains(current));
        assert forall|address: Seq<char>|
            left_after.contains(address) == left.remove(current).contains(address) by {
            if frontier.visited.contains(address) {
                let i = choose|i: int|
                    0 <= i < frontier.visited.len() && frontier.visited[i] == address;
                assert(after.visited[i] == address);
            }
            if after.visited.contains(address) && address != current {
                let i = choose|i: int| 0 <= i < after.visited.len() && after.visited[i] == address;
                assert(frontier.visited[i] == address);
            }
        }
        assert(left_after =~= left.remove(current));
        assert(left.finite());
        assert(left_after.len() == left.len() - 1);
    }
}

/// Every link that a page yields is what one of the page's link targets
/// resolves to.
pub proof fn lemma_admitted_from_targets(
    base: Seq<char>,
    targets: Seq<Option<Seq<char>>>,
    visited: Seq<Seq<char>>,
)
    ensures
        forall|i: int|
            0 <= i < admitted(base, targets, visited).len() ==> exists|j: int|
                0 <= j < targets.len() && candidate(base, #[trigger] targets[j]) == Some(
                    #[trigger] admitted(base, targets, visited)[i],
                ),
{
    let candidates = resolved(base, targets);
    let all = admitted(base, targets, visited);
    lemma_chosen_sound(candidates, visited);
    lemma_resolved_sound(base, targets);
    assert forall|i: int| 0 <= i < all.len() implies exists|j: int|
        0 <= j < targets.len() && candidate(base, #[trigger] targets[j]) == Some(
            #[trigger] all[i],
        ) by {
        let k = choose|k: int|
            0 <= k < candidates.len() && (#[trigger] candidates[k]).0 == all[i]
                && passes(candidates[k]);
        let j = choose|j: int|
            0 <= j < targets.len() && candidate(base, #[trigger] targets[j]) == Some(
                candidates[k].0,
            );
        assert(candidate(base, targets[j]) == Some(all[i]));
    }
}

/// A web as the crawl meets it: for each address whose page can be fetched
/// and is short enough to be read, the link targets on its page.
pub type Web = Map<Seq<char>, Seq<Option<Seq<char>>>>;

/// The link targets on the page at `address`; none where the page cannot
/// be fetched.
pub open spec fn page_of(web: Web, address: Seq<char>) -> Seq<Option<Seq<char>>> {
    if web.contains_key(address) {
        web[address]
    } else {
        Seq::empty()
    }
}

/// One whole step of the crawl over `web`: the next pending link is taken
/// off; where its page can be fetched and its address is an absolute URL,
/// the page is read, else the link is skipped.
pub open spec fn step(frontier: Frontier, web: Web) -> Frontier {
    let current = frontier.pending.last();
    if web.contains_key(current) && parsed_url(current) is Some {
        frontier.after_page(page_of(web, current))
    } else {
        frontier.after_failure()
    }
}

/// Whether `universe` is a finite set of addresses that the crawl over
/// `web` cannot leave: it holds every pending address, and every URL that a
/// link target on a page of one of its addresses resolves to.
pub open spec fn within(frontier: Frontier, web: Web, universe: Set<Seq<char>>) -> bool {
    &&& universe.finite()
    &&& forall|i: int|
        0 <= i < frontier.pending.len() ==> universe.contains(#[trigger] frontier.pending[i])
    &&& forall|address: Seq<char>, j: int|
        universe.contains(address) && web.contains_key(address) && 0 <= j < web[address].len()
            && candidate(address, #[trigger] web[address][j]) is Some ==> universe.contains(
            candidate(address, web[address][j])->0,
        )
}

/// A step does not leave the universe.
pub proof fn lemma_step_stays_within(frontier: Frontier, web: Web, universe: Set<Seq<char>>)
    requires
        within(frontier, web, universe),
        frontier.pending.len() > 0,
    ensures
        within(step(frontier, web), web, universe),
{
    let current = frontier.pending.last();
    assert(universe.contains(frontier.pending[frontier.pending.len() - 1]));
    let after = step(frontier, web);
    if web.contains_key(current) && parsed_url(current) is Some {
        let targets = web[current];
        let found = admitted(current, targets, frontier.visited);
        let queued = frontier.queued(targets);
        lemma_admitted_from_targets(current, targets, frontier.visited);
        lemma_in_domain_only(current, found);
        assert forall|i: int| 0 <= i < after.pending.len() implies universe.contains(
            #[trigger] after.pending[i],
        ) by {
            if i < frontier.pending.len() - 1 {
                assert(after.pending[i] == frontier.pending[i]);
            } else {
                let q = queued[i - (frontier.pending.len() - 1)];
                assert(after.pending[i] == q);
                assert(found.contains(q));
                let k = choose|k: int| 0 <= k < found.len() && found[k] == q;
                let j = choose|j: int|
                    0 <= j < targets.len() && candidate(current, #[trigger] targets[j]) == Some(
                        found[k],
                    );
                assert(candidate(current, web[current][j]) is Some);
            }
        }
    } else {
        assert forall|i: int| 0 <= i < after.pending.len() implies universe.contains(
            #[trigger] after.pending[i],
        ) by {
            assert(after.pending[i] == frontier.pending[i]);
        }
    }
}

/// The frontier at the end of the crawl over `web`: steps are taken until
/// no link is pending. Within a finite universe this is well founded, by the
/// measure of the work left.
pub open spec fn crawled(frontier: Frontier, web: Web, universe: Set<Seq<char>>) -> Frontier
    decreases
        unvisited(universe, frontier.visited).len(),
        stale(frontier.pending, frontier.visited),
        frontier.pending.len(),
    when within(frontier, web, universe)
    via crawled_decreases
{
    if frontier.pending.len() == 0 {
        frontier
    } else {
        crawled(step(frontier, web), web, universe)
    }
}

#[via_fn]
proof fn crawled_decreases(frontier: Frontier, web: Web, universe: Set<Seq<char>>) {
    if frontier.pending.len() > 0 {
        assert(universe.contains(frontier.pending[frontier.pending.len() - 1]));
        lemma_step_lowers_work(frontier, page_of(web, frontier.pending.last()), universe);
    }
}

/// The crawl ends: over a web that stays within a finite universe of
/// addresses, taking steps while a link is pending reaches a frontier with
/// no pending link, and nothing that was visited before is lost or moved.
pub proof fn lemma_crawl_ends(frontier: Frontier, web: Web, universe: Set<Seq<char>>)
    requires
        within(frontier, web, universe),
    ensures
        crawled(frontier, web, universe).pending.len() == 0,
        crawled(frontier, web, universe).restrict_domain == frontier.restrict_domain,
        frontier.visited.is_prefix_of(crawled(frontier, web, universe).visited),
    decreases
        unvisited(universe, frontier.visited).len(),
        stale(frontier.pending, frontier.visited),
        frontier.pending.len(),
{
    if frontier.pending.len() > 0 {
        assert(universe.contains(frontier.pending[frontier.pending.len() - 1]));
        lemma_step_lowers_work(frontier, page_of(web, frontier.pending.last()), universe);
        lemma_step_stays_within(frontier, web, universe);
        lemma_crawl_ends(step(frontier, web), web, universe);
    }
}

/// Domain restriction holds of the whole crawl: where it starts with
/// every pending and every visited address at `host`, every address it
/// visits is at `host`.
pub proof fn lemma_crawl_stays_in_domain(
    frontier: Frontier,
    web: Web,
    universe: Set<Seq<char>>,
    host: Option<Seq<char>>,
)
    requires
        within(frontier, web, universe),
        frontier.restrict_domain,
        confined(frontier, host),
        forall|i: int| 0 <= i < frontier.visited.len() ==> hosted_at(#[trigger] frontier.visited[i], host),
    ensures
        forall|i: int|
            0 <= i < crawled(frontier, web, universe).visited.len() ==> hosted_at(
                #[trigger] crawled(frontier, web, universe).visited[i],
                host,
            ),
    decreases
        unvisited(universe, frontier.visited).len(),
        stale(frontier.pending, frontier.visited),
        frontier.pending.len(),
{
    if frontier.pending.len() > 0 {
        let current = frontier.pending.last();
        assert(universe.contains(frontier.pending[frontier.pending.len() - 1]));
        assert(hosted_at(frontier.pending[frontier.pending.len() - 1], host));
        let targets = page_of(web, current);
        lemma_step_lowers_work(frontier, targets, universe);
        lemma_step_stays_within(frontier, web, universe);
        lemma_restriction_confines(frontier, targets, host);
        let after = step(frontier, web);
        assert forall|i: int| 0 <= i < after.visited.len() implies hosted_at(
            #[trigger] after.visited[i],
            host,
        ) by {
            if i < frontier.visited.len() {
                assert(after.visited[i] == frontier.visited[i]);
            } else {
                assert(after.visited[i] == current);
            }
        }
        assert(confined(after, host));
        assert(after.restrict_domain);
        lemma_crawl_stays_in_domain(after, web, universe, host);
        assert(crawled(frontier, web, universe) == crawled(after, web, universe));
    }
}

/// No address is visited twice: a crawl that starts with the visited
/// addresses free of repetition, as every new frontier does, ends with them
/// free of repetition.
pub proof fn lemma_crawl_visits_once(frontier: Frontier, web: Web, universe: Set<Seq<char>>)
    requires
        within(frontier, web, universe),
        frontier.visited.no_duplicates(),
    ensures
        crawled(frontier, web, universe).visited.no_duplicates(),
    decreases
        unvisited(universe, frontier.visited).len(),
        stale(frontier.pending, frontier.visited),
        frontier.pending.len(),
{
    if frontier.pending.len() > 0 {
        let targets = page_of(web, frontier.pending.last());
        let after = step(frontier, web);
        assert(universe.contains(frontier.pending[frontier.pending.len() - 1]));
        lemma_step_lowers_work(frontier, targets, universe);
        lemma_step_stays_within(frontier, web, universe);
        lemma_visit_keeps_distinct(frontier, targets);
        lemma_crawl_visits_once(after, web, universe);
        assert(crawled(frontier, web, universe) == crawled(after, web, universe));
    }
}

/// One call of `next_link` and one of `crawl` on the link it hands out make
/// one step of the model: taking the next link off and absorbing its page
/// is `after_page`.
pub proof fn lemma_pop_then_absorb_is_step(frontier: Frontier, targets: Seq<Option<Seq<char>>>)
    requires
        frontier.pending.len() > 0,
    ensures
        frontier.popped().absorbed(
            frontier.pending.last(),
            kept(
                frontier.restrict_domain,
                frontier.pending.last(),
                admitted(frontier.pending.last(), targets, frontier.popped().visited),
            ),
        ) == frontier.after_page(targets),
{
}

} // verus!
