//! From itineraries to ranked solutions: each itinerary's ids and total
//! price, the cheapest first, cut to a limit.

use vstd::prelude::*;
use crate::seqs::lemma_filter_is_stretch;
use crate::seqs::lemma_filter_none_or_all;
use crate::seqs::lemma_filter_places;
use crate::tickets::Ticket;
use crate::tickets::TicketView;

verus! {

/// One itinerary of a search result: the ids of its tickets in the order of
/// travel, and the sum of their prices.
#[derive(Debug)]
pub struct SearchResultSolution {
    pub ticket_ids: Vec<String>,
    pub price: i64,
}

pub struct SolutionView {
    pub ticket_ids: Seq<Seq<char>>,
    pub price: int,
}

impl View for SearchResultSolution {
    type V = SolutionView;

    open spec fn view(&self) -> SolutionView {
        SolutionView {
            ticket_ids: self.ticket_ids@.map_values(|id: String| id@),
            price: self.price as int,
        }
    }
}

pub open spec fn tickets_view(tickets: Seq<Ticket>) -> Seq<TicketView> {
    tickets.map_values(|t: Ticket| t@)
}

pub open spec fn groups_view(groups: Seq<Vec<Ticket>>) -> Seq<Seq<TicketView>> {
    groups.map_values(|g: Vec<Ticket>| tickets_view(g@))
}

pub open spec fn solutions_view(solutions: Seq<SearchResultSolution>) -> Seq<SolutionView> {
    solutions.map_values(|s: SearchResultSolution| s@)
}

/// The sum of the prices of `legs`.
pub open spec fn total_price(legs: Seq<TicketView>) -> int
    decreases legs.len(),
{
    if legs.len() == 0 {
        0
    } else {
        total_price(legs.drop_last()) + legs.last().price
    }
}

/// The solution that an itinerary makes.
pub open spec fn solution_of(legs: Seq<TicketView>) -> SolutionView {
    SolutionView { ticket_ids: legs.map_values(|t: TicketView| t.id), price: total_price(legs) }
}

/// Whether a solution costs `price` or less.
pub open spec fn no_dearer_than(price: int) -> spec_fn(SolutionView) -> bool {
    |s: SolutionView| s.price <= price
}

/// Whether a solution costs more than `price`.
pub open spec fn dearer_than(price: int) -> spec_fn(SolutionView) -> bool {
    |s: SolutionView| s.price > price
}

/// Whether a solution costs just `price`.
pub open spec fn has_price(price: int) -> spec_fn(SolutionView) -> bool {
    |s: SolutionView| s.price == price
}

/// `ranked` with `next` put behind every solution that is no dearer.
pub open spec fn placed(ranked: Seq<SolutionView>, next: SolutionView) -> Seq<SolutionView> {
    ranked.filter(no_dearer_than(next.price)).push(next) + ranked.filter(dearer_than(next.price))
}

/// The solutions by price, the cheapest first; those of one price in the
/// order in which they stand in `found`.
pub open spec fn ranked(found: Seq<SolutionView>) -> Seq<SolutionView>
    decreases found.len(),
{
    if found.len() == 0 {
        found
    } else {
        placed(ranked(found.drop_last()), found.last())
    }
}

/// The solutions stand in the order of their prices, the cheapest first.
pub open spec fn sorted_by_price(solutions: Seq<SolutionView>) -> bool {
    forall|i: int, j: int| 0 <= i <= j < solutions.len() ==> solutions[i].price <= solutions[j].price
}

/// How many of `count` solutions a limit lets through.
pub open spec fn allowed(limit: int, count: int) -> int {
    if limit <= 0 {
        0
    } else if limit < count {
        limit
    } else {
        count
    }
}

/// The solutions of the itineraries `found`, ranked, and of these the first
/// `limit` (all, where there are no more; none, where the limit is not
/// positive).
pub open spec fn shortlist(found: Seq<Seq<TicketView>>, limit: int) -> Seq<SolutionView> {
    let all = ranked(found.map_values(|legs: Seq<TicketView>| solution_of(legs)));
    all.take(allowed(limit, all.len() as int))
}

/// Placing a solution into a ranking by price keeps it one, and adds one.
pub proof fn lemma_placed(ranking: Seq<SolutionView>, next: SolutionView)
    requires
        sorted_by_price(ranking),
    ensures
        sorted_by_price(placed(ranking, next)),
        placed(ranking, next).len() == ranking.len() + 1,
{
    let low = no_dearer_than(next.price);
    let high = dearer_than(next.price);
    let a = lemma_filter_places(ranking, low);
    let b = lemma_filter_places(ranking, high);
    let before = ranking.filter(low);
    let after = ranking.filter(high);
    let all = placed(ranking, next);
    assert forall|i: int, j: int| 0 <= i <= j < all.len() implies all[i].price <= all[j].price by {
        if i < before.len() {
            assert(all[i] == ranking[a[i]]);
        } else if i > before.len() {
            assert(all[i] == ranking[b[i - before.len() - 1]]);
        }
        if j < before.len() {
            assert(all[j] == ranking[a[j]]);
        } else if j > before.len() {
            assert(all[j] == ranking[b[j - before.len() - 1]]);
        }
    }
    lemma_split_point(ranking, next.price);
}

/// In a ranking by price the solutions no dearer than `price` are a stretch
/// at its start, and the dearer ones are the rest.
pub proof fn lemma_split_point(ranking: Seq<SolutionView>, price: int) -> (k: int)
    requires
        sorted_by_price(ranking),
    ensures
        0 <= k <= ranking.len(),
        forall|i: int| 0 <= i < k ==> (#[trigger] ranking[i]).price <= price,
        forall|i: int| k <= i < ranking.len() ==> (#[trigger] ranking[i]).price > price,
        ranking.filter(no_dearer_than(price)) == ranking.take(k),
        ranking.filter(dearer_than(price)) == ranking.skip(k),
    decreases ranking.len(),
{
    let k = if ranking.len() == 0 {
        0
    } else if ranking.last().price <= price {
        ranking.len() as int
    } else {
        lemma_split_point(ranking.drop_last(), price)
    };
    assert forall|i: int| 0 <= i < k implies (#[trigger] ranking[i]).price <= price by {
        if ranking.len() > 0 && ranking.last().price <= price {
            assert(ranking[i].price <= ranking[ranking.len() - 1].price);
        } else {
            assert(ranking[i] == ranking.drop_last()[i]);
        }
    }
    assert forall|i: int| k <= i < ranking.len() implies (#[trigger] ranking[i]).price > price by {
        if i < ranking.len() - 1 {
            assert(ranking[i] == ranking.drop_last()[i]);
        }
    }
    lemma_filter_is_stretch(ranking, no_dearer_than(price), 0, k);
    lemma_filter_is_stretch(ranking, dearer_than(price), k, ranking.len() as int);
    k
}

/// A ranking is sorted by price and holds as many solutions as were found.
pub proof fn lemma_ranked(found: Seq<SolutionView>)
    ensures
        sorted_by_price(ranked(found)),
        ranked(found).len() == found.len(),
    decreases found.len(),
{
    if found.len() > 0 {
        lemma_ranked(found.drop_last());
        lemma_placed(ranked(found.drop_last()), found.last());
    }
}

/// A shortlist is sorted by price, the cheapest first, and holds as many
/// solutions as the limit lets through of those that were found: none for
/// a limit that is not positive, all for one that is not less than their
/// number.
pub proof fn lemma_shortlist(found: Seq<Seq<TicketView>>, limit: int)
    ensures
        sorted_by_price(shortlist(found, limit)),
        shortlist(found, limit).len() == allowed(limit, found.len() as int),
        limit <= 0 ==> shortlist(found, limit).len() == 0,
        limit >= found.len() ==> shortlist(found, limit).len() == found.len(),
        0 < limit < found.len() ==> shortlist(found, limit).len() == limit,
{
    lemma_ranked(found.map_values(|legs: Seq<TicketView>| solution_of(legs)));
}

/// The solution that an itinerary makes.
fn solution(legs: &Vec<Ticket>) -> (r: SearchResultSolution)
    requires
        legs.len() <= u32::MAX,
    ensures
        r@ == solution_of(tickets_view(legs@)),
{
    let ghost all = tickets_view(legs@);
    let mut price: i64 = 0;
    let mut ids: Vec<String> = Vec::new();
    let mut i: usize = 0;
    assert(all.take(0) =~= Seq::<TicketView>::empty());
    while i < legs.len()
        invariant
            i <= legs.len() <= u32::MAX,
            all == tickets_view(legs@),
            price == total_price(all.take(i as int)),
            -2147483648 * i <= price <= 2147483647 * i,
            ids@.map_values(|id: String| id@) == all.take(i as int).map_values(|t: TicketView| t.id),
        decreases legs.len() - i,
    {
        proof {
            let done = all.take(i + 1);
            assert(done.drop_last() =~= all.take(i as int));
            assert(done.last() == legs@[i as int]@);
        }
        price = price + legs[i].price as i64;
        let ghost prior = ids@;
        ids.push(legs[i].id.clone());
        assert(ids@.map_values(|id: String| id@) =~= prior.map_values(|id: String| id@).push(
            legs@[i as int].id@,
        ));
        assert(ids@.map_values(|id: String| id@) =~= all.take(i + 1).map_values(
            |t: TicketView| t.id,
        ));
        i = i + 1;
    }
    assert(all.take(legs.len() as int) =~= all);
    SearchResultSolution { ticket_ids: ids, price }
}

/// Puts `next` into a ranking, behind every solution that is no dearer.
fn place(ranking: &mut Vec<SearchResultSolution>, next: SearchResultSolution)
    requires
        sorted_by_price(solutions_view(old(ranking)@)),
    ensures
        solutions_view(final(ranking)@) == placed(solutions_view(old(ranking)@), next@),
        sorted_by_price(solutions_view(final(ranking)@)),
{
    let ghost before = solutions_view(ranking@);
    let mut at: usize = ranking.len();
    while at > 0 && ranking[at - 1].price > next.price
        invariant
            at <= ranking.len(),
            before == solutions_view(ranking@),
            forall|i: int| at <= i < ranking.len() ==> (#[trigger] before[i]).price > next.price,
        decreases at,
    {
        at = at - 1;
    }
    proof {
        let k = lemma_split_point(before, next@.price);
        if at > 0 {
            assert(before[at - 1].price <= next@.price);
        }
        if k < at {
            assert(before[k].price <= before[at - 1].price);
        }
        if at < k {
            assert(before[at as int].price > next@.price);
        }
        assert(k == at);
        lemma_placed(before, next@);
    }
    ranking.insert(at, next);
    assert(solutions_view(ranking@) =~= before.take(at as int).push(next@) + before.skip(
        at as int,
    ));
}

/// The solutions of the itineraries in `all_tickets`: each with the ids of
/// its tickets and the sum of their prices, the cheapest first, itineraries
/// of one price in the order in which they were given; of these the first
/// `limit`.
pub fn prepare_tickets(all_tickets: Vec<Vec<Ticket>>, limit: i32) -> (r: Vec<SearchResultSolution>)
    requires
        forall|i: int| 0 <= i < all_tickets.len() ==> (#[trigger] all_tickets[i]).len() <= u32::MAX,
    ensures
        solutions_view(r@) == shortlist(groups_view(all_tickets@), limit as int),
        sorted_by_price(solutions_view(r@)),
        r.len() == allowed(limit as int, all_tickets.len() as int),
{
    let ghost found = groups_view(all_tickets@).map_values(
        |legs: Seq<TicketView>| solution_of(legs),
    );
    let mut prepared: Vec<SearchResultSolution> = Vec::new();
    let mut i: usize = 0;
    assert(found.take(0) =~= Seq::<SolutionView>::empty());
    assert(solutions_view(prepared@) =~= Seq::<SolutionView>::empty());
    while i < all_tickets.len()
        invariant
            i <= all_tickets.len(),
            forall|k: int|
                0 <= k < all_tickets.len() ==> (#[trigger] all_tickets[k]).len() <= u32::MAX,
            found == groups_view(all_tickets@).map_values(
                |legs: Seq<TicketView>| solution_of(legs),
            ),
            solutions_view(prepared@) == ranked(found.take(i as int)),
            sorted_by_price(solutions_view(prepared@)),
        decreases all_tickets.len() - i,
    {
        let next = solution(&all_tickets[i]);
        proof {
            let done = found.take(i + 1);
            assert(done.drop_last() =~= found.take(i as int));
            assert(done.last() == next@);
        }
        place(&mut prepared, next);
        i = i + 1;
    }
    proof {
        assert(found.take(all_tickets.len() as int) =~= found);
        lemma_ranked(found);
        assert(solutions_view(prepared@).len() == prepared@.len());
    }
    if limit <= 0 {
        prepared.truncate(0);
    } else {
        prepared.truncate(limit as usize);
    }
    assert(solutions_view(prepared@) =~= shortlist(groups_view(all_tickets@), limit as int));
    proof {
        lemma_shortlist(groups_view(all_tickets@), limit as int);
    }
    prepared
}

/// What a filter keeps of a sequence with one more element in its midst.
proof fn lemma_filter_around(
    head: Seq<SolutionView>,
    next: SolutionView,
    tail: Seq<SolutionView>,
    keep: spec_fn(SolutionView) -> bool,
)
    ensures
        (head.push(next) + tail).filter(keep) == if keep(next) {
            head.filter(keep).push(next) + tail.filter(keep)
        } else {
            head.filter(keep) + tail.filter(keep)
        },
{
    Seq::filter_distributes_over_add(head.push(next), tail, keep);
    head.lemma_filter_push(next, keep);
}

/// Where no solution has the price, the filter by that price keeps none.
proof fn lemma_none_of_price(tail: Seq<SolutionView>, price: int)
    requires
        forall|i: int| 0 <= i < tail.len() ==> (#[trigger] tail[i]).price != price,
    ensures
        tail.filter(has_price(price)) == Seq::<SolutionView>::empty(),
{
    lemma_filter_is_stretch(tail, has_price(price), 0, 0);
    assert(tail.subrange(0, 0) =~= Seq::<SolutionView>::empty());
}

/// No solution that is dearer than a price has that price.
proof fn lemma_all_dearer(ranking: Seq<SolutionView>, price: int)
    ensures
        forall|i: int|
            0 <= i < ranking.filter(dearer_than(price)).len() ==> (#[trigger] ranking.filter(
                dearer_than(price),
            )[i]).price != price,
{
    let at = lemma_filter_places(ranking, dearer_than(price));
}

/// Of a ranking by price, what a filter keeps is what it keeps of the
/// solutions no dearer than `bound`, then what it keeps of the dearer ones.
proof fn lemma_filter_halves(
    ranking: Seq<SolutionView>,
    bound: int,
    keep: spec_fn(SolutionView) -> bool,
)
    requires
        sorted_by_price(ranking),
    ensures
        ranking.filter(keep) == ranking.filter(no_dearer_than(bound)).filter(keep)
            + ranking.filter(dearer_than(bound)).filter(keep),
    decreases ranking.len(),
{
    let low = no_dearer_than(bound);
    let high = dearer_than(bound);
    if ranking.len() == 0 {
        lemma_filter_none_or_all(ranking, keep);
        lemma_filter_none_or_all(ranking, low);
        lemma_filter_none_or_all(ranking, high);
        assert(ranking.filter(keep) =~= ranking.filter(low).filter(keep) + ranking.filter(
            high,
        ).filter(keep));
    } else {
        let rest = ranking.drop_last();
        let last = ranking.last();
        assert(ranking =~= rest.push(last));
        lemma_filter_halves(rest, bound, keep);
        rest.lemma_filter_push(last, keep);
        rest.lemma_filter_push(last, low);
        rest.lemma_filter_push(last, high);
        if last.price > bound {
            rest.filter(high).lemma_filter_push(last, keep);
            assert(ranking.filter(keep) =~= ranking.filter(low).filter(keep) + ranking.filter(
                high,
            ).filter(keep));
        } else {
            assert forall|i: int| 0 <= i < rest.len() implies !high(#[trigger] rest[i]) by {
                assert(rest[i] == ranking[i]);
                assert(ranking[i].price <= ranking[ranking.len() - 1].price);
            }
            lemma_filter_none_or_all(rest, high);
            lemma_filter_none_or_all(rest.filter(high), keep);
            rest.filter(low).lemma_filter_push(last, keep);
            assert(ranking.filter(keep) =~= ranking.filter(low).filter(keep) + ranking.filter(
                high,
            ).filter(keep));
        }
    }
}

/// Placing a solution leaves the solutions of each price in their order,
/// the new one behind those of its own price.
pub proof fn lemma_placed_keeps_order(ranking: Seq<SolutionView>, next: SolutionView, price: int)
    requires
        sorted_by_price(ranking),
    ensures
        placed(ranking, next).filter(has_price(price)) == if next.price == price {
            ranking.filter(has_price(price)).push(next)
        } else {
            ranking.filter(has_price(price))
        },
{
    let same = has_price(price);
    let head = ranking.filter(no_dearer_than(next.price));
    let tail = ranking.filter(dearer_than(next.price));
    lemma_filter_halves(ranking, next.price, same);
    lemma_filter_around(head, next, tail, same);
    if next.price == price {
        lemma_all_dearer(ranking, price);
        lemma_none_of_price(tail, price);
        assert(head.filter(same).push(next) + Seq::<SolutionView>::empty() =~= (head.filter(same)
            + Seq::<SolutionView>::empty()).push(next));
    }
}

/// Solutions of one price keep the order in which they were found.
pub proof fn lemma_ranked_keeps_order(found: Seq<SolutionView>, price: int)
    ensures
        ranked(found).filter(has_price(price)) == found.filter(has_price(price)),
    decreases found.len(),
{
    if found.len() > 0 {
        let rest = found.drop_last();
        let last = found.last();
        lemma_ranked_keeps_order(rest, price);
        lemma_ranked(rest);
        lemma_placed_keeps_order(ranked(rest), last, price);
        assert(found =~= rest.push(last));
        rest.lemma_filter_push(last, has_price(price));
    }
}

/// In a shortlist, the solutions of one price stand in the order in which
/// their itineraries were found: they are the first of that price among
/// the solutions of the itineraries found.
pub proof fn lemma_shortlist_keeps_order(found: Seq<Seq<TicketView>>, limit: int, price: int)
    ensures
        shortlist(found, limit).filter(has_price(price)) == found.map_values(
            |legs: Seq<TicketView>| solution_of(legs),
        ).filter(has_price(price)).take(
            shortlist(found, limit).filter(has_price(price)).len() as int,
        ),
{
    let solutions = found.map_values(|legs: Seq<TicketView>| solution_of(legs));
    let all = ranked(solutions);
    let k = allowed(limit, all.len() as int);
    let same = has_price(price);
    lemma_ranked(solutions);
    lemma_ranked_keeps_order(solutions, price);
    assert(all =~= all.take(k) + all.skip(k));
    Seq::filter_distributes_over_add(all.take(k), all.skip(k), same);
    let kept = all.take(k).filter(same);
    assert((kept + all.skip(k).filter(same)).take(kept.len() as int) =~= kept);
}

} // verus!
