//! The two requests that the service answers, on a store held in memory:
//! storing a batch of tickets, and searching.

use vstd::prelude::*;
use crate::error::StoreError;
use crate::ranking::tickets_view;
use crate::search::found;
use crate::date::midnight;
use crate::search::Search;
use crate::search::SearchResult;
use crate::store::TicketStore;
use crate::tickets::Ticket;
use crate::tickets::Tickets;

verus! {

/// Stores the tickets of a batch, one after the other.
pub fn create(tickets: Tickets, store: &mut TicketStore)
    requires
        old(store).wf(),
    ensures
        final(store).wf(),
        final(store)@ == old(store)@.insert_all(tickets_view(tickets.tickets@)),
{
    let batch = tickets.tickets;
    let ghost all = tickets_view(batch@);
    assert(all.take(0) =~= Seq::empty());
    for ticket in it: batch.into_iter()
        invariant
            store.wf(),
            it.seq() == batch@,
            all == tickets_view(batch@),
            store@ == old(store)@.insert_all(all.take(it.index() as int)),
    {
        proof {
            let done = all.take(it.index() + 1);
            assert(done.drop_last() =~= all.take(it.index() as int));
            assert(done.last() == ticket@);
        }
        let _ = Ticket::insert(store, ticket);
    }
    assert(all.take(batch@.len() as int) =~= all);
}

/// Answers a search request: `InvalidInput` where its date is no date,
/// else what the store holds for the day that starts at the date's
/// midnight in UTC.
pub fn search(request: Search, store: &TicketStore) -> (r: Result<SearchResult, StoreError>)
    requires
        store.wf(),
    ensures
        match r {
            Ok(result) => midnight(request.departure_date@) matches Some(seconds) && result@
                == found(
                store@,
                request.departure_code@,
                request.arrival_code@,
                seconds as int,
                request.limit as int,
            ),
            Err(e) => e == StoreError::InvalidInput && midnight(request.departure_date@) is None,
        },
{
    Search::search(
        store,
        request.departure_code,
        request.arrival_code,
        request.departure_date,
        request.limit,
    )
}

} // verus!
