//! What a search finds in a store that was filled by inserting tickets:
//! each itinerary is made of tickets that were inserted, and they connect;
//! and every ticket to the destination, and every connection, is found.

use vstd::prelude::*;
use crate::error::StoreError;
use crate::index::departs_within;
use crate::keys::arrival_data_spec;
use crate::keys::lemma_arrival_data_of_pointer;
use crate::keys::lemma_code_and_time_injective;
use crate::keys::times_key_spec;
use crate::plan::lemma_direct_is_planned;
use crate::plan::lemma_transfer_is_planned;
use crate::plan::onward_at;
use crate::plan::origin_window;
use crate::plan::transfer_window;
use crate::plan::LegView;
use crate::plan::DAY;
use crate::plan::MAX_CONNECTION;
use crate::plan::MIN_CONNECTION;
use crate::search::lemma_direct_itinerary;
use crate::search::lemma_transfer_itinerary;
use crate::seqs::lemma_filter_contains;
use crate::store::entry_of;
use crate::store::in_index;
use crate::store::lemma_index_after_inserts;
use crate::store::lemma_tickets_by_time_after_inserts;
use crate::store::lemma_ticket_by_time_after_inserts;
use crate::store::StoreView;
use crate::tickets::TicketView;

verus! {

/// Tickets that do not stand in each other's way: no two have the same id,
/// no two arrive at the same code having left at the same time, and no
/// arrival code holds an underscore.
pub open spec fn unambiguous(tickets: Seq<TicketView>) -> bool {
    &&& forall|i: int|
        0 <= i < tickets.len() ==> (#[trigger] tickets[i]).in_range()
            && !tickets[i].arrival_code.contains('_')
    &&& forall|i: int, j: int|
        0 <= i < j < tickets.len() ==> (#[trigger] tickets[i]).id != (#[trigger] tickets[j]).id
    &&& forall|i: int, j: int|
        0 <= i < j < tickets.len() ==> !((#[trigger] tickets[i]).arrival_code
            == (#[trigger] tickets[j]).arrival_code && tickets[i].departure_time
            == tickets[j].departure_time)
}

/// As many tickets are fetched as there are legs.
pub proof fn lemma_legs_len(store: StoreView, legs: Seq<LegView>)
    ensures
        store.legs(legs) matches Ok(tickets) ==> tickets.len() == legs.len(),
    decreases legs.len(),
{
    if legs.len() > 0 {
        lemma_legs_len(store, legs.drop_last());
    }
}

/// A departure that a window of a store of inserted tickets holds is the
/// entry of one of the tickets, which leaves from the window's code within
/// the window. The place of the ticket is returned.
proof fn lemma_departure_is_a_ticket(
    tickets: Seq<TicketView>,
    departure_code: Seq<char>,
    start: int,
    end: int,
    entry: (Seq<char>, int),
) -> (i: int)
    requires
        unambiguous(tickets),
        StoreView::empty().insert_all(tickets).tickets_by_time(departure_code, start, end).contains(
            entry,
        ),
    ensures
        0 <= i < tickets.len(),
        entry == entry_of(tickets[i]),
        tickets[i].departure_code == departure_code,
        start <= tickets[i].departure_time <= end,
        arrival_data_spec(entry.0) matches Ok(data) && data.arrival_code == tickets[i].arrival_code
            && data.arrival_time == tickets[i].arrival_time,
{
    let store = StoreView::empty().insert_all(tickets);
    lemma_filter_contains(
        store.index(times_key_spec(departure_code)),
        departs_within(start, end),
        entry,
    );
    lemma_index_after_inserts(tickets, departure_code, entry);
    let i = choose|i: int| in_index(tickets, departure_code, i) && entry == entry_of(tickets[i]);
    lemma_arrival_data_of_pointer(tickets[i].arrival_code, tickets[i].arrival_time as i32);
    i
}

/// In a store of unambiguous tickets, an itinerary of one ticket is a
/// ticket that was inserted: it leaves from the departure code of the
/// search within a day from `departure_time`, and arrives at the arrival
/// code of the search. The place of the ticket is returned.
pub proof fn lemma_direct_is_a_ticket(
    tickets: Seq<TicketView>,
    departure_code: Seq<char>,
    arrival_code: Seq<char>,
    departure_time: int,
    k: int,
) -> (i: int)
    requires
        unambiguous(tickets),
        0 <= k < StoreView::empty().insert_all(tickets).all_tickets(
            departure_code,
            arrival_code,
            departure_time,
        ).len(),
        StoreView::empty().insert_all(tickets).all_tickets(
            departure_code,
            arrival_code,
            departure_time,
        )[k] matches Ok(found) && found.len() == 1,
    ensures
        0 <= i < tickets.len(),
        StoreView::empty().insert_all(tickets).all_tickets(
            departure_code,
            arrival_code,
            departure_time,
        )[k] == Ok::<Seq<TicketView>, StoreError>(seq![tickets[i]]),
        tickets[i].departure_code == departure_code,
        tickets[i].arrival_code == arrival_code,
        departure_time <= tickets[i].departure_time <= departure_time + DAY,
{
    let store = StoreView::empty().insert_all(tickets);
    let plan = store.plans(departure_code, arrival_code, departure_time)[k];
    let legs = plan->Ok_0;
    lemma_legs_len(store, legs);
    let entry = lemma_direct_itinerary(store, departure_code, arrival_code, departure_time, k);
    let window = origin_window(departure_code, departure_time);
    let i = lemma_departure_is_a_ticket(tickets, departure_code, window.start, window.end, entry);
    lemma_ticket_by_time_after_inserts(StoreView::empty(), tickets, i);
    assert(legs.drop_last() =~= Seq::<LegView>::empty());
    assert(store.legs(legs.drop_last()) == Ok::<Seq<TicketView>, StoreError>(Seq::empty()));
    assert(Seq::<TicketView>::empty().push(tickets[i]) =~= seq![tickets[i]]);
    i
}

/// In a store of unambiguous tickets, an itinerary of two tickets is two
/// tickets that were inserted: the first leaves from the departure code of
/// the search within a day from `departure_time`; the second leaves from
/// where the first arrives, which is not the arrival code of the search,
/// no less than `MIN_CONNECTION` and no more than `MAX_CONNECTION` after
/// the first arrives, and arrives at the arrival code of the search. The
/// places of the two tickets are returned.
pub proof fn lemma_transfer_is_two_tickets(
    tickets: Seq<TicketView>,
    departure_code: Seq<char>,
    arrival_code: Seq<char>,
    departure_time: int,
    k: int,
) -> (at: (int, int))
    requires
        unambiguous(tickets),
        0 <= k < StoreView::empty().insert_all(tickets).all_tickets(
            departure_code,
            arrival_code,
            departure_time,
        ).len(),
        StoreView::empty().insert_all(tickets).all_tickets(
            departure_code,
            arrival_code,
            departure_time,
        )[k] matches Ok(found) && found.len() == 2,
    ensures
        0 <= at.0 < tickets.len(),
        0 <= at.1 < tickets.len(),
        StoreView::empty().insert_all(tickets).all_tickets(
            departure_code,
            arrival_code,
            departure_time,
        )[k] == Ok::<Seq<TicketView>, StoreError>(seq![tickets[at.0], tickets[at.1]]),
        tickets[at.0].departure_code == departure_code,
        departure_time <= tickets[at.0].departure_time <= departure_time + DAY,
        tickets[at.0].arrival_code != arrival_code,
        tickets[at.1].departure_code == tickets[at.0].arrival_code,
        tickets[at.1].arrival_code == arrival_code,
        tickets[at.0].arrival_time + MIN_CONNECTION <= tickets[at.1].departure_time
            <= tickets[at.0].arrival_time + MAX_CONNECTION,
{
    let store = StoreView::empty().insert_all(tickets);
    let plan = store.plans(departure_code, arrival_code, departure_time)[k];
    let legs = plan->Ok_0;
    lemma_legs_len(store, legs);
    let entries = lemma_transfer_itinerary(store, departure_code, arrival_code, departure_time, k);
    let window = origin_window(departure_code, departure_time);
    let i = lemma_departure_is_a_ticket(
        tickets,
        departure_code,
        window.start,
        window.end,
        entries.0,
    );
    let stop = arrival_data_spec(entries.0.0)->Ok_0;
    let j = lemma_departure_is_a_ticket(
        tickets,
        stop.arrival_code,
        stop.arrival_time + MIN_CONNECTION,
        stop.arrival_time + MAX_CONNECTION,
        entries.1,
    );
    lemma_ticket_by_time_after_inserts(StoreView::empty(), tickets, i);
    lemma_ticket_by_time_after_inserts(StoreView::empty(), tickets, j);
    let one = legs.drop_last();
    assert(one.drop_last() =~= Seq::<LegView>::empty());
    assert(store.legs(one.drop_last()) == Ok::<Seq<TicketView>, StoreError>(Seq::empty()));
    assert(Seq::<TicketView>::empty().push(tickets[i]) =~= seq![tickets[i]]);
    assert(store.legs(one) == Ok::<Seq<TicketView>, StoreError>(seq![tickets[i]]));
    assert(seq![tickets[i]].push(tickets[j]) =~= seq![tickets[i], tickets[j]]);
    (i, j)
}

/// Tickets none of which takes another's place in a time index: no two
/// leave from the same code and arrive at the same code at the same time.
pub open spec fn distinct_entries(tickets: Seq<TicketView>) -> bool {
    forall|i: int, j: int|
        0 <= i < j < tickets.len() ==> !((#[trigger] tickets[i]).departure_code
            == (#[trigger] tickets[j]).departure_code && tickets[i].arrival_code
            == tickets[j].arrival_code && tickets[i].arrival_time == tickets[j].arrival_time)
}

/// A ticket that leaves from a code within a window stands in that window
/// of a store of inserted tickets, with a pointer that reads as its arrival
/// code and time. Its place in the window is returned.
proof fn lemma_ticket_is_a_departure(tickets: Seq<TicketView>, start: int, end: int, i: int) -> (m:
    int)
    requires
        unambiguous(tickets),
        distinct_entries(tickets),
        0 <= i < tickets.len(),
        start <= tickets[i].departure_time <= end,
    ensures
        0 <= m < StoreView::empty().insert_all(tickets).tickets_by_time(
            tickets[i].departure_code,
            start,
            end,
        ).len(),
        StoreView::empty().insert_all(tickets).tickets_by_time(
            tickets[i].departure_code,
            start,
            end,
        )[m] == entry_of(tickets[i]),
        arrival_data_spec(entry_of(tickets[i]).0) matches Ok(data) && data.arrival_code
            == tickets[i].arrival_code && data.arrival_time == tickets[i].arrival_time,
{
    let code = tickets[i].departure_code;
    let held = StoreView::empty().insert_all(tickets).tickets_by_time(code, start, end);
    assert(in_index(tickets, code, i)) by {
        assert forall|j: int|
            i < j < tickets.len() && tickets[j].departure_code == code implies entry_of(
            #[trigger] tickets[j],
        ).0 != entry_of(tickets[i]).0 by {
            lemma_code_and_time_injective(
                tickets[j].arrival_code,
                tickets[j].arrival_time,
                tickets[i].arrival_code,
                tickets[i].arrival_time,
            );
        }
    }
    lemma_tickets_by_time_after_inserts(tickets, code, start, end, entry_of(tickets[i]));
    lemma_arrival_data_of_pointer(tickets[i].arrival_code, tickets[i].arrival_time as i32);
    choose|m: int| 0 <= m < held.len() && held[m] == entry_of(tickets[i])
}

/// In a store of unambiguous tickets with distinct entries, every ticket
/// that leaves from the departure code of the search within a day from
/// `departure_time` and arrives at its arrival code is found as an
/// itinerary of its own. The place of the itinerary is returned.
pub proof fn lemma_ticket_is_found(
    tickets: Seq<TicketView>,
    departure_code: Seq<char>,
    arrival_code: Seq<char>,
    departure_time: int,
    i: int,
) -> (k: int)
    requires
        unambiguous(tickets),
        distinct_entries(tickets),
        0 <= i < tickets.len(),
        tickets[i].departure_code == departure_code,
        tickets[i].arrival_code == arrival_code,
        departure_time <= tickets[i].departure_time <= departure_time + DAY,
    ensures
        0 <= k < StoreView::empty().insert_all(tickets).all_tickets(
            departure_code,
            arrival_code,
            departure_time,
        ).len(),
        StoreView::empty().insert_all(tickets).all_tickets(
            departure_code,
            arrival_code,
            departure_time,
        )[k] == Ok::<Seq<TicketView>, StoreError>(seq![tickets[i]]),
{
    let store = StoreView::empty().insert_all(tickets);
    let window = origin_window(departure_code, departure_time);
    let origin = store.origin(departure_code, departure_time);
    let m = lemma_ticket_is_a_departure(tickets, window.start, window.end, i);
    let k = lemma_direct_is_planned(
        arrival_code,
        origin,
        store.onward(arrival_code, origin),
        origin.len() as int,
        m,
    );
    lemma_ticket_by_time_after_inserts(StoreView::empty(), tickets, i);
    let legs = seq![
        LegView { arrival_code, departure_time: tickets[i].departure_time },
    ];
    assert(legs.drop_last() =~= Seq::<LegView>::empty());
    assert(store.legs(legs.drop_last()) == Ok::<Seq<TicketView>, StoreError>(Seq::empty()));
    assert(Seq::<TicketView>::empty().push(tickets[i]) =~= seq![tickets[i]]);
    k
}

/// In a store of unambiguous tickets with distinct entries, every pair of
/// tickets that connects is found as an itinerary: the first leaves from
/// the departure code of the search within a day from `departure_time` and
/// arrives elsewhere than at its arrival code; the second leaves from
/// there, no less than `MIN_CONNECTION` and no more than `MAX_CONNECTION`
/// after the first arrives, and arrives at the arrival code. The place of
/// the itinerary is returned.
pub proof fn lemma_connection_is_found(
    tickets: Seq<TicketView>,
    departure_code: Seq<char>,
    arrival_code: Seq<char>,
    departure_time: int,
    i: int,
    j: int,
) -> (k: int)
    requires
        unambiguous(tickets),
        distinct_entries(tickets),
        0 <= i < tickets.len(),
        0 <= j < tickets.len(),
        tickets[i].departure_code == departure_code,
        departure_time <= tickets[i].departure_time <= departure_time + DAY,
        tickets[i].arrival_code != arrival_code,
        tickets[j].departure_code == tickets[i].arrival_code,
        tickets[j].arrival_code == arrival_code,
        tickets[i].arrival_time + MIN_CONNECTION <= tickets[j].departure_time
            <= tickets[i].arrival_time + MAX_CONNECTION,
    ensures
        0 <= k < StoreView::empty().insert_all(tickets).all_tickets(
            departure_code,
            arrival_code,
            departure_time,
        ).len(),
        StoreView::empty().insert_all(tickets).all_tickets(
            departure_code,
            arrival_code,
            departure_time,
        )[k] == Ok::<Seq<TicketView>, StoreError>(seq![tickets[i], tickets[j]]),
{
    let store = StoreView::empty().insert_all(tickets);
    let window = origin_window(departure_code, departure_time);
    let origin = store.origin(departure_code, departure_time);
    let onward = store.onward(arrival_code, origin);
    let m = lemma_ticket_is_a_departure(tickets, window.start, window.end, i);
    let n = lemma_ticket_is_a_departure(
        tickets,
        tickets[i].arrival_time + MIN_CONNECTION,
        tickets[i].arrival_time + MAX_CONNECTION,
        j,
    );
    assert(onward_at(onward, m) == store.read(transfer_window(arrival_code, origin[m])));
    let k = lemma_transfer_is_planned(arrival_code, origin, onward, origin.len() as int, m, n);
    lemma_ticket_by_time_after_inserts(StoreView::empty(), tickets, i);
    lemma_ticket_by_time_after_inserts(StoreView::empty(), tickets, j);
    let legs = seq![
        LegView { arrival_code: tickets[i].arrival_code, departure_time: tickets[i].departure_time },
        LegView { arrival_code, departure_time: tickets[j].departure_time },
    ];
    let one = legs.drop_last();
    assert(one.drop_last() =~= Seq::<LegView>::empty());
    assert(store.legs(one.drop_last()) == Ok::<Seq<TicketView>, StoreError>(Seq::empty()));
    assert(Seq::<TicketView>::empty().push(tickets[i]) =~= seq![tickets[i]]);
    assert(store.legs(one) == Ok::<Seq<TicketView>, StoreError>(seq![tickets[i]]));
    assert(seq![tickets[i]].push(tickets[j]) =~= seq![tickets[i], tickets[j]]);
    k
}

} // verus!
