//! The search: from a departure code, an arrival code and a date to the
//! cheapest itineraries, direct or with one transfer.

use vstd::prelude::*;
use crate::date::get_timestamp_from_str;
use crate::date::midnight;
use crate::error::StoreError;
use crate::index::departs_within;
use crate::index::entries_view;
use crate::keys::arrival_data_spec;
use crate::keys::times_key_spec;
use crate::plan::legs_view;
use crate::plan::lemma_direct_plan;
use crate::plan::lemma_two_leg_plan;
use crate::plan::lists_view;
use crate::plan::onward_at;
use crate::plan::origin_query;
use crate::plan::origin_window;
use crate::plan::plan_tickets;
use crate::plan::plan_view;
use crate::plan::plans;
use crate::plan::plans_view;
use crate::plan::transfer_queries;
use crate::plan::transfer_window;
use crate::plan::window_view;
use crate::plan::Leg;
use crate::plan::LegView;
use crate::plan::Window;
use crate::plan::WindowView;
use crate::plan::DAY;
use crate::plan::MAX_CONNECTION;
use crate::plan::MIN_CONNECTION;
use crate::ranking::allowed;
use crate::ranking::groups_view;
use crate::ranking::prepare_tickets;
use crate::ranking::shortlist;
use crate::ranking::solutions_view;
use crate::ranking::sorted_by_price;
use crate::ranking::tickets_view;
use crate::ranking::SearchResultSolution;
use crate::ranking::SolutionView;
use crate::seqs::lemma_filter_places;
use crate::store::StoreView;
use crate::store::TicketStore;
use crate::tickets::Ticket;
use crate::tickets::TicketView;

verus! {

/// A search request.
#[derive(Debug)]
pub struct Search {
    pub departure_code: String,
    pub arrival_code: String,
    /// The day of departure, as `YYYY-MM-DD`.
    pub departure_date: String,
    pub limit: i32,
}

/// What a search found.
#[derive(Debug)]
pub struct SearchResult {
    /// The itineraries, the cheapest first.
    pub solutions: Vec<SearchResultSolution>,
    /// The error of each itinerary that was found in the indices and could
    /// not be put together, in the order in which they were found.
    pub failures: Vec<StoreError>,
}

/// A search result as sequences.
pub struct SearchResultView {
    pub solutions: Seq<SolutionView>,
    pub failures: Seq<StoreError>,
}

impl View for SearchResult {
    type V = SearchResultView;

    open spec fn view(&self) -> SearchResultView {
        SearchResultView { solutions: solutions_view(self.solutions@), failures: self.failures@ }
    }
}

/// What became of one plan: its tickets in the order of travel, or the
/// error that kept it from being put together.
pub open spec fn outcome_view(outcome: Result<Vec<Ticket>, StoreError>) -> Result<
    Seq<TicketView>,
    StoreError,
> {
    match outcome {
        Ok(tickets) => Ok(tickets_view(tickets@)),
        Err(e) => Err(e),
    }
}

/// What became of each plan.
pub open spec fn outcomes_view(outcomes: Seq<Result<Vec<Ticket>, StoreError>>) -> Seq<
    Result<Seq<TicketView>, StoreError>,
> {
    outcomes.map_values(|o: Result<Vec<Ticket>, StoreError>| outcome_view(o))
}

/// The itineraries among the outcomes, in their order.
pub open spec fn itineraries(outcomes: Seq<Result<Seq<TicketView>, StoreError>>) -> Seq<
    Seq<TicketView>,
>
    decreases outcomes.len(),
{
    if outcomes.len() == 0 {
        Seq::empty()
    } else {
        match outcomes.last() {
            Ok(tickets) => itineraries(outcomes.drop_last()).push(tickets),
            Err(_) => itineraries(outcomes.drop_last()),
        }
    }
}

/// The errors among the outcomes, in their order.
pub open spec fn errors(outcomes: Seq<Result<Seq<TicketView>, StoreError>>) -> Seq<StoreError>
    decreases outcomes.len(),
{
    if outcomes.len() == 0 {
        Seq::empty()
    } else {
        match outcomes.last() {
            Ok(_) => errors(outcomes.drop_last()),
            Err(e) => errors(outcomes.drop_last()).push(e),
        }
    }
}

/// The result that the outcomes make: the solutions of the itineraries,
/// ranked and cut to the limit, and the errors.
pub open spec fn concluded(outcomes: Seq<Result<Seq<TicketView>, StoreError>>, limit: int) -> SearchResultView {
    SearchResultView {
        solutions: shortlist(itineraries(outcomes), limit),
        failures: errors(outcomes),
    }
}

impl StoreView {
    /// The tickets of the legs, in their order; the error of the first leg
    /// that cannot be fetched.
    pub open spec fn legs(self, legs: Seq<LegView>) -> Result<Seq<TicketView>, StoreError>
        decreases legs.len(),
    {
        if legs.len() == 0 {
            Ok(Seq::empty())
        } else {
            match self.legs(legs.drop_last()) {
                Ok(tickets) => match self.ticket_by_time(
                    legs.last().arrival_code,
                    legs.last().departure_time,
                ) {
                    Ok(ticket) => Ok(tickets.push(ticket)),
                    Err(e) => Err(e),
                },
                Err(e) => Err(e),
            }
        }
    }

    /// What becomes of a plan in this store.
    pub open spec fn itinerary(self, plan: Result<Seq<LegView>, StoreError>) -> Result<
        Seq<TicketView>,
        StoreError,
    > {
        match plan {
            Ok(legs) => self.legs(legs),
            Err(e) => Err(e),
        }
    }

    /// What a window holds in this store.
    pub open spec fn read(self, window: Option<WindowView>) -> Seq<(Seq<char>, int)> {
        match window {
            Some(w) => self.tickets_by_time(w.departure_code, w.start, w.end),
            None => Seq::empty(),
        }
    }

    /// The departures within a day from `departure_time`.
    pub open spec fn origin(self, departure_code: Seq<char>, departure_time: int) -> Seq<
        (Seq<char>, int),
    > {
        self.read(Some(origin_window(departure_code, departure_time)))
    }

    /// For each departure of the origin's window, the onward departures.
    pub open spec fn onward(self, arrival_code: Seq<char>, origin: Seq<(Seq<char>, int)>) -> Seq<
        Seq<(Seq<char>, int)>,
    > {
        Seq::new(origin.len(), |i: int| self.read(transfer_window(arrival_code, origin[i])))
    }

    /// The plans of a search in this store, in the order in which they are
    /// found.
    pub open spec fn plans(
        self,
        departure_code: Seq<char>,
        arrival_code: Seq<char>,
        departure_time: int,
    ) -> Seq<Result<Seq<LegView>, StoreError>> {
        let origin = self.origin(departure_code, departure_time);
        plans(arrival_code, origin, self.onward(arrival_code, origin), origin.len() as int)
    }

    /// What becomes of each plan of a search in this store.
    pub open spec fn all_tickets(
        self,
        departure_code: Seq<char>,
        arrival_code: Seq<char>,
        departure_time: int,
    ) -> Seq<Result<Seq<TicketView>, StoreError>> {
        self.plans(departure_code, arrival_code, departure_time).map_values(
            |plan: Result<Seq<LegView>, StoreError>| self.itinerary(plan),
        )
    }
}

/// The result of a search in `store` for the itineraries that leave within
/// a day from `departure_time`.
pub open spec fn found(
    store: StoreView,
    departure_code: Seq<char>,
    arrival_code: Seq<char>,
    departure_time: int,
    limit: int,
) -> SearchResultView {
    concluded(store.all_tickets(departure_code, arrival_code, departure_time), limit)
}

impl TicketStore {
    /// Reads a window of a time index.
    pub fn read(&self, window: &Window) -> (entries: Vec<(String, i32)>)
        requires
            self.wf(),
        ensures
            entries_view(entries@) == self@.read(Some(window@)),
    {
        self.get_tickets_by_time(window.departure_code.as_str(), window.start, window.end)
    }

    /// Fetches the tickets of a plan, leg by leg, up to the first that
    /// cannot be fetched.
    pub fn itinerary(&self, plan: &Result<Vec<Leg>, StoreError>) -> (outcome: Result<
        Vec<Ticket>,
        StoreError,
    >)
        ensures
            outcome_view(outcome) == self@.itinerary(plan_view(*plan)),
            outcome matches Ok(tickets) ==> plan matches Ok(legs) && tickets.len() == legs.len(),
    {
        match plan {
            Ok(legs) => {
                let ghost all = legs_view(legs@);
                let mut tickets: Vec<Ticket> = Vec::new();
                let mut i: usize = 0;
                assert(all.take(0) =~= Seq::<LegView>::empty());
                assert(tickets_view(tickets@) =~= Seq::<TicketView>::empty());
                while i < legs.len()
                    invariant
                        i <= legs.len(),
                        tickets.len() == i,
                        all == legs_view(legs@),
                        plan_view(*plan) == Ok::<Seq<LegView>, StoreError>(all),
                        self@.legs(all.take(i as int)) == Ok::<Seq<TicketView>, StoreError>(
                            tickets_view(tickets@),
                        ),
                    decreases legs.len() - i,
                {
                    proof {
                        let done = all.take(i + 1);
                        assert(done.drop_last() =~= all.take(i as int));
                        assert(done.last() == legs@[i as int]@);
                    }
                    let ghost before = tickets_view(tickets@);
                    match self.get_ticket_by_time(legs[i].arrival_code.as_str(), legs[i].departure_time) {
                        Ok(ticket) => {
                            tickets.push(ticket);
                            assert(tickets_view(tickets@) =~= before.push(ticket@));
                        },
                        Err(e) => {
                            proof {
                                assert(self@.legs(all.take(i + 1)) == Err::<
                                    Seq<TicketView>,
                                    StoreError,
                                >(e));
                                lemma_legs_fail(self@, all, i as int + 1);
                            }
                            return Err(e);
                        },
                    }
                    i = i + 1;
                }
                assert(all.take(legs.len() as int) =~= all);
                Ok(tickets)
            },
            Err(e) => Err(*e),
        }
    }
}

/// Once a leg cannot be fetched, the legs behind it do not matter.
pub proof fn lemma_legs_fail(store: StoreView, legs: Seq<LegView>, count: int)
    requires
        0 <= count <= legs.len(),
        store.legs(legs.take(count)) is Err,
    ensures
        store.legs(legs) == store.legs(legs.take(count)),
    decreases legs.len() - count,
{
    if count == legs.len() {
        assert(legs.take(count) =~= legs);
    } else {
        let next = legs.take(count + 1);
        assert(next.drop_last() =~= legs.take(count));
        lemma_legs_fail(store, legs, count + 1);
    }
}

/// What becomes of each plan of a search in `store`: in the order in which
/// the plans are found, the tickets of each itinerary, or the error that
/// kept it from being put together.
pub fn get_all_tickets(
    store: &TicketStore,
    departure_code: &str,
    arrival_code: &str,
    departure_time: i64,
) -> (tickets: Vec<Result<Vec<Ticket>, StoreError>>)
    requires
        store.wf(),
    ensures
        outcomes_view(tickets@) == store@.all_tickets(
            departure_code@,
            arrival_code@,
            departure_time as int,
        ),
        forall|i: int|
            0 <= i < tickets.len() ==> ((#[trigger] tickets[i]) matches Ok(legs) ==> legs.len()
                <= u32::MAX),
{
    let direct_tickets = store.read(&origin_query(departure_code, departure_time));
    let ghost origin = entries_view(direct_tickets@);
    let windows = transfer_queries(arrival_code, &direct_tickets);
    let mut onward: Vec<Vec<(String, i32)>> = Vec::new();
    let mut i: usize = 0;
    while i < windows.len()
        invariant
            store.wf(),
            i <= windows.len() == direct_tickets.len(),
            onward.len() == i,
            origin == entries_view(direct_tickets@),
            forall|k: int|
                0 <= k < windows.len() ==> window_view(#[trigger] windows[k]) == transfer_window(
                    arrival_code@,
                    origin[k],
                ),
            forall|k: int|
                0 <= k < i ==> entries_view((#[trigger] onward[k])@) == store@.read(
                    transfer_window(arrival_code@, origin[k]),
                ),
        decreases windows.len() - i,
    {
        let read = match &windows[i] {
            Some(window) => store.read(window),
            None => {
                let none: Vec<(String, i32)> = Vec::new();
                assert(entries_view(none@) =~= Seq::<(Seq<char>, int)>::empty());
                none
            },
        };
        onward.push(read);
        i = i + 1;
    }
    assert(lists_view(onward@) =~= store@.onward(arrival_code@, origin));
    let planned = plan_tickets(arrival_code, &direct_tickets, &onward);
    let ghost all = plans_view(planned@);
    assert(all == store@.plans(departure_code@, arrival_code@, departure_time as int));
    let mut tickets: Vec<Result<Vec<Ticket>, StoreError>> = Vec::new();
    let mut k: usize = 0;
    while k < planned.len()
        invariant
            k <= planned.len(),
            tickets.len() == k,
            all == plans_view(planned@),
            forall|j: int|
                0 <= j < planned.len() ==> ((#[trigger] planned[j]) matches Ok(legs) ==> 1
                    <= legs.len() <= 2),
            forall|j: int|
                0 <= j < k ==> outcome_view(#[trigger] tickets[j]) == store@.itinerary(all[j]),
            forall|j: int|
                0 <= j < k ==> ((#[trigger] tickets[j]) matches Ok(legs) ==> legs.len()
                    <= u32::MAX),
        decreases planned.len() - k,
    {
        let outcome = store.itinerary(&planned[k]);
        tickets.push(outcome);
        k = k + 1;
    }
    assert(outcomes_view(tickets@) =~= store@.all_tickets(
        departure_code@,
        arrival_code@,
        departure_time as int,
    ));
    tickets
}

/// The result that the outcomes of the plans make: the solutions of the
/// itineraries, the cheapest first and those of one price in the order in
/// which they were found, of these the first `limit`; and the errors of
/// the plans that gave no itinerary.
pub fn conclude(outcomes: Vec<Result<Vec<Ticket>, StoreError>>, limit: i32) -> (result: SearchResult)
    requires
        forall|i: int|
            0 <= i < outcomes.len() ==> ((#[trigger] outcomes[i]) matches Ok(legs) ==> legs.len()
                <= u32::MAX),
    ensures
        result@ == concluded(outcomes_view(outcomes@), limit as int),
        sorted_by_price(result@.solutions),
        result.solutions.len() == allowed(
            limit as int,
            itineraries(outcomes_view(outcomes@)).len() as int,
        ),
{
    let ghost all = outcomes_view(outcomes@);
    let mut all_tickets: Vec<Vec<Ticket>> = Vec::new();
    let mut failures: Vec<StoreError> = Vec::new();
    assert(all.take(0) =~= Seq::<Result<Seq<TicketView>, StoreError>>::empty());
    assert(groups_view(all_tickets@) =~= Seq::<Seq<TicketView>>::empty());
    for outcome in it: outcomes.into_iter()
        invariant
            it.seq() == outcomes@,
            all == outcomes_view(outcomes@),
            forall|i: int|
                0 <= i < outcomes.len() ==> ((#[trigger] outcomes[i]) matches Ok(legs)
                    ==> legs.len() <= u32::MAX),
            groups_view(all_tickets@) == itineraries(all.take(it.index() as int)),
            failures@ == errors(all.take(it.index() as int)),
            forall|i: int|
                0 <= i < all_tickets.len() ==> (#[trigger] all_tickets[i]).len() <= u32::MAX,
    {
        proof {
            let done = all.take(it.index() + 1);
            assert(done.drop_last() =~= all.take(it.index() as int));
            assert(done.last() == outcome_view(outcome));
            assert(outcome == outcomes[it.index() as int]);
        }
        let ghost before = groups_view(all_tickets@);
        match outcome {
            Ok(tickets) => {
                all_tickets.push(tickets);
                assert(groups_view(all_tickets@) =~= before.push(
                    tickets_view(tickets@),
                ));
            },
            Err(e) => {
                failures.push(e);
            },
        }
    }
    assert(all.take(outcomes@.len() as int) =~= all);
    assert(groups_view(all_tickets@).len() == all_tickets.len());
    SearchResult { solutions: prepare_tickets(all_tickets, limit), failures }
}

/// Searches `store` for the itineraries from `departure_code` to
/// `arrival_code` that leave within a day from `departure_time`.
pub fn search_from(
    store: &TicketStore,
    departure_code: &str,
    arrival_code: &str,
    departure_time: i64,
    limit: i32,
) -> (result: SearchResult)
    requires
        store.wf(),
    ensures
        result@ == found(store@, departure_code@, arrival_code@, departure_time as int, limit as int),
        sorted_by_price(result@.solutions),
        result.solutions.len() == allowed(
            limit as int,
            itineraries(
                store@.all_tickets(departure_code@, arrival_code@, departure_time as int),
            ).len() as int,
        ),
{
    let all_tickets = get_all_tickets(store, departure_code, arrival_code, departure_time);
    conclude(all_tickets, limit)
}

impl Search {
    /// Searches `store` for the itineraries from `departure_code` to
    /// `arrival_code` that leave on the day `departure_date`:
    /// `InvalidInput` where that is no date, else the result for the day
    /// that starts at its midnight in UTC.
    pub fn search(
        store: &TicketStore,
        departure_code: String,
        arrival_code: String,
        departure_date: String,
        limit: i32,
    ) -> (r: Result<SearchResult, StoreError>)
        requires
            store.wf(),
        ensures
            match r {
                Ok(result) => midnight(departure_date@) matches Some(seconds) && result@ == found(
                    store@,
                    departure_code@,
                    arrival_code@,
                    seconds as int,
                    limit as int,
                ),
                Err(e) => e == StoreError::InvalidInput && midnight(departure_date@) is None,
            },
    {
        match get_timestamp_from_str(departure_date.as_str()) {
            Ok(departure_time) => Ok(
                search_from(
                    store,
                    departure_code.as_str(),
                    arrival_code.as_str(),
                    departure_time,
                    limit,
                ),
            ),
            Err(e) => Err(e),
        }
    }
}

/// What a window holds departs within the window.
pub proof fn lemma_read_within(store: StoreView, window: WindowView, j: int)
    requires
        0 <= j < store.read(Some(window)).len(),
    ensures
        window.start <= store.read(Some(window))[j].1 <= window.end,
{
    let at = lemma_filter_places(
        store.index(times_key_spec(window.departure_code)),
        departs_within(window.start, window.end),
    );
    assert(departs_within(window.start, window.end)(store.read(Some(window))[j]));
}

/// An itinerary of one ticket is only planned for a departure of the
/// origin's window whose pointer names the arrival code of the search: the
/// plan's one leg goes to that code and leaves when that departure leaves,
/// within a day from `departure_time`. The departure is returned.
pub proof fn lemma_direct_itinerary(
    store: StoreView,
    departure_code: Seq<char>,
    arrival_code: Seq<char>,
    departure_time: int,
    k: int,
) -> (entry: (Seq<char>, int))
    requires
        0 <= k < store.plans(departure_code, arrival_code, departure_time).len(),
        store.plans(departure_code, arrival_code, departure_time)[k] matches Ok(legs) && legs.len()
            == 1,
    ensures
        store.origin(departure_code, departure_time).contains(entry),
        departure_time <= entry.1 <= departure_time + DAY,
        arrival_data_spec(entry.0) matches Ok(data) && data.arrival_code == arrival_code,
        store.plans(departure_code, arrival_code, departure_time)[k] == Ok::<
            Seq<LegView>,
            StoreError,
        >(seq![LegView { arrival_code, departure_time: entry.1 }]),
{
    let origin = store.origin(departure_code, departure_time);
    let i = lemma_direct_plan(
        arrival_code,
        origin,
        store.onward(arrival_code, origin),
        origin.len() as int,
        k,
    );
    lemma_read_within(store, origin_window(departure_code, departure_time), i);
    origin[i]
}

/// An itinerary of two tickets is only planned for a departure of the
/// origin's window that arrives at a stop other than the arrival code of
/// the search, and an onward departure from that stop whose pointer names
/// the arrival code and which leaves no less than `MIN_CONNECTION` and no
/// more than `MAX_CONNECTION` after the arrival at the stop. The first leg
/// goes to the stop and leaves when the first departure leaves; the second
/// goes to the arrival code and leaves when the onward departure leaves.
/// The two departures are returned.
pub proof fn lemma_transfer_itinerary(
    store: StoreView,
    departure_code: Seq<char>,
    arrival_code: Seq<char>,
    departure_time: int,
    k: int,
) -> (entries: ((Seq<char>, int), (Seq<char>, int)))
    requires
        0 <= k < store.plans(departure_code, arrival_code, departure_time).len(),
        store.plans(departure_code, arrival_code, departure_time)[k] matches Ok(legs) && legs.len()
            == 2,
    ensures
        store.origin(departure_code, departure_time).contains(entries.0),
        departure_time <= entries.0.1 <= departure_time + DAY,
        arrival_data_spec(entries.0.0) matches Ok(stop) && stop.arrival_code != arrival_code
            && store.tickets_by_time(
            stop.arrival_code,
            stop.arrival_time + MIN_CONNECTION,
            stop.arrival_time + MAX_CONNECTION,
        ).contains(entries.1) && stop.arrival_time + MIN_CONNECTION <= entries.1.1
            <= stop.arrival_time + MAX_CONNECTION && store.plans(
            departure_code,
            arrival_code,
            departure_time,
        )[k] == Ok::<Seq<LegView>, StoreError>(
            seq![
                LegView { arrival_code: stop.arrival_code, departure_time: entries.0.1 },
                LegView { arrival_code, departure_time: entries.1.1 },
            ],
        ),
        arrival_data_spec(entries.1.0) matches Ok(data) && data.arrival_code == arrival_code,
{
    let origin = store.origin(departure_code, departure_time);
    let onward = store.onward(arrival_code, origin);
    let at = lemma_two_leg_plan(arrival_code, origin, onward, origin.len() as int, k);
    lemma_read_within(store, origin_window(departure_code, departure_time), at.0);
    let window = transfer_window(arrival_code, origin[at.0])->Some_0;
    assert(onward_at(onward, at.0) == store.read(Some(window)));
    lemma_read_within(store, window, at.1);
    (origin[at.0], onward[at.0][at.1])
}

} // verus!
