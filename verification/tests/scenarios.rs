use ticket_search::error::StoreError;
use ticket_search::search::Search;
use ticket_search::search::SearchResult;
use ticket_search::store::TicketStore;
use ticket_search::tickets::Ticket;

const T: i32 = 1700000000;

fn ticket(id: &str, from: &str, to: &str, departure_time: i32, arrival_time: i32, price: i32) -> Ticket {
    Ticket {
        id: id.to_string(),
        departure_code: from.to_string(),
        arrival_code: to.to_string(),
        departure_time,
        arrival_time,
        price,
    }
}

fn search(store: &TicketStore, from: &str, to: &str, date: &str, limit: i32) -> Result<SearchResult, StoreError> {
    Search::search(store, from.to_string(), to.to_string(), date.to_string(), limit)
}

fn ids(result: &SearchResult, at: usize) -> Vec<&str> {
    result.solutions[at].ticket_ids.iter().map(|id| id.as_str()).collect()
}

#[test]
fn direct_ticket_is_found() {
    let mut store = TicketStore::new();
    Ticket::insert(&mut store, ticket("A1", "NYC", "LAX", 1700000000, 1700020000, 200)).unwrap();
    let result = search(&store, "NYC", "LAX", "2023-11-14", 5).unwrap();
    assert_eq!(result.solutions.len(), 1);
    assert_eq!(ids(&result, 0), vec!["A1"]);
    assert_eq!(result.solutions[0].price, 200);
    assert!(result.failures.is_empty());
}

#[test]
fn connection_shorter_than_three_hours_is_no_transfer() {
    let mut store = TicketStore::new();
    Ticket::insert(&mut store, ticket("A1", "NYC", "ORD", T, T + 7200, 100)).unwrap();
    Ticket::insert(&mut store, ticket("A2", "ORD", "LAX", T + 14400, T + 25000, 150)).unwrap();
    let result = search(&store, "NYC", "LAX", "2023-11-14", 5).unwrap();
    assert!(result.solutions.is_empty());
    assert!(result.failures.is_empty());
}

#[test]
fn transfer_within_the_window_is_found() {
    let mut store = TicketStore::new();
    Ticket::insert(&mut store, ticket("A1", "NYC", "ORD", T, T + 7200, 100)).unwrap();
    Ticket::insert(&mut store, ticket("A2", "ORD", "LAX", T + 7200 + 12000, T + 25000, 150)).unwrap();
    let result = search(&store, "NYC", "LAX", "2023-11-14", 5).unwrap();
    assert_eq!(result.solutions.len(), 1);
    assert_eq!(ids(&result, 0), vec!["A1", "A2"]);
    assert_eq!(result.solutions[0].price, 250);
}

#[test]
fn moving_a_departure_replaces_its_index_entry() {
    let mut store = TicketStore::new();
    Ticket::insert(&mut store, ticket("A1", "NYC", "ORD", T, T + 7200, 100)).unwrap();
    Ticket::insert(&mut store, ticket("A2", "ORD", "LAX", T + 14400, T + 25000, 150)).unwrap();
    Ticket::insert(&mut store, ticket("A2", "ORD", "LAX", T + 7200 + 12000, T + 25000, 150)).unwrap();
    assert_eq!(
        store.get_tickets_by_time("ORD", i64::MIN, i64::MAX),
        vec![(format!("LAX_{}", T + 25000), T + 19200)]
    );
    let result = search(&store, "NYC", "LAX", "2023-11-14", 5).unwrap();
    assert_eq!(result.solutions.len(), 1);
    assert_eq!(ids(&result, 0), vec!["A1", "A2"]);
    assert_eq!(result.solutions[0].price, 250);
}

#[test]
fn direct_and_cheaper_transfer_are_both_returned() {
    let mut store = TicketStore::new();
    Ticket::insert(&mut store, ticket("D1", "NYC", "LAX", T, T + 20000, 300)).unwrap();
    Ticket::insert(&mut store, ticket("A1", "NYC", "ORD", T + 60, T + 7200, 100)).unwrap();
    Ticket::insert(&mut store, ticket("A2", "ORD", "LAX", T + 19200, T + 25000, 150)).unwrap();
    let result = search(&store, "NYC", "LAX", "2023-11-14", 5).unwrap();
    assert_eq!(result.solutions.len(), 2);
    assert_eq!(result.solutions[0].price, 250);
    assert_eq!(ids(&result, 0), vec!["A1", "A2"]);
    assert_eq!(result.solutions[1].price, 300);
    assert_eq!(ids(&result, 1), vec!["D1"]);
}

#[test]
fn limit_zero_gives_no_solutions() {
    let mut store = TicketStore::new();
    Ticket::insert(&mut store, ticket("A1", "NYC", "LAX", T, T + 20000, 200)).unwrap();
    let result = search(&store, "NYC", "LAX", "2023-11-14", 0).unwrap();
    assert!(result.solutions.is_empty());
    let result = search(&store, "NYC", "LAX", "2023-11-14", -3).unwrap();
    assert!(result.solutions.is_empty());
}

#[test]
fn unparseable_date_is_invalid_input() {
    let mut store = TicketStore::new();
    Ticket::insert(&mut store, ticket("A1", "NYC", "LAX", T, T + 20000, 200)).unwrap();
    assert_eq!(search(&store, "NYC", "LAX", "13-99-9999", 5).err(), Some(StoreError::InvalidInput));
    assert_eq!(search(&store, "NYC", "LAX", "", 5).err(), Some(StoreError::InvalidInput));
    assert_eq!(search(&store, "NYC", "LAX", "2023-02-30", 5).err(), Some(StoreError::InvalidInput));
}

#[test]
fn connection_window_is_inclusive_on_both_ends() {
    let arrival = T + 7200;
    let cases = [
        (arrival + 10799, false),
        (arrival + 10800, true),
        (arrival + 10801, true),
        (arrival + 82799, true),
        (arrival + 82800, true),
        (arrival + 82801, false),
        (arrival, false),
        (arrival - 1, false),
    ];
    for (onward_departure, expected) in cases {
        let mut store = TicketStore::new();
        Ticket::insert(&mut store, ticket("A1", "NYC", "ORD", T, arrival, 100)).unwrap();
        Ticket::insert(&mut store, ticket("A2", "ORD", "LAX", onward_departure, onward_departure + 5000, 150)).unwrap();
        let result = search(&store, "NYC", "LAX", "2023-11-14", 5).unwrap();
        assert_eq!(result.solutions.len() == 1, expected, "{}", onward_departure - arrival);
        assert!(result.failures.is_empty());
    }
}

#[test]
fn day_window_is_inclusive_on_both_ends() {
    let midnight = 1699920000;
    for (departure, expected) in [
        (midnight - 1, false),
        (midnight, true),
        (midnight + 1, true),
        (midnight + 86399, true),
        (midnight + 86400, true),
        (midnight + 86401, false),
    ] {
        let mut store = TicketStore::new();
        Ticket::insert(&mut store, ticket("A1", "NYC", "LAX", departure, departure + 100, 1)).unwrap();
        let result = search(&store, "NYC", "LAX", "2023-11-14", 5).unwrap();
        assert_eq!(result.solutions.len() == 1, expected, "{}", departure - midnight);
    }
}

#[test]
fn direct_needs_the_exact_arrival_code() {
    let mut store = TicketStore::new();
    Ticket::insert(&mut store, ticket("A1", "NYC", "LAX", T, T + 100, 1)).unwrap();
    Ticket::insert(&mut store, ticket("A2", "NYC", "lax", T + 1, T + 100, 1)).unwrap();
    Ticket::insert(&mut store, ticket("A3", "NYC", "LAXX", T + 2, T + 100, 1)).unwrap();
    let result = search(&store, "NYC", "LAX", "2023-11-14", 5).unwrap();
    assert_eq!(result.solutions.len(), 1);
    assert_eq!(ids(&result, 0), vec!["A1"]);
    assert!(search(&store, "NYC", "LA", "2023-11-14", 5).unwrap().solutions.is_empty());
    assert!(search(&store, "nyc", "LAX", "2023-11-14", 5).unwrap().solutions.is_empty());
}

#[test]
fn no_itinerary_has_more_than_two_legs() {
    let mut store = TicketStore::new();
    Ticket::insert(&mut store, ticket("A1", "NYC", "ORD", T, T + 100, 1)).unwrap();
    Ticket::insert(&mut store, ticket("A2", "ORD", "DEN", T + 11000, T + 12000, 1)).unwrap();
    Ticket::insert(&mut store, ticket("A3", "DEN", "LAX", T + 23000, T + 24000, 1)).unwrap();
    let result = search(&store, "NYC", "LAX", "2023-11-14", 5).unwrap();
    assert!(result.solutions.is_empty());
    assert!(result.failures.is_empty());
}

#[test]
fn equal_prices_come_in_the_order_of_discovery() {
    let mut store = TicketStore::new();
    Ticket::insert(&mut store, ticket("late", "NYC", "LAX", T + 300, T + 400, 250)).unwrap();
    Ticket::insert(&mut store, ticket("in", "NYC", "ORD", T + 200, T + 7200, 100)).unwrap();
    Ticket::insert(&mut store, ticket("out-b", "ORD", "LAX", T + 30000, T + 40000, 150)).unwrap();
    Ticket::insert(&mut store, ticket("out-a", "ORD", "LAX", T + 20000, T + 35000, 150)).unwrap();
    Ticket::insert(&mut store, ticket("early", "NYC", "LAX", T + 100, T + 500, 250)).unwrap();
    let result = search(&store, "NYC", "LAX", "2023-11-14", 10).unwrap();
    assert_eq!(result.solutions.len(), 4);
    assert!(result.solutions.iter().all(|s| s.price == 250));
    assert_eq!(ids(&result, 0), vec!["early"]);
    assert_eq!(ids(&result, 1), vec!["in", "out-a"]);
    assert_eq!(ids(&result, 2), vec!["in", "out-b"]);
    assert_eq!(ids(&result, 3), vec!["late"]);
    let again = search(&store, "NYC", "LAX", "2023-11-14", 10).unwrap();
    for at in 0..4 {
        assert_eq!(ids(&again, at), ids(&result, at));
    }
    let cut = search(&store, "NYC", "LAX", "2023-11-14", 2).unwrap();
    assert_eq!(cut.solutions.len(), 2);
    assert_eq!(ids(&cut, 0), vec!["early"]);
    assert_eq!(ids(&cut, 1), vec!["in", "out-a"]);
}

#[test]
fn results_are_sorted_and_cut_to_the_limit() {
    let mut store = TicketStore::new();
    for (i, price) in [500, 100, 400, 200, 300].iter().enumerate() {
        Ticket::insert(&mut store, ticket(&format!("T{}", price), "NYC", "LAX", T + i as i32, T + 1000 + i as i32, *price)).unwrap();
    }
    let all = search(&store, "NYC", "LAX", "2023-11-14", 100).unwrap();
    assert_eq!(all.solutions.iter().map(|s| s.price).collect::<Vec<_>>(), vec![100, 200, 300, 400, 500]);
    let five = search(&store, "NYC", "LAX", "2023-11-14", 5).unwrap();
    assert_eq!(five.solutions.len(), 5);
    let three = search(&store, "NYC", "LAX", "2023-11-14", 3).unwrap();
    assert_eq!(three.solutions.iter().map(|s| s.price).collect::<Vec<_>>(), vec![100, 200, 300]);
    assert_eq!(ids(&three, 0), vec!["T100"]);
}

#[test]
fn itinerary_that_cannot_be_put_together_is_left_out_and_reported() {
    let mut store = TicketStore::new();
    Ticket::insert(&mut store, ticket("good", "NYC", "LAX", T, T + 100, 10)).unwrap();
    Ticket::insert(&mut store, ticket("bad", "NYC", "LAX", T + 1, T + 101, 5)).unwrap();
    Ticket::insert(&mut store, ticket("lost", "NYC", "LAX", T + 2, T + 102, 5)).unwrap();
    let mut fields = ticket("bad", "NYC", "LAX", T + 1, T + 101, 5).to_fields();
    fields[5].1 = "five".to_string();
    store.apply(ticket_search::store::StoreWrite::Record { key: "ticket_bad".to_string(), fields });
    store.apply(ticket_search::store::StoreWrite::Pointer { key: format!("LAX_{}", T + 2), id: "nowhere".to_string() });
    store.apply(ticket_search::store::StoreWrite::Departure { key: "times_NYC".to_string(), pointer: "garbled".to_string(), time: T + 3 });
    let result = search(&store, "NYC", "LAX", "2023-11-14", 5).unwrap();
    assert_eq!(result.solutions.len(), 1);
    assert_eq!(ids(&result, 0), vec!["good"]);
    assert_eq!(result.failures, vec![StoreError::InvalidInput, StoreError::NotFound, StoreError::InvalidInput]);
}

#[test]
fn transfer_with_a_missing_leg_is_reported() {
    let mut store = TicketStore::new();
    Ticket::insert(&mut store, ticket("A1", "NYC", "ORD", T, T + 7200, 100)).unwrap();
    Ticket::insert(&mut store, ticket("A2", "ORD", "LAX", T + 19200, T + 25000, 150)).unwrap();
    store.apply(ticket_search::store::StoreWrite::Pointer { key: format!("ORD_{}", T), id: "nowhere".to_string() });
    let result = search(&store, "NYC", "LAX", "2023-11-14", 5).unwrap();
    assert!(result.solutions.is_empty());
    assert_eq!(result.failures, vec![StoreError::NotFound]);
}

#[test]
fn request_is_answered_as_the_search_is() {
    let mut store = TicketStore::new();
    Ticket::insert(&mut store, ticket("A1", "NYC", "LAX", 1700000000, 1700020000, 200)).unwrap();
    let request = |date: &str, limit: i32| Search {
        departure_code: "NYC".to_string(),
        arrival_code: "LAX".to_string(),
        departure_date: date.to_string(),
        limit,
    };
    let result = ticket_search::handlers::search(request("2023-11-14", 5), &store).unwrap();
    assert_eq!(result.solutions.len(), 1);
    assert_eq!(result.solutions[0].price, 200);
    let result = ticket_search::handlers::search(request("2023-11-15", 5), &store).unwrap();
    assert!(result.solutions.is_empty());
    assert_eq!(
        ticket_search::handlers::search(request("13-99-9999", 5), &store).err(),
        Some(StoreError::InvalidInput)
    );
}

#[test]
fn search_from_a_time_looks_one_day_ahead() {
    let mut store = TicketStore::new();
    Ticket::insert(&mut store, ticket("A1", "NYC", "LAX", 1000, 2000, 7)).unwrap();
    assert_eq!(ticket_search::search::search_from(&store, "NYC", "LAX", 1000 - 86400, 5).solutions.len(), 1);
    assert_eq!(ticket_search::search::search_from(&store, "NYC", "LAX", 1000, 5).solutions.len(), 1);
    assert_eq!(ticket_search::search::search_from(&store, "NYC", "LAX", 1001, 5).solutions.len(), 0);
    assert_eq!(ticket_search::search::search_from(&store, "NYC", "LAX", 999 - 86400, 5).solutions.len(), 0);
    assert_eq!(ticket_search::search::search_from(&store, "NYC", "LAX", i64::MAX, 5).solutions.len(), 0);
    assert_eq!(ticket_search::search::search_from(&store, "NYC", "LAX", i64::MIN, 5).solutions.len(), 0);
    let outcomes = ticket_search::search::get_all_tickets(&store, "NYC", "LAX", 500);
    assert_eq!(outcomes.len(), 1);
    assert_eq!(outcomes[0].as_ref().unwrap()[0].id, "A1");
}
