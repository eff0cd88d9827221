use ticket_search::error::StoreError;
use ticket_search::ranking::prepare_tickets;
use ticket_search::ranking::SearchResultSolution;
use ticket_search::search::conclude;
use ticket_search::tickets::Ticket;

fn priced(id: &str, price: i32) -> Ticket {
    Ticket {
        id: id.to_string(),
        departure_code: "X".to_string(),
        arrival_code: "Y".to_string(),
        departure_time: 0,
        arrival_time: 1,
        price,
    }
}

fn summary(solutions: &[SearchResultSolution]) -> Vec<(Vec<&str>, i64)> {
    solutions.iter().map(|s| (s.ticket_ids.iter().map(|id| id.as_str()).collect(), s.price)).collect()
}

#[test]
fn solution_sums_prices_and_keeps_the_order_of_travel() {
    let result = prepare_tickets(vec![vec![priced("A1", 100), priced("A2", 150)]], 5);
    assert_eq!(summary(&result), vec![(vec!["A1", "A2"], 250)]);
}

#[test]
fn sum_of_two_large_prices_does_not_wrap() {
    let result = prepare_tickets(vec![vec![priced("a", i32::MAX), priced("b", i32::MAX)]], 1);
    assert_eq!(result[0].price, 4294967294);
    let result = prepare_tickets(vec![vec![priced("a", i32::MIN), priced("b", i32::MIN)]], 1);
    assert_eq!(result[0].price, -4294967296);
}

#[test]
fn itinerary_without_tickets_costs_nothing() {
    let result = prepare_tickets(vec![vec![], vec![priced("a", 1)]], 5);
    assert_eq!(summary(&result), vec![(vec![], 0), (vec!["a"], 1)]);
}

#[test]
fn solutions_are_sorted_by_price() {
    let found = vec![
        vec![priced("e", 50)],
        vec![priced("a", 10)],
        vec![priced("d", 20), priced("d2", 20)],
        vec![priced("c", 30)],
        vec![priced("b", 20)],
    ];
    let result = prepare_tickets(found, 10);
    assert_eq!(
        summary(&result),
        vec![(vec!["a"], 10), (vec!["b"], 20), (vec!["c"], 30), (vec!["d", "d2"], 40), (vec!["e"], 50)]
    );
}

#[test]
fn equal_prices_keep_the_order_in_which_they_were_found() {
    let found = vec![
        vec![priced("first", 20)],
        vec![priced("cheap", 5)],
        vec![priced("second", 10), priced("second-b", 10)],
        vec![priced("third", 20)],
        vec![priced("dear", 90)],
        vec![priced("fourth", 15), priced("fourth-b", 5)],
    ];
    let result = prepare_tickets(found, 10);
    assert_eq!(
        summary(&result),
        vec![
            (vec!["cheap"], 5),
            (vec!["first"], 20),
            (vec!["second", "second-b"], 20),
            (vec!["third"], 20),
            (vec!["fourth", "fourth-b"], 20),
            (vec!["dear"], 90),
        ]
    );
}

#[test]
fn limit_cuts_the_ranking() {
    let found = || vec![vec![priced("c", 3)], vec![priced("a", 1)], vec![priced("b", 2)]];
    assert_eq!(prepare_tickets(found(), -1).len(), 0);
    assert_eq!(prepare_tickets(found(), i32::MIN).len(), 0);
    assert_eq!(prepare_tickets(found(), 0).len(), 0);
    assert_eq!(summary(&prepare_tickets(found(), 1)), vec![(vec!["a"], 1)]);
    assert_eq!(summary(&prepare_tickets(found(), 2)), vec![(vec!["a"], 1), (vec!["b"], 2)]);
    assert_eq!(prepare_tickets(found(), 3).len(), 3);
    assert_eq!(prepare_tickets(found(), 4).len(), 3);
    assert_eq!(prepare_tickets(found(), i32::MAX).len(), 3);
    assert_eq!(prepare_tickets(Vec::new(), 5).len(), 0);
}

#[test]
fn failed_itineraries_are_reported_beside_the_solutions() {
    let outcomes = vec![
        Err(StoreError::NotFound),
        Ok(vec![priced("b", 7)]),
        Err(StoreError::InvalidInput),
        Ok(vec![priced("a", 3)]),
        Err(StoreError::StoreUnavailable),
    ];
    let result = conclude(outcomes, 1);
    assert_eq!(summary(&result.solutions), vec![(vec!["a"], 3)]);
    assert_eq!(
        result.failures,
        vec![StoreError::NotFound, StoreError::InvalidInput, StoreError::StoreUnavailable]
    );
}
