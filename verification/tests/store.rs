use ticket_search::error::StoreError;
use ticket_search::handlers::create;
use ticket_search::store::StoreWrite;
use ticket_search::store::TicketStore;
use ticket_search::tickets::Ticket;
use ticket_search::tickets::Tickets;

fn leg(id: &str, from: &str, to: &str, departure_time: i32, arrival_time: i32, price: i32) -> Ticket {
    Ticket {
        id: id.to_string(),
        departure_code: from.to_string(),
        arrival_code: to.to_string(),
        departure_time,
        arrival_time,
        price,
    }
}

fn same(a: &Ticket, b: &Ticket) -> bool {
    a.id == b.id
        && a.departure_code == b.departure_code
        && a.arrival_code == b.arrival_code
        && a.departure_time == b.departure_time
        && a.arrival_time == b.arrival_time
        && a.price == b.price
}

fn entry(to: &str, arrival_time: i32, departure_time: i32) -> (String, i32) {
    (format!("{}_{}", to, arrival_time), departure_time)
}

#[test]
fn empty_store_holds_nothing() {
    let store = TicketStore::new();
    assert!(store.get_tickets_by_time("NYC", i64::MIN, i64::MAX).is_empty());
    assert_eq!(store.get_ticket_by_id("A1").err(), Some(StoreError::NotFound));
    assert_eq!(store.get_ticket_by_time("LAX", 5).err(), Some(StoreError::NotFound));
}

#[test]
fn inserted_ticket_is_found_by_id() {
    let mut store = TicketStore::new();
    let tickets = vec![
        leg("A1", "NYC", "LAX", 100, 200, 30),
        leg("A2", "NYC", "ORD", 110, 150, 10),
        leg("", "", "", i32::MIN, i32::MAX, -1),
        leg("ticket_A1", "times_NYC", "LAX_100", 0, 0, 0),
    ];
    for t in &tickets {
        assert_eq!(Ticket::insert(&mut store, t.clone()), Ok(()));
    }
    for t in &tickets {
        assert!(same(&store.get_ticket_by_id(&t.id).unwrap(), t));
    }
    assert_eq!(store.get_ticket_by_id("A3").err(), Some(StoreError::NotFound));
}

#[test]
fn later_ticket_of_the_same_id_replaces_the_record() {
    let mut store = TicketStore::new();
    Ticket::insert(&mut store, leg("A1", "NYC", "LAX", 100, 200, 30)).unwrap();
    Ticket::insert(&mut store, leg("A1", "BOS", "SFO", 300, 400, 50)).unwrap();
    assert!(same(&store.get_ticket_by_id("A1").unwrap(), &leg("A1", "BOS", "SFO", 300, 400, 50)));
}

#[test]
fn inserted_ticket_is_found_by_arrival_and_time() {
    let mut store = TicketStore::new();
    Ticket::insert(&mut store, leg("A1", "NYC", "LAX", 100, 200, 30)).unwrap();
    Ticket::insert(&mut store, leg("A2", "NYC", "LAX", 101, 200, 31)).unwrap();
    assert!(same(&store.get_ticket_by_time("LAX", 100).unwrap(), &leg("A1", "NYC", "LAX", 100, 200, 30)));
    assert!(same(&store.get_ticket_by_time("LAX", 101).unwrap(), &leg("A2", "NYC", "LAX", 101, 200, 31)));
    assert_eq!(store.get_ticket_by_time("LAX", 102).err(), Some(StoreError::NotFound));
    assert_eq!(store.get_ticket_by_time("NYC", 100).err(), Some(StoreError::NotFound));
}

#[test]
fn departure_pointer_names_the_last_ticket_written() {
    let mut store = TicketStore::new();
    Ticket::insert(&mut store, leg("A1", "NYC", "LAX", 100, 200, 30)).unwrap();
    Ticket::insert(&mut store, leg("B1", "BOS", "LAX", 100, 250, 40)).unwrap();
    assert!(same(&store.get_ticket_by_time("LAX", 100).unwrap(), &leg("B1", "BOS", "LAX", 100, 250, 40)));
}

#[test]
fn window_is_inclusive_on_both_ends() {
    let mut store = TicketStore::new();
    for (i, t) in [99, 100, 101, 150, 199, 200, 201].iter().enumerate() {
        Ticket::insert(&mut store, leg(&format!("T{}", i), "NYC", "LAX", *t, 1000 + *t, 1)).unwrap();
    }
    Ticket::insert(&mut store, leg("other", "BOS", "LAX", 150, 900, 1)).unwrap();
    assert_eq!(
        store.get_tickets_by_time("NYC", 100, 200),
        vec![
            entry("LAX", 1100, 100),
            entry("LAX", 1101, 101),
            entry("LAX", 1150, 150),
            entry("LAX", 1199, 199),
            entry("LAX", 1200, 200),
        ]
    );
    assert_eq!(store.get_tickets_by_time("NYC", 150, 150), vec![entry("LAX", 1150, 150)]);
    assert!(store.get_tickets_by_time("NYC", 102, 149).is_empty());
    assert!(store.get_tickets_by_time("NYC", 200, 100).is_empty());
    assert!(store.get_tickets_by_time("NYC", 202, i64::MAX).is_empty());
    assert!(store.get_tickets_by_time("NYC", i64::MIN, 98).is_empty());
    assert_eq!(store.get_tickets_by_time("NYC", i64::MIN, i64::MAX).len(), 7);
    assert_eq!(store.get_tickets_by_time("BOS", 100, 200), vec![entry("LAX", 900, 150)]);
    assert!(store.get_tickets_by_time("LAX", 100, 200).is_empty());
}

#[test]
fn index_is_kept_by_departure_time_whatever_the_order_of_insertion() {
    let mut store = TicketStore::new();
    Ticket::insert(&mut store, leg("c", "NYC", "C", 300, 1, 1)).unwrap();
    Ticket::insert(&mut store, leg("a", "NYC", "A", 100, 2, 1)).unwrap();
    Ticket::insert(&mut store, leg("b", "NYC", "B", 200, 3, 1)).unwrap();
    Ticket::insert(&mut store, leg("b2", "NYC", "B2", 200, 4, 1)).unwrap();
    Ticket::insert(&mut store, leg("a0", "NYC", "A0", 100, 5, 1)).unwrap();
    assert_eq!(
        store.get_tickets_by_time("NYC", 0, 1000),
        vec![entry("A", 2, 100), entry("A0", 5, 100), entry("B", 3, 200), entry("B2", 4, 200), entry("C", 1, 300)]
    );
}

#[test]
fn same_arrival_pointer_stands_once_in_an_index() {
    let mut store = TicketStore::new();
    Ticket::insert(&mut store, leg("a", "NYC", "LAX", 100, 500, 1)).unwrap();
    Ticket::insert(&mut store, leg("b", "NYC", "ORD", 150, 500, 1)).unwrap();
    Ticket::insert(&mut store, leg("c", "NYC", "LAX", 200, 500, 1)).unwrap();
    assert_eq!(store.get_tickets_by_time("NYC", 0, 1000), vec![entry("ORD", 500, 150), entry("LAX", 500, 200)]);
    Ticket::insert(&mut store, leg("c", "NYC", "LAX", 200, 500, 1)).unwrap();
    assert_eq!(store.get_tickets_by_time("NYC", 0, 1000), vec![entry("ORD", 500, 150), entry("LAX", 500, 200)]);
}

#[test]
fn ticket_is_stored_by_three_writes_record_first() {
    let writes = leg("A1", "NYC", "LAX", 100, 200, 30).writes();
    assert_eq!(writes.len(), 3);
    match &writes[0] {
        StoreWrite::Record { key, fields } => {
            assert_eq!(key, "ticket_A1");
            assert_eq!(fields.len(), 6);
            assert_eq!(fields[5], ("price".to_string(), "30".to_string()));
        }
        _ => panic!("the record is written first"),
    }
    match &writes[1] {
        StoreWrite::Departure { key, pointer, time } => {
            assert_eq!(key, "times_NYC");
            assert_eq!(pointer, "LAX_200");
            assert_eq!(*time, 100);
        }
        _ => panic!("the time index is written second"),
    }
    match &writes[2] {
        StoreWrite::Pointer { key, id } => {
            assert_eq!(key, "LAX_100");
            assert_eq!(id, "A1");
        }
        _ => panic!("the departure pointer is written last"),
    }
}

#[test]
fn pointer_without_a_record_is_not_found() {
    let mut store = TicketStore::new();
    store.apply(StoreWrite::Pointer { key: "LAX_100".to_string(), id: "gone".to_string() });
    assert_eq!(store.get_ticket_by_time("LAX", 100).err(), Some(StoreError::NotFound));
}

#[test]
fn corrupt_record_fails_its_own_lookup_only() {
    let mut store = TicketStore::new();
    Ticket::insert(&mut store, leg("A1", "NYC", "LAX", 100, 200, 30)).unwrap();
    Ticket::insert(&mut store, leg("A2", "NYC", "LAX", 110, 210, 40)).unwrap();
    let mut fields = leg("A1", "NYC", "LAX", 100, 200, 30).to_fields();
    fields[5].1 = "thirty".to_string();
    store.apply(StoreWrite::Record { key: "ticket_A1".to_string(), fields });
    assert_eq!(store.get_ticket_by_id("A1").err(), Some(StoreError::InvalidInput));
    assert_eq!(store.get_ticket_by_time("LAX", 100).err(), Some(StoreError::InvalidInput));
    assert!(store.get_ticket_by_id("A2").is_ok());
    let mut fields = leg("A2", "NYC", "LAX", 110, 210, 40).to_fields();
    fields.remove(0);
    store.apply(StoreWrite::Record { key: "ticket_A2".to_string(), fields });
    assert_eq!(store.get_ticket_by_id("A2").err(), Some(StoreError::NotFound));
}

#[test]
fn writes_are_made_in_their_order() {
    let mut store = TicketStore::new();
    store.apply_all(vec![
        StoreWrite::Pointer { key: "LAX_1".to_string(), id: "first".to_string() },
        StoreWrite::Departure { key: "times_NYC".to_string(), pointer: "LAX_9".to_string(), time: 5 },
        StoreWrite::Departure { key: "times_NYC".to_string(), pointer: "LAX_9".to_string(), time: 3 },
        StoreWrite::Record { key: "ticket_second".to_string(), fields: leg("second", "NYC", "LAX", 1, 9, 7).to_fields() },
        StoreWrite::Pointer { key: "LAX_1".to_string(), id: "second".to_string() },
    ]);
    assert_eq!(store.get_tickets_by_time("NYC", 0, 10), vec![("LAX_9".to_string(), 3)]);
    assert_eq!(store.get_ticket_by_time("LAX", 1).unwrap().id, "second");
}

#[test]
fn batch_is_stored_ticket_by_ticket() {
    let mut store = TicketStore::new();
    let batch = Tickets {
        tickets: vec![
            leg("A1", "NYC", "LAX", 100, 200, 30),
            leg("A2", "NYC", "ORD", 90, 150, 10),
            leg("A1", "NYC", "LAX", 100, 200, 35),
        ],
    };
    create(batch, &mut store);
    assert_eq!(store.get_ticket_by_id("A1").unwrap().price, 35);
    assert_eq!(store.get_ticket_by_id("A2").unwrap().price, 10);
    assert_eq!(store.get_tickets_by_time("NYC", 0, 1000), vec![entry("ORD", 150, 90), entry("LAX", 200, 100)]);
    create(Tickets { tickets: Vec::new() }, &mut store);
    assert_eq!(store.get_tickets_by_time("NYC", 0, 1000).len(), 2);
}
