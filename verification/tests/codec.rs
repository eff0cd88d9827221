use ticket_search::decimal::format_i32;
use ticket_search::decimal::parse_i32;
use ticket_search::error::StoreError;
use ticket_search::keys::arrival_pointer;
use ticket_search::keys::get_arrival_data;
use ticket_search::keys::pointer_key;
use ticket_search::keys::record_key;
use ticket_search::keys::times_key;
use ticket_search::tickets::Ticket;

fn text_fields(pairs: &[(&str, &str)]) -> Vec<(String, String)> {
    pairs.iter().map(|(k, v)| (k.to_string(), v.to_string())).collect()
}

#[test]
fn numbers_are_written_in_decimal() {
    assert_eq!(format_i32(0), "0");
    assert_eq!(format_i32(7), "7");
    assert_eq!(format_i32(10), "10");
    assert_eq!(format_i32(-1), "-1");
    assert_eq!(format_i32(1700000000), "1700000000");
    assert_eq!(format_i32(i32::MAX), "2147483647");
    assert_eq!(format_i32(i32::MIN), "-2147483648");
}

#[test]
fn numbers_are_read_as_the_standard_library_reads_them() {
    let texts = [
        "0", "7", "-7", "+7", "007", "-0", "+0", "2147483647", "2147483648", "-2147483648",
        "-2147483649", "00000000000000000001", "99999999999999999999", "", "-", "+", "--1", "+-1",
        "1_0", "12a", "a12", " 12", "12 ", "1.5", "\u{ff11}\u{ff12}", "12\u{e9}", "\u{e9}",
    ];
    for text in texts {
        assert_eq!(parse_i32(text), text.parse::<i32>().ok(), "{:?}", text);
    }
}

#[test]
fn written_numbers_read_back() {
    for n in [0, 1, -1, 9, 10, 99, 100, 1699920000, i32::MAX, i32::MIN, i32::MIN + 1] {
        assert_eq!(parse_i32(&format_i32(n)), Some(n));
    }
}

#[test]
fn keys_follow_the_naming() {
    assert_eq!(times_key("NYC"), "times_NYC");
    assert_eq!(times_key(""), "times_");
    assert_eq!(record_key("A1"), "ticket_A1");
    assert_eq!(pointer_key("LAX", 1700000000), "LAX_1700000000");
    assert_eq!(pointer_key("LAX", -5), "LAX_-5");
    assert_eq!(arrival_pointer("ORD", 1700007200), "ORD_1700007200");
}

#[test]
fn arrival_pointer_reads_back() {
    let data = get_arrival_data(&arrival_pointer("LAX", 1700020000)).unwrap();
    assert_eq!(data.arrival_code, "LAX");
    assert_eq!(data.arrival_time, 1700020000);
    let data = get_arrival_data(&arrival_pointer("Z\u{fc}rich", -12)).unwrap();
    assert_eq!(data.arrival_code, "Z\u{fc}rich");
    assert_eq!(data.arrival_time, -12);
}

#[test]
fn arrival_pointer_is_read_by_its_first_two_parts() {
    let data = get_arrival_data("LAX_12_34").unwrap();
    assert_eq!(data.arrival_code, "LAX");
    assert_eq!(data.arrival_time, 12);
    let data = get_arrival_data("_5").unwrap();
    assert_eq!(data.arrival_code, "");
    assert_eq!(data.arrival_time, 5);
}

#[test]
fn malformed_arrival_pointer_is_invalid_input() {
    for text in ["", "LAX", "LAX_", "LAX_x", "A_B_1", "LAX__1", "LAX_99999999999"] {
        assert_eq!(get_arrival_data(text).err(), Some(StoreError::InvalidInput), "{:?}", text);
    }
}

#[test]
fn ticket_record_has_six_fields_in_order() {
    let ticket = Ticket {
        id: "A1".to_string(),
        departure_code: "NYC".to_string(),
        arrival_code: "LAX".to_string(),
        departure_time: 1700000000,
        arrival_time: 1700020000,
        price: 200,
    };
    assert_eq!(
        ticket.to_fields(),
        text_fields(&[
            ("id", "A1"),
            ("departure_code", "NYC"),
            ("arrival_code", "LAX"),
            ("departure_time", "1700000000"),
            ("arrival_time", "1700020000"),
            ("price", "200"),
        ])
    );
}

#[test]
fn ticket_record_reads_back() {
    let ticket = Ticket {
        id: "x_1".to_string(),
        departure_code: "A_B".to_string(),
        arrival_code: "".to_string(),
        departure_time: i32::MIN,
        arrival_time: i32::MAX,
        price: 0,
    };
    let back = Ticket::from_fields(&ticket.to_fields()).unwrap();
    assert_eq!(back.id, "x_1");
    assert_eq!(back.departure_code, "A_B");
    assert_eq!(back.arrival_code, "");
    assert_eq!(back.departure_time, i32::MIN);
    assert_eq!(back.arrival_time, i32::MAX);
    assert_eq!(back.price, 0);
}

#[test]
fn record_is_read_by_field_name_whatever_the_order() {
    let fields = text_fields(&[
        ("price", "5"),
        ("extra", "ignored"),
        ("arrival_time", "20"),
        ("id", "old"),
        ("departure_time", "10"),
        ("arrival_code", "B"),
        ("departure_code", "A"),
        ("id", "new"),
    ]);
    let ticket = Ticket::from_fields(&fields).unwrap();
    assert_eq!(ticket.id, "new");
    assert_eq!(ticket.departure_code, "A");
    assert_eq!(ticket.arrival_code, "B");
    assert_eq!(ticket.departure_time, 10);
    assert_eq!(ticket.arrival_time, 20);
    assert_eq!(ticket.price, 5);
}

#[test]
fn record_without_a_field_is_not_found() {
    let all = [
        ("id", "A1"),
        ("departure_code", "NYC"),
        ("arrival_code", "LAX"),
        ("departure_time", "1"),
        ("arrival_time", "2"),
        ("price", "3"),
    ];
    for missing in 0..all.len() {
        let mut fields = text_fields(&all);
        fields.remove(missing);
        assert_eq!(Ticket::from_fields(&fields).err(), Some(StoreError::NotFound));
    }
    assert_eq!(Ticket::from_fields(&Vec::new()).err(), Some(StoreError::NotFound));
}

#[test]
fn record_with_an_unreadable_number_is_invalid_input() {
    for broken in ["departure_time", "arrival_time", "price"] {
        let fields = text_fields(&[
            ("id", "A1"),
            ("departure_code", "NYC"),
            ("arrival_code", "LAX"),
            ("departure_time", if broken == "departure_time" { "soon" } else { "1" }),
            ("arrival_time", if broken == "arrival_time" { "2.5" } else { "2" }),
            ("price", if broken == "price" { "" } else { "3" }),
        ]);
        assert_eq!(Ticket::from_fields(&fields).err(), Some(StoreError::InvalidInput));
    }
}

#[test]
fn first_failing_field_decides_the_error() {
    let fields = text_fields(&[
        ("id", "A1"),
        ("departure_code", "NYC"),
        ("arrival_code", "LAX"),
        ("departure_time", "bad"),
        ("arrival_time", "2"),
    ]);
    assert_eq!(Ticket::from_fields(&fields).err(), Some(StoreError::InvalidInput));
    let fields = text_fields(&[("id", "A1"), ("departure_time", "bad")]);
    assert_eq!(Ticket::from_fields(&fields).err(), Some(StoreError::NotFound));
}
