//! Tickets, and the record of text fields under which a ticket is stored.

use vstd::prelude::*;
use vstd::string::StringExecFns;
use crate::decimal::decimal;
use crate::decimal::format_i32;
use crate::decimal::lemma_parse_i32_decimal;
use crate::decimal::parse_i32;
use crate::decimal::parse_i32_spec;
use crate::error::StoreError;

verus! {

/// One scheduled leg with its price. Times are Unix seconds.
#[derive(Debug)]
pub struct Ticket {
    pub id: String,
    pub departure_code: String,
    pub arrival_code: String,
    pub departure_time: i32,
    pub arrival_time: i32,
    pub price: i32,
}

/// A batch of tickets to be stored.
#[derive(Debug)]
pub struct Tickets {
    pub tickets: Vec<Ticket>,
}

pub struct TicketView {
    pub id: Seq<char>,
    pub departure_code: Seq<char>,
    pub arrival_code: Seq<char>,
    pub departure_time: int,
    pub arrival_time: int,
    pub price: int,
}

impl View for Ticket {
    type V = TicketView;

    open spec fn view(&self) -> TicketView {
        TicketView {
            id: self.id@,
            departure_code: self.departure_code@,
            arrival_code: self.arrival_code@,
            departure_time: self.departure_time as int,
            arrival_time: self.arrival_time as int,
            price: self.price as int,
        }
    }
}

impl Clone for Ticket {
    fn clone(&self) -> (r: Self)
        ensures
            r == *self,
    {
        Ticket {
            id: self.id.clone(),
            departure_code: self.departure_code.clone(),
            arrival_code: self.arrival_code.clone(),
            departure_time: self.departure_time,
            arrival_time: self.arrival_time,
            price: self.price,
        }
    }
}

impl TicketView {
    /// Whether the three numbers are ones that a ticket can hold.
    pub open spec fn in_range(self) -> bool {
        &&& i32::MIN <= self.departure_time <= i32::MAX
        &&& i32::MIN <= self.arrival_time <= i32::MAX
        &&& i32::MIN <= self.price <= i32::MAX
    }
}

/// A record as the store keeps it: pairs of a field's name and its text.
pub open spec fn fields_view(fields: Seq<(String, String)>) -> Seq<(Seq<char>, Seq<char>)> {
    fields.map_values(|p: (String, String)| (p.0@, p.1@))
}

/// The text of the field `name`; where a name occurs twice, the later pair
/// counts.
pub open spec fn field_value(fields: Seq<(Seq<char>, Seq<char>)>, name: Seq<char>) -> Option<
    Seq<char>,
>
    decreases fields.len(),
{
    if fields.len() == 0 {
        None
    } else if fields.last().0 == name {
        Some(fields.last().1)
    } else {
        field_value(fields.drop_last(), name)
    }
}

/// A field that must be there.
pub open spec fn text_field(fields: Seq<(Seq<char>, Seq<char>)>, name: Seq<char>) -> Result<
    Seq<char>,
    StoreError,
> {
    match field_value(fields, name) {
        Some(text) => Ok(text),
        None => Err(StoreError::NotFound),
    }
}

/// A field that must be there and hold an `i32`.
pub open spec fn number_field(fields: Seq<(Seq<char>, Seq<char>)>, name: Seq<char>) -> Result<
    int,
    StoreError,
> {
    match field_value(fields, name) {
        Some(text) => match parse_i32_spec(text) {
            Some(n) => Ok(n as int),
            None => Err(StoreError::InvalidInput),
        },
        None => Err(StoreError::NotFound),
    }
}

/// The six fields of a ticket's record, in the order in which they are written.
pub open spec fn ticket_fields(t: TicketView) -> Seq<(Seq<char>, Seq<char>)> {
    seq![
        ("id"@, t.id),
        ("departure_code"@, t.departure_code),
        ("arrival_code"@, t.arrival_code),
        ("departure_time"@, decimal(t.departure_time)),
        ("arrival_time"@, decimal(t.arrival_time)),
        ("price"@, decimal(t.price)),
    ]
}

/// The ticket that a record holds. The fields are read in the order `id`,
/// `departure_code`, `arrival_code`, `departure_time`, `arrival_time`,
/// `price`, and the first that fails decides the error: `NotFound` for a
/// field that is missing, `InvalidInput` for a number that cannot be read.
pub open spec fn ticket_of_fields(fields: Seq<(Seq<char>, Seq<char>)>) -> Result<
    TicketView,
    StoreError,
> {
    match text_field(fields, "id"@) {
        Err(e) => Err(e),
        Ok(id) => match text_field(fields, "departure_code"@) {
            Err(e) => Err(e),
            Ok(departure_code) => match text_field(fields, "arrival_code"@) {
                Err(e) => Err(e),
                Ok(arrival_code) => match number_field(fields, "departure_time"@) {
                    Err(e) => Err(e),
                    Ok(departure_time) => match number_field(fields, "arrival_time"@) {
                        Err(e) => Err(e),
                        Ok(arrival_time) => match number_field(fields, "price"@) {
                            Err(e) => Err(e),
                            Ok(price) => Ok(
                                TicketView {
                                    id,
                                    departure_code,
                                    arrival_code,
                                    departure_time,
                                    arrival_time,
                                    price,
                                },
                            ),
                        },
                    },
                },
            },
        },
    }
}

/// Whether `r` is the outcome `expected`, the ticket taken by its view.
pub open spec fn is_outcome(r: Result<Ticket, StoreError>, expected: Result<TicketView, StoreError>) -> bool {
    match r {
        Ok(t) => expected == Ok::<TicketView, StoreError>(t@),
        Err(e) => expected == Err::<TicketView, StoreError>(e),
    }
}

/// The text of the field `name`, where the record has it.
fn find_field<'a>(fields: &'a Vec<(String, String)>, name: &str) -> (r: Option<&'a String>)
    ensures
        match r {
            Some(text) => field_value(fields_view(fields@), name@) == Some(text@),
            None => field_value(fields_view(fields@), name@) is None,
        },
{
    let wanted = String::from_str(name);
    let ghost all = fields_view(fields@);
    let mut i: usize = fields.len();
    assert(all.take(i as int) =~= all);
    while i > 0
        invariant
            i <= fields.len(),
            all == fields_view(fields@),
            wanted@ == name@,
            field_value(all, name@) == field_value(all.take(i as int), name@),
        decreases i,
    {
        i = i - 1;
        proof {
            let t = all.take(i + 1);
            assert(t.last() == (fields@[i as int].0@, fields@[i as int].1@));
            assert(t.drop_last() =~= all.take(i as int));
        }
        if fields[i].0 == wanted {
            return Some(&fields[i].1);
        }
    }
    None
}

/// Reads a field that must be there.
fn read_text(fields: &Vec<(String, String)>, name: &str) -> (r: Result<String, StoreError>)
    ensures
        match r {
            Ok(text) => text_field(fields_view(fields@), name@) == Ok::<Seq<char>, StoreError>(
                text@,
            ),
            Err(e) => text_field(fields_view(fields@), name@) == Err::<Seq<char>, StoreError>(e),
        },
{
    match find_field(fields, name) {
        Some(text) => Ok(text.clone()),
        None => Err(StoreError::NotFound),
    }
}

/// Reads a field that must be there and hold an `i32`.
fn read_number(fields: &Vec<(String, String)>, name: &str) -> (r: Result<i32, StoreError>)
    ensures
        match r {
            Ok(n) => number_field(fields_view(fields@), name@) == Ok::<int, StoreError>(n as int),
            Err(e) => number_field(fields_view(fields@), name@) == Err::<int, StoreError>(e),
        },
{
    match find_field(fields, name) {
        Some(text) => match parse_i32(text.as_str()) {
            Some(n) => Ok(n),
            None => Err(StoreError::InvalidInput),
        },
        None => Err(StoreError::NotFound),
    }
}

impl Ticket {
    /// The record under which this ticket is stored.
    pub fn to_fields(&self) -> (fields: Vec<(String, String)>)
        ensures
            fields_view(fields@) == ticket_fields(self@),
    {
        let mut fields: Vec<(String, String)> = Vec::new();
        fields.push((String::from_str("id"), self.id.clone()));
        fields.push((String::from_str("departure_code"), self.departure_code.clone()));
        fields.push((String::from_str("arrival_code"), self.arrival_code.clone()));
        fields.push((String::from_str("departure_time"), format_i32(self.departure_time)));
        fields.push((String::from_str("arrival_time"), format_i32(self.arrival_time)));
        fields.push((String::from_str("price"), format_i32(self.price)));
        assert(fields_view(fields@) =~= ticket_fields(self@));
        fields
    }

    /// Reads a ticket from its stored record.
    pub fn from_fields(fields: &Vec<(String, String)>) -> (r: Result<Ticket, StoreError>)
        ensures
            is_outcome(r, ticket_of_fields(fields_view(fields@))),
    {
        let id = match read_text(fields, "id") {
            Ok(v) => v,
            Err(e) => { return Err(e); },
        };
        let departure_code = match read_text(fields, "departure_code") {
            Ok(v) => v,
            Err(e) => { return Err(e); },
        };
        let arrival_code = match read_text(fields, "arrival_code") {
            Ok(v) => v,
            Err(e) => { return Err(e); },
        };
        let departure_time = match read_number(fields, "departure_time") {
            Ok(v) => v,
            Err(e) => { return Err(e); },
        };
        let arrival_time = match read_number(fields, "arrival_time") {
            Ok(v) => v,
            Err(e) => { return Err(e); },
        };
        let price = match read_number(fields, "price") {
            Ok(v) => v,
            Err(e) => { return Err(e); },
        };
        Ok(Ticket { id, departure_code, arrival_code, departure_time, arrival_time, price })
    }
}

/// A ticket's record reads back as the ticket.
pub proof fn lemma_fields_round_trip(t: TicketView)
    requires
        t.in_range(),
    ensures
        ticket_of_fields(ticket_fields(t)) == Ok::<TicketView, StoreError>(t),
{
    reveal_strlit("id");
    reveal_strlit("departure_code");
    reveal_strlit("arrival_code");
    reveal_strlit("departure_time");
    reveal_strlit("arrival_time");
    reveal_strlit("price");
    let f = ticket_fields(t);
    let f5 = f.drop_last();
    let f4 = f5.drop_last();
    let f3 = f4.drop_last();
    let f2 = f3.drop_last();
    let f1 = f2.drop_last();
    assert("id"@.len() == 2 && "price"@.len() == 5 && "departure_code"@.len() == 14);
    assert("arrival_code"@.len() == 12 && "departure_time"@.len() == 14 && "arrival_time"@.len() == 12);
    assert("departure_code"@[10] == 'c' && "departure_time"@[10] == 't');
    assert("arrival_code"@[8] == 'c' && "arrival_time"@[8] == 't');
    assert(f.last() == ("price"@, decimal(t.price)));
    assert(f5.last() == ("arrival_time"@, decimal(t.arrival_time)));
    assert(f4.last() == ("departure_time"@, decimal(t.departure_time)));
    assert(f3.last() == ("arrival_code"@, t.arrival_code));
    assert(f2.last() == ("departure_code"@, t.departure_code));
    assert(f1.last() == ("id"@, t.id));
    assert(field_value(f, "price"@) == Some(decimal(t.price)));
    assert(field_value(f5, "arrival_time"@) == Some(decimal(t.arrival_time)));
    assert(field_value(f, "arrival_time"@) == Some(decimal(t.arrival_time)));
    assert(field_value(f4, "departure_time"@) == Some(decimal(t.departure_time)));
    assert(field_value(f5, "departure_time"@) == Some(decimal(t.departure_time)));
    assert(field_value(f, "departure_time"@) == Some(decimal(t.departure_time)));
    assert(field_value(f3, "arrival_code"@) == Some(t.arrival_code));
    assert(field_value(f4, "arrival_code"@) == Some(t.arrival_code));
    assert(field_value(f5, "arrival_code"@) == Some(t.arrival_code));
    assert(field_value(f, "arrival_code"@) == Some(t.arrival_code));
    assert(field_value(f2, "departure_code"@) == Some(t.departure_code));
    assert(field_value(f3, "departure_code"@) == Some(t.departure_code));
    assert(field_value(f4, "departure_code"@) == Some(t.departure_code));
    assert(field_value(f5, "departure_code"@) == Some(t.departure_code));
    assert(field_value(f, "departure_code"@) == Some(t.departure_code));
    assert(field_value(f1, "id"@) == Some(t.id));
    assert(field_value(f2, "id"@) == Some(t.id));
    assert(field_value(f3, "id"@) == Some(t.id));
    assert(field_value(f4, "id"@) == Some(t.id));
    assert(field_value(f5, "id"@) == Some(t.id));
    assert(field_value(f, "id"@) == Some(t.id));
    lemma_parse_i32_decimal(t.departure_time as i32);
    lemma_parse_i32_decimal(t.arrival_time as i32);
    lemma_parse_i32_decimal(t.price as i32);
}

} // verus!
