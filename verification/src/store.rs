//! The ticket store: the full records, the time index of each departure
//! code, and the departure pointers, kept in memory.

use vstd::prelude::*;
use vstd::hash_map::StringHashMap;
use crate::error::StoreError;
use crate::index::add_departure;
use crate::index::departs_within;
use crate::index::departures_between;
use crate::index::entries_view;
use crate::index::in_order;
use crate::index::lemma_filter_in_order;
use crate::index::lemma_with_departure_again;
use crate::index::lemma_with_departure_contains;
use crate::index::lemma_with_departure_in_order;
use crate::index::window;
use crate::index::with_departure;
use crate::keys::arrival_pointer;
use crate::keys::code_and_time;
use crate::keys::lemma_code_and_time_injective;
use crate::keys::lemma_record_key_injective;
use crate::keys::lemma_times_key_injective;
use crate::keys::pointer_key;
use crate::keys::record_key;
use crate::keys::record_key_spec;
use crate::keys::times_key;
use crate::keys::times_key_spec;
use crate::seqs::lemma_filter_contains;
use crate::tickets::fields_view;
use crate::tickets::is_outcome;
use crate::tickets::lemma_fields_round_trip;
use crate::tickets::ticket_fields;
use crate::tickets::ticket_of_fields;
use crate::tickets::Ticket;
use crate::tickets::TicketView;

verus! {

/// One write to the store. A ticket is stored by three of them.
pub enum StoreWrite {
    /// Sets the fields of the record under `key`.
    Record { key: String, fields: Vec<(String, String)> },
    /// Enters `pointer` with `time` into the time index under `key`.
    Departure { key: String, pointer: String, time: i32 },
    /// Lets the departure pointer `key` name the ticket `id`.
    Pointer { key: String, id: String },
}

pub enum StoreWriteView {
    Record { key: Seq<char>, fields: Seq<(Seq<char>, Seq<char>)> },
    Departure { key: Seq<char>, pointer: Seq<char>, time: int },
    Pointer { key: Seq<char>, id: Seq<char> },
}

impl View for StoreWrite {
    type V = StoreWriteView;

    open spec fn view(&self) -> StoreWriteView {
        match *self {
            StoreWrite::Record { key, fields } => StoreWriteView::Record {
                key: key@,
                fields: fields_view(fields@),
            },
            StoreWrite::Departure { key, pointer, time } => StoreWriteView::Departure {
                key: key@,
                pointer: pointer@,
                time: time as int,
            },
            StoreWrite::Pointer { key, id } => StoreWriteView::Pointer { key: key@, id: id@ },
        }
    }
}

/// What a store holds, by key.
pub struct StoreView {
    /// The fields of each record.
    pub records: Map<Seq<char>, Seq<(Seq<char>, Seq<char>)>>,
    /// The time indices, each a sequence of (arrival pointer, departure time).
    pub times: Map<Seq<char>, Seq<(Seq<char>, int)>>,
    /// The ticket id that each departure pointer names.
    pub pointers: Map<Seq<char>, Seq<char>>,
}

impl StoreView {
    /// The store that holds nothing.
    pub open spec fn empty() -> StoreView {
        StoreView { records: Map::empty(), times: Map::empty(), pointers: Map::empty() }
    }

    /// The time index under `key`; one that was never written is empty.
    pub open spec fn index(self, key: Seq<char>) -> Seq<(Seq<char>, int)> {
        if self.times.contains_key(key) {
            self.times[key]
        } else {
            Seq::empty()
        }
    }

    /// Every time index is in order: by departure time, each arrival
    /// pointer once.
    pub open spec fn in_order(self) -> bool {
        forall|key: Seq<char>| in_order(#[trigger] self.index(key))
    }

    /// The store after one write. A record or a pointer written under a
    /// key takes the place of what stood there.
    pub open spec fn apply(self, write: StoreWriteView) -> StoreView {
        match write {
            StoreWriteView::Record { key, fields } => StoreView {
                records: self.records.insert(key, fields),
                ..self
            },
            StoreWriteView::Departure { key, pointer, time } => StoreView {
                times: self.times.insert(key, with_departure(self.index(key), pointer, time)),
                ..self
            },
            StoreWriteView::Pointer { key, id } => StoreView {
                pointers: self.pointers.insert(key, id),
                ..self
            },
        }
    }

    /// The store after `ticket` was inserted: its record is written first,
    /// then its entry in the time index of its departure code, then its
    /// departure pointer.
    pub open spec fn insert(self, ticket: TicketView) -> StoreView {
        self.apply_all(ticket_writes(ticket))
    }

    /// The store after the writes were made, one after the other.
    pub open spec fn apply_all(self, writes: Seq<StoreWriteView>) -> StoreView
        decreases writes.len(),
    {
        if writes.len() == 0 {
            self
        } else {
            self.apply_all(writes.drop_last()).apply(writes.last())
        }
    }

    /// The store after the tickets were inserted, one after the other.
    pub open spec fn insert_all(self, tickets: Seq<TicketView>) -> StoreView
        decreases tickets.len(),
    {
        if tickets.len() == 0 {
            self
        } else {
            self.insert_all(tickets.drop_last()).insert(tickets.last())
        }
    }

    /// The departures from `departure_code` from `start` to `end`, both
    /// included, in the order of their times.
    pub open spec fn tickets_by_time(self, departure_code: Seq<char>, start: int, end: int) -> Seq<
        (Seq<char>, int),
    > {
        window(self.index(times_key_spec(departure_code)), start, end)
    }

    /// The ticket stored under `id`.
    pub open spec fn ticket_by_id(self, id: Seq<char>) -> Result<TicketView, StoreError> {
        if self.records.contains_key(record_key_spec(id)) {
            ticket_of_fields(self.records[record_key_spec(id)])
        } else {
            Err(StoreError::NotFound)
        }
    }

    /// The ticket that the departure pointer of `arrival_code` and
    /// `departure_time` names.
    pub open spec fn ticket_by_time(self, arrival_code: Seq<char>, departure_time: int) -> Result<
        TicketView,
        StoreError,
    > {
        if self.pointers.contains_key(code_and_time(arrival_code, departure_time)) {
            self.ticket_by_id(self.pointers[code_and_time(arrival_code, departure_time)])
        } else {
            Err(StoreError::NotFound)
        }
    }
}

/// The three writes that store a ticket, in the order in which they are
/// made.
pub open spec fn ticket_writes(t: TicketView) -> Seq<StoreWriteView> {
    seq![
        StoreWriteView::Record { key: record_key_spec(t.id), fields: ticket_fields(t) },
        StoreWriteView::Departure {
            key: times_key_spec(t.departure_code),
            pointer: code_and_time(t.arrival_code, t.arrival_time),
            time: t.departure_time,
        },
        StoreWriteView::Pointer { key: code_and_time(t.arrival_code, t.departure_time), id: t.id },
    ]
}

/// The entry that a ticket makes in the time index of its departure code.
pub open spec fn entry_of(t: TicketView) -> (Seq<char>, int) {
    (code_and_time(t.arrival_code, t.arrival_time), t.departure_time)
}

/// Whether the ticket at `i` is one from `departure_code` whose entry no
/// later ticket from that code has replaced: none that arrives at the same
/// code at the same time.
pub open spec fn in_index(tickets: Seq<TicketView>, departure_code: Seq<char>, i: int) -> bool {
    &&& 0 <= i < tickets.len()
    &&& tickets[i].departure_code == departure_code
    &&& forall|j: int|
        i < j < tickets.len() && tickets[j].departure_code == departure_code ==> entry_of(
            #[trigger] tickets[j],
        ).0 != entry_of(tickets[i]).0
}

pub open spec fn writes_view(writes: Seq<StoreWrite>) -> Seq<StoreWriteView> {
    writes.map_values(|w: StoreWrite| w@)
}

/// A ticket store in memory.
pub struct TicketStore {
    records: StringHashMap<Vec<(String, String)>>,
    times: StringHashMap<Vec<(String, i32)>>,
    pointers: StringHashMap<String>,
}

impl View for TicketStore {
    type V = StoreView;

    closed spec fn view(&self) -> StoreView {
        StoreView {
            records: self.records@.map_values(|f: Vec<(String, String)>| fields_view(f@)),
            times: self.times@.map_values(|e: Vec<(String, i32)>| entries_view(e@)),
            pointers: self.pointers@.map_values(|id: String| id@),
        }
    }
}

impl TicketStore {
    /// Every time index is in order.
    pub open spec fn wf(&self) -> bool {
        self@.in_order()
    }

    /// A store that holds nothing.
    pub fn new() -> (store: TicketStore)
        ensures
            store.wf(),
            store@ == StoreView::empty(),
    {
        let store = TicketStore {
            records: StringHashMap::new(),
            times: StringHashMap::new(),
            pointers: StringHashMap::new(),
        };
        assert(store@.records =~= Map::empty());
        assert(store@.times =~= Map::empty());
        assert(store@.pointers =~= Map::empty());
        assert forall|key: Seq<char>| in_order(#[trigger] store@.index(key)) by {}
        store
    }

    /// Makes one write.
    pub fn apply(&mut self, write: StoreWrite)
        requires
            old(self).wf(),
        ensures
            final(self).wf(),
            final(self)@ == old(self)@.apply(write@),
    {
        proof {
            lemma_apply_in_order(old(self)@, write@);
        }
        match write {
            StoreWrite::Record { key, fields } => {
                let ghost expected = old(self)@.apply(write@);
                self.records.insert(key, fields);
                assert(self@.records =~= expected.records);
            },
            StoreWrite::Departure { key, pointer, time } => {
                let ghost expected = old(self)@.apply(write@);
                let entries = match self.times.get(key.as_str()) {
                    Some(present) => add_departure(present, pointer.as_str(), time),
                    None => {
                        let absent: Vec<(String, i32)> = Vec::new();
                        assert(entries_view(absent@) =~= Seq::<(Seq<char>, int)>::empty());
                        add_departure(&absent, pointer.as_str(), time)
                    },
                };
                self.times.insert(key, entries);
                assert(self@.times =~= expected.times);
            },
            StoreWrite::Pointer { key, id } => {
                let ghost expected = old(self)@.apply(write@);
                self.pointers.insert(key, id);
                assert(self@.pointers =~= expected.pointers);
            },
        }
    }

    /// Makes the writes, one after the other.
    pub fn apply_all(&mut self, writes: Vec<StoreWrite>)
        requires
            old(self).wf(),
        ensures
            final(self).wf(),
            final(self)@ == old(self)@.apply_all(writes_view(writes@)),
    {
        let ghost planned = writes_view(writes@);
        assert(planned.take(0) =~= Seq::<StoreWriteView>::empty());
        for write in it: writes.into_iter()
            invariant
                self.wf(),
                it.seq() == writes@,
                planned == writes_view(writes@),
                self@ == old(self)@.apply_all(planned.take(it.index() as int)),
        {
            proof {
                let done = planned.take(it.index() + 1);
                assert(done.drop_last() =~= planned.take(it.index() as int));
                assert(done.last() == write@);
            }
            self.apply(write);
        }
        assert(planned.take(writes@.len() as int) =~= planned);
    }

    /// The departures from `departure_code` from `start_time` to `end_time`,
    /// both included, in the order of their times: each with the arrival
    /// pointer of its ticket.
    pub fn get_tickets_by_time(&self, departure_code: &str, start_time: i64, end_time: i64) -> (r:
        Vec<(String, i32)>)
        requires
            self.wf(),
        ensures
            entries_view(r@) == self@.tickets_by_time(
                departure_code@,
                start_time as int,
                end_time as int,
            ),
            in_order(entries_view(r@)),
    {
        proof {
            let index = self@.index(times_key_spec(departure_code@));
            assert(in_order(index));
            lemma_filter_in_order(index, departs_within(start_time as int, end_time as int));
        }
        let key = times_key(departure_code);
        match self.times.get(key.as_str()) {
            Some(entries) => departures_between(entries, start_time, end_time),
            None => {
                let absent: Vec<(String, i32)> = Vec::new();
                assert(entries_view(absent@) =~= Seq::<(Seq<char>, int)>::empty());
                departures_between(&absent, start_time, end_time)
            },
        }
    }

    /// The ticket stored under `id`. `NotFound` where there is no record or
    /// the record lacks a field, `InvalidInput` where one of its numbers
    /// cannot be read.
    pub fn get_ticket_by_id(&self, id: &str) -> (r: Result<Ticket, StoreError>)
        ensures
            is_outcome(r, self@.ticket_by_id(id@)),
    {
        let key = record_key(id);
        match self.records.get(key.as_str()) {
            Some(fields) => Ticket::from_fields(fields),
            None => Err(StoreError::NotFound),
        }
    }

    /// The ticket that leaves for `arrival_code` at `departure_time`: the
    /// one that the departure pointer names. `NotFound` where there is no
    /// such pointer; else as for the lookup by id.
    pub fn get_ticket_by_time(&self, arrival_code: &str, departure_time: i32) -> (r: Result<
        Ticket,
        StoreError,
    >)
        ensures
            is_outcome(r, self@.ticket_by_time(arrival_code@, departure_time as int)),
    {
        let key = pointer_key(arrival_code, departure_time);
        match self.pointers.get(key.as_str()) {
            Some(id) => self.get_ticket_by_id(id.as_str()),
            None => Err(StoreError::NotFound),
        }
    }
}

impl Ticket {
    /// The three writes that store this ticket, in the order in which they
    /// are to be made: the record, the entry in the time index, the
    /// departure pointer.
    pub fn writes(&self) -> (writes: Vec<StoreWrite>)
        ensures
            writes_view(writes@) == ticket_writes(self@),
    {
        let mut writes: Vec<StoreWrite> = Vec::new();
        writes.push(
            StoreWrite::Record { key: record_key(self.id.as_str()), fields: self.to_fields() },
        );
        writes.push(
            StoreWrite::Departure {
                key: times_key(self.departure_code.as_str()),
                pointer: arrival_pointer(self.arrival_code.as_str(), self.arrival_time),
                time: self.departure_time,
            },
        );
        writes.push(
            StoreWrite::Pointer {
                key: pointer_key(self.arrival_code.as_str(), self.departure_time),
                id: self.id.clone(),
            },
        );
        assert(writes_view(writes@) =~= ticket_writes(self@));
        writes
    }

    /// Stores `ticket`: its record and its entries in both indices. A ticket
    /// stored before under the same id is replaced.
    pub fn insert(store: &mut TicketStore, ticket: Ticket) -> (r: Result<(), StoreError>)
        requires
            old(store).wf(),
        ensures
            final(store).wf(),
            r is Ok,
            final(store)@ == old(store)@.insert(ticket@),
    {
        store.apply_all(ticket.writes());
        Ok(())
    }
}

/// A write keeps the time indices in order.
pub proof fn lemma_apply_in_order(store: StoreView, write: StoreWriteView)
    requires
        store.in_order(),
    ensures
        store.apply(write).in_order(),
{
    assert forall|key: Seq<char>| in_order(#[trigger] store.apply(write).index(key)) by {
        assert(in_order(store.index(key)));
        match write {
            StoreWriteView::Departure { key: written, pointer, time } => {
                assert(in_order(store.index(written)));
                lemma_with_departure_in_order(store.index(written), pointer, time);
            },
            _ => {},
        }
    }
}

/// Writes keep the time indices in order.
pub proof fn lemma_apply_all_in_order(store: StoreView, writes: Seq<StoreWriteView>)
    requires
        store.in_order(),
    ensures
        store.apply_all(writes).in_order(),
    decreases writes.len(),
{
    if writes.len() > 0 {
        lemma_apply_all_in_order(store, writes.drop_last());
        lemma_apply_in_order(store.apply_all(writes.drop_last()), writes.last());
    }
}

/// After tickets were inserted into an empty store, every time index is in
/// order: by departure time, each arrival pointer once.
pub proof fn lemma_in_order_after_inserts(tickets: Seq<TicketView>)
    ensures
        StoreView::empty().insert_all(tickets).in_order(),
    decreases tickets.len(),
{
    if tickets.len() == 0 {
        assert forall|key: Seq<char>| in_order(#[trigger] StoreView::empty().index(key)) by {}
    } else {
        lemma_in_order_after_inserts(tickets.drop_last());
        lemma_apply_all_in_order(
            StoreView::empty().insert_all(tickets.drop_last()),
            ticket_writes(tickets.last()),
        );
    }
}

/// What inserting a ticket does: it sets the ticket's record, enters its
/// departure into the time index of its departure code, and lets its
/// departure pointer name it.
pub proof fn lemma_insert(store: StoreView, t: TicketView)
    ensures
        store.insert(t) == with_ticket(store, t),
{
    let writes = ticket_writes(t);
    let two = writes.drop_last();
    let one = two.drop_last();
    assert(one.drop_last() =~= Seq::<StoreWriteView>::empty());
    assert(store.apply_all(one.drop_last()) == store);
    assert(store.apply_all(one) == store.apply(writes[0]));
    assert(store.apply_all(two) == store.apply(writes[0]).apply(writes[1]));
}

/// The store after a ticket was inserted, written out.
pub open spec fn with_ticket(store: StoreView, t: TicketView) -> StoreView {
    StoreView {
        records: store.records.insert(record_key_spec(t.id), ticket_fields(t)),
        times: store.times.insert(
            times_key_spec(t.departure_code),
            with_departure(
                store.index(times_key_spec(t.departure_code)),
                entry_of(t).0,
                entry_of(t).1,
            ),
        ),
        pointers: store.pointers.insert(code_and_time(t.arrival_code, t.departure_time), t.id),
    }
}

/// Inserting a ticket a second time changes nothing.
pub proof fn lemma_insert_again(store: StoreView, t: TicketView)
    ensures
        store.insert(t).insert(t) == store.insert(t),
{
    lemma_insert(store, t);
    lemma_insert(with_ticket(store, t), t);
    lemma_with_ticket_again(store, t);
}

proof fn lemma_with_ticket_again(store: StoreView, t: TicketView)
    ensures
        with_ticket(with_ticket(store, t), t) == with_ticket(store, t),
{
    let once = with_ticket(store, t);
    let twice = with_ticket(once, t);
    let key = times_key_spec(t.departure_code);
    assert(twice.records =~= once.records);
    assert(twice.pointers =~= once.pointers);
    assert(twice.times =~= once.times) by {
        lemma_with_departure_again(store.index(key), entry_of(t).0, entry_of(t).1);
    }
}

/// A ticket that was inserted is found under its id, as it was inserted,
/// as long as no ticket was inserted under the same id after it.
pub proof fn lemma_ticket_by_id_after_inserts(store: StoreView, tickets: Seq<TicketView>, i: int)
    requires
        0 <= i < tickets.len(),
        tickets[i].in_range(),
        forall|j: int| i < j < tickets.len() ==> (#[trigger] tickets[j]).id != tickets[i].id,
    ensures
        store.insert_all(tickets).ticket_by_id(tickets[i].id) == Ok::<TicketView, StoreError>(
            tickets[i],
        ),
    decreases tickets.len(),
{
    let before = store.insert_all(tickets.drop_last());
    let last = tickets.last();
    lemma_insert(before, last);
    if i == tickets.len() - 1 {
        lemma_fields_round_trip(last);
    } else {
        lemma_ticket_by_id_after_inserts(store, tickets.drop_last(), i);
        lemma_record_key_injective(last.id, tickets[i].id);
    }
}

/// A ticket that was inserted is the one that its departure pointer names,
/// as long as no ticket was inserted after it under the same id, and none
/// that arrives at the same code and leaves at the same time.
pub proof fn lemma_ticket_by_time_after_inserts(
    store: StoreView,
    tickets: Seq<TicketView>,
    i: int,
)
    requires
        0 <= i < tickets.len(),
        tickets[i].in_range(),
        forall|j: int| i < j < tickets.len() ==> (#[trigger] tickets[j]).id != tickets[i].id,
        forall|j: int|
            i < j < tickets.len() ==> !((#[trigger] tickets[j]).arrival_code
                == tickets[i].arrival_code && tickets[j].departure_time
                == tickets[i].departure_time),
    ensures
        store.insert_all(tickets).ticket_by_time(
            tickets[i].arrival_code,
            tickets[i].departure_time,
        ) == Ok::<TicketView, StoreError>(tickets[i]),
{
    lemma_pointer_after_inserts(store, tickets, i);
    lemma_ticket_by_id_after_inserts(store, tickets, i);
}

/// The departure pointer of a ticket that was inserted names it, as long
/// as no ticket was inserted after it that arrives at the same code and
/// leaves at the same time.
proof fn lemma_pointer_after_inserts(store: StoreView, tickets: Seq<TicketView>, i: int)
    requires
        0 <= i < tickets.len(),
        forall|j: int|
            i < j < tickets.len() ==> !((#[trigger] tickets[j]).arrival_code
                == tickets[i].arrival_code && tickets[j].departure_time
                == tickets[i].departure_time),
    ensures
        store.insert_all(tickets).pointers.contains_key(
            code_and_time(tickets[i].arrival_code, tickets[i].departure_time),
        ),
        store.insert_all(tickets).pointers[code_and_time(
            tickets[i].arrival_code,
            tickets[i].departure_time,
        )] == tickets[i].id,
    decreases tickets.len(),
{
    let last = tickets.last();
    lemma_insert(store.insert_all(tickets.drop_last()), last);
    if i < tickets.len() - 1 {
        lemma_pointer_after_inserts(store, tickets.drop_last(), i);
        lemma_code_and_time_injective(
            last.arrival_code,
            last.departure_time,
            tickets[i].arrival_code,
            tickets[i].departure_time,
        );
    }
}

/// The time index of a departure code holds the entries of the tickets
/// that were inserted from that code, but for those that a later ticket
/// replaced, and no other entry.
pub proof fn lemma_index_after_inserts(
    tickets: Seq<TicketView>,
    departure_code: Seq<char>,
    entry: (Seq<char>, int),
)
    ensures
        StoreView::empty().insert_all(tickets).index(times_key_spec(departure_code)).contains(entry)
            <==> exists|i: int| in_index(tickets, departure_code, i) && entry == entry_of(tickets[i]),
    decreases tickets.len(),
{
    let key = times_key_spec(departure_code);
    let after = StoreView::empty().insert_all(tickets).index(key);
    if tickets.len() == 0 {
        assert(!after.contains(entry));
    } else {
        let rest = tickets.drop_last();
        let last = tickets.last();
        let before = StoreView::empty().insert_all(rest).index(key);
        lemma_insert(StoreView::empty().insert_all(rest), last);
        lemma_times_key_injective(last.departure_code, departure_code);
        lemma_index_after_inserts(rest, departure_code, entry);
        if last.departure_code == departure_code {
            assert(after == with_departure(before, entry_of(last).0, entry_of(last).1));
            lemma_with_departure_contains(before, entry_of(last).0, entry_of(last).1, entry);
            if after.contains(entry) {
                if entry == entry_of(last) {
                    assert(in_index(tickets, departure_code, tickets.len() - 1));
                } else {
                    let i = choose|i: int|
                        in_index(rest, departure_code, i) && entry == entry_of(rest[i]);
                    assert(in_index(tickets, departure_code, i)) by {
                        assert forall|j: int|
                            i < j < tickets.len() && tickets[j].departure_code
                                == departure_code implies entry_of(#[trigger] tickets[j]).0
                            != entry_of(tickets[i]).0 by {
                            if j < rest.len() {
                                assert(tickets[j] == rest[j]);
                            }
                        }
                    }
                }
            }
            if exists|i: int| in_index(tickets, departure_code, i) && entry == entry_of(tickets[i]) {
                let i = choose|i: int|
                    in_index(tickets, departure_code, i) && entry == entry_of(tickets[i]);
                if i < rest.len() {
                    assert(entry.0 != entry_of(tickets[tickets.len() - 1]).0);
                    assert(in_index(rest, departure_code, i)) by {
                        assert forall|j: int|
                            i < j < rest.len() && rest[j].departure_code
                                == departure_code implies entry_of(#[trigger] rest[j]).0
                            != entry_of(rest[i]).0 by {
                            assert(rest[j] == tickets[j]);
                        }
                    }
                    assert(entry == entry_of(rest[i]));
                }
            }
        } else {
            assert(after == before);
            if before.contains(entry) {
                let i = choose|i: int|
                    in_index(rest, departure_code, i) && entry == entry_of(rest[i]);
                assert(in_index(tickets, departure_code, i)) by {
                    assert forall|j: int|
                        i < j < tickets.len() && tickets[j].departure_code
                            == departure_code implies entry_of(#[trigger] tickets[j]).0
                        != entry_of(tickets[i]).0 by {
                        if j < rest.len() {
                            assert(tickets[j] == rest[j]);
                        }
                    }
                }
            }
            if exists|i: int| in_index(tickets, departure_code, i) && entry == entry_of(tickets[i]) {
                let i = choose|i: int|
                    in_index(tickets, departure_code, i) && entry == entry_of(tickets[i]);
                assert(in_index(rest, departure_code, i)) by {
                    assert forall|j: int|
                        i < j < rest.len() && rest[j].departure_code
                            == departure_code implies entry_of(#[trigger] rest[j]).0 != entry_of(
                        rest[i],
                    ).0 by {
                        assert(rest[j] == tickets[j]);
                    }
                }
                assert(entry == entry_of(rest[i]));
            }
        }
    }
}

/// After tickets were inserted into an empty store, the departures from a
/// code between two times are just the entries of the tickets from that
/// code that leave between the two times, both included, but for those
/// that a later ticket replaced.
pub proof fn lemma_tickets_by_time_after_inserts(
    tickets: Seq<TicketView>,
    departure_code: Seq<char>,
    start: int,
    end: int,
    entry: (Seq<char>, int),
)
    ensures
        StoreView::empty().insert_all(tickets).tickets_by_time(departure_code, start, end).contains(
            entry,
        ) <==> start <= entry.1 <= end && exists|i: int|
            in_index(tickets, departure_code, i) && entry == entry_of(tickets[i]),
{
    lemma_index_after_inserts(tickets, departure_code, entry);
    lemma_filter_contains(
        StoreView::empty().insert_all(tickets).index(times_key_spec(departure_code)),
        departs_within(start, end),
        entry,
    );
}

} // verus!
