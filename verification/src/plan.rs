//! Planning a search: which stretch of which time index to read, and which
//! tickets to fetch, given what the time indices hold.
//!
//! Nothing here reads a store. Each step takes what was read as plain
//! values and says what to read next.

use vstd::prelude::*;
use vstd::string::StringExecFns;
use crate::error::StoreError;
use crate::index::entries_view;
use crate::keys::arrival_data_spec;
use crate::keys::get_arrival_data;

verus! {

/// The length of the window of departures that a search looks at, in seconds.
pub const DAY: i64 = 86400;

/// The least time between an arrival and the onward departure, in seconds.
pub const MIN_CONNECTION: i64 = 10800;

/// The most time between an arrival and the onward departure, in seconds.
pub const MAX_CONNECTION: i64 = 82800;

/// A stretch of the time index of one departure code: the departures from
/// `start` to `end`, both included.
#[derive(Debug)]
pub struct Window {
    pub departure_code: String,
    pub start: i64,
    pub end: i64,
}

pub struct WindowView {
    pub departure_code: Seq<char>,
    pub start: int,
    pub end: int,
}

impl View for Window {
    type V = WindowView;

    open spec fn view(&self) -> WindowView {
        WindowView {
            departure_code: self.departure_code@,
            start: self.start as int,
            end: self.end as int,
        }
    }
}

/// A ticket named by where it goes and when it leaves: what a departure
/// pointer resolves.
#[derive(Debug)]
pub struct Leg {
    pub arrival_code: String,
    pub departure_time: i32,
}

pub struct LegView {
    pub arrival_code: Seq<char>,
    pub departure_time: int,
}

impl View for Leg {
    type V = LegView;

    open spec fn view(&self) -> LegView {
        LegView { arrival_code: self.arrival_code@, departure_time: self.departure_time as int }
    }
}

pub open spec fn legs_view(legs: Seq<Leg>) -> Seq<LegView> {
    legs.map_values(|l: Leg| l@)
}

/// A plan is the legs of one itinerary in the order of travel, or the error
/// of an index entry that could not be read.
pub open spec fn plan_view(plan: Result<Vec<Leg>, StoreError>) -> Result<Seq<LegView>, StoreError> {
    match plan {
        Ok(legs) => Ok(legs_view(legs@)),
        Err(e) => Err(e),
    }
}

pub open spec fn plans_view(plans: Seq<Result<Vec<Leg>, StoreError>>) -> Seq<
    Result<Seq<LegView>, StoreError>,
> {
    plans.map_values(|p: Result<Vec<Leg>, StoreError>| plan_view(p))
}

pub open spec fn window_view(window: Option<Window>) -> Option<WindowView> {
    match window {
        Some(w) => Some(w@),
        None => None,
    }
}

pub open spec fn lists_view(lists: Seq<Vec<(String, i32)>>) -> Seq<Seq<(Seq<char>, int)>> {
    lists.map_values(|l: Vec<(String, i32)>| entries_view(l@))
}

/// The departures that a search starts from: those from `departure_code`
/// within a day from `departure_time`, both ends included. The end is held
/// to the largest `i64`.
pub open spec fn origin_window(departure_code: Seq<char>, departure_time: int) -> WindowView {
    WindowView {
        departure_code,
        start: departure_time,
        end: if departure_time + DAY <= i64::MAX {
            departure_time + DAY
        } else {
            i64::MAX as int
        },
    }
}

/// The onward departures to look at for an entry of the origin's window:
/// none where the entry cannot be read or arrives at `arrival_code`; else
/// those from the stop where it arrives, from `MIN_CONNECTION` to
/// `MAX_CONNECTION` after its arrival, both included.
pub open spec fn transfer_window(arrival_code: Seq<char>, entry: (Seq<char>, int)) -> Option<
    WindowView,
> {
    match arrival_data_spec(entry.0) {
        Ok(data) => if data.arrival_code == arrival_code {
            None
        } else {
            Some(
                WindowView {
                    departure_code: data.arrival_code,
                    start: data.arrival_time + MIN_CONNECTION,
                    end: data.arrival_time + MAX_CONNECTION,
                },
            )
        },
        Err(_) => None,
    }
}

/// The plans that one onward departure gives: the two legs where it arrives
/// at `arrival_code`, nothing where it arrives elsewhere, an error where it
/// cannot be read.
pub open spec fn onward_plans(
    arrival_code: Seq<char>,
    stop: Seq<char>,
    departure_time: int,
    onward: (Seq<char>, int),
) -> Seq<Result<Seq<LegView>, StoreError>> {
    match arrival_data_spec(onward.0) {
        Ok(data) => if data.arrival_code == arrival_code {
            seq![
                Ok(
                    seq![
                        LegView { arrival_code: stop, departure_time },
                        LegView { arrival_code, departure_time: onward.1 },
                    ],
                ),
            ]
        } else {
            Seq::empty()
        },
        Err(e) => seq![Err(e)],
    }
}

/// The plans through the stop `stop`, reached by the ticket that left at
/// `departure_time`: those of each onward departure, in their order.
pub open spec fn transfer_plans(
    arrival_code: Seq<char>,
    stop: Seq<char>,
    departure_time: int,
    onward: Seq<(Seq<char>, int)>,
) -> Seq<Result<Seq<LegView>, StoreError>>
    decreases onward.len(),
{
    if onward.len() == 0 {
        Seq::empty()
    } else {
        transfer_plans(arrival_code, stop, departure_time, onward.drop_last()) + onward_plans(
            arrival_code,
            stop,
            departure_time,
            onward.last(),
        )
    }
}

/// The plans that one entry of the origin's window gives: the one leg where
/// it arrives at `arrival_code`, the plans through its stop where it
/// arrives elsewhere, an error where it cannot be read.
pub open spec fn entry_plans(
    arrival_code: Seq<char>,
    entry: (Seq<char>, int),
    onward: Seq<(Seq<char>, int)>,
) -> Seq<Result<Seq<LegView>, StoreError>> {
    match arrival_data_spec(entry.0) {
        Ok(data) => if data.arrival_code == arrival_code {
            seq![Ok(seq![LegView { arrival_code, departure_time: entry.1 }])]
        } else {
            transfer_plans(arrival_code, data.arrival_code, entry.1, onward)
        },
        Err(e) => seq![Err(e)],
    }
}

/// The onward departures read for the entry at `i`; none where no list
/// stands for it.
pub open spec fn onward_at(onward: Seq<Seq<(Seq<char>, int)>>, i: int) -> Seq<(Seq<char>, int)> {
    if 0 <= i < onward.len() {
        onward[i]
    } else {
        Seq::empty()
    }
}

/// The plans of the first `count` entries of the origin's window, in the
/// order of the window.
pub open spec fn plans(
    arrival_code: Seq<char>,
    origin: Seq<(Seq<char>, int)>,
    onward: Seq<Seq<(Seq<char>, int)>>,
    count: int,
) -> Seq<Result<Seq<LegView>, StoreError>>
    decreases count,
{
    if count <= 0 {
        Seq::empty()
    } else {
        plans(arrival_code, origin, onward, count - 1) + entry_plans(
            arrival_code,
            origin[count - 1],
            onward_at(onward, count - 1),
        )
    }
}

/// A plan through a stop has two legs: the first to the stop, leaving at
/// `departure_time`; the second to `arrival_code`, leaving when an onward
/// departure leaves whose pointer names `arrival_code`. The place of that
/// departure in `onward` is returned.
pub proof fn lemma_transfer_plan(
    arrival_code: Seq<char>,
    stop: Seq<char>,
    departure_time: int,
    onward: Seq<(Seq<char>, int)>,
    k: int,
) -> (j: int)
    requires
        0 <= k < transfer_plans(arrival_code, stop, departure_time, onward).len(),
        transfer_plans(arrival_code, stop, departure_time, onward)[k] is Ok,
    ensures
        0 <= j < onward.len(),
        arrival_data_spec(onward[j].0) matches Ok(data) && data.arrival_code == arrival_code,
        transfer_plans(arrival_code, stop, departure_time, onward)[k] == Ok::<
            Seq<LegView>,
            StoreError,
        >(
            seq![
                LegView { arrival_code: stop, departure_time },
                LegView { arrival_code, departure_time: onward[j].1 },
            ],
        ),
    decreases onward.len(),
{
    let before = transfer_plans(arrival_code, stop, departure_time, onward.drop_last());
    if k < before.len() {
        lemma_transfer_plan(arrival_code, stop, departure_time, onward.drop_last(), k)
    } else {
        onward.len() - 1
    }
}

/// A plan of one leg comes from an entry of the origin's window whose
/// pointer names `arrival_code` itself, and leaves when that entry leaves.
/// The place of the entry is returned.
pub proof fn lemma_direct_plan(
    arrival_code: Seq<char>,
    origin: Seq<(Seq<char>, int)>,
    onward: Seq<Seq<(Seq<char>, int)>>,
    count: int,
    k: int,
) -> (i: int)
    requires
        0 <= count <= origin.len(),
        0 <= k < plans(arrival_code, origin, onward, count).len(),
        plans(arrival_code, origin, onward, count)[k] matches Ok(legs) && legs.len() == 1,
    ensures
        0 <= i < count,
        arrival_data_spec(origin[i].0) matches Ok(data) && data.arrival_code == arrival_code,
        plans(arrival_code, origin, onward, count)[k] == Ok::<Seq<LegView>, StoreError>(
            seq![LegView { arrival_code, departure_time: origin[i].1 }],
        ),
    decreases count,
{
    let before = plans(arrival_code, origin, onward, count - 1);
    if k < before.len() {
        lemma_direct_plan(arrival_code, origin, onward, count - 1, k)
    } else {
        let entry = origin[count - 1];
        match arrival_data_spec(entry.0) {
            Ok(data) => {
                if data.arrival_code != arrival_code {
                    lemma_transfer_plan(
                        arrival_code,
                        data.arrival_code,
                        entry.1,
                        onward_at(onward, count - 1),
                        k - before.len(),
                    );
                }
            },
            Err(_) => {},
        }
        count - 1
    }
}

/// A plan of two legs comes from an entry of the origin's window that
/// arrives at a stop other than `arrival_code`, and from one of the onward
/// departures read for that entry whose pointer names `arrival_code`. The
/// first leg goes to the stop and leaves when the entry leaves; the second
/// goes to `arrival_code` and leaves when the onward departure leaves. The
/// places of the entry and of the onward departure are returned.
pub proof fn lemma_two_leg_plan(
    arrival_code: Seq<char>,
    origin: Seq<(Seq<char>, int)>,
    onward: Seq<Seq<(Seq<char>, int)>>,
    count: int,
    k: int,
) -> (at: (int, int))
    requires
        0 <= count <= origin.len(),
        0 <= k < plans(arrival_code, origin, onward, count).len(),
        plans(arrival_code, origin, onward, count)[k] matches Ok(legs) && legs.len() == 2,
    ensures
        0 <= at.0 < count,
        0 <= at.1 < onward_at(onward, at.0).len(),
        arrival_data_spec(origin[at.0].0) matches Ok(stop) && stop.arrival_code != arrival_code
            && plans(arrival_code, origin, onward, count)[k] == Ok::<Seq<LegView>, StoreError>(
            seq![
                LegView { arrival_code: stop.arrival_code, departure_time: origin[at.0].1 },
                LegView { arrival_code, departure_time: onward_at(onward, at.0)[at.1].1 },
            ],
        ),
        arrival_data_spec(onward_at(onward, at.0)[at.1].0) matches Ok(data) && data.arrival_code
            == arrival_code,
    decreases count,
{
    let before = plans(arrival_code, origin, onward, count - 1);
    if k < before.len() {
        lemma_two_leg_plan(arrival_code, origin, onward, count - 1, k)
    } else {
        let entry = origin[count - 1];
        let stop = arrival_data_spec(entry.0)->Ok_0;
        let j = lemma_transfer_plan(
            arrival_code,
            stop.arrival_code,
            entry.1,
            onward_at(onward, count - 1),
            k - before.len(),
        );
        (count - 1, j)
    }
}

/// The plans follow the origin's window: those of its first entries come
/// first, whatever entries follow.
pub proof fn lemma_plans_follow_origin(
    arrival_code: Seq<char>,
    origin: Seq<(Seq<char>, int)>,
    onward: Seq<Seq<(Seq<char>, int)>>,
    first: int,
    count: int,
)
    requires
        0 <= first <= count,
    ensures
        plans(arrival_code, origin, onward, first).len() <= plans(
            arrival_code,
            origin,
            onward,
            count,
        ).len(),
        plans(arrival_code, origin, onward, count).take(
            plans(arrival_code, origin, onward, first).len() as int,
        ) == plans(arrival_code, origin, onward, first),
    decreases count - first,
{
    let head = plans(arrival_code, origin, onward, first);
    if first == count {
        assert(head.take(head.len() as int) =~= head);
    } else {
        lemma_plans_follow_origin(arrival_code, origin, onward, first, count - 1);
        let shorter = plans(arrival_code, origin, onward, count - 1);
        let all = plans(arrival_code, origin, onward, count);
        assert(all.take(head.len() as int) =~= shorter.take(head.len() as int));
    }
}

/// Every onward departure whose pointer names `arrival_code` gives a plan
/// through the stop. The place of the plan is returned.
pub proof fn lemma_onward_is_planned(
    arrival_code: Seq<char>,
    stop: Seq<char>,
    departure_time: int,
    onward: Seq<(Seq<char>, int)>,
    j: int,
) -> (k: int)
    requires
        0 <= j < onward.len(),
        arrival_data_spec(onward[j].0) matches Ok(data) && data.arrival_code == arrival_code,
    ensures
        0 <= k < transfer_plans(arrival_code, stop, departure_time, onward).len(),
        transfer_plans(arrival_code, stop, departure_time, onward)[k] == Ok::<
            Seq<LegView>,
            StoreError,
        >(
            seq![
                LegView { arrival_code: stop, departure_time },
                LegView { arrival_code, departure_time: onward[j].1 },
            ],
        ),
    decreases onward.len(),
{
    let before = transfer_plans(arrival_code, stop, departure_time, onward.drop_last());
    if j == onward.len() - 1 {
        before.len() as int
    } else {
        lemma_onward_is_planned(arrival_code, stop, departure_time, onward.drop_last(), j)
    }
}

/// Every entry of the origin's window whose pointer names `arrival_code`
/// gives a plan of one leg. The place of the plan is returned.
pub proof fn lemma_direct_is_planned(
    arrival_code: Seq<char>,
    origin: Seq<(Seq<char>, int)>,
    onward: Seq<Seq<(Seq<char>, int)>>,
    count: int,
    i: int,
) -> (k: int)
    requires
        0 <= i < count <= origin.len(),
        arrival_data_spec(origin[i].0) matches Ok(data) && data.arrival_code == arrival_code,
    ensures
        0 <= k < plans(arrival_code, origin, onward, count).len(),
        plans(arrival_code, origin, onward, count)[k] == Ok::<Seq<LegView>, StoreError>(
            seq![LegView { arrival_code, departure_time: origin[i].1 }],
        ),
    decreases count,
{
    let before = plans(arrival_code, origin, onward, count - 1);
    if i == count - 1 {
        before.len() as int
    } else {
        lemma_direct_is_planned(arrival_code, origin, onward, count - 1, i)
    }
}

/// Every entry of the origin's window that arrives at a stop other than
/// `arrival_code`, with every onward departure read for it whose pointer
/// names `arrival_code`, gives a plan of two legs. The place of the plan is
/// returned.
pub proof fn lemma_transfer_is_planned(
    arrival_code: Seq<char>,
    origin: Seq<(Seq<char>, int)>,
    onward: Seq<Seq<(Seq<char>, int)>>,
    count: int,
    i: int,
    j: int,
) -> (k: int)
    requires
        0 <= i < count <= origin.len(),
        0 <= j < onward_at(onward, i).len(),
        arrival_data_spec(origin[i].0) matches Ok(stop) && stop.arrival_code != arrival_code,
        arrival_data_spec(onward_at(onward, i)[j].0) matches Ok(data) && data.arrival_code
            == arrival_code,
    ensures
        0 <= k < plans(arrival_code, origin, onward, count).len(),
        plans(arrival_code, origin, onward, count)[k] == Ok::<Seq<LegView>, StoreError>(
            seq![
                LegView {
                    arrival_code: arrival_data_spec(origin[i].0)->Ok_0.arrival_code,
                    departure_time: origin[i].1,
                },
                LegView { arrival_code, departure_time: onward_at(onward, i)[j].1 },
            ],
        ),
    decreases count,
{
    let before = plans(arrival_code, origin, onward, count - 1);
    if i == count - 1 {
        let stop = arrival_data_spec(origin[i].0)->Ok_0;
        let k = lemma_onward_is_planned(
            arrival_code,
            stop.arrival_code,
            origin[i].1,
            onward_at(onward, i),
            j,
        );
        before.len() + k
    } else {
        lemma_transfer_is_planned(arrival_code, origin, onward, count - 1, i, j)
    }
}

/// The window of departures that a search for `departure_time` starts from.
pub fn origin_query(departure_code: &str, departure_time: i64) -> (window: Window)
    ensures
        window@ == origin_window(departure_code@, departure_time as int),
{
    let end = if departure_time <= i64::MAX - DAY {
        departure_time + DAY
    } else {
        i64::MAX
    };
    Window { departure_code: String::from_str(departure_code), start: departure_time, end }
}

/// The onward departures to look at for one entry of the origin's window.
pub fn transfer_query(arrival_code: &str, entry: &(String, i32)) -> (window: Option<Window>)
    ensures
        window_view(window) == transfer_window(arrival_code@, (entry.0@, entry.1 as int)),
{
    match get_arrival_data(entry.0.as_str()) {
        Ok(data) => {
            if data.arrival_code == String::from_str(arrival_code) {
                None
            } else {
                Some(
                    Window {
                        departure_code: data.arrival_code,
                        start: data.arrival_time as i64 + MIN_CONNECTION,
                        end: data.arrival_time as i64 + MAX_CONNECTION,
                    },
                )
            }
        },
        Err(_) => None,
    }
}

/// For each entry of the origin's window, the onward departures to look at.
pub fn transfer_queries(arrival_code: &str, origin: &Vec<(String, i32)>) -> (windows: Vec<
    Option<Window>,
>)
    ensures
        windows.len() == origin.len(),
        forall|i: int|
            0 <= i < origin.len() ==> window_view(#[trigger] windows[i]) == transfer_window(
                arrival_code@,
                entries_view(origin@)[i],
            ),
{
    let mut windows: Vec<Option<Window>> = Vec::new();
    let mut i: usize = 0;
    while i < origin.len()
        invariant
            i <= origin.len(),
            windows.len() == i,
            forall|k: int|
                0 <= k < i ==> window_view(#[trigger] windows[k]) == transfer_window(
                    arrival_code@,
                    entries_view(origin@)[k],
                ),
        decreases origin.len() - i,
    {
        windows.push(transfer_query(arrival_code, &origin[i]));
        i = i + 1;
    }
    windows
}

/// The plans through one stop. `direct_arrival_code` is the stop,
/// `departure_time` the time at which the ticket to it leaves, and
/// `tickets_with_transfer` the onward departures read for it.
pub fn get_transfer_tickets(
    arrival_code: &str,
    direct_arrival_code: &str,
    departure_time: i32,
    tickets_with_transfer: &Vec<(String, i32)>,
) -> (transfer_tickets: Vec<Result<Vec<Leg>, StoreError>>)
    ensures
        plans_view(transfer_tickets@) == transfer_plans(
            arrival_code@,
            direct_arrival_code@,
            departure_time as int,
            entries_view(tickets_with_transfer@),
        ),
        forall|k: int|
            0 <= k < transfer_tickets.len() ==> ((#[trigger] transfer_tickets[k]) matches Ok(legs)
                ==> legs.len() == 2),
{
    let ghost onward = entries_view(tickets_with_transfer@);
    let wanted = String::from_str(arrival_code);
    let mut transfer_tickets: Vec<Result<Vec<Leg>, StoreError>> = Vec::new();
    let mut i: usize = 0;
    assert(onward.take(0) =~= Seq::<(Seq<char>, int)>::empty());
    assert(plans_view(transfer_tickets@) =~= Seq::<Result<Seq<LegView>, StoreError>>::empty());
    while i < tickets_with_transfer.len()
        invariant
            i <= tickets_with_transfer.len(),
            onward == entries_view(tickets_with_transfer@),
            wanted@ == arrival_code@,
            forall|k: int|
                0 <= k < transfer_tickets.len() ==> ((#[trigger] transfer_tickets[k]) matches Ok(legs)
                    ==> legs.len() == 2),
            plans_view(transfer_tickets@) == transfer_plans(
                arrival_code@,
                direct_arrival_code@,
                departure_time as int,
                onward.take(i as int),
            ),
        decreases tickets_with_transfer.len() - i,
    {
        let ghost before = plans_view(transfer_tickets@);
        let ghost prior = transfer_tickets@;
        proof {
            let done = onward.take(i + 1);
            assert(done.drop_last() =~= onward.take(i as int));
            assert(done.last() == onward[i as int]);
        }
        match get_arrival_data(tickets_with_transfer[i].0.as_str()) {
            Ok(data) => {
                if data.arrival_code == wanted {
                    let mut legs: Vec<Leg> = Vec::new();
                    legs.push(
                        Leg { arrival_code: String::from_str(direct_arrival_code), departure_time },
                    );
                    legs.push(
                        Leg {
                            arrival_code: data.arrival_code,
                            departure_time: tickets_with_transfer[i].1,
                        },
                    );
                    let ghost two = legs_view(legs@);
                    assert(two =~= seq![
                        LegView {
                            arrival_code: direct_arrival_code@,
                            departure_time: departure_time as int,
                        },
                        LegView { arrival_code: arrival_code@, departure_time: onward[i as int].1 },
                    ]);
                    transfer_tickets.push(Ok(legs));
                    assert(plans_view(transfer_tickets@) =~= before + seq![
                        Ok::<Seq<LegView>, StoreError>(two),
                    ]);
                } else {
                    assert(plans_view(transfer_tickets@) =~= before + Seq::<
                        Result<Seq<LegView>, StoreError>,
                    >::empty());
                }
            },
            Err(e) => {
                transfer_tickets.push(Err(e));
                assert(plans_view(transfer_tickets@) =~= before + seq![
                    Err::<Seq<LegView>, StoreError>(e),
                ]);
            },
        }
        i = i + 1;
    }
    assert(onward.take(tickets_with_transfer.len() as int) =~= onward);
    transfer_tickets
}

/// The plans of a search for `arrival_code`, in the order in which they are
/// found: entry by entry of the origin's window `origin`, and for an entry
/// that needs a transfer, departure by departure of the onward departures
/// read for it, which stand in `onward` at the entry's place.
pub fn plan_tickets(
    arrival_code: &str,
    origin: &Vec<(String, i32)>,
    onward: &Vec<Vec<(String, i32)>>,
) -> (tickets: Vec<Result<Vec<Leg>, StoreError>>)
    ensures
        plans_view(tickets@) == plans(
            arrival_code@,
            entries_view(origin@),
            lists_view(onward@),
            origin.len() as int,
        ),
        forall|k: int|
            0 <= k < tickets.len() ==> ((#[trigger] tickets[k]) matches Ok(legs) ==> 1 <= legs.len()
                <= 2),
{
    let ghost entries = entries_view(origin@);
    let ghost lists = lists_view(onward@);
    let wanted = String::from_str(arrival_code);
    let none: Vec<(String, i32)> = Vec::new();
    let mut tickets: Vec<Result<Vec<Leg>, StoreError>> = Vec::new();
    let mut i: usize = 0;
    assert(plans_view(tickets@) =~= Seq::<Result<Seq<LegView>, StoreError>>::empty());
    assert(entries_view(none@) =~= Seq::<(Seq<char>, int)>::empty());
    while i < origin.len()
        invariant
            i <= origin.len(),
            entries == entries_view(origin@),
            lists == lists_view(onward@),
            wanted@ == arrival_code@,
            none@.len() == 0,
            entries_view(none@) == Seq::<(Seq<char>, int)>::empty(),
            plans_view(tickets@) == plans(arrival_code@, entries, lists, i as int),
            forall|k: int|
                0 <= k < tickets.len() ==> ((#[trigger] tickets[k]) matches Ok(legs) ==> 1
                    <= legs.len() <= 2),
        decreases origin.len() - i,
    {
        let ghost before = plans_view(tickets@);
        match get_arrival_data(origin[i].0.as_str()) {
            Ok(data) => {
                if data.arrival_code == wanted {
                    let mut legs: Vec<Leg> = Vec::new();
                    legs.push(Leg { arrival_code: data.arrival_code, departure_time: origin[i].1 });
                    let ghost one = legs_view(legs@);
                    assert(one =~= seq![
                        LegView { arrival_code: arrival_code@, departure_time: entries[i as int].1 },
                    ]);
                    tickets.push(Ok(legs));
                    assert(plans_view(tickets@) =~= before + seq![
                        Ok::<Seq<LegView>, StoreError>(one),
                    ]);
                } else {
                    let read: &Vec<(String, i32)> = if i < onward.len() {
                        &onward[i]
                    } else {
                        &none
                    };
                    assert(entries_view(read@) == onward_at(lists, i as int));
                    let mut transfer_tickets = get_transfer_tickets(
                        arrival_code,
                        data.arrival_code.as_str(),
                        origin[i].1,
                        read,
                    );
                    let ghost more = plans_view(transfer_tickets@);
                    tickets.append(&mut transfer_tickets);
                    assert(plans_view(tickets@) =~= before + more);
                }
            },
            Err(e) => {
                tickets.push(Err(e));
                assert(plans_view(tickets@) =~= before + seq![Err::<Seq<LegView>, StoreError>(e)]);
            },
        }
        i = i + 1;
    }
    tickets
}

} // verus!
