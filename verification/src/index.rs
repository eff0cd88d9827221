//! The time index of one departure code: its departures in the order of
//! their times, each with the arrival pointer of its ticket.

use vstd::prelude::*;
use vstd::string::StringExecFns;
use crate::seqs::lemma_filter_contains;
use crate::seqs::lemma_filter_is_stretch;
use crate::seqs::lemma_filter_none_or_all;
use crate::seqs::lemma_filter_places;

verus! {

/// An index as a sequence of (arrival pointer, departure time).
pub open spec fn entries_view(entries: Seq<(String, i32)>) -> Seq<(Seq<char>, int)> {
    entries.map_values(|e: (String, i32)| (e.0@, e.1 as int))
}

/// The entries stand in the order of their departure times.
pub open spec fn sorted_by_time(entries: Seq<(Seq<char>, int)>) -> bool {
    forall|i: int, j: int| 0 <= i <= j < entries.len() ==> entries[i].1 <= entries[j].1
}

/// No arrival pointer stands in the index twice.
pub open spec fn distinct_pointers(entries: Seq<(Seq<char>, int)>) -> bool {
    forall|i: int, j: int| 0 <= i < j < entries.len() ==> entries[i].0 != entries[j].0
}

/// What holds of every time index: its entries stand in the order of their
/// departure times, and each arrival pointer stands in it once.
pub open spec fn in_order(entries: Seq<(Seq<char>, int)>) -> bool {
    sorted_by_time(entries) && distinct_pointers(entries)
}

/// Whether an entry departs from `start` to `end`, both included.
pub open spec fn departs_within(start: int, end: int) -> spec_fn((Seq<char>, int)) -> bool {
    |e: (Seq<char>, int)| start <= e.1 <= end
}

/// The entries that depart from `start` to `end`, both included, in the
/// order of the index.
pub open spec fn window(entries: Seq<(Seq<char>, int)>, start: int, end: int) -> Seq<
    (Seq<char>, int),
> {
    entries.filter(departs_within(start, end))
}

/// Whether an entry is of another pointer and departs at `time` or
/// before.
pub open spec fn other_up_to(pointer: Seq<char>, time: int) -> spec_fn((Seq<char>, int)) -> bool {
    |e: (Seq<char>, int)| e.0 != pointer && e.1 <= time
}

/// Whether an entry is of another pointer and departs after `time`.
pub open spec fn other_after(pointer: Seq<char>, time: int) -> spec_fn((Seq<char>, int)) -> bool {
    |e: (Seq<char>, int)| e.0 != pointer && e.1 > time
}

/// The index after `pointer` was entered with `time`. A pointer stands in an
/// index once: an earlier entry of the same pointer leaves. The new entry
/// comes after the entries of the same time that were there before.
#[verifier::opaque]
pub open spec fn with_departure(entries: Seq<(Seq<char>, int)>, pointer: Seq<char>, time: int) -> Seq<
    (Seq<char>, int),
> {
    entries.filter(other_up_to(pointer, time)).push((pointer, time)) + entries.filter(
        other_after(pointer, time),
    )
}

/// What a filter keeps of an index in order is in order.
pub proof fn lemma_filter_in_order(
    entries: Seq<(Seq<char>, int)>,
    keep: spec_fn((Seq<char>, int)) -> bool,
)
    requires
        in_order(entries),
    ensures
        in_order(entries.filter(keep)),
{
    let at = lemma_filter_places(entries, keep);
    let kept = entries.filter(keep);
    assert forall|i: int, j: int| 0 <= i <= j < kept.len() implies kept[i].1 <= kept[j].1 by {
        assert(kept[i] == entries[at[i]] && kept[j] == entries[at[j]]);
    }
    assert forall|i: int, j: int| 0 <= i < j < kept.len() implies kept[i].0 != kept[j].0 by {
        assert(kept[i] == entries[at[i]] && kept[j] == entries[at[j]]);
    }
}

/// Entering a departure keeps an index in order.
pub proof fn lemma_with_departure_in_order(
    entries: Seq<(Seq<char>, int)>,
    pointer: Seq<char>,
    time: int,
)
    requires
        in_order(entries),
    ensures
        in_order(with_departure(entries, pointer, time)),
{
    reveal(with_departure);
    let a = lemma_filter_places(entries, other_up_to(pointer, time));
    let b = lemma_filter_places(entries, other_after(pointer, time));
    let before = entries.filter(other_up_to(pointer, time));
    let after = entries.filter(other_after(pointer, time));
    let all = with_departure(entries, pointer, time);
    // Where each entry of the new index stood in the old one; the new entry stood nowhere.
    let from = Seq::new(
        all.len(),
        |i: int|
            if i < before.len() {
                a[i]
            } else if i == before.len() {
                -1
            } else {
                b[i - before.len() - 1]
            },
    );
    assert forall|i: int| 0 <= i < all.len() implies if from[i] < 0 {
        #[trigger] all[i] == (pointer, time)
    } else {
        from[i] < entries.len() && all[i] == entries[from[i]] && all[i].0 != pointer && (all[i].1
            <= time <==> i < before.len())
    } by {
        if i < before.len() {
            assert(all[i] == before[i]);
        } else if i > before.len() {
            assert(all[i] == after[i - before.len() - 1]);
        }
    }
    assert forall|i: int, j: int| 0 <= i <= j < all.len() implies all[i].1 <= all[j].1 by {
        if from[i] >= 0 && from[j] >= 0 && i != j {
            if i < before.len() && j < before.len() {
                assert(a[i] < a[j]);
            } else if i > before.len() {
                assert(b[i - before.len() - 1] < b[j - before.len() - 1]);
            }
        }
    }
    assert forall|i: int, j: int| 0 <= i < j < all.len() implies all[i].0 != all[j].0 by {
        if from[i] >= 0 && from[j] >= 0 {
            if i < before.len() && j < before.len() {
                assert(a[i] < a[j]);
            } else if i > before.len() {
                assert(b[i - before.len() - 1] < b[j - before.len() - 1]);
            } else {
                assert(from[i] != from[j]);
                if from[i] < from[j] {
                    assert(entries[from[i]].0 != entries[from[j]].0);
                } else {
                    assert(entries[from[j]].0 != entries[from[i]].0);
                }
            }
        }
    }
}

/// Entering a departure a second time changes nothing.
pub proof fn lemma_with_departure_again(
    entries: Seq<(Seq<char>, int)>,
    pointer: Seq<char>,
    time: int,
)
    ensures
        with_departure(with_departure(entries, pointer, time), pointer, time) == with_departure(
            entries,
            pointer,
            time,
        ),
{
    reveal(with_departure);
    let low = other_up_to(pointer, time);
    let high = other_after(pointer, time);
    let before = entries.filter(low);
    let after = entries.filter(high);
    let a = lemma_filter_places(entries, low);
    let b = lemma_filter_places(entries, high);
    assert(before.push((pointer, time)).filter(low) == before && before.push(
        (pointer, time),
    ).filter(high) == Seq::<(Seq<char>, int)>::empty()) by {
        before.lemma_filter_push((pointer, time), low);
        before.lemma_filter_push((pointer, time), high);
        lemma_filter_none_or_all(before, low);
        lemma_filter_none_or_all(before, high);
    }
    assert(after.filter(high) == after && after.filter(low) == Seq::<(Seq<char>, int)>::empty())
        by {
        lemma_filter_none_or_all(after, low);
        lemma_filter_none_or_all(after, high);
    }
    Seq::filter_distributes_over_add(before.push((pointer, time)), after, low);
    Seq::filter_distributes_over_add(before.push((pointer, time)), after, high);
    assert(before + Seq::<(Seq<char>, int)>::empty() =~= before);
    assert(Seq::<(Seq<char>, int)>::empty() + after =~= after);
}

/// After a departure was entered, the index holds it, and of what it held
/// before, the entries of other pointers.
pub proof fn lemma_with_departure_contains(
    entries: Seq<(Seq<char>, int)>,
    pointer: Seq<char>,
    time: int,
    entry: (Seq<char>, int),
)
    ensures
        with_departure(entries, pointer, time).contains(entry) <==> entry == (pointer, time) || (
        entries.contains(entry) && entry.0 != pointer),
{
    reveal(with_departure);
    let before = entries.filter(other_up_to(pointer, time));
    let after = entries.filter(other_after(pointer, time));
    let all = with_departure(entries, pointer, time);
    lemma_filter_contains(entries, other_up_to(pointer, time), entry);
    lemma_filter_contains(entries, other_after(pointer, time), entry);
    if all.contains(entry) {
        let i = choose|i: int| 0 <= i < all.len() && all[i] == entry;
        if i < before.len() {
            assert(before[i] == entry);
        } else if i > before.len() {
            assert(after[i - before.len() - 1] == entry);
        }
    }
    if entry == (pointer, time) {
        assert(all[before.len() as int] == entry);
    } else if entries.contains(entry) && entry.0 != pointer {
        if entry.1 <= time {
            let i = choose|i: int| 0 <= i < before.len() && before[i] == entry;
            assert(all[i] == entry);
        } else {
            let i = choose|i: int| 0 <= i < after.len() && after[i] == entry;
            assert(all[before.len() + 1 + i] == entry);
        }
    }
}

/// A copy of the entries of `entries` that `keep_up_to` or `keep_after`
/// selects, appended to `out`.
fn push_others(
    out: &mut Vec<(String, i32)>,
    entries: &Vec<(String, i32)>,
    pointer: &String,
    time: i32,
    up_to: bool,
)
    ensures
        entries_view(final(out)@) == entries_view(old(out)@) + entries_view(entries@).filter(
            if up_to {
                other_up_to(pointer@, time as int)
            } else {
                other_after(pointer@, time as int)
            },
        ),
{
    let ghost keep = if up_to {
        other_up_to(pointer@, time as int)
    } else {
        other_after(pointer@, time as int)
    };
    let ghost all = entries_view(entries@);
    let ghost before = entries_view(out@);
    proof {
        reveal(Seq::filter);
        assert(all.take(0) =~= Seq::<(Seq<char>, int)>::empty());
        assert(entries_view(out@) =~= before + all.take(0).filter(keep));
    }
    let mut i: usize = 0;
    while i < entries.len()
        invariant
            i <= entries.len(),
            all == entries_view(entries@),
            keep == if up_to {
                other_up_to(pointer@, time as int)
            } else {
                other_after(pointer@, time as int)
            },
            entries_view(out@) == before + all.take(i as int).filter(keep),
        decreases entries.len() - i,
    {
        let other = entries[i].0 != *pointer;
        let placed = if up_to {
            entries[i].1 <= time
        } else {
            entries[i].1 > time
        };
        proof {
            assert(all.take(i + 1) =~= all.take(i as int).push(all[i as int]));
            all.take(i as int).lemma_filter_push(all[i as int], keep);
            assert(keep(all[i as int]) == (other && placed));
        }
        if other && placed {
            let ghost prior = out@;
            out.push((entries[i].0.clone(), entries[i].1));
            assert(entries_view(out@) =~= entries_view(prior).push(all[i as int]));
            assert(entries_view(out@) =~= before + all.take(i + 1).filter(keep));
        }
        i = i + 1;
    }
    assert(all.take(entries.len() as int) =~= all);
}

/// The index `entries` after `pointer` was entered with `time`.
pub fn add_departure(entries: &Vec<(String, i32)>, pointer: &str, time: i32) -> (r: Vec<
    (String, i32),
>)
    ensures
        entries_view(r@) == with_departure(entries_view(entries@), pointer@, time as int),
{
    let member = String::from_str(pointer);
    let mut out: Vec<(String, i32)> = Vec::new();
    assert(entries_view(out@) =~= Seq::<(Seq<char>, int)>::empty());
    push_others(&mut out, entries, &member, time, true);
    let ghost first = entries_view(out@);
    out.push((member.clone(), time));
    assert(entries_view(out@) =~= first.push((pointer@, time as int)));
    push_others(&mut out, entries, &member, time, false);
    reveal(with_departure);
    assert(entries_view(out@) =~= with_departure(
        entries_view(entries@),
        pointer@,
        time as int,
    ));
    out
}

/// The place of the first entry that departs at `start` or later.
fn first_from(entries: &Vec<(String, i32)>, start: i64) -> (at: usize)
    requires
        sorted_by_time(entries_view(entries@)),
    ensures
        at <= entries.len(),
        forall|i: int| 0 <= i < at ==> (#[trigger] entries_view(entries@)[i]).1 < start,
        forall|i: int| at <= i < entries.len() ==> (#[trigger] entries_view(entries@)[i]).1 >= start,
{
    let ghost all = entries_view(entries@);
    let mut low: usize = 0;
    let mut high: usize = entries.len();
    while low < high
        invariant
            low <= high <= entries.len(),
            all == entries_view(entries@),
            sorted_by_time(all),
            forall|i: int| 0 <= i < low ==> (#[trigger] all[i]).1 < start,
            forall|i: int| high <= i < entries.len() ==> (#[trigger] all[i]).1 >= start,
        decreases high - low,
    {
        let mid: usize = low + (high - low) / 2;
        assert(all[mid as int].1 == entries@[mid as int].1);
        if (entries[mid].1 as i64) < start {
            low = mid + 1;
        } else {
            high = mid;
        }
    }
    low
}

/// The entries of a sorted index that depart from `start` to `end`, both
/// included, in the order of the index.
pub fn departures_between(entries: &Vec<(String, i32)>, start: i64, end: i64) -> (r: Vec<
    (String, i32),
>)
    requires
        sorted_by_time(entries_view(entries@)),
    ensures
        entries_view(r@) == window(entries_view(entries@), start as int, end as int),
{
    let ghost all = entries_view(entries@);
    let from = first_from(entries, start);
    let mut out: Vec<(String, i32)> = Vec::new();
    let mut i: usize = from;
    assert(entries_view(out@) =~= all.subrange(from as int, i as int));
    while i < entries.len() && (entries[i].1 as i64) <= end
        invariant
            from <= i <= entries.len(),
            all == entries_view(entries@),
            entries_view(out@) == all.subrange(from as int, i as int),
            forall|k: int| from <= k < i ==> start <= (#[trigger] all[k]).1 <= end,
            forall|k: int| from <= k < entries.len() ==> (#[trigger] all[k]).1 >= start,
        decreases entries.len() - i,
    {
        let ghost prior = out@;
        assert(all[i as int].1 == entries@[i as int].1);
        out.push((entries[i].0.clone(), entries[i].1));
        assert(entries_view(out@) =~= entries_view(prior).push(all[i as int]));
        assert(entries_view(out@) =~= all.subrange(from as int, i + 1));
        i = i + 1;
    }
    proof {
        if i < entries.len() {
            assert(all[i as int].1 == entries@[i as int].1);
            assert forall|k: int| i <= k < entries.len() implies !(start <= (#[trigger] all[k]).1
                <= end) by {
                assert(all[i as int].1 <= all[k].1);
            }
        }
        lemma_filter_is_stretch(
            all,
            departs_within(start as int, end as int),
            from as int,
            i as int,
        );
    }
    out
}

} // verus!
