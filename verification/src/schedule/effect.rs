//! What adding and deleting an entry does to the state that a timetable asks for
//! at each time of the day.

use crate::schedule::coverage::{holders, lemma_subtract_is_difference};
use crate::schedule::entry::{fill, fills, periods_of, start_keys, HeatingState, Slot};
use crate::schedule::partition::{
    is_partition, lemma_holder_exists, lemma_partition_is_chain, lemma_single_holder,
};
use crate::schedule::period::TimePeriod;
use crate::schedule::plan::{
    can_take, clipped, clipped_all, first_holding, heir_of, lemma_first_holding,
    lemma_heir_adjoins, lemma_joined_is_union, lemma_partition_holds,
    lemma_with_entry_is_partition, lemma_without_slot_is_partition, with_entry, without_slot,
};
use crate::schedule::sorting::{arranged, lemma_place_index, lemma_stable_order, place_index, stable_order};
use crate::time_of_day::TimeOfDay;
use vstd::prelude::*;

verus! {

/// The state of the first slot that holds the time, and off where none does.
pub open spec fn state_at(slots: Seq<Slot>, time: TimeOfDay) -> HeatingState {
    if first_holding(slots, time) < slots.len() {
        slots[first_holding(slots, time)].state
    } else {
        HeatingState::Off
    }
}

/// The state that a timetable asks for once `entry` wins its period: that of the
/// entry at the times of its period, and what the timetable asked before at all
/// others.
pub open spec fn state_with(slots: Seq<Slot>, entry: Slot, time: TimeOfDay) -> HeatingState {
    if entry.period.spec_contains(time) {
        entry.state
    } else {
        state_at(slots, time)
    }
}

/// The state that a timetable asks for once slot `k` has passed its time to the
/// slot before it: that of the slot before at the times of slot `k`, and what the
/// timetable asked before at all others. A timetable that loses its only slot asks
/// for off.
pub open spec fn state_without(slots: Seq<Slot>, k: int, time: TimeOfDay) -> HeatingState {
    if slots.len() == 1 {
        HeatingState::Off
    } else if slots[k].period.spec_contains(time) {
        slots[heir_of(slots, k)].state
    } else {
        state_at(slots, time)
    }
}

/// In a partition the slot that holds a time is the first that holds it.
pub proof fn lemma_holder_is_first(slots: Seq<Slot>, j: int, time: TimeOfDay)
    requires
        is_partition(periods_of(slots)),
        0 <= j < slots.len(),
        slots[j].period.spec_contains(time),
    ensures
        first_holding(slots, time) == j,
        state_at(slots, time) == slots[j].state,
{
    let periods = periods_of(slots);
    lemma_first_holding(slots, time);
    lemma_partition_holds(slots, time);
    let found = first_holding(slots, time);
    assert(holders(periods, time) == 1);
    assert(periods[found].spec_contains(time));
    assert(periods[j].spec_contains(time));
    lemma_single_holder(periods, found, j, time);
}

/// The stable order lists every index.
pub proof fn lemma_stable_order_lists(keys: Seq<int>, k: int)
    requires
        0 <= k < keys.len(),
    ensures
        exists|j: int| 0 <= j < keys.len() && #[trigger] stable_order(keys)[j] == k,
    decreases keys.len(),
{
    let shorter = keys.drop_last();
    let before = stable_order(shorter);
    let last = keys.len() - 1;
    let place = place_index(before, keys, last);
    lemma_stable_order(keys);
    lemma_stable_order(shorter);
    lemma_place_index(before, keys, last);
    let order = before.insert(place, last);
    if k == last {
        assert(order[place] == k);
    } else {
        lemma_stable_order_lists(shorter, k);
        let found = choose|j: int| 0 <= j < shorter.len() && #[trigger] before[j] == k;
        if found < place {
            assert(order[found] == k);
        } else {
            assert(order[found + 1] == k);
        }
    }
}

/// Each slot that is left of a slot of the timetable stands in what is left of the
/// timetable.
pub proof fn lemma_clipped_stays(slots: Seq<Slot>, taken: TimePeriod, i: int, m: int)
    requires
        0 <= i < slots.len(),
        0 <= m < clipped(slots[i], taken).len(),
    ensures
        exists|q: int|
            0 <= q < clipped_all(slots, taken).len() && #[trigger] clipped_all(slots, taken)[q]
                == clipped(slots[i], taken)[m],
    decreases slots.len(),
{
    let shorter = slots.drop_last();
    let left = clipped_all(shorter, taken);
    let all = clipped_all(slots, taken);
    if i == slots.len() - 1 {
        assert(all[left.len() + m] == clipped(slots[i], taken)[m]);
    } else {
        assert(shorter[i] == slots[i]);
        lemma_clipped_stays(shorter, taken, i, m);
        let q = choose|q: int|
            0 <= q < left.len() && #[trigger] left[q] == clipped(slots[i], taken)[m];
        assert(all[q] == left[q]);
    }
}

/// The new entry wins its period and nothing else changes: after an entry that the
/// timetable can take is added to a partition of the day, the timetable asks for
/// the state of the new entry at every time of its period, and for what it asked
/// before at every other time.
pub proof fn lemma_new_entry_wins(slots: Seq<Slot>, entry: Slot, time: TimeOfDay)
    requires
        is_partition(periods_of(slots)),
        can_take(slots, entry),
    ensures
        state_at(with_entry(slots, entry), time) == state_with(slots, entry, time),
{
    let taken = entry.period;
    let rest = clipped_all(slots, taken);
    let loose = rest.push(entry);
    let keys = start_keys(loose);
    let order = stable_order(keys);
    let result = with_entry(slots, entry);
    lemma_with_entry_is_partition(slots, entry);
    lemma_stable_order(keys);
    assert(result == arranged(loose, order));
    if taken.spec_contains(time) {
        lemma_stable_order_lists(keys, rest.len() as int);
        let j = choose|j: int| 0 <= j < keys.len() && #[trigger] order[j] == rest.len();
        assert(result[j] == entry);
        lemma_holder_is_first(result, j, time);
    } else {
        lemma_partition_holds(slots, time);
        lemma_first_holding(slots, time);
        let i = first_holding(slots, time);
        let held = slots[i];
        let pieces = held.period.spec_subtract(taken);
        let parts = clipped(held, taken);
        if taken.spec_is_full_day() {
            lemma_partition_is_chain(periods_of(slots));
            assert(periods_of(slots)[0] == slots[0].period);
        }
        lemma_subtract_is_difference(held.period, taken, time);
        lemma_holder_exists(pieces, time);
        let m = choose|m: int| 0 <= m < pieces.len() && (#[trigger] pieces[m]).spec_contains(time);
        assert(parts.len() == pieces.len());
        assert(parts[m].period == pieces[m] && parts[m].state == held.state);
        lemma_clipped_stays(slots, taken, i, m);
        let q = choose|q: int| 0 <= q < rest.len() && #[trigger] rest[q] == parts[m];
        assert(loose[q] == parts[m]);
        lemma_stable_order_lists(keys, q);
        let j = choose|j: int| 0 <= j < keys.len() && #[trigger] order[j] == q;
        assert(result[j] == parts[m]);
        lemma_holder_is_first(result, j, time);
    }
}

/// The slot before a deleted slot takes over its time and nothing else changes:
/// after slot `k` of a partition of several slots is deleted, the timetable asks
/// at every time of the deleted period for the state of the slot before it, and
/// for what it asked before at every other time. After the only slot is deleted
/// it asks for off at every time.
pub proof fn lemma_heir_takes_over(slots: Seq<Slot>, k: int, time: TimeOfDay)
    requires
        is_partition(periods_of(slots)),
        0 <= k < slots.len(),
    ensures
        state_at(without_slot(slots, k), time) == state_without(slots, k, time),
{
    let result = without_slot(slots, k);
    lemma_without_slot_is_partition(slots, k);
    if slots.len() == 1 {
        assert(result[0].period.spec_contains(time));
        lemma_holder_is_first(result, 0, time);
    } else {
        let heir = heir_of(slots, k);
        let periods = periods_of(slots);
        lemma_heir_adjoins(periods, k, heir);
        assert(periods[heir] == slots[heir].period && periods[k] == slots[k].period);
        lemma_joined_is_union(slots[heir].period, slots[k].period, time);
        let heir_now = if heir < k {
            heir
        } else {
            heir - 1
        };
        assert(result[heir_now].state == slots[heir].state);
        if slots[k].period.spec_contains(time) || slots[heir].period.spec_contains(time) {
            lemma_holder_is_first(result, heir_now, time);
            if slots[heir].period.spec_contains(time) {
                lemma_holder_is_first(slots, heir, time);
            }
        } else {
            lemma_partition_holds(slots, time);
            lemma_first_holding(slots, time);
            let i = first_holding(slots, time);
            let now = if i < k {
                i
            } else {
                i - 1
            };
            assert(result[now] == slots[i]);
            lemma_holder_is_first(result, now, time);
        }
    }
}

/// Slots that agree with a plan ask for the same state as the plan at every time.
pub proof fn lemma_fill_keeps_state(actual: Seq<Slot>, planned: Seq<Slot>, time: TimeOfDay)
    requires
        fill(actual, planned),
    ensures
        first_holding(actual, time) == first_holding(planned, time),
        state_at(actual, time) == state_at(planned, time),
    decreases actual.len(),
{
    if actual.len() > 0 {
        assert forall|i: int| 0 <= i < actual.len() - 1 implies fills(
            #[trigger] actual.drop_last()[i],
            planned.drop_last()[i],
        ) by {
            assert(fills(actual[i], planned[i]));
        }
        lemma_fill_keeps_state(actual.drop_last(), planned.drop_last(), time);
        assert(fills(actual[actual.len() - 1], planned[actual.len() - 1]));
        lemma_first_holding(actual, time);
        lemma_first_holding(planned, time);
        let found = first_holding(actual, time);
        if found < actual.len() {
            assert(fills(actual[found], planned[found]));
        }
    }
}

} // verus!
