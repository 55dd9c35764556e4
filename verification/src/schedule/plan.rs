//! What a timetable becomes when an entry is added or deleted, as functions on
//! slots, and the proofs that a partition of the day stays one.

use crate::schedule::coverage::{
    all_proper, holders, lemma_holders_concat, lemma_holders_piece, lemma_holders_push,
    lemma_subtract_is_difference, lemma_subtract_keeps_proper,
};
use crate::schedule::entry::{default_slot, periods_of, start_keys, Slot};
use crate::schedule::partition::{
    is_partition, lemma_holder_exists, lemma_partition_apart, lemma_partition_is_chain,
    lemma_single_holder,
};
use crate::schedule::period::{span, TimePeriod};
use crate::schedule::sorting::{
    arranged, lemma_arranged_keeps, lemma_holders_remove, lemma_holders_update,
    lemma_stable_order, stable_order,
};
use crate::time_of_day::TimeOfDay;
use vstd::prelude::*;

verus! {

/// The slot of a piece of `slot`: same name and state, the given period, and an id
/// yet to be drawn.
pub open spec fn piece_of(slot: Slot, period: TimePeriod) -> Slot {
    Slot { id: None, name: slot.name, period, state: slot.state }
}

/// What is left of one slot when `taken` is given to another entry: the slot itself
/// where it does not overlap `taken`, else one slot for each piece that subtraction
/// leaves of its period.
pub open spec fn clipped(slot: Slot, taken: TimePeriod) -> Seq<Slot> {
    if !slot.period.spec_overlaps(taken) {
        seq![slot]
    } else {
        slot.period.spec_subtract(taken).map_values(|period: TimePeriod| piece_of(slot, period))
    }
}

/// What is left of all the slots, in their order.
pub open spec fn clipped_all(slots: Seq<Slot>, taken: TimePeriod) -> Seq<Slot>
    decreases slots.len(),
{
    if slots.len() == 0 {
        Seq::empty()
    } else {
        clipped_all(slots.drop_last(), taken) + clipped(slots.last(), taken)
    }
}

/// The slots in stable order of their starts.
pub open spec fn by_start(slots: Seq<Slot>) -> Seq<Slot> {
    arranged(slots, stable_order(start_keys(slots)))
}

/// The timetable after `entry` is added: what is left of the old slots, then the
/// new one, all in stable order of their starts.
pub open spec fn with_entry(slots: Seq<Slot>, entry: Slot) -> Seq<Slot> {
    by_start(clipped_all(slots, entry.period).push(entry))
}

/// The entries on which adding `entry` keeps a partition a partition: the period is
/// proper, and the whole day is added only to a timetable of one entry.
pub open spec fn can_take(slots: Seq<Slot>, entry: Slot) -> bool {
    &&& entry.period.is_proper()
    &&& entry.period.spec_is_full_day() ==> slots.len() == 1
}

/// The period from `start` to `end`, or the whole day where the two are the same.
pub open spec fn joined(start: TimeOfDay, end: TimeOfDay) -> TimePeriod {
    if start == end {
        span(TimeOfDay::spec_midnight(), TimeOfDay::spec_midnight())
    } else {
        span(start, end)
    }
}

/// The index of the slot that takes over the time of slot `k`: the one before it,
/// and for the first slot the last one.
pub open spec fn heir_of(slots: Seq<Slot>, k: int) -> int {
    if k == 0 {
        slots.len() - 1
    } else {
        k - 1
    }
}

/// The timetable after slot `k` is deleted. The slot before it, cyclically, is
/// extended to the end of the deleted one. The only slot of a timetable is replaced
/// by the default slot.
pub open spec fn without_slot(slots: Seq<Slot>, k: int) -> Seq<Slot> {
    if slots.len() <= 1 {
        seq![default_slot()]
    } else {
        let heir = heir_of(slots, k);
        let longer = Slot {
            period: joined(slots[heir].period.start, slots[k].period.end),
            ..slots[heir]
        };
        slots.update(heir, longer).remove(k)
    }
}

/// The index of the first slot with the given id, or the number of slots where
/// there is none.
pub open spec fn first_with_id(slots: Seq<Slot>, id: u128) -> int
    decreases slots.len(),
{
    if slots.len() == 0 {
        0
    } else {
        let before = first_with_id(slots.drop_last(), id);
        if before < slots.len() - 1 || slots.last().id == Some(id) {
            before
        } else {
            slots.len() as int
        }
    }
}

/// The index of the first slot whose period holds the time, or the number of slots
/// where there is none.
pub open spec fn first_holding(slots: Seq<Slot>, time: TimeOfDay) -> int
    decreases slots.len(),
{
    if slots.len() == 0 {
        0
    } else {
        let before = first_holding(slots.drop_last(), time);
        if before < slots.len() - 1 || slots.last().period.spec_contains(time) {
            before
        } else {
            slots.len() as int
        }
    }
}

/// `first_with_id` is the least index of a slot with the id.
pub proof fn lemma_first_with_id(slots: Seq<Slot>, id: u128)
    ensures
        0 <= first_with_id(slots, id) <= slots.len(),
        first_with_id(slots, id) < slots.len() ==> slots[first_with_id(slots, id)].id == Some(id),
        forall|i: int| 0 <= i < first_with_id(slots, id) ==> (#[trigger] slots[i]).id != Some(id),
    decreases slots.len(),
{
    if slots.len() > 0 {
        let shorter = slots.drop_last();
        lemma_first_with_id(shorter, id);
        assert forall|i: int| 0 <= i < first_with_id(slots, id) implies (#[trigger] slots[i]).id
            != Some(id) by {
            if i < shorter.len() {
                assert(shorter[i] == slots[i]);
            }
        }
    }
}

/// `first_holding` is the least index of a slot whose period holds the time.
pub proof fn lemma_first_holding(slots: Seq<Slot>, time: TimeOfDay)
    ensures
        0 <= first_holding(slots, time) <= slots.len(),
        first_holding(slots, time) < slots.len() ==> slots[first_holding(
            slots,
            time,
        )].period.spec_contains(time),
        forall|i: int|
            0 <= i < first_holding(slots, time) ==> !(#[trigger] slots[i]).period.spec_contains(
                time,
            ),
    decreases slots.len(),
{
    if slots.len() > 0 {
        let shorter = slots.drop_last();
        lemma_first_holding(shorter, time);
        assert forall|i: int| 0 <= i < first_holding(slots, time) implies !(
        #[trigger] slots[i]).period.spec_contains(time) by {
            if i < shorter.len() {
                assert(shorter[i] == slots[i]);
            }
        }
    }
}

/// An index is `first_with_id` when the slot there has the id and none before has.
pub proof fn lemma_first_with_id_is(slots: Seq<Slot>, id: u128, k: int)
    requires
        0 <= k <= slots.len(),
        k < slots.len() ==> slots[k].id == Some(id),
        forall|i: int| 0 <= i < k ==> (#[trigger] slots[i]).id != Some(id),
    ensures
        first_with_id(slots, id) == k,
{
    lemma_first_with_id(slots, id);
    let found = first_with_id(slots, id);
    if found < k {
        assert(slots[found].id != Some(id));
    }
}

/// An index is `first_holding` when the slot there holds the time and none before
/// does.
pub proof fn lemma_first_holding_is(slots: Seq<Slot>, time: TimeOfDay, k: int)
    requires
        0 <= k <= slots.len(),
        k < slots.len() ==> slots[k].period.spec_contains(time),
        forall|i: int| 0 <= i < k ==> !(#[trigger] slots[i]).period.spec_contains(time),
    ensures
        first_holding(slots, time) == k,
{
    lemma_first_holding(slots, time);
    let found = first_holding(slots, time);
    if found < k {
        assert(!slots[found].period.spec_contains(time));
    }
}

/// In a partition every time is held by some slot.
pub proof fn lemma_partition_holds(slots: Seq<Slot>, time: TimeOfDay)
    requires
        is_partition(periods_of(slots)),
    ensures
        first_holding(slots, time) < slots.len(),
{
    let periods = periods_of(slots);
    assert(holders(periods, time) == 1);
    lemma_holder_exists(periods, time);
    let i = choose|i: int| 0 <= i < periods.len() && (#[trigger] periods[i]).spec_contains(time);
    lemma_first_holding(slots, time);
    if first_holding(slots, time) >= slots.len() {
        assert(!slots[i].period.spec_contains(time));
    }
}

/// The periods of what is left of one slot are what subtraction leaves of its
/// period.
pub proof fn lemma_clipped_periods(slot: Slot, taken: TimePeriod)
    ensures
        periods_of(clipped(slot, taken)) == slot.period.spec_subtract(taken),
{
    assert(periods_of(clipped(slot, taken)) =~= slot.period.spec_subtract(taken));
}

/// What is left of a timetable holds a time exactly as often as the timetable did
/// where `taken` does not hold it, and never where `taken` holds it. Proper periods
/// leave proper periods.
pub proof fn lemma_clipped_all(slots: Seq<Slot>, taken: TimePeriod, time: TimeOfDay)
    requires
        taken.spec_is_full_day() ==> forall|i: int|
            0 <= i < slots.len() ==> (#[trigger] slots[i]).period.spec_is_full_day(),
    ensures
        holders(periods_of(clipped_all(slots, taken)), time) == if taken.spec_contains(time) {
            0
        } else {
            holders(periods_of(slots), time)
        },
        all_proper(periods_of(slots)) ==> all_proper(periods_of(clipped_all(slots, taken))),
    decreases slots.len(),
{
    if slots.len() > 0 {
        let shorter = slots.drop_last();
        let last = slots.last();
        assert forall|i: int| 0 <= i < shorter.len() implies (
        #[trigger] shorter[i]).period.spec_is_full_day() == slots[i].period.spec_is_full_day() by {}
        lemma_clipped_all(shorter, taken, time);
        lemma_clipped_periods(last, taken);
        assert(slots[slots.len() - 1] == last);
        lemma_subtract_is_difference(last.period, taken, time);
        let left = periods_of(clipped_all(shorter, taken));
        let right = periods_of(clipped(last, taken));
        assert(periods_of(clipped_all(slots, taken)) =~= left + right);
        lemma_holders_concat(left, right, time);
        assert(periods_of(slots).drop_last() =~= periods_of(shorter));
        if all_proper(periods_of(slots)) {
            assert(periods_of(slots)[slots.len() - 1].is_proper());
            lemma_subtract_keeps_proper(last.period, taken);
            assert forall|i: int| 0 <= i < shorter.len() implies (#[trigger] periods_of(
                shorter,
            )[i]).is_proper() by {
                assert(periods_of(slots)[i].is_proper());
            }
        }
    } else {
        assert(periods_of(clipped_all(slots, taken)) =~= Seq::empty());
        assert(periods_of(slots) =~= Seq::empty());
    }
}

/// A partition of one period is the whole day.
pub proof fn lemma_single_is_full(slots: Seq<Slot>)
    requires
        is_partition(periods_of(slots)),
        slots.len() == 1,
    ensures
        slots[0].period.spec_is_full_day(),
{
    lemma_partition_is_chain(periods_of(slots));
}

/// Adding an entry keeps the coverage invariant: where the timetable is a
/// partition of the day and the entry is one that it can take, the timetable with
/// the entry is a partition of the day again.
pub proof fn lemma_with_entry_is_partition(slots: Seq<Slot>, entry: Slot)
    requires
        is_partition(periods_of(slots)),
        can_take(slots, entry),
    ensures
        is_partition(periods_of(with_entry(slots, entry))),
{
    let taken = entry.period;
    let rest = clipped_all(slots, taken);
    let unsorted = rest.push(entry);
    let keys = start_keys(unsorted);
    let order = stable_order(keys);
    let loose = periods_of(unsorted);
    let result = periods_of(with_entry(slots, entry));
    lemma_stable_order(keys);
    assert(result =~= arranged(loose, order));
    assert(loose =~= periods_of(rest).push(taken));
    if taken.spec_is_full_day() {
        lemma_single_is_full(slots);
    }
    assert forall|time: TimeOfDay| #[trigger] holders(result, time) == 1 by {
        lemma_clipped_all(slots, taken, time);
        lemma_holders_push(periods_of(rest), taken, time);
        assert(holders(periods_of(slots), time) == 1);
        lemma_arranged_keeps(loose, keys, time);
    }
    lemma_clipped_all(slots, taken, TimeOfDay::spec_midnight());
    lemma_arranged_keeps(loose, keys, TimeOfDay::spec_midnight());
    assert(all_proper(loose)) by {
        assert forall|i: int| 0 <= i < loose.len() implies (#[trigger] loose[i]).is_proper() by {
            if i < rest.len() {
                assert(periods_of(rest)[i].is_proper());
            }
        }
    }
    assert forall|a: int, b: int| 0 <= a < b < result.len() implies (
    #[trigger] result[a]).start.key() <= (#[trigger] result[b]).start.key() by {
        assert(keys[order[a]] <= keys[order[b]]);
    }
}

/// The timetable after the entries of `added` are added one after the other.
pub open spec fn with_entries(slots: Seq<Slot>, added: Seq<Slot>) -> Seq<Slot>
    decreases added.len(),
{
    if added.len() == 0 {
        slots
    } else {
        with_entry(with_entries(slots, added.drop_last()), added.last())
    }
}

/// Each entry of `added` is one that the timetable can take when its turn comes.
pub open spec fn can_take_all(slots: Seq<Slot>, added: Seq<Slot>) -> bool
    decreases added.len(),
{
    if added.len() == 0 {
        true
    } else {
        &&& can_take_all(slots, added.drop_last())
        &&& can_take(with_entries(slots, added.drop_last()), added.last())
    }
}

/// Any sequence of additions keeps the coverage invariant: a partition of the
/// day is a partition of the day again after entries are added one by one, each
/// one that the timetable can take at its turn. The timetable of a new schedule,
/// one slot for the whole day, is such a partition.
pub proof fn lemma_with_entries_is_partition(slots: Seq<Slot>, added: Seq<Slot>)
    requires
        is_partition(periods_of(slots)),
        can_take_all(slots, added),
    ensures
        is_partition(periods_of(with_entries(slots, added))),
        is_partition(periods_of(seq![default_slot()])),
    decreases added.len(),
{
    if added.len() > 0 {
        lemma_with_entries_is_partition(slots, added.drop_last());
        lemma_with_entry_is_partition(with_entries(slots, added.drop_last()), added.last());
    }
    let whole = default_slot().period;
    assert(periods_of(seq![default_slot()]) =~= seq![whole]);
    assert forall|time: TimeOfDay| #[trigger]
        holders(periods_of(seq![default_slot()]), time) == 1 by {
        lemma_holders_piece(true, whole, time);
    }
}

/// What is left of a timetable holds a time at least as often as what is left of
/// its first slot.
pub proof fn lemma_clipped_all_keeps_first(slots: Seq<Slot>, taken: TimePeriod, time: TimeOfDay)
    requires
        slots.len() >= 1,
    ensures
        holders(periods_of(clipped_all(slots, taken)), time) >= holders(
            periods_of(clipped(slots[0], taken)),
            time,
        ),
    decreases slots.len(),
{
    let shorter = slots.drop_last();
    let left = periods_of(clipped_all(shorter, taken));
    let right = periods_of(clipped(slots.last(), taken));
    assert(periods_of(clipped_all(slots, taken)) =~= left + right);
    lemma_holders_concat(left, right, time);
    if slots.len() == 1 {
        assert(left =~= Seq::<TimePeriod>::empty());
    } else {
        assert(shorter[0] == slots[0]);
        lemma_clipped_all_keeps_first(shorter, taken, time);
    }
}

/// Adding an entry that the timetable cannot take breaks the coverage invariant:
/// a period that is not proper stays in the timetable, and the whole day added to
/// several entries leaves a piece that holds midnight beside it.
pub proof fn lemma_cannot_take(slots: Seq<Slot>, entry: Slot)
    requires
        is_partition(periods_of(slots)),
        !can_take(slots, entry),
    ensures
        !is_partition(periods_of(with_entry(slots, entry))),
{
    let taken = entry.period;
    let rest = clipped_all(slots, taken);
    let unsorted = rest.push(entry);
    let keys = start_keys(unsorted);
    let order = stable_order(keys);
    let loose = periods_of(unsorted);
    let result = periods_of(with_entry(slots, entry));
    let midnight = TimeOfDay::spec_midnight();
    lemma_stable_order(keys);
    assert(result =~= arranged(loose, order));
    if !taken.is_proper() {
        let before = stable_order(keys.drop_last());
        let last = keys.len() - 1;
        let j = crate::schedule::sorting::place_index(before, keys, last);
        lemma_stable_order(keys.drop_last());
        crate::schedule::sorting::lemma_place_index(before, keys, last);
        assert(order[j] == last);
        assert(result[j] == taken);
    } else {
        lemma_partition_is_chain(periods_of(slots));
        assert(slots.len() >= 2);
        let first = slots[0].period;
        assert(periods_of(slots)[0] == first);
        assert(first.end == periods_of(slots)[1].start);
        lemma_clipped_periods(slots[0], taken);
        let piece = span(midnight, first.end);
        assert(first.spec_subtract(taken) =~= seq![piece]);
        lemma_holders_piece(true, piece, midnight);
        lemma_clipped_all_keeps_first(slots, taken, midnight);
        assert(loose =~= periods_of(rest).push(taken));
        lemma_holders_push(periods_of(rest), taken, midnight);
        lemma_arranged_keeps(loose, keys, midnight);
        assert(holders(result, midnight) >= 2);
    }
}

/// Two proper periods that do not overlap, the second starting where the first
/// ends, hold between them the times of the period joined from the first's start to
/// the second's end.
pub proof fn lemma_joined_is_union(short: TimePeriod, gone: TimePeriod, time: TimeOfDay)
    requires
        short.end == gone.start,
        !short.spec_overlaps(gone),
        short.is_proper(),
        gone.is_proper(),
    ensures
        joined(short.start, gone.end).spec_contains(time) == (short.spec_contains(time)
            || gone.spec_contains(time)),
        joined(short.start, gone.end).is_proper(),
{
}

/// In a partition of two or more periods, the period before period `k`,
/// cyclically, ends where period `k` starts and does not overlap it. Of three or
/// more, it does not start where period `k` ends.
pub proof fn lemma_heir_adjoins(periods: Seq<TimePeriod>, k: int, heir: int)
    requires
        is_partition(periods),
        periods.len() >= 2,
        0 <= k < periods.len(),
        heir == if k == 0 {
            periods.len() - 1
        } else {
            k - 1
        },
    ensures
        periods[heir].end == periods[k].start,
        !periods[heir].spec_overlaps(periods[k]),
        periods[heir].is_proper(),
        periods[k].is_proper(),
        periods.len() >= 3 ==> periods[heir].start != periods[k].end,
{
    let n = periods.len() as int;
    lemma_partition_is_chain(periods);
    lemma_partition_apart(periods, heir, k);
    if k >= 1 {
        assert(periods[k - 1].end == periods[k].start);
    }
    if n >= 3 && periods[heir].start == periods[k].end {
        let m = if heir != 0 && k != 0 {
            0int
        } else if heir != 1 && k != 1 {
            1int
        } else {
            2int
        };
        let third = periods[m];
        assert(third.is_proper());
        assert(third.spec_contains(third.start));
        assert(holders(periods, third.start) == 1);
        lemma_joined_is_union(periods[heir], periods[k], third.start);
        if periods[heir].spec_contains(third.start) {
            lemma_single_holder(periods, m, heir, third.start);
        } else {
            lemma_single_holder(periods, m, k, third.start);
        }
    }
}

/// Deleting an entry keeps the coverage invariant: the slot before the deleted one
/// takes over its time, so the timetable is a partition of the day again.
pub proof fn lemma_without_slot_is_partition(slots: Seq<Slot>, k: int)
    requires
        is_partition(periods_of(slots)),
        0 <= k < slots.len(),
    ensures
        is_partition(periods_of(without_slot(slots, k))),
{
    let old_periods = periods_of(slots);
    let n = slots.len() as int;
    let result = periods_of(without_slot(slots, k));
    if n == 1 {
        let whole = span(TimeOfDay::spec_midnight(), TimeOfDay::spec_midnight());
        assert(result =~= seq![whole]);
        assert forall|time: TimeOfDay| #[trigger] holders(result, time) == 1 by {
            lemma_holders_piece(true, whole, time);
        }
    } else {
        let heir = heir_of(slots, k);
        let gone = old_periods[k];
        let short = old_periods[heir];
        let long = joined(short.start, gone.end);
        let updated = old_periods.update(heir, long);
        assert(result =~= updated.remove(k));
        lemma_heir_adjoins(old_periods, k, heir);
        lemma_joined_is_union(short, gone, TimeOfDay::spec_midnight());
        assert forall|time: TimeOfDay| #[trigger] holders(result, time) == 1 by {
            assert(holders(old_periods, time) == 1);
            lemma_holders_update(old_periods, heir, long, time);
            lemma_holders_remove(updated, k, time);
            lemma_joined_is_union(short, gone, time);
            if short.spec_contains(time) && gone.spec_contains(time) {
                lemma_single_holder(old_periods, heir, k, time);
            }
            if !short.spec_contains(time) && !gone.spec_contains(time) {
                lemma_holder_exists(old_periods, time);
            }
        }
        lemma_removal_keeps_order(old_periods, k, heir, long);
    }
}

/// Replacing one period of a sorted sequence of proper periods by a proper period
/// with the same start, or the only remaining one by any proper period, and taking
/// another out leaves a sorted sequence of proper periods.
proof fn lemma_removal_keeps_order(periods: Seq<TimePeriod>, k: int, heir: int, long: TimePeriod)
    requires
        is_partition(periods),
        periods.len() >= 2,
        0 <= k < periods.len(),
        0 <= heir < periods.len(),
        heir != k,
        long.is_proper(),
        periods.len() >= 3 ==> long.start == periods[heir].start,
    ensures
        all_proper(periods.update(heir, long).remove(k)),
        crate::schedule::partition::sorted_by_start(periods.update(heir, long).remove(k)),
{
    let updated = periods.update(heir, long);
    let result = updated.remove(k);
    assert forall|i: int| 0 <= i < result.len() implies (#[trigger] result[i]).is_proper() by {
        let from = if i < k {
            i
        } else {
            i + 1
        };
        assert(result[i] == updated[from]);
        if from != heir {
            assert(periods[from].is_proper());
        }
    }
    assert forall|a: int, b: int| 0 <= a < b < result.len() implies (
    #[trigger] result[a]).start.key() <= (#[trigger] result[b]).start.key() by {
        let from_a = if a < k {
            a
        } else {
            a + 1
        };
        let from_b = if b < k {
            b
        } else {
            b + 1
        };
        assert(result[a] == updated[from_a] && result[b] == updated[from_b]);
        assert(periods[from_a].start.key() <= periods[from_b].start.key());
    }
}

} // verus!
