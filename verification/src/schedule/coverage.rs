//! Counting the periods that hold a time, and the proof that taking one period out
//! of another leaves exactly the times of the first that the second does not hold.

use crate::schedule::period::{piece_if, span, TimePeriod};
use crate::time_of_day::TimeOfDay;
use vstd::prelude::*;

verus! {

/// How many of `periods` hold `time`.
pub open spec fn holders(periods: Seq<TimePeriod>, time: TimeOfDay) -> nat
    decreases periods.len(),
{
    if periods.len() == 0 {
        0
    } else {
        holders(periods.drop_last(), time) + if periods.last().spec_contains(time) {
            1nat
        } else {
            0nat
        }
    }
}

/// Every period of the sequence is the whole day or holds some time.
pub open spec fn all_proper(periods: Seq<TimePeriod>) -> bool {
    forall|i: int| 0 <= i < periods.len() ==> (#[trigger] periods[i]).is_proper()
}

/// One when `holds` is true, zero otherwise.
pub open spec fn one_if(holds: bool) -> nat {
    if holds {
        1
    } else {
        0
    }
}

/// Appending a period adds one to the count exactly when that period holds the time.
pub proof fn lemma_holders_push(periods: Seq<TimePeriod>, period: TimePeriod, time: TimeOfDay)
    ensures
        holders(periods.push(period), time) == holders(periods, time) + one_if(
            period.spec_contains(time),
        ),
{
    assert(periods.push(period).drop_last() =~= periods);
}

/// The count over a concatenation is the sum of the counts.
pub proof fn lemma_holders_concat(first: Seq<TimePeriod>, second: Seq<TimePeriod>, time: TimeOfDay)
    ensures
        holders(first + second, time) == holders(first, time) + holders(second, time),
    decreases second.len(),
{
    if second.len() == 0 {
        assert(first + second =~= first);
    } else {
        lemma_holders_concat(first, second.drop_last(), time);
        assert((first + second).drop_last() =~= first + second.drop_last());
    }
}

/// The count over a sequence of at most one piece.
pub proof fn lemma_holders_piece(keep: bool, piece: TimePeriod, time: TimeOfDay)
    ensures
        holders(piece_if(keep, piece), time) == one_if(keep && piece.spec_contains(time)),
        holders(seq![piece], time) == one_if(piece.spec_contains(time)),
        holders(Seq::empty(), time) == 0,
{
    lemma_holders_push(Seq::empty(), piece, time);
    assert(seq![piece] =~= Seq::empty().push(piece));
}

/// The count over two optional pieces, one after the other.
pub proof fn lemma_holders_two(
    keep_a: bool,
    a: TimePeriod,
    keep_b: bool,
    b: TimePeriod,
    time: TimeOfDay,
)
    ensures
        holders(piece_if(keep_a, a) + piece_if(keep_b, b), time) == one_if(
            keep_a && a.spec_contains(time),
        ) + one_if(keep_b && b.spec_contains(time)),
{
    lemma_holders_piece(keep_a, a, time);
    lemma_holders_piece(keep_b, b, time);
    lemma_holders_concat(piece_if(keep_a, a), piece_if(keep_b, b), time);
}

/// What is left of a part of the day without `other` holds a time exactly when
/// the part holds it and `other` does not, and holds it once.
pub proof fn lemma_part_without(part: TimePeriod, other: TimePeriod, time: TimeOfDay)
    requires
        !part.spec_is_full_day(),
        other.spec_is_full_day() ==> part.wraps(),
        !part.wraps() || part.end == TimeOfDay::spec_midnight(),
    ensures
        holders(part.part_without(other), time) == one_if(
            part.spec_contains(time) && !other.spec_contains(time),
        ),
{
    let midnight = TimeOfDay::spec_midnight();
    if !part.spec_overlaps(other) {
        lemma_holders_piece(true, part, time);
    } else if other.wraps() {
        let evening = span(other.start, midnight);
        let morning = span(midnight, other.end);
        let head = span(part.start, other.start);
        lemma_holders_piece(true, part, time);
        lemma_holders_piece(true, head, time);
        lemma_holders_two(
            part.start.key() < morning.start.key(),
            span(part.start, morning.start),
            morning.end.key() < part.end.key(),
            span(morning.end, part.end),
            time,
        );
        lemma_holders_two(
            head.start.key() < morning.start.key(),
            span(head.start, morning.start),
            morning.end.key() < head.end.key(),
            span(morning.end, head.end),
            time,
        );
    } else if part.wraps() {
        lemma_holders_two(
            other.start.key() > part.start.key(),
            span(part.start, other.start),
            other.end.key() >= part.start.key() && other.end.key() != 0,
            span(other.end, midnight),
            time,
        );
    } else {
        lemma_holders_two(
            part.start.key() < other.start.key(),
            span(part.start, other.start),
            other.end.key() < part.end.key(),
            span(other.end, part.end),
            time,
        );
    }
}

/// Subtraction is set difference: the pieces of `a.spec_subtract(b)` hold a time
/// exactly when `a` holds it and `b` does not, and no two pieces hold the same
/// time. This holds whenever `b` is not the whole day, and when `b` is the whole
/// day for an `a` that is the whole day too or ends at midnight.
pub proof fn lemma_subtract_is_difference(a: TimePeriod, b: TimePeriod, time: TimeOfDay)
    requires
        b.spec_is_full_day() ==> a.spec_is_full_day() || (a.wraps() && a.end
            == TimeOfDay::spec_midnight()),
    ensures
        holders(a.spec_subtract(b), time) == one_if(a.spec_contains(time) && !b.spec_contains(time)),
{
    let midnight = TimeOfDay::spec_midnight();
    if !a.spec_overlaps(b) {
        lemma_holders_piece(true, a, time);
    } else if a.spec_is_full_day() {
        lemma_holders_piece(true, span(b.end, b.start), time);
        lemma_holders_two(
            b.start != midnight,
            span(midnight, b.start),
            b.end != midnight,
            span(b.end, midnight),
            time,
        );
    } else if a.wraps() && a.end != midnight {
        let evening = span(a.start, midnight);
        let morning = span(midnight, a.end);
        lemma_part_without(evening, b, time);
        lemma_part_without(morning, b, time);
        lemma_holders_concat(evening.part_without(b), morning.part_without(b), time);
    } else {
        lemma_part_without(a, b, time);
    }
}

/// The pieces that subtraction leaves of a proper period are proper periods.
pub proof fn lemma_subtract_keeps_proper(a: TimePeriod, b: TimePeriod)
    requires
        a.is_proper(),
    ensures
        all_proper(a.spec_subtract(b)),
{
    let midnight = TimeOfDay::spec_midnight();
    let evening = span(a.start, midnight);
    let morning = span(midnight, a.end);
    if a.spec_overlaps(b) && !a.spec_is_full_day() && a.wraps() && a.end != midnight {
        lemma_part_keeps_proper(evening, b);
        lemma_part_keeps_proper(morning, b);
    } else if a.spec_overlaps(b) && !a.spec_is_full_day() {
        lemma_part_keeps_proper(a, b);
    }
}

/// What is left of a proper part of the day is made of proper periods.
pub proof fn lemma_part_keeps_proper(part: TimePeriod, other: TimePeriod)
    requires
        part.is_proper(),
    ensures
        all_proper(part.part_without(other)),
{
}

} // verus!
