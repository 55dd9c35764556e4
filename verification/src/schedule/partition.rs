//! Partitions of the day: sequences of periods such that every time of the day
//! falls in exactly one of them, and the chain that such a sequence forms.

use crate::schedule::coverage::{all_proper, holders, lemma_holders_piece};
use crate::schedule::period::TimePeriod;
use crate::time_of_day::TimeOfDay;
use vstd::prelude::*;

verus! {

/// The starts of the periods do not decrease along the sequence.
pub open spec fn sorted_by_start(periods: Seq<TimePeriod>) -> bool {
    forall|a: int, b: int|
        0 <= a < b < periods.len() ==> (#[trigger] periods[a]).start.key() <= (
        #[trigger] periods[b]).start.key()
}

/// Every time falls in exactly one of the periods.
pub open spec fn covers_once(periods: Seq<TimePeriod>) -> bool {
    forall|time: TimeOfDay| #[trigger] holders(periods, time) == 1
}

/// The coverage invariant: proper periods, sorted by start, that hold every time
/// of the day exactly once between them.
pub open spec fn is_partition(periods: Seq<TimePeriod>) -> bool {
    &&& all_proper(periods)
    &&& sorted_by_start(periods)
    &&& covers_once(periods)
}

/// The chain that a partition forms: starts strictly increase, each period ends
/// where the next starts, and the last one ends where the first starts. A single
/// period is the whole day; of several, only the last runs past midnight.
pub open spec fn is_chain(periods: Seq<TimePeriod>) -> bool {
    &&& periods.len() >= 1
    &&& periods.len() == 1 ==> periods[0].spec_is_full_day()
    &&& periods.len() >= 2 ==> periods.last().end == periods[0].start && periods.last().wraps()
    &&& forall|i: int|
        0 <= i < periods.len() - 1 ==> {
            &&& (#[trigger] periods[i]).end == periods[i + 1].start
            &&& periods[i].start.key() < periods[i].end.key()
        }
}

/// If some period holds the time, the count is not zero, and the other way round.
pub proof fn lemma_holder_exists(periods: Seq<TimePeriod>, time: TimeOfDay)
    ensures
        holders(periods, time) > 0 <==> exists|i: int|
            0 <= i < periods.len() && (#[trigger] periods[i]).spec_contains(time),
    decreases periods.len(),
{
    if periods.len() > 0 {
        let shorter = periods.drop_last();
        lemma_holder_exists(shorter, time);
        if holders(periods, time) > 0 {
            if periods.last().spec_contains(time) {
                assert(periods[periods.len() - 1].spec_contains(time));
            } else {
                let i = choose|i: int| 0 <= i < shorter.len() && (#[trigger] shorter[i]).spec_contains(time);
                assert(periods[i].spec_contains(time));
            }
        }
        if exists|i: int| 0 <= i < periods.len() && (#[trigger] periods[i]).spec_contains(time) {
            let i = choose|i: int| 0 <= i < periods.len() && (#[trigger] periods[i]).spec_contains(time);
            if i < shorter.len() {
                assert(shorter[i].spec_contains(time));
            }
        }
    }
}

/// Two different periods that hold the same time make the count at least two.
pub proof fn lemma_two_holders(periods: Seq<TimePeriod>, i: int, j: int, time: TimeOfDay)
    requires
        0 <= i < j < periods.len(),
        periods[i].spec_contains(time),
        periods[j].spec_contains(time),
    ensures
        holders(periods, time) >= 2,
    decreases periods.len(),
{
    let shorter = periods.drop_last();
    if j == periods.len() - 1 {
        lemma_holder_exists(shorter, time);
        assert(shorter[i].spec_contains(time));
    } else {
        assert(shorter[i] == periods[i] && shorter[j] == periods[j]);
        lemma_two_holders(shorter, i, j, time);
    }
}

/// Where a time is held exactly once, the period that holds it is the only one.
pub proof fn lemma_single_holder(periods: Seq<TimePeriod>, i: int, j: int, time: TimeOfDay)
    requires
        holders(periods, time) == 1,
        0 <= i < periods.len(),
        0 <= j < periods.len(),
        periods[i].spec_contains(time),
        periods[j].spec_contains(time),
    ensures
        i == j,
{
    if i < j {
        lemma_two_holders(periods, i, j, time);
    } else if j < i {
        lemma_two_holders(periods, j, i, time);
    }
}

/// In a partition each period but the last ends where the next one starts, and does
/// not run past midnight.
pub proof fn lemma_partition_links(periods: Seq<TimePeriod>, i: int)
    requires
        is_partition(periods),
        0 <= i < periods.len() - 1,
    ensures
        periods[i].end == periods[i + 1].start,
        periods[i].start.key() < periods[i].end.key(),
{
    let this = periods[i];
    let next = periods[i + 1];
    assert(this.is_proper() && next.is_proper());
    assert(holders(periods, this.start) == 1);
    assert(holders(periods, next.start) == 1);
    assert(holders(periods, this.end) == 1);
    assert(this.spec_contains(this.start));
    assert(next.spec_contains(next.start));
    if this.spec_contains(next.start) {
        lemma_single_holder(periods, i, i + 1, next.start);
    }
    if next.spec_contains(this.start) {
        lemma_single_holder(periods, i, i + 1, this.start);
    }
    assert(this.start.key() < next.start.key());
    assert(this.start.key() < this.end.key() <= next.start.key());
    if this.end.key() < next.start.key() {
        lemma_holder_exists(periods, this.end);
        let j = choose|j: int| 0 <= j < periods.len() && (#[trigger] periods[j]).spec_contains(this.end);
        let other = periods[j];
        assert(other.is_proper());
        if j > i {
            assert(next.start.key() <= other.start.key()) by {
                if j > i + 1 {
                    assert(periods[i + 1].start.key() <= periods[j].start.key());
                }
            }
        } else {
            assert(periods[j].start.key() <= periods[i].start.key());
        }
        assert(other.spec_contains(this.start));
        lemma_single_holder(periods, i, j, this.start);
    }
}

/// A partition is a chain.
pub proof fn lemma_partition_is_chain(periods: Seq<TimePeriod>)
    requires
        is_partition(periods),
    ensures
        is_chain(periods),
{
    let n = periods.len() as int;
    let midnight = TimeOfDay::spec_midnight();
    assert(holders(periods, midnight) == 1);
    lemma_holder_exists(periods, midnight);
    assert(n >= 1);
    assert forall|i: int| 0 <= i < n - 1 implies (#[trigger] periods[i]).end == periods[i
        + 1].start && periods[i].start.key() < periods[i].end.key() by {
        lemma_partition_links(periods, i);
    }
    let first = periods[0];
    let last = periods[n - 1];
    assert(first.is_proper() && last.is_proper());
    assert(holders(periods, last.end) == 1);
    assert(holders(periods, first.start) == 1);
    lemma_holder_exists(periods, last.end);
    let j = choose|j: int| 0 <= j < n && (#[trigger] periods[j]).spec_contains(last.end);
    if n == 1 {
        assert(j == 0);
    } else {
        assert(first.spec_contains(first.start));
        if last.spec_contains(first.start) {
            lemma_single_holder(periods, 0, n - 1, first.start);
        }
        if j < n - 1 {
            lemma_partition_links(periods, j);
            assert(periods[j].end == periods[j + 1].start);
            if j + 1 < n - 1 {
                assert(periods[j + 1].start.key() <= periods[n - 1].start.key());
            }
            if j > 0 {
                assert(periods[0].start.key() <= periods[j].start.key());
            }
        }
    }
}

/// No two periods of a partition overlap.
pub proof fn lemma_partition_apart(periods: Seq<TimePeriod>, i: int, j: int)
    requires
        is_partition(periods),
        0 <= i < periods.len(),
        0 <= j < periods.len(),
        i != j,
    ensures
        !periods[i].spec_overlaps(periods[j]),
{
    let one = periods[i];
    let two = periods[j];
    assert(one.is_proper() && two.is_proper());
    assert(holders(periods, one.start) == 1);
    assert(holders(periods, two.start) == 1);
    assert(one.spec_contains(one.start));
    assert(two.spec_contains(two.start));
    if one.spec_contains(two.start) {
        lemma_single_holder(periods, i, j, two.start);
    }
    if two.spec_contains(one.start) {
        lemma_single_holder(periods, i, j, one.start);
    }
}

/// Along a chain of two or more periods, the first `m` of them hold between them
/// the times from the start of the first up to the start of period `m`.
pub proof fn lemma_chain_prefix(periods: Seq<TimePeriod>, m: int, time: TimeOfDay)
    requires
        is_chain(periods),
        periods.len() >= 2,
        0 <= m <= periods.len() - 1,
    ensures
        periods[0].start.key() <= periods[m].start.key(),
        holders(periods.take(m), time) == if periods[0].start.key() <= time.key()
            < periods[m].start.key() {
            1nat
        } else {
            0nat
        },
    decreases m,
{
    if m > 0 {
        lemma_chain_prefix(periods, m - 1, time);
        assert(periods.take(m).drop_last() =~= periods.take(m - 1));
        assert(periods.take(m).last() == periods[m - 1]);
        assert(periods[m - 1].end == periods[m].start);
    } else {
        assert(periods.take(0) =~= Seq::<TimePeriod>::empty());
    }
}

/// A chain is a partition of the day.
pub proof fn lemma_chain_is_partition(periods: Seq<TimePeriod>)
    requires
        is_chain(periods),
    ensures
        is_partition(periods),
{
    let n = periods.len() as int;
    if n == 1 {
        assert(periods =~= seq![periods[0]]);
        assert forall|time: TimeOfDay| #[trigger] holders(periods, time) == 1 by {
            lemma_holders_piece(true, periods[0], time);
        }
    } else {
        assert forall|time: TimeOfDay| #[trigger] holders(periods, time) == 1 by {
            lemma_chain_prefix(periods, n - 1, time);
            assert(periods.drop_last() =~= periods.take(n - 1));
        }
        assert forall|i: int| 0 <= i < n implies (#[trigger] periods[i]).is_proper() by {
            if i < n - 1 {
                assert(periods[i].start.key() < periods[i].end.key());
            }
        }
        assert forall|a: int, b: int| 0 <= a < b < n implies (#[trigger] periods[a]).start.key()
            <= (#[trigger] periods[b]).start.key() by {
            lemma_chain_ascends(periods, a, b);
        }
    }
}

/// Along a chain the starts strictly increase.
pub proof fn lemma_chain_ascends(periods: Seq<TimePeriod>, a: int, b: int)
    requires
        is_chain(periods),
        0 <= a < b < periods.len(),
    ensures
        periods[a].start.key() < periods[b].start.key(),
    decreases b - a,
{
    assert(periods[b - 1].end == periods[b].start);
    if a < b - 1 {
        lemma_chain_ascends(periods, a, b - 1);
    }
}

} // verus!
