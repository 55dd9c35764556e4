//! The stable order of a sequence by integer keys, as a sequence of indices, and
//! what rearranging in that order keeps.

use crate::schedule::coverage::{all_proper, holders, lemma_holders_push, one_if};
use crate::schedule::period::TimePeriod;
use crate::time_of_day::TimeOfDay;
use vstd::prelude::*;

verus! {

/// The items of `items` in the order that `order` gives: item `order[j]` stands at
/// place `j`.
pub open spec fn arranged<T>(items: Seq<T>, order: Seq<int>) -> Seq<T> {
    Seq::new(order.len(), |j: int| items[order[j]])
}

/// Where index `k` goes into `order`: just after the last index of `order` whose
/// key is not greater than the key of `k`, or at the front when there is none.
pub open spec fn place_index(order: Seq<int>, keys: Seq<int>, k: int) -> int
    decreases order.len(),
{
    if order.len() == 0 {
        0
    } else if keys[order.last()] <= keys[k] {
        order.len() as int
    } else {
        place_index(order.drop_last(), keys, k)
    }
}

/// The indices of `keys` in stable sorted order: by key, and among equal keys by
/// index. It is built by putting each index in turn into the order of those before
/// it.
pub open spec fn stable_order(keys: Seq<int>) -> Seq<int>
    decreases keys.len(),
{
    if keys.len() == 0 {
        Seq::empty()
    } else {
        let before = stable_order(keys.drop_last());
        before.insert(place_index(before, keys, keys.len() - 1), keys.len() - 1)
    }
}

/// Every element of `order` is an index below `bound`.
pub open spec fn indices_below(order: Seq<int>, bound: int) -> bool {
    forall|j: int| 0 <= j < order.len() ==> 0 <= #[trigger] order[j] < bound
}

/// The keys do not decrease along `order`.
pub open spec fn keys_ascend(order: Seq<int>, keys: Seq<int>) -> bool {
    forall|a: int, b: int|
        0 <= a < b < order.len() ==> keys[#[trigger] order[a]] <= keys[#[trigger] order[b]]
}

/// The place of an index lies within the order or just behind it, everything
/// from there on has a greater key, and what stands just before has not.
pub proof fn lemma_place_index(order: Seq<int>, keys: Seq<int>, k: int)
    ensures
        0 <= place_index(order, keys, k) <= order.len(),
        forall|m: int|
            place_index(order, keys, k) <= m < order.len() ==> keys[#[trigger] order[m]] > keys[k],
        place_index(order, keys, k) > 0 ==> keys[order[place_index(order, keys, k) - 1]]
            <= keys[k],
    decreases order.len(),
{
    if order.len() > 0 && keys[order.last()] > keys[k] {
        let shorter = order.drop_last();
        lemma_place_index(shorter, keys, k);
        assert forall|m: int| place_index(order, keys, k) <= m < order.len() implies keys[
            #[trigger] order[m]] > keys[k] by {
            if m < shorter.len() {
                assert(order[m] == shorter[m]);
            }
        }
        if place_index(order, keys, k) > 0 {
            assert(order[place_index(order, keys, k) - 1] == shorter[place_index(
                shorter,
                keys,
                k,
            ) - 1]);
        }
    }
}

/// The place of an index is the one position with greater keys from there on and
/// no greater key just before.
pub proof fn lemma_place_index_is(order: Seq<int>, keys: Seq<int>, k: int, j: int)
    requires
        0 <= j <= order.len(),
        forall|m: int| j <= m < order.len() ==> keys[#[trigger] order[m]] > keys[k],
        j > 0 ==> keys[order[j - 1]] <= keys[k],
    ensures
        place_index(order, keys, k) == j,
    decreases order.len() - j,
{
    if j < order.len() {
        assert(keys[order[order.len() - 1]] > keys[k]);
        lemma_place_index_is(order.drop_last(), keys, k, j);
    }
}

/// The stable order of `keys` lists indices of `keys`, one for each key, and the
/// keys do not decrease along it.
pub proof fn lemma_stable_order(keys: Seq<int>)
    ensures
        stable_order(keys).len() == keys.len(),
        indices_below(stable_order(keys), keys.len() as int),
        keys_ascend(stable_order(keys), keys),
    decreases keys.len(),
{
    if keys.len() > 0 {
        let shorter = keys.drop_last();
        let before = stable_order(shorter);
        let k = keys.len() - 1;
        let j = place_index(before, keys, k);
        lemma_stable_order(shorter);
        lemma_place_index(before, keys, k);
        let order = before.insert(j, k);
        assert(order == stable_order(keys));
        assert forall|a: int, b: int| 0 <= a < b < order.len() implies keys[#[trigger] order[a]]
            <= keys[#[trigger] order[b]] by {
            if b < j {
                assert(order[a] == before[a] && order[b] == before[b]);
                assert(shorter[before[a]] <= shorter[before[b]]);
            } else if b == j {
                assert(order[a] == before[a]);
                assert(shorter[before[a]] <= shorter[before[j - 1]]);
            } else if a == j {
                assert(order[b] == before[b - 1]);
            } else if a > j {
                assert(order[a] == before[a - 1] && order[b] == before[b - 1]);
                assert(shorter[before[a - 1]] <= shorter[before[b - 1]]);
            } else {
                assert(order[a] == before[a] && order[b] == before[b - 1]);
                assert(a <= b - 1);
                if a < b - 1 {
                    assert(shorter[before[a]] <= shorter[before[b - 1]]);
                }
            }
        }
    }
}

/// Putting a period into a sequence adds one to the count of those that hold a
/// time exactly when the new period holds it.
pub proof fn lemma_holders_insert(
    periods: Seq<TimePeriod>,
    at: int,
    period: TimePeriod,
    time: TimeOfDay,
)
    requires
        0 <= at <= periods.len(),
    ensures
        holders(periods.insert(at, period), time) == holders(periods, time) + one_if(
            period.spec_contains(time),
        ),
    decreases periods.len() - at,
{
    if at == periods.len() {
        assert(periods.insert(at, period) =~= periods.push(period));
        lemma_holders_push(periods, period, time);
    } else {
        lemma_holders_insert(periods.drop_last(), at, period, time);
        assert(periods.insert(at, period).drop_last() =~= periods.drop_last().insert(at, period));
        assert(periods.insert(at, period).last() == periods.last());
    }
}

/// Taking a period out of a sequence takes one from the count of those that hold a
/// time exactly when the period held it.
pub proof fn lemma_holders_remove(periods: Seq<TimePeriod>, at: int, time: TimeOfDay)
    requires
        0 <= at < periods.len(),
    ensures
        holders(periods.remove(at), time) + one_if(periods[at].spec_contains(time)) == holders(
            periods,
            time,
        ),
{
    assert(periods.remove(at).insert(at, periods[at]) =~= periods);
    lemma_holders_insert(periods.remove(at), at, periods[at], time);
}

/// Replacing a period changes the count by what the old one held and the new one
/// holds.
pub proof fn lemma_holders_update(
    periods: Seq<TimePeriod>,
    at: int,
    period: TimePeriod,
    time: TimeOfDay,
)
    requires
        0 <= at < periods.len(),
    ensures
        holders(periods.update(at, period), time) + one_if(periods[at].spec_contains(time))
            == holders(periods, time) + one_if(period.spec_contains(time)),
{
    assert(periods.remove(at).insert(at, period) =~= periods.update(at, period));
    lemma_holders_remove(periods, at, time);
    lemma_holders_insert(periods.remove(at), at, period, time);
}

/// Rearranging periods in the stable order of any keys keeps, for every time, the
/// number of periods that hold it, and keeps every period proper.
pub proof fn lemma_arranged_keeps(periods: Seq<TimePeriod>, keys: Seq<int>, time: TimeOfDay)
    requires
        periods.len() == keys.len(),
    ensures
        holders(arranged(periods, stable_order(keys)), time) == holders(periods, time),
        all_proper(periods) ==> all_proper(arranged(periods, stable_order(keys))),
    decreases keys.len(),
{
    lemma_stable_order(keys);
    if keys.len() == 0 {
        assert(arranged(periods, stable_order(keys)) =~= periods);
    } else {
        let shorter = keys.drop_last();
        let before = stable_order(shorter);
        let k = keys.len() - 1;
        let j = place_index(before, keys, k);
        lemma_stable_order(shorter);
        lemma_place_index(before, keys, k);
        lemma_arranged_keeps(periods.drop_last(), shorter, time);
        assert(arranged(periods.drop_last(), before) =~= arranged(periods, before));
        assert(arranged(periods, before.insert(j, k)) =~= arranged(periods, before).insert(
            j,
            periods[k],
        ));
        lemma_holders_insert(arranged(periods, before), j, periods[k], time);
    }
}

} // verus!
