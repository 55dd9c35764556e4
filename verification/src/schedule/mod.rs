//! The daily timetable: periods, entries and the schedule that keeps them a
//! partition of the day.

pub mod coverage;
pub mod effect;
pub mod entry;
pub mod partition;
pub mod period;
pub mod plan;
pub mod sorting;

pub use crate::schedule::effect::{state_at, state_with, state_without};
use crate::schedule::effect::{
    lemma_fill_keeps_state, lemma_heir_takes_over, lemma_new_entry_wins,
};
pub use crate::schedule::entry::{HeatingState, ScheduleEntry, Slot};
pub use crate::schedule::period::TimePeriod;
use crate::schedule::entry::{default_slot, fill, fills, periods_of, slots_of, start_keys};
use crate::schedule::partition::{
    is_chain, is_partition, lemma_chain_is_partition, lemma_partition_apart,
    lemma_partition_is_chain,
};
use crate::schedule::plan::{
    can_take, clipped, clipped_all, first_holding, first_with_id, lemma_cannot_take,
    lemma_first_holding, lemma_first_holding_is, lemma_first_with_id_is, lemma_partition_holds,
    lemma_with_entry_is_partition, lemma_without_slot_is_partition, piece_of, with_entry,
    without_slot,
};
use crate::schedule::sorting::{arranged, lemma_place_index_is, lemma_stable_order, stable_order};
use crate::time_of_day::TimeOfDay;
use vstd::prelude::*;

verus! {

/// Why a change to the timetable was refused.
#[derive(Debug, Clone, Copy, PartialEq, Eq, Structural)]
pub enum ScheduleError {
    /// No entry has the given id.
    NotFound,
}

/// A named timetable for one day.
///
/// The entries are kept sorted by the start of their periods. A schedule that is
/// well formed covers the day: every time falls in exactly one entry.
#[derive(Debug, Clone)]
pub struct Schedule {
    pub name: String,
    pub entries: Vec<ScheduleEntry>,
}

impl Schedule {
    /// The models of the entries, in order.
    pub open spec fn slots(&self) -> Seq<Slot> {
        slots_of(self.entries@)
    }

    /// The periods of the entries, in order.
    pub open spec fn periods(&self) -> Seq<TimePeriod> {
        periods_of(self.slots())
    }

    /// The coverage invariant: the periods of the entries are proper, sorted by
    /// start, and every time of the day falls in exactly one of them.
    pub open spec fn wf(&self) -> bool {
        is_partition(self.periods())
    }

    /// A schedule with one entry: the whole day, heating off.
    pub fn new(name: &str) -> (schedule: Schedule)
        ensures
            schedule.name@ == name@,
            fill(schedule.slots(), seq![default_slot()]),
            schedule.wf(),
    {
        let mut entries: Vec<ScheduleEntry> = Vec::new();
        entries.push(ScheduleEntry::default());
        let schedule = Schedule { name: name.to_owned(), entries };
        proof {
            let whole = default_slot().period;
            assert(schedule.periods() =~= seq![whole]);
            assert forall|time: TimeOfDay| #[trigger]
                crate::schedule::coverage::holders(schedule.periods(), time) == 1 by {
                crate::schedule::coverage::lemma_holders_piece(true, whole, time);
            }
        }
        schedule
    }

    /// Whether the schedule is well formed, by looking at the chain that the
    /// entries form: a single entry is the whole day; of several, each ends where
    /// the next starts, only the last runs past midnight, and it ends where the
    /// first starts.
    pub fn is_well_formed(&self) -> (ok: bool)
        ensures
            ok == self.wf(),
    {
        let n: usize = self.entries.len();
        proof {
            if self.wf() {
                lemma_partition_is_chain(self.periods());
            }
            if is_chain(self.periods()) {
                lemma_chain_is_partition(self.periods());
            }
        }
        if n == 0 {
            return false;
        }
        if n == 1 {
            return self.entries[0].time_period.is_full_day();
        }
        let last = self.entries[n - 1].time_period;
        if !(last.end == self.entries[0].time_period.start && last.end.is_before(&last.start)) {
            return false;
        }
        let mut i: usize = 0;
        while i < n - 1
            invariant
                i <= n - 1,
                n >= 2,
                n == self.entries@.len(),
                self.wf() <==> is_chain(self.periods()),
                self.periods().last().end == self.periods()[0].start,
                self.periods().last().wraps(),
                forall|m: int|
                    0 <= m < i ==> {
                        &&& (#[trigger] self.periods()[m]).end == self.periods()[m + 1].start
                        &&& self.periods()[m].start.key() < self.periods()[m].end.key()
                    },
            decreases n - 1 - i,
        {
            let this = self.entries[i].time_period;
            if !(this.end == self.entries[i + 1].time_period.start && this.start.is_before(
                &this.end,
            )) {
                assert(!is_chain(self.periods())) by {
                    assert(self.periods()[i as int] == this);
                }
                return false;
            }
            i += 1;
        }
        true
    }

    /// The first entry whose period holds `time`. A well-formed schedule has one
    /// for every time.
    pub fn get_active_entry(&self, time: &TimeOfDay) -> (active: Option<&ScheduleEntry>)
        ensures
            active is Some ==> first_holding(self.slots(), *time) < self.entries@.len()
                && *active->0 == self.entries@[first_holding(self.slots(), *time)],
            active is None ==> first_holding(self.slots(), *time) == self.entries@.len(),
            self.wf() ==> active is Some,
    {
        let mut i: usize = 0;
        while i < self.entries.len()
            invariant
                i <= self.entries@.len(),
                forall|m: int| 0 <= m < i ==> !(#[trigger] self.slots()[m]).period.spec_contains(*time),
            decreases self.entries@.len() - i,
        {
            if self.entries[i].time_period.contains(*time) {
                proof {
                    lemma_first_holding_is(self.slots(), *time, i as int);
                }
                return Some(&self.entries[i]);
            }
            i += 1;
        }
        proof {
            lemma_first_holding_is(self.slots(), *time, i as int);
            if self.wf() {
                lemma_partition_holds(self.slots(), *time);
            }
        }
        None
    }

    /// The state that the schedule asks for at `time`: that of the active entry,
    /// and off where no entry holds the time.
    pub fn get_current_state(&self, time: &TimeOfDay) -> (state: HeatingState)
        ensures
            state == state_at(self.slots(), *time),
    {
        let active = self.get_active_entry(time);
        match active {
            Some(entry) => {
                proof {
                    lemma_first_holding(self.slots(), *time);
                }
                entry.heating_state
            },
            None => HeatingState::Off,
        }
    }

    /// Adds `entry`. Every entry that overlaps the new period is replaced by what
    /// subtraction leaves of it, under its name and state; the others stay as they
    /// are. The new entry is appended, and all entries are sorted by start, entries
    /// with the same start staying in their order.
    ///
    /// A well-formed schedule stays well formed exactly when the new period is
    /// proper and is not the whole day added to a schedule of several entries. It
    /// then asks for the state of the new entry throughout the new period, and for
    /// what it asked before at every other time.
    pub fn add_entry(&mut self, entry: ScheduleEntry)
        ensures
            final(self).name == old(self).name,
            fill(final(self).slots(), with_entry(old(self).slots(), entry@)),
            old(self).wf() ==> (final(self).wf() <==> can_take(old(self).slots(), entry@)),
            old(self).wf() && can_take(old(self).slots(), entry@) ==> forall|time: TimeOfDay|
                #[trigger] state_at(final(self).slots(), time) == state_with(
                    old(self).slots(),
                    entry@,
                    time,
                ),
    {
        let ghost before = self.slots();
        let ghost taken = entry.time_period;
        let mut new_entries: Vec<ScheduleEntry> = Vec::new();
        let mut i: usize = 0;
        while i < self.entries.len()
            invariant
                i <= self.entries@.len(),
                self.entries@ == old(self).entries@,
                self.name == old(self).name,
                before == slots_of(self.entries@),
                taken == entry.time_period,
                fill(slots_of(new_entries@), clipped_all(before.take(i as int), taken)),
            decreases self.entries@.len() - i,
        {
            let ghost done = clipped_all(before.take(i as int), taken);
            proof {
                assert(before.take(i + 1).drop_last() =~= before.take(i as int));
                assert(before.take(i + 1).last() == before[i as int]);
            }
            push_clipped(&self.entries[i], &entry.time_period, &mut new_entries);
            proof {
                let part = clipped(before[i as int], taken);
                assert(clipped_all(before.take(i + 1), taken) == done + part);
            }
            i += 1;
        }
        proof {
            assert(before.take(i as int) =~= before);
        }
        let ghost rest = clipped_all(before, taken);
        let ghost loose_plan = rest.push(entry@);
        let ghost clipped_entries = new_entries@;
        new_entries.push(entry);
        let ghost loose = new_entries@;
        sort_by_start(&mut new_entries);
        proof {
            assert(fill(slots_of(loose), loose_plan)) by {
                assert forall|j: int| 0 <= j < loose.len() implies fills(
                    #[trigger] slots_of(loose)[j],
                    loose_plan[j],
                ) by {
                    if j < rest.len() {
                        assert(fills(slots_of(clipped_entries)[j], rest[j]));
                    }
                }
            }
            assert(start_keys(slots_of(loose)) =~= start_keys(loose_plan));
            let order = stable_order(start_keys(loose_plan));
            lemma_stable_order(start_keys(loose_plan));
            assert(fill(slots_of(new_entries@), arranged(loose_plan, order))) by {
                assert forall|j: int| 0 <= j < new_entries@.len() implies fills(
                    #[trigger] slots_of(new_entries@)[j],
                    arranged(loose_plan, order)[j],
                ) by {
                    assert(fills(slots_of(loose)[order[j]], loose_plan[order[j]]));
                }
            }
        }
        self.entries = new_entries;
        proof {
            let plan = with_entry(before, entry@);
            assert(self.periods() =~= periods_of(plan));
            if old(self).wf() {
                if can_take(before, entry@) {
                    lemma_with_entry_is_partition(before, entry@);
                    assert forall|time: TimeOfDay| #[trigger]
                        state_at(self.slots(), time) == state_with(before, entry@, time) by {
                        lemma_fill_keeps_state(self.slots(), plan, time);
                        lemma_new_entry_wins(before, entry@, time);
                    }
                } else {
                    lemma_cannot_take(before, entry@);
                }
            }
        }
    }

    /// Deletes the first entry with the given id, or fails with `NotFound` where no
    /// entry has it. The entry before the deleted one takes over its time: its
    /// period is extended to the end of the deleted one, and the first entry passes
    /// its time to the last. The only entry of a schedule is replaced by the default
    /// entry. A well-formed schedule stays well formed, and asks for the same state
    /// as before at every time outside the deleted period.
    pub fn delete_entry(&mut self, id: u128) -> (done: Result<(), ScheduleError>)
        ensures
            final(self).name == old(self).name,
            done is Ok <==> first_with_id(old(self).slots(), id) < old(self).entries@.len(),
            done is Ok ==> fill(
                final(self).slots(),
                without_slot(old(self).slots(), first_with_id(old(self).slots(), id)),
            ),
            done is Err ==> done == Err::<(), ScheduleError>(ScheduleError::NotFound),
            done is Err ==> final(self).entries@ == old(self).entries@,
            old(self).wf() ==> final(self).wf(),
            old(self).wf() && done is Ok ==> forall|time: TimeOfDay|
                #[trigger] state_at(final(self).slots(), time) == state_without(
                    old(self).slots(),
                    first_with_id(old(self).slots(), id),
                    time,
                ),
    {
        let ghost before = self.slots();
        let n: usize = self.entries.len();
        let mut k: usize = 0;
        while k < n && self.entries[k].id != id
            invariant
                k <= n,
                n == self.entries@.len(),
                self.entries@ == old(self).entries@,
                self.name == old(self).name,
                forall|m: int| 0 <= m < k ==> (#[trigger] slots_of(self.entries@)[m]).id != Some(id),
            decreases n - k,
        {
            k += 1;
        }
        proof {
            lemma_first_with_id_is(before, id, k as int);
        }
        if k == n {
            return Err(ScheduleError::NotFound);
        }
        if n == 1 {
            self.entries.clear();
            self.entries.push(ScheduleEntry::default());
        } else {
            let heir: usize = if k == 0 {
                n - 1
            } else {
                k - 1
            };
            let end: TimeOfDay = self.entries[k].time_period.end;
            let start: TimeOfDay = self.entries[heir].time_period.start;
            let longer = if start == end {
                TimePeriod { start: TimeOfDay::midnight(), end: TimeOfDay::midnight() }
            } else {
                TimePeriod { start, end }
            };
            let ghost planned = Slot { period: longer, ..before[heir as int] };
            let short = self.entries.remove(heir);
            let long = ScheduleEntry {
                id: short.id,
                name: short.name,
                time_period: longer,
                heating_state: short.heating_state,
            };
            self.entries.insert(heir, long);
            proof {
                assert(slots_of(self.entries@) =~= before.update(heir as int, planned));
            }
            self.entries.remove(k);
            proof {
                assert(slots_of(self.entries@) =~= before.update(heir as int, planned).remove(
                    k as int,
                ));
            }
        }
        proof {
            let plan = without_slot(before, k as int);
            assert(fill(self.slots(), plan));
            assert(self.periods() =~= periods_of(plan));
            if old(self).wf() {
                lemma_without_slot_is_partition(before, k as int);
                assert forall|time: TimeOfDay| #[trigger]
                    state_at(self.slots(), time) == state_without(before, k as int, time) by {
                    lemma_fill_keeps_state(self.slots(), plan, time);
                    lemma_heir_takes_over(before, k as int, time);
                }
            }
        }
        Ok(())
    }
}

/// Appends to `out` what is left of `existing` when `taken` goes to another entry:
/// a copy of the entry where it does not overlap `taken`, else one entry for each
/// piece that subtraction leaves of its period, each under a new id.
fn push_clipped(existing: &ScheduleEntry, taken: &TimePeriod, out: &mut Vec<ScheduleEntry>)
    ensures
        final(out)@.len() == old(out)@.len() + clipped(existing@, *taken).len(),
        forall|planned: Seq<Slot>| #[trigger]
            fill(slots_of(old(out)@), planned) ==> fill(
                slots_of(final(out)@),
                planned + clipped(existing@, *taken),
            ),
{
    let ghost start = out@;
    if existing.time_period.overlaps(taken) {
        let remaining = existing.time_period.subtract(taken);
        let ghost part = clipped(existing@, *taken);
        let mut k: usize = 0;
        while k < remaining.len()
            invariant
                k <= remaining@.len(),
                remaining@ == existing.time_period.spec_subtract(*taken),
                part == clipped(existing@, *taken),
                part.len() == remaining@.len(),
                forall|m: int| 0 <= m < part.len() ==> #[trigger] part[m] == piece_of(existing@, remaining@[m]),
                out@.len() == start.len() + k,
                out@.take(start.len() as int) == start,
                forall|m: int| 0 <= m < k ==> fills((#[trigger] out@[start.len() + m])@, part[m]),
            decreases remaining@.len() - k,
        {
            let ghost was = out@;
            out.push(existing.piece(remaining[k]));
            proof {
                assert(out@.take(start.len() as int) =~= was.take(start.len() as int));
                assert forall|m: int| 0 <= m < k + 1 implies fills(
                    (#[trigger] out@[start.len() + m])@,
                    part[m],
                ) by {
                    if m < k {
                        assert(out@[start.len() + m] == was[start.len() + m]);
                    }
                }
            }
            k += 1;
        }
    } else {
        out.push(existing.duplicate());
        proof {
            assert(out@.take(start.len() as int) =~= start);
        }
    }
    proof {
        let part = clipped(existing@, *taken);
        assert forall|planned: Seq<Slot>| #[trigger]
            fill(slots_of(start), planned) implies fill(slots_of(out@), planned + part) by {
            assert forall|m: int| 0 <= m < out@.len() implies fills(
                #[trigger] slots_of(out@)[m],
                (planned + part)[m],
            ) by {
                if m < start.len() {
                    assert(out@[m] == out@.take(start.len() as int)[m]);
                    assert(fills(slots_of(start)[m], planned[m]));
                } else {
                    assert(out@[start.len() + (m - start.len())] == out@[m]);
                }
            }
        }
    }
}

/// Sorts the entries by the start of their periods. Entries with the same start
/// stay in their order.
fn sort_by_start(entries: &mut Vec<ScheduleEntry>)
    ensures
        final(entries)@ == arranged(
            old(entries)@,
            stable_order(start_keys(slots_of(old(entries)@))),
        ),
{
    let ghost orig = entries@;
    let ghost keys = start_keys(slots_of(orig));
    let n: usize = entries.len();
    let mut i: usize = 0;
    proof {
        assert(keys.take(0) =~= Seq::empty());
        assert(entries@.take(0) =~= arranged(orig, stable_order(keys.take(0))));
    }
    while i < n
        invariant
            i <= n,
            n == orig.len(),
            entries@.len() == n,
            keys == start_keys(slots_of(orig)),
            entries@.take(i as int) == arranged(orig, stable_order(keys.take(i as int))),
            entries@.skip(i as int) == orig.skip(i as int),
        decreases n - i,
    {
        let ghost shorter = keys.take(i as int);
        let ghost order = stable_order(shorter);
        let ghost longer = keys.take(i + 1);
        let ghost was = entries@;
        proof {
            lemma_stable_order(shorter);
            assert(longer.drop_last() =~= shorter);
            assert(was[i as int] == was.skip(i as int)[0]);
            assert(was[i as int] == orig[i as int]);
            assert forall|m: int| 0 <= m < i implies #[trigger] was[m] == orig[order[m]] by {
                assert(was[m] == was.take(i as int)[m]);
            }
        }
        let start: TimeOfDay = entries[i].time_period.start;
        let mut j: usize = i;
        while j > 0 && start.is_before(&entries[j - 1].time_period.start)
            invariant
                j <= i,
                i < n,
                entries@ == was,
                entries@.len() == n,
                start == was[i as int].time_period.start,
                forall|m: int| j <= m < i ==> (#[trigger] was[m]).time_period.start.key() > start.key(),
            decreases j,
        {
            j -= 1;
        }
        proof {
            assert forall|m: int| j <= m < order.len() implies longer[#[trigger] order[m]]
                > longer[i as int] by {
                assert(was[m].time_period.start.key() > start.key());
            }
            if j > 0 {
                assert(was[j - 1] == orig[order[j - 1]]);
            }
            lemma_place_index_is(order, longer, i as int, j as int);
            assert(stable_order(longer) == order.insert(j as int, i as int));
        }
        let moved = entries.remove(i);
        entries.insert(j, moved);
        proof {
            let now = entries@;
            let target = arranged(orig, order.insert(j as int, i as int));
            let head = now.take(i + 1);
            let tail = now.skip(i + 1);
            let tail_orig = orig.skip(i + 1);
            assert(head =~= target) by {
                assert forall|m: int| 0 <= m < head.len() implies #[trigger] head[m]
                    == target[m] by {
                    if m < j {
                        assert(now[m] == was[m]);
                    } else if m == j {
                        assert(now[m] == was[i as int]);
                    } else {
                        assert(now[m] == was[m - 1]);
                    }
                }
            }
            assert(tail =~= tail_orig) by {
                assert forall|m: int| 0 <= m < tail.len() implies #[trigger] tail[m]
                    == tail_orig[m] by {
                    assert(now[i + 1 + m] == was[i + 1 + m]);
                    assert(was.skip(i as int)[m + 1] == orig.skip(i as int)[m + 1]);
                }
            }
        }
        i += 1;
    }
    proof {
        assert(keys.take(n as int) =~= keys);
        assert(entries@.take(n as int) =~= entries@);
    }
}

/// The coverage invariant in terms of the entries: in a well-formed schedule the
/// starts strictly increase, each entry ends where the next one starts, the last
/// one ends where the first one starts and so closes the day, a single entry is
/// the whole day, and no two entries overlap. A schedule whose entries form such a
/// chain is well formed.
pub proof fn lemma_well_formed_is_chain(schedule: Schedule)
    ensures
        schedule.wf() <==> is_chain(schedule.periods()),
        schedule.wf() ==> forall|i: int, j: int|
            0 <= i < schedule.entries@.len() && 0 <= j < schedule.entries@.len() && i != j ==> !(
            #[trigger] schedule.entries@[i]).time_period.spec_overlaps(
                (#[trigger] schedule.entries@[j]).time_period,
            ),
{
    let periods = schedule.periods();
    if schedule.wf() {
        lemma_partition_is_chain(periods);
        assert forall|i: int, j: int|
            0 <= i < schedule.entries@.len() && 0 <= j < schedule.entries@.len() && i
                != j implies !(#[trigger] schedule.entries@[i]).time_period.spec_overlaps(
            (#[trigger] schedule.entries@[j]).time_period,
        ) by {
            lemma_partition_apart(periods, i, j);
            assert(periods[i] == schedule.entries@[i].time_period);
            assert(periods[j] == schedule.entries@[j].time_period);
        }
    }
    if is_chain(periods) {
        lemma_chain_is_partition(periods);
    }
}

} // verus!
