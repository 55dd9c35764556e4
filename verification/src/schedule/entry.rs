//! Timetable entries and the model that contracts use for them.

use crate::schedule::period::TimePeriod;
use crate::time_of_day::TimeOfDay;
use vstd::prelude::*;

verus! {

/// Whether the heating is to be off or on.
#[derive(Debug, Clone, Copy, PartialEq, Eq, Structural)]
pub enum HeatingState {
    Off,
    On,
}

/// One entry of the timetable: during `time_period` the heating is to be in
/// `heating_state`. The `id` names the entry when it is deleted.
#[derive(Debug, Clone, PartialEq)]
pub struct ScheduleEntry {
    pub id: u128,
    pub name: String,
    pub time_period: TimePeriod,
    pub heating_state: HeatingState,
}

/// The model of an entry. The `id` is `None` in a plan for an entry whose id is
/// drawn at random when the entry is made; the model of an entry that exists
/// always has one.
pub struct Slot {
    pub id: Option<u128>,
    pub name: Seq<char>,
    pub period: TimePeriod,
    pub state: HeatingState,
}

impl View for ScheduleEntry {
    type V = Slot;

    open spec fn view(&self) -> Slot {
        Slot {
            id: Some(self.id),
            name: self.name@,
            period: self.time_period,
            state: self.heating_state,
        }
    }
}

/// The models of the entries, in order.
pub open spec fn slots_of(entries: Seq<ScheduleEntry>) -> Seq<Slot> {
    entries.map_values(|entry: ScheduleEntry| entry@)
}

/// The periods of the slots, in order.
pub open spec fn periods_of(slots: Seq<Slot>) -> Seq<TimePeriod> {
    slots.map_values(|slot: Slot| slot.period)
}

/// The keys of the starts of the slots, in order.
pub open spec fn start_keys(slots: Seq<Slot>) -> Seq<int> {
    slots.map_values(|slot: Slot| slot.period.start.key())
}

/// The slot of the entry that a new timetable starts with and that a timetable
/// falls back to: the whole day, heating off, under the name "default".
pub open spec fn default_slot() -> Slot {
    Slot {
        id: None,
        name: "default"@,
        period: TimePeriod {
            start: TimeOfDay::spec_midnight(),
            end: TimeOfDay::spec_midnight(),
        },
        state: HeatingState::Off,
    }
}

/// The entry's model agrees with the planned slot: same name, period and state,
/// and the planned id where the plan fixes one.
pub open spec fn fills(actual: Slot, planned: Slot) -> bool {
    &&& actual.name == planned.name
    &&& actual.period == planned.period
    &&& actual.state == planned.state
    &&& actual.id is Some
    &&& planned.id is Some ==> actual.id == planned.id
}

/// The models agree with the plan, slot by slot.
pub open spec fn fill(actual: Seq<Slot>, planned: Seq<Slot>) -> bool {
    &&& actual.len() == planned.len()
    &&& forall|i: int| 0 <= i < actual.len() ==> fills(#[trigger] actual[i], planned[i])
}

/// The bits that mark a random (version 4) identifier.
pub open spec fn is_random_id(id: u128) -> bool {
    id & 0x0000_0000_0000_f000_c000_0000_0000_0000 == 0x0000_0000_0000_4000_8000_0000_0000_0000
}

impl ScheduleEntry {
    /// A new entry under a freshly drawn id.
    pub fn new(name: &str, time_period: TimePeriod, heating_state: HeatingState) -> (entry:
        ScheduleEntry)
        ensures
            entry.name@ == name@,
            entry.time_period == time_period,
            entry.heating_state == heating_state,
            is_random_id(entry.id),
    {
        ScheduleEntry { id: random_id(), name: name.to_owned(), time_period, heating_state }
    }

    /// A copy of the entry with every field, the id too.
    pub fn duplicate(&self) -> (copy: ScheduleEntry)
        ensures
            copy == *self,
    {
        ScheduleEntry {
            id: self.id,
            name: self.name.clone(),
            time_period: self.time_period,
            heating_state: self.heating_state,
        }
    }

    /// An entry for the piece `period` of this entry: same name and state, under a
    /// freshly drawn id.
    pub fn piece(&self, period: TimePeriod) -> (entry: ScheduleEntry)
        ensures
            entry.name@ == self.name@,
            entry.time_period == period,
            entry.heating_state == self.heating_state,
            is_random_id(entry.id),
    {
        ScheduleEntry {
            id: random_id(),
            name: self.name.clone(),
            time_period: period,
            heating_state: self.heating_state,
        }
    }
}

impl Default for ScheduleEntry {
    /// The whole day with the heating off, under the name "default" and a freshly
    /// drawn id.
    fn default() -> (entry: ScheduleEntry)
        ensures
            fills(entry@, default_slot()),
            is_random_id(entry.id),
    {
        let midnight = TimeOfDay::midnight();
        ScheduleEntry::new(
            "default",
            TimePeriod { start: midnight, end: midnight },
            HeatingState::Off,
        )
    }
}

/// Calls `uuid::Uuid::new_v4` and returns the identifier as a number, by
/// `as_u128`. The value is random; the contract claims only the version and variant
/// bits that the constructor sets in every identifier it makes.
#[verifier::external_body]
fn random_id() -> (id: u128)
    ensures
        is_random_id(id),
{
    uuid::Uuid::new_v4().as_u128()
}

} // verus!
