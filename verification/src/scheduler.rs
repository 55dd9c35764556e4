//! The reconciler's decisions: from the scheduled state, the boost and the
//! observed state of a device to the one action of a tick.

use crate::climate::BoostInfo;
use crate::schedule::entry::HeatingState;
use crate::time_of_day::TimeOfDay;
use vstd::prelude::*;

verus! {

/// What to do with a device.
#[derive(Debug, Clone, Copy, PartialEq, Eq, Structural)]
pub enum HeatingAction {
    TurnOn,
    TurnOff,
    NoChange,
}

/// The action that brings a device from `current` to `desired`: none where they
/// are the same.
pub open spec fn action_for(current: HeatingState, desired: HeatingState) -> HeatingAction {
    if current == desired {
        HeatingAction::NoChange
    } else if desired == HeatingState::On {
        HeatingAction::TurnOn
    } else {
        HeatingAction::TurnOff
    }
}

/// The state of a device that was in `current` and has carried out `action`.
pub open spec fn state_after(action: HeatingAction, current: HeatingState) -> HeatingState {
    match action {
        HeatingAction::TurnOn => HeatingState::On,
        HeatingAction::TurnOff => HeatingState::Off,
        HeatingAction::NoChange => current,
    }
}

/// On where the schedule or the boost asks for heating. A boost can turn the
/// heating on against the schedule, never off.
pub open spec fn either_on(scheduled: HeatingState, boosted: HeatingState) -> HeatingState {
    if scheduled == HeatingState::On || boosted == HeatingState::On {
        HeatingState::On
    } else {
        HeatingState::Off
    }
}

/// What the boost asks for at `now`: on while it is active, else off.
pub open spec fn boost_state(boost: BoostInfo, now: TimeOfDay) -> HeatingState {
    if boost.is_active_at(now) {
        HeatingState::On
    } else {
        HeatingState::Off
    }
}

/// The action of one tick for one device. A device whose state could not be
/// observed is left alone.
pub open spec fn planned_action(
    scheduled: HeatingState,
    boost: BoostInfo,
    now: TimeOfDay,
    observed: Option<HeatingState>,
) -> HeatingAction {
    match observed {
        Some(current) => action_for(current, either_on(scheduled, boost_state(boost, now))),
        None => HeatingAction::NoChange,
    }
}

/// The action that brings a device from `current_state` to `desired_state`.
pub fn calculate_heating_action_for_schedule(
    current_state: &HeatingState,
    desired_state: &HeatingState,
) -> (action: HeatingAction)
    ensures
        action == action_for(*current_state, *desired_state),
{
    match (current_state, desired_state) {
        (HeatingState::On, HeatingState::On) => HeatingAction::NoChange,
        (HeatingState::Off, HeatingState::Off) => HeatingAction::NoChange,
        (HeatingState::Off, HeatingState::On) => HeatingAction::TurnOn,
        (HeatingState::On, HeatingState::Off) => HeatingAction::TurnOff,
    }
}

/// What the boost asks for at `now`.
pub fn desired_state_for_boost(boost_info: &BoostInfo, now: &TimeOfDay) -> (state: HeatingState)
    ensures
        state == boost_state(*boost_info, *now),
{
    if !boost_info.boosted {
        return HeatingState::Off;
    }
    match (boost_info.boost_start, boost_info.boost_end) {
        (Some(start), Some(end)) => {
            if start.is_at_or_before(now) && now.is_at_or_before(&end) {
                HeatingState::On
            } else {
                HeatingState::Off
            }
        },
        _ => HeatingState::Off,
    }
}

/// What the boost asks for at the local time of the call.
pub fn calculate_desired_heating_state_for_boost(boost_info: &BoostInfo) -> (state: HeatingState)
    ensures
        exists|now: TimeOfDay| now.is_valid() && state == #[trigger] boost_state(*boost_info, now),
        !boost_info.boosted || boost_info.boost_start is None || boost_info.boost_end is None
            ==> state == HeatingState::Off,
{
    let now = TimeOfDay::now_local();
    let state = desired_state_for_boost(boost_info, &now);
    assert(state == boost_state(*boost_info, now));
    state
}

/// The state that a device is to have: on where the schedule or the boost asks
/// for it.
pub fn final_desired_heating_state(
    scheduled_heating_state: &HeatingState,
    boosted_heating_state: &HeatingState,
) -> (state: HeatingState)
    ensures
        state == either_on(*scheduled_heating_state, *boosted_heating_state),
{
    match (scheduled_heating_state, boosted_heating_state) {
        (HeatingState::Off, HeatingState::Off) => HeatingState::Off,
        _ => HeatingState::On,
    }
}

/// The decision of one tick for one device: the action that brings the observed
/// state to what schedule and boost ask for at `now`. Where the state could not be
/// fetched, `observed` is `None` and nothing is done.
pub fn reconcile_entity(
    scheduled: &HeatingState,
    boost: &BoostInfo,
    now: &TimeOfDay,
    observed: Option<HeatingState>,
) -> (action: HeatingAction)
    ensures
        action == planned_action(*scheduled, *boost, *now, observed),
{
    match observed {
        Some(current) => {
            let boosted = desired_state_for_boost(boost, now);
            let desired = final_desired_heating_state(scheduled, &boosted);
            calculate_heating_action_for_schedule(&current, &desired)
        },
        None => HeatingAction::NoChange,
    }
}

/// Reconciling settles: once a device has carried out the action computed for it,
/// it is in the desired state, and the action computed next for the same desired
/// state is `NoChange`. No action is computed exactly when the device already is
/// in the desired state.
pub proof fn lemma_action_settles(current: HeatingState, desired: HeatingState)
    ensures
        state_after(action_for(current, desired), current) == desired,
        action_for(state_after(action_for(current, desired), current), desired)
            == HeatingAction::NoChange,
        action_for(current, desired) == HeatingAction::NoChange <==> current == desired,
{
}

/// With schedule, boost and time unchanged, the tick after a device carried out
/// its action plans `NoChange` for it, and so does every tick on which the device
/// is observed in the state that the last action left it in.
pub proof fn lemma_tick_is_idempotent(
    scheduled: HeatingState,
    boost: BoostInfo,
    now: TimeOfDay,
    observed: HeatingState,
)
    ensures
        planned_action(
            scheduled,
            boost,
            now,
            Some(state_after(planned_action(scheduled, boost, now, Some(observed)), observed)),
        ) == HeatingAction::NoChange,
{
}

} // verus!
