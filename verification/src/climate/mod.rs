//! What the reconciler knows of a climate entity besides its observed state: the
//! manual boost.

pub mod climate_state_api;

use crate::time_of_day::TimeOfDay;
use vstd::prelude::*;

verus! {

/// How long a boost lasts, in minutes.
pub const BOOST_MINUTES: u32 = 30;

/// A manual override that asks for heating during a window of the day.
///
/// A boost does not clear itself: one whose window has passed asks for nothing
/// until it is armed again.
#[derive(Debug, Clone, Copy, PartialEq, Eq)]
pub struct BoostInfo {
    pub boosted: bool,
    pub boost_start: Option<TimeOfDay>,
    pub boost_end: Option<TimeOfDay>,
}

impl BoostInfo {
    /// The boost is armed, has both bounds, and `now` lies between them, bounds
    /// included.
    pub open spec fn is_active_at(self, now: TimeOfDay) -> bool {
        &&& self.boosted
        &&& self.boost_start is Some
        &&& self.boost_end is Some
        &&& self.boost_start->0.key() <= now.key() <= self.boost_end->0.key()
    }

    /// What [`BoostInfo::starting_at`] returns.
    pub open spec fn spec_starting_at(now: TimeOfDay) -> BoostInfo {
        BoostInfo {
            boosted: true,
            boost_start: Some(now),
            boost_end: Some(now.spec_plus_minutes(BOOST_MINUTES)),
        }
    }

    /// A boost armed at `now` that ends `BOOST_MINUTES` later on the clock. The end
    /// wraps at midnight, so a boost armed late in the evening ends before it
    /// starts and is active at no time.
    pub fn starting_at(now: TimeOfDay) -> (boost: BoostInfo)
        requires
            now.is_valid(),
        ensures
            boost == Self::spec_starting_at(now),
    {
        BoostInfo {
            boosted: true,
            boost_start: Some(now),
            boost_end: Some(now.plus_minutes(BOOST_MINUTES)),
        }
    }

    /// A boost armed at the local time of the call.
    pub fn starting_now() -> (boost: BoostInfo)
        ensures
            boost.boosted,
            boost.boost_start is Some,
            boost.boost_start->0.is_valid(),
            boost == Self::spec_starting_at(boost.boost_start->0),
    {
        Self::starting_at(TimeOfDay::now_local())
    }
}

impl Default for BoostInfo {
    /// No boost.
    fn default() -> (boost: BoostInfo)
        ensures
            boost == (BoostInfo { boosted: false, boost_start: None, boost_end: None }),
    {
        BoostInfo { boosted: false, boost_start: None, boost_end: None }
    }
}

} // verus!
