//! A 24-hour heating timetable and the rules that reconcile a thermostat with it.
//!
//! The timetable is a list of named periods that together cover the whole day.
//! Inserting an entry clips whatever it overlaps; the reconciler turns the
//! scheduled state, a manual boost and the observed device state into one action.

pub mod climate;
pub mod config;
pub mod schedule;
pub mod scheduler;
pub mod time_of_day;
