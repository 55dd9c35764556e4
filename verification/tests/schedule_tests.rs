use ha_heating_scheduler::schedule::{
    HeatingState, Schedule, ScheduleEntry, ScheduleError, TimePeriod,
};
use ha_heating_scheduler::time_of_day::TimeOfDay;

fn at(hour: u32, minute: u32) -> TimeOfDay {
    TimeOfDay::from_hms_opt(hour, minute, 0).unwrap()
}

fn periods(schedule: &Schedule) -> Vec<TimePeriod> {
    schedule.entries.iter().map(|e| e.time_period).collect()
}

/// Every probed time falls in exactly one entry, the entries are sorted by start,
/// each ends where the next starts and the last ends where the first starts.
fn assert_covers_the_day(schedule: &Schedule) {
    let entries = &schedule.entries;
    assert!(!entries.is_empty());
    for i in 0..entries.len() - 1 {
        assert!(entries[i].time_period.start < entries[i + 1].time_period.start);
        assert_eq!(entries[i].time_period.end, entries[i + 1].time_period.start);
    }
    assert_eq!(entries[entries.len() - 1].time_period.end, entries[0].time_period.start);
    if entries.len() == 1 {
        assert!(entries[0].time_period.is_full_day());
    }
    for i in 0..entries.len() {
        for j in 0..entries.len() {
            if i != j {
                assert!(!entries[i].time_period.overlaps(&entries[j].time_period));
            }
        }
    }
    for hour in 0..24 {
        for minute in 0..60 {
            let time = at(hour, minute);
            let held = entries.iter().filter(|e| e.time_period.contains(time)).count();
            assert_eq!(held, 1, "{:02}:{:02} is held {} times", hour, minute, held);
        }
    }
}

#[test]
fn test_schedule_add_entry_splits_default() {
    let mut schedule = Schedule::new("Test Schedule");

    // one default entry to start with (whole day, off)
    assert_eq!(schedule.entries.len(), 1);

    schedule.add_entry(ScheduleEntry::new(
        "Work Hours",
        TimePeriod::new(8, 0, 17, 0),
        HeatingState::On,
    ));

    // three entries: before work, work hours, after work
    assert_eq!(schedule.entries.len(), 3);

    assert_eq!(schedule.entries[0].time_period, TimePeriod::new(0, 0, 8, 0));
    assert_eq!(schedule.entries[0].heating_state, HeatingState::Off);

    assert_eq!(schedule.entries[1].time_period, TimePeriod::new(8, 0, 17, 0));
    assert_eq!(schedule.entries[1].heating_state, HeatingState::On);

    // the period after work runs from 17:00 to midnight
    assert_eq!(schedule.entries[2].time_period, TimePeriod::new(17, 0, 0, 0));
    assert_eq!(schedule.entries[2].heating_state, HeatingState::Off);
}

#[test]
fn test_schedule_add_multiple_entries() {
    let mut schedule = Schedule::new("Test Schedule");

    schedule.add_entry(ScheduleEntry::new(
        "Morning",
        TimePeriod::new(6, 0, 9, 0),
        HeatingState::On,
    ));

    schedule.add_entry(ScheduleEntry::new(
        "Evening",
        TimePeriod::new(17, 0, 22, 0),
        HeatingState::On,
    ));

    schedule.add_entry(ScheduleEntry::new(
        "Work",
        TimePeriod::new(9, 0, 17, 0),
        HeatingState::On,
    ));

    schedule.add_entry(ScheduleEntry::new(
        "Lunch Break",
        TimePeriod::new(12, 0, 13, 0),
        HeatingState::Off,
    ));

    assert!(schedule.entries.len() >= 4);

    let mut entries_sorted = schedule.entries.clone();
    entries_sorted.sort_by(|a, b| a.time_period.start.cmp(&b.time_period.start));

    for i in 0..entries_sorted.len() - 1 {
        let current_end = entries_sorted[i].time_period.end;
        let next_start = entries_sorted[i + 1].time_period.start;
        assert_eq!(
            current_end, next_start,
            "Gap found between entries {} and {}",
            i, i + 1
        );
    }
}

#[test]
fn test_schedule_coverage_22_to_midnight() {
    let mut schedule = Schedule::new("Test Schedule");

    schedule.add_entry(ScheduleEntry::new(
        "Morning",
        TimePeriod::new(10, 0, 11, 0),
        HeatingState::On,
    ));

    schedule.add_entry(ScheduleEntry::new(
        "Evening",
        TimePeriod::new(17, 0, 22, 0),
        HeatingState::On,
    ));

    let has_22_to_midnight = schedule.entries.iter().any(|e| {
        e.time_period.start == TimeOfDay::from_hms_opt(22, 0, 0).unwrap()
            && e.time_period.end == TimeOfDay::from_hms_opt(0, 0, 0).unwrap()
    });
    assert!(
        has_22_to_midnight,
        "Missing coverage for 22:00-00:00 period. Entries: {:#?}",
        schedule.entries
    );

    let time_23 = TimeOfDay::from_hms_opt(23, 0, 0).unwrap();
    let is_covered = schedule
        .entries
        .iter()
        .any(|e| e.time_period.contains(time_23));
    assert!(is_covered, "Time 23:00 is not covered by any entry");
}

#[test]
fn test_schedule_entry_completely_covered() {
    let mut schedule = Schedule::new("Test Schedule");

    schedule.add_entry(ScheduleEntry::new(
        "Small",
        TimePeriod::new(10, 0, 12, 0),
        HeatingState::On,
    ));

    schedule.add_entry(ScheduleEntry::new(
        "Large",
        TimePeriod::new(8, 0, 14, 0),
        HeatingState::Off,
    ));

    let has_small = schedule.entries.iter().any(|e| e.name == "Small");
    assert!(!has_small, "Small entry should be completely covered");

    let has_large = schedule.entries.iter().any(|e| e.name == "Large");
    assert!(has_large, "Large entry should exist");
}

#[test]
fn new_schedule_is_one_default_entry() {
    let schedule = Schedule::new("Home");
    assert_eq!(schedule.name, "Home");
    assert_eq!(schedule.entries.len(), 1);
    assert_eq!(schedule.entries[0].name, "default");
    assert!(schedule.entries[0].time_period.is_full_day());
    assert_eq!(schedule.entries[0].heating_state, HeatingState::Off);
    assert_covers_the_day(&schedule);
}

#[test]
fn default_entry_is_the_whole_day_off() {
    let entry = ScheduleEntry::default();
    assert_eq!(entry.name, "default");
    assert_eq!(entry.time_period, TimePeriod::new(0, 0, 0, 0));
    assert_eq!(entry.heating_state, HeatingState::Off);
}

#[test]
fn new_entries_get_random_ids() {
    let a = ScheduleEntry::new("a", TimePeriod::new(1, 0, 2, 0), HeatingState::On);
    let b = ScheduleEntry::new("a", TimePeriod::new(1, 0, 2, 0), HeatingState::On);
    assert_ne!(a.id, b.id);
    // version 4, variant of RFC 9562
    assert_eq!((a.id >> 76) & 0xf, 4);
    assert_eq!((a.id >> 62) & 0x3, 2);
    assert_eq!((b.id >> 76) & 0xf, 4);
    assert_eq!((b.id >> 62) & 0x3, 2);
}

#[test]
fn duplicate_keeps_every_field() {
    let a = ScheduleEntry::new("a", TimePeriod::new(1, 0, 2, 0), HeatingState::On);
    assert_eq!(a.duplicate(), a);
}

#[test]
fn piece_keeps_name_and_state_under_a_new_id() {
    let a = ScheduleEntry::new("a", TimePeriod::new(1, 0, 5, 0), HeatingState::On);
    let piece = a.piece(TimePeriod::new(1, 0, 2, 0));
    assert_eq!(piece.name, "a");
    assert_eq!(piece.heating_state, HeatingState::On);
    assert_eq!(piece.time_period, TimePeriod::new(1, 0, 2, 0));
    assert_ne!(piece.id, a.id);
}

#[test]
fn add_entry_keeps_entries_that_do_not_overlap() {
    let mut schedule = Schedule::new("s");
    schedule.add_entry(ScheduleEntry::new("Work", TimePeriod::new(8, 0, 17, 0), HeatingState::On));
    let work_id = schedule.entries[1].id;
    let before_id = schedule.entries[0].id;
    let new_entry = ScheduleEntry::new("Late", TimePeriod::new(20, 0, 22, 0), HeatingState::On);
    let late_id = new_entry.id;
    schedule.add_entry(new_entry);
    assert_eq!(
        periods(&schedule),
        vec![
            TimePeriod::new(0, 0, 8, 0),
            TimePeriod::new(8, 0, 17, 0),
            TimePeriod::new(17, 0, 20, 0),
            TimePeriod::new(20, 0, 22, 0),
            TimePeriod::new(22, 0, 0, 0),
        ]
    );
    assert_eq!(schedule.entries[0].id, before_id);
    assert_eq!(schedule.entries[1].id, work_id);
    assert_eq!(schedule.entries[3].id, late_id);
    assert_eq!(schedule.entries[2].name, "default");
    assert_eq!(schedule.entries[4].name, "default");
    assert_eq!(schedule.entries[2].heating_state, HeatingState::Off);
    assert_ne!(schedule.entries[2].id, schedule.entries[4].id);
    assert_covers_the_day(&schedule);
}

#[test]
fn add_entry_produces_22_to_midnight_entry_that_is_off() {
    let mut schedule = Schedule::new("s");
    schedule.add_entry(ScheduleEntry::new("Morning", TimePeriod::new(10, 0, 11, 0), HeatingState::On));
    schedule.add_entry(ScheduleEntry::new("Evening", TimePeriod::new(17, 0, 22, 0), HeatingState::On));
    let last = &schedule.entries[schedule.entries.len() - 1];
    assert_eq!(last.time_period, TimePeriod::new(22, 0, 0, 0));
    assert_eq!(last.heating_state, HeatingState::Off);
    assert!(schedule.get_active_entry(&at(23, 0)).is_some());
    assert_covers_the_day(&schedule);
}

#[test]
fn add_entry_covering_another_removes_it() {
    let mut schedule = Schedule::new("s");
    schedule.add_entry(ScheduleEntry::new("Small", TimePeriod::new(10, 0, 12, 0), HeatingState::On));
    schedule.add_entry(ScheduleEntry::new("Large", TimePeriod::new(8, 0, 14, 0), HeatingState::Off));
    assert_eq!(
        periods(&schedule),
        vec![
            TimePeriod::new(0, 0, 8, 0),
            TimePeriod::new(8, 0, 14, 0),
            TimePeriod::new(14, 0, 0, 0),
        ]
    );
    assert_covers_the_day(&schedule);
}

#[test]
fn add_wrapping_entry_keeps_the_day_covered() {
    let mut schedule = Schedule::new("s");
    schedule.add_entry(ScheduleEntry::new("Day", TimePeriod::new(8, 0, 17, 0), HeatingState::On));
    schedule.add_entry(ScheduleEntry::new("Night", TimePeriod::new(22, 0, 6, 0), HeatingState::On));
    assert_eq!(
        periods(&schedule),
        vec![
            TimePeriod::new(6, 0, 8, 0),
            TimePeriod::new(8, 0, 17, 0),
            TimePeriod::new(17, 0, 22, 0),
            TimePeriod::new(22, 0, 6, 0),
        ]
    );
    assert_eq!(schedule.get_current_state(&at(23, 0)), HeatingState::On);
    assert_eq!(schedule.get_current_state(&at(3, 0)), HeatingState::On);
    assert_eq!(schedule.get_current_state(&at(7, 0)), HeatingState::Off);
    assert_covers_the_day(&schedule);
}

#[test]
fn add_plain_entry_inside_wrapping_entry_cuts_it_at_midnight() {
    let mut schedule = Schedule::new("s");
    schedule.add_entry(ScheduleEntry::new("Night", TimePeriod::new(22, 0, 6, 0), HeatingState::On));
    assert_eq!(
        periods(&schedule),
        vec![TimePeriod::new(6, 0, 22, 0), TimePeriod::new(22, 0, 6, 0)]
    );
    assert_covers_the_day(&schedule);
    schedule.add_entry(ScheduleEntry::new("Nap", TimePeriod::new(1, 0, 2, 0), HeatingState::Off));
    assert_eq!(
        periods(&schedule),
        vec![
            TimePeriod::new(0, 0, 1, 0),
            TimePeriod::new(1, 0, 2, 0),
            TimePeriod::new(2, 0, 6, 0),
            TimePeriod::new(6, 0, 22, 0),
            TimePeriod::new(22, 0, 0, 0),
        ]
    );
    assert_eq!(schedule.entries[0].name, "Night");
    assert_eq!(schedule.entries[2].name, "Night");
    assert_eq!(schedule.entries[4].name, "Night");
    assert_covers_the_day(&schedule);
}

#[test]
fn add_entry_to_midnight_clips_what_it_overlaps() {
    let mut schedule = Schedule::new("s");
    schedule.add_entry(ScheduleEntry::new("Day", TimePeriod::new(8, 0, 17, 0), HeatingState::On));
    schedule.add_entry(ScheduleEntry::new("Late", TimePeriod::new(10, 0, 0, 0), HeatingState::Off));
    assert_eq!(
        periods(&schedule),
        vec![
            TimePeriod::new(0, 0, 8, 0),
            TimePeriod::new(8, 0, 10, 0),
            TimePeriod::new(10, 0, 0, 0),
        ]
    );
    assert_covers_the_day(&schedule);
}

#[test]
fn add_full_day_to_fresh_schedule_replaces_the_default() {
    let mut schedule = Schedule::new("s");
    schedule.add_entry(ScheduleEntry::new("All", TimePeriod::new(0, 0, 0, 0), HeatingState::On));
    assert_eq!(schedule.entries.len(), 1);
    assert_eq!(schedule.entries[0].name, "All");
    assert_covers_the_day(&schedule);
}

#[test]
fn add_full_day_to_split_schedule_leaves_an_overlap() {
    let mut schedule = Schedule::new("s");
    schedule.add_entry(ScheduleEntry::new("Day", TimePeriod::new(8, 0, 17, 0), HeatingState::On));
    schedule.add_entry(ScheduleEntry::new("All", TimePeriod::new(0, 0, 0, 0), HeatingState::On));
    assert_eq!(
        periods(&schedule),
        vec![
            TimePeriod::new(0, 0, 8, 0),
            TimePeriod::new(0, 0, 17, 0),
            TimePeriod::new(0, 0, 0, 0),
        ]
    );
}

#[test]
fn add_entry_with_equal_starts_keeps_the_older_first() {
    let mut schedule = Schedule::new("s");
    schedule.add_entry(ScheduleEntry::new("Point", TimePeriod::new(8, 0, 8, 0), HeatingState::On));
    assert_eq!(
        periods(&schedule),
        vec![
            TimePeriod::new(0, 0, 8, 0),
            TimePeriod::new(8, 0, 0, 0),
            TimePeriod::new(8, 0, 8, 0),
        ]
    );
    assert_eq!(schedule.entries[2].name, "Point");
}

#[test]
fn active_entry_is_the_first_that_holds_the_time() {
    let mut schedule = Schedule::new("s");
    schedule.add_entry(ScheduleEntry::new("Work", TimePeriod::new(8, 0, 17, 0), HeatingState::On));
    assert_eq!(schedule.get_active_entry(&at(7, 59)).unwrap().name, "default");
    assert_eq!(schedule.get_active_entry(&at(8, 0)).unwrap().name, "Work");
    assert_eq!(schedule.get_active_entry(&at(16, 59)).unwrap().name, "Work");
    assert_eq!(schedule.get_active_entry(&at(17, 0)).unwrap().name, "default");
    assert_eq!(schedule.get_current_state(&at(12, 0)), HeatingState::On);
    assert_eq!(schedule.get_current_state(&at(18, 0)), HeatingState::Off);
}

#[test]
fn time_that_no_entry_holds_is_off() {
    let schedule = Schedule {
        name: "gap".to_string(),
        entries: vec![ScheduleEntry::new("Work", TimePeriod::new(8, 0, 17, 0), HeatingState::On)],
    };
    assert!(schedule.get_active_entry(&at(7, 0)).is_none());
    assert_eq!(schedule.get_current_state(&at(7, 0)), HeatingState::Off);
    assert_eq!(schedule.get_current_state(&at(9, 0)), HeatingState::On);
}

#[test]
fn delete_unknown_id_is_not_found() {
    let mut schedule = Schedule::new("s");
    schedule.add_entry(ScheduleEntry::new("Work", TimePeriod::new(8, 0, 17, 0), HeatingState::On));
    let before = schedule.entries.clone();
    let unknown = before.iter().map(|e| e.id).max().unwrap().wrapping_add(1);
    let unknown = if before.iter().any(|e| e.id == unknown) { unknown.wrapping_add(7) } else { unknown };
    assert_eq!(schedule.delete_entry(unknown), Err(ScheduleError::NotFound));
    assert_eq!(schedule.entries, before);
}

#[test]
fn delete_gives_the_time_to_the_entry_before() {
    let mut schedule = Schedule::new("s");
    schedule.add_entry(ScheduleEntry::new("Work", TimePeriod::new(8, 0, 17, 0), HeatingState::On));
    let work_id = schedule.entries[1].id;
    let first_id = schedule.entries[0].id;
    assert_eq!(schedule.delete_entry(work_id), Ok(()));
    assert_eq!(
        periods(&schedule),
        vec![TimePeriod::new(0, 0, 17, 0), TimePeriod::new(17, 0, 0, 0)]
    );
    assert_eq!(schedule.entries[0].id, first_id);
    assert_eq!(schedule.entries[0].name, "default");
    assert_eq!(schedule.get_current_state(&at(12, 0)), HeatingState::Off);
    assert_covers_the_day(&schedule);
}

#[test]
fn delete_first_entry_gives_its_time_to_the_last() {
    let mut schedule = Schedule::new("s");
    schedule.add_entry(ScheduleEntry::new("Work", TimePeriod::new(8, 0, 17, 0), HeatingState::On));
    let first_id = schedule.entries[0].id;
    let last_id = schedule.entries[2].id;
    assert_eq!(schedule.delete_entry(first_id), Ok(()));
    assert_eq!(
        periods(&schedule),
        vec![TimePeriod::new(8, 0, 17, 0), TimePeriod::new(17, 0, 8, 0)]
    );
    assert_eq!(schedule.entries[1].id, last_id);
    assert_covers_the_day(&schedule);
}

#[test]
fn delete_one_of_two_leaves_the_whole_day() {
    let mut schedule = Schedule::new("s");
    schedule.add_entry(ScheduleEntry::new("Night", TimePeriod::new(22, 0, 6, 0), HeatingState::On));
    let day_id = schedule.entries[0].id;
    let night_id = schedule.entries[1].id;
    assert_eq!(schedule.delete_entry(day_id), Ok(()));
    assert_eq!(schedule.entries.len(), 1);
    assert_eq!(schedule.entries[0].id, night_id);
    assert_eq!(schedule.entries[0].name, "Night");
    assert_eq!(schedule.entries[0].heating_state, HeatingState::On);
    assert!(schedule.entries[0].time_period.is_full_day());
    assert_covers_the_day(&schedule);
}

#[test]
fn delete_the_only_entry_falls_back_to_the_default() {
    let mut schedule = Schedule::new("s");
    schedule.add_entry(ScheduleEntry::new("All", TimePeriod::new(0, 0, 0, 0), HeatingState::On));
    let id = schedule.entries[0].id;
    assert_eq!(schedule.delete_entry(id), Ok(()));
    assert_eq!(schedule.entries.len(), 1);
    assert_eq!(schedule.entries[0].name, "default");
    assert_eq!(schedule.entries[0].heating_state, HeatingState::Off);
    assert!(schedule.entries[0].time_period.is_full_day());
    assert_ne!(schedule.entries[0].id, id);
    assert_covers_the_day(&schedule);
}

#[test]
fn delete_takes_the_first_of_two_entries_with_one_id() {
    let mut a = ScheduleEntry::new("a", TimePeriod::new(0, 0, 8, 0), HeatingState::On);
    let mut b = ScheduleEntry::new("b", TimePeriod::new(8, 0, 17, 0), HeatingState::Off);
    let c = ScheduleEntry::new("c", TimePeriod::new(17, 0, 0, 0), HeatingState::On);
    a.id = 7;
    b.id = 7;
    let mut schedule = Schedule { name: "s".to_string(), entries: vec![a, b, c] };
    assert_eq!(schedule.delete_entry(7), Ok(()));
    assert_eq!(
        periods(&schedule),
        vec![TimePeriod::new(8, 0, 17, 0), TimePeriod::new(17, 0, 8, 0)]
    );
    assert_eq!(schedule.entries[0].name, "b");
    assert_eq!(schedule.entries[1].name, "c");
}

#[test]
fn any_sequence_of_adds_and_deletes_keeps_the_day_covered() {
    let mut schedule = Schedule::new("s");
    let adds = [
        (6, 0, 9, 0),
        (17, 0, 22, 0),
        (9, 0, 17, 0),
        (12, 0, 13, 0),
        (23, 0, 5, 0),
        (4, 30, 6, 30),
        (21, 0, 0, 0),
        (0, 0, 0, 30),
        (20, 0, 3, 0),
        (1, 0, 23, 0),
    ];
    for (i, (sh, sm, eh, em)) in adds.iter().enumerate() {
        let state = if i % 2 == 0 { HeatingState::On } else { HeatingState::Off };
        schedule.add_entry(ScheduleEntry::new("e", TimePeriod::new(*sh, *sm, *eh, *em), state));
        assert_covers_the_day(&schedule);
        if i % 3 == 2 {
            let id = schedule.entries[i % schedule.entries.len()].id;
            assert_eq!(schedule.delete_entry(id), Ok(()));
            assert_covers_the_day(&schedule);
        }
    }
    while schedule.entries.len() > 1 {
        let id = schedule.entries[schedule.entries.len() / 2].id;
        assert_eq!(schedule.delete_entry(id), Ok(()));
        assert_covers_the_day(&schedule);
    }
}

#[test]
fn well_formed_schedules_are_recognised() {
    let mut schedule = Schedule::new("s");
    assert!(schedule.is_well_formed());
    schedule.add_entry(ScheduleEntry::new("Day", TimePeriod::new(8, 0, 17, 0), HeatingState::On));
    assert!(schedule.is_well_formed());
    schedule.add_entry(ScheduleEntry::new("Night", TimePeriod::new(22, 0, 6, 0), HeatingState::On));
    assert!(schedule.is_well_formed());
    let id = schedule.entries[0].id;
    assert_eq!(schedule.delete_entry(id), Ok(()));
    assert!(schedule.is_well_formed());
}

#[test]
fn schedules_with_gaps_or_overlaps_are_not_well_formed() {
    let entry = |sh, sm, eh, em| ScheduleEntry::new("e", TimePeriod::new(sh, sm, eh, em), HeatingState::On);
    let make = |entries: Vec<ScheduleEntry>| Schedule { name: "s".to_string(), entries };
    assert!(!make(vec![]).is_well_formed());
    assert!(!make(vec![entry(8, 0, 17, 0)]).is_well_formed());
    assert!(!make(vec![entry(8, 0, 8, 0)]).is_well_formed());
    assert!(!make(vec![entry(0, 0, 8, 0), entry(9, 0, 0, 0)]).is_well_formed());
    assert!(!make(vec![entry(0, 0, 9, 0), entry(8, 0, 0, 0)]).is_well_formed());
    assert!(!make(vec![entry(8, 0, 0, 0), entry(0, 0, 8, 0)]).is_well_formed());
    assert!(!make(vec![entry(0, 0, 8, 0), entry(8, 0, 8, 0), entry(8, 0, 0, 0)]).is_well_formed());
    assert!(make(vec![entry(0, 0, 8, 0), entry(8, 0, 0, 0)]).is_well_formed());
    assert!(make(vec![entry(6, 0, 22, 0), entry(22, 0, 6, 0)]).is_well_formed());
    let mut broken = Schedule::new("s");
    broken.add_entry(entry(8, 0, 17, 0));
    broken.add_entry(entry(0, 0, 0, 0));
    assert!(!broken.is_well_formed());
    let mut point = Schedule::new("s");
    point.add_entry(entry(8, 0, 8, 0));
    assert!(!point.is_well_formed());
}
