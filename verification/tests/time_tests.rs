use ha_heating_scheduler::time_of_day::TimeOfDay;

#[test]
fn from_hms_counts_seconds_from_midnight() {
    let time = TimeOfDay::from_hms_opt(8, 30, 15).unwrap();
    assert_eq!(time.secs, 8 * 3600 + 30 * 60 + 15);
    assert_eq!(time.frac, 0);
    assert_eq!(TimeOfDay::from_hms_opt(23, 59, 59).unwrap().secs, 86_399);
    assert_eq!(TimeOfDay::from_hms_opt(0, 0, 0).unwrap(), TimeOfDay::midnight());
}

#[test]
fn from_hms_rejects_values_out_of_range() {
    assert_eq!(TimeOfDay::from_hms_opt(24, 0, 0), None);
    assert_eq!(TimeOfDay::from_hms_opt(0, 60, 0), None);
    assert_eq!(TimeOfDay::from_hms_opt(0, 0, 60), None);
    assert_eq!(TimeOfDay::from_hms_opt(u32::MAX, 0, 0), None);
}

#[test]
fn midnight_is_the_earliest_time() {
    let midnight = TimeOfDay::midnight();
    assert!(midnight.is_midnight());
    assert!(midnight.check_valid());
    assert!(!TimeOfDay { secs: 0, frac: 1 }.is_midnight());
    assert!(midnight.is_before(&TimeOfDay { secs: 0, frac: 1 }));
    assert!(!midnight.is_before(&midnight));
    assert!(midnight.is_at_or_before(&midnight));
}

#[test]
fn times_are_ordered_by_seconds_then_nanoseconds() {
    let a = TimeOfDay { secs: 10, frac: 999_999_999 };
    let b = TimeOfDay { secs: 11, frac: 0 };
    assert!(a.is_before(&b));
    assert!(!b.is_before(&a));
    assert!(a.is_at_or_before(&b));
    assert!(!b.is_at_or_before(&a));
    assert!(a < b);
    let leap = TimeOfDay { secs: 59, frac: 1_500_000_000 };
    let next = TimeOfDay { secs: 60, frac: 0 };
    assert!(leap.is_before(&next));
    assert!(leap < next);
}

#[test]
fn validity_follows_the_clock() {
    assert!(TimeOfDay { secs: 86_399, frac: 999_999_999 }.check_valid());
    assert!(!TimeOfDay { secs: 86_400, frac: 0 }.check_valid());
    assert!(!TimeOfDay { secs: 0, frac: 2_000_000_000 }.check_valid());
    assert!(TimeOfDay { secs: 59, frac: 1_999_999_999 }.check_valid());
    assert!(TimeOfDay { secs: 58, frac: 1_000_000_000 }.check_valid());
    assert!(!TimeOfDay { secs: u32::MAX, frac: u32::MAX }.check_valid());
}

#[test]
fn plus_minutes_moves_the_clock_on() {
    let time = TimeOfDay::from_hms_opt(10, 0, 0).unwrap();
    assert_eq!(time.plus_minutes(30), TimeOfDay::from_hms_opt(10, 30, 0).unwrap());
    assert_eq!(time.plus_minutes(0), time);
    let with_nanos = TimeOfDay { secs: 3600, frac: 123_456_789 };
    assert_eq!(with_nanos.plus_minutes(1), TimeOfDay { secs: 3660, frac: 123_456_789 });
}

#[test]
fn plus_minutes_wraps_at_midnight() {
    let late = TimeOfDay::from_hms_opt(23, 50, 0).unwrap();
    assert_eq!(late.plus_minutes(30), TimeOfDay::from_hms_opt(0, 20, 0).unwrap());
    assert_eq!(late.plus_minutes(10), TimeOfDay::midnight());
    assert_eq!(late.plus_minutes(24 * 60), late);
    assert_eq!(late.plus_minutes(u32::MAX), TimeOfDay { secs: 14_700, frac: 0 });
}

#[test]
fn plus_minutes_leaves_a_leap_second_behind() {
    let leap = TimeOfDay { secs: 86_399, frac: 1_250_000_000 };
    assert_eq!(leap.plus_minutes(0), leap);
    assert_eq!(leap.plus_minutes(1), TimeOfDay { secs: 59, frac: 250_000_000 });
    let odd = TimeOfDay { secs: 100, frac: 1_999_999_999 };
    assert_eq!(odd.plus_minutes(0), odd);
    assert_eq!(odd.plus_minutes(2), TimeOfDay { secs: 220, frac: 999_999_999 });
}

#[test]
fn local_time_is_a_time_of_day() {
    let now = TimeOfDay::now_local();
    assert!(now.check_valid());
    assert!(now.secs < 86_400);
}

#[test]
fn hour_and_minute_of_a_time() {
    let time = TimeOfDay::from_hms_opt(17, 45, 59).unwrap();
    assert_eq!(time.hour(), 17);
    assert_eq!(time.minute(), 45);
    let mut text = String::from("at ");
    time.append_text(&mut text);
    assert_eq!(text, "at 17:45");
}
