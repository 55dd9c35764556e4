//! Times of day, ordered from midnight on.

use chrono::Timelike;
use vstd::prelude::*;

verus! {

/// Seconds in a day.
pub const SECONDS_PER_DAY: u32 = 86_400;

/// Nanoseconds in a second. A nanosecond part at or above this marks a leap second.
pub const NANOS_PER_SECOND: u32 = 1_000_000_000;

/// A time of day without a date: whole seconds since midnight and a nanosecond part.
///
/// Times are ordered by seconds first and by the nanosecond part second, which is
/// the order of [`TimeOfDay::key`].
#[derive(Clone, Copy, Debug, PartialEq, Eq, PartialOrd, Ord, Hash, Structural)]
pub struct TimeOfDay {
    pub secs: u32,
    pub frac: u32,
}

/// The character of a decimal digit.
pub open spec fn digit(d: int) -> char {
    if d == 0 {
        '0'
    } else if d == 1 {
        '1'
    } else if d == 2 {
        '2'
    } else if d == 3 {
        '3'
    } else if d == 4 {
        '4'
    } else if d == 5 {
        '5'
    } else if d == 6 {
        '6'
    } else if d == 7 {
        '7'
    } else if d == 8 {
        '8'
    } else {
        '9'
    }
}

/// The decimal digits of a number, without leading zeros.
pub open spec fn decimal(n: nat) -> Seq<char>
    decreases n,
{
    if n < 10 {
        seq![digit(n as int)]
    } else {
        decimal(n / 10).push(digit((n % 10) as int))
    }
}

/// The decimal digits of a number, with a leading zero where it is below ten.
pub open spec fn two_digits(n: nat) -> Seq<char> {
    if n < 10 {
        seq!['0', digit(n as int)]
    } else {
        decimal(n)
    }
}

impl TimeOfDay {
    /// The hour of the time: its seconds in whole hours.
    pub open spec fn spec_hour(self) -> nat {
        (self.secs / 3600) as nat
    }

    /// The minute of the time within its hour.
    pub open spec fn spec_minute(self) -> nat {
        ((self.secs / 60) % 60) as nat
    }

    /// The time as hour and minute, two digits each, with a colon between.
    pub open spec fn spec_text(self) -> Seq<char> {
        two_digits(self.spec_hour()) + seq![':'] + two_digits(self.spec_minute())
    }

    /// The hour of the time.
    pub fn hour(&self) -> (hour: u32)
        ensures
            hour == self.spec_hour(),
    {
        self.secs / 3600
    }

    /// The minute of the time within its hour.
    pub fn minute(&self) -> (minute: u32)
        ensures
            minute == self.spec_minute(),
    {
        (self.secs / 60) % 60
    }

    /// Appends the time to `out` as `HH:MM`.
    pub fn append_text(&self, out: &mut String)
        ensures
            final(out)@ == old(out)@ + self.spec_text(),
    {
        append_two_digits(self.hour(), out);
        proof {
            reveal_strlit(":");
            assert(":"@ =~= seq![':']);
        }
        out.append(":");
        append_two_digits(self.minute(), out);
        assert(out@ =~= old(out)@ + self.spec_text());
    }

    /// The position of this time in the day, as one integer. Midnight is 0, and a
    /// time is earlier than another exactly when its key is smaller.
    pub open spec fn key(self) -> int {
        self.secs * 0x1_0000_0000 + self.frac
    }

    /// True of the values that denote a time of day: fewer than 86,400 seconds and
    /// a nanosecond part below two seconds.
    pub open spec fn is_valid(self) -> bool {
        &&& self.secs < SECONDS_PER_DAY
        &&& self.frac < 2 * NANOS_PER_SECOND
    }

    /// Midnight as a specification value.
    pub open spec fn spec_midnight() -> TimeOfDay {
        TimeOfDay { secs: 0, frac: 0 }
    }

    /// What [`TimeOfDay::from_hms_opt`] returns.
    pub open spec fn spec_from_hms(hour: u32, min: u32, sec: u32) -> Option<TimeOfDay> {
        if hour < 24 && min < 60 && sec < 60 {
            Some(TimeOfDay { secs: (hour * 3600 + min * 60 + sec) as u32, frac: 0 })
        } else {
            None
        }
    }

    /// What [`TimeOfDay::plus_minutes`] returns: the clock moved on, wrapping at
    /// midnight. A leap second is left behind as soon as the clock moves.
    pub open spec fn spec_plus_minutes(self, minutes: u32) -> TimeOfDay {
        TimeOfDay {
            secs: ((self.secs + 60 * minutes) % (SECONDS_PER_DAY as int)) as u32,
            frac: if self.frac >= NANOS_PER_SECOND && minutes > 0 {
                (self.frac - NANOS_PER_SECOND) as u32
            } else {
                self.frac
            },
        }
    }

    /// Midnight, the earliest time of the day.
    pub fn midnight() -> (t: TimeOfDay)
        ensures
            t == Self::spec_midnight(),
            t.key() == 0,
            t.is_valid(),
    {
        TimeOfDay { secs: 0, frac: 0 }
    }

    /// The time at the given hour, minute and second, or `None` when one of them is
    /// out of range.
    pub fn from_hms_opt(hour: u32, min: u32, sec: u32) -> (t: Option<TimeOfDay>)
        ensures
            t == Self::spec_from_hms(hour, min, sec),
            t is Some ==> t->0.is_valid(),
    {
        naive_from_hms(hour, min, sec)
    }

    /// Whether this value denotes a time of day.
    pub fn check_valid(&self) -> (b: bool)
        ensures
            b == self.is_valid(),
    {
        self.secs < SECONDS_PER_DAY && self.frac < 2 * NANOS_PER_SECOND
    }

    /// Whether this is midnight.
    pub fn is_midnight(&self) -> (b: bool)
        ensures
            b == (self.key() == 0),
            b == (*self == Self::spec_midnight()),
    {
        self.secs == 0 && self.frac == 0
    }

    /// Whether this time is strictly earlier than `other`.
    pub fn is_before(&self, other: &TimeOfDay) -> (b: bool)
        ensures
            b == (self.key() < other.key()),
    {
        self.secs < other.secs || (self.secs == other.secs && self.frac < other.frac)
    }

    /// Whether this time is `other` or earlier.
    pub fn is_at_or_before(&self, other: &TimeOfDay) -> (b: bool)
        ensures
            b == (self.key() <= other.key()),
    {
        self.secs < other.secs || (self.secs == other.secs && self.frac <= other.frac)
    }

    /// The time `minutes` minutes later on the clock, wrapping at midnight.
    pub fn plus_minutes(&self, minutes: u32) -> (t: TimeOfDay)
        requires
            self.is_valid(),
        ensures
            t == self.spec_plus_minutes(minutes),
            t.is_valid(),
    {
        naive_plus_minutes(*self, minutes)
    }

    /// The local wall-clock time at the moment of the call.
    pub fn now_local() -> (t: TimeOfDay)
        ensures
            t.is_valid(),
    {
        local_clock_time()
    }
}

/// The text of one decimal digit.
fn digit_text(d: u32) -> (text: &'static str)
    requires
        d < 10,
    ensures
        text@ == seq![digit(d as int)],
{
    proof {
        reveal_strlit("0");
        reveal_strlit("1");
        reveal_strlit("2");
        reveal_strlit("3");
        reveal_strlit("4");
        reveal_strlit("5");
        reveal_strlit("6");
        reveal_strlit("7");
        reveal_strlit("8");
        reveal_strlit("9");
    }
    let text = if d == 0 {
        "0"
    } else if d == 1 {
        "1"
    } else if d == 2 {
        "2"
    } else if d == 3 {
        "3"
    } else if d == 4 {
        "4"
    } else if d == 5 {
        "5"
    } else if d == 6 {
        "6"
    } else if d == 7 {
        "7"
    } else if d == 8 {
        "8"
    } else {
        "9"
    };
    assert(text@ =~= seq![digit(d as int)]);
    text
}

/// Appends the decimal digits of `n` to `out`.
fn append_decimal(n: u32, out: &mut String)
    ensures
        final(out)@ == old(out)@ + decimal(n as nat),
    decreases n,
{
    if n >= 10 {
        append_decimal(n / 10, out);
    }
    out.append(digit_text(n % 10));
    assert(out@ =~= old(out)@ + decimal(n as nat));
}

/// Appends `n` to `out` in at least two decimal digits.
fn append_two_digits(n: u32, out: &mut String)
    ensures
        final(out)@ == old(out)@ + two_digits(n as nat),
{
    if n < 10 {
        out.append(digit_text(0));
    }
    append_decimal(n, out);
    assert(out@ =~= old(out)@ + two_digits(n as nat));
}

/// Calls `chrono::NaiveTime::from_hms_opt` and reads the result back with
/// `num_seconds_from_midnight` and `nanosecond`. The contract claims what that
/// constructor does: it accepts exactly an hour below 24 with minute and second
/// below 60, and the time it makes has that many seconds and no nanoseconds.
#[verifier::external_body]
fn naive_from_hms(hour: u32, min: u32, sec: u32) -> (t: Option<TimeOfDay>)
    ensures
        t == TimeOfDay::spec_from_hms(hour, min, sec),
{
    match chrono::NaiveTime::from_hms_opt(hour, min, sec) {
        Some(naive) => Some(
            TimeOfDay { secs: naive.num_seconds_from_midnight(), frac: naive.nanosecond() },
        ),
        None => None,
    }
}

/// Adds `chrono::TimeDelta::minutes(minutes)` to the `chrono::NaiveTime` with the
/// given seconds and nanoseconds, which is made by
/// `from_num_seconds_from_midnight_opt` and `with_nanosecond`. The contract claims
/// what that addition does for a delay of whole minutes: the seconds advance
/// modulo one day, and the nanosecond part stays, except that a leap second loses
/// its extra second once the delay is not zero.
#[verifier::external_body]
fn naive_plus_minutes(time: TimeOfDay, minutes: u32) -> (t: TimeOfDay)
    requires
        time.is_valid(),
    ensures
        t == time.spec_plus_minutes(minutes),
{
    let whole = chrono::NaiveTime::from_num_seconds_from_midnight_opt(time.secs, 0).unwrap();
    let naive = whole.with_nanosecond(time.frac).unwrap();
    let later = naive + chrono::TimeDelta::minutes(i64::from(minutes));
    TimeOfDay { secs: later.num_seconds_from_midnight(), frac: later.nanosecond() }
}

/// Reads `chrono::Local::now().time()`. The result depends on the clock and the
/// time zone, so the contract claims only what holds of every `chrono::NaiveTime`:
/// its seconds are fewer than those of a day and its nanoseconds fewer than those
/// of two seconds.
#[verifier::external_body]
fn local_clock_time() -> (t: TimeOfDay)
    ensures
        t.is_valid(),
{
    let naive = chrono::Local::now().time();
    TimeOfDay { secs: naive.num_seconds_from_midnight(), frac: naive.nanosecond() }
}

} // verus!
