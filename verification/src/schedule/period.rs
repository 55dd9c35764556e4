//! Periods of the day and what is left of one after another is taken out of it.

use crate::time_of_day::TimeOfDay;
use vstd::prelude::*;

verus! {

/// A half-open period of the day, from `start` up to but not including `end`.
///
/// A period whose start and end are both midnight is the whole day. Any other
/// period with `start == end` holds no time at all and is not a proper period.
/// A period whose start is later than its end runs past midnight.
#[derive(Clone, Copy, Debug, PartialEq, Eq, Structural)]
pub struct TimePeriod {
    pub start: TimeOfDay,
    pub end: TimeOfDay,
}

/// The period from `start` to `end`, as a specification value.
pub open spec fn span(start: TimeOfDay, end: TimeOfDay) -> TimePeriod {
    TimePeriod { start, end }
}

/// A sequence that holds `piece` when `keep` is true and nothing otherwise.
pub open spec fn piece_if(keep: bool, piece: TimePeriod) -> Seq<TimePeriod> {
    if keep {
        seq![piece]
    } else {
        Seq::empty()
    }
}

impl TimePeriod {
    /// The whole day: start and end are both midnight.
    pub open spec fn spec_is_full_day(self) -> bool {
        self.start.key() == 0 && self.end.key() == 0
    }

    /// The period runs past midnight: it starts later than it ends. A period that
    /// ends at midnight and starts later is of this kind too.
    pub open spec fn wraps(self) -> bool {
        self.start.key() > self.end.key()
    }

    /// Either the whole day or a period that holds some time.
    pub open spec fn is_proper(self) -> bool {
        self.spec_is_full_day() || self.start != self.end
    }

    /// The times that the period holds.
    pub open spec fn spec_contains(self, time: TimeOfDay) -> bool {
        if self.spec_is_full_day() {
            true
        } else if self.start.key() <= self.end.key() {
            self.start.key() <= time.key() < self.end.key()
        } else {
            time.key() >= self.start.key() || time.key() < self.end.key()
        }
    }

    /// The overlap test: one of the two is the whole day, or one holds the start of
    /// the other.
    pub open spec fn spec_overlaps(self, other: TimePeriod) -> bool {
        self.spec_is_full_day() || other.spec_is_full_day() || self.spec_contains(other.start)
            || other.spec_contains(self.start)
    }

    /// The whole day without `other`.
    pub open spec fn day_without(other: TimePeriod) -> Seq<TimePeriod> {
        let midnight = TimeOfDay::spec_midnight();
        if other.wraps() {
            seq![span(other.end, other.start)]
        } else {
            piece_if(other.start != midnight, span(midnight, other.start)) + piece_if(
                other.end != midnight,
                span(other.end, midnight),
            )
        }
    }

    /// What is left of a period that does not run past midnight when `other`, which
    /// does not either, is taken out: the part before `other` and the part after it.
    pub open spec fn plain_without(self, other: TimePeriod) -> Seq<TimePeriod> {
        piece_if(self.start.key() < other.start.key(), span(self.start, other.start)) + piece_if(
            other.end.key() < self.end.key(),
            span(other.end, self.end),
        )
    }

    /// What is left of a period that ends at midnight when `other`, which does not
    /// run past midnight, is taken out.
    pub open spec fn evening_without(self, other: TimePeriod) -> Seq<TimePeriod> {
        piece_if(other.start.key() > self.start.key(), span(self.start, other.start)) + piece_if(
            other.end.key() >= self.start.key() && other.end.key() != 0,
            span(other.end, TimeOfDay::spec_midnight()),
        )
    }

    /// What is left of a period when `other`, which runs past midnight, is taken
    /// out. `other` is taken out in two steps: first its part up to midnight, then,
    /// unless that part is all of it, its part from midnight on. The period itself
    /// does not run past midnight, or it ends there.
    pub open spec fn without_wrapping(self, other: TimePeriod) -> Seq<TimePeriod> {
        let midnight = TimeOfDay::spec_midnight();
        let evening = span(other.start, midnight);
        let morning = span(midnight, other.end);
        if !self.spec_overlaps(evening) {
            if other.end == midnight || !self.spec_overlaps(morning) {
                seq![self]
            } else {
                self.plain_without(morning)
            }
        } else if self.start.key() < other.start.key() {
            let head = span(self.start, other.start);
            if other.end == midnight || !head.spec_overlaps(morning) {
                seq![head]
            } else {
                head.plain_without(morning)
            }
        } else {
            Seq::empty()
        }
    }

    /// What is left of a period that is not the whole day and that either does not
    /// run past midnight or ends there, when `other` is taken out.
    pub open spec fn part_without(self, other: TimePeriod) -> Seq<TimePeriod> {
        if !self.spec_overlaps(other) {
            seq![self]
        } else if other.wraps() {
            self.without_wrapping(other)
        } else if self.wraps() {
            self.evening_without(other)
        } else {
            self.plain_without(other)
        }
    }

    /// What [`TimePeriod::subtract`] returns: the pieces of `self` that are left
    /// when `other` is taken out of it, in the order of the clock from the start of
    /// `self`.
    ///
    /// A period that runs past midnight and does not end there is cut at midnight
    /// first, and `other` is taken out of each half.
    pub open spec fn spec_subtract(self, other: TimePeriod) -> Seq<TimePeriod> {
        let midnight = TimeOfDay::spec_midnight();
        if !self.spec_overlaps(other) {
            seq![self]
        } else if self.spec_is_full_day() {
            Self::day_without(other)
        } else if self.wraps() && self.end != midnight {
            span(self.start, midnight).part_without(other) + span(midnight, self.end).part_without(
                other,
            )
        } else {
            self.part_without(other)
        }
    }

    /// The period as text: start and end as `HH:MM`, with " - " between.
    pub open spec fn spec_text(self) -> Seq<char> {
        self.start.spec_text() + seq![' ', '-', ' '] + self.end.spec_text()
    }

    /// The period as text, such as `08:00 - 17:00`.
    pub fn to_text(&self) -> (text: String)
        ensures
            text@ == self.spec_text(),
    {
        let mut text = String::new();
        self.start.append_text(&mut text);
        proof {
            reveal_strlit(" - ");
            assert(" - "@ =~= seq![' ', '-', ' ']);
        }
        text.append(" - ");
        self.end.append_text(&mut text);
        assert(text@ =~= self.spec_text());
        text
    }

    /// What [`TimePeriod::new`] returns.
    pub open spec fn spec_new(
        start_hour: u32,
        start_minute: u32,
        end_hour: u32,
        end_minute: u32,
    ) -> TimePeriod {
        span(
            TimeOfDay::spec_from_hms(start_hour, start_minute, 0)->0,
            TimeOfDay::spec_from_hms(end_hour, end_minute, 0)->0,
        )
    }

    /// The period from `start_hour:start_minute` to `end_hour:end_minute`.
    pub fn new(start_hour: u32, start_minute: u32, end_hour: u32, end_minute: u32) -> (period:
        TimePeriod)
        requires
            start_hour < 24,
            start_minute < 60,
            end_hour < 24,
            end_minute < 60,
        ensures
            period == Self::spec_new(start_hour, start_minute, end_hour, end_minute),
            period.start.secs == start_hour * 3600 + start_minute * 60,
            period.end.secs == end_hour * 3600 + end_minute * 60,
            period.start.frac == 0,
            period.end.frac == 0,
            period.start.is_valid(),
            period.end.is_valid(),
    {
        let start = TimeOfDay::from_hms_opt(start_hour, start_minute, 0);
        let end = TimeOfDay::from_hms_opt(end_hour, end_minute, 0);
        TimePeriod { start: start.unwrap(), end: end.unwrap() }
    }

    /// Whether the period is the whole day.
    pub fn is_full_day(&self) -> (b: bool)
        ensures
            b == self.spec_is_full_day(),
    {
        self.start.is_midnight() && self.end.is_midnight()
    }

    /// Whether `time` falls within the period.
    pub fn contains(&self, time: TimeOfDay) -> (b: bool)
        ensures
            b == self.spec_contains(time),
    {
        if self.is_full_day() {
            return true;
        }
        if self.start.is_at_or_before(&self.end) {
            self.start.is_at_or_before(&time) && time.is_before(&self.end)
        } else {
            self.start.is_at_or_before(&time) || time.is_before(&self.end)
        }
    }

    /// Whether the period overlaps `other`.
    pub fn overlaps(&self, other: &TimePeriod) -> (b: bool)
        ensures
            b == self.spec_overlaps(*other),
    {
        if self.is_full_day() || other.is_full_day() {
            return true;
        }
        self.contains(other.start) || other.contains(self.start)
    }

    /// The pieces of this period that are left when `other` is taken out of it.
    pub fn subtract(&self, other: &TimePeriod) -> (pieces: Vec<TimePeriod>)
        ensures
            pieces@ == self.spec_subtract(*other),
    {
        let midnight = TimeOfDay::midnight();
        let mut pieces: Vec<TimePeriod> = Vec::new();
        if !self.overlaps(other) {
            pieces.push(*self);
        } else if self.is_full_day() {
            if other.end.is_before(&other.start) {
                pieces.push(TimePeriod { start: other.end, end: other.start });
            } else {
                if !other.start.is_midnight() {
                    pieces.push(TimePeriod { start: midnight, end: other.start });
                }
                if !other.end.is_midnight() {
                    pieces.push(TimePeriod { start: other.end, end: midnight });
                }
            }
        } else if self.end.is_before(&self.start) && !self.end.is_midnight() {
            let evening = TimePeriod { start: self.start, end: midnight };
            let morning = TimePeriod { start: midnight, end: self.end };
            evening.push_part_without(other, &mut pieces);
            morning.push_part_without(other, &mut pieces);
        } else {
            self.push_part_without(other, &mut pieces);
        }
        pieces
    }

    /// Appends to `pieces` what is left of this period without `other`.
    fn push_part_without(&self, other: &TimePeriod, pieces: &mut Vec<TimePeriod>)
        ensures
            final(pieces)@ == old(pieces)@ + self.part_without(*other),
    {
        if !self.overlaps(other) {
            pieces.push(*self);
        } else if other.end.is_before(&other.start) {
            self.push_without_wrapping(other, pieces);
        } else if self.end.is_before(&self.start) {
            if self.start.is_before(&other.start) {
                pieces.push(TimePeriod { start: self.start, end: other.start });
            }
            if self.start.is_at_or_before(&other.end) && !other.end.is_midnight() {
                pieces.push(TimePeriod { start: other.end, end: TimeOfDay::midnight() });
            }
        } else {
            self.push_plain_without(other, pieces);
        }
    }

    /// Appends to `pieces` the part of this period before `other` and the part
    /// after it.
    fn push_plain_without(&self, other: &TimePeriod, pieces: &mut Vec<TimePeriod>)
        ensures
            final(pieces)@ == old(pieces)@ + self.plain_without(*other),
    {
        if self.start.is_before(&other.start) {
            pieces.push(TimePeriod { start: self.start, end: other.start });
        }
        if other.end.is_before(&self.end) {
            pieces.push(TimePeriod { start: other.end, end: self.end });
        }
    }

    /// Appends to `pieces` what is left of this period without `other`, which runs
    /// past midnight.
    fn push_without_wrapping(&self, other: &TimePeriod, pieces: &mut Vec<TimePeriod>)
        ensures
            final(pieces)@ == old(pieces)@ + self.without_wrapping(*other),
    {
        let midnight = TimeOfDay::midnight();
        let evening = TimePeriod { start: other.start, end: midnight };
        let morning = TimePeriod { start: midnight, end: other.end };
        if !self.overlaps(&evening) {
            if other.end.is_midnight() || !self.overlaps(&morning) {
                pieces.push(*self);
            } else {
                self.push_plain_without(&morning, pieces);
            }
        } else if self.start.is_before(&other.start) {
            let head = TimePeriod { start: self.start, end: other.start };
            if other.end.is_midnight() || !head.overlaps(&morning) {
                pieces.push(head);
            } else {
                head.push_plain_without(&morning, pieces);
            }
        }
    }
}

} // verus!
