//! Frame arithmetic: one frame on, one frame back, with the date, the
//! drop-frame rule and the parity bit.

use crate::error::TimecodeError;
use crate::fields::{days_in_month, month_length, FrameFields};
use crate::flags::LtcBgFlags;
use crate::standard::LTCTVStandard;
use vstd::prelude::*;

verus! {

/// Tells whether a step of frame arithmetic crossed midnight.
#[derive(Debug, Clone, Copy, PartialEq, Eq, Structural)]
pub enum TimecodeWasWrapped {
    No,
    Yes,
}

/// The frame rate that the two frame digits can count: `fps` held within
/// `1..=40`.
pub open spec fn counted_fps(fps: int) -> int {
    if fps < 1 {
        1
    } else if fps > 40 {
        40
    } else {
        fps
    }
}

/// The smaller of two numbers.
pub open spec fn min_int(a: int, b: int) -> int {
    if a <= b {
        a
    } else {
        b
    }
}

fn clamp_fps(fps: i32) -> (r: u8)
    ensures
        r == counted_fps(fps as int),
        1 <= r <= 40,
{
    if fps < 1 {
        1
    } else if fps > 40 {
        40
    } else {
        fps as u8
    }
}

impl FrameFields {
    /// One more frame completes the second.
    pub open spec fn rolls_second(self, fps: int) -> bool {
        self.frame_number() + 1 >= counted_fps(fps)
    }

    /// One more frame completes the minute.
    pub open spec fn rolls_minute(self, fps: int) -> bool {
        self.rolls_second(fps) && self.seconds() + 1 >= 60
    }

    /// One more frame completes the hour.
    pub open spec fn rolls_hour(self, fps: int) -> bool {
        self.rolls_minute(fps) && self.minutes() + 1 >= 60
    }

    /// One more frame completes the day.
    pub open spec fn rolls_day(self, fps: int) -> bool {
        self.rolls_hour(fps) && self.hours() + 1 >= 24
    }

    /// The clock one frame later; the date is left alone.
    pub open spec fn tick(self, fps: int) -> FrameFields {
        if !self.rolls_second(fps) {
            self.put_frame(self.frame_number() + 1)
        } else if !self.rolls_minute(fps) {
            self.put_frame(0).put_seconds(self.seconds() + 1)
        } else if !self.rolls_hour(fps) {
            self.put_frame(0).put_seconds(0).put_minutes(self.minutes() + 1)
        } else if !self.rolls_day(fps) {
            self.put_frame(0).put_seconds(0).put_minutes(0).put_hours(self.hours() + 1)
        } else {
            self.put_frame(0).put_seconds(0).put_minutes(0).put_hours(0)
        }
    }

    /// The first frame of a second.
    pub open spec fn borrows_second(self) -> bool {
        self.frame_number() == 0
    }

    /// The first frame of a minute.
    pub open spec fn borrows_minute(self) -> bool {
        self.borrows_second() && self.seconds() == 0
    }

    /// The first frame of an hour.
    pub open spec fn borrows_hour(self) -> bool {
        self.borrows_minute() && self.minutes() == 0
    }

    /// The first frame of a day.
    pub open spec fn borrows_day(self) -> bool {
        self.borrows_hour() && self.hours() == 0
    }

    /// The clock one frame earlier; the date is left alone.
    pub open spec fn untick(self, fps: int) -> FrameFields {
        let top = counted_fps(fps) - 1;
        if !self.borrows_second() {
            self.put_frame(min_int(self.frame_number() - 1, top))
        } else if !self.borrows_minute() {
            self.put_frame(top).put_seconds(min_int(self.seconds() - 1, 59))
        } else if !self.borrows_hour() {
            self.put_frame(top).put_seconds(59).put_minutes(min_int(self.minutes() - 1, 59))
        } else if !self.borrows_day() {
            self.put_frame(top).put_seconds(59).put_minutes(59).put_hours(
                min_int(self.hours() - 1, 23),
            )
        } else {
            self.put_frame(top).put_seconds(59).put_minutes(59).put_hours(23)
        }
    }

    /// The user bits hold a month of the calendar.
    pub open spec fn has_month(self) -> bool {
        1 <= self.month() <= 12
    }

    /// The date in the user bits, one day later.
    pub open spec fn next_day(self) -> FrameFields {
        let y = self.year();
        let m = self.month();
        let d = self.day();
        if d + 1 <= days_in_month(y, m) {
            self.put_date(y, m, d + 1)
        } else if m + 1 <= 12 {
            self.put_date(y, m + 1, 1)
        } else {
            self.put_date((y + 1) % 100, 1, 1)
        }
    }

    /// The date in the user bits, one day earlier.
    pub open spec fn previous_day(self) -> FrameFields {
        let y = self.year();
        let m = self.month();
        let d = self.day();
        if d > 1 {
            self.put_date(y, m, d - 1)
        } else if m > 1 {
            self.put_date(y, m - 1, days_in_month(y, m - 1))
        } else {
            self.put_date((y + 99) % 100, 12, 31)
        }
    }

    /// Under drop-frame numbering, a left-out number moves back to the last
    /// frame of the minute before.
    pub open spec fn back_over_dropped(self, fps: int) -> FrameFields {
        if self.dfbit && self.at_dropped_number() {
            self.put_frame(counted_fps(fps) - 1).put_seconds(59).put_minutes(self.minutes() - 1)
        } else {
            self
        }
    }

    /// The frame that follows: the clock one frame later, the date one day
    /// later where midnight is crossed and the user bits carry a date with a
    /// month, left-out drop-frame numbers skipped, and the parity bit set
    /// where `flags` keep one.
    pub open spec fn incremented(
        self,
        fps: int,
        standard: LTCTVStandard,
        flags: LtcBgFlags,
    ) -> FrameFields {
        let placed = self.advanced(fps, flags.use_date);
        if flags.parity_applies() {
            placed.with_parity(standard)
        } else {
            placed
        }
    }

    /// The clock one frame later, the date one day later where midnight is
    /// crossed and a date with a month is carried, and left-out drop-frame
    /// numbers skipped. The parity bit is left alone.
    pub open spec fn advanced(self, fps: int, use_date: bool) -> FrameFields {
        let ticked = self.tick(fps);
        let dated = if self.rolls_day(fps) && use_date && self.has_month() {
            ticked.next_day()
        } else {
            ticked
        };
        dated.skip_dropped()
    }

    /// What `increment` reports: whether midnight was crossed, or that it
    /// was but the calendar could not follow.
    pub open spec fn increment_report(self, fps: int, flags: LtcBgFlags) -> Result<
        TimecodeWasWrapped,
        TimecodeError,
    > {
        if !self.rolls_day(fps) {
            Ok(TimecodeWasWrapped::No)
        } else if flags.use_date && !self.has_month() {
            Err(TimecodeError::InvalidReturn)
        } else {
            Ok(TimecodeWasWrapped::Yes)
        }
    }

    /// The frame that precedes: the mirror image of `incremented`.
    pub open spec fn decremented(
        self,
        fps: int,
        standard: LTCTVStandard,
        flags: LtcBgFlags,
    ) -> FrameFields {
        let placed = self.retreated(fps, flags.use_date);
        if flags.parity_applies() {
            placed.with_parity(standard)
        } else {
            placed
        }
    }

    /// The clock one frame earlier, the date one day earlier where midnight
    /// is crossed and a date with a month is carried, and left-out
    /// drop-frame numbers skipped. The parity bit is left alone.
    pub open spec fn retreated(self, fps: int, use_date: bool) -> FrameFields {
        let unticked = self.untick(fps);
        let dated = if self.borrows_day() && use_date && self.has_month() {
            unticked.previous_day()
        } else {
            unticked
        };
        dated.back_over_dropped(fps)
    }

    /// What `decrement` reports: whether midnight was crossed, or that it
    /// was but the calendar could not follow.
    pub open spec fn decrement_report(self, flags: LtcBgFlags) -> Result<
        TimecodeWasWrapped,
        TimecodeError,
    > {
        if !self.borrows_day() {
            Ok(TimecodeWasWrapped::No)
        } else if flags.use_date && !self.has_month() {
            Err(TimecodeError::InvalidReturn)
        } else {
            Ok(TimecodeWasWrapped::Yes)
        }
    }

    fn frame_value(&self) -> (r: u8)
        requires
            self.wf(),
        ensures
            r == self.frame_number(),
            r <= 45,
    {
        self.frame_units + 10 * self.frame_tens
    }

    fn seconds_value(&self) -> (r: u8)
        requires
            self.wf(),
        ensures
            r == self.seconds(),
            r <= 85,
    {
        self.secs_units + 10 * self.secs_tens
    }

    fn minutes_value(&self) -> (r: u8)
        requires
            self.wf(),
        ensures
            r == self.minutes(),
            r <= 85,
    {
        self.mins_units + 10 * self.mins_tens
    }

    fn hours_value(&self) -> (r: u8)
        requires
            self.wf(),
        ensures
            r == self.hours(),
            r <= 45,
    {
        self.hours_units + 10 * self.hours_tens
    }

    fn month_value(&self) -> (r: u8)
        requires
            self.wf(),
        ensures
            r == self.month(),
            r <= 165,
    {
        self.user3 + 10 * self.user4
    }

    fn month_is_valid(&self) -> (r: bool)
        requires
            self.wf(),
        ensures
            r == self.has_month(),
    {
        let m: u8 = self.month_value();
        1 <= m && m <= 12
    }

    /// Moves the clock one frame on and says whether midnight was crossed.
    fn tick_clock(&mut self, fps: i32) -> (day: bool)
        requires
            old(self).wf(),
        ensures
            *final(self) == old(self).tick(fps as int),
            final(self).wf(),
            day == old(self).rolls_day(fps as int),
    {
        proof {
            FrameFields::lemma_clock_writers();
        }
        let limit: u8 = clamp_fps(fps);
        let n: u8 = self.frame_value() + 1;
        if n < limit {
            self.set_frame_number(n);
            return false;
        }
        self.set_frame_number(0);
        let s: u8 = self.seconds_value() + 1;
        if s < 60 {
            self.set_seconds(s);
            return false;
        }
        self.set_seconds(0);
        let m: u8 = self.minutes_value() + 1;
        if m < 60 {
            self.set_minutes(m);
            return false;
        }
        self.set_minutes(0);
        let h: u8 = self.hours_value() + 1;
        if h < 24 {
            self.set_hours(h);
            return false;
        }
        self.set_hours(0);
        true
    }

    /// Moves the clock one frame back and says whether midnight was crossed.
    fn untick_clock(&mut self, fps: i32) -> (day: bool)
        requires
            old(self).wf(),
        ensures
            *final(self) == old(self).untick(fps as int),
            final(self).wf(),
            day == old(self).borrows_day(),
    {
        proof {
            FrameFields::lemma_clock_writers();
        }
        let top: u8 = clamp_fps(fps) - 1;
        let n: u8 = self.frame_value();
        if n > 0 {
            self.set_frame_number(if n - 1 < top {
                n - 1
            } else {
                top
            });
            return false;
        }
        self.set_frame_number(top);
        let s: u8 = self.seconds_value();
        if s > 0 {
            self.set_seconds(if s - 1 < 59 {
                s - 1
            } else {
                59
            });
            return false;
        }
        self.set_seconds(59);
        let m: u8 = self.minutes_value();
        if m > 0 {
            self.set_minutes(if m - 1 < 59 {
                m - 1
            } else {
                59
            });
            return false;
        }
        self.set_minutes(59);
        let h: u8 = self.hours_value();
        if h > 0 {
            self.set_hours(if h - 1 < 23 {
                h - 1
            } else {
                23
            });
            return false;
        }
        self.set_hours(23);
        true
    }

    fn advance_date(&mut self)
        requires
            old(self).wf(),
        ensures
            *final(self) == old(self).next_day(),
            final(self).wf(),
    {
        let y: u8 = self.user5 + 10 * self.user6;
        let m: u8 = self.month_value();
        let d: u8 = self.user1 + 10 * self.user2;
        if d + 1 <= month_length(y, m) {
            self.set_date(y, m, d + 1);
        } else if m + 1 <= 12 {
            self.set_date(y, m + 1, 1);
        } else {
            self.set_date((y + 1) % 100, 1, 1);
        }
    }

    fn retreat_date(&mut self)
        requires
            old(self).wf(),
        ensures
            *final(self) == old(self).previous_day(),
            final(self).wf(),
    {
        let y: u8 = self.user5 + 10 * self.user6;
        let m: u8 = self.month_value();
        let d: u8 = self.user1 + 10 * self.user2;
        if d > 1 {
            self.set_date(y, m, d - 1);
        } else if m > 1 {
            self.set_date(y, m - 1, month_length(y, m - 1));
        } else {
            self.set_date(((y as u16 + 99) % 100) as u8, 12, 31);
        }
    }

    fn step_back_over_dropped(&mut self, fps: i32)
        requires
            old(self).wf(),
        ensures
            *final(self) == old(self).back_over_dropped(fps as int),
            final(self).wf(),
            final(self).dfbit ==> !final(self).at_dropped_number(),
    {
        proof {
            FrameFields::lemma_clock_writers();
        }
        if self.dfbit && self.is_at_dropped_number() {
            let m: u8 = self.minutes_value();
            self.set_frame_number(clamp_fps(fps) - 1);
            self.set_seconds(59);
            self.set_minutes(m - 1);
        }
    }

    /// Advances the frame by one and reports whether midnight was crossed.
    ///
    /// The call fails when midnight was crossed, the user bits carry the
    /// date and the month in them is not `1..=12`; the clock has then moved
    /// on and the date has not.
    pub fn increment(&mut self, fps: i32, standard: LTCTVStandard, flags: LtcBgFlags) -> (r: Result<
        TimecodeWasWrapped,
        TimecodeError,
    >)
        requires
            old(self).wf(),
        ensures
            *final(self) == old(self).incremented(fps as int, standard, flags),
            r == old(self).increment_report(fps as int, flags),
            final(self).wf(),
            final(self).dfbit ==> !final(self).at_dropped_number(),
            flags.parity_applies() ==> final(self).ones() % 2 == 0,
    {
        proof {
            FrameFields::lemma_clock_writers();
            FrameFields::lemma_date_writers();
        }
        let had_month: bool = self.month_is_valid();
        let day: bool = self.tick_clock(fps);
        if day && flags.use_date && had_month {
            self.advance_date();
        }
        self.skip_drop_frames();
        if flags.parity_enabled() {
            self.set_parity(standard);
        }
        if !day {
            Ok(TimecodeWasWrapped::No)
        } else if flags.use_date && !had_month {
            Err(TimecodeError::InvalidReturn)
        } else {
            Ok(TimecodeWasWrapped::Yes)
        }
    }

    /// Moves the frame back by one and reports whether midnight was crossed.
    ///
    /// The call fails when midnight was crossed, the user bits carry the
    /// date and the month in them is not `1..=12`; the clock has then moved
    /// back and the date has not.
    pub fn decrement(&mut self, fps: i32, standard: LTCTVStandard, flags: LtcBgFlags) -> (r: Result<
        TimecodeWasWrapped,
        TimecodeError,
    >)
        requires
            old(self).wf(),
        ensures
            *final(self) == old(self).decremented(fps as int, standard, flags),
            r == old(self).decrement_report(flags),
            final(self).wf(),
            final(self).dfbit ==> !final(self).at_dropped_number(),
            flags.parity_applies() ==> final(self).ones() % 2 == 0,
    {
        proof {
            FrameFields::lemma_clock_writers();
            FrameFields::lemma_date_writers();
        }
        let had_month: bool = self.month_is_valid();
        let day: bool = self.untick_clock(fps);
        if day && flags.use_date && had_month {
            self.retreat_date();
        }
        self.step_back_over_dropped(fps);
        if flags.parity_enabled() {
            self.set_parity(standard);
        }
        if !day {
            Ok(TimecodeWasWrapped::No)
        } else if flags.use_date && !had_month {
            Err(TimecodeError::InvalidReturn)
        } else {
            Ok(TimecodeWasWrapped::Yes)
        }
    }
}

} // verus!
