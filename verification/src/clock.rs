//! The clock of a frame as four numbers, and frame arithmetic told in them.

use crate::fields::{days_in_month, FrameFields};
use vstd::prelude::*;

verus! {

/// Hours, minutes, seconds and frame as plain numbers.
pub ghost struct ClockTime {
    pub hours: int,
    pub minutes: int,
    pub seconds: int,
    pub frame: int,
}

impl ClockTime {
    /// A moment of a day that runs at `fps` frames per second.
    pub open spec fn in_range(self, fps: int) -> bool {
        &&& 1 <= fps <= 40
        &&& 0 <= self.hours < 24
        &&& 0 <= self.minutes < 60
        &&& 0 <= self.seconds < 60
        &&& 0 <= self.frame < fps
    }

    /// The moment one frame later.
    pub open spec fn next(self, fps: int) -> ClockTime {
        if self.frame + 1 < fps {
            ClockTime { frame: self.frame + 1, ..self }
        } else if self.seconds + 1 < 60 {
            ClockTime { frame: 0, seconds: self.seconds + 1, ..self }
        } else if self.minutes + 1 < 60 {
            ClockTime { frame: 0, seconds: 0, minutes: self.minutes + 1, ..self }
        } else if self.hours + 1 < 24 {
            ClockTime { frame: 0, seconds: 0, minutes: 0, hours: self.hours + 1 }
        } else {
            ClockTime { frame: 0, seconds: 0, minutes: 0, hours: 0 }
        }
    }

    /// The moment one frame earlier.
    pub open spec fn previous(self, fps: int) -> ClockTime {
        if self.frame > 0 {
            ClockTime { frame: self.frame - 1, ..self }
        } else if self.seconds > 0 {
            ClockTime { frame: fps - 1, seconds: self.seconds - 1, ..self }
        } else if self.minutes > 0 {
            ClockTime { frame: fps - 1, seconds: 59, minutes: self.minutes - 1, ..self }
        } else if self.hours > 0 {
            ClockTime { frame: fps - 1, seconds: 59, minutes: 59, hours: self.hours - 1 }
        } else {
            ClockTime { frame: fps - 1, seconds: 59, minutes: 59, hours: 23 }
        }
    }

    /// The last frame of a day.
    pub open spec fn is_last(self, fps: int) -> bool {
        self.hours == 23 && self.minutes == 59 && self.seconds == 59 && self.frame == fps - 1
    }

    /// The first frame of a day.
    pub open spec fn is_first(self) -> bool {
        self.hours == 0 && self.minutes == 0 && self.seconds == 0 && self.frame == 0
    }

    /// One frame on and one frame back is the same moment, and the other
    /// way round.
    pub proof fn lemma_next_previous(self, fps: int)
        requires
            self.in_range(fps),
        ensures
            self.next(fps).in_range(fps),
            self.previous(fps).in_range(fps),
            self.next(fps).previous(fps) == self,
            self.previous(fps).next(fps) == self,
            self.next(fps).is_first() == self.is_last(fps),
            self.previous(fps).is_last(fps) == self.is_first(),
    {
    }
}

impl ClockTime {
    /// A frame number that drop-frame numbering leaves out: frame 0 or 1 of
    /// the first second of a minute that is no multiple of ten.
    pub open spec fn is_dropped(self) -> bool {
        self.minutes % 10 != 0 && self.seconds == 0 && self.frame < 2
    }

    /// The next moment that is counted: under drop-frame numbering the
    /// left-out numbers are passed over.
    pub open spec fn next_counted(self, fps: int, drop_frame: bool) -> ClockTime {
        let n = self.next(fps);
        if drop_frame && n.is_dropped() {
            ClockTime { frame: 2, ..n }
        } else {
            n
        }
    }

    /// The counted moment before: under drop-frame numbering the left-out
    /// numbers are passed over.
    pub open spec fn previous_counted(self, fps: int, drop_frame: bool) -> ClockTime {
        let p = self.previous(fps);
        if drop_frame && p.is_dropped() {
            ClockTime { frame: fps - 1, seconds: 59, minutes: p.minutes - 1, ..p }
        } else {
            p
        }
    }

    /// Counted steps stay on counted moments of the day and undo each
    /// other; midnight lies between the last moment and the first.
    pub proof fn lemma_counted_steps(self, fps: int, drop_frame: bool)
        requires
            self.in_range(fps),
            drop_frame ==> fps > 2 && !self.is_dropped(),
        ensures
            self.next_counted(fps, drop_frame).in_range(fps),
            self.previous_counted(fps, drop_frame).in_range(fps),
            drop_frame ==> !self.next_counted(fps, drop_frame).is_dropped(),
            drop_frame ==> !self.previous_counted(fps, drop_frame).is_dropped(),
            self.next_counted(fps, drop_frame).previous_counted(fps, drop_frame) == self,
            self.previous_counted(fps, drop_frame).next_counted(fps, drop_frame) == self,
            self.next_counted(fps, drop_frame).is_first() == self.is_last(fps),
            self.previous_counted(fps, drop_frame).is_last(fps) == self.is_first(),
    {
    }
}

/// Year, month and day as plain numbers.
pub ghost struct CalendarDay {
    pub year: int,
    pub month: int,
    pub day: int,
}

impl CalendarDay {
    /// A day of the calendar in a two-digit year.
    pub open spec fn valid(self) -> bool {
        &&& 0 <= self.year < 100
        &&& 1 <= self.month <= 12
        &&& 1 <= self.day <= days_in_month(self.year, self.month)
    }

    /// The day after.
    pub open spec fn next(self) -> CalendarDay {
        if self.day + 1 <= days_in_month(self.year, self.month) {
            CalendarDay { day: self.day + 1, ..self }
        } else if self.month + 1 <= 12 {
            CalendarDay { day: 1, month: self.month + 1, ..self }
        } else {
            CalendarDay { day: 1, month: 1, year: (self.year + 1) % 100 }
        }
    }

    /// The day before.
    pub open spec fn previous(self) -> CalendarDay {
        if self.day > 1 {
            CalendarDay { day: self.day - 1, ..self }
        } else if self.month > 1 {
            CalendarDay {
                day: days_in_month(self.year, self.month - 1),
                month: self.month - 1,
                ..self
            }
        } else {
            CalendarDay { day: 31, month: 12, year: (self.year + 99) % 100 }
        }
    }

    /// A day on and a day back is the same day, and the other way round.
    pub proof fn lemma_next_previous(self)
        requires
            self.valid(),
        ensures
            self.next().valid(),
            self.previous().valid(),
            self.next().previous() == self,
            self.previous().next() == self,
    {
    }
}

impl FrameFields {
    /// The clock of the frame as four numbers.
    pub open spec fn clock(self) -> ClockTime {
        ClockTime {
            hours: self.hours(),
            minutes: self.minutes(),
            seconds: self.seconds(),
            frame: self.frame_number(),
        }
    }

    /// The frame with its clock set to the four numbers.
    pub open spec fn with_clock(self, c: ClockTime) -> FrameFields {
        self.put_hours(c.hours).put_minutes(c.minutes).put_seconds(c.seconds).put_frame(c.frame)
    }

    /// The four units digits of the clock are decimal digits.
    pub open spec fn clock_in_decimal(self) -> bool {
        &&& self.frame_units < 10
        &&& self.secs_units < 10
        &&& self.mins_units < 10
        &&& self.hours_units < 10
    }

    /// `other` is `self` but for the eight digits of the clock.
    pub open spec fn same_but_clock(self, other: FrameFields) -> bool {
        other == (FrameFields {
            frame_units: other.frame_units,
            frame_tens: other.frame_tens,
            secs_units: other.secs_units,
            secs_tens: other.secs_tens,
            mins_units: other.mins_units,
            mins_tens: other.mins_tens,
            hours_units: other.hours_units,
            hours_tens: other.hours_tens,
            ..self
        })
    }

    /// Setting the clock changes the eight digits alone, and they read back
    /// as the numbers set.
    pub proof fn lemma_with_clock(self, c: ClockTime, fps: int)
        requires
            c.in_range(fps),
        ensures
            self.with_clock(c).clock() == c,
            self.with_clock(c).clock_in_decimal(),
            self.same_but_clock(self.with_clock(c)),
            self.wf() ==> self.with_clock(c).wf(),
    {
        FrameFields::lemma_clock_writers();
    }

    /// Frames that agree outside the clock and show the same moment in
    /// decimal digits are the same frame.
    pub proof fn lemma_clock_decides(self, other: FrameFields)
        requires
            self.same_but_clock(other),
            self.clock() == other.clock(),
            self.clock_in_decimal(),
            other.clock_in_decimal(),
        ensures
            self == other,
    {
        FrameFields::lemma_digits_decided(
            self.frame_units as int,
            self.frame_tens as int,
            other.frame_units as int,
            other.frame_tens as int,
        );
        FrameFields::lemma_digits_decided(
            self.secs_units as int,
            self.secs_tens as int,
            other.secs_units as int,
            other.secs_tens as int,
        );
        FrameFields::lemma_digits_decided(
            self.mins_units as int,
            self.mins_tens as int,
            other.mins_units as int,
            other.mins_tens as int,
        );
        FrameFields::lemma_digits_decided(
            self.hours_units as int,
            self.hours_tens as int,
            other.hours_units as int,
            other.hours_tens as int,
        );
    }

    /// On a valid clock, one frame on is the next moment.
    pub proof fn lemma_tick_is_next(self, fps: int)
        requires
            self.clock_in_decimal(),
            self.clock().in_range(fps),
        ensures
            self.tick(fps) == self.with_clock(self.clock().next(fps)),
            self.rolls_day(fps) == self.clock().is_last(fps),
    {
        FrameFields::lemma_clock_writers();
        let c = self.clock().next(fps);
        self.lemma_with_clock(c, fps);
        let g = self.tick(fps);
        assert(self.same_but_clock(g));
        assert(g.clock() == c);
        assert(g.clock_in_decimal());
        self.with_clock(c).lemma_clock_decides(g);
    }

    /// On a valid clock, one frame back is the moment before.
    pub proof fn lemma_untick_is_previous(self, fps: int)
        requires
            self.clock_in_decimal(),
            self.clock().in_range(fps),
        ensures
            self.untick(fps) == self.with_clock(self.clock().previous(fps)),
            self.borrows_day() == self.clock().is_first(),
    {
        FrameFields::lemma_clock_writers();
        self.clock().lemma_next_previous(fps);
        let c = self.clock().previous(fps);
        self.lemma_with_clock(c, fps);
        let g = self.untick(fps);
        assert(self.same_but_clock(g));
        assert(g.clock() == c);
        assert(g.clock_in_decimal());
        self.with_clock(c).lemma_clock_decides(g);
    }

    /// `other` is `self` but for the six user groups of the date.
    pub open spec fn same_but_date(self, other: FrameFields) -> bool {
        other == (FrameFields {
            user1: other.user1,
            user2: other.user2,
            user3: other.user3,
            user4: other.user4,
            user5: other.user5,
            user6: other.user6,
            ..self
        })
    }

    /// The date of the frame as three numbers.
    pub open spec fn date(self) -> CalendarDay {
        CalendarDay { year: self.year(), month: self.month(), day: self.day() }
    }

    /// The six user groups that hold a date are decimal digits.
    pub open spec fn date_in_decimal(self) -> bool {
        &&& self.user1 < 10
        &&& self.user2 < 10
        &&& self.user3 < 10
        &&& self.user4 < 10
        &&& self.user5 < 10
        &&& self.user6 < 10
    }

    /// On a valid date, the day after is the next day of the calendar, and
    /// the day before the previous one; the date digits alone change.
    pub proof fn lemma_day_steps(self)
        requires
            self.date().valid(),
        ensures
            self.next_day().date() == self.date().next(),
            self.next_day().date_in_decimal(),
            self.same_but_date(self.next_day()),
            self.previous_day().date() == self.date().previous(),
            self.previous_day().date_in_decimal(),
            self.same_but_date(self.previous_day()),
    {
        FrameFields::lemma_date_writers();
        self.date().lemma_next_previous();
    }

    /// In decimal digits, a left-out number is told from the digits as from
    /// the numbers.
    pub proof fn lemma_dropped_by_digits(self)
        requires
            self.clock_in_decimal(),
        ensures
            self.at_dropped_number() == self.clock().is_dropped(),
    {
    }

    /// Passing over a left-out number changes the frame digits alone.
    pub proof fn lemma_skip_steps(self, fps: int)
        requires
            self.clock_in_decimal(),
            self.clock().in_range(fps),
            fps > 2,
        ensures
            self.same_but_clock(self.skip_dropped()),
            self.skip_dropped().clock_in_decimal(),
            self.skip_dropped().clock() == (if self.dfbit && self.clock().is_dropped() {
                ClockTime { frame: 2, ..self.clock() }
            } else {
                self.clock()
            }),
            self.same_but_clock(self.back_over_dropped(fps)),
            self.back_over_dropped(fps).clock_in_decimal(),
            self.back_over_dropped(fps).clock() == (if self.dfbit && self.clock().is_dropped() {
                ClockTime {
                    frame: fps - 1,
                    seconds: 59,
                    minutes: self.clock().minutes - 1,
                    ..self.clock()
                }
            } else {
                self.clock()
            }),
    {
        FrameFields::lemma_clock_writers();
        self.lemma_dropped_by_digits();
    }
}

} // verus!
