//! What holds of the conversions and of frame arithmetic taken together.

use crate::arith::TimecodeWasWrapped;
use crate::encoder::{frame_bits, EncoderView, NOMINAL_SPEED};
use crate::error::TimecodeError;
use crate::fields::{days_in_month, one_if, ones16, ones4, FrameFields};
use crate::flags::LtcBgFlags;
use crate::frame::{
    bytes_of, fields_of, flag2, flag3, high4, join_word, lemma_bytes_of_fields_of,
    lemma_fields_of_bytes_of, low2, low3, low4,
};
use crate::wave::{bit_of, byte_bits, count_set, lemma_count_set_joined};
use crate::standard::LTCTVStandard;
use crate::timecode::{SMPTETimecode, Timezone};
use vstd::prelude::*;

verus! {

impl Timezone {
    /// A code found by the search is a code of the table.
    pub proof fn lemma_first_code_range(self, from: int)
        requires
            0 <= from <= 64,
        ensures
            0 <= self.first_code(from) < 64,
            self.first_code(from) != 0 ==> Timezone::of_code(self.first_code(from) as u8) == self,
        decreases 64 - from,
    {
        if from < 64 && Timezone::of_code(from as u8) != self {
            self.lemma_first_code_range(from + 1);
        }
    }
}

impl SMPTETimecode {
    /// The time names a frame number that drop-frame numbering leaves out.
    pub open spec fn at_dropped_number(self) -> bool {
        self.mins % 10 != 0 && self.secs == 0 && self.frame < 2
    }
}

impl FrameFields {
    /// The clock digits are decimal digits and name a moment of a day that
    /// runs at `fps` frames per second.
    pub open spec fn clock_valid(self, fps: int) -> bool {
        &&& self.frame_units < 10
        &&& self.secs_units < 10
        &&& self.mins_units < 10
        &&& self.hours_units < 10
        &&& 1 <= fps <= 40
        &&& self.frame_number() < fps
        &&& self.seconds() < 60
        &&& self.minutes() < 60
        &&& self.hours() < 24
    }

    /// The user bits hold a day of the calendar in decimal digits.
    pub open spec fn date_valid(self) -> bool {
        &&& self.user1 < 10
        &&& self.user2 < 10
        &&& self.user3 < 10
        &&& self.user4 < 10
        &&& self.user5 < 10
        &&& self.user6 < 10
        &&& self.has_month()
        &&& 1 <= self.day() <= days_in_month(self.year(), self.month())
    }

    /// The frame is one that frame arithmetic at `fps` under `flags` can
    /// have produced: a valid clock, a valid date where one is carried, no
    /// left-out number under drop-frame numbering, and even parity where
    /// parity is kept.
    pub open spec fn valid_for(self, fps: int, flags: LtcBgFlags) -> bool {
        &&& self.wf()
        &&& self.clock_valid(fps)
        &&& flags.use_date ==> self.date_valid()
        &&& self.dfbit ==> fps > 2 && !self.at_dropped_number()
        &&& flags.parity_applies() ==> self.parity_ok()
    }

    /// A frame with even parity is what writing the parity bit gives, and
    /// so is every frame that differs from it in the parity bit alone.
    pub proof fn lemma_parity_restores(self, other: FrameFields, standard: LTCTVStandard)
        requires
            self.parity_ok(),
            other.put_parity_bit(standard, false) == self.put_parity_bit(standard, false),
        ensures
            other.with_parity(standard) == self,
    {
    }

    /// A time written into a frame reads back as the same time, field for
    /// field, under the same flags.
    ///
    /// The time is within the bounds of a day at `fps` frames per second.
    /// With a date in the user bits, the date has two digits a field and
    /// the zone is one of the table; without, the date fields are those
    /// that such a frame reads as. Under drop-frame numbering the time is
    /// none that the numbering leaves out.
    pub proof fn lemma_time_round_trip(
        self,
        t: SMPTETimecode,
        fps: int,
        standard: LTCTVStandard,
        flags: LtcBgFlags,
    )
        requires
            self.wf(),
            t.time_in_range(fps),
            flags.use_date ==> t.date_in_range(),
            !flags.use_date ==> t.no_date(),
            self.dfbit ==> !t.at_dropped_number(),
        ensures
            self.with_time(t, standard, flags).to_time(flags) == t,
    {
        t.timezone.lemma_first_code_range(0);
        FrameFields::lemma_clock_writers();
        FrameFields::lemma_date_writers();
        let placed = self.with_digits(t, flags);
        assert(placed.hours() == t.hours);
        assert(placed.minutes() == t.mins);
        assert(placed.seconds() == t.secs);
        assert(placed.frame_number() == t.frame);
        assert(placed.skip_dropped() == placed);
        if flags.use_date {
            assert(placed.zone_code() == t.timezone.code());
            assert(placed.year() == t.years);
            assert(placed.month() == t.months);
            assert(placed.day() == t.days);
        }
    }

    /// A frame read as a time and written back from that time is the same
    /// frame.
    pub proof fn lemma_frame_round_trip(
        self,
        fps: int,
        standard: LTCTVStandard,
        flags: LtcBgFlags,
    )
        requires
            self.valid_for(fps, flags),
            flags.use_date ==> Timezone::of_code(self.zone_code() as u8).code()
                == self.zone_code(),
        ensures
            self.with_time(self.to_time(flags), standard, flags) == self,
    {
        let t = self.to_time(flags);
        let placed = self.with_digits(t, flags);
        FrameFields::lemma_clock_writers();
        FrameFields::lemma_date_writers();
        let a = self.put_hours(t.hours as int);
        FrameFields::lemma_digits_decided(
            a.hours_units as int,
            a.hours_tens as int,
            self.hours_units as int,
            self.hours_tens as int,
        );
        let b = self.put_minutes(t.mins as int);
        FrameFields::lemma_digits_decided(
            b.mins_units as int,
            b.mins_tens as int,
            self.mins_units as int,
            self.mins_tens as int,
        );
        let c = self.put_seconds(t.secs as int);
        FrameFields::lemma_digits_decided(
            c.secs_units as int,
            c.secs_tens as int,
            self.secs_units as int,
            self.secs_tens as int,
        );
        let d = self.put_frame(t.frame as int);
        FrameFields::lemma_digits_decided(
            d.frame_units as int,
            d.frame_tens as int,
            self.frame_units as int,
            self.frame_tens as int,
        );
        if flags.use_date {
            let z = self.put_zone(t.timezone.code());
            assert(z.user7 + 16 * z.user8 == self.user7 + 16 * self.user8);
            assert(z == self);
            let e = self.put_date(t.years as int, t.months as int, t.days as int);
            FrameFields::lemma_digits_decided(
                e.user1 as int,
                e.user2 as int,
                self.user1 as int,
                self.user2 as int,
            );
            FrameFields::lemma_digits_decided(
                e.user3 as int,
                e.user4 as int,
                self.user3 as int,
                self.user4 as int,
            );
            FrameFields::lemma_digits_decided(
                e.user5 as int,
                e.user6 as int,
                self.user5 as int,
                self.user6 as int,
            );
            assert(e == self);
        }
        assert(a == self);
        assert(b == self);
        assert(c == self);
        assert(d == self);
        assert(placed == self);
        if flags.parity_applies() {
            self.lemma_parity_restores(placed, standard);
        }
    }

    /// The frame with the digits of the clock, the digits of the date and
    /// the parity bit blanked: what frame arithmetic never touches.
    pub open spec fn rest(self, standard: LTCTVStandard) -> FrameFields {
        FrameFields {
            frame_units: 0,
            frame_tens: 0,
            secs_units: 0,
            secs_tens: 0,
            mins_units: 0,
            mins_tens: 0,
            hours_units: 0,
            hours_tens: 0,
            user1: 0,
            user2: 0,
            user3: 0,
            user4: 0,
            user5: 0,
            user6: 0,
            ..self.put_parity_bit(standard, false)
        }
    }

    /// The six user groups that hold a date are the same in both frames.
    pub open spec fn same_date_digits(self, other: FrameFields) -> bool {
        &&& self.user1 == other.user1
        &&& self.user2 == other.user2
        &&& self.user3 == other.user3
        &&& self.user4 == other.user4
        &&& self.user5 == other.user5
        &&& self.user6 == other.user6
    }

    /// Frames that agree in what arithmetic never touches, in the digits of
    /// the date and in the moment shown in decimal digits, and that both
    /// have even parity or the same parity bit, are the same frame.
    pub proof fn lemma_frame_decided(self, other: FrameFields, standard: LTCTVStandard)
        requires
            self.rest(standard) == other.rest(standard),
            self.clock() == other.clock(),
            self.clock_in_decimal(),
            other.clock_in_decimal(),
            self.same_date_digits(other),
            (self.parity_ok() && other.parity_ok()) || self.parity_bit(standard)
                == other.parity_bit(standard),
        ensures
            self == other,
    {
        let a = FrameFields {
            frame_units: other.frame_units,
            frame_tens: other.frame_tens,
            secs_units: other.secs_units,
            secs_tens: other.secs_tens,
            mins_units: other.mins_units,
            mins_tens: other.mins_tens,
            hours_units: other.hours_units,
            hours_tens: other.hours_tens,
            ..self
        };
        assert(self.same_but_clock(a));
        self.lemma_clock_decides(a);
        assert(self.put_parity_bit(standard, false) == other.put_parity_bit(standard, false));
        if self.parity_ok() && other.parity_ok() {
            self.lemma_parity_restores(other, standard);
            other.lemma_parity_restores(other, standard);
        }
    }

    /// The date digits are decided by the date they make.
    pub proof fn lemma_date_decided(self, other: FrameFields)
        requires
            self.date() == other.date(),
            self.date_in_decimal(),
            other.date_in_decimal(),
        ensures
            self.same_date_digits(other),
    {
        FrameFields::lemma_digits_decided(
            self.user1 as int,
            self.user2 as int,
            other.user1 as int,
            other.user2 as int,
        );
        FrameFields::lemma_digits_decided(
            self.user3 as int,
            self.user4 as int,
            other.user3 as int,
            other.user4 as int,
        );
        FrameFields::lemma_digits_decided(
            self.user5 as int,
            self.user6 as int,
            other.user5 as int,
            other.user6 as int,
        );
    }

    /// The frame shows a valid clock, a valid date where one is carried,
    /// and no left-out number under drop-frame numbering.
    pub open spec fn counts_at(self, fps: int, use_date: bool) -> bool {
        &&& self.wf()
        &&& self.clock_valid(fps)
        &&& use_date ==> self.date_valid()
        &&& self.dfbit ==> fps > 2 && !self.at_dropped_number()
    }

    /// `other` is `self` but for the digits of the clock and of the date.
    pub open spec fn same_but_time(self, other: FrameFields) -> bool {
        other == (FrameFields {
            frame_units: other.frame_units,
            frame_tens: other.frame_tens,
            secs_units: other.secs_units,
            secs_tens: other.secs_tens,
            mins_units: other.mins_units,
            mins_tens: other.mins_tens,
            hours_units: other.hours_units,
            hours_tens: other.hours_tens,
            user1: other.user1,
            user2: other.user2,
            user3: other.user3,
            user4: other.user4,
            user5: other.user5,
            user6: other.user6,
            ..self
        })
    }

    /// What `advanced` is, told in the numbers of the clock and the date.
    pub proof fn lemma_advanced_shape(self, fps: int, use_date: bool)
        requires
            self.counts_at(fps, use_date),
        ensures
            ({
                let up = self.advanced(fps, use_date);
                let day = self.clock().is_last(fps);
                &&& self.same_but_time(up)
                &&& up.clock() == self.clock().next_counted(fps, self.dfbit)
                &&& up.clock_in_decimal()
                &&& up.wf()
                &&& if day && use_date {
                    up.date() == self.date().next() && up.date_in_decimal()
                } else {
                    up.same_date_digits(self)
                }
                &&& self.rolls_day(fps) == day
            }),
    {
        let c = self.clock().next(fps);
        let ticked = self.tick(fps);
        self.lemma_tick_is_next(fps);
        self.clock().lemma_next_previous(fps);
        self.lemma_with_clock(c, fps);
        assert(self.same_but_clock(ticked));
        assert(ticked.clock() == c);
        let day = self.rolls_day(fps) && use_date && self.has_month();
        let dated = if day {
            ticked.next_day()
        } else {
            ticked
        };
        if day {
            assert(ticked.date() == self.date());
            ticked.lemma_day_steps();
        }
        assert(ticked.same_but_date(dated));
        assert(dated.clock() == c);
        assert(dated.clock_in_decimal());
        let placed = dated.skip_dropped();
        if self.dfbit {
            dated.lemma_skip_steps(fps);
        }
        assert(dated.same_but_clock(placed));
        assert(placed.clock() == self.clock().next_counted(fps, self.dfbit));
    }

    /// What `retreated` is, told in the numbers of the clock and the date.
    pub proof fn lemma_retreated_shape(self, fps: int, use_date: bool)
        requires
            self.counts_at(fps, use_date),
        ensures
            ({
                let down = self.retreated(fps, use_date);
                let day = self.clock().is_first();
                &&& self.same_but_time(down)
                &&& down.clock() == self.clock().previous_counted(fps, self.dfbit)
                &&& down.clock_in_decimal()
                &&& down.wf()
                &&& if day && use_date {
                    down.date() == self.date().previous() && down.date_in_decimal()
                } else {
                    down.same_date_digits(self)
                }
                &&& self.borrows_day() == day
            }),
    {
        let c = self.clock().previous(fps);
        let unticked = self.untick(fps);
        self.lemma_untick_is_previous(fps);
        self.clock().lemma_next_previous(fps);
        self.lemma_with_clock(c, fps);
        assert(self.same_but_clock(unticked));
        assert(unticked.clock() == c);
        let day = self.borrows_day() && use_date && self.has_month();
        let dated = if day {
            unticked.previous_day()
        } else {
            unticked
        };
        if day {
            assert(unticked.date() == self.date());
            unticked.lemma_day_steps();
        }
        assert(unticked.same_but_date(dated));
        assert(dated.clock() == c);
        assert(dated.clock_in_decimal());
        let placed = dated.back_over_dropped(fps);
        if self.dfbit {
            dated.lemma_skip_steps(fps);
        }
        assert(dated.same_but_clock(placed));
        assert(placed.clock() == self.clock().previous_counted(fps, self.dfbit));
    }

    /// Writing the parity bit changes that bit alone and makes the parity
    /// even.
    pub proof fn lemma_with_parity(self, standard: LTCTVStandard)
        ensures
            self.with_parity(standard).parity_ok(),
            self.with_parity(standard).put_parity_bit(standard, false) == self.put_parity_bit(
                standard,
                false,
            ),
    {
    }

    /// What `incremented` is, told in the numbers of the clock and the
    /// date.
    pub proof fn lemma_incremented_shape(
        self,
        fps: int,
        standard: LTCTVStandard,
        flags: LtcBgFlags,
    )
        requires
            self.counts_at(fps, flags.use_date),
        ensures
            ({
                let up = self.incremented(fps, standard, flags);
                let day = self.clock().is_last(fps);
                &&& up.rest(standard) == self.rest(standard)
                &&& up.clock() == self.clock().next_counted(fps, self.dfbit)
                &&& up.clock_in_decimal()
                &&& up.wf()
                &&& if day && flags.use_date {
                    up.date() == self.date().next() && up.date_in_decimal()
                } else {
                    up.same_date_digits(self)
                }
                &&& flags.parity_applies() ==> up.parity_ok()
                &&& !flags.parity_applies() ==> up.parity_bit(standard) == self.parity_bit(
                    standard,
                )
                &&& self.increment_report(fps, flags) == (if day {
                    Ok::<TimecodeWasWrapped, TimecodeError>(TimecodeWasWrapped::Yes)
                } else {
                    Ok::<TimecodeWasWrapped, TimecodeError>(TimecodeWasWrapped::No)
                })
            }),
    {
        let placed = self.advanced(fps, flags.use_date);
        self.lemma_advanced_shape(fps, flags.use_date);
        placed.lemma_with_parity(standard);
        assert(placed.rest(standard) == self.rest(standard));
    }

    /// What `decremented` is, told in the numbers of the clock and the
    /// date.
    pub proof fn lemma_decremented_shape(
        self,
        fps: int,
        standard: LTCTVStandard,
        flags: LtcBgFlags,
    )
        requires
            self.counts_at(fps, flags.use_date),
        ensures
            ({
                let down = self.decremented(fps, standard, flags);
                let day = self.clock().is_first();
                &&& down.rest(standard) == self.rest(standard)
                &&& down.clock() == self.clock().previous_counted(fps, self.dfbit)
                &&& down.clock_in_decimal()
                &&& down.wf()
                &&& if day && flags.use_date {
                    down.date() == self.date().previous() && down.date_in_decimal()
                } else {
                    down.same_date_digits(self)
                }
                &&& flags.parity_applies() ==> down.parity_ok()
                &&& !flags.parity_applies() ==> down.parity_bit(standard) == self.parity_bit(
                    standard,
                )
                &&& self.decrement_report(flags) == (if day {
                    Ok::<TimecodeWasWrapped, TimecodeError>(TimecodeWasWrapped::Yes)
                } else {
                    Ok::<TimecodeWasWrapped, TimecodeError>(TimecodeWasWrapped::No)
                })
            }),
    {
        let placed = self.retreated(fps, flags.use_date);
        self.lemma_retreated_shape(fps, flags.use_date);
        placed.lemma_with_parity(standard);
        assert(placed.rest(standard) == self.rest(standard));
    }

    /// A step of frame arithmetic on a valid frame ends on a valid frame.
    pub proof fn lemma_steps_keep_valid(
        self,
        fps: int,
        standard: LTCTVStandard,
        flags: LtcBgFlags,
    )
        requires
            self.valid_for(fps, flags),
        ensures
            self.incremented(fps, standard, flags).valid_for(fps, flags),
            self.decremented(fps, standard, flags).valid_for(fps, flags),
    {
        self.lemma_incremented_shape(fps, standard, flags);
        self.lemma_decremented_shape(fps, standard, flags);
        self.lemma_dropped_by_digits();
        self.clock().lemma_counted_steps(fps, self.dfbit);
        if flags.use_date {
            self.date().lemma_next_previous();
        }
        let up = self.incremented(fps, standard, flags);
        let down = self.decremented(fps, standard, flags);
        assert(up.dfbit == self.dfbit);
        assert(down.dfbit == self.dfbit);
        up.lemma_dropped_by_digits();
        down.lemma_dropped_by_digits();
        assert(up.clock_valid(fps));
        assert(down.clock_valid(fps));
    }

    /// One frame on and one frame back is where it began, bit for bit, and
    /// both steps report the same about midnight.
    pub proof fn lemma_increment_then_decrement(
        self,
        fps: int,
        standard: LTCTVStandard,
        flags: LtcBgFlags,
    )
        requires
            self.valid_for(fps, flags),
        ensures
            self.incremented(fps, standard, flags).decremented(fps, standard, flags) == self,
            self.incremented(fps, standard, flags).decrement_report(flags)
                == self.increment_report(fps, flags),
            self.increment_report(fps, flags).is_ok(),
    {
        let up = self.incremented(fps, standard, flags);
        self.lemma_incremented_shape(fps, standard, flags);
        self.lemma_steps_keep_valid(fps, standard, flags);
        up.lemma_decremented_shape(fps, standard, flags);
        self.lemma_dropped_by_digits();
        self.clock().lemma_counted_steps(fps, self.dfbit);
        if flags.use_date {
            self.date().lemma_next_previous();
        }
        let back = up.decremented(fps, standard, flags);
        assert(up.dfbit == self.dfbit);
        assert(back.clock() == self.clock());
        if flags.use_date {
            back.lemma_date_decided(self);
        }
        back.lemma_frame_decided(self, standard);
    }

    /// One frame back and one frame on is where it began, bit for bit, and
    /// both steps report the same about midnight.
    pub proof fn lemma_decrement_then_increment(
        self,
        fps: int,
        standard: LTCTVStandard,
        flags: LtcBgFlags,
    )
        requires
            self.valid_for(fps, flags),
        ensures
            self.decremented(fps, standard, flags).incremented(fps, standard, flags) == self,
            self.decremented(fps, standard, flags).increment_report(fps, flags)
                == self.decrement_report(flags),
            self.decrement_report(flags).is_ok(),
    {
        let down = self.decremented(fps, standard, flags);
        self.lemma_decremented_shape(fps, standard, flags);
        self.lemma_steps_keep_valid(fps, standard, flags);
        down.lemma_incremented_shape(fps, standard, flags);
        self.lemma_dropped_by_digits();
        self.clock().lemma_counted_steps(fps, self.dfbit);
        if flags.use_date {
            self.date().lemma_next_previous();
        }
        let on = down.incremented(fps, standard, flags);
        assert(down.dfbit == self.dfbit);
        assert(on.clock() == self.clock());
        if flags.use_date {
            on.lemma_date_decided(self);
        }
        on.lemma_frame_decided(self, standard);
    }

    /// Under drop-frame numbering no step of frame arithmetic, and no
    /// setting of the time, ends on frame 0 or 1 of the first second of a
    /// minute that is no multiple of ten.
    pub proof fn lemma_dropped_numbers_never_occur(
        self,
        t: SMPTETimecode,
        fps: int,
        standard: LTCTVStandard,
        flags: LtcBgFlags,
    )
        ensures
            self.incremented(fps, standard, flags).dfbit ==> !self.incremented(
                fps,
                standard,
                flags,
            ).at_dropped_number(),
            self.decremented(fps, standard, flags).dfbit ==> !self.decremented(
                fps,
                standard,
                flags,
            ).at_dropped_number(),
            self.with_time(t, standard, flags).dfbit ==> !self.with_time(
                t,
                standard,
                flags,
            ).at_dropped_number(),
    {
        FrameFields::lemma_clock_writers();
        FrameFields::lemma_date_writers();
    }

    /// Crossing midnight is reported by `increment` exactly when the frame
    /// is the last of its day, and by `decrement` exactly when it is the
    /// first.
    pub proof fn lemma_midnight_reports(self, fps: int, flags: LtcBgFlags)
        requires
            self.clock_valid(fps),
            flags.use_date ==> self.has_month(),
        ensures
            self.increment_report(fps, flags) == Ok::<TimecodeWasWrapped, TimecodeError>(
                TimecodeWasWrapped::Yes,
            ) <==> (self.hours() == 23 && self.minutes() == 59 && self.seconds() == 59
                && self.frame_number() == fps - 1),
            self.decrement_report(flags) == Ok::<TimecodeWasWrapped, TimecodeError>(
                TimecodeWasWrapped::Yes,
            ) <==> (self.hours() == 0 && self.minutes() == 0 && self.seconds() == 0
                && self.frame_number() == 0),
    {
    }

    /// What rolls over on the way on is borrowed on the way back: the hour
    /// and the day always, the second and the minute unless drop-frame
    /// numbering moves the frame past the numbers it leaves out.
    pub proof fn lemma_rollovers_mirror(
        self,
        fps: int,
        standard: LTCTVStandard,
        flags: LtcBgFlags,
    )
        requires
            self.valid_for(fps, flags),
        ensures
            self.incremented(fps, standard, flags).borrows_day() == self.rolls_day(fps),
            self.incremented(fps, standard, flags).borrows_hour() == self.rolls_hour(fps),
            !self.dfbit ==> self.incremented(fps, standard, flags).borrows_minute()
                == self.rolls_minute(fps),
            !self.dfbit ==> self.incremented(fps, standard, flags).borrows_second()
                == self.rolls_second(fps),
            self.decremented(fps, standard, flags).rolls_day(fps) == self.borrows_day(),
            self.decremented(fps, standard, flags).rolls_hour(fps) == self.borrows_hour(),
            !self.dfbit ==> self.decremented(fps, standard, flags).rolls_minute(fps)
                == self.borrows_minute(),
            !self.dfbit ==> self.decremented(fps, standard, flags).rolls_second(fps)
                == self.borrows_second(),
    {
        self.lemma_incremented_shape(fps, standard, flags);
        self.lemma_decremented_shape(fps, standard, flags);
        self.lemma_dropped_by_digits();
        self.clock().lemma_counted_steps(fps, self.dfbit);
        self.clock().lemma_next_previous(fps);
    }
}

/// A time written into the bytes of a frame reads back from the bytes as
/// the same time, field for field, under the same flags.
pub proof fn lemma_bytes_time_round_trip(
    b: Seq<u8>,
    t: SMPTETimecode,
    fps: int,
    standard: LTCTVStandard,
    flags: LtcBgFlags,
)
    requires
        b.len() == 10,
        t.time_in_range(fps),
        flags.use_date ==> t.date_in_range(),
        !flags.use_date ==> t.no_date(),
        fields_of(b).dfbit ==> !t.at_dropped_number(),
    ensures
        fields_of(bytes_of(fields_of(b).with_time(t, standard, flags))).to_time(flags) == t,
{
    lemma_bytes_of_fields_of(b);
    let f = fields_of(b);
    FrameFields::lemma_clock_writers();
    FrameFields::lemma_date_writers();
    let g = f.with_time(t, standard, flags);
    assert(g.wf());
    lemma_fields_of_bytes_of(g);
    f.lemma_time_round_trip(t, fps, standard, flags);
}

/// One frame on and one frame back restores the ten bytes of a frame, bit
/// for bit, and the other way round.
pub proof fn lemma_bytes_increment_then_decrement(
    b: Seq<u8>,
    fps: int,
    standard: LTCTVStandard,
    flags: LtcBgFlags,
)
    requires
        b.len() == 10,
        fields_of(b).valid_for(fps, flags),
    ensures
        bytes_of(
            fields_of(bytes_of(fields_of(b).incremented(fps, standard, flags))).decremented(
                fps,
                standard,
                flags,
            ),
        ) == b,
        bytes_of(
            fields_of(bytes_of(fields_of(b).decremented(fps, standard, flags))).incremented(
                fps,
                standard,
                flags,
            ),
        ) == b,
{
    lemma_bytes_of_fields_of(b);
    let f = fields_of(b);
    f.lemma_steps_keep_valid(fps, standard, flags);
    lemma_fields_of_bytes_of(f.incremented(fps, standard, flags));
    lemma_fields_of_bytes_of(f.decremented(fps, standard, flags));
    f.lemma_increment_then_decrement(fps, standard, flags);
    f.lemma_decrement_then_increment(fps, standard, flags);
}

/// Number of bits that are set in a byte.
pub open spec fn ones8(b: u8) -> int {
    one_if(bit_of(b, 0)) + one_if(bit_of(b, 1)) + one_if(bit_of(b, 2)) + one_if(bit_of(b, 3))
        + one_if(bit_of(b, 4)) + one_if(bit_of(b, 5)) + one_if(bit_of(b, 6)) + one_if(
        bit_of(b, 7),
    )
}

/// The set bits of a byte are those of its groups.
pub proof fn lemma_ones_of_groups(b: u8)
    ensures
        ones8(b) == ones4(low4(b) as int) + ones4(high4(b) as int),
        ones8(b) == ones4(low3(b) as int) + one_if(flag3(b)) + ones4(high4(b) as int),
        ones8(b) == ones4(low2(b) as int) + one_if(flag2(b)) + one_if(flag3(b)) + ones4(
            high4(b) as int,
        ),
{
    reveal(ones4);
    reveal(low4);
    reveal(low3);
    reveal(low2);
    reveal(high4);
    reveal(flag2);
    reveal(flag3);
    assert((b % 16) % 2 == b % 2 && ((b % 16) / 2) % 2 == (b / 2) % 2 && ((b % 16) / 4) % 2 == (b
        / 4) % 2 && ((b % 16) / 8) % 2 == (b / 8) % 2) by (bit_vector);
    assert((b % 8) % 2 == b % 2 && ((b % 8) / 2) % 2 == (b / 2) % 2 && ((b % 8) / 4) % 2 == (b / 4)
        % 2 && ((b % 8) / 8) % 2 == 0) by (bit_vector);
    assert((b % 4) % 2 == b % 2 && ((b % 4) / 2) % 2 == (b / 2) % 2 && ((b % 4) / 4) % 2 == 0 && ((b
        % 4) / 8) % 2 == 0) by (bit_vector);
    assert((b / 16) % 2 == (b / 16) % 2 && ((b / 16) / 2) % 2 == (b / 32) % 2 && ((b / 16) / 4) % 2
        == (b / 64) % 2 && ((b / 16) / 8) % 2 == (b / 128) % 2 && (b / 128) % 2 == b / 128)
        by (bit_vector);
}

/// The set bits of a word are those of its two bytes.
pub proof fn lemma_ones_of_word(low: u8, high: u8)
    ensures
        ones16(join_word(low, high) as int) == ones8(low) + ones8(high),
{
    reveal(ones16);
    reveal(join_word);
    let w = join_word(low, high);
    assert(w == low + 256 * high);
    assert(w % 16 == low % 16 && (w / 16) % 16 == low / 16 && (w / 256) % 16 == high % 16 && (w
        / 4096) % 16 == high / 16) by (bit_vector)
        requires
            w == low + 256 * high,
    ;
    lemma_ones_of_groups(low);
    lemma_ones_of_groups(high);
    reveal(low4);
    reveal(high4);
}

/// The set bits among the first `k` bytes of a frame as it is sent.
pub open spec fn ones_of_bytes(frame: Seq<u8>, k: int) -> int
    decreases k,
{
    if k <= 0 {
        0
    } else {
        ones_of_bytes(frame, k - 1) + ones8(frame[k - 1])
    }
}

/// The bits of a frame as they are sent have as many set bits as its
/// bytes.
pub proof fn lemma_count_set_of_bytes(frame: Seq<u8>, k: int)
    requires
        frame.len() == 10,
        0 <= k <= 10,
    ensures
        count_set(frame_bits(frame).take(8 * k)) == ones_of_bytes(frame, k),
    decreases k,
{
    let bits = frame_bits(frame);
    if k == 0 {
        assert(bits.take(0) =~= Seq::<bool>::empty());
    } else {
        lemma_count_set_of_bytes(frame, k - 1);
        let b = frame[k - 1];
        let byte = byte_bits(b, false);
        assert(bits.take(8 * k) =~= bits.take(8 * (k - 1)) + byte);
        lemma_count_set_joined(bits.take(8 * (k - 1)), byte);
        let b1 = byte.take(1);
        let b2 = byte.take(2);
        let b3 = byte.take(3);
        let b4 = byte.take(4);
        let b5 = byte.take(5);
        let b6 = byte.take(6);
        let b7 = byte.take(7);
        assert(byte.drop_last() =~= b7);
        assert(b7.drop_last() =~= b6);
        assert(b6.drop_last() =~= b5);
        assert(b5.drop_last() =~= b4);
        assert(b4.drop_last() =~= b3);
        assert(b3.drop_last() =~= b2);
        assert(b2.drop_last() =~= b1);
        assert(b1.drop_last() =~= Seq::<bool>::empty());
        assert(count_set(b1.drop_last()) == 0);
        assert(count_set(b1) == one_if(bit_of(b, 0)));
        assert(count_set(b2) == count_set(b1) + one_if(bit_of(b, 1)));
        assert(count_set(b3) == count_set(b2) + one_if(bit_of(b, 2)));
        assert(count_set(b4) == count_set(b3) + one_if(bit_of(b, 3)));
        assert(count_set(b5) == count_set(b4) + one_if(bit_of(b, 4)));
        assert(count_set(b6) == count_set(b5) + one_if(bit_of(b, 5)));
        assert(count_set(b7) == count_set(b6) + one_if(bit_of(b, 6)));
        assert(count_set(byte) == count_set(b7) + one_if(bit_of(b, 7)));
    }
}

/// The ones that the fields of a frame count are the set bits of the frame
/// as it is sent: parity is even when the eighty bits on the wire hold an
/// even number of ones.
pub proof fn lemma_ones_are_set_bits(frame: Seq<u8>)
    requires
        frame.len() == 10,
    ensures
        fields_of(frame).ones() == count_set(frame_bits(frame)),
{
    lemma_count_set_of_bytes(frame, 10);
    assert(frame_bits(frame).take(80) =~= frame_bits(frame));
    lemma_ones_of_groups(frame[0]);
    lemma_ones_of_groups(frame[1]);
    lemma_ones_of_groups(frame[2]);
    lemma_ones_of_groups(frame[3]);
    lemma_ones_of_groups(frame[4]);
    lemma_ones_of_groups(frame[5]);
    lemma_ones_of_groups(frame[6]);
    lemma_ones_of_groups(frame[7]);
    lemma_ones_of_word(frame[8], frame[9]);
    assert(ones_of_bytes(frame, 10) == ones8(frame[0]) + ones8(frame[1]) + ones8(frame[2])
        + ones8(frame[3]) + ones8(frame[4]) + ones8(frame[5]) + ones8(frame[6]) + ones8(frame[7])
        + ones8(frame[8]) + ones8(frame[9])) by {
        assert(ones_of_bytes(frame, 0) == 0);
        assert(ones_of_bytes(frame, 1) == ones_of_bytes(frame, 0) + ones8(frame[0]));
        assert(ones_of_bytes(frame, 2) == ones_of_bytes(frame, 1) + ones8(frame[1]));
        assert(ones_of_bytes(frame, 3) == ones_of_bytes(frame, 2) + ones8(frame[2]));
        assert(ones_of_bytes(frame, 4) == ones_of_bytes(frame, 3) + ones8(frame[3]));
        assert(ones_of_bytes(frame, 5) == ones_of_bytes(frame, 4) + ones8(frame[4]));
        assert(ones_of_bytes(frame, 6) == ones_of_bytes(frame, 5) + ones8(frame[5]));
        assert(ones_of_bytes(frame, 7) == ones_of_bytes(frame, 6) + ones8(frame[6]));
        assert(ones_of_bytes(frame, 8) == ones_of_bytes(frame, 7) + ones8(frame[7]));
        assert(ones_of_bytes(frame, 9) == ones_of_bytes(frame, 8) + ones8(frame[8]));
        assert(ones_of_bytes(frame, 10) == ones_of_bytes(frame, 9) + ones8(frame[9]));
    }
}

impl EncoderView {
    /// A frame with even parity leaves the signal on the level on which it
    /// found it: with the parity bit kept, every frame begins alike.
    pub proof fn lemma_even_parity_keeps_level(self)
        requires
            self.ready_for_frame(),
            self.fields().parity_ok(),
        ensures
            self.after_bytes(10).level == self.level,
    {
        self.lemma_frame_fits();
        lemma_ones_are_set_bits(self.frame);
        self.pen().lemma_level_after_bits(
            self.stroke(NOMINAL_SPEED as int),
            frame_bits(self.frame),
        );
    }
}

} // verus!
