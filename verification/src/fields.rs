//! The fields of a frame: digits, user bits, flags and the sync word, each
//! as a value of its own.

use crate::flags::LtcBgFlags;
use crate::standard::LTCTVStandard;
use crate::timecode::{SMPTETimecode, Timezone};
use vstd::prelude::*;

verus! {

/// The sync word as it reads when the bits of bytes 8 and 9 are taken as one
/// little-endian number. On the wire, first bit first, it is `0x3FFD`.
pub const SYNC_WORD: u16 = 0xBFFC;

/// The named fields of a frame, each unpacked into a value of its own.
///
/// A field of `n` bits holds a number below `2^n`; see [`FrameFields::wf`].
#[derive(Debug, Clone, Copy, PartialEq, Eq, Structural)]
pub struct FrameFields {
    /// Frame number, units digit (4 bits).
    pub frame_units: u8,
    pub user1: u8,
    /// Frame number, tens digit (2 bits).
    pub frame_tens: u8,
    /// Drop-frame numbering is in use.
    pub dfbit: bool,
    /// Colour-frame flag.
    pub col_frame: bool,
    pub user2: u8,
    /// Seconds, units digit (4 bits).
    pub secs_units: u8,
    pub user3: u8,
    /// Seconds, tens digit (3 bits).
    pub secs_tens: u8,
    /// Bit 27: the parity bit, except at 25 frames per second.
    pub biphase_mark_phase_correction: bool,
    pub user4: u8,
    /// Minutes, units digit (4 bits).
    pub mins_units: u8,
    pub user5: u8,
    /// Minutes, tens digit (3 bits).
    pub mins_tens: u8,
    /// Bit 43.
    pub binary_group_flag_bit0: bool,
    pub user6: u8,
    /// Hours, units digit (4 bits).
    pub hours_units: u8,
    pub user7: u8,
    /// Hours, tens digit (2 bits).
    pub hours_tens: u8,
    /// Bit 58.
    pub binary_group_flag_bit1: bool,
    /// Bit 59: the parity bit at 25 frames per second.
    pub binary_group_flag_bit2: bool,
    pub user8: u8,
    pub sync_word: u16,
}

/// Number of ones among the four low bits of `x`.
#[verifier::opaque]
pub open spec fn ones4(x: int) -> int {
    x % 2 + (x / 2) % 2 + (x / 4) % 2 + (x / 8) % 2
}

/// Number of ones among the sixteen low bits of `x`.
#[verifier::opaque]
pub open spec fn ones16(x: int) -> int {
    ones4(x % 16) + ones4((x / 16) % 16) + ones4((x / 256) % 16) + ones4((x / 4096) % 16)
}

/// One for a flag that is set, zero for one that is not.
pub open spec fn one_if(b: bool) -> int {
    if b {
        1
    } else {
        0
    }
}

/// Days of a month in a two-digit year; every fourth year is a leap year.
pub open spec fn days_in_month(year: int, month: int) -> int {
    if month == 2 {
        if year % 4 == 0 {
            29
        } else {
            28
        }
    } else if month == 4 || month == 6 || month == 9 || month == 11 {
        30
    } else {
        31
    }
}

/// Days of a month in a two-digit year; every fourth year is a leap year.
pub fn month_length(year: u8, month: u8) -> (r: u8)
    ensures
        r == days_in_month(year as int, month as int),
        28 <= r <= 31,
{
    if month == 2 {
        if year % 4 == 0 {
            29
        } else {
            28
        }
    } else if month == 4 || month == 6 || month == 9 || month == 11 {
        30
    } else {
        31
    }
}

fn count4(x: u8) -> (r: u8)
    requires
        x < 16,
    ensures
        r == ones4(x as int),
        r <= 4,
{
    reveal(ones4);
    x % 2 + (x / 2) % 2 + (x / 4) % 2 + (x / 8) % 2
}

fn count16(x: u16) -> (r: u8)
    ensures
        r == ones16(x as int),
        r <= 16,
{
    reveal(ones16);
    let a: u8 = (x % 16) as u8;
    let b: u8 = ((x / 16) % 16) as u8;
    let c: u8 = ((x / 256) % 16) as u8;
    let d: u8 = ((x / 4096) % 16) as u8;
    count4(a) + count4(b) + count4(c) + count4(d)
}

fn count1(b: bool) -> (r: u8)
    ensures
        r == one_if(b),
        r <= 1,
{
    if b {
        1
    } else {
        0
    }
}

impl FrameFields {
    /// Every field fits the bits that the frame has for it.
    pub open spec fn wf(self) -> bool {
        &&& self.frame_units < 16
        &&& self.user1 < 16
        &&& self.frame_tens < 4
        &&& self.user2 < 16
        &&& self.secs_units < 16
        &&& self.user3 < 16
        &&& self.secs_tens < 8
        &&& self.user4 < 16
        &&& self.mins_units < 16
        &&& self.user5 < 16
        &&& self.mins_tens < 8
        &&& self.user6 < 16
        &&& self.hours_units < 16
        &&& self.user7 < 16
        &&& self.hours_tens < 4
        &&& self.user8 < 16
    }

    /// All fields zero but the sync word.
    pub open spec fn blank() -> FrameFields {
        FrameFields {
            frame_units: 0,
            user1: 0,
            frame_tens: 0,
            dfbit: false,
            col_frame: false,
            user2: 0,
            secs_units: 0,
            user3: 0,
            secs_tens: 0,
            biphase_mark_phase_correction: false,
            user4: 0,
            mins_units: 0,
            user5: 0,
            mins_tens: 0,
            binary_group_flag_bit0: false,
            user6: 0,
            hours_units: 0,
            user7: 0,
            hours_tens: 0,
            binary_group_flag_bit1: false,
            binary_group_flag_bit2: false,
            user8: 0,
            sync_word: SYNC_WORD,
        }
    }

    /// The frame within the second that the two frame digits show.
    pub open spec fn frame_number(self) -> int {
        self.frame_units + 10 * self.frame_tens
    }

    /// The seconds that the two digits show.
    pub open spec fn seconds(self) -> int {
        self.secs_units + 10 * self.secs_tens
    }

    /// The minutes that the two digits show.
    pub open spec fn minutes(self) -> int {
        self.mins_units + 10 * self.mins_tens
    }

    /// The hours that the two digits show.
    pub open spec fn hours(self) -> int {
        self.hours_units + 10 * self.hours_tens
    }

    /// The day of the month that the first two user groups show.
    pub open spec fn day(self) -> int {
        self.user1 + 10 * self.user2
    }

    /// The month that the third and fourth user groups show.
    pub open spec fn month(self) -> int {
        self.user3 + 10 * self.user4
    }

    /// The two-digit year that the fifth and sixth user groups show.
    pub open spec fn year(self) -> int {
        self.user5 + 10 * self.user6
    }

    /// The code of the time zone in the last two user groups.
    pub open spec fn zone_code(self) -> int {
        self.user7 + 16 * self.user8
    }

    /// The 32 user bits as one number, `user1` lowest.
    pub open spec fn user_bits(self) -> int {
        self.user1 + 0x10 * self.user2 + 0x100 * self.user3 + 0x1000 * self.user4 + 0x1_0000
            * self.user5 + 0x10_0000 * self.user6 + 0x100_0000 * self.user7 + 0x1000_0000
            * self.user8
    }

    /// Number of ones among the eight digits of the time.
    pub open spec fn ones_of_digits(self) -> int {
        ones4(self.frame_units as int) + ones4(self.frame_tens as int) + ones4(
            self.secs_units as int,
        ) + ones4(self.secs_tens as int) + ones4(self.mins_units as int) + ones4(
            self.mins_tens as int,
        ) + ones4(self.hours_units as int) + ones4(self.hours_tens as int)
    }

    /// Number of ones among the 32 user bits.
    pub open spec fn ones_of_user_bits(self) -> int {
        ones4(self.user1 as int) + ones4(self.user2 as int) + ones4(self.user3 as int) + ones4(
            self.user4 as int,
        ) + ones4(self.user5 as int) + ones4(self.user6 as int) + ones4(self.user7 as int)
            + ones4(self.user8 as int)
    }

    /// Number of ones among the six flag bits.
    pub open spec fn ones_of_flags(self) -> int {
        one_if(self.dfbit) + one_if(self.col_frame) + one_if(self.biphase_mark_phase_correction)
            + one_if(self.binary_group_flag_bit0) + one_if(self.binary_group_flag_bit1) + one_if(
            self.binary_group_flag_bit2,
        )
    }

    /// Number of bits that are one among all eighty.
    pub open spec fn ones(self) -> int {
        self.ones_of_digits() + self.ones_of_user_bits() + self.ones_of_flags() + ones16(
            self.sync_word as int,
        )
    }

    /// The bit that carries the parity under `standard`.
    pub open spec fn parity_bit(self, standard: LTCTVStandard) -> bool {
        if standard.is_625() {
            self.binary_group_flag_bit2
        } else {
            self.biphase_mark_phase_correction
        }
    }

    /// The frame with the bit that carries the parity under `standard` set
    /// to `on`.
    pub open spec fn put_parity_bit(self, standard: LTCTVStandard, on: bool) -> FrameFields {
        if standard.is_625() {
            FrameFields { binary_group_flag_bit2: on, ..self }
        } else {
            FrameFields { biphase_mark_phase_correction: on, ..self }
        }
    }

    /// The frame with its parity bit chosen so that the number of ones among
    /// all eighty bits is even.
    pub open spec fn with_parity(self, standard: LTCTVStandard) -> FrameFields {
        let cleared = self.put_parity_bit(standard, false);
        cleared.put_parity_bit(standard, cleared.ones() % 2 == 1)
    }

    /// The ones among all eighty bits are even in number.
    pub open spec fn parity_ok(self) -> bool {
        self.ones() % 2 == 0
    }

    #[verifier::opaque]
    pub open spec fn put_frame(self, n: int) -> FrameFields {
        FrameFields { frame_units: (n % 10) as u8, frame_tens: ((n / 10) % 4) as u8, ..self }
    }

    #[verifier::opaque]
    pub open spec fn put_seconds(self, n: int) -> FrameFields {
        FrameFields { secs_units: (n % 10) as u8, secs_tens: ((n / 10) % 8) as u8, ..self }
    }

    #[verifier::opaque]
    pub open spec fn put_minutes(self, n: int) -> FrameFields {
        FrameFields { mins_units: (n % 10) as u8, mins_tens: ((n / 10) % 8) as u8, ..self }
    }

    #[verifier::opaque]
    pub open spec fn put_hours(self, n: int) -> FrameFields {
        FrameFields { hours_units: (n % 10) as u8, hours_tens: ((n / 10) % 4) as u8, ..self }
    }

    #[verifier::opaque]
    pub open spec fn put_date(self, year: int, month: int, day: int) -> FrameFields {
        FrameFields {
            user1: (day % 10) as u8,
            user2: ((day / 10) % 16) as u8,
            user3: (month % 10) as u8,
            user4: ((month / 10) % 16) as u8,
            user5: (year % 10) as u8,
            user6: ((year / 10) % 16) as u8,
            ..self
        }
    }

    #[verifier::opaque]
    pub open spec fn put_zone(self, code: int) -> FrameFields {
        FrameFields { user7: (code % 16) as u8, user8: ((code / 16) % 16) as u8, ..self }
    }

    /// The frame with the 32 user bits set from `data`, the first group from
    /// its lowest four bits.
    pub open spec fn put_user_bits(self, data: int) -> FrameFields {
        FrameFields {
            user1: (data % 16) as u8,
            user2: ((data / 0x10) % 16) as u8,
            user3: ((data / 0x100) % 16) as u8,
            user4: ((data / 0x1000) % 16) as u8,
            user5: ((data / 0x1_0000) % 16) as u8,
            user6: ((data / 0x10_0000) % 16) as u8,
            user7: ((data / 0x100_0000) % 16) as u8,
            user8: ((data / 0x1000_0000) % 16) as u8,
            ..self
        }
    }

    /// The three binary-group flags as one number: flag 2 counts four, flag
    /// 1 two and flag 0 one. At 25 frames per second flag 0 sits in bit 27
    /// and flag 2 in bit 43; otherwise flag 0 sits in bit 43 and flag 2 in
    /// bit 59.
    pub open spec fn binary_group_flags(self, standard: LTCTVStandard) -> int {
        if standard.is_625() {
            4 * one_if(self.binary_group_flag_bit0) + 2 * one_if(self.binary_group_flag_bit1)
                + one_if(self.biphase_mark_phase_correction)
        } else {
            4 * one_if(self.binary_group_flag_bit2) + 2 * one_if(self.binary_group_flag_bit1)
                + one_if(self.binary_group_flag_bit0)
        }
    }

    /// Writing a number of the clock changes its two digits and nothing
    /// else; a number that the digits can hold reads back as written, in
    /// decimal digits.
    pub proof fn lemma_clock_writers()
        ensures
            forall|f: FrameFields, n: int|
                {
                    let g = #[trigger] f.put_frame(n);
                    &&& g == (FrameFields {
                        frame_units: g.frame_units,
                        frame_tens: g.frame_tens,
                        ..f
                    })
                    &&& 0 <= n ==> g.frame_units < 10 && g.frame_tens < 4
                    &&& 0 <= n < 40 ==> g.frame_number() == n
                },
            forall|f: FrameFields, n: int|
                {
                    let g = #[trigger] f.put_seconds(n);
                    &&& g == (FrameFields { secs_units: g.secs_units, secs_tens: g.secs_tens, ..f })
                    &&& 0 <= n ==> g.secs_units < 10 && g.secs_tens < 8
                    &&& 0 <= n < 60 ==> g.seconds() == n
                },
            forall|f: FrameFields, n: int|
                {
                    let g = #[trigger] f.put_minutes(n);
                    &&& g == (FrameFields { mins_units: g.mins_units, mins_tens: g.mins_tens, ..f })
                    &&& 0 <= n ==> g.mins_units < 10 && g.mins_tens < 8
                    &&& 0 <= n < 60 ==> g.minutes() == n
                },
            forall|f: FrameFields, n: int|
                {
                    let g = #[trigger] f.put_hours(n);
                    &&& g == (FrameFields {
                        hours_units: g.hours_units,
                        hours_tens: g.hours_tens,
                        ..f
                    })
                    &&& 0 <= n ==> g.hours_units < 10 && g.hours_tens < 4
                    &&& 0 <= n < 24 ==> g.hours() == n
                },
    {
        reveal(FrameFields::put_frame);
        reveal(FrameFields::put_seconds);
        reveal(FrameFields::put_minutes);
        reveal(FrameFields::put_hours);
    }

    /// Writing a date or a zone changes the user bits that hold it and
    /// nothing else; numbers of two digits read back as written, in decimal
    /// digits, and so does a zone code.
    pub proof fn lemma_date_writers()
        ensures
            forall|f: FrameFields, y: int, m: int, d: int|
                {
                    let g = #[trigger] f.put_date(y, m, d);
                    &&& g == (FrameFields {
                        user1: g.user1,
                        user2: g.user2,
                        user3: g.user3,
                        user4: g.user4,
                        user5: g.user5,
                        user6: g.user6,
                        ..f
                    })
                    &&& g.user2 < 16 && g.user4 < 16 && g.user6 < 16
                    &&& 0 <= d ==> g.user1 < 10
                    &&& 0 <= m ==> g.user3 < 10
                    &&& 0 <= y ==> g.user5 < 10
                    &&& 0 <= d < 100 ==> g.day() == d && g.user2 < 10
                    &&& 0 <= m < 100 ==> g.month() == m && g.user4 < 10
                    &&& 0 <= y < 100 ==> g.year() == y && g.user6 < 10
                },
            forall|f: FrameFields, c: int|
                {
                    let g = #[trigger] f.put_zone(c);
                    &&& g == (FrameFields { user7: g.user7, user8: g.user8, ..f })
                    &&& g.user7 < 16 && g.user8 < 16
                    &&& 0 <= c < 256 ==> g.zone_code() == c
                },
    {
        reveal(FrameFields::put_date);
        reveal(FrameFields::put_zone);
    }

    /// Two digits are decided by the number they make.
    pub proof fn lemma_digits_decided(u1: int, t1: int, u2: int, t2: int)
        requires
            0 <= u1 < 10,
            0 <= u2 < 10,
            u1 + 10 * t1 == u2 + 10 * t2,
        ensures
            u1 == u2,
            t1 == t2,
    {
    }

    /// The user bits read back as what was written.
    pub proof fn lemma_user_bits_kept(f: FrameFields, data: u32)
        ensures
            f.put_user_bits(data as int).user_bits() == data,
            f.wf() ==> f.put_user_bits(data as int).wf(),
    {
        assert(data % 16 + 0x10 * ((data / 0x10) % 16) + 0x100 * ((data / 0x100) % 16) + 0x1000 * ((
        data / 0x1000) % 16) + 0x1_0000 * ((data / 0x1_0000) % 16) + 0x10_0000 * ((data
            / 0x10_0000) % 16) + 0x100_0000 * ((data / 0x100_0000) % 16) + 0x1000_0000 * ((data
            / 0x1000_0000) % 16) == data) by (bit_vector);
    }

    /// The frame number is one that drop-frame numbering leaves out: frame 0
    /// or 1 of the first second of a minute that is no multiple of ten.
    pub open spec fn at_dropped_number(self) -> bool {
        &&& self.mins_units != 0
        &&& self.secs_units == 0
        &&& self.secs_tens == 0
        &&& self.frame_tens == 0
        &&& self.frame_units < 2
    }

    /// Under drop-frame numbering, a left-out number moves on to frame 2.
    pub open spec fn skip_dropped(self) -> FrameFields {
        if self.dfbit && self.at_dropped_number() {
            FrameFields { frame_units: 2, ..self }
        } else {
            self
        }
    }

    /// The time that the frame shows. The date and zone are read from the
    /// user bits only if `flags` say that they carry one.
    pub open spec fn to_time(self, flags: LtcBgFlags) -> SMPTETimecode {
        SMPTETimecode {
            timezone: if flags.use_date {
                Timezone::of_code(self.zone_code() as u8)
            } else {
                Timezone::utc()
            },
            years: if flags.use_date {
                self.year() as u8
            } else {
                0
            },
            months: if flags.use_date {
                self.month() as u8
            } else {
                0
            },
            days: if flags.use_date {
                self.day() as u8
            } else {
                0
            },
            hours: self.hours() as u8,
            mins: self.minutes() as u8,
            secs: self.seconds() as u8,
            frame: self.frame_number() as u8,
        }
    }

    /// The digits of `t` written over those of the frame; with a date in the
    /// user bits, the date and zone too.
    pub open spec fn with_digits(self, t: SMPTETimecode, flags: LtcBgFlags) -> FrameFields {
        let dated = if flags.use_date {
            self.put_zone(t.timezone.code()).put_date(
                t.years as int,
                t.months as int,
                t.days as int,
            )
        } else {
            self
        };
        dated.put_hours(t.hours as int).put_minutes(t.mins as int).put_seconds(
            t.secs as int,
        ).put_frame(t.frame as int)
    }

    /// The frame set to the time `t`: digits, then the drop-frame rule, then
    /// the parity bit where `flags` keep one.
    pub open spec fn with_time(
        self,
        t: SMPTETimecode,
        standard: LTCTVStandard,
        flags: LtcBgFlags,
    ) -> FrameFields {
        let placed = self.with_digits(t, flags).skip_dropped();
        if flags.parity_applies() {
            placed.with_parity(standard)
        } else {
            placed
        }
    }

    /// Fields that are all zero but for the sync word.
    pub fn new() -> (r: FrameFields)
        ensures
            r == FrameFields::blank(),
            r.wf(),
    {
        FrameFields {
            frame_units: 0,
            user1: 0,
            frame_tens: 0,
            dfbit: false,
            col_frame: false,
            user2: 0,
            secs_units: 0,
            user3: 0,
            secs_tens: 0,
            biphase_mark_phase_correction: false,
            user4: 0,
            mins_units: 0,
            user5: 0,
            mins_tens: 0,
            binary_group_flag_bit0: false,
            user6: 0,
            hours_units: 0,
            user7: 0,
            hours_tens: 0,
            binary_group_flag_bit1: false,
            binary_group_flag_bit2: false,
            user8: 0,
            sync_word: SYNC_WORD,
        }
    }

    fn count_digit_ones(&self) -> (r: u8)
        requires
            self.wf(),
        ensures
            r == self.ones_of_digits(),
            r <= 32,
    {
        let a: u8 = count4(self.frame_units) + count4(self.frame_tens);
        let b: u8 = count4(self.secs_units) + count4(self.secs_tens);
        let c: u8 = count4(self.mins_units) + count4(self.mins_tens);
        let d: u8 = count4(self.hours_units) + count4(self.hours_tens);
        a + b + c + d
    }

    fn count_user_ones(&self) -> (r: u8)
        requires
            self.wf(),
        ensures
            r == self.ones_of_user_bits(),
            r <= 32,
    {
        let a: u8 = count4(self.user1) + count4(self.user2);
        let b: u8 = count4(self.user3) + count4(self.user4);
        let c: u8 = count4(self.user5) + count4(self.user6);
        let d: u8 = count4(self.user7) + count4(self.user8);
        a + b + c + d
    }

    fn count_flag_ones(&self) -> (r: u8)
        ensures
            r == self.ones_of_flags(),
            r <= 6,
    {
        let a: u8 = count1(self.dfbit) + count1(self.col_frame);
        let b: u8 = count1(self.biphase_mark_phase_correction) + count1(
            self.binary_group_flag_bit0,
        );
        let c: u8 = count1(self.binary_group_flag_bit1) + count1(self.binary_group_flag_bit2);
        a + b + c
    }

    /// Counts the bits that are one among all eighty.
    pub fn count_ones(&self) -> (r: u8)
        requires
            self.wf(),
        ensures
            r == self.ones(),
            r <= 86,
    {
        let a: u8 = self.count_digit_ones();
        let b: u8 = self.count_user_ones();
        let c: u8 = self.count_flag_ones();
        let d: u8 = count16(self.sync_word);
        a + b + c + d
    }

    /// Sets the parity bit so that the ones among all eighty bits are even.
    pub fn set_parity(&mut self, standard: LTCTVStandard)
        requires
            old(self).wf(),
        ensures
            *final(self) == old(self).with_parity(standard),
            final(self).wf(),
            final(self).ones() % 2 == 0,
    {
        if standard.is_625_50() {
            self.binary_group_flag_bit2 = false;
            let n: u8 = self.count_ones();
            self.binary_group_flag_bit2 = n % 2 == 1;
        } else {
            self.biphase_mark_phase_correction = false;
            let n: u8 = self.count_ones();
            self.biphase_mark_phase_correction = n % 2 == 1;
        }
    }

    /// The time that the fields show; with `use_date` the date and zone of
    /// the user bits too.
    pub fn to_timecode(&self, flags: LtcBgFlags) -> (t: SMPTETimecode)
        requires
            self.wf(),
        ensures
            t == self.to_time(flags),
    {
        let mut t = SMPTETimecode {
            timezone: Timezone('+', '0', '0', '0', '0'),
            years: 0,
            months: 0,
            days: 0,
            hours: self.hours_units + self.hours_tens * 10,
            mins: self.mins_units + self.mins_tens * 10,
            secs: self.secs_units + self.secs_tens * 10,
            frame: self.frame_units + self.frame_tens * 10,
        };
        if flags.use_date {
            t.timezone = Timezone::from_code(self.user7 + self.user8 * 16);
            t.years = self.user5 + self.user6 * 10;
            t.months = self.user3 + self.user4 * 10;
            t.days = self.user1 + self.user2 * 10;
        }
        t
    }

    /// Writes the two frame digits: `n` modulo ten, and the tens modulo four.
    pub fn set_frame_number(&mut self, n: u8)
        ensures
            *final(self) == old(self).put_frame(n as int),
            old(self).wf() ==> final(self).wf(),
    {
        reveal(FrameFields::put_frame);
        self.frame_units = n % 10;
        self.frame_tens = (n / 10) % 4;
    }

    /// Writes the two digits of the seconds: `n` modulo ten, and the tens
    /// modulo eight.
    pub fn set_seconds(&mut self, n: u8)
        ensures
            *final(self) == old(self).put_seconds(n as int),
            old(self).wf() ==> final(self).wf(),
    {
        reveal(FrameFields::put_seconds);
        self.secs_units = n % 10;
        self.secs_tens = (n / 10) % 8;
    }

    /// Writes the two digits of the minutes: `n` modulo ten, and the tens
    /// modulo eight.
    pub fn set_minutes(&mut self, n: u8)
        ensures
            *final(self) == old(self).put_minutes(n as int),
            old(self).wf() ==> final(self).wf(),
    {
        reveal(FrameFields::put_minutes);
        self.mins_units = n % 10;
        self.mins_tens = (n / 10) % 8;
    }

    /// Writes the two digits of the hours: `n` modulo ten, and the tens
    /// modulo four.
    pub fn set_hours(&mut self, n: u8)
        ensures
            *final(self) == old(self).put_hours(n as int),
            old(self).wf() ==> final(self).wf(),
    {
        reveal(FrameFields::put_hours);
        self.hours_units = n % 10;
        self.hours_tens = (n / 10) % 4;
    }

    /// Writes the date into the first six user groups, two digits each.
    pub fn set_date(&mut self, year: u8, month: u8, day: u8)
        ensures
            *final(self) == old(self).put_date(year as int, month as int, day as int),
            old(self).wf() ==> final(self).wf(),
    {
        reveal(FrameFields::put_date);
        self.user1 = day % 10;
        self.user2 = (day / 10) % 16;
        self.user3 = month % 10;
        self.user4 = (month / 10) % 16;
        self.user5 = year % 10;
        self.user6 = (year / 10) % 16;
    }

    /// Writes the code of a time zone into the last two user groups.
    pub fn set_zone_code(&mut self, code: u8)
        ensures
            *final(self) == old(self).put_zone(code as int),
            old(self).wf() ==> final(self).wf(),
    {
        reveal(FrameFields::put_zone);
        self.user7 = code % 16;
        self.user8 = (code / 16) % 16;
    }

    /// Writes the 32 user bits, the first group from the lowest four bits.
    pub fn set_user_bits(&mut self, data: u32)
        ensures
            *final(self) == old(self).put_user_bits(data as int),
            old(self).wf() ==> final(self).wf(),
    {
        self.user1 = (data % 16) as u8;
        self.user2 = ((data / 0x10) % 16) as u8;
        self.user3 = ((data / 0x100) % 16) as u8;
        self.user4 = ((data / 0x1000) % 16) as u8;
        self.user5 = ((data / 0x1_0000) % 16) as u8;
        self.user6 = ((data / 0x10_0000) % 16) as u8;
        self.user7 = ((data / 0x100_0000) % 16) as u8;
        self.user8 = ((data / 0x1000_0000) % 16) as u8;
    }

    /// The 32 user bits as one number, the first group lowest.
    pub fn get_user_bits(&self) -> (r: u32)
        requires
            self.wf(),
        ensures
            r == self.user_bits(),
    {
        let lo: u32 = self.user1 as u32 + 0x10 * (self.user2 as u32) + 0x100 * (self.user3 as u32)
            + 0x1000 * (self.user4 as u32);
        let hi: u32 = self.user5 as u32 + 0x10 * (self.user6 as u32) + 0x100 * (self.user7 as u32)
            + 0x1000 * (self.user8 as u32);
        lo + 0x1_0000 * hi
    }

    /// The three binary-group flags as one number; see
    /// [`FrameFields::binary_group_flags`].
    pub fn parse_bcg_flags(&self, standard: LTCTVStandard) -> (r: i32)
        ensures
            r == self.binary_group_flags(standard),
            0 <= r < 8,
    {
        let b1: i32 = if self.binary_group_flag_bit1 {
            2
        } else {
            0
        };
        if standard.is_625_50() {
            let b2: i32 = if self.binary_group_flag_bit0 {
                4
            } else {
                0
            };
            let b0: i32 = if self.biphase_mark_phase_correction {
                1
            } else {
                0
            };
            b2 + b1 + b0
        } else {
            let b2: i32 = if self.binary_group_flag_bit2 {
                4
            } else {
                0
            };
            let b0: i32 = if self.binary_group_flag_bit0 {
                1
            } else {
                0
            };
            b2 + b1 + b0
        }
    }

    /// Tells whether every field fits its bits.
    pub fn is_wf(&self) -> (r: bool)
        ensures
            r == self.wf(),
    {
        self.frame_units < 16 && self.user1 < 16 && self.frame_tens < 4 && self.user2 < 16
            && self.secs_units < 16 && self.user3 < 16 && self.secs_tens < 8 && self.user4 < 16
            && self.mins_units < 16 && self.user5 < 16 && self.mins_tens < 8 && self.user6 < 16
            && self.hours_units < 16 && self.user7 < 16 && self.hours_tens < 4 && self.user8 < 16
    }

    /// Tells whether the frame number is one that drop-frame numbering
    /// leaves out.
    pub fn is_at_dropped_number(&self) -> (r: bool)
        ensures
            r == self.at_dropped_number(),
    {
        self.mins_units != 0 && self.secs_units == 0 && self.secs_tens == 0 && self.frame_tens == 0
            && self.frame_units < 2
    }

    /// Under drop-frame numbering, moves a left-out number on to frame 2.
    pub fn skip_drop_frames(&mut self)
        ensures
            *final(self) == old(self).skip_dropped(),
            old(self).wf() ==> final(self).wf(),
            final(self).dfbit ==> !final(self).at_dropped_number(),
    {
        if self.dfbit && self.is_at_dropped_number() {
            self.frame_units = 2;
        }
    }

    /// Sets the fields to the time `t`: the digits, with `use_date` the date
    /// and zone, then the drop-frame rule, then the parity bit where `flags`
    /// keep one.
    pub fn set_timecode(&mut self, t: &SMPTETimecode, standard: LTCTVStandard, flags: LtcBgFlags)
        requires
            old(self).wf(),
        ensures
            *final(self) == old(self).with_time(*t, standard, flags),
            final(self).wf(),
            final(self).dfbit ==> !final(self).at_dropped_number(),
            flags.parity_applies() ==> final(self).ones() % 2 == 0,
    {
        if flags.use_date {
            self.set_zone_code(t.timezone.to_code());
            self.set_date(t.years, t.months, t.days);
        }
        self.set_hours(t.hours);
        self.set_minutes(t.mins);
        self.set_seconds(t.secs);
        self.set_frame_number(t.frame);
        self.skip_drop_frames();
        if flags.parity_enabled() {
            self.set_parity(standard);
        }
    }
}

} // verus!
