//! Time as hours, minutes, seconds and frames, with a date and a time
//! zone.

use vstd::prelude::*;

verus! {

/// A time zone as five characters: a sign and four digits such as `+0100`,
/// or one of the few special names of the code table.
#[derive(Debug, Clone, Copy, PartialEq, Eq, Structural)]
pub struct Timezone(pub char, pub char, pub char, pub char, pub char);

/// Number of codes that the two user nibbles of a time zone can name in the
/// table: the table has no entry at or above it.
pub const TIMEZONE_CODES: u8 = 64;

impl Timezone {
    /// Universal time, `+0000`.
    pub open spec fn utc() -> Timezone {
        Timezone('+', '0', '0', '0', '0')
    }

    /// The zone that a code stands for. Codes without an entry read as
    /// universal time.
    pub open spec fn of_code(code: u8) -> Timezone {
        match code {
            0x01 => Timezone('-', '0', '1', '0', '0'),
            0x02 => Timezone('-', '0', '2', '0', '0'),
            0x03 => Timezone('-', '0', '3', '0', '0'),
            0x04 => Timezone('-', '0', '4', '0', '0'),
            0x05 => Timezone('-', '0', '5', '0', '0'),
            0x06 => Timezone('-', '0', '6', '0', '0'),
            0x07 => Timezone('-', '0', '7', '0', '0'),
            0x08 => Timezone('-', '0', '8', '0', '0'),
            0x09 => Timezone('-', '0', '9', '0', '0'),
            0x0A => Timezone('-', '0', '0', '3', '0'),
            0x0B => Timezone('-', '0', '1', '3', '0'),
            0x0C => Timezone('-', '0', '2', '3', '0'),
            0x0D => Timezone('-', '0', '3', '3', '0'),
            0x0E => Timezone('-', '0', '4', '3', '0'),
            0x0F => Timezone('-', '0', '5', '3', '0'),
            0x10 => Timezone('-', '1', '0', '0', '0'),
            0x11 => Timezone('-', '1', '1', '0', '0'),
            0x12 => Timezone('-', '1', '2', '0', '0'),
            0x13 => Timezone('+', '1', '3', '0', '0'),
            0x14 => Timezone('+', '1', '2', '0', '0'),
            0x15 => Timezone('+', '1', '1', '0', '0'),
            0x16 => Timezone('+', '1', '0', '0', '0'),
            0x17 => Timezone('+', '0', '9', '0', '0'),
            0x18 => Timezone('+', '0', '8', '0', '0'),
            0x19 => Timezone('+', '0', '7', '0', '0'),
            0x1A => Timezone('-', '0', '6', '3', '0'),
            0x1B => Timezone('-', '0', '7', '3', '0'),
            0x1C => Timezone('-', '0', '8', '3', '0'),
            0x1D => Timezone('-', '0', '9', '3', '0'),
            0x1E => Timezone('-', '1', '0', '3', '0'),
            0x1F => Timezone('-', '1', '1', '3', '0'),
            0x20 => Timezone('+', '0', '6', '0', '0'),
            0x21 => Timezone('+', '0', '5', '0', '0'),
            0x22 => Timezone('+', '0', '4', '0', '0'),
            0x23 => Timezone('+', '0', '3', '0', '0'),
            0x24 => Timezone('+', '0', '2', '0', '0'),
            0x25 => Timezone('+', '0', '1', '0', '0'),
            0x28 => Timezone('T', 'P', '-', '0', '3'),
            0x29 => Timezone('T', 'P', '-', '0', '2'),
            0x2A => Timezone('+', '1', '1', '3', '0'),
            0x2B => Timezone('+', '1', '0', '3', '0'),
            0x2C => Timezone('+', '0', '9', '3', '0'),
            0x2D => Timezone('+', '0', '8', '3', '0'),
            0x2E => Timezone('+', '0', '7', '3', '0'),
            0x2F => Timezone('+', '0', '6', '3', '0'),
            0x30 => Timezone('T', 'P', '-', '0', '1'),
            0x31 => Timezone('T', 'P', '-', '0', '0'),
            0x32 => Timezone('+', '1', '2', '4', '5'),
            0x38 => Timezone('+', 'X', 'X', 'X', 'X'),
            0x3A => Timezone('+', '0', '5', '3', '0'),
            0x3B => Timezone('+', '0', '4', '3', '0'),
            0x3C => Timezone('+', '0', '3', '3', '0'),
            0x3D => Timezone('+', '0', '2', '3', '0'),
            0x3E => Timezone('+', '0', '1', '3', '0'),
            0x3F => Timezone('+', '0', '0', '3', '0'),
            _ => Timezone::utc(),
        }
    }

    /// The smallest code at or above `from` whose zone is `self`; zero if
    /// there is none.
    pub open spec fn first_code(self, from: int) -> int
        decreases 64 - from,
    {
        if from < 0 || from >= 64 {
            0
        } else if Timezone::of_code(from as u8) == self {
            from
        } else {
            self.first_code(from + 1)
        }
    }

    /// The code under which the zone is written into a frame. A zone that
    /// the table does not hold is written as zero.
    pub open spec fn code(self) -> int {
        self.first_code(0)
    }

    /// The zone is one that a frame can carry and give back unchanged.
    pub open spec fn in_table(self) -> bool {
        Timezone::of_code(self.code() as u8) == self
    }

    /// A zone from its five characters.
    pub fn new(c0: char, c1: char, c2: char, c3: char, c4: char) -> (r: Timezone)
        ensures
            r == Timezone(c0, c1, c2, c3, c4),
    {
        Timezone(c0, c1, c2, c3, c4)
    }

    /// The five characters, first to last.
    pub fn chars(&self) -> (r: Vec<char>)
        ensures
            r@ == seq![self.0, self.1, self.2, self.3, self.4],
    {
        let mut v: Vec<char> = Vec::new();
        v.push(self.0);
        v.push(self.1);
        v.push(self.2);
        v.push(self.3);
        v.push(self.4);
        assert(v@ =~= seq![self.0, self.1, self.2, self.3, self.4]);
        v
    }

    /// The zone that a code stands for; universal time for a code without
    /// an entry.
    pub fn from_code(code: u8) -> (r: Timezone)
        ensures
            r == Timezone::of_code(code),
    {
        match code {
            0x01 => Timezone('-', '0', '1', '0', '0'),
            0x02 => Timezone('-', '0', '2', '0', '0'),
            0x03 => Timezone('-', '0', '3', '0', '0'),
            0x04 => Timezone('-', '0', '4', '0', '0'),
            0x05 => Timezone('-', '0', '5', '0', '0'),
            0x06 => Timezone('-', '0', '6', '0', '0'),
            0x07 => Timezone('-', '0', '7', '0', '0'),
            0x08 => Timezone('-', '0', '8', '0', '0'),
            0x09 => Timezone('-', '0', '9', '0', '0'),
            0x0A => Timezone('-', '0', '0', '3', '0'),
            0x0B => Timezone('-', '0', '1', '3', '0'),
            0x0C => Timezone('-', '0', '2', '3', '0'),
            0x0D => Timezone('-', '0', '3', '3', '0'),
            0x0E => Timezone('-', '0', '4', '3', '0'),
            0x0F => Timezone('-', '0', '5', '3', '0'),
            0x10 => Timezone('-', '1', '0', '0', '0'),
            0x11 => Timezone('-', '1', '1', '0', '0'),
            0x12 => Timezone('-', '1', '2', '0', '0'),
            0x13 => Timezone('+', '1', '3', '0', '0'),
            0x14 => Timezone('+', '1', '2', '0', '0'),
            0x15 => Timezone('+', '1', '1', '0', '0'),
            0x16 => Timezone('+', '1', '0', '0', '0'),
            0x17 => Timezone('+', '0', '9', '0', '0'),
            0x18 => Timezone('+', '0', '8', '0', '0'),
            0x19 => Timezone('+', '0', '7', '0', '0'),
            0x1A => Timezone('-', '0', '6', '3', '0'),
            0x1B => Timezone('-', '0', '7', '3', '0'),
            0x1C => Timezone('-', '0', '8', '3', '0'),
            0x1D => Timezone('-', '0', '9', '3', '0'),
            0x1E => Timezone('-', '1', '0', '3', '0'),
            0x1F => Timezone('-', '1', '1', '3', '0'),
            0x20 => Timezone('+', '0', '6', '0', '0'),
            0x21 => Timezone('+', '0', '5', '0', '0'),
            0x22 => Timezone('+', '0', '4', '0', '0'),
            0x23 => Timezone('+', '0', '3', '0', '0'),
            0x24 => Timezone('+', '0', '2', '0', '0'),
            0x25 => Timezone('+', '0', '1', '0', '0'),
            0x28 => Timezone('T', 'P', '-', '0', '3'),
            0x29 => Timezone('T', 'P', '-', '0', '2'),
            0x2A => Timezone('+', '1', '1', '3', '0'),
            0x2B => Timezone('+', '1', '0', '3', '0'),
            0x2C => Timezone('+', '0', '9', '3', '0'),
            0x2D => Timezone('+', '0', '8', '3', '0'),
            0x2E => Timezone('+', '0', '7', '3', '0'),
            0x2F => Timezone('+', '0', '6', '3', '0'),
            0x30 => Timezone('T', 'P', '-', '0', '1'),
            0x31 => Timezone('T', 'P', '-', '0', '0'),
            0x32 => Timezone('+', '1', '2', '4', '5'),
            0x38 => Timezone('+', 'X', 'X', 'X', 'X'),
            0x3A => Timezone('+', '0', '5', '3', '0'),
            0x3B => Timezone('+', '0', '4', '3', '0'),
            0x3C => Timezone('+', '0', '3', '3', '0'),
            0x3D => Timezone('+', '0', '2', '3', '0'),
            0x3E => Timezone('+', '0', '1', '3', '0'),
            0x3F => Timezone('+', '0', '0', '3', '0'),
            _ => Timezone('+', '0', '0', '0', '0'),
        }
    }

    /// The code under which the zone is written into a frame; zero for a
    /// zone that the table does not hold.
    pub fn to_code(&self) -> (r: u8)
        ensures
            r == self.code(),
            r < TIMEZONE_CODES,
    {
        let mut c: u8 = TIMEZONE_CODES;
        let mut found: u8 = 0;
        while c > 0
            invariant
                c <= 64,
                found < 64,
                found == self.first_code(c as int),
            decreases c,
        {
            c = c - 1;
            if Timezone::from_code(c) == *self {
                found = c;
            }
        }
        found
    }
}

impl Default for Timezone {
    fn default() -> (r: Self)
        ensures
            r == Timezone::utc(),
    {
        Timezone('+', '0', '0', '0', '0')
    }
}

/// A moment as the hours, minutes, seconds and frame of a timecode, with the
/// date and time zone that the user bits may carry.
#[derive(Debug, Clone, Copy, PartialEq, Eq, Structural)]
pub struct SMPTETimecode {
    pub timezone: Timezone,
    /// Two-digit year, `0..=99`.
    pub years: u8,
    /// Month, `1..=12`.
    pub months: u8,
    /// Day of the month, `1..=31`.
    pub days: u8,
    pub hours: u8,
    pub mins: u8,
    pub secs: u8,
    /// Frame within the second, below the frame rate.
    pub frame: u8,
}

impl SMPTETimecode {
    /// Midnight with no date, in universal time.
    pub open spec fn zero() -> SMPTETimecode {
        SMPTETimecode {
            timezone: Timezone::utc(),
            years: 0,
            months: 0,
            days: 0,
            hours: 0,
            mins: 0,
            secs: 0,
            frame: 0,
        }
    }

    /// The clock fields name a moment of a day that runs at `fps` frames
    /// per second.
    pub open spec fn time_in_range(self, fps: int) -> bool {
        &&& self.hours < 24
        &&& self.mins < 60
        &&& self.secs < 60
        &&& self.frame < fps
        &&& fps <= 40
    }

    /// The date fields fit the two digits that a frame has for each, and the
    /// zone is one of the table.
    pub open spec fn date_in_range(self) -> bool {
        &&& self.years < 100
        &&& self.months < 100
        &&& self.days < 100
        &&& self.timezone.in_table()
    }

    /// The date fields are those that a frame without a date reads as.
    pub open spec fn no_date(self) -> bool {
        &&& self.years == 0
        &&& self.months == 0
        &&& self.days == 0
        &&& self.timezone == Timezone::utc()
    }

    /// A time from its fields.
    pub fn new(
        timezone: Timezone,
        years: u8,
        months: u8,
        days: u8,
        hours: u8,
        mins: u8,
        secs: u8,
        frame: u8,
    ) -> (r: SMPTETimecode)
        ensures
            r == (SMPTETimecode { timezone, years, months, days, hours, mins, secs, frame }),
    {
        SMPTETimecode { timezone, years, months, days, hours, mins, secs, frame }
    }
}

impl Default for SMPTETimecode {
    fn default() -> (r: Self)
        ensures
            r == SMPTETimecode::zero(),
    {
        SMPTETimecode {
            timezone: Timezone('+', '0', '0', '0', '0'),
            years: 0,
            months: 0,
            days: 0,
            hours: 0,
            mins: 0,
            secs: 0,
            frame: 0,
        }
    }
}

} // verus!
