//! The switches that go with conversions, frame arithmetic and the
//! encoder.

use vstd::prelude::*;

verus! {

/// One switch of the binary-group flags.
#[allow(non_camel_case_types)]
#[derive(Debug, Clone, Copy, PartialEq, Eq, Structural)]
pub enum LtcBgFlagsKind {
    /// The user bits carry a date and a time zone.
    LTC_USE_DATE,
    /// The parity bit is kept up to date (only while no date is carried).
    LTC_USE_PARITY,
    /// The encoder starts each pulse train on the low level.
    LTC_REVERSE_PHASE,
}

/// The set of switches handed to conversions, arithmetic and the encoder.
#[derive(Debug, Clone, Copy, PartialEq, Eq, Structural)]
pub struct LtcBgFlags {
    pub use_date: bool,
    pub use_parity: bool,
    pub reverse_phase: bool,
}

impl LtcBgFlagsKind {
    /// The bit that stands for this switch in a packed word.
    pub open spec fn bit(self) -> int {
        match self {
            LtcBgFlagsKind::LTC_USE_DATE => 1,
            LtcBgFlagsKind::LTC_USE_PARITY => 2,
            LtcBgFlagsKind::LTC_REVERSE_PHASE => 4,
        }
    }
}

impl LtcBgFlags {
    /// The set with no switch on.
    pub open spec fn empty() -> LtcBgFlags {
        LtcBgFlags { use_date: false, use_parity: false, reverse_phase: false }
    }

    /// The switch is on.
    pub open spec fn has(self, kind: LtcBgFlagsKind) -> bool {
        match kind {
            LtcBgFlagsKind::LTC_USE_DATE => self.use_date,
            LtcBgFlagsKind::LTC_USE_PARITY => self.use_parity,
            LtcBgFlagsKind::LTC_REVERSE_PHASE => self.reverse_phase,
        }
    }

    /// The set with one switch turned on or off.
    pub open spec fn put(self, kind: LtcBgFlagsKind, on: bool) -> LtcBgFlags {
        match kind {
            LtcBgFlagsKind::LTC_USE_DATE => LtcBgFlags { use_date: on, ..self },
            LtcBgFlagsKind::LTC_USE_PARITY => LtcBgFlags { use_parity: on, ..self },
            LtcBgFlagsKind::LTC_REVERSE_PHASE => LtcBgFlags { reverse_phase: on, ..self },
        }
    }

    /// Parity is written exactly when it is asked for and the user bits do
    /// not carry a date.
    pub open spec fn parity_applies(self) -> bool {
        self.use_parity && !self.use_date
    }

    /// The packed word: one bit per switch that is on.
    pub open spec fn bits(self) -> int {
        (if self.use_date { 1int } else { 0 })
            + (if self.use_parity { 2int } else { 0 })
            + (if self.reverse_phase { 4int } else { 0 })
    }

    /// No switch on.
    pub fn new() -> (r: LtcBgFlags)
        ensures
            r == LtcBgFlags::empty(),
    {
        LtcBgFlags { use_date: false, use_parity: false, reverse_phase: false }
    }

    /// Tells whether a switch is on.
    pub fn is_set(&self, kind: LtcBgFlagsKind) -> (r: bool)
        ensures
            r == self.has(kind),
    {
        match kind {
            LtcBgFlagsKind::LTC_USE_DATE => self.use_date,
            LtcBgFlagsKind::LTC_USE_PARITY => self.use_parity,
            LtcBgFlagsKind::LTC_REVERSE_PHASE => self.reverse_phase,
        }
    }

    /// Turns a switch on.
    pub fn set(&mut self, kind: LtcBgFlagsKind)
        ensures
            *final(self) == old(self).put(kind, true),
    {
        match kind {
            LtcBgFlagsKind::LTC_USE_DATE => {
                self.use_date = true;
            },
            LtcBgFlagsKind::LTC_USE_PARITY => {
                self.use_parity = true;
            },
            LtcBgFlagsKind::LTC_REVERSE_PHASE => {
                self.reverse_phase = true;
            },
        }
    }

    /// Turns a switch off.
    pub fn unset(&mut self, kind: LtcBgFlagsKind)
        ensures
            *final(self) == old(self).put(kind, false),
    {
        match kind {
            LtcBgFlagsKind::LTC_USE_DATE => {
                self.use_date = false;
            },
            LtcBgFlagsKind::LTC_USE_PARITY => {
                self.use_parity = false;
            },
            LtcBgFlagsKind::LTC_REVERSE_PHASE => {
                self.reverse_phase = false;
            },
        }
    }

    /// The same set with one more switch on.
    pub fn with(self, kind: LtcBgFlagsKind) -> (r: LtcBgFlags)
        ensures
            r == self.put(kind, true),
    {
        let mut r = self;
        r.set(kind);
        r
    }

    /// Tells whether the parity bit is written: it is asked for and the user
    /// bits carry no date.
    pub fn parity_enabled(&self) -> (r: bool)
        ensures
            r == self.parity_applies(),
    {
        self.use_parity && !self.use_date
    }

    /// The packed word: one for the date, two for the parity, four for the
    /// reversed phase.
    pub fn to_bits(&self) -> (r: i32)
        ensures
            r == self.bits(),
            0 <= r < 8,
    {
        let a: i32 = if self.use_date { 1 } else { 0 };
        let b: i32 = if self.use_parity { 2 } else { 0 };
        let c: i32 = if self.reverse_phase { 4 } else { 0 };
        a + b + c
    }

    /// Reads the three low bits of a packed word; the rest is ignored.
    pub fn from_bits(bits: i32) -> (r: LtcBgFlags)
        ensures
            r.use_date == (bits >= 0 && bits % 2 == 1),
            r.use_parity == (bits >= 0 && (bits / 2) % 2 == 1),
            r.reverse_phase == (bits >= 0 && (bits / 4) % 2 == 1),
            0 <= bits < 8 ==> r.bits() == bits,
    {
        let b: i32 = if bits < 0 { 0 } else { bits };
        LtcBgFlags {
            use_date: bits >= 0 && b % 2 == 1,
            use_parity: bits >= 0 && (b / 2) % 2 == 1,
            reverse_phase: bits >= 0 && (b / 4) % 2 == 1,
        }
    }
}

impl Default for LtcBgFlags {
    fn default() -> (r: Self)
        ensures
            r == LtcBgFlags::empty(),
    {
        LtcBgFlags::new()
    }
}

} // verus!
