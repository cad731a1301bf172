//! Television standards.

use vstd::prelude::*;

verus! {

/// Television standards that carry longitudinal timecode.
#[allow(non_camel_case_types)]
#[derive(Debug, Clone, Copy, PartialEq, Eq, Structural)]
pub enum LTCTVStandard {
    /// 525 lines, 60 fields: 30 frames per second.
    LTCTV_525_60,
    /// 625 lines, 50 fields: 25 frames per second.
    LTCTV_625_50,
    /// 1125 lines, 60 fields: 30 frames per second.
    LTCTV_1125_60,
    /// Film: 24 frames per second.
    LTCTV_FILM_24,
}

impl LTCTVStandard {
    /// The number by which the standard is known on the wire of other tools.
    pub open spec fn raw(self) -> u32 {
        match self {
            LTCTVStandard::LTCTV_525_60 => 0,
            LTCTVStandard::LTCTV_625_50 => 1,
            LTCTVStandard::LTCTV_1125_60 => 2,
            LTCTVStandard::LTCTV_FILM_24 => 3,
        }
    }

    /// Nominal whole frames per second of the standard.
    pub open spec fn nominal_fps(self) -> int {
        match self {
            LTCTVStandard::LTCTV_525_60 => 30,
            LTCTVStandard::LTCTV_625_50 => 25,
            LTCTVStandard::LTCTV_1125_60 => 30,
            LTCTVStandard::LTCTV_FILM_24 => 24,
        }
    }

    /// True for the one standard that keeps its parity in bit 59 and its
    /// date selector in bit 27: 625 lines at 25 frames per second.
    pub open spec fn is_625(self) -> bool {
        self == LTCTVStandard::LTCTV_625_50
    }

    /// The number by which the standard is known to other tools: 0 for
    /// 525/60, 1 for 625/50, 2 for 1125/60, 3 for film.
    pub fn to_raw(self) -> (r: u32)
        ensures
            r == self.raw(),
            r < 4,
    {
        match self {
            LTCTVStandard::LTCTV_525_60 => 0,
            LTCTVStandard::LTCTV_625_50 => 1,
            LTCTVStandard::LTCTV_1125_60 => 2,
            LTCTVStandard::LTCTV_FILM_24 => 3,
        }
    }

    /// The standard with the given number, if there is one.
    pub fn from_raw(raw: u32) -> (r: Option<LTCTVStandard>)
        ensures
            raw < 4 <==> r.is_some(),
            r.is_some() ==> r.unwrap().raw() == raw,
    {
        if raw == 0 {
            Some(LTCTVStandard::LTCTV_525_60)
        } else if raw == 1 {
            Some(LTCTVStandard::LTCTV_625_50)
        } else if raw == 2 {
            Some(LTCTVStandard::LTCTV_1125_60)
        } else if raw == 3 {
            Some(LTCTVStandard::LTCTV_FILM_24)
        } else {
            None
        }
    }

    /// Nominal whole frames per second of the standard.
    pub fn fps(self) -> (r: i32)
        ensures
            r == self.nominal_fps(),
    {
        match self {
            LTCTVStandard::LTCTV_525_60 => 30,
            LTCTVStandard::LTCTV_625_50 => 25,
            LTCTVStandard::LTCTV_1125_60 => 30,
            LTCTVStandard::LTCTV_FILM_24 => 24,
        }
    }

    /// Tells whether the standard is 625 lines at 25 frames per second.
    pub fn is_625_50(self) -> (r: bool)
        ensures
            r == self.is_625(),
    {
        match self {
            LTCTVStandard::LTCTV_625_50 => true,
            _ => false,
        }
    }
}

impl Default for LTCTVStandard {
    fn default() -> (r: Self)
        ensures
            r == LTCTVStandard::LTCTV_525_60,
    {
        LTCTVStandard::LTCTV_525_60
    }
}

} // verus!
