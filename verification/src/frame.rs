//! The frame as ten bytes, and how the fields are packed into them.

use crate::arith::TimecodeWasWrapped;
use crate::error::TimecodeError;
use crate::fields::{one_if, FrameFields};
use crate::flags::LtcBgFlags;
use crate::standard::LTCTVStandard;
use crate::timecode::SMPTETimecode;
use vstd::prelude::*;

verus! {

/// Number of bits in a frame.
pub const LTC_FRAME_BIT_COUNT: usize = 80;

/// Number of bytes in a frame.
pub const LTC_FRAME_BYTES: usize = 10;

/// One frame of linear timecode: eighty bits in ten bytes, in the order in
/// which they are sent, the lowest bit of byte 0 first.
///
/// Every value of the ten bytes is a frame; the fields are read out of the
/// bytes and are never out of range.
#[derive(Debug, Clone, Copy, PartialEq, Eq)]
pub struct LTCFrame {
    pub ltc: [u8; 10],
}

impl View for LTCFrame {
    type V = Seq<u8>;

    open spec fn view(&self) -> Seq<u8> {
        self.ltc@
    }
}

/// The low four bits of a byte.
#[verifier::opaque]
pub open spec fn low4(b: u8) -> u8 {
    b % 16
}

/// The low three bits of a byte.
#[verifier::opaque]
pub open spec fn low3(b: u8) -> u8 {
    b % 8
}

/// The low two bits of a byte.
#[verifier::opaque]
pub open spec fn low2(b: u8) -> u8 {
    b % 4
}

/// The high four bits of a byte.
#[verifier::opaque]
pub open spec fn high4(b: u8) -> u8 {
    b / 16
}

/// Bit 2 of a byte.
#[verifier::opaque]
pub open spec fn flag2(b: u8) -> bool {
    (b / 4) % 2 == 1
}

/// Bit 3 of a byte.
#[verifier::opaque]
pub open spec fn flag3(b: u8) -> bool {
    (b / 8) % 2 == 1
}

/// The byte made of two groups of four bits.
#[verifier::opaque]
pub open spec fn join44(low: u8, high: u8) -> u8 {
    (low + 16 * high) as u8
}

/// The byte made of a group of three bits, a flag and a group of four.
#[verifier::opaque]
pub open spec fn join314(low: u8, f3: bool, high: u8) -> u8 {
    (low + 8 * one_if(f3) + 16 * high) as u8
}

/// The byte made of a group of two bits, two flags and a group of four.
#[verifier::opaque]
pub open spec fn join2114(low: u8, f2: bool, f3: bool, high: u8) -> u8 {
    (low + 4 * one_if(f2) + 8 * one_if(f3) + 16 * high) as u8
}

/// The number that two bytes make, the first the lower.
#[verifier::opaque]
pub open spec fn join_word(low: u8, high: u8) -> u16 {
    (low + 256 * high) as u16
}

/// The lower byte of a word.
#[verifier::opaque]
pub open spec fn word_low(w: u16) -> u8 {
    (w % 256) as u8
}

/// The higher byte of a word.
#[verifier::opaque]
pub open spec fn word_high(w: u16) -> u8 {
    (w / 256) as u8
}

proof fn lemma_split44(b: u8)
    ensures
        low4(b) < 16,
        high4(b) < 16,
        join44(low4(b), high4(b)) == b,
{
    reveal(low4);
    reveal(high4);
    reveal(join44);
}

proof fn lemma_join44(low: u8, high: u8)
    requires
        low < 16,
        high < 16,
    ensures
        low4(join44(low, high)) == low,
        high4(join44(low, high)) == high,
{
    reveal(low4);
    reveal(high4);
    reveal(join44);
}

proof fn lemma_split314(b: u8)
    ensures
        low3(b) < 8,
        high4(b) < 16,
        join314(low3(b), flag3(b), high4(b)) == b,
{
    reveal(low3);
    reveal(flag3);
    reveal(high4);
    reveal(join314);
}

proof fn lemma_join314(low: u8, f3: bool, high: u8)
    requires
        low < 8,
        high < 16,
    ensures
        low3(join314(low, f3, high)) == low,
        flag3(join314(low, f3, high)) == f3,
        high4(join314(low, f3, high)) == high,
{
    reveal(low3);
    reveal(flag3);
    reveal(high4);
    reveal(join314);
}

proof fn lemma_split2114(b: u8)
    ensures
        low2(b) < 4,
        high4(b) < 16,
        join2114(low2(b), flag2(b), flag3(b), high4(b)) == b,
{
    reveal(low2);
    reveal(flag2);
    reveal(flag3);
    reveal(high4);
    reveal(join2114);
}

proof fn lemma_join2114(low: u8, f2: bool, f3: bool, high: u8)
    requires
        low < 4,
        high < 16,
    ensures
        low2(join2114(low, f2, f3, high)) == low,
        flag2(join2114(low, f2, f3, high)) == f2,
        flag3(join2114(low, f2, f3, high)) == f3,
        high4(join2114(low, f2, f3, high)) == high,
{
    reveal(low2);
    reveal(flag2);
    reveal(flag3);
    reveal(high4);
    reveal(join2114);
}

proof fn lemma_word(low: u8, high: u8, w: u16)
    ensures
        word_low(join_word(low, high)) == low,
        word_high(join_word(low, high)) == high,
        join_word(word_low(w), word_high(w)) == w,
{
    reveal(join_word);
    reveal(word_low);
    reveal(word_high);
}

/// The fields that ten bytes hold.
pub open spec fn fields_of(b: Seq<u8>) -> FrameFields {
    FrameFields {
        frame_units: low4(b[0]),
        user1: high4(b[0]),
        frame_tens: low2(b[1]),
        dfbit: flag2(b[1]),
        col_frame: flag3(b[1]),
        user2: high4(b[1]),
        secs_units: low4(b[2]),
        user3: high4(b[2]),
        secs_tens: low3(b[3]),
        biphase_mark_phase_correction: flag3(b[3]),
        user4: high4(b[3]),
        mins_units: low4(b[4]),
        user5: high4(b[4]),
        mins_tens: low3(b[5]),
        binary_group_flag_bit0: flag3(b[5]),
        user6: high4(b[5]),
        hours_units: low4(b[6]),
        user7: high4(b[6]),
        hours_tens: low2(b[7]),
        binary_group_flag_bit1: flag2(b[7]),
        binary_group_flag_bit2: flag3(b[7]),
        user8: high4(b[7]),
        sync_word: join_word(b[8], b[9]),
    }
}

/// The ten bytes that hold the given fields.
pub open spec fn bytes_of(f: FrameFields) -> Seq<u8> {
    seq![
        join44(f.frame_units, f.user1),
        join2114(f.frame_tens, f.dfbit, f.col_frame, f.user2),
        join44(f.secs_units, f.user3),
        join314(f.secs_tens, f.biphase_mark_phase_correction, f.user4),
        join44(f.mins_units, f.user5),
        join314(f.mins_tens, f.binary_group_flag_bit0, f.user6),
        join44(f.hours_units, f.user7),
        join2114(f.hours_tens, f.binary_group_flag_bit1, f.binary_group_flag_bit2, f.user8),
        word_low(f.sync_word),
        word_high(f.sync_word),
    ]
}

/// Unpacking what was packed gives the fields back.
pub proof fn lemma_fields_of_bytes_of(f: FrameFields)
    requires
        f.wf(),
    ensures
        bytes_of(f).len() == 10,
        fields_of(bytes_of(f)) == f,
{
    lemma_join44(f.frame_units, f.user1);
    lemma_join2114(f.frame_tens, f.dfbit, f.col_frame, f.user2);
    lemma_join44(f.secs_units, f.user3);
    lemma_join314(f.secs_tens, f.biphase_mark_phase_correction, f.user4);
    lemma_join44(f.mins_units, f.user5);
    lemma_join314(f.mins_tens, f.binary_group_flag_bit0, f.user6);
    lemma_join44(f.hours_units, f.user7);
    lemma_join2114(f.hours_tens, f.binary_group_flag_bit1, f.binary_group_flag_bit2, f.user8);
    lemma_word(0, 0, f.sync_word);
}

/// Packing what was unpacked gives the bytes back, and what is unpacked is
/// always in range.
pub proof fn lemma_bytes_of_fields_of(b: Seq<u8>)
    requires
        b.len() == 10,
    ensures
        fields_of(b).wf(),
        bytes_of(fields_of(b)) == b,
{
    lemma_split44(b[0]);
    lemma_split2114(b[1]);
    lemma_split44(b[2]);
    lemma_split314(b[3]);
    lemma_split44(b[4]);
    lemma_split314(b[5]);
    lemma_split44(b[6]);
    lemma_split2114(b[7]);
    lemma_word(b[8], b[9], 0);
    assert(bytes_of(fields_of(b)) =~= b);
}

/// Two frames with the same fields are the same ten bytes.
pub proof fn lemma_fields_decide_bytes(a: Seq<u8>, b: Seq<u8>)
    requires
        a.len() == 10,
        b.len() == 10,
        fields_of(a) == fields_of(b),
    ensures
        a == b,
{
    lemma_bytes_of_fields_of(a);
    lemma_bytes_of_fields_of(b);
}

fn bit_value(b: bool) -> (r: u8)
    ensures
        r == one_if(b),
{
    if b {
        1
    } else {
        0
    }
}

fn split44(b: u8) -> (r: (u8, u8))
    ensures
        r.0 == low4(b),
        r.1 == high4(b),
{
    reveal(low4);
    reveal(high4);
    (b % 16, b / 16)
}

fn split314(b: u8) -> (r: (u8, bool, u8))
    ensures
        r.0 == low3(b),
        r.1 == flag3(b),
        r.2 == high4(b),
{
    reveal(low3);
    reveal(flag3);
    reveal(high4);
    (b % 8, (b / 8) % 2 == 1, b / 16)
}

fn split2114(b: u8) -> (r: (u8, bool, bool, u8))
    ensures
        r.0 == low2(b),
        r.1 == flag2(b),
        r.2 == flag3(b),
        r.3 == high4(b),
{
    reveal(low2);
    reveal(flag2);
    reveal(flag3);
    reveal(high4);
    (b % 4, (b / 4) % 2 == 1, (b / 8) % 2 == 1, b / 16)
}

fn make44(low: u8, high: u8) -> (r: u8)
    requires
        low < 16,
        high < 16,
    ensures
        r == join44(low, high),
{
    reveal(join44);
    low + 16 * high
}

fn make314(low: u8, f3: bool, high: u8) -> (r: u8)
    requires
        low < 8,
        high < 16,
    ensures
        r == join314(low, f3, high),
{
    reveal(join314);
    low + 8 * bit_value(f3) + 16 * high
}

fn make2114(low: u8, f2: bool, f3: bool, high: u8) -> (r: u8)
    requires
        low < 4,
        high < 16,
    ensures
        r == join2114(low, f2, f3, high),
{
    reveal(join2114);
    low + 4 * bit_value(f2) + 8 * bit_value(f3) + 16 * high
}

impl LTCFrame {
    /// The fields that the frame holds.
    pub open spec fn fields(self) -> FrameFields {
        fields_of(self@)
    }

    /// A frame that is all zero but for the sync word.
    pub fn new() -> (r: LTCFrame)
        ensures
            r.fields() == FrameFields::blank(),
            r@ == bytes_of(FrameFields::blank()),
            r@ == seq![0u8, 0u8, 0u8, 0u8, 0u8, 0u8, 0u8, 0u8, 0xFCu8, 0xBFu8],
    {
        let r = LTCFrame { ltc: [0, 0, 0, 0, 0, 0, 0, 0, 0xFC, 0xBF] };
        proof {
            reveal(join44);
            reveal(join314);
            reveal(join2114);
            reveal(word_low);
            reveal(word_high);
            assert(r@ =~= bytes_of(FrameFields::blank()));
            assert(r@ =~= seq![0u8, 0u8, 0u8, 0u8, 0u8, 0u8, 0u8, 0u8, 0xFCu8, 0xBFu8]);
            lemma_fields_of_bytes_of(FrameFields::blank());
        }
        r
    }

    /// Reads the fields out of the bytes.
    pub fn unpack(&self) -> (f: FrameFields)
        ensures
            f == self.fields(),
            f.wf(),
            bytes_of(f) == self@,
    {
        proof {
            lemma_bytes_of_fields_of(self@);
        }
        let b = &self.ltc;
        let (frame_units, user1) = split44(b[0]);
        let (frame_tens, dfbit, col_frame, user2) = split2114(b[1]);
        let (secs_units, user3) = split44(b[2]);
        let (secs_tens, biphase_mark_phase_correction, user4) = split314(b[3]);
        let (mins_units, user5) = split44(b[4]);
        let (mins_tens, binary_group_flag_bit0, user6) = split314(b[5]);
        let (hours_units, user7) = split44(b[6]);
        let (hours_tens, binary_group_flag_bit1, binary_group_flag_bit2, user8) = split2114(b[7]);
        reveal(join_word);
        let sync_word: u16 = b[8] as u16 + 256 * (b[9] as u16);
        FrameFields {
            frame_units,
            user1,
            frame_tens,
            dfbit,
            col_frame,
            user2,
            secs_units,
            user3,
            secs_tens,
            biphase_mark_phase_correction,
            user4,
            mins_units,
            user5,
            mins_tens,
            binary_group_flag_bit0,
            user6,
            hours_units,
            user7,
            hours_tens,
            binary_group_flag_bit1,
            binary_group_flag_bit2,
            user8,
            sync_word,
        }
    }

    /// Packs fields into the ten bytes.
    pub fn pack(f: &FrameFields) -> (r: LTCFrame)
        requires
            f.wf(),
        ensures
            r@ == bytes_of(*f),
            r.fields() == *f,
    {
        let b0: u8 = make44(f.frame_units, f.user1);
        let b1: u8 = make2114(f.frame_tens, f.dfbit, f.col_frame, f.user2);
        let b2: u8 = make44(f.secs_units, f.user3);
        let b3: u8 = make314(f.secs_tens, f.biphase_mark_phase_correction, f.user4);
        let b4: u8 = make44(f.mins_units, f.user5);
        let b5: u8 = make314(f.mins_tens, f.binary_group_flag_bit0, f.user6);
        let b6: u8 = make44(f.hours_units, f.user7);
        let b7: u8 = make2114(
            f.hours_tens,
            f.binary_group_flag_bit1,
            f.binary_group_flag_bit2,
            f.user8,
        );
        reveal(word_low);
        reveal(word_high);
        let b8: u8 = (f.sync_word % 256) as u8;
        let b9: u8 = (f.sync_word / 256) as u8;
        let r = LTCFrame { ltc: [b0, b1, b2, b3, b4, b5, b6, b7, b8, b9] };
        proof {
            assert(r@ =~= bytes_of(*f));
            lemma_fields_of_bytes_of(*f);
        }
        r
    }

    /// The time that the frame shows.
    ///
    /// The date and the time zone are read from the user bits if `flags`
    /// has `use_date`; otherwise they read as zero and universal time.
    pub fn to_timecode(&self, flags: LtcBgFlags) -> (t: SMPTETimecode)
        ensures
            t == self.fields().to_time(flags),
    {
        self.unpack().to_timecode(flags)
    }

    /// A fresh frame that shows the time `timecode`.
    pub fn from_timecode(timecode: &SMPTETimecode, standard: LTCTVStandard, flags: LtcBgFlags) -> (r:
        LTCFrame)
        ensures
            r.fields() == FrameFields::blank().with_time(*timecode, standard, flags),
            r@ == bytes_of(r.fields()),
            flags.parity_applies() ==> r.fields().parity_ok(),
    {
        let mut f = FrameFields::new();
        f.set_timecode(timecode, standard, flags);
        LTCFrame::pack(&f)
    }

    /// Sets the frame to the time `timecode`, keeping what the time does
    /// not cover: the flags, the sync word and, without a date, the user
    /// bits.
    pub fn from_timecode_inplace(
        &mut self,
        timecode: &SMPTETimecode,
        standard: LTCTVStandard,
        flags: LtcBgFlags,
    )
        ensures
            final(self).fields() == old(self).fields().with_time(*timecode, standard, flags),
            final(self)@ == bytes_of(final(self).fields()),
            final(self).fields().dfbit ==> !final(self).fields().at_dropped_number(),
            flags.parity_applies() ==> final(self).fields().parity_ok(),
    {
        let mut f = self.unpack();
        f.set_timecode(timecode, standard, flags);
        *self = LTCFrame::pack(&f);
    }

    /// Advances the frame by one and reports whether midnight was crossed.
    ///
    /// The call fails when midnight was crossed, the user bits carry the
    /// date and the month in them is not `1..=12`; the clock has then moved
    /// on and the date has not.
    pub fn increment(&mut self, fps: i32, standard: LTCTVStandard, flags: LtcBgFlags) -> (r: Result<
        TimecodeWasWrapped,
        TimecodeError,
    >)
        ensures
            final(self).fields() == old(self).fields().incremented(fps as int, standard, flags),
            final(self)@ == bytes_of(final(self).fields()),
            r == old(self).fields().increment_report(fps as int, flags),
            final(self).fields().dfbit ==> !final(self).fields().at_dropped_number(),
            flags.parity_applies() ==> final(self).fields().parity_ok(),
    {
        let mut f = self.unpack();
        let r = f.increment(fps, standard, flags);
        *self = LTCFrame::pack(&f);
        r
    }

    /// Moves the frame back by one and reports whether midnight was crossed.
    ///
    /// The call fails when midnight was crossed, the user bits carry the
    /// date and the month in them is not `1..=12`; the clock has then moved
    /// back and the date has not.
    pub fn decrement(&mut self, fps: i32, standard: LTCTVStandard, flags: LtcBgFlags) -> (r: Result<
        TimecodeWasWrapped,
        TimecodeError,
    >)
        ensures
            final(self).fields() == old(self).fields().decremented(fps as int, standard, flags),
            final(self)@ == bytes_of(final(self).fields()),
            r == old(self).fields().decrement_report(flags),
            final(self).fields().dfbit ==> !final(self).fields().at_dropped_number(),
            flags.parity_applies() ==> final(self).fields().parity_ok(),
    {
        let mut f = self.unpack();
        let r = f.decrement(fps, standard, flags);
        *self = LTCFrame::pack(&f);
        r
    }

    /// Writes the parity bit so that the ones among all eighty bits are
    /// even. To be called after any change made to the bytes by hand.
    pub fn set_parity(&mut self, standard: LTCTVStandard)
        ensures
            final(self).fields() == old(self).fields().with_parity(standard),
            final(self)@ == bytes_of(final(self).fields()),
            final(self).fields().parity_ok(),
    {
        let mut f = self.unpack();
        f.set_parity(standard);
        *self = LTCFrame::pack(&f);
    }

    /// The three binary-group flags as one number: flag 2 counts four, flag
    /// 1 two and flag 0 one.
    ///
    /// At 25 frames per second flag 0 sits in bit 27 and flag 2 in bit 43;
    /// otherwise flag 0 sits in bit 43 and flag 2 in bit 59.
    pub fn parse_bcg_flags(&self, standard: LTCTVStandard) -> (r: i32)
        ensures
            r == self.fields().binary_group_flags(standard),
            0 <= r < 8,
    {
        self.unpack().parse_bcg_flags(standard)
    }

    /// The 32 user bits as one number, the first group lowest.
    pub fn get_user_bits(&self) -> (r: u32)
        ensures
            r == self.fields().user_bits(),
    {
        self.unpack().get_user_bits()
    }

    /// Writes the 32 user bits, the first group from the lowest four bits.
    pub fn set_user_bits(&mut self, data: u32)
        ensures
            final(self).fields() == old(self).fields().put_user_bits(data as int),
            final(self)@ == bytes_of(final(self).fields()),
            final(self).fields().user_bits() == data,
    {
        let mut f = self.unpack();
        f.set_user_bits(data);
        proof {
            FrameFields::lemma_user_bits_kept(old(self).fields(), data);
        }
        *self = LTCFrame::pack(&f);
    }

    /// One if the frame is numbered in drop-frame fashion, else zero.
    pub fn dfbit(&self) -> (r: u32)
        ensures
            r == one_if(self.fields().dfbit),
    {
        reveal(flag2);
        if (self.ltc[1] / 4) % 2 == 1 {
            1
        } else {
            0
        }
    }

    /// The bit at place `i` of the eighty, as sent: zero or one.
    pub open spec fn bit(self, i: int) -> int {
        (self@[i / 8] as int / pow2(i % 8)) % 2
    }

    /// Reads the bit at place `i`.
    pub fn get_bit(&self, i: usize) -> (r: bool)
        requires
            i < 80,
        ensures
            r == (self.bit(i as int) == 1),
    {
        let b: u8 = self.ltc[i / 8];
        let k: usize = i % 8;
        let shifted: u8 = if k == 0 {
            b
        } else if k == 1 {
            b / 2
        } else if k == 2 {
            b / 4
        } else if k == 3 {
            b / 8
        } else if k == 4 {
            b / 16
        } else if k == 5 {
            b / 32
        } else if k == 6 {
            b / 64
        } else {
            b / 128
        };
        shifted % 2 == 1
    }
}

/// Two to the power `k` for the places of a byte.
pub open spec fn pow2(k: int) -> int {
    if k <= 0 {
        1
    } else if k == 1 {
        2
    } else if k == 2 {
        4
    } else if k == 3 {
        8
    } else if k == 4 {
        16
    } else if k == 5 {
        32
    } else if k == 6 {
        64
    } else {
        128
    }
}

/// The offset in samples at which frames of `num / den` samples align with
/// the picture: four lines of 525 at 525/60, one line of 625 at 625/50,
/// rounded to the nearest sample with halves upward; zero for the other
/// standards and where `den` is zero.
pub open spec fn frame_alignment(num: int, den: int, standard: LTCTVStandard) -> int {
    if den <= 0 {
        0
    } else {
        match standard {
            LTCTVStandard::LTCTV_525_60 => (8 * num + 525 * den) / (1050 * den),
            LTCTVStandard::LTCTV_625_50 => (2 * num + 625 * den) / (1250 * den),
            _ => 0,
        }
    }
}

/// The alignment is the whole number nearest to the share of the frame
/// that it stands for.
pub proof fn lemma_frame_alignment_is_nearest(num: int, den: int, standard: LTCTVStandard)
    requires
        0 <= num,
        0 < den,
    ensures
        standard == LTCTVStandard::LTCTV_525_60 ==> {
            let r = frame_alignment(num, den, standard);
            2 * r * 525 * den - 525 * den <= 8 * num < 2 * r * 525 * den + 525 * den
        },
        standard == LTCTVStandard::LTCTV_625_50 ==> {
            let r = frame_alignment(num, den, standard);
            2 * r * 625 * den - 625 * den <= 2 * num < 2 * r * 625 * den + 625 * den
        },
{
    if standard == LTCTVStandard::LTCTV_525_60 {
        let a = 8 * num + 525 * den;
        let b = 1050 * den;
        let r = a / b;
        assert(b * r <= a < b * r + b) by (nonlinear_arith)
            requires
                r == a / b,
                b > 0,
                a >= 0,
        ;
        assert(b * r == 2 * r * 525 * den) by (nonlinear_arith)
            requires
                b == 1050 * den,
        ;
    }
    if standard == LTCTVStandard::LTCTV_625_50 {
        let a = 2 * num + 625 * den;
        let b = 1250 * den;
        let r = a / b;
        assert(b * r <= a < b * r + b) by (nonlinear_arith)
            requires
                r == a / b,
                b > 0,
                a >= 0,
        ;
        assert(b * r == 2 * r * 625 * den) by (nonlinear_arith)
            requires
                b == 1250 * den,
        ;
    }
}

/// The offset in samples at which frames of `samples_num / samples_den`
/// samples align with the picture under `standard`.
pub fn calc_frame_alignment(samples_num: u32, samples_den: u32, standard: LTCTVStandard) -> (r: i64)
    ensures
        r == frame_alignment(samples_num as int, samples_den as int, standard),
        r >= 0,
{
    if samples_den == 0 {
        return 0;
    }
    let n: u64 = samples_num as u64;
    let d: u64 = samples_den as u64;
    match standard {
        LTCTVStandard::LTCTV_525_60 => ((8 * n + 525 * d) / (1050 * d)) as i64,
        LTCTVStandard::LTCTV_625_50 => ((2 * n + 625 * d) / (1250 * d)) as i64,
        _ => 0,
    }
}

impl LTCFrame {
    /// The offset in samples at which frames of `samples_num / samples_den`
    /// samples align with the picture under `standard`.
    pub fn ltc_frame_alignment(samples_num: u32, samples_den: u32, standard: LTCTVStandard) -> (r:
        i64)
        ensures
            r == frame_alignment(samples_num as int, samples_den as int, standard),
            r >= 0,
    {
        calc_frame_alignment(samples_num, samples_den, standard)
    }
}

impl Default for LTCFrame {
    fn default() -> (r: Self)
        ensures
            r.fields() == FrameFields::blank(),
    {
        LTCFrame::new()
    }
}

} // verus!
