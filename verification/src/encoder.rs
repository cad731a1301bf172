//! The encoder: from a frame to biphase-mark coded samples.
//!
//! The clock of the bit cells counts in whole ticks, so that the lengths of
//! the cells add up to the true time without drift, whatever the rates.

use crate::arith::TimecodeWasWrapped;
use crate::error::LTCEncoderError;
use crate::fields::FrameFields;
use crate::flags::LtcBgFlags;
use crate::frame::{bytes_of, fields_of, LTCFrame};
use crate::standard::LTCTVStandard;
use crate::timecode::SMPTETimecode;
use crate::wave::{bit_of, byte_bits, max_ticks, Ink, Nib, Pen, Stroke};
use vstd::prelude::*;

verus! {

/// The speed at which a signal is encoded in real time. Speeds are given in
/// thousandths; a negative speed sends each byte backwards.
pub const NOMINAL_SPEED: i32 = 1000;

/// The peak of a new encoder: 3 dB below full scale.
pub const DEFAULT_PEAK: u8 = 90;

/// The largest number of samples that a buffer may be asked to hold.
pub const MAX_BUFFER_SIZE: u64 = 0x7FFF_FFFF;

/// Samples in a frame, rounded up, at `sample_rate` samples and
/// `fps_num / fps_den` frames per second.
pub open spec fn frame_samples(sample_rate: int, fps_num: int, fps_den: int) -> int {
    (sample_rate * fps_den + fps_num - 1) / fps_num
}

/// The buffer that holds one frame: one more than its samples.
pub open spec fn buffer_size_for(sample_rate: int, fps_num: int, fps_den: int) -> int {
    1 + frame_samples(sample_rate, fps_num, fps_den)
}

/// The rates describe a signal whose frames fit a buffer.
pub open spec fn rates_ok(sample_rate: int, fps_num: int, fps_den: int) -> bool {
    &&& sample_rate >= 1
    &&& fps_num >= 1
    &&& fps_den >= 1
    &&& buffer_size_for(sample_rate, fps_num, fps_den) <= MAX_BUFFER_SIZE
}

/// Ticks in a sample: there are 160 half cells in a frame and 1000
/// thousandths in a speed.
pub open spec fn unit_of(fps_num: int) -> int {
    160_000 * fps_num
}

/// The frame rate is 29.97 to two places: the rate of drop-frame
/// numbering.
pub open spec fn is_drop_rate(fps_num: int, fps_den: int) -> bool {
    5993 * fps_den <= 200 * fps_num < 5995 * fps_den
}

/// The frame rate rounded to whole frames, halves upward.
pub open spec fn rounded_fps(fps_num: int, fps_den: int) -> int {
    (2 * fps_num + fps_den) / (2 * fps_den)
}

/// The number without its sign.
pub open spec fn abs_int(x: int) -> int {
    if x < 0 {
        -x
    } else {
        x
    }
}

/// The frame of an encoder after it was set up for a rate: the drop-frame
/// bit says whether the rate is 29.97, and the parity bit is written where
/// `flags` keep one.
pub open spec fn configured_frame(
    f: FrameFields,
    fps_num: int,
    fps_den: int,
    standard: LTCTVStandard,
    flags: LtcBgFlags,
) -> FrameFields {
    let marked = FrameFields { dfbit: is_drop_rate(fps_num, fps_den), ..f };
    if flags.parity_applies() {
        marked.with_parity(standard)
    } else {
        marked
    }
}

/// What an encoder holds.
pub ghost struct EncoderView {
    /// The ten bytes of the current frame.
    pub frame: Seq<u8>,
    pub sample_rate: int,
    pub fps_num: int,
    pub fps_den: int,
    pub standard: LTCTVStandard,
    pub flags: LtcBgFlags,
    /// Distance of the two levels from the centre, `1..=127`.
    pub peak: int,
    /// Edge shaping coefficient in 65536ths; zero for square edges.
    pub filter: int,
    /// The level of the last pulse.
    pub level: bool,
    /// Ticks that are due but make no whole sample yet.
    pub rem: int,
    /// A bit cell was drawn and no closing edge after it.
    pub pending: bool,
    /// One more than the most samples that the buffer takes.
    pub bufsize: int,
    /// The samples that were encoded and not yet handed out.
    pub samples: Seq<u8>,
}

impl EncoderView {
    /// What every operation of the encoder keeps: rates of at least one, a
    /// peak within `1..=127`, a shaping coefficient of at most one, less
    /// than a sample carried, and fewer samples than the buffer size.
    pub open spec fn wf(self) -> bool {
        &&& self.frame.len() == 10
        &&& 1 <= self.sample_rate <= u32::MAX
        &&& 1 <= self.fps_num <= u32::MAX
        &&& 1 <= self.fps_den <= u32::MAX
        &&& 1 <= self.peak <= 127
        &&& 0 <= self.filter <= 65536
        &&& 0 <= self.rem < unit_of(self.fps_num)
        &&& 1 <= self.bufsize <= MAX_BUFFER_SIZE
        &&& self.samples.len() < self.bufsize
    }

    /// The fields of the current frame.
    pub open spec fn fields(self) -> FrameFields {
        fields_of(self.frame)
    }

    /// How pulses are drawn at `speed` thousandths of real time.
    pub open spec fn stroke(self, speed: int) -> Stroke {
        Stroke {
            unit: unit_of(self.fps_num),
            ticks: self.sample_rate * self.fps_den * abs_int(speed),
            low: (128 - self.peak) as u8,
            high: (128 + self.peak) as u8,
            filter: self.filter,
            inverted: self.flags.reverse_phase,
        }
    }

    /// Where the drawing stands.
    pub open spec fn pen(self) -> Pen {
        Pen { level: self.level, rem: self.rem, wave: self.samples }
    }

    /// The encoder with the drawing at `pen`.
    pub open spec fn drawn(self, pen: Pen, pending: bool) -> EncoderView {
        EncoderView { level: pen.level, rem: pen.rem, samples: pen.wave, pending, ..self }
    }

    /// The pen after byte `byte` of the frame was drawn at `speed`.
    pub open spec fn byte_pen(self, byte: int, speed: int) -> Pen {
        self.pen().bits(self.stroke(speed), byte_bits(self.frame[byte], speed < 0))
    }

    /// Byte `byte` can be encoded at `speed`: there is such a byte, the
    /// speed is not zero, and its samples fit the buffer.
    pub open spec fn byte_fits(self, byte: int, speed: int) -> bool {
        &&& 0 <= byte <= 9
        &&& speed != 0
        &&& self.byte_pen(byte, speed).wave.len() < self.bufsize
    }

    /// The encoder after an attempt to encode byte `byte` at `speed`:
    /// either all eight bit cells are drawn, or nothing has changed.
    pub open spec fn after_byte(self, byte: int, speed: int) -> EncoderView {
        if self.byte_fits(byte, speed) {
            self.drawn(self.byte_pen(byte, speed), true)
        } else {
            self
        }
    }

    /// The encoder after attempts on the first `k` bytes of the frame, in
    /// order, at real-time speed.
    pub open spec fn after_bytes(self, k: int) -> EncoderView
        decreases k,
    {
        if k <= 0 {
            self
        } else {
            self.after_bytes(k - 1).after_byte(k - 1, NOMINAL_SPEED as int)
        }
    }

    /// The encoder after attempts on the last `k` bytes of the frame, last
    /// byte first, each sent backwards at real-time speed.
    pub open spec fn after_bytes_reversed(self, k: int) -> EncoderView
        decreases k,
    {
        if k <= 0 {
            self
        } else {
            self.after_bytes_reversed(k - 1).after_byte(10 - k, -(NOMINAL_SPEED as int))
        }
    }

    /// The pen after the closing edge: one more change of level and half
    /// a bit cell at real-time speed.
    pub open spec fn closing_pen(self) -> Pen {
        self.pen().pulse(
            self.stroke(NOMINAL_SPEED as int),
            self.stroke(NOMINAL_SPEED as int).ticks,
        )
    }

    /// The signal can be closed within the buffer.
    pub open spec fn closing_fits(self) -> bool {
        !self.pending || self.closing_pen().wave.len() < self.bufsize
    }

    /// The encoder after an attempt to close the signal: where a bit cell
    /// was drawn and no closing edge after it, the edge and half a cell
    /// follow if they fit.
    pub open spec fn after_closing(self) -> EncoderView {
        if self.pending && self.closing_fits() {
            self.drawn(self.closing_pen(), false)
        } else {
            self
        }
    }

    /// The signal can be closed for handing out: a bit cell is pending and
    /// the samples with the closing half cell are no more than a vector
    /// holds.
    pub open spec fn closes_on_take(self) -> bool {
        self.pending && self.closing_pen().wave.len() <= usize::MAX
    }

    /// The samples that are handed out when the signal is closed for it:
    /// those of the buffer and, where a bit cell is pending, a closing
    /// edge with half a cell, whether or not the buffer would take them.
    pub open spec fn closed_samples(self) -> Seq<u8> {
        if self.closes_on_take() {
            self.closing_pen().wave
        } else {
            self.samples
        }
    }

    /// The encoder after its samples were handed out with the signal
    /// closed.
    pub open spec fn after_closed_take(self) -> EncoderView {
        if self.closes_on_take() {
            self.drawn(
                Pen {
                    wave: Seq::empty(),
                    ..self.closing_pen()
                },
                false,
            )
        } else {
            EncoderView { samples: Seq::empty(), ..self }
        }
    }

    /// The encoder set up anew for the given rates.
    pub open spec fn reconfigured(
        self,
        sample_rate: int,
        fps_num: int,
        fps_den: int,
        standard: LTCTVStandard,
        flags: LtcBgFlags,
    ) -> EncoderView {
        EncoderView {
            frame: bytes_of(configured_frame(self.fields(), fps_num, fps_den, standard, flags)),
            sample_rate,
            fps_num,
            fps_den,
            standard,
            flags,
            filter: 0,
            level: false,
            rem: unit_of(fps_num) / 2,
            pending: false,
            samples: Seq::empty(),
            ..self
        }
    }

    /// A new encoder for the given rates.
    pub open spec fn fresh(
        sample_rate: int,
        fps_num: int,
        fps_den: int,
        standard: LTCTVStandard,
        flags: LtcBgFlags,
    ) -> EncoderView {
        EncoderView {
            frame: bytes_of(
                configured_frame(FrameFields::blank(), fps_num, fps_den, standard, flags),
            ),
            sample_rate,
            fps_num,
            fps_den,
            standard,
            flags,
            peak: DEFAULT_PEAK as int,
            filter: 0,
            level: false,
            rem: unit_of(fps_num) / 2,
            pending: false,
            bufsize: buffer_size_for(sample_rate, fps_num, fps_den),
            samples: Seq::empty(),
        }
    }

    /// The whole frame rate by which the timecode is counted.
    pub open spec fn counting_fps(self) -> int {
        let r = rounded_fps(self.fps_num, self.fps_den);
        if r > i32::MAX {
            i32::MAX as int
        } else {
            r
        }
    }
}

/// The eighty bits of a frame in the order in which they are sent.
pub open spec fn frame_bits(frame: Seq<u8>) -> Seq<bool> {
    Seq::new(80, |i: int| bit_of(frame[i / 8], i % 8))
}

impl EncoderView {
    /// The pen after the first `k` bytes of the frame were drawn at
    /// real-time speed, whatever the size of the buffer.
    pub open spec fn frame_pen(self, k: int) -> Pen {
        self.pen().bits(self.stroke(NOMINAL_SPEED as int), frame_bits(self.frame).take(8 * k))
    }

    /// The buffer is empty and takes a frame at the rates of the encoder.
    pub open spec fn ready_for_frame(self) -> bool {
        &&& self.wf()
        &&& self.samples.len() == 0
        &&& self.bufsize >= buffer_size_for(self.sample_rate, self.fps_num, self.fps_den)
    }

    /// At real-time speed the bytes of a frame never draw more samples
    /// than a frame has, rounded up.
    pub proof fn lemma_frame_pen_is_short(self, k: int)
        requires
            self.ready_for_frame(),
            0 <= k <= 10,
        ensures
            self.frame_pen(k).wave.len() * unit_of(self.fps_num) + self.frame_pen(k).rem
                == self.rem + k * 16_000 * self.sample_rate * self.fps_den,
            0 <= self.frame_pen(k).rem,
            k > 0 ==> self.frame_pen(k).rem < unit_of(self.fps_num),
            self.frame_pen(k).wave.len() <= frame_samples(
                self.sample_rate,
                self.fps_num,
                self.fps_den,
            ),
    {
        let s = self.stroke(NOMINAL_SPEED as int);
        let bits = frame_bits(self.frame).take(8 * k);
        let p = self.frame_pen(k);
        self.pen().lemma_bits_keep_time(s, bits);
        let len = p.wave.len() as int;
        let unit = unit_of(self.fps_num);
        let sr = self.sample_rate;
        let den = self.fps_den;
        let num = self.fps_num;
        assert(s.ticks == sr * den * 1000);
        assert(2 * s.ticks * bits.len() == k * 16_000 * sr * den) by (nonlinear_arith)
            requires
                s.ticks == sr * den * 1000,
                bits.len() == 8 * k,
        ;
        assert(self.pen().covered(s) == self.rem) by (nonlinear_arith)
            requires
                self.pen().covered(s) == self.pen().wave.len() * s.unit + self.pen().rem,
                self.pen().wave.len() == 0,
                self.pen().rem == self.rem,
        ;
        assert(len * unit + p.rem == self.rem + k * 16_000 * sr * den);
        assert(len * num < num + sr * den) by (nonlinear_arith)
            requires
                len * unit + p.rem == self.rem + k * 16_000 * sr * den,
                unit == 160_000 * num,
                0 <= p.rem,
                0 <= self.rem < unit,
                0 <= k <= 10,
                0 <= sr,
                0 <= den,
                1 <= num,
                0 <= len,
        ;
        assert(len <= (sr * den + num - 1) / num) by (nonlinear_arith)
            requires
                len * num < num + sr * den,
                1 <= num,
                0 <= len,
        ;
    }

    /// With an empty buffer that takes a frame at the rates of the
    /// encoder, every byte of the frame is encoded.
    pub proof fn lemma_bytes_fit(self, k: int)
        requires
            self.ready_for_frame(),
            0 <= k <= 10,
        ensures
            k == 0 ==> self.after_bytes(k) == self,
            k > 0 ==> self.after_bytes(k) == self.drawn(self.frame_pen(k), true),
        decreases k,
    {
        if k > 0 {
            self.lemma_bytes_fit(k - 1);
            self.lemma_frame_pen_is_short(k - 1);
            self.lemma_frame_pen_is_short(k);
            let s = self.stroke(NOMINAL_SPEED as int);
            let before = self.after_bytes(k - 1);
            let all = frame_bits(self.frame);
            assert(before.pen() == self.frame_pen(k - 1)) by {
                if k == 1 {
                    assert(all.take(0) =~= Seq::<bool>::empty());
                }
            }
            assert(before.stroke(NOMINAL_SPEED as int) == s);
            assert(before.frame == self.frame);
            assert(all.take(8 * k) =~= all.take(8 * (k - 1)) + byte_bits(
                self.frame[k - 1],
                false,
            ));
            self.pen().lemma_bits_joined(
                s,
                all.take(8 * (k - 1)),
                byte_bits(self.frame[k - 1], false),
            );
            assert(before.byte_pen(k - 1, NOMINAL_SPEED as int) == self.frame_pen(k));
            assert(before.byte_fits(k - 1, NOMINAL_SPEED as int));
        }
    }

    /// With an empty buffer that takes a frame at the rates of the
    /// encoder, `encode_frame` encodes the whole frame: the buffer then
    /// holds the eighty bit cells of the frame, which are as many samples
    /// as have become due, a frame's worth to within one sample.
    pub proof fn lemma_frame_fits(self)
        requires
            self.ready_for_frame(),
        ensures
            self.after_bytes(10) == self.drawn(
                self.pen().bits(self.stroke(NOMINAL_SPEED as int), frame_bits(self.frame)),
                true,
            ),
            self.after_bytes(10).samples.len() == (self.rem + 160_000 * self.sample_rate
                * self.fps_den) / unit_of(self.fps_num),
            self.after_bytes(10).rem == (self.rem + 160_000 * self.sample_rate * self.fps_den)
                % unit_of(self.fps_num),
            self.after_bytes(10).samples.len() <= frame_samples(
                self.sample_rate,
                self.fps_num,
                self.fps_den,
            ),
            self.after_bytes(10).samples.len() + 1 >= frame_samples(
                self.sample_rate,
                self.fps_num,
                self.fps_den,
            ),
            self.after_bytes(10).ready_after_take(),
    {
        self.lemma_bytes_fit(10);
        self.lemma_frame_pen_is_short(10);
        assert(frame_bits(self.frame).take(80) =~= frame_bits(self.frame));
        let p = self.frame_pen(10);
        let len = p.wave.len() as int;
        let unit = unit_of(self.fps_num);
        let total = self.rem + 160_000 * self.sample_rate * self.fps_den;
        let sr = self.sample_rate;
        let den = self.fps_den;
        let num = self.fps_num;
        assert(len == total / unit && p.rem == total % unit) by (nonlinear_arith)
            requires
                len * unit + p.rem == total,
                0 <= p.rem < unit,
        ;
        assert((len + 1) * num >= sr * den) by (nonlinear_arith)
            requires
                len * unit + p.rem == self.rem + 160_000 * sr * den,
                unit == 160_000 * num,
                0 <= p.rem < unit,
                0 <= self.rem,
                1 <= num,
        ;
        assert(len + 1 >= (sr * den + num - 1) / num) by (nonlinear_arith)
            requires
                (len + 1) * num >= sr * den,
                1 <= num,
                0 <= len,
                0 <= sr * den,
        ;
    }

    /// The pen after the last `k` bytes of the frame were drawn backwards,
    /// last byte first, at real-time speed, whatever the size of the
    /// buffer.
    pub open spec fn frame_pen_reversed(self, k: int) -> Pen {
        self.pen().bits(
            self.stroke(NOMINAL_SPEED as int),
            frame_bits(self.frame).reverse().take(8 * k),
        )
    }

    /// At real-time speed no run of up to eighty bit cells draws more
    /// samples than a frame has, rounded up.
    pub proof fn lemma_run_is_short(self, bits: Seq<bool>)
        requires
            self.ready_for_frame(),
            bits.len() <= 80,
        ensures
            self.pen().bits(self.stroke(NOMINAL_SPEED as int), bits).wave.len() <= frame_samples(
                self.sample_rate,
                self.fps_num,
                self.fps_den,
            ),
    {
        let s = self.stroke(NOMINAL_SPEED as int);
        let p = self.pen().bits(s, bits);
        self.pen().lemma_bits_keep_time(s, bits);
        let len = p.wave.len() as int;
        let unit = unit_of(self.fps_num);
        let sr = self.sample_rate;
        let den = self.fps_den;
        let num = self.fps_num;
        let n = bits.len() as int;
        assert(2 * s.ticks * bits.len() == n * 2000 * sr * den) by (nonlinear_arith)
            requires
                s.ticks == sr * den * 1000,
                bits.len() == n,
        ;
        assert(self.pen().covered(s) == self.rem) by (nonlinear_arith)
            requires
                self.pen().covered(s) == self.pen().wave.len() * s.unit + self.pen().rem,
                self.pen().wave.len() == 0,
                self.pen().rem == self.rem,
        ;
        assert(len * num < num + sr * den) by (nonlinear_arith)
            requires
                len * unit + p.rem == self.rem + n * 2000 * sr * den,
                unit == 160_000 * num,
                0 <= p.rem,
                0 <= self.rem < unit,
                0 <= n <= 80,
                0 <= sr,
                0 <= den,
                1 <= num,
                0 <= len,
        ;
        assert(len <= (sr * den + num - 1) / num) by (nonlinear_arith)
            requires
                len * num < num + sr * den,
                1 <= num,
                0 <= len,
        ;
    }

    /// With an empty buffer that takes a frame at the rates of the
    /// encoder, every byte of the frame is encoded backwards.
    pub proof fn lemma_bytes_fit_reversed(self, k: int)
        requires
            self.ready_for_frame(),
            0 <= k <= 10,
        ensures
            k == 0 ==> self.after_bytes_reversed(k) == self,
            k > 0 ==> self.after_bytes_reversed(k) == self.drawn(self.frame_pen_reversed(k), true),
        decreases k,
    {
        if k > 0 {
            self.lemma_bytes_fit_reversed(k - 1);
            let s = self.stroke(NOMINAL_SPEED as int);
            let before = self.after_bytes_reversed(k - 1);
            let all = frame_bits(self.frame).reverse();
            self.lemma_run_is_short(all.take(8 * k));
            assert(before.pen() == self.frame_pen_reversed(k - 1)) by {
                if k == 1 {
                    assert(all.take(0) =~= Seq::<bool>::empty());
                }
            }
            assert(before.stroke(-(NOMINAL_SPEED as int)) == s);
            assert(before.frame == self.frame);
            let byte = byte_bits(self.frame[10 - k], true);
            assert(all.take(8 * k) =~= all.take(8 * (k - 1)) + byte) by {
                assert forall|i: int| 8 * (k - 1) <= i < 8 * k implies all[i] == byte[i - 8 * (k
                    - 1)] by {
                    let j = i - 8 * (k - 1);
                    assert(79 - i == 8 * (10 - k) + (7 - j));
                    assert((79 - i) / 8 == 10 - k);
                    assert((79 - i) % 8 == 7 - j);
                }
            }
            self.pen().lemma_bits_joined(s, all.take(8 * (k - 1)), byte);
            assert(before.byte_pen(10 - k, -(NOMINAL_SPEED as int)) == self.frame_pen_reversed(k));
            assert(before.byte_fits(10 - k, -(NOMINAL_SPEED as int)));
        }
    }

    /// With an empty buffer that takes a frame at the rates of the
    /// encoder, `encode_reversed_frame` encodes the whole frame: the buffer
    /// then holds the eighty bit cells of the frame from the last to the
    /// first.
    pub proof fn lemma_reversed_frame_fits(self)
        requires
            self.ready_for_frame(),
        ensures
            self.after_bytes_reversed(10) == self.drawn(
                self.pen().bits(
                    self.stroke(NOMINAL_SPEED as int),
                    frame_bits(self.frame).reverse(),
                ),
                true,
            ),
    {
        self.lemma_bytes_fit_reversed(10);
        assert(frame_bits(self.frame).reverse().take(80) =~= frame_bits(self.frame).reverse());
    }

    /// Once its samples are taken out, the encoder is ready for the next
    /// frame.
    pub open spec fn ready_after_take(self) -> bool {
        (EncoderView { samples: Seq::empty(), ..self }).ready_for_frame()
    }
}

/// Turns a frame into biphase-mark coded samples.
///
/// The encoder holds the frame to send, the clock of the bit cells, and the
/// samples that were encoded and not yet handed out. Samples are handed out
/// as copies. An operation that fails leaves the encoder as it was.
#[derive(Debug)]
pub struct LTCEncoder {
    frame: LTCFrame,
    sample_rate: u32,
    fps_num: u32,
    fps_den: u32,
    standard: LTCTVStandard,
    flags: LtcBgFlags,
    peak: u8,
    filter: u32,
    level: bool,
    remainder: u64,
    pending: bool,
    bufsize: usize,
    buf: Vec<u8>,
}

impl View for LTCEncoder {
    type V = EncoderView;

    closed spec fn view(&self) -> EncoderView {
        EncoderView {
            frame: self.frame@,
            sample_rate: self.sample_rate as int,
            fps_num: self.fps_num as int,
            fps_den: self.fps_den as int,
            standard: self.standard,
            flags: self.flags,
            peak: self.peak as int,
            filter: self.filter as int,
            level: self.level,
            rem: self.remainder as int,
            pending: self.pending,
            bufsize: self.bufsize as int,
            samples: self.buf@,
        }
    }
}

/// The number of samples in a frame, rounded up, if the rates describe a
/// signal whose frames fit a buffer.
pub fn checked_frame_samples(sample_rate: u32, fps_num: u32, fps_den: u32) -> (r: Option<u32>)
    ensures
        r.is_some() <==> rates_ok(sample_rate as int, fps_num as int, fps_den as int),
        r.is_some() ==> r.unwrap() == frame_samples(
            sample_rate as int,
            fps_num as int,
            fps_den as int,
        ),
{
    if sample_rate < 1 || fps_num == 0 || fps_den == 0 {
        return None;
    }
    assert(sample_rate * fps_den <= 0xFFFF_FFFF * 0xFFFF_FFFF) by (nonlinear_arith)
        requires
            sample_rate <= 0xFFFF_FFFF,
            fps_den <= 0xFFFF_FFFF,
    ;
    let total: u64 = (sample_rate as u64) * (fps_den as u64);
    let n: u64 = (total + (fps_num as u64 - 1)) / (fps_num as u64);
    if n + 1 > MAX_BUFFER_SIZE {
        None
    } else {
        Some(n as u32)
    }
}

/// `src` written over the beginning of `dst`, which grows where it is
/// shorter.
pub open spec fn written_over<T>(dst: Seq<T>, src: Seq<T>) -> Seq<T> {
    if src.len() >= dst.len() {
        src
    } else {
        src + dst.skip(src.len() as int)
    }
}

/// Samples as 32-bit numbers.
pub open spec fn widened(s: Seq<u8>) -> Seq<i32> {
    s.map_values(|b: u8| b as i32)
}

fn write_over<T: Copy>(dst: &mut Vec<T>, src: &Vec<T>)
    ensures
        final(dst)@ == written_over(old(dst)@, src@),
{
    let n: usize = src.len();
    let mut i: usize = 0;
    while i < n
        invariant
            i <= n,
            n == src.len(),
            dst.len() == (if old(dst).len() >= i {
                old(dst).len()
            } else {
                i
            }),
            forall|j: int| 0 <= j < i ==> dst@[j] == src@[j],
            forall|j: int| i <= j < old(dst).len() ==> dst@[j] == old(dst)@[j],
        decreases n - i,
    {
        if i < dst.len() {
            dst[i] = src[i];
        } else {
            dst.push(src[i]);
        }
        i = i + 1;
    }
    proof {
        assert(dst@ =~= written_over(old(dst)@, src@));
    }
}

fn copy_of(src: &Vec<u8>) -> (r: Vec<u8>)
    ensures
        r@ == src@,
{
    let mut r: Vec<u8> = Vec::new();
    let mut i: usize = 0;
    while i < src.len()
        invariant
            i <= src.len(),
            r.len() == i,
            forall|j: int| 0 <= j < i ==> r@[j] == src@[j],
        decreases src.len() - i,
    {
        r.push(src[i]);
        i = i + 1;
    }
    proof {
        assert(r@ =~= src@);
    }
    r
}

fn widen(src: &Vec<u8>) -> (r: Vec<i32>)
    ensures
        r@ == widened(src@),
{
    let mut r: Vec<i32> = Vec::new();
    let mut i: usize = 0;
    while i < src.len()
        invariant
            i <= src.len(),
            r.len() == i,
            forall|j: int| 0 <= j < i ==> r@[j] == src@[j] as i32,
        decreases src.len() - i,
    {
        r.push(src[i] as i32);
        i = i + 1;
    }
    proof {
        assert(r@ =~= widened(src@));
    }
    r
}

fn half_cell_ticks(sample_rate: u32, fps_den: u32, speed: i32) -> (r: u128)
    ensures
        r == sample_rate * fps_den * abs_int(speed as int),
        r <= max_ticks(),
{
    let mag: u32 = if speed < 0 {
        (-(speed as i64)) as u32
    } else {
        speed as u32
    };
    assert(sample_rate * fps_den <= 0xFFFF_FFFF * 0xFFFF_FFFF) by (nonlinear_arith)
        requires
            sample_rate <= 0xFFFF_FFFF,
            fps_den <= 0xFFFF_FFFF,
    ;
    let a: u64 = (sample_rate as u64) * (fps_den as u64);
    assert(a * mag <= 0xFFFF_FFFF_FFFF_FFFF * 0x8000_0000) by (nonlinear_arith)
        requires
            a <= 0xFFFF_FFFF_FFFF_FFFF,
            mag <= 0x8000_0000,
    ;
    (a as u128) * (mag as u128)
}

fn sample_unit(fps_num: u32) -> (r: u64)
    ensures
        r == unit_of(fps_num as int),
{
    160_000 * (fps_num as u64)
}

fn drop_rate(fps_num: u32, fps_den: u32) -> (r: bool)
    ensures
        r == is_drop_rate(fps_num as int, fps_den as int),
{
    let n: u64 = 200 * (fps_num as u64);
    5993 * (fps_den as u64) <= n && n < 5995 * (fps_den as u64)
}

impl LTCEncoder {
    /// The encoder is in a state that its operations keep.
    pub closed spec fn wf(&self) -> bool {
        self@.wf()
    }

    /// An encoder that is in a state that its operations keep holds what is
    /// well formed.
    pub proof fn lemma_wf(&self)
        requires
            self.wf(),
        ensures
            self@.wf(),
    {
    }

    fn ink(&self, speed: i32) -> (r: Ink)
        requires
            self.wf(),
        ensures
            r.wf(),
            r@ == self@.stroke(speed as int),
    {
        Ink {
            unit: sample_unit(self.fps_num),
            ticks: half_cell_ticks(self.sample_rate, self.fps_den, speed),
            low: 128 - self.peak,
            high: 128 + self.peak,
            filter: self.filter,
            inverted: self.flags.reverse_phase,
        }
    }

    fn configure_frame(&mut self)
        ensures
            final(self).frame.fields() == configured_frame(
                old(self).frame.fields(),
                old(self).fps_num as int,
                old(self).fps_den as int,
                old(self).standard,
                old(self).flags,
            ),
            final(self).frame@ == bytes_of(final(self).frame.fields()),
            *final(self) == (LTCEncoder { frame: final(self).frame, ..*old(self) }),
    {
        let mut f: FrameFields = self.frame.unpack();
        f.dfbit = drop_rate(self.fps_num, self.fps_den);
        if self.flags.parity_enabled() {
            f.set_parity(self.standard);
        }
        self.frame = LTCFrame::pack(&f);
    }

    /// Makes an encoder for `sample_rate` samples and `fps_num / fps_den`
    /// frames per second.
    ///
    /// The frame starts out blank and the levels 3 dB below full scale,
    /// with square edges. The call fails if a rate is zero or if one frame
    /// has more samples than a buffer may hold.
    pub fn try_new(
        sample_rate: u32,
        fps_num: u32,
        fps_den: u32,
        standard: LTCTVStandard,
        flags: LtcBgFlags,
    ) -> (r: Result<LTCEncoder, LTCEncoderError>)
        ensures
            r.is_ok() <==> rates_ok(sample_rate as int, fps_num as int, fps_den as int),
            r.is_err() ==> r == Err::<LTCEncoder, LTCEncoderError>(LTCEncoderError::CreateError),
            r.is_ok() ==> r.unwrap().wf() && r.unwrap()@ == EncoderView::fresh(
                sample_rate as int,
                fps_num as int,
                fps_den as int,
                standard,
                flags,
            ),
    {
        match checked_frame_samples(sample_rate, fps_num, fps_den) {
            None => Err(LTCEncoderError::CreateError),
            Some(n) => {
                let mut e = LTCEncoder {
                    frame: LTCFrame::new(),
                    sample_rate,
                    fps_num,
                    fps_den,
                    standard,
                    flags,
                    peak: DEFAULT_PEAK,
                    filter: 0,
                    level: false,
                    remainder: sample_unit(fps_num) / 2,
                    pending: false,
                    bufsize: n as usize + 1,
                    buf: Vec::new(),
                };
                e.configure_frame();
                Ok(e)
            },
        }
    }

    /// Sets the encoder up for other rates. The samples that were not
    /// handed out are dropped, the clock of the bit cells starts anew, and
    /// the edges are square again; the frame keeps its time.
    ///
    /// The call fails, and changes nothing, if a rate is zero or if one
    /// frame has more samples than the buffer takes.
    pub fn reinit(
        &mut self,
        sample_rate: u32,
        fps_num: u32,
        fps_den: u32,
        standard: LTCTVStandard,
        flags: LtcBgFlags,
    ) -> (r: Result<(), LTCEncoderError>)
        requires
            old(self).wf(),
        ensures
            final(self).wf(),
            r.is_ok() <==> (rates_ok(sample_rate as int, fps_num as int, fps_den as int)
                && buffer_size_for(sample_rate as int, fps_num as int, fps_den as int) <= old(
                self,
            )@.bufsize),
            r.is_err() ==> r == Err::<(), LTCEncoderError>(LTCEncoderError::ReinitError)
                && final(self)@ == old(self)@,
            r.is_ok() ==> final(self)@ == old(self)@.reconfigured(
                sample_rate as int,
                fps_num as int,
                fps_den as int,
                standard,
                flags,
            ),
    {
        match checked_frame_samples(sample_rate, fps_num, fps_den) {
            None => Err(LTCEncoderError::ReinitError),
            Some(n) => {
                if n as usize + 1 > self.bufsize {
                    return Err(LTCEncoderError::ReinitError);
                }
                self.sample_rate = sample_rate;
                self.fps_num = fps_num;
                self.fps_den = fps_den;
                self.standard = standard;
                self.flags = flags;
                self.filter = 0;
                self.level = false;
                self.remainder = sample_unit(fps_num) / 2;
                self.pending = false;
                self.buf.clear();
                self.configure_frame();
                Ok(())
            },
        }
    }

    /// Starts the signal anew: the samples that were not handed out are
    /// dropped and the clock of the bit cells starts again.
    pub fn reset(&mut self)
        requires
            old(self).wf(),
        ensures
            final(self).wf(),
            final(self)@ == (EncoderView {
                level: false,
                rem: unit_of(old(self)@.fps_num) / 2,
                pending: false,
                samples: Seq::empty(),
                ..old(self)@
            }),
    {
        self.level = false;
        self.remainder = sample_unit(self.fps_num) / 2;
        self.pending = false;
        self.buf.clear();
    }

    /// Makes the buffer as large as one frame at the given rates needs, and
    /// drops the samples that were not handed out.
    ///
    /// The call fails, and changes nothing, if a rate is zero or if one
    /// frame has more samples than a buffer may hold.
    pub fn set_bufsize(&mut self, sample_rate: u32, fps_num: u32, fps_den: u32) -> (r: Result<
        (),
        LTCEncoderError,
    >)
        requires
            old(self).wf(),
        ensures
            final(self).wf(),
            r.is_ok() <==> rates_ok(sample_rate as int, fps_num as int, fps_den as int),
            r.is_err() ==> r == Err::<(), LTCEncoderError>(LTCEncoderError::BufferSizeError)
                && final(self)@ == old(self)@,
            r.is_ok() ==> final(self)@ == (EncoderView {
                bufsize: buffer_size_for(sample_rate as int, fps_num as int, fps_den as int),
                samples: Seq::empty(),
                ..old(self)@
            }),
    {
        match checked_frame_samples(sample_rate, fps_num, fps_den) {
            None => Err(LTCEncoderError::BufferSizeError),
            Some(n) => {
                self.bufsize = n as usize + 1;
                self.buf.clear();
                Ok(())
            },
        }
    }

    /// One more than the most samples that the buffer takes.
    pub fn get_buffersize(&self) -> (r: usize)
        requires
            self.wf(),
        ensures
            r == self@.bufsize,
    {
        self.bufsize
    }

    /// Number of samples that were encoded and not yet handed out.
    pub fn buffered(&self) -> (r: usize)
        requires
            self.wf(),
        ensures
            r == self@.samples.len(),
            r < self@.bufsize,
    {
        self.buf.len()
    }

    /// Sets the frame to the time `timecode`, under the standard and the
    /// flags of the encoder. The clock of the bit cells runs on.
    pub fn set_timecode(&mut self, timecode: &SMPTETimecode)
        requires
            old(self).wf(),
        ensures
            final(self).wf(),
            final(self)@ == (EncoderView {
                frame: bytes_of(
                    old(self)@.fields().with_time(
                        *timecode,
                        old(self)@.standard,
                        old(self)@.flags,
                    ),
                ),
                ..old(self)@
            }),
    {
        self.frame.from_timecode_inplace(timecode, self.standard, self.flags);
    }

    /// The time that the frame shows, under the flags of the encoder.
    pub fn get_timecode(&self) -> (t: SMPTETimecode)
        requires
            self.wf(),
        ensures
            t == self@.fields().to_time(self@.flags),
    {
        self.frame.to_timecode(self.flags)
    }

    /// Writes the 32 user bits of the frame, and the parity bit where the
    /// flags of the encoder keep one.
    pub fn set_user_bits(&mut self, data: u32)
        requires
            old(self).wf(),
        ensures
            final(self).wf(),
            final(self)@ == (EncoderView {
                frame: bytes_of(
                    if old(self)@.flags.parity_applies() {
                        old(self)@.fields().put_user_bits(data as int).with_parity(
                            old(self)@.standard,
                        )
                    } else {
                        old(self)@.fields().put_user_bits(data as int)
                    },
                ),
                ..old(self)@
            }),
    {
        self.frame.set_user_bits(data);
        if self.flags.parity_enabled() {
            self.frame.set_parity(self.standard);
        }
    }

    fn whole_fps(&self) -> (r: i32)
        requires
            self.wf(),
        ensures
            r == self@.counting_fps(),
    {
        let r: u64 = (2 * (self.fps_num as u64) + self.fps_den as u64) / (2 * (self.fps_den as u64));
        if r > i32::MAX as u64 {
            i32::MAX
        } else {
            r as i32
        }
    }

    /// Advances the frame by one, counting at the frame rate rounded to
    /// whole frames, and tells whether midnight was crossed.
    pub fn inc_timecode(&mut self) -> (wrapped: bool)
        requires
            old(self).wf(),
        ensures
            final(self).wf(),
            final(self)@ == (EncoderView {
                frame: bytes_of(
                    old(self)@.fields().incremented(
                        old(self)@.counting_fps(),
                        old(self)@.standard,
                        old(self)@.flags,
                    ),
                ),
                ..old(self)@
            }),
            wrapped == old(self)@.fields().rolls_day(old(self)@.counting_fps()),
    {
        let fps: i32 = self.whole_fps();
        match self.frame.increment(fps, self.standard, self.flags) {
            Ok(TimecodeWasWrapped::No) => false,
            _ => true,
        }
    }

    /// Moves the frame back by one, counting at the frame rate rounded to
    /// whole frames, and tells whether midnight was crossed.
    pub fn dec_timecode(&mut self) -> (wrapped: bool)
        requires
            old(self).wf(),
        ensures
            final(self).wf(),
            final(self)@ == (EncoderView {
                frame: bytes_of(
                    old(self)@.fields().decremented(
                        old(self)@.counting_fps(),
                        old(self)@.standard,
                        old(self)@.flags,
                    ),
                ),
                ..old(self)@
            }),
            wrapped == old(self)@.fields().borrows_day(),
    {
        let fps: i32 = self.whole_fps();
        match self.frame.decrement(fps, self.standard, self.flags) {
            Ok(TimecodeWasWrapped::No) => false,
            _ => true,
        }
    }

    /// Replaces the frame. The clock of the bit cells runs on.
    pub fn set_frame(&mut self, frame: &LTCFrame)
        requires
            old(self).wf(),
        ensures
            final(self).wf(),
            final(self)@ == (EncoderView { frame: frame@, ..old(self)@ }),
    {
        self.frame = *frame;
    }

    /// A copy of the frame.
    pub fn get_frame(&self) -> (r: LTCFrame)
        requires
            self.wf(),
        ensures
            r@ == self@.frame,
    {
        self.frame
    }

    /// The peak of the signal: the distance of its two levels from the
    /// centre.
    pub fn get_volume(&self) -> (r: i32)
        requires
            self.wf(),
        ensures
            r == self@.peak,
            1 <= r <= 127,
    {
        self.peak as i32
    }

    /// Sets the peak of the signal: the low level becomes `128 - peak` and
    /// the high level `128 + peak`. Full scale is 127; a signal `d` dB
    /// below full scale has the peak `127 / 10^(d/20)`.
    ///
    /// The call fails, and changes nothing, unless `1 <= peak <= 127`: a
    /// smaller peak is no signal and a greater one leaves the range of a
    /// sample.
    pub fn set_volume(&mut self, peak: i32) -> (r: Result<(), LTCEncoderError>)
        requires
            old(self).wf(),
        ensures
            final(self).wf(),
            r.is_ok() <==> 1 <= peak <= 127,
            r.is_err() ==> r == Err::<(), LTCEncoderError>(LTCEncoderError::VolumeError)
                && final(self)@ == old(self)@,
            r.is_ok() ==> final(self)@ == (EncoderView { peak: peak as int, ..old(self)@ }),
    {
        if peak < 1 || peak > 127 {
            return Err(LTCEncoderError::VolumeError);
        }
        self.peak = peak as u8;
        Ok(())
    }

    /// The edge shaping coefficient in 65536ths; zero for square edges.
    pub fn get_filter(&self) -> (r: u32)
        requires
            self.wf(),
        ensures
            r == self@.filter,
            r <= 65536,
    {
        self.filter
    }

    /// Sets the shaping of the edges. With a coefficient of zero a pulse
    /// is square. Otherwise each pulse starts from the centre and moves
    /// towards its level by the coefficient's share of the remaining
    /// distance with each sample, up to the middle of the pulse, and back
    /// the same way; a coefficient above one counts as one.
    pub fn set_filter(&mut self, coefficient: u32)
        requires
            old(self).wf(),
        ensures
            final(self).wf(),
            final(self)@ == (EncoderView {
                filter: if coefficient > 65536 {
                    65536
                } else {
                    coefficient as int
                },
                ..old(self)@
            }),
    {
        self.filter = if coefficient > 65536 {
            65536
        } else {
            coefficient
        };
    }

    /// Encodes one byte of the frame at `speed` thousandths of real time;
    /// a negative speed sends the byte backwards.
    ///
    /// The call fails, and changes nothing, if `byte` is not `0..=9`, if
    /// `speed` is zero, or if the samples of the byte do not fit the
    /// buffer.
    pub fn encode_byte(&mut self, byte: i32, speed: i32) -> (r: Result<(), LTCEncoderError>)
        requires
            old(self).wf(),
        ensures
            final(self).wf(),
            r.is_ok() <==> old(self)@.byte_fits(byte as int, speed as int),
            r.is_err() ==> r == Err::<(), LTCEncoderError>(LTCEncoderError::EncodeError),
            final(self)@ == old(self)@.after_byte(byte as int, speed as int),
    {
        if byte < 0 || byte > 9 || speed == 0 {
            return Err(LTCEncoderError::EncodeError);
        }
        let ink: Ink = self.ink(speed);
        let b: u8 = self.frame.ltc[byte as usize];
        let limit: usize = self.bufsize - 1;
        let kept: usize = self.buf.len();
        let mut nib = Nib { level: self.level, rem: self.remainder };
        let ok: bool = nib.draw_byte(&mut self.buf, &ink, b, speed < 0, limit);
        if ok {
            self.level = nib.level;
            self.remainder = nib.rem;
            self.pending = true;
            Ok(())
        } else {
            self.buf.truncate(kept);
            Err(LTCEncoderError::EncodeError)
        }
    }

    /// Closes the signal: where a bit cell was drawn and no closing edge
    /// after it, the level changes once more and half a bit cell follows,
    /// so that a decoder sees where the last cell ends.
    ///
    /// The call fails, and changes nothing, if those samples do not fit
    /// the buffer.
    pub fn end_encode(&mut self) -> (r: Result<(), LTCEncoderError>)
        requires
            old(self).wf(),
        ensures
            final(self).wf(),
            r.is_ok() <==> old(self)@.closing_fits(),
            r.is_err() ==> r == Err::<(), LTCEncoderError>(LTCEncoderError::EncodeError),
            final(self)@ == old(self)@.after_closing(),
    {
        if !self.pending {
            return Ok(());
        }
        let ink: Ink = self.ink(NOMINAL_SPEED);
        let limit: usize = self.bufsize - 1;
        let mut nib = Nib { level: self.level, rem: self.remainder };
        let ok: bool = nib.draw_pulse(&mut self.buf, &ink, ink.ticks, limit);
        if ok {
            self.level = nib.level;
            self.remainder = nib.rem;
            self.pending = false;
            Ok(())
        } else {
            Err(LTCEncoderError::EncodeError)
        }
    }

    /// Encodes the ten bytes of the frame in order at real-time speed. A
    /// byte that does not fit the buffer is left out; with an empty buffer
    /// that takes a frame at the rates of the encoder every byte fits.
    pub fn encode_frame(&mut self)
        requires
            old(self).wf(),
        ensures
            final(self).wf(),
            final(self)@ == old(self)@.after_bytes(10),
            old(self)@.ready_for_frame() ==> final(self)@ == old(self)@.drawn(
                old(self)@.pen().bits(
                    old(self)@.stroke(NOMINAL_SPEED as int),
                    frame_bits(old(self)@.frame),
                ),
                true,
            ),
    {
        proof {
            if old(self)@.ready_for_frame() {
                old(self)@.lemma_frame_fits();
            }
        }
        let mut byte: i32 = 0;
        while byte < 10
            invariant
                0 <= byte <= 10,
                self.wf(),
                self@ == old(self)@.after_bytes(byte as int),
            decreases 10 - byte,
        {
            let _ = self.encode_byte(byte, NOMINAL_SPEED);
            byte = byte + 1;
        }
    }

    /// Encodes the ten bytes of the frame from the last to the first, each
    /// backwards, at real-time speed: the frame as a tape played in
    /// reverse gives it. A byte that does not fit the buffer is left out.
    pub fn encode_reversed_frame(&mut self)
        requires
            old(self).wf(),
        ensures
            final(self).wf(),
            final(self)@ == old(self)@.after_bytes_reversed(10),
            old(self)@.ready_for_frame() ==> final(self)@ == old(self)@.drawn(
                old(self)@.pen().bits(
                    old(self)@.stroke(NOMINAL_SPEED as int),
                    frame_bits(old(self)@.frame).reverse(),
                ),
                true,
            ),
    {
        proof {
            if old(self)@.ready_for_frame() {
                old(self)@.lemma_reversed_frame_fits();
            }
        }
        let mut k: i32 = 0;
        while k < 10
            invariant
                0 <= k <= 10,
                self.wf(),
                self@ == old(self)@.after_bytes_reversed(k as int),
            decreases 10 - k,
        {
            let _ = self.encode_byte(9 - k, -NOMINAL_SPEED);
            k = k + 1;
        }
    }

    fn take_all(&mut self) -> (r: Vec<u8>)
        requires
            old(self).wf(),
        ensures
            final(self).wf(),
            r@ == old(self)@.samples,
            final(self)@ == (EncoderView { samples: Seq::empty(), ..old(self)@ }),
    {
        let mut out: Vec<u8> = Vec::new();
        core::mem::swap(&mut out, &mut self.buf);
        out
    }

    fn take_closed(&mut self) -> (r: Vec<u8>)
        requires
            old(self).wf(),
        ensures
            final(self).wf(),
            r@ == old(self)@.closed_samples(),
            final(self)@ == old(self)@.after_closed_take(),
    {
        let mut out: Vec<u8> = self.take_all();
        if self.pending {
            let ink: Ink = self.ink(NOMINAL_SPEED);
            let mut nib = Nib { level: self.level, rem: self.remainder };
            let ok: bool = nib.draw_pulse(&mut out, &ink, ink.ticks, usize::MAX);
            if ok {
                self.level = nib.level;
                self.remainder = nib.rem;
                self.pending = false;
            }
        }
        out
    }

    /// Hands out the samples that were encoded, and drops them from the
    /// encoder. The vector returned is as long as the buffer; the samples
    /// are at its beginning, their number is the second value, and what
    /// follows them is zero.
    pub fn copy_buffer(&mut self) -> (r: (Vec<u8>, usize))
        requires
            old(self).wf(),
        ensures
            final(self).wf(),
            r.1 == old(self)@.samples.len(),
            r.0@ == old(self)@.samples + Seq::new(
                (old(self)@.bufsize - old(self)@.samples.len()) as nat,
                |i: int| 0u8,
            ),
            final(self)@ == (EncoderView { samples: Seq::empty(), ..old(self)@ }),
    {
        let size: usize = self.bufsize;
        let mut out: Vec<u8> = self.take_all();
        let n: usize = out.len();
        while out.len() < size
            invariant
                n <= out.len() <= size,
                out@.subrange(0, n as int) == old(self)@.samples,
                forall|i: int| n <= i < out.len() ==> out@[i] == 0u8,
            decreases size - out.len(),
        {
            let ghost before = out@;
            out.push(0);
            proof {
                assert(out@.subrange(0, n as int) =~= before.subrange(0, n as int));
            }
        }
        proof {
            assert(out@ =~= old(self)@.samples + Seq::new(
                (old(self)@.bufsize - old(self)@.samples.len()) as nat,
                |i: int| 0u8,
            ));
        }
        (out, n)
    }

    /// Writes the samples that were encoded over the beginning of `buf`,
    /// which grows where it is too short, drops them from the encoder and
    /// returns their number.
    pub fn copy_buffer_inplace(&mut self, buf: &mut Vec<u8>) -> (n: i32)
        requires
            old(self).wf(),
        ensures
            final(self).wf(),
            n == old(self)@.samples.len(),
            final(buf)@ == written_over(old(buf)@, old(self)@.samples),
            final(self)@ == (EncoderView { samples: Seq::empty(), ..old(self)@ }),
    {
        let out: Vec<u8> = self.take_all();
        write_over(buf, &out);
        out.len() as i32
    }

    /// Writes the samples that were encoded, as 32-bit numbers, over the
    /// beginning of `buf`, which grows where it is too short, drops them
    /// from the encoder and returns their number.
    pub fn get_buffer(&mut self, buf: &mut Vec<i32>) -> (n: i32)
        requires
            old(self).wf(),
        ensures
            final(self).wf(),
            n == old(self)@.samples.len(),
            final(buf)@ == written_over(old(buf)@, widened(old(self)@.samples)),
            final(self)@ == (EncoderView { samples: Seq::empty(), ..old(self)@ }),
    {
        let out: Vec<u8> = self.take_all();
        let wide: Vec<i32> = widen(&out);
        write_over(buf, &wide);
        out.len() as i32
    }

    /// A copy of the samples that were encoded, and their number.
    ///
    /// With `flush` the signal is closed first, as by `end_encode` but
    /// without regard to the size of the buffer, and the samples are
    /// dropped from the encoder: what is handed out ends with the edge and
    /// the half cell that let a decoder read the last bit. Without `flush`
    /// the encoder is left as it is.
    pub fn get_buf_ref(&mut self, flush: bool) -> (r: (Vec<u8>, usize))
        requires
            old(self).wf(),
        ensures
            final(self).wf(),
            r.1 == r.0@.len(),
            flush ==> r.0@ == old(self)@.closed_samples() && final(self)@ == old(
                self,
            )@.after_closed_take(),
            !flush ==> r.0@ == old(self)@.samples && final(self)@ == old(self)@,
    {
        let out: Vec<u8> = if flush {
            self.take_closed()
        } else {
            copy_of(&self.buf)
        };
        let n: usize = out.len();
        (out, n)
    }

    /// The same as `get_buf_ref`: the copy is the caller's own to change.
    pub fn get_buf_ref_mut(&mut self, flush: bool) -> (r: (Vec<u8>, usize))
        requires
            old(self).wf(),
        ensures
            final(self).wf(),
            r.1 == r.0@.len(),
            flush ==> r.0@ == old(self)@.closed_samples() && final(self)@ == old(
                self,
            )@.after_closed_take(),
            !flush ==> r.0@ == old(self)@.samples && final(self)@ == old(self)@,
    {
        self.get_buf_ref(flush)
    }

    /// The same as `get_buf_ref`, with the samples as 32-bit numbers. The
    /// count stops at the largest 32-bit number.
    pub fn get_bufptr(&mut self, flush: bool) -> (r: (Vec<i32>, i32))
        requires
            old(self).wf(),
        ensures
            final(self).wf(),
            r.1 == r.0@.len() || (r.1 == i32::MAX && r.0@.len() > i32::MAX),
            flush ==> r.0@ == widened(old(self)@.closed_samples()) && final(self)@ == old(
                self,
            )@.after_closed_take(),
            !flush ==> r.0@ == widened(old(self)@.samples) && final(self)@ == old(self)@,
    {
        let (out, n) = self.get_buf_ref(flush);
        let wide: Vec<i32> = widen(&out);
        let count: i32 = if n > i32::MAX as usize {
            i32::MAX
        } else {
            n as i32
        };
        (wide, count)
    }

    /// Drops the samples that were not handed out.
    pub fn buffer_flush(&mut self)
        requires
            old(self).wf(),
        ensures
            final(self).wf(),
            final(self)@ == (EncoderView { samples: Seq::empty(), ..old(self)@ }),
    {
        self.buf.clear();
    }
}

} // verus!
