//! The streaming decoder: from samples to pulses, from pulses to bits, from
//! bits to frames.
//!
//! The decoder follows the envelope of the signal and sees an edge when a
//! sample crosses half of it. The samples between two edges are a pulse. A
//! pulse longer than three quarters of the estimated bit cell is a whole
//! cell, a shorter one is half a cell. Two halves on one level are a zero,
//! two halves on different levels are a one. The last eighty bits are kept
//! in a window; when the last sixteen are the sync word and the window is
//! full, the window is a frame.

use crate::error::LTCDecoderError;
use crate::frame::LTCFrame;
use crate::queue::{keep_last, FrameQueue, FrameRecord, LTCFrameExt};
use vstd::prelude::*;

verus! {

/// The sync word as its sixteen bits arrive, first bit first: `0x3FFD`
/// when the first bit is taken as the highest.
pub open spec fn sync_forward() -> Seq<bool> {
    seq![
        false, false, true, true, true, true, true, true, true, true, true, true, true, true,
        false, true,
    ]
}

/// The sync word as its sixteen bits arrive when played backwards.
pub open spec fn sync_reverse() -> Seq<bool> {
    seq![
        true, false, true, true, true, true, true, true, true, true, true, true, true, true,
        false, false,
    ]
}

/// The last bits of the window are the last bits that arrived.
pub open spec fn tail_agrees(window: Seq<bool>, recent: Seq<bool>) -> bool {
    forall|i: int|
        0 <= i < 16 && i < window.len() ==> #[trigger] window[window.len() - 1 - i]
            == recent[15 - i]
}

/// The frame ends with the sync word.
pub open spec fn has_sync_word(r: FrameRecord) -> bool {
    r.ltc.len() == 10 && r.ltc[8] == 0xFC && r.ltc[9] == 0xBF
}

/// The longest bit cell that the estimate can hold, in 256ths of a sample.
pub const PERIOD_CAP: u32 = 0xFFFF_FFFF;

/// The longest pulse that is counted, in samples.
pub const COUNT_CAP: u32 = 0xFFFF_FFFF;

/// A pulse is out of tolerance when the bit cell that it stands for is
/// longer than this many estimated bit cells, or shorter than one part in
/// this many of the estimate, unless another factor is set.
pub const DEFAULT_TOLERANCE: u32 = 4;

/// This many pulses out of tolerance in a row make the decoder start over
/// with its first estimate, unless another number is set.
pub const DEFAULT_RESYNC_AFTER: u32 = 4;

/// A position held within the range of a signed 64-bit number.
pub open spec fn clamp64(x: int) -> int {
    if x < i64::MIN {
        i64::MIN as int
    } else if x > i64::MAX {
        i64::MAX as int
    } else {
        x
    }
}

/// The low side of the envelope one sample later, before the sample is
/// taken in: a sixteenth closer to the centre.
pub open spec fn decayed_low(m: u8) -> int {
    128 - ((128 - m) * 15) / 16
}

/// The high side of the envelope one sample later, before the sample is
/// taken in: a sixteenth closer to the centre.
pub open spec fn decayed_high(m: u8) -> int {
    128 + ((m - 128) * 15) / 16
}

/// Half way from the centre to the low side of the envelope.
pub open spec fn low_threshold(m: u8) -> int {
    128 - ((128 - m) * 8) / 16
}

/// Half way from the centre to the high side of the envelope.
pub open spec fn high_threshold(m: u8) -> int {
    128 + ((m - 128) * 8) / 16
}

/// A number of 256ths rounded to the nearest whole, halves upward.
pub open spec fn nearest(q: int) -> int {
    (q + 128) / 256
}

/// A number of 256ths rounded up to a whole.
pub open spec fn whole_above(q: int) -> int {
    (q + 255) / 256
}

/// Byte `k` of the frame that eighty bits make, first bit lowest.
pub open spec fn byte_of_bits(bits: Seq<bool>, k: int) -> u8 {
    ((if bits[8 * k] {
        1int
    } else {
        0
    }) + (if bits[8 * k + 1] {
        2int
    } else {
        0
    }) + (if bits[8 * k + 2] {
        4int
    } else {
        0
    }) + (if bits[8 * k + 3] {
        8int
    } else {
        0
    }) + (if bits[8 * k + 4] {
        16int
    } else {
        0
    }) + (if bits[8 * k + 5] {
        32int
    } else {
        0
    }) + (if bits[8 * k + 6] {
        64int
    } else {
        0
    }) + (if bits[8 * k + 7] {
        128int
    } else {
        0
    })) as u8
}

/// The ten bytes that eighty bits make, in the order in which they arrived.
pub open spec fn frame_bytes(bits: Seq<bool>) -> Seq<u8> {
    Seq::new(10, |k: int| byte_of_bits(bits, k))
}

/// Eighty bits that arrived backwards, put in order: the sixty-four bits of
/// the data turned round, and the sixteen of the sync word turned round.
pub open spec fn turned_round(bits: Seq<bool>) -> Seq<bool> {
    Seq::new(
        80,
        |i: int|
            if i < 64 {
                bits[63 - i]
            } else {
                bits[143 - i]
            },
    )
}

/// The sample on the scale of a byte that a 32-bit sample stands for: the
/// value itself, held within `0..=255`.
pub open spec fn sample_of_i32(x: i32) -> u8 {
    if x < 0 {
        0
    } else if x > 255 {
        255
    } else {
        x as u8
    }
}

/// The sample on the scale of a byte that a signed 16-bit sample stands
/// for: its high byte, moved up by the centre.
pub open spec fn sample_of_s16(x: i16) -> u8 {
    (128 + x as int / 256) as u8
}

/// The sample on the scale of a byte that an unsigned 16-bit sample stands
/// for: its high byte.
pub open spec fn sample_of_u16(x: u16) -> u8 {
    (x / 256) as u8
}

/// What a decoder holds.
pub ghost struct DecoderView {
    /// The decoded frames that were not read yet, oldest first.
    pub queue: Seq<FrameRecord>,
    /// The most frames that the queue holds.
    pub capacity: int,
    /// The low side of the envelope, at or below the centre.
    pub env_min: u8,
    /// The high side of the envelope, at or above the centre.
    pub env_max: u8,
    /// A sample was seen.
    pub primed: bool,
    /// The signal is on its low side.
    pub low: bool,
    /// Samples since the last edge.
    pub count: int,
    /// The estimated length of a bit cell, in 256ths of a sample.
    pub period: int,
    /// The estimate with which the decoder began.
    pub initial_period: int,
    /// The last half cell ended a bit cell.
    pub at_boundary: bool,
    /// The half cell before was on the low side.
    pub prev_low: bool,
    /// The last sixteen bits that arrived, oldest first.
    pub recent: Seq<bool>,
    /// The bits since the last sync word or the last loss of the signal,
    /// the last eighty of them at most.
    pub window: Seq<bool>,
    /// For each bit of the window, the estimate at the time it arrived.
    pub tics: Seq<u32>,
    /// The position where the window begins.
    pub frame_start: int,
    /// The position where the last bit ended, if no loss of the signal
    /// came after it.
    pub prev_end: Option<i64>,
    /// A pulse that stands for a bit cell longer than this many estimated
    /// bit cells, or shorter than one part in this many of the estimate,
    /// is out of tolerance.
    pub tolerance: int,
    /// This many pulses out of tolerance in a row bring the first estimate
    /// back.
    pub resync_after: int,
    /// Pulses out of tolerance in a row so far.
    pub outliers: int,
}

impl DecoderView {
    /// What every operation of the decoder keeps: the queue is within its
    /// capacity, the envelope lies about the centre, the window and its
    /// timings are of one length, the last bits of the window are the last
    /// bits that arrived, and every frame of the queue ends with the sync
    /// word.
    pub open spec fn wf(self) -> bool {
        &&& 1 <= self.capacity <= i32::MAX
        &&& self.queue.len() <= self.capacity
        &&& self.env_min <= 128 <= self.env_max
        &&& 0 <= self.count <= COUNT_CAP
        &&& 0 <= self.period <= PERIOD_CAP
        &&& 1 <= self.initial_period <= PERIOD_CAP
        &&& self.recent.len() == 16
        &&& tail_agrees(self.window, self.recent)
        &&& forall|i: int| 0 <= i < self.queue.len() ==> has_sync_word(#[trigger] self.queue[i])
        &&& self.window.len() <= 80
        &&& self.tics.len() == self.window.len()
        &&& i64::MIN <= self.frame_start <= i64::MAX
        &&& 1 <= self.tolerance <= u32::MAX
        &&& 1 <= self.resync_after <= u32::MAX
        &&& 0 <= self.outliers < self.resync_after
    }

    /// A decoder that has seen nothing, for frames of `apv` samples and a
    /// queue of `capacity` frames.
    pub open spec fn fresh(apv: int, capacity: int) -> DecoderView {
        let first = if apv * 256 / 80 < 1 {
            1
        } else if apv * 256 / 80 > PERIOD_CAP {
            PERIOD_CAP as int
        } else {
            apv * 256 / 80
        };
        DecoderView {
            queue: Seq::empty(),
            capacity,
            env_min: 128,
            env_max: 128,
            primed: false,
            low: false,
            count: 0,
            period: first,
            initial_period: first,
            at_boundary: true,
            prev_low: true,
            recent: Seq::new(16, |i: int| false),
            window: Seq::empty(),
            tics: Seq::empty(),
            frame_start: 0,
            prev_end: None,
            tolerance: DEFAULT_TOLERANCE as int,
            resync_after: DEFAULT_RESYNC_AFTER as int,
            outliers: 0,
        }
    }

    /// The first sample tells on which side the signal begins.
    pub open spec fn primed_by(self, s: u8) -> DecoderView {
        if self.primed {
            self
        } else {
            DecoderView { primed: true, low: s < 128, prev_low: !(s < 128), ..self }
        }
    }

    /// The envelope after the sample `s`: each side moves a sixteenth
    /// towards the centre and out again to the sample if that lies beyond.
    pub open spec fn enveloped(self, s: u8) -> DecoderView {
        let low = decayed_low(self.env_min);
        let high = decayed_high(self.env_max);
        DecoderView {
            env_min: if s < low {
                s
            } else {
                low as u8
            },
            env_max: if s > high {
                s
            } else {
                high as u8
            },
            ..self
        }
    }

    /// The sample `s` has crossed to the other side: it lies beyond half of
    /// the envelope there.
    pub open spec fn sees_edge(self, s: u8) -> bool {
        (self.low && s > high_threshold(self.env_max)) || (!self.low && s < low_threshold(
            self.env_min,
        ))
    }

    /// The pulse that ends now is a whole bit cell: longer than three
    /// quarters of the estimate.
    pub open spec fn is_long(self) -> bool {
        1024 * self.count > 3 * self.period
    }

    /// The length of the bit cell that the pulse stands for, in 256ths of a
    /// sample: its own length, or twice that if it is half a cell.
    pub open spec fn measure(self) -> int {
        if self.is_long() {
            256 * self.count
        } else {
            512 * self.count
        }
    }

    /// The position at which a bit ends whose last pulse ended at `edge`
    /// and stood for a cell of `m` 256ths: moved to where the estimate
    /// expects it, unless the pulse was longer than two cells.
    pub open spec fn settled(self, edge: int, m: int) -> int {
        if m > 2 * self.period {
            edge
        } else if self.period >= m {
            clamp64(edge - nearest(self.period - m))
        } else {
            clamp64(edge + (m - self.period + 127) / 256)
        }
    }

    /// The frame that the full window is, as it arrived.
    pub open spec fn forward_frame(self, end: int) -> FrameRecord {
        FrameRecord {
            ltc: frame_bytes(self.window),
            off_start: self.frame_start,
            off_end: clamp64(end - 1),
            reverse: false,
            biphase_tics: self.tics,
            sample_min: self.env_min,
            sample_max: self.env_max,
            volume: (self.env_max - self.env_min) as u8,
        }
    }

    /// The frame that the full window is when it arrived backwards. The
    /// window then holds the data of one frame and the sync word of its
    /// neighbour, so the positions lie sixteen bit cells earlier.
    pub open spec fn reverse_frame(self, end: int) -> FrameRecord {
        let back = 16 * nearest(self.period);
        FrameRecord {
            ltc: frame_bytes(turned_round(self.window)),
            off_start: clamp64(self.frame_start - back),
            off_end: clamp64(clamp64(end - 1) - back),
            reverse: true,
            biphase_tics: self.tics,
            sample_min: self.env_min,
            sample_max: self.env_max,
            volume: (self.env_max - self.env_min) as u8,
        }
    }

    /// The decoder after the bit `bit` that ended at `end`.
    ///
    /// The bit joins the window, which keeps its last eighty bits. A window
    /// that begins anew starts where the last bit ended or, after a loss of
    /// the signal, one estimated cell before `end`. When the last sixteen
    /// bits are the sync word, forwards or backwards, the window is
    /// emptied, and if it was full it goes to the queue as a frame.
    pub open spec fn with_bit(self, bit: bool, end: int) -> DecoderView {
        let taken = self.joined_by(bit, end);
        if taken.recent == sync_forward() {
            DecoderView {
                queue: if taken.window.len() == 80 {
                    keep_last(self.queue.push(taken.forward_frame(end)), self.capacity)
                } else {
                    self.queue
                },
                window: Seq::empty(),
                tics: Seq::empty(),
                ..taken
            }
        } else if taken.recent == sync_reverse() {
            DecoderView {
                queue: if taken.window.len() == 80 {
                    keep_last(self.queue.push(taken.reverse_frame(end)), self.capacity)
                } else {
                    self.queue
                },
                window: Seq::empty(),
                tics: Seq::empty(),
                ..taken
            }
        } else {
            taken
        }
    }

    /// The decoder with the bit `bit` that ended at `end` in its window,
    /// before the window is held against the sync word.
    pub open spec fn joined_by(self, bit: bool, end: int) -> DecoderView {
        DecoderView {
            frame_start: if self.window.len() == 0 {
                match self.prev_end {
                    Some(p) => p as int,
                    None => clamp64(end - nearest(self.period)),
                }
            } else if self.window.len() >= 80 {
                clamp64(self.frame_start + whole_above(self.period))
            } else {
                self.frame_start
            },
            prev_end: Some(end as i64),
            window: keep_last(self.window.push(bit), 80),
            tics: keep_last(self.tics.push(self.period as u32), 80),
            recent: self.recent.skip(1).push(bit),
            ..self
        }
    }

    /// A bit that joins the window keeps the decoder well formed.
    pub proof fn lemma_joined_keeps(self, bit: bool, end: int)
        requires
            self.wf(),
            i64::MIN <= end <= i64::MAX,
        ensures
            self.joined_by(bit, end).wf(),
            self.joined_by(bit, end).same_settings(self),
            self.joined_by(bit, end).queue == self.queue,
    {
        let t = self.joined_by(bit, end);
        let n = t.window.len() as int;
        assert forall|i: int| 0 <= i < 16 && i < n implies #[trigger] t.window[n - 1 - i]
            == t.recent[15 - i] by {
            if i > 0 {
                let k = i - 1;
                assert(self.window[self.window.len() - 1 - k] == self.recent[15 - k]);
            }
        }
    }

    /// A full window whose last sixteen bits are the sync word is a frame
    /// that ends with the sync word.
    pub proof fn lemma_forward_frame_has_sync(self, end: int)
        requires
            self.wf(),
            self.window.len() == 80,
            self.recent == sync_forward(),
        ensures
            has_sync_word(self.forward_frame(end)),
    {
        let w = self.window;
        assert forall|j: int| 0 <= j < 16 implies w[64 + j] == sync_forward()[j] by {
            let i = 15 - j;
            assert(w[w.len() - 1 - i] == self.recent[15 - i]);
        }
        assert(w[64] == sync_forward()[0]);
        assert(w[65] == sync_forward()[1]);
        assert(w[66] == sync_forward()[2]);
        assert(w[67] == sync_forward()[3]);
        assert(w[68] == sync_forward()[4]);
        assert(w[69] == sync_forward()[5]);
        assert(w[70] == sync_forward()[6]);
        assert(w[71] == sync_forward()[7]);
        assert(w[72] == sync_forward()[8]);
        assert(w[73] == sync_forward()[9]);
        assert(w[74] == sync_forward()[10]);
        assert(w[75] == sync_forward()[11]);
        assert(w[76] == sync_forward()[12]);
        assert(w[77] == sync_forward()[13]);
        assert(w[78] == sync_forward()[14]);
        assert(w[79] == sync_forward()[15]);
    }

    /// A full window whose last sixteen bits are the sync word backwards
    /// is, turned round, a frame that ends with the sync word.
    pub proof fn lemma_reverse_frame_has_sync(self, end: int)
        requires
            self.wf(),
            self.window.len() == 80,
            self.recent == sync_reverse(),
        ensures
            has_sync_word(self.reverse_frame(end)),
    {
        let w = self.window;
        let t = turned_round(w);
        assert forall|j: int| 0 <= j < 16 implies w[64 + j] == sync_reverse()[j] by {
            let i = 15 - j;
            assert(w[w.len() - 1 - i] == self.recent[15 - i]);
        }
        assert(t[64] == w[79] && w[79] == sync_reverse()[15]);
        assert(t[65] == w[78] && w[78] == sync_reverse()[14]);
        assert(t[66] == w[77] && w[77] == sync_reverse()[13]);
        assert(t[67] == w[76] && w[76] == sync_reverse()[12]);
        assert(t[68] == w[75] && w[75] == sync_reverse()[11]);
        assert(t[69] == w[74] && w[74] == sync_reverse()[10]);
        assert(t[70] == w[73] && w[73] == sync_reverse()[9]);
        assert(t[71] == w[72] && w[72] == sync_reverse()[8]);
        assert(t[72] == w[71] && w[71] == sync_reverse()[7]);
        assert(t[73] == w[70] && w[70] == sync_reverse()[6]);
        assert(t[74] == w[69] && w[69] == sync_reverse()[5]);
        assert(t[75] == w[68] && w[68] == sync_reverse()[4]);
        assert(t[76] == w[67] && w[67] == sync_reverse()[3]);
        assert(t[77] == w[66] && w[66] == sync_reverse()[2]);
        assert(t[78] == w[65] && w[65] == sync_reverse()[1]);
        assert(t[79] == w[64] && w[64] == sync_reverse()[0]);
    }

    /// The decoder after half a bit cell on the present side that ended at
    /// `edge` as part of a cell of `m` 256ths. A half on the same side as
    /// the half before completes a zero. A half on the other side either
    /// begins a cell or completes a one, in turn.
    pub open spec fn half_cell(self, edge: int, m: int) -> DecoderView {
        let end = self.settled(edge, m);
        if self.low == self.prev_low {
            DecoderView { at_boundary: true, ..self }.with_bit(false, end)
        } else if !self.at_boundary {
            DecoderView { at_boundary: true, prev_low: self.low, ..self }.with_bit(true, end)
        } else {
            DecoderView { at_boundary: false, prev_low: self.low, ..self }
        }
    }

    /// The decoder after the pulse that ends at `edge` was read as half
    /// cells: two for a whole cell, one for half a cell.
    pub open spec fn decoded(self, edge: int) -> DecoderView {
        let m = self.measure();
        if self.is_long() {
            self.half_cell(edge, m).half_cell(edge, m)
        } else {
            self.half_cell(edge, m)
        }
    }

    /// A cell of `m` 256ths is out of tolerance: longer than `tolerance`
    /// times the estimate, or shorter than one part in `tolerance` of it.
    pub open spec fn strays(self, m: int) -> bool {
        m > self.tolerance * self.period || self.tolerance * m < self.period
    }

    /// The decoder after the estimate was held against a cell of `m`
    /// 256ths.
    ///
    /// Within tolerance, the estimate moves a quarter of the way to `m`.
    /// Out of tolerance, the estimate stays, the window is emptied and the
    /// place of the last bit forgotten; after `resync_after` such pulses
    /// in a row the first estimate comes back.
    pub open spec fn retimed(self, m: int) -> DecoderView {
        if self.strays(m) {
            let lost = DecoderView {
                window: Seq::empty(),
                tics: Seq::empty(),
                prev_end: None,
                ..self
            };
            if self.outliers + 1 >= self.resync_after {
                DecoderView { period: self.initial_period, outliers: 0, ..lost }
            } else {
                DecoderView { outliers: self.outliers + 1, ..lost }
            }
        } else {
            DecoderView {
                period: if (3 * self.period + m) / 4 > PERIOD_CAP {
                    PERIOD_CAP as int
                } else {
                    (3 * self.period + m) / 4
                },
                outliers: 0,
                ..self
            }
        }
    }

    /// The decoder after an edge at `edge`: the pulse before it is decoded,
    /// the estimate is held against it, and a new pulse begins on the other
    /// side.
    pub open spec fn after_edge(self, edge: int) -> DecoderView {
        let timed = self.decoded(edge).retimed(self.measure());
        DecoderView { count: 0, low: !self.low, ..timed }
    }

    /// The decoder with one more sample counted to the present pulse.
    pub open spec fn counted(self) -> DecoderView {
        DecoderView {
            count: if self.count < COUNT_CAP {
                self.count + 1
            } else {
                self.count
            },
            ..self
        }
    }

    /// The decoder after the sample `s` at position `pos`.
    #[verifier::opaque]
    pub open spec fn step(self, s: u8, pos: int) -> DecoderView {
        let enveloped = self.primed_by(s).enveloped(s);
        if enveloped.sees_edge(s) {
            enveloped.after_edge(pos).counted()
        } else {
            enveloped.counted()
        }
    }

    /// The decoder after the samples `samples`, the first of which is at
    /// position `pos`.
    pub open spec fn fed(self, samples: Seq<u8>, pos: int) -> DecoderView
        decreases samples.len(),
    {
        if samples.len() == 0 {
            self
        } else {
            self.fed(samples.drop_last(), pos).step(
                samples.last(),
                clamp64(pos + samples.len() - 1),
            )
        }
    }

    /// Every step keeps the decoder well formed, its queue within its
    /// capacity, and its settings as they are.
    pub proof fn lemma_step_keeps(self, s: u8, pos: int)
        requires
            self.wf(),
            i64::MIN <= pos <= i64::MAX,
        ensures
            self.step(s, pos).wf(),
            self.step(s, pos).capacity == self.capacity,
            self.step(s, pos).tolerance == self.tolerance,
            self.step(s, pos).resync_after == self.resync_after,
            self.step(s, pos).initial_period == self.initial_period,
    {
        reveal(DecoderView::step);
        let t = self.primed_by(s).enveloped(s);
        assert(t.wf());
        if t.sees_edge(s) {
            let m = t.measure();
            t.lemma_decoded_keeps(pos);
            let d = t.decoded(pos);
            assert(d.retimed(m).wf());
        }
    }

    /// A bit that is taken keeps the decoder well formed: a frame that goes
    /// to the queue ends with the sync word.
    pub proof fn lemma_with_bit_keeps(self, bit: bool, end: int)
        requires
            self.wf(),
            i64::MIN <= end <= i64::MAX,
        ensures
            self.with_bit(bit, end).wf(),
            self.with_bit(bit, end).same_settings(self),
    {
        self.lemma_joined_keeps(bit, end);
        let taken = self.joined_by(bit, end);
        if taken.window.len() == 80 {
            if taken.recent == sync_forward() {
                taken.lemma_forward_frame_has_sync(end);
            } else if taken.recent == sync_reverse() {
                taken.lemma_reverse_frame_has_sync(end);
            }
        }
        let after = self.with_bit(bit, end);
        assert forall|i: int| 0 <= i < after.queue.len() implies has_sync_word(
            #[trigger] after.queue[i],
        ) by {
            if after.queue != self.queue {
                let x = if taken.recent == sync_forward() {
                    taken.forward_frame(end)
                } else {
                    taken.reverse_frame(end)
                };
                let pushed = self.queue.push(x);
                assert(forall|j: int| 0 <= j < pushed.len() ==> has_sync_word(#[trigger] pushed[j]));
                if pushed.len() > self.capacity {
                    assert(after.queue[i] == pushed[i + (pushed.len() - self.capacity)]);
                }
            }
        }
    }

    /// The two decoders differ in nothing that an edge leaves alone.
    pub open spec fn same_settings(self, other: DecoderView) -> bool {
        &&& self.capacity == other.capacity
        &&& self.tolerance == other.tolerance
        &&& self.resync_after == other.resync_after
        &&& self.initial_period == other.initial_period
        &&& self.outliers == other.outliers
        &&& self.period == other.period
        &&& self.count == other.count
        &&& self.low == other.low
        &&& self.env_min == other.env_min
        &&& self.env_max == other.env_max
        &&& self.primed == other.primed
    }

    /// Half a bit cell keeps the decoder well formed.
    pub proof fn lemma_half_cell_keeps(self, edge: int, m: int)
        requires
            self.wf(),
            i64::MIN <= edge <= i64::MAX,
            0 <= m,
        ensures
            self.half_cell(edge, m).wf(),
            self.half_cell(edge, m).same_settings(self),
    {
        let end = self.settled(edge, m);
        DecoderView { at_boundary: true, ..self }.lemma_with_bit_keeps(false, end);
        DecoderView { at_boundary: true, prev_low: self.low, ..self }.lemma_with_bit_keeps(
            true,
            end,
        );
    }

    /// A pulse read as half cells keeps the decoder well formed.
    pub proof fn lemma_decoded_keeps(self, edge: int)
        requires
            self.wf(),
            i64::MIN <= edge <= i64::MAX,
        ensures
            self.decoded(edge).wf(),
            self.decoded(edge).same_settings(self),
    {
        let m = self.measure();
        self.lemma_half_cell_keeps(edge, m);
        self.half_cell(edge, m).lemma_half_cell_keeps(edge, m);
    }

    /// Feeding samples keeps the decoder well formed, its queue within its
    /// capacity, and its settings as they are.
    pub proof fn lemma_fed_keeps(self, samples: Seq<u8>, pos: int)
        requires
            self.wf(),
        ensures
            self.fed(samples, pos).wf(),
            self.fed(samples, pos).capacity == self.capacity,
            self.fed(samples, pos).tolerance == self.tolerance,
            self.fed(samples, pos).resync_after == self.resync_after,
            self.fed(samples, pos).initial_period == self.initial_period,
        decreases samples.len(),
    {
        if samples.len() > 0 {
            self.lemma_fed_keeps(samples.drop_last(), pos);
            self.fed(samples.drop_last(), pos).lemma_step_keeps(
                samples.last(),
                clamp64(pos + samples.len() - 1),
            );
        }
    }
}

/// The records of a queue of frames.
pub open spec fn records(q: Seq<LTCFrameExt>) -> Seq<FrameRecord> {
    q.map_values(|x: LTCFrameExt| x@)
}

proof fn lemma_records_pushed(q: Seq<LTCFrameExt>, x: LTCFrameExt, cap: int)
    requires
        cap >= 1,
    ensures
        records(keep_last(q.push(x), cap)) == keep_last(records(q).push(x@), cap),
{
    assert(records(keep_last(q.push(x), cap)) =~= keep_last(records(q).push(x@), cap));
}

/// Sixteen bits, none of them set.
pub fn blank_word() -> (r: Vec<bool>)
    ensures
        r@ == Seq::new(16, |i: int| false),
{
    let mut r: Vec<bool> = Vec::new();
    while r.len() < 16
        invariant
            r.len() <= 16,
            forall|i: int| 0 <= i < r.len() ==> !r@[i],
        decreases 16 - r.len(),
    {
        r.push(false);
    }
    assert(r@ =~= Seq::new(16, |i: int| false));
    r
}

/// The sync word as its sixteen bits arrive.
pub fn forward_word() -> (r: [bool; 16])
    ensures
        r@ == sync_forward(),
{
    let r = [
        false,
        false,
        true,
        true,
        true,
        true,
        true,
        true,
        true,
        true,
        true,
        true,
        true,
        true,
        false,
        true,
    ];
    assert(r@ =~= sync_forward());
    r
}

/// The sync word as its sixteen bits arrive when played backwards.
pub fn reverse_word() -> (r: [bool; 16])
    ensures
        r@ == sync_reverse(),
{
    let r = [
        true,
        false,
        true,
        true,
        true,
        true,
        true,
        true,
        true,
        true,
        true,
        true,
        true,
        true,
        false,
        false,
    ];
    assert(r@ =~= sync_reverse());
    r
}

/// Tells whether sixteen bits are the given word.
pub fn is_word(recent: &Vec<bool>, word: [bool; 16]) -> (r: bool)
    requires
        recent.len() == 16,
    ensures
        r == (recent@ == word@),
{
    let mut i: usize = 0;
    while i < 16
        invariant
            i <= 16,
            recent.len() == 16,
            forall|j: int| 0 <= j < i ==> recent@[j] == word@[j],
        decreases 16 - i,
    {
        if recent[i] != word[i] {
            return false;
        }
        i = i + 1;
    }
    assert(recent@ =~= word@);
    true
}

fn clamp_pos(x: i128) -> (r: i64)
    ensures
        r == clamp64(x as int),
{
    if x < i64::MIN as i128 {
        i64::MIN
    } else if x > i64::MAX as i128 {
        i64::MAX
    } else {
        x as i64
    }
}

fn bit_weight(b: bool, w: u8) -> (r: u8)
    ensures
        r == (if b {
            w
        } else {
            0
        }),
{
    if b {
        w
    } else {
        0
    }
}

fn pack_byte(bits: &Vec<bool>, k: usize) -> (r: u8)
    requires
        k < 10,
        bits.len() == 80,
    ensures
        r == byte_of_bits(bits@, k as int),
{
    let base: usize = 8 * k;
    let lo: u8 = bit_weight(bits[base], 1) + bit_weight(bits[base + 1], 2) + bit_weight(
        bits[base + 2],
        4,
    ) + bit_weight(bits[base + 3], 8);
    let hi: u8 = bit_weight(bits[base + 4], 16) + bit_weight(bits[base + 5], 32) + bit_weight(
        bits[base + 6],
        64,
    ) + bit_weight(bits[base + 7], 128);
    lo + hi
}

/// Packs eighty bits into the ten bytes of a frame, first bit lowest.
pub fn pack_bits(bits: &Vec<bool>) -> (r: LTCFrame)
    requires
        bits.len() == 80,
    ensures
        r@ == frame_bytes(bits@),
{
    let r = LTCFrame {
        ltc: [
            pack_byte(bits, 0),
            pack_byte(bits, 1),
            pack_byte(bits, 2),
            pack_byte(bits, 3),
            pack_byte(bits, 4),
            pack_byte(bits, 5),
            pack_byte(bits, 6),
            pack_byte(bits, 7),
            pack_byte(bits, 8),
            pack_byte(bits, 9),
        ],
    };
    assert(r@ =~= frame_bytes(bits@));
    r
}

/// Puts eighty bits that arrived backwards in order.
pub fn turn_round(bits: &Vec<bool>) -> (r: Vec<bool>)
    requires
        bits.len() == 80,
    ensures
        r@ == turned_round(bits@),
{
    let mut r: Vec<bool> = Vec::new();
    let mut i: usize = 0;
    while i < 80
        invariant
            i <= 80,
            bits.len() == 80,
            r.len() == i,
            forall|j: int| 0 <= j < i ==> r@[j] == turned_round(bits@)[j],
        decreases 80 - i,
    {
        let b: bool = if i < 64 {
            bits[63 - i]
        } else {
            bits[143 - i]
        };
        r.push(b);
        i = i + 1;
    }
    assert(r@ =~= turned_round(bits@));
    r
}

fn copy_tics(tics: &Vec<u32>) -> (r: [u32; 80])
    requires
        tics.len() == 80,
    ensures
        r@ == tics@,
{
    let mut r: [u32; 80] = [0u32;80];
    let mut i: usize = 0;
    while i < 80
        invariant
            i <= 80,
            tics.len() == 80,
            forall|j: int| 0 <= j < i ==> r@[j] == tics@[j],
        decreases 80 - i,
    {
        r[i] = tics[i];
        i = i + 1;
    }
    assert(r@ =~= tics@);
    r
}

/// Decodes a stream of samples into frames.
///
/// The decoder keeps what it has learnt of the signal from one call to the
/// next, so a frame may lie across any number of calls. Frames that are
/// complete wait in a queue of fixed capacity until they are read; when the
/// queue is full, a new frame takes the place of the oldest.
pub struct LTCDecoder {
    queue: FrameQueue,
    env_min: u8,
    env_max: u8,
    primed: bool,
    low: bool,
    count: u32,
    period: u32,
    initial_period: u32,
    at_boundary: bool,
    prev_low: bool,
    recent: Vec<bool>,
    window: Vec<bool>,
    tics: Vec<u32>,
    frame_start: i64,
    prev_end: Option<i64>,
    tolerance: u32,
    resync_after: u32,
    outliers: u32,
}

impl View for LTCDecoder {
    type V = DecoderView;

    closed spec fn view(&self) -> DecoderView {
        DecoderView {
            queue: records(self.queue@),
            capacity: self.queue.cap(),
            env_min: self.env_min,
            env_max: self.env_max,
            primed: self.primed,
            low: self.low,
            count: self.count as int,
            period: self.period as int,
            initial_period: self.initial_period as int,
            at_boundary: self.at_boundary,
            prev_low: self.prev_low,
            recent: self.recent@,
            window: self.window@,
            tics: self.tics@,
            frame_start: self.frame_start as int,
            prev_end: self.prev_end,
            tolerance: self.tolerance as int,
            resync_after: self.resync_after as int,
            outliers: self.outliers as int,
        }
    }
}

impl LTCDecoder {
    /// The decoder is in a state that its operations keep.
    #[verifier::opaque]
    pub closed spec fn wf(&self) -> bool {
        self.queue.wf() && self@.wf()
    }

    /// A decoder that is in a state that its operations keep holds what is
    /// well formed.
    pub proof fn lemma_wf(&self)
        requires
            self.wf(),
        ensures
            self@.wf(),
    {
        reveal(LTCDecoder::wf);
    }

    /// Makes a decoder for a signal of about `apv` samples to the frame,
    /// with a queue of `queue_size` frames. The call fails unless both are
    /// at least one.
    pub fn try_new(apv: i32, queue_size: i32) -> (r: Result<LTCDecoder, LTCDecoderError>)
        ensures
            r.is_ok() <==> (apv >= 1 && queue_size >= 1),
            r.is_ok() ==> r.unwrap().wf() && r.unwrap()@ == DecoderView::fresh(
                apv as int,
                queue_size as int,
            ),
    {
        reveal(LTCDecoder::wf);
        if apv < 1 || queue_size < 1 {
            return Err(LTCDecoderError::CreateError);
        }
        let first: u64 = (apv as u64) * 256 / 80;
        let first: u32 = if first < 1 {
            1
        } else if first > PERIOD_CAP as u64 {
            PERIOD_CAP
        } else {
            first as u32
        };
        match FrameQueue::new(queue_size as usize) {
            None => Err(LTCDecoderError::CreateError),
            Some(queue) => {
                let d = LTCDecoder {
                    queue,
                    env_min: 128,
                    env_max: 128,
                    primed: false,
                    low: false,
                    count: 0,
                    period: first,
                    initial_period: first,
                    at_boundary: true,
                    prev_low: true,
                    recent: blank_word(),
                    window: Vec::new(),
                    tics: Vec::new(),
                    frame_start: 0,
                    prev_end: None,
                    tolerance: DEFAULT_TOLERANCE,
                    resync_after: DEFAULT_RESYNC_AFTER,
                    outliers: 0,
                };
                proof {
                    d.queue.lemma_wf();
                    assert(d@.queue =~= Seq::<FrameRecord>::empty());
                }
                Ok(d)
            },
        }
    }

    /// Sets how far a pulse may stray. A pulse that stands for a bit cell
    /// longer than `tolerance` estimated bit cells, or shorter than one
    /// part in `tolerance` of the estimate, is out of tolerance;
    /// `resync_after` such pulses in a row bring the first estimate back.
    /// A zero counts as one.
    pub fn set_tolerance(&mut self, tolerance: u32, resync_after: u32)
        requires
            old(self).wf(),
        ensures
            final(self).wf(),
            final(self)@ == (DecoderView {
                tolerance: if tolerance < 1 {
                    1
                } else {
                    tolerance as int
                },
                resync_after: if resync_after < 1 {
                    1
                } else {
                    resync_after as int
                },
                outliers: 0,
                ..old(self)@
            }),
    {
        reveal(LTCDecoder::wf);
        self.tolerance = if tolerance < 1 {
            1
        } else {
            tolerance
        };
        self.resync_after = if resync_after < 1 {
            1
        } else {
            resync_after
        };
        self.outliers = 0;
    }

    fn span(&self) -> (r: u8)
        requires
            self.wf(),
        ensures
            r == (self@.env_max - self@.env_min) as u8,
    {
        reveal(LTCDecoder::wf);
        self.env_max - self.env_min
    }

    fn forward_ext(&self, end: i64) -> (r: LTCFrameExt)
        requires
            self.wf(),
            self@.window.len() == 80,
        ensures
            r@ == self@.forward_frame(end as int),
    {
        reveal(LTCDecoder::wf);
        LTCFrameExt {
            ltc: pack_bits(&self.window),
            off_start: self.frame_start,
            off_end: clamp_pos(end as i128 - 1),
            reverse: false,
            biphase_tics: copy_tics(&self.tics),
            sample_min: self.env_min,
            sample_max: self.env_max,
            volume: self.span(),
        }
    }

    fn reverse_ext(&self, end: i64) -> (r: LTCFrameExt)
        requires
            self.wf(),
            self@.window.len() == 80,
        ensures
            r@ == self@.reverse_frame(end as int),
    {
        reveal(LTCDecoder::wf);
        let back: i128 = 16 * (((self.period as u64 + 128) / 256) as i128);
        let turned: Vec<bool> = turn_round(&self.window);
        let last: i64 = clamp_pos(end as i128 - 1);
        LTCFrameExt {
            ltc: pack_bits(&turned),
            off_start: clamp_pos(self.frame_start as i128 - back),
            off_end: clamp_pos(last as i128 - back),
            reverse: true,
            biphase_tics: copy_tics(&self.tics),
            sample_min: self.env_min,
            sample_max: self.env_max,
            volume: self.span(),
        }
    }

    fn take_bit(&mut self, bit: bool, end: i64)
        requires
            old(self).wf(),
        ensures
            final(self).wf(),
            final(self)@ == old(self)@.with_bit(bit, end as int),
    {
        reveal(LTCDecoder::wf);
        proof {
            old(self)@.lemma_with_bit_keeps(bit, end as int);
        }
        let n: usize = self.window.len();
        if n == 0 {
            self.frame_start = match self.prev_end {
                Some(p) => p,
                None => clamp_pos(end as i128 - ((self.period as u64 + 128) / 256) as i128),
            };
        } else if n >= 80 {
            self.frame_start = clamp_pos(
                self.frame_start as i128 + ((self.period as u64 + 255) / 256) as i128,
            );
        }
        self.prev_end = Some(end);
        self.window.push(bit);
        self.tics.push(self.period);
        if self.window.len() > 80 {
            let _ = self.window.remove(0);
            let _ = self.tics.remove(0);
        }
        proof {
            assert(self.window@ =~= keep_last(old(self).window@.push(bit), 80));
            assert(self.tics@ =~= keep_last(old(self).tics@.push(old(self).period), 80));
        }
        let _ = self.recent.remove(0);
        self.recent.push(bit);
        proof {
            assert(self.recent@ =~= old(self).recent@.skip(1).push(bit));
            old(self)@.lemma_joined_keeps(bit, end as int);
            assert(self@ == old(self)@.joined_by(bit, end as int));
        }
        if is_word(&self.recent, forward_word()) {
            if self.window.len() == 80 {
                let x: LTCFrameExt = self.forward_ext(end);
                proof {
                    lemma_records_pushed(self.queue@, x, self.queue.cap());
                }
                let _ = self.queue.push(x);
            }
            self.window.clear();
            self.tics.clear();
        } else if is_word(&self.recent, reverse_word()) {
            if self.window.len() == 80 {
                let x: LTCFrameExt = self.reverse_ext(end);
                proof {
                    lemma_records_pushed(self.queue@, x, self.queue.cap());
                }
                let _ = self.queue.push(x);
            }
            self.window.clear();
            self.tics.clear();
        }
    }

    fn settle(&self, edge: i64, m: u64) -> (r: i64)
        requires
            self.wf(),
            m <= 512 * COUNT_CAP,
        ensures
            r == self@.settled(edge as int, m as int),
    {
        reveal(LTCDecoder::wf);
        let p: u64 = self.period as u64;
        if m > 2 * p {
            edge
        } else if p >= m {
            clamp_pos(edge as i128 - ((p - m + 128) / 256) as i128)
        } else {
            clamp_pos(edge as i128 + ((m - p + 127) / 256) as i128)
        }
    }

    fn take_half_cell(&mut self, edge: i64, m: u64)
        requires
            old(self).wf(),
            m <= 512 * COUNT_CAP,
        ensures
            final(self).wf(),
            final(self)@ == old(self)@.half_cell(edge as int, m as int),
    {
        reveal(LTCDecoder::wf);
        proof {
            old(self)@.lemma_half_cell_keeps(edge as int, m as int);
        }
        let end: i64 = self.settle(edge, m);
        if self.low == self.prev_low {
            self.at_boundary = true;
            self.take_bit(false, end);
        } else if !self.at_boundary {
            self.at_boundary = true;
            self.prev_low = self.low;
            self.take_bit(true, end);
        } else {
            self.at_boundary = false;
            self.prev_low = self.low;
        }
    }

    fn retime(&mut self, m: u64)
        requires
            old(self).wf(),
            m <= 512 * COUNT_CAP,
        ensures
            final(self).wf(),
            final(self)@ == old(self)@.retimed(m as int),
    {
        reveal(LTCDecoder::wf);
        assert(self.tolerance * self.period <= 0xFFFF_FFFF * 0xFFFF_FFFF) by (nonlinear_arith)
            requires
                self.tolerance <= 0xFFFF_FFFF,
                self.period <= 0xFFFF_FFFF,
        ;
        assert(self.tolerance * m <= 0xFFFF_FFFF * (512 * 0xFFFF_FFFF)) by (nonlinear_arith)
            requires
                self.tolerance <= 0xFFFF_FFFF,
                m <= 512 * 0xFFFF_FFFF,
        ;
        let bound: u64 = (self.tolerance as u64) * (self.period as u64);
        let reach: u128 = (self.tolerance as u128) * (m as u128);
        if m > bound || reach < self.period as u128 {
            self.window.clear();
            self.tics.clear();
            self.prev_end = None;
            if self.outliers + 1 >= self.resync_after {
                self.period = self.initial_period;
                self.outliers = 0;
            } else {
                self.outliers = self.outliers + 1;
            }
        } else {
            let next: u64 = (3 * (self.period as u64) + m) / 4;
            self.period = if next > PERIOD_CAP as u64 {
                PERIOD_CAP
            } else {
                next as u32
            };
            self.outliers = 0;
        }
    }

    fn take_edge(&mut self, edge: i64)
        requires
            old(self).wf(),
        ensures
            final(self).wf(),
            final(self)@ == old(self)@.after_edge(edge as int),
    {
        reveal(LTCDecoder::wf);
        proof {
            old(self)@.lemma_decoded_keeps(edge as int);
        }
        let c: u64 = self.count as u64;
        let long: bool = 1024 * c > 3 * (self.period as u64);
        let m: u64 = if long {
            256 * c
        } else {
            512 * c
        };
        let was_low: bool = self.low;
        self.take_half_cell(edge, m);
        if long {
            self.take_half_cell(edge, m);
        }
        self.retime(m);
        self.count = 0;
        self.low = !was_low;
    }

    /// Takes in one sample on the scale of a byte, found at position `pos`
    /// of the stream.
    pub fn feed(&mut self, s: u8, pos: i64)
        requires
            old(self).wf(),
        ensures
            final(self).wf(),
            final(self)@ == old(self)@.step(s, pos as int),
    {
        reveal(LTCDecoder::wf);
        reveal(DecoderView::step);
        proof {
            old(self)@.lemma_step_keeps(s, pos as int);
        }
        if !self.primed {
            self.primed = true;
            self.low = s < 128;
            self.prev_low = !(s < 128);
        }
        let low: u8 = 128 - (((128 - self.env_min) as u16 * 15) / 16) as u8;
        let high: u8 = 128 + (((self.env_max - 128) as u16 * 15) / 16) as u8;
        self.env_min = if s < low {
            s
        } else {
            low
        };
        self.env_max = if s > high {
            s
        } else {
            high
        };
        let low_at: u8 = 128 - (((128 - self.env_min) as u16 * 8) / 16) as u8;
        let high_at: u8 = 128 + (((self.env_max - 128) as u16 * 8) / 16) as u8;
        if (self.low && s > high_at) || (!self.low && s < low_at) {
            self.take_edge(pos);
        }
        if self.count < COUNT_CAP {
            self.count = self.count + 1;
        }
    }

    /// Takes in samples on the scale of a byte, the first of which is at
    /// position `posinfo` of the stream. Frames that are completed go to
    /// the queue.
    pub fn write_u8(&mut self, buf: &[u8], posinfo: i64)
        requires
            old(self).wf(),
        ensures
            final(self).wf(),
            final(self)@ == old(self)@.fed(buf@, posinfo as int),
    {
        let n: usize = buf.len();
        let mut i: usize = 0;
        proof {
            assert(buf@.take(0) =~= Seq::<u8>::empty());
        }
        while i < n
            invariant
                i <= n,
                n == buf@.len(),
                self.wf(),
                self@ == old(self)@.fed(buf@.take(i as int), posinfo as int),
            decreases n - i,
        {
            proof {
                assert(buf@.take(i + 1).drop_last() =~= buf@.take(i as int));
            }
            self.feed(buf[i], clamp_pos(posinfo as i128 + i as i128));
            i = i + 1;
        }
        proof {
            assert(buf@.take(n as int) =~= buf@);
        }
    }

    /// Takes in 32-bit samples that are on the scale of a byte already;
    /// values outside `0..=255` count as the nearest of the two.
    pub fn write(&mut self, buf: &[i32], posinfo: i64)
        requires
            old(self).wf(),
        ensures
            final(self).wf(),
            final(self)@ == old(self)@.fed(
                buf@.map_values(|x: i32| sample_of_i32(x)),
                posinfo as int,
            ),
    {
        let ghost samples = buf@.map_values(|x: i32| sample_of_i32(x));
        let n: usize = buf.len();
        let mut i: usize = 0;
        proof {
            assert(samples.take(0) =~= Seq::<u8>::empty());
        }
        while i < n
            invariant
                i <= n,
                n == buf@.len(),
                samples == buf@.map_values(|x: i32| sample_of_i32(x)),
                self.wf(),
                self@ == old(self)@.fed(samples.take(i as int), posinfo as int),
            decreases n - i,
        {
            proof {
                assert(samples.take(i + 1).drop_last() =~= samples.take(i as int));
            }
            let x: i32 = buf[i];
            let s: u8 = if x < 0 {
                0
            } else if x > 255 {
                255
            } else {
                x as u8
            };
            self.feed(s, clamp_pos(posinfo as i128 + i as i128));
            i = i + 1;
        }
        proof {
            assert(samples.take(n as int) =~= samples);
        }
    }

    /// Takes in signed 16-bit samples: the high byte of each, moved up by
    /// the centre.
    pub fn write_s16(&mut self, buf: &[i16], posinfo: i64)
        requires
            old(self).wf(),
        ensures
            final(self).wf(),
            final(self)@ == old(self)@.fed(
                buf@.map_values(|x: i16| sample_of_s16(x)),
                posinfo as int,
            ),
    {
        let ghost samples = buf@.map_values(|x: i16| sample_of_s16(x));
        let n: usize = buf.len();
        let mut i: usize = 0;
        proof {
            assert(samples.take(0) =~= Seq::<u8>::empty());
        }
        while i < n
            invariant
                i <= n,
                n == buf@.len(),
                samples == buf@.map_values(|x: i16| sample_of_s16(x)),
                self.wf(),
                self@ == old(self)@.fed(samples.take(i as int), posinfo as int),
            decreases n - i,
        {
            proof {
                assert(samples.take(i + 1).drop_last() =~= samples.take(i as int));
            }
            let x: i32 = buf[i] as i32;
            let s: u8 = if x >= 0 {
                (128 + x / 256) as u8
            } else {
                (128 - (255 - x) / 256) as u8
            };
            self.feed(s, clamp_pos(posinfo as i128 + i as i128));
            i = i + 1;
        }
        proof {
            assert(samples.take(n as int) =~= samples);
        }
    }

    /// Takes in unsigned 16-bit samples: the high byte of each.
    pub fn write_u16(&mut self, buf: &[u16], posinfo: i64)
        requires
            old(self).wf(),
        ensures
            final(self).wf(),
            final(self)@ == old(self)@.fed(
                buf@.map_values(|x: u16| sample_of_u16(x)),
                posinfo as int,
            ),
    {
        let ghost samples = buf@.map_values(|x: u16| sample_of_u16(x));
        let n: usize = buf.len();
        let mut i: usize = 0;
        proof {
            assert(samples.take(0) =~= Seq::<u8>::empty());
        }
        while i < n
            invariant
                i <= n,
                n == buf@.len(),
                samples == buf@.map_values(|x: u16| sample_of_u16(x)),
                self.wf(),
                self@ == old(self)@.fed(samples.take(i as int), posinfo as int),
            decreases n - i,
        {
            proof {
                assert(samples.take(i + 1).drop_last() =~= samples.take(i as int));
            }
            let s: u8 = (buf[i] / 256) as u8;
            self.feed(s, clamp_pos(posinfo as i128 + i as i128));
            i = i + 1;
        }
        proof {
            assert(samples.take(n as int) =~= samples);
        }
    }

    /// Takes the oldest decoded frame out of the queue, if there is one.
    pub fn read(&mut self) -> (r: Option<LTCFrameExt>)
        requires
            old(self).wf(),
        ensures
            final(self).wf(),
            old(self)@.queue.len() == 0 ==> r.is_none() && final(self)@ == old(self)@,
            old(self)@.queue.len() > 0 ==> r.is_some() && r.unwrap()@ == old(self)@.queue[0]
                && final(self)@ == (DecoderView {
                queue: old(self)@.queue.skip(1),
                ..old(self)@
            }),
            r.is_some() ==> has_sync_word(r.unwrap()@),
    {
        reveal(LTCDecoder::wf);
        let r = self.queue.pop();
        proof {
            if old(self).queue@.len() > 0 {
                assert(records(self.queue@) =~= records(old(self).queue@).skip(1));
                assert(has_sync_word(old(self)@.queue[0]));
                assert forall|i: int| 0 <= i < self@.queue.len() implies has_sync_word(
                    #[trigger] self@.queue[i],
                ) by {
                    assert(self@.queue[i] == old(self)@.queue[i + 1]);
                }
            }
        }
        r
    }

    /// Drops the decoded frames that were not read. What the decoder has
    /// learnt of the signal stays.
    pub fn queue_flush(&mut self)
        requires
            old(self).wf(),
        ensures
            final(self).wf(),
            final(self)@ == (DecoderView { queue: Seq::empty(), ..old(self)@ }),
    {
        reveal(LTCDecoder::wf);
        self.queue.flush();
        proof {
            assert(records(self.queue@) =~= Seq::<FrameRecord>::empty());
        }
    }

    /// Number of decoded frames that wait to be read.
    pub fn queue_length(&self) -> (r: i32)
        requires
            self.wf(),
        ensures
            r == self@.queue.len(),
            0 <= r <= self@.capacity,
    {
        reveal(LTCDecoder::wf);
        self.queue.len() as i32
    }
}

} // verus!
