//! Noise that leaves the edges where they are.
//!
//! The decoder goes by the edges of a signal alone: by the samples at which
//! the signal crosses to the other side of the centre, beyond half of the
//! envelope there. Two signals with their edges at the same samples are
//! therefore decoded to the same frames, at the same positions; only what
//! the frames tell of the envelope may differ.

use crate::channel::{clean_row, joined, lemma_square_pulse, run, square};
use crate::decoder::{clamp64, high_threshold, low_threshold, DecoderView};
use crate::encoder::{frame_samples, EncoderView, NOMINAL_SPEED};
use crate::queue::{keep_last, FrameRecord};
use crate::wave::{pulse, pulse_sample, shaped_level, shaped_step, Pen, Stroke};
use vstd::prelude::*;

verus! {

/// The two frames differ in nothing but what they tell of the envelope.
pub open spec fn same_frame(a: FrameRecord, b: FrameRecord) -> bool {
    b == (FrameRecord {
        sample_min: b.sample_min,
        sample_max: b.sample_max,
        volume: b.volume,
        ..a
    })
}

/// The two queues hold the same frames but for what they tell of the
/// envelope.
pub open spec fn same_frames(p: Seq<FrameRecord>, q: Seq<FrameRecord>) -> bool {
    &&& p.len() == q.len()
    &&& forall|i: int| 0 <= i < p.len() ==> same_frame(#[trigger] p[i], q[i])
}

/// Two queues that hold the same frames still do after a push onto each.
pub proof fn lemma_pushed_alike(
    p: Seq<FrameRecord>,
    q: Seq<FrameRecord>,
    x: FrameRecord,
    y: FrameRecord,
    cap: int,
)
    requires
        same_frames(p, q),
        same_frame(x, y),
    ensures
        same_frames(keep_last(p.push(x), cap), keep_last(q.push(y), cap)),
{
    let pp = p.push(x);
    let qq = q.push(y);
    assert forall|i: int| 0 <= i < pp.len() implies same_frame(#[trigger] pp[i], qq[i]) by {
        if i < p.len() {
            assert(same_frame(p[i], q[i]));
        }
    }
    let pk = keep_last(pp, cap);
    let qk = keep_last(qq, cap);
    assert forall|i: int| 0 <= i < pk.len() implies same_frame(#[trigger] pk[i], qk[i]) by {
        if pp.len() <= cap {
            assert(same_frame(pp[i], qq[i]));
        } else {
            assert(same_frame(pp[i + (pp.len() - cap)], qq[i + (pp.len() - cap)]));
        }
    }
}

impl DecoderView {
    /// The two decoders differ in nothing but the envelope and what the
    /// frames in their queues tell of it.
    pub open spec fn alike(self, other: DecoderView) -> bool {
        &&& other == (DecoderView {
            queue: other.queue,
            env_min: other.env_min,
            env_max: other.env_max,
            ..self
        })
        &&& same_frames(self.queue, other.queue)
    }

    /// Decoders that are alike are alike after the same bit.
    pub proof fn lemma_with_bit_alike(self, other: DecoderView, bit: bool, end: int)
        requires
            self.alike(other),
        ensures
            self.with_bit(bit, end).alike(other.with_bit(bit, end)),
    {
        let a = self.joined_by(bit, end);
        let b = other.joined_by(bit, end);
        assert(a.alike(b));
        lemma_pushed_alike(
            self.queue,
            other.queue,
            a.forward_frame(end),
            b.forward_frame(end),
            self.capacity,
        );
        lemma_pushed_alike(
            self.queue,
            other.queue,
            a.reverse_frame(end),
            b.reverse_frame(end),
            self.capacity,
        );
    }

    /// Decoders that are alike are alike after the same half cell.
    pub proof fn lemma_half_cell_alike(self, other: DecoderView, edge: int, m: int)
        requires
            self.alike(other),
        ensures
            self.half_cell(edge, m).alike(other.half_cell(edge, m)),
    {
        let end = self.settled(edge, m);
        assert(other.settled(edge, m) == end);
        (DecoderView { at_boundary: true, ..self }).lemma_with_bit_alike(
            DecoderView { at_boundary: true, ..other },
            false,
            end,
        );
        (DecoderView { at_boundary: true, prev_low: self.low, ..self }).lemma_with_bit_alike(
            DecoderView { at_boundary: true, prev_low: other.low, ..other },
            true,
            end,
        );
    }

    /// Decoders that are alike are alike after the same edge.
    pub proof fn lemma_after_edge_alike(self, other: DecoderView, edge: int)
        requires
            self.alike(other),
        ensures
            self.after_edge(edge).alike(other.after_edge(edge)),
    {
        let m = self.measure();
        assert(other.measure() == m);
        self.lemma_half_cell_alike(other, edge, m);
        self.half_cell(edge, m).lemma_half_cell_alike(other.half_cell(edge, m), edge, m);
        let a = self.decoded(edge);
        let b = other.decoded(edge);
        assert(a.alike(b));
        assert(a.retimed(m).alike(b.retimed(m)));
    }

    /// Decoders that are alike are alike after a sample each, if both see
    /// an edge in theirs or neither does, and both take their first sample
    /// to lie on the same side.
    pub proof fn lemma_step_alike(self, other: DecoderView, s: u8, t: u8, pos: int)
        requires
            self.alike(other),
            self.primed_by(s).enveloped(s).sees_edge(s) == other.primed_by(t).enveloped(
                t,
            ).sees_edge(t),
            self.primed || (s < 128) == (t < 128),
        ensures
            self.step(s, pos).alike(other.step(t, pos)),
    {
        reveal(DecoderView::step);
        let a = self.primed_by(s).enveloped(s);
        let b = other.primed_by(t).enveloped(t);
        assert(a.alike(b));
        if a.sees_edge(s) {
            a.lemma_after_edge_alike(b, pos);
        }
    }
}

/// Sample `i` of the signal is the first of a pulse: the first of all, or
/// one on the other side of the centre than the sample before it.
pub open spec fn begins_pulse(signal: Seq<u8>, i: int) -> bool {
    i == 0 || (signal[i] < 128) != (signal[i - 1] < 128)
}

/// The sample `v` is heard where sample `i` of the signal is, by a decoder
/// whose envelope lies within `lo` and `hi`: it lies on the same side of
/// the centre or at the centre and, where it is the first of a pulse,
/// beyond half of the envelope.
pub open spec fn keeps_side(v: u8, signal: Seq<u8>, i: int, lo: u8, hi: u8) -> bool {
    if signal[i] < 128 {
        if begins_pulse(signal, i) {
            v < low_threshold(lo)
        } else {
            v <= 128
        }
    } else {
        if begins_pulse(signal, i) {
            v > high_threshold(hi)
        } else {
            v >= 128
        }
    }
}

/// The signal `noisy` has its edges where `signal` has them: it is as long,
/// none of its samples lies below `lo` or above `hi`, every sample lies on
/// the side of the centre on which that of `signal` lies, or at the
/// centre, and the first sample of every pulse lies beyond half of `lo` or
/// of `hi`.
pub open spec fn sounds_like(noisy: Seq<u8>, signal: Seq<u8>, lo: u8, hi: u8) -> bool {
    &&& lo < 128 < hi
    &&& noisy.len() == signal.len()
    &&& forall|i: int|
        0 <= i < noisy.len() ==> lo <= #[trigger] noisy[i] <= hi && keeps_side(
            noisy[i],
            signal,
            i,
            lo,
            hi,
        )
}

impl DecoderView {
    /// The decoder has heard, from its beginning, `k` samples with their
    /// edges where `signal` has them.
    pub open spec fn on_side(self, signal: Seq<u8>, k: int, lo: u8, hi: u8) -> bool {
        &&& self.wf()
        &&& if k == 0 {
            !self.primed && self.env_min == 128 && self.env_max == 128
        } else {
            self.hears(lo, hi) && self.low == (signal[k - 1] < 128)
        }
    }

    /// One more sample with its edge where the signal has it: the decoder
    /// sees an edge exactly where a pulse of the signal begins.
    pub proof fn lemma_sample_on_side(
        self,
        noisy: Seq<u8>,
        signal: Seq<u8>,
        k: int,
        lo: u8,
        hi: u8,
        pos: int,
    )
        requires
            sounds_like(noisy, signal, lo, hi),
            0 <= k < signal.len(),
            self.on_side(signal, k, lo, hi),
            i64::MIN <= pos <= i64::MAX,
        ensures
            self.step(noisy[k], pos).on_side(signal, k + 1, lo, hi),
            self.primed_by(noisy[k]).enveloped(noisy[k]).sees_edge(noisy[k]) == (k > 0
                && begins_pulse(signal, k)),
            self.primed || (noisy[k] < 128) == (signal[k] < 128),
    {
        reveal(DecoderView::step);
        let v = noisy[k];
        assert(lo <= v <= hi && keeps_side(v, signal, k, lo, hi));
        self.lemma_step_keeps(v, pos);
        let heard = self.primed_by(v).enveloped(v);
        assert(heard.wf());
        assert(lo <= heard.env_min <= 128 <= heard.env_max <= hi);
        assert(low_threshold(lo) <= low_threshold(heard.env_min) <= 128);
        assert(128 <= high_threshold(heard.env_max) <= high_threshold(hi));
        if heard.sees_edge(v) {
            heard.lemma_decoded_keeps(pos);
        }
    }

    /// Two signals with their edges where a third has them leave decoders
    /// that are alike, sample for sample.
    pub proof fn lemma_sounds_alike_so_far(
        self,
        a: Seq<u8>,
        b: Seq<u8>,
        signal: Seq<u8>,
        band_a: (u8, u8),
        band_b: (u8, u8),
        pos: int,
        k: int,
    )
        requires
            self.on_side(signal, 0, band_a.0, band_a.1),
            sounds_like(a, signal, band_a.0, band_a.1),
            sounds_like(b, signal, band_b.0, band_b.1),
            0 <= k <= signal.len(),
        ensures
            self.fed(a.take(k), pos).alike(self.fed(b.take(k), pos)),
            self.fed(a.take(k), pos).on_side(signal, k, band_a.0, band_a.1),
            self.fed(b.take(k), pos).on_side(signal, k, band_b.0, band_b.1),
        decreases k,
    {
        if k > 0 {
            self.lemma_sounds_alike_so_far(a, b, signal, band_a, band_b, pos, k - 1);
            assert(a.take(k).drop_last() =~= a.take(k - 1));
            assert(b.take(k).drop_last() =~= b.take(k - 1));
            assert(a.take(k).last() == a[k - 1]);
            assert(b.take(k).last() == b[k - 1]);
            let at = clamp64(pos + k - 1);
            let x = self.fed(a.take(k - 1), pos);
            let y = self.fed(b.take(k - 1), pos);
            x.lemma_sample_on_side(a, signal, k - 1, band_a.0, band_a.1, at);
            y.lemma_sample_on_side(b, signal, k - 1, band_b.0, band_b.1, at);
            x.lemma_step_alike(y, a[k - 1], b[k - 1], at);
        }
    }

    /// Noise that leaves the edges where they are changes nothing in what
    /// is decoded.
    ///
    /// Two signals with their edges where a third has them, each within an
    /// envelope of its own, leave a decoder that had heard nothing in the
    /// same state but for the envelope: with the same frames in its queue,
    /// at the same positions, and the same bits in its window.
    pub proof fn lemma_same_edges_decode_alike(
        self,
        a: Seq<u8>,
        b: Seq<u8>,
        signal: Seq<u8>,
        band_a: (u8, u8),
        band_b: (u8, u8),
        pos: int,
    )
        requires
            self.wf(),
            !self.primed,
            self.env_min == 128,
            self.env_max == 128,
            sounds_like(a, signal, band_a.0, band_a.1),
            sounds_like(b, signal, band_b.0, band_b.1),
        ensures
            self.fed(a, pos).alike(self.fed(b, pos)),
    {
        self.lemma_sounds_alike_so_far(a, b, signal, band_a, band_b, pos, signal.len() as int);
        assert(a.take(signal.len() as int) =~= a);
        assert(b.take(signal.len() as int) =~= b);
    }
}

/// Every sample of the signal is on one of two levels.
pub open spec fn two_level(signal: Seq<u8>, lo: u8, hi: u8) -> bool {
    forall|i: int| 0 <= i < signal.len() ==> #[trigger] signal[i] == lo || signal[i] == hi
}

/// A signal on two levels about the centre has its edges where it has
/// them.
pub proof fn lemma_levels_sound_like_themselves(signal: Seq<u8>, lo: u8, hi: u8)
    requires
        two_level(signal, lo, hi),
        lo < 128 < hi,
    ensures
        sounds_like(signal, signal, lo, hi),
{
    assert forall|i: int| 0 <= i < signal.len() implies lo <= #[trigger] signal[i] <= hi
        && keeps_side(signal[i], signal, i, lo, hi) by {
        assert(signal[i] == lo || signal[i] == hi);
        assert(lo < low_threshold(lo));
        assert(high_threshold(hi) < hi);
    }
}

/// One sample of a signal on two levels is replaced by a value that is no
/// louder than the signal and lies on the same side of the centre, and
/// beyond half of the level where the sample is the first of a pulse: the
/// signal still has its edges where it had them.
pub proof fn lemma_one_sample_keeps_side(signal: Seq<u8>, i: int, v: u8, lo: u8, hi: u8)
    requires
        two_level(signal, lo, hi),
        lo < 128 < hi,
        0 <= i < signal.len(),
        lo <= v <= hi,
        keeps_side(v, signal, i, lo, hi),
    ensures
        sounds_like(signal.update(i, v), signal, lo, hi),
{
    lemma_levels_sound_like_themselves(signal, lo, hi);
    let noisy = signal.update(i, v);
    assert forall|j: int| 0 <= j < noisy.len() implies lo <= #[trigger] noisy[j] <= hi
        && keeps_side(noisy[j], signal, j, lo, hi) by {
        if j != i {
            assert(lo <= signal[j] <= hi && keeps_side(signal[j], signal, j, lo, hi));
        }
    }
}

/// Bit cells drawn with square edges are samples on the two levels.
pub proof fn lemma_square_bits_are_two_level(pen: Pen, s: Stroke, bits: Seq<bool>)
    requires
        square(s),
        0 <= pen.rem < s.unit,
        two_level(pen.wave, s.low, s.high),
    ensures
        two_level(pen.bits(s, bits).wave, s.low, s.high),
        0 <= pen.bits(s, bits).rem < s.unit,
    decreases bits.len(),
{
    if bits.len() > 0 {
        lemma_square_bits_are_two_level(pen, s, bits.drop_last());
        let p = pen.bits(s, bits.drop_last());
        if bits.last() {
            lemma_square_pulse(p, s, s.ticks);
            lemma_square_pulse(p.pulse(s, s.ticks), s, s.ticks);
        } else {
            lemma_square_pulse(p, s, 2 * s.ticks);
        }
    }
}

impl EncoderView {
    /// The samples that were taken out of the buffer while the frames were
    /// encoded one after the other, followed by what closing the signal
    /// hands out.
    pub open spec fn closed_signal(self, frames: Seq<Seq<u8>>) -> Seq<u8> {
        self.sent(frames) + self.after_frames(frames).closed_samples()
    }

    /// The signal of a row of frames, sent with square edges, is on the
    /// two levels of the encoder.
    pub proof fn lemma_closed_signal_is_two_level(self, frames: Seq<Seq<u8>>)
        requires
            self.ready_for_frame(),
            self.sends_square(),
            forall|i: int| 0 <= i < frames.len() ==> (#[trigger] frames[i]).len() == 10,
            1 <= frames.len(),
        ensures
            two_level(
                self.closed_signal(frames),
                self.stroke(NOMINAL_SPEED as int).low,
                self.stroke(NOMINAL_SPEED as int).high,
            ),
            self.stroke(NOMINAL_SPEED as int).low < 128 < self.stroke(NOMINAL_SPEED as int).high,
    {
        let s = self.stroke(NOMINAL_SPEED as int);
        let rows = EncoderView::bits_of_frames(frames);
        self.lemma_frames_are_one_run(frames);
        self.lemma_square_signal();
        let last = self.after_frames(frames);
        let pen = self.pen().bits(s, joined(rows));
        assert(last.stroke(NOMINAL_SPEED as int) == s);
        assert(last.sends_square());
        let base = last.pen();
        assert(self.pen().wave =~= Seq::<u8>::empty());
        lemma_square_bits_are_two_level(self.pen(), s, joined(rows));
        lemma_square_pulse(base, s, s.ticks);
        lemma_square_pulse(pen, s, s.ticks);
        last.lemma_tail_is_short();
        assert(last.closed_samples() == base.pulse(s, s.ticks).wave);
        assert(pen.pulse(s, s.ticks).wave =~= self.closed_signal(frames));
    }

    /// A row of encoded frames is decoded as that row from any signal with
    /// its edges where the encoder has put them.
    ///
    /// The encoder, the frames and the decoder are as in
    /// `lemma_encoded_frames_are_decoded`. The samples that the decoder is
    /// fed are not those of the encoder but any that sound like them:
    /// within `lo` and `hi`, each on the side of the centre on which the
    /// encoder has put it, and the first of each pulse beyond half of `lo`
    /// or of `hi`. Then the queue of the decoder holds the frames: as many
    /// as were sent, in their order, byte for byte, none marked as played
    /// backwards.
    pub proof fn lemma_noisy_frames_are_decoded(
        self,
        frames: Seq<Seq<u8>>,
        noisy: Seq<u8>,
        lo: u8,
        hi: u8,
        apv: int,
        capacity: int,
        pos: int,
    )
        requires
            self.ready_for_frame(),
            self.sends_square(),
            forall|i: int| 0 <= i < frames.len() ==> (#[trigger] frames[i]).len() == 10,
            clean_row(EncoderView::bits_of_frames(frames)),
            1 <= frames.len() <= capacity <= i32::MAX,
            9 * frame_samples(self.sample_rate, self.fps_num, self.fps_den) <= 10 * apv,
            10 * apv <= 11 * frame_samples(self.sample_rate, self.fps_num, self.fps_den),
            sounds_like(noisy, self.closed_signal(frames), lo, hi),
        ensures
            DecoderView::fresh(apv, capacity).fed(noisy, pos).holds(frames),
    {
        let s = self.stroke(NOMINAL_SPEED as int);
        let clean = self.closed_signal(frames);
        let d = DecoderView::fresh(apv, capacity);
        self.lemma_encoded_frames_are_decoded(frames, apv, capacity, pos);
        self.lemma_closed_signal_is_two_level(frames);
        lemma_levels_sound_like_themselves(clean, s.low, s.high);
        assert(d.queue =~= Seq::<FrameRecord>::empty());
        assert(d.wf());
        d.lemma_same_edges_decode_alike(noisy, clean, clean, (lo, hi), (s.low, s.high), pos);
        let heard = d.fed(noisy, pos);
        let sent = d.fed(clean, pos);
        assert forall|i: int| 0 <= i < frames.len() implies (#[trigger] heard.queue[i]).ltc
            == frames[i] && !heard.queue[i].reverse by {
            assert(same_frame(heard.queue[i], sent.queue[i]));
            assert(sent.queue[i].ltc == frames[i]);
        }
    }

    /// One sample off its level does not keep a row of frames from being
    /// decoded, where the sample stays on its side.
    ///
    /// The encoder, the frames and the decoder are as in
    /// `lemma_encoded_frames_are_decoded`. Sample `i` of the signal is
    /// replaced by `v`, which is no louder than the signal and lies on the
    /// same side of the centre or at the centre; where the sample is the
    /// first of a pulse, `v` lies beyond half of the level. Then the queue
    /// of the decoder holds all the frames.
    pub proof fn lemma_one_sample_off_is_decoded(
        self,
        frames: Seq<Seq<u8>>,
        i: int,
        v: u8,
        apv: int,
        capacity: int,
        pos: int,
    )
        requires
            self.ready_for_frame(),
            self.sends_square(),
            forall|i: int| 0 <= i < frames.len() ==> (#[trigger] frames[i]).len() == 10,
            clean_row(EncoderView::bits_of_frames(frames)),
            1 <= frames.len() <= capacity <= i32::MAX,
            9 * frame_samples(self.sample_rate, self.fps_num, self.fps_den) <= 10 * apv,
            10 * apv <= 11 * frame_samples(self.sample_rate, self.fps_num, self.fps_den),
            0 <= i < self.closed_signal(frames).len(),
            128 - self.peak <= v <= 128 + self.peak,
            keeps_side(
                v,
                self.closed_signal(frames),
                i,
                (128 - self.peak) as u8,
                (128 + self.peak) as u8,
            ),
        ensures
            DecoderView::fresh(apv, capacity).fed(
                self.closed_signal(frames).update(i, v),
                pos,
            ).holds(frames),
    {
        let s = self.stroke(NOMINAL_SPEED as int);
        let clean = self.closed_signal(frames);
        self.lemma_closed_signal_is_two_level(frames);
        lemma_one_sample_keeps_side(clean, i, v, s.low, s.high);
        self.lemma_noisy_frames_are_decoded(
            frames,
            clean.update(i, v),
            s.low,
            s.high,
            apv,
            capacity,
            pos,
        );
    }
}

/// A shaped level lies between the centre and its target.
pub proof fn lemma_shaped_level_between(i: nat, target: u8, filter: int)
    requires
        0 <= filter <= 65536,
    ensures
        target >= 128 ==> 128 <= shaped_level(i, target as int, filter) <= target,
        target <= 128 ==> target <= shaped_level(i, target as int, filter) <= 128,
    decreases i,
{
    let val = if i == 0 {
        128
    } else {
        shaped_level((i - 1) as nat, target as int, filter)
    };
    if i > 0 {
        lemma_shaped_level_between((i - 1) as nat, target, filter);
    }
    let t = target as int;
    let moved = filter * (t - val);
    if t >= val {
        assert(0 <= moved <= 65536 * (t - val)) by (nonlinear_arith)
            requires
                moved == filter * (t - val),
                0 <= filter <= 65536,
                t >= val,
        ;
    } else {
        assert(65536 * (t - val) <= moved <= 0) by (nonlinear_arith)
            requires
                moved == filter * (t - val),
                0 <= filter <= 65536,
                t < val,
        ;
    }
}

/// The edges are quick: square, or shaped so that the first sample of a
/// pulse lies beyond half of its level.
pub open spec fn quick(s: Stroke) -> bool {
    s.filter == 0 || (shaped_step(128, s.high as int, s.filter) > high_threshold(s.high)
        && shaped_step(128, s.low as int, s.filter) < low_threshold(s.low))
}

/// The same stroke with square edges.
pub open spec fn squared(s: Stroke) -> Stroke {
    Stroke { filter: 0, ..s }
}

/// The pen `shaped` has drawn with quick edges what the pen `even` has
/// drawn with square edges: the same pulses, each sample on the side of its
/// pulse and the first of each pulse beyond half of its level.
pub open spec fn traces(shaped: Pen, even: Pen, s: Stroke) -> bool {
    &&& shaped.level == even.level
    &&& shaped.rem == even.rem
    &&& 0 <= even.rem < s.unit
    &&& sounds_like(shaped.wave, even.wave, s.low, s.high)
    &&& even.wave.len() > 0 ==> (even.wave.last() < 128) == (s.target(even.level) < 128)
}

/// A pulse with quick edges is heard as the pulse with square edges.
pub proof fn lemma_quick_pulse(shaped: Pen, even: Pen, s: Stroke, t: int)
    requires
        square(squared(s)),
        s.wf(),
        quick(s),
        traces(shaped, even, s),
        t == s.ticks || t == 2 * s.ticks,
    ensures
        traces(shaped.pulse(s, t), even.pulse(squared(s), t), s),
{
    let s0 = squared(s);
    lemma_square_pulse(even, s0, t);
    let n = (even.rem + t) / s.unit;
    let target = s.target(!even.level);
    let a = shaped.pulse(s, t).wave;
    let b = even.pulse(s0, t).wave;
    let before = even.wave.len() as int;
    assert(a == shaped.wave + pulse(n, target, s.filter));
    assert(b == even.wave + run(target, n));
    assert forall|i: int| 0 <= i < a.len() implies s.low <= #[trigger] a[i] <= s.high
        && keeps_side(a[i], b, i, s.low, s.high) by {
        if i < before {
            assert(s.low <= shaped.wave[i] <= s.high && keeps_side(
                shaped.wave[i],
                even.wave,
                i,
                s.low,
                s.high,
            ));
            assert(b[i] == even.wave[i]);
            if i > 0 {
                assert(b[i - 1] == even.wave[i - 1]);
            }
        } else {
            let j = i - before;
            assert(b[i] == target);
            assert(a[i] == pulse_sample(j, n, target, s.filter));
            if i > 0 {
                if j > 0 {
                    assert(b[i - 1] == target);
                } else {
                    assert(b[i - 1] == even.wave.last());
                }
            }
            if s.filter != 0 {
                let k = if j <= n - 1 - j {
                    j as nat
                } else {
                    (n - 1 - j) as nat
                };
                lemma_shaped_level_between(k, target, s.filter);
                assert(j == 0 ==> k == 0);
            }
        }
    }
}

/// Bit cells with quick edges are heard as the bit cells with square
/// edges.
pub proof fn lemma_quick_bits(pen: Pen, s: Stroke, bits: Seq<bool>)
    requires
        square(squared(s)),
        s.wf(),
        quick(s),
        0 <= pen.rem < s.unit,
        pen.wave.len() == 0,
    ensures
        traces(pen.bits(s, bits), pen.bits(squared(s), bits), s),
    decreases bits.len(),
{
    let s0 = squared(s);
    if bits.len() > 0 {
        lemma_quick_bits(pen, s, bits.drop_last());
        let p = pen.bits(s, bits.drop_last());
        let q = pen.bits(s0, bits.drop_last());
        if bits.last() {
            lemma_quick_pulse(p, q, s, s.ticks);
            lemma_quick_pulse(p.pulse(s, s.ticks), q.pulse(s0, s.ticks), s, s.ticks);
        } else {
            lemma_quick_pulse(p, q, s, 2 * s.ticks);
        }
    }
}

impl EncoderView {
    /// The signal of the encoder has quick edges, ten samples or more to
    /// the bit cell, and no more than two to the thirtieth to the frame.
    pub open spec fn sends_quick(self) -> bool {
        &&& quick(self.stroke(NOMINAL_SPEED as int))
        &&& self.sample_rate * self.fps_den >= 800 * self.fps_num
        &&& self.sample_rate * self.fps_den <= 0x4000_0000 * self.fps_num
    }

    /// A row of frames encoded with quick edges, closed and handed out, is
    /// decoded as that row.
    ///
    /// The encoder, the frames and the decoder are as in
    /// `lemma_encoded_frames_are_decoded`, but the edges may be shaped,
    /// as long as the first sample of a pulse lies beyond half of its
    /// level.
    pub proof fn lemma_quick_frames_are_decoded(
        self,
        frames: Seq<Seq<u8>>,
        apv: int,
        capacity: int,
        pos: int,
    )
        requires
            self.ready_for_frame(),
            self.sends_quick(),
            forall|i: int| 0 <= i < frames.len() ==> (#[trigger] frames[i]).len() == 10,
            clean_row(EncoderView::bits_of_frames(frames)),
            1 <= frames.len() <= capacity <= i32::MAX,
            9 * frame_samples(self.sample_rate, self.fps_num, self.fps_den) <= 10 * apv,
            10 * apv <= 11 * frame_samples(self.sample_rate, self.fps_num, self.fps_den),
        ensures
            DecoderView::fresh(apv, capacity).fed(self.closed_signal(frames), pos).holds(frames),
    {
        let even = EncoderView { filter: 0, ..self };
        let s = self.stroke(NOMINAL_SPEED as int);
        let s0 = even.stroke(NOMINAL_SPEED as int);
        let bits = joined(EncoderView::bits_of_frames(frames));
        assert(s0 == squared(s));
        assert(even.ready_for_frame() && even.sends_square());
        even.lemma_square_signal();
        self.lemma_frames_are_one_run(frames);
        even.lemma_frames_are_one_run(frames);
        assert(self.pen().wave =~= Seq::<u8>::empty());
        assert(even.pen() == self.pen());
        lemma_quick_bits(self.pen(), s, bits);
        let p = self.pen().bits(s, bits);
        let q = self.pen().bits(s0, bits);
        lemma_quick_pulse(p, q, s, s.ticks);
        let last = self.after_frames(frames);
        let last0 = even.after_frames(frames);
        assert(last.stroke(NOMINAL_SPEED as int) == s);
        assert(last0.stroke(NOMINAL_SPEED as int) == s0);
        assert(last0.sends_square());
        last0.lemma_tail_is_short();
        lemma_square_pulse(last0.pen(), s0, s.ticks);
        lemma_square_pulse(q, s0, s.ticks);
        assert(last0.closed_samples() == last0.pen().pulse(s0, s.ticks).wave);
        assert(q.pulse(s0, s.ticks).wave =~= even.closed_signal(frames));
        assert(last.closing_pen().wave.len() == last0.closing_pen().wave.len());
        assert(last.closed_samples() == last.pen().pulse(s, s.ticks).wave);
        assert(p.pulse(s, s.ticks).wave =~= self.closed_signal(frames));
        even.lemma_noisy_frames_are_decoded(
            frames,
            self.closed_signal(frames),
            s.low,
            s.high,
            apv,
            capacity,
            pos,
        );
    }
}

} // verus!
