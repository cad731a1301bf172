//! The signal of the encoder as the decoder hears it: what is encoded is
//! what is decoded.
//!
//! A signal with square edges is a row of runs of one sample value each,
//! from one side of the centre to the other and back. The decoder sees an
//! edge at the first sample of every run but the first, and only there. A
//! run is less than a sample away from the true length of its pulse, so an
//! estimate that is in lock tells whole bit cells from half cells and stays
//! in lock. The bits that the decoder takes are then the bits that were
//! sent, and a frame whose only sync word is at its end goes to the queue
//! when the edge after its last bit cell is heard.

use crate::decoder::{
    blank_word, byte_of_bits, clamp64, forward_word, frame_bytes, is_word, reverse_word,
    sync_forward, sync_reverse, turned_round, DecoderView, LTCDecoder, COUNT_CAP,
};
use crate::encoder::{
    frame_bits, frame_samples, rates_ok, EncoderView, LTCEncoder, NOMINAL_SPEED,
};
use crate::fields::{FrameFields, SYNC_WORD};
use crate::flags::LtcBgFlags;
use crate::frame::{
    bytes_of, fields_of, lemma_bytes_of_fields_of, lemma_fields_of_bytes_of, low2, low3, low4,
    word_high, word_low, LTCFrame,
};
use crate::queue::{keep_last, LTCFrameExt};
use crate::standard::LTCTVStandard;
use crate::timecode::SMPTETimecode;
use crate::wave::{bit_of, byte_bit, pulse, Pen, Stroke};
use vstd::prelude::*;

verus! {

/// A run of `n` samples of the value `v`.
pub open spec fn run(v: u8, n: int) -> Seq<u8> {
    Seq::new(n as nat, |i: int| v)
}

/// The clock of a signal: the ticks in a sample and the ticks in half a bit
/// cell.
pub ghost struct Beat {
    pub unit: int,
    pub ticks: int,
}

impl Beat {
    /// Half a bit cell lasts five samples at least.
    pub open spec fn wf(self) -> bool {
        self.unit >= 1 && self.ticks >= 5 * self.unit
    }

    /// A pulse of `t` ticks can be `n` samples long: less than a sample
    /// away from its true length.
    pub open spec fn fits(self, n: int, t: int) -> bool {
        (n - 1) * self.unit < t < (n + 1) * self.unit
    }

    /// A whole bit cell can be `n` samples long.
    pub open spec fn long(self, n: int) -> bool {
        self.fits(n, 2 * self.ticks)
    }

    /// Half a bit cell can be `n` samples long.
    pub open spec fn short(self, n: int) -> bool {
        self.fits(n, self.ticks)
    }

    /// The least that a pulse can stand for as the length of a bit cell,
    /// in 256ths of a sample.
    pub open spec fn least(self) -> int {
        (512 * self.ticks - 512 * self.unit) / self.unit + 1
    }

    /// The most that a pulse can stand for as the length of a bit cell, in
    /// 256ths of a sample.
    pub open spec fn most(self) -> int {
        (512 * self.ticks + 512 * self.unit - 1) / self.unit
    }

    /// The estimate is within the lengths that pulses stand for: within
    /// two samples of the true bit cell.
    pub open spec fn tuned(self, period: int) -> bool {
        self.least() <= period <= self.most()
    }

    /// The least that a pulse of a whole bit cell can stand for, in 256ths
    /// of a sample.
    pub open spec fn least_long(self) -> int {
        (512 * self.ticks - 256 * self.unit) / self.unit + 1
    }

    /// The estimate is in lock: three quarters of it, the mark between
    /// half cells and whole cells, lie above every half cell and below
    /// every whole cell of the signal. That holds of every estimate within
    /// a fifth of the true bit cell, and of others.
    pub open spec fn locked(self, period: int) -> bool {
        2 * self.most() <= 3 * period && 3 * period < 4 * self.least_long()
    }

    /// What pulses stand for is within two samples of the true length of
    /// the bit cell.
    pub proof fn lemma_measures(self, n: int)
        requires
            self.wf(),
        ensures
            self.long(n) ==> self.least() <= 256 * n <= self.most() && n >= 9,
            self.short(n) ==> self.least() <= 512 * n <= self.most() && n >= 5,
            self.least() >= 2049,
            self.most() - self.least() <= 1023,
            self.long(n) ==> self.least_long() <= 256 * n,
            self.least_long() >= 2305,
            self.least() <= self.least_long() <= self.least() + 256,
            self.most() - self.least_long() <= 767,
            forall|p: int| self.tuned(p) ==> self.locked(p),
    {
        let u = self.unit;
        let t = self.ticks;
        let a = 512 * t - 512 * u;
        let b = 512 * t + 512 * u - 1;
        assert((a / u) * u <= a < (a / u) * u + u) by (nonlinear_arith)
            requires
                u >= 1,
                a >= 0,
        ;
        assert((b / u) * u <= b < (b / u) * u + u) by (nonlinear_arith)
            requires
                u >= 1,
                b >= 0,
        ;
        assert(a / u >= 2048) by (nonlinear_arith)
            requires
                (a / u) * u + u > a,
                a >= 2048 * u,
                u >= 1,
        ;
        assert(b / u - a / u <= 1024) by (nonlinear_arith)
            requires
                (a / u) * u + u > a,
                (b / u) * u <= b,
                b == a + 1024 * u - 1,
                u >= 1,
        ;
        let c = 512 * t - 256 * u;
        assert((c / u) * u <= c < (c / u) * u + u) by (nonlinear_arith)
            requires
                u >= 1,
                c >= 0,
        ;
        assert(c / u >= 2304 && a / u <= c / u <= a / u + 256 && b / u - c / u <= 768)
            by (nonlinear_arith)
            requires
                (c / u) * u + u > c,
                (c / u) * u <= c,
                (a / u) * u <= a,
                (b / u) * u <= b,
                a < (a / u) * u + u,
                c == a + 256 * u,
                b == c + 768 * u - 1,
                c >= 2304 * u,
                u >= 1,
        ;
        if self.long(n) {
            assert(256 * n > c / u) by (nonlinear_arith)
                requires
                    2 * t < (n + 1) * u,
                    (c / u) * u <= c,
                    c == 512 * t - 256 * u,
                    u >= 1,
            ;
        }
        if self.long(n) {
            assert(256 * n > a / u && 256 * n <= b / u && n >= 9) by (nonlinear_arith)
                requires
                    (n - 1) * u < 2 * t,
                    2 * t < (n + 1) * u,
                    (a / u) * u <= a,
                    b < (b / u) * u + u,
                    a == 512 * t - 512 * u,
                    b == 512 * t + 512 * u - 1,
                    t >= 5 * u,
                    u >= 1,
            ;
        }
        if self.short(n) {
            assert(512 * n > a / u && 512 * n <= b / u && n >= 5) by (nonlinear_arith)
                requires
                    (n - 1) * u < t,
                    t < (n + 1) * u,
                    (a / u) * u <= a,
                    b < (b / u) * u + u,
                    a == 512 * t - 512 * u,
                    b == 512 * t + 512 * u - 1,
                    t >= 5 * u,
                    u >= 1,
            ;
        }
    }

    /// With an estimate in lock a whole cell is told from half a cell, and
    /// both are within tolerance.
    pub proof fn lemma_told_apart(self, n: int, period: int)
        requires
            self.wf(),
            self.locked(period),
        ensures
            self.long(n) ==> 1024 * n > 3 * period && 256 * n <= 4 * period,
            self.short(n) ==> 1024 * n <= 3 * period && 512 * n <= 4 * period,
    {
        self.lemma_measures(n);
    }
}

impl DecoderView {
    /// The two decoders agree in all that decoding goes by: in everything
    /// but the length of the present pulse and the envelope.
    pub open spec fn same_logic(self, other: DecoderView) -> bool {
        self == (DecoderView {
            count: self.count,
            env_min: self.env_min,
            env_max: self.env_max,
            ..other
        })
    }

    /// The decoder has heard samples, none of them below `lo` or above
    /// `hi`.
    pub open spec fn hears(self, lo: u8, hi: u8) -> bool {
        &&& self.wf()
        &&& self.primed
        &&& lo < 128 < hi
        &&& lo <= self.env_min
        &&& self.env_max <= hi
    }

    /// Feeding one row of samples after another is feeding them as one
    /// row.
    pub proof fn lemma_fed_joined(self, a: Seq<u8>, b: Seq<u8>, pos: int)
        ensures
            self.fed(a + b, pos) == self.fed(a, pos).fed(b, pos + a.len()),
        decreases b.len(),
    {
        if b.len() == 0 {
            assert(a + b =~= a);
        } else {
            assert((a + b).drop_last() =~= a + b.drop_last());
            assert((a + b).last() == b.last());
            self.lemma_fed_joined(a, b.drop_last(), pos);
        }
    }

    /// The first run that a decoder hears tells it the side on which the
    /// signal begins, and is counted as a pulse.
    pub proof fn lemma_first_run(self, v: u8, n: int, pos: int, lo: u8, hi: u8)
        requires
            self.wf(),
            !self.primed,
            self.count == 0,
            self.env_min == 128,
            self.env_max == 128,
            lo < 128 < hi,
            v == lo || v == hi,
            1 <= n,
        ensures
            self.fed(run(v, n), pos).same_logic(self.primed_by(v)),
            self.fed(run(v, n), pos).hears(lo, hi),
            self.fed(run(v, n), pos).low == (v == lo),
            self.fed(run(v, n), pos).count == (if n < COUNT_CAP {
                n
            } else {
                COUNT_CAP as int
            }),
        decreases n,
    {
        reveal(DecoderView::step);
        assert(run(v, n).drop_last() =~= run(v, n - 1));
        assert(run(v, n).last() == v);
        if n > 1 {
            self.lemma_first_run(v, n - 1, pos, lo, hi);
        } else {
            assert(run(v, 0) =~= Seq::<u8>::empty());
        }
    }

    /// A run on the other side is an edge at its first sample and nothing
    /// but a longer pulse after that.
    pub proof fn lemma_run_is_one_edge(self, v: u8, n: int, pos: int, lo: u8, hi: u8)
        requires
            self.hears(lo, hi),
            v == (if self.low {
                hi
            } else {
                lo
            }),
            1 <= n,
        ensures
            self.fed(run(v, n), pos).same_logic(self.enveloped(v).after_edge(clamp64(pos))),
            self.fed(run(v, n), pos).hears(lo, hi),
            self.fed(run(v, n), pos).low == !self.low,
            self.fed(run(v, n), pos).count == (if n < COUNT_CAP {
                n
            } else {
                COUNT_CAP as int
            }),
        decreases n,
    {
        reveal(DecoderView::step);
        assert(run(v, n).drop_last() =~= run(v, n - 1));
        assert(run(v, n).last() == v);
        let first = self.enveloped(v);
        assert(first.sees_edge(v));
        assert(first.wf());
        first.lemma_decoded_keeps(clamp64(pos));
        let timed = first.decoded(clamp64(pos)).retimed(first.measure());
        assert(timed.wf());
        if n > 1 {
            self.lemma_run_is_one_edge(v, n - 1, pos, lo, hi);
            let before = self.fed(run(v, n - 1), pos);
            assert(!before.enveloped(v).sees_edge(v));
        } else {
            assert(run(v, 0) =~= Seq::<u8>::empty());
            assert(self.fed(run(v, 0), pos) == self);
            assert(self.fed(run(v, 1), pos) == self.step(v, clamp64(pos)));
        }
    }
}

/// Sixteen bits, none of them set: what a new decoder remembers.
pub open spec fn blank16() -> Seq<bool> {
    Seq::new(16, |i: int| false)
}

/// The last sixteen bits that a decoder remembers when it remembered
/// `recent` and has heard `s` since.
pub open spec fn remembered_after(recent: Seq<bool>, s: Seq<bool>) -> Seq<bool> {
    keep_last(recent + s, 16)
}

/// The last sixteen bits that a decoder remembers when `s` is all that it
/// has heard.
pub open spec fn remembered(s: Seq<bool>) -> Seq<bool> {
    remembered_after(blank16(), s)
}

/// The eighty bits end with the sync word, and a decoder that remembered
/// `recent` before them finds the sync word nowhere before their end,
/// forwards or backwards.
pub open spec fn clean_after(recent: Seq<bool>, bits: Seq<bool>) -> bool {
    &&& recent.len() == 16
    &&& bits.len() == 80
    &&& remembered_after(recent, bits) == sync_forward()
    &&& forall|k: int|
        1 <= k < 80 ==> remembered_after(recent, #[trigger] bits.take(k)) != sync_forward()
            && remembered_after(recent, bits.take(k)) != sync_reverse()
}

/// A decoder that remembered `recent` before the bits finds the sync word
/// nowhere before their end, forwards or backwards.
pub open spec fn quiet_after(recent: Seq<bool>, bits: Seq<bool>) -> bool {
    &&& recent.len() == 16
    &&& 1 <= bits.len() <= 80
    &&& forall|k: int|
        1 <= k < bits.len() ==> remembered_after(recent, #[trigger] bits.take(k)) != sync_forward()
            && remembered_after(recent, bits.take(k)) != sync_reverse()
}

/// A decoder that remembered `recent` before the bits finds the sync word
/// at their end and nowhere before: backwards if `back`, else forwards.
pub open spec fn ends_after(recent: Seq<bool>, bits: Seq<bool>, back: bool) -> bool {
    &&& quiet_after(recent, bits)
    &&& remembered_after(recent, bits) == (if back {
        sync_reverse()
    } else {
        sync_forward()
    })
}

/// The eighty bits end with the sync word, and a decoder that hears them
/// from the start finds the sync word nowhere before the end, forwards or
/// backwards.
pub open spec fn sync_only_at_end(bits: Seq<bool>) -> bool {
    clean_after(blank16(), bits)
}

/// One more bit moves what is remembered on by one.
pub proof fn lemma_remembered_next(recent: Seq<bool>, bits: Seq<bool>, k: int)
    requires
        recent.len() == 16,
        0 <= k < bits.len(),
    ensures
        remembered_after(recent, bits.take(k + 1)) == remembered_after(
            recent,
            bits.take(k),
        ).skip(1).push(bits[k]),
        remembered_after(recent, bits.take(k)).len() == 16,
        bits.take(k + 1) == bits.take(k).push(bits[k]),
        remembered_after(recent, bits.take(0)) == recent,
{
    assert(bits.take(k + 1) =~= bits.take(k).push(bits[k]));
    assert(remembered_after(recent, bits.take(k + 1)) =~= remembered_after(
        recent,
        bits.take(k),
    ).skip(1).push(bits[k]));
    assert(remembered_after(recent, bits.take(0)) =~= recent);
}

/// What a decoder has behind it when a frame begins: the last sixteen bits
/// that it heard, and the frames that it has decoded and not handed out.
pub ghost struct Past {
    pub recent: Seq<bool>,
    pub frames: Seq<Seq<u8>>,
    /// The frames were played backwards.
    pub reverse: bool,
}

impl Past {
    /// Nothing heard and nothing decoded.
    pub open spec fn none() -> Past {
        Past { recent: blank16(), frames: Seq::empty(), reverse: false }
    }

    /// The past after one more frame: the sync word was heard last, and the
    /// frame is decoded.
    pub open spec fn after(self, bits: Seq<bool>) -> Past {
        Past {
            recent: sync_forward(),
            frames: self.frames.push(frame_bytes(bits)),
            reverse: false,
        }
    }

    /// The past after a run of bits that ended with the sync word,
    /// backwards if `back`: the sync word was heard last, and a run of
    /// eighty bits is decoded as a frame.
    pub open spec fn after_run(self, bits: Seq<bool>, back: bool) -> Past {
        Past {
            recent: if back {
                sync_reverse()
            } else {
                sync_forward()
            },
            frames: if bits.len() == 80 {
                self.frames.push(
                    frame_bytes(
                        if back {
                            turned_round(bits)
                        } else {
                            bits
                        },
                    ),
                )
            } else {
                self.frames
            },
            reverse: back,
        }
    }
}

impl DecoderView {
    /// The queue holds the given frames in their order, none of them
    /// marked as played backwards.
    pub open spec fn holds(self, frames: Seq<Seq<u8>>) -> bool {
        &&& self.queue.len() == frames.len()
        &&& forall|i: int|
            0 <= i < frames.len() ==> (#[trigger] self.queue[i]).ltc == frames[i]
                && !self.queue[i].reverse
    }

    /// The queue holds the given frames in their order, all of them marked
    /// as played backwards, or none.
    pub open spec fn carries(self, frames: Seq<Seq<u8>>, reverse: bool) -> bool {
        &&& self.queue.len() == frames.len()
        &&& forall|i: int|
            0 <= i < frames.len() ==> (#[trigger] self.queue[i]).ltc == frames[i]
                && self.queue[i].reverse == reverse
    }

    /// The decoder stands between two bit cells of a signal that it
    /// follows, with an empty window.
    pub open spec fn poised(self, beat: Beat, lo: u8, hi: u8, past: Past) -> bool {
        &&& self.hears(lo, hi)
        &&& self.window.len() == 0
        &&& self.recent == past.recent
        &&& past.recent.len() == 16
        &&& self.carries(past.frames, past.reverse)
        &&& self.at_boundary
        &&& self.prev_low == !self.low
        &&& beat.locked(self.period)
        &&& self.tolerance == 4
    }

    /// The decoder follows a signal of which it has taken the first
    /// `taken` bits of the frame `bits` into its window; the frames before
    /// are in its queue.
    pub open spec fn follows(
        self,
        beat: Beat,
        lo: u8,
        hi: u8,
        past: Past,
        bits: Seq<bool>,
        taken: int,
        at_boundary: bool,
    ) -> bool {
        &&& self.hears(lo, hi)
        &&& bits.len() <= 80
        &&& 0 <= taken < bits.len()
        &&& self.window == bits.take(taken)
        &&& past.recent.len() == 16
        &&& self.recent == remembered_after(past.recent, bits.take(taken))
        &&& self.carries(past.frames, past.reverse)
        &&& past.frames.len() < self.capacity
        &&& self.at_boundary == at_boundary
        &&& self.prev_low == !self.low
        &&& beat.locked(self.period)
        &&& self.tolerance == 4
    }

    /// The decoder has heard the first `k` bits of `bits`; the last pulse
    /// of them has not ended yet.
    pub open spec fn heard(
        self,
        beat: Beat,
        lo: u8,
        hi: u8,
        past: Past,
        bits: Seq<bool>,
        k: int,
    ) -> bool {
        &&& 1 <= k <= bits.len()
        &&& self.follows(beat, lo, hi, past, bits, k - 1, !bits[k - 1])
        &&& if bits[k - 1] {
            beat.short(self.count)
        } else {
            beat.long(self.count)
        }
    }

    /// The decoder has heard the first `k` bits of `bits` and the first
    /// half of the next, which is a one and has not ended yet.
    pub open spec fn heard_half(
        self,
        beat: Beat,
        lo: u8,
        hi: u8,
        past: Past,
        bits: Seq<bool>,
        k: int,
    ) -> bool {
        &&& self.follows(beat, lo, hi, past, bits, k, true)
        &&& bits[k]
        &&& beat.short(self.count)
    }

    /// Where the window is known to begin. With a mark, the estimate is
    /// within two samples of the true bit cell, the decoder knows no place
    /// of a last bit before the first bit is taken, and after that its
    /// window begins at the mark or before. Without a mark nothing is
    /// said.
    pub open spec fn placed(self, beat: Beat, taken: int, mark: Option<int>) -> bool {
        match mark {
            None => true,
            Some(m) => {
                &&& beat.tuned(self.period)
                &&& if taken == 0 {
                    self.prev_end is None
                } else {
                    self.frame_start <= m
                }
            },
        }
    }

    /// A decoder that agrees with one that follows the signal, and hears
    /// the same levels, follows the signal.
    pub proof fn lemma_follows_by_logic(
        self,
        other: DecoderView,
        beat: Beat,
        lo: u8,
        hi: u8,
        past: Past,
        bits: Seq<bool>,
        taken: int,
        at_boundary: bool,
    )
        requires
            self.same_logic(other),
            self.hears(lo, hi),
            other.follows(beat, lo, hi, past, bits, taken, at_boundary),
        ensures
            self.follows(beat, lo, hi, past, bits, taken, at_boundary),
    {
        assert(self.queue == other.queue);
    }

    /// The estimate stays in lock when it is held against a pulse of the
    /// signal, and within two samples of the true bit cell if it was.
    pub proof fn lemma_retimed_stays_locked(self, beat: Beat, m: int)
        requires
            self.wf(),
            beat.wf(),
            beat.locked(self.period),
            beat.least() <= m <= beat.most(),
            self.tolerance == 4,
        ensures
            self.retimed(m) == (DecoderView {
                period: self.retimed(m).period,
                outliers: 0,
                ..self
            }),
            beat.locked(self.retimed(m).period),
            beat.tuned(self.period) ==> beat.tuned(self.retimed(m).period),
    {
        beat.lemma_measures(0);
        assert(self.period <= 4 * m);
        assert(!self.strays(m)) by (nonlinear_arith)
            requires
                m <= 4 * self.period,
                self.period <= 4 * m,
                self.tolerance == 4,
        ;
    }

    /// The edge that ends a bit puts the bit into the window.
    pub proof fn lemma_edge_ends_bit(
        self,
        beat: Beat,
        lo: u8,
        hi: u8,
        past: Past,
        bits: Seq<bool>,
        k: int,
        edge: int,
        mark: Option<int>,
    )
        requires
            beat.wf(),
            quiet_after(past.recent, bits),
            self.heard(beat, lo, hi, past, bits, k),
            k < bits.len(),
            i64::MIN <= edge <= i64::MAX,
            self.placed(beat, k - 1, mark),
            k == 1 && mark is Some ==> edge + 4 <= mark.unwrap(),
        ensures
            self.after_edge(edge).follows(beat, lo, hi, past, bits, k, true),
            self.after_edge(edge).low == !self.low,
            self.after_edge(edge).count == 0,
            self.after_edge(edge).placed(beat, k, mark),
    {
        let bit = bits[k - 1];
        let m = self.measure();
        beat.lemma_measures(self.count);
        beat.lemma_told_apart(self.count, self.period);
        lemma_remembered_next(past.recent, bits, k - 1);
        assert(self.is_long() == !bit);
        let end = self.settled(edge, m);
        let ready = DecoderView { at_boundary: true, prev_low: self.low, ..self };
        if !bit {
            let half = self.half_cell(edge, m);
            assert(half == (DecoderView { at_boundary: false, prev_low: self.low, ..self }));
            assert(half.settled(edge, m) == end);
        }
        ready.lemma_joined_keeps(bit, end);
        let taken = ready.joined_by(bit, end);
        assert(taken.recent == remembered_after(past.recent, bits.take(k)));
        assert(taken.window =~= bits.take(k));
        assert(ready.with_bit(bit, end) == taken);
        assert(self.decoded(edge) == taken);
        taken.lemma_retimed_stays_locked(beat, m);
        assert(mark is Some ==> end <= edge + 4);
        assert(self.after_edge(edge).queue == self.queue);
        assert(self.after_edge(edge).frame_start == taken.frame_start);
    }

    /// The edge in the middle of a one leaves the window as it is.
    pub proof fn lemma_edge_in_a_one(
        self,
        beat: Beat,
        lo: u8,
        hi: u8,
        past: Past,
        bits: Seq<bool>,
        k: int,
        edge: int,
        mark: Option<int>,
    )
        requires
            beat.wf(),
            self.heard_half(beat, lo, hi, past, bits, k),
            i64::MIN <= edge <= i64::MAX,
            self.placed(beat, k, mark),
        ensures
            self.after_edge(edge).follows(beat, lo, hi, past, bits, k, false),
            self.after_edge(edge).low == !self.low,
            self.after_edge(edge).count == 0,
            self.after_edge(edge).placed(beat, k, mark),
    {
        let m = self.measure();
        beat.lemma_measures(self.count);
        beat.lemma_told_apart(self.count, self.period);
        assert(!self.is_long());
        let half = self.decoded(edge);
        assert(half == (DecoderView { at_boundary: false, prev_low: self.low, ..self }));
        half.lemma_retimed_stays_locked(beat, m);
        assert(self.after_edge(edge).queue == self.queue);
    }

    /// The edge that ends the last bit of a run that ends with the sync
    /// word empties the window and leaves the decoder poised for the next
    /// run. A run of eighty bits goes into the queue as a frame, after the
    /// frames that were there.
    pub proof fn lemma_edge_ends_run(
        self,
        beat: Beat,
        lo: u8,
        hi: u8,
        past: Past,
        bits: Seq<bool>,
        back: bool,
        edge: int,
        mark: Option<int>,
    )
        requires
            beat.wf(),
            ends_after(past.recent, bits, back),
            past.reverse == back || past.frames.len() == 0,
            self.heard(beat, lo, hi, past, bits, bits.len() as int),
            i64::MIN <= edge <= i64::MAX,
            self.placed(beat, bits.len() - 1, mark),
        ensures
            self.after_edge(edge).poised(beat, lo, hi, past.after_run(bits, back)),
            self.after_edge(edge).low == !self.low,
            self.after_edge(edge).count == 0,
            self.after_edge(edge).capacity == self.capacity,
            mark is Some && !back && bits.len() == 80 ==> self.after_edge(
                edge,
            ).queue.last().off_start <= mark.unwrap(),
            mark is Some && !back && bits.len() == 80 ==> self.after_edge(
                edge,
            ).queue.last().off_end >= clamp64(edge - 6),
    {
        let len = bits.len() as int;
        let bit = bits[len - 1];
        let m = self.measure();
        beat.lemma_measures(self.count);
        beat.lemma_told_apart(self.count, self.period);
        lemma_remembered_next(past.recent, bits, len - 1);
        assert(bits.take(len) =~= bits);
        assert(self.is_long() == !bit);
        let end = self.settled(edge, m);
        let ready = DecoderView { at_boundary: true, prev_low: self.low, ..self };
        if !bit {
            let half = self.half_cell(edge, m);
            assert(half == (DecoderView { at_boundary: false, prev_low: self.low, ..self }));
            assert(half.settled(edge, m) == end);
        }
        ready.lemma_joined_keeps(bit, end);
        let taken = ready.joined_by(bit, end);
        assert(sync_forward()[0] != sync_reverse()[0]);
        assert(taken.recent == remembered_after(past.recent, bits));
        assert(taken.window =~= bits);
        let framed = ready.with_bit(bit, end);
        let x = if back {
            taken.reverse_frame(end)
        } else {
            taken.forward_frame(end)
        };
        if len == 80 {
            assert(framed.queue =~= self.queue.push(x));
        } else {
            assert(framed.queue == self.queue);
        }
        assert(self.decoded(edge) == framed);
        ready.lemma_with_bit_keeps(bit, end);
        framed.lemma_retimed_stays_locked(beat, m);
        assert(mark is Some ==> end >= clamp64(edge - 4));
        assert(len == 80 ==> taken.frame_start == self.frame_start);
        let after = self.after_edge(edge);
        assert(after.queue == framed.queue);
        let frames = past.after_run(bits, back).frames;
        assert forall|i: int| 0 <= i < frames.len() implies (#[trigger] after.queue[i]).ltc
            == frames[i] && after.queue[i].reverse == back by {
            if i < past.frames.len() {
                assert(after.queue[i] == self.queue[i]);
            }
        }
    }

    /// The decoder has heard nothing yet and begins with a tuned estimate.
    pub open spec fn unheard(self, beat: Beat) -> bool {
        &&& self.wf()
        &&& !self.primed
        &&& self.count == 0
        &&& self.env_min == 128
        &&& self.env_max == 128
        &&& self.window.len() == 0
        &&& self.recent == blank16()
        &&& self.queue.len() == 0
        &&& self.at_boundary
        &&& beat.locked(self.period)
        &&& self.tolerance == 4
        &&& self.prev_end is None
    }

    /// The decoder stands before the frame `bits`. Either it has heard
    /// nothing yet, or it has heard the frame before with all that went
    /// before that, but for the end of its last pulse.
    pub open spec fn before_frame(
        self,
        beat: Beat,
        lo: u8,
        hi: u8,
        past: Past,
        before: Option<(Past, Seq<bool>, bool)>,
    ) -> bool {
        match before {
            None => self.unheard(beat) && lo < 128 < hi && past == Past::none(),
            Some(b) => {
                &&& self.heard(beat, lo, hi, b.0, b.1, b.1.len() as int)
                &&& ends_after(b.0.recent, b.1, b.2)
                &&& b.0.reverse == b.2 || b.0.frames.len() == 0
                &&& past == b.0.after_run(b.1, b.2)
            },
        }
    }

    /// The decoder stands before bit `k` of the frame `bits`.
    pub open spec fn before_bit(
        self,
        beat: Beat,
        lo: u8,
        hi: u8,
        past: Past,
        before: Option<(Past, Seq<bool>, bool)>,
        bits: Seq<bool>,
        k: int,
    ) -> bool {
        if k == 0 {
            &&& self.before_frame(beat, lo, hi, past, before)
            &&& 1 <= bits.len() <= 80
            &&& past.frames.len() < self.capacity
        } else {
            self.heard(beat, lo, hi, past, bits, k)
        }
    }

    /// The first pulse of a bit: the decoder that has heard it has taken
    /// the bit before into its window, or the frame before into its queue,
    /// and counts the pulse.
    pub proof fn lemma_first_pulse(
        self,
        beat: Beat,
        lo: u8,
        hi: u8,
        past: Past,
        before: Option<(Past, Seq<bool>, bool)>,
        bits: Seq<bool>,
        k: int,
        v: u8,
        n: int,
        pos: int,
        mark: Option<int>,
    )
        requires
            beat.wf(),
            quiet_after(past.recent, bits),
            self.before_bit(beat, lo, hi, past, before, bits, k),
            0 <= k < bits.len(),
            1 <= n < COUNT_CAP,
            v == lo || v == hi,
            k > 0 || before is Some ==> v == (if self.low {
                hi
            } else {
                lo
            }),
            k > 0 ==> self.placed(beat, k - 1, mark),
            k == 1 && mark is Some ==> clamp64(pos) + 4 <= mark.unwrap(),
            before is Some ==> mark is None,
            k == 0 && mark is Some ==> beat.tuned(self.period),
        ensures
            self.fed(run(v, n), pos).follows(beat, lo, hi, past, bits, k, true),
            self.fed(run(v, n), pos).count == n,
            self.fed(run(v, n), pos).low == (v == lo),
            self.fed(run(v, n), pos).placed(beat, k, mark),
    {
        let d = self.fed(run(v, n), pos);
        lemma_remembered_next(past.recent, bits, 0);
        if k == 0 {
            assert(bits.take(0) =~= Seq::<bool>::empty());
            match before {
                None => {
                    self.lemma_first_run(v, n, pos, lo, hi);
                    assert(self.window =~= bits.take(0));
                    assert(d.queue == self.queue);
                },
                Some(b) => {
                    self.lemma_run_is_one_edge(v, n, pos, lo, hi);
                    let first = self.enveloped(v);
                    assert(first.queue == self.queue);
                    assert(first.heard(beat, lo, hi, b.0, b.1, b.1.len() as int));
                    first.lemma_edge_ends_run(
                        beat,
                        lo,
                        hi,
                        b.0,
                        b.1,
                        b.2,
                        clamp64(pos),
                        None,
                    );
                    let e = first.after_edge(clamp64(pos));
                    assert(d.queue == e.queue);
                    assert(d.window =~= bits.take(0));
                },
            }
        } else {
            self.lemma_run_is_one_edge(v, n, pos, lo, hi);
            let first = self.enveloped(v);
            assert(first.queue == self.queue);
            assert(first.heard(beat, lo, hi, past, bits, k));
            first.lemma_edge_ends_bit(beat, lo, hi, past, bits, k, clamp64(pos), mark);
            d.lemma_follows_by_logic(
                first.after_edge(clamp64(pos)),
                beat,
                lo,
                hi,
                past,
                bits,
                k,
                true,
            );
        }
    }

    /// The second pulse of a one: the decoder that has heard it has heard
    /// the bit.
    pub proof fn lemma_second_pulse(
        self,
        beat: Beat,
        lo: u8,
        hi: u8,
        past: Past,
        bits: Seq<bool>,
        k: int,
        v: u8,
        n: int,
        pos: int,
        mark: Option<int>,
    )
        requires
            beat.wf(),
            self.heard_half(beat, lo, hi, past, bits, k),
            beat.short(n),
            1 <= n < COUNT_CAP,
            v == (if self.low {
                hi
            } else {
                lo
            }),
            self.placed(beat, k, mark),
        ensures
            self.fed(run(v, n), pos).heard(beat, lo, hi, past, bits, k + 1),
            self.fed(run(v, n), pos).low == !self.low,
            self.fed(run(v, n), pos).placed(beat, k, mark),
    {
        let d = self.fed(run(v, n), pos);
        self.lemma_run_is_one_edge(v, n, pos, lo, hi);
        let first = self.enveloped(v);
        assert(first.queue == self.queue);
        assert(first.heard_half(beat, lo, hi, past, bits, k));
        first.lemma_edge_in_a_one(beat, lo, hi, past, bits, k, clamp64(pos), mark);
        d.lemma_follows_by_logic(
            first.after_edge(clamp64(pos)),
            beat,
            lo,
            hi,
            past,
            bits,
            k,
            false,
        );
    }

    /// The pulse that closes the signal after the last bit: the decoder
    /// that has heard it has the frame in its queue, after the frames that
    /// were there.
    pub proof fn lemma_closing_pulse(
        self,
        beat: Beat,
        lo: u8,
        hi: u8,
        past: Past,
        bits: Seq<bool>,
        v: u8,
        n: int,
        pos: int,
        mark: Option<int>,
    )
        requires
            beat.wf(),
            clean_after(past.recent, bits),
            !past.reverse,
            self.heard(beat, lo, hi, past, bits, 80),
            1 <= n,
            v == (if self.low {
                hi
            } else {
                lo
            }),
            self.placed(beat, 79, mark),
        ensures
            self.fed(run(v, n), pos).holds(past.after(bits).frames),
            mark is Some ==> self.fed(run(v, n), pos).queue.last().off_start <= mark.unwrap(),
            mark is Some ==> self.fed(run(v, n), pos).queue.last().off_end >= clamp64(
                clamp64(pos) - 6,
            ),
    {
        self.lemma_run_is_one_edge(v, n, pos, lo, hi);
        let first = self.enveloped(v);
        assert(first.queue == self.queue);
        assert(first.heard(beat, lo, hi, past, bits, 80));
        first.lemma_edge_ends_run(beat, lo, hi, past, bits, false, clamp64(pos), mark);
        assert(past.after_run(bits, false) == past.after(bits));
        assert(self.fed(run(v, n), pos).queue == first.after_edge(clamp64(pos)).queue);
    }
}

/// The signal has square edges, swings about the centre, and has five
/// samples or more, and fewer than two to the thirtieth, to half a bit
/// cell.
pub open spec fn square(s: Stroke) -> bool {
    &&& s.wf()
    &&& s.filter == 0
    &&& s.low < 128 < s.high
    &&& s.ticks >= 5 * s.unit
    &&& s.ticks < 0x2000_0000 * s.unit
}

impl Stroke {
    /// The clock of the signal.
    pub open spec fn beat(self) -> Beat {
        Beat { unit: self.unit, ticks: self.ticks }
    }
}

/// With square edges a pulse is a run on its level, less than a sample
/// away from its true length.
pub proof fn lemma_square_pulse(pen: Pen, s: Stroke, t: int)
    requires
        square(s),
        0 <= pen.rem < s.unit,
        t == s.ticks || t == 2 * s.ticks,
    ensures
        pen.pulse(s, t).wave == pen.wave + run(s.target(!pen.level), (pen.rem + t) / s.unit),
        pen.pulse(s, t).level == !pen.level,
        0 <= pen.pulse(s, t).rem < s.unit,
        s.beat().fits((pen.rem + t) / s.unit, t),
        1 <= (pen.rem + t) / s.unit < COUNT_CAP,
        s.target(!pen.level) == s.low || s.target(!pen.level) == s.high,
        (s.target(!pen.level) == s.low) == !(s.target(pen.level) == s.low),
{
    let u = s.unit;
    let total = pen.rem + t;
    let n = total / u;
    assert(n * u <= total < n * u + u && 0 <= total % u < u) by (nonlinear_arith)
        requires
            n == total / u,
            u >= 1,
            total >= 0,
    ;
    assert((n - 1) * u < t && t < (n + 1) * u && 1 <= n && n < 0x4000_0001) by (nonlinear_arith)
        requires
            n * u <= pen.rem + t,
            pen.rem + t < n * u + u,
            0 <= pen.rem < u,
            t >= 5 * u,
            t < 0x4000_0000 * u,
            u >= 1,
    ;
    assert(pulse(n, s.target(!pen.level), 0) =~= run(s.target(!pen.level), n));
}

impl DecoderView {
    /// The mark by which the first frame of a signal is known to begin,
    /// where the estimate is within two samples of the true bit cell: four
    /// samples after the end of the first bit cell.
    pub open spec fn first_mark(pen: Pen, s: Stroke, bits: Seq<bool>, pos: int) -> int {
        clamp64(pos + pen.bits(s, bits.take(1)).wave.len()) + 4
    }

    /// A decoder that stands before a frame and hears its first `k` bit
    /// cells with square edges has heard the first `k` bits.
    pub proof fn lemma_hears_bits(
        self,
        pen: Pen,
        s: Stroke,
        past: Past,
        before: Option<(Past, Seq<bool>, bool)>,
        bits: Seq<bool>,
        k: int,
        pos: int,
        mark: Option<int>,
    )
        requires
            square(s),
            0 <= pen.rem < s.unit,
            pen.wave.len() == 0,
            quiet_after(past.recent, bits),
            self.before_bit(s.beat(), s.low, s.high, past, before, bits, 0),
            before is Some ==> self.low == (s.target(pen.level) == s.low),
            1 <= k <= bits.len(),
            mark is Some ==> before is None && s.beat().tuned(self.period) && mark == Some(
                DecoderView::first_mark(pen, s, bits, pos),
            ),
        ensures
            self.fed(pen.bits(s, bits.take(k)).wave, pos).heard(
                s.beat(),
                s.low,
                s.high,
                past,
                bits,
                k,
            ),
            self.fed(pen.bits(s, bits.take(k)).wave, pos).low == (s.target(
                pen.bits(s, bits.take(k)).level,
            ) == s.low),
            0 <= pen.bits(s, bits.take(k)).rem < s.unit,
            self.fed(pen.bits(s, bits.take(k)).wave, pos).placed(s.beat(), k - 1, mark),
            pen.bits(s, bits.take(k)).wave.len() >= pen.bits(s, bits.take(1)).wave.len() + 9 * (k
                - 1),
            pen.bits(s, bits.take(1)).wave.len() >= 9,
        decreases k,
    {
        let beat = s.beat();
        let lo = s.low;
        let hi = s.high;
        let prefix = bits.take(k - 1);
        let pen_a = pen.bits(s, prefix);
        let d_a = self.fed(pen_a.wave, pos);
        assert(bits.take(k).drop_last() =~= prefix);
        assert(bits.take(k).last() == bits[k - 1]);
        if k > 1 {
            self.lemma_hears_bits(pen, s, past, before, bits, k - 1, pos, mark);
        } else {
            assert(prefix =~= Seq::<bool>::empty());
            assert(pen_a == pen);
            assert(pen.wave =~= Seq::<u8>::empty());
        }
        assert(d_a.before_bit(beat, lo, hi, past, before, bits, k - 1));
        let b = bits[k - 1];
        let t1 = if b {
            s.ticks
        } else {
            2 * s.ticks
        };
        lemma_square_pulse(pen_a, s, t1);
        let pen_b = pen_a.pulse(s, t1);
        let n1 = (pen_a.rem + t1) / s.unit;
        let v1 = s.target(!pen_a.level);
        self.lemma_fed_joined(pen_a.wave, run(v1, n1), pos);
        let d_b = d_a.fed(run(v1, n1), pos + pen_a.wave.len());
        beat.lemma_measures(n1);
        d_a.lemma_first_pulse(
            beat,
            lo,
            hi,
            past,
            before,
            bits,
            k - 1,
            v1,
            n1,
            pos + pen_a.wave.len(),
            mark,
        );
        if b {
            assert(d_b.heard_half(beat, lo, hi, past, bits, k - 1));
            lemma_square_pulse(pen_b, s, s.ticks);
            let n2 = (pen_b.rem + s.ticks) / s.unit;
            let v2 = s.target(!pen_b.level);
            self.lemma_fed_joined(pen_b.wave, run(v2, n2), pos);
            beat.lemma_measures(n2);
            d_b.lemma_second_pulse(
                beat,
                lo,
                hi,
                past,
                bits,
                k - 1,
                v2,
                n2,
                pos + pen_b.wave.len(),
                mark,
            );
        } else {
            assert(d_b.heard(beat, lo, hi, past, bits, k));
        }
    }

    /// A decoder that hears the eighty bit cells of a frame with square
    /// edges from their beginning, and the closing edge with half a cell
    /// after them, has decoded the frame: its queue holds one frame, whose
    /// bytes are the bits as they were sent, and which is not marked as
    /// played backwards.
    pub proof fn lemma_hears_frame(self, pen: Pen, s: Stroke, bits: Seq<bool>, pos: int)
        requires
            square(s),
            0 <= pen.rem < s.unit,
            pen.wave.len() == 0,
            sync_only_at_end(bits),
            self.unheard(s.beat()),
            s.beat().tuned(self.period),
            self.capacity >= 1,
        ensures
            self.fed(pen.bits(s, bits).pulse(s, s.ticks).wave, pos).queue.len() == 1,
            self.fed(pen.bits(s, bits).pulse(s, s.ticks).wave, pos).queue[0].ltc == frame_bytes(
                bits,
            ),
            !self.fed(pen.bits(s, bits).pulse(s, s.ticks).wave, pos).queue[0].reverse,
            self.fed(pen.bits(s, bits).pulse(s, s.ticks).wave, pos).queue[0].off_start
                <= clamp64(pos + pen.bits(s, bits.take(1)).wave.len()) + 4,
            self.fed(pen.bits(s, bits).pulse(s, s.ticks).wave, pos).queue[0].off_end >= clamp64(
                clamp64(pos + pen.bits(s, bits).wave.len()) - 6,
            ),
            pen.bits(s, bits).wave.len() >= pen.bits(s, bits.take(1)).wave.len() + 711,
    {
        let mark = Some(DecoderView::first_mark(pen, s, bits, pos));
        self.lemma_hears_bits(pen, s, Past::none(), None, bits, 80, pos, mark);
        assert(bits.take(80) =~= bits);
        let pen_a = pen.bits(s, bits);
        let d_a = self.fed(pen_a.wave, pos);
        lemma_square_pulse(pen_a, s, s.ticks);
        let n = (pen_a.rem + s.ticks) / s.unit;
        let v = s.target(!pen_a.level);
        self.lemma_fed_joined(pen_a.wave, run(v, n), pos);
        d_a.lemma_closing_pulse(
            s.beat(),
            s.low,
            s.high,
            Past::none(),
            bits,
            v,
            n,
            pos + pen_a.wave.len(),
            mark,
        );
        let after = self.fed(pen.bits(s, bits).pulse(s, s.ticks).wave, pos);
        assert(Past::none().after(bits).frames =~= seq![frame_bytes(bits)]);
        assert(after.queue.last() == after.queue[0]);
    }
}

/// The bits of a row of frames, one frame after the other.
pub open spec fn joined(frames: Seq<Seq<bool>>) -> Seq<bool>
    decreases frames.len(),
{
    if frames.len() == 0 {
        Seq::empty()
    } else {
        joined(frames.drop_last()) + frames.last()
    }
}

/// Every frame of the row ends with the sync word, and a decoder that hears
/// the row from the start finds the sync word at the ends of the frames and
/// nowhere else.
pub open spec fn clean_row(frames: Seq<Seq<bool>>) -> bool {
    forall|j: int|
        0 <= j < frames.len() ==> clean_after(
            if j == 0 {
                blank16()
            } else {
                sync_forward()
            },
            #[trigger] frames[j],
        )
}

/// The bytes of the frames of a row.
pub open spec fn bytes_of_row(frames: Seq<Seq<bool>>) -> Seq<Seq<u8>> {
    frames.map_values(|b: Seq<bool>| frame_bytes(b))
}

/// What a decoder has behind it before frame `j` of a row that it hears
/// from the start.
pub open spec fn past_before(frames: Seq<Seq<bool>>, j: int) -> Past {
    if j <= 0 {
        Past::none()
    } else {
        Past { recent: sync_forward(), frames: bytes_of_row(frames.take(j)), reverse: false }
    }
}

impl DecoderView {
    /// A decoder that hears the first `j` frames of a row with square
    /// edges from their beginning has heard all bits of them and holds
    /// all but the last in its queue.
    pub proof fn lemma_hears_row(
        self,
        pen: Pen,
        s: Stroke,
        frames: Seq<Seq<bool>>,
        j: int,
        pos: int,
    )
        requires
            square(s),
            0 <= pen.rem < s.unit,
            pen.wave.len() == 0,
            clean_row(frames),
            self.unheard(s.beat()),
            1 <= j <= frames.len() <= self.capacity,
        ensures
            self.fed(pen.bits(s, joined(frames.take(j))).wave, pos).heard(
                s.beat(),
                s.low,
                s.high,
                past_before(frames, j - 1),
                frames[j - 1],
                80,
            ),
            self.fed(pen.bits(s, joined(frames.take(j))).wave, pos).low == (s.target(
                pen.bits(s, joined(frames.take(j))).level,
            ) == s.low),
            0 <= pen.bits(s, joined(frames.take(j))).rem < s.unit,
            self.fed(pen.bits(s, joined(frames.take(j))).wave, pos).capacity == self.capacity,
        decreases j,
    {
        let row = frames.take(j - 1);
        let bits = frames[j - 1];
        assert(frames.take(j).drop_last() =~= row);
        assert(frames.take(j).last() == bits);
        assert(bits.take(80) =~= bits);
        pen.lemma_bits_joined(s, joined(row), bits);
        let pen_p = pen.bits(s, joined(row));
        if j == 1 {
            assert(joined(row) =~= Seq::<bool>::empty());
            assert(pen_p == pen);
            self.lemma_hears_bits(pen, s, Past::none(), None, bits, 80, pos, None);
            self.lemma_fed_keeps(pen.bits(s, bits).wave, pos);
        } else {
            self.lemma_hears_row(pen, s, frames, j - 1, pos);
            let d_p = self.fed(pen_p.wave, pos);
            let base = Pen { wave: Seq::empty(), ..pen_p };
            base.lemma_bits_rebased(s, bits, pen_p.wave);
            assert(pen_p.wave + base.wave =~= pen_p.wave);
            assert(pen_p.bits(s, bits).wave == pen_p.wave + base.bits(s, bits).wave);
            self.lemma_fed_joined(pen_p.wave, base.bits(s, bits).wave, pos);
            let past = past_before(frames, j - 1);
            let earlier = past_before(frames, j - 2);
            let last = frames[j - 2];
            assert(frames.take(j - 1).drop_last() =~= frames.take(j - 2));
            assert(bytes_of_row(frames.take(j - 1)) =~= bytes_of_row(frames.take(j - 2)).push(
                frame_bytes(last),
            ));
            assert(earlier.after(last).frames =~= past.frames);
            assert(past == earlier.after_run(last, false));
            d_p.lemma_hears_bits(
                base,
                s,
                past,
                Some((earlier, last, false)),
                bits,
                80,
                pos + pen_p.wave.len(),
                None,
            );
            d_p.lemma_fed_keeps(base.bits(s, bits).wave, pos + pen_p.wave.len());
        }
    }

    /// A decoder that hears a row of frames with square edges from its
    /// beginning, and the closing edge with half a cell after it, has
    /// decoded the row: its queue holds the frames in their order, each
    /// with the bytes that were sent, none marked as played backwards.
    ///
    /// The queue takes the whole row, and each frame of the row ends with
    /// the sync word and holds it nowhere else.
    pub proof fn lemma_hears_stream(self, pen: Pen, s: Stroke, frames: Seq<Seq<bool>>, pos: int)
        requires
            square(s),
            0 <= pen.rem < s.unit,
            pen.wave.len() == 0,
            clean_row(frames),
            self.unheard(s.beat()),
            1 <= frames.len() <= self.capacity,
        ensures
            self.fed(pen.bits(s, joined(frames)).pulse(s, s.ticks).wave, pos).holds(
                bytes_of_row(frames),
            ),
    {
        let n = frames.len() as int;
        self.lemma_hears_row(pen, s, frames, n, pos);
        assert(frames.take(n) =~= frames);
        let pen_a = pen.bits(s, joined(frames));
        let d_a = self.fed(pen_a.wave, pos);
        lemma_square_pulse(pen_a, s, s.ticks);
        let k = (pen_a.rem + s.ticks) / s.unit;
        let v = s.target(!pen_a.level);
        self.lemma_fed_joined(pen_a.wave, run(v, k), pos);
        let past = past_before(frames, n - 1);
        d_a.lemma_closing_pulse(
            s.beat(),
            s.low,
            s.high,
            past,
            frames[n - 1],
            v,
            k,
            pos + pen_a.wave.len(),
            None,
        );
        assert(frames.drop_last() =~= frames.take(n - 1));
        assert(past.after(frames[n - 1]).frames =~= bytes_of_row(frames));
    }
}

/// A byte is made of its eight bits.
pub proof fn lemma_byte_of_its_bits(b: u8)
    ensures
        (if bit_of(b, 0) {
            1int
        } else {
            0
        }) + (if bit_of(b, 1) {
            2int
        } else {
            0
        }) + (if bit_of(b, 2) {
            4int
        } else {
            0
        }) + (if bit_of(b, 3) {
            8int
        } else {
            0
        }) + (if bit_of(b, 4) {
            16int
        } else {
            0
        }) + (if bit_of(b, 5) {
            32int
        } else {
            0
        }) + (if bit_of(b, 6) {
            64int
        } else {
            0
        }) + (if bit_of(b, 7) {
            128int
        } else {
            0
        }) == b,
{
    let b0 = b % 2;
    let b1 = (b / 2) % 2;
    let b2 = (b / 4) % 2;
    let b3 = (b / 8) % 2;
    let b4 = (b / 16) % 2;
    let b5 = (b / 32) % 2;
    let b6 = (b / 64) % 2;
    let b7 = (b / 128) % 2;
    assert(b == (b % 2) + 2 * ((b / 2) % 2) + 4 * ((b / 4) % 2) + 8 * ((b / 8) % 2) + 16 * ((b
        / 16) % 2) + 32 * ((b / 32) % 2) + 64 * ((b / 64) % 2) + 128 * ((b / 128) % 2))
        by (bit_vector);
    assert(b == b0 + 2 * b1 + 4 * b2 + 8 * b3 + 16 * b4 + 32 * b5 + 64 * b6 + 128 * b7);
    assert(bit_of(b, 0) == (b0 == 1));
    assert(bit_of(b, 1) == (b1 == 1));
    assert(bit_of(b, 2) == (b2 == 1));
    assert(bit_of(b, 3) == (b3 == 1));
    assert(bit_of(b, 4) == (b4 == 1));
    assert(bit_of(b, 5) == (b5 == 1));
    assert(bit_of(b, 6) == (b6 == 1));
    assert(bit_of(b, 7) == (b7 == 1));
}

/// The bits of a frame, packed again, are the frame.
pub proof fn lemma_frame_of_its_bits(frame: Seq<u8>)
    requires
        frame.len() == 10,
    ensures
        frame_bytes(frame_bits(frame)) == frame,
{
    let bits = frame_bits(frame);
    assert forall|k: int| 0 <= k < 10 implies byte_of_bits(bits, k) == frame[k] by {
        lemma_byte_of_its_bits(frame[k]);
        assert(bits[8 * k] == bit_of(frame[k], 0));
        assert(bits[8 * k + 1] == bit_of(frame[k], 1));
        assert(bits[8 * k + 2] == bit_of(frame[k], 2));
        assert(bits[8 * k + 3] == bit_of(frame[k], 3));
        assert(bits[8 * k + 4] == bit_of(frame[k], 4));
        assert(bits[8 * k + 5] == bit_of(frame[k], 5));
        assert(bits[8 * k + 6] == bit_of(frame[k], 6));
        assert(bits[8 * k + 7] == bit_of(frame[k], 7));
    }
    assert(frame_bytes(bits) =~= frame);
}

impl EncoderView {
    /// The signal of the encoder has square edges, ten samples or more to
    /// the bit cell, and no more than two to the thirtieth to the frame.
    pub open spec fn sends_square(self) -> bool {
        &&& self.filter == 0
        &&& self.sample_rate * self.fps_den >= 800 * self.fps_num
        &&& self.sample_rate * self.fps_den <= 0x4000_0000 * self.fps_num
    }

    /// One encoded frame, closed and handed out, is decoded as that frame.
    ///
    /// The encoder has an empty buffer that takes a frame at its rates, and
    /// a signal with square edges and ten samples or more to the bit cell.
    /// Its frame ends with the sync word and holds it nowhere else. The
    /// decoder is new and was told the samples of a frame, rounded up.
    /// Then the samples of `encode_frame`, handed out with the signal
    /// closed, leave one frame in the queue of the decoder: the frame of
    /// the encoder, byte for byte, not marked as played backwards.
    pub proof fn lemma_encoded_frame_is_decoded(self, capacity: int, pos: int)
        requires
            self.ready_for_frame(),
            self.sends_square(),
            sync_only_at_end(frame_bits(self.frame)),
            1 <= capacity <= i32::MAX,
            -0x4000_0000_0000_0000 <= pos <= 0x4000_0000_0000_0000,
        ensures
            DecoderView::fresh(
                frame_samples(self.sample_rate, self.fps_num, self.fps_den),
                capacity,
            ).fed(self.after_bytes(10).closed_samples(), pos).queue[0].off_start
                < DecoderView::fresh(
                frame_samples(self.sample_rate, self.fps_num, self.fps_den),
                capacity,
            ).fed(self.after_bytes(10).closed_samples(), pos).queue[0].off_end,
            DecoderView::fresh(
                frame_samples(self.sample_rate, self.fps_num, self.fps_den),
                capacity,
            ).fed(self.after_bytes(10).closed_samples(), pos).queue.len() == 1,
            DecoderView::fresh(
                frame_samples(self.sample_rate, self.fps_num, self.fps_den),
                capacity,
            ).fed(self.after_bytes(10).closed_samples(), pos).queue[0].ltc == self.frame,
            !DecoderView::fresh(
                frame_samples(self.sample_rate, self.fps_num, self.fps_den),
                capacity,
            ).fed(self.after_bytes(10).closed_samples(), pos).queue[0].reverse,
    {
        let s = self.stroke(NOMINAL_SPEED as int);
        let bits = frame_bits(self.frame);
        let apv = frame_samples(self.sample_rate, self.fps_num, self.fps_den);
        let d = DecoderView::fresh(apv, capacity);
        self.lemma_frame_fits();
        let sent = self.after_bytes(10);
        let pen = self.pen().bits(s, bits);
        assert(sent.pen() == pen);
        assert(sent.stroke(NOMINAL_SPEED as int) == s);
        self.lemma_square_signal();
        lemma_square_pulse(pen, s, s.ticks);
        self.lemma_closing_is_short();
        assert(sent.closed_samples() == pen.pulse(s, s.ticks).wave);
        self.lemma_fresh_decoder_is_tuned(capacity);
        assert(self.pen().wave =~= Seq::<u8>::empty());
        d.lemma_hears_frame(self.pen(), s, bits, pos);
        lemma_frame_of_its_bits(self.frame);
        assert(pen.wave.len() <= 0x4000_0000) by (nonlinear_arith)
            requires
                pen.wave.len() <= (self.sample_rate * self.fps_den + self.fps_num - 1)
                    / self.fps_num,
                self.sample_rate * self.fps_den <= 0x4000_0000 * self.fps_num,
                1 <= self.fps_num,
        ;
    }

    /// The encoder after the frames `frames` were encoded one after the
    /// other: each was set as the frame of the encoder and encoded with
    /// `encode_frame`, and the buffer was emptied after each.
    pub open spec fn after_frames(self, frames: Seq<Seq<u8>>) -> EncoderView
        decreases frames.len(),
    {
        if frames.len() == 0 {
            self
        } else {
            EncoderView {
                samples: Seq::empty(),
                ..(EncoderView {
                    frame: frames.last(),
                    ..self.after_frames(frames.drop_last())
                }).after_bytes(10)
            }
        }
    }

    /// The samples that were taken out of the buffer while the frames
    /// `frames` were encoded one after the other.
    pub open spec fn sent(self, frames: Seq<Seq<u8>>) -> Seq<u8>
        decreases frames.len(),
    {
        if frames.len() == 0 {
            Seq::empty()
        } else {
            self.sent(frames.drop_last()) + (EncoderView {
                frame: frames.last(),
                ..self.after_frames(frames.drop_last())
            }).after_bytes(10).samples
        }
    }

    /// The bits of the frames as they are sent.
    pub open spec fn bits_of_frames(frames: Seq<Seq<u8>>) -> Seq<Seq<bool>> {
        frames.map_values(|f: Seq<u8>| frame_bits(f))
    }

    /// Frames encoded one after the other from an empty buffer that takes
    /// a frame are one run of bit cells: every frame is encoded whole, and
    /// the samples taken out are the cells of all frames in their order.
    pub proof fn lemma_frames_are_one_run(self, frames: Seq<Seq<u8>>)
        requires
            self.ready_for_frame(),
            forall|i: int| 0 <= i < frames.len() ==> (#[trigger] frames[i]).len() == 10,
        ensures
            self.sent(frames) == self.pen().bits(
                self.stroke(NOMINAL_SPEED as int),
                joined(EncoderView::bits_of_frames(frames)),
            ).wave,
            self.after_frames(frames).pen() == (Pen {
                wave: Seq::empty(),
                ..self.pen().bits(
                    self.stroke(NOMINAL_SPEED as int),
                    joined(EncoderView::bits_of_frames(frames)),
                )
            }),
            self.after_frames(frames) == (EncoderView {
                frame: self.after_frames(frames).frame,
                level: self.after_frames(frames).level,
                rem: self.after_frames(frames).rem,
                pending: self.after_frames(frames).pending,
                ..self
            }),
            self.after_frames(frames).ready_for_frame(),
            frames.len() > 0 ==> self.after_frames(frames).pending,
        decreases frames.len(),
    {
        let s = self.stroke(NOMINAL_SPEED as int);
        let rows = EncoderView::bits_of_frames(frames);
        if frames.len() == 0 {
            assert(joined(rows) =~= Seq::<bool>::empty());
            assert(self.pen().wave =~= Seq::<u8>::empty());
        } else {
            let head = frames.drop_last();
            let f = frames.last();
            self.lemma_frames_are_one_run(head);
            let before = self.after_frames(head);
            let e = EncoderView { frame: f, ..before };
            assert(e.ready_for_frame());
            e.lemma_frame_fits();
            let bits = frame_bits(f);
            let head_rows = EncoderView::bits_of_frames(head);
            assert(rows.drop_last() =~= head_rows);
            assert(rows.last() == bits);
            let p = self.pen().bits(s, joined(head_rows));
            self.pen().lemma_bits_joined(s, joined(head_rows), bits);
            let base = e.pen();
            assert(e.stroke(NOMINAL_SPEED as int) == s);
            base.lemma_bits_rebased(s, bits, p.wave);
            assert(p.wave + base.wave =~= p.wave);
            assert((Pen { wave: p.wave + base.wave, ..base }) == p);
        }
    }

    /// A row of encoded frames, closed and handed out, is decoded as that
    /// row.
    ///
    /// The encoder has an empty buffer that takes a frame at its rates, and
    /// a signal with square edges and ten samples or more to the bit cell.
    /// Each frame ends with the sync word and holds it nowhere else, the
    /// first as a decoder hears it from the start, the others as it hears
    /// them after a sync word. The decoder is new, has a queue that takes
    /// the row, and was told a frame length `apv` that is no more than a
    /// tenth away from the samples of a frame. Then the samples of the
    /// frames, taken out of the buffer after each `encode_frame` and
    /// followed by what closing the signal hands out, leave the frames in
    /// the queue of the decoder: as many as were sent, in their order, byte
    /// for byte, none marked as played backwards.
    pub proof fn lemma_encoded_frames_are_decoded(
        self,
        frames: Seq<Seq<u8>>,
        apv: int,
        capacity: int,
        pos: int,
    )
        requires
            self.ready_for_frame(),
            self.sends_square(),
            forall|i: int| 0 <= i < frames.len() ==> (#[trigger] frames[i]).len() == 10,
            clean_row(EncoderView::bits_of_frames(frames)),
            1 <= frames.len() <= capacity <= i32::MAX,
            9 * frame_samples(self.sample_rate, self.fps_num, self.fps_den) <= 10 * apv,
            10 * apv <= 11 * frame_samples(self.sample_rate, self.fps_num, self.fps_den),
        ensures
            DecoderView::fresh(apv, capacity).fed(
                self.sent(frames) + self.after_frames(frames).closed_samples(),
                pos,
            ).holds(frames),
    {
        let s = self.stroke(NOMINAL_SPEED as int);
        let rows = EncoderView::bits_of_frames(frames);
        let d = DecoderView::fresh(apv, capacity);
        self.lemma_frames_are_one_run(frames);
        self.lemma_square_signal();
        self.lemma_fresh_decoder_is_in_lock(apv, capacity);
        let last = self.after_frames(frames);
        let pen = self.pen().bits(s, joined(rows));
        assert(last.stroke(NOMINAL_SPEED as int) == s);
        assert(last.sends_square());
        self.pen().lemma_bits_keep_time(s, joined(rows));
        let base = last.pen();
        lemma_square_pulse(base, s, s.ticks);
        lemma_square_pulse(pen, s, s.ticks);
        last.lemma_tail_is_short();
        assert(last.closed_samples() == base.pulse(s, s.ticks).wave);
        assert(pen.pulse(s, s.ticks).wave =~= self.sent(frames) + last.closed_samples());
        assert(self.pen().wave =~= Seq::<u8>::empty());
        d.lemma_hears_stream(self.pen(), s, rows, pos);
        assert(bytes_of_row(rows) =~= frames) by {
            assert forall|i: int| 0 <= i < frames.len() implies #[trigger] bytes_of_row(rows)[i]
                == frames[i] by {
                lemma_frame_of_its_bits(frames[i]);
            }
        }
    }

    /// A new decoder that was told a frame length no more than a tenth
    /// away from the samples of a frame begins with an estimate in lock.
    pub proof fn lemma_fresh_decoder_is_in_lock(self, apv: int, capacity: int)
        requires
            self.wf(),
            self.sends_square(),
            1 <= capacity <= i32::MAX,
            9 * frame_samples(self.sample_rate, self.fps_num, self.fps_den) <= 10 * apv,
            10 * apv <= 11 * frame_samples(self.sample_rate, self.fps_num, self.fps_den),
        ensures
            DecoderView::fresh(apv, capacity).unheard(self.stroke(NOMINAL_SPEED as int).beat()),
    {
        let s = self.stroke(NOMINAL_SPEED as int);
        let beat = s.beat();
        let sr = self.sample_rate;
        let den = self.fps_den;
        let num = self.fps_num;
        let spf = frame_samples(sr, num, den);
        let d = DecoderView::fresh(apv, capacity);
        let first = apv * 256 / 80;
        let u = beat.unit;
        let t = beat.ticks;
        let b = 512 * t + 512 * u - 1;
        let c = 512 * t - 256 * u;
        self.lemma_square_signal();
        assert(spf * num >= sr * den && spf * num < sr * den + num && spf >= 800 && spf
            <= 0x4000_0000) by (nonlinear_arith)
            requires
                spf == (sr * den + num - 1) / num,
                sr * den >= 800 * num,
                sr * den <= 0x4000_0000 * num,
                1 <= num,
        ;
        assert(80 * first <= apv * 256 < 80 * first + 80 && first >= 1);
        assert((b / u) * u <= b < (b / u) * u + u) by (nonlinear_arith)
            requires
                u >= 1,
                b >= 0,
        ;
        assert((c / u) * u <= c < (c / u) * u + u) by (nonlinear_arith)
            requires
                u >= 1,
                c >= 0,
        ;
        // the true bit cell in 256ths of a sample, times the ticks of a
        // sample, lies between 512000 times the samples of a frame less
        // one and 512000 times the samples of a frame, times the frame rate
        assert(512 * t <= 512_000 * spf * num && 512 * t > 512_000 * spf * num - 512_000 * num)
            by (nonlinear_arith)
            requires
                t == sr * den * 1000,
                spf * num >= sr * den,
                spf * num < sr * den + num,
        ;
        let most = b / u;
        let least_long = c / u + 1;
        assert(least_long * u > c) by (nonlinear_arith)
            requires
                least_long == c / u + 1,
                c < (c / u) * u + u,
        ;
        assert(most * 160_000 * num <= 512_000 * spf * num + 512 * 160_000 * num)
            by (nonlinear_arith)
            requires
                most * u <= b,
                b == 512 * t + 512 * u - 1,
                u == 160_000 * num,
                512 * t <= 512_000 * spf * num,
        ;
        assert(5 * most <= 16 * spf + 2560) by (nonlinear_arith)
            requires
                most * 160_000 * num <= 512_000 * spf * num + 512 * 160_000 * num,
                1 <= num,
        ;
        assert(least_long * 160_000 * num > 512_000 * spf * num - 512_000 * num - 256 * 160_000
            * num) by (nonlinear_arith)
            requires
                least_long * u > c,
                c == 512 * t - 256 * u,
                u == 160_000 * num,
                512 * t > 512_000 * spf * num - 512_000 * num,
        ;
        assert(5 * least_long > 16 * spf - 16 - 1280) by (nonlinear_arith)
            requires
                least_long * 160_000 * num > 512_000 * spf * num - 512_000 * num - 256 * 160_000
                    * num,
                1 <= num,
        ;
        assert(2 * most <= 3 * first && 3 * first < 4 * least_long && first <= 0xFFFF_FFFF);
        assert(d.recent =~= blank16());
        assert(d.queue =~= Seq::empty());
    }

    /// The closing half cell alone is no more than a vector holds.
    pub proof fn lemma_tail_is_short(self)
        requires
            self.ready_for_frame(),
            self.sends_square(),
            self.pending,
        ensures
            self.closes_on_take(),
    {
        let s = self.stroke(NOMINAL_SPEED as int);
        self.lemma_square_signal();
        lemma_square_pulse(self.pen(), s, s.ticks);
    }

    /// The stroke of an encoder that sends square edges is square.
    pub proof fn lemma_square_signal(self)
        requires
            self.wf(),
            self.sends_square(),
        ensures
            square(self.stroke(NOMINAL_SPEED as int)),
    {
        let s = self.stroke(NOMINAL_SPEED as int);
        let sr = self.sample_rate;
        let den = self.fps_den;
        let num = self.fps_num;
        assert(s.ticks == sr * den * 1000);
        assert(s.unit == 160_000 * num);
        assert(s.ticks >= 5 * s.unit && s.ticks < 0x2000_0000 * s.unit && s.ticks >= 0)
            by (nonlinear_arith)
            requires
                s.ticks == sr * den * 1000,
                s.unit == 160_000 * num,
                sr * den >= 800 * num,
                1 <= sr <= 0xFFFF_FFFF,
                1 <= den <= 0xFFFF_FFFF,
                1 <= num,
                sr * den <= 0x4000_0000 * num,
        ;
    }

    /// The closing half cell is shorter than a frame: the frame with it is
    /// no more than a vector holds.
    pub proof fn lemma_closing_is_short(self)
        requires
            self.ready_for_frame(),
            self.sends_square(),
        ensures
            self.after_bytes(10).closes_on_take(),
    {
        let s = self.stroke(NOMINAL_SPEED as int);
        let bits = frame_bits(self.frame);
        self.lemma_frame_fits();
        self.lemma_square_signal();
        let sent = self.after_bytes(10);
        let pen = self.pen().bits(s, bits);
        lemma_square_pulse(pen, s, s.ticks);
        let n = (pen.rem + s.ticks) / s.unit;
        let sr = self.sample_rate;
        let den = self.fps_den;
        let num = self.fps_num;
        let spf = frame_samples(sr, num, den);
        assert(n <= spf) by (nonlinear_arith)
            requires
                (n - 1) * s.unit < s.ticks,
                s.ticks == sr * den * 1000,
                s.unit == 160_000 * num,
                spf == (sr * den + num - 1) / num,
                1 <= num,
                0 <= sr * den,
                1 <= n,
        ;
        assert(sent.closing_pen().wave.len() == pen.wave.len() + n);
    }

    /// A new decoder that was told the samples of a frame, rounded up,
    /// begins with a tuned estimate.
    pub proof fn lemma_fresh_decoder_is_tuned(self, capacity: int)
        requires
            self.wf(),
            self.sends_square(),
            1 <= capacity <= i32::MAX,
        ensures
            DecoderView::fresh(
                frame_samples(self.sample_rate, self.fps_num, self.fps_den),
                capacity,
            ).unheard(self.stroke(NOMINAL_SPEED as int).beat()),
            self.stroke(NOMINAL_SPEED as int).beat().tuned(
                DecoderView::fresh(
                    frame_samples(self.sample_rate, self.fps_num, self.fps_den),
                    capacity,
                ).period,
            ),
    {
        let s = self.stroke(NOMINAL_SPEED as int);
        let beat = s.beat();
        let sr = self.sample_rate;
        let den = self.fps_den;
        let num = self.fps_num;
        let apv = frame_samples(sr, num, den);
        let d = DecoderView::fresh(apv, capacity);
        let first = apv * 256 / 80;
        let u = beat.unit;
        let t = beat.ticks;
        let a = 512 * t - 512 * u;
        let b = 512 * t + 512 * u - 1;
        self.lemma_square_signal();
        assert(apv * num >= sr * den && apv * num < sr * den + num && apv >= 800 && apv
            <= 0x4000_0000) by (nonlinear_arith)
            requires
                apv == (sr * den + num - 1) / num,
                sr * den >= 800 * num,
                sr * den <= 0x4000_0000 * num,
                1 <= num,
        ;
        assert(80 * first <= apv * 256 < 80 * first + 80 && first >= 1);
        assert((a / u) * u <= a < (a / u) * u + u) by (nonlinear_arith)
            requires
                u >= 1,
                a >= 0,
        ;
        assert((b / u) * u <= b < (b / u) * u + u) by (nonlinear_arith)
            requires
                u >= 1,
                b >= 0,
        ;
        assert(first > a / u && first <= b / u) by (nonlinear_arith)
            requires
                80 * first <= apv * 256,
                apv * 256 < 80 * first + 80,
                apv * num >= sr * den,
                apv * num < sr * den + num,
                (a / u) * u <= a,
                b < (b / u) * u + u,
                a == 512 * t - 512 * u,
                b == 512 * t + 512 * u - 1,
                t == sr * den * 1000,
                u == 160_000 * num,
                1 <= num,
        ;
        assert(d.recent =~= blank16());
        assert(d.queue =~= Seq::empty());
        assert(d.prev_end is None);
        assert(beat.tuned(d.period));
        beat.lemma_measures(0);
    }
}

/// The sync word has its zeros at the first, the second and the last but
/// one of its sixteen places; backwards, at the second and the last two.
pub proof fn lemma_sync_words(i: int)
    requires
        0 <= i < 16,
    ensures
        sync_forward().len() == 16,
        sync_reverse().len() == 16,
        sync_forward()[i] == (i != 0 && i != 1 && i != 14),
        sync_reverse()[i] == (i != 1 && i != 14 && i != 15),
{
    if i == 0 {
    } else if i == 1 {
    } else if i == 2 {
    } else if i == 3 {
    } else if i == 4 {
    } else if i == 5 {
    } else if i == 6 {
    } else if i == 7 {
    } else if i == 8 {
    } else if i == 9 {
    } else if i == 10 {
    } else if i == 11 {
    } else if i == 12 {
    } else if i == 13 {
    } else if i == 14 {
    } else {
    }
}

/// The frame ends with the sync word, and in none of its first eight bytes
/// are the four low bits all set: no digit of the time, with the flags that
/// share its place, is fifteen.
pub open spec fn digits_break_runs(frame: Seq<u8>) -> bool {
    &&& frame.len() == 10
    &&& frame[8] == 0xFC
    &&& frame[9] == 0xBF
    &&& forall|j: int|
        0 <= j < 8 ==> !(bit_of(#[trigger] frame[j], 0) && bit_of(frame[j], 1) && bit_of(
            frame[j],
            2,
        ) && bit_of(frame[j], 3))
}

/// Twelve bits in a row always cover the four low bits of a byte: in a
/// frame whose digits break the runs, one of twelve bits in a row is not
/// set, wherever in the frame they lie.
pub proof fn lemma_no_twelve_ones(frame: Seq<u8>, from: int)
    requires
        digits_break_runs(frame),
        0 <= from <= 65,
    ensures
        exists|p: int| from <= p < from + 12 && !(#[trigger] frame_bits(frame)[p]),
{
    let bits = frame_bits(frame);
    let j = (from + 7) / 8;
    if from == 65 {
        assert(!bits[65]);
    } else if j == 8 {
        assert(!bits[64]);
    } else {
        assert(0 <= j < 8);
        let b = frame[j];
        assert(bits[8 * j] == bit_of(b, 0));
        assert(bits[8 * j + 1] == bit_of(b, 1));
        assert(bits[8 * j + 2] == bit_of(b, 2));
        assert(bits[8 * j + 3] == bit_of(b, 3));
        if !bits[8 * j] {
        } else if !bits[8 * j + 1] {
        } else if !bits[8 * j + 2] {
        } else {
            assert(!bits[8 * j + 3]);
        }
    }
}

/// A frame whose digits break the runs holds the sync word at its end and
/// nowhere else, whether a decoder hears it from the start or after the sync
/// word of another frame. Every frame that shows a time of day at thirty
/// frames per second or less is such a frame, whatever its user bits are.
pub proof fn lemma_digits_keep_sync_clean(frame: Seq<u8>)
    requires
        digits_break_runs(frame),
    ensures
        clean_after(blank16(), frame_bits(frame)),
        clean_after(sync_forward(), frame_bits(frame)),
{
    let bits = frame_bits(frame);
    lemma_sync_words(0);
    assert(remembered_after(blank16(), bits) =~= sync_forward()) by {
        assert forall|i: int| 0 <= i < 16 implies remembered_after(blank16(), bits)[i]
            == sync_forward()[i] by {
            lemma_sync_words(i);
            assert(remembered_after(blank16(), bits)[i] == bits[64 + i]);
            if i < 8 {
                assert(bits[64 + i] == bit_of(0xFCu8, i));
            } else {
                assert(bits[64 + i] == bit_of(0xBFu8, i - 8));
            }
        }
    }
    assert(remembered_after(sync_forward(), bits) =~= remembered_after(blank16(), bits));
    assert forall|k: int| 1 <= k < 80 implies remembered_after(
        blank16(),
        #[trigger] bits.take(k),
    ) != sync_forward() && remembered_after(blank16(), bits.take(k)) != sync_reverse() by {
        let w = remembered_after(blank16(), bits.take(k));
        if k < 14 {
            lemma_sync_words(2);
            assert(w[2] == blank16()[k + 2]);
            assert(!w[2]);
        } else {
            lemma_no_twelve_ones(frame, k - 14);
            let p = choose|p: int| k - 14 <= p < k - 2 && !(#[trigger] bits[p]);
            let i = p + 16 - k;
            lemma_sync_words(i);
            assert(w[i] == bits[p]);
        }
    }
    assert forall|k: int| 1 <= k < 80 implies remembered_after(
        sync_forward(),
        #[trigger] bits.take(k),
    ) != sync_forward() && remembered_after(sync_forward(), bits.take(k)) != sync_reverse() by {
        let w = remembered_after(sync_forward(), bits.take(k));
        if k < 14 {
            lemma_sync_words(k);
            lemma_sync_words(k + 1);
            lemma_sync_words(0);
            lemma_sync_words(1);
            assert(w[0] == sync_forward()[k]);
            assert(w[1] == sync_forward()[k + 1]);
            if k == 13 {
                // three bits of the old sync word and the first eleven of
                // the frame: the low bits of its first byte are among them
                let b = frame[0];
                assert(bits[0] == bit_of(b, 0));
                assert(bits[1] == bit_of(b, 1));
                assert(bits[2] == bit_of(b, 2));
                assert(bits[3] == bit_of(b, 3));
                assert(w[3] == bits[0]);
                assert(w[4] == bits[1]);
                assert(w[5] == bits[2]);
                assert(w[6] == bits[3]);
                lemma_sync_words(3);
                lemma_sync_words(4);
                lemma_sync_words(5);
                lemma_sync_words(6);
            }
        } else {
            lemma_no_twelve_ones(frame, k - 14);
            let p = choose|p: int| k - 14 <= p < k - 2 && !(#[trigger] bits[p]);
            let i = p + 16 - k;
            lemma_sync_words(i);
            assert(w[i] == bits[p]);
        }
    }
}

/// The four low bits of a byte are all set only if they make fifteen.
pub proof fn lemma_low_bits_all_set(b: u8)
    ensures
        bit_of(b, 0) && bit_of(b, 1) && bit_of(b, 2) && bit_of(b, 3) ==> low4(b) == 15 && low3(b)
            == 7 && low2(b) == 3,
{
    reveal(low4);
    reveal(low3);
    reveal(low2);
    assert((b % 2 == 1 && (b / 2) % 2 == 1 && (b / 4) % 2 == 1 && (b / 8) % 2 == 1) ==> (b % 16
        == 15 && b % 8 == 7 && b % 4 == 3)) by (bit_vector);
}

impl FrameFields {
    /// The digits of the clock are short of fifteen and the tens among them
    /// short of filling their bits, and the sync word is in its place. That
    /// holds of every frame that shows a time of day at thirty frames per
    /// second or less.
    pub open spec fn digits_are_short(self) -> bool {
        &&& self.frame_units < 15
        &&& self.frame_tens < 3
        &&& self.secs_units < 15
        &&& self.secs_tens < 7
        &&& self.mins_units < 15
        &&& self.mins_tens < 7
        &&& self.hours_units < 15
        &&& self.hours_tens < 3
        &&& self.sync_word == SYNC_WORD
    }

    /// A frame whose digits are short holds the sync word at its end and
    /// nowhere else, whatever its user bits and flags are.
    pub proof fn lemma_short_digits_break_runs(self)
        requires
            self.wf(),
            self.digits_are_short(),
        ensures
            digits_break_runs(bytes_of(self)),
            clean_after(blank16(), frame_bits(bytes_of(self))),
            clean_after(sync_forward(), frame_bits(bytes_of(self))),
    {
        let b = bytes_of(self);
        lemma_fields_of_bytes_of(self);
        assert forall|j: int| 0 <= j < 8 implies !(bit_of(#[trigger] b[j], 0) && bit_of(b[j], 1)
            && bit_of(b[j], 2) && bit_of(b[j], 3)) by {
            lemma_low_bits_all_set(b[j]);
        }
        reveal(word_low);
        reveal(word_high);
        lemma_digits_keep_sync_clean(b);
    }

    /// A frame that was set to a time of day at thirty frames per second or
    /// less holds the sync word at its end and nowhere else.
    pub proof fn lemma_times_keep_sync_clean(
        self,
        t: SMPTETimecode,
        fps: int,
        standard: LTCTVStandard,
        flags: LtcBgFlags,
    )
        requires
            self.wf(),
            self.sync_word == SYNC_WORD,
            t.time_in_range(fps),
            fps <= 30,
        ensures
            self.with_time(t, standard, flags).wf(),
            self.with_time(t, standard, flags).digits_are_short(),
            clean_after(blank16(), frame_bits(bytes_of(self.with_time(t, standard, flags)))),
            clean_after(sync_forward(), frame_bits(bytes_of(self.with_time(t, standard, flags)))),
    {
        FrameFields::lemma_clock_writers();
        FrameFields::lemma_date_writers();
        let placed = self.with_digits(t, flags);
        assert(placed.wf());
        assert(placed.hours() == t.hours);
        assert(placed.minutes() == t.mins);
        assert(placed.seconds() == t.secs);
        assert(placed.frame_number() == t.frame);
        let g = self.with_time(t, standard, flags);
        assert(g.digits_are_short());
        g.lemma_short_digits_break_runs();
    }
}

impl EncoderView {
    /// One encoded frame that shows a time of day, closed and handed out,
    /// is decoded as that frame, whatever its user bits and flags are.
    ///
    /// The encoder has an empty buffer that takes a frame at its rates, and
    /// a signal with square edges and ten samples or more to the bit cell.
    /// The digits of its frame are short: it shows a time of day at thirty
    /// frames per second or less. The decoder is new and was told the
    /// samples of a frame, rounded up. Then the samples of `encode_frame`,
    /// handed out with the signal closed, leave one frame in the queue of
    /// the decoder: the frame of the encoder, byte for byte, not marked as
    /// played backwards, and it begins before it ends.
    pub proof fn lemma_encoded_time_is_decoded(self, capacity: int, pos: int)
        requires
            self.ready_for_frame(),
            self.sends_square(),
            self.fields().digits_are_short(),
            1 <= capacity <= i32::MAX,
            -0x4000_0000_0000_0000 <= pos <= 0x4000_0000_0000_0000,
        ensures
            DecoderView::fresh(
                frame_samples(self.sample_rate, self.fps_num, self.fps_den),
                capacity,
            ).fed(self.after_bytes(10).closed_samples(), pos).holds(seq![self.frame]),
            DecoderView::fresh(
                frame_samples(self.sample_rate, self.fps_num, self.fps_den),
                capacity,
            ).fed(self.after_bytes(10).closed_samples(), pos).queue[0].off_start
                < DecoderView::fresh(
                frame_samples(self.sample_rate, self.fps_num, self.fps_den),
                capacity,
            ).fed(self.after_bytes(10).closed_samples(), pos).queue[0].off_end,
    {
        lemma_bytes_of_fields_of(self.frame);
        self.fields().lemma_short_digits_break_runs();
        self.lemma_encoded_frame_is_decoded(capacity, pos);
    }

    /// A row of encoded frames that show times of day, closed and handed
    /// out, is decoded as that row, whatever the user bits and flags of the
    /// frames are.
    ///
    /// The encoder has an empty buffer that takes a frame at its rates, and
    /// a signal with square edges and ten samples or more to the bit cell.
    /// The digits of every frame are short: it shows a time of day at
    /// thirty frames per second or less. The decoder is new, has a queue
    /// that takes the row, and was told a frame length that is no more than
    /// a tenth away from the samples of a frame. Then the samples of the
    /// frames, taken out of the buffer after each `encode_frame` and
    /// followed by what closing the signal hands out, leave the frames in
    /// the queue of the decoder: as many as were sent, in their order, byte
    /// for byte, none marked as played backwards.
    pub proof fn lemma_encoded_times_are_decoded(
        self,
        frames: Seq<Seq<u8>>,
        apv: int,
        capacity: int,
        pos: int,
    )
        requires
            self.ready_for_frame(),
            self.sends_square(),
            forall|i: int|
                0 <= i < frames.len() ==> (#[trigger] frames[i]).len() == 10 && fields_of(
                    frames[i],
                ).digits_are_short(),
            1 <= frames.len() <= capacity <= i32::MAX,
            9 * frame_samples(self.sample_rate, self.fps_num, self.fps_den) <= 10 * apv,
            10 * apv <= 11 * frame_samples(self.sample_rate, self.fps_num, self.fps_den),
        ensures
            DecoderView::fresh(apv, capacity).fed(
                self.sent(frames) + self.after_frames(frames).closed_samples(),
                pos,
            ).holds(frames),
    {
        let rows = EncoderView::bits_of_frames(frames);
        assert forall|j: int| 0 <= j < rows.len() implies clean_after(
            if j == 0 {
                blank16()
            } else {
                sync_forward()
            },
            #[trigger] rows[j],
        ) by {
            lemma_bytes_of_fields_of(frames[j]);
            fields_of(frames[j]).lemma_short_digits_break_runs();
        }
        self.lemma_encoded_frames_are_decoded(frames, apv, capacity, pos);
    }
}

fn word_of(bits: [bool; 16]) -> (r: Vec<bool>)
    ensures
        r@ == bits@,
{
    let mut r: Vec<bool> = Vec::new();
    let mut i: usize = 0;
    while i < 16
        invariant
            i <= 16,
            r.len() == i,
            forall|j: int| 0 <= j < i ==> r@[j] == bits@[j],
        decreases 16 - i,
    {
        r.push(bits[i]);
        i = i + 1;
    }
    assert(r@ =~= bits@);
    r
}

/// Tells whether the frame ends with the sync word and holds it nowhere
/// else, as a decoder hears it: from its first bit with nothing heard
/// before, or, with `after_frame`, right after the sync word of another
/// frame.
pub fn sync_is_clean(frame: &LTCFrame, after_frame: bool) -> (r: bool)
    ensures
        r == clean_after(
            if after_frame {
                sync_forward()
            } else {
                blank16()
            },
            frame_bits(frame@),
        ),
{
    let ghost bits = frame_bits(frame@);
    let mut recent: Vec<bool> = if after_frame {
        word_of(forward_word())
    } else {
        blank_word()
    };
    let ghost start = recent@;
    let mut k: usize = 0;
    proof {
        assert(recent@ =~= remembered_after(start, bits.take(0)));
    }
    while k < 80
        invariant
            k <= 80,
            bits == frame_bits(frame@),
            recent.len() == 16,
            start.len() == 16,
            start == (if after_frame {
                sync_forward()
            } else {
                blank16()
            }),
            recent@ == remembered_after(start, bits.take(k as int)),
            forall|j: int|
                1 <= j < k ==> remembered_after(start, #[trigger] bits.take(j)) != sync_forward()
                    && remembered_after(start, bits.take(j)) != sync_reverse(),
        decreases 80 - k,
    {
        if k > 0 && (is_word(&recent, forward_word()) || is_word(&recent, reverse_word())) {
            proof {
                let seen = remembered_after(start, bits.take(k as int));
                assert(seen == sync_forward() || seen == sync_reverse());
            }
            return false;
        }
        let b: bool = byte_bit(frame.ltc[k / 8], k % 8);
        proof {
            lemma_remembered_next(start, bits, k as int);
        }
        let _ = recent.remove(0);
        recent.push(b);
        proof {
            assert(recent@ =~= remembered_after(start, bits.take(k as int)).skip(1).push(
                bits[k as int],
            ));
        }
        k = k + 1;
    }
    proof {
        assert(bits.take(80) =~= bits);
    }
    is_word(&recent, forward_word())
}

/// Tells whether the frame ends with the sync word and holds it nowhere
/// else: whether a decoder that hears the frame from its first bit, with
/// nothing heard before, finds the sync word, forwards or backwards, at the
/// end of the frame and nowhere before.
pub fn sync_is_only_at_end(frame: &LTCFrame) -> (r: bool)
    ensures
        r == sync_only_at_end(frame_bits(frame@)),
{
    sync_is_clean(frame, false)
}

/// The rates make a signal that a new decoder follows from the first
/// sample: frames fit a buffer, and a bit cell has ten samples or more.
pub open spec fn rates_carry(sample_rate: int, fps_num: int, fps_den: int) -> bool {
    &&& rates_ok(sample_rate, fps_num, fps_den)
    &&& sample_rate * fps_den >= 800 * fps_num
    &&& sample_rate * fps_den <= 0x4000_0000 * fps_num
}

/// Sends a frame through a new encoder and a new decoder: the frame is
/// encoded with square edges at the given rates, the signal is closed, the
/// samples are decoded from position zero, and what the decoder has found
/// is returned.
///
/// Where the rates carry a signal, a frame that shows a time of day, or
/// any other frame that holds the sync word at its end only, comes back as
/// it went in: the same ten bytes, not marked as played backwards, and
/// beginning before it ends. Where the rates describe no signal, nothing
/// comes back.
pub fn loop_back(frame: &LTCFrame, sample_rate: u32, fps_num: u32, fps_den: u32) -> (r: Option<
    LTCFrameExt,
>)
    ensures
        !rates_ok(sample_rate as int, fps_num as int, fps_den as int) ==> r.is_none(),
        rates_carry(sample_rate as int, fps_num as int, fps_den as int) && (
        frame.fields().digits_are_short() || sync_only_at_end(frame_bits(frame@))) ==> {
            &&& r.is_some()
            &&& r.unwrap()@.ltc == frame@
            &&& !r.unwrap()@.reverse
            &&& r.unwrap()@.off_start < r.unwrap()@.off_end
        },
{
    let flags = LtcBgFlags::new();
    match LTCEncoder::try_new(sample_rate, fps_num, fps_den, LTCTVStandard::LTCTV_525_60, flags) {
        Err(_) => None,
        Ok(mut encoder) => {
            encoder.set_frame(frame);
            let ghost sender = encoder@;
            proof {
                encoder.lemma_wf();
                assert(sender.ready_for_frame());
                assert(frame_samples(sample_rate as int, fps_num as int, fps_den as int) >= 1)
                    by (nonlinear_arith)
                    requires
                        sample_rate >= 1,
                        fps_den >= 1,
                        fps_num >= 1,
                ;
            }
            encoder.encode_frame();
            let (samples, _) = encoder.get_buf_ref(true);
            let apv: usize = encoder.get_buffersize() - 1;
            match LTCDecoder::try_new(apv as i32, 1) {
                Err(_) => None,
                Ok(mut decoder) => {
                    decoder.write_u8(samples.as_slice(), 0);
                    proof {
                        if rates_carry(sample_rate as int, fps_num as int, fps_den as int) {
                            assert(sender.sends_square());
                            if frame.fields().digits_are_short() {
                                sender.lemma_encoded_time_is_decoded(1, 0);
                            } else if sync_only_at_end(frame_bits(frame@)) {
                                sender.lemma_encoded_frame_is_decoded(1, 0);
                            }
                        }
                    }
                    decoder.read()
                },
            }
        },
    }
}

} // verus!
