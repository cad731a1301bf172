//! Frames played backwards: what is encoded with the last bit first is
//! decoded in order, marked as played backwards.
//!
//! Played backwards, the sync word of a frame arrives before its data. The
//! decoder therefore knows a frame when the sync word of the next has
//! passed: of a row of frames it decodes all but the last.

use crate::channel::{
    blank16, bytes_of_row, clean_after, ends_after, lemma_frame_of_its_bits, lemma_square_pulse,
    remembered_after, run, square, Past,
};
use crate::decoder::{frame_bytes, sync_forward, sync_reverse, turned_round, DecoderView};
use crate::encoder::{frame_bits, frame_samples, EncoderView, NOMINAL_SPEED};
use crate::frame::{fields_of, lemma_bytes_of_fields_of};
use crate::wave::{Pen, Stroke};
use vstd::prelude::*;

verus! {

/// Bit `i` of the sixteen that a decoder remembers is bit `i` of the last
/// sixteen of what it remembered before and what it has heard since.
pub proof fn lemma_remembered_bit(recent: Seq<bool>, bits: Seq<bool>, i: int)
    requires
        recent.len() == 16,
        0 <= i < 16,
    ensures
        remembered_after(recent, bits).len() == 16,
        remembered_after(recent, bits)[i] == (if bits.len() + i < 16 {
            recent[bits.len() + i]
        } else {
            bits[bits.len() + i - 16]
        }),
{
}

/// The sync word backwards is the sync word with its last bit first.
pub proof fn lemma_sync_turned()
    ensures
        sync_forward().len() == 16,
        sync_reverse().len() == 16,
        forall|i: int| 0 <= i < 16 ==> sync_reverse()[i] == #[trigger] sync_forward()[15 - i],
        !sync_forward()[0] && !sync_forward()[1] && sync_forward()[2] && sync_forward()[3],
        sync_forward()[15],
        sync_reverse()[0] && !sync_reverse()[1] && !sync_reverse()[14] && !sync_reverse()[15],
{
    let f = sync_forward();
    let r = sync_reverse();
    assert(r[0] == f[15] && r[1] == f[14] && r[2] == f[13] && r[3] == f[12]);
    assert(r[4] == f[11] && r[5] == f[10] && r[6] == f[9] && r[7] == f[8]);
    assert(r[8] == f[7] && r[9] == f[6] && r[10] == f[5] && r[11] == f[4]);
    assert(r[12] == f[3] && r[13] == f[2] && r[14] == f[1] && r[15] == f[0]);
    assert forall|i: int| 0 <= i < 16 implies r[i] == #[trigger] f[15 - i] by {
        let j = 15 - i;
        assert(j == 0 || j == 1 || j == 2 || j == 3 || j == 4 || j == 5 || j == 6 || j == 7 || j
            == 8 || j == 9 || j == 10 || j == 11 || j == 12 || j == 13 || j == 14 || j == 15);
    }
}

/// A decoder that has heard nothing finds the sync word backwards at the
/// end of the sync word backwards, and no sync word before.
pub proof fn lemma_lead_ends()
    ensures
        ends_after(blank16(), sync_reverse(), true),
{
    let lead = sync_reverse();
    lemma_sync_turned();
    assert forall|k: int| 1 <= k < 16 implies remembered_after(blank16(), #[trigger] lead.take(k))
        != sync_forward() && remembered_after(blank16(), lead.take(k)) != sync_reverse() by {
        let w = remembered_after(blank16(), lead.take(k));
        lemma_remembered_bit(blank16(), lead.take(k), 0);
        lemma_remembered_bit(blank16(), lead.take(k), 2);
        lemma_remembered_bit(blank16(), lead.take(k), 3);
        lemma_remembered_bit(blank16(), lead.take(k), 15);
        assert(!w[0]);
        if k <= 13 {
            assert(!w[2]);
        } else if k == 14 {
            assert(w[3] == lead[1]);
        } else {
            assert(w[15] == lead[14]);
        }
    }
    assert(remembered_after(blank16(), lead) =~= lead) by {
        assert forall|i: int| 0 <= i < 16 implies remembered_after(blank16(), lead)[i]
            == lead[i] by {
            lemma_remembered_bit(blank16(), lead, i);
        }
    }
}

/// The run of bits that ends when a frame played backwards is known: the
/// sixty-four bits of its data, last bit first, and the sync word of the
/// frame that follows it, backwards.
pub open spec fn back_run(bits: Seq<bool>) -> Seq<bool> {
    bits.reverse().skip(16) + sync_reverse()
}

/// A frame that keeps the sync word clean when it follows another keeps it
/// clean when played backwards: after the sync word backwards, its data and
/// the next sync word backwards hold the sync word at their end only. Put
/// in order, they are the frame.
pub proof fn lemma_back_run_ends(bits: Seq<bool>)
    requires
        clean_after(sync_forward(), bits),
    ensures
        ends_after(sync_reverse(), back_run(bits), true),
        back_run(bits).len() == 80,
        turned_round(back_run(bits)) == bits,
        bits.reverse() == sync_reverse() + back_run(bits).take(64),
{
    let u = back_run(bits);
    let f = sync_forward();
    let r = sync_reverse();
    lemma_sync_turned();
    assert(u.len() == 80);
    assert forall|i: int| 0 <= i < 64 implies u[i] == bits[63 - i] by {
        assert(u[i] == bits.reverse()[16 + i]);
    }
    assert forall|t: int| 0 <= t < 16 implies u[64 + t] == r[t] && bits[64 + t] == f[t] by {
        lemma_remembered_bit(f, bits, t);
    }
    assert forall|k: int| 1 <= k < 80 implies remembered_after(r, #[trigger] u.take(k)) != f
        && remembered_after(r, u.take(k)) != r by {
        let w = remembered_after(r, u.take(k));
        let x = remembered_after(f, bits.take(80 - k));
        assert forall|i: int| 0 <= i < 16 implies w[i] == x[15 - i] by {
            lemma_remembered_bit(r, u.take(k), i);
            lemma_remembered_bit(f, bits.take(80 - k), 15 - i);
            if k + i < 16 {
                assert(w[i] == r[k + i]);
                assert(r[k + i] == f[15 - (k + i)]);
                assert(x[15 - i] == bits[79 - k - i]);
                assert(bits[64 + (15 - k - i)] == f[15 - k - i]);
            } else if k + i < 80 {
                assert(w[i] == u[k + i - 16]);
                assert(x[15 - i] == bits[79 - k - i]);
            } else {
                assert(w[i] == u[64 + (k + i - 80)]);
                assert(x[15 - i] == f[95 - k - i]);
                assert(r[k + i - 80] == f[15 - (k + i - 80)]);
            }
        }
        assert(w.len() == 16 && x.len() == 16) by {
            lemma_remembered_bit(r, u.take(k), 0);
            lemma_remembered_bit(f, bits.take(80 - k), 0);
        }
        if w == f {
            assert(x =~= r) by {
                assert forall|j: int| 0 <= j < 16 implies x[j] == r[j] by {
                    assert(w[15 - j] == x[15 - (15 - j)]);
                    assert(r[j] == f[15 - j]);
                }
            }
        }
        if w == r {
            assert(x =~= f) by {
                assert forall|j: int| 0 <= j < 16 implies x[j] == f[j] by {
                    assert(w[15 - j] == x[15 - (15 - j)]);
                    assert(r[15 - j] == f[15 - (15 - j)]);
                }
            }
        }
    }
    assert(remembered_after(r, u) =~= r) by {
        assert forall|i: int| 0 <= i < 16 implies remembered_after(r, u)[i] == r[i] by {
            lemma_remembered_bit(r, u, i);
            assert(u[64 + i] == r[i]);
        }
    }
    assert(turned_round(u) =~= bits) by {
        assert forall|i: int| 0 <= i < 80 implies turned_round(u)[i] == bits[i] by {
            if i < 64 {
                assert(u[63 - i] == bits[63 - (63 - i)]);
            } else {
                assert(u[64 + (79 - i)] == r[79 - i]);
                assert(r[79 - i] == f[15 - (79 - i)]);
                assert(bits[64 + (i - 64)] == f[i - 64]);
            }
        }
    }
    assert(bits.reverse() =~= r + u.take(64)) by {
        assert forall|i: int| 0 <= i < 80 implies bits.reverse()[i] == (r + u.take(64))[i] by {
            if i < 16 {
                assert(bits[64 + (15 - i)] == f[15 - i]);
                assert(r[i] == f[15 - i]);
            } else {
                assert(u[i - 16] == bits[63 - (i - 16)]);
            }
        }
    }
}

/// The bits of a row of frames as they arrive when each frame is played
/// backwards, one frame after the other.
pub open spec fn joined_back(rows: Seq<Seq<bool>>) -> Seq<bool>
    decreases rows.len(),
{
    if rows.len() == 0 {
        Seq::empty()
    } else {
        joined_back(rows.drop_last()) + rows.last().reverse()
    }
}

/// Every frame of the row ends with the sync word and holds it nowhere
/// else when it follows a sync word, forwards or backwards.
pub open spec fn clean_back_row(rows: Seq<Seq<bool>>) -> bool {
    forall|j: int| 0 <= j < rows.len() ==> clean_after(sync_forward(), #[trigger] rows[j])
}

/// What a decoder has behind it before run `j` of a row played backwards
/// that it hears from the start. Run zero is the sync word of the first
/// frame; run `j` is the data of frame `j - 1` with the sync word of the
/// next.
pub open spec fn past_back(rows: Seq<Seq<bool>>, j: int) -> Past {
    if j <= 0 {
        Past::none()
    } else {
        Past { recent: sync_reverse(), frames: bytes_of_row(rows.take(j - 1)), reverse: true }
    }
}

/// Run `j` of a row played backwards.
pub open spec fn run_back(rows: Seq<Seq<bool>>, j: int) -> Seq<bool> {
    if j <= 0 {
        sync_reverse()
    } else {
        back_run(rows[j - 1])
    }
}

/// The bits of a row played backwards up to the end of run `j`: those of
/// the first `j` frames and the sync word of the next.
pub open spec fn heard_back(rows: Seq<Seq<bool>>, j: int) -> Seq<bool> {
    joined_back(rows.take(j)) + sync_reverse()
}

/// The bits of a row played backwards grow by one run with each frame.
proof fn lemma_heard_back_grows(rows: Seq<Seq<bool>>, j: int)
    requires
        1 <= j <= rows.len(),
        back_run(rows[j - 1]).len() == 80,
        rows[j - 1].reverse() == sync_reverse() + back_run(rows[j - 1]).take(64),
    ensures
        heard_back(rows, j) == heard_back(rows, j - 1) + run_back(rows, j),
        joined_back(rows.take(j)) == heard_back(rows, j - 1) + run_back(rows, j).take(64),
{
    let u = back_run(rows[j - 1]);
    assert(rows.take(j).drop_last() =~= rows.take(j - 1));
    assert(rows.take(j).last() == rows[j - 1]);
    assert(u =~= u.take(64) + sync_reverse());
    assert(heard_back(rows, j) =~= heard_back(rows, j - 1) + u);
    assert(joined_back(rows.take(j)) =~= heard_back(rows, j - 1) + u.take(64));
}

/// What a decoder has behind it before a run is what it had before the
/// run before that, and that run.
proof fn lemma_past_back_grows(rows: Seq<Seq<bool>>, j: int)
    requires
        1 <= j <= rows.len(),
        j >= 2 ==> back_run(rows[j - 2]).len() == 80 && turned_round(back_run(rows[j - 2]))
            == rows[j - 2],
    ensures
        past_back(rows, j) == past_back(rows, j - 1).after_run(run_back(rows, j - 1), true),
{
    if j == 1 {
        assert(rows.take(0) =~= Seq::<Seq<bool>>::empty());
        assert(bytes_of_row(rows.take(0)) =~= Seq::<Seq<u8>>::empty());
        assert(past_back(rows, 1).frames =~= Past::none().after_run(
            sync_reverse(),
            true,
        ).frames);
    } else {
        let e = rows[j - 2];
        assert(rows.take(j - 1).drop_last() =~= rows.take(j - 2));
        assert(bytes_of_row(rows.take(j - 1)) =~= bytes_of_row(rows.take(j - 2)).push(
            frame_bytes(e),
        ));
    }
}

/// The runs of a row played backwards follow one another.
pub proof fn lemma_runs_follow(rows: Seq<Seq<bool>>, j: int)
    requires
        clean_back_row(rows),
        1 <= j <= rows.len(),
    ensures
        heard_back(rows, j) == heard_back(rows, j - 1) + run_back(rows, j),
        joined_back(rows.take(j)) == heard_back(rows, j - 1) + run_back(rows, j).take(64),
        ends_after(past_back(rows, j).recent, run_back(rows, j), true),
        ends_after(past_back(rows, j - 1).recent, run_back(rows, j - 1), true),
        past_back(rows, j) == past_back(rows, j - 1).after_run(run_back(rows, j - 1), true),
        run_back(rows, j).len() == 80,
        1 <= run_back(rows, j - 1).len() <= 80,
{
    lemma_back_run_ends(rows[j - 1]);
    lemma_heard_back_grows(rows, j);
    if j == 1 {
        lemma_lead_ends();
        lemma_sync_turned();
    } else {
        lemma_back_run_ends(rows[j - 2]);
    }
    lemma_past_back_grows(rows, j);
}

impl DecoderView {
    /// A decoder that hears a row of frames played backwards, with square
    /// edges and from the beginning, up to the end of run `j`, has heard
    /// all bits of the run and holds the frames before it in its queue,
    /// marked as played backwards.
    pub proof fn lemma_hears_row_back(
        self,
        pen: Pen,
        s: Stroke,
        rows: Seq<Seq<bool>>,
        j: int,
        pos: int,
    )
        requires
            square(s),
            0 <= pen.rem < s.unit,
            pen.wave.len() == 0,
            clean_back_row(rows),
            self.unheard(s.beat()),
            0 <= j <= rows.len() <= self.capacity,
        ensures
            self.fed(pen.bits(s, heard_back(rows, j)).wave, pos).heard(
                s.beat(),
                s.low,
                s.high,
                past_back(rows, j),
                run_back(rows, j),
                run_back(rows, j).len() as int,
            ),
            self.fed(pen.bits(s, heard_back(rows, j)).wave, pos).low == (s.target(
                pen.bits(s, heard_back(rows, j)).level,
            ) == s.low),
            0 <= pen.bits(s, heard_back(rows, j)).rem < s.unit,
            self.fed(pen.bits(s, heard_back(rows, j)).wave, pos).capacity == self.capacity,
        decreases j,
    {
        let bits = run_back(rows, j);
        if j == 0 {
            lemma_lead_ends();
            assert(rows.take(0) =~= Seq::<Seq<bool>>::empty());
            assert(heard_back(rows, 0) =~= bits);
            assert(bits.take(16) =~= bits);
            self.lemma_hears_bits(pen, s, Past::none(), None, bits, 16, pos, None);
            self.lemma_fed_keeps(pen.bits(s, bits).wave, pos);
        } else {
            self.lemma_hears_row_back(pen, s, rows, j - 1, pos);
            lemma_runs_follow(rows, j);
            let before = heard_back(rows, j - 1);
            assert(bits.take(80) =~= bits);
            pen.lemma_bits_joined(s, before, bits);
            let pen_p = pen.bits(s, before);
            let d_p = self.fed(pen_p.wave, pos);
            let base = Pen { wave: Seq::empty(), ..pen_p };
            base.lemma_bits_rebased(s, bits, pen_p.wave);
            assert(pen_p.wave + base.wave =~= pen_p.wave);
            assert(pen_p.bits(s, bits).wave == pen_p.wave + base.bits(s, bits).wave);
            self.lemma_fed_joined(pen_p.wave, base.bits(s, bits).wave, pos);
            d_p.lemma_hears_bits(
                base,
                s,
                past_back(rows, j),
                Some((past_back(rows, j - 1), run_back(rows, j - 1), true)),
                bits,
                80,
                pos + pen_p.wave.len(),
                None,
            );
            d_p.lemma_fed_keeps(base.bits(s, bits).wave, pos + pen_p.wave.len());
        }
    }

    /// A decoder that hears a row of frames played backwards, with square
    /// edges and from the beginning, and the closing edge with half a cell
    /// after it, has decoded all frames but the last: its queue holds them
    /// in the order in which they arrived, each with the bytes of the
    /// frame, marked as played backwards.
    ///
    /// The queue takes the row, and each frame of the row ends with the
    /// sync word and holds it nowhere else when it follows a sync word.
    pub proof fn lemma_hears_stream_back(
        self,
        pen: Pen,
        s: Stroke,
        rows: Seq<Seq<bool>>,
        pos: int,
    )
        requires
            square(s),
            0 <= pen.rem < s.unit,
            pen.wave.len() == 0,
            clean_back_row(rows),
            self.unheard(s.beat()),
            1 <= rows.len() <= self.capacity,
        ensures
            self.fed(pen.bits(s, joined_back(rows)).pulse(s, s.ticks).wave, pos).carries(
                bytes_of_row(rows.drop_last()),
                true,
            ),
    {
        let n = rows.len() as int;
        let beat = s.beat();
        self.lemma_hears_row_back(pen, s, rows, n - 1, pos);
        lemma_runs_follow(rows, n);
        assert(rows.take(n) =~= rows);
        assert(rows.take(n - 1) =~= rows.drop_last());
        let before = heard_back(rows, n - 1);
        let bits = run_back(rows, n);
        let past = past_back(rows, n);
        pen.lemma_bits_joined(s, before, bits.take(64));
        let pen_p = pen.bits(s, before);
        let d_p = self.fed(pen_p.wave, pos);
        let base = Pen { wave: Seq::empty(), ..pen_p };
        base.lemma_bits_rebased(s, bits.take(64), pen_p.wave);
        assert(pen_p.wave + base.wave =~= pen_p.wave);
        assert(pen_p.bits(s, bits.take(64)).wave == pen_p.wave + base.bits(s, bits.take(64)).wave);
        self.lemma_fed_joined(pen_p.wave, base.bits(s, bits.take(64)).wave, pos);
        d_p.lemma_hears_bits(
            base,
            s,
            past,
            Some((past_back(rows, n - 1), run_back(rows, n - 1), true)),
            bits,
            64,
            pos + pen_p.wave.len(),
            None,
        );
        let pen_a = pen.bits(s, joined_back(rows));
        assert(pen_a == pen_p.bits(s, bits.take(64)));
        let d_a = self.fed(pen_a.wave, pos);
        lemma_square_pulse(pen_a, s, s.ticks);
        let k = (pen_a.rem + s.ticks) / s.unit;
        let v = s.target(!pen_a.level);
        self.lemma_fed_joined(pen_a.wave, run(v, k), pos);
        d_a.lemma_first_pulse(
            beat,
            s.low,
            s.high,
            past,
            None,
            bits,
            64,
            v,
            k,
            pos + pen_a.wave.len(),
            None,
        );
    }
}

impl EncoderView {
    /// The encoder after the frames `frames` were encoded backwards one
    /// after the other: each was set as the frame of the encoder and
    /// encoded with `encode_reversed_frame`, and the buffer was emptied
    /// after each.
    pub open spec fn after_frames_back(self, frames: Seq<Seq<u8>>) -> EncoderView
        decreases frames.len(),
    {
        if frames.len() == 0 {
            self
        } else {
            EncoderView {
                samples: Seq::empty(),
                ..(EncoderView {
                    frame: frames.last(),
                    ..self.after_frames_back(frames.drop_last())
                }).after_bytes_reversed(10)
            }
        }
    }

    /// The samples that were taken out of the buffer while the frames
    /// `frames` were encoded backwards one after the other.
    pub open spec fn sent_back(self, frames: Seq<Seq<u8>>) -> Seq<u8>
        decreases frames.len(),
    {
        if frames.len() == 0 {
            Seq::empty()
        } else {
            self.sent_back(frames.drop_last()) + (EncoderView {
                frame: frames.last(),
                ..self.after_frames_back(frames.drop_last())
            }).after_bytes_reversed(10).samples
        }
    }

    /// The samples of a row of frames encoded backwards, followed by what
    /// closing the signal hands out.
    pub open spec fn closed_signal_back(self, frames: Seq<Seq<u8>>) -> Seq<u8> {
        self.sent_back(frames) + self.after_frames_back(frames).closed_samples()
    }

    /// Frames encoded backwards one after the other from an empty buffer
    /// that takes a frame are one run of bit cells: every frame is encoded
    /// whole, and the samples taken out are the cells of all frames, each
    /// from its last bit to its first.
    pub proof fn lemma_frames_back_are_one_run(self, frames: Seq<Seq<u8>>)
        requires
            self.ready_for_frame(),
            forall|i: int| 0 <= i < frames.len() ==> (#[trigger] frames[i]).len() == 10,
        ensures
            self.sent_back(frames) == self.pen().bits(
                self.stroke(NOMINAL_SPEED as int),
                joined_back(EncoderView::bits_of_frames(frames)),
            ).wave,
            self.after_frames_back(frames).pen() == (Pen {
                wave: Seq::empty(),
                ..self.pen().bits(
                    self.stroke(NOMINAL_SPEED as int),
                    joined_back(EncoderView::bits_of_frames(frames)),
                )
            }),
            self.after_frames_back(frames) == (EncoderView {
                frame: self.after_frames_back(frames).frame,
                level: self.after_frames_back(frames).level,
                rem: self.after_frames_back(frames).rem,
                pending: self.after_frames_back(frames).pending,
                ..self
            }),
            self.after_frames_back(frames).ready_for_frame(),
            frames.len() > 0 ==> self.after_frames_back(frames).pending,
        decreases frames.len(),
    {
        let s = self.stroke(NOMINAL_SPEED as int);
        let rows = EncoderView::bits_of_frames(frames);
        if frames.len() == 0 {
            assert(joined_back(rows) =~= Seq::<bool>::empty());
            assert(self.pen().wave =~= Seq::<u8>::empty());
        } else {
            let head = frames.drop_last();
            let f = frames.last();
            self.lemma_frames_back_are_one_run(head);
            let before = self.after_frames_back(head);
            let e = EncoderView { frame: f, ..before };
            assert(e.ready_for_frame());
            e.lemma_reversed_frame_fits();
            let bits = frame_bits(f).reverse();
            e.lemma_run_is_short(bits);
            e.pen().lemma_bits_keep_time(s, bits);
            let head_rows = EncoderView::bits_of_frames(head);
            assert(rows.drop_last() =~= head_rows);
            assert(rows.last() == frame_bits(f));
            let p = self.pen().bits(s, joined_back(head_rows));
            self.pen().lemma_bits_joined(s, joined_back(head_rows), bits);
            let base = e.pen();
            assert(e.stroke(NOMINAL_SPEED as int) == s);
            base.lemma_bits_rebased(s, bits, p.wave);
            assert(p.wave + base.wave =~= p.wave);
            assert((Pen { wave: p.wave + base.wave, ..base }) == p);
        }
    }

    /// A row of frames encoded backwards, closed and handed out, is
    /// decoded as that row but for its last frame, marked as played
    /// backwards.
    ///
    /// The encoder has an empty buffer that takes a frame at its rates, and
    /// a signal with square edges and ten samples or more to the bit cell.
    /// Each frame ends with the sync word and holds it nowhere else when
    /// it follows a sync word. The decoder is new, has a queue that takes
    /// the row, and was told a frame length `apv` that is no more than a
    /// tenth away from the samples of a frame. Then the samples of the
    /// frames, taken out of the buffer after each `encode_reversed_frame`
    /// and followed by what closing the signal hands out, leave the frames
    /// in the queue of the decoder, all but the last: in the order in
    /// which they were sent, byte for byte, each marked as played
    /// backwards. The last frame is not known before the sync word of
    /// another has passed.
    pub proof fn lemma_reversed_frames_are_decoded(
        self,
        frames: Seq<Seq<u8>>,
        apv: int,
        capacity: int,
        pos: int,
    )
        requires
            self.ready_for_frame(),
            self.sends_square(),
            forall|i: int| 0 <= i < frames.len() ==> (#[trigger] frames[i]).len() == 10,
            clean_back_row(EncoderView::bits_of_frames(frames)),
            1 <= frames.len() <= capacity <= i32::MAX,
            9 * frame_samples(self.sample_rate, self.fps_num, self.fps_den) <= 10 * apv,
            10 * apv <= 11 * frame_samples(self.sample_rate, self.fps_num, self.fps_den),
        ensures
            DecoderView::fresh(apv, capacity).fed(self.closed_signal_back(frames), pos).carries(
                frames.drop_last(),
                true,
            ),
    {
        let s = self.stroke(NOMINAL_SPEED as int);
        let rows = EncoderView::bits_of_frames(frames);
        let d = DecoderView::fresh(apv, capacity);
        self.lemma_frames_back_are_one_run(frames);
        self.lemma_square_signal();
        self.lemma_fresh_decoder_is_in_lock(apv, capacity);
        let last = self.after_frames_back(frames);
        let pen = self.pen().bits(s, joined_back(rows));
        assert(last.stroke(NOMINAL_SPEED as int) == s);
        assert(last.sends_square());
        let base = last.pen();
        lemma_square_pulse(base, s, s.ticks);
        lemma_square_pulse(pen, s, s.ticks);
        last.lemma_tail_is_short();
        assert(last.closed_samples() == base.pulse(s, s.ticks).wave);
        assert(pen.pulse(s, s.ticks).wave =~= self.closed_signal_back(frames));
        assert(self.pen().wave =~= Seq::<u8>::empty());
        d.lemma_hears_stream_back(self.pen(), s, rows, pos);
        assert(rows.drop_last() =~= EncoderView::bits_of_frames(frames.drop_last()));
        assert(bytes_of_row(rows.drop_last()) =~= frames.drop_last()) by {
            assert forall|i: int| 0 <= i < frames.len() - 1 implies #[trigger] bytes_of_row(
                rows.drop_last(),
            )[i] == frames.drop_last()[i] by {
                lemma_frame_of_its_bits(frames[i]);
            }
        }
    }

    /// A row of frames that show times of day, encoded backwards, closed
    /// and handed out, is decoded as that row but for its last frame,
    /// whatever the user bits and flags of the frames are.
    ///
    /// The encoder and the decoder are as in
    /// `lemma_reversed_frames_are_decoded`. The digits of every frame are
    /// short: it shows a time of day at thirty frames per second or less.
    pub proof fn lemma_reversed_times_are_decoded(
        self,
        frames: Seq<Seq<u8>>,
        apv: int,
        capacity: int,
        pos: int,
    )
        requires
            self.ready_for_frame(),
            self.sends_square(),
            forall|i: int|
                0 <= i < frames.len() ==> (#[trigger] frames[i]).len() == 10 && fields_of(
                    frames[i],
                ).digits_are_short(),
            1 <= frames.len() <= capacity <= i32::MAX,
            9 * frame_samples(self.sample_rate, self.fps_num, self.fps_den) <= 10 * apv,
            10 * apv <= 11 * frame_samples(self.sample_rate, self.fps_num, self.fps_den),
        ensures
            DecoderView::fresh(apv, capacity).fed(self.closed_signal_back(frames), pos).carries(
                frames.drop_last(),
                true,
            ),
    {
        let rows = EncoderView::bits_of_frames(frames);
        assert forall|j: int| 0 <= j < rows.len() implies clean_after(
            sync_forward(),
            #[trigger] rows[j],
        ) by {
            lemma_bytes_of_fields_of(frames[j]);
            fields_of(frames[j]).lemma_short_digits_break_runs();
        }
        self.lemma_reversed_frames_are_decoded(frames, apv, capacity, pos);
    }
}

} // verus!
