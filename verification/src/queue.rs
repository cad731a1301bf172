//! Decoded frames and the queue in which they wait to be read.

use crate::frame::LTCFrame;
use std::collections::VecDeque;
use vstd::prelude::*;

verus! {

/// A decoded frame together with where in the stream it was found and how
/// the signal looked.
#[derive(Debug, Clone, Copy, PartialEq, Eq)]
pub struct LTCFrameExt {
    /// The frame itself.
    pub ltc: LTCFrame,
    /// Position of the first sample of the frame.
    pub off_start: i64,
    /// Position of the last sample of the frame.
    pub off_end: i64,
    /// The frame was played backwards.
    pub reverse: bool,
    /// The length of each of the eighty bit cells as the decoder estimated
    /// it, in 256ths of a sample, first cell first.
    pub biphase_tics: [u32; 80],
    /// Lowest sample level of the envelope when the frame was completed.
    pub sample_min: u8,
    /// Highest sample level of the envelope when the frame was completed.
    pub sample_max: u8,
    /// Span of the envelope, `sample_max - sample_min`, or zero where the
    /// envelope is empty: the level of the signal on a scale of 255.
    pub volume: u8,
}

/// A decoded frame as plain values.
pub ghost struct FrameRecord {
    pub ltc: Seq<u8>,
    pub off_start: int,
    pub off_end: int,
    pub reverse: bool,
    pub biphase_tics: Seq<u32>,
    pub sample_min: u8,
    pub sample_max: u8,
    pub volume: u8,
}

impl View for LTCFrameExt {
    type V = FrameRecord;

    open spec fn view(&self) -> FrameRecord {
        FrameRecord {
            ltc: self.ltc@,
            off_start: self.off_start as int,
            off_end: self.off_end as int,
            reverse: self.reverse,
            biphase_tics: self.biphase_tics@,
            sample_min: self.sample_min,
            sample_max: self.sample_max,
            volume: self.volume,
        }
    }
}

impl LTCFrameExt {
    /// The frame itself.
    pub fn ltc(self) -> (r: LTCFrame)
        ensures
            r == self.ltc,
    {
        self.ltc
    }

    /// Position of the first sample of the frame.
    pub fn off_start(&self) -> (r: i64)
        ensures
            r == self.off_start,
    {
        self.off_start
    }

    /// Sets the position of the first sample of the frame.
    pub fn set_off_start(&mut self, off_start: i64)
        ensures
            *final(self) == (LTCFrameExt { off_start, ..*old(self) }),
    {
        self.off_start = off_start;
    }

    /// Position of the last sample of the frame.
    pub fn off_end(&self) -> (r: i64)
        ensures
            r == self.off_end,
    {
        self.off_end
    }

    /// Sets the position of the last sample of the frame.
    pub fn set_off_end(&mut self, off_end: i64)
        ensures
            *final(self) == (LTCFrameExt { off_end, ..*old(self) }),
    {
        self.off_end = off_end;
    }

    /// Tells whether the frame was played backwards.
    pub fn reverse(&self) -> (r: bool)
        ensures
            r == self.reverse,
    {
        self.reverse
    }

    /// Marks the frame as played backwards, or not.
    pub fn set_reverse(&mut self, reverse: bool)
        ensures
            *final(self) == (LTCFrameExt { reverse, ..*old(self) }),
    {
        self.reverse = reverse;
    }

    /// The estimated lengths of the eighty bit cells, in 256ths of a sample.
    pub fn biphase_tics(&self) -> (r: [u32; 80])
        ensures
            r == self.biphase_tics,
    {
        self.biphase_tics
    }

    /// Sets the lengths of the eighty bit cells.
    pub fn set_biphase_tics(&mut self, biphase_tics: [u32; 80])
        ensures
            *final(self) == (LTCFrameExt { biphase_tics, ..*old(self) }),
    {
        self.biphase_tics = biphase_tics;
    }

    /// Lowest sample level of the envelope.
    pub fn sample_min(&self) -> (r: u8)
        ensures
            r == self.sample_min,
    {
        self.sample_min
    }

    /// Sets the lowest sample level of the envelope.
    pub fn set_sample_min(&mut self, sample_min: u8)
        ensures
            *final(self) == (LTCFrameExt { sample_min, ..*old(self) }),
    {
        self.sample_min = sample_min;
    }

    /// Highest sample level of the envelope.
    pub fn sample_max(&self) -> (r: u8)
        ensures
            r == self.sample_max,
    {
        self.sample_max
    }

    /// Sets the highest sample level of the envelope.
    pub fn set_sample_max(&mut self, sample_max: u8)
        ensures
            *final(self) == (LTCFrameExt { sample_max, ..*old(self) }),
    {
        self.sample_max = sample_max;
    }

    /// The level of the signal on a scale of 255: the span of the envelope.
    pub fn volume(&self) -> (r: u8)
        ensures
            r == self.volume,
    {
        self.volume
    }

    /// Sets the level of the signal.
    pub fn set_volume(&mut self, volume: u8)
        ensures
            *final(self) == (LTCFrameExt { volume, ..*old(self) }),
    {
        self.volume = volume;
    }
}

impl Default for LTCFrameExt {
    fn default() -> (r: Self)
        ensures
            r.ltc@ == seq![0u8, 0u8, 0u8, 0u8, 0u8, 0u8, 0u8, 0u8, 0xFCu8, 0xBFu8],
            r.off_start == 0,
            r.off_end == 0,
            !r.reverse,
            r.sample_min == 0,
            r.sample_max == 0,
            r.volume == 0,
            forall|i: int| 0 <= i < 80 ==> r.biphase_tics@[i] == 0,
    {
        LTCFrameExt {
            ltc: LTCFrame::new(),
            off_start: 0,
            off_end: 0,
            reverse: false,
            biphase_tics: [0u32;80],
            sample_min: 0,
            sample_max: 0,
            volume: 0,
        }
    }
}

/// The last `n` items of `s`, in their order; all of `s` if it has no more.
pub open spec fn keep_last<T>(s: Seq<T>, n: int) -> Seq<T> {
    if s.len() <= n {
        s
    } else if n <= 0 {
        Seq::empty()
    } else {
        s.skip(s.len() - n)
    }
}

/// What a queue of capacity `cap` holds after `items` were pushed onto it one
/// by one.
pub open spec fn push_each<T>(q: Seq<T>, cap: int, items: Seq<T>) -> Seq<T>
    decreases items.len(),
{
    if items.len() == 0 {
        q
    } else {
        push_each(keep_last(q.push(items[0]), cap), cap, items.skip(1))
    }
}

/// Pushing more items than the queue can hold keeps the most recent ones:
/// after any run of pushes the queue holds the last `cap` items of what it
/// held before followed by what was pushed, oldest first.
pub proof fn lemma_push_each_keeps_last<T>(q: Seq<T>, cap: int, items: Seq<T>)
    requires
        cap >= 1,
        q.len() <= cap,
    ensures
        push_each(q, cap, items) == keep_last(q + items, cap),
        push_each(q, cap, items).len() <= cap,
    decreases items.len(),
{
    if items.len() == 0 {
        assert(q + items =~= q);
    } else {
        let q1 = keep_last(q.push(items[0]), cap);
        let rest = items.skip(1);
        lemma_push_each_keeps_last(q1, cap, rest);
        assert(keep_last(q1 + rest, cap) =~= keep_last(q + items, cap));
    }
}

/// A first-in first-out store of decoded frames that never holds more than
/// its capacity: a push onto a full queue drops the oldest frame.
pub struct FrameQueue {
    frames: VecDeque<LTCFrameExt>,
    capacity: usize,
}

impl View for FrameQueue {
    type V = Seq<LTCFrameExt>;

    closed spec fn view(&self) -> Seq<LTCFrameExt> {
        self.frames@
    }
}

impl FrameQueue {
    /// The most frames that the queue holds.
    pub closed spec fn cap(&self) -> int {
        self.capacity as int
    }

    /// The queue holds no more than its capacity, which is at least one.
    pub closed spec fn wf(&self) -> bool {
        1 <= self.capacity && self.frames@.len() <= self.capacity
    }

    /// A queue that is in a state that its operations keep holds no more
    /// than its capacity, which is at least one.
    pub proof fn lemma_wf(&self)
        requires
            self.wf(),
        ensures
            1 <= self.cap() <= usize::MAX,
            self@.len() <= self.cap(),
    {
    }

    /// An empty queue of the given capacity; none for a capacity of zero.
    pub fn new(capacity: usize) -> (r: Option<FrameQueue>)
        ensures
            r.is_some() <==> capacity >= 1,
            r.is_some() ==> r.unwrap().wf() && r.unwrap().cap() == capacity && r.unwrap()@
                == Seq::<LTCFrameExt>::empty(),
    {
        if capacity == 0 {
            None
        } else {
            Some(FrameQueue { frames: VecDeque::new(), capacity })
        }
    }

    /// Adds a frame as the newest. When the queue is full the oldest frame
    /// is dropped to make room; the result tells whether one was dropped.
    pub fn push(&mut self, frame: LTCFrameExt) -> (dropped: bool)
        requires
            old(self).wf(),
        ensures
            final(self).wf(),
            final(self).cap() == old(self).cap(),
            final(self)@ == keep_last(old(self)@.push(frame), old(self).cap()),
            dropped == (old(self)@.len() == old(self).cap()),
            final(self)@.len() >= 1,
            final(self)@.last() == frame,
    {
        let full: bool = self.frames.len() >= self.capacity;
        if full {
            let _ = self.frames.pop_front();
        }
        self.frames.push_back(frame);
        assert(self.frames@ =~= keep_last(old(self).frames@.push(frame), self.capacity as int));
        full
    }

    /// Takes the oldest frame out, if there is one.
    pub fn pop(&mut self) -> (r: Option<LTCFrameExt>)
        requires
            old(self).wf(),
        ensures
            final(self).wf(),
            final(self).cap() == old(self).cap(),
            old(self)@.len() == 0 ==> r.is_none() && final(self)@ == old(self)@,
            old(self)@.len() > 0 ==> r == Some(old(self)@[0]) && final(self)@ == old(self)@.skip(
                1,
            ),
    {
        let r = self.frames.pop_front();
        assert(old(self).frames@.len() > 0 ==> self.frames@ =~= old(self).frames@.skip(1));
        r
    }

    /// Drops every frame.
    pub fn flush(&mut self)
        requires
            old(self).wf(),
        ensures
            final(self).wf(),
            final(self).cap() == old(self).cap(),
            final(self)@ == Seq::<LTCFrameExt>::empty(),
    {
        self.frames.clear();
    }

    /// Number of frames waiting.
    pub fn len(&self) -> (r: usize)
        requires
            self.wf(),
        ensures
            r == self@.len(),
            r <= self.cap(),
    {
        self.frames.len()
    }

    /// Tells whether no frame is waiting.
    pub fn is_empty(&self) -> (r: bool)
        requires
            self.wf(),
        ensures
            r == (self@.len() == 0),
    {
        self.frames.len() == 0
    }

    /// The most frames that the queue holds.
    pub fn capacity(&self) -> (r: usize)
        requires
            self.wf(),
        ensures
            r == self.cap(),
            r >= 1,
    {
        self.capacity
    }
}

} // verus!
