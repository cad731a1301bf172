//! The waveform of biphase-mark code: pulses, bit cells and runs of bits.
//!
//! Time is counted in ticks. A sample lasts `unit` ticks and half a bit cell
//! lasts `ticks` ticks, so that neither needs a fraction. A pulse is a run of
//! samples on one level; its length is the number of whole samples that
//! have become due, and what is left over is carried to the next pulse.

use vstd::prelude::*;

verus! {

/// The level of silence, half way between the lowest and the highest sample.
pub const SAMPLE_CENTER: u8 = 128;

/// The shaping coefficient that stands for one: the level reaches its
/// target in a single step.
pub const FILTER_ONE: u32 = 65536;

/// How pulses are drawn: the clock and the two levels.
pub ghost struct Stroke {
    /// Ticks in a sample.
    pub unit: int,
    /// Ticks in half a bit cell.
    pub ticks: int,
    /// The sample value of the low level.
    pub low: u8,
    /// The sample value of the high level.
    pub high: u8,
    /// Edge shaping coefficient in 65536ths; zero for square edges.
    pub filter: int,
    /// The levels are swapped.
    pub inverted: bool,
}

/// Where the drawing stands: the level of the last pulse, the ticks not
/// yet drawn, and the samples drawn so far.
pub ghost struct Pen {
    pub level: bool,
    pub rem: int,
    pub wave: Seq<u8>,
}

/// The level one shaping step on from `val` towards `target`.
pub open spec fn shaped_step(val: int, target: int, filter: int) -> int {
    (val * 65536 + filter * (target - val)) / 65536
}

/// The level after `i + 1` shaping steps from the centre towards `target`.
pub open spec fn shaped_level(i: nat, target: int, filter: int) -> int
    decreases i,
{
    if i == 0 {
        shaped_step(128, target, filter)
    } else {
        shaped_step(shaped_level((i - 1) as nat, target, filter), target, filter)
    }
}

/// Sample `j` of a pulse of `n` samples: the target level, or with shaping
/// a ramp from the centre that rises over the first half of the pulse and
/// falls back, mirrored, over the second.
pub open spec fn pulse_sample(j: int, n: int, target: u8, filter: int) -> u8 {
    if filter == 0 {
        target
    } else if j <= n - 1 - j {
        shaped_level(j as nat, target as int, filter) as u8
    } else {
        shaped_level((n - 1 - j) as nat, target as int, filter) as u8
    }
}

/// The samples of a pulse of `n` samples.
pub open spec fn pulse(n: int, target: u8, filter: int) -> Seq<u8> {
    Seq::new(n as nat, |j: int| pulse_sample(j, n, target, filter))
}

/// The eight bits of a byte in the order in which they are sent: lowest
/// first, or highest first when played backwards.
pub open spec fn byte_bits(b: u8, backwards: bool) -> Seq<bool> {
    Seq::new(
        8,
        |k: int|
            if backwards {
                bit_of(b, 7 - k)
            } else {
                bit_of(b, k)
            },
    )
}

/// Bit `k` of a byte.
pub open spec fn bit_of(b: u8, k: int) -> bool {
    if k == 0 {
        b % 2 == 1
    } else if k == 1 {
        (b / 2) % 2 == 1
    } else if k == 2 {
        (b / 4) % 2 == 1
    } else if k == 3 {
        (b / 8) % 2 == 1
    } else if k == 4 {
        (b / 16) % 2 == 1
    } else if k == 5 {
        (b / 32) % 2 == 1
    } else if k == 6 {
        (b / 64) % 2 == 1
    } else {
        (b / 128) % 2 == 1
    }
}

impl Stroke {
    /// The clock runs and the shaping coefficient is at most one.
    pub open spec fn wf(self) -> bool {
        &&& self.unit >= 1
        &&& self.ticks >= 0
        &&& 0 <= self.filter <= 65536
    }

    /// The sample value of a level.
    pub open spec fn target(self, level: bool) -> u8 {
        if level != self.inverted {
            self.high
        } else {
            self.low
        }
    }
}

impl Pen {
    /// The pen after one more pulse of `ticks` ticks: the level changes,
    /// the whole samples that are due are drawn on the new level, and the
    /// rest is carried.
    pub open spec fn pulse(self, s: Stroke, ticks: int) -> Pen {
        let level = !self.level;
        Pen {
            level,
            rem: (self.rem + ticks) % s.unit,
            wave: self.wave + pulse((self.rem + ticks) / s.unit, s.target(level), s.filter),
        }
    }

    /// The pen after one bit cell. Every cell begins with a change of
    /// level; a one changes level once more in the middle of the cell.
    pub open spec fn bit(self, s: Stroke, b: bool) -> Pen {
        if b {
            self.pulse(s, s.ticks).pulse(s, s.ticks)
        } else {
            self.pulse(s, 2 * s.ticks)
        }
    }

    /// The pen after a run of bit cells.
    pub open spec fn bits(self, s: Stroke, bits: Seq<bool>) -> Pen
        decreases bits.len(),
    {
        if bits.len() == 0 {
            self
        } else {
            self.bits(s, bits.drop_last()).bit(s, bits.last())
        }
    }

    /// Drawing only adds samples, and the samples drawn before stay.
    pub proof fn lemma_bits_grow(self, s: Stroke, bits: Seq<bool>)
        requires
            s.wf(),
            0 <= self.rem,
        ensures
            self.bits(s, bits).wave.len() >= self.wave.len(),
            self.bits(s, bits).wave.subrange(0, self.wave.len() as int) == self.wave,
            0 <= self.bits(s, bits).rem,
            self.bits(s, bits).rem < s.unit || bits.len() == 0,
        decreases bits.len(),
    {
        if bits.len() > 0 {
            self.lemma_bits_grow(s, bits.drop_last());
            let p = self.bits(s, bits.drop_last());
            let q = p.bit(s, bits.last());
            assert(q.wave.subrange(0, self.wave.len() as int) =~= p.wave.subrange(
                0,
                self.wave.len() as int,
            ));
        }
    }

    /// The time that the pen has covered, in ticks: the samples drawn and
    /// the ticks carried.
    pub open spec fn covered(self, s: Stroke) -> int {
        self.wave.len() * s.unit + self.rem
    }

    /// A pulse covers exactly its ticks: no time is lost or gained by
    /// drawing whole samples only.
    pub proof fn lemma_pulse_keeps_time(self, s: Stroke, ticks: int)
        requires
            s.unit >= 1,
            0 <= self.rem,
            0 <= ticks,
        ensures
            self.pulse(s, ticks).covered(s) == self.covered(s) + ticks,
            0 <= self.pulse(s, ticks).rem < s.unit,
    {
        let total = self.rem + ticks;
        let n = total / s.unit;
        let r = total % s.unit;
        assert(n * s.unit + r == total && 0 <= r < s.unit && 0 <= n) by (nonlinear_arith)
            requires
                n == total / s.unit,
                r == total % s.unit,
                s.unit >= 1,
                total >= 0,
        ;
        assert(self.pulse(s, ticks).wave.len() == self.wave.len() + n);
        assert((self.wave.len() + n) * s.unit == self.wave.len() * s.unit + n * s.unit)
            by (nonlinear_arith);
    }

    /// A run of bit cells covers two half cells for each bit, whatever the
    /// bits are.
    pub proof fn lemma_bits_keep_time(self, s: Stroke, bits: Seq<bool>)
        requires
            s.wf(),
            0 <= self.rem,
        ensures
            self.bits(s, bits).covered(s) == self.covered(s) + 2 * s.ticks * bits.len(),
            0 <= self.bits(s, bits).rem,
            bits.len() > 0 ==> self.bits(s, bits).rem < s.unit,
        decreases bits.len(),
    {
        if bits.len() > 0 {
            let p = self.bits(s, bits.drop_last());
            self.lemma_bits_keep_time(s, bits.drop_last());
            if bits.last() {
                p.lemma_pulse_keeps_time(s, s.ticks);
                p.pulse(s, s.ticks).lemma_pulse_keeps_time(s, s.ticks);
            } else {
                p.lemma_pulse_keeps_time(s, 2 * s.ticks);
            }
            assert(2 * s.ticks * bits.len() == 2 * s.ticks * bits.drop_last().len() + 2 * s.ticks)
                by (nonlinear_arith)
                requires
                    bits.len() == bits.drop_last().len() + 1,
            ;
        }
    }

    /// Drawing two runs of bits one after the other is drawing them as one
    /// run.
    pub proof fn lemma_bits_joined(self, s: Stroke, a: Seq<bool>, b: Seq<bool>)
        ensures
            self.bits(s, a + b) == self.bits(s, a).bits(s, b),
        decreases b.len(),
    {
        if b.len() == 0 {
            assert(a + b =~= a);
        } else {
            assert((a + b).drop_last() =~= a + b.drop_last());
            assert((a + b).last() == b.last());
            self.lemma_bits_joined(s, a, b.drop_last());
        }
    }

    /// What a run of bits adds to the drawing does not depend on what was
    /// drawn before.
    pub proof fn lemma_bits_rebased(self, s: Stroke, bits: Seq<bool>, before: Seq<u8>)
        ensures
            (Pen { wave: before + self.wave, ..self }).bits(s, bits) == (Pen {
                wave: before + self.bits(s, bits).wave,
                ..self.bits(s, bits)
            }),
        decreases bits.len(),
    {
        if bits.len() > 0 {
            self.lemma_bits_rebased(s, bits.drop_last(), before);
            let p = self.bits(s, bits.drop_last());
            let q = Pen { wave: before + p.wave, ..p };
            if bits.last() {
                let p1 = p.pulse(s, s.ticks);
                let q1 = q.pulse(s, s.ticks);
                assert(q1.wave =~= before + p1.wave);
                assert(q1.pulse(s, s.ticks).wave =~= before + p1.pulse(s, s.ticks).wave);
            } else {
                assert(q.pulse(s, 2 * s.ticks).wave =~= before + p.pulse(s, 2 * s.ticks).wave);
            }
        }
    }

    /// A longer run of bits draws at least as many samples as any of its
    /// beginnings.
    pub proof fn lemma_prefix_is_shorter(self, s: Stroke, bits: Seq<bool>, k: int)
        requires
            s.wf(),
            0 <= self.rem,
            0 <= k <= bits.len(),
        ensures
            self.bits(s, bits.take(k)).wave.len() <= self.bits(s, bits).wave.len(),
        decreases bits.len() - k,
    {
        if k == bits.len() {
            assert(bits.take(k) =~= bits);
        } else {
            self.lemma_prefix_is_shorter(s, bits, k + 1);
            assert(bits.take(k + 1).drop_last() =~= bits.take(k));
            self.lemma_bits_grow(s, bits.take(k));
        }
    }
}

/// Number of bits that are set.
pub open spec fn count_set(bits: Seq<bool>) -> int
    decreases bits.len(),
{
    if bits.len() == 0 {
        0
    } else {
        count_set(bits.drop_last()) + (if bits.last() {
            1int
        } else {
            0
        })
    }
}

/// The set bits of two runs are those of the one and those of the other.
pub proof fn lemma_count_set_joined(a: Seq<bool>, b: Seq<bool>)
    ensures
        count_set(a + b) == count_set(a) + count_set(b),
        0 <= count_set(b) <= b.len(),
    decreases b.len(),
{
    if b.len() == 0 {
        assert(a + b =~= a);
    } else {
        assert((a + b).drop_last() =~= a + b.drop_last());
        assert((a + b).last() == b.last());
        lemma_count_set_joined(a, b.drop_last());
    }
}

impl Pen {
    /// A bit cell changes the level once, and once more if the bit is set:
    /// after a run of bits the level is where it began if the bits and the
    /// set bits among them are an even number together, and on the other
    /// side if not.
    pub proof fn lemma_level_after_bits(self, s: Stroke, bits: Seq<bool>)
        ensures
            self.bits(s, bits).level == (if (bits.len() + count_set(bits)) % 2 == 0 {
                self.level
            } else {
                !self.level
            }),
        decreases bits.len(),
    {
        if bits.len() > 0 {
            self.lemma_level_after_bits(s, bits.drop_last());
        }
    }
}

/// A shaping step ends between where it began and its target.
pub proof fn lemma_shaped_step_between(val: int, target: int, filter: int)
    requires
        0 <= filter <= 65536,
    ensures
        val <= target ==> val <= shaped_step(val, target, filter) <= target,
        target <= val ==> target <= shaped_step(val, target, filter) <= val,
{
    let d = target - val;
    let num = val * 65536 + filter * d;
    if val <= target {
        assert(0 <= filter * d <= 65536 * d) by (nonlinear_arith)
            requires
                0 <= filter <= 65536,
                0 <= d,
        ;
        assert(val * 65536 <= num <= target * 65536);
    } else {
        assert(65536 * d <= filter * d <= 0) by (nonlinear_arith)
            requires
                0 <= filter <= 65536,
                d <= 0,
        ;
        assert(target * 65536 <= num <= val * 65536);
    }
}

/// A shaped level lies between the centre and its target.
pub proof fn lemma_shaped_level_between(i: nat, target: int, filter: int)
    requires
        0 <= filter <= 65536,
        0 <= target <= 255,
    ensures
        0 <= shaped_level(i, target, filter) <= 255,
        128 <= target ==> 128 <= shaped_level(i, target, filter) <= target,
        target <= 128 ==> target <= shaped_level(i, target, filter) <= 128,
    decreases i,
{
    if i == 0 {
        lemma_shaped_step_between(128, target, filter);
    } else {
        lemma_shaped_level_between((i - 1) as nat, target, filter);
        lemma_shaped_step_between(shaped_level((i - 1) as nat, target, filter), target, filter);
    }
}

/// One shaping step on a sample value.
fn shape_step(val: u8, target: u8, filter: u32) -> (r: u8)
    requires
        filter <= 65536,
    ensures
        r == shaped_step(val as int, target as int, filter as int),
{
    proof {
        lemma_shaped_step_between(val as int, target as int, filter as int);
    }
    if target >= val {
        let d: u32 = (target - val) as u32;
        assert(filter * d <= 65536 * 255) by (nonlinear_arith)
            requires
                filter <= 65536,
                d <= 255,
        ;
        let num: u32 = (val as u32) * 65536 + filter * d;
        (num / 65536) as u8
    } else {
        let d: u32 = (val - target) as u32;
        assert(filter * d <= 65536 * d) by (nonlinear_arith)
            requires
                filter <= 65536,
                0 <= d,
        ;
        assert(filter as int * (target as int - val as int) == -(filter as int * d as int))
            by (nonlinear_arith)
            requires
                d as int == val as int - target as int,
        ;
        let num: u32 = (val as u32) * 65536 - filter * d;
        (num / 65536) as u8
    }
}

/// Appends a pulse of `n` samples to `buf`.
pub fn push_pulse(buf: &mut Vec<u8>, n: usize, target: u8, filter: u32)
    requires
        filter <= 65536,
        old(buf).len() + n <= usize::MAX,
    ensures
        final(buf)@ == old(buf)@ + pulse(n as int, target, filter as int),
{
    let start: usize = buf.len();
    let mut j: usize = 0;
    let mut val: u8 = SAMPLE_CENTER;
    while j < n
        invariant
            j <= n,
            filter <= 65536,
            start == old(buf).len(),
            start + n <= usize::MAX,
            buf@.len() == start + j,
            buf@.subrange(0, start as int) == old(buf)@,
            j == 0 ==> val == 128,
            forall|i: int| 0 <= i < j ==> buf@[start + i] == pulse_sample(i, n as int, target, filter as int),
            filter != 0 && 0 < j && j - 1 <= n - 1 - (j - 1) ==> val == shaped_level(
                (j - 1) as nat,
                target as int,
                filter as int,
            ),
        decreases n - j,
    {
        let ghost before = buf@;
        let sample: u8;
        if filter == 0 {
            sample = target;
        } else if j <= n - 1 - j {
            val = shape_step(val, target, filter);
            proof {
                lemma_shaped_level_between(j as nat, target as int, filter as int);
                assert(val == shaped_level(j as nat, target as int, filter as int));
            }
            sample = val;
        } else {
            let mirror: usize = n - 1 - j;
            sample = buf[start + mirror];
            proof {
                lemma_shaped_level_between(mirror as nat, target as int, filter as int);
                assert(before[start + mirror] == pulse_sample(
                    mirror as int,
                    n as int,
                    target,
                    filter as int,
                ));
            }
        }
        assert(sample == pulse_sample(j as int, n as int, target, filter as int));
        buf.push(sample);
        proof {
            assert(buf@.subrange(0, start as int) =~= before.subrange(0, start as int));
            assert forall|i: int| 0 <= i < j + 1 implies buf@[start + i] == pulse_sample(
                i,
                n as int,
                target,
                filter as int,
            ) by {
                if i < j {
                    assert(buf@[start + i] == before[start + i]);
                }
            }
        }
        j = j + 1;
    }
    proof {
        assert(buf@ =~= old(buf)@ + pulse(n as int, target, filter as int));
    }
}

/// The clock and the levels with which pulses are drawn.
#[derive(Debug, Clone, Copy)]
pub struct Ink {
    /// Ticks in a sample.
    pub unit: u64,
    /// Ticks in half a bit cell.
    pub ticks: u128,
    /// The sample value of the low level.
    pub low: u8,
    /// The sample value of the high level.
    pub high: u8,
    /// Edge shaping coefficient in 65536ths; zero for square edges.
    pub filter: u32,
    /// The levels are swapped.
    pub inverted: bool,
}

/// The level of the last pulse and the ticks not yet drawn.
#[derive(Debug, Clone, Copy)]
pub struct Nib {
    pub level: bool,
    pub rem: u64,
}

/// The most ticks that half a bit cell can last: the product of two 32-bit
/// rates and a 31-bit speed.
pub open spec fn max_ticks() -> int {
    0x8000_0000_0000_0000_0000_0000
}

impl View for Ink {
    type V = Stroke;

    open spec fn view(&self) -> Stroke {
        Stroke {
            unit: self.unit as int,
            ticks: self.ticks as int,
            low: self.low,
            high: self.high,
            filter: self.filter as int,
            inverted: self.inverted,
        }
    }
}

impl Ink {
    /// A sample lasts one tick at least, half a cell no more than the most
    /// ticks, and the shaping coefficient is at most one.
    pub open spec fn wf(self) -> bool {
        &&& self.unit >= 1
        &&& self.ticks <= max_ticks()
        &&& self.filter <= 65536
    }

    fn level_value(&self, level: bool) -> (r: u8)
        ensures
            r == self@.target(level),
    {
        if level != self.inverted {
            self.high
        } else {
            self.low
        }
    }
}

impl Nib {
    /// The pen that stands at this nib after `wave` was drawn.
    pub open spec fn pen(self, wave: Seq<u8>) -> Pen {
        Pen { level: self.level, rem: self.rem as int, wave }
    }

    /// Draws one pulse of `ticks` ticks at the end of `buf`, unless `buf`
    /// would then hold more than `limit` samples.
    pub fn draw_pulse(&mut self, buf: &mut Vec<u8>, ink: &Ink, ticks: u128, limit: usize) -> (ok:
        bool)
        requires
            ink.wf(),
            old(self).rem < ink.unit,
            ticks <= 2 * max_ticks(),
            old(buf).len() <= limit,
        ensures
            ok == (old(self).pen(old(buf)@).pulse(ink@, ticks as int).wave.len() <= limit),
            ok ==> final(self).pen(final(buf)@) == old(self).pen(old(buf)@).pulse(
                ink@,
                ticks as int,
            ),
            !ok ==> *final(self) == *old(self) && final(buf)@ == old(buf)@,
            final(self).rem < ink.unit,
            final(buf).len() <= limit,
    {
        let total: u128 = self.rem as u128 + ticks;
        let n: u128 = total / (ink.unit as u128);
        let r: u128 = total % (ink.unit as u128);
        let room: usize = limit - buf.len();
        if n > room as u128 {
            return false;
        }
        let level: bool = !self.level;
        push_pulse(buf, n as usize, ink.level_value(level), ink.filter);
        self.level = level;
        self.rem = r as u64;
        true
    }

    /// Draws one bit cell at the end of `buf`, unless `buf` would then hold
    /// more than `limit` samples; what is drawn before that is found out
    /// stays in `buf`.
    pub fn draw_bit(&mut self, buf: &mut Vec<u8>, ink: &Ink, b: bool, limit: usize) -> (ok: bool)
        requires
            ink.wf(),
            old(self).rem < ink.unit,
            old(buf).len() <= limit,
        ensures
            ok == (old(self).pen(old(buf)@).bit(ink@, b).wave.len() <= limit),
            ok ==> final(self).pen(final(buf)@) == old(self).pen(old(buf)@).bit(ink@, b),
            final(self).rem < ink.unit,
            old(buf).len() <= final(buf).len() <= limit,
            final(buf)@.subrange(0, old(buf).len() as int) == old(buf)@,
    {
        let ghost start = self.pen(buf@);
        if b {
            if !self.draw_pulse(buf, ink, ink.ticks, limit) {
                assert(buf@.subrange(0, old(buf).len() as int) =~= old(buf)@);
                return false;
            }
            let ok: bool = self.draw_pulse(buf, ink, ink.ticks, limit);
            assert(buf@.subrange(0, old(buf).len() as int) =~= old(buf)@);
            ok
        } else {
            let ok: bool = self.draw_pulse(buf, ink, 2 * ink.ticks, limit);
            assert(buf@.subrange(0, old(buf).len() as int) =~= old(buf)@);
            ok
        }
    }

    /// Draws the eight bit cells of a byte at the end of `buf`, unless
    /// `buf` would then hold more than `limit` samples; what is drawn
    /// before that is found out stays in `buf`.
    pub fn draw_byte(
        &mut self,
        buf: &mut Vec<u8>,
        ink: &Ink,
        byte: u8,
        backwards: bool,
        limit: usize,
    ) -> (ok: bool)
        requires
            ink.wf(),
            old(self).rem < ink.unit,
            old(buf).len() <= limit,
        ensures
            ok == (old(self).pen(old(buf)@).bits(ink@, byte_bits(byte, backwards)).wave.len()
                <= limit),
            ok ==> final(self).pen(final(buf)@) == old(self).pen(old(buf)@).bits(
                ink@,
                byte_bits(byte, backwards),
            ),
            final(self).rem < ink.unit,
            old(buf).len() <= final(buf).len() <= limit,
            final(buf)@.subrange(0, old(buf).len() as int) == old(buf)@,
    {
        let ghost start = self.pen(buf@);
        let ghost bits = byte_bits(byte, backwards);
        let mut k: usize = 0;
        proof {
            assert(bits.take(0) =~= Seq::<bool>::empty());
            assert(buf@.subrange(0, old(buf).len() as int) =~= old(buf)@);
        }
        while k < 8
            invariant
                k <= 8,
                ink.wf(),
                self.rem < ink.unit,
                old(buf).len() <= buf.len() <= limit,
                buf@.subrange(0, old(buf).len() as int) == old(buf)@,
                start == old(self).pen(old(buf)@),
                bits == byte_bits(byte, backwards),
                0 <= start.rem,
                self.pen(buf@) == start.bits(ink@, bits.take(k as int)),
            decreases 8 - k,
        {
            let place: usize = if backwards {
                7 - k
            } else {
                k
            };
            let b: bool = byte_bit(byte, place);
            let ghost before = buf@;
            proof {
                assert(bits.take(k + 1).drop_last() =~= bits.take(k as int));
                assert(bits.take(k + 1).last() == b);
            }
            let ok: bool = self.draw_bit(buf, ink, b, limit);
            proof {
                assert(buf@.subrange(0, old(buf).len() as int) =~= before.subrange(
                    0,
                    old(buf).len() as int,
                ));
            }
            if !ok {
                proof {
                    start.lemma_prefix_is_shorter(ink@, bits, k + 1);
                }
                return false;
            }
            k = k + 1;
        }
        proof {
            assert(bits.take(8) =~= bits);
        }
        true
    }
}

/// Reads bit `k` of a byte.
pub fn byte_bit(b: u8, k: usize) -> (r: bool)
    requires
        k < 8,
    ensures
        r == bit_of(b, k as int),
{
    if k == 0 {
        b % 2 == 1
    } else if k == 1 {
        (b / 2) % 2 == 1
    } else if k == 2 {
        (b / 4) % 2 == 1
    } else if k == 3 {
        (b / 8) % 2 == 1
    } else if k == 4 {
        (b / 16) % 2 == 1
    } else if k == 5 {
        (b / 32) % 2 == 1
    } else if k == 6 {
        (b / 64) % 2 == 1
    } else {
        (b / 128) % 2 == 1
    }
}

} // verus!
