//! The resampling processor: a ring buffer drained by a fractional cursor.
//!
//! The processor keeps the buffer, the cursor's fraction and the playback
//! rate. It decides, slot by slot, whether there is anything to blend, which
//! two samples bracket the cursor, and how many samples leave the buffer.
//! The caller does the arithmetic on the fractions and blends the pairs.

use crate::buffer::{advanced, at_most, pushed, RingBuffer};
use vstd::prelude::*;

verus! {

/// Bit pattern of the fraction zero.
pub const ZERO_FRACTION: u32 = 0;

/// Bit pattern of the rate one: real time.
pub const UNITY_RATE: u32 = 0x3F80_0000;

/// Bit pattern of the slowest rate, one tenth.
pub const MIN_RATE: u32 = 0x3DCC_CCCD;

/// Bit pattern of the fastest rate, four.
pub const MAX_RATE: u32 = 0x4080_0000;

/// Samples per second by which the buffered count is reported as time.
pub const NOMINAL_SAMPLE_RATE: u32 = 44100;

/// The bit pattern without its sign bit.
pub open spec fn magnitude(bits: u32) -> int {
    if bits >= 0x8000_0000 {
        bits - 0x8000_0000
    } else {
        bits as int
    }
}

/// Whether the bit pattern stands for no number.
pub open spec fn is_nan(bits: u32) -> bool {
    magnitude(bits) > 0x7F80_0000
}

/// Where a bit pattern that stands for a number lies in the order of the
/// numbers: of two such patterns the smaller number has the smaller rank, and
/// the two zeros share one.
pub open spec fn rank(bits: u32) -> int {
    if bits >= 0x8000_0000 {
        -magnitude(bits)
    } else {
        magnitude(bits)
    }
}

/// The rate that is stored when `bits` is asked for: the nearest rate between
/// the slowest and the fastest, and the slowest where `bits` is no number.
pub open spec fn clamped_rate(bits: u32) -> u32 {
    if is_nan(bits) || rank(bits) < rank(MIN_RATE) {
        MIN_RATE
    } else if rank(bits) > rank(MAX_RATE) {
        MAX_RATE
    } else {
        bits
    }
}

/// What the fractional cursor does after one rendered slot.
#[derive(Clone, Copy, Debug, PartialEq, Eq)]
pub struct Step {
    /// Whole samples that the cursor moved past.
    pub carries: usize,
    /// The fraction that is left, below one.
    pub fraction: u32,
}

/// What one output slot is made of.
#[derive(Clone, Copy, Debug, PartialEq, Eq)]
pub enum Slot {
    /// Fewer than two samples were queued.
    Silence,
    /// The two samples round the cursor, and how far it stands from the first.
    Blend { floor: u32, ceiling: u32, weight: u32 },
}

/// The buffered count as a time: `samples` over `sample_rate` seconds.
#[derive(Clone, Copy, Debug, PartialEq, Eq)]
pub struct BufferHealth {
    pub samples: usize,
    pub sample_rate: u32,
}

/// The outcome of rendering a run of slots.
pub ghost struct Render {
    pub queue: Seq<u32>,
    pub cursor: u32,
    pub slots: Seq<Slot>,
}

/// Renders one slot per step, in order, from `queue` with the cursor's
/// fraction at `cursor`. A slot with fewer than two samples queued is silent
/// and changes nothing. Any other slot brackets the two oldest samples at the
/// current fraction, then consumes the step's carries and takes its fraction.
pub open spec fn rendered(queue: Seq<u32>, cursor: u32, steps: Seq<Step>) -> Render
    decreases steps.len(),
{
    if steps.len() == 0 {
        Render { queue, cursor, slots: Seq::empty() }
    } else {
        let prev = rendered(queue, cursor, steps.drop_last());
        let step = steps.last();
        if prev.queue.len() < 2 {
            Render { queue: prev.queue, cursor: prev.cursor, slots: prev.slots.push(Slot::Silence) }
        } else {
            Render {
                queue: advanced(prev.queue, step.carries as nat),
                cursor: step.fraction,
                slots: prev.slots.push(
                    Slot::Blend { floor: prev.queue[0], ceiling: prev.queue[1], weight: prev.cursor },
                ),
            }
        }
    }
}

/// A ring buffer with the fractional read cursor and the playback rate that
/// drain it.
pub struct ElasticProcessor {
    buffer: RingBuffer,
    cursor_fract: u32,
    playback_rate: u32,
}

impl ElasticProcessor {
    /// The unconsumed samples, oldest first.
    pub closed spec fn queue(&self) -> Seq<u32> {
        self.buffer@
    }

    /// The number of samples that the buffer can hold.
    pub closed spec fn capacity(&self) -> nat {
        self.buffer.capacity()
    }

    /// The cursor's fraction, as a bit pattern.
    pub closed spec fn cursor(&self) -> u32 {
        self.cursor_fract
    }

    /// The playback rate, as a bit pattern.
    pub closed spec fn rate(&self) -> u32 {
        self.playback_rate
    }

    /// The representation invariant: the buffer is well formed, the fraction
    /// is at least zero and below one, the rate is between the slowest and the
    /// fastest.
    pub closed spec fn wf(&self) -> bool {
        &&& self.buffer.wf()
        &&& self.cursor_fract < UNITY_RATE
        &&& MIN_RATE <= self.playback_rate <= MAX_RATE
    }

    /// What the invariant says of the state that callers see.
    pub proof fn lemma_bounds(&self)
        requires
            self.wf(),
        ensures
            self.queue().len() <= self.capacity(),
            self.cursor() < UNITY_RATE,
            MIN_RATE <= self.rate() <= MAX_RATE,
            self.rate() == clamped_rate(self.rate()),
    {
        self.buffer.lemma_within_capacity();
    }

    /// A processor with an empty buffer of `buffer_size` slots, a zero
    /// fraction and the rate one.
    pub fn new(buffer_size: usize) -> (processor: ElasticProcessor)
        requires
            buffer_size > 0,
        ensures
            processor.wf(),
            processor.capacity() == buffer_size,
            processor.queue() == Seq::<u32>::empty(),
            processor.cursor() == ZERO_FRACTION,
            processor.rate() == UNITY_RATE,
    {
        ElasticProcessor {
            buffer: RingBuffer::new(buffer_size),
            cursor_fract: ZERO_FRACTION,
            playback_rate: UNITY_RATE,
        }
    }

    /// Queues the samples of `data` that fit; the rest are dropped.
    pub fn push_data(&mut self, data: &[u32])
        requires
            old(self).wf(),
        ensures
            final(self).wf(),
            final(self).capacity() == old(self).capacity(),
            final(self).cursor() == old(self).cursor(),
            final(self).rate() == old(self).rate(),
            final(self).queue() == pushed(old(self).queue(), old(self).capacity(), data@),
    {
        self.buffer.push(data);
    }

    /// Stores `rate`, brought into the range from the slowest to the fastest.
    pub fn set_playback_rate(&mut self, rate: u32)
        requires
            old(self).wf(),
        ensures
            final(self).wf(),
            final(self).rate() == clamped_rate(rate),
            final(self).capacity() == old(self).capacity(),
            final(self).cursor() == old(self).cursor(),
            final(self).queue() == old(self).queue(),
    {
        self.playback_rate = if rate > 0x7F80_0000 || rate < MIN_RATE {
            MIN_RATE
        } else if rate > MAX_RATE {
            MAX_RATE
        } else {
            rate
        };
    }

    /// The playback rate, as a bit pattern.
    pub fn playback_rate(&self) -> (rate: u32)
        ensures
            rate == self.rate(),
    {
        self.playback_rate
    }

    /// The cursor's fraction, as a bit pattern.
    pub fn cursor_fract(&self) -> (fraction: u32)
        ensures
            fraction == self.cursor(),
    {
        self.cursor_fract
    }

    /// The number of samples queued, with the nominal rate that turns it into
    /// seconds.
    pub fn get_buffer_health(&self) -> (health: BufferHealth)
        requires
            self.wf(),
        ensures
            health.samples == self.queue().len(),
            health.sample_rate == NOMINAL_SAMPLE_RATE,
    {
        BufferHealth { samples: self.buffer.len(), sample_rate: NOMINAL_SAMPLE_RATE }
    }

    /// Renders one slot per step, in order, and returns what each is made of.
    pub fn process(&mut self, steps: &[Step]) -> (output: Vec<Slot>)
        requires
            old(self).wf(),
            forall|i: int| 0 <= i < steps@.len() ==> (#[trigger] steps@[i]).fraction < UNITY_RATE,
        ensures
            final(self).wf(),
            final(self).capacity() == old(self).capacity(),
            final(self).rate() == old(self).rate(),
            output@.len() == steps@.len(),
            output@ == rendered(old(self).queue(), old(self).cursor(), steps@).slots,
            final(self).queue() == rendered(old(self).queue(), old(self).cursor(), steps@).queue,
            final(self).cursor() == rendered(old(self).queue(), old(self).cursor(), steps@).cursor,
    {
        let mut output: Vec<Slot> = Vec::with_capacity(steps.len());
        let mut i: usize = 0;
        assert(steps@.take(0) =~= Seq::<Step>::empty());
        while i < steps.len()
            invariant
                self.wf(),
                self.capacity() == old(self).capacity(),
                self.rate() == old(self).rate(),
                i <= steps@.len(),
                output@.len() == i,
                forall|j: int| 0 <= j < steps@.len() ==> (#[trigger] steps@[j]).fraction < UNITY_RATE,
                output@ == rendered(old(self).queue(), old(self).cursor(), steps@.take(i as int)).slots,
                self.queue() == rendered(old(self).queue(), old(self).cursor(), steps@.take(i as int)).queue,
                self.cursor() == rendered(old(self).queue(), old(self).cursor(), steps@.take(i as int)).cursor,
            decreases steps@.len() - i,
        {
            proof {
                assert(steps@.take(i + 1).drop_last() =~= steps@.take(i as int));
                assert(steps@.take(i + 1).last() == steps@[i as int]);
            }
            if self.buffer.len() < 2 {
                output.push(Slot::Silence);
            } else {
                let floor: u32 = self.buffer.get_relative(0);
                let ceiling: u32 = self.buffer.get_relative(1);
                output.push(Slot::Blend { floor, ceiling, weight: self.cursor_fract });
                let step: Step = steps[i];
                self.buffer.advance(step.carries);
                self.cursor_fract = step.fraction;
            }
            i += 1;
        }
        proof {
            assert(steps@.take(steps@.len() as int) =~= steps@);
        }
        output
    }
}

/// Rendering in two calls is rendering in one: the second call goes on from
/// the queue and the fraction that the first one left, and the slots of the
/// two calls, one after the other, are the slots of a single call with all
/// the steps.
pub proof fn lemma_render_in_two_calls(
    queue: Seq<u32>,
    cursor: u32,
    first: Seq<Step>,
    second: Seq<Step>,
)
    ensures
        rendered(queue, cursor, first + second).queue == rendered(
            rendered(queue, cursor, first).queue,
            rendered(queue, cursor, first).cursor,
            second,
        ).queue,
        rendered(queue, cursor, first + second).cursor == rendered(
            rendered(queue, cursor, first).queue,
            rendered(queue, cursor, first).cursor,
            second,
        ).cursor,
        rendered(queue, cursor, first + second).slots == rendered(queue, cursor, first).slots
            + rendered(
            rendered(queue, cursor, first).queue,
            rendered(queue, cursor, first).cursor,
            second,
        ).slots,
    decreases second.len(),
{
    let mid = rendered(queue, cursor, first);
    let whole = rendered(queue, cursor, first + second);
    let rest = rendered(mid.queue, mid.cursor, second);
    if second.len() == 0 {
        assert(first + second =~= first);
        assert(whole.slots =~= mid.slots + rest.slots);
    } else {
        lemma_render_in_two_calls(queue, cursor, first, second.drop_last());
        assert((first + second).drop_last() =~= first + second.drop_last());
        assert((first + second).last() == second.last());
        assert(whole.slots =~= mid.slots + rest.slots);
    }
}

/// At the rate one with a zero fraction every step carries one sample and
/// leaves a zero fraction. Then slot `i` brackets sample `i` of the queue and
/// the one after it with the weight zero, so that each slot is the next queued
/// sample undistorted, as long as two samples are left; each such slot
/// consumes exactly one sample, and the fraction stays zero.
pub proof fn lemma_unity_rate_is_identity(queue: Seq<u32>, steps: Seq<Step>)
    requires
        forall|i: int|
            0 <= i < steps.len() ==> (#[trigger] steps[i]).carries == 1 && steps[i].fraction
                == ZERO_FRACTION,
    ensures
        rendered(queue, ZERO_FRACTION, steps).slots.len() == steps.len(),
        rendered(queue, ZERO_FRACTION, steps).cursor == ZERO_FRACTION,
        rendered(queue, ZERO_FRACTION, steps).queue == queue.skip(
            at_most(steps.len() as int, if queue.len() == 0 {
                0
            } else {
                queue.len() - 1
            }),
        ),
        forall|i: int|
            0 <= i < steps.len() ==> #[trigger] rendered(queue, ZERO_FRACTION, steps).slots[i]
                == if i + 1 < queue.len() {
                (Slot::Blend { floor: queue[i], ceiling: queue[i + 1], weight: ZERO_FRACTION })
            } else {
                Slot::Silence
            },
    decreases steps.len(),
{
    if steps.len() == 0 {
        assert(queue.skip(0) =~= queue);
    } else {
        let front = steps.drop_last();
        lemma_unity_rate_is_identity(queue, front);
        let prev = rendered(queue, ZERO_FRACTION, front);
        let now = rendered(queue, ZERO_FRACTION, steps);
        let n = front.len() as int;
        assert(steps.last() == steps[n]);
        if prev.queue.len() >= 2 {
            assert(now.queue =~= queue.skip(n + 1));
        }
    }
}

/// At the rate two every step carries two samples. Then each slot that is not
/// silent consumes two, and a queue of `n` samples is used up by `n / 2` slots
/// or more: nothing is left where `n` is even, and the one sample that has no
/// neighbour where `n` is odd.
pub proof fn lemma_double_rate_drains(queue: Seq<u32>, cursor: u32, steps: Seq<Step>)
    requires
        forall|i: int| 0 <= i < steps.len() ==> (#[trigger] steps[i]).carries == 2,
    ensures
        rendered(queue, cursor, steps).queue == queue.skip(
            2 * at_most(steps.len() as int, queue.len() as int / 2),
        ),
        steps.len() >= queue.len() / 2 ==> rendered(queue, cursor, steps).queue.len()
            == queue.len() % 2,
        steps.len() <= queue.len() / 2 ==> rendered(queue, cursor, steps).queue.len()
            == queue.len() - 2 * steps.len(),
    decreases steps.len(),
{
    if steps.len() == 0 {
        assert(queue.skip(0) =~= queue);
    } else {
        let front = steps.drop_last();
        lemma_double_rate_drains(queue, cursor, front);
        let prev = rendered(queue, cursor, front);
        let now = rendered(queue, cursor, steps);
        let n = front.len() as int;
        assert(steps.last() == steps[n]);
        if prev.queue.len() >= 2 {
            assert(now.queue =~= queue.skip(2 * (n + 1)));
        }
    }
}

/// The rate that is stored is the rate asked for where that lies between the
/// slowest and the fastest, the slowest where it lies below or is no number,
/// and the fastest where it lies above; storing a stored rate changes nothing.
pub proof fn lemma_clamped_rate(bits: u32)
    ensures
        MIN_RATE <= clamped_rate(bits) <= MAX_RATE,
        rank(MIN_RATE) <= rank(clamped_rate(bits)) <= rank(MAX_RATE),
        !is_nan(bits) && rank(MIN_RATE) <= rank(bits) <= rank(MAX_RATE) ==> clamped_rate(bits)
            == bits,
        !is_nan(bits) && rank(bits) < rank(MIN_RATE) ==> clamped_rate(bits) == MIN_RATE,
        !is_nan(bits) && rank(bits) > rank(MAX_RATE) ==> clamped_rate(bits) == MAX_RATE,
        is_nan(bits) ==> clamped_rate(bits) == MIN_RATE,
        clamped_rate(clamped_rate(bits)) == clamped_rate(bits),
{
}

} // verus!
