//! Fixed-capacity circular store of samples.

use vstd::prelude::*;

verus! {

/// Bit pattern of the sample `0.0`: what an empty slot and an underrun read as.
pub const SILENCE: u32 = 0;

/// The smaller of two counts.
pub open spec fn at_most(a: int, b: int) -> int {
    if a < b {
        a
    } else {
        b
    }
}

/// The queue after `data` is offered to a buffer of `capacity` slots holding
/// `queue`: the samples that fit are appended in order, the rest are dropped.
pub open spec fn pushed(queue: Seq<u32>, capacity: nat, data: Seq<u32>) -> Seq<u32> {
    queue + data.take(at_most(data.len() as int, capacity - queue.len()))
}

/// The samples that leave `queue` when `amount` are asked for.
pub open spec fn consumed(queue: Seq<u32>, amount: nat) -> Seq<u32> {
    queue.take(at_most(amount as int, queue.len() as int))
}

/// The queue after `amount` samples are consumed from its front, or all of
/// them where it holds fewer.
pub open spec fn advanced(queue: Seq<u32>, amount: nat) -> Seq<u32> {
    queue.skip(at_most(amount as int, queue.len() as int))
}

proof fn lemma_wrap(x: int, n: int)
    requires
        0 <= x < 2 * n,
    ensures
        x % n == if x < n {
            x
        } else {
            x - n
        },
{
    if x < n {
        vstd::arithmetic::div_mod::lemma_small_mod(x as nat, n as nat);
    } else {
        vstd::arithmetic::div_mod::lemma_small_mod((x - n) as nat, n as nat);
        vstd::arithmetic::div_mod::lemma_mod_add_multiples_vanish(x - n, n);
    }
}

/// A bounded first-in first-out store of samples over a circular array.
pub struct RingBuffer {
    buffer: Vec<u32>,
    capacity: usize,
    write_pos: usize,
    read_pos: usize,
    count: usize,
}

impl View for RingBuffer {
    type V = Seq<u32>;

    /// The unconsumed samples, oldest first.
    closed spec fn view(&self) -> Seq<u32> {
        Seq::new(self.count as nat, |i: int| self.buffer@[self.slot_of(i)])
    }
}

impl RingBuffer {
    /// Index in the array of the sample `i` places after the read position.
    spec fn slot_of(&self, i: int) -> int {
        (self.read_pos + i) % (self.capacity as int)
    }

    /// The number of slots, fixed at construction.
    pub closed spec fn capacity(&self) -> nat {
        self.capacity as nat
    }

    /// The representation invariant: both cursors are inside the array, the
    /// count is within the capacity, and the write cursor stands `count`
    /// slots after the read cursor, wrapping round.
    pub closed spec fn wf(&self) -> bool {
        &&& self.capacity > 0
        &&& self.buffer@.len() == self.capacity
        &&& self.read_pos < self.capacity
        &&& self.write_pos < self.capacity
        &&& self.count <= self.capacity
        &&& self.write_pos == self.slot_of(self.count as int)
    }

    /// A well-formed buffer never holds more than its capacity, and its
    /// capacity is positive.
    pub proof fn lemma_within_capacity(&self)
        requires
            self.wf(),
        ensures
            self@.len() <= self.capacity(),
            self.capacity() > 0,
    {
    }

    /// An empty buffer of `capacity` slots.
    pub fn new(capacity: usize) -> (ring: RingBuffer)
        requires
            capacity > 0,
        ensures
            ring.wf(),
            ring.capacity() == capacity,
            ring@ == Seq::<u32>::empty(),
    {
        let ring = RingBuffer {
            buffer: vec![SILENCE; capacity],
            capacity,
            write_pos: 0,
            read_pos: 0,
            count: 0,
        };
        proof {
            lemma_wrap(0, capacity as int);
            assert(ring@ =~= Seq::<u32>::empty());
        }
        ring
    }

    fn slot(&self, offset: usize) -> (index: usize)
        requires
            self.wf(),
            offset <= self.capacity,
        ensures
            index == self.slot_of(offset as int),
            index < self.capacity,
    {
        proof {
            lemma_wrap(self.read_pos + offset, self.capacity as int);
        }
        let room: usize = self.capacity - self.read_pos;
        if offset < room {
            self.read_pos + offset
        } else {
            offset - room
        }
    }

    /// Appends the samples of `data`, in order, while there is room; the
    /// samples that do not fit are dropped. Nothing already queued changes.
    pub fn push(&mut self, data: &[u32])
        requires
            old(self).wf(),
        ensures
            final(self).wf(),
            final(self).capacity() == old(self).capacity(),
            final(self)@ == pushed(old(self)@, old(self).capacity(), data@),
            final(self)@.len() <= final(self).capacity(),
            old(self)@.is_prefix_of(final(self)@),
    {
        let ghost room: int = self.capacity - self.count;
        let mut i: usize = 0;
        assert(data@.take(0) =~= Seq::<u32>::empty());
        assert(self@ + Seq::<u32>::empty() =~= self@);
        while i < data.len()
            invariant
                self.wf(),
                self.capacity == old(self).capacity,
                i <= data@.len(),
                room == old(self).capacity - old(self)@.len(),
                self@ == old(self)@ + data@.take(at_most(i as int, room)),
            decreases data@.len() - i,
        {
            if self.count < self.capacity {
                let ghost before = *self;
                let sample: u32 = data[i];
                self.buffer.set(self.write_pos, sample);
                self.write_pos = (self.write_pos + 1) % self.capacity;
                self.count += 1;
                proof {
                    lemma_wrap(before.read_pos + before.count, before.capacity as int);
                    lemma_wrap(before.read_pos + before.count + 1, before.capacity as int);
                    lemma_wrap(before.write_pos + 1, before.capacity as int);
                    assert forall|j: int| 0 <= j < before.count implies self@[j] == before@[j] by {
                        lemma_wrap(before.read_pos + j, before.capacity as int);
                    }
                    assert(self@ =~= before@.push(sample));
                    assert(data@.take(i + 1) =~= data@.take(i as int).push(sample));
                    assert(self@ =~= old(self)@ + data@.take(i + 1));
                }
            }
            i += 1;
        }
    }

    /// The sample `offset` places after the oldest one, without consuming
    /// anything; silence where fewer than `offset + 1` samples are queued.
    pub fn get_relative(&self, offset: usize) -> (sample: u32)
        requires
            self.wf(),
        ensures
            sample == if offset < self@.len() {
                self@[offset as int]
            } else {
                SILENCE
            },
    {
        if offset >= self.count {
            return SILENCE;
        }
        let index: usize = self.slot(offset);
        self.buffer[index]
    }

    /// Consumes `amount` samples from the front, or all of them where fewer
    /// are queued.
    pub fn advance(&mut self, amount: usize)
        requires
            old(self).wf(),
        ensures
            final(self).wf(),
            final(self).capacity() == old(self).capacity(),
            final(self)@ == advanced(old(self)@, amount as nat),
            amount >= old(self)@.len() ==> final(self)@.len() == 0,
            amount <= old(self)@.len() ==> final(self)@.len() == old(self)@.len() - amount,
    {
        let ghost before = *self;
        let to_remove: usize = if amount < self.count {
            amount
        } else {
            self.count
        };
        self.read_pos = self.slot(to_remove);
        self.count -= to_remove;
        proof {
            lemma_wrap(before.read_pos + to_remove, before.capacity as int);
            lemma_wrap(before.read_pos + before.count, before.capacity as int);
            lemma_wrap(self.read_pos + self.count, before.capacity as int);
            assert forall|j: int| 0 <= j < self.count implies self@[j] == before@[to_remove + j] by {
                lemma_wrap(self.read_pos + j, before.capacity as int);
                lemma_wrap(before.read_pos + to_remove + j, before.capacity as int);
            }
            assert(self@ =~= before@.skip(to_remove as int));
        }
    }

    /// The number of samples queued.
    pub fn len(&self) -> (count: usize)
        requires
            self.wf(),
        ensures
            count == self@.len(),
    {
        self.count
    }
}

/// One call that changes a buffer.
pub ghost enum Op {
    /// `push` with these samples.
    Push(Seq<u32>),
    /// `advance` by this amount.
    Advance(nat),
}

/// What a run of calls has done to a buffer that began empty.
pub ghost struct History {
    /// The samples still queued, oldest first.
    pub queue: Seq<u32>,
    /// Every sample handed to `push`, in the order handed over.
    pub offered: Seq<u32>,
    /// Every sample that `push` took in, in the order taken.
    pub accepted: Seq<u32>,
    /// Every sample that `advance` consumed, in the order consumed.
    pub consumed: Seq<u32>,
    /// Whether every `push` so far had room for all of its samples.
    pub lossless: bool,
}

/// Replays `ops`, in order, on an empty buffer of `capacity` slots.
pub open spec fn replay(capacity: nat, ops: Seq<Op>) -> History
    decreases ops.len(),
{
    if ops.len() == 0 {
        History {
            queue: Seq::empty(),
            offered: Seq::empty(),
            accepted: Seq::empty(),
            consumed: Seq::empty(),
            lossless: true,
        }
    } else {
        let prev = replay(capacity, ops.drop_last());
        match ops.last() {
            Op::Push(data) => History {
                queue: pushed(prev.queue, capacity, data),
                offered: prev.offered + data,
                accepted: prev.accepted + data.take(
                    at_most(data.len() as int, capacity - prev.queue.len()),
                ),
                consumed: prev.consumed,
                lossless: prev.lossless && prev.queue.len() + data.len() <= capacity,
            },
            Op::Advance(amount) => History {
                queue: advanced(prev.queue, amount),
                offered: prev.offered,
                accepted: prev.accepted,
                consumed: prev.consumed + consumed(prev.queue, amount),
                lossless: prev.lossless,
            },
        }
    }
}

/// Whatever calls are made, in whatever order, the queue stays within the
/// capacity, and the samples consumed so far followed by the samples still
/// queued are the samples taken in, in the order in which they were pushed.
/// Where no push ran out of room, these are all the samples pushed.
pub proof fn lemma_first_in_first_out(capacity: nat, ops: Seq<Op>)
    ensures
        replay(capacity, ops).queue.len() <= capacity,
        replay(capacity, ops).consumed + replay(capacity, ops).queue == replay(
            capacity,
            ops,
        ).accepted,
        replay(capacity, ops).lossless ==> replay(capacity, ops).accepted == replay(
            capacity,
            ops,
        ).offered,
    decreases ops.len(),
{
    let now = replay(capacity, ops);
    if ops.len() == 0 {
        assert(now.consumed + now.queue =~= now.accepted);
    } else {
        let prev = replay(capacity, ops.drop_last());
        lemma_first_in_first_out(capacity, ops.drop_last());
        match ops.last() {
            Op::Push(data) => {
                let k = at_most(data.len() as int, capacity - prev.queue.len());
                assert(now.consumed + now.queue =~= (prev.consumed + prev.queue) + data.take(k));
                if now.lossless {
                    assert(data.take(k) =~= data);
                }
            },
            Op::Advance(amount) => {
                let k = at_most(amount as int, prev.queue.len() as int);
                assert(prev.queue.take(k) + prev.queue.skip(k) =~= prev.queue);
                assert(now.consumed + now.queue =~= prev.consumed + (prev.queue.take(k)
                    + prev.queue.skip(k)));
            },
        }
    }
}

} // verus!
