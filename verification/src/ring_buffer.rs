//! A fixed-capacity circular buffer over the most recent `capacity` items.
//!
//! Every pushed item is implicitly assigned a monotonically increasing
//! sequence number: the `k`-th push (0-indexed) gets sequence number `k` and
//! lands in slot `k mod capacity`. The buffer keeps no per-item sequence
//! numbers; they are derived from the write cursor and the wrap counter.

use vstd::prelude::*;

verus! {

/// Sequence number of the oldest item still retained after `n` pushes into a
/// buffer of capacity `cap`: `0` while the buffer has never been full, else
/// `n - cap`.
pub open spec fn base_of(n: nat, cap: nat) -> nat {
    if n <= cap {
        0
    } else {
        (n - cap) as nat
    }
}

/// The items still retained after the pushes recorded in `h`, oldest first.
pub open spec fn retained_of<T>(h: Seq<T>, cap: nat) -> Seq<T> {
    h.skip(base_of(h.len(), cap) as int)
}

/// After the pushes recorded in `h` — so `get_next_number()` reports
/// `h.len()` — a buffer of capacity `cap` retains exactly the last
/// `min(h.len(), cap)` pushed items, in push order; and the retained item at
/// iteration offset `i` is exactly the one that was assigned sequence number
/// `base_of(h.len(), cap) + i` when it was pushed.
pub proof fn lemma_retained_window<T>(h: Seq<T>, cap: nat)
    requires
        cap >= 1,
    ensures
        retained_of(h, cap).len() == (if h.len() <= cap {
            h.len()
        } else {
            cap
        }),
        base_of(h.len(), cap) + retained_of(h, cap).len() == h.len(),
        forall|i: int|
            0 <= i < retained_of(h, cap).len() ==> #[trigger] retained_of(h, cap)[i] == h[base_of(
                h.len(),
                cap,
            ) + i],
{
}

pub struct RingBuffer<T> {
    buffer: Vec<Option<T>>,
    capacity: usize,
    write_idx: usize,
    loop_num: usize,
    history: Ghost<Seq<T>>,
}

impl<T> View for RingBuffer<T> {
    type V = Seq<T>;

    /// The abstract value of a ring buffer is the sequence of every item ever
    /// pushed; the buffer itself physically retains only the last
    /// `min(len, capacity)` of them.
    closed spec fn view(&self) -> Seq<T> {
        self.history@
    }
}

impl<T> RingBuffer<T> {
    pub closed spec fn cap(&self) -> nat {
        self.capacity as nat
    }

    /// Sequence number of the oldest retained item.
    pub open spec fn base(&self) -> nat {
        base_of(self@.len(), self.cap())
    }

    /// The retained items, oldest to newest.
    pub open spec fn retained(&self) -> Seq<T> {
        retained_of(self@, self.cap())
    }

    pub closed spec fn wf(&self) -> bool {
        &&& self.capacity >= 1
        &&& self.buffer@.len() == self.capacity
        &&& self.write_idx < self.capacity
        &&& self.loop_num * self.capacity + self.write_idx == self.history@.len()
        &&& self.history@.len() <= usize::MAX
        &&& forall|j: int|
            0 <= j < self.capacity ==> self.buffer@[j] == (if j < self.write_idx {
                Some(self.history@[self.loop_num * self.capacity + j])
            } else if self.loop_num >= 1 {
                Some(self.history@[(self.loop_num - 1) * self.capacity + j])
            } else {
                None::<T>
            })
    }

    pub fn new(capacity: usize) -> (r: RingBuffer<T>)
        requires
            capacity >= 1,
        ensures
            r.wf(),
            r@ == Seq::<T>::empty(),
            r.cap() == capacity as nat,
    {
        let mut buffer: Vec<Option<T>> = Vec::new();
        let mut i: usize = 0;
        while i < capacity
            invariant
                i <= capacity,
                buffer@.len() == i,
                forall|j: int| 0 <= j < i ==> buffer@[j] is None,
            decreases capacity - i,
        {
            buffer.push(None);
            i = i + 1;
        }
        RingBuffer { buffer, capacity, write_idx: 0, loop_num: 0, history: Ghost(Seq::empty()) }
    }

    /// Total number of items ever pushed; equally, the sequence number the
    /// next push will receive.
    pub fn get_next_number(&self) -> (r: usize)
        requires
            self.wf(),
        ensures
            r == self@.len(),
    {
        (self.loop_num * self.capacity) + self.write_idx
    }

    /// Sequence number of the oldest item still retained.
    pub fn get_base_index(&self) -> (r: usize)
        requires
            self.wf(),
        ensures
            r == self.base(),
    {
        if self.loop_num == 0 {
            proof {
                assert(0int * (self.capacity as int) == 0) by (nonlinear_arith);
            }
            return 0;
        }
        proof {
            let l = self.loop_num as int;
            let c = self.capacity as int;
            assert(l >= 1 && c >= 0 ==> c <= l * c) by (nonlinear_arith);
        }
        self.get_next_number() - self.capacity
    }

    /// Overwrites the slot under the write cursor, advances the cursor modulo
    /// the capacity, and counts a wrap when the cursor returns to slot 0.
    pub fn push(&mut self, item: T)
        requires
            old(self).wf(),
            old(self)@.len() < usize::MAX,
        ensures
            final(self).wf(),
            final(self)@ == old(self)@.push(item),
            final(self).cap() == old(self).cap(),
    {
        self.buffer[self.write_idx] = Some(item);
        self.history = Ghost(self.history@.push(item));
        let mut write_idx = self.write_idx + 1;
        if write_idx == self.capacity {
            proof {
                let l = self.loop_num as int;
                let c = self.capacity as int;
                assert(l >= 0 && c >= 1 ==> l + 1 <= (l + 1) * c) by (nonlinear_arith);
                assert((l + 1) * c == l * c + c) by (nonlinear_arith);
            }
            self.loop_num = self.loop_num + 1;
            write_idx = 0;
        }
        self.write_idx = write_idx;
        proof {
            let l0 = old(self).loop_num as int;
            let c = old(self).capacity as int;
            assert((l0 - 1) * c == l0 * c - c) by (nonlinear_arith);
            assert(l0 >= 1 && c >= 0 ==> (l0 - 1) * c >= 0) by (nonlinear_arith);
        }
    }

    /// A well-formed buffer cannot have had more pushes than a sequence
    /// number can count, and always has room for at least one item.
    pub proof fn lemma_wf_bounds(&self)
        requires
            self.wf(),
        ensures
            self@.len() <= usize::MAX,
            self.cap() >= 1,
    {
    }

    /// A fresh, independent traversal of the retained items, oldest to
    /// newest. It starts at slot 0 while the buffer has never wrapped, else
    /// at the write cursor, where the oldest surviving item sits.
    pub fn iter(&self) -> (r: RingBufferIter<'_, T>)
        requires
            self.wf(),
        ensures
            r.wf(),
            r.ring() == *self,
            r.pos() == 0,
            r.future() == self.retained(),
    {
        RingBufferIter {
            ring_buffer: self,
            index: if self.loop_num > 0 {
                self.write_idx
            } else {
                0
            },
            remaining: self.capacity,
        }
    }
}

pub struct RingBufferIter<'a, T> {
    ring_buffer: &'a RingBuffer<T>,
    index: usize,
    remaining: usize,
}

impl<'a, T> RingBufferIter<'a, T> {
    /// The buffer being traversed.
    pub closed spec fn ring(&self) -> RingBuffer<T> {
        *self.ring_buffer
    }

    /// How many steps this traversal has already taken.
    pub closed spec fn pos(&self) -> nat {
        (self.ring_buffer.capacity - self.remaining) as nat
    }

    closed spec fn start(&self) -> int {
        if self.ring_buffer.loop_num > 0 {
            self.ring_buffer.write_idx as int
        } else {
            0
        }
    }

    pub closed spec fn wf(&self) -> bool {
        &&& self.ring_buffer.wf()
        &&& self.remaining <= self.ring_buffer.capacity
        &&& self.index as int == (if self.start() + self.pos() < self.ring_buffer.capacity {
            self.start() + self.pos()
        } else {
            self.start() + self.pos() - self.ring_buffer.capacity
        })
    }

    /// The items this traversal has still to yield, oldest first.
    pub open spec fn future(&self) -> Seq<T> {
        let r = self.ring().retained();
        if self.pos() <= r.len() {
            r.skip(self.pos() as int)
        } else {
            Seq::empty()
        }
    }

    /// Yields the next retained item, or `None` once the traversal is done.
    /// Pre-wrap, slots are filled contiguously from index 0, so the first
    /// empty slot marks the end of valid data.
    pub fn next(&mut self) -> (r: Option<&'a T>)
        requires
            old(self).wf(),
        ensures
            final(self).wf(),
            final(self).ring() == old(self).ring(),
            old(self).future().len() > 0 ==> (r matches Some(v) && *v == old(self).future()[0]
                && final(self).future() == old(self).future().skip(1) && final(self).pos()
                == old(self).pos() + 1),
            old(self).future().len() == 0 ==> (r is None && final(self).future() == Seq::<
                T,
            >::empty()),
    {
        if self.remaining > 0 {
            let rb: &'a RingBuffer<T> = self.ring_buffer;
            let item = &rb.buffer[self.index];
            let mut index = self.index + 1;
            if index == rb.capacity {
                index = 0;
            }
            self.index = index;
            self.remaining = self.remaining - 1;
            proof {
                let l = rb.loop_num as int;
                let c = rb.capacity as int;
                assert((l - 1) * c == l * c - c) by (nonlinear_arith);
                assert(l >= 1 && c >= 0 ==> (l - 1) * c >= 0) by (nonlinear_arith);
                assert(l == 0 ==> l * c == 0) by (nonlinear_arith);
            }
            if item.is_some() {
                return item.as_ref();
            }
        }
        None
    }
}

} // verus!
