//! A bounded ring queue whose capacity is a power of two.
//!
//! Head and tail are free-running counters that wrap around; a slot is found
//! by masking a counter. The queue is a plain value here: one owner pushes and
//! pops through `&mut`.
use vstd::prelude::*;

verus! {

/// `mask + 1` is a power of two and at least 2.
pub open spec fn is_ring_mask(mask: u64) -> bool {
    &&& mask >= 1
    &&& mask < usize::MAX
    &&& mask < u64::MAX
    &&& mask & ((mask + 1) as u64) == 0
}

/// A fixed-capacity first-in first-out queue.
pub struct SpscQueue<T> {
    buf: Vec<Option<T>>,
    mask: u64,
    head: u64,
    tail: u64,
}

proof fn lemma_slot_in_range(x: u64, mask: u64)
    ensures
        x & mask <= mask,
{
    assert(x & mask <= mask) by (bit_vector);
}

proof fn lemma_slots_differ(x: u64, d: u64, mask: u64)
    requires
        is_ring_mask(mask),
        0 < d <= mask,
    ensures
        x.wrapping_add(d) & mask != x & mask,
{
    let y = x.wrapping_add(d);
    let m1 = (mask + 1) as u64;
    assert(y & mask != x & mask) by (bit_vector)
        requires
            mask & m1 == 0,
            m1 == mask + 1,
            0 < d <= mask,
            y == x + d || y == x + d - 0x1_0000_0000_0000_0000,
    ;
}

impl<T> SpscQueue<T> {
    /// Number of items held, as the distance between the two counters.
    pub closed spec fn spec_len(self) -> nat {
        self.head.wrapping_sub(self.tail) as nat
    }

    /// Number of items the queue can hold.
    pub closed spec fn spec_capacity(self) -> nat {
        (self.mask + 1) as nat
    }

    pub closed spec fn slot(self, i: int) -> int {
        (self.tail.wrapping_add(i as u64) & self.mask) as int
    }

    /// The representation invariant.
    pub closed spec fn wf(self) -> bool {
        &&& is_ring_mask(self.mask)
        &&& self.buf@.len() == self.mask + 1
        &&& self.spec_len() <= self.mask + 1
        &&& forall|i: int| 0 <= i < self.spec_len() ==> (#[trigger] self.buf@[self.slot(i)]) is Some
    }

    /// The items held, oldest first.
    pub closed spec fn view(self) -> Seq<T> {
        Seq::new(self.spec_len(), |i: int| self.buf@[self.slot(i)]->0)
    }

    /// The capacity is a power of two, at least 2.
    pub proof fn lemma_capacity(self)
        requires
            self.wf(),
        ensures
            self.spec_capacity() >= 2,
            is_ring_mask((self.spec_capacity() - 1) as u64),
            self@.len() <= self.spec_capacity(),
    {
    }

    /// Creates an empty queue that holds `capacity` items, rounded up to a
    /// power of two and to at least 2.
    pub fn new(capacity: usize) -> (q: Self)
        requires
            capacity <= usize::MAX / 2,
        ensures
            q.wf(),
            q@ == Seq::<T>::empty(),
            q.spec_capacity() >= capacity,
            q.spec_capacity() >= 2,
            q.spec_capacity() < 2 * capacity || q.spec_capacity() == 2,
    {
        let mut cap: usize = 2;
        assert(2u64 & 1u64 == 0) by (bit_vector);
        while cap < capacity
            invariant
                2 <= cap,
                capacity <= usize::MAX / 2,
                (cap as u64) & ((cap - 1) as u64) == 0,
                cap < 2 * capacity || cap == 2,
            decreases usize::MAX - cap,
        {
            proof {
                let c = cap as u64;
                let c1 = (cap - 1) as u64;
                let d = (2 * c) as u64;
                let d1 = (2 * c - 1) as u64;
                assert(d & d1 == 0) by (bit_vector)
                    requires
                        c & c1 == 0,
                        c1 == c - 1,
                        2 <= c <= 0x7fff_ffff_ffff_ffff,
                        d == 2 * c,
                        d1 == 2 * c - 1,
                ;
            }
            cap = cap * 2;
        }
        let mut v: Vec<Option<T>> = Vec::new();
        let mut i: usize = 0;
        while i < cap
            invariant
                i <= cap,
                v@.len() == i,
            decreases cap - i,
        {
            v.push(None);
            i += 1;
        }
        let q = SpscQueue { buf: v, mask: (cap - 1) as u64, head: 0, tail: 0 };
        proof {
            let m = q.mask;
            let c = cap as u64;
            assert(m & ((m + 1) as u64) == 0) by (bit_vector)
                requires
                    c & m == 0,
                    m == c - 1,
                    c >= 2,
            ;
            assert(q.spec_len() == 0);
            assert(q@ =~= Seq::<T>::empty());
        }
        q
    }

    /// Number of items held.
    pub fn len(&self) -> (n: usize)
        requires
            self.wf(),
        ensures
            n == self@.len(),
    {
        self.head.wrapping_sub(self.tail) as usize
    }

    /// Appends `value`, or hands it back when the queue is full.
    pub fn push(&mut self, value: T) -> (r: Result<(), T>)
        requires
            old(self).wf(),
        ensures
            final(self).wf(),
            final(self).spec_capacity() == old(self).spec_capacity(),
            old(self)@.len() < old(self).spec_capacity() ==> r is Ok && final(self)@ == old(self)@.push(value),
            old(self)@.len() >= old(self).spec_capacity() ==> r == Err::<(), T>(value) && final(self)@ == old(
                self,
            )@,
    {
        let head = self.head;
        let tail = self.tail;
        if head.wrapping_sub(tail) > self.mask {
            return Err(value);
        }
        proof {
            lemma_slot_in_range(head, self.mask);
        }
        let idx = (head & self.mask) as usize;
        let ghost n = old(self).spec_len();
        proof {
            assert(head == tail.wrapping_add(n as u64));
            assert forall|i: int| 0 <= i < n implies old(self).slot(i) != idx && 0 <= old(self).slot(i)
                <= self.mask by {
                lemma_slot_in_range(tail.wrapping_add(i as u64), self.mask);
                lemma_slots_differ(tail.wrapping_add(i as u64), (n - i) as u64, self.mask);
                assert(tail.wrapping_add(i as u64).wrapping_add((n - i) as u64) == head);
            }
        }
        self.buf.set(idx, Some(value));
        self.head = head.wrapping_add(1);
        proof {
            assert(final(self).spec_len() == n + 1);
            assert(forall|i: int| final(self).slot(i) == old(self).slot(i));
            assert(final(self).slot(n as int) == idx);
            assert forall|i: int| 0 <= i < n + 1 implies (#[trigger] self.buf@[self.slot(i)]) is Some by {
                if i < n {
                    assert(old(self).buf@[old(self).slot(i)] is Some);
                }
            }
            assert(self@ =~= old(self)@.push(value));
        }
        Ok(())
    }

    /// Appends `value`, trying again up to `max_spins` times with a short
    /// spin in between, and hands it back when the queue stays full. While
    /// one owner holds the queue nothing makes room during the spins.
    pub fn push_with_backoff(&mut self, value: T, max_spins: u32) -> (r: Result<(), T>)
        requires
            old(self).wf(),
        ensures
            final(self).wf(),
            final(self).spec_capacity() == old(self).spec_capacity(),
            old(self)@.len() < old(self).spec_capacity() ==> r is Ok && final(self)@ == old(self)@.push(value),
            old(self)@.len() >= old(self).spec_capacity() ==> r == Err::<(), T>(value) && final(self)@ == old(
                self,
            )@,
    {
        let mut held = value;
        let mut spins: u32 = 0;
        loop
            invariant
                self.wf(),
                self@ == old(self)@,
                self.spec_capacity() == old(self).spec_capacity(),
                held == value,
                spins <= max_spins,
            decreases max_spins - spins,
        {
            match self.push(held) {
                Ok(()) => {
                    return Ok(());
                },
                Err(v) => {
                    held = v;
                    if spins >= max_spins {
                        return Err(held);
                    }
                    crate::util::spin_wait(32);
                    spins += 1;
                },
            }
        }
    }

    /// Removes and returns the oldest item, if any.
    pub fn pop(&mut self) -> (r: Option<T>)
        requires
            old(self).wf(),
        ensures
            final(self).wf(),
            final(self).spec_capacity() == old(self).spec_capacity(),
            old(self)@.len() == 0 ==> r is None && final(self)@ == old(self)@,
            old(self)@.len() > 0 ==> r == Some(old(self)@[0]) && final(self)@ == old(self)@.skip(1),
    {
        let tail = self.tail;
        let head = self.head;
        if tail == head {
            return None;
        }
        proof {
            lemma_slot_in_range(tail, self.mask);
        }
        let idx = (tail & self.mask) as usize;
        let ghost n = old(self).spec_len();
        proof {
            assert(old(self).slot(0) == idx);
            assert(old(self).buf@[old(self).slot(0)] is Some);
            assert forall|i: int| 1 <= i < n implies old(self).slot(i) != idx && 0 <= old(self).slot(i)
                <= self.mask by {
                lemma_slot_in_range(tail.wrapping_add(i as u64), self.mask);
                lemma_slots_differ(tail, i as u64, self.mask);
            }
        }
        let mut taken: Option<T> = None;
        core::mem::swap(&mut taken, &mut self.buf[idx]);
        self.tail = tail.wrapping_add(1);
        proof {
            assert(final(self).spec_len() == n - 1);
            assert forall|i: int| 0 <= i < n - 1 implies final(self).slot(i) == old(self).slot(i + 1) by {
                assert(tail.wrapping_add(1).wrapping_add(i as u64) == tail.wrapping_add((i + 1) as u64));
            }
            assert forall|i: int| 0 <= i < n - 1 implies (#[trigger] self.buf@[self.slot(i)]) is Some by {
                assert(old(self).buf@[old(self).slot(i + 1)] is Some);
            }
            assert(self@ =~= old(self)@.skip(1));
        }
        taken
    }
}

} // verus!
