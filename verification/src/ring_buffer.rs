//! A bounded first-in, first-out buffer over a fixed ring of slots.

use vstd::prelude::*;

verus! {

/// A queue with room for a fixed number of items. Items are written at the
/// rear and read from the front; both ends travel around the ring of slots.
pub struct RingBuffer<T: Clone> {
    buffer: Vec<Option<Box<T>>>,
    capacity: usize,
    // read index
    front: usize,
    // write index
    rear: usize,
}

impl<T: Clone> View for RingBuffer<T> {
    type V = Seq<T>;

    /// The items in the buffer, oldest first.
    closed spec fn view(&self) -> Seq<T> {
        Seq::new(self.count() as nat, |k: int| *self.buffer@[self.slot(k)]->Some_0)
    }
}

impl<T: Clone> RingBuffer<T> {
    /// The slot that holds the item `k` places behind the oldest one.
    closed spec fn slot(&self, k: int) -> int {
        if self.front + k < self.capacity {
            self.front + k
        } else {
            self.front + k - self.capacity
        }
    }

    /// The number of items held, read off the two indices; where they meet
    /// the slot under them tells a full buffer from an empty one.
    closed spec fn count(&self) -> int {
        if self.capacity == 0 {
            0
        } else if self.front < self.rear {
            self.rear - self.front
        } else if self.front > self.rear {
            self.capacity - self.front + self.rear
        } else if self.buffer@[self.front as int] is Some {
            self.capacity as int
        } else {
            0
        }
    }

    /// The number of items the buffer has room for.
    pub closed spec fn spec_capacity(&self) -> nat {
        self.capacity as nat
    }

    /// The invariant that every operation expects and keeps: the items sit
    /// in consecutive slots from the front, and every other slot is vacant.
    pub closed spec fn wf(&self) -> bool {
        &&& self.buffer@.len() == self.capacity
        &&& self.capacity == 0 ==> self.front == 0 && self.rear == 0
        &&& self.capacity > 0 ==> self.front < self.capacity && self.rear < self.capacity
        &&& forall|k: int|
            0 <= k < self.capacity ==> ((#[trigger] self.buffer@[self.slot(k)]) is Some <==> k
                < self.count())
    }

    /// A well-formed buffer never holds more than its capacity.
    pub proof fn lemma_bounded(&self)
        requires
            self.wf(),
        ensures
            self@.len() <= self.spec_capacity(),
    {
    }

    /// Creates an empty buffer with room for `capacity` items.
    pub fn new(capacity: usize) -> (ring: Self)
        ensures
            ring.wf(),
            ring@ == Seq::<T>::empty(),
            ring.spec_capacity() == capacity,
    {
        let mut buffer: Vec<Option<Box<T>>> = Vec::new();
        let mut filled: usize = 0;
        while filled < capacity
            invariant
                filled <= capacity,
                buffer@.len() == filled,
                forall|i: int| 0 <= i < filled ==> buffer@[i] is None,
            decreases capacity - filled,
        {
            buffer.push(None);
            filled += 1;
        }
        let ring = RingBuffer { buffer, capacity, front: 0, rear: 0 };
        assert(ring@ =~= Seq::<T>::empty());
        ring
    }

    /// Tells whether the buffer holds no item.
    pub fn is_empty(&self) -> (empty: bool)
        requires
            self.wf(),
        ensures
            empty == (self@.len() == 0),
    {
        if self.capacity == 0 {
            return true;
        }
        proof {
            assert(self.slot(0) == self.front);
        }
        self.front == self.rear && self.buffer[self.front].is_none()
    }

    /// Tells whether the buffer holds as many items as it has room for.
    pub fn is_full(&self) -> (full: bool)
        requires
            self.wf(),
        ensures
            full == (self@.len() == self.spec_capacity()),
    {
        if self.capacity == 0 {
            return true;
        }
        proof {
            assert(self.slot(0) == self.front);
        }
        self.front == self.rear && self.buffer[self.front].is_some()
    }

    /// Appends `item` behind the newest item. A full buffer refuses it and
    /// stays as it was.
    pub fn write(&mut self, item: T) -> (result: Result<(), &'static str>)
        requires
            old(self).wf(),
        ensures
            final(self).wf(),
            final(self).spec_capacity() == old(self).spec_capacity(),
            old(self)@.len() < old(self).spec_capacity() ==> result is Ok && final(self)@ == old(
                self,
            )@.push(item),
            old(self)@.len() >= old(self).spec_capacity() ==> (result matches Err(message)
                && message@ == "Buffer is full"@) && final(self)@ == old(self)@,
    {
        // checks to see if the buffer is full first before adding
        if self.is_full() {
            Err("Buffer is full")
        } else {
            let ghost before = *self;
            // adds new item where the rear is pointing
            self.buffer.set(self.rear, Some(Box::new(item)));
            // write index
            self.rear = (self.rear + 1) % self.capacity;
            proof {
                let n = before.count();
                lemma_next_index(before.rear as int, before.capacity as int);
                assert(before.slot(0) == before.front);
                assert(before.slot(n) == before.rear);
                assert(self.count() == n + 1);
                assert forall|k: int| 0 <= k < self.capacity implies ((
                #[trigger] self.buffer@[self.slot(k)]) is Some <==> k < self.count()) by {
                    assert(self.slot(k) == before.slot(k));
                    if k != n {
                        assert(self.buffer@[self.slot(k)] == before.buffer@[before.slot(k)]);
                    }
                }
                assert forall|k: int| 0 <= k < n implies self@[k] == before@[k] by {
                    assert(self.slot(k) == before.slot(k));
                }
                assert(self@ =~= before@.push(item));
            }
            Ok(())
        }
    }

    /// Removes the oldest item and returns it. An empty buffer has nothing
    /// to return and stays as it was.
    pub fn read(&mut self) -> (result: Result<T, &'static str>)
        requires
            old(self).wf(),
        ensures
            final(self).wf(),
            final(self).spec_capacity() == old(self).spec_capacity(),
            old(self)@.len() > 0 ==> result == Ok::<T, &'static str>(old(self)@[0]) && final(self)@
                == old(self)@.drop_first(),
            old(self)@.len() == 0 ==> (result matches Err(message) && message@
                == "Buffer is empty"@) && final(self)@ == old(self)@,
    {
        if self.is_empty() {
            return Err("Buffer is empty");
        }
        let ghost before = *self;
        proof {
            assert(before.slot(0) == before.front);
        }
        // takes the value from the read index and replaces it with None
        let item = self.buffer[self.front].take().unwrap();
        // read index
        self.front = (self.front + 1) % self.capacity;
        proof {
            let n = before.count();
            lemma_next_index(before.front as int, before.capacity as int);
            if before.capacity > 1 {
                assert(before.slot(1) == self.front);
                assert(before.buffer@[before.slot(1)] is Some <==> 1 < n);
            }
            assert(self.count() == n - 1);
            assert forall|k: int| 0 <= k < self.capacity implies ((
            #[trigger] self.buffer@[self.slot(k)]) is Some <==> k < self.count()) by {
                if k + 1 < self.capacity {
                    assert(self.slot(k) == before.slot(k + 1));
                    assert(self.buffer@[self.slot(k)] == before.buffer@[before.slot(k + 1)]);
                } else {
                    assert(self.slot(k) == before.front);
                }
            }
            assert forall|k: int| 0 <= k < n - 1 implies self@[k] == before@[k + 1] by {
                assert(self.slot(k) == before.slot(k + 1));
            }
            assert(self@ =~= before@.drop_first());
        }
        Ok(*item)
    }
}

/// The index after `i` on a ring of `n` slots: the next one, or the first
/// after the last.
proof fn lemma_next_index(i: int, n: int)
    requires
        0 <= i < n,
    ensures
        (i + 1) % n == if i + 1 == n {
            0
        } else {
            i + 1
        },
{
    if i + 1 == n {
        vstd::arithmetic::div_mod::lemma_mod_self_0(n);
    } else {
        vstd::arithmetic::div_mod::lemma_small_mod((i + 1) as nat, n as nat);
    }
}

} // verus!
