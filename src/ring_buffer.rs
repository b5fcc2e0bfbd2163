//! Bounded single-producer/single-consumer message queue.
//!
//! Messages are moved into slots that were allocated once, at construction;
//! sending and receiving never allocate and never wait. The producer only
//! advances `write_index`, the consumer only advances `read_index`.

use vstd::prelude::*;

verus! {

/// A bounded first-in first-out queue over a fixed array of `capacity` slots.
pub struct RingBuffer<T> {
    /// Slot `i` holds a message exactly when it lies between the read and the write position.
    storage: Vec<Option<T>>,
    /// Number of slots; never zero.
    cap: usize,
    /// Slot that the next sent message goes to.
    write_index: usize,
    /// Slot of the oldest unread message.
    read_index: usize,
    /// Number of unread messages.
    count: usize,
}

/// Slot `k` positions after `start` on a ring of `cap` slots, for `k < cap`.
spec fn ring_slot(start: int, k: int, cap: int) -> int {
    if start + k < cap {
        start + k
    } else {
        start + k - cap
    }
}

/// The queue after sending each of `vs` in order, every send succeeding.
pub open spec fn after_sends<T>(q: Seq<T>, vs: Seq<T>) -> Seq<T>
    decreases vs.len(),
{
    if vs.len() == 0 {
        q
    } else {
        after_sends(q.push(vs[0]), vs.drop_first())
    }
}

/// What `n` receives from a queue holding `q` return, in the order they return it.
pub open spec fn receives<T>(q: Seq<T>, n: nat) -> Seq<T>
    decreases n,
{
    if n == 0 || q.len() == 0 {
        Seq::empty()
    } else {
        seq![q[0]] + receives(q.drop_first(), (n - 1) as nat)
    }
}

/// Whether a queue holding `q` takes one more message.
pub open spec fn accepts<T>(q: Seq<T>, cap: nat) -> bool {
    q.len() < cap
}

proof fn lemma_after_sends<T>(q: Seq<T>, vs: Seq<T>)
    ensures
        after_sends(q, vs) == q + vs,
    decreases vs.len(),
{
    if vs.len() > 0 {
        lemma_after_sends(q.push(vs[0]), vs.drop_first());
        assert(q.push(vs[0]) + vs.drop_first() =~= q + vs);
    } else {
        assert(q + vs =~= q);
    }
}

proof fn lemma_receives_all<T>(q: Seq<T>)
    ensures
        receives(q, q.len()) == q,
    decreases q.len(),
{
    if q.len() > 0 {
        lemma_receives_all(q.drop_first());
        assert(seq![q[0]] + q.drop_first() =~= q);
    }
}

/// First in, first out: after `vs.len()` successful sends into an empty queue,
/// as many receives return the items of `vs` in the order they were sent.
pub proof fn lemma_fifo<T>(vs: Seq<T>)
    ensures
        receives(after_sends(Seq::<T>::empty(), vs), vs.len()) == vs,
{
    lemma_after_sends(Seq::<T>::empty(), vs);
    assert(Seq::<T>::empty() + vs =~= vs);
    lemma_receives_all(vs);
}

/// A queue of capacity `cap`, empty at first, accepts each of the first `cap`
/// sends and refuses the next one; after one receive it accepts one more.
pub proof fn lemma_capacity<T>(vs: Seq<T>, cap: nat)
    requires
        vs.len() == cap,
    ensures
        forall|k: int| 0 <= k < cap ==> accepts(after_sends(Seq::<T>::empty(), #[trigger] vs.take(k)), cap),
        !accepts(after_sends(Seq::<T>::empty(), vs), cap),
        cap > 0 ==> accepts(after_sends(Seq::<T>::empty(), vs).drop_first(), cap),
{
    assert forall|k: int| 0 <= k < cap implies accepts(
        after_sends(Seq::<T>::empty(), #[trigger] vs.take(k)),
        cap,
    ) by {
        lemma_after_sends(Seq::<T>::empty(), vs.take(k));
    }
    lemma_after_sends(Seq::<T>::empty(), vs);
}

impl<T> View for RingBuffer<T> {
    type V = Seq<T>;

    /// The unread messages, oldest first.
    closed spec fn view(&self) -> Seq<T> {
        Seq::new(
            self.count as nat,
            |k: int| self.storage@[ring_slot(self.read_index as int, k, self.cap as int)]->Some_0,
        )
    }
}

impl<T> RingBuffer<T> {
    /// Number of messages the queue can hold at once.
    pub closed spec fn capacity(&self) -> nat {
        self.cap as nat
    }

    /// The queue's internal invariant: the unread messages occupy the slots from
    /// `read_index` up to `write_index`, going round the ring.
    pub closed spec fn wf(&self) -> bool {
        &&& self.cap > 0
        &&& self.storage@.len() == self.cap
        &&& self.read_index < self.cap
        &&& self.count <= self.cap
        &&& self.write_index == ring_slot(self.read_index as int, self.count as int, self.cap as int)
        &&& forall|k: int|
            0 <= k < self.count ==> (#[trigger] self.storage@[ring_slot(
                self.read_index as int,
                k,
                self.cap as int,
            )]).is_some()
    }

    /// Creates an empty queue with room for `capacity` messages. This is the only allocation.
    pub fn new(capacity: usize) -> (r: Self)
        requires
            capacity > 0,
        ensures
            r.wf(),
            r.capacity() == capacity,
            r@ == Seq::<T>::empty(),
            r@.len() <= r.capacity(),
    {
        let mut storage: Vec<Option<T>> = Vec::with_capacity(capacity);
        let mut i: usize = 0;
        while i < capacity
            invariant
                i <= capacity,
                storage@.len() == i,
            decreases capacity - i,
        {
            storage.push(None);
            i = i + 1;
        }
        let r = RingBuffer { storage, cap: capacity, write_index: 0, read_index: 0, count: 0 };
        assert(r@ =~= Seq::<T>::empty());
        r
    }

    /// Appends `value` at the back of the queue. When the queue already holds
    /// `capacity` messages it is left unchanged and `value` is handed back.
    pub fn try_send(&mut self, value: T) -> (r: Result<(), T>)
        requires
            old(self).wf(),
        ensures
            final(self).wf(),
            final(self).capacity() == old(self).capacity(),
            final(self)@.len() <= final(self).capacity(),
            if accepts(old(self)@, old(self).capacity()) {
                r == Ok::<(), T>(()) && final(self)@ == old(self)@.push(value)
            } else {
                r == Err::<(), T>(value) && final(self)@ == old(self)@
            },
    {
        if self.count == self.cap {
            return Err(value);
        }
        let ghost old_self = *self;
        let index = self.write_index;
        self.storage.set(index, Some(value));
        self.write_index = if index + 1 == self.cap {
            0
        } else {
            index + 1
        };
        self.count = self.count + 1;
        assert forall|k: int| 0 <= k < self.count implies (#[trigger] self.storage@[ring_slot(
            self.read_index as int,
            k,
            self.cap as int,
        )]).is_some() by {
            if k < old_self.count {
                assert(old_self.storage@[ring_slot(
                    old_self.read_index as int,
                    k,
                    old_self.cap as int,
                )].is_some());
            }
        }
        assert(self@ =~= old_self@.push(value)) by {
            assert forall|k: int| 0 <= k < old_self.count implies self@[k] == old_self@[k] by {
                assert(ring_slot(self.read_index as int, k, self.cap as int) != index);
            }
        }
        Ok(())
    }

    /// Removes and returns the oldest message, or `None` when the queue is empty.
    pub fn try_recv(&mut self) -> (r: Option<T>)
        requires
            old(self).wf(),
        ensures
            final(self).wf(),
            final(self).capacity() == old(self).capacity(),
            final(self)@.len() <= final(self).capacity(),
            old(self)@.len() == 0 ==> r == None::<T> && final(self)@ == old(self)@,
            old(self)@.len() > 0 ==> r == Some(old(self)@[0]) && final(self)@ == old(
                self,
            )@.drop_first(),
    {
        if self.count == 0 {
            return None;
        }
        let ghost old_self = *self;
        let index = self.read_index;
        let mut slot: Option<T> = None;
        self.storage.set_and_swap(index, &mut slot);
        assert(old_self.storage@[ring_slot(index as int, 0, self.cap as int)].is_some());
        self.read_index = if index + 1 == self.cap {
            0
        } else {
            index + 1
        };
        self.count = self.count - 1;
        assert forall|k: int| 0 <= k < self.count implies (#[trigger] self.storage@[ring_slot(
            self.read_index as int,
            k,
            self.cap as int,
        )]).is_some() by {
            assert(ring_slot(self.read_index as int, k, self.cap as int) == ring_slot(
                index as int,
                k + 1,
                self.cap as int,
            ));
            assert(old_self.storage@[ring_slot(index as int, k + 1, self.cap as int)].is_some());
        }
        assert(self@ =~= old_self@.drop_first()) by {
            assert forall|k: int| 0 <= k < self.count implies self@[k] == old_self@[k + 1] by {
                assert(ring_slot(self.read_index as int, k, self.cap as int) == ring_slot(
                    index as int,
                    k + 1,
                    self.cap as int,
                ));
            }
        }
        slot
    }

    /// A queue never holds more than its capacity.
    pub proof fn lemma_len_bounded(&self)
        requires
            self.wf(),
        ensures
            self@.len() <= self.capacity(),
    {
    }

    /// Whether there is nothing to receive.
    pub fn is_empty(&self) -> (r: bool)
        requires
            self.wf(),
        ensures
            r == (self@.len() == 0),
    {
        self.count == 0
    }

    /// Whether a send would be refused.
    pub fn is_full(&self) -> (r: bool)
        requires
            self.wf(),
        ensures
            r == (self@.len() == self.capacity()),
    {
        self.count == self.cap
    }
}

} // verus!
