//! Fixed-length sample buffer for real-time use: allocated once, never resized.

use vstd::prelude::*;

verus! {

/// A block of samples of type `S`, filled with `S::default()` at construction.
#[derive(Clone, Debug, PartialEq)]
pub struct AudioBuffer<S> {
    storage: Vec<S>,
}

impl<S> View for AudioBuffer<S> {
    type V = Seq<S>;

    closed spec fn view(&self) -> Seq<S> {
        self.storage@
    }
}

impl<S: Copy> AudioBuffer<S> {
    /// Creates a buffer of `frame_count` copies of `value`. This is its only allocation.
    pub fn filled(frame_count: usize, value: S) -> (r: Self)
        ensures
            r@ == Seq::new(frame_count as nat, |k: int| value),
    {
        let mut storage: Vec<S> = Vec::with_capacity(frame_count);
        let mut i: usize = 0;
        while i < frame_count
            invariant
                i <= frame_count,
                storage@.len() == i,
                forall|k: int| 0 <= k < i ==> #[trigger] storage@[k] == value,
            decreases frame_count - i,
        {
            storage.push(value);
            i = i + 1;
        }
        let r = AudioBuffer { storage };
        assert(r@ =~= Seq::new(frame_count as nat, |k: int| value));
        r
    }
}

impl<S: Copy + Default> AudioBuffer<S> {
    /// Creates a buffer of `frame_count` default (silent) samples. This is its only allocation.
    pub fn new(frame_count: usize) -> (r: Self)
        ensures
            r@.len() == frame_count,
            forall|k: int| 0 <= k < frame_count ==> call_ensures(S::default, (), #[trigger] r@[k]),
    {
        let zero = S::default();
        AudioBuffer::filled(frame_count, zero)
    }
}

impl<S> AudioBuffer<S> {
    /// Number of samples.
    pub fn len(&self) -> (r: usize)
        ensures
            r == self@.len(),
    {
        self.storage.len()
    }

    /// The samples, for writing. The length cannot change.
    pub fn as_mut_slice(&mut self) -> (r: &mut [S])
        ensures
            r@ == old(self)@,
            final(r)@ == final(self)@,
    {
        self.storage.as_mut_slice()
    }

    /// The samples, for reading.
    pub fn as_slice(&self) -> (r: &[S])
        ensures
            r@ == self@,
    {
        self.storage.as_slice()
    }
}

} // verus!
