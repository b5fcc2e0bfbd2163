//! The processing interface that every node implements, generic in the sample type.

use vstd::prelude::*;
use crate::audio_buffer::AudioBuffer;

verus! {

/// The input blocks that `indices` picks out of `buffers`, in the order of `indices`.
pub open spec fn gather<S>(buffers: Seq<Seq<S>>, indices: Seq<usize>) -> Seq<Seq<S>> {
    indices.map_values(|j: usize| buffers[j as int])
}

/// The contents of each buffer.
pub open spec fn contents<S>(buffers: Seq<AudioBuffer<S>>) -> Seq<Seq<S>> {
    buffers.map_values(|b: AudioBuffer<S>| b@)
}

/// One unit of signal processing. `S` is the sample type.
pub trait Processor<S>: Sized {
    /// Whether a node in state `self`, given the input blocks `inputs` and an output
    /// block holding `out0`, may end in state `after` having written `out1`. A node
    /// type that states nothing of its samples keeps this default, which admits
    /// every outcome.
    open spec fn produces(&self, inputs: Seq<Seq<S>>, out0: Seq<S>, after: Self, out1: Seq<S>) -> bool {
        true
    }

    /// Fills `output` for one block. Its inputs are the buffers of `buffers` that
    /// `inputs` lists, in that order. Called on the audio thread: implementations
    /// must not allocate or block. A slice keeps its length.
    fn process(&mut self, buffers: &[AudioBuffer<S>], inputs: &[usize], output: &mut [S])
        requires
            forall|k: int| 0 <= k < inputs@.len() ==> #[trigger] inputs@[k] < buffers@.len(),
        ensures
            final(output)@.len() == old(output)@.len(),
            old(self).produces(
                gather(contents(buffers@), inputs@),
                old(output)@,
                *final(self),
                final(output)@,
            ),
    ;
}

/// Sets every sample of `output` to `value`.
pub fn fill<S: Copy>(output: &mut [S], value: S)
    ensures
        final(output)@.len() == old(output)@.len(),
        forall|k: int| 0 <= k < final(output)@.len() ==> #[trigger] final(output)@[k] == value,
{
    let n = output.len();
    let mut i: usize = 0;
    while i < n
        invariant
            n == output@.len(),
            i <= n,
            forall|k: int| 0 <= k < i ==> #[trigger] output@[k] == value,
        decreases n - i,
    {
        output[i] = value;
        i = i + 1;
    }
}

/// A node that outputs silence (the sample type's default) whatever its inputs.
pub struct Silence;

impl<S: Copy + Default> Processor<S> for Silence {
    /// Every sample written is the sample type's default.
    open spec fn produces(&self, inputs: Seq<Seq<S>>, out0: Seq<S>, after: Self, out1: Seq<S>) -> bool {
        &&& out1.len() == out0.len()
        &&& forall|k: int| 0 <= k < out1.len() ==> call_ensures(S::default, (), #[trigger] out1[k])
    }

    fn process(&mut self, buffers: &[AudioBuffer<S>], inputs: &[usize], output: &mut [S]) {
        let silence = S::default();
        fill(output, silence);
    }
}

} // verus!
