//! Instructions from the control thread to the audio thread.
//!
//! Each fits one slot of a [`RingBuffer`](crate::ring_buffer::RingBuffer): no
//! variant owns more than one heap object, the plan to install.

use vstd::prelude::*;

verus! {

/// Instruction from the control thread to the audio thread; `G` is the gain
/// value and `P` the plan type.
#[derive(Debug, Clone, PartialEq)]
pub enum Command<G, P> {
    /// Does nothing.
    NoOp,
    /// Sets the gain of the fallback chain.
    SetGain(G),
    /// Silences the output from the next block on.
    Quit,
    /// Undoes `Quit`.
    Resume,
    /// Installs a new plan.
    SwapGraph(P),
}

} // verus!
