//! Notifications from the audio thread to the control thread.
//!
//! Each fits one slot of a [`RingBuffer`](crate::ring_buffer::RingBuffer): no
//! variant owns more than one heap object, the displaced plan, which travels to
//! the control thread so that it is freed there.

use vstd::prelude::*;

verus! {

/// Notification from the audio thread to the control thread; `P` is the plan type.
#[derive(Debug, Clone, PartialEq)]
pub enum Event<P> {
    /// Does nothing.
    NoOp,
    /// The audio thread installed a new plan; this is the one it displaced, to be
    /// dropped on the control thread.
    GraphSwapped(P),
    /// The audio thread stopped the stream.
    StreamStopped,
}

} // verus!
