//! Cyclic delivery of split frames to a decoding sink.
//!
//! A playback loop delivers the frames of a split over and over, oldest
//! first: on each tick it hands the sink the frame at `counter % count`,
//! flags it as a key unit exactly when that index is `0` (the start of a
//! fresh cycle), and advances the counter. The surrounding application
//! owns the timer and the sink; this module owns the decision.

use vstd::prelude::*;

verus! {

/// The state of a cyclic playback loop: how many ticks have elapsed.
#[derive(Clone, Copy, Debug, PartialEq, Eq, Structural)]
pub struct Playback {
    /// Number of frames delivered so far.
    pub counter: usize,
}

/// The frame index a playback loop delivers on tick `counter` of a cycle
/// over `count` frames.
pub open spec fn delivery_index(counter: usize, count: usize) -> int
    recommends
        count > 0,
{
    counter as int % count as int
}

impl Playback {
    /// A playback loop that has delivered nothing yet.
    pub fn new() -> (r: Playback)
        ensures
            r.counter == 0,
    {
        Playback { counter: 0 }
    }

    /// Decides the next delivery: which frame index to hand to the sink,
    /// and whether to flag it as a key unit, then advances the loop.
    pub fn tick(&mut self, frame_count: usize) -> (r: (usize, bool))
        requires
            frame_count > 0,
            old(self).counter < usize::MAX,
        ensures
            r.0 == delivery_index(old(self).counter, frame_count),
            r.0 < frame_count,
            r.1 <==> delivery_index(old(self).counter, frame_count) == 0,
            final(self).counter == old(self).counter + 1,
    {
        let index = self.counter % frame_count;
        let is_key = index == 0;
        self.counter = self.counter + 1;
        (index, is_key)
    }
}

} // verus!
