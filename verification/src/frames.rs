//! The frame counter of the simulation loops, which report the frame rate
//! every ten frames once at least a second has passed.

use vstd::prelude::*;

verus! {

/// Frames counted since the last report.
#[derive(Debug)]
pub struct FrameCounter {
    pub itr: usize,
}

impl FrameCounter {
    pub fn new() -> (c: FrameCounter)
        ensures
            c.itr == 0,
    {
        FrameCounter { itr: 0 }
    }

    /// Counts a frame; returns whether the clock is to be read now, which is
    /// every tenth frame, starting with the first.
    pub fn tick(&mut self) -> (read_clock: bool)
        requires
            old(self).itr < usize::MAX,
        ensures
            final(self).itr == old(self).itr + 1,
            read_clock == (final(self).itr % 10 == 1),
    {
        self.itr = self.itr + 1;
        self.itr % 10 == 1
    }

    /// Takes the whole seconds elapsed since the last report. Under one
    /// second nothing is reported and counting goes on; otherwise the
    /// number of frames to report is returned and counting starts again.
    pub fn clock(&mut self, elapsed_secs: u64) -> (report: Option<usize>)
        ensures
            elapsed_secs < 1 ==> report is None && final(self).itr == old(self).itr,
            elapsed_secs >= 1 ==> report == Some(old(self).itr) && final(self).itr == 0,
    {
        if elapsed_secs < 1 {
            return None;
        }
        let frames = self.itr;
        self.itr = 0;
        Some(frames)
    }
}

} // verus!
