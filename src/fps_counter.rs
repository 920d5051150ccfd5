//! A named frame counter that reports the frame rate once per period.
//!
//! The counter holds no clock: the caller measures the time since the last
//! report and hands it to `tick`, and formats the report it gets back.

use vstd::prelude::*;

verus! {

/// How many frames went by in how many milliseconds.
#[derive(Clone, Copy, Debug, PartialEq, Eq, Structural)]
pub struct FrameReport {
    pub frames: u32,
    pub elapsed_ms: u64,
}

pub struct FPSCounter {
    pub name: String,
    /// Seconds between two reports.
    pub update_period: u64,
    /// Frames since the last report.
    pub elapsed_frames: u32,
}

impl FPSCounter {
    pub fn new(name: String, update_period: u64) -> (r: FPSCounter)
        ensures
            r.name@ == name@,
            r.update_period == update_period,
            r.elapsed_frames == 0,
    {
        FPSCounter { name, update_period, elapsed_frames: 0 }
    }

    /// Counts one frame, `elapsed_ms` milliseconds after the last report. Once
    /// more than the period has gone by, hands back the frames counted,
    /// this one included, with the time, and starts counting afresh. The count
    /// stops at the largest `u32`.
    pub fn tick(&mut self, elapsed_ms: u64) -> (r: Option<FrameReport>)
        ensures
            final(self).name@ == old(self).name@,
            final(self).update_period == old(self).update_period,
            ({
                let frames = if old(self).elapsed_frames < u32::MAX {
                    old(self).elapsed_frames + 1
                } else {
                    u32::MAX as int
                };
                if elapsed_ms > old(self).update_period * 1000 {
                    r == Some(FrameReport { frames: frames as u32, elapsed_ms })
                        && final(self).elapsed_frames == 0
                } else {
                    r is None && final(self).elapsed_frames == frames
                }
            }),
    {
        if self.elapsed_frames < u32::MAX {
            self.elapsed_frames = self.elapsed_frames + 1;
        }
        if (elapsed_ms as u128) > (self.update_period as u128) * 1000 {
            let report = FrameReport { frames: self.elapsed_frames, elapsed_ms };
            self.elapsed_frames = 0;
            Some(report)
        } else {
            None
        }
    }
}

} // verus!
