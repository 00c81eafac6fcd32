//! When a program that draws frames reports how fast it does.

use vstd::prelude::*;

verus! {

/// How long frames are counted before a report, in nanoseconds.
pub const PERIODIC_WINDOW: u64 = 1_000_000_000;

/// The frames that were drawn, in all and since the last report.
#[derive(Clone, Copy, Debug, PartialEq, Eq, Structural)]
pub struct FpsReporter {
    pub frame_count: u64,
    pub wall_start: Option<u64>,
    pub window_start: Option<u64>,
    pub window_frames: u64,
    pub last_width: usize,
    pub last_height: usize,
}

/// A report: how many frames there were in all, and how many since the last report, in how many
/// nanoseconds.
#[derive(Clone, Copy, Debug, PartialEq, Eq, Structural)]
pub struct WindowReport {
    pub frame_count: u64,
    pub window_frames: u64,
    pub window_elapsed: u64,
}

impl FpsReporter {
    /// Whether the counts and times fit each other.
    pub open spec fn valid(self) -> bool {
        &&& self.window_frames <= self.frame_count
        &&& (self.wall_start is Some) == (self.window_start is Some)
        &&& self.frame_count > 0 ==> self.wall_start is Some
        &&& self.wall_start matches Some(first) ==> (self.window_start matches Some(start) && first
            <= start)
    }

    /// The first moment of the window that a frame falls into.
    pub open spec fn window_from(self, now: u64) -> u64 {
        match self.window_start {
            Some(start) => start,
            None => now,
        }
    }

    /// The reporter of no frame.
    pub fn new() -> (result: FpsReporter)
        ensures
            result.valid(),
            result.frame_count == 0,
            result.window_frames == 0,
            result.wall_start is None,
            result.last_width == 0,
            result.last_height == 0,
    {
        FpsReporter {
            frame_count: 0,
            wall_start: None,
            window_start: None,
            window_frames: 0,
            last_width: 0,
            last_height: 0,
        }
    }

    /// Counts a frame that ended at a moment, and reports once the window is over. The next window
    /// then starts at that moment.
    pub fn observe(&mut self, now: u64, width: usize, height: usize) -> (result: Option<
        WindowReport,
    >)
        requires
            old(self).valid(),
            old(self).frame_count < u64::MAX,
            old(self).window_from(now) <= now,
        ensures
            final(self).valid(),
            final(self).frame_count == old(self).frame_count + 1,
            final(self).last_width == width,
            final(self).last_height == height,
            final(self).wall_start == Some(
                match old(self).wall_start {
                    Some(first) => first,
                    None => now,
                },
            ),
            match result {
                Some(report) => now - old(self).window_from(now) >= PERIODIC_WINDOW && report == (
                WindowReport {
                    frame_count: (old(self).frame_count + 1) as u64,
                    window_frames: (old(self).window_frames + 1) as u64,
                    window_elapsed: (now - old(self).window_from(now)) as u64,
                }) && final(self).window_start == Some(now) && final(self).window_frames == 0,
                None => now - old(self).window_from(now) < PERIODIC_WINDOW
                    && final(self).window_start == Some(old(self).window_from(now))
                    && final(self).window_frames == old(self).window_frames + 1,
            },
    {
        let start: u64 = match self.window_start {
            Some(start) => start,
            None => now,
        };
        if self.wall_start.is_none() {
            self.wall_start = Some(now);
        }
        self.window_start = Some(start);
        self.frame_count = self.frame_count + 1;
        self.window_frames = self.window_frames + 1;
        self.last_width = width;
        self.last_height = height;
        let elapsed: u64 = now - start;
        if elapsed >= PERIODIC_WINDOW {
            let report: WindowReport = WindowReport {
                frame_count: self.frame_count,
                window_frames: self.window_frames,
                window_elapsed: elapsed,
            };
            self.window_start = Some(now);
            self.window_frames = 0;
            Some(report)
        } else {
            None
        }
    }
}

} // verus!
