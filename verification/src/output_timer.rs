//! The change timer of an output in the first generation of the daemon:
//! a configured number of seconds between wallpapers.

use vstd::prelude::*;

verus! {

/// The settings of an output.
#[derive(Debug)]
pub struct Output {
    /// An image or a directory.
    pub path: Option<String>,
    pub mode: Option<()>,
    /// Seconds between two wallpapers.
    pub time: Option<u32>,
}

/// Abstract value of an [`OutputTimer`].
pub struct OutputTimerModel {
    pub time: Option<u32>,
    pub time_changed: u128,
    pub expired: bool,
}

/// When the wallpaper of an output last changed, against its settings.
/// Times are nanoseconds on a monotonic clock read by the caller.
#[derive(Debug)]
pub struct OutputTimer {
    output: Output,
    time_changed: u128,
    pub expired: bool,
}

impl View for OutputTimer {
    type V = OutputTimerModel;

    closed spec fn view(&self) -> OutputTimerModel {
        OutputTimerModel { time: self.output.time, time_changed: self.time_changed, expired: self.expired }
    }
}

impl OutputTimer {
    /// The settings the timer follows.
    pub closed spec fn output(&self) -> Output {
        self.output
    }

    /// Follow the new settings `output`.
    pub fn update_output(&mut self, output: Output)
        ensures
            final(self)@ == (OutputTimerModel { time: output.time, ..old(self)@ }),
            final(self).output() == output,
    {
        self.output = output;
    }

    /// Whether the configured time has passed at `now` since the wallpaper
    /// last changed; when it has, the timer is marked expired and counts
    /// from `now`.
    pub fn check_timeout(&mut self, now: u128) -> (expired: bool)
        requires
            now >= old(self)@.time_changed,
        ensures
            expired == (old(self)@.time matches Some(t) && now - old(self)@.time_changed > t
                * 1_000_000_000),
            final(self)@ == if expired {
                OutputTimerModel { time_changed: now, expired: true, ..old(self)@ }
            } else {
                old(self)@
            },
            final(self).output() == old(self).output(),
    {
        // The settings might have changed.
        if let Some(duration) = self.output.time {
            if now - self.time_changed > duration as u128 * 1_000_000_000 {
                self.expired = true;
                self.time_changed = now;
                return true;
            }
        }
        false
    }

    /// A timer for `output` that counts from `now`, not expired.
    pub fn new(output: Output, now: u128) -> (t: OutputTimer)
        ensures
            t@ == (OutputTimerModel { time: output.time, time_changed: now, expired: false }),
            t.output() == output,
    {
        OutputTimer { output, time_changed: now, expired: false }
    }
}

} // verus!
