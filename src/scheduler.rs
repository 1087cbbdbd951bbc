use vstd::prelude::*;

verus! {

/// Periodic background sync: disabled when the interval is zero.
pub struct SyncScheduler {
    pub interval_minutes: u64,
    pub is_running: bool,
}

/// What starting the scheduler decided.
#[derive(PartialEq, Eq, Structural, Clone, Copy, Debug)]
pub enum SchedulerStart {
    /// Interval zero: no timer is armed.
    Disabled,
    AlreadyRunning,
    /// Arm a timer that fires every `period_secs` seconds.
    Started { period_secs: u64 },
}

/// Seconds in `minutes`, saturating at the largest `u64`.
pub open spec fn period_of(minutes: u64) -> u64 {
    if minutes * 60 <= u64::MAX { (minutes * 60) as u64 } else { u64::MAX }
}

impl SyncScheduler {
    pub fn new(interval_minutes: u64) -> (r: SyncScheduler)
        ensures
            r.interval_minutes == interval_minutes,
            !r.is_running,
    {
        SyncScheduler { interval_minutes, is_running: false }
    }

    pub fn start(&mut self) -> (r: SchedulerStart)
        ensures
            final(self).interval_minutes == old(self).interval_minutes,
            old(self).interval_minutes == 0 ==> r == SchedulerStart::Disabled && *final(self) == *old(self),
            old(self).interval_minutes != 0 && old(self).is_running ==> r == SchedulerStart::AlreadyRunning
                && *final(self) == *old(self),
            old(self).interval_minutes != 0 && !old(self).is_running ==> r == (SchedulerStart::Started {
                period_secs: period_of(old(self).interval_minutes),
            }) && final(self).is_running,
    {
        if self.interval_minutes == 0 {
            return SchedulerStart::Disabled;
        }
        if self.is_running {
            return SchedulerStart::AlreadyRunning;
        }
        self.is_running = true;
        let period = if self.interval_minutes <= u64::MAX / 60 {
            self.interval_minutes * 60
        } else {
            u64::MAX
        };
        SchedulerStart::Started { period_secs: period }
    }

    /// Flips the running flag; an active sync is not cancelled.
    pub fn stop(&mut self)
        ensures
            !final(self).is_running,
            final(self).interval_minutes == old(self).interval_minutes,
    {
        self.is_running = false;
    }
}

} // verus!
