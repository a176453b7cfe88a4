//! The state of the periodic flush: explicit start and stop, and the rule
//! that a failed tick never ends the schedule.
use vstd::prelude::*;
use crate::exporter::FlushError;

verus! {

/// Why a periodic schedule could not be set up.
#[derive(Debug, Clone, Copy, PartialEq, Eq)]
pub enum SchedulerError {
    /// An interval of zero seconds.
    ZeroInterval,
    /// An interval over `u32::MAX` seconds, which the timer cannot hold.
    IntervalTooLong,
}

/// A periodic flush schedule.
pub struct Scheduler {
    /// Seconds between two ticks.
    pub interval_secs: u32,
    /// Whether ticks run.
    pub running: bool,
    /// Ticks that ran, saturating.
    pub ticks: u64,
    /// Ticks whose flush failed, saturating.
    pub failed_ticks: u64,
}

impl Scheduler {
    /// A stopped schedule that fires every `interval_secs` seconds.
    pub fn new(interval_secs: u64) -> (r: Result<Scheduler, SchedulerError>)
        ensures
            interval_secs == 0 <==> r == Err::<Scheduler, SchedulerError>(
                SchedulerError::ZeroInterval,
            ),
            interval_secs > u32::MAX <==> r == Err::<Scheduler, SchedulerError>(
                SchedulerError::IntervalTooLong,
            ),
            r matches Ok(s) ==> s.interval_secs == interval_secs && !s.running && s.ticks == 0
                && s.failed_ticks == 0,
    {
        if interval_secs == 0 {
            Err(SchedulerError::ZeroInterval)
        } else if interval_secs > u32::MAX as u64 {
            Err(SchedulerError::IntervalTooLong)
        } else {
            Ok(Scheduler { interval_secs: interval_secs as u32, running: false, ticks: 0, failed_ticks: 0 })
        }
    }

    pub fn start(&mut self)
        ensures
            final(self).running,
            final(self).interval_secs == old(self).interval_secs,
            final(self).ticks == old(self).ticks,
            final(self).failed_ticks == old(self).failed_ticks,
    {
        self.running = true;
    }

    pub fn stop(&mut self)
        ensures
            !final(self).running,
            final(self).interval_secs == old(self).interval_secs,
            final(self).ticks == old(self).ticks,
            final(self).failed_ticks == old(self).failed_ticks,
    {
        self.running = false;
    }

    /// Records the outcome of one tick's flush. Whatever it was, the
    /// schedule goes on as it was: a failure is counted, never raised.
    pub fn record_tick(&mut self, outcome: &Result<(), FlushError>)
        ensures
            final(self).running == old(self).running,
            final(self).interval_secs == old(self).interval_secs,
            final(self).ticks == if old(self).ticks == u64::MAX {
                u64::MAX
            } else {
                (old(self).ticks + 1) as u64
            },
            final(self).failed_ticks == if outcome is Err && old(self).failed_ticks < u64::MAX {
                (old(self).failed_ticks + 1) as u64
            } else {
                old(self).failed_ticks
            },
    {
        self.ticks = self.ticks.saturating_add(1);
        if outcome.is_err() {
            self.failed_ticks = self.failed_ticks.saturating_add(1);
        }
    }
}

} // verus!
