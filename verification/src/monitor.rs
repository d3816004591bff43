use vstd::prelude::*;

verus! {

/// Seconds between two progress reports.
pub const REPORT_INTERVAL_SECS: u64 = 60;

/// Seconds in an hour.
pub const SECS_PER_HOUR: u64 = 3600;

/// What the supervising loop does after a tick of its clock.
#[derive(Debug, Clone, Copy, PartialEq, Eq, Structural)]
pub enum TickAction {
    /// Keep waiting.
    Wait,
    /// Print a progress report.
    Report,
    /// Print a progress report, then end the run: the target duration is reached.
    Complete,
}

/// The supervising loop's clock: when to report and when the run is over.
pub struct Monitor {
    target_secs: u64,
    reported: bool,
}

impl Monitor {
    /// Length of the run in seconds.
    pub closed spec fn target(&self) -> u64 {
        self.target_secs
    }

    /// Whether a report has been made yet.
    pub closed spec fn has_reported(&self) -> bool {
        self.reported
    }

    /// The clock of a run of `hours` hours, before its first report.
    pub fn new(hours: u32) -> (m: Monitor)
        ensures
            m.target() == hours as nat * SECS_PER_HOUR as nat,
            !m.has_reported(),
    {
        Monitor { target_secs: hours as u64 * SECS_PER_HOUR, reported: false }
    }

    /// Length of the run in seconds.
    pub fn target_secs(&self) -> (t: u64)
        ensures
            t == self.target(),
    {
        self.target_secs
    }

    /// Decides what to do at a tick, `elapsed_secs` whole seconds after the
    /// start and `since_report_secs` whole seconds after the last report:
    /// report at the first tick and whenever a full interval has passed since
    /// the last report; when reporting with the target duration reached, end
    /// the run.
    pub fn tick(&mut self, elapsed_secs: u64, since_report_secs: u64) -> (action: TickAction)
        ensures
            final(self).target() == old(self).target(),
            action == (if !old(self).has_reported() || since_report_secs >= REPORT_INTERVAL_SECS {
                if elapsed_secs >= old(self).target() {
                    TickAction::Complete
                } else {
                    TickAction::Report
                }
            } else {
                TickAction::Wait
            }),
            final(self).has_reported() == (old(self).has_reported() || action != TickAction::Wait),
    {
        if since_report_secs >= REPORT_INTERVAL_SECS || !self.reported {
            self.reported = true;
            if elapsed_secs >= self.target_secs {
                TickAction::Complete
            } else {
                TickAction::Report
            }
        } else {
            TickAction::Wait
        }
    }
}

} // verus!
