//! Progress display choices, the per-batch log throttle, and a wall-clock timer.

use core::time::Duration;
use std::time::Instant;
use vstd::prelude::*;

verus! {

/// How progress is shown.
#[derive(Copy, Clone, Debug, PartialEq, Eq, Structural)]
pub enum ProgressDisplay {
    Off,
    Bar,
    Lines,
}

/// The display for a run: none unless verbose, a bar on a terminal, plain lines otherwise.
pub open spec fn display_for(verbose: bool, stderr_is_terminal: bool) -> ProgressDisplay {
    if !verbose {
        ProgressDisplay::Off
    } else if stderr_is_terminal {
        ProgressDisplay::Bar
    } else {
        ProgressDisplay::Lines
    }
}

/// Chooses the display for a run from the verbosity and whether stderr is a terminal.
pub fn select_display(verbose: bool, stderr_is_terminal: bool) -> (r: ProgressDisplay)
    ensures
        r == display_for(verbose, stderr_is_terminal),
{
    if !verbose {
        ProgressDisplay::Off
    } else if stderr_is_terminal {
        ProgressDisplay::Bar
    } else {
        ProgressDisplay::Lines
    }
}

/// The step between logged batches of a long run: a twentieth of the batches, at least one.
pub open spec fn log_step(total: nat) -> nat {
    if total / 20 >= 1 {
        total / 20
    } else {
        1
    }
}

/// Whether batch `index` of `total` is logged: every batch of a run of at most 50, else
/// every `log_step`-th batch and the last one.
pub open spec fn logs_batch(index: nat, total: nat) -> bool {
    total <= 50 || index % log_step(total) == 0 || index + 1 == total
}

/// Throttles per-batch logs when there are many chunks (about 5% steps, and the last batch).
pub fn should_log_batch(index: usize, total: usize) -> (r: bool)
    ensures
        r == logs_batch(index as nat, total as nat),
{
    if total <= 50 {
        return true;
    }
    let step = if total / 20 >= 1 {
        total / 20
    } else {
        1
    };
    index % step == 0 || index == total - 1
}

/// Law: the first and the last batch of every run are logged, and so is every batch of a
/// run of at most 50.
pub proof fn law_first_and_last_batches_logged(total: nat, index: nat)
    requires
        total > 0,
    ensures
        logs_batch(0, total),
        logs_batch((total - 1) as nat, total),
        total <= 50 ==> logs_batch(index, total),
{
    assert(0nat % log_step(total) == 0) by (nonlinear_arith)
        requires
            log_step(total) >= 1,
    ;
}

/// `std::time::Instant`, used as an opaque value.
#[verifier::external_type_specification]
#[verifier::external_body]
pub struct ExInstant(Instant);

/// `Instant::now`: the current time of the machine's monotonic clock.
#[verifier::external_body]
fn clock_now() -> Instant {
    Instant::now()
}

/// `Instant::elapsed`: the time since `start`.
#[verifier::external_body]
fn clock_since(start: &Instant) -> Duration {
    start.elapsed()
}

/// Wall-clock timer for a pass or a whole run.
pub struct ProgressTimer {
    start: Instant,
}

impl ProgressTimer {
    /// Starts timing now.
    pub fn start() -> Self {
        ProgressTimer { start: clock_now() }
    }

    /// The time since the timer started.
    pub fn elapsed(&self) -> Duration {
        clock_since(&self.start)
    }
}

}
