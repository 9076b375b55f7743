//! When the periodic workers run: each kind on its own fixed period, and a
//! tick that comes while the previous run of the same worker is still going
//! is dropped, never queued.

use vstd::prelude::*;

verus! {

/// The periodic workers.
#[derive(Debug, Clone, Copy, PartialEq, Eq, Structural)]
pub enum WorkerKind {
    /// Pulls wallet balances.
    Balance,
    /// Pulls prices.
    Price,
    /// Pulls the wallet structure.
    Wallet,
}

/// Seconds between two ticks of a worker.
pub open spec fn period_of(kind: WorkerKind) -> u64 {
    match kind {
        WorkerKind::Balance => 300,
        WorkerKind::Price => 60,
        WorkerKind::Wallet => 3600,
    }
}

impl WorkerKind {
    /// Seconds between two ticks: five minutes for balances, one minute for
    /// prices, one hour for the wallet structure.
    pub fn period_secs(&self) -> (r: u64)
        ensures
            r == period_of(*self),
    {
        match self {
            WorkerKind::Balance => 300,
            WorkerKind::Price => 60,
            WorkerKind::Wallet => 3600,
        }
    }
}

/// What to do on a tick.
#[derive(Debug, Clone, Copy, PartialEq, Eq, Structural)]
pub enum TickAction {
    /// Start a run now.
    Start,
    /// Drop this tick: a run is still going.
    Skip,
}

/// Whether a worker's run is in progress.
#[derive(Debug, Clone, Copy, PartialEq, Eq, Structural)]
pub struct WorkerState {
    running: bool,
}

/// A tick from a state in which a run is (or is not) going: the next state
/// and the action.
pub open spec fn tick_spec(running: bool) -> (bool, TickAction) {
    if running {
        (true, TickAction::Skip)
    } else {
        (true, TickAction::Start)
    }
}

/// How many runs a worker has going in a state: one or none.
pub open spec fn runs_in_progress(running: bool) -> nat {
    if running {
        1
    } else {
        0
    }
}

impl WorkerState {
    pub closed spec fn running(&self) -> bool {
        self.running
    }

    /// A worker with no run going.
    pub fn new() -> (r: Self)
        ensures
            !r.running(),
    {
        WorkerState { running: false }
    }

    /// Whether a run is going.
    pub fn is_running(&self) -> (r: bool)
        ensures
            r == self.running(),
    {
        self.running
    }

    /// A tick: start a run if none is going, else drop the tick.
    pub fn on_tick(&mut self) -> (r: TickAction)
        ensures
            (final(self).running(), r) == tick_spec(old(self).running()),
    {
        if self.running {
            TickAction::Skip
        } else {
            self.running = true;
            TickAction::Start
        }
    }

    /// The run that was going has completed.
    pub fn on_finished(&mut self)
        ensures
            !final(self).running(),
    {
        self.running = false;
    }
}

/// Two ticks of one worker with no completion between them start exactly one
/// run: from an idle worker the first tick starts it and the second is
/// dropped; from a busy worker both are dropped; either way one run is going
/// afterwards and nothing waits.
pub proof fn lemma_overlapping_ticks_run_once(running: bool)
    ensures
        ({
            let (after_first, first) = tick_spec(running);
            let (after_second, second) = tick_spec(after_first);
            &&& second == TickAction::Skip
            &&& (first == TickAction::Start <==> !running)
            &&& runs_in_progress(after_second) == 1
        }),
{
}

/// No state has more than one run going, whatever ticks come.
pub proof fn lemma_at_most_one_run(running: bool)
    ensures
        runs_in_progress(running) <= 1,
        runs_in_progress(tick_spec(running).0) == 1,
{
}

} // verus!
