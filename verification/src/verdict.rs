//! The decisions of a sweep: whether to begin it, and what to make of its end.

use vstd::prelude::*;

verus! {

/// What a sweep found.
#[derive(Clone, Copy, Debug, PartialEq, Eq, Structural)]
pub enum SweepOutcome {
    /// All operators have finished, or what was in flight has drained.
    Completed,
    /// Nothing moved for a while and nothing is awaited.
    Quiescent,
    /// Some operator made progress.
    MadeProgress,
    /// Nothing moved, but not for long enough to draw conclusions.
    Idle,
    /// Nothing moved for a while, but something is awaited.
    WaitingForInput,
}

/// What is done about wake-ups after a sweep.
#[derive(Clone, Copy, Debug, PartialEq, Eq, Structural)]
pub enum Signal {
    /// Nothing: the next sweep follows at once.
    Nothing,
    /// Nobody is woken any more.
    Clear,
    /// The caller is woken when there is something to do.
    Register,
    /// The caller is woken at once.
    RegisterAndNotify,
}

/// Where it is over, nobody is woken any more. Where something is awaited, the caller is woken when it
/// comes. Where no more sweeps are allowed for now, the caller is woken at once.
pub open spec fn signal_after(outcome: Option<SweepOutcome>, spent: bool) -> Signal {
    match outcome {
        None | Some(SweepOutcome::Completed) | Some(SweepOutcome::Quiescent) => Signal::Clear,
        Some(SweepOutcome::WaitingForInput) => Signal::Register,
        Some(SweepOutcome::MadeProgress) | Some(SweepOutcome::Idle) => if spent {
            Signal::RegisterAndNotify
        } else {
            Signal::Nothing
        },
    }
}

/// Decides what is done about wake-ups after a sweep that came to `outcome`, or failed.
pub fn decide_signal(outcome: Option<SweepOutcome>, spent: bool) -> (signal: Signal)
    ensures
        signal == signal_after(outcome, spent),
{
    match outcome {
        None | Some(SweepOutcome::Completed) | Some(SweepOutcome::Quiescent) => Signal::Clear,
        Some(SweepOutcome::WaitingForInput) => Signal::Register,
        Some(SweepOutcome::MadeProgress) | Some(SweepOutcome::Idle) => if spent {
            Signal::RegisterAndNotify
        } else {
            Signal::Nothing
        },
    }
}

/// What to do about a request to stop.
#[derive(Clone, Copy, Debug, PartialEq, Eq, Structural)]
pub enum CancelStep {
    /// Go on.
    Proceed,
    /// Go on, from now on draining what is in flight.
    StartDraining,
    /// Stop with an error.
    Stop,
}

/// A request to stop is obeyed at once, unless draining is allowed: then what is in flight drains
/// until the time is up.
pub open spec fn cancel_step(
    cancelled: bool,
    draining: bool,
    may_drain: bool,
    expired: bool,
) -> CancelStep {
    if !cancelled {
        CancelStep::Proceed
    } else if draining {
        if expired {
            CancelStep::Stop
        } else {
            CancelStep::Proceed
        }
    } else if may_drain {
        CancelStep::StartDraining
    } else {
        CancelStep::Stop
    }
}

/// Decides about a request to stop.
pub fn decide_cancel(cancelled: bool, draining: bool, may_drain: bool, expired: bool) -> (step:
    CancelStep)
    ensures
        step == cancel_step(cancelled, draining, may_drain, expired),
{
    if !cancelled {
        return CancelStep::Proceed;
    }
    if draining {
        return if expired {
            CancelStep::Stop
        } else {
            CancelStep::Proceed
        };
    }
    if may_drain {
        CancelStep::StartDraining
    } else {
        CancelStep::Stop
    }
}

/// What a tracker knows of the dataflow as a whole.
#[derive(Clone, Copy, Debug, PartialEq, Eq, Structural)]
pub struct TrackerStatus {
    /// Nothing is outstanding.
    pub completed: bool,
    /// The other workers have been heard of.
    pub synced: bool,
    /// News of the other workers were not taken into account yet.
    pub pending: bool,
}

impl TrackerStatus {
    /// Nothing is outstanding anywhere.
    pub open spec fn settled(self) -> bool {
        self.completed && self.synced && !self.pending
    }
}

/// How things stand at the end of a sweep.
#[derive(Clone, Copy, Debug, PartialEq, Eq, Structural)]
pub struct Standing {
    /// How many sweeps in a row were idle.
    pub idle: usize,
    /// How many idle sweeps in a row count as quiet.
    pub max_idle: usize,
    /// Whether this sweep made progress.
    pub progress: bool,
    /// Whether some operator awaits results of tasks in flight.
    pub waiting: bool,
    /// Whether what is in flight is being drained.
    pub draining: bool,
    /// Whether input may still come from outside.
    pub inputs_open: bool,
    /// What the tracker knows, if there is one.
    pub tracker: Option<TrackerStatus>,
}

/// What follows from the end of a sweep.
#[derive(Clone, Copy, Debug, PartialEq, Eq, Structural)]
pub struct Verdict {
    pub outcome: SweepOutcome,
    /// Whether idle sweeps are counted from zero again.
    pub restart: bool,
    /// Whether the operators that have not finished are closed.
    pub close: bool,
}

impl Standing {
    /// Nothing moved for long enough.
    pub open spec fn quiet(self) -> bool {
        self.idle >= self.max_idle
    }

    /// Something is awaited. What drains awaits nothing but tasks in flight.
    pub open spec fn awaits(self) -> bool {
        ||| self.waiting
        ||| !self.draining && self.inputs_open
        ||| !self.draining && (self.tracker matches Some(t) && !t.settled())
    }

    /// The tracker knows that nothing is outstanding anywhere.
    pub open spec fn settled(self) -> bool {
        self.tracker matches Some(t) && t.settled()
    }

    /// What follows from this standing.
    pub open spec fn verdict(self) -> Verdict {
        if !self.quiet() {
            Verdict {
                outcome: if self.progress {
                    SweepOutcome::MadeProgress
                } else {
                    SweepOutcome::Idle
                },
                restart: false,
                close: false,
            }
        } else if self.awaits() {
            Verdict { outcome: SweepOutcome::WaitingForInput, restart: true, close: false }
        } else if self.settled() {
            Verdict { outcome: SweepOutcome::Completed, restart: false, close: true }
        } else if !self.draining {
            Verdict { outcome: SweepOutcome::Quiescent, restart: false, close: false }
        } else if self.tracker matches Some(t) && !t.completed {
            Verdict { outcome: SweepOutcome::Idle, restart: true, close: false }
        } else {
            Verdict { outcome: SweepOutcome::Completed, restart: false, close: false }
        }
    }
}

/// Decides what follows from the end of a sweep.
pub fn judge(s: &Standing) -> (v: Verdict)
    ensures
        v == s.verdict(),
{
    if s.idle < s.max_idle {
        let outcome = if s.progress {
            SweepOutcome::MadeProgress
        } else {
            SweepOutcome::Idle
        };
        return Verdict { outcome, restart: false, close: false };
    }
    if s.waiting || (!s.draining && s.inputs_open) {
        return Verdict { outcome: SweepOutcome::WaitingForInput, restart: true, close: false };
    }
    match s.tracker {
        Some(t) => {
            if t.completed && !t.pending && t.synced {
                return Verdict { outcome: SweepOutcome::Completed, restart: false, close: true };
            }
            if !s.draining {
                return Verdict {
                    outcome: SweepOutcome::WaitingForInput,
                    restart: true,
                    close: false,
                };
            }
            if !t.completed {
                return Verdict { outcome: SweepOutcome::Idle, restart: true, close: false };
            }
        },
        None => {},
    }
    let outcome = if s.draining {
        SweepOutcome::Completed
    } else {
        SweepOutcome::Quiescent
    };
    Verdict { outcome, restart: false, close: false }
}

/// A dataflow is taken for quiescent only after enough idle sweeps, and never while it drains,
/// while results of tasks in flight are awaited, while input may still come from outside, or while
/// a tracker watches over it.
pub proof fn quiescence_awaits_nothing(s: Standing)
    requires
        s.verdict().outcome is Quiescent,
    ensures
        s.idle >= s.max_idle,
        !s.draining,
        !s.waiting,
        !s.inputs_open,
        s.tracker is None,
{
}

/// A dataflow that does not drain is taken for completed at the end of a sweep only if the tracker
/// knows that nothing is outstanding anywhere; the operators are closed then.
pub proof fn completion_is_settled(s: Standing)
    requires
        s.verdict().outcome is Completed,
        !s.draining,
    ensures
        s.settled(),
        s.verdict().close,
{
}

/// Whatever follows, idle sweeps are counted from zero again whenever the dataflow has to wait, and
/// draining never waits for input from outside or for other workers.
pub proof fn draining_waits_for_tasks_only(s: Standing)
    requires
        s.verdict().outcome is WaitingForInput,
    ensures
        s.verdict().restart,
        s.draining ==> s.waiting,
{
}

} // verus!
