//! The executor: sweeps over the operators of a dataflow until it is complete.

use std::task::Waker;
use std::time::Instant;
use vstd::prelude::*;
use crate::activation::{
    is_fused_sweep, is_queue_sweep, is_stage_sweep, run_fused_passes, run_stage_task_activation,
    run_unfused_activation, same_crew, Crew, FusedPlan,
};
use crate::control::{check_cancelled, CancellationToken, ControlReceiver};
use crate::delivery::{placed, wake_flagged, wake_listed, with_flagged_woken, with_listed_woken};
use crate::error::{Error, Result};
use crate::frontier::{Antichain, Notificator, NotificatorView};
use crate::materialize::{is_position_map, position_map};
use crate::metrics::{DataflowMetrics, MetricsView};
use crate::order::Timestamp;
use crate::progress::{is_frontier, Outstanding, ProbeHandle, ProgressTracker, TrackerView};
use crate::schedulable::BoxedOperator;
use crate::schedule::{Schedule, ScheduleView};
use crate::shared::{Anything, Shared};
use crate::stage::FusedActivationOrder;
use crate::timing::{nanos_since, reaches_millis};
use crate::verdict::{
    cancel_step, decide_cancel, decide_signal, judge, signal_after, CancelStep, Signal, Standing,
    SweepOutcome, TrackerStatus,
};
use crate::wake::WakeHandle;

verus! {

/// How an executor works.
#[derive(Clone, Copy, Debug)]
pub struct ExecutorConfig {
    /// How many activations, or productive activations where operators are fused, a sweep makes at
    /// most. Where whole stages are scheduled, each gets at least one.
    pub max_activations_per_step: usize,
    /// How many idle sweeps in a row count as quiet.
    pub max_idle_sweeps: usize,
    /// How many sweeps a poll makes before it yields; zero for no limit.
    pub max_sweeps_per_poll: usize,
    /// Whether a panic of an operator becomes an error.
    pub catch_panics: bool,
    /// Whether activations are counted.
    pub collect_metrics: bool,
    /// How many milliseconds what is in flight may drain after a request to stop. Without it, a
    /// request to stop is obeyed at once.
    pub drain_timeout: Option<u64>,
}

impl Default for ExecutorConfig {
    fn default() -> (c: Self)
        ensures
            c.max_activations_per_step == 1024,
            c.max_idle_sweeps == 3,
            c.max_sweeps_per_poll == 64,
            !c.catch_panics,
            !c.collect_metrics,
            c.drain_timeout is None,
    {
        ExecutorConfig {
            max_activations_per_step: 1024,
            max_idle_sweeps: 3,
            max_sweeps_per_poll: 64,
            catch_panics: false,
            collect_metrics: false,
            drain_timeout: None,
        }
    }
}

/// What a poll of an executor comes to.
#[derive(Debug)]
pub enum PollOutcome {
    /// The dataflow is complete, quiescent, or has failed.
    Ready(Result<bool>),
    /// The executor wants to be polled again after its waker was woken.
    Pending,
}

/// The executor of a dataflow on one worker.
#[verifier::reject_recursive_types(T)]
pub struct DataflowExecutor<T: Timestamp> {
    /// The operators.
    pub crew: Crew<T>,
    /// Which operators are to be activated.
    pub schedule: Schedule,
    /// For each operator index, the position of the operator, or the largest number.
    pub index_to_pos: Vec<usize>,
    pub config: ExecutorConfig,
    pub cancel: CancellationToken,
    pub progress_tracker: Option<ProgressTracker<T>>,
    /// For each operator, the notifications that were requested of the executor.
    pub notificators: Vec<Option<Notificator<T>>>,
    /// Probes, each with the index of the operator that it watches.
    pub probes: Vec<(usize, ProbeHandle<T>)>,
    /// How many inputs from outside are still open.
    pub external_inputs_open: Shared<usize>,
    pub wake_handle: WakeHandle,
    /// How many sweeps in a row were idle.
    pub consecutive_idle: usize,
    pub control_receiver: Option<ControlReceiver>,
    pub fused_order: Option<FusedActivationOrder>,
    /// When the executor was made, if metrics are collected.
    pub wall_start: Option<Instant>,
    /// Whether what is in flight is being drained.
    pub draining: bool,
    /// When draining began.
    pub drain_started: Option<Instant>,
}

/// The views of notificators.
pub open spec fn notes<T>(v: Seq<Option<Notificator<T>>>) -> Seq<Option<NotificatorView<T>>> {
    v.map_values(
        |n: Option<Notificator<T>>|
            match n {
                Some(x) => Some(x@),
                None => None,
            },
    )
}

/// The crew was told something, but nothing was activated.
pub open spec fn told<T: Timestamp>(before: Crew<T>, after: Crew<T>) -> bool {
    &&& same_crew(before, after)
    &&& after.metrics == before.metrics
    &&& after.trace == before.trace
    &&& forall|p: int|
        0 <= p < before.operators@.len() ==> (#[trigger] after.operators@[p]).waits(
            &before.operators@[p],
        )
}

/// Each notificator has the frontier of the listed operator at its position, if one is listed, and
/// is otherwise as before.
pub open spec fn are_delivered<T: Timestamp>(
    tracker: TrackerView<T>,
    map: Seq<usize>,
    listed: Seq<usize>,
    before: Seq<Option<NotificatorView<T>>>,
    after: Seq<Option<NotificatorView<T>>>,
) -> bool {
    &&& after.len() == before.len()
    &&& forall|p: int|
        0 <= p < before.len() ==> is_delivered(
            tracker,
            map,
            listed,
            p,
            #[trigger] before[p],
            after[p],
        )
}

/// The operator that is listed at `i` is at position `p`.
pub open spec fn listed_at(map: Seq<usize>, listed: Seq<usize>, i: int, p: int) -> bool {
    0 <= i < listed.len() && placed(map, listed[i]) && map[listed[i] as int] == p
}

/// The notificator at `p` has the frontier of a listed operator at its position, if one is listed,
/// and is otherwise as before.
pub open spec fn is_delivered<T: Timestamp>(
    tracker: TrackerView<T>,
    map: Seq<usize>,
    listed: Seq<usize>,
    p: int,
    before: Option<NotificatorView<T>>,
    after: Option<NotificatorView<T>>,
) -> bool {
    match (before, after) {
        (None, None) => true,
        (Some(b), Some(a)) => {
            &&& a.pending == b.pending
            &&& if exists|i: int| #[trigger] listed_at(map, listed, i, p) {
                exists|i: int| #[trigger]
                    listed_at(map, listed, i, p) && is_frontier(
                        tracker.links,
                        tracker.outstanding,
                        listed[i],
                        a.frontier,
                    )
            } else {
                a.frontier == b.frontier
            }
        },
        _ => false,
    }
}

/// The operator at `p` was told the frontier of a listed operator at its position, if one is listed,
/// and is otherwise as before.
pub open spec fn is_informed<T: Timestamp>(
    tracker: TrackerView<T>,
    map: Seq<usize>,
    listed: Seq<usize>,
    p: int,
    before: BoxedOperator<T>,
    after: BoxedOperator<T>,
) -> bool {
    &&& after.waits(&before)
    &&& after.dismissed() == before.dismissed()
    &&& if exists|i: int| #[trigger] listed_at(map, listed, i, p) {
        exists|i: int| #[trigger]
            listed_at(map, listed, i, p) && after.heard() is Some && is_frontier(
                tracker.links,
                tracker.outstanding,
                listed[i],
                after.heard()->0,
            )
    } else {
        after == before
    }
}

/// A probe was shown the frontier of the operator that it watches.
pub open spec fn is_shown<T: Timestamp>(
    tracker: TrackerView<T>,
    probe: (usize, ProbeHandle<T>),
) -> bool {
    exists|before: Option<Antichain<T>>, shown: Antichain<T>| #[trigger]
        probe.1.seen().turned(before, Some(shown)) && is_frontier(
            tracker.links,
            tracker.outstanding,
            probe.0,
            shown@,
        )
}

/// The listed operators were told their frontiers.
pub open spec fn are_informed<T: Timestamp>(
    tracker: TrackerView<T>,
    map: Seq<usize>,
    listed: Seq<usize>,
    before: Seq<BoxedOperator<T>>,
    after: Seq<BoxedOperator<T>>,
) -> bool {
    &&& after.len() == before.len()
    &&& forall|p: int|
        0 <= p < before.len() ==> is_informed(
            tracker,
            map,
            listed,
            p,
            #[trigger] before[p],
            after[p],
        )
}

/// The operators that had not finished were told that no more input will come.
pub open spec fn are_dismissed<T: Timestamp>(
    done: Seq<bool>,
    before: Seq<BoxedOperator<T>>,
    after: Seq<BoxedOperator<T>>,
) -> bool {
    &&& after.len() == before.len()
    &&& forall|p: int|
        0 <= p < before.len() ==> if done[p] {
            #[trigger] after[p] == before[p]
        } else {
            &&& after[p].waits(&before[p])
            &&& after[p].heard() == before[p].heard()
            &&& after[p].dismissed()
        }
}

impl<T: Timestamp> DataflowExecutor<T> {
    /// The parts fit together.
    pub open spec fn wf(&self) -> bool {
        let n = self.crew.operators@.len();
        &&& self.schedule@.fits(n)
        &&& self.fused_order matches Some(order) ==> forall|i: int|
            0 <= i < order.positions@.len() ==> #[trigger] order.positions@[i] < n
        &&& forall|x: int|
            0 <= x < self.index_to_pos@.len() ==> #[trigger] self.index_to_pos@[x] == usize::MAX
                || self.index_to_pos@[x] < n
        &&& self.progress_tracker matches Some(t) ==> t.wf()
    }

    /// What the tracker knows.
    pub open spec fn tracker_view(&self) -> Option<TrackerView<T>> {
        match self.progress_tracker {
            Some(t) => Some(t@),
            None => None,
        }
    }

    /// What no sweep changes.
    pub open spec fn same_setting(&self, other: &Self) -> bool {
        &&& self.index_to_pos == other.index_to_pos
        &&& self.config == other.config
        &&& self.cancel == other.cancel
        &&& self.probes == other.probes
        &&& self.external_inputs_open == other.external_inputs_open
        &&& self.wake_handle == other.wake_handle
        &&& self.control_receiver == other.control_receiver
        &&& self.fused_order == other.fused_order
        &&& self.wall_start == other.wall_start
        &&& self.progress_tracker is Some == other.progress_tracker is Some
        &&& same_crew(self.crew, other.crew)
        &&& self.schedule@.tasks == other.schedule@.tasks
    }

    /// The sweep begins: a request to stop is handled, and it is seen whether there is something
    /// left to do.
    pub open spec fn begins(&self, after: &Self, cancelled: bool, expired: bool, r: Result<bool>) -> bool {
        let step = cancel_step(
            cancelled,
            self.draining,
            self.config.drain_timeout is Some,
            expired,
        );
        &&& self.same_setting(after)
        &&& after.crew == self.crew
        &&& after.schedule == self.schedule
        &&& after.progress_tracker == self.progress_tracker
        &&& after.notificators == self.notificators
        &&& after.consecutive_idle == self.consecutive_idle
        &&& after.draining == (self.draining || step is StartDraining)
        &&& step is Stop <==> r is Err
        &&& r matches Err(e) ==> e == (Error::Cancelled { reason: None })
        &&& r matches Ok(over) ==> over == self.schedule@.all_done()
    }

    /// The operators are activated: stage by stage if there are stage tasks, in the fused order if
    /// there is one, and otherwise as they are queued.
    pub open spec fn activates(&self, after: &Self, r: Result<bool>) -> bool {
        let before = (self.crew, self.schedule@);
        let then = (after.crew, after.schedule@);
        let max = self.config.max_activations_per_step;
        &&& self.same_setting(after)
        &&& after.progress_tracker == self.progress_tracker
        &&& after.notificators == self.notificators
        &&& after.draining == self.draining
        &&& after.drain_started == self.drain_started
        &&& r matches Ok(progress) ==> after.consecutive_idle == if progress {
            0
        } else {
            counted_idle(self.consecutive_idle)
        }
        &&& r is Err ==> after.consecutive_idle == self.consecutive_idle
        &&& if self.schedule@.tasks.len() > 0 {
            is_stage_sweep(before, then, max, r)
        } else {
            match self.fused_order {
                Some(order) => {
                    let plan = FusedPlan {
                        order: order.positions@,
                        budget: max as nat,
                        wakes: true,
                    };
                    exists|q: Result<(bool, usize)>| #[trigger]
                        is_fused_sweep(plan, (self.crew, self.schedule@.emptied()), then, q)
                            && same_progress(q, r)
                },
                None => is_queue_sweep(before, then, max, r),
            }
        }
    }

    /// News of progress are delivered: the tracker takes note of what is outstanding, operators
    /// learn their new frontiers, and those that it concerns are woken.
    pub open spec fn delivers(&self, after: &Self, news: News<T>, woke: bool) -> bool {
        &&& self.same_setting(after)
        &&& after.draining == self.draining
        &&& after.drain_started == self.drain_started
        &&& after.consecutive_idle == if woke {
            0
        } else {
            self.consecutive_idle
        }
        &&& told(self.crew, after.crew)
        &&& match (self.tracker_view(), after.tracker_view()) {
            (Some(b), Some(a)) => {
                let listed = b.changed(a.outstanding);
                let map = self.index_to_pos@;
                let n = self.crew.operators@.len();
                let flags = Seq::new(
                    n,
                    |p: int|
                        after.crew.operators@[p].notifying() || ready_at(
                            notes(after.notificators@),
                            p,
                        ),
                );
                &&& are_informed(a, map, listed, self.crew.operators@, after.crew.operators@)
                &&& are_reports_of(self.crew.operators@, self.schedule@.done, news.reports)
                &&& a.outstanding == gathered(
                    self.crew.operators@,
                    self.schedule@.done,
                    news.reports,
                    n,
                )
                &&& a == (TrackerView { outstanding: a.outstanding, ..b })
                &&& are_delivered(
                    a,
                    map,
                    listed,
                    notes(self.notificators@),
                    notes(after.notificators@),
                )
                &&& after.schedule@ == with_flagged_woken(
                    with_listed_woken(self.schedule@, map, listed, listed.len()),
                    flags,
                    n,
                )
                &&& woke == (after.schedule@.ready.len() > self.schedule@.ready.len())
                &&& forall|i: int|
                    0 <= i < self.probes@.len() ==> is_shown(a, #[trigger] self.probes@[i])
            },
            (None, None) => {
                &&& after.crew == self.crew
                &&& after.schedule == self.schedule
                &&& after.notificators == self.notificators
                &&& !woke
            },
            _ => false,
        }
    }

    /// How things stand.
    pub open spec fn standing(&self, progress: bool, inputs_open: bool) -> Standing {
        Standing {
            idle: self.consecutive_idle,
            max_idle: self.config.max_idle_sweeps,
            progress,
            waiting: exists|p: int|
                0 <= p < self.schedule@.waiting.len() && #[trigger] self.schedule@.waiting[p],
            draining: self.draining,
            inputs_open,
            tracker: match self.tracker_view() {
                Some(t) => Some(
                    TrackerStatus {
                        completed: t.outstanding.len() == 0,
                        synced: t.peers_synced,
                        pending: t.peers_pending,
                    },
                ),
                None => None,
            },
        }
    }

    /// The sweep ends with a verdict.
    pub open spec fn concludes(
        &self,
        after: &Self,
        progress: bool,
        inputs_open: bool,
        outcome: SweepOutcome,
    ) -> bool {
        let v = self.standing(progress, inputs_open).verdict();
        &&& self.same_setting(after)
        &&& after.draining == self.draining
        &&& after.drain_started == self.drain_started
        &&& after.notificators == self.notificators
        &&& after.progress_tracker == self.progress_tracker
        &&& outcome == v.outcome
        &&& after.consecutive_idle == if v.restart {
            0
        } else {
            self.consecutive_idle
        }
        &&& told(self.crew, after.crew)
        &&& !v.close ==> after.crew == self.crew && after.schedule == self.schedule
        &&& v.close ==> {
            &&& are_dismissed(self.schedule@.done, self.crew.operators@, after.crew.operators@)
            &&& after.schedule@ == (ScheduleView {
                done: Seq::new(self.schedule@.done.len(), |p: int| true),
                ..self.schedule@
            })
        }
    }
}

/// What an operator tells of its progress.
pub struct Report<T> {
    /// The times of the batches that wait at its inputs.
    pub queued: Seq<T>,
    /// The times at which it may still send something.
    pub held: Seq<T>,
    /// The times that have to be complete before it sends something.
    pub requested: Seq<T>,
}

/// The report is what an operator tells: all but the batches that wait is certain.
pub open spec fn is_report_of<T: Timestamp>(op: BoxedOperator<T>, r: Report<T>) -> bool {
    &&& op.queues(r.queued)
    &&& r.held == op.holding()
    &&& r.requested == op.requesting()
}

/// The reports are what the operators tell that have not finished.
pub open spec fn are_reports_of<T: Timestamp>(
    operators: Seq<BoxedOperator<T>>,
    done: Seq<bool>,
    reports: Seq<Report<T>>,
) -> bool {
    &&& reports.len() == operators.len()
    &&& forall|p: int|
        0 <= p < operators.len() && !done[p] ==> is_report_of(
            #[trigger] operators[p],
            reports[p],
        )
}

/// What all operators tell of their progress.
pub struct News<T> {
    pub reports: Seq<Report<T>>,
}

/// No operator was asked.
pub open spec fn no_news<T>() -> News<T> {
    News { reports: Seq::empty() }
}

/// What is outstanding at some times.
pub open spec fn outstanding_at<T>(operator: usize, queued: bool, times: Seq<T>) -> Seq<
    Outstanding<T>,
> {
    times.map_values(|time: T| Outstanding { operator, queued, time })
}

/// What is outstanding at an operator.
pub open spec fn reported<T>(operator: usize, r: Report<T>) -> Seq<Outstanding<T>> {
    outstanding_at(operator, true, r.queued) + outstanding_at(operator, false, r.held)
        + outstanding_at(operator, false, r.requested)
}

/// What is outstanding at the first `n` operators. Nothing is at operators that have finished.
pub open spec fn gathered<T: Timestamp>(
    operators: Seq<BoxedOperator<T>>,
    done: Seq<bool>,
    reports: Seq<Report<T>>,
    n: nat,
) -> Seq<Outstanding<T>>
    decreases n,
{
    if n == 0 {
        Seq::empty()
    } else {
        gathered(operators, done, reports, (n - 1) as nat) + if done[n - 1] {
            Seq::empty()
        } else {
            reported(operators[n - 1].id(), reports[n - 1])
        }
    }
}

proof fn lemma_gathered_prefix<T: Timestamp>(
    operators: Seq<BoxedOperator<T>>,
    done: Seq<bool>,
    a: Seq<Report<T>>,
    b: Seq<Report<T>>,
    n: nat,
)
    requires
        n <= a.len(),
        n <= b.len(),
        forall|i: int| 0 <= i < n ==> a[i] == b[i],
    ensures
        gathered(operators, done, a, n) == gathered(operators, done, b, n),
    decreases n,
{
    if n > 0 {
        lemma_gathered_prefix(operators, done, a, b, (n - 1) as nat);
    }
}

/// Adds what is outstanding at some times.
fn add_outstanding<T>(out: &mut Vec<Outstanding<T>>, operator: usize, queued: bool, times: Vec<T>)
    ensures
        final(out)@ == old(out)@ + outstanding_at(operator, queued, times@),
{
    let ghost given = times@;
    let ghost start = out@;
    let ghost all = outstanding_at(operator, queued, given);
    assert(start + all.take(0) =~= start);
    for time in it: times
        invariant
            it.seq() == given,
            all == outstanding_at(operator, queued, given),
            out@ == start + all.take(it.index() as int),
    {
        let ghost k = it.index() as int;
        out.push(Outstanding { operator, queued, time });
        assert(out@ =~= start + all.take(k + 1));
    }
    assert(all.take(given.len() as int) =~= all);
}

/// The course that a sweep took: what was found outside, and the states that it went through.
#[verifier::reject_recursive_types(T)]
pub struct Course<T: Timestamp> {
    /// Whether someone asked to stop.
    pub cancelled: bool,
    /// Whether the time to drain was up.
    pub expired: bool,
    /// Whether input could still come from outside.
    pub inputs_open: bool,
    /// What the operators told of their progress.
    pub news: News<T>,
    /// Whether news of progress queued some operator.
    pub woke: bool,
    pub begun: DataflowExecutor<T>,
    pub over: Result<bool>,
    pub activated: DataflowExecutor<T>,
    pub progress: Result<bool>,
    pub delivered: DataflowExecutor<T>,
}

impl<T: Timestamp> DataflowExecutor<T> {
    /// A sweep that took the given course: it begins, activates operators, delivers news of
    /// progress, and concludes. It is over at once if all operators have finished, and an error
    /// ends it where it occurs.
    pub open spec fn sweeps_by(&self, after: &Self, c: Course<T>, r: Result<SweepOutcome>) -> bool {
        &&& self.cancel.flag().turned(c.cancelled, c.cancelled)
        &&& self.begins(&c.begun, c.cancelled, c.expired, c.over)
        &&& match c.over {
            Err(e) => r == Err::<SweepOutcome, Error>(e) && *after == c.begun,
            Ok(true) => r == Ok::<SweepOutcome, Error>(SweepOutcome::Completed) && *after
                == c.begun,
            Ok(false) => {
                &&& c.begun.activates(&c.activated, c.progress)
                &&& match c.progress {
                    Err(e) => r == Err::<SweepOutcome, Error>(e) && *after == c.activated,
                    Ok(progress) => {
                        &&& c.activated.delivers(&c.delivered, c.news, c.woke)
                        &&& r is Ok
                        &&& exists|n: usize| #[trigger]
                            self.external_inputs_open.turned(n, n) && c.inputs_open == (n > 0)
                        &&& c.delivered.concludes(after, progress, c.inputs_open, r->Ok_0)
                    },
                }
            },
        }
    }

    /// A sweep.
    pub open spec fn sweeps(&self, after: &Self, r: Result<SweepOutcome>) -> bool {
        exists|c: Course<T>| #[trigger] self.sweeps_by(after, c, r)
    }

    /// The state in which a run ends: complete, or quiescent.
    pub open spec fn rests(&self, complete: bool) -> bool {
        if complete {
            self.schedule@.all_done() || self.draining
        } else {
            &&& !self.draining
            &&& self.progress_tracker is None
            &&& self.consecutive_idle >= self.config.max_idle_sweeps
            &&& forall|p: int|
                0 <= p < self.schedule@.waiting.len() ==> !#[trigger] self.schedule@.waiting[p]
        }
    }
}

/// The sweeps of a run: the states before the first, between them and after the last, and what each
/// came to.
#[verifier::reject_recursive_types(T)]
pub struct History<T: Timestamp> {
    pub states: Seq<DataflowExecutor<T>>,
    pub outcomes: Seq<Result<SweepOutcome>>,
}

/// After such a sweep the run goes on.
pub open spec fn goes_on(r: Result<SweepOutcome>) -> bool {
    match r {
        Ok(SweepOutcome::Completed) => false,
        Ok(SweepOutcome::Quiescent) => false,
        Ok(_) => true,
        Err(_) => false,
    }
}

/// The result of a run whose last sweep came to `r`.
pub open spec fn run_result(r: Result<SweepOutcome>) -> Result<bool> {
    match r {
        Ok(SweepOutcome::Completed) => Ok(true),
        Ok(SweepOutcome::Quiescent) => Ok(false),
        Ok(_) => Err(Error::SweepLimit),
        Err(e) => Err(e),
    }
}

/// What a sweep came to, unless it failed.
pub open spec fn found(swept: Result<SweepOutcome>) -> Option<SweepOutcome> {
    match swept {
        Ok(outcome) => Some(outcome),
        Err(_) => None,
    }
}

/// How many of the sweeps did not end in waiting for input.
pub open spec fn busy_sweeps(outcomes: Seq<Result<SweepOutcome>>) -> int
    decreases outcomes.len(),
{
    if outcomes.len() == 0 {
        0
    } else {
        busy_sweeps(outcomes.drop_last())
            + if outcomes.last() == Ok::<SweepOutcome, Error>(SweepOutcome::WaitingForInput) {
            0int
        } else {
            1int
        }
    }
}

/// The metrics after the time was taken, if it is taken at all: of all that was counted nothing but
/// the time can have changed.
pub open spec fn is_timed(
    before: Option<DataflowMetrics>,
    after: Option<DataflowMetrics>,
    taken: bool,
) -> bool {
    match (before, after) {
        (Some(b), Some(a)) => if taken {
            a@ == (MetricsView { wall_nanos: a@.wall_nanos, ..b@ })
        } else {
            a == b
        },
        _ => before is None && after is None,
    }
}

impl<T: Timestamp> DataflowExecutor<T> {
    /// The sweeps lead from one executor to another.
    pub open spec fn passes(&self, last: &Self, h: History<T>) -> bool {
        &&& h.states.len() == h.outcomes.len() + 1
        &&& h.states[0] == *self
        &&& h.states.last() == *last
        &&& forall|i: int| 0 <= i < h.states.len() ==> (#[trigger] h.states[i]).wf()
        &&& forall|i: int|
            0 <= i < h.outcomes.len() ==> h.states[i].sweeps(
                &h.states[i + 1],
                #[trigger] h.outcomes[i],
            )
    }

    /// The same executor, with its time taken.
    pub open spec fn settles(&self, last: &Self) -> bool {
        &&& *self == (DataflowExecutor {
            crew: Crew { metrics: self.crew.metrics, ..last.crew },
            ..*last
        })
        &&& is_timed(last.crew.metrics, self.crew.metrics, last.wall_start is Some)
    }

    /// A run consisted of the given sweeps: it went on until one was the last.
    pub open spec fn runs_by(&self, after: &Self, r: Result<bool>, h: History<T>) -> bool {
        let n = h.outcomes.len();
        &&& n > 0
        &&& self.passes(&h.states.last(), h)
        &&& after.settles(&h.states.last())
        &&& forall|i: int| 0 <= i < n - 1 ==> goes_on(#[trigger] h.outcomes[i])
        &&& goes_on(h.outcomes.last()) ==> n == u64::MAX
        &&& r == run_result(h.outcomes.last())
    }

    /// What is done about wake-ups after the given sweeps of a poll.
    pub open spec fn signal_at(&self, outcomes: Seq<Result<SweepOutcome>>) -> Signal {
        let budget = self.config.max_sweeps_per_poll;
        signal_after(found(outcomes.last()), budget > 0 && busy_sweeps(outcomes) >= budget)
    }

    /// A poll consisted of the given sweeps: it went on until one was the last, or ended in waiting
    /// for input, or the budget was used up.
    pub open spec fn polls_by(&self, after: &Self, p: PollOutcome, h: History<T>) -> bool {
        let n = h.outcomes.len();
        let budget = self.config.max_sweeps_per_poll;
        &&& budget > 0 ==> busy_sweeps(h.outcomes.drop_last()) < budget
        &&& match p {
            PollOutcome::Ready(r) => self.runs_by(after, r, h),
            PollOutcome::Pending => {
                &&& n > 0
                &&& self.passes(&h.states.last(), h)
                &&& after.settles(&h.states.last())
                &&& forall|i: int| 0 <= i < n ==> goes_on(#[trigger] h.outcomes[i])
                &&& h.outcomes.last() == Ok::<SweepOutcome, Error>(SweepOutcome::WaitingForInput)
                    || (budget > 0 && busy_sweeps(h.outcomes) == budget)
            },
        }
    }
}

/// The number of idle sweeps after one more.
pub open spec fn counted_idle(n: usize) -> usize {
    if n < usize::MAX {
        (n + 1) as usize
    } else {
        n
    }
}

/// A result with a count and one without tell the same of progress.
pub open spec fn same_progress(q: Result<(bool, usize)>, r: Result<bool>) -> bool {
    match (q, r) {
        (Ok((a, _)), Ok(b)) => a == b,
        (Err(a), Err(b)) => a == b,
        _ => false,
    }
}

/// A notification at `p` can be delivered.
pub open spec fn ready_at<T: Timestamp>(notes: Seq<Option<NotificatorView<T>>>, p: int) -> bool {
    p < notes.len() && (notes[p] matches Some(n) && n.ready())
}

impl<T: Timestamp> DataflowExecutor<T> {
    /// An executor of the given operators without neighbourhoods, in which all are queued.
    pub fn from_operators(
        operators: Vec<BoxedOperator<T>>,
        config: ExecutorConfig,
        worker_index: usize,
    ) -> (e: Self)
        requires
            forall|p: int| 0 <= p < operators@.len() ==> (#[trigger] operators@[p]).id() < usize::MAX,
        ensures
            e.wf(),
            e.crew.operators@ == operators@,
            e.crew.metrics is None,
            e.crew.control_sender is None,
            e.crew.worker_index == worker_index,
            e.crew.catch_panics == config.catch_panics,
            e.crew.trace@.len() == 0,
            is_position_map(
                operators@.map_values(|op: BoxedOperator<T>| op.id()),
                e.index_to_pos@,
            ),
            e.schedule@.ready == Seq::new(operators@.len(), |i: int| i as usize),
            e.schedule@.done == Seq::new(operators@.len(), |i: int| false),
            e.schedule@.waiting == Seq::new(operators@.len(), |i: int| false),
            e.schedule@.successors.len() == 0,
            e.schedule@.predecessors.len() == 0,
            e.schedule@.tasks.len() == 0,
            e.config == config,
            e.progress_tracker is None,
            e.notificators@.len() == 0,
            e.probes@.len() == 0,
            e.consecutive_idle == 0,
            e.control_receiver is None,
            e.fused_order is None,
            e.wall_start is None,
            !e.draining,
            e.drain_started is None,
    {
        let mut indices: Vec<usize> = Vec::new();
        let mut i: usize = 0;
        while i < operators.len()
            invariant
                i <= operators@.len(),
                indices@ == operators@.take(i as int).map_values(
                    |op: BoxedOperator<T>| op.id(),
                ),
            decreases operators@.len() - i,
        {
            indices.push(operators[i].index());
            i = i + 1;
            assert(indices@ =~= operators@.take(i as int).map_values(
                |op: BoxedOperator<T>| op.id(),
            ));
        }
        assert(operators@.take(i as int) =~= operators@);
        let index_to_pos = position_map(&indices);
        let schedule = Schedule::new(operators.len());
        let crew = Crew {
            operators,
            metrics: None,
            control_sender: None,
            worker_index,
            catch_panics: config.catch_panics,
            trace: Ghost(Seq::empty()),
        };
        DataflowExecutor {
            crew,
            schedule,
            index_to_pos,
            config,
            cancel: CancellationToken::new(),
            progress_tracker: None,
            notificators: Vec::new(),
            probes: Vec::new(),
            external_inputs_open: Shared::new(0, Anything),
            wake_handle: WakeHandle::new(),
            consecutive_idle: 0,
            control_receiver: None,
            fused_order: None,
            wall_start: None,
            draining: false,
            drain_started: None,
        }
    }

    /// Begins a sweep, given whether someone asked to stop and whether the time to drain is up.
    /// Returns whether all operators have finished.
    pub fn begin_sweep(&mut self, cancelled: bool, expired: bool) -> (r: Result<bool>)
        ensures
            old(self).begins(final(self), cancelled, expired, r),
            old(self).wf() ==> final(self).wf(),
    {
        let may_drain = match self.config.drain_timeout {
            Some(_) => true,
            None => false,
        };
        match decide_cancel(cancelled, self.draining, may_drain, expired) {
            CancelStep::Proceed => {},
            CancelStep::StartDraining => {
                self.draining = true;
                self.drain_started = Some(Instant::now());
            },
            CancelStep::Stop => {
                match check_cancelled(true) {
                    Err(e) => {
                        return Err(e);
                    },
                    Ok(_) => {},
                }
            },
        }
        Ok(self.schedule.is_complete())
    }

    /// Activates the operators. Returns whether there was progress.
    pub fn activate_operators(&mut self) -> (r: Result<bool>)
        requires
            old(self).wf(),
        ensures
            old(self).activates(final(self), r),
            final(self).wf(),
    {
        let max: usize = self.config.max_activations_per_step;
        let r = if self.schedule.stage_tasks.len() > 0 {
            run_stage_task_activation(&mut self.crew, &mut self.schedule, max)
        } else {
            match &self.fused_order {
                Some(order) => {
                    self.schedule.clear();
                    let q = run_fused_passes(
                        &mut self.crew,
                        &mut self.schedule,
                        &order.positions,
                        max,
                        true,
                    );
                    let ghost counted = q;
                    let r = match q {
                        Ok((progress, _)) => Ok(progress),
                        Err(e) => Err(e),
                    };
                    assert(same_progress(counted, r));
                    r
                },
                None => run_unfused_activation(&mut self.crew, &mut self.schedule, max),
            }
        };
        assert(self.schedule@.tasks =~= old(self).schedule@.tasks);
        match r {
            Ok(progress) => {
                if progress {
                    self.consecutive_idle = 0;
                } else if self.consecutive_idle < usize::MAX {
                    self.consecutive_idle = self.consecutive_idle + 1;
                }
                Ok(progress)
            },
            Err(e) => Err(e),
        }
    }

    /// Ends a sweep, given whether it made progress and whether input may still come from outside.
    pub fn conclude_sweep(&mut self, progress: bool, inputs_open: bool) -> (outcome: SweepOutcome)
        requires
            old(self).wf(),
        ensures
            old(self).concludes(final(self), progress, inputs_open, outcome),
            final(self).wf(),
    {
        let tracker = match &self.progress_tracker {
            Some(t) => Some(
                TrackerStatus {
                    completed: t.is_completed(),
                    synced: t.all_peers_synced(),
                    pending: t.has_pending_peer_progress(),
                },
            ),
            None => None,
        };
        let standing = Standing {
            idle: self.consecutive_idle,
            max_idle: self.config.max_idle_sweeps,
            progress,
            waiting: self.schedule.any_waiting(),
            draining: self.draining,
            inputs_open,
            tracker,
        };
        let verdict = judge(&standing);
        if verdict.restart {
            self.consecutive_idle = 0;
        }
        if verdict.close {
            self.close_all();
        }
        verdict.outcome
    }

    /// Closes the operators that have not finished.
    fn close_all(&mut self)
        requires
            old(self).wf(),
        ensures
            final(self).wf(),
            told(old(self).crew, final(self).crew),
            are_dismissed(
                old(self).schedule@.done,
                old(self).crew.operators@,
                final(self).crew.operators@,
            ),
            final(self).schedule@ == (ScheduleView {
                done: Seq::new(old(self).schedule@.done.len(), |p: int| true),
                ..old(self).schedule@
            }),
            *final(self) == (DataflowExecutor {
                crew: final(self).crew,
                schedule: final(self).schedule,
                ..*old(self)
            }),
    {
        let mut p: usize = 0;
        assert(self.schedule@.done =~= Seq::new(
            old(self).schedule@.done.len(),
            |q: int| q < p || old(self).schedule@.done[q],
        ));
        while p < self.crew.operators.len()
            invariant
                p <= self.crew.operators@.len(),
                old(self).wf(),
                told(old(self).crew, self.crew),
                self.crew.operators@.len() == old(self).crew.operators@.len(),
                are_dismissed(
                    old(self).schedule@.done.take(p as int),
                    old(self).crew.operators@.take(p as int),
                    self.crew.operators@.take(p as int),
                ),
                forall|q: int|
                    p <= q < self.crew.operators@.len() ==> #[trigger] self.crew.operators@[q]
                        == old(self).crew.operators@[q],
                self.schedule@ == (ScheduleView {
                    done: Seq::new(
                        old(self).schedule@.done.len(),
                        |q: int| q < p || old(self).schedule@.done[q],
                    ),
                    ..old(self).schedule@
                }),
                *self == (DataflowExecutor {
                    crew: self.crew,
                    schedule: self.schedule,
                    ..*old(self)
                }),
            decreases self.crew.operators@.len() - p,
        {
            let ghost mid = self.crew.operators@;
            if !self.schedule.done[p] {
                self.crew.operators[p].close_inputs();
                self.schedule.done.set(p, true);
            }
            proof {
                let done = old(self).schedule@.done.take(p + 1);
                let before = old(self).crew.operators@.take(p + 1);
                let after = self.crew.operators@.take(p + 1);
                assert forall|q: int| 0 <= q < before.len() implies if done[q] {
                    #[trigger] after[q] == before[q]
                } else {
                    &&& after[q].waits(&before[q])
                    &&& after[q].heard() == before[q].heard()
                    &&& after[q].dismissed()
                } by {
                    if q < p {
                        assert(after[q] == mid.take(p as int)[q]);
                        assert(done[q] == old(self).schedule@.done.take(p as int)[q]);
                        assert(before[q] == old(self).crew.operators@.take(p as int)[q]);
                    }
                }
            }
            p = p + 1;
            assert(self.schedule@.done =~= Seq::new(
                old(self).schedule@.done.len(),
                |q: int| q < p || old(self).schedule@.done[q],
            ));
        }
        proof {
            assert(self.schedule@.done =~= Seq::new(old(self).schedule@.done.len(), |q: int| true));
            assert(old(self).schedule@.done.take(p as int) =~= old(self).schedule@.done);
            assert(old(self).crew.operators@.take(p as int) =~= old(self).crew.operators@);
            assert(self.crew.operators@.take(p as int) =~= self.crew.operators@);
        }
    }
}

/// One more listed operator.
proof fn lemma_delivered_step<T: Timestamp>(
    tracker: TrackerView<T>,
    map: Seq<usize>,
    listed: Seq<usize>,
    i: int,
    p: int,
    before: Option<NotificatorView<T>>,
    mid: Option<NotificatorView<T>>,
    after: Option<NotificatorView<T>>,
)
    requires
        0 <= i < listed.len(),
        is_delivered(tracker, map, listed.take(i), p, before, mid),
        mid is Some == after is Some,
        mid is Some ==> after->0.pending == mid->0.pending,
        mid is Some && !listed_at(map, listed, i, p) ==> after == mid,
        mid is Some && listed_at(map, listed, i, p) ==> is_frontier(
            tracker.links,
            tracker.outstanding,
            listed[i],
            after->0.frontier,
        ),
    ensures
        is_delivered(tracker, map, listed.take(i + 1), p, before, after),
{
    let short = listed.take(i);
    let long = listed.take(i + 1);
    if mid is Some {
        if listed_at(map, listed, i, p) {
            assert(listed_at(map, long, i, p));
        } else if exists|k: int| #[trigger] listed_at(map, short, k, p) {
            let k = choose|k: int| #[trigger]
                listed_at(map, short, k, p) && is_frontier(
                    tracker.links,
                    tracker.outstanding,
                    short[k],
                    mid->0.frontier,
                );
            assert(listed_at(map, long, k, p));
            assert(long[k] == short[k]);
        } else if exists|k: int| #[trigger] listed_at(map, long, k, p) {
            let k = choose|k: int| #[trigger] listed_at(map, long, k, p);
            if k < i {
                assert(listed_at(map, short, k, p));
            } else {
                assert(listed_at(map, listed, i, p));
            }
        }
    }
}

/// One more listed operator.
proof fn lemma_informed_step<T: Timestamp>(
    tracker: TrackerView<T>,
    map: Seq<usize>,
    listed: Seq<usize>,
    i: int,
    p: int,
    before: BoxedOperator<T>,
    mid: BoxedOperator<T>,
    after: BoxedOperator<T>,
)
    requires
        0 <= i < listed.len(),
        is_informed(tracker, map, listed.take(i), p, before, mid),
        after.waits(&mid),
        after.dismissed() == mid.dismissed(),
        !listed_at(map, listed, i, p) ==> after == mid,
        listed_at(map, listed, i, p) ==> after.heard() is Some && is_frontier(
            tracker.links,
            tracker.outstanding,
            listed[i],
            after.heard()->0,
        ),
    ensures
        is_informed(tracker, map, listed.take(i + 1), p, before, after),
{
    let short = listed.take(i);
    let long = listed.take(i + 1);
    if listed_at(map, listed, i, p) {
        assert(listed_at(map, long, i, p));
    } else if exists|k: int| #[trigger] listed_at(map, short, k, p) {
        let k = choose|k: int| #[trigger]
            listed_at(map, short, k, p) && mid.heard() is Some && is_frontier(
                tracker.links,
                tracker.outstanding,
                short[k],
                mid.heard()->0,
            );
        assert(listed_at(map, long, k, p));
        assert(long[k] == short[k]);
    } else if exists|k: int| #[trigger] listed_at(map, long, k, p) {
        let k = choose|k: int| #[trigger] listed_at(map, long, k, p);
        if k < i {
            assert(listed_at(map, short, k, p));
        } else {
            assert(listed_at(map, listed, i, p));
        }
    }
}

impl<T: Timestamp> DataflowExecutor<T> {
    /// What is outstanding, as the operators tell.
    fn outstanding(&self) -> (r: (Ghost<Seq<Report<T>>>, Vec<Outstanding<T>>))
        requires
            self.wf(),
        ensures
            are_reports_of(self.crew.operators@, self.schedule@.done, r.0@),
            r.1@ == gathered(
                self.crew.operators@,
                self.schedule@.done,
                r.0@,
                self.crew.operators@.len(),
            ),
    {
        let ghost mut reports: Seq<Report<T>> = Seq::empty();
        let mut out: Vec<Outstanding<T>> = Vec::new();
        let mut p: usize = 0;
        while p < self.crew.operators.len()
            invariant
                self.wf(),
                p <= self.crew.operators@.len(),
                reports.len() == p,
                forall|q: int|
                    0 <= q < p && !self.schedule@.done[q] ==> is_report_of(
                        #[trigger] self.crew.operators@[q],
                        reports[q],
                    ),
                out@ == gathered(
                    self.crew.operators@,
                    self.schedule@.done,
                    reports,
                    p as nat,
                ),
            decreases self.crew.operators@.len() - p,
        {
            let ghost ops = self.crew.operators@;
            let ghost done = self.schedule@.done;
            let ghost mut report = Report {
                queued: Seq::empty(),
                held: Seq::empty(),
                requested: Seq::empty(),
            };
            let ghost before = out@;
            if !self.schedule.done[p] {
                let operator: usize = self.crew.operators[p].index();
                let queued = self.crew.operators[p].queued_times();
                let held = self.crew.operators[p].held_times();
                let requested = self.crew.operators[p].requested_times();
                proof {
                    report = Report { queued: queued@, held: held@, requested: requested@ };
                }
                add_outstanding(&mut out, operator, true, queued);
                add_outstanding(&mut out, operator, false, held);
                add_outstanding(&mut out, operator, false, requested);
                proof {
                    assert(out@ =~= before + reported(operator, report));
                }
            } else {
                assert(out@ =~= before + Seq::<Outstanding<T>>::empty());
            }
            proof {
                let longer = reports.push(report);
                lemma_gathered_prefix(ops, done, reports, longer, p as nat);
                reports = longer;
            }
            p = p + 1;
        }
        (Ghost(reports), out)
    }

    /// Tells the listed operators, and the notificators that the executor keeps for them, their
    /// frontiers.
    fn deliver_frontiers(&mut self, tracker: &ProgressTracker<T>, listed: &Vec<usize>)
        requires
            old(self).wf(),
        ensures
            final(self).wf(),
            told(old(self).crew, final(self).crew),
            are_informed(
                tracker@,
                old(self).index_to_pos@,
                listed@,
                old(self).crew.operators@,
                final(self).crew.operators@,
            ),
            are_delivered(
                tracker@,
                old(self).index_to_pos@,
                listed@,
                notes(old(self).notificators@),
                notes(final(self).notificators@),
            ),
            *final(self) == (DataflowExecutor {
                crew: final(self).crew,
                notificators: final(self).notificators,
                ..*old(self)
            }),
    {
        let mut i: usize = 0;
        let ghost map = self.index_to_pos@;
        let ghost before = notes(self.notificators@);
        while i < listed.len()
            invariant
                i <= listed@.len(),
                map == old(self).index_to_pos@,
                before == notes(old(self).notificators@),
                self.wf(),
                told(old(self).crew, self.crew),
                are_informed(
                    tracker@,
                    map,
                    listed@.take(i as int),
                    old(self).crew.operators@,
                    self.crew.operators@,
                ),
                are_delivered(
                    tracker@,
                    map,
                    listed@.take(i as int),
                    before,
                    notes(self.notificators@),
                ),
                *self == (DataflowExecutor {
                    crew: self.crew,
                    notificators: self.notificators,
                    ..*old(self)
                }),
            decreases listed@.len() - i,
        {
            let op: usize = listed[i];
            let ghost mid = notes(self.notificators@);
            let ghost mid_crew = self.crew;
            if op < self.index_to_pos.len() {
                let pos: usize = self.index_to_pos[op];
                if pos != usize::MAX {
                    let frontier = tracker.operator_input_frontier_meet(op);
                    if pos < self.notificators.len() {
                        match &mut self.notificators[pos] {
                            Some(n) => {
                                n.update_frontier(&frontier);
                            },
                            None => {},
                        }
                    }
                    self.crew.operators[pos].update_input_frontier(&frontier);
                }
            }
            proof {
                let after = notes(self.notificators@);
                assert forall|p: int| 0 <= p < before.len() implies is_delivered(
                    tracker@,
                    map,
                    listed@.take(i + 1),
                    p,
                    #[trigger] before[p],
                    after[p],
                ) by {
                    assert(is_delivered(
                        tracker@,
                        map,
                        listed@.take(i as int),
                        p,
                        before[p],
                        mid[p],
                    ));
                    lemma_delivered_step(
                        tracker@,
                        map,
                        listed@,
                        i as int,
                        p,
                        before[p],
                        mid[p],
                        after[p],
                    );
                }
                let ops = old(self).crew.operators@;
                assert forall|p: int| 0 <= p < ops.len() implies is_informed(
                    tracker@,
                    map,
                    listed@.take(i + 1),
                    p,
                    #[trigger] ops[p],
                    self.crew.operators@[p],
                ) by {
                    assert(is_informed(
                        tracker@,
                        map,
                        listed@.take(i as int),
                        p,
                        ops[p],
                        mid_crew.operators@[p],
                    ));
                    lemma_informed_step(
                        tracker@,
                        map,
                        listed@,
                        i as int,
                        p,
                        ops[p],
                        mid_crew.operators@[p],
                        self.crew.operators@[p],
                    );
                }
                assert forall|p: int| 0 <= p < old(self).crew.operators@.len() implies (
                #[trigger] self.crew.operators@[p]).waits(&old(self).crew.operators@[p]) by {
                    assert(mid_crew.operators@[p].waits(&old(self).crew.operators@[p]));
                }
            }
            i = i + 1;
        }
        assert(listed@.take(i as int) =~= listed@);
    }

    /// For each operator, whether it has a notification to deliver.
    fn ready_flags(&self) -> (flags: Vec<bool>)
        ensures
            flags@ == Seq::new(
                self.crew.operators@.len(),
                |p: int|
                    self.crew.operators@[p].notifying() || ready_at(
                        notes(self.notificators@),
                        p,
                    ),
            ),
    {
        let mut flags: Vec<bool> = Vec::new();
        let mut p: usize = 0;
        while p < self.crew.operators.len()
            invariant
                p <= self.crew.operators@.len(),
                flags@ == Seq::new(
                    p as nat,
                    |q: int|
                        self.crew.operators@[q].notifying() || ready_at(
                            notes(self.notificators@),
                            q,
                        ),
                ),
            decreases self.crew.operators@.len() - p,
        {
            let b = self.crew.operators[p].has_ready_notifications();
            let kept = if p < self.notificators.len() {
                match &self.notificators[p] {
                    Some(n) => n.has_ready(),
                    None => false,
                }
            } else {
                false
            };
            flags.push(b || kept);
            p = p + 1;
            assert(flags@ =~= Seq::new(
                p as nat,
                |q: int|
                    self.crew.operators@[q].notifying() || ready_at(
                        notes(self.notificators@),
                        q,
                    ),
            ));
        }
        flags
    }

    /// Takes note of what is outstanding and tells everyone whom it concerns. Returns whether some
    /// operator was queued.
    pub fn propagate_progress(&mut self) -> (woke: bool)
        requires
            old(self).wf(),
        ensures
            exists|news: News<T>| #[trigger] old(self).delivers(final(self), news, woke),
            final(self).wf(),
    {
        let mut held: Option<ProgressTracker<T>> = None;
        core::mem::swap(&mut held, &mut self.progress_tracker);
        match held {
            None => {
                proof {
                    self.lemma_told_nothing();
                    assert(old(self).delivers(self, no_news::<T>(), false));
                }
                false
            },
            Some(mut tracker) => {
                let ghost b = tracker@;
                let (reports, outstanding) = self.outstanding();
                let dirty = tracker.propagate(outstanding);
                self.deliver_frontiers(&tracker, &dirty);
                let woke_listed = wake_listed(&mut self.schedule, &self.index_to_pos, &dirty);
                let flags = self.ready_flags();
                let woke_flagged = wake_flagged(&mut self.schedule, &flags);
                let woke = woke_listed || woke_flagged;
                if woke {
                    self.consecutive_idle = 0;
                }
                self.update_probes(&tracker);
                self.progress_tracker = Some(tracker);
                assert(old(self).delivers(
                    self,
                    News { reports: reports@ },
                    woke,
                ));
                woke
            },
        }
    }

    proof fn lemma_told_nothing(&self)
        ensures
            told(self.crew, self.crew),
    {
    }

    /// Puts another operator in the place of each. No operator is lost or added.
    pub fn replace_operators<F: FnMut(BoxedOperator<T>) -> BoxedOperator<T>>(&mut self, wrap: F)
        requires
            old(self).wf(),
            forall|op: BoxedOperator<T>| #[trigger] call_requires(wrap, (op,)),
        ensures
            final(self).wf(),
            final(self).crew.operators@.len() == old(self).crew.operators@.len(),
            forall|p: int|
                0 <= p < old(self).crew.operators@.len() ==> call_ensures(
                    wrap,
                    (old(self).crew.operators@[p],),
                    #[trigger] final(self).crew.operators@[p],
                ),
            *final(self) == (DataflowExecutor {
                crew: Crew { operators: final(self).crew.operators, ..old(self).crew },
                ..*old(self)
            }),
            final(self).schedule@.done == old(self).schedule@.done,
    {
        let mut wrap = wrap;
        let mut given: Vec<BoxedOperator<T>> = Vec::new();
        core::mem::swap(&mut given, &mut self.crew.operators);
        let ghost ops = given@;
        let ghost f = wrap;
        let mut out: Vec<BoxedOperator<T>> = Vec::new();
        for op in it: given
            invariant
                it.seq() == ops,
                wrap == f,
                forall|op: BoxedOperator<T>| #[trigger] call_requires(f, (op,)),
                out@.len() == it.index(),
                forall|p: int|
                    0 <= p < out@.len() ==> call_ensures(f, (ops[p],), #[trigger] out@[p]),
        {
            out.push(wrap(op));
        }
        self.crew.operators = out;
    }

    /// Shows the probes the frontiers of the operators that they watch.
    fn update_probes(&self, tracker: &ProgressTracker<T>)
        ensures
            forall|i: int|
                0 <= i < self.probes@.len() ==> is_shown(tracker@, #[trigger] self.probes@[i]),
    {
        let mut i: usize = 0;
        while i < self.probes.len()
            invariant
                i <= self.probes@.len(),
                forall|k: int| 0 <= k < i ==> is_shown(tracker@, #[trigger] self.probes@[k]),
            decreases self.probes@.len() - i,
        {
            let frontier = tracker.operator_input_frontier_meet(self.probes[i].0);
            self.probes[i].1.update_frontier(&frontier);
            proof {
                let probe = self.probes@[i as int];
                let (before, shown) = choose|before: Option<Antichain<T>>, shown: Antichain<T>|
                    #[trigger]
                    probe.1.seen().turned(before, Some(shown)) && shown@ == frontier@;
                assert(probe.1.seen().turned(before, Some(shown)));
                assert(is_shown(tracker@, probe));
            }
            i = i + 1;
        }
    }
}

impl<T: Timestamp> DataflowExecutor<T> {
    /// Makes a sweep.
    pub fn run_one_sweep(&mut self) -> (r: Result<SweepOutcome>)
        requires
            old(self).wf(),
        ensures
            old(self).sweeps(final(self), r),
            final(self).wf(),
            final(self).same_setting(old(self)),
            r matches Ok(SweepOutcome::Completed) ==> final(self).rests(true),
            r matches Ok(SweepOutcome::Quiescent) ==> final(self).rests(false),
    {
        match &self.control_receiver {
            Some(receiver) => {
                let _signals = receiver.try_recv();
            },
            None => {},
        }
        let cancelled = self.cancel.is_cancelled();
        let expired = match (&self.drain_started, self.config.drain_timeout) {
            (Some(start), Some(millis)) => reaches_millis(nanos_since(start), millis),
            _ => false,
        };
        let over = self.begin_sweep(cancelled, expired);
        let ghost begun = *self;
        let ghost mut course = Course {
            cancelled,
            expired,
            inputs_open: false,
            news: no_news::<T>(),
            woke: false,
            begun,
            over,
            activated: begun,
            progress: over,
            delivered: begun,
        };
        match over {
            Err(e) => {
                let r = Err(e);
                assert(old(self).sweeps_by(self, course, r));
                return r;
            },
            Ok(b) => {
                if b {
                    let r = Ok(SweepOutcome::Completed);
                    assert(old(self).sweeps_by(self, course, r));
                    return r;
                }
            },
        }
        let activated = self.activate_operators();
        proof {
            course = Course { activated: *self, progress: activated, ..course };
        }
        match activated {
            Err(e) => {
                let r = Err(e);
                assert(old(self).sweeps_by(self, course, r));
                r
            },
            Ok(progress) => {
                let ghost before = *self;
                let woke = self.propagate_progress();
                let ghost news = choose|news: News<T>| #[trigger] before.delivers(self, news, woke);
                let open: usize = self.external_inputs_open.get();
                let inputs_open = open > 0;
                assert(old(self).external_inputs_open.turned(open, open));
                let ghost delivered = *self;
                let outcome = self.conclude_sweep(progress, inputs_open);
                let r = Ok(outcome);
                proof {
                    course = Course { inputs_open, news, woke, delivered, ..course };
                    assert(old(self).sweeps_by(self, course, r));
                }
                r
            },
        }
    }

    /// Notes how long the dataflow has been running, if metrics are collected.
    fn update_wall_time_metric(&mut self)
        ensures
            final(self).settles(old(self)),
    {
        match &self.wall_start {
            Some(start) => {
                let nanos = nanos_since(start);
                match &mut self.crew.metrics {
                    Some(m) => {
                        m.set_wall_nanos(nanos);
                    },
                    None => {},
                }
            },
            None => {},
        }
    }

    /// Makes sweeps until the dataflow is complete (`true`) or quiescent (`false`), or fails.
    pub fn run(&mut self) -> (r: Result<bool>)
        requires
            old(self).wf(),
        ensures
            final(self).wf(),
            final(self).same_setting(old(self)),
            exists|h: History<T>| #[trigger] old(self).runs_by(final(self), r, h),
            r matches Ok(complete) ==> final(self).rests(complete),
    {
        self.run_with(
            ||
                {
                },
        )
    }

    /// Makes sweeps until the dataflow is complete (`true`) or quiescent (`false`), or fails.
    /// Calls `wait` after each sweep that leaves nothing to do but to wait.
    pub fn run_with<W: FnMut()>(&mut self, wait: W) -> (r: Result<bool>)
        requires
            old(self).wf(),
            call_requires(wait, ()),
        ensures
            final(self).wf(),
            final(self).same_setting(old(self)),
            exists|h: History<T>| #[trigger] old(self).runs_by(final(self), r, h),
            r matches Ok(complete) ==> final(self).rests(complete),
    {
        let mut wait = wait;
        let mut sweeps: u64 = 0;
        let mut result: Result<bool> = Err(Error::SweepLimit);
        let mut running = true;
        let ghost mut h = History { states: seq![*self], outcomes: Seq::empty() };
        while running && sweeps < u64::MAX
            invariant
                self.wf(),
                self.same_setting(old(self)),
                call_requires(wait, ()),
                running ==> result == Err::<bool, Error>(Error::SweepLimit),
                old(self).passes(self, h),
                h.outcomes.len() == sweeps,
                forall|i: int| 0 <= i < h.outcomes.len() - 1 ==> goes_on(#[trigger] h.outcomes[i]),
                running ==> forall|i: int|
                    0 <= i < h.outcomes.len() ==> goes_on(#[trigger] h.outcomes[i]),
                !running ==> h.outcomes.len() > 0 && !goes_on(h.outcomes.last()) && result
                    == run_result(h.outcomes.last()),
                result matches Ok(complete) ==> self.rests(complete),
            decreases u64::MAX - sweeps,
        {
            sweeps = sweeps + 1;
            let ghost seen = h;
            let swept = self.run_one_sweep();
            proof {
                h = History {
                    states: seen.states.push(*self),
                    outcomes: seen.outcomes.push(swept),
                };
                assert(old(self).passes(self, h)) by {
                    assert forall|i: int| 0 <= i < h.outcomes.len() implies h.states[i].sweeps(
                        &h.states[i + 1],
                        #[trigger] h.outcomes[i],
                    ) by {
                        if i < seen.outcomes.len() {
                            assert(h.outcomes[i] == seen.outcomes[i]);
                        }
                    }
                }
            }
            match swept {
                Err(e) => {
                    result = Err(e);
                    running = false;
                },
                Ok(outcome) => {
                    match outcome {
                        SweepOutcome::Completed => {
                            result = Ok(true);
                            running = false;
                        },
                        SweepOutcome::Quiescent => {
                            result = Ok(false);
                            running = false;
                        },
                        SweepOutcome::MadeProgress => {},
                        SweepOutcome::Idle => {
                            if self.draining {
                                wait();
                            }
                        },
                        SweepOutcome::WaitingForInput => {
                            wait();
                        },
                    }
                },
            }
        }
        self.update_wall_time_metric();
        proof {
            assert(old(self).runs_by(self, result, h));
        }
        result
    }

    /// Makes sweeps until the dataflow is complete, quiescent or failed, until it has to wait, or
    /// until the budget of sweeps is used up. Where it is not over, `waker` is woken when there is
    /// something to do.
    pub fn poll_run(&mut self, waker: &Waker) -> (p: PollOutcome)
        requires
            old(self).wf(),
        ensures
            final(self).wf(),
            final(self).same_setting(old(self)),
            exists|h: History<T>| #[trigger]
                old(self).polls_by(final(self), p, h) && h.outcomes.len() > 0
                    && old(self).wake_handle.signalled(old(self).signal_at(h.outcomes)),
            p matches PollOutcome::Ready(Ok(complete)) ==> final(self).rests(complete),
    {
        let budget: usize = self.config.max_sweeps_per_poll;
        let mut sweeps_this_poll: usize = 0;
        let mut sweeps: u64 = 0;
        let ghost mut h = History { states: seq![*self], outcomes: Seq::empty() };
        while sweeps < u64::MAX
            invariant
                self.wf(),
                self.same_setting(old(self)),
                budget == self.config.max_sweeps_per_poll,
                budget > 0 ==> sweeps_this_poll < budget && sweeps_this_poll == busy_sweeps(
                    h.outcomes,
                ),
                budget == old(self).config.max_sweeps_per_poll,
                old(self).passes(self, h),
                h.outcomes.len() == sweeps,
                sweeps > 0 ==> old(self).wake_handle.signalled(
                    old(self).signal_at(h.outcomes),
                ),
                h.outcomes.len() > 0 && budget > 0 ==> busy_sweeps(h.outcomes.drop_last())
                    < budget,
                forall|i: int| 0 <= i < h.outcomes.len() ==> goes_on(#[trigger] h.outcomes[i]),
            decreases u64::MAX - sweeps,
        {
            sweeps = sweeps + 1;
            let ghost seen = h;
            let swept = self.run_one_sweep();
            proof {
                h = History {
                    states: seen.states.push(*self),
                    outcomes: seen.outcomes.push(swept),
                };
                assert(h.outcomes.drop_last() =~= seen.outcomes);
                assert(old(self).passes(self, h)) by {
                    assert forall|i: int| 0 <= i < h.outcomes.len() implies h.states[i].sweeps(
                        &h.states[i + 1],
                        #[trigger] h.outcomes[i],
                    ) by {
                        if i < seen.outcomes.len() {
                            assert(h.outcomes[i] == seen.outcomes[i]);
                        }
                    }
                }
                assert forall|i: int| 0 <= i < h.outcomes.len() - 1 implies goes_on(
                    #[trigger] h.outcomes[i],
                ) by {
                    assert(h.outcomes[i] == seen.outcomes[i]);
                }
            }
            let seen_outcome = match &swept {
                Ok(outcome) => Some(*outcome),
                Err(_) => None,
            };
            let busy = match seen_outcome {
                Some(SweepOutcome::MadeProgress) | Some(SweepOutcome::Idle) => true,
                _ => false,
            };
            if busy && budget > 0 {
                sweeps_this_poll = sweeps_this_poll + 1;
            }
            let spent = budget > 0 && sweeps_this_poll >= budget;
            let signal = decide_signal(seen_outcome, spent);
            self.wake_handle.signal(signal, waker);
            assert(signal == old(self).signal_at(h.outcomes));
            match swept {
                Err(e) => {
                    self.update_wall_time_metric();
                    let p = PollOutcome::Ready(Err(e));
                    assert(old(self).polls_by(self, p, h));
                    return p;
                },
                Ok(SweepOutcome::Completed) => {
                    self.update_wall_time_metric();
                    let p = PollOutcome::Ready(Ok(true));
                    assert(old(self).polls_by(self, p, h));
                    return p;
                },
                Ok(SweepOutcome::Quiescent) => {
                    self.update_wall_time_metric();
                    let p = PollOutcome::Ready(Ok(false));
                    assert(old(self).polls_by(self, p, h));
                    return p;
                },
                Ok(SweepOutcome::WaitingForInput) => {
                    if !self.wake_handle.take_notification() {
                        self.update_wall_time_metric();
                        let p = PollOutcome::Pending;
                        assert(old(self).polls_by(self, p, h));
                        return p;
                    }
                },
                Ok(SweepOutcome::MadeProgress) | Ok(SweepOutcome::Idle) => {
                    if spent {
                        self.update_wall_time_metric();
                        let p = PollOutcome::Pending;
                        assert(old(self).polls_by(self, p, h));
                        return p;
                    }
                },
            }
        }
        self.update_wall_time_metric();
        let p = PollOutcome::Ready(Err(Error::SweepLimit));
        assert(old(self).polls_by(self, p, h));
        p
    }
}

} // verus!
