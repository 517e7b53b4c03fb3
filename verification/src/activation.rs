//! The ways in which a sweep activates operators.

use std::time::Instant;
use vstd::prelude::*;
use crate::control::ControlSender;
use crate::error::{with_worker, Error, Result};
use crate::metrics::{tallied, DataflowMetrics, MetricsView};
use crate::order::Timestamp;
use crate::schedulable::{
    activate_operator, comes_of, ActivationOutcome, Answer, BoxedOperator, PanicPayload,
};
use crate::schedule::{Schedule, ScheduleView};
use crate::timing::nanos_since;

verus! {

/// An activation that came to an end without an error.
pub struct Activation {
    pub pos: usize,
    pub outcome: ActivationOutcome,
}

/// The outcomes of activations.
pub open spec fn outcomes(run: Seq<Activation>) -> Seq<ActivationOutcome> {
    run.map_values(|a: Activation| a.outcome)
}

/// The positions of activations.
pub open spec fn positions(run: Seq<Activation>) -> Seq<usize> {
    run.map_values(|a: Activation| a.pos)
}

/// How many of the activations were at `p`.
pub open spec fn count_at(run: Seq<Activation>, p: int) -> nat
    decreases run.len(),
{
    if run.len() == 0 {
        0
    } else {
        count_at(run.drop_last(), p) + if run.last().pos as int == p {
            1nat
        } else {
            0
        }
    }
}

/// What the operator at `p` answered in the activations.
pub open spec fn given_at(run: Seq<Activation>, p: int) -> Seq<Answer>
    decreases run.len(),
{
    if run.len() == 0 {
        Seq::empty()
    } else {
        let before = given_at(run.drop_last(), p);
        if run.last().pos as int == p {
            before.push(Ok(Ok(run.last().outcome)))
        } else {
            before
        }
    }
}

/// An activation that came to an error.
pub struct Failure {
    pub pos: usize,
    pub error: Error,
}

/// The operators of an executor, with what is needed to activate them.
#[verifier::reject_recursive_types(T)]
pub struct Crew<T: Timestamp> {
    pub operators: Vec<BoxedOperator<T>>,
    pub metrics: Option<DataflowMetrics>,
    pub control_sender: Option<ControlSender>,
    pub worker_index: usize,
    pub catch_panics: bool,
    /// The activations so far.
    pub trace: Ghost<Seq<Activation>>,
}

/// What stays the same of a crew, whatever is activated.
pub open spec fn same_crew<T: Timestamp>(a: Crew<T>, b: Crew<T>) -> bool {
    &&& a.operators@.len() == b.operators@.len()
    &&& a.control_sender == b.control_sender
    &&& a.worker_index == b.worker_index
    &&& a.catch_panics == b.catch_panics
    &&& a.metrics is Some == b.metrics is Some
}

/// The activations since an earlier state of a crew.
pub open spec fn since<T: Timestamp>(before: Crew<T>, after: Crew<T>) -> Seq<Activation> {
    after.trace@.skip(before.trace@.len() as int)
}

/// The error of a failed activation of the operator with the given name: what the operator answered,
/// or what reports its panic, with the worker filled in.
pub open spec fn fails_with(label: Seq<char>, answer: Answer, worker: usize, e: Error) -> bool {
    exists|e0: Error|
        comes_of(label, answer, Err::<ActivationOutcome, Error>(e0)) && e == #[trigger] with_worker(
            e0,
            worker,
        )
}

/// How often the operator at `p` was activated.
pub open spec fn rounds_at(run: Seq<Activation>, failed: Option<Failure>, p: int) -> nat {
    count_at(run, p) + if failed matches Some(f) && f.pos as int == p {
        1nat
    } else {
        0
    }
}

/// The metrics after some activations, if metrics are collected: the counters have grown by the
/// activations of their operators.
pub open spec fn is_tallied(
    before: Option<DataflowMetrics>,
    after: Option<DataflowMetrics>,
    run: Seq<Activation>,
    failed: Option<Failure>,
) -> bool {
    match (before, after) {
        (Some(b), Some(a)) => {
            &&& a@ == (MetricsView {
                activations: a@.activations,
                cpu_nanos: a@.cpu_nanos,
                ..b@
            })
            &&& a@.activations.len() == b@.activations.len()
            &&& forall|p: int|
                0 <= p < b@.activations.len() ==> #[trigger] a@.activations[p] == tallied(
                    b@.activations[p],
                    rounds_at(run, failed, p) as int,
                )
        },
        (None, None) => true,
        _ => false,
    }
}

/// The crew went from one state to another by the activations that the later trace shows, and by
/// one more that came to an error, if there is one.
pub open spec fn ran<T: Timestamp>(
    before: Crew<T>,
    after: Crew<T>,
    failed: Option<Failure>,
) -> bool {
    let run = since(before, after);
    &&& same_crew(before, after)
    &&& before.trace@.len() <= after.trace@.len()
    &&& after.trace@.take(before.trace@.len() as int) == before.trace@
    &&& is_tallied(before.metrics, after.metrics, run, failed)
    &&& forall|p: int|
        0 <= p < before.operators@.len() ==> did(
            before.operators@[p],
            #[trigger] after.operators@[p],
            given_at(run, p),
            failed,
            p,
        )
    &&& failed matches Some(f) ==> f.pos < after.operators@.len() && fails_with(
        after.operators@[f.pos as int].label(),
        after.operators@[f.pos as int].answers().last(),
        after.worker_index,
        f.error,
    )
}

/// The operator at `p` answered `given`, and once more if it is the one that failed.
pub open spec fn did<T: Timestamp>(
    before: BoxedOperator<T>,
    after: BoxedOperator<T>,
    given: Seq<Answer>,
    failed: Option<Failure>,
    p: int,
) -> bool {
    after.continues(
        &before,
        if failed matches Some(f) && f.pos as int == p {
            given.push(after.answers().last())
        } else {
            given
        },
    )
}

/// The operator at `pos` was activated, which came to `r`. An error has the worker filled in.
pub open spec fn activated<T: Timestamp>(
    before: Crew<T>,
    after: Crew<T>,
    pos: usize,
    r: Result<ActivationOutcome>,
) -> bool {
    let op = after.operators@[pos as int];
    &&& same_crew(before, after)
    &&& op.continues(&before.operators@[pos as int], seq![op.answers().last()])
    &&& !before.catch_panics ==> op.answers().last() is Ok
    &&& forall|q: int|
        0 <= q < before.operators@.len() && q != pos ==> #[trigger] after.operators@[q]
            == before.operators@[q]
    &&& r matches Ok(o) ==> {
        &&& op.answers().last() == Ok::<Result<ActivationOutcome>, PanicPayload>(Ok(o))
        &&& after.trace@ == before.trace@.push(Activation { pos, outcome: o })
    }
    &&& r matches Err(e) ==> {
        &&& fails_with(op.label(), op.answers().last(), before.worker_index, e)
        &&& after.trace@ == before.trace@
    }
    &&& match (before.metrics, after.metrics) {
        (Some(b), Some(a)) => exists|nanos: u64| a@ == #[trigger] b@.recorded(pos as int, nanos),
        (None, None) => true,
        _ => false,
    }
}

proof fn lemma_ran_nothing<T: Timestamp>(a: Crew<T>)
    ensures
        ran(a, a, None),
        since(a, a) == Seq::<Activation>::empty(),
{
    assert(since(a, a) =~= Seq::<Activation>::empty());
    assert(a.trace@.take(a.trace@.len() as int) =~= a.trace@);
    assert forall|p: int| 0 <= p < a.operators@.len() implies did(
        a.operators@[p],
        #[trigger] a.operators@[p],
        given_at(since(a, a), p),
        None,
        p,
    ) by {
        assert(a.operators@[p].answers() + Seq::<Answer>::empty()
            =~= a.operators@[p].answers());
    }
}

/// One more activation.
proof fn lemma_ran_more<T: Timestamp>(a: Crew<T>, b: Crew<T>, c: Crew<T>, p: usize, r: Result<
    ActivationOutcome,
>)
    requires
        ran(a, b, None),
        p < b.operators@.len(),
        activated(b, c, p, r),
    ensures
        r matches Ok(o) ==> ran(a, c, None) && since(a, c) == since(a, b).push(
            Activation { pos: p, outcome: o },
        ),
        r matches Err(e) ==> ran(a, c, Some(Failure { pos: p, error: e })) && since(a, c)
            == since(a, b),
{
    let run0 = since(a, b);
    let run = since(a, c);
    let failed = match r {
        Ok(_) => None,
        Err(e) => Some(Failure { pos: p, error: e }),
    };
    match r {
        Ok(o) => {
            assert(run =~= run0.push(Activation { pos: p, outcome: o }));
            assert(run.drop_last() =~= run0);
        },
        Err(_) => {
            assert(run =~= run0);
        },
    }
    assert(c.trace@.take(a.trace@.len() as int) =~= a.trace@);
    assert forall|q: int| 0 <= q < a.operators@.len() implies did(
        a.operators@[q],
        #[trigger] c.operators@[q],
        given_at(run, q),
        failed,
        q,
    ) by {
        assert(did(a.operators@[q], b.operators@[q], given_at(run0, q), None, q));
        if q == p {
            let last = c.operators@[q].answers().last();
            assert(a.operators@[q].answers() + given_at(run0, q) + seq![last]
                =~= a.operators@[q].answers() + given_at(run0, q).push(last));
        }
    }
    match (a.metrics, b.metrics, c.metrics) {
        (Some(x), Some(y), Some(z)) => {
            let nanos = choose|nanos: u64| z@ == #[trigger] y@.recorded(p as int, nanos);
            assert(z@ == y@.recorded(p as int, nanos));
            assert forall|q: int| 0 <= q < x@.activations.len() implies #[trigger] z@.activations[q]
                == tallied(x@.activations[q], rounds_at(run, failed, q) as int) by {
                assert(y@.activations[q] == tallied(
                    x@.activations[q],
                    rounds_at(run0, None, q) as int,
                ));
            }
        },
        _ => {},
    }
    assert(is_tallied(a.metrics, c.metrics, run, failed));
    match r {
        Ok(_) => {},
        Err(e) => {
            assert(fails_with(
                c.operators@[p as int].label(),
                c.operators@[p as int].answers().last(),
                c.worker_index,
                e,
            ));
        },
    }
    assert(ran(a, c, failed));
}

impl<T: Timestamp> Crew<T> {
    /// Activates the operator at `pos`. An error gets the worker filled in and is told to the
    /// other workers.
    pub fn activate(&mut self, pos: usize) -> (r: Result<ActivationOutcome>)
        requires
            pos < old(self).operators@.len(),
        ensures
            activated(*old(self), *final(self), pos, r),
    {
        let start = match &self.metrics {
            Some(_) => Some(Instant::now()),
            None => None,
        };
        let r = activate_operator(&mut self.operators[pos], self.catch_panics);
        match (&mut self.metrics, &start) {
            (Some(m), Some(s)) => {
                let nanos: u64 = nanos_since(s);
                let ghost before = m@;
                m.record_activation(pos, nanos);
                assert(m@ == before.recorded(pos as int, nanos));
            },
            _ => {},
        }
        match r {
            Ok(outcome) => {
                proof {
                    self.trace@ = self.trace@.push(Activation { pos, outcome });
                }
                Ok(outcome)
            },
            Err(e) => {
                let enriched = e.with_operator_context(self.worker_index);
                assert(enriched == with_worker(e, self.worker_index));
                match &self.control_sender {
                    Some(sender) => {
                        sender.broadcast_error(
                            self.operators[pos].name().to_owned(),
                            enriched.to_text(),
                        );
                    },
                    None => {},
                }
                Err(enriched)
            },
        }
    }
}

/// How far a sweep over the queue has come.
pub struct QueueRun {
    pub s: ScheduleView,
    /// How many outcomes were used up.
    pub used: nat,
    /// The operators that were activated.
    pub order: Seq<usize>,
    /// Whether some activation was productive.
    pub progress: bool,
}

/// A sweep over the first `k` entries of the queue: each is taken out; unless it has finished, it
/// is activated, and what that achieves decides where it goes. `given` are the outcomes of the
/// activations, in order.
pub open spec fn queue_run(s: ScheduleView, k: nat, given: Seq<ActivationOutcome>) -> QueueRun
    decreases k,
{
    if k == 0 {
        QueueRun { s, used: 0, order: Seq::empty(), progress: false }
    } else {
        let before = queue_run(s, (k - 1) as nat, given);
        if before.s.ready.len() == 0 {
            before
        } else {
            let p = before.s.ready[0];
            let taken = before.s.popped();
            if taken.done[p as int] {
                QueueRun { s: taken, ..before }
            } else {
                let outcome = given[before.used as int];
                QueueRun {
                    s: taken.after(p, outcome),
                    used: before.used + 1,
                    order: before.order.push(p),
                    progress: before.progress || outcome.productive(),
                }
            }
        }
    }
}

/// Later outcomes have no influence on what came before them.
proof fn lemma_queue_run_stable(
    s: ScheduleView,
    k: nat,
    given: Seq<ActivationOutcome>,
    more: ActivationOutcome,
)
    requires
        queue_run(s, k, given).used <= given.len(),
    ensures
        queue_run(s, k, given.push(more)) == queue_run(s, k, given),
    decreases k,
{
    if k > 0 {
        let before = queue_run(s, (k - 1) as nat, given);
        lemma_queue_run_used(s, k, given);
        lemma_queue_run_stable(s, (k - 1) as nat, given, more);
        if before.s.ready.len() > 0 && !before.s.popped().done[before.s.ready[0] as int] {
            assert(given.push(more)[before.used as int] == given[before.used as int]);
        }
    }
}

proof fn lemma_queue_run_used(s: ScheduleView, k: nat, given: Seq<ActivationOutcome>)
    ensures
        k > 0 ==> queue_run(s, (k - 1) as nat, given).used <= queue_run(s, k, given).used,
        queue_run(s, k, given).order.len() == queue_run(s, k, given).used,
    decreases k,
{
    if k > 0 {
        lemma_queue_run_used(s, (k - 1) as nat, given);
    }
}

/// The error `e` stopped the sweep when the entry behind the first `j` ones was activated.
pub open spec fn queue_stops<T: Timestamp>(
    crew: Crew<T>,
    start: ScheduleView,
    after: (Crew<T>, ScheduleView),
    j: nat,
    e: Error,
) -> bool {
    let run = since(crew, after.0);
    let end = queue_run(start, j, outcomes(run));
    &&& end.order == positions(run)
    &&& end.s.ready.len() > 0
    &&& !end.s.done[end.s.ready[0] as int]
    &&& ran(crew, after.0, Some(Failure { pos: end.s.ready[0], error: e }))
    &&& end.s.popped() == after.1
}

/// What a sweep over the queue does, given what the crew did: at most `max` entries are taken out
/// of the refilled queue; an error stops the sweep behind the entry that caused it.
pub open spec fn is_queue_sweep<T: Timestamp>(
    before: (Crew<T>, ScheduleView),
    after: (Crew<T>, ScheduleView),
    max: usize,
    r: Result<bool>,
) -> bool {
    let start = before.1.refilled();
    let run = since(before.0, after.0);
    let k = if start.ready.len() <= max {
        start.ready.len()
    } else {
        max as nat
    };
    match r {
        Ok(progress) => {
            let end = queue_run(start, k, outcomes(run));
            &&& ran(before.0, after.0, None)
            &&& end.order == positions(run)
            &&& end.s == after.1
            &&& end.progress == progress
        },
        Err(e) => exists|j: nat| j < k && #[trigger] queue_stops(before.0, start, after, j, e),
    }
}

/// Sweeps over the queue: fills it, takes out up to `max` operators and activates those that have
/// not finished. Returns whether some activation was productive.
pub fn run_unfused_activation<T: Timestamp>(
    crew: &mut Crew<T>,
    schedule: &mut Schedule,
    max: usize,
) -> (r: Result<bool>)
    requires
        old(schedule)@.fits(old(crew).operators@.len()),
        old(schedule)@.tasks.len() == 0,
    ensures
        is_queue_sweep(
            (*old(crew), old(schedule)@),
            (*final(crew), final(schedule)@),
            max,
            r,
        ),
        final(schedule)@.fits(final(crew).operators@.len()),
        final(schedule)@.tasks.len() == 0,
        same_crew(*old(crew), *final(crew)),
{
    let ghost n = crew.operators@.len();
    schedule.refill();
    let ghost start = schedule@;
    let mut any_progress = false;
    let batch: usize = if schedule.ready_queue.len() <= max {
        schedule.ready_queue.len()
    } else {
        max
    };
    let mut k: usize = 0;
    proof {
        lemma_ran_nothing(*crew);
        assert(outcomes(since(*old(crew), *crew)) =~= Seq::<ActivationOutcome>::empty());
        assert(positions(since(*old(crew), *crew)) =~= Seq::<usize>::empty());
    }
    while k < batch
        invariant
            k <= batch,
            batch == if start.ready.len() <= max {
                start.ready.len()
            } else {
                max as nat
            },
            n == old(crew).operators@.len(),
            start == old(schedule)@.refilled(),
            start.fits(n),
            schedule@.fits(n),
            schedule@.done.len() == n,
            schedule@.tasks.len() == 0,
            ran(*old(crew), *crew, None),
            ({
                let run = since(*old(crew), *crew);
                let end = queue_run(start, k as nat, outcomes(run));
                &&& end.order == positions(run)
                &&& end.s == schedule@
                &&& end.progress == any_progress
            }),
        decreases batch - k,
    {
        let ghost before_crew = *crew;
        let ghost run0 = since(*old(crew), *crew);
        let ghost s0 = schedule@;
        if schedule.ready_queue.len() > 0 {
            let p: usize = schedule.pop();
            if !schedule.done[p] {
                let r = crew.activate(p);
                match r {
                    Ok(outcome) => {
                        proof {
                            lemma_ran_more(*old(crew), before_crew, *crew, p, r);
                            let run = since(*old(crew), *crew);
                            assert(outcomes(run) =~= outcomes(run0).push(outcome));
                            assert(positions(run) =~= positions(run0).push(p));
                            lemma_queue_run_used(start, k as nat, outcomes(run0));
                            assert(outcomes(run0).len() == positions(run0).len());
                            lemma_queue_run_stable(start, k as nat, outcomes(run0), outcome);
                            assert(outcomes(run)[queue_run(
                                start,
                                k as nat,
                                outcomes(run0),
                            ).used as int] == outcome);
                        }
                        schedule.record(p, outcome);
                        any_progress = match outcome {
                            ActivationOutcome::MadeProgress => true,
                            ActivationOutcome::BlockedOnBackpressure => true,
                            ActivationOutcome::Done => true,
                            _ => any_progress,
                        };
                    },
                    Err(e) => {
                        proof {
                            lemma_ran_more(
                                *old(crew),
                                before_crew,
                                *crew,
                                p,
                                Err::<ActivationOutcome, Error>(e),
                            );
                            let run = since(*old(crew), *crew);
                            let end = queue_run(start, k as nat, outcomes(run));
                            assert(run == run0);
                            assert(end.s == s0);
                            assert(end.s.ready[0] == p);
                            let before = (*old(crew), old(schedule)@);
                            let after = (*crew, schedule@);
                            assert(queue_stops(
                                before.0,
                                before.1.refilled(),
                                after,
                                k as nat,
                                e,
                            ));
                        }
                        return Err(e);
                    },
                }
            }
        }
        k = k + 1;
    }
    Ok(any_progress)
}

/// How far a fused sweep has come.
pub struct FusedRun {
    pub s: ScheduleView,
    /// The place in the order that is visited next.
    pub at: int,
    /// Whether the current pass made progress that calls for another pass.
    pub again: bool,
    /// How many outcomes were used up.
    pub used: nat,
    /// The operators that were activated.
    pub order: Seq<usize>,
    /// How many activations were productive.
    pub productive: nat,
    /// Whether the sweep is over.
    pub over: bool,
}

/// The start of a fused sweep.
pub open spec fn fused_start(s: ScheduleView) -> FusedRun {
    FusedRun {
        s,
        at: 0,
        again: false,
        used: 0,
        order: Seq::empty(),
        productive: 0,
        over: false,
    }
}

/// The fixed circumstances of a fused sweep.
pub struct FusedPlan {
    /// The operators in the order of the visits.
    pub order: Seq<usize>,
    /// How many productive activations are allowed.
    pub budget: nat,
    /// Whether operators that finish wake those behind them.
    pub wakes: bool,
}

/// The next step of a fused sweep: at the end of a pass another one begins if there was progress;
/// operators that have finished are passed over; the sweep is over when the budget is used up; all
/// others are activated.
pub open spec fn fused_step(
    plan: FusedPlan,
    run: FusedRun,
    given: Seq<ActivationOutcome>,
) -> FusedRun {
    if run.over {
        run
    } else if run.at >= plan.order.len() {
        if run.again {
            FusedRun { at: 0, again: false, ..run }
        } else {
            FusedRun { over: true, ..run }
        }
    } else {
        let p = plan.order[run.at];
        if run.s.done[p as int] {
            FusedRun { at: run.at + 1, ..run }
        } else if run.productive >= plan.budget {
            FusedRun { over: true, ..run }
        } else {
            let outcome = given[run.used as int];
            FusedRun {
                s: run.s.after_fused(p, outcome, plan.wakes),
                at: run.at + 1,
                again: run.again || outcome is MadeProgress || outcome is BlockedOnBackpressure,
                used: run.used + 1,
                order: run.order.push(p),
                productive: run.productive + if outcome.productive() {
                    1nat
                } else {
                    0
                },
                over: false,
            }
        }
    }
}

/// The first `m` steps of a fused sweep. `given` are the outcomes of the activations, in order.
pub open spec fn fused_run(
    plan: FusedPlan,
    s: ScheduleView,
    m: nat,
    given: Seq<ActivationOutcome>,
) -> FusedRun
    decreases m,
{
    if m == 0 {
        fused_start(s)
    } else {
        fused_step(plan, fused_run(plan, s, (m - 1) as nat, given), given)
    }
}

/// The end of a fused sweep.
pub open spec fn fused_end(
    plan: FusedPlan,
    s: ScheduleView,
    given: Seq<ActivationOutcome>,
) -> FusedRun {
    fused_run(plan, s, choose|m: nat| #[trigger] fused_run(plan, s, m, given).over, given)
}

/// Whenever a fused sweep is over, it has come to the same end.
pub proof fn fused_end_is_unique(
    plan: FusedPlan,
    s: ScheduleView,
    m: nat,
    given: Seq<ActivationOutcome>,
)
    requires
        fused_run(plan, s, m, given).over,
    ensures
        fused_run(plan, s, m, given) == fused_end(plan, s, given),
{
    let e = choose|m: nat| #[trigger] fused_run(plan, s, m, given).over;
    if m <= e {
        lemma_fused_stays(plan, s, m, e, given);
    } else {
        lemma_fused_stays(plan, s, e, m, given);
    }
}

proof fn lemma_fused_stays(
    plan: FusedPlan,
    s: ScheduleView,
    m: nat,
    n: nat,
    given: Seq<ActivationOutcome>,
)
    requires
        m <= n,
        fused_run(plan, s, m, given).over,
    ensures
        fused_run(plan, s, n, given) == fused_run(plan, s, m, given),
    decreases n,
{
    if m < n {
        lemma_fused_stays(plan, s, m, (n - 1) as nat, given);
    }
}

proof fn lemma_fused_used(plan: FusedPlan, s: ScheduleView, m: nat, given: Seq<ActivationOutcome>)
    ensures
        m > 0 ==> fused_run(plan, s, (m - 1) as nat, given).used <= fused_run(
            plan,
            s,
            m,
            given,
        ).used,
        fused_run(plan, s, m, given).order.len() == fused_run(plan, s, m, given).used,
        fused_run(plan, s, m, given).productive <= fused_run(plan, s, m, given).used,
    decreases m,
{
    if m > 0 {
        lemma_fused_used(plan, s, (m - 1) as nat, given);
    }
}

/// Later outcomes have no influence on what came before them.
proof fn lemma_fused_stable(
    plan: FusedPlan,
    s: ScheduleView,
    m: nat,
    given: Seq<ActivationOutcome>,
    more: Seq<ActivationOutcome>,
)
    requires
        fused_run(plan, s, m, given).used <= given.len(),
    ensures
        fused_run(plan, s, m, given + more) == fused_run(plan, s, m, given),
    decreases m,
{
    if m > 0 {
        lemma_fused_used(plan, s, m, given);
        lemma_fused_stable(plan, s, (m - 1) as nat, given, more);
        let before = fused_run(plan, s, (m - 1) as nat, given);
        if before.used < given.len() {
            assert((given + more)[before.used as int] == given[before.used as int]);
        }
    }
}

/// What a fused sweep does, given what the crew did.
pub open spec fn is_fused_sweep<T: Timestamp>(
    plan: FusedPlan,
    before: (Crew<T>, ScheduleView),
    after: (Crew<T>, ScheduleView),
    r: Result<(bool, usize)>,
) -> bool {
    let run = since(before.0, after.0);
    match r {
        Ok((progress, productive)) => {
            let end = fused_end(plan, before.1, outcomes(run));
            &&& ran(before.0, after.0, None)
            &&& end.over
            &&& end.order == positions(run)
            &&& end.s == after.1
            &&& end.productive == productive
            &&& progress == (productive > 0)
        },
        Err(e) => exists|m: nat| #[trigger] fused_stops(plan, before, after, m, e),
    }
}

/// The error `e` stopped the fused sweep at the activation behind the first `m` steps.
pub open spec fn fused_stops<T: Timestamp>(
    plan: FusedPlan,
    before: (Crew<T>, ScheduleView),
    after: (Crew<T>, ScheduleView),
    m: nat,
    e: Error,
) -> bool {
    let run = since(before.0, after.0);
    let end = fused_run(plan, before.1, m, outcomes(run));
    &&& !end.over
    &&& end.at < plan.order.len()
    &&& end.productive < plan.budget
    &&& !end.s.done[plan.order[end.at] as int]
    &&& end.order == positions(run)
    &&& end.s == after.1
    &&& ran(before.0, after.0, Some(Failure { pos: plan.order[end.at], error: e }))
}

/// Visits operators in a fixed order, pass after pass, until a pass makes no progress or the
/// budget of productive activations is used up. Returns whether there was progress, and the number
/// of productive activations.
pub fn run_fused_passes<T: Timestamp>(
    crew: &mut Crew<T>,
    schedule: &mut Schedule,
    order: &Vec<usize>,
    budget: usize,
    wakes: bool,
) -> (r: Result<(bool, usize)>)
    requires
        old(schedule)@.fits(old(crew).operators@.len()),
        forall|i: int|
            0 <= i < order@.len() ==> #[trigger] order@[i] < old(crew).operators@.len(),
    ensures
        is_fused_sweep(
            (FusedPlan { order: order@, budget: budget as nat, wakes }),
            (*old(crew), old(schedule)@),
            (*final(crew), final(schedule)@),
            r,
        ),
        final(schedule)@.fits(final(crew).operators@.len()),
        final(schedule)@.tasks == old(schedule)@.tasks,
        same_crew(*old(crew), *final(crew)),
        r matches Ok((_, productive)) ==> productive <= budget,
{
    let ghost n = crew.operators@.len();
    let ghost plan = FusedPlan { order: order@, budget: budget as nat, wakes };
    let ghost start = schedule@;
    let ghost mut m: nat = 0;
    let mut at: usize = 0;
    let mut again = false;
    let mut productive: usize = 0;
    proof {
        lemma_ran_nothing(*crew);
        assert(outcomes(since(*old(crew), *crew)) =~= Seq::<ActivationOutcome>::empty());
        assert(positions(since(*old(crew), *crew)) =~= Seq::<usize>::empty());
    }
    loop
        invariant
            n == old(crew).operators@.len(),
            start == old(schedule)@,
            plan == (FusedPlan { order: order@, budget: budget as nat, wakes }),
            forall|i: int| 0 <= i < order@.len() ==> #[trigger] order@[i] < n,
            at <= order@.len(),
            productive <= budget,
            schedule@.fits(n),
            schedule@.done.len() == n,
            schedule@.tasks == start.tasks,
            ran(*old(crew), *crew, None),
            ({
                let run = since(*old(crew), *crew);
                let end = fused_run(plan, start, m, outcomes(run));
                &&& !end.over
                &&& end.at == at
                &&& end.again == again
                &&& end.productive == productive
                &&& end.order == positions(run)
                &&& end.s == schedule@
            }),
            again ==> productive > 0,
        decreases budget - productive, (if again { 1int } else { 0int }), order@.len() - at,
    {
        let ghost before_crew = *crew;
        let ghost run0 = since(*old(crew), *crew);
        let ghost given = outcomes(run0);
        let ghost state = fused_run(plan, start, m, given);
        proof {
            lemma_fused_used(plan, start, m, given);
            assert(given.len() == positions(run0).len());
            assert(fused_run(plan, start, m + 1, given) == fused_step(plan, state, given));
        }
        if at >= order.len() {
            if again {
                at = 0;
                again = false;
                proof {
                    m = m + 1;
                }
                continue ;
            }
            proof {
                fused_end_is_unique(plan, start, m + 1, given);
            }
            return Ok((productive > 0, productive));
        }
        let p: usize = order[at];
        if schedule.done[p] {
            at = at + 1;
            proof {
                m = m + 1;
            }
            continue ;
        }
        if productive >= budget {
            proof {
                fused_end_is_unique(plan, start, m + 1, given);
            }
            return Ok((productive > 0, productive));
        }
        let r = crew.activate(p);
        match r {
            Ok(outcome) => {
                proof {
                    lemma_ran_more(*old(crew), before_crew, *crew, p, r);
                    let run = since(*old(crew), *crew);
                    assert(outcomes(run) =~= given + seq![outcome]);
                    assert(positions(run) =~= positions(run0).push(p));
                    lemma_fused_stable(plan, start, m, given, seq![outcome]);
                    assert(outcomes(run)[state.used as int] == outcome);
                    assert(fused_run(plan, start, m + 1, outcomes(run)) == fused_step(
                        plan,
                        state,
                        outcomes(run),
                    ));
                    m = m + 1;
                }
                schedule.record_fused(p, outcome, wakes);
                at = at + 1;
                match outcome {
                    ActivationOutcome::MadeProgress | ActivationOutcome::BlockedOnBackpressure => {
                        productive = productive + 1;
                        again = true;
                    },
                    ActivationOutcome::Done => {
                        productive = productive + 1;
                    },
                    _ => {},
                }
            },
            Err(e) => {
                proof {
                    lemma_ran_more(
                        *old(crew),
                        before_crew,
                        *crew,
                        p,
                        Err::<ActivationOutcome, Error>(e),
                    );
                    assert(fused_stops(plan, (*old(crew), start), (*crew, schedule@), m, e));
                }
                return Err(e);
            },
        }
    }
}

/// How far a sweep over stage tasks has come.
pub struct StageRun {
    pub s: ScheduleView,
    /// How many outcomes were used up.
    pub used: nat,
    /// The operators that were activated.
    pub order: Seq<usize>,
    /// How many activations were productive.
    pub productive: nat,
    /// Whether the outcomes sufficed so far.
    pub sound: bool,
}

/// The first stage task leaves the queue.
pub open spec fn task_popped(s: ScheduleView) -> ScheduleView {
    ScheduleView {
        ready: s.ready.drop_first(),
        task_in_queue: s.task_in_queue.update(s.ready[0] as int, false),
        ..s
    }
}

/// None of the operators of a stage task awaits results.
pub open spec fn task_unwaiting(s: ScheduleView, t: int) -> ScheduleView {
    ScheduleView {
        waiting: Seq::new(
            s.waiting.len(),
            |p: int| s.waiting[p] && !s.tasks[t].contains(p as usize),
        ),
        ..s
    }
}

/// The circumstances in which a stage task runs.
pub open spec fn task_plan(s: ScheduleView, t: int, budget: nat) -> FusedPlan {
    FusedPlan { order: s.tasks[t], budget, wakes: false }
}

/// What a stage task gets of the budget after so many productive activations: what is left of it, but
/// at least one activation, so that no task starves.
pub open spec fn task_share(budget: nat, productive: nat) -> nat {
    if productive < budget {
        (budget - productive) as nat
    } else {
        1
    }
}

/// A sweep over the first `k` stage tasks of the queue: each is taken out; unless its operators
/// have all finished, they are run in a fused sweep with what the task gets of the budget.
pub open spec fn stage_run(
    s: ScheduleView,
    k: nat,
    budget: nat,
    given: Seq<ActivationOutcome>,
) -> StageRun
    decreases k,
{
    if k == 0 {
        StageRun { s, used: 0, order: Seq::empty(), productive: 0, sound: true }
    } else {
        let before = stage_run(s, (k - 1) as nat, budget, given);
        if before.s.ready.len() == 0 {
            before
        } else {
            let t = before.s.ready[0] as int;
            let taken = task_popped(before.s);
            if taken.task_done(t) {
                StageRun { s: taken, ..before }
            } else {
                let rest = given.skip(before.used as int);
                let end = fused_end(
                    task_plan(taken, t, task_share(budget, before.productive)),
                    task_unwaiting(taken, t),
                    rest,
                );
                StageRun {
                    s: end.s,
                    used: before.used + end.used,
                    order: before.order + end.order,
                    productive: before.productive + end.productive,
                    sound: before.sound && end.over && before.used + end.used <= given.len(),
                }
            }
        }
    }
}

/// Later outcomes have no influence on what came before them.
proof fn lemma_stage_stable(
    s: ScheduleView,
    k: nat,
    budget: nat,
    given: Seq<ActivationOutcome>,
    more: Seq<ActivationOutcome>,
)
    requires
        stage_run(s, k, budget, given).sound,
    ensures
        stage_run(s, k, budget, given + more) == stage_run(s, k, budget, given),
        stage_run(s, k, budget, given).used <= given.len(),
    decreases k,
{
    if k > 0 {
        lemma_stage_stable(s, (k - 1) as nat, budget, given, more);
        let before = stage_run(s, (k - 1) as nat, budget, given);
        if before.s.ready.len() > 0 {
            let t = before.s.ready[0] as int;
            let taken = task_popped(before.s);
            if !taken.task_done(t) {
                let rest = given.skip(before.used as int);
                let plan = task_plan(taken, t, task_share(budget, before.productive));
                let from = task_unwaiting(taken, t);
                let m = choose|m: nat| #[trigger] fused_run(plan, from, m, rest).over;
                assert(fused_run(plan, from, m, rest).over);
                assert((given + more).skip(before.used as int) =~= rest + more);
                lemma_fused_stable(plan, from, m, rest, more);
                fused_end_is_unique(plan, from, m, rest + more);
            }
        }
    }
}

/// What a sweep over the stage tasks does, given what the crew did.
pub open spec fn is_stage_sweep<T: Timestamp>(
    before: (Crew<T>, ScheduleView),
    after: (Crew<T>, ScheduleView),
    budget: usize,
    r: Result<bool>,
) -> bool {
    let start = before.1.refilled_tasks();
    let run = since(before.0, after.0);
    match r {
        Ok(progress) => {
            let end = stage_run(start, start.ready.len(), budget as nat, outcomes(run));
            &&& ran(before.0, after.0, None)
            &&& end.sound
            &&& end.order == positions(run)
            &&& end.s == after.1
            &&& progress == (end.productive > 0)
        },
        Err(e) => exists|k: nat, m: nat|
            k < start.ready.len() && #[trigger] stage_stops(
                before.0,
                start,
                after,
                budget as nat,
                k,
                m,
                e,
            ),
    }
}

/// The error `e` stopped a sweep over the stage tasks in the task behind the first `k` ones, at the
/// activation behind the first `m` steps of its fused sweep. The flags of operators that await
/// results are as they were before that task.
pub open spec fn stage_stops<T: Timestamp>(
    crew: Crew<T>,
    start: ScheduleView,
    after: (Crew<T>, ScheduleView),
    budget: nat,
    k: nat,
    m: nat,
    e: Error,
) -> bool {
    let run = since(crew, after.0);
    let before = stage_run(start, k, budget, outcomes(run));
    let t = before.s.ready[0] as int;
    let taken = task_popped(before.s);
    let plan = task_plan(taken, t, task_share(budget, before.productive));
    let end = fused_run(
        plan,
        task_unwaiting(taken, t),
        m,
        outcomes(run).skip(before.used as int),
    );
    &&& before.sound
    &&& before.s.ready.len() > 0
    &&& !taken.task_done(t)
    &&& !end.over
    &&& end.at < plan.order.len()
    &&& end.productive < plan.budget
    &&& !end.s.done[plan.order[end.at] as int]
    &&& before.order + end.order == positions(run)
    &&& ran(crew, after.0, Some(Failure { pos: plan.order[end.at], error: e }))
    &&& after.1 == (ScheduleView { waiting: taken.waiting, ..end.s })
}

/// Adds up what the crew did before and since.
proof fn lemma_ran_on<T: Timestamp>(a: Crew<T>, b: Crew<T>, c: Crew<T>, failed: Option<Failure>)
    requires
        ran(a, b, None),
        ran(b, c, failed),
    ensures
        ran(a, c, failed),
        since(a, c) == since(a, b) + since(b, c),
{
    let first = since(a, b);
    let second = since(b, c);
    assert(since(a, c) =~= first + second) by {
        assert(b.trace@ =~= a.trace@ + first);
        assert(c.trace@ =~= b.trace@ + second);
    }
    assert(c.trace@.take(a.trace@.len() as int) =~= a.trace@) by {
        assert(c.trace@.take(a.trace@.len() as int) =~= b.trace@.take(a.trace@.len() as int));
    }
    assert forall|p: int| 0 <= p < a.operators@.len() implies did(
        a.operators@[p],
        #[trigger] c.operators@[p],
        given_at(since(a, c), p),
        failed,
        p,
    ) by {
        lemma_given_concat(first, second, p);
        assert(did(a.operators@[p], b.operators@[p], given_at(first, p), None, p));
        let last = c.operators@[p].answers().last();
        let (x, y) = (given_at(first, p), given_at(second, p));
        assert(a.operators@[p].answers() + x + y =~= a.operators@[p].answers() + (x + y));
        assert(a.operators@[p].answers() + x + y.push(last) =~= a.operators@[p].answers() + (x
            + y).push(last));
    }
    match (a.metrics, b.metrics, c.metrics) {
        (Some(x), Some(y), Some(z)) => {
            assert forall|p: int| 0 <= p < x@.activations.len() implies #[trigger] z@.activations[p]
                == tallied(
                x@.activations[p],
                rounds_at(since(a, c), failed, p) as int,
            ) by {
                lemma_count_concat(first, second, p);
                assert(y@.activations[p] == tallied(
                    x@.activations[p],
                    rounds_at(first, None, p) as int,
                ));
            }
        },
        _ => {},
    }
}

proof fn lemma_given_concat(a: Seq<Activation>, b: Seq<Activation>, p: int)
    ensures
        given_at(a + b, p) == given_at(a, p) + given_at(b, p),
    decreases b.len(),
{
    if b.len() == 0 {
        assert(a + b =~= a);
        assert(given_at(a, p) + given_at(b, p) =~= given_at(a, p));
    } else {
        assert((a + b).drop_last() =~= a + b.drop_last());
        lemma_given_concat(a, b.drop_last(), p);
        assert(given_at(a + b, p) =~= given_at(a, p) + given_at(b, p));
    }
}

proof fn lemma_count_concat(a: Seq<Activation>, b: Seq<Activation>, p: int)
    ensures
        count_at(a + b, p) == count_at(a, p) + count_at(b, p),
    decreases b.len(),
{
    if b.len() == 0 {
        assert(a + b =~= a);
    } else {
        assert((a + b).drop_last() =~= a + b.drop_last());
        lemma_count_concat(a, b.drop_last(), p);
    }
}

/// Runs the operators of a stage task in a fused sweep. An error leaves the flags of operators
/// that await results as they were.
fn run_stage_task<T: Timestamp>(
    crew: &mut Crew<T>,
    schedule: &mut Schedule,
    t: usize,
    budget: usize,
) -> (r: Result<(bool, usize)>)
    requires
        old(schedule)@.fits(old(crew).operators@.len()),
        t < old(schedule)@.tasks.len(),
    ensures
        final(schedule)@.fits(final(crew).operators@.len()),
        final(schedule)@.tasks == old(schedule)@.tasks,
        same_crew(*old(crew), *final(crew)),
        r matches Ok((_, productive)) ==> productive <= budget,
        r is Ok ==> is_fused_sweep(
            task_plan(old(schedule)@, t as int, budget as nat),
            (*old(crew), task_unwaiting(old(schedule)@, t as int)),
            (*final(crew), final(schedule)@),
            r,
        ),
        r matches Err(e) ==> exists|m: nat, s: ScheduleView|
            #[trigger] fused_stops(
                task_plan(old(schedule)@, t as int, budget as nat),
                (*old(crew), task_unwaiting(old(schedule)@, t as int)),
                (*final(crew), s),
                m,
                e,
            ) && final(schedule)@ == (ScheduleView { waiting: old(schedule)@.waiting, ..s }),
{
    let ghost n = crew.operators@.len();
    let ghost start = schedule@;
    assert(start.tasks[t as int] == schedule.stage_tasks@[t as int].operator_positions@);
    let mut order: Vec<usize> = Vec::new();
    let mut i: usize = 0;
    while i < schedule.stage_tasks[t].operator_positions.len()
        invariant
            schedule@ == start,
            t < schedule.stage_tasks@.len(),
            start.tasks[t as int] == schedule.stage_tasks@[t as int].operator_positions@,
            i <= start.tasks[t as int].len(),
            order@ == start.tasks[t as int].take(i as int),
        decreases start.tasks[t as int].len() - i,
    {
        order.push(schedule.stage_tasks[t].operator_positions[i]);
        assert(order@ =~= start.tasks[t as int].take(i + 1));
        i = i + 1;
    }
    assert(order@ =~= start.tasks[t as int]);
    assert forall|k: int| 0 <= k < order@.len() implies #[trigger] order@[k] < n by {
        assert(start.tasks[t as int][k] < n);
    }
    let mut saved: Vec<bool> = Vec::new();
    let mut cleared: Vec<bool> = Vec::new();
    let mut p: usize = 0;
    while p < schedule.async_waiting.len()
        invariant
            schedule@ == start,
            p <= start.waiting.len(),
            saved@ == start.waiting.take(p as int),
            cleared@ == saved@,
        decreases start.waiting.len() - p,
    {
        saved.push(schedule.async_waiting[p]);
        cleared.push(schedule.async_waiting[p]);
        assert(saved@ =~= start.waiting.take(p + 1));
        p = p + 1;
    }
    assert(saved@ =~= start.waiting);
    let mut j: usize = 0;
    while j < order.len()
        invariant
            j <= order@.len(),
            start.waiting.len() == n,
            cleared@.len() == n,
            forall|k: int| 0 <= k < order@.len() ==> #[trigger] order@[k] < n,
            forall|q: int|
                0 <= q < n ==> #[trigger] cleared@[q] == (start.waiting[q] && !order@.take(
                    j as int,
                ).contains(q as usize)),
            n <= usize::MAX,
        decreases order@.len() - j,
    {
        let ghost before = cleared@;
        cleared.set(order[j], false);
        proof {
            assert forall|q: int| 0 <= q < n implies #[trigger] cleared@[q] == (start.waiting[q]
                && !order@.take(j + 1).contains(q as usize)) by {
                assert(before[q] == (start.waiting[q] && !order@.take(j as int).contains(
                    q as usize,
                )));
                let longer = order@.take(j + 1);
                let shorter = order@.take(j as int);
                assert(longer =~= shorter.push(order@[j as int]));
                if shorter.contains(q as usize) {
                    let k = choose|k: int| 0 <= k < shorter.len() && shorter[k] == q as usize;
                    assert(longer[k] == q as usize);
                }
                if longer.contains(q as usize) {
                    let k = choose|k: int| 0 <= k < longer.len() && longer[k] == q as usize;
                    if k < shorter.len() {
                        assert(shorter[k] == q as usize);
                    }
                }
                if q == order@[j as int] {
                    assert(longer[j as int] == q as usize);
                }
            }
        }
        j = j + 1;
    }
    assert(order@.take(j as int) =~= order@);
    schedule.async_waiting = cleared;
    assert(schedule@.waiting =~= task_unwaiting(start, t as int).waiting);
    assert(schedule@ == task_unwaiting(start, t as int));
    let ghost plan = task_plan(start, t as int, budget as nat);
    let r = run_fused_passes(crew, schedule, &order, budget, false);
    match r {
        Ok(x) => Ok(x),
        Err(e) => {
            let ghost stopped = schedule@;
            let ghost m = choose|m: nat| #[trigger]
                fused_stops(
                    plan,
                    (*old(crew), task_unwaiting(start, t as int)),
                    (*crew, schedule@),
                    m,
                    e,
                );
            schedule.async_waiting = saved;
            proof {
                assert(fused_stops(
                    plan,
                    (*old(crew), task_unwaiting(start, t as int)),
                    (*crew, stopped),
                    m,
                    e,
                ));
                assert(schedule@ == (ScheduleView { waiting: start.waiting, ..stopped }));
            }
            Err(e)
        },
    }
}

/// Sweeps over the stage tasks: fills the queue with those that have not finished and runs each
/// with what is left of the budget, but with at least one productive activation: a stage in front
/// that keeps producing does not starve those behind it. Returns whether some activation was
/// productive.
pub fn run_stage_task_activation<T: Timestamp>(
    crew: &mut Crew<T>,
    schedule: &mut Schedule,
    budget: usize,
) -> (r: Result<bool>)
    requires
        old(schedule)@.fits(old(crew).operators@.len()),
        old(schedule)@.tasks.len() > 0,
    ensures
        is_stage_sweep(
            (*old(crew), old(schedule)@),
            (*final(crew), final(schedule)@),
            budget,
            r,
        ),
        final(schedule)@.fits(final(crew).operators@.len()),
        final(schedule)@.tasks == old(schedule)@.tasks,
        same_crew(*old(crew), *final(crew)),
{
    let ghost n = crew.operators@.len();
    schedule.refill_tasks();
    let ghost start = schedule@;
    let batch: usize = schedule.ready_queue.len();
    let mut left: usize = budget;
    let mut progress = false;
    let mut k: usize = 0;
    proof {
        lemma_ran_nothing(*crew);
        assert(outcomes(since(*old(crew), *crew)) =~= Seq::<ActivationOutcome>::empty());
        assert(positions(since(*old(crew), *crew)) =~= Seq::<usize>::empty());
    }
    while k < batch
        invariant
            k <= batch,
            batch == start.ready.len(),
            n == old(crew).operators@.len(),
            start == old(schedule)@.refilled_tasks(),
            schedule@.fits(n),
            schedule@.done.len() == n,
            schedule@.tasks == start.tasks,
            start.tasks.len() > 0,
            ran(*old(crew), *crew, None),
            left <= budget,
            ({
                let run = since(*old(crew), *crew);
                let end = stage_run(start, k as nat, budget as nat, outcomes(run));
                &&& end.sound
                &&& end.order == positions(run)
                &&& end.used == run.len()
                &&& end.s == schedule@
                &&& left == if end.productive < budget {
                    budget - end.productive
                } else {
                    0
                }
                &&& progress == (end.productive > 0)
            }),
        decreases batch - k,
    {
        let ghost before_crew = *crew;
        let ghost run0 = since(*old(crew), *crew);
        let ghost given = outcomes(run0);
        let ghost state = stage_run(start, k as nat, budget as nat, given);
        if schedule.ready_queue.len() > 0 {
            let t: usize = schedule.pop_task();
            if !schedule.task_done(t) {
                let ghost taken = schedule@;
                let share: usize = if left > 0 {
                    left
                } else {
                    1
                };
                let r = run_stage_task(crew, schedule, t, share);
                match r {
                    Ok((_, more)) => {
                        proof {
                            lemma_ran_on(*old(crew), before_crew, *crew, None);
                            let run1 = since(before_crew, *crew);
                            let run = since(*old(crew), *crew);
                            let inner = outcomes(run1);
                            assert(outcomes(run) =~= given + inner);
                            assert(positions(run) =~= positions(run0) + positions(run1));
                            lemma_stage_stable(start, k as nat, budget as nat, given, inner);
                            assert(outcomes(run).skip(state.used as int) =~= inner);
                            let plan = task_plan(taken, t as int, share as nat);
                            let end = fused_end(plan, task_unwaiting(taken, t as int), inner);
                            let m = choose|m: nat| #[trigger]
                                fused_run(plan, task_unwaiting(taken, t as int), m, inner).over;
                            lemma_fused_used(plan, task_unwaiting(taken, t as int), m, inner);
                            assert(end.used == positions(run1).len());
                            assert(taken == task_popped(state.s));
                        }
                        progress = progress || more > 0;
                        left = if more < left {
                            left - more
                        } else {
                            0
                        };
                    },
                    Err(e) => {
                        proof {
                            let plan = task_plan(taken, t as int, share as nat);
                            let from = task_unwaiting(taken, t as int);
                            let (m, s) = choose|m: nat, s: ScheduleView|
                                #[trigger] fused_stops(
                                    plan,
                                    (before_crew, from),
                                    (*crew, s),
                                    m,
                                    e,
                                ) && schedule@ == (ScheduleView {
                                    waiting: taken.waiting,
                                    ..s
                                });
                            let run1 = since(before_crew, *crew);
                            let inner = outcomes(run1);
                            let end = fused_run(plan, from, m, inner);
                            let p = plan.order[end.at];
                            lemma_ran_on(
                                *old(crew),
                                before_crew,
                                *crew,
                                Some(Failure { pos: p, error: e }),
                            );
                            let run = since(*old(crew), *crew);
                            assert(outcomes(run) =~= given + inner);
                            assert(positions(run) =~= positions(run0) + positions(run1));
                            lemma_stage_stable(start, k as nat, budget as nat, given, inner);
                            assert(outcomes(run).skip(state.used as int) =~= inner);
                            assert(taken == task_popped(state.s));
                            let before = (*old(crew), old(schedule)@);
                            let after = (*crew, schedule@);
                            assert(stage_stops(
                                before.0,
                                before.1.refilled_tasks(),
                                after,
                                budget as nat,
                                k as nat,
                                m,
                                e,
                            ));
                        }
                        return Err(e);
                    },
                }
            }
        }
        k = k + 1;
    }
    Ok(progress)
}

} // verus!
